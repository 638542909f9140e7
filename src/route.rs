use vstd::prelude::*;

verus! {

/// A calculated route: the query's two points and the pieces of segments
/// that lead from the first to the second.
#[derive(Clone, Debug)]
pub struct Route<P, S> {
    stops: Vec<P>,
    segments: Vec<S>,
}

impl<P, S> Route<P, S> {
    pub closed spec fn spec_stops(&self) -> Seq<P> {
        self.stops@
    }

    pub closed spec fn spec_segments(&self) -> Seq<S> {
        self.segments@
    }

    pub fn new(stops: Vec<P>, segments: Vec<S>) -> (r: Route<P, S>)
        ensures
            r.spec_stops() == stops@,
            r.spec_segments() == segments@,
    {
        Route { stops, segments }
    }

    /// The route of a query from `start` to `stop` over `segments`: its stops
    /// are exactly the two query points, in that order.
    pub fn between(start: P, stop: P, segments: Vec<S>) -> (r: Route<P, S>)
        ensures
            r.spec_stops() == seq![start, stop],
            r.spec_segments() == segments@,
    {
        let mut stops: Vec<P> = Vec::new();
        stops.push(start);
        stops.push(stop);
        proof {
            assert(stops@ =~= seq![start, stop]);
        }
        Route { stops, segments }
    }

    /// Stops of the route: first the start, last the stop.
    pub fn get_stops(&self) -> (r: &Vec<P>)
        ensures
            r@ == self.spec_stops(),
    {
        &self.stops
    }

    /// The pieces of the route, in order from the start.
    pub fn get_segments(&self) -> (r: &Vec<S>)
        ensures
            r@ == self.spec_segments(),
    {
        &self.segments
    }
}

} // verus!
