use vstd::prelude::*;

verus! {

/// Id of the connector placed at the query's start on its nearest segment.
pub open spec fn start_id() -> Seq<char> {
    seq!['#', 's', 't', 'a', 'r', 't']
}

/// Id of the connector placed at the query's stop on its nearest segment.
pub open spec fn stop_id() -> Seq<char> {
    seq!['#', 's', 't', 'o', 'p']
}

fn start_id_string() -> (r: String)
    ensures
        r@ == start_id(),
{
    let r = "#start".to_owned();
    proof {
        reveal_strlit("#start");
        assert(r@ =~= start_id());
    }
    r
}

fn stop_id_string() -> (r: String)
    ensures
        r@ == stop_id(),
{
    let r = "#stop".to_owned();
    proof {
        reveal_strlit("#stop");
        assert(r@ =~= stop_id());
    }
    r
}

/// A named point of the network.
#[derive(Clone, Debug)]
pub struct Connector<P> {
    pub id: String,
    pub point: P,
}

/// A named piece of the network's geometry and the ids of the connectors on it.
#[derive(Clone, Debug)]
pub struct Segment<G> {
    pub id: String,
    pub geometry: G,
    pub connectors: Vec<String>,
}

impl<P> Connector<P> {
    pub fn new(id: String, point: P) -> (r: Connector<P>)
        ensures
            r.id == id,
            r.point == point,
    {
        Connector { id, point }
    }

    pub fn get_id(&self) -> (r: String)
        ensures
            r@ == self.id@,
    {
        self.id.clone()
    }

    pub fn get_point(&self) -> (r: &P)
        ensures
            *r == self.point,
    {
        &self.point
    }
}

impl<G> Segment<G> {
    pub fn new(id: String, geometry: G, connectors: Vec<String>) -> (r: Segment<G>)
        ensures
            r.id == id,
            r.geometry == geometry,
            r.connectors == connectors,
    {
        Segment { id, geometry, connectors }
    }

    pub fn get_id(&self) -> (r: String)
        ensures
            r@ == self.id@,
    {
        self.id.clone()
    }

    pub fn get_geometry(&self) -> (r: &G)
        ensures
            *r == self.geometry,
    {
        &self.geometry
    }

    pub fn get_connectors(&self) -> (r: &Vec<String>)
        ensures
            *r == self.connectors,
    {
        &self.connectors
    }

    /// The connector ids of this segment as sequences.
    pub open spec fn connector_ids(&self) -> Seq<Seq<char>> {
        self.connectors@.map_values(|c: String| c@)
    }
}

/// Index of the last of the first `n` ids that equals `id`, or -1.
pub open spec fn last_index(ids: Seq<Seq<char>>, id: Seq<char>, n: int) -> int
    decreases n,
{
    if n <= 0 {
        -1
    } else if ids[n - 1] == id {
        n - 1
    } else {
        last_index(ids, id, n - 1)
    }
}

/// The graph node that a connector id names, in a graph over the connectors
/// `ids`: the last connector with that id, or one of the two query
/// connectors, which come after all others and win over a connector that
/// carries their id. -1 for an id that names nothing.
pub open spec fn node_of(ids: Seq<Seq<char>>, id: Seq<char>) -> int {
    if id == start_id() {
        ids.len() as int
    } else if id == stop_id() {
        (ids.len() + 1) as int
    } else {
        last_index(ids, id, ids.len() as int)
    }
}

/// The connector ids on a segment during a search: its own, then the start
/// connector if it shares the id of the start's host segment, then the stop
/// connector likewise.
pub open spec fn endpoint_ids(
    own: Seq<Seq<char>>,
    segment_id: Seq<char>,
    start_host: Seq<char>,
    stop_host: Seq<char>,
) -> Seq<Seq<char>> {
    let a = if segment_id == start_host {
        own.push(start_id())
    } else {
        own
    };
    if segment_id == stop_host {
        a.push(stop_id())
    } else {
        a
    }
}

/// Entries `i` and `j` of `l` are distinct ids naming nodes `u` and `v`.
pub open spec fn joins_at(l: Seq<Seq<char>>, ids: Seq<Seq<char>>, u: int, v: int, i: int, j: int) -> bool {
    &&& u >= 0
    &&& v >= 0
    &&& 0 <= i < l.len()
    &&& 0 <= j < l.len()
    &&& l[i] != l[j]
    &&& node_of(ids, l[i]) == u
    &&& node_of(ids, l[j]) == v
}

/// A segment with the endpoint ids `l` leads from node `u` to node `v`.
pub open spec fn joins(l: Seq<Seq<char>>, ids: Seq<Seq<char>>, u: int, v: int) -> bool {
    exists|i: int, j: int| joins_at(l, ids, u, v, i, j)
}

/// The steps over segment `s` from entry `i` of the endpoint ids `l` to each
/// of the entries before `m` that differ from it and name a node, in order.
pub open spec fn steps_to(l: Seq<Seq<char>>, ids: Seq<Seq<char>>, i: int, s: int, m: int) -> Seq<(usize, usize)>
    decreases m,
{
    if m <= 0 {
        Seq::empty()
    } else {
        let p = steps_to(l, ids, i, s, m - 1);
        if l[m - 1] != l[i] && node_of(ids, l[m - 1]) >= 0 {
            p.push((node_of(ids, l[m - 1]) as usize, s as usize))
        } else {
            p
        }
    }
}

/// What segment `s`, with endpoint ids `l`, adds to the steps out of node
/// `u` from its entries before `m`: for each entry naming `u`, the steps to
/// the other entries.
pub open spec fn steps_added(l: Seq<Seq<char>>, ids: Seq<Seq<char>>, u: int, s: int, m: int) -> Seq<(usize, usize)>
    decreases m,
{
    if m <= 0 {
        Seq::empty()
    } else {
        let p = steps_added(l, ids, u, s, m - 1);
        if node_of(ids, l[m - 1]) == u {
            p + steps_to(l, ids, m - 1, s, l.len() as int)
        } else {
            p
        }
    }
}

/// `a[u]` lists the step to node `v` over segment `s`.
pub open spec fn has_step(a: Seq<Vec<(usize, usize)>>, u: int, v: int, s: int) -> bool {
    0 <= u < a.len() && exists|k: int| 0 <= k < a[u]@.len() && a[u]@[k] == (v as usize, s as usize)
}

/// Every step listed in `a` is still listed, at the same place, in `b`.
pub open spec fn grows(a: Seq<Vec<(usize, usize)>>, b: Seq<Vec<(usize, usize)>>) -> bool {
    &&& a.len() == b.len()
    &&& forall|x: int, k: int|
        #![trigger b[x]@[k]]
        0 <= x < a.len() && 0 <= k < a[x]@.len() ==> k < b[x]@.len() && b[x]@[k] == a[x]@[k]
}

proof fn lemma_grows(a: Seq<Vec<(usize, usize)>>, b: Seq<Vec<(usize, usize)>>)
    requires
        grows(a, b),
    ensures
        forall|x: int, v: int, t: int| #[trigger] has_step(a, x, v, t) ==> has_step(b, x, v, t),
{
    assert forall|x: int, v: int, t: int| #[trigger] has_step(a, x, v, t) implies has_step(b, x, v, t) by {
        let k = choose|k: int| 0 <= k < a[x]@.len() && a[x]@[k] == (v as usize, t as usize);
        assert(b[x]@[k] == a[x]@[k]);
    }
}

pub proof fn lemma_node_range(ids: Seq<Seq<char>>, id: Seq<char>)
    ensures
        -1 <= node_of(ids, id) <= ids.len() + 1,
        node_of(ids, id) < ids.len() && node_of(ids, id) >= 0 ==> ids[node_of(ids, id)] == id,
{
    lemma_last_index_range(ids, id, ids.len() as int);
}

proof fn lemma_last_index_range(ids: Seq<Seq<char>>, id: Seq<char>, n: int)
    requires
        0 <= n <= ids.len(),
    ensures
        -1 <= last_index(ids, id, n) < n,
        last_index(ids, id, n) >= 0 ==> ids[last_index(ids, id, n)] == id,
    decreases n,
{
    if n > 0 {
        lemma_last_index_range(ids, id, n - 1);
    }
}

/// The segments and connectors of a transport network, in insertion order.
#[derive(Debug)]
pub struct Router<G, P> {
    segments: Vec<Segment<G>>,
    connectors: Vec<Connector<P>>,
}

impl<G, P> Router<G, P> {
    pub closed spec fn spec_segments(&self) -> Seq<Segment<G>> {
        self.segments@
    }

    pub closed spec fn spec_connectors(&self) -> Seq<Connector<P>> {
        self.connectors@
    }

    /// Ids of the connectors, in insertion order.
    pub open spec fn connector_ids(&self) -> Seq<Seq<char>> {
        self.spec_connectors().map_values(|c: Connector<P>| c.id@)
    }

    /// The endpoint ids of segment `s` in a search whose start lies on segment
    /// `start_host` and whose stop lies on segment `stop_host`.
    pub open spec fn endpoints(&self, s: int, start_host: int, stop_host: int) -> Seq<Seq<char>> {
        endpoint_ids(
            self.spec_segments()[s].connector_ids(),
            self.spec_segments()[s].id@,
            self.spec_segments()[start_host].id@,
            self.spec_segments()[stop_host].id@,
        )
    }

    /// The steps out of node `u` that segments before `t` give, segment by
    /// segment, in a search with the given host segments.
    pub open spec fn steps_out(&self, u: int, t: int, start_host: int, stop_host: int) -> Seq<(usize, usize)>
        decreases t,
    {
        if t <= 0 {
            Seq::empty()
        } else {
            let l = self.endpoints(t - 1, start_host, stop_host);
            self.steps_out(u, t - 1, start_host, stop_host) + steps_added(l, self.connector_ids(), u, t - 1, l.len() as int)
        }
    }

    /// Number of graph nodes in a search: every connector, then start and stop.
    pub open spec fn node_count(&self) -> nat {
        self.spec_connectors().len() + 2
    }

    pub fn new() -> (r: Router<G, P>)
        ensures
            r.spec_segments().len() == 0,
            r.spec_connectors().len() == 0,
    {
        Router { segments: Vec::new(), connectors: Vec::new() }
    }

    pub fn push_segment(&mut self, segment: Segment<G>)
        ensures
            final(self).spec_segments() == old(self).spec_segments().push(segment),
            final(self).spec_connectors() == old(self).spec_connectors(),
    {
        self.segments.push(segment);
    }

    pub fn push_connector(&mut self, connector: Connector<P>)
        ensures
            final(self).spec_connectors() == old(self).spec_connectors().push(connector),
            final(self).spec_segments() == old(self).spec_segments(),
    {
        self.connectors.push(connector);
    }

    /// Number of stored segments.
    pub fn segments_len(&self) -> (r: usize)
        ensures
            r == self.spec_segments().len(),
    {
        self.segments.len()
    }

    /// Number of stored connectors.
    pub fn connectors_len(&self) -> (r: usize)
        ensures
            r == self.spec_connectors().len(),
    {
        self.connectors.len()
    }

    pub fn segments(&self) -> (r: &Vec<Segment<G>>)
        ensures
            r@ == self.spec_segments(),
    {
        &self.segments
    }

    pub fn connectors(&self) -> (r: &Vec<Connector<P>>)
        ensures
            r@ == self.spec_connectors(),
    {
        &self.connectors
    }

    /// The node that `id` names (see [`node_of`]), if any.
    fn find_node(&self, id: &String, start: &String, stop: &String) -> (r: Option<usize>)
        requires
            start@ == start_id(),
            stop@ == stop_id(),
            self.spec_connectors().len() + 2 <= usize::MAX,
        ensures
            node_of(self.connector_ids(), id@) == -1 ==> r.is_none(),
            node_of(self.connector_ids(), id@) != -1 ==> r == Some(
                node_of(self.connector_ids(), id@) as usize,
            ),
    {
        let n = self.connectors.len();
        if *id == *start {
            return Some(n);
        }
        if *id == *stop {
            return Some(n + 1);
        }
        let ghost ids = self.connector_ids();
        let mut i: usize = n;
        while i > 0
            invariant
                i <= n,
                n == ids.len(),
                ids == self.connector_ids(),
                id@ != start_id(),
                id@ != stop_id(),
                last_index(ids, id@, n as int) == last_index(ids, id@, i as int),
            decreases i,
        {
            proof {
                assert(ids[i - 1] == self.connectors@[i - 1].id@);
            }
            if self.connectors[i - 1].id == *id {
                proof {
                    assert(last_index(ids, id@, i as int) == i - 1);
                }
                return Some(i - 1);
            }
            i = i - 1;
        }
        None
    }

    /// The search graph for a query whose start lies on segment `start_host`
    /// and whose stop lies on segment `stop_host`. Entry `u` lists the steps
    /// `(v, s)` out of node `u`: to node `v` over segment `s`. Nodes are the
    /// connectors by index, then start and stop. A segment leads from each of
    /// its endpoint ids that names a node to each other one that does.
    pub fn neighbours(&self, start_host: usize, stop_host: usize) -> (a: Vec<Vec<(usize, usize)>>)
        requires
            start_host < self.spec_segments().len(),
            stop_host < self.spec_segments().len(),
            self.spec_connectors().len() + 2 <= usize::MAX,
        ensures
            a@.len() == self.node_count(),
            forall|u: int| 0 <= u < a@.len() ==> (#[trigger] a@[u])@ == self.steps_out(
                u,
                self.spec_segments().len() as int,
                start_host as int,
                stop_host as int,
            ),
            forall|u: int, k: int|
                0 <= u < a@.len() && 0 <= k < a@[u]@.len() ==> {
                    let (v, s) = #[trigger] a@[u]@[k];
                    &&& s < self.spec_segments().len()
                    &&& joins(self.endpoints(s as int, start_host as int, stop_host as int), self.connector_ids(), u, v as int)
                },
            forall|s: int, u: int, v: int|
                0 <= s < self.spec_segments().len() && #[trigger] joins(
                    self.endpoints(s, start_host as int, stop_host as int),
                    self.connector_ids(),
                    u,
                    v,
                ) ==> has_step(a@, u, v, s),
    {
        let ghost ids = self.connector_ids();
        let n = self.connectors.len();
        let start = start_id_string();
        let stop = stop_id_string();
        let mut a: Vec<Vec<(usize, usize)>> = Vec::new();
        let mut u: usize = 0;
        while u < n + 2
            invariant
                u <= n + 2,
                n == ids.len(),
                n + 2 <= usize::MAX,
                a@.len() == u,
                forall|w: int| 0 <= w < u ==> (#[trigger] a@[w])@.len() == 0,
            decreases n + 2 - u,
        {
            a.push(Vec::new());
            u = u + 1;
        }
        proof {
            assert forall|u: int| 0 <= u < n + 2 implies (#[trigger] a@[u])@ == self.steps_out(u, 0, start_host as int, stop_host as int) by {
                assert(a@[u]@ =~= Seq::<(usize, usize)>::empty());
            }
        }
        let mut s: usize = 0;
        while s < self.segments.len()
            invariant
                n == ids.len(),
                ids == self.connector_ids(),
                start@ == start_id(),
                stop@ == stop_id(),
                start_host < self.spec_segments().len(),
                stop_host < self.spec_segments().len(),
                n + 2 <= usize::MAX,
                s <= self.spec_segments().len(),
                a@.len() == n + 2,
                forall|u: int| 0 <= u < n + 2 ==> (#[trigger] a@[u])@ == self.steps_out(u, s as int, start_host as int, stop_host as int),
                forall|w: int, k: int|
                    0 <= w < a@.len() && 0 <= k < a@[w]@.len() ==> {
                        let (v, t) = #[trigger] a@[w]@[k];
                        &&& t < s
                        &&& joins(self.endpoints(t as int, start_host as int, stop_host as int), ids, w, v as int)
                    },
                forall|t: int, w: int, v: int|
                    0 <= t < s && #[trigger] joins(
                        self.endpoints(t, start_host as int, stop_host as int),
                        ids,
                        w,
                        v,
                    ) ==> has_step(a@, w, v, t),
            decreases self.spec_segments().len() - s,
        {
            let seg = &self.segments[s];
            let ghost l = self.endpoints(s as int, start_host as int, stop_host as int);
            let mut list: Vec<String> = Vec::new();
            let mut c: usize = 0;
            while c < seg.connectors.len()
                invariant
                    c <= seg.connectors@.len(),
                    list@.len() == c,
                    forall|k: int| 0 <= k < c ==> (#[trigger] list@[k])@ == seg.connectors@[k]@,
                decreases seg.connectors@.len() - c,
            {
                list.push(seg.connectors[c].clone());
                c = c + 1;
            }
            if seg.id == self.segments[start_host].id {
                list.push(start_id_string());
            }
            if seg.id == self.segments[stop_host].id {
                list.push(stop_id_string());
            }
            proof {
                assert(seg.connector_ids().len() == seg.connectors@.len());
                assert forall|k: int| 0 <= k < l.len() implies (#[trigger] list@[k])@ == l[k] by {}
            }
            let mut nodes: Vec<Option<usize>> = Vec::new();
            let mut k: usize = 0;
            while k < list.len()
                invariant
                    k <= list@.len(),
                    nodes@.len() == k,
                    start@ == start_id(),
                    stop@ == stop_id(),
                    n == ids.len(),
                    ids == self.connector_ids(),
                    n + 2 <= usize::MAX,
                    forall|m: int| 0 <= m < k ==> {
                        &&& node_of(ids, list@[m]@) == -1 ==> (#[trigger] nodes@[m]).is_none()
                        &&& node_of(ids, list@[m]@) != -1 ==> nodes@[m] == Some(node_of(ids, list@[m]@) as usize)
                    },
                decreases list@.len() - k,
            {
                nodes.push(self.find_node(&list[k], &start, &stop));
                k = k + 1;
            }
            proof {
                assert forall|u: int| 0 <= u < n + 2 implies (#[trigger] a@[u])@ == self.steps_out(u, s as int, start_host as int, stop_host as int)
                    + steps_added(l, ids, u, s as int, 0) by {
                    assert(self.steps_out(u, s as int, start_host as int, stop_host as int) + steps_added(l, ids, u, s as int, 0)
                        =~= self.steps_out(u, s as int, start_host as int, stop_host as int));
                }
            }
            let mut i: usize = 0;
            while i < list.len()
                invariant
                    list@.len() == l.len(),
                    nodes@.len() == l.len(),
                    forall|m: int| 0 <= m < l.len() ==> (#[trigger] list@[m])@ == l[m],
                    forall|m: int| 0 <= m < l.len() ==> {
                        &&& node_of(ids, l[m]) == -1 ==> (#[trigger] nodes@[m]).is_none()
                        &&& node_of(ids, l[m]) != -1 ==> nodes@[m] == Some(node_of(ids, l[m]) as usize)
                    },
                    i <= l.len(),
                    n == ids.len(),
                    n + 2 <= usize::MAX,
                    forall|u: int| 0 <= u < n + 2 ==> (#[trigger] a@[u])@ == self.steps_out(u, s as int, start_host as int, stop_host as int)
                        + steps_added(l, ids, u, s as int, i as int),
                    a@.len() == n + 2,
                    s < self.spec_segments().len(),
                    l == self.endpoints(s as int, start_host as int, stop_host as int),
                    forall|w: int, k: int|
                        0 <= w < a@.len() && 0 <= k < a@[w]@.len() ==> {
                            let (v, t) = #[trigger] a@[w]@[k];
                            &&& t <= s
                            &&& joins(self.endpoints(t as int, start_host as int, stop_host as int), ids, w, v as int)
                        },
                    forall|t: int, x: int, v: int|
                        0 <= t < s && #[trigger] joins(
                            self.endpoints(t, start_host as int, stop_host as int),
                            ids,
                            x,
                            v,
                        ) ==> has_step(a@, x, v, t),
                    forall|w: int, v: int, p: int, q: int|
                        0 <= p < i && #[trigger] joins_at(l, ids, w, v, p, q) ==> has_step(a@, w, v, s as int),
                decreases l.len() - i,
            {
                proof {
                    lemma_node_range(ids, l[i as int]);
                }
                match nodes[i] {
                    Some(w) => {
                        let ghost base = self.steps_out(w as int, s as int, start_host as int, stop_host as int)
                            + steps_added(l, ids, w as int, s as int, i as int);
                        proof {
                            assert(base + steps_to(l, ids, i as int, s as int, 0) =~= base);
                        }
                        let mut j: usize = 0;
                        while j < list.len()
                            invariant
                                list@.len() == l.len(),
                                nodes@.len() == l.len(),
                                forall|m: int| 0 <= m < l.len() ==> (#[trigger] list@[m])@ == l[m],
                                forall|m: int| 0 <= m < l.len() ==> {
                                    &&& node_of(ids, l[m]) == -1 ==> (#[trigger] nodes@[m]).is_none()
                                    &&& node_of(ids, l[m]) != -1 ==> nodes@[m] == Some(node_of(ids, l[m]) as usize)
                                },
                                i < l.len(),
                                nodes@[i as int] == Some(w),
                                j <= l.len(),
                                n == ids.len(),
                                n + 2 <= usize::MAX,
                                w == node_of(ids, l[i as int]),
                                base == self.steps_out(w as int, s as int, start_host as int, stop_host as int)
                                    + steps_added(l, ids, w as int, s as int, i as int),
                                forall|u: int| 0 <= u < n + 2 && u != w ==> (#[trigger] a@[u])@ == self.steps_out(u, s as int, start_host as int, stop_host as int)
                                    + steps_added(l, ids, u, s as int, i as int),
                                a@[w as int]@ == self.steps_out(w as int, s as int, start_host as int, stop_host as int)
                                    + steps_added(l, ids, w as int, s as int, i as int) + steps_to(l, ids, i as int, s as int, j as int),
                                a@.len() == n + 2,
                                s < self.spec_segments().len(),
                                l == self.endpoints(s as int, start_host as int, stop_host as int),
                                forall|x: int, k: int|
                                    0 <= x < a@.len() && 0 <= k < a@[x]@.len() ==> {
                                        let (v, t) = #[trigger] a@[x]@[k];
                                        &&& t <= s
                                        &&& joins(self.endpoints(t as int, start_host as int, stop_host as int), ids, x, v as int)
                                    },
                                forall|t: int, x: int, v: int|
                                    0 <= t < s && #[trigger] joins(
                                        self.endpoints(t, start_host as int, stop_host as int),
                                        ids,
                                        x,
                                        v,
                                    ) ==> has_step(a@, x, v, t),
                                forall|x: int, v: int, p: int, q: int|
                                    0 <= p < i && #[trigger] joins_at(l, ids, x, v, p, q) ==> has_step(a@, x, v, s as int),
                                forall|v: int, q: int|
                                    0 <= q < j && #[trigger] joins_at(l, ids, w as int, v, i as int, q) ==> has_step(a@, w as int, v, s as int),
                            decreases l.len() - j,
                        {
                            if !(list[j] == list[i]) {
                                match nodes[j] {
                                    Some(v) => {
                                        proof {
                                            lemma_node_range(ids, l[i as int]);
                                            lemma_node_range(ids, l[j as int]);
                                            assert(nodes@[i as int] == Some(w));
                                            assert(nodes@[j as int] == Some(v));
                                            assert(l[i as int] == list@[i as int]@);
                                            assert(l[j as int] == list@[j as int]@);
                                            assert(joins_at(l, ids, w as int, v as int, i as int, j as int));
                                        }
                                        let ghost mid = a@;
                                        a[w].push((v, s));
                                        proof {
                                            assert(base + steps_to(l, ids, i as int, s as int, j as int).push((v, s))
                                                =~= (base + steps_to(l, ids, i as int, s as int, j as int)).push((v, s)));
                                            assert forall|u: int| 0 <= u < n + 2 && u != w implies #[trigger] a@[u] == mid[u] by {}
                                            assert(a@[w as int]@[mid[w as int]@.len() as int] == (v, s));
                                            assert(grows(mid, a@));
                                            lemma_grows(mid, a@);
                                        }
                                    },
                                    None => {},
                                }
                            }
                            proof {
                                assert(steps_to(l, ids, i as int, s as int, j + 1) == if l[j as int] != l[i as int] && node_of(ids, l[j as int]) >= 0 {
                                    steps_to(l, ids, i as int, s as int, j as int).push((node_of(ids, l[j as int]) as usize, s as usize))
                                } else {
                                    steps_to(l, ids, i as int, s as int, j as int)
                                });
                            }
                            j = j + 1;
                        }
                        proof {
                            assert forall|u: int| 0 <= u < n + 2 implies (#[trigger] a@[u])@ == self.steps_out(u, s as int, start_host as int, stop_host as int)
                                + steps_added(l, ids, u, s as int, i + 1) by {
                                if u == w {
                                    assert(steps_added(l, ids, u, s as int, i + 1) == steps_added(l, ids, u, s as int, i as int)
                                        + steps_to(l, ids, i as int, s as int, l.len() as int));
                                    assert(base + steps_to(l, ids, i as int, s as int, l.len() as int)
                                        =~= self.steps_out(u, s as int, start_host as int, stop_host as int)
                                        + (steps_added(l, ids, u, s as int, i as int) + steps_to(l, ids, i as int, s as int, l.len() as int)));
                                } else {
                                    assert(steps_added(l, ids, u, s as int, i + 1) == steps_added(l, ids, u, s as int, i as int));
                                }
                            }
                        }
                    },
                    None => {
                        proof {
                            assert forall|u: int| 0 <= u < n + 2 implies (#[trigger] a@[u])@ == self.steps_out(u, s as int, start_host as int, stop_host as int)
                                + steps_added(l, ids, u, s as int, i + 1) by {
                                assert(steps_added(l, ids, u, s as int, i + 1) == steps_added(l, ids, u, s as int, i as int));
                            }
                        }
                    },
                }
                i = i + 1;
            }
            proof {
                assert forall|u: int| 0 <= u < n + 2 implies (#[trigger] a@[u])@ == self.steps_out(u, s + 1, start_host as int, stop_host as int) by {
                    assert(self.steps_out(u, s + 1, start_host as int, stop_host as int) == self.steps_out(u, s as int, start_host as int, stop_host as int)
                        + steps_added(l, ids, u, s as int, l.len() as int));
                }
                assert forall|t: int, x: int, v: int|
                    0 <= t < s + 1 && #[trigger] joins(
                        self.endpoints(t, start_host as int, stop_host as int),
                        ids,
                        x,
                        v,
                    ) implies has_step(a@, x, v, t) by {
                    if t == s {
                        let (p, q) = choose|p: int, q: int| joins_at(l, ids, x, v, p, q);
                        assert(joins_at(l, ids, x, v, p, q));
                    }
                }
            }
            s = s + 1;
        }
        a
    }
}

} // verus!
