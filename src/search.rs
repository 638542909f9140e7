use crate::graph::{has_step, joins, Router};
use vstd::prelude::*;
use vstd::string::StringSliceAdditionalSpecFns;
use vstd::utf8::encode_utf8;

verus! {

/// Why a route could not be found.
#[derive(Clone, Copy, Debug, PartialEq, Eq, Structural)]
pub enum RoutingError {
    /// The router holds no segment.
    MissingSegments,
    /// A tile could not be fetched.
    TileFetchingError,
    /// A loaded tile could not be parsed.
    TileParsingError,
    /// The stop cannot be reached from the start.
    CouldNotFindRoute,
}

/// One leg of a route: over segment `segment`, from node `from` to node `to`.
#[derive(Clone, Copy, Debug, PartialEq, Eq, Structural)]
pub struct Step {
    pub segment: usize,
    pub from: usize,
    pub to: usize,
}

/// Where a route part begins or ends on its segment.
#[derive(Clone, Copy, Debug, PartialEq, Eq, Structural)]
pub enum Anchor {
    /// The foot of the query's start on its nearest segment.
    Start,
    /// The foot of the query's stop on its nearest segment.
    Stop,
    /// The position of a graph node's point on the part's segment.
    Node(usize),
}

/// A part of a route: a piece of segment `segment` between two anchors.
#[derive(Clone, Copy, Debug, PartialEq, Eq, Structural)]
pub struct RoutePart {
    pub segment: usize,
    pub start: Anchor,
    pub stop: Anchor,
}

/// The route parts for `steps`: each step's segment from its `from` node to
/// its `to` node, except that the first begins at the start's foot and the
/// last ends at the stop's foot.
pub open spec fn parts_of(steps: Seq<Step>) -> Seq<RoutePart> {
    Seq::new(
        steps.len(),
        |i: int|
            RoutePart {
                segment: steps[i].segment,
                start: if i == 0 {
                    Anchor::Start
                } else {
                    Anchor::Node(steps[i].from)
                },
                stop: if i == steps.len() - 1 {
                    Anchor::Stop
                } else {
                    Anchor::Node(steps[i].to)
                },
            },
    )
}

/// Builds the route parts for `steps`.
pub fn route_parts(steps: &Vec<Step>) -> (r: Vec<RoutePart>)
    ensures
        r@ == parts_of(steps@),
{
    let mut r: Vec<RoutePart> = Vec::new();
    let mut i: usize = 0;
    while i < steps.len()
        invariant
            i <= steps@.len(),
            r@ == parts_of(steps@).take(i as int),
        decreases steps@.len() - i,
    {
        let st = steps[i];
        let start = if i == 0 {
            Anchor::Start
        } else {
            Anchor::Node(st.from)
        };
        let stop = if i == steps.len() - 1 {
            Anchor::Stop
        } else {
            Anchor::Node(st.to)
        };
        r.push(RoutePart { segment: st.segment, start, stop });
        proof {
            assert(parts_of(steps@).take(i + 1) =~= parts_of(steps@).take(i as int).push(parts_of(steps@)[i as int]));
        }
        i = i + 1;
    }
    proof {
        assert(parts_of(steps@).take(steps@.len() as int) =~= parts_of(steps@));
    }
    r
}

/// Consecutive parts of a route meet at one graph node: where one part ends,
/// the next begins, at the same connector.
pub proof fn route_parts_meet(steps: Seq<Step>, a: Seq<Vec<(usize, usize)>>, start: int, stop: int, i: int)
    requires
        is_route(a, steps, start, stop),
        0 <= i < steps.len() - 1,
    ensures
        parts_of(steps)[i].stop == Anchor::Node(steps[i].to),
        parts_of(steps)[i + 1].start == Anchor::Node(steps[i].to),
{
    assert(steps[i].to == steps[i + 1].from);
}

/// Every listed step leads to a node of the graph over one of `segments` segments.
pub open spec fn steps_in_range(a: Seq<Vec<(usize, usize)>>, segments: int) -> bool {
    forall|u: int, k: int|
        0 <= u < a.len() && 0 <= k < a[u]@.len() ==> (#[trigger] a[u]@[k]).0 < a.len() && a[u]@[k].1 < segments
}

/// `steps` lead in order from node `start` to node `stop` along steps of `a`.
pub open spec fn is_route(a: Seq<Vec<(usize, usize)>>, steps: Seq<Step>, start: int, stop: int) -> bool {
    &&& steps.len() >= 1
    &&& steps[0].from == start
    &&& steps.last().to == stop
    &&& forall|i: int| 0 <= i < steps.len() - 1 ==> (#[trigger] steps[i]).to == steps[i + 1].from
    &&& forall|i: int| 0 <= i < steps.len() ==> has_step(a, (#[trigger] steps[i]).from as int, steps[i].to as int, steps[i].segment as int)
}

/// No node occurs twice on the route `steps`: each node a step leaves differs
/// from every node that it or a later step reaches.
pub open spec fn simple(steps: Seq<Step>) -> bool {
    forall|i: int, j: int| 0 <= i <= j < steps.len() ==> (#[trigger] steps[i]).from != (#[trigger] steps[j]).to
}

/// Node `x` was reached before node `y`: by a shorter distance, or by an
/// equal one found earlier.
pub open spec fn key_before(dist: Seq<Option<u64>>, stamp: Seq<nat>, x: int, y: int) -> bool {
    earlier(dist[x].unwrap(), stamp[x], dist[y].unwrap(), stamp[y])
}

/// `x` rounded to the nearest multiple of `quantum`, counted in multiples.
pub open spec fn quantized(x: u64, quantum: u64) -> int {
    if (x % quantum) as int * 2 >= quantum {
        x / quantum + 1
    } else {
        (x / quantum) as int
    }
}

/// Some route over steps of `a` leads from node `start` to node `stop`.
pub open spec fn reaches(a: Seq<Vec<(usize, usize)>>, start: int, stop: int) -> bool {
    exists|steps: Seq<Step>| is_route(a, steps, start, stop)
}

/// Node `u` waits in the queue.
pub open spec fn queued(queue: Seq<(u64, usize)>, u: int) -> bool {
    exists|i: int| 0 <= i < queue.len() && queue[i].1 == u
}

/// Every step out of node `u` leads to a node with a known distance.
pub open spec fn expanded(a: Seq<Vec<(usize, usize)>>, dist: Seq<Option<u64>>, u: int) -> bool {
    forall|k: int| 0 <= k < a[u]@.len() ==> dist[(#[trigger] a[u]@[k]).0 as int].is_some()
}

/// Where every node with a known distance has been expanded, each node on a
/// route from the start has a known distance.
proof fn lemma_closed_reach(
    a: Seq<Vec<(usize, usize)>>,
    dist: Seq<Option<u64>>,
    steps: Seq<Step>,
    start: int,
    stop: int,
    i: int,
    segments: int,
)
    requires
        steps_in_range(a, segments),
        dist.len() == a.len(),
        0 <= start < a.len(),
        dist[start].is_some(),
        forall|u: int| 0 <= u < a.len() && (#[trigger] dist[u]).is_some() ==> expanded(a, dist, u),
        is_route(a, steps, start, stop),
        0 <= i < steps.len(),
    ensures
        0 <= steps[i].to < a.len(),
        dist[steps[i].to as int].is_some(),
    decreases i,
{
    let st = steps[i];
    if i > 0 {
        lemma_closed_reach(a, dist, steps, start, stop, i - 1, segments);
        assert(steps[i - 1].to == steps[i].from);
    }
    assert(has_step(a, st.from as int, st.to as int, st.segment as int));
    let k = choose|k: int| 0 <= k < a[st.from as int]@.len() && a[st.from as int]@[k] == (st.to, st.segment);
    assert(expanded(a, dist, st.from as int));
    assert(dist[a[st.from as int]@[k].0 as int].is_some());
}

/// Byte-wise lexicographic order: `a` comes strictly after `b`.
pub open spec fn bytes_after(a: Seq<u8>, b: Seq<u8>) -> bool
    decreases a.len(),
{
    if a.len() == 0 {
        false
    } else if b.len() == 0 {
        true
    } else if a[0] != b[0] {
        a[0] > b[0]
    } else {
        bytes_after(a.drop_first(), b.drop_first())
    }
}

proof fn lemma_bytes_after_order(a: Seq<u8>, b: Seq<u8>, c: Seq<u8>)
    ensures
        bytes_after(a, b) ==> !bytes_after(b, a),
        bytes_after(a, b) && bytes_after(b, c) ==> bytes_after(a, c),
    decreases a.len(),
{
    if a.len() > 0 && b.len() > 0 && c.len() > 0 {
        lemma_bytes_after_order(a.drop_first(), b.drop_first(), c.drop_first());
    }
    if a.len() > 0 && b.len() > 0 {
        lemma_bytes_after_order(a.drop_first(), b.drop_first(), b.drop_first());
    }
}

/// Whether the id `a` sorts strictly after the id `b`.
pub fn id_after(a: &str, b: &str) -> (r: bool)
    ensures
        r == bytes_after(a.spec_bytes(), b.spec_bytes()),
{
    let x = a.as_bytes();
    let y = b.as_bytes();
    let mut i: usize = 0;
    proof {
        assert(x@.skip(0) =~= x@);
        assert(y@.skip(0) =~= y@);
    }
    while i < x.len() && i < y.len() && x[i] == y[i]
        invariant
            x@ == a.spec_bytes(),
            y@ == b.spec_bytes(),
            i <= x@.len(),
            i <= y@.len(),
            bytes_after(x@, y@) == bytes_after(x@.skip(i as int), y@.skip(i as int)),
        decreases x@.len() - i,
    {
        proof {
            let (p, q) = (x@.skip(i as int), y@.skip(i as int));
            assert(p.drop_first() =~= x@.skip(i + 1));
            assert(q.drop_first() =~= y@.skip(i + 1));
        }
        i = i + 1;
    }
    if i == x.len() {
        false
    } else if i == y.len() {
        true
    } else {
        x[i] > y[i]
    }
}

/// How far a node is known to be, counting an unknown distance as more than
/// every known one.
pub open spec fn potential(d: Option<u64>) -> int {
    match d {
        Some(x) => x as int,
        None => u64::MAX as int + 1,
    }
}

pub open spec fn total_potential(d: Seq<Option<u64>>) -> int
    decreases d.len(),
{
    if d.len() == 0 {
        0
    } else {
        total_potential(d.drop_last()) + potential(d.last())
    }
}

proof fn lemma_total_potential(d: Seq<Option<u64>>, i: int, x: Option<u64>)
    requires
        0 <= i < d.len(),
    ensures
        total_potential(d) >= 0,
        total_potential(d.update(i, x)) == total_potential(d) - potential(d[i]) + potential(x),
    decreases d.len(),
{
    let e = d.update(i, x);
    assert(e.drop_last() =~= if i == d.len() - 1 {
        d.drop_last()
    } else {
        d.drop_last().update(i, x)
    });
    if i < d.len() - 1 {
        lemma_total_potential(d.drop_last(), i, x);
    } else if d.len() > 1 {
        lemma_total_potential(d.drop_last(), 0, d[0]);
    }
}

/// `(d1, t1)` comes strictly before `(d2, t2)`, distance first.
pub open spec fn earlier(d1: u64, t1: nat, d2: u64, t2: nat) -> bool {
    d1 < d2 || (d1 == d2 && t1 < t2)
}

/// The search tables: each node reached has a predecessor step from a node
/// reached earlier, except the start.
pub open spec fn tables_ok(
    a: Seq<Vec<(usize, usize)>>,
    dist: Seq<Option<u64>>,
    pred: Seq<Option<(usize, usize)>>,
    stamp: Seq<nat>,
    clock: nat,
    start: int,
) -> bool {
    &&& dist.len() == a.len()
    &&& pred.len() == a.len()
    &&& stamp.len() == a.len()
    &&& dist[start] == Some(0u64)
    &&& pred[start].is_none()
    &&& forall|v: int| 0 <= v < a.len() ==> #[trigger] stamp[v] <= clock
    &&& forall|v: int| 0 <= v < a.len() && v != start && (#[trigger] dist[v]).is_some() ==> pred[v].is_some()
    &&& forall|v: int|
        0 <= v < a.len() && (#[trigger] pred[v]).is_some() ==> {
            let (u, s) = pred[v].unwrap();
            &&& u < a.len()
            &&& has_step(a, u as int, v, s as int)
            &&& dist[u as int].is_some()
            &&& dist[v].is_some()
            &&& earlier(dist[u as int].unwrap(), stamp[u as int], dist[v].unwrap(), stamp[v])
        }
}

/// The queue entry to take next: lowest priority first and, among equal
/// priorities, the node whose id sorts last.
fn pick(queue: &Vec<(u64, usize)>, names: &Vec<String>) -> (r: usize)
    requires
        queue@.len() > 0,
        forall|i: int| 0 <= i < queue@.len() ==> (#[trigger] queue@[i]).1 < names@.len(),
    ensures
        r < queue@.len(),
        forall|i: int| 0 <= i < queue@.len() ==> queue@[r as int].0 <= (#[trigger] queue@[i]).0,
        forall|i: int|
            0 <= i < queue@.len() && (#[trigger] queue@[i]).0 == queue@[r as int].0 ==> !bytes_after(
                encode_utf8(names@[queue@[i].1 as int]@),
                encode_utf8(names@[queue@[r as int].1 as int]@),
            ),
{
    let mut best: usize = 0;
    let mut i: usize = 1;
    proof {
        let n0 = encode_utf8(names@[queue@[0].1 as int]@);
        lemma_bytes_after_order(n0, n0, n0);
    }
    while i < queue.len()
        invariant
            best < queue@.len(),
            1 <= i <= queue@.len(),
            forall|j: int| 0 <= j < queue@.len() ==> (#[trigger] queue@[j]).1 < names@.len(),
            forall|j: int| 0 <= j < i ==> queue@[best as int].0 <= (#[trigger] queue@[j]).0,
            forall|j: int|
                0 <= j < i && (#[trigger] queue@[j]).0 == queue@[best as int].0 ==> !bytes_after(
                    encode_utf8(names@[queue@[j].1 as int]@),
                    encode_utf8(names@[queue@[best as int].1 as int]@),
                ),
        decreases queue@.len() - i,
    {
        let (p, v) = queue[i];
        let (q, w) = queue[best];
        let ghost old_best = best as int;
        if p < q || (p == q && id_after(names[v].as_str(), names[w].as_str())) {
            best = i;
            proof {
                let nb = encode_utf8(names@[queue@[old_best].1 as int]@);
                let ni = encode_utf8(names@[v as int]@);
                assert forall|j: int|
                    0 <= j < i + 1 && (#[trigger] queue@[j]).0 == queue@[best as int].0 implies !bytes_after(
                        encode_utf8(names@[queue@[j].1 as int]@),
                        ni,
                    ) by {
                    let nj = encode_utf8(names@[queue@[j].1 as int]@);
                    lemma_bytes_after_order(nj, ni, nb);
                    lemma_bytes_after_order(ni, nj, nb);
                    if j == i {
                        lemma_bytes_after_order(ni, ni, ni);
                    }
                }
            }
        } else {
            proof {
                let nb = encode_utf8(names@[w as int]@);
                if p == q {
                    assert(!bytes_after(encode_utf8(names@[v as int]@), nb));
                }
            }
        }
        i = i + 1;
    }
    best
}

/// `x` divided by `quantum`, rounded to nearest, halves up.
fn quantize(x: u64, quantum: u64) -> (r: u64)
    requires
        quantum > 0,
    ensures
        r == quantized(x, quantum),
{
    let q = x / quantum;
    let rem = x % quantum;
    if rem >= quantum - rem {
        proof {
            assert(q * quantum <= x) by (nonlinear_arith)
                requires
                    q == x / quantum,
                    quantum > 0,
            ;
            assert(q * 2 <= q * quantum) by (nonlinear_arith)
                requires
                    quantum >= 2,
            ;
        }
        q + 1
    } else {
        q
    }
}

/// Searches `a` best first from node `start` to node `stop` and returns the
/// steps of the route it finds, in order from `start`.
///
/// Taking step `(v, s)` out of a node costs `cost[s]`; `heuristic[v]` is the
/// estimate of what remains from `v`, and the queue is ordered by distance so
/// far plus that estimate, divided by `quantum` and rounded, with ties going
/// to the node whose id in `names` sorts last. A node is queued again whenever a shorter way to it is found.
/// Distances that would not fit in a `u64` are taken as `u64::MAX`.
#[verifier::rlimit(60)]
pub fn find_steps(
    a: &Vec<Vec<(usize, usize)>>,
    cost: &Vec<u64>,
    heuristic: &Vec<u64>,
    names: &Vec<String>,
    start: usize,
    stop: usize,
    quantum: u64,
) -> (r: Result<Vec<Step>, RoutingError>)
    requires
        quantum > 0,
        steps_in_range(a@, cost@.len() as int),
        heuristic@.len() == a@.len(),
        names@.len() == a@.len(),
        start < a@.len(),
        stop < a@.len(),
        start != stop,
    ensures
        r.is_ok() ==> is_route(a@, r.unwrap()@, start as int, stop as int),
        r.is_ok() ==> simple(r.unwrap()@),
        r.is_err() ==> r == Err::<Vec<Step>, RoutingError>(RoutingError::CouldNotFindRoute),
        r.is_ok() <==> reaches(a@, start as int, stop as int),
{
    let n = a.len();
    let mut dist: Vec<Option<u64>> = Vec::new();
    let mut pred: Vec<Option<(usize, usize)>> = Vec::new();
    let mut i: usize = 0;
    while i < n
        invariant
            i <= n,
            n == a@.len(),
            dist@.len() == i,
            pred@.len() == i,
            forall|v: int| 0 <= v < i ==> (#[trigger] dist@[v]).is_none(),
            forall|v: int| 0 <= v < i ==> (#[trigger] pred@[v]).is_none(),
        decreases n - i,
    {
        dist.push(None);
        pred.push(None);
        i = i + 1;
    }
    dist.set(start, Some(0));
    let ghost mut stamp: Seq<nat> = Seq::new(n as nat, |v: int| 0nat);
    let ghost mut clock: nat = 0;
    let mut queue: Vec<(u64, usize)> = Vec::new();
    queue.push((0, start));
    proof {
        lemma_total_potential(dist@, 0, dist@[0]);
        assert forall|v: int| 0 <= v < n implies #[trigger] stamp[v] <= clock by {}
        assert forall|v: int| 0 <= v < n && v != start && (#[trigger] dist@[v]).is_some() implies pred@[v].is_some() by {}
        assert forall|v: int| 0 <= v < n implies (#[trigger] pred@[v]).is_none() by {}
        assert(queue@[0].1 == start);
        assert(queued(queue@, start as int));
        assert forall|u: int| 0 <= u < n && (#[trigger] dist@[u]).is_some() implies queued(queue@, u) || expanded(a@, dist@, u) by {
            assert(u == start);
        }
    }
    let mut found = false;
    while queue.len() > 0
        invariant_except_break
            !found,
            dist@[stop as int].is_some() ==> queued(queue@, stop as int),
            quantum > 0,
            forall|u: int| 0 <= u < n && (#[trigger] dist@[u]).is_some() ==> queued(queue@, u) || expanded(a@, dist@, u),
        invariant
            n == a@.len(),
            steps_in_range(a@, cost@.len() as int),
            heuristic@.len() == n,
            names@.len() == n,
            start < n,
            stop < n,
            tables_ok(a@, dist@, pred@, stamp, clock, start as int),
            forall|i: int| 0 <= i < queue@.len() ==> (#[trigger] queue@[i]).1 < n && dist@[queue@[i].1 as int].is_some(),
            total_potential(dist@) >= 0,
        ensures
            found ==> dist@[stop as int].is_some(),
            n == a@.len(),
            start < n,
            stop < n,
            tables_ok(a@, dist@, pred@, stamp, clock, start as int),
            !found ==> forall|u: int| 0 <= u < n && (#[trigger] dist@[u]).is_some() ==> expanded(a@, dist@, u),
        decreases queue@.len() + 2 * total_potential(dist@),
    {
        let b = pick(&queue, names);
        let ghost q_before = queue@;
        let (_, cur) = queue.swap_remove(b);
        proof {
            let m = q_before.len() - 1;
            assert forall|u: int| queued(q_before, u) && u != cur implies queued(queue@, u) by {
                let i = choose|i: int| 0 <= i < q_before.len() && q_before[i].1 == u;
                if i == m {
                    assert(queue@[b as int] == q_before[m]);
                } else {
                    assert(queue@[i] == q_before[i]);
                }
            }
            assert forall|i: int| 0 <= i < queue@.len() implies (#[trigger] queue@[i]).1 < n && dist@[queue@[i].1 as int].is_some() by {
                if i == b {
                    assert(queue@[i] == q_before[m]);
                } else {
                    assert(queue@[i] == q_before[i]);
                }
            }
            assert(q_before[b as int].1 == cur);
        }
        if cur == stop {
            found = true;
            break;
        }
        let d = match dist[cur] {
            Some(d) => d,
            None => 0,
        };
        let ghost q0 = queue@.len();
        let ghost t0 = total_potential(dist@);
        let mut k: usize = 0;
        while k < a[cur].len()
            invariant
                n == a@.len(),
                steps_in_range(a@, cost@.len() as int),
                heuristic@.len() == n,
                names@.len() == n,
                start < n,
                stop < n,
                cur < n,
                dist@[cur as int] == Some(d),
                tables_ok(a@, dist@, pred@, stamp, clock, start as int),
                forall|i: int| 0 <= i < queue@.len() ==> (#[trigger] queue@[i]).1 < n && dist@[queue@[i].1 as int].is_some(),
                total_potential(dist@) >= 0,
                queue@.len() + 2 * total_potential(dist@) <= q0 + 2 * t0,
                k <= a@[cur as int]@.len(),
                cur != stop,
                quantum > 0,
                forall|u: int| 0 <= u < n && u != cur && (#[trigger] dist@[u]).is_some() ==> queued(queue@, u) || expanded(a@, dist@, u),
                forall|j: int| 0 <= j < k ==> dist@[(#[trigger] a@[cur as int]@[j]).0 as int].is_some(),
                dist@[stop as int].is_some() ==> queued(queue@, stop as int),
            decreases a@[cur as int]@.len() - k,
        {
            let (v, s) = a[cur][k];
            let c = cost[s];
            let nd = d.saturating_add(c);
            let shorter = match dist[v] {
                Some(old) => nd < old,
                None => true,
            };
            let ghost q_mid = queue@;
            let ghost d_mid = dist@;
            if shorter {
                proof {
                    lemma_total_potential(dist@, v as int, Some(nd));
                    assert(a@[cur as int]@[k as int] == (v, s));
                    assert(has_step(a@, cur as int, v as int, s as int));
                }
                let ghost old_dist = dist@;
                let ghost old_stamp = stamp;
                dist.set(v, Some(nd));
                pred.set(v, Some((cur, s)));
                proof {
                    lemma_total_potential(dist@, 0, dist@[0]);
                    clock = clock + 1;
                    stamp = stamp.update(v as int, clock);
                    assert forall|w: int|
                        0 <= w < a@.len() && (#[trigger] pred@[w]).is_some() implies {
                            let (u, t) = pred@[w].unwrap();
                            &&& u < a@.len()
                            &&& has_step(a@, u as int, w, t as int)
                            &&& dist@[u as int].is_some()
                            &&& dist@[w].is_some()
                            &&& earlier(dist@[u as int].unwrap(), stamp[u as int], dist@[w].unwrap(), stamp[w])
                        } by {
                        if w != v {
                            let (u, t) = pred@[w].unwrap();
                            assert(old_dist[u as int].is_some());
                            assert(earlier(old_dist[u as int].unwrap(), old_stamp[u as int], old_dist[w].unwrap(), old_stamp[w]));
                        }
                    }
                }
                queue.push((quantize(nd.saturating_add(heuristic[v]), quantum), v));
                proof {
                    assert(queue@[queue@.len() - 1].1 == v);
                    assert forall|u: int| queued(q_mid, u) implies queued(queue@, u) by {
                        let i = choose|i: int| 0 <= i < q_mid.len() && q_mid[i].1 == u;
                        assert(queue@[i] == q_mid[i]);
                    }
                    assert forall|u: int| 0 <= u < n && expanded(a@, d_mid, u) implies expanded(a@, dist@, u) by {
                        assert forall|j: int| 0 <= j < a@[u]@.len() implies dist@[(#[trigger] a@[u]@[j]).0 as int].is_some() by {
                            assert(d_mid[a@[u]@[j].0 as int].is_some());
                        }
                    }
                }
            }
            proof {
                assert(a@[cur as int]@[k as int] == (v, s));
            }
            k = k + 1;
        }
    }
    match pred[stop] {
        None => {
            proof {
                assert(dist@[stop as int].is_none());
                if reaches(a@, start as int, stop as int) {
                    let steps = choose|steps: Seq<Step>| is_route(a@, steps, start as int, stop as int);
                    lemma_closed_reach(a@, dist@, steps, start as int, stop as int, steps.len() - 1, cost@.len() as int);
                }
            }
            return Err(RoutingError::CouldNotFindRoute);
        },
        Some(_) => {},
    }
    let mut back: Vec<Step> = Vec::new();
    let mut cur: usize = stop;
    while pred[cur].is_some()
        invariant
            n == a@.len(),
            start < n,
            stop < n,
            cur < n,
            tables_ok(a@, dist@, pred@, stamp, clock, start as int),
            dist@[cur as int].is_some(),
            back@.len() == 0 ==> cur == stop,
            back@.len() > 0 ==> back@[0].to == stop && back@.last().from == cur,
            forall|i: int| 0 <= i < back@.len() - 1 ==> (#[trigger] back@[i]).from == back@[i + 1].to,
            forall|i: int| 0 <= i < back@.len() ==> has_step(a@, (#[trigger] back@[i]).from as int, back@[i].to as int, back@[i].segment as int),
            forall|i: int| 0 <= i < back@.len() ==> (#[trigger] back@[i]).from < n && back@[i].to < n
                && dist@[back@[i].from as int].is_some() && dist@[back@[i].to as int].is_some(),
            forall|i: int, j: int| 0 <= i <= j < back@.len() ==> key_before(dist@, stamp, (#[trigger] back@[j]).from as int, (#[trigger] back@[i]).to as int),
            pred@[stop as int].is_some(),
        decreases dist@[cur as int].unwrap(), stamp[cur as int],
    {
        let (u, s) = match pred[cur] {
            Some(p) => p,
            None => (cur, 0),
        };
        let ghost old_back = back@;
        back.push(Step { segment: s, from: u, to: cur });
        proof {
            let m = old_back.len() as int;
            assert(key_before(dist@, stamp, u as int, cur as int));
            assert forall|i: int, j: int| 0 <= i <= j < back@.len() implies key_before(dist@, stamp, (#[trigger] back@[j]).from as int, (#[trigger] back@[i]).to as int) by {
                if j == m && i < m {
                    assert(back@[m - 1] == old_back[m - 1]);
                    assert(key_before(dist@, stamp, old_back[m - 1].from as int, old_back[i].to as int));
                    assert(back@[i] == old_back[i]);
                } else if j < m {
                    assert(back@[i] == old_back[i] && back@[j] == old_back[j]);
                }
            }
        }
        cur = u;
    }
    let mut steps: Vec<Step> = Vec::new();
    let mut j: usize = back.len();
    while j > 0
        invariant
            j <= back@.len(),
            steps@.len() == back@.len() - j,
            forall|i: int| 0 <= i < steps@.len() ==> #[trigger] steps@[i] == back@[back@.len() - 1 - i],
        decreases j,
    {
        j = j - 1;
        steps.push(back[j]);
    }
    proof {
        assert(back@.len() > 0);
        assert(cur == start);
        assert forall|i: int| 0 <= i < steps@.len() - 1 implies (#[trigger] steps@[i]).to == steps@[i + 1].from by {
            let m = back@.len() - 1 - i;
            assert(steps@[i] == back@[m]);
            assert(steps@[i + 1] == back@[m - 1]);
        }
        assert forall|i: int| 0 <= i < steps@.len() implies has_step(a@, (#[trigger] steps@[i]).from as int, steps@[i].to as int, steps@[i].segment as int) by {
            assert(steps@[i] == back@[back@.len() - 1 - i]);
        }
        assert(is_route(a@, steps@, start as int, stop as int));
        let len = back@.len();
        assert forall|i: int, j: int| 0 <= i <= j < steps@.len() implies (#[trigger] steps@[i]).from != (#[trigger] steps@[j]).to by {
            assert(steps@[i] == back@[len - 1 - i]);
            assert(steps@[j] == back@[len - 1 - j]);
            assert(key_before(dist@, stamp, back@[len - 1 - i].from as int, back@[len - 1 - j].to as int));
        }
    }
    Ok(steps)
}

impl<G, P> Router<G, P> {
    /// Plans the route for a query whose start lies on segment `start_host`
    /// and whose stop lies on segment `stop_host`: nodes are the connectors,
    /// then the start and the stop; segment `s` costs `cost[s]`,
    /// `heuristic[v]` estimates the rest of the way from node `v`, and queue
    /// priorities are counted in multiples of `quantum` (see [`find_steps`]). Fails with
    /// `MissingSegments` exactly when there is no segment.
    pub fn plan_route(
        &self,
        start_host: usize,
        stop_host: usize,
        cost: &Vec<u64>,
        heuristic: &Vec<u64>,
        quantum: u64,
    ) -> (r: Result<Vec<RoutePart>, RoutingError>)
        requires
            quantum > 0,
            self.spec_segments().len() > 0 ==> start_host < self.spec_segments().len() && stop_host
                < self.spec_segments().len(),
            cost@.len() == self.spec_segments().len(),
            heuristic@.len() == self.node_count(),
            self.node_count() <= usize::MAX,
        ensures
            self.spec_segments().len() == 0 <==> r == Err::<Vec<RoutePart>, RoutingError>(
                RoutingError::MissingSegments,
            ),
            r.is_err() && self.spec_segments().len() > 0 ==> r == Err::<Vec<RoutePart>, RoutingError>(
                RoutingError::CouldNotFindRoute,
            ),
            r.is_ok() ==> exists|steps: Seq<Step>|
                {
                    &&& #[trigger] parts_of(steps) == r.unwrap()@
                    &&& self.is_query_route(steps, start_host as int, stop_host as int)
                },
            self.spec_segments().len() > 0 ==> (r.is_ok() <==> exists|steps: Seq<Step>|
                #[trigger] self.is_query_route(steps, start_host as int, stop_host as int)),
    {
        if self.segments_len() == 0 {
            return Err(RoutingError::MissingSegments);
        }
        let a = self.neighbours(start_host, stop_host);
        let n = self.connectors_len();
        let mut names: Vec<String> = Vec::new();
        let mut i: usize = 0;
        while i < n
            invariant
                i <= n,
                n == self.spec_connectors().len(),
                names@.len() == i,
            decreases n - i,
        {
            names.push(self.connectors()[i].get_id());
            i = i + 1;
        }
        names.push("#start".to_owned());
        names.push("#stop".to_owned());
        proof {
            assert forall|u: int, k: int|
                0 <= u < a@.len() && 0 <= k < a@[u]@.len() implies (#[trigger] a@[u]@[k]).0 < a@.len() && a@[u]@[k].1 < cost@.len() by {
                let (v, s) = a@[u]@[k];
                assert(joins(self.endpoints(s as int, start_host as int, stop_host as int), self.connector_ids(), u, v as int));
                let (p, q) = choose|p: int, q: int| crate::graph::joins_at(self.endpoints(s as int, start_host as int, stop_host as int), self.connector_ids(), u, v as int, p, q);
                crate::graph::lemma_node_range(self.connector_ids(), self.endpoints(s as int, start_host as int, stop_host as int)[q]);
            }
        }
        match find_steps(&a, cost, heuristic, &names, n, n + 1, quantum) {
            Ok(steps) => {
                let parts = route_parts(&steps);
                proof {
                    assert forall|i: int| 0 <= i < steps@.len() implies {
                        let st = #[trigger] steps@[i];
                        &&& st.segment < self.spec_segments().len()
                        &&& joins(self.endpoints(st.segment as int, start_host as int, stop_host as int), self.connector_ids(), st.from as int, st.to as int)
                    } by {
                        let st = steps@[i];
                        assert(has_step(a@, st.from as int, st.to as int, st.segment as int));
                        let k = choose|k: int| 0 <= k < a@[st.from as int]@.len() && a@[st.from as int]@[k] == (st.to, st.segment);
                        assert(a@[st.from as int]@[k] == (st.to, st.segment));
                    }
                    assert(parts_of(steps@) == parts@);
                    assert forall|i: int| 0 <= i < steps@.len() - 1 implies (#[trigger] steps@[i]).to < self.spec_connectors().len() by {
                        let l = steps@.len() - 1;
                        assert(steps@[0].from != steps@[i].to);
                        assert(steps@[i + 1].from != steps@[l].to);
                        assert(steps@[i].to == steps@[i + 1].from);
                        assert(has_step(a@, steps@[i].from as int, steps@[i].to as int, steps@[i].segment as int));
                        let k = choose|k: int| 0 <= k < a@[steps@[i].from as int]@.len() && a@[steps@[i].from as int]@[k] == (steps@[i].to, steps@[i].segment);
                        assert(a@[steps@[i].from as int]@[k].0 < a@.len());
                    }
                    assert(self.is_query_route(steps@, start_host as int, stop_host as int));
                }
                Ok(parts)
            },
            Err(e) => {
                proof {
                    if exists|steps: Seq<Step>| #[trigger] self.is_query_route(steps, start_host as int, stop_host as int) {
                        let steps = choose|steps: Seq<Step>| #[trigger] self.is_query_route(steps, start_host as int, stop_host as int);
                        assert forall|i: int| 0 <= i < steps.len() implies has_step(a@, (#[trigger] steps[i]).from as int, steps[i].to as int, steps[i].segment as int) by {
                            let st = steps[i];
                            assert(joins(self.endpoints(st.segment as int, start_host as int, stop_host as int), self.connector_ids(), st.from as int, st.to as int));
                        }
                        assert(is_route(a@, steps, n as int, n + 1));
                        assert(reaches(a@, n as int, n + 1));
                    }
                }
                Err(e)
            },
        }
    }

    /// `steps` lead in order from the start node to the stop node, each over a
    /// segment that joins its two nodes in a query with the given hosts.
    pub open spec fn is_query_route(&self, steps: Seq<Step>, start_host: int, stop_host: int) -> bool {
        &&& steps.len() >= 1
        &&& steps[0].from == self.spec_connectors().len()
        &&& steps.last().to == self.spec_connectors().len() + 1
        &&& simple(steps)
        &&& forall|i: int| 0 <= i < steps.len() - 1 ==> (#[trigger] steps[i]).to == steps[i + 1].from
        &&& forall|i: int| 0 <= i < steps.len() - 1 ==> (#[trigger] steps[i]).to < self.spec_connectors().len()
        &&& forall|i: int|
            0 <= i < steps.len() ==> {
                let st = #[trigger] steps[i];
                &&& st.segment < self.spec_segments().len()
                &&& joins(self.endpoints(st.segment as int, start_host, stop_host), self.connector_ids(), st.from as int, st.to as int)
            }
    }
}

} // verus!
