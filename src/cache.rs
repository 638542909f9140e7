use crate::tile::{has_full_window, tile_window, window_at, Coord};
use lru::LruCache;
use std::num::NonZeroUsize;
use vstd::prelude::*;

verus! {

/// Number of tiles the cache keeps: three 3x3 blocks.
pub const TILE_CACHE_CAPACITY: usize = 27;

/// A cache key: a tile coordinate as a plain tuple.
pub type TileKey = (u32, u32, u8);

/// The LRU cache of the `lru` crate, held opaque: what it holds is known only
/// through [`lru_entries`] and [`lru_capacity`].
#[verifier::external_type_specification]
#[verifier::external_body]
#[verifier::reject_recursive_types(K)]
#[verifier::reject_recursive_types(V)]
#[verifier::reject_recursive_types(S)]
pub struct ExLruCache<K, V, S>(LruCache<K, V, S>);

/// The hasher that `lru::LruCache` uses by default, held opaque.
#[verifier::external_type_specification]
#[verifier::external_body]
pub struct ExLruHasher(lru::DefaultHasher);

/// What an LRU cache of raw tiles holds, least recently used first.
pub uninterp spec fn lru_entries(c: LruCache<TileKey, Vec<u8>>) -> Seq<(TileKey, Seq<u8>)>;

/// The capacity an LRU cache of raw tiles was made with.
pub uninterp spec fn lru_capacity(c: LruCache<TileKey, Vec<u8>>) -> nat;

/// Index of the entry with key `k`, if any.
pub open spec fn index_of(s: Seq<(TileKey, Seq<u8>)>, k: TileKey) -> int {
    choose|i: int| 0 <= i < s.len() && s[i].0 == k
}

pub open spec fn has_key(s: Seq<(TileKey, Seq<u8>)>, k: TileKey) -> bool {
    exists|i: int| 0 <= i < s.len() && s[i].0 == k
}

pub open spec fn keys_distinct(s: Seq<(TileKey, Seq<u8>)>) -> bool {
    forall|i: int, j: int| 0 <= i < s.len() && 0 <= j < s.len() && i != j ==> s[i].0 != s[j].0
}

/// `s` with its `i`-th entry moved to the most recently used end.
pub open spec fn touched(s: Seq<(TileKey, Seq<u8>)>, i: int) -> Seq<(TileKey, Seq<u8>)> {
    s.remove(i).push(s[i])
}

/// The value held under `k` in `s`.
pub open spec fn value_of(s: Seq<(TileKey, Seq<u8>)>, k: TileKey) -> Seq<u8> {
    s[index_of(s, k)].1
}

/// `s` and `t` hold the same keys, each with the same value.
pub open spec fn same_contents(s: Seq<(TileKey, Seq<u8>)>, t: Seq<(TileKey, Seq<u8>)>) -> bool {
    forall|k: TileKey|
        #![trigger has_key(s, k)]
        #![trigger has_key(t, k)]
        has_key(s, k) == has_key(t, k) && (has_key(s, k) ==> value_of(s, k) == value_of(t, k))
}

/// `s` after looking up each tile of `w` in turn: every tile held moves to
/// the most recently used end, in the order of `w`.
pub open spec fn touch_all(s: Seq<(TileKey, Seq<u8>)>, w: Seq<Coord>) -> Seq<(TileKey, Seq<u8>)>
    decreases w.len(),
{
    if w.len() == 0 {
        s
    } else {
        let p = touch_all(s, w.drop_last());
        if has_key(p, w.last().key()) {
            touched(p, index_of(p, w.last().key()))
        } else {
            p
        }
    }
}

/// The tiles of `w` that `s` does not hold, in the order of `w`.
pub open spec fn absent_of(s: Seq<(TileKey, Seq<u8>)>, w: Seq<Coord>) -> Seq<Coord>
    decreases w.len(),
{
    if w.len() == 0 {
        Seq::empty()
    } else {
        let p = absent_of(s, w.drop_last());
        if has_key(s, w.last().key()) {
            p
        } else {
            p.push(w.last())
        }
    }
}

/// The tiles of `w` that `s` holds, each with its bytes, in the order of `w`.
pub open spec fn present_of(s: Seq<(TileKey, Seq<u8>)>, w: Seq<Coord>) -> Seq<(Coord, Seq<u8>)>
    decreases w.len(),
{
    if w.len() == 0 {
        Seq::empty()
    } else {
        let p = present_of(s, w.drop_last());
        if has_key(s, w.last().key()) {
            p.push((w.last(), value_of(s, w.last().key())))
        } else {
            p
        }
    }
}

proof fn lemma_index_of(s: Seq<(TileKey, Seq<u8>)>, i: int)
    requires
        keys_distinct(s),
        0 <= i < s.len(),
    ensures
        has_key(s, s[i].0),
        index_of(s, s[i].0) == i,
{
    assert(has_key(s, s[i].0));
}

/// Moving one entry to the most recently used end keeps what is held.
proof fn lemma_touched(s: Seq<(TileKey, Seq<u8>)>, i: int)
    requires
        keys_distinct(s),
        0 <= i < s.len(),
    ensures
        keys_distinct(touched(s, i)),
        touched(s, i).len() == s.len(),
        same_contents(s, touched(s, i)),
{
    let t = touched(s, i);
    let n = s.len();
    assert forall|j: int| 0 <= j < n implies #[trigger] t[j] == if j < i {
        s[j]
    } else if j < n - 1 {
        s[j + 1]
    } else {
        s[i]
    } by {}
    assert forall|a: int, b: int| 0 <= a < n && 0 <= b < n && a != b implies t[a].0 != t[b].0 by {}
    assert forall|k: TileKey| #![trigger has_key(s, k)] #![trigger has_key(t, k)]
        has_key(s, k) == has_key(t, k) && (has_key(s, k) ==> value_of(s, k) == value_of(t, k)) by {
        if has_key(s, k) {
            let j = index_of(s, k);
            let m = if j < i { j } else if j == i { n - 1 } else { j - 1 };
            assert(t[m] == s[j]);
            lemma_index_of(t, m);
        }
        if has_key(t, k) {
            let m = index_of(t, k);
            let j = if m < i { m } else if m < n - 1 { m + 1 } else { i };
            assert(s[j] == t[m]);
        }
    }
}

/// `s` after storing `v` under `k` in a cache of [`TILE_CACHE_CAPACITY`]
/// entries, least recently used first.
pub open spec fn put(s: Seq<(TileKey, Seq<u8>)>, k: TileKey, v: Seq<u8>) -> Seq<(TileKey, Seq<u8>)> {
    if has_key(s, k) {
        s.remove(index_of(s, k)).push((k, v))
    } else if s.len() == TILE_CACHE_CAPACITY {
        s.drop_first().push((k, v))
    } else {
        s.push((k, v))
    }
}

/// `s` after storing, in order, each fetched tile of `f` that arrived.
pub open spec fn stored(s: Seq<(TileKey, Seq<u8>)>, f: Seq<(Coord, Option<Vec<u8>>)>) -> Seq<(TileKey, Seq<u8>)>
    decreases f.len(),
{
    if f.len() == 0 {
        s
    } else {
        let p = stored(s, f.drop_last());
        match f.last().1 {
            Some(b) => put(p, f.last().0.key(), b@),
            None => p,
        }
    }
}

/// Relies on lru::LruCache::new: an empty cache of the given capacity.
#[verifier::external_body]
fn lru_new(cap: usize) -> (r: LruCache<TileKey, Vec<u8>>)
    requires
        cap > 0,
    ensures
        lru_entries(r) == Seq::<(TileKey, Seq<u8>)>::empty(),
        lru_capacity(r) == cap,
{
    LruCache::new(NonZeroUsize::new(cap).unwrap())
}

/// Relies on lru::LruCache::get: a present key is moved to the most recently
/// used end and its value is handed out; an absent key changes nothing.
#[verifier::external_body]
fn lru_get(c: &mut LruCache<TileKey, Vec<u8>>, k: TileKey) -> (r: Option<Vec<u8>>)
    ensures
        lru_capacity(*final(c)) == lru_capacity(*old(c)),
        has_key(lru_entries(*old(c)), k) ==> {
            let i = index_of(lru_entries(*old(c)), k);
            &&& r.is_some()
            &&& r.unwrap()@ == lru_entries(*old(c))[i].1
            &&& lru_entries(*final(c)) == touched(lru_entries(*old(c)), i)
        },
        !has_key(lru_entries(*old(c)), k) ==> r.is_none() && lru_entries(*final(c))
            == lru_entries(*old(c)),
{
    c.get(&k).cloned()
}

/// Relies on lru::LruCache::push: a present key gets the new value and moves to
/// the most recently used end; an absent key is appended there, after the least
/// recently used entry has been dropped if the cache was full.
#[verifier::external_body]
fn lru_push(c: &mut LruCache<TileKey, Vec<u8>>, k: TileKey, v: Vec<u8>) -> (r: Option<(TileKey, Vec<u8>)>)
    ensures
        lru_capacity(*final(c)) == lru_capacity(*old(c)),
        has_key(lru_entries(*old(c)), k) ==> lru_entries(*final(c)) == lru_entries(*old(c)).remove(
            index_of(lru_entries(*old(c)), k),
        ).push((k, v@)),
        !has_key(lru_entries(*old(c)), k) && lru_entries(*old(c)).len() == lru_capacity(*old(c))
            ==> lru_entries(*final(c)) == lru_entries(*old(c)).drop_first().push((k, v@)),
        !has_key(lru_entries(*old(c)), k) && lru_entries(*old(c)).len() != lru_capacity(*old(c))
            ==> lru_entries(*final(c)) == lru_entries(*old(c)).push((k, v@)),
{
    c.push(k, v)
}

/// Relies on lru::LruCache::len: the number of entries held.
#[verifier::external_body]
fn lru_len(c: &LruCache<TileKey, Vec<u8>>) -> (r: usize)
    ensures
        r == lru_entries(*c).len(),
{
    c.len()
}

/// The raw tiles of recent queries, keyed by tile coordinate, holding at most
/// [`TILE_CACHE_CAPACITY`] of them and dropping the least recently used first.
pub struct TileCache {
    tiles: LruCache<TileKey, Vec<u8>>,
}

impl View for TileCache {
    type V = Seq<(TileKey, Seq<u8>)>;

    closed spec fn view(&self) -> Self::V {
        lru_entries(self.tiles)
    }
}

impl TileCache {
    /// Keys are distinct and there are at most [`TILE_CACHE_CAPACITY`] of them.
    pub closed spec fn wf(&self) -> bool {
        &&& lru_capacity(self.tiles) == TILE_CACHE_CAPACITY
        &&& keys_distinct(self@)
        &&& self@.len() <= TILE_CACHE_CAPACITY
    }

    /// Whether the tile at `c` is held.
    pub open spec fn holds(&self, c: Coord) -> bool {
        has_key(self@, c.key())
    }

    /// The bytes held for the tile at `c`.
    pub open spec fn bytes_of(&self, c: Coord) -> Seq<u8> {
        self@[index_of(self@, c.key())].1
    }

    pub fn new() -> (r: TileCache)
        ensures
            r.wf(),
            r@.len() == 0,
    {
        TileCache { tiles: lru_new(TILE_CACHE_CAPACITY) }
    }

    /// Number of tiles held.
    pub open spec fn spec_len(&self) -> nat {
        self@.len()
    }

    /// Number of tiles held.
    pub fn len(&self) -> (r: usize)
        requires
            self.wf(),
        ensures
            r == self.spec_len(),
            r <= TILE_CACHE_CAPACITY,
    {
        lru_len(&self.tiles)
    }

    /// Stores the bytes of the tile at `c`, replacing what was held for it,
    /// and makes it the most recently used tile. When the cache is full and
    /// `c` is new, the least recently used tile is dropped.
    pub fn insert(&mut self, c: Coord, bytes: Vec<u8>)
        requires
            old(self).wf(),
        ensures
            final(self).wf(),
            final(self).holds(c),
            final(self).bytes_of(c) == bytes@,
            final(self)@.last() == (c.key(), bytes@),
            final(self)@ == put(old(self)@, c.key(), bytes@),
            old(self).holds(c) ==> final(self)@.len() == old(self)@.len(),
            !old(self).holds(c) && old(self)@.len() < TILE_CACHE_CAPACITY ==> final(self)@.len()
                == old(self)@.len() + 1,
    {
        let ghost s = self@;
        let k = c.to_key();
        let _ = lru_push(&mut self.tiles, k, bytes);
        proof {
            let t = self@;
            let e = (k, bytes@);
            let r = if has_key(s, k) {
                s.remove(index_of(s, k))
            } else if s.len() == TILE_CACHE_CAPACITY {
                s.drop_first()
            } else {
                s
            };
            assert(t == r.push(e));
            if has_key(s, k) {
                let i = index_of(s, k);
                assert forall|j: int| 0 <= j < r.len() implies #[trigger] r[j].0 != k by {
                    if j < i {
                        assert(r[j] == s[j]);
                    } else {
                        assert(r[j] == s[j + 1]);
                    }
                }
                assert forall|a: int, b: int|
                    0 <= a < r.len() && 0 <= b < r.len() && a != b implies r[a].0 != r[b].0 by {
                    let a2 = if a < i { a } else { a + 1 };
                    let b2 = if b < i { b } else { b + 1 };
                    assert(r[a] == s[a2] && r[b] == s[b2]);
                }
            } else {
                assert forall|j: int| 0 <= j < r.len() implies #[trigger] r[j].0 != k by {
                    if s.len() == TILE_CACHE_CAPACITY {
                        assert(r[j] == s[j + 1]);
                    }
                }
                assert forall|a: int, b: int|
                    0 <= a < r.len() && 0 <= b < r.len() && a != b implies r[a].0 != r[b].0 by {
                    if s.len() == TILE_CACHE_CAPACITY {
                        assert(r[a] == s[a + 1] && r[b] == s[b + 1]);
                    }
                }
            }
            assert forall|a: int, b: int|
                0 <= a < t.len() && 0 <= b < t.len() && a != b implies t[a].0 != t[b].0 by {
                if a < r.len() && b < r.len() {
                    assert(t[a] == r[a] && t[b] == r[b]);
                } else if a < r.len() {
                    assert(t[a] == r[a]);
                } else {
                    assert(t[b] == r[b]);
                }
            }
            lemma_index_of(t, t.len() - 1);
        }
    }

    /// First step of a query around `center`: the tiles of its 3x3 block
    /// that are not held and must be fetched, in loading order. Held tiles of
    /// the block become recently used.
    pub fn tiles_to_fetch(&mut self, center: Coord) -> (r: Vec<Coord>)
        requires
            old(self).wf(),
            has_full_window(center),
        ensures
            final(self).wf(),
            same_contents(old(self)@, final(self)@),
            final(self)@ == touch_all(old(self)@, Seq::new(9, |k: int| window_at(center, k))),
            r@ == absent_of(old(self)@, Seq::new(9, |k: int| window_at(center, k))),
    {
        let w = tile_window(center);
        proof {
            assert(w@ =~= Seq::new(9, |k: int| window_at(center, k)));
        }
        self.missing(&w)
    }

    /// Second step of a query: stores each tile that was fetched, in order.
    /// A tile whose fetch failed (`None`) is left out.
    pub fn store_fetched(&mut self, fetched: Vec<(Coord, Option<Vec<u8>>)>)
        requires
            old(self).wf(),
        ensures
            final(self).wf(),
            final(self)@ == stored(old(self)@, fetched@),
    {
        let ghost f = fetched@;
        let ghost s0 = self@;
        let mut rest = fetched;
        let mut items: Vec<(Coord, Option<Vec<u8>>)> = Vec::new();
        while rest.len() > 0
            invariant
                items@.len() + rest@.len() == f.len(),
                forall|j: int| 0 <= j < items@.len() ==> #[trigger] items@[j] == f[f.len() - 1 - j],
                forall|j: int| 0 <= j < rest@.len() ==> #[trigger] rest@[j] == f[j],
            decreases rest@.len(),
        {
            let x = rest.pop().unwrap();
            items.push(x);
        }
        proof {
            assert(f.take(0) =~= Seq::<(Coord, Option<Vec<u8>>)>::empty());
        }
        while items.len() > 0
            invariant
                self.wf(),
                items@.len() <= f.len(),
                forall|j: int| 0 <= j < items@.len() ==> #[trigger] items@[j] == f[f.len() - 1 - j],
                self@ == stored(s0, f.take(f.len() - items@.len())),
            decreases items@.len(),
        {
            let ghost i = f.len() - items@.len();
            let (c, bytes) = items.pop().unwrap();
            proof {
                assert(f.take(i + 1).drop_last() =~= f.take(i));
                assert(f.take(i + 1).last() == f[i]);
            }
            match bytes {
                Some(b) => {
                    self.insert(c, b);
                },
                None => {},
            }
        }
        proof {
            assert(f.take(f.len() as int) =~= f);
        }
    }

    /// Third step of a query around `center`: the tiles of its 3x3 block that
    /// are held, with their bytes, in loading order. They become recently used.
    pub fn tiles_to_parse(&mut self, center: Coord) -> (r: Vec<(Coord, Vec<u8>)>)
        requires
            old(self).wf(),
            has_full_window(center),
        ensures
            final(self).wf(),
            same_contents(old(self)@, final(self)@),
            final(self)@ == touch_all(old(self)@, Seq::new(9, |k: int| window_at(center, k))),
            r@.len() == present_of(old(self)@, Seq::new(9, |k: int| window_at(center, k))).len(),
            forall|j: int|
                0 <= j < r@.len() ==> (#[trigger] r@[j]).0 == present_of(
                    old(self)@,
                    Seq::new(9, |k: int| window_at(center, k)),
                )[j].0 && r@[j].1@ == present_of(old(self)@, Seq::new(9, |k: int| window_at(center, k)))[j].1,
    {
        let w = tile_window(center);
        proof {
            assert(w@ =~= Seq::new(9, |k: int| window_at(center, k)));
        }
        self.present(&w)
    }

    /// Looks up each tile of `window` in turn, marking every one it holds as
    /// recently used, and returns those it does not hold, in window order.
    pub fn missing(&mut self, window: &Vec<Coord>) -> (r: Vec<Coord>)
        requires
            old(self).wf(),
        ensures
            final(self).wf(),
            same_contents(old(self)@, final(self)@),
            final(self)@ == touch_all(old(self)@, window@),
            r@ == absent_of(old(self)@, window@),
    {
        let ghost s = self@;
        let mut r: Vec<Coord> = Vec::new();
        let mut i: usize = 0;
        while i < window.len()
            invariant
                self.wf(),
                same_contents(s, self@),
                self@ == touch_all(s, window@.take(i as int)),
                0 <= i <= window@.len(),
                r@ == absent_of(s, window@.take(i as int)),
            decreases window@.len() - i,
        {
            let c = window[i];
            let ghost before = self@;
            let got = lru_get(&mut self.tiles, c.to_key());
            proof {
                if has_key(before, c.key()) {
                    lemma_touched(before, index_of(before, c.key()));
                }
                assert(window@.take(i + 1).drop_last() == window@.take(i as int));
            }
            if got.is_none() {
                r.push(c);
            }
            i = i + 1;
        }
        proof {
            assert(window@.take(window@.len() as int) == window@);
        }
        r
    }

    /// Looks up each tile of `window` in turn, marking every one it holds as
    /// recently used, and returns those it holds with their bytes, in window
    /// order.
    pub fn present(&mut self, window: &Vec<Coord>) -> (r: Vec<(Coord, Vec<u8>)>)
        requires
            old(self).wf(),
        ensures
            final(self).wf(),
            same_contents(old(self)@, final(self)@),
            final(self)@ == touch_all(old(self)@, window@),
            r@.len() == present_of(old(self)@, window@).len(),
            forall|j: int| 0 <= j < r@.len() ==> (#[trigger] r@[j]).0 == present_of(old(self)@, window@)[j].0
                && r@[j].1@ == present_of(old(self)@, window@)[j].1,
    {
        let ghost s = self@;
        let mut r: Vec<(Coord, Vec<u8>)> = Vec::new();
        let mut i: usize = 0;
        while i < window.len()
            invariant
                self.wf(),
                same_contents(s, self@),
                self@ == touch_all(s, window@.take(i as int)),
                0 <= i <= window@.len(),
                r@.len() == present_of(s, window@.take(i as int)).len(),
                forall|j: int| 0 <= j < r@.len() ==> (#[trigger] r@[j]).0 == present_of(s, window@.take(i as int))[j].0
                    && r@[j].1@ == present_of(s, window@.take(i as int))[j].1,
            decreases window@.len() - i,
        {
            let c = window[i];
            let ghost before = self@;
            let got = lru_get(&mut self.tiles, c.to_key());
            proof {
                if has_key(before, c.key()) {
                    lemma_touched(before, index_of(before, c.key()));
                }
                assert(window@.take(i + 1).drop_last() == window@.take(i as int));
            }
            match got {
                Some(bytes) => {
                    r.push((c, bytes));
                },
                None => {},
            }
            i = i + 1;
        }
        proof {
            assert(window@.take(window@.len() as int) == window@);
        }
        r
    }
}

/// However many queries have run, the cache holds at most
/// [`TILE_CACHE_CAPACITY`] tiles, each under one key.
pub proof fn cache_stays_bounded(c: &TileCache)
    requires
        c.wf(),
    ensures
        c.spec_len() <= TILE_CACHE_CAPACITY,
        keys_distinct(c@),
{
}

} // verus!
