//! A pool of re-usable `u16` ids.
//!
//! Ids are handed out by probing the id space from where the previous probe
//! stopped, wrapping around at `ID_LIMIT`; released ids become free again.
use vstd::prelude::*;
use std::collections::HashMap;

verus! {

broadcast use vstd::std_specs::hash::group_hash_axioms;

/// Size of the id space: ids are `0 .. ID_LIMIT`, and at most `ID_LIMIT`
/// ids can be out at the same time.
pub const ID_LIMIT: u16 = 65535;

/// Pooled, re-usable id generator.
pub struct IdPool {
    acquired_ids: HashMap<u16, bool>,
    released_ids: Vec<u16>,
    used_ids: u16,
    next_id: u16,
}

/// The abstract state of an id pool.
pub struct IdPoolView {
    /// Ids that are currently handed out.
    pub acquired: Set<u16>,
    /// Ids kept for quick re-use, taken from the back.
    pub released: Seq<u16>,
    /// Number of ids currently handed out.
    pub used: nat,
    /// Where the next probe of the id space starts.
    pub next: u16,
}

/// Distance from `a` forward to `b` on the circle of ids `0 .. ID_LIMIT`.
pub open spec fn cyclic_distance(a: u16, b: u16) -> int {
    if a <= b {
        b - a
    } else {
        b + ID_LIMIT - a
    }
}

/// `id` is the first free id met when probing forward from `start`: it is
/// free, and every id probed before it is taken.
pub open spec fn first_free_from(acquired: Set<u16>, start: u16, id: u16) -> bool {
    &&& id < ID_LIMIT
    &&& !acquired.contains(id)
    &&& forall|x: u16|
        x < ID_LIMIT && #[trigger] cyclic_distance(start, x) < cyclic_distance(start, id)
            ==> acquired.contains(x)
}

/// What `get_id` does to a pool in state `pre`, giving `post` and returning `r`.
pub open spec fn get_id_post(pre: IdPoolView, post: IdPoolView, r: Option<u16>) -> bool {
    match r {
        None => pre.used >= ID_LIMIT && post == pre,
        Some(id) => {
            &&& pre.used < ID_LIMIT
            &&& post.acquired == pre.acquired.insert(id)
            &&& post.used == pre.used + 1
            &&& if pre.released.len() > 0 {
                &&& id == pre.released.last()
                &&& post.released == pre.released.drop_last()
                &&& post.next == pre.next
            } else {
                &&& first_free_from(pre.acquired, pre.next, id)
                &&& post.released == pre.released
                &&& post.next == id
            }
        },
    }
}

/// What `release_id(id)` does to a pool in state `pre`, giving `post`.
pub open spec fn release_id_post(pre: IdPoolView, post: IdPoolView, id: u16) -> bool {
    &&& post.acquired == pre.acquired.remove(id)
    &&& post.used == (if pre.acquired.contains(id) { (pre.used - 1) as nat } else { pre.used })
    &&& post.released == pre.released
    &&& post.next == pre.next
}

/// The state of a new (or reset) pool.
pub open spec fn empty_pool() -> IdPoolView {
    IdPoolView { acquired: Set::empty(), released: Seq::empty(), used: 0, next: 0 }
}

/// The invariant of a pool state: every id is in range, the count of
/// handed-out ids is exact, and ids kept for re-use are distinct and free.
pub open spec fn pool_inv(v: IdPoolView) -> bool {
    &&& v.acquired.finite()
    &&& v.used == v.acquired.len()
    &&& v.used <= ID_LIMIT
    &&& v.next < ID_LIMIT
    &&& forall|x: u16| #[trigger] v.acquired.contains(x) ==> x < ID_LIMIT
    &&& v.released.no_duplicates()
    &&& forall|i: int|
        0 <= i < v.released.len() ==> #[trigger] v.released[i] < ID_LIMIT
            && !v.acquired.contains(v.released[i])
}

impl View for IdPool {
    type V = IdPoolView;

    closed spec fn view(&self) -> IdPoolView {
        IdPoolView {
            acquired: self.acquired_ids@.dom(),
            released: self.released_ids@,
            used: self.used_ids as nat,
            next: self.next_id,
        }
    }
}

/// A finite set of ids below `ID_LIMIT` with fewer than `ID_LIMIT` members
/// leaves some id below `ID_LIMIT` free.
proof fn lemma_free_id_exists(acquired: Set<u16>) -> (f: u16)
    requires
        acquired.finite(),
        acquired.len() < ID_LIMIT,
        forall|x: u16| #[trigger] acquired.contains(x) ==> x < ID_LIMIT,
    ensures
        f < ID_LIMIT,
        !acquired.contains(f),
{
    if forall|x: u16| x < ID_LIMIT ==> #[trigger] acquired.contains(x) {
        let to_int = |k: u16| k as int;
        let ints = acquired.map(to_int);
        vstd::set_lib::lemma_map_size_bound(acquired, ints, to_int);
        let range = vstd::set_lib::set_int_range(0, ID_LIMIT as int);
        vstd::set_lib::lemma_int_range(0, ID_LIMIT as int);
        assert forall|i: int| range.contains(i) implies ints.contains(i) by {
            let k = i as u16;
            assert(acquired.contains(k));
            assert(to_int(k) == i);
        }
        vstd::set_lib::lemma_len_subset(range, ints);
        assert(false);
        0
    } else {
        choose|x: u16| x < ID_LIMIT && !acquired.contains(x)
    }
}

impl IdPool {
    /// A well-formed pool satisfies the invariant of its view: the count of
    /// handed-out ids is exact and every id is below `ID_LIMIT`.
    pub proof fn lemma_wf_inv(&self)
        requires
            self.wf(),
        ensures
            pool_inv(self@),
    {
    }

    /// Whether the pool's state satisfies its invariant.
    pub closed spec fn wf(&self) -> bool {
        &&& pool_inv(self@)
        &&& forall|k: u16| #[trigger] self.acquired_ids@.contains_key(k) ==> self.acquired_ids@[k]
    }

    /// Creates an empty pool.
    pub fn new() -> (pool: IdPool)
        ensures
            pool.wf(),
            pool@ == empty_pool(),
            pool_inv(pool@),
    {
        let pool = IdPool {
            acquired_ids: HashMap::new(),
            used_ids: 0,
            next_id: 0,
            released_ids: Vec::new(),
        };
        assert(pool@.acquired =~= Set::empty());
        assert(pool@.released =~= Seq::empty());
        pool
    }

    /// Releases every id and starts probing at zero again.
    pub fn reset(&mut self)
        ensures
            final(self).wf(),
            final(self)@ == empty_pool(),
            pool_inv(final(self)@),
    {
        self.acquired_ids.clear();
        self.used_ids = 0;
        self.next_id = 0;
        self.released_ids.clear();
        assert(self@.acquired =~= Set::empty());
        assert(self@.released =~= Seq::empty());
    }

    /// Hands out a free id, or `None` when `ID_LIMIT` ids are already out.
    /// Ids kept for re-use come first; otherwise the id space is probed
    /// forward from where the last probe stopped.
    pub fn get_id(&mut self) -> (r: Option<u16>)
        requires
            old(self).wf(),
        ensures
            final(self).wf(),
            r is Some <==> old(self)@.used < ID_LIMIT,
            get_id_post(old(self)@, final(self)@, r),
            r matches Some(id) ==> id < ID_LIMIT && !old(self)@.acquired.contains(id)
                && final(self)@.acquired == old(self)@.acquired.insert(id)
                && final(self)@.used == old(self)@.used + 1,
            pool_inv(final(self)@),
    {
        if self.used_ids < ID_LIMIT {
            let ghost pre = self@;
            let id = if self.released_ids.len() > 0 {
                let id = self.released_ids.pop().unwrap();
                proof {
                    assert(pre.released[pre.released.len() - 1] == id);
                    assert(self@.released =~= pre.released.drop_last());
                    assert forall|i: int| 0 <= i < self@.released.len() implies
                        #[trigger] self@.released[i] != id by {
                        assert(pre.released[i] == self@.released[i]);
                    }
                }
                id
            } else {
                let ghost start = self.next_id;
                let ghost f = lemma_free_id_exists(pre.acquired);
                let ghost mut d: int = 0;
                while self.acquired_ids.contains_key(&self.next_id)
                    invariant
                        self@.acquired == pre.acquired,
                        self@.released == pre.released,
                        self@.used == pre.used,
                        self.acquired_ids@ == old(self).acquired_ids@,
                        pool_inv(pre),
                        pre.released.len() == 0,
                        start == pre.next,
                        f < ID_LIMIT,
                        !pre.acquired.contains(f),
                        self.next_id < ID_LIMIT,
                        0 <= d <= cyclic_distance(start, f),
                        self.next_id as int == (start + d) % (ID_LIMIT as int),
                        forall|k: int|
                            0 <= k < d ==> pre.acquired.contains(
                                #[trigger] (((start + k) % (ID_LIMIT as int)) as u16),
                            ),
                    decreases cyclic_distance(start, f) - d,
                {
                    proof {
                        if d == cyclic_distance(start, f) {
                            assert(self.next_id == f);
                        }
                    }
                    self.next_id = self.next_id + 1;
                    if self.next_id == ID_LIMIT {
                        self.next_id = 0;
                    }
                    proof {
                        d = d + 1;
                    }
                }
                let id = self.next_id;
                proof {
                    assert(cyclic_distance(start, id) == d);
                    assert forall|x: u16|
                        x < ID_LIMIT && #[trigger] cyclic_distance(start, x) < cyclic_distance(
                            start,
                            id,
                        ) implies pre.acquired.contains(x) by {
                        let k = cyclic_distance(start, x);
                        assert(((start + k) % (ID_LIMIT as int)) as u16 == x);
                    }
                }
                id
            };
            self.acquired_ids.insert(id, true);
            self.used_ids = self.used_ids + 1;
            proof {
                assert(!pre.acquired.contains(id));
                assert(self@.acquired =~= pre.acquired.insert(id));
                assert forall|i: int| 0 <= i < self@.released.len() implies
                    #[trigger] self@.released[i] < ID_LIMIT
                    && !self@.acquired.contains(self@.released[i]) by {
                    if pre.released.len() > 0 {
                        assert(self@.released[i] == pre.released[i]);
                    }
                }
            }
            Some(id)
        } else {
            None
        }
    }

    /// Makes `id` free again if it is handed out; otherwise does nothing.
    /// The id is not kept for immediate re-use, so that a stale id still in
    /// flight on the network is not mistaken for a new one.
    pub fn release_id(&mut self, id: u16)
        requires
            old(self).wf(),
        ensures
            final(self).wf(),
            release_id_post(old(self)@, final(self)@, id),
            pool_inv(final(self)@),
    {
        let ghost pre = self@;
        if let Some(_) = self.acquired_ids.remove(&id) {
            proof {
                assert(pre.acquired.contains(id));
                assert(self@.acquired =~= pre.acquired.remove(id));
            }
            self.used_ids = self.used_ids - 1;
        } else {
            assert(self@.acquired =~= pre.acquired.remove(id));
        }
    }
}

/// An id handed out by `get_id` was free before and is taken afterwards.
pub proof fn lemma_get_id_fresh(pre: IdPoolView, post: IdPoolView, id: u16)
    requires
        pool_inv(pre),
        get_id_post(pre, post, Some(id)),
    ensures
        !pre.acquired.contains(id),
        post.acquired.contains(id),
        id < ID_LIMIT,
{
    if pre.released.len() > 0 {
        assert(pre.released[pre.released.len() - 1] == id);
    }
}

/// Two ids handed out one after the other, with no release in between,
/// differ.
pub proof fn lemma_get_id_distinct(p0: IdPoolView, p1: IdPoolView, p2: IdPoolView, a: u16, b: u16)
    requires
        pool_inv(p0),
        pool_inv(p1),
        get_id_post(p0, p1, Some(a)),
        get_id_post(p1, p2, Some(b)),
    ensures
        a != b,
{
    lemma_get_id_fresh(p0, p1, a);
    lemma_get_id_fresh(p1, p2, b);
}

/// Releasing a handed-out id frees it and lowers the count by one; the
/// next `get_id` then succeeds even from a full pool.
pub proof fn lemma_release_frees(pre: IdPoolView, post: IdPoolView, id: u16)
    requires
        pool_inv(pre),
        pre.acquired.contains(id),
        release_id_post(pre, post, id),
    ensures
        !post.acquired.contains(id),
        post.used + 1 == pre.used,
        post.used < ID_LIMIT,
{
}


/// The pool invariant holds of a new pool and is kept by `get_id` and
/// `release_id`: the count of handed-out ids never underflows and never
/// exceeds `ID_LIMIT`.
pub proof fn lemma_pool_inv_kept(pre: IdPoolView, got: IdPoolView, r: Option<u16>, released: IdPoolView, id: u16)
    requires
        pool_inv(pre),
    ensures
        pool_inv(empty_pool()),
        get_id_post(pre, got, r) ==> pool_inv(got),
        release_id_post(pre, released, id) ==> pool_inv(released),
{
    assert(empty_pool().acquired =~= Set::<u16>::empty());
    if get_id_post(pre, got, r) {
        if let Some(x) = r {
            lemma_get_id_fresh(pre, got, x);
            if pre.released.len() > 0 {
                assert forall|i: int| 0 <= i < got.released.len() implies #[trigger] got.released[i]
                    < ID_LIMIT && !got.acquired.contains(got.released[i]) by {
                    assert(got.released[i] == pre.released[i]);
                    assert(pre.released[i] != pre.released[pre.released.len() - 1]);
                }
                assert forall|a: int, b: int| 0 <= a < b < got.released.len() implies got.released[a]
                    != got.released[b] by {
                    assert(got.released[a] == pre.released[a]);
                    assert(got.released[b] == pre.released[b]);
                }
            }
        }
    }
    if release_id_post(pre, released, id) {
        assert forall|i: int| 0 <= i < released.released.len() implies #[trigger] released.released[i]
            < ID_LIMIT && !released.acquired.contains(released.released[i]) by {
            assert(pre.released[i] < ID_LIMIT);
        }
    }
}

} // verus!
