//! Slot bookkeeping of the client's particle system: which particle slots
//! are in use, the free list of unused slots, and the bound below which all
//! used slots lie. The particles' numeric data stays with the renderer.
use vstd::prelude::*;

verus! {

/// The abstract state of the particle slots.
pub struct ParticleSlotsView {
    /// Whether each slot holds a live particle.
    pub active: Seq<bool>,
    /// The free slots, in the order `get` hands them out.
    pub free: Seq<usize>,
    /// Every live particle's slot is below this bound.
    pub max_used: usize,
}

/// Slot bookkeeping of a particle system: a free list threaded through the
/// slots, starting at `first_available`.
pub struct ParticleSlots {
    active: Vec<bool>,
    next_available: Vec<usize>,
    first_available: usize,
    max_used: usize,
    free: Ghost<Seq<usize>>,
}

impl View for ParticleSlots {
    type V = ParticleSlotsView;

    closed spec fn view(&self) -> ParticleSlotsView {
        ParticleSlotsView { active: self.active@, free: self.free@, max_used: self.max_used }
    }
}

/// The free list after a sweep of slots `0 .. k`: each slot that held a live
/// particle which did not survive is pushed on the front, in slot order.
pub open spec fn swept_free(active: Seq<bool>, alive: Seq<bool>, free: Seq<usize>, k: int) -> Seq<usize>
    decreases k,
{
    if k <= 0 {
        free
    } else {
        let f = swept_free(active, alive, free, k - 1);
        if active[k - 1] && !alive[k - 1] {
            seq![(k - 1) as usize] + f
        } else {
            f
        }
    }
}

/// The invariant of the slot bookkeeping.
pub open spec fn slots_inv(v: ParticleSlotsView) -> bool {
    &&& v.max_used <= v.active.len()
    &&& forall|i: int| v.max_used <= i < v.active.len() ==> !#[trigger] v.active[i]
    &&& v.free.no_duplicates()
    &&& forall|k: int| 0 <= k < v.free.len() ==> #[trigger] v.free[k] < v.active.len()
    &&& forall|i: int| 0 <= i < v.active.len() ==> (!#[trigger] v.active[i] <==> v.free.contains(i as usize))
}

impl ParticleSlots {
    /// Well-formed slots satisfy the invariant of their view.
    pub proof fn lemma_wf_inv(&self)
        requires
            self.wf(),
        ensures
            slots_inv(self@),
    {
    }

    /// The slots' invariant, and the free list threaded through
    /// `next_available` from `first_available`.
    pub closed spec fn wf(&self) -> bool {
        let n = self.active@.len();
        let free = self.free@;
        &&& slots_inv(self@)
        &&& self.next_available@.len() == n
        &&& free.len() == 0 ==> self.first_available >= n
        &&& free.len() > 0 ==> self.first_available == free[0] && self.next_available@[free.last() as int] >= n
        &&& forall|k: int| 0 <= k < free.len() - 1 ==> self.next_available@[#[trigger] free[k] as int] == free[k + 1]
    }

    /// `max_particles` free slots, handed out in slot order.
    pub fn new(max_particles: usize) -> (s: ParticleSlots)
        ensures
            s.wf(),
            slots_inv(s@),
            s@.active == Seq::new(max_particles as nat, |i: int| false),
            s@.free == Seq::new(max_particles as nat, |i: int| i as usize),
            s@.max_used == 0,
    {
        let mut active: Vec<bool> = Vec::new();
        let mut next_available: Vec<usize> = Vec::new();
        let mut i: usize = 0;
        while i < max_particles
            invariant
                i <= max_particles,
                active@ == Seq::new(i as nat, |j: int| false),
                next_available@ == Seq::new(i as nat, |j: int| (j + 1) as usize),
            decreases max_particles - i,
        {
            active.push(false);
            next_available.push(i + 1);
            assert(active@ =~= Seq::new((i + 1) as nat, |j: int| false));
            assert(next_available@ =~= Seq::new((i + 1) as nat, |j: int| (j + 1) as usize));
            i = i + 1;
        }
        let ghost free = Seq::new(max_particles as nat, |i: int| i as usize);
        let s = ParticleSlots {
            active,
            next_available,
            first_available: 0,
            max_used: 0,
            free: Ghost(free),
        };
        proof {
            assert forall|i: int| 0 <= i < s.active@.len() implies (!#[trigger] s.active@[i] <==> free.contains(i as usize)) by {
                assert(free[i] == i as usize);
            }
            assert forall|a: int, b: int| 0 <= a < free.len() && 0 <= b < free.len() && a != b implies free[a] != free[b] by {
            }
        }
        s
    }

    /// Number of slots.
    pub fn len(&self) -> (n: usize)
        ensures
            n == self@.active.len(),
    {
        self.active.len()
    }

    /// Whether slot `i` holds a live particle.
    pub fn is_active(&self, i: usize) -> (r: bool)
        requires
            i < self@.active.len(),
        ensures
            r == self@.active[i as int],
    {
        self.active[i]
    }

    /// Bound below which all live particles lie.
    pub fn max_used(&self) -> (m: usize)
        ensures
            m == self@.max_used,
    {
        self.max_used
    }

    /// Takes the first free slot for a new particle, or `None` when every
    /// slot is in use.
    pub fn get(&mut self) -> (r: Option<usize>)
        requires
            old(self).wf(),
        ensures
            final(self).wf(),
            slots_inv(final(self)@),
            match r {
                Some(i) => {
                    &&& old(self)@.free.len() > 0
                    &&& i == old(self)@.free[0]
                    &&& final(self)@.active == old(self)@.active.update(i as int, true)
                    &&& final(self)@.free == old(self)@.free.drop_first()
                    &&& final(self)@.max_used == if old(self)@.max_used > i { old(self)@.max_used } else { (i + 1) as usize }
                },
                None => old(self)@.free.len() == 0 && final(self)@ == old(self)@,
            },
    {
        let ghost pre = self@;
        let i = self.first_available;
        if i < self.active.len() {
            self.active.set(i, true);
            self.first_available = self.next_available[i];
            if self.max_used < i + 1 {
                self.max_used = i + 1;
            }
            proof {
                let free = pre.free;
                assert(free.len() > 0);
                self.free@ = free.drop_first();
                let nf = self.free@;
                assert forall|j: int| 0 <= j < self.active@.len() implies (!#[trigger] self.active@[j] <==> nf.contains(j as usize)) by {
                    if j == i as int {
                        assert(free[0] == i);
                        if nf.contains(j as usize) {
                            let k = choose|k: int| 0 <= k < nf.len() && nf[k] == j as usize;
                            assert(free[k + 1] == free[0]);
                        }
                    } else {
                        if free.contains(j as usize) {
                            let k = choose|k: int| 0 <= k < free.len() && free[k] == j as usize;
                            assert(k != 0);
                            assert(nf[k - 1] == j as usize);
                        }
                        if nf.contains(j as usize) {
                            let k = choose|k: int| 0 <= k < nf.len() && nf[k] == j as usize;
                            assert(free[k + 1] == j as usize);
                        }
                    }
                }
                assert forall|k: int| 0 <= k < nf.len() - 1 implies self.next_available@[#[trigger] nf[k] as int] == nf[k + 1] by {
                    assert(nf[k] == free[k + 1]);
                }
                if nf.len() > 0 {
                    assert(self.next_available@[free[0] as int] == free[1]);
                }
            }
            Some(i)
        } else {
            None
        }
    }

    /// After the live particles below `max_used` were stepped, frees the
    /// slots of those whose step ended them (`alive[i]` false) and lowers
    /// `max_used` to just above the last live particle.
    pub fn sweep(&mut self, alive: &Vec<bool>)
        requires
            old(self).wf(),
            alive@.len() >= old(self)@.max_used,
        ensures
            final(self).wf(),
            slots_inv(final(self)@),
            final(self)@.active.len() == old(self)@.active.len(),
            forall|i: int|
                0 <= i < old(self)@.active.len() ==> #[trigger] final(self)@.active[i] == (old(self)@.active[i]
                    && (i >= old(self)@.max_used || alive@[i])),
            final(self)@.free == swept_free(old(self)@.active, alive@, old(self)@.free, old(self)@.max_used as int),
            forall|i: int| 0 <= i < final(self)@.active.len() && #[trigger] final(self)@.active[i] ==> i < final(self)@.max_used,
            final(self)@.max_used > 0 ==> final(self)@.active[final(self)@.max_used - 1],
    {
        let ghost pre = self@;
        let bound = self.max_used;
        let mut max_used: usize = 0;
        let mut i: usize = 0;
        while i < bound
            invariant
                bound == pre.max_used,
                alive@.len() >= bound,
                i <= bound,
                self.wf(),
                self.max_used == bound,
                self@.active.len() == pre.active.len(),
                forall|j: int|
                    0 <= j < pre.active.len() ==> #[trigger] self@.active[j] == if j < i {
                        pre.active[j] && alive@[j]
                    } else {
                        pre.active[j]
                    },
                self@.free == swept_free(pre.active, alive@, pre.free, i as int),
                max_used <= i,
                forall|j: int| 0 <= j < i && #[trigger] self@.active[j] ==> j < max_used,
                max_used > 0 ==> self@.active[max_used - 1],
            decreases bound - i,
        {
            if self.active[i] {
                if !alive[i] {
                    let ghost f = self.free@;
                    let old_first = self.first_available;
                    self.active.set(i, false);
                    self.next_available.set(i, old_first);
                    self.first_available = i;
                    proof {
                        assert(!f.contains(i));
                        self.free@ = seq![i] + f;
                        let nf = self.free@;
                        assert forall|j: int| 0 <= j < self.active@.len() implies (!#[trigger] self.active@[j] <==> nf.contains(j as usize)) by {
                            if j != i as int {
                                if f.contains(j as usize) {
                                    let k = choose|k: int| 0 <= k < f.len() && f[k] == j as usize;
                                    assert(nf[k + 1] == j as usize);
                                }
                                if nf.contains(j as usize) {
                                    let k = choose|k: int| 0 <= k < nf.len() && nf[k] == j as usize;
                                    assert(k != 0);
                                    assert(f[k - 1] == j as usize);
                                }
                            } else {
                                assert(nf[0] == i);
                            }
                        }
                        assert forall|a: int, b: int| 0 <= a < nf.len() && 0 <= b < nf.len() && a != b implies nf[a] != nf[b] by {
                            if a > 0 && b > 0 {
                                assert(nf[a] == f[a - 1] && nf[b] == f[b - 1]);
                            } else if a == 0 {
                                assert(nf[b] == f[b - 1]);
                                assert(f.contains(f[b - 1]));
                            } else {
                                assert(nf[a] == f[a - 1]);
                                assert(f.contains(f[a - 1]));
                            }
                        }
                        assert forall|k: int| 0 <= k < nf.len() - 1 implies self.next_available@[#[trigger] nf[k] as int] == nf[k + 1] by {
                            if k > 0 {
                                assert(nf[k] == f[k - 1]);
                                assert(f[k - 1] != i);
                                assert(f.contains(f[k - 1]));
                            }
                        }
                        if f.len() > 0 {
                            assert(nf.last() == f.last());
                            assert(f.contains(f.last()));
                        }
                        assert forall|k: int| 0 <= k < nf.len() implies #[trigger] nf[k] < self.active@.len() by {
                            if k > 0 {
                                assert(nf[k] == f[k - 1]);
                            }
                        }
                    }
                } else {
                    max_used = i + 1;
                }
            }
            i = i + 1;
        }
        self.max_used = max_used;
        proof {
            assert forall|j: int| max_used <= j < self@.active.len() implies !#[trigger] self@.active[j] by {
                if j >= bound {
                    assert(!pre.active[j]);
                }
            }
        }
    }
}

/// A slot handed out by `get` was free, so two particles never share a
/// slot.
pub proof fn lemma_get_gives_unused_slot(v: ParticleSlotsView, i: usize)
    requires
        slots_inv(v),
        v.free.len() > 0,
        i == v.free[0],
    ensures
        i < v.active.len(),
        !v.active[i as int],
{
    assert(v.free.contains(i));
}

} // verus!
