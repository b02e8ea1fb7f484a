//! A delay line for the states of a locally controlled entity: when the
//! client plays without a server, each state it computed comes back a fixed
//! number of ticks later as the state the "server" confirms.
use vstd::prelude::*;

verus! {

/// A buffer step: `x` goes in at the back; when more than `delay` items are
/// held, the front one comes out.
pub open spec fn delay_step<T>(buf: Seq<T>, x: T, delay: nat) -> (Seq<T>, Option<T>) {
    let b = buf.push(x);
    if b.len() > delay {
        (b.drop_first(), Some(b[0]))
    } else {
        (b, None)
    }
}

/// The last `delay` items of `xs` (all of them when there are fewer).
pub open spec fn last_items<T>(xs: Seq<T>, delay: nat) -> Seq<T> {
    if xs.len() > delay {
        xs.subrange(xs.len() - delay, xs.len() as int)
    } else {
        xs
    }
}

/// States with their ticks, held back for `delay` ticks.
pub struct StateDelay<S> {
    states: Vec<(u8, S)>,
    delay: usize,
}

impl<S> View for StateDelay<S> {
    type V = Seq<(u8, S)>;

    closed spec fn view(&self) -> Seq<(u8, S)> {
        self.states@
    }
}

impl<S> StateDelay<S> {
    /// The number of ticks a state is held back.
    pub closed spec fn delay_spec(&self) -> nat {
        self.delay as nat
    }

    /// An empty delay line holding states back for `delay` ticks.
    pub fn new(delay: usize) -> (d: Self)
        ensures
            d@ == Seq::<(u8, S)>::empty(),
            d.delay_spec() == delay,
    {
        StateDelay { states: Vec::new(), delay }
    }

    /// Number of states held.
    pub fn len(&self) -> (n: usize)
        ensures
            n == self@.len(),
    {
        self.states.len()
    }

    /// Drops every state held.
    pub fn clear(&mut self)
        ensures
            final(self)@ == Seq::<(u8, S)>::empty(),
            final(self).delay_spec() == old(self).delay_spec(),
    {
        self.states.clear();
    }

    /// Puts in the state of tick `tick`; once more than `delay` states are
    /// held, the oldest comes out.
    pub fn push(&mut self, tick: u8, state: S) -> (out: Option<(u8, S)>)
        ensures
            (final(self)@, out) == delay_step(old(self)@, (tick, state), old(self).delay_spec()),
            final(self).delay_spec() == old(self).delay_spec(),
    {
        self.states.push((tick, state));
        if self.states.len() > self.delay {
            let first = self.states.remove(0);
            Some(first)
        } else {
            None
        }
    }
}

/// A delay line fed from empty holds the last `delay` items put in, and an
/// item comes out exactly `delay` pushes after it went in: the push of item
/// `|xs|` gives back item `|xs| - delay`, or nothing while fewer than
/// `delay` items went in before.
pub proof fn lemma_delay_line<T>(xs: Seq<T>, x: T, delay: nat)
    ensures
        delay_step(last_items(xs, delay), x, delay) == (
            last_items(xs.push(x), delay),
            if xs.len() >= delay { Some(xs.push(x)[xs.len() - delay]) } else { None },
        ),
{
    let buf = last_items(xs, delay);
    let ys = xs.push(x);
    let b = buf.push(x);
    if xs.len() > delay {
        assert(b =~= ys.subrange(xs.len() - delay, ys.len() as int));
        assert(b.drop_first() =~= last_items(ys, delay));
        assert(b[0] == ys[xs.len() - delay]);
    } else if xs.len() == delay {
        assert(b =~= ys);
        assert(b.drop_first() =~= ys.subrange(ys.len() - delay, ys.len() as int));
    } else {
        assert(b =~= ys);
    }
}

} // verus!
