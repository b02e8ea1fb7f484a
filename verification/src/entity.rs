//! One synchronised entity: its current, base and previous state, the
//! buffer of past states, and the buffer of not yet confirmed inputs.
use vstd::prelude::*;
use std::collections::VecDeque;
use crate::input::{EntityInput, inputs_bytes, inputs_of_bytes, lemma_inputs_roundtrip};
use crate::snapshot::{entry_bytes, header_bytes, serialize_entry, serialize_header};
use crate::tick::{more_recent, tick_is_more_recent};

verus! {

broadcast use vstd::std_specs::vecdeque::group_vec_dequeue_axioms;

/// The state of an entity, implemented by the game. `flags_of`, `wire_size`,
/// `default_of`, `decoded_of`, `encoded_of` and `with_flags` are the
/// specification of `flags`, `encoded_size`, `default`, `from_serialized`,
/// `serialize` and `set_flags`: an implementation gives them the same bodies
/// (`with_flags` returning the changed copy).
pub trait EntityState: Sized {
    /// The default state.
    spec fn default_of() -> Self;

    /// The flag bits of this state; bit 0 marks the locally controlled entity.
    spec fn flags_of(&self) -> u8;

    /// The number of bytes of an encoded state.
    spec fn wire_size() -> usize;

    fn encoded_size() -> (n: usize)
        ensures
            n == Self::wire_size(),
    ;

    /// The state encoded at the start of `data`.
    spec fn decoded_of(data: &[u8]) -> Self;

    fn from_serialized(data: &[u8]) -> (r: Self)
        ensures
            r == Self::decoded_of(data),
    ;

    /// The encoding of this state.
    spec fn encoded_of(&self) -> Vec<u8>;

    fn serialize(&self) -> (r: Vec<u8>)
        ensures
            r@ == self.encoded_of()@,
    ;

    fn set_to(&mut self, state: &Self)
        ensures
            *final(self) == *state,
    ;

    fn clone(&self) -> (r: Self)
        ensures
            r == *self,
    ;

    fn default() -> (r: Self)
        ensures
            r == Self::default_of(),
    ;

    fn flags(&self) -> (r: u8)
        ensures
            r == self.flags_of(),
    ;

    /// This state with its flag bits set to `flags`.
    spec fn with_flags(&self, flags: u8) -> Self;

    fn set_flags(&mut self, flags: u8)
        ensures
            *final(self) == old(self).with_flags(flags),
            final(self).flags_of() == flags,
    ;
}

/// Events that happen to an entity, for the game's entity behaviour.
#[derive(Debug, Clone, Copy, PartialEq, Eq, Structural)]
pub enum EntityEvent {
    Created(u8),
    Destroyed(u8),
    Hide(u8),
    Show(u8),
    Flags(u8),
}

/// Whether flag bit 0, the local-control bit, is set.
pub open spec fn is_local_flags(flags: u8) -> bool {
    flags & 1 == 1
}

/// `buf` with `x` appended at the back, dropping the front element when the
/// buffer grows beyond `size`.
pub open spec fn push_bounded<T>(buf: Seq<T>, x: T, size: nat) -> Seq<T> {
    let b = buf.push(x);
    if b.len() > size {
        b.drop_first()
    } else {
        b
    }
}

/// `buf` with `x` put in front, dropping the back element when the buffer
/// grows beyond `size`.
pub open spec fn push_front_bounded<T>(buf: Seq<T>, x: T, size: nat) -> Seq<T> {
    let b = seq![x] + buf;
    if b.len() > size {
        b.drop_last()
    } else {
        b
    }
}

/// The inputs of `inputs` that are more recent than tick `t`, in order.
pub open spec fn inputs_after(inputs: Seq<EntityInput>, t: u8) -> Seq<EntityInput> {
    inputs.filter(|i: EntityInput| more_recent(i.tick, t))
}

/// The abstract state of an entity.
pub struct EntityView<S> {
    pub id: u16,
    pub type_id: u8,
    pub owner: Option<u32>,
    pub alive: bool,
    pub visible: bool,
    /// Current, computed state.
    pub state: S,
    /// State before pending inputs are applied.
    pub base_state: S,
    /// Previous state, for interpolation.
    pub last_state: S,
    /// Last state confirmed by the server, with its tick (client side).
    pub confirmed_state: Option<(u8, S)>,
    /// Past states with their ticks, most recent first.
    pub state_buffer: Seq<(u8, S)>,
    /// Inputs not yet confirmed, oldest first.
    pub inputs: Seq<EntityInput>,
    /// Tick of the last input accepted from the remote side (server side).
    pub confirmed_input_tick: u8,
    /// Whether no remote input was accepted yet.
    pub initial_input: bool,
    /// Encoded pending inputs, waiting to be sent (client side).
    pub serialized_inputs: Option<Seq<u8>>,
    pub input_buffer_size: nat,
    pub state_buffer_size: nat,
}

/// The entity wrapper: all the synchronisation state of one entity.
pub struct Entity<S> {
    local_id: u16,
    type_id: u8,
    owner: Option<u32>,
    is_alive: bool,
    is_visible: bool,
    state: S,
    base_state: S,
    last_state: S,
    confirmed_state: Option<(u8, S)>,
    state_buffer: VecDeque<(u8, S)>,
    input_buffer: VecDeque<EntityInput>,
    confirmed_input_tick: u8,
    initial_input: bool,
    serialized_inputs: Option<Vec<u8>>,
    input_buffer_size: usize,
    state_buffer_size: usize,
}

impl<S> View for Entity<S> {
    type V = EntityView<S>;

    closed spec fn view(&self) -> EntityView<S> {
        EntityView {
            id: self.local_id,
            type_id: self.type_id,
            owner: self.owner,
            alive: self.is_alive,
            visible: self.is_visible,
            state: self.state,
            base_state: self.base_state,
            last_state: self.last_state,
            confirmed_state: self.confirmed_state,
            state_buffer: self.state_buffer@,
            inputs: self.input_buffer@,
            confirmed_input_tick: self.confirmed_input_tick,
            initial_input: self.initial_input,
            serialized_inputs: match self.serialized_inputs {
                Some(v) => Some(v@),
                None => None,
            },
            input_buffer_size: self.input_buffer_size as nat,
            state_buffer_size: self.state_buffer_size as nat,
        }
    }
}

/// Default number of buffered ticks for inputs and states.
pub open spec fn default_buffer_size() -> nat {
    30
}

/// The result of setting a new state: the new flags, when they changed.
pub open spec fn flags_change<S: EntityState>(old_state: S, new_state: S) -> Option<u8> {
    if old_state.flags_of() != new_state.flags_of() {
        Some(new_state.flags_of())
    } else {
        None
    }
}

/// The view of `e` after taking over `new_state`; the previous state
/// becomes `new_state` itself when `override_last`, else the old state.
pub open spec fn with_new_state<S>(e: EntityView<S>, new_state: S, override_last: bool) -> EntityView<S> {
    EntityView {
        state: new_state,
        base_state: new_state,
        last_state: if override_last { new_state } else { e.state },
        ..e
    }
}

/// The state shown at `tick_offset` ticks in the past: a buffered state when
/// there is one, else the current state.
pub open spec fn buffered_state_at<S>(e: EntityView<S>, tick_offset: int) -> S {
    if 0 <= tick_offset < e.state_buffer.len() {
        e.state_buffer[tick_offset].1
    } else {
        e.state
    }
}

/// The pair of states to interpolate between at `tick_offset` ticks in the
/// past: two consecutive buffered states, else the current and previous state.
pub open spec fn buffered_states_at<S>(e: EntityView<S>, tick_offset: int) -> (S, S) {
    if 0 <= tick_offset && tick_offset + 1 < e.state_buffer.len() {
        (e.state_buffer[tick_offset].1, e.state_buffer[tick_offset + 1].1)
    } else {
        (e.state, e.last_state)
    }
}

/// The view of `e` rewound `tick_offset` ticks: the pair of states to
/// interpolate between at that offset becomes its current and base state
/// and its previous state.
pub open spec fn rewound_view<S>(e: EntityView<S>, tick_offset: int) -> EntityView<S> {
    let (s, l) = buffered_states_at(e, tick_offset);
    EntityView { state: s, base_state: s, last_state: l, ..e }
}

/// The view of `e` after `remote_input(input)`.
pub open spec fn remote_input_view<S>(e: EntityView<S>, input: EntityInput) -> EntityView<S> {
    if accepts_remote_input(e, input.tick) {
        EntityView {
            initial_input: false,
            confirmed_input_tick: input.tick,
            inputs: push_bounded(e.inputs, input, e.input_buffer_size),
            ..e
        }
    } else {
        e
    }
}

/// The view of `e` after taking the remote inputs `inputs` in order.
pub open spec fn remote_inputs_view<S>(e: EntityView<S>, inputs: Seq<EntityInput>) -> EntityView<S>
    decreases inputs.len(),
{
    if inputs.len() == 0 {
        e
    } else {
        remote_input_view(remote_inputs_view(e, inputs.drop_last()), inputs.last())
    }
}

/// `buf` with every item of `xs` appended in order, each as
/// `push_bounded` appends it.
pub open spec fn push_all_bounded<T>(buf: Seq<T>, xs: Seq<T>, size: nat) -> Seq<T>
    decreases xs.len(),
{
    if xs.len() == 0 {
        buf
    } else {
        push_bounded(push_all_bounded(buf, xs.drop_last(), size), xs.last(), size)
    }
}

/// Ticks in strictly increasing order on the tick circle: each one more
/// recent than the one before.
pub open spec fn ticks_increasing(inputs: Seq<EntityInput>) -> bool {
    forall|k: int| 0 < k < inputs.len() ==> more_recent(#[trigger] inputs[k].tick, inputs[k - 1].tick)
}

/// Whether a remote input for tick `t` is taken: the first one always, later
/// ones only when more recent than the last one taken.
pub open spec fn accepts_remote_input<S>(e: EntityView<S>, t: u8) -> bool {
    e.initial_input || more_recent(t, e.confirmed_input_tick)
}

/// The view of `e` after the start of a tick: a confirmed state becomes the
/// new base and drops the inputs it confirms; without one, the base state is
/// restored.
pub open spec fn tick_begin_view<S>(e: EntityView<S>) -> EntityView<S> {
    match e.confirmed_state {
        Some((t, s)) => EntityView {
            confirmed_state: None,
            inputs: inputs_after(e.inputs, t),
            ..with_new_state(e, s, false)
        },
        None => EntityView { last_state: e.state, state: e.base_state, ..e },
    }
}

/// The view of `e` after the end of tick `tick` with computed state
/// `new_state`: on the server the new state becomes the base and the inputs
/// are consumed; the state is recorded in the state buffer.
pub open spec fn tick_end_view<S>(e: EntityView<S>, tick: u8, new_state: S, server: bool) -> EntityView<S> {
    EntityView {
        state: new_state,
        base_state: if server { new_state } else { e.base_state },
        inputs: if server { Seq::empty() } else { e.inputs },
        state_buffer: push_front_bounded(e.state_buffer, (tick, new_state), e.state_buffer_size),
        ..e
    }
}

/// A new entity: dead, hidden, with id 0, no owner, the default state as
/// current, base and previous state, empty buffers of the default size.
pub open spec fn fresh_view<S: EntityState>(type_id: u8) -> EntityView<S> {
    EntityView {
        id: 0,
        type_id,
        owner: None,
        alive: false,
        visible: false,
        state: S::default_of(),
        base_state: S::default_of(),
        last_state: S::default_of(),
        confirmed_state: None,
        state_buffer: Seq::empty(),
        inputs: Seq::empty(),
        confirmed_input_tick: 0,
        initial_input: true,
        serialized_inputs: None,
        input_buffer_size: default_buffer_size(),
        state_buffer_size: default_buffer_size(),
    }
}

impl<S: EntityState> Entity<S> {
    /// A new, dead and hidden entity of type `type_id` with id 0, owner-less,
    /// whose three states are the default state.
    pub fn new(type_id: u8) -> (e: Entity<S>)
        ensures
            e@ == fresh_view::<S>(type_id),
    {
        let state = S::default();
        let base_state = state.clone();
        let last_state = state.clone();
        Entity {
            local_id: 0,
            type_id,
            owner: None,
            is_alive: false,
            is_visible: false,
            state,
            base_state,
            last_state,
            confirmed_state: None,
            state_buffer: VecDeque::new(),
            input_buffer: VecDeque::new(),
            confirmed_input_tick: 0,
            initial_input: true,
            serialized_inputs: None,
            input_buffer_size: 30,
            state_buffer_size: 30,
        }
    }

    // Getters and setters ----------------------------------------------------

    pub fn id(&self) -> (id: u16)
        ensures
            id == self@.id,
    {
        self.local_id
    }

    pub fn set_id(&mut self, id: u16)
        ensures
            final(self)@ == (EntityView { id, ..old(self)@ }),
    {
        self.local_id = id;
    }

    pub fn type_id(&self) -> (t: u8)
        ensures
            t == self@.type_id,
    {
        self.type_id
    }

    /// Whether the entity is controlled locally: bit 0 of its state's flags.
    pub fn local(&self) -> (r: bool)
        ensures
            r == is_local_flags(self@.state.flags_of()),
    {
        self.state.flags() & 1 == 1
    }

    pub fn alive(&self) -> (r: bool)
        ensures
            r == self@.alive,
    {
        self.is_alive
    }

    pub fn set_alive(&mut self, alive: bool)
        ensures
            final(self)@ == (EntityView { alive, ..old(self)@ }),
    {
        self.is_alive = alive;
    }

    /// Sets how many ticks of inputs and of states are kept. A buffer already
    /// longer than the new size keeps its length: each later push drops one
    /// element.
    pub fn set_buffer_size(&mut self, ticks: usize)
        ensures
            final(self)@ == (EntityView {
                input_buffer_size: ticks as nat,
                state_buffer_size: ticks as nat,
                ..old(self)@
            }),
    {
        self.input_buffer_size = ticks;
        self.state_buffer_size = ticks;
    }

    // Ownership ----------------------------------------------------------------

    pub fn owner(&self) -> (r: Option<u32>)
        ensures
            r == self@.owner,
    {
        self.owner
    }

    pub fn set_owner(&mut self, owner: u32)
        ensures
            final(self)@ == (EntityView { owner: Some(owner), ..old(self)@ }),
    {
        self.owner = Some(owner);
    }

    pub fn owned_by(&self, owner: u32) -> (r: bool)
        ensures
            r == (self@.owner == Some(owner)),
    {
        match self.owner {
            Some(o) => o == owner,
            None => false,
        }
    }

    // Visibility ---------------------------------------------------------------

    pub fn is_visible(&self) -> (r: bool)
        ensures
            r == self@.visible,
    {
        self.is_visible
    }

    /// Makes the entity visible; returns the event for its behaviour.
    pub fn show(&mut self, tick: u8) -> (ev: EntityEvent)
        ensures
            final(self)@ == (EntityView { visible: true, ..old(self)@ }),
            ev == EntityEvent::Show(tick),
    {
        self.is_visible = true;
        EntityEvent::Show(tick)
    }

    /// Hides the entity; returns the event for its behaviour.
    pub fn hide_entity(&mut self, tick: u8) -> (ev: EntityEvent)
        ensures
            final(self)@ == (EntityView { visible: false, ..old(self)@ }),
            ev == EntityEvent::Hide(tick),
    {
        self.is_visible = false;
        EntityEvent::Hide(tick)
    }

    // State --------------------------------------------------------------------

    pub fn state(&self) -> (s: &S)
        ensures
            *s == self@.state,
    {
        &self.state
    }

    pub fn base_state(&self) -> (s: &S)
        ensures
            *s == self@.base_state,
    {
        &self.base_state
    }

    pub fn last_state(&self) -> (s: &S)
        ensures
            *s == self@.last_state,
    {
        &self.last_state
    }

    /// The state `tick_offset` ticks in the past, or the current state when
    /// the buffer does not reach back that far.
    pub fn buffered_state(&self, tick_offset: usize) -> (s: &S)
        ensures
            *s == buffered_state_at(self@, tick_offset as int),
    {
        let buffer_len = self.state_buffer.len();
        if buffer_len > 0 && tick_offset < buffer_len {
            &self.state_buffer[tick_offset].1
        } else {
            &self.state
        }
    }

    /// The two states to interpolate between at `tick_offset` ticks in the
    /// past, or the current and previous state.
    pub fn buffered_states(&self, tick_offset: usize) -> (r: (&S, &S))
        ensures
            (*r.0, *r.1) == buffered_states_at(self@, tick_offset as int),
    {
        let buffer_len = self.state_buffer.len();
        if buffer_len > 0 && tick_offset < buffer_len - 1 {
            (&self.state_buffer[tick_offset].1, &self.state_buffer[tick_offset + 1].1)
        } else {
            (&self.state, &self.last_state)
        }
    }

    /// Rewinds the entity to its buffered states `tick_offset` ticks in the
    /// past (to its current and previous state when the buffer does not
    /// reach back that far).
    pub fn rewind_state(&mut self, tick_offset: usize)
        ensures
            final(self)@ == rewound_view(old(self)@, tick_offset as int),
    {
        let (state, last_state) = {
            let states = self.buffered_states(tick_offset);
            (EntityState::clone(states.0), EntityState::clone(states.1))
        };
        self.state.set_to(&state);
        self.base_state.set_to(&state);
        self.last_state.set_to(&last_state);
    }

    /// Brings the entity back to its most recent buffered states.
    pub fn forward_state(&mut self)
        ensures
            final(self)@ == rewound_view(old(self)@, 0),
    {
        self.rewind_state(0);
    }

    /// Takes over `state` as current, base and previous state; returns the
    /// new flags when they changed.
    pub fn set_state(&mut self, state: S) -> (flags: Option<u8>)
        ensures
            final(self)@ == with_new_state(old(self)@, state, true),
            flags == flags_change(old(self)@.state, state),
    {
        self.set_entity_state(state, true)
    }

    /// Takes over a remote `state` as current and base state, keeping the
    /// old current state as previous state for interpolation; returns the
    /// new flags when they changed.
    pub fn set_remote_state(&mut self, state: S) -> (flags: Option<u8>)
        ensures
            final(self)@ == with_new_state(old(self)@, state, false),
            flags == flags_change(old(self)@.state, state),
    {
        self.set_entity_state(state, false)
    }

    /// Records the state the server confirmed for `tick`; it is taken over
    /// at the next tick.
    pub fn set_confirmed_state(&mut self, tick: u8, state: S)
        ensures
            final(self)@ == (EntityView { confirmed_state: Some((tick, state)), ..old(self)@ }),
    {
        self.confirmed_state = Some((tick, state));
    }

    fn set_entity_state(&mut self, new_state: S, override_last: bool) -> (flags: Option<u8>)
        ensures
            final(self)@ == with_new_state(old(self)@, new_state, override_last),
            flags == flags_change(old(self)@.state, new_state),
    {
        let old_flags = self.state.flags();
        if override_last {
            self.last_state.set_to(&new_state);
        } else {
            self.last_state.set_to(&self.state);
        }
        self.base_state.set_to(&new_state);
        self.state.set_to(&new_state);
        let new_flags = new_state.flags();
        if old_flags != new_flags {
            Some(new_flags)
        } else {
            None
        }
    }

    // Input --------------------------------------------------------------------

    /// Records an input made locally and encodes all pending inputs for
    /// sending.
    pub fn local_input(&mut self, input: EntityInput)
        ensures
            final(self)@ == (EntityView {
                inputs: push_bounded(old(self)@.inputs, input, old(self)@.input_buffer_size),
                serialized_inputs: Some(
                    inputs_bytes(push_bounded(old(self)@.inputs, input, old(self)@.input_buffer_size)),
                ),
                ..old(self)@
            }),
    {
        self.input(input);
        let mut serialized: Vec<u8> = Vec::new();
        let n = self.input_buffer.len();
        let mut i: usize = 0;
        while i < n
            invariant
                n == self.input_buffer@.len(),
                i <= n,
                serialized@ == inputs_bytes(self.input_buffer@.subrange(0, i as int)),
            decreases n - i,
        {
            let inp = self.input_buffer[i];
            serialized.push(inp.tick);
            serialized.push(inp.fields);
            proof {
                let post = self.input_buffer@.subrange(0, i + 1);
                assert(post.drop_last() =~= self.input_buffer@.subrange(0, i as int));
                assert(post.last() == inp);
            }
            i = i + 1;
            assert(serialized@ =~= inputs_bytes(self.input_buffer@.subrange(0, i as int)));
        }
        assert(self.input_buffer@.subrange(0, n as int) =~= self.input_buffer@);
        self.serialized_inputs = Some(serialized);
    }

    /// Hands out the encoded pending inputs once.
    pub fn serialized_inputs(&mut self) -> (r: Option<Vec<u8>>)
        ensures
            final(self)@ == (EntityView { serialized_inputs: None, ..old(self)@ }),
            match r {
                Some(v) => old(self)@.serialized_inputs == Some(v@),
                None => old(self)@.serialized_inputs is None,
            },
    {
        self.serialized_inputs.take()
    }

    /// Takes an input received from the remote side unless it is older than
    /// (or as old as) the last one taken.
    pub fn remote_input(&mut self, input: EntityInput)
        ensures
            final(self)@ == remote_input_view(old(self)@, input),
    {
        if self.initial_input || tick_is_more_recent(input.tick, self.confirmed_input_tick) {
            self.initial_input = false;
            self.confirmed_input_tick = input.tick;
            self.input(input);
        }
    }

    /// Takes the inputs received from the remote side, in order, as
    /// `remote_input` takes each.
    pub fn remote_inputs(&mut self, inputs: &Vec<EntityInput>)
        ensures
            final(self)@ == remote_inputs_view(old(self)@, inputs@),
    {
        let n = inputs.len();
        let mut k: usize = 0;
        assert(inputs@.take(0) =~= Seq::<EntityInput>::empty());
        while k < n
            invariant
                n == inputs@.len(),
                k <= n,
                self@ == remote_inputs_view(old(self)@, inputs@.take(k as int)),
            decreases n - k,
        {
            assert(inputs@.take(k + 1).drop_last() =~= inputs@.take(k as int));
            self.remote_input(inputs[k]);
            k = k + 1;
        }
        assert(inputs@.take(n as int) =~= inputs@);
    }

    fn input(&mut self, input: EntityInput)
        ensures
            final(self)@ == (EntityView {
                inputs: push_bounded(old(self)@.inputs, input, old(self)@.input_buffer_size),
                ..old(self)@
            }),
    {
        self.input_buffer.push_back(input);
        if self.input_buffer.len() > self.input_buffer_size {
            self.input_buffer.pop_front();
        }
        assert(self.input_buffer@ =~= push_bounded(old(self)@.inputs, input, old(self)@.input_buffer_size));
    }

    /// The inputs still to be applied on top of the base state, oldest first.
    pub fn pending_inputs(&self) -> (r: &VecDeque<EntityInput>)
        ensures
            r@ == self@.inputs,
    {
        &self.input_buffer
    }

    // Ticking ------------------------------------------------------------------

    /// First half of a tick. A confirmed remote state, when there is one,
    /// becomes the new base (the current state turning into the previous
    /// one) and the inputs it confirms are dropped; otherwise the current
    /// state turns into the previous one and the base state is restored.
    /// Returns the new flags when they changed. The caller then applies
    /// `pending_inputs` on top of `base_state` and hands the result to
    /// `tick_end`.
    pub fn tick_begin(&mut self) -> (flags: Option<u8>)
        ensures
            final(self)@ == tick_begin_view(old(self)@),
            flags == match old(self)@.confirmed_state {
                Some((t, s)) => flags_change(old(self)@.state, s),
                None => None,
            },
    {
        match self.confirmed_state.take() {
            Some((confirmed_tick, confirmed_state)) => {
                let flags = self.set_entity_state(confirmed_state, false);
                let ghost before = self.input_buffer@;
                let mut kept: VecDeque<EntityInput> = VecDeque::new();
                let n = self.input_buffer.len();
                let mut i: usize = 0;
                while i < n
                    invariant
                        n == before.len(),
                        self.input_buffer@ == before,
                        i <= n,
                        kept@ == inputs_after(before.subrange(0, i as int), confirmed_tick),
                    decreases n - i,
                {
                    let inp = self.input_buffer[i];
                    proof {
                        let pre = before.subrange(0, i as int);
                        let post = before.subrange(0, i + 1);
                        assert(post.drop_last() =~= pre);
                        reveal_with_fuel(Seq::filter, 1);
                    }
                    if tick_is_more_recent(inp.tick, confirmed_tick) {
                        kept.push_back(inp);
                    }
                    i = i + 1;
                }
                assert(before.subrange(0, n as int) =~= before);
                proof {
                    before.lemma_filter_len(|x: EntityInput| more_recent(x.tick, confirmed_tick));
                }
                self.input_buffer = kept;
                flags
            },
            None => {
                self.last_state.set_to(&self.state);
                self.state.set_to(&self.base_state);
                None
            },
        }
    }

    /// Second half of a tick: `new_state` (the base state with the pending
    /// inputs applied) becomes the current state and is recorded for `tick`;
    /// on the server it also becomes the base and the inputs are consumed.
    pub fn tick_end(&mut self, tick: u8, new_state: S, server: bool)
        ensures
            final(self)@ == tick_end_view(old(self)@, tick, new_state, server),
    {
        self.state.set_to(&new_state);
        if server {
            self.base_state.set_to(&self.state);
            self.input_buffer.clear();
        }
        self.state_buffer.push_front((tick, new_state));
        if self.state_buffer.len() > self.state_buffer_size {
            self.state_buffer.pop_back();
        }
        assert(self.state_buffer@ =~= push_front_bounded(old(self)@.state_buffer, (tick, new_state), old(self)@.state_buffer_size));
        assert(self.input_buffer@ =~= (if server { Seq::empty() } else { old(self)@.inputs }));
    }

    /// A copy of the current state as sent to `owner`: with the local-control
    /// flag set when `owner` owns the entity.
    pub fn state_for(&self, owner: u32) -> (s: S)
        ensures
            self@.owner == Some(owner) ==> s == self@.state.with_flags(self@.state.flags_of() | 1),
            self@.owner == Some(owner) ==> s.flags_of() == (self@.state.flags_of() | 1),
            self@.owner != Some(owner) ==> s == self@.state,
    {
        let mut state = self.state.clone();
        if self.owned_by(owner) {
            let flags = state.flags();
            state.set_flags(flags | 1);
        }
        state
    }

    /// Number of bytes in the snapshot header of an entity.
    pub fn header_size() -> (n: usize)
        ensures
            n == crate::snapshot::header_len(),
    {
        crate::snapshot::header_size()
    }

    /// The snapshot header of this entity: id, type, last confirmed input
    /// tick and whether it is visible to the receiver.
    pub fn serialize_header(&self, visible: bool) -> (data: Vec<u8>)
        ensures
            data@ == header_bytes(self@.id, self@.type_id, self@.confirmed_input_tick, visible),
    {
        serialize_header(self.local_id, self.type_id, self.confirmed_input_tick, visible)
    }

    /// The snapshot entry of this entity for one receiver: its header, and
    /// the encoding of `state`, the state the receiver gets, when the entity
    /// is visible to it (`None` when it is not).
    pub fn serialize_state(&self, state: &Option<S>) -> (data: Vec<u8>)
        ensures
            data@ == entry_bytes(
                self@.id,
                self@.type_id,
                self@.confirmed_input_tick,
                state is Some,
                match state {
                    Some(s) => s.encoded_of()@,
                    None => Seq::empty(),
                },
            ),
    {
        match state {
            Some(s) => {
                let bytes = s.serialize();
                serialize_entry(self.local_id, self.type_id, self.confirmed_input_tick, &Some(bytes))
            },
            None => serialize_entry(self.local_id, self.type_id, self.confirmed_input_tick, &None),
        }
    }
}

/// Once a remote input is taken, a later one that is not more recent than
/// it is ignored: inputs are taken in tick order.
pub proof fn lemma_remote_inputs_in_order<S>(e: EntityView<S>, a: EntityInput, b: EntityInput)
    requires
        accepts_remote_input(e, a.tick),
        !more_recent(b.tick, a.tick),
    ensures
        remote_input_view(remote_input_view(e, a), b) == remote_input_view(e, a),
{
}

/// Remote inputs with increasing ticks, the first of which the entity
/// takes, are all taken, in order; the last one's tick becomes the
/// confirmed input tick.
proof fn lemma_remote_inputs_all_taken<S>(e: EntityView<S>, inputs: Seq<EntityInput>)
    requires
        inputs.len() > 0,
        accepts_remote_input(e, inputs[0].tick),
        ticks_increasing(inputs),
    ensures
        remote_inputs_view(e, inputs) == (EntityView {
            initial_input: false,
            confirmed_input_tick: inputs.last().tick,
            inputs: push_all_bounded(e.inputs, inputs, e.input_buffer_size),
            ..e
        }),
    decreases inputs.len(),
{
    let front = inputs.drop_last();
    if front.len() > 0 {
        assert(front[0] == inputs[0]);
        assert forall|k: int| 0 < k < front.len() implies more_recent(#[trigger] front[k].tick, front[k - 1].tick) by {
            assert(front[k] == inputs[k]);
            assert(front[k - 1] == inputs[k - 1]);
            assert(more_recent(inputs[k].tick, inputs[k - 1].tick));
        }
        lemma_remote_inputs_all_taken(e, front);
        let k = inputs.len() - 1;
        assert(more_recent(inputs[k].tick, inputs[k - 1].tick));
        assert(front.last() == inputs[k - 1]);
        assert(inputs.last() == inputs[k]);
        let mid = remote_inputs_view(e, front);
        assert(accepts_remote_input(mid, inputs.last().tick));
        assert(remote_inputs_view(e, inputs) == remote_input_view(mid, inputs.last()));
        assert(push_all_bounded(e.inputs, inputs, e.input_buffer_size) == push_bounded(
            push_all_bounded(e.inputs, front, e.input_buffer_size),
            inputs.last(),
            e.input_buffer_size,
        ));
    } else {
        assert(front =~= Seq::<EntityInput>::empty());
        assert(inputs.last() == inputs[0]);
        assert(remote_inputs_view(e, front) == e);
        assert(push_all_bounded(e.inputs, front, e.input_buffer_size) == e.inputs);
        assert(remote_inputs_view(e, inputs) == remote_input_view(e, inputs.last()));
        assert(push_all_bounded(e.inputs, inputs, e.input_buffer_size) == push_bounded(
            e.inputs,
            inputs.last(),
            e.input_buffer_size,
        ));
    }
}

/// What a client sends, the server takes: remote inputs with increasing
/// ticks, encoded and decoded again, are all taken by an entity that takes
/// the first of them, in order, each as `push_bounded` appends it.
pub proof fn lemma_sent_inputs_taken<S>(e: EntityView<S>, inputs: Seq<EntityInput>)
    requires
        inputs.len() > 0,
        accepts_remote_input(e, inputs[0].tick),
        ticks_increasing(inputs),
    ensures
        inputs_bytes(inputs).len() % 2 == 0,
        remote_inputs_view(e, inputs_of_bytes(inputs_bytes(inputs))) == (EntityView {
            initial_input: false,
            confirmed_input_tick: inputs.last().tick,
            inputs: push_all_bounded(e.inputs, inputs, e.input_buffer_size),
            ..e
        }),
{
    lemma_inputs_roundtrip(inputs);
    lemma_remote_inputs_all_taken(e, inputs);
}

/// A server tick right after another one, with no input and no confirmed
/// state added in between, has no pending input to apply, keeps the
/// current state, and records it as the most recent buffered state (given a
/// state buffer of at least one tick).
pub proof fn lemma_server_tick_idempotent<S>(e: EntityView<S>, t1: u8, s: S, t2: u8)
    requires
        e.state_buffer_size > 0,
    ensures
        ({
            let e1 = tick_end_view(tick_begin_view(e), t1, s, true);
            let b = tick_begin_view(e1);
            let e2 = tick_end_view(b, t2, b.base_state, true);
            &&& b.inputs.len() == 0
            &&& b.state == e1.state
            &&& b.base_state == e1.state
            &&& e2.state == e1.state
            &&& buffered_state_at(e2, 0) == e2.state
        }),
{
    let e1 = tick_end_view(tick_begin_view(e), t1, s, true);
    let b = tick_begin_view(e1);
    let e2 = tick_end_view(b, t2, b.base_state, true);
    assert(e1.confirmed_state is None);
    let buf = seq![(t2, b.base_state)] + b.state_buffer;
    assert(buf[0] == (t2, b.base_state));
    assert(e2.state_buffer[0] == buf[0]);
}

/// For every offset `k` the state buffer reaches (`k + 1` below its
/// length), the pair to interpolate between is the buffered states `k` and
/// `k + 1` ticks back, and rewinding by `k` ticks makes the state buffered
/// `k` ticks back current and base state; only offsets the buffer does not
/// reach fall back to the current and previous state.
pub proof fn lemma_buffered_states_reach_back<S>(e: EntityView<S>, k: int)
    requires
        0 <= k,
    ensures
        k + 1 < e.state_buffer.len() ==> buffered_states_at(e, k) == (e.state_buffer[k].1, e.state_buffer[k + 1].1),
        k + 1 < e.state_buffer.len() ==> rewound_view(e, k).state == e.state_buffer[k].1
            && rewound_view(e, k).base_state == e.state_buffer[k].1
            && rewound_view(e, k).last_state == e.state_buffer[k + 1].1,
        k + 1 >= e.state_buffer.len() ==> buffered_states_at(e, k) == (e.state, e.last_state),
        k < e.state_buffer.len() ==> buffered_state_at(e, k) == e.state_buffer[k].1,
        k >= e.state_buffer.len() ==> buffered_state_at(e, k) == e.state,
{
}

/// One tick later the same states sit one offset further back: after the
/// end of a tick with state `s`, the pair at offset `k + 1` is the pair
/// that was at offset `k`, as long as the buffer has not dropped it, and
/// the newest buffered state is `s`.
pub proof fn lemma_buffered_states_shift<S>(e: EntityView<S>, t: u8, s: S, server: bool, k: int)
    requires
        0 <= k,
        k + 1 < e.state_buffer.len(),
        e.state_buffer.len() < e.state_buffer_size,
    ensures
        buffered_states_at(tick_end_view(e, t, s, server), k + 1) == buffered_states_at(e, k),
        tick_end_view(e, t, s, server).state_buffer[0].1 == s,
{
    let b = seq![(t, s)] + e.state_buffer;
    assert(tick_end_view(e, t, s, server).state_buffer == b);
    assert(b[k + 1] == e.state_buffer[k]);
    assert(b[k + 2] == e.state_buffer[k + 1]);
    assert(b[0] == (t, s));
}

/// Forwarding undoes a rewind for an entity whose current, base and
/// previous states are the two most recent buffered ones, as on a server
/// right after a tick.
pub proof fn lemma_forward_undoes_rewind<S>(e: EntityView<S>, tick_offset: int)
    requires
        e.state_buffer.len() >= 2,
        e.state == e.state_buffer[0].1,
        e.base_state == e.state,
        e.last_state == e.state_buffer[1].1,
    ensures
        rewound_view(rewound_view(e, tick_offset), 0) == e,
{
}

/// The input buffer never grows beyond its size once within it.
pub proof fn lemma_push_bounded_len<T>(buf: Seq<T>, x: T, size: nat)
    requires
        buf.len() <= size,
        size > 0,
    ensures
        push_bounded(buf, x, size).len() <= size,
        push_bounded(buf, x, size).last() == x,
{
}

/// What a client serialises of its pending inputs, the server decodes back
/// to those inputs, in order.
pub proof fn lemma_serialized_inputs_roundtrip<S>(e: EntityView<S>, input: EntityInput)
    ensures
        ({
            let inputs = push_bounded(e.inputs, input, e.input_buffer_size);
            &&& inputs_bytes(inputs).len() % 2 == 0
            &&& inputs_of_bytes(inputs_bytes(inputs)) == inputs
        }),
{
    lemma_inputs_roundtrip(push_bounded(e.inputs, input, e.input_buffer_size));
}

/// After a tick takes over a confirmed state for tick `t`, every input left
/// to apply is more recent than `t`, and none of those is lost.
pub proof fn lemma_tick_begin_keeps_newer_inputs<S>(e: EntityView<S>, t: u8, s: S)
    requires
        e.confirmed_state == Some((t, s)),
    ensures
        forall|k: int|
            0 <= k < tick_begin_view(e).inputs.len() ==> more_recent(
                #[trigger] tick_begin_view(e).inputs[k].tick,
                t,
            ),
        forall|k: int|
            0 <= k < e.inputs.len() && more_recent(#[trigger] e.inputs[k].tick, t) ==> tick_begin_view(
                e,
            ).inputs.contains(e.inputs[k]),
{
    let p = |i: EntityInput| more_recent(i.tick, t);
    let kept = tick_begin_view(e).inputs;
    assert(kept == e.inputs.filter(p));
    assert forall|k: int| 0 <= k < kept.len() implies more_recent(#[trigger] kept[k].tick, t) by {
        e.inputs.lemma_filter_pred(p, k);
    }
    assert forall|k: int| 0 <= k < e.inputs.len() && more_recent(#[trigger] e.inputs[k].tick, t) implies kept.contains(
        e.inputs[k],
    ) by {
        e.inputs.lemma_filter_contains(p, k);
    }
}

} // verus!
