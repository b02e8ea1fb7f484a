//! Player input records and their two-byte wire format.
use vstd::prelude::*;

verus! {

/// One tick worth of player input: the tick it was made in and a bit set of
/// pressed buttons.
#[derive(Debug, Clone, Copy, PartialEq, Eq, Structural)]
pub struct EntityInput {
    pub tick: u8,
    pub fields: u8,
}

/// The encoding of an input: its tick, then its button bits.
pub open spec fn input_bytes(input: EntityInput) -> Seq<u8> {
    seq![input.tick, input.fields]
}

/// The encodings of a sequence of inputs, one after the other.
pub open spec fn inputs_bytes(inputs: Seq<EntityInput>) -> Seq<u8>
    decreases inputs.len(),
{
    if inputs.len() == 0 {
        Seq::empty()
    } else {
        inputs_bytes(inputs.drop_last()) + input_bytes(inputs.last())
    }
}

/// The inputs that a byte string of whole two-byte records encodes.
pub open spec fn inputs_of_bytes(data: Seq<u8>) -> Seq<EntityInput>
    recommends
        data.len() % 2 == 0,
{
    Seq::new(
        data.len() / 2,
        |i: int| EntityInput { tick: data[2 * i], fields: data[2 * i + 1] },
    )
}

impl EntityInput {
    /// Number of bytes in an encoded input.
    pub fn encoded_size() -> (n: usize)
        ensures
            n == 2,
    {
        2
    }

    /// Decodes an input from the start of `data`.
    pub fn from_serialized(data: &[u8]) -> (input: EntityInput)
        requires
            data@.len() >= 2,
        ensures
            input == (EntityInput { tick: data@[0], fields: data@[1] }),
    {
        EntityInput { tick: data[0], fields: data[1] }
    }

    /// Encodes this input.
    pub fn serialize(&self) -> (data: Vec<u8>)
        ensures
            data@ == input_bytes(*self),
    {
        let mut data: Vec<u8> = Vec::new();
        data.push(self.tick);
        data.push(self.fields);
        assert(data@ =~= input_bytes(*self));
        data
    }
}

/// Decodes the inputs a client sent: consecutive two-byte records.
pub fn decode_inputs(data: &[u8]) -> (inputs: Vec<EntityInput>)
    requires
        data@.len() % 2 == 0,
    ensures
        inputs@ == inputs_of_bytes(data@),
{
    let mut inputs: Vec<EntityInput> = Vec::new();
    let mut i: usize = 0;
    while i < data.len()
        invariant
            data@.len() % 2 == 0,
            i % 2 == 0,
            i <= data.len(),
            inputs@.len() == i / 2,
            forall|k: int|
                0 <= k < inputs@.len() ==> #[trigger] inputs@[k] == (EntityInput {
                    tick: data@[2 * k],
                    fields: data@[2 * k + 1],
                }),
        decreases data.len() - i,
    {
        let input = EntityInput::from_serialized(&data[i..i + 2]);
        inputs.push(input);
        i = i + 2;
    }
    assert(inputs@ =~= inputs_of_bytes(data@));
    inputs
}

/// Encodes a sequence of inputs one after the other.
pub fn encode_inputs(inputs: &[EntityInput]) -> (data: Vec<u8>)
    ensures
        data@ == inputs_bytes(inputs@),
{
    let mut data: Vec<u8> = Vec::new();
    let mut i: usize = 0;
    while i < inputs.len()
        invariant
            i <= inputs.len(),
            data@ == inputs_bytes(inputs@.subrange(0, i as int)),
        decreases inputs.len() - i,
    {
        data.push(inputs[i].tick);
        data.push(inputs[i].fields);
        proof {
            let pre = inputs@.subrange(0, i as int);
            let post = inputs@.subrange(0, i + 1);
            assert(post.drop_last() =~= pre);
            assert(post.last() == inputs@[i as int]);
        }
        i = i + 1;
        assert(data@ =~= inputs_bytes(inputs@.subrange(0, i as int)));
    }
    assert(inputs@.subrange(0, inputs.len() as int) =~= inputs@);
    data
}

/// The encoding of `n` inputs takes `2 * n` bytes.
pub proof fn lemma_inputs_bytes_len(inputs: Seq<EntityInput>)
    ensures
        inputs_bytes(inputs).len() == 2 * inputs.len(),
    decreases inputs.len(),
{
    if inputs.len() > 0 {
        lemma_inputs_bytes_len(inputs.drop_last());
    }
}

/// Byte `2k` and `2k + 1` of an encoding are the tick and buttons of input `k`.
proof fn lemma_inputs_bytes_index(inputs: Seq<EntityInput>, k: int)
    requires
        0 <= k < inputs.len(),
    ensures
        inputs_bytes(inputs).len() == 2 * inputs.len(),
        inputs_bytes(inputs)[2 * k] == inputs[k].tick,
        inputs_bytes(inputs)[2 * k + 1] == inputs[k].fields,
    decreases inputs.len(),
{
    lemma_inputs_bytes_len(inputs);
    let front = inputs.drop_last();
    lemma_inputs_bytes_len(front);
    if k < inputs.len() - 1 {
        lemma_inputs_bytes_index(front, k);
        assert(front[k] == inputs[k]);
    }
}

/// What a client encodes, the server decodes: the inputs come back in order.
pub proof fn lemma_inputs_roundtrip(inputs: Seq<EntityInput>)
    ensures
        inputs_bytes(inputs).len() % 2 == 0,
        inputs_of_bytes(inputs_bytes(inputs)) == inputs,
{
    lemma_inputs_bytes_len(inputs);
    let data = inputs_bytes(inputs);
    assert forall|k: int| 0 <= k < inputs.len() implies #[trigger] inputs_of_bytes(data)[k]
        == inputs[k] by {
        lemma_inputs_bytes_index(inputs, k);
    }
    assert(inputs_of_bytes(data) =~= inputs);
}

} // verus!
