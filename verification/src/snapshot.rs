//! The wire format of entity state snapshots that the server sends every
//! tick: per entity a five-byte header (id high byte, id low byte, type id,
//! last confirmed input tick, visibility byte), followed by the encoded
//! state for visible entities.
use vstd::prelude::*;

verus! {

/// One entity entry of a received snapshot. `state_at` is the offset of the
/// encoded state in the snapshot, for visible entries with a state.
#[derive(Debug, Clone, Copy, PartialEq, Eq, Structural)]
pub struct EntityRecord {
    pub id: u16,
    pub type_id: u8,
    pub confirmed_tick: u8,
    pub visible: bool,
    pub state_at: Option<usize>,
}

/// Number of bytes in an entity header.
pub open spec fn header_len() -> nat {
    5
}

/// The header bytes of an entity entry.
pub open spec fn header_bytes(id: u16, type_id: u8, confirmed_tick: u8, visible: bool) -> Seq<u8> {
    seq![(id / 256) as u8, (id % 256) as u8, type_id, confirmed_tick, if visible { 1u8 } else { 0u8 }]
}

/// The bytes of one entity entry: its header, then its state when visible.
pub open spec fn entry_bytes(id: u16, type_id: u8, confirmed_tick: u8, visible: bool, state: Seq<u8>) -> Seq<u8> {
    header_bytes(id, type_id, confirmed_tick, visible) + if visible { state } else { Seq::empty() }
}

/// An entity entry before encoding: id, type id, confirmed tick, visibility
/// and encoded state.
pub type EntryModel = (u16, u8, u8, bool, Seq<u8>);

/// The bytes of a sequence of entries, one after the other.
pub open spec fn entries_bytes(es: Seq<EntryModel>) -> Seq<u8>
    decreases es.len(),
{
    if es.len() == 0 {
        Seq::empty()
    } else {
        entry_bytes(es[0].0, es[0].1, es[0].2, es[0].3, es[0].4) + entries_bytes(es.drop_first())
    }
}

/// The entry whose header starts at offset `i` of `data`. A state is read
/// when the entry is visible and the snapshot as a whole is at least one
/// state long.
pub open spec fn record_at(data: Seq<u8>, state_size: nat, i: int) -> EntityRecord {
    let visible = data[i + 4] == 1;
    EntityRecord {
        id: (data[i] * 256 + data[i + 1]) as u16,
        type_id: data[i + 2],
        confirmed_tick: data[i + 3],
        visible,
        state_at: if visible && state_size <= data.len() { Some((i + 5) as usize) } else { None },
    }
}

/// Where the entry after the one at offset `i` starts.
pub open spec fn next_record_offset(data: Seq<u8>, state_size: nat, i: int) -> int {
    if record_at(data, state_size, i).state_at is Some {
        i + 5 + state_size
    } else {
        i + 5
    }
}

/// The entries of `data` from offset `i` on: entries are read while a whole
/// header remains.
pub open spec fn records_from(data: Seq<u8>, state_size: nat, i: int) -> Seq<EntityRecord>
    decreases (if i <= data.len() { data.len() - i } else { 0 }),
{
    if 0 <= i && i + 5 <= data.len() {
        seq![record_at(data, state_size, i)] + records_from(
            data,
            state_size,
            next_record_offset(data, state_size, i),
        )
    } else {
        Seq::empty()
    }
}

/// Every state offset read lies within the snapshot.
pub proof fn lemma_state_offsets_in_bounds(data: Seq<u8>, state_size: nat, i: int)
    requires
        data.len() <= usize::MAX,
    ensures
        forall|k: int|
            0 <= k < records_from(data, state_size, i).len() ==> ((#[trigger] records_from(
                data,
                state_size,
                i,
            )[k]).state_at matches Some(at) ==> at <= data.len()),
    decreases (if i <= data.len() { data.len() - i } else { 0 }),
{
    if 0 <= i && i + 5 <= data.len() {
        let nxt = next_record_offset(data, state_size, i);
        lemma_state_offsets_in_bounds(data, state_size, nxt);
        let rs = records_from(data, state_size, i);
        assert forall|k: int| 0 <= k < rs.len() implies ((#[trigger] rs[k]).state_at matches Some(at)
            ==> at <= data.len()) by {
            if k > 0 {
                assert(rs[k] == records_from(data, state_size, nxt)[k - 1]);
            }
        }
    }
}

/// Number of bytes in an entity header.
pub fn header_size() -> (n: usize)
    ensures
        n == header_len(),
{
    5
}

/// Encodes an entity header.
pub fn serialize_header(id: u16, type_id: u8, confirmed_tick: u8, visible: bool) -> (data: Vec<u8>)
    ensures
        data@ == header_bytes(id, type_id, confirmed_tick, visible),
{
    let mut data: Vec<u8> = Vec::new();
    data.push((id / 256) as u8);
    data.push((id % 256) as u8);
    data.push(type_id);
    data.push(confirmed_tick);
    data.push(if visible { 1u8 } else { 0u8 });
    assert(data@ =~= header_bytes(id, type_id, confirmed_tick, visible));
    data
}

/// Appends `bytes` to `data`.
pub fn append_bytes(data: &mut Vec<u8>, bytes: &[u8])
    ensures
        final(data)@ == old(data)@ + bytes@,
{
    let n = bytes.len();
    let mut i: usize = 0;
    while i < n
        invariant
            n == bytes@.len(),
            i <= n,
            data@ == old(data)@ + bytes@.subrange(0, i as int),
        decreases n - i,
    {
        data.push(bytes[i]);
        assert(bytes@.subrange(0, i + 1) =~= bytes@.subrange(0, i as int).push(bytes@[i as int]));
        i = i + 1;
    }
    assert(bytes@.subrange(0, n as int) =~= bytes@);
}

/// Encodes one entity entry: its header, then `state` when the entry is
/// visible, which it is exactly when a state is given.
pub fn serialize_entry(id: u16, type_id: u8, confirmed_tick: u8, state: &Option<Vec<u8>>) -> (data: Vec<u8>)
    ensures
        data@ == entry_bytes(
            id,
            type_id,
            confirmed_tick,
            state is Some,
            match state {
                Some(b) => b@,
                None => Seq::empty(),
            },
        ),
{
    let mut data = serialize_header(id, type_id, confirmed_tick, state.is_some());
    match state {
        Some(b) => {
            append_bytes(&mut data, b.as_slice());
        },
        None => {
            assert(data@ + Seq::<u8>::empty() =~= data@);
        },
    }
    data
}

/// Appending an entry appends its bytes.
pub proof fn lemma_entries_bytes_push(es: Seq<EntryModel>, e: EntryModel)
    ensures
        entries_bytes(es.push(e)) == entries_bytes(es) + entry_bytes(e.0, e.1, e.2, e.3, e.4),
    decreases es.len(),
{
    let last = entry_bytes(e.0, e.1, e.2, e.3, e.4);
    if es.len() == 0 {
        assert(es.push(e).drop_first() =~= Seq::<EntryModel>::empty());
        assert(es.push(e)[0] == e);
        assert(entries_bytes(es.push(e)) == last + entries_bytes(Seq::<EntryModel>::empty()));
        assert(entries_bytes(es.push(e)) =~= entries_bytes(es) + last);
    } else {
        assert(es.push(e).drop_first() =~= es.drop_first().push(e));
        lemma_entries_bytes_push(es.drop_first(), e);
        let first = entry_bytes(es[0].0, es[0].1, es[0].2, es[0].3, es[0].4);
        let rest = entries_bytes(es.drop_first());
        assert(entries_bytes(es.push(e)) == first + (rest + last));
        assert(entries_bytes(es) == first + rest);
        assert(first + (rest + last) =~= (first + rest) + last);
    }
}

/// Reads the entries of a snapshot whose states take `state_size` bytes.
pub fn parse_records(data: &[u8], state_size: usize) -> (records: Vec<EntityRecord>)
    ensures
        records@ == records_from(data@, state_size as nat, 0),
{
    let mut records: Vec<EntityRecord> = Vec::new();
    let len = data.len();
    let mut i: usize = 0;
    while i <= len && len - i >= 5
        invariant
            len == data@.len(),
            i <= len,
            records@ + records_from(data@, state_size as nat, i as int) == records_from(
                data@,
                state_size as nat,
                0,
            ),
        decreases len - i,
    {
        let ghost rec = record_at(data@, state_size as nat, i as int);
        let id = (data[i] as u16) * 256 + (data[i + 1] as u16);
        let type_id = data[i + 2];
        let confirmed_tick = data[i + 3];
        let visible = data[i + 4] == 1;
        let mut next = i + 5;
        let state_at = if visible && state_size <= len {
            let at = next;
            next = if len - next < state_size { len } else { next + state_size };
            Some(at)
        } else {
            None
        };
        let record = EntityRecord { id, type_id, confirmed_tick, visible, state_at };
        assert(record == rec);
        proof {
            let nxt = next_record_offset(data@, state_size as nat, i as int);
            if nxt != next as int {
                assert(records_from(data@, state_size as nat, nxt) =~= Seq::empty());
                assert(records_from(data@, state_size as nat, next as int) =~= Seq::empty());
            }
            assert(records_from(data@, state_size as nat, i as int) =~= seq![rec]
                + records_from(data@, state_size as nat, next as int));
            assert(records@.push(record) + records_from(data@, state_size as nat, next as int)
                =~= records@ + records_from(data@, state_size as nat, i as int));
        }
        records.push(record);
        i = next;
    }
    assert(records_from(data@, state_size as nat, i as int) =~= Seq::empty());
    assert(records@ + Seq::<EntityRecord>::empty() =~= records@);
    records
}

/// The entry at offset `|prefix|` of `prefix + entries_bytes(es)` is entry
/// 0 of `es`, when a visible entry's state is `state_size` bytes long.
proof fn lemma_first_entry(prefix: Seq<u8>, es: Seq<EntryModel>, state_size: nat)
    requires
        es.len() > 0,
        (prefix + entries_bytes(es)).len() <= usize::MAX,
        es[0].3 ==> es[0].4.len() == state_size,
    ensures
        ({
            let data = prefix + entries_bytes(es);
            let i = prefix.len() as int;
            let e = es[0];
            let first = entry_bytes(e.0, e.1, e.2, e.3, e.4);
            &&& data == (prefix + first) + entries_bytes(es.drop_first())
            &&& i + 5 <= data.len()
            &&& record_at(data, state_size, i).id == e.0
            &&& record_at(data, state_size, i).type_id == e.1
            &&& record_at(data, state_size, i).confirmed_tick == e.2
            &&& record_at(data, state_size, i).visible == e.3
            &&& record_at(data, state_size, i).state_at == if e.3 { Some((i + 5) as usize) } else { None::<usize> }
            &&& next_record_offset(data, state_size, i) == (prefix + first).len()
            &&& e.3 ==> i + 5 + state_size <= data.len()
            &&& e.3 ==> data.subrange(i + 5, i + 5 + state_size) == e.4
        }),
{
    let data = prefix + entries_bytes(es);
    let e = es[0];
    let first = entry_bytes(e.0, e.1, e.2, e.3, e.4);
    let i = prefix.len() as int;
    assert(entries_bytes(es) == first + entries_bytes(es.drop_first()));
    assert(data =~= (prefix + first) + entries_bytes(es.drop_first()));
    assert(data[i] == (e.0 / 256) as u8);
    assert(data[i + 1] == (e.0 % 256) as u8);
    assert(((e.0 / 256) as u8) * 256 + ((e.0 % 256) as u8) == e.0);
    if e.3 {
        assert(data.subrange(i + 5, i + 5 + state_size) =~= e.4);
    }
}

/// Reading entries from offset `|prefix|` of `prefix + entries_bytes(es)`
/// gives back `es` in order, each visible entry with its state at the
/// offset it was written to.
#[verifier::spinoff_prover]
#[verifier::rlimit(30)]
proof fn lemma_entries_roundtrip_from(prefix: Seq<u8>, es: Seq<EntryModel>, state_size: nat)
    requires
        (prefix + entries_bytes(es)).len() <= usize::MAX,
        forall|k: int| 0 <= k < es.len() && #[trigger] es[k].3 ==> es[k].4.len() == state_size,
    ensures
        ({
            let data = prefix + entries_bytes(es);
            let rs = records_from(data, state_size, prefix.len() as int);
            &&& rs.len() == es.len()
            &&& forall|k: int| 0 <= k < es.len() ==> {
                &&& #[trigger] rs[k].id == es[k].0
                &&& rs[k].type_id == es[k].1
                &&& rs[k].confirmed_tick == es[k].2
                &&& rs[k].visible == es[k].3
                &&& (rs[k].state_at is Some <==> es[k].3)
                &&& rs[k].state_at matches Some(at) ==> at + state_size <= data.len()
                &&& rs[k].state_at matches Some(at) ==> data.subrange(at as int, at + state_size) == es[k].4
            }
        }),
    decreases es.len(),
{
    let data = prefix + entries_bytes(es);
    let i = prefix.len() as int;
    if es.len() == 0 {
        assert(data =~= prefix);
        assert(records_from(data, state_size, i) =~= Seq::empty());
    } else {
        let e = es[0];
        let first = entry_bytes(e.0, e.1, e.2, e.3, e.4);
        let rest = es.drop_first();
        lemma_first_entry(prefix, es, state_size);
        assert forall|k: int| 0 <= k < rest.len() && #[trigger] rest[k].3 implies rest[k].4.len() == state_size by {
            assert(rest[k] == es[k + 1]);
        }
        assert((prefix + first) + entries_bytes(rest) == data);
        lemma_entries_roundtrip_from(prefix + first, rest, state_size);
        let tail = records_from(data, state_size, (prefix + first).len() as int);
        assert(records_from(data, state_size, i) == seq![record_at(data, state_size, i)] + tail);
        let rs = records_from(data, state_size, i);
        assert(tail.len() == rest.len());
        assert(rs.len() == es.len());
        assert forall|k: int| 0 <= k < es.len() implies {
            &&& #[trigger] rs[k].id == es[k].0
            &&& rs[k].type_id == es[k].1
            &&& rs[k].confirmed_tick == es[k].2
            &&& rs[k].visible == es[k].3
            &&& (rs[k].state_at is Some <==> es[k].3)
            &&& rs[k].state_at matches Some(at) ==> at + state_size <= data.len()
            &&& rs[k].state_at matches Some(at) ==> data.subrange(at as int, at + state_size) == es[k].4
        } by {
            if k > 0 {
                assert(rs[k] == tail[k - 1]);
                assert(es[k] == rest[k - 1]);
                assert(tail[k - 1].id == rest[k - 1].0);
            } else {
                assert(rs[k] == record_at(data, state_size, i));
                assert(es[k] == e);
                if e.3 {
                    assert(rs[k].state_at == Some((i + 5) as usize));
                    assert(i + 5 + state_size <= data.len());
                }
            }
        }
    }
}

/// What the server writes, the client reads: decoding the bytes of a
/// sequence of entity entries gives back every entry's id, type, confirmed
/// tick and visibility in order, and for visible entries the offset of
/// their state, provided each visible entry carries a state of
/// `state_size` bytes (and the snapshot fits in memory).
pub proof fn lemma_snapshot_roundtrip(es: Seq<EntryModel>, state_size: nat)
    requires
        entries_bytes(es).len() <= usize::MAX,
        forall|k: int| 0 <= k < es.len() && #[trigger] es[k].3 ==> es[k].4.len() == state_size,
    ensures
        ({
            let data = entries_bytes(es);
            let rs = records_from(data, state_size, 0);
            &&& rs.len() == es.len()
            &&& forall|k: int| 0 <= k < es.len() ==> {
                &&& #[trigger] rs[k].id == es[k].0
                &&& rs[k].type_id == es[k].1
                &&& rs[k].confirmed_tick == es[k].2
                &&& rs[k].visible == es[k].3
                &&& (rs[k].state_at is Some <==> es[k].3)
                &&& rs[k].state_at matches Some(at) ==> at + state_size <= data.len()
                &&& rs[k].state_at matches Some(at) ==> data.subrange(at as int, at + state_size) == es[k].4
            }
        }),
{
    assert(Seq::<u8>::empty() + entries_bytes(es) =~= entries_bytes(es));
    lemma_entries_roundtrip_from(Seq::empty(), es, state_size);
}

} // verus!
