//! The snapshot wire format.
//!
//! ```text
//! u32 tick label (last completed tick)
//! u32 send sequence (the ack echoes it)
//! u32 input sequence echo (last input this peer's sim consumed)
//! u8  owner count, then count x [peer u8][id u32]
//! u32 removal count, then count x [id u32]
//! u16 section count, then per section:
//!   u16 pool key (name hash, order-independent)
//!   u32 entry count, then count x [id u32][value bytes]
//! ```

use vstd::prelude::*;

use crate::id::Id;
use crate::wire::{le16, le16_round_trip, le32, le32_round_trip, un16, un32, NetError};

verus! {

/// One pool's rows in a snapshot: id and value bytes each.
#[verifier::ext_equal]
pub struct Section {
    pub key: u16,
    pub rows: Seq<(u32, Seq<u8>)>,
}

/// What a snapshot says.
#[verifier::ext_equal]
pub struct Message {
    pub tick: u32,
    pub seq: u32,
    pub input_seq: u32,
    pub owners: Seq<(u8, u32)>,
    pub removals: Seq<Id>,
    pub sections: Seq<Section>,
}

/// The header a reader gets out of a whole snapshot.
#[verifier::ext_equal]
pub struct Header {
    pub tick: u32,
    pub seq: u32,
    pub input_seq: u32,
    pub owners: Seq<(u8, Id)>,
}

/// What a snapshot asks of the receiving world.
#[verifier::ext_equal]
pub enum Op {
    /// Remove this entity, if it is alive.
    Remove(Id),
    /// Write this value into the pool at this position.
    Upsert(int, Id, Seq<u8>),
}

/// Byte strings end to end.
pub open spec fn cat(parts: Seq<Seq<u8>>) -> Seq<u8>
    decreases parts.len(),
{
    if parts.len() == 0 {
        Seq::empty()
    } else {
        parts[0] + cat(parts.drop_first())
    }
}

/// `[peer u8][id u32]`.
pub open spec fn owner_part(o: (u8, u32)) -> Seq<u8> {
    seq![o.0] + le32(o.1)
}

/// `[id u32]`.
pub open spec fn removal_part(id: Id) -> Seq<u8> {
    le32(id.0)
}

/// `[id u32][value bytes]`.
pub open spec fn row_part(r: (u32, Seq<u8>)) -> Seq<u8> {
    le32(r.0) + r.1
}

/// Key, count, rows.
pub open spec fn section_part(s: Section) -> Seq<u8> {
    le16(s.key) + le32(s.rows.len() as u32) + cat(s.rows.map_values(|r: (u32, Seq<u8>)| row_part(r)))
}

/// The owner table's bytes.
pub open spec fn owners_bytes(owners: Seq<(u8, u32)>) -> Seq<u8> {
    cat(owners.map_values(|o: (u8, u32)| owner_part(o)))
}

/// The removal list's bytes.
pub open spec fn removals_bytes(removals: Seq<Id>) -> Seq<u8> {
    cat(removals.map_values(|id: Id| removal_part(id)))
}

/// The sections' bytes.
pub open spec fn sections_bytes(sections: Seq<Section>) -> Seq<u8> {
    cat(sections.map_values(|s: Section| section_part(s)))
}

/// A header with these fields, announcing this many sections.
#[verifier::opaque]
pub open spec fn head_of(
    tick: u32,
    seq: u32,
    input_seq: u32,
    owners: Seq<(u8, u32)>,
    removals: Seq<Id>,
    sections: nat,
) -> Seq<u8> {
    le32(tick) + le32(seq) + le32(input_seq) + seq![owners.len() as u8] + owners_bytes(owners)
        + le32(removals.len() as u32) + removals_bytes(removals) + le16(sections as u16)
}

/// Everything before the sections.
pub open spec fn head_bytes(m: Message) -> Seq<u8> {
    head_of(m.tick, m.seq, m.input_seq, m.owners, m.removals, m.sections.len())
}

/// A header's length does not depend on the sections behind it.
pub proof fn head_len(m: Message, sections: Seq<Section>)
    ensures
        head_bytes(m).len() == head_bytes(Message { sections, ..m }).len(),
{
    reveal(head_of);
}

/// The bytes of a snapshot.
pub open spec fn encode(m: Message) -> Seq<u8> {
    head_bytes(m) + sections_bytes(m.sections)
}

/// Up to `n` consecutive pieces of `e` bytes, as many as are there.
pub open spec fn chunks(data: Seq<u8>, e: nat, n: nat) -> Seq<Seq<u8>>
    decreases n,
{
    if n == 0 || data.len() < e {
        Seq::empty()
    } else {
        seq![data.take(e as int)] + chunks(data.skip(e as int), e, (n - 1) as nat)
    }
}

/// What is left behind those pieces.
pub open spec fn after_chunks(data: Seq<u8>, e: nat, n: nat) -> Seq<u8>
    decreases n,
{
    if n == 0 || data.len() < e {
        data
    } else {
        after_chunks(data.skip(e as int), e, (n - 1) as nat)
    }
}

/// An owner-table piece as a pair.
pub open spec fn owner_of_part(c: Seq<u8>) -> (u8, Id) {
    (c[0], Id(un32(c.skip(1))))
}

/// A removal piece as the request it makes.
pub open spec fn removal_op(c: Seq<u8>) -> Op {
    Op::Remove(Id(un32(c)))
}

/// A row piece as the request it makes of the pool at `at`.
pub open spec fn row_op(at: int, c: Seq<u8>) -> Op {
    Op::Upsert(at, Id(un32(c.take(4))), c.skip(4))
}

/// Row pieces as requests.
pub open spec fn row_ops(at: int, rows: Seq<Seq<u8>>) -> Seq<Op> {
    rows.map_values(|c: Seq<u8>| row_op(at, c))
}

/// Read `n` sections. `find` gives the position and value size of the pool
/// behind a key. The requests are those made before the first error.
pub open spec fn parse_sections(
    data: Seq<u8>,
    n: nat,
    find: spec_fn(u16) -> Option<(int, nat)>,
) -> (Seq<Op>, Option<NetError>)
    decreases n,
{
    if n == 0 {
        (Seq::empty(), None)
    } else if data.len() < 6 {
        (Seq::empty(), Some(NetError::Truncated))
    } else {
        let key = un16(data.take(2));
        let count = un32(data.subrange(2, 6)) as nat;
        match find(key) {
            None => (Seq::empty(), Some(NetError::UnknownPool(key))),
            Some((at, size)) => {
                let rows = chunks(data.skip(6), (4 + size) as nat, count);
                let ops = row_ops(at, rows);
                if rows.len() < count {
                    (ops, Some(NetError::Truncated))
                } else {
                    let rest = parse_sections(
                        after_chunks(data.skip(6), (4 + size) as nat, count),
                        (n - 1) as nat,
                        find,
                    );
                    (ops + rest.0, rest.1)
                }
            },
        }
    }
}

/// Read the removals and the sections.
pub open spec fn parse_body(
    data: Seq<u8>,
    find: spec_fn(u16) -> Option<(int, nat)>,
) -> (Seq<Op>, Option<NetError>) {
    if data.len() < 4 {
        (Seq::empty(), Some(NetError::Truncated))
    } else {
        let count = un32(data.take(4)) as nat;
        let ids = chunks(data.skip(4), 4, count);
        let rest = after_chunks(data.skip(4), 4, count);
        let ops = ids.map_values(|c: Seq<u8>| removal_op(c));
        if ids.len() < count || rest.len() < 2 {
            (ops, Some(NetError::Truncated))
        } else {
            let tail = parse_sections(rest.skip(2), un16(rest.take(2)) as nat, find);
            (ops + tail.0, tail.1)
        }
    }
}

/// Read a snapshot: what it asks of the world before the first error, and
/// its header — or the error.
pub open spec fn parse(data: Seq<u8>, find: spec_fn(u16) -> Option<(int, nat)>) -> (
    Seq<Op>,
    Result<Header, NetError>,
) {
    if data.len() < 13 {
        (Seq::empty(), Err(NetError::Truncated))
    } else {
        let n = data[12] as nat;
        let owners = chunks(data.skip(13), 5, n);
        if owners.len() < n {
            (Seq::empty(), Err(NetError::Truncated))
        } else {
            let body = parse_body(after_chunks(data.skip(13), 5, n), find);
            (
                body.0,
                match body.1 {
                    Some(e) => Err(e),
                    None => Ok(
                        Header {
                            tick: un32(data.take(4)),
                            seq: un32(data.subrange(4, 8)),
                            input_seq: un32(data.subrange(8, 12)),
                            owners: owners.map_values(|c: Seq<u8>| owner_of_part(c)),
                        },
                    ),
                },
            )
        }
    }
}

/// A snapshot both ends agree on: the counts fit their fields, every section
/// names a known pool and every value has that pool's size.
pub open spec fn well_sized(m: Message, find: spec_fn(u16) -> Option<(int, nat)>) -> bool {
    &&& m.owners.len() <= u8::MAX
    &&& m.removals.len() <= u32::MAX
    &&& m.sections.len() <= u16::MAX
    &&& forall|i: int| 0 <= i < m.sections.len() ==> section_fits(#[trigger] m.sections[i], find)
}

/// A section of a known pool whose values have that pool's size.
pub open spec fn section_fits(s: Section, find: spec_fn(u16) -> Option<(int, nat)>) -> bool {
    &&& s.rows.len() <= u32::MAX
    &&& find(s.key) is Some
    &&& forall|j: int|
        0 <= j < s.rows.len() ==> (#[trigger] s.rows[j]).1.len() == (find(s.key)->0).1
}

/// What a section asks for.
pub open spec fn section_ops(s: Section, at: int) -> Seq<Op> {
    s.rows.map_values(|r: (u32, Seq<u8>)| Op::Upsert(at, Id(r.0), r.1))
}

/// What the sections ask for, in order.
pub open spec fn sections_ops(
    sections: Seq<Section>,
    find: spec_fn(u16) -> Option<(int, nat)>,
) -> Seq<Op>
    decreases sections.len(),
{
    if sections.len() == 0 {
        Seq::empty()
    } else {
        section_ops(sections[0], (find(sections[0].key)->0).0) + sections_ops(
            sections.drop_first(),
            find,
        )
    }
}

/// What a snapshot asks for, in order.
pub open spec fn message_ops(m: Message, find: spec_fn(u16) -> Option<(int, nat)>) -> Seq<Op> {
    m.removals.map_values(|id: Id| Op::Remove(id)) + sections_ops(m.sections, find)
}

/// Appending a piece appends its bytes.
pub proof fn cat_push(parts: Seq<Seq<u8>>, x: Seq<u8>)
    ensures
        cat(parts.push(x)) == cat(parts) + x,
    decreases parts.len(),
{
    if parts.len() == 0 {
        assert(parts.push(x).drop_first() =~= parts);
        assert(cat(parts) =~= Seq::<u8>::empty());
        assert(cat(parts.push(x)) =~= x);
    } else {
        assert(parts.push(x).drop_first() =~= parts.drop_first().push(x));
        cat_push(parts.drop_first(), x);
        assert(cat(parts.push(x)) =~= cat(parts) + x);
    }
}

/// Pieces of one size are read back one by one.
proof fn chunks_of_cat(parts: Seq<Seq<u8>>, e: nat, rest: Seq<u8>)
    requires
        forall|i: int| 0 <= i < parts.len() ==> (#[trigger] parts[i]).len() == e,
    ensures
        chunks(cat(parts) + rest, e, parts.len()) == parts,
        after_chunks(cat(parts) + rest, e, parts.len()) == rest,
    decreases parts.len(),
{
    if parts.len() == 0 {
        assert(cat(parts) + rest =~= rest);
    } else {
        let tail = parts.drop_first();
        let data = cat(parts) + rest;
        assert(data =~= parts[0] + (cat(tail) + rest));
        assert(data.take(e as int) =~= parts[0]);
        assert(data.skip(e as int) =~= cat(tail) + rest);
        assert forall|i: int| 0 <= i < tail.len() implies (#[trigger] tail[i]).len() == e by {
            assert(tail[i] == parts[i + 1]);
        }
        chunks_of_cat(tail, e, rest);
        assert(chunks(data, e, parts.len()) =~= parts);
    }
}

/// Pieces of one size cut off inside: not all of them are there.
proof fn chunks_of_cut_cat(parts: Seq<Seq<u8>>, e: nat, k: int)
    requires
        forall|i: int| 0 <= i < parts.len() ==> (#[trigger] parts[i]).len() == e,
        0 <= k < cat(parts).len(),
    ensures
        chunks(cat(parts).take(k), e, parts.len()).len() < parts.len(),
    decreases parts.len(),
{
    if parts.len() > 0 {
        let tail = parts.drop_first();
        let data = cat(parts).take(k);
        if k >= e {
            assert(data.skip(e as int) =~= cat(tail).take(k - e));
            assert forall|i: int| 0 <= i < tail.len() implies (#[trigger] tail[i]).len() == e by {
                assert(tail[i] == parts[i + 1]);
            }
            chunks_of_cut_cat(tail, e, k - e);
        }
    }
}

/// A section's parts, for the reader.
proof fn section_reads(s: Section, find: spec_fn(u16) -> Option<(int, nat)>, rest: Seq<u8>)
    requires
        section_fits(s, find),
    ensures
        ({
            let data = section_part(s) + rest;
            let e = (4 + (find(s.key)->0).1) as nat;
            let parts = s.rows.map_values(|r: (u32, Seq<u8>)| row_part(r));
            &&& data.len() >= 6
            &&& un16(data.take(2)) == s.key
            &&& un32(data.subrange(2, 6)) == s.rows.len()
            &&& data.skip(6) == cat(parts) + rest
            &&& forall|i: int| 0 <= i < parts.len() ==> (#[trigger] parts[i]).len() == e
            &&& row_ops((find(s.key)->0).0, parts) == section_ops(s, (find(s.key)->0).0)
        }),
{
    let data = section_part(s) + rest;
    let parts = s.rows.map_values(|r: (u32, Seq<u8>)| row_part(r));
    let at = (find(s.key)->0).0;
    le16_round_trip(s.key);
    le32_round_trip(s.rows.len() as u32);
    assert(data.take(2) =~= le16(s.key));
    assert(data.subrange(2, 6) =~= le32(s.rows.len() as u32));
    assert(data.skip(6) =~= cat(parts) + rest);
    assert forall|j: int| 0 <= j < s.rows.len() implies row_ops(at, parts)[j] == #[trigger] section_ops(
        s,
        at,
    )[j] by {
        let r = s.rows[j];
        le32_round_trip(r.0);
        assert(row_part(r).take(4) =~= le32(r.0));
        assert(row_part(r).skip(4) =~= r.1);
        assert(parts[j] == row_part(r));
    }
    assert(row_ops(at, parts) =~= section_ops(s, at));
}

/// Whole sections are read back whole.
proof fn sections_round_trip(sections: Seq<Section>, find: spec_fn(u16) -> Option<(int, nat)>)
    requires
        forall|i: int| 0 <= i < sections.len() ==> section_fits(#[trigger] sections[i], find),
    ensures
        parse_sections(sections_bytes(sections), sections.len(), find) == (
            sections_ops(sections, find),
            None::<NetError>,
        ),
    decreases sections.len(),
{
    if sections.len() > 0 {
        let tail = sections.drop_first();
        let s = sections[0];
        let rest = sections_bytes(tail);
        let f = |s: Section| section_part(s);
        assert(sections.map_values(f).drop_first() =~= tail.map_values(f));
        assert(sections_bytes(sections) =~= section_part(s) + rest);
        section_reads(s, find, rest);
        let parts = s.rows.map_values(|r: (u32, Seq<u8>)| row_part(r));
        chunks_of_cat(parts, (4 + (find(s.key)->0).1) as nat, rest);
        assert forall|i: int| 0 <= i < tail.len() implies section_fits(
            #[trigger] tail[i],
            find,
        ) by {
            assert(tail[i] == sections[i + 1]);
        }
        sections_round_trip(tail, find);
    }
}

/// Sections cut off anywhere inside are an error.
proof fn cut_sections_are_truncated(
    sections: Seq<Section>,
    find: spec_fn(u16) -> Option<(int, nat)>,
    k: int,
)
    requires
        forall|i: int| 0 <= i < sections.len() ==> section_fits(#[trigger] sections[i], find),
        0 <= k < sections_bytes(sections).len(),
    ensures
        parse_sections(sections_bytes(sections).take(k), sections.len(), find).1 == Some(
            NetError::Truncated,
        ),
    decreases sections.len(),
{
    if sections.len() > 0 {
        let tail = sections.drop_first();
        let s = sections[0];
        let rest = sections_bytes(tail);
        let f = |s: Section| section_part(s);
        assert(sections.map_values(f).drop_first() =~= tail.map_values(f));
        let whole = sections_bytes(sections);
        assert(whole =~= section_part(s) + rest);
        section_reads(s, find, rest);
        let parts = s.rows.map_values(|r: (u32, Seq<u8>)| row_part(r));
        let e = (4 + (find(s.key)->0).1) as nat;
        let data = whole.take(k);
        if k >= 6 {
            assert(data.take(2) =~= whole.take(2));
            assert(data.subrange(2, 6) =~= whole.subrange(2, 6));
            if k < section_part(s).len() {
                assert(data.skip(6) =~= cat(parts).take(k - 6));
                chunks_of_cut_cat(parts, e, k - 6);
            } else {
                let left = rest.take(k - section_part(s).len());
                assert(data.skip(6) =~= cat(parts) + left);
                chunks_of_cat(parts, e, left);
                assert forall|i: int| 0 <= i < tail.len() implies section_fits(
                    #[trigger] tail[i],
                    find,
                ) by {
                    assert(tail[i] == sections[i + 1]);
                }
                cut_sections_are_truncated(tail, find, k - section_part(s).len());
            }
        }
    }
}

/// The part behind the owner table.
pub open spec fn body_bytes(m: Message) -> Seq<u8> {
    le32(m.removals.len() as u32) + removals_bytes(m.removals) + le16(m.sections.len() as u16)
        + sections_bytes(m.sections)
}

/// The removal pieces as requests.
proof fn removals_read(m: Message)
    requires
        m.removals.len() <= u32::MAX,
        m.sections.len() <= u16::MAX,
    ensures
        ({
            let data = body_bytes(m);
            let parts = m.removals.map_values(|id: Id| removal_part(id));
            let tail = le16(m.sections.len() as u16) + sections_bytes(m.sections);
            &&& data.len() >= 4
            &&& un32(data.take(4)) == m.removals.len()
            &&& data.skip(4) == cat(parts) + tail
            &&& forall|i: int| 0 <= i < parts.len() ==> (#[trigger] parts[i]).len() == 4
            &&& parts.map_values(|c: Seq<u8>| removal_op(c)) == m.removals.map_values(
                |id: Id| Op::Remove(id),
            )
            &&& tail.len() >= 2
            &&& un16(tail.take(2)) == m.sections.len()
            &&& tail.skip(2) == sections_bytes(m.sections)
        }),
{
    let data = body_bytes(m);
    let parts = m.removals.map_values(|id: Id| removal_part(id));
    let tail = le16(m.sections.len() as u16) + sections_bytes(m.sections);
    le32_round_trip(m.removals.len() as u32);
    le16_round_trip(m.sections.len() as u16);
    assert(data.take(4) =~= le32(m.removals.len() as u32));
    assert(data.skip(4) =~= cat(parts) + tail);
    assert(tail.take(2) =~= le16(m.sections.len() as u16));
    assert(tail.skip(2) =~= sections_bytes(m.sections));
    let a = parts.map_values(|c: Seq<u8>| removal_op(c));
    let b = m.removals.map_values(|id: Id| Op::Remove(id));
    assert forall|j: int| 0 <= j < a.len() implies a[j] == #[trigger] b[j] by {
        le32_round_trip(m.removals[j].0);
    }
    assert(a =~= b);
}

/// The header's parts, for the reader.
proof fn head_reads(m: Message)
    requires
        m.owners.len() <= u8::MAX,
    ensures
        ({
            let data = encode(m);
            let parts = m.owners.map_values(|o: (u8, u32)| owner_part(o));
            &&& data.len() >= 13
            &&& un32(data.take(4)) == m.tick
            &&& un32(data.subrange(4, 8)) == m.seq
            &&& un32(data.subrange(8, 12)) == m.input_seq
            &&& data[12] == m.owners.len()
            &&& data.skip(13) == cat(parts) + body_bytes(m)
            &&& forall|i: int| 0 <= i < parts.len() ==> (#[trigger] parts[i]).len() == 5
            &&& parts.map_values(|c: Seq<u8>| owner_of_part(c)) == m.owners.map_values(
                |o: (u8, u32)| (o.0, Id(o.1)),
            )
        }),
{
    reveal(head_of);
    let data = encode(m);
    let parts = m.owners.map_values(|o: (u8, u32)| owner_part(o));
    le32_round_trip(m.tick);
    le32_round_trip(m.seq);
    le32_round_trip(m.input_seq);
    assert(data.take(4) =~= le32(m.tick));
    assert(data.subrange(4, 8) =~= le32(m.seq));
    assert(data.subrange(8, 12) =~= le32(m.input_seq));
    assert(data.skip(13) =~= cat(parts) + body_bytes(m));
    let a = parts.map_values(|c: Seq<u8>| owner_of_part(c));
    let b = m.owners.map_values(|o: (u8, u32)| (o.0, Id(o.1)));
    assert forall|j: int| 0 <= j < a.len() implies a[j] == #[trigger] b[j] by {
        le32_round_trip(m.owners[j].1);
        assert(owner_part(m.owners[j]).skip(1) =~= le32(m.owners[j].1));
    }
    assert(a =~= b);
}

/// Reading a snapshot gives back what was written: every request in order,
/// and the header.
pub proof fn snapshot_round_trip(m: Message, find: spec_fn(u16) -> Option<(int, nat)>)
    requires
        well_sized(m, find),
    ensures
        parse(encode(m), find) == (
            message_ops(m, find),
            Ok::<Header, NetError>(
                Header {
                    tick: m.tick,
                    seq: m.seq,
                    input_seq: m.input_seq,
                    owners: m.owners.map_values(|o: (u8, u32)| (o.0, Id(o.1))),
                },
            ),
        ),
{
    head_reads(m);
    removals_read(m);
    let owner_parts = m.owners.map_values(|o: (u8, u32)| owner_part(o));
    let removal_parts = m.removals.map_values(|id: Id| removal_part(id));
    let tail = le16(m.sections.len() as u16) + sections_bytes(m.sections);
    chunks_of_cat(owner_parts, 5, body_bytes(m));
    chunks_of_cat(removal_parts, 4, tail);
    sections_round_trip(m.sections, find);
}

/// Cutting two pieces in a row cuts the first or leaves it whole.
proof fn take_across(a: Seq<u8>, b: Seq<u8>, k: int)
    requires
        0 <= k <= a.len() + b.len(),
    ensures
        k < a.len() ==> (a + b).take(k) == a.take(k),
        k >= a.len() ==> (a + b).take(k) == a + b.take(k - a.len()),
{
    if k < a.len() {
        assert((a + b).take(k) =~= a.take(k));
    } else {
        assert((a + b).take(k) =~= a + b.take(k - a.len()));
    }
}

/// Removals and sections cut off anywhere are an error.
proof fn cut_body_is_truncated(m: Message, find: spec_fn(u16) -> Option<(int, nat)>, k: int)
    requires
        well_sized(m, find),
        0 <= k < body_bytes(m).len(),
    ensures
        parse_body(body_bytes(m).take(k), find).1 == Some(NetError::Truncated),
{
    removals_read(m);
    let body = body_bytes(m);
    let left = body.take(k);
    let parts = m.removals.map_values(|id: Id| removal_part(id));
    let tail = le16(m.sections.len() as u16) + sections_bytes(m.sections);
    if k >= 4 {
        assert(left.take(4) =~= body.take(4));
        let k3 = k - 4;
        if k3 < cat(parts).len() {
            assert(left.skip(4) =~= cat(parts).take(k3));
            chunks_of_cut_cat(parts, 4, k3);
        } else {
            let k4 = k3 - cat(parts).len();
            let after = tail.take(k4);
            assert(left.skip(4) =~= cat(parts) + after);
            chunks_of_cat(parts, 4, after);
            if k4 >= 2 {
                assert(after.take(2) =~= tail.take(2));
                assert(after.skip(2) =~= sections_bytes(m.sections).take(k4 - 2));
                cut_sections_are_truncated(m.sections, find, k4 - 2);
            }
        }
    }
}

/// A snapshot cut off anywhere is an error, never a misread.
pub proof fn cut_snapshot_is_truncated(
    m: Message,
    find: spec_fn(u16) -> Option<(int, nat)>,
    k: int,
)
    requires
        well_sized(m, find),
        0 <= k < encode(m).len(),
    ensures
        parse(encode(m).take(k), find).1 == Err::<Header, NetError>(NetError::Truncated),
{
    head_reads(m);
    let data = encode(m).take(k);
    let parts = m.owners.map_values(|o: (u8, u32)| owner_part(o));
    if k >= 13 {
        let k1 = k - 13;
        let full = encode(m).skip(13);
        assert(full == cat(parts) + body_bytes(m));
        assert(full.len() == encode(m).len() - 13);
        assert(data.skip(13) =~= full.take(k1));
        take_across(cat(parts), body_bytes(m), k1);
        if k1 < cat(parts).len() {
            chunks_of_cut_cat(parts, 5, k1);
        } else {
            let k2 = k1 - cat(parts).len();
            let left = body_bytes(m).take(k2);
            chunks_of_cat(parts, 5, left);
            cut_body_is_truncated(m, find, k2);
        }
    }
}

/// What a message asks for: its removals first, in order, and behind them the
/// rows of its sections, section by section and row by row, each for the pool
/// its section names.
pub proof fn a_message_asks_removals_first(
    m: Message,
    find: spec_fn(u16) -> Option<(int, nat)>,
    i: int,
    s: int,
    j: int,
) -> (at: int)
    requires
        0 <= s < m.sections.len(),
        0 <= j < m.sections[s].rows.len(),
    ensures
        ({
            let ops = message_ops(m, find);
            let row = m.sections[s].rows[j];
            &&& 0 <= i < m.removals.len() ==> ops[i] == Op::Remove(m.removals[i])
            &&& m.removals.len() <= at < ops.len()
            &&& ops[at] == Op::Upsert((find(m.sections[s].key)->0).0, Id(row.0), row.1)
        }),
{
    let at = section_row_at(m.sections, find, s, j);
    m.removals.len() + at
}

/// Where a row stands among the sections' requests.
proof fn section_row_at(
    sections: Seq<Section>,
    find: spec_fn(u16) -> Option<(int, nat)>,
    s: int,
    j: int,
) -> (at: int)
    requires
        0 <= s < sections.len(),
        0 <= j < sections[s].rows.len(),
    ensures
        0 <= at < sections_ops(sections, find).len(),
        sections_ops(sections, find)[at] == Op::Upsert(
            (find(sections[s].key)->0).0,
            Id(sections[s].rows[j].0),
            sections[s].rows[j].1,
        ),
    decreases sections.len(),
{
    if s == 0 {
        j
    } else {
        let tail = sections.drop_first();
        assert(tail[s - 1] == sections[s]);
        let at = section_row_at(tail, find, s - 1, j);
        sections[0].rows.len() + at
    }
}

/// How many requests a message makes: one for each removal and each row.
pub open spec fn rows_in(sections: Seq<Section>) -> nat
    decreases sections.len(),
{
    if sections.len() == 0 {
        0
    } else {
        sections[0].rows.len() + rows_in(sections.drop_first())
    }
}

/// A message asks for nothing but its removals and rows.
pub proof fn a_message_asks_for_nothing_else(
    m: Message,
    find: spec_fn(u16) -> Option<(int, nat)>,
)
    ensures
        message_ops(m, find).len() == m.removals.len() + rows_in(m.sections),
{
    rows_are_asked_once(m.sections, find);
}

/// Each row is asked for once.
proof fn rows_are_asked_once(sections: Seq<Section>, find: spec_fn(u16) -> Option<(int, nat)>)
    ensures
        sections_ops(sections, find).len() == rows_in(sections),
    decreases sections.len(),
{
    if sections.len() > 0 {
        rows_are_asked_once(sections.drop_first(), find);
    }
}

/// Sections are read one by one: a whole one gives its rows and what follows
/// is read on; one of an unknown pool ends the reading there.
pub proof fn sections_are_read_one_by_one(
    s: Section,
    rest: Seq<u8>,
    n: nat,
    find: spec_fn(u16) -> Option<(int, nat)>,
)
    requires
        s.rows.len() <= u32::MAX,
    ensures
        parse_sections(rest, 0, find) == (Seq::<Op>::empty(), None::<NetError>),
        section_fits(s, find) ==> parse_sections(section_part(s) + rest, n + 1, find) == (
            section_ops(s, (find(s.key)->0).0) + parse_sections(rest, n, find).0,
            parse_sections(rest, n, find).1,
        ),
        find(s.key) is None ==> parse_sections(section_part(s) + rest, n + 1, find) == (
            Seq::<Op>::empty(),
            Some(NetError::UnknownPool(s.key)),
        ),
{
    let data = section_part(s) + rest;
    if section_fits(s, find) {
        section_reads(s, find, rest);
        let e = (4 + (find(s.key)->0).1) as nat;
        let parts = s.rows.map_values(|r: (u32, Seq<u8>)| row_part(r));
        chunks_of_cat(parts, e, rest);
        assert(parts.len() == s.rows.len());
    } else if find(s.key) is None {
        le16_round_trip(s.key);
        assert(data.take(2) =~= le16(s.key));
        assert(data.len() >= 6);
    }
}

/// What was whole is carried out though the rest is cut off: the requests of
/// a snapshot's whole sections stand, and the reading ends truncated.
pub proof fn whole_sections_stand(
    s: Section,
    rest: Seq<u8>,
    find: spec_fn(u16) -> Option<(int, nat)>,
    n: nat,
)
    requires
        section_fits(s, find),
        rest.len() < 6,
        n > 0,
    ensures
        parse_sections(section_part(s) + rest, n + 1, find) == (
            section_ops(s, (find(s.key)->0).0),
            Some(NetError::Truncated),
        ),
{
    sections_are_read_one_by_one(s, rest, n, find);
    let ops = section_ops(s, (find(s.key)->0).0);
    assert(ops + Seq::<Op>::empty() =~= ops);
}

/// A snapshot's header comes before everything and is told only where the
/// whole of it reads well; without a whole header nothing is carried out.
pub proof fn a_header_is_told_of_whole_snapshots(
    tick: u32,
    seq: u32,
    input_seq: u32,
    owners: Seq<(u8, u32)>,
    body: Seq<u8>,
    short: Seq<u8>,
    find: spec_fn(u16) -> Option<(int, nat)>,
)
    requires
        owners.len() <= u8::MAX,
        short.len() < 13,
    ensures
        parse(short, find) == (Seq::<Op>::empty(), Err::<Header, NetError>(NetError::Truncated)),
        ({
            let data = le32(tick) + le32(seq) + le32(input_seq) + seq![owners.len() as u8]
                + owners_bytes(owners) + body;
            let out = parse(data, find);
            &&& out.0 == parse_body(body, find).0
            &&& parse_body(body, find).1 matches Some(e) ==> out.1 == Err::<Header, NetError>(e)
            &&& parse_body(body, find).1 is None ==> out.1 == Ok::<Header, NetError>(
                Header {
                    tick,
                    seq,
                    input_seq,
                    owners: owners.map_values(|o: (u8, u32)| (o.0, Id(o.1))),
                },
            )
        }),
{
    let parts = owners.map_values(|o: (u8, u32)| owner_part(o));
    let data = le32(tick) + le32(seq) + le32(input_seq) + seq![owners.len() as u8] + owners_bytes(
        owners,
    ) + body;
    le32_round_trip(tick);
    le32_round_trip(seq);
    le32_round_trip(input_seq);
    assert(data.take(4) =~= le32(tick));
    assert(data.subrange(4, 8) =~= le32(seq));
    assert(data.subrange(8, 12) =~= le32(input_seq));
    assert(data[12] == owners.len());
    assert(data.skip(13) =~= cat(parts) + body);
    chunks_of_cat(parts, 5, body);
    assert forall|i: int| 0 <= i < owners.len() implies owner_of_part(#[trigger] parts[i]) == (
        owners[i].0,
        Id(owners[i].1),
    ) by {
        le32_round_trip(owners[i].1);
        assert(parts[i].skip(1) =~= le32(owners[i].1));
    }
    assert(parts.map_values(|c: Seq<u8>| owner_of_part(c)) =~= owners.map_values(
        |o: (u8, u32)| (o.0, Id(o.1)),
    ));
}

/// Removals read before the sections: all that came whole are carried out,
/// and the sections are read only behind a whole list.
pub proof fn removals_are_read_before_sections(
    removals: Seq<Id>,
    sections: u16,
    rest: Seq<u8>,
    short: Seq<u8>,
    find: spec_fn(u16) -> Option<(int, nat)>,
)
    requires
        removals.len() <= u32::MAX,
        short.len() < 2,
    ensures
        ({
            let list = le32(removals.len() as u32) + removals_bytes(removals);
            let asked = removals.map_values(|id: Id| Op::Remove(id));
            &&& parse_body(list + le16(sections) + rest, find) == (
                asked + parse_sections(rest, sections as nat, find).0,
                parse_sections(rest, sections as nat, find).1,
            )
            &&& parse_body(list + short, find) == (asked, Some(NetError::Truncated))
        }),
{
    let parts = removals.map_values(|id: Id| removal_part(id));
    let list = le32(removals.len() as u32) + removals_bytes(removals);
    let asked = removals.map_values(|id: Id| Op::Remove(id));
    le32_round_trip(removals.len() as u32);
    le16_round_trip(sections);
    assert forall|i: int| 0 <= i < removals.len() implies removal_op(#[trigger] parts[i])
        == Op::Remove(removals[i]) by {
        le32_round_trip(removals[i].0);
    }
    assert(parts.map_values(|c: Seq<u8>| removal_op(c)) =~= asked);
    let tail = le16(sections) + rest;
    let data = list + le16(sections) + rest;
    assert(data.take(4) =~= le32(removals.len() as u32));
    assert(data.skip(4) =~= cat(parts) + tail);
    chunks_of_cat(parts, 4, tail);
    assert(tail.take(2) =~= le16(sections));
    assert(tail.skip(2) =~= rest);
    let cut = list + short;
    assert(cut.take(4) =~= le32(removals.len() as u32));
    assert(cut.skip(4) =~= cat(parts) + short);
    chunks_of_cat(parts, 4, short);
}

} // verus!
