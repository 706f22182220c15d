//! The handshake schema: what both ends must agree on before anything is
//! replicated, in bytes, and the per-channel explanation of a disagreement.

use vstd::prelude::*;
use vstd::string::StringExecFns;

use crate::reg::{row_views, RowView, SchemaRow};
use crate::snapshot::{cat, cat_push};
use crate::sort::{
    filter_members, sort_stable, stable_sort, stable_sort_exists, stable_sort_unique, with_rank, Ranked,
};
use crate::text::{
    bytes_le, lex_antisymmetric, lex_le, lex_total, lex_transitive, push_decimal, text_eq, utf8,
    utf8_injective, decimal,
};
use crate::wire::{
    le16, le16_round_trip, le32, le32_round_trip, le64, le64_round_trip, put16, put32, put64,
    put_bytes, un16, un32, un64, Reader,
};

verus! {

impl Ranked for SchemaRow {
    /// Rows go by name.
    open spec fn rank_le(self, other: Self) -> bool {
        lex_le(utf8(self.name@), utf8(other.name@))
    }

    proof fn rank_total(a: Self, b: Self) {
        lex_total(utf8(a.name@), utf8(b.name@));
    }

    proof fn rank_transitive(a: Self, b: Self, c: Self) {
        lex_transitive(utf8(a.name@), utf8(b.name@), utf8(c.name@));
    }

    fn may_precede(&self, other: &Self) -> (r: bool) {
        bytes_le(self.name.as_str().as_bytes(), other.name.as_str().as_bytes())
    }
}

/// `[kind u8][name len u16][name][size u32][hash u64]`.
#[verifier::opaque]
pub open spec fn schema_part(r: RowView) -> Seq<u8> {
    seq![r.kind] + le16(utf8(r.name).len() as u16) + utf8(r.name) + le32(r.size as u32) + le64(
        r.hash,
    )
}

/// A row count and the rows.
pub open spec fn rows_bytes(rows: Seq<RowView>) -> Seq<u8> {
    le16(rows.len() as u16) + cat(rows.map_values(|r: RowView| schema_part(r)))
}

/// The schema's bytes: its rows by name, so the handshake compare does not
/// depend on registration order.
pub open spec fn schema_bytes(rows: Seq<SchemaRow>) -> Seq<u8> {
    rows_bytes(row_views(stable_sort(rows)))
}

/// Copy of a row.
fn copy_row(r: &SchemaRow) -> (c: SchemaRow)
    ensures
        c == *r,
{
    SchemaRow { kind: r.kind, name: r.name.clone(), size: r.size, hash: r.hash }
}

/// Encode the schema for the handshake. Both ends agree as long as the set
/// of rows matches. The kind byte keeps a pool and an event channel that
/// share a name from passing as each other; the hash catches same-size field
/// drift.
pub fn schema_encode(schema: &[SchemaRow]) -> (r: Vec<u8>)
    ensures
        r@ == schema_bytes(schema@),
{
    let mut rows: Vec<SchemaRow> = Vec::new();
    let mut i: usize = 0;
    while i < schema.len()
        invariant
            i <= schema@.len(),
            rows@ == schema@.take(i as int),
        decreases schema@.len() - i,
    {
        rows.push(copy_row(&schema[i]));
        assert(schema@.take(i + 1) =~= schema@.take(i as int).push(schema@[i as int]));
        i += 1;
    }
    assert(schema@.take(i as int) =~= schema@);
    sort_stable(&mut rows);
    proof {
        stable_sort_exists(schema@);
        stable_sort_unique(rows@, stable_sort(schema@), schema@);
    }
    let ghost views = row_views(rows@);
    let ghost f = |r: RowView| schema_part(r);
    let mut out: Vec<u8> = Vec::new();
    put16(&mut out, rows.len() as u16);
    let ghost head = out@;
    let mut k: usize = 0;
    proof {
        assert(views.take(0).map_values(f) =~= Seq::<Seq<u8>>::empty());
        assert(out@ =~= head + cat(views.take(0).map_values(f)));
    }
    while k < rows.len()
        invariant
            k <= rows@.len(),
            views == row_views(rows@),
            f == (|r: RowView| schema_part(r)),
            out@ == head + cat(views.take(k as int).map_values(f)),
        decreases rows@.len() - k,
    {
        let ghost before = out@;
        out.push(rows[k].kind);
        let name: &[u8] = rows[k].name.as_str().as_bytes();
        put16(&mut out, name.len() as u16);
        put_bytes(&mut out, name);
        put32(&mut out, rows[k].size as u32);
        put64(&mut out, rows[k].hash);
        proof {
            reveal(schema_part);
            let row = rows@[k as int]@;
            assert(views[k as int] == row);
            let done = views.take(k as int).map_values(f);
            assert(views.take(k + 1).map_values(f) =~= done.push(schema_part(row)));
            cat_push(done, schema_part(row));
            assert(out@ =~= before + schema_part(row));
            assert(out@ =~= head + cat(views.take(k + 1).map_values(f)));
        }
        k += 1;
    }
    assert(views.take(k as int) =~= views);
    out
}

/// The text these bytes encode, if they encode one.
pub open spec fn text_of(bytes: Seq<u8>) -> Option<Seq<char>> {
    if exists|t: Seq<char>| #[trigger] utf8(t) == bytes {
        Some(choose|t: Seq<char>| #[trigger] utf8(t) == bytes)
    } else {
        None
    }
}

/// Bytes of a text give that text.
pub proof fn text_of_utf8(t: Seq<char>)
    ensures
        text_of(utf8(t)) == Some(t),
{
    let c = choose|c: Seq<char>| #[trigger] utf8(c) == utf8(t);
    utf8_injective(c, t);
}

/// `String::from_utf8`: the text the bytes encode, or nothing when they are
/// no UTF-8.
#[verifier::external_body]
fn text_from_utf8(bytes: Vec<u8>) -> (r: Option<String>)
    ensures
        match r {
            Some(s) => text_of(bytes@) == Some(s@),
            None => text_of(bytes@) is None,
        },
{
    String::from_utf8(bytes).ok()
}

/// One row off the front, and the rest.
pub open spec fn row_from(data: Seq<u8>) -> Option<(RowView, Seq<u8>)> {
    if data.len() < 3 {
        None
    } else {
        let n = un16(data.subrange(1, 3)) as int;
        if data.len() < 15 + n {
            None
        } else {
            match text_of(data.subrange(3, 3 + n)) {
                None => None,
                Some(name) => Some(
                    (
                        RowView {
                            kind: data[0],
                            name,
                            size: un32(data.subrange(3 + n, 7 + n)) as nat,
                            hash: un64(data.subrange(7 + n, 15 + n)),
                        },
                        data.skip(15 + n),
                    ),
                ),
            }
        }
    }
}

/// `n` rows off the front, and the rest.
pub open spec fn rows_from(data: Seq<u8>, n: nat) -> Option<(Seq<RowView>, Seq<u8>)>
    decreases n,
{
    if n == 0 {
        Some((Seq::empty(), data))
    } else {
        match row_from(data) {
            None => None,
            Some((row, rest)) => match rows_from(rest, (n - 1) as nat) {
                None => None,
                Some((rows, end)) => Some((seq![row] + rows, end)),
            },
        }
    }
}

/// The rows of a whole schema, if the bytes are one.
pub open spec fn schema_rows(data: Seq<u8>) -> Option<Seq<RowView>> {
    if data.len() < 2 {
        None
    } else {
        match rows_from(data.skip(2), un16(data.take(2)) as nat) {
            Some((rows, rest)) if rest.len() == 0 => Some(rows),
            _ => None,
        }
    }
}

/// Read one row.
fn read_row(r: &mut Reader) -> (res: Option<SchemaRow>)
    requires
        old(r).wf(),
    ensures
        final(r).wf(),
        match res {
            Some(row) => row_from(old(r)@) == Some((row@, final(r)@)),
            None => row_from(old(r)@) is None,
        },
{
    let ghost data = r@;
    let kind: u8 = match r.u8() {
        Ok(x) => x,
        Err(_) => {
            return None;
        },
    };
    assert(r@ =~= data.skip(1));
    let n: u16 = match r.u16() {
        Ok(x) => x,
        Err(_) => {
            return None;
        },
    };
    assert(data.skip(1).subrange(0, 2) =~= data.subrange(1, 3));
    assert(r@ =~= data.skip(3));
    let name: Vec<u8> = match r.bytes(n as usize) {
        Ok(x) => x,
        Err(_) => {
            return None;
        },
    };
    assert(name@ =~= data.subrange(3, 3 + n));
    assert(r@ =~= data.skip(3 + n));
    let name: String = match text_from_utf8(name) {
        Some(s) => s,
        None => {
            return None;
        },
    };
    let size: u32 = match r.u32() {
        Ok(x) => x,
        Err(_) => {
            return None;
        },
    };
    assert(data.skip(3 + n).subrange(0, 4) =~= data.subrange(3 + n, 7 + n));
    assert(r@ =~= data.skip(7 + n));
    let hash: u64 = match r.u64() {
        Ok(x) => x,
        Err(_) => {
            return None;
        },
    };
    assert(data.skip(7 + n).subrange(0, 8) =~= data.subrange(7 + n, 15 + n));
    assert(r@ =~= data.skip(15 + n));
    Some(SchemaRow { kind, name, size: size as usize, hash })
}

/// Decode a schema back into rows (`None` on a malformed buffer). The
/// connect decision is the byte compare; this only explains it.
pub fn schema_decode(b: &[u8]) -> (r: Option<Vec<SchemaRow>>)
    ensures
        match r {
            Some(rows) => schema_rows(b@) == Some(row_views(rows@)),
            None => schema_rows(b@) is None,
        },
{
    let mut r: Reader = Reader::new(b);
    let count: u16 = match r.u16() {
        Ok(x) => x,
        Err(_) => {
            return None;
        },
    };
    assert(r@ =~= b@.skip(2));
    let mut rows: Vec<SchemaRow> = Vec::new();
    let mut i: u16 = 0;
    let ghost all = rows_from(b@.skip(2), count as nat);
    proof {
        if all is Some {
            assert(row_views(rows@) + (all->0).0 =~= (all->0).0);
        }
    }
    while i < count
        invariant
            r.wf(),
            i <= count,
            b@.len() >= 2,
            count == un16(b@.take(2)),
            all == rows_from(b@.skip(2), count as nat),
            all == match rows_from(r@, (count - i) as nat) {
                Some((more, end)) => Some((row_views(rows@) + more, end)),
                None => None,
            },
        decreases count - i,
    {
        let ghost before = row_views(rows@);
        let ghost cur = r@;
        match read_row(&mut r) {
            Some(row) => {
                let ghost v = row@;
                rows.push(row);
                proof {
                    assert(row_views(rows@) =~= before.push(v));
                    if let Some((more, end)) = rows_from(r@, (count - i - 1) as nat) {
                        assert(before + (seq![v] + more) =~= row_views(rows@) + more);
                    }
                }
            },
            None => {
                assert(rows_from(cur, (count - i) as nat) is None);
                return None;
            },
        }
        i += 1;
    }
    assert(row_views(rows@) + Seq::<RowView>::empty() =~= row_views(rows@));
    if r.is_empty() {
        Some(rows)
    } else {
        None
    }
}

/// Rows whose counts and sizes fit their fields.
pub open spec fn rows_fit(rows: Seq<RowView>) -> bool {
    &&& rows.len() <= u16::MAX
    &&& forall|i: int|
        0 <= i < rows.len() ==> utf8((#[trigger] rows[i]).name).len() <= u16::MAX && rows[i].size
            <= u32::MAX
}

/// Decoding gives back what was encoded, in name order.
pub proof fn schema_round_trip(rows: Seq<RowView>)
    requires
        rows_fit(rows),
    ensures
        schema_rows(rows_bytes(rows)) == Some(rows),
{
    let data = rows_bytes(rows);
    le16_round_trip(rows.len() as u16);
    assert(data.take(2) =~= le16(rows.len() as u16));
    let body = cat(rows.map_values(|r: RowView| schema_part(r)));
    assert(data.skip(2) =~= body + Seq::<u8>::empty());
    rows_read_back(rows, Seq::empty());
}

/// A row is read back.
proof fn row_reads_back(row: RowView, after: Seq<u8>)
    requires
        utf8(row.name).len() <= u16::MAX,
        row.size <= u32::MAX,
    ensures
        row_from(schema_part(row) + after) == Some((row, after)),
{
    reveal(schema_part);
    let data = schema_part(row) + after;
    let n = utf8(row.name).len() as int;
    le16_round_trip(n as u16);
    le32_round_trip(row.size as u32);
    le64_round_trip(row.hash);
    text_of_utf8(row.name);
    assert(data.subrange(1, 3) =~= le16(n as u16));
    assert(data.subrange(3, 3 + n) =~= utf8(row.name));
    assert(data.subrange(3 + n, 7 + n) =~= le32(row.size as u32));
    assert(data.subrange(7 + n, 15 + n) =~= le64(row.hash));
    assert(data.skip(15 + n) =~= after);
}

/// Rows are read back one by one.
proof fn rows_read_back(rows: Seq<RowView>, rest: Seq<u8>)
    requires
        rows_fit(rows),
    ensures
        rows_from(cat(rows.map_values(|r: RowView| schema_part(r))) + rest, rows.len()) == Some(
            (rows, rest),
        ),
    decreases rows.len(),
{
    let f = |r: RowView| schema_part(r);
    if rows.len() == 0 {
        assert(cat(rows.map_values(f)) + rest =~= rest);
        assert(rows =~= Seq::<RowView>::empty());
    } else {
        let tail = rows.drop_first();
        let row = rows[0];
        assert(rows.map_values(f).drop_first() =~= tail.map_values(f));
        let after = cat(tail.map_values(f)) + rest;
        let data = cat(rows.map_values(f)) + rest;
        assert(data =~= schema_part(row) + after);
        assert forall|i: int| 0 <= i < tail.len() implies utf8((#[trigger] tail[i]).name).len()
            <= u16::MAX && tail[i].size <= u32::MAX by {
            assert(tail[i] == rows[i + 1]);
        }
        rows_read_back(tail, rest);
        assert(rows[0] == row);
        row_reads_back(row, after);
        assert(seq![row] + tail =~= rows);
    }
}

/// A row read off the front is the same whatever follows.
proof fn row_from_extends(data: Seq<u8>, more: Seq<u8>)
    requires
        row_from(data) is Some,
    ensures
        row_from(data + more) == Some(((row_from(data)->0).0, (row_from(data)->0).1 + more)),
{
    let n = un16(data.subrange(1, 3)) as int;
    let all = data + more;
    assert(all.subrange(1, 3) =~= data.subrange(1, 3));
    assert(all.subrange(3, 3 + n) =~= data.subrange(3, 3 + n));
    assert(all.subrange(3 + n, 7 + n) =~= data.subrange(3 + n, 7 + n));
    assert(all.subrange(7 + n, 15 + n) =~= data.subrange(7 + n, 15 + n));
    assert(all.skip(15 + n) =~= data.skip(15 + n) + more);
}

/// Rows read off the front are the same whatever follows.
proof fn rows_from_extends(data: Seq<u8>, n: nat, more: Seq<u8>)
    requires
        rows_from(data, n) is Some,
    ensures
        rows_from(data + more, n) == Some(
            ((rows_from(data, n)->0).0, (rows_from(data, n)->0).1 + more),
        ),
    decreases n,
{
    if n > 0 {
        row_from_extends(data, more);
        rows_from_extends((row_from(data)->0).1, (n - 1) as nat, more);
    }
}

/// Only the whole of an encoded schema is a schema: whatever is cut off its
/// end or put behind it, the rest decodes to nothing.
pub proof fn only_whole_schemas_decode(rows: Seq<RowView>, n: int, extra: Seq<u8>)
    requires
        rows_fit(rows),
        0 <= n < rows_bytes(rows).len(),
        extra.len() > 0,
    ensures
        schema_rows(rows_bytes(rows).take(n)) is None,
        schema_rows(rows_bytes(rows) + extra) is None,
{
    let data = rows_bytes(rows);
    let body = cat(rows.map_values(|r: RowView| schema_part(r)));
    le16_round_trip(rows.len() as u16);
    assert(data.take(2) =~= le16(rows.len() as u16));
    assert(data.skip(2) =~= body + Seq::<u8>::empty());
    rows_read_back(rows, Seq::empty());
    rows_read_back(rows, extra);
    assert((data + extra).take(2) =~= data.take(2));
    assert((data + extra).skip(2) =~= body + extra);
    let cut = data.take(n);
    if n >= 2 && rows_from(cut.skip(2), rows.len()) is Some {
        let gone = data.skip(n);
        assert(cut.take(2) =~= data.take(2));
        assert(cut.skip(2) + gone =~= data.skip(2));
        rows_from_extends(cut.skip(2), rows.len(), gone);
        assert((rows_from(cut.skip(2), rows.len())->0).1 + gone == Seq::<u8>::empty());
        assert(gone.len() == 0);
    }
    if n >= 2 {
        assert(cut.take(2) =~= data.take(2));
    }
}

/// No two rows share a name.
pub open spec fn names_apart(rows: Seq<SchemaRow>) -> bool {
    forall|i: int, j: int|
        0 <= i < j < rows.len() ==> (#[trigger] rows[i]).name@ != (#[trigger] rows[j]).name@
}

/// Rows of one rank in a schema without repeated names: at most one.
proof fn rank_is_single(rows: Seq<SchemaRow>, x: SchemaRow)
    requires
        names_apart(rows),
    ensures
        rows.filter(with_rank(x)).len() <= 1,
    decreases rows.len(),
{
    let f = with_rank(x);
    if rows.len() == 0 {
        reveal(Seq::filter);
    } else {
        let init = rows.drop_last();
        let y = rows.last();
        assert(rows =~= init.push(y));
        assert(names_apart(init)) by {
            assert forall|i: int, j: int| 0 <= i < j < init.len() implies (
            #[trigger] init[i]).name@ != (#[trigger] init[j]).name@ by {
                assert(init[i] == rows[i] && init[j] == rows[j]);
            }
        }
        rank_is_single(init, x);
        crate::sort::filter_push(init, y, f);
        if f(y) && init.filter(f).len() > 0 {
            filter_members(init, f);
            let z = init.filter(f)[0];
            assert(init.filter(f).contains(z));
            let k = choose|k: int| 0 <= k < init.len() && init[k] == z;
            SchemaRow::rank_transitive(y, x, z);
            SchemaRow::rank_transitive(z, x, y);
            lex_antisymmetric(utf8(y.name@), utf8(z.name@));
            utf8_injective(y.name@, z.name@);
            assert(rows[k].name@ != rows[rows.len() - 1].name@);
        }
    }
}

/// The handshake compare does not depend on registration order: two schemas
/// with the same rows, in any order, have the same bytes.
pub proof fn schema_bytes_ignore_order(a: Seq<SchemaRow>, b: Seq<SchemaRow>)
    requires
        names_apart(a),
        names_apart(b),
        a.len() == b.len(),
        forall|x: SchemaRow| #[trigger] a.contains(x) <==> b.contains(x),
    ensures
        schema_bytes(a) == schema_bytes(b),
{
    stable_sort_exists(a);
    stable_sort_exists(b);
    let s = stable_sort(a);
    assert forall|x: SchemaRow| #[trigger] s.filter(with_rank(x)) == b.filter(with_rank(x)) by {
        let f = with_rank(x);
        assert(s.filter(f) == a.filter(f));
        rank_is_single(a, x);
        rank_is_single(b, x);
        filter_members(a, f);
        filter_members(b, f);
        if a.filter(f).len() > 0 {
            let y = a.filter(f)[0];
            assert(a.filter(f).contains(y));
            assert(b.filter(f).contains(y));
        }
        if b.filter(f).len() > 0 {
            let y = b.filter(f)[0];
            assert(b.filter(f).contains(y));
            assert(a.filter(f).contains(y));
        }
        assert(a.filter(f) =~= b.filter(f));
    }
    stable_sort_unique(s, stable_sort(b), b);
}

// --- the diff ---------------------------------------------------------------

/// The first row of a name.
pub open spec fn row_named(rows: Seq<RowView>, name: Seq<char>) -> Option<RowView>
    decreases rows.len(),
{
    if rows.len() == 0 {
        None
    } else if rows[0].name == name {
        Some(rows[0])
    } else {
        row_named(rows.drop_first(), name)
    }
}

/// What is wrong with one of this end's channels, if anything.
pub open spec fn own_complaint(server: Seq<RowView>, row: RowView) -> Option<Seq<char>> {
    match row_named(server, row.name) {
        None => Some("'"@ + row.name + "' only on this end"@),
        Some(s) => if s.kind != row.kind || s.size != row.size {
            Some(
                "'"@ + row.name + "': "@ + decimal(row.size) + " B here vs "@ + decimal(s.size)
                    + " B on server"@,
            )
        } else if s.hash != row.hash {
            Some("'"@ + row.name + "': schema hash differs (field-level drift)"@)
        } else {
            None
        },
    }
}

/// What is wrong with one of the server's channels, if anything.
pub open spec fn server_complaint(client: Seq<RowView>, row: RowView) -> Option<Seq<char>> {
    if row_named(client, row.name) is None {
        Some("'"@ + row.name + "' only on server"@)
    } else {
        None
    }
}

/// The complaints about this end's channels, in order.
pub open spec fn own_complaints(server: Seq<RowView>, client: Seq<RowView>) -> Seq<Seq<char>>
    decreases client.len(),
{
    if client.len() == 0 {
        Seq::empty()
    } else {
        let before = own_complaints(server, client.drop_last());
        match own_complaint(server, client.last()) {
            Some(c) => before.push(c),
            None => before,
        }
    }
}

/// The complaints about the server's channels, in order.
pub open spec fn server_complaints(server: Seq<RowView>, client: Seq<RowView>) -> Seq<Seq<char>>
    decreases server.len(),
{
    if server.len() == 0 {
        Seq::empty()
    } else {
        let before = server_complaints(server.drop_last(), client);
        match server_complaint(client, server.last()) {
            Some(c) => before.push(c),
            None => before,
        }
    }
}

/// Parts joined by `"; "`.
pub open spec fn joined(parts: Seq<Seq<char>>) -> Seq<char>
    decreases parts.len(),
{
    if parts.len() == 0 {
        Seq::empty()
    } else if parts.len() == 1 {
        parts[0]
    } else {
        joined(parts.drop_last()) + "; "@ + parts.last()
    }
}

/// The explanation of a failed compare.
pub open spec fn diff_text(server: Seq<RowView>, client: Seq<RowView>) -> Seq<char> {
    let parts = own_complaints(server, client) + server_complaints(server, client);
    if parts.len() == 0 {
        "encoding mismatch"@
    } else {
        joined(parts)
    }
}

/// Position of the first row of a name.
fn find_row(rows: &[SchemaRow], name: &str) -> (r: Option<usize>)
    ensures
        match r {
            Some(i) => i < rows@.len() && row_named(row_views(rows@), name@) == Some(
                rows@[i as int]@,
            ),
            None => row_named(row_views(rows@), name@) is None,
        },
{
    let ghost views = row_views(rows@);
    let mut i: usize = 0;
    assert(views.skip(0) =~= views);
    while i < rows.len()
        invariant
            views == row_views(rows@),
            i <= rows@.len(),
            row_named(views, name@) == row_named(views.skip(i as int), name@),
        decreases rows@.len() - i,
    {
        assert(views.skip(i as int).drop_first() =~= views.skip(i + 1));
        assert(views.skip(i as int)[0] == rows@[i as int]@);
        if text_eq(rows[i].name.as_str(), name) {
            return Some(i);
        }
        i += 1;
    }
    None
}

/// Append one part, with the separator when it is not the first.
fn join_part(out: &mut String, first: bool, part: &str)
    ensures
        final(out)@ == if first {
            old(out)@ + part@
        } else {
            old(out)@ + "; "@ + part@
        },
{
    if !first {
        out.append("; ");
    }
    out.append(part);
}

/// One more part joins behind.
proof fn joined_push(parts: Seq<Seq<char>>, p: Seq<char>)
    ensures
        joined(parts.push(p)) == if parts.len() == 0 {
            joined(parts) + p
        } else {
            joined(parts) + "; "@ + p
        },
{
    assert(parts.push(p).drop_last() =~= parts);
    if parts.len() == 0 {
        assert(joined(parts.push(p)) =~= joined(parts) + p);
    }
}

/// What is wrong with one of this end's channels.
fn own_complaint_text(server: &[SchemaRow], row: &SchemaRow) -> (r: Option<String>)
    ensures
        match r {
            Some(s) => own_complaint(row_views(server@), row@) == Some(s@),
            None => own_complaint(row_views(server@), row@) is None,
        },
{
    let mut s: String = String::new();
    s.append("'");
    s.append(row.name.as_str());
    proof {
        assert(s@ =~= "'"@ + row.name@);
    }
    match find_row(server, row.name.as_str()) {
        None => {
            s.append("' only on this end");
            Some(s)
        },
        Some(i) => {
            let other: &SchemaRow = &server[i];
            if other.kind != row.kind || other.size != row.size {
                s.append("': ");
                push_decimal(&mut s, row.size as u64);
                s.append(" B here vs ");
                push_decimal(&mut s, other.size as u64);
                s.append(" B on server");
                Some(s)
            } else if other.hash != row.hash {
                s.append("': schema hash differs (field-level drift)");
                Some(s)
            } else {
                None
            }
        },
    }
}

/// Human-readable per-channel diff for a failed schema compare: which
/// channels only one end has, and which agree on the name but not on kind,
/// size, or schema hash.
pub fn schema_diff(server: &[SchemaRow], client: &[SchemaRow]) -> (r: String)
    ensures
        r@ == diff_text(row_views(server@), row_views(client@)),
{
    let ghost sv = row_views(server@);
    let ghost cv = row_views(client@);
    let ghost mut parts: Seq<Seq<char>> = Seq::empty();
    let mut out: String = String::new();
    let mut empty: bool = true;
    let mut i: usize = 0;
    proof {
        assert(cv.take(0) =~= Seq::<RowView>::empty());
        assert(out@ =~= joined(parts));
    }
    while i < client.len()
        invariant
            sv == row_views(server@),
            cv == row_views(client@),
            i <= client@.len(),
            parts == own_complaints(sv, cv.take(i as int)),
            out@ == joined(parts),
            empty == (parts.len() == 0),
        decreases client@.len() - i,
    {
        proof {
            assert(cv.take(i + 1).drop_last() =~= cv.take(i as int));
            assert(cv.take(i + 1).last() == client@[i as int]@);
        }
        if let Some(part) = own_complaint_text(server, &client[i]) {
            join_part(&mut out, empty, part.as_str());
            proof {
                joined_push(parts, part@);
                parts = parts.push(part@);
            }
            empty = false;
        }
        i += 1;
    }
    assert(cv.take(i as int) =~= cv);
    let ghost own = parts;
    let mut k: usize = 0;
    proof {
        assert(sv.take(0) =~= Seq::<RowView>::empty());
        assert(parts =~= own + server_complaints(sv.take(0), cv));
    }
    while k < server.len()
        invariant
            sv == row_views(server@),
            cv == row_views(client@),
            k <= server@.len(),
            parts == own + server_complaints(sv.take(k as int), cv),
            out@ == joined(parts),
            empty == (parts.len() == 0),
        decreases server@.len() - k,
    {
        proof {
            assert(sv.take(k + 1).drop_last() =~= sv.take(k as int));
            assert(sv.take(k + 1).last() == server@[k as int]@);
        }
        if find_row(client, server[k].name.as_str()).is_none() {
            let mut part: String = String::new();
            part.append("'");
            part.append(server[k].name.as_str());
            part.append("' only on server");
            let ghost before = parts;
            join_part(&mut out, empty, part.as_str());
            proof {
                assert(part@ =~= "'"@ + server@[k as int].name@ + "' only on server"@);
                joined_push(parts, part@);
                parts = parts.push(part@);
                assert(parts =~= own + server_complaints(sv.take(k + 1), cv));
            }
            empty = false;
        }
        k += 1;
    }
    assert(sv.take(k as int) =~= sv);
    if empty {
        out.append("encoding mismatch");
        assert(out@ =~= "encoding mismatch"@);
    }
    out
}

/// The row of a name is the first with it, and none only where no row has it.
pub proof fn the_first_row_of_a_name_is_found(rows: Seq<RowView>, name: Seq<char>)
    ensures
        row_named(rows, name) matches Some(r) ==> r.name == name && exists|i: int|
            0 <= i < rows.len() && #[trigger] rows[i] == r && forall|j: int|
                0 <= j < i ==> (#[trigger] rows[j]).name != name,
        row_named(rows, name) is None ==> forall|j: int|
            0 <= j < rows.len() ==> (#[trigger] rows[j]).name != name,
    decreases rows.len(),
{
    if rows.len() > 0 {
        if rows[0].name == name {
            assert(rows[0] == row_named(rows, name)->0);
        } else {
            let rest = rows.drop_first();
            the_first_row_of_a_name_is_found(rest, name);
            if let Some(r) = row_named(rows, name) {
                let i = choose|i: int|
                    0 <= i < rest.len() && #[trigger] rest[i] == r && forall|j: int|
                        0 <= j < i ==> (#[trigger] rest[j]).name != name;
                assert(rows[i + 1] == r);
                assert forall|j: int| 0 <= j < i + 1 implies (#[trigger] rows[j]).name != name by {
                    if j > 0 {
                        assert(rest[j - 1].name != name);
                    }
                }
            } else {
                assert forall|j: int| 0 <= j < rows.len() implies (#[trigger] rows[j]).name
                    != name by {
                    if j > 0 {
                        assert(rest[j - 1].name != name);
                    }
                }
            }
        }
    }
}

/// Both ends know the row alike.
pub open spec fn known_alike(server: Seq<RowView>, row: RowView) -> bool {
    row_named(server, row.name) matches Some(s) && s.kind == row.kind && s.size == row.size
        && s.hash == row.hash
}

/// A difference names each of this end's rows the server does not know alike,
/// in order, and each of the server's rows this end does not know; nothing
/// else.
pub proof fn every_difference_is_named(server: Seq<RowView>, client: Seq<RowView>) -> (out: (
    Seq<int>,
    Seq<int>,
))
    ensures
        ({
            let own = own_complaints(server, client);
            let theirs = server_complaints(server, client);
            let (a, b) = out;
            &&& own.len() == a.len()
            &&& theirs.len() == b.len()
            &&& forall|k: int|
                0 <= k < a.len() ==> 0 <= #[trigger] a[k] < client.len() && Some(own[k])
                    == own_complaint(server, client[a[k]])
            &&& forall|k: int|
                0 <= k < b.len() ==> 0 <= #[trigger] b[k] < server.len() && Some(theirs[k])
                    == server_complaint(client, server[b[k]])
            &&& forall|j: int, k: int|
                0 <= j < k < a.len() ==> (#[trigger] a[j]) < (#[trigger] a[k])
            &&& forall|j: int, k: int|
                0 <= j < k < b.len() ==> (#[trigger] b[j]) < (#[trigger] b[k])
            &&& forall|i: int|
                0 <= i < client.len() ==> (#[trigger] a.contains(i) <==> !known_alike(
                    server,
                    client[i],
                ))
            &&& forall|i: int|
                0 <= i < server.len() ==> (#[trigger] b.contains(i) <==> row_named(
                    client,
                    server[i].name,
                ) is None)
        }),
{
    (own_named(server, client), theirs_named(server, client))
}

/// This end's side of the difference.
proof fn own_named(server: Seq<RowView>, client: Seq<RowView>) -> (at: Seq<int>)
    ensures
        own_complaints(server, client).len() == at.len(),
        forall|k: int|
            0 <= k < at.len() ==> 0 <= #[trigger] at[k] < client.len() && Some(
                own_complaints(server, client)[k],
            ) == own_complaint(server, client[at[k]]),
        forall|j: int, k: int| 0 <= j < k < at.len() ==> (#[trigger] at[j]) < (#[trigger] at[k]),
        forall|i: int|
            0 <= i < client.len() ==> (#[trigger] at.contains(i) <==> !known_alike(
                server,
                client[i],
            )),
    decreases client.len(),
{
    if client.len() == 0 {
        Seq::empty()
    } else {
        let init = client.drop_last();
        let before = own_named(server, init);
        let n = client.len() - 1;
        let at = if own_complaint(server, client[n]) is Some {
            before.push(n)
        } else {
            before
        };
        assert forall|k: int| 0 <= k < at.len() implies 0 <= #[trigger] at[k] < client.len()
            && Some(own_complaints(server, client)[k]) == own_complaint(server, client[at[k]]) by {
            if k < before.len() {
                assert(at[k] == before[k]);
                assert(init[before[k]] == client[at[k]]);
            }
        }
        assert forall|j: int, k: int| 0 <= j < k < at.len() implies (#[trigger] at[j]) < (
        #[trigger] at[k]) by {
            assert(at[j] == before[j]);
            if k < before.len() {
                assert(at[k] == before[k]);
            }
        }
        assert forall|i: int| 0 <= i < client.len() implies (#[trigger] at.contains(i)
            <==> !known_alike(server, client[i])) by {
            crate::sort::contains_push(before, n, i);
            if i < n {
                assert(before.contains(i) <==> !known_alike(server, init[i]));
            } else if before.contains(i) {
                let k = choose|k: int| 0 <= k < before.len() && before[k] == i;
                assert(before[k] < init.len());
            }
        }
        at
    }
}

/// The server's side of the difference.
proof fn theirs_named(server: Seq<RowView>, client: Seq<RowView>) -> (at: Seq<int>)
    ensures
        server_complaints(server, client).len() == at.len(),
        forall|k: int|
            0 <= k < at.len() ==> 0 <= #[trigger] at[k] < server.len() && Some(
                server_complaints(server, client)[k],
            ) == server_complaint(client, server[at[k]]),
        forall|j: int, k: int| 0 <= j < k < at.len() ==> (#[trigger] at[j]) < (#[trigger] at[k]),
        forall|i: int|
            0 <= i < server.len() ==> (#[trigger] at.contains(i) <==> row_named(
                client,
                server[i].name,
            ) is None),
    decreases server.len(),
{
    if server.len() == 0 {
        Seq::empty()
    } else {
        let init = server.drop_last();
        let before = theirs_named(init, client);
        let n = server.len() - 1;
        let at = if server_complaint(client, server[n]) is Some {
            before.push(n)
        } else {
            before
        };
        assert forall|k: int| 0 <= k < at.len() implies 0 <= #[trigger] at[k] < server.len()
            && Some(server_complaints(server, client)[k]) == server_complaint(
            client,
            server[at[k]],
        ) by {
            if k < before.len() {
                assert(at[k] == before[k]);
                assert(init[before[k]] == server[at[k]]);
            }
        }
        assert forall|j: int, k: int| 0 <= j < k < at.len() implies (#[trigger] at[j]) < (
        #[trigger] at[k]) by {
            assert(at[j] == before[j]);
            if k < before.len() {
                assert(at[k] == before[k]);
            }
        }
        assert forall|i: int| 0 <= i < server.len() implies (#[trigger] at.contains(i)
            <==> row_named(client, server[i].name) is None) by {
            crate::sort::contains_push(before, n, i);
            if i < n {
                assert(before.contains(i) <==> row_named(client, init[i].name) is None);
            } else if before.contains(i) {
                let k = choose|k: int| 0 <= k < before.len() && before[k] == i;
                assert(before[k] < init.len());
            }
        }
        at
    }
}

/// A schema lists its rows by name, byte by byte, every row once.
pub proof fn schemas_list_rows_by_name(rows: Seq<SchemaRow>)
    ensures
        stable_sort(rows).len() == rows.len(),
        forall|r: SchemaRow| #[trigger] stable_sort(rows).contains(r) <==> rows.contains(r),
        forall|i: int, j: int|
            0 <= i < j < rows.len() ==> lex_le(
                utf8((#[trigger] stable_sort(rows)[i]).name@),
                utf8((#[trigger] stable_sort(rows)[j]).name@),
            ),
        schema_bytes(rows) == rows_bytes(row_views(stable_sort(rows))),
{
    stable_sort_exists(rows);
    crate::sort::stable_sort_members(stable_sort(rows), rows);
}

/// What a schema row says: its kind's letter, its name behind the name's
/// length, its width and its hash.
pub proof fn schema_rows_are_laid_out(r: RowView)
    requires
        utf8(r.name).len() <= u16::MAX,
        r.size <= u32::MAX,
    ensures
        ({
            let b = schema_part(r);
            let n = utf8(r.name).len() as int;
            &&& b.len() == 15 + n
            &&& b[0] == r.kind
            &&& un16(b.subrange(1, 3)) == n
            &&& b.subrange(3, 3 + n) == utf8(r.name)
            &&& un32(b.subrange(3 + n, 7 + n)) == r.size
            &&& un64(b.subrange(7 + n, 15 + n)) == r.hash
        }),
{
    reveal(schema_part);
    let b = schema_part(r);
    let n = utf8(r.name).len() as int;
    let len = utf8(r.name).len() as u16;
    le16_round_trip(len);
    le32_round_trip(r.size as u32);
    le64_round_trip(r.hash);
    let a = seq![r.kind] + le16(len);
    let c = a + utf8(r.name);
    assert(b == c + le32(r.size as u32) + le64(r.hash));
    assert(a.subrange(1, 3) =~= le16(len));
    assert(b.subrange(1, 3) =~= a.subrange(1, 3));
    assert(c.subrange(3, 3 + n) =~= utf8(r.name));
    assert(b.subrange(3, 3 + n) =~= c.subrange(3, 3 + n));
    assert(b.subrange(3 + n, 7 + n) =~= le32(r.size as u32));
    assert(b.subrange(7 + n, 15 + n) =~= le64(r.hash));
}

} // verus!
