//! Per-peer, per-pool replication state and the packer.
//!
//! For every entity slot the server tracks the change tick a peer last
//! *confirmed* (acked a send carrying it) and the change tick currently *in
//! flight* (sent, ack pending). A row needs sending exactly when it changed
//! past both. Change-sparse pools converge to silence; change-dense pools
//! rotate through the byte budget via the cursor — same bookkeeping,
//! opposite emergent behaviour.

use vstd::prelude::*;

use crate::id::Id;
use crate::paged::PagedArray;
use crate::pool::{Entry, ErasedPool, Pool};
use crate::sort::{filter_members, filter_push};
use crate::snapshot::{cat, cat_push, row_part};
use crate::wire::{put32, put_bytes};

verus! {

/// What one send carried of one row: which pool, which slot, which change.
#[derive(Copy, Clone, Debug, PartialEq, Eq, Structural)]
pub struct SentEntry {
    pub pool: u16,
    pub slot: u32,
    pub tick: u32,
}

/// A replicated pool as the packer sees it: parallel columns of ids, change
/// ticks and value bytes.
#[verifier::ext_equal]
pub struct WireView {
    pub rows: Seq<Id>,
    pub ticks: Seq<u32>,
    pub values: Seq<Seq<u8>>,
    pub size: nat,
}

impl WireView {
    /// The columns run in parallel, every value has the pool's size and no
    /// two rows share a slot.
    pub open spec fn wf(self) -> bool {
        &&& self.rows.len() == self.ticks.len()
        &&& self.rows.len() == self.values.len()
        &&& self.rows.len() <= 0x100_0000
        &&& self.size + 4 <= usize::MAX
        &&& forall|i: int| 0 <= i < self.values.len() ==> (#[trigger] self.values[i]).len() == self.size
        &&& forall|i: int, j: int|
            0 <= i < self.rows.len() && 0 <= j < self.rows.len() && i != j ==> (
            #[trigger] self.rows[i]).slot_of() != (#[trigger] self.rows[j]).slot_of()
    }
}

/// A pool whose values have a fixed-size byte form.
pub trait WirePool: ErasedPool {
    /// The columns the packer reads.
    spec fn wire(&self) -> WireView;

    /// A well-formed pool has well-formed columns over its rows.
    proof fn wire_wf(&self)
        requires
            self.erased_wf(),
        ensures
            self.wire().wf(),
            self.wire().rows == self.rows(),
    ;

    /// Bytes per value.
    fn value_size(&self) -> (r: usize)
        requires
            self.erased_wf(),
        ensures
            r == self.wire().size,
    ;

    /// When the row at a dense position last changed.
    fn changed_at(&self, i: usize) -> (r: u32)
        requires
            self.erased_wf(),
            i < self.rows().len(),
        ensures
            r == self.wire().ticks[i as int],
    ;

    /// Append the value bytes of the row at a dense position.
    fn put_value(&self, i: usize, out: &mut Vec<u8>)
        requires
            self.erased_wf(),
            i < self.rows().len(),
        ensures
            final(out)@ == old(out)@ + self.wire().values[i as int],
    ;

    /// Write a row from its byte form, creating it when absent and replacing
    /// the slot's previous occupant when a newer handle arrives.
    fn wire_add(&mut self, id: Id, bytes: &[u8])
        requires
            old(self).erased_wf(),
            bytes@.len() == old(self).wire().size,
        ensures
            final(self).erased_wf(),
            final(self).wire().size == old(self).wire().size,
            final(self).erased_locked() == old(self).erased_locked(),
            final(self).erased_stamp() == old(self).erased_stamp(),
            table_of(final(self).wire()) == table_of(old(self).wire()).insert(
                id.slot_of(),
                (WireRow { id, tick: old(self).erased_stamp(), value: bytes@ }),
            ),
    ;
}

/// One row of a pool: its handle, when it last changed, its value bytes.
#[verifier::ext_equal]
pub struct WireRow {
    pub id: Id,
    pub tick: u32,
    pub value: Seq<u8>,
}

/// The rows of a pool by slot.
pub open spec fn table_of(w: WireView) -> Map<u32, WireRow> {
    Map::new(
        |s: u32| exists|i: int| 0 <= i < w.rows.len() && (#[trigger] w.rows[i]).slot_of() == s,
        |s: u32|
            {
                let i = choose|i: int|
                    0 <= i < w.rows.len() && (#[trigger] w.rows[i]).slot_of() == s;
                WireRow { id: w.rows[i], tick: w.ticks[i], value: w.values[i] }
            },
    )
}

/// The table holds each row under its slot.
pub proof fn table_of_row(w: WireView, i: int)
    requires
        w.wf(),
        0 <= i < w.rows.len(),
    ensures
        table_of(w).contains_key(w.rows[i].slot_of()),
        table_of(w)[w.rows[i].slot_of()] == (WireRow {
            id: w.rows[i],
            tick: w.ticks[i],
            value: w.values[i],
        }),
{
    let s = w.rows[i].slot_of();
    let j = choose|j: int| 0 <= j < w.rows.len() && (#[trigger] w.rows[j]).slot_of() == s;
    assert(w.rows[j].slot_of() == s);
    if j != i {
        assert(w.rows[i].slot_of() != w.rows[j].slot_of());
    }
}

/// Fixed-size byte values: the wire form of a pool.
pub struct BytePool {
    size: usize,
    pool: Pool<Vec<u8>>,
}

impl BytePool {
    /// The rows.
    pub closed spec fn inner(&self) -> Pool<Vec<u8>> {
        self.pool
    }

    /// Bytes per value.
    pub closed spec fn width(&self) -> usize {
        self.size
    }

    /// The pool is well-formed and every value has the declared size.
    pub open spec fn wf(&self) -> bool {
        &&& self.inner().wf()
        &&& self.width() + 4 <= usize::MAX
        &&& forall|s: u32| #[trigger]
            self.inner()@.contains_key(s) ==> self.inner()@[s].value@.len() == self.width()
    }

    /// An empty pool of values `size` bytes long.
    pub fn new(size: usize) -> (r: Self)
        requires
            size + 4 <= usize::MAX,
        ensures
            r.wf(),
            r.width() == size,
            r.inner()@ == Map::<u32, Entry<Vec<u8>>>::empty(),
            r.rows().len() == 0,
            !r.erased_locked(),
    {
        BytePool { size, pool: Pool::new() }
    }

    /// The rows.
    pub fn rows_ref(&self) -> (r: &Pool<Vec<u8>>)
        ensures
            *r == self.inner(),
    {
        &self.pool
    }

    /// Write a row; the value must have the declared size.
    pub fn add(&mut self, id: Id, value: Vec<u8>)
        requires
            old(self).wf(),
            value@.len() == old(self).width(),
        ensures
            final(self).wf(),
            final(self).width() == old(self).width(),
            final(self).inner()@ == old(self).inner()@.insert(
                id.slot_of(),
                Entry { id, value, tick: old(self).inner().stamp() },
            ),
            final(self).inner().stamp() == old(self).inner().stamp(),
            final(self).inner().is_locked() == old(self).inner().is_locked(),
    {
        self.pool.add(id, value);
    }

    /// Drop a row; a stale handle removes nothing.
    pub fn remove(&mut self, id: Id) -> (r: bool)
        requires
            old(self).wf(),
        ensures
            final(self).wf(),
            final(self).width() == old(self).width(),
            r == old(self).inner().has(id),
            final(self).inner()@ == if r {
                old(self).inner()@.remove(id.slot_of())
            } else {
                old(self).inner()@
            },
            final(self).inner().stamp() == old(self).inner().stamp(),
            final(self).inner().is_locked() == old(self).inner().is_locked(),
    {
        self.pool.remove(id)
    }
}

impl ErasedPool for BytePool {
    type Row = Entry<Vec<u8>>;

    open spec fn table(&self) -> Map<u32, Entry<Vec<u8>>> {
        self.inner()@
    }

    open spec fn erased_size(&self) -> Option<nat> {
        Some(self.width() as nat)
    }

    open spec fn erased_wf(&self) -> bool {
        self.wf()
    }

    open spec fn rows(&self) -> Seq<Id> {
        self.inner().dense_ids()
    }

    open spec fn erased_locked(&self) -> bool {
        self.inner().is_locked()
    }

    open spec fn erased_stamp(&self) -> u32 {
        self.inner().stamp()
    }

    fn erased_tick_set(&mut self, tick: u32) {
        self.pool.tick_set(tick);
    }

    fn erased_lock(&mut self) {
        self.pool.lock();
    }

    fn erased_remove(&mut self, id: Id) {
        if !self.pool.locked() {
            self.pool.remove(id);
            proof {
                Pool::remove_rows(&old(self).pool, &self.pool, id);
                old(self).pool.has_iff_row();
                assert(old(self).pool.has(id) == old(self).pool.dense_ids().contains(id));
            }
        }
    }

    fn erased_count(&self) -> (r: usize) {
        self.pool.len()
    }

    fn erased_id(&self, i: usize) -> (r: Id) {
        self.pool.erased_id(i)
    }
}

impl BytePool {
    /// The wire table is the pool's own rows, by slot.
    proof fn table_is_inner(&self)
        requires
            self.wf(),
        ensures
            table_of(self.wire()) == Map::new(
                |s: u32| self.inner()@.contains_key(s),
                |s: u32|
                    WireRow {
                        id: self.inner()@[s].id,
                        tick: self.inner()@[s].tick,
                        value: self.inner()@[s].value@,
                    },
            ),
    {
        let p = self.inner();
        let w = self.wire();
        p.wf_columns_agree();
        self.wire_wf();
        let t = Map::new(
            |s: u32| p@.contains_key(s),
            |s: u32| WireRow { id: p@[s].id, tick: p@[s].tick, value: p@[s].value@ },
        );
        assert forall|s: u32| #[trigger] table_of(w).contains_key(s) <==> t.contains_key(s) by {
            if t.contains_key(s) {
                let id = p@[s].id;
                assert(p.dense_ids().contains(id));
                let i = choose|i: int| 0 <= i < p.dense_ids().len() && p.dense_ids()[i] == id;
                assert(w.rows[i].slot_of() == s);
            }
            if table_of(w).contains_key(s) {
                let i = choose|i: int|
                    0 <= i < w.rows.len() && (#[trigger] w.rows[i]).slot_of() == s;
                assert(p@.contains_key(p.dense_ids()[i].slot_of()));
            }
        }
        assert forall|s: u32| #[trigger] table_of(w).contains_key(s) implies table_of(w)[s]
            == t[s] by {
            let i = choose|i: int| 0 <= i < w.rows.len() && (#[trigger] w.rows[i]).slot_of() == s;
            table_of_row(w, i);
            assert(p@[p.dense_ids()[i].slot_of()].value == p.dense_values()[i]);
        }
        assert(table_of(w) =~= t);
    }
}

impl WirePool for BytePool {
    open spec fn wire(&self) -> WireView {
        WireView {
            rows: self.inner().dense_ids(),
            ticks: self.inner().dense_ticks(),
            values: self.inner().dense_values().map_values(|v: Vec<u8>| v@),
            size: self.width() as nat,
        }
    }

    proof fn wire_wf(&self) {
        self.inner().wf_columns_agree();
        let w = self.wire();
        assert forall|i: int| 0 <= i < w.values.len() implies (#[trigger] w.values[i]).len()
            == w.size by {
            let id = self.inner().dense_ids()[i];
            assert(self.inner()@.contains_key(id.slot_of()));
            assert(self.inner()@[id.slot_of()].value == self.inner().dense_values()[i]);
        }
    }

    fn value_size(&self) -> (r: usize) {
        self.size
    }

    fn changed_at(&self, i: usize) -> (r: u32) {
        proof {
            self.inner().wf_columns_agree();
        }
        self.pool.changed_ticks()[i]
    }

    fn put_value(&self, i: usize, out: &mut Vec<u8>) {
        proof {
            self.inner().wf_columns_agree();
        }
        put_bytes(out, self.pool.values()[i].as_slice());
    }

    fn wire_add(&mut self, id: Id, bytes: &[u8]) {
        let value: Vec<u8> = crate::text::copy_bytes(bytes);
        proof {
            self.table_is_inner();
        }
        self.add(id, value);
        proof {
            self.table_is_inner();
            assert(table_of(self.wire()) =~= table_of(old(self).wire()).insert(
                id.slot_of(),
                WireRow { id, tick: old(self).erased_stamp(), value: bytes@ },
            ));
        }
    }
}

/// One peer's delta cursors over one pool, as contracts see them: per slot
/// the confirmed change, the change in flight and the send it flies with
/// (0 = none), and the dense position the rotation resumes at.
#[verifier::ext_equal]
pub struct CursorView {
    pub confirmed: Map<u32, u32>,
    pub flying: Map<u32, u32>,
    pub flying_seq: Map<u32, u32>,
    pub cursor: nat,
}

impl CursorView {
    /// Nothing confirmed, nothing in flight.
    pub open spec fn fresh() -> CursorView {
        CursorView {
            confirmed: Map::new(|s: u32| true, |s: u32| 0u32),
            flying: Map::new(|s: u32| true, |s: u32| 0u32),
            flying_seq: Map::new(|s: u32| true, |s: u32| 0u32),
            cursor: 0,
        }
    }

    /// A row needs sending exactly when it changed past what is confirmed
    /// and past what is in flight.
    pub open spec fn dirty(self, slot: u32, tick: u32) -> bool {
        tick > self.confirmed[slot] && tick > self.flying[slot]
    }

    /// Whether row `i` of the pool needs sending.
    pub open spec fn row_dirty(self, w: WireView) -> spec_fn(int) -> bool {
        |i: int| self.dirty(w.rows[i].slot_of(), w.ticks[i])
    }

    /// The cursors with these rows put in flight under send `seq`.
    pub open spec fn launch(self, w: WireView, picked: Seq<int>, seq: u32) -> CursorView
        decreases picked.len(),
    {
        if picked.len() == 0 {
            self
        } else {
            let p = self.launch(w, picked.drop_last(), seq);
            let i = picked.last();
            CursorView {
                flying: p.flying.insert(w.rows[i].slot_of(), w.ticks[i]),
                flying_seq: p.flying_seq.insert(w.rows[i].slot_of(), seq),
                ..p
            }
        }
    }

    /// Where the rotation starts: the cursor, or the front when the pool
    /// shrank below it.
    pub open spec fn start(self, n: nat) -> nat {
        if self.cursor >= n {
            0
        } else {
            self.cursor
        }
    }

    /// The rows that need sending, in rotation order.
    pub open spec fn backlog(self, w: WireView) -> Seq<int> {
        rotation(w.rows.len(), self.start(w.rows.len())).filter(self.row_dirty(w))
    }
}

/// Every position once, starting at `start` and wrapping.
pub open spec fn rotation(n: nat, start: nat) -> Seq<int> {
    Seq::new(
        n,
        |k: int|
            if start + k < n {
                start + k
            } else {
                start + k - n
            },
    )
}

/// What packing one pool into a snapshot did.
#[verifier::ext_equal]
pub struct Packed {
    /// Dense positions of the rows packed, in order.
    pub picked: Seq<int>,
    /// The cursors afterwards.
    pub cursors: CursorView,
    /// Bytes left of the budget.
    pub budget: nat,
    /// Whether rows that need sending did not fit.
    pub more: bool,
}

/// Pack the backlog in rotation order while the budget lasts. What does not
/// fit stays unconfirmed, and the next packing resumes there.
pub open spec fn pack(pp: CursorView, w: WireView, seq: u32, budget: nat) -> Packed {
    let backlog = pp.backlog(w);
    let entry = (4 + w.size) as nat;
    let room = budget / entry;
    let m = if room < backlog.len() {
        room
    } else {
        backlog.len()
    };
    let picked = backlog.take(m as int);
    Packed {
        picked,
        cursors: CursorView {
            cursor: if w.rows.len() == 0 {
                pp.cursor
            } else if m < backlog.len() {
                backlog[m as int] as nat
            } else {
                pp.start(w.rows.len())
            },
            ..pp.launch(w, picked, seq)
        },
        budget: (budget - m * entry) as nat,
        more: m < backlog.len(),
    }
}

/// These rows as a snapshot carries them: id and value bytes each.
pub open spec fn picked_rows(w: WireView, picked: Seq<int>) -> Seq<(u32, Seq<u8>)> {
    picked.map_values(|i: int| (w.rows[i].0, w.values[i]))
}

/// The bytes of these rows: each `[id u32][value]`.
pub open spec fn row_bytes(w: WireView, picked: Seq<int>) -> Seq<u8> {
    cat(picked_rows(w, picked).map_values(|r: (u32, Seq<u8>)| row_part(r)))
}

/// One row more adds its bytes behind.
pub proof fn row_bytes_push(w: WireView, picked: Seq<int>, i: int)
    ensures
        row_bytes(w, picked.push(i)) == row_bytes(w, picked) + row_part((w.rows[i].0, w.values[i])),
{
    let f = |r: (u32, Seq<u8>)| row_part(r);
    let parts = picked_rows(w, picked).map_values(f);
    assert(picked_rows(w, picked.push(i)).map_values(f) =~= parts.push(
        row_part((w.rows[i].0, w.values[i])),
    ));
    cat_push(parts, row_part((w.rows[i].0, w.values[i])));
}

/// Rows of one size take that many bytes each.
pub proof fn row_bytes_len(w: WireView, picked: Seq<int>)
    requires
        w.wf(),
        forall|k: int| 0 <= k < picked.len() ==> 0 <= #[trigger] picked[k] < w.rows.len(),
    ensures
        row_bytes(w, picked).len() == picked.len() * (4 + w.size),
    decreases picked.len(),
{
    if picked.len() == 0 {
        assert(row_bytes(w, picked).len() == 0);
        assert(0 * (4 + w.size) == 0) by (nonlinear_arith);
    } else {
        let init = picked.drop_last();
        assert(picked =~= init.push(picked.last()));
        assert forall|k: int| 0 <= k < init.len() implies 0 <= #[trigger] init[k]
            < w.rows.len() by {
            assert(init[k] == picked[k]);
        }
        row_bytes_len(w, init);
        row_bytes_push(w, init, picked.last());
        assert(0 <= picked[picked.len() - 1] < w.rows.len());
        assert((init.len() + 1) * (4 + w.size) == init.len() * (4 + w.size) + (4 + w.size))
            by (nonlinear_arith);
    }
}

/// The send record of these rows.
pub open spec fn row_records(w: WireView, picked: Seq<int>, pool: u16) -> Seq<SentEntry> {
    picked.map_values(
        |i: int| SentEntry { pool, slot: w.rows[i].slot_of(), tick: w.ticks[i] },
    )
}

/// How many rows need sending.
pub open spec fn dirty_count(pp: CursorView, w: WireView, upto: int) -> nat
    decreases upto,
{
    if upto <= 0 {
        0
    } else {
        dirty_count(pp, w, upto - 1) + if pp.row_dirty(w)(upto - 1) {
            1nat
        } else {
            0nat
        }
    }
}

/// Rows other than the launched ones keep their cursors.
proof fn launch_frame(pp: CursorView, w: WireView, picked: Seq<int>, seq: u32, s: u32)
    requires
        forall|k: int| 0 <= k < picked.len() ==> w.rows[#[trigger] picked[k]].slot_of() != s,
    ensures
        pp.launch(w, picked, seq).flying[s] == pp.flying[s],
        pp.launch(w, picked, seq).flying_seq[s] == pp.flying_seq[s],
        pp.launch(w, picked, seq).confirmed == pp.confirmed,
        pp.launch(w, picked, seq).cursor == pp.cursor,
    decreases picked.len(),
{
    if picked.len() > 0 {
        let init = picked.drop_last();
        assert forall|k: int| 0 <= k < init.len() implies w.rows[#[trigger] init[k]].slot_of()
            != s by {
            assert(init[k] == picked[k]);
        }
        launch_frame(pp, w, init, seq, s);
        assert(w.rows[picked[picked.len() - 1]].slot_of() != s);
    }
}

/// Launching leaves the confirmations and the rotation alone.
pub proof fn launch_keeps_confirmed(pp: CursorView, w: WireView, picked: Seq<int>, seq: u32)
    ensures
        pp.launch(w, picked, seq).confirmed == pp.confirmed,
        pp.launch(w, picked, seq).cursor == pp.cursor,
    decreases picked.len(),
{
    if picked.len() > 0 {
        launch_keeps_confirmed(pp, w, picked.drop_last(), seq);
    }
}

/// A rotation visits every position once.
pub proof fn rotation_visits_once(n: nat, start: nat)
    requires
        start < n,
    ensures
        rotation(n, start).no_duplicates(),
        forall|k: int| 0 <= k < n ==> 0 <= #[trigger] rotation(n, start)[k] < n,
        forall|i: int| 0 <= i < n ==> #[trigger] rotation(n, start).contains(i),
{
    assert forall|i: int| 0 <= i < n implies #[trigger] rotation(n, start).contains(i) by {
        let k = if i >= start {
            i - start
        } else {
            i - start + n
        };
        assert(rotation(n, start)[k] == i);
    }
}

/// One peer's delta cursors over one pool.
pub struct PeerPool {
    confirmed: PagedArray<u32>,
    inflight_tick: PagedArray<u32>,
    inflight_seq: PagedArray<u32>,
    cursor: usize,
}

impl View for PeerPool {
    type V = CursorView;

    closed spec fn view(&self) -> CursorView {
        CursorView {
            confirmed: Map::new(|s: u32| true, |s: u32| self.confirmed.at(s)),
            flying: Map::new(|s: u32| true, |s: u32| self.inflight_tick.at(s)),
            flying_seq: Map::new(|s: u32| true, |s: u32| self.inflight_seq.at(s)),
            cursor: self.cursor as nat,
        }
    }
}

impl PeerPool {
    /// The three tables are well-formed.
    pub closed spec fn wf(&self) -> bool {
        &&& self.confirmed.wf()
        &&& self.inflight_tick.wf()
        &&& self.inflight_seq.wf()
    }

    /// Cursors that have everything to send.
    pub fn new() -> (r: Self)
        ensures
            r.wf(),
            r@ == CursorView::fresh(),
    {
        let r = PeerPool {
            confirmed: PagedArray::new(0u32),
            inflight_tick: PagedArray::new(0u32),
            inflight_seq: PagedArray::new(0u32),
            cursor: 0,
        };
        assert(r@ =~= CursorView::fresh());
        r
    }

    /// Whether a row changed past what is confirmed and in flight.
    fn needs(&self, slot: u32, tick: u32) -> (r: bool)
        requires
            self.wf(),
        ensures
            r == self@.dirty(slot, tick),
    {
        tick > self.confirmed.get(slot) && tick > self.inflight_tick.get(slot)
    }

    /// Put one row in flight under send `seq`.
    fn launch_row(&mut self, slot: u32, tick: u32, seq: u32)
        requires
            old(self).wf(),
        ensures
            final(self).wf(),
            final(self)@ == (CursorView {
                flying: old(self)@.flying.insert(slot, tick),
                flying_seq: old(self)@.flying_seq.insert(slot, seq),
                ..old(self)@
            }),
    {
        broadcast use vstd::laws_eq::group_laws_eq;

        self.inflight_tick.set(slot, tick);
        self.inflight_seq.set(slot, seq);
        assert(self@ =~= CursorView {
            flying: old(self)@.flying.insert(slot, tick),
            flying_seq: old(self)@.flying_seq.insert(slot, seq),
            ..old(self)@
        });
    }

    /// Settle one sent row: confirm its change if the send was received, and
    /// either way clear its in-flight mark unless a newer send superseded it.
    pub fn settle_row(&mut self, slot: u32, tick: u32, seq: u32, received: bool)
        requires
            old(self).wf(),
        ensures
            final(self).wf(),
            final(self)@ == settled(old(self)@, slot, tick, seq, received),
    {
        broadcast use vstd::laws_eq::group_laws_eq;

        if received {
            let c: u32 = self.confirmed.get(slot);
            if tick > c {
                self.confirmed.set(slot, tick);
            }
        }
        if self.inflight_seq.get(slot) == seq {
            self.inflight_tick.set(slot, 0);
            self.inflight_seq.set(slot, 0);
        }
        assert(self@ =~= settled(old(self)@, slot, tick, seq, received));
    }

    /// How many of the pool's rows need sending.
    pub fn count_dirty<P: WirePool>(&self, pool: &P) -> (r: usize)
        requires
            self.wf(),
            pool.erased_wf(),
        ensures
            r == dirty_count(self@, pool.wire(), pool.wire().rows.len() as int),
    {
        proof {
            pool.wire_wf();
        }
        let n: usize = pool.erased_count();
        let mut i: usize = 0;
        let mut count: usize = 0;
        while i < n
            invariant
                self.wf(),
                pool.erased_wf(),
                i <= n,
                n == pool.rows().len(),
                pool.wire().rows == pool.rows(),
                count <= i,
                count == dirty_count(self@, pool.wire(), i as int),
            decreases n - i,
        {
            if self.needs(pool.erased_id(i).slot(), pool.changed_at(i)) {
                count += 1;
            }
            i += 1;
        }
        count
    }

    /// Append `[id u32][value]` rows the peer hasn't confirmed, in rotation
    /// order, while `budget` lasts; returns how many, and whether some were
    /// left behind. Each packed row is recorded in `sent` and goes in flight
    /// under send `seq`.
    #[verifier::rlimit(30)]
    pub fn pack_dirty<P: WirePool>(
        &mut self,
        pool: &P,
        seq: u32,
        pool_idx: u16,
        budget: &mut usize,
        out: &mut Vec<u8>,
        sent: &mut Vec<SentEntry>,
    ) -> (r: (u32, bool))
        requires
            old(self).wf(),
            pool.erased_wf(),
        ensures
            final(self).wf(),
            ({
                let p = pack(old(self)@, pool.wire(), seq, *old(budget) as nat);
                &&& final(self)@ == p.cursors
                &&& *final(budget) == p.budget
                &&& final(out)@ == old(out)@ + row_bytes(pool.wire(), p.picked)
                &&& final(sent)@ == old(sent)@ + row_records(pool.wire(), p.picked, pool_idx)
                &&& r.0 == p.picked.len()
                &&& r.1 == p.more
            }),
    {
        proof {
            pool.wire_wf();
        }
        let ghost w = pool.wire();
        let ghost pp0 = self@;
        let ghost budget0 = *budget as nat;
        let ghost out0 = out@;
        let ghost sent0 = sent@;
        let n: usize = pool.erased_count();
        let entry: usize = 4 + pool.value_size();
        let ghost order = rotation(w.rows.len(), pp0.start(w.rows.len()));
        let ghost f = pp0.row_dirty(w);
        let start: usize = if self.cursor >= n {
            0
        } else {
            self.cursor
        };
        if n == 0 {
            proof {
                assert(order =~= Seq::<int>::empty());
                reveal(Seq::filter);
                assert(pp0.backlog(w) =~= Seq::<int>::empty());
                let p = pack(pp0, w, seq, budget0);
                assert(p.picked =~= Seq::<int>::empty());
                assert(out@ =~= out0 + row_bytes(w, p.picked));
                assert(sent@ =~= sent0 + row_records(w, p.picked, pool_idx));
                assert(0 * (4 + w.size) == 0) by (nonlinear_arith);
            }
            return (0, false);
        }
        let mut count: u32 = 0;
        let mut resume_at: usize = start;
        let mut more: bool = false;
        let mut k: usize = 0;
        let ghost mut picked: Seq<int> = Seq::empty();
        proof {
            rotation_visits_once(w.rows.len(), start as nat);
            assert(order.take(0) =~= Seq::<int>::empty());
            reveal(Seq::filter);
            assert(order.take(0).filter(f) =~= Seq::<int>::empty());
            assert(out@ =~= out0 + row_bytes(w, picked));
            assert(sent@ =~= sent0 + row_records(w, picked, pool_idx));
            assert(0 * entry == 0) by (nonlinear_arith);
        }
        while k < n && !more
            invariant
                self.wf(),
                pool.erased_wf(),
                w == pool.wire(),
                w.wf(),
                w.rows == pool.rows(),
                n == w.rows.len(),
                n > 0,
                n <= 0x100_0000,
                start < n,
                start == pp0.start(w.rows.len()),
                entry == 4 + w.size,
                order == rotation(w.rows.len(), start as nat),
                order.no_duplicates(),
                forall|j: int| 0 <= j < n ==> 0 <= #[trigger] order[j] < n,
                f == pp0.row_dirty(w),
                k <= n,
                picked == order.take(k as int).filter(f) || more,
                more ==> k < n && picked == order.take(k as int).filter(f) && f(order[k as int])
                    && resume_at == order[k as int] && *budget < entry,
                !more ==> resume_at == start,
                count == picked.len(),
                picked.len() <= k,
                *budget + picked.len() * entry == budget0,
                self@ == pp0.launch(w, picked, seq),
                out@ == out0 + row_bytes(w, picked),
                sent@ == sent0 + row_records(w, picked, pool_idx),
            decreases n - k, (if more { 0int } else { 1int }),
        {
            let i: usize = if start + k < n {
                start + k
            } else {
                start + k - n
            };
            let id: Id = pool.erased_id(i);
            let tick: u32 = pool.changed_at(i);
            let slot: u32 = id.slot();
            proof {
                assert(order[k as int] == i);
                assert(order.take(k + 1) =~= order.take(k as int).push(i as int));
                filter_push(order.take(k as int), i as int, f);
                filter_members(order.take(k as int), f);
                assert forall|j: int| 0 <= j < picked.len() implies w.rows[
                    #[trigger] picked[j]
                ].slot_of() != slot by {
                    assert(picked.contains(picked[j]));
                    let t = choose|t: int|
                        0 <= t < order.take(k as int).len() && order.take(k as int)[t]
                            == picked[j];
                    assert(order[t] == picked[j]);
                    assert(order[t] != order[k as int]);
                    assert(w.rows[picked[j]].slot_of() != w.rows[i as int].slot_of());
                }
                launch_frame(pp0, w, picked, seq, slot);
            }
            if self.needs(slot, tick) {
                if *budget < entry {
                    resume_at = i;
                    more = true;
                } else {
                    *budget = *budget - entry;
                    put32(out, id.0);
                    pool.put_value(i, out);
                    self.launch_row(slot, tick, seq);
                    sent.push(SentEntry { pool: pool_idx, slot, tick });
                    count = count + 1;
                    proof {
                        let next = picked.push(i as int);
                        assert(next.drop_last() =~= picked);
                        row_bytes_push(w, picked, i as int);
                        assert(out@ =~= out0 + row_bytes(w, next));
                        assert(sent@ =~= sent0 + row_records(w, next, pool_idx));
                        assert((picked.len() + 1) * entry == picked.len() * entry + entry)
                            by (nonlinear_arith);
                        picked = next;
                    }
                    k += 1;
                }
            } else {
                k += 1;
            }
        }
        self.cursor = resume_at;
        proof {
            let backlog = pp0.backlog(w);
            let p = pack(pp0, w, seq, budget0);
            let e = entry as int;
            let m = picked.len() as int;
            assert(out@ == out0 + row_bytes(w, picked));
            if more {
                let head = order.take(k as int);
                let rest = order.skip(k as int);
                assert(order =~= head + rest);
                crate::sort::filter_concat(head, rest, f);
                assert(rest =~= seq![order[k as int]] + order.skip(k + 1));
                crate::sort::filter_concat(seq![order[k as int]], order.skip(k + 1), f);
                assert(seq![order[k as int]].filter(f) =~= seq![order[k as int]]) by {
                    crate::sort::filter_all(seq![order[k as int]], f);
                }
                assert(backlog =~= picked + (seq![order[k as int]] + order.skip(k + 1).filter(f)));
                assert(budget0 as int / e == m) by (nonlinear_arith)
                    requires
                        *budget + m * e == budget0,
                        0 <= *budget < e,
                ;
                assert(backlog.take(m) =~= picked);
                assert(backlog[m] == order[k as int]);
            } else {
                assert(order.take(k as int) =~= order);
                assert(backlog == picked);
                assert(m <= budget0 as int / e) by (nonlinear_arith)
                    requires
                        *budget + m * e == budget0,
                        0 <= *budget,
                        e > 0,
                ;
                assert(backlog.take(m) =~= picked);
            }
            assert(p.picked =~= picked);
            launch_keeps_confirmed(pp0, w, picked, seq);
            assert(self@ =~= p.cursors);
        }
        (count, more)
    }
}

/// The cursors after one sent row settled.
pub open spec fn settled(
    pp: CursorView,
    slot: u32,
    tick: u32,
    seq: u32,
    received: bool,
) -> CursorView {
    CursorView {
        confirmed: if received && tick > pp.confirmed[slot] {
            pp.confirmed.insert(slot, tick)
        } else {
            pp.confirmed
        },
        flying: if pp.flying_seq[slot] == seq {
            pp.flying.insert(slot, 0)
        } else {
            pp.flying
        },
        flying_seq: if pp.flying_seq[slot] == seq {
            pp.flying_seq.insert(slot, 0)
        } else {
            pp.flying_seq
        },
        cursor: pp.cursor,
    }
}

/// What packing picks: distinct rows that need sending, as many as the
/// budget pays for, and the budget is spent on exactly those.
pub proof fn pack_spends_exactly(pp: CursorView, w: WireView, seq: u32, budget: nat)
    requires
        w.wf(),
    ensures
        ({
            let p = pack(pp, w, seq, budget);
            &&& p.picked.no_duplicates()
            &&& forall|k: int|
                0 <= k < p.picked.len() ==> 0 <= #[trigger] p.picked[k] < w.rows.len()
                    && pp.row_dirty(w)(p.picked[k])
            &&& row_bytes(w, p.picked).len() + p.budget == budget
            &&& p.picked.len() <= w.rows.len()
            &&& p.more ==> p.budget < 4 + w.size
            &&& !p.more ==> forall|i: int|
                0 <= i < w.rows.len() && pp.row_dirty(w)(i) ==> #[trigger] p.picked.contains(i)
        }),
{
    let n = w.rows.len();
    let order = rotation(n, pp.start(n));
    let f = pp.row_dirty(w);
    let backlog = pp.backlog(w);
    let p = pack(pp, w, seq, budget);
    let e = (4 + w.size) as int;
    let m = p.picked.len() as int;
    if n > 0 {
        rotation_visits_once(n, pp.start(n));
    } else {
        assert(order =~= Seq::<int>::empty());
    }
    filter_members(order, f);
    crate::sort::filter_no_duplicates(order, f);
    assert forall|k: int| 0 <= k < backlog.len() implies 0 <= #[trigger] backlog[k] < n && f(
        backlog[k],
    ) by {
        assert(backlog.contains(backlog[k]));
        let t = choose|t: int| 0 <= t < order.len() && order[t] == backlog[k];
        assert(order[t] == backlog[k]);
    }
    assert forall|k: int| 0 <= k < p.picked.len() implies 0 <= #[trigger] p.picked[k] < n && f(
        p.picked[k],
    ) by {
        assert(p.picked[k] == backlog[k]);
    }
    row_bytes_len(w, p.picked);
    let room = budget as int / e;
    assert(room * e <= budget < (room + 1) * e) by (nonlinear_arith)
        requires
            room == budget as int / e,
            e > 0,
            budget >= 0,
    ;
    assert(m * e <= room * e) by (nonlinear_arith)
        requires
            m <= room,
            e > 0,
    ;
    assert((room + 1) * e == room * e + e) by (nonlinear_arith);
    assert(p.picked.len() <= n) by {
        order.lemma_filter_len(f);
    }
    if !p.more {
        assert(p.picked =~= backlog);
        assert forall|i: int| 0 <= i < n && f(i) implies #[trigger] p.picked.contains(i) by {
            assert(order.contains(i));
        }
    }
}

} // verus!
