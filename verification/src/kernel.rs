//! The Pm kernel: flat task scheduler, named component pools (singletons
//! are just single-entity pools — see `single`), entity id lifecycle with
//! end-of-tick deferred removal.
//!
//! The kernel decides; whoever drives it runs the closures. A tick is
//! `tick_begin`, then the tasks `tick_tasks` hands out in order — each
//! bracketed by `task_enter` and `task_done` — then `tick_end`. A task that
//! reports an error is benched: recorded in `task_faults`, gone from the
//! next tick, and nothing else is affected.
//!
//! Two rules make gameplay tasks compose: `id_add`/`id_remove` never touch
//! pools (removal is DEFERRED to the end of the tick), and tasks added
//! during a tick start on the next one.

use vstd::prelude::*;

use crate::id::{Id, IdAllocator, IdSpace};
use crate::order::{total_key, total_rank};
use crate::pool::{row_removed, ErasedPool};
use crate::sort::{filter_none, filter_push, sort_stable, stable_sort_of, Ranked};
use crate::text::{
    bytes_le, lex_le, lex_total, lex_transitive, opt_text_eq, text_eq, utf8,
};

verus! {

/// One scheduled task: the driver's handle for its closure, the name it is
/// addressed by, the module that owns it and the bit pattern of its
/// priority.
pub struct Task {
    pub token: u64,
    pub name: String,
    pub module: Option<String>,
    pub priority: u32,
    pub faulted: bool,
}

impl Ranked for Task {
    /// Lowest priority first.
    open spec fn rank_le(self, other: Self) -> bool {
        total_rank(self.priority) <= total_rank(other.priority)
    }

    proof fn rank_total(a: Self, b: Self) {
    }

    proof fn rank_transitive(a: Self, b: Self, c: Self) {
    }

    fn may_precede(&self, other: &Self) -> (r: bool) {
        total_key(self.priority) <= total_key(other.priority)
    }
}

/// An engine phase step: the driver's handle for its closure and the name
/// its timings go under. PRESENT steps run before every task, COMMIT steps
/// after the removal flush; games never schedule into either.
pub struct Phase {
    pub token: u64,
    pub name: String,
}

/// Record of a task that returned an error and was benched. The task no
/// longer runs; the rest of the loop is unaffected.
#[derive(Clone, Debug)]
pub struct TaskFault {
    pub task: String,
    pub module: Option<String>,
    pub tick: u32,
    pub error: String,
}

/// Cumulative per-task timing. The counters saturate.
#[derive(Clone, Copy, Debug)]
pub struct TaskStat {
    pub calls: u64,
    pub ns_total: u64,
    pub ns_max: u64,
}

impl Default for TaskStat {
    fn default() -> (r: Self)
        ensures
            r == (TaskStat { calls: 0, ns_total: 0, ns_max: 0 }),
    {
        TaskStat { calls: 0, ns_total: 0, ns_max: 0 }
    }
}

/// A row of the timing table.
pub struct NamedStat {
    pub name: String,
    pub stat: TaskStat,
}

impl Ranked for NamedStat {
    /// Heaviest first.
    open spec fn rank_le(self, other: Self) -> bool {
        self.stat.ns_total >= other.stat.ns_total
    }

    proof fn rank_total(a: Self, b: Self) {
    }

    proof fn rank_transitive(a: Self, b: Self, c: Self) {
    }

    fn may_precede(&self, other: &Self) -> (r: bool) {
        self.stat.ns_total >= other.stat.ns_total
    }
}

/// A pool's name and row count, as `pool_stats` reports it.
pub struct PoolStat {
    pub name: String,
    pub count: usize,
}

impl Ranked for PoolStat {
    /// Largest first, name-ordered within a count.
    open spec fn rank_le(self, other: Self) -> bool {
        self.count > other.count || (self.count == other.count && lex_le(
            utf8(self.name@),
            utf8(other.name@),
        ))
    }

    proof fn rank_total(a: Self, b: Self) {
        lex_total(utf8(a.name@), utf8(b.name@));
    }

    proof fn rank_transitive(a: Self, b: Self, c: Self) {
        if a.count == b.count && b.count == c.count {
            lex_transitive(utf8(a.name@), utf8(b.name@), utf8(c.name@));
        }
    }

    fn may_precede(&self, other: &Self) -> (r: bool) {
        self.count > other.count || (self.count == other.count && bytes_le(
            self.name.as_str().as_bytes(),
            other.name.as_str().as_bytes(),
        ))
    }
}

/// Report rows as plain pairs.
pub open spec fn stat_rows(rows: Seq<PoolStat>) -> Seq<(Seq<char>, nat)> {
    rows.map_values(|r: PoolStat| (r.name@, r.count as nat))
}

/// A pool the kernel knows: its name, the module that first created it (if
/// any), whether it is still in the store, and the pool itself. A pool
/// dropped from the store keeps its position — handles to it go on working —
/// but is found, stamped and flushed no more.
pub struct PoolSlot<P> {
    pub name: String,
    pub owner: Option<String>,
    pub attached: bool,
    pub pool: P,
}

/// The kernel's state as contracts see it.
#[verifier::ext_equal]
pub struct KernelView<P> {
    pub pools: Seq<PoolSlot<P>>,
    pub tasks: Seq<Task>,
    pub present: Seq<Phase>,
    pub commit: Seq<Phase>,
    pub tasks_dirty: bool,
    pub stop_requests: Seq<String>,
    pub replace_requests: Seq<String>,
    pub module_stops: Seq<String>,
    pub current_module: Option<String>,
    pub faults: Seq<TaskFault>,
    pub stats: Seq<NamedStat>,
    pub ids: IdSpace,
    pub pending_removes: Seq<Id>,
    pub removal_log: Seq<(Id, u32)>,
    pub removal_hold: bool,
    pub tick: u32,
    pub quit: bool,
    pub next_token: u64,
    pub loop_rate: u32,
    pub loop_spin_us: u32,
    pub local_peer: u8,
}

/// The kernel over pools of type `P`.
pub struct Pm<P> {
    pools: Vec<PoolSlot<P>>,
    tasks: Vec<Task>,
    present: Vec<Phase>,
    commit: Vec<Phase>,
    tasks_dirty: bool,
    stop_requests: Vec<String>,
    replace_requests: Vec<String>,
    module_stops: Vec<String>,
    current_module: Option<String>,
    faults: Vec<TaskFault>,
    stats: Vec<NamedStat>,
    ids: IdAllocator,
    pending_removes: Vec<Id>,
    removal_log: Vec<(Id, u32)>,
    removal_hold: bool,
    tick: u32,
    quit: bool,
    next_token: u64,
    /// Target ticks per second for the paced loop. 0 = uncapped.
    pub loop_rate: u32,
    /// Max sleep-then-spin margin per tick, in microseconds.
    pub loop_spin_us: u32,
    /// This instance's peer id: 0 = server/single-player; clients get
    /// theirs at handshake. `id_add` allocates in this peer's space, and
    /// only this peer's indices are ever recycled locally.
    pub local_peer: u8,
}

impl<P> View for Pm<P> {
    type V = KernelView<P>;

    closed spec fn view(&self) -> KernelView<P> {
        KernelView {
            pools: self.pools@,
            tasks: self.tasks@,
            present: self.present@,
            commit: self.commit@,
            tasks_dirty: self.tasks_dirty,
            stop_requests: self.stop_requests@,
            replace_requests: self.replace_requests@,
            module_stops: self.module_stops@,
            current_module: self.current_module,
            faults: self.faults@,
            stats: self.stats@,
            ids: self.ids@,
            pending_removes: self.pending_removes@,
            removal_log: self.removal_log@,
            removal_hold: self.removal_hold,
            tick: self.tick,
            quit: self.quit,
            next_token: self.next_token,
            loop_rate: self.loop_rate,
            loop_spin_us: self.loop_spin_us,
            local_peer: self.local_peer,
        }
    }
}

// --- the model -------------------------------------------------------------

/// No two pools in the store share a name.
pub open spec fn pool_names_distinct<P>(pools: Seq<PoolSlot<P>>) -> bool {
    forall|i: int, j: int|
        0 <= i < j < pools.len() && (#[trigger] pools[i]).attached && (
        #[trigger] pools[j]).attached ==> pools[i].name@ != pools[j].name@
}

/// No two rows of the timing table share a name.
pub open spec fn stat_names_distinct(stats: Seq<NamedStat>) -> bool {
    forall|i: int, j: int|
        0 <= i < j < stats.len() ==> (#[trigger] stats[i]).name@ != (#[trigger] stats[j]).name@
}

/// Every pool keeps its own invariant.
pub open spec fn pools_wf<P: ErasedPool>(pools: Seq<PoolSlot<P>>) -> bool {
    forall|i: int| 0 <= i < pools.len() ==> (#[trigger] pools[i]).pool.erased_wf()
}

/// Whether a pool of this name is in the store and has a row.
pub open spec fn has_rows<P: ErasedPool>(pools: Seq<PoolSlot<P>>, name: Seq<char>) -> bool {
    exists|i: int|
        0 <= i < pools.len() && (#[trigger] pools[i]).attached && pools[i].name@ == name
            && pools[i].pool.rows().len() > 0
}

/// Whether a pool of this name is in the store.
pub open spec fn has_pool<P>(pools: Seq<PoolSlot<P>>, name: Seq<char>) -> bool {
    exists|i: int|
        0 <= i < pools.len() && (#[trigger] pools[i]).attached && pools[i].name@ == name
}

/// Passes the tasks not of this name.
pub open spec fn not_named(name: Seq<char>) -> spec_fn(Task) -> bool {
    |t: Task| t.name@ != name
}

/// Passes the tasks no module of this name owns.
pub open spec fn not_of_module(module: Seq<char>) -> spec_fn(Task) -> bool {
    |t: Task| !(t.module matches Some(m) && m@ == module)
}

/// Passes the tasks that did not fault.
pub open spec fn healthy() -> spec_fn(Task) -> bool {
    |t: Task| !t.faulted
}

/// A pool dropped from the store if it is of this name.
pub open spec fn without_name<P>(slot: PoolSlot<P>, name: Seq<char>) -> PoolSlot<P> {
    if slot.name@ == name {
        PoolSlot { attached: false, ..slot }
    } else {
        slot
    }
}

/// A pool dropped from the store if a module of this name owns it.
pub open spec fn without_module<P>(slot: PoolSlot<P>, module: Seq<char>) -> PoolSlot<P> {
    if slot.owner matches Some(m) && m@ == module {
        PoolSlot { attached: false, ..slot }
    } else {
        slot
    }
}

/// The pools with those of this name dropped from the store.
pub open spec fn pools_without_name<P>(pools: Seq<PoolSlot<P>>, name: Seq<char>) -> Seq<
    PoolSlot<P>,
> {
    pools.map_values(|s: PoolSlot<P>| without_name(s, name))
}

/// The pools with those of this module dropped from the store.
pub open spec fn pools_without_module<P>(pools: Seq<PoolSlot<P>>, module: Seq<char>) -> Seq<
    PoolSlot<P>,
> {
    pools.map_values(|s: PoolSlot<P>| without_module(s, module))
}

/// Name and row count of each pool in the store, in creation order.
pub open spec fn attached_counts<P: ErasedPool>(pools: Seq<PoolSlot<P>>) -> Seq<(Seq<char>, nat)>
    decreases pools.len(),
{
    if pools.len() == 0 {
        Seq::empty()
    } else if pools.last().attached {
        attached_counts(pools.drop_last()).push((pools.last().name@, pools.last().pool.rows().len()))
    } else {
        attached_counts(pools.drop_last())
    }
}

/// The tasks with all but the last of this name dropped.
pub open spec fn keep_last(tasks: Seq<Task>, name: Seq<char>) -> Seq<Task>
    decreases tasks.len(),
{
    if tasks.len() == 0 {
        tasks
    } else if tasks.last().name@ == name {
        tasks.drop_last().filter(not_named(name)).push(tasks.last())
    } else {
        keep_last(tasks.drop_last(), name).push(tasks.last())
    }
}

/// `keep_last` for each name in turn.
pub open spec fn keep_last_each(tasks: Seq<Task>, names: Seq<String>) -> Seq<Task>
    decreases names.len(),
{
    if names.len() == 0 {
        tasks
    } else {
        keep_last(keep_last_each(tasks, names.drop_last()), names.last()@)
    }
}

/// The tasks without those of any of these names.
pub open spec fn drop_named_each(tasks: Seq<Task>, names: Seq<String>) -> Seq<Task>
    decreases names.len(),
{
    if names.len() == 0 {
        tasks
    } else {
        drop_named_each(tasks, names.drop_last()).filter(not_named(names.last()@))
    }
}

/// The tasks without those of any of these modules.
pub open spec fn drop_module_each(tasks: Seq<Task>, names: Seq<String>) -> Seq<Task>
    decreases names.len(),
{
    if names.len() == 0 {
        tasks
    } else {
        drop_module_each(tasks, names.drop_last()).filter(not_of_module(names.last()@))
    }
}

/// The task list a tick leaves behind: what ran and did not fault, then what
/// was added meanwhile, less superseded, stopped and torn-down tasks.
pub open spec fn merged_tasks(
    running: Seq<Task>,
    added: Seq<Task>,
    replaced: Seq<String>,
    stopped: Seq<String>,
    modules: Seq<String>,
) -> Seq<Task> {
    drop_module_each(
        drop_named_each(keep_last_each(running.filter(healthy()) + added, replaced), stopped),
        modules,
    )
}

/// The ids the removal flush kills, newest request first: each one that is
/// alive when its turn comes.
pub open spec fn flush_killed(space: IdSpace, pending: Seq<Id>) -> Seq<Id>
    decreases pending.len(),
{
    if pending.len() == 0 {
        Seq::empty()
    } else if space.alive(pending.last()) {
        seq![pending.last()] + flush_killed(space.kill(pending.last()), pending.drop_last())
    } else {
        flush_killed(space, pending.drop_last())
    }
}

/// The id space after killing these ids in order.
pub open spec fn kill_all(space: IdSpace, killed: Seq<Id>) -> IdSpace
    decreases killed.len(),
{
    if killed.len() == 0 {
        space
    } else {
        kill_all(space.kill(killed[0]), killed.drop_first())
    }
}

/// Log rows for a batch of ids removed at one tick.
pub open spec fn stamped(ids: Seq<Id>, tick: u32) -> Seq<(Id, u32)> {
    ids.map_values(|id: Id| (id, tick))
}

/// The removal log and the id space after releasing, from row `i` on, every
/// row stamped at or before `tick`. A released row's place is taken by the
/// log's last row; only indices of `local` are recycled.
pub open spec fn release_from(
    log: Seq<(Id, u32)>,
    space: IdSpace,
    i: int,
    tick: u32,
    local: u8,
) -> (Seq<(Id, u32)>, IdSpace)
    decreases log.len() - i,
{
    if i < 0 || i >= log.len() {
        (log, space)
    } else if log[i].1 <= tick {
        release_from(
            log.update(i, log.last()).drop_last(),
            if log[i].0.peer_of() == local {
                space.release(log[i].0)
            } else {
                space
            },
            i,
            tick,
            local,
        )
    } else {
        release_from(log, space, i + 1, tick, local)
    }
}

/// Adding without passing the 64-bit range.
pub open spec fn saturated(a: u64, b: u64) -> u64 {
    if a + b > u64::MAX {
        u64::MAX
    } else {
        (a + b) as u64
    }
}

/// A timing row after one more run of `ns` nanoseconds.
pub open spec fn stat_after(s: TaskStat, ns: u64) -> TaskStat {
    TaskStat {
        calls: saturated(s.calls, 1),
        ns_total: saturated(s.ns_total, ns),
        ns_max: if ns > s.ns_max {
            ns
        } else {
            s.ns_max
        },
    }
}

/// The timing table after one more run of the named task.
pub open spec fn stats_after(
    before: Seq<NamedStat>,
    after: Seq<NamedStat>,
    name: Seq<char>,
    ns: u64,
) -> bool {
    if exists|i: int| 0 <= i < before.len() && (#[trigger] before[i]).name@ == name {
        &&& after.len() == before.len()
        &&& forall|i: int|
            0 <= i < before.len() ==> (#[trigger] after[i]).name@ == before[i].name@
                && after[i].stat == if before[i].name@ == name {
                stat_after(before[i].stat, ns)
            } else {
                before[i].stat
            }
    } else {
        &&& after.len() == before.len() + 1
        &&& forall|i: int| 0 <= i < before.len() ==> #[trigger] after[i] == before[i]
        &&& after.last().name@ == name
        &&& after.last().stat == (TaskStat { calls: 1, ns_total: ns, ns_max: ns })
    }
}

/// The pools after each one in the store was stamped with `tick`.
pub open spec fn pools_stamped<P: ErasedPool>(
    before: Seq<PoolSlot<P>>,
    after: Seq<PoolSlot<P>>,
    tick: u32,
) -> bool {
    &&& after.len() == before.len()
    &&& forall|i: int| 0 <= i < before.len() ==> #[trigger] slot_stamped(before[i], after[i], tick)
}

/// One pool after the stamping.
pub open spec fn slot_stamped<P: ErasedPool>(
    before: PoolSlot<P>,
    after: PoolSlot<P>,
    tick: u32,
) -> bool {
    if before.attached {
        &&& after == (PoolSlot { pool: after.pool, ..before })
        &&& after.pool.erased_wf()
        &&& after.pool.rows() == before.pool.rows()
        &&& after.pool.table() == before.pool.table()
        &&& after.pool.erased_size() == before.pool.erased_size()
        &&& after.pool.erased_locked() == before.pool.erased_locked()
        &&& after.pool.erased_stamp() == tick
    } else {
        after == before
    }
}

/// The pools after these ids were erased from each unlocked one in the
/// store.
pub open spec fn pools_erased<P: ErasedPool>(
    before: Seq<PoolSlot<P>>,
    after: Seq<PoolSlot<P>>,
    gone: Seq<Id>,
) -> bool {
    &&& after.len() == before.len()
    &&& forall|i: int| 0 <= i < before.len() ==> #[trigger] slot_erased(before[i], after[i], gone)
}

/// The slots of the rows these ids have in a pool.
pub open spec fn slots_of(rows: Seq<Id>, gone: Seq<Id>) -> Set<u32> {
    Set::new(|s: u32| exists|x: Id| #[trigger] gone.contains(x) && rows.contains(x) && x.slot_of() == s)
}

/// One pool after these ids were erased from it.
pub open spec fn slot_erased<P: ErasedPool>(
    before: PoolSlot<P>,
    after: PoolSlot<P>,
    gone: Seq<Id>,
) -> bool {
    if before.attached {
        &&& after == (PoolSlot { pool: after.pool, ..before })
        &&& after.pool.erased_wf()
        &&& after.pool.erased_locked() == before.pool.erased_locked()
        &&& after.pool.erased_stamp() == before.pool.erased_stamp()
        &&& before.pool.erased_locked() ==> after.pool.rows() == before.pool.rows()
        &&& forall|x: Id| #[trigger]
            after.pool.rows().contains(x) == (before.pool.rows().contains(x) && (
            before.pool.erased_locked() || !gone.contains(x)))
        &&& after.pool.table() == if before.pool.erased_locked() {
            before.pool.table()
        } else {
            before.pool.table().remove_keys(slots_of(before.pool.rows(), gone))
        }
        &&& after.pool.erased_size() == before.pool.erased_size()
    } else {
        after == before
    }
}

// --- list surgery ------------------------------------------------------------

/// Drop the tasks of this name.
fn tasks_drop_named(v: &mut Vec<Task>, name: &str)
    ensures
        final(v)@ == old(v)@.filter(not_named(name@)),
{
    let ghost start = v@;
    let ghost mut done: int = 0;
    let mut i: usize = 0;
    assert(start.subrange(0, 0).filter(not_named(name@)) =~= Seq::<Task>::empty()) by {
        filter_none(start.subrange(0, 0), not_named(name@));
    }
    assert(v@ =~= start.subrange(0, 0).filter(not_named(name@)) + start.subrange(
        0,
        start.len() as int,
    ));
    while i < v.len()
        invariant
            0 <= done <= start.len(),
            i == start.subrange(0, done).filter(not_named(name@)).len(),
            v@ == start.subrange(0, done).filter(not_named(name@)) + start.subrange(
                done,
                start.len() as int,
            ),
        decreases v@.len() - i,
    {
        let ghost head = start.subrange(0, done);
        let ghost x = start[done];
        proof {
            assert(v@[i as int] == x);
            filter_push(head, x, not_named(name@));
            assert(start.subrange(0, done + 1) =~= head.push(x));
        }
        if text_eq(v[i].name.as_str(), name) {
            v.remove(i);
        } else {
            i += 1;
        }
        proof {
            done = done + 1;
            assert(v@ =~= start.subrange(0, done).filter(not_named(name@)) + start.subrange(
                done,
                start.len() as int,
            ));
        }
    }
    proof {
        assert(done == start.len());
        assert(start.subrange(0, done) =~= start);
        assert(v@ =~= start.filter(not_named(name@)));
    }
}

/// Drop the tasks a module of this name owns.
fn tasks_drop_module(v: &mut Vec<Task>, module: &str)
    ensures
        final(v)@ == old(v)@.filter(not_of_module(module@)),
{
    let ghost start = v@;
    let ghost mut done: int = 0;
    let mut i: usize = 0;
    assert(start.subrange(0, 0).filter(not_of_module(module@)) =~= Seq::<Task>::empty()) by {
        filter_none(start.subrange(0, 0), not_of_module(module@));
    }
    assert(v@ =~= start.subrange(0, 0).filter(not_of_module(module@)) + start.subrange(
        0,
        start.len() as int,
    ));
    while i < v.len()
        invariant
            0 <= done <= start.len(),
            i == start.subrange(0, done).filter(not_of_module(module@)).len(),
            v@ == start.subrange(0, done).filter(not_of_module(module@)) + start.subrange(
                done,
                start.len() as int,
            ),
        decreases v@.len() - i,
    {
        let ghost head = start.subrange(0, done);
        let ghost x = start[done];
        proof {
            assert(v@[i as int] == x);
            filter_push(head, x, not_of_module(module@));
            assert(start.subrange(0, done + 1) =~= head.push(x));
        }
        if opt_text_eq(&v[i].module, module) {
            v.remove(i);
        } else {
            i += 1;
        }
        proof {
            done = done + 1;
            assert(v@ =~= start.subrange(0, done).filter(not_of_module(module@))
                + start.subrange(done, start.len() as int));
        }
    }
    proof {
        assert(done == start.len());
        assert(start.subrange(0, done) =~= start);
        assert(v@ =~= start.filter(not_of_module(module@)));
    }
}

/// Drop the tasks that faulted.
fn tasks_drop_faulted(v: &mut Vec<Task>)
    ensures
        final(v)@ == old(v)@.filter(healthy()),
{
    let ghost start = v@;
    let ghost mut done: int = 0;
    let mut i: usize = 0;
    assert(start.subrange(0, 0).filter(healthy()) =~= Seq::<Task>::empty()) by {
        filter_none(start.subrange(0, 0), healthy());
    }
    assert(v@ =~= start.subrange(0, 0).filter(healthy()) + start.subrange(0, start.len() as int));
    while i < v.len()
        invariant
            0 <= done <= start.len(),
            i == start.subrange(0, done).filter(healthy()).len(),
            v@ == start.subrange(0, done).filter(healthy()) + start.subrange(
                done,
                start.len() as int,
            ),
        decreases v@.len() - i,
    {
        let ghost head = start.subrange(0, done);
        let ghost x = start[done];
        proof {
            assert(v@[i as int] == x);
            filter_push(head, x, healthy());
            assert(start.subrange(0, done + 1) =~= head.push(x));
        }
        if v[i].faulted {
            v.remove(i);
        } else {
            i += 1;
        }
        proof {
            done = done + 1;
            assert(v@ =~= start.subrange(0, done).filter(healthy()) + start.subrange(
                done,
                start.len() as int,
            ));
        }
    }
    proof {
        assert(done == start.len());
        assert(start.subrange(0, done) =~= start);
        assert(v@ =~= start.filter(healthy()));
    }
}

/// Drop all but the last task of this name.
fn tasks_keep_last(v: &mut Vec<Task>, name: &str)
    ensures
        final(v)@ == keep_last(old(v)@, name@),
{
    let ghost start = v@;
    let ghost mut tail: Seq<Task> = Seq::empty();
    let mut seen: bool = false;
    let mut i: usize = v.len();
    assert(start.subrange(0, start.len() as int) =~= start);
    assert(start + tail =~= start);
    assert(keep_last(start, name@) + tail =~= keep_last(start, name@));
    while i > 0
        invariant
            i <= start.len(),
            v@ == start.subrange(0, i as int) + tail,
            keep_last(start, name@) == (if seen {
                start.subrange(0, i as int).filter(not_named(name@))
            } else {
                keep_last(start.subrange(0, i as int), name@)
            }) + tail,
        decreases i,
    {
        let ghost head = start.subrange(0, i as int);
        let ghost init = start.subrange(0, i - 1);
        let ghost x = start[i - 1];
        proof {
            assert(head.drop_last() =~= init);
            assert(head.last() == x);
            assert(head =~= init.push(x));
            assert(v@[i - 1] == x);
            filter_push(init, x, not_named(name@));
        }
        i -= 1;
        if text_eq(v[i].name.as_str(), name) {
            if seen {
                v.remove(i);
                assert(v@ =~= init + tail);
            } else {
                seen = true;
                proof {
                    assert(v@ =~= init + (seq![x] + tail));
                    assert(init.filter(not_named(name@)).push(x) + tail =~= init.filter(
                        not_named(name@),
                    ) + (seq![x] + tail));
                    tail = seq![x] + tail;
                }
            }
        } else {
            proof {
                assert(v@ =~= init + (seq![x] + tail));
                assert(init.filter(not_named(name@)).push(x) + tail =~= init.filter(
                    not_named(name@),
                ) + (seq![x] + tail));
                assert(keep_last(init, name@).push(x) + tail =~= keep_last(init, name@) + (seq![x]
                    + tail));
                tail = seq![x] + tail;
            }
        }
    }
    proof {
        assert(start.subrange(0, 0) =~= Seq::<Task>::empty());
        filter_none(start.subrange(0, 0), not_named(name@));
        assert(v@ =~= tail);
        assert(start.subrange(0, 0).filter(not_named(name@)) + tail =~= tail);
        assert(keep_last(start.subrange(0, 0), name@) + tail =~= tail);
    }
}

impl<P: ErasedPool> Pm<P> {
    /// The store's names are distinct, its pools well-formed, the timing
    /// table holds each name once and the id allocator is sound.
    pub closed spec fn wf(&self) -> bool {
        &&& self.ids.wf()
        &&& pools_wf(self.pools@)
        &&& pool_names_distinct(self.pools@)
        &&& stat_names_distinct(self.stats@)
    }

    /// What `wf` says of the visible state.
    pub proof fn wf_parts(&self)
        requires
            self.wf(),
        ensures
            pools_wf(self@.pools),
            pool_names_distinct(self@.pools),
            stat_names_distinct(self@.stats),
            forall|s: u32| #[trigger] self@.ids.gens.contains_key(s),
            forall|p: u8| #[trigger] self@.ids.free.contains_key(p),
            forall|p: u8| #[trigger]
                self@.ids.high.contains_key(p) && 0 <= self@.ids.high[p] <= 0x1_0000,
    {
        self.ids.wf_total();
    }

    /// A kernel at tick 1 with nothing in it: tick 1 from birth, so a
    /// brand-new peer's ack of 0 means "send everything", including
    /// init-time adds.
    pub fn new() -> (r: Self)
        ensures
            r.wf(),
            r@ == (KernelView::<P> {
                pools: Seq::empty(),
                tasks: Seq::empty(),
                present: Seq::empty(),
                commit: Seq::empty(),
                tasks_dirty: false,
                stop_requests: Seq::empty(),
                replace_requests: Seq::empty(),
                module_stops: Seq::empty(),
                current_module: None,
                faults: Seq::empty(),
                stats: Seq::empty(),
                ids: IdSpace::fresh(),
                pending_removes: Seq::empty(),
                removal_log: Seq::empty(),
                removal_hold: false,
                tick: 1,
                quit: false,
                next_token: 0,
                loop_rate: 60,
                loop_spin_us: 2000,
                local_peer: 0,
            }),
    {
        Pm {
            pools: Vec::new(),
            tasks: Vec::new(),
            present: Vec::new(),
            commit: Vec::new(),
            tasks_dirty: false,
            stop_requests: Vec::new(),
            replace_requests: Vec::new(),
            module_stops: Vec::new(),
            current_module: None,
            faults: Vec::new(),
            stats: Vec::new(),
            ids: IdAllocator::new(),
            pending_removes: Vec::new(),
            removal_log: Vec::new(),
            removal_hold: false,
            tick: 1,
            quit: false,
            next_token: 0,
            loop_rate: 60,
            loop_spin_us: 2000,
            local_peer: 0,
        }
    }

    // --- pools & singletons ---------------------------------------------

    /// The position of the pool of this name, if there is one.
    pub fn pool_find(&self, name: &str) -> (r: Option<usize>)
        ensures
            match r {
                Some(i) => i < self@.pools.len() && self@.pools[i as int].attached
                    && self@.pools[i as int].name@ == name@,
                None => !has_pool(self@.pools, name@),
            },
    {
        let mut i: usize = 0;
        while i < self.pools.len()
            invariant
                i <= self.pools@.len(),
                forall|k: int|
                    0 <= k < i ==> !((#[trigger] self.pools@[k]).attached
                        && self.pools@[k].name@ == name@),
            decreases self.pools@.len() - i,
        {
            if self.pools[i].attached && text_eq(self.pools[i].name.as_str(), name) {
                return Some(i);
            }
            i += 1;
        }
        None
    }

    /// Fetch the pool of this name, storing `fresh` under it on first use;
    /// returns its position. A pool first created while a module is active
    /// belongs to that module.
    pub fn pool(&mut self, name: &str, fresh: P) -> (r: usize)
        requires
            old(self).wf(),
            fresh.erased_wf(),
        ensures
            final(self).wf(),
            r < final(self)@.pools.len(),
            final(self)@.pools[r as int].attached,
            final(self)@.pools[r as int].name@ == name@,
            has_pool(old(self)@.pools, name@) ==> final(self)@ == old(self)@,
            !has_pool(old(self)@.pools, name@) ==> {
                let slot = final(self)@.pools.last();
                &&& r == old(self)@.pools.len()
                &&& final(self)@ == (KernelView {
                    pools: old(self)@.pools.push(slot),
                    ..old(self)@
                })
                &&& slot.owner == old(self)@.current_module
                &&& slot.pool.rows() == fresh.rows()
                &&& slot.pool.table() == fresh.table()
                &&& slot.pool.erased_size() == fresh.erased_size()
                &&& slot.pool.erased_locked() == fresh.erased_locked()
                &&& slot.pool.erased_stamp() == old(self)@.tick
            },
    {
        match self.pool_find(name) {
            Some(i) => i,
            None => {
                let mut pool: P = fresh;
                pool.erased_tick_set(self.tick);
                let n: usize = self.pools.len();
                self.pools.push(
                    PoolSlot {
                        name: name.to_owned(),
                        owner: self.current_module.clone(),
                        attached: true,
                        pool,
                    },
                );
                n
            },
        }
    }

    /// How many positions pools were given.
    pub fn pool_slots(&self) -> (r: usize)
        ensures
            r == self@.pools.len(),
    {
        self.pools.len()
    }

    /// The pool at a position.
    pub fn pool_at(&self, i: usize) -> (r: &P)
        requires
            i < self@.pools.len(),
        ensures
            *r == self@.pools[i as int].pool,
    {
        &self.pools[i].pool
    }

    /// The pool at a position, for writing. The kernel stays well-formed as
    /// long as the pool does.
    pub fn pool_at_mut(&mut self, i: usize) -> (r: &mut P)
        requires
            old(self).wf(),
            i < old(self)@.pools.len(),
        ensures
            *r == old(self)@.pools[i as int].pool,
            final(self)@ == (KernelView {
                pools: old(self)@.pools.update(
                    i as int,
                    PoolSlot { pool: *final(r), ..old(self)@.pools[i as int] },
                ),
                ..old(self)@
            }),
            (*final(r)).erased_wf() ==> final(self).wf(),
    {
        &mut self.pools[i].pool
    }

    /// Fetch the singleton of this name: the pool as `pool` does, then its
    /// first entity — or, when it has none, a fresh id for the caller to add
    /// the value under. The flag says whether the id is fresh; the caller
    /// then adds the row and locks the pool.
    pub fn single(&mut self, name: &str, fresh: P) -> (r: (usize, Id, bool))
        requires
            old(self).wf(),
            fresh.erased_wf(),
            has_rows(old(self)@.pools, name@) || old(self)@.ids.has_room(old(self)@.local_peer),
        ensures
            final(self).wf(),
            r.0 < final(self)@.pools.len(),
            final(self)@.pools[r.0 as int].attached,
            final(self)@.pools[r.0 as int].name@ == name@,
            r.2 == (final(self)@.pools[r.0 as int].pool.rows().len() == 0),
            !r.2 ==> r.1 == final(self)@.pools[r.0 as int].pool.rows()[0] && final(self)@.ids
                == old(self)@.ids,
            r.2 ==> r.1 == old(self)@.ids.next_id(old(self)@.local_peer) && final(self)@.ids
                == old(self)@.ids.add(old(self)@.local_peer),
            final(self)@ == (KernelView {
                pools: final(self)@.pools,
                ids: final(self)@.ids,
                ..old(self)@
            }),
            has_pool(old(self)@.pools, name@) ==> final(self)@.pools == old(self)@.pools,
            !has_pool(old(self)@.pools, name@) ==> {
                let slot = final(self)@.pools.last();
                &&& r.0 == old(self)@.pools.len()
                &&& final(self)@.pools == old(self)@.pools.push(slot)
                &&& slot.owner == old(self)@.current_module
                &&& slot.pool.rows() == fresh.rows()
                &&& slot.pool.table() == fresh.table()
                &&& slot.pool.erased_size() == fresh.erased_size()
                &&& slot.pool.erased_locked() == fresh.erased_locked()
                &&& slot.pool.erased_stamp() == old(self)@.tick
            },
    {
        let i: usize = self.pool(name, fresh);
        proof {
            self.wf_parts();
            if has_rows(old(self)@.pools, name@) {
                let j = choose|j: int|
                    0 <= j < old(self)@.pools.len() && (#[trigger] old(self)@.pools[j]).attached
                        && old(self)@.pools[j].name@ == name@ && old(self)@.pools[j].pool.rows().len()
                        > 0;
                assert(has_pool(old(self)@.pools, name@));
                assert(self@.pools[j].attached && self@.pools[i as int].attached);
                assert(i == j);
            }
        }
        let first: Option<Id> = {
            proof {
                self.wf_parts();
            }
            if self.pools[i].pool.erased_count() > 0 {
                Some(self.pools[i].pool.erased_id(0))
            } else {
                None
            }
        };
        match first {
            Some(id) => (i, id, false),
            None => {
                let id: Id = self.ids.add(self.local_peer);
                (i, id, true)
            },
        }
    }

    /// Protect a pool from the end-of-tick removal flush. A name with no
    /// pool is ignored.
    pub fn pool_lock(&mut self, name: &str)
        requires
            old(self).wf(),
        ensures
            final(self).wf(),
            final(self)@ == (KernelView { pools: final(self)@.pools, ..old(self)@ }),
            final(self)@.pools.len() == old(self)@.pools.len(),
            forall|i: int|
                0 <= i < old(self)@.pools.len() ==> {
                    let before = old(self)@.pools[i];
                    let after = #[trigger] final(self)@.pools[i];
                    if before.attached && before.name@ == name@ {
                        &&& after == (PoolSlot { pool: after.pool, ..before })
                        &&& after.pool.erased_locked()
                        &&& after.pool.rows() == before.pool.rows()
                        &&& after.pool.table() == before.pool.table()
                        &&& after.pool.erased_size() == before.pool.erased_size()
                        &&& after.pool.erased_stamp() == before.pool.erased_stamp()
                    } else {
                        after == before
                    }
                },
    {
        match self.pool_find(name) {
            Some(i) => {
                self.pools[i].pool.erased_lock();
            },
            None => {},
        }
    }

    /// Drop a pool from the store by name; a fresh `pool` of the same name
    /// makes a new one.
    pub fn pool_remove(&mut self, name: &str)
        requires
            old(self).wf(),
        ensures
            final(self).wf(),
            final(self)@ == (KernelView {
                pools: pools_without_name(old(self)@.pools, name@),
                ..old(self)@
            }),
            !has_pool(final(self)@.pools, name@),
    {
        let ghost start = self.pools@;
        let mut i: usize = 0;
        while i < self.pools.len()
            invariant
                i <= self.pools@.len(),
                self.pools@.len() == start.len(),
                start == old(self)@.pools,
                pools_wf(start),
                pool_names_distinct(start),
                self.ids.wf(),
                stat_names_distinct(self.stats@),
                forall|k: int|
                    0 <= k < i ==> #[trigger] self.pools@[k] == without_name(start[k], name@),
                forall|k: int| i <= k < start.len() ==> #[trigger] self.pools@[k] == start[k],
                self@ == (KernelView { pools: self.pools@, ..old(self)@ }),
            decreases self.pools@.len() - i,
        {
            assert(self.pools@[i as int] == start[i as int]);
            if text_eq(self.pools[i].name.as_str(), name) {
                self.pools[i].attached = false;
            }
            i += 1;
        }
        assert(self.pools@ =~= pools_without_name(start, name@));
    }

    /// Every pool in the store by name with its row count, largest first and
    /// name-ordered within a count.
    pub fn pool_stats(&self) -> (r: Vec<PoolStat>)
        requires
            self.wf(),
        ensures
            exists|rows: Seq<PoolStat>| #[trigger]
                stable_sort_of(r@, rows) && stat_rows(rows) == attached_counts(self@.pools),
    {
        let mut rows: Vec<PoolStat> = Vec::new();
        let mut i: usize = 0;
        assert(stat_rows(rows@) =~= attached_counts(self.pools@.subrange(0, 0)));
        while i < self.pools.len()
            invariant
                self.wf(),
                i <= self.pools@.len(),
                stat_rows(rows@) == attached_counts(self.pools@.subrange(0, i as int)),
            decreases self.pools@.len() - i,
        {
            let ghost before = rows@;
            proof {
                assert(self.pools@.subrange(0, i + 1).drop_last() =~= self.pools@.subrange(
                    0,
                    i as int,
                ));
            }
            if self.pools[i].attached {
                let count: usize = self.pools[i].pool.erased_count();
                rows.push(PoolStat { name: self.pools[i].name.clone(), count });
                assert(stat_rows(rows@) =~= stat_rows(before).push(
                    (self.pools@[i as int].name@, count as nat),
                ));
            }
            i += 1;
        }
        assert(self.pools@.subrange(0, i as int) =~= self.pools@);
        let ghost unsorted = rows@;
        sort_stable(&mut rows);
        assert(stable_sort_of(rows@, unsorted));
        rows
    }

    // --- tasks ----------------------------------------------------------

    /// Register a task and return the token its closure is filed under.
    /// Lowest priority runs first; a task added from inside a task starts on
    /// the next tick. It belongs to the module active now, if any.
    pub fn task_add(&mut self, name: &str, priority: u32) -> (r: u64)
        requires
            old(self).wf(),
            old(self)@.next_token < u64::MAX,
        ensures
            final(self).wf(),
            r == old(self)@.next_token,
            final(self)@ == (KernelView {
                tasks: old(self)@.tasks.push(final(self)@.tasks.last()),
                tasks_dirty: true,
                next_token: (r + 1) as u64,
                ..old(self)@
            }),
            final(self)@.tasks.last().token == r,
            final(self)@.tasks.last().name@ == name@,
            final(self)@.tasks.last().module == old(self)@.current_module,
            final(self)@.tasks.last().priority == priority,
            !final(self)@.tasks.last().faulted,
    {
        let token: u64 = self.next_token;
        self.next_token = token + 1;
        self.tasks.push(
            Task {
                token,
                name: name.to_owned(),
                module: self.current_module.clone(),
                priority,
                faulted: false,
            },
        );
        self.tasks_dirty = true;
        token
    }

    /// Register a task, replacing any existing task with the same name. If
    /// the old task is mid-run this tick, it is dropped at end of tick and
    /// the new one starts next tick.
    pub fn task_add_or_replace(&mut self, name: &str, priority: u32) -> (r: u64)
        requires
            old(self).wf(),
            old(self)@.next_token < u64::MAX,
        ensures
            final(self).wf(),
            r == old(self)@.next_token,
            final(self)@ == (KernelView {
                tasks: old(self)@.tasks.filter(not_named(name@)).push(final(self)@.tasks.last()),
                tasks_dirty: true,
                replace_requests: old(self)@.replace_requests.push(
                    final(self)@.replace_requests.last(),
                ),
                next_token: (r + 1) as u64,
                ..old(self)@
            }),
            final(self)@.replace_requests.last()@ == name@,
            final(self)@.tasks.last().token == r,
            final(self)@.tasks.last().name@ == name@,
            final(self)@.tasks.last().module == old(self)@.current_module,
            final(self)@.tasks.last().priority == priority,
            !final(self)@.tasks.last().faulted,
    {
        tasks_drop_named(&mut self.tasks, name);
        self.replace_requests.push(name.to_owned());
        self.task_add(name, priority)
    }

    /// The registered tasks. While a tick runs these are the ones added
    /// meanwhile.
    pub fn tasks(&self) -> (r: &[Task])
        ensures
            r@ == self@.tasks,
    {
        self.tasks.as_slice()
    }

    /// Tasks benched after returning an error, oldest first.
    pub fn task_faults(&self) -> (r: &[TaskFault])
        ensures
            r@ == self@.faults,
    {
        self.faults.as_slice()
    }

    /// Forget the recorded faults.
    pub fn task_faults_clear(&mut self)
        requires
            old(self).wf(),
        ensures
            final(self).wf(),
            final(self)@ == (KernelView { faults: Seq::empty(), ..old(self)@ }),
    {
        self.faults.clear();
    }

    /// Stop a task by name. If called while the task runs, it takes effect
    /// at the end of the current tick.
    pub fn task_stop(&mut self, name: &str)
        requires
            old(self).wf(),
        ensures
            final(self).wf(),
            final(self)@ == (KernelView {
                tasks: old(self)@.tasks.filter(not_named(name@)),
                stop_requests: old(self)@.stop_requests.push(final(self)@.stop_requests.last()),
                ..old(self)@
            }),
            final(self)@.stop_requests.last()@ == name@,
    {
        tasks_drop_named(&mut self.tasks, name);
        self.stop_requests.push(name.to_owned());
    }

    /// Per-task cumulative timings since start (or last reset), heaviest
    /// first.
    pub fn task_stats(&self) -> (r: Vec<NamedStat>)
        requires
            self.wf(),
        ensures
            exists|rows: Seq<NamedStat>| #[trigger]
                stable_sort_of(r@, rows) && rows.len() == self@.stats.len() && forall|i: int|
                    0 <= i < rows.len() ==> (#[trigger] rows[i]).name@ == self@.stats[i].name@
                        && rows[i].stat == self@.stats[i].stat,
    {
        let mut rows: Vec<NamedStat> = Vec::new();
        let mut i: usize = 0;
        while i < self.stats.len()
            invariant
                i <= self.stats@.len(),
                rows@.len() == i,
                forall|k: int|
                    0 <= k < i ==> (#[trigger] rows@[k]).name@ == self.stats@[k].name@
                        && rows@[k].stat == self.stats@[k].stat,
            decreases self.stats@.len() - i,
        {
            rows.push(NamedStat { name: self.stats[i].name.clone(), stat: self.stats[i].stat });
            i += 1;
        }
        let ghost unsorted = rows@;
        sort_stable(&mut rows);
        assert(stable_sort_of(rows@, unsorted));
        rows
    }

    /// Forget all timings.
    pub fn task_stats_reset(&mut self)
        requires
            old(self).wf(),
        ensures
            final(self).wf(),
            final(self)@ == (KernelView { stats: Seq::empty(), ..old(self)@ }),
    {
        self.stats.clear();
    }

    /// Record one timed run of the named task.
    pub fn stat_record(&mut self, name: &str, ns: u64)
        requires
            old(self).wf(),
        ensures
            final(self).wf(),
            final(self)@ == (KernelView { stats: final(self)@.stats, ..old(self)@ }),
            stats_after(old(self)@.stats, final(self)@.stats, name@, ns),
    {
        let mut i: usize = 0;
        while i < self.stats.len()
            invariant
                *self == *old(self),
                i <= self.stats@.len(),
                forall|k: int| 0 <= k < i ==> (#[trigger] self.stats@[k]).name@ != name@,
                old(self).wf(),
            decreases self.stats@.len() - i,
        {
            if text_eq(self.stats[i].name.as_str(), name) {
                let s: TaskStat = self.stats[i].stat;
                let next = TaskStat {
                    calls: s.calls.saturating_add(1),
                    ns_total: s.ns_total.saturating_add(ns),
                    ns_max: if ns > s.ns_max {
                        ns
                    } else {
                        s.ns_max
                    },
                };
                self.stats[i].stat = next;
                proof {
                    let b = old(self).stats@;
                    assert(b[i as int].name@ == name@);
                    assert forall|k: int| 0 <= k < b.len() implies (
                    #[trigger] self.stats@[k]).name@ == b[k].name@ && self.stats@[k].stat
                        == if b[k].name@ == name@ {
                        stat_after(b[k].stat, ns)
                    } else {
                        b[k].stat
                    } by {
                        if k < i {
                            assert(b[k].name@ != b[i as int].name@);
                        }
                        if k > i {
                            assert(b[i as int].name@ != b[k].name@);
                        }
                    }
                }
                return;
            }
            i += 1;
        }
        self.stats.push(
            NamedStat {
                name: name.to_owned(),
                stat: TaskStat { calls: 1, ns_total: ns, ns_max: ns },
            },
        );
    }

    // --- modules ----------------------------------------------------------

    /// Start attributing registrations to the named module; returns the
    /// module that was active, for `module_close` to put back.
    pub fn module_open(&mut self, name: &str) -> (r: Option<String>)
        requires
            old(self).wf(),
        ensures
            final(self).wf(),
            r == old(self)@.current_module,
            final(self)@ == (KernelView {
                current_module: final(self)@.current_module,
                ..old(self)@
            }),
            final(self)@.current_module matches Some(m) && m@ == name@,
    {
        let previous: Option<String> = self.current_module.take();
        self.current_module = Some(name.to_owned());
        previous
    }

    /// Stop attributing registrations to the named module. A failed init is
    /// rolled back: whatever the module registered is torn down.
    pub fn module_close(&mut self, name: &str, previous: Option<String>, failed: bool)
        requires
            old(self).wf(),
        ensures
            final(self).wf(),
            !failed ==> final(self)@ == (KernelView { current_module: previous, ..old(self)@ }),
            failed ==> final(self)@ == (KernelView {
                current_module: previous,
                tasks: old(self)@.tasks.filter(not_of_module(name@)),
                module_stops: old(self)@.module_stops.push(final(self)@.module_stops.last()),
                pools: pools_without_module(old(self)@.pools, name@),
                ..old(self)@
            }) && final(self)@.module_stops.last()@ == name@,
    {
        self.current_module = previous;
        if failed {
            self.module_remove(name);
        }
    }

    /// Tear down a module: stop its tasks and drop its pools from the store.
    /// Tasks of the module that are running stop at the end of the tick.
    pub fn module_remove(&mut self, name: &str)
        requires
            old(self).wf(),
        ensures
            final(self).wf(),
            final(self)@ == (KernelView {
                tasks: old(self)@.tasks.filter(not_of_module(name@)),
                module_stops: old(self)@.module_stops.push(final(self)@.module_stops.last()),
                pools: pools_without_module(old(self)@.pools, name@),
                ..old(self)@
            }),
            final(self)@.module_stops.last()@ == name@,
    {
        tasks_drop_module(&mut self.tasks, name);
        self.module_stops.push(name.to_owned());
        let ghost start = self.pools@;
        let mut i: usize = 0;
        while i < self.pools.len()
            invariant
                i <= self.pools@.len(),
                self.pools@.len() == start.len(),
                start == old(self)@.pools,
                pools_wf(start),
                pool_names_distinct(start),
                self.ids.wf(),
                stat_names_distinct(self.stats@),
                forall|k: int|
                    0 <= k < i ==> #[trigger] self.pools@[k] == without_module(start[k], name@),
                forall|k: int| i <= k < start.len() ==> #[trigger] self.pools@[k] == start[k],
                self@ == (KernelView {
                    tasks: old(self)@.tasks.filter(not_of_module(name@)),
                    module_stops: old(self)@.module_stops.push(self@.module_stops.last()),
                    pools: self.pools@,
                    ..old(self)@
                }),
                self@.module_stops.last()@ == name@,
            decreases self.pools@.len() - i,
        {
            assert(self.pools@[i as int] == start[i as int]);
            if opt_text_eq(&self.pools[i].owner, name) {
                self.pools[i].attached = false;
            }
            i += 1;
        }
        assert(self.pools@ =~= pools_without_module(start, name@));
    }

    // --- ids --------------------------------------------------------------

    /// Whether `peer`'s id space can hand out another id.
    pub fn id_room(&self, peer: u8) -> (r: bool)
        requires
            self.wf(),
        ensures
            r == self@.ids.has_room(peer),
    {
        self.ids.room(peer)
    }

    /// A fresh id in this instance's own space.
    pub fn id_add(&mut self) -> (r: Id)
        requires
            old(self).wf(),
            old(self)@.ids.has_room(old(self)@.local_peer),
        ensures
            final(self).wf(),
            r == old(self)@.ids.next_id(old(self)@.local_peer),
            final(self)@ == (KernelView {
                ids: old(self)@.ids.add(old(self)@.local_peer),
                ..old(self)@
            }),
    {
        self.ids.add(self.local_peer)
    }

    /// A fresh id in `peer`'s space.
    pub fn id_add_for(&mut self, peer: u8) -> (r: Id)
        requires
            old(self).wf(),
            old(self)@.ids.has_room(peer),
        ensures
            final(self).wf(),
            r == old(self)@.ids.next_id(peer),
            final(self)@ == (KernelView { ids: old(self)@.ids.add(peer), ..old(self)@ }),
    {
        self.ids.add(peer)
    }

    /// Whether the handle names a live entity.
    pub fn id_alive(&self, id: Id) -> (r: bool)
        requires
            self.wf(),
        ensures
            r == self@.ids.alive(id),
    {
        self.ids.alive(id)
    }

    /// Deferred removal: flushed from every pool at the end of the tick.
    pub fn id_remove(&mut self, id: Id)
        requires
            old(self).wf(),
        ensures
            final(self).wf(),
            final(self)@ == (KernelView {
                pending_removes: old(self)@.pending_removes.push(id),
                ..old(self)@
            }),
    {
        self.pending_removes.push(id);
    }

    /// Queue removal of every entity currently in the pool (deferred, like
    /// `id_remove`).
    pub fn id_remove_all(&mut self, pool: usize)
        requires
            old(self).wf(),
            pool < old(self)@.pools.len(),
        ensures
            final(self).wf(),
            final(self)@ == (KernelView {
                pending_removes: old(self)@.pending_removes + old(
                    self)@.pools[pool as int].pool.rows(),
                ..old(self)@
            }),
    {
        let n: usize = self.pools[pool].pool.erased_count();
        let mut i: usize = 0;
        let ghost rows = self.pools@[pool as int].pool.rows();
        assert(self.pending_removes@ + rows.subrange(0, 0) =~= self.pending_removes@);
        while i < n
            invariant
                i <= n,
                n == rows.len(),
                pool < self.pools@.len(),
                rows == self.pools@[pool as int].pool.rows(),
                self.pending_removes@ == old(self).pending_removes@ + rows.subrange(0, i as int),
                old(self).wf(),
                self.ids == old(self).ids,
                self.pools == old(self).pools,
                self.stats == old(self).stats,
                self@ == (KernelView { pending_removes: self.pending_removes@, ..old(self)@ }),
            decreases n - i,
        {
            let id: Id = self.pools[pool].pool.erased_id(i);
            self.pending_removes.push(id);
            i += 1;
            assert(self.pending_removes@ =~= old(self).pending_removes@ + rows.subrange(
                0,
                i as int,
            ));
        }
        assert(rows.subrange(0, i as int) =~= rows);
    }

    /// Accept a remote id: mark alive, record its generation.
    pub fn id_sync(&mut self, id: Id)
        requires
            old(self).wf(),
        ensures
            final(self).wf(),
            final(self)@ == (KernelView { ids: old(self)@.ids.sync(id), ..old(self)@ }),
            final(self)@.ids.alive(id),
    {
        self.ids.sync(id);
    }
}

/// Killing one more id after a batch.
proof fn kill_all_push(space: IdSpace, killed: Seq<Id>, id: Id)
    ensures
        kill_all(space, killed.push(id)) == kill_all(space, killed).kill(id),
    decreases killed.len(),
{
    let all = killed.push(id);
    if killed.len() == 0 {
        assert(all.drop_first() =~= Seq::<Id>::empty());
        assert(kill_all(space.kill(id), Seq::<Id>::empty()) == space.kill(id));
    } else {
        assert(all.drop_first() =~= killed.drop_first().push(id));
        kill_all_push(space.kill(killed[0]), killed.drop_first(), id);
    }
}

/// Erasing a batch and then one more id erases the longer batch.
proof fn pools_erased_push<P: ErasedPool>(
    a: Seq<PoolSlot<P>>,
    b: Seq<PoolSlot<P>>,
    c: Seq<PoolSlot<P>>,
    gone: Seq<Id>,
    id: Id,
)
    requires
        pools_erased(a, b, gone),
        pools_erased(b, c, seq![id]),
    ensures
        pools_erased(a, c, gone.push(id)),
{
    assert forall|i: int| 0 <= i < a.len() implies #[trigger] slot_erased(
        a[i],
        c[i],
        gone.push(id),
    ) by {
        assert(slot_erased(a[i], b[i], gone));
        assert(slot_erased(b[i], c[i], seq![id]));
        assert forall|x: Id| a[i].attached implies #[trigger] c[i].pool.rows().contains(x) == (
        a[i].pool.rows().contains(x) && (a[i].pool.erased_locked() || !gone.push(id).contains(
            x,
        ))) by {
            assert(b[i].pool.rows().contains(x) == (a[i].pool.rows().contains(x) && (
            a[i].pool.erased_locked() || !gone.contains(x))));
            assert(seq![id].contains(x) == (x == id)) by {
                assert(seq![id][0] == id);
            }
            crate::sort::contains_push(gone, id, x);
        }
        if a[i].attached && !a[i].pool.erased_locked() {
            let rows = a[i].pool.rows();
            let one = slots_of(b[i].pool.rows(), seq![id]);
            let all = slots_of(rows, gone.push(id));
            assert(seq![id].contains(id)) by {
                assert(seq![id][0] == id);
            }
            assert forall|s: u32| all.contains(s) == (slots_of(rows, gone).contains(s)
                || one.contains(s)) by {
                if all.contains(s) {
                    let x = choose|x: Id| #[trigger]
                        gone.push(id).contains(x) && rows.contains(x) && x.slot_of() == s;
                    crate::sort::contains_push(gone, id, x);
                    if !gone.contains(x) {
                        assert(b[i].pool.rows().contains(x));
                    }
                }
                if slots_of(rows, gone).contains(s) {
                    let x = choose|x: Id| #[trigger]
                        gone.contains(x) && rows.contains(x) && x.slot_of() == s;
                    crate::sort::contains_push(gone, id, x);
                    assert(gone.push(id).contains(x));
                }
                if one.contains(s) {
                    let x = choose|x: Id| #[trigger]
                        seq![id].contains(x) && b[i].pool.rows().contains(x) && x.slot_of() == s;
                    crate::sort::contains_push(gone, id, x);
                    assert(gone.push(id).contains(x));
                    assert(rows.contains(x));
                }
            }
            assert(c[i].pool.table() =~= a[i].pool.table().remove_keys(all));
        }
    }
}

/// Erase one id from each unlocked pool in the store.
fn pools_erase<P: ErasedPool>(pools: &mut Vec<PoolSlot<P>>, id: Id)
    requires
        pools_wf(old(pools)@),
    ensures
        pools_erased(old(pools)@, final(pools)@, seq![id]),
{
    let ghost start = pools@;
    let mut i: usize = 0;
    while i < pools.len()
        invariant
            i <= pools@.len(),
            pools@.len() == start.len(),
            pools_wf(start),
            forall|k: int|
                0 <= k < i ==> #[trigger] slot_erased(start[k], pools@[k], seq![id]),
            forall|k: int| i <= k < start.len() ==> #[trigger] pools@[k] == start[k],
        decreases pools@.len() - i,
    {
        proof {
            assert(pools@[i as int] == start[i as int]);
        }
        if pools[i].attached {
            pools[i].pool.erased_remove(id);
        }
        proof {
            assert forall|x: Id| #[trigger] seq![id].contains(x) == (x == id) by {
                assert(seq![id][0] == id);
            }
            let rows = start[i as int].pool.rows();
            let table = start[i as int].pool.table();
            assert(seq![id].contains(id));
            assert(slots_of(rows, seq![id]) =~= if rows.contains(id) {
                set![id.slot_of()]
            } else {
                Set::<u32>::empty()
            });
            assert(row_removed(table, rows, id) =~= table.remove_keys(slots_of(rows, seq![id])));
            assert(slot_erased(start[i as int], pools@[i as int], seq![id]));
        }
        i += 1;
    }
}

impl<P: ErasedPool> Pm<P> {
    /// Flush the deferred removals: kill each requested id that is alive,
    /// newest request first, erase it from every unlocked pool and log it.
    /// Without a server holding the log the indices recycle at once.
    pub fn id_process_removes(&mut self)
        requires
            old(self).wf(),
        ensures
            final(self).wf(),
            ({
                let killed = flush_killed(old(self)@.ids, old(self)@.pending_removes);
                let space = kill_all(old(self)@.ids, killed);
                let log = old(self)@.removal_log + stamped(killed, old(self)@.tick);
                &&& pools_erased(old(self)@.pools, final(self)@.pools, killed)
                &&& (final(self)@.removal_log, final(self)@.ids) == if old(self)@.removal_hold {
                    (log, space)
                } else {
                    release_from(log, space, 0, old(self)@.tick, old(self)@.local_peer)
                }
            }),
            final(self)@ == (KernelView {
                pools: final(self)@.pools,
                ids: final(self)@.ids,
                pending_removes: Seq::empty(),
                removal_log: final(self)@.removal_log,
                ..old(self)@
            }),
    {
        let ghost mut killed: Seq<Id> = Seq::empty();
        let ghost space0 = self.ids@;
        let ghost pending0 = self.pending_removes@;
        let ghost log0 = self.removal_log@;
        proof {
            assert(killed + flush_killed(space0, pending0) =~= flush_killed(space0, pending0));
            assert(log0 + stamped(killed, self.tick) =~= log0);
            assert forall|i: int| 0 <= i < self.pools@.len() implies #[trigger] slot_erased(
                self.pools@[i],
                self.pools@[i],
                killed,
            ) by {
                let pool = self.pools@[i].pool;
                assert(pool.table().remove_keys(slots_of(pool.rows(), killed)) =~= pool.table());
            }
        }
        while self.pending_removes.len() > 0
            invariant
                self.ids.wf(),
                pools_wf(self.pools@),
                pool_names_distinct(self.pools@),
                stat_names_distinct(self.stats@),
                flush_killed(space0, pending0) == killed + flush_killed(
                    self.ids@,
                    self.pending_removes@,
                ),
                self.ids@ == kill_all(space0, killed),
                self.removal_log@ == log0 + stamped(killed, self.tick),
                pools_erased(old(self).pools@, self.pools@, killed),
                self@ == (KernelView {
                    pools: self@.pools,
                    ids: self@.ids,
                    pending_removes: self@.pending_removes,
                    removal_log: self@.removal_log,
                    ..old(self)@
                }),
            decreases self.pending_removes@.len(),
        {
            let id: Id = self.pending_removes.pop().unwrap();
            if self.ids.alive(id) {
                let ghost mid = self.pools@;
                let ghost space = self.ids@;
                self.ids.kill(id);
                pools_erase(&mut self.pools, id);
                self.removal_log.push((id, self.tick));
                proof {
                    kill_all_push(space0, killed, id);
                    pools_erased_push(old(self).pools@, mid, self.pools@, killed, id);
                    assert(killed + (seq![id] + flush_killed(
                        space.kill(id),
                        self.pending_removes@,
                    )) =~= killed.push(id) + flush_killed(space.kill(id), self.pending_removes@));
                    assert(stamped(killed.push(id), self.tick) =~= stamped(killed, self.tick).push(
                        (id, self.tick),
                    ));
                    assert(self.removal_log@ =~= log0 + stamped(killed.push(id), self.tick));
                    assert forall|i: int| 0 <= i < self.pools@.len() implies (
                    #[trigger] self.pools@[i]).pool.erased_wf() by {
                        assert(slot_erased(mid[i], self.pools@[i], seq![id]));
                    }
                    assert forall|i: int, j: int|
                        0 <= i < j < self.pools@.len() && (#[trigger] self.pools@[i]).attached && (
                        #[trigger] self.pools@[j]).attached implies self.pools@[i].name@
                        != self.pools@[j].name@ by {
                        assert(slot_erased(mid[i], self.pools@[i], seq![id]));
                        assert(slot_erased(mid[j], self.pools@[j], seq![id]));
                        assert(mid[i].name@ != mid[j].name@);
                    }
                    killed = killed.push(id);
                }
            }
        }
        proof {
            assert(flush_killed(space0, pending0) =~= killed);
            assert(self.pending_removes@ =~= Seq::<Id>::empty());
        }
        if !self.removal_hold {
            self.removal_release_upto(self.tick);
        }
    }

    /// Take on a peer id: `id_add` allocates in its space from now on.
    pub fn local_peer_set(&mut self, peer: u8)
        requires
            old(self).wf(),
        ensures
            final(self).wf(),
            final(self)@ == (KernelView { local_peer: peer, ..old(self)@ }),
    {
        self.local_peer = peer;
    }

    /// Whether removed indices wait for `removal_release_upto`.
    pub fn removal_hold_set(&mut self, hold: bool)
        requires
            old(self).wf(),
        ensures
            final(self).wf(),
            final(self)@ == (KernelView { removal_hold: hold, ..old(self)@ }),
    {
        self.removal_hold = hold;
    }

    /// Removed ids not yet recycled, each with the tick of its removal.
    pub fn removal_log(&self) -> (r: &[(Id, u32)])
        ensures
            r@ == self@.removal_log,
    {
        self.removal_log.as_slice()
    }

    /// Release (recycle) logged removals stamped at or before `tick`. Only
    /// indices this instance owns are recycled; synced foreign ids are the
    /// owning peer's to reuse.
    pub fn removal_release_upto(&mut self, tick: u32)
        requires
            old(self).wf(),
        ensures
            final(self).wf(),
            (final(self)@.removal_log, final(self)@.ids) == release_from(
                old(self)@.removal_log,
                old(self)@.ids,
                0,
                tick,
                old(self)@.local_peer,
            ),
            final(self)@ == (KernelView {
                ids: final(self)@.ids,
                removal_log: final(self)@.removal_log,
                ..old(self)@
            }),
    {
        let mut i: usize = 0;
        while i < self.removal_log.len()
            invariant
                self.wf(),
                i <= self.removal_log@.len(),
                release_from(
                    self.removal_log@,
                    self.ids@,
                    i as int,
                    tick,
                    self.local_peer,
                ) == release_from(
                    old(self).removal_log@,
                    old(self).ids@,
                    0,
                    tick,
                    old(self).local_peer,
                ),
                self@ == (KernelView {
                    ids: self@.ids,
                    removal_log: self@.removal_log,
                    ..old(self)@
                }),
            decreases self.removal_log@.len() - i,
        {
            if self.removal_log[i].1 <= tick {
                let (id, _) = self.removal_log.swap_remove(i);
                if id.peer() == self.local_peer {
                    self.ids.release(id);
                }
            } else {
                i += 1;
            }
        }
    }

    // --- the tick -----------------------------------------------------------

    /// Register a PRESENT step (runs before the task cycle, in registration
    /// order).
    pub fn phase_present(&mut self, name: &str, token: u64)
        requires
            old(self).wf(),
        ensures
            final(self).wf(),
            final(self)@ == (KernelView {
                present: old(self)@.present.push(final(self)@.present.last()),
                ..old(self)@
            }),
            final(self)@.present.last().token == token,
            final(self)@.present.last().name@ == name@,
    {
        self.present.push(Phase { token, name: name.to_owned() });
    }

    /// Register a PRESENT step ahead of all others.
    pub fn phase_present_front(&mut self, name: &str, token: u64)
        requires
            old(self).wf(),
        ensures
            final(self).wf(),
            final(self)@ == (KernelView {
                present: old(self)@.present.insert(0, final(self)@.present[0]),
                ..old(self)@
            }),
            final(self)@.present[0].token == token,
            final(self)@.present[0].name@ == name@,
    {
        self.present.insert(0, Phase { token, name: name.to_owned() });
    }

    /// Register a COMMIT step (runs after the task cycle and the removal
    /// flush, in registration order).
    pub fn phase_commit(&mut self, name: &str, token: u64)
        requires
            old(self).wf(),
        ensures
            final(self).wf(),
            final(self)@ == (KernelView {
                commit: old(self)@.commit.push(final(self)@.commit.last()),
                ..old(self)@
            }),
            final(self)@.commit.last().token == token,
            final(self)@.commit.last().name@ == name@,
    {
        self.commit.push(Phase { token, name: name.to_owned() });
    }

    /// Register a COMMIT step ahead of all others.
    pub fn phase_commit_front(&mut self, name: &str, token: u64)
        requires
            old(self).wf(),
        ensures
            final(self).wf(),
            final(self)@ == (KernelView {
                commit: old(self)@.commit.insert(0, final(self)@.commit[0]),
                ..old(self)@
            }),
            final(self)@.commit[0].token == token,
            final(self)@.commit[0].name@ == name@,
    {
        self.commit.insert(0, Phase { token, name: name.to_owned() });
    }

    /// Take the PRESENT steps out to run them.
    pub fn present_take(&mut self) -> (r: Vec<Phase>)
        requires
            old(self).wf(),
        ensures
            final(self).wf(),
            r@ == old(self)@.present,
            final(self)@ == (KernelView { present: Seq::empty(), ..old(self)@ }),
    {
        let mut out: Vec<Phase> = Vec::new();
        std::mem::swap(&mut out, &mut self.present);
        out
    }

    /// Put the PRESENT steps back; those registered meanwhile follow them.
    pub fn present_put(&mut self, steps: Vec<Phase>)
        requires
            old(self).wf(),
        ensures
            final(self).wf(),
            final(self)@ == (KernelView { present: steps@ + old(self)@.present, ..old(self)@ }),
    {
        let mut all: Vec<Phase> = steps;
        all.append(&mut self.present);
        self.present = all;
    }

    /// Take the COMMIT steps out to run them.
    pub fn commit_take(&mut self) -> (r: Vec<Phase>)
        requires
            old(self).wf(),
        ensures
            final(self).wf(),
            r@ == old(self)@.commit,
            final(self)@ == (KernelView { commit: Seq::empty(), ..old(self)@ }),
    {
        let mut out: Vec<Phase> = Vec::new();
        std::mem::swap(&mut out, &mut self.commit);
        out
    }

    /// Put the COMMIT steps back; those registered meanwhile follow them.
    pub fn commit_put(&mut self, steps: Vec<Phase>)
        requires
            old(self).wf(),
        ensures
            final(self).wf(),
            final(self)@ == (KernelView { commit: steps@ + old(self)@.commit, ..old(self)@ }),
    {
        let mut all: Vec<Phase> = steps;
        all.append(&mut self.commit);
        self.commit = all;
    }

    /// Current kernel tick. Pool change stamps and the removal log are
    /// expressed in this clock.
    pub fn tick(&self) -> (r: u32)
        ensures
            r == self@.tick,
    {
        self.tick
    }

    /// Ask the loop to end after this tick.
    pub fn loop_quit(&mut self)
        requires
            old(self).wf(),
        ensures
            final(self).wf(),
            final(self)@ == (KernelView { quit: true, ..old(self)@ }),
    {
        self.quit = true;
    }

    /// Whether the loop was asked to end.
    pub fn quitting(&self) -> (r: bool)
        ensures
            r == self@.quit,
    {
        self.quit
    }

    /// Open a tick: advance the clock and stamp every pool with it.
    pub fn tick_begin(&mut self)
        requires
            old(self).wf(),
            old(self)@.tick < u32::MAX,
        ensures
            final(self).wf(),
            pools_stamped(old(self)@.pools, final(self)@.pools, (old(self)@.tick + 1) as u32),
            final(self)@ == (KernelView {
                tick: (old(self)@.tick + 1) as u32,
                pools: final(self)@.pools,
                ..old(self)@
            }),
    {
        self.tick = self.tick + 1;
        let ghost start = self.pools@;
        let mut i: usize = 0;
        while i < self.pools.len()
            invariant
                i <= self.pools@.len(),
                self.pools@.len() == start.len(),
                start == old(self).pools@,
                self.tick == old(self).tick + 1,
                self.ids.wf(),
                stat_names_distinct(self.stats@),
                pools_wf(start),
                pool_names_distinct(start),
                forall|k: int|
                    0 <= k < i ==> #[trigger] slot_stamped(start[k], self.pools@[k], self.tick),
                forall|k: int| i <= k < start.len() ==> #[trigger] self.pools@[k] == start[k],
                self@ == (KernelView { tick: self.tick, pools: self.pools@, ..old(self)@ }),
            decreases self.pools@.len() - i,
        {
            assert(self.pools@[i as int] == start[i as int]);
            if self.pools[i].attached {
                self.pools[i].pool.erased_tick_set(self.tick);
            }
            assert(slot_stamped(start[i as int], self.pools@[i as int], self.tick));
            i += 1;
        }
        proof {
            assert forall|i: int| 0 <= i < self.pools@.len() implies (
            #[trigger] self.pools@[i]).pool.erased_wf() by {
                assert(slot_stamped(start[i], self.pools@[i], self.tick));
                assert(start[i].pool.erased_wf());
            }
            assert forall|i: int, j: int|
                0 <= i < j < self.pools@.len() && (#[trigger] self.pools@[i]).attached && (
                #[trigger] self.pools@[j]).attached implies self.pools@[i].name@
                != self.pools@[j].name@ by {
                assert(slot_stamped(start[i], self.pools@[i], self.tick));
                assert(slot_stamped(start[j], self.pools@[j], self.tick));
                assert(start[i].attached && start[j].attached);
            }
        }
    }

    /// Hand out this tick's tasks in running order: lowest priority first,
    /// registration order within a priority. Until `tick_end` takes them
    /// back, tasks added meanwhile collect separately.
    pub fn tick_tasks(&mut self) -> (r: Vec<Task>)
        requires
            old(self).wf(),
        ensures
            final(self).wf(),
            old(self)@.tasks_dirty ==> stable_sort_of(r@, old(self)@.tasks),
            !old(self)@.tasks_dirty ==> r@ == old(self)@.tasks,
            final(self)@ == (KernelView {
                tasks: Seq::empty(),
                tasks_dirty: false,
                ..old(self)@
            }),
    {
        let mut running: Vec<Task> = Vec::new();
        std::mem::swap(&mut running, &mut self.tasks);
        if self.tasks_dirty {
            sort_stable(&mut running);
            self.tasks_dirty = false;
        }
        running
    }

    /// About to run a task: what it registers belongs to its module.
    pub fn task_enter(&mut self, task: &Task)
        requires
            old(self).wf(),
        ensures
            final(self).wf(),
            final(self)@ == (KernelView { current_module: task.module, ..old(self)@ }),
    {
        self.current_module = task.module.clone();
    }

    /// A task ran for `ns` nanoseconds and reported `error`, if any. An
    /// error benches the task and is recorded.
    pub fn task_done(&mut self, task: &mut Task, ns: u64, error: Option<String>)
        requires
            old(self).wf(),
        ensures
            final(self).wf(),
            *final(task) == (Task {
                faulted: old(task).faulted || error is Some,
                ..*old(task)
            }),
            stats_after(old(self)@.stats, final(self)@.stats, old(task).name@, ns),
            final(self)@ == (KernelView {
                current_module: None,
                stats: final(self)@.stats,
                faults: match error {
                    Some(e) => old(self)@.faults.push(
                        TaskFault {
                            task: old(task).name,
                            module: old(task).module,
                            tick: old(self)@.tick,
                            error: e,
                        },
                    ),
                    None => old(self)@.faults,
                },
                ..old(self)@
            }),
    {
        self.current_module = None;
        match error {
            Some(error) => {
                task.faulted = true;
                self.faults.push(
                    TaskFault {
                        task: task.name.clone(),
                        module: task.module.clone(),
                        tick: self.tick,
                        error,
                    },
                );
            },
            None => {},
        }
        self.stat_record(task.name.as_str(), ns);
    }

    /// Close a tick: merge the tasks that ran with those added meanwhile —
    /// dropping benched, superseded, stopped and torn-down ones — and flush
    /// the deferred removals.
    pub fn tick_end(&mut self, running: Vec<Task>)
        requires
            old(self).wf(),
        ensures
            final(self).wf(),
            final(self)@.tasks == merged_tasks(
                running@,
                old(self)@.tasks,
                old(self)@.replace_requests,
                old(self)@.stop_requests,
                old(self)@.module_stops,
            ),
            ({
                let killed = flush_killed(old(self)@.ids, old(self)@.pending_removes);
                let space = kill_all(old(self)@.ids, killed);
                let log = old(self)@.removal_log + stamped(killed, old(self)@.tick);
                &&& pools_erased(old(self)@.pools, final(self)@.pools, killed)
                &&& (final(self)@.removal_log, final(self)@.ids) == if old(self)@.removal_hold {
                    (log, space)
                } else {
                    release_from(log, space, 0, old(self)@.tick, old(self)@.local_peer)
                }
            }),
            final(self)@ == (KernelView {
                tasks: final(self)@.tasks,
                replace_requests: Seq::empty(),
                stop_requests: Seq::empty(),
                module_stops: Seq::empty(),
                pools: final(self)@.pools,
                ids: final(self)@.ids,
                pending_removes: Seq::empty(),
                removal_log: final(self)@.removal_log,
                ..old(self)@
            }),
    {
        let mut all: Vec<Task> = running;
        tasks_drop_faulted(&mut all);
        all.append(&mut self.tasks);
        let mut replaced: Vec<String> = Vec::new();
        std::mem::swap(&mut replaced, &mut self.replace_requests);
        let mut stopped: Vec<String> = Vec::new();
        std::mem::swap(&mut stopped, &mut self.stop_requests);
        let mut modules: Vec<String> = Vec::new();
        std::mem::swap(&mut modules, &mut self.module_stops);

        let ghost merged = all@;
        let mut i: usize = 0;
        assert(replaced@.subrange(0, 0) =~= Seq::<String>::empty());
        while i < replaced.len()
            invariant
                i <= replaced@.len(),
                all@ == keep_last_each(merged, replaced@.subrange(0, i as int)),
            decreases replaced@.len() - i,
        {
            tasks_keep_last(&mut all, replaced[i].as_str());
            i += 1;
            assert(replaced@.subrange(0, i as int).drop_last() =~= replaced@.subrange(0, i - 1));
        }
        assert(replaced@.subrange(0, i as int) =~= replaced@);

        let ghost kept = all@;
        i = 0;
        assert(stopped@.subrange(0, 0) =~= Seq::<String>::empty());
        while i < stopped.len()
            invariant
                i <= stopped@.len(),
                all@ == drop_named_each(kept, stopped@.subrange(0, i as int)),
            decreases stopped@.len() - i,
        {
            tasks_drop_named(&mut all, stopped[i].as_str());
            i += 1;
            assert(stopped@.subrange(0, i as int).drop_last() =~= stopped@.subrange(0, i - 1));
        }
        assert(stopped@.subrange(0, i as int) =~= stopped@);

        let ghost going = all@;
        i = 0;
        assert(modules@.subrange(0, 0) =~= Seq::<String>::empty());
        while i < modules.len()
            invariant
                i <= modules@.len(),
                all@ == drop_module_each(going, modules@.subrange(0, i as int)),
            decreases modules@.len() - i,
        {
            tasks_drop_module(&mut all, modules[i].as_str());
            i += 1;
            assert(modules@.subrange(0, i as int).drop_last() =~= modules@.subrange(0, i - 1));
        }
        assert(modules@.subrange(0, i as int) =~= modules@);

        self.tasks = all;
        self.id_process_removes();
    }
}

// --- laws --------------------------------------------------------------------

/// Killing an id never revives another handle.
proof fn kill_revives_nothing(space: IdSpace, x: Id, y: Id)
    requires
        space.kill(x).alive(y),
    ensures
        space.alive(y),
{
}

/// Killing a batch never revives a handle.
proof fn kill_all_revives_nothing(space: IdSpace, killed: Seq<Id>, y: Id)
    requires
        kill_all(space, killed).alive(y),
    ensures
        space.alive(y),
    decreases killed.len(),
{
    if killed.len() > 0 {
        kill_all_revives_nothing(space.kill(killed[0]), killed.drop_first(), y);
        kill_revives_nothing(space, killed[0], y);
    }
}

/// Deferred removal happens: after the flush no id whose removal was
/// requested is alive — duplicate and stale requests included.
pub proof fn requested_ids_are_dead_after_flush(space: IdSpace, pending: Seq<Id>, id: Id)
    requires
        pending.contains(id),
    ensures
        !kill_all(space, flush_killed(space, pending)).alive(id),
    decreases pending.len(),
{
    let last = pending.last();
    let rest = pending.drop_last();
    assert(pending =~= rest.push(last));
    crate::sort::contains_push(rest, last, id);
    if space.alive(last) {
        let next = space.kill(last);
        let tail = flush_killed(next, rest);
        assert((seq![last] + tail).drop_first() =~= tail);
        assert((seq![last] + tail)[0] == last);
        assert(kill_all(space, seq![last] + tail) == kill_all(next, tail));
        if id == last {
            assert(!next.alive(id));
            if kill_all(next, tail).alive(id) {
                kill_all_revives_nothing(next, tail, id);
            }
        } else {
            requested_ids_are_dead_after_flush(next, rest, id);
        }
    } else {
        if id == last {
            if kill_all(space, flush_killed(space, rest)).alive(id) {
                kill_all_revives_nothing(space, flush_killed(space, rest), id);
            }
        } else {
            requested_ids_are_dead_after_flush(space, rest, id);
        }
    }
}

/// The flush kills only ids that were requested and alive.
pub proof fn flush_kills_only_requested(space: IdSpace, pending: Seq<Id>)
    ensures
        forall|id: Id| #[trigger]
            flush_killed(space, pending).contains(id) ==> pending.contains(id) && space.alive(id),
    decreases pending.len(),
{
    if pending.len() > 0 {
        let last = pending.last();
        let rest = pending.drop_last();
        assert(pending =~= rest.push(last));
        flush_kills_only_requested(space, rest);
        flush_kills_only_requested(space.kill(last), rest);
        assert forall|id: Id| #[trigger] flush_killed(space, pending).contains(
            id,
        ) implies pending.contains(id) && space.alive(id) by {
            crate::sort::contains_push(rest, last, id);
            if space.alive(last) {
                let tail = flush_killed(space.kill(last), rest);
                let k = choose|k: int|
                    0 <= k < flush_killed(space, pending).len() && flush_killed(
                        space,
                        pending,
                    )[k] == id;
                if k > 0 {
                    assert(tail[k - 1] == id);
                    assert(tail.contains(id));
                    kill_revives_nothing(space, last, id);
                } else {
                    assert((seq![last] + tail)[0] == last);
                }
            } else {
                assert(flush_killed(space, rest).contains(id));
            }
        }
    }
}

/// A removed entity leaves every pool of the store that is not locked; a
/// locked pool keeps all its rows.
pub proof fn removed_ids_leave_unlocked_pools<P: ErasedPool>(
    before: Seq<PoolSlot<P>>,
    after: Seq<PoolSlot<P>>,
    gone: Seq<Id>,
    i: int,
    id: Id,
)
    requires
        pools_erased(before, after, gone),
        0 <= i < before.len(),
        before[i].attached,
        gone.contains(id),
    ensures
        !before[i].pool.erased_locked() ==> !after[i].pool.rows().contains(id),
        before[i].pool.erased_locked() ==> after[i].pool.rows() == before[i].pool.rows(),
{
    assert(slot_erased(before[i], after[i], gone));
}

/// A turn leaves what it was not asked to remove: after the stamping and the
/// flush, every row of a locked pool, and every row of another whose entity
/// was not removed, stands as it did, with its value and change tick.
pub proof fn untouched_rows_survive_a_turn<P: ErasedPool>(
    before: Seq<PoolSlot<P>>,
    mid: Seq<PoolSlot<P>>,
    after: Seq<PoolSlot<P>>,
    tick: u32,
    gone: Seq<Id>,
    i: int,
    slot: u32,
)
    requires
        pools_stamped(before, mid, tick),
        pools_erased(mid, after, gone),
        0 <= i < before.len(),
        before[i].pool.table().contains_key(slot),
        before[i].attached && !before[i].pool.erased_locked() ==> forall|x: Id| #[trigger]
            gone.contains(x) && before[i].pool.rows().contains(x) ==> x.slot_of() != slot,
    ensures
        after[i].pool.table().contains_key(slot),
        after[i].pool.table()[slot] == before[i].pool.table()[slot],
{
    assert(slot_stamped(before[i], mid[i], tick));
    assert(slot_erased(mid[i], after[i], gone));
}

/// Releasing up to `tick` keeps exactly the rows stamped after it, wherever
/// the walk starts with none of the earlier rows due.
proof fn release_from_rows(
    log: Seq<(Id, u32)>,
    space: IdSpace,
    i: int,
    tick: u32,
    local: u8,
    row: (Id, u32),
)
    requires
        0 <= i <= log.len(),
        forall|k: int| 0 <= k < i ==> (#[trigger] log[k]).1 > tick,
    ensures
        release_from(log, space, i, tick, local).0.contains(row) <==> log.contains(row) && row.1
            > tick,
    decreases log.len() - i,
{
    if i == log.len() {
        if log.contains(row) {
            let k = choose|k: int| 0 <= k < log.len() && log[k] == row;
            assert(log[k].1 > tick);
        }
    } else if log[i].1 <= tick {
        let next = log.update(i, log.last()).drop_last();
        release_from_rows(
            next,
            if log[i].0.peer_of() == local {
                space.release(log[i].0)
            } else {
                space
            },
            i,
            tick,
            local,
            row,
        );
        if log.contains(row) && row.1 > tick {
            let k = choose|k: int| 0 <= k < log.len() && log[k] == row;
            assert(k != i);
            if k == log.len() - 1 {
                assert(next[i] == row);
            } else {
                assert(next[k] == row);
            }
        }
        if next.contains(row) {
            let k = choose|k: int| 0 <= k < next.len() && next[k] == row;
            if k == i {
                assert(log[log.len() - 1] == row);
            } else {
                assert(log[k] == row);
            }
        }
    } else {
        release_from_rows(log, space, i + 1, tick, local, row);
    }
}

/// A removal stays logged — its index unreleased — until a release reaches
/// its tick, and is gone from the log afterwards.
pub proof fn release_keeps_exactly_later_removals(
    log: Seq<(Id, u32)>,
    space: IdSpace,
    tick: u32,
    local: u8,
)
    ensures
        forall|row: (Id, u32)| #[trigger]
            release_from(log, space, 0, tick, local).0.contains(row) <==> log.contains(row)
                && row.1 > tick,
{
    assert forall|row: (Id, u32)| #[trigger]
        release_from(log, space, 0, tick, local).0.contains(row) <==> log.contains(row) && row.1
            > tick by {
        release_from_rows(log, space, 0, tick, local, row);
    }
}

/// Whether `index` belongs to a logged removal of `local` at or before
/// `tick`.
pub open spec fn due_local(log: Seq<(Id, u32)>, tick: u32, local: u8, index: u16) -> bool {
    exists|j: int|
        0 <= j < log.len() && (#[trigger] log[j]).1 <= tick && log[j].0.peer_of() == local
            && log[j].0.index_of() == index
}

/// Every index a release puts on the local free list belongs to a logged
/// removal at or before its tick; other peers' lists do not change.
pub proof fn release_recycles_only_due_local_indices(
    log: Seq<(Id, u32)>,
    space: IdSpace,
    i: int,
    tick: u32,
    local: u8,
)
    requires
        0 <= i,
        forall|p: u8| #[trigger] space.free.contains_key(p),
    ensures
        ({
            let after = release_from(log, space, i, tick, local).1;
            &&& after.live == space.live
            &&& after.gens == space.gens
            &&& after.high == space.high
            &&& forall|p: u8| #[trigger] after.free.contains_key(p)
            &&& forall|p: u8| p != local ==> #[trigger] after.free[p] == space.free[p]
            &&& after.free[local].len() >= space.free[local].len()
            &&& forall|k: int|
                0 <= k < space.free[local].len() ==> #[trigger] after.free[local][k]
                    == space.free[local][k]
            &&& forall|k: int|
                space.free[local].len() <= k < after.free[local].len() ==> due_local(
                    log,
                    tick,
                    local,
                    #[trigger] after.free[local][k],
                )
        }),
    decreases log.len() - i,
{
    let after = release_from(log, space, i, tick, local).1;
    if i >= log.len() {
    } else if log[i].1 <= tick {
        let next = log.update(i, log.last()).drop_last();
        let row = log[i];
        let mid = if row.0.peer_of() == local {
            space.release(row.0)
        } else {
            space
        };
        release_recycles_only_due_local_indices(next, mid, i, tick, local);
        assert forall|k: int|
            space.free[local].len() <= k < after.free[local].len() implies due_local(
            log,
            tick,
            local,
            #[trigger] after.free[local][k],
        ) by {
            let index = after.free[local][k];
            if row.0.peer_of() == local && k == space.free[local].len() {
                assert(index == mid.free[local][k]);
                assert(log[i].0.index_of() == index);
            } else {
                assert(due_local(next, tick, local, index));
                let j = choose|j: int|
                    0 <= j < next.len() && (#[trigger] next[j]).1 <= tick && next[j].0.peer_of()
                        == local && next[j].0.index_of() == index;
                if j == i {
                    assert(log[log.len() - 1] == next[j]);
                } else {
                    assert(log[j] == next[j]);
                }
            }
        }
        assert forall|k: int|
            0 <= k < space.free[local].len() implies #[trigger] after.free[local][k]
                == space.free[local][k] by {
            assert(mid.free[local][k] == space.free[local][k]);
        }
    } else {
        release_recycles_only_due_local_indices(log, space, i + 1, tick, local);
    }
}

/// A filter by name or module drops its tasks for good: later filters only
/// shrink the list.
proof fn drop_module_each_members(tasks: Seq<Task>, names: Seq<String>, t: Task)
    requires
        drop_module_each(tasks, names).contains(t),
    ensures
        tasks.contains(t),
        forall|k: int|
            0 <= k < names.len() ==> !(t.module matches Some(m) && m@ == (
            #[trigger] names[k])@),
    decreases names.len(),
{
    if names.len() > 0 {
        let init = names.drop_last();
        crate::sort::filter_members(drop_module_each(tasks, init), not_of_module(names.last()@));
        drop_module_each_members(tasks, init, t);
        assert forall|k: int| 0 <= k < names.len() implies !(t.module matches Some(m) && m@ == (
        #[trigger] names[k])@) by {
            if k < init.len() {
                assert(init[k] == names[k]);
            }
        }
    }
}

proof fn drop_named_each_members(tasks: Seq<Task>, names: Seq<String>, t: Task)
    requires
        drop_named_each(tasks, names).contains(t),
    ensures
        tasks.contains(t),
        forall|k: int| 0 <= k < names.len() ==> t.name@ != (#[trigger] names[k])@,
    decreases names.len(),
{
    if names.len() > 0 {
        let init = names.drop_last();
        crate::sort::filter_members(drop_named_each(tasks, init), not_named(names.last()@));
        drop_named_each_members(tasks, init, t);
        assert forall|k: int| 0 <= k < names.len() implies t.name@ != (#[trigger] names[k])@ by {
            if k < init.len() {
                assert(init[k] == names[k]);
            }
        }
    }
}

proof fn keep_last_members(tasks: Seq<Task>, name: Seq<char>, t: Task)
    requires
        keep_last(tasks, name).contains(t),
    ensures
        tasks.contains(t),
    decreases tasks.len(),
{
    if tasks.len() > 0 {
        let init = tasks.drop_last();
        assert(tasks =~= init.push(tasks.last()));
        crate::sort::contains_push(init, tasks.last(), t);
        if tasks.last().name@ == name {
            crate::sort::contains_push(init.filter(not_named(name)), tasks.last(), t);
            crate::sort::filter_members(init, not_named(name));
        } else {
            crate::sort::contains_push(keep_last(init, name), tasks.last(), t);
            if keep_last(init, name).contains(t) {
                keep_last_members(init, name, t);
            }
        }
    }
}

proof fn keep_last_each_members(tasks: Seq<Task>, names: Seq<String>, t: Task)
    requires
        keep_last_each(tasks, names).contains(t),
    ensures
        tasks.contains(t),
    decreases names.len(),
{
    if names.len() > 0 {
        keep_last_members(keep_last_each(tasks, names.drop_last()), names.last()@, t);
        keep_last_each_members(tasks, names.drop_last(), t);
    }
}

/// After a tick no task is left that faulted while it ran, that was stopped
/// by name, or whose module was torn down; and nothing appears that neither
/// ran nor was added.
pub proof fn finished_tick_drops_benched_and_stopped(
    running: Seq<Task>,
    added: Seq<Task>,
    replaced: Seq<String>,
    stopped: Seq<String>,
    modules: Seq<String>,
    t: Task,
)
    requires
        merged_tasks(running, added, replaced, stopped, modules).contains(t),
    ensures
        (running.contains(t) && !t.faulted) || added.contains(t),
        forall|k: int| 0 <= k < stopped.len() ==> t.name@ != (#[trigger] stopped[k])@,
        forall|k: int|
            0 <= k < modules.len() ==> !(t.module matches Some(m) && m@ == (
            #[trigger] modules[k])@),
{
    let merged = running.filter(healthy()) + added;
    let kept = keep_last_each(merged, replaced);
    let going = drop_named_each(kept, stopped);
    drop_module_each_members(going, modules, t);
    drop_named_each_members(kept, stopped, t);
    keep_last_each_members(merged, replaced, t);
    crate::sort::filter_members(running, healthy());
    let k = choose|k: int| 0 <= k < merged.len() && merged[k] == t;
    if k < running.filter(healthy()).len() {
        assert(running.filter(healthy())[k] == t);
        assert(running.filter(healthy()).contains(t));
    } else {
        assert(added[k - running.filter(healthy()).len()] == t);
    }
}

/// How many tasks of a list have this name.
pub open spec fn count_named(tasks: Seq<Task>, name: Seq<char>) -> nat
    decreases tasks.len(),
{
    if tasks.len() == 0 {
        0
    } else {
        count_named(tasks.drop_last(), name) + if tasks.last().name@ == name {
            1nat
        } else {
            0nat
        }
    }
}

/// A filter never grows the count of a name.
proof fn count_named_filter(tasks: Seq<Task>, f: spec_fn(Task) -> bool, name: Seq<char>)
    ensures
        count_named(tasks.filter(f), name) <= count_named(tasks, name),
        (forall|t: Task| t.name@ == name ==> !#[trigger] f(t)) ==> count_named(
            tasks.filter(f),
            name,
        ) == 0,
    decreases tasks.len(),
{
    reveal(Seq::filter);
    if tasks.len() > 0 {
        let init = tasks.drop_last();
        count_named_filter(init, f, name);
        assert(init.filter(f).push(tasks.last()).drop_last() =~= init.filter(f));
    }
}

/// Superseding a name leaves at most one task of it and never adds any.
proof fn keep_last_counts(tasks: Seq<Task>, by: Seq<char>, name: Seq<char>)
    ensures
        count_named(keep_last(tasks, by), name) <= count_named(tasks, name),
        by == name ==> count_named(keep_last(tasks, by), name) <= 1,
    decreases tasks.len(),
{
    if tasks.len() > 0 {
        let init = tasks.drop_last();
        if tasks.last().name@ == by {
            count_named_filter(init, not_named(by), name);
            let kept = init.filter(not_named(by));
            assert(kept.push(tasks.last()).drop_last() =~= kept);
        } else {
            keep_last_counts(init, by, name);
            let kept = keep_last(init, by);
            assert(kept.push(tasks.last()).drop_last() =~= kept);
        }
    }
}

proof fn keep_last_each_counts(tasks: Seq<Task>, names: Seq<String>, name: Seq<char>)
    ensures
        count_named(keep_last_each(tasks, names), name) <= count_named(tasks, name),
        (exists|k: int| 0 <= k < names.len() && (#[trigger] names[k])@ == name) ==> count_named(
            keep_last_each(tasks, names),
            name,
        ) <= 1,
    decreases names.len(),
{
    if names.len() > 0 {
        let init = names.drop_last();
        keep_last_each_counts(tasks, init, name);
        keep_last_counts(keep_last_each(tasks, init), names.last()@, name);
        if exists|k: int| 0 <= k < names.len() && (#[trigger] names[k])@ == name {
            let k = choose|k: int| 0 <= k < names.len() && (#[trigger] names[k])@ == name;
            if k < init.len() {
                assert(init[k]@ == name);
            }
        }
    }
}

proof fn drop_named_each_counts(tasks: Seq<Task>, names: Seq<String>, name: Seq<char>)
    ensures
        count_named(drop_named_each(tasks, names), name) <= count_named(tasks, name),
    decreases names.len(),
{
    if names.len() > 0 {
        drop_named_each_counts(tasks, names.drop_last(), name);
        count_named_filter(
            drop_named_each(tasks, names.drop_last()),
            not_named(names.last()@),
            name,
        );
    }
}

proof fn drop_module_each_counts(tasks: Seq<Task>, names: Seq<String>, name: Seq<char>)
    ensures
        count_named(drop_module_each(tasks, names), name) <= count_named(tasks, name),
    decreases names.len(),
{
    if names.len() > 0 {
        drop_module_each_counts(tasks, names.drop_last(), name);
        count_named_filter(
            drop_module_each(tasks, names.drop_last()),
            not_of_module(names.last()@),
            name,
        );
    }
}

/// A task replaced during a tick never survives next to its replacement: at
/// most one task of the replaced name is left.
pub proof fn replaced_task_is_unique(
    running: Seq<Task>,
    added: Seq<Task>,
    replaced: Seq<String>,
    stopped: Seq<String>,
    modules: Seq<String>,
    k: int,
)
    requires
        0 <= k < replaced.len(),
    ensures
        count_named(
            merged_tasks(running, added, replaced, stopped, modules),
            replaced[k]@,
        ) <= 1,
{
    let name = replaced[k]@;
    let merged = running.filter(healthy()) + added;
    let kept = keep_last_each(merged, replaced);
    keep_last_each_counts(merged, replaced, name);
    drop_named_each_counts(kept, stopped, name);
    drop_module_each_counts(drop_named_each(kept, stopped), modules, name);
}

/// A pool is there, and has rows, where one attached under the name is and
/// has; detaching a name detaches every pool under it and no other.
pub proof fn pools_are_known_by_name<P: ErasedPool>(
    pools: Seq<PoolSlot<P>>,
    name: Seq<char>,
    i: int,
)
    requires
        0 <= i < pools.len(),
    ensures
        pools[i].attached && pools[i].name@ == name ==> has_pool(pools, name),
        pools[i].attached && pools[i].name@ == name && pools[i].pool.rows().len() > 0 ==> has_rows(
            pools,
            name,
        ),
        has_pool(pools, name) ==> exists|k: int|
            0 <= k < pools.len() && (#[trigger] pools[k]).attached && pools[k].name@ == name,
        has_rows(pools, name) ==> exists|k: int|
            0 <= k < pools.len() && (#[trigger] pools[k]).attached && pools[k].name@ == name
                && pools[k].pool.rows().len() > 0,
        pools_without_name(pools, name).len() == pools.len(),
        pools[i].name@ == name ==> pools_without_name(pools, name)[i] == (PoolSlot {
            attached: false,
            ..pools[i]
        }),
        pools[i].name@ != name ==> pools_without_name(pools, name)[i] == pools[i],
{
}

} // verus!
