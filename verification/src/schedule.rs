//! What the task list and the removal flush promise, task by task: what a
//! tick keeps and in which order, what stopping, replacing and tearing down
//! take, in which order tasks run, and what the timing table says of them.

use vstd::prelude::*;

use crate::id::{slot_and_generation_identify, Id, IdSpace};
use crate::kernel::{
    attached_counts, drop_module_each, drop_named_each, flush_killed, flush_kills_only_requested,
    healthy, keep_last, keep_last_each, kill_all, merged_tasks, not_named, not_of_module,
    pools_stamped, pools_without_module, pools_without_name, release_from,
    release_recycles_only_due_local_indices, requested_ids_are_dead_after_flush, slot_stamped,
    stamped, stat_after, stats_after, NamedStat, PoolSlot, PoolStat, Task, TaskStat,
};
use crate::order::{lt_num, total_rank, total_rank_injective, total_refines_num};
use crate::pool::ErasedPool;
use crate::sort::{
    filter_none, stable_sort, stable_sort_exists, stable_sort_of, stable_sort_unique, with_rank,
};
use crate::text::{lex_le, utf8};

verus! {

// --- picking ----------------------------------------------------------------

/// `out` holds the elements of `s` at the positions `at`, in their order.
pub open spec fn taken_at<T>(out: Seq<T>, s: Seq<T>, at: Seq<int>) -> bool {
    &&& out.len() == at.len()
    &&& forall|k: int| 0 <= k < at.len() ==> 0 <= #[trigger] at[k] < s.len() && out[k] == s[at[k]]
    &&& forall|j: int, k: int| 0 <= j < k < at.len() ==> (#[trigger] at[j]) < (#[trigger] at[k])
}

/// A filter takes exactly the positions that pass.
pub proof fn filter_takes<T>(s: Seq<T>, f: spec_fn(T) -> bool) -> (at: Seq<int>)
    ensures
        taken_at(s.filter(f), s, at),
        forall|i: int| 0 <= i < s.len() ==> (#[trigger] at.contains(i) <==> f(s[i])),
    decreases s.len(),
{
    reveal(Seq::filter);
    if s.len() == 0 {
        Seq::empty()
    } else {
        let init = s.drop_last();
        let before = filter_takes(init, f);
        let n = s.len() - 1;
        let at = if f(s.last()) {
            before.push(n)
        } else {
            before
        };
        assert forall|k: int| 0 <= k < at.len() implies 0 <= #[trigger] at[k] < s.len() && s.filter(
            f,
        )[k] == s[at[k]] by {
            if k < before.len() {
                assert(at[k] == before[k]);
                assert(init[before[k]] == s[at[k]]);
            }
        }
        assert forall|j: int, k: int| 0 <= j < k < at.len() implies (#[trigger] at[j]) < (
        #[trigger] at[k]) by {
            assert(at[j] == before[j]);
            if k < before.len() {
                assert(at[k] == before[k]);
            }
        }
        assert forall|i: int| 0 <= i < s.len() implies (#[trigger] at.contains(i) <==> f(s[i])) by {
            crate::sort::contains_push(before, n, i);
            if i < n {
                assert(before.contains(i) <==> f(init[i]));
            } else if before.contains(i) {
                let k = choose|k: int| 0 <= k < before.len() && before[k] == i;
                assert(before[k] < init.len());
            }
        }
        at
    }
}

/// Taking from what was taken: the positions chain.
proof fn taken_twice<T>(c: Seq<T>, b: Seq<T>, a: Seq<T>, y: Seq<int>, x: Seq<int>) -> (at: Seq<int>)
    requires
        taken_at(b, a, x),
        taken_at(c, b, y),
    ensures
        taken_at(c, a, at),
        at == y.map_values(|k: int| x[k]),
        forall|i: int| #[trigger]
            at.contains(i) <==> exists|k: int| 0 <= k < x.len() && x[k] == i && #[trigger] y.contains(k),
{
    let at = y.map_values(|k: int| x[k]);
    assert forall|k: int| 0 <= k < at.len() implies 0 <= #[trigger] at[k] < a.len() && c[k]
        == a[at[k]] by {
        assert(0 <= y[k] < b.len());
        assert(0 <= x[y[k]] < a.len());
    }
    assert forall|j: int, k: int| 0 <= j < k < at.len() implies (#[trigger] at[j]) < (
    #[trigger] at[k]) by {
        assert(y[j] < y[k]);
        assert(0 <= y[j] && y[k] < b.len());
    }
    assert forall|i: int| #[trigger]
        at.contains(i) <==> exists|k: int| 0 <= k < x.len() && x[k] == i && #[trigger] y.contains(k) by {
        if at.contains(i) {
            let j = choose|j: int| 0 <= j < at.len() && at[j] == i;
            assert(y.contains(y[j]));
            assert(0 <= y[j] < b.len() && x[y[j]] == i);
        }
        if exists|k: int| 0 <= k < x.len() && x[k] == i && #[trigger] y.contains(k) {
            let k = choose|k: int| 0 <= k < x.len() && x[k] == i && #[trigger] y.contains(k);
            let j = choose|j: int| 0 <= j < y.len() && y[j] == k;
            assert(at[j] == i);
        }
    }
    at
}

// --- the list a tick leaves -------------------------------------------------

/// Whether these names hold one.
pub open spec fn named(names: Seq<String>, name: Seq<char>) -> bool {
    exists|k: int| 0 <= k < names.len() && (#[trigger] names[k])@ == name
}

/// Whether a task belongs to one of these modules.
pub open spec fn owned_by(modules: Seq<String>, t: Task) -> bool {
    t.module matches Some(m) && named(modules, m@)
}

/// Whether no task of the same name comes after this one.
pub open spec fn last_of_its_name(tasks: Seq<Task>, i: int) -> bool {
    forall|j: int| i < j < tasks.len() ==> (#[trigger] tasks[j]).name@ != tasks[i].name@
}

/// Keeping the last of a name drops exactly the earlier tasks of that name.
proof fn keep_last_takes(tasks: Seq<Task>, name: Seq<char>) -> (at: Seq<int>)
    ensures
        taken_at(keep_last(tasks, name), tasks, at),
        forall|i: int|
            0 <= i < tasks.len() ==> (#[trigger] at.contains(i) <==> tasks[i].name@ != name
                || last_of_its_name(tasks, i)),
    decreases tasks.len(),
{
    if tasks.len() == 0 {
        Seq::empty()
    } else {
        let init = tasks.drop_last();
        let n = tasks.len() - 1;
        let same = tasks.last().name@ == name;
        let before = if same {
            filter_takes(init, not_named(name))
        } else {
            keep_last_takes(init, name)
        };
        let at = before.push(n);
        let out = keep_last(tasks, name);
        assert forall|k: int| 0 <= k < at.len() implies 0 <= #[trigger] at[k] < tasks.len()
            && out[k] == tasks[at[k]] by {
            if k < before.len() {
                assert(at[k] == before[k]);
                assert(init[before[k]] == tasks[at[k]]);
            }
        }
        assert forall|j: int, k: int| 0 <= j < k < at.len() implies (#[trigger] at[j]) < (
        #[trigger] at[k]) by {
            assert(at[j] == before[j]);
            if k < before.len() {
                assert(at[k] == before[k]);
            }
        }
        assert forall|i: int| 0 <= i < tasks.len() implies (#[trigger] at.contains(i)
            <==> tasks[i].name@ != name || last_of_its_name(tasks, i)) by {
            crate::sort::contains_push(before, n, i);
            if i < n {
                assert(init[i] == tasks[i]);
                if same {
                    assert(before.contains(i) <==> not_named(name)(init[i]));
                    assert(tasks[n].name@ == name);
                } else {
                    assert(before.contains(i) <==> init[i].name@ != name || last_of_its_name(
                        init,
                        i,
                    ));
                    if tasks[i].name@ == name {
                        if last_of_its_name(init, i) {
                            assert forall|j: int| i < j < tasks.len() implies (
                            #[trigger] tasks[j]).name@ != tasks[i].name@ by {
                                if j < n {
                                    assert(init[j] == tasks[j]);
                                }
                            }
                        }
                        if last_of_its_name(tasks, i) {
                            assert forall|j: int| i < j < init.len() implies (
                            #[trigger] init[j]).name@ != init[i].name@ by {
                                assert(init[j] == tasks[j]);
                            }
                        }
                    }
                }
            }
        }
        at
    }
}

/// The position of the last task of a name, at or after one of that name.
proof fn last_named(tasks: Seq<Task>, i: int) -> (j: int)
    requires
        0 <= i < tasks.len(),
    ensures
        i <= j < tasks.len(),
        tasks[j].name@ == tasks[i].name@,
        last_of_its_name(tasks, j),
    decreases tasks.len() - i,
{
    if last_of_its_name(tasks, i) {
        i
    } else {
        let k = choose|k: int|
            i < k < tasks.len() && (#[trigger] tasks[k]).name@ == tasks[i].name@;
        last_named(tasks, k)
    }
}

/// Keeping the last of each of these names.
proof fn keep_last_each_takes(tasks: Seq<Task>, names: Seq<String>) -> (at: Seq<int>)
    ensures
        taken_at(keep_last_each(tasks, names), tasks, at),
        forall|i: int|
            0 <= i < tasks.len() ==> (#[trigger] at.contains(i) <==> !named(names, tasks[i].name@)
                || last_of_its_name(tasks, i)),
    decreases names.len(),
{
    if names.len() == 0 {
        let at = Seq::new(tasks.len(), |i: int| i);
        assert forall|i: int| 0 <= i < tasks.len() implies #[trigger] at.contains(i) by {
            assert(at[i] == i);
        }
        at
    } else {
        let init = names.drop_last();
        let name = names.last()@;
        let x = keep_last_each_takes(tasks, init);
        let mid = keep_last_each(tasks, init);
        let y = keep_last_takes(mid, name);
        let at = taken_twice(keep_last(mid, name), mid, tasks, y, x);
        assert forall|i: int| 0 <= i < tasks.len() implies (#[trigger] at.contains(i) <==> !named(
            names,
            tasks[i].name@,
        ) || last_of_its_name(tasks, i)) by {
            assert(x.contains(i) <==> !named(init, tasks[i].name@) || last_of_its_name(tasks, i));
            assert(named(names, tasks[i].name@) <==> named(init, tasks[i].name@) || tasks[i].name@
                == name) by {
                assert(names[names.len() - 1]@ == name);
                if named(init, tasks[i].name@) {
                    let k = choose|k: int|
                        0 <= k < init.len() && (#[trigger] init[k])@ == tasks[i].name@;
                    assert(names[k]@ == tasks[i].name@);
                }
                if named(names, tasks[i].name@) && tasks[i].name@ != name {
                    let k = choose|k: int|
                        0 <= k < names.len() && (#[trigger] names[k])@ == tasks[i].name@;
                    assert(init[k]@ == tasks[i].name@);
                }
            }
            if at.contains(i) {
                let k = choose|k: int| 0 <= k < x.len() && x[k] == i && #[trigger] y.contains(k);
                assert(x.contains(i));
                assert(mid[k] == tasks[i]);
                if named(names, tasks[i].name@) && !last_of_its_name(tasks, i) {
                    assert(tasks[i].name@ == name);
                    let j = last_named(tasks, i);
                    assert(j != i);
                    assert(x.contains(j));
                    let m = choose|m: int| 0 <= m < x.len() && x[m] == j;
                    assert(mid[m] == tasks[j]);
                    if m <= k {
                        assert(m == k || x[m] < x[k]);
                    }
                    assert(last_of_its_name(mid, k));
                }
            }
            if !named(names, tasks[i].name@) || last_of_its_name(tasks, i) {
                assert(x.contains(i));
                let k = choose|k: int| 0 <= k < x.len() && x[k] == i;
                assert(mid[k] == tasks[i]);
                if mid[k].name@ == name {
                    assert forall|m: int| k < m < mid.len() implies (#[trigger] mid[m]).name@
                        != mid[k].name@ by {
                        assert(x[k] < x[m]);
                        assert(mid[m] == tasks[x[m]]);
                    }
                    assert(last_of_its_name(mid, k));
                }
                assert(y.contains(k));
            }
        }
        at
    }
}

/// Dropping everything of these names.
proof fn drop_named_each_takes(tasks: Seq<Task>, names: Seq<String>) -> (at: Seq<int>)
    ensures
        taken_at(drop_named_each(tasks, names), tasks, at),
        forall|i: int|
            0 <= i < tasks.len() ==> (#[trigger] at.contains(i) <==> !named(names, tasks[i].name@)),
    decreases names.len(),
{
    if names.len() == 0 {
        let at = Seq::new(tasks.len(), |i: int| i);
        assert forall|i: int| 0 <= i < tasks.len() implies #[trigger] at.contains(i) by {
            assert(at[i] == i);
        }
        at
    } else {
        let init = names.drop_last();
        let name = names.last()@;
        let x = drop_named_each_takes(tasks, init);
        let mid = drop_named_each(tasks, init);
        let y = filter_takes(mid, not_named(name));
        let at = taken_twice(mid.filter(not_named(name)), mid, tasks, y, x);
        assert forall|i: int| 0 <= i < tasks.len() implies (#[trigger] at.contains(i) <==> !named(
            names,
            tasks[i].name@,
        )) by {
            assert(x.contains(i) <==> !named(init, tasks[i].name@));
            assert(names[names.len() - 1]@ == name);
            assert forall|k: int| 0 <= k < init.len() implies #[trigger] names[k] == init[k] by {
            }
            if at.contains(i) {
                let k = choose|k: int| 0 <= k < x.len() && x[k] == i && #[trigger] y.contains(k);
                assert(x.contains(i));
                assert(mid[k] == tasks[i]);
                assert(y.contains(k) <==> not_named(name)(mid[k]));
                if named(names, tasks[i].name@) {
                    let n = choose|n: int|
                        0 <= n < names.len() && (#[trigger] names[n])@ == tasks[i].name@;
                    assert(n < init.len());
                    assert(init[n]@ == tasks[i].name@);
                }
            }
            if !named(names, tasks[i].name@) {
                assert(!named(init, tasks[i].name@)) by {
                    if named(init, tasks[i].name@) {
                        let n = choose|n: int|
                            0 <= n < init.len() && (#[trigger] init[n])@ == tasks[i].name@;
                        assert(names[n]@ == tasks[i].name@);
                    }
                }
                assert(x.contains(i));
                let k = choose|k: int| 0 <= k < x.len() && x[k] == i;
                assert(mid[k] == tasks[i]);
                assert(y.contains(k) <==> not_named(name)(mid[k]));
            }
        }
        at
    }
}

/// Dropping everything of these modules.
proof fn drop_module_each_takes(tasks: Seq<Task>, names: Seq<String>) -> (at: Seq<int>)
    ensures
        taken_at(drop_module_each(tasks, names), tasks, at),
        forall|i: int|
            0 <= i < tasks.len() ==> (#[trigger] at.contains(i) <==> !owned_by(names, tasks[i])),
    decreases names.len(),
{
    if names.len() == 0 {
        let at = Seq::new(tasks.len(), |i: int| i);
        assert forall|i: int| 0 <= i < tasks.len() implies #[trigger] at.contains(i) by {
            assert(at[i] == i);
        }
        at
    } else {
        let init = names.drop_last();
        let name = names.last()@;
        let x = drop_module_each_takes(tasks, init);
        let mid = drop_module_each(tasks, init);
        let y = filter_takes(mid, not_of_module(name));
        let at = taken_twice(mid.filter(not_of_module(name)), mid, tasks, y, x);
        assert forall|i: int| 0 <= i < tasks.len() implies (#[trigger] at.contains(i)
            <==> !owned_by(names, tasks[i])) by {
            assert(x.contains(i) <==> !owned_by(init, tasks[i]));
            assert(names[names.len() - 1]@ == name);
            assert forall|k: int| 0 <= k < init.len() implies #[trigger] names[k] == init[k] by {
            }
            if at.contains(i) {
                let k = choose|k: int| 0 <= k < x.len() && x[k] == i && #[trigger] y.contains(k);
                assert(x.contains(i));
                assert(mid[k] == tasks[i]);
                assert(y.contains(k) <==> not_of_module(name)(mid[k]));
                if owned_by(names, tasks[i]) {
                    let m = tasks[i].module->0@;
                    let n = choose|n: int| 0 <= n < names.len() && (#[trigger] names[n])@ == m;
                    assert(n < init.len());
                    assert(init[n]@ == m);
                    assert(named(init, m));
                }
            }
            if !owned_by(names, tasks[i]) {
                assert(!owned_by(init, tasks[i])) by {
                    if owned_by(init, tasks[i]) {
                        let m = tasks[i].module->0@;
                        let n = choose|n: int| 0 <= n < init.len() && (#[trigger] init[n])@ == m;
                        assert(names[n]@ == m);
                        assert(named(names, m));
                    }
                }
                assert(x.contains(i));
                let k = choose|k: int| 0 <= k < x.len() && x[k] == i;
                assert(mid[k] == tasks[i]);
                if tasks[i].module is Some && tasks[i].module->0@ == name {
                    assert(named(names, tasks[i].module->0@));
                }
                assert(y.contains(k) <==> not_of_module(name)(mid[k]));
            }
        }
        at
    }
}

/// Whether the task at this position, of those that ran and then those added
/// meanwhile, runs on: it did not fault, it was not stopped, its module was
/// not torn down, and if its name was replaced it is the last of that name
/// that did not fault.
pub open spec fn runs_on(
    running: Seq<Task>,
    added: Seq<Task>,
    replaced: Seq<String>,
    stopped: Seq<String>,
    modules: Seq<String>,
    i: int,
) -> bool {
    let all = running + added;
    let fell = |j: int| j < running.len() && all[j].faulted;
    &&& !fell(i)
    &&& !named(stopped, all[i].name@)
    &&& !owned_by(modules, all[i])
    &&& named(replaced, all[i].name@) ==> forall|j: int|
        i < j < all.len() && !fell(j) ==> (#[trigger] all[j]).name@ != all[i].name@
}

/// What a tick keeps, task by task: of those that ran and those added
/// meanwhile, in that order, exactly the ones that run on are in the list it
/// leaves, each in its old relative order.
pub proof fn a_tick_keeps_exactly(
    running: Seq<Task>,
    added: Seq<Task>,
    replaced: Seq<String>,
    stopped: Seq<String>,
    modules: Seq<String>,
) -> (at: Seq<int>)
    ensures
        taken_at(
            merged_tasks(running, added, replaced, stopped, modules),
            running + added,
            at,
        ),
        forall|i: int|
            0 <= i < running.len() + added.len() ==> (#[trigger] at.contains(i) <==> runs_on(
                running,
                added,
                replaced,
                stopped,
                modules,
                i,
            )),
{
    let all = running + added;
    let fit = running.filter(healthy());
    let base = fit + added;
    let x0 = filter_takes(running, healthy());
    let n = running.len() as int;
    let x = x0 + Seq::new(added.len(), |k: int| n + k);
    assert(taken_at(base, all, x)) by {
        assert forall|k: int| 0 <= k < x.len() implies 0 <= #[trigger] x[k] < all.len() && base[k]
            == all[x[k]] by {
            if k < x0.len() {
                assert(x[k] == x0[k]);
                assert(0 <= x0[k] < running.len());
            } else {
                assert(base[k] == added[k - fit.len()]);
            }
        }
        assert forall|j: int, k: int| 0 <= j < k < x.len() implies (#[trigger] x[j]) < (
        #[trigger] x[k]) by {
            if j < x0.len() {
                assert(x[j] == x0[j] && x0[j] < n);
                if k < x0.len() {
                    assert(x[k] == x0[k]);
                }
            }
        }
    }
    assert forall|i: int| 0 <= i < all.len() implies (#[trigger] x.contains(i) <==> !(i < n
        && all[i].faulted)) by {
        if i < n {
            assert(x0.contains(i) <==> healthy()(running[i]));
            if x0.contains(i) {
                let k = choose|k: int| 0 <= k < x0.len() && x0[k] == i;
                assert(x[k] == i);
            }
            if x.contains(i) {
                let k = choose|k: int| 0 <= k < x.len() && x[k] == i;
                assert(k < x0.len());
                assert(x0[k] == i);
            }
        } else {
            assert(x[x0.len() + (i - n)] == i);
        }
    }
    let kept = keep_last_each(base, replaced);
    let y = keep_last_each_takes(base, replaced);
    let xy = taken_twice(kept, base, all, y, x);
    let going = drop_named_each(kept, stopped);
    let z = drop_named_each_takes(kept, stopped);
    let xyz = taken_twice(going, kept, all, z, xy);
    let out = drop_module_each(going, modules);
    let w = drop_module_each_takes(going, modules);
    let at = taken_twice(out, going, all, w, xyz);
    assert forall|i: int| 0 <= i < all.len() implies (#[trigger] xy.contains(i) <==> x.contains(i)
        && (named(replaced, all[i].name@) ==> forall|j: int|
        i < j < all.len() && !(j < n && all[j].faulted) ==> (#[trigger] all[j]).name@
            != all[i].name@)) by {
        if x.contains(i) {
            let k = choose|k: int| 0 <= k < x.len() && x[k] == i;
            assert(base[k] == all[i]);
            assert(y.contains(k) <==> !named(replaced, base[k].name@) || last_of_its_name(base, k));
            if last_of_its_name(base, k) {
                assert forall|j: int|
                    i < j < all.len() && !(j < n && all[j].faulted) implies (
                #[trigger] all[j]).name@ != all[i].name@ by {
                    assert(x.contains(j));
                    let m = choose|m: int| 0 <= m < x.len() && x[m] == j;
                    assert(base[m] == all[j]);
                    if m <= k {
                        assert(m == k || x[m] < x[k]);
                    }
                }
            }
            if forall|j: int|
                i < j < all.len() && !(j < n && all[j].faulted) ==> (#[trigger] all[j]).name@
                    != all[i].name@ {
                assert forall|m: int| k < m < base.len() implies (#[trigger] base[m]).name@
                    != base[k].name@ by {
                    assert(x[k] < x[m]);
                    assert(base[m] == all[x[m]]);
                    assert(x.contains(x[m]));
                }
                assert(last_of_its_name(base, k));
            }
            if xy.contains(i) {
                let k2 = choose|k2: int| 0 <= k2 < x.len() && x[k2] == i && #[trigger] y.contains(
                    k2,
                );
                if k2 < k {
                    assert(x[k2] < x[k]);
                } else if k < k2 {
                    assert(x[k] < x[k2]);
                }
            }
        }
    }
    assert forall|i: int| 0 <= i < all.len() implies (#[trigger] xyz.contains(i) <==> xy.contains(i)
        && !named(stopped, all[i].name@)) by {
        if xy.contains(i) {
            let k = choose|k: int| 0 <= k < xy.len() && xy[k] == i;
            assert(kept[k] == all[i]);
            assert(z.contains(k) <==> !named(stopped, kept[k].name@));
            if xyz.contains(i) {
                let k2 = choose|k2: int| 0 <= k2 < xy.len() && xy[k2] == i && #[trigger] z.contains(
                    k2,
                );
                if k2 < k {
                    assert(xy[k2] < xy[k]);
                } else if k < k2 {
                    assert(xy[k] < xy[k2]);
                }
            }
        }
    }
    assert forall|i: int| 0 <= i < all.len() implies (#[trigger] at.contains(i) <==> runs_on(
        running,
        added,
        replaced,
        stopped,
        modules,
        i,
    )) by {
        assert(xyz.contains(i) <==> xy.contains(i) && !named(stopped, all[i].name@));
        assert(xy.contains(i) <==> x.contains(i) && (named(replaced, all[i].name@)
            ==> forall|j: int|
            i < j < all.len() && !(j < n && all[j].faulted) ==> (#[trigger] all[j]).name@
                != all[i].name@));
        assert(x.contains(i) <==> !(i < n && all[i].faulted));
        if xyz.contains(i) {
            let k = choose|k: int| 0 <= k < xyz.len() && xyz[k] == i;
            assert(going[k] == all[i]);
            assert(w.contains(k) <==> !owned_by(modules, going[k]));
            if at.contains(i) {
                let k2 = choose|k2: int| 0 <= k2 < xyz.len() && xyz[k2] == i
                    && #[trigger] w.contains(k2);
                if k2 < k {
                    assert(xyz[k2] < xyz[k]);
                } else if k < k2 {
                    assert(xyz[k] < xyz[k2]);
                }
            }
        }
    }
    at
}

/// A task nobody asked to stop runs on: one that ran without faulting or was
/// added meanwhile, whose name was neither stopped nor replaced and whose
/// module was not torn down, is in the list the tick leaves.
pub proof fn tasks_nobody_stopped_run_on(
    running: Seq<Task>,
    added: Seq<Task>,
    replaced: Seq<String>,
    stopped: Seq<String>,
    modules: Seq<String>,
    t: Task,
)
    requires
        running.contains(t) && !t.faulted || added.contains(t),
        forall|k: int| 0 <= k < replaced.len() ==> t.name@ != (#[trigger] replaced[k])@,
        forall|k: int| 0 <= k < stopped.len() ==> t.name@ != (#[trigger] stopped[k])@,
        forall|k: int|
            0 <= k < modules.len() ==> !(t.module matches Some(m) && m@ == (
            #[trigger] modules[k])@),
    ensures
        merged_tasks(running, added, replaced, stopped, modules).contains(t),
{
    let all = running + added;
    let at = a_tick_keeps_exactly(running, added, replaced, stopped, modules);
    let i = if added.contains(t) {
        running.len() + choose|k: int| 0 <= k < added.len() && added[k] == t
    } else {
        choose|k: int| 0 <= k < running.len() && running[k] == t
    };
    assert(all[i] == t);
    assert(runs_on(running, added, replaced, stopped, modules, i));
    assert(at.contains(i));
    let k = choose|k: int| 0 <= k < at.len() && at[k] == i;
    assert(merged_tasks(running, added, replaced, stopped, modules)[k] == t);
}

// --- order, stopping, teardown ----------------------------------------------

/// Tasks run lowest priority first, and within one priority in the order they
/// were registered; every task runs, once.
pub proof fn tasks_run_in_priority_order(out: Seq<Task>, tasks: Seq<Task>, priority: u32)
    requires
        stable_sort_of(out, tasks),
    ensures
        out.to_multiset() == tasks.to_multiset(),
        out.len() == tasks.len(),
        forall|i: int, j: int|
            0 <= i < j < out.len() ==> !lt_num(
                (#[trigger] out[j]).priority,
                (#[trigger] out[i]).priority,
            ) && total_rank(out[i].priority) <= total_rank(out[j].priority),
        out.filter(|t: Task| t.priority == priority) == tasks.filter(
            |t: Task| t.priority == priority,
        ),
{
    stable_sort_exists(tasks);
    stable_sort_unique(out, stable_sort(tasks), tasks);
    assert forall|i: int, j: int| 0 <= i < j < out.len() implies !lt_num(
        (#[trigger] out[j]).priority,
        (#[trigger] out[i]).priority,
    ) by {
        if lt_num(out[j].priority, out[i].priority) {
            total_refines_num(out[j].priority, out[i].priority);
        }
    }
    let f = |t: Task| t.priority == priority;
    if exists|i: int| 0 <= i < tasks.len() && (#[trigger] tasks[i]).priority == priority {
        let i = choose|i: int| 0 <= i < tasks.len() && (#[trigger] tasks[i]).priority == priority;
        let x = tasks[i];
        assert forall|t: Task| #[trigger] f(t) == with_rank(x)(t) by {
            if total_rank(t.priority) == total_rank(x.priority) {
                total_rank_injective(t.priority, x.priority);
            }
        }
        assert(f =~= with_rank(x));
    } else {
        filter_none(tasks, f);
        assert forall|i: int| 0 <= i < out.len() implies !#[trigger] f(out[i]) by {
            crate::sort::stable_sort_members(out, tasks);
            assert(out.contains(out[i]));
            assert(tasks.contains(out[i]));
        }
        filter_none(out, f);
        assert(out.filter(f) =~= tasks.filter(f));
    }
}

/// Stopping by name takes exactly the tasks of that name.
pub proof fn stopping_takes_exactly_the_name(tasks: Seq<Task>, name: Seq<char>) -> (at: Seq<int>)
    ensures
        taken_at(tasks.filter(not_named(name)), tasks, at),
        forall|i: int|
            0 <= i < tasks.len() ==> (#[trigger] at.contains(i) <==> tasks[i].name@ != name),
{
    let at = filter_takes(tasks, not_named(name));
    assert forall|i: int| 0 <= i < tasks.len() implies (#[trigger] at.contains(i)
        <==> tasks[i].name@ != name) by {
        assert(at.contains(i) <==> not_named(name)(tasks[i]));
    }
    at
}

/// Tearing a module down takes exactly its tasks.
pub proof fn teardown_takes_exactly_the_module(tasks: Seq<Task>, module: Seq<char>) -> (at: Seq<
    int,
>)
    ensures
        taken_at(tasks.filter(not_of_module(module)), tasks, at),
        forall|i: int|
            0 <= i < tasks.len() ==> (#[trigger] at.contains(i) <==> !(
            tasks[i].module matches Some(m) && m@ == module)),
{
    let at = filter_takes(tasks, not_of_module(module));
    assert forall|i: int| 0 <= i < tasks.len() implies (#[trigger] at.contains(i) <==> !(
    tasks[i].module matches Some(m) && m@ == module)) by {
        assert(at.contains(i) <==> not_of_module(module)(tasks[i]));
    }
    at
}

/// Tearing a module down takes exactly its pools off the store, and dropping
/// a name exactly the pools of that name; none loses its place or its rows.
pub proof fn teardown_takes_exactly_the_pools<P>(
    pools: Seq<PoolSlot<P>>,
    word: Seq<char>,
    i: int,
)
    requires
        0 <= i < pools.len(),
    ensures
        pools_without_module(pools, word).len() == pools.len(),
        pools_without_name(pools, word).len() == pools.len(),
        pools_without_module(pools, word)[i].attached <==> pools[i].attached && !(
        pools[i].owner matches Some(m) && m@ == word),
        pools_without_name(pools, word)[i].attached <==> pools[i].attached && pools[i].name@
            != word,
        pools_without_module(pools, word)[i].pool == pools[i].pool,
        pools_without_module(pools, word)[i].name == pools[i].name,
        pools_without_module(pools, word)[i].owner == pools[i].owner,
        pools_without_name(pools, word)[i].pool == pools[i].pool,
        pools_without_name(pools, word)[i].name == pools[i].name,
        pools_without_name(pools, word)[i].owner == pools[i].owner,
{
}

/// A tick stamps every pool of the store with its number and touches no row.
pub proof fn a_tick_stamps_the_store<P: ErasedPool>(
    before: Seq<PoolSlot<P>>,
    after: Seq<PoolSlot<P>>,
    tick: u32,
    i: int,
)
    requires
        pools_stamped(before, after, tick),
        0 <= i < before.len(),
    ensures
        after.len() == before.len(),
        before[i].attached ==> after[i].pool.erased_stamp() == tick,
        !before[i].attached ==> after[i] == before[i],
        after[i].attached == before[i].attached,
        after[i].name == before[i].name,
        after[i].owner == before[i].owner,
        after[i].pool.table() == before[i].pool.table(),
        after[i].pool.rows() == before[i].pool.rows(),
        after[i].pool.erased_locked() == before[i].pool.erased_locked(),
{
    assert(slot_stamped(before[i], after[i], tick));
}

// --- the removal flush ------------------------------------------------------

/// Killing ids takes exactly their slots' occupants.
proof fn kill_all_spares(space: IdSpace, killed: Seq<Id>, y: Id)
    requires
        space.alive(y),
        forall|k: int| 0 <= k < killed.len() ==> (#[trigger] killed[k]).slot_of() != y.slot_of(),
    ensures
        kill_all(space, killed).alive(y),
    decreases killed.len(),
{
    if killed.len() > 0 {
        assert(killed[0].slot_of() != y.slot_of());
        assert forall|k: int| 0 <= k < killed.drop_first().len() implies (
        #[trigger] killed.drop_first()[k]).slot_of() != y.slot_of() by {
            assert(killed.drop_first()[k] == killed[k + 1]);
        }
        kill_all_spares(space.kill(killed[0]), killed.drop_first(), y);
    }
}

/// What the flush kills is no slot of another living id.
proof fn killed_slots_were_requested(space: IdSpace, pending: Seq<Id>, k: int)
    requires
        0 <= k < flush_killed(space, pending).len(),
    ensures
        pending.contains(flush_killed(space, pending)[k]),
        space.alive(flush_killed(space, pending)[k]),
{
    flush_kills_only_requested(space, pending);
    assert(flush_killed(space, pending).contains(flush_killed(space, pending)[k]));
}

/// The flush kills exactly what was asked and alive, each once, and leaves
/// every other living id alive.
pub proof fn the_flush_kills_exactly(space: IdSpace, pending: Seq<Id>, id: Id)
    ensures
        flush_killed(space, pending).contains(id) <==> pending.contains(id) && space.alive(id),
        flush_killed(space, pending).no_duplicates(),
        kill_all(space, flush_killed(space, pending)).alive(id) <==> space.alive(id)
            && !pending.contains(id),
{
    flush_kills_only_requested(space, pending);
    if pending.contains(id) && space.alive(id) {
        requested_are_killed(space, pending, id);
    }
    killed_once(space, pending);
    let killed = flush_killed(space, pending);
    if space.alive(id) && !pending.contains(id) {
        assert forall|k: int| 0 <= k < killed.len() implies (#[trigger] killed[k]).slot_of()
            != id.slot_of() by {
            killed_slots_were_requested(space, pending, k);
            if killed[k].slot_of() == id.slot_of() {
                slot_and_generation_identify(killed[k], id);
            }
        }
        kill_all_spares(space, killed, id);
    }
    if pending.contains(id) {
        requested_ids_are_dead_after_flush(space, pending, id);
    }
    if kill_all(space, killed).alive(id) && !space.alive(id) {
        kill_all_adds_nothing(space, killed, id);
    }
}

/// Killing revives nobody.
proof fn kill_all_adds_nothing(space: IdSpace, killed: Seq<Id>, y: Id)
    requires
        kill_all(space, killed).alive(y),
    ensures
        space.alive(y),
    decreases killed.len(),
{
    if killed.len() > 0 {
        kill_all_adds_nothing(space.kill(killed[0]), killed.drop_first(), y);
    }
}

/// A living id that was asked for is killed.
proof fn requested_are_killed(space: IdSpace, pending: Seq<Id>, id: Id)
    requires
        pending.contains(id),
        space.alive(id),
    ensures
        flush_killed(space, pending).contains(id),
    decreases pending.len(),
{
    let last = pending.last();
    let rest = pending.drop_last();
    assert(pending =~= rest.push(last));
    crate::sort::contains_push(rest, last, id);
    let killed = flush_killed(space, pending);
    if space.alive(last) {
        let tail = flush_killed(space.kill(last), rest);
        assert(killed == seq![last] + tail);
        if id == last {
            assert(killed[0] == id);
        } else {
            if id.slot_of() == last.slot_of() {
                slot_and_generation_identify(id, last);
            }
            requested_are_killed(space.kill(last), rest, id);
            let k = choose|k: int| 0 <= k < tail.len() && tail[k] == id;
            assert(killed[k + 1] == id);
        }
    } else {
        requested_are_killed(space, rest, id);
    }
}

/// Nothing is killed twice.
proof fn killed_once(space: IdSpace, pending: Seq<Id>)
    ensures
        flush_killed(space, pending).no_duplicates(),
    decreases pending.len(),
{
    if pending.len() > 0 {
        let last = pending.last();
        let rest = pending.drop_last();
        killed_once(space, rest);
        killed_once(space.kill(last), rest);
        if space.alive(last) {
            let tail = flush_killed(space.kill(last), rest);
            flush_kills_only_requested(space.kill(last), rest);
            let killed = flush_killed(space, pending);
            assert forall|i: int, j: int|
                0 <= i < killed.len() && 0 <= j < killed.len() && i != j implies killed[i]
                != killed[j] by {
                if i > 0 && j > 0 {
                    assert(killed[i] == tail[i - 1] && killed[j] == tail[j - 1]);
                } else {
                    let m = if i > 0 {
                        i
                    } else {
                        j
                    };
                    assert(killed[m] == tail[m - 1]);
                    assert(tail.contains(tail[m - 1]));
                    assert(space.kill(last).alive(tail[m - 1]));
                    assert(!space.kill(last).alive(last));
                }
            }
        }
    }
}

/// Every removal of a batch is logged at its tick, in order.
pub proof fn removals_are_logged(ids: Seq<Id>, tick: u32, k: int)
    requires
        0 <= k < ids.len(),
    ensures
        stamped(ids, tick).len() == ids.len(),
        stamped(ids, tick)[k] == (ids[k], tick),
{
}

/// A release recycles every local index it lets go: each logged removal of
/// this peer at or before the tick has its index on the free list afterwards.
pub proof fn release_recycles_every_due_local_index(
    log: Seq<(Id, u32)>,
    space: IdSpace,
    i: int,
    tick: u32,
    local: u8,
    j: int,
)
    requires
        0 <= i <= j < log.len(),
        log[j].1 <= tick,
        log[j].0.peer_of() == local,
        forall|p: u8| #[trigger] space.free.contains_key(p),
    ensures
        release_from(log, space, i, tick, local).1.free[local].contains(
            log[j].0.index_of() as u16,
        ),
    decreases log.len() - i,
{
    let index = log[j].0.index_of() as u16;
    if log[i].1 <= tick {
        let next = log.update(i, log.last()).drop_last();
        let mid = if log[i].0.peer_of() == local {
            space.release(log[i].0)
        } else {
            space
        };
        release_recycles_only_due_local_indices(next, mid, i, tick, local);
        if j == i {
            let n = space.free[local].len() as int;
            assert(mid.free[local][n] == index);
            let after = release_from(log, space, i, tick, local).1;
            assert(after.free[local][n] == index);
        } else if j == log.len() - 1 {
            assert(next[i] == log[j]);
            release_recycles_every_due_local_index(next, mid, i, tick, local, i);
        } else {
            assert(next[j] == log[j]);
            release_recycles_every_due_local_index(next, mid, i, tick, local, j);
        }
    } else {
        release_recycles_every_due_local_index(log, space, i + 1, tick, local, j);
    }
}

// --- what is reported -------------------------------------------------------

/// One run counts once: the calls rise by one and the total by the run's
/// nanoseconds, short of the counters' ends, and the longest run is the
/// greater of the two.
pub proof fn a_run_counts_once(s: TaskStat, ns: u64)
    ensures
        s.calls < u64::MAX ==> stat_after(s, ns).calls == s.calls + 1,
        s.calls == u64::MAX ==> stat_after(s, ns).calls == u64::MAX,
        s.ns_total + ns <= u64::MAX ==> stat_after(s, ns).ns_total == s.ns_total + ns,
        s.ns_total + ns > u64::MAX ==> stat_after(s, ns).ns_total == u64::MAX,
        stat_after(s, ns).ns_max >= ns,
        stat_after(s, ns).ns_max >= s.ns_max,
        stat_after(s, ns).ns_max == ns || stat_after(s, ns).ns_max == s.ns_max,
{
}

/// A run is recorded under its task's name and nowhere else: that name has a
/// row afterwards, one call richer, and every other row stands.
pub proof fn runs_are_recorded_by_name(
    before: Seq<NamedStat>,
    after: Seq<NamedStat>,
    name: Seq<char>,
    ns: u64,
)
    requires
        stats_after(before, after, name, ns),
    ensures
        exists|i: int| 0 <= i < after.len() && (#[trigger] after[i]).name@ == name,
        after.len() <= before.len() + 1,
        forall|i: int|
            0 <= i < before.len() ==> i < after.len() && (#[trigger] after[i]).name@
                == before[i].name@ && (before[i].name@ != name ==> after[i].stat
                == before[i].stat) && (before[i].name@ == name && before[i].stat.calls < u64::MAX
                ==> after[i].stat.calls == before[i].stat.calls + 1),
        forall|i: int|
            before.len() <= i < after.len() ==> (#[trigger] after[i]).name@ == name
                && after[i].stat.calls == 1 && after[i].stat.ns_total == ns
                && after[i].stat.ns_max == ns,
{
    if exists|i: int| 0 <= i < before.len() && (#[trigger] before[i]).name@ == name {
        let i = choose|i: int| 0 <= i < before.len() && (#[trigger] before[i]).name@ == name;
        assert(after[i].name@ == name);
    } else {
        assert(after[after.len() - 1].name@ == name);
        assert forall|i: int| 0 <= i < before.len() implies (#[trigger] after[i]) == before[i]
            && before[i].name@ != name by {
        }
    }
}

/// Timings come heaviest first.
pub proof fn timings_come_heaviest_first(out: Seq<NamedStat>, stats: Seq<NamedStat>)
    requires
        stable_sort_of(out, stats),
    ensures
        out.to_multiset() == stats.to_multiset(),
        forall|i: int, j: int|
            0 <= i < j < out.len() ==> (#[trigger] out[i]).stat.ns_total >= (
            #[trigger] out[j]).stat.ns_total,
{
    stable_sort_exists(stats);
    stable_sort_unique(out, stable_sort(stats), stats);
}

/// Pool counts come largest first, by name within a count.
pub proof fn counts_come_largest_first(out: Seq<PoolStat>, stats: Seq<PoolStat>)
    requires
        stable_sort_of(out, stats),
    ensures
        out.to_multiset() == stats.to_multiset(),
        forall|i: int, j: int|
            0 <= i < j < out.len() ==> (#[trigger] out[i]).count >= (#[trigger] out[j]).count && (
            out[i].count == out[j].count ==> lex_le(utf8(out[i].name@), utf8(out[j].name@))),
{
    stable_sort_exists(stats);
    stable_sort_unique(out, stable_sort(stats), stats);
}

/// The counted pools are exactly those of the store, each with its rows.
pub proof fn counts_cover_the_store<P: ErasedPool>(pools: Seq<PoolSlot<P>>) -> (at: Seq<int>)
    ensures
        attached_counts(pools).len() == at.len(),
        forall|k: int|
            0 <= k < at.len() ==> 0 <= #[trigger] at[k] < pools.len() && attached_counts(pools)[k]
                == (pools[at[k]].name@, pools[at[k]].pool.rows().len()),
        forall|j: int, k: int| 0 <= j < k < at.len() ==> (#[trigger] at[j]) < (#[trigger] at[k]),
        forall|i: int| 0 <= i < pools.len() ==> (#[trigger] at.contains(i) <==> pools[i].attached),
    decreases pools.len(),
{
    if pools.len() == 0 {
        Seq::empty()
    } else {
        let init = pools.drop_last();
        let before = counts_cover_the_store(init);
        let n = pools.len() - 1;
        let at = if pools.last().attached {
            before.push(n)
        } else {
            before
        };
        let out = attached_counts(pools);
        assert forall|k: int| 0 <= k < at.len() implies 0 <= #[trigger] at[k] < pools.len()
            && out[k] == (pools[at[k]].name@, pools[at[k]].pool.rows().len()) by {
            if k < before.len() {
                assert(at[k] == before[k]);
                assert(init[before[k]] == pools[at[k]]);
            }
        }
        assert forall|j: int, k: int| 0 <= j < k < at.len() implies (#[trigger] at[j]) < (
        #[trigger] at[k]) by {
            assert(at[j] == before[j]);
            if k < before.len() {
                assert(at[k] == before[k]);
            }
        }
        assert forall|i: int| 0 <= i < pools.len() implies (#[trigger] at.contains(i)
            <==> pools[i].attached) by {
            crate::sort::contains_push(before, n, i);
            if i < n {
                assert(before.contains(i) <==> init[i].attached);
            } else if before.contains(i) {
                let k = choose|k: int| 0 <= k < before.len() && before[k] == i;
                assert(before[k] < init.len());
            }
        }
        at
    }
}

} // verus!
