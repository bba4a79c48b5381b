//! What holds of every reload and of every run of the event loop, proved
//! over the model.

use vstd::prelude::*;
use crate::model::{
    action_for, added, changed, config_wf, defer_of, defers, entry_names, holds, is_added,
    is_changed, is_removed, lemma_filter_push, lemma_push_wf, lemma_remove_wf,
    lemma_update_names, plan, removed, slot, start_of, starts, stop_of, stops, table_of,
    target_names, wanted_argv, wants, ActionView, EntryView, Name, NextView, SupervisorView,
    TargetView, Words,
};

verus! {

/// What passes a filter comes from the sequence and meets the test, and
/// whatever in the sequence meets the test passes.
pub proof fn lemma_filter_members<A>(s: Seq<A>, p: spec_fn(A) -> bool)
    ensures
        forall|k: int|
            0 <= k < s.filter(p).len() ==> s.contains(#[trigger] s.filter(p)[k]) && p(
                s.filter(p)[k],
            ),
        forall|j: int| 0 <= j < s.len() && p(s[j]) ==> s.filter(p).contains(#[trigger] s[j]),
    decreases s.len(),
{
    if s.len() == 0 {
        reveal(Seq::filter);
    } else {
        let pre = s.drop_last();
        let x = s.last();
        let f = s.filter(p);
        let g = pre.filter(p);
        assert(s =~= pre.push(x));
        lemma_filter_push(pre, x, p);
        lemma_filter_members(pre, p);
        assert forall|k: int| 0 <= k < f.len() implies s.contains(#[trigger] f[k]) && p(f[k]) by {
            if k < g.len() {
                assert(pre.contains(g[k]));
                let j = choose|j: int| 0 <= j < pre.len() && pre[j] == g[k];
                assert(s[j] == f[k]);
            } else {
                assert(s[s.len() - 1] == f[k]);
            }
        }
        assert forall|j: int| 0 <= j < s.len() && p(s[j]) implies f.contains(#[trigger] s[j]) by {
            if j < pre.len() {
                assert(g.contains(pre[j]));
                let k = choose|k: int| 0 <= k < g.len() && g[k] == pre[j];
                assert(f[k] == s[j]);
            } else {
                assert(f[f.len() - 1] == s[j]);
            }
        }
    }
}

/// A filter keeps apart what the sequence keeps apart: if no two items of
/// the sequence share a key, no two items that pass do.
pub proof fn lemma_filter_keys<A, K>(s: Seq<A>, p: spec_fn(A) -> bool, key: spec_fn(A) -> K)
    requires
        forall|i: int, j: int| 0 <= i < j < s.len() ==> key(#[trigger] s[i]) != key(#[trigger] s[j]),
    ensures
        forall|i: int, j: int|
            0 <= i < j < s.filter(p).len() ==> key(#[trigger] s.filter(p)[i]) != key(
                #[trigger] s.filter(p)[j],
            ),
    decreases s.len(),
{
    if s.len() == 0 {
        reveal(Seq::filter);
    } else {
        let pre = s.drop_last();
        let x = s.last();
        let f = s.filter(p);
        let g = pre.filter(p);
        assert(s =~= pre.push(x));
        lemma_filter_push(pre, x, p);
        assert forall|i: int, j: int| 0 <= i < j < pre.len() implies key(#[trigger] pre[i]) != key(
            #[trigger] pre[j],
        ) by {
            assert(pre[i] == s[i] && pre[j] == s[j]);
        }
        lemma_filter_keys(pre, p, key);
        lemma_filter_members(pre, p);
        assert forall|i: int, j: int| 0 <= i < j < f.len() implies key(#[trigger] f[i]) != key(
            #[trigger] f[j],
        ) by {
            if j < g.len() {
                assert(f[i] == g[i] && f[j] == g[j]);
            } else {
                assert(f[j] == x);
                assert(pre.contains(g[i]));
                let a = choose|a: int| 0 <= a < pre.len() && pre[a] == g[i];
                assert(s[a] == f[i]);
                assert(s[s.len() - 1] == x);
            }
        }
    }
}

/// In a well-formed list of entries, the entry found under a name is the
/// one that carries it.
pub proof fn lemma_slot(entries: Seq<EntryView>, j: int)
    requires
        entry_names(entries).no_duplicates(),
        0 <= j < entries.len(),
    ensures
        holds(entries, entries[j].name),
        slot(entries, entries[j].name) == j,
{
    let ns = entry_names(entries);
    assert(ns[j] == entries[j].name);
    let k = ns.index_of(entries[j].name);
    assert(ns[k] == ns[j]);
}

/// In a well-formed configuration, the line found under a name is the one
/// that carries it.
pub proof fn lemma_wanted(targets: Seq<TargetView>, j: int)
    requires
        config_wf(targets),
        0 <= j < targets.len(),
    ensures
        wants(targets, targets[j].name),
        target_names(targets).index_of(targets[j].name) == j,
        wanted_argv(targets, targets[j].name) == targets[j].argv,
{
    let ns = target_names(targets);
    assert(ns[j] == targets[j].name);
    let k = ns.index_of(targets[j].name);
    assert(ns[k] == ns[j]);
}

/// Every action of a reload is the one that `action_for` gives for its
/// name.
pub proof fn law_plan_sound(entries: Seq<EntryView>, targets: Seq<TargetView>, k: int)
    requires
        entry_names(entries).no_duplicates(),
        config_wf(targets),
        0 <= k < plan(entries, targets).len(),
    ensures
        action_for(entries, targets, plan(entries, targets)[k].name()) == Some(
            plan(entries, targets)[k],
        ),
{
    let s = stops(entries, targets);
    let b = starts(entries, targets);
    let d = defers(entries, targets);
    lemma_filter_members(entries, is_removed(targets));
    lemma_filter_members(targets, is_added(entries));
    lemma_filter_members(entries, is_changed(targets));
    if k < s.len() {
        let e = removed(entries, targets)[k];
        assert(entries.contains(e));
        let j = choose|j: int| 0 <= j < entries.len() && entries[j] == e;
        lemma_slot(entries, j);
        assert(plan(entries, targets)[k] == stop_of(e));
    } else if k < s.len() + b.len() {
        let t = added(entries, targets)[k - s.len()];
        assert(targets.contains(t));
        let j = choose|j: int| 0 <= j < targets.len() && targets[j] == t;
        lemma_wanted(targets, j);
        assert(plan(entries, targets)[k] == start_of(t));
    } else {
        let e = changed(entries, targets)[k - s.len() - b.len()];
        assert(entries.contains(e));
        let j = choose|j: int| 0 <= j < entries.len() && entries[j] == e;
        lemma_slot(entries, j);
        assert(plan(entries, targets)[k] == defer_of(e, targets));
    }
}

/// Whatever `action_for` gives for a name is an action of the reload.
pub proof fn law_plan_complete(entries: Seq<EntryView>, targets: Seq<TargetView>, name: Name)
    requires
        entry_names(entries).no_duplicates(),
        config_wf(targets),
        action_for(entries, targets, name) is Some,
    ensures
        plan(entries, targets).contains(action_for(entries, targets, name).unwrap()),
{
    let s = stops(entries, targets);
    let b = starts(entries, targets);
    let d = defers(entries, targets);
    let p = plan(entries, targets);
    lemma_filter_members(entries, is_removed(targets));
    lemma_filter_members(targets, is_added(entries));
    lemma_filter_members(entries, is_changed(targets));
    if holds(entries, name) {
        let j = slot(entries, name);
        let e = entries[j];
        assert(entry_names(entries)[j] == name);
        if !wants(targets, name) {
            let r = removed(entries, targets);
            assert(r.contains(entries[j]));
            let k = choose|k: int| 0 <= k < r.len() && r[k] == e;
            assert(p[k] == stop_of(e));
        } else {
            let r = changed(entries, targets);
            assert(r.contains(entries[j]));
            let k = choose|k: int| 0 <= k < r.len() && r[k] == e;
            assert(p[s.len() + b.len() + k] == defer_of(e, targets));
        }
    } else {
        let j = target_names(targets).index_of(name);
        let t = targets[j];
        assert(target_names(targets)[j] == name);
        let r = added(entries, targets);
        assert(r.contains(targets[j]));
        let k = choose|k: int| 0 <= k < r.len() && r[k] == t;
        assert(p[s.len() + k] == start_of(t));
    }
}

/// A reload holds at most one action for a name.
pub proof fn law_plan_one_action_per_name(
    entries: Seq<EntryView>,
    targets: Seq<TargetView>,
    a: int,
    b: int,
)
    requires
        entry_names(entries).no_duplicates(),
        config_wf(targets),
        0 <= a < b < plan(entries, targets).len(),
    ensures
        plan(entries, targets)[a].name() != plan(entries, targets)[b].name(),
{
    let s = stops(entries, targets);
    let m = starts(entries, targets);
    let d = defers(entries, targets);
    let p = plan(entries, targets);
    let ekey = |e: EntryView| e.name;
    let tkey = |t: TargetView| t.name;
    assert forall|i: int, j: int| 0 <= i < j < entries.len() implies ekey(#[trigger] entries[i])
        != ekey(#[trigger] entries[j]) by {
        assert(entry_names(entries)[i] != entry_names(entries)[j]);
    }
    assert forall|i: int, j: int| 0 <= i < j < targets.len() implies tkey(#[trigger] targets[i])
        != tkey(#[trigger] targets[j]) by {
        assert(target_names(targets)[i] != target_names(targets)[j]);
    }
    lemma_filter_keys(entries, is_removed(targets), ekey);
    lemma_filter_keys(targets, is_added(entries), tkey);
    lemma_filter_keys(entries, is_changed(targets), ekey);
    law_plan_sound(entries, targets, a);
    law_plan_sound(entries, targets, b);
    let r = removed(entries, targets);
    let n = added(entries, targets);
    let c = changed(entries, targets);
    if b < s.len() {
        assert(ekey(r[a]) != ekey(r[b]));
    } else if a < s.len() {
        assert(p[a] is Stop);
        assert(!(p[b] is Stop));
    } else if b < s.len() + m.len() {
        assert(tkey(n[a - s.len()]) != tkey(n[b - s.len()]));
    } else if a < s.len() + m.len() {
        assert(p[a] is Start);
        assert(p[b] is Defer);
    } else {
        assert(ekey(c[a - s.len() - m.len()]) != ekey(c[b - s.len() - m.len()]));
    }
}

/// A reload to the configuration that is already running does nothing:
/// where the configuration wants exactly the names that are entered, each
/// with the words it has, the reload holds no action at all, so it starts
/// no process, sends no signal, and reports that nothing has changed.
pub proof fn law_identical_reload_is_idle(entries: Seq<EntryView>, targets: Seq<TargetView>)
    requires
        entry_names(entries).no_duplicates(),
        config_wf(targets),
        forall|n: Name| holds(entries, n) <==> wants(targets, n),
        forall|n: Name| holds(entries, n) ==> wanted_argv(targets, n) == entries[slot(entries, n)].argv,
    ensures
        plan(entries, targets) == Seq::<ActionView>::empty(),
{
    let p = plan(entries, targets);
    if p.len() > 0 {
        law_plan_sound(entries, targets, 0);
        assert(action_for(entries, targets, p[0].name()) is None);
    }
    assert(p =~= Seq::<ActionView>::empty());
}

/// A reload is idle only then: if it holds no action, the configuration
/// wants exactly the names that are entered, each with the words it has.
pub proof fn law_idle_reload_is_identical(
    entries: Seq<EntryView>,
    targets: Seq<TargetView>,
    n: Name,
)
    requires
        entry_names(entries).no_duplicates(),
        config_wf(targets),
        plan(entries, targets).len() == 0,
    ensures
        holds(entries, n) <==> wants(targets, n),
        holds(entries, n) ==> wanted_argv(targets, n) == entries[slot(entries, n)].argv,
{
    if action_for(entries, targets, n) is Some {
        law_plan_complete(entries, targets, n);
    }
}

/// Whether the reload holds `action` for its name at place `k` and no
/// action for that name anywhere else.
pub open spec fn sole_action_at(actions: Seq<ActionView>, k: int, action: ActionView) -> bool {
    &&& 0 <= k < actions.len()
    &&& actions[k] == action
    &&& forall|j: int| 0 <= j < actions.len() && j != k ==> (#[trigger] actions[j]).name() != action.name()
}

/// If `action_for` gives an action for a name, the reload holds it once
/// and holds nothing else for that name.
pub proof fn lemma_sole_action(entries: Seq<EntryView>, targets: Seq<TargetView>, name: Name)
    requires
        entry_names(entries).no_duplicates(),
        config_wf(targets),
        action_for(entries, targets, name) is Some,
    ensures
        exists|k: int|
            sole_action_at(plan(entries, targets), k, action_for(entries, targets, name).unwrap()),
{
    let p = plan(entries, targets);
    let action = action_for(entries, targets, name).unwrap();
    law_plan_complete(entries, targets, name);
    let k = choose|k: int| 0 <= k < p.len() && p[k] == action;
    law_plan_sound(entries, targets, k);
    assert forall|j: int| 0 <= j < p.len() && j != k implies (#[trigger] p[j]).name()
        != action.name() by {
        if j < k {
            law_plan_one_action_per_name(entries, targets, j, k);
        } else {
            law_plan_one_action_per_name(entries, targets, k, j);
        }
    }
    assert(sole_action_at(p, k, action));
}

/// If `action_for` gives nothing for a name, the reload holds no action
/// for it.
pub proof fn lemma_no_action(entries: Seq<EntryView>, targets: Seq<TargetView>, name: Name)
    requires
        entry_names(entries).no_duplicates(),
        config_wf(targets),
        action_for(entries, targets, name) is None,
    ensures
        forall|j: int|
            0 <= j < plan(entries, targets).len() ==> (#[trigger] plan(entries, targets)[j]).name()
                != name,
{
    let p = plan(entries, targets);
    assert forall|j: int| 0 <= j < p.len() implies (#[trigger] p[j]).name() != name by {
        law_plan_sound(entries, targets, j);
    }
}

/// Removing a name sends one stop signal, to the process that is tracked
/// for it, and no restart follows: the reload holds for the name exactly
/// one action, the stop with that process identifier; once the signal is
/// delivered the name is no longer entered, so the end of its process,
/// whenever it is seen, retires the name.
pub proof fn law_removal(s: SupervisorView, targets: Seq<TargetView>, n: Name, pid: i32)
    requires
        s.wf(),
        config_wf(targets),
        s.tracks(n),
        s.entry(n).pid == Some(pid),
        !wants(targets, n),
    ensures
        exists|k: int|
            sole_action_at(
                plan(s.entries, targets),
                k,
                ActionView::Stop { name: n, pid: Some(pid) },
            ),
        !s.after_stop(n, true).tracks(n),
        s.after_stop(n, true).on_completion(n) == NextView::Retire,
        s.after_stop(n, true).after_completion(n).entries == s.after_stop(n, true).entries,
        s.after_stop(n, false) == s,
{
    let j = slot(s.entries, n);
    let ns = entry_names(s.entries);
    assert(ns[j] == n);
    lemma_sole_action(s.entries, targets, n);
    let after = s.entries.remove(j);
    let ms = entry_names(after);
    if ms.contains(n) {
        let a = ms.index_of(n);
        let a1 = if a < j { a } else { a + 1 };
        assert(ms[a] == ns[a1]);
    }
}

/// Changing the words of a name sends one stop signal, to the old
/// process, and starts nothing at once: the reload holds for the name
/// exactly one action, the deferred update. Once the signal is delivered
/// the entry holds the new words, so the end of the old process calls for
/// a restart with the new words, and after that restart the end of the
/// new process calls for the new words again.
pub proof fn law_update(
    s: SupervisorView,
    targets: Seq<TargetView>,
    n: Name,
    old_pid: i32,
    new_pid: i32,
)
    requires
        s.wf(),
        config_wf(targets),
        s.tracks(n),
        s.entry(n).pid == Some(old_pid),
        wants(targets, n),
        wanted_argv(targets, n) != s.entry(n).argv,
    ensures
        exists|k: int|
            sole_action_at(
                plan(s.entries, targets),
                k,
                ActionView::Defer { name: n, pid: Some(old_pid), argv: wanted_argv(targets, n) },
            ),
        ({
            let argv = wanted_argv(targets, n);
            let staged = s.after_defer(n, argv, true);
            let restarted = staged.after_completion(n).after_respawn(n, Some(new_pid));
            &&& staged.active == s.active
            &&& staged.on_completion(n) == NextView::Respawn { argv }
            &&& restarted.wf()
            &&& restarted.entry(n) == EntryView { name: n, argv, pid: Some(new_pid) }
            &&& restarted.after_completion(n).on_completion(n) == NextView::Respawn { argv }
            &&& s.after_defer(n, argv, false) == s
        }),
{
    let argv = wanted_argv(targets, n);
    let j = slot(s.entries, n);
    assert(entry_names(s.entries)[j] == n);
    lemma_sole_action(s.entries, targets, n);
    let e1 = EntryView { name: n, argv, pid: None };
    lemma_update_names(s.entries, j, e1);
    let staged = s.after_defer(n, argv, true);
    assert(staged.entries == s.entries.update(j, e1));
    let done = staged.after_completion(n);
    let e2 = EntryView { name: n, argv, pid: Some(new_pid) };
    lemma_update_names(done.entries, j, e2);
}

/// Adding a name starts it within the same reload: the reload holds for
/// the name exactly one action, the start with the words that the
/// configuration wants, whatever else is running; once the launch has
/// succeeded the name is entered with those words and that process, and
/// one more process of the name is awaited.
pub proof fn law_addition(s: SupervisorView, targets: Seq<TargetView>, n: Name, pid: i32)
    requires
        s.wf(),
        config_wf(targets),
        !s.tracks(n),
        wants(targets, n),
    ensures
        exists|k: int|
            sole_action_at(
                plan(s.entries, targets),
                k,
                ActionView::Start { name: n, argv: wanted_argv(targets, n) },
            ),
        ({
            let argv = wanted_argv(targets, n);
            let begun = s.after_start(n, argv, Some(pid));
            &&& begun.tracks(n)
            &&& begun.entry(n) == EntryView { name: n, argv, pid: Some(pid) }
            &&& begun.outstanding(n) == s.outstanding(n) + 1
            &&& s.after_start(n, argv, None) == s
        }),
{
    broadcast use vstd::multiset::group_multiset_axioms;

    let argv = wanted_argv(targets, n);
    lemma_sole_action(s.entries, targets, n);
    let e = EntryView { name: n, argv, pid: Some(pid) };
    crate::model::lemma_push_wf(s.entries, e);
    let after = s.entries.push(e);
    assert(entry_names(after)[s.entries.len() as int] == n);
    lemma_slot(after, s.entries.len() as int);
}

/// A restart that fails leaves the name entered and nothing awaited for
/// it: if the one process of an entered name ends and the launch that
/// follows fails, the entry is as it was, no process of the name is
/// outstanding, and a reload that wants the name with the words it has
/// holds no action for it. Nothing starts the name again until a reload
/// changes or removes it.
pub proof fn law_failed_respawn(s: SupervisorView, targets: Seq<TargetView>, n: Name)
    requires
        s.wf(),
        config_wf(targets),
        s.tracks(n),
        s.outstanding(n) == 1,
        wants(targets, n),
        wanted_argv(targets, n) == s.entry(n).argv,
    ensures
        s.on_completion(n) == (NextView::Respawn { argv: s.entry(n).argv }),
        ({
            let orphaned = s.after_completion(n).after_respawn(n, None);
            &&& orphaned.entries == s.entries
            &&& orphaned.tracks(n)
            &&& orphaned.entry(n) == s.entry(n)
            &&& orphaned.outstanding(n) == 0
            &&& forall|j: int|
                0 <= j < plan(orphaned.entries, targets).len() ==> (#[trigger] plan(
                    orphaned.entries,
                    targets,
                )[j]).name() != n
        }),
{
    broadcast use vstd::multiset::group_multiset_axioms;

    lemma_no_action(s.entries, targets, n);
}

/// Whether no name has two processes awaited at once.
pub open spec fn one_process_each(s: SupervisorView) -> bool {
    forall|n: Name| s.outstanding(n) <= 1
}

/// No name gets a second process while its first is awaited, as long as
/// a name is started only when none of its processes is awaited: signals
/// and ends of processes keep it so, a restart after an end keeps it so,
/// and so does the start of a name of which nothing is awaited.
pub proof fn law_one_process_each(
    s: SupervisorView,
    n: Name,
    argv: Words,
    pid: Option<i32>,
    delivered: bool,
)
    requires
        one_process_each(s),
    ensures
        one_process_each(s.after_stop(n, delivered)),
        one_process_each(s.after_defer(n, argv, delivered)),
        one_process_each(s.after_completion(n)),
        one_process_each(s.after_completion(n).after_respawn(n, pid)),
        s.outstanding(n) == 0 ==> one_process_each(s.after_start(n, argv, pid)),
{
    broadcast use vstd::multiset::group_multiset_axioms;

    assert forall|m: Name| s.after_stop(n, delivered).outstanding(m) <= 1 by {
        assert(s.outstanding(m) <= 1);
    }
    assert forall|m: Name| s.after_defer(n, argv, delivered).outstanding(m) <= 1 by {
        assert(s.outstanding(m) <= 1);
    }
    assert forall|m: Name| s.after_completion(n).outstanding(m) <= 1 by {
        assert(s.outstanding(m) <= 1);
    }
    assert forall|m: Name| s.after_completion(n).after_respawn(n, pid).outstanding(m) <= 1 by {
        assert(s.outstanding(m) <= 1);
    }
    if s.outstanding(n) == 0 {
        assert forall|m: Name| s.after_start(n, argv, pid).outstanding(m) <= 1 by {
            assert(s.outstanding(m) <= 1);
        }
    }
}

/// Taking an entry out takes its name out of the mapping and leaves the
/// rest of the mapping as it is.
pub proof fn lemma_table_remove(entries: Seq<EntryView>, j: int)
    requires
        entry_names(entries).no_duplicates(),
        0 <= j < entries.len(),
    ensures
        table_of(entries.remove(j)) == table_of(entries).remove(entries[j].name),
{
    let after = entries.remove(j);
    lemma_remove_wf(entries, j);
    lemma_slot(entries, j);
    assert forall|n: Name| holds(after, n) implies holds(entries, n) && n != entries[j].name
        && after[slot(after, n)] == entries[slot(entries, n)] by {
        let a = slot(after, n);
        assert(entry_names(after)[a] == n);
        let a1 = if a < j { a } else { a + 1 };
        assert(after[a] == entries[a1]);
        lemma_slot(entries, a1);
    }
    assert forall|n: Name| holds(entries, n) && n != entries[j].name implies holds(after, n) by {
        let b = slot(entries, n);
        assert(entry_names(entries)[b] == n);
        let b1 = if b < j { b } else { b - 1 };
        assert(after[b1] == entries[b]);
        assert(entry_names(after)[b1] == n);
    }
    assert(table_of(after) =~= table_of(entries).remove(entries[j].name));
}

/// Replacing an entry by one of the same name maps the name to the new
/// entry and leaves the rest of the mapping as it is.
pub proof fn lemma_table_update(entries: Seq<EntryView>, j: int, e: EntryView)
    requires
        entry_names(entries).no_duplicates(),
        0 <= j < entries.len(),
        e.name == entries[j].name,
    ensures
        table_of(entries.update(j, e)) == table_of(entries).insert(e.name, e),
{
    let after = entries.update(j, e);
    lemma_update_names(entries, j, e);
    lemma_slot(entries, j);
    assert forall|n: Name| holds(entries, n) && n != e.name implies after[slot(after, n)]
        == entries[slot(entries, n)] by {
        let b = slot(entries, n);
        assert(entry_names(entries)[b] == n);
    }
    assert(table_of(after) =~= table_of(entries).insert(e.name, e));
}

/// Entering a new name maps it to its entry and leaves the rest of the
/// mapping as it is.
pub proof fn lemma_table_push(entries: Seq<EntryView>, e: EntryView)
    requires
        entry_names(entries).no_duplicates(),
        !holds(entries, e.name),
    ensures
        table_of(entries.push(e)) == table_of(entries).insert(e.name, e),
{
    let after = entries.push(e);
    lemma_push_wf(entries, e);
    let last = entries.len() as int;
    assert(after[last] == e);
    lemma_slot(after, last);
    assert forall|n: Name| holds(entries, n) implies holds(after, n) && after[slot(after, n)]
        == entries[slot(entries, n)] by {
        let b = slot(entries, n);
        assert(entry_names(entries)[b] == n);
        assert(after[b] == entries[b]);
        lemma_slot(after, b);
    }
    assert forall|n: Name| holds(after, n) && n != e.name implies holds(entries, n) by {
        let a = slot(after, n);
        assert(entry_names(after)[a] == n);
        assert(a < last);
        assert(entry_names(entries)[a] == n);
    }
    assert(table_of(after) =~= table_of(entries).insert(e.name, e));
}

/// What each report makes of the supervision set, seen as a mapping: a
/// delivered stop takes the name out, a launch and a staged update map
/// the name to its new entry, and a report of failure changes nothing.
/// Every report keeps the names distinct.
pub proof fn law_reports_on_the_table(
    s: SupervisorView,
    n: Name,
    argv: Words,
    pid: i32,
)
    requires
        s.wf(),
    ensures
        s.after_stop(n, true).wf(),
        s.after_start(n, argv, Some(pid)).wf(),
        s.after_defer(n, argv, true).wf(),
        s.after_respawn(n, Some(pid)).wf(),
        s.after_stop(n, true).table() == if s.tracks(n) && s.entry(n).pid is Some {
            s.table().remove(n)
        } else {
            s.table()
        },
        s.after_start(n, argv, Some(pid)).table() == s.table().insert(
            n,
            EntryView { name: n, argv, pid: Some(pid) },
        ),
        s.after_defer(n, argv, true).table() == if s.tracks(n) {
            s.table().insert(n, EntryView { name: n, argv, pid: None })
        } else {
            s.table()
        },
        s.after_respawn(n, Some(pid)).table() == if s.tracks(n) {
            s.table().insert(n, EntryView { pid: Some(pid), ..s.entry(n) })
        } else {
            s.table()
        },
{
    if s.tracks(n) {
        let j = slot(s.entries, n);
        assert(entry_names(s.entries)[j] == n);
        lemma_remove_wf(s.entries, j);
        lemma_table_remove(s.entries, j);
        let e1 = EntryView { name: n, argv, pid: Some(pid) };
        lemma_update_names(s.entries, j, e1);
        lemma_table_update(s.entries, j, e1);
        let e2 = EntryView { name: n, argv, pid: None };
        lemma_update_names(s.entries, j, e2);
        lemma_table_update(s.entries, j, e2);
        let e3 = EntryView { pid: Some(pid), ..s.entry(n) };
        lemma_update_names(s.entries, j, e3);
        lemma_table_update(s.entries, j, e3);
    } else {
        let e1 = EntryView { name: n, argv, pid: Some(pid) };
        lemma_push_wf(s.entries, e1);
        lemma_table_push(s.entries, e1);
    }
}

/// What the report on a deferred update makes of the supervision set,
/// seen as a mapping: where the update is staged the name maps to the
/// new command with no process, else nothing changes.
pub proof fn lemma_defer_on_the_table(s: SupervisorView, n: Name, argv: Words, delivered: bool)
    requires
        s.wf(),
    ensures
        s.after_defer(n, argv, delivered).table() == if s.tracks(n) && (s.entry(n).pid is None
            || delivered) {
            s.table().insert(n, EntryView { name: n, argv, pid: None })
        } else {
            s.table()
        },
{
    if s.tracks(n) {
        let j = slot(s.entries, n);
        assert(entry_names(s.entries)[j] == n);
        let e = EntryView { name: n, argv, pid: None };
        lemma_update_names(s.entries, j, e);
        lemma_table_update(s.entries, j, e);
    }
}

/// The state after one action of a reload was carried out with success;
/// `pid` is the process that a start brings.
pub open spec fn carried_out(s: SupervisorView, action: ActionView, pid: i32) -> SupervisorView {
    match action {
        ActionView::Stop { name, .. } => s.after_stop(name, true),
        ActionView::Start { name, argv } => s.after_start(name, argv, Some(pid)),
        ActionView::Defer { name, argv, .. } => s.after_defer(name, argv, true),
    }
}

/// The state after the actions of a reload were carried out in their
/// order, each with success; `pids[i]` is the process that action `i`
/// brings if it is a start.
pub open spec fn after_reload(s: SupervisorView, actions: Seq<ActionView>, pids: Seq<i32>) -> SupervisorView
    decreases actions.len(),
{
    if actions.len() == 0 {
        s
    } else {
        carried_out(
            after_reload(s, actions.drop_last(), pids),
            actions.last(),
            pids[actions.len() - 1],
        )
    }
}

/// Whether one of the first `k` actions is about `name`.
pub open spec fn acted(actions: Seq<ActionView>, k: int, name: Name) -> bool {
    exists|j: int| 0 <= j < k && #[trigger] actions[j].name() == name
}

/// Whether the supervision set agrees with the configuration on `name`:
/// the name is entered exactly if it is wanted, and then with the words
/// that are wanted.
pub open spec fn settled(s: SupervisorView, targets: Seq<TargetView>, name: Name) -> bool {
    &&& s.tracks(name) <==> wants(targets, name)
    &&& s.tracks(name) ==> s.entry(name).argv == wanted_argv(targets, name)
}

/// After the first `k` actions of a reload, the names they are about are
/// settled and every other name is as it was.
proof fn lemma_reload_prefix(s: SupervisorView, targets: Seq<TargetView>, pids: Seq<i32>, k: int)
    requires
        s.wf(),
        config_wf(targets),
        0 <= k <= plan(s.entries, targets).len(),
        forall|n: Name| s.tracks(n) && !wants(targets, n) ==> s.entry(n).pid is Some,
    ensures
        ({
            let actions = plan(s.entries, targets);
            let r = after_reload(s, actions.take(k), pids);
            &&& r.wf()
            &&& forall|n: Name|
                !acted(actions, k, n) ==> (r.tracks(n) <==> s.tracks(n)) && (s.tracks(n)
                    ==> r.entry(n) == s.entry(n))
            &&& forall|n: Name| acted(actions, k, n) ==> settled(r, targets, n)
        }),
    decreases k,
{
    let actions = plan(s.entries, targets);
    if k == 0 {
        assert(actions.take(0) =~= Seq::<ActionView>::empty());
    } else {
        lemma_reload_prefix(s, targets, pids, k - 1);
        let r0 = after_reload(s, actions.take(k - 1), pids);
        let a = actions[k - 1];
        let m = a.name();
        assert(actions.take(k).drop_last() =~= actions.take(k - 1));
        assert(actions.take(k).last() == a);
        let r = carried_out(r0, a, pids[k - 1]);
        assert(r == after_reload(s, actions.take(k), pids));
        law_plan_sound(s.entries, targets, k - 1);
        assert(!acted(actions, k - 1, m)) by {
            if acted(actions, k - 1, m) {
                let j = choose|j: int| 0 <= j < k - 1 && #[trigger] actions[j].name() == m;
                law_plan_one_action_per_name(s.entries, targets, j, k - 1);
            }
        }
        let argv = match a {
            ActionView::Stop { .. } => Seq::<Seq<char>>::empty(),
            ActionView::Start { argv, .. } => argv,
            ActionView::Defer { argv, .. } => argv,
        };
        law_reports_on_the_table(r0, m, argv, pids[k - 1]);
        if s.tracks(m) {
            assert(entry_names(s.entries)[slot(s.entries, m)] == m);
        }
        if wants(targets, m) {
            assert(target_names(targets)[target_names(targets).index_of(m)] == m);
        }
        assert(acted(actions, k, m)) by {
            assert(actions[k - 1].name() == m);
        }
        assert(settled(r, targets, m)) by {
            assert(r.tracks(m) <==> r.table().dom().contains(m));
            assert(r.tracks(m) ==> r.entry(m) == r.table()[m]);
        }
        assert forall|n: Name| n != m implies (r.tracks(n) <==> r0.tracks(n)) && (r0.tracks(n)
            ==> r.entry(n) == r0.entry(n)) by {
            assert(r.tracks(n) <==> r.table().dom().contains(n));
            assert(r0.tracks(n) <==> r0.table().dom().contains(n));
            assert(r.tracks(n) ==> r.entry(n) == r.table()[n]);
            assert(r0.tracks(n) ==> r0.entry(n) == r0.table()[n]);
        }
        assert forall|n: Name| !acted(actions, k, n) implies (r.tracks(n) <==> s.tracks(n)) && (
        s.tracks(n) ==> r.entry(n) == s.entry(n)) by {
            assert(n != m);
            if acted(actions, k - 1, n) {
                let j = choose|j: int| 0 <= j < k - 1 && #[trigger] actions[j].name() == n;
                assert(0 <= j < k && actions[j].name() == n);
            }
        }
        assert forall|n: Name| acted(actions, k, n) implies settled(r, targets, n) by {
            if n != m {
                let j = choose|j: int| 0 <= j < k && #[trigger] actions[j].name() == n;
                assert(j != k - 1);
                assert(0 <= j < k - 1 && actions[j].name() == n);
                assert(acted(actions, k - 1, n));
                assert(settled(r0, targets, n));
            }
        }
    }
}

/// A reload that succeeds in every action brings the supervision set to
/// the configuration: afterwards exactly the wanted names are entered,
/// each with the words that are wanted for it. (An entry that is to be
/// removed must track a process, since only a delivered signal takes an
/// entry out.)
pub proof fn law_reload_reaches_config(s: SupervisorView, targets: Seq<TargetView>, pids: Seq<i32>)
    requires
        s.wf(),
        config_wf(targets),
        forall|n: Name| s.tracks(n) && !wants(targets, n) ==> s.entry(n).pid is Some,
    ensures
        after_reload(s, plan(s.entries, targets), pids).wf(),
        forall|n: Name| settled(after_reload(s, plan(s.entries, targets), pids), targets, n),
{
    let actions = plan(s.entries, targets);
    let k = actions.len() as int;
    lemma_reload_prefix(s, targets, pids, k);
    assert(actions.take(k) =~= actions);
    let r = after_reload(s, actions, pids);
    assert forall|n: Name| settled(r, targets, n) by {
        if action_for(s.entries, targets, n) is Some {
            let a = action_for(s.entries, targets, n).unwrap();
            law_plan_complete(s.entries, targets, n);
            let j = choose|j: int| 0 <= j < actions.len() && actions[j] == a;
            if holds(s.entries, n) {
                assert(entry_names(s.entries)[slot(s.entries, n)] == n);
            } else {
                assert(target_names(targets)[target_names(targets).index_of(n)] == n);
            }
            assert(actions[j].name() == n);
            assert(acted(actions, k, n));
        }
    }
}

} // verus!
