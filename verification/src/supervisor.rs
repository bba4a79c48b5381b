//! The supervision set and the active set, and the decisions of the event
//! loop: what a reload asks for, and what follows when a signal was sent,
//! a process was started, or a process has ended.

use vstd::prelude::*;
use vstd::seq_lib::{to_multiset_build, to_multiset_remove};
use crate::command::CmdSpec;
use crate::config::Config;
use crate::laws::{law_reports_on_the_table, lemma_defer_on_the_table};
use crate::model::{
    defer_of, defers, entry_names, lemma_changed_push, lemma_push_wf, lemma_remove_wf,
    lemma_starts_push, lemma_stops_push, lemma_update_names, plan, slot, starts, stops,
    target_names, wanted_argv, ActionView, EntryView, NextView, SupervisorView,
};

verus! {

/// The record of one supervised name.
#[derive(Debug)]
pub struct Entry {
    pub name: String,
    pub spec: CmdSpec,
    pub pid: Option<i32>,
}

impl View for Entry {
    type V = EntryView;

    open spec fn view(&self) -> EntryView {
        EntryView { name: self.name@, argv: self.spec@, pid: self.pid }
    }
}

/// One step that a reload asks the event loop to carry out.
#[derive(Debug)]
pub enum Action {
    /// Send a stop signal to `pid`, then report with `stop_sent`. Without
    /// a `pid` the process is not running and there is nothing to send.
    Stop { name: String, pid: Option<i32> },
    /// Start `spec` now, then report with `started`.
    Start { name: String, spec: CmdSpec },
    /// Send a stop signal to `pid`, then report with `defer_sent`; do not
    /// start anything.
    Defer { name: String, pid: Option<i32>, spec: CmdSpec },
}

impl View for Action {
    type V = ActionView;

    open spec fn view(&self) -> ActionView {
        match self {
            Action::Stop { name, pid } => ActionView::Stop { name: name@, pid: *pid },
            Action::Start { name, spec } => ActionView::Start { name: name@, argv: spec@ },
            Action::Defer { name, pid, spec } => ActionView::Defer {
                name: name@,
                pid: *pid,
                argv: spec@,
            },
        }
    }
}

/// A list of actions as the model sees it.
pub open spec fn actions_view(v: Seq<Action>) -> Seq<ActionView> {
    v.map_values(|a: Action| a@)
}

/// What the event loop does after a process has ended.
#[derive(Debug)]
pub enum Next {
    /// Start this command, then report with `respawned`.
    Respawn { spec: CmdSpec },
    /// Nothing: the name is retired.
    Retire,
}

impl View for Next {
    type V = NextView;

    open spec fn view(&self) -> NextView {
        match self {
            Next::Respawn { spec } => NextView::Respawn { argv: spec@ },
            Next::Retire => NextView::Retire,
        }
    }
}

/// The state that the event loop owns.
#[derive(Debug)]
pub struct Supervisor {
    entries: Vec<Entry>,
    active: Vec<String>,
}

impl View for Supervisor {
    type V = SupervisorView;

    closed spec fn view(&self) -> SupervisorView {
        SupervisorView {
            entries: self.entries@.map_values(|e: Entry| e@),
            active: self.active@.map_values(|s: String| s@).to_multiset(),
        }
    }
}

impl Supervisor {
    /// No name is entered twice.
    pub open spec fn wf(&self) -> bool {
        self@.wf()
    }

    /// A supervisor that keeps nothing running yet.
    pub fn new() -> (r: Supervisor)
        ensures
            r.wf(),
            r@ == SupervisorView::empty(),
    {
        let r = Supervisor { entries: Vec::new(), active: Vec::new() };
        assert(r@.entries =~= Seq::empty());
        assert(r.active@.map_values(|s: String| s@) =~= Seq::empty());
        assert(r@.active =~= vstd::multiset::Multiset::empty()) by {
            broadcast use vstd::seq_lib::group_to_multiset_ensures;
        }
        assert(entry_names(r@.entries) =~= Seq::empty());
        r
    }

    /// Where `name` is entered, if it is.
    fn find(&self, name: &String) -> (r: Option<usize>)
        requires
            self.wf(),
        ensures
            match r {
                Some(i) => {
                    &&& i < self.entries.len()
                    &&& self.entries[i as int].name@ == name@
                    &&& self@.tracks(name@)
                    &&& i == slot(self@.entries, name@)
                },
                None => !self@.tracks(name@),
            },
    {
        let mut i: usize = 0;
        while i < self.entries.len()
            invariant
                self.wf(),
                i <= self.entries.len(),
                forall|j: int| 0 <= j < i ==> self.entries[j].name@ != name@,
            decreases self.entries.len() - i,
        {
            if self.entries[i].name == *name {
                proof {
                    let ns = entry_names(self@.entries);
                    assert(ns[i as int] == name@);
                    let k = ns.index_of(name@);
                    assert(ns[k] == name@);
                }
                return Some(i);
            }
            i += 1;
        }
        assert(!self@.tracks(name@)) by {
            if self@.tracks(name@) {
                let k = entry_names(self@.entries).index_of(name@);
                assert(self.entries[k].name@ == name@);
            }
        }
        None
    }

    /// The number of names that are kept running.
    pub fn len(&self) -> (n: usize)
        ensures
            n == self@.entries.len(),
    {
        self.entries.len()
    }

    /// The entry of `name`, if the name is kept running.
    pub fn lookup(&self, name: &String) -> (r: Option<&Entry>)
        requires
            self.wf(),
        ensures
            match r {
                Some(e) => self@.tracks(name@) && e@ == self@.entry(name@),
                None => !self@.tracks(name@),
            },
            r is Some == self@.table().dom().contains(name@),
            r is Some ==> r.unwrap()@ == self@.table()[name@],
    {
        match self.find(name) {
            Some(i) => Some(&self.entries[i]),
            None => None,
        }
    }

    /// Whether a process of `name` has been started and not yet seen to end.
    pub fn is_awaited(&self, name: &String) -> (r: bool)
        ensures
            r == (self@.outstanding(name@) > 0),
    {
        let ghost names = self.active@.map_values(|s: String| s@);
        proof {
            names.to_multiset_ensures();
        }
        let mut i: usize = 0;
        while i < self.active.len()
            invariant
                i <= self.active.len(),
                names == self.active@.map_values(|s: String| s@),
                names.contains(name@) <==> self@.outstanding(name@) > 0,
                forall|j: int| 0 <= j < i ==> names[j] != name@,
            decreases self.active.len() - i,
        {
            if self.active[i] == *name {
                assert(names[i as int] == name@);
                assert(names.contains(name@));
                return true;
            }
            i += 1;
        }
        assert(!names.contains(name@));
        false
    }

    /// Whether the event loop is done: no process is awaited any more.
    pub fn is_finished(&self) -> (r: bool)
        ensures
            r == self@.finished(),
    {
        broadcast use vstd::seq_lib::group_to_multiset_ensures;

        self.active.len() == 0
    }
}

impl Supervisor {
    /// Notes that one more process of `name` is awaited.
    fn await_one(&mut self, name: String)
        ensures
            final(self)@.entries == old(self)@.entries,
            final(self)@.active == old(self)@.active.insert(name@),
    {
        let ghost names = self.active@.map_values(|s: String| s@);
        self.active.push(name);
        proof {
            assert(self.active@.map_values(|s: String| s@) =~= names.push(name@));
            to_multiset_build(names, name@);
        }
    }

    /// Notes that one process of `name` is awaited no longer.
    fn forget_one(&mut self, name: &String)
        ensures
            final(self)@.entries == old(self)@.entries,
            final(self)@.active == old(self)@.active.remove(name@),
    {
        let ghost names = self.active@.map_values(|s: String| s@);
        proof {
            names.to_multiset_ensures();
        }
        let mut i: usize = 0;
        while i < self.active.len()
            invariant
                i <= self.active.len(),
                *self == *old(self),
                names == self.active@.map_values(|s: String| s@),
                forall|j: int| 0 <= j < i ==> names[j] != name@,
            decreases self.active.len() - i,
        {
            if self.active[i] == *name {
                self.active.remove(i);
                proof {
                    assert(self.active@.map_values(|s: String| s@) =~= names.remove(i as int));
                    to_multiset_remove(names, i as int);
                }
                return;
            }
            i += 1;
        }
        proof {
            broadcast use vstd::multiset::group_multiset_axioms;

            assert(!names.contains(name@));
            assert(self@.active.remove(name@) =~= self@.active);
        }
    }

    /// Reports the stop signal of a `Stop` action: whether it was
    /// delivered. (For an action without a process identifier, report
    /// `false`.) Says whether the entry was taken out.
    ///
    /// The entry leaves exactly when it tracked a process and the signal
    /// was delivered; its process stays awaited. Otherwise the entry stays
    /// exactly as it was.
    pub fn stop_sent(&mut self, name: &String, delivered: bool) -> (gone: bool)
        requires
            old(self).wf(),
        ensures
            final(self).wf(),
            final(self)@ == old(self)@.after_stop(name@, delivered),
            gone == (old(self)@.tracks(name@) && old(self)@.entry(name@).pid is Some && delivered),
            final(self)@.table() == if gone {
                old(self)@.table().remove(name@)
            } else {
                old(self)@.table()
            },
    {
        proof {
            law_reports_on_the_table(self@, name@, Seq::empty(), 0);
        }
        match self.find(name) {
            Some(i) => {
                if delivered && self.entries[i].pid.is_some() {
                    let ghost before = self@;
                    self.entries.remove(i);
                    proof {
                        assert(self@.entries =~= before.entries.remove(i as int));
                        lemma_remove_wf(before.entries, i as int);
                    }
                    true
                } else {
                    false
                }
            },
            None => false,
        }
    }

    /// Reports the launch of a `Start` action: the identifier of the new
    /// process, or `None` where the launch failed.
    ///
    /// On success the name is entered with this command and this process,
    /// and the process is awaited. On failure nothing changes: the name is
    /// dropped until a later reload adds it again.
    pub fn started(&mut self, name: String, spec: CmdSpec, pid: Option<i32>)
        requires
            old(self).wf(),
        ensures
            final(self).wf(),
            final(self)@ == old(self)@.after_start(name@, spec@, pid),
            final(self)@.table() == match pid {
                Some(p) => old(self)@.table().insert(
                    name@,
                    EntryView { name: name@, argv: spec@, pid: Some(p) },
                ),
                None => old(self)@.table(),
            },
    {
        proof {
            if let Some(p) = pid {
                law_reports_on_the_table(self@, name@, spec@, p);
            }
        }
        if let Some(p) = pid {
            let ghost before = self@;
            let awaited = name.clone();
            let found = self.find(&name);
            let entry = Entry { name, spec, pid: Some(p) };
            match found {
                Some(i) => {
                    self.entries[i] = entry;
                    proof {
                        assert(self@.entries =~= before.entries.update(i as int, entry@));
                        lemma_update_names(before.entries, i as int, entry@);
                    }
                },
                None => {
                    self.entries.push(entry);
                    proof {
                        assert(self@.entries =~= before.entries.push(entry@));
                        lemma_push_wf(before.entries, entry@);
                    }
                },
            }
            self.await_one(awaited);
        }
    }

    /// Reports the stop signal of a `Defer` action: whether it was
    /// delivered. (For an action without a process identifier, report
    /// `false`.) Says whether the new command was staged.
    ///
    /// If the entry tracked a process and the signal failed, the entry
    /// stays exactly as it was. Otherwise it takes the new command and
    /// tracks no process; nothing is started here: the restart that
    /// follows the end of the old process will use the new command.
    pub fn defer_sent(&mut self, name: &String, spec: CmdSpec, delivered: bool) -> (staged: bool)
        requires
            old(self).wf(),
        ensures
            final(self).wf(),
            final(self)@ == old(self)@.after_defer(name@, spec@, delivered),
            staged == (old(self)@.tracks(name@) && (old(self)@.entry(name@).pid is None
                || delivered)),
            final(self)@.table() == if staged {
                old(self)@.table().insert(name@, EntryView { name: name@, argv: spec@, pid: None })
            } else {
                old(self)@.table()
            },
    {
        proof {
            lemma_defer_on_the_table(self@, name@, spec@, delivered);
        }
        match self.find(name) {
            Some(i) => {
                if delivered || self.entries[i].pid.is_none() {
                    let ghost before = self@;
                    let entry = Entry { name: name.clone(), spec, pid: None };
                    self.entries[i] = entry;
                    proof {
                        assert(self@.entries =~= before.entries.update(i as int, entry@));
                        lemma_update_names(before.entries, i as int, entry@);
                    }
                    true
                } else {
                    false
                }
            },
            None => false,
        }
    }

    /// Handles the end of a process of `name`.
    ///
    /// The process is awaited no longer. While the name is entered, the
    /// answer is a restart with the entry's current command, which a
    /// deferred update may just have replaced; else the name is retired.
    pub fn completed(&mut self, name: &String) -> (next: Next)
        requires
            old(self).wf(),
        ensures
            final(self).wf(),
            final(self)@ == old(self)@.after_completion(name@),
            final(self)@.table() == old(self)@.table(),
            next@ == old(self)@.on_completion(name@),
    {
        self.forget_one(name);
        match self.find(name) {
            Some(i) => Next::Respawn { spec: self.entries[i].spec.clone() },
            None => Next::Retire,
        }
    }

    /// Reports the launch that `Respawn` asked for: the identifier of the
    /// new process, or `None` where the launch failed.
    ///
    /// On success the process is awaited and the entry tracks it. On
    /// failure nothing changes: the entry stays, with no process awaited
    /// for it.
    pub fn respawned(&mut self, name: &String, pid: Option<i32>)
        requires
            old(self).wf(),
        ensures
            final(self).wf(),
            final(self)@ == old(self)@.after_respawn(name@, pid),
            final(self)@.table() == match pid {
                Some(p) if old(self)@.tracks(name@) => old(self)@.table().insert(
                    name@,
                    EntryView { pid: Some(p), ..old(self)@.entry(name@) },
                ),
                _ => old(self)@.table(),
            },
    {
        proof {
            if let Some(p) = pid {
                law_reports_on_the_table(self@, name@, Seq::empty(), p);
            }
        }
        if let Some(p) = pid {
            let ghost before = self@;
            match self.find(name) {
                Some(i) => {
                    self.entries[i].pid = Some(p);
                    proof {
                        let e = EntryView { pid: Some(p), ..before.entry(name@) };
                        assert(self@.entries =~= before.entries.update(i as int, e));
                        lemma_update_names(before.entries, i as int, e);
                    }
                },
                None => {},
            }
            self.await_one(name.clone());
        }
    }

    /// Handles a failed wait for a process of `name`: the process is
    /// awaited no longer, and nothing is restarted for this occurrence.
    pub fn wait_failed(&mut self, name: &String)
        requires
            old(self).wf(),
        ensures
            final(self).wf(),
            final(self)@ == old(self)@.after_completion(name@),
    {
        self.forget_one(name);
    }
}

impl Supervisor {
    /// Works out what a reload to `cfg` asks for, without changing
    /// anything.
    ///
    /// The answer lists a stop for each entry whose name the configuration
    /// no longer wants, then a start for each line whose name is not
    /// entered, then a deferred update for each entry that the
    /// configuration wants with other words. It is empty exactly when
    /// nothing has changed. The event loop carries the actions out in this
    /// order and reports each with `stop_sent`, `started` or `defer_sent`.
    pub fn plan_reload(&self, cfg: &Config) -> (actions: Vec<Action>)
        requires
            self.wf(),
            cfg.wf(),
        ensures
            actions_view(actions@) == plan(self@.entries, cfg@),
    {
        let ghost entries = self@.entries;
        let ghost targets = cfg@;
        let mut actions: Vec<Action> = Vec::new();
        let mut i: usize = 0;
        proof {
            assert(entries.take(0) =~= Seq::empty());
            assert(stops(Seq::empty(), targets) =~= Seq::empty()) by {
                reveal(Seq::filter);
            }
            assert(actions_view(actions@) =~= Seq::empty());
        }
        while i < self.entries.len()
            invariant
                i <= self.entries.len(),
                entries == self@.entries,
                targets == cfg@,
                actions_view(actions@) == stops(entries.take(i as int), targets),
            decreases self.entries.len() - i,
        {
            let e = &self.entries[i];
            let ghost done = actions_view(actions@);
            proof {
                assert(entries.take(i + 1) =~= entries.take(i as int).push(e@));
                lemma_stops_push(entries.take(i as int), e@, targets);
            }
            match cfg.position(&e.name) {
                Some(k) => {
                    assert(target_names(targets)[k as int] == e@.name);
                },
                None => {
                    let action = Action::Stop { name: e.name.clone(), pid: e.pid };
                    actions.push(action);
                    assert(actions_view(actions@) =~= done.push(action@));
                },
            }
            i += 1;
        }
        assert(entries.take(i as int) =~= entries);
        let ghost stopped = actions_view(actions@);
        let mut k: usize = 0;
        proof {
            assert(targets.take(0) =~= Seq::empty());
            assert(starts(entries, Seq::empty()) =~= Seq::empty()) by {
                reveal(Seq::filter);
            }
            assert(stopped + Seq::<ActionView>::empty() =~= stopped);
        }
        while k < cfg.len()
            invariant
                self.wf(),
                k <= cfg@.len(),
                entries == self@.entries,
                targets == cfg@,
                stopped == stops(entries, targets),
                actions_view(actions@) == stopped + starts(entries, targets.take(k as int)),
            decreases cfg@.len() - k,
        {
            let t = cfg.target(k);
            let ghost done = actions_view(actions@);
            proof {
                assert(targets.take(k + 1) =~= targets.take(k as int).push(t@));
                lemma_starts_push(entries, targets.take(k as int), t@);
            }
            if self.find(&t.name).is_none() {
                let action = Action::Start { name: t.name.clone(), spec: t.spec.clone() };
                actions.push(action);
                assert(actions_view(actions@) =~= done.push(action@));
                assert(done.push(action@) =~= stopped + starts(entries, targets.take(k as int)).push(
                    action@,
                ));
            }
            k += 1;
        }
        assert(targets.take(k as int) =~= targets);
        let ghost begun = actions_view(actions@);
        let mut i: usize = 0;
        proof {
            assert(entries.take(0) =~= Seq::empty());
            assert(defers(Seq::empty(), targets) =~= Seq::empty()) by {
                reveal(Seq::filter);
            }
            assert(begun + Seq::<ActionView>::empty() =~= begun);
        }
        while i < self.entries.len()
            invariant
                cfg.wf(),
                i <= self.entries.len(),
                entries == self@.entries,
                targets == cfg@,
                begun == stops(entries, targets) + starts(entries, targets),
                actions_view(actions@) == begun + defers(entries.take(i as int), targets),
            decreases self.entries.len() - i,
        {
            let e = &self.entries[i];
            let ghost done = actions_view(actions@);
            let ghost pre = entries.take(i as int);
            proof {
                assert(entries.take(i + 1) =~= pre.push(e@));
                lemma_changed_push(pre, e@, targets);
            }
            match cfg.position(&e.name) {
                Some(k) => {
                    let t = cfg.target(k);
                    proof {
                        let ns = target_names(targets);
                        assert(ns[k as int] == e@.name);
                        assert(ns[ns.index_of(e@.name)] == e@.name);
                        assert(wanted_argv(targets, e@.name) == t@.argv);
                    }
                    if !e.spec.same_argv(&t.spec) {
                        let action = Action::Defer {
                            name: e.name.clone(),
                            pid: e.pid,
                            spec: t.spec.clone(),
                        };
                        actions.push(action);
                        proof {
                            assert(action@ == defer_of(e@, targets));
                            assert(defers(pre.push(e@), targets) =~= defers(pre, targets).push(
                                action@,
                            ));
                            assert(actions_view(actions@) =~= done.push(action@));
                            assert(done.push(action@) =~= begun + defers(pre, targets).push(
                                action@,
                            ));
                        }
                    }
                },
                None => {},
            }
            i += 1;
        }
        assert(entries.take(i as int) =~= entries);
        actions
    }
}

} // verus!
