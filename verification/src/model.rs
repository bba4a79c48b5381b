//! The mathematical model of the supervisor: what the supervision set and
//! the active set hold, and what each event makes of them.

use vstd::prelude::*;
use vstd::multiset::Multiset;

verus! {

/// A name as its characters.
pub type Name = Seq<char>;

/// A command line as its words.
pub type Words = Seq<Seq<char>>;

/// One supervised name: the command to keep running, and the identifier of
/// the process that was last started for it, while one is tracked.
pub struct EntryView {
    pub name: Name,
    pub argv: Words,
    pub pid: Option<i32>,
}

/// One line of a configuration: a name and the command wanted for it.
pub struct TargetView {
    pub name: Name,
    pub argv: Words,
}

/// One step that a reload asks for.
pub enum ActionView {
    /// The name is no longer wanted: signal its process. Without a tracked
    /// identifier there is nothing to signal.
    Stop { name: Name, pid: Option<i32> },
    /// The name is new: start it now.
    Start { name: Name, argv: Words },
    /// The command of the name has changed: signal its process and stage
    /// the new command, which the next restart will use.
    Defer { name: Name, pid: Option<i32>, argv: Words },
}

impl ActionView {
    /// The name that the action is about.
    pub open spec fn name(self) -> Name {
        match self {
            ActionView::Stop { name, .. } => name,
            ActionView::Start { name, .. } => name,
            ActionView::Defer { name, .. } => name,
        }
    }
}

/// What to do when a process has ended.
pub enum NextView {
    /// The name is still wanted: start this command.
    Respawn { argv: Words },
    /// The name is no longer wanted: this was its last run.
    Retire,
}

/// The names of a list of entries, in order.
pub open spec fn entry_names(entries: Seq<EntryView>) -> Seq<Name> {
    entries.map_values(|e: EntryView| e.name)
}

/// The names of a configuration, in order.
pub open spec fn target_names(targets: Seq<TargetView>) -> Seq<Name> {
    targets.map_values(|t: TargetView| t.name)
}

/// Whether a configuration names each process once.
pub open spec fn config_wf(targets: Seq<TargetView>) -> bool {
    target_names(targets).no_duplicates()
}

/// Whether a configuration wants `name`.
pub open spec fn wants(targets: Seq<TargetView>, name: Name) -> bool {
    target_names(targets).contains(name)
}

/// The command that a configuration wants for `name`.
pub open spec fn wanted_argv(targets: Seq<TargetView>, name: Name) -> Words
    recommends
        wants(targets, name),
{
    targets[target_names(targets).index_of(name)].argv
}

/// Whether a list of entries holds `name`.
pub open spec fn holds(entries: Seq<EntryView>, name: Name) -> bool {
    entry_names(entries).contains(name)
}

/// Where a list of entries holds `name`.
pub open spec fn slot(entries: Seq<EntryView>, name: Name) -> int
    recommends
        holds(entries, name),
{
    entry_names(entries).index_of(name)
}

/// A list of entries as a mapping from each name to its entry.
pub open spec fn table_of(entries: Seq<EntryView>) -> Map<Name, EntryView> {
    Map::new(|n: Name| holds(entries, n), |n: Name| entries[slot(entries, n)])
}

/// The supervisor's state: the supervision set, in the order in which its
/// names were entered, and the names of the processes whose end is still
/// awaited, each as often as a process of that name is outstanding.
pub struct SupervisorView {
    pub entries: Seq<EntryView>,
    pub active: Multiset<Name>,
}

impl SupervisorView {
    /// No name is entered twice.
    pub open spec fn wf(self) -> bool {
        entry_names(self.entries).no_duplicates()
    }

    /// The state before anything was started.
    pub open spec fn empty() -> SupervisorView {
        SupervisorView { entries: Seq::empty(), active: Multiset::empty() }
    }

    /// Whether `name` is to be kept running.
    pub open spec fn tracks(self, name: Name) -> bool {
        self.table().dom().contains(name)
    }

    /// The entry of `name`.
    pub open spec fn entry(self, name: Name) -> EntryView
        recommends
            self.tracks(name),
    {
        self.table()[name]
    }

    /// The supervision set as a mapping from each name to its entry.
    pub open spec fn table(self) -> Map<Name, EntryView> {
        table_of(self.entries)
    }

    /// How many processes of `name` have not yet been seen to end.
    pub open spec fn outstanding(self, name: Name) -> nat {
        self.active.count(name)
    }

    /// Whether the event loop is done: no process is awaited any more.
    pub open spec fn finished(self) -> bool {
        self.active.len() == 0
    }

    /// The state after the stop signal for a removed name was attempted.
    /// The entry leaves only if it had a process identifier and the signal
    /// was delivered; otherwise nothing changes.
    pub open spec fn after_stop(self, name: Name, delivered: bool) -> SupervisorView {
        if self.tracks(name) && self.entry(name).pid is Some && delivered {
            SupervisorView { entries: self.entries.remove(slot(self.entries, name)), ..self }
        } else {
            self
        }
    }

    /// The state after a new name was launched. On success the entry is
    /// entered (in place of an earlier one of that name, if there is one)
    /// and the new process is awaited; on failure nothing changes.
    pub open spec fn after_start(self, name: Name, argv: Words, pid: Option<i32>) -> SupervisorView {
        match pid {
            Some(p) => {
                let e = EntryView { name, argv, pid: Some(p) };
                SupervisorView {
                    entries: if self.tracks(name) {
                        self.entries.update(slot(self.entries, name), e)
                    } else {
                        self.entries.push(e)
                    },
                    active: self.active.insert(name),
                }
            },
            None => self,
        }
    }

    /// The state after the stop signal for a changed name was attempted.
    /// If a tracked process could not be signalled nothing changes. Else
    /// the entry takes the new command and tracks no process, until the
    /// restart that follows the end of the old one.
    pub open spec fn after_defer(self, name: Name, argv: Words, delivered: bool) -> SupervisorView {
        if self.tracks(name) && (self.entry(name).pid is None || delivered) {
            SupervisorView {
                entries: self.entries.update(
                    slot(self.entries, name),
                    EntryView { name, argv, pid: None },
                ),
                ..self
            }
        } else {
            self
        }
    }

    /// The state after a process of `name` was seen to end, or the wait
    /// for it failed: it is awaited no longer.
    pub open spec fn after_completion(self, name: Name) -> SupervisorView {
        SupervisorView { active: self.active.remove(name), ..self }
    }

    /// What the end of a process of `name` calls for: a restart with the
    /// entry's current command while the name is tracked, nothing otherwise.
    pub open spec fn on_completion(self, name: Name) -> NextView {
        if self.tracks(name) {
            NextView::Respawn { argv: self.entry(name).argv }
        } else {
            NextView::Retire
        }
    }

    /// The state after a restart was attempted. On success the new process
    /// is awaited and the entry, if there is one, tracks it; on failure
    /// nothing changes.
    pub open spec fn after_respawn(self, name: Name, pid: Option<i32>) -> SupervisorView {
        match pid {
            Some(p) => SupervisorView {
                entries: if self.tracks(name) {
                    self.entries.update(
                        slot(self.entries, name),
                        EntryView { pid: Some(p), ..self.entry(name) },
                    )
                } else {
                    self.entries
                },
                active: self.active.insert(name),
            },
            None => self,
        }
    }
}

/// Whether a reload to `targets` removes an entry: the configuration no
/// longer wants its name.
pub open spec fn is_removed(targets: Seq<TargetView>) -> spec_fn(EntryView) -> bool {
    |e: EntryView| !wants(targets, e.name)
}

/// Whether a reload adds a line of the configuration: its name is not
/// held yet.
pub open spec fn is_added(entries: Seq<EntryView>) -> spec_fn(TargetView) -> bool {
    |t: TargetView| !holds(entries, t.name)
}

/// Whether a reload to `targets` changes an entry: the configuration
/// wants its name with other words.
pub open spec fn is_changed(targets: Seq<TargetView>) -> spec_fn(EntryView) -> bool {
    |e: EntryView| wants(targets, e.name) && wanted_argv(targets, e.name) != e.argv
}

/// The entries that a reload removes.
pub open spec fn removed(entries: Seq<EntryView>, targets: Seq<TargetView>) -> Seq<EntryView> {
    entries.filter(is_removed(targets))
}

/// The lines of the configuration that a reload adds.
pub open spec fn added(entries: Seq<EntryView>, targets: Seq<TargetView>) -> Seq<TargetView> {
    targets.filter(is_added(entries))
}

/// The entries that a reload changes.
pub open spec fn changed(entries: Seq<EntryView>, targets: Seq<TargetView>) -> Seq<EntryView> {
    entries.filter(is_changed(targets))
}

/// The stop of one removed entry.
pub open spec fn stop_of(e: EntryView) -> ActionView {
    ActionView::Stop { name: e.name, pid: e.pid }
}

/// The start of one added line.
pub open spec fn start_of(t: TargetView) -> ActionView {
    ActionView::Start { name: t.name, argv: t.argv }
}

/// The deferred update of one changed entry.
pub open spec fn defer_of(e: EntryView, targets: Seq<TargetView>) -> ActionView {
    ActionView::Defer { name: e.name, pid: e.pid, argv: wanted_argv(targets, e.name) }
}

/// The stops of a reload, in the order of the supervision set.
pub open spec fn stops(entries: Seq<EntryView>, targets: Seq<TargetView>) -> Seq<ActionView> {
    removed(entries, targets).map_values(|e: EntryView| stop_of(e))
}

/// The starts of a reload, in the order of the configuration.
pub open spec fn starts(entries: Seq<EntryView>, targets: Seq<TargetView>) -> Seq<ActionView> {
    added(entries, targets).map_values(|t: TargetView| start_of(t))
}

/// The deferred updates of a reload, in the order of the supervision set.
pub open spec fn defers(entries: Seq<EntryView>, targets: Seq<TargetView>) -> Seq<ActionView> {
    changed(entries, targets).map_values(|e: EntryView| defer_of(e, targets))
}

/// Everything a reload asks for: first the stops, then the starts, then
/// the deferred updates. It is empty exactly when nothing has changed.
pub open spec fn plan(entries: Seq<EntryView>, targets: Seq<TargetView>) -> Seq<ActionView> {
    stops(entries, targets) + starts(entries, targets) + defers(entries, targets)
}

/// The one action that a reload holds for `name`, if it holds any.
pub open spec fn action_for(entries: Seq<EntryView>, targets: Seq<TargetView>, name: Name) -> Option<ActionView> {
    if holds(entries, name) {
        let e = entries[slot(entries, name)];
        if !wants(targets, name) {
            Some(stop_of(e))
        } else if wanted_argv(targets, name) != e.argv {
            Some(defer_of(e, targets))
        } else {
            None
        }
    } else if wants(targets, name) {
        Some(start_of(targets[target_names(targets).index_of(name)]))
    } else {
        None
    }
}

/// Filtering a sequence with one more item at its end.
pub proof fn lemma_filter_push<A>(s: Seq<A>, x: A, p: spec_fn(A) -> bool)
    ensures
        s.push(x).filter(p) == if p(x) {
            s.filter(p).push(x)
        } else {
            s.filter(p)
        },
{
    reveal(Seq::filter);
    assert(s.push(x).drop_last() =~= s);
}

/// The stops of a supervision set with one more entry at its end.
pub proof fn lemma_stops_push(pre: Seq<EntryView>, e: EntryView, targets: Seq<TargetView>)
    ensures
        stops(pre.push(e), targets) == if wants(targets, e.name) {
            stops(pre, targets)
        } else {
            stops(pre, targets).push(stop_of(e))
        },
{
    lemma_filter_push(pre, e, is_removed(targets));
    if !wants(targets, e.name) {
        assert(stops(pre.push(e), targets) =~= stops(pre, targets).push(stop_of(e)));
    }
}

/// The starts for a configuration with one more line at its end.
pub proof fn lemma_starts_push(entries: Seq<EntryView>, pre: Seq<TargetView>, t: TargetView)
    ensures
        starts(entries, pre.push(t)) == if holds(entries, t.name) {
            starts(entries, pre)
        } else {
            starts(entries, pre).push(start_of(t))
        },
{
    lemma_filter_push(pre, t, is_added(entries));
    if !holds(entries, t.name) {
        assert(starts(entries, pre.push(t)) =~= starts(entries, pre).push(start_of(t)));
    }
}

/// The entries of a supervision set with one more entry at its end that a
/// reload changes.
pub proof fn lemma_changed_push(pre: Seq<EntryView>, e: EntryView, targets: Seq<TargetView>)
    ensures
        changed(pre.push(e), targets) == if wants(targets, e.name) && wanted_argv(targets, e.name)
            != e.argv {
            changed(pre, targets).push(e)
        } else {
            changed(pre, targets)
        },
{
    lemma_filter_push(pre, e, is_changed(targets));
}

/// Taking an entry out keeps the names distinct.
pub proof fn lemma_remove_wf(entries: Seq<EntryView>, i: int)
    requires
        entry_names(entries).no_duplicates(),
        0 <= i < entries.len(),
    ensures
        entry_names(entries.remove(i)).no_duplicates(),
{
    let ns = entry_names(entries);
    let ms = entry_names(entries.remove(i));
    assert forall|a: int, b: int| 0 <= a < ms.len() && 0 <= b < ms.len() && a != b implies ms[a]
        != ms[b] by {
        let a1 = if a < i { a } else { a + 1 };
        let b1 = if b < i { b } else { b + 1 };
        assert(ms[a] == ns[a1]);
        assert(ms[b] == ns[b1]);
    }
}

/// Replacing an entry by one of the same name keeps the names as they are.
pub proof fn lemma_update_names(entries: Seq<EntryView>, i: int, e: EntryView)
    requires
        0 <= i < entries.len(),
        e.name == entries[i].name,
    ensures
        entry_names(entries.update(i, e)) == entry_names(entries),
{
    assert(entry_names(entries.update(i, e)) =~= entry_names(entries));
}

/// Entering a name that is not held keeps the names distinct.
pub proof fn lemma_push_wf(entries: Seq<EntryView>, e: EntryView)
    requires
        entry_names(entries).no_duplicates(),
        !holds(entries, e.name),
    ensures
        entry_names(entries.push(e)).no_duplicates(),
{
    let ns = entry_names(entries);
    let ms = entry_names(entries.push(e));
    assert(ms =~= ns.push(e.name));
    assert forall|a: int, b: int| 0 <= a < ms.len() && 0 <= b < ms.len() && a != b implies ms[a]
        != ms[b] by {
        if a < ns.len() && b < ns.len() {
            assert(ns[a] != ns[b]);
        } else if a < ns.len() {
            assert(ns[a] == ms[a]);
        } else {
            assert(ns[b] == ms[b]);
        }
    }
}

} // verus!
