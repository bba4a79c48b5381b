//! The configuration that a reload brings: for each name the command that
//! the operator wants running.

use vstd::prelude::*;
use vstd::string::StringExecFns;
use crate::command::{parse_command, shell_words, CmdSpec};
use crate::model::{config_wf, target_names, wants, TargetView};

verus! {

/// One line of a configuration.
#[derive(Debug)]
pub struct Target {
    pub name: String,
    pub spec: CmdSpec,
}

impl View for Target {
    type V = TargetView;

    open spec fn view(&self) -> TargetView {
        TargetView { name: self.name@, argv: self.spec@ }
    }
}

/// Why a configuration was not accepted.
#[derive(Debug)]
pub enum ConfigError {
    /// The command of this name has a quote that is never closed.
    MismatchedQuotes { name: String },
    /// This name stands in the configuration a second time.
    DuplicateName { name: String },
}

impl ConfigError {
    /// The error in words: the name, then what is wrong with its line.
    pub fn message(&self) -> (text: String)
        ensures
            text@ == match *self {
                ConfigError::MismatchedQuotes { name } => name@ + ": mismatched quotes"@,
                ConfigError::DuplicateName { name } => name@ + ": named twice"@,
            },
    {
        match self {
            ConfigError::MismatchedQuotes { name } => {
                let mut text = name.clone();
                text.append(": mismatched quotes");
                text
            },
            ConfigError::DuplicateName { name } => {
                let mut text = name.clone();
                text.append(": named twice");
                text
            },
        }
    }
}

/// A configuration: names with their commands, each name once.
#[derive(Debug)]
pub struct Config {
    targets: Vec<Target>,
}

impl View for Config {
    type V = Seq<TargetView>;

    closed spec fn view(&self) -> Seq<TargetView> {
        self.targets@.map_values(|t: Target| t@)
    }
}

/// Whether line `i` of the raw configuration cannot be accepted: its
/// command has mismatched quotes, or an earlier line has its name.
pub open spec fn faulty(raw: Seq<(String, String)>, i: int) -> bool {
    shell_words(raw[i].1@) is None || exists|j: int| 0 <= j < i && raw[j].0@ == raw[i].0@
}

/// Whether line `i` is the first that cannot be accepted.
pub open spec fn first_fault(raw: Seq<(String, String)>, i: int) -> bool {
    &&& 0 <= i < raw.len()
    &&& faulty(raw, i)
    &&& forall|j: int| 0 <= j < i ==> !faulty(raw, j)
}

impl Config {
    /// Each name stands once.
    pub open spec fn wf(&self) -> bool {
        config_wf(self@)
    }

    /// The configuration that wants nothing.
    pub fn new() -> (r: Config)
        ensures
            r.wf(),
            r@ == Seq::<TargetView>::empty(),
    {
        let r = Config { targets: Vec::new() };
        assert(r@ =~= Seq::<TargetView>::empty());
        assert(target_names(r@) =~= Seq::empty());
        r
    }

    /// The number of names.
    pub fn len(&self) -> (n: usize)
        ensures
            n == self@.len(),
    {
        self.targets.len()
    }

    /// The line at place `i`.
    pub fn target(&self, i: usize) -> (t: &Target)
        requires
            i < self@.len(),
        ensures
            t@ == self@[i as int],
    {
        &self.targets[i]
    }

    /// Where `name` stands, if the configuration wants it.
    pub fn position(&self, name: &String) -> (r: Option<usize>)
        ensures
            match r {
                Some(i) => i < self@.len() && self@[i as int].name == name@,
                None => !wants(self@, name@),
            },
    {
        let mut i: usize = 0;
        while i < self.targets.len()
            invariant
                i <= self.targets.len(),
                forall|j: int| 0 <= j < i ==> self.targets[j].name@ != name@,
            decreases self.targets.len() - i,
        {
            if self.targets[i].name == *name {
                return Some(i);
            }
            i += 1;
        }
        assert(!wants(self@, name@)) by {
            if wants(self@, name@) {
                let j = target_names(self@).index_of(name@);
                assert(self.targets[j].name@ == name@);
            }
        }
        None
    }

    /// Adds a line, unless the name is there already. Says whether the
    /// line was added.
    pub fn add(&mut self, name: String, spec: CmdSpec) -> (r: bool)
        requires
            old(self).wf(),
        ensures
            final(self).wf(),
            r == !wants(old(self)@, name@),
            r ==> final(self)@ == old(self)@.push(TargetView { name: name@, argv: spec@ }),
            !r ==> final(self)@ == old(self)@,
    {
        if let Some(i) = self.position(&name) {
            assert(target_names(self@)[i as int] == name@);
            return false;
        }
        let ghost before = self@;
        let ghost t = TargetView { name: name@, argv: spec@ };
        self.targets.push(Target { name, spec });
        assert(self@ =~= before.push(t));
        assert(target_names(self@) =~= target_names(before).push(t.name));
        assert(target_names(self@).no_duplicates()) by {
            let ns = target_names(self@);
            assert forall|i: int, j: int| 0 <= i < ns.len() && 0 <= j < ns.len() && i != j implies ns[i] != ns[j] by {
                if i < before.len() && j < before.len() {
                    assert(target_names(before)[i] != target_names(before)[j]);
                } else if i < before.len() {
                    assert(target_names(before)[i] == ns[i]);
                } else {
                    assert(target_names(before)[j] == ns[j]);
                }
            }
        }
        true
    }
}

/// Reads a raw configuration: for each name one shell-quoted command line.
///
/// Succeeds exactly when every command line has matched quotes and no
/// name stands twice; the configuration then holds the lines in their
/// order, each command split into words. Otherwise the error names the
/// first line that cannot be accepted, and says which of the two it is.
pub fn load_config(raw: &Vec<(String, String)>) -> (r: Result<Config, ConfigError>)
    ensures
        match r {
            Ok(cfg) => {
                &&& cfg.wf()
                &&& cfg@.len() == raw@.len()
                &&& forall|i: int| 0 <= i < raw@.len() ==> !faulty(raw@, i)
                &&& forall|i: int| 0 <= i < raw@.len() ==> (#[trigger] cfg@[i]).name == raw@[i].0@
                        && shell_words(raw@[i].1@) == Some(cfg@[i].argv)
            },
            Err(ConfigError::MismatchedQuotes { name }) => exists|i: int|
                first_fault(raw@, i) && shell_words(raw@[i].1@) is None && name@ == raw@[i].0@,
            Err(ConfigError::DuplicateName { name }) => exists|i: int|
                first_fault(raw@, i) && shell_words(raw@[i].1@) is Some && name@ == raw@[i].0@,
        },
{
    let mut cfg = Config::new();
    let mut i: usize = 0;
    while i < raw.len()
        invariant
            i <= raw@.len(),
            cfg.wf(),
            cfg@.len() == i,
            forall|j: int| 0 <= j < i ==> !faulty(raw@, j),
            forall|j: int| 0 <= j < i ==> (#[trigger] cfg@[j]).name == raw@[j].0@
                && shell_words(raw@[j].1@) == Some(cfg@[j].argv),
        decreases raw@.len() - i,
    {
        let name = raw[i].0.clone();
        match parse_command(raw[i].1.as_str()) {
            None => {
                assert(first_fault(raw@, i as int));
                return Err(ConfigError::MismatchedQuotes { name });
            },
            Some(spec) => {
                let ghost before = cfg@;
                let copy = name.clone();
                if !cfg.add(name, spec) {
                    assert(faulty(raw@, i as int)) by {
                        let j = target_names(before).index_of(copy@);
                        assert(before[j].name == copy@);
                        assert(raw@[j].0@ == raw@[i as int].0@);
                    }
                    assert(first_fault(raw@, i as int));
                    return Err(ConfigError::DuplicateName { name: copy });
                }
                assert(!faulty(raw@, i as int)) by {
                    if faulty(raw@, i as int) {
                        let j = choose|j: int| 0 <= j < i && raw@[j].0@ == raw@[i as int].0@;
                        assert(before[j].name == copy@);
                        assert(target_names(before)[j] == copy@);
                    }
                }
            },
        }
        i += 1;
    }
    Ok(cfg)
}

} // verus!
