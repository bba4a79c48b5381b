//! Launching on demand: clients that are started when they are first
//! asked for, and the answer that each request gets.

use vstd::prelude::*;
use vstd::string::StringExecFns;
use crate::command::words_of;
use crate::model::{Name, Words};

verus! {

/// One client: the command line that launches it, and the identifier of
/// its process while it runs.
#[derive(Debug)]
pub struct ClientProcess {
    pub launch_cmd: String,
    pub pid: Option<u32>,
}

/// A client as the contracts see it.
pub struct ClientView {
    pub name: Name,
    pub launch_cmd: Seq<char>,
    pub pid: Option<u32>,
}

/// The launcher's state: the address it listens on, and its clients by
/// name. A request finds the first client of its name.
#[derive(Debug)]
pub struct Boss {
    pub listen_addr: String,
    pub clients: Vec<(String, ClientProcess)>,
}

/// The clients of a list, as the contracts see them.
pub open spec fn clients_view(clients: Seq<(String, ClientProcess)>) -> Seq<ClientView> {
    clients.map_values(
        |c: (String, ClientProcess)|
            ClientView { name: c.0@, launch_cmd: c.1.launch_cmd@, pid: c.1.pid },
    )
}

impl View for Boss {
    type V = Seq<ClientView>;

    open spec fn view(&self) -> Seq<ClientView> {
        clients_view(self.clients@)
    }
}

/// Whether place `i` holds the first client named `name`.
pub open spec fn first_named(clients: Seq<ClientView>, name: Name, i: int) -> bool {
    &&& 0 <= i < clients.len()
    &&& clients[i].name == name
    &&& forall|j: int| 0 <= j < i ==> clients[j].name != name
}

/// Whether some client is named `name`.
pub open spec fn knows(clients: Seq<ClientView>, name: Name) -> bool {
    exists|i: int| 0 <= i < clients.len() && clients[i].name == name
}

/// The place of the first client named `name`.
pub open spec fn place_of(clients: Seq<ClientView>, name: Name) -> int
    recommends
        knows(clients, name),
{
    choose|i: int| first_named(clients, name, i)
}

/// What `str::split_whitespace` makes of a line: its words, which are
/// the longest runs of characters that are not white space.
pub uninterp spec fn whitespace_words(line: Seq<char>) -> Seq<Seq<char>>;

/// Calls `str::split_whitespace` and collects the words as owned strings.
/// The result depends on the line alone; the contract gives it the name
/// `whitespace_words` and claims nothing else.
#[verifier::external_body]
fn split_at_whitespace(line: &str) -> (r: Vec<String>)
    ensures
        words_of(r@) == whitespace_words(line@),
{
    line.split_whitespace().map(String::from).collect()
}

/// What a request calls for.
#[derive(Debug)]
pub enum Demand {
    /// The client runs already, as this process.
    Running { pid: u32 },
    /// The client does not run: launch these words, then report with
    /// `launched` where that succeeded.
    Launch { argv: Vec<String> },
    /// No client has this name.
    Unknown,
}

/// A demand as the contracts see it.
pub enum DemandView {
    Running { pid: u32 },
    Launch { argv: Words },
    Unknown,
}

impl View for Demand {
    type V = DemandView;

    open spec fn view(&self) -> DemandView {
        match self {
            Demand::Running { pid } => DemandView::Running { pid: *pid },
            Demand::Launch { argv } => DemandView::Launch { argv: words_of(argv@) },
            Demand::Unknown => DemandView::Unknown,
        }
    }
}

/// The demand that a request for `name` makes of these clients.
pub open spec fn demand_of(clients: Seq<ClientView>, name: Name) -> DemandView {
    if knows(clients, name) {
        let c = clients[place_of(clients, name)];
        match c.pid {
            Some(pid) => DemandView::Running { pid },
            None => DemandView::Launch { argv: whitespace_words(c.launch_cmd) },
        }
    } else {
        DemandView::Unknown
    }
}

/// How a request was served.
#[derive(Clone, Copy, Debug, PartialEq, Eq, Structural)]
pub enum Served {
    /// The client runs, from before or from now.
    Available,
    /// The client could not be launched.
    LaunchFailed,
    /// No client has the name.
    NotFound,
}

impl Served {
    /// The status of the answer: 200 where the client is available, 500
    /// where its launch failed, 404 where it is unknown.
    pub fn status(&self) -> (code: u16)
        ensures
            code == match *self {
                Served::Available => 200u16,
                Served::LaunchFailed => 500u16,
                Served::NotFound => 404u16,
            },
    {
        match self {
            Served::Available => 200,
            Served::LaunchFailed => 500,
            Served::NotFound => 404,
        }
    }

    /// The text of the answer to a request for `name`.
    pub fn body(&self, name: &String) -> (text: String)
        ensures
            text@ == match *self {
                Served::Available => "available\n"@,
                Served::LaunchFailed => "couldn't start"@,
                Served::NotFound => "no client \""@ + name@ + "\""@,
            },
    {
        match self {
            Served::Available => String::from_str("available\n"),
            Served::LaunchFailed => String::from_str("couldn't start"),
            Served::NotFound => {
                let mut text = String::from_str("no client \"");
                text.append(name.as_str());
                text.append("\"");
                text
            },
        }
    }
}

impl Boss {
    /// Where the first client named `name` stands, if there is one.
    fn find(&self, name: &String) -> (r: Option<usize>)
        ensures
            match r {
                Some(i) => knows(self@, name@) && i == place_of(self@, name@) && i
                    < self.clients.len(),
                None => !knows(self@, name@),
            },
    {
        let mut i: usize = 0;
        while i < self.clients.len()
            invariant
                i <= self.clients.len(),
                forall|j: int| 0 <= j < i ==> self@[j].name != name@,
            decreases self.clients.len() - i,
        {
            if self.clients[i].0 == *name {
                proof {
                    assert(self@[i as int].name == name@);
                    assert(first_named(self@, name@, i as int));
                    let k = place_of(self@, name@);
                    assert(first_named(self@, name@, k));
                }
                return Some(i);
            }
            i += 1;
        }
        None
    }

    /// Decides what a request for `name` calls for: nothing where the
    /// client runs already, a launch of the words of its command line
    /// where it does not, and an unknown name where no client has it.
    pub fn request(&self, name: &String) -> (r: Demand)
        ensures
            r@ == demand_of(self@, name@),
    {
        match self.find(name) {
            Some(i) => match self.clients[i].1.pid {
                Some(pid) => Demand::Running { pid },
                None => Demand::Launch {
                    argv: split_at_whitespace(self.clients[i].1.launch_cmd.as_str()),
                },
            },
            None => Demand::Unknown,
        }
    }

    /// Notes that the client named `name` was launched as process `pid`.
    /// Says whether there is such a client; without one nothing changes.
    pub fn launched(&mut self, name: &String, pid: u32) -> (known: bool)
        ensures
            known == knows(old(self)@, name@),
            final(self).listen_addr == old(self).listen_addr,
            known ==> final(self)@ == old(self)@.update(
                place_of(old(self)@, name@),
                ClientView { pid: Some(pid), ..old(self)@[place_of(old(self)@, name@)] },
            ),
            !known ==> final(self)@ == old(self)@,
    {
        self.mark(name, Some(pid))
    }

    /// Notes that the process of the client named `name` has ended. Says
    /// whether there is such a client; without one nothing changes.
    pub fn terminated(&mut self, name: &String) -> (known: bool)
        ensures
            known == knows(old(self)@, name@),
            final(self).listen_addr == old(self).listen_addr,
            known ==> final(self)@ == old(self)@.update(
                place_of(old(self)@, name@),
                ClientView { pid: None, ..old(self)@[place_of(old(self)@, name@)] },
            ),
            !known ==> final(self)@ == old(self)@,
    {
        self.mark(name, None)
    }

    /// Sets the process of the first client named `name`.
    fn mark(&mut self, name: &String, pid: Option<u32>) -> (known: bool)
        ensures
            known == knows(old(self)@, name@),
            final(self).listen_addr == old(self).listen_addr,
            known ==> final(self)@ == old(self)@.update(
                place_of(old(self)@, name@),
                ClientView { pid, ..old(self)@[place_of(old(self)@, name@)] },
            ),
            !known ==> final(self)@ == old(self)@,
    {
        match self.find(name) {
            Some(i) => {
                let ghost before = self@;
                self.clients[i].1.pid = pid;
                assert(self@ =~= before.update(
                    i as int,
                    ClientView { pid, ..before[i as int] },
                ));
                true
            },
            None => false,
        }
    }
}

} // verus!
