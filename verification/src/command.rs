//! Command lines: the words that start one supervised process, and how a
//! shell-quoted line becomes those words.

use vstd::prelude::*;

verus! {

/// The words held by a list of strings, each word as its characters.
pub open spec fn words_of(v: Seq<String>) -> Seq<Seq<char>> {
    v.map_values(|s: String| s@)
}

/// The executable path and the arguments of one supervised process.
///
/// `argv[0]` is the executable, the rest are its arguments. A value is
/// never changed after it is made; an update replaces it as a whole.
#[derive(Debug)]
pub struct CmdSpec {
    pub argv: Vec<String>,
}

impl View for CmdSpec {
    type V = Seq<Seq<char>>;

    open spec fn view(&self) -> Seq<Seq<char>> {
        words_of(self.argv@)
    }
}

impl Clone for CmdSpec {
    fn clone(&self) -> (r: Self)
        ensures
            r@ == self@,
    {
        let mut argv: Vec<String> = Vec::new();
        let mut i: usize = 0;
        while i < self.argv.len()
            invariant
                i <= self.argv.len(),
                argv.len() == i,
                forall|j: int| 0 <= j < i ==> argv[j]@ == self.argv[j]@,
            decreases self.argv.len() - i,
        {
            argv.push(self.argv[i].clone());
            i += 1;
        }
        let r = CmdSpec { argv };
        assert(r@ =~= self@);
        r
    }
}

impl CmdSpec {
    /// Whether two command lines have the same words in the same order.
    pub fn same_argv(&self, other: &CmdSpec) -> (r: bool)
        ensures
            r == (self@ == other@),
    {
        if self.argv.len() != other.argv.len() {
            assert(self@.len() != other@.len());
            return false;
        }
        let mut i: usize = 0;
        while i < self.argv.len()
            invariant
                i <= self.argv.len(),
                self.argv.len() == other.argv.len(),
                forall|j: int| 0 <= j < i ==> self.argv[j]@ == other.argv[j]@,
            decreases self.argv.len() - i,
        {
            if self.argv[i] != other.argv[i] {
                assert(self@[i as int] != other@[i as int]);
                return false;
            }
            i += 1;
        }
        assert(self@ =~= other@);
        true
    }

    /// Whether there is an executable to start: the line has at least one word.
    pub fn is_launchable(&self) -> (r: bool)
        ensures
            r == (self@.len() > 0),
    {
        self.argv.len() > 0
    }
}

/// The error of `shellwords::split`: a quote in the line is never closed.
#[verifier::external_type_specification]
#[verifier::external_body]
pub struct ExMismatchedQuotes(shellwords::MismatchedQuotes);

/// What `shellwords::split` makes of a line: its words as the Bourne shell
/// would split them, or `None` where a quote is left open.
pub uninterp spec fn shell_words(line: Seq<char>) -> Option<Seq<Seq<char>>>;

/// Calls `shellwords::split`. The result depends on the line alone; the
/// contract gives it the name `shell_words` and claims nothing else.
#[verifier::external_body]
fn split_words(line: &str) -> (r: Result<Vec<String>, shellwords::MismatchedQuotes>)
    ensures
        match r {
            Ok(v) => shell_words(line@) == Some(words_of(v@)),
            Err(_) => shell_words(line@) is None,
        },
{
    shellwords::split(line)
}

/// Reads one shell-quoted command line.
///
/// Gives the command whose words are those of the line, or `None` exactly
/// when the line has mismatched quotes.
pub fn parse_command(line: &str) -> (r: Option<CmdSpec>)
    ensures
        match r {
            Some(c) => shell_words(line@) == Some(c@),
            None => shell_words(line@) is None,
        },
{
    match split_words(line) {
        Ok(argv) => Some(CmdSpec { argv }),
        Err(_) => None,
    }
}

} // verus!
