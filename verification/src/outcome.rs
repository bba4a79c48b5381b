//! How a supervised process ended, and the line that reports it.

use vstd::prelude::*;
use vstd::string::StringExecFns;

verus! {

/// How a supervised process ended, as the operating system reports it.
#[derive(Clone, Copy, Debug, PartialEq, Eq, Structural)]
pub enum ExitOutcome {
    /// A normal exit with the given status.
    ExitedWithCode(i32),
    /// Death by a signal that the process did not catch.
    TerminatedBySignal,
}

/// What a finished process hands back: its name, the second at which it
/// was started, and how it ended.
#[derive(Debug)]
pub struct CompletedCmd {
    pub name: String,
    pub started_at: u64,
    pub outcome: ExitOutcome,
}

/// Classifies what the operating system reports of a finished process:
/// an exit status where there is one, death by signal where there is none.
pub fn classify(code: Option<i32>) -> (r: ExitOutcome)
    ensures
        r == match code {
            Some(c) => ExitOutcome::ExitedWithCode(c),
            None => ExitOutcome::TerminatedBySignal,
        },
{
    match code {
        Some(c) => ExitOutcome::ExitedWithCode(c),
        None => ExitOutcome::TerminatedBySignal,
    }
}

/// The character of one decimal digit.
pub open spec fn digit_char(d: nat) -> char {
    if d == 0 {
        '0'
    } else if d == 1 {
        '1'
    } else if d == 2 {
        '2'
    } else if d == 3 {
        '3'
    } else if d == 4 {
        '4'
    } else if d == 5 {
        '5'
    } else if d == 6 {
        '6'
    } else if d == 7 {
        '7'
    } else if d == 8 {
        '8'
    } else {
        '9'
    }
}

/// A natural number in decimal, without leading zeros.
pub open spec fn decimal(n: nat) -> Seq<char>
    decreases n,
{
    if n < 10 {
        seq![digit_char(n)]
    } else {
        decimal(n / 10).push(digit_char(n % 10))
    }
}

/// An integer in decimal, with a minus sign where it is negative.
pub open spec fn signed_decimal(n: int) -> Seq<char> {
    if n < 0 {
        seq!['-'] + decimal((-n) as nat)
    } else {
        decimal(n as nat)
    }
}

/// The text that names an outcome.
pub open spec fn outcome_text(outcome: ExitOutcome) -> Seq<char> {
    match outcome {
        ExitOutcome::ExitedWithCode(c) => "exited with status "@ + signed_decimal(c as int),
        ExitOutcome::TerminatedBySignal => "terminated by signal"@,
    }
}

/// The line that reports the end of a process: its name, how it ended,
/// and for how many seconds it ran.
pub open spec fn completion_text(name: Seq<char>, outcome: ExitOutcome, seconds: u64) -> Seq<char> {
    name + ": "@ + outcome_text(outcome) + ", after "@ + decimal(seconds as nat) + " sec."@
}

fn digit_str(d: u64) -> (r: &'static str)
    requires
        d < 10,
    ensures
        r@ == seq![digit_char(d as nat)],
{
    proof {
        reveal_strlit("0");
        reveal_strlit("1");
        reveal_strlit("2");
        reveal_strlit("3");
        reveal_strlit("4");
        reveal_strlit("5");
        reveal_strlit("6");
        reveal_strlit("7");
        reveal_strlit("8");
        reveal_strlit("9");
    }
    let r = if d == 0 {
        "0"
    } else if d == 1 {
        "1"
    } else if d == 2 {
        "2"
    } else if d == 3 {
        "3"
    } else if d == 4 {
        "4"
    } else if d == 5 {
        "5"
    } else if d == 6 {
        "6"
    } else if d == 7 {
        "7"
    } else if d == 8 {
        "8"
    } else {
        "9"
    };
    assert(r@ =~= seq![digit_char(d as nat)]);
    r
}

/// Writes a number in decimal.
pub fn decimal_string(n: u64) -> (r: String)
    ensures
        r@ == decimal(n as nat),
    decreases n,
{
    if n < 10 {
        String::from_str(digit_str(n))
    } else {
        let mut r = decimal_string(n / 10);
        r.append(digit_str(n % 10));
        assert(r@ =~= decimal((n / 10) as nat).push(digit_char((n % 10) as nat)));
        r
    }
}

/// Writes an exit status in decimal.
pub fn status_string(code: i32) -> (r: String)
    ensures
        r@ == signed_decimal(code as int),
{
    if code < 0 {
        let wide: i64 = code as i64;
        let size: u64 = (0 - wide) as u64;
        let minus = "-";
        proof {
            reveal_strlit("-");
        }
        let mut r = String::from_str(minus);
        let digits = decimal_string(size);
        r.append(digits.as_str());
        assert(r@ =~= seq!['-'] + decimal((-(code as int)) as nat));
        r
    } else {
        decimal_string(code as u64)
    }
}

/// Writes the line that reports the end of a process.
pub fn completion_line(name: &String, outcome: ExitOutcome, seconds: u64) -> (r: String)
    ensures
        r@ == completion_text(name@, outcome, seconds),
{
    let mut r = name.clone();
    r.append(": ");
    match outcome {
        ExitOutcome::ExitedWithCode(c) => {
            r.append("exited with status ");
            let status = status_string(c);
            r.append(status.as_str());
            assert(r@ =~= name@ + ": "@ + outcome_text(outcome));
        },
        ExitOutcome::TerminatedBySignal => {
            r.append("terminated by signal");
        },
    }
    r.append(", after ");
    let digits = decimal_string(seconds);
    r.append(digits.as_str());
    r.append(" sec.");
    r
}

impl CompletedCmd {
    /// The whole seconds that the process ran, seen at second `now`; zero
    /// where the clock went back.
    pub fn elapsed(&self, now: u64) -> (r: u64)
        ensures
            r == if now >= self.started_at {
                now - self.started_at
            } else {
                0
            },
    {
        if now >= self.started_at {
            now - self.started_at
        } else {
            0
        }
    }

    /// The line that reports this end, seen at second `now`.
    pub fn report(&self, now: u64) -> (r: String)
        ensures
            r@ == completion_text(
                self.name@,
                self.outcome,
                if now >= self.started_at {
                    (now - self.started_at) as u64
                } else {
                    0
                },
            ),
    {
        completion_line(&self.name, self.outcome, self.elapsed(now))
    }
}

} // verus!
