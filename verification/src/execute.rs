//! The shell-execution abstraction: which interpreter runs a step, what an
//! executed step reports back, and the fail-fast rule that decides when a
//! run stops.  Spawning the child process is the caller's part; everything
//! here is the description and the decision.

use vstd::prelude::*;

verus! {

/// How one step's child process ended: with a numeric exit code, or
/// abnormally with no code reported (e.g. killed by a signal).
#[derive(Clone, Copy, Debug, PartialEq, Eq, Structural)]
pub enum ExitKind {
    Code(i32),
    Abnormal,
}

/// What one executed step produced: the captured output bytes of both
/// streams and the exit status.
#[derive(Debug)]
pub struct ExecutionResult {
    pub stdout: Vec<u8>,
    pub stderr: Vec<u8>,
    pub status: ExitKind,
}

/// The process exit code that a step's status forces: `None` to continue
/// the run, `Some(code)` to stop the whole run with `code`.  A zero exit
/// code continues; a non-zero code stops with that code; an abnormal end
/// stops with the sentinel code 3.
pub open spec fn verdict_of(status: ExitKind) -> Option<i32> {
    match status {
        ExitKind::Code(c) => if c == 0 {
            None
        } else {
            Some(c)
        },
        ExitKind::Abnormal => Some(3),
    }
}

/// Decides whether the run continues after a step with this status.
pub fn step_verdict(status: &ExitKind) -> (r: Option<i32>)
    ensures
        r == verdict_of(*status),
{
    match status {
        ExitKind::Code(c) => if *c == 0 {
            None
        } else {
            Some(*c)
        },
        ExitKind::Abnormal => Some(3),
    }
}

/// How many steps of a run start, given the statuses its steps would
/// report in order: every step up to and including the first whose verdict
/// stops the run.
pub open spec fn steps_run(statuses: Seq<ExitKind>) -> int
    decreases statuses.len(),
{
    if statuses.len() == 0 {
        0
    } else if verdict_of(statuses[0]) is Some {
        1
    } else {
        1 + steps_run(statuses.skip(1))
    }
}

/// The exit code of a run: that of the first stopping step, or `None` when
/// every step continues.
pub open spec fn exit_of(statuses: Seq<ExitKind>) -> Option<i32>
    decreases statuses.len(),
{
    if statuses.len() == 0 {
        None
    } else if verdict_of(statuses[0]) is Some {
        verdict_of(statuses[0])
    } else {
        exit_of(statuses.skip(1))
    }
}

/// A run whose first `i` statuses all continue is the run of the rest,
/// `i` steps later.
pub proof fn lemma_run_prefix_continues(statuses: Seq<ExitKind>, i: int)
    requires
        0 <= i <= statuses.len(),
        forall|j: int| 0 <= j < i ==> verdict_of(#[trigger] statuses[j]) is None,
    ensures
        steps_run(statuses) == i + steps_run(statuses.skip(i)),
        exit_of(statuses) == exit_of(statuses.skip(i)),
    decreases i,
{
    if i == 0 {
        assert(statuses.skip(0) =~= statuses);
    } else {
        assert(verdict_of(statuses[0]) is None);
        lemma_run_prefix_continues(statuses.skip(1), i - 1);
        assert(statuses.skip(1).skip(i - 1) =~= statuses.skip(i));
        assert(forall|j: int|
            0 <= j < i - 1 ==> statuses.skip(1)[j] == #[trigger] statuses[j + 1]);
    }
}

/// Replays the fail-fast rule over the statuses that a run's steps would
/// report, in order: how many steps start, and with which code the run
/// stops, if it does.
pub fn run_outcome(statuses: &Vec<ExitKind>) -> (r: (usize, Option<i32>))
    ensures
        r.0 == steps_run(statuses@),
        r.1 == exit_of(statuses@),
{
    let n = statuses.len();
    let mut i: usize = 0;
    while i < n
        invariant
            i <= n,
            n == statuses@.len(),
            forall|j: int| 0 <= j < i ==> verdict_of(#[trigger] statuses@[j]) is None,
        decreases n - i,
    {
        match step_verdict(&statuses[i]) {
            Some(code) => {
                proof {
                    lemma_run_prefix_continues(statuses@, i as int);
                    assert(statuses@.skip(i as int)[0] == statuses@[i as int]);
                }
                return (i + 1, Some(code));
            },
            None => {
                i = i + 1;
            },
        }
    }
    proof {
        lemma_run_prefix_continues(statuses@, n as int);
        assert(statuses@.skip(n as int) =~= Seq::<ExitKind>::empty());
    }
    (n, None)
}

/// Law: a step that exits with a non-zero code, after steps that all
/// exited zero, stops the run at once — the steps after it never start,
/// and the run's exit code is that step's code.
pub proof fn lemma_fail_fast(statuses: Seq<ExitKind>, k: int, c: i32)
    requires
        0 <= k < statuses.len(),
        statuses[k] == ExitKind::Code(c),
        c != 0,
        forall|j: int| 0 <= j < k ==> #[trigger] statuses[j] == ExitKind::Code(0),
    ensures
        steps_run(statuses) == k + 1,
        exit_of(statuses) == Some(c),
{
    lemma_run_prefix_continues(statuses, k);
    assert(statuses.skip(k)[0] == statuses[k]);
}

/// The directory a shell runs in: the override, or `.` for the current
/// one.
pub open spec fn cwd_text(cwd: Option<Seq<char>>) -> Seq<char> {
    match cwd {
        Some(c) => c,
        None => "."@,
    }
}

/// How to invoke one shell interpreter: an executable name, the fixed
/// convention of one flag that reads the command text from the next
/// argument, and an optional working-directory override fixed at
/// construction.  Spawning the process is the caller's part.
pub trait Shell: Sized {
    /// The interpreter's executable name.
    spec fn path_spec(&self) -> Seq<char>;

    /// The working-directory override, if one was given.
    spec fn cwd_spec(&self) -> Option<Seq<char>>;

    /// An interpreter handle with the given working-directory override.
    fn new(cwd: Option<String>) -> (s: Self)
        ensures
            s.cwd_spec() == cwd.deep_view(),
    ;

    /// The interpreter's executable name.
    fn get_path(&self) -> (r: String)
        ensures
            r@ == self.path_spec(),
    ;

    /// The directory to run in: the override, or `.` for the current one.
    fn get_cwd(&self) -> (r: String)
        ensures
            r@ == cwd_text(self.cwd_spec()),
    ;

    /// The executable to spawn.
    fn command(&self) -> (r: String)
        ensures
            r@ == self.path_spec(),
    ;

    /// The arguments that precede the command text.
    fn exec_params(&self) -> (r: Vec<String>)
        ensures
            r.deep_view() == seq!["-c"@],
    ;
}

/// The Bourne-again shell interpreter.
#[derive(Debug)]
pub struct Bash {
    cwd: Option<String>,
}

impl Clone for Bash {
    /// A copy with the same working-directory override.
    fn clone(&self) -> (r: Self)
        ensures
            r.cwd_spec() == self.cwd_spec(),
    {
        Bash {
            cwd: match &self.cwd {
                Some(c) => Some(c.clone()),
                None => None,
            },
        }
    }
}

impl Shell for Bash {
    open spec fn path_spec(&self) -> Seq<char> {
        "bash"@
    }

    closed spec fn cwd_spec(&self) -> Option<Seq<char>> {
        self.cwd.deep_view()
    }

    fn new(cwd: Option<String>) -> (s: Bash) {
        Bash { cwd }
    }

    fn get_path(&self) -> (r: String) {
        "bash".to_owned()
    }

    fn get_cwd(&self) -> (r: String) {
        match &self.cwd {
            Some(cwd) => cwd.clone(),
            None => ".".to_owned(),
        }
    }

    fn command(&self) -> (r: String) {
        "bash".to_owned()
    }

    fn exec_params(&self) -> (r: Vec<String>) {
        let mut r: Vec<String> = Vec::new();
        r.push("-c".to_owned());
        proof {
            assert(r.deep_view() =~= seq!["-c"@]);
        }
        r
    }
}

/// The plain POSIX shell interpreter.
#[derive(Debug)]
pub struct Sh {
    cwd: Option<String>,
}

impl Clone for Sh {
    /// A copy with the same working-directory override.
    fn clone(&self) -> (r: Self)
        ensures
            r.cwd_spec() == self.cwd_spec(),
    {
        Sh {
            cwd: match &self.cwd {
                Some(c) => Some(c.clone()),
                None => None,
            },
        }
    }
}

impl Shell for Sh {
    open spec fn path_spec(&self) -> Seq<char> {
        "sh"@
    }

    closed spec fn cwd_spec(&self) -> Option<Seq<char>> {
        self.cwd.deep_view()
    }

    fn new(cwd: Option<String>) -> (s: Sh) {
        Sh { cwd }
    }

    fn get_path(&self) -> (r: String) {
        "sh".to_owned()
    }

    fn get_cwd(&self) -> (r: String) {
        match &self.cwd {
            Some(cwd) => cwd.clone(),
            None => ".".to_owned(),
        }
    }

    fn command(&self) -> (r: String) {
        "sh".to_owned()
    }

    fn exec_params(&self) -> (r: Vec<String>) {
        let mut r: Vec<String> = Vec::new();
        r.push("-c".to_owned());
        proof {
            assert(r.deep_view() =~= seq!["-c"@]);
        }
        r
    }
}

} // verus!
