//! Starting the daemon from the desktop app: whether to start it at all,
//! when to look at the started process and its socket again, and when to
//! give up. The platform performs each action and reports what it found.

use vstd::prelude::*;
use crate::config::{is_white, is_white_space};
use crate::primitives::char_text;
use crate::text::concat;

verus! {

/// How many times the started daemon is looked at before giving up.
pub const POLL_ATTEMPTS: u32 = 20;

/// Where starting the daemon stands.
#[derive(Clone, Copy, PartialEq, Eq, Debug, Structural)]
pub enum LaunchState {
    /// Nothing done yet but asking whether a daemon already runs.
    Start,
    /// Getting the data directory ready and starting the process.
    Preparing,
    /// Waiting before looking at the process, for the given attempt.
    Waiting { attempt: u32 },
    /// The process runs; trying its socket, for the given attempt.
    Probing { attempt: u32 },
    /// Done.
    Finished,
}

/// What the platform found about the started process.
pub enum ChildStatus {
    Running,
    Exited { status: String, stderr: String },
    CheckFailed(String),
}

/// What the platform reports after performing an action.
pub enum LaunchEvent {
    DaemonProbed { running: bool },
    Prepared(Result<(), String>),
    ChildChecked(ChildStatus),
    SocketProbed { ready: bool },
}

/// What the platform is asked to do next.
pub enum LaunchAction {
    ProbeDaemon,
    Prepare,
    SleepThenCheckChild,
    ProbeSocket,
    Finish(Result<(), String>),
    Idle,
}

/// Every character of `s` is white space.
pub open spec fn blank(s: Seq<char>) -> bool {
    forall|k: int| 0 <= k < s.len() ==> is_white_space(#[trigger] s[k])
}

/// In `s`, `p` is the last character that is not white space, the line
/// holding it runs from `a` to the line break at `b` (or the end), and `e`
/// is `b`, less a carriage return just before a line break.
pub open spec fn line_bounds(s: Seq<char>, p: int, a: int, b: int, e: int) -> bool {
    &&& 0 <= a <= p < b <= s.len()
    &&& !is_white_space(s[p])
    &&& forall|k: int| p < k < s.len() ==> is_white_space(#[trigger] s[k])
    &&& (a == 0 || s[a - 1] == '\n')
    &&& forall|k: int| a <= k < p ==> #[trigger] s[k] != '\n'
    &&& (b == s.len() || s[b] == '\n')
    &&& forall|k: int| p <= k < b ==> #[trigger] s[k] != '\n'
    &&& e == if b < s.len() && s[b - 1] == '\r' {
        b - 1
    } else {
        b
    }
}

/// The last line of `s` that is not blank, as `str::lines` splits it.
pub open spec fn last_text_line(s: Seq<char>) -> Seq<char> {
    let (p, a, b, e) = choose|p: int, a: int, b: int, e: int| line_bounds(s, p, a, b, e);
    s.subrange(a, e)
}

/// The error shown when the daemon exits while starting: its exit status,
/// and the last line it wrote to its error output that is not blank.
pub open spec fn exit_message(status: Seq<char>, stderr: Seq<char>) -> Seq<char> {
    if blank(stderr) {
        "murmurd exited with "@ + status
    } else {
        "murmurd exited with "@ + status + ": "@ + last_text_line(stderr)
    }
}

proof fn lemma_line_bounds_unique(s: Seq<char>, p: int, a: int, b: int, e: int, p2: int, a2: int, b2: int, e2: int)
    requires
        line_bounds(s, p, a, b, e),
        line_bounds(s, p2, a2, b2, e2),
    ensures
        a == a2 && e == e2,
{
    if p < p2 {
        assert(is_white_space(s[p2]));
    }
    if p2 < p {
        assert(is_white_space(s[p]));
    }
    assert(p == p2);
    if a < a2 {
        assert(s[a2 - 1] != '\n');
    }
    if a2 < a {
        assert(s[a - 1] != '\n');
    }
    if b < b2 {
        assert(s[b] != '\n');
    }
    if b2 < b {
        assert(s[b2] != '\n');
    }
}

/// The characters `a..e` of `s`.
fn chars_between(s: &str, a: usize, e: usize) -> (res: String)
    requires
        a <= e <= s@.len(),
    ensures
        res@ == s@.subrange(a as int, e as int),
{
    let mut out = String::new();
    let mut k = a;
    while k < e
        invariant
            a <= k <= e,
            e <= s@.len(),
            out@ == s@.subrange(a as int, k as int),
        decreases e - k,
    {
        let c = char_text(s.get_char(k));
        out = concat(out.as_str(), c.as_str());
        k = k + 1;
        assert(out@ =~= s@.subrange(a as int, k as int));
    }
    out
}

/// Whether every character of `s` is white space.
fn is_blank(s: &str) -> (res: bool)
    ensures
        res == blank(s@),
{
    let n = s.unicode_len();
    let mut k: usize = 0;
    while k < n
        invariant
            n == s@.len(),
            k <= n,
            forall|j: int| 0 <= j < k ==> is_white_space(#[trigger] s@[j]),
        decreases n - k,
    {
        if !is_white(s.get_char(k)) {
            return false;
        }
        k = k + 1;
    }
    true
}

/// The last line of `s` that is not blank; `s` must not be blank.
fn last_line(s: &str) -> (res: String)
    requires
        !blank(s@),
    ensures
        res@ == last_text_line(s@),
{
    let ghost t = s@;
    let n = s.unicode_len();
    let mut p = n;
    while p > 0 && is_white(s.get_char(p - 1))
        invariant
            t == s@,
            n == t.len(),
            p <= n,
            !blank(t),
            forall|k: int| p <= k < n ==> is_white_space(#[trigger] t[k]),
        decreases p,
    {
        p = p - 1;
    }
    if p == 0 {
        assert(false);
    }
    let p = p - 1;
    let mut a = p;
    while a > 0 && s.get_char(a - 1) != '\n'
        invariant
            t == s@,
            n == t.len(),
            a <= p < n,
            forall|k: int| a <= k < p ==> #[trigger] t[k] != '\n',
            t[p as int] != '\n',
        decreases a,
    {
        a = a - 1;
    }
    let mut b = p;
    while b < n && s.get_char(b) != '\n'
        invariant
            t == s@,
            n == t.len(),
            p <= b <= n,
            forall|k: int| p <= k < b ==> #[trigger] t[k] != '\n',
        decreases n - b,
    {
        b = b + 1;
    }
    assert(b > p) by {
        assert(!is_white_space(t[p as int]));
    }
    let e = if b < n && s.get_char(b - 1) == '\r' {
        b - 1
    } else {
        b
    };
    proof {
        assert(line_bounds(t, p as int, a as int, b as int, e as int));
        let (p2, a2, b2, e2) = choose|p2: int, a2: int, b2: int, e2: int| line_bounds(t, p2, a2, b2, e2);
        lemma_line_bounds_unique(t, p as int, a as int, b as int, e as int, p2, a2, b2, e2);
    }
    chars_between(s, a, e)
}

/// The error text for a daemon that exited while starting.
pub fn exit_text(status: &str, stderr: &str) -> (res: String)
    ensures
        res@ == exit_message(status@, stderr@),
{
    let head = concat("murmurd exited with ", status);
    if is_blank(stderr) {
        head
    } else {
        let line = last_line(stderr);
        let with_colon = concat(head.as_str(), ": ");
        concat(with_colon.as_str(), line.as_str())
    }
}

/// The step taken from `state` on `event`: the next state and action.
/// Events that do not belong to the state leave it as it is.
pub open spec fn launch_next(state: LaunchState, event: LaunchEvent, next: LaunchState, action: LaunchAction) -> bool {
    match (state, event) {
        (LaunchState::Start, LaunchEvent::DaemonProbed { running }) => if running {
            next == LaunchState::Finished && action matches LaunchAction::Finish(Ok(()))
        } else {
            next == LaunchState::Preparing && action is Prepare
        },
        (LaunchState::Preparing, LaunchEvent::Prepared(r)) => match r {
            Ok(()) => next == (LaunchState::Waiting { attempt: 0 }) && action is SleepThenCheckChild,
            Err(m) => {
                &&& next == LaunchState::Finished
                &&& action matches LaunchAction::Finish(Err(x))
                &&& x@ == m@
            },
        },
        (LaunchState::Waiting { attempt }, LaunchEvent::ChildChecked(c)) => match c {
            ChildStatus::Running => next == (LaunchState::Probing { attempt }) && action is ProbeSocket,
            ChildStatus::Exited { status, stderr } => {
                &&& next == LaunchState::Finished
                &&& action matches LaunchAction::Finish(Err(x))
                &&& x@ == exit_message(status@, stderr@)
            },
            ChildStatus::CheckFailed(m) => {
                &&& next == LaunchState::Finished
                &&& action matches LaunchAction::Finish(Err(x))
                &&& x@ == "check murmurd process: "@ + m@
            },
        },
        (LaunchState::Probing { attempt }, LaunchEvent::SocketProbed { ready }) => if ready {
            next == LaunchState::Finished && action matches LaunchAction::Finish(Ok(()))
        } else if attempt + 1 < POLL_ATTEMPTS {
            next == (LaunchState::Waiting { attempt: (attempt + 1) as u32 }) && action is SleepThenCheckChild
        } else {
            &&& next == LaunchState::Finished
            &&& action matches LaunchAction::Finish(Err(x))
            &&& x@ == "murmurd did not become ready in 10 seconds — check logs"@
        },
        _ => next == state && action is Idle,
    }
}

/// Decides the next state and action of starting the daemon: a running
/// daemon is used as it is; otherwise, once the process is started, it is
/// looked at every half second, up to [`POLL_ATTEMPTS`] times, and starting
/// ends when its socket answers, when it exits (with its last line of
/// error output) or when the attempts run out.
pub fn launch_step(state: LaunchState, event: LaunchEvent) -> (res: (LaunchState, LaunchAction))
    ensures
        launch_next(state, event, res.0, res.1),
{
    match (state, event) {
        (LaunchState::Start, LaunchEvent::DaemonProbed { running }) => if running {
            (LaunchState::Finished, LaunchAction::Finish(Ok(())))
        } else {
            (LaunchState::Preparing, LaunchAction::Prepare)
        },
        (LaunchState::Preparing, LaunchEvent::Prepared(r)) => match r {
            Ok(()) => (LaunchState::Waiting { attempt: 0 }, LaunchAction::SleepThenCheckChild),
            Err(m) => (LaunchState::Finished, LaunchAction::Finish(Err(m))),
        },
        (LaunchState::Waiting { attempt }, LaunchEvent::ChildChecked(c)) => match c {
            ChildStatus::Running => (LaunchState::Probing { attempt }, LaunchAction::ProbeSocket),
            ChildStatus::Exited { status, stderr } => {
                let msg = exit_text(status.as_str(), stderr.as_str());
                (LaunchState::Finished, LaunchAction::Finish(Err(msg)))
            },
            ChildStatus::CheckFailed(m) => {
                let msg = concat("check murmurd process: ", m.as_str());
                (LaunchState::Finished, LaunchAction::Finish(Err(msg)))
            },
        },
        (LaunchState::Probing { attempt }, LaunchEvent::SocketProbed { ready }) => if ready {
            (LaunchState::Finished, LaunchAction::Finish(Ok(())))
        } else if attempt < POLL_ATTEMPTS - 1 {
            (LaunchState::Waiting { attempt: attempt + 1 }, LaunchAction::SleepThenCheckChild)
        } else {
            let msg = String::from_str("murmurd did not become ready in 10 seconds — check logs");
            (LaunchState::Finished, LaunchAction::Finish(Err(msg)))
        },
        (s, _) => (s, LaunchAction::Idle),
    }
}

/// Starting succeeds only when a daemon already answered or the started
/// one's socket did; the number of the attempt never reaches
/// [`POLL_ATTEMPTS`], and each wait after a silent socket is for the next
/// attempt; once finished, nothing more happens.
pub proof fn lemma_launch_progress(state: LaunchState, event: LaunchEvent, next: LaunchState, action: LaunchAction)
    requires
        launch_next(state, event, next, action),
        state matches LaunchState::Waiting { attempt } ==> attempt < POLL_ATTEMPTS,
        state matches LaunchState::Probing { attempt } ==> attempt < POLL_ATTEMPTS,
    ensures
        action matches LaunchAction::Finish(Ok(())) ==> (event matches LaunchEvent::DaemonProbed { running: true }
            || event matches LaunchEvent::SocketProbed { ready: true }),
        next matches LaunchState::Waiting { attempt } ==> attempt < POLL_ATTEMPTS,
        next matches LaunchState::Probing { attempt } ==> attempt < POLL_ATTEMPTS,
        state matches LaunchState::Probing { attempt: a } ==> (next matches LaunchState::Waiting { attempt: b }
            ==> b == a + 1),
        (action is Finish) <==> (next == LaunchState::Finished && state != LaunchState::Finished),
        state == LaunchState::Finished ==> next == LaunchState::Finished && action is Idle,
{
}

} // verus!
