//! How a traced command is waited for.
//!
//! The daemon learns of the command over a socket of its own, and records its
//! writes with a delay. So the graph is asked for the command a number of
//! times while it runs, and once more after it has exited and its writes have
//! had the time to settle.
use crate::number::{i64_text, int_text};
use crate::text::opt_text;
use vstd::prelude::*;

verus! {

/// How often the graph is asked for a command that has just been started.
pub const TRIES: u32 = 40;

/// How long to wait between two questions, in milliseconds.
pub const PAUSE_MS: u64 = 25;

/// How long writes take to be recorded, in milliseconds.
pub const SETTLE_MS: u64 = 600;

/// How far a trace has come.
#[derive(Debug, Clone, Copy, PartialEq, Eq, Structural)]
pub enum Phase {
    /// The graph is asked, after so many questions without an answer.
    Looking { asked: u32 },
    /// A pause, after so many questions without an answer.
    Pausing { asked: u32 },
    /// The command runs.
    Running,
    /// The command has exited; its writes settle.
    Settling,
    /// The graph is asked for the last time.
    LastLook,
    /// There is nothing more to wait for.
    Done,
}

/// The state of a trace, with the start of the command once it is known.
#[derive(Debug)]
pub struct Trace {
    pub phase: Phase,
    pub start: Option<String>,
}

/// The plain values of a [`Trace`].
#[verifier::ext_equal]
pub struct TraceModel {
    pub phase: Phase,
    pub start: Option<Seq<char>>,
}

impl View for Trace {
    type V = TraceModel;

    open spec fn view(&self) -> TraceModel {
        TraceModel { phase: self.phase, start: opt_text(self.start) }
    }
}

/// What has happened.
#[derive(Debug)]
pub enum News {
    /// The graph has answered, with the start of the command if it knows it.
    Answer(Option<String>),
    /// The wait is over.
    Slept,
    /// The command has exited.
    Exited,
}

/// The plain values of [`News`].
#[verifier::ext_equal]
pub enum NewsModel {
    Answer(Option<Seq<char>>),
    Slept,
    Exited,
}

impl View for News {
    type V = NewsModel;

    open spec fn view(&self) -> NewsModel {
        match *self {
            News::Answer(start) => NewsModel::Answer(opt_text(start)),
            News::Slept => NewsModel::Slept,
            News::Exited => NewsModel::Exited,
        }
    }
}

/// What to do next.
#[derive(Debug, Clone, Copy, PartialEq, Eq, Structural)]
pub enum Action {
    /// Ask the graph for the command.
    Ask,
    /// Wait for so many milliseconds.
    Sleep(u64),
    /// Wait for the command to exit.
    AwaitExit,
    /// Report what is known.
    Report,
}

/// What to do in a phase.
pub open spec fn action_in(phase: Phase) -> Action {
    match phase {
        Phase::Looking { .. } => Action::Ask,
        Phase::Pausing { .. } => Action::Sleep(PAUSE_MS),
        Phase::Running => Action::AwaitExit,
        Phase::Settling => Action::Sleep(SETTLE_MS),
        Phase::LastLook => Action::Ask,
        Phase::Done => Action::Report,
    }
}

/// The state after some news. News that no action asked for changes nothing.
pub open spec fn after(t: TraceModel, news: NewsModel) -> TraceModel {
    match (t.phase, news) {
        (Phase::Looking { asked }, NewsModel::Answer(start)) => if start is Some {
            TraceModel { phase: Phase::Running, start }
        } else {
            TraceModel { phase: Phase::Pausing { asked: (asked + 1) as u32 }, ..t }
        },
        (Phase::Pausing { asked }, NewsModel::Slept) => if asked < TRIES {
            TraceModel { phase: Phase::Looking { asked }, ..t }
        } else {
            TraceModel { phase: Phase::Running, ..t }
        },
        (Phase::Running, NewsModel::Exited) => TraceModel { phase: Phase::Settling, ..t },
        (Phase::Settling, NewsModel::Slept) => TraceModel {
            phase: if t.start is Some {
                Phase::Done
            } else {
                Phase::LastLook
            },
            ..t
        },
        (Phase::LastLook, NewsModel::Answer(start)) => TraceModel { phase: Phase::Done, start },
        _ => t,
    }
}

/// Has the graph been asked no more often than it may be, and without success
/// where it is still asked?
pub open spec fn is_valid(t: TraceModel) -> bool {
    match t.phase {
        Phase::Looking { asked } => asked < TRIES && t.start is None,
        Phase::Pausing { asked } => asked <= TRIES && t.start is None,
        Phase::LastLook => t.start is None,
        _ => true,
    }
}

impl Trace {
    /// A command that has just been started.
    pub fn new() -> (t: Self)
        ensures
            t@ == (TraceModel { phase: Phase::Looking { asked: 0 }, start: None }),
            is_valid(t@),
    {
        Trace { phase: Phase::Looking { asked: 0 }, start: None }
    }

    /// What to do next.
    pub fn action(&self) -> (r: Action)
        ensures
            r == action_in(self@.phase),
    {
        match self.phase {
            Phase::Looking { .. } => Action::Ask,
            Phase::Pausing { .. } => Action::Sleep(PAUSE_MS),
            Phase::Running => Action::AwaitExit,
            Phase::Settling => Action::Sleep(SETTLE_MS),
            Phase::LastLook => Action::Ask,
            Phase::Done => Action::Report,
        }
    }

    /// Takes in what has happened.
    pub fn hear(&mut self, news: News)
        requires
            is_valid(old(self)@),
        ensures
            is_valid(final(self)@),
            final(self)@ == after(old(self)@, news@),
    {
        match (self.phase, news) {
            (Phase::Looking { asked }, News::Answer(start)) => {
                if start.is_some() {
                    self.phase = Phase::Running;
                    self.start = start;
                } else {
                    self.phase = Phase::Pausing { asked: asked + 1 };
                }
            },
            (Phase::Pausing { asked }, News::Slept) => {
                if asked < TRIES {
                    self.phase = Phase::Looking { asked };
                } else {
                    self.phase = Phase::Running;
                }
            },
            (Phase::Running, News::Exited) => {
                self.phase = Phase::Settling;
            },
            (Phase::Settling, News::Slept) => {
                if self.start.is_some() {
                    self.phase = Phase::Done;
                } else {
                    self.phase = Phase::LastLook;
                }
            },
            (Phase::LastLook, News::Answer(start)) => {
                self.phase = Phase::Done;
                self.start = start;
            },
            _ => {},
        }
    }
}

/// How a command's exit is shown: by its code, or as a signal where it has
/// none.
pub open spec fn exit_shown(code: Option<i32>) -> Seq<char> {
    match code {
        Some(c) => int_text(c as int),
        None => "signal"@,
    }
}

/// How a command's exit is shown.
pub fn exit_text(code: Option<i32>) -> (r: String)
    ensures
        r@ == exit_shown(code),
{
    match code {
        Some(c) => i64_text(c as i64),
        None => "signal".to_string(),
    }
}

// ---------------------------------------------------------------------
// Laws
// ---------------------------------------------------------------------
/// How many pieces of news a phase is at most away from the end.
pub open spec fn left(phase: Phase) -> int {
    match phase {
        Phase::Looking { asked } => 2 * (TRIES - asked) + 4,
        Phase::Pausing { asked } => 2 * (TRIES - asked) + 5,
        Phase::Running => 3,
        Phase::Settling => 2,
        Phase::LastLook => 1,
        Phase::Done => 0,
    }
}

/// Is this the news that an action brings?
pub open spec fn is_brought_by(news: NewsModel, action: Action) -> bool {
    match action {
        Action::Ask => news is Answer,
        Action::Sleep(_) => news is Slept,
        Action::AwaitExit => news is Exited,
        Action::Report => false,
    }
}

/// A trace comes to an end: every action brings it nearer, and it is over only
/// where there is something to report.
pub proof fn a_trace_comes_to_an_end(t: TraceModel, news: NewsModel)
    requires
        is_valid(t),
        is_brought_by(news, action_in(t.phase)),
    ensures
        is_valid(after(t, news)),
        0 <= left(after(t, news).phase) < left(t.phase),
        left(t.phase) == 0 <==> t.phase == Phase::Done,
{
}

/// A start that has been found is kept, and the command is reported without
/// one only after the graph did not know it when its writes had settled.
pub proof fn a_found_start_is_kept(t: TraceModel, news: NewsModel)
    requires
        is_valid(t),
    ensures
        t.start is Some ==> after(t, news).start == t.start,
        t.phase != Phase::Done && after(t, news).phase == Phase::Done && after(t, news).start is None
            ==> t.phase == Phase::LastLook && news == NewsModel::Answer(None),
{
}

/// The state after so many questions without an answer, each with the pause
/// behind it.
pub open spec fn unanswered(t: TraceModel, n: nat) -> TraceModel
    decreases n,
{
    if n == 0 {
        t
    } else {
        after(after(unanswered(t, (n - 1) as nat), NewsModel::Answer(None)), NewsModel::Slept)
    }
}

/// The graph is asked for a new command every 25 milliseconds, 40 times, unless
/// it gives an answer; with the first answer, and without one after the last
/// question, the command is waited for.
pub proof fn a_command_is_looked_for(n: nat, start: Seq<char>)
    requires
        n <= 40,
    ensures
        ({
            let t = unanswered(
                TraceModel { phase: Phase::Looking { asked: 0 }, start: None },
                n,
            );
            let met = after(t, NewsModel::Answer(Some(start)));
            let missed = after(t, NewsModel::Answer(None));
            &&& t.start is None
            &&& n == 40 ==> action_in(t.phase) == Action::AwaitExit
            &&& n < 40 ==> action_in(t.phase) == Action::Ask
            &&& n < 40 ==> action_in(met.phase) == Action::AwaitExit && met.start == Some(start)
            &&& n < 40 ==> action_in(missed.phase) == Action::Sleep(25) && missed.start is None
        }),
{
    lemma_looking(n);
}

proof fn lemma_looking(n: nat)
    requires
        n <= 40,
    ensures
        unanswered(TraceModel { phase: Phase::Looking { asked: 0 }, start: None }, n) == (
        TraceModel {
            phase: if n < 40 {
                Phase::Looking { asked: n as u32 }
            } else {
                Phase::Running
            },
            start: None,
        }),
    decreases n,
{
    if n > 0 {
        lemma_looking((n - 1) as nat);
    }
}

/// Once a command has exited its writes have 600 milliseconds to settle. Then a
/// start that was found is reported; else the graph is asked once more, and
/// what it says is reported.
pub proof fn an_exit_leads_to_the_report(t: TraceModel, answer: Option<Seq<char>>)
    requires
        action_in(t.phase) == Action::AwaitExit,
    ensures
        ({
            let exited = after(t, NewsModel::Exited);
            let settled = after(exited, NewsModel::Slept);
            let told = after(settled, NewsModel::Answer(answer));
            &&& action_in(exited.phase) == Action::Sleep(600)
            &&& t.start is Some ==> action_in(settled.phase) == Action::Report && settled.start
                == t.start
            &&& t.start is None ==> action_in(settled.phase) == Action::Ask && action_in(told.phase)
                == Action::Report && told.start == answer
        }),
{
}

/// News that no action asked for changes nothing; in particular a command that
/// runs is waited for until it exits.
pub proof fn other_news_changes_nothing(t: TraceModel, news: NewsModel)
    requires
        !is_brought_by(news, action_in(t.phase)),
    ensures
        after(t, news) == t,
{
}

} // verus!
