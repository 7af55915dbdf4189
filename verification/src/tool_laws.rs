//! What holds of the query tool's command line, and of carrying out a plan.
use crate::args::{command_in, db_place, is_tracing, no_args, scan, ArgsModel, CommandModel};
use crate::report::{painted, Outcome, SaidModel, DIM, RESET, YELLOW};
use crate::revert::StepModel;
use crate::text::has_part;
use crate::text_laws::lemma_part;
use crate::undo::{act_for, no_snapshots_text, outcome_said, ActModel, Found};
use vstd::prelude::*;

verus! {

// ---------------------------------------------------------------------
// The command line
// ---------------------------------------------------------------------
/// Is this one of the options?
pub open spec fn is_option(s: Seq<char>) -> bool {
    s == "--db"@ || s == "--snap"@ || s == "--live"@ || s == "--apply"@
}

/// Are all of them arguments that are no options, and is the first not the
/// word behind which everything belongs to another command?
pub open spec fn are_plain(list: Seq<Seq<char>>) -> bool {
    &&& forall|i: int| 0 <= i < list.len() ==> !is_option(#[trigger] list[i])
    &&& list.len() > 0 ==> list[0] != "trace"@
}

/// Arguments that are no options are kept in order.
proof fn lemma_plain(argv: Seq<Seq<char>>, i: int, j: int, got: ArgsModel)
    requires
        0 <= i <= j <= argv.len(),
        forall|k: int| i <= k < j ==> !is_option(#[trigger] argv[k]),
        got.rest.len() == 0 && i < j ==> argv[i] != "trace"@,
        !is_tracing(got.rest),
    ensures
        scan(argv, i, got) == scan(
            argv,
            j,
            ArgsModel { rest: got.rest + argv.subrange(i, j), ..got },
        ),
        !is_tracing(got.rest + argv.subrange(i, j)),
    decreases j - i,
{
    if i < j {
        let next = ArgsModel { rest: got.rest.push(argv[i]), ..got };
        assert(!is_option(argv[i]));
        assert(!is_tracing(next.rest));
        lemma_plain(argv, i + 1, j, next);
        assert(next.rest + argv.subrange(i + 1, j) =~= got.rest + argv.subrange(i, j));
    } else {
        assert(got.rest + argv.subrange(i, j) =~= got.rest);
    }
}

/// What the arguments are, the program's own name apart.
pub open spec fn read_args(program: Seq<char>, list: Seq<Seq<char>>) -> ArgsModel {
    scan(seq![program] + list, 1, no_args())
}

/// Without options all arguments are kept, in order.
pub proof fn plain_arguments_are_kept(program: Seq<char>, list: Seq<Seq<char>>)
    requires
        are_plain(list),
    ensures
        read_args(program, list) == (ArgsModel { rest: list, ..no_args() }),
{
    let argv = seq![program] + list;
    assert forall|k: int| 1 <= k < argv.len() implies !is_option(#[trigger] argv[k]) by {
        assert(argv[k] == list[k - 1]);
    }
    lemma_plain(argv, 1, argv.len() as int, no_args());
    assert(Seq::empty() + argv.subrange(1, argv.len() as int) =~= list);
}

/// What is read behind arguments that are no options, up to a further one.
proof fn lemma_around(
    program: Seq<char>,
    before: Seq<Seq<char>>,
    mid: Seq<Seq<char>>,
    after: Seq<Seq<char>>,
    got: ArgsModel,
)
    requires
        are_plain(before + after),
        mid.len() > 0,
        is_option(mid[0]),
        ({
            let argv = seq![program] + before + mid + after;
            scan(argv, 1int + before.len(), ArgsModel { rest: before, ..no_args() }) == scan(
                argv,
                1int + before.len() + mid.len(),
                got,
            )
        }),
        got.rest == before,
    ensures
        scan(seq![program] + before + mid + after, 1, no_args()) == (ArgsModel {
            rest: before + after,
            ..got
        }),
{
    let argv = seq![program] + before + mid + after;
    let both = before + after;
    let n = 1 + before.len() as int;
    let m = n + mid.len();
    assert forall|k: int| 1 <= k < n implies !is_option(#[trigger] argv[k]) by {
        assert(argv[k] == both[k - 1]);
    }
    assert forall|k: int| m <= k < argv.len() implies !is_option(#[trigger] argv[k]) by {
        assert(argv[k] == both[k - mid.len() - 1]);
    }
    if before.len() > 0 {
        assert(argv[1] == both[0]);
    }
    lemma_plain(argv, 1, n, no_args());
    assert(Seq::empty() + argv.subrange(1, n) =~= before);
    if after.len() > 0 && before.len() == 0 {
        assert(argv[m] == both[0]);
    }
    lemma_plain(argv, m, argv.len() as int, got);
    assert(before + argv.subrange(m, argv.len() as int) =~= before + after);
}

/// An option is taken with its value wherever it stands, and the other
/// arguments are kept in order.
pub proof fn an_option_can_stand_anywhere(
    program: Seq<char>,
    before: Seq<Seq<char>>,
    value: Seq<char>,
    after: Seq<Seq<char>>,
)
    requires
        are_plain(before + after),
    ensures
        ({
            let list = before + after;
            let plain = ArgsModel { rest: list, ..no_args() };
            &&& read_args(program, before + seq!["--db"@, value] + after) == (ArgsModel {
                db: Some(value),
                ..plain
            })
            &&& read_args(program, before + seq!["--snap"@, value] + after) == (ArgsModel {
                snap: Some(value),
                ..plain
            })
            &&& read_args(program, before + seq!["--live"@, value] + after) == (ArgsModel {
                live: Some(value),
                ..plain
            })
            &&& read_args(program, before + seq!["--apply"@] + after) == (ArgsModel {
                apply: true,
                ..plain
            })
        }),
{
    lemma_options_differ();
    let n = before.len() as int;
    let here = ArgsModel { rest: before, ..no_args() };
    if before.len() > 0 {
        assert((before + after)[0] == before[0]);
    }
    assert(!is_tracing(before));
    let db = seq!["--db"@, value];
    let a = seq![program] + before + db + after;
    assert(a[1 + n] == "--db"@ && a[2 + n] == value);
    lemma_around(program, before, db, after, ArgsModel { db: Some(value), ..here });
    assert(a =~= seq![program] + (before + db + after));
    let snap = seq!["--snap"@, value];
    let b = seq![program] + before + snap + after;
    assert(b[1 + n] == "--snap"@ && b[2 + n] == value);
    lemma_around(program, before, snap, after, ArgsModel { snap: Some(value), ..here });
    assert(b =~= seq![program] + (before + snap + after));
    let live = seq!["--live"@, value];
    let c = seq![program] + before + live + after;
    assert(c[1 + n] == "--live"@ && c[2 + n] == value);
    lemma_around(program, before, live, after, ArgsModel { live: Some(value), ..here });
    assert(c =~= seq![program] + (before + live + after));
    let apply = seq!["--apply"@];
    let d = seq![program] + before + apply + after;
    assert(d[1 + n] == "--apply"@);
    lemma_around(program, before, apply, after, ArgsModel { apply: true, ..here });
    assert(d =~= seq![program] + (before + apply + after));
}

proof fn lemma_options_differ()
    ensures
        "--db"@ != "--snap"@,
        "--db"@ != "--live"@,
        "--db"@ != "--apply"@,
        "--snap"@ != "--live"@,
        "--snap"@ != "--apply"@,
        "--live"@ != "--apply"@,
{
    reveal_strlit("--db");
    reveal_strlit("--snap");
    reveal_strlit("--live");
    reveal_strlit("--apply");
    assert("--db"@.len() == 4);
    assert("--snap"@.len() == 6 && "--snap"@[2] == 's');
    assert("--live"@.len() == 6 && "--live"@[2] == 'l');
    assert("--apply"@.len() == 7);
}

/// A command is known by its word and takes what stands behind it: one thing
/// to ask about, nothing, or another command, with two dashes before it or
/// without. Anything else asks for help.
pub proof fn a_command_takes_what_is_behind_it(x: Seq<char>, list: Seq<Seq<char>>)
    ensures
        command_in(seq!["log"@, x]) == CommandModel::Log(x),
        command_in(seq!["blame"@, x]) == CommandModel::Blame(x),
        command_in(seq!["tree"@, x]) == CommandModel::Tree(x),
        command_in(seq!["revert"@, x]) == CommandModel::Revert(x),
        command_in(seq!["stat"@]) == CommandModel::Stat,
        command_in(seq!["trace"@, "--"@] + list) == CommandModel::Trace(list),
        list.len() > 0 && list[0] != "--"@ ==> command_in(seq!["trace"@] + list)
            == CommandModel::Trace(list),
        command_in(Seq::empty()) == CommandModel::Usage,
        list.len() > 0 && list[0] != "log"@ && list[0] != "blame"@ && list[0] != "tree"@ && list[0]
            != "revert"@ && list[0] != "stat"@ && list[0] != "trace"@ ==> command_in(list)
            == CommandModel::Usage,
{
    reveal_strlit("log");
    reveal_strlit("blame");
    reveal_strlit("tree");
    reveal_strlit("revert");
    reveal_strlit("stat");
    reveal_strlit("trace");
    assert("log"@.len() == 3);
    assert("blame"@.len() == 5 && "blame"@[0] == 'b');
    assert("trace"@.len() == 5 && "trace"@[0] == 't');
    assert("tree"@.len() == 4 && "tree"@[0] == 't');
    assert("stat"@.len() == 4 && "stat"@[0] == 's');
    assert("revert"@.len() == 6);
    let a = seq!["trace"@, "--"@] + list;
    assert(a[0] == "trace"@ && a[1] == "--"@);
    assert(a.skip(2) =~= list);
    let b = seq!["trace"@] + list;
    assert(b[0] == "trace"@);
    assert(b.skip(1) =~= list);
    if list.len() > 0 {
        assert(b[1] == list[0]);
    }
}

/// The database is where the user says, else where the environment says, and
/// only without either at a usual place that exists.
pub proof fn a_database_is_where_one_is_told(
    x: Seq<char>,
    explicit: Option<Seq<char>>,
    env: Option<Seq<char>>,
    here: bool,
    system: bool,
)
    ensures
        db_place(Some(x), env, here, system) == Some(x),
        db_place(None, Some(x), here, system) == Some(x),
        db_place(None, None, true, system) == Some("graph.db"@),
        db_place(None, None, false, true) == Some("/var/lib/whenfs/graph.db"@),
        db_place(explicit, env, here, system) is None <==> explicit is None && env is None && !here
            && !system,
{
}

// ---------------------------------------------------------------------
// Carrying out a plan
// ---------------------------------------------------------------------
/// A step is carried out as it says: what is restored is copied from its old
/// version to its place, what is removed is removed as what it is, and nothing
/// else is touched.
pub proof fn a_step_is_carried_out_as_it_says(
    path: Seq<char>,
    from: Seq<char>,
    why: Seq<char>,
    found: Found,
)
    ensures
        act_for((StepModel::Restore { path, from }), true, found) == (ActModel::Copy {
            from,
            to: path,
        }),
        act_for((StepModel::Remove { path }), true, Found::Directory) == (
        ActModel::RemoveDirectory { path }),
        act_for((StepModel::Remove { path }), true, Found::Other) == (ActModel::RemoveFile { path }),
        act_for((StepModel::Skip { path, why }), true, found) == ActModel::Leave,
{
}

/// What is said of a step names its path: that it was kept, or that it failed
/// and why. A failure is said as a complaint. A step that went well is not
/// spoken of.
pub proof fn what_went_wrong_is_said(s: StepModel, why: Seq<char>)
    ensures
        outcome_said(s, Outcome::Applied, why) is None,
        outcome_said(s, Outcome::Kept, why) matches Some(SaidModel::Out(lines)) && lines.len() == 1
            && has_part(lines[0], s.path()),
        outcome_said(s, Outcome::Failed, why) matches Some(SaidModel::Complaint(text)) && has_part(
            text,
            s.path(),
        ) && has_part(text, why),
{
    let p = s.path();
    let front = "  "@ + (DIM@ + "kept    "@);
    let back = "  — not empty"@ + RESET@;
    let kept = "  "@ + painted(DIM@, "kept    "@ + p + "  — not empty"@);
    lemma_part(front, p, back);
    assert(kept =~= front + p + back);
    let head = "  "@ + painted(YELLOW@, "failed"@) + " "@;
    let failed = head + p + ": "@ + why;
    lemma_part(head, p, ": "@ + why);
    assert(failed =~= head + p + (": "@ + why));
    lemma_part(head + p + ": "@, why, Seq::empty());
    assert(failed =~= (head + p + ": "@) + why + Seq::empty());
}

/// Where there is no snapshot, the directory that was looked at is named.
pub proof fn missing_snapshots_are_named(snap_root: Seq<char>)
    ensures
        has_part(no_snapshots_text(snap_root), snap_root),
{
    lemma_part("no snapshots under "@, snap_root, " — nothing to restore from"@);
}

/// An option at the very end has no value, and is kept as an argument.
pub proof fn an_option_without_a_value_is_an_argument(
    program: Seq<char>,
    before: Seq<Seq<char>>,
    option: Seq<char>,
)
    requires
        are_plain(before),
        option == "--db"@ || option == "--snap"@ || option == "--live"@,
    ensures
        read_args(program, before.push(option)) == (ArgsModel {
            rest: before.push(option),
            ..no_args()
        }),
{
    let argv = seq![program] + before.push(option);
    let n = 1 + before.len() as int;
    lemma_options_differ();
    assert forall|k: int| 1 <= k < n implies !is_option(#[trigger] argv[k]) by {
        assert(argv[k] == before[k - 1]);
    }
    if before.len() > 0 {
        assert(argv[1] == before[0]);
    }
    lemma_plain(argv, 1, n, no_args());
    assert(Seq::empty() + argv.subrange(1, n) =~= before);
    assert(argv[n] == option);
    let got = ArgsModel { rest: before, ..no_args() };
    let end = ArgsModel { rest: before.push(option), ..no_args() };
    assert(scan(argv, n + 1, end) == end);
    assert(scan(argv, n, got) == scan(argv, n + 1, end));
}

/// Of an option that is given twice the last value counts.
pub proof fn the_last_value_counts(program: Seq<char>, option: Seq<char>, x: Seq<char>, y: Seq<char>)
    requires
        option == "--db"@ || option == "--snap"@ || option == "--live"@,
    ensures
        read_args(program, seq![option, x, option, y]) == read_args(program, seq![option, y]),
{
    lemma_options_differ();
    let a = seq![program] + seq![option, x, option, y];
    let b = seq![program] + seq![option, y];
    assert(a[1] == option && a[2] == x && a[3] == option && a[4] == y && a.len() == 5);
    assert(b[1] == option && b[2] == y && b.len() == 3);
    reveal_with_fuel(scan, 4);
}

/// A traced command is shown by its exit code, or as ended by a signal.
pub proof fn an_exit_is_shown(code: i32)
    ensures
        crate::trace::exit_shown(Some(code)) == crate::number::int_text(code as int),
        crate::trace::exit_shown(None) == "signal"@,
{
}

/// A command with too few or too many words asks for help.
pub proof fn a_command_has_its_words(list: Seq<Seq<char>>)
    requires
        list.len() > 0,
    ensures
        (list[0] == "log"@ || list[0] == "blame"@ || list[0] == "tree"@ || list[0] == "revert"@)
            && list.len() != 2 ==> command_in(list) == CommandModel::Usage,
        list[0] == "stat"@ && list.len() != 1 ==> command_in(list) == CommandModel::Usage,
        list[0] == "trace"@ && list.len() == 1 ==> command_in(list) == CommandModel::Usage,
{
    reveal_strlit("log");
    reveal_strlit("blame");
    reveal_strlit("tree");
    reveal_strlit("revert");
    reveal_strlit("stat");
    reveal_strlit("trace");
    assert("log"@.len() == 3);
    assert("blame"@.len() == 5 && "blame"@[0] == 'b');
    assert("trace"@.len() == 5 && "trace"@[0] == 't');
    assert("tree"@.len() == 4 && "tree"@[0] == 't');
    assert("stat"@.len() == 4 && "stat"@[0] == 's');
    assert("revert"@.len() == 6);
}

} // verus!
