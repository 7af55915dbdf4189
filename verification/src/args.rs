//! The query tool's command line.
use crate::text::{opt_text, same_text, texts};
use vstd::prelude::*;

verus! {

/// The options, and what is left of the arguments without them.
#[derive(Debug, Clone)]
pub struct Args {
    pub db: Option<String>,
    pub snap: Option<String>,
    pub live: Option<String>,
    pub apply: bool,
    pub rest: Vec<String>,
}

/// The plain values of [`Args`].
#[verifier::ext_equal]
pub struct ArgsModel {
    pub db: Option<Seq<char>>,
    pub snap: Option<Seq<char>>,
    pub live: Option<Seq<char>>,
    pub apply: bool,
    pub rest: Seq<Seq<char>>,
}

impl View for Args {
    type V = ArgsModel;

    open spec fn view(&self) -> ArgsModel {
        ArgsModel {
            db: opt_text(self.db),
            snap: opt_text(self.snap),
            live: opt_text(self.live),
            apply: self.apply,
            rest: texts(self.rest@),
        }
    }
}

/// No option and no argument.
pub open spec fn no_args() -> ArgsModel {
    ArgsModel { db: None, snap: None, live: None, apply: false, rest: Seq::empty() }
}

/// Is the rest a traced command?
pub open spec fn is_tracing(rest: Seq<Seq<char>>) -> bool {
    rest.len() > 0 && rest[0] == "trace"@
}

/// The arguments from position `i` on, behind what is known already. An
/// option at the very end has no value and is an argument like any other.
/// Everything behind `trace` belongs to the traced command.
pub open spec fn scan(argv: Seq<Seq<char>>, i: int, got: ArgsModel) -> ArgsModel
    decreases argv.len() - i,
{
    if i < 0 || i >= argv.len() {
        got
    } else if is_tracing(got.rest) {
        scan(argv, i + 1, ArgsModel { rest: got.rest.push(argv[i]), ..got })
    } else if argv[i] == "--db"@ && i + 1 < argv.len() {
        scan(argv, i + 2, ArgsModel { db: Some(argv[i + 1]), ..got })
    } else if argv[i] == "--snap"@ && i + 1 < argv.len() {
        scan(argv, i + 2, ArgsModel { snap: Some(argv[i + 1]), ..got })
    } else if argv[i] == "--live"@ && i + 1 < argv.len() {
        scan(argv, i + 2, ArgsModel { live: Some(argv[i + 1]), ..got })
    } else if argv[i] == "--apply"@ {
        scan(argv, i + 1, ArgsModel { apply: true, ..got })
    } else {
        scan(argv, i + 1, ArgsModel { rest: got.rest.push(argv[i]), ..got })
    }
}

/// Reads the arguments. The first is the program's own name.
pub fn parse_args(argv: &Vec<String>) -> (r: Args)
    ensures
        r@ == scan(texts(argv@), 1, no_args()),
{
    let mut db: Option<String> = None;
    let mut snap: Option<String> = None;
    let mut live: Option<String> = None;
    let mut apply = false;
    let mut rest: Vec<String> = Vec::new();
    let ghost all = texts(argv@);
    let n = argv.len();
    let mut i: usize = 1;
    assert(texts(rest@) =~= no_args().rest);
    while i < n
        invariant
            1 <= i,
            n == argv@.len(),
            all == texts(argv@),
            scan(
                all,
                i as int,
                (ArgsModel {
                    db: opt_text(db),
                    snap: opt_text(snap),
                    live: opt_text(live),
                    apply,
                    rest: texts(rest@),
                }),
            ) == scan(all, 1, no_args()),
        decreases n - i,
    {
        let ghost before = rest@;
        let a = argv[i].as_str();
        assert(all[i as int] == a@);
        assert(texts(rest@).len() == rest@.len());
        assert(rest@.len() > 0 ==> texts(rest@)[0] == rest@[0]@);
        if rest.len() > 0 && same_text(rest[0].as_str(), "trace") {
            rest.push(argv[i].clone());
            assert(texts(rest@) =~= texts(before).push(a@));
            i += 1;
        } else if same_text(a, "--db") && i + 1 < n {
            db = Some(argv[i + 1].clone());
            assert(all[i + 1] == argv@[i + 1]@);
            i += 2;
        } else if same_text(a, "--snap") && i + 1 < n {
            snap = Some(argv[i + 1].clone());
            assert(all[i + 1] == argv@[i + 1]@);
            i += 2;
        } else if same_text(a, "--live") && i + 1 < n {
            live = Some(argv[i + 1].clone());
            assert(all[i + 1] == argv@[i + 1]@);
            i += 2;
        } else if same_text(a, "--apply") {
            apply = true;
            i += 1;
        } else {
            rest.push(argv[i].clone());
            assert(texts(rest@) =~= texts(before).push(a@));
            i += 1;
        }
    }
    Args { db, snap, live, apply, rest }
}

/// What the query tool is asked to do.
#[derive(Debug, Clone)]
pub enum Command {
    Log(String),
    Blame(String),
    Tree(String),
    Stat,
    Revert(String),
    Trace(Vec<String>),
    Usage,
}

/// The plain values of a [`Command`].
#[verifier::ext_equal]
pub enum CommandModel {
    Log(Seq<char>),
    Blame(Seq<char>),
    Tree(Seq<char>),
    Stat,
    Revert(Seq<char>),
    Trace(Seq<Seq<char>>),
    Usage,
}

impl View for Command {
    type V = CommandModel;

    open spec fn view(&self) -> CommandModel {
        match *self {
            Command::Log(p) => CommandModel::Log(p@),
            Command::Blame(p) => CommandModel::Blame(p@),
            Command::Tree(p) => CommandModel::Tree(p@),
            Command::Stat => CommandModel::Stat,
            Command::Revert(p) => CommandModel::Revert(p@),
            Command::Trace(c) => CommandModel::Trace(texts(c@)),
            Command::Usage => CommandModel::Usage,
        }
    }
}

/// The command of the arguments that are no options. Behind `trace` two
/// dashes may separate the traced command.
pub open spec fn command_in(rest: Seq<Seq<char>>) -> CommandModel {
    if rest.len() == 0 {
        CommandModel::Usage
    } else if rest[0] == "log"@ && rest.len() == 2 {
        CommandModel::Log(rest[1])
    } else if rest[0] == "blame"@ && rest.len() == 2 {
        CommandModel::Blame(rest[1])
    } else if rest[0] == "tree"@ && rest.len() == 2 {
        CommandModel::Tree(rest[1])
    } else if rest[0] == "stat"@ && rest.len() == 1 {
        CommandModel::Stat
    } else if rest[0] == "revert"@ && rest.len() == 2 {
        CommandModel::Revert(rest[1])
    } else if rest[0] == "trace"@ && rest.len() >= 2 {
        CommandModel::Trace(
            if rest[1] == "--"@ {
                rest.skip(2)
            } else {
                rest.skip(1)
            },
        )
    } else {
        CommandModel::Usage
    }
}

/// The command of the arguments that are no options.
pub fn command_of(rest: &Vec<String>) -> (r: Command)
    ensures
        r@ == command_in(texts(rest@)),
{
    let ghost all = texts(rest@);
    let n = rest.len();
    assert(all.len() == n);
    if n == 0 {
        return Command::Usage;
    }
    assert(all[0] == rest@[0]@);
    let verb = rest[0].as_str();
    if n == 2 {
        assert(all[1] == rest@[1]@);
    }
    if same_text(verb, "log") && n == 2 {
        return Command::Log(rest[1].clone());
    }
    if same_text(verb, "blame") && n == 2 {
        return Command::Blame(rest[1].clone());
    }
    if same_text(verb, "tree") && n == 2 {
        return Command::Tree(rest[1].clone());
    }
    if same_text(verb, "stat") && n == 1 {
        return Command::Stat;
    }
    if same_text(verb, "revert") && n == 2 {
        return Command::Revert(rest[1].clone());
    }
    if same_text(verb, "trace") && n >= 2 {
        assert(all[1] == rest@[1]@);
        let from: usize = if same_text(rest[1].as_str(), "--") {
            2
        } else {
            1
        };
        let mut command: Vec<String> = Vec::new();
        let mut i: usize = from;
        while i < n
            invariant
                from <= i <= n,
                n == rest@.len(),
                command@.len() == i - from,
                forall|k: int|
                    0 <= k < command@.len() ==> (#[trigger] command@[k])@ == rest@[from + k]@,
            decreases n - i,
        {
            command.push(rest[i].clone());
            i += 1;
        }
        assert(texts(command@) =~= all.skip(from as int));
        return Command::Trace(command);
    }
    Command::Usage
}

/// Where the graph's database is: the place asked for, else the one in the
/// environment, else the first of two usual places that exists.
pub open spec fn db_place(
    explicit: Option<Seq<char>>,
    from_env: Option<Seq<char>>,
    here_exists: bool,
    system_exists: bool,
) -> Option<Seq<char>> {
    if explicit is Some {
        explicit
    } else if from_env is Some {
        from_env
    } else if here_exists {
        Some("graph.db"@)
    } else if system_exists {
        Some("/var/lib/whenfs/graph.db"@)
    } else {
        None
    }
}

/// The database in the current directory.
pub const DB_HERE: &'static str = "graph.db";

/// The database of the system.
pub const DB_SYSTEM: &'static str = "/var/lib/whenfs/graph.db";

/// Where the graph's database is.
pub fn find_db(
    explicit: Option<String>,
    from_env: Option<String>,
    here_exists: bool,
    system_exists: bool,
) -> (r: Option<String>)
    ensures
        opt_text(r) == db_place(opt_text(explicit), opt_text(from_env), here_exists, system_exists),
{
    if explicit.is_some() {
        explicit
    } else if from_env.is_some() {
        from_env
    } else if here_exists {
        Some(DB_HERE.to_string())
    } else if system_exists {
        Some(DB_SYSTEM.to_string())
    } else {
        None
    }
}

// ---------------------------------------------------------------------
// Laws
// ---------------------------------------------------------------------
/// Everything behind `trace` belongs to the traced command: none of its own
/// options is taken for one of this tool.
pub proof fn a_traced_command_keeps_its_options(argv: Seq<Seq<char>>, i: int, got: ArgsModel)
    requires
        is_tracing(got.rest),
        0 <= i <= argv.len(),
    ensures
        scan(argv, i, got) == (ArgsModel { rest: got.rest + argv.skip(i), ..got }),
    decreases argv.len() - i,
{
    if i < argv.len() {
        let next = ArgsModel { rest: got.rest.push(argv[i]), ..got };
        assert(next.rest[0] == got.rest[0]);
        a_traced_command_keeps_its_options(argv, i + 1, next);
        assert(next.rest + argv.skip(i + 1) =~= got.rest + argv.skip(i));
    } else {
        assert(got.rest + argv.skip(i) =~= got.rest);
    }
}

} // verus!
