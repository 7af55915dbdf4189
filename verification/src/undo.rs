//! Carrying out an undo plan: what is done for each step, and what is said of
//! how it went.
use crate::report::{
    painted, result_line, result_text, Outcome, Said, SaidModel, DIM, RESET, YELLOW,
};
use crate::revert::{Step, StepModel};
use crate::text::{opt_text, texts};
use vstd::prelude::*;
use vstd::string::*;

verus! {

/// What is said where there is no snapshot at all.
pub open spec fn no_snapshots_text(snap_root: Seq<char>) -> Seq<char> {
    "no snapshots under "@ + snap_root + " — nothing to restore from"@
}

/// The reason for which nothing can be undone, if there is one: that there is
/// no snapshot.
pub fn nothing_to_restore_from(snapshots: &Vec<String>, snap_root: &str) -> (r: Option<String>)
    ensures
        match r {
            Some(text) => snapshots@.len() == 0 && text@ == no_snapshots_text(snap_root@),
            None => snapshots@.len() > 0,
        },
{
    if snapshots.len() > 0 {
        return None;
    }
    let mut out = String::new();
    out.append("no snapshots under ");
    out.append(snap_root);
    out.append(" — nothing to restore from");
    assert(out@ =~= no_snapshots_text(snap_root@));
    Some(out)
}

/// What stands at a path.
#[derive(Debug, Clone, Copy, PartialEq, Eq, Structural)]
pub enum Found {
    Directory,
    /// Anything else, or nothing.
    Other,
}

/// What to do for a step.
#[derive(Debug)]
pub enum Act {
    /// Nothing.
    Leave,
    /// Copy a file, after making the directories that lead to its place.
    Copy { from: String, to: String },
    /// Remove a directory, if it is empty.
    RemoveDirectory { path: String },
    /// Remove what is no directory.
    RemoveFile { path: String },
}

/// The plain values of an [`Act`].
#[verifier::ext_equal]
pub enum ActModel {
    Leave,
    Copy { from: Seq<char>, to: Seq<char> },
    RemoveDirectory { path: Seq<char> },
    RemoveFile { path: Seq<char> },
}

impl View for Act {
    type V = ActModel;

    open spec fn view(&self) -> ActModel {
        match *self {
            Act::Leave => ActModel::Leave,
            Act::Copy { from, to } => ActModel::Copy { from: from@, to: to@ },
            Act::RemoveDirectory { path } => ActModel::RemoveDirectory { path: path@ },
            Act::RemoveFile { path } => ActModel::RemoveFile { path: path@ },
        }
    }
}

/// What to do for a step. In a dry run nothing is done. A directory is never
/// removed with what is in it: that may be none of the command's work.
pub open spec fn act_for(s: StepModel, apply: bool, found: Found) -> ActModel {
    if !apply {
        ActModel::Leave
    } else {
        match s {
            StepModel::Restore { path, from } => ActModel::Copy { from, to: path },
            StepModel::Remove { path } => match found {
                Found::Directory => ActModel::RemoveDirectory { path },
                Found::Other => ActModel::RemoveFile { path },
            },
            StepModel::Skip { .. } => ActModel::Leave,
        }
    }
}

/// What to do for a step. `found` is what stands at its path.
pub fn act_on(s: &Step, apply: bool, found: Found) -> (r: Act)
    ensures
        r@ == act_for(s@, apply, found),
{
    if !apply {
        return Act::Leave;
    }
    match s {
        Step::Restore { path, from } => Act::Copy { from: from.clone(), to: path.clone() },
        Step::Remove { path } => match found {
            Found::Directory => Act::RemoveDirectory { path: path.clone() },
            Found::Other => Act::RemoveFile { path: path.clone() },
        },
        Step::Skip { .. } => Act::Leave,
    }
}

/// What is said of how a step went. A step that was applied is not spoken of.
pub open spec fn outcome_said(s: StepModel, o: Outcome, why: Seq<char>) -> Option<SaidModel> {
    match o {
        Outcome::Applied => None,
        Outcome::Kept => Some(
            SaidModel::Out(seq!["  "@ + painted(DIM@, "kept    "@ + s.path() + "  — not empty"@)]),
        ),
        Outcome::Failed => Some(
            SaidModel::Complaint("  "@ + painted(YELLOW@, "failed"@) + " "@ + s.path() + ": "@ + why),
        ),
    }
}

/// The plain values of an optional utterance.
pub open spec fn said_model(s: Option<Said>) -> Option<SaidModel> {
    match s {
        Some(x) => Some(x@),
        None => None,
    }
}

/// What is said of how a step went. `why` is the reason of a failure.
pub fn say_outcome(s: &Step, o: Outcome, why: &str) -> (r: Option<Said>)
    ensures
        said_model(r) == outcome_said(s@, o, why@),
{
    let mut out = String::new();
    match o {
        Outcome::Applied => None,
        Outcome::Kept => {
            out.append("  ");
            out.append(DIM);
            out.append("kept    ");
            out.append(s.path());
            out.append("  — not empty");
            out.append(RESET);
            let mut lines: Vec<String> = Vec::new();
            proof {
                assert(out@ =~= "  "@ + painted(DIM@, "kept    "@ + s@.path() + "  — not empty"@));
            }
            lines.push(out);
            assert(texts(lines@) =~= seq![out@]);
            Some(Said::Out(lines))
        },
        Outcome::Failed => {
            out.append("  ");
            out.append(YELLOW);
            out.append("failed");
            out.append(RESET);
            out.append(" ");
            out.append(s.path());
            out.append(": ");
            out.append(why);
            proof {
                assert(out@ =~= "  "@ + painted(YELLOW@, "failed"@) + " "@ + s@.path() + ": "@ + why@);
            }
            Some(Said::Complaint(out))
        },
    }
}

/// The closing line: how carrying out the plan went, unless it was a dry run.
pub fn closing_line(apply: bool, list: &Vec<Outcome>) -> (r: Option<String>)
    ensures
        opt_text(r) == if apply {
            Some(result_text(list@))
        } else {
            None
        },
{
    if apply {
        Some(result_line(list))
    } else {
        None
    }
}

// ---------------------------------------------------------------------
// Laws
// ---------------------------------------------------------------------
/// A dry run does nothing, and a step that is to be left alone is left alone.
pub proof fn nothing_is_done_unasked(s: StepModel, apply: bool, found: Found)
    ensures
        act_for(s, apply, found) == ActModel::Leave <==> !apply || s is Skip,
{
}

} // verus!
