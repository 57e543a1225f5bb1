//! What the command line prints after a run, and the exit code it returns.
use vstd::prelude::*;
use vstd::string::*;

use crate::worker::{RunSummary, RunSummaryView};

verus! {

broadcast use vstd::string::group_string_axioms;

/// The IDs joined by ` -> `.
pub open spec fn joined_ids(ids: Seq<Seq<char>>) -> Seq<char>
    decreases ids.len(),
{
    if ids.len() == 0 {
        seq![]
    } else if ids.len() == 1 {
        ids[0]
    } else {
        joined_ids(ids.drop_last()) + " -> "@ + ids.last()
    }
}

/// A list of task IDs as printed: `(none)` when empty, else joined by ` -> `.
pub open spec fn id_list_text(ids: Seq<Seq<char>>) -> Seq<char> {
    if ids.len() == 0 {
        "(none)"@
    } else {
        joined_ids(ids)
    }
}

/// A list of task IDs as printed.
pub fn display_ids(ids: &Vec<String>) -> (r: String)
    ensures
        r@ == id_list_text(ids.deep_view()),
{
    if ids.len() == 0 {
        return String::from_str("(none)");
    }
    let mut text = ids[0].clone();
    let mut i: usize = 1;
    proof {
        assert(ids.deep_view().take(1).drop_last().len() == 0);
        assert(joined_ids(ids.deep_view().take(1)) == ids.deep_view().take(1)[0]);
    }
    while i < ids.len()
        invariant
            1 <= i <= ids.len(),
            text@ == joined_ids(ids.deep_view().take(i as int)),
        decreases ids.len() - i,
    {
        text.append(" -> ");
        text.append(ids[i].as_str());
        proof {
            assert(ids.deep_view().take(i + 1).drop_last() =~= ids.deep_view().take(i as int));
            assert(ids.deep_view().take(i + 1).last() == ids@[i as int]@);
        }
        i = i + 1;
    }
    proof {
        assert(ids.deep_view().take(ids.len() as int) =~= ids.deep_view());
    }
    text
}

/// What a run prints: its plan; unless it was a dry run, what succeeded; and
/// what failed and is blocked, unless it was a dry run with nothing of either.
pub open spec fn report_text(s: RunSummaryView, dry_run: bool) -> Seq<char> {
    "Plan: "@ + id_list_text(s.planned_ids) + "\n"@ + (if !dry_run {
        "Succeeded: "@ + id_list_text(s.succeeded_ids) + "\n"@
    } else {
        seq![]
    }) + (if !dry_run || s.failed_ids.len() > 0 || s.blocked_ids.len() > 0 {
        "Failed: "@ + id_list_text(s.failed_ids) + "\n"@ + "Blocked: "@ + id_list_text(
            s.blocked_ids,
        ) + "\n"@
    } else {
        seq![]
    })
}

/// What a run prints.
pub fn summary_report(summary: &RunSummary, dry_run: bool) -> (r: String)
    ensures
        r@ == report_text(summary@, dry_run),
{
    let mut text = String::from_str("Plan: ");
    text.append(display_ids(&summary.planned_ids).as_str());
    text.append("\n");
    let ghost head = text@;
    if !dry_run {
        text.append("Succeeded: ");
        text.append(display_ids(&summary.succeeded_ids).as_str());
        text.append("\n");
    }
    let ghost middle = text@;
    if !dry_run || summary.failed_ids.len() > 0 || summary.blocked_ids.len() > 0 {
        text.append("Failed: ");
        text.append(display_ids(&summary.failed_ids).as_str());
        text.append("\n");
        text.append("Blocked: ");
        text.append(display_ids(&summary.blocked_ids).as_str());
        text.append("\n");
    }
    proof {
        assert(text@ =~= report_text(summary@, dry_run));
    }
    text
}

/// The exit code of a run: 0 when nothing failed or is blocked, 2 otherwise.
pub fn exit_code(summary: &RunSummary) -> (r: u8)
    ensures
        r == (if summary@.failed_ids.len() == 0 && summary@.blocked_ids.len() == 0 {
            0u8
        } else {
            2u8
        }),
{
    if summary.failed_ids.len() == 0 && summary.blocked_ids.len() == 0 {
        0
    } else {
        2
    }
}

} // verus!
