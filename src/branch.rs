use crate::time_format::{format_unix_time, unix_time_text};
use vstd::prelude::*;

verus! {

/// What the branch listing reports of one branch.
#[derive(Clone, Debug)]
pub struct CocoBranch {
    pub name: String,
    pub first_commit_date: i64,
    pub last_commit_date: i64,
    pub duration: i64,
    pub author: String,
    pub committer: String,
}

/// One branch as it is shown: the listed facts, without the duration, and both commit
/// times also as text.
#[derive(Clone, Debug)]
pub struct FormatBranch {
    pub name: String,
    pub author: String,
    pub committer: String,
    pub first_commit_str: String,
    pub last_commit_str: String,
    pub first_commit_date: i64,
    pub last_commit_date: i64,
}

/// `r` is the report of branch `b`.
pub open spec fn is_report_of(r: FormatBranch, b: CocoBranch) -> bool {
    &&& r.name@ == b.name@
    &&& r.author@ == b.author@
    &&& r.committer@ == b.committer@
    &&& r.first_commit_date == b.first_commit_date
    &&& r.last_commit_date == b.last_commit_date
    &&& r.first_commit_str@ == unix_time_text(b.first_commit_date as int)
    &&& r.last_commit_str@ == unix_time_text(b.last_commit_date as int)
}

impl FormatBranch {
    /// The report of `br`: its facts carried over, and both commit times as text.
    pub fn from(br: CocoBranch) -> (r: FormatBranch)
        ensures
            is_report_of(r, br),
    {
        let first_commit_str = format_unix_time(br.first_commit_date);
        let last_commit_str = format_unix_time(br.last_commit_date);
        FormatBranch {
            name: br.name,
            author: br.author,
            committer: br.committer,
            first_commit_str,
            last_commit_str,
            first_commit_date: br.first_commit_date,
            last_commit_date: br.last_commit_date,
        }
    }
}

/// The reports of `branches`, in the same order.
pub fn reports_of(branches: Vec<CocoBranch>) -> (r: Vec<FormatBranch>)
    ensures
        r@.len() == branches@.len(),
        forall|i: int| 0 <= i < r@.len() ==> is_report_of(#[trigger] r@[i], branches@[i]),
{
    let mut out: Vec<FormatBranch> = Vec::new();
    let mut rest = branches;
    let ghost all = rest@;
    // Walk from the back so that each branch can be moved out of `rest`.
    let mut reversed: Vec<FormatBranch> = Vec::new();
    while rest.len() > 0
        invariant
            rest@.len() + reversed@.len() == all.len(),
            rest@ == all.take(rest@.len() as int),
            forall|i: int|
                0 <= i < reversed@.len() ==> is_report_of(
                    #[trigger] reversed@[i],
                    all[all.len() - 1 - i],
                ),
        decreases rest@.len(),
    {
        let br = rest.pop().unwrap();
        reversed.push(FormatBranch::from(br));
    }
    while reversed.len() > 0
        invariant
            out@.len() + reversed@.len() == all.len(),
            forall|i: int|
                0 <= i < reversed@.len() ==> is_report_of(
                    #[trigger] reversed@[i],
                    all[all.len() - 1 - i],
                ),
            forall|i: int| 0 <= i < out@.len() ==> is_report_of(#[trigger] out@[i], all[i]),
        decreases reversed@.len(),
    {
        let r = reversed.pop().unwrap();
        out.push(r);
    }
    out
}

} // verus!
