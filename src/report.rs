use crate::branch::{reports_of, CocoBranch, FormatBranch};
use crate::time_format::{integer_text, push_integer, unix_time_text};
use vstd::prelude::*;

verus! {

/// The JSON string literal of `s`: quoted, with the characters JSON requires escaped.
pub uninterp spec fn json_quoted(s: Seq<char>) -> Seq<char>;

/// Relies on `serde_json::to_string` for a `str`: it writes the quoted, escaped JSON string,
/// and depends on the characters alone. A `str` is written by `format_escaped_str` into an
/// in-memory `Vec<u8>`, which has no failing path, so the `unwrap` never fires.
#[verifier::external_body]
fn json_quote(s: &str) -> (r: String)
    ensures
        r@ == json_quoted(s@),
{
    serde_json::to_string(s).unwrap()
}

/// Why a report could not be made.
#[derive(Clone, Debug, PartialEq, Eq)]
pub enum ReportError {
    /// The repository could not be cloned or opened.
    Source(String),
    /// The branches of an opened repository could not be listed.
    Enumeration(String),
}

/// One member of a report object: its key and its value text, at the object's indent.
pub open spec fn member(key: Seq<char>, value: Seq<char>) -> Seq<char> {
    "    \""@ + key + "\": "@ + value
}

/// The pretty-printed JSON object of one branch report, given its fields' values.
pub open spec fn branch_object(
    name: Seq<char>,
    author: Seq<char>,
    committer: Seq<char>,
    first_str: Seq<char>,
    last_str: Seq<char>,
    first: int,
    last: int,
) -> Seq<char> {
    "{\n"@ + member("name"@, json_quoted(name)) + ",\n"@ + member("author"@, json_quoted(author))
        + ",\n"@ + member("committer"@, json_quoted(committer)) + ",\n"@ + member(
        "first_commit_str"@,
        json_quoted(first_str),
    ) + ",\n"@ + member("last_commit_str"@, json_quoted(last_str)) + ",\n"@ + member(
        "first_commit_date"@,
        integer_text(first),
    ) + ",\n"@ + member("last_commit_date"@, integer_text(last)) + "\n  }"@
}

/// The JSON object of a branch report.
pub open spec fn branch_json(b: FormatBranch) -> Seq<char> {
    branch_object(
        b.name@,
        b.author@,
        b.committer@,
        b.first_commit_str@,
        b.last_commit_str@,
        b.first_commit_date as int,
        b.last_commit_date as int,
    )
}

/// The JSON object of the report of a listed branch.
pub open spec fn listed_branch_json(b: CocoBranch) -> Seq<char> {
    branch_object(
        b.name@,
        b.author@,
        b.committer@,
        unix_time_text(b.first_commit_date as int),
        unix_time_text(b.last_commit_date as int),
        b.first_commit_date as int,
        b.last_commit_date as int,
    )
}

/// The array elements after `[`: each object on a line of its own, indented by two.
pub open spec fn array_items(objects: Seq<Seq<char>>) -> Seq<char>
    decreases objects.len(),
{
    if objects.len() == 0 {
        Seq::empty()
    } else {
        array_items(objects.drop_last()) + (if objects.len() == 1 {
            "\n"@
        } else {
            ",\n"@
        }) + "  "@ + objects.last()
    }
}

/// A pretty-printed JSON array of `objects`: `[]` when there are none.
pub open spec fn json_array(objects: Seq<Seq<char>>) -> Seq<char> {
    if objects.len() == 0 {
        "[]"@
    } else {
        "["@ + array_items(objects) + "\n]"@
    }
}

/// The report text of a sequence of branch reports.
pub open spec fn report_json(reports: Seq<FormatBranch>) -> Seq<char> {
    json_array(reports.map_values(|b: FormatBranch| branch_json(b)))
}

/// The report text of a sequence of listed branches.
pub open spec fn listing_json(branches: Seq<CocoBranch>) -> Seq<char> {
    json_array(branches.map_values(|b: CocoBranch| listed_branch_json(b)))
}

fn push_member_str(out: &mut String, key: &str, value: &str)
    ensures
        final(out)@ == old(out)@ + member(key@, json_quoted(value@)),
{
    let ghost start = out@;
    out.append("    \"");
    out.append(key);
    out.append("\": ");
    let q = json_quote(value);
    out.append(q.as_str());
    assert(out@ =~= start + member(key@, json_quoted(value@)));
}

fn push_member_int(out: &mut String, key: &str, value: i64)
    ensures
        final(out)@ == old(out)@ + member(key@, integer_text(value as int)),
{
    let ghost start = out@;
    out.append("    \"");
    out.append(key);
    out.append("\": ");
    push_integer(out, value);
    assert(out@ =~= start + member(key@, integer_text(value as int)));
}

fn push_branch_json(out: &mut String, b: &FormatBranch)
    ensures
        final(out)@ == old(out)@ + branch_json(*b),
{
    let ghost start = out@;
    out.append("{\n");
    push_member_str(out, "name", b.name.as_str());
    out.append(",\n");
    push_member_str(out, "author", b.author.as_str());
    out.append(",\n");
    push_member_str(out, "committer", b.committer.as_str());
    out.append(",\n");
    push_member_str(out, "first_commit_str", b.first_commit_str.as_str());
    out.append(",\n");
    push_member_str(out, "last_commit_str", b.last_commit_str.as_str());
    out.append(",\n");
    push_member_int(out, "first_commit_date", b.first_commit_date);
    out.append(",\n");
    push_member_int(out, "last_commit_date", b.last_commit_date);
    out.append("\n  }");
    assert(out@ =~= start + branch_json(*b));
}

/// The reports as a pretty-printed JSON array, one object per report, in order, with
/// the members `name`, `author`, `committer`, `first_commit_str`, `last_commit_str`,
/// `first_commit_date` and `last_commit_date`.
pub fn render_report(reports: &Vec<FormatBranch>) -> (r: String)
    ensures
        r@ == report_json(reports@),
{
    let ghost objects = reports@.map_values(|b: FormatBranch| branch_json(b));
    let mut out = String::new();
    if reports.len() == 0 {
        out.append("[]");
        return out;
    }
    out.append("[");
    let mut i: usize = 0;
    while i < reports.len()
        invariant
            i <= reports@.len(),
            objects == reports@.map_values(|b: FormatBranch| branch_json(b)),
            out@ == "["@ + array_items(objects.take(i as int)),
        decreases reports@.len() - i,
    {
        if i == 0 {
            out.append("\n");
        } else {
            out.append(",\n");
        }
        out.append("  ");
        push_branch_json(&mut out, &reports[i]);
        proof {
            let next = objects.take(i + 1);
            assert(next.drop_last() =~= objects.take(i as int));
            assert(next.last() == branch_json(reports@[i as int]));
            assert(out@ =~= "["@ + array_items(next));
        }
        i = i + 1;
    }
    out.append("\n]");
    assert(objects.take(i as int) =~= objects);
    assert(out@ =~= report_json(reports@));
    out
}

/// The report text of `branches`: each listed branch turned into its report, in order,
/// and the reports rendered as a pretty-printed JSON array.
pub fn report_from_branches(branches: Vec<CocoBranch>) -> (r: String)
    ensures
        r@ == listing_json(branches@),
{
    let ghost listed = branches@;
    let reports = reports_of(branches);
    let r = render_report(&reports);
    assert(reports@.map_values(|b: FormatBranch| branch_json(b)) =~= listed.map_values(
        |b: CocoBranch| listed_branch_json(b),
    ));
    r
}

/// Finishes a report run from what the repository and the branch listing gave.
///
/// `fetched` is `Err` when the repository could not be cloned or opened; otherwise it
/// holds the outcome of listing its branches. A failure of either is handed back as it
/// came, tagged with its stage, and no report is made.
pub fn assemble_report(fetched: Result<Result<Vec<CocoBranch>, String>, String>) -> (r: Result<
    String,
    ReportError,
>)
    ensures
        fetched matches Err(e) ==> r == Err::<String, ReportError>(ReportError::Source(e)),
        fetched matches Ok(Err(e)) ==> r == Err::<String, ReportError>(
            ReportError::Enumeration(e),
        ),
        fetched matches Ok(Ok(bs)) ==> (r matches Ok(t) && t@ == listing_json(bs@)),
{
    match fetched {
        Err(e) => Err(ReportError::Source(e)),
        Ok(Err(e)) => Err(ReportError::Enumeration(e)),
        Ok(Ok(branches)) => Ok(report_from_branches(branches)),
    }
}

/// Rendering is a function of the ordered reports alone: two renderings of the same
/// sequence are the same text.
pub proof fn lemma_render_deterministic(reports: Seq<FormatBranch>, a: String, b: String)
    requires
        a@ == report_json(reports),
        b@ == report_json(reports),
    ensures
        a@ == b@,
{
}

/// No branches give the text `[]`.
pub proof fn lemma_empty_report()
    ensures
        listing_json(Seq::empty()) == "[]"@,
        report_json(Seq::empty()) == "[]"@,
{
}

} // verus!
