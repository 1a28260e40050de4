//! The lines by which a failed call is reported.

use vstd::prelude::*;
use vstd::string::StringExecFns;

verus! {

/// The line that names the call that failed and gives the error.
pub open spec fn failure_line(method_name: Seq<char>, err: Seq<char>) -> Seq<char> {
    method_name + "() failed: "@ + err
}

/// The line that gives one underlying cause.
pub open spec fn cause_line(source: Seq<char>) -> Seq<char> {
    "Caused by: "@ + source
}

/// The lines that report the failure of the call `method_name` with the
/// error `err`.
///
/// `sources` is the chain of the error: the error itself first, then what
/// caused it, then what caused that. The first line names the call and the
/// error; one line follows for each entry of the chain after the first.
pub fn log_error(method_name: &str, err: &str, sources: &Vec<String>) -> (lines: Vec<String>)
    ensures
        lines.len() == if sources.len() == 0 {
            1
        } else {
            sources.len()
        },
        lines[0]@ == failure_line(method_name@, err@),
        forall|k: int| 1 <= k < lines.len() ==> (#[trigger] lines[k])@ == cause_line(sources[k]@),
{
    let mut lines: Vec<String> = Vec::new();
    let mut first = String::from_str(method_name);
    first.append("() failed: ");
    first.append(err);
    lines.push(first);
    let mut k: usize = 1;
    while k < sources.len()
        invariant
            1 <= k,
            k <= sources.len() || k == 1,
            lines.len() == k,
            lines[0]@ == failure_line(method_name@, err@),
            forall|j: int| 1 <= j < k ==> (#[trigger] lines[j])@ == cause_line(sources[j]@),
        decreases sources.len() - k,
    {
        let mut line = String::from_str("Caused by: ");
        line.append(sources[k].as_str());
        lines.push(line);
        k = k + 1;
    }
    lines
}

} // verus!
