//! Help output made reproducible: whatever depends on the machine that
//! printed it (paths, versions, the number of cores) is replaced by a
//! placeholder.

use crate::help::pattern::{replace_all, replace_all_result};
use vstd::prelude::*;

verus! {

/// One replacement after another: `None` stays `None`.
pub open spec fn then_replace(text: Option<Seq<char>>, pattern: Seq<char>, replacement: Seq<char>)
    -> Option<Seq<char>> {
    match text {
        Some(t) => replace_all_result(pattern, t, replacement),
        None => None,
    }
}

/// The help text `s` with the six machine-dependent defaults replaced, in
/// this order: the cache directory, the version with commit and target, the
/// version with the operating system, and the three defaults computed from
/// the number of cores.
pub open spec fn preprocessed(s: Seq<char>) -> Option<Seq<char>> {
    let a = then_replace(Some(s), r"default: /.*/reth"@, "default: <CACHE_DIR>"@);
    let b = then_replace(
        a,
        r"default: reth/.*-[0-9A-Fa-f]{6,10}/([_\w]+)-(\w+)-(\w+)(-\w+)?"@,
        "default: reth/<VERSION>-<SHA>/<ARCH>"@,
    );
    let c = then_replace(b, r"default: reth/.*/\w+"@, "default: reth/<VERSION>/<OS>"@);
    let d = then_replace(
        c,
        r"(rpc.max-tracing-requests <COUNT>\n.*\n.*\n.*\n.*\n.*)\[default: \d+\]"@,
        r"$1[default: <NUM CPU CORES-2>]"@,
    );
    let e = then_replace(
        d,
        r"(engine\.max-proof-task-concurrency.*)\[default: \d+\]"@,
        r"$1[default: <DYNAMIC: CPU cores * 8>]"@,
    );
    then_replace(
        e,
        r"(engine\.reserved-cpu-cores.*)\[default: \d+\]"@,
        r"$1[default: <DYNAMIC: min(2, CPU cores)>]"@,
    )
}

/// Applies one replacement to a text that may already be lost.
pub fn replace_step(text: Option<String>, pattern: &str, replacement: &str) -> (r: Option<String>)
    ensures
        crate::help::pattern::text_of(r) == then_replace(
            crate::help::pattern::text_of(text),
            pattern@,
            replacement@,
        ),
{
    match text {
        Some(t) => replace_all(pattern, t.as_str(), replacement),
        None => None,
    }
}

/// Preprocesses the help output of a command: `None` where the regex
/// compiler rejects one of the patterns.
pub fn preprocess_help(s: &str) -> (r: Option<String>)
    ensures
        crate::help::pattern::text_of(r) == preprocessed(s@),
{
    let a = replace_all(r"default: /.*/reth", s, "default: <CACHE_DIR>");
    let b = replace_step(
        a,
        r"default: reth/.*-[0-9A-Fa-f]{6,10}/([_\w]+)-(\w+)-(\w+)(-\w+)?",
        "default: reth/<VERSION>-<SHA>/<ARCH>",
    );
    let c = replace_step(b, r"default: reth/.*/\w+", "default: reth/<VERSION>/<OS>");
    let d = replace_step(
        c,
        r"(rpc.max-tracing-requests <COUNT>\n.*\n.*\n.*\n.*\n.*)\[default: \d+\]",
        r"$1[default: <NUM CPU CORES-2>]",
    );
    let e = replace_step(
        d,
        r"(engine\.max-proof-task-concurrency.*)\[default: \d+\]",
        r"$1[default: <DYNAMIC: CPU cores * 8>]",
    );
    replace_step(
        e,
        r"(engine\.reserved-cpu-cores.*)\[default: \d+\]",
        r"$1[default: <DYNAMIC: min(2, CPU cores)>]",
    )
}

} // verus!
