//! The pages of the reference: one per command, and the summary that links
//! them.

use crate::help::clean::{preprocess_help, preprocessed};
use crate::help::command::{
    joined, push_repeated, push_replaced, repeated, replaced_char, Cmd, CmdView,
};
use crate::text::{
    chars_of, find, find_in, find_line_end, line_end, line_text, line_text_end, lines, lines_from,
    skip_space_back, slice_of, string_of_range, trim, trim_bounds, trim_end,
};
use vstd::prelude::*;
use vstd::string::StringExecFns;

verus! {

/// The text of the page that introduces the reference.
pub const README: &'static str =
    "import Summary from './SUMMARY.mdx';\n\n# CLI Reference\n\nAutomatically-generated CLI reference from `--help` output.\n\n<Summary />\n";

/// The first line of `s`, or nothing where `s` is empty.
pub open spec fn first_line(s: Seq<char>) -> Seq<char> {
    if s.len() == 0 {
        Seq::empty()
    } else {
        line_text(s, 0, line_end(s, 0))
    }
}

/// The description and the rest of a help text: where the text holds
/// `Usage:`, the description is the first line of what stands before its
/// first occurrence, trimmed, and the rest starts at that occurrence; where it
/// does not, there is no description and the rest is the whole text.
pub open spec fn described(s: Seq<char>) -> (Seq<char>, Seq<char>) {
    match find(s, "Usage:"@) {
        Some(i) => (first_line(trim(s.take(i))), s.skip(i)),
        None => (Seq::empty(), s),
    }
}

/// Splits the help output into a description and the rest.
pub fn parse_description(s: &str) -> (r: (String, String))
    ensures
        (r.0@, r.1@) == described(s@),
{
    let v = chars_of(s);
    let marker = chars_of("Usage:");
    match find_in(&v, &marker, 0) {
        Some(idx) => {
            proof {
                crate::text::lemma_find_from_is_first(v@, marker@, 0);
            }
            let (lo, hi) = trim_bounds(&v, 0, idx);
            let head = slice_of(&v, lo, hi);
            assert(v@.subrange(0, idx as int) == v@.take(idx as int));
            assert(head@ == trim(s@.take(idx as int)));
            let description = if head.len() == 0 {
                String::new()
            } else {
                let end = find_line_end(&head, 0);
                let text_end = line_text_end(&head, 0, end);
                string_of_range(&head, 0, text_end)
            };
            let rest = string_of_range(&v, idx, v.len());
            assert(v@.subrange(idx as int, v.len() as int) == v@.skip(idx as int));
            (description, rest)
        },
        None => (String::new(), String::from_str(s)),
    }
}

/// The markdown for a command shown as `display` whose help output is
/// `stdout`: the description, the invocation in a `bash` block, and the
/// preprocessed help, trimmed, in a `txt` block.
pub open spec fn markdown(display: Seq<char>, stdout: Seq<char>) -> Option<Seq<char>> {
    let (description, rest) = described(stdout);
    match preprocessed(trim(rest)) {
        Some(body) => Some(
            description + "\n\n```bash\n$ "@ + display + " --help\n```\n```txt\n"@ + body
                + "\n```"@,
        ),
        None => None,
    }
}

/// Returns the markdown for a command's help output: `None` where the regex
/// compiler rejects one of the preprocessing patterns.
pub fn help_markdown(cmd: &Cmd, stdout: &str) -> (r: Option<String>)
    ensures
        crate::help::pattern::text_of(r) == markdown(cmd@.display(), stdout@),
{
    let (description, rest) = parse_description(stdout);
    let v = chars_of(rest.as_str());
    let (lo, hi) = trim_bounds(&v, 0, v.len());
    assert(v@.subrange(0, v.len() as int) == v@);
    let trimmed = string_of_range(&v, lo, hi);
    match preprocess_help(trimmed.as_str()) {
        Some(body) => {
            let mut out = description;
            out.append("\n\n```bash\n$ ");
            out.append(cmd.to_string().as_str());
            out.append(" --help\n```\n```txt\n");
            out.append(body.as_str());
            out.append("\n```");
            Some(out)
        },
        None => None,
    }
}

/// The page of a command: a heading with the command, then its markdown.
pub open spec fn page(display: Seq<char>, stdout: Seq<char>) -> Option<Seq<char>> {
    match markdown(display, stdout) {
        Some(body) => Some("# "@ + display + "\n\n"@ + body),
        None => None,
    }
}

/// The text of the page for `cmd`, whose help output is `stdout`: `None`
/// where the regex compiler rejects one of the preprocessing patterns.
pub fn cmd_markdown(cmd: &Cmd, stdout: &str) -> (r: Option<String>)
    ensures
        crate::help::pattern::text_of(r) == page(cmd@.display(), stdout@),
{
    match help_markdown(cmd, stdout) {
        Some(body) => {
            let mut out = String::from_str("# ");
            out.append(cmd.to_string().as_str());
            out.append("\n\n");
            out.append(body.as_str());
            Some(out)
        },
        None => None,
    }
}

/// Where the page of `cmd` goes, below the output directory and without its
/// extension: the command with `/` for each space.
pub fn page_path(cmd: &Cmd) -> (r: String)
    ensures
        r@ == replaced_char(cmd@.display(), ' ', '/'),
{
    let mut out = String::new();
    push_replaced(&mut out, cmd.to_string().as_str(), ' ', '/');
    out
}

/// The line of the summary for a command: indented by `indent` and by two
/// more spaces for each subcommand, a list item that links the command to its
/// page.
pub open spec fn summary_line(cmd: CmdView, indent: nat) -> Seq<char> {
    repeated(' ', indent + 2 * cmd.subcommands.len()) + "- [`"@ + cmd.display() + "`](/cli/"@
        + replaced_char(cmd.display(), ' ', '/') + ")\n"@
}

/// Returns the summary for a command and its subcommands.
pub fn cmd_summary(cmd: &Cmd, indent: usize) -> (r: String)
    requires
        indent + 2 * cmd@.subcommands.len() <= usize::MAX,
    ensures
        r@ == summary_line(cmd@, indent as nat),
{
    let shown = cmd.to_string();
    let mut out = String::new();
    push_repeated(&mut out, ' ', indent + cmd.depth() * 2);
    out.append("- [`");
    out.append(shown.as_str());
    out.append("`](/cli/");
    push_replaced(&mut out, shown.as_str(), ' ', '/');
    out.append(")\n");
    out
}

/// The summary lines of `cmds`, one after another.
pub open spec fn summary_lines(cmds: Seq<CmdView>, indent: nat) -> Seq<char>
    decreases cmds.len(),
{
    if cmds.len() == 0 {
        Seq::empty()
    } else {
        summary_lines(cmds.drop_last(), indent) + summary_line(cmds.last(), indent)
    }
}

/// What each command of `cmds` stands for.
pub open spec fn views(cmds: Seq<Cmd>) -> Seq<CmdView> {
    cmds.map_values(|c: Cmd| c@)
}

/// The summary of the commands in `cmds`, in their order.
pub fn summary(cmds: &Vec<Cmd>, indent: usize) -> (r: String)
    requires
        forall|i: int|
            0 <= i < cmds.len() ==> indent + 2 * (#[trigger] cmds[i])@.subcommands.len()
                <= usize::MAX,
    ensures
        r@ == summary_lines(views(cmds@), indent as nat),
{
    let mut out = String::new();
    let mut i: usize = 0;
    while i < cmds.len()
        invariant
            i <= cmds.len(),
            forall|i: int|
                0 <= i < cmds.len() ==> indent + 2 * (#[trigger] cmds[i])@.subcommands.len()
                    <= usize::MAX,
            out@ == summary_lines(views(cmds@).take(i as int), indent as nat),
        decreases cmds.len() - i,
    {
        let line = cmd_summary(&cmds[i], indent);
        out.append(line.as_str());
        proof {
            let now = views(cmds@).take(i + 1);
            assert(now.drop_last() == views(cmds@).take(i as int));
            assert(now.last() == cmds[i as int]@);
        }
        i += 1;
    }
    assert(views(cmds@).take(cmds.len() as int) == views(cmds@));
    out
}

/// Each line without the white space at its end.
pub open spec fn trimmed_lines(ls: Seq<Seq<char>>) -> Seq<Seq<char>> {
    ls.map_values(|l: Seq<char>| trim_end(l))
}

/// The text as it is written to a file: its lines, each without the white
/// space at its end, joined by line feeds.
pub open spec fn line_ends_trimmed(s: Seq<char>) -> Seq<char> {
    joined(trimmed_lines(lines(s)), seq!['\n'])
}

/// Removes the white space at the end of each line of `content`, and the
/// final line ending.
pub fn trim_line_ends(content: &str) -> (r: String)
    ensures
        r@ == line_ends_trimmed(content@),
{
    let v = chars_of(content);
    let mut out = String::new();
    let mut pos: usize = 0;
    let mut more: bool = v.len() > 0;
    let mut first: bool = true;
    let ghost mut done: Seq<Seq<char>> = Seq::empty();
    while more
        invariant
            pos <= v.len(),
            more ==> pos < v.len(),
            v@ == content@,
            lines(v@) == done + (if more {
                lines_from(v@, pos as int)
            } else {
                Seq::empty()
            }),
            first == (done.len() == 0),
            out@ == joined(trimmed_lines(done), seq!['\n']),
        decreases
                (if more {
                    v.len() - pos + 1
                } else {
                    0
                }),
    {
        let end = find_line_end(&v, pos);
        let text_end = line_text_end(&v, pos, end);
        let keep = skip_space_back(&v, pos, text_end);
        if !first {
            out.push('\n');
        }
        first = false;
        crate::text::push_range(&mut out, &v, pos, keep);
        proof {
            let line = line_text(v@, pos as int, end as int);
            assert(v@.subrange(pos as int, keep as int) == trim_end(line));
            let next = done.push(line);
            assert(lines_from(v@, pos as int) == seq![line] + lines_from(v@, end + 1));
            assert(lines(v@) == next + lines_from(v@, end + 1));
            assert(trimmed_lines(next).drop_last() == trimmed_lines(done));
            assert(trimmed_lines(next).last() == trim_end(line));
            done = next;
        }
        if end < v.len() {
            pos = end + 1;
            more = pos < v.len();
        } else {
            more = false;
        }
    }
    assert(lines(v@) == done);
    out
}

/// What is reported when the program exits with a failure on `--help`.
pub fn failure_message(cmd: &Cmd, stderr: &str) -> (r: String)
    ensures
        r@ == "Command \""@ + cmd@.display() + "\" failed:\n"@ + stderr@,
{
    let mut out = String::from_str("Command \"");
    out.append(cmd.to_string().as_str());
    out.append("\" failed:\n");
    out.append(stderr);
    out
}

} // verus!
