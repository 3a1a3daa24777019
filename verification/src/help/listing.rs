//! The subcommands that a help text lists, and the order in which the
//! commands of a program are visited.

use crate::help::command::{texts, Cmd, CmdView};
use crate::help::page::views;
use crate::help::pattern::{capture, capture_result};
use crate::text::{
    chars_of, find, find_from, find_in, find_line_end, has_prefix, line_text_end, lines, lines_from, same_text, slice_of, starts_with, string_of,
};
use vstd::prelude::*;

verus! {

/// The text in which a help output lists the subcommands: what stands
/// between the first `Commands:` and the next one, or the end.
pub open spec fn commands_section(s: Seq<char>) -> Option<Seq<char>> {
    match find(s, "Commands:"@) {
        None => None,
        Some(i) => {
            let start = i + "Commands:"@.len();
            match find_from(s, "Commands:"@, start) {
                Some(j) => Some(s.subrange(start, j)),
                None => Some(s.skip(start)),
            }
        },
    }
}

/// A line that ends the list of subcommands.
pub open spec fn is_heading(line: Seq<char>) -> bool {
    starts_with(line, "Options:"@) || starts_with(line, "Arguments:"@)
}

/// The pattern of a line that names a subcommand: two spaces, then the name.
pub open spec fn entry_pattern() -> Seq<char> {
    r"^  (\S+)"@
}

/// The subcommand that a captured name stands for: any but `help`.
pub open spec fn kept(name: Option<Seq<char>>) -> Seq<Seq<char>> {
    match name {
        Some(n) => if n == "help"@ {
            Seq::empty()
        } else {
            seq![n]
        },
        None => Seq::empty(),
    }
}

/// `front` before what `rest` holds; `None` stays `None`.
pub open spec fn after(front: Seq<Seq<char>>, rest: Option<Seq<Seq<char>>>) -> Option<
    Seq<Seq<char>>,
> {
    match rest {
        Some(r) => Some(front + r),
        None => None,
    }
}

/// The subcommands named by the lines before the first heading: `None` where
/// the regex compiler rejects the pattern of an entry.
pub open spec fn listed(ls: Seq<Seq<char>>) -> Option<Seq<Seq<char>>>
    decreases ls.len(),
{
    if ls.len() == 0 || is_heading(ls[0]) {
        Some(Seq::empty())
    } else {
        match capture_result(entry_pattern(), ls[0], 1) {
            Some(name) => after(kept(name), listed(ls.skip(1))),
            None => None,
        }
    }
}

/// The subcommands that the help text `s` lists.
pub open spec fn sub_commands(s: Seq<char>) -> Option<Seq<Seq<char>>> {
    match commands_section(s) {
        Some(section) => listed(lines(section)),
        None => Some(Seq::empty()),
    }
}

/// The characters of each string in an optional list.
pub open spec fn names_of(v: Option<Vec<String>>) -> Option<Seq<Seq<char>>> {
    match v {
        Some(names) => Some(texts(names@)),
        None => None,
    }
}

/// The subcommand that a captured name stands for, if any: `help` is left
/// out.
pub fn keep_subcommand(name: Option<String>) -> (r: Option<String>)
    ensures
        match r {
            Some(n) => kept(crate::help::pattern::text_of(name)) == seq![n@],
            None => kept(crate::help::pattern::text_of(name)).len() == 0,
        },
{
    match name {
        Some(n) => {
            if same_text(n.as_str(), "help") {
                None
            } else {
                Some(n)
            }
        },
        None => None,
    }
}

/// The subcommands named by the lines of `section` before the first heading.
pub fn list_entries(section: &Vec<char>) -> (r: Option<Vec<String>>)
    ensures
        names_of(r) == listed(lines(section@)),
{
    let options = chars_of("Options:");
    let arguments = chars_of("Arguments:");
    let mut found: Vec<String> = Vec::new();
    let mut pos: usize = 0;
    let mut more: bool = section.len() > 0;
    assert(texts(found@) == Seq::<Seq<char>>::empty());
    while more
        invariant
            pos <= section.len(),
            more ==> pos < section.len(),
            options@ == "Options:"@,
            arguments@ == "Arguments:"@,
            listed(lines(section@)) == after(
                texts(found@),
                listed(
                    if more {
                        lines_from(section@, pos as int)
                    } else {
                        Seq::empty()
                    },
                ),
            ),
        decreases
                (if more {
                    section.len() - pos + 1
                } else {
                    0
                }),
    {
        let end = find_line_end(section, pos);
        let text_end = line_text_end(section, pos, end);
        let line = slice_of(section, pos, text_end);
        proof {
            let rest = lines_from(section@, end + 1);
            let here = lines_from(section@, pos as int);
            assert(here == seq![line@] + rest);
            assert(here[0] == line@);
            assert(here.skip(1) == rest);
        }
        if has_prefix(&line, &options) || has_prefix(&line, &arguments) {
            return Some(found);
        }
        let text = string_of(&line);
        match capture(r"^  (\S+)", text.as_str(), 1) {
            Some(name) => {
                let ghost before = texts(found@);
                match keep_subcommand(name) {
                    Some(n) => {
                        found.push(n);
                        assert(texts(found@) == before + seq![n@]);
                    },
                    None => {
                        assert(texts(found@) == before + Seq::<Seq<char>>::empty());
                    },
                }
                proof {
                    let rest = listed(lines_from(section@, end + 1));
                    let name_text = crate::help::pattern::text_of(name);
                    if rest is Some {
                        assert((before + kept(name_text)) + rest->0 == before + (kept(name_text)
                            + rest->0));
                    }
                }
            },
            None => {
                return None;
            },
        }
        if end < section.len() {
            pos = end + 1;
            more = pos < section.len();
        } else {
            more = false;
        }
    }
    assert(texts(found@) + Seq::<Seq<char>>::empty() == texts(found@));
    Some(found)
}

/// Returns a list of subcommands from the help output of a command: `None`
/// where the regex compiler rejects the pattern of an entry.
pub fn parse_sub_commands(s: &str) -> (r: Option<Vec<String>>)
    ensures
        names_of(r) == sub_commands(s@),
{
    let v = chars_of(s);
    let marker = chars_of("Commands:");
    match find_in(&v, &marker, 0) {
        Some(i) => {
            proof {
                crate::text::lemma_find_from_is_first(v@, marker@, 0);
            }
            assert(crate::text::occurs_at(v@, marker@, i as int));
            let start = i + marker.len();
            let stop = match find_in(&v, &marker, start) {
                Some(j) => {
                    proof {
                        crate::text::lemma_find_from_is_first(v@, marker@, start as int);
                    }
                    j
                },
                None => v.len(),
            };
            assert(v@.subrange(start as int, v.len() as int) == v@.skip(start as int));
            let section = slice_of(&v, start, stop);
            list_entries(&section)
        },
        None => {
            let none: Vec<String> = Vec::new();
            assert(texts(none@) == Seq::<Seq<char>>::empty());
            Some(none)
        },
    }
}

/// The commands one level below `cmd`, one for each subcommand, in order.
pub open spec fn children(cmd: CmdView, subs: Seq<Seq<char>>) -> Seq<CmdView> {
    Seq::new(subs.len(), |i: int| cmd.child(subs[i]))
}

/// A walk over the commands of a program, each command before its
/// subcommands and the subcommands in the order in which the help lists
/// them. The caller runs each command that `next` hands out and reports back
/// with `record`.
pub struct Walk {
    todo: Vec<Cmd>,
    visited: Vec<Cmd>,
    outputs: Vec<String>,
}

impl Walk {
    /// The commands still to visit, the next one first.
    pub closed spec fn pending(&self) -> Seq<CmdView> {
        Seq::new(self.todo@.len(), |i: int| self.todo@[self.todo@.len() - 1 - i]@)
    }

    /// The commands visited so far, in the order of their visits.
    pub closed spec fn visited(&self) -> Seq<CmdView> {
        views(self.visited@)
    }

    /// The help output of each visited command.
    pub closed spec fn outputs(&self) -> Seq<Seq<char>> {
        texts(self.outputs@)
    }

    /// One output was recorded for each visited command.
    pub closed spec fn wf(&self) -> bool {
        self.visited@.len() == self.outputs@.len()
    }

    /// A walk that starts with `commands`, in their order.
    pub fn start(commands: Vec<Cmd>) -> (w: Walk)
        ensures
            w.wf(),
            w.pending() == views(commands@),
            w.visited().len() == 0,
            w.outputs().len() == 0,
    {
        let mut commands = commands;
        let ghost all = commands@;
        let mut todo: Vec<Cmd> = Vec::new();
        while commands.len() > 0
            invariant
                commands@.len() + todo@.len() == all.len(),
                commands@ == all.take(commands@.len() as int),
                forall|i: int|
                    0 <= i < todo@.len() ==> (#[trigger] todo@[i]) == all[all.len() - 1 - i],
            decreases commands.len(),
        {
            let c = commands.pop().unwrap();
            todo.push(c);
        }
        let w = Walk { todo, visited: Vec::new(), outputs: Vec::new() };
        assert(w.pending() == views(all));
        w
    }

    /// The next command to run, if one is left.
    pub fn next(&mut self) -> (r: Option<Cmd>)
        requires
            old(self).wf(),
        ensures
            final(self).wf(),
            final(self).visited() == old(self).visited(),
            final(self).outputs() == old(self).outputs(),
            match r {
                Some(cmd) => {
                    &&& old(self).pending().len() > 0
                    &&& cmd@ == old(self).pending()[0]
                    &&& final(self).pending() == old(self).pending().skip(1)
                },
                None => old(self).pending().len() == 0 && final(self).pending().len() == 0,
            },
    {
        let r = self.todo.pop();
        proof {
            if r is Some {
                assert(self.pending() == old(self).pending().skip(1));
            }
        }
        r
    }

    /// Records that `cmd` printed `stdout` and lists `subcommands`: they are
    /// visited next, in their order, before what was pending.
    pub fn record(&mut self, cmd: Cmd, stdout: String, subcommands: &Vec<String>)
        requires
            old(self).wf(),
        ensures
            final(self).wf(),
            final(self).pending() == children(cmd@, texts(subcommands@)) + old(self).pending(),
            final(self).visited() == old(self).visited().push(cmd@),
            final(self).outputs() == old(self).outputs().push(stdout@),
    {
        let n = subcommands.len();
        let mut k: usize = n;
        let ghost before = self.todo@;
        while k > 0
            invariant
                k <= n,
                n == subcommands@.len(),
                self.visited == old(self).visited,
                self.outputs == old(self).outputs,
                self.todo@.len() == before.len() + (n - k),
                forall|i: int| 0 <= i < before.len() ==> (#[trigger] self.todo@[i]) == before[i],
                forall|i: int|
                    0 <= i < n - k ==> (#[trigger] self.todo@[before.len() + i])@ == cmd@.child(
                        subcommands@[n - 1 - i]@,
                    ),
            decreases k,
        {
            k -= 1;
            let c = cmd.child(subcommands[k].as_str());
            self.todo.push(c);
        }
        self.visited.push(cmd);
        self.outputs.push(stdout);
        proof {
            let want = children(cmd@, texts(subcommands@)) + old(self).pending();
            assert(self.pending().len() == want.len());
            assert forall|j: int| 0 <= j < want.len() implies self.pending()[j] == want[j] by {
                if j < n {
                    let i = n - 1 - j;
                    assert(self.todo@[before.len() + i]@ == cmd@.child(subcommands@[n - 1 - i]@));
                } else {
                    assert(self.todo@[before.len() + n - 1 - j] == before[before.len() + n - 1
                        - j]);
                }
            }
            assert(self.pending() =~= children(cmd@, texts(subcommands@)) + old(self).pending());
            assert(self.visited() =~= old(self).visited().push(cmd@));
            assert(self.outputs() =~= old(self).outputs().push(stdout@));
        }
    }

    /// The commands visited so far, in the order of their visits.
    pub fn commands(&self) -> (r: &Vec<Cmd>)
        ensures
            views(r@) == self.visited(),
    {
        &self.visited
    }

    /// The help output of the `i`-th visited command.
    pub fn output(&self, i: usize) -> (r: &str)
        requires
            self.wf(),
            i < self.visited().len(),
        ensures
            r@ == self.outputs()[i as int],
    {
        self.outputs[i].as_str()
    }
}

} // verus!
