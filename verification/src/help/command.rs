//! A command of the program under documentation: the binary and the
//! subcommands that lead to it.

use crate::text::chars_of;
use vstd::prelude::*;
use vstd::string::StringExecFns;

verus! {

/// The characters of each string of `v`.
pub open spec fn texts(v: Seq<String>) -> Seq<Seq<char>> {
    v.map_values(|s: String| s@)
}

/// The parts with `sep` between each two neighbours, as `join` gives them.
pub open spec fn joined(parts: Seq<Seq<char>>, sep: Seq<char>) -> Seq<char>
    decreases parts.len(),
{
    if parts.len() == 0 {
        Seq::empty()
    } else if parts.len() == 1 {
        parts[0]
    } else {
        joined(parts.drop_last(), sep) + sep + parts.last()
    }
}

/// What a `Cmd` stands for.
pub struct CmdView {
    /// The path to the binary, as it was given.
    pub path: Seq<char>,
    /// The binary's file name.
    pub name: Seq<char>,
    /// The subcommands, outermost first.
    pub subcommands: Seq<Seq<char>>,
}

impl CmdView {
    /// The command as it is typed: the binary's name, then the subcommands,
    /// separated by single spaces.
    pub open spec fn display(self) -> Seq<char> {
        if self.subcommands.len() == 0 {
            self.name
        } else {
            self.name + seq![' '] + joined(self.subcommands, seq![' '])
        }
    }

    /// The command one level down, for the subcommand `sub`.
    pub open spec fn child(self, sub: Seq<char>) -> CmdView {
        CmdView { path: self.path, name: self.name, subcommands: self.subcommands.push(sub) }
    }
}

/// A binary, and the subcommands that select one of its commands.
pub struct Cmd {
    path: String,
    name: String,
    subcommands: Vec<String>,
}

impl View for Cmd {
    type V = CmdView;

    closed spec fn view(&self) -> CmdView {
        CmdView { path: self.path@, name: self.name@, subcommands: texts(self.subcommands@) }
    }
}

/// `std::path::Path::file_name` on `path`, as text. What counts as the final
/// component is the platform's decision, so nothing is claimed of the result.
#[verifier::external_body]
fn file_name_of(path: &str) -> Option<String> {
    std::path::Path::new(path).file_name().and_then(|name| name.to_str()).map(String::from)
}

/// A copy of `v`.
pub fn clone_strings(v: &Vec<String>) -> (out: Vec<String>)
    ensures
        out@ == v@,
{
    let mut out: Vec<String> = Vec::new();
    let mut i: usize = 0;
    while i < v.len()
        invariant
            i <= v.len(),
            out@ == v@.take(i as int),
        decreases v.len() - i,
    {
        out.push(v[i].clone());
        i += 1;
        assert(v@.take(i as int) == v@.take(i - 1).push(v@[i - 1]));
    }
    assert(v@.take(v.len() as int) == v@);
    out
}

/// Appends, to `out`, the strings of `parts` with `sep` between them.
pub fn push_joined(out: &mut String, parts: &Vec<String>, sep: char)
    ensures
        final(out)@ == old(out)@ + joined(texts(parts@), seq![sep]),
{
    let mut i: usize = 0;
    while i < parts.len()
        invariant
            i <= parts.len(),
            out@ == old(out)@ + joined(texts(parts@).take(i as int), seq![sep]),
        decreases parts.len() - i,
    {
        if i > 0 {
            out.push(sep);
        }
        out.append(parts[i].as_str());
        proof {
            let all = texts(parts@);
            let now = all.take(i + 1);
            assert(now.drop_last() == all.take(i as int));
            assert(now.last() == parts@[i as int]@);
        }
        i += 1;
    }
    assert(texts(parts@).take(parts.len() as int) == texts(parts@));
}

impl Cmd {
    /// The command for the binary at `path`, whose file name is `name`, with
    /// no subcommands: `None` where the path has no file name.
    pub fn named(path: &str, name: Option<String>) -> (r: Option<Cmd>)
        ensures
            match name {
                Some(n) => r matches Some(cmd) && cmd@ == (CmdView {
                    path: path@,
                    name: n@,
                    subcommands: Seq::empty(),
                }),
                None => r is None,
            },
    {
        match name {
            Some(n) => {
                let cmd = Cmd { path: String::from_str(path), name: n, subcommands: Vec::new() };
                assert(texts(cmd.subcommands@) == Seq::<Seq<char>>::empty());
                Some(cmd)
            },
            None => None,
        }
    }

    /// The command for the binary at `path`, with no subcommands. The name is
    /// the final component of the path, by the rules of the platform; a path
    /// without one (such as `..`) names no command.
    pub fn new(path: &str) -> (r: Option<Cmd>)
        ensures
            r matches Some(cmd) ==> cmd@.path == path@ && cmd@.subcommands.len() == 0,
    {
        Cmd::named(path, file_name_of(path))
    }

    /// The binary's file name.
    pub fn command_name(&self) -> (r: &str)
        ensures
            r@ == self@.name,
    {
        self.name.as_str()
    }

    /// The path to the binary.
    pub fn path(&self) -> (r: &str)
        ensures
            r@ == self@.path,
    {
        self.path.as_str()
    }

    /// How many subcommands lead to this command.
    pub fn depth(&self) -> (r: usize)
        ensures
            r == self@.subcommands.len(),
    {
        self.subcommands.len()
    }

    /// The subcommands, outermost first.
    pub fn subcommands(&self) -> (r: Vec<String>)
        ensures
            texts(r@) == self@.subcommands,
    {
        clone_strings(&self.subcommands)
    }

    /// The command one level down, for the subcommand `sub`.
    pub fn child(&self, sub: &str) -> (r: Cmd)
        ensures
            r@ == self@.child(sub@),
    {
        let mut subcommands = clone_strings(&self.subcommands);
        subcommands.push(String::from_str(sub));
        let r = Cmd { path: self.path.clone(), name: self.name.clone(), subcommands };
        assert(texts(r.subcommands@) =~= texts(self.subcommands@).push(sub@));
        r
    }

    /// The command as it is typed: the name and the subcommands, separated
    /// by single spaces.
    pub fn to_string(&self) -> (r: String)
        ensures
            r@ == self@.display(),
    {
        let mut out = String::from_str(self.name.as_str());
        if self.subcommands.len() > 0 {
            out.push(' ');
            push_joined(&mut out, &self.subcommands, ' ');
        }
        out
    }
}

/// `s` with every `from` replaced by `to`.
pub open spec fn replaced_char(s: Seq<char>, from: char, to: char) -> Seq<char> {
    s.map_values(|c: char| if c == from { to } else { c })
}

/// Appends `s` to `out`, with every `from` replaced by `to`.
pub fn push_replaced(out: &mut String, s: &str, from: char, to: char)
    ensures
        final(out)@ == old(out)@ + replaced_char(s@, from, to),
{
    let v = chars_of(s);
    let mut i: usize = 0;
    while i < v.len()
        invariant
            i <= v.len(),
            v@ == s@,
            out@ == old(out)@ + replaced_char(s@, from, to).take(i as int),
        decreases v.len() - i,
    {
        let c = v[i];
        out.push(if c == from { to } else { c });
        proof {
            let r = replaced_char(s@, from, to);
            assert(r.take(i + 1) == r.take(i as int).push(r[i as int]));
        }
        i += 1;
    }
    assert(replaced_char(s@, from, to).take(v.len() as int) == replaced_char(s@, from, to));
}

/// `n` copies of `c`.
pub open spec fn repeated(c: char, n: nat) -> Seq<char> {
    Seq::new(n, |i: int| c)
}

/// Appends `n` copies of `c` to `out`.
pub fn push_repeated(out: &mut String, c: char, n: usize)
    ensures
        final(out)@ == old(out)@ + repeated(c, n as nat),
{
    let mut i: usize = 0;
    while i < n
        invariant
            i <= n,
            out@ == old(out)@ + repeated(c, i as nat),
        decreases n - i,
    {
        out.push(c);
        assert(repeated(c, (i + 1) as nat) == repeated(c, i as nat).push(c));
        i += 1;
    }
}

} // verus!
