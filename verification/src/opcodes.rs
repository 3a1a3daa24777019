//! How often each opcode occurs in the bytecode of the contracts in a
//! database.

pub mod sequences;

use std::collections::HashMap;
use vstd::prelude::*;
use vstd::string::StringExecFns;

verus! {

broadcast use vstd::std_specs::hash::group_hash_axioms;

/// The first of the opcodes that push bytes of the code itself.
pub const PUSH1: u8 = 0x60;

/// The last of the opcodes that push bytes of the code itself.
pub const PUSH32: u8 = 0x7f;

/// The opcode that stands for every byte that is no opcode.
pub const INVALID: u8 = 0xfe;

/// Whether `op` is an opcode that `revm`'s table of opcodes defines: whether
/// `OpCode::new` accepts it.
pub uninterp spec fn opcode_defined(op: u8) -> bool;

/// The text that `Display` gives for the opcode that `OpCode::new_or_unknown`
/// makes of `op`: for a defined opcode, its name.
pub uninterp spec fn opcode_text(op: u8) -> Seq<char>;

/// The name of `op`: `None` where `op` is not defined.
pub open spec fn opcode_name(op: u8) -> Option<Seq<char>> {
    if opcode_defined(op) {
        Some(opcode_text(op))
    } else {
        None
    }
}

/// `OpCode::new` of `revm`'s bytecode crate, on `op`. Trusted: the answer is
/// the one named `opcode_defined`.
#[verifier::external_body]
fn is_opcode(op: u8) -> (r: bool)
    ensures
        r == opcode_defined(op),
{
    revm_interpreter::bytecode::opcode::OpCode::new(op).is_some()
}

/// The `Display` of the opcode that `OpCode::new_or_unknown` makes of `op`.
/// Trusted: the result is the text named `opcode_text`.
#[verifier::external_body]
fn display_of(op: u8) -> (r: String)
    ensures
        r@ == opcode_text(op),
{
    revm_interpreter::bytecode::opcode::OpCode::new_or_unknown(op).to_string()
}

/// The name of `op`, if it is defined.
pub fn mnemonic(op: u8) -> (r: Option<String>)
    ensures
        crate::help::pattern::text_of(r) == opcode_name(op),
{
    if is_opcode(op) {
        Some(display_of(op))
    } else {
        None
    }
}

/// The `count-opcodes` command: where the database lies.
pub struct Command {
    db_dir: String,
}

impl Command {
    /// The command for the database in `db_dir`.
    pub fn new(db_dir: &str) -> (c: Command)
        ensures
            c.dir() == db_dir@,
    {
        Command { db_dir: String::from_str(db_dir) }
    }

    /// The directory of the database.
    pub closed spec fn dir(&self) -> Seq<char> {
        self.db_dir@
    }

    /// The directory of the database.
    pub fn db_dir(&self) -> (r: &str)
        ensures
            r@ == self.dir(),
    {
        self.db_dir.as_str()
    }
}

/// The opcode that the byte `b` is counted as: itself where it is defined,
/// `INVALID` where it is not.
pub open spec fn counted_as(b: u8) -> u8 {
    if opcode_defined(b) {
        b
    } else {
        INVALID
    }
}

/// How far the next opcode lies behind `op`: behind a push, the pushed bytes
/// are skipped.
pub open spec fn stride(op: u8) -> int {
    if PUSH1 <= op <= PUSH32 {
        op - PUSH1 + 2
    } else {
        1
    }
}

/// How often `op` is counted in `code` from index `from` on.
pub open spec fn occurrences(code: Seq<u8>, from: int, op: u8) -> nat
    decreases
            (if from < code.len() {
                code.len() - from
            } else {
                0
            }),
{
    if from < 0 || from >= code.len() {
        0
    } else {
        let here = counted_as(code[from]);
        let hit: nat = if here == op {
            1
        } else {
            0
        };
        hit + occurrences(code, from + stride(here), op)
    }
}

/// How many opcodes are counted in `code` from index `from` on.
pub open spec fn opcodes_in(code: Seq<u8>, from: int) -> nat
    decreases
            (if from < code.len() {
                code.len() - from
            } else {
                0
            }),
{
    if from < 0 || from >= code.len() {
        0
    } else {
        1 + opcodes_in(code, from + stride(counted_as(code[from])))
    }
}

/// No more opcodes are counted than there are bytes left.
pub proof fn lemma_opcodes_in_bound(code: Seq<u8>, from: int)
    requires
        0 <= from,
    ensures
        opcodes_in(code, from) <= if from < code.len() {
            code.len() - from
        } else {
            0
        },
    decreases
            (if from < code.len() {
                code.len() - from
            } else {
                0
            }),
{
    if from < code.len() {
        lemma_opcodes_in_bound(code, from + stride(counted_as(code[from])));
    }
}

/// The number of times each opcode was counted.
pub struct OpcodeCounts {
    counts: HashMap<u8, usize>,
    total: usize,
}

impl OpcodeCounts {
    /// How often `op` was counted.
    pub closed spec fn count(&self, op: u8) -> nat {
        if self.counts@.contains_key(op) {
            self.counts@[op] as nat
        } else {
            0
        }
    }

    /// How many opcodes were counted in all.
    pub closed spec fn total(&self) -> nat {
        self.total as nat
    }

    /// No opcode was counted more often than all of them together.
    pub closed spec fn wf(&self) -> bool {
        forall|op: u8| #[trigger] self.counts@.contains_key(op) ==> self.counts@[op] <= self.total
    }

    /// No opcode was counted more often than all of them together.
    pub proof fn lemma_count_bound(&self, op: u8)
        requires
            self.wf(),
        ensures
            self.count(op) <= self.total(),
    {
    }

    /// Nothing counted.
    pub fn new() -> (c: OpcodeCounts)
        ensures
            c.wf(),
            c.total() == 0,
            forall|op: u8| c.count(op) == 0,
    {
        OpcodeCounts { counts: HashMap::new(), total: 0 }
    }

    /// How often `op` was counted.
    pub fn get(&self, op: u8) -> (n: usize)
        ensures
            n == self.count(op),
    {
        match self.counts.get(&op) {
            Some(n) => *n,
            None => 0,
        }
    }

    /// How many opcodes were counted in all.
    pub fn sum(&self) -> (n: usize)
        ensures
            n == self.total(),
    {
        self.total
    }

    /// Counts `op` once more.
    fn bump(&mut self, op: u8)
        requires
            old(self).wf(),
            old(self).total() < usize::MAX,
        ensures
            final(self).wf(),
            final(self).total() == old(self).total() + 1,
            forall|o: u8|
                final(self).count(o) == old(self).count(o) + if o == op {
                    1nat
                } else {
                    0nat
                },
    {
        let n = self.get(op);
        self.counts.insert(op, n + 1);
        self.total = self.total + 1;
    }

    /// Counts the opcodes of `code`. A byte that is no opcode counts as
    /// `INVALID`, and the bytes that a push carries are not counted.
    pub fn count_opcodes(&mut self, code: &Vec<u8>)
        requires
            old(self).wf(),
            old(self).total() + code@.len() <= usize::MAX,
        ensures
            final(self).wf(),
            final(self).total() == old(self).total() + opcodes_in(code@, 0),
            forall|op: u8| final(self).count(op) == old(self).count(op) + occurrences(code@, 0, op),
    {
        let mut i: usize = 0;
        proof {
            lemma_opcodes_in_bound(code@, 0);
        }
        while i < code.len()
            invariant
                self.wf(),
                old(self).total() + code@.len() <= usize::MAX,
                self.total() + opcodes_in(code@, i as int) == old(self).total() + opcodes_in(
                    code@,
                    0,
                ),
                forall|op: u8|
                    self.count(op) + occurrences(code@, i as int, op) == old(self).count(op)
                        + occurrences(code@, 0, op),
            decreases
                    (if i < code.len() {
                        code.len() - i
                    } else {
                        0
                    }),
        {
            let b = code[i];
            let op = if is_opcode(b) {
                b
            } else {
                INVALID
            };
            proof {
                lemma_opcodes_in_bound(code@, i as int);
                lemma_opcodes_in_bound(code@, 0);
            }
            let ghost before = *self;
            self.bump(op);
            let step: usize = if PUSH1 <= op && op <= PUSH32 {
                (op - PUSH1) as usize + 2
            } else {
                1
            };
            let ghost at = i as int;
            i = if step <= code.len() - i {
                i + step
            } else {
                code.len()
            };
            proof {
                assert(step == stride(counted_as(code@[at])));
                assert(opcodes_in(code@, at + step) == opcodes_in(code@, i as int));
                assert forall|o: u8|
                    self.count(o) + occurrences(code@, i as int, o) == old(self).count(o)
                        + occurrences(code@, 0, o) by {
                    assert(occurrences(code@, at + step, o) == occurrences(code@, i as int, o));
                    assert(before.count(o) + occurrences(code@, at, o) == old(self).count(o)
                        + occurrences(code@, 0, o));
                }
            }
        }
    }

    /// The lines of the report for the opcodes below `k`.
    pub open spec fn lines_below(&self, k: int) -> Seq<Seq<char>>
        decreases k,
    {
        if k <= 0 {
            Seq::empty()
        } else {
            let op = (k - 1) as u8;
            if self.count(op) > 0 {
                self.lines_below(k - 1).push(line_of(opcode_name(op), op, self.count(op)))
            } else {
                self.lines_below(k - 1)
            }
        }
    }

    /// The report, one line for each opcode that was counted, by ascending
    /// opcode: the name of the opcode, or its number where it has no name,
    /// then a colon, a space and the count.
    pub fn report(&self) -> (lines: Vec<String>)
        ensures
            crate::help::command::texts(lines@) == self.lines_below(256),
    {
        let mut lines: Vec<String> = Vec::new();
        let mut op: u8 = 0;
        assert(crate::help::command::texts(lines@) =~= self.lines_below(0));
        loop
            invariant_except_break
                crate::help::command::texts(lines@) == self.lines_below(op as int),
            ensures
                crate::help::command::texts(lines@) == self.lines_below(256),
            decreases 255 - op,
        {
            let n = self.get(op);
            let ghost before = crate::help::command::texts(lines@);
            if n > 0 {
                let line = report_line(mnemonic(op), op, n);
                lines.push(line);
                assert(crate::help::command::texts(lines@) =~= before.push(line@));
            }
            assert(crate::help::command::texts(lines@) == self.lines_below(op + 1));
            if op == 255 {
                break ;
            }
            op += 1;
        }
        lines
    }
}

/// The decimal digit for `d`.
pub open spec fn digit(d: int) -> char {
    if d == 0 {
        '0'
    } else if d == 1 {
        '1'
    } else if d == 2 {
        '2'
    } else if d == 3 {
        '3'
    } else if d == 4 {
        '4'
    } else if d == 5 {
        '5'
    } else if d == 6 {
        '6'
    } else if d == 7 {
        '7'
    } else if d == 8 {
        '8'
    } else {
        '9'
    }
}

/// The decimal digits of `n`, without leading zeros.
pub open spec fn decimal(n: nat) -> Seq<char>
    decreases n,
{
    if n < 10 {
        seq![digit(n as int)]
    } else {
        decimal(n / 10).push(digit((n % 10) as int))
    }
}

/// Appends the decimal digits of `n` to `out`.
pub fn push_decimal(out: &mut String, n: usize)
    ensures
        final(out)@ == old(out)@ + decimal(n as nat),
    decreases n,
{
    if n >= 10 {
        push_decimal(out, n / 10);
    }
    let d = n % 10;
    let c = if d == 0 {
        '0'
    } else if d == 1 {
        '1'
    } else if d == 2 {
        '2'
    } else if d == 3 {
        '3'
    } else if d == 4 {
        '4'
    } else if d == 5 {
        '5'
    } else if d == 6 {
        '6'
    } else if d == 7 {
        '7'
    } else if d == 8 {
        '8'
    } else {
        '9'
    };
    out.push(c);
    proof {
        if n >= 10 {
            assert(out@ =~= old(out)@ + decimal((n / 10) as nat).push(digit((n % 10) as int)));
        } else {
            assert(out@ =~= old(out)@ + seq![digit(n as int)]);
        }
    }
}

/// A line of the report: the name, or the number of the opcode where there
/// is no name, then a colon, a space and the count.
pub open spec fn line_of(name: Option<Seq<char>>, op: u8, n: nat) -> Seq<char> {
    (match name {
        Some(text) => text,
        None => decimal(op as nat),
    }) + seq![':', ' '] + decimal(n)
}

/// The line of the report for the opcode `op`, counted `n` times, whose
/// name is `name`.
pub fn report_line(name: Option<String>, op: u8, n: usize) -> (r: String)
    ensures
        r@ == line_of(crate::help::pattern::text_of(name), op, n as nat),
{
    let mut out = match name {
        Some(text) => text,
        None => {
            let mut number = String::new();
            push_decimal(&mut number, op as usize);
            number
        },
    };
    let ghost head = out@;
    out.push(':');
    out.push(' ');
    assert(out@ =~= head + seq![':', ' ']);
    push_decimal(&mut out, n);
    out
}

} // verus!
