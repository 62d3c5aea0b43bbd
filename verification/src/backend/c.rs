//! The translation of a program to C source text, held in memory.

use vstd::prelude::*;
use vstd::string::StringSliceAdditionalSpecFns;
use crate::backend::answers;
use crate::backend::used;
use crate::backend::atom_walked;
use crate::backend::loop_walked;
use crate::backend::passes;
use crate::backend::walked;
use crate::backend::Backend;
use crate::ir::lemma_loop_model;
use crate::ir::Atom;
use crate::ir::SpecAtom;
use crate::semantics::MEM_SIZE;

verus! {

/// The decimal digits of a natural number, as ASCII bytes.
pub open spec fn digits(n: nat) -> Seq<u8>
    decreases n,
{
    if n < 10 {
        seq![(48 + n) as u8]
    } else {
        digits(n / 10).push((48 + n % 10) as u8)
    }
}

/// An integer in decimal, with a minus sign if it is negative.
pub open spec fn decimal(n: int) -> Seq<u8> {
    if n < 0 {
        seq![45u8] + digits((-n) as nat)
    } else {
        digits(n as nat)
    }
}

/// The indentation of a line at the given depth: one tab for each level.
pub open spec fn indent(tab: nat) -> Seq<u8> {
    Seq::new(tab, |i: int| 9u8)
}

/// The statement that stands for an atom other than a loop, without
/// indentation or end of line.
pub open spec fn statement(a: SpecAtom) -> Seq<u8> {
    match a {
        SpecAtom::MovePtr(o) => "ptr += ".spec_bytes() + decimal(o as int) + ";".spec_bytes(),
        SpecAtom::SetValue(v, o) => "*(ptr + ".spec_bytes() + decimal(o as int) + ") = ".spec_bytes()
            + decimal(v as int) + ";".spec_bytes(),
        SpecAtom::IncValue(d, o) => "*(ptr + ".spec_bytes() + decimal(o as int)
            + ") += ".spec_bytes() + decimal(d as int) + ";".spec_bytes(),
        SpecAtom::Print(o) => "putchar(*(ptr + ".spec_bytes() + decimal(o as int)
            + "));".spec_bytes(),
        SpecAtom::Read(o) => "*(ptr + ".spec_bytes() + decimal(o as int)
            + ") = getchar();".spec_bytes(),
        SpecAtom::Multiply(f, o) => "*(ptr + ".spec_bytes() + decimal(o as int)
            + ") += *(ptr) * ".spec_bytes() + decimal(f as int) + ";".spec_bytes(),
        SpecAtom::Loop(_) => Seq::empty(),
    }
}

/// A line: indentation, text, end of line.
pub open spec fn line(tab: nat, text: Seq<u8>) -> Seq<u8> {
    indent(tab) + text + seq![10u8]
}

/// The line that opens a loop.
pub open spec fn loop_head(tab: nat) -> Seq<u8> {
    line(tab, "while(*ptr) {".spec_bytes())
}

/// The line that closes a loop or the main function.
pub open spec fn block_end(tab: nat) -> Seq<u8> {
    line(tab, "}".spec_bytes())
}

/// The lines that stand for one atom at the given depth.
pub open spec fn c_atom(a: SpecAtom, tab: nat) -> Seq<u8>
    decreases a,
{
    match a {
        SpecAtom::Loop(body) => loop_head(tab) + c_block(body, tab + 1) + block_end(tab),
        _ => line(tab, statement(a)),
    }
}

/// The lines that stand for a sequence of atoms at the given depth.
pub open spec fn c_block(prog: Seq<SpecAtom>, tab: nat) -> Seq<u8>
    decreases prog,
{
    if prog.len() == 0 {
        Seq::empty()
    } else {
        c_block(prog.drop_last(), tab) + c_atom(prog.last(), tab)
    }
}

/// The lines before the statements of the program.
pub open spec fn c_header() -> Seq<u8> {
    line(0, "#include <stdlib.h>".spec_bytes()) + line(0, "#include <stdio.h>".spec_bytes()) + line(
        0,
        "#include <stdint.h>".spec_bytes(),
    ) + line(0, "int8_t memory[".spec_bytes() + decimal(MEM_SIZE as int) + "];".spec_bytes())
        + line(0, "int8_t* ptr = memory;".spec_bytes()) + line(0, "int main() {".spec_bytes())
}

/// The C source text of a program.
pub open spec fn c_program(prog: Seq<SpecAtom>) -> Seq<u8> {
    c_header() + c_block(prog, 1) + block_end(0)
}

/// Appends the bytes of a string.
fn write_str(out: &mut Vec<u8>, s: &str)
    ensures
        final(out)@ == old(out)@ + s.spec_bytes(),
{
    let bytes = s.as_bytes();
    let mut i: usize = 0;
    while i < bytes.len()
        invariant
            i <= bytes.len(),
            bytes@ == s.spec_bytes(),
            out@ == old(out)@ + bytes@.take(i as int),
        decreases bytes.len() - i,
    {
        out.push(bytes[i]);
        proof {
            assert(bytes@.take(i as int + 1) =~= bytes@.take(i as int).push(bytes@[i as int]));
        }
        i += 1;
    }
    proof {
        assert(bytes@.take(bytes.len() as int) =~= bytes@);
    }
}

/// Appends the decimal digits of a number.
fn write_digits(out: &mut Vec<u8>, n: usize)
    ensures
        final(out)@ == old(out)@ + digits(n as nat),
    decreases n,
{
    if n >= 10 {
        write_digits(out, n / 10);
    }
    let d: u8 = (n % 10) as u8;
    out.push(48 + d);
}

/// Appends an integer in decimal.
fn write_decimal(out: &mut Vec<u8>, n: isize)
    ensures
        final(out)@ == old(out)@ + decimal(n as int),
{
    if n < 0 {
        out.push(45);
        let below: isize = -(n + 1);
        let magnitude: usize = below as usize + 1;
        write_digits(out, magnitude);
    } else {
        write_digits(out, n as usize);
    }
}

/// Appends an end of line.
fn write_newline(out: &mut Vec<u8>)
    ensures
        final(out)@ == old(out)@ + seq![10u8],
{
    out.push(10);
}

/// A translator to C: the text written so far, and the depth of the line
/// that comes next.
pub struct CBackend {
    writer: Vec<u8>,
    current_tab: usize,
}

impl CBackend {
    /// The text written so far.
    pub closed spec fn text(&self) -> Seq<u8> {
        self.writer@
    }

    /// The depth of the next line.
    pub closed spec fn tab(&self) -> nat {
        self.current_tab as nat
    }

    /// A translator that appends to `writer`, at the depth of the statements
    /// of the main function.
    pub fn new(writer: Vec<u8>) -> (b: Self)
        ensures
            b.text() == writer@,
            b.tab() == 1,
    {
        CBackend { writer, current_tab: 1 }
    }

    /// The text, handed back.
    pub fn into_writer(self) -> (writer: Vec<u8>)
        ensures
            writer@ == self.text(),
    {
        self.writer
    }

    /// Writes the indentation of a line.
    pub fn write_tab(&mut self)
        ensures
            final(self).text() == old(self).text() + indent(old(self).tab()),
            final(self).tab() == old(self).tab(),
    {
        let mut i: usize = 0;
        while i < self.current_tab
            invariant
                i <= self.current_tab,
                self.current_tab == old(self).current_tab,
                self.writer@ == old(self).writer@ + indent(i as nat),
            decreases self.current_tab - i,
        {
            self.writer.push(9);
            proof {
                assert(indent((i + 1) as nat) =~= indent(i as nat).push(9u8));
            }
            i += 1;
        }
    }

    /// Writes the line of an atom other than a loop.
    pub fn write_statement(&mut self, atom: &Atom)
        requires
            !(atom.deep_view() is Loop),
        ensures
            final(self).text() == old(self).text() + line(
                old(self).tab(),
                statement(atom.deep_view()),
            ),
            final(self).tab() == old(self).tab(),
    {
        self.write_tab();
        let ghost start = self.writer@;
        match atom {
            Atom::MovePtr(offset) => {
                write_str(&mut self.writer, "ptr += ");
                write_decimal(&mut self.writer, *offset);
                write_str(&mut self.writer, ";");
            },
            Atom::SetValue(value, offset) => {
                write_str(&mut self.writer, "*(ptr + ");
                write_decimal(&mut self.writer, *offset);
                write_str(&mut self.writer, ") = ");
                write_decimal(&mut self.writer, *value as isize);
                write_str(&mut self.writer, ";");
            },
            Atom::IncValue(inc, offset) => {
                write_str(&mut self.writer, "*(ptr + ");
                write_decimal(&mut self.writer, *offset);
                write_str(&mut self.writer, ") += ");
                write_decimal(&mut self.writer, *inc as isize);
                write_str(&mut self.writer, ";");
            },
            Atom::Print(offset) => {
                write_str(&mut self.writer, "putchar(*(ptr + ");
                write_decimal(&mut self.writer, *offset);
                write_str(&mut self.writer, "));");
            },
            Atom::Read(offset) => {
                write_str(&mut self.writer, "*(ptr + ");
                write_decimal(&mut self.writer, *offset);
                write_str(&mut self.writer, ") = getchar();");
            },
            Atom::Multiply(factor, offset) => {
                write_str(&mut self.writer, "*(ptr + ");
                write_decimal(&mut self.writer, *offset);
                write_str(&mut self.writer, ") += *(ptr) * ");
                write_decimal(&mut self.writer, *factor as isize);
                write_str(&mut self.writer, ";");
            },
            Atom::Loop(_) => {},
        }
        proof {
            assert(self.writer@ =~= start + statement(atom.deep_view()));
        }
        write_newline(&mut self.writer);
        proof {
            assert(self.writer@ =~= old(self).writer@ + line(
                old(self).tab(),
                statement(atom.deep_view()),
            ));
        }
    }

    /// Writes the line that opens a loop; the lines that follow are one level deeper.
    pub fn open_loop(&mut self)
        ensures
            final(self).text() == old(self).text() + loop_head(old(self).tab()),
            final(self).tab() == old(self).tab() + 1,
    {
        self.write_tab();
        write_str(&mut self.writer, "while(*ptr) {");
        write_newline(&mut self.writer);
        proof {
            assert(self.writer@ =~= old(self).writer@ + loop_head(old(self).tab()));
            assert(loop_head(old(self).tab()).len() > old(self).tab());
            assert(self.writer@.len() == self.writer.len());
        }
        self.current_tab += 1;
    }

    /// Goes one level up, unless at the top already, and writes the line that
    /// closes a block.
    pub fn close_block(&mut self)
        ensures
            final(self).tab() == if old(self).tab() > 0 {
                (old(self).tab() - 1) as nat
            } else {
                0
            },
            final(self).text() == old(self).text() + block_end(final(self).tab()),
    {
        if self.current_tab > 0 {
            self.current_tab -= 1;
        }
        self.write_tab();
        write_str(&mut self.writer, "}");
        write_newline(&mut self.writer);
        proof {
            assert(self.writer@ =~= old(self).writer@ + block_end(self.tab()));
        }
    }

    /// Writes the lines before the statements of the program.
    pub fn generate_header(&mut self) -> (r: Result<(), std::io::Error>)
        ensures
            r is Ok,
            final(self).text() == old(self).text() + c_header(),
            final(self).tab() == old(self).tab(),
    {
        let ghost start = self.writer@;
        write_str(&mut self.writer, "#include <stdlib.h>");
        write_newline(&mut self.writer);
        write_str(&mut self.writer, "#include <stdio.h>");
        write_newline(&mut self.writer);
        write_str(&mut self.writer, "#include <stdint.h>");
        write_newline(&mut self.writer);
        write_str(&mut self.writer, "int8_t memory[");
        write_digits(&mut self.writer, MEM_SIZE);
        write_str(&mut self.writer, "];");
        write_newline(&mut self.writer);
        write_str(&mut self.writer, "int8_t* ptr = memory;");
        write_newline(&mut self.writer);
        write_str(&mut self.writer, "int main() {");
        write_newline(&mut self.writer);
        proof {
            assert(indent(0) =~= Seq::<u8>::empty());
            assert(self.writer@ =~= start + c_header());
        }
        Ok(())
    }

    /// Writes the line that closes the main function.
    pub fn generate_footer(&mut self) -> (r: Result<(), std::io::Error>)
        ensures
            r is Ok,
            final(self).text() == old(self).text() + block_end(0),
            final(self).tab() == old(self).tab(),
    {
        write_str(&mut self.writer, "}");
        write_newline(&mut self.writer);
        proof {
            assert(indent(0) =~= Seq::<u8>::empty());
            assert(self.writer@ =~= old(self).writer@ + block_end(0));
        }
        Ok(())
    }

    /// Writes the lines that stand for a sequence of atoms.
    pub fn generate(&mut self, ir: &Vec<Atom>) -> (r: Result<(), std::io::Error>)
        ensures
            r is Ok,
            final(self).text() == old(self).text() + c_block(ir.deep_view(), old(self).tab()),
            final(self).tab() == old(self).tab(),
        decreases ir,
    {
        let ghost prog = ir.deep_view();
        let ghost tab = self.tab();
        let ghost start = self.text();
        let mut i: usize = 0;
        proof {
            assert(start + c_block(prog.take(0), tab) =~= start);
        }
        while i < ir.len()
            invariant
                i <= ir.len(),
                prog == ir.deep_view(),
                self.tab() == tab,
                self.text() == start + c_block(prog.take(i as int), tab),
            decreases ir.len() - i,
        {
            let ghost before = self.text();
            proof {
                assert(prog.take(i as int + 1).drop_last() =~= prog.take(i as int));
                assert(prog.take(i as int + 1).last() == ir[i as int].deep_view());
            }
            match &ir[i] {
                Atom::Loop(sub) => {
                    proof {
                        lemma_loop_model(*sub);
                    }
                    self.open_loop();
                    let _ = self.generate(sub);
                    self.close_block();
                    proof {
                        assert(self.text() =~= before + c_atom(ir[i as int].deep_view(), tab));
                    }
                },
                atom => {
                    self.write_statement(atom);
                },
            }
            proof {
                assert(self.text() =~= start + c_block(prog.take(i as int + 1), tab));
            }
            i += 1;
        }
        proof {
            assert(prog.take(prog.len() as int) =~= prog);
        }
        Ok(())
    }
}

impl Backend for CBackend {
    type Payload = Vec<u8>;

    type Error = std::io::Error;

    open spec fn ready(&self) -> bool {
        true
    }

    open spec fn initialized(pre: Self, post: Self, r: Result<(), std::io::Error>) -> bool {
        r is Ok && post.tab() == pre.tab() && post.text() == pre.text() + c_header()
    }

    open spec fn handled(pre: Self, atom: SpecAtom, post: Self, r: Result<(), std::io::Error>) -> bool {
        r is Ok && post.tab() == pre.tab() && post.text() == pre.text() + line(
            pre.tab(),
            statement(atom),
        )
    }

    open spec fn loop_handled(
        pre: Self,
        body: Seq<SpecAtom>,
        rounds: usize,
        post: Self,
        r: Result<bool, std::io::Error>,
    ) -> bool {
        if rounds == 0 {
            &&& r == Ok::<bool, std::io::Error>(true)
            &&& post.tab() == pre.tab() + 1
            &&& post.text() == pre.text() + loop_head(pre.tab())
        } else {
            &&& r == Ok::<bool, std::io::Error>(false)
            &&& post.tab() == if pre.tab() > 0 {
                (pre.tab() - 1) as nat
            } else {
                0
            }
            &&& post.text() == pre.text() + block_end(post.tab())
        }
    }

    open spec fn finalized(pre: Self, r: Result<Vec<u8>, std::io::Error>) -> bool {
        r is Ok && r->Ok_0@ == pre.text() + block_end(0)
    }

    /// Writes the lines before the statements of the program.
    fn initialize(&mut self) -> (r: Result<(), std::io::Error>) {
        self.generate_header()
    }

    /// Writes the line that closes the main function and hands out the text.
    fn finalize(self) -> (r: Result<Vec<u8>, std::io::Error>) {
        let mut this = self;
        let _ = this.generate_footer();
        Ok(this.into_writer())
    }

    fn push_move_ptr(&mut self, offset: isize) -> (r: Result<(), std::io::Error>) {
        self.write_statement(&Atom::MovePtr(offset));
        Ok(())
    }

    fn push_set_value(&mut self, value: u8, offset: isize) -> (r: Result<(), std::io::Error>) {
        self.write_statement(&Atom::SetValue(value, offset));
        Ok(())
    }

    fn push_inc_value(&mut self, inc: i8, offset: isize) -> (r: Result<(), std::io::Error>) {
        self.write_statement(&Atom::IncValue(inc, offset));
        Ok(())
    }

    fn push_print(&mut self, offset: isize) -> (r: Result<(), std::io::Error>) {
        self.write_statement(&Atom::Print(offset));
        Ok(())
    }

    fn push_read(&mut self, offset: isize) -> (r: Result<(), std::io::Error>) {
        self.write_statement(&Atom::Read(offset));
        Ok(())
    }

    fn push_multiply(&mut self, factor: i8, offset: isize) -> (r: Result<(), std::io::Error>) {
        self.write_statement(&Atom::Multiply(factor, offset));
        Ok(())
    }

    /// Before the first round, opens the loop and asks for its body; after
    /// it, closes the loop.
    fn push_loop(&mut self, sub: &Vec<Atom>, rounds: usize) -> (r: Result<bool, std::io::Error>) {
        if rounds == 0 {
            self.open_loop();
            Ok(true)
        } else {
            self.close_block();
            Ok(false)
        }
    }
}

/// A walk over the translator writes the lines of the program at the depth
/// at which it starts, never fails, and ends at that depth.
pub proof fn lemma_walk_writes(
    pre: CBackend,
    prog: Seq<SpecAtom>,
    post: CBackend,
    r: Result<(), std::io::Error>,
)
    requires
        walked(pre, prog, post, r),
    ensures
        r is Ok,
        post.tab() == pre.tab(),
        post.text() == pre.text() + c_block(prog, pre.tab()),
    decreases prog, 0int, 0int,
{
    if prog.len() == 0 {
        assert(pre.text() + c_block(prog, pre.tab()) =~= pre.text());
    } else {
        let (mid, r1) = choose|mid: CBackend, r1: Result<(), std::io::Error>|
            {
                &&& #[trigger] passes(mid, r1)
                &&& walked(pre, prog.drop_last(), mid, r1)
                &&& match r1 {
                    Err(e) => post == mid && r == r1,
                    Ok(_) => atom_walked(mid, prog.last(), post, r),
                }
            };
        lemma_walk_writes(pre, prog.drop_last(), mid, r1);
        lemma_atom_walk_writes(mid, prog.last(), post, r);
        assert(post.text() =~= pre.text() + c_block(prog, pre.tab()));
    }
}

/// A walk over one atom writes the lines of the atom.
pub proof fn lemma_atom_walk_writes(
    pre: CBackend,
    atom: SpecAtom,
    post: CBackend,
    r: Result<(), std::io::Error>,
)
    requires
        atom_walked(pre, atom, post, r),
    ensures
        r is Ok,
        post.tab() == pre.tab(),
        post.text() == pre.text() + c_atom(atom, pre.tab()),
    decreases atom, 0int, 0int,
{
    match atom {
        SpecAtom::Loop(body) => {
            let (opened, t) = choose|asked: CBackend, t: Result<bool, std::io::Error>|
                {
                    &&& #[trigger] answers(asked, t)
                    &&& CBackend::loop_handled(pre, body, 0, asked, t)
                    &&& match t {
                        Err(e) => post == asked && r == Err::<(), std::io::Error>(e),
                        Ok(again) => if !again {
                            post == asked && r is Ok
                        } else {
                            &&& 0 < usize::MAX
                            &&& exists|after: CBackend, r2: Result<(), std::io::Error>|
                                {
                                    &&& #[trigger] passes(after, r2)
                                    &&& walked(asked, body, after, r2)
                                    &&& match r2 {
                                        Err(e) => post == after && r == r2,
                                        Ok(_) => loop_walked(after, body, 1usize, post, r),
                                    }
                                }
                        },
                    }
                };
            let (after, r2) = choose|after: CBackend, r2: Result<(), std::io::Error>|
                {
                    &&& #[trigger] passes(after, r2)
                    &&& walked(opened, body, after, r2)
                    &&& match r2 {
                        Err(e) => post == after && r == r2,
                        Ok(_) => loop_walked(after, body, 1usize, post, r),
                    }
                };
            lemma_walk_writes(opened, body, after, r2);
            let (closed, t2) = choose|asked: CBackend, t: Result<bool, std::io::Error>|
                {
                    &&& #[trigger] answers(asked, t)
                    &&& CBackend::loop_handled(after, body, 1, asked, t)
                    &&& match t {
                        Err(e) => post == asked && r == Err::<(), std::io::Error>(e),
                        Ok(again) => if !again {
                            post == asked && r is Ok
                        } else {
                            &&& 1 < usize::MAX
                            &&& exists|later: CBackend, r3: Result<(), std::io::Error>|
                                {
                                    &&& #[trigger] passes(later, r3)
                                    &&& walked(asked, body, later, r3)
                                    &&& match r3 {
                                        Err(e) => post == later && r == r3,
                                        Ok(_) => loop_walked(later, body, 2usize, post, r),
                                    }
                                }
                        },
                    }
                };
            assert(post.text() =~= pre.text() + c_atom(atom, pre.tab()));
        },
        _ => {},
    }
}

/// `use_backend` on a translator hands out the text it held with the C
/// source text of the program behind it, if it starts at the depth of the
/// statements of the main function.
pub proof fn law_use_writes(pre: CBackend, prog: Seq<SpecAtom>, r: Result<Vec<u8>, std::io::Error>)
    requires
        pre.tab() == 1,
        used(pre, prog, r),
    ensures
        r is Ok,
        r->Ok_0@ == pre.text() + c_program(prog),
{
    let (started, r0) = choose|started: CBackend, r0: Result<(), std::io::Error>|
        {
            &&& #[trigger] passes(started, r0)
            &&& CBackend::initialized(pre, started, r0)
            &&& match r0 {
                Err(e) => r == Err::<Vec<u8>, std::io::Error>(e),
                Ok(_) => exists|ended: CBackend, r1: Result<(), std::io::Error>|
                    {
                        &&& #[trigger] passes(ended, r1)
                        &&& walked(started, prog, ended, r1)
                        &&& match r1 {
                            Err(e) => r == Err::<Vec<u8>, std::io::Error>(e),
                            Ok(_) => CBackend::finalized(ended, r),
                        }
                    },
            }
        };
    let (ended, r1) = choose|ended: CBackend, r1: Result<(), std::io::Error>|
        {
            &&& #[trigger] passes(ended, r1)
            &&& walked(started, prog, ended, r1)
            &&& match r1 {
                Err(e) => r == Err::<Vec<u8>, std::io::Error>(e),
                Ok(_) => CBackend::finalized(ended, r),
            }
        };
    lemma_walk_writes(started, prog, ended, r1);
    assert(r->Ok_0@ =~= pre.text() + c_program(prog));
}

} // verus!
