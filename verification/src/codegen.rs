//! The code generator.
//!
//! A syntax tree is compiled into a flat instruction sequence whose jump
//! targets are absolute addresses, computed as running offsets into the
//! growing instruction list.  The layout of each construct is fixed:
//!
//! * `Or(l, r)`: `Split(L, R); L: code(l); Jump(END); R: code(r); END:`
//! * `Star(e)`: `L1: Split(L2, L3); L2: code(e); Jump(L1); L3:`
//! * `Plus(e)`: `L1: code(e); Split(L1, L2); L2:`
//! * `Question(e)`: `Split(L1, L2); L1: code(e); L2:`
//!
//! A star whose body is itself a star compiles to the body alone: the outer
//! repetition adds nothing to the language, and dropping it keeps the
//! depth-first search away from empty-width loops.
//!
//! [`get_code`] is proved to return exactly the mathematical compilation
//! [`program_of`] of the tree, and [`lemma_program_well_formed`] shows that
//! every compiled program keeps control in bounds, so evaluation of a
//! compiled program never fails.

use vstd::prelude::*;
use crate::parser::Ast;
use crate::parser::Re;
use crate::parser::re_of;
use crate::parser::seq_re_of;
use crate::parser::lemma_seq_re_of;
use crate::evaluator::Instruction;
use crate::evaluator::inst_ok;
use crate::evaluator::well_formed;

verus! {

/// A code-generation error, surfaced distinctly from parse errors.
#[derive(Debug, Clone, Copy, PartialEq, Eq, Structural)]
pub enum CodeGenError {
    /// The program grew past the addressable range.
    PCOverFlow,
}

/// The mathematical compilation of a pattern, laid out from address `base`.
pub open spec fn code_of(re: Re, base: nat) -> Seq<Instruction>
    decreases re,
{
    match re {
        Re::Char(c) => seq![Instruction::Char(c)],
        Re::Dot => seq![Instruction::Dot],
        Re::Caret => seq![Instruction::Caret],
        Re::Dollar => seq![Instruction::Dollar],
        Re::Sequence(elems) => codes_of(elems, base),
        Re::Or(l, r) => {
            let cl = code_of(*l, base + 1);
            let cr = code_of(*r, base + 2 + cl.len());
            seq![Instruction::Split((base + 1) as usize, (base + 2 + cl.len()) as usize)] + cl
                + seq![Instruction::Jump((base + 2 + cl.len() + cr.len()) as usize)] + cr
        },
        Re::Star(e) => if *e is Star {
            code_of(*e, base)
        } else {
            let body = code_of(*e, base + 1);
            seq![Instruction::Split((base + 1) as usize, (base + 2 + body.len()) as usize)]
                + body + seq![Instruction::Jump(base as usize)]
        },
        Re::Plus(e) => {
            let body = code_of(*e, base);
            body + seq![Instruction::Split(base as usize, (base + body.len() + 1) as usize)]
        },
        Re::Question(e) => {
            let body = code_of(*e, base + 1);
            seq![Instruction::Split((base + 1) as usize, (base + 1 + body.len()) as usize)] + body
        },
    }
}

/// The mathematical compilation of a sequence of patterns, one after another.
pub open spec fn codes_of(elems: Seq<Re>, base: nat) -> Seq<Instruction>
    decreases elems,
{
    if elems.len() == 0 {
        Seq::empty()
    } else {
        let first = code_of(elems[0], base);
        first + codes_of(elems.subrange(1, elems.len() as int), base + first.len())
    }
}

/// The full program for a pattern: its code followed by `Match`.
pub open spec fn program_of(re: Re) -> Seq<Instruction> {
    code_of(re, 0).push(Instruction::Match)
}

fn gen(ast: &Ast, insts: &mut Vec<Instruction>)
    ensures
        final(insts)@ == old(insts)@ + code_of(re_of(*ast), old(insts)@.len() as nat),
    decreases *ast, 0int,
{
    let ghost base = insts@.len();
    match ast {
        Ast::Char(c) => {
            insts.push(Instruction::Char(*c));
            proof {
                assert(insts@ =~= old(insts)@ + code_of(re_of(*ast), base as nat));
            }
        },
        Ast::Dot => {
            insts.push(Instruction::Dot);
            proof {
                assert(insts@ =~= old(insts)@ + code_of(re_of(*ast), base as nat));
            }
        },
        Ast::Caret => {
            insts.push(Instruction::Caret);
            proof {
                assert(insts@ =~= old(insts)@ + code_of(re_of(*ast), base as nat));
            }
        },
        Ast::Dollar => {
            insts.push(Instruction::Dollar);
            proof {
                assert(insts@ =~= old(insts)@ + code_of(re_of(*ast), base as nat));
            }
        },
        Ast::Sequence(v) => {
            gen_seq(v, 0, insts);
            proof {
                lemma_seq_re_of(v@);
                assert(seq_re_of(v@).subrange(0, v@.len() as int) =~= seq_re_of(v@));
                assert(insts@ =~= old(insts)@ + code_of(re_of(*ast), base as nat));
            }
        },
        Ast::Or(l, r) => {
            let split_pos = insts.len();
            insts.push(Instruction::Split(0, 0));
            gen(&**l, insts);
            let jump_pos = insts.len();
            insts.push(Instruction::Jump(0));
            let r_start = insts.len();
            insts[split_pos] = Instruction::Split(split_pos + 1, r_start);
            gen(&**r, insts);
            let end = insts.len();
            insts[jump_pos] = Instruction::Jump(end);
            proof {
                let cl = code_of(re_of(**l), base + 1);
                let cr = code_of(re_of(**r), base + 2 + cl.len());
                assert(insts@ =~= old(insts)@
                    + (seq![Instruction::Split((base + 1) as usize,
                            (base + 2 + cl.len()) as usize)] + cl
                        + seq![Instruction::Jump((base + 2 + cl.len() + cr.len()) as usize)] + cr));
                assert(insts@ =~= old(insts)@ + code_of(re_of(*ast), base as nat));
            }
        },
        Ast::Star(e) => {
            match &**e {
                Ast::Star(_) => {
                    gen(&**e, insts);
                    proof {
                        assert(re_of(**e) is Star);
                        assert(insts@ =~= old(insts)@ + code_of(re_of(*ast), base as nat));
                    }
                },
                _ => {
                    let l1 = insts.len();
                    insts.push(Instruction::Split(0, 0));
                    gen(&**e, insts);
                    insts.push(Instruction::Jump(l1));
                    let l3 = insts.len();
                    insts[l1] = Instruction::Split(l1 + 1, l3);
                    proof {
                        assert(!(re_of(**e) is Star));
                        let body = code_of(re_of(**e), base + 1);
                        assert(insts@ =~= old(insts)@
                            + (seq![Instruction::Split((base + 1) as usize,
                                    (base + 2 + body.len()) as usize)]
                                + body + seq![Instruction::Jump(base as usize)]));
                        assert(insts@ =~= old(insts)@ + code_of(re_of(*ast), base as nat));
                    }
                },
            }
        },
        Ast::Plus(e) => {
            let l1 = insts.len();
            gen(&**e, insts);
            insts.push(Instruction::Split(0, 0));
            let after = insts.len();
            insts[after - 1] = Instruction::Split(l1, after);
            proof {
                let body = code_of(re_of(**e), base as nat);
                assert(insts@ =~= old(insts)@
                    + (body + seq![Instruction::Split(base as usize,
                            (base + body.len() + 1) as usize)]));
                assert(insts@ =~= old(insts)@ + code_of(re_of(*ast), base as nat));
            }
        },
        Ast::Question(e) => {
            let l1 = insts.len();
            insts.push(Instruction::Split(0, 0));
            gen(&**e, insts);
            let l2 = insts.len();
            insts[l1] = Instruction::Split(l1 + 1, l2);
            proof {
                let body = code_of(re_of(**e), base + 1);
                assert(insts@ =~= old(insts)@
                    + (seq![Instruction::Split((base + 1) as usize,
                            (base + 1 + body.len()) as usize)] + body));
                assert(insts@ =~= old(insts)@ + code_of(re_of(*ast), base as nat));
            }
        },
    }
}

fn gen_seq(v: &Vec<Ast>, i: usize, insts: &mut Vec<Instruction>)
    requires
        i <= v@.len(),
    ensures
        final(insts)@ == old(insts)@ + codes_of(
            seq_re_of(v@).subrange(i as int, v@.len() as int),
            old(insts)@.len() as nat,
        ),
    decreases *v, v@.len() - i,
{
    proof {
        lemma_seq_re_of(v@);
    }
    if i < v.len() {
        let ghost base = insts@.len();
        gen(&v[i], insts);
        gen_seq(v, i + 1, insts);
        proof {
            let s_all = seq_re_of(v@);
            let tail = s_all.subrange(i as int, v@.len() as int);
            assert(tail[0] == s_all[i as int]);
            assert(tail.subrange(1, tail.len() as int)
                =~= s_all.subrange(i as int + 1, v@.len() as int));
            assert(insts@ =~= old(insts)@ + codes_of(tail, base as nat));
        }
    } else {
        proof {
            assert(seq_re_of(v@).subrange(i as int, v@.len() as int).len() == 0);
            assert(old(insts)@ + codes_of(
                seq_re_of(v@).subrange(i as int, v@.len() as int),
                old(insts)@.len() as nat,
            ) =~= old(insts)@);
        }
    }
}

/// Compiles a syntax tree into its bytecode program.
///
/// The result is exactly the mathematical compilation [`program_of`] of the
/// tree: the code for the pattern followed by a final `Match`.  Addresses are
/// read off the growing instruction list, so compilation always succeeds; the
/// `Result` keeps the error surface of the interface.
pub fn get_code(ast: &Ast) -> (r: Result<Vec<Instruction>, CodeGenError>)
    ensures
        r is Ok,
        r matches Ok(p) ==> p@ == program_of(re_of(*ast)),
{
    let mut insts: Vec<Instruction> = Vec::new();
    gen(ast, &mut insts);
    insts.push(Instruction::Match);
    proof {
        assert(insts@ =~= program_of(re_of(*ast)));
    }
    Ok(insts)
}

/// Whether an instruction at absolute address `next - 1` keeps control at or
/// below `limit`.
pub open spec fn targets_within(ins: Instruction, next: nat, limit: nat) -> bool {
    match ins {
        Instruction::Char(_) => next <= limit,
        Instruction::Dot => next <= limit,
        Instruction::Caret => next <= limit,
        Instruction::Dollar => next <= limit,
        Instruction::Match => true,
        Instruction::Jump(a) => a <= limit,
        Instruction::Split(a1, a2) => a1 <= limit && a2 <= limit,
    }
}

/// Every instruction of a compiled block keeps control inside the block or
/// hands it to the address just past the block.
proof fn lemma_code_targets(re: Re, base: nat)
    requires
        base + code_of(re, base).len() <= usize::MAX,
    ensures
        forall|j: int|
            0 <= j < code_of(re, base).len() ==> targets_within(
                #[trigger] code_of(re, base)[j],
                (base + j + 1) as nat,
                base + code_of(re, base).len(),
            ),
    decreases re,
{
    let total = code_of(re, base);
    match re {
        Re::Char(_) => {},
        Re::Dot => {},
        Re::Caret => {},
        Re::Dollar => {},
        Re::Sequence(elems) => {
            lemma_codes_targets(elems, base);
            assert forall|j: int| 0 <= j < total.len() implies targets_within(
                total[j], (base + j + 1) as nat, base + total.len()) by {
                assert(targets_within(codes_of(elems, base)[j], (base + j + 1) as nat,
                    base + codes_of(elems, base).len()));
            }
        },
        Re::Or(l, r) => {
            let cl = code_of(*l, base + 1);
            let cr = code_of(*r, base + 2 + cl.len());
            lemma_code_targets(*l, base + 1);
            lemma_code_targets(*r, base + 2 + cl.len());
            assert forall|j: int| 0 <= j < total.len() implies targets_within(
                total[j], (base + j + 1) as nat, base + total.len()) by {
                if j == 0 {
                } else if j <= cl.len() {
                    assert(total[j] == cl[j - 1]);
                    assert(targets_within(cl[j - 1], (base + j + 1) as nat,
                        base + 1 + cl.len()));
                } else if j == cl.len() + 1 {
                    assert(total[j] == Instruction::Jump(
                        (base + 2 + cl.len() + cr.len()) as usize));
                } else {
                    assert(total[j] == cr[j - cl.len() - 2]);
                    assert(targets_within(cr[j - cl.len() - 2], (base + j + 1) as nat,
                        base + 2 + cl.len() + cr.len()));
                }
            }
        },
        Re::Star(e) => {
            if *e is Star {
                lemma_code_targets(*e, base);
                assert forall|j: int| 0 <= j < total.len() implies targets_within(
                    total[j], (base + j + 1) as nat, base + total.len()) by {
                    assert(targets_within(code_of(*e, base)[j], (base + j + 1) as nat,
                        base + code_of(*e, base).len()));
                }
            } else {
                let body = code_of(*e, base + 1);
                lemma_code_targets(*e, base + 1);
                assert forall|j: int| 0 <= j < total.len() implies targets_within(
                    total[j], (base + j + 1) as nat, base + total.len()) by {
                    if j == 0 {
                    } else if j <= body.len() {
                        assert(total[j] == body[j - 1]);
                        assert(targets_within(body[j - 1], (base + j + 1) as nat,
                            base + 1 + body.len()));
                    } else {
                        assert(total[j] == Instruction::Jump(base as usize));
                    }
                }
            }
        },
        Re::Plus(e) => {
            let body = code_of(*e, base);
            lemma_code_targets(*e, base);
            assert forall|j: int| 0 <= j < total.len() implies targets_within(
                total[j], (base + j + 1) as nat, base + total.len()) by {
                if j < body.len() {
                    assert(total[j] == body[j]);
                    assert(targets_within(body[j], (base + j + 1) as nat,
                        base + body.len()));
                } else {
                    assert(total[j] == Instruction::Split(base as usize,
                        (base + body.len() + 1) as usize));
                }
            }
        },
        Re::Question(e) => {
            let body = code_of(*e, base + 1);
            lemma_code_targets(*e, base + 1);
            assert forall|j: int| 0 <= j < total.len() implies targets_within(
                total[j], (base + j + 1) as nat, base + total.len()) by {
                if j == 0 {
                } else {
                    assert(total[j] == body[j - 1]);
                    assert(targets_within(body[j - 1], (base + j + 1) as nat,
                        base + 1 + body.len()));
                }
            }
        },
    }
}

/// As `lemma_code_targets`, for a compiled sequence of blocks.
proof fn lemma_codes_targets(elems: Seq<Re>, base: nat)
    requires
        base + codes_of(elems, base).len() <= usize::MAX,
    ensures
        forall|j: int|
            0 <= j < codes_of(elems, base).len() ==> targets_within(
                #[trigger] codes_of(elems, base)[j],
                (base + j + 1) as nat,
                base + codes_of(elems, base).len(),
            ),
    decreases elems,
{
    let total = codes_of(elems, base);
    if elems.len() > 0 {
        let first = code_of(elems[0], base);
        let rest = codes_of(elems.subrange(1, elems.len() as int), base + first.len());
        lemma_code_targets(elems[0], base);
        lemma_codes_targets(elems.subrange(1, elems.len() as int), base + first.len());
        assert forall|j: int| 0 <= j < total.len() implies targets_within(
            total[j], (base + j + 1) as nat, base + total.len()) by {
            if j < first.len() {
                assert(total[j] == first[j]);
                assert(targets_within(first[j], (base + j + 1) as nat,
                    base + first.len()));
            } else {
                assert(total[j] == rest[j - first.len()]);
                assert(targets_within(rest[j - first.len()], (base + j + 1) as nat,
                    base + first.len() + rest.len()));
            }
        }
    }
}

/// A compiled program is well formed: every control transfer stays inside
/// the program, and the program is never empty — so the evaluator returns a
/// verdict on it rather than an error.
pub proof fn lemma_program_well_formed(re: Re)
    requires
        code_of(re, 0).len() + 1 <= usize::MAX,
    ensures
        well_formed(program_of(re)),
        program_of(re).len() >= 1,
{
    let code = code_of(re, 0);
    let prog = program_of(re);
    lemma_code_targets(re, 0);
    assert forall|i: int| 0 <= i < prog.len() implies inst_ok(prog, i) by {
        if i < code.len() {
            assert(prog[i] == code[i]);
            assert(targets_within(code[i], (i + 1) as nat, code.len()));
        } else {
            assert(prog[i] == Instruction::Match);
        }
    }
}

} // verus!
