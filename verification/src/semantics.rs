//! The language of a pattern, and the soundness of compilation.
//!
//! A [`Deriv`] is a derivation: a tree that shows how a pattern consumes a
//! slice of the input, one node per grammar construct — which branch an
//! alternation took, how many times a repetition ran.  [`valid`] checks a
//! derivation against a pattern at a position, [`weight`] is how many input
//! symbols it consumes, and [`derives`] says a derivation exists.
//!
//! [`lemma_derived_input_accepted`] is the soundness direction of the round
//! trip between the parser and the evaluator: whatever prefix of the input
//! the syntax tree derives, the compiled program accepts, and with it both
//! evaluation strategies answer `true`.

use vstd::prelude::*;
use crate::codegen::code_of;
use crate::codegen::codes_of;
use crate::codegen::program_of;
use crate::evaluator::Instruction;
use crate::evaluator::accepts;
use crate::evaluator::accepts_from;
use crate::evaluator::accepts_in;
use crate::evaluator::lemma_accepts_unfold;
use crate::parser::Re;

verus! {

/// A derivation: evidence that a pattern consumes part of the input.
pub ghost enum Deriv {
    /// One consumed symbol (a literal or `.`).
    Sym,
    /// A zero-width anchor (`^` or `$`).
    Mark,
    /// One derivation per element of a concatenation.
    Cat(Seq<Deriv>),
    /// The left branch of an alternation.
    Left(Box<Deriv>),
    /// The right branch of an alternation.
    Right(Box<Deriv>),
    /// One derivation per iteration of a repetition.
    Rep(Seq<Deriv>),
    /// A `?` that matched nothing.
    Skip,
    /// A `?` that matched its body.
    Take(Box<Deriv>),
}

/// How many input symbols the derivation consumes.
pub open spec fn weight(d: Deriv) -> nat
    decreases d, 1int,
{
    match d {
        Deriv::Sym => 1,
        Deriv::Mark => 0,
        Deriv::Cat(ds) => weight_seq(ds),
        Deriv::Left(d1) => weight(*d1),
        Deriv::Right(d1) => weight(*d1),
        Deriv::Rep(ds) => weight_seq(ds),
        Deriv::Skip => 0,
        Deriv::Take(d1) => weight(*d1),
    }
}

/// The symbols consumed by a list of derivations, in order.
pub open spec fn weight_seq(ds: Seq<Deriv>) -> nat
    decreases ds, 0int,
{
    if ds.len() == 0 {
        0
    } else {
        weight(ds[0]) + weight_seq(ds.subrange(1, ds.len() as int))
    }
}

/// Whether `d` derives `re` at position `sp` of the input.
pub open spec fn valid(d: Deriv, re: Re, line: Seq<char>, offset: nat, sp: nat) -> bool
    decreases d, 1int,
{
    match re {
        Re::Char(c) => d == Deriv::Sym && sp < line.len() && line[sp as int] == c,
        Re::Dot => d == Deriv::Sym && sp < line.len(),
        Re::Caret => d == Deriv::Mark && offset == 0 && sp == 0,
        Re::Dollar => d == Deriv::Mark && sp == line.len(),
        Re::Sequence(elems) => (d matches Deriv::Cat(ds)
            && valid_cat(ds, elems, line, offset, sp)),
        Re::Or(l, r) => (d matches Deriv::Left(d1) && valid(*d1, *l, line, offset, sp))
            || (d matches Deriv::Right(d1) && valid(*d1, *r, line, offset, sp)),
        Re::Star(e) => (d matches Deriv::Rep(ds) && valid_rep(ds, *e, line, offset, sp)),
        Re::Plus(e) => (d matches Deriv::Rep(ds) && ds.len() >= 1
            && valid_rep(ds, *e, line, offset, sp)),
        Re::Question(e) => d == Deriv::Skip
            || (d matches Deriv::Take(d1) && valid(*d1, *e, line, offset, sp)),
    }
}

/// Whether the derivations derive the elements of a concatenation, one each,
/// each picking up where the previous one stopped.
pub open spec fn valid_cat(
    ds: Seq<Deriv>,
    elems: Seq<Re>,
    line: Seq<char>,
    offset: nat,
    sp: nat,
) -> bool
    decreases ds, 0int,
{
    &&& ds.len() == elems.len()
    &&& (ds.len() == 0 || (valid(ds[0], elems[0], line, offset, sp) && valid_cat(
        ds.subrange(1, ds.len() as int),
        elems.subrange(1, elems.len() as int),
        line,
        offset,
        sp + weight(ds[0]),
    )))
}

/// Whether the derivations are successive iterations of one repetition body.
pub open spec fn valid_rep(
    ds: Seq<Deriv>,
    body: Re,
    line: Seq<char>,
    offset: nat,
    sp: nat,
) -> bool
    decreases ds, 0int,
{
    if ds.len() == 0 {
        true
    } else {
        valid(ds[0], body, line, offset, sp) && valid_rep(
            ds.subrange(1, ds.len() as int),
            body,
            line,
            offset,
            sp + weight(ds[0]),
        )
    }
}

/// Whether the pattern can consume exactly `line[sp..sp2]`.
pub open spec fn derives(re: Re, line: Seq<char>, offset: nat, sp: nat, sp2: nat) -> bool {
    exists|d: Deriv| #[trigger] valid(d, re, line, offset, sp) && sp2 == sp + weight(d)
}

/// Weights add up over a concatenation of derivation lists.
proof fn lemma_weight_concat(a: Seq<Deriv>, b: Seq<Deriv>)
    ensures
        weight_seq(a + b) == weight_seq(a) + weight_seq(b),
    decreases a.len(),
{
    if a.len() == 0 {
        assert(a + b =~= b);
    } else {
        lemma_weight_concat(a.subrange(1, a.len() as int), b);
        assert((a + b).subrange(1, (a + b).len() as int)
            =~= a.subrange(1, a.len() as int) + b);
        assert((a + b)[0] == a[0]);
    }
}

/// Two runs of one repetition body, one after the other, are one run.
proof fn lemma_rep_concat(
    a: Seq<Deriv>,
    b: Seq<Deriv>,
    body: Re,
    line: Seq<char>,
    offset: nat,
    sp: nat,
)
    requires
        valid_rep(a, body, line, offset, sp),
        valid_rep(b, body, line, offset, sp + weight_seq(a)),
    ensures
        valid_rep(a + b, body, line, offset, sp),
    decreases a.len(),
{
    if a.len() == 0 {
        assert(a + b =~= b);
    } else {
        lemma_rep_concat(
            a.subrange(1, a.len() as int), b, body, line, offset, sp + weight(a[0]));
        assert((a + b).subrange(1, (a + b).len() as int)
            =~= a.subrange(1, a.len() as int) + b);
        assert((a + b)[0] == a[0]);
    }
}

/// Iterating a repetition derives nothing more than the repetition itself:
/// the iterations' runs flatten into one run.
proof fn lemma_flatten_rep(
    ds: Seq<Deriv>,
    inner: Re,
    line: Seq<char>,
    offset: nat,
    sp: nat,
) -> (flat: Seq<Deriv>)
    requires
        valid_rep(ds, Re::Star(Box::new(inner)), line, offset, sp),
    ensures
        valid_rep(flat, inner, line, offset, sp),
        weight_seq(flat) == weight_seq(ds),
    decreases ds.len(),
{
    if ds.len() == 0 {
        let flat = Seq::<Deriv>::empty();
        flat
    } else {
        let rest = lemma_flatten_rep(
            ds.subrange(1, ds.len() as int), inner, line, offset, sp + weight(ds[0]));
        let head = ds[0];
        assert(valid(head, Re::Star(Box::new(inner)), line, offset, sp));
        match head {
            Deriv::Rep(ds0) => {
                assert(valid_rep(ds0, inner, line, offset, sp));
                assert(weight(head) == weight_seq(ds0));
                lemma_rep_concat(ds0, rest, inner, line, offset, sp);
                lemma_weight_concat(ds0, rest);
                ds0 + rest
            },
            _ => {
                assert(false);
                rest
            },
        }
    }
}

/// The program holds the given block starting at `base`.
pub open spec fn placed(prog: Seq<Instruction>, block: Seq<Instruction>, base: nat) -> bool {
    &&& base + block.len() <= prog.len()
    &&& forall|j: int| 0 <= j < block.len() ==> prog[base + j] == #[trigger] block[j]
}

/// Soundness of one compiled block: if `d` derives the pattern at `sp` and
/// the program accepts from the end of the block at `sp + weight(d)`, the
/// program accepts from the start of the block at `sp`.
proof fn lemma_sound(
    prog: Seq<Instruction>,
    re: Re,
    d: Deriv,
    base: nat,
    line: Seq<char>,
    offset: nat,
    sp: nat,
)
    requires
        prog.len() <= usize::MAX,
        placed(prog, code_of(re, base), base),
        valid(d, re, line, offset, sp),
        accepts_from(prog, line, offset, base + code_of(re, base).len(), sp + weight(d)),
    ensures
        accepts_from(prog, line, offset, base, sp),
    decreases re, d, 1int,
{
    let total = code_of(re, base);
    match re {
        Re::Char(_) => {
            assert(prog[base as int] == total[0]);
            lemma_accepts_unfold(prog, line, offset, base, sp);
        },
        Re::Dot => {
            assert(prog[base as int] == total[0]);
            lemma_accepts_unfold(prog, line, offset, base, sp);
        },
        Re::Caret => {
            assert(prog[base as int] == total[0]);
            lemma_accepts_unfold(prog, line, offset, base, sp);
        },
        Re::Dollar => {
            assert(prog[base as int] == total[0]);
            lemma_accepts_unfold(prog, line, offset, base, sp);
        },
        Re::Sequence(elems) => {
            match d {
                Deriv::Cat(ds) => {
                    lemma_sound_cat(prog, elems, ds, base, line, offset, sp);
                },
                _ => {},
            }
        },
        Re::Or(l, r) => {
            let cl = code_of(*l, base + 1);
            let cr = code_of(*r, base + 2 + cl.len());
            let jump_at = base + 1 + cl.len();
            let end = base + 2 + cl.len() + cr.len();
            assert(prog[base as int] == total[0]);
            assert(total[0] == Instruction::Split((base + 1) as usize,
                (base + 2 + cl.len()) as usize));
            assert(prog[jump_at as int] == total[1 + cl.len() as int]);
            assert(total[1 + cl.len() as int] == Instruction::Jump(end as usize));
            assert(placed(prog, cl, base + 1)) by {
                assert forall|j: int| 0 <= j < cl.len()
                    implies prog[base + 1 + j] == #[trigger] cl[j] by {
                    assert(total[1 + j] == cl[j]);
                    assert(prog[base + (1 + j)] == total[1 + j]);
                }
            }
            assert(placed(prog, cr, base + 2 + cl.len())) by {
                assert forall|j: int| 0 <= j < cr.len()
                    implies prog[base + 2 + cl.len() + j] == #[trigger] cr[j] by {
                    assert(total[2 + cl.len() + j] == cr[j]);
                    assert(prog[base + (2 + cl.len() + j)] == total[2 + cl.len() + j]);
                }
            }
            match d {
                Deriv::Left(d1) => {
                    lemma_accepts_unfold(prog, line, offset, jump_at, sp + weight(d));
                    assert(accepts_from(prog, line, offset, jump_at, sp + weight(*d1)));
                    lemma_sound(prog, *l, *d1, base + 1, line, offset, sp);
                    lemma_accepts_unfold(prog, line, offset, base, sp);
                },
                Deriv::Right(d1) => {
                    lemma_sound(prog, *r, *d1, base + 2 + cl.len(), line, offset, sp);
                    lemma_accepts_unfold(prog, line, offset, base, sp);
                },
                _ => {},
            }
        },
        Re::Star(e) => {
            match d {
                Deriv::Rep(ds) => {
                    if *e is Star {
                        match *e {
                            Re::Star(x) => {
                                assert(*e == Re::Star(Box::new(*x)));
                                let flat = lemma_flatten_rep(ds, *x, line, offset, sp);
                                assert(valid(Deriv::Rep(flat), *e, line, offset, sp));
                                assert(weight(Deriv::Rep(flat)) == weight(d));
                                lemma_sound(prog, *e, Deriv::Rep(flat), base, line, offset, sp);
                            },
                            _ => {},
                        }
                    } else {
                        lemma_sound_rep(prog, *e, ds, base, line, offset, sp);
                    }
                },
                _ => {},
            }
        },
        Re::Plus(e) => {
            match d {
                Deriv::Rep(ds) => {
                    let body = code_of(*e, base);
                    let split_at = base + body.len();
                    assert(prog[split_at as int] == total[body.len() as int]);
                    assert(total[body.len() as int] == Instruction::Split(base as usize,
                        (base + body.len() + 1) as usize));
                    assert(placed(prog, body, base)) by {
                        assert forall|j: int| 0 <= j < body.len()
                            implies prog[base + j] == #[trigger] body[j] by {
                            assert(total[j] == body[j]);
                        }
                    }
                    let tail = ds.subrange(1, ds.len() as int);
                    assert(weight(d) == weight(ds[0]) + weight_seq(tail)) by {
                        reveal_with_fuel(weight, 3);
                    }
                    assert(re == Re::Plus(Box::new(*e)));
                    assert(valid(ds[0], *e, line, offset, sp)
                        && valid_rep(tail, *e, line, offset, sp + weight(ds[0]))) by {
                        reveal_with_fuel(valid, 3);
                    }
                    lemma_sound_plus(prog, re, *e, tail, base, line, offset,
                        sp + weight(ds[0]));
                    lemma_sound(prog, *e, ds[0], base, line, offset, sp);
                },
                _ => {},
            }
        },
        Re::Question(e) => {
            let body = code_of(*e, base + 1);
            assert(prog[base as int] == total[0]);
            assert(total[0] == Instruction::Split((base + 1) as usize,
                (base + 1 + body.len()) as usize));
            assert(placed(prog, body, base + 1)) by {
                assert forall|j: int| 0 <= j < body.len()
                    implies prog[base + 1 + j] == #[trigger] body[j] by {
                    assert(total[1 + j] == body[j]);
                    assert(prog[base + (1 + j)] == total[1 + j]);
                }
            }
            if d == Deriv::Skip {
                lemma_accepts_unfold(prog, line, offset, base, sp);
            } else {
                match d {
                    Deriv::Take(d1) => {
                        lemma_sound(prog, *e, *d1, base + 1, line, offset, sp);
                        lemma_accepts_unfold(prog, line, offset, base, sp);
                    },
                    _ => {},
                }
            }
        },
    }
}

/// As `lemma_sound`, for the blocks of a concatenation laid out in order.
proof fn lemma_sound_cat(
    prog: Seq<Instruction>,
    elems: Seq<Re>,
    ds: Seq<Deriv>,
    base: nat,
    line: Seq<char>,
    offset: nat,
    sp: nat,
)
    requires
        prog.len() <= usize::MAX,
        placed(prog, codes_of(elems, base), base),
        valid_cat(ds, elems, line, offset, sp),
        accepts_from(prog, line, offset, base + codes_of(elems, base).len(),
            sp + weight_seq(ds)),
    ensures
        accepts_from(prog, line, offset, base, sp),
    decreases elems, ds, 0int,
{
    let total = codes_of(elems, base);
    if elems.len() > 0 {
        let first = code_of(elems[0], base);
        let etail = elems.subrange(1, elems.len() as int);
        let dtail = ds.subrange(1, ds.len() as int);
        let rest = codes_of(etail, base + first.len());
        assert(placed(prog, first, base)) by {
            assert forall|j: int| 0 <= j < first.len()
                implies prog[base + j] == #[trigger] first[j] by {
                assert(total[j] == first[j]);
            }
        }
        assert(placed(prog, rest, base + first.len())) by {
            assert forall|j: int| 0 <= j < rest.len()
                implies prog[base + first.len() + j] == #[trigger] rest[j] by {
                assert(total[first.len() + j] == rest[j]);
                assert(prog[base + (first.len() + j)] == total[first.len() + j]);
            }
        }
        lemma_sound_cat(prog, etail, dtail, base + first.len(), line, offset,
            sp + weight(ds[0]));
        lemma_sound(prog, elems[0], ds[0], base, line, offset, sp);
    }
}

/// Soundness of a `Star` loop: the block `Split; body; Jump` accepts at `sp`
/// whenever its iterations derive the input from `sp` onwards and the
/// program accepts past the block at the end position.
proof fn lemma_sound_rep(
    prog: Seq<Instruction>,
    body_re: Re,
    ds: Seq<Deriv>,
    base: nat,
    line: Seq<char>,
    offset: nat,
    sp: nat,
)
    requires
        prog.len() <= usize::MAX,
        !(body_re is Star),
        placed(prog, code_of(Re::Star(Box::new(body_re)), base), base),
        valid_rep(ds, body_re, line, offset, sp),
        accepts_from(prog, line, offset,
            base + code_of(Re::Star(Box::new(body_re)), base).len(), sp + weight_seq(ds)),
    ensures
        accepts_from(prog, line, offset, base, sp),
    decreases body_re, ds, 0int,
{
    let total = code_of(Re::Star(Box::new(body_re)), base);
    let body = code_of(body_re, base + 1);
    let jump_at = base + 1 + body.len();
    assert(prog[base as int] == total[0]);
    assert(total[0] == Instruction::Split((base + 1) as usize,
        (base + 2 + body.len()) as usize));
    assert(prog[jump_at as int] == total[1 + body.len() as int]);
    assert(total[1 + body.len() as int] == Instruction::Jump(base as usize));
    assert(placed(prog, body, base + 1)) by {
        assert forall|j: int| 0 <= j < body.len()
            implies prog[base + 1 + j] == #[trigger] body[j] by {
            assert(total[1 + j] == body[j]);
            assert(prog[base + (1 + j)] == total[1 + j]);
        }
    }
    if ds.len() == 0 {
        lemma_accepts_unfold(prog, line, offset, base, sp);
    } else {
        let dtail = ds.subrange(1, ds.len() as int);
        lemma_sound_rep(prog, body_re, dtail, base, line, offset, sp + weight(ds[0]));
        lemma_accepts_unfold(prog, line, offset, jump_at, sp + weight(ds[0]));
        assert(accepts_from(prog, line, offset, jump_at, sp + weight(ds[0])));
        lemma_sound(prog, body_re, ds[0], base + 1, line, offset, sp);
        lemma_accepts_unfold(prog, line, offset, base, sp);
    }
}

/// Soundness of the tail of a `Plus` loop: from the `Split` after the body,
/// the remaining iterations loop back through the body or leave the block.
proof fn lemma_sound_plus(
    prog: Seq<Instruction>,
    plus_re: Re,
    body_re: Re,
    ds: Seq<Deriv>,
    base: nat,
    line: Seq<char>,
    offset: nat,
    sp: nat,
)
    requires
        prog.len() <= usize::MAX,
        plus_re == Re::Plus(Box::new(body_re)),
        placed(prog, code_of(plus_re, base), base),
        valid_rep(ds, body_re, line, offset, sp),
        accepts_from(prog, line, offset, base + code_of(plus_re, base).len(),
            sp + weight_seq(ds)),
    ensures
        accepts_from(prog, line, offset, base + code_of(body_re, base).len(), sp),
    decreases body_re, ds, 0int,
{
    let total = code_of(plus_re, base);
    let body = code_of(body_re, base);
    let split_at = base + body.len();
    assert(prog[split_at as int] == total[body.len() as int]);
    assert(total[body.len() as int] == Instruction::Split(base as usize,
        (base + body.len() + 1) as usize));
    assert(placed(prog, body, base)) by {
        assert forall|j: int| 0 <= j < body.len()
            implies prog[base + j] == #[trigger] body[j] by {
            assert(total[j] == body[j]);
        }
    }
    if ds.len() == 0 {
        lemma_accepts_unfold(prog, line, offset, split_at, sp);
    } else {
        let dtail = ds.subrange(1, ds.len() as int);
        lemma_sound_plus(prog, plus_re, body_re, dtail, base, line, offset,
            sp + weight(ds[0]));
        lemma_sound(prog, body_re, ds[0], base, line, offset, sp);
        lemma_accepts_unfold(prog, line, offset, split_at, sp);
    }
}


/// Completeness of one compiled block: if the program accepts from the start
/// of the block within `fuel` steps, some derivation of the pattern consumes
/// a prefix, and the program accepts from the end of the block on the rest.
proof fn lemma_complete(
    prog: Seq<Instruction>,
    re: Re,
    base: nat,
    line: Seq<char>,
    offset: nat,
    sp: nat,
    fuel: nat,
) -> (res: (Deriv, nat))
    requires
        prog.len() <= usize::MAX,
        placed(prog, code_of(re, base), base),
        accepts_in(prog, line, offset, base, sp, fuel),
    ensures
        valid(res.0, re, line, offset, sp),
        accepts_in(prog, line, offset, base + code_of(re, base).len(),
            sp + weight(res.0), res.1),
        res.1 <= fuel,
    decreases fuel, re, 1int,
{
    let total = code_of(re, base);
    match re {
        Re::Char(_) => {
            assert(prog[base as int] == total[0]);
            (Deriv::Sym, (fuel - 1) as nat)
        },
        Re::Dot => {
            assert(prog[base as int] == total[0]);
            (Deriv::Sym, (fuel - 1) as nat)
        },
        Re::Caret => {
            assert(prog[base as int] == total[0]);
            (Deriv::Mark, (fuel - 1) as nat)
        },
        Re::Dollar => {
            assert(prog[base as int] == total[0]);
            (Deriv::Mark, (fuel - 1) as nat)
        },
        Re::Sequence(elems) => {
            let r = lemma_complete_cat(prog, elems, base, line, offset, sp, fuel);
            assert(weight(Deriv::Cat(r.0)) == weight_seq(r.0));
            (Deriv::Cat(r.0), r.1)
        },
        Re::Or(l, r) => {
            let cl = code_of(*l, base + 1);
            let cr = code_of(*r, base + 2 + cl.len());
            let jump_at = base + 1 + cl.len();
            let end = base + 2 + cl.len() + cr.len();
            assert(prog[base as int] == total[0]);
            assert(total[0] == Instruction::Split((base + 1) as usize,
                (base + 2 + cl.len()) as usize));
            assert(prog[jump_at as int] == total[1 + cl.len() as int]);
            assert(total[1 + cl.len() as int] == Instruction::Jump(end as usize));
            assert(placed(prog, cl, base + 1)) by {
                assert forall|j: int| 0 <= j < cl.len()
                    implies prog[base + 1 + j] == #[trigger] cl[j] by {
                    assert(total[1 + j] == cl[j]);
                    assert(prog[base + (1 + j)] == total[1 + j]);
                }
            }
            assert(placed(prog, cr, base + 2 + cl.len())) by {
                assert forall|j: int| 0 <= j < cr.len()
                    implies prog[base + 2 + cl.len() + j] == #[trigger] cr[j] by {
                    assert(total[2 + cl.len() + j] == cr[j]);
                    assert(prog[base + (2 + cl.len() + j)] == total[2 + cl.len() + j]);
                }
            }
            if accepts_in(prog, line, offset, base + 1, sp, (fuel - 1) as nat) {
                let sub = lemma_complete(prog, *l, base + 1, line, offset, sp,
                    (fuel - 1) as nat);
                // the jump after the left branch lands at the end of the block
                assert(accepts_in(prog, line, offset, jump_at, sp + weight(sub.0), sub.1));
                assert(sub.1 > 0);
                let d = Deriv::Left(Box::new(sub.0));
                assert(weight(d) == weight(sub.0));
                (d, (sub.1 - 1) as nat)
            } else {
                assert(accepts_in(prog, line, offset, base + 2 + cl.len(), sp,
                    (fuel - 1) as nat));
                let sub = lemma_complete(prog, *r, base + 2 + cl.len(), line, offset, sp,
                    (fuel - 1) as nat);
                let d = Deriv::Right(Box::new(sub.0));
                assert(weight(d) == weight(sub.0));
                (d, sub.1)
            }
        },
        Re::Star(e) => {
            if *e is Star {
                let sub = lemma_complete(prog, *e, base, line, offset, sp, fuel);
                let d = Deriv::Rep(seq![sub.0]);
                assert(valid(d, re, line, offset, sp)) by {
                    assert(seq![sub.0].subrange(1, 1) =~= Seq::<Deriv>::empty());
                    assert(valid_rep(seq![sub.0], *e, line, offset, sp)) by {
                        reveal_with_fuel(valid_rep, 2);
                    }
                }
                assert(weight(d) == weight(sub.0)) by {
                    assert(seq![sub.0].subrange(1, 1) =~= Seq::<Deriv>::empty());
                    reveal_with_fuel(weight, 3);
                    reveal_with_fuel(weight_seq, 3);
                }
                (d, sub.1)
            } else {
                let r = lemma_complete_rep(prog, *e, base, line, offset, sp, fuel);
                let d = Deriv::Rep(r.0);
                assert(weight(d) == weight_seq(r.0));
                (d, r.1)
            }
        },
        Re::Plus(e) => {
            let body = code_of(*e, base);
            let split_at = base + body.len();
            assert(prog[split_at as int] == total[body.len() as int]);
            assert(total[body.len() as int] == Instruction::Split(base as usize,
                (base + body.len() + 1) as usize));
            assert(placed(prog, body, base)) by {
                assert forall|j: int| 0 <= j < body.len()
                    implies prog[base + j] == #[trigger] body[j] by {
                    assert(total[j] == body[j]);
                }
            }
            let first = lemma_complete(prog, *e, base, line, offset, sp, fuel);
            let rest = lemma_complete_plus(prog, re, *e, base, line, offset,
                sp + weight(first.0), first.1);
            let ds = seq![first.0] + rest.0;
            let d = Deriv::Rep(ds);
            assert(ds[0] == first.0);
            assert(ds.subrange(1, ds.len() as int) =~= rest.0);
            assert(valid_rep(ds, *e, line, offset, sp));
            assert(weight(d) == weight_seq(ds));
            assert(weight_seq(ds) == weight(first.0) + weight_seq(rest.0));
            (d, rest.1)
        },
        Re::Question(e) => {
            let body = code_of(*e, base + 1);
            assert(prog[base as int] == total[0]);
            assert(total[0] == Instruction::Split((base + 1) as usize,
                (base + 1 + body.len()) as usize));
            assert(placed(prog, body, base + 1)) by {
                assert forall|j: int| 0 <= j < body.len()
                    implies prog[base + 1 + j] == #[trigger] body[j] by {
                    assert(total[1 + j] == body[j]);
                    assert(prog[base + (1 + j)] == total[1 + j]);
                }
            }
            if accepts_in(prog, line, offset, base + 1, sp, (fuel - 1) as nat) {
                let sub = lemma_complete(prog, *e, base + 1, line, offset, sp,
                    (fuel - 1) as nat);
                let d = Deriv::Take(Box::new(sub.0));
                assert(weight(d) == weight(sub.0));
                (d, sub.1)
            } else {
                assert(accepts_in(prog, line, offset, base + 1 + body.len(), sp,
                    (fuel - 1) as nat));
                (Deriv::Skip, (fuel - 1) as nat)
            }
        },
    }
}

/// As `lemma_complete`, for the blocks of a concatenation laid out in order.
proof fn lemma_complete_cat(
    prog: Seq<Instruction>,
    elems: Seq<Re>,
    base: nat,
    line: Seq<char>,
    offset: nat,
    sp: nat,
    fuel: nat,
) -> (res: (Seq<Deriv>, nat))
    requires
        prog.len() <= usize::MAX,
        placed(prog, codes_of(elems, base), base),
        accepts_in(prog, line, offset, base, sp, fuel),
    ensures
        valid_cat(res.0, elems, line, offset, sp),
        accepts_in(prog, line, offset, base + codes_of(elems, base).len(),
            sp + weight_seq(res.0), res.1),
        res.1 <= fuel,
    decreases fuel, elems, 0int,
{
    let total = codes_of(elems, base);
    if elems.len() == 0 {
        let ds = Seq::<Deriv>::empty();
        (ds, fuel)
    } else {
        let first = code_of(elems[0], base);
        let etail = elems.subrange(1, elems.len() as int);
        let rest_code = codes_of(etail, base + first.len());
        assert(placed(prog, first, base)) by {
            assert forall|j: int| 0 <= j < first.len()
                implies prog[base + j] == #[trigger] first[j] by {
                assert(total[j] == first[j]);
            }
        }
        assert(placed(prog, rest_code, base + first.len())) by {
            assert forall|j: int| 0 <= j < rest_code.len()
                implies prog[base + first.len() + j] == #[trigger] rest_code[j] by {
                assert(total[first.len() + j] == rest_code[j]);
                assert(prog[base + (first.len() + j)] == total[first.len() + j]);
            }
        }
        let head = lemma_complete(prog, elems[0], base, line, offset, sp, fuel);
        let tail = lemma_complete_cat(prog, etail, base + first.len(), line, offset,
            sp + weight(head.0), head.1);
        let ds = seq![head.0] + tail.0;
        assert(ds[0] == head.0);
        assert(ds.subrange(1, ds.len() as int) =~= tail.0);
        assert(valid_cat(ds, elems, line, offset, sp));
        assert(weight_seq(ds) == weight(head.0) + weight_seq(tail.0));
        (ds, tail.1)
    }
}

/// As `lemma_complete`, for a `Star` loop: from the leading `Split`, the
/// machine runs some number of body iterations and leaves past the block.
proof fn lemma_complete_rep(
    prog: Seq<Instruction>,
    body_re: Re,
    base: nat,
    line: Seq<char>,
    offset: nat,
    sp: nat,
    fuel: nat,
) -> (res: (Seq<Deriv>, nat))
    requires
        prog.len() <= usize::MAX,
        !(body_re is Star),
        placed(prog, code_of(Re::Star(Box::new(body_re)), base), base),
        accepts_in(prog, line, offset, base, sp, fuel),
    ensures
        valid_rep(res.0, body_re, line, offset, sp),
        accepts_in(prog, line, offset,
            base + code_of(Re::Star(Box::new(body_re)), base).len(),
            sp + weight_seq(res.0), res.1),
        res.1 <= fuel,
    decreases fuel, body_re, 0int,
{
    let total = code_of(Re::Star(Box::new(body_re)), base);
    let body = code_of(body_re, base + 1);
    let jump_at = base + 1 + body.len();
    assert(prog[base as int] == total[0]);
    assert(total[0] == Instruction::Split((base + 1) as usize,
        (base + 2 + body.len()) as usize));
    assert(prog[jump_at as int] == total[1 + body.len() as int]);
    assert(total[1 + body.len() as int] == Instruction::Jump(base as usize));
    assert(placed(prog, body, base + 1)) by {
        assert forall|j: int| 0 <= j < body.len()
            implies prog[base + 1 + j] == #[trigger] body[j] by {
            assert(total[1 + j] == body[j]);
            assert(prog[base + (1 + j)] == total[1 + j]);
        }
    }
    if accepts_in(prog, line, offset, base + 1, sp, (fuel - 1) as nat) {
        let head = lemma_complete(prog, body_re, base + 1, line, offset, sp,
            (fuel - 1) as nat);
        // the jump after the body leads back to the split
        assert(accepts_in(prog, line, offset, jump_at, sp + weight(head.0), head.1));
        assert(head.1 > 0);
        assert(accepts_in(prog, line, offset, base, sp + weight(head.0),
            (head.1 - 1) as nat));
        let rest = lemma_complete_rep(prog, body_re, base, line, offset,
            sp + weight(head.0), (head.1 - 1) as nat);
        let ds = seq![head.0] + rest.0;
        assert(ds[0] == head.0);
        assert(ds.subrange(1, ds.len() as int) =~= rest.0);
        assert(valid_rep(ds, body_re, line, offset, sp));
        assert(weight_seq(ds) == weight(head.0) + weight_seq(rest.0));
        (ds, rest.1)
    } else {
        assert(accepts_in(prog, line, offset, base + 2 + body.len(), sp,
            (fuel - 1) as nat));
        let ds = Seq::<Deriv>::empty();
        (ds, (fuel - 1) as nat)
    }
}

/// As `lemma_complete`, for the tail of a `Plus` loop: from the `Split` after
/// the body, the machine loops back some number of times and leaves.
proof fn lemma_complete_plus(
    prog: Seq<Instruction>,
    plus_re: Re,
    body_re: Re,
    base: nat,
    line: Seq<char>,
    offset: nat,
    sp: nat,
    fuel: nat,
) -> (res: (Seq<Deriv>, nat))
    requires
        prog.len() <= usize::MAX,
        plus_re == Re::Plus(Box::new(body_re)),
        placed(prog, code_of(plus_re, base), base),
        accepts_in(prog, line, offset, base + code_of(body_re, base).len(), sp, fuel),
    ensures
        valid_rep(res.0, body_re, line, offset, sp),
        accepts_in(prog, line, offset, base + code_of(plus_re, base).len(),
            sp + weight_seq(res.0), res.1),
        res.1 <= fuel,
    decreases fuel, body_re, 0int,
{
    let total = code_of(plus_re, base);
    let body = code_of(body_re, base);
    let split_at = base + body.len();
    assert(prog[split_at as int] == total[body.len() as int]);
    assert(total[body.len() as int] == Instruction::Split(base as usize,
        (base + body.len() + 1) as usize));
    assert(placed(prog, body, base)) by {
        assert forall|j: int| 0 <= j < body.len()
            implies prog[base + j] == #[trigger] body[j] by {
            assert(total[j] == body[j]);
        }
    }
    if accepts_in(prog, line, offset, base, sp, (fuel - 1) as nat) {
        let head = lemma_complete(prog, body_re, base, line, offset, sp,
            (fuel - 1) as nat);
        let rest = lemma_complete_plus(prog, plus_re, body_re, base, line, offset,
            sp + weight(head.0), head.1);
        let ds = seq![head.0] + rest.0;
        assert(ds[0] == head.0);
        assert(ds.subrange(1, ds.len() as int) =~= rest.0);
        assert(valid_rep(ds, body_re, line, offset, sp));
        assert(weight_seq(ds) == weight(head.0) + weight_seq(rest.0));
        (ds, rest.1)
    } else {
        assert(accepts_in(prog, line, offset, base + body.len() + 1, sp,
            (fuel - 1) as nat));
        let ds = Seq::<Deriv>::empty();
        (ds, (fuel - 1) as nat)
    }
}

/// Round trip, completeness direction: any input the compiled program
/// accepts has a prefix that the pattern's syntax derives.
pub proof fn lemma_accepted_input_derived(re: Re, line: Seq<char>, offset: nat)
    requires
        accepts(program_of(re), line, offset),
        code_of(re, 0).len() + 1 <= usize::MAX,
    ensures
        exists|sp2: nat| derives(re, line, offset, 0, sp2),
{
    let prog = program_of(re);
    let code = code_of(re, 0);
    let fuel = choose|fuel: nat| accepts_in(prog, line, offset, 0, 0, fuel);
    assert(accepts_in(prog, line, offset, 0, 0, fuel));
    assert(placed(prog, code, 0)) by {
        assert forall|j: int| 0 <= j < code.len() implies prog[0 + j] == #[trigger] code[j] by {
            assert(prog[j] == code[j]);
        }
    }
    let r = lemma_complete(prog, re, 0, line, offset, 0, fuel);
    assert(valid(r.0, re, line, offset, 0));
    assert(derives(re, line, offset, 0, (0 + weight(r.0)) as nat));
}

/// Round trip, soundness direction: any prefix of the input that the parsed
/// pattern derives is accepted by the program compiled from it — and so both
/// evaluation strategies, whose verdict is the program's acceptance, say so.
pub proof fn lemma_derived_input_accepted(re: Re, line: Seq<char>, offset: nat, sp2: nat)
    requires
        derives(re, line, offset, 0, sp2),
        code_of(re, 0).len() + 1 <= usize::MAX,
    ensures
        accepts(program_of(re), line, offset),
{
    let prog = program_of(re);
    let code = code_of(re, 0);
    let d = choose|d: Deriv| #[trigger] valid(d, re, line, offset, 0)
        && sp2 == 0 + weight(d);
    assert(prog[code.len() as int] == Instruction::Match);
    lemma_accepts_unfold(prog, line, offset, code.len(), weight(d));
    assert(accepts_from(prog, line, offset, code.len(), 0 + weight(d)));
    assert(placed(prog, code, 0)) by {
        assert forall|j: int| 0 <= j < code.len() implies prog[0 + j] == #[trigger] code[j] by {
            assert(prog[j] == code[j]);
        }
    }
    lemma_sound(prog, re, d, 0, line, offset, 0);
}


/// The round trip: a compiled program accepts an input exactly when the
/// syntax tree it was compiled from derives a prefix of that input.  Since
/// the verdict of both evaluation strategies is the program's acceptance,
/// the parser and the evaluator agree on language membership.
pub proof fn lemma_round_trip(re: Re, line: Seq<char>, offset: nat)
    requires
        code_of(re, 0).len() + 1 <= usize::MAX,
    ensures
        accepts(program_of(re), line, offset) <==> exists|sp2: nat|
            derives(re, line, offset, 0, sp2),
{
    if accepts(program_of(re), line, offset) {
        lemma_accepted_input_derived(re, line, offset);
    }
    if exists|sp2: nat| derives(re, line, offset, 0, sp2) {
        let sp2 = choose|sp2: nat| derives(re, line, offset, 0, sp2);
        lemma_derived_input_accepted(re, line, offset, sp2);
    }
}

} // verus!
