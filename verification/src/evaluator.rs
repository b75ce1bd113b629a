//! The bytecode evaluator.
//!
//! A compiled program is run against an input line by a worklist search over
//! execution states `(pc, sp)`: `pc` indexes the program, `sp` the input.
//! The depth-first strategy treats the worklist as a stack and so explores
//! the first branch of every `Split` to completion before the second; the
//! breadth-first strategy treats it as a queue and steps all live states in
//! turn.  States already expanded once are not expanded again — revisiting a
//! state can never change the verdict, and skipping it bounds the search, so
//! every evaluation terminates.
//!
//! Both strategies are proved to return `Ok(b)` where `b` is exactly the
//! mathematical acceptance of the program on the input (`accepts_from`), so
//! they agree on every input: the contracts of [`eval_depth`], [`eval_width`]
//! and [`eval`] do not depend on the strategy.

use vstd::prelude::*;
use vstd::seq_lib::group_seq_properties;
use vstd::set_lib::set_int_range;
use vstd::set_lib::lemma_int_range;
use vstd::set_lib::lemma_len_subset;
use crate::helper::safe_add;

verus! {

/// One bytecode instruction.  `Jump` and `Split` carry absolute addresses.
#[derive(Debug, Clone, Copy, PartialEq, Eq, Structural)]
pub enum Instruction {
    /// Consume one input symbol iff it equals the given character.
    Char(char),
    /// Consume one input symbol iff one remains.
    Dot,
    /// Succeed in place iff the current position is the true start of line.
    Caret,
    /// Succeed in place iff the input cursor is at the end of the input.
    Dollar,
    /// Accept: the whole pattern has matched.
    Match,
    /// Unconditional control transfer.
    Jump(usize),
    /// Non-deterministic branch: try the first address, and also the second.
    Split(usize, usize),
}

/// A runtime evaluation error, distinct from an ordinary non-match.
#[derive(Debug, Clone, Copy, PartialEq, Eq, Structural)]
pub enum EvalError {
    /// The program counter could not be incremented without overflow.
    PCOverFlow,
    /// The input cursor could not be incremented without overflow.
    SPOverFlow,
    /// Control was transferred outside the program (depth-first search).
    InvalidPC,
    /// Control was transferred outside the program (breadth-first search).
    InvalidContext,
}

/// Whether execution from `(pc, sp)` can reach `Match` within `fuel` steps.
pub open spec fn accepts_in(
    prog: Seq<Instruction>,
    line: Seq<char>,
    offset: nat,
    pc: nat,
    sp: nat,
    fuel: nat,
) -> bool
    decreases fuel,
{
    if fuel == 0 {
        false
    } else if pc >= prog.len() {
        false
    } else {
        let f = (fuel - 1) as nat;
        match prog[pc as int] {
            Instruction::Char(c) => sp < line.len() && line[sp as int] == c
                && accepts_in(prog, line, offset, pc + 1, sp + 1, f),
            Instruction::Dot => sp < line.len()
                && accepts_in(prog, line, offset, pc + 1, sp + 1, f),
            Instruction::Caret => offset == 0 && sp == 0
                && accepts_in(prog, line, offset, pc + 1, sp, f),
            Instruction::Dollar => sp == line.len()
                && accepts_in(prog, line, offset, pc + 1, sp, f),
            Instruction::Match => true,
            Instruction::Jump(a) => accepts_in(prog, line, offset, a as nat, sp, f),
            Instruction::Split(a1, a2) => accepts_in(prog, line, offset, a1 as nat, sp, f)
                || accepts_in(prog, line, offset, a2 as nat, sp, f),
        }
    }
}

/// Whether execution from `(pc, sp)` can reach `Match` in any number of steps.
pub open spec fn accepts_from(
    prog: Seq<Instruction>,
    line: Seq<char>,
    offset: nat,
    pc: nat,
    sp: nat,
) -> bool {
    exists|fuel: nat| accepts_in(prog, line, offset, pc, sp, fuel)
}

/// Whether the program accepts the input, starting at `(pc, sp) = (0, 0)`.
pub open spec fn accepts(prog: Seq<Instruction>, line: Seq<char>, offset: nat) -> bool {
    accepts_from(prog, line, offset, 0, 0)
}

/// The instruction at address `i` keeps control inside the program.
pub open spec fn inst_ok(prog: Seq<Instruction>, i: int) -> bool {
    match prog[i] {
        Instruction::Char(_) => i + 1 < prog.len(),
        Instruction::Dot => i + 1 < prog.len(),
        Instruction::Caret => i + 1 < prog.len(),
        Instruction::Dollar => i + 1 < prog.len(),
        Instruction::Match => true,
        Instruction::Jump(a) => a < prog.len(),
        Instruction::Split(a1, a2) => a1 < prog.len() && a2 < prog.len(),
    }
}

/// Every control transfer in the program stays inside the program.
pub open spec fn well_formed(prog: Seq<Instruction>) -> bool {
    forall|i: int| 0 <= i < prog.len() ==> #[trigger] inst_ok(prog, i)
}

/// Acceptance from a state unfolds along the instruction at its counter:
/// `Match` accepts, a check accepts iff it passes and the next state accepts,
/// and a transfer accepts iff a target state accepts.
pub proof fn lemma_accepts_unfold(prog: Seq<Instruction>, line: Seq<char>, offset: nat, pc: nat, sp: nat)
    requires
        pc < prog.len(),
    ensures
        accepts_from(prog, line, offset, pc, sp) <==> match prog[pc as int] {
            Instruction::Char(c) => sp < line.len() && line[sp as int] == c
                && accepts_from(prog, line, offset, pc + 1, sp + 1),
            Instruction::Dot => sp < line.len()
                && accepts_from(prog, line, offset, pc + 1, sp + 1),
            Instruction::Caret => offset == 0 && sp == 0
                && accepts_from(prog, line, offset, pc + 1, sp),
            Instruction::Dollar => sp == line.len()
                && accepts_from(prog, line, offset, pc + 1, sp),
            Instruction::Match => true,
            Instruction::Jump(a) => accepts_from(prog, line, offset, a as nat, sp),
            Instruction::Split(a1, a2) => accepts_from(prog, line, offset, a1 as nat, sp)
                || accepts_from(prog, line, offset, a2 as nat, sp),
        },
{
    if accepts_from(prog, line, offset, pc, sp) {
        let fuel = choose|fuel: nat| accepts_in(prog, line, offset, pc, sp, fuel);
        assert(accepts_in(prog, line, offset, pc, sp, fuel));
        assert(fuel > 0);
        let f = (fuel - 1) as nat;
        match prog[pc as int] {
            Instruction::Char(_) => {
                if accepts_in(prog, line, offset, pc + 1, sp + 1, f) {
                    assert(accepts_from(prog, line, offset, pc + 1, sp + 1));
                }
            },
            Instruction::Dot => {
                if accepts_in(prog, line, offset, pc + 1, sp + 1, f) {
                    assert(accepts_from(prog, line, offset, pc + 1, sp + 1));
                }
            },
            Instruction::Caret => {
                if accepts_in(prog, line, offset, pc + 1, sp, f) {
                    assert(accepts_from(prog, line, offset, pc + 1, sp));
                }
            },
            Instruction::Dollar => {
                if accepts_in(prog, line, offset, pc + 1, sp, f) {
                    assert(accepts_from(prog, line, offset, pc + 1, sp));
                }
            },
            Instruction::Match => {},
            Instruction::Jump(a) => {
                assert(accepts_in(prog, line, offset, a as nat, sp, f));
                assert(accepts_from(prog, line, offset, a as nat, sp));
            },
            Instruction::Split(a1, a2) => {
                if accepts_in(prog, line, offset, a1 as nat, sp, f) {
                    assert(accepts_from(prog, line, offset, a1 as nat, sp));
                } else {
                    assert(accepts_in(prog, line, offset, a2 as nat, sp, f));
                    assert(accepts_from(prog, line, offset, a2 as nat, sp));
                }
            },
        }
    }
    let pcn: nat = pc + 1;
    let spn: nat = sp + 1;
    match prog[pc as int] {
        Instruction::Char(c) => {
            if sp < line.len() && line[sp as int] == c
                && accepts_from(prog, line, offset, pcn, spn) {
                let f = choose|f: nat| accepts_in(prog, line, offset, pcn, spn, f);
                assert(accepts_in(prog, line, offset, pc, sp, f + 1));
            }
        },
        Instruction::Dot => {
            if sp < line.len() && accepts_from(prog, line, offset, pcn, spn) {
                let f = choose|f: nat| accepts_in(prog, line, offset, pcn, spn, f);
                assert(accepts_in(prog, line, offset, pc, sp, f + 1));
            }
        },
        Instruction::Caret => {
            if offset == 0 && sp == 0 && accepts_from(prog, line, offset, pcn, sp) {
                let f = choose|f: nat| accepts_in(prog, line, offset, pcn, sp, f);
                assert(accepts_in(prog, line, offset, pc, sp, f + 1));
            }
        },
        Instruction::Dollar => {
            if sp == line.len() && accepts_from(prog, line, offset, pcn, sp) {
                let f = choose|f: nat| accepts_in(prog, line, offset, pcn, sp, f);
                assert(accepts_in(prog, line, offset, pc, sp, f + 1));
            }
        },
        Instruction::Match => {
            assert(accepts_in(prog, line, offset, pc, sp, 1));
        },
        Instruction::Jump(a) => {
            let an: nat = a as nat;
            if accepts_from(prog, line, offset, an, sp) {
                let f = choose|f: nat| accepts_in(prog, line, offset, an, sp, f);
                assert(accepts_in(prog, line, offset, pc, sp, f + 1));
            }
        },
        Instruction::Split(a1, a2) => {
            let a1n: nat = a1 as nat;
            let a2n: nat = a2 as nat;
            if accepts_from(prog, line, offset, a1n, sp) {
                let f = choose|f: nat| accepts_in(prog, line, offset, a1n, sp, f);
                assert(accepts_in(prog, line, offset, pc, sp, f + 1));
            } else if accepts_from(prog, line, offset, a2n, sp) {
                let f = choose|f: nat| accepts_in(prog, line, offset, a2n, sp, f);
                assert(accepts_in(prog, line, offset, pc, sp, f + 1));
            }
        },
    }
}

/// Acceptance of a worklist state.
spec fn state_accepts(
    prog: Seq<Instruction>,
    line: Seq<char>,
    offset: nat,
    st: (usize, usize),
) -> bool {
    accepts_from(prog, line, offset, st.0 as nat, st.1 as nat)
}

/// The states the machine steps to from `st` (empty when the check at `st`
/// fails or `st` is accepting).  Meaningful only when `st.0` is in bounds.
spec fn succ_states(
    prog: Seq<Instruction>,
    line: Seq<char>,
    offset: nat,
    st: (usize, usize),
) -> Seq<(usize, usize)> {
    match prog[st.0 as int] {
        Instruction::Char(c) => if st.1 < line.len() && line[st.1 as int] == c {
            seq![((st.0 + 1) as usize, (st.1 + 1) as usize)]
        } else {
            Seq::empty()
        },
        Instruction::Dot => if st.1 < line.len() {
            seq![((st.0 + 1) as usize, (st.1 + 1) as usize)]
        } else {
            Seq::empty()
        },
        Instruction::Caret => if offset == 0 && st.1 == 0 {
            seq![((st.0 + 1) as usize, st.1)]
        } else {
            Seq::empty()
        },
        Instruction::Dollar => if st.1 == line.len() {
            seq![((st.0 + 1) as usize, st.1)]
        } else {
            Seq::empty()
        },
        Instruction::Match => Seq::empty(),
        Instruction::Jump(a) => seq![(a, st.1)],
        Instruction::Split(a1, a2) => seq![(a1, st.1), (a2, st.1)],
    }
}

/// A state accepts exactly when its instruction is `Match` or some successor
/// state accepts.
proof fn lemma_state_unfold(
    prog: Seq<Instruction>,
    line: Seq<char>,
    offset: nat,
    st: (usize, usize),
)
    requires
        (st.0 as nat) < prog.len(),
        prog.len() <= usize::MAX,
        line.len() <= usize::MAX,
    ensures
        state_accepts(prog, line, offset, st) <==> (prog[st.0 as int] is Match
            || exists|j: int|
                0 <= j < succ_states(prog, line, offset, st).len()
                    && state_accepts(prog, line, offset,
                        #[trigger] succ_states(prog, line, offset, st)[j])),
{
    let succs = succ_states(prog, line, offset, st);
    if state_accepts(prog, line, offset, st) {
        let fuel = choose|fuel: nat|
            accepts_in(prog, line, offset, st.0 as nat, st.1 as nat, fuel);
        assert(accepts_in(prog, line, offset, st.0 as nat, st.1 as nat, fuel));
        assert(fuel > 0);
        let f = (fuel - 1) as nat;
        if !(prog[st.0 as int] is Match) {
            match prog[st.0 as int] {
                Instruction::Char(_) | Instruction::Dot => {
                    assert(accepts_in(prog, line, offset, st.0 as nat + 1, st.1 as nat + 1, f));
                    assert(state_accepts(prog, line, offset, succs[0]));
                },
                Instruction::Caret | Instruction::Dollar => {
                    assert(accepts_in(prog, line, offset, st.0 as nat + 1, st.1 as nat, f));
                    assert(state_accepts(prog, line, offset, succs[0]));
                },
                Instruction::Jump(a) => {
                    assert(accepts_in(prog, line, offset, a as nat, st.1 as nat, f));
                    assert(state_accepts(prog, line, offset, succs[0]));
                },
                Instruction::Split(a1, a2) => {
                    if accepts_in(prog, line, offset, a1 as nat, st.1 as nat, f) {
                        assert(state_accepts(prog, line, offset, succs[0]));
                    } else {
                        assert(accepts_in(prog, line, offset, a2 as nat, st.1 as nat, f));
                        assert(state_accepts(prog, line, offset, succs[1]));
                    }
                },
                _ => {},
            }
        }
    }
    if prog[st.0 as int] is Match {
        assert(accepts_in(prog, line, offset, st.0 as nat, st.1 as nat, 1));
        assert(state_accepts(prog, line, offset, st));
    } else if exists|j: int|
        0 <= j < succs.len() && state_accepts(prog, line, offset, #[trigger] succs[j]) {
        let j = choose|j: int|
            0 <= j < succs.len() && state_accepts(prog, line, offset, #[trigger] succs[j]);
        let sj = succs[j];
        let fuel = choose|fuel: nat|
            accepts_in(prog, line, offset, sj.0 as nat, sj.1 as nat, fuel);
        assert(accepts_in(prog, line, offset, sj.0 as nat, sj.1 as nat, fuel));
        match prog[st.0 as int] {
            Instruction::Split(a1, a2) => {
                assert(sj == succs[0] || sj == succs[1]);
                assert(accepts_in(prog, line, offset, st.0 as nat, st.1 as nat, fuel + 1));
            },
            _ => {
                assert(sj == succs[0]);
                assert(accepts_in(prog, line, offset, st.0 as nat, st.1 as nat, fuel + 1));
            },
        }
        assert(state_accepts(prog, line, offset, st));
    }
}

/// An already-expanded worklist state: it is in bounds, it is not accepting,
/// and each of its successors is itself expanded or still on the worklist.
spec fn expanded(
    prog: Seq<Instruction>,
    line: Seq<char>,
    offset: nat,
    seen: Seq<(usize, usize)>,
    work: Seq<(usize, usize)>,
    st: (usize, usize),
) -> bool {
    &&& (st.0 as nat) < prog.len()
    &&& !(prog[st.0 as int] is Match)
    &&& forall|j: int|
        0 <= j < succ_states(prog, line, offset, st).len()
            ==> seen.contains(#[trigger] succ_states(prog, line, offset, st)[j])
                || work.contains(succ_states(prog, line, offset, st)[j])
}

/// If every successor of every state in `seen` is again in `seen`, and no
/// state in `seen` is accepting, then no state in `seen` reaches `Match`.
proof fn lemma_closed_rejects(
    prog: Seq<Instruction>,
    line: Seq<char>,
    offset: nat,
    seen: Seq<(usize, usize)>,
    st: (usize, usize),
    fuel: nat,
)
    requires
        prog.len() <= usize::MAX,
        line.len() <= usize::MAX,
        seen.contains(st),
        forall|i: int|
            0 <= i < seen.len()
                ==> expanded(prog, line, offset, seen, Seq::empty(), #[trigger] seen[i]),
    ensures
        !accepts_in(prog, line, offset, st.0 as nat, st.1 as nat, fuel),
    decreases fuel,
{
    if fuel > 0 {
        let i = choose|i: int| 0 <= i < seen.len() && seen[i] == st;
        assert(seen[i] == st);
        assert(expanded(prog, line, offset, seen, Seq::empty(), st));
        let succs = succ_states(prog, line, offset, st);
        let f = (fuel - 1) as nat;
        assert forall|j: int| 0 <= j < succs.len() implies seen.contains(#[trigger] succs[j]) by {
            assert(!Seq::<(usize, usize)>::empty().contains(succs[j]));
        }
        match prog[st.0 as int] {
            Instruction::Char(c) => {
                if st.1 < line.len() && line[st.1 as int] == c {
                    lemma_closed_rejects(prog, line, offset, seen, succs[0], f);
                }
            },
            Instruction::Dot => {
                if st.1 < line.len() {
                    lemma_closed_rejects(prog, line, offset, seen, succs[0], f);
                }
            },
            Instruction::Caret => {
                if offset == 0 && st.1 == 0 {
                    lemma_closed_rejects(prog, line, offset, seen, succs[0], f);
                }
            },
            Instruction::Dollar => {
                if st.1 == line.len() {
                    lemma_closed_rejects(prog, line, offset, seen, succs[0], f);
                }
            },
            Instruction::Match => {},
            Instruction::Jump(_) => {
                lemma_closed_rejects(prog, line, offset, seen, succs[0], f);
            },
            Instruction::Split(_, _) => {
                lemma_closed_rejects(prog, line, offset, seen, succs[0], f);
                lemma_closed_rejects(prog, line, offset, seen, succs[1], f);
            },
        }
    }
}

/// A state the search may mark as expanded: its cursor is the initial cursor
/// or inside the input; its counter is inside the program.
spec fn bounded_state(st: (usize, usize), p: nat, l: nat, s0: nat) -> bool {
    (st.0 as nat) < p && ((st.1 as nat) <= l || (st.1 as nat) == s0)
}

/// Injective encoding of a bounded state as an integer below `p * (l + 2)`.
spec fn state_index(st: (usize, usize), l: nat, s0: nat) -> int {
    st.0 * (l + 2) + (if st.1 <= l { st.1 as int } else { l + 1int })
}

/// A duplicate-free sequence of bounded states cannot outgrow the number of
/// distinct bounded states.
proof fn lemma_seen_bound(seen: Seq<(usize, usize)>, p: nat, l: nat, s0: nat)
    requires
        seen.no_duplicates(),
        forall|i: int| 0 <= i < seen.len() ==> bounded_state(#[trigger] seen[i], p, l, s0),
    ensures
        seen.len() <= p * (l + 2),
{
    let enc = |st: (usize, usize)| state_index(st, l, s0);
    let m = seen.map_values(enc);
    assert forall|i: int, j: int| 0 <= i < m.len() && 0 <= j < m.len() && i != j
        implies m[i] != m[j] by {
        let a = seen[i];
        let b = seen[j];
        assert(a != b);
        let ra = if a.1 <= l { a.1 as int } else { l + 1int };
        let rb = if b.1 <= l { b.1 as int } else { l + 1int };
        assert(0 <= ra < l + 2);
        assert(0 <= rb < l + 2);
        if a.0 != b.0 {
            assert(a.0 * (l + 2) + ra != b.0 * (l + 2) + rb) by (nonlinear_arith)
                requires 0 <= ra < l + 2 && 0 <= rb < l + 2 && a.0 != b.0;
        } else {
            assert(ra != rb);
        }
    }
    m.unique_seq_to_set();
    let range = set_int_range(0, p * (l + 2int));
    lemma_int_range(0, p * (l + 2int));
    assert forall|x: int| m.to_set().contains(x) implies range.contains(x) by {
        let i = choose|i: int| 0 <= i < m.len() && m[i] == x;
        let a = seen[i];
        let ra = if a.1 <= l { a.1 as int } else { l + 1int };
        assert(a.0 * (l + 2) + ra < p * (l + 2)) by (nonlinear_arith)
            requires 0 <= ra < l + 2 && 0 <= a.0 < p;
    }
    lemma_len_subset(m.to_set(), range);
}

/// The worklist search shared by the two strategies.  The verdict does not
/// depend on `is_depth`: it is exactly `accepts_from` at the start state.
#[verifier::rlimit(100)]
fn search(
    inst: &[Instruction],
    line: &[char],
    offset: usize,
    pc: usize,
    sp: usize,
    is_depth: bool,
) -> (r: Result<bool, EvalError>)
    ensures
        r matches Ok(b) ==> b == accepts_from(inst@, line@, offset as nat, pc as nat, sp as nat),
        well_formed(inst@) && (pc as nat) < inst@.len() ==> r is Ok,
{
    broadcast use group_seq_properties;

    let ghost prog = inst@;
    let ghost input = line@;
    let ghost off = offset as nat;
    let ghost init: (usize, usize) = (pc, sp);
    let n: usize = inst.len();
    let nl: usize = line.len();
    proof {
        assert(prog.len() == n as nat);
        assert(input.len() == nl as nat);
    }
    let mut work: std::collections::VecDeque<(usize, usize)> =
        std::collections::VecDeque::new();
    work.push_back((pc, sp));
    let mut seen: Vec<(usize, usize)> = Vec::new();
    loop
        invariant
            prog == inst@,
            input == line@,
            off == offset as nat,
            init == (pc, sp),
            prog.len() <= usize::MAX,
            input.len() <= usize::MAX,
            forall|i: int|
                0 <= i < work@.len()
                    ==> (state_accepts(prog, input, off, #[trigger] work@[i])
                        ==> state_accepts(prog, input, off, init)),
            forall|i: int|
                0 <= i < seen@.len()
                    ==> expanded(prog, input, off, seen@, work@, #[trigger] seen@[i]),
            seen@.contains(init) || work@.contains(init),
            seen@.no_duplicates(),
            forall|i: int|
                0 <= i < seen@.len()
                    ==> bounded_state(#[trigger] seen@[i], prog.len(), input.len(), init.1 as nat),
            forall|i: int|
                0 <= i < work@.len()
                    ==> ((#[trigger] work@[i]).1 <= input.len() || work@[i].1 == init.1),
            well_formed(prog) && (init.0 as nat) < prog.len()
                ==> forall|i: int|
                    0 <= i < work@.len() ==> ((#[trigger] work@[i]).0 as nat) < prog.len(),
        decreases prog.len() * (input.len() + 2) - seen@.len(), work@.len(),
    {
        proof {
            lemma_seen_bound(seen@, prog.len(), input.len(), init.1 as nat);
        }
        let ghost prev_work = work@;
        let next = if is_depth { work.pop_back() } else { work.pop_front() };
        let st = match next {
            None => {
                proof {
                    assert(seen@.contains(init));
                    assert forall|i: int| 0 <= i < seen@.len()
                        implies expanded(prog, input, off, seen@, Seq::empty(),
                            #[trigger] seen@[i]) by {
                        assert(expanded(prog, input, off, seen@, work@, seen@[i]));
                        assert(work@ =~= Seq::<(usize, usize)>::empty());
                    }
                    assert forall|fuel: nat|
                        !accepts_in(prog, input, off, init.0 as nat, init.1 as nat, fuel) by {
                        lemma_closed_rejects(prog, input, off, seen@, init, fuel);
                    }
                    assert(!accepts_from(prog, input, off, pc as nat, sp as nat));
                }
                return Ok(false);
            },
            Some(st) => st,
        };
        let ghost rest = work@;
        proof {
            if is_depth {
                assert(prev_work =~= rest.push(st));
            } else {
                assert(prev_work =~= seq![st] + rest);
            }
            assert(prev_work.contains(st));
            assert forall|x: (usize, usize)| prev_work.contains(x)
                implies rest.contains(x) || x == st by {
                let i = choose|i: int| 0 <= i < prev_work.len() && prev_work[i] == x;
                if is_depth {
                    if i < rest.len() {
                        assert(rest[i] == x);
                    }
                } else {
                    if i > 0 {
                        assert(rest[i - 1] == x);
                    }
                }
            }
            assert forall|x: (usize, usize)| rest.contains(x)
                implies prev_work.contains(x) by {
                let i = choose|i: int| 0 <= i < rest.len() && rest[i] == x;
                if is_depth {
                    assert(prev_work[i] == x);
                } else {
                    assert(prev_work[i + 1] == x);
                }
            }
        }
        if st.0 >= inst.len() {
            proof {
                if well_formed(prog) && (init.0 as nat) < prog.len() {
                    let i = choose|i: int| 0 <= i < prev_work.len() && prev_work[i] == st;
                    assert((prev_work[i].0 as nat) < prog.len());
                }
            }
            return Err(if is_depth { EvalError::InvalidPC } else { EvalError::InvalidContext });
        }
        if contains_state(&seen, st) {
            proof {
                assert forall|i: int| 0 <= i < seen@.len()
                    implies expanded(prog, input, off, seen@, work@, #[trigger] seen@[i]) by {
                    assert(expanded(prog, input, off, seen@, prev_work, seen@[i]));
                    let e = seen@[i];
                    assert forall|j: int|
                        0 <= j < succ_states(prog, input, off, e).len()
                            implies seen@.contains(#[trigger] succ_states(prog, input, off, e)[j])
                                || work@.contains(succ_states(prog, input, off, e)[j]) by {
                        let s = succ_states(prog, input, off, e)[j];
                        if !seen@.contains(s) {
                            assert(prev_work.contains(s));
                            assert(rest.contains(s) || s == st);
                        }
                    }
                }
                if !seen@.contains(init) {
                    assert(prev_work.contains(init));
                    assert(rest.contains(init) || init == st);
                }
            }
            continue;
        }
        let ghost old_seen = seen@;
        let ghost succs = succ_states(prog, input, off, st);
        proof {
            let i = choose|i: int| 0 <= i < prev_work.len() && prev_work[i] == st;
            assert(state_accepts(prog, input, off, st)
                ==> state_accepts(prog, input, off, init));
            assert(st.1 <= input.len() || st.1 == init.1);
            lemma_state_unfold(prog, input, off, st);
        }
        let here = inst[st.0];
        match here {
            Instruction::Match => {
                proof {
                    assert(accepts_in(prog, input, off, st.0 as nat, st.1 as nat, 1));
                    assert(state_accepts(prog, input, off, st));
                    assert(accepts_from(prog, input, off, pc as nat, sp as nat));
                }
                return Ok(true);
            },
            _ => {},
        }
        seen.push(st);
        proof {
            assert forall|i: int, j: int|
                0 <= i < seen@.len() && 0 <= j < seen@.len() && i != j
                    implies seen@[i] != seen@[j] by {
                if i < old_seen.len() && j < old_seen.len() {
                    assert(old_seen[i] == seen@[i] && old_seen[j] == seen@[j]);
                } else if i < old_seen.len() {
                    assert(!old_seen.contains(st));
                    assert(old_seen[i] == seen@[i] && seen@[j] == st);
                } else {
                    assert(!old_seen.contains(st));
                    assert(old_seen[j] == seen@[j] && seen@[i] == st);
                }
            }
        }
        let mut pushed = 0usize;
        match here {
            Instruction::Char(c) => {
                if st.1 < line.len() && line[st.1] == c {
                    let mut p2 = st.0;
                    let mut s2 = st.1;
                    let ra = safe_add(&mut p2, &1, || EvalError::PCOverFlow);
                    match ra {
                        Ok(_) => {},
                        Err(e) => {
                            return Err(e);
                        },
                    }
                    let rb = safe_add(&mut s2, &1, || EvalError::SPOverFlow);
                    match rb {
                        Ok(_) => {},
                        Err(e) => {
                            return Err(e);
                        },
                    }
                    work.push_back((p2, s2));
                    pushed = 1;
                    proof {
                        assert(succs =~= seq![(p2, s2)]);
                    }
                } else {
                    proof {
                        assert(succs =~= Seq::<(usize, usize)>::empty());
                    }
                }
            },
            Instruction::Dot => {
                if st.1 < line.len() {
                    let mut p2 = st.0;
                    let mut s2 = st.1;
                    let ra = safe_add(&mut p2, &1, || EvalError::PCOverFlow);
                    match ra {
                        Ok(_) => {},
                        Err(e) => {
                            return Err(e);
                        },
                    }
                    let rb = safe_add(&mut s2, &1, || EvalError::SPOverFlow);
                    match rb {
                        Ok(_) => {},
                        Err(e) => {
                            return Err(e);
                        },
                    }
                    work.push_back((p2, s2));
                    pushed = 1;
                    proof {
                        assert(succs =~= seq![(p2, s2)]);
                    }
                } else {
                    proof {
                        assert(succs =~= Seq::<(usize, usize)>::empty());
                    }
                }
            },
            Instruction::Caret => {
                if offset == 0 && st.1 == 0 {
                    let mut p2 = st.0;
                    let ra = safe_add(&mut p2, &1, || EvalError::PCOverFlow);
                    match ra {
                        Ok(_) => {},
                        Err(e) => {
                            return Err(e);
                        },
                    }
                    work.push_back((p2, st.1));
                    pushed = 1;
                    proof {
                        assert(succs =~= seq![(p2, st.1)]);
                    }
                } else {
                    proof {
                        assert(succs =~= Seq::<(usize, usize)>::empty());
                    }
                }
            },
            Instruction::Dollar => {
                if st.1 == line.len() {
                    let mut p2 = st.0;
                    let ra = safe_add(&mut p2, &1, || EvalError::PCOverFlow);
                    match ra {
                        Ok(_) => {},
                        Err(e) => {
                            return Err(e);
                        },
                    }
                    work.push_back((p2, st.1));
                    pushed = 1;
                    proof {
                        assert(succs =~= seq![(p2, st.1)]);
                    }
                } else {
                    proof {
                        assert(succs =~= Seq::<(usize, usize)>::empty());
                    }
                }
            },
            Instruction::Match => {},
            Instruction::Jump(a) => {
                work.push_back((a, st.1));
                pushed = 1;
                proof {
                    assert(succs =~= seq![(a, st.1)]);
                }
            },
            Instruction::Split(a1, a2) => {
                if is_depth {
                    work.push_back((a2, st.1));
                    work.push_back((a1, st.1));
                } else {
                    work.push_back((a1, st.1));
                    work.push_back((a2, st.1));
                }
                pushed = 2;
                proof {
                    assert(succs =~= seq![(a1, st.1), (a2, st.1)]);
                }
            },
        }
        proof {
            let wl = work@;
            // shape of the new expanded set
            assert(seen@ == old_seen.push(st));
            assert(seen@[old_seen.len() as int] == st);
            assert(forall|i: int| 0 <= i < old_seen.len() ==> seen@[i] == old_seen[i]);
            assert(seen@.contains(st));
            // shape of the new worklist
            assert(succs.len() == pushed);
            if pushed == 1 {
                assert(wl =~= rest.push(succs[0]));
                assert(wl[rest.len() as int] == succs[0]);
            } else if pushed == 2 {
                if is_depth {
                    assert(wl =~= rest.push(succs[1]).push(succs[0]));
                    assert(wl[rest.len() as int] == succs[1]);
                    assert(wl[rest.len() as int + 1] == succs[0]);
                } else {
                    assert(wl =~= rest.push(succs[0]).push(succs[1]));
                    assert(wl[rest.len() as int] == succs[0]);
                    assert(wl[rest.len() as int + 1] == succs[1]);
                }
            } else {
                assert(wl =~= rest);
            }
            assert(wl.len() == rest.len() + pushed);
            assert(forall|i: int| 0 <= i < rest.len() ==> wl[i] == rest[i]);
            // every entry of the old worklist is in the new one or is st itself
            assert(forall|i: int|
                0 <= i < rest.len()
                    ==> rest[i] == prev_work[if is_depth { i } else { i + 1 }]);
            // every successor of st is on the new worklist
            assert forall|j: int| 0 <= j < succs.len()
                implies wl.contains(#[trigger] succs[j]) by {
                if pushed == 1 {
                    assert(wl[rest.len() as int] == succs[j]);
                } else {
                    if is_depth {
                        if j == 0 {
                            assert(wl[rest.len() as int + 1] == succs[j]);
                        } else {
                            assert(wl[rest.len() as int] == succs[j]);
                        }
                    } else {
                        if j == 0 {
                            assert(wl[rest.len() as int] == succs[j]);
                        } else {
                            assert(wl[rest.len() as int + 1] == succs[j]);
                        }
                    }
                }
            }
            // soundness: any accepting state on the worklist implies the root accepts
            assert forall|i: int| 0 <= i < wl.len()
                implies (state_accepts(prog, input, off, #[trigger] wl[i])
                    ==> state_accepts(prog, input, off, init)) by {
                if i < rest.len() {
                    assert(wl[i] == prev_work[if is_depth { i } else { i + 1 }]);
                } else {
                    if state_accepts(prog, input, off, wl[i]) {
                        let j: int = if pushed == 1 {
                            0
                        } else if is_depth {
                            if i == rest.len() { 1 } else { 0 }
                        } else {
                            if i == rest.len() { 0 } else { 1 }
                        };
                        assert(wl[i] == succs[j]);
                        assert(state_accepts(prog, input, off,
                            succ_states(prog, input, off, st)[j]));
                        assert(state_accepts(prog, input, off, st));
                    }
                }
            }
            // closure: successors of expanded states stay covered
            assert forall|i: int| 0 <= i < seen@.len()
                implies expanded(prog, input, off, seen@, wl, #[trigger] seen@[i]) by {
                let e = seen@[i];
                if i < old_seen.len() {
                    assert(e == old_seen[i]);
                    assert(expanded(prog, input, off, old_seen, prev_work, e));
                    assert forall|j: int|
                        0 <= j < succ_states(prog, input, off, e).len()
                            implies seen@.contains(#[trigger] succ_states(prog, input, off, e)[j])
                                || wl.contains(succ_states(prog, input, off, e)[j]) by {
                        let s = succ_states(prog, input, off, e)[j];
                        if old_seen.contains(s) {
                            let k = choose|k: int| 0 <= k < old_seen.len() && old_seen[k] == s;
                            assert(seen@[k] == s);
                        } else {
                            assert(prev_work.contains(s));
                            let k = choose|k: int|
                                0 <= k < prev_work.len() && prev_work[k] == s;
                            if is_depth {
                                if k < rest.len() {
                                    assert(wl[k] == rest[k] && rest[k] == s);
                                } else {
                                    assert(s == st);
                                    assert(seen@[old_seen.len() as int] == s);
                                }
                            } else {
                                if k > 0 {
                                    assert(wl[k - 1] == rest[k - 1] && rest[k - 1] == s);
                                } else {
                                    assert(s == st);
                                    assert(seen@[old_seen.len() as int] == s);
                                }
                            }
                        }
                    }
                } else {
                    assert(e == st);
                    assert(!(prog[st.0 as int] is Match));
                }
            }
            // the root stays covered
            if init == st {
                assert(seen@.contains(init));
            } else if old_seen.contains(init) {
                let k = choose|k: int| 0 <= k < old_seen.len() && old_seen[k] == init;
                assert(seen@[k] == init);
                assert(seen@.contains(init));
            } else {
                assert(prev_work.contains(init));
                let k = choose|k: int| 0 <= k < prev_work.len() && prev_work[k] == init;
                if is_depth {
                    assert(k < rest.len());
                    assert(wl[k] == init);
                } else {
                    assert(k > 0);
                    assert(wl[k - 1] == init);
                }
                assert(wl.contains(init));
            }
            // bookkeeping bounds for termination
            assert(bounded_state(st, prog.len(), input.len(), init.1 as nat));
            assert forall|i: int| 0 <= i < wl.len()
                implies ((#[trigger] wl[i]).1 <= input.len() || wl[i].1 == init.1) by {
                if i < rest.len() {
                    assert(wl[i] == prev_work[if is_depth { i } else { i + 1 }]);
                }
            }
            if well_formed(prog) && (init.0 as nat) < prog.len() {
                assert(inst_ok(prog, st.0 as int));
                assert forall|i: int| 0 <= i < wl.len()
                    implies ((#[trigger] wl[i]).0 as nat) < prog.len() by {
                    if i < rest.len() {
                        assert(wl[i] == prev_work[if is_depth { i } else { i + 1 }]);
                    }
                }
            }
            lemma_seen_bound(seen@, prog.len(), input.len(), init.1 as nat);
        }
    }
}

/// Linear membership test on the set of already-expanded states.
fn contains_state(seen: &Vec<(usize, usize)>, st: (usize, usize)) -> (b: bool)
    ensures
        b == seen@.contains(st),
{
    let mut i: usize = 0;
    while i < seen.len()
        invariant
            i <= seen@.len(),
            forall|k: int| 0 <= k < i ==> #[trigger] seen@[k] != st,
        decreases seen@.len() - i,
    {
        let e = seen[i];
        if e.0 == st.0 && e.1 == st.1 {
            assert(seen@[i as int] == st);
            return true;
        }
        i = i + 1;
    }
    false
}

/// Depth-first (backtracking) evaluation from the state `(pc, sp)`.
///
/// When the result is `Ok(b)`, `b` is exactly the mathematical acceptance of
/// the program from that state — the same value [`eval_width`] computes — and
/// on a well-formed program with an in-bounds start the result is always `Ok`.
pub fn eval_depth(
    inst: &[Instruction],
    line: &[char],
    offset: usize,
    pc: usize,
    sp: usize,
) -> (r: Result<bool, EvalError>)
    ensures
        r matches Ok(b) ==> b == accepts_from(inst@, line@, offset as nat, pc as nat, sp as nat),
        well_formed(inst@) && (pc as nat) < inst@.len() ==> r is Ok,
{
    search(inst, line, offset, pc, sp, true)
}

/// Breadth-first (simultaneous) evaluation of the whole program.
///
/// When the result is `Ok(b)`, `b` is exactly the mathematical acceptance of
/// the program on the input — the same value [`eval_depth`] computes from
/// `(0, 0)` — and on a well-formed non-empty program the result is always `Ok`.
pub fn eval_width(inst: &[Instruction], line: &[char], offset: usize) -> (r: Result<
    bool,
    EvalError,
>)
    ensures
        r matches Ok(b) ==> b == accepts(inst@, line@, offset as nat),
        well_formed(inst@) && inst@.len() > 0 ==> r is Ok,
{
    search(inst, line, offset, 0, 0, false)
}

/// Runs the program against `line`, starting at instruction 0 and cursor 0.
///
/// `offset` is the absolute position of `line[0]` within the original input,
/// so `^` can tell a true start of line from a window into it.  `is_depth`
/// selects depth-first backtracking over breadth-first simulation; the two
/// agree on every input, as the contract does not depend on `is_depth`.
pub fn eval(inst: &[Instruction], line: &[char], offset: usize, is_depth: bool) -> (r: Result<
    bool,
    EvalError,
>)
    ensures
        r matches Ok(b) ==> b == accepts(inst@, line@, offset as nat),
        well_formed(inst@) && inst@.len() > 0 ==> r is Ok,
{
    if is_depth {
        eval_depth(inst, line, offset, 0, 0)
    } else {
        eval_width(inst, line, offset)
    }
}

} // verus!
