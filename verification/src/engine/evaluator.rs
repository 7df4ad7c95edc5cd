//! Running a program against a line.
use super::Instruction;
use crate::helper::safe_add;
use std::collections::VecDeque;
use vstd::prelude::*;

verus! {

/// Why an evaluation stopped without an answer.
#[derive(Debug, PartialEq, Eq, Clone, Copy, Structural)]
pub enum EvalError {
    /// The program counter passed the largest address.
    PCOverFlow,
    /// The line cursor passed the largest index.
    SPOverFlow,
    /// The program counter left the program.
    InvalidPC,
    /// The scheduler found no pending thread where it expected one.
    InvalidContext,
}

/// Where `to` is an address of the program, it ranks below `from`.
pub open spec fn below(prog: Seq<Instruction>, rank: Seq<nat>, from: int, to: int) -> bool {
    0 <= to < prog.len() ==> rank[to] < rank[from]
}

/// Every move that the instruction at `pc` can make without consuming a
/// character leads to an address of lower rank.
pub open spec fn descends(prog: Seq<Instruction>, rank: Seq<nat>, pc: int) -> bool {
    match prog[pc] {
        Instruction::Jump(a) => below(prog, rank, pc, a as int),
        Instruction::Split(a, b) => below(prog, rank, pc, a as int) && below(
            prog,
            rank,
            pc,
            b as int,
        ),
        Instruction::Start | Instruction::End => below(prog, rank, pc, pc + 1),
        Instruction::Char(_) | Instruction::Any | Instruction::Match => true,
    }
}

/// `rank` gives each address a number that drops along every move that
/// consumes no character.
pub open spec fn is_ranking(prog: Seq<Instruction>, rank: Seq<nat>) -> bool {
    &&& rank.len() == prog.len()
    &&& forall|pc: int| 0 <= pc < prog.len() ==> #[trigger] descends(prog, rank, pc)
}

/// The program has no cycle of moves that consume no character, so every
/// thread either consumes input or comes to rest.
pub open spec fn ranked(prog: Seq<Instruction>) -> bool {
    exists|rank: Seq<nat>| is_ranking(prog, rank)
}

/// Some ranking of a ranked program.
pub open spec fn ranking(prog: Seq<Instruction>) -> Seq<nat> {
    choose|rank: Seq<nat>| is_ranking(prog, rank)
}

/// One more than the rank of `pc`; 0 for an address outside the program.
pub open spec fn height(prog: Seq<Instruction>, pc: usize) -> nat {
    if pc < prog.len() {
        ranking(prog)[pc as int] + 1
    } else {
        0
    }
}

/// The number of characters of the line from the cursor on.
pub open spec fn remaining(line: Seq<char>, sp: usize) -> nat {
    if sp <= line.len() {
        (line.len() - sp) as nat
    } else {
        0
    }
}

/// The program can be run on the line: it is ranked, and addresses and
/// cursors fit the machine's integers.
pub open spec fn runnable(prog: Seq<Instruction>, line: Seq<char>) -> bool {
    ranked(prog) && prog.len() <= usize::MAX && line.len() <= usize::MAX
}

/// Every address that the program can reach from inside is inside: jump and
/// split targets, and the address after each instruction but `Match` and
/// `Jump`.
pub open spec fn closed(prog: Seq<Instruction>) -> bool {
    forall|pc: int|
        0 <= pc < prog.len() ==> match #[trigger] prog[pc] {
            Instruction::Jump(a) => a < prog.len(),
            Instruction::Split(a, b) => a < prog.len() && b < prog.len(),
            Instruction::Match => true,
            _ => pc + 1 < prog.len(),
        }
}

/// In a ranked program the height drops along every move that consumes no
/// character.
pub proof fn lemma_height_drops(prog: Seq<Instruction>, pc: usize)
    requires
        ranked(prog),
        pc < prog.len() <= usize::MAX,
    ensures
        match prog[pc as int] {
            Instruction::Jump(a) => height(prog, a) < height(prog, pc),
            Instruction::Split(a, b) => height(prog, a) < height(prog, pc) && height(prog, b)
                < height(prog, pc),
            Instruction::Start | Instruction::End => height(prog, (pc + 1) as usize) < height(
                prog,
                pc,
            ),
            _ => true,
        },
{
    let rank = ranking(prog);
    assert(is_ranking(prog, rank));
    assert(descends(prog, rank, pc as int));
}

/// Where the thread at `(pc, sp)` stands after an instruction that is
/// neither `Match` nor `Split`; `None` where the instruction fails.
pub open spec fn advance(prog: Seq<Instruction>, line: Seq<char>, pc: usize, sp: usize) -> Option<
    (usize, usize),
> {
    match prog[pc as int] {
        Instruction::Char(c) => if sp < line.len() && line[sp as int] == c {
            Some(((pc + 1) as usize, (sp + 1) as usize))
        } else {
            None
        },
        Instruction::Any => if sp < line.len() {
            Some(((pc + 1) as usize, (sp + 1) as usize))
        } else {
            None
        },
        Instruction::Start => if sp == 0 {
            Some(((pc + 1) as usize, sp))
        } else {
            None
        },
        Instruction::End => if sp == line.len() {
            Some(((pc + 1) as usize, sp))
        } else {
            None
        },
        Instruction::Jump(a) => Some((a, sp)),
        Instruction::Match | Instruction::Split(_, _) => None,
    }
}

/// A thread that advances comes closer to its end: it has consumed a
/// character, or its height has dropped.
pub proof fn lemma_advance_decreases(
    prog: Seq<Instruction>,
    line: Seq<char>,
    pc: usize,
    sp: usize,
)
    requires
        runnable(prog, line),
        pc < prog.len(),
        advance(prog, line, pc, sp) is Some,
    ensures
        ({
            let next = advance(prog, line, pc, sp)->Some_0;
            remaining(line, next.1) < remaining(line, sp) || (remaining(line, next.1)
                == remaining(line, sp) && height(prog, next.0) < height(prog, pc))
        }),
{
    lemma_height_drops(prog, pc);
}

/// Whether some run of the thread at `(pc, sp)` reaches `Match`, each split
/// being free to go either way.
pub open spec fn accepts(prog: Seq<Instruction>, line: Seq<char>, pc: usize, sp: usize) -> bool
    decreases remaining(line, sp), height(prog, pc),
    when runnable(prog, line)
{
    if pc >= prog.len() {
        false
    } else {
        match prog[pc as int] {
            Instruction::Match => true,
            Instruction::Split(a, b) => {
                proof {
                    lemma_height_drops(prog, pc);
                }
                accepts(prog, line, a, sp) || accepts(prog, line, b, sp)
            },
            _ => match advance(prog, line, pc, sp) {
                Some(next) => {
                    proof {
                        lemma_advance_decreases(prog, line, pc, sp);
                    }
                    accepts(prog, line, next.0, next.1)
                },
                None => false,
            },
        }
    }
}

/// What backtracking from `(pc, sp)` returns: at a split the first target is
/// tried, and the second only where the first found no match; an error ends
/// the search.
pub open spec fn depth_first(prog: Seq<Instruction>, line: Seq<char>, pc: usize, sp: usize) -> Result<
    bool,
    EvalError,
>
    decreases remaining(line, sp), height(prog, pc),
    when runnable(prog, line)
{
    if pc >= prog.len() {
        Err(EvalError::InvalidPC)
    } else {
        match prog[pc as int] {
            Instruction::Match => Ok(true),
            Instruction::Split(a, b) => {
                proof {
                    lemma_height_drops(prog, pc);
                }
                match depth_first(prog, line, a, sp) {
                    Ok(false) => depth_first(prog, line, b, sp),
                    found => found,
                }
            },
            _ => match advance(prog, line, pc, sp) {
                Some(next) => {
                    proof {
                        lemma_advance_decreases(prog, line, pc, sp);
                    }
                    depth_first(prog, line, next.0, next.1)
                },
                None => Ok(false),
            },
        }
    }
}

/// The number of instructions that running the thread at `(pc, sp)` and all
/// threads it splits off takes.
pub open spec fn cost(prog: Seq<Instruction>, line: Seq<char>, pc: usize, sp: usize) -> nat
    decreases remaining(line, sp), height(prog, pc),
    when runnable(prog, line)
{
    if pc >= prog.len() {
        1
    } else {
        match prog[pc as int] {
            Instruction::Match => 1,
            Instruction::Split(a, b) => {
                proof {
                    lemma_height_drops(prog, pc);
                }
                1 + cost(prog, line, a, sp) + cost(prog, line, b, sp)
            },
            _ => match advance(prog, line, pc, sp) {
                Some(next) => {
                    proof {
                        lemma_advance_decreases(prog, line, pc, sp);
                    }
                    1 + cost(prog, line, next.0, next.1)
                },
                None => 1,
            },
        }
    }
}

/// The cost of all threads of the queue together.
pub open spec fn total(prog: Seq<Instruction>, line: Seq<char>, queue: Seq<(usize, usize)>) -> nat
    decreases queue.len(),
{
    if queue.len() == 0 {
        0
    } else {
        cost(prog, line, queue[0].0, queue[0].1) + total(prog, line, queue.drop_first())
    }
}

/// The thread that runs next and the queue it leaves, when the thread `t`
/// has done its step: with an empty queue `t` goes on, else `t` joins the
/// back of the queue and the front thread takes over.
pub open spec fn scheduled(t: (usize, usize), queue: Seq<(usize, usize)>) -> (
    (usize, usize),
    Seq<(usize, usize)>,
) {
    if queue.len() == 0 {
        (t, queue)
    } else {
        (queue[0], queue.drop_first().push(t))
    }
}

/// The queue with one more thread costs that thread's cost more.
pub proof fn lemma_total_push(
    prog: Seq<Instruction>,
    line: Seq<char>,
    queue: Seq<(usize, usize)>,
    t: (usize, usize),
)
    ensures
        total(prog, line, queue.push(t)) == total(prog, line, queue) + cost(prog, line, t.0, t.1),
    decreases queue.len(),
{
    if queue.len() == 0 {
        assert(queue.push(t).drop_first() =~= queue);
    } else {
        lemma_total_push(prog, line, queue.drop_first(), t);
        assert(queue.push(t).drop_first() =~= queue.drop_first().push(t));
    }
}

/// Scheduling moves threads around and changes no cost.
pub proof fn lemma_scheduled_total(
    prog: Seq<Instruction>,
    line: Seq<char>,
    t: (usize, usize),
    queue: Seq<(usize, usize)>,
)
    ensures
        ({
            let (next, rest) = scheduled(t, queue);
            cost(prog, line, next.0, next.1) + total(prog, line, rest) == cost(
                prog,
                line,
                t.0,
                t.1,
            ) + total(prog, line, queue)
        }),
{
    if queue.len() > 0 {
        lemma_total_push(prog, line, queue.drop_first(), t);
    }
}

/// Every instruction costs at least one step, and a thread that advances or
/// splits costs one step more than what it leaves to run.
pub proof fn lemma_cost_step(prog: Seq<Instruction>, line: Seq<char>, pc: usize, sp: usize)
    requires
        runnable(prog, line),
    ensures
        cost(prog, line, pc, sp) >= 1,
        pc < prog.len() ==> match prog[pc as int] {
            Instruction::Match => true,
            Instruction::Split(a, b) => cost(prog, line, pc, sp) == 1 + cost(prog, line, a, sp)
                + cost(prog, line, b, sp),
            _ => match advance(prog, line, pc, sp) {
                Some(next) => cost(prog, line, pc, sp) == 1 + cost(prog, line, next.0, next.1),
                None => true,
            },
        },
{
}

/// What stepping all threads in turn returns, from the active thread
/// `(pc, sp)` and the pending threads of `queue`, front first.
///
/// `Match` ends the run with success. A split goes on at its first target at
/// once and queues the second. Any other instruction is one step: a thread
/// that advances is then scheduled by [`scheduled`]; for a thread that fails
/// the front of the queue is taken and scheduled, and with no thread left the
/// run ends without a match.
pub open spec fn width(
    prog: Seq<Instruction>,
    line: Seq<char>,
    pc: usize,
    sp: usize,
    queue: Seq<(usize, usize)>,
) -> Result<bool, EvalError>
    decreases cost(prog, line, pc, sp) + total(prog, line, queue),
    when runnable(prog, line)
{
    if pc >= prog.len() {
        Err(EvalError::InvalidPC)
    } else {
        match prog[pc as int] {
            Instruction::Match => Ok(true),
            Instruction::Split(a, b) => {
                proof {
                    lemma_cost_step(prog, line, pc, sp);
                    lemma_total_push(prog, line, queue, (b, sp));
                }
                width(prog, line, a, sp, queue.push((b, sp)))
            },
            _ => match advance(prog, line, pc, sp) {
                Some(next) => {
                    proof {
                        lemma_cost_step(prog, line, pc, sp);
                        lemma_scheduled_total(prog, line, next, queue);
                    }
                    let (t, rest) = scheduled(next, queue);
                    width(prog, line, t.0, t.1, rest)
                },
                None => if queue.len() == 0 {
                    Ok(false)
                } else {
                    proof {
                        lemma_cost_step(prog, line, pc, sp);
                        lemma_scheduled_total(prog, line, queue[0], queue.drop_first());
                    }
                    let (t, rest) = scheduled(queue[0], queue.drop_first());
                    width(prog, line, t.0, t.1, rest)
                },
            },
        }
    }
}

/// What an evaluation in the given mode returns.
pub open spec fn eval_spec(prog: Seq<Instruction>, line: Seq<char>, is_depth: bool) -> Result<
    bool,
    EvalError,
> {
    if is_depth {
        depth_first(prog, line, 0, 0)
    } else {
        width(prog, line, 0, 0, Seq::empty())
    }
}

/// Whether some thread of the queue accepts.
pub open spec fn any_accepts(
    prog: Seq<Instruction>,
    line: Seq<char>,
    queue: Seq<(usize, usize)>,
) -> bool
    decreases queue.len(),
{
    if queue.len() == 0 {
        false
    } else {
        accepts(prog, line, queue[0].0, queue[0].1) || any_accepts(prog, line, queue.drop_first())
    }
}

/// Every thread of the queue stands at an address of the program.
pub open spec fn all_inside(prog: Seq<Instruction>, queue: Seq<(usize, usize)>) -> bool {
    forall|i: int| 0 <= i < queue.len() ==> (#[trigger] queue[i]).0 < prog.len()
}

/// A thread joins the queue: some thread accepts where one did before or the
/// new one does.
pub proof fn lemma_any_accepts_push(
    prog: Seq<Instruction>,
    line: Seq<char>,
    queue: Seq<(usize, usize)>,
    t: (usize, usize),
)
    ensures
        any_accepts(prog, line, queue.push(t)) == (any_accepts(prog, line, queue) || accepts(
            prog,
            line,
            t.0,
            t.1,
        )),
    decreases queue.len(),
{
    if queue.len() == 0 {
        assert(queue.push(t).drop_first() =~= queue);
    } else {
        lemma_any_accepts_push(prog, line, queue.drop_first(), t);
        assert(queue.push(t).drop_first() =~= queue.drop_first().push(t));
    }
}

/// Scheduling keeps the threads, and so whether one of them accepts.
pub proof fn lemma_scheduled_accepts(
    prog: Seq<Instruction>,
    line: Seq<char>,
    t: (usize, usize),
    queue: Seq<(usize, usize)>,
)
    requires
        t.0 < prog.len(),
        all_inside(prog, queue),
    ensures
        ({
            let (next, rest) = scheduled(t, queue);
            &&& next.0 < prog.len()
            &&& all_inside(prog, rest)
            &&& (accepts(prog, line, next.0, next.1) || any_accepts(prog, line, rest)) == (accepts(
                prog,
                line,
                t.0,
                t.1,
            ) || any_accepts(prog, line, queue))
        }),
{
    if queue.len() > 0 {
        lemma_any_accepts_push(prog, line, queue.drop_first(), t);
        let rest = queue.drop_first().push(t);
        assert(queue[0].0 < prog.len());
        assert forall|i: int| 0 <= i < rest.len() implies (#[trigger] rest[i]).0 < prog.len() by {
            if i < queue.len() - 1 {
                assert(rest[i] == queue[i + 1]);
            }
        }
    }
}

/// On a closed program backtracking meets no error and finds a match exactly
/// where some run of the thread reaches `Match`.
pub proof fn lemma_depth_first_accepts(
    prog: Seq<Instruction>,
    line: Seq<char>,
    pc: usize,
    sp: usize,
)
    requires
        runnable(prog, line),
        closed(prog),
        pc < prog.len(),
    ensures
        depth_first(prog, line, pc, sp) == Ok::<bool, EvalError>(accepts(prog, line, pc, sp)),
    decreases remaining(line, sp), height(prog, pc),
{
    lemma_height_drops(prog, pc);
    match prog[pc as int] {
        Instruction::Match => {},
        Instruction::Split(a, b) => {
            lemma_depth_first_accepts(prog, line, a, sp);
            lemma_depth_first_accepts(prog, line, b, sp);
        },
        _ => {
            if let Some(next) = advance(prog, line, pc, sp) {
                lemma_depth_first_accepts(prog, line, next.0, next.1);
            }
        },
    }
}

/// On a closed program stepping the threads in turn meets no error and finds
/// a match exactly where some run of the active thread or of a queued one
/// reaches `Match`.
pub proof fn lemma_width_accepts(
    prog: Seq<Instruction>,
    line: Seq<char>,
    pc: usize,
    sp: usize,
    queue: Seq<(usize, usize)>,
)
    requires
        runnable(prog, line),
        closed(prog),
        pc < prog.len(),
        all_inside(prog, queue),
    ensures
        width(prog, line, pc, sp, queue) == Ok::<bool, EvalError>(
            accepts(prog, line, pc, sp) || any_accepts(prog, line, queue),
        ),
    decreases cost(prog, line, pc, sp) + total(prog, line, queue),
{
    lemma_cost_step(prog, line, pc, sp);
    match prog[pc as int] {
        Instruction::Match => {},
        Instruction::Split(a, b) => {
            let more = queue.push((b, sp));
            lemma_total_push(prog, line, queue, (b, sp));
            lemma_any_accepts_push(prog, line, queue, (b, sp));
            assert forall|i: int| 0 <= i < more.len() implies (#[trigger] more[i]).0
                < prog.len() by {
                if i < queue.len() {
                    assert(more[i] == queue[i]);
                }
            }
            lemma_width_accepts(prog, line, a, sp, more);
        },
        _ => {
            match advance(prog, line, pc, sp) {
                Some(next) => {
                    lemma_scheduled_total(prog, line, next, queue);
                    lemma_scheduled_accepts(prog, line, next, queue);
                    let (t, rest) = scheduled(next, queue);
                    lemma_width_accepts(prog, line, t.0, t.1, rest);
                },
                None => {
                    if queue.len() > 0 {
                        let tail = queue.drop_first();
                        assert(queue[0].0 < prog.len());
                        assert forall|i: int| 0 <= i < tail.len() implies (#[trigger] tail[i]).0
                            < prog.len() by {
                            assert(tail[i] == queue[i + 1]);
                        }
                        lemma_scheduled_total(prog, line, queue[0], tail);
                        lemma_scheduled_accepts(prog, line, queue[0], tail);
                        let (t, rest) = scheduled(queue[0], tail);
                        lemma_width_accepts(prog, line, t.0, t.1, rest);
                    }
                },
            }
        },
    }
}

/// Backtracking fails in one way only: the program counter leaves the
/// program. No counter overflows.
pub proof fn lemma_depth_first_error(prog: Seq<Instruction>, line: Seq<char>, pc: usize, sp: usize)
    requires
        runnable(prog, line),
    ensures
        depth_first(prog, line, pc, sp) is Err ==> depth_first(prog, line, pc, sp) == Err::<
            bool,
            EvalError,
        >(EvalError::InvalidPC),
    decreases remaining(line, sp), height(prog, pc),
{
    if pc < prog.len() {
        lemma_height_drops(prog, pc);
        match prog[pc as int] {
            Instruction::Match => {},
            Instruction::Split(a, b) => {
                lemma_depth_first_error(prog, line, a, sp);
                lemma_depth_first_error(prog, line, b, sp);
            },
            _ => {
                if let Some(next) = advance(prog, line, pc, sp) {
                    lemma_depth_first_error(prog, line, next.0, next.1);
                }
            },
        }
    }
}

/// Stepping the threads in turn fails in one way only: the program counter
/// leaves the program. No counter overflows, and the scheduler never looks
/// for a thread in an empty queue.
pub proof fn lemma_width_error(
    prog: Seq<Instruction>,
    line: Seq<char>,
    pc: usize,
    sp: usize,
    queue: Seq<(usize, usize)>,
)
    requires
        runnable(prog, line),
    ensures
        width(prog, line, pc, sp, queue) is Err ==> width(prog, line, pc, sp, queue) == Err::<
            bool,
            EvalError,
        >(EvalError::InvalidPC),
    decreases cost(prog, line, pc, sp) + total(prog, line, queue),
{
    if pc < prog.len() {
        lemma_cost_step(prog, line, pc, sp);
        match prog[pc as int] {
            Instruction::Match => {},
            Instruction::Split(a, b) => {
                lemma_total_push(prog, line, queue, (b, sp));
                lemma_width_error(prog, line, a, sp, queue.push((b, sp)));
            },
            _ => {
                match advance(prog, line, pc, sp) {
                    Some(next) => {
                        lemma_scheduled_total(prog, line, next, queue);
                        let (t, rest) = scheduled(next, queue);
                        lemma_width_error(prog, line, t.0, t.1, rest);
                    },
                    None => {
                        if queue.len() > 0 {
                            lemma_scheduled_total(prog, line, queue[0], queue.drop_first());
                            let (t, rest) = scheduled(queue[0], queue.drop_first());
                            lemma_width_error(prog, line, t.0, t.1, rest);
                        }
                    },
                }
            },
        }
    }
}

/// The two modes agree: on every closed, ranked program and every line,
/// backtracking and stepping the threads in turn return the same answer,
/// which is whether some run from the first instruction reaches `Match`.
pub proof fn lemma_modes_agree(prog: Seq<Instruction>, line: Seq<char>)
    requires
        runnable(prog, line),
        closed(prog),
    ensures
        eval_spec(prog, line, true) == eval_spec(prog, line, false),
        prog.len() > 0 ==> eval_spec(prog, line, true) == Ok::<bool, EvalError>(
            accepts(prog, line, 0, 0),
        ),
{
    if prog.len() > 0 {
        lemma_depth_first_accepts(prog, line, 0, 0);
        lemma_width_accepts(prog, line, 0, 0, Seq::empty());
    }
}

/// Runs the program by backtracking from the thread `(pc, sp)`.
///
/// A split tries its first target and, where that finds no match, its
/// second. The program must be ranked: on a cycle of moves that consume no
/// character the search would not end.
pub fn eval_depth(insts: &[Instruction], line: &[char], pc: usize, sp: usize) -> (r: Result<
    bool,
    EvalError,
>)
    requires
        ranked(insts@),
    ensures
        r == depth_first(insts@, line@, pc, sp),
        r is Err ==> r == Err::<bool, EvalError>(EvalError::InvalidPC),
    decreases remaining(line@, sp), height(insts@, pc),
{
    let mut cur = pc;
    let mut pos = sp;
    assert(insts.len() <= usize::MAX && line.len() <= usize::MAX);
    proof {
        lemma_depth_first_error(insts@, line@, pc, sp);
    }
    loop
        invariant
            runnable(insts@, line@),
            depth_first(insts@, line@, cur, pos) == depth_first(insts@, line@, pc, sp),
            remaining(line@, pos) < remaining(line@, sp) || (remaining(line@, pos) == remaining(
                line@,
                sp,
            ) && height(insts@, cur) <= height(insts@, pc)),
        decreases remaining(line@, pos), height(insts@, cur),
    {
        if cur >= insts.len() {
            return Err(EvalError::InvalidPC);
        }
        proof {
            lemma_height_drops(insts@, cur);
        }
        let pc_overflow = || -> (e: EvalError)
            ensures
                e == EvalError::PCOverFlow,
            { EvalError::PCOverFlow };
        let sp_overflow = || -> (e: EvalError)
            ensures
                e == EvalError::SPOverFlow,
            { EvalError::SPOverFlow };
        match insts[cur] {
            Instruction::Char(c) => {
                if pos < line.len() && line[pos] == c {
                    safe_add(&mut cur, &1, pc_overflow)?;
                    safe_add(&mut pos, &1, sp_overflow)?;
                } else {
                    return Ok(false);
                }
            },
            Instruction::Any => {
                if pos >= line.len() {
                    return Ok(false);
                }
                safe_add(&mut cur, &1, pc_overflow)?;
                safe_add(&mut pos, &1, sp_overflow)?;
            },
            Instruction::Start => {
                if pos != 0 {
                    return Ok(false);
                }
                safe_add(&mut cur, &1, pc_overflow)?;
            },
            Instruction::End => {
                if pos != line.len() {
                    return Ok(false);
                }
                safe_add(&mut cur, &1, pc_overflow)?;
            },
            Instruction::Match => {
                return Ok(true);
            },
            Instruction::Jump(addr) => {
                cur = addr;
            },
            Instruction::Split(addr1, addr2) => {
                if eval_depth(insts, line, addr1, pos)? || eval_depth(insts, line, addr2, pos)? {
                    return Ok(true);
                } else {
                    return Ok(false);
                }
            },
        }
    }
}

/// Runs the program by stepping all threads in turn, one instruction each.
///
/// The pending threads wait in a queue. A split goes on at its first target
/// and queues its second; after any other instruction the active thread
/// joins the back of the queue and the front thread takes over. A thread
/// that fails is dropped, and the run ends without a match when none is
/// left. Equal threads are not merged, so nested repetitions can make the
/// queue long. The program must be ranked: on a cycle of moves that consume
/// no character the run would not end.
pub fn eval_width(insts: &[Instruction], line: &[char]) -> (r: Result<bool, EvalError>)
    requires
        ranked(insts@),
    ensures
        r == width(insts@, line@, 0, 0, Seq::empty()),
        r is Err ==> r == Err::<bool, EvalError>(EvalError::InvalidPC),
{
    let mut queue = VecDeque::<(usize, usize)>::new();
    let mut pc: usize = 0;
    let mut sp: usize = 0;
    assert(insts.len() <= usize::MAX && line.len() <= usize::MAX);
    proof {
        lemma_width_error(insts@, line@, 0, 0, Seq::empty());
    }
    loop
        invariant
            runnable(insts@, line@),
            width(insts@, line@, pc, sp, queue@) == width(insts@, line@, 0, 0, Seq::empty()),
        decreases cost(insts@, line@, pc, sp) + total(insts@, line@, queue@),
    {
        if pc >= insts.len() {
            return Err(EvalError::InvalidPC);
        }
        let ghost before = queue@;
        let ghost step = advance(insts@, line@, pc, sp);
        proof {
            lemma_cost_step(insts@, line@, pc, sp);
            lemma_height_drops(insts@, pc);
            if step is Some {
                lemma_scheduled_total(insts@, line@, step->Some_0, before);
            } else if before.len() > 0 {
                lemma_scheduled_total(insts@, line@, before[0], before.drop_first());
            }
        }
        let pc_overflow = || -> (e: EvalError)
            ensures
                e == EvalError::PCOverFlow,
            { EvalError::PCOverFlow };
        let sp_overflow = || -> (e: EvalError)
            ensures
                e == EvalError::SPOverFlow,
            { EvalError::SPOverFlow };
        let advanced = match insts[pc] {
            Instruction::Char(c) => {
                if sp < line.len() && line[sp] == c {
                    safe_add(&mut pc, &1, pc_overflow)?;
                    safe_add(&mut sp, &1, sp_overflow)?;
                    true
                } else {
                    false
                }
            },
            Instruction::Any => {
                if sp < line.len() {
                    safe_add(&mut pc, &1, pc_overflow)?;
                    safe_add(&mut sp, &1, sp_overflow)?;
                    true
                } else {
                    false
                }
            },
            Instruction::Start => {
                if sp == 0 {
                    safe_add(&mut pc, &1, pc_overflow)?;
                    true
                } else {
                    false
                }
            },
            Instruction::End => {
                if sp == line.len() {
                    safe_add(&mut pc, &1, pc_overflow)?;
                    true
                } else {
                    false
                }
            },
            Instruction::Match => {
                return Ok(true);
            },
            Instruction::Jump(addr) => {
                pc = addr;
                true
            },
            Instruction::Split(addr1, addr2) => {
                proof {
                    lemma_total_push(insts@, line@, before, (addr2, sp));
                }
                pc = addr1;
                queue.push_back((addr2, sp));
                continue ;
            },
        };
        assert(advanced == (step is Some));
        assert(advanced ==> step == Some((pc, sp)));
        if !advanced {
            if queue.len() == 0 {
                return Ok(false);
            }
            let Some(branch) = queue.pop_front() else {
                return Err(EvalError::InvalidContext);
            };
            pc = branch.0;
            sp = branch.1;
            assert(queue@ =~= before.drop_first());
        }
        let ghost turn = (pc, sp);
        let ghost waiting = queue@;
        if queue.len() > 0 {
            queue.push_back((pc, sp));
            let Some(branch) = queue.pop_front() else {
                return Err(EvalError::InvalidContext);
            };
            pc = branch.0;
            sp = branch.1;
            assert(queue@ =~= waiting.drop_first().push(turn));
        }
        assert(((pc, sp), queue@) == scheduled(turn, waiting));
    }
}

/// Runs the program against the line from its first instruction and the
/// line's first character, by backtracking where `is_depth` holds and by
/// stepping all threads in turn where it does not.
///
/// A match need not reach the end of the line. On a closed program both
/// modes give `Ok(accepts(..))`: whether some run reaches `Match`. On any
/// program the only error is `InvalidPC`.
pub fn eval(insts: &[Instruction], line: &[char], is_depth: bool) -> (r: Result<bool, EvalError>)
    requires
        ranked(insts@),
    ensures
        r == eval_spec(insts@, line@, is_depth),
        closed(insts@) && insts@.len() > 0 ==> r == Ok::<bool, EvalError>(
            accepts(insts@, line@, 0, 0),
        ),
        r is Err ==> r == Err::<bool, EvalError>(EvalError::InvalidPC),
{
    assert(insts.len() <= usize::MAX && line.len() <= usize::MAX);
    proof {
        if closed(insts@) {
            lemma_modes_agree(insts@, line@);
        }
        lemma_depth_first_error(insts@, line@, 0, 0);
        lemma_width_error(insts@, line@, 0, 0, Seq::empty());
    }
    if is_depth {
        eval_depth(insts, line, 0, 0)
    } else {
        eval_width(insts, line)
    }
}

} // verus!
