//! What generated programs look like: where their jumps lead, and which
//! patterns give programs whose threads always come to rest.
use super::codegen::{
    code, code_upto, compile_spec, lemma_code_len, lemma_code_upto_len, size, size_upto,
};
use super::evaluator::{closed, descends, is_ranking, ranked};
use super::parser::{lemma_concat_view, trees, Ast, Tree};
use super::Instruction;
use vstd::prelude::*;

verus! {

/// Whether the code of `t` can be passed without consuming a character.
pub open spec fn nullable(t: Tree) -> bool
    decreases t, 0nat,
{
    match t {
        Tree::Char(_) | Tree::Any => false,
        Tree::Start | Tree::End => true,
        Tree::Plus(e) => nullable(*e),
        Tree::Star(_) | Tree::Question(_) => true,
        Tree::Or(l, r) => nullable(*l) || nullable(*r),
        Tree::Concat(ts) => nullable_upto(ts, ts.len()),
    }
}

/// Whether each of the first `n` trees of `ts` is nullable.
pub open spec fn nullable_upto(ts: Seq<Tree>, n: nat) -> bool
    decreases ts, n,
{
    if n == 0 || n > ts.len() {
        true
    } else {
        nullable_upto(ts, (n - 1) as nat) && nullable(ts[n - 1])
    }
}

/// Whether every repetition in `t` consumes a character each time round:
/// nothing under `*` or `+` is nullable.
pub open spec fn productive(t: Tree) -> bool
    decreases t, 0nat,
{
    match t {
        Tree::Char(_) | Tree::Any | Tree::Start | Tree::End => true,
        Tree::Plus(e) | Tree::Star(e) => productive(*e) && !nullable(*e),
        Tree::Question(e) => productive(*e),
        Tree::Or(l, r) => productive(*l) && productive(*r),
        Tree::Concat(ts) => productive_upto(ts, ts.len()),
    }
}

/// Whether each of the first `n` trees of `ts` is productive.
pub open spec fn productive_upto(ts: Seq<Tree>, n: nat) -> bool
    decreases ts, n,
{
    if n == 0 || n > ts.len() {
        true
    } else {
        productive_upto(ts, (n - 1) as nat) && productive(ts[n - 1])
    }
}

/// The first element of `s`, or `x` where `s` is empty.
pub open spec fn first_or(s: Seq<nat>, x: nat) -> nat {
    if s.len() > 0 {
        s[0]
    } else {
        x
    }
}

/// The larger of two numbers.
pub open spec fn larger(a: nat, b: nat) -> nat {
    if a >= b {
        a
    } else {
        b
    }
}

/// A rank for each instruction of the code of `t`, where the address behind
/// the code has rank `x`.
pub open spec fn ranks(t: Tree, x: nat) -> Seq<nat>
    decreases t, 0nat,
{
    match t {
        Tree::Char(_) | Tree::Any => seq![0nat],
        Tree::Start | Tree::End => seq![x + 1],
        Tree::Plus(e) => {
            let s = larger(first_or(ranks(*e, 0), 0), x) + 1;
            ranks(*e, s).push(s)
        },
        Tree::Star(e) => {
            let s = larger(first_or(ranks(*e, 0), 0), x) + 1;
            seq![s] + ranks(*e, s + 1) + seq![s + 1]
        },
        Tree::Question(e) => {
            let s = larger(first_or(ranks(*e, x), x), x) + 1;
            seq![s] + ranks(*e, x)
        },
        Tree::Or(l, r) => {
            let s = larger(first_or(ranks(*l, x + 1), x + 1), first_or(ranks(*r, x), x)) + 1;
            seq![s] + ranks(*l, x + 1) + seq![x + 1] + ranks(*r, x)
        },
        Tree::Concat(ts) => ranks_upto(ts, ts.len(), x),
    }
}

/// A rank for each instruction of the code of the first `n` trees of `ts`,
/// where the address behind that code has rank `x`.
pub open spec fn ranks_upto(ts: Seq<Tree>, n: nat, x: nat) -> Seq<nat>
    decreases ts, n,
{
    if n == 0 || n > ts.len() {
        Seq::empty()
    } else {
        ranks_upto(ts, (n - 1) as nat, first_or(ranks(ts[n - 1], x), x)) + ranks(ts[n - 1], x)
    }
}

/// There is one rank for each instruction.
pub proof fn lemma_ranks_len(t: Tree, x: nat)
    ensures
        ranks(t, x).len() == size(t),
    decreases t, 0nat,
{
    match t {
        Tree::Plus(e) => {
            lemma_ranks_len(*e, larger(first_or(ranks(*e, 0), 0), x) + 1);
        },
        Tree::Star(e) => {
            lemma_ranks_len(*e, larger(first_or(ranks(*e, 0), 0), x) + 2);
        },
        Tree::Question(e) => {
            lemma_ranks_len(*e, x);
        },
        Tree::Or(l, r) => {
            lemma_ranks_len(*l, x + 1);
            lemma_ranks_len(*r, x);
        },
        Tree::Concat(ts) => lemma_ranks_upto_len(ts, ts.len(), x),
        _ => {},
    }
}

/// There is one rank for each instruction of the first `n` trees.
pub proof fn lemma_ranks_upto_len(ts: Seq<Tree>, n: nat, x: nat)
    ensures
        ranks_upto(ts, n, x).len() == size_upto(ts, n),
    decreases ts, n,
{
    if n == 0 || n > ts.len() {
    } else {
        lemma_ranks_upto_len(ts, (n - 1) as nat, first_or(ranks(ts[n - 1], x), x));
        lemma_ranks_len(ts[n - 1], x);
    }
}

/// A productive tree that is not nullable has code, and the rank at the
/// start of its code does not depend on the rank behind it.
pub proof fn lemma_entry_fixed(t: Tree, x: nat, y: nat)
    requires
        productive(t),
        !nullable(t),
    ensures
        size(t) > 0,
        first_or(ranks(t, x), x) == first_or(ranks(t, y), y),
    decreases t, 0nat,
{
    lemma_ranks_len(t, x);
    lemma_ranks_len(t, y);
    match t {
        Tree::Plus(e) => {
            let sx = larger(first_or(ranks(*e, 0), 0), x) + 1;
            let sy = larger(first_or(ranks(*e, 0), 0), y) + 1;
            lemma_entry_fixed(*e, sx, sy);
            lemma_ranks_len(*e, sx);
            lemma_ranks_len(*e, sy);
        },
        Tree::Or(l, r) => {
            lemma_entry_fixed(*l, x + 1, y + 1);
            lemma_entry_fixed(*r, x, y);
        },
        Tree::Concat(ts) => {
            lemma_entry_fixed_upto(ts, ts.len(), x, y);
        },
        _ => {},
    }
}

/// Where one of the first `n` trees is not nullable and all are productive,
/// their code is not empty and the rank at its start does not depend on the
/// rank behind it.
pub proof fn lemma_entry_fixed_upto(ts: Seq<Tree>, n: nat, x: nat, y: nat)
    requires
        n <= ts.len(),
        productive_upto(ts, n),
        !nullable_upto(ts, n),
    ensures
        size_upto(ts, n) > 0,
        first_or(ranks_upto(ts, n, x), x) == first_or(ranks_upto(ts, n, y), y),
    decreases ts, n,
{
    let last = ts[n - 1];
    let ex = first_or(ranks(last, x), x);
    let ey = first_or(ranks(last, y), y);
    let m = (n - 1) as nat;
    lemma_ranks_upto_len(ts, m, ex);
    lemma_ranks_upto_len(ts, m, ey);
    lemma_ranks_len(last, x);
    lemma_ranks_len(last, y);
    assert(first_or(ranks_upto(ts, n, x), x) == first_or(ranks_upto(ts, m, ex), ex));
    assert(first_or(ranks_upto(ts, n, y), y) == first_or(ranks_upto(ts, m, ey), ey));
    if !nullable(last) {
        lemma_entry_fixed(last, x, y);
    } else {
        lemma_entry_fixed_upto(ts, m, ex, ey);
    }
}

/// The rank of address `a` for a block of code at `base` with ranks `rs`,
/// where the address behind the block has rank `x`.
pub open spec fn rank_at(rs: Seq<nat>, base: nat, x: nat, a: int) -> nat {
    if base <= a < base + rs.len() {
        rs[a - base]
    } else {
        x
    }
}

/// The address `a` lies in the block or just behind it, and ranks below the
/// instruction at index `i` of the block.
pub open spec fn target_ok(rs: Seq<nat>, base: nat, x: nat, i: int, a: int) -> bool {
    base <= a <= base + rs.len() && rank_at(rs, base, x, a) < rs[i]
}

/// Every move without consuming that the instruction at index `i` of the
/// block can make stays in the block or just behind it, and leads to a lower
/// rank.
pub open spec fn inst_ok(c: Seq<Instruction>, rs: Seq<nat>, base: nat, x: nat, i: int) -> bool {
    match c[i] {
        Instruction::Jump(a) => target_ok(rs, base, x, i, a as int),
        Instruction::Split(a, b) => target_ok(rs, base, x, i, a as int) && target_ok(
            rs,
            base,
            x,
            i,
            b as int,
        ),
        Instruction::Start | Instruction::End => rank_at(rs, base, x, base + i + 1) < rs[i],
        Instruction::Char(_) | Instruction::Any | Instruction::Match => true,
    }
}

/// `rs` ranks the block of code `c` at `base`, with rank `x` behind it.
pub open spec fn block_ok(c: Seq<Instruction>, rs: Seq<nat>, base: nat, x: nat) -> bool {
    &&& c.len() == rs.len()
    &&& forall|i: int| 0 <= i < c.len() ==> #[trigger] inst_ok(c, rs, base, x, i)
}

/// A ranked block stays ranked as a part of a larger block, where what
/// follows it there begins with the rank that the block expects behind it.
pub proof fn lemma_embed(
    whole: Seq<Instruction>,
    all: Seq<nat>,
    start: nat,
    x: nat,
    c: Seq<Instruction>,
    rs: Seq<nat>,
    lo: int,
    m: nat,
)
    requires
        block_ok(c, rs, (start + lo) as nat, m),
        whole.len() == all.len(),
        0 <= lo,
        lo + c.len() <= whole.len(),
        forall|k: int| 0 <= k < c.len() ==> whole[lo + k] == c[k] && all[lo + k] == rs[k],
        m == (if lo + c.len() < all.len() {
            all[lo + c.len()]
        } else {
            x
        }),
    ensures
        forall|i: int| lo <= i < lo + c.len() ==> #[trigger] inst_ok(whole, all, start, x, i),
{
    let base = (start + lo) as nat;
    assert forall|i: int| lo <= i < lo + c.len() implies #[trigger] inst_ok(
        whole,
        all,
        start,
        x,
        i,
    ) by {
        let k = i - lo;
        assert(inst_ok(c, rs, base, m, k));
        assert(whole[lo + k] == c[k]);
        assert(all[lo + k] == rs[k]);
        assert forall|a: int| base <= a <= base + rs.len() implies rank_at(all, start, x, a)
            == rank_at(rs, base, m, a) by {
            if a < base + rs.len() {
                let j = a - base;
                assert(all[lo + j] == rs[j]);
            }
        }
    }
}

/// The ranks of a productive tree rank its code: every move that consumes no
/// character stays in the code or leads just behind it, and leads to a lower
/// rank.
pub proof fn lemma_code_ranked(t: Tree, base: nat, x: nat)
    requires
        productive(t),
        base + size(t) <= usize::MAX,
    ensures
        block_ok(code(t, base), ranks(t, x), base, x),
    decreases t, 0nat,
{
    let c = code(t, base);
    let rs = ranks(t, x);
    lemma_code_len(t, base);
    lemma_ranks_len(t, x);
    match t {
        Tree::Char(_) | Tree::Any | Tree::Start | Tree::End => {},
        Tree::Plus(e) => {
            let s = larger(first_or(ranks(*e, 0), 0), x) + 1;
            let ce = code(*e, base);
            let re = ranks(*e, s);
            lemma_code_ranked(*e, base, s);
            lemma_entry_fixed(*e, s, 0);
            lemma_code_len(*e, base);
            lemma_ranks_len(*e, s);
            let split = Instruction::Split(base as usize, (base + size(*e) + 1) as usize);
            lemma_embed(c, rs, base, x, ce, re, 0, s);
            assert forall|i: int| 0 <= i < c.len() implies #[trigger] inst_ok(c, rs, base, x, i) by {
                if i == size(*e) {
                    assert(rs[0] == re[0]);
                }
            }
        },
        Tree::Star(e) => {
            let s = larger(first_or(ranks(*e, 0), 0), x) + 1;
            let ce = code(*e, base + 1);
            let re = ranks(*e, s + 1);
            lemma_code_ranked(*e, base + 1, s + 1);
            lemma_entry_fixed(*e, s + 1, 0);
            lemma_code_len(*e, base + 1);
            lemma_ranks_len(*e, s + 1);
            let split = Instruction::Split((base + 1) as usize, (base + size(*e) + 2) as usize);
            let jump = Instruction::Jump(base as usize);
            lemma_embed(c, rs, base, x, ce, re, 1, s + 1);
            assert forall|i: int| 0 <= i < c.len() implies #[trigger] inst_ok(c, rs, base, x, i) by {
                if i == 0 {
                    assert(rs[1] == re[0]);
                } else if i == size(*e) + 1 {
                    assert(c[i] == jump);
                }
            }
        },
        Tree::Question(e) => {
            let s = larger(first_or(ranks(*e, x), x), x) + 1;
            let ce = code(*e, base + 1);
            let re = ranks(*e, x);
            lemma_code_ranked(*e, base + 1, x);
            lemma_code_len(*e, base + 1);
            lemma_ranks_len(*e, x);
            let split = Instruction::Split((base + 1) as usize, (base + size(*e) + 1) as usize);
            lemma_embed(c, rs, base, x, ce, re, 1, x);
            assert forall|i: int| 0 <= i < c.len() implies #[trigger] inst_ok(c, rs, base, x, i) by {
                if i == 0 && size(*e) > 0 {
                    assert(rs[1] == re[0]);
                }
            }
        },
        Tree::Or(l, r) => {
            let s = larger(first_or(ranks(*l, x + 1), x + 1), first_or(ranks(*r, x), x)) + 1;
            let cl = code(*l, base + 1);
            let rl = ranks(*l, x + 1);
            let cr = code(*r, base + size(*l) + 2);
            let rr = ranks(*r, x);
            lemma_code_ranked(*l, base + 1, x + 1);
            lemma_code_ranked(*r, base + size(*l) + 2, x);
            lemma_code_len(*l, base + 1);
            lemma_code_len(*r, base + size(*l) + 2);
            lemma_ranks_len(*l, x + 1);
            lemma_ranks_len(*r, x);
            let split = Instruction::Split((base + 1) as usize, (base + size(*l) + 2) as usize);
            let jump = Instruction::Jump((base + size(*l) + size(*r) + 2) as usize);
            assert(rs[(size(*l) + 1) as int] == x + 1);
            lemma_embed(c, rs, base, x, cl, rl, 1, x + 1);
            lemma_embed(c, rs, base, x, cr, rr, (size(*l) + 2) as int, x);
            assert forall|i: int| 0 <= i < c.len() implies #[trigger] inst_ok(c, rs, base, x, i) by {
                if i == 0 {
                    assert(c[0] == split);
                    if size(*l) > 0 {
                        assert(rs[1] == rl[0]);
                    } else {
                        assert(rs[1] == x + 1);
                    }
                    if size(*r) > 0 {
                        assert(rs[(size(*l) + 2) as int] == rr[0]);
                    }
                } else if i == size(*l) + 1 {
                    assert(c[i] == jump);
                    assert(rs[i] == x + 1);
                }
            }
        },
        Tree::Concat(ts) => {
            lemma_code_upto_ranked(ts, ts.len(), base, x);
        },
    }
}

/// The ranks of the first `n` trees, all productive, rank their code.
pub proof fn lemma_code_upto_ranked(ts: Seq<Tree>, n: nat, base: nat, x: nat)
    requires
        n <= ts.len(),
        productive_upto(ts, n),
        base + size_upto(ts, n) <= usize::MAX,
    ensures
        block_ok(code_upto(ts, n, base), ranks_upto(ts, n, x), base, x),
    decreases ts, n,
{
    if n > 0 {
        let m = (n - 1) as nat;
        let last = ts[n - 1];
        let e = first_or(ranks(last, x), x);
        let ca = code_upto(ts, m, base);
        let ra = ranks_upto(ts, m, e);
        let cb = code(last, base + size_upto(ts, m));
        let rb = ranks(last, x);
        lemma_code_upto_ranked(ts, m, base, e);
        lemma_code_ranked(last, base + size_upto(ts, m), x);
        lemma_code_upto_len(ts, m, base);
        lemma_ranks_upto_len(ts, m, e);
        lemma_code_len(last, base + size_upto(ts, m));
        lemma_ranks_len(last, x);
        let c = code_upto(ts, n, base);
        let rs = ranks_upto(ts, n, x);
        lemma_embed(c, rs, base, x, ca, ra, 0, e);
        lemma_embed(c, rs, base, x, cb, rb, size_upto(ts, m) as int, x);
        assert forall|i: int| 0 <= i < c.len() implies #[trigger] inst_ok(c, rs, base, x, i) by {
        }
    }
}

/// The targets of the instruction at index `i` of a block at `base` lie in
/// the block or just behind it.
pub open spec fn inst_inside(c: Seq<Instruction>, base: nat, i: int) -> bool {
    match c[i] {
        Instruction::Jump(a) => base <= a <= base + c.len(),
        Instruction::Split(a, b) => base <= a <= base + c.len() && base <= b <= base + c.len(),
        _ => true,
    }
}

/// No jump or split of the block at `base` leads out of it, but for the
/// address just behind it.
pub open spec fn block_inside(c: Seq<Instruction>, base: nat) -> bool {
    forall|i: int| 0 <= i < c.len() ==> #[trigger] inst_inside(c, base, i)
}

/// The targets of a part of a block lie in the block where they lie in the
/// part.
pub proof fn lemma_inside_embed(
    whole: Seq<Instruction>,
    start: nat,
    c: Seq<Instruction>,
    lo: int,
)
    requires
        block_inside(c, (start + lo) as nat),
        0 <= lo,
        lo + c.len() <= whole.len(),
        forall|k: int| 0 <= k < c.len() ==> whole[lo + k] == c[k],
    ensures
        forall|i: int| lo <= i < lo + c.len() ==> #[trigger] inst_inside(whole, start, i),
{
    assert forall|i: int| lo <= i < lo + c.len() implies #[trigger] inst_inside(
        whole,
        start,
        i,
    ) by {
        let k = i - lo;
        assert(inst_inside(c, (start + lo) as nat, k));
        assert(whole[lo + k] == c[k]);
    }
}

/// Every jump and split in the code of a tree leads into that code or just
/// behind it.
pub proof fn lemma_code_inside(t: Tree, base: nat)
    requires
        base + size(t) <= usize::MAX,
    ensures
        block_inside(code(t, base), base),
    decreases t, 0nat,
{
    let c = code(t, base);
    lemma_code_len(t, base);
    match t {
        Tree::Char(_) | Tree::Any | Tree::Start | Tree::End => {},
        Tree::Plus(e) => {
            lemma_code_inside(*e, base);
            lemma_code_len(*e, base);
            lemma_inside_embed(c, base, code(*e, base), 0);
        },
        Tree::Star(e) => {
            lemma_code_inside(*e, base + 1);
            lemma_code_len(*e, base + 1);
            lemma_inside_embed(c, base, code(*e, base + 1), 1);
        },
        Tree::Question(e) => {
            lemma_code_inside(*e, base + 1);
            lemma_code_len(*e, base + 1);
            lemma_inside_embed(c, base, code(*e, base + 1), 1);
        },
        Tree::Or(l, r) => {
            lemma_code_inside(*l, base + 1);
            lemma_code_inside(*r, base + size(*l) + 2);
            lemma_code_len(*l, base + 1);
            lemma_code_len(*r, base + size(*l) + 2);
            lemma_inside_embed(c, base, code(*l, base + 1), 1);
            lemma_inside_embed(c, base, code(*r, base + size(*l) + 2), (size(*l) + 2) as int);
        },
        Tree::Concat(ts) => {
            lemma_code_upto_inside(ts, ts.len(), base);
        },
    }
}

/// Every jump and split in the code of the first `n` trees leads into that
/// code or just behind it.
pub proof fn lemma_code_upto_inside(ts: Seq<Tree>, n: nat, base: nat)
    requires
        n <= ts.len(),
        base + size_upto(ts, n) <= usize::MAX,
    ensures
        block_inside(code_upto(ts, n, base), base),
    decreases ts, n,
{
    if n > 0 {
        let m = (n - 1) as nat;
        let last = ts[n - 1];
        lemma_code_upto_inside(ts, m, base);
        lemma_code_inside(last, base + size_upto(ts, m));
        lemma_code_upto_len(ts, m, base);
        lemma_code_len(last, base + size_upto(ts, m));
        let c = code_upto(ts, n, base);
        lemma_inside_embed(c, base, code_upto(ts, m, base), 0);
        lemma_inside_embed(c, base, code(last, base + size_upto(ts, m)), size_upto(ts, m) as int);
    }
}

/// Every program that is generated is closed: each jump and split leads to
/// an address of the program, and the last instruction is `Match`.
pub proof fn lemma_compiled_closed(t: Tree)
    requires
        compile_spec(t) is Ok,
    ensures
        closed(compile_spec(t)->Ok_0),
        compile_spec(t)->Ok_0.len() == size(t) + 1,
        compile_spec(t)->Ok_0.last() == Instruction::Match,
{
    let c = code(t, 0);
    let prog = compile_spec(t)->Ok_0;
    lemma_code_len(t, 0);
    lemma_code_inside(t, 0);
    assert forall|pc: int| 0 <= pc < prog.len() implies match #[trigger] prog[pc] {
        Instruction::Jump(a) => a < prog.len(),
        Instruction::Split(a, b) => a < prog.len() && b < prog.len(),
        Instruction::Match => true,
        _ => pc + 1 < prog.len(),
    } by {
        if pc < c.len() {
            assert(inst_inside(c, 0, pc));
            assert(prog[pc] == c[pc]);
        }
    }
}

/// The program of a productive tree is ranked: no cycle of its moves
/// consumes no character.
pub proof fn lemma_compiled_ranked(t: Tree)
    requires
        productive(t),
        compile_spec(t) is Ok,
    ensures
        ranked(compile_spec(t)->Ok_0),
{
    let c = code(t, 0);
    let rs = ranks(t, 0);
    let prog = compile_spec(t)->Ok_0;
    let rank = rs.push(0);
    lemma_code_len(t, 0);
    lemma_ranks_len(t, 0);
    lemma_code_ranked(t, 0, 0);
    assert forall|pc: int| 0 <= pc < prog.len() implies #[trigger] descends(prog, rank, pc) by {
        if pc < c.len() {
            assert(inst_ok(c, rs, 0, 0, pc));
            assert(prog[pc] == c[pc]);
            assert(rank[pc] == rs[pc]);
            assert forall|a: int| 0 <= a <= c.len() implies rank[a] == rank_at(rs, 0, 0, a) by {}
        }
    }
    assert(is_ranking(prog, rank));
}

/// The code of `t` stands in the program at address `base`, with at least
/// one more instruction behind it.
pub open spec fn holds_code(prog: Seq<Instruction>, t: Tree, base: nat) -> bool {
    &&& base + size(t) < prog.len()
    &&& forall|k: int| 0 <= k < size(t) ==> prog[base + k] == #[trigger] code(t, base)[k]
}

/// The code of the first `n` trees of `ts` stands in the program at address
/// `base`, with at least one more instruction behind it.
pub open spec fn holds_code_upto(prog: Seq<Instruction>, ts: Seq<Tree>, n: nat, base: nat) -> bool {
    &&& base + size_upto(ts, n) < prog.len()
    &&& forall|k: int|
        0 <= k < size_upto(ts, n) ==> prog[base + k] == #[trigger] code_upto(ts, n, base)[k]
}

/// In a ranked program only productive trees have their code, and across
/// the code of a nullable tree the rank does not rise.
pub proof fn lemma_ranked_productive(t: Tree, base: nat, prog: Seq<Instruction>, rank: Seq<nat>)
    requires
        is_ranking(prog, rank),
        prog.len() <= usize::MAX,
        holds_code(prog, t, base),
    ensures
        productive(t),
        nullable(t) ==> rank[(base + size(t)) as int] <= rank[base as int],
    decreases t, 0nat,
{
    let c = code(t, base);
    let b = base as int;
    lemma_code_len(t, base);
    match t {
        Tree::Char(_) | Tree::Any => {},
        Tree::Start | Tree::End => {
            assert(prog[b + 0] == c[0]);
            assert(descends(prog, rank, b));
        },
        Tree::Plus(e) => {
            let n = size(*e) as int;
            lemma_code_len(*e, base);
            assert forall|k: int| 0 <= k < n implies prog[b + k] == #[trigger] code(
                *e,
                base,
            )[k] by {
                assert(prog[b + k] == c[k]);
            }
            lemma_ranked_productive(*e, base, prog, rank);
            assert(prog[b + n] == c[n]);
            assert(descends(prog, rank, b + n));
        },
        Tree::Star(e) => {
            let n = size(*e) as int;
            lemma_code_len(*e, base + 1);
            assert forall|k: int| 0 <= k < n implies prog[b + 1 + k] == #[trigger] code(
                *e,
                base + 1,
            )[k] by {
                assert(prog[b + (k + 1)] == c[k + 1]);
            }
            lemma_ranked_productive(*e, base + 1, prog, rank);
            assert(prog[b + 0] == c[0]);
            assert(descends(prog, rank, b));
            assert(prog[b + (n + 1)] == c[n + 1]);
            assert(descends(prog, rank, b + n + 1));
        },
        Tree::Question(e) => {
            let n = size(*e) as int;
            lemma_code_len(*e, base + 1);
            assert forall|k: int| 0 <= k < n implies prog[b + 1 + k] == #[trigger] code(
                *e,
                base + 1,
            )[k] by {
                assert(prog[b + (k + 1)] == c[k + 1]);
            }
            lemma_ranked_productive(*e, base + 1, prog, rank);
            assert(prog[b + 0] == c[0]);
            assert(descends(prog, rank, b));
        },
        Tree::Or(l, r) => {
            let n = size(*l) as int;
            let m = size(*r) as int;
            lemma_code_len(*l, base + 1);
            lemma_code_len(*r, base + size(*l) + 2);
            assert forall|k: int| 0 <= k < n implies prog[b + 1 + k] == #[trigger] code(
                *l,
                base + 1,
            )[k] by {
                assert(prog[b + (k + 1)] == c[k + 1]);
            }
            assert forall|k: int| 0 <= k < m implies prog[b + n + 2 + k] == #[trigger] code(
                *r,
                base + size(*l) + 2,
            )[k] by {
                assert(prog[b + (k + n + 2)] == c[k + n + 2]);
            }
            lemma_ranked_productive(*l, base + 1, prog, rank);
            lemma_ranked_productive(*r, base + size(*l) + 2, prog, rank);
            assert(prog[b + 0] == c[0]);
            assert(descends(prog, rank, b));
            assert(prog[b + (n + 1)] == c[n + 1]);
            assert(descends(prog, rank, b + n + 1));
        },
        Tree::Concat(ts) => {
            lemma_ranked_productive_upto(ts, ts.len(), base, prog, rank);
        },
    }
}

/// In a ranked program only productive trees have their code one after the
/// other, and across the code of nullable trees the rank does not rise.
pub proof fn lemma_ranked_productive_upto(
    ts: Seq<Tree>,
    n: nat,
    base: nat,
    prog: Seq<Instruction>,
    rank: Seq<nat>,
)
    requires
        n <= ts.len(),
        is_ranking(prog, rank),
        prog.len() <= usize::MAX,
        holds_code_upto(prog, ts, n, base),
    ensures
        productive_upto(ts, n),
        nullable_upto(ts, n) ==> rank[(base + size_upto(ts, n)) as int] <= rank[base as int],
    decreases ts, n,
{
    if n > 0 {
        let m = (n - 1) as nat;
        let last = ts[n - 1];
        let c = code_upto(ts, n, base);
        let b = base as int;
        let front = size_upto(ts, m) as int;
        lemma_code_upto_len(ts, m, base);
        lemma_code_len(last, base + size_upto(ts, m));
        assert forall|k: int| 0 <= k < front implies prog[b + k] == #[trigger] code_upto(
            ts,
            m,
            base,
        )[k] by {
            assert(prog[b + k] == c[k]);
        }
        assert forall|k: int| 0 <= k < size(last) implies prog[b + front + k]
            == #[trigger] code(last, base + size_upto(ts, m))[k] by {
            assert(prog[b + (front + k)] == c[front + k]);
        }
        lemma_ranked_productive_upto(ts, m, base, prog, rank);
        lemma_ranked_productive(last, base + size_upto(ts, m), prog, rank);
    }
}

/// A generated program is ranked exactly where its tree is productive.
pub proof fn lemma_ranked_iff_productive(t: Tree)
    requires
        compile_spec(t) is Ok,
    ensures
        ranked(compile_spec(t)->Ok_0) <==> productive(t),
{
    let prog = compile_spec(t)->Ok_0;
    if productive(t) {
        lemma_compiled_ranked(t);
    }
    if ranked(prog) {
        let rank = choose|rank: Seq<nat>| is_ranking(prog, rank);
        lemma_code_len(t, 0);
        assert forall|k: int| 0 <= k < size(t) implies prog[0 + k] == #[trigger] code(t, 0)[k] by {}
        lemma_ranked_productive(t, 0, prog, rank);
    }
}

/// Where the first `n` trees are all nullable, each of them is.
pub proof fn lemma_nullable_upto_each(ts: Seq<Tree>, n: nat, k: int)
    requires
        0 <= k < n <= ts.len(),
        nullable_upto(ts, n),
    ensures
        nullable(ts[k]),
    decreases n,
{
    if k < n - 1 {
        lemma_nullable_upto_each(ts, (n - 1) as nat, k);
    }
}

/// Where the first `n` trees are all productive, each of them is.
pub proof fn lemma_productive_upto_each(ts: Seq<Tree>, n: nat, k: int)
    requires
        0 <= k < n <= ts.len(),
        productive_upto(ts, n),
    ensures
        productive(ts[k]),
    decreases n,
{
    if k < n - 1 {
        lemma_productive_upto_each(ts, (n - 1) as nat, k);
    }
}

/// Whether the expression can match without consuming a character.
pub fn is_nullable(ast: &Ast) -> (b: bool)
    ensures
        b == nullable(ast@),
    decreases ast,
{
    match ast {
        Ast::Char(_) | Ast::Any => false,
        Ast::Start | Ast::End => true,
        Ast::Plus(e) => is_nullable(e),
        Ast::Star(_) | Ast::Question(_) => true,
        Ast::Or(l, r) => is_nullable(l) || is_nullable(r),
        Ast::Concat(v) => {
            proof {
                lemma_concat_view(*v);
            }
            let ghost ts = trees(v@);
            let mut i: usize = 0;
            while i < v.len()
                invariant
                    i <= v.len(),
                    ts == trees(v@),
                    ast@ == Tree::Concat(ts),
                    *ast == Ast::Concat(*v),
                    nullable_upto(ts, i as nat),
                decreases v.len() - i,
            {
                proof {
                    assert(v[i as int]@ == ts[i as int]);
                }
                if !is_nullable(&v[i]) {
                    proof {
                        if nullable_upto(ts, ts.len()) {
                            lemma_nullable_upto_each(ts, ts.len(), i as int);
                        }
                    }
                    return false;
                }
                i += 1;
            }
            true
        },
    }
}

/// Whether every repetition in the expression consumes a character each
/// time round.
pub fn is_productive(ast: &Ast) -> (b: bool)
    ensures
        b == productive(ast@),
    decreases ast,
{
    match ast {
        Ast::Char(_) | Ast::Any | Ast::Start | Ast::End => true,
        Ast::Plus(e) => is_productive(e) && !is_nullable(e),
        Ast::Star(e) => is_productive(e) && !is_nullable(e),
        Ast::Question(e) => is_productive(e),
        Ast::Or(l, r) => is_productive(l) && is_productive(r),
        Ast::Concat(v) => {
            proof {
                lemma_concat_view(*v);
            }
            let ghost ts = trees(v@);
            let mut i: usize = 0;
            while i < v.len()
                invariant
                    i <= v.len(),
                    ts == trees(v@),
                    ast@ == Tree::Concat(ts),
                    *ast == Ast::Concat(*v),
                    productive_upto(ts, i as nat),
                decreases v.len() - i,
            {
                proof {
                    assert(v[i as int]@ == ts[i as int]);
                }
                if !is_productive(&v[i]) {
                    proof {
                        if productive_upto(ts, ts.len()) {
                            lemma_productive_upto_each(ts, ts.len(), i as int);
                        }
                    }
                    return false;
                }
                i += 1;
            }
            true
        },
    }
}

} // verus!
