//! How long the program of a pattern can be: at most two instructions for
//! each character of the pattern, so that every pattern that parses compiles.
use super::codegen::{compile_spec, size, size_upto};
use super::parser::{
    alternation, group, parse_spec, repeated, scan, step, Psq, Snapshot, Tree,
};
use vstd::prelude::*;

verus! {

/// The number of instructions that the trees of a concatenation buffer are
/// lowered to.
pub open spec fn weight(seq: Seq<Tree>) -> nat {
    size_upto(seq, seq.len())
}

/// The number of instructions that the alternatives are lowered to, with
/// the two that join each of them to the next.
pub open spec fn alts_weight(alts: Seq<Tree>) -> nat {
    size_upto(alts, alts.len()) + 2 * alts.len()
}

/// The weight of all buffers on the stack.
pub open spec fn stack_weight(stack: Seq<(Seq<Tree>, Seq<Tree>)>) -> nat
    decreases stack.len(),
{
    if stack.len() == 0 {
        0
    } else {
        stack_weight(stack.drop_last()) + weight(stack.last().0) + alts_weight(stack.last().1)
    }
}

/// The weight of everything that the parser holds.
pub open spec fn snapshot_weight(st: Snapshot) -> nat {
    weight(st.seq) + alts_weight(st.seq_or) + stack_weight(st.stack)
}

/// Sequences that agree on their first `n` trees lower them to equally many
/// instructions.
pub proof fn lemma_size_upto_prefix(a: Seq<Tree>, b: Seq<Tree>, n: nat)
    requires
        n <= a.len(),
        n <= b.len(),
        forall|i: int| 0 <= i < n ==> a[i] == b[i],
    ensures
        size_upto(a, n) == size_upto(b, n),
    decreases n,
{
    if n > 0 {
        lemma_size_upto_prefix(a, b, (n - 1) as nat);
    }
}

/// One more tree weighs its size more.
pub proof fn lemma_weight_push(seq: Seq<Tree>, t: Tree)
    ensures
        weight(seq.push(t)) == weight(seq) + size(t),
{
    lemma_size_upto_prefix(seq.push(t), seq, seq.len());
}

/// Without its last tree a buffer weighs that tree's size less.
pub proof fn lemma_weight_drop_last(seq: Seq<Tree>)
    requires
        seq.len() > 0,
    ensures
        weight(seq) == weight(seq.drop_last()) + size(seq.last()),
{
    lemma_size_upto_prefix(seq, seq.drop_last(), (seq.len() - 1) as nat);
}

/// Without its first tree a buffer weighs that tree's size less.
pub proof fn lemma_size_upto_drop_first(seq: Seq<Tree>, n: nat)
    requires
        0 < n <= seq.len(),
    ensures
        size_upto(seq, n) == size(seq[0]) + size_upto(seq.drop_first(), (n - 1) as nat),
    decreases n,
{
    let rest = seq.drop_first();
    if n > 1 {
        lemma_size_upto_drop_first(seq, (n - 1) as nat);
        assert(rest[n - 2] == seq[n - 1]);
        assert(size_upto(rest, (n - 1) as nat) == size_upto(rest, (n - 2) as nat) + size(
            rest[n - 2],
        ));
    } else {
        assert(size_upto(seq, 0) == 0);
        assert(size_upto(rest, 0) == 0);
    }
}

/// Alternatives joined take two instructions less than their weight.
pub proof fn lemma_alternation_size(alts: Seq<Tree>)
    requires
        alts.len() > 0,
    ensures
        size(alternation(alts)) + 2 == alts_weight(alts),
    decreases alts.len(),
{
    lemma_size_upto_drop_first(alts, alts.len());
    if alts.len() > 1 {
        lemma_alternation_size(alts.drop_first());
    }
}

/// A group takes no more instructions than its buffers weigh.
pub proof fn lemma_group_size(seq: Seq<Tree>, alts: Seq<Tree>)
    requires
        group(seq, alts) is Some,
    ensures
        size(group(seq, alts)->Some_0) <= weight(seq) + alts_weight(alts),
{
    if seq.len() > 0 {
        let all = alts.push(Tree::Concat(seq));
        lemma_weight_push(alts, Tree::Concat(seq));
        lemma_alternation_size(all);
    } else {
        lemma_alternation_size(alts);
    }
}

/// Reading one character adds at most two instructions to what the parser
/// holds.
pub proof fn lemma_step_weight(st: Snapshot, pos: usize, c: char)
    requires
        step(st, pos, c) is Ok,
    ensures
        snapshot_weight(step(st, pos, c)->Ok_0) <= snapshot_weight(st) + 2,
{
    if st.escape {
        lemma_weight_push(st.seq, Tree::Char(c));
    } else if c == '+' || c == '*' || c == '?' {
        let kind = if c == '+' {
            Psq::Plus
        } else if c == '*' {
            Psq::Star
        } else {
            Psq::Question
        };
        lemma_weight_drop_last(st.seq);
        lemma_weight_push(st.seq.drop_last(), repeated(kind, st.seq.last()));
    } else if c == '(' {
        let pushed = st.stack.push((st.seq, st.seq_or));
        assert(pushed.drop_last() =~= st.stack);
        assert(weight(Seq::<Tree>::empty()) == 0);
    } else if c == ')' {
        let outer = st.stack.last().0;
        match group(st.seq, st.seq_or) {
            Some(t) => {
                lemma_group_size(st.seq, st.seq_or);
                lemma_weight_push(outer, t);
            },
            None => {},
        }
    } else if c == '|' {
        lemma_weight_push(st.seq_or, Tree::Concat(st.seq));
        assert(weight(Seq::<Tree>::empty()) == 0);
    } else if c == '\\' {
    } else if c == '.' {
        lemma_weight_push(st.seq, Tree::Any);
    } else if c == '^' {
        lemma_weight_push(st.seq, Tree::Start);
    } else if c == '$' {
        lemma_weight_push(st.seq, Tree::End);
    } else {
        lemma_weight_push(st.seq, Tree::Char(c));
    }
}

/// After `n` characters the parser holds at most `2 * n` instructions.
pub proof fn lemma_scan_weight(s: Seq<char>, n: nat)
    requires
        scan(s, n) is Ok,
    ensures
        snapshot_weight(scan(s, n)->Ok_0) <= 2 * n,
    decreases n,
{
    if n == 0 {
        assert(weight(Seq::<Tree>::empty()) == 0);
    } else {
        lemma_scan_weight(s, (n - 1) as nat);
        lemma_step_weight(scan(s, (n - 1) as nat)->Ok_0, (n - 1) as usize, s[n - 1]);
    }
}

/// The program of a pattern has at most two instructions for each character
/// of the pattern.
pub proof fn lemma_parsed_size(s: Seq<char>)
    requires
        parse_spec(s) is Ok,
    ensures
        size(parse_spec(s)->Ok_0) <= 2 * s.len(),
{
    lemma_scan_weight(s, s.len());
    let st = scan(s, s.len())->Ok_0;
    lemma_group_size(st.seq, st.seq_or);
}

/// Every pattern that parses compiles: code generation fails on no syntax
/// tree that the parser gives, as long as twice the pattern's length is an
/// address.
pub proof fn lemma_parsed_compiles(s: Seq<char>)
    requires
        parse_spec(s) is Ok,
        2 * s.len() < usize::MAX,
    ensures
        compile_spec(parse_spec(s)->Ok_0) is Ok,
{
    lemma_parsed_size(s);
}

} // verus!
