//! From pattern text to syntax tree.
use crate::helper::chars_of;
use vstd::prelude::*;

verus! {

/// Syntax tree of a pattern.
#[derive(Debug, PartialEq)]
pub enum Ast {
    /// One literal character.
    Char(char),
    /// One or more repetitions.
    Plus(Box<Ast>),
    /// Zero or more repetitions.
    Star(Box<Ast>),
    /// Zero or one occurrence.
    Question(Box<Ast>),
    /// Either of two alternatives.
    Or(Box<Ast>, Box<Ast>),
    /// Concatenation, in match order.
    Concat(Vec<Ast>),
    /// Any one character.
    Any,
    /// Start of the line.
    Start,
    /// End of the line.
    End,
}

/// The mathematical tree that an [`Ast`] stands for.
pub enum Tree {
    Char(char),
    Plus(Box<Tree>),
    Star(Box<Tree>),
    Question(Box<Tree>),
    Or(Box<Tree>, Box<Tree>),
    Concat(Seq<Tree>),
    Any,
    Start,
    End,
}

/// The tree that `a` stands for.
pub open spec fn tree_of(a: Ast) -> Tree
    decreases a,
{
    match a {
        Ast::Char(c) => Tree::Char(c),
        Ast::Plus(e) => Tree::Plus(Box::new(tree_of(*e))),
        Ast::Star(e) => Tree::Star(Box::new(tree_of(*e))),
        Ast::Question(e) => Tree::Question(Box::new(tree_of(*e))),
        Ast::Or(l, r) => Tree::Or(Box::new(tree_of(*l)), Box::new(tree_of(*r))),
        Ast::Concat(v) => Tree::Concat(
            Seq::new(
                v@.len(),
                |i: int|
                    if 0 <= i < v@.len() {
                        tree_of(v@[i])
                    } else {
                        Tree::Any
                    },
            ),
        ),
        Ast::Any => Tree::Any,
        Ast::Start => Tree::Start,
        Ast::End => Tree::End,
    }
}

impl View for Ast {
    type V = Tree;

    open spec fn view(&self) -> Tree {
        tree_of(*self)
    }
}

/// The trees that a sequence of syntax trees stands for, in order.
pub open spec fn trees(v: Seq<Ast>) -> Seq<Tree> {
    Seq::new(v.len(), |i: int| v[i]@)
}

/// The trees of a sequence with one more element.
pub proof fn lemma_trees_push(v: Seq<Ast>, a: Ast)
    ensures
        trees(v.push(a)) == trees(v).push(a@),
{
    assert(trees(v.push(a)) =~= trees(v).push(a@));
}

/// A concatenation node stands for the concatenation of its children's trees.
pub proof fn lemma_concat_view(v: Vec<Ast>)
    ensures
        Ast::Concat(v)@ == Tree::Concat(trees(v@)),
{
    let t = tree_of(Ast::Concat(v));
    assert(t is Concat);
    assert(t->Concat_0 =~= trees(v@)) by {
        assert forall|i: int| 0 <= i < v@.len() implies t->Concat_0[i] == trees(v@)[i] by {
            assert(trees(v@)[i] == tree_of(v@[i]));
        }
    }
}

/// Why a pattern was rejected. Positions count characters, not bytes.
#[derive(Debug, PartialEq, Eq, Clone, Copy, Structural)]
pub enum ParseError {
    /// A backslash before a character that needs no escape.
    InvalidEscape(usize, char),
    /// A `)` without an open `(`.
    InvalidRightParen(usize),
    /// A `+`, `*`, `?` or `|` with nothing before it.
    NoPrev(usize),
    /// A `(` that is never closed.
    NoRightParen,
    /// The pattern holds no expression.
    Empty,
}

/// Which of the three repetition operators is meant.
#[derive(Debug, PartialEq, Eq, Clone, Copy, Structural)]
pub enum Psq {
    Plus,
    Star,
    Question,
}

/// The characters that a backslash may precede.
pub open spec fn is_meta(c: char) -> bool {
    c == '\\' || c == '(' || c == ')' || c == '|' || c == '+' || c == '*' || c == '?' || c == '.'
}

/// What the character after a backslash at `pos` parses to.
pub open spec fn escaped(pos: usize, c: char) -> Result<Tree, ParseError> {
    if is_meta(c) {
        Ok(Tree::Char(c))
    } else {
        Err(ParseError::InvalidEscape(pos, c))
    }
}

/// `t` under the repetition operator `kind`.
pub open spec fn repeated(kind: Psq, t: Tree) -> Tree {
    match kind {
        Psq::Plus => Tree::Plus(Box::new(t)),
        Psq::Star => Tree::Star(Box::new(t)),
        Psq::Question => Tree::Question(Box::new(t)),
    }
}

/// `seq` with its last tree put under the operator `kind`; an error where
/// there is no last tree.
pub open spec fn quantified(seq: Seq<Tree>, kind: Psq, pos: usize) -> Result<
    Seq<Tree>,
    ParseError,
> {
    if seq.len() == 0 {
        Err(ParseError::NoPrev(pos))
    } else {
        Ok(seq.drop_last().push(repeated(kind, seq.last())))
    }
}

/// The alternatives `alts`, at least one, combined to the right:
/// `a | (b | (c | ..))`. A single alternative stays as it is.
pub open spec fn alternation(alts: Seq<Tree>) -> Tree
    decreases alts.len(),
{
    if alts.len() <= 1 {
        alts[0]
    } else {
        Tree::Or(Box::new(alts[0]), Box::new(alternation(alts.drop_first())))
    }
}

/// The alternatives combined, or `None` where there is none.
pub open spec fn folded(alts: Seq<Tree>) -> Option<Tree> {
    if alts.len() == 0 {
        None
    } else {
        Some(alternation(alts))
    }
}

/// What a group amounts to when it ends with the concatenation buffer `seq`
/// and the earlier alternatives `alts`.
pub open spec fn group(seq: Seq<Tree>, alts: Seq<Tree>) -> Option<Tree> {
    if seq.len() > 0 {
        folded(alts.push(Tree::Concat(seq)))
    } else {
        folded(alts)
    }
}

/// The parser's state between two characters.
pub struct Snapshot {
    /// The trees of the concatenation under construction.
    pub seq: Seq<Tree>,
    /// The finished alternatives of the group under construction.
    pub seq_or: Seq<Tree>,
    /// The buffers of the enclosing groups, innermost last.
    pub stack: Seq<(Seq<Tree>, Seq<Tree>)>,
    /// Whether the last character was an unescaped backslash.
    pub escape: bool,
}

/// The state before the first character.
pub open spec fn initial() -> Snapshot {
    Snapshot { seq: Seq::empty(), seq_or: Seq::empty(), stack: Seq::empty(), escape: false }
}

/// `st` with `seq` as its concatenation buffer, in plain mode.
pub open spec fn with_seq(st: Snapshot, seq: Seq<Tree>) -> Snapshot {
    Snapshot { seq, seq_or: st.seq_or, stack: st.stack, escape: false }
}

/// The state after the character `c` at position `pos` is read in state `st`.
pub open spec fn step(st: Snapshot, pos: usize, c: char) -> Result<Snapshot, ParseError> {
    if st.escape {
        match escaped(pos, c) {
            Ok(t) => Ok(with_seq(st, st.seq.push(t))),
            Err(e) => Err(e),
        }
    } else if c == '+' || c == '*' || c == '?' {
        let kind = if c == '+' {
            Psq::Plus
        } else if c == '*' {
            Psq::Star
        } else {
            Psq::Question
        };
        match quantified(st.seq, kind, pos) {
            Ok(seq) => Ok(with_seq(st, seq)),
            Err(e) => Err(e),
        }
    } else if c == '(' {
        Ok(
            Snapshot {
                seq: Seq::empty(),
                seq_or: Seq::empty(),
                stack: st.stack.push((st.seq, st.seq_or)),
                escape: false,
            },
        )
    } else if c == ')' {
        if st.stack.len() == 0 {
            Err(ParseError::InvalidRightParen(pos))
        } else {
            let (outer, outer_or) = st.stack.last();
            Ok(
                Snapshot {
                    seq: match group(st.seq, st.seq_or) {
                        Some(t) => outer.push(t),
                        None => outer,
                    },
                    seq_or: outer_or,
                    stack: st.stack.drop_last(),
                    escape: false,
                },
            )
        }
    } else if c == '|' {
        if st.seq.len() == 0 {
            Err(ParseError::NoPrev(pos))
        } else {
            Ok(
                Snapshot {
                    seq: Seq::empty(),
                    seq_or: st.seq_or.push(Tree::Concat(st.seq)),
                    stack: st.stack,
                    escape: false,
                },
            )
        }
    } else if c == '\\' {
        Ok(Snapshot { seq: st.seq, seq_or: st.seq_or, stack: st.stack, escape: true })
    } else if c == '.' {
        Ok(with_seq(st, st.seq.push(Tree::Any)))
    } else if c == '^' {
        Ok(with_seq(st, st.seq.push(Tree::Start)))
    } else if c == '$' {
        Ok(with_seq(st, st.seq.push(Tree::End)))
    } else {
        Ok(with_seq(st, st.seq.push(Tree::Char(c))))
    }
}

/// The state after the first `n` characters of `s`, or the first error met
/// among them.
pub open spec fn scan(s: Seq<char>, n: nat) -> Result<Snapshot, ParseError>
    decreases n,
{
    if n == 0 {
        Ok(initial())
    } else {
        match scan(s, (n - 1) as nat) {
            Ok(st) => step(st, (n - 1) as usize, s[n - 1]),
            Err(e) => Err(e),
        }
    }
}

/// The tree of a pattern whose last character left the parser in state `st`.
pub open spec fn finished(st: Snapshot) -> Result<Tree, ParseError> {
    if st.stack.len() > 0 {
        Err(ParseError::NoRightParen)
    } else {
        match group(st.seq, st.seq_or) {
            Some(t) => Ok(t),
            None => Err(ParseError::Empty),
        }
    }
}

/// The tree of the pattern `s`, or the reason why it has none.
pub open spec fn parse_spec(s: Seq<char>) -> Result<Tree, ParseError> {
    match scan(s, s.len()) {
        Ok(st) => finished(st),
        Err(e) => Err(e),
    }
}

/// A parse result, with the tree in place of the syntax tree.
pub open spec fn parsed(r: Result<Ast, ParseError>) -> Result<Tree, ParseError> {
    match r {
        Ok(a) => Ok(a@),
        Err(e) => Err(e),
    }
}

/// Once the scan has met an error, reading further characters changes nothing.
pub proof fn lemma_scan_error_stays(s: Seq<char>, n: nat, m: nat)
    requires
        scan(s, n) is Err,
        n <= m,
    ensures
        scan(s, m) == scan(s, n),
    decreases m,
{
    if n < m {
        lemma_scan_error_stays(s, n, (m - 1) as nat);
    }
}

/// Folding is unchanged when the last two alternatives are joined first.
pub proof fn lemma_alternation_join_last(alts: Seq<Tree>, a: Tree, b: Tree)
    ensures
        alternation(alts.push(a).push(b)) == alternation(
            alts.push(Tree::Or(Box::new(a), Box::new(b))),
        ),
    decreases alts.len(),
{
    let joined = Tree::Or(Box::new(a), Box::new(b));
    if alts.len() == 0 {
        let two = alts.push(a).push(b);
        assert(two.drop_first() =~= seq![b]);
        assert(alternation(seq![b]) == b);
        assert(alternation(two) == joined);
        assert(alternation(alts.push(joined)) == joined);
    } else {
        let rest = alts.drop_first();
        lemma_alternation_join_last(rest, a, b);
        assert(alts.push(a).push(b).drop_first() =~= rest.push(a).push(b));
        assert(alts.push(joined).drop_first() =~= rest.push(joined));
    }
}

/// No concatenation in the tree is empty.
pub open spec fn solid(t: Tree) -> bool
    decreases t,
{
    match t {
        Tree::Char(_) | Tree::Any | Tree::Start | Tree::End => true,
        Tree::Plus(e) | Tree::Star(e) | Tree::Question(e) => solid(*e),
        Tree::Or(l, r) => solid(*l) && solid(*r),
        Tree::Concat(ts) => ts.len() > 0 && forall|i: int| 0 <= i < ts.len() ==> solid(ts[i]),
    }
}

/// Every tree of the sequence is solid.
pub open spec fn all_solid(ts: Seq<Tree>) -> bool {
    forall|i: int| 0 <= i < ts.len() ==> solid(#[trigger] ts[i])
}

/// Every buffer that the parser holds has solid trees only.
pub open spec fn snapshot_solid(st: Snapshot) -> bool {
    &&& all_solid(st.seq)
    &&& all_solid(st.seq_or)
    &&& forall|i: int|
        0 <= i < st.stack.len() ==> all_solid((#[trigger] st.stack[i]).0) && all_solid(
            st.stack[i].1,
        )
}

/// Solid alternatives fold into a solid tree.
pub proof fn lemma_alternation_solid(alts: Seq<Tree>)
    requires
        alts.len() > 0,
        all_solid(alts),
    ensures
        solid(alternation(alts)),
    decreases alts.len(),
{
    assert(solid(alts[0]));
    if alts.len() > 1 {
        let rest = alts.drop_first();
        assert forall|i: int| 0 <= i < rest.len() implies solid(#[trigger] rest[i]) by {
            assert(rest[i] == alts[i + 1]);
        }
        lemma_alternation_solid(rest);
    }
}

/// A group of solid buffers is solid.
pub proof fn lemma_group_solid(seq: Seq<Tree>, alts: Seq<Tree>)
    requires
        all_solid(seq),
        all_solid(alts),
        group(seq, alts) is Some,
    ensures
        solid(group(seq, alts)->Some_0),
{
    if seq.len() > 0 {
        let whole = Tree::Concat(seq);
        assert(solid(whole)) by {
            assert forall|i: int| 0 <= i < seq.len() implies solid(seq[i]) by {
                assert(solid(seq[i]));
            }
        }
        let all = alts.push(whole);
        assert forall|i: int| 0 <= i < all.len() implies solid(#[trigger] all[i]) by {
            if i < alts.len() {
                assert(all[i] == alts[i]);
            }
        }
        lemma_alternation_solid(all);
    } else {
        lemma_alternation_solid(alts);
    }
}

/// One more solid tree keeps a buffer solid.
pub proof fn lemma_all_solid_push(ts: Seq<Tree>, t: Tree)
    requires
        all_solid(ts),
        solid(t),
    ensures
        all_solid(ts.push(t)),
{
    let more = ts.push(t);
    assert forall|i: int| 0 <= i < more.len() implies solid(#[trigger] more[i]) by {
        if i < ts.len() {
            assert(more[i] == ts[i]);
        }
    }
}

/// Reading a character keeps the parser's buffers solid.
pub proof fn lemma_step_solid(st: Snapshot, pos: usize, c: char)
    requires
        snapshot_solid(st),
        step(st, pos, c) is Ok,
    ensures
        snapshot_solid(step(st, pos, c)->Ok_0),
{
    let next = step(st, pos, c)->Ok_0;
    if st.escape {
        lemma_all_solid_push(st.seq, Tree::Char(c));
    } else if c == '+' || c == '*' || c == '?' {
        let kind = if c == '+' {
            Psq::Plus
        } else if c == '*' {
            Psq::Star
        } else {
            Psq::Question
        };
        let front = st.seq.drop_last();
        assert(solid(st.seq.last()));
        assert forall|i: int| 0 <= i < front.len() implies solid(#[trigger] front[i]) by {
            assert(front[i] == st.seq[i]);
        }
        lemma_all_solid_push(front, repeated(kind, st.seq.last()));
    } else if c == '(' {
        assert forall|i: int| 0 <= i < next.stack.len() implies all_solid(
            (#[trigger] next.stack[i]).0,
        ) && all_solid(next.stack[i].1) by {
            if i < st.stack.len() {
                assert(next.stack[i] == st.stack[i]);
            }
        }
    } else if c == ')' {
        let outer = st.stack.last().0;
        assert(all_solid(st.stack[st.stack.len() - 1].0));
        match group(st.seq, st.seq_or) {
            Some(t) => {
                lemma_group_solid(st.seq, st.seq_or);
                lemma_all_solid_push(outer, t);
            },
            None => {},
        }
        assert forall|i: int| 0 <= i < next.stack.len() implies all_solid(
            (#[trigger] next.stack[i]).0,
        ) && all_solid(next.stack[i].1) by {
            assert(next.stack[i] == st.stack[i]);
        }
    } else if c == '|' {
        let whole = Tree::Concat(st.seq);
        assert(solid(whole)) by {
            assert forall|i: int| 0 <= i < st.seq.len() implies solid(st.seq[i]) by {
                assert(solid(st.seq[i]));
            }
        }
        lemma_all_solid_push(st.seq_or, whole);
    } else if c == '\\' {
    } else if c == '.' {
        lemma_all_solid_push(st.seq, Tree::Any);
    } else if c == '^' {
        lemma_all_solid_push(st.seq, Tree::Start);
    } else if c == '$' {
        lemma_all_solid_push(st.seq, Tree::End);
    } else {
        lemma_all_solid_push(st.seq, Tree::Char(c));
    }
}

/// The parser's buffers are solid after any number of characters.
pub proof fn lemma_scan_solid(s: Seq<char>, n: nat)
    requires
        scan(s, n) is Ok,
    ensures
        snapshot_solid(scan(s, n)->Ok_0),
    decreases n,
{
    if n > 0 {
        lemma_scan_solid(s, (n - 1) as nat);
        lemma_step_solid(scan(s, (n - 1) as nat)->Ok_0, (n - 1) as usize, s[n - 1]);
    }
}

/// No tree that the parser gives holds an empty concatenation.
pub proof fn lemma_parsed_solid(s: Seq<char>)
    requires
        parse_spec(s) is Ok,
    ensures
        solid(parse_spec(s)->Ok_0),
{
    lemma_scan_solid(s, s.len());
    let st = scan(s, s.len())->Ok_0;
    lemma_group_solid(st.seq, st.seq_or);
}

/// The tree for the character after a backslash: the character itself where
/// it is one of `\ ( ) | + * ? .`, else an error with position and character.
pub fn parse_escape(pos: usize, c: char) -> (r: Result<Ast, ParseError>)
    ensures
        parsed(r) == escaped(pos, c),
{
    if c == '\\' || c == '(' || c == ')' || c == '|' || c == '+' || c == '*' || c == '?' || c
        == '.' {
        Ok(Ast::Char(c))
    } else {
        Err(ParseError::InvalidEscape(pos, c))
    }
}

/// Puts the last tree of `seq` under a repetition operator. Where `seq` is
/// empty it stays so, and the error names the operator's position.
pub fn parse_plus_star_question(seq: &mut Vec<Ast>, ast_type: Psq, pos: usize) -> (r: Result<
    (),
    ParseError,
>)
    ensures
        match quantified(trees(old(seq)@), ast_type, pos) {
            Ok(s) => r is Ok && trees(final(seq)@) == s,
            Err(e) => r == Err::<(), ParseError>(e) && final(seq)@ == old(seq)@,
        },
{
    if let Some(prev) = seq.pop() {
        let ghost inner = prev@;
        let ast = match ast_type {
            Psq::Plus => Ast::Plus(Box::new(prev)),
            Psq::Star => Ast::Star(Box::new(prev)),
            Psq::Question => Ast::Question(Box::new(prev)),
        };
        assert(ast@ == repeated(ast_type, inner));
        seq.push(ast);
        assert(trees(seq@) =~= trees(old(seq)@).drop_last().push(
            repeated(ast_type, trees(old(seq)@).last()),
        ));
        Ok(())
    } else {
        Err(ParseError::NoPrev(pos))
    }
}

/// Combines alternatives to the right into nested `Or` nodes; `None` where
/// there is no alternative.
pub fn fold_or(seq_or: Vec<Ast>) -> (r: Option<Ast>)
    ensures
        match folded(trees(seq_or@)) {
            Some(t) => r is Some && r->Some_0@ == t,
            None => r is None,
        },
{
    let mut seq_or = seq_or;
    let ghost all = trees(seq_or@);
    let mut ast = match seq_or.pop() {
        Some(last) => last,
        None => {
            return None;
        },
    };
    assert(trees(seq_or@).push(ast@) =~= all);
    while seq_or.len() > 0
        invariant
            all.len() > 0,
            alternation(trees(seq_or@).push(ast@)) == alternation(all),
        decreases seq_or.len(),
    {
        let ghost before = trees(seq_or@);
        let ghost right = ast@;
        let left = seq_or.pop().unwrap();
        proof {
            lemma_alternation_join_last(trees(seq_or@), left@, right);
            assert(trees(seq_or@).push(left@) =~= before);
        }
        ast = Ast::Or(Box::new(left), Box::new(ast));
    }
    assert(trees(seq_or@).push(ast@) =~= seq![ast@]);
    Some(ast)
}

/// The buffers that a stack of saved buffers stands for.
pub open spec fn frames(s: Seq<(Vec<Ast>, Vec<Ast>)>) -> Seq<(Seq<Tree>, Seq<Tree>)> {
    Seq::new(s.len(), |i: int| (trees(s[i].0@), trees(s[i].1@)))
}

/// Whether the parser has just read an unescaped backslash.
enum ParseState {
    /// Reading plain characters.
    Char,
    /// Reading the character after a backslash.
    Escape,
}

/// The character of `v` at index `i`.
fn char_at(v: &Vec<char>, i: usize) -> (c: char)
    requires
        i < v.len(),
    ensures
        c == v@[i as int],
{
    v[i]
}

/// Parses a pattern into its syntax tree.
///
/// The pattern is read character by character. `+`, `*` and `?` apply to the
/// expression just before them, `|` separates alternatives, parentheses
/// group, `.` stands for any character, `^` and `$` for the start and the end
/// of the line, and a backslash makes one of `\ ( ) | + * ? .` literal. An
/// empty group adds nothing. The first error met is returned, with the
/// position of the offending character counted in characters.
pub fn parse(expr: &str) -> (r: Result<Ast, ParseError>)
    ensures
        parsed(r) == parse_spec(expr@),
        r matches Ok(ast) ==> solid(ast@),
{
    proof {
        if parse_spec(expr@) is Ok {
            lemma_parsed_solid(expr@);
        }
    }
    let chars = chars_of(expr);
    let mut seq: Vec<Ast> = Vec::new();
    let mut seq_or: Vec<Ast> = Vec::new();
    let mut stack: Vec<(Vec<Ast>, Vec<Ast>)> = Vec::new();
    let mut state = ParseState::Char;
    let mut idx: usize = 0;
    assert(trees(seq@) =~= Seq::empty());
    assert(frames(stack@) =~= Seq::empty());
    while idx < chars.len()
        invariant
            idx <= chars.len(),
            chars@ == expr@,
            scan(expr@, idx as nat) == Ok::<Snapshot, ParseError>(
                Snapshot {
                    seq: trees(seq@),
                    seq_or: trees(seq_or@),
                    stack: frames(stack@),
                    escape: state is Escape,
                },
            ),
        decreases chars.len() - idx,
    {
        let c = char_at(&chars, idx);
        let ghost before = scan(expr@, idx as nat)->Ok_0;
        let ghost after = step(before, idx, c);
        assert(scan(expr@, (idx + 1) as nat) == after);
        proof {
            if after is Err {
                lemma_scan_error_stays(expr@, (idx + 1) as nat, expr@.len());
            }
        }
        match state {
            ParseState::Char => {
                if c == '+' || c == '*' || c == '?' {
                    let kind = if c == '+' {
                        Psq::Plus
                    } else if c == '*' {
                        Psq::Star
                    } else {
                        Psq::Question
                    };
                    match parse_plus_star_question(&mut seq, kind, idx) {
                        Ok(()) => {},
                        Err(e) => {
                            return Err(e);
                        },
                    }
                } else if c == '(' {
                    let ghost saved = frames(stack@);
                    stack.push((seq, seq_or));
                    assert(frames(stack@) =~= saved.push((before.seq, before.seq_or)));
                    seq = Vec::new();
                    seq_or = Vec::new();
                    assert(trees(seq@) =~= Seq::empty());
                } else if c == ')' {
                    let ghost saved = frames(stack@);
                    match stack.pop() {
                        None => {
                            return Err(ParseError::InvalidRightParen(idx));
                        },
                        Some((outer, outer_or)) => {
                            assert(frames(stack@) =~= saved.drop_last());
                            assert(saved.last() == (trees(outer@), trees(outer_or@)));
                            let mut outer = outer;
                            if seq.len() > 0 {
                                proof {
                                    lemma_concat_view(seq);
                                }
                                let ghost alts = trees(seq_or@);
                                seq_or.push(Ast::Concat(seq));
                                assert(trees(seq_or@) =~= alts.push(Tree::Concat(before.seq)));
                            }
                            if let Some(ast) = fold_or(seq_or) {
                                let ghost kept = trees(outer@);
                                outer.push(ast);
                                assert(trees(outer@) =~= kept.push(ast@));
                            }
                            seq = outer;
                            seq_or = outer_or;
                        },
                    }
                } else if c == '|' {
                    if seq.len() == 0 {
                        return Err(ParseError::NoPrev(idx));
                    } else {
                        proof {
                            lemma_concat_view(seq);
                        }
                        let ghost alts = trees(seq_or@);
                        seq_or.push(Ast::Concat(seq));
                        assert(trees(seq_or@) =~= alts.push(Tree::Concat(before.seq)));
                        seq = Vec::new();
                        assert(trees(seq@) =~= Seq::empty());
                    }
                } else if c == '\\' {
                    state = ParseState::Escape;
                } else if c == '.' {
                    proof {
                        lemma_trees_push(seq@, Ast::Any);
                    }
                    seq.push(Ast::Any);
                } else if c == '^' {
                    proof {
                        lemma_trees_push(seq@, Ast::Start);
                    }
                    seq.push(Ast::Start);
                } else if c == '$' {
                    proof {
                        lemma_trees_push(seq@, Ast::End);
                    }
                    seq.push(Ast::End);
                } else {
                    proof {
                        lemma_trees_push(seq@, Ast::Char(c));
                    }
                    seq.push(Ast::Char(c));
                }
            },
            ParseState::Escape => {
                match parse_escape(idx, c) {
                    Ok(ast) => {
                        seq.push(ast);
                        assert(trees(seq@) =~= before.seq.push(ast@));
                        state = ParseState::Char;
                    },
                    Err(e) => {
                        return Err(e);
                    },
                }
            },
        }
        idx += 1;
    }
    if stack.len() > 0 {
        return Err(ParseError::NoRightParen);
    }
    if seq.len() > 0 {
        proof {
            lemma_concat_view(seq);
        }
        let ghost alts = trees(seq_or@);
        let ghost last = trees(seq@);
        seq_or.push(Ast::Concat(seq));
        assert(trees(seq_or@) =~= alts.push(Tree::Concat(last)));
    }
    match fold_or(seq_or) {
        Some(ast) => Ok(ast),
        None => Err(ParseError::Empty),
    }
}

} // verus!
