//! From syntax tree to program.
use super::evaluator::{closed, ranked};
use super::parser::{lemma_concat_view, trees, Ast, Tree};
use super::shape::{lemma_compiled_closed, lemma_ranked_iff_productive, productive};
use super::Instruction;
use crate::helper::safe_add;
use vstd::prelude::*;

verus! {

/// Why no program could be generated.
#[derive(Debug, PartialEq, Eq, Clone, Copy, Structural)]
pub enum CodeGenError {
    /// The program would have more instructions than an address can count.
    PCOverFlow,
    /// The placeholder of a `*` was not found where it was written.
    FailStar,
    /// A placeholder of a `|` was not found where it was written.
    FailOr,
    /// The placeholder of a `?` was not found where it was written.
    FailQuestion,
}

/// The number of instructions that `t` is lowered to.
pub open spec fn size(t: Tree) -> nat
    decreases t, 0nat,
{
    match t {
        Tree::Char(_) | Tree::Any | Tree::Start | Tree::End => 1,
        Tree::Plus(e) => size(*e) + 1,
        Tree::Star(e) => size(*e) + 2,
        Tree::Question(e) => size(*e) + 1,
        Tree::Or(l, r) => size(*l) + size(*r) + 2,
        Tree::Concat(ts) => size_upto(ts, ts.len()),
    }
}

/// The number of instructions that the first `n` trees of `ts` are lowered to.
pub open spec fn size_upto(ts: Seq<Tree>, n: nat) -> nat
    decreases ts, n,
{
    if n == 0 || n > ts.len() {
        0
    } else {
        size_upto(ts, (n - 1) as nat) + size(ts[n - 1])
    }
}

/// The instructions that `t` is lowered to when the first of them stands at
/// address `base`.
pub open spec fn code(t: Tree, base: nat) -> Seq<Instruction>
    decreases t, 0nat,
{
    match t {
        Tree::Char(c) => seq![Instruction::Char(c)],
        Tree::Any => seq![Instruction::Any],
        Tree::Start => seq![Instruction::Start],
        Tree::End => seq![Instruction::End],
        Tree::Plus(e) => code(*e, base).push(
            Instruction::Split(base as usize, (base + size(*e) + 1) as usize),
        ),
        Tree::Star(e) => seq![
            Instruction::Split((base + 1) as usize, (base + size(*e) + 2) as usize),
        ] + code(*e, base + 1) + seq![Instruction::Jump(base as usize)],
        Tree::Question(e) => seq![
            Instruction::Split((base + 1) as usize, (base + size(*e) + 1) as usize),
        ] + code(*e, base + 1),
        Tree::Or(l, r) => seq![
            Instruction::Split((base + 1) as usize, (base + size(*l) + 2) as usize),
        ] + code(*l, base + 1) + seq![
            Instruction::Jump((base + size(*l) + size(*r) + 2) as usize),
        ] + code(*r, base + size(*l) + 2),
        Tree::Concat(ts) => code_upto(ts, ts.len(), base),
    }
}

/// The instructions that the first `n` trees of `ts` are lowered to, one
/// after the other, when the first instruction stands at address `base`.
pub open spec fn code_upto(ts: Seq<Tree>, n: nat, base: nat) -> Seq<Instruction>
    decreases ts, n,
{
    if n == 0 || n > ts.len() {
        Seq::empty()
    } else {
        code_upto(ts, (n - 1) as nat, base) + code(
            ts[n - 1],
            base + size_upto(ts, (n - 1) as nat),
        )
    }
}

/// The program for `t`: its instructions from address 0, then `Match`; an
/// error where that is more than an address can count.
pub open spec fn compile_spec(t: Tree) -> Result<Seq<Instruction>, CodeGenError> {
    if size(t) + 1 <= usize::MAX {
        Ok(code(t, 0).push(Instruction::Match))
    } else {
        Err(CodeGenError::PCOverFlow)
    }
}

/// `code` yields as many instructions as `size` says, wherever it starts.
pub proof fn lemma_code_len(t: Tree, base: nat)
    ensures
        code(t, base).len() == size(t),
    decreases t, 0nat,
{
    match t {
        Tree::Plus(e) => lemma_code_len(*e, base),
        Tree::Star(e) => lemma_code_len(*e, base + 1),
        Tree::Question(e) => lemma_code_len(*e, base + 1),
        Tree::Or(l, r) => {
            lemma_code_len(*l, base + 1);
            lemma_code_len(*r, base + size(*l) + 2);
        },
        Tree::Concat(ts) => lemma_code_upto_len(ts, ts.len(), base),
        _ => {},
    }
}

/// `code_upto` yields as many instructions as `size_upto` says.
pub proof fn lemma_code_upto_len(ts: Seq<Tree>, n: nat, base: nat)
    ensures
        code_upto(ts, n, base).len() == size_upto(ts, n),
    decreases ts, n,
{
    if n == 0 || n > ts.len() {
    } else {
        lemma_code_upto_len(ts, (n - 1) as nat, base);
        lemma_code_len(ts[n - 1], base + size_upto(ts, (n - 1) as nat));
    }
}

/// What lowering `t` does to a generator that holds `before`: on success the
/// instructions of `t` follow those it held; it fails exactly where they
/// would pass the largest address, and then what it held is still there.
pub open spec fn lowered(
    before: Seq<Instruction>,
    t: Tree,
    after: Seq<Instruction>,
    r: Result<(), CodeGenError>,
) -> bool {
    if before.len() + size(t) <= usize::MAX {
        r is Ok && after == before + code(t, before.len())
    } else {
        r == Err::<(), CodeGenError>(CodeGenError::PCOverFlow) && before.is_prefix_of(after)
    }
}

/// A generated program, or the error, with the program as a sequence.
pub open spec fn compiled(r: Result<Vec<Instruction>, CodeGenError>) -> Result<
    Seq<Instruction>,
    CodeGenError,
> {
    match r {
        Ok(v) => Ok(v@),
        Err(e) => Err(e),
    }
}

/// Builds a program instruction by instruction.
#[derive(Debug)]
pub struct Generator {
    /// Address of the next instruction.
    pc: usize,
    /// The instructions emitted so far.
    insts: Vec<Instruction>,
}

impl View for Generator {
    type V = Seq<Instruction>;

    /// The instructions emitted so far.
    closed spec fn view(&self) -> Seq<Instruction> {
        self.insts@
    }
}

impl Default for Generator {
    fn default() -> (g: Self)
        ensures
            g.wf(),
            g@ == Seq::<Instruction>::empty(),
    {
        Generator { pc: 0, insts: Vec::new() }
    }
}

impl Generator {
    /// The address of the next instruction.
    pub closed spec fn counter(&self) -> usize {
        self.pc
    }

    /// The counter is the number of instructions emitted.
    pub open spec fn wf(&self) -> bool {
        self.counter() == self@.len()
    }

    /// The instructions emitted so far.
    pub fn insts(&self) -> (r: &Vec<Instruction>)
        ensures
            r@ == self@,
    {
        &self.insts
    }

    /// Advances the counter by one, or fails where it is at its maximum.
    pub fn inc_pc(&mut self) -> (r: Result<(), CodeGenError>)
        ensures
            final(self)@ == old(self)@,
            old(self).counter() < usize::MAX ==> r is Ok && final(self).counter() == old(
                self,
            ).counter() + 1,
            old(self).counter() == usize::MAX ==> r == Err::<(), CodeGenError>(
                CodeGenError::PCOverFlow,
            ) && final(self).counter() == old(self).counter(),
    {
        let overflow = || -> (e: CodeGenError)
            ensures
                e == CodeGenError::PCOverFlow,
            { CodeGenError::PCOverFlow };
        safe_add(&mut self.pc, &1, overflow)
    }

    /// Appends `inst` and advances the counter.
    fn emit(&mut self, inst: Instruction) -> (r: Result<(), CodeGenError>)
        requires
            old(self).wf(),
        ensures
            final(self).wf(),
            r is Ok,
            final(self)@ == old(self)@.push(inst),
    {
        self.insts.push(inst);
        assert(self.insts.len() <= usize::MAX);
        self.inc_pc()
    }

    /// Lowers `ast` behind the instructions emitted so far.
    pub fn gen_expr(&mut self, ast: &Ast) -> (r: Result<(), CodeGenError>)
        requires
            old(self).wf(),
        ensures
            final(self).wf(),
            lowered(old(self)@, ast@, final(self)@, r),
        decreases ast@, 1nat,
    {
        match ast {
            Ast::Char(c) => self.gen_char(c),
            Ast::Plus(e) => self.gen_plus(e),
            Ast::Star(e) => self.gen_star(e),
            Ast::Question(e) => self.gen_question(e),
            Ast::Or(e1, e2) => self.gen_or(e1, e2),
            Ast::Concat(v) => {
                proof {
                    lemma_concat_view(*v);
                }
                self.gen_seq(v.as_slice())
            },
            Ast::Any => {
                let r = self.emit(Instruction::Any);
                assert(self@ =~= old(self)@ + code(Tree::Any, old(self)@.len()));
                r
            },
            Ast::Start => {
                let r = self.emit(Instruction::Start);
                assert(self@ =~= old(self)@ + code(Tree::Start, old(self)@.len()));
                r
            },
            Ast::End => {
                let r = self.emit(Instruction::End);
                assert(self@ =~= old(self)@ + code(Tree::End, old(self)@.len()));
                r
            },
        }
    }

    /// Emits the instruction that matches the character `c`.
    pub fn gen_char(&mut self, c: &char) -> (r: Result<(), CodeGenError>)
        requires
            old(self).wf(),
        ensures
            final(self).wf(),
            lowered(old(self)@, Tree::Char(*c), final(self)@, r),
    {
        let r = self.emit(Instruction::Char(*c));
        assert(self@ =~= old(self)@ + code(Tree::Char(*c), old(self)@.len()));
        r
    }

    /// Lowers the expressions one after the other.
    pub fn gen_seq(&mut self, exprs: &[Ast]) -> (r: Result<(), CodeGenError>)
        requires
            old(self).wf(),
        ensures
            final(self).wf(),
            lowered(old(self)@, Tree::Concat(trees(exprs@)), final(self)@, r),
        decreases Tree::Concat(trees(exprs@)), 0nat,
    {
        let ghost ts = trees(exprs@);
        let ghost before = self@;
        let ghost base = before.len();
        let mut i: usize = 0;
        assert(self@ =~= before + code_upto(ts, 0, base));
        while i < exprs.len()
            invariant
                i <= exprs.len(),
                ts == trees(exprs@),
                before == old(self)@,
                base == before.len(),
                self.wf(),
                self@ == before + code_upto(ts, i as nat, base),
                base + size_upto(ts, i as nat) <= usize::MAX,
            decreases exprs.len() - i,
        {
            proof {
                lemma_code_upto_len(ts, i as nat, base);
                lemma_size_upto_grows(ts, (i + 1) as nat, ts.len());
                assert(exprs[i as int]@ == ts[i as int]);
                let ghost whole = Tree::Concat(ts);
                assert(whole is Concat);
                assert(decreases_to!(whole => whole->Concat_0));
                assert(decreases_to!(ts => ts[i as int]));
                assert(decreases_to!(Tree::Concat(ts) => ts[i as int]));
            }
            match self.gen_expr(&exprs[i]) {
                Ok(()) => {},
                Err(e) => {
                    return Err(e);
                },
            }
            assert(self@ =~= before + code_upto(ts, (i + 1) as nat, base));
            i += 1;
        }
        Ok(())
    }

    /// Lowers one or more repetitions of `ast`: its code, then a split that
    /// goes back to its start or on.
    pub fn gen_plus(&mut self, ast: &Ast) -> (r: Result<(), CodeGenError>)
        requires
            old(self).wf(),
        ensures
            final(self).wf(),
            lowered(old(self)@, Tree::Plus(Box::new(ast@)), final(self)@, r),
        decreases Tree::Plus(Box::new(ast@)), 0nat,
    {
        let ghost before = self@;
        let start_addr = self.pc;
        proof {
            lemma_code_len(ast@, before.len());
            let ghost whole = Tree::Plus(Box::new(ast@));
            assert(whole is Plus);
            assert(decreases_to!(whole => *whole->Plus_0));
        }
        self.gen_expr(ast)?;
        self.inc_pc()?;
        let split = Instruction::Split(start_addr, self.pc);
        self.insts.push(split);
        assert(self@ =~= before + code(Tree::Plus(Box::new(ast@)), before.len()));
        Ok(())
    }

    /// Lowers zero or more repetitions of `ast`: a split that enters its code
    /// or skips it, the code, and a jump back to the split.
    pub fn gen_star(&mut self, ast: &Ast) -> (r: Result<(), CodeGenError>)
        requires
            old(self).wf(),
        ensures
            final(self).wf(),
            lowered(old(self)@, Tree::Star(Box::new(ast@)), final(self)@, r),
        decreases Tree::Star(Box::new(ast@)), 0nat,
    {
        let ghost before = self@;
        let split_addr = self.pc;
        proof {
            lemma_code_len(ast@, before.len() + 1);
            let ghost whole = Tree::Star(Box::new(ast@));
            assert(whole is Star);
            assert(decreases_to!(whole => *whole->Star_0));
        }
        self.inc_pc()?;
        let split = Instruction::Split(self.pc, 0);
        self.insts.push(split);
        self.gen_expr(ast)?;
        let jump = Instruction::Jump(split_addr);
        self.insts.push(jump);
        assert(self.insts.len() <= usize::MAX);
        self.inc_pc()?;
        let inst = self.insts[split_addr];
        if let Instruction::Split(l1, _) = inst {
            self.insts.set(split_addr, Instruction::Split(l1, self.pc));
        } else {
            return Err(CodeGenError::FailStar);
        }
        assert(self@ =~= before + code(Tree::Star(Box::new(ast@)), before.len()));
        Ok(())
    }

    /// Lowers an optional `ast`: a split that enters its code or skips it,
    /// then the code.
    pub fn gen_question(&mut self, ast: &Ast) -> (r: Result<(), CodeGenError>)
        requires
            old(self).wf(),
        ensures
            final(self).wf(),
            lowered(old(self)@, Tree::Question(Box::new(ast@)), final(self)@, r),
        decreases Tree::Question(Box::new(ast@)), 0nat,
    {
        let ghost before = self@;
        let split_addr = self.pc;
        proof {
            lemma_code_len(ast@, before.len() + 1);
            let ghost whole = Tree::Question(Box::new(ast@));
            assert(whole is Question);
            assert(decreases_to!(whole => *whole->Question_0));
        }
        self.inc_pc()?;
        let split = Instruction::Split(self.pc, 0);
        self.insts.push(split);
        self.gen_expr(ast)?;
        let inst = self.insts[split_addr];
        if let Instruction::Split(l1, _) = inst {
            self.insts.set(split_addr, Instruction::Split(l1, self.pc));
        } else {
            return Err(CodeGenError::FailQuestion);
        }
        assert(self@ =~= before + code(Tree::Question(Box::new(ast@)), before.len()));
        Ok(())
    }

    /// Lowers the choice between `e1` and `e2`: a split to either, the code
    /// of `e1`, a jump over the code of `e2`, and that code.
    pub fn gen_or(&mut self, e1: &Ast, e2: &Ast) -> (r: Result<(), CodeGenError>)
        requires
            old(self).wf(),
        ensures
            final(self).wf(),
            lowered(old(self)@, Tree::Or(Box::new(e1@), Box::new(e2@)), final(self)@, r),
        decreases Tree::Or(Box::new(e1@), Box::new(e2@)), 0nat,
    {
        let ghost before = self@;
        let ghost whole = Tree::Or(Box::new(e1@), Box::new(e2@));
        let split_addr = self.pc;
        proof {
            lemma_code_len(e1@, before.len() + 1);
            lemma_code_len(e2@, before.len() + size(e1@) + 2);
            assert(whole is Or);
            assert(decreases_to!(whole => *whole->Or_0));
            assert(decreases_to!(whole => *whole->Or_1));
        }
        self.inc_pc()?;
        let split = Instruction::Split(self.pc, 0);
        self.insts.push(split);
        self.gen_expr(e1)?;
        let jmp_addr = self.pc;
        self.insts.push(Instruction::Jump(0));
        assert(self.insts.len() <= usize::MAX);
        self.inc_pc()?;
        let inst = self.insts[split_addr];
        if let Instruction::Split(l1, _) = inst {
            self.insts.set(split_addr, Instruction::Split(l1, self.pc));
        } else {
            return Err(CodeGenError::FailOr);
        }
        self.gen_expr(e2)?;
        let inst = self.insts[jmp_addr];
        if let Instruction::Jump(_) = inst {
            self.insts.set(jmp_addr, Instruction::Jump(self.pc));
        } else {
            return Err(CodeGenError::FailOr);
        }
        assert(self@ =~= before + code(whole, before.len()));
        Ok(())
    }

    /// Lowers `ast` and ends the program with `Match`.
    pub fn gen_code(&mut self, ast: &Ast) -> (r: Result<(), CodeGenError>)
        requires
            old(self).wf(),
        ensures
            final(self).wf(),
            old(self)@.len() + size(ast@) + 1 <= usize::MAX ==> r is Ok && final(self)@ == (old(
                self,
            )@ + code(ast@, old(self)@.len())).push(Instruction::Match),
            old(self)@.len() + size(ast@) + 1 > usize::MAX ==> r == Err::<(), CodeGenError>(
                CodeGenError::PCOverFlow,
            ) && old(self)@.is_prefix_of(final(self)@),
    {
        proof {
            lemma_code_len(ast@, old(self)@.len());
        }
        self.gen_expr(ast)?;
        self.inc_pc()?;
        self.insts.push(Instruction::Match);
        Ok(())
    }
}

/// Compiles a syntax tree into a program that ends with `Match`.
///
/// The program is closed: every jump and split leads to one of its
/// addresses. It is ranked, so that it can be evaluated, exactly where the
/// tree is productive.
pub fn get_code(ast: &Ast) -> (r: Result<Vec<Instruction>, CodeGenError>)
    ensures
        compiled(r) == compile_spec(ast@),
        r matches Ok(prog) ==> closed(prog@) && prog@.last() == Instruction::Match && (ranked(
            prog@,
        ) <==> productive(ast@)),
{
    let mut generator = Generator::default();
    generator.gen_code(ast)?;
    assert(generator@ =~= code(ast@, 0).push(Instruction::Match));
    proof {
        lemma_compiled_closed(ast@);
        lemma_ranked_iff_productive(ast@);
    }
    Ok(generator.insts)
}

/// Compiling is a function of the tree: whenever two syntax trees stand for
/// the same tree, and so whenever one syntax tree is compiled twice, the two
/// results are the same, instruction for instruction.
pub proof fn lemma_get_code_repeatable(
    a: Ast,
    b: Ast,
    first: Result<Vec<Instruction>, CodeGenError>,
    second: Result<Vec<Instruction>, CodeGenError>,
)
    requires
        a@ == b@,
        compiled(first) == compile_spec(a@),
        compiled(second) == compile_spec(b@),
    ensures
        compiled(first) == compiled(second),
        first matches Ok(p) ==> second is Ok && second->Ok_0@ == p@,
        first matches Err(e) ==> second == Err::<Vec<Instruction>, CodeGenError>(e),
{
}

/// The first `n` trees take no more instructions than the first `m`, `n <= m`.
pub proof fn lemma_size_upto_grows(ts: Seq<Tree>, n: nat, m: nat)
    requires
        n <= m <= ts.len(),
    ensures
        size_upto(ts, n) <= size_upto(ts, m),
    decreases m,
{
    if n < m {
        lemma_size_upto_grows(ts, n, (m - 1) as nat);
    }
}

} // verus!
