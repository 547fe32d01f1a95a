use vstd::prelude::*;

use crate::engine::Instruction;
use crate::evaluator::{inst_in_range, well_formed};
use crate::parser::{lemma_trees_of, tree_of, trees_of, Tree, AST};

verus! {

broadcast use vstd::std_specs::vec::group_vec_axioms;

/// Errors of code generation. Only `PCOverFlow` can occur; the other variants
/// name patch failures that the generator's bookkeeping rules out.
#[derive(Debug, Clone, Copy, PartialEq, Eq, Structural)]
pub enum CodeGenError {
    PCOverFlow,
    FailStar,
    FailOr,
    FailQuestion,
}

/// Number of instructions emitted for a tree.
pub open spec fn code_len(a: Tree) -> nat
    decreases a,
{
    match a {
        Tree::Char(_) => 1,
        Tree::Or(e1, e2) => code_len(*e1) + code_len(*e2) + 2,
        Tree::Concat(es) => list_len(es),
        Tree::Star(e) => code_len(*e) + 2,
        Tree::Plus(e) => code_len(*e) + 1,
        Tree::Question(e) => code_len(*e) + 1,
    }
}

/// Number of instructions emitted for a sequence of trees.
pub open spec fn list_len(es: Seq<Tree>) -> nat
    decreases es,
{
    if es.len() == 0 {
        0
    } else {
        list_len(es.drop_last()) + code_len(es.last())
    }
}

/// The instructions emitted for a tree whose first instruction lands at address `s`.
pub open spec fn code_of(a: Tree, s: nat) -> Seq<Instruction>
    decreases a,
{
    match a {
        Tree::Char(c) => seq![Instruction::Char(c)],
        Tree::Or(e1, e2) => {
            let l2 = s + 2 + code_len(*e1);
            let l3 = l2 + code_len(*e2);
            seq![Instruction::Split((s + 1) as usize, l2 as usize)] + code_of(*e1, s + 1)
                + seq![Instruction::Jump(l3 as usize)] + code_of(*e2, l2)
        },
        Tree::Concat(es) => list_code(es, s),
        Tree::Star(e) => {
            let exit = s + 2 + code_len(*e);
            seq![Instruction::Split((s + 1) as usize, exit as usize)] + code_of(*e, s + 1)
                + seq![Instruction::Jump(s as usize)]
        },
        Tree::Plus(e) => {
            let exit = s + 1 + code_len(*e);
            code_of(*e, s) + seq![Instruction::Split(s as usize, exit as usize)]
        },
        Tree::Question(e) => {
            let skip = s + 1 + code_len(*e);
            seq![Instruction::Split((s + 1) as usize, skip as usize)] + code_of(*e, s + 1)
        },
    }
}

/// The instructions emitted for a sequence of trees, starting at address `s`.
pub open spec fn list_code(es: Seq<Tree>, s: nat) -> Seq<Instruction>
    decreases es,
{
    if es.len() == 0 {
        seq![]
    } else {
        list_code(es.drop_last(), s) + code_of(es.last(), s + list_len(es.drop_last()))
    }
}


proof fn lemma_code_len(a: Tree, s: nat)
    ensures
        code_of(a, s).len() == code_len(a),
    decreases a,
{
    match a {
        Tree::Char(_) => {},
        Tree::Or(e1, e2) => {
            lemma_code_len(*e1, s + 1);
            lemma_code_len(*e2, s + 2 + code_len(*e1));
        },
        Tree::Concat(es) => lemma_list_len(es, s),
        Tree::Star(e) => lemma_code_len(*e, s + 1),
        Tree::Plus(e) => lemma_code_len(*e, s),
        Tree::Question(e) => lemma_code_len(*e, s + 1),
    }
}

proof fn lemma_list_len(es: Seq<Tree>, s: nat)
    ensures
        list_code(es, s).len() == list_len(es),
    decreases es,
{
    if es.len() > 0 {
        lemma_list_len(es.drop_last(), s);
        lemma_code_len(es.last(), s + list_len(es.drop_last()));
    }
}

/// A prefix of a sequence never emits more than the whole.
proof fn lemma_list_len_prefix(es: Seq<Tree>, i: int)
    requires
        0 <= i < es.len(),
    ensures
        list_len(es.subrange(0, i)) + code_len(es[i]) <= list_len(es),
    decreases es.len(),
{
    if i + 1 < es.len() {
        assert(es.drop_last().subrange(0, i) =~= es.subrange(0, i));
        lemma_list_len_prefix(es.drop_last(), i);
    } else {
        assert(es.drop_last() =~= es.subrange(0, i));
    }
}

/// Every jump target of an instruction lies in `[lo, hi]`.
pub open spec fn targets_within(inst: Instruction, lo: nat, hi: nat) -> bool {
    match inst {
        Instruction::Char(_) => true,
        Instruction::Match => false,
        Instruction::Jump(a) => lo <= a <= hi,
        Instruction::Split(a, b) => lo <= a <= hi && lo <= b <= hi,
    }
}

/// The code of a tree holds no `Match`, and sends control only inside itself
/// or to the address just after it.
proof fn lemma_code_targets(a: Tree, s: nat)
    requires
        s + code_len(a) <= usize::MAX,
    ensures
        forall|k: int|
            0 <= k < code_of(a, s).len() ==> targets_within(
                #[trigger] code_of(a, s)[k],
                s,
                s + code_len(a),
            ),
    decreases a,
{
    lemma_code_len(a, s);
    match a {
        Tree::Char(ch) => {
            assert(code_of(a, s) =~= seq![Instruction::Char(ch)]);
        },
        Tree::Or(e1, e2) => {
            let l2 = s + 2 + code_len(*e1);
            lemma_code_targets(*e1, s + 1);
            lemma_code_targets(*e2, l2);
            lemma_code_len(*e1, s + 1);
            lemma_code_len(*e2, l2);
            let c = code_of(a, s);
            let c1 = code_of(*e1, s + 1);
            let c2 = code_of(*e2, l2);
            assert forall|k: int| 0 <= k < c.len() implies targets_within(
                #[trigger] c[k],
                s,
                s + code_len(a),
            ) by {
                if 1 <= k < 1 + c1.len() {
                    assert(c[k] == c1[k - 1]);
                } else if k > 1 + c1.len() {
                    assert(c[k] == c2[k - 2 - c1.len()]);
                }
            }
        },
        Tree::Concat(es) => {
            lemma_list_targets(es, s);
            assert(code_of(a, s) == list_code(es, s));
            assert(code_len(a) == list_len(es));
        },
        Tree::Star(e) => {
            lemma_code_targets(*e, s + 1);
            lemma_code_len(*e, s + 1);
            let c = code_of(a, s);
            let c1 = code_of(*e, s + 1);
            assert forall|k: int| 0 <= k < c.len() implies targets_within(
                #[trigger] c[k],
                s,
                s + code_len(a),
            ) by {
                if 1 <= k < 1 + c1.len() {
                    assert(c[k] == c1[k - 1]);
                }
            }
        },
        Tree::Plus(e) => {
            lemma_code_targets(*e, s);
            lemma_code_len(*e, s);
            let c = code_of(a, s);
            let c1 = code_of(*e, s);
            assert forall|k: int| 0 <= k < c.len() implies targets_within(
                #[trigger] c[k],
                s,
                s + code_len(a),
            ) by {
                if k < c1.len() {
                    assert(c[k] == c1[k]);
                }
            }
        },
        Tree::Question(e) => {
            lemma_code_targets(*e, s + 1);
            lemma_code_len(*e, s + 1);
            let c = code_of(a, s);
            let c1 = code_of(*e, s + 1);
            assert forall|k: int| 0 <= k < c.len() implies targets_within(
                #[trigger] c[k],
                s,
                s + code_len(a),
            ) by {
                if 1 <= k {
                    assert(c[k] == c1[k - 1]);
                }
            }
        },
    }
}

proof fn lemma_list_targets(es: Seq<Tree>, s: nat)
    requires
        s + list_len(es) <= usize::MAX,
    ensures
        forall|k: int|
            0 <= k < list_code(es, s).len() ==> targets_within(
                #[trigger] list_code(es, s)[k],
                s,
                s + list_len(es),
            ),
    decreases es,
{
    lemma_list_len(es, s);
    if es.len() > 0 {
        let d = es.drop_last();
        let s2 = s + list_len(d);
        lemma_list_targets(d, s);
        lemma_code_targets(es.last(), s2);
        lemma_list_len(d, s);
        lemma_code_len(es.last(), s2);
        let c = list_code(es, s);
        let c1 = list_code(d, s);
        let c2 = code_of(es.last(), s2);
        assert forall|k: int| 0 <= k < c.len() implies targets_within(
            #[trigger] c[k],
            s,
            s + list_len(es),
        ) by {
            if k < c1.len() {
                assert(c[k] == c1[k]);
            } else {
                assert(c[k] == c2[k - c1.len()]);
            }
        }
    }
}

/// A compiled program is well formed: it is not empty, every transfer of
/// control stays inside it, and its one `Match` is its last instruction.
pub proof fn lemma_program_well_formed(t: Tree)
    requires
        code_len(t) + 1 <= usize::MAX,
    ensures
        well_formed(program_of(t)),
        program_of(t).last() == Instruction::Match,
        forall|i: int| 0 <= i < program_of(t).len() - 1 ==> !(#[trigger] program_of(t)[i] is Match),
{
    let p = program_of(t);
    let c = code_of(t, 0);
    lemma_code_len(t, 0);
    lemma_code_targets(t, 0);
    assert forall|i: int| 0 <= i < p.len() implies #[trigger] inst_in_range(p, i) && (i < p.len()
        - 1 ==> !(p[i] is Match)) by {
        if i < c.len() {
            assert(p[i] == c[i]);
            assert(targets_within(c[i], 0, code_len(t)));
        }
    }
}

/// Whether control can pass from address `from` to address `to` within
/// `fuel` steps, whatever the input (a `Char` is taken as matching).
pub open spec fn flows(p: Seq<Instruction>, from: int, to: int, fuel: nat) -> bool
    decreases fuel,
{
    if from == to {
        true
    } else if fuel == 0 || !(0 <= from < p.len()) {
        false
    } else {
        match p[from] {
            Instruction::Char(_) => flows(p, from + 1, to, (fuel - 1) as nat),
            Instruction::Match => false,
            Instruction::Jump(a) => flows(p, a as int, to, (fuel - 1) as nat),
            Instruction::Split(a, b) => flows(p, a as int, to, (fuel - 1) as nat) || flows(
                p,
                b as int,
                to,
                (fuel - 1) as nat,
            ),
        }
    }
}

proof fn lemma_flows_mono(p: Seq<Instruction>, x: int, z: int, f: nat, g: nat)
    requires
        flows(p, x, z, f),
        f <= g,
    ensures
        flows(p, x, z, g),
    decreases f,
{
    if x != z {
        match p[x] {
            Instruction::Char(_) => lemma_flows_mono(p, x + 1, z, (f - 1) as nat, (g - 1) as nat),
            Instruction::Match => {},
            Instruction::Jump(a) => lemma_flows_mono(p, a as int, z, (f - 1) as nat, (g - 1) as nat),
            Instruction::Split(a, b) => {
                if flows(p, a as int, z, (f - 1) as nat) {
                    lemma_flows_mono(p, a as int, z, (f - 1) as nat, (g - 1) as nat);
                } else {
                    lemma_flows_mono(p, b as int, z, (f - 1) as nat, (g - 1) as nat);
                }
            },
        }
    }
}

proof fn lemma_flows_trans(p: Seq<Instruction>, x: int, y: int, z: int, f1: nat, f2: nat)
    requires
        flows(p, x, y, f1),
        flows(p, y, z, f2),
    ensures
        flows(p, x, z, f1 + f2),
    decreases f1,
{
    if x == y {
        lemma_flows_mono(p, y, z, f2, f1 + f2);
    } else if x != z {
        match p[x] {
            Instruction::Char(_) => lemma_flows_trans(p, x + 1, y, z, (f1 - 1) as nat, f2),
            Instruction::Match => {},
            Instruction::Jump(a) => lemma_flows_trans(p, a as int, y, z, (f1 - 1) as nat, f2),
            Instruction::Split(a, b) => {
                if flows(p, a as int, y, (f1 - 1) as nat) {
                    lemma_flows_trans(p, a as int, y, z, (f1 - 1) as nat, f2);
                } else {
                    lemma_flows_trans(p, b as int, y, z, (f1 - 1) as nat, f2);
                }
            },
        }
    }
}

/// `c` stands in `p` from address `s` on.
pub open spec fn embedded(p: Seq<Instruction>, c: Seq<Instruction>, s: int) -> bool {
    &&& 0 <= s
    &&& s + c.len() <= p.len()
    &&& forall|i: int| 0 <= i < c.len() ==> p[s + i] == #[trigger] c[i]
}

/// Control can pass from the start of a tree's code to the address after it.
proof fn lemma_code_flows(p: Seq<Instruction>, a: Tree, s: nat) -> (f: nat)
    requires
        s + code_len(a) <= usize::MAX,
        embedded(p, code_of(a, s), s as int),
    ensures
        flows(p, s as int, (s + code_len(a)) as int, f),
    decreases a,
{
    lemma_code_len(a, s);
    let c = code_of(a, s);
    match a {
        Tree::Char(ch) => {
            assert(c =~= seq![Instruction::Char(ch)]);
            assert(p[s as int] == c[0]);
            assert(flows(p, s + 1 as int, s + 1 as int, 0));
            1
        },
        Tree::Or(e1, e2) => {
            let l2 = s + 2 + code_len(*e1);
            lemma_code_len(*e1, s + 1);
            lemma_code_len(*e2, l2);
            let c1 = code_of(*e1, s + 1);
            let c2 = code_of(*e2, l2);
            assert(embedded(p, c1, s + 1 as int)) by {
                assert forall|i: int| 0 <= i < c1.len() implies p[s + 1 + i] == #[trigger] c1[i] by {
                    assert(c[1 + i] == c1[i]);
                }
            }
            let f1 = lemma_code_flows(p, *e1, s + 1);
            assert(p[s as int] == c[0]);
            assert(p[l2 - 1] == c[l2 - 1 - s]);
            assert(c[l2 - 1 - s] == Instruction::Jump((l2 + code_len(*e2)) as usize));
            let end = (s + code_len(a)) as int;
            assert(flows(p, end, end, 0));
            assert(0 <= l2 - 1 < p.len());
            assert(flows(p, l2 - 1 as int, end, 1));
            lemma_flows_trans(p, s + 1 as int, l2 - 1 as int, end, f1, 1);
            assert(flows(p, s as int, end, f1 + 2));
            f1 + 2
        },
        Tree::Concat(es) => {
            lemma_list_flows(p, es, s)
        },
        Tree::Star(e) => {
            assert(p[s as int] == c[0]);
            let end = (s + code_len(a)) as int;
            assert(flows(p, end, end, 0));
            assert(flows(p, s as int, end, 1));
            1
        },
        Tree::Plus(e) => {
            lemma_code_len(*e, s);
            let c1 = code_of(*e, s);
            assert(embedded(p, c1, s as int)) by {
                assert forall|i: int| 0 <= i < c1.len() implies p[s + i] == #[trigger] c1[i] by {
                    assert(c[i] == c1[i]);
                }
            }
            let f1 = lemma_code_flows(p, *e, s);
            let mid = (s + code_len(*e)) as int;
            let end = (s + code_len(a)) as int;
            assert(p[mid] == c[mid - s]);
            assert(flows(p, end, end, 0));
            assert(flows(p, mid, end, 1));
            lemma_flows_trans(p, s as int, mid, end, f1, 1);
            f1 + 1
        },
        Tree::Question(e) => {
            assert(p[s as int] == c[0]);
            let end = (s + code_len(a)) as int;
            assert(flows(p, end, end, 0));
            assert(flows(p, s as int, end, 1));
            1
        },
    }
}

proof fn lemma_list_flows(p: Seq<Instruction>, es: Seq<Tree>, s: nat) -> (f: nat)
    requires
        s + list_len(es) <= usize::MAX,
        embedded(p, list_code(es, s), s as int),
    ensures
        flows(p, s as int, (s + list_len(es)) as int, f),
    decreases es,
{
    lemma_list_len(es, s);
    if es.len() == 0 {
        0
    } else {
        let d = es.drop_last();
        let s2 = s + list_len(d);
        lemma_list_len(d, s);
        lemma_code_len(es.last(), s2);
        let c = list_code(es, s);
        let c1 = list_code(d, s);
        let c2 = code_of(es.last(), s2);
        assert(embedded(p, c1, s as int)) by {
            assert forall|i: int| 0 <= i < c1.len() implies p[s + i] == #[trigger] c1[i] by {
                assert(c[i] == c1[i]);
            }
        }
        assert(embedded(p, c2, s2 as int)) by {
            assert forall|i: int| 0 <= i < c2.len() implies p[s2 + i] == #[trigger] c2[i] by {
                assert(c[c1.len() + i] == c2[i]);
            }
        }
        let f1 = lemma_list_flows(p, d, s);
        let f2 = lemma_code_flows(p, es.last(), s2);
        lemma_flows_trans(p, s as int, s2 as int, (s + list_len(es)) as int, f1, f2);
        f1 + f2
    }
}

/// From address 0 of a compiled program, control can reach its `Match`.
pub proof fn lemma_match_reachable(t: Tree)
    requires
        code_len(t) + 1 <= usize::MAX,
    ensures
        exists|f: nat| #[trigger] flows(program_of(t), 0, code_len(t) as int, f),
        program_of(t)[code_len(t) as int] == Instruction::Match,
{
    let p = program_of(t);
    lemma_code_len(t, 0);
    let c = code_of(t, 0);
    assert(embedded(p, c, 0)) by {
        assert forall|i: int| 0 <= i < c.len() implies p[0 + i] == #[trigger] c[i] by {
            assert(p[i] == c[i]);
        }
    }
    let f = lemma_code_flows(p, t, 0);
}

/// The code generator: a program counter and the instructions emitted so far.
struct Generator {
    pc: usize,
    insts: Vec<Instruction>,
}

impl Generator {
    spec fn wf(&self) -> bool {
        self.pc == self.insts@.len()
    }

    fn inc_pc(&mut self) -> (r: Result<(), CodeGenError>)
        ensures
            final(self).insts == old(self).insts,
            old(self).pc < usize::MAX ==> r is Ok && final(self).pc == old(self).pc + 1,
            old(self).pc == usize::MAX ==> r == Err::<(), CodeGenError>(CodeGenError::PCOverFlow)
                && final(self).pc == old(self).pc,
    {
        match self.pc.checked_add(1) {
            Some(n) => {
                self.pc = n;
                Ok(())
            },
            None => Err(CodeGenError::PCOverFlow),
        }
    }

    fn gen_expr(&mut self, ast: &AST) -> (r: Result<(), CodeGenError>)
        requires
            old(self).wf(),
        ensures
            r is Ok <==> old(self).pc + code_len(tree_of(*ast)) <= usize::MAX,
            r is Err ==> r == Err::<(), CodeGenError>(CodeGenError::PCOverFlow),
            r is Ok ==> final(self).wf() && final(self).insts@ == old(self).insts@ + code_of(
                tree_of(*ast),
                old(self).pc as nat,
            ),
            r is Ok ==> final(self).pc == old(self).pc + code_len(tree_of(*ast)),
        decreases *ast, 1nat,
    {
        match ast {
            AST::Char(c) => self.gen_char(*c),
            AST::Or(_, _) => self.gen_or(ast),
            AST::Concat(es) => self.gen_seq(es),
            AST::Star(_) => self.gen_star(ast),
            AST::Plus(_) => self.gen_plus(ast),
            AST::Question(_) => self.gen_question(ast),
        }
    }

    fn gen_char(&mut self, c: char) -> (r: Result<(), CodeGenError>)
        requires
            old(self).wf(),
        ensures
            r is Ok <==> old(self).pc + 1 <= usize::MAX,
            r is Err ==> r == Err::<(), CodeGenError>(CodeGenError::PCOverFlow),
            r is Ok ==> final(self).wf() && final(self).insts@ == old(self).insts@ + seq![
                Instruction::Char(c),
            ],
            r is Ok ==> final(self).pc == old(self).pc + 1,
    {
        self.insts.push(Instruction::Char(c));
        self.inc_pc()
    }

    /// Emits `split L1, L2; L1: e1; jmp L3; L2: e2; L3:`.
    fn gen_or(&mut self, ast: &AST) -> (r: Result<(), CodeGenError>)
        requires
            old(self).wf(),
            ast is Or,
        ensures
            r is Ok <==> old(self).pc + code_len(tree_of(*ast))
                <= usize::MAX,
            r is Err ==> r == Err::<(), CodeGenError>(CodeGenError::PCOverFlow),
            r is Ok ==> final(self).wf() && final(self).insts@ == old(self).insts@ + code_of(
                tree_of(*ast),
                old(self).pc as nat,
            ),
            r is Ok ==> final(self).pc == old(self).pc + code_len(tree_of(*ast)),
        decreases *ast, 0nat,
    {
        if let AST::Or(e1, e2) = ast {
            let ghost s = self.pc as nat;
            let ghost start = self.insts@;
            let split_addr = self.pc;
            self.inc_pc()?;
            let l1 = self.pc;
            self.insts.push(Instruction::Split(l1, 0));
            self.gen_expr(e1)?;
            proof { lemma_code_len(tree_of(**e1), s + 1); }
            let jmp_addr = self.pc;
            self.insts.push(Instruction::Jump(0));
            self.inc_pc()?;
            let l2 = self.pc;
            self.insts.set(split_addr, Instruction::Split(l1, l2));
            self.gen_expr(e2)?;
            proof { lemma_code_len(tree_of(**e2), l2 as nat); }
            let l3 = self.pc;
            self.insts.set(jmp_addr, Instruction::Jump(l3));
            assert(self.insts@ =~= start + code_of(tree_of(*ast), s));
            Ok(())
        } else {
            Err(CodeGenError::FailOr)
        }
    }

    /// Emits `L1: e; split L1, L2; L2:`.
    fn gen_plus(&mut self, ast: &AST) -> (r: Result<(), CodeGenError>)
        requires
            old(self).wf(),
            ast is Plus,
        ensures
            r is Ok <==> old(self).pc + code_len(tree_of(*ast)) <= usize::MAX,
            r is Err ==> r == Err::<(), CodeGenError>(CodeGenError::PCOverFlow),
            r is Ok ==> final(self).wf() && final(self).insts@ == old(self).insts@ + code_of(
                tree_of(*ast),
                old(self).pc as nat,
            ),
            r is Ok ==> final(self).pc == old(self).pc + code_len(tree_of(*ast)),
        decreases *ast, 0nat,
    {
        if let AST::Plus(e) = ast {
            let ghost start = self.insts@;
            let l1 = self.pc;
            self.gen_expr(e)?;
            self.inc_pc()?;
            let l2 = self.pc;
            self.insts.push(Instruction::Split(l1, l2));
            assert(self.insts@ =~= start + code_of(tree_of(*ast), l1 as nat));
            Ok(())
        } else {
            Err(CodeGenError::FailStar)
        }
    }

    /// Emits `L1: split L2, L3; L2: e; jmp L1; L3:`.
    fn gen_star(&mut self, ast: &AST) -> (r: Result<(), CodeGenError>)
        requires
            old(self).wf(),
            ast is Star,
        ensures
            r is Ok <==> old(self).pc + code_len(tree_of(*ast)) <= usize::MAX,
            r is Err ==> r == Err::<(), CodeGenError>(CodeGenError::PCOverFlow),
            r is Ok ==> final(self).wf() && final(self).insts@ == old(self).insts@ + code_of(
                tree_of(*ast),
                old(self).pc as nat,
            ),
            r is Ok ==> final(self).pc == old(self).pc + code_len(tree_of(*ast)),
        decreases *ast, 0nat,
    {
        if let AST::Star(e) = ast {
            let ghost start = self.insts@;
            let l1 = self.pc;
            self.inc_pc()?;
            let l2 = self.pc;
            self.insts.push(Instruction::Split(l2, 0));
            self.gen_expr(e)?;
            proof { lemma_code_len(tree_of(**e), l2 as nat); }
            self.inc_pc()?;
            self.insts.push(Instruction::Jump(l1));
            let l3 = self.pc;
            self.insts.set(l1, Instruction::Split(l2, l3));
            assert(self.insts@ =~= start + code_of(tree_of(*ast), l1 as nat));
            Ok(())
        } else {
            Err(CodeGenError::FailStar)
        }
    }

    /// Emits `split L1, L2; L1: e; L2:`.
    fn gen_question(&mut self, ast: &AST) -> (r: Result<(), CodeGenError>)
        requires
            old(self).wf(),
            ast is Question,
        ensures
            r is Ok <==> old(self).pc + code_len(tree_of(*ast)) <= usize::MAX,
            r is Err ==> r == Err::<(), CodeGenError>(CodeGenError::PCOverFlow),
            r is Ok ==> final(self).wf() && final(self).insts@ == old(self).insts@ + code_of(
                tree_of(*ast),
                old(self).pc as nat,
            ),
            r is Ok ==> final(self).pc == old(self).pc + code_len(tree_of(*ast)),
        decreases *ast, 0nat,
    {
        if let AST::Question(e) = ast {
            let ghost start = self.insts@;
            let split_addr = self.pc;
            self.inc_pc()?;
            let l1 = self.pc;
            self.insts.push(Instruction::Split(l1, 0));
            self.gen_expr(e)?;
            proof { lemma_code_len(tree_of(**e), l1 as nat); }
            let l2 = self.pc;
            self.insts.set(split_addr, Instruction::Split(l1, l2));
            assert(self.insts@ =~= start + code_of(tree_of(*ast), split_addr as nat));
            Ok(())
        } else {
            Err(CodeGenError::FailQuestion)
        }
    }

    fn gen_seq(&mut self, exprs: &Vec<AST>) -> (r: Result<(), CodeGenError>)
        requires
            old(self).wf(),
        ensures
            r is Ok <==> old(self).pc + list_len(trees_of(exprs@)) <= usize::MAX,
            r is Err ==> r == Err::<(), CodeGenError>(CodeGenError::PCOverFlow),
            r is Ok ==> final(self).wf() && final(self).insts@ == old(self).insts@ + list_code(
                trees_of(exprs@),
                old(self).pc as nat,
            ),
            r is Ok ==> final(self).pc == old(self).pc + list_len(trees_of(exprs@)),
        decreases *exprs, 0nat,
    {
        let ghost s = self.pc as nat;
        let ghost start = self.insts@;
        let ghost ts = trees_of(exprs@);
        proof {
            lemma_trees_of(exprs@);
        }
        let mut i: usize = 0;
        assert(ts.subrange(0, 0) =~= Seq::<Tree>::empty());
        while i < exprs.len()
            invariant
                0 <= i <= exprs@.len(),
                ts == trees_of(exprs@),
                ts.len() == exprs@.len(),
                forall|j: int| 0 <= j < exprs@.len() ==> ts[j] == tree_of(#[trigger] exprs@[j]),
                self.wf(),
                s == old(self).pc,
                self.pc == s + list_len(ts.subrange(0, i as int)),
                self.insts@ == start + list_code(ts.subrange(0, i as int), s),
            decreases exprs@.len() - i,
        {
            let ghost pre = ts.subrange(0, i as int);
            let ghost next = ts.subrange(0, i + 1);
            assert(next.drop_last() =~= pre);
            assert(next.last() == tree_of(exprs@[i as int]));
            assert(decreases_to!(*exprs => exprs@[i as int]));
            proof { lemma_list_len_prefix(ts, i as int); }
            if i + 1 == exprs.len() {
                assert(next =~= ts);
            } else {
                proof { lemma_list_len_prefix(ts, i + 1); }
                assert(ts.subrange(0, i + 1 as int) =~= next);
            }
            let ghost pc_before = self.pc;
            let res = self.gen_expr(&exprs[i]);
            if res.is_err() {
                assert(pc_before + code_len(ts[i as int]) > usize::MAX);
                assert(s + list_len(ts) > usize::MAX);
                return res;
            }
            assert(self.insts@ =~= start + list_code(next, s));
            i = i + 1;
        }
        assert(ts.subrange(0, i as int) =~= ts);
        Ok(())
    }

    fn gen_code(&mut self, ast: &AST) -> (r: Result<(), CodeGenError>)
        requires
            old(self).wf(),
        ensures
            r is Ok <==> old(self).pc + code_len(tree_of(*ast)) + 1 <= usize::MAX,
            r is Err ==> r == Err::<(), CodeGenError>(CodeGenError::PCOverFlow),
            r is Ok ==> final(self).wf() && final(self).insts@ == old(self).insts@ + code_of(
                tree_of(*ast),
                old(self).pc as nat,
            ) + seq![Instruction::Match],
    {
        self.gen_expr(ast)?;
        self.inc_pc()?;
        self.insts.push(Instruction::Match);
        Ok(())
    }
}

/// The program for a tree: its code from address 0 followed by `Match`.
pub open spec fn program_of(ast: Tree) -> Seq<Instruction> {
    code_of(ast, 0) + seq![Instruction::Match]
}

/// Compiles a syntax tree into a program. Fails with `PCOverFlow` exactly when
/// the program's addresses would not fit the counter.
pub fn get_code(ast: &AST) -> (r: Result<Vec<Instruction>, CodeGenError>)
    ensures
        r is Ok <==> code_len(tree_of(*ast)) + 1 <= usize::MAX,
        r is Err ==> r == Err::<Vec<Instruction>, CodeGenError>(CodeGenError::PCOverFlow),
        r is Ok ==> r->Ok_0@ == program_of(tree_of(*ast)),
{
    let mut generator = Generator { pc: 0, insts: Vec::new() };
    generator.gen_code(ast)?;
    assert(generator.insts@ =~= program_of(tree_of(*ast)));
    Ok(generator.insts)
}

} // verus!
