use vstd::prelude::*;

use crate::codegen::{
    code_len, code_of, get_code, lemma_program_well_formed, list_code, list_len, program_of,
    CodeGenError,
};
use crate::evaluator::{
    accepts, eval, lemma_well_formed_stays_inside, reaches_within, EvalError,
};
use crate::parser::{
    is_special, parse_chars, parse_expr, parse_factor, parse_seq, parse_spec, tree_of, ParseError, Tree, AST,
};

verus! {


/// One instruction of the matching machine; its index in a program is its address.
#[derive(Debug, Clone, Copy, PartialEq, Eq, Structural)]
pub enum Instruction {
    Char(char),
    Match,
    Jump(usize),
    Split(usize, usize),
}

/// Why a match could not be decided: the stage that failed and its error.
#[derive(Debug, Clone, Copy, PartialEq, Eq, Structural)]
pub enum MatchError {
    Parse(ParseError),
    CodeGen(CodeGenError),
    Eval(EvalError),
}

/// What matching `pattern` against `line` gives.
pub open spec fn match_outcome(pattern: Seq<char>, line: Seq<char>, is_depth: bool) -> Result<
    bool,
    MatchError,
> {
    match parse_spec(pattern) {
        Err(e) => Err(MatchError::Parse(e)),
        Ok(t) => if code_len(t) + 1 > usize::MAX {
            Err(MatchError::CodeGen(CodeGenError::PCOverFlow))
        } else if is_depth && program_of(t).len() * (line.len() + 1) > usize::MAX {
            Err(MatchError::Eval(EvalError::SPOverFlow))
        } else {
            Ok(accepts(program_of(t), line))
        },
    }
}

/// Relies on `str::chars` (collected into a `Vec`): the characters of the text, in order.
#[verifier::external_body]
fn chars_of(s: &str) -> (r: Vec<char>)
    ensures
        r@ == s@,
{
    s.chars().collect()
}

/// Parses a pattern.
pub fn parse(expr: &str) -> (r: Result<AST, ParseError>)
    ensures
        match r {
            Ok(a) => parse_spec(expr@) == Ok::<_, ParseError>(tree_of(a)),
            Err(e) => parse_spec(expr@) == Err::<Tree, _>(e),
        },
{
    let pattern = chars_of(expr);
    parse_chars(&pattern)
}

/// Matches the whole of `line` against the pattern `expr`; with `is_depth` by
/// backtracking, otherwise by parallel-state simulation.
pub fn do_matching(expr: &str, line: &str, is_depth: bool) -> (r: Result<bool, MatchError>)
    ensures
        r == match_outcome(expr@, line@, is_depth),
{
    let ast = match parse(expr) {
        Ok(a) => a,
        Err(e) => return Err(MatchError::Parse(e)),
    };
    let code = match get_code(&ast) {
        Ok(c) => c,
        Err(e) => return Err(MatchError::CodeGen(e)),
    };
    proof {
        lemma_program_well_formed(tree_of(ast));
        let prog = program_of(tree_of(ast));
        assert forall|f: nat| !#[trigger] reaches_within(prog, line@, 0, 0, f, true) by {
            lemma_well_formed_stays_inside(prog, line@, 0, 0, f);
        }
    }
    let chars = chars_of(line);
    match eval(code.as_slice(), chars.as_slice(), is_depth) {
        Ok(b) => Ok(b),
        Err(e) => Err(MatchError::Eval(e)),
    }
}

// ---- laws ------------------------------------------------------------------

/// A pattern with no operator and no escape: each character stands for itself.
pub open spec fn is_literal(p: Seq<char>) -> bool {
    forall|i: int| 0 <= i < p.len() ==> !is_special(#[trigger] p[i])
}

/// `ts` holds one `Char` tree for each character of `p`, in order.
pub open spec fn spells(ts: Seq<Tree>, p: Seq<char>) -> bool {
    &&& ts.len() == p.len()
    &&& forall|i: int| 0 <= i < p.len() ==> #[trigger] ts[i] == Tree::Char(p[i])
}

/// `c` holds one `Char` instruction for each character of `p`, in order.
pub open spec fn spells_code(c: Seq<Instruction>, p: Seq<char>) -> bool {
    &&& c.len() == p.len()
    &&& forall|i: int| 0 <= i < p.len() ==> #[trigger] c[i] == Instruction::Char(p[i])
}

proof fn lemma_cons_tree(c: char, rest: Seq<Tree>)
    ensures
        (seq![Tree::Char(c)] + rest).len() == rest.len() + 1,
        (seq![Tree::Char(c)] + rest)[0] == Tree::Char(c),
        forall|i: int|
            0 <= i < rest.len() ==> (seq![Tree::Char(c)] + rest)[i + 1] == #[trigger] rest[i],
{
}

proof fn lemma_snoc_inst(pre: Seq<Instruction>, c: char)
    ensures
        (pre + seq![Instruction::Char(c)]).len() == pre.len() + 1,
        (pre + seq![Instruction::Char(c)])[pre.len() as int] == Instruction::Char(c),
        forall|i: int|
            0 <= i < pre.len() ==> (pre + seq![Instruction::Char(c)])[i] == #[trigger] pre[i],
{
}

proof fn lemma_char_code(c: char, s: nat)
    ensures
        code_of(Tree::Char(c), s) == seq![Instruction::Char(c)],
        code_len(Tree::Char(c)) == 1,
{
}

proof fn lemma_literal_factor(s: Seq<char>, i: int, c: char)
    requires
        0 <= i < s.len(),
        s[i] == c,
        !is_special(c),
        i + 1 < s.len() ==> !is_special(s[i + 1]),
    ensures
        parse_factor(s, i) == Ok::<(Tree, int), ParseError>((Tree::Char(c), i + 1)),
{
}

proof fn lemma_step_char(prog: Seq<Instruction>, line: Seq<char>, k: int, c: char, f: nat)
    requires
        0 <= k < prog.len(),
        prog[k] == Instruction::Char(c),
        0 <= k < line.len(),
        line[k] == c,
        reaches_within(prog, line, k + 1, k + 1, f, false),
    ensures
        reaches_within(prog, line, k, k, f + 1, false),
{
}

proof fn lemma_parse_literal_seq(p: Seq<char>, i: int)
    requires
        is_literal(p),
        0 <= i <= p.len(),
    ensures
        parse_seq(p, i) is Ok,
        parse_seq(p, i)->Ok_0.1 == p.len(),
        spells(parse_seq(p, i)->Ok_0.0, p.subrange(i, p.len() as int)),
    decreases p.len() - i,
{
    if i < p.len() {
        assert(!is_special(p[i]));
        if i + 1 < p.len() {
            assert(!is_special(p[i + 1]));
        }
        lemma_parse_literal_seq(p, i + 1);
        lemma_literal_factor(p, i, p[i]);
        let rest = parse_seq(p, i + 1)->Ok_0.0;
        lemma_cons_tree(p[i], rest);
        let ts = parse_seq(p, i)->Ok_0.0;
        assert(ts == seq![Tree::Char(p[i])] + rest);
        let q = p.subrange(i, p.len() as int);
        assert forall|k: int| 0 <= k < q.len() implies #[trigger] ts[k] == Tree::Char(q[k]) by {
            if k > 0 {
                assert(rest[k - 1] == Tree::Char(p.subrange(i + 1, p.len() as int)[k - 1]));
            }
        }
    }
}

proof fn lemma_literal_list_code(ts: Seq<Tree>, q: Seq<char>, s: nat)
    requires
        spells(ts, q),
    ensures
        spells_code(list_code(ts, s), q),
        list_len(ts) == q.len(),
    decreases q.len(),
{
    if q.len() > 0 {
        let d = q.drop_last();
        let td = ts.drop_last();
        assert(spells(td, d)) by {
            assert forall|i: int| 0 <= i < d.len() implies #[trigger] td[i] == Tree::Char(d[i]) by {
                assert(ts[i] == Tree::Char(q[i]));
            }
        }
        lemma_literal_list_code(td, d, s);
        assert(ts.last() == Tree::Char(q.last()));
        lemma_char_code(q.last(), s + list_len(td));
        let pre = list_code(td, s);
        lemma_snoc_inst(pre, q.last());
        assert(list_code(ts, s) == pre + seq![Instruction::Char(q.last())]);
        assert forall|i: int| 0 <= i < q.len() implies #[trigger] list_code(ts, s)[i]
            == Instruction::Char(q[i]) by {
            if i < d.len() {
                assert(pre[i] == Instruction::Char(d[i]));
            }
        }
    }
}

proof fn lemma_literal_run(prog: Seq<Instruction>, p: Seq<char>, line: Seq<char>, k: int, f: nat)
    requires
        prog.len() == p.len() + 1,
        spells_code(prog.subrange(0, p.len() as int), p),
        prog[p.len() as int] == Instruction::Match,
        0 <= k <= p.len(),
        k <= line.len(),
    ensures
        reaches_within(prog, line, k, k, f, false) ==> (line.len() == p.len() && line.subrange(
            k,
            p.len() as int,
        ) == p.subrange(k, p.len() as int)),
    decreases f,
{
    if f > 0 && k < p.len() {
        assert(prog.subrange(0, p.len() as int)[k] == Instruction::Char(p[k]));
        assert(prog[k] == Instruction::Char(p[k]));
        if reaches_within(prog, line, k, k, f, false) {
            lemma_literal_run(prog, p, line, k + 1, (f - 1) as nat);
            assert(line.subrange(k, p.len() as int) =~= seq![line[k]] + line.subrange(
                k + 1,
                p.len() as int,
            ));
            assert(p.subrange(k, p.len() as int) =~= seq![p[k]] + p.subrange(k + 1, p.len() as int));
        }
    } else if k == p.len() {
        assert(line.subrange(k, p.len() as int) =~= p.subrange(k, p.len() as int));
    }
}

proof fn lemma_literal_accept(prog: Seq<Instruction>, p: Seq<char>, line: Seq<char>, k: int)
    requires
        prog.len() == p.len() + 1,
        spells_code(prog.subrange(0, p.len() as int), p),
        prog[p.len() as int] == Instruction::Match,
        0 <= k <= p.len(),
        line.len() == p.len(),
        line.subrange(k, p.len() as int) == p.subrange(k, p.len() as int),
    ensures
        reaches_within(prog, line, k, k, (p.len() - k + 1) as nat, false),
    decreases p.len() - k,
{
    if k < p.len() {
        assert(prog.subrange(0, p.len() as int)[k] == Instruction::Char(p[k]));
        assert(line.subrange(k, p.len() as int)[0] == p.subrange(k, p.len() as int)[0]);
        assert(line.subrange(k, p.len() as int)[0] == line[k]);
        assert(p.subrange(k, p.len() as int)[0] == p[k]);
        assert(line[k] == p[k]);
        assert(line.subrange(k + 1, p.len() as int) =~= line.subrange(k, p.len() as int).subrange(
            1,
            p.len() - k,
        ));
        assert(p.subrange(k + 1, p.len() as int) =~= p.subrange(k, p.len() as int).subrange(
            1,
            p.len() - k,
        ));
        lemma_literal_accept(prog, p, line, k + 1);
        lemma_step_char(prog, line, k, p[k], (p.len() - k) as nat);
    }
}

/// A pattern of plain characters matches exactly the line equal to it:
/// shorter, longer and differing lines are rejected.
pub proof fn lemma_literal_pattern(p: Seq<char>, line: Seq<char>, is_depth: bool)
    requires
        is_literal(p),
        p.len() + 1 <= usize::MAX,
        is_depth ==> (p.len() + 1) * (line.len() + 1) <= usize::MAX,
    ensures
        match_outcome(p, line, is_depth) == Ok::<bool, MatchError>(line == p),
{
    lemma_parse_literal_seq(p, 0);
    assert(p.subrange(0, p.len() as int) =~= p);
    let ts = parse_seq(p, 0)->Ok_0.0;
    let t = Tree::Concat(ts);
    assert(parse_expr(p, 0) == Ok::<(Tree, int), ParseError>((t, p.len() as int)));
    assert(parse_spec(p) == Ok::<Tree, ParseError>(t));
    lemma_literal_list_code(ts, p, 0);
    let prog = program_of(t);
    let code = list_code(ts, 0);
    assert(code_of(t, 0) == code);
    assert(prog.subrange(0, p.len() as int) =~= code);
    assert(prog[p.len() as int] == Instruction::Match);
    if line == p {
        assert(line.subrange(0, p.len() as int) =~= p.subrange(0, p.len() as int));
        lemma_literal_accept(prog, p, line, 0);
    }
    if accepts(prog, line) {
        let f = choose|f: nat| #[trigger] reaches_within(prog, line, 0, 0, f, false);
        lemma_literal_run(prog, p, line, 0, f);
        assert(line =~= line.subrange(0, p.len() as int));
    }
}

/// Matching a pattern by either strategy gives the same outcome whenever the
/// backtracking search's state table fits.
pub proof fn lemma_match_strategies_agree(pattern: Seq<char>, line: Seq<char>)
    requires
        parse_spec(pattern) is Ok ==> program_of(parse_spec(pattern)->Ok_0).len() * (line.len() + 1)
            <= usize::MAX,
    ensures
        match_outcome(pattern, line, true) == match_outcome(pattern, line, false),
{
}

} // verus!
