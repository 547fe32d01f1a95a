use vstd::prelude::*;

verus! {

broadcast use vstd::std_specs::vec::group_vec_axioms;

/// Syntax tree of a pattern. A sequence of factors is `Concat`.
#[allow(clippy::upper_case_acronyms)]
#[derive(Debug)]
pub enum AST {
    Char(char),
    Or(Box<AST>, Box<AST>),
    Concat(Vec<AST>),
    Star(Box<AST>),
    Plus(Box<AST>),
    Question(Box<AST>),
}

/// The mathematical form of a syntax tree.
pub enum Tree {
    Char(char),
    Or(Box<Tree>, Box<Tree>),
    Concat(Seq<Tree>),
    Star(Box<Tree>),
    Plus(Box<Tree>),
    Question(Box<Tree>),
}

pub open spec fn tree_of(a: AST) -> Tree
    decreases a,
{
    match a {
        AST::Char(c) => Tree::Char(c),
        AST::Or(e1, e2) => Tree::Or(Box::new(tree_of(*e1)), Box::new(tree_of(*e2))),
        AST::Concat(es) => Tree::Concat(trees_of(es@)),
        AST::Star(e) => Tree::Star(Box::new(tree_of(*e))),
        AST::Plus(e) => Tree::Plus(Box::new(tree_of(*e))),
        AST::Question(e) => Tree::Question(Box::new(tree_of(*e))),
    }
}

pub open spec fn trees_of(es: Seq<AST>) -> Seq<Tree>
    decreases es,
{
    if es.len() == 0 {
        seq![]
    } else {
        trees_of(es.drop_last()).push(tree_of(es.last()))
    }
}

/// One step of `tree_of`, stated for a node handed in whole.
proof fn lemma_tree_of_unfold(a: AST)
    ensures
        tree_of(a) == match a {
            AST::Char(c) => Tree::Char(c),
            AST::Or(e1, e2) => Tree::Or(Box::new(tree_of(*e1)), Box::new(tree_of(*e2))),
            AST::Concat(es) => Tree::Concat(trees_of(es@)),
            AST::Star(e) => Tree::Star(Box::new(tree_of(*e))),
            AST::Plus(e) => Tree::Plus(Box::new(tree_of(*e))),
            AST::Question(e) => Tree::Question(Box::new(tree_of(*e))),
        },
{
}

pub proof fn lemma_trees_of(es: Seq<AST>)
    ensures
        trees_of(es).len() == es.len(),
        forall|j: int| 0 <= j < es.len() ==> trees_of(es)[j] == tree_of(#[trigger] es[j]),
    decreases es.len(),
{
    if es.len() > 0 {
        let d = es.drop_last();
        lemma_trees_of(d);
        assert forall|j: int| 0 <= j < es.len() implies trees_of(es)[j] == tree_of(#[trigger] es[j]) by {
            if j < es.len() - 1 {
                assert(es[j] == d[j]);
            }
        }
    }
}

/// Errors of parsing.
#[derive(Debug, Clone, Copy, PartialEq, Eq, Structural)]
pub enum ParseError {
    /// A `(` without its `)`, or a `)` without its `(`.
    UnbalancedParen,
    /// `*`, `+` or `?` with nothing before it to repeat.
    NoOperand,
    /// `\` at the end, or before a character that is not an operator or `\`.
    InvalidEscape,
    /// An empty side of `|`, or `()`.
    EmptyAlternative,
}

/// The characters with a meaning of their own; `\` before one makes it literal.
pub open spec fn is_special(c: char) -> bool {
    c == '(' || c == ')' || c == '|' || c == '*' || c == '+' || c == '?' || c == '\\'
}

pub open spec fn is_repeat(c: char) -> bool {
    c == '*' || c == '+' || c == '?'
}

/// primary := `(` expr `)` | `\` special | literal
pub open spec fn parse_primary(s: Seq<char>, i: int) -> Result<(Tree, int), ParseError>
    decreases s.len() - i, 0nat,
{
    if i < 0 || i >= s.len() {
        Err(ParseError::NoOperand)
    } else if s[i] == '(' {
        match parse_expr(s, i + 1) {
            Err(e) => Err(e),
            Ok((t, j)) => if j < s.len() && s[j] == ')' {
                if t == Tree::Concat(seq![]) {
                    Err(ParseError::EmptyAlternative)
                } else {
                    Ok((t, j + 1))
                }
            } else {
                Err(ParseError::UnbalancedParen)
            },
        }
    } else if s[i] == '\\' {
        if i + 1 < s.len() && is_special(s[i + 1]) {
            Ok((Tree::Char(s[i + 1]), i + 2))
        } else {
            Err(ParseError::InvalidEscape)
        }
    } else if is_repeat(s[i]) {
        Err(ParseError::NoOperand)
    } else {
        Ok((Tree::Char(s[i]), i + 1))
    }
}

/// factor := primary (`*` | `+` | `?`)?
pub open spec fn parse_factor(s: Seq<char>, i: int) -> Result<(Tree, int), ParseError>
    decreases s.len() - i, 1nat,
{
    match parse_primary(s, i) {
        Err(e) => Err(e),
        Ok((t, j)) => if 0 <= j < s.len() && s[j] == '*' {
            Ok((Tree::Star(Box::new(t)), j + 1))
        } else if 0 <= j < s.len() && s[j] == '+' {
            Ok((Tree::Plus(Box::new(t)), j + 1))
        } else if 0 <= j < s.len() && s[j] == '?' {
            Ok((Tree::Question(Box::new(t)), j + 1))
        } else {
            Ok((t, j))
        },
    }
}

/// sequence := factor*, ending at the end, at `|` or at `)`
pub open spec fn parse_seq(s: Seq<char>, i: int) -> Result<(Seq<Tree>, int), ParseError>
    decreases s.len() - i, 2nat,
{
    if i < 0 || i >= s.len() || s[i] == '|' || s[i] == ')' {
        Ok((seq![], i))
    } else {
        match parse_factor(s, i) {
            Err(e) => Err(e),
            Ok((t, j)) => if j <= i || j > s.len() {
                Err(ParseError::NoOperand)
            } else {
                match parse_seq(s, j) {
                    Err(e) => Err(e),
                    Ok((ts, k)) => Ok((seq![t] + ts, k)),
                }
            },
        }
    }
}

/// expr := sequence (`|` expr)?, each side not empty
pub open spec fn parse_expr(s: Seq<char>, i: int) -> Result<(Tree, int), ParseError>
    decreases s.len() - i, 3nat,
{
    match parse_seq(s, i) {
        Err(e) => Err(e),
        Ok((ts, j)) => if i <= j < s.len() && s[j] == '|' {
            if ts.len() == 0 {
                Err(ParseError::EmptyAlternative)
            } else {
                match parse_expr(s, j + 1) {
                    Err(e) => Err(e),
                    Ok((u, k)) => if u == Tree::Concat(seq![]) {
                        Err(ParseError::EmptyAlternative)
                    } else {
                        Ok((Tree::Or(Box::new(Tree::Concat(ts)), Box::new(u)), k))
                    },
                }
            }
        } else {
            Ok((Tree::Concat(ts), j))
        },
    }
}

/// The tree of a whole pattern: an expr that takes every character.
pub open spec fn parse_spec(s: Seq<char>) -> Result<Tree, ParseError> {
    match parse_expr(s, 0) {
        Err(e) => Err(e),
        Ok((t, j)) => if j < s.len() {
            Err(ParseError::UnbalancedParen)
        } else {
            Ok(t)
        },
    }
}

pub open spec fn lift(r: Result<(AST, usize), ParseError>) -> Result<(Tree, int), ParseError> {
    match r {
        Ok((a, j)) => Ok((tree_of(a), j as int)),
        Err(e) => Err(e),
    }
}

fn is_special_char(c: char) -> (r: bool)
    ensures
        r == is_special(c),
{
    c == '(' || c == ')' || c == '|' || c == '*' || c == '+' || c == '?' || c == '\\'
}

fn is_empty_concat(a: &AST) -> (r: bool)
    ensures
        r == (tree_of(*a) == Tree::Concat(seq![])),
{
    match a {
        AST::Concat(es) => {
            proof {
                lemma_trees_of(es@);
            }
            es.len() == 0
        },
        _ => false,
    }
}

fn parse_primary_at(s: &Vec<char>, i: usize) -> (r: Result<(AST, usize), ParseError>)
    requires
        i < s@.len(),
    ensures
        lift(r) == parse_primary(s@, i as int),
        r is Ok ==> i < r->Ok_0.1 <= s@.len(),
    decreases s@.len() - i, 0nat,
{
    let n = s.len();
    let c = s[i];
    if c == '(' {
        match parse_expr_at(s, i + 1) {
            Err(e) => {
                Err(e)
            },
            Ok((t, j)) => {
                if j < s.len() && s[j] == ')' {
                    if is_empty_concat(&t) {
                        Err(ParseError::EmptyAlternative)
                    } else {
                        Ok((t, j + 1))
                    }
                } else {
                    Err(ParseError::UnbalancedParen)
                }
            },
        }
    } else if c == '\\' {
        if i + 1 < n && is_special_char(s[i + 1]) {
            proof {
                lemma_tree_of_unfold(AST::Char(s@[i + 1]));
            }
            Ok((AST::Char(s[i + 1]), i + 2))
        } else {
            Err(ParseError::InvalidEscape)
        }
    } else if c == '*' || c == '+' || c == '?' {
        Err(ParseError::NoOperand)
    } else {
        proof {
            lemma_tree_of_unfold(AST::Char(c));
        }
        Ok((AST::Char(c), i + 1))
    }
}

fn parse_factor_at(s: &Vec<char>, i: usize) -> (r: Result<(AST, usize), ParseError>)
    requires
        i < s@.len(),
    ensures
        lift(r) == parse_factor(s@, i as int),
        r is Ok ==> i < r->Ok_0.1 <= s@.len(),
    decreases s@.len() - i, 1nat,
{
    let (t, j) = parse_primary_at(s, i)?;
    proof {
        lemma_tree_of_unfold(AST::Star(Box::new(t)));
        lemma_tree_of_unfold(AST::Plus(Box::new(t)));
        lemma_tree_of_unfold(AST::Question(Box::new(t)));
    }
    if j < s.len() && s[j] == '*' {
        Ok((AST::Star(Box::new(t)), j + 1))
    } else if j < s.len() && s[j] == '+' {
        Ok((AST::Plus(Box::new(t)), j + 1))
    } else if j < s.len() && s[j] == '?' {
        Ok((AST::Question(Box::new(t)), j + 1))
    } else {
        Ok((t, j))
    }
}

fn parse_seq_at(s: &Vec<char>, i: usize) -> (r: Result<(Vec<AST>, usize), ParseError>)
    requires
        i <= s@.len(),
    ensures
        r is Ok ==> parse_seq(s@, i as int) == Ok::<(Seq<Tree>, int), ParseError>(
            (trees_of(r->Ok_0.0@), r->Ok_0.1 as int),
        ),
        r is Ok ==> i <= r->Ok_0.1 <= s@.len(),
        r is Err ==> parse_seq(s@, i as int) == Err::<(Seq<Tree>, int), ParseError>(r->Err_0),
    decreases s@.len() - i, 2nat,
{
    let mut acc: Vec<AST> = Vec::new();
    let mut k: usize = i;
    while k < s.len() && s[k] != '|' && s[k] != ')'
        invariant
            i <= k <= s@.len(),
            parse_seq(s@, k as int) is Ok ==> parse_seq(s@, i as int) == Ok::<
                (Seq<Tree>, int),
                ParseError,
            >((trees_of(acc@) + parse_seq(s@, k as int)->Ok_0.0, parse_seq(s@, k as int)->Ok_0.1)),
            parse_seq(s@, k as int) is Err ==> parse_seq(s@, i as int) == parse_seq(s@, k as int),
        decreases s@.len() - k,
    {
        let ghost before = acc@;
        let (t, j) = match parse_factor_at(s, k) {
            Ok(x) => x,
            Err(e) => {
                return Err(e);
            },
        };
        proof {
            lemma_trees_of(before);
        }
        acc.push(t);
        proof {
            assert(acc@.drop_last() =~= before);
            let rest = parse_seq(s@, j as int);
            if rest is Ok {
                assert(trees_of(acc@) + rest->Ok_0.0 =~= trees_of(before) + (seq![tree_of(t)]
                    + rest->Ok_0.0));
            }
        }
        k = j;
    }
    proof {
        assert(trees_of(acc@) + seq![] =~= trees_of(acc@));
    }
    Ok((acc, k))
}

fn parse_expr_at(s: &Vec<char>, i: usize) -> (r: Result<(AST, usize), ParseError>)
    requires
        i <= s@.len(),
    ensures
        lift(r) == parse_expr(s@, i as int),
        r is Ok ==> i <= r->Ok_0.1 <= s@.len(),
    decreases s@.len() - i, 3nat,
{
    let (ts, j) = match parse_seq_at(s, i) {
        Ok(x) => x,
        Err(e) => {
            return Err(e);
        },
    };
    if j < s.len() && s[j] == '|' {
        if ts.len() == 0 {
            proof {
                lemma_trees_of(ts@);
            }
            Err(ParseError::EmptyAlternative)
        } else {
            proof {
                lemma_trees_of(ts@);
            }
            let (u, k) = parse_expr_at(s, j + 1)?;
            if is_empty_concat(&u) {
                Err(ParseError::EmptyAlternative)
            } else {
                let left = AST::Concat(ts);
                proof {
                    lemma_tree_of_unfold(left);
                    lemma_tree_of_unfold(AST::Or(Box::new(left), Box::new(u)));
                }
                Ok((AST::Or(Box::new(left), Box::new(u)), k))
            }
        }
    } else {
        proof {
            lemma_tree_of_unfold(AST::Concat(ts));
        }
        Ok((AST::Concat(ts), j))
    }
}

/// Parses a pattern given as characters.
pub fn parse_chars(s: &Vec<char>) -> (r: Result<AST, ParseError>)
    ensures
        match r {
            Ok(a) => parse_spec(s@) == Ok::<Tree, ParseError>(tree_of(a)),
            Err(e) => parse_spec(s@) == Err::<Tree, ParseError>(e),
        },
{
    let (t, j) = parse_expr_at(s, 0)?;
    if j < s.len() {
        Err(ParseError::UnbalancedParen)
    } else {
        Ok(t)
    }
}

} // verus!
