//! The regular-expression abstract syntax tree and the pattern parser.
//!
//! Surface syntax: a pattern is an alternation of terms separated by `|`; a
//! term is a sequence of factors; a factor is a base optionally followed by
//! `*` (zero-or-more repetition); a base is a parenthesized pattern or a
//! single literal character. Every character other than `(`, `)`, `|` and `*`
//! is a literal.

use vstd::prelude::*;

verus! {

/// One node of a regular-expression abstract syntax tree.
#[derive(Debug, PartialEq, Eq)]
pub enum RegexNode {
    /// A single literal character.
    Terminal(char),
    /// A concatenation of sub-expressions, in order; empty means the empty string.
    Sequence(Vec<RegexNode>),
    /// A choice between two sub-expressions.
    Alternation(Box<RegexNode>, Box<RegexNode>),
    /// Zero or more repetitions of a sub-expression.
    Repetition(Box<RegexNode>),
}

/// The mathematical shape of a `RegexNode`, with sequences as `Seq`.
pub enum RegexModel {
    Terminal(char),
    Sequence(Seq<RegexModel>),
    Alternation(Box<RegexModel>, Box<RegexModel>),
    Repetition(Box<RegexModel>),
}

/// The model of an abstract syntax tree.
pub open spec fn regex_model(r: RegexNode) -> RegexModel
    decreases r,
{
    match r {
        RegexNode::Terminal(c) => RegexModel::Terminal(c),
        RegexNode::Sequence(v) => RegexModel::Sequence(regex_model_seq(v@)),
        RegexNode::Alternation(a, b) => RegexModel::Alternation(
            Box::new(regex_model(*a)),
            Box::new(regex_model(*b)),
        ),
        RegexNode::Repetition(a) => RegexModel::Repetition(Box::new(regex_model(*a))),
    }
}

/// The models of a list of abstract syntax trees, in order.
pub open spec fn regex_model_seq(s: Seq<RegexNode>) -> Seq<RegexModel>
    decreases s,
{
    if s.len() == 0 {
        Seq::empty()
    } else {
        seq![regex_model(s[0])] + regex_model_seq(s.drop_first())
    }
}

/// The model of a list is the list of the models.
pub proof fn lemma_regex_model_seq_index(s: Seq<RegexNode>)
    ensures
        regex_model_seq(s).len() == s.len(),
        forall|i: int| 0 <= i < s.len() ==> regex_model_seq(s)[i] == regex_model(#[trigger] s[i]),
    decreases s,
{
    if s.len() > 0 {
        lemma_regex_model_seq_index(s.drop_first());
        assert forall|i: int|
            0 <= i < s.len() implies regex_model_seq(s)[i] == regex_model(#[trigger] s[i]) by {
            if i > 0 {
                assert(regex_model_seq(s)[i] == regex_model_seq(s.drop_first())[i - 1]);
                assert(s.drop_first()[i - 1] == s[i]);
            }
        }
    }
}

// ------------------------------------------------------------------
// The pattern parser, stated as spec functions over the character
// sequence and mirrored by the executable recursive descent below
// ------------------------------------------------------------------

/// Parse an alternation: a term, optionally `|` and another alternation.
/// Result: the node and the position after it; an error carries the
/// offset at which parsing failed.
pub open spec fn sp_regex(s: Seq<char>, pos: int) -> Result<(RegexModel, int), int>
    decreases s.len() - pos, 3int,
{
    if pos < 0 || pos > s.len() {
        Err(pos)
    } else {
        match sp_term(s, pos) {
            Err(e) => Err(e),
            Ok((v, p)) => {
                let t1 = RegexModel::Sequence(v);
                if p < s.len() && s[p] == '|' && pos < s.len() {
                    let q = if pos < p {
                        p + 1
                    } else {
                        pos + 1
                    };
                    match sp_regex(s, q) {
                        Err(e) => Err(e),
                        Ok((r2, p2)) => Ok(
                            (RegexModel::Alternation(Box::new(t1), Box::new(r2)), p2),
                        ),
                    }
                } else {
                    Ok((t1, p))
                }
            },
        }
    }
}

/// Parse a term: factors until `)`, `|` or the end of the pattern.
pub open spec fn sp_term(s: Seq<char>, pos: int) -> Result<(Seq<RegexModel>, int), int>
    decreases s.len() - pos, 2int,
{
    if pos < 0 || pos > s.len() {
        Err(pos)
    } else if pos == s.len() || s[pos] == ')' || s[pos] == '|' {
        Ok((Seq::empty(), pos))
    } else {
        match sp_factor(s, pos) {
            Err(e) => Err(e),
            Ok((f, p)) => {
                let q = if pos < p && p <= s.len() {
                    p
                } else {
                    pos + 1
                };
                match sp_term(s, q) {
                    Err(e) => Err(e),
                    Ok((v, p2)) => Ok((seq![f] + v, p2)),
                }
            },
        }
    }
}

/// Parse a factor: a base, optionally followed by `*`.
pub open spec fn sp_factor(s: Seq<char>, pos: int) -> Result<(RegexModel, int), int>
    decreases s.len() - pos, 1int,
{
    if pos < 0 || pos >= s.len() {
        Err(pos)
    } else {
        match sp_base(s, pos) {
            Err(e) => Err(e),
            Ok((b, p)) => if p < s.len() && s[p] == '*' {
                Ok((RegexModel::Repetition(Box::new(b)), p + 1))
            } else {
                Ok((b, p))
            },
        }
    }
}

/// Parse a base: a parenthesized alternation, or one literal character.
pub open spec fn sp_base(s: Seq<char>, pos: int) -> Result<(RegexModel, int), int>
    decreases s.len() - pos, 0int,
{
    if pos < 0 || pos >= s.len() {
        Err(pos)
    } else if s[pos] == '(' {
        match sp_regex(s, pos + 1) {
            Err(e) => Err(e),
            Ok((r2, p)) => if p < s.len() && s[p] == ')' {
                Ok((r2, p + 1))
            } else {
                Err(p)
            },
        }
    } else {
        Ok((RegexModel::Terminal(s[pos]), pos + 1))
    }
}

/// Parse a whole pattern: an alternation that must consume every
/// character. The error offset is the position of an unmatched `)`, or
/// the pattern's length where a `)` is missing.
pub open spec fn sp_parse(s: Seq<char>) -> Result<RegexModel, int> {
    match sp_regex(s, 0) {
        Err(e) => Err(e),
        Ok((r, p)) => if p == s.len() {
            Ok(r)
        } else {
            Err(p)
        },
    }
}

// Within a group of mutually recursive functions Verus keeps recursive
// definitions closed; these lemmas hand the parser one unfolding each.

pub proof fn lemma_rm_terminal(c: char)
    ensures
        regex_model(RegexNode::Terminal(c)) == RegexModel::Terminal(c),
{
}

pub proof fn lemma_rm_sequence(v: Vec<RegexNode>)
    ensures
        regex_model(RegexNode::Sequence(v)) == RegexModel::Sequence(regex_model_seq(v@)),
{
}

pub proof fn lemma_rm_alternation(a: Box<RegexNode>, b: Box<RegexNode>)
    ensures
        regex_model(RegexNode::Alternation(a, b)) == RegexModel::Alternation(
            Box::new(regex_model(*a)),
            Box::new(regex_model(*b)),
        ),
{
}

pub proof fn lemma_rm_repetition(a: Box<RegexNode>)
    ensures
        regex_model(RegexNode::Repetition(a)) == RegexModel::Repetition(Box::new(regex_model(*a))),
{
}

proof fn lemma_sp_regex_unfold(s: Seq<char>, pos: int)
    requires
        0 <= pos <= s.len(),
    ensures
        sp_regex(s, pos) == (match sp_term(s, pos) {
            Err(e) => Err::<(RegexModel, int), int>(e),
            Ok((v, p)) => {
                let t1 = RegexModel::Sequence(v);
                if p < s.len() && s[p] == '|' && pos < s.len() {
                    let q = if pos < p {
                        p + 1
                    } else {
                        pos + 1
                    };
                    match sp_regex(s, q) {
                        Err(e) => Err(e),
                        Ok((r2, p2)) => Ok(
                            (RegexModel::Alternation(Box::new(t1), Box::new(r2)), p2),
                        ),
                    }
                } else {
                    Ok((t1, p))
                }
            },
        }),
{
}

proof fn lemma_sp_term_unfold(s: Seq<char>, pos: int)
    requires
        0 <= pos <= s.len(),
    ensures
        sp_term(s, pos) == (if pos == s.len() || s[pos] == ')' || s[pos] == '|' {
            Ok::<(Seq<RegexModel>, int), int>((Seq::empty(), pos))
        } else {
            match sp_factor(s, pos) {
                Err(e) => Err(e),
                Ok((f, p)) => {
                    let q = if pos < p && p <= s.len() {
                        p
                    } else {
                        pos + 1
                    };
                    match sp_term(s, q) {
                        Err(e) => Err(e),
                        Ok((v, p2)) => Ok((seq![f] + v, p2)),
                    }
                },
            }
        }),
{
}

proof fn lemma_sp_factor_unfold(s: Seq<char>, pos: int)
    requires
        0 <= pos <= s.len(),
    ensures
        sp_factor(s, pos) == (if pos >= s.len() {
            Err::<(RegexModel, int), int>(pos)
        } else {
            match sp_base(s, pos) {
                Err(e) => Err(e),
                Ok((b, p)) => if p < s.len() && s[p] == '*' {
                    Ok((RegexModel::Repetition(Box::new(b)), p + 1))
                } else {
                    Ok((b, p))
                },
            }
        }),
{
}

proof fn lemma_sp_base_unfold(s: Seq<char>, pos: int)
    requires
        0 <= pos <= s.len(),
    ensures
        sp_base(s, pos) == (if pos >= s.len() {
            Err::<(RegexModel, int), int>(pos)
        } else if s[pos] == '(' {
            match sp_regex(s, pos + 1) {
                Err(e) => Err(e),
                Ok((r2, p)) => if p < s.len() && s[p] == ')' {
                    Ok((r2, p + 1))
                } else {
                    Err(p)
                },
            }
        } else {
            Ok((RegexModel::Terminal(s[pos]), pos + 1))
        }),
{
}

/// Why a pattern was rejected.
#[derive(Debug, Clone, Copy, PartialEq, Eq)]
pub enum PatternErrorKind {
    /// A `(` has no matching `)`.
    MissingParenthesis,
    /// A `)` has no matching `(`.
    UnexpectedParenthesis,
    /// Compiling the pattern would exhaust the state-id space.
    PatternTooLarge,
}

/// A rejected pattern: the offending pattern itself, the offset at which
/// parsing failed, and what went wrong there.
#[derive(Debug, PartialEq, Eq)]
pub struct PatternSyntaxError {
    pub pattern: String,
    pub offset: usize,
    pub kind: PatternErrorKind,
}

fn p_regex(s: &Vec<char>, pos: usize) -> (r: Result<(RegexNode, usize), usize>)
    requires
        pos <= s@.len(),
    ensures
        match r {
            Ok((ast, p)) => pos <= p <= s@.len() && sp_regex(s@, pos as int) == Ok::<
                (RegexModel, int),
                int,
            >((regex_model(ast), p as int)),
            Err(off) => sp_regex(s@, pos as int) == Err::<(RegexModel, int), int>(off as int),
        },
    decreases s@.len() - pos, 3int,
{
    proof {
        lemma_sp_regex_unfold(s@, pos as int);
    }
    let (v, p) = match p_term(s, pos) {
        Ok(tp) => tp,
        Err(e) => {
            return Err(e);
        },
    };
    let t1 = RegexNode::Sequence(v);
    proof {
        lemma_rm_sequence(t1->Sequence_0);
    }
    if p < s.len() && s[p] == '|' {
        match p_regex(s, p + 1) {
            Ok((r2, p2)) => {
                let ast = RegexNode::Alternation(Box::new(t1), Box::new(r2));
                proof {
                    lemma_rm_alternation(ast->Alternation_0, ast->Alternation_1);
                }
                Ok((ast, p2))
            },
            Err(e) => Err(e),
        }
    } else {
        Ok((t1, p))
    }
}

fn p_term(s: &Vec<char>, pos: usize) -> (r: Result<(Vec<RegexNode>, usize), usize>)
    requires
        pos <= s@.len(),
    ensures
        match r {
            Ok((v, p)) => pos <= p <= s@.len() && sp_term(s@, pos as int) == Ok::<
                (Seq<RegexModel>, int),
                int,
            >((regex_model_seq(v@), p as int)),
            Err(off) => sp_term(s@, pos as int) == Err::<(Seq<RegexModel>, int), int>(off as int),
        },
    decreases s@.len() - pos, 2int,
{
    proof {
        lemma_sp_term_unfold(s@, pos as int);
    }
    if pos == s.len() || s[pos] == ')' || s[pos] == '|' {
        let v: Vec<RegexNode> = Vec::new();
        proof {
            lemma_regex_model_seq_index(v@);
            assert(regex_model_seq(v@) =~= Seq::<RegexModel>::empty());
        }
        Ok((v, pos))
    } else {
        let (f, p) = match p_factor(s, pos) {
            Ok(fp) => fp,
            Err(e) => {
                return Err(e);
            },
        };
        match p_term(s, p) {
            Ok((rest, p2)) => {
                let mut v: Vec<RegexNode> = Vec::new();
                let ghost fm = regex_model(f);
                let ghost rest0 = rest@;
                let ghost restm = regex_model_seq(rest@);
                v.push(f);
                let mut rest = rest;
                v.append(&mut rest);
                proof {
                    assert(v@ =~= seq![f] + rest0);
                    lemma_regex_model_seq_index(v@);
                    lemma_regex_model_seq_index(rest0);
                    let ghost target = seq![fm] + restm;
                    assert forall|i: int|
                        0 <= i < v@.len() implies regex_model_seq(v@)[i] == target[i] by {
                        if i > 0 {
                            assert(v@[i] == rest0[i - 1]);
                        }
                    }
                    assert(regex_model_seq(v@) =~= target);
                }
                Ok((v, p2))
            },
            Err(e) => Err(e),
        }
    }
}

fn p_factor(s: &Vec<char>, pos: usize) -> (r: Result<(RegexNode, usize), usize>)
    requires
        pos <= s@.len(),
    ensures
        match r {
            Ok((ast, p)) => pos < p <= s@.len() && sp_factor(s@, pos as int) == Ok::<
                (RegexModel, int),
                int,
            >((regex_model(ast), p as int)),
            Err(off) => sp_factor(s@, pos as int) == Err::<(RegexModel, int), int>(off as int),
        },
    decreases s@.len() - pos, 1int,
{
    proof {
        lemma_sp_factor_unfold(s@, pos as int);
    }
    match p_base(s, pos) {
        Ok((b, p)) => {
            if p < s.len() && s[p] == '*' {
                let ast = RegexNode::Repetition(Box::new(b));
                proof {
                    lemma_rm_repetition(ast->Repetition_0);
                }
                Ok((ast, p + 1))
            } else {
                Ok((b, p))
            }
        },
        Err(e) => Err(e),
    }
}

fn p_base(s: &Vec<char>, pos: usize) -> (r: Result<(RegexNode, usize), usize>)
    requires
        pos <= s@.len(),
    ensures
        match r {
            Ok((ast, p)) => pos < p <= s@.len() && sp_base(s@, pos as int) == Ok::<
                (RegexModel, int),
                int,
            >((regex_model(ast), p as int)),
            Err(off) => sp_base(s@, pos as int) == Err::<(RegexModel, int), int>(off as int),
        },
    decreases s@.len() - pos, 0int,
{
    proof {
        lemma_sp_base_unfold(s@, pos as int);
    }
    if pos >= s.len() {
        return Err(pos);
    }
    if s[pos] == '(' {
        match p_regex(s, pos + 1) {
            Ok((r2, p)) => {
                if p < s.len() && s[p] == ')' {
                    Ok((r2, p + 1))
                } else {
                    Err(p)
                }
            },
            Err(e) => Err(e),
        }
    } else {
        let c = s[pos];
        proof {
            lemma_rm_terminal(c);
        }
        Ok((RegexNode::Terminal(c), pos + 1))
    }
}

/// Parse a pattern into its abstract syntax tree, or reject it with the
/// offset of the offending character.
pub fn parse_pattern(s: &Vec<char>) -> (r: Result<RegexNode, (usize, PatternErrorKind)>)
    ensures
        match r {
            Ok(ast) => sp_parse(s@) == Ok::<RegexModel, int>(regex_model(ast)),
            Err((off, kind)) => sp_parse(s@) == Err::<RegexModel, int>(off as int) && kind == (
            if off == s@.len() {
                PatternErrorKind::MissingParenthesis
            } else {
                PatternErrorKind::UnexpectedParenthesis
            }),
        },
{
    match p_regex(s, 0) {
        Ok((ast, p)) => {
            if p == s.len() {
                Ok(ast)
            } else {
                Err((p, PatternErrorKind::UnexpectedParenthesis))
            }
        },
        Err(off) => {
            if off == s.len() {
                Err((off, PatternErrorKind::MissingParenthesis))
            } else {
                Err((off, PatternErrorKind::UnexpectedParenthesis))
            }
        },
    }
}

} // verus!
