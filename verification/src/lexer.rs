//! The lexical analyzer: registered patterns are compiled and merged into
//! one NFA, determinized on demand, and driven over the input with
//! maximal-munch matching.
//!
//! `lex` is specified against `scan_from`, the mathematical scanner over
//! the epsilon-closure simulation of the merged NFA: at each position it
//! takes the longest prefix some pattern matches, emits the token of the
//! first-registered pattern among those that match it, and continues after
//! that prefix; a zero-length match does not count (it could never advance
//! the cursor), and a position where no pattern matches a non-empty prefix
//! is an error carrying that offset.

use vstd::prelude::*;
use vstd::string::StrSliceExecFns;

use crate::dfa::{
    accept_matches, bitmap_set, determinize, dfa_lookup, dfa_wf, lookup_from, state_trans_ok, Dfa,
};
use crate::nfa::{
    count_states, eclose, frag_ok, frag_models, lemma_eclose_empty, lemma_merged_wf,
    lemma_step_empty, lemma_thompson_ok, lemma_winner_empty, merged_shape, nfa_accepts, nfa_wf,
    run_set, step_set, thompson, winner, winner_from, NFABuilder, NfaFragment, NfaModel,
};
use crate::regex::{
    parse_pattern, regex_model, sp_parse, PatternErrorKind, PatternSyntaxError, RegexNode,
};

verus! {

/// Scanning failed: no registered pattern matches a non-empty prefix of
/// the remaining input, which starts at `offset`.
#[derive(Debug, Clone, Copy, PartialEq, Eq, Structural)]
pub struct UnrecognizedInputError {
    pub offset: usize,
}

// ------------------------------------------------------------------
// The scanner's mathematical specification
// ------------------------------------------------------------------

/// The simulation set after consuming `s[pos..j]` from the start state.
pub open spec fn seg_set(m: NfaModel, s: Seq<char>, pos: int, j: int) -> Set<int> {
    run_set(m, s.subrange(pos, j))
}

/// The winning pattern for the segment `s[pos..j]`, if any.
pub open spec fn seg_winner(m: NfaModel, s: Seq<char>, pos: int, j: int) -> Option<int> {
    winner(m, seg_set(m, s, pos, j))
}

/// The end of the longest non-empty match starting at `pos` with its end
/// in `(pos, j]`, if any: maximal munch.
pub open spec fn best_end(m: NfaModel, s: Seq<char>, pos: int, j: int) -> Option<int>
    decreases j - pos,
{
    if j <= pos {
        Option::None
    } else if seg_winner(m, s, pos, j) is Some {
        Option::Some(j)
    } else {
        best_end(m, s, pos, j - 1)
    }
}

/// The token sequence maximal-munch scanning emits from position `pos`
/// on, or the offset at which it gets stuck.
pub open spec fn scan_from<T>(m: NfaModel, toks: Seq<T>, s: Seq<char>, pos: int) -> Result<
    Seq<T>,
    int,
>
    decreases s.len() - pos,
{
    if pos < 0 || pos >= s.len() {
        Ok(Seq::empty())
    } else {
        match best_end(m, s, pos, s.len() as int) {
            Option::None => Err(pos),
            Option::Some(j) => match seg_winner(m, s, pos, j) {
                Option::None => Err(pos),
                Option::Some(ord) => {
                    let q = if pos < j <= s.len() {
                        j
                    } else {
                        pos + 1
                    };
                    match scan_from(m, toks, s, q) {
                        Err(e) => Err(e),
                        Ok(rest) => if 0 <= ord < toks.len() {
                            Ok(seq![toks[ord]] + rest)
                        } else {
                            Err(pos)
                        },
                    }
                },
            },
        }
    }
}

/// An empty segment runs to the closure of the start state.
proof fn lemma_seg_zero(m: NfaModel, s: Seq<char>, pos: int)
    requires
        0 <= pos <= s.len(),
    ensures
        seg_set(m, s, pos, pos) == eclose(m, set![m.start]),
{
    assert(s.subrange(pos, pos) =~= Seq::<char>::empty());
}

/// Extending a segment by one character steps and closes the simulation.
proof fn lemma_seg_snoc(m: NfaModel, s: Seq<char>, pos: int, j: int)
    requires
        0 <= pos <= j < s.len(),
    ensures
        seg_set(m, s, pos, j + 1) == eclose(m, step_set(m, seg_set(m, s, pos, j), s[j])),
{
    let t = s.subrange(pos, j + 1);
    assert(t.drop_last() =~= s.subrange(pos, j));
    assert(t.last() == s[j]);
}

/// Once the simulation set is empty it stays empty.
proof fn lemma_empty_propagates(m: NfaModel, s: Seq<char>, pos: int, j: int, jj: int)
    requires
        0 <= pos <= j <= jj <= s.len(),
        seg_set(m, s, pos, j) == Set::<int>::empty(),
    ensures
        seg_set(m, s, pos, jj) == Set::<int>::empty(),
    decreases jj - j,
{
    if jj > j {
        lemma_empty_propagates(m, s, pos, j, jj - 1);
        lemma_seg_snoc(m, s, pos, jj - 1);
        lemma_step_empty(m, s[jj - 1]);
        assert(step_set(m, seg_set(m, s, pos, jj - 1), s[jj - 1]) =~= Set::<int>::empty());
        lemma_eclose_empty(m);
    }
}

/// Positions with no winner do not move the best match.
proof fn lemma_best_collapse(m: NfaModel, s: Seq<char>, pos: int, j: int, hi: int)
    requires
        pos <= j <= hi,
        forall|jj: int| j < jj <= hi ==> seg_winner(m, s, pos, jj) is None,
    ensures
        best_end(m, s, pos, hi) == best_end(m, s, pos, j),
    decreases hi - j,
{
    if hi > j {
        lemma_best_collapse(m, s, pos, j, hi - 1);
    }
}

/// A winner is an index into the accept list.
proof fn lemma_winner_range(accepts: Seq<int>, s: Set<int>, i: int, o: int)
    requires
        winner_from(accepts, s, i) == Option::Some(o),
        0 <= i,
    ensures
        i <= o < accepts.len(),
    decreases accepts.len() - i,
{
    if i < accepts.len() && !s.contains(accepts[i]) {
        lemma_winner_range(accepts, s, i + 1, o);
    }
}

/// Input that the merged automaton accepts in full scans to exactly one
/// token, that of the winning pattern of the whole input: the longest
/// match is the input itself, and nothing is left to scan.
pub proof fn lemma_full_match_single_token<T>(m: NfaModel, toks: Seq<T>, s: Seq<char>)
    requires
        nfa_accepts(m, s),
        s.len() > 0,
        m.accepts.len() == toks.len(),
    ensures
        scan_from(m, toks, s, 0) == (match winner(m, run_set(m, s)) {
            Option::Some(ord) => Ok::<Seq<T>, int>(seq![toks[ord]]),
            Option::None => Err::<Seq<T>, int>(0),
        }),
{
    let len = s.len() as int;
    assert(s.subrange(0, len) =~= s);
    assert(seg_winner(m, s, 0, len) == winner(m, run_set(m, s)));
    assert(best_end(m, s, 0, len) == Option::Some(len));
    let ord = seg_winner(m, s, 0, len)->0;
    lemma_winner_range(m.accepts, seg_set(m, s, 0, len), 0, ord);
    assert(scan_from(m, toks, s, len) == Ok::<Seq<T>, int>(Seq::empty()));
    assert(seq![toks[ord]] + Seq::<T>::empty() =~= seq![toks[ord]]);
}

// ------------------------------------------------------------------
// Executable scanning
// ------------------------------------------------------------------

/// The characters of a string, in order.
fn str_to_chars(s: &str) -> (r: Vec<char>)
    ensures
        r@ == s@,
{
    let len = s.unicode_len();
    let mut r: Vec<char> = Vec::new();
    let mut i: usize = 0;
    while i < len
        invariant
            i <= len,
            len == s@.len(),
            r@ == s@.take(i as int),
        decreases len - i,
    {
        r.push(s.get_char(i));
        proof {
            assert(r@ =~= s@.take(i + 1));
        }
        i += 1;
    }
    proof {
        assert(r@ =~= s@);
    }
    r
}

/// Follow the DFA transition for `c` out of `st`, if there is one.
fn dfa_step_exec(d: &Dfa, st: usize, c: char) -> (r: Option<usize>)
    requires
        (st as int) < d.states@.len(),
    ensures
        r == dfa_lookup(*d, st as int, c),
{
    let trans = &d.states[st].trans;
    let mut i: usize = 0;
    while i < trans.len()
        invariant
            i <= trans@.len(),
            trans@ == d.states@[st as int].trans@,
            lookup_from(trans@, c, 0) == lookup_from(trans@, c, i as int),
        decreases trans@.len() - i,
    {
        if trans[i].0 == c {
            return Some(trans[i].1);
        }
        i += 1;
    }
    None
}

/// Maximal munch from `pos`: drive the DFA as far as a transition exists,
/// remembering the last accepting position passed, and hand back the
/// longest non-empty match with its winning pattern.
fn longest_match(d: &Dfa, Ghost(m): Ghost<NfaModel>, chars: &Vec<char>, pos: usize) -> (r: Option<
    (usize, usize),
>)
    requires
        dfa_wf(*d, m),
        pos <= chars@.len(),
        m.accepts.len() <= usize::MAX,
    ensures
        match r {
            Option::Some((end, ord)) => pos < end <= chars@.len() && best_end(
                m,
                chars@,
                pos as int,
                chars@.len() as int,
            ) == Option::Some(end as int) && seg_winner(m, chars@, pos as int, end as int)
                == Option::Some(ord as int),
            Option::None => best_end(m, chars@, pos as int, chars@.len() as int) is None,
        },
{
    let len = chars.len();
    let mut st: usize = 0;
    let mut j: usize = pos;
    let mut best_e: usize = 0;
    let mut best_o: usize = 0;
    let mut has: bool = false;
    proof {
        lemma_seg_zero(m, chars@, pos as int);
    }
    loop
        invariant_except_break
            dfa_wf(*d, m),
            m.accepts.len() <= usize::MAX,
            len == chars@.len(),
            pos <= j <= len,
            (st as int) < d.states@.len(),
            bitmap_set(d.states@[st as int].subset@) == seg_set(m, chars@, pos as int, j as int),
            has ==> pos < best_e <= j && seg_winner(m, chars@, pos as int, best_e as int)
                == Option::Some(best_o as int),
            best_end(m, chars@, pos as int, j as int) == (if has {
                Option::Some(best_e as int)
            } else {
                Option::<int>::None
            }),
        ensures
            best_end(m, chars@, pos as int, len as int) == (if has {
                Option::Some(best_e as int)
            } else {
                Option::<int>::None
            }),
            has ==> pos < best_e <= len && seg_winner(m, chars@, pos as int, best_e as int)
                == Option::Some(best_o as int),
        decreases len - j,
    {
        if j >= len {
            break;
        }
        let c = chars[j];
        proof {
            assert(state_trans_ok(d.states@, m, st as int, c));
            lemma_seg_snoc(m, chars@, pos as int, j as int);
        }
        match dfa_step_exec(d, st, c) {
            None => {
                proof {
                    assert(seg_set(m, chars@, pos as int, j + 1) == Set::<int>::empty());
                    assert forall|jj: int|
                        j + 1 <= jj <= len implies seg_winner(m, chars@, pos as int, jj)
                        is None by {
                        lemma_empty_propagates(m, chars@, pos as int, j + 1, jj);
                        lemma_winner_empty(m.accepts, 0);
                        assert(winner(m, seg_set(m, chars@, pos as int, jj)) == winner_from(
                            m.accepts,
                            Set::empty(),
                            0,
                        ));
                    }
                    lemma_best_collapse(m, chars@, pos as int, j as int, len as int);
                }
                break;
            },
            Some(t) => {
                st = t;
                j += 1;
                match d.states[st].accept {
                    Some(o) => {
                        proof {
                            assert(accept_matches(m, d.states@[st as int]));
                            assert(bitmap_set(d.states@[st as int].subset@) == seg_set(
                                m,
                                chars@,
                                pos as int,
                                j as int,
                            ));
                            match winner(m, seg_set(m, chars@, pos as int, j as int)) {
                                Option::Some(i) => {
                                    lemma_winner_range(
                                        m.accepts,
                                        seg_set(m, chars@, pos as int, j as int),
                                        0,
                                        i,
                                    );
                                },
                                Option::None => {},
                            }
                            assert(seg_winner(m, chars@, pos as int, j as int) == Option::Some(
                                o as int,
                            ));
                        }
                        best_e = j;
                        best_o = o;
                        has = true;
                    },
                    None => {
                        proof {
                            assert(accept_matches(m, d.states@[st as int]));
                            assert(bitmap_set(d.states@[st as int].subset@) == seg_set(
                                m,
                                chars@,
                                pos as int,
                                j as int,
                            ));
                            assert(seg_winner(m, chars@, pos as int, j as int) is None);
                        }
                    },
                }
            },
        }
    }
    if has {
        Some((best_e, best_o))
    } else {
        None
    }
}

// ------------------------------------------------------------------
// The lexer
// ------------------------------------------------------------------

/// A lexical analyzer under construction: the compiled fragment and the
/// token of each registered pattern, in registration order, and the
/// session's state-id allocator.
pub struct Lexer<T> {
    pub nfa_builder: NFABuilder,
    pub nfas: Vec<NfaFragment>,
    pub tokens: Vec<T>,
}

impl<T: Copy> Lexer<T> {
    /// The merged NFA the registered patterns make up.
    pub open spec fn model(self) -> NfaModel {
        merged_shape(frag_models(self.nfas@), self.nfa_builder.state_id as int)
    }

    /// Well-formed: one token per pattern; every fragment lies below the
    /// allocator's next fresh id; the fragments' state ranges are pairwise
    /// disjoint, so no two live fragments share a state id; and no
    /// fragment's transition relation repeats a key.
    pub open spec fn wf(self) -> bool {
        &&& self.tokens@.len() == self.nfas@.len()
        &&& self.nfa_builder.state_id < usize::MAX
        &&& forall|i: int|
            0 <= i < self.nfas@.len() ==> {
                let f = #[trigger] frag_models(self.nfas@)[i];
                &&& frag_ok(f)
                &&& crate::nfa::keys_unique(f.edges)
                &&& 0 <= f.lo
                &&& f.hi <= self.nfa_builder.state_id as int
            }
        &&& forall|i: int, j: int|
            0 <= i < j < self.nfas@.len() ==> frag_models(self.nfas@)[i].hi <= frag_models(
                self.nfas@,
            )[j].lo
    }

    /// The structural freshness invariant pays off at merge time: the
    /// merged NFA's transition relation never holds a `(state, symbol)`
    /// key twice, so merging unions the fragments' relations without a
    /// collision. Inserting an existing key would be a construction
    /// defect; here it is ruled out by proof rather than detected late.
    pub proof fn lemma_no_duplicate_keys(self)
        requires
            self.wf(),
        ensures
            crate::nfa::keys_unique(self.model().edges),
    {
        crate::nfa::lemma_merged_keys_unique(
            frag_models(self.nfas@),
            self.nfa_builder.state_id as int,
        );
    }

    /// An empty lexer: no patterns, a fresh state-id session.
    pub fn new() -> (r: Lexer<T>)
        ensures
            r.wf(),
            r.nfas@.len() == 0,
            r.tokens@.len() == 0,
            r.nfa_builder.state_id == 0,
    {
        Lexer { nfa_builder: NFABuilder::new(), nfas: Vec::new(), tokens: Vec::new() }
    }

    /// Register a pattern with its token: parse the pattern, compile it
    /// through Thompson's construction, and append it to the pending list.
    /// Fails exactly on a pattern the parser rejects, or on one whose
    /// compilation would exhaust the state-id space.
    pub fn add_token(&mut self, regex: &str, token: T) -> (r: Result<(), PatternSyntaxError>)
        requires
            old(self).wf(),
        ensures
            final(self).wf(),
            match sp_parse(regex@) {
                Ok(am) => {
                    &&& (r is Ok <==> old(self).nfa_builder.state_id + crate::nfa::alloc_count(am)
                        < usize::MAX)
                    &&& (r is Ok ==> {
                        &&& frag_models(final(self).nfas@) == frag_models(old(self).nfas@).push(
                            thompson(am, old(self).nfa_builder.state_id as int),
                        )
                        &&& final(self).tokens@ == old(self).tokens@.push(token)
                        &&& final(self).nfa_builder.state_id as int == old(
                            self,
                        ).nfa_builder.state_id + crate::nfa::alloc_count(am)
                    })
                    &&& (r is Err ==> *final(self) == *old(self) && (match r {
                        Err(e) => e.kind == PatternErrorKind::PatternTooLarge && e.pattern@
                            == regex@ && e.offset == 0,
                        Ok(_) => false,
                    }))
                },
                Err(off) => r is Err && *final(self) == *old(self) && (match r {
                    Err(e) => e.pattern@ == regex@ && e.offset as int == off && e.kind == (if off
                        == regex@.len() {
                        PatternErrorKind::MissingParenthesis
                    } else {
                        PatternErrorKind::UnexpectedParenthesis
                    }),
                    Ok(_) => false,
                }),
            },
    {
        let chars = str_to_chars(regex);
        let ast = match parse_pattern(&chars) {
            Ok(a) => a,
            Err((off, kind)) => {
                return Err(PatternSyntaxError { pattern: regex.to_owned(), offset: off, kind });
            },
        };
        let needed = match count_states(&ast) {
            Some(n) => n,
            None => {
                return Err(
                    PatternSyntaxError {
                        pattern: regex.to_owned(),
                        offset: 0,
                        kind: PatternErrorKind::PatternTooLarge,
                    },
                );
            },
        };
        let total = match self.nfa_builder.state_id.checked_add(needed) {
            Some(t) => t,
            None => {
                return Err(
                    PatternSyntaxError {
                        pattern: regex.to_owned(),
                        offset: 0,
                        kind: PatternErrorKind::PatternTooLarge,
                    },
                );
            },
        };
        if total >= usize::MAX {
            return Err(
                PatternSyntaxError {
                    pattern: regex.to_owned(),
                    offset: 0,
                    kind: PatternErrorKind::PatternTooLarge,
                },
            );
        }
        let ghost c0 = self.nfa_builder.state_id as int;
        let ghost am = regex_model(ast);
        let frag = self.nfa_builder.regex_to_nfa(&ast);
        proof {
            lemma_thompson_ok(am, c0);
            crate::nfa::lemma_thompson_keys(am, c0);
        }
        self.nfas.push(frag);
        self.tokens.push(token);
        proof {
            assert(frag_models(self.nfas@) =~= frag_models(old(self).nfas@).push(
                thompson(am, c0),
            ));
            assert forall|i: int| 0 <= i < self.nfas@.len() implies {
                let f = #[trigger] frag_models(self.nfas@)[i];
                &&& frag_ok(f)
                &&& 0 <= f.lo
                &&& f.hi <= self.nfa_builder.state_id as int
            } by {
                if i < old(self).nfas@.len() {
                    assert(frag_models(self.nfas@)[i] == frag_models(old(self).nfas@)[i]);
                }
            }
            assert forall|i: int|
                0 <= i < self.nfas@.len() implies crate::nfa::keys_unique(
                (#[trigger] frag_models(self.nfas@)[i]).edges,
            ) by {
                if i < old(self).nfas@.len() {
                    assert(frag_models(self.nfas@)[i] == frag_models(old(self).nfas@)[i]);
                }
            }
        }
        Ok(())
    }

    /// Scan the whole input into the token sequence maximal-munch matching
    /// produces, or fail with the offset at which no registered pattern
    /// matches a non-empty prefix. With no patterns registered the result
    /// is empty for every input.
    pub fn lex(&self, s: &str) -> (r: Result<Vec<T>, UnrecognizedInputError>)
        requires
            self.wf(),
        ensures
            self.nfas@.len() == 0 ==> (match r {
                Ok(v) => v@ == Seq::<T>::empty(),
                Err(_) => false,
            }),
            self.nfas@.len() > 0 ==> (match r {
                Ok(v) => scan_from(self.model(), self.tokens@, s@, 0) == Ok::<Seq<T>, int>(v@),
                Err(e) => scan_from(self.model(), self.tokens@, s@, 0) == Err::<Seq<T>, int>(
                    e.offset as int,
                ),
            }),
    {
        if self.nfas.len() == 0 {
            let v: Vec<T> = Vec::new();
            proof {
                assert(v@ =~= Seq::<T>::empty());
            }
            return Ok(v);
        }
        let ghost m = self.model();
        let chars = str_to_chars(s);
        let merged = self.nfa_builder.merge_nfas(&self.nfas);
        proof {
            lemma_merged_wf(frag_models(self.nfas@), self.nfa_builder.state_id as int);
            assert(merged.model() == m);
            assert(m.accepts.len() == self.tokens@.len());
        }
        let dfa = determinize(&merged);
        let n_toks = self.tokens.len();
        proof {
            assert(m.accepts.len() == n_toks as int);
        }
        let mut toks: Vec<T> = Vec::new();
        let mut pos: usize = 0;
        while pos < chars.len()
            invariant
                self.nfas@.len() > 0,
                m.accepts.len() <= usize::MAX,
                self.wf(),
                m == self.model(),
                nfa_wf(m),
                dfa_wf(dfa, m),
                chars@ == s@,
                pos <= chars@.len(),
                m.accepts.len() == self.tokens@.len(),
                scan_from(m, self.tokens@, s@, 0) == (match scan_from(
                    m,
                    self.tokens@,
                    s@,
                    pos as int,
                ) {
                    Ok(rest) => Ok::<Seq<T>, int>(toks@ + rest),
                    Err(e) => Err::<Seq<T>, int>(e),
                }),
            decreases chars@.len() - pos,
        {
            match longest_match(&dfa, Ghost(m), &chars, pos) {
                Some((end, ord)) => {
                    proof {
                        lemma_winner_range(
                            m.accepts,
                            seg_set(m, s@, pos as int, end as int),
                            0,
                            ord as int,
                        );
                    }
                    let t = self.tokens[ord];
                    let ghost toks0 = toks@;
                    toks.push(t);
                    proof {
                        let rest_res = scan_from(m, self.tokens@, s@, end as int);
                        match rest_res {
                            Ok(rest) => {
                                assert(toks@ + rest =~= toks0 + (seq![self.tokens@[ord as int]]
                                    + rest));
                            },
                            Err(_) => {},
                        }
                    }
                    pos = end;
                },
                None => {
                    proof {
                        assert(scan_from(m, self.tokens@, s@, pos as int) == Err::<Seq<T>, int>(
                            pos as int,
                        ));
                    }
                    return Err(UnrecognizedInputError { offset: pos });
                },
            }
        }
        proof {
            assert(scan_from(m, self.tokens@, s@, pos as int) == Ok::<Seq<T>, int>(Seq::empty()));
            assert(toks@ + Seq::<T>::empty() =~= toks@);
        }
        Ok(toks)
    }
}

} // verus!
