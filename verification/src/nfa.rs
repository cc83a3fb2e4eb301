//! Non-deterministic finite automata.
//!
//! A pattern compiles through Thompson's construction into a fragment with
//! one start state and exactly one accept state (the single accept state is
//! structural here: a fragment holds it in a field of its own). State ids are
//! plain integers handed out by a single monotonically increasing counter,
//! `NFABuilder`, shared by all fragments of one session, so ids are globally
//! fresh and fragments occupy pairwise disjoint ranges. The merger combines
//! the per-pattern fragments into one automaton with an accept state per
//! pattern, recorded in registration order.

use vstd::prelude::*;

use crate::regex::{regex_model, regex_model_seq, RegexModel, RegexNode};

verus! {

// ------------------------------------------------------------------
// Mathematical models
// ------------------------------------------------------------------

/// One key of a transition relation: every destination reached from `from`
/// on `symbol`, where `None` is the epsilon marker (a no-input move).
#[verifier::ext_equal]
pub struct EdgeModel {
    pub from: int,
    pub symbol: Option<char>,
    pub targets: Seq<int>,
}

/// The shape of an NFA fragment: one start state, exactly one accept state,
/// and a transition relation, all of whose states lie in `lo <= s < hi`.
#[verifier::ext_equal]
pub struct FragModel {
    pub start: int,
    pub accept: int,
    pub lo: int,
    pub hi: int,
    pub edges: Seq<EdgeModel>,
}

/// The shape of a merged NFA: one global start state with epsilon moves to
/// every fragment's start, and `accepts[i]` the accept state of the pattern
/// registered at position `i`.
#[verifier::ext_equal]
pub struct NfaModel {
    pub start: int,
    pub num_states: int,
    pub edges: Seq<EdgeModel>,
    pub accepts: Seq<int>,
}

/// The models of a list of transition entries.
pub open spec fn edge_models(s: Seq<TransEntry>) -> Seq<EdgeModel> {
    s.map(|_i: int, e: TransEntry| e.model())
}

/// State ids as mathematical integers.
pub open spec fn state_models(s: Seq<usize>) -> Seq<int> {
    s.map(|_i: int, t: usize| t as int)
}

/// The models of a list of fragments.
pub open spec fn frag_models(s: Seq<NfaFragment>) -> Seq<FragModel> {
    s.map(|_i: int, f: NfaFragment| f.model())
}

/// The start states of a list of fragments.
pub open spec fn starts_of(frags: Seq<FragModel>) -> Seq<int> {
    frags.map(|_i: int, f: FragModel| f.start)
}

/// The accept states of a list of fragments, in registration order.
pub open spec fn accepts_of(frags: Seq<FragModel>) -> Seq<int> {
    frags.map(|_i: int, f: FragModel| f.accept)
}

/// Does entry `e` send `x` to `y` on `s`?
pub open spec fn entry_links(e: EdgeModel, x: int, s: Option<char>, y: int) -> bool {
    e.from == x && e.symbol == s && e.targets.contains(y)
}

/// The epsilon-transition relation of a merged NFA.
pub open spec fn eps_edge(m: NfaModel, x: int, y: int) -> bool {
    exists|i: int|
        0 <= i < m.edges.len() && #[trigger] entry_links(m.edges[i], x, Option::None, y)
}

/// The transition relation of a merged NFA on input character `c`.
pub open spec fn sym_edge(m: NfaModel, x: int, c: char, y: int) -> bool {
    exists|i: int|
        0 <= i < m.edges.len() && #[trigger] entry_links(m.edges[i], x, Option::Some(c), y)
}

// ------------------------------------------------------------------
// Executable representation
// ------------------------------------------------------------------

/// One key of the transition relation: the set of destination states of
/// `(from, symbol)`; `symbol == None` is the epsilon marker.
pub struct TransEntry {
    pub from: usize,
    pub symbol: Option<char>,
    pub targets: Vec<usize>,
}

impl TransEntry {
    pub open spec fn model(self) -> EdgeModel {
        EdgeModel {
            from: self.from as int,
            symbol: self.symbol,
            targets: state_models(self.targets@),
        }
    }
}

/// An NFA fragment produced for one pattern: states `lo <= s < hi`, a start
/// state, and exactly one accept state.
pub struct NfaFragment {
    pub start: usize,
    pub accept: usize,
    pub lo: usize,
    pub hi: usize,
    pub edges: Vec<TransEntry>,
}

impl NfaFragment {
    pub open spec fn model(self) -> FragModel {
        FragModel {
            start: self.start as int,
            accept: self.accept as int,
            lo: self.lo as int,
            hi: self.hi as int,
            edges: edge_models(self.edges@),
        }
    }
}

/// A merged NFA, ready for determinization; every state is `< num_states`.
pub struct MergedNfa {
    pub start: usize,
    pub num_states: usize,
    pub edges: Vec<TransEntry>,
    pub accepts: Vec<usize>,
}

impl MergedNfa {
    pub open spec fn model(self) -> NfaModel {
        NfaModel {
            start: self.start as int,
            num_states: self.num_states as int,
            edges: edge_models(self.edges@),
            accepts: state_models(self.accepts@),
        }
    }
}

// ------------------------------------------------------------------
// Thompson's construction, stated as a function of the pattern and the
// first fresh state id
// ------------------------------------------------------------------

/// How many fresh states compiling `r` allocates.
pub open spec fn alloc_count(r: RegexModel) -> int
    decreases r,
{
    match r {
        RegexModel::Terminal(_) => 2,
        RegexModel::Sequence(v) => if v.len() == 0 {
            2
        } else {
            1 + alloc_count_list(v)
        },
        RegexModel::Alternation(a, b) => alloc_count(*a) + alloc_count(*b) + 2,
        RegexModel::Repetition(a) => alloc_count(*a) + 2,
    }
}

/// States allocated for a list of sub-patterns, one junction state each.
pub open spec fn alloc_count_list(v: Seq<RegexModel>) -> int
    decreases v,
{
    if v.len() == 0 {
        0
    } else {
        alloc_count(v[0]) + 1 + alloc_count_list(v.drop_first())
    }
}

/// The fragment Thompson's construction produces for pattern `r` when the
/// next fresh state id is `c`. Sub-fragments take their states first; the
/// states belonging to the construct itself follow, except for a
/// repetition, whose start state precedes its sub-fragment.
pub open spec fn thompson(r: RegexModel, c: int) -> FragModel
    decreases r, 1int,
{
    match r {
        RegexModel::Terminal(ch) => FragModel {
            start: c,
            accept: c + 1,
            lo: c,
            hi: c + 2,
            edges: seq![
                EdgeModel { from: c, symbol: Option::Some(ch), targets: seq![c + 1] },
            ],
        },
        RegexModel::Sequence(v) => if v.len() == 0 {
            FragModel {
                start: c,
                accept: c + 1,
                lo: c,
                hi: c + 2,
                edges: seq![EdgeModel { from: c, symbol: Option::None, targets: seq![c + 1] }],
            }
        } else {
            let frags = thompson_list(v, c);
            let base = c + alloc_count_list(v) - v.len();
            FragModel {
                start: base,
                accept: base + v.len(),
                lo: c,
                hi: base + v.len() + 1,
                edges: splice_edges(frags, base, 0),
            }
        },
        RegexModel::Alternation(a, b) => {
            let fa = thompson(*a, c);
            let fb = thompson(*b, fa.hi);
            let start = fb.hi;
            let end = fb.hi + 1;
            FragModel {
                start: start,
                accept: end,
                lo: c,
                hi: end + 1,
                edges: fa.edges + fb.edges + seq![
                    EdgeModel { from: start, symbol: Option::None, targets: seq![fa.start, fb.start] },
                    EdgeModel { from: fa.accept, symbol: Option::None, targets: seq![end] },
                    EdgeModel { from: fb.accept, symbol: Option::None, targets: seq![end] },
                ],
            }
        },
        RegexModel::Repetition(a) => {
            let inner = thompson(*a, c + 1);
            let end = inner.hi;
            FragModel {
                start: c,
                accept: end,
                lo: c,
                hi: end + 1,
                edges: inner.edges + seq![
                    EdgeModel { from: c, symbol: Option::None, targets: seq![inner.start, end] },
                    EdgeModel { from: inner.accept, symbol: Option::None, targets: seq![inner.start, end] },
                ],
            }
        },
    }
}

/// The fragments of a list of sub-patterns, each starting where the one
/// before it stopped.
pub open spec fn thompson_list(v: Seq<RegexModel>, c: int) -> Seq<FragModel>
    decreases v, 0int,
{
    if v.len() == 0 {
        Seq::empty()
    } else {
        seq![thompson(v[0], c)] + thompson_list(v.drop_first(), c + alloc_count(v[0]))
    }
}

/// The edges of a compiled sequence: each sub-fragment's own edges, an
/// epsilon move from the junction before it into its start, and an epsilon
/// move from its accept state into the junction after it. Junction `i` is
/// state `base + i`.
pub open spec fn splice_edges(frags: Seq<FragModel>, base: int, i: int) -> Seq<EdgeModel>
    decreases frags.len() - i,
{
    if i < 0 || i >= frags.len() {
        Seq::empty()
    } else {
        frags[i].edges + seq![
            EdgeModel { from: base + i, symbol: Option::None, targets: seq![frags[i].start] },
            EdgeModel { from: frags[i].accept, symbol: Option::None, targets: seq![base + i + 1] },
        ] + splice_edges(frags, base, i + 1)
    }
}

// ------------------------------------------------------------------
// Bounds on the states a fragment touches
// ------------------------------------------------------------------

/// Every state the entry names lies in `lo <= s < hi`.
pub open spec fn edge_bounded(e: EdgeModel, lo: int, hi: int) -> bool {
    lo <= e.from < hi && forall|j: int| 0 <= j < e.targets.len() ==> lo <= #[trigger] e.targets[j] < hi
}

/// Every state the relation names lies in `lo <= s < hi`.
pub open spec fn edges_bounded(edges: Seq<EdgeModel>, lo: int, hi: int) -> bool {
    forall|i: int| 0 <= i < edges.len() ==> edge_bounded(#[trigger] edges[i], lo, hi)
}

/// A well-formed fragment: start and accept are distinct states of its own
/// range, and its transitions stay inside that range.
pub open spec fn frag_ok(f: FragModel) -> bool {
    &&& f.lo <= f.start < f.hi
    &&& f.lo <= f.accept < f.hi
    &&& f.start != f.accept
    &&& edges_bounded(f.edges, f.lo, f.hi)
}

pub proof fn lemma_edges_bounded_widen(edges: Seq<EdgeModel>, lo: int, hi: int, lo2: int, hi2: int)
    requires
        edges_bounded(edges, lo, hi),
        lo2 <= lo,
        hi <= hi2,
    ensures
        edges_bounded(edges, lo2, hi2),
{
    assert forall|i: int| 0 <= i < edges.len() implies edge_bounded(#[trigger] edges[i], lo2, hi2) by {
        assert(edge_bounded(edges[i], lo, hi));
    }
}

pub proof fn lemma_edges_bounded_concat(a: Seq<EdgeModel>, b: Seq<EdgeModel>, lo: int, hi: int)
    requires
        edges_bounded(a, lo, hi),
        edges_bounded(b, lo, hi),
    ensures
        edges_bounded(a + b, lo, hi),
{
    assert forall|i: int| 0 <= i < (a + b).len() implies edge_bounded(#[trigger] (a + b)[i], lo, hi) by {
        if i < a.len() {
            assert((a + b)[i] == a[i]);
            assert(edge_bounded(a[i], lo, hi));
        } else {
            assert((a + b)[i] == b[i - a.len()]);
            assert(edge_bounded(b[i - a.len()], lo, hi));
        }
    }
}

/// Compiling any pattern takes at least two fresh states.
pub proof fn lemma_alloc_pos(r: RegexModel)
    ensures
        alloc_count(r) >= 2,
    decreases r, 1int,
{
    match r {
        RegexModel::Terminal(_) => {},
        RegexModel::Sequence(v) => {
            if v.len() > 0 {
                lemma_alloc_list_pos(v);
            }
        },
        RegexModel::Alternation(a, b) => {
            lemma_alloc_pos(*a);
            lemma_alloc_pos(*b);
        },
        RegexModel::Repetition(a) => {
            lemma_alloc_pos(*a);
        },
    }
}

pub proof fn lemma_alloc_list_pos(v: Seq<RegexModel>)
    ensures
        alloc_count_list(v) >= 3 * v.len(),
    decreases v, 0int,
{
    if v.len() > 0 {
        lemma_alloc_pos(v[0]);
        lemma_alloc_list_pos(v.drop_first());
    }
}

/// Thompson's construction stays inside the states it allocates: the
/// fragment for `r` starting at `c` occupies exactly `c <= s < c + alloc_count(r)`
/// and is well formed.
pub proof fn lemma_thompson_ok(r: RegexModel, c: int)
    ensures
        frag_ok(thompson(r, c)),
        thompson(r, c).lo == c,
        thompson(r, c).hi == c + alloc_count(r),
    decreases r, 1int,
{
    match r {
        RegexModel::Terminal(_) => {},
        RegexModel::Sequence(v) => {
            if v.len() > 0 {
                lemma_alloc_list_pos(v);
                let base = c + alloc_count_list(v) - v.len();
                lemma_thompson_list_ok(v, c);
                lemma_splice_ok(thompson_list(v, c), base, 0, c, base + v.len() + 1);
            }
        },
        RegexModel::Alternation(a, b) => {
            let fa = thompson(*a, c);
            let fb = thompson(*b, fa.hi);
            lemma_thompson_ok(*a, c);
            lemma_thompson_ok(*b, fa.hi);
            let lo = c;
            let hi = fb.hi + 2;
            lemma_edges_bounded_widen(fa.edges, fa.lo, fa.hi, lo, hi);
            lemma_edges_bounded_widen(fb.edges, fb.lo, fb.hi, lo, hi);
            lemma_edges_bounded_concat(fa.edges, fb.edges, lo, hi);
            let tail = seq![
                EdgeModel { from: fb.hi, symbol: Option::None, targets: seq![fa.start, fb.start] },
                EdgeModel { from: fa.accept, symbol: Option::None, targets: seq![fb.hi + 1] },
                EdgeModel { from: fb.accept, symbol: Option::None, targets: seq![fb.hi + 1] },
            ];
            assert(edges_bounded(tail, lo, hi)) by {
                assert forall|i: int| 0 <= i < tail.len() implies edge_bounded(
                    #[trigger] tail[i],
                    lo,
                    hi,
                ) by {
                    assert(tail[i].targets.len() <= 2);
                }
            }
            lemma_edges_bounded_concat(fa.edges + fb.edges, tail, lo, hi);
        },
        RegexModel::Repetition(a) => {
            let inner = thompson(*a, c + 1);
            lemma_thompson_ok(*a, c + 1);
            let lo = c;
            let hi = inner.hi + 1;
            lemma_edges_bounded_widen(inner.edges, inner.lo, inner.hi, lo, hi);
            let tail = seq![
                EdgeModel { from: c, symbol: Option::None, targets: seq![inner.start, inner.hi] },
                EdgeModel {
                    from: inner.accept,
                    symbol: Option::None,
                    targets: seq![inner.start, inner.hi],
                },
            ];
            assert(edges_bounded(tail, lo, hi)) by {
                assert forall|i: int| 0 <= i < tail.len() implies edge_bounded(
                    #[trigger] tail[i],
                    lo,
                    hi,
                ) by {
                    assert(tail[i].targets.len() <= 2);
                }
            }
            lemma_edges_bounded_concat(inner.edges, tail, lo, hi);
        },
    }
}

/// The fragments of a compiled list chain left to right through
/// `c <= s < c + alloc_count_list(v) - v.len()` and are each well formed.
pub proof fn lemma_thompson_list_ok(v: Seq<RegexModel>, c: int)
    ensures
        thompson_list(v, c).len() == v.len(),
        forall|k: int|
            0 <= k < v.len() ==> {
                let f = #[trigger] thompson_list(v, c)[k];
                &&& frag_ok(f)
                &&& c <= f.lo
                &&& f.hi <= c + alloc_count_list(v) - v.len()
            },
        v.len() > 0 ==> thompson_list(v, c)[0].start == thompson(v[0], c).start,
    decreases v, 0int,
{
    if v.len() > 0 {
        let f0 = thompson(v[0], c);
        lemma_thompson_ok(v[0], c);
        lemma_alloc_pos(v[0]);
        let c1 = c + alloc_count(v[0]);
        lemma_thompson_list_ok(v.drop_first(), c1);
        lemma_alloc_list_pos(v.drop_first());
        let frags = thompson_list(v, c);
        assert forall|k: int| 0 <= k < v.len() implies {
            let f = #[trigger] frags[k];
            &&& frag_ok(f)
            &&& c <= f.lo
            &&& f.hi <= c + alloc_count_list(v) - v.len()
        } by {
            if k == 0 {
                assert(frags[0] == f0);
            } else {
                assert(frags[k] == thompson_list(v.drop_first(), c1)[k - 1]);
            }
        }
    }
}

/// The spliced edges of a sequence stay inside the sequence's range, given
/// fragments that lie between `lo` and the junction states.
pub proof fn lemma_splice_ok(frags: Seq<FragModel>, base: int, i: int, lo: int, hi: int)
    requires
        0 <= i <= frags.len(),
        lo <= base,
        hi == base + frags.len() + 1,
        forall|k: int|
            0 <= k < frags.len() ==> {
                let f = #[trigger] frags[k];
                &&& frag_ok(f)
                &&& lo <= f.lo
                &&& f.hi <= base
            },
    ensures
        edges_bounded(splice_edges(frags, base, i), lo, hi),
    decreases frags.len() - i,
{
    if i < frags.len() {
        let f = frags[i];
        lemma_edges_bounded_widen(f.edges, f.lo, f.hi, lo, hi);
        let tail = seq![
            EdgeModel { from: base + i, symbol: Option::None, targets: seq![f.start] },
            EdgeModel { from: f.accept, symbol: Option::None, targets: seq![base + i + 1] },
        ];
        assert(edges_bounded(tail, lo, hi)) by {
            assert forall|j: int| 0 <= j < tail.len() implies edge_bounded(
                #[trigger] tail[j],
                lo,
                hi,
            ) by {
                assert(tail[j].targets.len() <= 1);
            }
        }
        lemma_edges_bounded_concat(f.edges, tail, lo, hi);
        lemma_splice_ok(frags, base, i + 1, lo, hi);
        lemma_edges_bounded_concat(f.edges + tail, splice_edges(frags, base, i + 1), lo, hi);
    }
}

// ------------------------------------------------------------------
// Executable helpers
// ------------------------------------------------------------------

/// Duplicate a list of state ids.
fn copy_states(v: &Vec<usize>) -> (r: Vec<usize>)
    ensures
        r@ == v@,
{
    let mut r: Vec<usize> = Vec::new();
    let mut i: usize = 0;
    while i < v.len()
        invariant
            i <= v@.len(),
            r@ == v@.take(i as int),
        decreases v@.len() - i,
    {
        r.push(v[i]);
        proof {
            assert(r@ =~= v@.take(i + 1));
        }
        i += 1;
    }
    proof {
        assert(r@ =~= v@);
    }
    r
}

/// Append a copy of every transition entry of `src` to `dst`.
fn append_edges(dst: &mut Vec<TransEntry>, src: &Vec<TransEntry>)
    ensures
        edge_models(final(dst)@) == edge_models(old(dst)@) + edge_models(src@),
{
    let mut i: usize = 0;
    proof {
        assert(edge_models(dst@) =~= edge_models(old(dst)@) + edge_models(src@.take(0)));
    }
    while i < src.len()
        invariant
            i <= src@.len(),
            edge_models(dst@) == edge_models(old(dst)@) + edge_models(src@.take(i as int)),
        decreases src@.len() - i,
    {
        let e = &src[i];
        let entry = TransEntry { from: e.from, symbol: e.symbol, targets: copy_states(&e.targets) };
        proof {
            assert(entry.model() =~~= src@[i as int].model());
        }
        let ghost pre = dst@;
        dst.push(entry);
        proof {
            assert(edge_models(dst@) =~= edge_models(pre).push(entry.model()));
            assert(edge_models(src@.take(i + 1)) =~= edge_models(src@.take(i as int)).push(
                src@[i as int].model(),
            ));
            assert(edge_models(dst@) =~= edge_models(old(dst)@) + edge_models(src@.take(i + 1)));
        }
        i += 1;
    }
    proof {
        assert(src@.take(src@.len() as int) =~= src@);
    }
}

// ------------------------------------------------------------------
// The state-id allocator
// ------------------------------------------------------------------

/// The session-wide state-id counter: ids come out 0, 1, 2, ... and are
/// never reused, so every fragment of one session gets fresh states.
pub struct NFABuilder {
    pub state_id: usize,
}

impl NFABuilder {
    /// A fresh allocator, starting a new session at state id 0.
    pub fn new() -> (r: NFABuilder)
        ensures
            r.state_id == 0,
    {
        NFABuilder { state_id: 0 }
    }

    /// Allocate the next state id.
    pub fn get_id(&mut self) -> (id: usize)
        requires
            old(self).state_id < usize::MAX,
        ensures
            id == old(self).state_id,
            final(self).state_id == old(self).state_id + 1,
    {
        let id = self.state_id;
        self.state_id = self.state_id + 1;
        id
    }

    /// Compile a single literal character: two fresh states joined by one
    /// transition on that character.
    fn construct_terminal_nfa(&mut self, c: char) -> (f: NfaFragment)
        requires
            old(self).state_id + 2 <= usize::MAX,
        ensures
            f.model() == thompson(RegexModel::Terminal(c), old(self).state_id as int),
            final(self).state_id == old(self).state_id + 2,
    {
        let start = self.get_id();
        let end = self.get_id();
        let f = NfaFragment {
            start,
            accept: end,
            lo: start,
            hi: self.state_id,
            edges: vec![TransEntry { from: start, symbol: Some(c), targets: vec![end] }],
        };
        proof {
            assert(f.model() =~~= thompson(RegexModel::Terminal(c), old(self).state_id as int));
        }
        f
    }

    /// Combine two compiled fragments into their alternation: a fresh start
    /// state with epsilon moves to both starts, and a fresh accept state
    /// both accept states epsilon-move into.
    fn construct_or_nfa(&mut self, n1: &NfaFragment, n2: &NfaFragment) -> (f: NfaFragment)
        requires
            old(self).state_id + 2 <= usize::MAX,
        ensures
            f.model() == (FragModel {
                start: old(self).state_id as int,
                accept: old(self).state_id + 1,
                lo: n1.model().lo,
                hi: old(self).state_id + 2,
                edges: n1.model().edges + n2.model().edges + seq![
                    EdgeModel {
                        from: old(self).state_id as int,
                        symbol: Option::None,
                        targets: seq![n1.model().start, n2.model().start],
                    },
                    EdgeModel {
                        from: n1.model().accept,
                        symbol: Option::None,
                        targets: seq![old(self).state_id + 1],
                    },
                    EdgeModel {
                        from: n2.model().accept,
                        symbol: Option::None,
                        targets: seq![old(self).state_id + 1],
                    },
                ],
            }),
            final(self).state_id == old(self).state_id + 2,
    {
        let start = self.get_id();
        let end = self.get_id();
        let mut edges: Vec<TransEntry> = Vec::new();
        append_edges(&mut edges, &n1.edges);
        append_edges(&mut edges, &n2.edges);
        edges.push(TransEntry { from: start, symbol: None, targets: vec![n1.start, n2.start] });
        edges.push(TransEntry { from: n1.accept, symbol: None, targets: vec![end] });
        edges.push(TransEntry { from: n2.accept, symbol: None, targets: vec![end] });
        let f = NfaFragment { start, accept: end, lo: n1.lo, hi: self.state_id, edges };
        proof {
            assert(f.model().edges =~~= n1.model().edges + n2.model().edges + seq![
                EdgeModel {
                    from: start as int,
                    symbol: Option::None,
                    targets: seq![n1.model().start, n2.model().start],
                },
                EdgeModel {
                    from: n1.model().accept,
                    symbol: Option::None,
                    targets: seq![end as int],
                },
                EdgeModel {
                    from: n2.model().accept,
                    symbol: Option::None,
                    targets: seq![end as int],
                },
            ]);
        }
        f
    }

    /// Thread a list of compiled fragments left to right into their
    /// concatenation, one fresh junction state between neighbours and at the
    /// two ends; an empty list yields a two-state fragment joined by one
    /// epsilon move, which matches the empty string.
    fn construct_sequence_nfa(&mut self, v: &Vec<NfaFragment>) -> (f: NfaFragment)
        requires
            v@.len() == 0 ==> old(self).state_id + 2 <= usize::MAX,
            v@.len() > 0 ==> old(self).state_id + v@.len() + 1 <= usize::MAX,
        ensures
            v@.len() == 0 ==> f.model() == (FragModel {
                start: old(self).state_id as int,
                accept: old(self).state_id + 1,
                lo: old(self).state_id as int,
                hi: old(self).state_id + 2,
                edges: seq![
                    EdgeModel {
                        from: old(self).state_id as int,
                        symbol: Option::None,
                        targets: seq![old(self).state_id + 1],
                    },
                ],
            }) && final(self).state_id == old(self).state_id + 2,
            v@.len() > 0 ==> f.model() == (FragModel {
                start: old(self).state_id as int,
                accept: old(self).state_id + v@.len(),
                lo: frag_models(v@)[0].lo,
                hi: old(self).state_id + v@.len() + 1,
                edges: splice_edges(frag_models(v@), old(self).state_id as int, 0),
            }) && final(self).state_id == old(self).state_id + v@.len() + 1,
    {
        let init_start = self.get_id();
        if v.len() == 0 {
            let end = self.get_id();
            let f = NfaFragment {
                start: init_start,
                accept: end,
                lo: init_start,
                hi: self.state_id,
                edges: vec![
                    TransEntry { from: init_start, symbol: None, targets: vec![end] },
                ],
            };
            proof {
                assert(f.model().edges =~~= seq![
                    EdgeModel {
                        from: init_start as int,
                        symbol: Option::None,
                        targets: seq![end as int],
                    },
                ]);
            }
            f
        } else {
            let ghost base = init_start as int;
            let ghost frags = frag_models(v@);
            let mut edges: Vec<TransEntry> = Vec::new();
            let mut prev_j = init_start;
            let mut i: usize = 0;
            while i < v.len()
                invariant
                    i <= v@.len(),
                    frags == frag_models(v@),
                    base == old(self).state_id as int,
                    old(self).state_id + v@.len() + 1 <= usize::MAX,
                    self.state_id == base + i + 1,
                    prev_j as int == base + i,
                    splice_edges(frags, base, 0) == edge_models(edges@) + splice_edges(
                        frags,
                        base,
                        i as int,
                    ),
                decreases v@.len() - i,
            {
                let end = self.get_id();
                append_edges(&mut edges, &v[i].edges);
                let e1 = TransEntry { from: prev_j, symbol: None, targets: vec![v[i].start] };
                let e2 = TransEntry { from: v[i].accept, symbol: None, targets: vec![end] };
                let ghost pre = edges@;
                edges.push(e1);
                edges.push(e2);
                proof {
                    assert(edge_models(edges@) =~= edge_models(pre).push(e1.model()).push(
                        e2.model(),
                    ));
                    assert(e1.model() =~~= (EdgeModel {
                        from: base + i,
                        symbol: Option::None,
                        targets: seq![frags[i as int].start],
                    }));
                    assert(e2.model() =~~= (EdgeModel {
                        from: frags[i as int].accept,
                        symbol: Option::None,
                        targets: seq![base + i + 1],
                    }));
                    assert(splice_edges(frags, base, 0) =~= edge_models(edges@) + splice_edges(
                        frags,
                        base,
                        i + 1,
                    ));
                }
                prev_j = end;
                i += 1;
            }
            let f = NfaFragment {
                start: init_start,
                accept: prev_j,
                lo: v[0].lo,
                hi: self.state_id,
                edges,
            };
            proof {
                assert(splice_edges(frags, base, v@.len() as int) =~= Seq::<EdgeModel>::empty());
                assert(f.model().edges =~= splice_edges(frags, base, 0));
                assert(f.model().lo == frags[0].lo);
            }
            f
        }
    }

    /// Compile zero-or-more repetition of `r`: a fresh start state that
    /// epsilon-moves to the inner start and straight to a fresh accept state
    /// (zero occurrences); the inner accept state epsilon-moves back to the
    /// inner start (repeat) and to the accept state (stop).
    fn construct_repetition_nfa(&mut self, r: &RegexNode) -> (f: NfaFragment)
        requires
            old(self).state_id + 2 + alloc_count(regex_model(*r)) <= usize::MAX,
        ensures
            f.model() == thompson(
                RegexModel::Repetition(Box::new(regex_model(*r))),
                old(self).state_id as int,
            ),
            final(self).state_id == old(self).state_id + 2 + alloc_count(regex_model(*r)),
        decreases *r, 1int,
    {
        proof {
            lemma_alloc_pos(regex_model(*r));
        }
        let start = self.get_id();
        let inner = self.regex_to_nfa(r);
        let end = self.get_id();
        proof {
            lemma_thompson_ok(regex_model(*r), start as int + 1);
        }
        let mut edges: Vec<TransEntry> = Vec::new();
        append_edges(&mut edges, &inner.edges);
        let e1 = TransEntry { from: start, symbol: None, targets: vec![inner.start, end] };
        let e2 = TransEntry { from: inner.accept, symbol: None, targets: vec![inner.start, end] };
        let ghost pre = edges@;
        edges.push(e1);
        edges.push(e2);
        let f = NfaFragment { start, accept: end, lo: start, hi: self.state_id, edges };
        proof {
            let im = thompson(regex_model(*r), old(self).state_id + 1);
            assert(edge_models(f.edges@) =~= edge_models(pre).push(e1.model()).push(e2.model()));
            assert(e1.model() =~~= (EdgeModel {
                from: old(self).state_id as int,
                symbol: Option::None,
                targets: seq![im.start, im.hi],
            }));
            assert(e2.model() =~~= (EdgeModel {
                from: im.accept,
                symbol: Option::None,
                targets: seq![im.start, im.hi],
            }));
            assert(f.model() =~~= thompson(
                RegexModel::Repetition(Box::new(regex_model(*r))),
                old(self).state_id as int,
            ));
        }
        f
    }

    /// Compile one pattern through Thompson's construction, recursively over
    /// the shape of its abstract syntax tree.
    pub(crate) fn regex_to_nfa(&mut self, r: &RegexNode) -> (f: NfaFragment)
        requires
            old(self).state_id + alloc_count(regex_model(*r)) <= usize::MAX,
        ensures
            f.model() == thompson(regex_model(*r), old(self).state_id as int),
            final(self).state_id == old(self).state_id + alloc_count(regex_model(*r)),
        decreases *r, 0int,
    {
        match r {
            RegexNode::Terminal(ch) => self.construct_terminal_nfa(*ch),
            RegexNode::Alternation(a, b) => {
                proof {
                    lemma_alloc_pos(regex_model(**a));
                    lemma_alloc_pos(regex_model(**b));
                }
                let n1 = self.regex_to_nfa(&**a);
                let n2 = self.regex_to_nfa(&**b);
                proof {
                    lemma_thompson_ok(regex_model(**a), old(self).state_id as int);
                    lemma_thompson_ok(
                        regex_model(**b),
                        old(self).state_id + alloc_count(regex_model(**a)),
                    );
                }
                let f = self.construct_or_nfa(&n1, &n2);
                proof {
                    assert(f.model() =~~= thompson(
                        regex_model(*r),
                        old(self).state_id as int,
                    ));
                }
                f
            },
            RegexNode::Sequence(v) => {
                let ghost c0 = self.state_id as int;
                let ghost vm = regex_model_seq(v@);
                proof {
                    crate::regex::lemma_regex_model_seq_index(v@);
                    lemma_alloc_list_pos(vm);
                }
                let mut subs: Vec<NfaFragment> = Vec::new();
                let mut i: usize = 0;
                proof {
                    assert(vm.skip(0) =~= vm);
                    assert(frag_models(subs@) =~= thompson_list(vm, c0).take(0));
                }
                while i < v.len()
                    invariant
                        i <= v@.len(),
                        *r == RegexNode::Sequence(*v),
                        vm == regex_model_seq(v@),
                        vm.len() == v@.len(),
                        forall|k: int|
                            0 <= k < v@.len() ==> vm[k] == regex_model(#[trigger] v@[k]),
                        c0 + alloc_count(RegexModel::Sequence(vm)) <= usize::MAX,
                        frag_models(subs@) == thompson_list(vm, c0).take(i as int),
                        subs@.len() == i,
                        self.state_id as int == c0 + alloc_count_list(vm) - alloc_count_list(
                            vm.skip(i as int),
                        ) - i,
                    decreases v@.len() - i,
                {
                    proof {
                        assert(vm.skip(i as int)[0] == vm[i as int]);
                        assert(vm.skip(i as int).drop_first() =~= vm.skip(i + 1));
                        lemma_alloc_pos(vm[i as int]);
                        lemma_alloc_list_pos(vm.skip(i + 1));
                        lemma_alloc_list_pos(vm.take(i as int));
                        assert(decreases_to!(*r => (*r)->Sequence_0));
                        assert(decreases_to!(*v => (*v)[i as int]));
                    }
                    let sub = self.regex_to_nfa(&v[i]);
                    proof {
                        lemma_thompson_list_skip(vm, c0, i as int);
                    }
                    subs.push(sub);
                    proof {
                        assert(frag_models(subs@) =~= thompson_list(vm, c0).take(i + 1));
                    }
                    i += 1;
                }
                proof {
                    assert(vm.skip(vm.len() as int) =~= Seq::<RegexModel>::empty());
                    lemma_thompson_list_ok(vm, c0);
                    assert(frag_models(subs@) =~= thompson_list(vm, c0));
                    if vm.len() > 0 {
                        lemma_thompson_ok(vm[0], c0);
                        assert(thompson_list(vm, c0)[0] == thompson(vm[0], c0));
                    }
                }
                let f = self.construct_sequence_nfa(&subs);
                proof {
                    assert(f.model() =~~= thompson(regex_model(*r), c0));
                }
                f
            },
            RegexNode::Repetition(a) => {
                let f = self.construct_repetition_nfa(&**a);
                proof {
                    assert(regex_model(*r) == RegexModel::Repetition(
                        Box::new(regex_model(**a)),
                    ));
                }
                f
            },
        }
    }
}

// ------------------------------------------------------------------
// Merging the per-pattern fragments
// ------------------------------------------------------------------

/// The transition entries of a list of fragments, in order, from the
/// `i`-th fragment on.
pub open spec fn flatten_edges(frags: Seq<FragModel>, i: int) -> Seq<EdgeModel>
    decreases frags.len() - i,
{
    if i < 0 || i >= frags.len() {
        Seq::empty()
    } else {
        frags[i].edges + flatten_edges(frags, i + 1)
    }
}

/// The merged NFA over a list of compiled fragments: one fresh global start
/// state with an epsilon move to every fragment's start; the accept states
/// are the fragments' accept states, in registration order.
pub open spec fn merged_shape(frags: Seq<FragModel>, start: int) -> NfaModel {
    NfaModel {
        start: start,
        num_states: start + 1,
        edges: flatten_edges(frags, 0) + seq![
            EdgeModel { from: start, symbol: Option::None, targets: starts_of(frags) },
        ],
        accepts: accepts_of(frags),
    }
}

/// A well-formed merged NFA: every state it names lies below `num_states`.
pub open spec fn nfa_wf(m: NfaModel) -> bool {
    &&& 0 <= m.start < m.num_states
    &&& edges_bounded(m.edges, 0, m.num_states)
    &&& forall|k: int| 0 <= k < m.accepts.len() ==> 0 <= #[trigger] m.accepts[k] < m.num_states
}

pub proof fn lemma_flatten_bounded(frags: Seq<FragModel>, i: int, hi: int)
    requires
        forall|k: int|
            0 <= k < frags.len() ==> {
                let f = #[trigger] frags[k];
                &&& frag_ok(f)
                &&& 0 <= f.lo
                &&& f.hi <= hi
            },
    ensures
        edges_bounded(flatten_edges(frags, i), 0, hi),
    decreases frags.len() - i,
{
    if 0 <= i < frags.len() {
        let f = frags[i];
        lemma_edges_bounded_widen(f.edges, f.lo, f.hi, 0, hi);
        lemma_flatten_bounded(frags, i + 1, hi);
        lemma_edges_bounded_concat(f.edges, flatten_edges(frags, i + 1), 0, hi);
    } else {
        assert(edges_bounded(Seq::<EdgeModel>::empty(), 0, hi));
    }
}

/// Merging well-formed fragments that lie below the fresh start state gives
/// a well-formed NFA.
pub proof fn lemma_merged_wf(frags: Seq<FragModel>, start: int)
    requires
        start >= 0,
        forall|k: int|
            0 <= k < frags.len() ==> {
                let f = #[trigger] frags[k];
                &&& frag_ok(f)
                &&& 0 <= f.lo
                &&& f.hi <= start
            },
    ensures
        nfa_wf(merged_shape(frags, start)),
{
    let m = merged_shape(frags, start);
    lemma_flatten_bounded(frags, 0, start + 1);
    let tail = seq![EdgeModel { from: start, symbol: Option::None, targets: starts_of(frags) }];
    assert(edges_bounded(tail, 0, start + 1)) by {
        assert forall|j: int| 0 <= j < tail.len() implies edge_bounded(
            #[trigger] tail[j],
            0,
            start + 1,
        ) by {
            assert forall|t: int| 0 <= t < starts_of(frags).len() implies 0 <= #[trigger] starts_of(
                frags,
            )[t] < start + 1 by {
                assert(starts_of(frags)[t] == frags[t].start);
                assert(frag_ok(frags[t]));
            }
        }
    }
    lemma_edges_bounded_concat(flatten_edges(frags, 0), tail, 0, start + 1);
    assert forall|k: int| 0 <= k < m.accepts.len() implies 0 <= #[trigger] m.accepts[k]
        < m.num_states by {
        assert(m.accepts[k] == frags[k].accept);
        assert(frag_ok(frags[k]));
    }
}

impl NFABuilder {
    /// Combine the per-pattern fragments into one NFA: the next unallocated
    /// state id becomes the global start state, with an epsilon move to
    /// every fragment's start. Global id allocation keeps the fragments'
    /// transition keys disjoint, so the union of their relations is taken
    /// as it stands.
    pub(crate) fn merge_nfas(&self, nfas: &Vec<NfaFragment>) -> (m: MergedNfa)
        requires
            self.state_id < usize::MAX,
        ensures
            m.model() == merged_shape(frag_models(nfas@), self.state_id as int),
    {
        let start = self.state_id;
        let ghost frags = frag_models(nfas@);
        let mut edges: Vec<TransEntry> = Vec::new();
        let mut starts: Vec<usize> = Vec::new();
        let mut accepts: Vec<usize> = Vec::new();
        let mut i: usize = 0;
        while i < nfas.len()
            invariant
                i <= nfas@.len(),
                frags == frag_models(nfas@),
                flatten_edges(frags, 0) == edge_models(edges@) + flatten_edges(frags, i as int),
                starts@.len() == i,
                accepts@.len() == i,
                forall|k: int| 0 <= k < i ==> #[trigger] starts@[k] == nfas@[k].start,
                forall|k: int| 0 <= k < i ==> #[trigger] accepts@[k] == nfas@[k].accept,
            decreases nfas@.len() - i,
        {
            append_edges(&mut edges, &nfas[i].edges);
            starts.push(nfas[i].start);
            accepts.push(nfas[i].accept);
            proof {
                assert(flatten_edges(frags, 0) =~= edge_models(edges@) + flatten_edges(
                    frags,
                    i + 1,
                ));
            }
            i += 1;
        }
        let entry = TransEntry { from: start, symbol: None, targets: starts };
        let ghost pre = edges@;
        edges.push(entry);
        let m = MergedNfa { start, num_states: start + 1, edges, accepts };
        proof {
            assert(flatten_edges(frags, nfas@.len() as int) =~= Seq::<EdgeModel>::empty());
            assert(entry.model().targets =~= starts_of(frags));
            assert(edge_models(m.edges@) =~= edge_models(pre).push(entry.model()));
            assert(state_models(m.accepts@) =~= accepts_of(frags));
            assert(m.model() =~~= merged_shape(frags, self.state_id as int));
        }
        m
    }
}

/// Unrolling a compiled list one fragment at a time: the fragments of the
/// whole list are the fragments already built followed by those of the rest.
pub proof fn lemma_thompson_list_skip(v: Seq<RegexModel>, c: int, i: int)
    requires
        0 <= i < v.len(),
    ensures
        thompson_list(v, c).take(i + 1) == thompson_list(v, c).take(i).push(
            thompson(v[i], c + alloc_count_list(v) - alloc_count_list(v.skip(i)) - i),
        ),
        thompson_list(v, c).len() == v.len(),
    decreases i,
{
    lemma_thompson_list_ok(v, c);
    lemma_thompson_list_unfold(v, c, i);
    assert(thompson_list(v, c).take(i + 1) =~= thompson_list(v, c).take(i).push(
        thompson_list(v, c)[i],
    ));
}

/// The `i`-th fragment of a compiled list starts where the fragments before
/// it stopped.
pub proof fn lemma_thompson_list_unfold(v: Seq<RegexModel>, c: int, i: int)
    requires
        0 <= i < v.len(),
    ensures
        thompson_list(v, c).len() == v.len(),
        thompson_list(v, c)[i] == thompson(
            v[i],
            c + alloc_count_list(v) - alloc_count_list(v.skip(i)) - i,
        ),
    decreases i,
{
    lemma_thompson_list_ok(v, c);
    if i == 0 {
        assert(v.skip(0) =~= v);
    } else {
        lemma_thompson_list_unfold(v.drop_first(), c + alloc_count(v[0]), i - 1);
        assert(v.drop_first().skip(i - 1) =~= v.skip(i));
        assert(v.drop_first()[i - 1] == v[i]);
        assert(thompson_list(v, c)[i] == thompson_list(v.drop_first(), c + alloc_count(v[0]))[i
            - 1]);
    }
}

} // verus!

verus! {

// ------------------------------------------------------------------
// Semantics: the epsilon-closure simulation of a merged NFA
// ------------------------------------------------------------------

/// Is `x` reachable from the set `init` by at most `n` epsilon moves?
pub open spec fn eps_reach_n(m: NfaModel, init: Set<int>, x: int, n: nat) -> bool
    decreases n,
{
    if init.contains(x) {
        true
    } else if n == 0 {
        false
    } else {
        exists|y: int| eps_reach_n(m, init, y, (n - 1) as nat) && eps_edge(m, y, x)
    }
}

/// Is `x` reachable from `init` by epsilon moves alone?
pub open spec fn in_eclose(m: NfaModel, init: Set<int>, x: int) -> bool {
    exists|n: nat| eps_reach_n(m, init, x, n)
}

/// The epsilon-closure of `init`: the smallest superset of `init` closed
/// under epsilon transitions.
pub open spec fn eclose(m: NfaModel, init: Set<int>) -> Set<int> {
    Set::new(|x: int| in_eclose(m, init, x))
}

/// All states one transition on `c` away from the set `s`.
pub open spec fn step_set(m: NfaModel, s: Set<int>, c: char) -> Set<int> {
    Set::new(|y: int| exists|x: int| #[trigger] sym_edge(m, x, c, y) && s.contains(x))
}

/// The set of NFA states the epsilon-closure simulation reaches after
/// consuming the whole of `s` from the merged NFA's start state.
pub open spec fn run_set(m: NfaModel, s: Seq<char>) -> Set<int>
    decreases s.len(),
{
    if s.len() == 0 {
        eclose(m, set![m.start])
    } else {
        eclose(m, step_set(m, run_set(m, s.drop_last()), s.last()))
    }
}

/// The first accept state of `accepts[i..]` that lies in `s`, as an index
/// into `accepts`.
pub open spec fn winner_from(accepts: Seq<int>, s: Set<int>, i: int) -> Option<int>
    decreases accepts.len() - i,
{
    if i < 0 || i >= accepts.len() {
        Option::None
    } else if s.contains(accepts[i]) {
        Option::Some(i)
    } else {
        winner_from(accepts, s, i + 1)
    }
}

/// The winning pattern of a simulation set: the lowest registration order
/// whose accept state the set contains, if any.
pub open spec fn winner(m: NfaModel, s: Set<int>) -> Option<int> {
    winner_from(m.accepts, s, 0)
}

/// Does the epsilon-closure simulation over the merged NFA accept `s`?
pub open spec fn nfa_accepts(m: NfaModel, s: Seq<char>) -> bool {
    winner(m, run_set(m, s)) is Some
}

/// Is `r` closed under the epsilon transitions of `m`?
pub open spec fn eps_closed(m: NfaModel, r: Set<int>) -> bool {
    forall|x: int, y: int| r.contains(x) && #[trigger] eps_edge(m, x, y) ==> r.contains(y)
}

/// The closure contains what it started from.
pub proof fn lemma_eclose_contains_init(m: NfaModel, init: Set<int>, x: int)
    requires
        init.contains(x),
    ensures
        eclose(m, init).contains(x),
{
    assert(eps_reach_n(m, init, x, 0));
}

/// The closure is closed under epsilon transitions.
pub proof fn lemma_eclose_closed(m: NfaModel, init: Set<int>)
    ensures
        eps_closed(m, eclose(m, init)),
{
    assert forall|x: int, y: int|
        eclose(m, init).contains(x) && #[trigger] eps_edge(m, x, y) implies eclose(
        m,
        init,
    ).contains(y) by {
        let n = choose|n: nat| eps_reach_n(m, init, x, n);
        assert(eps_reach_n(m, init, y, n + 1));
    }
}

pub proof fn lemma_reach_in_closed(m: NfaModel, init: Set<int>, r: Set<int>, x: int, n: nat)
    requires
        init.subset_of(r),
        eps_closed(m, r),
        eps_reach_n(m, init, x, n),
    ensures
        r.contains(x),
    decreases n,
{
    if !init.contains(x) {
        let y = choose|y: int| eps_reach_n(m, init, y, (n - 1) as nat) && eps_edge(m, y, x);
        lemma_reach_in_closed(m, init, r, y, (n - 1) as nat);
    }
}

/// The closure is the smallest epsilon-closed superset.
pub proof fn lemma_eclose_minimal(m: NfaModel, init: Set<int>, r: Set<int>)
    requires
        init.subset_of(r),
        eps_closed(m, r),
    ensures
        eclose(m, init).subset_of(r),
{
    assert forall|x: int| eclose(m, init).contains(x) implies r.contains(x) by {
        let n = choose|n: nat| eps_reach_n(m, init, x, n);
        lemma_reach_in_closed(m, init, r, x, n);
    }
}

/// Nothing is epsilon-reachable from the empty set.
pub proof fn lemma_eclose_empty(m: NfaModel)
    ensures
        eclose(m, Set::empty()) =~= Set::<int>::empty(),
{
    lemma_eclose_minimal(m, Set::empty(), Set::empty());
}

/// A step away from the empty set stays empty.
pub proof fn lemma_step_empty(m: NfaModel, c: char)
    ensures
        step_set(m, Set::empty(), c) =~= Set::<int>::empty(),
{
}

/// A set without accept states has no winner.
pub proof fn lemma_winner_empty(accepts: Seq<int>, i: int)
    ensures
        winner_from(accepts, Set::empty(), i) is None,
    decreases accepts.len() - i,
{
    if 0 <= i < accepts.len() {
        lemma_winner_empty(accepts, i + 1);
    }
}

} // verus!

verus! {

// Unfoldings of the allocation count, for use inside the mutually
// recursive counting functions below, where Verus keeps recursive
// definitions closed.

pub proof fn lemma_ac_terminal(c: char)
    ensures
        alloc_count(RegexModel::Terminal(c)) == 2,
{
}

pub proof fn lemma_ac_sequence(v: Seq<RegexModel>)
    ensures
        alloc_count(RegexModel::Sequence(v)) == if v.len() == 0 {
            2int
        } else {
            1 + alloc_count_list(v)
        },
{
}

pub proof fn lemma_ac_alternation(a: Box<RegexModel>, b: Box<RegexModel>)
    ensures
        alloc_count(RegexModel::Alternation(a, b)) == alloc_count(*a) + alloc_count(*b) + 2,
{
}

pub proof fn lemma_ac_repetition(a: Box<RegexModel>)
    ensures
        alloc_count(RegexModel::Repetition(a)) == alloc_count(*a) + 2,
{
}

pub proof fn lemma_acl_skip(ms: Seq<RegexModel>, i: int)
    requires
        0 <= i < ms.len(),
    ensures
        alloc_count_list(ms.skip(i)) == alloc_count(ms[i]) + 1 + alloc_count_list(ms.skip(i + 1)),
{
    assert(ms.skip(i)[0] == ms[i]);
    assert(ms.skip(i).drop_first() =~= ms.skip(i + 1));
}

pub proof fn lemma_acl_end(ms: Seq<RegexModel>)
    ensures
        alloc_count_list(ms.skip(ms.len() as int)) == 0,
{
    assert(ms.skip(ms.len() as int) =~= Seq::<RegexModel>::empty());
}

/// How many fresh states compiling this pattern would take; `None` when
/// the count does not fit a machine word.
pub fn count_states(r: &RegexNode) -> (res: Option<usize>)
    ensures
        match res {
            Option::Some(n) => n as int == alloc_count(regex_model(*r)),
            Option::None => alloc_count(regex_model(*r)) > usize::MAX,
        },
    decreases *r, 0int,
{
    match r {
        RegexNode::Terminal(c) => {
            proof {
                crate::regex::lemma_rm_terminal(*c);
                lemma_ac_terminal(*c);
            }
            Some(2)
        },
        RegexNode::Sequence(v) => {
            proof {
                crate::regex::lemma_rm_sequence(*v);
                lemma_ac_sequence(crate::regex::regex_model_seq(v@));
                crate::regex::lemma_regex_model_seq_index(v@);
            }
            if v.len() == 0 {
                Some(2)
            } else {
                proof {
                    assert(decreases_to!(*r => (*r)->Sequence_0));
                }
                match count_list(v, 0) {
                    Some(n) => {
                        proof {
                            assert(regex_model_seq(v@).skip(0) =~= regex_model_seq(v@));
                        }
                        n.checked_add(1)
                    },
                    None => {
                        proof {
                            assert(regex_model_seq(v@).skip(0) =~= regex_model_seq(v@));
                            lemma_alloc_list_pos(regex_model_seq(v@));
                        }
                        None
                    },
                }
            }
        },
        RegexNode::Alternation(a, b) => {
            proof {
                crate::regex::lemma_rm_alternation(
                    (*r)->Alternation_0,
                    (*r)->Alternation_1,
                );
                lemma_ac_alternation(
                    Box::new(regex_model(**a)),
                    Box::new(regex_model(**b)),
                );
                lemma_alloc_pos(regex_model(**a));
                lemma_alloc_pos(regex_model(**b));
            }
            let na = match count_states(&**a) {
                Some(n) => n,
                None => {
                    return None;
                },
            };
            let nb = match count_states(&**b) {
                Some(n) => n,
                None => {
                    return None;
                },
            };
            match na.checked_add(nb) {
                Some(t) => t.checked_add(2),
                None => None,
            }
        },
        RegexNode::Repetition(a) => {
            proof {
                crate::regex::lemma_rm_repetition((*r)->Repetition_0);
                lemma_ac_repetition(Box::new(regex_model(**a)));
                lemma_alloc_pos(regex_model(**a));
            }
            match count_states(&**a) {
                Some(n) => n.checked_add(2),
                None => None,
            }
        },
    }
}

/// The states the sub-patterns from position `i` on would take, with one
/// junction state each.
fn count_list(v: &Vec<RegexNode>, i: usize) -> (res: Option<usize>)
    requires
        i <= v@.len(),
    ensures
        match res {
            Option::Some(n) => n as int == alloc_count_list(
                crate::regex::regex_model_seq(v@).skip(i as int),
            ),
            Option::None => alloc_count_list(crate::regex::regex_model_seq(v@).skip(i as int))
                > usize::MAX,
        },
    decreases *v, v@.len() - i,
{
    proof {
        crate::regex::lemma_regex_model_seq_index(v@);
    }
    if i == v.len() {
        proof {
            lemma_acl_end(crate::regex::regex_model_seq(v@));
        }
        Some(0)
    } else {
        proof {
            lemma_acl_skip(crate::regex::regex_model_seq(v@), i as int);
            lemma_alloc_pos(crate::regex::regex_model_seq(v@)[i as int]);
            lemma_alloc_list_pos(crate::regex::regex_model_seq(v@).skip(i + 1));
            assert(decreases_to!(*v => (*v)[i as int]));
        }
        let n0 = match count_states(&v[i]) {
            Some(n) => n,
            None => {
                return None;
            },
        };
        let rest = match count_list(v, i + 1) {
            Some(n) => n,
            None => {
                return None;
            },
        };
        match n0.checked_add(rest) {
            Some(t) => t.checked_add(1),
            None => None,
        }
    }
}

} // verus!

verus! {

// ------------------------------------------------------------------
// Transition keys are never inserted twice: the structural invariant of
// the transition relation, proved of the construction instead of being
// detected after the fact
// ------------------------------------------------------------------

/// No two entries of a transition relation share a `(state, symbol)` key.
pub open spec fn keys_unique(edges: Seq<EdgeModel>) -> bool {
    forall|i: int, j: int|
        #![trigger edges[i], edges[j]]
        0 <= i < j < edges.len() ==> (edges[i].from != edges[j].from || edges[i].symbol
            != edges[j].symbol)
}

/// The accept state of a fragment has no outgoing transitions.
pub open spec fn accept_no_out(f: FragModel) -> bool {
    forall|i: int| 0 <= i < f.edges.len() ==> (#[trigger] f.edges[i]).from != f.accept
}

proof fn lemma_keys_unique_concat(a: Seq<EdgeModel>, b: Seq<EdgeModel>)
    requires
        keys_unique(a),
        keys_unique(b),
        forall|i: int, j: int|
            #![trigger a[i], b[j]]
            0 <= i < a.len() && 0 <= j < b.len() ==> a[i].from != b[j].from,
    ensures
        keys_unique(a + b),
{
    let c = a + b;
    assert forall|i: int, j: int|
        #![trigger c[i], c[j]]
        0 <= i < j < c.len() implies (c[i].from != c[j].from || c[i].symbol != c[j].symbol) by {
        if j < a.len() {
            assert(c[i] == a[i] && c[j] == a[j]);
        } else if i >= a.len() {
            assert(c[i] == b[i - a.len()] && c[j] == b[j - a.len()]);
        } else {
            assert(c[i] == a[i] && c[j] == b[j - a.len()]);
        }
    }
}

/// Thompson's construction never writes a transition key twice, and its
/// fragments' accept states have no outgoing transitions.
pub proof fn lemma_thompson_keys(r: RegexModel, c: int)
    ensures
        keys_unique(thompson(r, c).edges),
        accept_no_out(thompson(r, c)),
    decreases r, 1int,
{
    lemma_thompson_ok(r, c);
    match r {
        RegexModel::Terminal(_) => {},
        RegexModel::Sequence(v) => {
            if v.len() > 0 {
                lemma_alloc_list_pos(v);
                let base = c + alloc_count_list(v) - v.len();
                lemma_thompson_list_ok(v, c);
                lemma_thompson_list_keys(v, c);
                lemma_splice_keys(thompson_list(v, c), base, 0);
                let f = thompson(r, c);
                assert(accept_no_out(f));
            }
        },
        RegexModel::Alternation(a, b) => {
            let fa = thompson(*a, c);
            let fb = thompson(*b, fa.hi);
            lemma_thompson_ok(*a, c);
            lemma_thompson_ok(*b, fa.hi);
            lemma_thompson_keys(*a, c);
            lemma_thompson_keys(*b, fa.hi);
            let tail = seq![
                EdgeModel { from: fb.hi, symbol: Option::None, targets: seq![fa.start, fb.start] },
                EdgeModel { from: fa.accept, symbol: Option::None, targets: seq![fb.hi + 1] },
                EdgeModel { from: fb.accept, symbol: Option::None, targets: seq![fb.hi + 1] },
            ];
            assert forall|i: int, j: int|
                #![trigger fa.edges[i], fb.edges[j]]
                0 <= i < fa.edges.len() && 0 <= j < fb.edges.len() implies fa.edges[i].from
                != fb.edges[j].from by {
                assert(edge_bounded(fa.edges[i], fa.lo, fa.hi));
                assert(edge_bounded(fb.edges[j], fb.lo, fb.hi));
            }
            lemma_keys_unique_concat(fa.edges, fb.edges, );
            let ab = fa.edges + fb.edges;
            assert(keys_unique(tail));
            assert forall|i: int, j: int|
                #![trigger ab[i], tail[j]]
                0 <= i < ab.len() && 0 <= j < tail.len() implies ab[i].from != tail[j].from by {
                if i < fa.edges.len() {
                    assert(ab[i] == fa.edges[i]);
                    assert(edge_bounded(fa.edges[i], fa.lo, fa.hi));
                    if j == 1 {
                        assert(fa.edges[i].from != fa.accept);
                    }
                } else {
                    assert(ab[i] == fb.edges[i - fa.edges.len()]);
                    assert(edge_bounded(fb.edges[i - fa.edges.len()], fb.lo, fb.hi));
                    if j == 2 {
                        assert(fb.edges[i - fa.edges.len()].from != fb.accept);
                    }
                }
            }
            lemma_keys_unique_concat(ab, tail);
        },
        RegexModel::Repetition(a) => {
            let inner = thompson(*a, c + 1);
            lemma_thompson_ok(*a, c + 1);
            lemma_thompson_keys(*a, c + 1);
            let tail = seq![
                EdgeModel { from: c, symbol: Option::None, targets: seq![inner.start, inner.hi] },
                EdgeModel {
                    from: inner.accept,
                    symbol: Option::None,
                    targets: seq![inner.start, inner.hi],
                },
            ];
            assert(keys_unique(tail));
            assert forall|i: int, j: int|
                #![trigger inner.edges[i], tail[j]]
                0 <= i < inner.edges.len() && 0 <= j < tail.len() implies inner.edges[i].from
                != tail[j].from by {
                assert(edge_bounded(inner.edges[i], inner.lo, inner.hi));
                if j == 1 {
                    assert(inner.edges[i].from != inner.accept);
                }
            }
            lemma_keys_unique_concat(inner.edges, tail);
        },
    }
}

/// Every fragment of a compiled list has unique keys and a closed accept
/// state, and the fragments' ranges chain left to right.
pub proof fn lemma_thompson_list_keys(v: Seq<RegexModel>, c: int)
    ensures
        forall|k: int|
            0 <= k < v.len() ==> {
                let f = #[trigger] thompson_list(v, c)[k];
                &&& keys_unique(f.edges)
                &&& accept_no_out(f)
            },
        forall|k1: int, k2: int|
            0 <= k1 < k2 < v.len() ==> #[trigger] thompson_list(v, c)[k1].hi
                <= #[trigger] thompson_list(v, c)[k2].lo,
    decreases v, 0int,
{
    lemma_thompson_list_ok(v, c);
    if v.len() > 0 {
        lemma_thompson_ok(v[0], c);
        lemma_thompson_keys(v[0], c);
        let c1 = c + alloc_count(v[0]);
        lemma_thompson_list_ok(v.drop_first(), c1);
        lemma_thompson_list_keys(v.drop_first(), c1);
        let frags = thompson_list(v, c);
        assert forall|k: int| 0 <= k < v.len() implies {
            let f = #[trigger] frags[k];
            &&& keys_unique(f.edges)
            &&& accept_no_out(f)
        } by {
            if k > 0 {
                assert(frags[k] == thompson_list(v.drop_first(), c1)[k - 1]);
            }
        }
        assert forall|k1: int, k2: int|
            0 <= k1 < k2 < v.len() implies #[trigger] frags[k1].hi <= #[trigger] frags[k2].lo by {
            if k1 == 0 {
                assert(frags[0] == thompson(v[0], c));
                assert(frags[k2] == thompson_list(v.drop_first(), c1)[k2 - 1]);
            } else {
                assert(frags[k1] == thompson_list(v.drop_first(), c1)[k1 - 1]);
                assert(frags[k2] == thompson_list(v.drop_first(), c1)[k2 - 1]);
            }
        }
    }
}

/// The spliced edges of a sequence never repeat a key: fragment ranges
/// are pairwise disjoint, junction states are fresh, and the accept
/// states being wired up had no outgoing transitions.
proof fn lemma_splice_keys(frags: Seq<FragModel>, base: int, i: int)
    requires
        0 <= i <= frags.len(),
        forall|k: int|
            0 <= k < frags.len() ==> {
                let f = #[trigger] frags[k];
                &&& frag_ok(f)
                &&& keys_unique(f.edges)
                &&& accept_no_out(f)
                &&& f.hi <= base
            },
        forall|k1: int, k2: int|
            0 <= k1 < k2 < frags.len() ==> #[trigger] frags[k1].hi <= #[trigger] frags[k2].lo,
    ensures
        keys_unique(splice_edges(frags, base, i)),
        i < frags.len() ==> forall|ei: int|
            0 <= ei < splice_edges(frags, base, i).len() ==> {
                let f = (#[trigger] splice_edges(frags, base, i)[ei]).from;
                (frags[i].lo <= f < base) || (base + i <= f < base + frags.len())
            },
    decreases frags.len() - i,
{
    if i < frags.len() {
        let f = frags[i];
        let tail = seq![
            EdgeModel { from: base + i, symbol: Option::None, targets: seq![f.start] },
            EdgeModel { from: f.accept, symbol: Option::None, targets: seq![base + i + 1] },
        ];
        let head = f.edges + tail;
        let rest = splice_edges(frags, base, i + 1);
        lemma_splice_keys(frags, base, i + 1);
        assert(keys_unique(tail));
        assert forall|a: int, b: int|
            #![trigger f.edges[a], tail[b]]
            0 <= a < f.edges.len() && 0 <= b < tail.len() implies f.edges[a].from
            != tail[b].from by {
            assert(edge_bounded(f.edges[a], f.lo, f.hi));
            if b == 1 {
                assert(f.edges[a].from != f.accept);
            }
        }
        lemma_keys_unique_concat(f.edges, tail);
        assert forall|a: int, b: int|
            #![trigger head[a], rest[b]]
            0 <= a < head.len() && 0 <= b < rest.len() implies head[a].from != rest[b].from by {
            if i + 1 < frags.len() {
                let bf = rest[b].from;
                assert((frags[i + 1].lo <= bf < base) || (base + i + 1 <= bf < base
                    + frags.len()));
                if a < f.edges.len() {
                    assert(head[a] == f.edges[a]);
                    assert(edge_bounded(f.edges[a], f.lo, f.hi));
                    assert(frags[i].hi <= frags[i + 1].lo);
                } else if a == f.edges.len() {
                    assert(head[a] == tail[0]);
                } else {
                    assert(head[a] == tail[1]);
                    assert(frags[i].hi <= frags[i + 1].lo);
                }
            } else {
                assert(rest.len() == 0);
            }
        }
        lemma_keys_unique_concat(head, rest);
        assert(splice_edges(frags, base, i) == head + rest);
        assert forall|ei: int|
            0 <= ei < splice_edges(frags, base, i).len() implies {
            let fr = (#[trigger] splice_edges(frags, base, i)[ei]).from;
            (frags[i].lo <= fr < base) || (base + i <= fr < base + frags.len())
        } by {
            let all = splice_edges(frags, base, i);
            if ei < f.edges.len() {
                assert(all[ei] == f.edges[ei]);
                assert(edge_bounded(f.edges[ei], f.lo, f.hi));
            } else if ei < head.len() {
                assert(all[ei] == tail[ei - f.edges.len()]);
            } else {
                assert(all[ei] == rest[ei - head.len()]);
                if i + 1 < frags.len() {
                    let fr = rest[ei - head.len()].from;
                    assert((frags[i + 1].lo <= fr < base) || (base + i + 1 <= fr < base
                        + frags.len()));
                    assert(frags[i].hi <= frags[i + 1].lo);
                    assert(frags[i].lo < frags[i].hi);
                }
            }
        }
    }
}

/// The concatenated relations of fragments with pairwise disjoint state
/// ranges never repeat a key.
proof fn lemma_flatten_keys(frags: Seq<FragModel>, i: int)
    requires
        0 <= i <= frags.len(),
        forall|k: int|
            0 <= k < frags.len() ==> {
                let f = #[trigger] frags[k];
                &&& frag_ok(f)
                &&& keys_unique(f.edges)
            },
        forall|k1: int, k2: int|
            0 <= k1 < k2 < frags.len() ==> #[trigger] frags[k1].hi <= #[trigger] frags[k2].lo,
    ensures
        keys_unique(flatten_edges(frags, i)),
        i < frags.len() ==> forall|ei: int|
            0 <= ei < flatten_edges(frags, i).len() ==> (#[trigger] flatten_edges(
                frags,
                i,
            )[ei]).from >= frags[i].lo,
    decreases frags.len() - i,
{
    if i < frags.len() {
        let f = frags[i];
        let rest = flatten_edges(frags, i + 1);
        lemma_flatten_keys(frags, i + 1);
        assert forall|a: int, b: int|
            #![trigger f.edges[a], rest[b]]
            0 <= a < f.edges.len() && 0 <= b < rest.len() implies f.edges[a].from
            != rest[b].from by {
            assert(edge_bounded(f.edges[a], f.lo, f.hi));
            assert(rest[b].from >= frags[i + 1].lo);
            assert(frags[i].hi <= frags[i + 1].lo);
        }
        lemma_keys_unique_concat(f.edges, rest);
        assert forall|ei: int|
            0 <= ei < flatten_edges(frags, i).len() implies (#[trigger] flatten_edges(
            frags,
            i,
        )[ei]).from >= frags[i].lo by {
            let all = flatten_edges(frags, i);
            if ei < f.edges.len() {
                assert(all[ei] == f.edges[ei]);
                assert(edge_bounded(f.edges[ei], f.lo, f.hi));
            } else {
                assert(all[ei] == rest[ei - f.edges.len()]);
                assert(rest[ei - f.edges.len()].from >= frags[i + 1].lo);
                assert(frags[i].hi <= frags[i + 1].lo);
                assert(frags[i].lo < frags[i].hi);
            }
        }
    }
}

/// Merging fragments with globally fresh state ids never collides on a
/// transition key: the relation of the merged NFA is key-unique.
pub proof fn lemma_merged_keys_unique(frags: Seq<FragModel>, start: int)
    requires
        start >= 0,
        forall|k: int|
            0 <= k < frags.len() ==> {
                let f = #[trigger] frags[k];
                &&& frag_ok(f)
                &&& keys_unique(f.edges)
                &&& 0 <= f.lo
                &&& f.hi <= start
            },
        forall|k1: int, k2: int|
            0 <= k1 < k2 < frags.len() ==> #[trigger] frags[k1].hi <= #[trigger] frags[k2].lo,
    ensures
        keys_unique(merged_shape(frags, start).edges),
{
    let flat = flatten_edges(frags, 0);
    lemma_flatten_keys(frags, 0);
    lemma_flatten_bounded(frags, 0, start);
    let tail = seq![EdgeModel { from: start, symbol: Option::None, targets: starts_of(frags) }];
    assert(keys_unique(tail));
    assert forall|a: int, b: int|
        #![trigger flat[a], tail[b]]
        0 <= a < flat.len() && 0 <= b < tail.len() implies flat[a].from != tail[b].from by {
        assert(edge_bounded(flat[a], 0, start));
    }
    lemma_keys_unique_concat(flat, tail);
}

} // verus!
