//! Determinization: subset construction over a merged NFA.
//!
//! A DFA state is the epsilon-closure of a subset of NFA states, held as a
//! bitmap; identical subsets collapse to one DFA state. A DFA state is
//! accepting iff its subset contains an accept state of the NFA, and the
//! winning token is the one with the lowest registration order among them.

use vstd::prelude::*;
use vstd::pervasive::VecAdditionalExecFns;

use crate::nfa::{
    eclose, entry_links, eps_closed, eps_edge, in_eclose, lemma_eclose_empty,
    lemma_eclose_minimal, lemma_step_empty, lemma_winner_empty, nfa_accepts, nfa_wf, run_set,
    step_set, sym_edge, winner, winner_from, MergedNfa, NfaModel,
};

verus! {

/// The set of NFA states a bitmap holds.
pub open spec fn bitmap_set(b: Seq<bool>) -> Set<int> {
    Set::new(|x: int| 0 <= x < b.len() && b[x])
}

/// How many states a bitmap holds.
pub open spec fn count_true(b: Seq<bool>) -> int
    decreases b.len(),
{
    if b.len() == 0 {
        0
    } else {
        count_true(b.drop_last()) + if b.last() {
            1int
        } else {
            0int
        }
    }
}

pub proof fn lemma_count_true_bound(b: Seq<bool>)
    ensures
        0 <= count_true(b) <= b.len(),
    decreases b.len(),
{
    if b.len() > 0 {
        lemma_count_true_bound(b.drop_last());
    }
}

pub proof fn lemma_count_true_update(b: Seq<bool>, i: int)
    requires
        0 <= i < b.len(),
        !b[i],
    ensures
        count_true(b.update(i, true)) == count_true(b) + 1,
    decreases b.len(),
{
    let u = b.update(i, true);
    if i == b.len() - 1 {
        assert(u.drop_last() =~= b.drop_last());
    } else {
        assert(u.drop_last() =~= b.drop_last().update(i, true));
        lemma_count_true_update(b.drop_last(), i);
    }
}

/// A pointwise-larger bitmap holds at least as many states, and exactly as
/// many only if the bitmaps agree.
proof fn lemma_count_true_mono(a: Seq<bool>, b: Seq<bool>)
    requires
        a.len() == b.len(),
        forall|k: int| 0 <= k < a.len() && a[k] ==> b[k],
    ensures
        count_true(a) <= count_true(b),
        count_true(a) == count_true(b) ==> a == b,
    decreases a.len(),
{
    if a.len() > 0 {
        assert forall|k: int|
            0 <= k < a.drop_last().len() && a.drop_last()[k] implies b.drop_last()[k] by {
            assert(a[k] == a.drop_last()[k]);
        }
        lemma_count_true_mono(a.drop_last(), b.drop_last());
        if count_true(a) == count_true(b) {
            assert(a[a.len() - 1] && !b[a.len() - 1] ==> false);
            assert(a.last() == b.last());
            assert(count_true(a.drop_last()) == count_true(b.drop_last()));
            assert(a.drop_last() == b.drop_last());
            assert forall|k: int| 0 <= k < a.len() implies a[k] == b[k] by {
                if k < a.len() - 1 {
                    assert(a.drop_last()[k] == b.drop_last()[k]);
                }
            }
            assert(a =~= b);
        }
    } else {
        if count_true(a) == count_true(b) {
            assert(a =~= b);
        }
    }
}

/// A bitmap of `n` unset bits.
fn new_bitmap(n: usize) -> (r: Vec<bool>)
    ensures
        r@.len() == n,
        forall|k: int| 0 <= k < n ==> !r@[k],
{
    let mut r: Vec<bool> = Vec::new();
    let mut i: usize = 0;
    while i < n
        invariant
            i <= n,
            r@.len() == i,
            forall|k: int| 0 <= k < i ==> !r@[k],
        decreases n - i,
    {
        r.push(false);
        i += 1;
    }
    r
}

/// Duplicate a bitmap.
fn copy_bitmap(b: &Vec<bool>) -> (r: Vec<bool>)
    ensures
        r@ == b@,
{
    let mut r: Vec<bool> = Vec::new();
    let mut i: usize = 0;
    while i < b.len()
        invariant
            i <= b@.len(),
            r@ == b@.take(i as int),
        decreases b@.len() - i,
    {
        r.push(b[i]);
        proof {
            assert(r@ =~= b@.take(i + 1));
        }
        i += 1;
    }
    proof {
        assert(r@ =~= b@);
    }
    r
}

/// Do two bitmaps hold the same bits?
fn bitmaps_equal(a: &Vec<bool>, b: &Vec<bool>) -> (r: bool)
    requires
        a@.len() == b@.len(),
    ensures
        r <==> a@ == b@,
{
    let mut i: usize = 0;
    while i < a.len()
        invariant
            i <= a@.len(),
            a@.len() == b@.len(),
            forall|k: int| 0 <= k < i ==> a@[k] == b@[k],
        decreases a@.len() - i,
    {
        if a[i] != b[i] {
            return false;
        }
        i += 1;
    }
    proof {
        assert(a@ =~= b@);
    }
    true
}

/// Is the bitmap all zero?
fn bitmap_is_empty(b: &Vec<bool>) -> (r: bool)
    ensures
        r <==> bitmap_set(b@) == Set::<int>::empty(),
{
    let mut i: usize = 0;
    while i < b.len()
        invariant
            i <= b@.len(),
            forall|k: int| 0 <= k < i ==> !b@[k],
        decreases b@.len() - i,
    {
        if b[i] {
            proof {
                assert(bitmap_set(b@).contains(i as int));
            }
            return false;
        }
        i += 1;
    }
    proof {
        assert(bitmap_set(b@) =~= Set::<int>::empty());
    }
    true
}

proof fn lemma_push_keeps_contains(s: Seq<usize>, v: usize, k: usize)
    requires
        s.contains(k),
    ensures
        s.push(v).contains(k),
{
    let j = choose|j: int| 0 <= j < s.len() && s[j] == k;
    assert(s.push(v)[j] == k);
}

/// One more epsilon move stays inside the closure.
proof fn lemma_in_eclose_step(m: NfaModel, init: Set<int>, x: int, y: int)
    requires
        in_eclose(m, init, x),
        eps_edge(m, x, y),
    ensures
        in_eclose(m, init, y),
{
    let n = choose|n: nat| crate::nfa::eps_reach_n(m, init, x, n);
    assert(crate::nfa::eps_reach_n(m, init, y, n + 1));
}

/// Compute the epsilon-closure of the states of a bitmap, by worklist.
pub(crate) fn closure(m: &MergedNfa, init: &Vec<bool>) -> (r: Vec<bool>)
    requires
        nfa_wf(m.model()),
        init@.len() == m.num_states,
    ensures
        r@.len() == m.num_states,
        bitmap_set(r@) == eclose(m.model(), bitmap_set(init@)),
{
    let ghost mm = m.model();
    let ghost iset = bitmap_set(init@);
    let n = m.num_states;
    let mut marks: Vec<bool> = Vec::new();
    let mut stack: Vec<usize> = Vec::new();
    let mut i: usize = 0;
    while i < n
        invariant
            i <= n,
            init@.len() == n,
            marks@.len() == i,
            forall|k: int| 0 <= k < i ==> marks@[k] == init@[k],
            forall|j: int| 0 <= j < stack@.len() ==> 0 <= #[trigger] stack@[j] < i,
            forall|j: int| 0 <= j < stack@.len() ==> marks@[#[trigger] stack@[j] as int],
            forall|k: int| 0 <= k < i && marks@[k] ==> stack@.contains(k as usize),
        decreases n - i,
    {
        let ghost spre = stack@;
        marks.push(init[i]);
        if init[i] {
            stack.push(i);
        }
        proof {
            assert forall|k: int|
                0 <= k < i + 1 && marks@[k] implies stack@.contains(k as usize) by {
                if k < i {
                    if stack@ != spre {
                        lemma_push_keeps_contains(spre, i, k as usize);
                    }
                } else {
                    assert(stack@[spre.len() as int] == i as usize);
                }
            }
        }
        i += 1;
    }
    proof {
        assert forall|k: int| 0 <= k < n && marks@[k] implies in_eclose(mm, iset, k) by {
            assert(bitmap_set(init@).contains(k));
            assert(crate::nfa::eps_reach_n(mm, iset, k, 0));
        }
    }
    while stack.len() > 0
        invariant
            marks@.len() == n,
            init@.len() == n,
            nfa_wf(mm),
            mm == m.model(),
            iset == bitmap_set(init@),
            n == m.num_states,
            forall|j: int| 0 <= j < stack@.len() ==> 0 <= #[trigger] stack@[j] < n,
            forall|j: int| 0 <= j < stack@.len() ==> marks@[#[trigger] stack@[j] as int],
            forall|k: int| 0 <= k < n && init@[k] ==> marks@[k],
            forall|k: int| 0 <= k < n && marks@[k] ==> in_eclose(mm, iset, k),
            forall|x: int, y: int|
                (0 <= x < n && marks@[x] && !stack@.contains(x as usize) && #[trigger] eps_edge(
                    mm,
                    x,
                    y,
                )) ==> (0 <= y < n && marks@[y]),
        decreases n - count_true(marks@), stack@.len(),
    {
        proof {
            lemma_count_true_bound(marks@);
        }
        let ghost marks0 = marks@;
        let ghost stack_pre = stack@;
        let x = stack[stack.len() - 1];
        stack.pop();
        let ghost stack0 = stack@;
        proof {
            assert(stack0 =~= stack_pre.drop_last());
            assert forall|x2: int, y: int|
                (0 <= x2 < n && marks0[x2] && x2 != x && !stack0.contains(x2 as usize)
                    && #[trigger] eps_edge(mm, x2, y)) implies (0 <= y < n && marks@[y]) by {
                if stack_pre.contains(x2 as usize) {
                    let j = choose|j: int| 0 <= j < stack_pre.len() && stack_pre[j] == x2 as usize;
                    if j < stack_pre.len() - 1 {
                        assert(stack0[j] == x2 as usize);
                        assert(stack0.contains(x2 as usize));
                    } else {
                        assert(stack_pre[stack_pre.len() - 1] == x);
                    }
                }
            }
        }
        let mut e: usize = 0;
        while e < m.edges.len()
            invariant
                marks@.len() == n,
                nfa_wf(mm),
                mm == m.model(),
                n == m.num_states,
                0 <= x < n,
                e <= m.edges@.len(),
                mm.edges.len() == m.edges@.len(),
                forall|j: int| 0 <= j < stack@.len() ==> 0 <= #[trigger] stack@[j] < n,
                forall|j: int| 0 <= j < stack@.len() ==> marks@[#[trigger] stack@[j] as int],
                forall|k: int| 0 <= k < n && init@[k] ==> marks@[k],
                init@.len() == n,
                iset == bitmap_set(init@),
                forall|k: int| 0 <= k < n && marks@[k] ==> in_eclose(mm, iset, k),
                // marks only grow, and the stack grows with them
                forall|k: int| 0 <= k < n && marks0[k] ==> marks@[k],
                count_true(marks@) >= count_true(marks0),
                stack@.len() <= stack0.len() + count_true(marks@) - count_true(marks0),
                marks@ == marks0 ==> stack@ == stack0,
                forall|k: usize| stack0.contains(k) ==> stack@.contains(k),
                // states settled before this pop stay settled
                forall|x2: int, y: int|
                    (0 <= x2 < n && marks0[x2] && x2 != x && !stack0.contains(x2 as usize)
                        && #[trigger] eps_edge(mm, x2, y)) ==> (0 <= y < n && marks@[y]),
                // newly marked states are on the stack
                forall|k: int|
                    0 <= k < n && marks@[k] && !marks0[k] ==> stack@.contains(k as usize),
                // the epsilon successors of x seen so far are marked
                forall|ei: int, y: int|
                    (0 <= ei < e && #[trigger] entry_links(mm.edges[ei], x as int, Option::None, y))
                        ==> (0 <= y < n && marks@[y]),
                marks@[x as int],
            decreases m.edges@.len() - e,
        {
            let is_eps = m.edges[e].symbol.is_none();
            if is_eps && m.edges[e].from == x {
                let ghost pre_marks = marks@;
                let mut t: usize = 0;
                while t < m.edges[e].targets.len()
                    invariant
                        marks@.len() == n,
                        nfa_wf(mm),
                        mm == m.model(),
                        n == m.num_states,
                        0 <= x < n,
                        0 <= e < m.edges@.len(),
                        mm.edges.len() == m.edges@.len(),
                        t <= m.edges@[e as int].targets@.len(),
                        m.edges@[e as int].symbol is None,
                        m.edges@[e as int].from == x,
                        mm.edges[e as int] == m.edges@[e as int].model(),
                        forall|j: int| 0 <= j < stack@.len() ==> 0 <= #[trigger] stack@[j] < n,
                        forall|j: int| 0 <= j < stack@.len() ==> marks@[#[trigger] stack@[j] as int],
                        forall|k: int| 0 <= k < n && init@[k] ==> marks@[k],
                        init@.len() == n,
                        iset == bitmap_set(init@),
                        forall|k: int| 0 <= k < n && marks@[k] ==> in_eclose(mm, iset, k),
                        forall|k: int| 0 <= k < n && marks0[k] ==> marks@[k],
                        forall|k: int| 0 <= k < n && pre_marks[k] ==> marks@[k],
                        count_true(marks@) >= count_true(marks0),
                        stack@.len() <= stack0.len() + count_true(marks@) - count_true(marks0),
                        marks@ == marks0 ==> stack@ == stack0,
                        forall|k: usize| stack0.contains(k) ==> stack@.contains(k),
                        forall|x2: int, y: int|
                            (0 <= x2 < n && marks0[x2] && x2 != x && !stack0.contains(x2 as usize)
                                && #[trigger] eps_edge(mm, x2, y)) ==> (0 <= y < n && marks@[y]),
                        forall|k: int|
                            0 <= k < n && marks@[k] && !marks0[k] ==> stack@.contains(k as usize),
                        forall|ei: int, y: int|
                            (0 <= ei < e && #[trigger] entry_links(
                                mm.edges[ei],
                                x as int,
                                Option::None,
                                y,
                            )) ==> (0 <= y < n && marks@[y]),
                        // targets seen so far are marked
                        forall|tj: int|
                            0 <= tj < t ==> {
                                let y = #[trigger] m.edges@[e as int].model().targets[tj];
                                0 <= y < n && marks@[y]
                            },
                        marks@[x as int],
                    decreases m.edges@[e as int].targets@.len() - t,
                {
                    let y = m.edges[e].targets[t];
                    proof {
                        assert(mm.edges[e as int].targets[t as int] == y as int);
                        assert(mm.edges[e as int].targets.contains(y as int));
                        assert(entry_links(
                            mm.edges[e as int],
                            x as int,
                            Option::None,
                            y as int,
                        ));
                        assert(crate::nfa::edge_bounded(mm.edges[e as int], 0, mm.num_states));
                        assert(eps_edge(mm, x as int, y as int));
                        lemma_in_eclose_step(mm, iset, x as int, y as int);
                    }
                    if !marks[y] {
                        proof {
                            lemma_count_true_update(marks@, y as int);
                        }
                        let ghost spre = stack@;
                        marks.set(y, true);
                        stack.push(y);
                        proof {
                            assert forall|k: int|
                                0 <= k < n && marks@[k] && !marks0[k] implies stack@.contains(
                                k as usize,
                            ) by {
                                if k != y {
                                    lemma_push_keeps_contains(spre, y, k as usize);
                                } else {
                                    assert(stack@[spre.len() as int] == y);
                                }
                            }
                            assert forall|k: usize| stack0.contains(k) implies stack@.contains(
                                k,
                            ) by {
                                lemma_push_keeps_contains(spre, y, k);
                            }
                        }
                    }
                    t += 1;
                }
            }
            e += 1;
        }
        proof {
            // every epsilon successor of x is now marked
            assert forall|y: int| #[trigger] eps_edge(mm, x as int, y) implies (0 <= y < n
                && marks@[y]) by {
                let i2 = choose|i2: int|
                    0 <= i2 < mm.edges.len() && #[trigger] entry_links(
                        mm.edges[i2],
                        x as int,
                        Option::None,
                        y,
                    );
            }
            assert forall|x2: int, y: int|
                (0 <= x2 < n && marks@[x2] && !stack@.contains(x2 as usize) && #[trigger] eps_edge(
                    mm,
                    x2,
                    y,
                )) implies (0 <= y < n && marks@[y]) by {
                if x2 == x {
                } else if marks0[x2] {
                    assert(!stack0.contains(x2 as usize));
                } else {
                    assert(stack@.contains(x2 as usize));
                }
            }
            lemma_count_true_bound(marks@);
            lemma_count_true_mono(marks0, marks@);
        }
    }
    proof {
        let rset = bitmap_set(marks@);
        assert(iset.subset_of(rset));
        assert(eps_closed(mm, rset)) by {
            assert forall|x: int, y: int|
                rset.contains(x) && #[trigger] eps_edge(mm, x, y) implies rset.contains(y) by {
                assert(marks@[x]);
                assert(!stack@.contains(x as usize));
            }
        }
        lemma_eclose_minimal(mm, iset, rset);
        assert forall|x: int| rset.contains(x) implies eclose(mm, iset).contains(x) by {
            assert(in_eclose(mm, iset, x));
        }
        assert(bitmap_set(marks@) =~= eclose(mm, iset));
    }
    marks
}

/// Does the list of states contain `y`?
fn states_contain(v: &Vec<usize>, y: usize) -> (r: bool)
    ensures
        r <==> v@.contains(y),
{
    let mut i: usize = 0;
    while i < v.len()
        invariant
            i <= v@.len(),
            forall|k: int| 0 <= k < i ==> v@[k] != y,
        decreases v@.len() - i,
    {
        if v[i] == y {
            proof {
                assert(v@[i as int] == y);
            }
            return true;
        }
        i += 1;
    }
    false
}

/// Does some state of `b` move to `y` on `c`?
fn moves_into(m: &MergedNfa, b: &Vec<bool>, c: char, y: usize) -> (r: bool)
    requires
        nfa_wf(m.model()),
        b@.len() == m.num_states,
    ensures
        r <==> step_set(m.model(), bitmap_set(b@), c).contains(y as int),
{
    let ghost mm = m.model();
    let ghost bset = bitmap_set(b@);
    let mut e: usize = 0;
    while e < m.edges.len()
        invariant
            e <= m.edges@.len(),
            nfa_wf(mm),
            mm == m.model(),
            bset == bitmap_set(b@),
            b@.len() == m.num_states,
            mm.edges.len() == m.edges@.len(),
            forall|i: int, x: int|
                0 <= i < e && bset.contains(x) ==> !(#[trigger] entry_links(
                    mm.edges[i],
                    x,
                    Option::Some(c),
                    y as int,
                )),
        decreases m.edges@.len() - e,
    {
        let matches_c = match m.edges[e].symbol {
            Some(c2) => c2 == c,
            None => false,
        };
        proof {
            assert(crate::nfa::edge_bounded(mm.edges[e as int], 0, mm.num_states));
        }
        let from = m.edges[e].from;
        if matches_c && b[from] {
            if states_contain(&m.edges[e].targets, y) {
                proof {
                    let tj = choose|tj: int|
                        0 <= tj < m.edges@[e as int].targets@.len() && m.edges@[e as int].targets@[tj] == y;
                    assert(mm.edges[e as int].targets[tj] == y as int);
                    assert(mm.edges[e as int].targets.contains(y as int));
                    assert(entry_links(mm.edges[e as int], from as int, Option::Some(c), y as int));
                    assert(sym_edge(mm, from as int, c, y as int));
                    assert(step_set(mm, bset, c).contains(y as int));
                }
                return true;
            }
        }
        proof {
            assert forall|i: int, x: int|
                0 <= i < e + 1 && bset.contains(x) implies !(#[trigger] entry_links(
                mm.edges[i],
                x,
                Option::Some(c),
                y as int,
            )) by {
                if i == e {
                    if entry_links(mm.edges[i], x, Option::Some(c), y as int) {
                        assert(x == from as int);
                        assert(mm.edges[e as int].symbol == Option::Some(c));
                        let ei = e as int;
                        let tj = choose|tj: int|
                            0 <= tj < mm.edges[ei].targets.len() && mm.edges[ei].targets[tj]
                                == y as int;
                        assert(m.edges@[e as int].targets@[tj] == y);
                        assert(m.edges@[e as int].targets@.contains(y));
                        assert(false);
                    }
                }
            }
        }
        e += 1;
    }
    proof {
        if step_set(mm, bset, c).contains(y as int) {
            let x = choose|x: int| #[trigger] sym_edge(mm, x, c, y as int) && bset.contains(x);
            let i = choose|i: int|
                0 <= i < mm.edges.len() && #[trigger] entry_links(
                    mm.edges[i],
                    x,
                    Option::Some(c),
                    y as int,
                );
        }
    }
    false
}

/// Mark every state one `c`-transition away from the states of `b`.
pub(crate) fn step_exec(m: &MergedNfa, b: &Vec<bool>, c: char) -> (r: Vec<bool>)
    requires
        nfa_wf(m.model()),
        b@.len() == m.num_states,
    ensures
        r@.len() == m.num_states,
        bitmap_set(r@) == step_set(m.model(), bitmap_set(b@), c),
{
    let ghost mm = m.model();
    let ghost bset = bitmap_set(b@);
    let n = m.num_states;
    let mut out: Vec<bool> = Vec::new();
    let mut y: usize = 0;
    while y < n
        invariant
            y <= n,
            n == m.num_states,
            nfa_wf(mm),
            mm == m.model(),
            bset == bitmap_set(b@),
            b@.len() == n,
            out@.len() == y,
            forall|k: int| 0 <= k < y ==> (out@[k] <==> step_set(mm, bset, c).contains(k)),
        decreases n - y,
    {
        let hit = moves_into(m, b, c, y);
        out.push(hit);
        y += 1;
    }
    proof {
        assert forall|k: int| step_set(mm, bset, c).contains(k) implies 0 <= k < n by {
            let x = choose|x: int| #[trigger] sym_edge(mm, x, c, k) && bset.contains(x);
            let i = choose|i: int|
                0 <= i < mm.edges.len() && #[trigger] entry_links(mm.edges[i], x, Option::Some(c), k);
            assert(crate::nfa::edge_bounded(mm.edges[i], 0, mm.num_states));
            let tj = choose|tj: int|
                0 <= tj < mm.edges[i].targets.len() && mm.edges[i].targets[tj] == k;
        }
        assert(bitmap_set(out@) =~= step_set(mm, bset, c));
    }
    out
}

/// Does the character occur on any transition of the NFA?
pub open spec fn in_alphabet(m: NfaModel, c: char) -> bool {
    exists|i: int| 0 <= i < m.edges.len() && #[trigger] m.edges[i].symbol == Option::Some(c)
}

/// A character off the alphabet moves nowhere.
pub proof fn lemma_off_alphabet_step_empty(m: NfaModel, s: Set<int>, c: char)
    requires
        !in_alphabet(m, c),
    ensures
        step_set(m, s, c) =~= Set::<int>::empty(),
{
    assert forall|y: int| !step_set(m, s, c).contains(y) by {
        if step_set(m, s, c).contains(y) {
            let x = choose|x: int| #[trigger] sym_edge(m, x, c, y) && s.contains(x);
            let i = choose|i: int|
                0 <= i < m.edges.len() && #[trigger] entry_links(m.edges[i], x, Option::Some(c), y);
            assert(m.edges[i].symbol == Option::Some(c));
        }
    }
}

/// Is `c` among the characters collected so far?
fn contains_char(v: &Vec<char>, c: char) -> (r: bool)
    ensures
        r <==> v@.contains(c),
{
    let mut i: usize = 0;
    while i < v.len()
        invariant
            i <= v@.len(),
            forall|k: int| 0 <= k < i ==> v@[k] != c,
        decreases v@.len() - i,
    {
        if v[i] == c {
            proof {
                assert(v@[i as int] == c);
            }
            return true;
        }
        i += 1;
    }
    false
}

/// Collect every input character that occurs in the NFA's transition
/// relation: the alphabet the subset construction explores.
fn alphabet(m: &MergedNfa) -> (r: Vec<char>)
    ensures
        forall|c: char| r@.contains(c) <==> in_alphabet(m.model(), c),
{
    let ghost mm = m.model();
    let mut r: Vec<char> = Vec::new();
    let mut e: usize = 0;
    while e < m.edges.len()
        invariant
            e <= m.edges@.len(),
            mm == m.model(),
            mm.edges.len() == m.edges@.len(),
            forall|c: char|
                r@.contains(c) <==> exists|i: int|
                    0 <= i < e && #[trigger] mm.edges[i].symbol == Option::Some(c),
        decreases m.edges@.len() - e,
    {
        let ghost rpre = r@;
        let sym = m.edges[e].symbol;
        if let Some(c) = sym {
            if !contains_char(&r, c) {
                r.push(c);
            }
        }
        proof {
            assert forall|c: char|
                r@.contains(c) <==> exists|i: int|
                    0 <= i < e + 1 && #[trigger] mm.edges[i].symbol == Option::Some(c) by {
                if r@.contains(c) {
                    if rpre.contains(c) {
                        let i = choose|i: int|
                            0 <= i < e && #[trigger] mm.edges[i].symbol == Option::Some(c);
                    } else {
                        let j = choose|j: int| 0 <= j < r@.len() && r@[j] == c;
                        assert(r@[r@.len() - 1] == c);
                        assert(mm.edges[e as int].symbol == Option::Some(c));
                    }
                }
                if exists|i: int|
                    0 <= i < e + 1 && #[trigger] mm.edges[i].symbol == Option::Some(c) {
                    let i = choose|i: int|
                        0 <= i < e + 1 && #[trigger] mm.edges[i].symbol == Option::Some(c);
                    if i < e {
                        assert(rpre.contains(c));
                        if r@ != rpre {
                            let j = choose|j: int| 0 <= j < rpre.len() && rpre[j] == c;
                            assert(r@[j] == c);
                        }
                    } else {
                        if rpre.contains(c) {
                            let j = choose|j: int| 0 <= j < rpre.len() && rpre[j] == c;
                            if r@ != rpre {
                                assert(r@[j] == c);
                            }
                        } else {
                            assert(r@[r@.len() - 1] == c);
                        }
                    }
                }
            }
        }
        e += 1;
    }
    r
}

// ------------------------------------------------------------------
// The deterministic automaton
// ------------------------------------------------------------------

/// One DFA state: the epsilon-closure of a subset of NFA states (as a
/// bitmap), its winning pattern if the subset holds an accept state, and
/// its outgoing transitions (no two entries share a character).
pub struct DfaState {
    pub subset: Vec<bool>,
    pub accept: Option<usize>,
    pub trans: Vec<(char, usize)>,
}

/// The deterministic automaton subset construction builds; state 0 is the
/// start state.
pub struct Dfa {
    pub num_nfa_states: usize,
    pub states: Vec<DfaState>,
}

/// The first transition for `c` in `trans[i..]`.
pub open spec fn lookup_from(trans: Seq<(char, usize)>, c: char, i: int) -> Option<usize>
    decreases trans.len() - i,
{
    if i < 0 || i >= trans.len() {
        Option::None
    } else if trans[i].0 == c {
        Option::Some(trans[i].1)
    } else {
        lookup_from(trans, c, i + 1)
    }
}

/// The DFA transition function.
pub open spec fn dfa_lookup(d: Dfa, st: int, c: char) -> Option<usize> {
    lookup_from(d.states@[st].trans@, c, 0)
}

/// The accept marking of a DFA state is the winner of its subset.
pub open spec fn accept_matches(m: NfaModel, s: DfaState) -> bool {
    match winner(m, bitmap_set(s.subset@)) {
        Option::Some(i) => s.accept == Option::Some(i as usize),
        Option::None => s.accept is None,
    }
}

/// Transitions of state `st` of the states list are exactly the subset
/// construction's: present iff the closure of the move is nonempty, and
/// then leading to the state holding that closure.
pub open spec fn state_trans_ok(states: Seq<DfaState>, m: NfaModel, st: int, c: char) -> bool {
    match lookup_from(states[st].trans@, c, 0) {
        Option::Some(t) => 0 <= t < states.len() && bitmap_set(states[t as int].subset@) == eclose(
            m,
            step_set(m, bitmap_set(states[st].subset@), c),
        ),
        Option::None => eclose(m, step_set(m, bitmap_set(states[st].subset@), c)) == Set::<
            int,
        >::empty(),
    }
}

/// A DFA as subset construction leaves it: state 0 holds the closure of
/// the NFA's start state, every state's accept marking is its subset's
/// winner, and every transition is the closure of the corresponding move.
pub open spec fn dfa_wf(d: Dfa, m: NfaModel) -> bool {
    &&& d.states@.len() >= 1
    &&& bitmap_set(d.states@[0].subset@) == eclose(m, set![m.start])
    &&& forall|st: int|
        0 <= st < d.states@.len() ==> #[trigger] d.states@[st].subset@.len() == m.num_states
    &&& forall|st: int| 0 <= st < d.states@.len() ==> accept_matches(m, #[trigger] d.states@[st])
    &&& forall|st: int, c: char|
        0 <= st < d.states@.len() ==> #[trigger] state_trans_ok(d.states@, m, st, c)
}

/// Appending a transition leaves earlier characters' lookups alone and
/// serves `c` itself only where no entry served it yet.
proof fn lemma_lookup_push(trans: Seq<(char, usize)>, p: (char, usize), c: char, i: int)
    requires
        0 <= i <= trans.len(),
    ensures
        lookup_from(trans.push(p), c, i) == (match lookup_from(trans, c, i) {
            Option::Some(t) => Option::Some(t),
            Option::None => if p.0 == c {
                Option::Some(p.1)
            } else {
                Option::None
            },
        }),
    decreases trans.len() - i,
{
    if i < trans.len() {
        assert(trans.push(p)[i] == trans[i]);
        lemma_lookup_push(trans, p, c, i + 1);
    } else {
        assert(trans.push(p)[i] == p);
        assert(lookup_from(trans.push(p), c, i + 1) is None);
        assert(lookup_from(trans, c, i) is None);
    }
}

/// The winner of a pattern-accept list over a set: computed.
pub(crate) fn compute_accept(m: &MergedNfa, b: &Vec<bool>) -> (r: Option<usize>)
    requires
        nfa_wf(m.model()),
        b@.len() == m.num_states,
    ensures
        match winner(m.model(), bitmap_set(b@)) {
            Option::Some(i) => r == Option::Some(i as usize),
            Option::None => r is None,
        },
{
    let ghost mm = m.model();
    let ghost bset = bitmap_set(b@);
    let mut i: usize = 0;
    while i < m.accepts.len()
        invariant
            i <= m.accepts@.len(),
            nfa_wf(mm),
            mm == m.model(),
            bset == bitmap_set(b@),
            b@.len() == m.num_states,
            mm.accepts.len() == m.accepts@.len(),
            winner(mm, bset) == winner_from(mm.accepts, bset, i as int),
        decreases m.accepts@.len() - i,
    {
        let a = m.accepts[i];
        proof {
            assert(mm.accepts[i as int] == a as int);
        }
        if b[a] {
            proof {
                assert(bset.contains(a as int));
            }
            return Some(i);
        }
        proof {
            assert(!bset.contains(a as int));
        }
        i += 1;
    }
    None
}

/// Find a DFA state already holding this subset, if any.
pub(crate) fn find_subset(states: &Vec<DfaState>, b: &Vec<bool>) -> (r: Option<usize>)
    requires
        forall|st: int|
            0 <= st < states@.len() ==> #[trigger] states@[st].subset@.len() == b@.len(),
    ensures
        match r {
            Option::Some(t) => 0 <= t < states@.len() && states@[t as int].subset@ == b@,
            Option::None => forall|st: int|
                0 <= st < states@.len() ==> #[trigger] states@[st].subset@ != b@,
        },
{
    let mut i: usize = 0;
    while i < states.len()
        invariant
            i <= states@.len(),
            forall|st: int|
                0 <= st < states@.len() ==> #[trigger] states@[st].subset@.len() == b@.len(),
            forall|st: int| 0 <= st < i ==> #[trigger] states@[st].subset@ != b@,
        decreases states@.len() - i,
    {
        if bitmaps_equal(&states[i].subset, b) {
            return Some(i);
        }
        i += 1;
    }
    None
}

// ------------------------------------------------------------------
// At most 2^n distinct subsets: the construction terminates
// ------------------------------------------------------------------

/// Two to the `n`-th.
pub open spec fn two_pow(n: nat) -> int
    decreases n,
{
    if n == 0 {
        1
    } else {
        2 * two_pow((n - 1) as nat)
    }
}

proof fn lemma_two_pow_pos(n: nat)
    ensures
        two_pow(n) >= 1,
    decreases n,
{
    if n > 0 {
        lemma_two_pow_pos((n - 1) as nat);
    }
}

/// A bitmap read as a binary number, lowest index first.
spec fn bits_val(b: Seq<bool>) -> int
    decreases b.len(),
{
    if b.len() == 0 {
        0
    } else {
        (if b[0] {
            1int
        } else {
            0int
        }) + 2 * bits_val(b.drop_first())
    }
}

proof fn lemma_bits_val_range(b: Seq<bool>)
    ensures
        0 <= bits_val(b) < two_pow(b.len()),
    decreases b.len(),
{
    if b.len() > 0 {
        lemma_bits_val_range(b.drop_first());
    }
}

/// Bitmaps of one length with the same value agree everywhere.
proof fn lemma_bits_val_inj(a: Seq<bool>, b: Seq<bool>)
    requires
        a.len() == b.len(),
        bits_val(a) == bits_val(b),
    ensures
        a == b,
    decreases a.len(),
{
    if a.len() == 0 {
        assert(a =~= b);
    } else {
        lemma_bits_val_range(a.drop_first());
        lemma_bits_val_range(b.drop_first());
        assert(a[0] == b[0]);
        lemma_bits_val_inj(a.drop_first(), b.drop_first());
        assert forall|k: int| 0 <= k < a.len() implies a[k] == b[k] by {
            if k > 0 {
                assert(a.drop_first()[k - 1] == b.drop_first()[k - 1]);
            }
        }
        assert(a =~= b);
    }
}

/// There are at most `2^n` pairwise distinct bitmaps of length `n`.
proof fn lemma_distinct_bitmaps_bound(bs: Seq<Seq<bool>>, n: nat)
    requires
        forall|k: int| 0 <= k < bs.len() ==> #[trigger] bs[k].len() == n,
        forall|i: int, j: int| 0 <= i < j < bs.len() ==> bs[i] != bs[j],
    ensures
        bs.len() <= two_pow(n),
{
    let vals = Seq::new(bs.len(), |k: int| bits_val(bs[k]));
    assert(vals.no_duplicates()) by {
        assert forall|i: int, j: int|
            (0 <= i < vals.len() && 0 <= j < vals.len() && i != j) implies vals[i] != vals[j] by {
            if vals[i] == vals[j] {
                lemma_bits_val_inj(bs[i], bs[j]);
            }
        }
    }
    vals.unique_seq_to_set();
    let range = vstd::set_lib::set_int_range(0, two_pow(n));
    assert(vals.to_set().subset_of(range)) by {
        assert forall|v: int| vals.to_set().contains(v) implies range.contains(v) by {
            let k = choose|k: int| 0 <= k < vals.len() && vals[k] == v;
            lemma_bits_val_range(bs[k]);
        }
    }
    lemma_two_pow_pos(n);
    vstd::set_lib::lemma_int_range(0, two_pow(n));
    vstd::set_lib::lemma_len_subset(vals.to_set(), range);
}

/// Soundness of the transitions built so far for one source subset `cur`:
/// every entry leads to the state holding the closure of the move.
pub open spec fn trans_entry_ok(
    states: Seq<DfaState>,
    m: NfaModel,
    cur: Seq<bool>,
    trans: Seq<(char, usize)>,
    c: char,
) -> bool {
    match lookup_from(trans, c, 0) {
        Option::Some(t) => 0 <= t < states.len() && bitmap_set(states[t as int].subset@) == eclose(
            m,
            step_set(m, bitmap_set(cur), c),
        ),
        Option::None => true,
    }
}

/// Subset construction: breadth-first over discovered subsets, memoizing
/// each closure so identical subsets collapse to one DFA state.
pub(crate) fn determinize(m: &MergedNfa) -> (d: Dfa)
    requires
        nfa_wf(m.model()),
    ensures
        dfa_wf(d, m.model()),
{
    let ghost mm = m.model();
    let n = m.num_states;
    let mut init = new_bitmap(n);
    init.set(m.start, true);
    proof {
        assert(bitmap_set(init@) =~= set![mm.start]);
    }
    let start_subset = closure(m, &init);
    let acc0 = compute_accept(m, &start_subset);
    let mut states: Vec<DfaState> = Vec::new();
    states.push(DfaState { subset: start_subset, accept: acc0, trans: Vec::new() });
    let alpha = alphabet(m);
    let mut idx: usize = 0;
    proof {
        lemma_two_pow_pos(mm.num_states as nat);
        let bs = Seq::new(states@.len(), |k: int| states@[k].subset@);
        lemma_distinct_bitmaps_bound(bs, mm.num_states as nat);
    }
    while idx < states.len()
        invariant
            nfa_wf(mm),
            mm == m.model(),
            n == m.num_states,
            1 <= states@.len() <= two_pow(mm.num_states as nat),
            idx <= states@.len(),
            forall|c: char| alpha@.contains(c) <==> in_alphabet(mm, c),
            forall|st: int|
                0 <= st < states@.len() ==> #[trigger] states@[st].subset@.len() == n,
            forall|i: int, j: int|
                0 <= i < j < states@.len() ==> states@[i].subset@ != states@[j].subset@,
            bitmap_set(states@[0].subset@) == eclose(mm, set![mm.start]),
            forall|st: int|
                0 <= st < states@.len() ==> accept_matches(mm, #[trigger] states@[st]),
            forall|st: int, c: char|
                0 <= st < idx ==> #[trigger] state_trans_ok(states@, mm, st, c),
            forall|st: int|
                idx <= st < states@.len() ==> #[trigger] states@[st].trans@.len() == 0,
        decreases two_pow(mm.num_states as nat) - states@.len(), states@.len() - idx,
    {
        let ghost len0 = states@.len() as int;
        let cur = copy_bitmap(&states[idx].subset);
        let acc = states[idx].accept;
        let mut trans: Vec<(char, usize)> = Vec::new();
        let mut a: usize = 0;
        while a < alpha.len()
            invariant
                nfa_wf(mm),
                mm == m.model(),
                n == m.num_states,
                1 <= states@.len() <= two_pow(mm.num_states as nat),
                states@.len() >= len0,
                idx < states@.len(),
                a <= alpha@.len(),
                cur@ == states@[idx as int].subset@,
                acc == states@[idx as int].accept,
                forall|c: char| alpha@.contains(c) <==> in_alphabet(mm, c),
                forall|st: int|
                    0 <= st < states@.len() ==> #[trigger] states@[st].subset@.len() == n,
                forall|i: int, j: int|
                    0 <= i < j < states@.len() ==> states@[i].subset@ != states@[j].subset@,
                bitmap_set(states@[0].subset@) == eclose(mm, set![mm.start]),
                forall|st: int|
                    0 <= st < states@.len() ==> accept_matches(mm, #[trigger] states@[st]),
                forall|st: int, c: char|
                    0 <= st < idx ==> #[trigger] state_trans_ok(states@, mm, st, c),
                forall|st: int|
                    idx <= st < states@.len() ==> #[trigger] states@[st].trans@.len() == 0,
                forall|c: char| #[trigger] trans_entry_ok(states@, mm, cur@, trans@, c),
                forall|k: int|
                    0 <= k < a ==> (lookup_from(trans@, #[trigger] alpha@[k], 0) is Some || eclose(
                        mm,
                        step_set(mm, bitmap_set(cur@), alpha@[k]),
                    ) == Set::<int>::empty()),
            decreases alpha@.len() - a,
        {
            let ch = alpha[a];
            let moved = step_exec(m, &cur, ch);
            let closed = closure(m, &moved);
            let is_empty = bitmap_is_empty(&closed);
            if !is_empty {
                let found = find_subset(&states, &closed);
                let t: usize = match found {
                    Some(t0) => t0,
                    None => {
                        let acc2 = compute_accept(m, &closed);
                        let ghost old_states = states@;
                        proof {
                            let bs = Seq::new(
                                (old_states.len() + 1) as nat,
                                |k: int|
                                    if k < old_states.len() {
                                        old_states[k].subset@
                                    } else {
                                        closed@
                                    },
                            );
                            assert forall|i: int, j: int|
                                0 <= i < j < bs.len() implies bs[i] != bs[j] by {
                                if j < old_states.len() {
                                    assert(old_states[i].subset@ != old_states[j].subset@);
                                } else {
                                    assert(old_states[i].subset@ != closed@);
                                }
                            }
                            lemma_distinct_bitmaps_bound(bs, mm.num_states as nat);
                        }
                        states.push(DfaState { subset: closed, accept: acc2, trans: Vec::new() });
                        proof {
                            assert forall|st: int, c2: char|
                                0 <= st < idx implies #[trigger] state_trans_ok(
                                states@,
                                mm,
                                st,
                                c2,
                            ) by {
                                assert(states@[st] == old_states[st]);
                                assert(state_trans_ok(old_states, mm, st, c2));
                                match lookup_from(old_states[st].trans@, c2, 0) {
                                    Option::Some(t2) => {
                                        assert(states@[t2 as int] == old_states[t2 as int]);
                                    },
                                    Option::None => {},
                                }
                            }
                            assert forall|c2: char| #[trigger] trans_entry_ok(
                                states@,
                                mm,
                                cur@,
                                trans@,
                                c2,
                            ) by {
                                assert(trans_entry_ok(old_states, mm, cur@, trans@, c2));
                                match lookup_from(trans@, c2, 0) {
                                    Option::Some(t2) => {
                                        assert(states@[t2 as int] == old_states[t2 as int]);
                                    },
                                    Option::None => {},
                                }
                            }
                        }
                        states.len() - 1
                    },
                };
                let ghost tpre = trans@;
                trans.push((ch, t));
                proof {
                    assert(bitmap_set(states@[t as int].subset@) == bitmap_set(closed@));
                    assert forall|c2: char| #[trigger] trans_entry_ok(
                        states@,
                        mm,
                        cur@,
                        trans@,
                        c2,
                    ) by {
                        lemma_lookup_push(tpre, (ch, t), c2, 0);
                        assert(trans_entry_ok(states@, mm, cur@, tpre, c2));
                    }
                    assert forall|k: int|
                        0 <= k < a + 1 implies (lookup_from(trans@, #[trigger] alpha@[k], 0)
                        is Some || eclose(mm, step_set(mm, bitmap_set(cur@), alpha@[k])) == Set::<
                        int,
                    >::empty()) by {
                        lemma_lookup_push(tpre, (ch, t), alpha@[k], 0);
                    }
                }
            } else {
                proof {
                    assert forall|k: int|
                        0 <= k < a + 1 implies (lookup_from(trans@, #[trigger] alpha@[k], 0)
                        is Some || eclose(mm, step_set(mm, bitmap_set(cur@), alpha@[k])) == Set::<
                        int,
                    >::empty()) by {
                        if k == a {
                            assert(eclose(mm, step_set(mm, bitmap_set(cur@), ch)) == bitmap_set(
                                closed@,
                            ));
                        }
                    }
                }
            }
            a += 1;
        }
        let cur2 = copy_bitmap(&cur);
        let ghost old_states = states@;
        let ns = DfaState { subset: cur2, accept: acc, trans };
        states.set(idx, ns);
        proof {
            assert(states@[idx as int].subset@ == old_states[idx as int].subset@);
            assert forall|st: int, c2: char|
                0 <= st < idx + 1 implies #[trigger] state_trans_ok(states@, mm, st, c2) by {
                if st < idx {
                    assert(states@[st] == old_states[st]);
                    assert(state_trans_ok(old_states, mm, st, c2));
                    match lookup_from(old_states[st].trans@, c2, 0) {
                        Option::Some(t2) => {
                            if t2 as int == idx as int {
                                assert(states@[t2 as int].subset@ == old_states[t2 as int].subset@);
                            } else {
                                assert(states@[t2 as int] == old_states[t2 as int]);
                            }
                        },
                        Option::None => {},
                    }
                } else {
                    assert(trans_entry_ok(old_states, mm, cur@, trans@, c2));
                    match lookup_from(trans@, c2, 0) {
                        Option::Some(t2) => {
                            if t2 as int == idx as int {
                                assert(states@[t2 as int].subset@ == old_states[t2 as int].subset@);
                            } else {
                                assert(states@[t2 as int] == old_states[t2 as int]);
                            }
                        },
                        Option::None => {
                            if in_alphabet(mm, c2) {
                                assert(alpha@.contains(c2));
                                let k = choose|k: int| 0 <= k < alpha@.len() && alpha@[k] == c2;
                            } else {
                                lemma_off_alphabet_step_empty(mm, bitmap_set(cur@), c2);
                                lemma_eclose_empty(mm);
                                assert(step_set(mm, bitmap_set(cur@), c2) =~= Set::<int>::empty());
                            }
                        },
                    }
                }
            }
            assert forall|st: int|
                0 <= st < states@.len() implies accept_matches(mm, #[trigger] states@[st]) by {
                if st == idx as int {
                    assert(accept_matches(mm, old_states[st]));
                } else {
                    assert(states@[st] == old_states[st]);
                }
            }
        }
        idx += 1;
    }
    let d = Dfa { num_nfa_states: n, states };
    proof {
        assert forall|st: int, c: char|
            0 <= st < d.states@.len() implies #[trigger] state_trans_ok(d.states@, mm, st, c) by {
        }
        assert(dfa_wf(d, mm));
    }
    d
}

// ------------------------------------------------------------------
// Running the DFA, and its equivalence with the NFA simulation
// ------------------------------------------------------------------

/// The DFA state reached from `st` after consuming `s`, if every step has
/// a transition.
pub open spec fn dfa_run(d: Dfa, st: int, s: Seq<char>) -> Option<int>
    decreases s.len(),
{
    if s.len() == 0 {
        Option::Some(st)
    } else {
        match dfa_run(d, st, s.drop_last()) {
            Option::None => Option::None,
            Option::Some(p) => match dfa_lookup(d, p, s.last()) {
                Option::None => Option::None,
                Option::Some(t) => Option::Some(t as int),
            },
        }
    }
}

/// Does the determinized DFA accept `s`?
pub open spec fn dfa_accepts(d: Dfa, s: Seq<char>) -> bool {
    match dfa_run(d, 0, s) {
        Option::Some(st) => d.states@[st].accept is Some,
        Option::None => false,
    }
}

/// The run of a well-formed DFA tracks the epsilon-closure simulation of
/// the NFA step for step: the reached state holds exactly the simulation's
/// set of NFA states, and the run sticks only when that set is empty.
pub proof fn lemma_dfa_run_subset(d: Dfa, m: NfaModel, s: Seq<char>)
    requires
        dfa_wf(d, m),
    ensures
        match dfa_run(d, 0, s) {
            Option::Some(st) => 0 <= st < d.states@.len() && bitmap_set(d.states@[st].subset@)
                == run_set(m, s),
            Option::None => run_set(m, s) == Set::<int>::empty(),
        },
    decreases s.len(),
{
    if s.len() == 0 {
    } else {
        lemma_dfa_run_subset(d, m, s.drop_last());
        match dfa_run(d, 0, s.drop_last()) {
            Option::Some(p) => {
                assert(state_trans_ok(d.states@, m, p, s.last()));
            },
            Option::None => {
                assert(run_set(m, s.drop_last()) == Set::<int>::empty());
                lemma_step_empty(m, s.last());
                assert(step_set(m, run_set(m, s.drop_last()), s.last()) =~= Set::<int>::empty());
                lemma_eclose_empty(m);
                assert(run_set(m, s) =~= Set::<int>::empty());
            },
        }
    }
}

/// Language equivalence of determinization: for every string, the DFA
/// produced by subset construction accepts it iff the epsilon-closure
/// simulation run directly over the merged NFA accepts it.
pub proof fn lemma_determinization_equivalence(d: Dfa, m: NfaModel, s: Seq<char>)
    requires
        dfa_wf(d, m),
    ensures
        dfa_accepts(d, s) <==> nfa_accepts(m, s),
{
    lemma_dfa_run_subset(d, m, s);
    match dfa_run(d, 0, s) {
        Option::Some(st) => {
            assert(accept_matches(m, d.states@[st]));
        },
        Option::None => {
            lemma_winner_empty(m.accepts, 0);
            assert(winner(m, run_set(m, s)) == winner_from(m.accepts, Set::empty(), 0));
        },
    }
}

} // verus!
