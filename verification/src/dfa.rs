//! Subset construction: deriving a deterministic finite automaton from an
//! NFA by simulating all NFA states in lockstep through epsilon-closures.

use vstd::prelude::*;
use vstd::arithmetic::power2::{pow2, lemma_pow2_adds, lemma_pow2_pos, lemma_pow2_strictly_increases};
use vstd::set_lib::{lemma_int_range, set_int_range};
use vstd::seq_lib::*;
use vstd::set_lib::lemma_len_subset;
use crate::nfa::{eps_reachable, Nfa, NfaView, Transition, Vertex, EPSILON};

verus! {

/// A transition of the DFA: (source id, label, destination id).
#[derive(Clone, Copy, Debug, PartialEq, Eq, Structural)]
pub struct DfaTransition(pub usize, pub char, pub usize);

/// `v` is in `move(q, c)`: one transition of `ts` labeled `c` leads from a
/// member of `q` to `v`.
pub open spec fn in_move(ts: Seq<Transition>, q: Seq<Vertex>, c: char, v: Vertex) -> bool {
    exists|j: int| 0 <= j < ts.len() && ts[j].1 == c && q.contains(ts[j].0) && ts[j].2 == v
}

/// `v` belongs to the target of the DFA transition from the subset `q` on
/// label `c`: the epsilon-closure of `move(q, c)`.
#[verifier::opaque]
pub open spec fn dfa_target(ts: Seq<Transition>, q: Seq<Vertex>, c: char, v: Vertex) -> bool {
    eps_reachable(ts, Set::new(|u: Vertex| in_move(ts, q, c, u)), v)
}

/// `c` occurs among the first `li` entries of `labels`.
pub open spec fn label_among(c: char, labels: Seq<char>, li: int) -> bool {
    exists|li2: int| 0 <= li2 < li && c == labels[li2]
}

/// Strictly increasing, hence duplicate-free, sequence of states.
pub open spec fn strictly_increasing(s: Seq<Vertex>) -> bool {
    forall|a: int, b: int| 0 <= a < b < s.len() ==> s[a] < s[b]
}

/// Some recorded transition leads from DFA state `u` to DFA state `v`.
pub open spec fn has_dfa_edge(dt: Seq<DfaTransition>, u: int, v: int) -> bool {
    exists|k: int| 0 <= k < dt.len() && dt[k].0 as int == u && dt[k].2 as int == v
}

/// Consecutive entries of `p` are joined by recorded transitions.
pub open spec fn is_dfa_path(dt: Seq<DfaTransition>, p: Seq<int>) -> bool {
    forall|x: int| 0 <= x < p.len() - 1 ==> #[trigger] has_dfa_edge(dt, p[x], p[x + 1])
}

/// DFA state `i` is reachable from the start state 0 over recorded
/// transitions.
#[verifier::opaque]
pub open spec fn dfa_reachable(dt: Seq<DfaTransition>, i: int) -> bool {
    exists|p: Seq<int>| p.len() > 0 && is_dfa_path(dt, p) && p[0] == 0 && p.last() == i
}

/// The start state reaches itself.
pub proof fn lemma_dfa_reachable_base(dt: Seq<DfaTransition>)
    ensures
        dfa_reachable(dt, 0),
{
    reveal(dfa_reachable);
    let p = seq![0int];
    assert(p.len() > 0 && is_dfa_path(dt, p) && p[0] == 0 && p.last() == 0);
}

/// Reachability extends along recorded transitions.
pub proof fn lemma_dfa_reachable_step(dt: Seq<DfaTransition>, u: int, v: int)
    requires
        dfa_reachable(dt, u),
        has_dfa_edge(dt, u, v),
    ensures
        dfa_reachable(dt, v),
{
    reveal(dfa_reachable);
    let p = choose|p: Seq<int>|
        p.len() > 0 && is_dfa_path(dt, p) && p[0] == 0 && #[trigger] p.last() == u;
    let q = p.push(v);
    assert forall|x: int| 0 <= x < q.len() - 1 implies #[trigger] has_dfa_edge(dt, q[x], q[x + 1]) by {
        if x < p.len() - 1 {
            assert(q[x] == p[x] && q[x + 1] == p[x + 1]);
        } else {
            assert(q[x] == p.last() && q[x + 1] == v);
        }
    }
    assert(q.len() > 0 && is_dfa_path(dt, q) && q[0] == 0 && q.last() == v);
}

/// Recording one more transition preserves reachability.
pub proof fn lemma_dfa_reachable_monotone(dt: Seq<DfaTransition>, x: DfaTransition, i: int)
    requires
        dfa_reachable(dt, i),
    ensures
        dfa_reachable(dt.push(x), i),
{
    reveal(dfa_reachable);
    let p = choose|p: Seq<int>|
        p.len() > 0 && is_dfa_path(dt, p) && p[0] == 0 && #[trigger] p.last() == i;
    assert forall|y: int|
        0 <= y < p.len() - 1 implies #[trigger] has_dfa_edge(dt.push(x), p[y], p[y + 1]) by {
        assert(has_dfa_edge(dt, p[y], p[y + 1]));
        let k = choose|k: int|
            0 <= k < dt.len() && dt[k].0 as int == p[y] && dt[k].2 as int == p[y + 1];
        assert(dt.push(x)[k] == dt[k]);
    }
    assert(p.len() > 0 && is_dfa_path(dt.push(x), p) && p[0] == 0 && p.last() == i);
}

/// A deterministic finite automaton produced by subset construction.  Each
/// DFA state stands for a set of NFA states; that set is kept only as the
/// ghost `subsets` (construction scaffolding, erased at run time).
pub struct Dfa {
    pub vertexes: Vec<usize>,
    pub final_states: Vec<usize>,
    pub transitions: Vec<DfaTransition>,
    pub start_state: usize,
    pub subsets: Ghost<Seq<Seq<Vertex>>>,
}

impl Dfa {
    /// The DFA is exactly what subset construction yields for the NFA `nv`:
    /// state 0 stands for the epsilon-closure of the NFA start state, no two
    /// DFA states stand for the same NFA-state set, a DFA state is accepting
    /// exactly when its set holds the NFA accept state, each recorded
    /// transition's destination set is the epsilon-closure of the move of
    /// its source set, at most one transition leaves a state per label, and
    /// a transition exists whenever that closure is nonempty.
    pub open spec fn represents(self, nv: NfaView) -> bool {
        let qs = self.subsets@;
        let m = qs.len() as int;
        let ts = nv.trans;
        let dt = self.transitions@;
        &&& self.vertexes@.len() == m
        &&& forall|i: int| 0 <= i < m ==> #[trigger] self.vertexes@[i] as int == i
        &&& m >= 1
        &&& self.start_state == 0
        &&& forall|i: int| 0 <= i < m ==> strictly_increasing(#[trigger] qs[i])
        &&& forall|i: int, k: int|
            0 <= i < m && 0 <= k < qs[i].len() ==> (#[trigger] qs[i][k] as int) < nv.states.len()
        &&& forall|i: int, k: int| 0 <= i < k < m ==> qs[i] != qs[k]
        &&& forall|v: Vertex| #[trigger] qs[0].contains(v) <==> eps_reachable(ts, set![nv.start()], v)
        &&& forall|x: usize|
            #[trigger] self.final_states@.contains(x) <==> ((x as int) < m && qs[x as int].contains(
                nv.accept(),
            ))
        &&& forall|k: int|
            0 <= k < dt.len() ==> (#[trigger] dt[k].0 as int) < m && (dt[k].2 as int) < m
                && dt[k].1 != EPSILON && qs[dt[k].2 as int].len() > 0
        &&& forall|k: int, v: Vertex|
            0 <= k < dt.len() ==> (#[trigger] qs[dt[k].2 as int].contains(v) <==> dfa_target(
                ts,
                qs[dt[k].0 as int],
                dt[k].1,
                v,
            ))
        &&& forall|k1: int, k2: int|
            0 <= k1 < dt.len() && 0 <= k2 < dt.len() && #[trigger] dt[k1].0 == #[trigger] dt[k2].0
                && dt[k1].1 == dt[k2].1 ==> k1 == k2
        &&& forall|i: int, c: char, v: Vertex|
            0 <= i < m && c != EPSILON && #[trigger] dfa_target(ts, qs[i], c, v) ==> exists|k: int|
                0 <= k < dt.len() && dt[k].0 as int == i && dt[k].1 == c
        &&& forall|i: int| 0 <= i < m ==> dfa_reachable(dt, i)
    }
}

/// The numeric value whose binary digits are the members of `s`.
pub open spec fn subset_mask(s: Seq<Vertex>) -> int
    decreases s.len(),
{
    if s.len() == 0 {
        0
    } else {
        subset_mask(s.drop_last()) + pow2(s.last() as nat) as int
    }
}

proof fn lemma_mask_bounds(s: Seq<Vertex>, n: nat)
    requires
        strictly_increasing(s),
        forall|k: int| 0 <= k < s.len() ==> (s[k] as nat) < n,
    ensures
        0 <= subset_mask(s) < pow2(n) as int,
    decreases s.len(),
{
    lemma_pow2_pos(n);
    if s.len() == 0 {
    } else {
        let l = s.last() as nat;
        assert(forall|k: int| 0 <= k < s.len() - 1 ==> (s[k] as nat) < l);
        lemma_mask_bounds(s.drop_last(), l);
        assert(pow2(l + 1) == pow2(l) * pow2(1)) by {
            lemma_pow2_adds(l, 1);
        }
        assert(pow2(1) == 2) by {
            vstd::arithmetic::power2::lemma2_to64();
        }
        if l + 1 < n {
            lemma_pow2_strictly_increases(l + 1, n);
        }
    }
}

proof fn lemma_mask_injective(s1: Seq<Vertex>, s2: Seq<Vertex>)
    requires
        strictly_increasing(s1),
        strictly_increasing(s2),
        s1 != s2,
    ensures
        subset_mask(s1) != subset_mask(s2),
    decreases s1.len() + s2.len(),
{
    if s1.len() == 0 {
        assert(s2.len() > 0) by {
            if s2.len() == 0 {
                assert(s1 =~= s2);
            }
        }
        let l = s2.last() as nat;
        assert(forall|k: int| 0 <= k < s2.len() - 1 ==> (s2[k] as nat) < l);
        lemma_mask_bounds(s2.drop_last(), l);
        lemma_pow2_pos(l);
    } else if s2.len() == 0 {
        let l = s1.last() as nat;
        assert(forall|k: int| 0 <= k < s1.len() - 1 ==> (s1[k] as nat) < l);
        lemma_mask_bounds(s1.drop_last(), l);
        lemma_pow2_pos(l);
    } else if s1.last() == s2.last() {
        let d1 = s1.drop_last();
        let d2 = s2.drop_last();
        assert(d1 != d2) by {
            if d1 == d2 {
                assert(d1.len() == s1.len() - 1);
                assert(d2.len() == s2.len() - 1);
                assert(s1.len() == s2.len());
                assert forall|i: int| 0 <= i < s1.len() implies s1[i] == s2[i] by {
                    if i < s1.len() - 1 {
                        assert(s1[i] == d1[i]);
                        assert(s2[i] == d2[i]);
                    }
                }
                assert(s1 =~= s2);
            }
        }
        assert(strictly_increasing(d1) && strictly_increasing(d2));
        lemma_mask_injective(d1, d2);
    } else {
        let l1 = s1.last() as nat;
        let l2 = s2.last() as nat;
        if l1 < l2 {
            assert(forall|k: int| 0 <= k < s1.len() ==> (s1[k] as nat) < l1 + 1);
            lemma_mask_bounds(s1, l1 + 1);
            assert(forall|k: int| 0 <= k < s2.len() - 1 ==> (s2[k] as nat) < l2);
            lemma_mask_bounds(s2.drop_last(), l2);
            if l1 + 1 < l2 {
                lemma_pow2_strictly_increases(l1 + 1, l2);
            }
        } else {
            assert(forall|k: int| 0 <= k < s2.len() ==> (s2[k] as nat) < l2 + 1);
            lemma_mask_bounds(s2, l2 + 1);
            assert(forall|k: int| 0 <= k < s1.len() - 1 ==> (s1[k] as nat) < l1);
            lemma_mask_bounds(s1.drop_last(), l1);
            if l2 + 1 < l1 {
                lemma_pow2_strictly_increases(l2 + 1, l1);
            }
        }
    }
}

/// There are at most `2^n` pairwise distinct strictly increasing sequences
/// over states below `n`: the bound that terminates subset construction.
proof fn lemma_distinct_subsets_bound(qs: Seq<Seq<Vertex>>, n: nat)
    requires
        forall|i: int| 0 <= i < qs.len() ==> strictly_increasing(#[trigger] qs[i]),
        forall|i: int, k: int|
            0 <= i < qs.len() && 0 <= k < qs[i].len() ==> (#[trigger] qs[i][k] as nat) < n,
        forall|i: int, k: int| 0 <= i < k < qs.len() ==> qs[i] != qs[k],
    ensures
        qs.len() <= pow2(n),
{
    let masks = qs.map_values(|s: Seq<Vertex>| subset_mask(s));
    assert forall|i: int, k: int| 0 <= i < masks.len() && 0 <= k < masks.len() && i != k
        implies masks[i] != masks[k] by {
        if i < k {
            lemma_mask_injective(qs[i], qs[k]);
        } else {
            lemma_mask_injective(qs[k], qs[i]);
        }
    }
    assert(masks.no_duplicates());
    masks.unique_seq_to_set();
    let range = set_int_range(0, pow2(n) as int);
    assert forall|x: int| masks.to_set().contains(x) implies range.contains(x) by {
        let i = choose|i: int| 0 <= i < masks.len() && masks[i] == x;
        lemma_mask_bounds(qs[i], n);
    }
    lemma_int_range(0, pow2(n) as int);
    lemma_len_subset(masks.to_set(), range);
}

/// The invariant of subset construction: `qs` is the ghost image of
/// `dv` (the discovered state sets), `wl` the indices still to process and
/// `dt` the transitions recorded so far.
pub open spec fn construction_inv(
    nv: NfaView,
    qs: Seq<Seq<Vertex>>,
    dv: Seq<Vec<Vertex>>,
    wl: Seq<usize>,
    dt: Seq<DfaTransition>,
) -> bool {
    &&& qs.len() == dv.len()
    &&& forall|i: int| 0 <= i < qs.len() ==> qs[i] == #[trigger] dv[i]@
    &&& 1 <= qs.len() <= pow2(nv.states.len())
    &&& forall|i: int| 0 <= i < qs.len() ==> strictly_increasing(#[trigger] qs[i])
    &&& forall|i: int, k: int|
        0 <= i < qs.len() && 0 <= k < qs[i].len() ==> (#[trigger] qs[i][k] as int)
            < nv.states.len()
    &&& forall|i: int, k: int| 0 <= i < k < qs.len() ==> qs[i] != qs[k]
    &&& forall|v: Vertex|
        #[trigger] qs[0].contains(v) <==> eps_reachable(nv.trans, set![nv.start()], v)
    &&& forall|k: int| 0 <= k < wl.len() ==> (#[trigger] wl[k] as int) < qs.len()
    &&& forall|k1: int, k2: int| 0 <= k1 < k2 < wl.len() ==> wl[k1] != wl[k2]
    &&& forall|k: int|
        0 <= k < dt.len() ==> (#[trigger] dt[k].0 as int) < qs.len() && (dt[k].2 as int)
            < qs.len() && dt[k].1 != EPSILON && qs[dt[k].2 as int].len() > 0
    &&& forall|k: int, v: Vertex|
        0 <= k < dt.len() ==> (#[trigger] qs[dt[k].2 as int].contains(v) <==> dfa_target(
            nv.trans,
            qs[dt[k].0 as int],
            dt[k].1,
            v,
        ))
    &&& forall|k1: int, k2: int|
        0 <= k1 < dt.len() && 0 <= k2 < dt.len() && #[trigger] dt[k1].0 == #[trigger] dt[k2].0
            && dt[k1].1 == dt[k2].1 ==> k1 == k2
    &&& forall|k: int| 0 <= k < dt.len() ==> !wl.contains(#[trigger] dt[k].0)
}

/// Records the transition from state `qi` on label `c` to the state set
/// `t_set`, adding `t_set` to the discovered sets (and the worklist) when it
/// is new.  Returns the updated ghost image of the discovered sets.
#[verifier::rlimit(100)]
fn record_transition(
    nfa: &Nfa,
    discovered: &mut Vec<Vec<Vertex>>,
    worklist: &mut Vec<usize>,
    dtrans: &mut Vec<DfaTransition>,
    Ghost(qs): Ghost<Seq<Seq<Vertex>>>,
    t_set: Vec<Vertex>,
    qi: usize,
    c: char,
    labels: &Vec<char>,
    Ghost(li): Ghost<int>,
    Ghost(base): Ghost<int>,
) -> (qs2: Ghost<Seq<Seq<Vertex>>>)
    requires
        nfa@.wf(),
        construction_inv(nfa@, qs, old(discovered)@, old(worklist)@, old(dtrans)@),
        0 <= li < labels@.len(),
        c == labels@[li],
        forall|a: int, b: int| 0 <= a < b < labels@.len() ==> labels@[a] != labels@[b],
        forall|k: int| 0 <= k < labels@.len() ==> labels@[k] != EPSILON,
        (qi as int) < qs.len(),
        !old(worklist)@.contains(qi),
        0 <= base <= old(dtrans)@.len(),
        forall|k: int| 0 <= k < base ==> #[trigger] old(dtrans)@[k].0 != qi,
        forall|k: int| base <= k < old(dtrans)@.len() ==> (#[trigger] old(dtrans)@[k].0) == qi,
        forall|k: int|
            base <= k < old(dtrans)@.len() ==> label_among(
                #[trigger] old(dtrans)@[k].1,
                labels@,
                li,
            ),
        strictly_increasing(t_set@),
        forall|k: int| 0 <= k < t_set@.len() ==> (#[trigger] t_set@[k] as int) < nfa@.states.len(),
        t_set@.len() > 0,
        forall|v: Vertex| #[trigger] t_set@.contains(v) <==> dfa_target(nfa@.trans, qs[qi as int], c, v),
        forall|i: int| 0 <= i < qs.len() ==> dfa_reachable(old(dtrans)@, i),
    ensures
        construction_inv(nfa@, qs2@, final(discovered)@, final(worklist)@, final(dtrans)@),
        qs.len() <= qs2@.len() <= qs.len() + 1,
        forall|i: int| 0 <= i < qs.len() ==> qs2@[i] == #[trigger] qs[i],
        qs2@.len() == qs.len() ==> final(worklist)@ == old(worklist)@,
        qs2@.len() == qs.len() + 1 ==> final(worklist)@.contains((qs.len()) as usize),
        forall|x: usize| old(worklist)@.contains(x) ==> final(worklist)@.contains(x),
        !final(worklist)@.contains(qi),
        final(dtrans)@.len() == old(dtrans)@.len() + 1,
        final(dtrans)@[old(dtrans)@.len() as int].0 == qi,
        final(dtrans)@[old(dtrans)@.len() as int].1 == c,
        forall|k: int| 0 <= k < old(dtrans)@.len() ==> final(dtrans)@[k] == #[trigger] old(dtrans)@[k],
        forall|k: int| base <= k < final(dtrans)@.len() ==> (#[trigger] final(dtrans)@[k].0) == qi,
        forall|k: int|
            base <= k < final(dtrans)@.len() ==> label_among(
                #[trigger] final(dtrans)@[k].1,
                labels@,
                li + 1,
            ),
        forall|i: int| 0 <= i < qs2@.len() ==> dfa_reachable(final(dtrans)@, i),
{
    let ghost nv = nfa@;
    let ghost ts = nfa@.trans;
    let ghost tsv = t_set@;
    let pos = find_subset(discovered, &t_set);
    proof {
        if (pos as int) < qs.len() {
            assert(qs[pos as int] == tsv);
        } else {
            assert forall|mm: int| 0 <= mm < qs.len() implies qs[mm] != tsv by {
                assert(discovered@[mm]@ != tsv);
            }
        }
    }
    let ghost mut qs2 = qs;
    let target: usize;
    if pos < discovered.len() {
        target = pos;
    } else {
        target = discovered.len();
        let ghost wl0 = worklist@;
        discovered.push(t_set);
        worklist.push(target);
        proof {
            qs2 = qs.push(tsv);
            assert(qs2[target as int] == tsv);
            lemma_distinct_subsets_bound(qs2, nv.states.len());
            assert forall|x: usize| #[trigger] worklist@.contains(x) implies wl0.contains(x) || x
                == target by {
                let k = choose|k: int| 0 <= k < worklist@.len() && worklist@[k] == x;
                if k < wl0.len() {
                    assert(wl0[k] == x);
                }
            }
            assert forall|x: usize| #[trigger] wl0.contains(x) implies worklist@.contains(x) by {
                let k = choose|k: int| 0 <= k < wl0.len() && wl0[k] == x;
                assert(worklist@[k] == x);
            }
            assert(worklist@.contains(target)) by {
                assert(worklist@.last() == target);
            }
            assert(qs2[0] =~= qs[0]);
        }
    }
    let ghost dt0 = dtrans@;
    let nt = DfaTransition(qi, c, target);
    dtrans.push(nt);
    proof {
        assert(dtrans@ =~= dt0.push(nt));
        assert(qs2[target as int] == tsv);
        assert(qs2[qi as int] == qs[qi as int]);
        assert forall|k: int|
            0 <= k < dt0.len() implies ((#[trigger] dt0[k]).0 as int) < qs.len() && ((dt0[k]).2
                as int) < qs.len() by {}
        assert forall|k: int|
            0 <= k < dtrans@.len() implies (#[trigger] dtrans@[k].0 as int) < qs2.len() && (
        dtrans@[k].2 as int) < qs2.len() && dtrans@[k].1 != EPSILON && qs2[dtrans@[k].2 as int].len()
            > 0 by {
            if k < dt0.len() {
                assert(dtrans@[k] == dt0[k]);
                assert(qs2[dt0[k].2 as int] == qs[dt0[k].2 as int]);
            } else {
                assert(dtrans@[k] == nt);
            }
        }
        assert forall|k: int, v: Vertex|
            0 <= k < dtrans@.len() implies (#[trigger] qs2[dtrans@[k].2 as int].contains(v)
            <==> dfa_target(ts, qs2[dtrans@[k].0 as int], dtrans@[k].1, v)) by {
            if k < dt0.len() {
                assert(dtrans@[k] == dt0[k]);
                assert(qs2[dt0[k].2 as int] == qs[dt0[k].2 as int]);
                assert(qs2[dt0[k].0 as int] == qs[dt0[k].0 as int]);
                assert(qs[dt0[k].2 as int].contains(v) <==> dfa_target(
                    ts,
                    qs[dt0[k].0 as int],
                    dt0[k].1,
                    v,
                ));
            } else {
                assert(dtrans@[k] == nt);
                assert(tsv.contains(v) <==> dfa_target(ts, qs[qi as int], c, v));
            }
        }
        assert forall|k1: int, k2: int|
            0 <= k1 < dtrans@.len() && 0 <= k2 < dtrans@.len() && #[trigger] dtrans@[k1].0
                == #[trigger] dtrans@[k2].0 && dtrans@[k1].1 == dtrans@[k2].1 implies k1 == k2 by {
            if k1 < dt0.len() && k2 < dt0.len() {
                assert(dtrans@[k1] == dt0[k1] && dtrans@[k2] == dt0[k2]);
            } else if k1 < dt0.len() && k2 == dt0.len() {
                assert(dtrans@[k1] == dt0[k1] && dtrans@[k2] == nt);
                if dt0[k1].0 == qi && dt0[k1].1 == c {
                    assert(base <= k1);
                    assert(label_among(dt0[k1].1, labels@, li));
                    let li2 = choose|li2: int| 0 <= li2 < li && dt0[k1].1 == labels@[li2];
                    assert(labels@[li2] != labels@[li]);
                    assert(false);
                }
            } else if k2 < dt0.len() && k1 == dt0.len() {
                assert(dtrans@[k2] == dt0[k2] && dtrans@[k1] == nt);
                if dt0[k2].0 == qi && dt0[k2].1 == c {
                    assert(base <= k2);
                    assert(label_among(dt0[k2].1, labels@, li));
                    let li2 = choose|li2: int| 0 <= li2 < li && dt0[k2].1 == labels@[li2];
                    assert(labels@[li2] != labels@[li]);
                    assert(false);
                }
            }
        }
        assert forall|k: int|
            0 <= k < dtrans@.len() implies !worklist@.contains(#[trigger] dtrans@[k].0) by {
            if k < dt0.len() {
                assert(dtrans@[k] == dt0[k]);
                assert((dt0[k].0 as int) < qs.len());
            } else {
                assert(dtrans@[k] == nt);
            }
        }
        assert forall|k: int|
            base <= k < dtrans@.len() implies (#[trigger] dtrans@[k].0) == qi && label_among(
            dtrans@[k].1,
            labels@,
            li + 1,
        ) by {
            if k < dt0.len() {
                assert(dtrans@[k] == dt0[k]);
                assert(label_among(dt0[k].1, labels@, li));
                let li2 = choose|li2: int| 0 <= li2 < li && dt0[k].1 == labels@[li2];
                assert(0 <= li2 < li + 1 && dtrans@[k].1 == labels@[li2]);
            } else {
                assert(dtrans@[k] == nt);
                assert(0 <= li && li < li + 1 && dtrans@[k].1 == labels@[li]);
            }
        }
        assert forall|i: int| 0 <= i < qs2.len() implies dfa_reachable(dtrans@, i) by {
            if i < qs.len() {
                lemma_dfa_reachable_monotone(dt0, nt, i);
            } else {
                assert(i == target as int);
                lemma_dfa_reachable_monotone(dt0, nt, qi as int);
                assert(has_dfa_edge(dtrans@, qi as int, target as int)) by {
                    assert(dtrans@[dt0.len() as int] == nt);
                }
                lemma_dfa_reachable_step(dtrans@, qi as int, target as int);
            }
        }
    }
    Ghost(qs2)
}

impl Dfa {
    /// Subset construction.  Starting from the epsilon-closure of the NFA
    /// start state, repeatedly picks a not-yet-processed DFA state and, for
    /// each non-epsilon label of the NFA, records a transition to the
    /// epsilon-closure of the corresponding move, discovering new DFA states
    /// as new closures appear.  Terminates because at most `2^n` distinct
    /// state sets over `n` NFA states exist.
    #[verifier::loop_isolation(false)]
    #[verifier::rlimit(100)]
    pub fn from_nfa(nfa: &Nfa) -> (d: Dfa)
        requires
            nfa@.wf(),
            nfa@.states.len() > 0,
        ensures
            d.represents(nfa@),
    {
        let ghost ts = nfa@.trans;
        let ghost nv = nfa@;
        let n = nfa.vertexes.len();
        let mut labels: Vec<char> = Vec::new();
        let mut j: usize = 0;
        while j < nfa.transitions.len()
            invariant
                j <= ts.len(),
                forall|a: int, b: int| 0 <= a < b < labels@.len() ==> labels@[a] != labels@[b],
                forall|k: int| 0 <= k < labels@.len() ==> labels@[k] != EPSILON,
                forall|j2: int|
                    0 <= j2 < j && (#[trigger] ts[j2]).1 != EPSILON ==> labels@.contains(ts[j2].1),
            decreases ts.len() - j,
        {
            let c = nfa.transitions[j].get_char();
            if c != EPSILON && !contains_char(&labels, c) {
                let ghost labels0 = labels@;
                labels.push(c);
                proof {
                    assert(labels@.last() == c);
                    assert(labels@.contains(c));
                    assert forall|j2: int|
                        0 <= j2 < j + 1 && (#[trigger] ts[j2]).1 != EPSILON implies labels@.contains(
                        ts[j2].1,
                    ) by {
                        if j2 < j {
                            let k = choose|k: int| 0 <= k < labels0.len() && labels0[k] == ts[j2].1;
                            assert(labels@[k] == ts[j2].1);
                        }
                    }
                }
            }
            j += 1;
        }
        let mut seed: Vec<Vertex> = Vec::new();
        seed.push(0u32);
        let q0 = nfa.epsilon_closure(&seed);
        proof {
            assert(nv.start() == 0u32);
            assert(seed@[0] == 0u32);
            assert(seed@.to_set() =~= set![nv.start()]) by {
                assert forall|v: Vertex| seed@.to_set().contains(v) implies v == 0u32 by {
                    let k = choose|k: int| 0 <= k < seed@.len() && seed@[k] == v;
                }
                assert(seed@.contains(0u32));
            }
        }
        let mut discovered: Vec<Vec<Vertex>> = Vec::new();
        let ghost mut qs: Seq<Seq<Vertex>> = Seq::empty();
        discovered.push(q0);
        proof {
            qs = qs.push(q0@);
            lemma_pow2_pos(n as nat);
            lemma_distinct_subsets_bound(qs, n as nat);
        }
        let mut worklist: Vec<usize> = Vec::new();
        worklist.push(0);
        let mut dtrans: Vec<DfaTransition> = Vec::new();
        proof {
            assert(worklist@[0] == 0usize);
            assert(worklist@.contains(0usize));
            assert(construction_inv(nv, qs, discovered@, worklist@, dtrans@));
            lemma_dfa_reachable_base(dtrans@);
        }
        while worklist.len() > 0
            invariant
                construction_inv(nv, qs, discovered@, worklist@, dtrans@),
                forall|a: int, b: int| 0 <= a < b < labels@.len() ==> labels@[a] != labels@[b],
                forall|k: int| 0 <= k < labels@.len() ==> labels@[k] != EPSILON,
                forall|j2: int|
                    0 <= j2 < ts.len() && (#[trigger] ts[j2]).1 != EPSILON ==> labels@.contains(
                        ts[j2].1,
                    ),
                forall|i: int, c: char, v: Vertex|
                    0 <= i < qs.len() && c != EPSILON && !worklist@.contains(i as usize)
                        && #[trigger] dfa_target(ts, qs[i], c, v) ==> exists|k: int|
                        0 <= k < dtrans@.len() && dtrans@[k].0 as int == i && dtrans@[k].1 == c,
                forall|i: int| 0 <= i < qs.len() ==> dfa_reachable(dtrans@, i),
            decreases pow2(n as nat) - qs.len(), worklist@.len(),
        {
            let ghost wl_before = worklist@;
            let pre_count = discovered.len();
            let qi = worklist.pop().unwrap();
            proof {
                assert(qs.len() == pre_count as int);
                assert(qi == wl_before.last());
                assert(worklist@ == wl_before.drop_last());
                assert forall|x: usize| #[trigger] worklist@.contains(x) implies wl_before.contains(
                    x,
                ) by {
                    let k = choose|k: int| 0 <= k < worklist@.len() && worklist@[k] == x;
                    assert(wl_before[k] == x);
                }
                assert(!worklist@.contains(qi)) by {
                    if worklist@.contains(qi) {
                        let k = choose|k: int| 0 <= k < worklist@.len() && worklist@[k] == qi;
                        assert(wl_before[k] == wl_before[wl_before.len() - 1]);
                    }
                }
                assert forall|x: usize|
                    wl_before.contains(x) && x != qi implies #[trigger] worklist@.contains(x) by {
                    let k = choose|k: int| 0 <= k < wl_before.len() && wl_before[k] == x;
                    assert(k < wl_before.len() - 1);
                    assert(worklist@[k] == x);
                }
                assert forall|i: int, c: char, v: Vertex|
                    0 <= i < qs.len() && c != EPSILON && !worklist@.contains(i as usize) && i
                        != qi as int && #[trigger] dfa_target(ts, qs[i], c, v) implies exists|
                    k: int,
                |
                    0 <= k < dtrans@.len() && dtrans@[k].0 as int == i && dtrans@[k].1 == c by {
                    assert(i <= pre_count as int);
                    assert((i as usize) as int == i);
                    assert(!wl_before.contains(i as usize));
                }
            }
            let q = copy_states(&discovered[qi]);
            let ghost base = dtrans@.len() as int;
            let ghost qs_at_pop = qs;
            let ghost wl_at_pop = worklist@;
            let mut li: usize = 0;
            while li < labels.len()
                invariant
                    construction_inv(nv, qs, discovered@, worklist@, dtrans@),
                    li <= labels@.len(),
                    q@ == qs[qi as int],
                    (qi as int) < qs.len(),
                    !worklist@.contains(qi),
                    qs_at_pop.len() <= qs.len(),
                    qs.len() == qs_at_pop.len() ==> worklist@ == wl_at_pop,
                    0 <= base <= dtrans@.len(),
                    forall|k: int| 0 <= k < base ==> #[trigger] dtrans@[k].0 != qi,
                    forall|k: int|
                        base <= k < dtrans@.len() ==> (#[trigger] dtrans@[k].0) == qi,
                    forall|k: int|
                        base <= k < dtrans@.len() ==> label_among(
                            #[trigger] dtrans@[k].1,
                            labels@,
                            li as int,
                        ),
                    forall|i: int, c: char, v: Vertex|
                        0 <= i < qs.len() && c != EPSILON && !worklist@.contains(i as usize) && i
                            != qi as int && #[trigger] dfa_target(ts, qs[i], c, v) ==> exists|
                        k: int,
                    |
                        0 <= k < dtrans@.len() && dtrans@[k].0 as int == i && dtrans@[k].1 == c,
                    forall|li2: int, v: Vertex|
                        0 <= li2 < li && #[trigger] dfa_target(ts, qs[qi as int], labels@[li2], v)
                            ==> exists|k: int|
                            0 <= k < dtrans@.len() && dtrans@[k].0 == qi && dtrans@[k].1
                                == labels@[li2],
                    forall|i: int| 0 <= i < qs.len() ==> dfa_reachable(dtrans@, i),
                decreases labels@.len() - li,
            {
                let c = labels[li];
                let moved = move_states(nfa, &q, c);
                let t_set = nfa.epsilon_closure(&moved);
                let ghost tsv = t_set@;
                proof {
                    assert(moved@.to_set() =~= Set::new(
                        |u: Vertex| in_move(ts, qs[qi as int], c, u),
                    ));
                    assert forall|v: Vertex| #[trigger]
                        tsv.contains(v) <==> dfa_target(ts, qs[qi as int], c, v) by {
                        reveal(dfa_target);
                    }
                }
                if t_set.len() > 0 {
                    let ghost dt_pre = dtrans@;
                    let ghost qs_pre = qs;
                    let ghost wl_pre = worklist@;
                    let Ghost(qs_new) = record_transition(
                        nfa,
                        &mut discovered,
                        &mut worklist,
                        &mut dtrans,
                        Ghost(qs),
                        t_set,
                        qi,
                        c,
                        &labels,
                        Ghost(li as int),
                        Ghost(base),
                    );
                    let post_count = discovered.len();
                    proof {
                        qs = qs_new;
                        assert(qs.len() == post_count as int);
                        assert forall|k: int| 0 <= k < base implies #[trigger] dtrans@[k].0
                            != qi by {
                            assert(dtrans@[k] == dt_pre[k]);
                        }
                        assert(dtrans@[dt_pre.len() as int].0 == qi && dtrans@[dt_pre.len() as int].1
                            == c);
                        assert forall|li2: int, v: Vertex|
                            0 <= li2 < li + 1 && #[trigger] dfa_target(
                                ts,
                                qs[qi as int],
                                labels@[li2],
                                v,
                            ) implies exists|k: int|
                                0 <= k < dtrans@.len() && dtrans@[k].0 == qi && dtrans@[k].1
                                    == labels@[li2] by {
                            if li2 < li {
                                let k = choose|k: int|
                                    0 <= k < dt_pre.len() && dt_pre[k].0 == qi && dt_pre[k].1
                                        == labels@[li2];
                                assert(dtrans@[k].0 == qi && dtrans@[k].1 == labels@[li2]);
                            } else {
                                assert(dtrans@[dt_pre.len() as int].0 == qi
                                    && dtrans@[dt_pre.len() as int].1 == labels@[li2]);
                            }
                        }
                        assert forall|i: int, c2: char, v: Vertex|
                            0 <= i < qs.len() && c2 != EPSILON && !worklist@.contains(i as usize)
                                && i != qi as int && #[trigger] dfa_target(ts, qs[i], c2, v)
                            implies exists|k: int|
                                0 <= k < dtrans@.len() && dtrans@[k].0 as int == i && dtrans@[k].1
                                    == c2 by {
                            if i < qs_pre.len() {
                                assert(i < post_count as int);
                                assert((i as usize) as int == i);
                                assert(qs[i] == qs_pre[i]);
                                assert(!wl_pre.contains(i as usize));
                                let k = choose|k: int|
                                    0 <= k < dt_pre.len() && dt_pre[k].0 as int == i && dt_pre[k].1
                                        == c2;
                                assert(dtrans@[k].0 as int == i && dtrans@[k].1 == c2);
                            } else {
                                assert(i == qs_pre.len() as int);
                                assert(worklist@.contains(i as usize));
                            }
                        }
                    }
                } else {
                    proof {
                        assert forall|li2: int, v: Vertex|
                            0 <= li2 < li + 1 && #[trigger] dfa_target(
                                ts,
                                qs[qi as int],
                                labels@[li2],
                                v,
                            ) implies exists|k: int|
                                0 <= k < dtrans@.len() && dtrans@[k].0 == qi && dtrans@[k].1
                                    == labels@[li2] by {
                            if li2 == li {
                                assert(tsv.contains(v));
                            }
                        }
                    }
                }
                li += 1;
            }
            proof {
                reveal(dfa_target);
                reveal(crate::nfa::eps_reachable);
                assert forall|i: int, c: char, v: Vertex|
                    0 <= i < qs.len() && c != EPSILON && !worklist@.contains(i as usize)
                        && #[trigger] dfa_target(ts, qs[i], c, v) implies exists|k: int|
                    0 <= k < dtrans@.len() && dtrans@[k].0 as int == i && dtrans@[k].1 == c by {
                    if i == qi as int {
                        let from_set = Set::new(|u: Vertex| in_move(ts, qs[qi as int], c, u));
                        let p = choose|p: Seq<Vertex>|
                            p.len() > 0 && crate::nfa::is_eps_path(ts, p) && from_set.contains(
                                p[0],
                            ) && #[trigger] p.last() == v;
                        assert(in_move(ts, qs[qi as int], c, p[0]));
                        let jj = choose|jj: int|
                            0 <= jj < ts.len() && ts[jj].1 == c && qs[qi as int].contains(ts[jj].0)
                                && ts[jj].2 == p[0];
                        assert(labels@.contains(c));
                        let li2 = choose|li2: int| 0 <= li2 < labels@.len() && labels@[li2] == c;
                        assert(dfa_target(ts, qs[qi as int], labels@[li2], v));
                    }
                }
            }
        }
        let m = discovered.len();
        let nfa_accept = nfa.vertexes[nfa.vertexes.len() - 1];
        proof {
            assert(nfa_accept == nv.accept());
        }
        let mut vertexes: Vec<usize> = Vec::new();
        let mut final_states: Vec<usize> = Vec::new();
        let mut i: usize = 0;
        while i < m
            invariant
                i <= m,
                m == qs.len(),
                vertexes@.len() == i,
                forall|k: int| 0 <= k < i ==> #[trigger] vertexes@[k] as int == k,
                forall|x: usize|
                    #[trigger] final_states@.contains(x) <==> ((x as int) < i
                        && qs[x as int].contains(nfa_accept)),
            decreases m - i,
        {
            vertexes.push(i);
            if contains_vertex(&discovered[i], nfa_accept) {
                let ghost fs0 = final_states@;
                final_states.push(i);
                proof {
                    assert(final_states@.last() == i);
                    assert forall|x: usize| #[trigger]
                        final_states@.contains(x) implies ((x as int) < i + 1
                        && qs[x as int].contains(nfa_accept)) by {
                        let k = choose|k: int|
                            0 <= k < final_states@.len() && final_states@[k] == x;
                        if k < fs0.len() {
                            assert(fs0[k] == x);
                            assert(fs0.contains(x));
                        }
                    }
                    assert forall|x: usize|
                        (x as int) < i + 1 && qs[x as int].contains(nfa_accept) implies #[trigger]
                        final_states@.contains(x) by {
                        if (x as int) < i {
                            assert(fs0.contains(x));
                            let k = choose|k: int| 0 <= k < fs0.len() && fs0[k] == x;
                            assert(final_states@[k] == x);
                        } else {
                            assert(final_states@.last() == x);
                        }
                    }
                }
            } else {
                proof {
                    assert(!discovered@[i as int]@.contains(nfa_accept));
                    assert forall|x: usize| #[trigger]
                        final_states@.contains(x) <==> ((x as int) < i + 1 && qs[x as int].contains(
                        nfa_accept,
                    )) by {
                        if x as int == i as int {
                            assert(!qs[i as int].contains(nfa_accept));
                        }
                    }
                }
            }
            i += 1;
        }
        let ghost dt_final = dtrans@;
        let d = Dfa {
            vertexes,
            final_states,
            transitions: dtrans,
            start_state: 0,
            subsets: Ghost(qs),
        };
        proof {
            let m2 = d.subsets@.len() as int;
            assert(d.vertexes@.len() == m2);
            assert(d.start_state == 0);
            assert forall|i: int, c: char, v: Vertex|
                0 <= i < m2 && c != EPSILON && #[trigger] dfa_target(nv.trans, d.subsets@[i], c, v)
                    implies exists|k: int|
                    0 <= k < d.transitions@.len() && d.transitions@[k].0 as int == i
                        && d.transitions@[k].1 == c by {
                assert(worklist@.len() == 0);
                assert(!worklist@.contains(i as usize));
                assert(d.subsets@[i] == qs[i]);
                assert(dfa_target(ts, qs[i], c, v));
                assert(d.transitions@ == dt_final);
                let k = choose|k: int|
                    0 <= k < dt_final.len() && dt_final[k].0 as int == i && dt_final[k].1 == c;
                assert(0 <= k < d.transitions@.len() && d.transitions@[k].0 as int == i
                    && d.transitions@[k].1 == c);
            }
            assert(forall|x: usize|
                #[trigger] d.final_states@.contains(x) <==> ((x as int) < m2
                    && d.subsets@[x as int].contains(nv.accept())));
            assert forall|i: int| 0 <= i < m2 implies dfa_reachable(d.transitions@, i) by {
                assert(d.transitions@ == dt_final);
                assert(dfa_reachable(dt_final, i));
            }
        }
        d
    }
}

/// The set `move(q, c)`: destinations of `c`-labeled transitions leaving
/// members of `q` (with repetitions; only membership matters).
fn move_states(nfa: &Nfa, q: &Vec<Vertex>, c: char) -> (moved: Vec<Vertex>)
    requires
        nfa@.wf(),
    ensures
        forall|k: int| 0 <= k < moved@.len() ==> (#[trigger] moved@[k] as int)
            < nfa@.states.len(),
        forall|v: Vertex| #[trigger] moved@.contains(v) <==> in_move(nfa@.trans, q@, c, v),
{
    let ghost ts = nfa@.trans;
    let mut moved: Vec<Vertex> = Vec::new();
    let mut j2: usize = 0;
    while j2 < nfa.transitions.len()
        invariant
            nfa@.wf(),
            ts == nfa@.trans,
            j2 <= ts.len(),
            forall|k: int| 0 <= k < moved@.len() ==> (#[trigger] moved@[k] as int)
                < nfa@.states.len(),
            forall|v: Vertex|
                #[trigger] moved@.contains(v) <==> exists|jj: int|
                    0 <= jj < j2 && ts[jj].1 == c && q@.contains(ts[jj].0) && ts[jj].2 == v,
        decreases ts.len() - j2,
    {
        let t = nfa.transitions[j2];
        let ghost moved0 = moved@;
        if t.1 == c {
            let mut dd = nfa.delta(q, &t);
            proof {
                assert((ts[j2 as int].2 as int) < nfa@.states.len());
            }
            moved.append(&mut dd);
        }
        proof {
            assert forall|v: Vertex|
                #[trigger] moved@.contains(v) <==> exists|jj: int|
                    0 <= jj < j2 + 1 && ts[jj].1 == c && q@.contains(ts[jj].0) && ts[jj].2
                        == v by {
                if moved@.contains(v) {
                    let k = choose|k: int| 0 <= k < moved@.len() && moved@[k] == v;
                    if k < moved0.len() {
                        assert(moved0[k] == v);
                        assert(moved0.contains(v));
                    } else {
                        assert(ts[j2 as int].1 == c && q@.contains(ts[j2 as int].0)
                            && ts[j2 as int].2 == v);
                    }
                }
                if exists|jj: int|
                    0 <= jj < j2 + 1 && ts[jj].1 == c && q@.contains(ts[jj].0) && ts[jj].2 == v {
                    let jj = choose|jj: int|
                        0 <= jj < j2 + 1 && ts[jj].1 == c && q@.contains(ts[jj].0) && ts[jj].2
                            == v;
                    if jj < j2 {
                        assert(moved0.contains(v));
                        let k = choose|k: int| 0 <= k < moved0.len() && moved0[k] == v;
                        assert(moved@[k] == v);
                    } else {
                        assert(ts[j2 as int].1 == c);
                        assert(moved@.len() > moved0.len());
                        assert(moved@.last() == v);
                    }
                }
            }
        }
        j2 += 1;
    }
    moved
}

/// The position of `t_set` among the discovered state sets, or their count
/// when it is new.
fn find_subset(discovered: &Vec<Vec<Vertex>>, t_set: &Vec<Vertex>) -> (pos: usize)
    ensures
        pos <= discovered@.len(),
        (pos as int) < discovered@.len() ==> discovered@[pos as int]@ == t_set@,
        pos as int == discovered@.len() ==> forall|mm: int|
            0 <= mm < discovered@.len() ==> discovered@[mm]@ != t_set@,
{
    let mut idx: usize = 0;
    let mut pos: usize = discovered.len();
    while idx < discovered.len()
        invariant
            idx <= discovered@.len(),
            pos as int == discovered@.len() || ((pos as int) < discovered@.len()
                && discovered@[pos as int]@ == t_set@),
            pos as int == discovered@.len() ==> forall|mm: int|
                0 <= mm < idx ==> discovered@[mm]@ != t_set@,
        decreases discovered@.len() - idx,
    {
        if pos == discovered.len() && vecs_equal(&discovered[idx], t_set) {
            pos = idx;
        }
        idx += 1;
    }
    pos
}

/// Whether `v` holds `x`.
fn contains_vertex(v: &Vec<Vertex>, x: Vertex) -> (r: bool)
    ensures
        r == v@.contains(x),
{
    let mut i: usize = 0;
    while i < v.len()
        invariant
            i <= v@.len(),
            forall|k: int| 0 <= k < i ==> v@[k] != x,
        decreases v@.len() - i,
    {
        if v[i] == x {
            proof {
                assert(v@[i as int] == x);
            }
            return true;
        }
        i += 1;
    }
    false
}

/// Whether `v` holds `c`.
fn contains_char(v: &Vec<char>, c: char) -> (r: bool)
    ensures
        r == v@.contains(c),
{
    let mut i: usize = 0;
    while i < v.len()
        invariant
            i <= v@.len(),
            forall|k: int| 0 <= k < i ==> v@[k] != c,
        decreases v@.len() - i,
    {
        if v[i] == c {
            proof {
                assert(v@[i as int] == c);
            }
            return true;
        }
        i += 1;
    }
    false
}

/// Whether two state vectors are equal element for element.
fn vecs_equal(a: &Vec<Vertex>, b: &Vec<Vertex>) -> (r: bool)
    ensures
        r == (a@ == b@),
{
    if a.len() != b.len() {
        return false;
    }
    let mut i: usize = 0;
    while i < a.len()
        invariant
            a@.len() == b@.len(),
            i <= a@.len(),
            forall|k: int| 0 <= k < i ==> a@[k] == b@[k],
        decreases a@.len() - i,
    {
        if a[i] != b[i] {
            return false;
        }
        i += 1;
    }
    proof {
        assert(a@ =~= b@);
    }
    true
}

/// An element-for-element copy of a state vector.
fn copy_states(v: &Vec<Vertex>) -> (r: Vec<Vertex>)
    ensures
        r@ == v@,
{
    let mut r: Vec<Vertex> = Vec::new();
    let mut i: usize = 0;
    while i < v.len()
        invariant
            i <= v@.len(),
            r@ == v@.take(i as int),
        decreases v@.len() - i,
    {
        r.push(v[i]);
        proof {
            assert(r@ =~= v@.take(i as int + 1));
        }
        i += 1;
    }
    proof {
        assert(v@.take(v@.len() as int) =~= v@);
    }
    r
}

} // verus!
