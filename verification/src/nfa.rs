//! The NFA model: states, labeled transitions (including epsilon), and the
//! three Thompson-construction combinators (concatenation, alternation,
//! Kleene closure), each rewriting the fragment in place.

use vstd::prelude::*;

verus! {

/// A state identifier, unique and densely numbered within one automaton.
pub type Vertex = u32;

/// The distinguished transition label that consumes no input.
pub const EPSILON: char = '\u{03b5}';

/// A labeled edge: (source state, label, destination state).
#[derive(Clone, Copy, Debug, PartialEq, Eq, Structural)]
pub struct Transition(pub Vertex, pub char, pub Vertex);

impl Transition {
    pub fn new(s: Vertex, c: char, e: Vertex) -> (t: Transition)
        ensures
            t == Transition(s, c, e),
    {
        Transition(s, c, e)
    }

    pub fn get_char(&self) -> (c: char)
        ensures
            c == self.1,
    {
        self.1
    }
}

/// The mathematical view of an automaton fragment: its state sequence and
/// its transition sequence.
#[verifier::ext_equal]
pub ghost struct NfaView {
    pub states: Seq<Vertex>,
    pub trans: Seq<Transition>,
}

/// All transitions of `ts` with both endpoints moved up by `off`.
pub open spec fn shift_trans(ts: Seq<Transition>, off: int) -> Seq<Transition> {
    ts.map_values(|t: Transition| Transition((t.0 + off) as u32, t.1, (t.2 + off) as u32))
}

impl NfaView {
    /// The fragment with no states at all (the identity of concatenation).
    pub open spec fn empty() -> NfaView {
        NfaView { states: Seq::empty(), trans: Seq::empty() }
    }

    /// The two-state, one-transition base fragment for the literal `c`.
    pub open spec fn lit(c: char) -> NfaView {
        NfaView { states: seq![0u32, 1u32], trans: seq![Transition(0u32, c, 1u32)] }
    }

    /// Well-formedness: states are exactly `0, 1, ..., len - 1` (so the start
    /// state is the first one and the accepting state is the last one), and
    /// every transition stays inside the fragment.
    pub open spec fn wf(self) -> bool {
        &&& forall|i: int| 0 <= i < self.states.len() ==> self.states[i] as int == i
        &&& forall|j: int|
            0 <= j < self.trans.len() ==> (self.trans[j].0 as int) < self.states.len()
                && (self.trans[j].2 as int) < self.states.len()
    }

    /// The start state of a nonempty fragment.
    pub open spec fn start(self) -> Vertex
        recommends
            self.states.len() > 0,
    {
        self.states[0]
    }

    /// The accepting state of a nonempty fragment.
    pub open spec fn accept(self) -> Vertex
        recommends
            self.states.len() > 0,
    {
        self.states[self.states.len() - 1]
    }

    /// Thompson concatenation: the operand's states are offset past this
    /// fragment's states and a single epsilon transition joins this
    /// fragment's accept state to the operand's start state.  An empty
    /// fragment is the identity on either side.
    pub open spec fn concatenated(self, o: NfaView) -> NfaView {
        if self.states.len() == 0 {
            o
        } else if o.states.len() == 0 {
            self
        } else {
            let off = self.states.len() as int;
            NfaView {
                states: self.states + Seq::new(
                    o.states.len(),
                    |i: int| (o.states[i] + off) as u32,
                ),
                trans: self.trans + seq![
                    Transition((off - 1) as u32, EPSILON, off as u32),
                ] + shift_trans(o.trans, off),
            }
        }
    }

    /// Thompson Kleene closure: an epsilon loop from accept back to start,
    /// a new start state (epsilon into the old start), and a new accept
    /// state (epsilon from the new start, for zero repetitions, and from
    /// the old accept).  The empty fragment is left unchanged.
    pub open spec fn starred(self) -> NfaView {
        if self.states.len() == 0 {
            self
        } else {
            let n = self.states.len() as int;
            NfaView {
                states: Seq::new((n + 2) as nat, |i: int| i as u32),
                trans: shift_trans(self.trans, 1) + seq![
                    Transition(n as u32, EPSILON, 1u32),
                    Transition(0u32, EPSILON, 1u32),
                    Transition(0u32, EPSILON, (n + 1) as u32),
                    Transition(n as u32, EPSILON, (n + 1) as u32),
                ],
            }
        }
    }

    /// Thompson alternation: a new start state with epsilon transitions to
    /// both operands' start states, and a new accept state reached by
    /// epsilon from both operands' accept states.  This fragment is shifted
    /// right by one, the operand past it.  An empty receiver is left
    /// unchanged (the operand is dropped).
    pub open spec fn alternated(self, o: NfaView) -> NfaView {
        if self.states.len() == 0 {
            self
        } else {
            let n1 = self.states.len() as int;
            let n2 = o.states.len() as int;
            NfaView {
                states: Seq::new((n1 + n2 + 2) as nat, |i: int| i as u32),
                trans: shift_trans(self.trans, 1) + seq![
                    Transition(0u32, EPSILON, 1u32),
                ] + shift_trans(o.trans, n1 + 1) + seq![
                    Transition(0u32, EPSILON, (n1 + 1) as u32),
                    Transition(n1 as u32, EPSILON, (n1 + n2 + 1) as u32),
                    Transition((n1 + n2) as u32, EPSILON, (n1 + n2 + 1) as u32),
                ],
            }
        }
    }
}

/// True when `ts` holds an epsilon transition from `u` to `v`.
pub open spec fn has_eps_edge(ts: Seq<Transition>, u: Vertex, v: Vertex) -> bool {
    exists|j: int| 0 <= j < ts.len() && ts[j] == Transition(u, EPSILON, v)
}

/// True when consecutive entries of `p` are joined by epsilon transitions.
pub open spec fn is_eps_path(ts: Seq<Transition>, p: Seq<Vertex>) -> bool {
    forall|i: int| 0 <= i < p.len() - 1 ==> #[trigger] has_eps_edge(ts, p[i], p[i + 1])
}

/// `v` belongs to the epsilon-closure of the state set `from`: some path of
/// epsilon transitions (possibly empty) leads from a state of `from` to `v`.
#[verifier::opaque]
pub open spec fn eps_reachable(ts: Seq<Transition>, from: Set<Vertex>, v: Vertex) -> bool {
    exists|p: Seq<Vertex>|
        p.len() > 0 && is_eps_path(ts, p) && from.contains(p[0]) && p.last() == v
}

/// Every state of `from` is in the epsilon-closure of `from`.
pub proof fn lemma_eps_reachable_base(ts: Seq<Transition>, from: Set<Vertex>, v: Vertex)
    requires
        from.contains(v),
    ensures
        eps_reachable(ts, from, v),
{
    reveal(eps_reachable);
    let p = seq![v];
    assert(p.len() > 0 && is_eps_path(ts, p) && from.contains(p[0]) && p.last() == v);
}

/// The epsilon-closure is closed under epsilon transitions.
pub proof fn lemma_eps_reachable_step(ts: Seq<Transition>, from: Set<Vertex>, u: Vertex, v: Vertex)
    requires
        eps_reachable(ts, from, u),
        has_eps_edge(ts, u, v),
    ensures
        eps_reachable(ts, from, v),
{
    reveal(eps_reachable);
    let p = choose|p: Seq<Vertex>|
        p.len() > 0 && is_eps_path(ts, p) && from.contains(p[0]) && #[trigger] p.last() == u;
    let q = p.push(v);
    assert forall|i: int| 0 <= i < q.len() - 1 implies #[trigger] has_eps_edge(ts, q[i], q[i + 1]) by {
        if i < p.len() - 1 {
            assert(q[i] == p[i] && q[i + 1] == p[i + 1]);
        } else {
            assert(q[i] == p.last() && q[i + 1] == v);
        }
    }
    assert(q.len() > 0 && is_eps_path(ts, q) && from.contains(q[0]) && q.last() == v);
}

proof fn lemma_path_stays_in_closed(
    ts: Seq<Transition>,
    from: Set<Vertex>,
    cl: Set<Vertex>,
    p: Seq<Vertex>,
)
    requires
        forall|v: Vertex| from.contains(v) ==> cl.contains(v),
        forall|u: Vertex, v: Vertex|
            cl.contains(u) && #[trigger] has_eps_edge(ts, u, v) ==> cl.contains(v),
        p.len() > 0,
        is_eps_path(ts, p),
        from.contains(p[0]),
    ensures
        cl.contains(p.last()),
    decreases p.len(),
{
    if p.len() == 1 {
        assert(cl.contains(p[0]));
    } else {
        let q = p.drop_last();
        assert(is_eps_path(ts, q)) by {
            assert forall|i: int| 0 <= i < q.len() - 1 implies #[trigger] has_eps_edge(ts, q[i], q[i + 1]) by {
                assert(q[i] == p[i] && q[i + 1] == p[i + 1]);
            }
        }
        lemma_path_stays_in_closed(ts, from, cl, q);
        assert(has_eps_edge(ts, p[p.len() - 2], p[(p.len() - 2) + 1]));
        assert(q.last() == p[p.len() - 2]);
    }
}

/// Any set that contains `from` and is closed under epsilon transitions
/// contains the whole epsilon-closure of `from`: the closure is the least
/// such set.
pub proof fn lemma_closed_contains_closure(ts: Seq<Transition>, from: Set<Vertex>, cl: Set<Vertex>)
    requires
        forall|v: Vertex| from.contains(v) ==> cl.contains(v),
        forall|u: Vertex, v: Vertex|
            cl.contains(u) && #[trigger] has_eps_edge(ts, u, v) ==> cl.contains(v),
    ensures
        forall|v: Vertex| eps_reachable(ts, from, v) ==> cl.contains(v),
{
    reveal(eps_reachable);
    assert forall|v: Vertex| eps_reachable(ts, from, v) implies cl.contains(v) by {
        let p = choose|p: Seq<Vertex>|
            p.len() > 0 && is_eps_path(ts, p) && from.contains(p[0]) && #[trigger] p.last() == v;
        lemma_path_stays_in_closed(ts, from, cl, p);
    }
}

/// How many entries of `s` are `false`.
pub open spec fn count_false(s: Seq<bool>) -> nat
    decreases s.len(),
{
    if s.len() == 0 {
        0
    } else {
        count_false(s.drop_last()) + if s.last() {
            0nat
        } else {
            1nat
        }
    }
}

proof fn lemma_count_false_update(s: Seq<bool>, j: int)
    requires
        0 <= j < s.len(),
        !s[j],
    ensures
        count_false(s.update(j, true)) < count_false(s),
    decreases s.len(),
{
    let t = s.update(j, true);
    if j == s.len() - 1 {
        assert(t.drop_last() =~= s.drop_last());
        assert(t.last() && !s.last());
    } else {
        assert(t.drop_last() =~= s.drop_last().update(j, true));
        assert(t.last() == s.last());
        lemma_count_false_update(s.drop_last(), j);
    }
}

/// The number of occurrences of `x` in `s`.
pub open spec fn count_eq(s: Seq<Vertex>, x: Vertex) -> nat
    decreases s.len(),
{
    if s.len() == 0 {
        0
    } else {
        count_eq(s.drop_last(), x) + if s.last() == x {
            1nat
        } else {
            0nat
        }
    }
}


/// The empty fragment is the identity of concatenation, on either side.
pub proof fn lemma_concat_identity(a: NfaView)
    requires
        a.wf(),
    ensures
        NfaView::empty().concatenated(a) == a,
        a.concatenated(NfaView::empty()) == a,
{
    if a.states.len() == 0 {
        assert(a.trans.len() == 0) by {
            if a.trans.len() > 0 {
                assert((a.trans[0].0 as int) < a.states.len());
            }
        }
        assert(a.states =~= Seq::<Vertex>::empty());
        assert(a.trans =~= Seq::<Transition>::empty());
        assert(a == NfaView::empty());
    }
}

/// Concatenation of well-formed fragments is associative: grouping three
/// fragments either way yields the same automaton outright, so in
/// particular both groupings accept the same language.  The size bound
/// keeps every shifted state identifier within the state type.
pub proof fn lemma_concat_associative(a: NfaView, b: NfaView, c: NfaView)
    requires
        a.wf(),
        b.wf(),
        c.wf(),
        a.states.len() + b.states.len() + c.states.len() <= u32::MAX,
    ensures
        a.concatenated(b).concatenated(c) == a.concatenated(b.concatenated(c)),
{
    let na = a.states.len() as int;
    let nb = b.states.len() as int;
    let nc = c.states.len() as int;
    if na == 0 || nb == 0 || nc == 0 {
    } else {
        let ab = a.concatenated(b);
        let bc = b.concatenated(c);
        let lhs = ab.concatenated(c);
        let rhs = a.concatenated(bc);
        assert(ab.states.len() == na + nb);
        assert(bc.states.len() == nb + nc);
        assert(lhs.states.len() == na + nb + nc);
        assert(rhs.states.len() == na + nb + nc);
        assert forall|i: int| 0 <= i < na + nb + nc implies lhs.states[i] == rhs.states[i] by {
            if i < na {
            } else if i < na + nb {
                assert(lhs.states[i] == ab.states[i]);
                assert(ab.states[i] == (b.states[i - na] + na) as u32);
                assert(rhs.states[i] == (bc.states[i - na] + na) as u32);
                assert(bc.states[i - na] == b.states[i - na]);
            } else {
                assert(lhs.states[i] == (c.states[i - na - nb] + (na + nb)) as u32);
                assert(rhs.states[i] == (bc.states[i - na] + na) as u32);
                assert(bc.states[i - na] == (c.states[i - na - nb] + nb) as u32);
                assert((c.states[i - na - nb] as int) < nc);
            }
        }
        assert(lhs.states =~= rhs.states);
        let ta = a.trans.len() as int;
        let tb = b.trans.len() as int;
        let tc = c.trans.len() as int;
        assert(ab.trans.len() == ta + 1 + tb);
        assert(bc.trans.len() == tb + 1 + tc);
        assert(lhs.trans.len() == ta + 1 + tb + 1 + tc);
        assert(rhs.trans.len() == ta + 1 + tb + 1 + tc);
        assert forall|j: int| 0 <= j < lhs.trans.len() implies lhs.trans[j] == rhs.trans[j] by {
            if j < ta {
                assert(lhs.trans[j] == ab.trans[j]);
                assert(ab.trans[j] == a.trans[j]);
                assert(rhs.trans[j] == a.trans[j]);
            } else if j == ta {
                assert(lhs.trans[j] == ab.trans[j]);
                assert(ab.trans[j] == Transition((na - 1) as u32, EPSILON, na as u32));
                assert(rhs.trans[j] == Transition((na - 1) as u32, EPSILON, na as u32));
            } else if j < ta + 1 + tb {
                let k = j - ta - 1;
                assert(lhs.trans[j] == ab.trans[j]);
                assert(ab.trans[j] == shift_trans(b.trans, na)[k]);
                assert(rhs.trans[j] == shift_trans(bc.trans, na)[k]);
                assert(bc.trans[k] == b.trans[k]);
                assert((b.trans[k].0 as int) < nb && (b.trans[k].2 as int) < nb);
            } else if j == ta + 1 + tb {
                assert(lhs.trans[j] == Transition((na + nb - 1) as u32, EPSILON, (na + nb) as u32));
                assert(rhs.trans[j] == shift_trans(bc.trans, na)[j - ta - 1]);
                assert(bc.trans[tb as int] == Transition((nb - 1) as u32, EPSILON, nb as u32));
            } else {
                let k = j - (ta + 1 + tb + 1);
                assert(lhs.trans[j] == shift_trans(c.trans, na + nb)[k]);
                assert(rhs.trans[j] == shift_trans(bc.trans, na)[j - ta - 1]);
                assert(bc.trans[j - ta - 1] == shift_trans(c.trans, nb)[k]);
                assert((c.trans[k].0 as int) < nc && (c.trans[k].2 as int) < nc);
            }
        }
        assert(lhs.trans =~= rhs.trans);
        assert(lhs == rhs);
    }
}

/// Kleene closure always makes the accept state reachable from the start
/// state through epsilon transitions alone: the zero-repetition case.
pub proof fn lemma_star_zero_repetitions(v: NfaView)
    requires
        v.wf(),
        v.states.len() > 0,
    ensures
        eps_reachable(v.starred().trans, set![v.starred().start()], v.starred().accept()),
{
    reveal(eps_reachable);
    let w = v.starred();
    let n = v.states.len() as int;
    assert(w.start() == 0u32);
    assert(w.states[n + 1] == (n + 1) as u32);
    assert(w.accept() == (n + 1) as u32);
    let ts = w.trans;
    let idx = v.trans.len() + 2;
    assert(ts[idx as int] == Transition(0u32, EPSILON, (n + 1) as u32));
    assert(has_eps_edge(ts, 0u32, (n + 1) as u32));
    let p = seq![0u32, (n + 1) as u32];
    assert(is_eps_path(ts, p)) by {
        assert forall|i: int| 0 <= i < p.len() - 1 implies #[trigger] has_eps_edge(
            ts,
            p[i],
            p[i + 1],
        ) by {
            assert(p[0] == 0u32 && p[1] == (n + 1) as u32);
        }
    }
    assert(p.len() > 0 && set![w.start()].contains(p[0]) && p.last() == w.accept());
}

/// A nondeterministic finite automaton fragment with exactly one start
/// state (the first) and one accepting state (the last).
#[derive(Clone, Debug)]
pub struct Nfa {
    pub vertexes: Vec<Vertex>,
    pub transitions: Vec<Transition>,
}

impl View for Nfa {
    type V = NfaView;

    open spec fn view(&self) -> NfaView {
        NfaView { states: self.vertexes@, trans: self.transitions@ }
    }
}

impl Default for Nfa {
    /// The empty fragment.
    fn default() -> (r: Nfa)
        ensures
            r@ == NfaView::empty(),
    {
        let r = Nfa { vertexes: Vec::new(), transitions: Vec::new() };
        proof {
            assert(r@ =~= NfaView::empty());
        }
        r
    }
}

impl Nfa {
    /// The base fragment for one literal character: two states and one
    /// transition from start to accept labeled `c`.
    pub fn new(c: char) -> (r: Nfa)
        ensures
            r@ == NfaView::lit(c),
            r@.wf(),
    {
        let mut vertexes: Vec<Vertex> = Vec::new();
        vertexes.push(0);
        vertexes.push(1);
        let mut transitions: Vec<Transition> = Vec::new();
        transitions.push(Transition(0, c, 1));
        let r = Nfa { vertexes, transitions };
        proof {
            assert(r@ =~= NfaView::lit(c));
        }
        r
    }

    pub fn transitions(&self) -> (ts: &Vec<Transition>)
        ensures
            ts@ == self@.trans,
    {
        &self.transitions
    }

    pub fn get_start_state(&self) -> (s: Option<&Vertex>)
        ensures
            self@.states.len() == 0 ==> s is None,
            self@.states.len() > 0 ==> s == Some(&self@.start()),
    {
        if self.vertexes.len() > 0 {
            Some(&self.vertexes[0])
        } else {
            None
        }
    }

    pub fn get_final_state(&self) -> (s: Option<&Vertex>)
        ensures
            self@.states.len() == 0 ==> s is None,
            self@.states.len() > 0 ==> s == Some(&self@.accept()),
    {
        if self.vertexes.len() > 0 {
            Some(&self.vertexes[self.vertexes.len() - 1])
        } else {
            None
        }
    }

    /// Moves every state identifier (and both endpoints of every
    /// transition) up by one, making room for a new state 0.
    fn shift_right(&mut self)
        requires
            forall|i: int|
                0 <= i < old(self)@.states.len() ==> old(self)@.states[i] < u32::MAX,
            forall|j: int|
                0 <= j < old(self)@.trans.len() ==> old(self)@.trans[j].0 < u32::MAX
                    && old(self)@.trans[j].2 < u32::MAX,
        ensures
            final(self)@.states == old(self)@.states.map_values(|v: Vertex| (v + 1) as u32),
            final(self)@.trans == shift_trans(old(self)@.trans, 1),
    {
        let ghost orig = self@;
        let mut j: usize = 0;
        while j < self.transitions.len()
            invariant
                self@.states == orig.states,
                self@.trans.len() == orig.trans.len(),
                j <= orig.trans.len(),
                forall|k: int| 0 <= k < j ==> self@.trans[k] == shift_trans(orig.trans, 1)[k],
                forall|k: int| j <= k < orig.trans.len() ==> self@.trans[k] == orig.trans[k],
                forall|k: int|
                    0 <= k < orig.trans.len() ==> orig.trans[k].0 < u32::MAX && orig.trans[k].2
                        < u32::MAX,
            decreases orig.trans.len() - j,
        {
            let t = self.transitions[j];
            proof {
                assert(self@.trans[j as int] == orig.trans[j as int]);
                assert(orig.trans[j as int].0 < u32::MAX && orig.trans[j as int].2 < u32::MAX);
            }
            self.transitions.set(j, Transition(t.0 + 1, t.1, t.2 + 1));
            j += 1;
        }
        proof {
            assert(self@.trans =~= shift_trans(orig.trans, 1));
        }
        let mut i: usize = 0;
        while i < self.vertexes.len()
            invariant
                self@.trans == shift_trans(orig.trans, 1),
                self@.states.len() == orig.states.len(),
                i <= orig.states.len(),
                forall|k: int|
                    0 <= k < i ==> self@.states[k] == orig.states.map_values(
                        |v: Vertex| (v + 1) as u32,
                    )[k],
                forall|k: int| i <= k < orig.states.len() ==> self@.states[k] == orig.states[k],
                forall|k: int| 0 <= k < orig.states.len() ==> orig.states[k] < u32::MAX,
            decreases orig.states.len() - i,
        {
            let v = self.vertexes[i];
            proof {
                assert(self@.states[i as int] == orig.states[i as int]);
                assert(orig.states[i as int] < u32::MAX);
            }
            self.vertexes.set(i, v + 1);
            i += 1;
        }
        proof {
            assert(self@.states =~= orig.states.map_values(|v: Vertex| (v + 1) as u32));
        }
    }

    /// Concatenation: appends the operand (its states offset past this
    /// fragment's) and joins this fragment's accept state to the operand's
    /// start state with an epsilon transition.  Concatenating an empty
    /// operand is a no-op; concatenating onto an empty receiver yields the
    /// operand.
    pub fn concatenate(&mut self, op: &Nfa)
        requires
            old(self)@.wf(),
            op@.wf(),
            old(self)@.states.len() + op@.states.len() <= u32::MAX,
        ensures
            final(self)@ == old(self)@.concatenated(op@),
            final(self)@.wf(),
    {
        let ghost orig = self@;
        if self.vertexes.len() > 0 && op.vertexes.len() > 0 {
            let n1 = self.vertexes.len();
            let offset: u32 = self.vertexes[n1 - 1] + 1;
            assert(offset as int == n1 as int);
            let mut k: usize = 0;
            while k < op.vertexes.len()
                invariant
                    orig.states.len() == n1,
                    offset as int == n1 as int,
                    n1 as int + op@.states.len() <= u32::MAX,
                    op@.wf(),
                    k <= op@.states.len(),
                    self@.trans == orig.trans,
                    self@.states.len() == n1 + k,
                    forall|i: int| 0 <= i < n1 ==> self@.states[i] == orig.states[i],
                    forall|i: int|
                        0 <= i < k ==> self@.states[n1 + i] == (op@.states[i] + n1) as u32,
                decreases op@.states.len() - k,
            {
                let v = op.vertexes[k];
                self.vertexes.push(v + offset);
                k += 1;
            }
            self.transitions.push(Transition(offset - 1, EPSILON, offset));
            let ghost mid_trans = self@.trans;
            let mut k: usize = 0;
            while k < op.transitions.len()
                invariant
                    orig.states.len() == n1,
                    offset as int == n1 as int,
                    n1 as int + op@.states.len() <= u32::MAX,
                    op@.wf(),
                    k <= op@.trans.len(),
                    self@.states == orig.states + Seq::new(
                        op@.states.len(),
                        |i: int| (op@.states[i] + n1 as int) as u32,
                    ),
                    mid_trans == orig.trans + seq![
                        Transition((n1 - 1) as u32, EPSILON, n1 as u32),
                    ],
                    self@.trans.len() == mid_trans.len() + k,
                    forall|i: int| 0 <= i < mid_trans.len() ==> self@.trans[i] == mid_trans[i],
                    forall|i: int|
                        0 <= i < k ==> self@.trans[mid_trans.len() + i] == shift_trans(
                            op@.trans,
                            n1 as int,
                        )[i],
                decreases op@.trans.len() - k,
            {
                let t = op.transitions[k];
                self.transitions.push(Transition(t.0 + offset, t.1, t.2 + offset));
                k += 1;
            }
            proof {
                assert(self@.states =~= orig.concatenated(op@).states);
                assert(self@.trans =~= orig.concatenated(op@).trans);
                assert(self@ =~= orig.concatenated(op@));
            }
        } else if op.vertexes.len() > 0 {
            let mut k: usize = 0;
            while k < op.vertexes.len()
                invariant
                    orig.states.len() == 0,
                    self@.trans == orig.trans,
                    k <= op@.states.len(),
                    self@.states == op@.states.take(k as int),
                decreases op@.states.len() - k,
            {
                self.vertexes.push(op.vertexes[k]);
                k += 1;
            }
            proof {
                assert(orig.trans.len() == 0) by {
                    if orig.trans.len() > 0 {
                        assert((orig.trans[0].0 as int) < orig.states.len());
                    }
                }
                assert(self@.states =~= op@.states);
            }
            let mut k: usize = 0;
            while k < op.transitions.len()
                invariant
                    orig.states.len() == 0,
                    orig.trans.len() == 0,
                    self@.states == op@.states,
                    k <= op@.trans.len(),
                    self@.trans == orig.trans + op@.trans.take(k as int),
                decreases op@.trans.len() - k,
            {
                self.transitions.push(op.transitions[k]);
                k += 1;
            }
            proof {
                assert(self@.states =~= op@.states);
                assert(self@.trans =~= op@.trans);
                assert(orig.concatenated(op@) == op@);
                assert(self@ == NfaView { states: op@.states, trans: op@.trans });
            }
        } else {
            proof {
                if orig.states.len() == 0 {
                    assert(orig.trans.len() == 0) by {
                        if orig.trans.len() > 0 {
                            assert((orig.trans[0].0 as int) < orig.states.len());
                        }
                    }
                    assert(op@.trans.len() == 0) by {
                        if op@.trans.len() > 0 {
                            assert((op@.trans[0].0 as int) < op@.states.len());
                        }
                    }
                    assert(self@.states =~= op@.states);
                    assert(self@.trans =~= op@.trans);
                    assert(self@ == NfaView { states: op@.states, trans: op@.trans });
                }
            }
        }
    }

    /// Kleene closure in place: adds the epsilon loop, a new start state and
    /// a new accept state, accepting zero or more repetitions.  The empty
    /// fragment is left unchanged.
    pub fn kleene(&mut self)
        requires
            old(self)@.wf(),
            old(self)@.states.len() + 2 <= u32::MAX,
        ensures
            final(self)@ == old(self)@.starred(),
            final(self)@.wf(),
    {
        let ghost orig = self@;
        if self.vertexes.len() > 0 {
            let n = self.vertexes.len();
            let start_state = self.vertexes[0];
            let final_state = self.vertexes[n - 1];
            self.transitions.push(Transition(final_state, EPSILON, start_state));
            proof {
                assert(forall|i: int|
                    0 <= i < self@.states.len() ==> #[trigger] self@.states[i] < u32::MAX);
                assert forall|j: int|
                    0 <= j < self@.trans.len() implies #[trigger] self@.trans[j].0 < u32::MAX
                        && self@.trans[j].2 < u32::MAX by {
                    if j < orig.trans.len() {
                        assert(self@.trans[j] == orig.trans[j]);
                        assert((orig.trans[j].0 as int) < orig.states.len());
                        assert((orig.trans[j].2 as int) < orig.states.len());
                    } else {
                        assert(self@.trans[j] == Transition(final_state, EPSILON, start_state));
                    }
                }
            }
            self.shift_right();
            let ghost shifted = self@;
            proof {
                assert(shifted.states.len() == n);
                assert(forall|i: int|
                    0 <= i < n ==> shifted.states[i] == (orig.states[i] + 1) as u32);
            }
            let start_state = self.vertexes[0];
            assert(start_state == 1u32);
            self.vertexes.insert(0, start_state - 1);
            self.transitions.push(Transition(start_state - 1, EPSILON, start_state));
            let m = self.vertexes.len();
            let start_state = self.vertexes[0];
            let final_state = self.vertexes[m - 1];
            assert(start_state == 0u32 && final_state as int == n as int);
            self.vertexes.push(final_state + 1);
            self.transitions.push(Transition(start_state, EPSILON, final_state + 1));
            self.transitions.push(Transition(final_state, EPSILON, final_state + 1));
            proof {
                assert(self@.states =~= orig.starred().states);
                assert(self@.trans =~= orig.starred().trans);
                assert(self@ == orig.starred());
            }
        }
    }

    /// Alternation in place: a new start state with epsilon transitions to
    /// both operands' start states and a new accept state reached by epsilon
    /// from both operands' accept states.  An empty receiver is left
    /// unchanged.
    pub fn or(&mut self, operand: &Nfa)
        requires
            old(self)@.wf(),
            operand@.wf(),
            old(self)@.states.len() > 0 ==> operand@.states.len() > 0,
            old(self)@.states.len() + operand@.states.len() + 2 <= u32::MAX,
        ensures
            final(self)@ == old(self)@.alternated(operand@),
            final(self)@.wf(),
    {
        let ghost orig = self@;
        if self.vertexes.len() > 0 {
            let n1 = self.vertexes.len();
            proof {
                assert(forall|j: int|
                    0 <= j < orig.trans.len() ==> (#[trigger] orig.trans[j].0 as int)
                        < orig.states.len() && (orig.trans[j].2 as int) < orig.states.len());
                assert(forall|i: int|
                    0 <= i < self@.states.len() ==> #[trigger] self@.states[i] < u32::MAX);
                assert(forall|j: int|
                    0 <= j < self@.trans.len() ==> #[trigger] self@.trans[j].0 < u32::MAX
                        && self@.trans[j].2 < u32::MAX);
            }
            self.shift_right();
            proof {
                assert(forall|i: int|
                    0 <= i < n1 ==> self@.states[i] == (orig.states[i] + 1) as u32);
            }
            let self_start_state = self.vertexes[0];
            assert(self_start_state == 1u32);
            self.vertexes.insert(0, self_start_state - 1);
            proof {
                assert(self@.states.len() == n1 + 1);
                assert forall|i: int|
                    0 <= i < n1 + 1 implies #[trigger] self@.states[i] as int == i by {
                    if i >= 1 {
                        assert(self@.states[i] == (orig.states[i - 1] + 1) as u32);
                        assert(orig.states[i - 1] as int == i - 1);
                    }
                }
            }
            self.transitions.push(Transition(0, EPSILON, self.vertexes[1]));
            let self_final_state = self.vertexes[self.vertexes.len() - 1];
            assert(self_final_state as int == n1 as int);
            let last_vertex = self_final_state + 1;
            let ghost pre_states = self@.states;
            let ghost pre_trans = self@.trans;
            proof {
                assert(pre_trans =~= shift_trans(orig.trans, 1) + seq![
                    Transition(0u32, EPSILON, 1u32),
                ]);
            }
            let mut k: usize = 0;
            while k < operand.vertexes.len()
                invariant
                    operand@.wf(),
                    last_vertex as int == n1 + 1,
                    n1 + 1 + operand@.states.len() <= u32::MAX,
                    k <= operand@.states.len(),
                    self@.trans == pre_trans,
                    self@.states.len() == n1 + 1 + k,
                    forall|i: int|
                        0 <= i < n1 + 1 + k ==> #[trigger] self@.states[i] as int == i,
                decreases operand@.states.len() - k,
            {
                let v = operand.vertexes[k];
                proof {
                    assert(operand@.states[k as int] as int == k as int);
                }
                self.vertexes.push(v + last_vertex);
                k += 1;
            }
            let ghost mid_states = self@.states;
            let mut k: usize = 0;
            while k < operand.transitions.len()
                invariant
                    operand@.wf(),
                    last_vertex as int == n1 + 1,
                    n1 + 1 + operand@.states.len() <= u32::MAX,
                    k <= operand@.trans.len(),
                    self@.states == mid_states,
                    self@.trans.len() == pre_trans.len() + k,
                    forall|i: int| 0 <= i < pre_trans.len() ==> self@.trans[i] == pre_trans[i],
                    forall|i: int|
                        pre_trans.len() <= i < pre_trans.len() + k ==> #[trigger] self@.trans[i]
                            == shift_trans(operand@.trans, n1 + 1)[i - pre_trans.len()],
                decreases operand@.trans.len() - k,
            {
                let t = operand.transitions[k];
                proof {
                    assert((operand@.trans[k as int].0 as int) < operand@.states.len());
                    assert((operand@.trans[k as int].2 as int) < operand@.states.len());
                }
                self.transitions.push(Transition(t.0 + last_vertex, t.1, t.2 + last_vertex));
                k += 1;
            }
            proof {
                assert(operand@.states[0] as int == 0);
            }
            self.transitions.push(Transition(0, EPSILON, operand.vertexes[0] + last_vertex));
            let op_final_state = self.vertexes[self.vertexes.len() - 1];
            assert(op_final_state as int == n1 + operand@.states.len());
            let nfa_final_state = op_final_state + 1;
            self.vertexes.push(nfa_final_state);
            self.transitions.push(Transition(self_final_state, EPSILON, nfa_final_state));
            self.transitions.push(Transition(op_final_state, EPSILON, nfa_final_state));
            proof {
                let fin = orig.alternated(operand@);
                let n2 = operand@.states.len() as int;
                let n2t = operand@.trans.len() as int;
                assert(self@.states.len() == n1 + n2 + 2);
                assert forall|i: int|
                    0 <= i < self@.states.len() implies self@.states[i] == fin.states[i] by {
                    if i < n1 + 1 + n2 {
                        assert(mid_states[i] as int == i);
                    }
                }
                assert(self@.states =~= fin.states);
                let l0 = orig.trans.len() as int;
                assert(self@.trans.len() == l0 + 1 + n2t + 3);
                assert(fin.trans.len() == l0 + 1 + n2t + 3);
                assert forall|i: int|
                    0 <= i < self@.trans.len() implies self@.trans[i] == fin.trans[i] by {
                    if i < l0 + 1 {
                        assert(self@.trans[i] == pre_trans[i]);
                    } else if i < l0 + 1 + n2t {
                        assert(self@.trans[i] == shift_trans(operand@.trans, n1 + 1)[i - l0
                            - 1]);
                    }
                }
                assert(self@.trans =~= fin.trans);
                assert(self@ == fin);
            }
        }
    }

    /// The epsilon-closure of `states`: every state reachable from a member
    /// of `states` using only epsilon transitions, the members themselves
    /// included.  The result is strictly increasing, so it is duplicate-free
    /// and two equal closures are equal as vectors.
    pub fn epsilon_closure(&self, states: &Vec<Vertex>) -> (r: Vec<Vertex>)
        requires
            self@.wf(),
            forall|i: int| 0 <= i < states@.len() ==> (states@[i] as int) < self@.states.len(),
        ensures
            forall|a: int, b: int| 0 <= a < b < r@.len() ==> r@[a] < r@[b],
            forall|i: int| 0 <= i < r@.len() ==> (r@[i] as int) < self@.states.len(),
            forall|v: Vertex|
                #[trigger] r@.contains(v) <==> eps_reachable(self@.trans, states@.to_set(), v),
    {
        let ghost ts = self@.trans;
        let ghost from = states@.to_set();
        let n = self.vertexes.len();
        let mut visited: Vec<bool> = Vec::new();
        let mut i: usize = 0;
        while i < n
            invariant
                i <= n,
                visited@.len() == i,
                forall|k: int| 0 <= k < i ==> !visited@[k],
            decreases n - i,
        {
            visited.push(false);
            i += 1;
        }
        let mut worklist: Vec<Vertex> = Vec::new();
        let mut i: usize = 0;
        while i < states.len()
            invariant
                self@.wf(),
                ts == self@.trans,
                from == states@.to_set(),
                n == self@.states.len(),
                forall|k: int| 0 <= k < states@.len() ==> (states@[k] as int) < n,
                i <= states@.len(),
                visited@.len() == n,
                forall|k: int|
                    0 <= k < worklist@.len() ==> (worklist@[k] as int) < n
                        && visited@[worklist@[k] as int],
                forall|v: Vertex| (v as int) < n && visited@[v as int] ==> worklist@.contains(v),
                forall|v: Vertex|
                    (v as int) < n && #[trigger] visited@[v as int] ==> eps_reachable(
                        ts,
                        from,
                        v,
                    ),
                forall|k: int| 0 <= k < i ==> visited@[states@[k] as int],
            decreases states@.len() - i,
        {
            let s = states[i];
            let ghost vis0 = visited@;
            let ghost wl0 = worklist@;
            if !visited[s as usize] {
                visited.set(s as usize, true);
                worklist.push(s);
                proof {
                    assert(from.contains(s)) by {
                        assert(states@[i as int] == s);
                    }
                    lemma_eps_reachable_base(ts, from, s);
                    assert(worklist@.last() == s);
                    assert forall|v: Vertex|
                        (v as int) < n && visited@[v as int] implies worklist@.contains(v) by {
                        if v != s {
                            assert(vis0[v as int]);
                            assert(wl0.contains(v));
                            let k = choose|k: int| 0 <= k < wl0.len() && wl0[k] == v;
                            assert(worklist@[k] == v);
                        }
                    }
                }
            }
            i += 1;
        }
        proof {
            assert(n <= 0x1_0000_0000int) by {
                if n > 0x1_0000_0000int {
                    assert(self@.states[0x1_0000_0000int] as int == 0x1_0000_0000int);
                }
            }
        }
        while worklist.len() > 0
            invariant
                self@.wf(),
                ts == self@.trans,
                from == states@.to_set(),
                n == self@.states.len(),
                visited@.len() == n,
                forall|k: int| 0 <= k < states@.len() ==> (states@[k] as int) < n,
                forall|k: int|
                    0 <= k < worklist@.len() ==> (worklist@[k] as int) < n
                        && visited@[worklist@[k] as int],
                forall|v2: Vertex|
                    (v2 as int) < n && #[trigger] visited@[v2 as int] ==> eps_reachable(
                        ts,
                        from,
                        v2,
                    ),
                forall|k: int| 0 <= k < states@.len() ==> visited@[states@[k] as int],
                forall|j2: int|
                    0 <= j2 < ts.len() && ts[j2].1 == EPSILON && visited@[ts[j2].0 as int]
                        && !worklist@.contains(ts[j2].0) ==> visited@[ts[j2].2 as int],
            decreases count_false(visited@), worklist@.len(),
        {
            let ghost wl_before = worklist@;
            let v = worklist.pop().unwrap();
            proof {
                assert(v == wl_before.last());
                assert(worklist@ == wl_before.drop_last());
                assert forall|s2: Vertex|
                    wl_before.contains(s2) && s2 != v implies worklist@.contains(s2) by {
                    let k = choose|k: int| 0 <= k < wl_before.len() && wl_before[k] == s2;
                    assert(k < wl_before.len() - 1);
                    assert(worklist@[k] == s2);
                }
            }
            let ghost cf0 = count_false(visited@);
            let ghost wl0 = worklist@;
            let mut j: usize = 0;
            while j < self.transitions.len()
                invariant
                    self@.wf(),
                    ts == self@.trans,
                    from == states@.to_set(),
                    n == self@.states.len(),
                    visited@.len() == n,
                    j <= ts.len(),
                    forall|k: int| 0 <= k < states@.len() ==> (states@[k] as int) < n,
                    (v as int) < n && visited@[v as int],
                    forall|k: int|
                        0 <= k < worklist@.len() ==> (worklist@[k] as int) < n
                            && visited@[worklist@[k] as int],
                    forall|v2: Vertex|
                        (v2 as int) < n && #[trigger] visited@[v2 as int] ==> eps_reachable(
                            ts,
                            from,
                            v2,
                        ),
                    forall|k: int| 0 <= k < states@.len() ==> visited@[states@[k] as int],
                    forall|j2: int|
                        0 <= j2 < ts.len() && ts[j2].1 == EPSILON && visited@[ts[j2].0 as int]
                            && !worklist@.contains(ts[j2].0) && !(ts[j2].0 == v && j <= j2)
                            ==> visited@[ts[j2].2 as int],
                    count_false(visited@) <= cf0,
                    count_false(visited@) == cf0 ==> worklist@ == wl0,
                decreases ts.len() - j,
            {
                let t = self.transitions[j];
                if t.0 == v && t.1 == EPSILON {
                    let d = t.2;
                    proof {
                        assert((ts[j as int].2 as int) < n);
                    }
                    if !visited[d as usize] {
                        proof {
                            lemma_count_false_update(visited@, d as int);
                            assert(has_eps_edge(ts, v, d)) by {
                                assert(ts[j as int] == Transition(v, EPSILON, d));
                            }
                            lemma_eps_reachable_step(ts, from, v, d);
                        }
                        let ghost wl_pre = worklist@;
                        visited.set(d as usize, true);
                        worklist.push(d);
                        proof {
                            assert(worklist@.last() == d);
                            assert(worklist@.contains(d));
                            assert forall|x: Vertex|
                                wl_pre.contains(x) implies worklist@.contains(x) by {
                                let k = choose|k: int| 0 <= k < wl_pre.len() && wl_pre[k] == x;
                                assert(worklist@[k] == x);
                            }
                        }
                    }
                }
                j += 1;
            }
        }
        let mut r: Vec<Vertex> = Vec::new();
        let mut i: usize = 0;
        while i < n
            invariant
                n == self@.states.len(),
                visited@.len() == n,
                i <= n,
                n <= 0x1_0000_0000int,
                forall|a: int, b: int| 0 <= a < b < r@.len() ==> r@[a] < r@[b],
                forall|k: int| 0 <= k < r@.len() ==> (r@[k] as int) < i,
                forall|v: Vertex|
                    #[trigger] r@.contains(v) <==> ((v as int) < i && visited@[v as int]),
            decreases n - i,
        {
            if visited[i] {
                let ghost r_pre = r@;
                r.push(i as u32);
                proof {
                    assert(r@.last() == i as u32);
                    assert(r@.contains(i as u32));
                    assert forall|v: Vertex|
                        #[trigger] r@.contains(v) implies ((v as int) < i + 1 && visited@[v as int])
                        by {
                        let k = choose|k: int| 0 <= k < r@.len() && r@[k] == v;
                        if k < r_pre.len() {
                            assert(r_pre[k] == v);
                            assert(r_pre.contains(v));
                        }
                    }
                    assert forall|v: Vertex|
                        (v as int) < i + 1 && visited@[v as int] implies #[trigger] r@.contains(v)
                        by {
                        if (v as int) < i {
                            assert(r_pre.contains(v));
                            let k = choose|k: int| 0 <= k < r_pre.len() && r_pre[k] == v;
                            assert(r@[k] == v);
                        }
                    }
                }
            } else {
                proof {
                    assert forall|v: Vertex|
                        #[trigger] r@.contains(v) <==> ((v as int) < i + 1 && visited@[v as int])
                        by {
                        if (v as int) == i as int {
                            assert(!visited@[v as int]);
                        }
                    }
                }
            }
            i += 1;
        }
        proof {
            let cl = Set::new(|v: Vertex| (v as int) < n && visited@[v as int]);
            assert forall|v: Vertex| from.contains(v) implies cl.contains(v) by {
                let k = choose|k: int| 0 <= k < states@.len() && states@[k] == v;
                assert(visited@[states@[k] as int]);
            }
            assert forall|u: Vertex, v: Vertex|
                cl.contains(u) && #[trigger] has_eps_edge(ts, u, v) implies cl.contains(v) by {
                let j2 = choose|j2: int| 0 <= j2 < ts.len() && ts[j2] == Transition(u, EPSILON, v);
                assert((ts[j2].2 as int) < n);
                assert(visited@[ts[j2].2 as int]);
            }
            lemma_closed_contains_closure(ts, from, cl);
            assert forall|v: Vertex|
                #[trigger] r@.contains(v) <==> eps_reachable(ts, from, v) by {
                if r@.contains(v) {
                    assert(visited@[v as int]);
                }
                if eps_reachable(ts, from, v) {
                    assert(cl.contains(v));
                }
            }
        }
        r
    }

    /// All destination states obtained by following `transition` from each
    /// member of `states` that equals its source: one copy of the
    /// destination per matching member.
    pub fn delta(&self, states: &Vec<Vertex>, transition: &Transition) -> (r: Vec<Vertex>)
        ensures
            forall|i: int| 0 <= i < r@.len() ==> r@[i] == transition.2,
            r@.len() == count_eq(states@, transition.0),
            r@.len() > 0 <==> states@.contains(transition.0),
    {
        let mut r: Vec<Vertex> = Vec::new();
        let mut i: usize = 0;
        while i < states.len()
            invariant
                i <= states@.len(),
                forall|k: int| 0 <= k < r@.len() ==> r@[k] == transition.2,
                r@.len() == count_eq(states@.take(i as int), transition.0),
                r@.len() > 0 <==> exists|k: int| 0 <= k < i && states@[k] == transition.0,
            decreases states@.len() - i,
        {
            let state = states[i];
            proof {
                assert(states@.take(i as int + 1).drop_last() =~= states@.take(i as int));
                assert(states@.take(i as int + 1).last() == states@[i as int]);
            }
            if transition.0 == state {
                r.push(transition.2);
            }
            i += 1;
        }
        proof {
            assert(states@.take(states@.len() as int) =~= states@);
            assert((r@.len() > 0) == states@.contains(transition.0)) by {
                if states@.contains(transition.0) {
                    let k = choose|k: int| 0 <= k < states@.len() && states@[k] == transition.0;
                    assert(0 <= k < states@.len() && states@[k] == transition.0);
                }
            }
        }
        r
    }
}

} // verus!
