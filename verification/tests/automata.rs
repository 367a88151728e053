use nfa::algorithms::re_to_nfa;
use nfa::dfa::{Dfa, DfaTransition};
use nfa::error::ParseErrorKind;
use nfa::nfa::{Nfa, Transition, EPSILON};

fn dfa_step(d: &Dfa, from: usize, ch: char) -> Option<usize> {
    let mut found = None;
    for t in &d.transitions {
        if t.0 == from && t.1 == ch {
            assert!(found.is_none(), "two transitions for one (state, char)");
            found = Some(t.2);
        }
    }
    found
}

fn is_final(d: &Dfa, state: usize) -> bool {
    d.final_states.contains(&state)
}

#[test]
fn literal_nfa_has_two_states_one_transition() {
    let n = Nfa::new('c');
    assert_eq!(n.vertexes, vec![0, 1]);
    assert_eq!(n.transitions, vec![Transition(0, 'c', 1)]);
    assert_eq!(n.get_start_state(), Some(&0));
    assert_eq!(n.get_final_state(), Some(&1));
    assert_eq!(n.transitions()[0].get_char(), 'c');
}

#[test]
fn concatenation_is_associative_on_fragments() {
    let a = Nfa::new('a');
    let b = Nfa::new('b');
    let c = Nfa::new('c');
    let mut left = Nfa::new('a');
    left.concatenate(&b);
    left.concatenate(&c);
    let mut bc = Nfa::new('b');
    bc.concatenate(&c);
    let mut right = a;
    right.concatenate(&bc);
    assert_eq!(left.vertexes, right.vertexes);
    assert_eq!(left.transitions, right.transitions);
}

#[test]
fn empty_fragment_is_identity_of_concatenation() {
    let empty: Nfa = Default::default();
    let mut left: Nfa = Default::default();
    left.concatenate(&Nfa::new('x'));
    let expected = Nfa::new('x');
    assert_eq!(left.vertexes, expected.vertexes);
    assert_eq!(left.transitions, expected.transitions);
    let mut right = Nfa::new('x');
    right.concatenate(&empty);
    assert_eq!(right.vertexes, expected.vertexes);
    assert_eq!(right.transitions, expected.transitions);
}

#[test]
fn alternation_is_commutative_at_language_level() {
    // `a|b` and `b|a` get different internal numbering but structurally
    // equivalent DFAs: a start state stepping on each letter to its own
    // accepting state.
    let d1 = Dfa::from_nfa(&re_to_nfa("a|b").unwrap());
    let d2 = Dfa::from_nfa(&re_to_nfa("b|a").unwrap());
    for d in [&d1, &d2] {
        assert_eq!(d.vertexes.len(), 3);
        assert!(!is_final(d, d.start_state));
        let ta = dfa_step(d, d.start_state, 'a').unwrap();
        let tb = dfa_step(d, d.start_state, 'b').unwrap();
        assert_ne!(ta, tb);
        assert!(is_final(d, ta));
        assert!(is_final(d, tb));
        assert_eq!(dfa_step(d, ta, 'a'), None);
        assert_eq!(dfa_step(d, tb, 'b'), None);
    }
}

#[test]
fn kleene_star_accept_reachable_by_epsilon_only() {
    let mut n = Nfa::new('a');
    n.kleene();
    let start = *n.get_start_state().unwrap();
    let accept = *n.get_final_state().unwrap();
    let closure = n.epsilon_closure(&vec![start]);
    assert!(closure.contains(&accept));
}

#[test]
fn epsilon_closure_is_sorted_and_reflexive() {
    let mut n = Nfa::new('a');
    n.concatenate(&Nfa::new('b'));
    // states 0 -a-> 1 -eps-> 2 -b-> 3
    let closure = n.epsilon_closure(&vec![1]);
    assert_eq!(closure, vec![1, 2]);
    let closure0 = n.epsilon_closure(&vec![0]);
    assert_eq!(closure0, vec![0]);
}

#[test]
fn delta_follows_one_transition() {
    let n = Nfa::new('a');
    let t = Transition::new(0, 'a', 1);
    assert_eq!(n.delta(&vec![0], &t), vec![1]);
    assert_eq!(n.delta(&vec![1], &t), Vec::<u32>::new());
}

#[test]
fn subset_construction_never_repeats_a_state_set() {
    // `(a|b)*ab` exercises discovery of several subsets; the transition
    // table must stay deterministic per (state, character).
    let d = Dfa::from_nfa(&re_to_nfa("(a|b)*ab").unwrap());
    for (i, t1) in d.transitions.iter().enumerate() {
        for t2 in &d.transitions[i + 1..] {
            assert!(!(t1.0 == t2.0 && t1.1 == t2.1));
        }
    }
    assert_eq!(d.start_state, 0);
    for t in &d.transitions {
        assert_ne!(t.1, EPSILON);
        assert!(t.0 < d.vertexes.len());
        assert!(t.2 < d.vertexes.len());
    }
}

#[test]
fn duplicate_labels_stay_deterministic() {
    let d = Dfa::from_nfa(&re_to_nfa("a|a").unwrap());
    let t = dfa_step(&d, d.start_state, 'a').unwrap();
    assert!(is_final(&d, t));
}

#[test]
fn scenario_single_character() {
    let n = re_to_nfa("a").unwrap();
    assert_eq!(n.vertexes.len(), 2);
    let d = Dfa::from_nfa(&n);
    assert_eq!(d.vertexes.len(), 2);
    assert!(!is_final(&d, d.start_state));
    let t = dfa_step(&d, d.start_state, 'a').unwrap();
    assert!(is_final(&d, t));
    assert_eq!(d.final_states.len(), 1);
    assert_eq!(d.transitions.len(), 1);
}

#[test]
fn scenario_alternation() {
    let d = Dfa::from_nfa(&re_to_nfa("a|b").unwrap());
    assert_eq!(d.vertexes.len(), 3);
    let ta = dfa_step(&d, d.start_state, 'a').unwrap();
    let tb = dfa_step(&d, d.start_state, 'b').unwrap();
    assert!(is_final(&d, ta) && is_final(&d, tb) && ta != tb);
}

#[test]
fn scenario_kleene_star() {
    let d = Dfa::from_nfa(&re_to_nfa("a*").unwrap());
    assert_eq!(d.vertexes.len(), 2);
    // The start state accepts (zero repetitions) and reading `a` keeps
    // accepting, looping on the second state.
    assert!(is_final(&d, d.start_state));
    let t = dfa_step(&d, d.start_state, 'a').unwrap();
    assert!(is_final(&d, t));
    assert_eq!(dfa_step(&d, t, 'a'), Some(t));
}

#[test]
fn scenario_concatenation_chain() {
    let d = Dfa::from_nfa(&re_to_nfa("ab").unwrap());
    assert_eq!(d.vertexes.len(), 3);
    assert!(!is_final(&d, d.start_state));
    let mid = dfa_step(&d, d.start_state, 'a').unwrap();
    assert!(!is_final(&d, mid));
    let acc = dfa_step(&d, mid, 'b').unwrap();
    assert!(is_final(&d, acc));
    assert_eq!(dfa_step(&d, d.start_state, 'b'), None);
    assert_eq!(dfa_step(&d, mid, 'a'), None);
}

#[test]
fn scenario_unbalanced_close() {
    let e = re_to_nfa(")").unwrap_err();
    assert_eq!(e.kind, ParseErrorKind::UnbalancedClose);
    assert_eq!(e.index, 0);
}

#[test]
fn scenario_double_star() {
    let e = re_to_nfa("a**").unwrap_err();
    assert_eq!(e.kind, ParseErrorKind::DoubleStar);
    assert_eq!(e.index, 2);
}

#[test]
fn double_bar_is_rejected() {
    let e = re_to_nfa("a||b").unwrap_err();
    assert_eq!(e.kind, ParseErrorKind::DoubleBar);
    assert_eq!(e.index, 2);
}

#[test]
fn unterminated_group_is_rejected() {
    let e = re_to_nfa("(ab").unwrap_err();
    assert_eq!(e.kind, ParseErrorKind::UnterminatedGroup);
    assert_eq!(e.index, 3);
}

#[test]
fn escape_turns_operator_into_literal() {
    let n = re_to_nfa("/*").unwrap();
    assert_eq!(n.vertexes, vec![0, 1]);
    assert_eq!(n.transitions, vec![Transition(0, '*', 1)]);
    let n2 = re_to_nfa("a/|b").unwrap();
    // a, then literal '|', then b: a six-state concatenation chain
    assert_eq!(n2.vertexes.len(), 6);
    assert!(n2.transitions.contains(&Transition(2, '|', 3)));
}

#[test]
fn empty_input_is_rejected() {
    let e = re_to_nfa("").unwrap_err();
    assert_eq!(e.kind, ParseErrorKind::UnexpectedToken);
    assert_eq!(e.index, 0);
}

#[test]
fn star_without_atom_is_rejected() {
    let e = re_to_nfa("*a").unwrap_err();
    assert_eq!(e.kind, ParseErrorKind::UnexpectedToken);
    assert_eq!(e.index, 0);
}

#[test]
fn alternation_has_lowest_precedence() {
    // `a|bc` denotes {a, bc}: `a` alone reaches acceptance, `b` needs `c`.
    let d = Dfa::from_nfa(&re_to_nfa("a|bc").unwrap());
    let ta = dfa_step(&d, d.start_state, 'a').unwrap();
    assert!(is_final(&d, ta));
    let tb = dfa_step(&d, d.start_state, 'b').unwrap();
    assert!(!is_final(&d, tb));
    let tc = dfa_step(&d, tb, 'c').unwrap();
    assert!(is_final(&d, tc));
}

#[test]
fn group_is_the_alternation_operand() {
    // `a|(b)` denotes {a, b}.
    let d = Dfa::from_nfa(&re_to_nfa("a|(b)").unwrap());
    let ta = dfa_step(&d, d.start_state, 'a').unwrap();
    let tb = dfa_step(&d, d.start_state, 'b').unwrap();
    assert!(is_final(&d, ta));
    assert!(is_final(&d, tb));
}

#[test]
fn trailing_bar_is_rejected() {
    let e = re_to_nfa("a|").unwrap_err();
    assert_eq!(e.kind, ParseErrorKind::UnexpectedToken);
    assert_eq!(e.index, 2);
}

#[test]
fn grouping_resets_precedence() {
    // `(a|b)c`: after either letter, `c` leads to the accepting state.
    let d = Dfa::from_nfa(&re_to_nfa("(a|b)c").unwrap());
    let ta = dfa_step(&d, d.start_state, 'a').unwrap();
    let tb = dfa_step(&d, d.start_state, 'b').unwrap();
    let fa = dfa_step(&d, ta, 'c').unwrap();
    let fb = dfa_step(&d, tb, 'c').unwrap();
    assert!(is_final(&d, fa));
    assert!(is_final(&d, fb));
    assert!(!is_final(&d, ta) && !is_final(&d, tb));
}

#[test]
fn error_messages_name_the_violation() {
    let e = re_to_nfa(")").unwrap_err();
    assert_eq!(e.message(), "parse error: unbalanced ')'");
    let e2 = re_to_nfa("a**").unwrap_err();
    assert_eq!(e2.message(), "parse error: double '**'");
}

#[test]
fn dfa_transition_records_source_label_destination() {
    let t = DfaTransition(0, 'x', 1);
    assert_eq!(t.0, 0);
    assert_eq!(t.1, 'x');
    assert_eq!(t.2, 1);
}
