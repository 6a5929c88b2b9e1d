use gregex::nfa::NFA;
use gregex::setterminal::SetTerminal;

fn simple() -> NFA {
    NFA::new(
        vec![0, 1, 2],
        vec![2],
        vec![((0, 'a'), vec![0, 1]), ((1, 'b'), vec![2])],
    )
}

#[test]
fn simulate_nfa_simple_test() {
    let nfa = simple();
    assert!(nfa.simulate("ab"));
}

#[test]
fn set_to_nfa_simple_test() {
    let prefix_set = vec![SetTerminal::SingleElement('a', 1)];
    let suffix_set = vec![SetTerminal::SingleElement('b', 2)];
    let factors_set = vec![SetTerminal::DoubleElement('a', 1, 'b', 2)];
    let nfa = NFA::set_to_nfa(&prefix_set, &suffix_set, &factors_set);
    assert!(nfa.simulate("ab"));
}

#[test]
fn simulate_follows_every_branch() {
    let nfa = simple();
    assert!(nfa.simulate("aab"));
    assert!(nfa.simulate("aaaab"));
    assert!(!nfa.simulate("a"));
    assert!(!nfa.simulate("b"));
    assert!(!nfa.simulate("abb"));
}

#[test]
fn simulate_empty_input() {
    let nfa = simple();
    assert!(!nfa.simulate(""));
    let accepting_start = NFA::new(vec![0], vec![0], vec![]);
    assert!(accepting_start.simulate(""));
    assert!(!accepting_start.simulate("a"));
}

#[test]
fn simulate_is_repeatable() {
    let nfa = simple();
    for _ in 0..3 {
        assert!(nfa.simulate("ab"));
        assert!(!nfa.simulate("ba"));
    }
}

#[test]
fn default_accepts_nothing() {
    let nfa = NFA::default();
    assert!(!nfa.simulate(""));
    assert!(!nfa.simulate("a"));
}

#[test]
fn set_to_nfa_keeps_every_first_position() {
    // Two first positions on the same symbol: both stay reachable.
    let prefix_set = vec![SetTerminal::SingleElement('a', 1), SetTerminal::SingleElement('a', 3)];
    let suffix_set = vec![SetTerminal::SingleElement('b', 2), SetTerminal::SingleElement('c', 4)];
    let factors_set = vec![
        SetTerminal::DoubleElement('a', 1, 'b', 2),
        SetTerminal::DoubleElement('a', 3, 'c', 4),
    ];
    let nfa = NFA::set_to_nfa(&prefix_set, &suffix_set, &factors_set);
    assert!(nfa.simulate("ab"));
    assert!(nfa.simulate("ac"));
    assert!(!nfa.simulate("a"));
    assert!(!nfa.simulate("bc"));
}

#[test]
fn set_to_nfa_ignores_markers() {
    let prefix_set = vec![SetTerminal::SingleElement('a', 1), SetTerminal::Epsilon];
    let suffix_set = vec![SetTerminal::SingleElement('a', 1), SetTerminal::Empty];
    let factors_set = vec![SetTerminal::Empty];
    let nfa = NFA::set_to_nfa(&prefix_set, &suffix_set, &factors_set);
    assert!(nfa.simulate("a"));
    assert!(!nfa.simulate(""));
    assert!(!nfa.simulate("aa"));
}
