use gregex::setterminal::SetTerminal;

#[test]
fn test_product() {
    let a = SetTerminal::SingleElement('a', 1);
    let b = SetTerminal::SingleElement('b', 2);
    let c = SetTerminal::Epsilon;
    let d = SetTerminal::Empty;

    assert_eq!(a.product(&b), SetTerminal::DoubleElement('a', 1, 'b', 2));
    assert_eq!(a.product(&c), SetTerminal::SingleElement('a', 1));
    assert_eq!(c.product(&b), SetTerminal::SingleElement('b', 2));
    assert_eq!(c.product(&c), SetTerminal::Epsilon);
    assert_eq!(d.product(&a), SetTerminal::Empty);
    assert_eq!(b.product(&d), SetTerminal::Empty);
}

#[test]
fn product_epsilon_keeps_pair() {
    let pair = SetTerminal::DoubleElement('a', 1, 'b', 2);
    assert_eq!(SetTerminal::Epsilon.product(&pair), pair);
    assert_eq!(pair.product(&SetTerminal::Epsilon), pair);
    assert_eq!(pair.product(&SetTerminal::Empty), SetTerminal::Empty);
    assert_eq!(SetTerminal::Empty.product(&SetTerminal::Epsilon), SetTerminal::Empty);
}
