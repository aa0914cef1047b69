use kline_feed::rotator::SymbolRotator;

fn syms(v: &[&str]) -> Vec<String> {
    v.iter().map(|s| s.to_string()).collect()
}

#[test]
fn rotation_visits_every_symbol_once_then_repeats() {
    let mut r = SymbolRotator::new(syms(&["A", "B", "C", "D", "E"]), 2);
    assert_eq!(r.next_batch(), Some(syms(&["A", "B"])));
    assert_eq!(r.next_batch(), Some(syms(&["C", "D"])));
    assert_eq!(r.next_batch(), Some(syms(&["E"])));
    assert_eq!(r.next_batch(), Some(syms(&["A", "B"])));
    assert_eq!(r.next_batch(), Some(syms(&["C", "D"])));
    assert_eq!(r.next_batch(), Some(syms(&["E"])));
}

#[test]
fn rotation_batch_size_equal_to_universe() {
    let mut r = SymbolRotator::new(syms(&["A", "B", "C"]), 3);
    assert_eq!(r.next_batch(), Some(syms(&["A", "B", "C"])));
    assert_eq!(r.next_batch(), Some(syms(&["A", "B", "C"])));
}

#[test]
fn rotation_batch_larger_than_universe() {
    let mut r = SymbolRotator::new(syms(&["A", "B"]), 10);
    assert_eq!(r.next_batch(), Some(syms(&["A", "B"])));
    assert_eq!(r.next_batch(), Some(syms(&["A", "B"])));
}

#[test]
fn empty_universe_yields_nothing() {
    let mut r = SymbolRotator::new(Vec::new(), 2);
    assert_eq!(r.next_batch(), None);
    assert_eq!(r.next_batch(), None);
}

#[test]
fn zero_batch_size_yields_nothing() {
    let mut r = SymbolRotator::new(syms(&["A", "B"]), 0);
    assert_eq!(r.next_batch(), None);
}
