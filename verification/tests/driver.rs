use oarray::driver::{Action, Driver};

#[test]
fn one_attempt_and_no_way_back() {
    let mut d = Driver::new(2, 4, 1, false);
    assert_eq!(d.start(), Action::Search);
    assert_eq!(d.current_width(), 2);
    assert_eq!(d.step(true), Action::Search);
    assert_eq!(d.current_width(), 3);
    assert_eq!(d.step(false), Action::Fail);
    assert_eq!(d.current_width(), 3);
    let mut d = Driver::new(2, 4, 1, false);
    assert_eq!(d.step(true), Action::Search);
    assert_eq!(d.step(true), Action::Done);
    assert_eq!(d.current_width(), 4);
}

#[test]
fn nothing_to_search_for() {
    let d = Driver::new(3, 3, 1, false);
    assert_eq!(d.start(), Action::Done);
    assert_eq!(d.current_width(), 3);
}

#[test]
fn attempts_are_counted_at_each_width() {
    let mut d = Driver::new(1, 3, 3, false);
    assert_eq!(d.step(false), Action::Search);
    assert_eq!(d.step(false), Action::Search);
    assert_eq!(d.current_width(), 1);
    assert_eq!(d.step(true), Action::Search);
    assert_eq!(d.current_width(), 2);
    assert_eq!(d.step(false), Action::Search);
    assert_eq!(d.step(false), Action::Search);
    assert_eq!(d.step(false), Action::Fail);
    assert_eq!(d.current_width(), 2);
}

#[test]
fn going_back_costs_the_width_below_an_attempt() {
    let mut d = Driver::new(1, 4, 2, true);
    assert_eq!(d.step(true), Action::Search);
    assert_eq!(d.step(true), Action::Search);
    assert_eq!(d.current_width(), 3);
    // Width three: one attempt lost, then none left; back to width two.
    assert_eq!(d.step(false), Action::Search);
    assert_eq!(d.current_width(), 3);
    assert_eq!(d.step(false), Action::Search);
    assert_eq!(d.current_width(), 2);
    // Width two has one attempt left: a failure there goes back to one.
    assert_eq!(d.step(false), Action::Search);
    assert_eq!(d.current_width(), 1);
    // And width one has one attempt left, after which nothing is left.
    assert_eq!(d.step(false), Action::Fail);
    assert_eq!(d.current_width(), 1);
}
