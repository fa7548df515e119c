use uno::cycle::Cycle;

fn take(cycle: &mut Cycle, k: usize) -> Vec<usize> {
    let mut out = Vec::new();
    for _ in 0..k {
        out.push(cycle.next().unwrap());
    }
    out
}

#[test]
fn test_cycle_iter_values_next_reverse_next_3() {
    let mut cycle = Cycle::new(3);
    assert_eq!(cycle.next().unwrap(), 0);
    assert_eq!(cycle.next().unwrap(), 1);
    assert_eq!(cycle.next().unwrap(), 2);
    cycle.reverse();
    assert_eq!(cycle.next().unwrap(), 1);
    assert_eq!(cycle.next().unwrap(), 0);
    assert_eq!(cycle.next().unwrap(), 2);
    assert_eq!(cycle.next().unwrap(), 1);
    assert_eq!(cycle.next().unwrap(), 0);
    cycle.reverse();
    assert_eq!(cycle.next().unwrap(), 1);
    assert_eq!(cycle.next().unwrap(), 2);
}

#[test]
fn test_cycle_iter_values_next_reverse_next_5() {
    let mut cycle = Cycle::new(5);
    assert_eq!(cycle.next().unwrap(), 0);
    assert_eq!(cycle.next().unwrap(), 1);
    assert_eq!(cycle.next().unwrap(), 2);
    cycle.reverse();
    assert_eq!(cycle.next().unwrap(), 1);
    assert_eq!(cycle.next().unwrap(), 0);
    assert_eq!(cycle.next().unwrap(), 4);
    assert_eq!(cycle.next().unwrap(), 3);
    assert_eq!(cycle.next().unwrap(), 2);
    assert_eq!(cycle.next().unwrap(), 1);
    assert_eq!(cycle.next().unwrap(), 0);
}

#[test]
fn test_cycle_iter_values_reverse_next() {
    let mut cycle = Cycle::new(3);
    cycle.reverse();
    assert_eq!(cycle.next().unwrap(), 2);
    assert_eq!(cycle.next().unwrap(), 1);
    assert_eq!(cycle.next().unwrap(), 0);
}

#[test]
fn test_cycle_iter_values_next_reverse_reverse_next() {
    let mut cycle = Cycle::new(3);
    assert_eq!(cycle.next().unwrap(), 0);
    assert_eq!(cycle.next().unwrap(), 1);
    assert_eq!(cycle.next().unwrap(), 2);
    cycle.reverse();
    cycle.reverse();
    assert_eq!(cycle.next().unwrap(), 0);
    assert_eq!(cycle.next().unwrap(), 1);
    assert_eq!(cycle.next().unwrap(), 2);
}

#[test]
fn test_cycle_iter_values_next() {
    let mut cycle = Cycle::new(3);
    assert_eq!(cycle.next().unwrap(), 0);
    assert_eq!(cycle.next().unwrap(), 1);
    assert_eq!(cycle.next().unwrap(), 2);
    assert_eq!(cycle.next().unwrap(), 0);
    assert_eq!(cycle.next().unwrap(), 1);
    assert_eq!(cycle.next().unwrap(), 2);
}

#[test]
fn cycle_double_reverse_mid_game_matches_no_reverse() {
    let mut plain = Cycle::new(5);
    let mut twice = Cycle::new(5);
    assert_eq!(take(&mut plain, 7), take(&mut twice, 7));
    twice.reverse();
    twice.reverse();
    assert_eq!(take(&mut plain, 12), take(&mut twice, 12));
}

#[test]
fn cycle_double_reverse_before_first_turn_is_no_change() {
    let mut cycle = Cycle::new(3);
    cycle.reverse();
    cycle.reverse();
    assert_eq!(take(&mut cycle, 4), vec![0, 1, 2, 0]);
}

#[test]
fn cycle_of_one_position() {
    let mut cycle = Cycle::new(1);
    assert_eq!(take(&mut cycle, 2), vec![0, 0]);
    cycle.reverse();
    assert_eq!(take(&mut cycle, 2), vec![0, 0]);
}

#[test]
fn cycle_counts_turns() {
    let mut cycle = Cycle::new(4);
    assert_eq!(cycle.turn(), 0);
    cycle.reverse();
    assert_eq!(cycle.turn(), 0);
    take(&mut cycle, 5);
    assert_eq!(cycle.turn(), 5);
}
