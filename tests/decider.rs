use rand::rngs::StdRng;
use rand::SeedableRng;
use superopt::decide::Decide;
use superopt::decider::{branch_taken, draw_range, TreeDecider, UNVISITED};

fn decider(seed: u64) -> TreeDecider {
    TreeDecider::new(StdRng::seed_from_u64(seed))
}

#[test]
fn fresh_decider_has_only_an_unvisited_root() {
    let d = decider(1);
    assert!(d.is_fresh());
    assert_eq!(d.loss_at(&[]), Some(UNVISITED));
    assert_eq!(d.loss_at(&[true]), None);
    assert_eq!(d.child_losses(), (None, None));
}

#[test]
fn descend_grows_the_tree_and_restart_keeps_minimum() {
    let mut d = decider(2);
    d.descend(false);
    d.descend(true);
    assert!(d.is_fresh());
    assert_eq!(d.loss_at(&[false, true]), Some(UNVISITED));
    d.restart(50);
    assert_eq!(d.loss_at(&[]), Some(50));
    assert_eq!(d.loss_at(&[false]), Some(50));
    assert_eq!(d.loss_at(&[false, true]), Some(50));
    assert!(!d.is_fresh());
    d.descend(false);
    d.descend(false);
    d.restart(70);
    assert_eq!(d.loss_at(&[]), Some(50));
    assert_eq!(d.loss_at(&[false]), Some(50));
    assert_eq!(d.loss_at(&[false, false]), Some(70));
    d.descend(true);
    d.restart(20);
    assert_eq!(d.loss_at(&[]), Some(20));
    assert_eq!(d.loss_at(&[true]), Some(20));
    assert_eq!(d.loss_at(&[false]), Some(50));
    assert_eq!(d.child_losses(), (Some(50), Some(20)));
}

#[test]
fn restart_lowers_the_last_node_only_to_the_minimum() {
    let mut d = decider(3);
    d.descend(true);
    d.restart(10);
    d.descend(true);
    d.restart(30);
    assert_eq!(d.loss_at(&[true]), Some(10));
    assert_eq!(d.loss_at(&[]), Some(10));
}

fn assert_parent_not_above_children(d: &TreeDecider, path: &mut Vec<bool>) {
    let here = d.loss_at(path).unwrap();
    for b in [false, true] {
        path.push(b);
        if let Some(child) = d.loss_at(path) {
            assert!(here <= child);
            assert_parent_not_above_children(d, path);
        }
        path.pop();
    }
}

#[test]
fn parents_never_have_more_loss_than_children() {
    let mut d = decider(4);
    for trial in 0..300u64 {
        let len = (trial % 7) as usize;
        for _ in 0..len {
            d.decide_bool();
        }
        d.restart((trial * 7919) % 1000);
        assert_parent_not_above_children(&d, &mut Vec::new());
    }
}

#[test]
fn branch_rule_weights_by_the_other_side() {
    assert_eq!(draw_range(Some(3), Some(1)), 4);
    let taken: Vec<bool> = (0..4).map(|x| branch_taken(x, Some(3), Some(1))).collect();
    assert_eq!(taken, vec![true, true, true, false]);
    assert_eq!(draw_range(None, Some(1)), 2);
    assert!(branch_taken(0, None, Some(1)));
    assert!(!branch_taken(1, None, Some(1)));
    assert_eq!(draw_range(Some(0), Some(0)), 2);
    assert!(branch_taken(0, Some(0), Some(0)));
    assert!(!branch_taken(1, Some(0), Some(0)));
    assert!(!branch_taken(1, Some(0), Some(9)));
}

#[test]
fn visited_side_is_preferred_over_an_unvisited_sibling() {
    let bound = draw_range(Some(10), Some(UNVISITED));
    assert_eq!(bound, 10 + UNVISITED as u128);
    assert!(branch_taken(9, Some(10), Some(UNVISITED)));
    assert!(!branch_taken(10, Some(10), Some(UNVISITED)));
}

#[test]
fn one_missing_child_gives_even_odds() {
    let mut trues = 0;
    for seed in 0..2000u64 {
        let mut d = decider(seed);
        d.descend(false);
        d.restart(5);
        if d.decide_bool() {
            trues += 1;
        }
    }
    assert!((800..1200).contains(&trues), "{}", trues);
}

#[test]
fn frequency_of_true_follows_the_losses() {
    let mut d = decider(5);
    d.descend(false);
    d.restart(300);
    d.descend(true);
    d.restart(100);
    assert_eq!(d.child_losses(), (Some(300), Some(100)));
    let trials = 20000;
    let mut trues = 0;
    for _ in 0..trials {
        if d.decide_bool() {
            trues += 1;
        }
        d.restart(1000);
    }
    assert_eq!(d.child_losses(), (Some(300), Some(100)));
    let share = trues as f64 / trials as f64;
    assert!((share - 0.75).abs() < 0.02, "{}", share);
}

#[test]
fn decide_range_stays_in_bounds_and_reaches_every_value() {
    let mut d = decider(6);
    let mut seen = [false; 5];
    for _ in 0..400 {
        let v = d.decide_range(3, 7);
        assert!((3..=7).contains(&v));
        seen[v - 3] = true;
        d.restart(1);
    }
    assert!(seen.iter().all(|&s| s));
}

#[test]
fn decide_range_of_one_value_takes_no_decision() {
    let mut d = decider(7);
    assert_eq!(d.decide_range(9, 9), 9);
    assert_eq!(d.loss_at(&[true]), None);
    assert_eq!(d.loss_at(&[false]), None);
    assert!(d.is_fresh());
}

#[test]
fn decide_range_takes_one_node_per_halving() {
    let mut d = decider(8);
    d.decide_range(0, 255);
    d.restart(1);
    let mut depth = 0;
    let mut path = Vec::new();
    loop {
        let mut next = None;
        for b in [false, true] {
            path.push(b);
            if d.loss_at(&path).is_some() {
                next = Some(b);
            }
            path.pop();
        }
        match next {
            Some(b) => {
                path.push(b);
                depth += 1;
            }
            None => break,
        }
    }
    assert_eq!(depth, 8);
}

#[test]
fn integer_decisions_take_one_node_per_bit() {
    let mut d = decider(9);
    let _ = u32::decide(&mut d);
    d.restart(1);
    let _ = u8::decide(&mut d);
    let _ = i16::decide(&mut d);
    let _ = bool::decide(&mut d);
    let _ = u64::decide(&mut d);
    let _ = i8::decide(&mut d);
    let _ = i32::decide(&mut d);
    let _ = i64::decide(&mut d);
    let _ = u16::decide(&mut d);
    assert!(d.is_fresh());
}

#[test]
fn integer_decisions_spread_over_the_range() {
    let mut d = decider(10);
    let mut high = 0;
    let mut odd = 0;
    for _ in 0..400 {
        let v = u8::decide(&mut d);
        if v >= 128 {
            high += 1;
        }
        if v % 2 == 1 {
            odd += 1;
        }
        d.restart(7);
    }
    assert!(high > 100 && high < 300);
    assert!(odd > 100 && odd < 300);
}

#[test]
fn zero_loss_side_is_always_taken() {
    let mut d = decider(13);
    d.descend(false);
    d.restart(5);
    d.descend(true);
    d.restart(0);
    assert_eq!(d.child_losses(), (Some(5), Some(0)));
    for _ in 0..200 {
        assert!(d.decide_bool());
        d.restart(10);
    }
    let mut e = decider(14);
    e.descend(true);
    e.restart(5);
    e.descend(false);
    e.restart(0);
    assert_eq!(e.child_losses(), (Some(0), Some(5)));
    for _ in 0..200 {
        assert!(!e.decide_bool());
        e.restart(10);
    }
}
