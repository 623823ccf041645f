use rustly::combat::{apply_damage, resolve_melee};

#[test]
fn melee_damage_is_power_less_defence() {
    assert_eq!(resolve_melee(5, 2), 3);
    assert_eq!(resolve_melee(1, 5), 0);
    assert_eq!(resolve_melee(4, 4), 0);
    assert_eq!(resolve_melee(i32::MAX, -5), i32::MAX);
    assert_eq!(resolve_melee(-3, -10), 7);
}

#[test]
fn damage_sums_all_pending_amounts() {
    assert_eq!(apply_damage(10, &vec![3, 4]), 3);
    assert_eq!(apply_damage(10, &vec![]), 10);
    assert_eq!(apply_damage(2, &vec![5]), -3);
    assert_eq!(apply_damage(i32::MIN + 1, &vec![5, 5]), i32::MIN);
}
