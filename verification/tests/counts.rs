use spindle_core::counts::{RuleCounts, RuleFlags};

#[test]
fn rule_counts_hold_what_was_set() {
    let mut c = RuleCounts::new();
    c.push(3);
    c.push(5);
    c.set(0, 2);
    assert_eq!(c.len(), 2);
    assert_eq!(c.get(0), 2);
    assert_eq!(c.get(1), 5);
}

#[test]
fn rule_flags_hold_what_was_set() {
    let mut f = RuleFlags::new();
    f.push(false);
    f.push(false);
    f.set(1, true);
    assert_eq!(f.len(), 2);
    assert!(!f.get(0));
    assert!(f.get(1));
}
