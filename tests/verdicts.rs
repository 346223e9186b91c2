use mao::verdict::{
    first_pass, plan_turn, CardPlayerActionType, Disallow, ForgotSomething, MaoEventResult, MaoEventResultType, Necessary,
    WrongPlayerInteraction,
};

fn verdict(t: MaoEventResultType) -> MaoEventResult {
    MaoEventResult::new(Necessary::BasicRule(false), t)
}

#[test]
fn all_ignored_means_default_behaviour() {
    let rs = vec![verdict(MaoEventResultType::Ignored), verdict(MaoEventResultType::Ignored)];
    let p = first_pass(&rs);
    assert!(p.all_ignored);
    assert!(p.violations.is_empty());
    assert!(p.cross_rule.is_empty());
}

#[test]
fn violations_are_collected_in_order() {
    let mut with_cb = verdict(MaoEventResultType::ExecuteAfterTurnChange(4));
    with_cb.other_rules_callback = Some(9);
    let rs = vec![
        verdict(MaoEventResultType::Disallow(Disallow::new("r1".to_string(), "no".to_string(), None))),
        verdict(MaoEventResultType::Ignored),
        verdict(MaoEventResultType::ForgetSomething(ForgotSomething {
            msg: None,
            forgot_type: CardPlayerActionType::Say,
            rule: None,
            penality: Some(3),
            player_pseudo: "ann".to_string(),
        })),
        with_cb,
    ];
    let p = first_pass(&rs);
    assert!(!p.all_ignored);
    assert_eq!(p.violations.len(), 2);
    assert!(matches!(&p.violations[0], WrongPlayerInteraction::Disallow(d) if d.rule == "r1"));
    assert!(matches!(&p.violations[1], WrongPlayerInteraction::ForgotSomething(f) if f.penality == Some(3)));
    assert_eq!(p.cross_rule, vec![3]);
    assert_eq!(p.violation_at, vec![0, 2]);
    assert_eq!(p.deferred, vec![3]);
}

#[test]
fn override_skips_the_default_turn_advance() {
    let first = vec![
        verdict(MaoEventResultType::ExecuteBeforeTurnChange(1)),
        verdict(MaoEventResultType::OverrideBasicRule(2)),
        verdict(MaoEventResultType::ExecuteAfterTurnChange(3)),
    ];
    let second = vec![verdict(MaoEventResultType::ExecuteBeforeTurnChange(5))];
    let plan = plan_turn(&first, &second);
    assert_eq!(plan.before, vec![1, 5]);
    assert_eq!(plan.after, vec![3]);
    assert!(!plan.run_default);
}

#[test]
fn without_override_the_default_advance_runs() {
    let first = vec![verdict(MaoEventResultType::ExecuteAfterTurnChange(7)), verdict(MaoEventResultType::Ignored)];
    let second = vec![verdict(MaoEventResultType::ExecuteAfterTurnChange(8))];
    let plan = plan_turn(&first, &second);
    assert!(plan.before.is_empty());
    assert_eq!(plan.after, vec![7, 8]);
    assert!(plan.run_default);
}

#[test]
fn second_pass_override_counts() {
    let first = vec![verdict(MaoEventResultType::ExecuteAfterTurnChange(7))];
    let second = vec![verdict(MaoEventResultType::OverrideBasicRule(1)), verdict(MaoEventResultType::Ignored)];
    let plan = plan_turn(&first, &second);
    assert!(!plan.run_default);
}
