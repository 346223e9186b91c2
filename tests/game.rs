use mao::action::{IdString, MaoInteraction, PlayerAction};
use mao::automaton::{Automaton, MaoInteractionResult, NodeState};
use mao::card::{Card, CardType, CardValue, CommonCardType};
use mao::config::{CardEffects, CardEffectsInner, CardEffectsKey, CardEffectsStruct, CardPlayerAction, Config, OneOrMoreWords, SingleCardEffect};
use mao::error::Error;
use mao::event::{CardEvent, MaoEvent, StackTarget};
use mao::mao_core::{MaoCore, PlayStep, PlayerTurnResult};
use mao::player::Player;
use mao::rule::RuleData;
use mao::stack::{Stack, StackType};
use mao::turn::{PlayerTurnChange, PlayerTurnUpdater};
use mao::verdict::{first_pass, Disallow, CardPlayerActionType, MaoEventResult, MaoEventResultType, Necessary, WrongPlayerInteraction};

fn card(v: isize, s: CommonCardType) -> Card {
    Card::new(CardValue::Number(v), CardType::Common(s))
}

fn basic_core(hands: Vec<Vec<Card>>) -> MaoCore {
    let stacks = vec![
        Stack::new(vec![card(5, CommonCardType::Spade)], true, vec![StackType::Playable]),
        Stack::new(vec![card(1, CommonCardType::Club), card(2, CommonCardType::Club), card(3, CommonCardType::Club)], false, vec![StackType::Drawable]),
        Stack::new(vec![], true, vec![StackType::Discardable]),
    ];
    let names = ["ann", "bob", "cid"];
    let players = hands.into_iter().enumerate().map(|(i, h)| Player::new(names[i].to_string(), h)).collect();
    MaoCore::new(vec![], stacks, players, Automaton::new())
}

fn with_effects(core: &mut MaoCore, entries: Vec<(CardEffectsKey, CardEffects)>) {
    let mut t = CardEffectsStruct::new();
    for (k, v) in entries {
        t.insert(k, v);
    }
    core.set_config(Config { dirname: String::new(), cards_effects: t }, vec![]);
}

fn say_effect(words: &[&str]) -> CardEffects {
    CardEffects::single(CardEffectsInner::only(SingleCardEffect::CardPlayerAction(CardPlayerAction::Say(vec![
        OneOrMoreWords(words.iter().map(|w| w.to_string()).collect()),
    ]))))
}

fn played(c: Card, player: usize) -> MaoEvent {
    MaoEvent::PlayedCardEvent(CardEvent::new(c, player, Some(0), 0))
}

#[test]
fn ignored_play_of_a_mismatching_card_is_refused_and_penalized_once() {
    let mut core = basic_core(vec![vec![], vec![card(9, CommonCardType::Heart)], vec![]]);
    assert_eq!(core.player_turn(), 1);
    let verdicts = vec![
        MaoEventResult::new(Necessary::BasicRule(false), MaoEventResultType::Ignored),
        MaoEventResult::new(Necessary::BasicRule(false), MaoEventResultType::Ignored),
    ];
    assert!(first_pass(&verdicts).all_ignored);
    let c = card(9, CommonCardType::Heart);
    match core.can_play(1, &c, Some(0)) {
        PlayerTurnResult::CannotPlaceThisCard { card_to_play, card_on_stack } => {
            assert!(card_to_play == c);
            assert!(card_on_stack == card(5, CommonCardType::Spade));
        }
        _ => panic!("expected a refusal"),
    }
    core.common_penality_to_player(1).unwrap();
    assert_eq!(core.get_player_hand_len(1).unwrap(), 2);
    assert_eq!(core.stacks()[1].get_cards().len(), 2);
}

#[test]
fn same_value_or_same_colour_can_be_played() {
    let core = basic_core(vec![vec![], vec![], vec![]]);
    assert!(matches!(core.can_play(1, &card(5, CommonCardType::Heart), Some(0)), PlayerTurnResult::CanPlay));
    assert!(matches!(core.can_play(1, &card(9, CommonCardType::Club), Some(0)), PlayerTurnResult::CanPlay));
    assert!(matches!(core.can_play(0, &card(5, CommonCardType::Heart), Some(0)), PlayerTurnResult::WrongTurn));
    assert!(matches!(core.can_play(1, &card(9, CommonCardType::Heart), None), PlayerTurnResult::CanPlay));
}

fn eight_of_diamonds_says_eight(core: &mut MaoCore) {
    with_effects(
        core,
        vec![(
            CardEffectsKey::new(Some(CardType::Common(CommonCardType::Diamond)), Some(CardValue::Number(8))),
            say_effect(&["eight", "huit"]),
        )],
    );
}

#[test]
fn saying_the_required_phrase_leaves_no_violation() {
    let mut core = basic_core(vec![vec![], vec![], vec![]]);
    eight_of_diamonds_says_eight(&mut core);
    core.record_event(&MaoEvent::SayEvent { message: "here is an eight!".to_string(), player_index: 1 });
    core.record_event(&played(card(8, CommonCardType::Diamond), 1));
    let closed = core.close_turn(false);
    assert_eq!(closed.len(), 2);
    let v = core.turn_requirement_violations(&closed);
    assert!(v.is_empty());
}

#[test]
fn omitting_the_required_phrase_gives_one_violation() {
    let mut core = basic_core(vec![vec![], vec![], vec![]]);
    eight_of_diamonds_says_eight(&mut core);
    core.record_event(&MaoEvent::SayEvent { message: "hello".to_string(), player_index: 1 });
    core.record_event(&played(card(8, CommonCardType::Diamond), 1));
    let closed = core.close_turn(false);
    let v = core.turn_requirement_violations(&closed);
    assert_eq!(v.len(), 1);
    match &v[0] {
        WrongPlayerInteraction::ForgotSomething(f) => {
            assert!(matches!(f.forgot_type, CardPlayerActionType::Say));
            assert_eq!(f.player_pseudo, "bob");
        }
        _ => panic!("expected a forgotten phrase"),
    }
}

#[test]
fn another_players_phrase_does_not_count() {
    let mut core = basic_core(vec![vec![], vec![], vec![]]);
    eight_of_diamonds_says_eight(&mut core);
    core.record_event(&MaoEvent::SayEvent { message: "eight".to_string(), player_index: 0 });
    core.record_event(&played(card(8, CommonCardType::Diamond), 1));
    let closed = core.close_turn(false);
    assert_eq!(core.turn_requirement_violations(&closed).len(), 1);
}

#[test]
fn physical_requirement_needs_the_exact_action() {
    let mut core = basic_core(vec![vec![], vec![], vec![]]);
    with_effects(
        &mut core,
        vec![(
            CardEffectsKey::new(None, Some(CardValue::Number(4))),
            CardEffects::single(CardEffectsInner::only(SingleCardEffect::CardPlayerAction(CardPlayerAction::Physical(
                "knock".to_string(),
            )))),
        )],
    );
    core.record_event(&MaoEvent::PhysicalEvent { physical_name: "knock".to_string(), player_index: 1 });
    core.record_event(&played(card(4, CommonCardType::Club), 1));
    let closed = core.close_turn(false);
    assert!(core.turn_requirement_violations(&closed).is_empty());

    core.record_event(&MaoEvent::PhysicalEvent { physical_name: "knocks".to_string(), player_index: 1 });
    core.record_event(&played(card(4, CommonCardType::Club), 1));
    let closed = core.close_turn(false);
    let v = core.turn_requirement_violations(&closed);
    assert_eq!(v.len(), 1);
    assert!(matches!(&v[0], WrongPlayerInteraction::ForgotSomething(f) if matches!(f.forgot_type, CardPlayerActionType::Do)));
}

#[test]
fn closing_a_turn_splits_the_log() {
    let mut core = basic_core(vec![vec![], vec![], vec![]]);
    core.record_event(&MaoEvent::SayEvent { message: "a".to_string(), player_index: 0 });
    core.record_event(&played(card(4, CommonCardType::Club), 0));
    core.record_event(&MaoEvent::SayEvent { message: "b".to_string(), player_index: 1 });
    core.record_event(&MaoEvent::PhysicalEvent { physical_name: "c".to_string(), player_index: 0 });
    core.record_event(&MaoEvent::GameStart);
    assert_eq!(core.players_events().len(), 4);
    let closed = core.close_turn(false);
    assert_eq!(closed.len(), 2);
    assert_eq!(core.players_events().len(), 1);
    assert!(matches!(&core.players_events()[0], MaoEvent::SayEvent { player_index: 1, .. }));
}

#[test]
fn a_violating_last_action_is_discarded() {
    let mut core = basic_core(vec![vec![], vec![], vec![]]);
    core.record_event(&played(card(4, CommonCardType::Club), 1));
    core.record_event(&played(card(6, CommonCardType::Club), 1));
    let closed = core.close_turn(true);
    assert_eq!(closed.len(), 1);
    assert!(core.players_events().is_empty());
}

#[test]
fn card_turn_changes_apply_in_order() {
    let mut core = basic_core(vec![vec![], vec![], vec![]]);
    with_effects(
        &mut core,
        vec![(
            CardEffectsKey::new(None, Some(CardValue::Number(8))),
            CardEffects::single(CardEffectsInner::only(SingleCardEffect::PlayerTurnChange(PlayerTurnChange::Rotate(
                PlayerTurnUpdater::Update(1),
            )))),
        )],
    );
    core.next_player(1, &played(card(8, CommonCardType::Club), 1), false).unwrap();
    assert_eq!(core.player_turn(), 0);
    core.next_player(0, &played(card(3, CommonCardType::Club), 0), false).unwrap();
    assert_eq!(core.player_turn(), 2);
    core.next_player(1, &played(card(3, CommonCardType::Club), 1), false).unwrap();
    assert_eq!(core.player_turn(), 2);
    core.next_player(2, &MaoEvent::DrawedCardEvent(CardEvent::new(card(1, CommonCardType::Club), 2, None, 0)), false).unwrap();
    assert_eq!(core.player_turn(), 1);
}

#[test]
fn update_turn_wraps_around() {
    let mut core = basic_core(vec![vec![], vec![], vec![]]);
    core.update_turn(PlayerTurnChange::Update(PlayerTurnUpdater::Update(2)));
    assert_eq!(core.player_turn(), 0);
    core.update_turn(PlayerTurnChange::Update(PlayerTurnUpdater::Update(0)));
    assert_eq!(core.player_turn(), 0);
    core.update_turn(PlayerTurnChange::Rotate(PlayerTurnUpdater::SetTo(2)));
    assert_eq!(core.player_turn(), 2);
    core.update_turn(PlayerTurnChange::Update(PlayerTurnUpdater::Update(1)));
    assert_eq!(core.player_turn(), 1);
}

#[test]
fn refill_collapses_played_and_discarded_cards() {
    let stacks = vec![
        Stack::new(vec![card(1, CommonCardType::Heart), card(2, CommonCardType::Heart), card(3, CommonCardType::Heart)], true, vec![StackType::Playable]),
        Stack::new(vec![], false, vec![StackType::Drawable]),
        Stack::new(vec![card(9, CommonCardType::Club)], true, vec![StackType::Discardable]),
    ];
    let mut core = MaoCore::new(vec![], stacks, vec![], Automaton::new());
    core.refill_drawable_stacks(None).unwrap();
    let s = core.stacks();
    assert!(s[0].get_cards() == &vec![card(3, CommonCardType::Heart)]);
    assert!(s[1].get_cards() == &vec![card(1, CommonCardType::Heart), card(2, CommonCardType::Heart), card(9, CommonCardType::Club)]);
    assert!(s[2].get_cards().is_empty());
    assert!(matches!(core.refill_drawable_stacks(Some(7)), Err(Error::InvalidStackIndex { stack_index: 7, len: 3 })));
}

#[test]
fn drawing_refills_once_then_fails() {
    let mut core = basic_core(vec![vec![], vec![], vec![]]);
    let drawn = core.draw_multiple_cards_unchosen(2).unwrap();
    assert_eq!(drawn.len(), 2);
    assert!(drawn[0] == card(3, CommonCardType::Club));
    let drawn = core.draw_multiple_cards_unchosen(1).unwrap();
    assert!(drawn[0] == card(1, CommonCardType::Club));
    assert!(matches!(core.draw_multiple_cards_unchosen(1), Err(Error::NotEnoughCards)));
    let stacks = vec![Stack::new(vec![], true, vec![StackType::Playable])];
    let mut core = MaoCore::new(vec![], stacks, vec![], Automaton::new());
    assert!(matches!(core.draw_multiple_cards_unchosen(1), Err(Error::NoStackAvailable { .. })));
    assert!(core.draw_multiple_cards_unchosen(0).unwrap().is_empty());
}

#[test]
fn penalty_to_an_unknown_player_is_an_error() {
    let mut core = basic_core(vec![vec![], vec![]]);
    assert!(matches!(core.common_penality_to_player(5), Err(Error::InvalidPlayerIndex { player_index: 5, len: 2 })));
}

#[test]
fn stack_targets_are_checked() {
    let mut core = basic_core(vec![vec![card(2, CommonCardType::Heart)], vec![]]);
    assert!(matches!(core.push_card_into_stack_target(StackTarget::Stack(9), card(1, CommonCardType::Heart)), Err(Error::InvalidStackIndex { .. })));
    assert!(matches!(core.push_card_into_stack_target(StackTarget::Player(9), card(1, CommonCardType::Heart)), Err(Error::InvalidPlayerIndex { .. })));
    core.push_card_into_stack_target(StackTarget::Stack(2), card(1, CommonCardType::Heart)).unwrap();
    assert_eq!(core.stacks()[2].get_cards().len(), 1);
    let c = core.remove_card_from_stack_target(StackTarget::Player(0), 0).unwrap();
    assert!(c == card(2, CommonCardType::Heart));
    assert!(matches!(core.remove_card_from_stack_target(StackTarget::Player(0), 0), Err(Error::InvalidCardIndex { card_index: 0, len: 0 })));
    assert_eq!(core.player_won(), Some(0));
    assert!(core.get_top_card_playable_stack(0).unwrap().unwrap() == &card(5, CommonCardType::Spade));
    assert!(matches!(core.get_top_card_playable_stack(3), Err(Error::InvalidStackIndex { .. })));
}

#[test]
fn placing_a_legal_play_moves_the_card() {
    let mut core = basic_core(vec![vec![], vec![card(5, CommonCardType::Heart), card(7, CommonCardType::Club)]]);
    let ev = CardEvent::new(card(5, CommonCardType::Heart), 1, Some(0), 0);
    core.place_played_card(&ev).unwrap();
    assert_eq!(core.stacks()[0].get_cards().len(), 2);
    assert_eq!(core.get_player_hand_len(1).unwrap(), 1);
    let ev = CardEvent::new(card(7, CommonCardType::Club), 1, None, 0);
    core.place_played_card(&ev).unwrap();
    assert_eq!(core.stacks().len(), 4);
    assert_eq!(core.get_playable_stacks(), vec![0, 3]);
    assert_eq!(core.get_drawable_stacks(), vec![1]);
}

#[test]
fn the_deck_holds_each_common_card_once() {
    let deck = MaoCore::generate_common_draw();
    assert_eq!(deck.len(), 52);
    for v in 1..=13 {
        for s in [CommonCardType::Spade, CommonCardType::Diamond, CommonCardType::Club, CommonCardType::Heart] {
            assert_eq!(deck.iter().filter(|c| **c == card(v, s)).count(), 1);
        }
    }
    let stacks = MaoCore::init_stacks();
    assert_eq!(stacks.len(), 3);
    assert_eq!(stacks[0].get_cards().len(), 51);
    assert_eq!(stacks[1].get_cards().len(), 1);
    assert!(stacks[2].get_cards().is_empty());
}

fn rule(name: &str, paths: Option<Vec<Vec<NodeState>>>) -> RuleData {
    RuleData { name: name.to_string(), author: None, description: None, actions: paths, cards_effects: None }
}

#[test]
fn activating_a_rule_merges_its_paths() {
    let path = vec![vec![NodeState::new(MaoInteraction::new(None, PlayerAction::SelectRule), Some(7), Some("r".to_string()))]];
    let mut core = MaoCore::new(vec![rule("r", Some(path)), rule("s", None)], vec![], vec![], Automaton::new());
    assert!(matches!(core.activate_rule_by_index(5), Err(Error::InvalidRuleIndex { rule_index: 5, len: 2 })));
    core.activate_rule_by_index(0).unwrap();
    assert!(matches!(core.activate_rule_by_index(0), Err(Error::RuleAlreadyActivated { .. })));
    assert_eq!(core.activated_rules_indexes(), &vec![0]);
    let mut a = Automaton::from_iter(&vec![]).unwrap();
    assert!(!a.same_structure(core.automaton()));
    assert!(matches!(a.on_action(MaoInteraction::new(None, PlayerAction::SelectRule)), MaoInteractionResult::NoInteractionFound));
    assert!(matches!(core.deactivate_rule_by_index(1), Err(Error::RuleNotActivated { .. })));
    core.deactivate_rule_by_index(0).unwrap();
    assert!(core.activated_rules_indexes().is_empty());
    assert!(a.same_structure(core.automaton()));
}

#[test]
fn a_new_game_deals_fresh_hands() {
    let mut core = basic_core(vec![vec![card(2, CommonCardType::Heart)], vec![], vec![]]);
    core.init_new_game(5).unwrap();
    for i in 0..3 {
        assert_eq!(core.get_player_hand_len(i).unwrap(), 5);
    }
    assert_eq!(core.stacks().len(), 3);
    assert_eq!(core.stacks()[0].get_cards().len(), 51 - 15);
    assert!(core.players_events().is_empty());
    assert!(core.get_executed_actions().is_empty());
    let p = core.init_player("dan".to_string(), 2).unwrap();
    assert_eq!(p.get_cards().len(), 2);
    assert_eq!(p.get_pseudo(), "dan");
}

#[test]
fn built_in_paths_build_an_automaton() {
    let paths = MaoCore::generate_actions();
    assert_eq!(paths.len(), 3);
    let mut a = Automaton::from_iter(&paths).unwrap();
    assert!(matches!(a.on_action(MaoInteraction::new(None, PlayerAction::SelectDrawableStack)), MaoInteractionResult::Leaf { func: 1, .. }));
}

#[test]
fn play_interaction_reads_card_and_stack() {
    let core = basic_core(vec![vec![], vec![card(5, CommonCardType::Heart), card(7, CommonCardType::Club)]]);
    let steps = vec![
        MaoInteraction::new(Some(IdString::Index(1)), PlayerAction::SelectCard),
        MaoInteraction::new(Some(IdString::Index(0)), PlayerAction::SelectPlayableStack),
    ];
    let ev = core.play_interaction(1, &steps).unwrap();
    assert_eq!(ev.card_index, 1);
    assert_eq!(ev.stack_index, Some(0));
    assert!(ev.played_card == card(7, CommonCardType::Club));
    let wrong = vec![MaoInteraction::new(Some(IdString::Index(1)), PlayerAction::SelectCard)];
    assert!(matches!(core.play_interaction(1, &wrong), Err(Error::InvalidMaoInteraction { .. })));
    let far = vec![
        MaoInteraction::new(Some(IdString::Index(1)), PlayerAction::SelectCard),
        MaoInteraction::new(Some(IdString::Index(8)), PlayerAction::SelectPlayableStack),
    ];
    assert!(matches!(core.play_interaction(1, &far), Err(Error::InvalidStackIndex { stack_index: 8, len: 3 })));
    let no_card = vec![
        MaoInteraction::new(Some(IdString::Index(4)), PlayerAction::SelectCard),
        MaoInteraction::new(None, PlayerAction::SelectPlayableStack),
    ];
    assert!(matches!(core.play_interaction(1, &no_card), Err(Error::InvalidCardIndex { card_index: 4, len: 2 })));
    assert!(MaoCore::correct_player_action(&vec![PlayerAction::SelectCard], &vec![MaoInteraction::new(None, PlayerAction::SelectCard)]));
    let draw = vec![MaoInteraction::new(Some(IdString::Index(1)), PlayerAction::SelectDrawableStack)];
    assert_eq!(MaoCore::draw_interaction(&draw).unwrap(), Some(1));
    assert!(matches!(MaoCore::draw_interaction(&steps), Err(Error::InvalidMaoInteraction { .. })));
}

#[test]
fn first_non_empty_drawable_stack() {
    let stacks = vec![
        Stack::new(vec![], false, vec![StackType::Drawable]),
        Stack::new(vec![card(1, CommonCardType::Heart)], true, vec![StackType::Playable]),
        Stack::new(vec![card(2, CommonCardType::Heart)], false, vec![StackType::Drawable]),
    ];
    let core = MaoCore::new(vec![], stacks, vec![], Automaton::new());
    assert_eq!(core.get_none_empty_drawable_stack(), Some(2));
    let core = basic_core(vec![]);
    assert_eq!(core.get_none_empty_drawable_stack(), Some(1));
}

#[test]
fn play_steps_follow_violations_then_legality() {
    let core = basic_core(vec![vec![], vec![card(9, CommonCardType::Heart)], vec![]]);
    let bad = CardEvent::new(card(9, CommonCardType::Heart), 1, Some(0), 0);
    match core.resolve_play(&bad, &vec![]) {
        PlayStep::Refuse { verdict: WrongPlayerInteraction::Disallow(d) } => {
            assert_eq!(d.rule, "Basic Rules");
            assert_eq!(d.msg, "You cannot play this card");
        }
        _ => panic!("expected a refusal"),
    }
    let v = vec![WrongPlayerInteraction::Disallow(Disallow::new("r".to_string(), "no".to_string(), None))];
    assert!(matches!(core.resolve_play(&bad, &v), PlayStep::Penalize));
    let good = CardEvent::new(card(5, CommonCardType::Heart), 1, Some(0), 0);
    assert!(matches!(core.resolve_play(&good, &vec![]), PlayStep::Accept));
    let wrong_turn = CardEvent::new(card(5, CommonCardType::Heart), 0, Some(0), 0);
    assert!(matches!(core.resolve_play(&wrong_turn, &vec![]), PlayStep::Refuse { .. }));
}

#[test]
fn drawn_cards_go_to_the_hand_or_back_to_the_stack() {
    let mut core = basic_core(vec![vec![], vec![], vec![]]);
    core.resolve_draw(1, card(4, CommonCardType::Club), 1, true).unwrap();
    assert_eq!(core.get_player_hand_len(1).unwrap(), 1);
    assert_eq!(core.player_turn(), 2);
    core.resolve_draw(1, card(6, CommonCardType::Club), 1, false).unwrap();
    assert_eq!(core.get_player_hand_len(1).unwrap(), 1);
    assert!(core.stacks()[1].top().unwrap() == &card(6, CommonCardType::Club));
    assert_eq!(core.player_turn(), 2);
    assert!(matches!(core.resolve_draw(7, card(6, CommonCardType::Club), 1, true), Err(Error::InvalidPlayerIndex { .. })));
    assert!(matches!(core.resolve_draw(0, card(6, CommonCardType::Club), 9, false), Err(Error::InvalidStackIndex { .. })));
}

#[test]
fn refill_is_pending_when_drawables_run_short() {
    let core = basic_core(vec![vec![]]);
    assert!(!core.refill_pending(0));
    assert!(!core.refill_pending(3));
    assert!(core.refill_pending(4));
}

#[test]
fn refill_without_index_fills_the_first_drawable_stack() {
    let stacks = vec![
        Stack::new(vec![card(1, CommonCardType::Heart), card(2, CommonCardType::Heart)], true, vec![StackType::Playable]),
        Stack::new(vec![], false, vec![StackType::Drawable]),
        Stack::new(vec![], false, vec![StackType::Drawable]),
    ];
    let mut core = MaoCore::new(vec![], stacks, vec![], Automaton::new());
    core.refill_drawable_stacks(None).unwrap();
    assert_eq!(core.stacks()[1].get_cards().len(), 1);
    assert!(core.stacks()[2].get_cards().is_empty());
}

#[test]
fn deactivation_keeps_the_order_of_the_other_rules() {
    let mut core = MaoCore::new(vec![rule("a", None), rule("b", None), rule("c", None)], vec![], vec![], Automaton::new());
    core.activate_rule_by_index(2).unwrap();
    core.activate_rule_by_index(0).unwrap();
    core.activate_rule_by_index(1).unwrap();
    core.deactivate_rule_by_index(0).unwrap();
    assert_eq!(core.activated_rules_indexes(), &vec![2, 1]);
}

#[test]
fn a_fresh_game_deals_up_to_the_whole_drawable_stack() {
    let mut core = basic_core(vec![vec![], vec![], vec![]]);
    core.init_new_game(17).unwrap();
    assert_eq!(core.stacks()[0].get_cards().len(), 0);
    assert!(core.refill_pending(1));
}
