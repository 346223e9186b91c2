use mao::action::IdString;
use mao::card::{Card, CardType, CardValue, CommonCardType, GameCard, GameCardDisplay, GameCardVisibility};
use mao::error::Error;
use mao::event::{CardEvent, MaoEvent};
use mao::player::{Data, DataKey, Player};
use mao::stack::{Stack, StackType};

#[test]
fn game_card_shows_its_claimed_identity() {
    let real = Card::new(CardValue::Number(2), CardType::Common(CommonCardType::Club));
    let claimed = Card::new(CardValue::Number(9), CardType::Common(CommonCardType::Heart));
    let mut g = GameCard::new(None, real.clone(), GameCardVisibility::All, &["r1", "r2"], Some(1));
    assert!(g.played_card() == &real);
    assert_eq!(g.rules(), &vec!["r1".to_string(), "r2".to_string()]);
    g.set_supposed_card(claimed.clone());
    assert!(g.played_card() == &claimed);
    g.set_display(GameCardDisplay::Hidden);
    assert_eq!(g.display(), GameCardDisplay::Hidden);
    g.set_as_normal();
    assert!(g.played_card() == &real);
    assert_eq!(g.display(), GameCardDisplay::Visible);
    assert!(matches!(g.visibility(), GameCardVisibility::Owner));
    assert_eq!(g.played_by(), Some(1));
    g.set_played_by(None);
    assert_eq!(g.played_by(), None);
    g.clear_properties();
    assert!(g.rules().is_empty());
    assert!(g.real_card() == &real);
    let n = GameCard::normal_card(real.clone());
    assert!(n.played_card() == &real);
}

#[test]
fn stacks_take_from_the_top() {
    let a = Card::new(CardValue::Number(1), CardType::Rule);
    let b = Card::new(CardValue::PlusInfinity, CardType::Common(CommonCardType::Spade));
    let mut s = Stack::new(vec![a.clone()], false, vec![StackType::Drawable, StackType::Discardable]);
    s.add_card(b.clone());
    assert!(s.top().unwrap() == &b);
    assert!(s.has_type(StackType::Discardable));
    assert!(!s.has_type(StackType::Playable));
    assert!(s.draw_card().unwrap() == b);
    assert!(s.then_some(3).is_none());
    s.set_visible(true);
    assert_eq!(s.then_some(3), Some(3));
    assert_eq!(s.then(|| 4), Some(4));
    assert!(matches!(s.remove_card(5), Err(Error::InvalidCardIndex { card_index: 5, len: 1 })));
    assert!(s.get_card(0).unwrap() == &a);
    assert!(s.remove_card(0).unwrap() == a);
    assert!(s.draw_card().is_none());
}

#[test]
fn players_keep_their_hand_and_data() {
    let mut p = Player::new("ann".to_string(), vec![]);
    assert_eq!(p.get_pseudo(), "ann");
    p.add_card(Card::new(CardValue::MinusInfinity, CardType::Rule));
    assert_eq!(p.get_cards().len(), 1);
    let mut d = Data::new();
    assert!(d.get_rule_data(&DataKey("r".to_string())).is_none());
    d.get_or_insert_rule_data(DataKey("r".to_string()));
    assert!(d.get_rule_data(&DataKey("r".to_string())).unwrap().0.is_empty());
    assert!(p.data().get_rule_data(&DataKey("r".to_string())).is_none());
}

#[test]
fn only_gameplay_events_are_recorded() {
    let c = Card::new(CardValue::Number(3), CardType::Common(CommonCardType::Heart));
    let e = MaoEvent::PlayedCardEvent(CardEvent::new(c.clone(), 0, None, 0));
    assert!(e.is_recordable());
    assert!(e.can_change_turn());
    assert!(e.get_card().unwrap() == &c);
    assert!(MaoEvent::SayEvent { message: "x".to_string(), player_index: 0 }.is_recordable());
    assert!(!MaoEvent::SayEvent { message: "x".to_string(), player_index: 0 }.can_change_turn());
    assert!(!MaoEvent::GameStart.is_recordable());
    assert!(!MaoEvent::EndPlayerTurn { events: vec![] }.is_recordable());
    assert!(!MaoEvent::PlayerPenality { player_target: 0 }.is_recordable());
    assert!(MaoEvent::GameStart.get_card().is_none());
}

#[test]
fn payloads_expect_their_kind() {
    assert_eq!(IdString::Index(4).index_expecting().unwrap(), 4);
    assert!(matches!(IdString::String("a".to_string()).index_expecting(), Err(Error::InvalidExpectingValue(_))));
    assert_eq!(IdString::String("a".to_string()).string_expecting().unwrap(), "a");
    assert!(matches!(IdString::Index(1).string_expecting(), Err(Error::InvalidExpectingValue(_))));
}

#[test]
fn stack_roles_map_to_selection_tokens() {
    use_role(StackType::Playable, mao::action::PlayerAction::SelectPlayableStack);
    use_role(StackType::Drawable, mao::action::PlayerAction::SelectDrawableStack);
    use_role(StackType::Discardable, mao::action::PlayerAction::SelectDiscardableStack);
}

fn use_role(t: StackType, expected: mao::action::PlayerAction) {
    assert_eq!(mao::action::PlayerAction::from(t), expected);
}
