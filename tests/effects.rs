use mao::card::{Card, CardType, CardValue, CommonCardType};
use mao::config::{
    CardEffects, CardEffectsInner, CardEffectsKey, CardEffectsStruct, CardPlayerAction, OneOrMoreWords,
    RuleCardsEffect, SingleCardEffect,
};
use mao::turn::{PlayerTurnChange, PlayerTurnUpdater};

fn physical(name: &str) -> CardEffectsInner {
    CardEffectsInner::only(SingleCardEffect::CardPlayerAction(CardPlayerAction::Physical(name.to_string())))
}

fn say(words: &[&str]) -> CardEffectsInner {
    CardEffectsInner::only(SingleCardEffect::CardPlayerAction(CardPlayerAction::Say(vec![OneOrMoreWords(
        words.iter().map(|w| w.to_string()).collect(),
    )])))
}

fn is_physical(e: &SingleCardEffect, name: &str) -> bool {
    matches!(e, SingleCardEffect::CardPlayerAction(CardPlayerAction::Physical(p)) if p == name)
}

fn table() -> CardEffectsStruct {
    let mut t = CardEffectsStruct::new();
    t.insert(CardEffectsKey::new(None, Some(CardValue::Number(7))), CardEffects::single(physical("clap")));
    t.insert(
        CardEffectsKey::new(Some(CardType::Common(CommonCardType::Heart)), None),
        CardEffects::single(physical("wink")),
    );
    t.insert(
        CardEffectsKey::new(Some(CardType::Common(CommonCardType::Heart)), Some(CardValue::Number(7))),
        CardEffects::single(physical("bow")),
    );
    t
}

#[test]
fn value_and_type_effects_are_combined() {
    let t = table();
    let card = Card::new(CardValue::Number(7), CardType::Common(CommonCardType::Heart));
    let effects = t.card_effects(&card);
    assert_eq!(effects.len(), 3);
    assert!(is_physical(&effects[0], "clap"));
    assert!(is_physical(&effects[1], "wink"));
    assert!(is_physical(&effects[2], "bow"));
}

#[test]
fn only_matching_selectors_apply() {
    let t = table();
    let card = Card::new(CardValue::Number(7), CardType::Common(CommonCardType::Spade));
    let effects = t.card_effects(&card);
    assert_eq!(effects.len(), 1);
    assert!(is_physical(&effects[0], "clap"));
    let card = Card::new(CardValue::Number(2), CardType::Common(CommonCardType::Club));
    assert!(t.card_effects(&card).is_empty());
}

#[test]
fn insert_replaces_and_remove_deletes() {
    let mut t = table();
    let key = CardEffectsKey::new(None, Some(CardValue::Number(7)));
    t.insert(key.clone(), CardEffects::single(physical("jump")));
    let e = t.get(&key).unwrap();
    assert_eq!(e.effects().len(), 1);
    assert!(is_physical(&e.effects()[0].effect, "jump"));
    t.remove(&key);
    assert!(t.get(&key).is_none());
}

#[test]
fn merge_appends_to_existing_selectors() {
    let mut t = table();
    let mut other = CardEffectsStruct::new();
    let key = CardEffectsKey::new(None, Some(CardValue::Number(7)));
    other.insert(key.clone(), CardEffects::single(say(&["seven"])));
    other.insert(CardEffectsKey::new(None, Some(CardValue::Number(8))), CardEffects::single(physical("spin")));
    t.merge_card_effects(other);
    let e = t.get(&key).unwrap();
    assert_eq!(e.effects().len(), 2);
    assert!(is_physical(&e.effects()[0].effect, "clap"));
    assert!(t.get(&CardEffectsKey::new(None, Some(CardValue::Number(8)))).is_some());
}

#[test]
fn removing_effects_drops_emptied_selectors() {
    let mut t = table();
    let mut other = CardEffectsStruct::new();
    let key = CardEffectsKey::new(None, Some(CardValue::Number(7)));
    other.insert(key.clone(), CardEffects::single(physical("clap")));
    t.remove_card_effects(&other);
    assert!(t.get(&key).is_none());
    assert!(t.get(&CardEffectsKey::new(Some(CardType::Common(CommonCardType::Heart)), None)).is_some());
}

#[test]
fn rule_name_tags_every_effect() {
    let mut t = CardEffectsStruct::new();
    let key = CardEffectsKey::new(None, Some(CardValue::Number(1)));
    t.insert(
        key.clone(),
        CardEffects::multiple(vec![
            physical("punch"),
            CardEffectsInner::new(
                SingleCardEffect::PlayerTurnChange(PlayerTurnChange::Update(PlayerTurnUpdater::Update(2))),
                RuleCardsEffect { rule_name: "old".to_string(), error_message: Some("msg".to_string()) },
            ),
        ]),
    );
    t.add_rule_name("Rulename1");
    let e = t.get(&key).unwrap();
    let first = e.effects()[0].rule_effect.as_ref().unwrap();
    assert_eq!(first.rule_name, "Rulename1");
    assert!(first.error_message.is_none());
    let second = e.effects()[1].rule_effect.as_ref().unwrap();
    assert_eq!(second.rule_name, "Rulename1");
    assert_eq!(second.error_message.as_deref(), Some("msg"));
}

#[test]
fn card_colors_follow_suits() {
    let heart = Card::new(CardValue::Number(3), CardType::Common(CommonCardType::Heart));
    let club = Card::new(CardValue::Number(3), CardType::Common(CommonCardType::Club));
    assert!(heart.get_color() != club.get_color());
    assert!(heart == Card::new(CardValue::Number(3), CardType::Common(CommonCardType::Heart)));
    assert!(heart != club);
}

#[test]
fn physical_actions_are_listed_once() {
    let mut t = table();
    t.insert(CardEffectsKey::new(None, Some(CardValue::Number(9))), CardEffects::multiple(vec![physical("clap"), say(&["nine"])]));
    let config = mao::config::Config { dirname: String::new(), cards_effects: t };
    let mut names = config.get_all_physical_actions();
    names.sort();
    assert_eq!(names, vec!["bow".to_string(), "clap".to_string(), "wink".to_string()]);
}

#[test]
fn sanitize_drops_phrases_without_words() {
    let mut e = SingleCardEffect::CardPlayerAction(CardPlayerAction::Say(vec![
        OneOrMoreWords(vec![]),
        OneOrMoreWords(vec!["one".to_string()]),
        OneOrMoreWords(vec![]),
    ]));
    e.sanitize();
    match &e {
        SingleCardEffect::CardPlayerAction(CardPlayerAction::Say(v)) => {
            assert_eq!(v.len(), 1);
            assert_eq!(v[0].0, vec!["one".to_string()]);
        }
        _ => panic!("expected a phrase list"),
    }
    let mut t = CardEffectsStruct::new();
    let key = CardEffectsKey::new(None, Some(CardValue::Number(1)));
    t.insert(key.clone(), CardEffects::single(CardEffectsInner::only(e)));
    t.insert(
        CardEffectsKey::new(None, Some(CardValue::Number(2))),
        CardEffects::single(CardEffectsInner::only(SingleCardEffect::CardPlayerAction(CardPlayerAction::Say(vec![
            OneOrMoreWords(vec![]),
        ])))),
    );
    let mut config = mao::config::Config { dirname: String::new(), cards_effects: t };
    config.sanitize();
    let two = config.cards_effects.get(&CardEffectsKey::new(None, Some(CardValue::Number(2)))).unwrap();
    assert!(matches!(&two.effects()[0].effect, SingleCardEffect::CardPlayerAction(CardPlayerAction::Say(v)) if v.is_empty()));
}
