use vstd::prelude::*;
use crate::card::{Card, CardType, CardTypeModel, CardValue};
use crate::turn::PlayerTurnChange;

verus! {

/// One requirement to say something: any one of these words will do.
#[derive(Debug)]
pub struct OneOrMoreWords(pub Vec<String>);

/// Something a player must do along with playing a card.
#[derive(Debug)]
pub enum CardPlayerAction {
    Say(Vec<OneOrMoreWords>),
    Physical(String),
}

/// One effect of a card: a turn change or an action required of the player.
#[derive(Debug)]
pub enum SingleCardEffect {
    PlayerTurnChange(PlayerTurnChange),
    CardPlayerAction(CardPlayerAction),
}

/// The rule an effect comes from.
#[derive(Debug)]
pub struct RuleCardsEffect {
    pub rule_name: String,
    pub error_message: Option<String>,
}

/// An effect and the rule it comes from, if any.
#[derive(Debug)]
pub struct CardEffectsInner {
    pub effect: SingleCardEffect,
    pub rule_effect: Option<RuleCardsEffect>,
}

/// The effects configured for one card selector.
#[derive(Debug)]
pub struct CardEffects {
    effects: Vec<CardEffectsInner>,
}

/// A card selector: by type, by value, or by both.
#[derive(Debug)]
pub struct CardEffectsKey {
    pub c_type: Option<CardType>,
    pub value: Option<CardValue>,
}

/// Mathematical value of a selector.
pub type KeyModel = (Option<CardTypeModel>, Option<CardValue>);

pub open spec fn key_model(k: CardEffectsKey) -> KeyModel {
    (
        match k.c_type {
            Some(t) => Some(t.model()),
            None => None,
        },
        k.value,
    )
}

/// Mathematical value of an action requirement.
pub enum ActionModel {
    Say(Seq<Seq<Seq<char>>>),
    Physical(Seq<char>),
}

pub open spec fn words_model(w: OneOrMoreWords) -> Seq<Seq<char>> {
    w.0@.map_values(|s: String| s@)
}

pub open spec fn action_model(a: CardPlayerAction) -> ActionModel {
    match a {
        CardPlayerAction::Say(v) => ActionModel::Say(v@.map_values(|w: OneOrMoreWords| words_model(w))),
        CardPlayerAction::Physical(s) => ActionModel::Physical(s@),
    }
}

/// Mathematical value of an effect.
pub enum EffectModel {
    TurnChange(PlayerTurnChange),
    Action(ActionModel),
}

pub open spec fn effect_model(e: SingleCardEffect) -> EffectModel {
    match e {
        SingleCardEffect::PlayerTurnChange(c) => EffectModel::TurnChange(c),
        SingleCardEffect::CardPlayerAction(a) => EffectModel::Action(action_model(a)),
    }
}

pub open spec fn rule_effect_model(r: Option<RuleCardsEffect>) -> Option<(Seq<char>, Option<Seq<char>>)> {
    match r {
        Some(x) => Some(
            (
                x.rule_name@,
                match x.error_message {
                    Some(m) => Some(m@),
                    None => None,
                },
            ),
        ),
        None => None,
    }
}

pub open spec fn inner_model(e: CardEffectsInner) -> (EffectModel, Option<(Seq<char>, Option<Seq<char>>)>) {
    (effect_model(e.effect), rule_effect_model(e.rule_effect))
}

fn clone_strings(v: &Vec<String>) -> (r: Vec<String>)
    ensures
        r@ == v@,
{
    let mut r: Vec<String> = Vec::new();
    let mut i: usize = 0;
    while i < v.len()
        invariant
            i <= v@.len(),
            r@ == v@.subrange(0, i as int),
        decreases v@.len() - i,
    {
        r.push(v[i].clone());
        i = i + 1;
        assert(r@ =~= v@.subrange(0, i as int));
    }
    assert(v@.subrange(0, v@.len() as int) =~= v@);
    r
}

fn strings_eq(a: &Vec<String>, b: &Vec<String>) -> (r: bool)
    ensures
        r == (a@.map_values(|s: String| s@) == b@.map_values(|s: String| s@)),
{
    if a.len() != b.len() {
        assert(a@.map_values(|s: String| s@).len() != b@.map_values(|s: String| s@).len());
        return false;
    }
    let mut i: usize = 0;
    while i < a.len()
        invariant
            a@.len() == b@.len(),
            i <= a@.len(),
            forall|j: int| 0 <= j < i ==> (#[trigger] a@[j])@ == b@[j]@,
        decreases a@.len() - i,
    {
        if !a[i].eq(&b[i]) {
            assert(a@.map_values(|s: String| s@)[i as int] != b@.map_values(|s: String| s@)[i as int]);
            return false;
        }
        i = i + 1;
    }
    assert(a@.map_values(|s: String| s@) =~= b@.map_values(|s: String| s@));
    true
}

impl Clone for OneOrMoreWords {
    fn clone(&self) -> (r: Self)
        ensures
            words_model(r) == words_model(*self),
    {
        let r = OneOrMoreWords(clone_strings(&self.0));
        assert(words_model(r) =~= words_model(*self));
        r
    }
}

pub open spec fn words_list_model(v: Seq<OneOrMoreWords>) -> Seq<Seq<Seq<char>>> {
    v.map_values(|w: OneOrMoreWords| words_model(w))
}

fn clone_words_list(v: &Vec<OneOrMoreWords>) -> (r: Vec<OneOrMoreWords>)
    ensures
        words_list_model(r@) == words_list_model(v@),
{
    let mut r: Vec<OneOrMoreWords> = Vec::new();
    let mut i: usize = 0;
    while i < v.len()
        invariant
            i <= v@.len(),
            words_list_model(r@) == words_list_model(v@.subrange(0, i as int)),
            r@.len() == i,
        decreases v@.len() - i,
    {
        let ghost prev = r@;
        let c = v[i].clone();
        assert(words_model(c) == words_model(v@[i as int]));
        r.push(c);
        i = i + 1;
        assert forall|j: int| 0 <= j < i implies #[trigger] words_list_model(r@)[j] == words_list_model(
            v@.subrange(0, i as int),
        )[j] by {
            if j < i - 1 {
                assert(r@[j] == prev[j]);
                assert(v@.subrange(0, i as int)[j] == v@.subrange(0, i - 1 as int)[j]);
                assert(words_list_model(prev)[j] == words_list_model(v@.subrange(0, i - 1 as int))[j]);
            } else {
                assert(r@[j] == c);
            }
        }
        assert(words_list_model(r@) =~= words_list_model(v@.subrange(0, i as int)));
    }
    assert(v@.subrange(0, v@.len() as int) =~= v@);
    r
}

fn words_list_eq(a: &Vec<OneOrMoreWords>, b: &Vec<OneOrMoreWords>) -> (r: bool)
    ensures
        r == (a@.map_values(|w: OneOrMoreWords| words_model(w)) == b@.map_values(
            |w: OneOrMoreWords| words_model(w),
        )),
{
    let ghost ma = a@.map_values(|w: OneOrMoreWords| words_model(w));
    let ghost mb = b@.map_values(|w: OneOrMoreWords| words_model(w));
    if a.len() != b.len() {
        assert(ma.len() != mb.len());
        return false;
    }
    let mut i: usize = 0;
    while i < a.len()
        invariant
            a@.len() == b@.len(),
            ma == a@.map_values(|w: OneOrMoreWords| words_model(w)),
            mb == b@.map_values(|w: OneOrMoreWords| words_model(w)),
            i <= a@.len(),
            forall|j: int| 0 <= j < i ==> ma[j] == mb[j],
        decreases a@.len() - i,
    {
        if !strings_eq(&a[i].0, &b[i].0) {
            assert(ma[i as int] != mb[i as int]);
            return false;
        }
        i = i + 1;
    }
    assert(ma =~= mb);
    true
}

impl Clone for CardPlayerAction {
    fn clone(&self) -> (r: Self)
        ensures
            action_model(r) == action_model(*self),
    {
        match self {
            CardPlayerAction::Say(v) => CardPlayerAction::Say(clone_words_list(v)),
            CardPlayerAction::Physical(s) => CardPlayerAction::Physical(s.clone()),
        }
    }
}

impl PartialEq for CardPlayerAction {
    fn eq(&self, o: &CardPlayerAction) -> (r: bool)
        ensures
            r == (action_model(*self) == action_model(*o)),
    {
        match (self, o) {
            (CardPlayerAction::Say(a), CardPlayerAction::Say(b)) => words_list_eq(a, b),
            (CardPlayerAction::Physical(a), CardPlayerAction::Physical(b)) => a.eq(b),
            _ => false,
        }
    }
}

impl vstd::std_specs::cmp::PartialEqSpecImpl for CardPlayerAction {
    open spec fn obeys_eq_spec() -> bool {
        true
    }

    open spec fn eq_spec(&self, o: &CardPlayerAction) -> bool {
        action_model(*self) == action_model(*o)
    }
}

impl Clone for SingleCardEffect {
    fn clone(&self) -> (r: Self)
        ensures
            effect_model(r) == effect_model(*self),
    {
        match self {
            SingleCardEffect::PlayerTurnChange(c) => SingleCardEffect::PlayerTurnChange(*c),
            SingleCardEffect::CardPlayerAction(a) => SingleCardEffect::CardPlayerAction(a.clone()),
        }
    }
}

impl PartialEq for SingleCardEffect {
    fn eq(&self, o: &SingleCardEffect) -> (r: bool)
        ensures
            r == (effect_model(*self) == effect_model(*o)),
    {
        match (self, o) {
            (SingleCardEffect::PlayerTurnChange(a), SingleCardEffect::PlayerTurnChange(b)) => *a == *b,
            (SingleCardEffect::CardPlayerAction(a), SingleCardEffect::CardPlayerAction(b)) => a.eq(b),
            _ => false,
        }
    }
}

impl vstd::std_specs::cmp::PartialEqSpecImpl for SingleCardEffect {
    open spec fn obeys_eq_spec() -> bool {
        true
    }

    open spec fn eq_spec(&self, o: &SingleCardEffect) -> bool {
        effect_model(*self) == effect_model(*o)
    }
}

fn clone_opt_string(s: &Option<String>) -> (r: Option<String>)
    ensures
        r == *s,
{
    match s {
        Some(x) => Some(x.clone()),
        None => None,
    }
}

fn opt_string_eq(a: &Option<String>, b: &Option<String>) -> (r: bool)
    ensures
        r == (match *a {
            Some(x) => Some(x@),
            None => None::<Seq<char>>,
        } == match *b {
            Some(x) => Some(x@),
            None => None::<Seq<char>>,
        }),
{
    match (a, b) {
        (Some(x), Some(y)) => x.eq(y),
        (None, None) => true,
        _ => false,
    }
}

impl Clone for RuleCardsEffect {
    fn clone(&self) -> (r: Self)
        ensures
            r == *self,
    {
        RuleCardsEffect {
            rule_name: self.rule_name.clone(),
            error_message: clone_opt_string(&self.error_message),
        }
    }
}

impl Clone for CardEffectsInner {
    fn clone(&self) -> (r: Self)
        ensures
            inner_model(r) == inner_model(*self),
    {
        let rule_effect = match &self.rule_effect {
            Some(x) => Some(x.clone()),
            None => None,
        };
        CardEffectsInner { effect: self.effect.clone(), rule_effect }
    }
}

impl PartialEq for CardEffectsInner {
    fn eq(&self, o: &CardEffectsInner) -> (r: bool)
        ensures
            r == (inner_model(*self) == inner_model(*o)),
    {
        let same_effect = self.effect.eq(&o.effect);
        let same_rule = match (&self.rule_effect, &o.rule_effect) {
            (Some(x), Some(y)) => {
                let n = x.rule_name.eq(&y.rule_name);
                let m = opt_string_eq(&x.error_message, &y.error_message);
                n && m
            },
            (None, None) => true,
            _ => false,
        };
        same_effect && same_rule
    }
}

impl vstd::std_specs::cmp::PartialEqSpecImpl for CardEffectsInner {
    open spec fn obeys_eq_spec() -> bool {
        true
    }

    open spec fn eq_spec(&self, o: &CardEffectsInner) -> bool {
        inner_model(*self) == inner_model(*o)
    }
}

impl CardEffectsInner {
    /// An effect that no rule claims.
    pub fn only(effect: SingleCardEffect) -> (r: Self)
        ensures
            r.effect == effect,
            r.rule_effect is None,
    {
        CardEffectsInner { effect, rule_effect: None }
    }

    /// An effect that comes from a rule.
    pub fn new(effect: SingleCardEffect, rule_effect: RuleCardsEffect) -> (r: Self)
        ensures
            r.effect == effect,
            r.rule_effect == Some(rule_effect),
    {
        CardEffectsInner { effect, rule_effect: Some(rule_effect) }
    }
}

/// Mathematical value of a list of effects.
pub open spec fn effects_model(v: Seq<CardEffectsInner>) -> Seq<(EffectModel, Option<(Seq<char>, Option<Seq<char>>)>)> {
    v.map_values(|e: CardEffectsInner| inner_model(e))
}

fn clone_inners(v: &Vec<CardEffectsInner>) -> (r: Vec<CardEffectsInner>)
    ensures
        effects_model(r@) == effects_model(v@),
{
    let mut r: Vec<CardEffectsInner> = Vec::new();
    let mut i: usize = 0;
    while i < v.len()
        invariant
            i <= v@.len(),
            effects_model(r@) == effects_model(v@.subrange(0, i as int)),
            r@.len() == i,
        decreases v@.len() - i,
    {
        let ghost prev = r@;
        let c = v[i].clone();
        assert(inner_model(c) == inner_model(v@[i as int]));
        r.push(c);
        i = i + 1;
        assert forall|j: int| 0 <= j < i implies #[trigger] effects_model(r@)[j] == effects_model(
            v@.subrange(0, i as int),
        )[j] by {
            if j < i - 1 {
                assert(r@[j] == prev[j]);
                assert(v@.subrange(0, i as int)[j] == v@.subrange(0, i - 1 as int)[j]);
                assert(effects_model(prev)[j] == effects_model(v@.subrange(0, i - 1 as int))[j]);
            } else {
                assert(r@[j] == c);
            }
        }
        assert(effects_model(r@) =~= effects_model(v@.subrange(0, i as int)));
    }
    assert(v@.subrange(0, v@.len() as int) =~= v@);
    r
}

impl Clone for CardEffects {
    fn clone(&self) -> (r: Self)
        ensures
            effects_model(r.view()) == effects_model(self.view()),
    {
        CardEffects { effects: clone_inners(&self.effects) }
    }
}

impl CardEffects {
    pub closed spec fn view(&self) -> Seq<CardEffectsInner> {
        self.effects@
    }

    pub fn effects(&self) -> (r: &Vec<CardEffectsInner>)
        ensures
            r@ == self.view(),
    {
        &self.effects
    }

    pub fn new(effects: Vec<CardEffectsInner>) -> (r: Self)
        ensures
            r.view() == effects@,
    {
        CardEffects { effects }
    }

    pub fn single(single: CardEffectsInner) -> (r: Self)
        ensures
            r.view() == seq![single],
    {
        let r = CardEffects { effects: vec![single] };
        assert(r.effects@ =~= seq![single]);
        r
    }

    pub fn multiple(multiple: Vec<CardEffectsInner>) -> (r: Self)
        ensures
            r.view() == multiple@,
    {
        CardEffects { effects: multiple }
    }
}

impl Clone for CardEffectsKey {
    fn clone(&self) -> (r: Self)
        ensures
            r == *self,
    {
        let c_type = match &self.c_type {
            Some(t) => Some(t.clone()),
            None => None,
        };
        CardEffectsKey { c_type, value: self.value }
    }
}

impl PartialEq for CardEffectsKey {
    fn eq(&self, o: &CardEffectsKey) -> (r: bool)
        ensures
            r == (key_model(*self) == key_model(*o)),
    {
        let same_type = match (&self.c_type, &o.c_type) {
            (Some(a), Some(b)) => a.eq(b),
            (None, None) => true,
            _ => false,
        };
        same_type && self.value == o.value
    }
}

impl vstd::std_specs::cmp::PartialEqSpecImpl for CardEffectsKey {
    open spec fn obeys_eq_spec() -> bool {
        true
    }

    open spec fn eq_spec(&self, o: &CardEffectsKey) -> bool {
        key_model(*self) == key_model(*o)
    }
}

impl CardEffectsKey {
    pub fn new(c_type: Option<CardType>, value: Option<CardValue>) -> (r: Self)
        ensures
            r.c_type == c_type,
            r.value == value,
    {
        CardEffectsKey { c_type, value }
    }
}

pub type EffectsModel = Seq<(EffectModel, Option<(Seq<char>, Option<Seq<char>>)>)>;

pub type TableModel = Map<KeyModel, EffectsModel>;

/// The effects a table holds for a selector; none when it has no entry.
pub open spec fn effects_of(t: TableModel, k: KeyModel) -> EffectsModel {
    if t.dom().contains(k) {
        t[k]
    } else {
        Seq::empty()
    }
}

/// The selectors of a card, in lookup order: by value, by type, by both.
pub open spec fn card_keys(card: Card) -> Seq<KeyModel> {
    seq![
        (None, Some(card.spec_value())),
        (Some(card.spec_sign()), None),
        (Some(card.spec_sign()), Some(card.spec_value())),
    ]
}

/// Every effect that applies to a card: the union of the three lookups.
pub open spec fn card_effects_model(t: TableModel, card: Card) -> EffectsModel {
    effects_of(t, card_keys(card)[0]) + effects_of(t, card_keys(card)[1]) + effects_of(
        t,
        card_keys(card)[2],
    )
}

/// The effect part of each entry of `m`.
pub open spec fn effect_parts(m: EffectsModel) -> Seq<EffectModel> {
    m.map_values(|e: (EffectModel, Option<(Seq<char>, Option<Seq<char>>)>)| e.0)
}

/// `m` tagged as coming from the rule `name`, keeping any error message.
pub open spec fn tagged(m: (EffectModel, Option<(Seq<char>, Option<Seq<char>>)>), name: Seq<char>) -> (
    EffectModel,
    Option<(Seq<char>, Option<Seq<char>>)>,
) {
    (
        m.0,
        Some(
            (
                name,
                match m.1 {
                    Some(r) => r.1,
                    None => None,
                },
            ),
        ),
    )
}

/// The entries of `m` that do not occur in `bad`, in order.
pub open spec fn keep_absent(m: EffectsModel, bad: EffectsModel) -> EffectsModel
    decreases m.len(),
{
    if m.len() == 0 {
        m
    } else if bad.contains(m.last()) {
        keep_absent(m.drop_last(), bad)
    } else {
        keep_absent(m.drop_last(), bad).push(m.last())
    }
}

/// A table of card effects, keyed by selector; each selector at most once.
pub struct CardEffectsStruct {
    entries: Vec<(CardEffectsKey, CardEffects)>,
    table: Ghost<TableModel>,
}

impl CardEffectsStruct {
    pub closed spec fn view(&self) -> TableModel {
        self.table@
    }

    pub closed spec fn wf(&self) -> bool {
        let es = self.entries@;
        let t = self.table@;
        &&& forall|i: int, j: int|
            0 <= i < j < es.len() ==> key_model(#[trigger] es[i].0) != key_model(#[trigger] es[j].0)
        &&& forall|i: int|
            0 <= i < es.len() ==> t.dom().contains(key_model(#[trigger] es[i].0)) && t[key_model(es[i].0)]
                == effects_model(es[i].1.view())
        &&& forall|k: KeyModel| #[trigger] t.dom().contains(k) ==> exists|i: int| 0 <= i < es.len() && key_model(es[i].0) == k
    }

    /// An empty table.
    pub fn new() -> (r: Self)
        ensures
            r.wf(),
            r@ == Map::<KeyModel, EffectsModel>::empty(),
    {
        CardEffectsStruct { entries: Vec::new(), table: Ghost(Map::empty()) }
    }

    /// Position of the entry for `k`.
    fn find(&self, k: &CardEffectsKey) -> (r: Option<usize>)
        requires
            self.wf(),
        ensures
            r is None ==> !self@.dom().contains(key_model(*k)),
            r matches Some(i) ==> i < self.entries@.len() && key_model(self.entries@[i as int].0) == key_model(*k),
    {
        let mut i: usize = 0;
        while i < self.entries.len()
            invariant
                self.wf(),
                i <= self.entries@.len(),
                forall|j: int| 0 <= j < i ==> key_model(#[trigger] self.entries@[j].0) != key_model(*k),
            decreases self.entries@.len() - i,
        {
            if self.entries[i].0.eq(k) {
                return Some(i);
            }
            i = i + 1;
        }
        None
    }

    /// The effects configured for `k`.
    pub fn get(&self, k: &CardEffectsKey) -> (r: Option<&CardEffects>)
        requires
            self.wf(),
        ensures
            r is Some <==> self@.dom().contains(key_model(*k)),
            r matches Some(e) ==> effects_model(e.view()) == self@[key_model(*k)],
    {
        match self.find(k) {
            Some(i) => Some(&self.entries[i].1),
            None => None,
        }
    }

    /// Sets the effects of `k`, replacing any it had.
    pub fn insert(&mut self, k: CardEffectsKey, v: CardEffects)
        requires
            old(self).wf(),
        ensures
            final(self).wf(),
            final(self)@ == old(self)@.insert(key_model(k), effects_model(v.view())),
    {
        let ghost km = key_model(k);
        let ghost t = self.table@.insert(km, effects_model(v.view()));
        let ghost mut idx: int = 0;
        match self.find(&k) {
            Some(i) => {
                self.entries.set(i, (k, v));
                proof {
                    idx = i as int;
                }
            },
            None => {
                self.entries.push((k, v));
                proof {
                    idx = self.entries@.len() - 1;
                }
            },
        }
        self.table = Ghost(t);
        proof {
            let es = self.entries@;
            assert forall|k2: KeyModel| #[trigger] t.dom().contains(k2) implies exists|i: int|
                0 <= i < es.len() && key_model(es[i].0) == k2 by {
                if k2 == km {
                    assert(key_model(es[idx].0) == km);
                } else {
                    let i = choose|i: int| 0 <= i < old(self).entries@.len() && key_model(old(self).entries@[i].0) == k2;
                    assert(key_model(es[i].0) == k2);
                }
            }
        }
    }

    /// Removes the entry of `k`, if any.
    pub fn remove(&mut self, k: &CardEffectsKey)
        requires
            old(self).wf(),
        ensures
            final(self).wf(),
            final(self)@ == old(self)@.remove(key_model(*k)),
    {
        let ghost km = key_model(*k);
        match self.find(k) {
            Some(i) => {
                let ghost es0 = self.entries@;
                self.entries.remove(i);
                self.table = Ghost(self.table@.remove(km));
                proof {
                    let es = self.entries@;
                    let t = self.table@;
                    assert(es =~= es0.remove(i as int));
                    assert forall|a: int, b: int| 0 <= a < b < es.len() implies key_model(#[trigger] es[a].0)
                        != key_model(#[trigger] es[b].0) by {
                        let a0 = if a < i { a } else { a + 1 };
                        let b0 = if b < i { b } else { b + 1 };
                        assert(es[a] == es0[a0]);
                        assert(es[b] == es0[b0]);
                    }
                    assert forall|a: int| 0 <= a < es.len() implies t.dom().contains(key_model(#[trigger] es[a].0))
                        && t[key_model(es[a].0)] == effects_model(es[a].1.view()) by {
                        let a0 = if a < i { a } else { a + 1 };
                        assert(es[a] == es0[a0]);
                        assert(a0 != i);
                    }
                    assert forall|k2: KeyModel| #[trigger] t.dom().contains(k2) implies exists|a: int|
                        0 <= a < es.len() && key_model(es[a].0) == k2 by {
                        let a0 = choose|a0: int| 0 <= a0 < es0.len() && key_model(es0[a0].0) == k2;
                        assert(a0 != i);
                        let a = if a0 < i { a0 } else { a0 - 1 };
                        assert(es[a] == es0[a0]);
                    }
                }
            },
            None => {
                assert(self.table@.remove(km) =~= self.table@);
            },
        }
    }

    /// Adds the effects of `card_effects`: appended to those of a selector
    /// already present, or as a new entry.
    pub fn merge_card_effects(&mut self, card_effects: CardEffectsStruct)
        requires
            old(self).wf(),
            card_effects.wf(),
        ensures
            final(self).wf(),
            final(self)@.dom() == old(self)@.dom() + card_effects@.dom(),
            forall|k: KeyModel|
                #[trigger] effects_of(final(self)@, k) == effects_of(old(self)@, k) + effects_of(card_effects@, k),
    {
        let ghost mut done: TableModel = Map::empty();
        let mut i: usize = 0;
        while i < card_effects.entries.len()
            invariant
                self.wf(),
                card_effects.wf(),
                i <= card_effects.entries@.len(),
                done.dom() =~= Set::new(|k: KeyModel| exists|j: int| 0 <= j < i && key_model(card_effects.entries@[j].0) == k),
                forall|k: KeyModel| #[trigger] done.dom().contains(k) ==> done[k] == card_effects@[k],
                self@.dom() == old(self)@.dom() + done.dom(),
                forall|k: KeyModel|
                    #[trigger] effects_of(self@, k) == effects_of(old(self)@, k) + effects_of(done, k),
            decreases card_effects.entries@.len() - i,
        {
            let k = &card_effects.entries[i].0;
            let v = &card_effects.entries[i].1;
            let ghost km = key_model(*k);
            let mut merged = match self.get(k) {
                Some(e) => clone_inners(e.effects()),
                None => Vec::new(),
            };
            let mut add = clone_inners(v.effects());
            let ghost a = merged@;
            let ghost b = add@;
            merged.append(&mut add);
            proof {
                assert(effects_model(merged@) =~= effects_model(a) + effects_model(b));
                assert(!done.dom().contains(km)) by {
                    if done.dom().contains(km) {
                        let j = choose|j: int| 0 <= j < i && key_model(card_effects.entries@[j].0) == km;
                        assert(key_model(card_effects.entries@[j].0) != key_model(card_effects.entries@[i as int].0));
                    }
                }
            }
            let ghost before = self@;
            self.insert(k.clone(), CardEffects::new(merged));
            proof {
                let d2 = done.insert(km, card_effects@[km]);
                assert forall|k2: KeyModel| #[trigger] effects_of(self@, k2) == effects_of(old(self)@, k2) + effects_of(d2, k2) by {
                    if k2 == km {
                        assert(effects_of(done, km) =~= Seq::empty());
                        assert(effects_of(old(self)@, km) + Seq::empty() =~= effects_of(old(self)@, km));
                        assert(effects_of(before, km) == effects_of(old(self)@, km) + effects_of(done, km));
                    } else {
                        assert(effects_of(before, k2) == effects_of(old(self)@, k2) + effects_of(done, k2));
                    }
                }
                assert(d2.dom() =~= Set::new(|k2: KeyModel| exists|j: int| 0 <= j < i + 1 && key_model(card_effects.entries@[j].0) == k2)) by {
                    assert forall|k2: KeyModel| d2.dom().contains(k2) implies exists|j: int| 0 <= j < i + 1 && key_model(card_effects.entries@[j].0) == k2 by {
                        if k2 != km {
                            assert(done.dom().contains(k2));
                        }
                    }
                }
                assert(self@.dom() =~= old(self)@.dom() + d2.dom());
                done = d2;
            }
            i = i + 1;
        }
        proof {
            assert(done =~= card_effects@) by {
                assert forall|k: KeyModel| card_effects@.dom().contains(k) implies done.dom().contains(k) by {
                    let j = choose|j: int| 0 <= j < card_effects.entries@.len() && key_model(card_effects.entries@[j].0) == k;
                }
            }
        }
    }

    /// Removes from each selector of `card_effects` the effects it lists; a
    /// selector left without effects leaves the table.
    pub fn remove_card_effects(&mut self, card_effects: &CardEffectsStruct)
        requires
            old(self).wf(),
            card_effects.wf(),
        ensures
            final(self).wf(),
            forall|k: KeyModel|
                #[trigger] effects_of(final(self)@, k) == if card_effects@.dom().contains(k) {
                    keep_absent(effects_of(old(self)@, k), card_effects@[k])
                } else {
                    effects_of(old(self)@, k)
                },
            forall|k: KeyModel|
                #[trigger] final(self)@.dom().contains(k) ==> old(self)@.dom().contains(k) && final(self)@[k].len() > 0
                    || !card_effects@.dom().contains(k),
    {
        let ghost mut done: Set<KeyModel> = Set::empty();
        let mut i: usize = 0;
        while i < card_effects.entries.len()
            invariant
                self.wf(),
                card_effects.wf(),
                i <= card_effects.entries@.len(),
                done =~= Set::new(|k: KeyModel| exists|j: int| 0 <= j < i && key_model(card_effects.entries@[j].0) == k),
                forall|k: KeyModel|
                    #[trigger] effects_of(self@, k) == if done.contains(k) {
                        keep_absent(effects_of(old(self)@, k), card_effects@[k])
                    } else {
                        effects_of(old(self)@, k)
                    },
                forall|k: KeyModel|
                    #[trigger] self@.dom().contains(k) ==> old(self)@.dom().contains(k) && self@[k].len() > 0 || !done.contains(k),
            decreases card_effects.entries@.len() - i,
        {
            let k = &card_effects.entries[i].0;
            let bad = card_effects.entries[i].1.effects();
            let ghost km = key_model(*k);
            let ghost badm = effects_model(bad@);
            proof {
                assert(card_effects@[km] == badm);
                assert(!done.contains(km)) by {
                    if done.contains(km) {
                        let j = choose|j: int| 0 <= j < i && key_model(card_effects.entries@[j].0) == km;
                        assert(key_model(card_effects.entries@[j].0) != key_model(card_effects.entries@[i as int].0));
                    }
                }
            }
            let ghost before = self@;
            proof {
                assert(effects_of(before, km) == effects_of(old(self)@, km));
            }
            match self.get(k) {
                Some(e) => {
                    let kept = keep_absent_exec(e.effects(), bad);
                    if kept.len() == 0 {
                        self.remove(k);
                        proof {
                            assert(effects_model(kept@).len() == 0);
                            assert(effects_of(self@, km) =~= keep_absent(effects_of(old(self)@, km), badm));
                        }
                    } else {
                        self.insert(k.clone(), CardEffects::new(kept));
                        proof {
                            assert(effects_of(self@, km) == keep_absent(effects_of(old(self)@, km), badm));
                        }
                    }
                },
                None => {
                    proof {
                        assert(effects_of(old(self)@, km) =~= Seq::empty());
                        assert(keep_absent(Seq::empty(), badm) == Seq::<(EffectModel, Option<(Seq<char>, Option<Seq<char>>)>)>::empty());
                    }
                },
            }
            proof {
                let d2 = done.insert(km);
                assert(effects_of(self@, km) == keep_absent(effects_of(old(self)@, km), badm));
                assert forall|k2: KeyModel|
                    #[trigger] effects_of(self@, k2) == if d2.contains(k2) {
                        keep_absent(effects_of(old(self)@, k2), card_effects@[k2])
                    } else {
                        effects_of(old(self)@, k2)
                    } by {
                    if k2 != km {
                        assert(effects_of(before, k2) == if done.contains(k2) {
                            keep_absent(effects_of(old(self)@, k2), card_effects@[k2])
                        } else {
                            effects_of(old(self)@, k2)
                        });
                        assert(effects_of(self@, k2) == effects_of(before, k2));
                    }
                }
                assert(d2 =~= Set::new(|k2: KeyModel| exists|j: int| 0 <= j < i + 1 && key_model(card_effects.entries@[j].0) == k2)) by {
                    assert forall|k2: KeyModel| d2.contains(k2) implies exists|j: int| 0 <= j < i + 1 && key_model(card_effects.entries@[j].0) == k2 by {
                        if k2 != km {
                            assert(done.contains(k2));
                        }
                    }
                }
                done = d2;
            }
            i = i + 1;
        }
        proof {
            assert(done =~= card_effects@.dom()) by {
                assert forall|k: KeyModel| card_effects@.dom().contains(k) implies done.contains(k) by {
                    let j = choose|j: int| 0 <= j < card_effects.entries@.len() && key_model(card_effects.entries@[j].0) == k;
                }
                assert forall|k: KeyModel| done.contains(k) implies card_effects@.dom().contains(k) by {
                    let j = choose|j: int| 0 <= j < card_effects.entries@.len() && key_model(card_effects.entries@[j].0) == k;
                }
            }
        }
    }

    /// Tags every effect as coming from the rule `rule_name`, keeping any
    /// error message it had.
    pub fn add_rule_name(&mut self, rule_name: &str)
        requires
            old(self).wf(),
        ensures
            final(self).wf(),
            final(self)@.dom() == old(self)@.dom(),
            forall|k: KeyModel|
                #[trigger] final(self)@.dom().contains(k) ==> final(self)@[k] == old(self)@[k].map_values(
                    |m: (EffectModel, Option<(Seq<char>, Option<Seq<char>>)>)| tagged(m, rule_name@),
                ),
    {
        let mut out = CardEffectsStruct::new();
        let mut i: usize = 0;
        while i < self.entries.len()
            invariant
                self.wf(),
                out.wf(),
                i <= self.entries@.len(),
                out@.dom() =~= Set::new(|k: KeyModel| exists|j: int| 0 <= j < i && key_model(self.entries@[j].0) == k),
                forall|k: KeyModel|
                    #[trigger] out@.dom().contains(k) ==> out@[k] == self@[k].map_values(
                        |m: (EffectModel, Option<(Seq<char>, Option<Seq<char>>)>)| tagged(m, rule_name@),
                    ),
            decreases self.entries@.len() - i,
        {
            let tagged_effects = tag_effects(self.entries[i].1.effects(), rule_name);
            let ghost km = key_model(self.entries@[i as int].0);
            let ghost before = out@;
            out.insert(self.entries[i].0.clone(), CardEffects::new(tagged_effects));
            proof {
                assert(out@.dom() =~= Set::new(|k: KeyModel| exists|j: int| 0 <= j < i + 1 && key_model(self.entries@[j].0) == k)) by {
                    assert forall|k2: KeyModel| out@.dom().contains(k2) implies exists|j: int| 0 <= j < i + 1 && key_model(self.entries@[j].0) == k2 by {
                        if k2 != km {
                            assert(before.dom().contains(k2));
                        }
                    }
                }
            }
            i = i + 1;
        }
        proof {
            assert(out@.dom() =~= self@.dom()) by {
                assert forall|k: KeyModel| self@.dom().contains(k) implies out@.dom().contains(k) by {
                    let j = choose|j: int| 0 <= j < self.entries@.len() && key_model(self.entries@[j].0) == k;
                }
                assert forall|k: KeyModel| out@.dom().contains(k) implies self@.dom().contains(k) by {
                    let j = choose|j: int| 0 <= j < self.entries@.len() && key_model(self.entries@[j].0) == k;
                }
            }
        }
        *self = out;
    }

    /// A copy of the table.
    pub fn duplicate(&self) -> (r: Self)
        requires
            self.wf(),
        ensures
            r.wf(),
            r@ == self@,
    {
        let mut out = CardEffectsStruct::new();
        let mut i: usize = 0;
        while i < self.entries.len()
            invariant
                self.wf(),
                out.wf(),
                i <= self.entries@.len(),
                out@.dom() =~= Set::new(|k: KeyModel| exists|j: int| 0 <= j < i && key_model(self.entries@[j].0) == k),
                forall|k: KeyModel| #[trigger] out@.dom().contains(k) ==> out@[k] == self@[k],
            decreases self.entries@.len() - i,
        {
            let ghost km = key_model(self.entries@[i as int].0);
            let ghost before = out@;
            out.insert(self.entries[i].0.clone(), self.entries[i].1.clone());
            proof {
                assert(out@.dom() =~= Set::new(|k: KeyModel| exists|j: int| 0 <= j < i + 1 && key_model(self.entries@[j].0) == k)) by {
                    assert forall|k2: KeyModel| out@.dom().contains(k2) implies exists|j: int| 0 <= j < i + 1 && key_model(self.entries@[j].0) == k2 by {
                        if k2 != km {
                            assert(before.dom().contains(k2));
                        }
                    }
                }
            }
            i = i + 1;
        }
        proof {
            assert(out@ =~= self@) by {
                assert forall|k: KeyModel| self@.dom().contains(k) implies out@.dom().contains(k) by {
                    let j = choose|j: int| 0 <= j < self.entries@.len() && key_model(self.entries@[j].0) == k;
                }
                assert forall|k: KeyModel| out@.dom().contains(k) implies self@.dom().contains(k) by {
                    let j = choose|j: int| 0 <= j < self.entries@.len() && key_model(self.entries@[j].0) == k;
                }
            }
        }
        out
    }

    /// Every effect that applies to `card`: those configured for its value
    /// alone, then for its type alone, then for both; all three are kept.
    pub fn card_effects(&self, card: &Card) -> (r: Vec<SingleCardEffect>)
        requires
            self.wf(),
        ensures
            r@.map_values(|e: SingleCardEffect| effect_model(e)) == effect_parts(card_effects_model(self@, *card)),
    {
        let mut r: Vec<SingleCardEffect> = Vec::new();
        let k1 = CardEffectsKey::new(None, Some(*card.get_value()));
        let k2 = CardEffectsKey::new(Some(card.get_sign().clone()), None);
        let k3 = CardEffectsKey::new(Some(card.get_sign().clone()), Some(*card.get_value()));
        self.push_effects_of(&k1, &mut r);
        self.push_effects_of(&k2, &mut r);
        self.push_effects_of(&k3, &mut r);
        proof {
            let t = self@;
            let ks = card_keys(*card);
            assert(key_model(k1) == ks[0]);
            assert(key_model(k2) == ks[1]);
            assert(key_model(k3) == ks[2]);
            assert(effect_parts(card_effects_model(t, *card)) =~= effect_parts(effects_of(t, ks[0])) + effect_parts(
                effects_of(t, ks[1]),
            ) + effect_parts(effects_of(t, ks[2])));
        }
        r
    }

    /// Appends to `out` the effects configured for `k`.
    fn push_effects_of(&self, k: &CardEffectsKey, out: &mut Vec<SingleCardEffect>)
        requires
            self.wf(),
        ensures
            final(out)@.map_values(|e: SingleCardEffect| effect_model(e)) == old(out)@.map_values(
                |e: SingleCardEffect| effect_model(e),
            ) + effect_parts(effects_of(self@, key_model(*k))),
    {
        match self.get(k) {
            Some(e) => {
                let v = e.effects();
                let ghost start = out@.map_values(|e: SingleCardEffect| effect_model(e));
                let ghost m = effect_parts(effects_of(self@, key_model(*k)));
                let mut i: usize = 0;
                while i < v.len()
                    invariant
                        i <= v@.len(),
                        m == effect_parts(effects_model(v@)),
                        out@.map_values(|e: SingleCardEffect| effect_model(e)) == start + m.subrange(0, i as int),
                    decreases v@.len() - i,
                {
                    let ghost prev = out@;
                    out.push(v[i].effect.clone());
                    i = i + 1;
                    assert(out@.map_values(|e: SingleCardEffect| effect_model(e)) =~= prev.map_values(
                        |e: SingleCardEffect| effect_model(e),
                    ).push(m[i - 1]));
                    assert(m.subrange(0, i as int) =~= m.subrange(0, i - 1 as int).push(m[i - 1]));
                }
                assert(m.subrange(0, v@.len() as int) =~= m);
            },
            None => {
                assert(effect_parts(effects_of(self@, key_model(*k))) =~= Seq::empty());
                assert(out@.map_values(|e: SingleCardEffect| effect_model(e)) + Seq::empty() =~= out@.map_values(
                    |e: SingleCardEffect| effect_model(e),
                ));
            },
        }
    }
}

/// The configuration the core consumes: where rule modules live, and the
/// table of card effects.
pub struct Config {
    pub dirname: String,
    pub cards_effects: CardEffectsStruct,
}

/// The phrases of `v` that hold at least one word.
pub open spec fn non_empty_phrases(v: Seq<Seq<Seq<char>>>) -> Seq<Seq<Seq<char>>>
    decreases v.len(),
{
    if v.len() == 0 {
        v
    } else if v.last().len() == 0 {
        non_empty_phrases(v.drop_last())
    } else {
        non_empty_phrases(v.drop_last()).push(v.last())
    }
}

/// An effect once phrases without words are dropped.
pub open spec fn sanitized(m: EffectModel) -> EffectModel {
    match m {
        EffectModel::Action(ActionModel::Say(v)) => EffectModel::Action(ActionModel::Say(non_empty_phrases(v))),
        _ => m,
    }
}

impl SingleCardEffect {
    /// Drops the phrases that hold no word.
    pub fn sanitize(&mut self)
        ensures
            effect_model(*final(self)) == sanitized(effect_model(*old(self))),
    {
        match self {
            SingleCardEffect::CardPlayerAction(CardPlayerAction::Say(v)) => {
                let ghost m = words_list_model(v@);
                let mut kept: Vec<OneOrMoreWords> = Vec::new();
                let mut i: usize = 0;
                while i < v.len()
                    invariant
                        i <= v@.len(),
                        m == words_list_model(v@),
                        words_list_model(kept@) == non_empty_phrases(m.subrange(0, i as int)),
                    decreases v@.len() - i,
                {
                    assert(m.subrange(0, i + 1 as int).drop_last() =~= m.subrange(0, i as int));
                    assert(m.subrange(0, i + 1 as int).last() == words_model(v@[i as int]));
                    if v[i].0.len() > 0 {
                        let ghost prev = kept@;
                        let w = v[i].clone();
                        kept.push(w);
                        assert(words_list_model(kept@) =~= words_list_model(prev).push(words_model(w)));
                    }
                    i = i + 1;
                }
                assert(m.subrange(0, v@.len() as int) =~= m);
                *v = kept;
            },
            _ => {},
        }
    }
}

/// If `e` requires a physical action, `r` names it.
pub open spec fn covered(e: (EffectModel, Option<(Seq<char>, Option<Seq<char>>)>), r: Seq<String>) -> bool {
    match e.0 {
        EffectModel::Action(ActionModel::Physical(name)) => exists|a: int| 0 <= a < r.len() && (#[trigger] r[a])@ == name,
        _ => true,
    }
}

/// Some selector of `t` requires the physical action `name`.
pub open spec fn named_in_table(t: TableModel, name: Seq<char>) -> bool {
    exists|k: KeyModel| t.dom().contains(k) && physical_in(t[k], name)
}

/// Physical action names in a list of effects.
pub open spec fn physical_in(m: EffectsModel, name: Seq<char>) -> bool {
    exists|j: int| 0 <= j < m.len() && (#[trigger] m[j]).0 == EffectModel::Action(ActionModel::Physical(name))
}

impl Config {
    /// Every physical action some card requires, each once.
    pub fn get_all_physical_actions(&self) -> (r: Vec<String>)
        requires
            self.cards_effects.wf(),
        ensures
            forall|i: int, j: int| 0 <= i < j < r@.len() ==> (#[trigger] r@[i])@ != (#[trigger] r@[j])@,
            forall|i: int| 0 <= i < r@.len() ==> named_in_table(self.cards_effects@, (#[trigger] r@[i])@),
            forall|k: KeyModel, name: Seq<char>|
                self.cards_effects@.dom().contains(k) && #[trigger] physical_in(self.cards_effects@[k], name) ==> exists|i: int|
                    0 <= i < r@.len() && r@[i]@ == name,
    {
        let es = &self.cards_effects.entries;
        let ghost t = self.cards_effects@;
        let mut r: Vec<String> = Vec::new();
        let mut i: usize = 0;
        while i < es.len()
            invariant
                self.cards_effects.wf(),
                es@ == self.cards_effects.entries@,
                t == self.cards_effects@,
                i <= es@.len(),
                forall|a: int, b: int| 0 <= a < b < r@.len() ==> (#[trigger] r@[a])@ != (#[trigger] r@[b])@,
                forall|a: int| 0 <= a < r@.len() ==> named_in_table(t, (#[trigger] r@[a])@),
                forall|q: int, name: Seq<char>|
                    0 <= q < i && #[trigger] physical_in(effects_model(es@[q].1.view()), name) ==> exists|a: int|
                        0 <= a < r@.len() && r@[a]@ == name,
            decreases es@.len() - i,
        {
            let effects = es[i].1.effects();
            let ghost km = key_model(es@[i as int].0);
            let ghost em = effects_model(effects@);
            assert(t.dom().contains(km) && t[km] == em);
            let mut j: usize = 0;
            while j < effects.len()
                invariant
                    self.cards_effects.wf(),
                    es@ == self.cards_effects.entries@,
                    t == self.cards_effects@,
                    i < es@.len(),
                    em == effects_model(effects@),
                    effects@ == es@[i as int].1.view(),
                    t.dom().contains(km) && t[km] == em,
                    j <= effects@.len(),
                    forall|a: int, b: int| 0 <= a < b < r@.len() ==> (#[trigger] r@[a])@ != (#[trigger] r@[b])@,
                    forall|a: int| 0 <= a < r@.len() ==> named_in_table(t, (#[trigger] r@[a])@),
                    forall|q: int, name: Seq<char>|
                        0 <= q < i && #[trigger] physical_in(effects_model(es@[q].1.view()), name) ==> exists|a: int|
                            0 <= a < r@.len() && r@[a]@ == name,
                    forall|p: int| 0 <= p < j ==> covered(#[trigger] em[p], r@),
                decreases effects@.len() - j,
            {
                match &effects[j].effect {
                    SingleCardEffect::CardPlayerAction(CardPlayerAction::Physical(p)) => {
                        assert(physical_in(em, p@)) by {
                            assert(em[j as int].0 == EffectModel::Action(ActionModel::Physical(p@)));
                        }
                        let mut seen = false;
                        let mut q: usize = 0;
                        while q < r.len()
                            invariant
                                q <= r@.len(),
                                seen ==> exists|a: int| 0 <= a < r@.len() && (#[trigger] r@[a])@ == p@,
                                !seen ==> forall|a: int| 0 <= a < q ==> (#[trigger] r@[a])@ != p@,
                            decreases r@.len() - q,
                        {
                            if r[q].eq(p) {
                                seen = true;
                            }
                            q = q + 1;
                        }
                        let ghost prev = r@;
                        if !seen {
                            r.push(p.clone());
                            assert(r@[r@.len() - 1]@ == p@);
                            assert forall|a: int| 0 <= a < r@.len() implies named_in_table(t, (#[trigger] r@[a])@) by {
                                if a == r@.len() - 1 {
                                    assert(t.dom().contains(km) && physical_in(t[km], r@[a]@));
                                } else {
                                    assert(r@[a] == prev[a]);
                                    assert(named_in_table(t, prev[a]@));
                                }
                            }
                            assert forall|q: int, name: Seq<char>|
                                0 <= q < i && #[trigger] physical_in(effects_model(es@[q].1.view()), name) implies exists|a: int|
                                    0 <= a < r@.len() && r@[a]@ == name by {
                                let a = choose|a: int| 0 <= a < prev.len() && prev[a]@ == name;
                                assert(r@[a] == prev[a]);
                            }
                            assert forall|x: int| 0 <= x < j implies covered(#[trigger] em[x], r@) by {
                                assert(covered(em[x], prev));
                                if let EffectModel::Action(ActionModel::Physical(nm)) = em[x].0 {
                                    let a = choose|a: int| 0 <= a < prev.len() && (#[trigger] prev[a])@ == nm;
                                    assert(r@[a] == prev[a]);
                                }
                            }
                        }
                        assert(covered(em[j as int], r@));
                    },
                    _ => {},
                }
                j = j + 1;
            }
            proof {
                assert forall|q: int, name: Seq<char>|
                    0 <= q < i + 1 && #[trigger] physical_in(effects_model(es@[q].1.view()), name) implies exists|a: int|
                        0 <= a < r@.len() && r@[a]@ == name by {
                    if q == i {
                        let p = choose|p: int| 0 <= p < em.len() && (#[trigger] em[p]).0 == EffectModel::Action(ActionModel::Physical(name));
                        assert(covered(em[p], r@));
                    }
                }
            }
            i = i + 1;
        }
        proof {
            assert forall|k: KeyModel, name: Seq<char>|
                t.dom().contains(k) && #[trigger] physical_in(t[k], name) implies exists|a: int|
                    0 <= a < r@.len() && r@[a]@ == name by {
                let q = choose|q: int| 0 <= q < es@.len() && key_model(es@[q].0) == k;
                assert(t[k] == effects_model(es@[q].1.view()));
                assert(physical_in(effects_model(es@[q].1.view()), name));
            }
        }
        r
    }

    /// Drops, in every effect, the phrases that hold no word.
    pub fn sanitize(&mut self)
        requires
            old(self).cards_effects.wf(),
        ensures
            final(self).cards_effects.wf(),
            final(self).cards_effects@.dom() == old(self).cards_effects@.dom(),
            forall|k: KeyModel|
                #[trigger] final(self).cards_effects@.dom().contains(k) ==> effect_parts(final(self).cards_effects@[k])
                    == effect_parts(old(self).cards_effects@[k]).map_values(|m: EffectModel| sanitized(m)),
    {
        let mut out = CardEffectsStruct::new();
        let mut i: usize = 0;
        while i < self.cards_effects.entries.len()
            invariant
                self.cards_effects.wf(),
                out.wf(),
                i <= self.cards_effects.entries@.len(),
                out@.dom() =~= Set::new(|k: KeyModel| exists|j: int| 0 <= j < i && key_model(self.cards_effects.entries@[j].0) == k),
                forall|k: KeyModel|
                    #[trigger] out@.dom().contains(k) ==> effect_parts(out@[k]) == effect_parts(self.cards_effects@[k]).map_values(
                        |m: EffectModel| sanitized(m),
                    ),
            decreases self.cards_effects.entries@.len() - i,
        {
            let src = self.cards_effects.entries[i].1.effects();
            let ghost target = effect_parts(effects_model(src@)).map_values(|m: EffectModel| sanitized(m));
            let mut v: Vec<CardEffectsInner> = Vec::new();
            let mut j: usize = 0;
            while j < src.len()
                invariant
                    j <= src@.len(),
                    target == effect_parts(effects_model(src@)).map_values(|m: EffectModel| sanitized(m)),
                    effect_parts(effects_model(v@)) == target.subrange(0, j as int),
                decreases src@.len() - j,
            {
                let mut e = src[j].clone();
                e.effect.sanitize();
                let ghost prev = v@;
                v.push(e);
                j = j + 1;
                assert(effect_parts(effects_model(v@)) =~= effect_parts(effects_model(prev)).push(effect_model(e.effect)));
                assert(target.subrange(0, j as int) =~= target.subrange(0, j - 1 as int).push(target[j - 1]));
            }
            assert(target.subrange(0, src@.len() as int) =~= target);
            let ghost km = key_model(self.cards_effects.entries@[i as int].0);
            let ghost before = out@;
            out.insert(self.cards_effects.entries[i].0.clone(), CardEffects::new(v));
            proof {
                assert(out@.dom() =~= Set::new(|k: KeyModel| exists|j: int| 0 <= j < i + 1 && key_model(self.cards_effects.entries@[j].0) == k)) by {
                    assert forall|k2: KeyModel| out@.dom().contains(k2) implies exists|j: int| 0 <= j < i + 1 && key_model(self.cards_effects.entries@[j].0) == k2 by {
                        if k2 != km {
                            assert(before.dom().contains(k2));
                        }
                    }
                }
            }
            i = i + 1;
        }
        proof {
            assert(out@.dom() =~= self.cards_effects@.dom()) by {
                assert forall|k: KeyModel| self.cards_effects@.dom().contains(k) implies out@.dom().contains(k) by {
                    let j = choose|j: int| 0 <= j < self.cards_effects.entries@.len() && key_model(self.cards_effects.entries@[j].0) == k;
                }
                assert forall|k: KeyModel| out@.dom().contains(k) implies self.cards_effects@.dom().contains(k) by {
                    let j = choose|j: int| 0 <= j < self.cards_effects.entries@.len() && key_model(self.cards_effects.entries@[j].0) == k;
                }
            }
        }
        self.cards_effects = out;
    }

    /// No directory and no card effect.
    pub fn new() -> (r: Self)
        ensures
            r.dirname@.len() == 0,
            r.cards_effects.wf(),
            r.cards_effects@ == Map::<KeyModel, EffectsModel>::empty(),
    {
        Config { dirname: String::new(), cards_effects: CardEffectsStruct::new() }
    }
}

/// Effects configured for a card's value alone and for its type alone both
/// apply: one lookup yields all of the value's effects, then all of the
/// type's, then those of the pair.
pub proof fn law_value_and_type_effects_combine(t: TableModel, card: Card)
    ensures
        ({
            let all = card_effects_model(t, card);
            let v = effects_of(t, card_keys(card)[0]);
            let ty = effects_of(t, card_keys(card)[1]);
            &&& all.subrange(0, v.len() as int) == v
            &&& all.subrange(v.len() as int, (v.len() + ty.len()) as int) == ty
            &&& forall|e| v.contains(e) || ty.contains(e) ==> #[trigger] all.contains(e)
        }),
{
    let all = card_effects_model(t, card);
    let v = effects_of(t, card_keys(card)[0]);
    let ty = effects_of(t, card_keys(card)[1]);
    assert(all.subrange(0, v.len() as int) =~= v);
    assert(all.subrange(v.len() as int, (v.len() + ty.len()) as int) =~= ty);
    assert forall|e| v.contains(e) || ty.contains(e) implies #[trigger] all.contains(e) by {
        if v.contains(e) {
            let i = choose|i: int| 0 <= i < v.len() && v[i] == e;
            assert(all[i] == e);
        } else {
            let i = choose|i: int| 0 <= i < ty.len() && ty[i] == e;
            assert(all[v.len() + i] == e);
        }
    }
}

/// The effects of `v` that `bad` does not list, in order.
fn keep_absent_exec(v: &Vec<CardEffectsInner>, bad: &Vec<CardEffectsInner>) -> (r: Vec<CardEffectsInner>)
    ensures
        effects_model(r@) == keep_absent(effects_model(v@), effects_model(bad@)),
{
    let ghost badm = effects_model(bad@);
    let mut r: Vec<CardEffectsInner> = Vec::new();
    let mut i: usize = 0;
    while i < v.len()
        invariant
            i <= v@.len(),
            badm == effects_model(bad@),
            effects_model(r@) == keep_absent(effects_model(v@.subrange(0, i as int)), badm),
        decreases v@.len() - i,
    {
        let mut found = false;
        let mut j: usize = 0;
        let ghost x = inner_model(v@[i as int]);
        while j < bad.len()
            invariant
                i < v@.len(),
                x == inner_model(v@[i as int]),
                j <= bad@.len(),
                badm == effects_model(bad@),
                badm.len() == bad@.len(),
                found == badm.subrange(0, j as int).contains(x),
            decreases bad@.len() - j,
        {
            let same = bad[j].eq(&v[i]);
            assert(badm.subrange(0, j + 1 as int) =~= badm.subrange(0, j as int).push(badm[j as int]));
            if same {
                found = true;
                assert(badm.subrange(0, j + 1 as int)[j as int] == x);
            } else {
                assert(badm.subrange(0, j + 1 as int).contains(x) ==> badm.subrange(0, j as int).contains(x)) by {
                    if badm.subrange(0, j + 1 as int).contains(x) {
                        let q = choose|q: int| 0 <= q < j + 1 && #[trigger] badm.subrange(0, j + 1 as int)[q] == x;
                        assert(q != j);
                        assert(badm.subrange(0, j as int)[q] == x);
                    }
                }
                assert(badm.subrange(0, j as int).contains(x) ==> badm.subrange(0, j + 1 as int).contains(x)) by {
                    if badm.subrange(0, j as int).contains(x) {
                        let q = choose|q: int| 0 <= q < j && #[trigger] badm.subrange(0, j as int)[q] == x;
                        assert(badm.subrange(0, j + 1 as int)[q] == x);
                    }
                }
            }
            j = j + 1;
        }
        assert(badm.subrange(0, bad@.len() as int) =~= badm);
        let ghost vs = effects_model(v@.subrange(0, i + 1 as int));
        assert(vs.drop_last() =~= effects_model(v@.subrange(0, i as int)));
        assert(vs.last() == inner_model(v@[i as int]));
        assert(found == badm.contains(vs.last()));
        if !found {
            let ghost prev = r@;
            let c = v[i].clone();
            r.push(c);
            assert(effects_model(r@) =~= effects_model(prev).push(inner_model(c)));
        }
        i = i + 1;
    }
    assert(v@.subrange(0, v@.len() as int) =~= v@);
    r
}

/// `v` with every effect tagged as coming from the rule `rule_name`.
fn tag_effects(v: &Vec<CardEffectsInner>, rule_name: &str) -> (r: Vec<CardEffectsInner>)
    ensures
        effects_model(r@) == effects_model(v@).map_values(
            |m: (EffectModel, Option<(Seq<char>, Option<Seq<char>>)>)| tagged(m, rule_name@),
        ),
{
    let ghost target = effects_model(v@).map_values(
        |m: (EffectModel, Option<(Seq<char>, Option<Seq<char>>)>)| tagged(m, rule_name@),
    );
    let mut r: Vec<CardEffectsInner> = Vec::new();
    let mut i: usize = 0;
    while i < v.len()
        invariant
            i <= v@.len(),
            target == effects_model(v@).map_values(
                |m: (EffectModel, Option<(Seq<char>, Option<Seq<char>>)>)| tagged(m, rule_name@),
            ),
            effects_model(r@) == target.subrange(0, i as int),
        decreases v@.len() - i,
    {
        let e = &v[i];
        let error_message = match &e.rule_effect {
            Some(x) => clone_opt_string(&x.error_message),
            None => None,
        };
        let rule = RuleCardsEffect { rule_name: rule_name.to_string(), error_message };
        let t = CardEffectsInner { effect: e.effect.clone(), rule_effect: Some(rule) };
        let ghost prev = r@;
        r.push(t);
        i = i + 1;
        assert(effects_model(r@) =~= effects_model(prev).push(inner_model(t)));
        assert(target.subrange(0, i as int) =~= target.subrange(0, i - 1 as int).push(target[i - 1]));
    }
    assert(target.subrange(0, v@.len() as int) =~= target);
    r
}

} // verus!
