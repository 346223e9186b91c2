use vstd::prelude::*;
use rand::seq::SliceRandom;
use crate::action::{IdString, MaoInteraction, PlayerAction};
use crate::automaton::{spelled, Automaton, NodeState};
use crate::card::{common_card, standard_deck, suit_at, Card, CommonCardType};
use crate::config::{
    card_effects_model, effect_model, effect_parts, effects_of, keep_absent, words_model, ActionModel,
    CardPlayerAction, Config, EffectModel, KeyModel, OneOrMoreWords, SingleCardEffect,
};
use crate::error::Error;
use crate::event::{changes_turn, event_player, recordable, CardEvent, MaoEvent, StackTarget};
use crate::player::Player;
use crate::rule::RuleData;
use crate::stack::{Stack, StackType};
use crate::turn::{takes_step, turn_after, turn_update, PlayerTurnChange, PlayerTurnUpdater};
use crate::verdict::{Disallow, WrongPlayerInteraction};
use vstd::string::StringExecFns;

verus! {

/// Outcome of the engine's default legality check for a played card.
#[derive(Debug)]
pub enum PlayerTurnResult {
    CanPlay,
    WrongTurn,
    CannotPlaceThisCard { card_to_play: Card, card_on_stack: Card },
    Other { desc: String },
}

/// What a rule asks a player to choose.
#[derive(Debug)]
pub enum RequestDataEnum {
    StackChoice { stack_types: Vec<StackType> },
    PlayerCardChoice {
        /// The player who chooses.
        player_chooser_index: usize,
        /// The players whose cards may be chosen; the chooser's own hand when none.
        among_other_players: Option<Vec<usize>>,
    },
}

/// A request for a choice.
#[derive(Debug)]
pub struct RequestData {
    pub data_type: RequestDataEnum,
}

impl RequestData {
    pub fn new(data_type: RequestDataEnum) -> (r: Self)
        ensures
            r.data_type == data_type,
    {
        RequestData { data_type }
    }
}

/// The answer to a request.
#[derive(Debug)]
pub enum RequestResponse {
    StackChoice(usize),
    PlayerCardChoice { player_chooser_index: usize, player_choosen_index: Option<usize>, card_index: usize },
}

/// The engine's default legality rule for a card played by `player`.
pub open spec fn play_allowed(turn: usize, stacks: Seq<Stack>, player: usize, card: Card, stack_index: Option<usize>) -> bool {
    player == turn && match stack_index {
        Some(i) if i < stacks.len() && stacks[i as int].cards_view().len() > 0 => {
            let top = stacks[i as int].cards_view().last();
            !(top.spec_value() != card.spec_value() && top.spec_color() != card.spec_color())
        },
        _ => true,
    }
}

/// What to do with a card play once the rule modules have answered.
#[derive(Debug)]
pub enum PlayStep {
    /// Modules raised violations: penalize each, then close the turn as a wrong one.
    Penalize,
    /// The default check refuses the card: close the turn as a wrong one,
    /// give exactly one penalty, advance the turn as after a penalty, and
    /// report `verdict`.
    Refuse { verdict: WrongPlayerInteraction },
    /// The play stands: close the turn, place the card, advance the turn.
    Accept,
}

/// The turn changes among `effs`, in order.
pub open spec fn turn_changes(effs: Seq<EffectModel>) -> Seq<PlayerTurnChange>
    decreases effs.len(),
{
    if effs.len() == 0 {
        Seq::empty()
    } else {
        match effs.last() {
            EffectModel::TurnChange(c) => turn_changes(effs.drop_last()).push(c),
            _ => turn_changes(effs.drop_last()),
        }
    }
}

/// (index, direction) after applying `changes` in order.
pub open spec fn apply_changes(index: int, direction: int, n: int, changes: Seq<PlayerTurnChange>) -> (int, int)
    decreases changes.len(),
{
    if changes.len() == 0 {
        (index, direction)
    } else {
        let p = apply_changes(index, direction, n, changes.drop_last());
        turn_after(p.0, p.1, n, changes.last())
    }
}

/// `w` occurs in `s` as a run of consecutive characters.
pub open spec fn is_substring(w: Seq<char>, s: Seq<char>) -> bool {
    exists|i: int| 0 <= i && i + w.len() <= s.len() && #[trigger] s.subrange(i, i + w.len()) == w
}

/// Relies on str::contains with a string pattern: true exactly when the
/// pattern occurs in the string.
#[verifier::external_body]
fn text_contains(s: &str, w: &str) -> (r: bool)
    ensures
        r == is_substring(w@, s@),
{
    s.contains(w)
}

/// Index of the last turn-changing entry of `log`, or -1.
pub open spec fn last_turn_change(log: Seq<MaoEvent>) -> int
    decreases log.len(),
{
    if log.len() == 0 {
        -1
    } else if changes_turn(log.last()) {
        log.len() - 1
    } else {
        last_turn_change(log.drop_last())
    }
}

/// The entries of `log` about player `p`, in order.
pub open spec fn by_player(log: Seq<MaoEvent>, p: usize) -> Seq<MaoEvent>
    decreases log.len(),
{
    if log.len() == 0 {
        log
    } else if event_player(log.last()) == Some(p) {
        by_player(log.drop_last(), p).push(log.last())
    } else {
        by_player(log.drop_last(), p)
    }
}

/// The log once a violating last action is discarded.
pub open spec fn after_wrong(log: Seq<MaoEvent>, wrong_interaction: bool) -> Seq<MaoEvent> {
    if wrong_interaction && log.len() > 0 {
        log.drop_last()
    } else {
        log
    }
}

/// Player `p` said something containing `word`.
pub open spec fn said_text(events: Seq<MaoEvent>, p: usize, word: Seq<char>) -> bool {
    exists|i: int|
        0 <= i < events.len() && match #[trigger] events[i] {
            MaoEvent::SayEvent { message, player_index } => player_index == p && is_substring(word, message@),
            _ => false,
        }
}

/// Player `p` said one of `words`.
pub open spec fn phrase_said(events: Seq<MaoEvent>, p: usize, words: Seq<Seq<char>>) -> bool {
    exists|w: int| 0 <= w < words.len() && said_text(events, p, #[trigger] words[w])
}

/// Player `p` performed the physical action `name`.
pub open spec fn action_done(events: Seq<MaoEvent>, p: usize, name: Seq<char>) -> bool {
    exists|i: int|
        0 <= i < events.len() && match #[trigger] events[i] {
            MaoEvent::PhysicalEvent { physical_name, player_index } => player_index == p && physical_name@ == name,
            _ => false,
        }
}

/// One entry per phrase of `phrases` that `p` did not say (true: a thing to say).
pub open spec fn phrase_failures(events: Seq<MaoEvent>, p: usize, phrases: Seq<Seq<Seq<char>>>) -> Seq<bool>
    decreases phrases.len(),
{
    if phrases.len() == 0 {
        Seq::empty()
    } else if phrase_said(events, p, phrases.last()) {
        phrase_failures(events, p, phrases.drop_last())
    } else {
        phrase_failures(events, p, phrases.drop_last()).push(true)
    }
}

/// One entry per unmet requirement of `effs` (true: a thing to say, false: a thing to do).
pub open spec fn effect_failures(events: Seq<MaoEvent>, p: usize, effs: Seq<EffectModel>) -> Seq<bool>
    decreases effs.len(),
{
    if effs.len() == 0 {
        Seq::empty()
    } else {
        let rest = effect_failures(events, p, effs.drop_last());
        match effs.last() {
            EffectModel::Action(ActionModel::Say(phrases)) => rest + phrase_failures(events, p, phrases),
            EffectModel::Action(ActionModel::Physical(name)) => if action_done(events, p, name) {
                rest
            } else {
                rest.push(false)
            },
            _ => rest,
        }
    }
}

/// The unmet requirements of every card played in `events`, checked
/// against the occurrences of `all`.
pub open spec fn turn_failures(t: crate::config::TableModel, events: Seq<MaoEvent>, all: Seq<MaoEvent>) -> Seq<bool>
    decreases events.len(),
{
    if events.len() == 0 {
        Seq::empty()
    } else {
        let rest = turn_failures(t, events.drop_last(), all);
        match events.last() {
            MaoEvent::PlayedCardEvent(ce) => rest + effect_failures(
                all,
                ce.player_index,
                effect_parts(card_effects_model(t, ce.played_card)),
            ),
            _ => rest,
        }
    }
}

/// Whether player `p` said something containing `word`.
fn said(events: &Vec<MaoEvent>, p: usize, word: &String) -> (r: bool)
    ensures
        r == said_text(events@, p, word@),
{
    let mut i: usize = 0;
    while i < events.len()
        invariant
            i <= events@.len(),
            forall|j: int| 0 <= j < i ==> !match #[trigger] events@[j] {
                MaoEvent::SayEvent { message, player_index } => player_index == p && is_substring(word@, message@),
                _ => false,
            },
        decreases events@.len() - i,
    {
        match &events[i] {
            MaoEvent::SayEvent { message, player_index } => {
                if *player_index == p && text_contains(message.as_str(), word.as_str()) {
                    return true;
                }
            },
            _ => {},
        }
        i = i + 1;
    }
    false
}

/// Whether player `p` said one of the words of `phrase`.
fn phrase_met(events: &Vec<MaoEvent>, p: usize, phrase: &OneOrMoreWords) -> (r: bool)
    ensures
        r == phrase_said(events@, p, words_model(*phrase)),
{
    let ghost ws = words_model(*phrase);
    let mut i: usize = 0;
    while i < phrase.0.len()
        invariant
            ws == words_model(*phrase),
            i <= phrase.0@.len(),
            forall|j: int| 0 <= j < i ==> !said_text(events@, p, #[trigger] ws[j]),
        decreases phrase.0@.len() - i,
    {
        if said(events, p, &phrase.0[i]) {
            assert(ws[i as int] == phrase.0@[i as int]@);
            return true;
        }
        i = i + 1;
    }
    false
}

/// Whether player `p` performed the physical action `name`.
fn did(events: &Vec<MaoEvent>, p: usize, name: &String) -> (r: bool)
    ensures
        r == action_done(events@, p, name@),
{
    let mut i: usize = 0;
    while i < events.len()
        invariant
            i <= events@.len(),
            forall|j: int| 0 <= j < i ==> !match #[trigger] events@[j] {
                MaoEvent::PhysicalEvent { physical_name, player_index } => player_index == p && physical_name@ == name@,
                _ => false,
            },
        decreases events@.len() - i,
    {
        match &events[i] {
            MaoEvent::PhysicalEvent { physical_name, player_index } => {
                if *player_index == p && physical_name.eq(name) {
                    return true;
                }
            },
            _ => {},
        }
        i = i + 1;
    }
    false
}

/// Appends to `out` one entry per unmet requirement of `effects` for player `p`.
fn push_effect_failures(events: &Vec<MaoEvent>, p: usize, effects: &Vec<SingleCardEffect>, out: &mut Vec<bool>)
    ensures
        final(out)@ == old(out)@ + effect_failures(
            events@,
            p,
            effects@.map_values(|e: SingleCardEffect| effect_model(e)),
        ),
{
    let ghost start = out@;
    let ghost em = effects@.map_values(|e: SingleCardEffect| effect_model(e));
    let mut i: usize = 0;
    while i < effects.len()
        invariant
            i <= effects@.len(),
            em == effects@.map_values(|e: SingleCardEffect| effect_model(e)),
            out@ == start + effect_failures(events@, p, em.subrange(0, i as int)),
        decreases effects@.len() - i,
    {
        assert(em.subrange(0, i + 1 as int).drop_last() =~= em.subrange(0, i as int));
        assert(em.subrange(0, i + 1 as int).last() == effect_model(effects@[i as int]));
        match &effects[i] {
            SingleCardEffect::CardPlayerAction(CardPlayerAction::Say(phrases)) => {
                let ghost pm = phrases@.map_values(|w: OneOrMoreWords| words_model(w));
                let ghost mid = out@;
                let mut k: usize = 0;
                while k < phrases.len()
                    invariant
                        k <= phrases@.len(),
                        pm == phrases@.map_values(|w: OneOrMoreWords| words_model(w)),
                        out@ == mid + phrase_failures(events@, p, pm.subrange(0, k as int)),
                    decreases phrases@.len() - k,
                {
                    assert(pm.subrange(0, k + 1 as int).drop_last() =~= pm.subrange(0, k as int));
                    assert(pm.subrange(0, k + 1 as int).last() == words_model(phrases@[k as int]));
                    if !phrase_met(events, p, &phrases[k]) {
                        out.push(true);
                        assert(out@ =~= mid + phrase_failures(events@, p, pm.subrange(0, k + 1 as int)));
                    }
                    k = k + 1;
                }
                assert(pm.subrange(0, phrases@.len() as int) =~= pm);
                assert(out@ =~= start + effect_failures(events@, p, em.subrange(0, i + 1 as int)));
            },
            SingleCardEffect::CardPlayerAction(CardPlayerAction::Physical(name)) => {
                if !did(events, p, name) {
                    out.push(false);
                    assert(out@ =~= start + effect_failures(events@, p, em.subrange(0, i + 1 as int)));
                }
            },
            _ => {},
        }
        i = i + 1;
    }
    assert(em.subrange(0, effects@.len() as int) =~= em);
}

/// Relies on rand::seq::SliceRandom::shuffle over rand::thread_rng: the
/// cards are reordered in place, none added or lost.
#[verifier::external_body]
fn shuffle_cards(cards: &mut Vec<Card>)
    ensures
        final(cards)@.to_multiset() == old(cards)@.to_multiset(),
{
    cards.shuffle(&mut rand::thread_rng());
}

/// What a stack keeps when the drawable stack is refilled: a playable stack
/// its top card, a discardable stack nothing, any other all its cards.
pub open spec fn collapsed(s: Stack) -> Seq<Card> {
    if s.types_view().contains(StackType::Playable) {
        if s.cards_view().len() > 0 {
            seq![s.cards_view().last()]
        } else {
            Seq::empty()
        }
    } else if s.types_view().contains(StackType::Discardable) {
        Seq::empty()
    } else {
        s.cards_view()
    }
}

/// What a stack gives up when the drawable stack is refilled.
pub open spec fn collected(s: Stack) -> Seq<Card> {
    if s.types_view().contains(StackType::Playable) {
        if s.cards_view().len() > 0 {
            s.cards_view().drop_last()
        } else {
            Seq::empty()
        }
    } else if s.types_view().contains(StackType::Discardable) {
        s.cards_view()
    } else {
        Seq::empty()
    }
}

/// Everything the stacks give up, stack after stack.
pub open spec fn all_collected(ss: Seq<Stack>) -> Seq<Card>
    decreases ss.len(),
{
    if ss.len() == 0 {
        Seq::empty()
    } else {
        all_collected(ss.drop_last()) + collected(ss.last())
    }
}

/// Number of cards on the table.
pub open spec fn card_count(ss: Seq<Stack>) -> nat
    decreases ss.len(),
{
    if ss.len() == 0 {
        0
    } else {
        card_count(ss.drop_last()) + ss.last().cards_view().len()
    }
}

proof fn lemma_card_count_update(ss: Seq<Stack>, i: int, s: Stack)
    requires
        0 <= i < ss.len(),
    ensures
        card_count(ss.update(i, s)) + ss[i].cards_view().len() == card_count(ss) + s.cards_view().len(),
    decreases ss.len(),
{
    let u = ss.update(i, s);
    if i < ss.len() - 1 {
        assert(u.drop_last() =~= ss.drop_last().update(i, s));
        lemma_card_count_update(ss.drop_last(), i, s);
    } else {
        assert(u.drop_last() =~= ss.drop_last());
    }
}

/// Number of cards in the drawable stacks.
pub open spec fn drawable_total(ss: Seq<Stack>) -> nat
    decreases ss.len(),
{
    if ss.len() == 0 {
        0
    } else {
        drawable_total(ss.drop_last()) + if ss.last().types_view().contains(StackType::Drawable) {
            ss.last().cards_view().len()
        } else {
            0
        }
    }
}

proof fn lemma_drawable_total_empty(ss: Seq<Stack>)
    requires
        forall|i: int|
            0 <= i < ss.len() && (#[trigger] ss[i]).types_view().contains(StackType::Drawable) ==> ss[i].cards_view().len() == 0,
    ensures
        drawable_total(ss) == 0,
    decreases ss.len(),
{
    if ss.len() > 0 {
        lemma_drawable_total_empty(ss.drop_last());
    }
}

proof fn lemma_drawable_total_update(ss: Seq<Stack>, i: int, s: Stack)
    requires
        0 <= i < ss.len(),
        s.types_view() == ss[i].types_view(),
        s.cards_view().len() <= ss[i].cards_view().len(),
    ensures
        drawable_total(ss.update(i, s)) + (if s.types_view().contains(StackType::Drawable) {
            ss[i].cards_view().len() - s.cards_view().len()
        } else {
            0int
        }) == drawable_total(ss),
    decreases ss.len(),
{
    let u = ss.update(i, s);
    if i < ss.len() - 1 {
        assert(u.drop_last() =~= ss.drop_last().update(i, s));
        lemma_drawable_total_update(ss.drop_last(), i, s);
    } else {
        assert(u.drop_last() =~= ss.drop_last());
    }
}

/// `after` is `before` once the stack at `target` was refilled.
pub open spec fn refilled_from(before: Seq<Stack>, after: Seq<Stack>, target: int) -> bool {
    forall|i: int|
        0 <= i < before.len() ==> (#[trigger] after[i]).cards_view() == if i == target {
            collapsed(before[i]) + all_collected(before)
        } else {
            collapsed(before[i])
        }
}

/// Every action path a rule module declares is well formed.
pub open spec fn rule_paths_wf(r: RuleData) -> bool {
    r.actions matches Some(ps) ==> forall|j: int| 0 <= j < ps@.len() ==> crate::automaton::action_path(#[trigger] ps@[j]@)
}

/// `s` without the entries equal to `v`, the others in order.
pub open spec fn without_value(s: Seq<usize>, v: usize) -> Seq<usize>
    decreases s.len(),
{
    if s.len() == 0 {
        s
    } else if s.last() == v {
        without_value(s.drop_last(), v)
    } else {
        without_value(s.drop_last(), v).push(s.last())
    }
}

/// Whether a stack carries any of `types`.
pub open spec fn has_any_type(s: Stack, types: Seq<StackType>) -> bool {
    exists|t: int| 0 <= t < types.len() && s.types_view().contains(#[trigger] types[t])
}

/// The card effects a rule module declares form a table.
pub open spec fn rule_data_wf(r: RuleData) -> bool {
    r.cards_effects matches Some(e) ==> e.wf()
}

/// The state of a game: stacks, players, turn, the per-turn log, the
/// automaton, the rule modules and the card-effect table.
pub struct MaoCore {
    available_rules: Vec<RuleData>,
    activated_rules: Vec<usize>,
    stacks: Vec<Stack>,
    players: Vec<Player>,
    player_turn: usize,
    previous_player_turn: Option<usize>,
    /// Direction of play: 1 or -1.
    turn: isize,
    player_events: Vec<MaoEvent>,
    can_play_on_new_stack: bool,
    automaton: Automaton,
    dealer: usize,
    config: Config,
    possible_actions: Vec<String>,
}

impl MaoCore {
    pub closed spec fn stacks_view(&self) -> Seq<Stack> {
        self.stacks@
    }

    pub closed spec fn players_view(&self) -> Seq<Player> {
        self.players@
    }

    pub closed spec fn turn_index(&self) -> usize {
        self.player_turn
    }

    pub closed spec fn previous_turn(&self) -> Option<usize> {
        self.previous_player_turn
    }

    pub closed spec fn direction(&self) -> isize {
        self.turn
    }

    pub closed spec fn log(&self) -> Seq<MaoEvent> {
        self.player_events@
    }

    pub closed spec fn automaton_view(&self) -> Automaton {
        self.automaton
    }

    pub closed spec fn effects_table(&self) -> crate::config::TableModel {
        self.config.cards_effects@
    }

    pub closed spec fn activated(&self) -> Seq<usize> {
        self.activated_rules@
    }

    pub closed spec fn available_count(&self) -> nat {
        self.available_rules@.len()
    }

    pub closed spec fn dealer_index(&self) -> usize {
        self.dealer
    }

    pub closed spec fn new_stack_allowed(&self) -> bool {
        self.can_play_on_new_stack
    }

    pub closed spec fn actions_view(&self) -> Seq<Seq<char>> {
        self.possible_actions@.map_values(|s: String| s@)
    }

    pub closed spec fn available(&self) -> Seq<RuleData> {
        self.available_rules@
    }

    pub closed spec fn wf(&self) -> bool {
        &&& self.automaton.wf()
        &&& self.config.cards_effects.wf()
        &&& (self.turn == 1 || self.turn == -1)
        &&& forall|i: int| 0 <= i < self.player_events@.len() ==> recordable(#[trigger] self.player_events@[i])
        &&& forall|i: int| 0 <= i < self.available_rules@.len() ==> rule_data_wf(#[trigger] self.available_rules@[i])
        &&& forall|i: int|
            0 <= i < self.activated_rules@.len() ==> #[trigger] self.activated_rules@[i] < self.available_rules@.len()
                && rule_paths_wf(self.available_rules@[self.activated_rules@[i] as int])
    }

    /// A game with the given rule modules (none active), stacks, players and
    /// automaton; player 1 starts, playing forward.
    pub fn new(available_libraries: Vec<RuleData>, stacks: Vec<Stack>, players: Vec<Player>, automaton: Automaton) -> (r: Self)
        requires
            automaton.wf(),
            forall|i: int| 0 <= i < available_libraries@.len() ==> rule_data_wf(#[trigger] available_libraries@[i]),
        ensures
            r.wf(),
            r.stacks_view() == stacks@,
            r.players_view() == players@,
            r.turn_index() == 1,
            r.direction() == 1,
            r.log().len() == 0,
            r.activated().len() == 0,
            r.automaton_view() == automaton,
            r.effects_table() == Map::<crate::config::KeyModel, crate::config::EffectsModel>::empty(),
    {
        MaoCore {
            available_rules: available_libraries,
            activated_rules: Vec::new(),
            stacks,
            players,
            player_turn: 1,
            turn: 1,
            player_events: Vec::new(),
            can_play_on_new_stack: false,
            automaton,
            dealer: 0,
            config: Config::new(),
            previous_player_turn: None,
            possible_actions: Vec::new(),
        }
    }

    /// Installs the configuration and the physical actions it names.
    pub fn set_config(&mut self, config: Config, possible_actions: Vec<String>)
        requires
            old(self).wf(),
            config.cards_effects.wf(),
        ensures
            final(self).wf(),
            final(self).effects_table() == config.cards_effects@,
            final(self).actions_view() == possible_actions@.map_values(|s: String| s@),
            final(self).stacks_view() == old(self).stacks_view(),
            final(self).players_view() == old(self).players_view(),
            final(self).turn_index() == old(self).turn_index(),
    {
        self.config = config;
        self.possible_actions = possible_actions;
    }

    pub fn activated_rules_indexes(&self) -> (r: &Vec<usize>)
        ensures
            r@ == self.activated(),
    {
        &self.activated_rules
    }

    pub fn automaton(&self) -> (r: &Automaton)
        ensures
            *r == self.automaton_view(),
    {
        &self.automaton
    }

    pub fn available_rules(&self) -> (r: &Vec<RuleData>)
        ensures
            r@.len() == self.available_count(),
    {
        &self.available_rules
    }

    pub fn dealer(&self) -> (r: usize)
        ensures
            r == self.dealer_index(),
    {
        self.dealer
    }

    pub fn set_dealer(&mut self, dealer: usize)
        ensures
            final(self).dealer_index() == dealer,
            final(self).stacks_view() == old(self).stacks_view(),
            final(self).players_view() == old(self).players_view(),
    {
        self.dealer = dealer;
    }

    pub fn get_can_play_on_new_stack(&self) -> (r: bool)
        ensures
            r == self.new_stack_allowed(),
    {
        self.can_play_on_new_stack
    }

    pub fn set_can_play_on_new_stack(&mut self, can_play_on_new_stack: bool)
        ensures
            final(self).new_stack_allowed() == can_play_on_new_stack,
            final(self).stacks_view() == old(self).stacks_view(),
            final(self).players_view() == old(self).players_view(),
    {
        self.can_play_on_new_stack = can_play_on_new_stack;
    }

    pub fn player_turn(&self) -> (r: usize)
        ensures
            r == self.turn_index(),
    {
        self.player_turn
    }

    pub fn players(&self) -> (r: &Vec<Player>)
        ensures
            r@ == self.players_view(),
    {
        &self.players
    }

    pub fn stacks(&self) -> (r: &Vec<Stack>)
        ensures
            r@ == self.stacks_view(),
    {
        &self.stacks
    }

    pub fn players_events(&self) -> (r: &Vec<MaoEvent>)
        ensures
            r@ == self.log(),
    {
        &self.player_events
    }

    pub fn possible_actions(&self) -> (r: &Vec<String>)
        ensures
            r@.map_values(|s: String| s@) == self.actions_view(),
    {
        &self.possible_actions
    }

    /// Number of cards in the hand of a player.
    pub fn get_player_hand_len(&self, player_index: usize) -> (r: Result<usize, Error>)
        ensures
            player_index < self.players_view().len() ==> r == Ok::<usize, Error>(
                self.players_view()[player_index as int].hand_view().len() as usize,
            ),
            player_index >= self.players_view().len() ==> (r matches Err(Error::InvalidPlayerIndex { player_index: i, len })
                && i == player_index && len == self.players_view().len()),
    {
        if player_index >= self.players.len() {
            return Err(Error::InvalidPlayerIndex { player_index, len: self.players.len() });
        }
        Ok(self.players[player_index].get_cards().len())
    }

    /// Applies a turn change to the current player index and direction.
    pub fn update_turn(&mut self, changes: PlayerTurnChange)
        requires
            old(self).wf(),
            takes_step(changes) ==> old(self).players_view().len() > 0,
        ensures
            final(self).wf(),
            (final(self).turn_index() as int, final(self).direction() as int) == turn_after(
                old(self).turn_index() as int,
                old(self).direction() as int,
                old(self).players_view().len() as int,
                changes,
            ),
            final(self).stacks_view() == old(self).stacks_view(),
            final(self).players_view() == old(self).players_view(),
            final(self).log() == old(self).log(),
            final(self).previous_turn() == old(self).previous_turn(),
            final(self).effects_table() == old(self).effects_table(),
            final(self).automaton_view() == old(self).automaton_view(),
            final(self).available() == old(self).available(),
            final(self).activated() == old(self).activated(),
            final(self).dealer_index() == old(self).dealer_index(),
            final(self).new_stack_allowed() == old(self).new_stack_allowed(),
            final(self).actions_view() == old(self).actions_view(),
    {
        let (index, direction) = turn_update(self.player_turn, self.turn, self.players.len(), changes);
        self.player_turn = index;
        self.turn = direction;
    }

    /// The engine's default legality check: the player must be the one whose
    /// turn it is, and a card placed on a non-empty stack must share the
    /// value or the colour of its top card.
    pub fn can_play(&self, player_index: usize, card: &Card, stack_index: Option<usize>) -> (r: PlayerTurnResult)
        ensures
            player_index != self.turn_index() ==> r is WrongTurn,
            player_index == self.turn_index() ==> match stack_index {
                Some(i) if i < self.stacks_view().len() && self.stacks_view()[i as int].cards_view().len() > 0 => {
                    let top = self.stacks_view()[i as int].cards_view().last();
                    if top.spec_value() != card.spec_value() && top.spec_color() != card.spec_color() {
                        r == PlayerTurnResult::CannotPlaceThisCard { card_to_play: *card, card_on_stack: top }
                    } else {
                        r is CanPlay
                    }
                },
                _ => r is CanPlay,
            },
    {
        if player_index != self.player_turn {
            return PlayerTurnResult::WrongTurn;
        }
        if let Some(i) = stack_index {
            if i < self.stacks.len() {
                if let Some(top) = self.stacks[i].top() {
                    let same_value = *card.get_value() == *top.get_value();
                    let c1 = card.get_color();
                    let c2 = top.get_color();
                    let same_color = c1.eq(&c2);
                    if !same_value && !same_color {
                        return PlayerTurnResult::CannotPlaceThisCard {
                            card_to_play: card.clone(),
                            card_on_stack: top.clone(),
                        };
                    }
                }
            }
        }
        PlayerTurnResult::CanPlay
    }

    /// Records an occurrence in the per-turn log when it is recordable.
    pub fn record_event(&mut self, event: &MaoEvent)
        requires
            old(self).wf(),
        ensures
            final(self).wf(),
            recordable(*event) ==> final(self).log() == old(self).log().push(*event),
            !recordable(*event) ==> final(self).log() == old(self).log(),
            final(self).stacks_view() == old(self).stacks_view(),
            final(self).players_view() == old(self).players_view(),
            final(self).turn_index() == old(self).turn_index(),
            final(self).effects_table() == old(self).effects_table(),
    {
        if event.is_recordable() {
            self.player_events.push(event.clone());
        }
    }

    /// Every effect that applies to `card`, by value, by type and by both.
    pub fn get_card_effects(&self, card: &Card) -> (r: Vec<SingleCardEffect>)
        requires
            self.wf(),
        ensures
            r@.map_values(|e: SingleCardEffect| effect_model(e)) == effect_parts(
                card_effects_model(self.effects_table(), *card),
            ),
    {
        self.config.cards_effects.card_effects(card)
    }
}

impl MaoCore {
    /// Moves the turn on after a turn-changing occurrence of `player_index`.
    /// A card played in turn applies the turn changes among the card's
    /// effects, in order, or the default advance by one if there are none;
    /// a card played in turn by a player who took a penalty, or a card drawn
    /// in turn, applies the default advance. Anything else changes nothing.
    pub fn next_player(&mut self, player_index: usize, event: &MaoEvent, took_penality: bool) -> (r: Result<(), Error>)
        requires
            old(self).wf(),
            old(self).players_view().len() > 0,
        ensures
            final(self).wf(),
            r is Ok,
            final(self).stacks_view() == old(self).stacks_view(),
            final(self).players_view() == old(self).players_view(),
            final(self).log() == old(self).log(),
            final(self).effects_table() == old(self).effects_table(),
            ({
                let n = old(self).players_view().len() as int;
                let t = old(self).turn_index() as int;
                let d = old(self).direction() as int;
                let step = PlayerTurnChange::Update(PlayerTurnUpdater::Update(1));
                let now = (final(self).turn_index() as int, final(self).direction() as int);
                match *event {
                    MaoEvent::PlayedCardEvent(ce) if player_index == old(self).turn_index() => if took_penality {
                        now == turn_after(t, d, n, step) && final(self).previous_turn() == old(self).previous_turn()
                    } else {
                        let cs = turn_changes(effect_parts(card_effects_model(old(self).effects_table(), ce.played_card)));
                        &&& final(self).previous_turn() == Some(old(self).turn_index())
                        &&& now == if cs.len() == 0 {
                            turn_after(t, d, n, step)
                        } else {
                            apply_changes(t, d, n, cs)
                        }
                    },
                    MaoEvent::DrawedCardEvent(_) if player_index == old(self).turn_index() => now == turn_after(t, d, n, step)
                        && final(self).previous_turn() == Some(old(self).turn_index()),
                    _ => now == (t, d) && final(self).previous_turn() == old(self).previous_turn(),
                }
            }),
    {
        match event {
            MaoEvent::PlayedCardEvent(ce) => {
                if player_index == self.player_turn {
                    if took_penality {
                        self.update_turn(PlayerTurnChange::Update(PlayerTurnUpdater::Update(1)));
                        return Ok(());
                    }
                    self.previous_player_turn = Some(self.player_turn);
                    let effects = self.get_card_effects(&ce.played_card);
                    let ghost em = effects@.map_values(|e: SingleCardEffect| effect_model(e));
                    let mut changes: Vec<PlayerTurnChange> = Vec::new();
                    let mut i: usize = 0;
                    while i < effects.len()
                        invariant
                            i <= effects@.len(),
                            em == effects@.map_values(|e: SingleCardEffect| effect_model(e)),
                            changes@ == turn_changes(em.subrange(0, i as int)),
                        decreases effects@.len() - i,
                    {
                        assert(em.subrange(0, i + 1 as int).drop_last() =~= em.subrange(0, i as int));
                        assert(em.subrange(0, i + 1 as int).last() == effect_model(effects@[i as int]));
                        match &effects[i] {
                            SingleCardEffect::PlayerTurnChange(c) => changes.push(*c),
                            _ => {},
                        }
                        i = i + 1;
                    }
                    assert(em.subrange(0, effects@.len() as int) =~= em);
                    if changes.len() == 0 {
                        self.update_turn(PlayerTurnChange::Update(PlayerTurnUpdater::Update(1)));
                    } else {
                        let ghost n = self.players@.len() as int;
                        let ghost t0 = self.player_turn as int;
                        let ghost d0 = self.turn as int;
                        let mut j: usize = 0;
                        while j < changes.len()
                            invariant
                                self.wf(),
                                self.players@.len() == n,
                                n > 0,
                                j <= changes@.len(),
                                (self.player_turn as int, self.turn as int) == apply_changes(t0, d0, n, changes@.subrange(0, j as int)),
                                self.stacks@ == old(self).stacks@,
                                self.players@ == old(self).players@,
                                self.player_events@ == old(self).player_events@,
                                self.config.cards_effects@ == old(self).config.cards_effects@,
                                self.previous_player_turn == Some(old(self).player_turn),
                            decreases changes@.len() - j,
                        {
                            assert(changes@.subrange(0, j + 1 as int).drop_last() =~= changes@.subrange(0, j as int));
                            self.update_turn(changes[j]);
                            j = j + 1;
                        }
                        assert(changes@.subrange(0, changes@.len() as int) =~= changes@);
                    }
                }
                Ok(())
            },
            MaoEvent::DrawedCardEvent(_) => {
                if player_index == self.player_turn {
                    self.previous_player_turn = Some(self.player_turn);
                    self.update_turn(PlayerTurnChange::Update(PlayerTurnUpdater::Update(1)));
                }
                Ok(())
            },
            _ => Ok(()),
        }
    }

    /// Activates the available rule module at `index`: its action paths join
    /// the automaton and its card effects join the table.
    pub fn activate_rule_by_index(&mut self, index: usize) -> (r: Result<(), Error>)
        requires
            old(self).wf(),
        ensures
            final(self).wf(),
            index >= old(self).available_count() ==> (r matches Err(Error::InvalidRuleIndex { rule_index, len })
                && rule_index == index && len == old(self).available_count()),
            index < old(self).available_count() && old(self).activated().contains(index) ==> (r matches Err(
                Error::RuleAlreadyActivated { .. },
            )),
            (r matches Err(Error::RuleAlreadyActivated { .. })) ==> old(self).activated().contains(index),
            (r matches Err(Error::InvalidRuleIndex { .. })) ==> index >= old(self).available_count(),
            index < old(self).available_count() && !old(self).activated().contains(index) ==> r is Ok || (r matches Err(
                Error::DuplicateLeaf,
            )) || (r matches Err(Error::InvalidActionPath)),
            (r matches Err(Error::DuplicateLeaf)) ==> (old(self).available()[index as int].actions matches Some(ps)
                && crate::automaton::duplicate_at(
                final(self).automaton_view().nodes(),
                final(self).automaton_view().root_id(),
                ps@,
            )),
            (r matches Err(Error::InvalidActionPath)) ==> (old(self).available()[index as int].actions matches Some(ps)
                && exists|i: int| 0 <= i < ps@.len() && !crate::automaton::action_path(#[trigger] ps@[i]@)),
            r is Ok ==> index < old(self).available_count() && !old(self).activated().contains(index)
                && final(self).activated() == old(self).activated().push(index),
            r is Ok ==> (old(self).available()[index as int].actions matches Some(ps) ==> forall|i: int|
                0 <= i < ps@.len() ==> spelled(
                    final(self).automaton_view().nodes(),
                    final(self).automaton_view().root_id(),
                    #[trigger] ps@[i]@,
                )),
            r is Ok ==> (old(self).available()[index as int].cards_effects matches Some(e) ==> forall|k: KeyModel|
                #[trigger] effects_of(final(self).effects_table(), k) == effects_of(old(self).effects_table(), k) + effects_of(e@, k)),
            r is Ok ==> (old(self).available()[index as int].cards_effects is None ==> final(self).effects_table()
                == old(self).effects_table()),
            r is Ok ==> (old(self).available()[index as int].actions matches Some(ps) ==> exists|ts: Seq<crate::automaton::NodeModel>|
                crate::automaton::added_in_turn(ts, old(self).automaton_view().root_id(), ps@)
                    && ts[0] == old(self).automaton_view().nodes() && ts.last() == final(self).automaton_view().nodes()),
            r is Ok ==> (old(self).available()[index as int].actions is None ==> final(self).automaton_view() == old(self).automaton_view()),
            r is Err ==> final(self).activated() == old(self).activated(),
            final(self).available_count() == old(self).available_count(),
            final(self).available() == old(self).available(),
    {
        if index >= self.available_rules.len() {
            return Err(Error::InvalidRuleIndex { rule_index: index, len: self.available_rules.len() });
        }
        let mut k: usize = 0;
        while k < self.activated_rules.len()
            invariant
                self.wf(),
                index < self.available_rules@.len(),
                self.activated_rules@ == old(self).activated_rules@,
                self.available_rules@ == old(self).available_rules@,
                k <= self.activated_rules@.len(),
                forall|j: int| 0 <= j < k ==> self.activated_rules@[j] != index,
            decreases self.activated_rules@.len() - k,
        {
            if self.activated_rules[k] == index {
                assert(self.activated_rules@[k as int] == index);
                return Err(Error::RuleAlreadyActivated { rule_name: self.available_rules[index].name.clone() });
            }
            k = k + 1;
        }
        match &self.available_rules[index].actions {
            Some(actions) => {
                match self.automaton.extend(actions) {
                    Ok(()) => {},
                    Err(e) => {
                        return Err(e);
                    },
                }
            },
            None => {},
        }
        match &self.available_rules[index].cards_effects {
            Some(effects) => {
                assert(rule_data_wf(self.available_rules@[index as int]));
                let copy = effects.duplicate();
                self.config.cards_effects.merge_card_effects(copy);
            },
            None => {},
        }
        proof {
            assert(rule_paths_wf(self.available_rules@[index as int]));
        }
        self.activated_rules.push(index);
        Ok(())
    }

    /// Deactivates the active rule module at `index`: its action paths leave
    /// the automaton and its card effects leave the table.
    pub fn deactivate_rule_by_index(&mut self, index: usize) -> (r: Result<(), Error>)
        requires
            old(self).wf(),
        ensures
            final(self).wf(),
            index >= old(self).available_count() ==> (r matches Err(Error::InvalidRuleIndex { rule_index, len })
                && rule_index == index && len == old(self).available_count()),
            index < old(self).available_count() && !old(self).activated().contains(index) ==> (r matches Err(
                Error::RuleNotActivated { .. },
            )),
            (r matches Err(Error::RuleNotActivated { .. })) ==> !old(self).activated().contains(index),
            index < old(self).available_count() && old(self).activated().contains(index) ==> r is Ok,
            r is Ok ==> crate::automaton::shrinks(old(self).automaton_view().nodes(), final(self).automaton_view().nodes()),
            r is Ok ==> ((old(self).available()[index as int].actions matches Some(ps) && forall|i: int|
                0 <= i < ps@.len() ==> crate::automaton::action_path(#[trigger] ps@[i]@)) ==> final(self).automaton_view().cursor_path().len() == 0),
            r is Ok ==> index < old(self).available_count() && old(self).activated().contains(index)
                && !final(self).activated().contains(index),
            r is Ok ==> final(self).activated() == without_value(old(self).activated(), index),
            r is Ok ==> (old(self).available()[index as int].actions is None ==> final(self).automaton_view() == old(self).automaton_view()),
            r is Ok ==> (old(self).available()[index as int].actions matches Some(ps) ==> exists|ts: Seq<crate::automaton::NodeModel>|
                ts.len() == ps@.len() + 1 && ts[0] == old(self).automaton_view().nodes() && ts.last() == final(self).automaton_view().nodes()
                    && forall|q: int| 0 <= q < ps@.len() ==> #[trigger] crate::automaton::path_removed(
                    ts[q],
                    ts[q + 1],
                    old(self).automaton_view().root_id(),
                    ps@[q]@,
                )),
            r is Ok ==> (old(self).available()[index as int].cards_effects matches Some(e) ==> forall|k: KeyModel|
                #[trigger] effects_of(final(self).effects_table(), k) == if e@.dom().contains(k) {
                    keep_absent(effects_of(old(self).effects_table(), k), e@[k])
                } else {
                    effects_of(old(self).effects_table(), k)
                }),
            r is Err ==> final(self).activated() == old(self).activated(),
            final(self).available_count() == old(self).available_count(),
            final(self).available() == old(self).available(),
    {
        if index >= self.available_rules.len() {
            return Err(Error::InvalidRuleIndex { rule_index: index, len: self.available_rules.len() });
        }
        let mut kept: Vec<usize> = Vec::new();
        let mut found = false;
        let mut k: usize = 0;
        while k < self.activated_rules.len()
            invariant
                self.wf(),
                index < self.available_rules@.len(),
                self.activated_rules@ == old(self).activated_rules@,
                self.available_rules@ == old(self).available_rules@,
                k <= self.activated_rules@.len(),
                found == exists|j: int| 0 <= j < k && self.activated_rules@[j] == index,
                forall|j: int| 0 <= j < kept@.len() ==> kept@[j] != index,
                kept@ == without_value(self.activated_rules@.subrange(0, k as int), index),
                forall|j: int| 0 <= j < kept@.len() ==> self.activated_rules@.contains(#[trigger] kept@[j]),
            decreases self.activated_rules@.len() - k,
        {
            assert(self.activated_rules@.subrange(0, k + 1 as int).drop_last() =~= self.activated_rules@.subrange(0, k as int));
            assert(self.activated_rules@.contains(self.activated_rules@[k as int]));
            if self.activated_rules[k] == index {
                found = true;
            } else {
                kept.push(self.activated_rules[k]);
            }
            k = k + 1;
        }
        assert(self.activated_rules@.subrange(0, self.activated_rules@.len() as int) =~= self.activated_rules@);
        if !found {
            return Err(Error::RuleNotActivated { rule_name: self.available_rules[index].name.clone() });
        }
        proof {
            let j = choose|j: int| 0 <= j < self.activated_rules@.len() && self.activated_rules@[j] == index;
            assert(rule_paths_wf(self.available_rules@[self.activated_rules@[j] as int]));
        }
        match &self.available_rules[index].actions {
            Some(actions) => {
                let res = self.automaton.remove_paths(actions);
                assert(res is Ok);
            },
            None => {},
        }
        match &self.available_rules[index].cards_effects {
            Some(effects) => {
                assert(rule_data_wf(self.available_rules@[index as int]));
                self.config.cards_effects.remove_card_effects(effects);
            },
            None => {},
        }
        self.activated_rules = kept;
        proof {
            assert forall|i: int| 0 <= i < self.activated_rules@.len() implies #[trigger] self.activated_rules@[i]
                < self.available_rules@.len() && rule_paths_wf(self.available_rules@[self.activated_rules@[i] as int]) by {
                let x = self.activated_rules@[i];
                assert(old(self).activated_rules@.contains(x));
                let j = choose|j: int| 0 <= j < old(self).activated_rules@.len() && old(self).activated_rules@[j] == x;
            }
        }
        Ok(())
    }

    /// Puts a card on top of a stack or into a player's hand.
    pub fn push_card_into_stack_target(&mut self, target_index: StackTarget, card: Card) -> (r: Result<(), Error>)
        requires
            old(self).wf(),
        ensures
            final(self).wf(),
            match target_index {
                StackTarget::Player(i) => if i < old(self).players_view().len() {
                    r is Ok && final(self).players_view()[i as int].hand_view() == old(self).players_view()[i as int].hand_view().push(card)
                } else {
                    r matches Err(Error::InvalidPlayerIndex { .. })
                },
                StackTarget::Stack(i) => if i < old(self).stacks_view().len() {
                    r is Ok && final(self).stacks_view()[i as int].cards_view() == old(self).stacks_view()[i as int].cards_view().push(card)
                } else {
                    r matches Err(Error::InvalidStackIndex { .. })
                },
            },
            final(self).turn_index() == old(self).turn_index(),
            final(self).players_view().len() == old(self).players_view().len(),
            final(self).stacks_view().len() == old(self).stacks_view().len(),
            target_index is Stack ==> final(self).players_view() == old(self).players_view(),
            target_index is Player ==> final(self).stacks_view() == old(self).stacks_view(),
            final(self).log() == old(self).log(),
            final(self).direction() == old(self).direction(),
            forall|j: int| 0 <= j < old(self).players_view().len() && target_index != StackTarget::Player(j as usize)
                ==> #[trigger] final(self).players_view()[j] == old(self).players_view()[j],
            forall|j: int| 0 <= j < old(self).stacks_view().len() && target_index != StackTarget::Stack(j as usize)
                ==> #[trigger] final(self).stacks_view()[j] == old(self).stacks_view()[j],
    {
        match target_index {
            StackTarget::Player(i) => {
                if i >= self.players.len() {
                    return Err(Error::InvalidPlayerIndex { player_index: i, len: self.players.len() });
                }
                let ghost before = self.players@;
                let mut p = self.players.remove(i);
                p.add_card(card);
                self.players.insert(i, p);
                assert(self.players@ =~= before.update(i as int, p));
                Ok(())
            },
            StackTarget::Stack(i) => {
                if i >= self.stacks.len() {
                    return Err(Error::InvalidStackIndex { stack_index: i, len: self.stacks.len() });
                }
                let ghost before = self.stacks@;
                let mut s = self.stacks.remove(i);
                s.add_card(card);
                self.stacks.insert(i, s);
                assert(self.stacks@ =~= before.update(i as int, s));
                Ok(())
            },
        }
    }

    /// Takes the card at `card_index` out of a stack or a player's hand.
    pub fn remove_card_from_stack_target(&mut self, target_index: StackTarget, card_index: usize) -> (r: Result<Card, Error>)
        requires
            old(self).wf(),
        ensures
            final(self).wf(),
            match target_index {
                StackTarget::Player(i) => if i < old(self).players_view().len() {
                    let h = old(self).players_view()[i as int].hand_view();
                    if card_index < h.len() {
                        r == Ok::<Card, Error>(h[card_index as int]) && final(self).players_view()[i as int].hand_view() == h.remove(card_index as int)
                    } else {
                        r matches Err(Error::InvalidCardIndex { .. })
                    }
                } else {
                    r matches Err(Error::InvalidPlayerIndex { .. })
                },
                StackTarget::Stack(i) => if i < old(self).stacks_view().len() {
                    let h = old(self).stacks_view()[i as int].cards_view();
                    if card_index < h.len() {
                        r == Ok::<Card, Error>(h[card_index as int]) && final(self).stacks_view()[i as int].cards_view() == h.remove(card_index as int)
                    } else {
                        r matches Err(Error::InvalidCardIndex { .. })
                    }
                } else {
                    r matches Err(Error::InvalidStackIndex { .. })
                },
            },
            final(self).turn_index() == old(self).turn_index(),
            final(self).players_view().len() == old(self).players_view().len(),
            final(self).stacks_view().len() == old(self).stacks_view().len(),
            target_index is Stack ==> final(self).players_view() == old(self).players_view(),
            target_index is Player ==> final(self).stacks_view() == old(self).stacks_view(),
    {
        match target_index {
            StackTarget::Player(i) => {
                if i >= self.players.len() {
                    return Err(Error::InvalidPlayerIndex { player_index: i, len: self.players.len() });
                }
                let ghost before = self.players@;
                let mut p = self.players.remove(i);
                let r = p.remove_card(card_index);
                self.players.insert(i, p);
                assert(self.players@ =~= before.update(i as int, p));
                r
            },
            StackTarget::Stack(i) => {
                if i >= self.stacks.len() {
                    return Err(Error::InvalidStackIndex { stack_index: i, len: self.stacks.len() });
                }
                let ghost before = self.stacks@;
                let mut s = self.stacks.remove(i);
                let r = s.remove_card(card_index);
                self.stacks.insert(i, s);
                assert(self.stacks@ =~= before.update(i as int, s));
                r
            },
        }
    }

    /// The top card of the stack at `stack_index`.
    pub fn get_top_card_playable_stack(&self, stack_index: usize) -> (r: Result<Option<&Card>, Error>)
        ensures
            stack_index < self.stacks_view().len() ==> (r matches Ok(t) && (self.stacks_view()[stack_index as int].cards_view().len() == 0 ==> t is None)
                && (self.stacks_view()[stack_index as int].cards_view().len() > 0 ==> t == Some(&self.stacks_view()[stack_index as int].cards_view().last()))),
            stack_index >= self.stacks_view().len() ==> (r matches Err(Error::InvalidStackIndex { stack_index: i, len })
                && i == stack_index && len == self.stacks_view().len()),
    {
        if stack_index >= self.stacks.len() {
            return Err(Error::InvalidStackIndex { stack_index, len: self.stacks.len() });
        }
        Ok(self.stacks[stack_index].top())
    }

    /// Adds a new playable stack holding `cards`.
    pub fn new_played_stack(&mut self, cards: Vec<Card>, visible: bool)
        requires
            old(self).wf(),
        ensures
            final(self).wf(),
            final(self).stacks_view().len() == old(self).stacks_view().len() + 1,
            forall|i: int| 0 <= i < old(self).stacks_view().len() ==> final(self).stacks_view()[i] == old(self).stacks_view()[i],
            final(self).stacks_view().last().cards_view() == cards@,
            final(self).stacks_view().last().types_view() == seq![StackType::Playable],
            final(self).stacks_view().last().is_visible() == visible,
            final(self).players_view() == old(self).players_view(),
            final(self).turn_index() == old(self).turn_index(),
    {
        let t = vec![StackType::Playable];
        assert(t@ =~= seq![StackType::Playable]);
        self.stacks.push(Stack::new(cards, visible, t));
    }

    /// The first player with an empty hand, if any.
    pub fn player_won(&self) -> (r: Option<usize>)
        ensures
            r is None ==> forall|i: int| 0 <= i < self.players_view().len() ==> #[trigger] self.players_view()[i].hand_view().len() > 0,
            r matches Some(i) ==> i < self.players_view().len() && self.players_view()[i as int].hand_view().len() == 0
                && forall|j: int| 0 <= j < i ==> #[trigger] self.players_view()[j].hand_view().len() > 0,
    {
        let mut i: usize = 0;
        while i < self.players.len()
            invariant
                i <= self.players@.len(),
                forall|j: int| 0 <= j < i ==> #[trigger] self.players@[j].hand_view().len() > 0,
            decreases self.players@.len() - i,
        {
            if self.players[i].get_cards().len() == 0 {
                return Some(i);
            }
            i = i + 1;
        }
        None
    }

    /// Positions of the stacks carrying any of `stack_types`, in order.
    pub fn get_specific_stacks(&self, stack_types: &Vec<StackType>) -> (r: Vec<usize>)
        ensures
            forall|j: int| 0 <= j < r@.len() ==> #[trigger] r@[j] < self.stacks_view().len(),
            forall|i: int|
                0 <= i < self.stacks_view().len() ==> (r@.contains(i as usize) <==> has_any_type(
                    #[trigger] self.stacks_view()[i],
                    stack_types@,
                )),
            forall|a: int, b: int| 0 <= a < b < r@.len() ==> r@[a] < r@[b],
    {
        let mut r: Vec<usize> = Vec::new();
        let mut i: usize = 0;
        while i < self.stacks.len()
            invariant
                i <= self.stacks@.len(),
                forall|j: int| 0 <= j < r@.len() ==> #[trigger] r@[j] < i,
                forall|k: int|
                    0 <= k < i ==> (r@.contains(k as usize) <==> has_any_type(#[trigger] self.stacks_view()[k], stack_types@)),
                forall|a: int, b: int| 0 <= a < b < r@.len() ==> r@[a] < r@[b],
            decreases self.stacks@.len() - i,
        {
            let mut any = false;
            let mut t: usize = 0;
            while t < stack_types.len()
                invariant
                    i < self.stacks@.len(),
                    t <= stack_types@.len(),
                    any == exists|q: int| 0 <= q < t && self.stacks@[i as int].types_view().contains(#[trigger] stack_types@[q]),
                decreases stack_types@.len() - t,
            {
                if self.stacks[i].has_type(stack_types[t]) {
                    any = true;
                }
                t = t + 1;
            }
            let ghost prev = r@;
            if any {
                r.push(i);
            }
            proof {
                assert(any == has_any_type(self.stacks_view()[i as int], stack_types@));
                assert forall|k: int|
                    0 <= k < i + 1 implies (r@.contains(k as usize) <==> has_any_type(#[trigger] self.stacks_view()[k], stack_types@)) by {
                    if k < i {
                        if r@.contains(k as usize) {
                            let w = choose|w: int| 0 <= w < r@.len() && r@[w] == k as usize;
                            if w < prev.len() {
                                assert(prev[w] == k as usize);
                            }
                        }
                        if prev.contains(k as usize) {
                            let w = choose|w: int| 0 <= w < prev.len() && prev[w] == k as usize;
                            assert(r@[w] == k as usize);
                        }
                    } else {
                        if any {
                            assert(r@[r@.len() - 1] == i);
                        } else {
                            if r@.contains(k as usize) {
                                let w = choose|w: int| 0 <= w < r@.len() && r@[w] == k as usize;
                                assert(prev[w] < i);
                            }
                        }
                    }
                }
            }
            i = i + 1;
        }
        r
    }

    /// Positions of the drawable stacks.
    pub fn get_drawable_stacks(&self) -> (r: Vec<usize>)
        ensures
            forall|i: int|
                0 <= i < self.stacks_view().len() ==> (r@.contains(i as usize) <==> self.stacks_view()[i].types_view().contains(StackType::Drawable)),
            forall|j: int| 0 <= j < r@.len() ==> #[trigger] r@[j] < self.stacks_view().len(),
            forall|a: int, b: int| 0 <= a < b < r@.len() ==> r@[a] < r@[b],
    {
        let t = vec![StackType::Drawable];
        let r = self.get_specific_stacks(&t);
        assert forall|i: int|
            0 <= i < self.stacks_view().len() implies (r@.contains(i as usize) <==> self.stacks_view()[i].types_view().contains(StackType::Drawable)) by {
            if self.stacks_view()[i].types_view().contains(StackType::Drawable) {
                assert(self.stacks_view()[i].types_view().contains(t@[0]));
            }
            assert(has_any_type(self.stacks_view()[i], t@) ==> self.stacks_view()[i].types_view().contains(t@[0]));
        }
        r
    }

    /// The first drawable stack that holds a card, if any.
    pub fn get_none_empty_drawable_stack(&self) -> (r: Option<usize>)
        ensures
            r matches Some(i) ==> i < self.stacks_view().len() && self.stacks_view()[i as int].types_view().contains(StackType::Drawable)
                && self.stacks_view()[i as int].cards_view().len() > 0
                && forall|j: int| 0 <= j < i && (#[trigger] self.stacks_view()[j]).types_view().contains(StackType::Drawable)
                    ==> self.stacks_view()[j].cards_view().len() == 0,
            r is None ==> forall|j: int| 0 <= j < self.stacks_view().len() && (#[trigger] self.stacks_view()[j]).types_view().contains(StackType::Drawable)
                ==> self.stacks_view()[j].cards_view().len() == 0,
    {
        let mut i: usize = 0;
        while i < self.stacks.len()
            invariant
                i <= self.stacks_view().len(),
                self.stacks@ == self.stacks_view(),
                forall|j: int| 0 <= j < i && (#[trigger] self.stacks_view()[j]).types_view().contains(StackType::Drawable)
                    ==> self.stacks_view()[j].cards_view().len() == 0,
            decreases self.stacks_view().len() - i,
        {
            if self.stacks[i].has_type(StackType::Drawable) && self.stacks[i].get_cards().len() > 0 {
                return Some(i);
            }
            i = i + 1;
        }
        None
    }

    /// Positions of the playable stacks.
    pub fn get_playable_stacks(&self) -> (r: Vec<usize>)
        ensures
            forall|i: int|
                0 <= i < self.stacks_view().len() ==> (r@.contains(i as usize) <==> self.stacks_view()[i].types_view().contains(StackType::Playable)),
            forall|j: int| 0 <= j < r@.len() ==> #[trigger] r@[j] < self.stacks_view().len(),
    {
        let t = vec![StackType::Playable];
        let r = self.get_specific_stacks(&t);
        assert forall|i: int|
            0 <= i < self.stacks_view().len() implies (r@.contains(i as usize) <==> self.stacks_view()[i].types_view().contains(StackType::Playable)) by {
            if self.stacks_view()[i].types_view().contains(StackType::Playable) {
                assert(self.stacks_view()[i].types_view().contains(t@[0]));
            }
            assert(has_any_type(self.stacks_view()[i], t@) ==> self.stacks_view()[i].types_view().contains(t@[0]));
        }
        r
    }
}

impl MaoCore {
    /// Closes the turn in the log. A violating last action is first
    /// discarded. The log up to its last play or draw is the closed turn and
    /// is returned; of the entries after it, those about the player whose
    /// turn is closing stay in the log and the others are dropped.
    pub fn close_turn(&mut self, wrong_interaction: bool) -> (r: Vec<MaoEvent>)
        requires
            old(self).wf(),
        ensures
            final(self).wf(),
            ({
                let l = after_wrong(old(self).log(), wrong_interaction);
                let b = last_turn_change(l);
                &&& r@ == l.subrange(0, b + 1)
                &&& final(self).log() == by_player(l.subrange(b + 1, l.len() as int), old(self).turn_index())
            }),
            final(self).stacks_view() == old(self).stacks_view(),
            final(self).players_view() == old(self).players_view(),
            final(self).turn_index() == old(self).turn_index(),
            final(self).effects_table() == old(self).effects_table(),
    {
        let mut log: Vec<MaoEvent> = Vec::new();
        std::mem::swap(&mut log, &mut self.player_events);
        if wrong_interaction && log.len() > 0 {
            let _ = log.pop();
        }
        let ghost l = log@;
        let mut b: usize = 0;
        let mut found = false;
        let mut i: usize = 0;
        while i < log.len()
            invariant
                log@ == l,
                i <= l.len(),
                last_turn_change(l.subrange(0, i as int)) == if found { b as int } else { -1 },
                found ==> b < i,
            decreases l.len() - i,
        {
            assert(l.subrange(0, i + 1 as int).drop_last() =~= l.subrange(0, i as int));
            if log[i].can_change_turn() {
                b = i;
                found = true;
            }
            i = i + 1;
        }
        assert(l.subrange(0, l.len() as int) =~= l);
        let split = if found { b + 1 } else { 0 };
        assert forall|j: int| 0 <= j < l.len() implies recordable(#[trigger] l[j]) by {
            assert(l[j] == old(self).player_events@[j]);
        }
        let mut rest = log.split_off(split);
        let ghost rest0 = rest@;
        let n = rest.len();
        let mut kept: Vec<MaoEvent> = Vec::new();
        let mut k: usize = 0;
        while rest.len() > 0
            invariant
                rest0 == l.subrange(split as int, l.len() as int),
                split <= l.len(),
                n == rest0.len(),
                k <= rest0.len(),
                rest@ == rest0.subrange(k as int, rest0.len() as int),
                kept@ == by_player(rest0.subrange(0, k as int), self.player_turn),
                forall|j: int| 0 <= j < kept@.len() ==> recordable(#[trigger] kept@[j]),
                forall|j: int| 0 <= j < l.len() ==> recordable(#[trigger] l[j]),
                self.player_turn == old(self).player_turn,
            decreases rest@.len(),
        {
            assert(k < rest0.len());
            let e = rest.remove(0);
            assert(e == rest0[k as int]);
            assert(rest0.subrange(0, k + 1 as int).drop_last() =~= rest0.subrange(0, k as int));
            assert(rest@ =~= rest0.subrange(k + 1 as int, rest0.len() as int));
            assert(recordable(l[split + k]));
            if e.player() == Some(self.player_turn) {
                kept.push(e);
            }
            k = k + 1;
        }
        assert(rest0.subrange(0, rest0.len() as int) =~= rest0);
        self.player_events = kept;
        log
    }

    /// The requirements that the cards played in `events` left unmet: for
    /// each phrase to say, a said message of the player that played the card
    /// must contain one of its words; for each physical action, the player
    /// must have performed it. Each unmet one is a forgotten-something
    /// violation of `closing_player`, the player whose turn is closing.
    pub fn turn_requirement_violations_for(&self, events: &Vec<MaoEvent>, closing_player: usize) -> (r: Vec<WrongPlayerInteraction>)
        requires
            self.wf(),
        ensures
            ({
                let f = turn_failures(self.effects_table(), events@, events@);
                &&& r@.len() == f.len()
                &&& forall|i: int|
                    0 <= i < f.len() ==> (#[trigger] r@[i] matches WrongPlayerInteraction::ForgotSomething(v) && v.msg is None
                        && v.rule is None && v.penality is None && (if f[i] {
                        v.forgot_type is Say
                    } else {
                        v.forgot_type is Do
                    }) && (closing_player < self.players_view().len() ==> v.player_pseudo@
                        == self.players_view()[closing_player as int].pseudo_view()))
            }),
    {
        let pseudo = if closing_player < self.players.len() {
            self.players[closing_player].get_pseudo()
        } else {
            String::new()
        };
        let mut failures: Vec<bool> = Vec::new();
        let mut i: usize = 0;
        while i < events.len()
            invariant
                self.wf(),
                i <= events@.len(),
                failures@ == turn_failures(self.effects_table(), events@.subrange(0, i as int), events@),
            decreases events@.len() - i,
        {
            assert(events@.subrange(0, i + 1 as int).drop_last() =~= events@.subrange(0, i as int));
            assert(events@.subrange(0, i + 1 as int).last() == events@[i as int]);
            match &events[i] {
                MaoEvent::PlayedCardEvent(ce) => {
                    let effects = self.get_card_effects(&ce.played_card);
                    push_effect_failures(events, ce.player_index, &effects, &mut failures);
                },
                _ => {},
            }
            i = i + 1;
        }
        assert(events@.subrange(0, events@.len() as int) =~= events@);
        let ghost f = failures@;
        let mut r: Vec<WrongPlayerInteraction> = Vec::new();
        let mut j: usize = 0;
        while j < failures.len()
            invariant
                f == failures@,
                j <= f.len(),
                r@.len() == j,
                closing_player < self.players@.len() ==> pseudo@ == self.players@[closing_player as int].pseudo_view(),
                forall|q: int|
                    0 <= q < j ==> (#[trigger] r@[q] matches WrongPlayerInteraction::ForgotSomething(v) && v.msg is None
                        && v.rule is None && v.penality is None && (if f[q] {
                        v.forgot_type is Say
                    } else {
                        v.forgot_type is Do
                    }) && v.player_pseudo@ == pseudo@),
            decreases f.len() - j,
        {
            let v = if failures[j] {
                WrongPlayerInteraction::forgot_saying(None, None, None, pseudo.clone())
            } else {
                WrongPlayerInteraction::forgot_doing(None, None, None, pseudo.clone())
            };
            r.push(v);
            j = j + 1;
        }
        r
    }

    /// The requirements that the cards played in `events` left unmet: for
    /// each phrase to say, a said message of the player that played the card
    /// must contain one of its words; for each physical action, the player
    /// must have performed it. Each unmet one is a forgotten-something
    /// violation of the player whose turn it is now.
    pub fn turn_requirement_violations(&self, events: &Vec<MaoEvent>) -> (r: Vec<WrongPlayerInteraction>)
        requires
            self.wf(),
        ensures
            ({
                let f = turn_failures(self.effects_table(), events@, events@);
                &&& r@.len() == f.len()
                &&& forall|i: int|
                    0 <= i < f.len() ==> (#[trigger] r@[i] matches WrongPlayerInteraction::ForgotSomething(v) && v.msg is None
                        && v.rule is None && v.penality is None && (if f[i] {
                        v.forgot_type is Say
                    } else {
                        v.forgot_type is Do
                    }) && (self.turn_index() < self.players_view().len() ==> v.player_pseudo@
                        == self.players_view()[self.turn_index() as int].pseudo_view()))
            }),
    {
        self.turn_requirement_violations_for(events, self.player_turn)
    }
}

impl MaoCore {
    /// Refills a drawable stack (the one at `stack_index`, or else the first
    /// drawable one) with every card of the playable stacks but their top
    /// cards and every card of the discardable stacks. The rule modules are
    /// asked beforehand, by the caller.
    pub fn refill_drawable_stacks(&mut self, stack_index: Option<usize>) -> (r: Result<(), Error>)
        requires
            old(self).wf(),
        ensures
            final(self).wf(),
            final(self).players_view() == old(self).players_view(),
            final(self).turn_index() == old(self).turn_index(),
            final(self).log() == old(self).log(),
            final(self).effects_table() == old(self).effects_table(),
            match stack_index {
                Some(i) => i >= old(self).stacks_view().len() ==> (r matches Err(Error::InvalidStackIndex { .. })),
                None => (forall|i: int| 0 <= i < old(self).stacks_view().len() ==> !(#[trigger] old(self).stacks_view()[i]).types_view().contains(StackType::Drawable))
                    ==> (r matches Err(Error::NoStackAvailable { .. })),
            },
            r is Err ==> final(self).stacks_view() == old(self).stacks_view(),
            stack_index is None && r is Err ==> (r matches Err(Error::NoStackAvailable { .. })),
            card_count(final(self).stacks_view()) == card_count(old(self).stacks_view()),
            (stack_index matches Some(i) && i < old(self).stacks_view().len()) || (stack_index is None && exists|i: int|
                0 <= i < old(self).stacks_view().len() && (#[trigger] old(self).stacks_view()[i]).types_view().contains(
                    StackType::Drawable,
                )) ==> r is Ok,
            r is Ok ==> final(self).stacks_view().len() == old(self).stacks_view().len() && exists|target: int|
                0 <= target < old(self).stacks_view().len() && (stack_index matches Some(i) ==> target == i)
                    && (stack_index is None ==> old(self).stacks_view()[target].types_view().contains(StackType::Drawable)
                    && forall|j: int| 0 <= j < target ==> !(#[trigger] old(self).stacks_view()[j]).types_view().contains(StackType::Drawable))
                    && refilled_from(old(self).stacks_view(), final(self).stacks_view(), target),
    {
        let target = match stack_index {
            Some(i) => {
                if i >= self.stacks.len() {
                    return Err(Error::InvalidStackIndex { stack_index: i, len: self.stacks.len() });
                }
                i
            },
            None => {
                let d = self.get_drawable_stacks();
                if d.len() == 0 {
                    proof {
                        assert forall|i: int| 0 <= i < self.stacks_view().len() implies !(#[trigger] self.stacks_view()[i]).types_view().contains(StackType::Drawable) by {
                            if self.stacks_view()[i].types_view().contains(StackType::Drawable) {
                                assert(d@.contains(i as usize));
                            }
                        }
                    }
                    return Err(Error::NoStackAvailable { stacks: vec![StackType::Drawable] });
                }
                assert(d@.contains(d@[0]));
                proof {
                    assert forall|j: int| 0 <= j < d@[0] implies !(#[trigger] self.stacks_view()[j]).types_view().contains(StackType::Drawable) by {
                        if self.stacks_view()[j].types_view().contains(StackType::Drawable) {
                            assert(d@.contains(j as usize));
                            let w = choose|w: int| 0 <= w < d@.len() && d@[w] == j as usize;
                            if w > 0 {
                                assert(d@[0] < d@[w]);
                            }
                        }
                    }
                }
                d[0]
            },
        };
        let ghost old_stacks = self.stacks@;
        let mut cards: Vec<Card> = Vec::new();
        let mut i: usize = 0;
        while i < self.stacks.len()
            invariant
                self.wf(),
                self.players@ == old(self).players@,
                self.player_turn == old(self).player_turn,
                self.player_events@ == old(self).player_events@,
                self.config.cards_effects@ == old(self).config.cards_effects@,
                old_stacks == old(self).stacks@,
                self.stacks@.len() == old_stacks.len(),
                i <= old_stacks.len(),
                target < old_stacks.len(),
                cards@ == all_collected(old_stacks.subrange(0, i as int)),
                card_count(self.stacks@) + cards@.len() == card_count(old_stacks),
                forall|k: int| 0 <= k < i ==> (#[trigger] self.stacks@[k]).cards_view() == collapsed(old_stacks[k]),
                forall|k: int| i <= k < old_stacks.len() ==> #[trigger] self.stacks@[k] == old_stacks[k],
            decreases old_stacks.len() - i,
        {
            assert(old_stacks.subrange(0, i + 1 as int).drop_last() =~= old_stacks.subrange(0, i as int));
            let ghost before = self.stacks@;
            let ghost moved0 = cards@.len();
            let mut s = self.stacks.remove(i);
            assert(s == old_stacks[i as int]);
            if s.has_type(StackType::Playable) {
                let top = s.draw_card();
                let rest = s.take_all();
                let mut rest = rest;
                cards.append(&mut rest);
                match top {
                    Some(c) => s.add_card(c),
                    None => {},
                }
                assert(s.cards_view() =~= collapsed(old_stacks[i as int]));
            } else if s.has_type(StackType::Discardable) {
                let mut all = s.take_all();
                cards.append(&mut all);
                assert(s.cards_view() =~= collapsed(old_stacks[i as int]));
            }
            self.stacks.insert(i, s);
            assert(self.stacks@ =~= before.update(i as int, s));
            proof {
                assert(cards@.len() + s.cards_view().len() == moved0 + old_stacks[i as int].cards_view().len());
                lemma_card_count_update(before, i as int, s);
            }
            i = i + 1;
        }
        assert(old_stacks.subrange(0, old_stacks.len() as int) =~= old_stacks);
        let ghost mid = self.stacks@;
        let ghost moved = cards@.len();
        let mut s = self.stacks.remove(target);
        assert(s == mid[target as int]);
        s.add_cards(cards);
        self.stacks.insert(target, s);
        assert(self.stacks@ =~= mid.update(target as int, s));
        proof {
            lemma_card_count_update(mid, target as int, s);
        }
        proof {
            let t = target as int;
            assert forall|k: int|
                0 <= k < old_stacks.len() implies (#[trigger] self.stacks@[k]).cards_view() == if k == t {
                    collapsed(old_stacks[k]) + all_collected(old_stacks)
                } else {
                    collapsed(old_stacks[k])
                } by {}
            assert(self.stacks_view() == self.stacks@);
            assert(refilled_from(old_stacks, self.stacks@, t));
        }
        Ok(())
    }

    /// Draws `nb` cards from the drawable stacks, taking from the top of
    /// each in turn; when every drawable stack is empty, refills once, and
    /// fails with `NotEnoughCards` if they are still empty.
    pub fn draw_multiple_cards_unchosen(&mut self, nb: usize) -> (r: Result<Vec<Card>, Error>)
        requires
            old(self).wf(),
        ensures
            final(self).wf(),
            final(self).players_view() == old(self).players_view(),
            final(self).turn_index() == old(self).turn_index(),
            final(self).log() == old(self).log(),
            final(self).effects_table() == old(self).effects_table(),
            r matches Ok(cards) ==> cards@.len() == nb && card_count(final(self).stacks_view()) + nb == card_count(old(self).stacks_view()),
            r is Err ==> (r matches Err(Error::NotEnoughCards)) || (r matches Err(Error::NoStackAvailable { .. })),
            nb == 0 ==> (r matches Ok(cards) && cards@.len() == 0),
            drawable_total(old(self).stacks_view()) >= nb ==> r is Ok && drawable_total(final(self).stacks_view()) + nb == drawable_total(old(self).stacks_view()),
    {
        let mut cards: Vec<Card> = Vec::new();
        let mut left: usize = nb;
        let mut refilled = false;
        while left != 0
            invariant
                self.wf(),
                self.players@ == old(self).players@,
                self.player_turn == old(self).player_turn,
                self.player_events@ == old(self).player_events@,
                self.config.cards_effects@ == old(self).config.cards_effects@,
                cards@.len() + left == nb,
                card_count(self.stacks@) + cards@.len() == card_count(old(self).stacks@),
                drawable_total(old(self).stacks@) >= nb ==> !refilled && drawable_total(self.stacks@) + cards@.len() == drawable_total(old(self).stacks@),
            decreases left, if refilled { 0int } else { 1int },
        {
            let d = self.get_drawable_stacks();
            let mut pick: Option<usize> = None;
            let mut k: usize = 0;
            while k < d.len()
                invariant
                    k <= d@.len(),
                    forall|j: int| 0 <= j < d@.len() ==> #[trigger] d@[j] < self.stacks@.len(),
                    pick matches Some(p) ==> p < self.stacks@.len() && self.stacks@[p as int].cards_view().len() > 0
                        && self.stacks@[p as int].types_view().contains(StackType::Drawable),
                    pick is None ==> forall|w: int| 0 <= w < k ==> self.stacks@[(#[trigger] d@[w]) as int].cards_view().len() == 0,
                    forall|q: int|
                        0 <= q < self.stacks_view().len() ==> (d@.contains(q as usize) <==> (#[trigger] self.stacks_view()[q]).types_view().contains(
                            StackType::Drawable,
                        )),
                decreases d@.len() - k,
            {
                if pick.is_none() && self.stacks[d[k]].get_cards().len() > 0 {
                    assert(d@.contains(d@[k as int]));
                    assert(self.stacks_view()[d@[k as int] as int] == self.stacks@[d@[k as int] as int]);
                    pick = Some(d[k]);
                }
                k = k + 1;
            }
            let si = match pick {
                Some(p) => p,
                None => {
                    let n_stacks = self.stacks.len();
                    proof {
                        assert forall|q: int|
                            0 <= q < self.stacks@.len() && (#[trigger] self.stacks@[q]).types_view().contains(StackType::Drawable)
                                implies self.stacks@[q].cards_view().len() == 0 by {
                            assert(self.stacks_view()[q] == self.stacks@[q]);
                            assert(d@.contains(q as usize));
                            let w = choose|w: int| 0 <= w < d@.len() && d@[w] == q as usize;
                            assert((d@[w]) as int == q);
                            assert(self.stacks@[(d@[w]) as int].cards_view().len() == 0);
                        }
                        lemma_drawable_total_empty(self.stacks@);
                    }
                    if refilled {
                        return Err(Error::NotEnoughCards);
                    }
                    match self.refill_drawable_stacks(None) {
                        Ok(()) => {},
                        Err(e) => {
                            return Err(e);
                        },
                    }
                    refilled = true;
                    continue;
                },
            };
            let ghost left0 = left;
            let ghost before = self.stacks@;
            let ghost total0 = drawable_total(before);
            let ghost cards0 = cards@.len();
            let mut s = self.stacks.remove(si);
            assert(s == before[si as int]);

            while left > 0 && s.get_cards().len() > 0
                invariant
                    cards@.len() + left == nb,
                    left <= left0,
                    left0 > 0,
                    s.cards_view().len() < before[si as int].cards_view().len() ==> left < left0,
                    s.cards_view().len() <= before[si as int].cards_view().len(),
                    before[si as int].cards_view().len() > 0,
                    s.cards_view().len() == before[si as int].cards_view().len() ==> left == left0,
                    s.types_view() == before[si as int].types_view(),
                    left0 - left == before[si as int].cards_view().len() - s.cards_view().len(),
                    cards@.len() + s.cards_view().len() == cards0 + before[si as int].cards_view().len(),
                decreases left,
            {
                let c = s.draw_card();
                match c {
                    Some(c) => cards.push(c),
                    None => {},
                }
                left = left - 1;
            }
            self.stacks.insert(si, s);
            proof {
                assert(self.stacks@ =~= before.update(si as int, s));
                lemma_drawable_total_update(before, si as int, s);
                lemma_card_count_update(before, si as int, s);
            }
            assert(left < left0);
        }
        Ok(cards)
    }

    /// The default penalty: the player draws one card.
    pub fn common_penality_to_player(&mut self, player_index: usize) -> (r: Result<(), Error>)
        requires
            old(self).wf(),
        ensures
            final(self).wf(),
            player_index >= old(self).players_view().len() ==> (r matches Err(Error::InvalidPlayerIndex { player_index: i, len })
                && i == player_index && len == old(self).players_view().len()),
            player_index < old(self).players_view().len() && drawable_total(old(self).stacks_view()) >= 1 ==> r is Ok,
            r is Ok ==> player_index < old(self).players_view().len()
                && final(self).players_view().len() == old(self).players_view().len()
                && final(self).players_view()[player_index as int].hand_view().len()
                == old(self).players_view()[player_index as int].hand_view().len() + 1
                && final(self).players_view()[player_index as int].hand_view().subrange(
                0,
                old(self).players_view()[player_index as int].hand_view().len() as int,
            ) == old(self).players_view()[player_index as int].hand_view(),
            final(self).turn_index() == old(self).turn_index(),
    {
        if player_index >= self.players.len() {
            return Err(Error::InvalidPlayerIndex { player_index, len: self.players.len() });
        }
        let mut cards = match self.draw_multiple_cards_unchosen(1) {
            Ok(c) => c,
            Err(e) => {
                return Err(e);
            },
        };
        let card = cards.pop().unwrap();
        let r = self.push_card_into_stack_target(StackTarget::Player(player_index), card);
        proof {
            let h = self.players_view()[player_index as int].hand_view();
            assert(h.subrange(0, h.len() - 1) =~= old(self).players_view()[player_index as int].hand_view());
        }
        r
    }

    /// The 52 common cards, shuffled.
    pub fn generate_common_draw() -> (r: Vec<Card>)
        ensures
            r@.to_multiset() == standard_deck().to_multiset(),
            r@.len() == 52,
    {
        let mut cards: Vec<Card> = Vec::new();
        let mut i: usize = 1;
        while i <= 13
            invariant
                1 <= i <= 14,
                cards@ == standard_deck().subrange(0, 4 * (i - 1)),
            decreases 14 - i,
        {
            let mut j: usize = 0;
            while j < 4
                invariant
                    1 <= i <= 13,
                    j <= 4,
                    cards@ == standard_deck().subrange(0, 4 * (i - 1) + j),
                decreases 4 - j,
            {
                let suit = if j == 0 {
                    CommonCardType::Spade
                } else if j == 1 {
                    CommonCardType::Diamond
                } else if j == 2 {
                    CommonCardType::Club
                } else {
                    CommonCardType::Heart
                };
                let c = Card::common(i as isize, suit);
                proof {
                    let idx = 4 * (i - 1) + j;
                    vstd::arithmetic::div_mod::lemma_fundamental_div_mod_converse(idx, 4, i - 1, j as int);
                    assert(standard_deck()[idx] == common_card(idx / 4 + 1, suit_at(idx % 4)));
                    assert(c == standard_deck()[idx]);
                }
                cards.push(c);
                j = j + 1;
                assert(cards@ =~= standard_deck().subrange(0, 4 * (i - 1) + j));
            }
            i = i + 1;
        }
        assert(standard_deck().subrange(0, 52) =~= standard_deck());
        let ghost before = cards@;
        shuffle_cards(&mut cards);
        proof {
            before.to_multiset_ensures();
            cards@.to_multiset_ensures();
        }
        cards
    }

    /// A fresh table: a hidden drawable stack of shuffled cards, a playable
    /// stack showing one card taken from it, and an empty discardable stack.
    pub fn init_stacks() -> (r: Vec<Stack>)
        ensures
            r@.len() == 3,
            r@[0].types_view() == seq![StackType::Drawable],
            r@[0].cards_view().len() == 51,
            r@[1].types_view() == seq![StackType::Playable],
            r@[1].cards_view().len() == 1,
            r@[0].cards_view().push(r@[1].cards_view()[0]).to_multiset() == standard_deck().to_multiset(),
            r@[2].types_view() == seq![StackType::Discardable],
            r@[2].cards_view().len() == 0,
    {
        let deck = Self::generate_common_draw();
        let ghost deck_v = deck@;
        let t0 = vec![StackType::Drawable];
        let t1 = vec![StackType::Playable];
        let t2 = vec![StackType::Discardable];
        assert(t0@ =~= seq![StackType::Drawable]);
        assert(t1@ =~= seq![StackType::Playable]);
        assert(t2@ =~= seq![StackType::Discardable]);
        let mut draw = Stack::new(deck, false, t0);
        let first = draw.draw_card().unwrap();
        proof {
            let d = draw.cards_view();
            assert(d.push(first) =~= deck_v);
        }
        let played = Stack::new(vec![first], true, t1);
        let discard = Stack::new(Vec::new(), true, t2);
        let mut r: Vec<Stack> = Vec::new();
        r.push(draw);
        r.push(played);
        r.push(discard);
        r
    }

    /// Completes a legal play: the card goes on its stack (a new playable
    /// stack when none is named) and leaves the player's hand.
    pub fn place_played_card(&mut self, card_event: &CardEvent) -> (r: Result<Card, Error>)
        requires
            old(self).wf(),
        ensures
            final(self).wf(),
            final(self).turn_index() == old(self).turn_index(),
            card_event.player_index < old(self).players_view().len() && card_event.card_index < old(self).players_view()[card_event.player_index as int].hand_view().len()
                && (card_event.stack_index matches Some(i) && i >= old(self).stacks_view().len()) ==> (r matches Err(Error::InvalidStackIndex { .. })),
            card_event.player_index >= old(self).players_view().len() ==> r is Err,
            card_event.player_index < old(self).players_view().len() && card_event.card_index < old(self).players_view()[card_event.player_index as int].hand_view().len()
                && (card_event.stack_index matches Some(i) ==> i < old(self).stacks_view().len()) ==> r is Ok,
            r is Ok ==> (card_event.stack_index matches Some(i) ==> final(self).stacks_view().len() == old(self).stacks_view().len()
                && final(self).stacks_view()[i as int].cards_view() == old(self).stacks_view()[i as int].cards_view().push(card_event.played_card)),
            r is Ok ==> (card_event.stack_index is None ==> final(self).stacks_view().len() == old(self).stacks_view().len() + 1
                && final(self).stacks_view().last().cards_view() == seq![card_event.played_card]
                && final(self).stacks_view().last().types_view() == seq![StackType::Playable]),
            r is Ok ==> card_event.player_index < old(self).players_view().len()
                && card_event.card_index < old(self).players_view()[card_event.player_index as int].hand_view().len()
                && final(self).players_view()[card_event.player_index as int].hand_view() == old(self).players_view()[card_event.player_index as int].hand_view().remove(
                card_event.card_index as int,
            ),
    {
        if card_event.player_index >= self.players.len() {
            return Err(Error::InvalidPlayerIndex { player_index: card_event.player_index, len: self.players.len() });
        }
        if card_event.card_index >= self.players[card_event.player_index].get_cards().len() {
            return Err(Error::InvalidCardIndex {
                card_index: card_event.card_index,
                len: self.players[card_event.player_index].get_cards().len(),
            });
        }
        match card_event.stack_index {
            Some(i) => {
                if i >= self.stacks.len() {
                    return Err(Error::InvalidStackIndex { stack_index: i, len: self.stacks.len() });
                }
                let _ = self.push_card_into_stack_target(StackTarget::Stack(i), card_event.played_card.clone());
            },
            None => {
                self.new_played_stack(vec![card_event.played_card.clone()], true);
            },
        }
        self.remove_card_from_stack_target(StackTarget::Player(card_event.player_index), card_event.card_index)
    }
}

impl MaoCore {
    /// The automaton nodes entered since its root.
    pub fn get_executed_actions(&self) -> (r: Vec<NodeState>)
        requires
            self.wf(),
        ensures
            r@ == self.automaton_view().cursor_path().map_values(|id: indextree::NodeId| self.automaton_view().nodes()[id].0),
    {
        self.automaton.get_executed_actions()
    }

    /// A new player holding `nb_card` cards drawn from the drawable stacks.
    pub fn init_player(&mut self, pseudo: String, nb_card: usize) -> (r: Result<Player, Error>)
        requires
            old(self).wf(),
        ensures
            final(self).wf(),
            final(self).players_view() == old(self).players_view(),
            r matches Ok(p) ==> p.pseudo_view() == pseudo@ && p.hand_view().len() == nb_card,
            drawable_total(old(self).stacks_view()) >= nb_card ==> r is Ok,
    {
        let cards = self.draw_multiple_cards_unchosen(nb_card)?;
        Ok(Player::new(pseudo, cards))
    }

    /// Deals `nb_card` cards to every player, in order.
    pub fn init_all_players(&mut self, nb_card: usize) -> (r: Result<(), Error>)
        requires
            old(self).wf(),
        ensures
            final(self).wf(),
            final(self).players_view().len() == old(self).players_view().len(),
            r is Ok ==> forall|i: int|
                0 <= i < old(self).players_view().len() ==> (#[trigger] final(self).players_view()[i]).hand_view().len()
                    == old(self).players_view()[i].hand_view().len() + nb_card,
            drawable_total(old(self).stacks_view()) >= nb_card * old(self).players_view().len() ==> r is Ok,
    {
        let mut i: usize = 0;
        while i < self.players.len()
            invariant
                self.wf(),
                self.players@.len() == old(self).players@.len(),
                i <= self.players@.len(),
                forall|k: int| 0 <= k < i ==> (#[trigger] self.players@[k]).hand_view().len() == old(self).players@[k].hand_view().len() + nb_card,
                forall|k: int| i <= k < self.players@.len() ==> #[trigger] self.players@[k] == old(self).players@[k],
                drawable_total(old(self).stacks@) >= nb_card * old(self).players@.len() ==> drawable_total(self.stacks@)
                    >= nb_card * (self.players@.len() - i),
            decreases self.players@.len() - i,
        {
            proof {
                if drawable_total(old(self).stacks@) >= nb_card * old(self).players@.len() {
                    let n = self.players@.len() - i;
                    assert(nb_card * n == nb_card * (n - 1) + nb_card) by (nonlinear_arith)
                        requires
                            n >= 1,
                    ;
                    assert(nb_card * (n - 1) >= 0) by (nonlinear_arith)
                        requires
                            n >= 1,
                    ;
                }
            }
            let cards = self.draw_multiple_cards_unchosen(nb_card)?;
            let ghost before = self.players@;
            let mut p = self.players.remove(i);
            p.add_cards(cards);
            self.players.insert(i, p);
            assert(self.players@ =~= before.update(i as int, p));
            i = i + 1;
        }
        Ok(())
    }

    /// Starts a new game with the same players: empty hands, fresh stacks,
    /// an empty log, the automaton at its root, then `nb_card` cards each.
    pub fn init_new_game(&mut self, nb_card: usize) -> (r: Result<(), Error>)
        requires
            old(self).wf(),
        ensures
            final(self).wf(),
            final(self).players_view().len() == old(self).players_view().len(),
            r is Ok ==> forall|i: int|
                0 <= i < old(self).players_view().len() ==> (#[trigger] final(self).players_view()[i]).hand_view().len() == nb_card,
            nb_card * old(self).players_view().len() <= 51 ==> r is Ok,
    {
        let mut i: usize = 0;
        while i < self.players.len()
            invariant
                self.wf(),
                self.players@.len() == old(self).players@.len(),
                i <= self.players@.len(),
                forall|k: int| 0 <= k < i ==> (#[trigger] self.players@[k]).hand_view().len() == 0,
            decreases self.players@.len() - i,
        {
            let ghost before = self.players@;
            let mut p = self.players.remove(i);
            p.clear_cards();
            self.players.insert(i, p);
            assert(self.players@ =~= before.update(i as int, p));
            i = i + 1;
        }
        self.stacks = Self::init_stacks();
        proof {
            let ss = self.stacks@;
            reveal_with_fuel(drawable_total, 4);
            assert(ss.drop_last().drop_last().drop_last() =~= Seq::<Stack>::empty());
            assert(ss.drop_last().drop_last().last() == ss[0]);
            assert(ss.drop_last().last() == ss[1]);
            assert(ss[0].types_view().contains(StackType::Drawable)) by {
                assert(ss[0].types_view()[0] == StackType::Drawable);
            }
            assert(!ss[1].types_view().contains(StackType::Drawable)) by {
                if ss[1].types_view().contains(StackType::Drawable) {
                    let w = choose|w: int| 0 <= w < ss[1].types_view().len() && ss[1].types_view()[w] == StackType::Drawable;
                }
            }
            assert(!ss[2].types_view().contains(StackType::Drawable)) by {
                if ss[2].types_view().contains(StackType::Drawable) {
                    let w = choose|w: int| 0 <= w < ss[2].types_view().len() && ss[2].types_view()[w] == StackType::Drawable;
                }
            }
            assert(drawable_total(ss) == 51);
        }
        self.player_events = Vec::new();
        self.automaton.reset();
        let ghost emptied = self.players@;
        let r = self.init_all_players(nb_card);
        proof {
            if r is Ok {
                assert forall|k: int| 0 <= k < old(self).players_view().len() implies (#[trigger] self.players_view()[k]).hand_view().len() == nb_card by {
                    assert(emptied[k].hand_view().len() == 0);
                }
            }
        }
        r
    }
}

/// Handle of the built-in handler that plays a card.
pub const PLAY_HANDLER: usize = 0;

/// Handle of the built-in handler that draws a card.
pub const DRAW_HANDLER: usize = 1;

/// Handle of the built-in handler that performs a physical action.
pub const ACTION_HANDLER: usize = 2;

/// The index a committed step carries, if any.
pub open spec fn step_index(i: MaoInteraction) -> Option<usize> {
    match i.data {
        Some(IdString::Index(k)) => Some(k),
        _ => None,
    }
}

impl MaoCore {
    /// The built-in action paths: a card then a playable stack plays it, a
    /// drawable stack draws from it, a player then an action performs it.
    pub fn generate_actions() -> (r: Vec<Vec<NodeState>>)
        ensures
            r@.len() == 3,
            forall|i: int| 0 <= i < 3 ==> crate::automaton::action_path(#[trigger] r@[i]@),
            r@[0]@.len() == 2 && r@[0]@[0].action.action == PlayerAction::SelectCard
                && r@[0]@[1].action.action == PlayerAction::SelectPlayableStack && r@[0]@[1].func == Some(PLAY_HANDLER),
            r@[1]@.len() == 1 && r@[1]@[0].action.action == PlayerAction::SelectDrawableStack
                && r@[1]@[0].func == Some(DRAW_HANDLER),
            r@[2]@.len() == 2 && r@[2]@[0].action.action == PlayerAction::SelectPlayer
                && r@[2]@[1].action.action == PlayerAction::DoAction && r@[2]@[1].func == Some(ACTION_HANDLER),
    {
        let play = vec![
            NodeState::new(MaoInteraction::new(None, PlayerAction::SelectCard), None, None),
            NodeState::new(MaoInteraction::new(None, PlayerAction::SelectPlayableStack), Some(PLAY_HANDLER), None),
        ];
        let draw = vec![NodeState::new(MaoInteraction::new(None, PlayerAction::SelectDrawableStack), Some(DRAW_HANDLER), None)];
        let act = vec![
            NodeState::new(MaoInteraction::new(None, PlayerAction::SelectPlayer), None, None),
            NodeState::new(MaoInteraction::new(None, PlayerAction::DoAction), Some(ACTION_HANDLER), None),
        ];
        let r = vec![play, draw, act];
        assert(crate::automaton::action_path(r@[0]@));
        assert(crate::automaton::action_path(r@[1]@));
        assert(crate::automaton::action_path(r@[2]@));
        r
    }

    /// Whether the tokens of `datas` are exactly `expected`.
    pub fn correct_player_action(expected: &Vec<PlayerAction>, datas: &Vec<MaoInteraction>) -> (r: bool)
        ensures
            r == (expected@ == datas@.map_values(|d: MaoInteraction| d.action)),
    {
        if expected.len() != datas.len() {
            assert(expected@.len() != datas@.map_values(|d: MaoInteraction| d.action).len());
            return false;
        }
        let mut i: usize = 0;
        while i < expected.len()
            invariant
                expected@.len() == datas@.len(),
                i <= expected@.len(),
                forall|j: int| 0 <= j < i ==> expected@[j] == (#[trigger] datas@[j]).action,
            decreases expected@.len() - i,
        {
            if expected[i] != datas[i].action {
                assert(datas@.map_values(|d: MaoInteraction| d.action)[i as int] != expected@[i as int]);
                return false;
            }
            i = i + 1;
        }
        assert(expected@ =~= datas@.map_values(|d: MaoInteraction| d.action));
        true
    }

    /// The card play a resolved "card, then playable stack" sequence asks
    /// for: the card at the first step's index in the player's hand, onto
    /// the stack at the second step's index (a new stack when it has none).
    pub fn play_interaction(&self, player_index: usize, interactions: &Vec<MaoInteraction>) -> (r: Result<CardEvent, Error>)
        ensures
            !(interactions@.len() == 2 && interactions@[0].action == PlayerAction::SelectCard
                && interactions@[1].action == PlayerAction::SelectPlayableStack) ==> (r matches Err(Error::InvalidMaoInteraction { .. })),
            r matches Ok(ev) ==> {
                &&& interactions@.len() == 2
                &&& step_index(interactions@[0]) == Some(ev.card_index)
                &&& ev.player_index == player_index
                &&& player_index < self.players_view().len()
                &&& ev.card_index < self.players_view()[player_index as int].hand_view().len()
                &&& ev.played_card == self.players_view()[player_index as int].hand_view()[ev.card_index as int]
                &&& ev.stack_index == step_index(interactions@[1])
                &&& (ev.stack_index matches Some(s) ==> s < self.stacks_view().len())
            },
            interactions@.len() == 2 && interactions@[0].action == PlayerAction::SelectCard
                && interactions@[1].action == PlayerAction::SelectPlayableStack
                && step_index(interactions@[0]) is Some
                && player_index < self.players_view().len()
                && step_index(interactions@[0])->Some_0 < self.players_view()[player_index as int].hand_view().len()
                && (interactions@[1].data is None || (step_index(interactions@[1]) is Some
                && step_index(interactions@[1])->Some_0 < self.stacks_view().len()))
                ==> r is Ok,
    {
        let expected = vec![PlayerAction::SelectCard, PlayerAction::SelectPlayableStack];
        if !Self::correct_player_action(&expected, interactions) {
            proof {
                if interactions@.len() == 2 && interactions@[0].action == PlayerAction::SelectCard
                    && interactions@[1].action == PlayerAction::SelectPlayableStack {
                    assert(expected@ =~= interactions@.map_values(|d: MaoInteraction| d.action));
                }
            }
            let mut received: Vec<PlayerAction> = Vec::new();
            let mut i: usize = 0;
            while i < interactions.len()
                invariant
                    i <= interactions@.len(),
                decreases interactions@.len() - i,
            {
                received.push(interactions[i].action);
                i = i + 1;
            }
            return Err(Error::InvalidMaoInteraction { expected, received });
        }
        assert(interactions@.len() == 2 && interactions@[0].action == expected@[0]);
        let card_index = match &interactions[0].data {
            Some(IdString::Index(k)) => *k,
            Some(_) => {
                return Err(Error::InvalidExpectingValue("Expecting index found String".to_string()));
            },
            None => {
                return Err(Error::InvalidCardIndex { card_index: usize::MAX, len: 0 });
            },
        };
        if player_index >= self.players.len() {
            return Err(Error::InvalidPlayerIndex { player_index, len: self.players.len() });
        }
        let hand = self.players[player_index].get_cards();
        if card_index >= hand.len() {
            return Err(Error::InvalidCardIndex { card_index, len: hand.len() });
        }
        let card = hand[card_index].clone();
        let stack_index = match &interactions[1].data {
            Some(IdString::Index(k)) => Some(*k),
            Some(_) => {
                return Err(Error::InvalidExpectingValue("Expecting index found String".to_string()));
            },
            None => None,
        };
        if let Some(s) = stack_index {
            if s >= self.stacks.len() {
                return Err(Error::InvalidStackIndex { stack_index: s, len: self.stacks.len() });
            }
        }
        Ok(CardEvent::new(card, player_index, stack_index, card_index))
    }

    /// The stack a resolved "drawable stack" sequence names, if any.
    #[verifier::spinoff_prover]
    pub fn draw_interaction(interactions: &Vec<MaoInteraction>) -> (r: Result<Option<usize>, Error>)
        ensures
            !(interactions@.len() == 1 && interactions@[0].action == PlayerAction::SelectDrawableStack) ==> (r matches Err(
                Error::InvalidMaoInteraction { .. },
            )),
            interactions@.len() == 1 && interactions@[0].action == PlayerAction::SelectDrawableStack ==> match interactions@[0].data {
                None => r == Ok::<Option<usize>, Error>(None),
                Some(IdString::Index(k)) => r == Ok::<Option<usize>, Error>(Some(k)),
                Some(IdString::String(_)) => r matches Err(Error::InvalidExpectingValue(_)),
            },
    {
        let expected = vec![PlayerAction::SelectDrawableStack];
        if !Self::correct_player_action(&expected, interactions) {
            proof {
                if interactions@.len() == 1 && interactions@[0].action == PlayerAction::SelectDrawableStack {
                    assert(expected@ =~= interactions@.map_values(|d: MaoInteraction| d.action));
                }
            }
            return Err(Error::InvalidMaoInteraction { expected, received: Vec::new() });
        }
        match &interactions[0].data {
            Some(d) => match d.index_expecting() {
                Ok(k) => Ok(Some(k)),
                Err(e) => Err(e),
            },
            None => Ok(None),
        }
    }
}

impl MaoCore {
    /// Decides a card play from the violations the rule modules raised:
    /// any violation is penalized; otherwise the default legality check
    /// decides between refusing (a "Basic Rules" disallow) and accepting.
    pub fn resolve_play(&self, ev: &CardEvent, violations: &Vec<WrongPlayerInteraction>) -> (r: PlayStep)
        ensures
            violations@.len() > 0 ==> r is Penalize,
            violations@.len() == 0 && !play_allowed(self.turn_index(), self.stacks_view(), ev.player_index, ev.played_card, ev.stack_index)
                ==> (r matches PlayStep::Refuse { verdict: WrongPlayerInteraction::Disallow(d) } && d.rule@ == "Basic Rules"@
                && d.penality is None),
            violations@.len() == 0 && play_allowed(self.turn_index(), self.stacks_view(), ev.player_index, ev.played_card, ev.stack_index)
                ==> r is Accept,
    {
        if violations.len() > 0 {
            return PlayStep::Penalize;
        }
        let msg = match self.can_play(ev.player_index, &ev.played_card, ev.stack_index) {
            PlayerTurnResult::CanPlay => {
                return PlayStep::Accept;
            },
            PlayerTurnResult::WrongTurn => String::from_str("It is not your turn"),
            PlayerTurnResult::CannotPlaceThisCard { .. } => String::from_str("You cannot play this card"),
            PlayerTurnResult::Other { desc } => desc,
        };
        let d = Disallow::new(String::from_str("Basic Rules"), msg, None);
        PlayStep::Refuse { verdict: WrongPlayerInteraction::Disallow(d) }
    }

    /// Settles a drawn card once the rule modules have answered. When every
    /// module ignored the draw, the card goes to the player's hand and, in
    /// the player's own turn, the turn advances by one; otherwise the card
    /// goes back on top of the stack it came from.
    pub fn resolve_draw(&mut self, player_index: usize, card: Card, stack_index: usize, all_ignored: bool) -> (r: Result<(), Error>)
        requires
            old(self).wf(),
        ensures
            final(self).wf(),
            final(self).log() == old(self).log(),
            all_ignored ==> (player_index >= old(self).players_view().len() <==> (r matches Err(Error::InvalidPlayerIndex { .. }))),
            all_ignored && player_index < old(self).players_view().len() ==> {
                &&& r is Ok
                &&& final(self).players_view()[player_index as int].hand_view() == old(self).players_view()[player_index as int].hand_view().push(card)
                &&& final(self).stacks_view() == old(self).stacks_view()
                &&& (player_index == old(self).turn_index() ==> (final(self).turn_index() as int, final(self).direction() as int)
                    == turn_after(old(self).turn_index() as int, old(self).direction() as int, old(self).players_view().len() as int,
                    PlayerTurnChange::Update(PlayerTurnUpdater::Update(1))))
                &&& (player_index != old(self).turn_index() ==> final(self).turn_index() == old(self).turn_index())
            },
            !all_ignored ==> (stack_index >= old(self).stacks_view().len() <==> (r matches Err(Error::InvalidStackIndex { .. }))),
            !all_ignored && stack_index < old(self).stacks_view().len() ==> {
                &&& r is Ok
                &&& final(self).stacks_view()[stack_index as int].cards_view() == old(self).stacks_view()[stack_index as int].cards_view().push(card)
                &&& final(self).players_view() == old(self).players_view()
                &&& final(self).turn_index() == old(self).turn_index()
            },
    {
        if all_ignored {
            if player_index >= self.players.len() {
                return Err(Error::InvalidPlayerIndex { player_index, len: self.players.len() });
            }
            if player_index == self.player_turn {
                self.update_turn(PlayerTurnChange::Update(PlayerTurnUpdater::Update(1)));
            }
            self.push_card_into_stack_target(StackTarget::Player(player_index), card)
        } else {
            self.push_card_into_stack_target(StackTarget::Stack(stack_index), card)
        }
    }

    /// Whether drawing `nb` cards needs a refill first, that is whether the
    /// drawable stacks hold fewer than `nb` cards; the caller then offers the
    /// rule modules the stack-runs-out occurrence before refilling.
    pub fn refill_pending(&self, nb: usize) -> (r: bool)
        ensures
            r == (drawable_total(self.stacks_view()) < nb),
    {
        if nb == 0 {
            return false;
        }
        let mut acc: u128 = 0;
        let mut i: usize = 0;
        while i < self.stacks.len()
            invariant
                i <= self.stacks@.len(),
                self.stacks@ == self.stacks_view(),
                acc as int == drawable_total(self.stacks@.subrange(0, i as int)),
                acc < nb,
            decreases self.stacks@.len() - i,
        {
            assert(self.stacks@.subrange(0, i + 1 as int).drop_last() =~= self.stacks@.subrange(0, i as int));
            if self.stacks[i].has_type(StackType::Drawable) {
                acc = acc + self.stacks[i].get_cards().len() as u128;
            }
            i = i + 1;
            if acc >= nb as u128 {
                proof {
                    lemma_drawable_total_prefix(self.stacks@, i as int);
                }
                return false;
            }
        }
        assert(self.stacks@.subrange(0, self.stacks@.len() as int) =~= self.stacks@);
        true
    }
}

proof fn lemma_drawable_total_prefix(ss: Seq<Stack>, i: int)
    requires
        0 <= i <= ss.len(),
    ensures
        drawable_total(ss.subrange(0, i)) <= drawable_total(ss),
    decreases ss.len() - i,
{
    if i < ss.len() {
        lemma_drawable_total_prefix(ss, i + 1);
        assert(ss.subrange(0, i + 1).drop_last() =~= ss.subrange(0, i));
    } else {
        assert(ss.subrange(0, i) =~= ss);
    }
}

} // verus!
