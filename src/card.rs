use vstd::prelude::*;
use vstd::string::StringExecFns;

verus! {

/// Colour of a card.
#[derive(Debug)]
pub enum CardColor {
    Red,
    Black,
    Undefined(String),
}

/// The four common suits.
#[derive(Debug, Clone, Copy, PartialEq, Eq, Structural, Hash)]
pub enum CommonCardType {
    Spade,
    Diamond,
    Club,
    Heart,
}

/// Kind of a card: a common suit, a rule card or a joker.
#[derive(Debug)]
pub enum CardType {
    Common(CommonCardType),
    Rule,
    Jocker { desc: String, color: CardColor },
}

/// Value printed on a card.
#[derive(Debug, Clone, Copy, PartialEq, Eq, Structural, Hash)]
pub enum CardValue {
    Number(isize),
    MinusInfinity,
    PlusInfinity,
}

/// A plain card: a value and a sign.
#[derive(Debug)]
pub struct Card {
    value: CardValue,
    sign: CardType,
}

/// Mathematical value of a colour: strings are seen through their characters.
pub enum ColorModel {
    Red,
    Black,
    Undefined(Seq<char>),
}

/// Mathematical value of a card sign.
pub enum CardTypeModel {
    Common(CommonCardType),
    Rule,
    Jocker { desc: Seq<char>, color: ColorModel },
}

pub open spec fn color_model(c: CardColor) -> ColorModel {
    match c {
        CardColor::Red => ColorModel::Red,
        CardColor::Black => ColorModel::Black,
        CardColor::Undefined(s) => ColorModel::Undefined(s@),
    }
}

pub open spec fn card_type_model(t: CardType) -> CardTypeModel {
    match t {
        CardType::Common(c) => CardTypeModel::Common(c),
        CardType::Rule => CardTypeModel::Rule,
        CardType::Jocker { desc, color } => CardTypeModel::Jocker {
            desc: desc@,
            color: color_model(color),
        },
    }
}

/// Colour of a common suit: spades and clubs are black, diamonds and hearts red.
pub open spec fn suit_color(c: CommonCardType) -> ColorModel {
    match c {
        CommonCardType::Spade | CommonCardType::Club => ColorModel::Black,
        CommonCardType::Diamond | CommonCardType::Heart => ColorModel::Red,
    }
}

/// Colour of a card sign: a rule card has an empty undefined colour, a joker its own.
pub open spec fn sign_color(t: CardTypeModel) -> ColorModel {
    match t {
        CardTypeModel::Common(c) => suit_color(c),
        CardTypeModel::Rule => ColorModel::Undefined(Seq::empty()),
        CardTypeModel::Jocker { color, .. } => color,
    }
}

impl CardColor {
    pub open spec fn model(&self) -> ColorModel {
        color_model(*self)
    }
}

impl Clone for CardColor {
    fn clone(&self) -> (r: Self)
        ensures
            r == *self,
    {
        match self {
            CardColor::Red => CardColor::Red,
            CardColor::Black => CardColor::Black,
            CardColor::Undefined(s) => CardColor::Undefined(s.clone()),
        }
    }
}

impl PartialEq for CardColor {
    fn eq(&self, o: &CardColor) -> (r: bool)
        ensures
            r == (self.model() == o.model()),
    {
        match (self, o) {
            (CardColor::Red, CardColor::Red) => true,
            (CardColor::Black, CardColor::Black) => true,
            (CardColor::Undefined(a), CardColor::Undefined(b)) => a.eq(b),
            _ => false,
        }
    }
}

impl vstd::std_specs::cmp::PartialEqSpecImpl for CardColor {
    open spec fn obeys_eq_spec() -> bool {
        true
    }

    open spec fn eq_spec(&self, o: &CardColor) -> bool {
        self.model() == o.model()
    }
}

impl CommonCardType {
    /// Colour of the suit.
    pub fn get_color(&self) -> (r: CardColor)
        ensures
            r.model() == suit_color(*self),
    {
        match self {
            CommonCardType::Spade | CommonCardType::Club => CardColor::Black,
            CommonCardType::Diamond | CommonCardType::Heart => CardColor::Red,
        }
    }
}

impl CardType {
    pub open spec fn model(&self) -> CardTypeModel {
        card_type_model(*self)
    }
}

impl Clone for CardType {
    fn clone(&self) -> (r: Self)
        ensures
            r == *self,
    {
        match self {
            CardType::Common(c) => CardType::Common(*c),
            CardType::Rule => CardType::Rule,
            CardType::Jocker { desc, color } => CardType::Jocker {
                desc: desc.clone(),
                color: color.clone(),
            },
        }
    }
}

impl PartialEq for CardType {
    fn eq(&self, o: &CardType) -> (r: bool)
        ensures
            r == (self.model() == o.model()),
    {
        match (self, o) {
            (CardType::Common(a), CardType::Common(b)) => *a == *b,
            (CardType::Rule, CardType::Rule) => true,
            (
                CardType::Jocker { desc: d1, color: c1 },
                CardType::Jocker { desc: d2, color: c2 },
            ) => {
                let same_desc = d1.eq(d2);
                let same_color = c1.eq(c2);
                same_desc && same_color
            },
            _ => false,
        }
    }
}

impl vstd::std_specs::cmp::PartialEqSpecImpl for CardType {
    open spec fn obeys_eq_spec() -> bool {
        true
    }

    open spec fn eq_spec(&self, o: &CardType) -> bool {
        self.model() == o.model()
    }
}

impl Default for CardType {
    fn default() -> (r: Self)
        ensures
            r == CardType::Common(CommonCardType::Spade),
    {
        CardType::Common(CommonCardType::Spade)
    }
}

impl Default for CardValue {
    fn default() -> (r: Self)
        ensures
            r == CardValue::Number(1),
    {
        CardValue::Number(1)
    }
}

impl Card {
    pub closed spec fn spec_value(&self) -> CardValue {
        self.value
    }

    pub closed spec fn spec_sign(&self) -> CardTypeModel {
        self.sign.model()
    }

    /// The colour a card shows, as the default legality check compares it.
    pub open spec fn spec_color(&self) -> ColorModel {
        sign_color(self.spec_sign())
    }

    pub fn new(value: CardValue, sign: CardType) -> (r: Self)
        ensures
            r.spec_value() == value,
            r.spec_sign() == sign.model(),
    {
        Card { value, sign }
    }

    pub fn get_value(&self) -> (r: &CardValue)
        ensures
            *r == self.spec_value(),
    {
        &self.value
    }

    pub fn get_sign(&self) -> (r: &CardType)
        ensures
            r.model() == self.spec_sign(),
    {
        &self.sign
    }

    /// Colour of the card: that of its suit, that of a joker, or an empty
    /// undefined colour for a rule card.
    pub fn get_color(&self) -> (r: CardColor)
        ensures
            r.model() == self.spec_color(),
    {
        match &self.sign {
            CardType::Common(c) => c.get_color(),
            CardType::Rule => CardColor::Undefined(String::new()),
            CardType::Jocker { color, .. } => color.clone(),
        }
    }
}

impl Clone for Card {
    fn clone(&self) -> (r: Self)
        ensures
            r == *self,
    {
        Card { value: self.value, sign: self.sign.clone() }
    }
}

impl PartialEq for Card {
    fn eq(&self, o: &Card) -> (r: bool)
        ensures
            r == (self.spec_value() == o.spec_value() && self.spec_sign() == o.spec_sign()),
    {
        let same_value = self.value == o.value;
        let same_sign = self.sign == o.sign;
        same_value && same_sign
    }
}

impl vstd::std_specs::cmp::PartialEqSpecImpl for Card {
    open spec fn obeys_eq_spec() -> bool {
        true
    }

    open spec fn eq_spec(&self, o: &Card) -> bool {
        self.spec_value() == o.spec_value() && self.spec_sign() == o.spec_sign()
    }
}

impl Default for Card {
    fn default() -> (r: Self)
        ensures
            r.spec_value() == CardValue::Number(1),
            r.spec_sign() == CardTypeModel::Common(CommonCardType::Spade),
    {
        Card { value: CardValue::Number(1), sign: CardType::Common(CommonCardType::Spade) }
    }
}

pub open spec fn string_views(v: Seq<String>) -> Seq<Seq<char>> {
    v.map_values(|s: String| s@)
}

pub open spec fn str_views(v: Seq<&str>) -> Seq<Seq<char>> {
    v.map_values(|s: &str| s@)
}

/// A common card of the given value and suit.
pub closed spec fn common_card(value: int, suit: CommonCardType) -> Card {
    Card { value: CardValue::Number(value as isize), sign: CardType::Common(suit) }
}

/// The suits in deck order.
pub open spec fn suit_at(j: int) -> CommonCardType {
    if j == 0 {
        CommonCardType::Spade
    } else if j == 1 {
        CommonCardType::Diamond
    } else if j == 2 {
        CommonCardType::Club
    } else {
        CommonCardType::Heart
    }
}

/// The 52 common cards: values 1 to 13, each in the four suits.
pub open spec fn standard_deck() -> Seq<Card> {
    Seq::new(52, |k: int| common_card(k / 4 + 1, suit_at(k % 4)))
}

impl Card {
    /// A common card of value `value` in suit `suit`.
    pub fn common(value: isize, suit: CommonCardType) -> (r: Card)
        ensures
            r == common_card(value as int, suit),
    {
        Card { value: CardValue::Number(value), sign: CardType::Common(suit) }
    }
}

/// Who may see a card.
#[derive(Debug)]
pub enum GameCardVisibility {
    Owner,
    Other,
    All,
    Players(Vec<usize>),
}

impl Default for GameCardVisibility {
    fn default() -> (r: Self)
        ensures
            r is Owner,
    {
        GameCardVisibility::Owner
    }
}

/// How a card is shown; overrides visibility when hidden.
#[derive(Debug, Clone, Copy, PartialEq, Eq, Structural)]
pub enum GameCardDisplay {
    Hidden,
    Visible,
    RevealOnHover,
}

impl Default for GameCardDisplay {
    fn default() -> (r: Self)
        ensures
            r == GameCardDisplay::Visible,
    {
        GameCardDisplay::Visible
    }
}

/// A card in play: what it really is, what it is claimed to be, and how it is seen.
#[derive(Debug)]
pub struct GameCard {
    supposed_card: Option<Card>,
    real_card: Card,
    visibility: GameCardVisibility,
    rules: Vec<String>,
    display: GameCardDisplay,
    played_by: Option<usize>,
}

impl GameCard {
    pub closed spec fn supposed(&self) -> Option<Card> {
        self.supposed_card
    }

    pub closed spec fn real_view(&self) -> Card {
        self.real_card
    }

    pub closed spec fn visibility_view(&self) -> GameCardVisibility {
        self.visibility
    }

    pub closed spec fn rules_view(&self) -> Seq<Seq<char>> {
        string_views(self.rules@)
    }

    pub closed spec fn display_view(&self) -> GameCardDisplay {
        self.display
    }

    pub closed spec fn played_by_view(&self) -> Option<usize> {
        self.played_by
    }

    /// Drops the claimed identity and the display and visibility overrides.
    pub fn set_as_normal(&mut self)
        ensures
            final(self).supposed() is None,
            final(self).display_view() == GameCardDisplay::Visible,
            final(self).visibility_view() is Owner,
            final(self).real_view() == old(self).real_view(),
            final(self).rules_view() == old(self).rules_view(),
            final(self).played_by_view() == old(self).played_by_view(),
    {
        self.supposed_card = None;
        self.display = GameCardDisplay::Visible;
        self.visibility = GameCardVisibility::Owner;
    }

    pub fn new(
        supposed_card: Option<Card>,
        real_card: Card,
        visibility: GameCardVisibility,
        rules: &[&str],
        played_by: Option<usize>,
    ) -> (r: Self)
        ensures
            r.supposed() == supposed_card,
            r.real_view() == real_card,
            r.visibility_view() == visibility,
            r.rules_view() == str_views(rules@),
            r.display_view() == GameCardDisplay::Visible,
            r.played_by_view() == played_by,
    {
        let mut v: Vec<String> = Vec::new();
        let mut i: usize = 0;
        while i < rules.len()
            invariant
                i <= rules@.len(),
                string_views(v@) == str_views(rules@.subrange(0, i as int)),
                v@.len() == i,
            decreases rules@.len() - i,
        {
            let t = String::from_str(rules[i]);
            let ghost prev = v@;
            v.push(t);
            i = i + 1;
            assert forall|j: int| 0 <= j < i implies #[trigger] string_views(v@)[j] == str_views(rules@.subrange(0, i as int))[j] by {
                if j < i - 1 {
                    assert(v@[j] == prev[j]);
                    assert(string_views(prev)[j] == str_views(rules@.subrange(0, i - 1 as int))[j]);
                }
            }
            assert(string_views(v@) =~= str_views(rules@.subrange(0, i as int)));
        }
        assert(rules@.subrange(0, rules@.len() as int) =~= rules@);
        GameCard { supposed_card, real_card, visibility, rules: v, display: GameCardDisplay::Visible, played_by }
    }

    pub fn set_display(&mut self, display: GameCardDisplay)
        ensures
            final(self).display_view() == display,
            final(self).rules_view() == old(self).rules_view(),
            final(self).supposed() == old(self).supposed(),
            final(self).real_view() == old(self).real_view(),
            final(self).visibility_view() == old(self).visibility_view(),
            final(self).played_by_view() == old(self).played_by_view(),
    {
        self.display = display;
    }

    pub fn display(&self) -> (r: GameCardDisplay)
        ensures
            r == self.display_view(),
    {
        self.display
    }

    /// A plain card seen by its owner.
    pub fn normal_card(real_card: Card) -> (r: Self)
        ensures
            r.supposed() is None,
            r.real_view() == real_card,
            r.visibility_view() is Owner,
            r.rules_view().len() == 0,
            r.display_view() == GameCardDisplay::Visible,
            r.played_by_view() is None,
    {
        GameCard {
            supposed_card: None,
            real_card,
            visibility: GameCardVisibility::Owner,
            rules: Vec::new(),
            display: GameCardDisplay::Visible,
            played_by: None,
        }
    }

    /// The card as played: the claimed one if any, else the real one.
    pub fn played_card(&self) -> (r: &Card)
        ensures
            *r == match self.supposed() {
                Some(c) => c,
                None => self.real_view(),
            },
    {
        match &self.supposed_card {
            Some(c) => c,
            None => &self.real_card,
        }
    }

    pub fn visibility(&self) -> (r: &GameCardVisibility)
        ensures
            *r == self.visibility_view(),
    {
        &self.visibility
    }

    pub fn rules(&self) -> (r: &Vec<String>)
        ensures
            string_views(r@) == self.rules_view(),
    {
        &self.rules
    }

    pub fn set_supposed_card(&mut self, card: Card)
        ensures
            final(self).supposed() == Some(card),
            final(self).real_view() == old(self).real_view(),
            final(self).visibility_view() == old(self).visibility_view(),
            final(self).rules_view() == old(self).rules_view(),
            final(self).display_view() == old(self).display_view(),
            final(self).played_by_view() == old(self).played_by_view(),
    {
        self.supposed_card = Some(card);
    }

    pub fn real_card(&self) -> (r: &Card)
        ensures
            *r == self.real_view(),
    {
        &self.real_card
    }

    pub fn set_played_by(&mut self, played_by: Option<usize>)
        ensures
            final(self).played_by_view() == played_by,
            final(self).visibility_view() == old(self).visibility_view(),
            final(self).rules_view() == old(self).rules_view(),
            final(self).supposed() == old(self).supposed(),
            final(self).real_view() == old(self).real_view(),
            final(self).display_view() == old(self).display_view(),
    {
        self.played_by = played_by;
    }

    pub fn played_by(&self) -> (r: Option<usize>)
        ensures
            r == self.played_by_view(),
    {
        self.played_by
    }

    /// Back to a plain card: only the real card is kept.
    pub fn clear_properties(&mut self)
        ensures
            final(self).supposed() is None,
            final(self).real_view() == old(self).real_view(),
            final(self).visibility_view() is Owner,
            final(self).rules_view().len() == 0,
            final(self).display_view() == GameCardDisplay::Visible,
            final(self).played_by_view() is None,
    {
        let kept = self.real_card.clone();
        *self = GameCard::normal_card(kept);
    }
}

} // verus!
