use vstd::prelude::*;

verus! {

/// The suit of a card. Suits carry no order of their own.
#[derive(PartialEq, Eq, Structural, Debug, Clone, Copy, Hash)]
pub enum Suit {
    Heart,
    Spade,
    Club,
    Diamond,
}

/// The value of a card, from Two up to Ace.
#[derive(PartialEq, Eq, Structural, PartialOrd, Ord, Debug, Clone, Copy, Hash)]
pub enum Value {
    Two,
    Three,
    Four,
    Five,
    Six,
    Seven,
    Eight,
    Nine,
    Ten,
    Jack,
    Queen,
    King,
    Ace,
}

/// A card of the standard 52-card deck.
#[derive(PartialEq, Eq, Structural, Debug, Clone, Copy, Hash)]
pub struct Card {
    pub suit: Suit,
    pub value: Value,
}

/// The position of a suit in deck order: Heart, Spade, Club, Diamond.
pub open spec fn suit_index(s: Suit) -> int {
    match s {
        Suit::Heart => 0,
        Suit::Spade => 1,
        Suit::Club => 2,
        Suit::Diamond => 3,
    }
}

/// The suit at a position of deck order.
pub open spec fn suit_at(i: int) -> Suit {
    if i == 0 {
        Suit::Heart
    } else if i == 1 {
        Suit::Spade
    } else if i == 2 {
        Suit::Club
    } else {
        Suit::Diamond
    }
}

/// The distance of a value from Two on the scale Two..Ace (Two is 0, Ace is 12).
pub open spec fn value_index(v: Value) -> int {
    match v {
        Value::Two => 0,
        Value::Three => 1,
        Value::Four => 2,
        Value::Five => 3,
        Value::Six => 4,
        Value::Seven => 5,
        Value::Eight => 6,
        Value::Nine => 7,
        Value::Ten => 8,
        Value::Jack => 9,
        Value::Queen => 10,
        Value::King => 11,
        Value::Ace => 12,
    }
}

/// The value at a distance from Two.
pub open spec fn value_at(i: int) -> Value {
    if i <= 0 {
        Value::Two
    } else if i == 1 {
        Value::Three
    } else if i == 2 {
        Value::Four
    } else if i == 3 {
        Value::Five
    } else if i == 4 {
        Value::Six
    } else if i == 5 {
        Value::Seven
    } else if i == 6 {
        Value::Eight
    } else if i == 7 {
        Value::Nine
    } else if i == 8 {
        Value::Ten
    } else if i == 9 {
        Value::Jack
    } else if i == 10 {
        Value::Queen
    } else if i == 11 {
        Value::King
    } else {
        Value::Ace
    }
}

pub proof fn lemma_value_index_round_trip(v: Value)
    ensures
        0 <= value_index(v) < 13,
        value_at(value_index(v)) == v,
{
}

pub proof fn lemma_value_at_round_trip(i: int)
    requires
        0 <= i < 13,
    ensures
        value_index(value_at(i)) == i,
{
}

pub proof fn lemma_suit_index_round_trip(s: Suit)
    ensures
        0 <= suit_index(s) < 4,
        suit_at(suit_index(s)) == s,
{
}

/// The canonical deck: suits in the order Heart, Spade, Club, Diamond,
/// and within each suit the values from Two to Ace.
pub open spec fn deck_order() -> Seq<Card> {
    Seq::new(52, |i: int| Card { suit: suit_at(i / 13), value: value_at(i % 13) })
}

impl Value {
    /// The distance of this value from Two.
    pub fn index(&self) -> (r: u8)
        ensures
            r as int == value_index(*self),
    {
        match self {
            Value::Two => 0,
            Value::Three => 1,
            Value::Four => 2,
            Value::Five => 3,
            Value::Six => 4,
            Value::Seven => 5,
            Value::Eight => 6,
            Value::Nine => 7,
            Value::Ten => 8,
            Value::Jack => 9,
            Value::Queen => 10,
            Value::King => 11,
            Value::Ace => 12,
        }
    }

    /// The value at distance `i` from Two.
    pub fn from_index(i: u8) -> (r: Value)
        requires
            i < 13,
        ensures
            r == value_at(i as int),
            value_index(r) == i as int,
    {
        match i {
            0 => Value::Two,
            1 => Value::Three,
            2 => Value::Four,
            3 => Value::Five,
            4 => Value::Six,
            5 => Value::Seven,
            6 => Value::Eight,
            7 => Value::Nine,
            8 => Value::Ten,
            9 => Value::Jack,
            10 => Value::Queen,
            11 => Value::King,
            _ => Value::Ace,
        }
    }

    /// Reads a value token: `2`..`9`, `T`, `J`, `Q`, `K`, `A`.
    /// Any other character is handed back as the error.
    pub fn try_from(c: char) -> (r: Result<Value, char>)
        ensures
            r == value_of_token(c),
    {
        match c {
            '2' => Ok(Value::Two),
            '3' => Ok(Value::Three),
            '4' => Ok(Value::Four),
            '5' => Ok(Value::Five),
            '6' => Ok(Value::Six),
            '7' => Ok(Value::Seven),
            '8' => Ok(Value::Eight),
            '9' => Ok(Value::Nine),
            'T' => Ok(Value::Ten),
            'J' => Ok(Value::Jack),
            'Q' => Ok(Value::Queen),
            'K' => Ok(Value::King),
            'A' => Ok(Value::Ace),
            _ => Err(c),
        }
    }
}

/// The value that a token names.
pub open spec fn value_of_token(c: char) -> Result<Value, char> {
    if c == '2' {
        Ok(Value::Two)
    } else if c == '3' {
        Ok(Value::Three)
    } else if c == '4' {
        Ok(Value::Four)
    } else if c == '5' {
        Ok(Value::Five)
    } else if c == '6' {
        Ok(Value::Six)
    } else if c == '7' {
        Ok(Value::Seven)
    } else if c == '8' {
        Ok(Value::Eight)
    } else if c == '9' {
        Ok(Value::Nine)
    } else if c == 'T' {
        Ok(Value::Ten)
    } else if c == 'J' {
        Ok(Value::Jack)
    } else if c == 'Q' {
        Ok(Value::Queen)
    } else if c == 'K' {
        Ok(Value::King)
    } else if c == 'A' {
        Ok(Value::Ace)
    } else {
        Err(c)
    }
}

/// The suit that a token names: a suit symbol or its initial letter.
pub open spec fn suit_of_token(c: char) -> Result<Suit, char> {
    if c == '♥' || c == 'H' {
        Ok(Suit::Heart)
    } else if c == '♠' || c == 'S' {
        Ok(Suit::Spade)
    } else if c == '♣' || c == 'C' {
        Ok(Suit::Club)
    } else if c == '♦' || c == 'D' {
        Ok(Suit::Diamond)
    } else {
        Err(c)
    }
}

impl Suit {
    /// Reads a suit token: `♥`/`H`, `♠`/`S`, `♣`/`C`, `♦`/`D`.
    /// Any other character is handed back as the error.
    pub fn try_from(c: char) -> (r: Result<Suit, char>)
        ensures
            r == suit_of_token(c),
    {
        match c {
            '♥' | 'H' => Ok(Suit::Heart),
            '♠' | 'S' => Ok(Suit::Spade),
            '♣' | 'C' => Ok(Suit::Club),
            '♦' | 'D' => Ok(Suit::Diamond),
            _ => Err(c),
        }
    }
}

impl Card {
    /// The 52 cards in canonical deck order.
    pub fn full_deck() -> (deck: Vec<Card>)
        ensures
            deck@ == deck_order(),
    {
        let suits: [Suit; 4] = [Suit::Heart, Suit::Spade, Suit::Club, Suit::Diamond];
        let mut deck: Vec<Card> = Vec::with_capacity(52);
        let mut s: usize = 0;
        while s < 4
            invariant
                0 <= s <= 4,
                suits@ == seq![Suit::Heart, Suit::Spade, Suit::Club, Suit::Diamond],
                deck@.len() == 13 * s,
                forall|i: int| 0 <= i < 13 * s ==> deck@[i] == #[trigger] deck_order()[i],
            decreases 4 - s,
        {
            let mut v: u8 = 0;
            while v < 13
                invariant
                    0 <= s < 4,
                    0 <= v <= 13,
                    suits@ == seq![Suit::Heart, Suit::Spade, Suit::Club, Suit::Diamond],
                    deck@.len() == 13 * s + v,
                    forall|i: int| 0 <= i < 13 * s + v ==> deck@[i] == #[trigger] deck_order()[i],
                decreases 13 - v,
            {
                let card = Card { suit: suits[s], value: Value::from_index(v) };
                proof {
                    let k = 13 * s + v;
                    assert(k / 13 == s as int && k % 13 == v as int) by (nonlinear_arith)
                        requires k == 13 * s + v, 0 <= v < 13, 0 <= s;
                    assert(suit_at(s as int) == suits@[s as int]);
                }
                deck.push(card);
                v = v + 1;
            }
            s = s + 1;
        }
        assert(deck@ =~= deck_order());
        deck
    }

    /// Reads a card from a value token and a suit token, value first.
    pub fn try_from(tokens: (char, char)) -> (r: Result<Card, char>)
        ensures
            r == match (value_of_token(tokens.0), suit_of_token(tokens.1)) {
                (Err(c), _) => Err(c),
                (Ok(_), Err(c)) => Err(c),
                (Ok(value), Ok(suit)) => Ok(Card { suit, value }),
            },
    {
        let value = match Value::try_from(tokens.0) {
            Ok(v) => v,
            Err(c) => return Err(c),
        };
        let suit = match Suit::try_from(tokens.1) {
            Ok(s) => s,
            Err(c) => return Err(c),
        };
        Ok(Card { suit, value })
    }
}

} // verus!
