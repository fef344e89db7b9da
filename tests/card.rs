use poker_strategy::card::{Card, Suit, Value};

#[test]
fn full_deck_order() {
    let deck = Card::full_deck();
    assert_eq!(deck.len(), 52);
    assert_eq!(deck[0], Card { suit: Suit::Heart, value: Value::Two });
    assert_eq!(deck[12], Card { suit: Suit::Heart, value: Value::Ace });
    assert_eq!(deck[13], Card { suit: Suit::Spade, value: Value::Two });
    assert_eq!(deck[51], Card { suit: Suit::Diamond, value: Value::Ace });
    for i in 0..52 {
        for j in (i + 1)..52 {
            assert_ne!(deck[i], deck[j]);
        }
    }
}

#[test]
fn tokens_round_trip() {
    let values = "23456789TJQKA";
    for (i, c) in values.chars().enumerate() {
        let v = Value::try_from(c).unwrap();
        assert_eq!(v.index() as usize, i);
        assert_eq!(Value::from_index(i as u8), v);
    }
    assert_eq!(Value::try_from('1'), Err('1'));
    assert_eq!(Suit::try_from('♥'), Ok(Suit::Heart));
    assert_eq!(Suit::try_from('S'), Ok(Suit::Spade));
    assert_eq!(Suit::try_from('♣'), Ok(Suit::Club));
    assert_eq!(Suit::try_from('D'), Ok(Suit::Diamond));
    assert_eq!(Suit::try_from('x'), Err('x'));
}

#[test]
fn card_tokens() {
    assert_eq!(Card::try_from(('T', '♦')), Ok(Card { suit: Suit::Diamond, value: Value::Ten }));
    assert_eq!(Card::try_from(('X', 'Z')), Err('X'));
    assert_eq!(Card::try_from(('K', 'Z')), Err('Z'));
}
