use classical_cryptography::card_deck::Deck;

// checks whether the deck holds each of the cards 1..=54
fn is_proper_deck(deck: &Deck) -> bool {
    let layout = deck.layout();
    layout.len() == 54 && (1..=54).all(|n| layout.iter().filter(|&&c| c == n).count() == 1)
}

#[test]
fn test_keying() {
    let mut layouts: Vec<Vec<u32>> = Vec::new();
    let seeds = vec!["one", "two", "testing"];

    for s in seeds.iter() {
        let mut deck = Deck::new();
        deck.key_deck(s);

        assert!(is_proper_deck(&deck));

        layouts.push(deck.layout().clone());
    }

    for (s, l) in seeds.iter().zip(layouts) {
        let mut deck = Deck::new();
        deck.key_deck(s);

        assert_eq!(&l, deck.layout());
    }
}

#[test]
#[allow(non_snake_case)]
fn test_swap_A_joker() {
    let mut deck = Deck::new();

    deck.swap_cards(52, 53);
    assert_eq!(deck.layout()[53], 53);

    // joker A at bottom
    deck.swap_A_joker();
    assert_eq!(deck.layout()[0], 53);
    assert_eq!(deck.layout()[53], 1);

    // joker A at top
    deck.swap_A_joker();
    assert_eq!(deck.layout()[1], 53);
    assert_eq!(deck.layout()[0], 2);
}

#[test]
#[allow(non_snake_case)]
fn test_swap_B_joker() {
    let mut deck = Deck::new();

    // joker B at bottom
    deck.swap_B_joker();
    assert_eq!(deck.layout()[2], 54);
    assert_eq!(deck.layout()[53], 3);

    // joker B second to last
    deck.swap_cards(2, 52);
    assert_eq!(deck.layout()[52], 54);

    deck.swap_B_joker();
    assert_eq!(deck.layout()[1], 54);
    assert_eq!(deck.layout()[52], 2);

    // joker B at top
    deck.swap_B_joker();
    assert_eq!(deck.layout()[3], 54);
    assert_eq!(deck.layout()[1], 4);
}

#[test]
fn test_triple_cut_above_below() {
    let mut deck = Deck::new();
    let old_layout = deck.layout().clone();

    deck.swap_cards(3, 53);

    assert_eq!(deck.layout()[3], 54);
    assert_eq!(deck.layout()[53], 4);
    assert_eq!(deck.layout()[52], 53); // layout: [1, 2, 3, 54, 5, 6 ..., 53, 4]

    deck.triple_cut();

    assert_ne!(&old_layout, deck.layout());
    assert!(is_proper_deck(&deck));

    let expected: Vec<u32> = vec![
        4, 54, 5, 6, 7, 8, 9, 10, 11, 12, 13, 14, 15, 16, 17, 18, 19, 20, 21, 22, 23, 24, 25, 26,
        27, 28, 29, 30, 31, 32, 33, 34, 35, 36, 37, 38, 39, 40, 41, 42, 43, 44, 45, 46, 47, 48, 49,
        50, 51, 52, 53, 1, 2, 3,
    ];

    assert_eq!(&expected, deck.layout());
}

#[test]
fn test_triple_cut_single_above() {
    let mut deck = Deck::new();
    let old_layout = deck.layout().clone();

    deck.swap_cards(10, 53);
    deck.swap_cards(52, 53); // layout: [1, 2, 3 ..., 10, 54, 12, ..., 52, 11, 53]

    assert_eq!(deck.layout()[10], 54);
    assert_eq!(deck.layout()[52], 11);
    assert_eq!(deck.layout()[53], 53);

    deck.triple_cut();

    assert_ne!(&old_layout, deck.layout());
    assert!(is_proper_deck(&deck));

    let expected: Vec<u32> = vec![
        54, 12, 13, 14, 15, 16, 17, 18, 19, 20, 21, 22, 23, 24, 25, 26, 27, 28, 29, 30, 31, 32, 33,
        34, 35, 36, 37, 38, 39, 40, 41, 42, 43, 44, 45, 46, 47, 48, 49, 50, 51, 52, 11, 53, 1, 2, 3,
        4, 5, 6, 7, 8, 9, 10,
    ];

    assert_eq!(&expected, deck.layout());
}

#[test]
fn test_triple_cut_back_to_back_jokers() {
    let mut deck = Deck::new();
    let old_layout = deck.layout().clone();

    deck.swap_cards(17, 53);
    deck.swap_cards(18, 52); // layout: [1, 2, 3 ..., 17, 54, 53, ..., 52, 19, 18]

    assert_eq!(deck.layout()[17], 54);
    assert_eq!(deck.layout()[53], 18);
    assert_eq!(deck.layout()[18], 53);
    assert_eq!(deck.layout()[52], 19);

    deck.triple_cut();

    assert_ne!(&old_layout, deck.layout());
    assert!(is_proper_deck(&deck));

    let expected: Vec<u32> = vec![
        20, 21, 22, 23, 24, 25, 26, 27, 28, 29, 30, 31, 32, 33, 34, 35, 36, 37, 38, 39, 40, 41, 42,
        43, 44, 45, 46, 47, 48, 49, 50, 51, 52, 19, 18, 54, 53, 1, 2, 3, 4, 5, 6, 7, 8, 9, 10, 11,
        12, 13, 14, 15, 16, 17,
    ];

    assert_eq!(&expected, deck.layout());
}

#[test]
fn test_count_cut() {
    let mut deck = Deck::new();
    let old_layout = deck.layout().clone();

    deck.swap_cards(5, 53); // layout: [1, 2, 3, 4, 5, 54, 7, 8, ..., 53, 6]

    assert_eq!(deck.layout()[5], 54);
    assert_eq!(deck.layout()[53], 6);

    deck.count_cut();

    assert_ne!(&old_layout, deck.layout());
    assert!(is_proper_deck(&deck));

    let expected: Vec<u32> = vec![
        7, 8, 9, 10, 11, 12, 13, 14, 15, 16, 17, 18, 19, 20, 21, 22, 23, 24, 25, 26, 27, 28, 29, 30,
        31, 32, 33, 34, 35, 36, 37, 38, 39, 40, 41, 42, 43, 44, 45, 46, 47, 48, 49, 50, 51, 52, 53,
        1, 2, 3, 4, 5, 54, 6,
    ];

    assert_eq!(&expected, deck.layout());
}

#[test]
fn test_count_cut_joker_bottom() {
    let mut deck = Deck::new();

    // swap a bunch of cards but leave the jokers where they are
    deck.swap_cards(5, 7);
    deck.swap_cards(1, 19);
    deck.swap_cards(33, 49);

    let old_layout = deck.layout().clone();

    deck.count_cut();

    assert!(is_proper_deck(&deck));
    assert_eq!(deck.layout(), &old_layout);
}

#[test]
fn fresh_deck_is_in_order() {
    let deck = Deck::new();
    let expected: Vec<u32> = (1..=54).collect();
    assert_eq!(deck.layout(), &expected);
}

#[test]
fn keying_shuffles_the_deck() {
    let fresh = Deck::new();
    let mut one = Deck::new();
    one.key_deck("one");
    let mut two = Deck::new();
    two.key_deck("two");
    assert_ne!(fresh.layout(), one.layout());
    assert_ne!(one.layout(), two.layout());
}

#[test]
fn empty_seed_is_accepted() {
    let mut a = Deck::new();
    a.key_deck("");
    let mut b = Deck::new();
    b.key_deck("");
    assert!(is_proper_deck(&a));
    assert_eq!(a.layout(), b.layout());
}

#[test]
fn joker_b_in_the_middle_moves_two_down() {
    let mut deck = Deck::new();
    deck.swap_cards(10, 53); // 54 at index 10, 11 at the bottom
    deck.swap_B_joker();
    assert_eq!(deck.layout()[12], 54);
    assert_eq!(deck.layout()[10], 13);
    assert!(is_proper_deck(&deck));
}

#[test]
fn joker_a_in_the_middle_moves_one_down() {
    let mut deck = Deck::new();
    deck.swap_cards(52, 20); // 53 at index 20
    deck.swap_A_joker();
    assert_eq!(deck.layout()[21], 53);
    assert_eq!(deck.layout()[20], 22);
}

#[test]
fn find_first_joker_index_cases() {
    let deck = Deck::new();
    assert_eq!(Deck::find_first_joker_index(deck.layout()), 52);
    let mut other = Deck::new();
    other.swap_cards(53, 7);
    assert_eq!(Deck::find_first_joker_index(other.layout()), 7);
    let none: Vec<u32> = vec![1, 2, 3];
    assert_eq!(Deck::find_first_joker_index(&none), 0);
}

#[test]
fn keystream_step_of_fresh_deck() {
    // fresh deck: A goes to the bottom, B from second to last to index 1;
    // the triple cut gives [54, 3, ..., 52, 2, 53, 1] and the bottom 1 moves
    // the 54 down
    let mut deck = Deck::new();
    let v = deck.keystream_step();
    assert!(is_proper_deck(&deck));
    let mut expected: Vec<u32> = (3..=52).collect();
    expected.extend_from_slice(&[2, 53, 54, 1]);
    assert_eq!(deck.layout(), &expected);
    // top card 3 points at index 3
    assert_eq!(v, 6);
}

#[test]
fn keystream_values_are_letter_shifts() {
    for seed in ["one", "two", "testing", "", "cardgames"] {
        let mut deck = Deck::new();
        deck.key_deck(seed);
        for _ in 0..500 {
            let v = deck.get_output_card();
            assert!((1..=26).contains(&v));
            assert!(is_proper_deck(&deck));
        }
    }
}

#[test]
fn keystream_of_fresh_deck_reduces_the_card() {
    let mut deck = Deck::new();
    // the first draw of a fresh deck is card 6, not a joker
    assert_eq!(deck.get_output_card(), 6);
}

#[test]
fn keystream_skips_joker_draws() {
    let mut reference = Deck::new();
    reference.key_deck("testing");
    let mut stepped = reference.duplicate();
    for _ in 0..300 {
        let v = reference.get_output_card();
        let mut card = stepped.keystream_step();
        while card == 53 || card == 54 {
            card = stepped.keystream_step();
        }
        assert_eq!(v, (card - 1) % 26 + 1);
        assert_eq!(reference.layout(), stepped.layout());
    }
}
