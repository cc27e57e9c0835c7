use vanity_cockatrice::deck::Deck;

#[test]
fn import_reads_both_blocks() {
    let deck = Deck::import("4 Forest\n2 Mountain\n\n1 Abrade\n").unwrap();
    assert_eq!(deck.maindeck_count("Forest"), 4);
    assert_eq!(deck.maindeck_count("Mountain"), 2);
    assert_eq!(deck.maindeck_count("Abrade"), 0);
    assert_eq!(deck.sideboard_count("Abrade"), 1);
    assert_eq!(deck.sideboard_count("Forest"), 0);
    assert_eq!(deck.to_string(), "4 Forest\n2 Mountain\n\n1 Abrade\n");
}

#[test]
fn import_skips_leading_blank_lines() {
    let deck = Deck::import("\n  \n\t\n4 Forest\n\n2 Strangle\n").unwrap();
    assert_eq!(deck.to_string(), "4 Forest\n\n2 Strangle\n");
}

#[test]
fn import_of_empty_text_is_the_empty_deck() {
    let deck = Deck::import("").unwrap();
    assert_eq!(deck.to_string(), "\n");
    let deck = Deck::import("\n\n\n").unwrap();
    assert_eq!(deck.to_string(), "\n");
}

#[test]
fn import_without_a_sideboard() {
    let deck = Deck::import("4 Forest").unwrap();
    assert_eq!(deck.to_string(), "4 Forest\n\n");
    let deck = Deck::import("4 Forest\n\n").unwrap();
    assert_eq!(deck.to_string(), "4 Forest\n\n");
}

#[test]
fn import_sorts_by_name() {
    let deck = Deck::import("1 b\n2 a\n3 ab\n4 B\n\n1 z\n1 y\n").unwrap();
    assert_eq!(deck.to_string(), "4 B\n2 a\n3 ab\n1 b\n\n1 y\n1 z\n");
}

#[test]
fn import_keeps_the_last_count_of_a_name() {
    let deck = Deck::import("1 Forest\n3 Forest\n\n2 Abrade\n5 Abrade\n").unwrap();
    assert_eq!(deck.maindeck_count("Forest"), 3);
    assert_eq!(deck.sideboard_count("Abrade"), 5);
    assert_eq!(deck.to_string(), "3 Forest\n\n5 Abrade\n");
}

#[test]
fn import_takes_the_name_after_the_first_space() {
    let deck = Deck::import("4 Kumano Faces Kakkazan\n1  two spaces\n7 \n").unwrap();
    assert_eq!(deck.maindeck_count("Kumano Faces Kakkazan"), 4);
    assert_eq!(deck.maindeck_count(" two spaces"), 1);
    assert_eq!(deck.maindeck_count(""), 7);
}

#[test]
fn import_reads_carriage_returns_as_line_ends() {
    let deck = Deck::import("4 Forest\r\n\r\n2 Abrade\r\n").unwrap();
    assert_eq!(deck.maindeck_count("Forest"), 4);
    assert_eq!(deck.sideboard_count("Abrade"), 2);
    let deck = Deck::import("4 Forest\r").unwrap();
    assert_eq!(deck.maindeck_count("Forest\r"), 4);
    assert_eq!(deck.maindeck_count("Forest"), 0);
}

#[test]
fn import_does_not_read_past_the_second_block() {
    let deck = Deck::import("4 Forest\n\n2 Abrade\n\nthis is no entry\n").unwrap();
    assert_eq!(deck.to_string(), "4 Forest\n\n2 Abrade\n");
}

#[test]
fn import_accepts_a_plus_sign_and_leading_zeros() {
    let deck = Deck::import("+4 Forest\n007 Island\n").unwrap();
    assert_eq!(deck.maindeck_count("Forest"), 4);
    assert_eq!(deck.maindeck_count("Island"), 7);
}

#[test]
fn import_rejects_a_count_that_is_no_positive_number() {
    assert!(Deck::import("x Forest\n").is_none());
    assert!(Deck::import("0 Forest\n").is_none());
    assert!(Deck::import("000 Forest\n").is_none());
    assert!(Deck::import("-1 Forest\n").is_none());
    assert!(Deck::import("+ Forest\n").is_none());
    assert!(Deck::import("++1 Forest\n").is_none());
    assert!(Deck::import("4x Forest\n").is_none());
    assert!(Deck::import("1_0 Forest\n").is_none());
    assert!(Deck::import(" 4 Forest\n").is_none());
    assert!(Deck::import("4\tForest\n").is_none());
    assert!(Deck::import("4 Forest\n\n0 Abrade\n").is_none());
    assert!(Deck::import("4 Forest\n\nAbrade 1\n").is_none());
}

#[test]
fn import_rejects_a_line_without_a_name() {
    assert!(Deck::import("4\n").is_none());
    assert!(Deck::import("Forest\n").is_none());
    assert!(Deck::import("4 Forest\n\n2\n").is_none());
}

#[test]
fn import_rejects_a_count_that_does_not_fit() {
    let most = usize::MAX;
    let text = format!("1 Forest\n\n{} Abrade\n", most);
    let deck = Deck::import(&text).unwrap();
    assert_eq!(deck.sideboard_count("Abrade"), most);
    let text = format!("1 Forest\n\n{}0 Abrade\n", most);
    assert!(Deck::import(&text).is_none());
    let text = format!("1 Forest\n\n{} Abrade\n", most as u128 + 1);
    assert!(Deck::import(&text).is_none());
    assert!(Deck::import("99999999999999999999999999999999999999 Forest\n").is_none());
    assert!(Deck::import("00000000000000000000000000000000000001 Forest\n").is_some());
}

#[test]
fn blank_lines_are_those_of_white_space() {
    for code in 0..=0x10ffffu32 {
        let c = match char::from_u32(code) {
            Some(c) => c,
            None => continue,
        };
        if c == '\n' {
            continue;
        }
        let text = format!("1 a\n{}{}\n1 b\n", c, c);
        match Deck::import(&text) {
            Some(deck) => {
                assert!(c.is_whitespace(), "U+{:04X} was read as white space", code);
                assert_eq!(deck.maindeck_count("a"), 1);
                assert_eq!(deck.sideboard_count("b"), 1);
            }
            None => assert!(!c.is_whitespace(), "U+{:04X} was not read as white space", code),
        }
    }
}

#[test]
fn names_keep_their_characters() {
    let deck = Deck::import("2 Lim-Dûl's Vault\n1 Ætherling\n\n3 霊気\n").unwrap();
    assert_eq!(deck.maindeck_count("Lim-Dûl's Vault"), 2);
    assert_eq!(deck.maindeck_count("Ætherling"), 1);
    assert_eq!(deck.sideboard_count("霊気"), 3);
    assert_eq!(deck.to_string(), "2 Lim-Dûl's Vault\n1 Ætherling\n\n3 霊気\n");
}

#[test]
fn a_deck_written_and_read_again_is_the_same() {
    let text = "4 Evolving Adaptive\n6 Forest\n1 Migloz, Maze Crusher\n12 Mountain\n\n\
                3 Abrade\n1 Chandra, Dressed to Kill\n2 Strangle\n";
    let deck = Deck::import(text).unwrap();
    let written = deck.to_string();
    assert_eq!(written, text);
    let again = Deck::import(&written).unwrap();
    assert_eq!(again.to_string(), written);
    for card in ["Evolving Adaptive", "Forest", "Migloz, Maze Crusher", "Mountain", "Abrade", "Strangle"] {
        assert_eq!(again.maindeck_count(card), deck.maindeck_count(card));
        assert_eq!(again.sideboard_count(card), deck.sideboard_count(card));
    }
}

#[test]
fn a_sideboard_alone_is_read_as_the_maindeck() {
    let mut deck = Deck::default();
    deck.insert_sideboard("Abrade");
    let written = deck.to_string();
    assert_eq!(written, "\n1 Abrade\n");
    let again = Deck::import(&written).unwrap();
    assert_eq!(again.maindeck_count("Abrade"), 1);
    assert_eq!(again.sideboard_count("Abrade"), 0);
}

#[test]
fn a_name_with_a_line_feed_is_not_read_again() {
    let mut deck = Deck::import("4 Forest\n").unwrap();
    deck.insert_sideboard("two\n1 lines");
    let written = deck.to_string();
    let again = Deck::import(&written).unwrap();
    assert_eq!(again.sideboard_count("two\n1 lines"), 0);
    assert_eq!(again.sideboard_count("two"), 1);
}

#[test]
fn the_default_deck_is_empty() {
    let deck = Deck::default();
    assert_eq!(deck.to_string(), "\n");
    assert_eq!(deck.maindeck_count("Forest"), 0);
    assert_eq!(deck.sideboard_count("Forest"), 0);
}

#[test]
fn insert_adds_one_unit() {
    let mut deck = Deck::import("4 Forest\n\n2 Strangle\n").unwrap();
    deck.insert_sideboard("Abrade");
    assert_eq!(deck.sideboard_count("Abrade"), 1);
    assert_eq!(deck.sideboard_count("Strangle"), 2);
    deck.insert_sideboard("Strangle");
    assert_eq!(deck.sideboard_count("Strangle"), 3);
    deck.insert_sideboard("Zap");
    deck.insert_sideboard("Rending Flame");
    assert_eq!(deck.to_string(), "4 Forest\n\n1 Abrade\n1 Rending Flame\n3 Strangle\n1 Zap\n");
    assert_eq!(deck.maindeck_count("Forest"), 4);
}

#[test]
fn remove_takes_one_unit_and_the_last_takes_the_card() {
    let mut deck = Deck::import("4 Forest\n\n1 Abrade\n2 Strangle\n").unwrap();
    deck.remove_sideboard("Strangle");
    assert_eq!(deck.sideboard_count("Strangle"), 1);
    assert_eq!(deck.to_string(), "4 Forest\n\n1 Abrade\n1 Strangle\n");
    deck.remove_sideboard("Strangle");
    assert_eq!(deck.sideboard_count("Strangle"), 0);
    assert_eq!(deck.to_string(), "4 Forest\n\n1 Abrade\n");
    deck.remove_sideboard("Abrade");
    assert_eq!(deck.to_string(), "4 Forest\n\n");
}

#[test]
fn insert_then_remove_restores_the_sideboard() {
    let text = "4 Forest\n\n1 Abrade\n2 Strangle\n";
    for card in ["Abrade", "Strangle", "Aaa", "Island", "Zap", ""] {
        let mut deck = Deck::import(text).unwrap();
        let mut buffer = String::new();
        let before = deck.base32(&mut buffer);
        deck.insert_sideboard(card);
        assert_ne!(deck.to_string(), text);
        deck.remove_sideboard(card);
        assert_eq!(deck.to_string(), text);
        assert_eq!(deck.base32(&mut buffer), before);
    }
}

#[test]
fn a_clone_has_a_sideboard_of_its_own() {
    let deck = Deck::import("4 Forest\n\n1 Abrade\n").unwrap();
    let mut other = deck.clone();
    other.insert_sideboard("Zap");
    other.remove_sideboard("Abrade");
    assert_eq!(deck.to_string(), "4 Forest\n\n1 Abrade\n");
    assert_eq!(other.to_string(), "4 Forest\n\n1 Zap\n");
    let mut buffer = String::new();
    assert_eq!(deck.clone().base32(&mut buffer), deck.base32(&mut buffer));
}

#[test]
fn removed_gives_one_deck_for_each_card() {
    let deck = Deck::import("4 Forest\n\n1 Abrade\n3 Rending Flame\n2 Strangle\n").unwrap();
    let decks = deck.clone().removed();
    let texts: Vec<String> = decks.iter().map(|d| d.to_string()).collect();
    assert_eq!(
        texts,
        vec![
            "4 Forest\n\n3 Rending Flame\n2 Strangle\n",
            "4 Forest\n\n1 Abrade\n2 Rending Flame\n2 Strangle\n",
            "4 Forest\n\n1 Abrade\n3 Rending Flame\n1 Strangle\n",
        ]
    );
    let same: Vec<String> = deck.enumerate_reductions().iter().map(|d| d.to_string()).collect();
    assert_eq!(same, texts);
    assert!(Deck::import("4 Forest\n").unwrap().removed().is_empty());
}

#[test]
fn golden_fixture() {
    let deck = Deck::import("4 Forest\n").unwrap();
    let mut buffer = String::new();
    assert_eq!(&deck.base32(&mut buffer), b"el4621a3");
}

#[test]
fn base32_of_known_decks() {
    let mut buffer = String::new();
    let deck = Deck::import("4 forest\n").unwrap();
    assert_eq!(&deck.base32(&mut buffer), b"ofjq3sa4");
    let mut deck = Deck::import("4 Forest\n2 Mountain\n\n1 Abrade\n2 Strangle\n").unwrap();
    assert_eq!(&deck.base32(&mut buffer), b"4tt5uf71");
    deck.insert_sideboard("Island");
    assert_eq!(&deck.base32(&mut buffer), b"b3qkckic");
    deck.remove_sideboard("Island");
    deck.insert_sideboard("Strangle");
    assert_eq!(&deck.base32(&mut buffer), b"os2jhnn0");
}

#[test]
fn base32_hashes_the_sideboard_in_the_order_of_the_names() {
    let mut buffer = String::new();
    let mut one = Deck::import("4 Forest\n2 Mountain\n\n").unwrap();
    one.insert_sideboard("Strangle");
    one.insert_sideboard("Abrade");
    one.insert_sideboard("Strangle");
    let mut other = Deck::import("2 Mountain\n4 Forest\n\n").unwrap();
    other.insert_sideboard("Abrade");
    other.insert_sideboard("Strangle");
    other.insert_sideboard("Strangle");
    assert_eq!(one.base32(&mut buffer), other.base32(&mut buffer));
    assert_eq!(&one.base32(&mut buffer), b"4tt5uf71");
}

#[test]
fn base32_is_the_same_each_time() {
    let deck = Deck::import("4 Forest\n2 Mountain\n\n1 Abrade\n2 Strangle\n").unwrap();
    let mut buffer = String::from("scratch");
    let first = deck.base32(&mut buffer);
    let second = deck.base32(&mut buffer);
    assert_eq!(first, second);
    let again = Deck::import("4 Forest\n2 Mountain\n\n1 Abrade\n2 Strangle\n").unwrap();
    let mut same = String::from("scratch");
    assert_eq!(again.base32(&mut same), first);
}

#[test]
fn base32_reads_the_scratch_buffer_and_leaves_it() {
    let deck = Deck::import("4 Forest\n\n1 Abrade\n").unwrap();
    let mut empty = String::new();
    let mut buffer = String::from("x");
    let with = deck.base32(&mut buffer);
    assert_eq!(buffer, "x");
    assert_ne!(with, deck.base32(&mut empty));
    assert_eq!(empty, "");
    // SB:Abrade; then x then Forest;Forest;Forest;Forest
    assert_eq!(&with, b"9g518s90");
}

#[test]
fn base32_stays_in_the_alphabet() {
    let mut deck = Deck::import("4 Forest\n\n").unwrap();
    let mut buffer = String::new();
    let names: Vec<String> = (0..200).map(|i| format!("card {}", i)).collect();
    for name in names.iter() {
        deck.insert_sideboard(name);
        for b in deck.base32(&mut buffer) {
            assert!(matches!(b, b'0'..=b'9' | b'a'..=b'v'));
        }
    }
}
