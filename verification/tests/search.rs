use vanity_cockatrice::deck::Deck;
use vanity_cockatrice::search::{candidate_pool, scan_candidate, search, try_candidate, vanity_search};

const BASE: &str = "4 Forest\n2 Mountain\n\n1 Abrade\n2 Strangle\n";

#[test]
fn search_finds_the_card_that_gives_the_prefix() {
    // with one Island more the symbols are b3qkckic
    let base = Deck::import(BASE).unwrap();
    let pool = ["Island", "Swamp", "Plains"];
    let found = search(vec![base], &pool, b"b3q").unwrap();
    assert_eq!(found.sideboard_count("Island"), 1);
    assert_eq!(found.sideboard_count("Swamp"), 0);
    assert_eq!(found.sideboard_count("Plains"), 0);
    assert_eq!(found.to_string(), "4 Forest\n2 Mountain\n\n1 Abrade\n1 Island\n2 Strangle\n");
    let mut buffer = String::new();
    assert_eq!(&found.base32(&mut buffer), b"b3qkckic");
}

#[test]
fn search_finds_a_card_that_is_not_the_first() {
    // with one Plains more the symbols are r7dddo6l
    let base = Deck::import(BASE).unwrap();
    let pool = ["Island", "Swamp", "Plains", "Zap"];
    let found = search(vec![base], &pool, b"r7dddo6l").unwrap();
    assert_eq!(found.to_string(), "4 Forest\n2 Mountain\n\n1 Abrade\n1 Plains\n2 Strangle\n");
}

#[test]
fn search_adds_to_a_card_that_is_there() {
    // with one Strangle more the symbols are os2jhnn0
    let base = Deck::import(BASE).unwrap();
    let pool = ["Island", "Strangle"];
    let found = search(vec![base], &pool, b"os").unwrap();
    assert_eq!(found.sideboard_count("Strangle"), 3);
    assert_eq!(found.sideboard_count("Island"), 0);
}

#[test]
fn search_with_the_empty_prefix_takes_the_first_card() {
    let base = Deck::import(BASE).unwrap();
    let pool = ["Swamp", "Island"];
    let found = search(vec![base], &pool, b"").unwrap();
    assert_eq!(found.sideboard_count("Swamp"), 1);
    assert_eq!(found.sideboard_count("Island"), 0);
}

#[test]
fn search_among_many_candidates() {
    let mut candidates = Vec::new();
    for n in 1..200 {
        let text = format!("{} Forest\n2 Mountain\n\n1 Abrade\n2 Strangle\n", n);
        candidates.push(text);
    }
    let decks: Vec<Deck> = candidates.iter().map(|text| Deck::import(text).unwrap()).collect();
    let pool = ["Island", "Swamp", "Plains"];
    let found = search(decks, &pool, b"b3qkckic").unwrap();
    assert_eq!(found.maindeck_count("Forest"), 4);
    assert_eq!(found.sideboard_count("Island"), 1);
}

#[test]
fn search_reports_that_nothing_was_found() {
    let base = Deck::import(BASE).unwrap();
    let pool = ["Island", "Swamp", "Plains"];
    assert!(search(vec![base.clone()], &pool, b"00000000").is_none());
    assert!(search(vec![base.clone()], &[], b"").is_none());
    assert!(search(Vec::new(), &pool, b"").is_none());
    assert!(search(vec![base], &pool, b"b3r").is_none());
}

#[test]
fn search_never_matches_a_prefix_that_is_too_long() {
    let base = Deck::import(BASE).unwrap();
    let pool = ["Island", "Swamp", "Plains"];
    assert!(search(vec![base.clone()], &pool, b"b3qkckic").is_some());
    assert!(search(vec![base.clone()], &pool, b"b3qkckic0").is_none());
    assert!(search(vec![base], &pool, b"b3qkckicb3qkckic").is_none());
}

#[test]
fn search_never_matches_a_prefix_outside_the_alphabet() {
    let base = Deck::import(BASE).unwrap();
    let pool = ["Island", "Swamp", "Plains"];
    assert!(search(vec![base.clone()], &pool, b"w").is_none());
    assert!(search(vec![base.clone()], &pool, b"B3Q").is_none());
    assert!(search(vec![base.clone()], &pool, b"b3q ").is_none());
    assert!(search(vec![base.clone()], &pool, b"b3z").is_none());
    assert!(search(vec![base], &pool, &[0xff]).is_none());
}

#[test]
fn scan_keeps_the_unit_that_hits() {
    let mut deck = Deck::import(BASE).unwrap();
    let pool = ["Island", "Swamp", "Plains"];
    assert_eq!(scan_candidate(&mut deck, &pool, b"8c7"), Some(1));
    assert_eq!(deck.to_string(), "4 Forest\n2 Mountain\n\n1 Abrade\n2 Strangle\n1 Swamp\n");
}

#[test]
fn scan_leaves_the_deck_as_it_was_where_nothing_hits() {
    let mut deck = Deck::import(BASE).unwrap();
    let pool = ["Island", "Swamp", "Plains", "Abrade", "Strangle"];
    assert_eq!(scan_candidate(&mut deck, &pool, b"vvvvv"), None);
    assert_eq!(deck.to_string(), BASE);
}

#[test]
fn try_candidate_gives_the_deck_with_the_unit() {
    let deck = Deck::import(BASE).unwrap();
    let pool = ["Island", "Swamp", "Plains"];
    let found = try_candidate(deck.clone(), &pool, b"r7").unwrap();
    assert_eq!(found.sideboard_count("Plains"), 1);
    assert!(try_candidate(deck, &pool, b"r8").is_none());
}

#[test]
fn candidates_drop_two_units_and_add_one() {
    let deck = Deck::import("4 Forest\n\n1 Abrade\n2 Strangle\n").unwrap();
    let pool = ["Zap", "Abrade"];
    let candidates = candidate_pool(deck, &pool);
    let texts: Vec<String> = candidates.iter().map(|d| d.to_string()).collect();
    assert_eq!(
        texts,
        vec![
            // Abrade dropped, then Strangle
            "4 Forest\n\n1 Strangle\n1 Zap\n",
            "4 Forest\n\n1 Abrade\n1 Strangle\n",
            // Strangle dropped, then Abrade
            "4 Forest\n\n1 Strangle\n1 Zap\n",
            "4 Forest\n\n1 Abrade\n1 Strangle\n",
            // Strangle dropped twice
            "4 Forest\n\n1 Abrade\n1 Zap\n",
            "4 Forest\n\n2 Abrade\n",
        ]
    );
}

#[test]
fn candidates_of_small_sideboards() {
    let pool = ["Zap", "Abrade", "Island"];
    assert!(candidate_pool(Deck::import("4 Forest\n").unwrap(), &pool).is_empty());
    assert!(candidate_pool(Deck::import("4 Forest\n\n1 Abrade\n").unwrap(), &pool).is_empty());
    let two = candidate_pool(Deck::import("4 Forest\n\n2 Abrade\n").unwrap(), &pool);
    let texts: Vec<String> = two.iter().map(|d| d.to_string()).collect();
    assert_eq!(texts, vec!["4 Forest\n\n1 Zap\n", "4 Forest\n\n1 Abrade\n", "4 Forest\n\n1 Island\n"]);
    assert!(candidate_pool(Deck::import("4 Forest\n\n2 Abrade\n").unwrap(), &[]).is_empty());
}

#[test]
fn candidates_grow_with_the_square_of_the_sideboard() {
    let deck = Deck::import("4 Forest\n\n2 a\n2 b\n2 c\n2 d\n2 e\n").unwrap();
    let pool = ["x", "y", "z"];
    assert_eq!(candidate_pool(deck, &pool).len(), 5 * 5 * 3);
    let deck = Deck::import("4 Forest\n\n1 a\n1 b\n1 c\n1 d\n1 e\n").unwrap();
    assert_eq!(candidate_pool(deck, &pool).len(), 5 * 4 * 3);
}

#[test]
fn search_over_the_candidates_of_a_deck() {
    // Strangle dropped twice and Zap added gives "1 Abrade, 1 Zap"; the search then adds a card
    let deck = Deck::import("4 Forest\n\n1 Abrade\n2 Strangle\n").unwrap();
    let pool = ["Zap", "Abrade"];
    let candidates = candidate_pool(deck, &pool);
    let mut expected = Deck::import("4 Forest\n\n1 Abrade\n2 Zap\n").unwrap();
    let mut buffer = String::new();
    let symbols = expected.base32(&mut buffer);
    let found = search(candidates, &pool, &symbols).unwrap();
    assert_eq!(found.base32(&mut buffer), symbols);
    assert_eq!(found.maindeck_count("Forest"), 4);
    expected.insert_sideboard("Zap");
    assert_ne!(expected.base32(&mut buffer), symbols);
}

#[test]
fn vanity_search_expands_and_searches() {
    let deck = Deck::import("4 Forest\n\n1 Abrade\n2 Strangle\n").unwrap();
    let pool = ["Zap", "Abrade"];
    let mut buffer = String::new();
    let symbols = Deck::import("4 Forest\n\n1 Abrade\n1 Strangle\n1 Zap\n").unwrap().base32(&mut buffer);
    let found = vanity_search(deck.clone(), &pool, &symbols).unwrap();
    assert_eq!(found.to_string(), "4 Forest\n\n1 Abrade\n1 Strangle\n1 Zap\n");
    assert!(vanity_search(deck.clone(), &pool, b"vvvvvvvv").is_none());
    assert!(vanity_search(deck.clone(), &pool, b"el4621a3x").is_none());
    assert!(vanity_search(deck.clone(), &pool, b"EL").is_none());
    assert!(vanity_search(deck, &[], b"").is_none());
}

#[test]
fn vanity_search_of_a_deck_without_a_sideboard_finds_nothing() {
    let deck = Deck::import("4 Forest\n").unwrap();
    assert!(vanity_search(deck, &["Zap"], b"").is_none());
}
