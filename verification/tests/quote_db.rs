use english_quotes::category::{all_categories, to_category_set, to_selection, Category};
use english_quotes::codec::{load_db, save_db};
use english_quotes::db::{
    add_quote, filter_by_categories, remove_quote, search_quotes, sort_list,
};
use english_quotes::exporter::export_string;
use english_quotes::quote::Quote;
use english_quotes::shell::{submit_entry, trim_str, CurrentAppState};

fn quote(text: &str, cats: &[Category]) -> Quote {
    Quote { text: String::from(text), categories: cats.to_vec() }
}

fn sample_db() -> Vec<Quote> {
    vec![
        quote("Be yourself", &[Category::Wisdom]),
        quote("Carpe diem", &[Category::Motivation]),
    ]
}

#[test]
fn category_list_is_fixed_and_ordered() {
    let all = all_categories();
    assert_eq!(all.len(), 4);
    assert_eq!(all[0], Category::Wisdom);
    assert_eq!(all[1], Category::Motivation);
    assert_eq!(all[2], Category::Humour);
    assert_eq!(all[3], Category::Love);
}

#[test]
fn selection_round_trip() {
    let cats = vec![Category::Wisdom, Category::Humour];
    let sel = to_selection(&cats);
    assert_eq!(sel, vec![true, false, true, false]);
    let back = to_category_set(&sel).expect("selection has one slot per category");
    assert_eq!(back, cats);
}

#[test]
fn selection_round_trip_empty_and_full() {
    let empty: Vec<Category> = vec![];
    assert_eq!(to_category_set(&to_selection(&empty)).unwrap(), empty);
    let full = all_categories();
    assert_eq!(to_category_set(&to_selection(&full)).unwrap(), full);
}

#[test]
fn selection_of_wrong_length_is_rejected() {
    assert!(to_category_set(&vec![true, false, true]).is_none());
    assert!(to_category_set(&vec![]).is_none());
    assert!(to_category_set(&vec![true; 5]).is_none());
}

#[test]
fn filter_with_no_categories_yields_nothing() {
    let db = sample_db();
    let none = filter_by_categories(&db, &vec![]);
    assert!(none.is_empty());
}

#[test]
fn filter_by_category_keeps_matches_in_order() {
    let db = sample_db();
    let wisdom = filter_by_categories(&db, &vec![Category::Wisdom]);
    assert_eq!(wisdom, vec![quote("Be yourself", &[Category::Wisdom])]);
    let both = filter_by_categories(&db, &vec![Category::Wisdom, Category::Motivation]);
    assert_eq!(both, db);
}

#[test]
fn quote_without_categories_is_excluded_from_filtered_views() {
    let mut db = sample_db();
    db.push(quote("untagged", &[]));
    let all = filter_by_categories(&db, &all_categories());
    assert_eq!(all, sample_db());
}

#[test]
fn search_with_empty_term_yields_whole_collection() {
    let db = sample_db();
    let found = search_quotes(&db, "");
    assert_eq!(found, db);
}

#[test]
fn search_finds_substring_matches_in_order() {
    let db = sample_db();
    let found = search_quotes(&db, "diem");
    assert_eq!(found, vec![quote("Carpe diem", &[Category::Motivation])]);
    let none = search_quotes(&db, "DIEM");
    assert!(none.is_empty());
}

#[test]
fn sort_is_idempotent() {
    let mut db = vec![
        quote("b", &[Category::Love]),
        quote("a", &[Category::Wisdom]),
        quote("b", &[Category::Humour]),
        quote("a", &[Category::Wisdom]),
    ];
    sort_list(&mut db);
    let once = db.clone();
    sort_list(&mut db);
    assert_eq!(db, once);
}

#[test]
fn sort_orders_by_text_then_categories() {
    let mut db = vec![
        quote("b", &[Category::Wisdom]),
        quote("a", &[Category::Motivation]),
        quote("a", &[Category::Wisdom]),
    ];
    sort_list(&mut db);
    assert_eq!(
        db,
        vec![
            quote("a", &[Category::Wisdom]),
            quote("a", &[Category::Motivation]),
            quote("b", &[Category::Wisdom]),
        ]
    );
}

#[test]
fn adding_a_quote_twice_collapses_at_sort() {
    // Duplicates are kept by add and collapsed by the sort pass.
    let mut db = Vec::new();
    add_quote(&mut db, quote("Be yourself", &[Category::Wisdom]));
    add_quote(&mut db, quote("Be yourself", &[Category::Wisdom]));
    assert_eq!(db.len(), 2);
    sort_list(&mut db);
    assert_eq!(db, vec![quote("Be yourself", &[Category::Wisdom])]);
}

#[test]
fn remove_takes_first_structural_match_only() {
    let mut db = vec![
        quote("a", &[Category::Wisdom]),
        quote("a", &[Category::Wisdom]),
        quote("b", &[Category::Love]),
    ];
    let found = remove_quote(&mut db, &quote("a", &[Category::Wisdom]));
    assert!(found);
    assert_eq!(db, vec![quote("a", &[Category::Wisdom]), quote("b", &[Category::Love])]);
}

#[test]
fn remove_of_missing_quote_is_a_silent_noop() {
    let mut db = sample_db();
    let found = remove_quote(&mut db, &quote("absent", &[]));
    assert!(!found);
    assert_eq!(db, sample_db());
    // same text, different categories: no structural match
    let found = remove_quote(&mut db, &quote("Be yourself", &[Category::Love]));
    assert!(!found);
    assert_eq!(db, sample_db());
}

#[test]
fn scenario_filter_search_remove_sort() {
    let mut db = sample_db();
    let wisdom = filter_by_categories(&db, &vec![Category::Wisdom]);
    assert_eq!(wisdom, vec![quote("Be yourself", &[Category::Wisdom])]);
    let found = search_quotes(&db, "diem");
    assert_eq!(found, vec![quote("Carpe diem", &[Category::Motivation])]);
    assert!(remove_quote(&mut db, &quote("Be yourself", &[Category::Wisdom])));
    sort_list(&mut db);
    assert_eq!(db, vec![quote("Carpe diem", &[Category::Motivation])]);
}

#[test]
fn save_then_load_round_trips_the_sorted_collection() {
    let mut db = Vec::new();
    add_quote(&mut db, quote("Carpe diem", &[Category::Motivation]));
    add_quote(&mut db, quote("Be yourself", &[Category::Wisdom]));
    add_quote(&mut db, quote("Be yourself", &[Category::Wisdom]));
    sort_list(&mut db);
    let saved = save_db(&db);
    let loaded = load_db(saved.as_str()).expect("a saved collection loads back");
    assert_eq!(loaded, db);
}

#[test]
fn save_escapes_newlines_and_backslashes() {
    let db = vec![quote("a\nb\\c", &[Category::Wisdom])];
    let saved = save_db(&db);
    assert_eq!(saved, "1000a\\nb\\\\c\n");
    let loaded = load_db(saved.as_str()).unwrap();
    assert_eq!(loaded, db);
}

#[test]
fn save_of_empty_collection_is_empty_and_loads_back() {
    let db: Vec<Quote> = Vec::new();
    let saved = save_db(&db);
    assert_eq!(saved, "");
    assert_eq!(load_db("").unwrap(), db);
}

#[test]
fn malformed_input_is_rejected_on_load() {
    assert!(load_db("xx01a\n").is_none()); // bad selection bits
    assert!(load_db("1000abc").is_none()); // unterminated line
    assert!(load_db("10").is_none()); // truncated selection
    assert!(load_db("1000a\\qb\n").is_none()); // unknown escape
}

#[test]
fn trim_strips_whitespace_at_both_ends() {
    assert_eq!(trim_str("  hi there \t\n"), "hi there");
    assert_eq!(trim_str("   \t "), "");
    assert_eq!(trim_str("no-trim"), "no-trim");
}

#[test]
fn submit_entry_trims_adds_and_sorts() {
    let mut db = vec![quote("b", &[Category::Love])];
    let added = submit_entry(&mut db, "  a  ", &vec![true, false, false, false]);
    assert!(added);
    assert_eq!(db, vec![quote("a", &[Category::Wisdom]), quote("b", &[Category::Love])]);
}

#[test]
fn submit_entry_rejects_blank_text_and_bad_selection() {
    let mut db = sample_db();
    assert!(!submit_entry(&mut db, "   ", &vec![true, false, false, false]));
    assert_eq!(db, sample_db());
    assert!(!submit_entry(&mut db, "fine", &vec![true, false]));
    assert_eq!(db, sample_db());
}

#[test]
fn edit_quote_primes_the_entry_screen() {
    let mut db = sample_db();
    let q = quote("Be yourself", &[Category::Wisdom]);
    let (state, sel) = english_quotes::shell::edit_quote(&mut db, &q);
    assert_eq!(state, CurrentAppState::QuoteEntry { current_text: String::from("Be yourself") });
    assert_eq!(sel, vec![true, false, false, false]);
    assert_eq!(db, vec![quote("Carpe diem", &[Category::Motivation])]);
}

#[test]
fn export_renders_texts_with_category_names() {
    let db = vec![
        quote("Be yourself", &[Category::Wisdom, Category::Love]),
        quote("Carpe diem", &[Category::Motivation]),
    ];
    let out = export_string(&db);
    assert_eq!(out, "Be yourself [Wisdom, Love]\nCarpe diem [Motivation]\n");
    // repeated export of the same collection is identical
    assert_eq!(export_string(&db), out);
}

#[test]
fn quote_equality_is_structural() {
    let a = quote("x", &[Category::Wisdom]);
    let b = quote("x", &[Category::Wisdom]);
    let c = quote("x", &[Category::Love]);
    let d = quote("y", &[Category::Wisdom]);
    assert_eq!(a, b);
    assert_ne!(a, c);
    assert_ne!(a, d);
}
