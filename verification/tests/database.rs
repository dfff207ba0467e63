use xkcd_search::comic::XkcdComic;
use xkcd_search::database::load_comics;
use xkcd_search::database::load_comics_with_no_terms;
use xkcd_search::database::load_entries;
use xkcd_search::database::save_comic;
use xkcd_search::database::save_entries;
use xkcd_search::database::Database;
use xkcd_search::database::DatabaseError;
use xkcd_search::terms::TermCount;
use xkcd_search::terms::TermCounts;

fn stored_comic(num: u32, title: &str) -> XkcdComic {
    XkcdComic {
        month: "4".to_string(),
        num,
        link: "link".to_string(),
        year: "2012".to_string(),
        news: "news".to_string(),
        safe_title: title.to_string(),
        transcript: "transcript".to_string(),
        alt: "alt".to_string(),
        img: "img".to_string(),
        title: title.to_string(),
        day: "17".to_string(),
    }
}

fn counts_of(pairs: &[(&str, u64)]) -> TermCounts {
    let mut entries = Vec::new();
    for (term, frequency) in pairs {
        entries.push(TermCount { term: term.to_string(), frequency: *frequency });
    }
    TermCounts { entries }
}

fn listing(counts: &TermCounts) -> Vec<(String, u64)> {
    let mut out = Vec::new();
    for entry in counts.entries.iter() {
        out.push((entry.term.clone(), entry.frequency));
    }
    out
}

fn numbers(comics: &[XkcdComic]) -> Vec<u32> {
    let mut out = Vec::new();
    for comic in comics {
        out.push(comic.num);
    }
    out
}

fn detail_of_save_error(result: Result<(), DatabaseError>) -> String {
    match result {
        Err(DatabaseError::SaveEntryError(detail)) => detail,
        other => panic!("unexpected result {:?}", other),
    }
}

#[test]
fn new_database_is_empty() {
    let db = Database::new();
    assert_eq!(db.comic_count(), 0);
    assert!(!db.has_comic(1));
    assert!(!db.has_terms(1));
    assert!(load_comics(&db).is_empty());
    assert!(load_comics_with_no_terms(&db).is_empty());
}

#[test]
fn save_comic_keeps_every_field() {
    let mut db = Database::new();
    assert!(save_comic(&mut db, &stored_comic(5, "Blown apart")));
    let comics = load_comics(&db);
    assert_eq!(comics.len(), 1);
    assert_eq!(comics[0].num, 5);
    assert_eq!(comics[0].title, "Blown apart");
    assert_eq!(comics[0].safe_title, "Blown apart");
    assert_eq!(comics[0].month, "4");
    assert_eq!(comics[0].day, "17");
    assert_eq!(comics[0].year, "2012");
    assert_eq!(comics[0].link, "link");
    assert_eq!(comics[0].news, "news");
    assert_eq!(comics[0].transcript, "transcript");
    assert_eq!(comics[0].alt, "alt");
    assert_eq!(comics[0].img, "img");
}

#[test]
fn save_comic_refuses_a_number_that_is_held() {
    let mut db = Database::new();
    assert!(save_comic(&mut db, &stored_comic(5, "first")));
    assert!(!save_comic(&mut db, &stored_comic(5, "second")));
    assert_eq!(db.comic_count(), 1);
    assert_eq!(load_comics(&db)[0].title, "first");
}

#[test]
fn load_comics_keeps_the_order_of_saving() {
    let mut db = Database::new();
    for num in [3, 1, 2] {
        assert!(save_comic(&mut db, &stored_comic(num, "t")));
    }
    assert_eq!(numbers(&load_comics(&db)), vec![3, 1, 2]);
    assert!(db.has_comic(1) && db.has_comic(2) && db.has_comic(3));
    assert!(!db.has_comic(4));
    assert_eq!(db.comic_count(), 3);
}

#[test]
fn save_entries_saves_one_posting_for_each_term() {
    let mut db = Database::new();
    save_comic(&mut db, &stored_comic(7, "t"));
    let terms = counts_of(&[("alpha", 2), ("beta", 1), ("gamma", 5)]);
    assert!(save_entries(&mut db, 7, &terms).is_ok());
    assert!(db.has_terms(7));
    assert!(db.has_entry(7, "alpha"));
    assert!(db.has_entry(7, "gamma"));
    assert!(!db.has_entry(7, "delta"));
    assert!(!db.has_entry(8, "alpha"));
    let held = load_entries(&db, 7);
    assert_eq!(
        listing(&held),
        vec![("alpha".to_string(), 2), ("beta".to_string(), 1), ("gamma".to_string(), 5)]
    );
    assert_eq!(held.get("gamma"), Some(5));
}

#[test]
fn save_entries_refuses_no_entries() {
    let mut db = Database::new();
    save_comic(&mut db, &stored_comic(7, "t"));
    let result = save_entries(&mut db, 7, &TermCounts::new());
    assert_eq!(detail_of_save_error(result), "No entries provided");
    assert!(!db.has_terms(7));
}

#[test]
fn save_entries_is_all_or_nothing_when_the_second_of_three_fails() {
    let mut db = Database::new();
    save_comic(&mut db, &stored_comic(7, "t"));
    let terms = counts_of(&[("alpha", 1), ("beta", 0), ("gamma", 1)]);
    let result = save_entries(&mut db, 7, &terms);
    assert_eq!(detail_of_save_error(result), "Failed to save entry");
    assert!(!db.has_terms(7));
    assert!(!db.has_entry(7, "alpha"));
    assert!(load_entries(&db, 7).is_empty());
}

#[test]
fn save_entries_refuses_a_term_that_stands_twice() {
    let mut db = Database::new();
    save_comic(&mut db, &stored_comic(7, "t"));
    let terms = counts_of(&[("alpha", 1), ("beta", 1), ("alpha", 3)]);
    let result = save_entries(&mut db, 7, &terms);
    assert_eq!(detail_of_save_error(result), "Failed to save entry");
    assert!(!db.has_terms(7));
}

#[test]
fn save_entries_refuses_an_empty_term() {
    let mut db = Database::new();
    save_comic(&mut db, &stored_comic(7, "t"));
    let result = save_entries(&mut db, 7, &counts_of(&[("alpha", 1), ("", 1)]));
    assert_eq!(detail_of_save_error(result), "Failed to save entry");
    assert!(!db.has_terms(7));
}

#[test]
fn save_entries_refuses_a_comic_that_is_not_held() {
    let mut db = Database::new();
    let result = save_entries(&mut db, 7, &counts_of(&[("alpha", 1)]));
    assert_eq!(detail_of_save_error(result), "Failed to save entry");
    assert!(!db.has_terms(7));
}

#[test]
fn save_entries_refuses_a_posting_that_is_held_and_keeps_what_was_held() {
    let mut db = Database::new();
    save_comic(&mut db, &stored_comic(7, "t"));
    assert!(save_entries(&mut db, 7, &counts_of(&[("beta", 4)])).is_ok());
    let result = save_entries(&mut db, 7, &counts_of(&[("alpha", 1), ("beta", 9), ("gamma", 1)]));
    assert_eq!(detail_of_save_error(result), "Failed to save entry");
    assert_eq!(listing(&load_entries(&db, 7)), vec![("beta".to_string(), 4)]);
}

#[test]
fn save_entries_keeps_comics_apart() {
    let mut db = Database::new();
    save_comic(&mut db, &stored_comic(1, "one"));
    save_comic(&mut db, &stored_comic(2, "two"));
    assert!(save_entries(&mut db, 1, &counts_of(&[("alpha", 1)])).is_ok());
    assert!(save_entries(&mut db, 2, &counts_of(&[("alpha", 2), ("beta", 3)])).is_ok());
    assert_eq!(listing(&load_entries(&db, 1)), vec![("alpha".to_string(), 1)]);
    assert_eq!(
        listing(&load_entries(&db, 2)),
        vec![("alpha".to_string(), 2), ("beta".to_string(), 3)]
    );
    assert!(load_entries(&db, 3).is_empty());
}

#[test]
fn load_comics_with_no_terms_leaves_out_indexed_comics() {
    let mut db = Database::new();
    for num in [1, 2, 3, 4] {
        save_comic(&mut db, &stored_comic(num, "t"));
    }
    assert_eq!(numbers(&load_comics_with_no_terms(&db)), vec![1, 2, 3, 4]);
    assert!(save_entries(&mut db, 2, &counts_of(&[("alpha", 1)])).is_ok());
    assert!(save_entries(&mut db, 4, &counts_of(&[("beta", 1)])).is_ok());
    assert_eq!(numbers(&load_comics_with_no_terms(&db)), vec![1, 3]);
    assert_eq!(numbers(&load_comics(&db)), vec![1, 2, 3, 4]);
}

#[test]
fn database_error_texts() {
    let load = DatabaseError::LoadComicError("disk".to_string());
    let save = DatabaseError::SaveEntryError("full".to_string());
    assert_eq!(load.message(), "Failed to load comic from database");
    assert_eq!(save.message(), "Failed to save terms to database");
    assert_eq!(load.detail(), "disk");
    assert_eq!(save.detail(), "full");
}

#[test]
fn a_copy_of_a_comic_has_the_same_fields() {
    let comic = stored_comic(12, "Poisson");
    let copy = comic.clone();
    assert_eq!(copy.num, 12);
    assert_eq!(copy.title, "Poisson");
    assert_eq!(copy.safe_title, comic.safe_title);
    assert_eq!(copy.transcript, comic.transcript);
    assert_eq!(copy.alt, comic.alt);
    assert_eq!(copy.img, comic.img);
    assert_eq!(copy.link, comic.link);
    assert_eq!(copy.news, comic.news);
    assert_eq!(copy.day, comic.day);
    assert_eq!(copy.month, comic.month);
    assert_eq!(copy.year, comic.year);
}

#[test]
fn has_terms_and_has_entry_of_a_comic_that_is_not_held() {
    let db = Database::new();
    assert!(!db.has_terms(3));
    assert!(!db.has_entry(3, "alpha"));
    assert!(load_entries(&db, 3).is_empty());
}
