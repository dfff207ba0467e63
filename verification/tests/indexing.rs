use xkcd_search::comic::XkcdComic;
use xkcd_search::database::load_comics_with_no_terms;
use xkcd_search::database::load_entries;
use xkcd_search::database::save_comic;
use xkcd_search::database::save_entries;
use xkcd_search::database::Database;
use xkcd_search::index::update_index;
use xkcd_search::terms::TermCount;
use xkcd_search::terms::TermCounts;

fn page(num: u32, title: &str, transcript: &str) -> XkcdComic {
    XkcdComic {
        month: String::new(),
        num,
        link: String::new(),
        year: String::new(),
        news: String::new(),
        safe_title: String::new(),
        transcript: transcript.to_string(),
        alt: String::new(),
        img: String::new(),
        title: title.to_string(),
        day: String::new(),
    }
}

fn held(db: &Database, num: u32) -> Vec<(String, u64)> {
    let mut out = Vec::new();
    for entry in load_entries(db, num).entries.iter() {
        out.push((entry.term.clone(), entry.frequency));
    }
    out
}

#[test]
fn update_index_indexes_every_comic_without_postings() {
    let mut db = Database::new();
    save_comic(&mut db, &page(1, "Barrel", "the barrel floats"));
    save_comic(&mut db, &page(2, "Petit Trees", "trees and more trees"));
    let report = update_index(&mut db);
    assert_eq!(report.saved, vec![1, 2]);
    assert!(report.failed.is_empty());
    assert_eq!(held(&db, 1), vec![("barrel".to_string(), 2), ("float".to_string(), 1)]);
    assert_eq!(held(&db, 2), vec![("petit".to_string(), 1), ("tree".to_string(), 3)]);
    assert!(load_comics_with_no_terms(&db).is_empty());
}

#[test]
fn update_index_leaves_an_indexed_comic_as_it_is() {
    let mut db = Database::new();
    save_comic(&mut db, &page(1, "Barrel", "the barrel floats"));
    save_comic(&mut db, &page(2, "Island", "an island"));
    let one = TermCounts { entries: vec![TermCount { term: "handmade".to_string(), frequency: 9 }] };
    assert!(save_entries(&mut db, 1, &one).is_ok());
    let report = update_index(&mut db);
    assert_eq!(report.saved, vec![2]);
    assert!(report.failed.is_empty());
    assert_eq!(held(&db, 1), vec![("handmade".to_string(), 9)]);
    assert_eq!(held(&db, 2), vec![("island".to_string(), 2)]);
}

#[test]
fn update_index_twice_changes_nothing_the_second_time() {
    let mut db = Database::new();
    save_comic(&mut db, &page(1, "Barrel", "the barrel floats"));
    save_comic(&mut db, &page(2, "Island", "an island"));
    let first = update_index(&mut db);
    assert_eq!((first.saved, first.failed), (vec![1, 2], vec![]));
    let one = held(&db, 1);
    let two = held(&db, 2);
    let second = update_index(&mut db);
    assert_eq!((second.saved, second.failed), (vec![], vec![]));
    assert_eq!(held(&db, 1), one);
    assert_eq!(held(&db, 2), two);
}

#[test]
fn update_index_counts_a_comic_without_terms_as_failed_and_goes_on() {
    let mut db = Database::new();
    save_comic(&mut db, &page(1913, "A", ""));
    save_comic(&mut db, &page(1914, "Twitter Verification", "verified"));
    let report = update_index(&mut db);
    assert_eq!(report.saved, vec![1914]);
    assert_eq!(report.failed, vec![1913]);
    assert!(!db.has_terms(1913));
    assert!(db.has_terms(1914));
    // The comic without terms has no posting, so the next pass looks at it
    // again.
    let again = update_index(&mut db);
    assert_eq!((again.saved, again.failed), (vec![], vec![1913]));
    assert!(!db.has_terms(1913));
}

#[test]
fn update_index_of_an_empty_archive() {
    let mut db = Database::new();
    let report = update_index(&mut db);
    assert_eq!((report.saved, report.failed), (vec![], vec![]));
}

#[test]
fn update_index_picks_up_comics_saved_later() {
    let mut db = Database::new();
    save_comic(&mut db, &page(1, "Barrel", ""));
    assert_eq!(update_index(&mut db).saved, vec![1]);
    save_comic(&mut db, &page(2, "Island", ""));
    let report = update_index(&mut db);
    assert_eq!((report.saved, report.failed), (vec![2], vec![]));
    assert_eq!(held(&db, 1), vec![("barrel".to_string(), 1)]);
    assert_eq!(held(&db, 2), vec![("island".to_string(), 1)]);
}
