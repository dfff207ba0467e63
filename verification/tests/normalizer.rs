use xkcd_search::comic::XkcdComic;
use xkcd_search::index::comic_to_terms;
use xkcd_search::index::count_terms;
use xkcd_search::index::is_stop_word;
use xkcd_search::index::normalize;
use xkcd_search::index::searchable_content;
use xkcd_search::index::stem_token;
use xkcd_search::index::tokens_without_stem;
use xkcd_search::terms::TermCount;
use xkcd_search::terms::TermCounts;
use xkcd_search::text::keep_alphanumerics;

fn comic(num: u32, title: &str, transcript: &str) -> XkcdComic {
    XkcdComic {
        month: "1".to_string(),
        num,
        link: String::new(),
        year: "2006".to_string(),
        news: String::new(),
        safe_title: title.to_string(),
        transcript: transcript.to_string(),
        alt: String::new(),
        img: String::new(),
        title: title.to_string(),
        day: "1".to_string(),
    }
}

fn pairs(counts: &TermCounts) -> Vec<(String, u64)> {
    let mut out = Vec::new();
    for entry in counts.entries.iter() {
        out.push((entry.term.clone(), entry.frequency));
    }
    out
}

#[test]
fn normalize_counts_inflected_forms_together() {
    let counts = normalize("Rings. RING ring!");
    assert_eq!(pairs(&counts), vec![("ring".to_string(), 3)]);
}

#[test]
fn normalize_is_the_same_on_every_call() {
    let first = pairs(&normalize("Rings. RING ring!"));
    let _ = normalize("something else entirely");
    let second = pairs(&normalize("Rings. RING ring!"));
    assert_eq!(first, second);
    assert_eq!(second, vec![("ring".to_string(), 3)]);
}

#[test]
fn normalize_of_stop_words_is_empty() {
    let counts = normalize("a the of");
    assert!(counts.is_empty());
    assert_eq!(counts.len(), 0);
}

#[test]
fn normalize_of_empty_text_is_empty() {
    assert!(normalize("").is_empty());
}

#[test]
fn normalize_of_punctuation_is_empty() {
    assert!(normalize("... !!! --- ?").is_empty());
}

#[test]
fn normalize_splits_at_spaces_and_newlines() {
    let counts = normalize("alpha  beta\ngamma \n delta");
    assert_eq!(
        pairs(&counts),
        vec![
            ("alpha".to_string(), 1),
            ("beta".to_string(), 1),
            ("gamma".to_string(), 1),
            ("delta".to_string(), 1),
        ]
    );
}

#[test]
fn normalize_does_not_split_at_tabs() {
    let counts = normalize("alpha\tbeta");
    assert_eq!(pairs(&counts), vec![("alphabeta".to_string(), 1)]);
}

#[test]
fn normalize_drops_punctuation_without_splitting() {
    let counts = normalize("well-known");
    assert_eq!(pairs(&counts), vec![("wellknown".to_string(), 1)]);
}

#[test]
fn normalize_keeps_first_occurrence_order() {
    let counts = normalize("zebra apple zebra mango apple zebra");
    assert_eq!(
        pairs(&counts),
        vec![("zebra".to_string(), 3), ("appl".to_string(), 2), ("mango".to_string(), 1)]
    );
}

#[test]
fn normalize_stems_before_it_tests_for_stop_words() {
    // "having" stems to "have", which is a stop word; "this" stems to "thi",
    // which is none.
    let counts = normalize("having this");
    assert_eq!(pairs(&counts), vec![("thi".to_string(), 1)]);
}

#[test]
fn normalize_text_with_blanks_at_both_ends() {
    let counts = normalize("  running  ");
    assert_eq!(pairs(&counts), vec![("run".to_string(), 1)]);
}

#[test]
fn stem_token_cleans_then_stems() {
    assert_eq!(stem_token("Running!"), "run");
    assert_eq!(stem_token("\"Totally\""), "total");
    assert_eq!(stem_token("RINGS."), "ring");
    assert_eq!(stem_token("..."), "");
    assert_eq!(stem_token(""), "");
}

#[test]
fn stem_token_leaves_short_words() {
    assert_eq!(stem_token("as"), "as");
    assert_eq!(stem_token("A"), "a");
}

#[test]
fn keep_alphanumerics_drops_the_rest() {
    assert_eq!(keep_alphanumerics("a-b!c"), "abc");
    assert_eq!(keep_alphanumerics("R2-D2"), "R2D2");
    assert_eq!(keep_alphanumerics(" \t."), "");
    assert_eq!(keep_alphanumerics("caf\u{e9}!"), "caf\u{e9}");
}

#[test]
fn is_stop_word_knows_the_list() {
    assert!(is_stop_word("i"));
    assert!(is_stop_word("the"));
    assert!(is_stop_word("now"));
    assert!(is_stop_word("yourselves"));
    assert!(!is_stop_word("ring"));
    assert!(!is_stop_word("The"));
    assert!(!is_stop_word(""));
}

#[test]
fn count_terms_skips_empty_stems_and_stop_words() {
    let stems = vec![
        "ring".to_string(),
        "".to_string(),
        "the".to_string(),
        "bell".to_string(),
        "ring".to_string(),
    ];
    let counts = count_terms(&stems);
    assert_eq!(pairs(&counts), vec![("ring".to_string(), 2), ("bell".to_string(), 1)]);
    assert_eq!(counts.get("ring"), Some(2));
    assert_eq!(counts.get("bell"), Some(1));
    assert_eq!(counts.get("the"), None);
    assert_eq!(counts.get(""), None);
}

#[test]
fn count_terms_of_nothing_is_empty() {
    let counts = count_terms(&Vec::new());
    assert!(counts.is_empty());
}

#[test]
fn term_counts_lookups() {
    let counts = TermCounts {
        entries: vec![
            TermCount { term: "alpha".to_string(), frequency: 4 },
            TermCount { term: "beta".to_string(), frequency: 1 },
        ],
    };
    assert_eq!(counts.len(), 2);
    assert!(!counts.is_empty());
    assert_eq!(counts.position("alpha"), Some(0));
    assert_eq!(counts.position("beta"), Some(1));
    assert_eq!(counts.position("gamma"), None);
    assert_eq!(counts.get("alpha"), Some(4));
    assert_eq!(counts.get("gamma"), None);
    assert!(TermCounts::new().is_empty());
}

#[test]
fn comic_to_terms_reads_title_and_transcript() {
    let counts = comic_to_terms(&comic(1, "Barrel", "A boy sits in a barrel. The barrel floats."));
    assert_eq!(
        pairs(&counts),
        vec![
            ("barrel".to_string(), 3),
            ("boi".to_string(), 1),
            ("sit".to_string(), 1),
            ("float".to_string(), 1),
        ]
    );
}

#[test]
fn comic_to_terms_keeps_title_and_transcript_apart() {
    let counts = comic_to_terms(&comic(2, "Sand", "castle"));
    assert_eq!(pairs(&counts), vec![("sand".to_string(), 1), ("castl".to_string(), 1)]);
}

#[test]
fn comic_to_terms_of_a_title_that_is_a_stop_word() {
    let counts = comic_to_terms(&comic(1913, "A", ""));
    assert!(counts.is_empty());
}

#[test]
fn comic_to_terms_with_empty_transcript() {
    let counts = comic_to_terms(&comic(3, "Rings. RING ring!", ""));
    assert_eq!(pairs(&counts), vec![("ring".to_string(), 3)]);
}

#[test]
fn tokens_without_stem_are_those_that_clean_to_nothing() {
    assert_eq!(tokens_without_stem("ring ... bell !? "), vec!["...", "!?", ""]);
    assert!(tokens_without_stem("a the of").is_empty());
    assert_eq!(tokens_without_stem(""), vec![""]);
}

#[test]
fn tokens_without_stem_at_the_ends_of_a_text() {
    assert_eq!(tokens_without_stem(" ring"), vec![""]);
    assert_eq!(tokens_without_stem("\n\n ring \n"), vec!["", ""]);
    assert!(tokens_without_stem("ring  bell").is_empty());
    assert_eq!(tokens_without_stem("  "), vec!["", ""]);
}

#[test]
fn terms_are_never_empty_and_never_stop_words() {
    let counts = normalize("The quick brown fox -- and I -- jumped over the lazy dogs!");
    assert!(!counts.is_empty());
    for entry in counts.entries.iter() {
        assert!(!entry.term.is_empty());
        assert!(!is_stop_word(&entry.term));
        assert!(entry.frequency >= 1);
    }
    assert_eq!(counts.get("the"), None);
    assert_eq!(counts.get("over"), None);
    assert_eq!(counts.get("fox"), Some(1));
    assert_eq!(counts.get("jump"), Some(1));
}

#[test]
fn searchable_content_joins_title_and_transcript_with_a_space() {
    assert_eq!(searchable_content(&comic(1, "Barrel", "A boy sits.")), "Barrel A boy sits.");
    assert_eq!(searchable_content(&comic(1, "Barrel", "")), "Barrel ");
    assert_eq!(searchable_content(&comic(1, "", "")), " ");
}
