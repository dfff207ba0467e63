//! The term normaliser and the indexing pass.

use vstd::prelude::*;
use vstd::string::StringExecFns;
use crate::comic::ComicView;
use crate::comic::XkcdComic;
use crate::database::comic_views;
use crate::database::comics_of;
use crate::database::distinct_numbers;
use crate::database::entries_of;
use crate::database::holds;
use crate::database::lemma_place;
use crate::database::lists;
use crate::database::lemma_without_terms;
use crate::database::load_comics_with_no_terms;
use crate::database::place;
use crate::database::save_entries;
use crate::database::without_terms;
use crate::database::Database;
use crate::database::RecordView;
use crate::terms::counts;
use crate::terms::frequency_of;
use crate::terms::listed;
use crate::terms::lemma_frequency_of;
use crate::terms::valid_counts;
use crate::terms::TermCount;
use crate::terms::TermCounts;
use crate::text::alphanumerics;
use crate::text::keep_alphanumerics;
use crate::text::lowercased;
use crate::text::pieces;
use crate::text::split;
use crate::text::stemmed;
use crate::text::trimmed;
use crate::text::views;

verus! {

/// The words that are left out of the index. A term is compared with them
/// after stemming.
pub open spec fn stop_words() -> Seq<Seq<char>> {
    seq![
        "i"@, "me"@, "my"@, "myself"@, "we"@, "our"@, "ours"@, "ourselves"@, "you"@, "your"@,
        "yours"@, "yourself"@, "yourselves"@, "he"@, "him"@, "his"@, "himself"@, "she"@,
        "her"@, "hers"@, "herself"@, "it"@, "its"@, "itself"@, "they"@, "them"@, "their"@,
        "theirs"@, "themselves"@, "what"@, "which"@, "who"@, "whom"@, "this"@, "that"@,
        "these"@, "those"@, "am"@, "is"@, "are"@, "was"@, "were"@, "be"@, "been"@, "being"@,
        "have"@, "has"@, "had"@, "having"@, "do"@, "does"@, "did"@, "doing"@, "a"@, "an"@,
        "the"@, "and"@, "but"@, "if"@, "or"@, "because"@, "as"@, "until"@, "while"@, "of"@,
        "at"@, "by"@, "for"@, "with"@, "about"@, "against"@, "between"@, "into"@, "through"@,
        "during"@, "before"@, "after"@, "above"@, "below"@, "to"@, "from"@, "up"@, "down"@,
        "in"@, "out"@, "on"@, "off"@, "over"@, "under"@, "again"@, "further"@, "then"@,
        "once"@, "here"@, "there"@, "when"@, "where"@, "why"@, "how"@, "all"@, "any"@, "both"@,
        "each"@, "few"@, "more"@, "most"@, "other"@, "some"@, "such"@, "no"@, "nor"@, "not"@,
        "only"@, "own"@, "same"@, "so"@, "than"@, "too"@, "very"@, "s"@, "t"@, "can"@, "will"@,
        "just"@, "don"@, "should"@, "now"@,
    ]
}

/// Whether `term` is one of the stop words.
pub fn is_stop_word(term: &str) -> (found: bool)
    ensures
        found == stop_words().contains(term@),
{
    let words: [&str; 127] = [
        "i", "me", "my", "myself", "we", "our", "ours", "ourselves", "you", "your", "yours",
        "yourself", "yourselves", "he", "him", "his", "himself", "she", "her", "hers",
        "herself", "it", "its", "itself", "they", "them", "their", "theirs", "themselves",
        "what", "which", "who", "whom", "this", "that", "these", "those", "am", "is", "are",
        "was", "were", "be", "been", "being", "have", "has", "had", "having", "do", "does",
        "did", "doing", "a", "an", "the", "and", "but", "if", "or", "because", "as", "until",
        "while", "of", "at", "by", "for", "with", "about", "against", "between", "into",
        "through", "during", "before", "after", "above", "below", "to", "from", "up", "down",
        "in", "out", "on", "off", "over", "under", "again", "further", "then", "once", "here",
        "there", "when", "where", "why", "how", "all", "any", "both", "each", "few", "more",
        "most", "other", "some", "such", "no", "nor", "not", "only", "own", "same", "so",
        "than", "too", "very", "s", "t", "can", "will", "just", "don", "should", "now",
    ];
    assert(words@.len() == stop_words().len());
    assert(forall|i: int| 0 <= i < words@.len() ==> (#[trigger] words@[i])@ == stop_words()[i]);
    let mut i: usize = 0;
    while i < words.len()
        invariant
            i <= words@.len(),
            words@.len() == stop_words().len(),
            forall|j: int| 0 <= j < words@.len() ==> (#[trigger] words@[j])@ == stop_words()[j],
            forall|j: int| 0 <= j < i ==> stop_words()[j] != term@,
        decreases words@.len() - i,
    {
        assert(words@[i as int]@ == stop_words()[i as int]);
        if *words[i] == *term {
            return true;
        }
        i += 1;
    }
    false
}

/// A token as it is handed to the stemmer: without its characters that are
/// not alphanumeric, trimmed, in lower case.
pub open spec fn cleaned(token: Seq<char>) -> Seq<char> {
    lowercased(trimmed(alphanumerics(token)))
}

/// The stem of a token.
pub open spec fn term_of(token: Seq<char>) -> Seq<char> {
    stemmed(cleaned(token))
}

/// The stems of the tokens of `text`, in order, one for each piece between
/// runs of blanks.
pub open spec fn stems_of(text: Seq<char>) -> Seq<Seq<char>> {
    Seq::new(pieces(text).len(), |i: int| term_of(pieces(text)[i]))
}

/// A stem is counted unless it is empty or a stop word.
pub open spec fn indexable(term: Seq<char>) -> bool {
    term.len() > 0 && !stop_words().contains(term)
}

/// How often `term` stands in `terms`.
pub open spec fn occurrences(terms: Seq<Seq<char>>, term: Seq<char>) -> nat
    decreases terms.len(),
{
    if terms.len() == 0 {
        0
    } else if terms.last() == term {
        occurrences(terms.drop_last(), term) + 1
    } else {
        occurrences(terms.drop_last(), term)
    }
}

/// The frequency of each indexable term among `stems`.
pub open spec fn frequencies(stems: Seq<Seq<char>>) -> Map<Seq<char>, nat> {
    Map::new(
        |term: Seq<char>| indexable(term) && occurrences(stems, term) > 0,
        |term: Seq<char>| occurrences(stems, term),
    )
}

/// The term frequencies of a text.
pub open spec fn normalized(text: Seq<char>) -> Map<Seq<char>, nat> {
    frequencies(stems_of(text))
}

/// The text of a comic that is searched: its title, a space, its transcript.
pub open spec fn searchable_text(comic: ComicView) -> Seq<char> {
    comic.title + seq![' '] + comic.transcript
}

/// A term occurs among `terms` exactly if it is one of them.
pub proof fn lemma_occurs(terms: Seq<Seq<char>>, term: Seq<char>)
    ensures
        occurrences(terms, term) > 0 <==> terms.contains(term),
    decreases terms.len(),
{
    if terms.len() > 0 {
        let rest = terms.drop_last();
        lemma_occurs(rest, term);
        if rest.contains(term) {
            let i = choose|i: int| 0 <= i < rest.len() && rest[i] == term;
            assert(terms[i] == term);
        }
        if terms.last() == term {
            assert(terms[terms.len() - 1] == term);
        }
        if terms.contains(term) {
            let i = choose|i: int| 0 <= i < terms.len() && terms[i] == term;
            if i < rest.len() {
                assert(rest[i] == term);
            }
        }
    }
}

/// Stop words and empty stems are left out: a term of a text is never empty
/// and never a stop word, it is the stem of one of the tokens, and its
/// frequency is at least one.
pub proof fn lemma_terms_are_indexable(text: Seq<char>, term: Seq<char>)
    requires
        normalized(text).contains_key(term),
    ensures
        term.len() > 0,
        !stop_words().contains(term),
        stems_of(text).contains(term),
        normalized(text)[term] >= 1,
{
    lemma_occurs(stems_of(text), term);
}

/// A text has no terms exactly if every one of its tokens has an empty stem
/// or a stop word for its stem.
pub proof fn lemma_no_terms(text: Seq<char>)
    ensures
        normalized(text) == Map::<Seq<char>, nat>::empty() <==> forall|i: int|
            0 <= i < stems_of(text).len() ==> !indexable(#[trigger] stems_of(text)[i]),
{
    let stems = stems_of(text);
    if forall|i: int| 0 <= i < stems.len() ==> !indexable(#[trigger] stems[i]) {
        assert forall|term: Seq<char>| !normalized(text).contains_key(term) by {
            lemma_occurs(stems, term);
            if stems.contains(term) {
                let i = choose|i: int| 0 <= i < stems.len() && stems[i] == term;
                assert(!indexable(stems[i]));
            }
        }
        assert(normalized(text) =~= Map::<Seq<char>, nat>::empty());
    }
    if normalized(text) == Map::<Seq<char>, nat>::empty() {
        assert forall|i: int| 0 <= i < stems.len() implies !indexable(#[trigger] stems[i]) by {
            lemma_occurs(stems, stems[i]);
            assert(stems.contains(stems[i]));
            assert(!normalized(text).contains_key(stems[i]));
        }
    }
}

/// The stems of `stems` that are counted, each once, in the order in which
/// they first occur.
pub open spec fn first_occurrences(stems: Seq<Seq<char>>) -> Seq<Seq<char>>
    decreases stems.len(),
{
    if stems.len() == 0 {
        Seq::empty()
    } else {
        let before = first_occurrences(stems.drop_last());
        if indexable(stems.last()) && !before.contains(stems.last()) {
            before.push(stems.last())
        } else {
            before
        }
    }
}

/// `pairs` is the tally of `stems`: it lists the stems that are counted in
/// the order in which they first occur, each with the number of its
/// occurrences.
pub open spec fn tallies(pairs: Seq<(Seq<char>, u64)>, stems: Seq<Seq<char>>) -> bool {
    &&& pairs.len() == first_occurrences(stems).len()
    &&& forall|i: int|
        0 <= i < pairs.len() ==> (#[trigger] pairs[i]).0 == first_occurrences(stems)[i]
            && pairs[i].1 == occurrences(stems, pairs[i].0)
}

/// The terms of `pairs`, in order.
spec fn terms_in(pairs: Seq<(Seq<char>, u64)>) -> Seq<Seq<char>> {
    Seq::new(pairs.len(), |i: int| pairs[i].0)
}

/// `pairs` lists the stems of `stems` that are counted, each once, with the
/// number of its occurrences.
spec fn counted(pairs: Seq<(Seq<char>, u64)>, stems: Seq<Seq<char>>) -> bool {
    &&& valid_counts(pairs)
    &&& forall|i: int|
        0 <= i < pairs.len() ==> indexable((#[trigger] pairs[i]).0) && pairs[i].1 == occurrences(
            stems,
            pairs[i].0,
        )
    &&& forall|term: Seq<char>|
        indexable(term) && occurrences(stems, term) > 0 ==> #[trigger] listed(pairs, term)
}

/// A term occurs at most as often as there are terms.
proof fn lemma_occurrences_bound(terms: Seq<Seq<char>>, term: Seq<char>)
    ensures
        occurrences(terms, term) <= terms.len(),
    decreases terms.len(),
{
    if terms.len() > 0 {
        lemma_occurrences_bound(terms.drop_last(), term);
    }
}

/// One more term adds one occurrence of itself and none of another.
proof fn lemma_occurrences_push(terms: Seq<Seq<char>>, next: Seq<char>, term: Seq<char>)
    ensures
        occurrences(terms.push(next), term) == occurrences(terms, term) + if next == term {
            1nat
        } else {
            0nat
        },
{
    assert(terms.push(next).drop_last() == terms);
}

/// What is counted is the frequency mapping of the stems it was made of.
proof fn lemma_counted_is_frequencies(pairs: Seq<(Seq<char>, u64)>, stems: Seq<Seq<char>>)
    requires
        counted(pairs, stems),
    ensures
        Map::new(
            |term: Seq<char>| listed(pairs, term),
            |term: Seq<char>| frequency_of(pairs, term),
        ) == frequencies(stems),
{
    let tally = Map::new(
        |term: Seq<char>| listed(pairs, term),
        |term: Seq<char>| frequency_of(pairs, term),
    );
    assert forall|term: Seq<char>| tally.contains_key(term) implies frequencies(stems).contains_key(
        term,
    ) && tally[term] == frequencies(stems)[term] by {
        let i = choose|i: int| 0 <= i < pairs.len() && (#[trigger] pairs[i]).0 == term;
        lemma_frequency_of(pairs, i);
    }
    assert forall|term: Seq<char>| frequencies(stems).contains_key(term) implies tally.contains_key(
        term,
    ) by {
        assert(listed(pairs, term));
    }
    assert(tally =~= frequencies(stems));
}

/// Counts the stems that are neither empty nor stop words. The terms stand
/// in the order in which they first occur.
pub fn count_terms(stems: &Vec<String>) -> (counts: TermCounts)
    ensures
        tallies(counts.pairs(), views(stems@)),
        counts.wf(),
        counts@ == frequencies(views(stems@)),
{
    let mut counts = TermCounts::new();
    let mut n: usize = 0;
    while n < stems.len()
        invariant
            n <= stems@.len(),
            counted(counts.pairs(), views(stems@).take(n as int)),
            terms_in(counts.pairs()) == first_occurrences(views(stems@).take(n as int)),
        decreases stems@.len() - n,
    {
        let stem = &stems[n];
        let ghost done = views(stems@).take(n as int);
        let ghost before = counts.pairs();
        proof {
            assert(views(stems@).take(n + 1) == done.push(stem@));
            assert forall|term: Seq<char>|
                occurrences(done.push(stem@), term) == occurrences(done, term) + if stem@ == term {
                    1nat
                } else {
                    0nat
                } by {
                lemma_occurrences_push(done, stem@, term);
            }
            lemma_occurrences_bound(done, stem@);
            assert(done.push(stem@).drop_last() == done);
            if first_occurrences(done).contains(stem@) {
                let i = choose|i: int|
                    0 <= i < first_occurrences(done).len() && first_occurrences(done)[i] == stem@;
                assert(terms_in(before)[i] == before[i].0);
                assert(listed(before, stem@));
            }
        }
        if !stem.as_str().is_empty() && !is_stop_word(stem.as_str()) {
            match counts.position(stem.as_str()) {
                Some(k) => {
                    let frequency = counts.entries[k].frequency;
                    assert(before[k as int].0 == stem@);
                    counts.entries.set(k, TermCount { term: stem.clone(), frequency: frequency + 1 });
                    proof {
                        let after = counts.pairs();
                        assert(after == before.update(k as int, (stem@, (frequency + 1) as u64)));
                        assert(terms_in(before)[k as int] == stem@);
                        assert(first_occurrences(done).contains(stem@));
                        assert(terms_in(after) =~= terms_in(before));
                        assert forall|term: Seq<char>|
                            indexable(term) && occurrences(done.push(stem@), term)
                                > 0 implies #[trigger] listed(after, term) by {
                            if term == stem@ {
                                assert(after[k as int].0 == term);
                            } else {
                                assert(listed(before, term));
                                let i = choose|i: int|
                                    0 <= i < before.len() && (#[trigger] before[i]).0 == term;
                                assert(after[i].0 == term);
                            }
                        }
                    }
                },
                None => {
                    counts.entries.push(TermCount { term: stem.clone(), frequency: 1 });
                    proof {
                        let after = counts.pairs();
                        assert(after == before.push((stem@, 1u64)));
                        assert(terms_in(after) =~= terms_in(before).push(stem@));
                        assert(occurrences(done, stem@) == 0);
                        assert forall|term: Seq<char>|
                            indexable(term) && occurrences(done.push(stem@), term)
                                > 0 implies #[trigger] listed(after, term) by {
                            if term == stem@ {
                                assert(after[before.len() as int].0 == term);
                            } else {
                                assert(listed(before, term));
                                let i = choose|i: int|
                                    0 <= i < before.len() && (#[trigger] before[i]).0 == term;
                                assert(after[i].0 == term);
                            }
                        }
                    }
                },
            }
        } else {
            proof {
                assert forall|term: Seq<char>|
                    indexable(term) && occurrences(done.push(stem@), term)
                        > 0 implies #[trigger] listed(before, term) by {
                    assert(term != stem@);
                }
            }
        }
        n += 1;
    }
    proof {
        assert(views(stems@).take(n as int) == views(stems@));
        lemma_counted_is_frequencies(counts.pairs(), views(stems@));
        assert forall|i: int| 0 <= i < counts.pairs().len() implies (#[trigger] counts.pairs()[i]).0
            == first_occurrences(views(stems@))[i] by {
            assert(terms_in(counts.pairs())[i] == counts.pairs()[i].0);
        }
    }
    counts
}

/// Cleans one token and stems it.
pub fn stem_token(token: &str) -> (stem: String)
    ensures
        stem@ == term_of(token@),
{
    let kept = keep_alphanumerics(token);
    let lower = kept.as_str().trim().to_lowercase();
    porter_stemmer::stem(lower.as_str())
}

/// The term frequencies of `text`: the text is cut at its runs of spaces and
/// newlines, each token is cleaned and stemmed, and the stems that are
/// neither empty nor stop words are counted. A text without such a stem has
/// no terms, which is no error.
pub fn normalize(text: &str) -> (counts: TermCounts)
    ensures
        tallies(counts.pairs(), stems_of(text@)),
        counts.wf(),
        counts@ == normalized(text@),
{
    let tokens = split("[ \n]+", text);
    let mut stems: Vec<String> = Vec::new();
    let mut i: usize = 0;
    while i < tokens.len()
        invariant
            i <= tokens@.len(),
            views(tokens@) == pieces(text@),
            views(stems@) == stems_of(text@).take(i as int),
        decreases tokens@.len() - i,
    {
        let ghost before = views(stems@);
        assert(views(tokens@)[i as int] == tokens@[i as int]@);
        let stem = stem_token(tokens[i].as_str());
        stems.push(stem);
        assert(views(stems@) == before.push(term_of(pieces(text@)[i as int])));
        assert(stems_of(text@).take(i + 1) == stems_of(text@).take(i as int).push(
            stems_of(text@)[i as int],
        ));
        i += 1;
    }
    assert(stems_of(text@).take(i as int) == stems_of(text@));
    count_terms(&stems)
}

/// The tokens of `text` that come to nothing because their stem is empty, in
/// order and as they stand in the text. They count for no term; a caller that
/// keeps a log reports each of them as a warning.
pub fn tokens_without_stem(text: &str) -> (tokens: Vec<String>)
    ensures
        views(tokens@) == pieces(text@).filter(|piece: Seq<char>| term_of(piece).len() == 0),
{
    let parts = split("[ \n]+", text);
    let ghost stemless = |piece: Seq<char>| term_of(piece).len() == 0;
    let mut tokens: Vec<String> = Vec::new();
    let mut i: usize = 0;
    while i < parts.len()
        invariant
            i <= parts@.len(),
            views(parts@) == pieces(text@),
            stemless == |piece: Seq<char>| term_of(piece).len() == 0,
            views(tokens@) == pieces(text@).take(i as int).filter(stemless),
        decreases parts@.len() - i,
    {
        let ghost before = views(tokens@);
        proof {
            assert(views(parts@)[i as int] == parts@[i as int]@);
            assert(pieces(text@).take(i + 1) == pieces(text@).take(i as int).push(
                pieces(text@)[i as int],
            ));
            pieces(text@).take(i as int).lemma_filter_push(pieces(text@)[i as int], stemless);
        }
        if stem_token(parts[i].as_str()).as_str().is_empty() {
            tokens.push(parts[i].clone());
            assert(views(tokens@) =~= before.push(pieces(text@)[i as int]));
        }
        i += 1;
    }
    assert(pieces(text@).take(i as int) == pieces(text@));
    tokens
}

/// The text of `comic` that is searched: its title, a space, its transcript.
pub fn searchable_content(comic: &XkcdComic) -> (text: String)
    ensures
        text@ == searchable_text(comic@),
{
    let mut text = comic.title.clone();
    text.append(" ");
    text.append(comic.transcript.as_str());
    proof {
        reveal_strlit(" ");
        assert(" "@ == seq![' ']);
    }
    text
}

/// The term frequencies of a comic's title and transcript.
pub fn comic_to_terms(comic: &XkcdComic) -> (counts: TermCounts)
    ensures
        tallies(counts.pairs(), stems_of(searchable_text(comic@))),
        counts.wf(),
        counts@ == normalized(searchable_text(comic@)),
{
    let text = searchable_content(comic);
    normalize(text.as_str())
}

/// The term frequencies of a comic.
pub open spec fn terms_of(comic: ComicView) -> Map<Seq<char>, nat> {
    normalized(searchable_text(comic))
}

/// Whether a comic has any term.
pub open spec fn has_terms(comic: ComicView) -> bool {
    exists|term: Seq<char>| #[trigger] terms_of(comic).contains_key(term)
}

/// The postings `pairs` are the term frequencies of `comic`: its terms in the
/// order in which they first occur, each with its frequency.
pub open spec fn indexes(pairs: Seq<(Seq<char>, u64)>, comic: ComicView) -> bool {
    &&& tallies(pairs, stems_of(searchable_text(comic)))
    &&& valid_counts(pairs)
    &&& counts(pairs) == terms_of(comic)
}

/// What an indexing pass makes of one comic: the comic stays as it is; its
/// postings stay as they are if it has any, and are its term frequencies if
/// it has none.
pub open spec fn indexed_record(before: RecordView, after: RecordView) -> bool {
    &&& after.comic == before.comic
    &&& if before.terms.len() > 0 {
        after.terms == before.terms
    } else {
        indexes(after.terms, before.comic)
    }
}

/// The numbers of the comics `docs`, in order.
pub open spec fn numbers(docs: Seq<ComicView>) -> Seq<u32> {
    Seq::new(docs.len(), |i: int| docs[i].num)
}

/// How an indexing pass went: the numbers of the comics whose terms were
/// saved, and the numbers of the comics that have no term.
#[derive(Debug)]
pub struct IndexReport {
    pub saved: Vec<u32>,
    pub failed: Vec<u32>,
}

/// Where an indexing pass stands once the first comics of `todo`, the comics
/// `done`, have been looked at: a record that had postings has them still, a
/// record that is done has its term frequencies, and a record that is yet to
/// come has none.
spec fn indexed_so_far(start: RecordView, now: RecordView, done: Seq<ComicView>) -> bool {
    &&& now.comic == start.comic
    &&& if start.terms.len() > 0 || !lists(done, start.comic.num) {
        now.terms == start.terms
    } else {
        indexes(now.terms, start.comic)
    }
}

/// Indexes every comic that has no posting yet: its term frequencies are
/// saved, all of them or none. A comic with a posting is left as it is. A
/// comic without terms gets no posting, counts as failed, and is looked at
/// again by the next pass.
pub fn update_index(db: &mut Database) -> (report: IndexReport)
    requires
        old(db).wf(),
    ensures
        final(db).wf(),
        final(db).records().len() == old(db).records().len(),
        forall|i: int|
            0 <= i < old(db).records().len() ==> indexed_record(
                old(db).records()[i],
                #[trigger] final(db).records()[i],
            ),
        final(db).documents() == old(db).documents(),
        final(db).identifiers() == old(db).identifiers(),
        forall|num: u32|
            entries_of(old(db).records(), num).len() > 0 ==> #[trigger] entries_of(
                final(db).records(),
                num,
            ) == entries_of(old(db).records(), num),
        forall|num: u32|
            holds(old(db).records(), num) && entries_of(old(db).records(), num).len() == 0
                ==> indexes(
                #[trigger] entries_of(final(db).records(), num),
                old(db).records()[place(old(db).records(), num)].comic,
            ),
        report.saved@ == numbers(
            comics_of(without_terms(old(db).records())).filter(|doc: ComicView| has_terms(doc)),
        ),
        report.failed@ == numbers(
            comics_of(without_terms(old(db).records())).filter(|doc: ComicView| !has_terms(doc)),
        ),
{
    let comics = load_comics_with_no_terms(db);
    let ghost start = db.records();
    let ghost todo = comic_views(comics@);
    let ghost with_terms = |doc: ComicView| has_terms(doc);
    let ghost no_terms = |doc: ComicView| !has_terms(doc);
    let mut saved: Vec<u32> = Vec::new();
    let mut failed: Vec<u32> = Vec::new();
    let mut j: usize = 0;
    proof {
        lemma_without_terms(start);
        assert(saved@ =~= numbers(todo.take(0).filter(with_terms)));
        assert(failed@ =~= numbers(todo.take(0).filter(no_terms)));
    }
    while j < comics.len()
        invariant
            j <= comics@.len(),
            todo == comic_views(comics@),
            todo == comics_of(without_terms(start)),
            distinct_numbers(start),
            forall|k: int, l: int|
                0 <= k < l < todo.len() ==> (#[trigger] todo[k]).num != (#[trigger] todo[l]).num,
            forall|k: int|
                0 <= k < todo.len() ==> holds(start, (#[trigger] todo[k]).num) && start[place(
                    start,
                    todo[k].num,
                )].comic == todo[k] && entries_of(start, todo[k].num).len() == 0,
            db.wf(),
            db.records().len() == start.len(),
            forall|i: int|
                0 <= i < start.len() ==> indexed_so_far(
                    start[i],
                    #[trigger] db.records()[i],
                    todo.take(j as int),
                ),
            with_terms == |doc: ComicView| has_terms(doc),
            no_terms == |doc: ComicView| !has_terms(doc),
            saved@ == numbers(todo.take(j as int).filter(with_terms)),
            failed@ == numbers(todo.take(j as int).filter(no_terms)),
        decreases comics@.len() - j,
    {
        let comic = &comics[j];
        let ghost done = todo.take(j as int);
        let ghost now = db.records();
        let ghost at = place(start, comic.num);
        let terms = comic_to_terms(comic);
        proof {
            assert(todo[j as int] == comic@);
            assert(todo.take(j + 1) == done.push(comic@));
            done.lemma_filter_push(comic@, with_terms);
            done.lemma_filter_push(comic@, no_terms);
            assert(numbers(done.filter(with_terms).push(comic@)) =~= numbers(
                done.filter(with_terms),
            ).push(comic.num));
            assert(numbers(done.filter(no_terms).push(comic@)) =~= numbers(
                done.filter(no_terms),
            ).push(comic.num));
            assert(!lists(done, comic.num)) by {
                if lists(done, comic.num) {
                    let k = choose|k: int| 0 <= k < done.len() && (#[trigger] done[k]).num == comic.num;
                    assert(todo[k].num != todo[j as int].num);
                }
            }
            assert(holds(start, comic.num));
            assert(0 <= at < start.len() && start[at].comic.num == comic.num);
            lemma_place(start, at);
            assert(indexed_so_far(start[at], now[at], done));
            assert(now[at].comic.num == comic.num);
            lemma_place(now, at);
            assert(entries_of(now, comic.num) + terms.pairs() =~= terms.pairs());
            if terms.pairs().len() > 0 {
                assert(listed(terms.pairs(), terms.pairs()[0].0));
                assert(terms@.contains_key(terms.pairs()[0].0));
                assert(terms_of(comic@).contains_key(terms.pairs()[0].0));
                assert(has_terms(comic@));
            } else {
                assert(!has_terms(comic@)) by {
                    if has_terms(comic@) {
                        let term = choose|term: Seq<char>| #[trigger]
                            terms_of(comic@).contains_key(term);
                        assert(terms@.contains_key(term));
                    }
                }
            }
        }
        match save_entries(db, comic.num, &terms) {
            Ok(()) => {
                saved.push(comic.num);
                proof {
                    assert(db.records()[at].terms =~= terms.pairs());
                }
            },
            Err(_) => {
                failed.push(comic.num);
                proof {
                    assert(db.records()[at].terms =~= terms.pairs());
                }
            },
        }
        proof {
            let after = db.records();
            assert forall|i: int| 0 <= i < start.len() implies indexed_so_far(
                start[i],
                #[trigger] after[i],
                done.push(comic@),
            ) by {
                assert(indexed_so_far(start[i], now[i], done));
                lemma_lists_more(done, comic@, start[i].comic.num);
                if i != at {
                    assert(after[i] == now[i]);
                    if i < at {
                        assert(start[i].comic.num != start[at].comic.num);
                    } else {
                        assert(start[at].comic.num != start[i].comic.num);
                    }
                }
            }
        }
        j += 1;
    }
    proof {
        assert(todo.take(j as int) == todo);
        assert forall|i: int| 0 <= i < start.len() implies indexed_record(
            start[i],
            #[trigger] db.records()[i],
        ) by {
            assert(indexed_so_far(start[i], db.records()[i], todo));
            if start[i].terms.len() == 0 {
                lemma_place(start, i);
                assert(lists(todo, start[i].comic.num));
            }
        }
        let end = db.records();
        assert(db.documents() =~= old(db).documents());
        assert forall|num: u32| holds(start, num) implies holds(end, num) && place(end, num)
            == place(start, num) && entries_of(end, num) == end[place(start, num)].terms
            && entries_of(start, num) == start[place(start, num)].terms by {
            let at = place(start, num);
            assert(indexed_record(start[at], end[at]));
            lemma_place(end, at);
        }
        assert forall|num: u32| holds(end, num) implies holds(start, num) by {
            let at = place(end, num);
            assert(indexed_record(start[at], end[at]));
            assert(start[at].comic.num == num);
        }
        assert(db.identifiers() =~= old(db).identifiers());
        assert forall|num: u32| entries_of(start, num).len() > 0 implies #[trigger] entries_of(
            end,
            num,
        ) == entries_of(start, num) by {
            assert(indexed_record(start[place(start, num)], end[place(start, num)]));
        }
        assert forall|num: u32| holds(start, num) && entries_of(start, num).len()
            == 0 implies indexes(#[trigger] entries_of(end, num), start[place(start, num)].comic) by {
            assert(indexed_record(start[place(start, num)], end[place(start, num)]));
        }
    }
    IndexReport { saved, failed }
}

/// One more comic is listed besides those that were.
proof fn lemma_lists_more(done: Seq<ComicView>, next: ComicView, num: u32)
    ensures
        lists(done.push(next), num) <==> lists(done, num) || num == next.num,
{
    let more = done.push(next);
    if lists(done, num) {
        let k = choose|k: int| 0 <= k < done.len() && (#[trigger] done[k]).num == num;
        assert(more[k].num == num);
    }
    if num == next.num {
        assert(more[done.len() as int].num == num);
    }
    if lists(more, num) {
        let k = choose|k: int| 0 <= k < more.len() && (#[trigger] more[k]).num == num;
        if k < done.len() {
            assert(done[k].num == num);
        }
    }
}

/// Incremental indexing: a second indexing pass, right after the first,
/// changes nothing. A comic that the first pass indexed is left as it is, and
/// a comic without terms still has none.
pub proof fn lemma_second_pass_changes_nothing(
    start: RecordView,
    first: RecordView,
    second: RecordView,
)
    requires
        indexed_record(start, first),
        indexed_record(first, second),
    ensures
        second == first,
{
    if first.terms.len() == 0 {
        assert(start.terms.len() == 0);
        if second.terms.len() > 0 {
            lemma_frequency_of(second.terms, 0);
            assert(counts(second.terms).contains_key(second.terms[0].0));
            assert(counts(first.terms).contains_key(second.terms[0].0));
            let k = choose|k: int|
                0 <= k < first.terms.len() && (#[trigger] first.terms[k]).0 == second.terms[0].0;
        }
        assert(second.terms =~= first.terms);
    }
}

} // verus!
