//! The archive as the engines see it: the comics that are held, each with
//! the terms that were saved for it.

use vstd::prelude::*;
use crate::comic::ComicView;
use crate::comic::XkcdComic;
use crate::terms::listed;
use crate::terms::frequency_of;
use crate::terms::valid_counts;
use crate::terms::TermCount;
use crate::terms::TermCounts;

verus! {

/// Why a read or a write of the archive failed. Each failure carries a
/// detail that says what went wrong.
#[derive(Debug)]
pub enum DatabaseError {
    /// The comics could not be read from where they are kept.
    LoadComicError(String),
    /// The terms of a comic were not saved.
    SaveEntryError(String),
}

impl DatabaseError {
    /// What kind of failure this is, in words.
    pub fn message(&self) -> (text: String)
        ensures
            self is LoadComicError ==> text@ == "Failed to load comic from database"@,
            self is SaveEntryError ==> text@ == "Failed to save terms to database"@,
    {
        match self {
            DatabaseError::LoadComicError(_) => "Failed to load comic from database".to_owned(),
            DatabaseError::SaveEntryError(_) => "Failed to save terms to database".to_owned(),
        }
    }

    /// The detail that the failure carries.
    pub fn detail(&self) -> (text: &String)
        ensures
            self matches DatabaseError::LoadComicError(d) ==> text@ == d@,
            self matches DatabaseError::SaveEntryError(d) ==> text@ == d@,
    {
        match self {
            DatabaseError::LoadComicError(detail) => detail,
            DatabaseError::SaveEntryError(detail) => detail,
        }
    }
}

/// A comic and the postings that are held for it.
struct Record {
    comic: XkcdComic,
    terms: TermCounts,
}

/// A comic and its postings as mathematical values: each posting is a term
/// with its frequency.
pub struct RecordView {
    pub comic: ComicView,
    pub terms: Seq<(Seq<char>, u64)>,
}

impl View for Record {
    type V = RecordView;

    closed spec fn view(&self) -> RecordView {
        RecordView { comic: self.comic@, terms: self.terms.pairs() }
    }
}

/// Whether one of `records` is the comic with the number `num`.
pub open spec fn holds(records: Seq<RecordView>, num: u32) -> bool {
    exists|i: int| 0 <= i < records.len() && (#[trigger] records[i]).comic.num == num
}

/// Where among `records` the comic with the number `num` stands.
pub open spec fn place(records: Seq<RecordView>, num: u32) -> int {
    choose|i: int| 0 <= i < records.len() && (#[trigger] records[i]).comic.num == num
}

/// The postings that `records` holds for the comic with the number `num`:
/// none where the comic is not held.
pub open spec fn entries_of(records: Seq<RecordView>, num: u32) -> Seq<(Seq<char>, u64)> {
    if holds(records, num) {
        records[place(records, num)].terms
    } else {
        Seq::empty()
    }
}

/// No two of `records` have the same number.
pub open spec fn distinct_numbers(records: Seq<RecordView>) -> bool {
    forall|i: int, j: int|
        0 <= i < j < records.len() ==> (#[trigger] records[i]).comic.num != (
        #[trigger] records[j]).comic.num
}

/// The comics of `records`, in order.
pub open spec fn comics_of(records: Seq<RecordView>) -> Seq<ComicView> {
    Seq::new(records.len(), |i: int| records[i].comic)
}

/// Whether one of the comics `docs` has the number `num`.
pub open spec fn lists(docs: Seq<ComicView>, num: u32) -> bool {
    exists|i: int| 0 <= i < docs.len() && (#[trigger] docs[i]).num == num
}

/// The records of `records` that have no posting, in order.
pub open spec fn without_terms(records: Seq<RecordView>) -> Seq<RecordView> {
    records.filter(|record: RecordView| record.terms.len() == 0)
}

/// The characters of each comic of `comics`.
pub open spec fn comic_views(comics: Seq<XkcdComic>) -> Seq<ComicView> {
    Seq::new(comics.len(), |i: int| comics[i]@)
}

/// A comic that has just been saved: it has no posting.
pub open spec fn fresh(comic: ComicView) -> RecordView {
    RecordView { comic, terms: Seq::empty() }
}

/// The comics that are held.
pub struct Database {
    records: Vec<Record>,
}

impl Database {
    /// The comics with their postings, in the order in which the comics were
    /// saved.
    pub closed spec fn records(&self) -> Seq<RecordView> {
        Seq::new(self.records@.len(), |i: int| self.records@[i]@)
    }

    /// The comics, in the order in which they were saved.
    pub open spec fn documents(&self) -> Seq<ComicView> {
        comics_of(self.records())
    }

    /// The numbers of the comics that are held.
    pub open spec fn identifiers(&self) -> Set<u32> {
        Set::new(|num: u32| holds(self.records(), num))
    }

    /// The postings as a mapping from a comic's number and a term to the
    /// frequency.
    pub open spec fn postings(&self) -> Map<(u32, Seq<char>), nat> {
        Map::new(
            |key: (u32, Seq<char>)| listed(entries_of(self.records(), key.0), key.1),
            |key: (u32, Seq<char>)| frequency_of(entries_of(self.records(), key.0), key.1),
        )
    }

    /// The constraints of the archive: a comic's number is its key, and
    /// among the postings of one comic no term is empty, no frequency is zero
    /// and no term stands twice.
    pub open spec fn wf(&self) -> bool {
        &&& distinct_numbers(self.records())
        &&& forall|i: int|
            0 <= i < self.records().len() ==> valid_counts((#[trigger] self.records()[i]).terms)
    }

    /// An archive without comics.
    pub fn new() -> (db: Database)
        ensures
            db.wf(),
            db.records() == Seq::<RecordView>::empty(),
    {
        let db = Database { records: Vec::new() };
        assert(db.records() =~= Seq::<RecordView>::empty());
        db
    }

    /// How many comics are held.
    pub fn comic_count(&self) -> (n: usize)
        ensures
            n == self.records().len(),
    {
        self.records.len()
    }

    /// Where the comic with the number `num` stands.
    fn find(&self, num: u32) -> (at: Option<usize>)
        ensures
            match at {
                Some(i) => i < self.records().len() && self.records()[i as int].comic.num == num,
                None => !holds(self.records(), num),
            },
    {
        let mut i: usize = 0;
        while i < self.records.len()
            invariant
                i <= self.records@.len(),
                forall|j: int| 0 <= j < i ==> (#[trigger] self.records()[j]).comic.num != num,
            decreases self.records@.len() - i,
        {
            if self.records[i].comic.num == num {
                return Some(i);
            }
            i += 1;
        }
        None
    }

    /// Whether the comic with the number `num` is held.
    pub fn has_comic(&self, num: u32) -> (held: bool)
        ensures
            held == self.identifiers().contains(num),
    {
        match self.find(num) {
            Some(i) => {
                assert(self.records()[i as int].comic.num == num);
                true
            },
            None => false,
        }
    }

    /// Whether any posting is held for the comic with the number `num`.
    pub fn has_terms(&self, num: u32) -> (held: bool)
        requires
            self.wf(),
        ensures
            held == (entries_of(self.records(), num).len() > 0),
    {
        match self.find(num) {
            Some(i) => {
                proof {
                    lemma_place(self.records(), i as int);
                }
                self.records[i].terms.len() > 0
            },
            None => false,
        }
    }

    /// Whether a posting of `term` is held for the comic with the number
    /// `num`.
    pub fn has_entry(&self, num: u32, term: &str) -> (held: bool)
        requires
            self.wf(),
        ensures
            held == listed(entries_of(self.records(), num), term@),
            held == self.postings().contains_key((num, term@)),
    {
        match self.find(num) {
            Some(i) => {
                proof {
                    lemma_place(self.records(), i as int);
                }
                self.records[i].terms.position(term).is_some()
            },
            None => false,
        }
    }
}

/// Among records with distinct numbers, a comic stands where its number is
/// found.
pub proof fn lemma_place(records: Seq<RecordView>, i: int)
    requires
        distinct_numbers(records),
        0 <= i < records.len(),
    ensures
        holds(records, records[i].comic.num),
        place(records, records[i].comic.num) == i,
        entries_of(records, records[i].comic.num) == records[i].terms,
{
    let num = records[i].comic.num;
    let k = choose|k: int| 0 <= k < records.len() && (#[trigger] records[k]).comic.num == num;
    if k < i {
        assert(records[k].comic.num != records[i].comic.num);
    } else if i < k {
        assert(records[i].comic.num != records[k].comic.num);
    }
}

/// What is held once a comic with a new number has been added: the comics
/// that were held and the new one, each with the postings that it has.
proof fn lemma_pushed(records: Seq<RecordView>, added: RecordView)
    requires
        distinct_numbers(records),
        !holds(records, added.comic.num),
    ensures
        distinct_numbers(records.push(added)),
        forall|num: u32| #[trigger]
            holds(records.push(added), num) <==> holds(records, num) || num == added.comic.num,
        forall|num: u32|
            num != added.comic.num ==> #[trigger] entries_of(records.push(added), num)
                == entries_of(records, num),
        entries_of(records.push(added), added.comic.num) == added.terms,
{
    let more = records.push(added);
    assert forall|i: int, j: int| 0 <= i < j < more.len() implies (#[trigger] more[i]).comic.num != (
    #[trigger] more[j]).comic.num by {
        if j < records.len() {
            assert(records[i].comic.num != records[j].comic.num);
        } else {
            assert(records[i].comic.num != added.comic.num);
        }
    }
    assert(more[records.len() as int] == added);
    lemma_place(more, records.len() as int);
    assert forall|num: u32| #[trigger]
        holds(more, num) <==> holds(records, num) || num == added.comic.num by {
        if holds(records, num) {
            let k = choose|k: int| 0 <= k < records.len() && (#[trigger] records[k]).comic.num == num;
            assert(more[k].comic.num == num);
        }
        if holds(more, num) {
            let k = choose|k: int| 0 <= k < more.len() && (#[trigger] more[k]).comic.num == num;
            if k < records.len() {
                assert(records[k].comic.num == num);
            }
        }
    }
    assert forall|num: u32| num != added.comic.num implies #[trigger] entries_of(more, num)
        == entries_of(records, num) by {
        if holds(records, num) {
            let k = place(records, num);
            assert(more[k] == records[k]);
            lemma_place(more, k);
        }
    }
}

/// Saves `comic` unless a comic with its number is held already. Says
/// whether it was saved. A comic that is held is never changed.
pub fn save_comic(db: &mut Database, comic: &XkcdComic) -> (saved: bool)
    requires
        old(db).wf(),
    ensures
        final(db).wf(),
        saved == !old(db).identifiers().contains(comic.num),
        saved ==> final(db).records() == old(db).records().push(fresh(comic@)),
        !saved ==> final(db).records() == old(db).records(),
        final(db).identifiers() == old(db).identifiers().insert(comic.num),
        forall|num: u32| #[trigger]
            entries_of(final(db).records(), num) == entries_of(old(db).records(), num),
{
    if db.has_comic(comic.num) {
        assert(db.identifiers() =~= db.identifiers().insert(comic.num));
        return false;
    }
    let ghost before = db.records();
    db.records.push(Record { comic: comic.clone(), terms: TermCounts::new() });
    proof {
        lemma_pushed(before, fresh(comic@));
        assert(db.records() =~= before.push(fresh(comic@)));
        assert(db.identifiers() =~= old(db).identifiers().insert(comic.num));
        assert forall|i: int| 0 <= i < db.records().len() implies valid_counts(
            (#[trigger] db.records()[i]).terms,
        ) by {
            if i < before.len() {
                assert(valid_counts(before[i].terms));
            }
        }
    }
    true
}

/// All comics that are held, in the order in which they were saved.
pub fn load_comics(db: &Database) -> (comics: Vec<XkcdComic>)
    ensures
        comic_views(comics@) == db.documents(),
{
    let mut comics: Vec<XkcdComic> = Vec::new();
    let mut i: usize = 0;
    while i < db.records.len()
        invariant
            i <= db.records@.len(),
            comic_views(comics@) == db.documents().take(i as int),
        decreases db.records@.len() - i,
    {
        let ghost before = comic_views(comics@);
        comics.push(db.records[i].comic.clone());
        assert(comic_views(comics@) =~= before.push(db.documents()[i as int]));
        assert(db.documents().take(i + 1) == db.documents().take(i as int).push(
            db.documents()[i as int],
        ));
        i += 1;
    }
    assert(db.documents().take(i as int) == db.documents());
    comics
}

/// The comics for which no posting is held, in the order in which they were
/// saved. A comic with a posting counts as indexed and is never handed out
/// again.
pub fn load_comics_with_no_terms(db: &Database) -> (comics: Vec<XkcdComic>)
    ensures
        comic_views(comics@) == comics_of(without_terms(db.records())),
{
    let mut comics: Vec<XkcdComic> = Vec::new();
    let ghost bare = |record: RecordView| record.terms.len() == 0;
    let mut i: usize = 0;
    while i < db.records.len()
        invariant
            i <= db.records@.len(),
            bare == |record: RecordView| record.terms.len() == 0,
            comic_views(comics@) == comics_of(db.records().take(i as int).filter(bare)),
        decreases db.records@.len() - i,
    {
        let ghost before = comic_views(comics@);
        let ghost kept = db.records().take(i as int).filter(bare);
        proof {
            assert(db.records().take(i + 1) == db.records().take(i as int).push(
                db.records()[i as int],
            ));
            db.records().take(i as int).lemma_filter_push(db.records()[i as int], bare);
        }
        if db.records[i].terms.len() == 0 {
            comics.push(db.records[i].comic.clone());
            assert(comic_views(comics@) =~= before.push(db.records()[i as int].comic));
            assert(comics_of(kept.push(db.records()[i as int])) =~= comics_of(kept).push(
                db.records()[i as int].comic,
            ));
        }
        i += 1;
    }
    assert(db.records().take(i as int) == db.records());
    comics
}

/// Whether the entries `pairs` can be saved for the comic with the number
/// `num`: there is an entry, the comic is held, and its postings with the
/// entries behind them are valid, so that no term is empty, no frequency is
/// zero and no term stands twice.
pub open spec fn accepts(records: Seq<RecordView>, num: u32, pairs: Seq<(Seq<char>, u64)>) -> bool {
    &&& pairs.len() > 0
    &&& holds(records, num)
    &&& valid_counts(entries_of(records, num) + pairs)
}

/// The records once the entries `pairs` have been saved for the comic with
/// the number `num`.
pub open spec fn with_entries(records: Seq<RecordView>, num: u32, pairs: Seq<(Seq<char>, u64)>) -> Seq<
    RecordView,
> {
    let at = place(records, num);
    records.update(at, RecordView { comic: records[at].comic, terms: records[at].terms + pairs })
}

/// What is held once entries have been added to the postings of the comic
/// that stands at `at`: the same comics, that one with the entries behind its
/// postings, the others with the postings that they had.
proof fn lemma_updated(records: Seq<RecordView>, at: int, pairs: Seq<(Seq<char>, u64)>)
    requires
        distinct_numbers(records),
        0 <= at < records.len(),
    ensures
        ({
            let after = records.update(
                at,
                RecordView { comic: records[at].comic, terms: records[at].terms + pairs },
            );
            &&& distinct_numbers(after)
            &&& forall|num: u32| #[trigger] holds(after, num) <==> holds(records, num)
            &&& forall|num: u32|
                num != records[at].comic.num ==> #[trigger] entries_of(after, num) == entries_of(
                    records,
                    num,
                )
            &&& entries_of(after, records[at].comic.num) == records[at].terms + pairs
        }),
{
    let after = records.update(
        at,
        RecordView { comic: records[at].comic, terms: records[at].terms + pairs },
    );
    assert forall|i: int, j: int| 0 <= i < j < after.len() implies (#[trigger] after[i]).comic.num
        != (#[trigger] after[j]).comic.num by {
        assert(records[i].comic.num != records[j].comic.num);
    }
    lemma_place(after, at);
    assert forall|num: u32| #[trigger] holds(after, num) <==> holds(records, num) by {
        if holds(records, num) {
            let k = choose|k: int| 0 <= k < records.len() && (#[trigger] records[k]).comic.num == num;
            assert(after[k].comic.num == num);
        }
        if holds(after, num) {
            let k = choose|k: int| 0 <= k < after.len() && (#[trigger] after[k]).comic.num == num;
            assert(records[k].comic.num == num);
        }
    }
    assert forall|num: u32| num != records[at].comic.num implies #[trigger] entries_of(after, num)
        == entries_of(records, num) by {
        if holds(records, num) {
            let k = place(records, num);
            assert(after[k] == records[k]);
            lemma_place(after, k);
        }
    }
}

/// Whether the first `n` of the entries `pairs` can stand behind `held`.
spec fn checked(held: Seq<(Seq<char>, u64)>, pairs: Seq<(Seq<char>, u64)>, n: int) -> bool {
    &&& forall|i: int|
        0 <= i < n ==> (#[trigger] pairs[i]).0.len() > 0 && pairs[i].1 >= 1 && !listed(
            held,
            pairs[i].0,
        )
    &&& forall|i: int, j: int|
        0 <= i < j < n ==> (#[trigger] pairs[i]).0 != (#[trigger] pairs[j]).0
}

/// Valid entries behind valid postings are valid exactly if they were
/// checked against them.
proof fn lemma_checked(held: Seq<(Seq<char>, u64)>, pairs: Seq<(Seq<char>, u64)>)
    requires
        valid_counts(held),
    ensures
        checked(held, pairs, pairs.len() as int) <==> valid_counts(held + pairs),
{
    let all = held + pairs;
    if checked(held, pairs, pairs.len() as int) {
        assert forall|i: int| 0 <= i < all.len() implies (#[trigger] all[i]).0.len() > 0
            && all[i].1 >= 1 by {
            if i < held.len() {
                assert(held[i].0.len() > 0);
            } else {
                assert(pairs[i - held.len()].0.len() > 0);
            }
        }
        assert forall|i: int, j: int| 0 <= i < j < all.len() implies (#[trigger] all[i]).0 != (
        #[trigger] all[j]).0 by {
            if j < held.len() {
                assert(held[i].0 != held[j].0);
            } else if i < held.len() {
                assert(held[i].0 == all[i].0);
                assert(!listed(held, pairs[j - held.len()].0));
            } else {
                assert(pairs[i - held.len()].0 != pairs[j - held.len()].0);
            }
        }
    }
    if valid_counts(all) {
        assert forall|i: int| 0 <= i < pairs.len() implies (#[trigger] pairs[i]).0.len() > 0
            && pairs[i].1 >= 1 && !listed(held, pairs[i].0) by {
            assert(all[held.len() + i] == pairs[i]);
            if listed(held, pairs[i].0) {
                let k = choose|k: int| 0 <= k < held.len() && (#[trigger] held[k]).0 == pairs[i].0;
                assert(all[k].0 != all[held.len() + i].0);
            }
        }
        assert forall|i: int, j: int| 0 <= i < j < pairs.len() implies (#[trigger] pairs[i]).0 != (
        #[trigger] pairs[j]).0 by {
            assert(all[held.len() + i].0 != all[held.len() + j].0);
        }
    }
}

/// Whether every entry of `terms` can stand behind `held`.
fn check_entries(held: &TermCounts, terms: &TermCounts) -> (fine: bool)
    ensures
        fine == checked(held.pairs(), terms.pairs(), terms.pairs().len() as int),
{
    let ghost pairs = terms.pairs();
    let mut n: usize = 0;
    while n < terms.entries.len()
        invariant
            n <= terms.entries@.len(),
            pairs == terms.pairs(),
            checked(held.pairs(), pairs, n as int),
        decreases terms.entries@.len() - n,
    {
        let entry = &terms.entries[n];
        assert(pairs[n as int] == (entry.term@, entry.frequency));
        if entry.term.as_str().is_empty() || entry.frequency == 0 {
            return false;
        }
        if held.position(entry.term.as_str()).is_some() {
            return false;
        }
        match terms.position(entry.term.as_str()) {
            Some(k) => {
                if k != n {
                    assert(pairs[k as int].0 == pairs[n as int].0);
                    return false;
                }
                assert forall|i: int| 0 <= i < n implies (#[trigger] pairs[i]).0 != pairs[n as int].0 by {
                    assert(terms.entries@[i].term@ != entry.term@);
                }
            },
            None => {
                assert(pairs[n as int].0 == entry.term@);
                assert(listed(pairs, entry.term@));
                return false;
            },
        }
        n += 1;
    }
    true
}

/// Saves one posting for each entry of `terms`, for the comic with the
/// number `comic_num`: all of them, or none. Nothing is saved where `terms`
/// has no entry, and nothing where one of the postings cannot be saved: see
/// [`accepts`].
pub fn save_entries(db: &mut Database, comic_num: u32, terms: &TermCounts) -> (saved: Result<
    (),
    DatabaseError,
>)
    requires
        old(db).wf(),
    ensures
        final(db).wf(),
        saved is Ok <==> accepts(old(db).records(), comic_num, terms.pairs()),
        saved is Ok ==> final(db).records() == with_entries(
            old(db).records(),
            comic_num,
            terms.pairs(),
        ),
        saved is Err ==> final(db).records() == old(db).records(),
        final(db).identifiers() == old(db).identifiers(),
        saved is Ok ==> entries_of(final(db).records(), comic_num) == entries_of(
            old(db).records(),
            comic_num,
        ) + terms.pairs(),
        forall|num: u32|
            num != comic_num ==> #[trigger] entries_of(final(db).records(), num) == entries_of(
                old(db).records(),
                num,
            ),
        saved matches Err(e) ==> e matches DatabaseError::SaveEntryError(detail) && detail@ == (
        if terms.pairs().len() == 0 {
            "No entries provided"@
        } else {
            "Failed to save entry"@
        }),
{
    if terms.is_empty() {
        return Err(DatabaseError::SaveEntryError("No entries provided".to_owned()));
    }
    let at = match db.find(comic_num) {
        Some(at) => at,
        None => {
            return Err(DatabaseError::SaveEntryError("Failed to save entry".to_owned()));
        },
    };
    let ghost before = db.records();
    let ghost pairs = terms.pairs();
    proof {
        lemma_place(before, at as int);
        lemma_checked(before[at as int].terms, pairs);
    }
    if !check_entries(&db.records[at].terms, terms) {
        return Err(DatabaseError::SaveEntryError("Failed to save entry".to_owned()));
    }
    let mut n: usize = 0;
    while n < terms.entries.len()
        invariant
            n <= terms.entries@.len(),
            pairs == terms.pairs(),
            at < before.len(),
            at < db.records@.len(),
            db.records() == before.update(
                at as int,
                RecordView {
                    comic: before[at as int].comic,
                    terms: before[at as int].terms + pairs.take(n as int),
                },
            ),
        decreases terms.entries@.len() - n,
    {
        let entry = &terms.entries[n];
        let ghost so_far = db.records();
        db.records[at].terms.entries.push(
            TermCount { term: entry.term.clone(), frequency: entry.frequency },
        );
        proof {
            assert(pairs[n as int] == (entry.term@, entry.frequency));
            assert(db.records()[at as int].terms =~= so_far[at as int].terms.push(pairs[n as int]));
            assert(db.records()[at as int].comic == so_far[at as int].comic);
            assert(db.records().len() == so_far.len());
            assert forall|i: int| 0 <= i < so_far.len() && i != at implies #[trigger] db.records()[i]
                == so_far[i] by {}
            assert(before[at as int].terms + pairs.take(n + 1) =~= (before[at as int].terms
                + pairs.take(n as int)).push(pairs[n as int]));
            assert(db.records() =~= before.update(
                at as int,
                RecordView {
                    comic: before[at as int].comic,
                    terms: before[at as int].terms + pairs.take(n + 1),
                },
            ));
        }
        n += 1;
    }
    proof {
        assert(pairs.take(n as int) == pairs);
        let after = db.records();
        assert forall|i: int, j: int| 0 <= i < j < after.len() implies (#[trigger] after[i]).comic.num
            != (#[trigger] after[j]).comic.num by {
            assert(before[i].comic.num != before[j].comic.num);
        }
        assert forall|i: int| 0 <= i < after.len() implies valid_counts((#[trigger] after[i]).terms) by {
            if i != at {
                assert(valid_counts(before[i].terms));
            }
        }
        lemma_updated(before, at as int, pairs);
        assert(db.identifiers() =~= old(db).identifiers());
    }
    Ok(())
}

/// The terms that are held for the comic with the number `comic_num`, each
/// with its frequency, in the order in which they were saved.
pub fn load_entries(db: &Database, comic_num: u32) -> (counts: TermCounts)
    requires
        db.wf(),
    ensures
        counts.pairs() == entries_of(db.records(), comic_num),
        counts.wf(),
        forall|term: Seq<char>| #[trigger]
            counts@.contains_key(term) <==> db.postings().contains_key((comic_num, term)),
        forall|term: Seq<char>| #[trigger]
            counts@.contains_key(term) ==> counts@[term] == db.postings()[(comic_num, term)],
{
    let mut counts = TermCounts::new();
    match db.find(comic_num) {
        Some(at) => {
            proof {
                lemma_place(db.records(), at as int);
            }
            let held = &db.records[at].terms;
            let mut n: usize = 0;
            while n < held.entries.len()
                invariant
                    n <= held.entries@.len(),
                    counts.pairs() == held.pairs().take(n as int),
                decreases held.entries@.len() - n,
            {
                let ghost before = counts.pairs();
                counts.entries.push(
                    TermCount {
                        term: held.entries[n].term.clone(),
                        frequency: held.entries[n].frequency,
                    },
                );
                assert(counts.pairs() =~= before.push(held.pairs()[n as int]));
                assert(held.pairs().take(n + 1) == held.pairs().take(n as int).push(
                    held.pairs()[n as int],
                ));
                n += 1;
            }
            assert(held.pairs().take(n as int) == held.pairs());
            assert(valid_counts(db.records()[at as int].terms));
        },
        None => {
            assert(counts.pairs() =~= Seq::<(Seq<char>, u64)>::empty());
        },
    }
    counts
}

/// A selection of records with distinct numbers has distinct numbers.
proof fn lemma_filter_distinct(records: Seq<RecordView>, keep: spec_fn(RecordView) -> bool)
    requires
        distinct_numbers(records),
    ensures
        distinct_numbers(records.filter(keep)),
    decreases records.len(),
{
    reveal(Seq::filter);
    if records.len() > 0 {
        let rest = records.drop_last();
        lemma_filter_distinct(rest, keep);
        let kept = rest.filter(keep);
        if keep(records.last()) {
            let all = kept.push(records.last());
            assert forall|i: int, j: int| 0 <= i < j < all.len() implies (#[trigger] all[i]).comic.num
                != (#[trigger] all[j]).comic.num by {
                if j == kept.len() {
                    assert(kept.contains(kept[i]));
                    rest.lemma_filter_contains_rev(keep, kept[i]);
                    let k = choose|k: int| 0 <= k < rest.len() && rest[k] == kept[i];
                    assert(records[k].comic.num != records[records.len() - 1].comic.num);
                } else {
                    assert(kept[i].comic.num != kept[j].comic.num);
                }
            }
        }
    }
}

/// The comics without postings have distinct numbers, each of them is held
/// and has no posting, and every comic that is held and has no posting is one
/// of them.
pub proof fn lemma_without_terms(records: Seq<RecordView>)
    requires
        distinct_numbers(records),
    ensures
        forall|k: int, l: int|
            0 <= k < l < comics_of(without_terms(records)).len() ==> (#[trigger] comics_of(
                without_terms(records),
            )[k]).num != (#[trigger] comics_of(without_terms(records))[l]).num,
        forall|k: int|
            0 <= k < comics_of(without_terms(records)).len() ==> {
                let doc = #[trigger] comics_of(without_terms(records))[k];
                &&& holds(records, doc.num)
                &&& records[place(records, doc.num)].comic == doc
                &&& entries_of(records, doc.num).len() == 0
            },
        forall|i: int|
            0 <= i < records.len() && (#[trigger] records[i]).terms.len() == 0 ==> lists(
                comics_of(without_terms(records)),
                records[i].comic.num,
            ),
{
    let bare = |record: RecordView| record.terms.len() == 0;
    let left = records.filter(bare);
    let todo = comics_of(left);
    lemma_filter_distinct(records, bare);
    assert forall|k: int, l: int| 0 <= k < l < todo.len() implies (#[trigger] todo[k]).num != (
    #[trigger] todo[l]).num by {
        assert(left[k].comic.num != left[l].comic.num);
    }
    assert forall|k: int| 0 <= k < todo.len() implies {
        let doc = #[trigger] todo[k];
        &&& holds(records, doc.num)
        &&& records[place(records, doc.num)].comic == doc
        &&& entries_of(records, doc.num).len() == 0
    } by {
        records.lemma_filter_pred(bare, k);
        assert(left.contains(left[k]));
        records.lemma_filter_contains_rev(bare, left[k]);
        let i = choose|i: int| 0 <= i < records.len() && records[i] == left[k];
        lemma_place(records, i);
    }
    assert forall|i: int| 0 <= i < records.len() && (#[trigger] records[i]).terms.len()
        == 0 implies lists(todo, records[i].comic.num) by {
        records.lemma_filter_contains(bare, i);
        let k = choose|k: int| 0 <= k < left.len() && left[k] == records[i];
        assert(todo[k].num == records[i].comic.num);
    }
}

} // verus!
