//! The synchronisation engine: which comics to ask the remote source for, in
//! which order, and when to stop. The engine is a state machine. The caller
//! makes each request that it asks for and hands back the answer.

use vstd::prelude::*;
use crate::comic::XkcdComic;
use crate::database::entries_of;
use crate::database::fresh;
use crate::database::save_comic;
use crate::database::Database;
use crate::request::FetchComicError;

verus! {

/// The one number under which the remote source never publishes a comic.
pub const KNOWN_BAD: u32 = 404;

/// The number taken for that of the newest comic where the remote source
/// does not tell it.
pub const FALLBACK_NEWEST: u32 = 9999;

/// A number is passed over if its comic is held or if it is the known-bad
/// number.
pub open spec fn skipped(ids: Set<u32>, num: u32) -> bool {
    ids.contains(num) || num == KNOWN_BAD
}

/// The first number above `after` and up to `newest` that is not passed
/// over, if there is one.
pub open spec fn next_missing(ids: Set<u32>, after: u32, newest: u32) -> Option<u32>
    decreases newest - after,
{
    if after >= newest {
        None
    } else if !skipped(ids, (after + 1) as u32) {
        Some((after + 1) as u32)
    } else {
        next_missing(ids, (after + 1) as u32, newest)
    }
}

/// The first number above `after` and up to `newest` whose comic is neither
/// held nor known to be bad.
pub fn next_to_fetch(db: &Database, after: u32, newest: u32) -> (next: Option<u32>)
    ensures
        next == next_missing(db.identifiers(), after, newest),
{
    let mut at = after;
    while at < newest
        invariant
            next_missing(db.identifiers(), after, newest) == next_missing(
                db.identifiers(),
                at,
                newest,
            ),
        decreases newest - at,
    {
        let candidate = at + 1;
        if candidate != KNOWN_BAD && !db.has_comic(candidate) {
            return Some(candidate);
        }
        at = candidate;
    }
    None
}

/// Where a run stands.
#[derive(Debug, Clone, Copy)]
pub enum SyncPhase {
    /// The newest comic has been asked for, to learn its number.
    Latest,
    /// The comic with the number `asked` has been asked for.
    Filling,
    /// The run is over.
    Finished,
}

/// The state of a run.
#[derive(Debug, Clone, Copy)]
pub struct SyncState {
    pub phase: SyncPhase,
    /// The number of the newest comic, once it is known.
    pub newest: u32,
    /// The number that was asked for last.
    pub asked: u32,
    /// How many comics were held when the run began.
    pub found: usize,
    /// How many comics the run has saved.
    pub fetched: u32,
}

/// What a run reports at its end: the comics that were held when it began
/// and the comics that it saved.
#[derive(Debug, Clone, Copy)]
pub struct SyncSummary {
    pub found: usize,
    pub fetched: u32,
}

/// What the caller is to do next.
#[derive(Debug, Clone, Copy)]
pub enum SyncAction {
    /// Fetch the comic with this number, 0 standing for the newest, and hand
    /// the outcome to `populate_db`.
    Fetch(u32),
    /// Nothing more: the run is over.
    Finish(SyncSummary),
}

impl SyncState {
    /// While a comic is asked for, fewer comics have been saved than its
    /// number says.
    pub open spec fn wf(&self) -> bool {
        match self.phase {
            SyncPhase::Latest => self.asked == 0 && self.fetched == 0,
            SyncPhase::Filling => 1 <= self.asked <= self.newest && self.fetched < self.asked,
            SyncPhase::Finished => true,
        }
    }

    /// Begins a run. The first request is for the newest comic:
    /// `SyncAction::Fetch(0)`.
    pub fn start(db: &Database) -> (begun: (SyncState, SyncAction))
        ensures
            begun.0 == (SyncState {
                phase: SyncPhase::Latest,
                newest: 0,
                asked: 0,
                found: db.records().len() as usize,
                fetched: 0,
            }),
            begun.0.wf(),
            begun.1 == SyncAction::Fetch(0),
    {
        (
            SyncState {
                phase: SyncPhase::Latest,
                newest: 0,
                asked: 0,
                found: db.comic_count(),
                fetched: 0,
            },
            SyncAction::Fetch(0),
        )
    }
}

/// The number of the newest comic as the answer to the first request tells
/// it: the number of the comic that came, or the fallback where none came.
pub open spec fn frontier(response: Result<XkcdComic, FetchComicError>) -> u32 {
    match response {
        Ok(comic) => comic.num,
        Err(_) => FALLBACK_NEWEST,
    }
}

/// How a run goes on once every number up to `after` has been dealt with:
/// it asks for the next missing comic, or it ends where none is missing.
pub open spec fn proceed(ids: Set<u32>, after: u32, newest: u32, found: usize, fetched: u32) -> (
    SyncState,
    SyncAction,
) {
    match next_missing(ids, after, newest) {
        Some(num) => (
            SyncState { phase: SyncPhase::Filling, newest, asked: num, found, fetched },
            SyncAction::Fetch(num),
        ),
        None => (
            SyncState { phase: SyncPhase::Finished, newest, asked: after, found, fetched },
            SyncAction::Finish(SyncSummary { found, fetched }),
        ),
    }
}

/// The first missing number lies above `after`, is at most `newest`, is not
/// the known-bad number and is not held; every number between is passed over.
pub proof fn lemma_next_missing(ids: Set<u32>, after: u32, newest: u32)
    ensures
        match next_missing(ids, after, newest) {
            Some(num) => after < num <= newest && !skipped(ids, num) && forall|between: u32|
                after < between < num ==> skipped(ids, between),
            None => forall|between: u32| after < between <= newest ==> skipped(ids, between),
        },
    decreases newest - after,
{
    if after < newest && skipped(ids, (after + 1) as u32) {
        lemma_next_missing(ids, (after + 1) as u32, newest);
    }
}

/// Goes on to the next missing number above `after`, or ends the run.
fn advance(state: &mut SyncState, db: &Database, after: u32) -> (action: SyncAction)
    requires
        old(state).fetched <= after,
    ensures
        (*final(state), action) == proceed(
            db.identifiers(),
            after,
            old(state).newest,
            old(state).found,
            old(state).fetched,
        ),
        final(state).wf(),
        action matches SyncAction::Fetch(num) ==> after < num <= old(state).newest && num
            != KNOWN_BAD && !db.identifiers().contains(num),
{
    proof {
        lemma_next_missing(db.identifiers(), after, state.newest);
    }
    match next_to_fetch(db, after, state.newest) {
        Some(num) => {
            state.phase = SyncPhase::Filling;
            state.asked = num;
            SyncAction::Fetch(num)
        },
        None => {
            state.phase = SyncPhase::Finished;
            state.asked = after;
            SyncAction::Finish(SyncSummary { found: state.found, fetched: state.fetched })
        },
    }
}

/// One step of a run: takes the outcome of the request that was asked for
/// last and says what to do next.
///
/// The answer to the first request sets the number of the newest comic. A
/// comic that came is saved at once, under its own number, unless that number
/// is held already. Then the next missing number is asked for, in ascending
/// order, the known-bad number never. A request that failed ends the run: the
/// numbers above it are left for the next run. A run that is over stays over.
pub fn populate_db(
    state: &mut SyncState,
    db: &mut Database,
    response: Result<XkcdComic, FetchComicError>,
) -> (action: SyncAction)
    requires
        old(state).wf(),
        old(db).wf(),
    ensures
        final(state).wf(),
        final(db).wf(),
        action matches SyncAction::Fetch(num) ==> 1 <= num <= final(state).newest && num
            != KNOWN_BAD && !final(db).identifiers().contains(num),
        final(db).identifiers().contains(KNOWN_BAD) ==> old(db).identifiers().contains(KNOWN_BAD)
            || (response matches Ok(comic) && comic.num == KNOWN_BAD),
        final(db).identifiers() == if old(state).phase is Filling && response is Ok {
            old(db).identifiers().insert(response->Ok_0.num)
        } else {
            old(db).identifiers()
        },
        forall|num: u32| #[trigger]
            entries_of(final(db).records(), num) == entries_of(old(db).records(), num),
        match old(state).phase {
            SyncPhase::Latest => {
                &&& final(db).records() == old(db).records()
                &&& (*final(state), action) == proceed(
                    old(db).identifiers(),
                    0,
                    frontier(response),
                    old(state).found,
                    0,
                )
            },
            SyncPhase::Filling => match response {
                Ok(comic) => {
                    let saved = !old(db).identifiers().contains(comic.num);
                    &&& final(db).records() == if saved {
                        old(db).records().push(fresh(comic@))
                    } else {
                        old(db).records()
                    }
                    &&& (*final(state), action) == proceed(
                        final(db).identifiers(),
                        old(state).asked,
                        old(state).newest,
                        old(state).found,
                        if saved {
                            (old(state).fetched + 1) as u32
                        } else {
                            old(state).fetched
                        },
                    )
                },
                Err(_) => {
                    &&& final(db).records() == old(db).records()
                    &&& *final(state) == (SyncState { phase: SyncPhase::Finished, ..*old(state) })
                    &&& action == SyncAction::Finish(
                        SyncSummary { found: old(state).found, fetched: old(state).fetched },
                    )
                },
            },
            SyncPhase::Finished => {
                &&& final(db).records() == old(db).records()
                &&& *final(state) == *old(state)
                &&& action == SyncAction::Finish(
                    SyncSummary { found: old(state).found, fetched: old(state).fetched },
                )
            },
        },
{
    match state.phase {
        SyncPhase::Latest => {
            state.newest = match response {
                Ok(comic) => comic.num,
                Err(_) => FALLBACK_NEWEST,
            };
            advance(state, db, 0)
        },
        SyncPhase::Filling => {
            match response {
                Ok(comic) => {
                    if save_comic(db, &comic) {
                        state.fetched = state.fetched + 1;
                    }
                    let asked = state.asked;
                    advance(state, db, asked)
                },
                Err(_) => {
                    state.phase = SyncPhase::Finished;
                    SyncAction::Finish(SyncSummary { found: state.found, fetched: state.fetched })
                },
            }
        },
        SyncPhase::Finished => SyncAction::Finish(
            SyncSummary { found: state.found, fetched: state.fetched },
        ),
    }
}

/// How a run ends: the numbers of the comics held, how many the run saved,
/// and the number at which it stopped short, if it did.
pub struct RunOutcome {
    pub ids: Set<u32>,
    pub fetched: nat,
    pub halted_at: Option<u32>,
}

/// A run of `populate_db` over the numbers above `after` and up to `newest`
/// that begins with the comics `ids` held, against a remote source that
/// answers a request for a number with the comic of that number if the number
/// is in `reachable` and fails it otherwise. The run asks for the next missing
/// number; the comic that comes is saved and the run goes on from there; the
/// first failure ends the run, and so does the lack of a missing number.
pub open spec fn run(ids: Set<u32>, reachable: Set<u32>, after: u32, newest: u32) -> RunOutcome
    decreases newest - after,
{
    match next_missing(ids, after, newest) {
        None => RunOutcome { ids, fetched: 0, halted_at: None },
        Some(num) => if reachable.contains(num) {
            proof {
                lemma_next_missing(ids, after, newest);
            }
            let rest = run(ids.insert(num), reachable, num, newest);
            RunOutcome { ids: rest.ids, fetched: rest.fetched + 1, halted_at: rest.halted_at }
        } else {
            RunOutcome { ids, fetched: 0, halted_at: Some(num) }
        },
    }
}

/// Numbers that are passed over make no difference to what is missing next.
proof fn lemma_next_missing_from(ids: Set<u32>, after: u32, from: u32, newest: u32)
    requires
        after <= from <= newest,
        forall|between: u32| after < between <= from ==> skipped(ids, between),
    ensures
        next_missing(ids, after, newest) == next_missing(ids, from, newest),
    decreases from - after,
{
    if after < from {
        assert(skipped(ids, (after + 1) as u32));
        lemma_next_missing_from(ids, (after + 1) as u32, from, newest);
    }
}

/// What a run leaves: every comic that was held is still held, and a comic
/// that was added has a number that the run went through, that is not the
/// known-bad number, and that the remote source answers.
proof fn lemma_run_keeps(ids: Set<u32>, reachable: Set<u32>, after: u32, newest: u32)
    ensures
        forall|num: u32| ids.contains(num) ==> #[trigger] run(
            ids,
            reachable,
            after,
            newest,
        ).ids.contains(num),
        forall|num: u32| #[trigger]
            run(ids, reachable, after, newest).ids.contains(num) ==> ids.contains(num) || (after
                < num <= newest && num != KNOWN_BAD && reachable.contains(num)),
    decreases newest - after,
{
    lemma_next_missing(ids, after, newest);
    match next_missing(ids, after, newest) {
        None => {},
        Some(next) => {
            if reachable.contains(next) {
                lemma_run_keeps(ids.insert(next), reachable, next, newest);
            }
        },
    }
}

/// A second run that starts where the first started saves nothing and ends
/// where the first ended.
proof fn lemma_rerun(ids: Set<u32>, reachable: Set<u32>, after: u32, newest: u32)
    ensures
        ({
            let first = run(ids, reachable, after, newest);
            run(first.ids, reachable, after, newest) == RunOutcome {
                ids: first.ids,
                fetched: 0,
                halted_at: first.halted_at,
            }
        }),
    decreases newest - after,
{
    let first = run(ids, reachable, after, newest);
    lemma_next_missing(ids, after, newest);
    match next_missing(ids, after, newest) {
        None => {},
        Some(next) => {
            if reachable.contains(next) {
                let more = ids.insert(next);
                lemma_rerun(more, reachable, next, newest);
                lemma_run_keeps(more, reachable, next, newest);
                assert(more.contains(next));
                assert forall|between: u32| after < between <= next implies skipped(
                    first.ids,
                    between,
                ) by {
                    if between < next {
                        assert(skipped(ids, between));
                        if ids.contains(between) {
                            assert(more.contains(between));
                        }
                    }
                }
                lemma_next_missing_from(first.ids, after, next, newest);
            }
        },
    }
}

/// Idempotent synchronisation: a second run, right after the first and
/// against an unchanged remote source, saves no comic and leaves the set of
/// comics as the first run left it.
pub proof fn lemma_second_run_saves_nothing(ids: Set<u32>, reachable: Set<u32>, newest: u32)
    ensures
        run(run(ids, reachable, 0, newest).ids, reachable, 0, newest).fetched == 0,
        run(run(ids, reachable, 0, newest).ids, reachable, 0, newest).ids == run(
            ids,
            reachable,
            0,
            newest,
        ).ids,
{
    lemma_rerun(ids, reachable, 0, newest);
}

/// The known-bad number is never asked for.
pub proof fn lemma_known_bad_never_requested(ids: Set<u32>, after: u32, newest: u32)
    ensures
        next_missing(ids, after, newest) != Some(KNOWN_BAD),
{
    lemma_next_missing(ids, after, newest);
}

/// The known-bad number is not among the comics after a run unless it was
/// among them before.
pub proof fn lemma_known_bad_never_saved(ids: Set<u32>, reachable: Set<u32>, newest: u32)
    requires
        !ids.contains(KNOWN_BAD),
    ensures
        !run(ids, reachable, 0, newest).ids.contains(KNOWN_BAD),
{
    lemma_run_keeps(ids, reachable, 0, newest);
}

/// What a run that halts leaves, the run starting after `after`.
proof fn lemma_halted_run(ids: Set<u32>, reachable: Set<u32>, after: u32, newest: u32)
    requires
        run(ids, reachable, after, newest).halted_at is Some,
    ensures
        ({
            let end = run(ids, reachable, after, newest);
            let halt = end.halted_at->0;
            &&& after < halt <= newest
            &&& !reachable.contains(halt)
            &&& !skipped(end.ids, halt)
            &&& forall|num: u32| #[trigger]
                end.ids.contains(num) <==> ids.contains(num) || (after < num < halt && num
                    != KNOWN_BAD)
            &&& next_missing(end.ids, after, newest) == Some(halt)
        }),
    decreases newest - after,
{
    let end = run(ids, reachable, after, newest);
    lemma_next_missing(ids, after, newest);
    let next = next_missing(ids, after, newest)->0;
    if reachable.contains(next) {
        let more = ids.insert(next);
        lemma_halted_run(more, reachable, next, newest);
        let halt = end.halted_at->0;
        assert(more.contains(next));
        assert forall|num: u32| #[trigger]
            end.ids.contains(num) <==> ids.contains(num) || (after < num < halt && num
                != KNOWN_BAD) by {
            assert(more.contains(num) <==> ids.contains(num) || num == next);
            if after < num < next {
                assert(skipped(ids, num));
            }
        }
        assert forall|between: u32| after < between <= next implies skipped(end.ids, between) by {
            if between < next {
                assert(skipped(ids, between));
            }
        }
        lemma_next_missing_from(end.ids, after, next, newest);
    } else {
        assert forall|num: u32| #[trigger]
            end.ids.contains(num) <==> ids.contains(num) || (after < num < next && num
                != KNOWN_BAD) by {
            if after < num < next {
                assert(skipped(ids, num));
            }
        }
    }
}

/// Halt and resume: a run that stops short at the number `halt` has saved
/// the comics of all numbers below `halt` but the known-bad one, has saved
/// none from `halt` on, and the next run begins by asking for `halt` again.
pub proof fn lemma_halt_and_resume(ids: Set<u32>, reachable: Set<u32>, newest: u32)
    requires
        run(ids, reachable, 0, newest).halted_at is Some,
    ensures
        ({
            let end = run(ids, reachable, 0, newest);
            let halt = end.halted_at->0;
            &&& 1 <= halt <= newest
            &&& !reachable.contains(halt)
            &&& !end.ids.contains(halt)
            &&& forall|num: u32|
                1 <= num < halt && num != KNOWN_BAD ==> #[trigger] end.ids.contains(num)
            &&& forall|num: u32| num >= halt ==> (#[trigger] end.ids.contains(num) <==> ids.contains(num))
            &&& next_missing(end.ids, 0, newest) == Some(halt)
        }),
{
    lemma_halted_run(ids, reachable, 0, newest);
}

/// A run that does not stop short leaves no number missing: every number
/// above `after` and up to `newest` but the known-bad one has its comic.
pub proof fn lemma_complete_run(ids: Set<u32>, reachable: Set<u32>, after: u32, newest: u32)
    requires
        run(ids, reachable, after, newest).halted_at is None,
    ensures
        forall|num: u32|
            after < num <= newest && num != KNOWN_BAD ==> #[trigger] run(
                ids,
                reachable,
                after,
                newest,
            ).ids.contains(num),
    decreases newest - after,
{
    lemma_next_missing(ids, after, newest);
    lemma_run_keeps(ids, reachable, after, newest);
    match next_missing(ids, after, newest) {
        None => {
            assert forall|num: u32| after < num <= newest && num != KNOWN_BAD implies ids.contains(
                num,
            ) by {
                assert(skipped(ids, num));
            }
        },
        Some(next) => {
            let more = ids.insert(next);
            lemma_complete_run(more, reachable, next, newest);
            lemma_run_keeps(more, reachable, next, newest);
            assert(more.contains(next));
            assert forall|num: u32| after < num <= newest && num != KNOWN_BAD implies #[trigger] run(
                ids,
                reachable,
                after,
                newest,
            ).ids.contains(num) by {
                if num < next {
                    assert(skipped(ids, num));
                    assert(more.contains(num));
                }
            }
        },
    }
}

} // verus!
