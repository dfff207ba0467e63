//! Fetching one comic: where it is found, and how often a failed request is
//! repeated. The request itself is made by the caller.

use vstd::prelude::*;
use vstd::string::StringExecFns;
use crate::comic::XkcdComic;

verus! {

/// How many failed requests for one comic end the attempt.
pub const MAX_ATTEMPTS: u32 = 3;

/// Why a comic was not fetched.
#[derive(Debug)]
pub enum FetchComicError {
    /// Every one of the allowed requests for comic `index` failed; `source`
    /// says how the last one did.
    MaxAttemptsReached { index: u32, source: String },
}

/// The character of the decimal digit `d`.
pub open spec fn digit(d: nat) -> char {
    (48 + d) as char
}

/// `n` in decimal notation.
pub open spec fn decimal(n: nat) -> Seq<char>
    decreases n,
{
    if n < 10 {
        seq![digit(n)]
    } else {
        decimal(n / 10).push(digit(n % 10))
    }
}

/// Appends `n` in decimal notation.
pub fn push_decimal(text: &mut String, n: u32)
    ensures
        final(text)@ == old(text)@ + decimal(n as nat),
    decreases n,
{
    if n >= 10 {
        push_decimal(text, n / 10);
    }
    let d: u8 = (n % 10) as u8;
    let c: char = (48u8 + d) as char;
    text.push(c);
    assert(text@ =~= old(text)@ + decimal(n as nat));
}

/// Where comic `index` is published; index 0 stands for the newest comic.
pub open spec fn address(index: u32) -> Seq<char> {
    if index == 0 {
        "https://xkcd.com/info.0.json"@
    } else {
        "https://xkcd.com/"@ + decimal(index as nat) + "/info.0.json"@
    }
}

/// The address to request comic `index` from.
pub fn comic_url(index: u32) -> (url: String)
    ensures
        url@ == address(index),
{
    if index == 0 {
        "https://xkcd.com/info.0.json".to_owned()
    } else {
        let mut url = "https://xkcd.com/".to_owned();
        push_decimal(&mut url, index);
        url.append("/info.0.json");
        url
    }
}

/// What to do after a request for a comic has been answered.
#[derive(Debug)]
pub enum FetchStep {
    /// Ask again; so many requests have failed.
    Retry { failed_attempts: u32 },
    /// The attempt is over, with the comic or without.
    Done(Result<XkcdComic, FetchComicError>),
}

/// Decides how the attempt to fetch comic `index` goes on after `response`,
/// `failed_attempts` earlier requests having failed: a comic ends the attempt,
/// a failure is followed by another request until `MAX_ATTEMPTS` requests
/// have failed.
pub fn fetch_comic(index: u32, failed_attempts: u32, response: Result<XkcdComic, String>) -> (step:
    FetchStep)
    ensures
        match response {
            Ok(comic) => step == FetchStep::Done(Ok(comic)),
            Err(cause) => if failed_attempts + 1 >= MAX_ATTEMPTS {
                step == FetchStep::Done(
                    Err(FetchComicError::MaxAttemptsReached { index, source: cause }),
                )
            } else {
                step == (FetchStep::Retry { failed_attempts: (failed_attempts + 1) as u32 })
            },
        },
{
    match response {
        Ok(comic) => FetchStep::Done(Ok(comic)),
        Err(cause) => {
            if failed_attempts >= MAX_ATTEMPTS - 1 {
                FetchStep::Done(Err(FetchComicError::MaxAttemptsReached { index, source: cause }))
            } else {
                FetchStep::Retry { failed_attempts: failed_attempts + 1 }
            }
        },
    }
}

impl FetchComicError {
    /// The failure in words.
    pub fn message(&self) -> (text: String)
        ensures
            self matches FetchComicError::MaxAttemptsReached { index, source } ==> text@
                == "Failed to fetch comic "@ + decimal(index as nat)
                + " after max attempts: "@ + source@,
    {
        match self {
            FetchComicError::MaxAttemptsReached { index, source } => {
                let mut text = "Failed to fetch comic ".to_owned();
                push_decimal(&mut text, *index);
                text.append(" after max attempts: ");
                text.append(source.as_str());
                text
            },
        }
    }
}

} // verus!
