//! The document type of the archive.

use vstd::prelude::*;

verus! {

/// One comic as the remote source publishes it. Only `num`, `title` and
/// `transcript` are read by this crate; the other fields are carried along.
#[derive(Debug)]
pub struct XkcdComic {
    pub month: String,
    pub num: u32,
    pub link: String,
    pub year: String,
    pub news: String,
    pub safe_title: String,
    pub transcript: String,
    pub alt: String,
    pub img: String,
    pub title: String,
    pub day: String,
}

/// What a comic holds, as mathematical values.
pub struct ComicView {
    pub month: Seq<char>,
    pub num: u32,
    pub link: Seq<char>,
    pub year: Seq<char>,
    pub news: Seq<char>,
    pub safe_title: Seq<char>,
    pub transcript: Seq<char>,
    pub alt: Seq<char>,
    pub img: Seq<char>,
    pub title: Seq<char>,
    pub day: Seq<char>,
}

impl View for XkcdComic {
    type V = ComicView;

    open spec fn view(&self) -> ComicView {
        ComicView {
            month: self.month@,
            num: self.num,
            link: self.link@,
            year: self.year@,
            news: self.news@,
            safe_title: self.safe_title@,
            transcript: self.transcript@,
            alt: self.alt@,
            img: self.img@,
            title: self.title@,
            day: self.day@,
        }
    }
}

impl Clone for XkcdComic {
    fn clone(&self) -> (copy: Self)
        ensures
            copy@ == self@,
    {
        XkcdComic {
            month: self.month.clone(),
            num: self.num,
            link: self.link.clone(),
            year: self.year.clone(),
            news: self.news.clone(),
            safe_title: self.safe_title.clone(),
            transcript: self.transcript.clone(),
            alt: self.alt.clone(),
            img: self.img.clone(),
            title: self.title.clone(),
            day: self.day.clone(),
        }
    }
}

} // verus!
