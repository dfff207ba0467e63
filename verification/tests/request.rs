use xkcd_search::comic::XkcdComic;
use xkcd_search::request::comic_url;
use xkcd_search::request::fetch_comic;
use xkcd_search::request::push_decimal;
use xkcd_search::request::FetchComicError;
use xkcd_search::request::FetchStep;
use xkcd_search::request::MAX_ATTEMPTS;

fn some_comic(num: u32) -> XkcdComic {
    XkcdComic {
        month: String::new(),
        num,
        link: String::new(),
        year: String::new(),
        news: String::new(),
        safe_title: String::new(),
        transcript: String::new(),
        alt: String::new(),
        img: String::new(),
        title: format!("Comic {}", num),
        day: String::new(),
    }
}

#[test]
fn comic_url_of_the_newest() {
    assert_eq!(comic_url(0), "https://xkcd.com/info.0.json");
}

#[test]
fn comic_url_of_a_number() {
    assert_eq!(comic_url(1), "https://xkcd.com/1/info.0.json");
    assert_eq!(comic_url(614), "https://xkcd.com/614/info.0.json");
    assert_eq!(comic_url(9999), "https://xkcd.com/9999/info.0.json");
    assert_eq!(comic_url(u32::MAX), "https://xkcd.com/4294967295/info.0.json");
}

#[test]
fn push_decimal_appends_the_digits() {
    let mut text = "n=".to_string();
    push_decimal(&mut text, 0);
    assert_eq!(text, "n=0");
    push_decimal(&mut text, 10);
    assert_eq!(text, "n=010");
    push_decimal(&mut text, 907);
    assert_eq!(text, "n=010907");
}

#[test]
fn the_budget_is_three_attempts() {
    assert_eq!(MAX_ATTEMPTS, 3);
}

#[test]
fn fetch_comic_ends_with_the_comic_that_came() {
    match fetch_comic(7, 0, Ok(some_comic(7))) {
        FetchStep::Done(Ok(comic)) => {
            assert_eq!(comic.num, 7);
            assert_eq!(comic.title, "Comic 7");
        }
        other => panic!("unexpected step {:?}", other),
    }
    match fetch_comic(7, 2, Ok(some_comic(7))) {
        FetchStep::Done(Ok(comic)) => assert_eq!(comic.num, 7),
        other => panic!("unexpected step {:?}", other),
    }
}

#[test]
fn fetch_comic_asks_again_after_the_first_and_second_failure() {
    match fetch_comic(7, 0, Err("timeout".to_string())) {
        FetchStep::Retry { failed_attempts } => assert_eq!(failed_attempts, 1),
        other => panic!("unexpected step {:?}", other),
    }
    match fetch_comic(7, 1, Err("timeout".to_string())) {
        FetchStep::Retry { failed_attempts } => assert_eq!(failed_attempts, 2),
        other => panic!("unexpected step {:?}", other),
    }
}

#[test]
fn fetch_comic_gives_up_after_the_third_failure() {
    match fetch_comic(7, 2, Err("connection reset".to_string())) {
        FetchStep::Done(Err(FetchComicError::MaxAttemptsReached { index, source })) => {
            assert_eq!(index, 7);
            assert_eq!(source, "connection reset");
        }
        other => panic!("unexpected step {:?}", other),
    }
}

#[test]
fn fetch_comic_gives_up_whatever_the_count_beyond_the_budget() {
    match fetch_comic(0, u32::MAX, Err("down".to_string())) {
        FetchStep::Done(Err(FetchComicError::MaxAttemptsReached { index, source })) => {
            assert_eq!(index, 0);
            assert_eq!(source, "down");
        }
        other => panic!("unexpected step {:?}", other),
    }
}

#[test]
fn fetch_comic_three_failures_in_a_row() {
    let mut failed = 0;
    let mut requests = 0;
    let outcome = loop {
        requests += 1;
        match fetch_comic(12, failed, Err(format!("failure {}", requests))) {
            FetchStep::Retry { failed_attempts } => failed = failed_attempts,
            FetchStep::Done(outcome) => break outcome,
        }
    };
    assert_eq!(requests, 3);
    match outcome {
        Err(FetchComicError::MaxAttemptsReached { index, source }) => {
            assert_eq!(index, 12);
            assert_eq!(source, "failure 3");
        }
        Ok(_) => panic!("no comic came"),
    }
}

#[test]
fn fetch_error_message() {
    let error =
        FetchComicError::MaxAttemptsReached { index: 404, source: "not found".to_string() };
    assert_eq!(error.message(), "Failed to fetch comic 404 after max attempts: not found");
}
