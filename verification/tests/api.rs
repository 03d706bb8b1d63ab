use blood_money::api::{
    api_host, api_locale, app_url_for_region, listings_are_fresh, ApiCallTask, AttemptOutcome,
    AuctionDataPointer, Region,
};

#[test]
fn hosts_and_locales_follow_the_region() {
    assert_eq!(api_host(Region::US), "us.api.battle.net");
    assert_eq!(api_host(Region::EU), "eu.api.battle.net");
    assert_eq!(api_locale(Region::US), "en_US");
    assert_eq!(api_locale(Region::EU), "en_GB");
    assert_eq!(app_url_for_region(&Region::US), "blood-money");
    assert_eq!(app_url_for_region(&Region::EU), "blood-money-eu");
}

#[test]
fn successful_attempt_finishes_the_call() {
    let mut task = ApiCallTask::new();
    let r = task.judge_attempt(AttemptOutcome::Response(200, Some(String::from("{}"))));
    assert_eq!(r, Some(String::from("{}")));
    assert_eq!(task.retries, 1);
}

#[test]
fn failures_are_retried_and_counted() {
    let mut task = ApiCallTask::new();
    assert_eq!(task.judge_attempt(AttemptOutcome::ConnectionFailed), None);
    assert_eq!(
        task.judge_attempt(AttemptOutcome::Response(404, Some(String::from("missing")))),
        None
    );
    assert_eq!(task.judge_attempt(AttemptOutcome::Response(200, None)), None);
    assert_eq!(task.retries, 3);
    // After any number of failures, a good attempt still succeeds.
    let r = task.judge_attempt(AttemptOutcome::Response(200, Some(String::from("ok"))));
    assert_eq!(r, Some(String::from("ok")));
    assert_eq!(task.retries, 4);
}

#[test]
fn stale_pointer_is_no_update() {
    let pointer = AuctionDataPointer { url: String::from("http://files/auctions.json"), last_modified: 500 };
    // Not newer than the cutoff — including exactly equal — means no update.
    assert!(!listings_are_fresh(&pointer, 500));
    assert!(!listings_are_fresh(&pointer, 900));
    // Strictly newer means fetch.
    assert!(listings_are_fresh(&pointer, 499));
    assert!(listings_are_fresh(&pointer, 0));
}
