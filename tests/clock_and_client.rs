use chrono::{TimeZone, Utc};
use noice::chunks::chunk_bounds;
use noice::clock::{current_market_date, cursor_of_date, market_cutoff, start_of_date, unix_now};
use noice::esi::{classify_status, collect_pages, extract_pages, remaining_pages, EsiError};
use noice::models::UniverseTypeId;

fn ts(y: i32, m: u32, d: u32, h: u32, min: u32, s: u32) -> i64 {
    Utc.with_ymd_and_hms(y, m, d, h, min, s).unwrap().timestamp()
}

#[test]
fn cutoff_before_publication_is_two_days_back() {
    assert_eq!(market_cutoff(ts(2024, 3, 10, 10, 59, 0)), ts(2024, 3, 8, 11, 0, 0));
}

#[test]
fn cutoff_after_publication_is_one_day_back() {
    assert_eq!(market_cutoff(ts(2024, 3, 10, 11, 1, 0)), ts(2024, 3, 9, 11, 0, 0));
}

#[test]
fn cutoff_at_the_publication_hour_is_one_day_back() {
    assert_eq!(market_cutoff(ts(2024, 3, 10, 11, 0, 0)), ts(2024, 3, 9, 11, 0, 0));
}

#[test]
fn cutoff_crosses_month_start() {
    assert_eq!(market_cutoff(ts(2024, 3, 1, 3, 0, 0)), ts(2024, 2, 28, 11, 0, 0));
    assert_eq!(market_cutoff(ts(2024, 3, 1, 23, 59, 59)), ts(2024, 2, 29, 11, 0, 0));
}

#[test]
fn cutoff_before_the_epoch() {
    assert_eq!(market_cutoff(-1), ts(1969, 12, 30, 11, 0, 0));
}

#[test]
fn current_market_date_is_a_publication_instant_in_the_past() {
    let cutoff = current_market_date().unwrap();
    let now = Utc::now().timestamp();
    assert_eq!(cutoff.rem_euclid(86400), 11 * 3600);
    assert!(cutoff < now);
    assert!(now - cutoff <= 3 * 86400);
}

#[test]
fn cursor_and_midnight_of_a_date() {
    assert_eq!(cursor_of_date(0), 39600);
    assert_eq!(start_of_date(1), 86400);
    assert_eq!(cursor_of_date(19792), ts(2024, 3, 10, 11, 0, 0));
    assert_eq!(start_of_date(-1), -86400);
}

#[test]
fn status_classification() {
    assert_eq!(classify_status(420), Err(EsiError::RateLimited));
    assert_eq!(classify_status(404), Err(EsiError::ErrorResponse));
    assert_eq!(classify_status(400), Err(EsiError::ErrorResponse));
    assert_eq!(classify_status(503), Err(EsiError::ErrorResponse));
    assert_eq!(classify_status(200), Ok(()));
    assert_eq!(classify_status(399), Ok(()));
}

#[test]
fn page_header_parsing() {
    assert_eq!(extract_pages(Some(b"5".as_slice())), Ok(5));
    assert_eq!(extract_pages(Some(b"0120".as_slice())), Ok(120));
    assert_eq!(extract_pages(None), Err(EsiError::NoPages));
    assert_eq!(extract_pages(Some(b"".as_slice())), Err(EsiError::NoPages));
    assert_eq!(extract_pages(Some(b"12a".as_slice())), Err(EsiError::NoPages));
    assert_eq!(extract_pages(Some(b"-3".as_slice())), Err(EsiError::NoPages));
    assert_eq!(
        extract_pages(Some(b"999999999999999999999999".as_slice())),
        Err(EsiError::NoPages)
    );
}

#[test]
fn pages_after_the_first() {
    assert_eq!(remaining_pages(0), Vec::<usize>::new());
    assert_eq!(remaining_pages(1), Vec::<usize>::new());
    assert_eq!(remaining_pages(2), vec![2]);
    assert_eq!(remaining_pages(4), vec![2, 3, 4]);
}

#[test]
fn pages_are_joined_in_page_order() {
    let r = collect_pages(vec![1, 2], vec![Ok(vec![3]), Ok(vec![]), Ok(vec![4, 5])]);
    assert_eq!(r, Ok(vec![1, 2, 3, 4, 5]));
}

#[test]
fn a_rate_limited_page_fails_the_resource() {
    let r = collect_pages(
        vec![1, 2],
        vec![Ok(vec![3]), Err(EsiError::RateLimited), Ok(vec![4])],
    );
    assert_eq!(r, Err(EsiError::RateLimited));
}

#[test]
fn the_first_failed_page_is_reported() {
    let r: Result<Vec<i32>, EsiError> = collect_pages(
        vec![],
        vec![Err(EsiError::DecodeError), Err(EsiError::RateLimited)],
    );
    assert_eq!(r, Err(EsiError::DecodeError));
}

#[test]
fn publish_check() {
    let published = UniverseTypeId { name: "Tritanium".to_string(), published: true };
    let retired = UniverseTypeId { name: "Old".to_string(), published: false };
    assert_eq!(published.check_published(34), Ok(()));
    assert_eq!(retired.check_published(7), Err(EsiError::NotPublished(7)));
}

#[test]
fn chunks_cover_in_order() {
    assert_eq!(chunk_bounds(0, 300), vec![]);
    assert_eq!(chunk_bounds(5, 2), vec![(0, 2), (2, 4), (4, 5)]);
    assert_eq!(chunk_bounds(600, 300), vec![(0, 300), (300, 600)]);
    assert_eq!(chunk_bounds(1, 1000), vec![(0, 1)]);
}

#[test]
fn the_system_clock_reads_as_now() {
    let now = unix_now().unwrap();
    let expected = Utc::now().timestamp();
    assert!((now - expected).abs() <= 2);
}
