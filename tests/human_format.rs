use newsfeed::human_format::{age, comment_count, date_time, points, url};

#[test]
fn points_read_naturally() {
    assert_eq!(points(0), None);
    assert_eq!(points(1), Some("1 point".to_string()));
    assert_eq!(points(42), Some("42 points".to_string()));
}

#[test]
fn comment_counts_read_naturally() {
    assert_eq!(comment_count(0), "No comments");
    assert_eq!(comment_count(1), "1 comment");
    assert_eq!(comment_count(1234), "1234 comments");
}

#[test]
fn ages_in_minutes_hours_days() {
    assert_eq!(date_time(1_000, 1_030), "0 minutes ago");
    assert_eq!(date_time(1_000, 1_060), "1 minute ago");
    assert_eq!(date_time(1_000, 1_000 + 59 * 60), "59 minutes ago");
    assert_eq!(date_time(0, 3_600), "1 hour ago");
    assert_eq!(date_time(0, 7_200 + 59), "2 hours ago");
    assert_eq!(date_time(0, 86_400), "1 day ago");
    assert_eq!(date_time(0, 3 * 86_400 + 10), "3 days ago");
}

#[test]
fn ages_in_the_future_round_toward_zero() {
    assert_eq!(date_time(100, 0), "-1 minutes ago");
}

#[test]
fn age_by_the_clock() {
    assert_eq!(age(0).ends_with("days ago"), true);
}

#[test]
fn site_of_a_link() {
    assert_eq!(url("https://news.ycombinator.com/item?id=1"), "NEWS.YCOMBINATOR.COM");
    assert_eq!(url("HTTP://Example.COM/a"), "EXAMPLE.COM");
    assert_eq!(url("data:text/plain,Stuff"), "data:text/plain,Stuff");
    assert_eq!(url("unix:/run/foo.socket"), "unix:/run/foo.socket");
    assert_eq!(url("Data:x"), "data:x");
}
