use vstd::prelude::*;

verus! {

broadcast use vstd::string::group_string_axioms;

/// The digit char for `d`, which is below ten.
pub open spec fn digit_char(d: nat) -> char {
    if d == 0 {
        '0'
    } else if d == 1 {
        '1'
    } else if d == 2 {
        '2'
    } else if d == 3 {
        '3'
    } else if d == 4 {
        '4'
    } else if d == 5 {
        '5'
    } else if d == 6 {
        '6'
    } else if d == 7 {
        '7'
    } else if d == 8 {
        '8'
    } else {
        '9'
    }
}

/// The decimal digits of `n`, without leading zeros.
pub open spec fn digits(n: nat) -> Seq<char>
    decreases n,
{
    if n < 10 {
        seq![digit_char(n)]
    } else {
        digits(n / 10).push(digit_char(n % 10))
    }
}

/// `n` in decimal, with a minus sign when it is negative.
pub open spec fn decimal_text(n: int) -> Seq<char> {
    if n < 0 {
        seq!['-'] + digits((-n) as nat)
    } else {
        digits(n as nat)
    }
}

/// Relies on the `Display` of `i128`: decimal digits, after a `-` for a
/// negative number.
#[verifier::external_body]
fn decimal(n: i128) -> (r: String)
    ensures
        r@ == decimal_text(n as int),
{
    n.to_string()
}

/// `text` as an owned string.
fn owned(text: &str) -> (r: String)
    ensures
        r@ == text@,
{
    text.to_owned()
}

/// How a score reads: none for zero, `1 point`, `N points`.
pub open spec fn points_text(n: nat) -> Option<Seq<char>> {
    if n == 0 {
        None
    } else if n == 1 {
        Some("1 point"@)
    } else {
        Some(digits(n) + " points"@)
    }
}

/// The score of an item, as it reads.
pub fn points(score: usize) -> (r: Option<String>)
    ensures
        match r {
            Some(s) => points_text(score as nat) == Some(s@),
            None => points_text(score as nat) is None,
        },
{
    match score {
        0 => None,
        1 => Some(owned("1 point")),
        n => Some(decimal(n as i128).concat(" points")),
    }
}

/// How a count of comments reads: `No comments`, `1 comment`, `N comments`.
pub open spec fn comment_count_text(n: nat) -> Seq<char> {
    if n == 0 {
        "No comments"@
    } else if n == 1 {
        "1 comment"@
    } else {
        digits(n) + " comments"@
    }
}

/// The number of comments of a story, as it reads.
pub fn comment_count(count: usize) -> (r: String)
    ensures
        r@ == comment_count_text(count as nat),
{
    match count {
        0 => owned("No comments"),
        1 => owned("1 comment"),
        n => decimal(n as i128).concat(" comments"),
    }
}

/// `a / b` rounded toward zero, for `b > 0`.
pub open spec fn div_toward_zero(a: int, b: int) -> int {
    if a >= 0 {
        a / b
    } else {
        -((-a) / b)
    }
}

/// How long ago something happened, given the seconds since then: in whole
/// minutes below an hour, in whole hours below a day, in whole days after.
pub open spec fn age_text(seconds: int) -> Seq<char> {
    let minutes = div_toward_zero(seconds, 60);
    let hours = div_toward_zero(seconds, 3600);
    let days = div_toward_zero(seconds, 86400);
    if minutes < 60 {
        if minutes == 1 {
            "1 minute ago"@
        } else {
            decimal_text(minutes) + " minutes ago"@
        }
    } else if hours < 24 {
        if hours == 1 {
            "1 hour ago"@
        } else {
            decimal_text(hours) + " hours ago"@
        }
    } else if days == 1 {
        "1 day ago"@
    } else {
        decimal_text(days) + " days ago"@
    }
}

/// `seconds` divided by `unit`, rounded toward zero.
fn whole(seconds: i128, unit: i128) -> (r: i128)
    requires
        unit > 0,
        -0x1_0000_0000_0000_0000 <= seconds <= 0x1_0000_0000_0000_0000,
    ensures
        r as int == div_toward_zero(seconds as int, unit as int),
{
    if seconds >= 0 {
        seconds / unit
    } else {
        -((-seconds) / unit)
    }
}

/// How long before `now` the moment `created` lies, as it reads; both are
/// seconds since the Unix epoch.
pub fn date_time(created: i64, now: i64) -> (r: String)
    ensures
        r@ == age_text(now - created),
{
    let seconds: i128 = (now as i128) - (created as i128);
    let minutes = whole(seconds, 60);
    let hours = whole(seconds, 3600);
    let days = whole(seconds, 86400);
    if minutes < 60 {
        if minutes == 1 {
            owned("1 minute ago")
        } else {
            decimal(minutes).concat(" minutes ago")
        }
    } else if hours < 24 {
        if hours == 1 {
            owned("1 hour ago")
        } else {
            decimal(hours).concat(" hours ago")
        }
    } else if days == 1 {
        owned("1 day ago")
    } else {
        decimal(days).concat(" days ago")
    }
}

/// Relies on `time::OffsetDateTime::now_utc` and `unix_timestamp`: the
/// current time, in seconds since the Unix epoch. Nothing is known of it.
#[verifier::external_body]
fn now_unix() -> (r: i64) {
    time::OffsetDateTime::now_utc().unix_timestamp()
}

/// How long ago the moment `created` (seconds since the Unix epoch) lies,
/// as it reads, by the clock of this machine.
pub fn age(created: i64) -> (r: String)
    ensures
        exists|now: i64| r@ == #[trigger] age_between(created, now),
{
    let now = now_unix();
    let r = date_time(created, now);
    assert(r@ == age_between(created, now));
    r
}

/// How long before `now` the moment `created` lies, as it reads.
pub open spec fn age_between(created: i64, now: i64) -> Seq<char> {
    age_text(now - created)
}

/// What `str::to_uppercase` makes of a text.
pub uninterp spec fn upper_of(s: Seq<char>) -> Seq<char>;

/// Relies on `str::to_uppercase`: the result depends on the chars alone.
#[verifier::external_body]
fn uppercase(s: &str) -> (r: String)
    ensures
        r@ == upper_of(s@),
{
    s.to_uppercase()
}

/// The host of a url text, when `url::Url::parse` takes it and it has one.
pub uninterp spec fn host_of(s: Seq<char>) -> Option<Seq<char>>;

/// What `url::Url::parse` makes of a text, written back out; none when it
/// refuses the text.
pub uninterp spec fn normalized_url(s: Seq<char>) -> Option<Seq<char>>;

/// Relies on `url::Url::parse` and `Url::host_str`: the host of the url.
#[verifier::external_body]
fn url_host(s: &str) -> (r: Option<String>)
    ensures
        match r {
            Some(h) => host_of(s@) == Some(h@),
            None => host_of(s@) is None,
        },
{
    url::Url::parse(s).ok().and_then(|u| u.host_str().map(|h| h.to_string()))
}

/// Relies on `url::Url::parse` and the `Display` of `Url`: the url as the
/// crate writes it out.
#[verifier::external_body]
pub(crate) fn url_text(s: &str) -> (r: Option<String>)
    ensures
        match r {
            Some(t) => normalized_url(s@) == Some(t@),
            None => normalized_url(s@) is None,
        },
{
    url::Url::parse(s).ok().map(|u| u.to_string())
}

/// How the site of a link reads: its host in upper case, or where the url
/// has no host, the url itself.
pub open spec fn site_text(s: Seq<char>) -> Seq<char> {
    match host_of(s) {
        Some(h) => upper_of(h),
        None => match normalized_url(s) {
            Some(t) => t,
            None => s,
        },
    }
}

/// The site of the link `link`, as it reads.
pub fn url(link: &str) -> (r: String)
    ensures
        r@ == site_text(link@),
{
    match url_host(link) {
        Some(h) => uppercase(h.as_str()),
        None => match url_text(link) {
            Some(t) => t,
            None => owned(link),
        },
    }
}

} // verus!
