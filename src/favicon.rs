use vstd::prelude::*;
use vstd::string::StrSliceExecFns;
use crate::human_format::{normalized_url, url_text};

verus! {

broadcast use vstd::string::group_string_axioms;

/// What `url::Url::parse` makes of a page url once its query and fragment
/// are dropped and its path is set to `favicon.ico`: the scheme, and the
/// url written out. None when the crate refuses the text.
pub uninterp spec fn site_icon_of(s: Seq<char>) -> Option<(Seq<char>, Seq<char>)>;

/// What `url::Url::parse` with `base` as the base url makes of `href`,
/// written out; none when the crate refuses either.
pub uninterp spec fn joined_url(base: Seq<char>, href: Seq<char>) -> Option<Seq<char>>;

/// The `href` of the first `link` element whose `rel` lists `icon`, when
/// `scraper` reads `html` as a document.
pub uninterp spec fn icon_href_of(html: Seq<char>) -> Option<Seq<char>>;

/// Relies on `url::Url::parse`, `Url::set_query`, `Url::set_fragment`,
/// `Url::set_path`, `Url::scheme` and the `Display` of `Url`: the
/// `/favicon.ico` of the page's site, with the site's scheme.
#[verifier::external_body]
fn site_icon(s: &str) -> (r: Option<(String, String)>)
    ensures
        match r {
            Some((scheme, location)) => site_icon_of(s@) == Some((scheme@, location@)),
            None => site_icon_of(s@) is None,
        },
{
    let mut url = url::Url::parse(s).ok()?;
    url.set_query(None);
    url.set_fragment(None);
    url.set_path("favicon.ico");
    Some((url.scheme().to_string(), url.to_string()))
}

/// Relies on `url::Url::parse` and `url::ParseOptions::base_url`: `href`
/// resolved against `base`, written out.
#[verifier::external_body]
fn join_url(base: &str, href: &str) -> (r: Option<String>)
    ensures
        match r {
            Some(u) => joined_url(base@, href@) == Some(u@),
            None => joined_url(base@, href@) is None,
        },
{
    let base = url::Url::parse(base).ok()?;
    url::Url::options().base_url(Some(&base)).parse(href).ok().map(|u| u.to_string())
}

/// Relies on `scraper::Html::parse_document`, `scraper::Selector::parse` of
/// a fixed selector, and `Element::attr`: the first icon link's `href`.
#[verifier::external_body]
fn icon_href(html: &str) -> (r: Option<String>)
    ensures
        match r {
            Some(h) => icon_href_of(html@) == Some(h@),
            None => icon_href_of(html@) is None,
        },
{
    let document = scraper::Html::parse_document(html);
    let selector = scraper::Selector::parse("link[rel~='icon']").ok()?;
    let element = document.select(&selector).next()?;
    element.value().attr("href").map(|h| h.to_string())
}

/// The site icon to try first for a page: its `/favicon.ico`, for pages
/// served over http or https.
pub open spec fn favicon_of_site(s: Seq<char>) -> Option<Seq<char>> {
    match site_icon_of(s) {
        Some((scheme, location)) => if scheme == "http"@ || scheme == "https"@ {
            Some(location)
        } else {
            None
        },
        None => None,
    }
}

/// `location` when `scheme` is http or https.
pub fn favicon_for_scheme(scheme: &str, location: String) -> (r: Option<String>)
    ensures
        match r {
            Some(u) => (scheme@ == "http"@ || scheme@ == "https"@) && u@ == location@,
            None => !(scheme@ == "http"@ || scheme@ == "https"@),
        },
{
    let scheme = String::from_str(scheme);
    if scheme == String::from_str("http") || scheme == String::from_str("https") {
        Some(location)
    } else {
        None
    }
}

/// The `/favicon.ico` of the site of page `url`, for http and https pages.
pub fn get_favicon_url(url: &str) -> (r: Option<String>)
    ensures
        match r {
            Some(u) => favicon_of_site(url@) == Some(u@),
            None => favicon_of_site(url@) is None,
        },
{
    match site_icon(url) {
        Some((scheme, location)) => favicon_for_scheme(scheme.as_str(), location),
        None => None,
    }
}

/// `base`, with `index.html` after it when it ends in `/`, so that a
/// relative link resolves inside that directory.
pub open spec fn index_page(base: Seq<char>) -> Seq<char> {
    if base.len() > 0 && base.last() == '/' {
        base + "index.html"@
    } else {
        base
    }
}

/// The page url that a relative icon link is resolved against.
pub fn with_index_page(base: &str) -> (r: String)
    ensures
        r@ == index_page(base@),
{
    let n = base.unicode_len();
    let owned = String::from_str(base);
    if n > 0 && base.get_char(n - 1) == '/' {
        owned.concat("index.html")
    } else {
        owned
    }
}

/// Where the icon link `href` found on page `base` points: `href` itself
/// when it is an absolute url, else `href` resolved against the page.
pub open spec fn favicon_target(base: Seq<char>, href: Seq<char>) -> Option<Seq<char>> {
    match normalized_url(href) {
        Some(u) => Some(u),
        None => joined_url(index_page(base), href),
    }
}

/// Resolves the icon link `href` found on page `base_url`.
pub fn parse_favicon_url_from_base(base_url: &str, href: &str) -> (r: Option<String>)
    ensures
        match r {
            Some(u) => favicon_target(base_url@, href@) == Some(u@),
            None => favicon_target(base_url@, href@) is None,
        },
{
    if let Some(u) = url_text(href) {
        return Some(u);
    }
    let base = with_index_page(base_url);
    join_url(base.as_str(), href)
}

/// The icon that the page `html`, served from `page_url`, links to.
pub fn favicon_from_page(page_url: &str, html: &str) -> (r: Option<String>)
    ensures
        match r {
            Some(u) => icon_href_of(html@) is Some && favicon_target(
                page_url@,
                icon_href_of(html@)->0,
            ) == Some(u@),
            None => icon_href_of(html@) is None || favicon_target(
                page_url@,
                icon_href_of(html@)->0,
            ) is None,
        },
{
    match icon_href(html) {
        Some(h) => parse_favicon_url_from_base(page_url, h.as_str()),
        None => None,
    }
}

} // verus!
