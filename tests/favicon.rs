use newsfeed::favicon::{
    favicon_for_scheme, favicon_from_page, get_favicon_url, parse_favicon_url_from_base,
    with_index_page,
};
use url::Url;

#[test]
fn parses_favicon_hrefs() {
    let items: &[(&str, &str, Url)] = &[
        ("https://maximiliangolla.com/blog/2022-10-wol-plex-server/", "../../ico/favicon.ico", "https://maximiliangolla.com/ico/favicon.ico".parse().unwrap()),
        ("https://medium.com/@pravse/the-maze-is-in-the-mouse-980c57cfd61a", "https://miro.medium.com/1*m-R_BkNf1Qjr1YbyOIJY2w.png", "https://miro.medium.com/1*m-R_BkNf1Qjr1YbyOIJY2w.png".parse().unwrap()),
        ("https://rwmj.wordpress.com/2023/02/14/frame-pointers-vs-dwarf-my-verdict/", "https://s1.wp.com/i/favicon.ico", "https://s1.wp.com/i/favicon.ico".parse().unwrap()),
        ("https://ounapuu.ee/posts/2023/02/15/shrinkflation/", "https://ounapuu.ee/media/favicon.png", "https://ounapuu.ee/media/favicon.png".parse().unwrap()),
        ("https://www.bbc.com/future/article/20230208-the-tech-revealing-hidden-doodles-in-old-books-and-objects", "https://static-web-assets.gnl-common.bbcverticals.com/features/pwa/20230202-144939-a559125f5f495a867aaa5fa4d720d402dce4f7a4/future/favicon-32x32.png", "https://static-web-assets.gnl-common.bbcverticals.com/features/pwa/20230202-144939-a559125f5f495a867aaa5fa4d720d402dce4f7a4/future/favicon-32x32.png".parse().unwrap()),
        ("https://matplotlib.org/stable/users/prev_whats_new/whats_new_3.7.0.html", "../../_static/favicon.ico", "https://matplotlib.org/stable/_static/favicon.ico".parse().unwrap()),
        ("https://github.com/dfloer/SC2k-docs", "https://github.githubassets.com/favicons/favicon.png", "https://github.githubassets.com/favicons/favicon.png".parse().unwrap()),
        ("https://brr.fyi/posts/last-flight-out", "/favicon-32x32.png", "https://brr.fyi/favicon-32x32.png".parse().unwrap()),
        ("https://mainichi.jp/english/articles/20230214/p2g/00m/0bu/043000c", "https://cdn.mainichi.jp/vol1/images/icon/english/favicon.ico", "https://cdn.mainichi.jp/vol1/images/icon/english/favicon.ico".parse().unwrap()),
        ("https://twitter.com/DrJimFan/status/1625538305889820673", "//abs.twimg.com/favicons/twitter.2.ico", "https://abs.twimg.com/favicons/twitter.2.ico".parse().unwrap()),
        ("https://careergpt.ai/", "/favicon.ico", "https://careergpt.ai/favicon.ico".parse().unwrap()),
        ("https://theflaw.org/articles/the-price-of-a-harvard-lawyer/", "https://theflaw.org/wp-content/themes/sink_theflaw/images/favicon.ico?v=1676468817", "https://theflaw.org/wp-content/themes/sink_theflaw/images/favicon.ico?v=1676468817".parse().unwrap()),
    ];

    for (base_url, href, favicon_url) in items {
        let result = parse_favicon_url_from_base(base_url, href);
        assert_eq!(result, Some(favicon_url.to_string()));
    }
}

#[test]
fn site_favicon_drops_query_fragment_and_path() {
    assert_eq!(
        get_favicon_url("https://example.com/a/b?x=1#frag"),
        Some("https://example.com/favicon.ico".to_string())
    );
    assert_eq!(
        get_favicon_url("http://example.org"),
        Some("http://example.org/favicon.ico".to_string())
    );
}

#[test]
fn site_favicon_needs_http() {
    assert_eq!(get_favicon_url("ftp://example.com/file"), None);
    assert_eq!(get_favicon_url("not a url"), None);
}

#[test]
fn scheme_filter() {
    assert_eq!(
        favicon_for_scheme("https", "x".to_string()),
        Some("x".to_string())
    );
    assert_eq!(favicon_for_scheme("mailto", "x".to_string()), None);
}

#[test]
fn index_page_is_added_to_directories() {
    assert_eq!(with_index_page("https://a.org/c/"), "https://a.org/c/index.html");
    assert_eq!(with_index_page("https://a.org/c"), "https://a.org/c");
    assert_eq!(with_index_page(""), "");
}

#[test]
fn icon_link_of_a_page() {
    let html = r#"<html><head><title>t</title><link rel="shortcut icon" href="img/i.png"></head><body></body></html>"#;
    assert_eq!(
        favicon_from_page("https://example.com/x/", html),
        Some("https://example.com/x/img/i.png".to_string())
    );
    assert_eq!(favicon_from_page("https://example.com/", "<html></html>"), None);
}

#[test]
fn absolute_icon_link_is_normalized() {
    assert_eq!(
        parse_favicon_url_from_base("https://x.org/", "HTTPS://Example.COM"),
        Some("https://example.com/".to_string())
    );
}
