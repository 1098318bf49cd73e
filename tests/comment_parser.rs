use newsfeed::comment_parser::{Item, Parser, TextStyle};

#[test]
fn parses_single_escape_with_x() {
    let input = "&#x27;";
    let mut parser = Parser::new(input);
    assert_eq!(
        parser.next(),
        Some((Item::Escape('\''), Default::default()))
    );
    assert_eq!(parser.next(), None);
}

#[test]
fn parses_single_escape_without_x() {
    let input = "&#27;";
    let mut parser = Parser::new(input);
    assert_eq!(
        parser.next(),
        Some((Item::Escape('\''), Default::default()))
    );
    assert_eq!(parser.next(), None);
}

#[test]
fn parses_text_only() {
    let input = " Hello world ";
    let mut parser = Parser::new(input);
    assert_eq!(
        parser.next(),
        Some((Item::Text(" Hello world "), Default::default()))
    );
    assert_eq!(parser.next(), None);
}

#[test]
fn parses_text_and_escape() {
    let input = "It&#x27;s a me Mario!";
    let mut parser = Parser::new(input);
    assert_eq!(parser.next(), Some((Item::Text("It"), Default::default())));
    assert_eq!(
        parser.next(),
        Some((Item::Escape('\''), Default::default()))
    );
    assert_eq!(
        parser.next(),
        Some((Item::Text("s a me Mario!"), Default::default()))
    );
    assert_eq!(parser.next(), None);
}

#[test]
fn parses_link() {
    let input = r#"<a href="https:&#x2F;&#x2F;www.vaultree.com&#x2F;how-it-works&#x2F;" rel="nofollow">https:&#x2F;&#x2F;www.vaultree.com&#x2F;how-it-works&#x2F;</a>"#;
    let expected = Item::Link(
        Parser::new("https:&#x2F;&#x2F;www.vaultree.com&#x2F;how-it-works&#x2F;"),
        Parser::new("https:&#x2F;&#x2F;www.vaultree.com&#x2F;how-it-works&#x2F;"),
    );
    let mut parser = Parser::new(input);
    assert_eq!(parser.next(), Some((expected, Default::default())));
    assert_eq!(parser.next(), None);
}

#[test]
fn has_italics() {
    let input = r#"<i>hello</i><p><i>there</i><p>general kenobi"#;
    let mut parser = Parser::new(input);

    assert_eq!(
        parser.next(),
        Some((
            Item::Text("hello"),
            TextStyle {
                italic: true,
                ..Default::default()
            }
        ))
    );

    assert_eq!(parser.next(), Some((Item::NewLine, Default::default())));

    assert_eq!(
        parser.next(),
        Some((
            Item::Text("there"),
            TextStyle {
                italic: true,
                ..Default::default()
            }
        ))
    );

    assert_eq!(parser.next(), Some((Item::NewLine, Default::default())));

    assert_eq!(
        parser.next(),
        Some((Item::Text("general kenobi"), Default::default()))
    );

    assert_eq!(parser.next(), None);
}

#[test]
fn drops_a_second_line_break() {
    let mut parser = Parser::new("a<p><p>b");
    assert_eq!(parser.next(), Some((Item::Text("a"), Default::default())));
    assert_eq!(parser.next(), Some((Item::NewLine, Default::default())));
    assert_eq!(parser.next(), Some((Item::Text("b"), Default::default())));
    assert_eq!(parser.next(), None);
}

#[test]
fn preformatted_text_is_monospace_on_its_own_line() {
    let mono = TextStyle {
        monospace: true,
        ..Default::default()
    };
    let mut parser = Parser::new("x<pre>let a = 1;</pre>y");
    assert_eq!(parser.next(), Some((Item::Text("x"), Default::default())));
    assert_eq!(parser.next(), Some((Item::NewLine, mono)));
    assert_eq!(parser.next(), Some((Item::Text("let a = 1;"), mono)));
    assert_eq!(parser.next(), Some((Item::NewLine, Default::default())));
    assert_eq!(parser.next(), Some((Item::Text("y"), Default::default())));
    assert_eq!(parser.next(), None);
}

#[test]
fn code_is_monospace_inline() {
    let mono = TextStyle {
        monospace: true,
        ..Default::default()
    };
    let mut parser = Parser::new("<code>f()</code> ok");
    assert_eq!(parser.next(), Some((Item::Text("f()"), mono)));
    assert_eq!(parser.next(), Some((Item::Text(" ok"), Default::default())));
    assert_eq!(parser.next(), None);
}

#[test]
fn named_entities() {
    let mut parser = Parser::new("&quot;x&gt;");
    assert_eq!(parser.next(), Some((Item::Escape('"'), Default::default())));
    assert_eq!(parser.next(), Some((Item::Text("x"), Default::default())));
    assert_eq!(parser.next(), Some((Item::Escape('>'), Default::default())));
    assert_eq!(parser.next(), None);
}

#[test]
fn broken_escape_stops_parsing() {
    let mut parser = Parser::new("&#zz; tail");
    assert_eq!(parser.next(), None);
    let mut parser = Parser::new("&#0;");
    assert_eq!(parser.next(), None);
}

#[test]
fn to_string_writes_entities_breaks_and_link_text() {
    let mut parser = Parser::new("It&#x27;s <a href=\"u\">a &gt; b</a><p>end");
    assert_eq!(parser.to_string(), "It's a > b\nend");
}

#[test]
fn to_string_of_empty_text() {
    let mut parser = Parser::new("");
    assert_eq!(parser.to_string(), "");
}
