use vstd::prelude::*;
use vstd::std_specs::iter::IteratorSpec;

verus! {

broadcast use vstd::string::group_string_axioms;

/// How a piece of text is decorated.
#[derive(Copy, Clone, Debug, Eq, PartialEq, Default, Structural)]
pub struct TextStyle {
    pub italic: bool,
    pub monospace: bool,
}

/// The chars of `s`, in order.
fn chars_of(s: &str) -> (r: Vec<char>)
    ensures
        r@ == s@,
{
    let mut it = s.chars();
    let mut r: Vec<char> = Vec::new();
    loop
        invariant
            it.obeys_prophetic_iter_laws(),
            r@ + it.remaining() == s@,
        ensures
            r@ == s@,
        decreases s@.len() - r@.len(),
    {
        match it.next() {
            Some(c) => {
                r.push(c);
            },
            None => {
                assert(r@ + it.remaining() =~= r@);
                break ;
            },
        }
    }
    r
}

/// `p` stands in `s` at position `i`.
pub open spec fn has_prefix(s: Seq<char>, i: int, p: Seq<char>) -> bool {
    0 <= i && i + p.len() <= s.len() && s.subrange(i, i + p.len()) == p
}

fn prefix_at(cs: &Vec<char>, i: usize, p: &[char]) -> (r: bool)
    ensures
        r == has_prefix(cs@, i as int, p@),
{
    if i > cs.len() || p.len() > cs.len() - i {
        return false;
    }
    let mut k: usize = 0;
    while k < p.len()
        invariant
            i + p@.len() <= cs@.len(),
            cs@.len() <= usize::MAX,
            0 <= k <= p@.len(),
            forall|j: int| 0 <= j < k ==> cs@[i + j] == p@[j],
        decreases p.len() - k,
    {
        assert(i + k < cs@.len());
        if cs[i + k] != p[k] {
            assert(cs@.subrange(i as int, i + p@.len())[k as int] != p@[k as int]);
            return false;
        }
        k += 1;
    }
    assert(cs@.subrange(i as int, i + p@.len()) =~= p@);
    true
}

/// The first position at or after `i` that holds `c`; -1 when none does.
pub open spec fn find_char_from(s: Seq<char>, c: char, i: int) -> int
    decreases s.len() - i,
{
    if i < 0 || i >= s.len() {
        -1
    } else if s[i] == c {
        i
    } else {
        find_char_from(s, c, i + 1)
    }
}

/// The first position at or after `i` where `p` stands; -1 when none.
pub open spec fn find_seq_from(s: Seq<char>, p: Seq<char>, i: int) -> int
    decreases s.len() + 1 - i,
{
    if i < 0 || i + p.len() > s.len() {
        -1
    } else if has_prefix(s, i, p) {
        i
    } else {
        find_seq_from(s, p, i + 1)
    }
}

pub open spec fn italic_open() -> Seq<char> {
    seq!['<', 'i', '>']
}

pub open spec fn italic_close() -> Seq<char> {
    seq!['<', '/', 'i', '>']
}

pub open spec fn pre_open() -> Seq<char> {
    seq!['<', 'p', 'r', 'e', '>']
}

pub open spec fn pre_close() -> Seq<char> {
    seq!['<', '/', 'p', 'r', 'e', '>']
}

pub open spec fn code_open() -> Seq<char> {
    seq!['<', 'c', 'o', 'd', 'e', '>']
}

pub open spec fn code_close() -> Seq<char> {
    seq!['<', '/', 'c', 'o', 'd', 'e', '>']
}

pub open spec fn escape_open() -> Seq<char> {
    seq!['&', '#']
}

pub open spec fn paragraph() -> Seq<char> {
    seq!['<', 'p', '>']
}

pub open spec fn quot_entity() -> Seq<char> {
    seq!['&', 'q', 'u', 'o', 't', ';']
}

pub open spec fn gt_entity() -> Seq<char> {
    seq!['&', 'g', 't', ';']
}

pub open spec fn link_open() -> Seq<char> {
    seq!['<', 'a', ' ', 'h', 'r', 'e', 'f', '=', '"']
}

pub open spec fn link_close() -> Seq<char> {
    seq!['<', '/', 'a', '>']
}

/// A tag or an entity that ends a run of plain text starts at `i`.
pub open spec fn special_at(s: Seq<char>, i: int) -> bool {
    has_prefix(s, i, escape_open()) || has_prefix(s, i, paragraph()) || has_prefix(s, i, gt_entity())
        || has_prefix(s, i, quot_entity()) || has_prefix(s, i, link_open()) || has_prefix(
        s,
        i,
        italic_open(),
    ) || has_prefix(s, i, italic_close()) || has_prefix(s, i, pre_open()) || has_prefix(
        s,
        i,
        pre_close(),
    ) || has_prefix(s, i, code_open()) || has_prefix(s, i, code_close())
}

/// Where the run of plain text that starts at `i` ends.
pub open spec fn text_end(s: Seq<char>, i: int) -> int
    decreases s.len() - i,
{
    if i < 0 || i >= s.len() {
        s.len() as int
    } else if special_at(s, i) {
        i
    } else {
        text_end(s, i + 1)
    }
}

/// The value of hexadecimal digit `c`, either case; -1 for another char.
pub open spec fn hex_digit(c: char) -> int {
    if '0' <= c && c <= '9' {
        c as int - '0' as int
    } else if 'a' <= c && c <= 'f' {
        c as int - 'a' as int + 10
    } else if 'A' <= c && c <= 'F' {
        c as int - 'A' as int + 10
    } else {
        -1
    }
}

/// Every char of `d` is a hexadecimal digit.
pub open spec fn all_hex(d: Seq<char>) -> bool {
    forall|i: int| 0 <= i < d.len() ==> hex_digit(#[trigger] d[i]) >= 0
}

/// The number that the hexadecimal digits `d` write.
pub open spec fn hex_value(d: Seq<char>) -> int
    decreases d.len(),
{
    if d.len() == 0 {
        0
    } else {
        hex_value(d.drop_last()) * 16 + hex_digit(d.last())
    }
}

/// `v` is the code of a char: at most 0x10FFFF and no surrogate.
pub open spec fn is_char_code(v: int) -> bool {
    0 <= v <= 0x10FFFF && !(0xD800 <= v <= 0xDFFF)
}

/// The code of `c`.
pub open spec fn code_of(c: char) -> int {
    c as int
}

/// The char whose code is `v`.
pub open spec fn char_with_code(v: int) -> char {
    choose|c: char| #[trigger] code_of(c) == v
}

/// A numeric entity `&#NN;` or `&#xNN;` (hexadecimal digits either way) at
/// the start of `s` that writes a char other than NUL: its code, and its length.
pub open spec fn escape_at(s: Seq<char>) -> Option<(int, int)> {
    if has_prefix(s, 0, escape_open()) && find_char_from(s, ';', 0) >= 0 {
        let k = find_char_from(s, ';', 0);
        let from: int = if k > 2 && s[2] == 'x' {
            3
        } else {
            2
        };
        let d = s.subrange(from, k);
        if d.len() > 0 && all_hex(d) && hex_value(d) != 0 && is_char_code(hex_value(d)) {
            Some((hex_value(d), k + 1))
        } else {
            None
        }
    } else {
        None
    }
}

/// A link `<a href="URL"...>TEXT</a>` at the start of `s`: its url, its
/// text and its length. The url ends at the first `"`, the opening tag at
/// the first `>`, the text at the first `</a>` after that.
pub open spec fn link_at(s: Seq<char>) -> Option<(Seq<char>, Seq<char>, int)> {
    let u = find_char_from(s, '"', 9);
    let b = find_char_from(s, '>', 9);
    if has_prefix(s, 0, link_open()) && u >= 0 && b >= 0 && find_seq_from(s, link_close(), b + 1)
        >= 0 {
        let e = find_seq_from(s, link_close(), b + 1);
        Some((s.subrange(9, u), s.subrange(b + 1, e), e + 4))
    } else {
        None
    }
}

/// Where a parser stands: the text left, the style in force, and whether
/// the last item it handed out was a line break.
pub struct ParserView {
    pub rest: Seq<char>,
    pub style: TextStyle,
    pub after_newline: bool,
}

/// A fresh parser over `s`.
pub open spec fn fresh(s: Seq<char>) -> ParserView {
    ParserView { rest: s, style: TextStyle { italic: false, monospace: false }, after_newline: false }
}

/// An item of decorated text.
pub enum Token {
    Escape(char),
    Text(Seq<char>),
    NewLine,
    Link(ParserView, ParserView),
}

/// What one look at the text finds.
pub enum Step {
    /// Nothing is left.
    End,
    /// A style tag, taken in; parsing goes on from the new state.
    Skip(ParserView),
    /// An item, and the state after it.
    Emit(Token, ParserView),
    /// Text that none of the rules take: parsing stops here.
    Stuck,
}

/// The state after taking `n` chars and setting the style to `style`.
pub open spec fn taken(v: ParserView, n: int, style: TextStyle) -> ParserView {
    ParserView { rest: v.rest.skip(n), style, after_newline: v.after_newline }
}

/// One look at the text, in the order in which the rules are tried.
pub open spec fn step(v: ParserView) -> Step {
    let s = v.rest;
    let st = v.style;
    if s.len() == 0 {
        Step::End
    } else if has_prefix(s, 0, italic_open()) {
        Step::Skip(taken(v, 3, TextStyle { italic: true, monospace: st.monospace }))
    } else if has_prefix(s, 0, italic_close()) {
        Step::Skip(taken(v, 4, TextStyle { italic: false, monospace: st.monospace }))
    } else if has_prefix(s, 0, pre_open()) {
        Step::Emit(Token::NewLine, taken(v, 5, TextStyle { italic: st.italic, monospace: true }))
    } else if has_prefix(s, 0, pre_close()) {
        Step::Emit(Token::NewLine, taken(v, 6, TextStyle { italic: st.italic, monospace: false }))
    } else if has_prefix(s, 0, code_open()) {
        Step::Skip(taken(v, 6, TextStyle { italic: st.italic, monospace: true }))
    } else if has_prefix(s, 0, code_close()) {
        Step::Skip(taken(v, 7, TextStyle { italic: st.italic, monospace: false }))
    } else if escape_at(s) is Some {
        let (code, n) = escape_at(s)->0;
        Step::Emit(Token::Escape(char_with_code(code)), taken(v, n, st))
    } else if has_prefix(s, 0, paragraph()) {
        Step::Emit(Token::NewLine, taken(v, 3, st))
    } else if has_prefix(s, 0, quot_entity()) {
        Step::Emit(Token::Escape('"'), taken(v, 6, st))
    } else if has_prefix(s, 0, gt_entity()) {
        Step::Emit(Token::Escape('>'), taken(v, 4, st))
    } else if link_at(s) is Some {
        let (url, text, n) = link_at(s)->0;
        Step::Emit(Token::Link(fresh(url), fresh(text)), taken(v, n, st))
    } else if text_end(s, 0) > 0 {
        Step::Emit(Token::Text(s.subrange(0, text_end(s, 0))), taken(v, text_end(s, 0), st))
    } else {
        Step::Stuck
    }
}

/// The next item and its style, and the state after it. Style tags are
/// taken in silently, and a line break right after another is dropped.
pub open spec fn lex(v: ParserView) -> (Option<(Token, TextStyle)>, ParserView)
    decreases v.rest.len() via lex_decreases
{
    match step(v) {
        Step::Skip(w) => lex(w),
        Step::Emit(t, w) => if v.after_newline && t is NewLine {
            lex(w)
        } else {
            (Some((t, w.style)), ParserView { after_newline: t is NewLine, ..w })
        },
        _ => (None, v),
    }
}

#[via_fn]
proof fn lex_decreases(v: ParserView) {
    lemma_step_shrinks(v);
}


/// Found positions lie in range.
proof fn lemma_find_char_range(s: Seq<char>, c: char, i: int)
    ensures
        find_char_from(s, c, i) == -1 || (i <= find_char_from(s, c, i) < s.len() && s[find_char_from(s, c, i)] == c),
    decreases s.len() - i,
{
    if 0 <= i < s.len() && s[i] != c {
        lemma_find_char_range(s, c, i + 1);
    }
}

/// Found positions lie in range.
proof fn lemma_find_seq_range(s: Seq<char>, p: Seq<char>, i: int)
    ensures
        find_seq_from(s, p, i) == -1 || (i <= find_seq_from(s, p, i) && find_seq_from(s, p, i) + p.len() <= s.len()),
    decreases s.len() + 1 - i,
{
    if 0 <= i && i + p.len() <= s.len() && !has_prefix(s, i, p) {
        lemma_find_seq_range(s, p, i + 1);
    }
}

/// A run of text ends within the text.
proof fn lemma_text_end_range(s: Seq<char>, i: int)
    requires
        0 <= i,
    ensures
        text_end(s, i) <= s.len(),
        i < s.len() ==> i <= text_end(s, i),
    decreases s.len() - i,
{
    if i < s.len() && !special_at(s, i) {
        lemma_text_end_range(s, i + 1);
    }
}

/// Every step takes at least one char, and a link's url and text are
/// shorter than the text they were found in.
proof fn lemma_step_shrinks(v: ParserView)
    ensures
        match step(v) {
            Step::Skip(w) => w.rest.len() < v.rest.len(),
            Step::Emit(t, w) => w.rest.len() < v.rest.len() && match t {
                Token::Link(u, x) => u.rest.len() < v.rest.len() && x.rest.len() < v.rest.len(),
                _ => true,
            },
            _ => true,
        },
{
    let s = v.rest;
    lemma_find_char_range(s, ';', 0);
    lemma_find_char_range(s, '"', 9);
    lemma_find_char_range(s, '>', 9);
    lemma_find_seq_range(s, link_close(), find_char_from(s, '>', 9) + 1);
    lemma_text_end_range(s, 0);
}

/// Every item takes at least one char, and a link's text is shorter than
/// the text it was found in.
proof fn lemma_lex_shrinks(v: ParserView)
    ensures
        match lex(v).0 {
            Some((t, _)) => lex(v).1.rest.len() < v.rest.len() && match t {
                Token::Link(u, x) => u.rest.len() < v.rest.len() && x.rest.len() < v.rest.len(),
                _ => true,
            },
            None => true,
        },
    decreases v.rest.len(),
{
    lemma_step_shrinks(v);
    match step(v) {
        Step::Skip(w) => {
            lemma_lex_shrinks(w);
        },
        Step::Emit(t, w) => {
            if v.after_newline && t is NewLine {
                lemma_lex_shrinks(w);
            }
        },
        _ => {},
    }
}

/// The text that the items from `v` on stand for: an entity as its char,
/// a line break as `\n`, a link as its text.
pub open spec fn rendered(v: ParserView) -> Seq<char>
    decreases v.rest.len() via rendered_decreases
{
    match lex(v).0 {
        None => Seq::empty(),
        Some((t, _)) => {
            let head = match t {
                Token::Escape(c) => seq![c],
                Token::Text(x) => x,
                Token::NewLine => seq!['\n'],
                Token::Link(_, text) => rendered(text),
            };
            head + rendered(lex(v).1)
        },
    }
}

#[via_fn]
proof fn rendered_decreases(v: ParserView) {
    lemma_lex_shrinks(v);
}

/// An item of decorated text, borrowing from the text it was read from.
#[derive(Copy, Clone, Debug, Eq, PartialEq)]
pub enum Item<'a> {
    /// A char written as an entity.
    Escape(char),
    /// A run of plain text.
    Text(&'a str),
    /// A line break.
    NewLine,
    /// A link: a parser over its url, and one over its text.
    Link(Parser<'a>, Parser<'a>),
}

/// Reads the items of a comment's markup one at a time.
#[derive(Copy, Clone, Debug, Eq, PartialEq)]
pub struct Parser<'a> {
    s: &'a str,
    style: TextStyle,
    last_was_newline: bool,
}

impl<'a> View for Parser<'a> {
    type V = ParserView;

    closed spec fn view(&self) -> ParserView {
        ParserView { rest: self.s@, style: self.style, after_newline: self.last_was_newline }
    }
}

/// What an item stands for.
pub open spec fn token_of(i: Item) -> Token {
    match i {
        Item::Escape(c) => Token::Escape(c),
        Item::Text(t) => Token::Text(t@),
        Item::NewLine => Token::NewLine,
        Item::Link(u, t) => Token::Link(u@, t@),
    }
}

/// What an answer of `next` stands for.
pub open spec fn answer_of(r: Option<(Item, TextStyle)>) -> Option<(Token, TextStyle)> {
    match r {
        Some((i, st)) => Some((token_of(i), st)),
        None => None,
    }
}

/// The first position at or after `from` that holds `c`.
fn find_char(cs: &Vec<char>, from: usize, c: char) -> (r: Option<usize>)
    ensures
        match r {
            Some(k) => k as int == find_char_from(cs@, c, from as int),
            None => find_char_from(cs@, c, from as int) == -1,
        },
{
    let mut i = from;
    while i < cs.len()
        invariant
            from <= i,
            find_char_from(cs@, c, from as int) == find_char_from(cs@, c, i as int),
        decreases cs.len() - i,
    {
        if cs[i] == c {
            return Some(i);
        }
        i += 1;
    }
    None
}

/// The first position at or after `from` where `p` stands.
fn find_seq(cs: &Vec<char>, from: usize, p: &[char]) -> (r: Option<usize>)
    ensures
        match r {
            Some(k) => k as int == find_seq_from(cs@, p@, from as int),
            None => find_seq_from(cs@, p@, from as int) == -1,
        },
{
    let mut i = from;
    while i <= cs.len() && p.len() <= cs.len() - i
        invariant
            from <= i,
            find_seq_from(cs@, p@, from as int) == find_seq_from(cs@, p@, i as int),
        decreases cs.len() + 1 - i,
    {
        if prefix_at(cs, i, p) {
            return Some(i);
        }
        if i == cs.len() {
            assert(cs@.subrange(i as int, i as int) =~= p@);
        }
        i += 1;
    }
    None
}

/// Whether a tag or an entity that ends plain text starts at `i`.
fn special_here(cs: &Vec<char>, i: usize) -> (r: bool)
    ensures
        r == special_at(cs@, i as int),
{
    prefix_at(cs, i, &['&', '#']) || prefix_at(cs, i, &['<', 'p', '>']) || prefix_at(
        cs,
        i,
        &['&', 'g', 't', ';'],
    ) || prefix_at(cs, i, &['&', 'q', 'u', 'o', 't', ';']) || prefix_at(
        cs,
        i,
        &['<', 'a', ' ', 'h', 'r', 'e', 'f', '=', '"'],
    ) || prefix_at(cs, i, &['<', 'i', '>']) || prefix_at(cs, i, &['<', '/', 'i', '>'])
        || prefix_at(cs, i, &['<', 'p', 'r', 'e', '>']) || prefix_at(
        cs,
        i,
        &['<', '/', 'p', 'r', 'e', '>'],
    ) || prefix_at(cs, i, &['<', 'c', 'o', 'd', 'e', '>']) || prefix_at(
        cs,
        i,
        &['<', '/', 'c', 'o', 'd', 'e', '>'],
    )
}

/// The first position at or after `from` where a tag or an entity starts;
/// the length of `cs` when none does.
fn find_first_of(cs: &Vec<char>, from: usize) -> (r: usize)
    ensures
        r as int == text_end(cs@, from as int),
{
    let mut i = from;
    while i < cs.len()
        invariant
            from <= i,
            text_end(cs@, from as int) == text_end(cs@, i as int),
        decreases cs.len() - i,
    {
        if special_here(cs, i) {
            return i;
        }
        i += 1;
    }
    cs.len()
}

/// The value of hexadecimal digit `c`.
fn hex_digit_of(c: char) -> (r: Option<u32>)
    ensures
        match r {
            Some(d) => hex_digit(c) >= 0 && d as int == hex_digit(c),
            None => hex_digit(c) < 0,
        },
{
    if '0' <= c && c <= '9' {
        Some((c as u32) - ('0' as u32))
    } else if 'a' <= c && c <= 'f' {
        Some((c as u32) - ('a' as u32) + 10)
    } else if 'A' <= c && c <= 'F' {
        Some((c as u32) - ('A' as u32) + 10)
    } else {
        None
    }
}

/// A value is at least the value of its digits but the last.
proof fn lemma_hex_grows(d: Seq<char>)
    requires
        d.len() > 0,
        all_hex(d),
    ensures
        hex_value(d) >= hex_value(d.drop_last()) * 16,
        hex_value(d) <= hex_value(d.drop_last()) * 16 + 15,
{
    assert(hex_digit(d[d.len() - 1]) >= 0);
}

/// Values of hexadecimal digits are never negative.
proof fn lemma_hex_nonneg(d: Seq<char>)
    requires
        all_hex(d),
    ensures
        hex_value(d) >= 0,
    decreases d.len(),
{
    if d.len() > 0 {
        assert(all_hex(d.drop_last())) by {
            assert forall|i: int| 0 <= i < d.drop_last().len() implies hex_digit(
                #[trigger] d.drop_last()[i],
            ) >= 0 by {
                assert(d.drop_last()[i] == d[i]);
            }
        }
        lemma_hex_nonneg(d.drop_last());
        lemma_hex_grows(d);
    }
}

/// The value of the hexadecimal digits `cs[from..to]`, when they all are
/// digits and write at most 0x10FFFF.
fn hex_scan(cs: &Vec<char>, from: usize, to: usize) -> (r: Option<u32>)
    requires
        from <= to <= cs@.len(),
    ensures
        match r {
            Some(v) => all_hex(cs@.subrange(from as int, to as int)) && v as int == hex_value(
                cs@.subrange(from as int, to as int),
            ),
            None => !(all_hex(cs@.subrange(from as int, to as int)) && hex_value(
                cs@.subrange(from as int, to as int),
            ) <= 0x10FFFF),
        },
{
    let mut num: u32 = 0;
    let mut big = false;
    let mut j = from;
    while j < to
        invariant
            from <= j <= to <= cs@.len(),
            all_hex(cs@.subrange(from as int, j as int)),
            big == (hex_value(cs@.subrange(from as int, j as int)) > 0x10FFFF),
            !big ==> num as int == hex_value(cs@.subrange(from as int, j as int)),
            !big ==> num <= 0x10FFFF,
        decreases to - j,
    {
        let ghost pre = cs@.subrange(from as int, j as int);
        let ghost post = cs@.subrange(from as int, j + 1);
        assert(post.drop_last() == pre);
        match hex_digit_of(cs[j]) {
            Some(d) => {
                proof {
                    assert(post.last() == cs@[j as int]);
                    assert forall|i: int| 0 <= i < post.len() implies hex_digit(#[trigger] post[i]) >= 0 by {
                        if i < pre.len() {
                            assert(post[i] == pre[i]);
                        }
                    }
                    lemma_hex_nonneg(pre);
                    lemma_hex_grows(post);
                }
                if !big {
                    let wide: u64 = (num as u64) * 16 + (d as u64);
                    if wide > 0x10FFFF {
                        big = true;
                    } else {
                        num = wide as u32;
                    }
                }
            },
            None => {
                proof {
                    assert(post.last() == cs@[j as int]);
                    let whole = cs@.subrange(from as int, to as int);
                    assert(whole[j - from] == cs@[j as int]);
                }
                return None;
            },
        }
        j += 1;
    }
    if big {
        None
    } else {
        Some(num)
    }
}

/// Relies on `char::from_u32`: a char exactly for the codes of chars.
#[verifier::external_body]
fn char_from_code(v: u32) -> (r: Option<char>)
    ensures
        r is Some <==> is_char_code(v as int),
        r matches Some(c) ==> code_of(c) == v as int,
{
    char::from_u32(v)
}

/// A numeric entity at the start of `cs`: its char and its length.
fn escape_here(cs: &Vec<char>) -> (r: Option<(char, usize)>)
    ensures
        match r {
            Some((c, n)) => escape_at(cs@) == Some((code_of(c), n as int)),
            None => escape_at(cs@) is None,
        },
{
    if !prefix_at(cs, 0, &['&', '#']) {
        return None;
    }
    let k = match find_char(cs, 0, ';') {
        Some(k) => k,
        None => {
            return None;
        },
    };
    proof {
        lemma_find_char_range(cs@, ';', 0);
    }
    let n = cs.len();
    assert(k < n);
    let from: usize = if k > 2 && cs[2] == 'x' {
        3
    } else {
        2
    };
    if from >= k {
        return None;
    }
    match hex_scan(cs, from, k) {
        Some(v) => {
            if v == 0 {
                return None;
            }
            match char_from_code(v) {
                Some(c) => Some((c, k + 1)),
                None => None,
            }
        },
        None => None,
    }
}

/// A link at the start of `cs`: the end of its url, the end of its opening
/// tag, and where its closing tag starts.
fn link_here(cs: &Vec<char>) -> (r: Option<(usize, usize, usize)>)
    ensures
        match r {
            Some((u, b, e)) => {
                &&& 9 <= u <= cs@.len()
                &&& 9 <= b < cs@.len()
                &&& b + 1 <= e
                &&& e + 4 <= cs@.len()
                &&& link_at(cs@) == Some(
                    (cs@.subrange(9, u as int), cs@.subrange(b + 1, e as int), e + 4),
                )
            },
            None => link_at(cs@) is None,
        },
{
    if !prefix_at(cs, 0, &['<', 'a', ' ', 'h', 'r', 'e', 'f', '=', '"']) {
        return None;
    }
    let u = match find_char(cs, 9, '"') {
        Some(u) => u,
        None => {
            return None;
        },
    };
    let b = match find_char(cs, 9, '>') {
        Some(b) => b,
        None => {
            return None;
        },
    };
    proof {
        lemma_find_char_range(cs@, '"', 9);
        lemma_find_char_range(cs@, '>', 9);
    }
    let n = cs.len();
    assert(b < n);
    let e = match find_seq(cs, b + 1, &['<', '/', 'a', '>']) {
        Some(e) => e,
        None => {
            return None;
        },
    };
    proof {
        lemma_find_seq_range(cs@, link_close(), b + 1);
    }
    Some((u, b, e))
}

impl<'a> Parser<'a> {
    /// A parser at the start of `input`, with no style in force.
    pub fn new(input: &'a str) -> (r: Self)
        ensures
            r@ == fresh(input@),
    {
        Parser { s: input, style: TextStyle { italic: false, monospace: false }, last_was_newline: false }
    }

    /// The next item and the style in force for it; none at the end of the
    /// text, or where no rule takes the text that is left.
    pub fn next(&mut self) -> (r: Option<(Item<'a>, TextStyle)>)
        ensures
            (answer_of(r), final(self)@) == lex(old(self)@),
    {
        loop
            invariant
                lex(self@) == lex(old(self)@),
            decreases self@.rest.len(),
        {
            let s = self.s;
            let cs = chars_of(s);
            let n = cs.len();
            let ghost v = self@;
            if n == 0 {
                return None;
            }
            let mut style = self.style;
            let mut item: Option<Item<'a>> = None;
            let take: usize;
            if prefix_at(&cs, 0, &['<', 'i', '>']) {
                style = TextStyle { italic: true, monospace: style.monospace };
                take = 3;
            } else if prefix_at(&cs, 0, &['<', '/', 'i', '>']) {
                style = TextStyle { italic: false, monospace: style.monospace };
                take = 4;
            } else if prefix_at(&cs, 0, &['<', 'p', 'r', 'e', '>']) {
                style = TextStyle { italic: style.italic, monospace: true };
                item = Some(Item::NewLine);
                take = 5;
            } else if prefix_at(&cs, 0, &['<', '/', 'p', 'r', 'e', '>']) {
                style = TextStyle { italic: style.italic, monospace: false };
                item = Some(Item::NewLine);
                take = 6;
            } else if prefix_at(&cs, 0, &['<', 'c', 'o', 'd', 'e', '>']) {
                style = TextStyle { italic: style.italic, monospace: true };
                take = 6;
            } else if prefix_at(&cs, 0, &['<', '/', 'c', 'o', 'd', 'e', '>']) {
                style = TextStyle { italic: style.italic, monospace: false };
                take = 7;
            } else if let Some((c, k)) = escape_here(&cs) {
                proof {
                    lemma_find_char_range(cs@, ';', 0);
                }
                item = Some(Item::Escape(c));
                take = k;
            } else if prefix_at(&cs, 0, &['<', 'p', '>']) {
                item = Some(Item::NewLine);
                take = 3;
            } else if prefix_at(&cs, 0, &['&', 'q', 'u', 'o', 't', ';']) {
                item = Some(Item::Escape('"'));
                take = 6;
            } else if prefix_at(&cs, 0, &['&', 'g', 't', ';']) {
                item = Some(Item::Escape('>'));
                take = 4;
            } else if let Some((u, b, e)) = link_here(&cs) {
                let url = s.substring_char(9, u);
                let text = s.substring_char(b + 1, e);
                item = Some(Item::Link(Parser::new(url), Parser::new(text)));
                take = e + 4;
            } else {
                let t = find_first_of(&cs, 0);
                proof {
                    lemma_text_end_range(cs@, 0);
                }
                if t == 0 {
                    return None;
                }
                item = Some(Item::Text(s.substring_char(0, t)));
                take = t;
            }
            self.s = s.substring_char(take, n);
            self.style = style;
            proof {
                match item {
                    Some(it) => {
                        assert(step(v) == Step::Emit(token_of(it), self@));
                    },
                    None => {
                        assert(step(v) == Step::Skip(self@));
                    },
                }
            }
            match item {
                None => {},
                Some(it) => {
                    let is_break = match it {
                        Item::NewLine => true,
                        _ => false,
                    };
                    if !(self.last_was_newline && is_break) {
                        self.last_was_newline = is_break;
                        return Some((it, style));
                    }
                },
            }
        }
    }

    /// The text of every item left, with entities as their chars, line
    /// breaks as `\n` and links as their text.
    pub fn to_string(&mut self) -> (r: String)
        ensures
            r@ == rendered(old(self)@),
        decreases old(self)@.rest.len(),
    {
        let mut string = String::new();
        loop
            invariant_except_break
                string@ + rendered(self@) == rendered(old(self)@),
                self@.rest.len() <= old(self)@.rest.len(),
            ensures
                string@ == rendered(old(self)@),
            decreases self@.rest.len(),
        {
            let ghost v = self@;
            proof {
                lemma_lex_shrinks(v);
            }
            match self.next() {
                None => {
                    assert(string@ + rendered(v) =~= string@);
                    break ;
                },
                Some((item, _)) => {
                    match item {
                        Item::Escape(ch) => push_char(&mut string, ch),
                        Item::Text(text) => string.append(text),
                        Item::NewLine => push_char(&mut string, '\n'),
                        Item::Link(_, mut text) => {
                            let inner = text.to_string();
                            string.append(inner.as_str());
                        },
                    }
                    assert(string@ + rendered(self@) =~= rendered(old(self)@));
                },
            }
        }
        string
    }
}

/// Relies on `String::push`: appends one char.
#[verifier::external_body]
fn push_char(s: &mut String, c: char)
    ensures
        final(s)@ == old(s)@.push(c),
{
    s.push(c);
}

} // verus!
