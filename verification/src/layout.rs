//! Text-overlay layout: escaping, line splitting, the monospace width
//! heuristic, and the nested-padding placement of the quote, author and
//! balance blocks inside the safe area.
//!
//! Coordinates are signed: with a degenerate safe area a block may anchor
//! left of or above the image, which the vector renderer simply clips.
//! Widths are estimated as `chars * (font_size * 3 / 5)`, the monospace
//! heuristic, and the quote's line height is 34 pixels (28 scaled by 1.2,
//! truncated to whole pixels as the markup uses).

use vstd::prelude::*;
use vstd::math::max;
use crate::geometry::SafeArea;

verus! {

/// The largest text length the layout accepts; far beyond any real quote,
/// it keeps every coordinate well inside `i64`.
pub const MAX_TEXT_LEN: usize = 0x7FFF_FFFF;

/// What a character becomes inside the vector markup: the five special
/// characters are escaped, all others stand as themselves.
pub open spec fn escape_char(c: char) -> Seq<char> {
    if c == '&' {
        "&amp;"@
    } else if c == '<' {
        "&lt;"@
    } else if c == '>' {
        "&gt;"@
    } else if c == '"' {
        "&quot;"@
    } else if c == '\'' {
        "&apos;"@
    } else {
        seq![c]
    }
}

/// A text with every markup-special character escaped.
pub open spec fn escape_seq(s: Seq<char>) -> Seq<char>
    decreases s.len(),
{
    if s.len() == 0 {
        Seq::empty()
    } else {
        escape_char(s[0]) + escape_seq(s.drop_first())
    }
}

/// Appending one character appends its escape.
proof fn lemma_escape_snoc(s: Seq<char>, c: char)
    ensures
        escape_seq(s.push(c)) == escape_seq(s) + escape_char(c),
    decreases s.len(),
{
    if s.len() == 0 {
        assert(s.push(c)[0] == c);
        assert(s.push(c).drop_first() =~= Seq::<char>::empty());
        assert(escape_seq(Seq::<char>::empty()) == Seq::<char>::empty());
        assert(escape_seq(s.push(c)) =~= escape_char(c));
        assert(escape_seq(s) + escape_char(c) =~= escape_char(c));
    } else {
        assert(s.push(c)[0] == s[0]);
        assert(s.push(c).drop_first() =~= s.drop_first().push(c));
        lemma_escape_snoc(s.drop_first(), c);
        assert(escape_char(s[0]) + (escape_seq(s.drop_first()) + escape_char(c)) =~= (escape_char(
            s[0],
        ) + escape_seq(s.drop_first())) + escape_char(c));
    }
}

/// An escape keeps at least one and at most six characters per character.
proof fn lemma_escape_len(s: Seq<char>)
    ensures
        s.len() <= escape_seq(s).len() <= 6 * s.len(),
    decreases s.len(),
{
    reveal_strlit("&amp;");
    reveal_strlit("&lt;");
    reveal_strlit("&gt;");
    reveal_strlit("&quot;");
    reveal_strlit("&apos;");
    if s.len() > 0 {
        lemma_escape_len(s.drop_first());
        assert(1 <= escape_char(s[0]).len() <= 6);
    }
}

/// Escapes the five markup-special characters.
pub fn escape_markup(s: &str) -> (r: String)
    ensures
        r@ == escape_seq(s@),
{
    let n = s.unicode_len();
    let mut out = String::new();
    let mut i: usize = 0;
    while i < n
        invariant
            n == s@.len(),
            0 <= i <= n,
            out@ == escape_seq(s@.take(i as int)),
        decreases n - i,
    {
        let c = s.get_char(i);
        if c == '&' {
            out.append("&amp;");
        } else if c == '<' {
            out.append("&lt;");
        } else if c == '>' {
            out.append("&gt;");
        } else if c == '"' {
            out.append("&quot;");
        } else if c == '\'' {
            out.append("&apos;");
        } else {
            out.append(s.substring_char(i, i + 1));
        }
        proof {
            lemma_escape_snoc(s@.take(i as int), c);
            assert(s@.take(i as int + 1) =~= s@.take(i as int).push(c));
            assert(s@.subrange(i as int, i as int + 1) =~= seq![c]);
            assert(out@ =~= escape_seq(s@.take(i as int + 1)));
        }
        i = i + 1;
    }
    proof {
        assert(s@.take(n as int) =~= s@);
    }
    out
}

/// The index of the first line feed, or the length when there is none.
pub open spec fn newline_index(s: Seq<char>) -> int
    decreases s.len(),
{
    if s.len() == 0 {
        0
    } else if s[0] == '\n' {
        0
    } else {
        1 + newline_index(s.drop_first())
    }
}

proof fn lemma_newline_index(s: Seq<char>)
    ensures
        0 <= newline_index(s) <= s.len(),
        forall|j: int| 0 <= j < newline_index(s) ==> s[j] != '\n',
        newline_index(s) < s.len() ==> s[newline_index(s)] == '\n',
    decreases s.len(),
{
    if s.len() > 0 && s[0] != '\n' {
        lemma_newline_index(s.drop_first());
        let rest = s.drop_first();
        assert forall|j: int| 0 <= j < newline_index(s) implies s[j] != '\n' by {
            if j > 0 {
                assert(s[j] == rest[j - 1]);
            }
        }
        if newline_index(s) < s.len() {
            assert(s[newline_index(s)] == rest[newline_index(rest)]);
        }
    }
}

/// A line with a trailing carriage return removed.
pub open spec fn strip_cr(line: Seq<char>) -> Seq<char> {
    if line.len() > 0 && line.last() == '\r' {
        line.drop_last()
    } else {
        line
    }
}

/// The lines of a text, as `str::lines` reads them: split at line feeds,
/// each line stripped of one trailing carriage return, a final line ending
/// optional.  The empty text has no lines.
pub open spec fn lines_of(s: Seq<char>) -> Seq<Seq<char>>
    decreases s.len(),
    via lines_of_decreases
{
    if s.len() == 0 {
        Seq::empty()
    } else {
        let i = newline_index(s);
        if i == s.len() {
            seq![s]
        } else {
            seq![strip_cr(s.take(i))] + lines_of(s.skip(i + 1))
        }
    }
}

#[via_fn]
proof fn lines_of_decreases(s: Seq<char>) {
    lemma_newline_index(s);
}

/// Every line is at most as long as the text, and a nonempty text has at
/// least one and at most `len` lines.
proof fn lemma_lines_bounds(s: Seq<char>)
    ensures
        s.len() > 0 ==> 1 <= lines_of(s).len() <= s.len(),
        forall|j: int|
            0 <= j < lines_of(s).len() ==> (#[trigger] lines_of(s)[j]).len() <= s.len(),
    decreases s.len(),
{
    if s.len() > 0 {
        lemma_newline_index(s);
        let i = newline_index(s);
        if i < s.len() {
            lemma_lines_bounds(s.skip(i + 1));
            let rest = lines_of(s.skip(i + 1));
            assert forall|j: int|
                0 <= j < lines_of(s).len() implies (#[trigger] lines_of(s)[j]).len()
                <= s.len() by {
                if j > 0 {
                    assert(lines_of(s)[j] == rest[j - 1]);
                    assert(rest[j - 1].len() <= s.skip(i + 1).len());
                }
            }
        }
    }
}

/// Splits a text into its lines.
pub fn split_lines(s: &str) -> (r: Vec<String>)
    ensures
        r@.map_values(|l: String| l@) == lines_of(s@),
    decreases s@.len(),
{
    let n = s.unicode_len();
    if n == 0 {
        let r: Vec<String> = Vec::new();
        proof {
            assert(r@.map_values(|l: String| l@) =~= lines_of(s@));
        }
        return r;
    }
    let mut i: usize = 0;
    while i < n && s.get_char(i) != '\n'
        invariant
            n == s@.len(),
            0 <= i <= n,
            forall|j: int| 0 <= j < i ==> s@[j] != '\n',
        decreases n - i,
    {
        i = i + 1;
    }
    proof {
        lemma_newline_index(s@);
        assert(newline_index(s@) == i as int) by {
            if newline_index(s@) < i as int {
                assert(s@[newline_index(s@)] == '\n');
            }
        }
    }
    if i == n {
        let mut r: Vec<String> = Vec::new();
        r.push(String::from_str(s));
        proof {
            assert(r@.map_values(|l: String| l@) =~= lines_of(s@));
        }
        return r;
    }
    let line = if i > 0 && s.get_char(i - 1) == '\r' {
        s.substring_char(0, i - 1)
    } else {
        s.substring_char(0, i)
    };
    proof {
        assert(s@.take(i as int) =~= s@.subrange(0, i as int));
        if i > 0 && s@[i as int - 1] == '\r' {
            assert(s@.take(i as int).last() == '\r');
            assert(line@ =~= strip_cr(s@.take(i as int)));
        } else {
            assert(line@ =~= strip_cr(s@.take(i as int)));
        }
    }
    let rest = s.substring_char(i + 1, n);
    proof {
        assert(rest@ =~= s@.skip(i as int + 1));
    }
    let mut r: Vec<String> = Vec::new();
    r.push(String::from_str(line));
    let mut tail = split_lines(rest);
    r.append(&mut tail);
    proof {
        assert(r@.map_values(|l: String| l@) =~= lines_of(s@));
    }
    r
}

/// The length of the longest line; zero when there are none.
pub open spec fn max_line_len(ls: Seq<Seq<char>>) -> int
    decreases ls.len(),
{
    if ls.len() == 0 {
        0
    } else {
        max(max_line_len(ls.drop_last()), ls.last().len() as int)
    }
}

/// The longest line is no longer than any common bound on the lines.
proof fn lemma_max_line_len_bound(ls: Seq<Seq<char>>, bound: int)
    requires
        forall|j: int| 0 <= j < ls.len() ==> (#[trigger] ls[j]).len() <= bound,
        bound >= 0,
    ensures
        0 <= max_line_len(ls) <= bound,
    decreases ls.len(),
{
    if ls.len() > 0 {
        assert(forall|j: int|
            0 <= j < ls.drop_last().len() ==> (#[trigger] ls.drop_last()[j]).len() <= bound);
        lemma_max_line_len_bound(ls.drop_last(), bound);
        assert(ls.last().len() <= bound);
    }
}

/// Computes the longest line's length.
pub fn longest_line(lines: &Vec<String>) -> (r: usize)
    ensures
        r == max_line_len(lines@.map_values(|l: String| l@)),
{
    let ghost views = lines@.map_values(|l: String| l@);
    let mut r: usize = 0;
    let n = lines.len();
    let mut i: usize = 0;
    while i < n
        invariant
            n == lines@.len(),
            views == lines@.map_values(|l: String| l@),
            0 <= i <= n,
            r == max_line_len(views.take(i as int)),
        decreases n - i,
    {
        let len = lines[i].as_str().unicode_len();
        proof {
            assert(views.take(i as int + 1).drop_last() =~= views.take(i as int));
            assert(views.take(i as int + 1).last() == views[i as int]);
            assert(views[i as int] == lines@[i as int]@);
        }
        if len > r {
            r = len;
        }
        i = i + 1;
    }
    proof {
        assert(views.take(n as int) =~= views);
    }
    r
}

/// The nested padding levels `[p, p/2, p/4, p/8, p/16]`.
pub open spec fn padding_levels_of(p: int) -> Seq<int> {
    seq![p, p / 2, p / 4, p / 8, p / 16]
}

/// Computes the padding levels; they never increase from one level to the
/// next.
pub fn padding_levels(p: u32) -> (r: Vec<u32>)
    ensures
        r@.map_values(|v: u32| v as int) == padding_levels_of(p as int),
        forall|k: int| 0 <= k < 4 ==> (#[trigger] r@[k]) >= r@[k + 1],
{
    let r = vec![p, p / 2, p / 4, p / 8, p / 16];
    proof {
        assert(r@.map_values(|v: u32| v as int) =~= padding_levels_of(p as int));
    }
    r
}

/// How text is anchored horizontally at its x coordinate.
#[derive(Clone, Copy, Debug, PartialEq, Eq, Structural)]
pub enum TextAnchor {
    /// The x coordinate is the left edge of the text.
    Start,
    /// The x coordinate is the right edge of the text.
    End,
}

/// One positioned block of already-escaped text lines.
#[derive(Clone, Debug)]
pub struct TextBlock {
    pub lines: Vec<String>,
    pub font_size: u32,
    pub x: i64,
    pub y: i64,
    pub anchor: TextAnchor,
}

/// The placed quote, author and balance blocks, with the padding levels the
/// placement used.
#[derive(Clone, Debug)]
pub struct TextLayout {
    pub padding_levels: Vec<u32>,
    pub quote: TextBlock,
    pub author: Option<TextBlock>,
    pub balance: Option<TextBlock>,
}

/// The quote's lines: the escaped text split at line feeds, except that an
/// empty quote still yields one (empty) line.
pub open spec fn quote_lines_of(text: Seq<char>) -> Seq<Seq<char>> {
    let esc = escape_seq(text);
    if esc.len() == 0 {
        seq![Seq::<char>::empty()]
    } else {
        lines_of(esc)
    }
}

/// The right edge every block aligns against: the safe area's right edge,
/// inset by the outermost padding.
pub open spec fn right_edge_of(sa: SafeArea, p: int) -> int {
    sa.x + sa.width - p
}

/// The quote block's left edge, at 16 pixels a character.
pub open spec fn quote_x_of(text: Seq<char>, sa: SafeArea, p: int) -> int {
    right_edge_of(sa, p) - max_line_len(quote_lines_of(text)) * 16
}

/// The quote block's top anchor.
pub open spec fn quote_y_of(sa: SafeArea, p: int) -> int {
    sa.y + 2 * p
}

/// The quote block's stacked height at 34 pixels a line.
pub open spec fn quote_height_of(text: Seq<char>) -> int {
    quote_lines_of(text).len() as int * 34
}

/// Where the author line goes: directly below the quote block, after the
/// second padding level.
pub open spec fn author_y_of(text: Seq<char>, sa: SafeArea, p: int) -> int {
    quote_y_of(sa, p) + quote_height_of(text) + p / 2
}

/// The bottom of the quote-and-author group, after the outermost padding.
pub open spec fn group_bottom_of(text: Seq<char>, has_author: bool, sa: SafeArea, p: int) -> int {
    if has_author {
        author_y_of(text, sa, p) + 21 + p
    } else {
        quote_y_of(sa, p) + quote_height_of(text) + p
    }
}

/// The balance block's lines.
pub open spec fn balance_lines_of(balance: Seq<char>) -> Seq<Seq<char>> {
    lines_of(escape_seq(balance))
}

/// The balance block's left edge, at 12 pixels a character.
pub open spec fn balance_x_of(balance: Seq<char>, sa: SafeArea, p: int) -> int {
    right_edge_of(sa, p) - max_line_len(balance_lines_of(balance)) * 12
}

/// The views of a block's lines.
pub open spec fn block_lines(b: TextBlock) -> Seq<Seq<char>> {
    b.lines@.map_values(|l: String| l@)
}

/// Lays the quote, author and balance out against the safe area, using the
/// nested-padding model.  Coordinates may leave the image when the safe
/// area is degenerate; nothing here fails or panics.
pub fn layout_text(
    text: &str,
    author: Option<&str>,
    balance: Option<&str>,
    safe_area: &SafeArea,
    text_padding: u32,
) -> (r: TextLayout)
    requires
        text@.len() <= MAX_TEXT_LEN,
        author matches Option::Some(a) ==> a@.len() <= MAX_TEXT_LEN,
        balance matches Option::Some(b) ==> b@.len() <= MAX_TEXT_LEN,
    ensures
        r.padding_levels@.map_values(|v: u32| v as int) == padding_levels_of(text_padding as int),
        block_lines(r.quote) == quote_lines_of(text@),
        r.quote.font_size == 28,
        r.quote.anchor == TextAnchor::Start,
        r.quote.x == quote_x_of(text@, *safe_area, text_padding as int),
        r.quote.y == quote_y_of(*safe_area, text_padding as int),
        match author {
            Option::Some(a) => match r.author {
                Option::Some(b) => {
                    &&& block_lines(b) == seq!["\u{a9} "@ + escape_seq(a@)]
                    &&& b.font_size == 21
                    &&& b.anchor == TextAnchor::End
                    &&& b.x == right_edge_of(*safe_area, text_padding as int)
                    &&& b.y == author_y_of(text@, *safe_area, text_padding as int)
                },
                Option::None => false,
            },
            Option::None => r.author is None,
        },
        match balance {
            Option::Some(bal) => match r.balance {
                Option::Some(b) => {
                    &&& block_lines(b) == balance_lines_of(bal@)
                    &&& b.font_size == 20
                    &&& b.anchor == TextAnchor::Start
                    &&& b.x == balance_x_of(bal@, *safe_area, text_padding as int)
                    &&& b.y == group_bottom_of(
                        text@,
                        author is Some,
                        *safe_area,
                        text_padding as int,
                    )
                },
                Option::None => false,
            },
            Option::None => r.balance is None,
        },
{
    let levels = padding_levels(text_padding);
    let p0 = text_padding as i64;
    let p1 = (text_padding / 2) as i64;

    let esc = escape_markup(text);
    proof {
        lemma_escape_len(text@);
    }
    let mut qlines = split_lines(esc.as_str());
    if qlines.len() == 0 {
        qlines.push(String::new());
    }
    proof {
        lemma_lines_bounds(esc@);
        assert(qlines@.map_values(|l: String| l@) =~= quote_lines_of(text@));
        lemma_max_line_len_bound(qlines@.map_values(|l: String| l@), 6 * text@.len() as int);
    }
    let maxlen = longest_line(&qlines);
    let qw: i64 = (maxlen as i64) * 16;
    let qre: i64 = safe_area.x as i64 + safe_area.width as i64 - p0;
    let qx: i64 = qre - qw;
    let qy: i64 = safe_area.y as i64 + 2 * p0;
    let nlines = qlines.len();
    proof {
        assert(nlines <= 6 * text@.len() + 1);
    }
    let qh: i64 = (nlines as i64) * 34;

    let quote = TextBlock { lines: qlines, font_size: 28, x: qx, y: qy, anchor: TextAnchor::Start };

    let author_y: i64 = qy + qh + p1;
    let author_block: Option<TextBlock> = match author {
        Option::Some(a) => {
            let mut line = String::from_str("\u{a9} ");
            line.append(escape_markup(a).as_str());
            let mut lines: Vec<String> = Vec::new();
            lines.push(line);
            proof {
                assert(lines@.map_values(|l: String| l@) =~= seq!["\u{a9} "@ + escape_seq(a@)]);
            }
            Option::Some(
                TextBlock { lines, font_size: 21, x: qre, y: author_y, anchor: TextAnchor::End },
            )
        },
        Option::None => Option::None,
    };

    let bottom: i64 = if author_block.is_some() {
        author_y + 21 + p0
    } else {
        qy + qh + p0
    };

    let balance_block: Option<TextBlock> = match balance {
        Option::Some(bal) => {
            let besc = escape_markup(bal);
            proof {
                lemma_escape_len(bal@);
                lemma_lines_bounds(besc@);
            }
            let blines = split_lines(besc.as_str());
            proof {
                lemma_max_line_len_bound(
                    blines@.map_values(|l: String| l@),
                    6 * bal@.len() as int,
                );
            }
            let bmax = longest_line(&blines);
            let bx: i64 = qre - (bmax as i64) * 12;
            Option::Some(
                TextBlock { lines: blines, font_size: 20, x: bx, y: bottom, anchor: TextAnchor::Start },
            )
        },
        Option::None => Option::None,
    };

    TextLayout { padding_levels: levels, quote, author: author_block, balance: balance_block }
}

/// The view of an optional string.
pub open spec fn opt_view(o: Option<&str>) -> Option<Seq<char>> {
    match o {
        Option::Some(s) => Option::Some(s@),
        Option::None => Option::None,
    }
}

/// One line of a text element in the markup.
pub open spec fn tspan_of(x: int, first: bool, line: Seq<char>) -> Seq<char> {
    "<tspan x=\""@ + crate::strutil::int_str(x) + "\" dy=\""@ + (if first {
        "0"@
    } else {
        "1.2em"@
    }) + "\">"@ + line + "</tspan>"@
}

/// The first `n` lines as markup, separated by a line break and the
/// continuation indent.
pub open spec fn tspans_upto(x: int, lines: Seq<Seq<char>>, n: int) -> Seq<char>
    decreases n,
{
    if n <= 0 {
        Seq::empty()
    } else if n == 1 {
        tspan_of(x, true, lines[0])
    } else {
        tspans_upto(x, lines, n - 1) + "\n      "@ + tspan_of(x, false, lines[n - 1])
    }
}

/// The author line's markup element.
pub open spec fn author_element_of(x: int, y: int, author: Seq<char>) -> Seq<char> {
    "<text class=\"author\" x=\""@ + crate::strutil::int_str(x) + "\" y=\""@
        + crate::strutil::int_str(y) + "\">"@ + "\u{a9} "@ + escape_seq(author) + "</text>"@
}

/// The balance block's markup element.
pub open spec fn balance_element_of(x: int, y: int, blines: Seq<Seq<char>>) -> Seq<char> {
    "<text class=\"balance\" x=\""@ + crate::strutil::int_str(x) + "\" y=\""@
        + crate::strutil::int_str(y) + "\">\n      "@ + tspans_upto(x, blines, blines.len() as int)
        + "\n  </text>"@
}

/// The whole markup document: prolog, style sheet, and the three text
/// elements placed by the layout.
pub open spec fn text_svg_of(
    text: Seq<char>,
    author: Option<Seq<char>>,
    balance: Option<Seq<char>>,
    w: int,
    h: int,
    sa: SafeArea,
    p: int,
) -> Seq<char> {
    let qlines = quote_lines_of(text);
    let qx = quote_x_of(text, sa, p);
    let qy = quote_y_of(sa, p);
    let a_el = match author {
        Option::Some(a) => author_element_of(right_edge_of(sa, p), author_y_of(text, sa, p), a),
        Option::None => Seq::<char>::empty(),
    };
    let b_el = match balance {
        Option::Some(b) => balance_element_of(
            balance_x_of(b, sa, p),
            group_bottom_of(text, author is Some, sa, p),
            balance_lines_of(b),
        ),
        Option::None => Seq::<char>::empty(),
    };
    "<?xml version=\"1.0\" encoding=\"UTF-8\"?>\n<svg width=\""@ + crate::strutil::dec_str(w)
        + "\" height=\""@ + crate::strutil::dec_str(h)
        + "\" xmlns=\"http://www.w3.org/2000/svg\">\n  <defs>\n    <style>\n      .quote {\n        font-family: 'DejaVu Sans Mono';\n        font-size: 28px;\n        fill: white;\n        text-anchor: start;\n      }\n      .author {\n        font-family: 'DejaVu Sans Mono';\n        font-size: 21px;\n        fill: white;\n        text-anchor: end;\n      }\n      .balance {\n        font-family: 'DejaVu Sans Mono';\n        font-size: 20px;\n        fill: white;\n        text-anchor: start;\n      }\n    </style>\n  </defs>\n  <text class=\"quote\" x=\""@
        + crate::strutil::int_str(qx) + "\" y=\""@ + crate::strutil::int_str(qy) + "\">\n      "@
        + tspans_upto(qx, qlines, qlines.len() as int) + "\n  </text>\n  "@ + a_el + "\n  "@ + b_el
        + "\n</svg>"@
}

/// Measurement bounds that keep every coordinate far inside `i64`.
proof fn lemma_measure_bounds(text: Seq<char>)
    requires
        text.len() <= 0x7FFF_FFFF,
    ensures
        0 <= max_line_len(quote_lines_of(text)) <= 6 * 0x7FFF_FFFF,
        1 <= quote_lines_of(text).len() <= 6 * 0x7FFF_FFFF,
        0 <= max_line_len(balance_lines_of(text)) <= 6 * 0x7FFF_FFFF,
        balance_lines_of(text).len() <= 6 * 0x7FFF_FFFF,
{
    lemma_escape_len(text);
    let esc = escape_seq(text);
    lemma_lines_bounds(esc);
    if esc.len() == 0 {
        let sle = seq![Seq::<char>::empty()];
        assert(quote_lines_of(text) == sle);
        assert(sle.drop_last() =~= Seq::<Seq<char>>::empty());
        assert(max_line_len(Seq::<Seq<char>>::empty()) == 0);
        assert(sle.last() == Seq::<char>::empty());
        assert(max_line_len(sle) == 0);
        lemma_max_line_len_bound(balance_lines_of(text), 6 * 0x7FFF_FFFFint);
    } else {
        lemma_max_line_len_bound(quote_lines_of(text), 6 * 0x7FFF_FFFFint);
        lemma_max_line_len_bound(balance_lines_of(text), 6 * 0x7FFF_FFFFint);
    }
}

/// Builds one markup line.
fn tspan_string(x: i64, first: bool, line: &str) -> (r: String)
    requires
        x > i64::MIN,
    ensures
        r@ == tspan_of(x as int, first, line@),
{
    let mut out = String::from_str("<tspan x=\"");
    out.append(crate::strutil::i64_to_string(x).as_str());
    out.append("\" dy=\"");
    if first {
        out.append("0");
    } else {
        out.append("1.2em");
    }
    out.append("\">");
    out.append(line);
    out.append("</tspan>");
    out
}

/// Builds the markup for a block's lines.
fn tspans_string(x: i64, lines: &Vec<String>) -> (r: String)
    requires
        x > i64::MIN,
    ensures
        r@ == tspans_upto(
            x as int,
            lines@.map_values(|l: String| l@),
            lines@.len() as int,
        ),
{
    let ghost views = lines@.map_values(|l: String| l@);
    let mut out = String::new();
    let n = lines.len();
    let mut i: usize = 0;
    while i < n
        invariant
            x > i64::MIN,
            n == lines@.len(),
            views == lines@.map_values(|l: String| l@),
            0 <= i <= n,
            out@ == tspans_upto(x as int, views, i as int),
        decreases n - i,
    {
        proof {
            assert(views[i as int] == lines@[i as int]@);
        }
        if i == 0 {
            out = tspan_string(x, true, lines[0].as_str());
        } else {
            out.append("\n      ");
            out.append(tspan_string(x, false, lines[i].as_str()).as_str());
        }
        i = i + 1;
    }
    out
}

/// Builds the author element.
fn author_element(x: i64, y: i64, author: &str) -> (r: String)
    requires
        x > i64::MIN,
        y > i64::MIN,
    ensures
        r@ == author_element_of(x as int, y as int, author@),
{
    let mut out = String::from_str("<text class=\"author\" x=\"");
    out.append(crate::strutil::i64_to_string(x).as_str());
    out.append("\" y=\"");
    out.append(crate::strutil::i64_to_string(y).as_str());
    out.append("\">");
    out.append("\u{a9} ");
    out.append(escape_markup(author).as_str());
    out.append("</text>");
    out
}

/// Builds the balance element.
fn balance_element(x: i64, y: i64, lines: &Vec<String>) -> (r: String)
    requires
        x > i64::MIN,
        y > i64::MIN,
    ensures
        r@ == balance_element_of(x as int, y as int, lines@.map_values(|l: String| l@)),
{
    let mut out = String::from_str("<text class=\"balance\" x=\"");
    out.append(crate::strutil::i64_to_string(x).as_str());
    out.append("\" y=\"");
    out.append(crate::strutil::i64_to_string(y).as_str());
    out.append("\">\n      ");
    out.append(tspans_string(x, lines).as_str());
    out.append("\n  </text>");
    out
}

/// Produces the vector markup the rasterizer draws: the quote, the optional
/// author line and the optional balance block, laid out against the safe
/// area.
pub fn generate_text_svg(
    text: &str,
    author: Option<&str>,
    balance: Option<&str>,
    width: u32,
    height: u32,
    safe_area: &SafeArea,
    text_padding: u32,
) -> (r: String)
    requires
        text@.len() <= MAX_TEXT_LEN,
        author matches Option::Some(a) ==> a@.len() <= MAX_TEXT_LEN,
        balance matches Option::Some(b) ==> b@.len() <= MAX_TEXT_LEN,
    ensures
        r@ == text_svg_of(
            text@,
            opt_view(author),
            opt_view(balance),
            width as int,
            height as int,
            *safe_area,
            text_padding as int,
        ),
{
    let layout = layout_text(text, author, balance, safe_area, text_padding);
    proof {
        lemma_measure_bounds(text@);
        if let Option::Some(b) = balance {
            lemma_measure_bounds(b@);
        }
    }
    let mut out = String::from_str("<?xml version=\"1.0\" encoding=\"UTF-8\"?>\n<svg width=\"");
    out.append(crate::strutil::u64_to_string(width as u64).as_str());
    out.append("\" height=\"");
    out.append(crate::strutil::u64_to_string(height as u64).as_str());
    out.append(
        "\" xmlns=\"http://www.w3.org/2000/svg\">\n  <defs>\n    <style>\n      .quote {\n        font-family: 'DejaVu Sans Mono';\n        font-size: 28px;\n        fill: white;\n        text-anchor: start;\n      }\n      .author {\n        font-family: 'DejaVu Sans Mono';\n        font-size: 21px;\n        fill: white;\n        text-anchor: end;\n      }\n      .balance {\n        font-family: 'DejaVu Sans Mono';\n        font-size: 20px;\n        fill: white;\n        text-anchor: start;\n      }\n    </style>\n  </defs>\n  <text class=\"quote\" x=\"",
    );
    out.append(crate::strutil::i64_to_string(layout.quote.x).as_str());
    out.append("\" y=\"");
    out.append(crate::strutil::i64_to_string(layout.quote.y).as_str());
    out.append("\">\n      ");
    out.append(tspans_string(layout.quote.x, &layout.quote.lines).as_str());
    out.append("\n  </text>\n  ");
    match &layout.author {
        Option::Some(b) => {
            match author {
                Option::Some(a) => {
                    out.append(author_element(b.x, b.y, a).as_str());
                },
                Option::None => {
                    proof {
                        assert(false);
                    }
                },
            }
        },
        Option::None => {
            out.append("");
            proof {
                reveal_strlit("");
                assert(""@ =~= Seq::<char>::empty());
            }
        },
    }
    out.append("\n  ");
    match &layout.balance {
        Option::Some(b) => {
            out.append(balance_element(b.x, b.y, &b.lines).as_str());
        },
        Option::None => {
            out.append("");
            proof {
                reveal_strlit("");
                assert(""@ =~= Seq::<char>::empty());
            }
        },
    }
    out.append("\n</svg>");
    out
}

} // verus!
