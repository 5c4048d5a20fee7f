use wallpaper_carousel::geometry::SafeArea;
use wallpaper_carousel::layout::{
    escape_markup, generate_text_svg, layout_text, padding_levels, split_lines, TextAnchor,
};

#[test]
fn padding_levels_halve() {
    assert_eq!(padding_levels(16), vec![16, 8, 4, 2, 1]);
    assert_eq!(padding_levels(15), vec![15, 7, 3, 1, 0]);
    assert_eq!(padding_levels(0), vec![0, 0, 0, 0, 0]);
}

#[test]
fn escaping_special_characters() {
    assert_eq!(escape_markup("a&b<c>d\"e'f"), "a&amp;b&lt;c&gt;d&quot;e&apos;f");
    assert_eq!(escape_markup("plain"), "plain");
    assert_eq!(escape_markup(""), "");
    assert_eq!(escape_markup("&&"), "&amp;&amp;");
}

#[test]
fn line_splitting() {
    assert_eq!(split_lines("a\nb\nc"), vec!["a", "b", "c"]);
    assert_eq!(split_lines("one"), vec!["one"]);
    assert_eq!(split_lines("trail\n"), vec!["trail"]);
    assert_eq!(split_lines("win\r\ndows"), vec!["win", "dows"]);
    assert_eq!(split_lines(""), Vec::<String>::new());
    assert_eq!(split_lines("\n"), vec![""]);
    assert_eq!(split_lines("a\n\nb"), vec!["a", "", "b"]);
}

#[test]
fn example_scenario_hello_world_ada() {
    // Quote "Hello\nWorld", author "Ada", padding 16: the derived levels are
    // [16, 8, 4, 2, 1], and the author sits one gap of padding[1] below the
    // two 34-pixel quote lines.
    let sa = SafeArea { x: 0, y: 0, width: 1920, height: 1080 };
    let layout = layout_text("Hello\nWorld", Some("Ada"), None, &sa, 16);
    assert_eq!(layout.padding_levels, vec![16, 8, 4, 2, 1]);
    assert_eq!(layout.quote.lines, vec!["Hello", "World"]);
    assert_eq!(layout.quote.font_size, 28);
    assert_eq!(layout.quote.anchor, TextAnchor::Start);
    // Right edge 1904, longest line 5 chars at 16 px: x = 1904 - 80.
    assert_eq!(layout.quote.x, 1824);
    assert_eq!(layout.quote.y, 32);
    let author = layout.author.expect("author block");
    assert_eq!(author.y, layout.quote.y + 2 * 34 + layout.padding_levels[1] as i64);
    assert_eq!(author.y, 108);
    assert_eq!(author.x, 1904);
    assert_eq!(author.anchor, TextAnchor::End);
    assert_eq!(author.lines, vec!["\u{a9} Ada"]);
    assert!(layout.balance.is_none());
}

#[test]
fn empty_quote_still_lays_out_one_line() {
    let sa = SafeArea { x: 0, y: 0, width: 100, height: 100 };
    let layout = layout_text("", None, None, &sa, 4);
    assert_eq!(layout.quote.lines, vec![""]);
    // One (empty) line: right edge 96, width 0.
    assert_eq!(layout.quote.x, 96);
    assert_eq!(layout.quote.y, 8);
}

#[test]
fn degenerate_safe_area_does_not_crash() {
    let sa = SafeArea { x: 0, y: 0, width: 0, height: 0 };
    let layout = layout_text("Some quote", None, Some("bal"), &sa, 15);
    // The anchors fall left of the image; the layout still exists.
    assert!(layout.quote.x < 0);
    assert!(layout.balance.unwrap().x < 0);
}

#[test]
fn balance_sits_below_the_group() {
    let sa = SafeArea { x: 10, y: 20, width: 500, height: 400 };
    let layout = layout_text("A\nB", Some("X"), Some("1\n2"), &sa, 16);
    let author = layout.author.expect("author block");
    let balance = layout.balance.expect("balance block");
    assert_eq!(author.y, 128);
    assert_eq!(balance.y, author.y + 21 + 16);
    assert_eq!(balance.x, 494 - 12);
    assert_eq!(balance.font_size, 20);
    assert_eq!(balance.lines, vec!["1", "2"]);
}

const STYLE_BLOCK: &str = "  <defs>\n    <style>\n      .quote {\n        font-family: 'DejaVu Sans Mono';\n        font-size: 28px;\n        fill: white;\n        text-anchor: start;\n      }\n      .author {\n        font-family: 'DejaVu Sans Mono';\n        font-size: 21px;\n        fill: white;\n        text-anchor: end;\n      }\n      .balance {\n        font-family: 'DejaVu Sans Mono';\n        font-size: 20px;\n        fill: white;\n        text-anchor: start;\n      }\n    </style>\n  </defs>\n";

#[test]
fn svg_for_plain_quote() {
    let sa = SafeArea { x: 0, y: 0, width: 100, height: 50 };
    let svg = generate_text_svg("Hi", None, None, 100, 50, &sa, 0);
    let expected = format!(
        "<?xml version=\"1.0\" encoding=\"UTF-8\"?>\n<svg width=\"100\" height=\"50\" xmlns=\"http://www.w3.org/2000/svg\">\n{}  <text class=\"quote\" x=\"68\" y=\"0\">\n      <tspan x=\"68\" dy=\"0\">Hi</tspan>\n  </text>\n  \n  \n</svg>",
        STYLE_BLOCK
    );
    assert_eq!(svg, expected);
}

#[test]
fn svg_with_author_and_balance() {
    let sa = SafeArea { x: 10, y: 20, width: 500, height: 400 };
    let svg = generate_text_svg("A\nB", Some("X"), Some("1\n2"), 800, 600, &sa, 16);
    let expected = format!(
        "<?xml version=\"1.0\" encoding=\"UTF-8\"?>\n<svg width=\"800\" height=\"600\" xmlns=\"http://www.w3.org/2000/svg\">\n{}  <text class=\"quote\" x=\"478\" y=\"52\">\n      <tspan x=\"478\" dy=\"0\">A</tspan>\n      <tspan x=\"478\" dy=\"1.2em\">B</tspan>\n  </text>\n  <text class=\"author\" x=\"494\" y=\"128\">\u{a9} X</text>\n  <text class=\"balance\" x=\"482\" y=\"165\">\n      <tspan x=\"482\" dy=\"0\">1</tspan>\n      <tspan x=\"482\" dy=\"1.2em\">2</tspan>\n  </text>\n</svg>",
        STYLE_BLOCK
    );
    assert_eq!(svg, expected);
}

#[test]
fn svg_escapes_user_text() {
    let sa = SafeArea { x: 0, y: 0, width: 1000, height: 1000 };
    let svg = generate_text_svg("a<b", None, None, 1000, 1000, &sa, 0);
    assert!(svg.contains(">a&lt;b</tspan>"));
    assert!(!svg.contains(">a<b</tspan>"));
}
