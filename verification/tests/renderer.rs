//! Tests for the span renderer: exact markup output, line handling,
//! escaping, and canvas geometry.

use code_svg::escape::push_escaped;
use code_svg::svg_renderer::{HighlightEvent, SvgRenderer};

fn header(width: u64, height: u64, font_size: u64, css: &str) -> String {
    format!(
        "<svg viewBox=\"0 0 {} {}\" xmlns=\"http://www.w3.org/2000/svg\">\n    <style>\n        text {{\n          font-family: monospace;\n          font-size: {}px;\n          fill: #FFFFFF;\n        }}\n        {}\n    </style>\n    <rect width=\"100%\" height=\"100%\" class=\"background\" />\n",
        width, height, font_size, css,
    )
}

fn line_open(n: u64) -> String {
    format!(
        "<text y=\"{n}em\" class=\"meta separator\" xml:space=\"preserve\">{n:>3} </text><text x=\"48\" y=\"{n}em\" xml:space=\"preserve\">",
        n = n,
    )
}

#[test]
fn empty_source_renders_single_line_document() {
    let mut renderer = SvgRenderer::new("", Vec::new());
    let events: Vec<HighlightEvent> = Vec::new();
    renderer.render(&events, "body{}");
    // Longest line 0 plus the gutter width 4; font size 1024*5/(3*4);
    // height 1024*5*1/(3*4) + 10.
    let expected = format!("{}{}</text></svg>", header(1024, 436, 426, "body{}"), line_open(1));
    assert_eq!(renderer.get_svg().as_str(), expected.as_str());
    assert_eq!(renderer.get_picture_size(), (1024, 436));
}

#[test]
fn region_spanning_newline_is_suspended_and_resumed() {
    // One region wrapping the whole source "ab\ncd": each line's fragment
    // must sit in its own opening/closing tag pair inside its own text
    // container.
    let attrs = vec![String::from("class=\"keyword\"")];
    let mut renderer = SvgRenderer::new("ab\ncd", attrs);
    let events = vec![
        HighlightEvent::RegionStart(0),
        HighlightEvent::SourceSlice { start: 0, end: 5 },
        HighlightEvent::RegionEnd,
    ];
    renderer.render(&events, "");
    // Longest line 2 plus gutter 4 = 6; two lines.
    let expected = format!(
        "{}{}<tspan class=\"keyword\">ab</tspan></text>\n{}<tspan class=\"keyword\">cd</tspan></text></svg>",
        header(1024, 578, 284, ""),
        line_open(1),
        line_open(2),
    );
    assert_eq!(renderer.get_svg().as_str(), expected.as_str());
    assert_eq!(renderer.get_picture_size(), (1024, 578));
}

#[test]
fn nested_regions_reopen_in_stack_order() {
    let attrs = vec![String::from("class=\"a\""), String::from("class=\"b\"")];
    let mut renderer = SvgRenderer::new("xy\nz", attrs);
    let events = vec![
        HighlightEvent::RegionStart(0),
        HighlightEvent::SourceSlice { start: 0, end: 1 },
        HighlightEvent::RegionStart(1),
        HighlightEvent::SourceSlice { start: 1, end: 4 },
        HighlightEvent::RegionEnd,
        HighlightEvent::RegionEnd,
    ];
    renderer.render(&events, "");
    let expected = format!(
        "{}{}<tspan class=\"a\">x<tspan class=\"b\">y</tspan></tspan></text>\n{}<tspan class=\"a\"><tspan class=\"b\">z</tspan></tspan></text></svg>",
        header(1024, 578, 284, ""),
        line_open(1),
        line_open(2),
    );
    assert_eq!(renderer.get_svg().as_str(), expected.as_str());
}

#[test]
fn empty_attribute_omits_the_attribute() {
    let attrs = vec![String::new()];
    let mut renderer = SvgRenderer::new("q", attrs);
    let events = vec![
        HighlightEvent::RegionStart(0),
        HighlightEvent::SourceSlice { start: 0, end: 1 },
        HighlightEvent::RegionEnd,
    ];
    renderer.render(&events, "");
    assert!(renderer.get_svg().contains("<tspan>q</tspan>"));
    assert!(!renderer.get_svg().contains("<tspan >"));
}

#[test]
fn source_text_is_escaped() {
    let mut renderer = SvgRenderer::new("a<b&c>\"d'", Vec::new());
    let events = vec![HighlightEvent::SourceSlice { start: 0, end: 9 }];
    renderer.render(&events, "");
    assert!(renderer.get_svg().contains("a&lt;b&amp;c&gt;&quot;d&#x27;"));
}

#[test]
fn escaping_matches_the_reference_encoder() {
    let sample = "left<right & \"quoted\" 'single' plain\u{e9}";
    let mut mine = String::new();
    for c in sample.chars() {
        push_escaped(&mut mine, c);
    }
    assert_eq!(mine, htmlescape::encode_minimal(sample));
}

#[test]
fn gutter_numbers_are_right_aligned() {
    let source = "a\nb\nc\nd\ne\nf\ng\nh\ni\nj\nk";
    let mut renderer = SvgRenderer::new(source, Vec::new());
    let events = vec![HighlightEvent::SourceSlice { start: 0, end: source.len() }];
    renderer.render(&events, "");
    let svg = renderer.get_svg();
    assert!(svg.contains(">  1 </text>"));
    assert!(svg.contains(">  9 </text>"));
    assert!(svg.contains("> 10 </text>"));
    assert!(svg.contains("> 11 </text>"));
}

#[test]
fn canvas_height_grows_with_line_count() {
    // Same longest line, more lines: the height must not shrink, the width
    // stays the fixed target.
    let mut one = SvgRenderer::new("abcd", Vec::new());
    let mut three = SvgRenderer::new("abcd\nx\ny", Vec::new());
    one.render(&vec![HighlightEvent::SourceSlice { start: 0, end: 4 }], "");
    three.render(&vec![HighlightEvent::SourceSlice { start: 0, end: 8 }], "");
    let (w1, h1) = one.get_picture_size();
    let (w3, h3) = three.get_picture_size();
    assert_eq!(w1, 1024);
    assert_eq!(w3, 1024);
    assert!(h1 <= h3);
    // Exact values of the formula: width * 5 * lines / (3 * longest) + 10.
    assert_eq!(h1, 1024 * 5 / (3 * 8) + 10);
    assert_eq!(h3, 1024 * 5 * 3 / (3 * 8) + 10);
}

#[test]
fn slices_may_split_anywhere() {
    // The same text in one slice or many renders the same markup.
    let mut whole = SvgRenderer::new("one\ntwo", Vec::new());
    let mut pieces = SvgRenderer::new("one\ntwo", Vec::new());
    whole.render(&vec![HighlightEvent::SourceSlice { start: 0, end: 7 }], "");
    pieces.render(
        &vec![
            HighlightEvent::SourceSlice { start: 0, end: 2 },
            HighlightEvent::SourceSlice { start: 2, end: 5 },
            HighlightEvent::SourceSlice { start: 5, end: 7 },
        ],
        "",
    );
    assert_eq!(whole.get_svg(), pieces.get_svg());
}
