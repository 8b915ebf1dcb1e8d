//! The span renderer: consumes an ordered stream of highlight events over a
//! source text and produces SVG markup with nested region tags, per-line text
//! containers, a line-number gutter, and computed canvas dimensions.
//!
//! The markup is modelled as a sequence of [`Piece`]s — tags, escaped source
//! characters, and line boundaries — whose serialization is the emitted
//! string.  The contracts pin the output to that model, and the lemmas at the
//! end state the structural guarantees: tags stay balanced, they mirror the
//! open-region stack, and every line break closes all open tags before the
//! line's container and reopens them after it.

use crate::digits::{dec_digits, dec_string, dec_string_pad3, pad3};
use crate::escape::{escape_char, push_escaped};
use vstd::prelude::*;
use vstd::string::StringExecFns;

verus! {

/// Fixed target width of the rendered canvas, in pixels.
pub const PICTURE_WIDTH: u64 = 1024;

/// Font size the embedded style block declares for text elements.
pub const FONT_SIZE: u64 = 20;

/// Characters reserved ahead of each line for the line-number gutter.
pub const GUTTER_WIDTH: usize = 4;

/// Glyph width over glyph height of the monospace face, as a ratio of two
/// integers.  A visual-fidelity tuning constant, not a law.
pub const ASPECT_NUM: u64 = 3;

/// Denominator of the glyph aspect ratio.
pub const ASPECT_DEN: u64 = 5;

/// Pixels added below the last line so its descenders are not clipped.
pub const HEIGHT_MARGIN: u64 = 10;

/// Largest source length (in characters) the renderer accepts; keeps every
/// intermediate product inside the machine integer types.
pub const MAX_SOURCE_LEN: usize = 0x7FFF_FFFF;

/// One event of the highlighter's stream.  `RegionStart` opens a styled
/// region named by an index into the attribute list, `SourceSlice` emits the
/// source characters in `[start, end)`, and `RegionEnd` closes the most
/// recently opened region.
#[derive(Clone, Copy)]
pub enum HighlightEvent {
    RegionStart(usize),
    SourceSlice { start: usize, end: usize },
    RegionEnd,
}

/// One atom of the rendered markup, the unit the contracts speak of.
pub enum Piece {
    /// Opening tag of the region with attribute index `i`.
    Open(usize),
    /// Closing tag of the innermost open region.
    Close,
    /// One source character, emitted in escaped form.
    Ch(char),
    /// End of a line's text container.
    LineEnd,
    /// Gutter cell and text container of the line with this number.
    LineStart(int),
}

/// The renderer's abstract state while consuming the stream: the stack of
/// open region indices and the current line number.
pub struct RenderState {
    pub stack: Seq<usize>,
    pub line: int,
}

// ---------------------------------------------------------------------------
// Line metrics
// ---------------------------------------------------------------------------

/// Number of newline characters in `s`.
pub open spec fn count_newlines(s: Seq<char>) -> int
    decreases s.len(),
{
    if s.len() == 0 {
        0
    } else {
        (if s[0] == '\n' {
            1int
        } else {
            0int
        }) + count_newlines(s.drop_first())
    }
}

/// Length of the longest line of `s`, continuing a current line that already
/// holds `cur` characters.
pub open spec fn max_line_len_from(s: Seq<char>, cur: int) -> int
    decreases s.len(),
{
    if s.len() == 0 {
        cur
    } else if s[0] == '\n' {
        vstd::math::max(cur, max_line_len_from(s.drop_first(), 0))
    } else {
        max_line_len_from(s.drop_first(), cur + 1)
    }
}

/// Length in characters of the longest line of `s`.
pub open spec fn max_line_len(s: Seq<char>) -> int {
    max_line_len_from(s, 0)
}

/// Number of lines: one more than the number of separators, so the empty
/// source still counts one line.
pub open spec fn spec_line_count(src: Seq<char>) -> int {
    count_newlines(src) + 1
}

/// Longest line plus the fixed gutter width.
pub open spec fn spec_max_line_width(src: Seq<char>) -> int {
    max_line_len(src) + GUTTER_WIDTH
}

pub proof fn lemma_count_newlines_bounds(s: Seq<char>)
    ensures
        0 <= count_newlines(s) <= s.len(),
    decreases s.len(),
{
    if s.len() > 0 {
        lemma_count_newlines_bounds(s.drop_first());
    }
}

pub proof fn lemma_max_line_len_from_bounds(s: Seq<char>, cur: int)
    requires
        cur >= 0,
    ensures
        cur <= max_line_len_from(s, cur) <= cur + s.len(),
    decreases s.len(),
{
    if s.len() > 0 {
        if s[0] == '\n' {
            lemma_max_line_len_from_bounds(s.drop_first(), 0);
        } else {
            lemma_max_line_len_from_bounds(s.drop_first(), cur + 1);
        }
    }
}

// ---------------------------------------------------------------------------
// Serialization of markup pieces
// ---------------------------------------------------------------------------

/// The gutter cell and text container opening the line numbered `k`.
pub open spec fn line_start_chars(k: int) -> Seq<char> {
    "<text y=\""@ + dec_digits(k as nat) + "em\" class=\"meta separator\" xml:space=\"preserve\">"@
        + pad3(dec_digits(k as nat)) + " </text><text x=\"48\" y=\""@ + dec_digits(k as nat)
        + "em\" xml:space=\"preserve\">"@
}

/// An opening region tag; the attribute text is omitted entirely when empty.
pub open spec fn open_tag_chars(attr: Seq<char>) -> Seq<char> {
    "<tspan"@ + (if attr.len() == 0 {
        Seq::<char>::empty()
    } else {
        " "@ + attr
    }) + ">"@
}

/// The document header: canvas dimensions, the embedded style block with the
/// caller's stylesheet, and the background rectangle.
pub open spec fn header_chars(w: int, h: int, fs: int, css: Seq<char>) -> Seq<char> {
    "<svg viewBox=\"0 0 "@ + dec_digits(w as nat) + " "@ + dec_digits(h as nat)
        + "\" xmlns=\"http://www.w3.org/2000/svg\">\n    <style>\n        text {\n          font-family: monospace;\n          font-size: "@
        + dec_digits(fs as nat) + "px;\n          fill: #FFFFFF;\n        }\n        "@ + css
        + "\n    </style>\n    <rect width=\"100%\" height=\"100%\" class=\"background\" />\n"@
}

/// The text the document closes with.
pub open spec fn epilogue_chars() -> Seq<char> {
    "</text></svg>"@
}

/// The characters one piece stands for.  An `Open` whose index is out of the
/// attribute list renders with empty attribute text; well-formed streams
/// never produce one.
pub open spec fn serialize_piece(p: Piece, attrs: Seq<Seq<char>>) -> Seq<char> {
    match p {
        Piece::Open(i) => open_tag_chars(
            if i < attrs.len() {
                attrs[i as int]
            } else {
                Seq::empty()
            },
        ),
        Piece::Close => "</tspan>"@,
        Piece::Ch(c) => escape_char(c),
        Piece::LineEnd => "</text>\n"@,
        Piece::LineStart(k) => line_start_chars(k),
    }
}

/// The characters a sequence of pieces stands for, in order.
pub open spec fn serialize_pieces(ps: Seq<Piece>, attrs: Seq<Seq<char>>) -> Seq<char>
    decreases ps.len(),
{
    if ps.len() == 0 {
        Seq::empty()
    } else {
        serialize_piece(ps[0], attrs) + serialize_pieces(ps.drop_first(), attrs)
    }
}

pub proof fn lemma_serialize_concat(a: Seq<Piece>, b: Seq<Piece>, attrs: Seq<Seq<char>>)
    ensures
        serialize_pieces(a + b, attrs) == serialize_pieces(a, attrs) + serialize_pieces(b, attrs),
    decreases a.len(),
{
    if a.len() == 0 {
        assert(a + b =~= b);
        assert(serialize_pieces(a, attrs) + serialize_pieces(b, attrs) =~= serialize_pieces(
            b,
            attrs,
        ));
    } else {
        assert((a + b).drop_first() =~= a.drop_first() + b);
        lemma_serialize_concat(a.drop_first(), b, attrs);
        assert(serialize_pieces(a + b, attrs) =~= serialize_pieces(a, attrs) + serialize_pieces(
            b,
            attrs,
        ));
    }
}

pub proof fn lemma_serialize_singleton(p: Piece, attrs: Seq<Seq<char>>)
    ensures
        serialize_pieces(seq![p], attrs) == serialize_piece(p, attrs),
{
    assert(seq![p].drop_first() =~= Seq::<Piece>::empty());
    assert(serialize_pieces(seq![p].drop_first(), attrs) == Seq::<char>::empty());
    assert(serialize_piece(p, attrs) + Seq::<char>::empty() =~= serialize_piece(p, attrs));
}

pub proof fn lemma_serialize_snoc(a: Seq<Piece>, p: Piece, attrs: Seq<Seq<char>>)
    ensures
        serialize_pieces(a.push(p), attrs) == serialize_pieces(a, attrs) + serialize_piece(
            p,
            attrs,
        ),
{
    assert(a.push(p) =~= a + seq![p]);
    lemma_serialize_concat(a, seq![p], attrs);
    lemma_serialize_singleton(p, attrs);
}

// ---------------------------------------------------------------------------
// The stream model: which pieces each event contributes
// ---------------------------------------------------------------------------

/// `n` closing tags.
pub open spec fn closes(n: nat) -> Seq<Piece> {
    Seq::new(n, |i: int| Piece::Close)
}

/// Opening tags for every region on `stack`, outermost first.
pub open spec fn opens(stack: Seq<usize>) -> Seq<Piece> {
    Seq::new(stack.len(), |i: int| Piece::Open(stack[i]))
}

/// The piece one plain source character contributes.
pub open spec fn ch_piece(c: char) -> Piece {
    Piece::Ch(c)
}

/// The pieces a source slice contributes: each character escaped, and each
/// newline replaced by the suspend-and-resume group — all open tags closed
/// innermost first, the line's container closed, the next line's gutter and
/// container opened, and a tag reopened for every region still on the stack,
/// outermost first.  The stack itself is left untouched.
pub open spec fn slice_pieces(chars: Seq<char>, stack: Seq<usize>, line: int) -> Seq<Piece>
    decreases chars.len(),
{
    if chars.len() == 0 {
        Seq::empty()
    } else if chars[0] == '\n' {
        closes(stack.len()) + seq![Piece::LineEnd, Piece::LineStart(line + 1)] + opens(stack)
            + slice_pieces(chars.drop_first(), stack, line + 1)
    } else {
        seq![ch_piece(chars[0])] + slice_pieces(chars.drop_first(), stack, line)
    }
}

/// The pieces one event contributes, given the open regions and current line.
pub open spec fn event_pieces(e: HighlightEvent, src: Seq<char>, st: RenderState) -> Seq<Piece> {
    match e {
        HighlightEvent::RegionStart(i) => seq![Piece::Open(i)],
        HighlightEvent::SourceSlice { start, end } => slice_pieces(
            src.subrange(start as int, end as int),
            st.stack,
            st.line,
        ),
        HighlightEvent::RegionEnd => seq![Piece::Close],
    }
}

/// How one event changes the abstract state.
pub open spec fn event_state(e: HighlightEvent, src: Seq<char>, st: RenderState) -> RenderState {
    match e {
        HighlightEvent::RegionStart(i) => RenderState { stack: st.stack.push(i), line: st.line },
        HighlightEvent::SourceSlice { start, end } => RenderState {
            stack: st.stack,
            line: st.line + count_newlines(src.subrange(start as int, end as int)),
        },
        HighlightEvent::RegionEnd => RenderState { stack: st.stack.drop_last(), line: st.line },
    }
}

/// The pieces a whole stream contributes, consumed left to right.
pub open spec fn stream_pieces(events: Seq<HighlightEvent>, src: Seq<char>, st: RenderState) -> Seq<
    Piece,
>
    decreases events.len(),
{
    if events.len() == 0 {
        Seq::empty()
    } else {
        event_pieces(events[0], src, st) + stream_pieces(
            events.drop_first(),
            src,
            event_state(events[0], src, st),
        )
    }
}

/// The abstract state after a whole stream.
pub open spec fn stream_state(
    events: Seq<HighlightEvent>,
    src: Seq<char>,
    st: RenderState,
) -> RenderState
    decreases events.len(),
{
    if events.len() == 0 {
        st
    } else {
        stream_state(events.drop_first(), src, event_state(events[0], src, st))
    }
}

/// The state a render call starts from: nothing open, on line one.
pub open spec fn init_state() -> RenderState {
    RenderState { stack: Seq::empty(), line: 1 }
}

/// How one event changes the nesting depth.
pub open spec fn event_depth_delta(e: HighlightEvent) -> int {
    match e {
        HighlightEvent::RegionStart(_) => 1,
        HighlightEvent::SourceSlice { .. } => 0,
        HighlightEvent::RegionEnd => -1,
    }
}

/// One event is legal at nesting depth `depth`: region indices point into
/// the attribute list, slices lie inside the source, and a region is only
/// closed while one is open.
pub open spec fn event_ok(e: HighlightEvent, src_len: int, n_attrs: int, depth: int) -> bool {
    match e {
        HighlightEvent::RegionStart(i) => i < n_attrs,
        HighlightEvent::SourceSlice { start, end } => start <= end <= src_len,
        HighlightEvent::RegionEnd => depth > 0,
    }
}

/// Every event of the stream is legal at the depth it is consumed at.
pub open spec fn events_wf_from(
    events: Seq<HighlightEvent>,
    src_len: int,
    n_attrs: int,
    depth: int,
) -> bool
    decreases events.len(),
{
    events.len() == 0 || (event_ok(events[0], src_len, n_attrs, depth) && events_wf_from(
        events.drop_first(),
        src_len,
        n_attrs,
        depth + event_depth_delta(events[0]),
    ))
}

/// A well-formed stream: every event legal, starting from depth zero.
pub open spec fn events_wf(events: Seq<HighlightEvent>, src_len: int, n_attrs: int) -> bool {
    events_wf_from(events, src_len, n_attrs, 0)
}

/// Every region that is opened is closed again by the end of the stream.
pub open spec fn events_balanced(events: Seq<HighlightEvent>, src: Seq<char>) -> bool {
    stream_state(events, src, init_state()).stack.len() == 0
}

/// The source text the stream's slices spell out, in order.
pub open spec fn slices_text(events: Seq<HighlightEvent>, src: Seq<char>) -> Seq<char>
    decreases events.len(),
{
    if events.len() == 0 {
        Seq::empty()
    } else {
        (match events[0] {
            HighlightEvent::SourceSlice { start, end } => src.subrange(start as int, end as int),
            _ => Seq::empty(),
        }) + slices_text(events.drop_first(), src)
    }
}

/// The slices of the stream cover the source exactly: concatenated in order
/// they reconstruct it, with no gaps and no overlaps.
pub open spec fn events_cover(events: Seq<HighlightEvent>, src: Seq<char>) -> bool {
    slices_text(events, src) == src
}

pub proof fn lemma_stream_snoc(
    events: Seq<HighlightEvent>,
    e: HighlightEvent,
    src: Seq<char>,
    st: RenderState,
)
    ensures
        stream_pieces(events.push(e), src, st) == stream_pieces(events, src, st) + event_pieces(
            e,
            src,
            stream_state(events, src, st),
        ),
        stream_state(events.push(e), src, st) == event_state(
            e,
            src,
            stream_state(events, src, st),
        ),
    decreases events.len(),
{
    if events.len() == 0 {
        assert(events.push(e)[0] == e);
        assert(events.push(e).drop_first() =~= Seq::<HighlightEvent>::empty());
        assert(stream_pieces(Seq::<HighlightEvent>::empty(), src, event_state(e, src, st))
            == Seq::<Piece>::empty());
        assert(stream_state(Seq::<HighlightEvent>::empty(), src, event_state(e, src, st))
            == event_state(e, src, st));
        assert(stream_pieces(events.push(e), src, st) =~= stream_pieces(events, src, st)
            + event_pieces(e, src, stream_state(events, src, st)));
    } else {
        assert(events.push(e)[0] == events[0]);
        assert(events.push(e).drop_first() =~= events.drop_first().push(e));
        lemma_stream_snoc(events.drop_first(), e, src, event_state(events[0], src, st));
        assert(stream_pieces(events.push(e), src, st) =~= stream_pieces(events, src, st)
            + event_pieces(e, src, stream_state(events, src, st)));
    }
}

/// The source text one event contributes to the reconstruction.
pub open spec fn event_text(e: HighlightEvent, src: Seq<char>) -> Seq<char> {
    match e {
        HighlightEvent::SourceSlice { start, end } => src.subrange(start as int, end as int),
        _ => Seq::empty(),
    }
}

pub proof fn lemma_slices_text_snoc(events: Seq<HighlightEvent>, e: HighlightEvent, src: Seq<char>)
    ensures
        slices_text(events.push(e), src) == slices_text(events, src) + event_text(e, src),
    decreases events.len(),
{
    if events.len() == 0 {
        assert(events.push(e)[0] == e);
        assert(events.push(e).drop_first() =~= Seq::<HighlightEvent>::empty());
        assert(slices_text(Seq::<HighlightEvent>::empty(), src) == Seq::<char>::empty());
        assert(slices_text(events.push(e), src) =~= slices_text(events, src) + event_text(e, src));
    } else {
        assert(events.push(e)[0] == events[0]);
        assert(events.push(e).drop_first() =~= events.drop_first().push(e));
        lemma_slices_text_snoc(events.drop_first(), e, src);
        assert(slices_text(events.push(e), src) =~= slices_text(events, src) + event_text(e, src));
    }
}

pub proof fn lemma_count_newlines_concat(a: Seq<char>, b: Seq<char>)
    ensures
        count_newlines(a + b) == count_newlines(a) + count_newlines(b),
    decreases a.len(),
{
    if a.len() == 0 {
        assert(a + b =~= b);
    } else {
        assert((a + b).drop_first() =~= a.drop_first() + b);
        lemma_count_newlines_concat(a.drop_first(), b);
    }
}

/// The font size the header declares, derived so that `mlw` glyphs of the
/// configured aspect ratio fill the picture width.
pub open spec fn spec_font_px(pw: int, mlw: int) -> int {
    pw * ASPECT_DEN / (ASPECT_NUM * mlw)
}

/// The canvas height: scales with the line count over the longest line so
/// that glyph proportions are preserved, plus a fixed margin for the last
/// line's descenders.
pub open spec fn spec_canvas_height(pw: int, lc: int, mlw: int) -> int {
    pw * ASPECT_DEN * lc / (ASPECT_NUM * mlw) + HEIGHT_MARGIN
}

/// The entire rendered document for a source text, attribute list,
/// stylesheet and event stream: header, first line's gutter and container,
/// the serialized stream pieces, and the closing text.
pub open spec fn spec_document(
    src: Seq<char>,
    attrs: Seq<Seq<char>>,
    css: Seq<char>,
    events: Seq<HighlightEvent>,
) -> Seq<char> {
    header_chars(
        PICTURE_WIDTH as int,
        spec_canvas_height(PICTURE_WIDTH as int, spec_line_count(src), spec_max_line_width(src)),
        spec_font_px(PICTURE_WIDTH as int, spec_max_line_width(src)),
        css,
    ) + line_start_chars(1) + serialize_pieces(stream_pieces(events, src, init_state()), attrs)
        + epilogue_chars()
}

/// The setup a renderer is built with: everything but the markup buffer, the
/// open-region stack and the line counter.
pub open spec fn same_setup(a: SvgRenderer, b: SvgRenderer) -> bool {
    &&& a.source == b.source
    &&& a.attrs == b.attrs
    &&& a.max_line_width == b.max_line_width
    &&& a.line_count == b.line_count
    &&& a.picture_width == b.picture_width
    &&& a.font_size == b.font_size
    &&& a.number_column_width == b.number_column_width
}

// ---------------------------------------------------------------------------
// The renderer
// ---------------------------------------------------------------------------

/// Renders a highlight-event stream over a source text into SVG markup.
pub struct SvgRenderer {
    /// The markup accumulated so far.
    pub svg: String,
    /// The source text, one entry per character.
    pub source: Vec<char>,
    /// Indices of the currently open regions, innermost last.
    pub hl_stack: Vec<usize>,
    /// Markup attribute text per region index, as supplied by the caller.
    pub attrs: Vec<String>,
    /// Number of the line currently being emitted; zero before the prologue.
    pub current_line: usize,
    /// Longest source line plus the gutter width.
    pub max_line_width: usize,
    /// Number of source lines.
    pub line_count: usize,
    /// Target canvas width in pixels.
    pub picture_width: u64,
    /// Declared font size of the embedded style block.
    pub font_size: u64,
    /// Characters reserved for the line-number gutter.
    pub number_column_width: usize,
}

impl SvgRenderer {
    /// The attribute list as a sequence of character sequences.
    pub open spec fn attrs_view(&self) -> Seq<Seq<char>> {
        self.attrs.deep_view()
    }

    /// Geometry and configuration are consistent with the source text.
    pub open spec fn wf(&self) -> bool {
        &&& self.picture_width == PICTURE_WIDTH
        &&& self.font_size == FONT_SIZE
        &&& self.number_column_width == GUTTER_WIDTH
        &&& self.source@.len() <= MAX_SOURCE_LEN
        &&& self.max_line_width == spec_max_line_width(self.source@)
        &&& self.line_count == spec_line_count(self.source@)
    }

    /// No markup emitted yet, no region open, line counter not started.
    pub open spec fn fresh(&self) -> bool {
        &&& self.svg@.len() == 0
        &&& self.hl_stack@.len() == 0
        &&& self.current_line == 0
    }

    /// Every open region's index points into the attribute list.
    pub open spec fn stack_in_bounds(&self) -> bool {
        forall|j: int| 0 <= j < self.hl_stack@.len() ==> self.hl_stack@[j] < self.attrs@.len()
    }

    /// Builds a renderer over `source`, styled through `attrs`: region index
    /// `i` is rendered with attribute text `attrs[i]`.  Computes the line
    /// metrics that the canvas dimensions are derived from.
    pub fn new(source: &str, attrs: Vec<String>) -> (r: SvgRenderer)
        requires
            source@.len() <= MAX_SOURCE_LEN,
        ensures
            r.wf(),
            r.fresh(),
            r.source@ == source@,
            r.attrs == attrs,
    {
        let n = source.unicode_len();
        let mut chars: Vec<char> = Vec::new();
        let mut i: usize = 0;
        while i < n
            invariant
                n == source@.len(),
                i <= n,
                chars@ =~= source@.take(i as int),
            decreases n - i,
        {
            chars.push(source.get_char(i));
            i = i + 1;
            proof {
                assert(chars@ =~= source@.take(i as int));
            }
        }
        proof {
            assert(chars@ =~= source@);
        }
        let mut result = SvgRenderer {
            svg: String::new(),
            source: chars,
            hl_stack: Vec::new(),
            attrs,
            current_line: 0,
            max_line_width: 0,
            line_count: 0,
            picture_width: PICTURE_WIDTH,
            font_size: FONT_SIZE,
            number_column_width: GUTTER_WIDTH,
        };
        result.calculate_max_line_width();
        result
    }

    /// One pass over the source computing the longest line (plus gutter) and
    /// the line count.
    fn calculate_max_line_width(&mut self)
        requires
            old(self).source@.len() <= MAX_SOURCE_LEN,
            old(self).number_column_width == GUTTER_WIDTH,
        ensures
            final(self).max_line_width == spec_max_line_width(old(self).source@),
            final(self).line_count == spec_line_count(old(self).source@),
            final(self).source == old(self).source,
            final(self).svg == old(self).svg,
            final(self).hl_stack == old(self).hl_stack,
            final(self).attrs == old(self).attrs,
            final(self).current_line == old(self).current_line,
            final(self).picture_width == old(self).picture_width,
            final(self).font_size == old(self).font_size,
            final(self).number_column_width == old(self).number_column_width,
    {
        let ghost src = self.source@;
        let n = self.source.len();
        let mut best: usize = 0;
        let mut cur: usize = 0;
        let mut newlines: usize = 0;
        let mut i: usize = 0;
        proof {
            lemma_max_line_len_from_bounds(src, 0);
            lemma_count_newlines_bounds(src);
            assert(src.skip(0) =~= src);
        }
        while i < n
            invariant
                n == src.len(),
                src.len() <= MAX_SOURCE_LEN,
                self.source@ == src,
                i <= n,
                0 <= cur <= i,
                0 <= best <= i,
                0 <= newlines <= i,
                vstd::math::max(best as int, max_line_len_from(src.skip(i as int), cur as int))
                    == max_line_len(src),
                newlines + count_newlines(src.skip(i as int)) == count_newlines(src),
            decreases n - i,
        {
            proof {
                assert(src.skip(i as int).drop_first() =~= src.skip(i + 1));
                assert(src.skip(i as int)[0] == src[i as int]);
                lemma_max_line_len_from_bounds(src.skip(i + 1), 0);
            }
            let c = self.source[i];
            if c == '\n' {
                if cur > best {
                    best = cur;
                }
                cur = 0;
                newlines = newlines + 1;
            } else {
                cur = cur + 1;
            }
            i = i + 1;
        }
        proof {
            assert(src.skip(n as int) =~= Seq::<char>::empty());
        }
        let width = if cur > best {
            cur
        } else {
            best
        };
        self.max_line_width = width + self.number_column_width;
        self.line_count = newlines + 1;
    }

    /// The markup accumulated so far.
    pub fn get_svg(&self) -> (r: &String)
        ensures
            r@ == self.svg@,
    {
        &self.svg
    }

    /// The canvas dimensions the rasterizer should use: the fixed picture
    /// width, and a height proportional to the line count over the longest
    /// line, plus the descender margin.
    pub fn get_picture_size(&self) -> (r: (u64, u64))
        requires
            self.wf(),
        ensures
            r.0 == self.picture_width,
            r.1 == spec_canvas_height(
                self.picture_width as int,
                self.line_count as int,
                self.max_line_width as int,
            ),
    {
        proof {
            lemma_max_line_len_from_bounds(self.source@, 0);
            lemma_count_newlines_bounds(self.source@);
        }
        let h = self.picture_width * ASPECT_DEN * (self.line_count as u64) / (ASPECT_NUM
            * (self.max_line_width as u64)) + HEIGHT_MARGIN;
        (self.picture_width, h)
    }

    /// Emits the opening tag of the region with attribute index `i`; the
    /// attribute text is omitted entirely when empty.
    fn new_tspan(&mut self, i: usize)
        requires
            i < old(self).attrs@.len(),
        ensures
            same_setup(*old(self), *final(self)),
            final(self).hl_stack == old(self).hl_stack,
            final(self).current_line == old(self).current_line,
            final(self).svg@ == old(self).svg@ + serialize_piece(
                Piece::Open(i),
                old(self).attrs_view(),
            ),
    {
        self.svg.append("<tspan");
        if !self.attrs[i].as_str().is_empty() {
            self.svg.append(" ");
            self.svg.append(self.attrs[i].as_str());
        }
        self.svg.append(">");
        proof {
            assert(self.attrs_view()[i as int] == self.attrs@[i as int]@);
            assert(self.svg@ =~= old(self).svg@ + serialize_piece(
                Piece::Open(i),
                old(self).attrs_view(),
            ));
        }
    }

    /// Opens a region: pushes its index and emits its tag.
    fn start_highlight(&mut self, hl: usize)
        requires
            hl < old(self).attrs@.len(),
        ensures
            same_setup(*old(self), *final(self)),
            final(self).hl_stack@ == old(self).hl_stack@.push(hl),
            final(self).current_line == old(self).current_line,
            final(self).svg@ == old(self).svg@ + serialize_piece(
                Piece::Open(hl),
                old(self).attrs_view(),
            ),
    {
        self.hl_stack.push(hl);
        self.new_tspan(hl);
    }

    /// Closes the innermost open region: emits its closing tag and pops it.
    fn end_highlight(&mut self)
        requires
            old(self).hl_stack@.len() > 0,
        ensures
            same_setup(*old(self), *final(self)),
            final(self).hl_stack@ == old(self).hl_stack@.drop_last(),
            final(self).current_line == old(self).current_line,
            final(self).svg@ == old(self).svg@ + serialize_piece(
                Piece::Close,
                old(self).attrs_view(),
            ),
    {
        self.svg.append("</tspan>");
        self.hl_stack.pop();
    }

    /// Starts the next line: a gutter cell with the right-aligned line
    /// number, then the line's text container.
    fn new_text(&mut self)
        requires
            old(self).current_line < usize::MAX,
        ensures
            same_setup(*old(self), *final(self)),
            final(self).hl_stack == old(self).hl_stack,
            final(self).current_line == old(self).current_line + 1,
            final(self).svg@ == old(self).svg@ + line_start_chars(old(self).current_line + 1),
    {
        self.current_line = self.current_line + 1;
        let line_str = dec_string(self.current_line as u64);
        let padded = dec_string_pad3(self.current_line as u64);
        self.svg.append("<text y=\"");
        self.svg.append(line_str.as_str());
        self.svg.append("em\" class=\"meta separator\" xml:space=\"preserve\">");
        self.svg.append(padded.as_str());
        self.svg.append(" </text><text x=\"48\" y=\"");
        self.svg.append(line_str.as_str());
        self.svg.append("em\" xml:space=\"preserve\">");
        proof {
            assert(self.svg@ =~= old(self).svg@ + line_start_chars(old(self).current_line + 1));
        }
    }

    /// Emits the document header — canvas dimensions, style block with the
    /// caller's stylesheet, background — and opens the first line.
    fn prologue(&mut self, stylesheet: &str)
        requires
            old(self).wf(),
            old(self).current_line == 0,
        ensures
            same_setup(*old(self), *final(self)),
            final(self).hl_stack == old(self).hl_stack,
            final(self).current_line == 1,
            final(self).svg@ == old(self).svg@ + header_chars(
                old(self).picture_width as int,
                spec_canvas_height(
                    old(self).picture_width as int,
                    old(self).line_count as int,
                    old(self).max_line_width as int,
                ),
                spec_font_px(old(self).picture_width as int, old(self).max_line_width as int),
                stylesheet@,
            ) + line_start_chars(1),
    {
        proof {
            lemma_max_line_len_from_bounds(self.source@, 0);
        }
        let font_size = self.picture_width * ASPECT_DEN / (ASPECT_NUM
            * (self.max_line_width as u64));
        let (width, height) = self.get_picture_size();
        let width_str = dec_string(width);
        let height_str = dec_string(height);
        let font_size_str = dec_string(font_size);
        self.svg.append("<svg viewBox=\"0 0 ");
        self.svg.append(width_str.as_str());
        self.svg.append(" ");
        self.svg.append(height_str.as_str());
        self.svg.append(
            "\" xmlns=\"http://www.w3.org/2000/svg\">\n    <style>\n        text {\n          font-family: monospace;\n          font-size: ",
        );
        self.svg.append(font_size_str.as_str());
        self.svg.append("px;\n          fill: #FFFFFF;\n        }\n        ");
        self.svg.append(stylesheet);
        self.svg.append(
            "\n    </style>\n    <rect width=\"100%\" height=\"100%\" class=\"background\" />\n",
        );
        proof {
            assert(self.svg@ =~= old(self).svg@ + header_chars(
                old(self).picture_width as int,
                spec_canvas_height(
                    old(self).picture_width as int,
                    old(self).line_count as int,
                    old(self).max_line_width as int,
                ),
                spec_font_px(old(self).picture_width as int, old(self).max_line_width as int),
                stylesheet@,
            ));
        }
        self.new_text();
    }

    /// Emits the source characters in `[start, end)`, escaped.  At every
    /// newline inside the slice all open tags are closed (innermost first),
    /// the line's container is closed, the next line's gutter and container
    /// are opened, and every region still on the stack is reopened,
    /// outermost first; the stack itself is never changed.
    fn highlight_source(&mut self, start: usize, end: usize)
        requires
            start <= end <= old(self).source@.len(),
            old(self).stack_in_bounds(),
            old(self).current_line + count_newlines(
                old(self).source@.subrange(start as int, end as int),
            ) < usize::MAX,
        ensures
            same_setup(*old(self), *final(self)),
            final(self).hl_stack@ == old(self).hl_stack@,
            final(self).current_line == old(self).current_line + count_newlines(
                old(self).source@.subrange(start as int, end as int),
            ),
            final(self).svg@ == old(self).svg@ + serialize_pieces(
                slice_pieces(
                    old(self).source@.subrange(start as int, end as int),
                    old(self).hl_stack@,
                    old(self).current_line as int,
                ),
                old(self).attrs_view(),
            ),
    {
        let ghost sub = old(self).source@.subrange(start as int, end as int);
        let ghost a = old(self).attrs_view();
        let ghost stack0 = old(self).hl_stack@;
        let ghost svg0 = old(self).svg@;
        let ghost line0 = old(self).current_line as int;
        let mut i = start;
        proof {
            assert(sub.skip(0) =~= sub);
            assert(sub.take(0) =~= Seq::<char>::empty());
            assert(svg0 + Seq::<char>::empty() =~= svg0);
            lemma_count_newlines_concat(sub.take(0), sub.skip(0));
        }
        while i < end
            invariant
                start <= i <= end <= self.source@.len(),
                same_setup(*old(self), *self),
                self.hl_stack@ == stack0,
                old(self).stack_in_bounds(),
                sub == old(self).source@.subrange(start as int, end as int),
                a == old(self).attrs_view(),
                stack0 == old(self).hl_stack@,
                svg0 == old(self).svg@,
                line0 == old(self).current_line as int,
                self.current_line == line0 + count_newlines(sub.take(i - start)),
                self.current_line + count_newlines(sub.skip(i - start)) < usize::MAX,
                svg0 + serialize_pieces(slice_pieces(sub, stack0, line0), a) == self.svg@
                    + serialize_pieces(
                    slice_pieces(sub.skip(i - start), stack0, self.current_line as int),
                    a,
                ),
            decreases end - i,
        {
            let ghost k = i - start;
            let ghost line_here = self.current_line as int;
            let ghost svg_here = self.svg@;
            proof {
                assert(sub.skip(k)[0] == sub[k]);
                assert(sub[k] == old(self).source@[start + k]);
                assert(sub.skip(k).drop_first() =~= sub.skip(k + 1));
                assert(sub.take(k + 1) =~= sub.take(k) + sub.skip(k).take(1));
                assert(sub.skip(k) =~= sub.skip(k).take(1) + sub.skip(k + 1));
                lemma_count_newlines_concat(sub.take(k), sub.skip(k).take(1));
                lemma_count_newlines_concat(sub.skip(k).take(1), sub.skip(k + 1));
                assert(count_newlines(sub.skip(k).take(1)) == (if sub[k] == '\n' {
                    1int
                } else {
                    0int
                })) by {
                    assert(sub.skip(k).take(1).drop_first() =~= Seq::<char>::empty());
                    assert(sub.skip(k).take(1)[0] == sub[k]);
                }
            }
            let c = self.source[i];
            if c == '\n' {
                let ghost group = closes(stack0.len()) + seq![
                    Piece::LineEnd,
                    Piece::LineStart(line_here + 1),
                ] + opens(stack0);
                proof {
                    assert(slice_pieces(sub.skip(k), stack0, line_here) == group + slice_pieces(
                        sub.skip(k + 1),
                        stack0,
                        line_here + 1,
                    ));
                }
                // Suspend: close every open tag, innermost first.
                let d = self.hl_stack.len();
                let ghost svg_entry = self.svg@;
                let mut j: usize = 0;
                proof {
                    assert(closes(0) =~= Seq::<Piece>::empty());
                    assert(svg_entry + Seq::<char>::empty() =~= svg_entry);
                }
                while j < d
                    invariant
                        j <= d,
                        d == stack0.len(),
                        self.hl_stack@ == stack0,
                        same_setup(*old(self), *self),
                        a == old(self).attrs_view(),
                        self.current_line as int == line_here,
                        self.svg@ == svg_entry + serialize_pieces(closes(j as nat), a),
                    decreases d - j,
                {
                    self.svg.append("</tspan>");
                    j = j + 1;
                    proof {
                        assert(closes(j as nat) =~= closes((j - 1) as nat).push(Piece::Close));
                        lemma_serialize_snoc(closes((j - 1) as nat), Piece::Close, a);
                    }
                }
                // Close the line's container, open the next line.
                self.svg.append("</text>\n");
                proof {
                    assert(self.current_line < usize::MAX) by {
                        assert(count_newlines(sub.skip(k)) >= 1) by {
                            lemma_count_newlines_bounds(sub.skip(k + 1));
                        }
                    }
                }
                self.new_text();
                // Resume: reopen a tag for every region still on the stack,
                // outermost first.
                let ghost svg_mid = self.svg@;
                let mut j2: usize = 0;
                proof {
                    assert(opens(stack0).take(0) =~= Seq::<Piece>::empty());
                    assert(svg_mid + Seq::<char>::empty() =~= svg_mid);
                }
                while j2 < d
                    invariant
                        j2 <= d,
                        d == stack0.len(),
                        self.hl_stack@ == stack0,
                        stack0 == old(self).hl_stack@,
                        same_setup(*old(self), *self),
                        a == old(self).attrs_view(),
                        old(self).stack_in_bounds(),
                        self.current_line as int == line_here + 1,
                        self.svg@ == svg_mid + serialize_pieces(opens(stack0).take(j2 as int), a),
                    decreases d - j2,
                {
                    proof {
                        assert(old(self).hl_stack@[j2 as int] < old(self).attrs@.len());
                        assert(self.attrs@ == old(self).attrs@);
                        assert(stack0[j2 as int] < self.attrs@.len());
                    }
                    let idx = self.hl_stack[j2];
                    self.new_tspan(idx);
                    j2 = j2 + 1;
                    proof {
                        assert(opens(stack0).take(j2 as int) =~= opens(stack0).take(
                            j2 - 1,
                        ).push(Piece::Open(stack0[j2 - 1])));
                        lemma_serialize_snoc(
                            opens(stack0).take(j2 - 1),
                            Piece::Open(stack0[j2 - 1]),
                            a,
                        );
                    }
                }
                proof {
                    assert(opens(stack0).take(d as int) =~= opens(stack0));
                    // The markup appended for this newline is exactly the
                    // serialized suspend-and-resume group.
                    let pair = seq![Piece::LineEnd, Piece::LineStart(line_here + 1)];
                    assert(serialize_pieces(pair, a) =~= "</text>\n"@ + line_start_chars(
                        line_here + 1,
                    )) by {
                        assert(pair.drop_first() =~= seq![Piece::LineStart(line_here + 1)]);
                        lemma_serialize_singleton(Piece::LineStart(line_here + 1), a);
                    }
                    lemma_serialize_concat(closes(stack0.len()), pair, a);
                    lemma_serialize_concat(closes(stack0.len()) + pair, opens(stack0), a);
                    lemma_serialize_concat(group, slice_pieces(sub.skip(k + 1), stack0, line_here + 1), a);
                    assert(self.svg@ =~= svg_here + serialize_pieces(group, a));
                    assert(svg_here + serialize_pieces(
                        slice_pieces(sub.skip(k), stack0, line_here),
                        a,
                    ) =~= self.svg@ + serialize_pieces(
                        slice_pieces(sub.skip(k + 1), stack0, line_here + 1),
                        a,
                    ));
                }
            } else {
                push_escaped(&mut self.svg, c);
                proof {
                    assert(sub.skip(k).len() > 0);
                    assert(self.source@ == old(self).source@);
                    assert(c == sub[k]);
                    assert(sub.skip(k)[0] != '\n');
                    assert(sub.skip(k).drop_first() =~= sub.skip(k + 1));
                    assert(slice_pieces(sub.skip(k), stack0, line_here) == seq![
                        Piece::Ch(sub.skip(k)[0]),
                    ] + slice_pieces(sub.skip(k).drop_first(), stack0, line_here));
                    assert(slice_pieces(sub.skip(k), stack0, line_here) =~= seq![
                        Piece::Ch(sub[k]),
                    ] + slice_pieces(sub.skip(k + 1), stack0, line_here));
                    lemma_serialize_concat(
                        seq![Piece::Ch(sub[k])],
                        slice_pieces(sub.skip(k + 1), stack0, line_here),
                        a,
                    );
                    lemma_serialize_singleton(Piece::Ch(sub[k]), a);
                    assert(svg_here + serialize_pieces(
                        slice_pieces(sub.skip(k), stack0, line_here),
                        a,
                    ) =~= self.svg@ + serialize_pieces(
                        slice_pieces(sub.skip(k + 1), stack0, line_here),
                        a,
                    ));
                }
            }
            i = i + 1;
        }
        proof {
            assert(sub.skip(end - start) =~= Seq::<char>::empty());
            assert(sub.take(end - start) =~= sub);
            assert(self.svg@ + serialize_pieces(
                slice_pieces(sub.skip(end - start), stack0, self.current_line as int),
                a,
            ) =~= self.svg@);
        }
    }

    /// Renders the whole event stream into the markup buffer: prologue,
    /// every event in order, epilogue.  The stream must be well formed in
    /// the sense of §`events_wf` — region indices point into the attribute
    /// list, slices lie inside the source, no region is closed that is not
    /// open — and its slices must spell out the source exactly once, in
    /// order.  The resulting markup is pinned to `spec_document`.
    pub fn render(&mut self, events: &Vec<HighlightEvent>, stylesheet: &str)
        requires
            old(self).wf(),
            old(self).fresh(),
            events_wf(events@, old(self).source@.len() as int, old(self).attrs@.len() as int),
            events_cover(events@, old(self).source@),
        ensures
            same_setup(*old(self), *final(self)),
            final(self).wf(),
            final(self).svg@ == spec_document(
                old(self).source@,
                old(self).attrs.deep_view(),
                stylesheet@,
                events@,
            ),
            final(self).hl_stack@ == stream_state(
                events@,
                old(self).source@,
                init_state(),
            ).stack,
            final(self).current_line as int == stream_state(
                events@,
                old(self).source@,
                init_state(),
            ).line,
    {
        let ghost src = old(self).source@;
        let ghost a = old(self).attrs.deep_view();
        let ghost n_attrs = old(self).attrs@.len() as int;
        let ghost header = header_chars(
            old(self).picture_width as int,
            spec_canvas_height(
                old(self).picture_width as int,
                old(self).line_count as int,
                old(self).max_line_width as int,
            ),
            spec_font_px(old(self).picture_width as int, old(self).max_line_width as int),
            stylesheet@,
        );
        self.prologue(stylesheet);
        let n = events.len();
        let mut i: usize = 0;
        proof {
            assert(events@.take(0) =~= Seq::<HighlightEvent>::empty());
            assert(events@.skip(0) =~= events@);
            assert(slices_text(events@.take(0), src) =~= Seq::<char>::empty());
            assert(slices_text(events@.take(0), src) + slices_text(events@.skip(0), src)
                =~= slices_text(events@, src));
            assert(self.svg@ =~= old(self).svg@ + header + line_start_chars(1));
            assert(old(self).svg@ + header + line_start_chars(1) =~= header + line_start_chars(1));
            assert(self.svg@ + serialize_pieces(
                stream_pieces(events@.take(0), src, init_state()),
                a,
            ) =~= self.svg@);
        }
        while i < n
            invariant
                i <= n,
                n == events@.len(),
                same_setup(*old(self), *self),
                old(self).wf(),
                a == old(self).attrs.deep_view(),
                src == old(self).source@,
                n_attrs == old(self).attrs@.len() as int,
                n_attrs == a.len(),
                header == header_chars(
                    old(self).picture_width as int,
                    spec_canvas_height(
                        old(self).picture_width as int,
                        old(self).line_count as int,
                        old(self).max_line_width as int,
                    ),
                    spec_font_px(old(self).picture_width as int, old(self).max_line_width as int),
                    stylesheet@,
                ),
                events_wf_from(
                    events@.skip(i as int),
                    src.len() as int,
                    n_attrs,
                    self.hl_stack@.len() as int,
                ),
                slices_text(events@, src) == src,
                slices_text(events@.take(i as int), src) + slices_text(events@.skip(i as int), src)
                    == src,
                self.hl_stack@ == stream_state(events@.take(i as int), src, init_state()).stack,
                self.stack_in_bounds(),
                self.current_line as int == stream_state(
                    events@.take(i as int),
                    src,
                    init_state(),
                ).line,
                self.current_line as int == 1 + count_newlines(
                    slices_text(events@.take(i as int), src),
                ),
                self.svg@ == header + line_start_chars(1) + serialize_pieces(
                    stream_pieces(events@.take(i as int), src, init_state()),
                    a,
                ),
            decreases n - i,
        {
            let ghost st_here = stream_state(events@.take(i as int), src, init_state());
            let ghost svg_here = self.svg@;
            proof {
                assert(events@.skip(i as int)[0] == events@[i as int]);
                assert(events@.skip(i as int).drop_first() =~= events@.skip(i + 1));
                assert(events@.take(i + 1) =~= events@.take(i as int).push(events@[i as int]));
                lemma_stream_snoc(events@.take(i as int), events@[i as int], src, init_state());
                lemma_slices_text_snoc(events@.take(i as int), events@[i as int], src);
                lemma_serialize_concat(
                    stream_pieces(events@.take(i as int), src, init_state()),
                    event_pieces(events@[i as int], src, st_here),
                    a,
                );
            }
            let ev = events[i];
            match ev {
                HighlightEvent::RegionStart(hl) => {
                    proof {
                        assert(event_ok(events@[i as int], src.len() as int, n_attrs,
                            self.hl_stack@.len() as int));
                        lemma_serialize_singleton(Piece::Open(hl), a);
                    }
                    self.start_highlight(hl);
                },
                HighlightEvent::SourceSlice { start, end } => {
                    proof {
                        assert(event_ok(events@[i as int], src.len() as int, n_attrs,
                            self.hl_stack@.len() as int));
                        // The line counter stays within bounds because the
                        // slices seen so far, this slice included, spell out
                        // a part of the source.
                        let done = slices_text(events@.take(i as int), src);
                        let sub = src.subrange(start as int, end as int);
                        let rest = slices_text(events@.skip(i + 1), src);
                        assert(slices_text(events@.skip(i as int), src) == sub + rest);
                        assert(done + (sub + rest) =~= (done + sub) + rest);
                        lemma_count_newlines_concat(done, sub);
                        lemma_count_newlines_concat(done + sub, rest);
                        lemma_count_newlines_bounds(rest);
                        lemma_count_newlines_bounds(done + sub);
                        lemma_count_newlines_bounds(src);
                        assert(count_newlines(done) + count_newlines(sub) <= count_newlines(src));
                    }
                    self.highlight_source(start, end);
                },
                HighlightEvent::RegionEnd => {
                    proof {
                        assert(event_ok(events@[i as int], src.len() as int, n_attrs,
                            self.hl_stack@.len() as int));
                        lemma_serialize_singleton(Piece::Close, a);
                    }
                    self.end_highlight();
                },
            }
            proof {
                assert(self.hl_stack@ == stream_state(events@.take(i + 1), src, init_state()).stack);
                assert(self.current_line as int == stream_state(
                    events@.take(i + 1),
                    src,
                    init_state(),
                ).line);
                assert(self.svg@ =~= svg_here + serialize_pieces(
                    event_pieces(events@[i as int], src, st_here),
                    a,
                ));
                assert(self.svg@ =~= header + line_start_chars(1) + serialize_pieces(
                    stream_pieces(events@.take(i + 1), src, init_state()),
                    a,
                ));
                assert(slices_text(events@.take(i + 1), src) + slices_text(
                    events@.skip(i + 1),
                    src,
                ) =~= src);
                lemma_count_newlines_concat(
                    slices_text(events@.take(i as int), src),
                    event_text(events@[i as int], src),
                );
            }
            i = i + 1;
        }
        proof {
            assert(events@.take(n as int) =~= events@);
        }
        self.epilogue();
        proof {
            assert(self.svg@ =~= spec_document(src, a, stylesheet@, events@));
        }
    }

    /// Closes the final text container and the document.
    fn epilogue(&mut self)
        ensures
            same_setup(*old(self), *final(self)),
            final(self).hl_stack == old(self).hl_stack,
            final(self).current_line == old(self).current_line,
            final(self).svg@ == old(self).svg@ + epilogue_chars(),
    {
        self.svg.append("</text></svg>");
    }
}

// ---------------------------------------------------------------------------
// Laws: what the rendered markup guarantees
// ---------------------------------------------------------------------------

/// The source text one piece carries: a plain character carries itself, a
/// line boundary stands for the newline that caused it, tags carry nothing.
pub open spec fn piece_text(p: Piece) -> Seq<char> {
    match p {
        Piece::Ch(c) => seq![c],
        Piece::LineEnd => seq!['\n'],
        _ => Seq::empty(),
    }
}

/// The source text a piece sequence carries, in order.
pub open spec fn text_of(ps: Seq<Piece>) -> Seq<char>
    decreases ps.len(),
{
    if ps.len() == 0 {
        Seq::empty()
    } else {
        piece_text(ps[0]) + text_of(ps.drop_first())
    }
}

pub proof fn lemma_text_concat(a: Seq<Piece>, b: Seq<Piece>)
    ensures
        text_of(a + b) == text_of(a) + text_of(b),
    decreases a.len(),
{
    if a.len() == 0 {
        assert(a + b =~= b);
        assert(text_of(a) + text_of(b) =~= text_of(b));
    } else {
        assert((a + b).drop_first() =~= a.drop_first() + b);
        lemma_text_concat(a.drop_first(), b);
        assert(text_of(a + b) =~= text_of(a) + text_of(b));
    }
}

pub proof fn lemma_text_singleton(p: Piece)
    ensures
        text_of(seq![p]) == piece_text(p),
{
    assert(seq![p].drop_first() =~= Seq::<Piece>::empty());
    assert(text_of(Seq::<Piece>::empty()) == Seq::<char>::empty());
    assert(text_of(seq![p]) =~= piece_text(p));
}

pub proof fn lemma_text_closes(n: nat)
    ensures
        text_of(closes(n)) == Seq::<char>::empty(),
    decreases n,
{
    if n > 0 {
        assert(closes(n).drop_first() =~= closes((n - 1) as nat));
        lemma_text_closes((n - 1) as nat);
        assert(text_of(closes(n)) =~= Seq::<char>::empty());
    }
}

pub proof fn lemma_text_opens(stack: Seq<usize>)
    ensures
        text_of(opens(stack)) == Seq::<char>::empty(),
    decreases stack.len(),
{
    if stack.len() > 0 {
        assert(opens(stack).drop_first() =~= opens(stack.drop_first()));
        lemma_text_opens(stack.drop_first());
        assert(text_of(opens(stack)) =~= Seq::<char>::empty());
    }
}

/// A slice's pieces carry exactly the slice's characters: escaping and the
/// suspend-and-resume groups add tags, never source text.
pub proof fn lemma_slice_text(chars: Seq<char>, stack: Seq<usize>, line: int)
    ensures
        text_of(slice_pieces(chars, stack, line)) == chars,
    decreases chars.len(),
{
    if chars.len() == 0 {
    } else if chars[0] == '\n' {
        let pair = seq![Piece::LineEnd, Piece::LineStart(line + 1)];
        let rest = slice_pieces(chars.drop_first(), stack, line + 1);
        lemma_slice_text(chars.drop_first(), stack, line + 1);
        lemma_text_closes(stack.len());
        lemma_text_opens(stack);
        lemma_text_concat(closes(stack.len()), pair);
        lemma_text_concat(closes(stack.len()) + pair, opens(stack));
        lemma_text_concat(closes(stack.len()) + pair + opens(stack), rest);
        assert(pair.drop_first() =~= seq![Piece::LineStart(line + 1)]);
        lemma_text_singleton(Piece::LineStart(line + 1));
        assert(text_of(pair) =~= seq!['\n']);
        assert(text_of(slice_pieces(chars, stack, line)) =~= chars);
    } else {
        lemma_slice_text(chars.drop_first(), stack, line);
        lemma_text_concat(seq![ch_piece(chars[0])], slice_pieces(chars.drop_first(), stack, line));
        lemma_text_singleton(ch_piece(chars[0]));
        assert(text_of(seq![ch_piece(chars[0])]) =~= seq![chars[0]]);
        assert(text_of(slice_pieces(chars, stack, line)) =~= chars);
    }
}

/// A stream's pieces carry exactly the text its slices spell out.
pub proof fn lemma_stream_text(events: Seq<HighlightEvent>, src: Seq<char>, st: RenderState)
    ensures
        text_of(stream_pieces(events, src, st)) == slices_text(events, src),
    decreases events.len(),
{
    if events.len() == 0 {
    } else {
        let st2 = event_state(events[0], src, st);
        lemma_stream_text(events.drop_first(), src, st2);
        lemma_text_concat(event_pieces(events[0], src, st), stream_pieces(events.drop_first(), src, st2));
        match events[0] {
            HighlightEvent::RegionStart(i) => {
                lemma_text_singleton(Piece::Open(i));
            },
            HighlightEvent::SourceSlice { start, end } => {
                lemma_slice_text(src.subrange(start as int, end as int), st.stack, st.line);
            },
            HighlightEvent::RegionEnd => {
                lemma_text_singleton(Piece::Close);
            },
        }
        assert(text_of(stream_pieces(events, src, st)) =~= slices_text(events, src));
    }
}

/// Round trip: when the stream's slices cover the source, the characters and
/// line breaks of the rendered pieces spell the source back out exactly.
pub proof fn lemma_render_round_trip(events: Seq<HighlightEvent>, src: Seq<char>)
    requires
        events_cover(events, src),
    ensures
        text_of(stream_pieces(events, src, init_state())) == src,
{
    lemma_stream_text(events, src, init_state());
}

/// How one piece changes the number of open tags.
pub open spec fn piece_tag_delta(p: Piece) -> int {
    match p {
        Piece::Open(_) => 1,
        Piece::Close => -1,
        _ => 0,
    }
}

/// Net change in open tags over a piece sequence.
pub open spec fn tag_sum(ps: Seq<Piece>) -> int
    decreases ps.len(),
{
    if ps.len() == 0 {
        0
    } else {
        piece_tag_delta(ps[0]) + tag_sum(ps.drop_first())
    }
}

/// How one piece transforms the stack of open tags.
pub open spec fn apply_piece(stack: Seq<usize>, p: Piece) -> Seq<usize> {
    match p {
        Piece::Open(i) => stack.push(i),
        Piece::Close => stack.drop_last(),
        _ => stack,
    }
}

/// The open tags after emitting `ps` on top of `stack0`, outermost first.
pub open spec fn open_tags(ps: Seq<Piece>, stack0: Seq<usize>) -> Seq<usize>
    decreases ps.len(),
{
    if ps.len() == 0 {
        stack0
    } else {
        open_tags(ps.drop_first(), apply_piece(stack0, ps[0]))
    }
}

/// The pieces are well nested when read at `depth` open tags: a closing tag
/// only ever meets an open one, and at every line boundary — the end of a
/// line's container as well as the start of the next — no tag is open at
/// all.
pub open spec fn pieces_wf(ps: Seq<Piece>, depth: int) -> bool
    decreases ps.len(),
{
    if ps.len() == 0 {
        true
    } else {
        (match ps[0] {
            Piece::Close => depth > 0,
            Piece::LineEnd => depth == 0,
            Piece::LineStart(_) => depth == 0,
            _ => true,
        }) && pieces_wf(ps.drop_first(), depth + piece_tag_delta(ps[0]))
    }
}

pub proof fn lemma_pieces_singleton(p: Piece, s0: Seq<usize>, d: int)
    ensures
        open_tags(seq![p], s0) == apply_piece(s0, p),
        tag_sum(seq![p]) == piece_tag_delta(p),
        pieces_wf(seq![p], d) <==> (match p {
            Piece::Close => d > 0,
            Piece::LineEnd => d == 0,
            Piece::LineStart(_) => d == 0,
            _ => true,
        }),
{
    assert(seq![p][0] == p);
    assert(seq![p].drop_first() =~= Seq::<Piece>::empty());
    assert(open_tags(Seq::<Piece>::empty(), apply_piece(s0, p)) == apply_piece(s0, p));
    assert(tag_sum(Seq::<Piece>::empty()) == 0);
    assert(pieces_wf(Seq::<Piece>::empty(), d + piece_tag_delta(p)));
}

pub proof fn lemma_open_tags_concat(a: Seq<Piece>, b: Seq<Piece>, stack0: Seq<usize>)
    ensures
        open_tags(a + b, stack0) == open_tags(b, open_tags(a, stack0)),
    decreases a.len(),
{
    if a.len() == 0 {
        assert(a + b =~= b);
    } else {
        assert((a + b).drop_first() =~= a.drop_first() + b);
        lemma_open_tags_concat(a.drop_first(), b, apply_piece(stack0, a[0]));
    }
}

pub proof fn lemma_tag_sum_concat(a: Seq<Piece>, b: Seq<Piece>)
    ensures
        tag_sum(a + b) == tag_sum(a) + tag_sum(b),
    decreases a.len(),
{
    if a.len() == 0 {
        assert(a + b =~= b);
    } else {
        assert((a + b).drop_first() =~= a.drop_first() + b);
        lemma_tag_sum_concat(a.drop_first(), b);
    }
}

pub proof fn lemma_pieces_wf_concat(a: Seq<Piece>, b: Seq<Piece>, depth: int)
    ensures
        pieces_wf(a + b, depth) <==> (pieces_wf(a, depth) && pieces_wf(b, depth + tag_sum(a))),
    decreases a.len(),
{
    if a.len() == 0 {
        assert(a + b =~= b);
        assert(pieces_wf(a, depth));
    } else {
        assert((a + b).drop_first() =~= a.drop_first() + b);
        lemma_pieces_wf_concat(a.drop_first(), b, depth + piece_tag_delta(a[0]));
    }
}

/// Closing tags, one per entry of `stack`, pop the stack entirely.
pub proof fn lemma_closes_effect(stack: Seq<usize>)
    ensures
        open_tags(closes(stack.len()), stack) == Seq::<usize>::empty(),
        tag_sum(closes(stack.len())) == -(stack.len() as int),
        pieces_wf(closes(stack.len()), stack.len() as int),
    decreases stack.len(),
{
    if stack.len() == 0 {
        assert(closes(0) =~= Seq::<Piece>::empty());
    } else {
        let n = stack.len();
        assert(closes(n).drop_first() =~= closes((n - 1) as nat));
        assert(closes(n)[0] == Piece::Close);
        assert(stack.drop_last().len() == n - 1);
        lemma_closes_effect(stack.drop_last());
        assert(open_tags(closes(n), stack) == open_tags(
            closes((n - 1) as nat),
            stack.drop_last(),
        ));
    }
}

/// Opening tags for every entry of `stack` push exactly `stack` on top.
pub proof fn lemma_opens_effect(stack: Seq<usize>, stack0: Seq<usize>)
    ensures
        open_tags(opens(stack), stack0) == stack0 + stack,
        tag_sum(opens(stack)) == stack.len() as int,
        pieces_wf(opens(stack), stack0.len() as int),
    decreases stack.len(),
{
    if stack.len() == 0 {
        assert(opens(stack) =~= Seq::<Piece>::empty());
        assert(stack0 + stack =~= stack0);
    } else {
        assert(opens(stack).drop_first() =~= opens(stack.drop_first()));
        assert(opens(stack)[0] == Piece::Open(stack[0]));
        lemma_opens_effect(stack.drop_first(), stack0.push(stack[0]));
        assert(stack0.push(stack[0]) + stack.drop_first() =~= stack0 + stack);
    }
}

/// A slice leaves the open tags exactly as it found them, stays well nested,
/// and its net tag change is zero.
pub proof fn lemma_slice_tags(chars: Seq<char>, stack: Seq<usize>, line: int)
    ensures
        open_tags(slice_pieces(chars, stack, line), stack) == stack,
        tag_sum(slice_pieces(chars, stack, line)) == 0,
        pieces_wf(slice_pieces(chars, stack, line), stack.len() as int),
    decreases chars.len(),
{
    if chars.len() == 0 {
    } else if chars[0] == '\n' {
        let pair = seq![Piece::LineEnd, Piece::LineStart(line + 1)];
        let rest = slice_pieces(chars.drop_first(), stack, line + 1);
        let group = closes(stack.len()) + pair + opens(stack);
        lemma_slice_tags(chars.drop_first(), stack, line + 1);
        lemma_closes_effect(stack);
        lemma_opens_effect(stack, Seq::empty());
        assert(Seq::<usize>::empty() + stack =~= stack);
        // The two line-boundary pieces neither open nor close tags.
        assert(pair.drop_first() =~= seq![Piece::LineStart(line + 1)]);
        assert(pair[0] == Piece::LineEnd);
        lemma_pieces_singleton(Piece::LineStart(line + 1), Seq::empty(), 0);
        assert(open_tags(pair, Seq::<usize>::empty()) == Seq::<usize>::empty());
        assert(tag_sum(pair) == 0);
        assert(pieces_wf(pair, 0));
        lemma_open_tags_concat(closes(stack.len()), pair, stack);
        lemma_open_tags_concat(closes(stack.len()) + pair, opens(stack), stack);
        lemma_open_tags_concat(group, rest, stack);
        lemma_tag_sum_concat(closes(stack.len()), pair);
        lemma_tag_sum_concat(closes(stack.len()) + pair, opens(stack));
        lemma_tag_sum_concat(group, rest);
        lemma_pieces_wf_concat(closes(stack.len()), pair, stack.len() as int);
        lemma_pieces_wf_concat(closes(stack.len()) + pair, opens(stack), stack.len() as int);
        lemma_pieces_wf_concat(group, rest, stack.len() as int);
        assert(open_tags(slice_pieces(chars, stack, line), stack) == stack);
    } else {
        let rest = slice_pieces(chars.drop_first(), stack, line);
        lemma_slice_tags(chars.drop_first(), stack, line);
        lemma_pieces_singleton(ch_piece(chars[0]), stack, stack.len() as int);
        lemma_open_tags_concat(seq![ch_piece(chars[0])], rest, stack);
        lemma_tag_sum_concat(seq![ch_piece(chars[0])], rest);
        lemma_pieces_wf_concat(seq![ch_piece(chars[0])], rest, stack.len() as int);
    }
}

/// One well-formed event's pieces stay well nested and turn the open tags
/// into exactly the new open-region stack.
pub proof fn lemma_event_tags(e: HighlightEvent, src: Seq<char>, st: RenderState, n_attrs: int)
    requires
        event_ok(e, src.len() as int, n_attrs, st.stack.len() as int),
    ensures
        open_tags(event_pieces(e, src, st), st.stack) == event_state(e, src, st).stack,
        tag_sum(event_pieces(e, src, st)) == event_depth_delta(e),
        pieces_wf(event_pieces(e, src, st), st.stack.len() as int),
{
    match e {
        HighlightEvent::RegionStart(i) => {
            lemma_pieces_singleton(Piece::Open(i), st.stack, st.stack.len() as int);
        },
        HighlightEvent::SourceSlice { start, end } => {
            lemma_slice_tags(src.subrange(start as int, end as int), st.stack, st.line);
        },
        HighlightEvent::RegionEnd => {
            lemma_pieces_singleton(Piece::Close, st.stack, st.stack.len() as int);
        },
    }
}

/// A well-formed stream's pieces stay well nested, and after any such stream
/// the open tags are exactly the open-region stack.
pub proof fn lemma_stream_tags(
    events: Seq<HighlightEvent>,
    src: Seq<char>,
    st: RenderState,
    n_attrs: int,
)
    requires
        events_wf_from(events, src.len() as int, n_attrs, st.stack.len() as int),
    ensures
        open_tags(stream_pieces(events, src, st), st.stack) == stream_state(events, src, st).stack,
        tag_sum(stream_pieces(events, src, st)) == stream_state(events, src, st).stack.len()
            - st.stack.len(),
        pieces_wf(stream_pieces(events, src, st), st.stack.len() as int),
    decreases events.len(),
{
    if events.len() == 0 {
    } else {
        let e = events[0];
        let st2 = event_state(e, src, st);
        let head = event_pieces(e, src, st);
        let tail = stream_pieces(events.drop_first(), src, st2);
        lemma_event_tags(e, src, st, n_attrs);
        assert(st2.stack.len() == st.stack.len() + event_depth_delta(e));
        lemma_stream_tags(events.drop_first(), src, st2, n_attrs);
        lemma_open_tags_concat(head, tail, st.stack);
        lemma_tag_sum_concat(head, tail);
        lemma_pieces_wf_concat(head, tail, st.stack.len() as int);
    }
}

/// Balanced, correctly nested markup: over a well-formed stream that closes
/// every region it opens, the rendered tags are well nested — every closing
/// tag meets an open one, no tag spans a line boundary — and at the end of
/// the stream no tag remains open.
pub proof fn lemma_tags_balanced(events: Seq<HighlightEvent>, src: Seq<char>, n_attrs: int)
    requires
        events_wf(events, src.len() as int, n_attrs),
        events_balanced(events, src),
    ensures
        pieces_wf(stream_pieces(events, src, init_state()), 0),
        open_tags(stream_pieces(events, src, init_state()), Seq::empty())
            == Seq::<usize>::empty(),
        tag_sum(stream_pieces(events, src, init_state())) == 0,
{
    lemma_stream_tags(events, src, init_state(), n_attrs);
    assert(stream_state(events, src, init_state()).stack =~= Seq::<usize>::empty());
}

pub proof fn lemma_events_wf_prefix(
    events: Seq<HighlightEvent>,
    src_len: int,
    n_attrs: int,
    depth: int,
    k: int,
)
    requires
        events_wf_from(events, src_len, n_attrs, depth),
        0 <= k <= events.len(),
    ensures
        events_wf_from(events.take(k), src_len, n_attrs, depth),
    decreases events.len(),
{
    if events.len() == 0 || k == 0 {
        assert(events.take(k) =~= Seq::<HighlightEvent>::empty());
    } else {
        assert(events.take(k)[0] == events[0]);
        assert(events.take(k).drop_first() =~= events.drop_first().take(k - 1));
        lemma_events_wf_prefix(
            events.drop_first(),
            src_len,
            n_attrs,
            depth + event_depth_delta(events[0]),
            k - 1,
        );
    }
}

/// At every point of the stream, the set of open tags in the rendered markup
/// equals the open-region stack: after any prefix of a well-formed stream,
/// folding the emitted tags yields exactly the abstract stack at that point.
pub proof fn lemma_open_tags_match_stack(
    events: Seq<HighlightEvent>,
    src: Seq<char>,
    n_attrs: int,
    k: int,
)
    requires
        events_wf(events, src.len() as int, n_attrs),
        0 <= k <= events.len(),
    ensures
        open_tags(stream_pieces(events.take(k), src, init_state()), Seq::empty())
            == stream_state(events.take(k), src, init_state()).stack,
{
    lemma_events_wf_prefix(events, src.len() as int, n_attrs, 0, k);
    lemma_stream_tags(events.take(k), src, init_state(), n_attrs);
}

/// The depth of open tags after the first `k` pieces, starting from none.
pub open spec fn depth_at(ps: Seq<Piece>, k: int) -> int {
    tag_sum(ps.take(k))
}

pub proof fn lemma_wf_depth_at(ps: Seq<Piece>, depth: int, k: int)
    requires
        pieces_wf(ps, depth),
        0 <= k < ps.len(),
        ps[k] is LineEnd || ps[k] is LineStart,
    ensures
        depth + tag_sum(ps.take(k)) == 0,
    decreases k,
{
    if k == 0 {
        assert(ps.take(0) =~= Seq::<Piece>::empty());
    } else {
        assert(ps.drop_first()[k - 1] == ps[k]);
        lemma_wf_depth_at(ps.drop_first(), depth + piece_tag_delta(ps[0]), k - 1);
        assert(ps.take(k)[0] == ps[0]);
        assert(ps.take(k).drop_first() =~= ps.drop_first().take(k - 1));
        assert(tag_sum(ps.take(k)) == piece_tag_delta(ps[0]) + tag_sum(
            ps.drop_first().take(k - 1),
        ));
    }
}

/// A newline suspends every open region: wherever the rendered markup closes
/// a line's container or opens the next one, no region tag is open — every
/// tag was closed before the boundary, and the ones still on the stack are
/// reopened only after it.
pub proof fn lemma_line_break_closes_tags(
    events: Seq<HighlightEvent>,
    src: Seq<char>,
    n_attrs: int,
    k: int,
)
    requires
        events_wf(events, src.len() as int, n_attrs),
        0 <= k < stream_pieces(events, src, init_state()).len(),
        stream_pieces(events, src, init_state())[k] is LineEnd || stream_pieces(
            events,
            src,
            init_state(),
        )[k] is LineStart,
    ensures
        depth_at(stream_pieces(events, src, init_state()), k) == 0,
{
    lemma_stream_tags(events, src, init_state(), n_attrs);
    lemma_wf_depth_at(stream_pieces(events, src, init_state()), 0, k);
}

// ---------------------------------------------------------------------------
// Laws: canvas geometry
// ---------------------------------------------------------------------------

/// The canvas width the renderer reports: the fixed target, whatever the
/// longest line.
pub open spec fn spec_canvas_width(pw: int, mlw: int) -> int {
    pw
}

/// Canvas monotonicity: for a fixed width target, the canvas height never
/// shrinks when the line count grows; and the canvas width never shrinks
/// when the longest line grows.
pub proof fn lemma_canvas_monotone(pw: int, lc1: int, lc2: int, mlw: int, mlw1: int, mlw2: int)
    requires
        pw >= 0,
        0 <= lc1 <= lc2,
        mlw > 0,
        0 < mlw1 <= mlw2,
    ensures
        spec_canvas_height(pw, lc1, mlw) <= spec_canvas_height(pw, lc2, mlw),
        spec_canvas_width(pw, mlw1) <= spec_canvas_width(pw, mlw2),
{
    vstd::arithmetic::mul::lemma_mul_inequality(lc1, lc2, pw * ASPECT_DEN);
    assert(lc1 * (pw * ASPECT_DEN) == pw * ASPECT_DEN * lc1) by (nonlinear_arith);
    assert(lc2 * (pw * ASPECT_DEN) == pw * ASPECT_DEN * lc2) by (nonlinear_arith);
    vstd::arithmetic::div_mod::lemma_div_is_ordered(
        pw * ASPECT_DEN * lc1,
        pw * ASPECT_DEN * lc2,
        ASPECT_NUM * mlw,
    );
}

} // verus!
