//! The simple theme format: a flat mapping from highlight class to color
//! string, plus the style-value shapes the format allows — a bare color id
//! as shorthand, or an object with optional color and font flags.  Both
//! shapes normalize to the same style declaration.

use crate::scan::{lookup_last, map_get_last, pairs_view};
use crate::stylesheet::Stylesheet;
use vstd::prelude::*;
use vstd::string::StringExecFns;

verus! {

/// A flat theme: ordered pairs of highlight class name and color string.
pub struct SimpleColors(pub Vec<(String, String)>);

impl View for SimpleColors {
    type V = Seq<(Seq<char>, Seq<char>)>;

    open spec fn view(&self) -> Seq<(Seq<char>, Seq<char>)> {
        pairs_view(self.0@)
    }
}

/// The body rule of the simple format: background and text color when the
/// map binds "bg" and "fg".
pub open spec fn spec_simple_body(pairs: Seq<(Seq<char>, Seq<char>)>) -> Seq<char> {
    "body{"@ + (match map_get_last(pairs, "bg"@) {
        Some(c) => "background-color:"@ + c + ";"@,
        None => Seq::empty(),
    }) + (match map_get_last(pairs, "fg"@) {
        Some(c) => "color:"@ + c + ";"@,
        None => Seq::empty(),
    }) + "}"@
}

/// One entry as a class rule.
pub open spec fn spec_simple_entry(p: (Seq<char>, Seq<char>)) -> Seq<char> {
    "."@ + p.0 + "{color:"@ + p.1 + "}"@
}

/// Every entry as a class rule, one per line, in map order.
pub open spec fn spec_simple_entries(pairs: Seq<(Seq<char>, Seq<char>)>) -> Seq<char>
    decreases pairs.len(),
{
    if pairs.len() == 0 {
        Seq::empty()
    } else if pairs.len() == 1 {
        spec_simple_entry(pairs[0])
    } else {
        spec_simple_entries(pairs.drop_last()) + "\n"@ + spec_simple_entry(pairs.last())
    }
}

/// The whole stylesheet of the simple format.
pub open spec fn spec_simple_stylesheet(pairs: Seq<(Seq<char>, Seq<char>)>) -> Seq<char> {
    spec_simple_body(pairs) + "\n"@ + spec_simple_entries(pairs)
}

impl Stylesheet for SimpleColors {
    open spec fn spec_stylesheet(&self) -> Seq<char> {
        spec_simple_stylesheet(self@)
    }

    /// The body rule with the "bg" and "fg" defaults, then one class rule
    /// per entry, in map order.
    fn build_stylesheet(&self) -> (r: String) {
        let mut out = String::new();
        out.append("body{");
        match lookup_last(&self.0, "bg") {
            Some(color) => {
                let piece = color.clone();
                out.append("background-color:");
                out.append(piece.as_str());
                out.append(";");
            },
            None => {},
        }
        match lookup_last(&self.0, "fg") {
            Some(color) => {
                let piece = color.clone();
                out.append("color:");
                out.append(piece.as_str());
                out.append(";");
            },
            None => {},
        }
        out.append("}");
        proof {
            assert(out@ =~= spec_simple_body(self@));
        }
        out.append("\n");
        let ghost body = out@;
        let n = self.0.len();
        let ghost pairs = self@;
        let mut i: usize = 0;
        proof {
            assert(pairs.take(0) =~= Seq::<(Seq<char>, Seq<char>)>::empty());
            assert(out@ =~= body + spec_simple_entries(pairs.take(0)));
        }
        while i < n
            invariant
                n == pairs.len(),
                pairs == self@,
                i <= n,
                out@ == body + spec_simple_entries(pairs.take(i as int)),
            decreases n - i,
        {
            proof {
                assert(pairs.take(i + 1).last() == pairs[i as int]);
                assert(pairs.take(i + 1).drop_last() =~= pairs.take(i as int));
                assert(pairs[i as int] == (self.0@[i as int].0@, self.0@[i as int].1@));
            }
            if i > 0 {
                out.append("\n");
            }
            out.append(".");
            out.append(self.0[i].0.as_str());
            out.append("{color:");
            out.append(self.0[i].1.as_str());
            out.append("}");
            proof {
                assert(out@ =~= body + spec_simple_entries(pairs.take(i + 1)));
            }
            i = i + 1;
        }
        proof {
            assert(pairs.take(n as int) =~= pairs);
            assert(out@ =~= spec_simple_stylesheet(self@));
        }
        out
    }
}

// ---------------------------------------------------------------------------
// Style values: bare color shorthand and object form
// ---------------------------------------------------------------------------

/// A style value as the document writes it: either a bare color id meaning
/// color only, or an object with any subset of color and font flags.
#[derive(Clone, Copy, Debug, PartialEq, Eq)]
pub enum ThemeItem {
    JustColor(i32),
    Advanced { color: Option<i32>, bold: Option<bool>, underline: Option<bool>, italic: Option<bool> },
}

/// The normalized style of one category: an optional color id and three
/// font flags, absent object keys read as false.
#[derive(Clone, Copy, Debug, PartialEq, Eq)]
pub struct StyleDecl {
    pub color: Option<i32>,
    pub bold: bool,
    pub italic: bool,
    pub underline: bool,
}

/// What either shape of a style value normalizes to.
pub open spec fn spec_style_of(item: ThemeItem) -> StyleDecl {
    match item {
        ThemeItem::JustColor(c) => StyleDecl {
            color: Some(c),
            bold: false,
            italic: false,
            underline: false,
        },
        ThemeItem::Advanced { color, bold, underline, italic } => StyleDecl {
            color,
            bold: bold == Some(true),
            italic: italic == Some(true),
            underline: underline == Some(true),
        },
    }
}

impl ThemeItem {
    /// Normalizes either shape to a style declaration: a bare color means
    /// color only, and missing object keys mean false.
    pub fn to_style(&self) -> (r: StyleDecl)
        ensures
            r == spec_style_of(*self),
    {
        match *self {
            ThemeItem::JustColor(c) => StyleDecl {
                color: Some(c),
                bold: false,
                italic: false,
                underline: false,
            },
            ThemeItem::Advanced { color, bold, underline, italic } => StyleDecl {
                color,
                bold: match bold {
                    Some(b) => b,
                    None => false,
                },
                italic: match italic {
                    Some(b) => b,
                    None => false,
                },
                underline: match underline {
                    Some(b) => b,
                    None => false,
                },
            },
        }
    }
}

/// The color string bound to a color id in the palette; a later pair
/// overrides an earlier one.
pub open spec fn palette_get(palette: Seq<(i32, Seq<char>)>, id: i32) -> Option<Seq<char>>
    decreases palette.len(),
{
    if palette.len() == 0 {
        None
    } else if palette.last().0 == id {
        Some(palette.last().1)
    } else {
        palette_get(palette.drop_last(), id)
    }
}

/// A color-id palette as pairs of id and color string.
pub open spec fn palette_view(v: Seq<(i32, String)>) -> Seq<(i32, Seq<char>)> {
    Seq::new(v.len(), |i: int| (v[i].0, v[i].1@))
}

/// The declarations of one normalized style: its color resolved through the
/// palette, then one fragment per active font flag.  `None` when the style
/// names a color the palette does not bind.
pub open spec fn spec_style_css(d: StyleDecl, palette: Seq<(i32, Seq<char>)>) -> Option<Seq<char>> {
    match d.color {
        Some(id) => match palette_get(palette, id) {
            Some(hex) => Some("color:"@ + hex + ";"@ + spec_flag_css(d)),
            None => None,
        },
        None => Some(spec_flag_css(d)),
    }
}

/// The font-flag fragments of one normalized style.
pub open spec fn spec_flag_css(d: StyleDecl) -> Seq<char> {
    (if d.bold {
        "font-weight:bold;"@
    } else {
        Seq::empty()
    }) + (if d.italic {
        "font-style:italic;"@
    } else {
        Seq::empty()
    }) + (if d.underline {
        "text-decoration:underline;"@
    } else {
        Seq::empty()
    })
}

impl StyleDecl {
    /// Renders the style as declarations, resolving its color through the
    /// palette; `None` exactly when the style names a color the palette
    /// does not bind.
    pub fn declaration(&self, palette: &Vec<(i32, String)>) -> (r: Option<String>)
        ensures
            match r {
                Some(s) => spec_style_css(*self, palette_view(palette@)) == Some(s@),
                None => spec_style_css(*self, palette_view(palette@)) is None,
            },
    {
        let mut out = String::new();
        match self.color {
            Some(id) => {
                match lookup_palette(palette, id) {
                    Some(hex) => {
                        let piece = hex.clone();
                        out.append("color:");
                        out.append(piece.as_str());
                        out.append(";");
                    },
                    None => {
                        return None;
                    },
                }
            },
            None => {},
        }
        let ghost color_part = out@;
        if self.bold {
            out.append("font-weight:bold;");
        }
        if self.italic {
            out.append("font-style:italic;");
        }
        if self.underline {
            out.append("text-decoration:underline;");
        }
        proof {
            assert(out@ =~= color_part + spec_flag_css(*self));
        }
        Some(out)
    }
}

/// Looks a color id up in the palette; a later pair overrides an earlier
/// one.
fn lookup_palette<'a>(palette: &'a Vec<(i32, String)>, id: i32) -> (r: Option<&'a String>)
    ensures
        match r {
            Some(v) => palette_get(palette_view(palette@), id) == Some(v@),
            None => palette_get(palette_view(palette@), id) is None,
        },
{
    let ghost view = palette_view(palette@);
    let mut j = palette.len();
    proof {
        assert(view.take(palette@.len() as int) =~= view);
    }
    while j > 0
        invariant
            j <= palette@.len(),
            view == palette_view(palette@),
            palette_get(view, id) == palette_get(view.take(j as int), id),
        decreases j,
    {
        proof {
            assert(view.take(j as int).last() == view[j - 1]);
            assert(view.take(j as int).drop_last() =~= view.take(j - 1));
        }
        if palette[j - 1].0 == id {
            return Some(&palette[j - 1].1);
        }
        j = j - 1;
    }
    proof {
        assert(view.take(0) =~= Seq::<(i32, Seq<char>)>::empty());
    }
    None
}

/// Shorthand equivalence: a bare color value and the object form that sets
/// only the same color normalize to the same style and render to the same
/// stylesheet output, whatever the palette.
pub proof fn lemma_shorthand_equivalent(c: i32, palette: Seq<(i32, Seq<char>)>)
    ensures
        spec_style_of(ThemeItem::JustColor(c)) == spec_style_of(
            ThemeItem::Advanced { color: Some(c), bold: None, underline: None, italic: None },
        ),
        spec_style_css(spec_style_of(ThemeItem::JustColor(c)), palette) == spec_style_css(
            spec_style_of(
                ThemeItem::Advanced { color: Some(c), bold: None, underline: None, italic: None },
            ),
            palette,
        ),
{
}

} // verus!
