//! The Sublime-style color-scheme document: a name, global defaults, and an
//! ordered list of rules, each binding scope selectors to colors and font
//! flags.  This module holds the document model, the two field parsers the
//! format needs — scope-selector splitting and font-style flags — and the
//! serialization to stylesheet text.

use crate::escape::push_char;
use crate::scan::{
    contains_sub, has_substr, lookup_last, map_get_last, pairs_view, spec_trim, str_eq, trim_str,
};
use crate::json::{arr_view, json_view, obj_view, spec_json, JsonV, JsonValue};
use crate::stylesheet::Stylesheet;
use vstd::prelude::*;
use vstd::string::StrSliceExecFns;
use vstd::string::StringExecFns;

verus! {

/// A color value, carried through as an opaque string.
#[derive(Debug, PartialEq, Eq)]
pub struct Color(pub String);

impl View for Color {
    type V = Seq<char>;

    open spec fn view(&self) -> Seq<char> {
        self.0@
    }
}

/// The scope selectors of one rule, in document order, duplicates kept.
#[derive(Debug, PartialEq, Eq)]
pub struct Scopes(pub Vec<String>);

impl View for Scopes {
    type V = Seq<Seq<char>>;

    open spec fn view(&self) -> Seq<Seq<char>> {
        self.0.deep_view()
    }
}

/// The font flags of one rule; all false when the document has none.
#[derive(Clone, Copy, Debug, PartialEq, Eq, Structural)]
pub struct FontStyle {
    pub italic: bool,
    pub bold: bool,
    pub underline: bool,
}

/// One theme rule: optional display name, scope selectors, optional colors,
/// font flags.
#[derive(Debug, PartialEq, Eq)]
pub struct Rule {
    pub name: Option<String>,
    pub scope: Scopes,
    pub background: Option<Color>,
    pub foreground: Option<Color>,
    pub font_style: FontStyle,
}

/// The mathematical shape of a rule.
pub struct RuleV {
    pub name: Option<Seq<char>>,
    pub scopes: Seq<Seq<char>>,
    pub background: Option<Seq<char>>,
    pub foreground: Option<Seq<char>>,
    pub bold: bool,
    pub italic: bool,
    pub underline: bool,
}

impl View for Rule {
    type V = RuleV;

    open spec fn view(&self) -> RuleV {
        RuleV {
            name: match self.name {
                Some(n) => Some(n@),
                None => None,
            },
            scopes: self.scope@,
            background: match self.background {
                Some(c) => Some(c@),
                None => None,
            },
            foreground: match self.foreground {
                Some(c) => Some(c@),
                None => None,
            },
            bold: self.font_style.bold,
            italic: self.font_style.italic,
            underline: self.font_style.underline,
        }
    }
}

/// A whole color-scheme document: name, global defaults as ordered
/// key/value pairs, and rules in document order.
#[derive(Debug, PartialEq, Eq)]
pub struct SublimeColorScheme {
    pub name: String,
    pub globals: Vec<(String, String)>,
    pub rules: Vec<Rule>,
}

/// The mathematical shape of a document.
pub struct ThemeV {
    pub name: Seq<char>,
    pub globals: Seq<(Seq<char>, Seq<char>)>,
    pub rules: Seq<RuleV>,
}

/// The shapes of a list of rules.
pub open spec fn rules_view(v: Seq<Rule>) -> Seq<RuleV> {
    Seq::new(v.len(), |i: int| v[i]@)
}

impl View for SublimeColorScheme {
    type V = ThemeV;

    open spec fn view(&self) -> ThemeV {
        ThemeV { name: self.name@, globals: pairs_view(self.globals@), rules: rules_view(self.rules@) }
    }
}

// ---------------------------------------------------------------------------
// Scope-selector splitting
// ---------------------------------------------------------------------------

/// The characters that separate scope-selector tokens.
pub open spec fn is_scope_sep(c: char) -> bool {
    c == ',' || c == ' '
}

/// The raw tokens of a selector string: split at every separator, the token
/// gathered so far in `cur`.
pub open spec fn split_from(s: Seq<char>, cur: Seq<char>) -> Seq<Seq<char>>
    decreases s.len(),
{
    if s.len() == 0 {
        seq![cur]
    } else if is_scope_sep(s[0]) {
        seq![cur] + split_from(s.drop_first(), Seq::empty())
    } else {
        split_from(s.drop_first(), cur.push(s[0]))
    }
}

/// Raw tokens trimmed, with the empty ones dropped, order kept.
pub open spec fn clean_tokens(ts: Seq<Seq<char>>) -> Seq<Seq<char>>
    decreases ts.len(),
{
    if ts.len() == 0 {
        Seq::empty()
    } else {
        (if spec_trim(ts[0]).len() == 0 {
            Seq::empty()
        } else {
            seq![spec_trim(ts[0])]
        }) + clean_tokens(ts.drop_first())
    }
}

/// What a selector string denotes: comma- and space-separated tokens,
/// trimmed, empties dropped, order and duplicates kept.
pub open spec fn spec_scopes(s: Seq<char>) -> Seq<Seq<char>> {
    clean_tokens(split_from(s, Seq::empty()))
}

impl Scopes {
    /// Splits a selector string on commas and spaces, trims each token and
    /// drops the empty ones, preserving order and duplicates.
    pub fn parse(s: &str) -> (r: Scopes)
        ensures
            r@ == spec_scopes(s@),
    {
        let len = s.unicode_len();
        let mut tokens: Vec<String> = Vec::new();
        let mut cur = String::new();
        let mut i: usize = 0;
        proof {
            assert(s@.skip(0) =~= s@);
            assert(tokens.deep_view() =~= Seq::<Seq<char>>::empty());
            assert(Seq::<Seq<char>>::empty() + split_from(s@, Seq::empty()) =~= split_from(
                s@,
                Seq::empty(),
            ));
        }
        while i < len
            invariant
                len == s@.len(),
                i <= len,
                tokens.deep_view() + split_from(s@.skip(i as int), cur@) == split_from(
                    s@,
                    Seq::empty(),
                ),
            decreases len - i,
        {
            proof {
                assert(s@.skip(i as int)[0] == s@[i as int]);
                assert(s@.skip(i as int).drop_first() =~= s@.skip(i + 1));
            }
            let ghost t_before = tokens.deep_view();
            let ghost c_before = cur@;
            let c = s.get_char(i);
            if c == ',' || c == ' ' {
                let done = cur;
                cur = String::new();
                tokens.push(done);
                proof {
                    assert(tokens.deep_view() =~= t_before.push(c_before));
                    assert(split_from(s@.skip(i as int), c_before) == seq![c_before] + split_from(
                        s@.skip(i + 1),
                        Seq::empty(),
                    ));
                    assert(t_before.push(c_before) + split_from(s@.skip(i + 1), Seq::empty())
                        =~= t_before + (seq![c_before] + split_from(s@.skip(i + 1), Seq::empty())));
                }
            } else {
                push_char(&mut cur, c);
                proof {
                    assert(cur@ =~= c_before.push(s@[i as int]));
                    assert(split_from(s@.skip(i as int), c_before) == split_from(
                        s@.skip(i + 1),
                        c_before.push(s@[i as int]),
                    ));
                }
            }
            i = i + 1;
        }
        proof {
            assert(s@.skip(len as int) =~= Seq::<char>::empty());
            assert(split_from(s@.skip(len as int), cur@) == seq![cur@]);
        }
        tokens.push(cur);
        proof {
            assert(tokens.deep_view() =~= split_from(s@, Seq::empty()));
        }
        // Trim each token and keep the non-empty ones.
        let ghost raw = tokens.deep_view();
        let mut out: Vec<String> = Vec::new();
        let mut j: usize = 0;
        proof {
            assert(raw.skip(0) =~= raw);
            assert(out.deep_view() =~= Seq::<Seq<char>>::empty());
            assert(Seq::<Seq<char>>::empty() + clean_tokens(raw) =~= clean_tokens(raw));
        }
        while j < tokens.len()
            invariant
                raw == tokens.deep_view(),
                j <= tokens.len(),
                out.deep_view() + clean_tokens(raw.skip(j as int)) == clean_tokens(raw),
            decreases tokens.len() - j,
        {
            proof {
                assert(raw.skip(j as int)[0] == raw[j as int]);
                assert(raw[j as int] == tokens@[j as int]@);
                assert(raw.skip(j as int).drop_first() =~= raw.skip(j + 1));
            }
            let t = trim_str(tokens[j].as_str());
            if !t.as_str().is_empty() {
                let ghost out_before = out.deep_view();
                out.push(t);
                proof {
                    assert(out.deep_view() =~= out_before.push(spec_trim(raw[j as int])));
                    assert(out_before.push(spec_trim(raw[j as int])) + clean_tokens(
                        raw.skip(j + 1),
                    ) =~= out_before + (seq![spec_trim(raw[j as int])] + clean_tokens(
                        raw.skip(j + 1),
                    )));
                }
            } else {
                proof {
                    assert(out.deep_view() + (Seq::<Seq<char>>::empty() + clean_tokens(
                        raw.skip(j + 1),
                    )) =~= out.deep_view() + clean_tokens(raw.skip(j + 1)));
                }
            }
            j = j + 1;
        }
        proof {
            assert(raw.skip(tokens@.len() as int) =~= Seq::<Seq<char>>::empty());
            assert(clean_tokens(raw.skip(tokens@.len() as int)) == Seq::<Seq<char>>::empty());
            assert(out.deep_view() =~= clean_tokens(raw));
        }
        Scopes(out)
    }
}

impl FontStyle {
    /// Reads the font-style string: the flags are set by the presence of the
    /// substrings "bold", "italic" and "underline", independently of one
    /// another.
    pub fn parse(s: &str) -> (r: FontStyle)
        ensures
            r.bold == has_substr(s@, "bold"@),
            r.italic == has_substr(s@, "italic"@),
            r.underline == has_substr(s@, "underline"@),
    {
        let bold = contains_sub(s, "bold");
        let italic = contains_sub(s, "italic");
        let underline = contains_sub(s, "underline");
        FontStyle { italic, bold, underline }
    }

    /// The flags a document without a font-style field gets.
    pub fn none() -> (r: FontStyle)
        ensures
            !r.bold,
            !r.italic,
            !r.underline,
    {
        FontStyle { italic: false, bold: false, underline: false }
    }
}

// ---------------------------------------------------------------------------
// Serialization to stylesheet text
// ---------------------------------------------------------------------------

/// The selector list of a rule: every scope rendered as a class selector,
/// joined by commas, in document order.
pub open spec fn spec_selector(scopes: Seq<Seq<char>>) -> Seq<char>
    decreases scopes.len(),
{
    if scopes.len() == 0 {
        Seq::empty()
    } else if scopes.len() == 1 {
        "."@ + scopes[0]
    } else {
        spec_selector(scopes.drop_last()) + ","@ + "."@ + scopes.last()
    }
}

/// The declaration block of a rule: colors when present, then one fragment
/// per active font flag.
pub open spec fn spec_rule_decl(r: RuleV) -> Seq<char> {
    "{"@ + (match r.background {
        Some(c) => "background-color:"@ + c + ";"@,
        None => Seq::empty(),
    }) + (match r.foreground {
        Some(c) => "color:"@ + c + ";"@,
        None => Seq::empty(),
    }) + (if r.bold {
        "font-weight:bold;"@
    } else {
        Seq::empty()
    }) + (if r.italic {
        "font-style:italic;"@
    } else {
        Seq::empty()
    }) + (if r.underline {
        "text-decoration:underline;"@
    } else {
        Seq::empty()
    }) + "}"@
}

/// One rule as stylesheet text: its selector list, then its declarations.
pub open spec fn spec_rule_css(r: RuleV) -> Seq<char> {
    spec_selector(r.scopes) + spec_rule_decl(r)
}

/// The rule applying to the whole document body: the fixed monospace font
/// family, then the global background and foreground colors when present.
pub open spec fn spec_body_rule(globals: Seq<(Seq<char>, Seq<char>)>) -> Seq<char> {
    "body{"@ + "font-family:'JetBrains Mono', monospace;"@ + (match map_get_last(
        globals,
        "background"@,
    ) {
        Some(c) => "background:"@ + c + ";"@,
        None => Seq::empty(),
    }) + (match map_get_last(globals, "foreground"@) {
        Some(c) => "color:"@ + c + ";"@,
        None => Seq::empty(),
    }) + "}"@
}

/// All rules as stylesheet text, one per line, in document order.
pub open spec fn spec_rules_css(rules: Seq<RuleV>) -> Seq<char>
    decreases rules.len(),
{
    if rules.len() == 0 {
        Seq::empty()
    } else if rules.len() == 1 {
        spec_rule_css(rules[0])
    } else {
        spec_rules_css(rules.drop_last()) + "\n"@ + spec_rule_css(rules.last())
    }
}

/// The whole stylesheet: the body rule, then every rule in document order.
/// Order is a semantic contract — later rules win under the cascade.
pub open spec fn spec_sublime_stylesheet(t: ThemeV) -> Seq<char> {
    spec_body_rule(t.globals) + "\n"@ + spec_rules_css(t.rules)
}

impl SublimeColorScheme {
    /// One rule as stylesheet text: class selectors joined by commas, then a
    /// declaration block with the colors and one fragment per active font
    /// flag.
    #[verifier::rlimit(50)]
    pub fn serialize_rule(rule: &Rule) -> (r: String)
        ensures
            r@ == spec_rule_css(rule@),
    {
        let mut out = String::new();
        let n = rule.scope.0.len();
        let ghost scopes = rule.scope@;
        let mut i: usize = 0;
        proof {
            assert(scopes.take(0) =~= Seq::<Seq<char>>::empty());
            assert(out@ =~= spec_selector(scopes.take(0)));
        }
        while i < n
            invariant
                n == scopes.len(),
                scopes == rule.scope@,
                i <= n,
                out@ == spec_selector(scopes.take(i as int)),
            decreases n - i,
        {
            proof {
                assert(scopes.take(i + 1).last() == scopes[i as int]);
                assert(scopes.take(i + 1).drop_last() =~= scopes.take(i as int));
                assert(scopes[i as int] == rule.scope.0@[i as int]@);
            }
            if i > 0 {
                out.append(",");
            }
            out.append(".");
            out.append(rule.scope.0[i].as_str());
            proof {
                assert(out@ =~= spec_selector(scopes.take(i + 1)));
            }
            i = i + 1;
        }
        proof {
            assert(scopes.take(n as int) =~= scopes);
        }
        let ghost sel = out@;
        let ghost bg_part = (match rule@.background {
            Some(c) => "background-color:"@ + c + ";"@,
            None => Seq::<char>::empty(),
        });
        let ghost fg_part = (match rule@.foreground {
            Some(c) => "color:"@ + c + ";"@,
            None => Seq::<char>::empty(),
        });
        let ghost bold_part = (if rule@.bold {
            "font-weight:bold;"@
        } else {
            Seq::<char>::empty()
        });
        let ghost italic_part = (if rule@.italic {
            "font-style:italic;"@
        } else {
            Seq::<char>::empty()
        });
        let ghost underline_part = (if rule@.underline {
            "text-decoration:underline;"@
        } else {
            Seq::<char>::empty()
        });
        out.append("{");
        match &rule.background {
            Some(color) => {
                out.append("background-color:");
                out.append(color.0.as_str());
                out.append(";");
            },
            None => {},
        }
        proof {
            assert(out@ =~= sel + "{"@ + bg_part);
        }
        let ghost c1 = out@;
        match &rule.foreground {
            Some(color) => {
                out.append("color:");
                out.append(color.0.as_str());
                out.append(";");
            },
            None => {},
        }
        proof {
            assert(out@ =~= c1 + fg_part);
        }
        let ghost c2 = out@;
        if rule.font_style.bold {
            out.append("font-weight:bold;");
        }
        if rule.font_style.italic {
            out.append("font-style:italic;");
        }
        if rule.font_style.underline {
            out.append("text-decoration:underline;");
        }
        proof {
            assert(out@ =~= c2 + bold_part + italic_part + underline_part);
        }
        out.append("}");
        proof {
            assert(spec_rule_decl(rule@) == "{"@ + bg_part + fg_part + bold_part + italic_part
                + underline_part + "}"@);
            assert(out@ =~= sel + ("{"@ + bg_part + fg_part + bold_part + italic_part
                + underline_part + "}"@));
            assert(out@ =~= spec_rule_css(rule@));
        }
        out
    }
}

impl Stylesheet for SublimeColorScheme {
    open spec fn spec_stylesheet(&self) -> Seq<char> {
        spec_sublime_stylesheet(self@)
    }

    /// The whole stylesheet: the body rule with the global defaults, then
    /// every rule on its own line, in document order.
    fn build_stylesheet(&self) -> (r: String) {
        let mut out = String::new();
        out.append("body{");
        out.append("font-family:'JetBrains Mono', monospace;");
        match lookup_last(&self.globals, "background") {
            Some(color) => {
                let piece = color.clone();
                out.append("background:");
                out.append(piece.as_str());
                out.append(";");
            },
            None => {},
        }
        match lookup_last(&self.globals, "foreground") {
            Some(color) => {
                let piece = color.clone();
                out.append("color:");
                out.append(piece.as_str());
                out.append(";");
            },
            None => {},
        }
        out.append("}");
        proof {
            assert(out@ =~= spec_body_rule(self@.globals));
        }
        out.append("\n");
        let ghost body = out@;
        let n = self.rules.len();
        let ghost rules = self@.rules;
        let mut i: usize = 0;
        proof {
            assert(rules.take(0) =~= Seq::<RuleV>::empty());
            assert(out@ =~= body + spec_rules_css(rules.take(0)));
        }
        while i < n
            invariant
                n == rules.len(),
                rules == self@.rules,
                i <= n,
                out@ == body + spec_rules_css(rules.take(i as int)),
            decreases n - i,
        {
            proof {
                assert(rules.take(i + 1).last() == rules[i as int]);
                assert(rules.take(i + 1).drop_last() =~= rules.take(i as int));
                assert(rules[i as int] == self.rules@[i as int]@);
            }
            if i > 0 {
                out.append("\n");
            }
            let piece = SublimeColorScheme::serialize_rule(&self.rules[i]);
            out.append(piece.as_str());
            proof {
                assert(out@ =~= body + spec_rules_css(rules.take(i + 1)));
            }
            i = i + 1;
        }
        proof {
            assert(rules.take(n as int) =~= rules);
            assert(out@ =~= spec_sublime_stylesheet(self@));
        }
        out
    }
}


// ---------------------------------------------------------------------------
// Parsing a raw document
// ---------------------------------------------------------------------------

/// The part of a document a parse error points at.
#[derive(Clone, Copy, Debug, PartialEq, Eq, Structural)]
pub enum Field {
    Document,
    Name,
    Globals,
    GlobalValue,
    Rules,
    Rule,
    Scope,
    Color,
    FontStyle,
}

/// Why a raw document was rejected: the text is not well-formed JSON, a
/// required field is absent, or a field has the wrong shape.
#[derive(Clone, Copy, Debug, PartialEq, Eq, Structural)]
pub enum ParseError {
    Syntax { at: usize },
    Missing(Field),
    Bad(Field),
}

/// The first binding of `key` among an object's members; later duplicates
/// of a field are ignored.
pub open spec fn obj_get(ms: Seq<(Seq<char>, JsonV)>, key: Seq<char>) -> Option<JsonV>
    decreases ms.len(),
{
    if ms.len() == 0 {
        None
    } else if ms[0].0 == key {
        Some(ms[0].1)
    } else {
        obj_get(ms.drop_first(), key)
    }
}

/// One key/value pair as a sequence.
pub open spec fn one_pair(p: (Seq<char>, Seq<char>)) -> Seq<(Seq<char>, Seq<char>)> {
    seq![p]
}

/// One rule shape as a sequence.
pub open spec fn one_rule(r: RuleV) -> Seq<RuleV> {
    seq![r]
}

/// The global defaults an object denotes: every value must be a string.
pub open spec fn spec_globals_of(ms: Seq<(Seq<char>, JsonV)>) -> Result<
    Seq<(Seq<char>, Seq<char>)>,
    ParseError,
>
    decreases ms.len(),
{
    if ms.len() == 0 {
        Ok(Seq::empty())
    } else {
        match ms[0].1 {
            JsonV::Str(v) => match spec_globals_of(ms.drop_first()) {
                Ok(rest) => Ok(one_pair((ms[0].0, v)) + rest),
                Err(e) => Err(e),
            },
            _ => Err(ParseError::Bad(Field::GlobalValue)),
        }
    }
}

/// An optional string field: absent and `null` both mean none; any other
/// shape than a string is rejected with `Bad(f)`.
pub open spec fn spec_opt_string(v: Option<JsonV>, f: Field) -> Result<
    Option<Seq<char>>,
    ParseError,
> {
    match v {
        None => Ok(None),
        Some(JsonV::Null) => Ok(None),
        Some(JsonV::Str(s)) => Ok(Some(s)),
        Some(_) => Err(ParseError::Bad(f)),
    }
}

/// The rule one value denotes: an object with a required `scope` string,
/// optional `name` and color strings, and an optional `font_style` string
/// read as flags; anything else is rejected.
pub open spec fn spec_rule_of(v: JsonV) -> Result<RuleV, ParseError> {
    match v {
        JsonV::Obj(ms) => match spec_opt_string(obj_get(ms, "name"@), Field::Name) {
            Err(e) => Err(e),
            Ok(name) => match obj_get(ms, "scope"@) {
                None => Err(ParseError::Missing(Field::Scope)),
                Some(JsonV::Str(sc)) => match spec_opt_string(
                    obj_get(ms, "background"@),
                    Field::Color,
                ) {
                    Err(e) => Err(e),
                    Ok(bg) => match spec_opt_string(obj_get(ms, "foreground"@), Field::Color) {
                        Err(e) => Err(e),
                        Ok(fg) => match obj_get(ms, "font_style"@) {
                            None => Ok(
                                RuleV {
                                    name,
                                    scopes: spec_scopes(sc),
                                    background: bg,
                                    foreground: fg,
                                    bold: false,
                                    italic: false,
                                    underline: false,
                                },
                            ),
                            Some(JsonV::Str(fs)) => Ok(
                                RuleV {
                                    name,
                                    scopes: spec_scopes(sc),
                                    background: bg,
                                    foreground: fg,
                                    bold: has_substr(fs, "bold"@),
                                    italic: has_substr(fs, "italic"@),
                                    underline: has_substr(fs, "underline"@),
                                },
                            ),
                            Some(_) => Err(ParseError::Bad(Field::FontStyle)),
                        },
                    },
                },
                Some(_) => Err(ParseError::Bad(Field::Scope)),
            },
        },
        _ => Err(ParseError::Bad(Field::Rule)),
    }
}

/// The rules an array denotes, in order.
pub open spec fn spec_rules_of(vs: Seq<JsonV>) -> Result<Seq<RuleV>, ParseError>
    decreases vs.len(),
{
    if vs.len() == 0 {
        Ok(Seq::empty())
    } else {
        match spec_rule_of(vs[0]) {
            Err(e) => Err(e),
            Ok(r) => match spec_rules_of(vs.drop_first()) {
                Err(e) => Err(e),
                Ok(rest) => Ok(one_rule(r) + rest),
            },
        }
    }
}

/// The document a JSON value denotes: an object with a string `name`, an
/// object `globals` of string values, and an array `rules`.
pub open spec fn spec_theme_of(v: JsonV) -> Result<ThemeV, ParseError> {
    match v {
        JsonV::Obj(ms) => match obj_get(ms, "name"@) {
            None => Err(ParseError::Missing(Field::Name)),
            Some(JsonV::Str(nm)) => match obj_get(ms, "globals"@) {
                None => Err(ParseError::Missing(Field::Globals)),
                Some(JsonV::Obj(gs)) => match spec_globals_of(gs) {
                    Err(e) => Err(e),
                    Ok(globals) => match obj_get(ms, "rules"@) {
                        None => Err(ParseError::Missing(Field::Rules)),
                        Some(JsonV::Arr(rs)) => match spec_rules_of(rs) {
                            Err(e) => Err(e),
                            Ok(rules) => Ok(ThemeV { name: nm, globals, rules }),
                        },
                        Some(_) => Err(ParseError::Bad(Field::Rules)),
                    },
                },
                Some(_) => Err(ParseError::Bad(Field::Globals)),
            },
            Some(_) => Err(ParseError::Bad(Field::Name)),
        },
        _ => Err(ParseError::Bad(Field::Document)),
    }
}

proof fn lemma_obj_view_len(ms: Seq<(String, JsonValue)>)
    ensures
        obj_view(ms).len() == ms.len(),
    decreases ms.len(),
{
    if ms.len() > 0 {
        lemma_obj_view_len(ms.drop_first());
    }
}

proof fn lemma_obj_view_index(ms: Seq<(String, JsonValue)>, i: int)
    requires
        0 <= i < ms.len(),
    ensures
        obj_view(ms).len() == ms.len(),
        obj_view(ms)[i] == (ms[i].0@, json_view(ms[i].1)),
    decreases i,
{
    lemma_obj_view_len(ms);
    if i == 0 {
        lemma_obj_view_len(ms.drop_first());
    } else {
        lemma_obj_view_index(ms.drop_first(), i - 1);
    }
}

proof fn lemma_arr_view_len(xs: Seq<JsonValue>)
    ensures
        arr_view(xs).len() == xs.len(),
    decreases xs.len(),
{
    if xs.len() > 0 {
        lemma_arr_view_len(xs.drop_first());
    }
}

proof fn lemma_arr_view_index(xs: Seq<JsonValue>, i: int)
    requires
        0 <= i < xs.len(),
    ensures
        arr_view(xs).len() == xs.len(),
        arr_view(xs)[i] == json_view(xs[i]),
    decreases i,
{
    lemma_arr_view_len(xs);
    if i == 0 {
        lemma_arr_view_len(xs.drop_first());
    } else {
        lemma_arr_view_index(xs.drop_first(), i - 1);
    }
}

/// Looks a field up among an object's members; the first binding wins.
fn json_obj_get<'a>(ms: &'a Vec<(String, JsonValue)>, key: &str) -> (r: Option<&'a JsonValue>)
    ensures
        match r {
            Some(v) => obj_get(obj_view(ms@), key@) == Some(v@),
            None => obj_get(obj_view(ms@), key@) is None,
        },
{
    let ghost view = obj_view(ms@);
    let n = ms.len();
    let mut idx: usize = 0;
    proof {
        assert(view.skip(0) =~= view);
        lemma_obj_view_len(ms@);
    }
    while idx < n
        invariant
            n == ms@.len(),
            idx <= n,
            view == obj_view(ms@),
            view.len() == n,
            obj_get(view, key@) == obj_get(view.skip(idx as int), key@),
        decreases n - idx,
    {
        proof {
            lemma_obj_view_index(ms@, idx as int);
            assert(view.skip(idx as int)[0] == view[idx as int]);
            assert(view.skip(idx as int).drop_first() =~= view.skip(idx + 1));
        }
        if str_eq(ms[idx].0.as_str(), key) {
            return Some(&ms[idx].1);
        }
        idx = idx + 1;
    }
    proof {
        assert(view.skip(n as int) =~= Seq::<(Seq<char>, JsonV)>::empty());
    }
    None
}

/// Reads an optional string field: absent and `null` mean none; any other
/// shape than a string is rejected.
fn opt_string_of(v: Option<&JsonValue>, f: Field) -> (r: Result<Option<String>, ParseError>)
    ensures
        ({
            let vv = match v {
                Some(x) => Some(x@),
                None => None::<JsonV>,
            };
            match r {
                Ok(os) => spec_opt_string(vv, f) == Ok::<Option<Seq<char>>, ParseError>(
                    match os {
                        Some(s) => Some(s@),
                        None => None,
                    },
                ),
                Err(e) => spec_opt_string(vv, f) == Err::<Option<Seq<char>>, ParseError>(e) && !(e is Syntax),
            }
        }),
{
    match v {
        None => Ok(None),
        Some(jv) => match jv {
            JsonValue::Null => Ok(None),
            JsonValue::Str(s) => Ok(Some(s.clone())),
            _ => Err(ParseError::Bad(f)),
        },
    }
}

/// Reads one rule from a JSON value.
fn rule_of(v: &JsonValue) -> (r: Result<Rule, ParseError>)
    ensures
        match r {
            Ok(rule) => spec_rule_of(v@) == Ok::<RuleV, ParseError>(rule@),
            Err(e) => spec_rule_of(v@) == Err::<RuleV, ParseError>(e) && !(e is Syntax),
        },
{
    match v {
        JsonValue::Obj(ms) => {
            let name = match opt_string_of(json_obj_get(ms, "name"), Field::Name) {
                Ok(n) => n,
                Err(e) => {
                    return Err(e);
                },
            };
            let scope = match json_obj_get(ms, "scope") {
                None => {
                    return Err(ParseError::Missing(Field::Scope));
                },
                Some(sv) => match sv {
                    JsonValue::Str(sc) => Scopes::parse(sc.as_str()),
                    _ => {
                        return Err(ParseError::Bad(Field::Scope));
                    },
                },
            };
            let background = match opt_string_of(json_obj_get(ms, "background"), Field::Color) {
                Ok(Some(c)) => Some(Color(c)),
                Ok(None) => None,
                Err(e) => {
                    return Err(e);
                },
            };
            let foreground = match opt_string_of(json_obj_get(ms, "foreground"), Field::Color) {
                Ok(Some(c)) => Some(Color(c)),
                Ok(None) => None,
                Err(e) => {
                    return Err(e);
                },
            };
            let font_style = match json_obj_get(ms, "font_style") {
                None => FontStyle::none(),
                Some(fv) => match fv {
                    JsonValue::Str(fs) => FontStyle::parse(fs.as_str()),
                    _ => {
                        return Err(ParseError::Bad(Field::FontStyle));
                    },
                },
            };
            Ok(Rule { name, scope, background, foreground, font_style })
        },
        _ => Err(ParseError::Bad(Field::Rule)),
    }
}

/// Reads the global defaults from an object's members.
fn globals_of(gs: &Vec<(String, JsonValue)>) -> (r: Result<Vec<(String, String)>, ParseError>)
    ensures
        match r {
            Ok(out) => spec_globals_of(obj_view(gs@)) == Ok::<Seq<(Seq<char>, Seq<char>)>, ParseError>(
                pairs_view(out@),
            ),
            Err(e) => spec_globals_of(obj_view(gs@)) == Err::<Seq<(Seq<char>, Seq<char>)>, ParseError>(
                e,
            ) && !(e is Syntax),
        },
{
    let ghost view = obj_view(gs@);
    let n = gs.len();
    let mut out: Vec<(String, String)> = Vec::new();
    let mut j: usize = 0;
    proof {
        assert(view.skip(0) =~= view);
        lemma_obj_view_len(gs@);
        assert(pairs_view(out@) =~= Seq::<(Seq<char>, Seq<char>)>::empty());
    }
    while j < n
        invariant
            n == gs@.len(),
            j <= n,
            view == obj_view(gs@),
            view.len() == n,
            forall|rest: Seq<(Seq<char>, Seq<char>)>|
                spec_globals_of(view.skip(j as int)) == Ok::<
                    Seq<(Seq<char>, Seq<char>)>,
                    ParseError,
                >(rest) ==> spec_globals_of(view) == Ok::<Seq<(Seq<char>, Seq<char>)>, ParseError>(
                    pairs_view(out@) + rest,
                ),
            forall|e: ParseError|
                spec_globals_of(view.skip(j as int)) == Err::<
                    Seq<(Seq<char>, Seq<char>)>,
                    ParseError,
                >(e) ==> spec_globals_of(view) == Err::<Seq<(Seq<char>, Seq<char>)>, ParseError>(e),
        decreases n - j,
    {
        proof {
            lemma_obj_view_index(gs@, j as int);
            assert(view.skip(j as int)[0] == view[j as int]);
            assert(view.skip(j as int).drop_first() =~= view.skip(j + 1));
        }
        let ghost out_before = out@;
        match &gs[j].1 {
            JsonValue::Str(val) => {
                out.push((gs[j].0.clone(), val.clone()));
                proof {
                    assert(pairs_view(out@) =~= pairs_view(out_before).push(
                        (gs@[j as int].0@, gs@[j as int].1->Str_0@),
                    ));
                    assert forall|rest: Seq<(Seq<char>, Seq<char>)>|
                        spec_globals_of(view.skip(j + 1)) == Ok::<
                            Seq<(Seq<char>, Seq<char>)>,
                            ParseError,
                        >(rest) implies spec_globals_of(view) == Ok::<
                        Seq<(Seq<char>, Seq<char>)>,
                        ParseError,
                    >(pairs_view(out@) + rest) by {
                        assert(spec_globals_of(view.skip(j as int)) == Ok::<
                            Seq<(Seq<char>, Seq<char>)>,
                            ParseError,
                        >(one_pair((view[j as int].0, view[j as int].1->Str_0)) + rest));
                        assert(pairs_view(out_before) + (one_pair((view[j as int].0, view[j as int].1->Str_0)) + rest)
                            =~= pairs_view(out@) + rest);
                    }
                }
            },
            _ => {
                proof {
                    assert(spec_globals_of(view.skip(j as int)) == Err::<
                        Seq<(Seq<char>, Seq<char>)>,
                        ParseError,
                    >(ParseError::Bad(Field::GlobalValue)));
                }
                return Err(ParseError::Bad(Field::GlobalValue));
            },
        }
        j = j + 1;
    }
    proof {
        assert(view.skip(n as int) =~= Seq::<(Seq<char>, JsonV)>::empty());
        assert(spec_globals_of(view.skip(n as int)) == Ok::<Seq<(Seq<char>, Seq<char>)>, ParseError>(
            Seq::empty(),
        ));
        assert(pairs_view(out@) + Seq::<(Seq<char>, Seq<char>)>::empty() =~= pairs_view(out@));
    }
    Ok(out)
}

/// Reads the rules from an array's elements.
fn rules_of(rs: &Vec<JsonValue>) -> (r: Result<Vec<Rule>, ParseError>)
    ensures
        match r {
            Ok(out) => spec_rules_of(arr_view(rs@)) == Ok::<Seq<RuleV>, ParseError>(
                rules_view(out@),
            ),
            Err(e) => spec_rules_of(arr_view(rs@)) == Err::<Seq<RuleV>, ParseError>(e) && !(e is Syntax),
        },
{
    let ghost view = arr_view(rs@);
    let n = rs.len();
    let mut out: Vec<Rule> = Vec::new();
    let mut j: usize = 0;
    proof {
        assert(view.skip(0) =~= view);
        lemma_arr_view_len(rs@);
        assert(rules_view(out@) =~= Seq::<RuleV>::empty());
    }
    while j < n
        invariant
            n == rs@.len(),
            j <= n,
            view == arr_view(rs@),
            view.len() == n,
            forall|rest: Seq<RuleV>|
                spec_rules_of(view.skip(j as int)) == Ok::<Seq<RuleV>, ParseError>(rest)
                    ==> spec_rules_of(view) == Ok::<Seq<RuleV>, ParseError>(
                    rules_view(out@) + rest,
                ),
            forall|e: ParseError|
                spec_rules_of(view.skip(j as int)) == Err::<Seq<RuleV>, ParseError>(e)
                    ==> spec_rules_of(view) == Err::<Seq<RuleV>, ParseError>(e),
        decreases n - j,
    {
        proof {
            lemma_arr_view_index(rs@, j as int);
            assert(view.skip(j as int)[0] == view[j as int]);
            assert(view.skip(j as int).drop_first() =~= view.skip(j + 1));
        }
        let ghost out_before = out@;
        match rule_of(&rs[j]) {
            Ok(rule) => {
                let ghost rv = rule@;
                out.push(rule);
                proof {
                    assert(rules_view(out@) =~= rules_view(out_before).push(rv));
                    assert forall|rest: Seq<RuleV>|
                        spec_rules_of(view.skip(j + 1)) == Ok::<Seq<RuleV>, ParseError>(
                            rest,
                        ) implies spec_rules_of(view) == Ok::<Seq<RuleV>, ParseError>(
                        rules_view(out@) + rest,
                    ) by {
                        assert(spec_rules_of(view.skip(j as int)) == Ok::<Seq<RuleV>, ParseError>(
                            one_rule(rv) + rest,
                        ));
                        assert(rules_view(out_before) + (one_rule(rv) + rest) =~= rules_view(out@)
                            + rest);
                    }
                }
            },
            Err(e) => {
                proof {
                    assert(spec_rules_of(view.skip(j as int)) == Err::<Seq<RuleV>, ParseError>(e));
                }
                return Err(e);
            },
        }
        j = j + 1;
    }
    proof {
        assert(view.skip(n as int) =~= Seq::<JsonV>::empty());
        assert(spec_rules_of(view.skip(n as int)) == Ok::<Seq<RuleV>, ParseError>(Seq::empty()));
        assert(rules_view(out@) + Seq::<RuleV>::empty() =~= rules_view(out@));
    }
    Ok(out)
}

/// Reads a whole document from a JSON value.
fn theme_of(v: &JsonValue) -> (r: Result<SublimeColorScheme, ParseError>)
    ensures
        match r {
            Ok(t) => spec_theme_of(v@) == Ok::<ThemeV, ParseError>(t@),
            Err(e) => spec_theme_of(v@) == Err::<ThemeV, ParseError>(e) && !(e is Syntax),
        },
{
    match v {
        JsonValue::Obj(ms) => {
            let name = match json_obj_get(ms, "name") {
                None => {
                    return Err(ParseError::Missing(Field::Name));
                },
                Some(nv) => match nv {
                    JsonValue::Str(nm) => nm.clone(),
                    _ => {
                        return Err(ParseError::Bad(Field::Name));
                    },
                },
            };
            let globals = match json_obj_get(ms, "globals") {
                None => {
                    return Err(ParseError::Missing(Field::Globals));
                },
                Some(gv) => match gv {
                    JsonValue::Obj(gs) => match globals_of(gs) {
                        Ok(g) => g,
                        Err(e) => {
                            return Err(e);
                        },
                    },
                    _ => {
                        return Err(ParseError::Bad(Field::Globals));
                    },
                },
            };
            let rules = match json_obj_get(ms, "rules") {
                None => {
                    return Err(ParseError::Missing(Field::Rules));
                },
                Some(rv) => match rv {
                    JsonValue::Arr(rs) => match rules_of(rs) {
                        Ok(r) => r,
                        Err(e) => {
                            return Err(e);
                        },
                    },
                    _ => {
                        return Err(ParseError::Bad(Field::Rules));
                    },
                },
            };
            Ok(SublimeColorScheme { name, globals, rules })
        },
        _ => Err(ParseError::Bad(Field::Document)),
    }
}

impl SublimeColorScheme {
    /// Parses a raw color-scheme document.  Succeeds exactly on well-formed
    /// JSON of the documented shape, returning the document it denotes; a
    /// syntax error reports a position, the other errors name the field at
    /// fault.
    pub fn parse(raw: &str) -> (r: Result<SublimeColorScheme, ParseError>)
        ensures
            match r {
                Ok(t) => spec_json(raw@) is Some && spec_theme_of(spec_json(raw@)->0) == Ok::<
                    ThemeV,
                    ParseError,
                >(t@),
                Err(e) => match e {
                    ParseError::Syntax { .. } => spec_json(raw@) is None,
                    _ => spec_json(raw@) is Some && spec_theme_of(spec_json(raw@)->0) == Err::<
                        ThemeV,
                        ParseError,
                    >(e),
                },
            },
    {
        match crate::json::parse(raw) {
            Err(je) => Err(ParseError::Syntax { at: je.at }),
            Ok(doc) => theme_of(&doc),
        }
    }
}

/// Translation is a function of the text alone: two parses of the same raw
/// document denote the same document, and therefore the same stylesheet
/// text — there is no hidden state and no unordered iteration.
pub proof fn lemma_translation_deterministic(raw: Seq<char>, t1: ThemeV, t2: ThemeV)
    requires
        spec_json(raw) is Some,
        spec_theme_of(spec_json(raw)->0) == Ok::<ThemeV, ParseError>(t1),
        spec_theme_of(spec_json(raw)->0) == Ok::<ThemeV, ParseError>(t2),
    ensures
        spec_sublime_stylesheet(t1) == spec_sublime_stylesheet(t2),
{
}

/// The font flags appear in a rule's declarations exactly as set: bold adds
/// `font-weight:bold;`, italic adds `font-style:italic;`, and with all
/// flags clear the declarations hold the braces and colors alone.
pub proof fn lemma_font_flags_in_declaration(r: RuleV)
    ensures
        r.bold ==> has_substr(spec_rule_decl(r), "font-weight:bold;"@),
        r.italic ==> has_substr(spec_rule_decl(r), "font-style:italic;"@),
        r.underline ==> has_substr(spec_rule_decl(r), "text-decoration:underline;"@),
        (!r.bold && !r.italic && !r.underline) ==> spec_rule_decl(r) == "{"@ + (match r.background {
            Some(c) => "background-color:"@ + c + ";"@,
            None => Seq::<char>::empty(),
        }) + (match r.foreground {
            Some(c) => "color:"@ + c + ";"@,
            None => Seq::<char>::empty(),
        }) + "}"@,
{
    let bg_part = (match r.background {
        Some(c) => "background-color:"@ + c + ";"@,
        None => Seq::<char>::empty(),
    });
    let fg_part = (match r.foreground {
        Some(c) => "color:"@ + c + ";"@,
        None => Seq::<char>::empty(),
    });
    let italic_part = (if r.italic {
        "font-style:italic;"@
    } else {
        Seq::<char>::empty()
    });
    let underline_part = (if r.underline {
        "text-decoration:underline;"@
    } else {
        Seq::<char>::empty()
    });
    if r.bold {
        let pre = "{"@ + bg_part + fg_part;
        let post = italic_part + underline_part + "}"@;
        crate::scan::lemma_has_substr_concat(pre, "font-weight:bold;"@, post);
        assert(spec_rule_decl(r) =~= pre + "font-weight:bold;"@ + post);
    }
    if r.italic {
        let bold_part = (if r.bold {
            "font-weight:bold;"@
        } else {
            Seq::<char>::empty()
        });
        let pre = "{"@ + bg_part + fg_part + bold_part;
        let post = underline_part + "}"@;
        crate::scan::lemma_has_substr_concat(pre, "font-style:italic;"@, post);
        assert(spec_rule_decl(r) =~= pre + "font-style:italic;"@ + post);
    }
    if r.underline {
        let bold_part = (if r.bold {
            "font-weight:bold;"@
        } else {
            Seq::<char>::empty()
        });
        let pre = "{"@ + bg_part + fg_part + bold_part + italic_part;
        let post = "}"@;
        crate::scan::lemma_has_substr_concat(pre, "text-decoration:underline;"@, post);
        assert(spec_rule_decl(r) =~= pre + "text-decoration:underline;"@ + post);
    }
    if !r.bold && !r.italic && !r.underline {
        assert(spec_rule_decl(r) =~= "{"@ + bg_part + fg_part + "}"@);
    }
}

} // verus!
