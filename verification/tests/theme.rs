//! Tests for the theme translator: document parsing, scope and font-style
//! fields, stylesheet serialization, and the error taxonomy.

use code_svg::custom_colors::{SimpleColors, StyleDecl, ThemeItem};
use code_svg::scan::lookup_last;
use code_svg::stylesheet::Stylesheet;
use code_svg::sublime_colors::{Field, FontStyle, ParseError, Scopes, SublimeColorScheme};

const SAMPLE: &str = r##"{
  "name": "sample scheme",
  "globals": {"background": "#0f1419", "foreground": "#e6e1cf"},
  "rules": [
    {"name": "Comment", "scope": "comment, punctuation.comment", "foreground": "#5c6773", "font_style": "italic"},
    {"scope": "string", "foreground": "#aad94c"}
  ]
}"##;

#[test]
fn sublime_parsing() {
    let scheme = SublimeColorScheme::parse(SAMPLE).unwrap();
    assert_eq!(scheme.name, "sample scheme");
    assert_eq!(
        lookup_last(&scheme.globals, "background").unwrap().as_str(),
        "#0f1419"
    );
    assert_eq!(scheme.rules.len(), 2);
    assert_eq!(scheme.rules[0].scope.0, vec!["comment", "punctuation.comment"]);
    assert!(scheme.rules[0].font_style.italic);
    assert!(!scheme.rules[0].font_style.bold);
    let expected = "body{font-family:'JetBrains Mono', monospace;background:#0f1419;color:#e6e1cf;}\n\
                    .comment,.punctuation.comment{color:#5c6773;font-style:italic;}\n\
                    .string{color:#aad94c;}";
    assert_eq!(scheme.build_stylesheet(), expected);
}

#[test]
fn translation_is_repeatable() {
    // Parsing and rendering the same raw text twice yields identical
    // stylesheet output.
    let first = SublimeColorScheme::parse(SAMPLE).unwrap().build_stylesheet();
    let second = SublimeColorScheme::parse(SAMPLE).unwrap().build_stylesheet();
    assert_eq!(first, second);
}

#[test]
fn font_style_flags_are_independent() {
    let both = FontStyle::parse("bold italic");
    assert!(both.bold);
    assert!(both.italic);
    assert!(!both.underline);
    let none = FontStyle::parse("");
    assert!(!none.bold && !none.italic && !none.underline);
    let all = FontStyle::parse("underline bold italic");
    assert!(all.bold && all.italic && all.underline);
}

#[test]
fn bold_italic_rule_emits_both_fragments() {
    let raw = r#"{"name":"x","globals":{},"rules":[{"scope":"kw","font_style":"bold italic"},{"scope":"txt"}]}"#;
    let scheme = SublimeColorScheme::parse(raw).unwrap();
    let css = scheme.build_stylesheet();
    assert!(css.contains(".kw{font-weight:bold;font-style:italic;}"));
    // The rule without a font-style field emits neither fragment.
    assert!(css.contains(".txt{}"));
}

#[test]
fn scope_splitting_trims_and_drops_empties() {
    assert_eq!(Scopes::parse("a, b  c").0, vec!["a", "b", "c"]);
    assert_eq!(Scopes::parse("  ,  ").0, Vec::<String>::new());
    assert_eq!(Scopes::parse("one").0, vec!["one"]);
    assert_eq!(Scopes::parse("a,,b").0, vec!["a", "b"]);
    assert_eq!(Scopes::parse("\tx ,y\t").0, vec!["x", "y"]);
}

#[test]
fn parse_errors_name_the_fault() {
    assert!(matches!(
        SublimeColorScheme::parse("{"),
        Err(ParseError::Syntax { .. })
    ));
    assert_eq!(
        SublimeColorScheme::parse(r#"{"globals":{},"rules":[]}"#),
        Err(ParseError::Missing(Field::Name))
    );
    assert_eq!(
        SublimeColorScheme::parse(r#"{"name":"x","rules":[]}"#),
        Err(ParseError::Missing(Field::Globals))
    );
    assert_eq!(
        SublimeColorScheme::parse(r#"{"name":"x","globals":{}}"#),
        Err(ParseError::Missing(Field::Rules))
    );
    assert_eq!(
        SublimeColorScheme::parse(r#"{"name":1,"globals":{},"rules":[]}"#),
        Err(ParseError::Bad(Field::Name))
    );
    assert_eq!(
        SublimeColorScheme::parse(r#"{"name":"x","globals":[],"rules":[]}"#),
        Err(ParseError::Bad(Field::Globals))
    );
    assert_eq!(
        SublimeColorScheme::parse(r#"{"name":"x","globals":{"a":1},"rules":[]}"#),
        Err(ParseError::Bad(Field::GlobalValue))
    );
    assert_eq!(
        SublimeColorScheme::parse(r#"{"name":"x","globals":{},"rules":{}}"#),
        Err(ParseError::Bad(Field::Rules))
    );
    assert_eq!(
        SublimeColorScheme::parse(r#"{"name":"x","globals":{},"rules":[7]}"#),
        Err(ParseError::Bad(Field::Rule))
    );
    assert_eq!(
        SublimeColorScheme::parse(r##"{"name":"x","globals":{},"rules":[{"foreground":"#fff"}]}"##),
        Err(ParseError::Missing(Field::Scope))
    );
    assert_eq!(
        SublimeColorScheme::parse(r#"{"name":"x","globals":{},"rules":[{"scope":3}]}"#),
        Err(ParseError::Bad(Field::Scope))
    );
    assert_eq!(
        SublimeColorScheme::parse(r#"{"name":"x","globals":{},"rules":[{"scope":"s","background":3}]}"#),
        Err(ParseError::Bad(Field::Color))
    );
    assert_eq!(
        SublimeColorScheme::parse(r#"{"name":"x","globals":{},"rules":[{"scope":"s","font_style":3}]}"#),
        Err(ParseError::Bad(Field::FontStyle))
    );
    assert_eq!(
        SublimeColorScheme::parse("[]"),
        Err(ParseError::Bad(Field::Document))
    );
}

#[test]
fn null_optional_fields_read_as_absent() {
    let raw = r#"{"name":"x","globals":{},"rules":[{"name":null,"scope":"s","background":null}]}"#;
    let scheme = SublimeColorScheme::parse(raw).unwrap();
    assert!(scheme.rules[0].name.is_none());
    assert!(scheme.rules[0].background.is_none());
    assert_eq!(scheme.build_stylesheet(), "body{font-family:'JetBrains Mono', monospace;}\n.s{}");
}

#[test]
fn later_global_bindings_override_earlier_ones() {
    let raw = r##"{"name":"x","globals":{"background":"#111","background":"#222"},"rules":[]}"##;
    let scheme = SublimeColorScheme::parse(raw).unwrap();
    assert_eq!(lookup_last(&scheme.globals, "background").unwrap().as_str(), "#222");
    assert_eq!(
        scheme.build_stylesheet(),
        "body{font-family:'JetBrains Mono', monospace;background:#222;}\n"
    );
}

#[test]
fn simple_colors_stylesheet() {
    let theme = SimpleColors(vec![
        (String::from("bg"), String::from("#000")),
        (String::from("fg"), String::from("#fff")),
        (String::from("keyword"), String::from("#f00")),
    ]);
    let expected = "body{background-color:#000;color:#fff;}\n\
                    .bg{color:#000}\n.fg{color:#fff}\n.keyword{color:#f00}";
    assert_eq!(theme.build_stylesheet(), expected);
}

#[test]
fn simple_colors_without_defaults() {
    let theme = SimpleColors(vec![(String::from("string"), String::from("#0f0"))]);
    assert_eq!(theme.build_stylesheet(), "body{}\n.string{color:#0f0}");
}

#[test]
fn bare_scalar_and_object_form_agree() {
    // The color-only shorthand and the object form with the same color must
    // produce identical stylesheet output.
    let palette = vec![(94, String::from("#875f00")), (26, String::from("#005fd7"))];
    let shorthand = ThemeItem::JustColor(94).to_style();
    let object_form = ThemeItem::Advanced {
        color: Some(94),
        bold: None,
        underline: None,
        italic: None,
    }
    .to_style();
    assert_eq!(shorthand, object_form);
    assert_eq!(
        shorthand.declaration(&palette).unwrap(),
        object_form.declaration(&palette).unwrap()
    );
    assert_eq!(shorthand.declaration(&palette).unwrap(), "color:#875f00;");
}

#[test]
fn style_declarations_carry_the_flags() {
    let palette = vec![(7, String::from("#abc"))];
    let decl = ThemeItem::Advanced {
        color: Some(7),
        bold: Some(true),
        underline: Some(true),
        italic: Some(false),
    }
    .to_style();
    assert_eq!(
        decl.declaration(&palette).unwrap(),
        "color:#abc;font-weight:bold;text-decoration:underline;"
    );
    let flags_only = StyleDecl { color: None, bold: false, italic: true, underline: false };
    assert_eq!(flags_only.declaration(&palette).unwrap(), "font-style:italic;");
    let missing = StyleDecl { color: Some(99), bold: false, italic: false, underline: false };
    assert!(missing.declaration(&palette).is_none());
}
