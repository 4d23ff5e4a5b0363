use dmenu_core::config::parse_default_width;
use dmenu_core::config::parse_i32;
use dmenu_core::config::parse_u32;
use dmenu_core::config::parse_u64;
use dmenu_core::config::validate_color;
use dmenu_core::config::Clrs;
use dmenu_core::config::Config;
use dmenu_core::config::DefaultWidth;
use dmenu_core::config::Schemes;

fn chars(s: &str) -> Vec<char> {
    s.chars().collect()
}

#[test]
fn default_config_values() {
    let c = Config::default();
    assert_eq!(c.lines, 0);
    assert!(c.topbar);
    assert_eq!(c.prompt, "");
    assert_eq!(c.fontstrings, vec!["mono:size=10"]);
    assert!(c.case_sensitive);
    assert_eq!(c.mon, -1);
    assert_eq!(c.colors.len(), 3);
    assert_eq!(c.colors[Schemes::SchemeNorm.index()].fg, "#bbbbbb");
    assert_eq!(c.colors[Schemes::SchemeNorm.index()].bg, "#222222");
    assert_eq!(c.colors[Schemes::SchemeSel.index()].fg, "#eeeeee");
    assert_eq!(c.colors[Schemes::SchemeSel.index()].bg, "#005577");
    assert_eq!(c.colors[Schemes::SchemeOut.index()].fg, "#000000");
    assert_eq!(c.colors[Schemes::SchemeOut.index()].bg, "#00ffff");
    assert_eq!(c.render_minheight, 4);
    assert_eq!(c.render_default_width, DefaultWidth::Items);
    assert!(!c.nostdin);
}

#[test]
fn scheme_and_color_slots() {
    assert_eq!(Schemes::SchemeNorm.index(), 0);
    assert_eq!(Schemes::SchemeSel.index(), 1);
    assert_eq!(Schemes::SchemeOut.index(), 2);
    assert_eq!(Schemes::SchemeLast.index(), 3);
    assert_eq!(Clrs::ColFg.index(), 0);
    assert_eq!(Clrs::ColBg.index(), 1);
}

#[test]
fn color_validation() {
    assert!(validate_color(&chars("#1a2b3c")));
    assert!(validate_color(&chars("#AB9")));
    assert!(!validate_color(&chars("1a2b3c")));
    assert!(!validate_color(&chars("#1a2b3")));
    assert!(!validate_color(&chars("#1a2b3g")));
    assert!(!validate_color(&chars("#")));
    assert!(!validate_color(&chars("")));
}

#[test]
fn unsigned_parsing() {
    assert_eq!(parse_u32(&chars("42")), Some(42));
    assert_eq!(parse_u32(&chars("+7")), Some(7));
    assert_eq!(parse_u32(&chars("007")), Some(7));
    assert_eq!(parse_u32(&chars("")), None);
    assert_eq!(parse_u32(&chars("+")), None);
    assert_eq!(parse_u32(&chars("4x")), None);
    assert_eq!(parse_u32(&chars("4294967295")), Some(u32::MAX));
    assert_eq!(parse_u32(&chars("4294967296")), None);
    assert_eq!(parse_u64(&chars("18446744073709551615")), Some(u64::MAX));
    assert_eq!(parse_u64(&chars("18446744073709551616")), None);
}

#[test]
fn signed_parsing() {
    assert_eq!(parse_i32(&chars("-5")), Some(-5));
    assert_eq!(parse_i32(&chars("-0")), Some(0));
    assert_eq!(parse_i32(&chars("-+5")), None);
    assert_eq!(parse_i32(&chars("-")), None);
    assert_eq!(parse_i32(&chars("2147483647")), Some(i32::MAX));
    assert_eq!(parse_i32(&chars("2147483648")), None);
    assert_eq!(parse_i32(&chars("-2147483648")), Some(i32::MIN));
    assert_eq!(parse_i32(&chars("-2147483649")), None);
}

#[test]
fn default_width_arguments() {
    assert_eq!(parse_default_width(&chars("min")), Some(DefaultWidth::Min));
    assert_eq!(parse_default_width(&chars("items")), Some(DefaultWidth::Items));
    assert_eq!(parse_default_width(&chars("max")), Some(DefaultWidth::Max));
    assert_eq!(parse_default_width(&chars("custom=50")), Some(DefaultWidth::Custom(50)));
    assert_eq!(parse_default_width(&chars("custom=0")), Some(DefaultWidth::Custom(0)));
    assert_eq!(parse_default_width(&chars("custom=100")), Some(DefaultWidth::Custom(100)));
    assert_eq!(parse_default_width(&chars("custom=101")), None);
    assert_eq!(parse_default_width(&chars("custom=")), None);
    assert_eq!(parse_default_width(&chars("custom=5=2")), None);
    assert_eq!(parse_default_width(&chars("wide=5")), None);
    assert_eq!(parse_default_width(&chars("minimal")), None);
}
