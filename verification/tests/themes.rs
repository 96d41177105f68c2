//! Built-in and custom themes, and which one is in use.
use bookokrat::theme::{
    all_theme_names, current_theme, current_theme_index, current_theme_name, get_theme_index_by_name,
    load_custom_themes, parse_hex_color, set_theme_by_index, set_theme_by_index_and_save, set_theme_by_name,
    theme_count, theme_from_yaml, theme_name, BuiltinTheme, ColorParseError, ThemeRegistry, ThemeSource,
};

fn source(name: &str, first: &str) -> ThemeSource {
    let c = |s: &str| s.to_string();
    ThemeSource {
        scheme: c(name),
        base00: c(first),
        base01: c("#010101"),
        base02: c("#020202"),
        base03: c("#030303"),
        base04: c("#040404"),
        base05: c("#050505"),
        base06: c("#060606"),
        base07: c("#070707"),
        base08: c("#080808"),
        base09: c("#090909"),
        base0a: c("#0a0a0a"),
        base0b: c("#0b0b0b"),
        base0c: c("#0c0c0c"),
        base0d: c("#0d0d0d"),
        base0e: c("#0e0e0e"),
        base0f: c("0F0F0F"),
    }
}

#[test]
fn builtin_themes_come_first_in_their_order() {
    let registry = ThemeRegistry::new();
    assert_eq!(theme_count(&registry), 4);
    assert_eq!(
        all_theme_names(&registry),
        vec!["Oceanic Next", "Catppuccin Mocha", "Kanagawa", "Kanagawa Dragon"]
    );
    assert_eq!(current_theme_index(&registry), 0);
    assert_eq!(current_theme_name(&registry), "Oceanic Next");
    assert_eq!(theme_name(&registry, 7), "Unknown");
    assert_eq!(BuiltinTheme::all().len(), 4);
    assert_eq!(BuiltinTheme::KanagawaDragon.name(), "Kanagawa Dragon");
    assert_eq!(BuiltinTheme::OceanicNext.palette().base_00, 0x1B2B34);
    assert_eq!(current_theme(&registry).base_08, 0xEC5F67);
}

#[test]
fn hex_colors_parse_as_from_str_radix_does() {
    assert_eq!(parse_hex_color("#1B2B34"), Ok(0x1B2B34));
    assert_eq!(parse_hex_color("##ff"), Ok(0xff));
    assert_eq!(parse_hex_color("+ff"), Ok(0xff));
    assert_eq!(parse_hex_color("ffffffff"), Ok(0xffff_ffff));
    assert_eq!(parse_hex_color(""), Err(ColorParseError::Empty));
    assert_eq!(parse_hex_color("###"), Err(ColorParseError::Empty));
    assert_eq!(parse_hex_color("+"), Err(ColorParseError::InvalidDigit));
    assert_eq!(parse_hex_color("#12zz"), Err(ColorParseError::InvalidDigit));
    assert_eq!(parse_hex_color("#1ffffffff"), Err(ColorParseError::Overflow));
}

#[test]
fn a_theme_source_with_a_bad_color_is_refused() {
    assert!(theme_from_yaml(&source("Bad", "#xyz")).is_err());
    let t = theme_from_yaml(&source("Good", "#102030")).unwrap();
    assert_eq!(t.name, "Good");
    assert_eq!(t.palette.base_00, 0x102030);
    assert_eq!(t.palette.base_0f, 0x0F0F0F);
    assert!(!t.is_builtin);
}

#[test]
fn custom_themes_are_sorted_and_the_saved_one_selected() {
    let mut registry = ThemeRegistry::new();
    let sources = vec![source("Zeta", "#000001"), source("Broken", "nothex"), source("Alpha", "#000002")];
    load_custom_themes(&mut registry, &sources, "Zeta");
    assert_eq!(theme_count(&registry), 6);
    assert_eq!(theme_name(&registry, 4), "Alpha");
    assert_eq!(theme_name(&registry, 5), "Zeta");
    assert_eq!(current_theme_index(&registry), 5);
    assert_eq!(current_theme(&registry).base_00, 1);
    assert_eq!(get_theme_index_by_name(&registry, "Alpha"), Some(4));
    assert_eq!(get_theme_index_by_name(&registry, "Kanagawa"), Some(2));
    assert_eq!(get_theme_index_by_name(&registry, "Broken"), None);
}

#[test]
fn an_unknown_saved_theme_keeps_the_selection() {
    let mut registry = ThemeRegistry::new();
    set_theme_by_index(&mut registry, 2);
    load_custom_themes(&mut registry, &vec![source("Mine", "#000000")], "Nope");
    assert_eq!(current_theme_index(&registry), 2);
}

#[test]
fn selecting_themes_by_name_and_index() {
    let mut registry = ThemeRegistry::new();
    assert!(set_theme_by_name(&mut registry, "Kanagawa"));
    assert_eq!(current_theme_index(&registry), 2);
    assert!(!set_theme_by_name(&mut registry, "Solarized"));
    assert_eq!(current_theme_index(&registry), 2);
    set_theme_by_index(&mut registry, 9);
    assert_eq!(current_theme_index(&registry), 2);
    assert_eq!(set_theme_by_index_and_save(&mut registry, 1), Some("Catppuccin Mocha".to_string()));
    assert_eq!(current_theme_index(&registry), 1);
    assert_eq!(set_theme_by_index_and_save(&mut registry, 4), None);
    assert_eq!(current_theme_index(&registry), 1);
}

#[test]
fn palette_roles() {
    let p = BuiltinTheme::CatppuccinMocha.palette();
    assert_eq!(p.get_panel_colors(true), (p.base_07, p.base_04, p.base_00));
    assert_eq!(p.get_panel_colors(false), (p.base_03, p.base_03, p.base_00));
    assert_eq!(p.get_selection_colors(true), (p.base_02, p.base_06));
    assert_eq!(p.get_interface_colors(true), (p.base_03, p.base_07, p.base_02, p.base_02, p.base_06));
}
