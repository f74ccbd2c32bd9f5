use creamui::theme::{
    appearance_text_from_literals,
    appearance_file_text, colors_from_text, merge_selection, parse_color, theme_path, AppearanceSelection,
    Color, ColorParseError, ColorScheme, ColorSchemeText, CornerStyle,
};

#[test]
fn parses_hex_colors() {
    assert_eq!("#f0a".parse(), Ok(Color::rgb(255, 0, 170)));
    assert_eq!("#f0a8".parse(), Ok(Color::rgba(255, 0, 170, 136)));
    assert_eq!("#ff75b5".parse(), Ok(Color::rgb(255, 117, 181)));
    assert_eq!("#27d7ff80".parse(), Ok(Color::rgba(39, 215, 255, 128)));
}

#[test]
fn midnight_is_deeper_than_dark() {
    let dark = ColorScheme::dark();
    let midnight = ColorScheme::midnight();
    assert!(midnight.surface.r < dark.surface.r);
    assert!(midnight.surface_elevated.r < dark.surface_elevated.r);
}

#[test]
fn malformed_hex_colors_are_refused() {
    for text in ["", "f0a", "#", "#f0", "#f0a80", "#ggg", "#12345z", "#123456789", "#-fffff"] {
        assert_eq!(Color::parse(text), Err(ColorParseError), "{text:?}");
    }
    assert_eq!(ColorParseError.message(), "expected #RGB, #RGBA, #RRGGBB, or #RRGGBBAA");
}

#[test]
fn two_digit_channels_take_a_leading_plus() {
    assert_eq!(Color::parse("#+f+f+f"), Ok(Color::rgb(15, 15, 15)));
    assert_eq!(Color::parse("#A0b0C0"), Ok(Color::rgb(0xa0, 0xb0, 0xc0)));
}

#[test]
fn channels_splitting_a_character_are_refused() {
    assert_eq!(Color::parse("#a\u{e9}123"), Err(ColorParseError));
    assert_eq!(Color::parse("#\u{e9}1234"), Err(ColorParseError));
}

#[test]
fn accent_shades_are_tinted_toward_white_and_black() {
    let accent = Color::rgb(18, 171, 52);
    let scheme = ColorScheme::dark().with_accent(accent);
    assert_eq!(scheme.accent, accent);
    assert_eq!(scheme.accent_hover, Color::rgb(54, 184, 82));
    assert_eq!(scheme.accent_pressed, Color::rgb(15, 145, 44));
    assert_eq!(scheme.surface, ColorScheme::dark().surface);
    assert_eq!(Color::rgb(0xa7, 0x7b, 0xff).tint(Color::rgb(255, 255, 255)), Color::rgb(180, 143, 255));
}

#[test]
fn background_aliases_read_the_surface_tokens() {
    let light = ColorScheme::light();
    assert_eq!(light.background_primary(), Color::rgb(0xf5, 0xf2, 0xf0));
    assert_eq!(light.background_secondary(), Color::rgb(0xff, 0xfd, 0xfc));
    assert_eq!(ColorScheme::default(), ColorScheme::dark());
}

#[test]
fn corner_styles_parse_case_insensitively() {
    assert_eq!(CornerStyle::from_id("SOFT"), Some(CornerStyle::Soft));
    assert_eq!(CornerStyle::from_id("  Round\n"), Some(CornerStyle::Round));
    assert_eq!(CornerStyle::from_id("square"), Some(CornerStyle::Square));
    assert_eq!(CornerStyle::from_id("pointy"), None);
    assert_eq!(CornerStyle::from_id("soft corners"), None);
    for style in [CornerStyle::Square, CornerStyle::Soft, CornerStyle::Round] {
        assert_eq!(CornerStyle::from_id(style.id()), Some(style));
    }
    assert_eq!(CornerStyle::default(), CornerStyle::Round);
    assert_eq!(CornerStyle::Soft.window_radius(), 6);
    assert_eq!(CornerStyle::Square.window_radius(), 0);
    assert_eq!(CornerStyle::Round.window_radius(), 12);
}

#[test]
fn programmatic_choices_override_environment_and_file() {
    let file = AppearanceSelection {
        theme: Some("custom".to_string()),
        variant: Some("latte".to_string()),
        accent: Some(Color::rgb(0xab, 0xcd, 0xef)),
        font_family: None,
        corners: None,
    };
    let environment = AppearanceSelection { variant: Some("oled".to_string()), ..Default::default() };
    let programmatic = AppearanceSelection { accent: Some(Color::rgb(1, 2, 3)), ..Default::default() };
    let merged = merge_selection(file, environment, programmatic);
    assert_eq!(merged.theme, Some("custom".to_string()));
    assert_eq!(merged.variant, Some("oled".to_string()));
    assert_eq!(merged.accent, Some(Color::rgb(1, 2, 3)));
    assert_eq!(merged.font_family, None);
}

#[test]
fn theme_paths_refuse_ids_that_could_escape() {
    assert_eq!(theme_path("/usr/share", "custom").unwrap(), "/usr/share/themes/custom/cream/theme.toml");
    assert_eq!(theme_path("/data/", "a-b_1").unwrap(), "/data/themes/a-b_1/cream/theme.toml");
    for id in ["", "../etc", "a/b", "sp ace", "\u{e9}"] {
        assert_eq!(theme_path("/usr/share", id).unwrap_err().id, id);
    }
}

#[test]
fn appearance_file_records_each_set_choice() {
    let selection = AppearanceSelection {
        theme: Some("custom".to_string()),
        variant: None,
        accent: Some(Color::rgba(1, 0xab, 0xff, 0x80)),
        font_family: Some("Fira Code".to_string()),
        corners: None,
    };
    let text = appearance_file_text(&selection);
    assert_eq!(text, "theme = \"custom\"\naccent = \"#01abff80\"\nfont_family = \"Fira Code\"\n");
    assert_eq!(appearance_file_text(&AppearanceSelection::default()), "");
}

#[test]
fn recorded_accents_read_back_unchanged() {
    for accent in [Color::rgba(1, 0xab, 0xff, 0x80), Color::rgba(0, 0, 0, 0), Color::rgba(255, 255, 255, 255)] {
        let selection = AppearanceSelection { accent: Some(accent), ..AppearanceSelection::default() };
        let text = appearance_file_text(&selection);
        let notation = text.trim_start_matches("accent = \"").trim_end_matches("\"\n");
        assert_eq!(parse_color(notation.to_string()), Ok(accent));
    }
}

fn scheme_text(surface: &str) -> ColorSchemeText {
    let t = |s: &str| s.to_string();
    ColorSchemeText {
        surface: t(surface),
        surface_elevated: t("#121212"),
        surface_hover: t("#131313"),
        accent: t("#141414"),
        accent_hover: t("#151515"),
        accent_pressed: t("#161616"),
        selection_background: t("#171717"),
        selection_text: t("#181818"),
        text_primary: t("#191919"),
        text_secondary: t("#202020"),
        text_disabled: t("#212121"),
        border: t("#222222"),
        border_strong: t("#232323"),
        danger: t("#242424"),
        warning: t("#252525"),
        success: t("not a colour"),
    }
}

#[test]
fn theme_file_colors_report_the_first_bad_value() {
    let error = colors_from_text(scheme_text("#11")).unwrap_err();
    assert_eq!(error.value, "#11");
    let error = colors_from_text(scheme_text("#111111")).unwrap_err();
    assert_eq!(error.value, "not a colour");
    let mut good = scheme_text("#111111");
    good.success = "#262626".to_string();
    let scheme = colors_from_text(good).unwrap();
    assert_eq!(scheme.surface, Color::rgb(0x11, 0x11, 0x11));
    assert_eq!(scheme.success, Color::rgb(0x26, 0x26, 0x26));
    assert_eq!(parse_color("#010203".to_string()), Ok(Color::rgb(1, 2, 3)));
}

#[test]
fn appearance_text_is_assembled_from_rendered_literals() {
    let text = appearance_text_from_literals(
        &Some("\"ocean\"".to_string()),
        &None,
        Some(Color::rgba(0x12, 0x34, 0x56, 0x78)),
        &Some("'Inter'".to_string()),
    );
    assert_eq!(text, "theme = \"ocean\"\naccent = \"#12345678\"\nfont_family = 'Inter'\n");
    assert_eq!(appearance_text_from_literals(&None, &None, None, &None), "");
}
