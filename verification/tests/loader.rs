use creamui::loader::{
    config_path_from, data_dirs_from, resolve_appearance, selected_theme_id, split_path_list, unfiled_theme, theme_from_text, AccentPresetText, SystemThemeLoader, ThemeCatalog, ThemeColors,
    ThemeFileError, ThemeFileText,
};
use creamui::theme::{appearance_file_text, merge_selection, AppearanceSelection, Color, ColorScheme, ColorSchemeText};

fn scheme_text(prefix: &str) -> ColorSchemeText {
    let t = |n: u8| format!("#{prefix}{n:02}{n:02}");
    ColorSchemeText {
        surface: t(11),
        surface_elevated: t(12),
        surface_hover: t(13),
        accent: t(14),
        accent_hover: t(15),
        accent_pressed: t(16),
        selection_background: t(17),
        selection_text: t(18),
        text_primary: t(19),
        text_secondary: t(20),
        text_disabled: t(21),
        border: t(22),
        border_strong: t(23),
        danger: t(24),
        warning: t(25),
        success: t(26),
    }
}

fn custom_file() -> ThemeFileText {
    ThemeFileText {
        id: "custom".to_string(),
        name: "Custom".to_string(),
        default_variant: "latte".to_string(),
        default_accent: Some("#010203".to_string()),
        accent_presets: vec![AccentPresetText {
            id: "blue".to_string(),
            name: "Blue".to_string(),
            color: "#0000ff".to_string(),
        }],
        variants: vec![("latte".to_string(), scheme_text("11")), ("oled".to_string(), scheme_text("00"))],
    }
}

#[test]
fn a_theme_file_reads_into_its_colours() {
    let theme = theme_from_text(custom_file()).unwrap();
    assert_eq!(theme.id, "custom");
    assert_eq!(theme.default_accent, Some(Color::rgb(1, 2, 3)));
    assert_eq!(theme.accent_presets[0].color, Color::rgb(0, 0, 255));
    let latte = theme.variant(&"latte".to_string()).unwrap();
    assert_eq!(latte.surface, Color::rgb(0x11, 0x11, 0x11));
    assert_eq!(latte.success, Color::rgb(0x11, 0x26, 0x26));
    assert!(theme.variant(&"missing".to_string()).is_none());
}

#[test]
fn a_theme_file_needs_an_id_a_name_and_its_default_variant() {
    let mut file = custom_file();
    file.default_variant = "espresso".to_string();
    assert_eq!(theme_from_text(file), Err(ThemeFileError::InvalidDefinition));
    let mut file = custom_file();
    file.name = String::new();
    assert_eq!(
        theme_from_text(file).unwrap_err().message(),
        "a theme needs an id, name, and existing default variant"
    );
}

#[test]
fn the_first_bad_colour_is_reported() {
    let mut file = custom_file();
    file.variants[1].1.border = "#xyz".to_string();
    file.default_accent = Some("nope".to_string());
    match theme_from_text(file) {
        Err(ThemeFileError::InvalidColor(e)) => assert_eq!(e.value, "#xyz"),
        other => panic!("unexpected {other:?}"),
    }
    let mut file = custom_file();
    file.default_accent = Some("nope".to_string());
    assert_eq!(theme_from_text(file).unwrap_err().message(), "invalid color nope");
}

#[test]
fn missing_appearance_uses_the_builtin_default() {
    let selection = SystemThemeLoader::new().into_selection();
    let theme_id = selected_theme_id(&selection);
    assert_eq!(theme_id, "default");
    let resolved = resolve_appearance(selection, theme_id, &ThemeColors::builtin_default()).unwrap();
    assert_eq!(resolved.theme_id, "default");
    assert_eq!(resolved.variant_id, "dark");
    assert_eq!(resolved.colors, ColorScheme::dark().with_accent(ColorScheme::dark().accent));
    assert_eq!(resolved.font_family, None);
}

#[test]
fn resolves_arbitrary_variants_and_custom_accents() {
    let theme = theme_from_text(custom_file()).unwrap();
    let accent = Color::rgb(255, 117, 181);
    let selection = SystemThemeLoader::new()
        .theme("custom".to_string())
        .variant("oled".to_string())
        .accent(accent)
        .font_family("Inter".to_string())
        .into_selection();
    let resolved = resolve_appearance(selection, "custom".to_string(), &theme).unwrap();
    assert_eq!(resolved.variant_id, "oled");
    assert_eq!(resolved.accent, accent);
    assert_eq!(resolved.colors.accent, accent);
    assert_eq!(resolved.font_family, Some("Inter".to_string()));
}

#[test]
fn the_theme_default_accent_applies_when_none_is_chosen() {
    let theme = theme_from_text(custom_file()).unwrap();
    let resolved = resolve_appearance(AppearanceSelection::default(), "custom".to_string(), &theme).unwrap();
    assert_eq!(resolved.variant_id, "latte");
    assert_eq!(resolved.accent, Color::rgb(1, 2, 3));
}

#[test]
fn reports_a_missing_variant() {
    let theme = theme_from_text(custom_file()).unwrap();
    let selection = SystemThemeLoader::new().variant("missing".to_string()).into_selection();
    let error = resolve_appearance(selection, "custom".to_string(), &theme).unwrap_err();
    assert_eq!((error.theme.as_str(), error.variant.as_str()), ("custom", "missing"));
}

#[test]
fn builtin_theme_has_its_named_variants() {
    let theme = ThemeColors::builtin_default();
    assert_eq!(theme.variant(&"light".to_string()), Some(ColorScheme::light()));
    assert_eq!(theme.variant(&"dark".to_string()), Some(ColorScheme::dark()));
    assert_eq!(theme.variant(&"midnight".to_string()), Some(ColorScheme::midnight()));
    assert_eq!(theme.default_scheme(), ColorScheme::dark());
    assert_eq!(theme.accent_presets.len(), 6);
}

fn named(id: &str) -> ThemeColors {
    let mut theme = ThemeColors::builtin_default();
    theme.name = format!("theme {id}");
    theme
}

#[test]
fn listed_themes_are_sorted_by_id_with_the_builtin_default() {
    let mut catalog = ThemeCatalog::new();
    for id in ["zeta", "alpha", "émile", "Beta", "m"] {
        assert!(!catalog.contains(&id.to_string()));
        catalog.add(id.to_string(), named(id));
        assert!(catalog.contains(&id.to_string()));
    }
    let themes = catalog.finish(ThemeColors::builtin_default());
    let ids: Vec<&str> = themes.iter().map(|t| t.id.as_str()).collect();
    assert_eq!(ids, ["Beta", "alpha", "default", "m", "zeta", "émile"]);
    assert_eq!(themes[2].name, "Default");
    assert_eq!(themes[0].name, "theme Beta");
}

#[test]
fn a_listed_default_theme_is_kept() {
    let mut catalog = ThemeCatalog::new();
    catalog.add("default".to_string(), named("custom default"));
    let themes = catalog.finish(ThemeColors::builtin_default());
    assert_eq!(themes.len(), 1);
    assert_eq!(themes[0].id, "default");
    assert_eq!(themes[0].name, "theme custom default");
}

#[test]
fn xdg_paths_use_environment_overrides() {
    let root = "/tmp/creamui-theme-loader-xdg";
    let config = format!("{root}/config");
    let data = format!("{root}/data");
    let system = format!("{root}/one:{root}/two");
    assert_eq!(
        config_path_from(Some(config), Some("/home/u".to_string())),
        Some(format!("{root}/config/cream/appearance.toml"))
    );
    assert_eq!(
        data_dirs_from(Some(data), Some("/home/u".to_string()), Some(system)),
        vec![format!("{root}/data"), format!("{root}/one"), format!("{root}/two")]
    );
}

#[test]
fn xdg_paths_fall_back_to_the_home_directory_and_system_defaults() {
    assert_eq!(
        config_path_from(None, Some("/home/u".to_string())),
        Some("/home/u/.config/cream/appearance.toml".to_string())
    );
    assert_eq!(config_path_from(None, None), None);
    assert_eq!(
        data_dirs_from(None, Some("/home/u/".to_string()), None),
        vec!["/home/u/.local/share", "/usr/local/share", "/usr/share"]
    );
    assert_eq!(data_dirs_from(None, None, Some(String::new())), vec![""]);
}

#[test]
fn path_lists_split_on_colons_keeping_empty_entries() {
    assert_eq!(split_path_list("a:b"), vec!["a", "b"]);
    assert_eq!(split_path_list("::x:"), vec!["", "", "x", ""]);
    assert_eq!(split_path_list(""), vec![""]);
    assert_eq!(split_path_list("/usr/share/é"), vec!["/usr/share/é"]);
}

#[test]
fn only_the_default_theme_exists_without_a_file() {
    let builtin = unfiled_theme("default").unwrap();
    assert_eq!(builtin.id, "default");
    assert_eq!(builtin.default_variant, "dark");
    assert!(unfiled_theme("custom").is_none());
    assert!(unfiled_theme("Default").is_none());
}

#[test]
fn config_and_programmatic_selection_have_expected_precedence() {
    let theme = theme_from_text(custom_file()).unwrap();
    let config = AppearanceSelection {
        theme: Some("custom".to_string()),
        variant: Some("latte".to_string()),
        accent: Some(Color::rgb(0xab, 0xcd, 0xef)),
        ..AppearanceSelection::default()
    };
    let programmatic = SystemThemeLoader::new().variant("oled".to_string()).accent(Color::rgb(1, 2, 3)).into_selection();
    let selection = merge_selection(config, AppearanceSelection::default(), programmatic);
    let theme_id = selected_theme_id(&selection);
    assert_eq!(theme_id, "custom");
    let resolved = resolve_appearance(selection, theme_id, &theme).unwrap();
    assert_eq!(resolved.variant_id, "oled");
    assert_eq!(resolved.accent, Color::rgb(1, 2, 3));
}

#[test]
fn environment_overrides_configuration() {
    let theme = theme_from_text(custom_file()).unwrap();
    let config = AppearanceSelection {
        theme: Some("custom".to_string()),
        variant: Some("latte".to_string()),
        accent: Some(Color::rgb(0xab, 0xcd, 0xef)),
        ..AppearanceSelection::default()
    };
    let environment = AppearanceSelection {
        theme: Some("custom".to_string()),
        variant: Some("oled".to_string()),
        accent: Some(Color::rgb(1, 2, 3)),
        ..AppearanceSelection::default()
    };
    let selection = merge_selection(config, environment, SystemThemeLoader::new().into_selection());
    let resolved = resolve_appearance(selection, "custom".to_string(), &theme).unwrap();
    assert_eq!(resolved.variant_id, "oled");
    assert_eq!(resolved.accent, Color::rgb(1, 2, 3));
}

#[test]
fn custom_accent_is_not_limited_to_presets() {
    let accent = Color::rgb(18, 171, 52);
    let resolved = ThemeColors::builtin_default().default_scheme().with_accent(accent);
    assert_eq!(resolved.accent, accent);
}

#[test]
fn writing_the_system_appearance_persists_the_font_family() {
    let contents = appearance_file_text(&AppearanceSelection {
        font_family: Some("Fira Code".to_owned()),
        ..Default::default()
    });
    assert!(contents.contains("font_family = \"Fira Code\""));
}

#[test]
fn font_family_is_absent_by_default_and_honors_the_builder() {
    let theme = ThemeColors::builtin_default();
    let selection = SystemThemeLoader::new().into_selection();
    let resolved = resolve_appearance(selection, "default".to_string(), &theme).unwrap();
    assert_eq!(resolved.font_family, None);

    let selection = SystemThemeLoader::new().font_family("Inter".to_string()).into_selection();
    let resolved = resolve_appearance(selection, "default".to_string(), &theme).unwrap();
    assert_eq!(resolved.font_family, Some("Inter".to_owned()));
}
