use creamui::persist::{
    active_theme_id, active_theme_path, cream_dir_from, sort_themes, theme_dir, theme_file_path, themes_dir, thumbnail_candidates, ThemeInfo,
};
use creamui::theme::ColorScheme;

#[test]
fn active_theme_id_falls_back_to_the_default_and_asks_for_setup() {
    assert_eq!(active_theme_id(Some("light".to_string())), ("light".to_string(), false));
    assert_eq!(active_theme_id(None), ("default".to_string(), true));
}

#[test]
fn theme_paths_live_under_the_config_directory() {
    assert_eq!(active_theme_path("/home/u/.config/cream"), "/home/u/.config/cream/active_theme.toml");
    assert_eq!(themes_dir("cream/"), "cream/themes");
    assert_eq!(theme_dir("cream", "light"), "cream/themes/light");
    assert_eq!(theme_file_path("cream", "light"), "cream/themes/light/theme.toml");
    assert_eq!(theme_dir("", "light"), "themes/light");
    assert_eq!(
        thumbnail_candidates("t"),
        vec!["t/thumbnail.png", "t/thumbnail.jpg", "t/thumbnail.jpeg", "t/thumbnail.webp"]
    );
}

#[test]
fn listed_themes_are_sorted_by_id() {
    let info = |id: &str| ThemeInfo { id: id.to_string(), colors: ColorScheme::dark(), thumbnail: None };
    let sorted = sort_themes(vec![info("nord"), info("default"), info("Zen"), info("ayu"), info("nord")]);
    let ids: Vec<&str> = sorted.iter().map(|t| t.id.as_str()).collect();
    assert_eq!(ids, ["Zen", "ayu", "default", "nord", "nord"]);
    assert!(sort_themes(Vec::new()).is_empty());
}

#[test]
fn the_shared_theme_directory_follows_the_config_home() {
    assert_eq!(cream_dir_from(Some("/x/config".to_string()), Some("/home/u".to_string())), "/x/config/cream");
    assert_eq!(cream_dir_from(None, Some("/home/u".to_string())), "/home/u/.config/cream");
    assert_eq!(cream_dir_from(None, None), "./cream");
}
