use creamui::tray::{rgba_to_argb, InvalidTrayIcon, TrayBuilder, TrayError, TrayIcon};

#[test]
fn icon_pixels_must_match_the_dimensions() {
    assert!(TrayIcon::from_rgba(vec![0; 2 * 3 * 4], 2, 3).is_ok());
    assert_eq!(TrayIcon::from_rgba(vec![0; 23], 2, 3).unwrap_err(), InvalidTrayIcon);
    assert_eq!(TrayIcon::from_rgba(vec![], 0, 7).unwrap().width(), 0);
}

#[test]
fn pixels_are_reordered_as_argb() {
    assert_eq!(rgba_to_argb(&[1, 2, 3, 4, 5, 6, 7, 8, 9]), vec![4, 1, 2, 3, 8, 5, 6, 7]);
}

#[test]
fn the_builder_keeps_items_in_order() {
    let icon = TrayIcon::from_rgba(vec![9; 4], 1, 1).unwrap();
    let tray = TrayBuilder::new(icon)
        .with_id("my-app".to_string())
        .title("My App".to_string())
        .item("open".to_string(), "Open".to_string())
        .disabled_item("sync".to_string(), "Syncing…".to_string());
    assert_eq!(tray.id(), "my-app");
    assert_eq!(tray.title_text(), "My App");
    let items = tray.items();
    assert_eq!(items.len(), 2);
    assert_eq!((items[0].id.as_str(), items[0].enabled), ("open", true));
    assert_eq!((items[1].label.as_str(), items[1].enabled), ("Syncing…", false));
    assert_eq!(tray.icon().rgba(), &vec![9; 4]);
}

#[test]
fn tray_errors_explain_themselves() {
    assert_eq!(TrayError::Backend("no watcher".to_string()).message(), "no watcher");
    assert!(TrayError::UnsupportedPlatform.message().contains("no enabled backend"));
    assert_eq!(TrayBuilder::new(TrayIcon::from_rgba(vec![], 0, 0).unwrap()).id(), "creamui-tray");
}

#[test]
fn dimensions_too_large_for_memory_are_refused() {
    assert_eq!(TrayIcon::from_rgba(vec![0; 4], u32::MAX, u32::MAX).unwrap_err(), InvalidTrayIcon);
    assert_eq!(TrayIcon::from_rgba(vec![], u32::MAX, 0).unwrap().width(), u32::MAX);
}
