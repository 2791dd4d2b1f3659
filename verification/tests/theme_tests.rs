use diagram::theme::Theme;

#[test]
fn rejects_bad_theme() {
    assert!(Theme::parse("neon").is_err());
}

#[test]
fn embed_rejects_invalid_theme() {
    let err = Theme::parse("neon").unwrap_err();
    assert!(err.contains("theme") || err.contains("neon"));
    assert_eq!(err, "unknown theme 'neon' (expected dark|light)");
}

#[test]
fn theme_names_in_any_case() {
    assert_eq!(Theme::parse(""), Ok(Theme::Dark));
    assert_eq!(Theme::parse("  Dark "), Ok(Theme::Dark));
    assert_eq!(Theme::parse("LIGHT"), Ok(Theme::Light));
}
