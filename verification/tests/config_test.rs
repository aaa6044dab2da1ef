use process_tab_manager::config::Config;

#[test]
fn default_config_has_terminal_classes() {
    let config = Config::default();
    let classes = config.wm_classes();
    // Must include common terminal emulators
    assert!(classes.iter().any(|c| c == "Gnome-terminal"));
    assert!(classes.iter().any(|c| c == "kitty"));
    assert!(classes.iter().any(|c| c == "Alacritty"));
    assert!(classes.iter().any(|c| c == "xterm"));
    assert!(classes.iter().any(|c| c == "XTerm"));
    assert!(classes.iter().any(|c| c == "Tilix"));
    assert!(classes.iter().any(|c| c == "Konsole"));
    assert!(classes.iter().any(|c| c == "Ghostty"));
    assert!(classes.iter().any(|c| c == "Terminator"));
}

#[test]
fn default_config_excludes_ptm() {
    let config = Config::default();
    let classes = config.wm_classes();
    // Our own window class must not be in the default filter
    assert!(!classes.iter().any(|c| c == "process-tab-manager"));
}

#[test]
fn merge_adds_user_classes_to_defaults() {
    let base = Config::default();
    // The overlay a user file `{"wm_classes": ["Firefox", "Slack"]}` gives.
    let overlay = Config::new(vec!["Firefox".to_string(), "Slack".to_string()]);
    let merged = base.merge(&overlay);
    // Should have both defaults and user additions
    assert!(merged.wm_classes().iter().any(|c| c == "Gnome-terminal"));
    assert!(merged.wm_classes().iter().any(|c| c == "Firefox"));
    assert!(merged.wm_classes().iter().any(|c| c == "Slack"));
}

#[test]
fn merge_deduplicates() {
    let base = Config::default();
    // Gnome-terminal is already in defaults
    let overlay = Config::new(vec!["Gnome-terminal".to_string(), "Firefox".to_string()]);
    let merged = base.merge(&overlay);
    let count = merged
        .wm_classes()
        .iter()
        .filter(|c| c.as_str() == "Gnome-terminal")
        .count();
    assert_eq!(count, 1, "Gnome-terminal should appear exactly once");
}

#[test]
fn merge_keeps_defaults_first_then_new_classes_in_order() {
    let base = Config::new(vec!["A".to_string(), "B".to_string()]);
    let overlay = Config::new(vec!["C".to_string(), "A".to_string(), "C".to_string(), "D".to_string()]);
    let merged = base.merge(&overlay);
    assert_eq!(merged.wm_classes(), &["A", "B", "C", "D"]);
}

#[test]
fn merge_is_case_sensitive() {
    let base = Config::new(vec!["xterm".to_string()]);
    let overlay = Config::new(vec!["XTerm".to_string()]);
    let merged = base.merge(&overlay);
    assert_eq!(merged.wm_classes(), &["xterm", "XTerm"]);
}

#[test]
fn new_config_keeps_classes_as_given() {
    let config = Config::new(vec!["Firefox".to_string(), "Slack".to_string()]);
    assert_eq!(config.wm_classes(), &["Firefox", "Slack"]);
}

#[test]
fn default_config_lists_nine_terminals() {
    let config = Config::default();
    assert_eq!(
        config.wm_classes(),
        &["Gnome-terminal", "Tilix", "xterm", "XTerm", "Konsole", "kitty", "Ghostty", "Terminator", "Alacritty"]
    );
}
