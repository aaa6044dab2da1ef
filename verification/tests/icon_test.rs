use process_tab_manager::icon::{desktop_file_names, desktop_icon, fallback_icon_name, icon_file_candidates};

#[test]
fn desktop_names_try_lowercase_then_class_then_gnome_id() {
    assert_eq!(
        desktop_file_names("Gnome-terminal"),
        vec!["gnome-terminal.desktop", "Gnome-terminal.desktop", "org.gnome.terminal.desktop"]
    );
    assert_eq!(desktop_file_names("kitty"), vec!["kitty.desktop", "kitty.desktop", "org.gnome.kitty.desktop"]);
}

#[test]
fn gnome_prefixes_are_removed_everywhere() {
    assert_eq!(desktop_file_names("Gnome-gnome-x")[2], "org.gnome.x.desktop");
}

#[test]
fn desktop_icon_reads_first_icon_line() {
    let content = "[Desktop Entry]\nName=Terminal\n  Icon = nope\nIcon=utilities-terminal  \nIcon=second\n";
    assert_eq!(desktop_icon(content), Some("utilities-terminal".to_string()));
}

#[test]
fn desktop_icon_trims_and_skips_empty_values() {
    assert_eq!(desktop_icon("Icon=\n\t Icon=  kitty \r\n"), Some("kitty".to_string()));
    assert_eq!(desktop_icon("Icon="), None);
    assert_eq!(desktop_icon(""), None);
    assert_eq!(desktop_icon("Name=x\nIcon=last"), Some("last".to_string()));
}

#[test]
fn desktop_icon_agrees_with_line_scan() {
    fn reference(content: &str) -> Option<String> {
        for line in content.lines() {
            if let Some(value) = line.trim().strip_prefix("Icon=") {
                let icon = value.trim();
                if !icon.is_empty() {
                    return Some(icon.to_string());
                }
            }
        }
        None
    }
    for c in ["Icon=a", "x\r\nIcon=\u{2003}b\u{a0}\n", "\n\nIcon=c\nIcon=d", "Icon =e", " Icon=f g ", "Icon=\u{85}", "Icon=h\r"] {
        assert_eq!(desktop_icon(c), reference(c), "content {:?}", c);
    }
}

#[test]
fn icon_candidates_start_with_pixmaps_then_themes() {
    let c = icon_file_candidates("kitty");
    assert_eq!(c.len(), 146);
    assert_eq!(c[0], "/usr/share/pixmaps/kitty.png");
    assert_eq!(c[1], "/usr/share/pixmaps/kitty.svg");
    assert_eq!(c[2], "/usr/share/icons/hicolor/48x48/apps/kitty.png");
    assert_eq!(c[3], "/usr/share/icons/hicolor/48x48/apps/kitty.svg");
    assert_eq!(c[4], "/usr/share/icons/hicolor/48x48/categories/kitty.png");
    assert_eq!(c[8], "/usr/share/icons/hicolor/scalable/apps/kitty.png");
    assert_eq!(c[50], "/usr/share/icons/Adwaita/48x48/apps/kitty.png");
    assert_eq!(c[145], "/usr/share/pixmaps/16x16/mimetypes/kitty.svg");
}

#[test]
fn absolute_icon_name_is_tried_first() {
    let c = icon_file_candidates("/opt/app/icon.png");
    assert_eq!(c.len(), 147);
    assert_eq!(c[0], "/opt/app/icon.png");
}

#[test]
fn fallback_icon_name_is_lowercase_class() {
    assert_eq!(fallback_icon_name("Gnome-terminal"), "gnome-terminal");
}
