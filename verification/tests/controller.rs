use route_proxy::model::{add_rule, blank_rule, new_model, new_row_ids, rules_of};
use route_proxy::controller::{
    status_colour, widget_theme, StatusColour, WidgetTheme,
    blink_hides_cursor, byte_unit, column_header_key, stat_label, theme_button_key, new_daemon_slot, next_language, start_button_key, status_key,
    theme_is_dark, theme_name, toggle_blink, choose_theme, choose_language, set_auto_proxy,
    store_form, ByteUnit, SaveAction, Settings, StartStop,
};

#[test]
fn start_stop_toggles_the_daemon() {
    let mut ids = new_row_ids();
    let mut model = new_model();
    add_rule(&mut model, &mut ids, blank_rule()).unwrap();
    let mut slot = new_daemon_slot();
    assert!(!slot.is_running());
    match slot.start_stop("127.0.0.1:8080", true, &model) {
        StartStop::Start { listen_addr, enable_proxy, rules } => {
            assert_eq!(listen_addr, "127.0.0.1:8080");
            assert!(enable_proxy);
            assert_eq!(rules.len(), 1);
            assert_eq!(rules[0].matcher.path_prefix, "/");
        }
        other => panic!("unexpected {:?}", other),
    }
    assert!(slot.is_running());
    assert!(slot.close_disables_proxy(true));
    assert!(!slot.close_disables_proxy(false));
    match slot.start_stop("ignored", false, &model) {
        StartStop::Stop { disable_proxy } => assert!(!disable_proxy),
        other => panic!("unexpected {:?}", other),
    }
    assert!(!slot.is_running());
    assert!(!slot.close_disables_proxy(true));
}

#[test]
fn save_updates_or_restarts() {
    let mut ids = new_row_ids();
    let mut model = new_model();
    let mut slot = new_daemon_slot();
    assert!(matches!(slot.save("127.0.0.1:1", true, rules_of(&model)), SaveAction::Idle));
    assert!(!slot.is_running());
    slot.start_stop("127.0.0.1:1", false, &model);
    add_rule(&mut model, &mut ids, blank_rule()).unwrap();
    match slot.save("127.0.0.1:1", true, rules_of(&model)) {
        SaveAction::UpdateRules { rules } => assert_eq!(rules.len(), 1),
        other => panic!("unexpected {:?}", other),
    }
    // settings not written: the daemon is left alone
    assert!(matches!(slot.save("127.0.0.1:2", false, rules_of(&model)), SaveAction::Idle));
    assert_eq!(slot.running.as_deref(), Some("127.0.0.1:1"));
    match slot.save("127.0.0.1:2", true, rules_of(&model)) {
        SaveAction::Restart { listen_addr, rules } => {
            assert_eq!(listen_addr, "127.0.0.1:2");
            assert_eq!(rules.len(), 1);
        }
        other => panic!("unexpected {:?}", other),
    }
    assert_eq!(slot.running.as_deref(), Some("127.0.0.1:2"));
    assert!(matches!(slot.save("127.0.0.1:2", true, Vec::new()), SaveAction::UpdateRules { .. }));
}

#[test]
fn labels_and_theme() {
    assert_eq!(status_key(true), "status_running");
    assert_eq!(status_key(false), "status_stopped");
    assert_eq!(start_button_key(true), "stop");
    assert_eq!(start_button_key(false), "start");
    assert_eq!([theme_name(0), theme_name(1), theme_name(2)], ["system", "dark", "light"]);
    assert!(theme_is_dark("dark", false));
    assert!(!theme_is_dark("light", true));
    assert!(theme_is_dark("system", true));
    assert!(!theme_is_dark("system", false));
}

#[test]
fn language_switch() {
    assert_eq!(next_language("zh"), "en");
    assert_eq!(next_language("en"), "zh");
    assert_eq!(next_language("fr"), "zh");
    assert_eq!(next_language(next_language("zh")), "zh");
}

#[test]
fn byte_units() {
    assert_eq!(byte_unit(0), ByteUnit::Bytes);
    assert_eq!(byte_unit(1023), ByteUnit::Bytes);
    assert_eq!(byte_unit(1024), ByteUnit::Kb);
    assert_eq!(byte_unit(1024 * 1024 - 1), ByteUnit::Kb);
    assert_eq!(byte_unit(1024 * 1024), ByteUnit::Mb);
    assert_eq!(byte_unit(1024 * 1024 * 1024), ByteUnit::Gb);
    assert_eq!(byte_unit(u64::MAX), ByteUnit::Gb);
    assert_eq!(ByteUnit::Mb.size(), 1048576);
    assert_eq!(ByteUnit::Gb.label(), "GB");
    assert_eq!(ByteUnit::Bytes.label(), "B");
}

#[test]
fn cursor_blink() {
    assert!(blink_hides_cursor(true, false));
    assert!(!blink_hides_cursor(true, true));
    assert!(!blink_hides_cursor(false, false));
}

#[test]
fn label_keys() {
    assert_eq!(theme_button_key(0), Some("theme_system"));
    assert_eq!(theme_button_key(2), Some("theme_light"));
    assert_eq!(theme_button_key(3), None);
    assert_eq!(column_header_key(0), Some("col_match_addr"));
    assert_eq!(column_header_key(1), Some("col_match_prefix"));
    assert_eq!(column_header_key(2), None);
    assert_eq!(column_header_key(3), Some("col_fwd_addr"));
    assert_eq!(column_header_key(4), Some("col_fwd_prefix"));
    assert_eq!(column_header_key(5), None);
    assert_eq!(stat_label("Active", "3"), "Active  3");
}

#[test]
fn blink_toggles() {
    assert!(!toggle_blink(true));
    assert!(toggle_blink(false));
}

#[test]
fn settings_are_written_only_when_changed() {
    let mut s = Settings {
        listen_addr: "127.0.0.1:1".to_string(),
        rules: Vec::new(),
        auto_proxy: false,
        theme: "system".to_string(),
        language: "zh".to_string(),
    };
    assert!(!choose_theme(&mut s, "system"));
    assert!(choose_theme(&mut s, "dark"));
    assert_eq!(s.theme, "dark");
    assert!(!choose_theme(&mut s, "dark"));
    assert!(choose_language(&mut s, "en"));
    assert!(!choose_language(&mut s, "en"));
    assert_eq!(s.language, "en");
    set_auto_proxy(&mut s, true);
    assert!(s.auto_proxy);
    store_form(&mut s, "0.0.0.0:9", Vec::new(), false);
    assert_eq!(s.listen_addr, "0.0.0.0:9");
    assert!(!s.auto_proxy);
    assert_eq!((s.theme.as_str(), s.language.as_str()), ("dark", "en"));
}

#[test]
fn theme_repaint_decisions() {
    assert_eq!(widget_theme(true), WidgetTheme::Dark);
    assert_eq!(widget_theme(false), WidgetTheme::Greybird);
    assert_eq!(status_colour(true), StatusColour::Good);
    assert_eq!(status_colour(false), StatusColour::Subtext);
}
