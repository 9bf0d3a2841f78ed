use render3d::i18n::{
    display_name, is_supported, language_from_locale, os_language, saved_language, startup_language, DEFAULT_LANG,
    LANGUAGES,
};
use render3d::logger::{log_line, should_log, LogLevel};
use render3d::settings::{default_show_axes, default_show_grid_xy, default_show_grid_xz, default_show_grid_yz};

#[test]
fn log_levels_are_ordered_from_critical_to_verbose() {
    assert!(LogLevel::Critical < LogLevel::Error);
    assert!(LogLevel::Error < LogLevel::Warning);
    assert!(LogLevel::Warning < LogLevel::Info);
    assert!(LogLevel::Info < LogLevel::Verbose);
    assert_eq!(LogLevel::Critical as u8, 0);
    assert_eq!(LogLevel::Verbose as u8, 4);
}

#[test]
fn messages_above_the_threshold_are_dropped() {
    assert!(should_log(LogLevel::Critical, 0));
    assert!(!should_log(LogLevel::Verbose, LogLevel::Critical.rank()));
    assert!(should_log(LogLevel::Verbose, LogLevel::Verbose.rank()));
    assert!(should_log(LogLevel::Warning, 3));
    assert!(!should_log(LogLevel::Info, 2));
    for l in [LogLevel::Critical, LogLevel::Error, LogLevel::Warning, LogLevel::Info, LogLevel::Verbose] {
        assert_eq!(l.rank(), l as u8);
    }
}

#[test]
fn log_lines_carry_time_level_and_message() {
    assert_eq!(
        log_line("2024-01-02 03:04:05", LogLevel::Warning, "disk low"),
        "[2024-01-02 03:04:05] [WARNING] disk low\n"
    );
    assert_eq!(LogLevel::Critical.name(), "CRITICAL");
    assert_eq!(LogLevel::Verbose.name(), "VERBOSE");
}

#[test]
fn shipped_languages_are_recognised() {
    assert_eq!(LANGUAGES.len(), 5);
    assert_eq!(DEFAULT_LANG, "en");
    for (code, _) in LANGUAGES {
        assert!(is_supported(code));
    }
    assert!(!is_supported("EN"));
    assert!(!is_supported("pt"));
}

#[test]
fn display_names_fall_back_to_english() {
    assert_eq!(display_name("it"), "Italiano");
    assert_eq!(display_name("fr"), "Français");
    assert_eq!(display_name("xx"), "English");
}

#[test]
fn os_locales_reduce_to_shipped_languages() {
    assert_eq!(language_from_locale("it-it"), "it");
    assert_eq!(language_from_locale("de_at"), "de");
    assert_eq!(language_from_locale("pt-br"), "en");
    assert_eq!(language_from_locale(""), "en");
    assert_eq!(os_language(Some("IT-IT")), "it");
    assert_eq!(os_language(Some("es")), "es");
    assert_eq!(os_language(None), "en");
}

#[test]
fn saved_choice_beats_os_language() {
    assert_eq!(saved_language(" fr \n"), Some("fr".to_string()));
    assert_eq!(saved_language("klingon"), None);
    assert_eq!(startup_language(Some("de\n"), Some("it-IT")), "de");
    assert_eq!(startup_language(Some("??"), Some("it-IT")), "it");
    assert_eq!(startup_language(None, Some("ja-JP")), "en");
    assert_eq!(startup_language(None, None), "en");
}

#[test]
fn view_defaults_show_xy_grid_and_axes() {
    assert!(default_show_grid_xy());
    assert!(!default_show_grid_xz());
    assert!(!default_show_grid_yz());
    assert!(default_show_axes());
}
