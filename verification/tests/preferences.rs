use mangix::settings::{
    app_dir, data_dir, parse_settings, progress_file, render_settings, settings_file, Settings,
};

#[test]
fn defaults() {
    let s = Settings::default();
    assert_eq!(
        s,
        Settings { dark: true, fit: 0, spread: false, rtl: false, rail: true, strip: false, resume: true }
    );
}

#[test]
fn settings_are_written_as_lines() {
    assert_eq!(
        render_settings(&Settings::default()),
        "dark=true\nfit=0\nspread=false\nrtl=false\nrail=true\nresume=true\nstrip=false\n"
    );
}

#[test]
fn settings_read_back() {
    let s = Settings { dark: false, fit: 3, spread: true, rtl: true, rail: false, strip: true, resume: false };
    assert_eq!(parse_settings(&render_settings(&s)), s);
    let t = Settings { fit: 2, ..Settings::default() };
    assert_eq!(parse_settings(&render_settings(&t)), t);
}

#[test]
fn fit_is_clamped_and_defaults_to_zero() {
    assert_eq!(parse_settings("fit=7").fit, 3);
    assert_eq!(parse_settings("fit=-2").fit, 0);
    assert_eq!(parse_settings("fit=abc").fit, 0);
    assert_eq!(parse_settings("fit = 2 ").fit, 2);
    assert_eq!(parse_settings("fit=99999999999").fit, 0);
}

#[test]
fn flags_are_on_only_for_true() {
    assert!(!parse_settings(" dark = false ").dark);
    assert!(!parse_settings("dark=yes").dark);
    assert!(parse_settings("spread= true\r\n").spread);
    assert!(!parse_settings("rail=True").rail);
}

#[test]
fn unknown_and_broken_lines_are_ignored() {
    assert_eq!(parse_settings(""), Settings::default());
    assert_eq!(parse_settings("colour=blue\nno equals here\n"), Settings::default());
    assert!(parse_settings("strip=true\nstrip=false\nstrip=true").strip);
}

#[test]
fn data_dir_prefers_appdata_then_xdg_then_home() {
    let s = |v: &str| Some(v.to_string());
    assert_eq!(data_dir(s("C:\\Users\\u\\AppData"), s("/xdg"), s("/home/u"), false), s("C:\\Users\\u\\AppData"));
    assert_eq!(data_dir(None, s("/xdg"), s("/home/u"), false), s("/xdg"));
    assert_eq!(data_dir(None, None, s("/home/u"), false), s("/home/u/.local/share"));
    assert_eq!(data_dir(None, None, s("/Users/u"), true), s("/Users/u/Library/Application Support"));
    assert_eq!(data_dir(None, None, None, false), None);
}

#[test]
fn files_live_in_the_app_folder() {
    let app = app_dir("/home/u/.local/share");
    assert_eq!(app, "/home/u/.local/share/mangix");
    assert_eq!(settings_file(&app), "/home/u/.local/share/mangix/settings.conf");
    assert_eq!(progress_file(&app), "/home/u/.local/share/mangix/progress.tsv");
}
