use hocus_focus::config::{
    default_config_path_from, get_config_path, get_default_config_path, resolve_config_path, Config,
    ConfigPathError, Schedule,
};

#[test]
fn default_template_blocks_social_media_on_workdays() {
    let c = Config::default_template();
    assert_eq!(c.rules.len(), 1);
    let r = &c.rules[0];
    assert_eq!(r.name, "Social Media Block");
    assert_eq!(
        r.domains,
        vec![
            "facebook.com", "www.facebook.com", "twitter.com", "www.twitter.com", "x.com", "www.x.com",
            "instagram.com", "www.instagram.com", "reddit.com", "www.reddit.com"
        ]
    );
    assert_eq!(r.schedules.len(), 1);
    assert_eq!(r.schedules[0].days, vec!["Mon", "Tue", "Wed", "Thu", "Fri"]);
    assert_eq!(r.schedules[0].start, "09:00");
    assert_eq!(r.schedules[0].end, "17:00");
}

fn b(s: &str) -> Vec<u8> {
    s.as_bytes().to_vec()
}

#[test]
fn config_path_under_home() {
    assert_eq!(default_config_path_from(Some(b("/Users/ana"))), Some(b("/Users/ana/.config/hocus-focus/config.toml")));
    assert_eq!(default_config_path_from(Some(b("/Users/ana/"))), Some(b("/Users/ana/.config/hocus-focus/config.toml")));
    assert_eq!(default_config_path_from(Some(Vec::new())), Some(b(".config/hocus-focus/config.toml")));
    assert_eq!(default_config_path_from(None), None);
}

#[test]
fn config_path_keeps_home_bytes_that_are_not_utf8() {
    let mut home = b"/home/\xff\xfe".to_vec();
    let r = default_config_path_from(Some(home.clone())).unwrap();
    home.extend_from_slice(b"/.config/hocus-focus/config.toml");
    assert_eq!(r, home);
}

#[test]
fn config_path_agrees_with_pathbuf() {
    for home in ["/Users/ana", "/", "/home/b/", "rel"] {
        let mut p = std::path::PathBuf::from(home);
        p.push(".config");
        p.push("hocus-focus");
        p.push("config.toml");
        assert_eq!(default_config_path_from(Some(b(home))).unwrap(), p.as_os_str().as_encoded_bytes());
    }
}

#[test]
fn config_path_choice() {
    assert_eq!(get_config_path(Some(b("/tmp/c.toml"))), Ok(b("/tmp/c.toml")));
    assert_eq!(
        resolve_config_path(None, Some(b("/h/.config/hocus-focus/config.toml"))),
        Ok(b("/h/.config/hocus-focus/config.toml"))
    );
    assert_eq!(resolve_config_path(Some(b("a")), Some(b("b"))), Ok(b("a")));
    assert_eq!(resolve_config_path(None, None), Err(ConfigPathError::NoDefaultDirectory));
    match (get_config_path(None), get_default_config_path()) {
        (Ok(p), Some(d)) => {
            assert_eq!(p, d);
            assert!(p.ends_with(b"/.config/hocus-focus/config.toml"));
        }
        (Err(e), None) => assert_eq!(e, ConfigPathError::NoDefaultDirectory),
        _ => panic!("path choice disagrees with the default path"),
    }
}

#[test]
fn missing_home_message() {
    assert_eq!(
        ConfigPathError::NoDefaultDirectory.message(),
        "Could not resolve default config directory. Please specify a config file using --config <path>."
    );
}

#[test]
fn days_label_lists_days() {
    let s = Schedule { days: vec![], start: "09:00".to_string(), end: "17:00".to_string() };
    assert_eq!(s.days_label(), "Everyday");
    let s = Schedule { days: vec!["Mon".to_string(), "Fri".to_string()], ..s };
    assert_eq!(s.days_label(), "Mon, Fri");
}
