use course_kudasai::config::{
    course_list_from, notify_flag, parse_course_list, read_settings, settings_from_ini,
    split_course_list, strip_bom, ConfigError, Settings, DEFAULT_CONFIG,
};

fn settings(text: &str) -> Settings {
    match read_settings(text) {
        Ok(s) => s,
        Err(_) => panic!("settings expected"),
    }
}

#[test]
fn default_config_gives_the_default_settings() {
    let s = settings(DEFAULT_CONFIG);
    assert_eq!(s.courses, vec!["CC1253301".to_string(), "CC1253303".to_string()]);
    assert_eq!(
        s.webhook,
        "https://discord.com/api/webhooks/YOUR_WEBHOOK_ID/YOUR_WEBHOOK_TOKEN"
    );
    assert_eq!(s.interval, "0.3");
    assert_eq!(s.sys_notify, "true");
}

#[test]
fn readme_example_config() {
    let text = "[settings]\ncourses = CS2005701, CC1253301\nwebhook = https://discord.com/api/webhooks/ID/TOKEN\ninterval = 0.3\nsys_notify = true\n";
    let s = settings(text);
    assert_eq!(s.courses, vec!["CS2005701".to_string(), "CC1253301".to_string()]);
    assert_eq!(s.webhook, "https://discord.com/api/webhooks/ID/TOKEN");
}

#[test]
fn settings_defaults() {
    let s = settings("[settings]\ncourses = A1\n");
    assert_eq!(s.courses, vec!["A1".to_string()]);
    assert_eq!(s.webhook, "");
    assert_eq!(s.interval, "0.3");
    assert_eq!(s.sys_notify, "true");
}

#[test]
fn settings_are_trimmed_and_lowered() {
    let s = settings("[settings]\ncourses = A1\nwebhook =   \ninterval =  1.5 \nsys_notify =  YES \n");
    assert_eq!(s.webhook, "");
    assert_eq!(s.interval, "1.5");
    assert_eq!(s.sys_notify, "yes");
}

#[test]
fn settings_errors() {
    assert!(matches!(read_settings("[other]\ncourses = A\n"), Err(ConfigError::MissingSection)));
    assert!(matches!(read_settings(""), Err(ConfigError::MissingSection)));
    assert!(matches!(read_settings("[settings]\nwebhook = x\n"), Err(ConfigError::MissingCourses)));
    assert!(matches!(read_settings("[settings]\ncourses = , ,\n"), Err(ConfigError::NoCourses)));
    assert!(matches!(read_settings("[settings]\ncourses = []\n"), Err(ConfigError::NoCourses)));
    assert!(matches!(read_settings("[settings]\n= x\n"), Err(ConfigError::Syntax(_))));
}

#[test]
fn first_section_and_first_key_count() {
    let s = settings("[settings]\ncourses = A\ncourses = B\n[settings]\ncourses = C\n");
    assert_eq!(s.courses, vec!["A".to_string()]);
}

#[test]
fn byte_order_mark_is_dropped() {
    assert_eq!(strip_bom("\u{feff}[a]"), "[a]");
    assert_eq!(strip_bom("[a]"), "[a]");
    assert_eq!(strip_bom(""), "");
    let s = settings("\u{feff}[settings]\ncourses = A\n");
    assert_eq!(s.courses, vec!["A".to_string()]);
}

#[test]
fn settings_from_a_built_ini() {
    let mut conf = ini::Ini::new();
    conf.with_section(Some("settings")).set("courses", "X1\nX2").set("sys_notify", "No");
    match settings_from_ini(&conf) {
        Ok(s) => {
            assert_eq!(s.courses, vec!["X1".to_string(), "X2".to_string()]);
            assert_eq!(s.sys_notify, "no");
        }
        Err(_) => panic!("settings expected"),
    }
}

#[test]
fn course_list_split_on_commas_and_lines() {
    assert_eq!(
        split_course_list("CS2005701, CC1253301"),
        vec!["CS2005701".to_string(), "CC1253301".to_string()]
    );
    assert_eq!(
        split_course_list(" A ,, B\n C ,\n"),
        vec!["A".to_string(), "B".to_string(), "C".to_string()]
    );
    assert!(split_course_list("").is_empty());
    assert!(split_course_list(" , \n ").is_empty());
}

#[test]
fn course_list_from_json_array() {
    assert_eq!(
        parse_course_list(" [\"CS1\", \" CS2 \"] "),
        vec!["CS1".to_string(), " CS2 ".to_string()]
    );
    assert_eq!(parse_course_list("[\"a,b\"]"), vec!["a,b".to_string()]);
}

#[test]
fn course_list_bad_json_falls_back_to_split() {
    assert_eq!(
        parse_course_list("[CS1, CS2]"),
        vec!["[CS1".to_string(), "CS2]".to_string()]
    );
    assert_eq!(parse_course_list("[1, 2]"), vec!["[1".to_string(), "2]".to_string()]);
}

#[test]
fn course_list_from_parsed_or_split() {
    assert_eq!(
        course_list_from("[x]", Some(vec!["y".to_string()])),
        vec!["y".to_string()]
    );
    assert_eq!(course_list_from("a, b", None), vec!["a".to_string(), "b".to_string()]);
}

#[test]
fn notify_switch_values() {
    for on in ["true", "1", "yes"] {
        assert_eq!(notify_flag(on), Some(true));
    }
    for off in ["false", "0", "no"] {
        assert_eq!(notify_flag(off), Some(false));
    }
    for other in ["", "TRUE", "y", "on", " true"] {
        assert_eq!(notify_flag(other), None);
    }
}

#[test]
fn unicode_case_is_lowered() {
    let s = settings("[settings]\ncourses = A\nsys_notify = FALSE\n");
    assert_eq!(notify_flag(&s.sys_notify), Some(false));
    let s = settings("[settings]\ncourses = A\nsys_notify = ÄÖ\n");
    assert_eq!(s.sys_notify, "äö");
}

#[test]
fn rust_ini_reads_the_default_settings_section() {
    let conf = ini::Ini::load_from_str(DEFAULT_CONFIG).unwrap();
    let section = conf.section(Some("settings")).unwrap();
    let entries: Vec<(String, String)> =
        section.iter().map(|(k, v)| (k.to_string(), v.to_string())).collect();
    let expected = vec![
        ("courses", "CC1253301, CC1253303"),
        ("webhook", "https://discord.com/api/webhooks/YOUR_WEBHOOK_ID/YOUR_WEBHOOK_TOKEN"),
        ("interval", "0.3"),
        ("sys_notify", "true"),
    ];
    let expected: Vec<(String, String)> =
        expected.into_iter().map(|(k, v)| (k.to_string(), v.to_string())).collect();
    assert_eq!(entries, expected);
    assert_eq!(strip_bom(DEFAULT_CONFIG), DEFAULT_CONFIG);
    let s = settings(DEFAULT_CONFIG);
    assert_eq!(notify_flag(&s.sys_notify), Some(true));
}

#[test]
fn notify_switch_ignores_ascii_case() {
    for (text, flag) in [("Yes", true), ("TRUE", true), ("No", false), ("FaLsE", false)] {
        let s = settings(&format!("[settings]\ncourses = A\nsys_notify = {text}\n"));
        assert_eq!(notify_flag(&s.sys_notify), Some(flag));
    }
}
