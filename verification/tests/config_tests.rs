use mi7::config::{
    bool, bool_or, init_config, integer, int_or, string, string_or, Config, ConfigAccessor,
    ConfigError, ConfigValue, FloatValue, TomlItem, TomlSection,
};

fn text(s: &str) -> ConfigValue {
    ConfigValue::String(s.to_string())
}

#[test]
fn default_config_values() {
    let c = Config::default();
    assert_eq!(string(&c, "shared_memory", "name"), "mi7_daemon_queue");
    assert_eq!(integer(&c, "queue", "capacity"), 200);
    assert_eq!(string(&c, "queue", "name"), "pipe_status_test");
    assert!(!bool(&c, "queue", "persistent"));
    assert_eq!(string(&c, "entry", "interface_name"), "entry_resp_pipe");
    assert_eq!(string(&c, "worker", "interface_type"), "large");
    assert_eq!(string(&c, "logging", "log_path"), "./logs");
    assert!(bool(&c, "logging", "console_output"));
    assert_eq!(integer(&c, "http", "port"), 8888);
    assert_eq!(string(&c, "http", "bind_address"), "0.0.0.0");
    assert_eq!(integer(&c, "http", "timeout_seconds"), 30);
    assert_eq!(integer(&c, "http", "max_connections"), 1000);
}

#[test]
fn default_config_sections_in_order() {
    let c = Config::default();
    let names: Vec<String> = c.get_sections().iter().map(|s| s.to_string()).collect();
    assert_eq!(names, vec!["shared_memory", "queue", "entry", "worker", "logging", "http"]);
    let keys: Vec<String> = c.get_keys("http").unwrap().iter().map(|s| s.to_string()).collect();
    assert_eq!(keys, vec!["port", "bind_address", "timeout_seconds", "max_connections"]);
    assert!(c.get_keys("nothing").is_none());
}

#[test]
fn default_config_validates() {
    assert!(Config::default().validate().is_ok());
}

#[test]
fn missing_values_fall_back() {
    let c = Config::default();
    assert_eq!(string(&c, "worker", "hello"), "");
    assert_eq!(string_or(&c, "worker", "hello", "world"), "world");
    assert_eq!(integer(&c, "nothing", "x"), 0);
    assert_eq!(int_or(&c, "http", "missing", 8080), 8080);
    assert!(!bool(&c, "logging", "debug"));
    assert!(bool_or(&c, "logging", "debug", true));
}

#[test]
fn set_then_get() {
    let mut c = Config::default();
    c.set("worker", "hello", text("world"));
    assert_eq!(string(&c, "worker", "hello"), "world");
    c.set("custom", "n", ConfigValue::Integer(7));
    assert_eq!(integer(&c, "custom", "n"), 7);
    c.set("http", "port", ConfigValue::Integer(9000));
    assert_eq!(integer(&c, "http", "port"), 9000);
    assert_eq!(string(&c, "http", "bind_address"), "0.0.0.0");
}

#[test]
fn value_conversions() {
    assert_eq!(ConfigValue::Integer(-42).as_string().unwrap(), "-42");
    assert_eq!(ConfigValue::Boolean(true).as_string().unwrap(), "true");
    assert_eq!(text("123").as_int(), Some(123));
    assert_eq!(text("-9").as_int(), Some(-9));
    assert_eq!(text("12a").as_int(), None);
    assert_eq!(ConfigValue::Boolean(true).as_int(), Some(1));
    assert_eq!(text("YES").as_bool(), Some(true));
    assert_eq!(text("Off").as_bool(), Some(false));
    assert_eq!(text("maybe").as_bool(), None);
    assert_eq!(ConfigValue::Integer(0).as_bool(), Some(false));
    let f = ConfigValue::Float(FloatValue { text: "2.5".to_string(), truncated: 2, nonzero: true });
    assert_eq!(f.as_string().unwrap(), "2.5");
    assert_eq!(f.as_int(), Some(2));
    assert_eq!(f.as_bool(), Some(true));
}

#[test]
fn validation_messages() {
    let mut c = Config::default();
    c.set("entry", "interface_name", text(""));
    match c.validate() {
        Err(ConfigError::Validation(m)) => assert_eq!(m, "entry.interface_name 不能为空"),
        _ => panic!("expected a validation error"),
    }
    let mut c = Config::default();
    c.set("worker", "log_level", text("loud"));
    match c.validate() {
        Err(ConfigError::Validation(m)) => assert_eq!(
            m,
            "无效的 worker.log_level: loud，有效值: [\"trace\", \"debug\", \"info\", \"warn\", \"error\"]"
        ),
        _ => panic!("expected a validation error"),
    }
    let mut c = Config::default();
    c.set("logging", "level", ConfigValue::Integer(3));
    match c.validate() {
        Err(ConfigError::Validation(m)) => assert!(m.starts_with("无效的 logging.level: 3")),
        _ => panic!("expected a validation error"),
    }
}

#[test]
fn error_messages() {
    assert_eq!(ConfigError::FileRead("x".to_string()).message(), "文件读取错误: x");
    assert_eq!(ConfigError::Validation("y".to_string()).message(), "配置验证错误: y");
}

#[test]
fn init_once() {
    assert!(init_config(Config::default(), false).is_ok());
    match init_config(Config::default(), true) {
        Err(ConfigError::Validation(m)) => assert_eq!(m, "配置已经初始化"),
        _ => panic!("expected the second initialization to fail"),
    }
    let mut bad = Config::default();
    bad.set("entry", "log_level", text("nope"));
    assert!(matches!(init_config(bad, false), Err(ConfigError::Validation(_))));
}

#[test]
fn accessor_by_dotted_name() {
    let mut c = Config::default();
    c.set("worker", "hello", text("world"));
    let a = ConfigAccessor::new(&c);
    assert_eq!(a.string("hello"), "world");
    assert_eq!(a.string("shared_memory.name"), "mi7_daemon_queue");
    assert_eq!(a.integer("http.port"), 8888);
    assert_eq!(a.integer("missing"), 0);
    assert!(a.bool("logging.console_output"));
    assert_eq!(a.string_or("nope", "dflt"), "dflt");
    assert_eq!(a.int_or("http.nope", 5), 5);
    assert!(a.bool_or("queue.nope", true));
}

#[test]
fn parsed_file_replaces_sections_and_skips_unsupported() {
    let parsed = vec![
        ("http".to_string(), TomlSection::Table(vec![
            ("port".to_string(), TomlItem::Value(ConfigValue::Integer(9999))),
            ("when".to_string(), TomlItem::Unsupported),
        ])),
        ("title".to_string(), TomlSection::Other),
        ("extra".to_string(), TomlSection::Table(vec![
            ("k".to_string(), TomlItem::Value(text("v"))),
        ])),
    ];
    let (c, skipped) = Config::from_parsed(parsed);
    assert_eq!(integer(&c, "http", "port"), 9999);
    assert_eq!(string(&c, "http", "bind_address"), "");
    assert_eq!(string(&c, "extra", "k"), "v");
    assert_eq!(string(&c, "logging", "level"), "info");
    assert_eq!(skipped, vec![("http".to_string(), "when".to_string())]);
    assert!(c.get_keys("title").is_none());
}
