use mi7::logging::{shared_log_file_name, LogConfig};
use mi7::message::Message;

#[test]
fn log_config_defaults_and_directory() {
    let c = LogConfig::new("workers".to_string());
    assert_eq!(c.log_dir, "logs");
    assert_eq!(c.file_prefix, "workers");
    let c = c.with_log_dir("custom-logs".to_string());
    assert_eq!(c.log_dir, "custom-logs");
    assert_eq!(shared_log_file_name(&c, "2024-01-02"), "workers.2024-01-02.log");
}

#[test]
fn message_holds_utf8_bytes() {
    let m = Message::with_timestamp(3, "你好".to_string(), 9);
    assert_eq!(m.flag, 3);
    assert_eq!(m.data, "你好".as_bytes().to_vec());
    assert_eq!(m.timestamp, 9);
    let n = Message::init("x".to_string());
    assert_eq!(n.flag, 0);
    assert_eq!(n.data, b"x".to_vec());
    assert!(n.timestamp > 0);
}
