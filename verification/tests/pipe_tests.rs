use mi7::pipe::{PipeConfig, PipeFactory, PipeType};

#[test]
fn predefined_configs() {
    assert_eq!(PipeConfig::small(), PipeConfig::new(10, 1024));
    assert_eq!(PipeConfig::default(), PipeConfig::new(100, 4096));
    assert_eq!(PipeConfig::large(), PipeConfig::new(1000, 8192));
    assert_eq!(PipeType::Custom(3, 7).config(), PipeConfig::new(3, 7));
    assert_eq!(PipeType::from_config(PipeConfig::new(100, 4096)), PipeType::Default);
    assert_eq!(PipeType::from_config(PipeConfig::new(100, 4095)), PipeType::Custom(100, 4095));
    assert_eq!(PipeType::supported_types(), vec!["small", "default", "large"]);
}

#[test]
fn parse_pipe_types() {
    assert_eq!(PipeType::parse("Small"), Ok(PipeType::Small));
    assert_eq!(PipeType::parse("LARGE"), Ok(PipeType::Large));
    assert_eq!(
        PipeType::parse("huge"),
        Err("不支持的管道类型: 'huge'. 支持的类型: [\"small\", \"default\", \"large\"]".to_string())
    );
    assert_eq!(PipeConfig::from_str("default"), Ok(PipeConfig::new(100, 4096)));
    assert_eq!(PipeType::Custom(20, 16384).to_string(), "custom(20x16384)");
    assert_eq!(PipeType::Small.to_string(), "small");
}

#[test]
fn validation() {
    assert_eq!(PipeConfig::new(0, 1).validate(), Err("容量不能为0".to_string()));
    assert_eq!(PipeConfig::new(1, 0).validate(), Err("槽大小不能为0".to_string()));
    assert_eq!(PipeConfig::new(10001, 1).validate(), Err("容量过大，最大支持10000".to_string()));
    assert_eq!(PipeConfig::new(1, 1048577).validate(), Err("槽大小过大，最大支持1MB".to_string()));
    assert_eq!(PipeConfig::new(10000, 1048576).validate(), Ok(()));
}

#[test]
fn kinds_and_memory() {
    let c = PipeConfig::new(1000, 8192);
    assert!(c.is_predefined());
    assert_eq!(c.config_type(), "Large");
    assert_eq!(c.to_pipe_type(), PipeType::Large);
    assert_eq!(c.total_memory(), 8192000);
    let d = PipeConfig::new(7, 9);
    assert!(!d.is_predefined());
    assert_eq!(d.config_type(), "Custom");
    assert!(d.is_compatible(&PipeConfig::new(7, 9)));
    assert!(!d.is_compatible(&c));
}

#[test]
fn suggestions() {
    assert!(PipeConfig::small().performance_suggestions().is_empty());
    assert_eq!(
        PipeConfig::new(5000, 512).performance_suggestions(),
        vec![
            "高容量配置建议使用更大的槽大小以提高性能".to_string(),
            "考虑使用预定义配置以获得更好的性能优化".to_string()
        ]
    );
    assert_eq!(
        PipeConfig::new(5, 1048576 * 100).performance_suggestions(),
        vec![
            "内存使用量较大，考虑减少容量或槽大小".to_string(),
            "低容量配置使用大槽大小可能造成内存浪费".to_string(),
            "考虑使用预定义配置以获得更好的性能优化".to_string()
        ]
    );
}

#[test]
fn layouts() {
    assert_eq!(PipeFactory::layout(PipeType::Custom(50, 2048)), Ok(PipeConfig::new(50, 2048)));
    assert_eq!(
        PipeFactory::layout(PipeType::Custom(51, 2048)),
        Err("不支持的自定义配置: capacity=51, slot_size=2048. 请使用预定义配置或添加支持的自定义配置"
            .to_string())
    );
    assert_eq!(PipeFactory::layout_from_str("small"), Ok(PipeConfig::small()));
    assert_eq!(PipeConfig::new(0, 5).pipe_layout(), Err("容量不能为0".to_string()));
    assert_eq!(PipeConfig::new(200, 1024).pipe_layout(), Ok(PipeConfig::new(200, 1024)));
    assert_eq!(
        PipeConfig::new(100, 4096).check_matches(PipeConfig::new(10, 1024)),
        Err("配置不匹配：期望 capacity=10, slot_size=1024，实际 capacity=100, slot_size=4096"
            .to_string())
    );
    assert_eq!(PipeConfig::small().check_matches(PipeConfig::small()), Ok(()));
}
