use spaa::dtrace::{ConvertError, ConverterConfig, DtraceConverter, DtraceFrame, InputFormat, StackKind};

const SAMPLE_DTRACE_OUTPUT: &str = r#"
              libsystem_c.dylib`malloc+0x1a
              myapp`process_data+0x45
              myapp`main+0x89
              123

              libsystem_c.dylib`free+0x10
              myapp`cleanup+0x32
              myapp`main+0x112
              456
"#;

#[test]
fn parse_frame_with_module_and_offset() {
    let frame = DtraceConverter::parse_frame("libsystem_c.dylib`malloc+0x1a").unwrap();

    assert_eq!(frame.module, "libsystem_c.dylib");
    assert_eq!(frame.symbol, "malloc");
    assert_eq!(frame.offset, Some("0x1a".to_string()));
}

#[test]
fn parse_frame_without_offset() {
    let frame = DtraceConverter::parse_frame("libsystem_c.dylib`malloc").unwrap();

    assert_eq!(frame.module, "libsystem_c.dylib");
    assert_eq!(frame.symbol, "malloc");
    assert_eq!(frame.offset, None);
}

#[test]
fn dtrace_parse_frame_kernel() {
    let frame = DtraceConverter::parse_frame("kernel`vm_fault_enter+0x123").unwrap();

    assert_eq!(frame.module, "kernel");
    assert_eq!(frame.symbol, "vm_fault_enter");
    assert_eq!(frame.offset, Some("0x123".to_string()));
}

#[test]
fn parse_frame_without_module() {
    let frame = DtraceConverter::parse_frame("  main+0x10  ").unwrap();

    assert_eq!(frame.module, "unknown");
    assert_eq!(frame.symbol, "main");
    assert_eq!(frame.offset, Some("0x10".to_string()));
}

#[test]
fn parse_frame_rejects_null_and_empty_symbols() {
    assert!(DtraceConverter::parse_frame("").is_none());
    assert!(DtraceConverter::parse_frame("   ").is_none());
    assert!(DtraceConverter::parse_frame("libc`0x0").is_none());
    assert!(DtraceConverter::parse_frame("libc`+0x10").is_none());
}

#[test]
fn parse_frame_splits_at_last_plus() {
    let frame = DtraceConverter::parse_frame("lib`operator+ +0x8").unwrap();

    assert_eq!(frame.symbol, "operator+ ");
    assert_eq!(frame.offset, Some("0x8".to_string()));
}

#[test]
fn parse_aggregated_stacks() {
    let mut converter = DtraceConverter::new(InputFormat::AggregatedStack);
    converter.parse(SAMPLE_DTRACE_OUTPUT).unwrap();

    assert_eq!(converter.stacks.len(), 2);
    assert_eq!(converter.stacks[0].count, 123);
    assert_eq!(converter.stacks[0].frames.len(), 3);
    assert_eq!(converter.stacks[1].count, 456);
    assert_eq!(converter.stacks[1].frames.len(), 3);
}

#[test]
fn dtrace_convert_to_spaa() {
    let mut converter = DtraceConverter::new(InputFormat::AggregatedStack);
    converter.parse(SAMPLE_DTRACE_OUTPUT).unwrap();

    let output_str = converter.write_spaa().unwrap();
    let lines: Vec<&str> = output_str.lines().collect();

    assert!(!lines.is_empty());
    assert!(lines[0].contains("\"type\":\"header\""));
    assert!(lines[0].contains("\"source_tool\":\"dtrace\""));
}

#[test]
fn convert_writes_dictionaries_and_stacks() {
    let mut converter = DtraceConverter::new(InputFormat::AggregatedStack);
    converter.parse(SAMPLE_DTRACE_OUTPUT).unwrap();

    let output = converter.write_spaa().unwrap();
    let lines: Vec<&str> = output.lines().collect();

    // header, 2 modules, 6 frames, 2 stacks
    assert_eq!(lines.len(), 11);
    assert_eq!(
        lines[1],
        "{\"id\":1,\"is_kernel\":false,\"name\":\"libsystem_c.dylib\",\"type\":\"dso\"}"
    );
    assert_eq!(lines[2], "{\"id\":2,\"is_kernel\":false,\"name\":\"myapp\",\"type\":\"dso\"}");
    assert_eq!(
        lines[3],
        "{\"dso\":1,\"func\":\"malloc\",\"func_resolved\":true,\"id\":1,\"inlined\":false,\"kind\":\"user\",\"symoff\":\"0x1a\",\"type\":\"frame\"}"
    );
    assert!(lines[9].starts_with("{\"context\":{\"event\":\"profile-997\"},\"exclusive\":{\"frame\":1,\"weights\":[{\"metric\":\"count\",\"value\":123}]},\"frames\":[1,2,3],\"id\":\"0x"));
    assert!(lines[9].ends_with(
        "\"stack_type\":\"user\",\"type\":\"stack\",\"weights\":[{\"metric\":\"samples\",\"value\":123},{\"metric\":\"count\",\"value\":123}]}"
    ));
    assert!(lines[10].contains("\"frames\":[4,5,6]"));
}

#[test]
fn header_line_is_exact() {
    let mut converter = DtraceConverter::new(InputFormat::AggregatedStack);
    converter.parse(SAMPLE_DTRACE_OUTPUT).unwrap();

    let output = converter.write_spaa().unwrap();
    let header = output.lines().next().unwrap();

    assert_eq!(
        header,
        "{\"events\":[{\"kind\":\"timer\",\"name\":\"profile-997\",\"sampling\":{\"frequency_hz\":997,\"mode\":\"frequency\",\"primary_metric\":\"samples\"}}],\"format\":\"spaa\",\"frame_order\":\"leaf_to_root\",\"source\":{\"tool\":\"dtrace\"},\"source_tool\":\"dtrace\",\"stack_id_mode\":\"content_addressable\",\"type\":\"header\",\"version\":\"1.0\"}"
    );
}

#[test]
fn dtrace_empty_input_returns_error() {
    let mut converter = DtraceConverter::new(InputFormat::AggregatedStack);
    converter.parse("").unwrap();

    let result = converter.write_spaa();

    assert!(matches!(result, Err(ConvertError::NoStacks)));
}

#[test]
fn stacks_with_same_frames_aggregate() {
    let input = r#"
              libc`func_a+0x10
              100

              libc`func_a+0x10
              200

              libc`func_a+0x10
              300
"#;
    let mut converter = DtraceConverter::new(InputFormat::AggregatedStack);
    converter.parse(input).unwrap();

    let tables = converter.spaa_tables();

    // All 3 should aggregate into 1 stack
    assert_eq!(tables.stacks.len(), 1);
    assert_eq!(tables.stacks[0].total_count, 600); // 100 + 200 + 300

    let output = converter.write_spaa().unwrap();
    assert_eq!(output.lines().filter(|l| l.contains("\"type\":\"stack\"")).count(), 1);
    assert!(output.contains("{\"metric\":\"count\",\"value\":600}"));
}

#[test]
fn aggregated_counts_saturate() {
    let input = "lib`f\n18446744073709551615\nlib`f\n5\n";
    let mut converter = DtraceConverter::new(InputFormat::AggregatedStack);
    converter.parse(input).unwrap();

    let tables = converter.spaa_tables();

    assert_eq!(tables.stacks.len(), 1);
    assert_eq!(tables.stacks[0].total_count, u64::MAX);
}

#[test]
fn infer_user_stack() {
    let frames = vec![DtraceFrame {
        module: "libsystem_c.dylib".to_string(),
        symbol: "malloc".to_string(),
        offset: None,
    }];

    assert_eq!(DtraceConverter::infer_stack_kind(&frames), StackKind::User);
}

#[test]
fn infer_kernel_stack() {
    let frames = vec![DtraceFrame {
        module: "kernel".to_string(),
        symbol: "vm_fault".to_string(),
        offset: None,
    }];

    assert_eq!(DtraceConverter::infer_stack_kind(&frames), StackKind::Kernel);
}

#[test]
fn infer_kernel_wins_over_user_and_case_is_ignored() {
    let frames = vec![
        DtraceFrame { module: "libc.so.6".to_string(), symbol: "read".to_string(), offset: None },
        DtraceFrame { module: "GENUNIX".to_string(), symbol: "syscall".to_string(), offset: None },
    ];
    assert_eq!(DtraceConverter::infer_stack_kind(&frames), StackKind::Kernel);

    let frames = vec![DtraceFrame { module: "myapp".to_string(), symbol: "main".to_string(), offset: None }];
    assert_eq!(DtraceConverter::infer_stack_kind(&frames), StackKind::Unknown);
}

#[test]
fn kernel_module_names() {
    assert!(DtraceConverter::is_kernel_module("mach_kernel"));
    assert!(DtraceConverter::is_kernel_module("Unix"));
    assert!(!DtraceConverter::is_kernel_module("libunix.so"));
    assert!(!DtraceConverter::is_kernel_module("libc"));
}

#[test]
fn custom_config() {
    let config = ConverterConfig {
        event_name: "syscall::read:entry".to_string(),
        frequency_hz: None,
    };

    let mut converter = DtraceConverter::with_config(InputFormat::AggregatedStack, config);
    converter.parse(SAMPLE_DTRACE_OUTPUT).unwrap();

    let output = converter.write_spaa().unwrap();
    let header = output.lines().next().unwrap();
    assert!(header.contains("\"name\":\"syscall::read:entry\""));
    assert!(header.contains("\"kind\":\"probe\""));
    assert!(header.contains("\"sampling\":{\"mode\":\"event\",\"primary_metric\":\"count\"}"));
}

#[test]
fn skips_dtrace_header_lines() {
    let input = r#"
dtrace: description 'profile-997' matched 1 probe
CPU     ID                    FUNCTION:NAME
  0  12345                     :tick-1s

              libc`malloc+0x10
              50
"#;
    let mut converter = DtraceConverter::new(InputFormat::AggregatedStack);
    converter.parse(input).unwrap();

    assert_eq!(converter.stacks.len(), 1);
    assert_eq!(converter.stacks[0].count, 50);
}

#[test]
fn count_without_frames_and_trailing_frames_are_ignored() {
    let input = "42\r\nlib`a+0x1\r\n+7\r\nlib`b\n";
    let mut converter = DtraceConverter::new(InputFormat::AggregatedStack);
    converter.parse(input).unwrap();

    assert_eq!(converter.stacks.len(), 1);
    assert_eq!(converter.stacks[0].count, 7);
    assert_eq!(converter.stacks[0].frames[0].symbol, "a");
}

#[test]
fn unsupported_format_returns_error() {
    let mut converter = DtraceConverter::new(InputFormat::SplitStacks);
    let result = converter.parse("");

    assert!(matches!(result, Err(ConvertError::UnsupportedFormat)));
}

#[test]
fn special_characters_are_escaped() {
    let config = ConverterConfig { event_name: "a\"b".to_string(), frequency_hz: Some(100) };
    let mut converter = DtraceConverter::with_config(InputFormat::AggregatedStack, config);
    converter.parse("lib`f\n1\n").unwrap();

    let output = converter.write_spaa().unwrap();
    assert!(output.contains("\"name\":\"a\\\"b\""));
    assert!(output.contains("\"frequency_hz\":100"));
}

#[test]
fn stack_ids_are_sixteen_hex_digits() {
    let mut converter = DtraceConverter::new(InputFormat::AggregatedStack);
    converter.parse(SAMPLE_DTRACE_OUTPUT).unwrap();

    let tables = converter.spaa_tables();

    assert_eq!(tables.stacks.len(), 2);
    for s in &tables.stacks {
        assert_eq!(s.id.len(), 18);
        assert!(s.id.starts_with("0x"));
        assert!(s.id[2..].chars().all(|c| c.is_ascii_hexdigit() && !c.is_ascii_uppercase()));
    }
    assert_ne!(tables.stacks[0].id, tables.stacks[1].id);
    assert_eq!(tables.dsos, vec!["libsystem_c.dylib".to_string(), "myapp".to_string()]);
    assert_eq!(tables.frames.len(), 6);
    assert_eq!(tables.frame_dsos, vec![1, 2, 2, 1, 2, 2]);
    assert_eq!(tables.stacks[1].frame_ids, vec![4, 5, 6]);
}

#[test]
fn frequency_from_event_name() {
    assert_eq!(spaa::dtrace::frequency_for("profile-997", None), Some(997));
    assert_eq!(spaa::dtrace::frequency_for("profile-abc", None), None);
    assert_eq!(spaa::dtrace::frequency_for("syscall::read:entry", None), None);
    assert_eq!(spaa::dtrace::frequency_for("profile-997", Some(0)), None);
    assert_eq!(spaa::dtrace::frequency_for("profile-997", Some(49)), Some(49));
}

#[test]
fn default_config() {
    let config = ConverterConfig::default();
    assert_eq!(config.event_name, "profile-997");
    assert_eq!(config.frequency_hz, Some(997));
}

#[test]
fn kernel_frames_are_marked() {
    let mut converter = DtraceConverter::new(InputFormat::AggregatedStack);
    converter.parse("kernel`vm_fault_enter+0x123\nkernel`trap\n3\n").unwrap();

    assert_eq!(converter.stacks[0].kind, StackKind::Kernel);
    let output = converter.write_spaa().unwrap();
    assert!(output.contains("{\"id\":1,\"is_kernel\":true,\"name\":\"kernel\",\"type\":\"dso\"}"));
    assert!(output.contains("\"func\":\"trap\",\"func_resolved\":true,\"id\":2,\"inlined\":false,\"kind\":\"kernel\",\"type\":\"frame\"}"));
    assert!(output.contains("\"stack_type\":\"kernel\""));
}

#[test]
fn dtrace_spaa_output_validates() {
    let mut converter = DtraceConverter::new(InputFormat::AggregatedStack);
    converter.parse(SAMPLE_DTRACE_OUTPUT).unwrap();

    let output = converter.write_spaa().unwrap();
    let lines: Vec<&str> = output.lines().collect();

    assert!(lines[0].contains("\"source_tool\":\"dtrace\""));
    assert!(lines[0].contains("\"frame_order\":\"leaf_to_root\""));
    assert!(lines.iter().any(|l| l.contains("\"type\":\"dso\"")));
    assert!(lines.iter().any(|l| l.contains("\"type\":\"frame\"")));
    assert_eq!(lines.iter().filter(|l| l.contains("\"type\":\"stack\"")).count(), 2);
}
