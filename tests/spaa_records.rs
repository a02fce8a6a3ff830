use spaa::spaa::{Dso, Frame, FrameKind, SpaaWriter, StackType, Thread};

fn frame() -> Frame {
    Frame {
        id: 101,
        func: "main".to_string(),
        dso: 1,
        func_resolved: true,
        ip: Some("0x401234".to_string()),
        symoff: None,
        srcline: Some("app.c:12".to_string()),
        srcline_resolved: true,
        inlined: false,
        inline_depth: Some(2),
        kind: FrameKind::User,
    }
}

#[test]
fn dso_record_line() {
    let dso = Dso { id: 1, name: "/usr/bin/app".to_string(), build_id: None, is_kernel: false };
    assert_eq!(
        dso.record_line().unwrap(),
        "{\"type\":\"dso\",\"id\":1,\"name\":\"/usr/bin/app\",\"is_kernel\":false}\n"
    );

    let dso = Dso { id: 7, name: "vmlinux".to_string(), build_id: Some("ab12".to_string()), is_kernel: true };
    assert_eq!(
        dso.record_line().unwrap(),
        "{\"type\":\"dso\",\"id\":7,\"name\":\"vmlinux\",\"build_id\":\"ab12\",\"is_kernel\":true}\n"
    );
}

#[test]
fn frame_record_line() {
    assert_eq!(
        frame().record_line().unwrap(),
        "{\"type\":\"frame\",\"id\":101,\"func\":\"main\",\"dso\":1,\"func_resolved\":true,\"ip\":\"0x401234\",\"srcline\":\"app.c:12\",\"srcline_resolved\":true,\"inlined\":false,\"inline_depth\":2,\"kind\":\"user\"}\n"
    );
}

#[test]
fn thread_record_line() {
    let t = Thread { pid: 1234, tid: 5678, comm: Some("my\tapp".to_string()) };
    assert_eq!(
        t.record_line().unwrap(),
        "{\"type\":\"thread\",\"pid\":1234,\"tid\":5678,\"comm\":\"my\\tapp\"}\n"
    );
    let t = Thread { pid: 1, tid: 2, comm: None };
    assert_eq!(t.record_line().unwrap(), "{\"type\":\"thread\",\"pid\":1,\"tid\":2}\n");
}

#[test]
fn writer_appends_records() {
    let mut writer = SpaaWriter::new(Vec::new());
    writer
        .write_dso(&Dso { id: 1, name: "/bin/test".to_string(), build_id: None, is_kernel: false })
        .unwrap();
    writer.write_frame(&frame()).unwrap();
    writer.write_thread(&Thread { pid: 3, tid: 4, comm: None }).unwrap();
    assert_eq!(writer.get_ref().iter().filter(|b| **b == b'\n').count(), 3);
    writer.get_mut().extend_from_slice(b"tail");

    let bytes = writer.into_inner();
    let text = String::from_utf8(bytes).unwrap();
    let lines: Vec<&str> = text.lines().collect();
    assert_eq!(lines.len(), 4);
    assert!(lines[0].starts_with("{\"type\":\"dso\",\"id\":1,"));
    assert!(lines[1].starts_with("{\"type\":\"frame\",\"id\":101,"));
    assert_eq!(lines[2], "{\"type\":\"thread\",\"pid\":3,\"tid\":4}");
    assert_eq!(lines[3], "tail");
}

#[test]
fn stack_type_defaults_to_unified() {
    assert_eq!(StackType::default(), StackType::Unified);
}
