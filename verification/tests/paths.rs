use capture::meta::{
    base_dir, capture_dir, join_path, log_file, log_path, meta_path, process_id,
    recorded_process, Meta, Stream,
};

#[test]
fn capture_dir_path() {
    assert_eq!(
        capture_dir("/tmp/test-capture-dir", "foo"),
        "/tmp/test-capture-dir/.capture/foo"
    );
}

#[test]
fn meta_serde_roundtrip() {
    let m = Meta::new(
        42,
        vec!["echo".to_string(), "hi".to_string()],
        "2025-01-01T00:00:00Z".to_string(),
    );
    let mut record = serde_json::Map::new();
    record.insert("pid".to_string(), serde_json::Value::from(m.pid));
    record.insert("command".to_string(), serde_json::Value::from(m.command.clone()));
    record.insert("started_at".to_string(), serde_json::Value::from(m.started_at.clone()));
    let json = serde_json::to_string(&serde_json::Value::Object(record)).unwrap();
    let back: serde_json::Value = serde_json::from_str(&json).unwrap();
    let command: Vec<String> = back["command"]
        .as_array()
        .unwrap()
        .iter()
        .map(|word| word.as_str().unwrap().to_string())
        .collect();
    let m2 = Meta::new(
        back["pid"].as_u64().unwrap() as u32,
        command,
        back["started_at"].as_str().unwrap().to_string(),
    );
    assert_eq!(m2.pid, 42);
    assert_eq!(m2.command, vec!["echo", "hi"]);
    assert_eq!(m2.started_at, "2025-01-01T00:00:00Z");
}

#[test]
fn meta_duplicate_is_equal() {
    let m = Meta::new(7, vec!["sleep".to_string(), "60".to_string()], "t".to_string());
    let copy = m.duplicate();
    assert_eq!(copy.pid, 7);
    assert_eq!(copy.command, m.command);
    assert_eq!(copy.started_at, m.started_at);
}

#[test]
fn base_dir_is_below_home() {
    assert_eq!(base_dir("/home/u"), "/home/u/.capture");
    assert_eq!(base_dir("/home/u/"), "/home/u/.capture");
    assert_eq!(base_dir("/"), "/.capture");
    assert_eq!(base_dir(""), ".capture");
}

#[test]
fn join_path_follows_the_path_rules() {
    assert_eq!(join_path("/a", "b"), "/a/b");
    assert_eq!(join_path("/a/", "b"), "/a/b");
    assert_eq!(join_path("/a", "/b"), "/b");
    assert_eq!(join_path("/a", ""), "/a/");
    assert_eq!(join_path("", "b"), "b");
    assert_eq!(join_path("/ä", "ö"), "/ä/ö");
}

#[test]
fn join_path_agrees_with_std_paths() {
    let bases = ["/home/u", "/home/u/", "/", "", "rel", "/ä"];
    let parts = ["foo", "", "/abs", "a/b", "..", "ö"];
    for base in bases {
        for part in parts {
            let expected = std::path::PathBuf::from(base).join(part);
            assert_eq!(std::path::PathBuf::from(join_path(base, part)), expected);
            assert_eq!(join_path(base, part), expected.to_str().unwrap());
        }
    }
}

#[test]
fn capture_dirs_of_different_names_differ() {
    let names = ["a", "b", "ab", "a b", "A"];
    for x in names {
        for y in names {
            assert_eq!(capture_dir("/h", x) == capture_dir("/h", y), x == y);
        }
    }
}

#[test]
fn capture_files_have_their_names() {
    assert_eq!(log_file(Stream::Stdout), "stdout.log");
    assert_eq!(log_file(Stream::Stderr), "stderr.log");
    assert_eq!(log_path("/h/.capture/foo", Stream::Stdout), "/h/.capture/foo/stdout.log");
    assert_eq!(log_path("/h/.capture/foo", Stream::Stderr), "/h/.capture/foo/stderr.log");
    assert_eq!(meta_path("/h/.capture/foo"), "/h/.capture/foo/meta.json");
}

#[test]
fn process_id_names_single_processes_only() {
    assert_eq!(process_id(0), None);
    assert_eq!(process_id(1), Some(1));
    assert_eq!(process_id(42), Some(42));
    assert_eq!(process_id(2147483647), Some(2147483647));
    assert_eq!(process_id(2147483648), None);
    assert_eq!(process_id(4294967295), None);
}

#[test]
fn recorded_process_is_that_of_the_record() {
    let meta = |pid: u32| Some(Meta::new(pid, vec!["true".to_string()], "t".to_string()));
    assert_eq!(recorded_process(&meta(4242)), Some(4242));
    assert_eq!(recorded_process(&meta(0)), None);
    assert_eq!(recorded_process(&meta(4294967295)), None);
    assert_eq!(recorded_process(&None), None);
}
