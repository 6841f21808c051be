use unclek::settings::{is_compacted, Database, Settings, Topic};

fn settings(listen: Option<&str>, hostname: Option<&str>, threads: Option<usize>) -> Settings {
    Settings {
        listen: listen.map(|s| s.to_string()),
        hostname: hostname.map(|s| s.to_string()),
        cleanup: None,
        threads,
        database: Database { url: "postgres://localhost".to_string() },
        topics: vec![],
    }
}

fn topic(name: &str, compacted: Option<bool>) -> Topic {
    Topic { name: name.to_string(), compacted, retention: None }
}

#[test]
fn listen_defaults_to_every_interface_on_9092() {
    assert_eq!(settings(None, None, None).listen(), "0.0.0.0:9092");
    assert_eq!(settings(Some("127.0.0.1:19092"), None, None).listen(), "127.0.0.1:19092");
}

#[test]
fn worker_threads_default_to_100() {
    assert_eq!(settings(None, None, None).worker_threads(), 100);
    assert_eq!(settings(None, None, Some(4)).worker_threads(), 4);
}

#[test]
fn configured_hostname_wins() {
    let s = settings(None, Some("broker-1"), None);
    assert_eq!(s.get_hostname(), Some("broker-1".to_string()));
    assert_eq!(s.hostname_or(Some("os-name".to_string())), Some("broker-1".to_string()));
    assert_eq!(s.hostname_or(None), Some("broker-1".to_string()));
}

#[test]
fn detected_hostname_is_used_without_a_configured_one() {
    let s = settings(None, None, None);
    assert_eq!(s.hostname_or(Some("os-name".to_string())), Some("os-name".to_string()));
    assert_eq!(s.hostname_or(None), None);
}

#[test]
fn detected_hostname_comes_from_the_operating_system() {
    let s = settings(None, None, None);
    if let Some(name) = s.get_hostname() {
        assert!(!name.is_empty());
    }
}

#[test]
fn compaction_follows_the_last_declaration_of_the_topic() {
    let topics = vec![
        topic("a", Some(true)),
        topic("b", None),
        topic("c", Some(false)),
        topic("d", Some(false)),
        topic("d", Some(true)),
        topic("e", Some(true)),
        topic("e", None),
    ];
    assert!(is_compacted(&topics, &"a".to_string()));
    assert!(!is_compacted(&topics, &"b".to_string()));
    assert!(!is_compacted(&topics, &"c".to_string()));
    assert!(is_compacted(&topics, &"d".to_string()));
    assert!(!is_compacted(&topics, &"e".to_string()));
    assert!(!is_compacted(&topics, &"missing".to_string()));
    assert!(!is_compacted(&vec![], &"a".to_string()));
}
