use pson::args::{parse_args, ArgConfig};
use pson::balance::InterpretLocks;

fn strings(items: &[&str]) -> Vec<String> {
    items.iter().map(|s| s.to_string()).collect()
}

#[test]
fn arg_config_starts_empty() {
    let cfg = ArgConfig::new();
    assert!(!cfg.help && !cfg.version && !cfg.interactive && !cfg.test);
    assert!(cfg.file.is_none());
}

#[test]
fn parse_args_flags() {
    let cfg = parse_args(&strings(&["-h", "--version", "-i", "--test"])).unwrap();
    assert!(cfg.help && cfg.version && cfg.interactive && cfg.test);
    assert!(cfg.file.is_none());
}

#[test]
fn parse_args_file_forms() {
    let cfg = parse_args(&strings(&["-f", "main.pson"])).unwrap();
    assert_eq!(cfg.file, Some("main.pson".to_string()));
    let cfg2 = parse_args(&strings(&["main.pson"])).unwrap();
    assert_eq!(cfg2.file, Some("main.pson".to_string()));
    // an argument claimed by -f may look like a flag
    let cfg3 = parse_args(&strings(&["--file", "-h"])).unwrap();
    assert_eq!(cfg3.file, Some("-h".to_string()));
    assert!(!cfg3.help);
}

#[test]
fn parse_args_errors() {
    assert_eq!(
        parse_args(&strings(&["-z"])).err(),
        Some("Unknown argument: -z".to_string())
    );
    assert_eq!(
        parse_args(&strings(&["a.pson", "b.pson"])).err(),
        Some("Only one file can be specified.".to_string())
    );
}

#[test]
fn interpret_locks_balance() {
    let locks = InterpretLocks::new();
    assert!(!locks.is_locked());
    let open = locks.update(&"[1 {a".to_string());
    assert!(open.is_locked());
    assert_eq!(open.brace_lock_count, 2);
    let closed = open.update(&"1} 2]".to_string());
    assert!(!closed.is_locked());
    let in_string = locks.update(&"\"open".to_string());
    assert!(in_string.is_locked());
    let string_closed = in_string.update(&"closed\"".to_string());
    assert!(!string_closed.is_locked());
    // brackets inside a quoted string do not count
    let quoted = locks.update(&"\"[[[\"".to_string());
    assert!(!quoted.is_locked());
}
