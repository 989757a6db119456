use cable_bench::signal::{check_signal, enough_keys_present};

#[test]
fn signal_is_case_insensitive() {
    assert!(check_signal("TCP is RELIABLE; udp drops PACKETS", &["tcp", "UDP", "reliable", "packet", "latency"]));
}

#[test]
fn signal_needs_half_rounded_down() {
    // 5 keys: need 2
    assert!(check_signal("pool and connection", &["pool", "connection", "overhead", "reuse", "x"]));
    assert!(!check_signal("pool only", &["pool", "connection", "overhead", "reuse", "x"]));
    // 1 key: need 0
    assert!(check_signal("nothing here", &["1991"]));
}

#[test]
fn signal_with_no_keys_is_preserved() {
    assert!(check_signal("", &[]));
}

#[test]
fn signal_all_keys_present() {
    assert!(check_signal("def next node prev", &["def", "next", "node", "prev"]));
}

#[test]
fn enough_keys_present_on_lowered_input() {
    let keys = vec!["ab".to_string(), "zz".to_string(), "cd".to_string(), "yy".to_string()];
    assert!(enough_keys_present("xxabcd", &keys));
    assert!(!enough_keys_present("xxab", &vec!["ab".to_string(), "zz".to_string(), "qq".to_string(), "yy".to_string(), "ww".to_string()]));
}

#[test]
fn signal_lowercases_non_ascii() {
    assert!(check_signal("ÉLAN", &["élan", "missing", "other"]));
}

#[test]
fn signal_ignores_key_order() {
    let text = "mutex lock for the thread";
    let a = ["lock", "mutex", "thread", "race", "critical"];
    let b = ["critical", "race", "thread", "mutex", "lock"];
    assert_eq!(check_signal(text, &a), check_signal(text, &b));
}

#[test]
fn signal_ignores_ascii_case_of_text_and_keys() {
    let text = "The Mutex holds a LOCK while a Thread runs";
    let keys = ["lock", "mutex", "thread", "race", "critical"];
    let upper = ["LOCK", "MUTEX", "THREAD", "RACE", "CRITICAL"];
    assert_eq!(check_signal(&text.to_ascii_uppercase(), &keys), check_signal(text, &keys));
    assert_eq!(check_signal(text, &upper), check_signal(text, &keys));
}

#[test]
fn added_text_keeps_signal() {
    let text = "pool connection";
    let keys = ["pool", "connection", "overhead", "reuse"];
    assert!(check_signal(text, &keys));
    assert!(check_signal(&format!("{}{}", text, " extra words"), &keys));
    assert!(check_signal(&format!("{}{}", "prefix ", text), &keys));
}
