//! Unit tests of the library's pieces: escaping, decimal rendering, the
//! trib codec, the router, the in-memory store, and the keeper round.

use tribbler::bin_client::{fnv1a, BinStorageClient};
use tribbler::codec::{decode_trib, encode_trib};
use tribbler::colon::{escape, unescape};
use tribbler::digits::{dec_u64, parse_u64};
use tribbler::keeper::sync_clocks;
use tribbler::storage::{KeyValue, MemStorage, Pattern};
use tribbler::trib::{is_valid_username, sort_trib, Trib};

#[test]
fn escape_doubles_colons() {
    assert_eq!(escape("a:b"), "a::b");
    assert_eq!(escape("nocolon"), "nocolon");
    assert_eq!(escape("::"), "::::");
    assert_eq!(escape(""), "");
}

#[test]
fn unescape_undoes_escape() {
    for s in ["", "a", ":", "::", "a:b:c", "weird::mix:", "héllo:wörld", "signup_bob"] {
        assert_eq!(unescape(&escape(s)), s);
    }
}

#[test]
fn decimal_renders_and_parses() {
    assert_eq!(dec_u64(0), "0");
    assert_eq!(dec_u64(7), "7");
    assert_eq!(dec_u64(1234), "1234");
    assert_eq!(dec_u64(u64::MAX), "18446744073709551615");
    assert_eq!(parse_u64("0"), Some(0));
    assert_eq!(parse_u64("1234"), Some(1234));
    assert_eq!(parse_u64("18446744073709551615"), Some(u64::MAX));
    assert_eq!(parse_u64(""), None);
    assert_eq!(parse_u64("12x"), None);
    assert_eq!(parse_u64("99999999999999999999999"), None);
}

#[test]
fn trib_codec_round_trips() {
    let t = Trib {
        user: "bob".to_string(),
        message: "hello world, with spaces".to_string(),
        time: 7,
        clock: 42,
    };
    let s = encode_trib(&t);
    assert_eq!(s, "42 7 bob hello world, with spaces");
    let back = decode_trib(&s).unwrap();
    assert_eq!(back.user, t.user);
    assert_eq!(back.message, t.message);
    assert_eq!(back.time, t.time);
    assert_eq!(back.clock, t.clock);

    let empty_msg = Trib { user: "a".to_string(), message: String::new(), time: 0, clock: 0 };
    let s2 = encode_trib(&empty_msg);
    assert_eq!(s2, "0 0 a ");
    let back2 = decode_trib(&s2).unwrap();
    assert_eq!(back2.message, "");
}

#[test]
fn username_rules() {
    assert!(is_valid_username("bob"));
    assert!(is_valid_username("a1b2c3"));
    assert!(!is_valid_username(""));
    assert!(!is_valid_username("Bob"));
    assert!(!is_valid_username("1bob"));
    assert!(!is_valid_username("bob:"));
    assert!(!is_valid_username("abcdefghijklmnop")); // sixteen characters
    assert!(is_valid_username("abcdefghijklmno")); // fifteen characters
}

#[test]
fn sort_trib_follows_the_canonical_order() {
    let a = Trib { user: "bob".to_string(), message: "m".to_string(), time: 1, clock: 1 };
    let b = Trib { user: "bob".to_string(), message: "m".to_string(), time: 1, clock: 2 };
    let c = Trib { user: "bob".to_string(), message: "m".to_string(), time: 2, clock: 2 };
    let d = Trib { user: "carl".to_string(), message: "m".to_string(), time: 2, clock: 2 };
    let e = Trib { user: "carl".to_string(), message: "n".to_string(), time: 2, clock: 2 };
    assert_eq!(sort_trib(&a, &b), std::cmp::Ordering::Less);
    assert_eq!(sort_trib(&b, &c), std::cmp::Ordering::Less);
    assert_eq!(sort_trib(&c, &d), std::cmp::Ordering::Less);
    assert_eq!(sort_trib(&d, &e), std::cmp::Ordering::Less);
    assert_eq!(sort_trib(&e, &d), std::cmp::Ordering::Greater);
    assert_eq!(sort_trib(&d, &d), std::cmp::Ordering::Equal);
}

#[test]
fn router_is_deterministic() {
    let c1 = BinStorageClient::new(vec![MemStorage::new(), MemStorage::new(), MemStorage::new()]);
    let c2 = BinStorageClient::new(vec![MemStorage::new(), MemStorage::new(), MemStorage::new()]);
    for name in ["", "bob", "alice", "a-very-long-name"] {
        assert_eq!(c1.bin(name).back, c2.bin(name).back);
        assert_eq!(c1.bin(name).back, c1.bin(name).back);
        assert!(c1.bin(name).back < 3);
    }
    // the reference FNV-1a values pin the algorithm across processes
    assert_eq!(fnv1a(""), 0xcbf29ce484222325);
    assert_eq!(fnv1a("a"), 0xaf63dc4c8601ec8c);
}

#[test]
fn mem_storage_kv_and_lists() {
    let mut st = MemStorage::new();
    assert_eq!(st.get("k"), None);
    st.set(&KeyValue { key: "k".to_string(), value: "v".to_string() });
    assert_eq!(st.get("k"), Some("v".to_string()));
    st.set(&KeyValue { key: "k".to_string(), value: "w".to_string() });
    assert_eq!(st.get("k"), Some("w".to_string()));

    st.set(&KeyValue { key: "signup_bob".to_string(), value: "T".to_string() });
    st.set(&KeyValue { key: "signup_amy".to_string(), value: "T".to_string() });
    let mut ks = st.keys(&Pattern { prefix: "signup_".to_string(), suffix: "".to_string() });
    ks.sort();
    assert_eq!(ks, vec!["signup_amy".to_string(), "signup_bob".to_string()]);

    st.list_append(&KeyValue { key: "l".to_string(), value: "x".to_string() });
    st.list_append(&KeyValue { key: "l".to_string(), value: "y".to_string() });
    st.list_append(&KeyValue { key: "l".to_string(), value: "x".to_string() });
    assert_eq!(st.list_get("l"), vec!["x", "y", "x"]);
    let removed = st.list_remove(&KeyValue { key: "l".to_string(), value: "x".to_string() });
    assert_eq!(removed, 2);
    assert_eq!(st.list_get("l"), vec!["y"]);
    let lk = st.list_keys(&Pattern { prefix: "".to_string(), suffix: "".to_string() });
    assert_eq!(lk, vec!["l".to_string()]);
}

#[test]
fn clock_advances_as_specified() {
    let mut st = MemStorage::new();
    assert_eq!(st.clock_value(), 0);
    assert_eq!(st.clock(0), 1);
    assert_eq!(st.clock(5), 5);
    assert_eq!(st.clock(3), 6);
    assert_eq!(st.clock(u64::MAX), u64::MAX);
    assert_eq!(st.clock(0), u64::MAX);
}

#[test]
fn keeper_round_reaches_the_maximum() {
    let mut backs = vec![MemStorage::new(), MemStorage::new(), MemStorage::new()];
    backs[0].clock(5);
    backs[2].clock(9);
    sync_clocks(&mut backs);
    for b in &backs {
        assert!(b.clock_value() >= 9);
    }
    // clocks never move backwards
    assert!(backs[2].clock_value() >= 9);
}
