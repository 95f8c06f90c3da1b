use cmdlog::command::Command;
use cmdlog::store::Store;

fn s(t: &str) -> String {
    t.to_string()
}

#[test]
fn put_then_get_roundtrip() {
    let mut st = Store::new();
    assert_eq!(st.apply(Command::Put(s("k"), s("v"))).unwrap(), "OK");
    assert_eq!(st.apply(Command::Get(s("k"))).unwrap(), "v");
}

#[test]
fn absent_get_is_nil() {
    let mut st = Store::new();
    assert_eq!(st.apply(Command::Get(s("never"))).unwrap(), "nil");
}

#[test]
fn deleted_get_is_nil() {
    let mut st = Store::new();
    st.apply(Command::Put(s("k"), s("v"))).unwrap();
    assert_eq!(st.apply(Command::Del(s("k"))).unwrap(), "OK");
    assert_eq!(st.apply(Command::Get(s("k"))).unwrap(), "nil");
}

#[test]
fn del_absent_is_ok_and_harmless() {
    let mut st = Store::new();
    st.apply(Command::Put(s("other"), s("1"))).unwrap();
    assert_eq!(st.apply(Command::Del(s("absent"))).unwrap(), "OK");
    assert_eq!(st.apply(Command::Get(s("other"))).unwrap(), "1");
}

#[test]
fn incr_absent_sets_one() {
    let mut st = Store::new();
    assert_eq!(st.apply(Command::Incr(s("k"))).unwrap(), "OK");
    assert_eq!(st.apply(Command::Get(s("k"))).unwrap(), "1");
}

#[test]
fn incr_accumulates() {
    let mut st = Store::new();
    for _ in 0..5 {
        assert_eq!(st.apply(Command::Incr(s("n"))).unwrap(), "OK");
    }
    assert_eq!(st.apply(Command::Get(s("n"))).unwrap(), "5");
}

#[test]
fn flush_clears_all() {
    let mut st = Store::new();
    st.apply(Command::Put(s("a"), s("1"))).unwrap();
    st.apply(Command::Put(s("b"), s("2"))).unwrap();
    assert_eq!(st.apply(Command::Flush).unwrap(), "OK");
    assert_eq!(st.apply(Command::Get(s("a"))).unwrap(), "nil");
    assert_eq!(st.apply(Command::Get(s("b"))).unwrap(), "nil");
}

#[test]
fn put_overwrites() {
    let mut st = Store::new();
    st.apply(Command::Put(s("k"), s("v1"))).unwrap();
    st.apply(Command::Put(s("k"), s("v2"))).unwrap();
    assert_eq!(st.apply(Command::Get(s("k"))).unwrap(), "v2");
}

#[test]
fn incr_non_numeric_fails_and_leaves_store() {
    let mut st = Store::new();
    st.apply(Command::Put(s("a"), s("hello"))).unwrap();
    assert!(st.apply(Command::Incr(s("a"))).is_err());
    assert_eq!(st.apply(Command::Get(s("a"))).unwrap(), "hello");
}

#[test]
fn incr_with_leading_zeros() {
    let mut st = Store::new();
    st.apply(Command::Put(s("a"), s("007"))).unwrap();
    assert_eq!(st.apply(Command::Incr(s("a"))).unwrap(), "OK");
    assert_eq!(st.apply(Command::Get(s("a"))).unwrap(), "8");
}

#[test]
fn incr_negative_value() {
    let mut st = Store::new();
    st.apply(Command::Put(s("a"), s("-5"))).unwrap();
    assert_eq!(st.apply(Command::Incr(s("a"))).unwrap(), "OK");
    assert_eq!(st.apply(Command::Get(s("a"))).unwrap(), "-4");
}

#[test]
fn incr_at_i64_max_fails() {
    let mut st = Store::new();
    st.apply(Command::Put(s("a"), s("9223372036854775807"))).unwrap();
    assert!(st.apply(Command::Incr(s("a"))).is_err());
    assert_eq!(st.apply(Command::Get(s("a"))).unwrap(), "9223372036854775807");
}

#[test]
fn incr_beyond_i64_range_fails() {
    let mut st = Store::new();
    st.apply(Command::Put(s("a"), s("99999999999999999999"))).unwrap();
    assert!(st.apply(Command::Incr(s("a"))).is_err());
}
