use minichain::registry::{hashset_from_string, hashset_to_string, Registry};

fn pairs(reg: &Registry) -> Vec<(u32, String)> {
    let mut v: Vec<(u32, String)> = reg.entries.clone();
    v.sort();
    v
}

#[test]
fn insert_reports_newness_and_dedups() {
    let mut reg = Registry::new();
    assert!(reg.insert(1, String::from("localhost:1")));
    assert!(!reg.insert(1, String::from("localhost:1")));
    assert!(reg.insert(2, String::from("localhost:2")));
    assert_eq!(reg.len(), 2);
}

#[test]
fn remove_reports_presence() {
    let mut reg = Registry::new();
    reg.insert(1, String::from("h:1"));
    reg.insert(2, String::from("h:2"));
    assert!(reg.remove(1, &String::from("h:1")));
    assert!(!reg.remove(1, &String::from("h:1")));
    assert_eq!(reg.len(), 1);
    assert!(reg.contains_entry(2, &String::from("h:2")));
}

#[test]
fn serialization_round_trip() {
    let mut reg = Registry::new();
    reg.insert(1, String::from("localhost:1"));
    reg.insert(2, String::from("127.0.0.1:99"));
    let text = hashset_to_string(&reg);
    assert_eq!(text, "1,localhost:1;2,127.0.0.1:99");
    let back = hashset_from_string(text).expect("must parse");
    assert_eq!(pairs(&back), pairs(&reg));
}

#[test]
fn parse_rejects_malformed_entries() {
    assert!(hashset_from_string(String::from("")).is_err());
    assert!(hashset_from_string(String::from("1")).is_err());
    assert!(hashset_from_string(String::from("x,addr")).is_err());
    assert!(hashset_from_string(String::from("1,bad addr with X")).is_err());
    assert!(hashset_from_string(String::from("1,ok:1;;2,ok:2")).is_err());
}

#[test]
fn union_is_idempotent() {
    let mut a = Registry::new();
    a.insert(1, String::from("h:1"));
    a.insert(2, String::from("h:2"));
    let before = pairs(&a);
    let a_copy = Registry { entries: a.entries.clone() };
    a.union_with(&a_copy);
    assert_eq!(pairs(&a), before);
}

#[test]
fn union_is_commutative_as_sets() {
    let mut a = Registry::new();
    a.insert(1, String::from("h:1"));
    a.insert(2, String::from("h:2"));
    let mut b = Registry::new();
    b.insert(2, String::from("h:2"));
    b.insert(3, String::from("h:3"));
    let mut ab = Registry { entries: a.entries.clone() };
    ab.union_with(&b);
    let mut ba = Registry { entries: b.entries.clone() };
    ba.union_with(&a);
    assert_eq!(pairs(&ab), pairs(&ba));
    assert_eq!(ab.len(), 3);
}

#[test]
fn max_id_counts_start_value() {
    let mut reg = Registry::new();
    assert_eq!(reg.max_id_from(5), 5);
    reg.insert(9, String::from("h:9"));
    reg.insert(3, String::from("h:3"));
    assert_eq!(reg.max_id_from(5), 9);
    assert_eq!(reg.max_id_from(11), 11);
}
