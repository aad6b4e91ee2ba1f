use passman::passman::{Container, Entry};

fn sample_entry(user: &str, secret: &[u8], email: &str, url: &str) -> Entry {
    Entry::new(user, secret.to_vec(), email, url)
}

fn sample_tree() -> Container {
    // one root, two sibling containers, one nested grandchild, entries in each
    let mut root = Container::new("root", None);
    root.add_entry(sample_entry("ru", b"rs", "r@x", "root.example"));
    let mut a = Container::new("alpha", None);
    a.add_entry(sample_entry("au", b"as", "a@x", "alpha.example"));
    let mut grand = Container::new("deep", None);
    grand.add_entry(sample_entry("gu", b"gs", "g@x", "deep.example"));
    a.add_child(grand);
    let mut b = Container::new("beta", None);
    b.add_entry(sample_entry("bu", b"bs", "b@x", "beta.example"));
    root.add_child(a);
    root.add_child(b);
    root
}

#[test]
fn tree_round_trip() {
    let t = sample_tree();
    let json = t.to_json_string();
    let mut back = Container::new("", None);
    back.from_json_string(&json).unwrap();
    assert_eq!(back.to_json_string(), json);
    assert_eq!(back.name, "root");
    assert_eq!(back.children.len(), 2);
    assert_eq!(back.children[0].name, "alpha");
    assert_eq!(back.children[0].children[0].name, "deep");
    assert_eq!(back.children[1].name, "beta");
    assert_eq!(back.entries.len(), 1);
    assert_eq!(back.entries[0].url, "root.example");
    assert_eq!(back.entries[0].pass_vec, b"rs".to_vec());
}

#[test]
fn tree_round_trip_through_bytes() {
    let t = sample_tree();
    let json = t.to_json_string();
    let bytes = json.as_bytes().to_vec();
    let mut back = Container::new("", None);
    back.from_json_arr(&bytes).unwrap();
    assert_eq!(back.to_json_string(), json);
}

#[test]
fn awkward_strings_round_trip() {
    let mut t = Container::new("qu\"ote", None);
    t.add_entry(sample_entry(
        "back\\slash",
        b"\x00\x01secret",
        "tab\there",
        "new\nline",
    ));
    t.add_entry(sample_entry("caf\u{e9}", b"\xff\xfe", "\u{1f511}", "ctrl\u{1f}end"));
    let json = t.to_json_string();
    let mut back = Container::new("", None);
    back.from_json_string(&json).unwrap();
    assert_eq!(back.name, "qu\"ote");
    assert_eq!(back.entries[0].username, "back\\slash");
    assert_eq!(back.entries[0].email, "tab\there");
    assert_eq!(back.entries[0].url, "new\nline");
    assert_eq!(back.entries[1].username, "caf\u{e9}");
    assert_eq!(back.entries[1].email, "\u{1f511}");
    assert_eq!(back.entries[1].url, "ctrl\u{1f}end");
    assert_eq!(back.entries[1].pass_vec, vec![0xffu8, 0xfe]);
}

#[test]
fn entry_round_trip_bytes() {
    let mut e = sample_entry("u", b"\x00\x7f\xff", "e@x", "u.example");
    e.parent = "owner".to_string();
    let json = e.to_json_string();
    let mut back = Entry::new("", Vec::new(), "", "");
    back.from_json_arr(json.as_bytes()).unwrap();
    assert_eq!(back.username, "u");
    assert_eq!(back.pass_vec, vec![0u8, 0x7f, 0xff]);
    assert_eq!(back.email, "e@x");
    assert_eq!(back.url, "u.example");
    assert_eq!(back.parent, "owner");
    assert!(!back.sealed);
}

#[test]
fn entry_input_form() {
    let mut e = Entry::new("", Vec::new(), "", "");
    e.from_json_string(
        "{\"username\":\"u\",\"password\":\"hunter2\",\"email\":\"u@x.com\",\"url\":\"site.com\"}",
    )
    .unwrap();
    assert_eq!(e.username, "u");
    assert_eq!(e.pass_vec, b"hunter2".to_vec());
    assert_eq!(e.email, "u@x.com");
    assert_eq!(e.url, "site.com");
    assert_eq!(e.parent, "");
    assert!(!e.sealed);
}

#[test]
fn malformed_documents_are_rejected() {
    let mut c = Container::new("keepme", None);
    assert!(c.from_json_string("").is_err());
    assert!(c.from_json_string("{\"name\":\"x\"}").is_err());
    let good = sample_tree().to_json_string();
    let mut truncated = good.clone();
    truncated.pop();
    assert!(c.from_json_string(&truncated).is_err());
    let trailing = format!("{} ", good);
    assert!(c.from_json_string(&trailing).is_err());
    // failure leaves the tree unchanged
    assert_eq!(c.name, "keepme");
    let mut e = Entry::new("", Vec::new(), "", "");
    assert!(e.from_json_string("{\"username\":\"u\"}").is_err());
    assert!(e.from_json_arr(&[0xff, 0xfe]).is_err());
}

#[test]
fn non_canonical_numbers_are_rejected() {
    let mut e = Entry::new("x", vec![5u8], "m", "u");
    let json = e.to_json_string();
    let padded = json.replace("[5]", "[05]");
    assert_ne!(json, padded);
    let mut back = Entry::new("", Vec::new(), "", "");
    assert!(back.from_json_arr(padded.as_bytes()).is_err());
    let big = json.replace("[5]", "[256]");
    assert!(back.from_json_arr(big.as_bytes()).is_err());
    let _ = e.to_json_string();
}
