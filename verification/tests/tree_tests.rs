use passman::passman::{
    attach_child, attach_entry, get_all_entries, get_entries_by_field, Container, Entry,
};

fn entry(user: &str, url: &str) -> Entry {
    Entry::new(user, b"s".to_vec(), "m@x", url)
}

#[test]
fn add_entry_stamps_parent_and_overwrites_by_url() {
    let mut c = Container::new("box", None);
    c.add_entry(entry("first", "site"));
    assert_eq!(c.entries.len(), 1);
    assert_eq!(c.entries[0].parent, "box");
    assert_eq!(c.entries[0].username, "first");
    c.add_entry(entry("second", "site"));
    assert_eq!(c.entries.len(), 1);
    assert_eq!(c.entries[0].username, "second");
    c.add_entry(entry("third", "other"));
    assert_eq!(c.entries.len(), 2);
}

#[test]
fn add_child_stamps_parent_and_overwrites_by_name() {
    let mut c = Container::new("top", None);
    c.add_child(Container::new("kid", None));
    assert_eq!(c.children.len(), 1);
    assert_eq!(c.children[0].parent, "top");
    let mut replacement = Container::new("kid", None);
    replacement.add_entry(entry("u", "marker"));
    c.add_child(replacement);
    assert_eq!(c.children.len(), 1);
    assert_eq!(c.children[0].entries.len(), 1);
    c.add_child(Container::new("kid2", None));
    assert_eq!(c.children.len(), 2);
}

#[test]
fn container_new_parent_defaults() {
    let a = Container::new("a", None);
    assert_eq!(a.parent, "none");
    let b = Container::new("b", Some("a"));
    assert_eq!(b.parent, "a");
    assert!(b.children.is_empty());
    assert!(b.entries.is_empty());
}

#[test]
fn attach_child_creates_missing_path() {
    let root = Container::new("root", None);
    let t = attach_child(root, "a.b.c");
    assert_eq!(t.children.len(), 1);
    assert_eq!(t.children[0].name, "a");
    assert_eq!(t.children[0].parent, "root");
    assert_eq!(t.children[0].children[0].name, "b");
    assert_eq!(t.children[0].children[0].children[0].name, "c");
}

#[test]
fn attach_child_twice_is_idempotent() {
    let root = Container::new("root", None);
    let once = attach_child(root, "a.b");
    let once_json = once.to_json_string();
    let twice = attach_child(once, "a.b");
    assert_eq!(twice.to_json_string(), once_json);
}

#[test]
fn attach_entry_walks_and_inserts() {
    let root = Container::new("root", None);
    let t = attach_entry(root, "sub.user1", entry("u", "site.com"));
    let leaf = &t.children[0].children[0];
    assert_eq!(leaf.name, "user1");
    assert_eq!(leaf.entries.len(), 1);
    assert_eq!(leaf.entries[0].url, "site.com");
    assert_eq!(leaf.entries[0].parent, "user1");
}

#[test]
fn list_all_covers_three_levels_exactly_once() {
    let mut root = Container::new("root", None);
    root.add_entry(entry("l1", "one"));
    let mut mid = Container::new("mid", None);
    mid.add_entry(entry("l2", "two"));
    let mut deep = Container::new("deep", None);
    deep.add_entry(entry("l3", "three"));
    deep.add_entry(entry("l3b", "four"));
    mid.add_child(deep);
    root.add_child(mid);
    let all = get_all_entries(&root);
    let urls: Vec<String> = all.iter().map(|e| e.url.clone()).collect();
    assert_eq!(urls, vec!["one", "two", "three", "four"]);
}

#[test]
fn find_by_field_selects_and_orders() {
    let mut root = Container::new("root", None);
    root.add_entry(Entry::new("alice", b"x".to_vec(), "a@x", "s1"));
    let mut kid = Container::new("kid", None);
    kid.add_entry(Entry::new("alice", b"y".to_vec(), "a@y", "s2"));
    kid.add_entry(Entry::new("bob", b"z".to_vec(), "a@x", "s3"));
    root.add_child(kid);
    let by_user = get_entries_by_field(&root, "username", "alice");
    let urls: Vec<String> = by_user.iter().map(|e| e.url.clone()).collect();
    assert_eq!(urls, vec!["s1", "s2"]);
    let by_mail = get_entries_by_field(&root, "email", "a@x");
    assert_eq!(by_mail.len(), 2);
    let by_url = get_entries_by_field(&root, "url", "s3");
    assert_eq!(by_url.len(), 1);
    assert_eq!(by_url[0].username, "bob");
    let by_parent = get_entries_by_field(&root, "parent", "kid");
    assert_eq!(by_parent.len(), 2);
    let unknown = get_entries_by_field(&root, "color", "blue");
    assert!(unknown.is_empty());
}

#[test]
fn duplicate_is_deep_and_equal() {
    let mut root = Container::new("root", None);
    root.add_entry(entry("u", "x"));
    root.add_child(Container::new("kid", None));
    let copy = root.duplicate();
    assert_eq!(copy.to_json_string(), root.to_json_string());
}
