use passman::session::{Reply, Session};

#[test]
fn end_to_end_store_cycle() {
    // first process: no file yet
    let mut s = Session::new();
    match s.handle_open("pw", None) {
        Reply::Failed(_) => {}
        _ => panic!("open without a file must fail"),
    }
    let created = s.handle_new_store("pw");
    let file0 = match created.reply {
        Reply::StoreCreated => created.write.expect("new store returns bytes"),
        _ => panic!("new store failed"),
    };
    assert!(matches!(s.handle_new_child("sub"), Reply::ChildCreated));
    let json = "{\"username\":\"u\",\"password\":\"hunter2\",\"email\":\"u@x.com\",\"url\":\"site.com\"}";
    assert!(matches!(s.handle_new_entry("sub.user1", json), Reply::EntryAdded));
    let closed = s.handle_close(Some("pw"));
    let file1 = match closed.reply {
        Reply::Closed => closed.write.expect("close returns bytes"),
        _ => panic!("close failed"),
    };
    assert!(file0 != file1);
    // second process: open the persisted store and query it
    let mut s2 = Session::new();
    assert!(matches!(s2.handle_open("pw", Some(file1)), Reply::Opened));
    match s2.handle_get("url", "site.com") {
        Reply::Entries(es) => {
            assert_eq!(es.len(), 1);
            assert_eq!(es[0].username, "u");
            assert_eq!(es[0].url, "site.com");
            assert!(!es[0].sealed);
            assert_eq!(es[0].pass_vec, b"hunter2".to_vec());
        }
        _ => panic!("get failed"),
    }
}

#[test]
fn open_with_wrong_password_locks_session() {
    let mut s = Session::new();
    let created = s.handle_new_store("pw");
    let file = match created.reply {
        Reply::StoreCreated => created.write.unwrap(),
        _ => panic!("new store failed"),
    };
    let mut s2 = Session::new();
    match s2.handle_open("other", Some(file)) {
        Reply::Failed(_) => {}
        _ => panic!("wrong password must not open"),
    }
    assert!(matches!(s2.handle_new_child("x"), Reply::NotOpen));
    assert!(matches!(s2.handle_get("all", ""), Reply::NotOpen));
}

#[test]
fn back_to_back_open_close_keeps_store_intact() {
    let mut s = Session::new();
    let created = s.handle_new_store("pw");
    let mut file = match created.reply {
        Reply::StoreCreated => created.write.unwrap(),
        _ => panic!("new store failed"),
    };
    assert!(matches!(s.handle_new_child("keep"), Reply::ChildCreated));
    // two connections issue open then close back to back
    for _ in 0..2 {
        let mut conn = Session::new();
        assert!(matches!(conn.handle_open("pw", Some(file.clone())), Reply::Opened));
        let closed = conn.handle_close(None);
        file = match closed.reply {
            Reply::Closed => closed.write.unwrap(),
            _ => panic!("close failed"),
        };
    }
    // the persisted file still opens afterwards
    let mut last = Session::new();
    assert!(matches!(last.handle_open("pw", Some(file)), Reply::Opened));
}

#[test]
fn close_from_locked_session_is_refused() {
    let mut s = Session::new();
    let out = s.handle_close(Some("pw"));
    assert!(matches!(out.reply, Reply::NotOpen));
    assert!(out.write.is_none());
    let out = s.handle_close(None);
    assert!(matches!(out.reply, Reply::NotOpen));
    assert!(out.write.is_none());
}

#[test]
fn dispatch_maps_commands() {
    let mut s = Session::new();
    let r = s.dispatch("nonsense", "", "", "", None);
    assert!(matches!(r.reply, Reply::UnknownCommand));
    let r = s.dispatch("new", "store", "pw", "", None);
    let file = match r.reply {
        Reply::StoreCreated => r.write.unwrap(),
        _ => panic!("dispatch new store failed"),
    };
    let r = s.dispatch("new", "child", "sub", "", None);
    assert!(matches!(r.reply, Reply::ChildCreated));
    let r = s.dispatch("open", "pw", "", "", Some(file));
    assert!(matches!(r.reply, Reply::Opened));
    let r = s.dispatch("get", "all", "", "", None);
    match r.reply {
        Reply::Entries(es) => assert!(es.is_empty()),
        _ => panic!("get all failed"),
    }
    let r = s.dispatch("close", "", "", "", None);
    assert!(matches!(r.reply, Reply::Closed));
}
