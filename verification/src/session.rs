use vstd::prelude::*;

use crate::codec::ser_entry_input;
use crate::cryptman::{argon2_of, open_spec, pass_fits, NONCE_LEN, SALT_LEN, TRAILER_LEN};
use crate::passman::{
    all_entries, attach_child_spec, attach_entry_spec, container_len_bound, empty_container_v,
    filter_matching, revealed_rel, sealed_entry_rel, sealed_tree_rel, secrets_fit, split_path,
    Container, ContainerV, Entry, EntryV,
};
use crate::StoreError;
use vstd::string::StringSliceAdditionalSpecFns;

verus! {

broadcast use vstd::string::group_string_axioms;

/// The reply a command produces; the caller renders it as text.
pub enum Reply {
    Opened,
    StoreCreated,
    ChildCreated,
    EntryAdded,
    Closed,
    Entries(Vec<Entry>),
    Failed(StoreError),
    UnknownCommand,
    NotOpen,
}

/// What one command yields: a reply, and bytes for the caller to persist
/// when the command sealed the store.
pub struct DispatchOut {
    pub reply: Reply,
    pub write: Option<Vec<u8>>,
}

/// The lock-guarded state of one running service: the loaded tree, the
/// cached session password, and whether a store is open.
pub struct Session {
    pub root: Container,
    pub pass: Option<String>,
    pub opened: bool,
}

/// The cached password, when one is set, is one Argon2 accepts.
pub open spec fn session_inv(s: Session) -> bool {
    s.pass matches Some(p) ==> pass_fits(p@)
}

/// What a sealed store in a reply's write field promises: it opens under
/// the password to the serialized form of a sealing of the given tree.
pub open spec fn sealed_store(env: Seq<u8>, tree: ContainerV, pass: Seq<char>) -> bool {
    exists|t2: ContainerV, ks: Seq<u8>, ss: Seq<u8>|
        {
            &&& #[trigger] sealed_tree_rel(tree, t2, ks, ss)
            &&& ks == argon2_of(pass, ss)
            &&& ss.len() == SALT_LEN
            &&& open_spec(env, pass) == Some(
                vstd::utf8::encode_utf8(crate::codec::ser_container(t2)),
            )
        }
}

/// What opening a store does to the session: on success it holds exactly
/// the tree the file's bytes open to, with the password cached; on failure
/// it is locked, the cached password cleared, the loaded tree untouched.
pub open spec fn open_post(
    pre: Session,
    post: Session,
    password: Seq<char>,
    file: Option<Vec<u8>>,
    r: Reply,
) -> bool {
    &&& match r {
        Reply::Opened => {
            &&& post.opened
            &&& post.pass matches Some(p) && p@ == password
            &&& file matches Some(b) && open_spec(b@, password) == Some(
                vstd::utf8::encode_utf8(crate::codec::ser_container(post.root@)),
            )
        },
        Reply::Failed(e) => {
            &&& !post.opened
            &&& post.pass is None
            &&& post.root == pre.root
            &&& file is None ==> e == StoreError::NotFound
            &&& file matches Some(b) ==> {
                &&& open_spec(b@, password) is None ==> e == (if b@.len() <= TRAILER_LEN {
                    StoreError::MalformedEnvelope
                } else {
                    StoreError::AuthenticationFailed
                })
                &&& open_spec(b@, password) is Some ==> e == StoreError::SerializationError
            }
        },
        _ => false,
    }
    &&& forall|v: ContainerV|
        (file matches Some(b) && open_spec(b@, password) == Some(
            vstd::utf8::encode_utf8(#[trigger] crate::codec::ser_container(v)),
        )) ==> (r is Opened && post.root@ == v)
}

/// What creating a store does: the session holds the fresh empty tree, open,
/// with the password cached, and the sealed empty store always comes back.
pub open spec fn new_store_post(post: Session, password: Seq<char>, r: DispatchOut) -> bool {
    &&& post.opened
    &&& post.pass matches Some(p) && p@ == password
    &&& post.root@ == empty_container_v(Seq::<char>::empty(), "none"@)
    &&& r.reply is StoreCreated
    &&& r.write matches Some(env) && sealed_store(env@, post.root@, password)
}

/// What closing does: the session itself never changes; from a locked
/// session the answer is NotOpen; from an open one, a seal of the loaded
/// tree under the given or cached password, owed whenever a password is at
/// hand and the tree is small enough to seal.
pub open spec fn close_post(
    pre: Session,
    post: Session,
    password: Option<Seq<char>>,
    r: DispatchOut,
) -> bool {
    &&& post == pre
    &&& !pre.opened ==> r.reply == Reply::NotOpen && r.write is None
    &&& pre.opened ==> match r.reply {
        Reply::Closed => {
            &&& r.write matches Some(env)
            &&& exists|pw: Seq<char>|
                {
                    &&& #[trigger] sealed_store(r.write->Some_0@, pre.root@, pw)
                    &&& match password {
                        Some(p) => pw == p,
                        None => pre.pass matches Some(q) && pw == q@,
                    }
                }
        },
        Reply::Failed(e) => {
            &&& (e == StoreError::NotFound ==> password is None && pre.pass is None && r.write
                is None)
            &&& (e == StoreError::NotFound || e == StoreError::Encryption)
        },
        _ => false,
    }
    &&& (pre.opened && password is None && pre.pass is None) ==> r.reply == Reply::Failed(
        StoreError::NotFound,
    )
    &&& (pre.opened && (password is Some || pre.pass is Some) && secrets_fit(pre.root@) && 4
        * container_len_bound(pre.root@) <= 0xFFFF_FFFF) ==> r.reply is Closed
}

/// What creating a container path does, from an open session.
pub open spec fn new_child_post(pre: Session, post: Session, path: Seq<char>, r: Reply) -> bool {
    &&& !pre.opened ==> r == Reply::NotOpen && post == pre
    &&& pre.opened ==> {
        &&& r == Reply::ChildCreated
        &&& post.root@ == attach_child_spec(pre.root@, split_path(path))
        &&& post.pass == pre.pass
        &&& post.opened
    }
}

/// What creating an entry does: the input form is parsed, its secret sealed
/// under the cached password with a fresh salt and nonce, and the sealed
/// entry inserted at the path. Success is owed whenever the input parses
/// and the secret is small enough to seal.
pub open spec fn new_entry_post(
    pre: Session,
    post: Session,
    path: Seq<char>,
    json: Seq<char>,
    r: Reply,
) -> bool {
    &&& (!pre.opened || pre.pass is None) ==> r == Reply::NotOpen && post == pre
    &&& (pre.opened && pre.pass is Some) ==> {
        &&& post.pass == pre.pass
        &&& post.opened
        &&& match r {
            Reply::EntryAdded => exists|
                u: Seq<char>,
                p: Seq<char>,
                m: Seq<char>,
                url: Seq<char>,
                se: EntryV,
                ks: Seq<u8>,
                ss: Seq<u8>,
            |
                {
                    &&& #[trigger] sealed_entry_rel(
                        EntryV {
                            username: u,
                            pass_vec: vstd::utf8::encode_utf8(p),
                            email: m,
                            url: url,
                            parent: Seq::<char>::empty(),
                            sealed: false,
                        },
                        se,
                        ks,
                        ss,
                    )
                    &&& json == ser_entry_input(u, p, m, url)
                    &&& ks == argon2_of(pre.pass->Some_0@, ss)
                    &&& ss.len() == SALT_LEN
                    &&& post.root@ == attach_entry_spec(pre.root@, split_path(path), se)
                },
            Reply::Failed(e) => {
                &&& post == pre
                &&& (e == StoreError::SerializationError || e == StoreError::Encryption)
                &&& (e == StoreError::SerializationError ==> forall|
                    u: Seq<char>,
                    p: Seq<char>,
                    m: Seq<char>,
                    url: Seq<char>,
                | json != ser_entry_input(u, p, m, url))
            },
            _ => false,
        }
    }
    &&& (pre.opened && pre.pass is Some && exists|
        u: Seq<char>,
        p: Seq<char>,
        m: Seq<char>,
        url: Seq<char>,
    |
        json == #[trigger] ser_entry_input(u, p, m, url) && vstd::utf8::encode_utf8(p).len()
            <= 0xFFFF_FFFF) ==> r is EntryAdded
}

/// What a query does: the session never changes; from an open session with
/// a cached password, exactly the selected entries come back, sealed
/// secrets that the password unlocks revealed.
pub open spec fn get_post(
    pre: Session,
    post: Session,
    selector: Seq<char>,
    value: Seq<char>,
    r: Reply,
) -> bool {
    &&& post == pre
    &&& (!pre.opened || pre.pass is None) ==> r == Reply::NotOpen
    &&& (pre.opened && pre.pass is Some) ==> ({
        let base = if selector == "all"@ || selector == "*"@ {
            all_entries(pre.root@)
        } else {
            filter_matching(all_entries(pre.root@), selector, value)
        };
        &&& r matches Reply::Entries(es)
        &&& r->Entries_0@.len() == base.len()
        &&& forall|i: int|
            0 <= i < base.len() ==> revealed_rel(
                base[i],
                #[trigger] r->Entries_0@[i]@,
                pre.pass->Some_0@,
            )
    })
}

impl Session {
    /// A fresh, locked session: no tree, no cached password.
    pub fn new() -> (r: Session)
        ensures
            !r.opened,
            r.pass is None,
            r.root@ == empty_container_v(Seq::<char>::empty(), "none"@),
            session_inv(r),
    {
        let s = Session { root: Container::new("", None), pass: None, opened: false };
        proof {
            reveal_strlit("");
            assert(""@ =~= Seq::<char>::empty());
            assert(s.root@ =~= empty_container_v(Seq::<char>::empty(), "none"@));
        }
        s
    }

    /// Load a store from the backing file's bytes.
    pub fn handle_open(&mut self, password: &str, file: Option<Vec<u8>>) -> (r: Reply)
        requires
            pass_fits(password@),
            session_inv(*old(self)),
        ensures
            session_inv(*final(self)),
            open_post(*old(self), *final(self), password@, file, r),
    {
        match file {
            None => {
                self.opened = false;
                self.pass = None;
                Reply::Failed(StoreError::NotFound)
            },
            Some(b) => {
                match crate::passman::decrypt_container_bytes(b, password) {
                    Ok(c) => {
                        self.root = c;
                        self.pass = Some(crate::passman::copy_str(password));
                        self.opened = true;
                        Reply::Opened
                    },
                    Err(e) => {
                        self.opened = false;
                        self.pass = None;
                        Reply::Failed(e)
                    },
                }
            },
        }
    }

    /// Start a fresh, empty store: the session holds the new empty tree,
    /// open, with the password cached, and the sealed empty store comes
    /// back for the caller to write out.
    pub fn handle_new_store(&mut self, password: &str) -> (r: DispatchOut)
        requires
            pass_fits(password@),
            session_inv(*old(self)),
        ensures
            session_inv(*final(self)),
            new_store_post(*final(self), password@, r),
    {
        self.root = Container::new("", None);
        self.pass = Some(crate::passman::copy_str(password));
        self.opened = true;
        proof {
            reveal_strlit("");
            assert(""@ =~= Seq::<char>::empty());
            assert(self.root@ =~= empty_container_v(Seq::<char>::empty(), "none"@));
        }
        match crate::passman::encrypt_container_bytes(self.root.duplicate(), password) {
            Ok(env) => DispatchOut { reply: Reply::StoreCreated, write: Some(env) },
            Err(_) => {
                proof {
                    // the empty tree always seals: nothing to fit, and its
                    // serialized form is far under the cipher's bound
                    reveal_strlit("none");
                    assert(secrets_fit(self.root@)) by {
                        assert(crate::passman::entries_fit(Seq::<EntryV>::empty()));
                        assert(crate::passman::children_fit(Seq::<ContainerV>::empty()));
                    }
                    assert(container_len_bound(self.root@) <= 100) by {
                        assert("none"@.len() == 4);
                        assert(crate::passman::entries_len_bound(Seq::<EntryV>::empty()) == 0);
                        assert(crate::passman::children_len_bound(Seq::<ContainerV>::empty())
                            == 0);
                    }
                    assert(false);
                }
                unreached()
            },
        }
    }

    /// Seal a copy of the loaded tree under the given password, or the
    /// cached one when none is given. The session itself does not change:
    /// the tree stays loaded and plaintext in memory.
    pub fn handle_close(&mut self, password: Option<&str>) -> (r: DispatchOut)
        requires
            password matches Some(p) ==> pass_fits(p@),
            session_inv(*old(self)),
        ensures
            session_inv(*final(self)),
            close_post(
                *old(self),
                *final(self),
                match password {
                    Some(p) => Some(p@),
                    None => None,
                },
                r,
            ),
    {
        if !self.opened {
            return DispatchOut { reply: Reply::NotOpen, write: None };
        }
        let pw: String = match password {
            Some(p) => crate::passman::copy_str(p),
            None => {
                match &self.pass {
                    Some(q) => q.clone(),
                    None => {
                        return DispatchOut {
                            reply: Reply::Failed(StoreError::NotFound),
                            write: None,
                        };
                    },
                }
            },
        };
        match crate::passman::encrypt_container_bytes(self.root.duplicate(), pw.as_str()) {
            Ok(env) => {
                let out = DispatchOut { reply: Reply::Closed, write: Some(env) };
                proof {
                    assert(sealed_store(out.write->Some_0@, self.root@, pw@));
                    assert(match password {
                        Some(p) => pw@ == p@,
                        None => self.pass matches Some(q) && pw@ == q@,
                    });
                }
                out
            },
            Err(_) => DispatchOut { reply: Reply::Failed(StoreError::Encryption), write: None },
        }
    }

    /// Create every container a dotted path names, from an open session.
    pub fn handle_new_child(&mut self, path: &str) -> (r: Reply)
        requires
            session_inv(*old(self)),
        ensures
            session_inv(*final(self)),
            new_child_post(*old(self), *final(self), path@, r),
    {
        if !self.opened {
            return Reply::NotOpen;
        }
        let segs = crate::passman::split_path_exec(path);
        crate::passman::attach_child_in(&mut self.root, &segs, 0);
        proof {
            crate::passman::lemma_seg_views(segs@);
            assert(crate::passman::seg_views(segs@).skip(0) =~= split_path(path@));
        }
        Reply::ChildCreated
    }

    /// Parse an entry from its input form, seal its secret under the cached
    /// password with a fresh salt and nonce, and insert it at the path.
    pub fn handle_new_entry(&mut self, path: &str, json: &str) -> (r: Reply)
        requires
            session_inv(*old(self)),
        ensures
            session_inv(*final(self)),
            new_entry_post(*old(self), *final(self), path@, json@, r),
    {
        if !self.opened {
            return Reply::NotOpen;
        }
        let pw: String = match &self.pass {
            Some(q) => q.clone(),
            None => {
                return Reply::NotOpen;
            },
        };
        let mut e = Entry::new("", Vec::new(), "", "");
        match e.from_json_string(json) {
            Ok(()) => {},
            Err(_) => {
                return Reply::Failed(StoreError::SerializationError);
            },
        }
        let ghost plain = e@;
        let zeros = crate::passman::zero_salt();
        let (ks, ss) = match crate::cryptman::pass_2_key(pw.as_str(), zeros) {
            Ok(x) => x,
            Err(_) => {
                proof {
                    // a password within Argon2's bound always derives
                    assert(false);
                }
                return Reply::Failed(StoreError::Encryption);
            },
        };
        let nonce = crate::cryptman::os_random_bytes(NONCE_LEN);
        match e.encrypt_password(&ks, &nonce, &ss) {
            Ok(()) => {},
            Err(_) => {
                proof {
                    // the parsed secret was too large to seal: no input form
                    // with a fitting secret explains the text
                    assert forall|u: Seq<char>, p: Seq<char>, m: Seq<char>, url: Seq<char>|
                        !(json@ == #[trigger] ser_entry_input(u, p, m, url)
                            && vstd::utf8::encode_utf8(p).len() <= 0xFFFF_FFFF) by {
                        if json@ == ser_entry_input(u, p, m, url) {
                            assert(plain.pass_vec == vstd::utf8::encode_utf8(p));
                        }
                    }
                }
                return Reply::Failed(StoreError::Encryption);
            },
        }
        proof {
            assert(sealed_entry_rel(plain, e@, ks@, ss@));
        }
        let segs = crate::passman::split_path_exec(path);
        crate::passman::attach_entry_in(&mut self.root, &segs, 0, e);
        proof {
            crate::passman::lemma_seg_views(segs@);
            assert(crate::passman::seg_views(segs@).skip(0) =~= split_path(path@));
        }
        Reply::EntryAdded
    }

    /// Query entries: all of them for "all" or "*", otherwise those whose
    /// named field equals the value; sealed secrets that the cached
    /// password unlocks come back as plaintext.
    pub fn handle_get(&mut self, selector: &str, value: &str) -> (r: Reply)
        requires
            session_inv(*old(self)),
        ensures
            session_inv(*final(self)),
            get_post(*old(self), *final(self), selector@, value@, r),
    {
        if !self.opened {
            return Reply::NotOpen;
        }
        let pw: String = match &self.pass {
            Some(q) => q.clone(),
            None => {
                return Reply::NotOpen;
            },
        };
        let base = if crate::passman::str_eq(selector, "all") || crate::passman::str_eq(
            selector,
            "*",
        ) {
            crate::passman::get_all_entries(&self.root)
        } else {
            crate::passman::get_entries_by_field(&self.root, selector, value)
        };
        proof {
            crate::passman::lemma_views_of_entries(base@);
        }
        let revealed = crate::passman::reveal_entries(base, pw.as_str());
        Reply::Entries(revealed)
    }

    /// Map one parsed request to its handler, per the command table: open,
    /// close, get, and the three forms of new. Each recognized command
    /// behaves exactly as its handler does; a password over Argon2's bound
    /// is turned away before any handler runs.
    pub fn dispatch(
        &mut self,
        cmd: &str,
        arg1: &str,
        arg2: &str,
        arg3: &str,
        file: Option<Vec<u8>>,
    ) -> (r: DispatchOut)
        requires
            session_inv(*old(self)),
        ensures
            session_inv(*final(self)),
            (cmd@ != "open"@ && cmd@ != "close"@ && cmd@ != "get"@ && cmd@ != "new"@) ==> (
            r.reply == Reply::UnknownCommand && r.write is None && *final(self) == *old(self)),
            cmd@ == "open"@ ==> r.write is None && (if vstd::utf8::encode_utf8(arg1@).len()
                > 0xFFFF_FFFF {
                r.reply == Reply::Failed(StoreError::KeyDerivation) && *final(self) == *old(self)
            } else {
                open_post(*old(self), *final(self), arg1@, file, r.reply)
            }),
            cmd@ == "close"@ ==> (if vstd::utf8::encode_utf8(arg1@).len() == 0 {
                close_post(*old(self), *final(self), None, r)
            } else if vstd::utf8::encode_utf8(arg1@).len() > 0xFFFF_FFFF {
                r.reply == Reply::Failed(StoreError::KeyDerivation) && r.write is None
                    && *final(self) == *old(self)
            } else {
                close_post(*old(self), *final(self), Some(arg1@), r)
            }),
            cmd@ == "get"@ ==> r.write is None && get_post(
                *old(self),
                *final(self),
                arg1@,
                arg2@,
                r.reply,
            ),
            cmd@ == "new"@ ==> (if arg1@ == "store"@ {
                if vstd::utf8::encode_utf8(arg2@).len() > 0xFFFF_FFFF {
                    r.reply == Reply::Failed(StoreError::KeyDerivation) && r.write is None
                        && *final(self) == *old(self)
                } else {
                    new_store_post(*final(self), arg2@, r)
                }
            } else if arg1@ == "child"@ {
                r.write is None && new_child_post(*old(self), *final(self), arg2@, r.reply)
            } else if arg1@ == "entry"@ {
                r.write is None && new_entry_post(*old(self), *final(self), arg2@, arg3@, r.reply)
            } else {
                r.reply == Reply::UnknownCommand && r.write is None && *final(self) == *old(self)
            }),
    {
        proof {
            reveal_strlit("open");
            reveal_strlit("close");
            reveal_strlit("get");
            reveal_strlit("new");
            reveal_strlit("store");
            reveal_strlit("child");
            reveal_strlit("entry");
            assert("open"@.len() == 4 && "close"@.len() == 5 && "get"@.len() == 3
                && "new"@.len() == 3);
            assert("get"@[0] == 'g' && "new"@[0] == 'n');
            assert("open"@ != "get"@ && "open"@ != "close"@ && "open"@ != "new"@);
            assert("close"@ != "get"@ && "close"@ != "new"@);
            assert("new"@ != "get"@);
            assert("store"@[0] == 's' && "child"@[0] == 'c' && "entry"@[0] == 'e');
            assert("store"@ != "child"@ && "store"@ != "entry"@ && "child"@ != "entry"@);
        }
        if crate::passman::str_eq(cmd, "open") {
            let ab = arg1.as_bytes();
            if ab.len() > 0xFFFF_FFFF {
                return DispatchOut { reply: Reply::Failed(StoreError::KeyDerivation), write: None };
            }
            proof {
                assert(pass_fits(arg1@));
            }
            let reply = self.handle_open(arg1, file);
            DispatchOut { reply, write: None }
        } else if crate::passman::str_eq(cmd, "close") {
            let ab = arg1.as_bytes();
            if ab.len() == 0 {
                self.handle_close(None)
            } else if ab.len() > 0xFFFF_FFFF {
                DispatchOut { reply: Reply::Failed(StoreError::KeyDerivation), write: None }
            } else {
                proof {
                    assert(pass_fits(arg1@));
                }
                self.handle_close(Some(arg1))
            }
        } else if crate::passman::str_eq(cmd, "get") {
            let reply = self.handle_get(arg1, arg2);
            DispatchOut { reply, write: None }
        } else if crate::passman::str_eq(cmd, "new") {
            if crate::passman::str_eq(arg1, "store") {
                let ab = arg2.as_bytes();
                if ab.len() > 0xFFFF_FFFF {
                    return DispatchOut {
                        reply: Reply::Failed(StoreError::KeyDerivation),
                        write: None,
                    };
                }
                proof {
                    assert(pass_fits(arg2@));
                }
                self.handle_new_store(arg2)
            } else if crate::passman::str_eq(arg1, "child") {
                let reply = self.handle_new_child(arg2);
                DispatchOut { reply, write: None }
            } else if crate::passman::str_eq(arg1, "entry") {
                let reply = self.handle_new_entry(arg2, arg3);
                DispatchOut { reply, write: None }
            } else {
                DispatchOut { reply: Reply::UnknownCommand, write: None }
            }
        } else {
            DispatchOut { reply: Reply::UnknownCommand, write: None }
        }
    }
}

} // verus!
