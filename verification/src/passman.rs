use vstd::prelude::*;

use crate::cryptman::{
    argon2_of, envelope_bytes, open_spec, pass_fits, xchacha_open, xchacha_seal, KEY_LEN, NONCE_LEN,
    SALT_LEN, TAG_LEN, TRAILER_LEN,
};
use crate::StoreError;

verus! {

/// One credential record.
#[derive(Clone, Debug)]
pub struct Entry {
    pub username: String,
    pub pass_vec: Vec<u8>,
    pub email: String,
    pub url: String,
    pub parent: String,
    /// Whether `pass_vec` currently holds a sealed envelope rather than the
    /// plaintext secret. A plaintext secret is sealed at most once.
    pub sealed: bool,
}

/// A named node of the secret tree.
pub struct Container {
    pub name: String,
    pub children: Vec<Container>,
    pub entries: Vec<Entry>,
    pub parent: String,
}

/// The mathematical value of an `Entry`.
#[verifier::ext_equal]
pub struct EntryV {
    pub username: Seq<char>,
    pub pass_vec: Seq<u8>,
    pub email: Seq<char>,
    pub url: Seq<char>,
    pub parent: Seq<char>,
    pub sealed: bool,
}

/// The mathematical value of a `Container`.
#[verifier::ext_equal]
pub struct ContainerV {
    pub name: Seq<char>,
    pub children: Seq<ContainerV>,
    pub entries: Seq<EntryV>,
    pub parent: Seq<char>,
}

impl View for Entry {
    type V = EntryV;

    open spec fn view(&self) -> EntryV {
        EntryV {
            username: self.username@,
            pass_vec: self.pass_vec@,
            email: self.email@,
            url: self.url@,
            parent: self.parent@,
            sealed: self.sealed,
        }
    }
}

pub open spec fn views_of_entries(es: Seq<Entry>) -> Seq<EntryV> {
    es.map_values(|e: Entry| e@)
}

pub proof fn lemma_views_of_entries(es: Seq<Entry>)
    ensures
        views_of_entries(es).len() == es.len(),
        forall|i: int| 0 <= i < es.len() ==> views_of_entries(es)[i] == es[i]@,
{
}

/// The value of a whole container, children included.
pub open spec fn container_vw(c: Container) -> ContainerV
    decreases c,
{
    ContainerV {
        name: c.name@,
        children: views_of_children(c.children@),
        entries: views_of_entries(c.entries@),
        parent: c.parent@,
    }
}

pub open spec fn views_of_children(cs: Seq<Container>) -> Seq<ContainerV>
    decreases cs,
{
    if cs.len() == 0 {
        Seq::empty()
    } else {
        seq![container_vw(cs[0])] + views_of_children(cs.drop_first())
    }
}

impl View for Container {
    type V = ContainerV;

    open spec fn view(&self) -> ContainerV {
        container_vw(*self)
    }
}

pub proof fn lemma_views_of_children(cs: Seq<Container>)
    ensures
        views_of_children(cs).len() == cs.len(),
        forall|i: int| 0 <= i < cs.len() ==> views_of_children(cs)[i] == cs[i]@,
    decreases cs,
{
    if cs.len() > 0 {
        lemma_views_of_children(cs.drop_first());
        assert(forall|i: int| 1 <= i < cs.len() ==> cs.drop_first()[i - 1] == cs[i]);
    }
}

/// No two sibling containers share a name.
pub open spec fn unique_names(cs: Seq<ContainerV>) -> bool {
    forall|i: int, j: int| 0 <= i < j < cs.len() ==> cs[i].name != cs[j].name
}

/// No two entries of one container share a url.
pub open spec fn unique_urls(es: Seq<EntryV>) -> bool {
    forall|i: int, j: int| 0 <= i < j < es.len() ==> es[i].url != es[j].url
}

/// The index of the first entry with the given url, or -1.
pub open spec fn find_url(es: Seq<EntryV>, url: Seq<char>) -> int
    decreases es,
{
    if es.len() == 0 {
        -1
    } else if es[0].url == url {
        0
    } else {
        let r = find_url(es.drop_first(), url);
        if r == -1 {
            -1
        } else {
            r + 1
        }
    }
}

pub proof fn lemma_find_url(es: Seq<EntryV>, url: Seq<char>)
    ensures
        find_url(es, url) == -1 ==> forall|i: int| 0 <= i < es.len() ==> es[i].url != url,
        find_url(es, url) != -1 ==> {
            &&& 0 <= find_url(es, url) < es.len()
            &&& es[find_url(es, url)].url == url
            &&& forall|i: int| 0 <= i < find_url(es, url) ==> es[i].url != url
        },
    decreases es,
{
    if es.len() > 0 && es[0].url != url {
        lemma_find_url(es.drop_first(), url);
        assert(forall|i: int| 1 <= i < es.len() ==> es.drop_first()[i - 1] == es[i]);
    }
}

/// The index of the first child with the given name, or -1.
pub open spec fn find_name(cs: Seq<ContainerV>, name: Seq<char>) -> int
    decreases cs,
{
    if cs.len() == 0 {
        -1
    } else if cs[0].name == name {
        0
    } else {
        let r = find_name(cs.drop_first(), name);
        if r == -1 {
            -1
        } else {
            r + 1
        }
    }
}

pub proof fn lemma_find_name(cs: Seq<ContainerV>, name: Seq<char>)
    ensures
        find_name(cs, name) == -1 ==> forall|i: int| 0 <= i < cs.len() ==> cs[i].name != name,
        find_name(cs, name) != -1 ==> {
            &&& 0 <= find_name(cs, name) < cs.len()
            &&& cs[find_name(cs, name)].name == name
            &&& forall|i: int| 0 <= i < find_name(cs, name) ==> cs[i].name != name
        },
    decreases cs,
{
    if cs.len() > 0 && cs[0].name != name {
        lemma_find_name(cs.drop_first(), name);
        assert(forall|i: int| 1 <= i < cs.len() ==> cs.drop_first()[i - 1] == cs[i]);
    }
}

/// The entry as it stands once a container owns it: parent set to the owner.
pub open spec fn stamp_entry(e: EntryV, owner: Seq<char>) -> EntryV {
    EntryV {
        username: e.username,
        pass_vec: e.pass_vec,
        email: e.email,
        url: e.url,
        parent: owner,
        sealed: e.sealed,
    }
}

/// The container as it stands once a parent owns it.
pub open spec fn stamp_child(c: ContainerV, owner: Seq<char>) -> ContainerV {
    ContainerV { name: c.name, children: c.children, entries: c.entries, parent: owner }
}

/// What inserting an entry into a container's entry list yields: the entry is
/// stamped with the owner's name; an entry with the same url is overwritten
/// in place, otherwise the new entry goes to the end.
pub open spec fn insert_entry_spec(es: Seq<EntryV>, e: EntryV, owner: Seq<char>) -> Seq<EntryV> {
    let stamped = stamp_entry(e, owner);
    let idx = find_url(es, e.url);
    if idx == -1 {
        es.push(stamped)
    } else {
        es.update(idx, stamped)
    }
}

/// What inserting a child container yields: stamped with the owner's name; a
/// child of the same name is overwritten in place, otherwise appended.
pub open spec fn insert_child_spec(cs: Seq<ContainerV>, c: ContainerV, owner: Seq<char>) -> Seq<
    ContainerV,
> {
    let stamped = stamp_child(c, owner);
    let idx = find_name(cs, c.name);
    if idx == -1 {
        cs.push(stamped)
    } else {
        cs.update(idx, stamped)
    }
}

/// Inserting keeps entries keyed by url: uniqueness is preserved.
pub proof fn lemma_insert_entry_unique(es: Seq<EntryV>, e: EntryV, owner: Seq<char>)
    requires
        unique_urls(es),
    ensures
        unique_urls(insert_entry_spec(es, e, owner)),
{
    lemma_find_url(es, e.url);
}

/// Inserting keeps children keyed by name: uniqueness is preserved.
pub proof fn lemma_insert_child_unique(cs: Seq<ContainerV>, c: ContainerV, owner: Seq<char>)
    requires
        unique_names(cs),
    ensures
        unique_names(insert_child_spec(cs, c, owner)),
{
    lemma_find_name(cs, c.name);
}

impl Entry {
    /// A fresh entry: no parent yet, secret still plaintext.
    pub fn new(username: &str, pass_vec: Vec<u8>, email: &str, url: &str) -> (r: Entry)
        ensures
            r@.username == username@,
            r@.pass_vec == pass_vec@,
            r@.email == email@,
            r@.url == url@,
            r@.parent == Seq::<char>::empty(),
            !r@.sealed,
    {
        let e = Entry {
            username: copy_str(username),
            pass_vec,
            email: copy_str(email),
            url: copy_str(url),
            parent: String::new(),
            sealed: false,
        };
        proof {
            assert(e@.parent =~= Seq::<char>::empty());
        }
        e
    }

    /// An equal copy, field for field.
    pub fn duplicate(&self) -> (r: Entry)
        ensures
            r@ == self@,
    {
        Entry {
            username: self.username.clone(),
            pass_vec: clone_bytes(&self.pass_vec),
            email: self.email.clone(),
            url: self.url.clone(),
            parent: self.parent.clone(),
            sealed: self.sealed,
        }
    }
}

pub fn clone_bytes(v: &Vec<u8>) -> (r: Vec<u8>)
    ensures
        r@ == v@,
{
    let mut r: Vec<u8> = Vec::new();
    let mut i: usize = 0;
    while i < v.len()
        invariant
            i <= v@.len(),
            r@ == v@.subrange(0, i as int),
        decreases v@.len() - i,
    {
        r.push(v[i]);
        i += 1;
        proof {
            assert(r@ =~= v@.subrange(0, i as int));
        }
    }
    proof {
        assert(r@ =~= v@);
    }
    r
}

pub fn copy_str(s: &str) -> (r: String)
    ensures
        r@ == s@,
{
    String::from_str(s)
}

impl Container {
    /// A fresh, empty container. Without a parent name it belongs to "none".
    pub fn new(name: &str, parent: Option<&str>) -> (r: Container)
        ensures
            r@.name == name@,
            r@.children =~= Seq::<ContainerV>::empty(),
            r@.entries =~= Seq::<EntryV>::empty(),
            r@.parent == match parent {
                Some(p) => p@,
                None => "none"@,
            },
    {
        let parent_name = match parent {
            Some(p) => copy_str(p),
            None => copy_str("none"),
        };
        Container {
            name: copy_str(name),
            children: Vec::new(),
            entries: Vec::new(),
            parent: parent_name,
        }
    }

    /// Insert an entry, keyed by url: latest wins. The entry is stamped with
    /// this container's name.
    pub fn add_entry(&mut self, entry: Entry)
        ensures
            final(self)@.name == old(self)@.name,
            final(self)@.parent == old(self)@.parent,
            final(self)@.children == old(self)@.children,
            final(self)@.entries == insert_entry_spec(old(self)@.entries, entry@, old(self)@.name),
    {
        let ghost orig = entry@;
        let mut e = entry;
        e.parent = self.name.clone();
        let ghost stamped = e@;
        let n = self.entries.len();
        let mut i: usize = 0;
        while i < n
            invariant
                i <= n,
                n == self.entries@.len(),
                *self == *old(self),
                e@ == stamped,
                orig == entry@,
                stamped == stamp_entry(orig, old(self)@.name),
                forall|j: int| 0 <= j < i ==> old(self)@.entries[j].url != orig.url,
            decreases n - i,
        {
            if str_eq_str(&self.entries[i].url, &e.url) {
                proof {
                    lemma_find_url(old(self)@.entries, orig.url);
                    assert(old(self)@.entries[i as int].url == orig.url);
                    assert(find_url(old(self)@.entries, orig.url) == i as int);
                }
                self.entries.set(i, e);
                proof {
                    assert(views_of_entries(self.entries@) =~= insert_entry_spec(
                        old(self)@.entries,
                        entry@,
                        old(self)@.name,
                    ));
                }
                return ;
            }
            proof {
                assert(old(self)@.entries[i as int].url == old(self).entries@[i as int]@.url);
            }
            i += 1;
        }
        proof {
            lemma_find_url(old(self)@.entries, orig.url);
            assert(find_url(old(self)@.entries, orig.url) == -1) by {
                if find_url(old(self)@.entries, orig.url) != -1 {
                    assert(old(self)@.entries[find_url(old(self)@.entries, orig.url)].url
                        == orig.url);
                }
            }
        }
        self.entries.push(e);
        proof {
            assert(views_of_entries(self.entries@) =~= insert_entry_spec(
                old(self)@.entries,
                orig,
                old(self)@.name,
            ));
        }
    }

    /// Insert a child container, keyed by name: latest wins. The child is
    /// stamped with this container's name.
    pub fn add_child(&mut self, container: Container)
        ensures
            final(self)@.name == old(self)@.name,
            final(self)@.parent == old(self)@.parent,
            final(self)@.entries == old(self)@.entries,
            final(self)@.children == insert_child_spec(
                old(self)@.children,
                container@,
                old(self)@.name,
            ),
    {
        let ghost orig = container@;
        let mut c = container;
        c.parent = self.name.clone();
        let ghost stamped = c@;
        let n = self.children.len();
        let mut i: usize = 0;
        proof {
            lemma_views_of_children(self.children@);
        }
        while i < n
            invariant
                i <= n,
                n == self.children@.len(),
                *self == *old(self),
                c@ == stamped,
                orig == container@,
                stamped == stamp_child(orig, old(self)@.name),
                forall|j: int| 0 <= j < i ==> old(self)@.children[j].name != orig.name,
            decreases n - i,
        {
            proof {
                lemma_views_of_children(old(self).children@);
            }
            if str_eq_str(&self.children[i].name, &c.name) {
                proof {
                    lemma_find_name(old(self)@.children, orig.name);
                    assert(old(self)@.children[i as int].name == orig.name);
                    assert(find_name(old(self)@.children, orig.name) == i as int);
                }
                self.children.set(i, c);
                proof {
                    lemma_views_of_children_update(old(self).children@, i as int, stamped);
                    assert(views_of_children(self.children@) =~= insert_child_spec(
                        old(self)@.children,
                        container@,
                        old(self)@.name,
                    ));
                }
                return ;
            }
            i += 1;
        }
        proof {
            lemma_find_name(old(self)@.children, orig.name);
            assert(find_name(old(self)@.children, orig.name) == -1) by {
                if find_name(old(self)@.children, orig.name) != -1 {
                    assert(old(self)@.children[find_name(old(self)@.children, orig.name)].name
                        == orig.name);
                }
            }
        }
        self.children.push(c);
        proof {
            lemma_views_of_children_push(old(self).children@, stamped);
            assert(views_of_children(self.children@) =~= insert_child_spec(
                old(self)@.children,
                orig,
                old(self)@.name,
            ));
        }
    }
}

/// Pushing one container onto a list extends the list of views by its view.
pub proof fn lemma_views_of_children_push(cs: Seq<Container>, v: ContainerV)
    ensures
        forall|c: Container| c@ == v ==> views_of_children(cs.push(c)) =~= views_of_children(
            cs,
        ).push(v),
    decreases cs,
{
    assert forall|c: Container| c@ == v implies views_of_children(cs.push(c))
        =~= views_of_children(cs).push(v) by {
        lemma_views_of_children(cs.push(c));
        lemma_views_of_children(cs);
    }
}

/// Replacing one container of a list replaces just its view.
pub proof fn lemma_views_of_children_update(cs: Seq<Container>, i: int, v: ContainerV)
    requires
        0 <= i < cs.len(),
    ensures
        forall|c: Container| c@ == v ==> views_of_children(cs.update(i, c)) =~= views_of_children(
            cs,
        ).update(i, v),
{
    assert forall|c: Container| c@ == v implies views_of_children(cs.update(i, c))
        =~= views_of_children(cs).update(i, v) by {
        lemma_views_of_children(cs.update(i, c));
        lemma_views_of_children(cs);
    }
}

pub fn str_eq_str(a: &String, b: &String) -> (r: bool)
    ensures
        r == (a@ == b@),
{
    a.eq(b)
}

} // verus!

verus! {

/// Every entry of the tree in traversal order: a container's own entries
/// first, then each child's, recursively.
pub open spec fn all_entries(v: ContainerV) -> Seq<EntryV>
    decreases v,
{
    v.entries + all_entries_list(v.children)
}

pub open spec fn all_entries_list(cs: Seq<ContainerV>) -> Seq<EntryV>
    decreases cs,
{
    if cs.len() == 0 {
        Seq::empty()
    } else {
        all_entries(cs[0]) + all_entries_list(cs.drop_first())
    }
}

pub proof fn lemma_all_entries_list_push(cs: Seq<ContainerV>, x: ContainerV)
    ensures
        all_entries_list(cs.push(x)) == all_entries_list(cs) + all_entries(x),
    decreases cs,
{
    if cs.len() == 0 {
        assert(cs.push(x) == seq![x]) by {
            assert(cs.push(x) =~= seq![x]);
        }
        assert(seq![x].drop_first() == Seq::<ContainerV>::empty()) by {
            assert(seq![x].drop_first() =~= Seq::<ContainerV>::empty());
        }
        assert(seq![x].len() == 1 && seq![x][0] == x);
        assert(all_entries_list(seq![x]) == all_entries(x) + all_entries_list(
            Seq::<ContainerV>::empty(),
        ));
        assert(all_entries(x) + Seq::<EntryV>::empty() =~= all_entries(x));
        assert(all_entries_list(cs) + all_entries(x) =~= all_entries(x));
    } else {
        lemma_all_entries_list_push(cs.drop_first(), x);
        assert(cs.push(x).drop_first() =~= cs.drop_first().push(x));
        assert(all_entries(cs[0]) + (all_entries_list(cs.drop_first()) + all_entries(x)) =~= (
        all_entries(cs[0]) + all_entries_list(cs.drop_first())) + all_entries(x));
    }
}

/// Which field of an entry a query name selects, and whether it matches.
pub open spec fn field_matches(e: EntryV, field: Seq<char>, value: Seq<char>) -> bool {
    if field == "url"@ {
        e.url == value
    } else if field == "email"@ {
        e.email == value
    } else if field == "parent"@ {
        e.parent == value
    } else if field == "username"@ {
        e.username == value
    } else {
        false
    }
}

/// The entries whose selected field equals the value, in order.
pub open spec fn filter_matching(es: Seq<EntryV>, field: Seq<char>, value: Seq<char>) -> Seq<EntryV>
    decreases es,
{
    if es.len() == 0 {
        Seq::empty()
    } else {
        (if field_matches(es[0], field, value) {
            seq![es[0]]
        } else {
            Seq::empty()
        }) + filter_matching(es.drop_first(), field, value)
    }
}

pub proof fn lemma_filter_matching_append(
    a: Seq<EntryV>,
    b: Seq<EntryV>,
    field: Seq<char>,
    value: Seq<char>,
)
    ensures
        filter_matching(a + b, field, value) == filter_matching(a, field, value) + filter_matching(
            b,
            field,
            value,
        ),
    decreases a,
{
    if a.len() == 0 {
        assert(a + b =~= b);
        assert(filter_matching(a, field, value) + filter_matching(b, field, value)
            =~= filter_matching(b, field, value));
    } else {
        lemma_filter_matching_append(a.drop_first(), b, field, value);
        assert((a + b).drop_first() =~= a.drop_first() + b);
        assert((a + b)[0] == a[0]);
        let h = if field_matches(a[0], field, value) {
            seq![a[0]]
        } else {
            Seq::<EntryV>::empty()
        };
        assert(h + (filter_matching(a.drop_first(), field, value) + filter_matching(
            b,
            field,
            value,
        )) =~= (h + filter_matching(a.drop_first(), field, value)) + filter_matching(
            b,
            field,
            value,
        ));
    }
}

pub proof fn lemma_filter_matching_push(es: Seq<EntryV>, x: EntryV, field: Seq<char>, value: Seq<char>)
    ensures
        filter_matching(es.push(x), field, value) == filter_matching(es, field, value) + (
        if field_matches(x, field, value) {
            seq![x]
        } else {
            Seq::<EntryV>::empty()
        }),
{
    lemma_filter_matching_append(es, seq![x], field, value);
    assert(es.push(x) =~= es + seq![x]);
    assert(filter_matching(seq![x], field, value) =~= (if field_matches(x, field, value) {
        seq![x]
    } else {
        Seq::<EntryV>::empty()
    })) by {
        assert(seq![x].drop_first() == Seq::<EntryV>::empty()) by {
            assert(seq![x].drop_first() =~= Seq::<EntryV>::empty());
        }
        assert(seq![x].len() == 1 && seq![x][0] == x);
        assert(filter_matching(seq![x], field, value) == (if field_matches(x, field, value) {
            seq![x]
        } else {
            Seq::<EntryV>::empty()
        }) + filter_matching(Seq::<EntryV>::empty(), field, value));
    }
}

/// An unknown field name selects no entry: the match set is empty.
pub proof fn lemma_unknown_field_empty(es: Seq<EntryV>, field: Seq<char>, value: Seq<char>)
    requires
        field != "url"@,
        field != "email"@,
        field != "parent"@,
        field != "username"@,
    ensures
        filter_matching(es, field, value) == Seq::<EntryV>::empty(),
    decreases es,
{
    if es.len() > 0 {
        lemma_unknown_field_empty(es.drop_first(), field, value);
        assert(filter_matching(es, field, value) =~= Seq::<EntryV>::empty());
    }
}

pub fn str_eq(a: &str, b: &str) -> (r: bool)
    ensures
        r == (a@ == b@),
{
    let n = a.unicode_len();
    let m = b.unicode_len();
    if n != m {
        return false;
    }
    let mut i: usize = 0;
    while i < n
        invariant
            i <= n,
            n == a@.len(),
            n == b@.len(),
            forall|j: int| 0 <= j < i ==> a@[j] == b@[j],
        decreases n - i,
    {
        if a.get_char(i) != b.get_char(i) {
            return false;
        }
        i += 1;
    }
    proof {
        assert(a@ =~= b@);
    }
    true
}

impl Container {
    /// An equal copy of the whole tree.
    pub fn duplicate(&self) -> (r: Container)
        ensures
            r@ == self@,
        decreases *self,
    {
        let mut children: Vec<Container> = Vec::new();
        let mut i: usize = 0;
        while i < self.children.len()
            invariant
                i <= self.children@.len(),
                views_of_children(children@) == views_of_children(self.children@).subrange(
                    0,
                    i as int,
                ),
            decreases self.children@.len() - i,
        {
            let ghost old_ch = children@;
            let c = self.children[i].duplicate();
            children.push(c);
            proof {
                lemma_views_of_children(children@);
                lemma_views_of_children(old_ch);
                lemma_views_of_children(self.children@);
                assert(views_of_children(children@) =~= views_of_children(
                    self.children@,
                ).subrange(0, i + 1)) by {
                    assert(forall|k: int| 0 <= k < old_ch.len() ==> children@[k] == old_ch[k]);
                    assert(children@[i as int] == c);
                }
            }
            i += 1;
        }
        let mut entries: Vec<Entry> = Vec::new();
        let mut j: usize = 0;
        while j < self.entries.len()
            invariant
                j <= self.entries@.len(),
                views_of_entries(entries@) == views_of_entries(self.entries@).subrange(0, j as int),
            decreases self.entries@.len() - j,
        {
            let ghost old_e = entries@;
            let e = self.entries[j].duplicate();
            entries.push(e);
            proof {
                assert(views_of_entries(entries@) =~= views_of_entries(self.entries@).subrange(
                    0,
                    j + 1,
                )) by {
                    lemma_views_of_entries(entries@);
                    lemma_views_of_entries(old_e);
                    lemma_views_of_entries(self.entries@);
                    assert(forall|k: int| 0 <= k < old_e.len() ==> entries@[k] == old_e[k]);
                    assert(old_e.len() == j);
                    assert(entries@[j as int] == e);
                    assert(views_of_entries(entries@)[j as int] == e@);
                }
            }
            j += 1;
        }
        let r = Container {
            name: self.name.clone(),
            children,
            entries,
            parent: self.parent.clone(),
        };
        proof {
            lemma_views_of_children(self.children@);
            lemma_views_of_entries(self.entries@);
            assert(views_of_children(r.children@) =~= views_of_children(self.children@));
            assert(views_of_entries(r.entries@) =~= views_of_entries(self.entries@));
        }
        r
    }
}

/// All entries of the tree, own entries before children, children in order.
pub fn get_all_entries(container: &Container) -> (r: Vec<Entry>)
    ensures
        views_of_entries(r@) == all_entries(container@),
    decreases *container,
{
    let mut result: Vec<Entry> = Vec::new();
    let mut j: usize = 0;
    while j < container.entries.len()
        invariant
            j <= container.entries@.len(),
            views_of_entries(result@) == views_of_entries(container.entries@).subrange(0, j as int),
        decreases container.entries@.len() - j,
    {
        let ghost old_r = result@;
        let e = container.entries[j].duplicate();
        result.push(e);
        proof {
            assert(views_of_entries(result@) =~= views_of_entries(container.entries@).subrange(
                0,
                j + 1,
            )) by {
                lemma_views_of_entries(result@);
                lemma_views_of_entries(old_r);
                lemma_views_of_entries(container.entries@);
                assert(forall|k: int| 0 <= k < old_r.len() ==> result@[k] == old_r[k]);
                assert(old_r.len() == j);
                assert(result@[j as int] == e);
                assert(views_of_entries(result@)[j as int] == e@);
            }
        }
        j += 1;
    }
    proof {
        assert(views_of_entries(result@) =~= container@.entries);
    }
    let mut i: usize = 0;
    while i < container.children.len()
        invariant
            i <= container.children@.len(),
            views_of_entries(result@) == container@.entries + all_entries_list(
                views_of_children(container.children@).subrange(0, i as int),
            ),
        decreases container.children@.len() - i,
    {
        let mut sub = get_all_entries(&container.children[i]);
        let ghost old_sub = sub@;
        let ghost sub_views = views_of_entries(sub@);
        let ghost old_res = result@;
        result.append(&mut sub);
        proof {
            lemma_views_of_children(container.children@);
            let vws = views_of_children(container.children@);
            lemma_all_entries_list_push(vws.subrange(0, i as int), vws[i as int]);
            assert(vws.subrange(0, i + 1) =~= vws.subrange(0, i as int).push(vws[i as int]));
            assert(views_of_entries(result@) =~= container@.entries + all_entries_list(
                vws.subrange(0, i + 1),
            )) by {
                assert(result@ == old_res + old_sub);
                assert(views_of_entries(result@) =~= views_of_entries(old_res) + sub_views) by {
                    lemma_views_of_entries(result@);
                    lemma_views_of_entries(old_res);
                    lemma_views_of_entries(old_sub);
                    assert(forall|k: int| 0 <= k < old_res.len() ==> result@[k] == old_res[k]);
                    assert(forall|k: int|
                        0 <= k < old_sub.len() ==> result@[old_res.len() + k] == old_sub[k]);
                }
            }
        }
        i += 1;
    }
    proof {
        lemma_views_of_children(container.children@);
        assert(views_of_children(container.children@).subrange(
            0,
            views_of_children(container.children@).len() as int,
        ) =~= views_of_children(container.children@));
    }
    result
}

/// The entries whose named field equals the target, in traversal order. An
/// unknown field name selects nothing.
pub fn get_entries_by_field(container: &Container, field_name: &str, target_value: &str) -> (r: Vec<
    Entry,
>)
    ensures
        views_of_entries(r@) == filter_matching(
            all_entries(container@),
            field_name@,
            target_value@,
        ),
    decreases *container,
{
    let mut result: Vec<Entry> = Vec::new();
    let mut j: usize = 0;
    while j < container.entries.len()
        invariant
            j <= container.entries@.len(),
            views_of_entries(result@) == filter_matching(
                views_of_entries(container.entries@).subrange(0, j as int),
                field_name@,
                target_value@,
            ),
        decreases container.entries@.len() - j,
    {
        let e = &container.entries[j];
        let hit = if str_eq(field_name, "url") {
            str_eq(e.url.as_str(), target_value)
        } else if str_eq(field_name, "email") {
            str_eq(e.email.as_str(), target_value)
        } else if str_eq(field_name, "parent") {
            str_eq(e.parent.as_str(), target_value)
        } else if str_eq(field_name, "username") {
            str_eq(e.username.as_str(), target_value)
        } else {
            false
        };
        proof {
            assert(hit == field_matches(e@, field_name@, target_value@));
        }
        let ghost old_r = result@;
        if hit {
            let d = e.duplicate();
            result.push(d);
            proof {
                lemma_views_of_entries(result@);
                lemma_views_of_entries(old_r);
                assert(forall|k: int| 0 <= k < old_r.len() ==> result@[k] == old_r[k]);
                assert(result@[old_r.len() as int] == d);
                assert(views_of_entries(result@)[old_r.len() as int] == d@);
            }
        }
        proof {
            lemma_views_of_entries(container.entries@);
            lemma_views_of_entries(result@);
            let evs = views_of_entries(container.entries@);
            lemma_filter_matching_push(
                evs.subrange(0, j as int),
                evs[j as int],
                field_name@,
                target_value@,
            );
            assert(evs.subrange(0, j + 1) =~= evs.subrange(0, j as int).push(evs[j as int]));
            assert(views_of_entries(result@) =~= filter_matching(
                evs.subrange(0, j + 1),
                field_name@,
                target_value@,
            ));
        }
        j += 1;
    }
    proof {
        assert(views_of_entries(container.entries@).subrange(
            0,
            views_of_entries(container.entries@).len() as int,
        ) =~= container@.entries);
    }
    let mut i: usize = 0;
    while i < container.children.len()
        invariant
            i <= container.children@.len(),
            views_of_entries(result@) == filter_matching(
                container@.entries + all_entries_list(
                    views_of_children(container.children@).subrange(0, i as int),
                ),
                field_name@,
                target_value@,
            ),
        decreases container.children@.len() - i,
    {
        let mut sub = get_entries_by_field(&container.children[i], field_name, target_value);
        let ghost old_sub = sub@;
        let ghost sub_views = views_of_entries(sub@);
        let ghost old_res = result@;
        result.append(&mut sub);
        proof {
            lemma_views_of_children(container.children@);
            let vws = views_of_children(container.children@);
            lemma_all_entries_list_push(vws.subrange(0, i as int), vws[i as int]);
            assert(vws.subrange(0, i + 1) =~= vws.subrange(0, i as int).push(vws[i as int]));
            lemma_filter_matching_append(
                container@.entries + all_entries_list(vws.subrange(0, i as int)),
                all_entries(vws[i as int]),
                field_name@,
                target_value@,
            );
            assert((container@.entries + all_entries_list(vws.subrange(0, i as int)))
                + all_entries(vws[i as int]) =~= container@.entries + all_entries_list(
                vws.subrange(0, i + 1),
            ));
            assert(views_of_entries(result@) =~= filter_matching(
                container@.entries + all_entries_list(vws.subrange(0, i + 1)),
                field_name@,
                target_value@,
            )) by {
                assert(result@ == old_res + old_sub);
                assert(views_of_entries(result@) =~= views_of_entries(old_res) + sub_views) by {
                    lemma_views_of_entries(result@);
                    lemma_views_of_entries(old_res);
                    lemma_views_of_entries(old_sub);
                    assert(forall|k: int| 0 <= k < old_res.len() ==> result@[k] == old_res[k]);
                    assert(forall|k: int|
                        0 <= k < old_sub.len() ==> result@[old_res.len() + k] == old_sub[k]);
                }
            }
        }
        i += 1;
    }
    proof {
        lemma_views_of_children(container.children@);
        assert(views_of_children(container.children@).subrange(
            0,
            views_of_children(container.children@).len() as int,
        ) =~= views_of_children(container.children@));
    }
    result
}

} // verus!

verus! {

/// The index of the first occurrence of a character, or -1.
pub open spec fn find_char(p: Seq<char>, c: char) -> int
    decreases p,
{
    if p.len() == 0 {
        -1
    } else if p[0] == c {
        0
    } else {
        let r = find_char(p.drop_first(), c);
        if r == -1 {
            -1
        } else {
            r + 1
        }
    }
}

pub proof fn lemma_find_char(p: Seq<char>, c: char)
    ensures
        find_char(p, c) == -1 ==> forall|i: int| 0 <= i < p.len() ==> p[i] != c,
        find_char(p, c) != -1 ==> {
            &&& 0 <= find_char(p, c) < p.len()
            &&& p[find_char(p, c)] == c
            &&& forall|i: int| 0 <= i < find_char(p, c) ==> p[i] != c
        },
    decreases p,
{
    if p.len() > 0 && p[0] != c {
        lemma_find_char(p.drop_first(), c);
        assert(forall|i: int| 1 <= i < p.len() ==> p.drop_first()[i - 1] == p[i]);
    }
}

/// The segments of a dotted path: split at every dot. An empty path is one
/// empty segment.
pub open spec fn split_path(p: Seq<char>) -> Seq<Seq<char>>
    decreases p.len(), 1int,
{
    let idx = find_char(p, '.');
    if idx < 0 {
        seq![p]
    } else {
        seq![p.subrange(0, idx)] + split_path_rest(p, idx)
    }
}

/// Helper carrying the proof that the rest is shorter.
pub open spec fn split_path_rest(p: Seq<char>, idx: int) -> Seq<Seq<char>>
    recommends
        0 <= idx < p.len(),
    decreases p.len(), 0int,
    when 0 <= idx < p.len()
{
    split_path(p.skip(idx + 1))
}

pub open spec fn seg_views(ss: Seq<String>) -> Seq<Seq<char>> {
    ss.map_values(|s: String| s@)
}

pub proof fn lemma_seg_views(ss: Seq<String>)
    ensures
        seg_views(ss).len() == ss.len(),
        forall|i: int| 0 <= i < ss.len() ==> seg_views(ss)[i] == ss[i]@,
{
}

/// Split a dotted path into its segments.
pub fn split_path_exec(path: &str) -> (r: Vec<String>)
    ensures
        seg_views(r@) == split_path(path@),
{
    let chars = crate::codec::chars_of(path);
    let mut out: Vec<String> = Vec::new();
    let n = chars.len();
    let mut start: usize = 0;
    let ghost whole = chars@;
    proof {
        lemma_seg_views(out@);
        assert(chars@.skip(0) =~= whole);
        assert(seg_views(out@) + split_path(whole) =~= split_path(whole));
    }
    loop
        invariant
            start <= n,
            n == chars@.len(),
            whole == chars@,
            whole == path@,
            seg_views(out@) + split_path(chars@.skip(start as int)) == split_path(whole),
        decreases n - start,
    {
        let mut j: usize = start;
        while j < n && chars[j] != '.'
            invariant
                start <= j <= n,
                n == chars@.len(),
                forall|t: int| start <= t < j ==> chars@[t] != '.',
            decreases n - j,
        {
            j += 1;
        }
        let mut seg: Vec<char> = Vec::new();
        let mut t: usize = start;
        while t < j
            invariant
                start <= t <= j <= n,
                n == chars@.len(),
                seg@ == chars@.subrange(start as int, t as int),
            decreases j - t,
        {
            seg.push(chars[t]);
            t += 1;
            proof {
                assert(seg@ =~= chars@.subrange(start as int, t as int));
            }
        }
        let segs = crate::codec::chars_to_string(&seg);
        let ghost old_out = out@;
        let ghost rest = chars@.skip(start as int);
        out.push(segs);
        proof {
            lemma_seg_views(out@);
            lemma_seg_views(old_out);
            lemma_find_char(rest, '.');
            assert(seg_views(out@) =~= seg_views(old_out) + seq![seg@]) by {
                assert(forall|k: int| 0 <= k < old_out.len() ==> out@[k] == old_out[k]);
                assert(out@[old_out.len() as int]@ == seg@);
            }
        }
        if j < n {
            proof {
                assert(chars@[j as int] == '.');
                assert(find_char(rest, '.') == j - start) by {
                    assert(rest[j - start] == '.');
                    assert(forall|t2: int| 0 <= t2 < j - start ==> rest[t2] != '.');
                    if find_char(rest, '.') == -1 {
                        assert(rest[j - start] != '.');
                    } else {
                        lemma_find_char(rest, '.');
                    }
                }
                assert(rest.subrange(0, j - start) =~= chars@.subrange(start as int, j as int));
                assert(split_path(rest) == seq![seg@] + split_path(rest.skip(j - start + 1)));
                assert(rest.skip(j - start + 1) =~= chars@.skip(j + 1));
                assert(seg_views(out@) + split_path(chars@.skip(j + 1)) =~= (seg_views(old_out)
                    + seq![seg@]) + split_path(chars@.skip(j + 1)));
                assert((seg_views(old_out) + seq![seg@]) + split_path(chars@.skip(j + 1))
                    =~= seg_views(old_out) + (seq![seg@] + split_path(chars@.skip(j + 1))));
                assert(seg_views(out@) + split_path(chars@.skip(j + 1)) == split_path(whole));
            }
            start = j + 1;
        } else {
            proof {
                assert(find_char(rest, '.') == -1) by {
                    if find_char(rest, '.') != -1 {
                        lemma_find_char(rest, '.');
                        assert(rest[find_char(rest, '.')] == '.');
                        assert(chars@[start + find_char(rest, '.')] == '.');
                    }
                }
                assert(seg@ =~= rest) by {
                    assert(rest.subrange(0, rest.len() as int) =~= rest);
                }
                assert(split_path(rest) == seq![seg@]);
                assert(seg_views(out@) =~= split_path(whole)) by {
                    assert(seg_views(old_out) + split_path(rest) == split_path(whole));
                    assert(seg_views(old_out) + seq![seg@] == split_path(whole));
                }
                assert(seg_views(out@) == split_path(whole));
                assert(whole == path@);
                assert(seg_views(out@) == split_path(path@));
            }
            return out;
        }
    }
}

} // verus!

verus! {

pub open spec fn empty_container_v(name: Seq<char>, parent: Seq<char>) -> ContainerV {
    ContainerV {
        name,
        children: Seq::<ContainerV>::empty(),
        entries: Seq::<EntryV>::empty(),
        parent,
    }
}

/// What walking a segment path and creating every missing container yields:
/// an existing segment is descended into in place, a missing one is created
/// empty at the end of its parent's child list.
pub open spec fn attach_child_spec(v: ContainerV, path: Seq<Seq<char>>) -> ContainerV
    decreases path.len(),
{
    if path.len() == 0 {
        v
    } else {
        let seg = path[0];
        let idx = find_name(v.children, seg);
        if idx >= 0 {
            ContainerV {
                name: v.name,
                children: v.children.update(
                    idx,
                    attach_child_spec(v.children[idx], path.drop_first()),
                ),
                entries: v.entries,
                parent: v.parent,
            }
        } else {
            ContainerV {
                name: v.name,
                children: v.children.push(
                    attach_child_spec(empty_container_v(seg, v.name), path.drop_first()),
                ),
                entries: v.entries,
                parent: v.parent,
            }
        }
    }
}

/// What walking a path and inserting an entry at its end yields.
pub open spec fn attach_entry_spec(v: ContainerV, path: Seq<Seq<char>>, e: EntryV) -> ContainerV
    decreases path.len(),
{
    if path.len() == 0 {
        ContainerV {
            name: v.name,
            children: v.children,
            entries: insert_entry_spec(v.entries, e, v.name),
            parent: v.parent,
        }
    } else {
        let seg = path[0];
        let idx = find_name(v.children, seg);
        if idx >= 0 {
            ContainerV {
                name: v.name,
                children: v.children.update(
                    idx,
                    attach_entry_spec(v.children[idx], path.drop_first(), e),
                ),
                entries: v.entries,
                parent: v.parent,
            }
        } else {
            ContainerV {
                name: v.name,
                children: v.children.push(
                    attach_entry_spec(empty_container_v(seg, v.name), path.drop_first(), e),
                ),
                entries: v.entries,
                parent: v.parent,
            }
        }
    }
}

/// Walk the segments from this container, creating missing containers, so
/// that the full path exists afterwards.
#[verifier::rlimit(100)]
#[verifier::spinoff_prover]
pub(crate) fn attach_child_in(c: &mut Container, segs: &Vec<String>, k: usize)
    requires
        k <= segs@.len(),
    ensures
        final(c)@ == attach_child_spec(old(c)@, seg_views(segs@).skip(k as int)),
    decreases segs@.len() - k,
{
    proof {
        lemma_seg_views(segs@);
    }
    if k >= segs.len() {
        proof {
            assert(seg_views(segs@).skip(k as int) =~= Seq::<Seq<char>>::empty());
        }
        return ;
    }
    let ghost path = seg_views(segs@).skip(k as int);
    proof {
        assert(path.drop_first() =~= seg_views(segs@).skip(k + 1));
        assert(path[0] == segs@[k as int]@);
    }
    let ghost orig = *c;
    let ghost orig_children = c.children@;
    let mut new_children: Vec<Container> = Vec::new();
    let mut handled = false;
    while c.children.len() > 0
        invariant
            k < segs@.len(),
            segs@.len() <= usize::MAX,
            path == seg_views(segs@).skip(k as int),
            path.len() > 0,
            path[0] == segs@[k as int]@,
            path.drop_first() == seg_views(segs@).skip(k + 1),
            c.name == orig.name,
            c.entries == orig.entries,
            c.parent == orig.parent,
            orig_children == orig.children@,
            c.children@ == orig_children.skip(
                orig_children.len() - c.children@.len(),
            ),
            new_children@.len() + c.children@.len() == orig_children.len(),
            !handled ==> views_of_children(new_children@) == views_of_children(
                orig_children,
            ).subrange(0, new_children@.len() as int) && (forall|t: int|
                0 <= t < new_children@.len() ==> views_of_children(orig_children)[t].name
                    != path[0]),
            handled ==> ({
                let vws = views_of_children(orig_children);
                let fidx = find_name(vws, path[0]);
                &&& 0 <= fidx < new_children@.len()
                &&& views_of_children(new_children@) == vws.subrange(
                    0,
                    new_children@.len() as int,
                ).update(fidx, attach_child_spec(vws[fidx], path.drop_first()))
            }),
        decreases c.children@.len(),
    {
        let ghost done = new_children@.len() as int;
        let ghost old_new = new_children@;
        let ghost old_rem = c.children@;
        let ch = c.children.remove(0);
        proof {
            lemma_views_of_children(orig_children);
            lemma_views_of_children(old_new);
            assert(ch == orig_children[done]);
            assert(c.children@ =~= orig_children.skip(orig_children.len() - c.children@.len()));
        }
        if !handled && str_eq(ch.name.as_str(), segs[k].as_str()) {
            let mut ch2 = ch;
            attach_child_in(&mut ch2, segs, k + 1);
            new_children.push(ch2);
            handled = true;
            proof {
                let vws = views_of_children(orig_children);
                lemma_find_name(vws, path[0]);
                assert(vws[done].name == path[0]);
                assert(find_name(vws, path[0]) == done) by {
                    if find_name(vws, path[0]) == -1 {
                        assert(vws[done].name != path[0]);
                    } else {
                        lemma_find_name(vws, path[0]);
                    }
                }
                lemma_views_of_children(new_children@);
                assert(views_of_children(new_children@) =~= vws.subrange(0, done + 1).update(
                    done,
                    attach_child_spec(vws[done], path.drop_first()),
                )) by {
                    assert(forall|t: int|
                        0 <= t < old_new.len() ==> new_children@[t] == old_new[t]);
                    assert(new_children@[done] == ch2);
                    assert(ch2@ == attach_child_spec(vws[done], path.drop_first()));
                }
            }
        } else {
            new_children.push(ch);
            proof {
                let vws = views_of_children(orig_children);
                lemma_views_of_children(new_children@);
                if !handled {
                    assert(views_of_children(new_children@) =~= vws.subrange(0, done + 1)) by {
                        assert(forall|t: int|
                            0 <= t < old_new.len() ==> new_children@[t] == old_new[t]);
                        assert(new_children@[done] == ch);
                    }
                    assert(vws[done].name != path[0]);
                } else {
                    let fidx = find_name(vws, path[0]);
                    let rec = attach_child_spec(vws[fidx], path.drop_first());
                    let rhs = vws.subrange(0, done + 1).update(fidx, rec);
                    lemma_views_of_children(old_new);
                    lemma_views_of_children(new_children@);
                    assert(views_of_children(old_new) == vws.subrange(0, done).update(fidx, rec));
                    assert(old_new.len() == done);
                    assert(views_of_children(new_children@).len() == done + 1);
                    assert(rhs.len() == done + 1);
                    assert(forall|t: int| 0 <= t < old_new.len() ==> new_children@[t] == old_new[t]);
                    assert(new_children@[done] == ch);
                    assert(views_of_children(new_children@)[done] == ch@);
                    assert(ch@ == vws[done]);
                    assert(fidx < done);
                    assert forall|t: int| 0 <= t < done + 1 implies views_of_children(
                        new_children@,
                    )[t] == rhs[t] by {
                        if t < done {
                            assert(views_of_children(new_children@)[t] == views_of_children(
                                old_new,
                            )[t]);
                            assert(views_of_children(old_new)[t] == vws.subrange(0, done).update(
                                fidx,
                                rec,
                            )[t]);
                            assert(vws.subrange(0, done).update(fidx, rec)[t] == rhs[t]);
                        } else {
                            assert(views_of_children(new_children@)[t] == vws[done]);
                            assert(rhs[t] == vws[done]);
                        }
                    }
                    assert(views_of_children(new_children@) =~= rhs);
                }
            }
        }
    }
    proof {
        lemma_views_of_children(orig_children);
        assert(views_of_children(orig_children).subrange(
            0,
            orig_children.len() as int,
        ) =~= views_of_children(orig_children));
    }
    if !handled {
        let mut fresh = Container::new(segs[k].as_str(), Some(c.name.as_str()));
        proof {
            assert(fresh@ =~= empty_container_v(path[0], orig.name@));
        }
        attach_child_in(&mut fresh, segs, k + 1);
        let ghost pre = new_children@;
        new_children.push(fresh);
        proof {
            let vws = views_of_children(orig_children);
            lemma_find_name(vws, path[0]);
            assert(find_name(vws, path[0]) == -1) by {
                if find_name(vws, path[0]) != -1 {
                    assert(vws[find_name(vws, path[0])].name == path[0]);
                }
            }
            lemma_views_of_children(new_children@);
            lemma_views_of_children(pre);
            assert(views_of_children(new_children@) =~= vws.push(
                attach_child_spec(empty_container_v(path[0], orig.name@), path.drop_first()),
            )) by {
                assert(views_of_children(pre) == vws);
                assert(forall|t: int| 0 <= t < pre.len() ==> new_children@[t] == pre[t]);
                assert(new_children@[pre.len() as int] == fresh);
                assert(forall|t: int|
                    0 <= t < pre.len() ==> views_of_children(new_children@)[t]
                        == views_of_children(pre)[t]);
                assert(views_of_children(new_children@)[pre.len() as int] == fresh@);
            }
        }
    }
    c.children = new_children;
}

} // verus!

verus! {

/// Walk the segments, creating missing containers, and insert the entry
/// into the container the full path names.
#[verifier::rlimit(100)]
#[verifier::spinoff_prover]
pub(crate) fn attach_entry_in(c: &mut Container, segs: &Vec<String>, k: usize, entry: Entry)
    requires
        k <= segs@.len(),
    ensures
        final(c)@ == attach_entry_spec(old(c)@, seg_views(segs@).skip(k as int), entry@),
    decreases segs@.len() - k,
{
    proof {
        lemma_seg_views(segs@);
    }
    if k >= segs.len() {
        proof {
            assert(seg_views(segs@).skip(k as int) =~= Seq::<Seq<char>>::empty());
        }
        c.add_entry(entry);
        return ;
    }
    let ghost path = seg_views(segs@).skip(k as int);
    let ghost ev = entry@;
    proof {
        assert(path.drop_first() =~= seg_views(segs@).skip(k + 1));
        assert(path[0] == segs@[k as int]@);
    }
    let ghost orig = *c;
    let ghost orig_children = c.children@;
    let mut new_children: Vec<Container> = Vec::new();
    let mut handled = false;
    let mut carry: Option<Entry> = Some(entry);
    while c.children.len() > 0
        invariant
            k < segs@.len(),
            segs@.len() <= usize::MAX,
            path == seg_views(segs@).skip(k as int),
            path.len() > 0,
            path[0] == segs@[k as int]@,
            path.drop_first() == seg_views(segs@).skip(k + 1),
            c.name == orig.name,
            c.entries == orig.entries,
            c.parent == orig.parent,
            orig_children == orig.children@,
            c.children@ == orig_children.skip(orig_children.len() - c.children@.len()),
            new_children@.len() + c.children@.len() == orig_children.len(),
            !handled ==> (carry matches Some(en) && en@ == ev),
            handled ==> carry is None,
            !handled ==> views_of_children(new_children@) == views_of_children(
                orig_children,
            ).subrange(0, new_children@.len() as int) && (forall|t: int|
                0 <= t < new_children@.len() ==> views_of_children(orig_children)[t].name
                    != path[0]),
            handled ==> ({
                let vws = views_of_children(orig_children);
                let fidx = find_name(vws, path[0]);
                &&& 0 <= fidx < new_children@.len()
                &&& views_of_children(new_children@) == vws.subrange(
                    0,
                    new_children@.len() as int,
                ).update(fidx, attach_entry_spec(vws[fidx], path.drop_first(), ev))
            }),
        decreases c.children@.len(),
    {
        let ghost done = new_children@.len() as int;
        let ghost old_new = new_children@;
        let ch = c.children.remove(0);
        proof {
            lemma_views_of_children(orig_children);
            lemma_views_of_children(old_new);
            assert(ch == orig_children[done]);
            assert(c.children@ =~= orig_children.skip(orig_children.len() - c.children@.len()));
        }
        if !handled && str_eq(ch.name.as_str(), segs[k].as_str()) {
            let en = carry.take().unwrap();
            let mut ch2 = ch;
            attach_entry_in(&mut ch2, segs, k + 1, en);
            new_children.push(ch2);
            handled = true;
            proof {
                let vws = views_of_children(orig_children);
                lemma_find_name(vws, path[0]);
                assert(vws[done].name == path[0]);
                assert(find_name(vws, path[0]) == done) by {
                    if find_name(vws, path[0]) == -1 {
                        assert(vws[done].name != path[0]);
                    } else {
                        lemma_find_name(vws, path[0]);
                    }
                }
                lemma_views_of_children(new_children@);
                assert(views_of_children(new_children@) =~= vws.subrange(0, done + 1).update(
                    done,
                    attach_entry_spec(vws[done], path.drop_first(), ev),
                )) by {
                    assert(forall|t: int|
                        0 <= t < old_new.len() ==> new_children@[t] == old_new[t]);
                    assert(new_children@[done] == ch2);
                    assert(ch2@ == attach_entry_spec(vws[done], path.drop_first(), ev));
                }
            }
        } else {
            new_children.push(ch);
            proof {
                let vws = views_of_children(orig_children);
                lemma_views_of_children(new_children@);
                if !handled {
                    assert(views_of_children(new_children@) =~= vws.subrange(0, done + 1)) by {
                        assert(forall|t: int|
                            0 <= t < old_new.len() ==> new_children@[t] == old_new[t]);
                        assert(new_children@[done] == ch);
                    }
                    assert(vws[done].name != path[0]);
                } else {
                    let fidx = find_name(vws, path[0]);
                    let rec = attach_entry_spec(vws[fidx], path.drop_first(), ev);
                    let rhs = vws.subrange(0, done + 1).update(fidx, rec);
                    lemma_views_of_children(old_new);
                    lemma_views_of_children(new_children@);
                    assert(views_of_children(old_new) == vws.subrange(0, done).update(fidx, rec));
                    assert(old_new.len() == done);
                    assert(views_of_children(new_children@).len() == done + 1);
                    assert(rhs.len() == done + 1);
                    assert(forall|t: int|
                        0 <= t < old_new.len() ==> new_children@[t] == old_new[t]);
                    assert(new_children@[done] == ch);
                    assert(views_of_children(new_children@)[done] == ch@);
                    assert(ch@ == vws[done]);
                    assert(fidx < done);
                    assert forall|t: int| 0 <= t < done + 1 implies views_of_children(
                        new_children@,
                    )[t] == rhs[t] by {
                        if t < done {
                            assert(views_of_children(new_children@)[t] == views_of_children(
                                old_new,
                            )[t]);
                            assert(views_of_children(old_new)[t] == vws.subrange(0, done).update(
                                fidx,
                                rec,
                            )[t]);
                            assert(vws.subrange(0, done).update(fidx, rec)[t] == rhs[t]);
                        } else {
                            assert(views_of_children(new_children@)[t] == vws[done]);
                            assert(rhs[t] == vws[done]);
                        }
                    }
                    assert(views_of_children(new_children@) =~= rhs);
                }
            }
        }
    }
    proof {
        lemma_views_of_children(orig_children);
        assert(views_of_children(orig_children).subrange(
            0,
            orig_children.len() as int,
        ) =~= views_of_children(orig_children));
    }
    if !handled {
        let en = carry.take().unwrap();
        let mut fresh = Container::new(segs[k].as_str(), Some(c.name.as_str()));
        proof {
            assert(fresh@ =~= empty_container_v(path[0], orig.name@));
        }
        attach_entry_in(&mut fresh, segs, k + 1, en);
        let ghost pre = new_children@;
        new_children.push(fresh);
        proof {
            let vws = views_of_children(orig_children);
            lemma_find_name(vws, path[0]);
            assert(find_name(vws, path[0]) == -1) by {
                if find_name(vws, path[0]) != -1 {
                    assert(vws[find_name(vws, path[0])].name == path[0]);
                }
            }
            lemma_views_of_children(new_children@);
            lemma_views_of_children(pre);
            assert(views_of_children(new_children@) =~= vws.push(
                attach_entry_spec(empty_container_v(path[0], orig.name@), path.drop_first(), ev),
            )) by {
                assert(views_of_children(pre) == vws);
                assert(forall|t: int| 0 <= t < pre.len() ==> new_children@[t] == pre[t]);
                assert(new_children@[pre.len() as int] == fresh);
                assert(forall|t: int|
                    0 <= t < pre.len() ==> views_of_children(new_children@)[t]
                        == views_of_children(pre)[t]);
                assert(views_of_children(new_children@)[pre.len() as int] == fresh@);
            }
        }
    }
    c.children = new_children;
}

/// Walk a dotted path from the root, creating any missing container, and
/// return the tree with the full path present.
pub fn attach_child(tree: Container, dotted_path: &str) -> (r: Container)
    ensures
        r@ == attach_child_spec(tree@, split_path(dotted_path@)),
{
    let segs = split_path_exec(dotted_path);
    let mut tree = tree;
    attach_child_in(&mut tree, &segs, 0);
    proof {
        assert(seg_views(segs@).skip(0) =~= split_path(dotted_path@));
    }
    tree
}

/// Walk a dotted path from the root, creating any missing container, and
/// insert the entry into the container the full path names.
pub fn attach_entry(tree: Container, dotted_path: &str, entry: Entry) -> (r: Container)
    ensures
        r@ == attach_entry_spec(tree@, split_path(dotted_path@), entry@),
{
    let segs = split_path_exec(dotted_path);
    let mut tree = tree;
    attach_entry_in(&mut tree, &segs, 0, entry);
    proof {
        assert(seg_views(segs@).skip(0) =~= split_path(dotted_path@));
    }
    tree
}

} // verus!

verus! {

/// Walking a path changes only the children: name, entries and parent stay.
pub proof fn lemma_attach_preserves(v: ContainerV, path: Seq<Seq<char>>)
    ensures
        attach_child_spec(v, path).name == v.name,
        attach_child_spec(v, path).parent == v.parent,
        attach_child_spec(v, path).entries == v.entries,
{
}

pub proof fn lemma_find_name_update(cs: Seq<ContainerV>, idx: int, x: ContainerV, nm: Seq<char>)
    requires
        0 <= idx < cs.len(),
        x.name == cs[idx].name,
    ensures
        find_name(cs.update(idx, x), nm) == find_name(cs, nm),
    decreases cs,
{
    let cs2 = cs.update(idx, x);
    if idx == 0 {
        assert(cs2[0].name == cs[0].name);
        if cs[0].name != nm {
            assert(cs2.drop_first() =~= cs.drop_first());
        }
    } else {
        assert(cs2[0] == cs[0]);
        if cs[0].name != nm {
            assert(cs2.drop_first() =~= cs.drop_first().update(idx - 1, x));
            assert(cs.drop_first()[idx - 1] == cs[idx]);
            lemma_find_name_update(cs.drop_first(), idx - 1, x, nm);
        }
    }
}

pub proof fn lemma_find_name_push(cs: Seq<ContainerV>, x: ContainerV, nm: Seq<char>)
    requires
        find_name(cs, nm) == -1,
    ensures
        x.name == nm ==> find_name(cs.push(x), nm) == cs.len(),
        x.name != nm ==> find_name(cs.push(x), nm) == -1,
    decreases cs,
{
    lemma_find_name(cs, nm);
    if cs.len() == 0 {
        assert(cs.push(x) =~= seq![x]);
        assert(cs.push(x)[0] == x);
        if x.name != nm {
            assert(cs.push(x).drop_first() == Seq::<ContainerV>::empty()) by {
                assert(cs.push(x).drop_first() =~= Seq::<ContainerV>::empty());
            }
            assert(find_name(Seq::<ContainerV>::empty(), nm) == -1);
        }
    } else {
        assert(cs.push(x)[0] == cs[0]);
        assert(cs[0].name != nm);
        assert(cs.push(x).drop_first() =~= cs.drop_first().push(x));
        assert(find_name(cs.drop_first(), nm) == -1) by {
            lemma_find_name(cs.drop_first(), nm);
            if find_name(cs.drop_first(), nm) != -1 {
                assert(cs.drop_first()[find_name(cs.drop_first(), nm)].name == nm);
                assert(cs[find_name(cs.drop_first(), nm) + 1].name == nm);
            }
        }
        lemma_find_name_push(cs.drop_first(), x, nm);
    }
}

/// Walking the same path twice yields the same tree as walking it once:
/// every container the path asks for already exists after the first walk.
pub proof fn lemma_attach_child_idempotent(v: ContainerV, path: Seq<Seq<char>>)
    ensures
        attach_child_spec(attach_child_spec(v, path), path) == attach_child_spec(v, path),
    decreases path.len(),
{
    if path.len() > 0 {
        let seg = path[0];
        let rest = path.drop_first();
        let idx = find_name(v.children, seg);
        let w = attach_child_spec(v, path);
        if idx >= 0 {
            lemma_find_name(v.children, seg);
            let rec = attach_child_spec(v.children[idx], rest);
            assert(w.children == v.children.update(idx, rec));
            lemma_attach_preserves(v.children[idx], rest);
            lemma_find_name_update(v.children, idx, rec, seg);
            assert(find_name(w.children, seg) == idx);
            lemma_attach_child_idempotent(v.children[idx], rest);
            assert(w.children[idx] == rec);
            assert(attach_child_spec(w.children[idx], rest) == rec);
            assert(w.children.update(idx, rec) =~= w.children);
            assert(attach_child_spec(w, path) =~= w);
        } else {
            let rec = attach_child_spec(empty_container_v(seg, v.name), rest);
            assert(w.children == v.children.push(rec));
            lemma_attach_preserves(empty_container_v(seg, v.name), rest);
            assert(rec.name == seg);
            lemma_find_name(v.children, seg);
            assert(idx == -1);
            lemma_find_name_push(v.children, rec, seg);
            assert(find_name(w.children, seg) == v.children.len());
            lemma_attach_child_idempotent(empty_container_v(seg, v.name), rest);
            assert(attach_child_spec(rec, rest) == rec);
            assert(w.children[v.children.len() as int] == rec);
            assert(w.children.update(v.children.len() as int, rec) =~= w.children);
            assert(attach_child_spec(w, path) =~= w);
        }
    }
}

} // verus!

verus! {

/// How a sealed entry relates to its plaintext original: an already sealed
/// entry is untouched; a plaintext one keeps its metadata and carries an
/// envelope of its secret under the session key, some fresh nonce, and the
/// session salt.
pub open spec fn sealed_entry_rel(e: EntryV, e2: EntryV, key: Seq<u8>, salt: Seq<u8>) -> bool {
    if e.sealed {
        e2 == e
    } else {
        &&& e2.username == e.username
        &&& e2.email == e.email
        &&& e2.url == e.url
        &&& e2.parent == e.parent
        &&& e2.sealed
        &&& exists|nonce: Seq<u8>|
            {
                &&& nonce.len() == NONCE_LEN
                &&& e2.pass_vec == #[trigger] envelope_bytes(e.pass_vec, key, nonce, salt)
                &&& xchacha_seal(key, nonce, e.pass_vec).len() == e.pass_vec.len() + TAG_LEN
                &&& xchacha_open(key, nonce, xchacha_seal(key, nonce, e.pass_vec)) == Some(
                    e.pass_vec,
                )
            }
    }
}

pub open spec fn sealed_entries_rel(
    es: Seq<EntryV>,
    es2: Seq<EntryV>,
    key: Seq<u8>,
    salt: Seq<u8>,
) -> bool {
    es2.len() == es.len() && (forall|i: int|
        0 <= i < es.len() ==> sealed_entry_rel(#[trigger] es[i], es2[i], key, salt))
}

/// The whole tree after sealing: same shape and names, entries sealed.
pub open spec fn sealed_tree_rel(v: ContainerV, v2: ContainerV, key: Seq<u8>, salt: Seq<u8>) -> bool
    decreases v,
{
    &&& v2.name == v.name
    &&& v2.parent == v.parent
    &&& sealed_entries_rel(v.entries, v2.entries, key, salt)
    &&& sealed_children_rel(v.children, v2.children, key, salt)
}

pub open spec fn sealed_children_rel(
    cs: Seq<ContainerV>,
    cs2: Seq<ContainerV>,
    key: Seq<u8>,
    salt: Seq<u8>,
) -> bool
    decreases cs,
{
    if cs.len() == 0 {
        cs2.len() == 0
    } else {
        &&& cs2.len() == cs.len()
        &&& sealed_tree_rel(cs[0], cs2[0], key, salt)
        &&& sealed_children_rel(cs.drop_first(), cs2.drop_first(), key, salt)
    }
}

pub proof fn lemma_sealed_children_rel_index(
    cs: Seq<ContainerV>,
    cs2: Seq<ContainerV>,
    key: Seq<u8>,
    salt: Seq<u8>,
)
    ensures
        sealed_children_rel(cs, cs2, key, salt) <==> (cs2.len() == cs.len() && (forall|i: int|
            0 <= i < cs.len() ==> sealed_tree_rel(#[trigger] cs[i], cs2[i], key, salt))),
    decreases cs,
{
    if cs.len() > 0 && cs2.len() == cs.len() {
        lemma_sealed_children_rel_index(cs.drop_first(), cs2.drop_first(), key, salt);
        assert(forall|i: int| 1 <= i < cs.len() ==> cs.drop_first()[i - 1] == cs[i]);
        assert(forall|i: int| 1 <= i < cs2.len() ==> cs2.drop_first()[i - 1] == cs2[i]);
    }
}

/// Whether every plaintext secret is small enough for the cipher.
pub open spec fn entry_fits(e: EntryV) -> bool {
    e.sealed || e.pass_vec.len() <= 0xFFFF_FFFF
}

pub open spec fn entries_fit(es: Seq<EntryV>) -> bool {
    forall|i: int| 0 <= i < es.len() ==> entry_fits(#[trigger] es[i])
}

pub open spec fn secrets_fit(v: ContainerV) -> bool
    decreases v,
{
    entries_fit(v.entries) && children_fit(v.children)
}

pub open spec fn children_fit(cs: Seq<ContainerV>) -> bool
    decreases cs,
{
    cs.len() == 0 || (secrets_fit(cs[0]) && children_fit(cs.drop_first()))
}

pub proof fn lemma_children_fit_index(cs: Seq<ContainerV>)
    ensures
        children_fit(cs) <==> (forall|i: int| 0 <= i < cs.len() ==> secrets_fit(#[trigger] cs[i])),
    decreases cs,
{
    if cs.len() > 0 {
        lemma_children_fit_index(cs.drop_first());
        assert(forall|i: int| 1 <= i < cs.len() ==> cs.drop_first()[i - 1] == cs[i]);
    }
}

impl Entry {
    /// Seal the plaintext secret into an envelope under the given key,
    /// nonce and salt. A secret may be sealed only once.
    pub fn encrypt_password(&mut self, key: &Vec<u8>, nonce: &Vec<u8>, salt: &Vec<u8>) -> (r:
        Result<(), StoreError>)
        requires
            key@.len() == KEY_LEN,
            nonce@.len() == NONCE_LEN,
            salt@.len() == SALT_LEN,
            !old(self)@.sealed,
        ensures
            r is Ok ==> {
                &&& final(self)@.username == old(self)@.username
                &&& final(self)@.email == old(self)@.email
                &&& final(self)@.url == old(self)@.url
                &&& final(self)@.parent == old(self)@.parent
                &&& final(self)@.sealed
                &&& final(self)@.pass_vec == envelope_bytes(
                    old(self)@.pass_vec,
                    key@,
                    nonce@,
                    salt@,
                )
                &&& xchacha_seal(key@, nonce@, old(self)@.pass_vec).len() == old(
                    self,
                )@.pass_vec.len() + TAG_LEN
                &&& xchacha_open(key@, nonce@, xchacha_seal(key@, nonce@, old(self)@.pass_vec))
                    == Some(old(self)@.pass_vec)
            },
            old(self)@.pass_vec.len() <= 0xFFFF_FFFF ==> r is Ok,
            r is Err ==> *final(self) == *old(self) && r == Result::<(), StoreError>::Err(
                StoreError::Encryption,
            ),
    {
        let data = clone_bytes(&self.pass_vec);
        match crate::cryptman::encrypt_file_mem_with_salt(data, key, nonce, salt) {
            Ok(env) => {
                self.pass_vec = env;
                self.sealed = true;
                Ok(())
            },
            Err(_) => Err(StoreError::Encryption),
        }
    }

    /// Open the sealed secret with a password, leaving the plaintext in
    /// place on success and the entry untouched on failure.
    pub fn decrypt_password(&mut self, password: &str) -> (r: Result<(), StoreError>)
        requires
            pass_fits(password@),
        ensures
            r is Ok ==> {
                &&& open_spec(old(self)@.pass_vec, password@) == Some(final(self)@.pass_vec)
                &&& !final(self)@.sealed
                &&& final(self)@.username == old(self)@.username
                &&& final(self)@.email == old(self)@.email
                &&& final(self)@.url == old(self)@.url
                &&& final(self)@.parent == old(self)@.parent
            },
            open_spec(old(self)@.pass_vec, password@) is Some ==> r is Ok,
            r is Err ==> *final(self) == *old(self) && open_spec(old(self)@.pass_vec, password@)
                is None && r == Result::<(), StoreError>::Err(
                if old(self)@.pass_vec.len() <= TRAILER_LEN {
                    StoreError::MalformedEnvelope
                } else {
                    StoreError::AuthenticationFailed
                },
            ),
    {
        let data = clone_bytes(&self.pass_vec);
        match crate::cryptman::decrypt_file_mem_gen_key(data, password) {
            Ok(p) => {
                self.pass_vec = p;
                self.sealed = false;
                Ok(())
            },
            Err(e) => Err(e),
        }
    }
}

} // verus!

verus! {

impl Container {
    /// Seal every plaintext secret in the tree under the session key and
    /// salt, drawing a fresh random nonce for each entry.
    #[verifier::rlimit(100)]
    #[verifier::spinoff_prover]
    pub fn encrypt_all_passwords(&mut self, key: &Vec<u8>, salt: &Vec<u8>) -> (r: Result<
        (),
        StoreError,
    >)
        requires
            key@.len() == KEY_LEN,
            salt@.len() == SALT_LEN,
        ensures
            r is Ok <==> secrets_fit(old(self)@),
            r is Ok ==> sealed_tree_rel(old(self)@, final(self)@, key@, salt@),
            r is Err ==> *final(self) == *old(self) && r == Result::<(), StoreError>::Err(
                StoreError::Encryption,
            ),
        decreases *self,
    {
        if !secrets_fit_check(self) {
            return Err(StoreError::Encryption);
        }
        let ghost orig = *self;
        let mut new_entries: Vec<Entry> = Vec::new();
        while self.entries.len() > 0
            invariant
                orig == *old(self),
                secrets_fit(orig@),
                key@.len() == KEY_LEN,
                salt@.len() == SALT_LEN,
                self.name == orig.name,
                self.children == orig.children,
                self.parent == orig.parent,
                self.entries@ == orig.entries@.skip(orig.entries@.len() - self.entries@.len()),
                new_entries@.len() + self.entries@.len() == orig.entries@.len(),
                sealed_entries_rel(
                    views_of_entries(orig.entries@).subrange(0, new_entries@.len() as int),
                    views_of_entries(new_entries@),
                    key@,
                    salt@,
                ),
            decreases self.entries@.len(),
        {
            let ghost done = new_entries@.len() as int;
            let ghost old_new = new_entries@;
            let mut e = self.entries.remove(0);
            proof {
                lemma_views_of_entries(orig.entries@);
                assert(e == orig.entries@[done]);
                assert(self.entries@ =~= orig.entries@.skip(
                    orig.entries@.len() - self.entries@.len(),
                ));
            }
            let ghost e_before = e@;
            if !e.sealed {
                let nonce = crate::cryptman::os_random_bytes(NONCE_LEN);
                match e.encrypt_password(key, &nonce, salt) {
                    Ok(()) => {
                        proof {
                            assert(sealed_entry_rel(e_before, e@, key@, salt@)) by {
                                assert(e@.pass_vec == envelope_bytes(
                                    e_before.pass_vec,
                                    key@,
                                    nonce@,
                                    salt@,
                                ));
                            }
                        }
                    },
                    Err(_) => {
                        proof {
                            // every secret fits, so sealing cannot fail
                            assert(views_of_entries(orig.entries@)[done] == e_before);
                            assert(entry_fits(e_before));
                            assert(false);
                        }
                        return Err(StoreError::Encryption);
                    },
                }
            } else {
                proof {
                    assert(sealed_entry_rel(e_before, e@, key@, salt@));
                }
            }
            new_entries.push(e);
            proof {
                lemma_views_of_entries(new_entries@);
                lemma_views_of_entries(old_new);
                lemma_views_of_entries(orig.entries@);
                assert(forall|t: int| 0 <= t < old_new.len() ==> new_entries@[t] == old_new[t]);
                assert(new_entries@[done] == e);
                assert(sealed_entries_rel(
                    views_of_entries(orig.entries@).subrange(0, done + 1),
                    views_of_entries(new_entries@),
                    key@,
                    salt@,
                )) by {
                    assert(views_of_entries(orig.entries@).subrange(0, done + 1)[done]
                        == e_before);
                    assert(views_of_entries(new_entries@)[done] == e@);
                    assert(forall|t: int|
                        0 <= t < done ==> views_of_entries(new_entries@)[t] == views_of_entries(
                            old_new,
                        )[t]);
                }
            }
        }
        self.entries = new_entries;
        proof {
            lemma_views_of_entries(orig.entries@);
            assert(views_of_entries(orig.entries@).subrange(
                0,
                orig.entries@.len() as int,
            ) =~= views_of_entries(orig.entries@));
        }
        let mut new_children: Vec<Container> = Vec::new();
        while self.children.len() > 0
            invariant
                orig == *old(self),
                secrets_fit(orig@),
                key@.len() == KEY_LEN,
                salt@.len() == SALT_LEN,
                self.name == orig.name,
                self.parent == orig.parent,
                sealed_entries_rel(
                    views_of_entries(orig.entries@),
                    views_of_entries(self.entries@),
                    key@,
                    salt@,
                ),
                self.children@ == orig.children@.skip(
                    orig.children@.len() - self.children@.len(),
                ),
                new_children@.len() + self.children@.len() == orig.children@.len(),
                sealed_children_rel(
                    views_of_children(orig.children@).subrange(0, new_children@.len() as int),
                    views_of_children(new_children@),
                    key@,
                    salt@,
                ),
            decreases self.children@.len(),
        {
            let ghost done = new_children@.len() as int;
            let ghost old_new = new_children@;
            let mut c = self.children.remove(0);
            proof {
                lemma_views_of_children(orig.children@);
                assert(c == orig.children@[done]);
                assert(self.children@ =~= orig.children@.skip(
                    orig.children@.len() - self.children@.len(),
                ));
            }
            let ghost c_before = c@;
            proof {
                assert(decreases_to!(orig => c));
            }
            match c.encrypt_all_passwords(key, salt) {
                Ok(()) => {},
                Err(_) => {
                    proof {
                        // every secret in the subtree fits, so sealing cannot fail
                        lemma_children_fit_index(views_of_children(orig.children@));
                        assert(views_of_children(orig.children@)[done] == c_before);
                        assert(secrets_fit(c_before));
                        assert(false);
                    }
                    return Err(StoreError::Encryption);
                },
            }
            new_children.push(c);
            proof {
                lemma_views_of_children(new_children@);
                lemma_views_of_children(old_new);
                lemma_views_of_children(orig.children@);
                assert(forall|t: int| 0 <= t < old_new.len() ==> new_children@[t] == old_new[t]);
                assert(new_children@[done] == c);
                lemma_sealed_children_rel_index(
                    views_of_children(orig.children@).subrange(0, done),
                    views_of_children(old_new),
                    key@,
                    salt@,
                );
                lemma_sealed_children_rel_index(
                    views_of_children(orig.children@).subrange(0, done + 1),
                    views_of_children(new_children@),
                    key@,
                    salt@,
                );
                assert(sealed_children_rel(
                    views_of_children(orig.children@).subrange(0, done + 1),
                    views_of_children(new_children@),
                    key@,
                    salt@,
                )) by {
                    assert(views_of_children(orig.children@).subrange(0, done + 1)[done]
                        == c_before);
                    assert(views_of_children(new_children@)[done] == c@);
                    assert(sealed_tree_rel(c_before, c@, key@, salt@));
                    assert(forall|t: int|
                        0 <= t < done ==> views_of_children(new_children@)[t] == views_of_children(
                            old_new,
                        )[t]);
                    assert(forall|t: int|
                        0 <= t < done ==> views_of_children(orig.children@).subrange(
                            0,
                            done + 1,
                        )[t] == views_of_children(orig.children@).subrange(0, done)[t]);
                }
            }
        }
        self.children = new_children;
        proof {
            lemma_views_of_children(orig.children@);
            assert(views_of_children(orig.children@).subrange(
                0,
                orig.children@.len() as int,
            ) =~= views_of_children(orig.children@));
            assert(sealed_tree_rel(orig@, container_vw(*self), key@, salt@));
        }
        Ok(())
    }
}

/// How one entry stands after a reveal: a sealed secret that opens under
/// the password is replaced by its plaintext; everything else is untouched.
pub open spec fn revealed_rel(e: EntryV, e2: EntryV, pass: Seq<char>) -> bool {
    if e.sealed && open_spec(e.pass_vec, pass) is Some {
        e2 == EntryV {
            username: e.username,
            pass_vec: open_spec(e.pass_vec, pass)->Some_0,
            email: e.email,
            url: e.url,
            parent: e.parent,
            sealed: false,
        }
    } else {
        e2 == e
    }
}

/// Open every sealed secret that the password unlocks, leaving the others
/// exactly as they were.
pub fn reveal_entries(entries: Vec<Entry>, password: &str) -> (r: Vec<Entry>)
    requires
        pass_fits(password@),
    ensures
        r@.len() == entries@.len(),
        forall|i: int| 0 <= i < entries@.len() ==> revealed_rel(entries@[i]@, #[trigger] r@[i]@, password@),
{
    let ghost orig = entries@;
    let mut entries = entries;
    let mut out: Vec<Entry> = Vec::new();
    while entries.len() > 0
        invariant
            pass_fits(password@),
            entries@ == orig.skip(orig.len() - entries@.len()),
            out@.len() + entries@.len() == orig.len(),
            forall|i: int|
                0 <= i < out@.len() ==> revealed_rel(orig[i]@, #[trigger] out@[i]@, password@),
        decreases entries@.len(),
    {
        let ghost done = out@.len() as int;
        let ghost old_out = out@;
        let mut e = entries.remove(0);
        proof {
            assert(e == orig[done]);
            assert(entries@ =~= orig.skip(orig.len() - entries@.len()));
        }
        let ghost e_before = e@;
        if e.sealed {
            match e.decrypt_password(password) {
                Ok(()) => {},
                Err(_) => {},
            }
        }
        out.push(e);
        proof {
            assert(forall|t: int| 0 <= t < old_out.len() ==> out@[t] == old_out[t]);
            assert(out@[done] == e);
            assert(revealed_rel(e_before, e@, password@));
        }
    }
    out
}

} // verus!

verus! {

pub fn zero_salt() -> (r: Vec<u8>)
    ensures
        r@.len() == SALT_LEN,
        crate::cryptman::all_zero(r@),
{
    let mut v: Vec<u8> = Vec::new();
    let mut i: usize = 0;
    while i < SALT_LEN
        invariant
            i <= SALT_LEN,
            v@.len() == i,
            forall|t: int| 0 <= t < i ==> v@[t] == 0,
        decreases SALT_LEN - i,
    {
        v.push(0);
        i += 1;
    }
    v
}

/// Seal a whole tree for the backing file: every plaintext secret is sealed
/// under one freshly salted session key, the sealed tree is serialized, and
/// the serialized bytes are sealed again under a second, independently
/// salted and nonced derivation from the same password.
pub fn encrypt_container_bytes(container: Container, password: &str) -> (r: Result<
    Vec<u8>,
    StoreError,
>)
    requires
        pass_fits(password@),
    ensures
        r matches Ok(env) ==> exists|t2: ContainerV, ks: Seq<u8>, ss: Seq<u8>|
            {
                &&& #[trigger] sealed_tree_rel(container@, t2, ks, ss)
                &&& ks == argon2_of(password@, ss)
                &&& ss.len() == SALT_LEN
                &&& open_spec(env@, password@) == Some(
                    vstd::utf8::encode_utf8(crate::codec::ser_container(t2)),
                )
            },
        r matches Err(e) ==> e == StoreError::Encryption,
        (secrets_fit(container@) && 4 * container_len_bound(container@) <= 0xFFFF_FFFF) ==> r
            is Ok,
{
    let ghost orig = container@;
    let zeros = zero_salt();
    let (key, salt) = match crate::cryptman::pass_2_key(password, zeros) {
        Ok(ks) => ks,
        Err(_) => {
            proof {
                // a password within Argon2's bound always derives
                assert(false);
            }
            return Err(StoreError::Encryption);
        },
    };
    let mut container = container;
    match container.encrypt_all_passwords(&key, &salt) {
        Ok(()) => {},
        Err(_) => {
            proof {
                assert(!secrets_fit(orig));
            }
            return Err(StoreError::Encryption);
        },
    }
    let ghost sealed_tree = container@;
    let json = container.to_json_string();
    let bytes = json.as_str().as_bytes_vec();
    proof {
        assert(bytes@ == vstd::utf8::encode_utf8(crate::codec::ser_container(sealed_tree)));
    }
    let zeros2 = zero_salt();
    let (key2, salt2) = match crate::cryptman::pass_2_key(password, zeros2) {
        Ok(ks) => ks,
        Err(_) => {
            proof {
                // a password within Argon2's bound always derives
                assert(false);
            }
            return Err(StoreError::Encryption);
        },
    };
    let nonce2 = crate::cryptman::os_random_bytes(NONCE_LEN);
    let ghost payload = bytes@;
    match crate::cryptman::encrypt_file_mem_with_salt(bytes, &key2, &nonce2, &salt2) {
        Ok(env) => {
            proof {
                crate::cryptman::lemma_envelope_round_trip(
                    payload,
                    key2@,
                    nonce2@,
                    salt2@,
                    password@,
                );
                assert(open_spec(env@, password@) == Some(payload));
                assert(sealed_tree_rel(orig, sealed_tree, key@, salt@));
                assert(key@ == argon2_of(password@, salt@));
            }
            Ok(env)
        },
        Err(_) => {
            proof {
                if secrets_fit(orig) && 4 * container_len_bound(orig) <= 0xFFFF_FFFF {
                    lemma_sealed_len_bound(orig, sealed_tree, key@, salt@);
                    crate::codec::lemma_encode_utf8_len(crate::codec::ser_container(sealed_tree));
                    assert(payload.len() <= 0xFFFF_FFFF);
                    assert(false);
                }
            }
            Err(StoreError::Encryption)
        },
    }
}

/// Open a backing file's bytes into a tree: the outer envelope is opened
/// with the password and the payload is decoded. Entry secrets stay sealed.
pub fn decrypt_container_bytes(enc_data: Vec<u8>, password: &str) -> (r: Result<
    Container,
    StoreError,
>)
    requires
        pass_fits(password@),
    ensures
        r matches Ok(c) ==> open_spec(enc_data@, password@) == Some(
            vstd::utf8::encode_utf8(crate::codec::ser_container(c@)),
        ),
        forall|v: ContainerV|
            open_spec(enc_data@, password@) == Some(
                vstd::utf8::encode_utf8(crate::codec::ser_container(v)),
            ) ==> (r matches Ok(c) && c@ == v),
        r matches Err(e) ==> {
            &&& open_spec(enc_data@, password@) is None ==> e == (if enc_data@.len()
                <= TRAILER_LEN {
                StoreError::MalformedEnvelope
            } else {
                StoreError::AuthenticationFailed
            })
            &&& open_spec(enc_data@, password@) is Some ==> e == StoreError::SerializationError
        },
{
    let ghost data = enc_data@;
    let payload = match crate::cryptman::decrypt_file_mem_gen_key(enc_data, password) {
        Ok(p) => p,
        Err(e) => {
            return Err(e);
        },
    };
    let mut c = Container::new("", None);
    match c.from_json_arr(payload.as_slice()) {
        Ok(()) => {
            proof {
                vstd::utf8::decode_utf8_encode_utf8(payload@);
                assert(payload@ == vstd::utf8::encode_utf8(
                    crate::codec::ser_container(c@),
                ));
                assert forall|v: ContainerV|
                    open_spec(data, password@) == Some(
                        vstd::utf8::encode_utf8(crate::codec::ser_container(v)),
                    ) implies c@ == v by {
                    vstd::utf8::encode_utf8_valid_utf8(crate::codec::ser_container(v));
                    vstd::utf8::encode_utf8_decode_utf8(crate::codec::ser_container(v));
                }
            }
            Ok(c)
        },
        Err(_) => {
            proof {
                assert forall|v: ContainerV|
                    open_spec(data, password@) != Some(
                        vstd::utf8::encode_utf8(crate::codec::ser_container(v)),
                    ) by {
                    if open_spec(data, password@) == Some(
                        vstd::utf8::encode_utf8(crate::codec::ser_container(v)),
                    ) {
                        vstd::utf8::encode_utf8_valid_utf8(crate::codec::ser_container(v));
                        vstd::utf8::encode_utf8_decode_utf8(crate::codec::ser_container(v));
                    }
                }
            }
            Err(StoreError::SerializationError)
        },
    }
}

} // verus!

verus! {

/// A bound on the serialized length of one entry once its secret has been
/// sealed: sealing adds at most the tag and the envelope trailer.
pub open spec fn entry_len_bound(e: EntryV) -> int {
    76 + 6 * (e.username.len() + e.email.len() + e.url.len() + e.parent.len()) as int + 4 * (
    e.pass_vec.len() + 72) as int
}

pub open spec fn entries_len_bound(es: Seq<EntryV>) -> int
    decreases es,
{
    if es.len() == 0 {
        0
    } else {
        entry_len_bound(es[0]) + 1 + entries_len_bound(es.drop_first())
    }
}

/// A bound on the serialized length of a whole tree after sealing, computed
/// from the plaintext tree alone: the random nonces and salts change the
/// secret bytes but never push past this bound.
pub open spec fn container_len_bound(v: ContainerV) -> int
    decreases v,
{
    52 + 6 * (v.name.len() + v.parent.len()) as int + entries_len_bound(v.entries)
        + children_len_bound(v.children)
}

pub open spec fn children_len_bound(cs: Seq<ContainerV>) -> int
    decreases cs,
{
    if cs.len() == 0 {
        0
    } else {
        container_len_bound(cs[0]) + 1 + children_len_bound(cs.drop_first())
    }
}

proof fn lemma_sealed_entry_len(e: EntryV, e2: EntryV, key: Seq<u8>, salt: Seq<u8>)
    requires
        sealed_entry_rel(e, e2, key, salt),
        salt.len() == SALT_LEN,
    ensures
        crate::codec::ser_entry(e2).len() <= entry_len_bound(e),
{
    crate::codec::lemma_ser_entry_len(e2);
    if e.sealed {
        assert(e2 == e);
    } else {
        assert(e2.pass_vec.len() == e.pass_vec.len() + 72) by {
            let nonce = choose|nonce: Seq<u8>|
                {
                    &&& nonce.len() == NONCE_LEN
                    &&& e2.pass_vec == #[trigger] envelope_bytes(e.pass_vec, key, nonce, salt)
                    &&& xchacha_seal(key, nonce, e.pass_vec).len() == e.pass_vec.len() + TAG_LEN
                    &&& xchacha_open(key, nonce, xchacha_seal(key, nonce, e.pass_vec)) == Some(
                        e.pass_vec,
                    )
                };
            assert(e2.pass_vec == envelope_bytes(e.pass_vec, key, nonce, salt));
        }
    }
}

proof fn lemma_sealed_entries_len(es: Seq<EntryV>, es2: Seq<EntryV>, key: Seq<u8>, salt: Seq<u8>)
    requires
        sealed_entries_rel(es, es2, key, salt),
        salt.len() == SALT_LEN,
    ensures
        crate::codec::ser_entries_items(es2).len() <= entries_len_bound(es),
    decreases es,
{
    if es.len() > 0 {
        lemma_sealed_entry_len(es[0], es2[0], key, salt);
        assert(sealed_entries_rel(es.drop_first(), es2.drop_first(), key, salt)) by {
            assert(forall|i: int| 0 <= i < es.len() - 1 ==> #[trigger] es.drop_first()[i] == es[i + 1]);
            assert(forall|i: int|
                0 <= i < es2.len() - 1 ==> #[trigger] es2.drop_first()[i] == es2[i + 1]);
        }
        lemma_sealed_entries_len(es.drop_first(), es2.drop_first(), key, salt);
        if es2.len() == 1 {
        } else {
            assert(crate::codec::ser_entries_items(es2) == crate::codec::ser_entry(es2[0])
                + seq![','] + crate::codec::ser_entries_items(es2.drop_first()));
        }
    }
}

/// A sealed tree serializes within the bound computed from its plaintext
/// original.
pub proof fn lemma_sealed_len_bound(v: ContainerV, v2: ContainerV, key: Seq<u8>, salt: Seq<u8>)
    requires
        sealed_tree_rel(v, v2, key, salt),
        salt.len() == SALT_LEN,
    ensures
        crate::codec::ser_container(v2).len() <= container_len_bound(v),
    decreases v,
{
    crate::codec::lemma_ser_string_len(v2.name);
    crate::codec::lemma_ser_string_len(v2.parent);
    lemma_sealed_entries_len(v.entries, v2.entries, key, salt);
    lemma_sealed_children_len(v.children, v2.children, key, salt);
}

proof fn lemma_sealed_children_len(
    cs: Seq<ContainerV>,
    cs2: Seq<ContainerV>,
    key: Seq<u8>,
    salt: Seq<u8>,
)
    requires
        sealed_children_rel(cs, cs2, key, salt),
        salt.len() == SALT_LEN,
    ensures
        crate::codec::ser_containers_items(cs2).len() <= children_len_bound(cs),
    decreases cs,
{
    if cs.len() > 0 {
        lemma_sealed_len_bound(cs[0], cs2[0], key, salt);
        lemma_sealed_children_len(cs.drop_first(), cs2.drop_first(), key, salt);
        if cs2.len() == 1 {
        } else {
            assert(crate::codec::ser_containers_items(cs2) == crate::codec::ser_container(cs2[0])
                + seq![','] + crate::codec::ser_containers_items(cs2.drop_first()));
        }
    }
}

} // verus!

verus! {

/// Whether every plaintext secret in the tree is small enough to seal.
fn secrets_fit_check(c: &Container) -> (r: bool)
    ensures
        r == secrets_fit(c@),
    decreases *c,
{
    let mut j: usize = 0;
    while j < c.entries.len()
        invariant
            j <= c.entries@.len(),
            forall|t: int| 0 <= t < j ==> entry_fits(#[trigger] views_of_entries(c.entries@)[t]),
        decreases c.entries@.len() - j,
    {
        let e = &c.entries[j];
        if !e.sealed && e.pass_vec.len() > 0xFFFF_FFFF {
            proof {
                lemma_views_of_entries(c.entries@);
                assert(!entry_fits(views_of_entries(c.entries@)[j as int]));
                assert(!entries_fit(c@.entries));
                assert(!secrets_fit(c@));
            }
            return false;
        }
        proof {
            lemma_views_of_entries(c.entries@);
        }
        j += 1;
    }
    proof {
        lemma_views_of_entries(c.entries@);
        assert(entries_fit(c@.entries));
    }
    let mut i: usize = 0;
    while i < c.children.len()
        invariant
            i <= c.children@.len(),
            entries_fit(c@.entries),
            forall|t: int| 0 <= t < i ==> secrets_fit(#[trigger] views_of_children(c.children@)[t]),
        decreases c.children@.len() - i,
    {
        let ok = secrets_fit_check(&c.children[i]);
        proof {
            lemma_views_of_children(c.children@);
        }
        if !ok {
            proof {
                lemma_children_fit_index(views_of_children(c.children@));
                assert(!secrets_fit(views_of_children(c.children@)[i as int]));
                assert(!children_fit(c@.children));
                assert(!secrets_fit(c@));
            }
            return false;
        }
        i += 1;
    }
    proof {
        lemma_views_of_children(c.children@);
        lemma_children_fit_index(views_of_children(c.children@));
        assert(children_fit(c@.children));
        assert(secrets_fit(c@));
    }
    true
}

} // verus!
