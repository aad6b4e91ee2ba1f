use vstd::prelude::*;

use crate::passman::{
    container_vw, views_of_children, views_of_entries, Container, ContainerV, Entry, EntryV,
};
use crate::StoreError;

verus! {

/// `p` is a prefix of `s`.
pub open spec fn starts_with(s: Seq<char>, p: Seq<char>) -> bool {
    s.len() >= p.len() && s.subrange(0, p.len() as int) == p
}

// ---------------------------------------------------------------- escaping
pub open spec fn hex_digit(n: u32) -> char {
    if n == 0 {
        '0'
    } else if n == 1 {
        '1'
    } else if n == 2 {
        '2'
    } else if n == 3 {
        '3'
    } else if n == 4 {
        '4'
    } else if n == 5 {
        '5'
    } else if n == 6 {
        '6'
    } else if n == 7 {
        '7'
    } else if n == 8 {
        '8'
    } else if n == 9 {
        '9'
    } else if n == 10 {
        'a'
    } else if n == 11 {
        'b'
    } else if n == 12 {
        'c'
    } else if n == 13 {
        'd'
    } else if n == 14 {
        'e'
    } else {
        'f'
    }
}

/// How one character stands inside a serialized string: quote and backslash
/// carry a backslash, control characters become a unicode escape, everything
/// else stands as itself.
pub open spec fn esc_char(c: char) -> Seq<char> {
    if c == '"' {
        seq!['\\', '"']
    } else if c == '\\' {
        seq!['\\', '\\']
    } else if (c as u32) < 32 {
        seq!['\\', 'u', '0', '0', hex_digit((c as u32) / 16), hex_digit((c as u32) % 16)]
    } else {
        seq![c]
    }
}

pub open spec fn esc(s: Seq<char>) -> Seq<char>
    decreases s.len(),
{
    if s.len() == 0 {
        Seq::empty()
    } else {
        esc_char(s[0]) + esc(s.drop_first())
    }
}

/// A serialized string: its escaped characters between quotes.
pub open spec fn ser_string(s: Seq<char>) -> Seq<char> {
    seq!['"'] + esc(s) + seq!['"']
}

pub proof fn lemma_esc_append(a: Seq<char>, b: Seq<char>)
    ensures
        esc(a + b) == esc(a) + esc(b),
    decreases a.len(),
{
    if a.len() == 0 {
        assert(a + b =~= b);
        assert(esc(a) + esc(b) =~= esc(b));
    } else {
        lemma_esc_append(a.drop_first(), b);
        assert((a + b).drop_first() =~= a.drop_first() + b);
        assert(esc_char(a[0]) + (esc(a.drop_first()) + esc(b)) =~= (esc_char(a[0]) + esc(
            a.drop_first(),
        )) + esc(b));
    }
}

pub proof fn lemma_esc_push(s: Seq<char>, c: char)
    ensures
        esc(s.push(c)) == esc(s) + esc_char(c),
{
    lemma_esc_append(s, seq![c]);
    assert(s.push(c) =~= s + seq![c]);
    assert(esc(seq![c]) =~= esc_char(c)) by {
        let s1 = seq![c];
        assert(s1.len() == 1 && s1[0] == c);
        assert(s1.drop_first() == Seq::<char>::empty()) by {
            assert(s1.drop_first() =~= Seq::<char>::empty());
        }
        assert(esc(s1.drop_first()) == Seq::<char>::empty());
        assert(esc(s1) == esc_char(c) + Seq::<char>::empty());
        assert(esc_char(c) + Seq::<char>::empty() =~= esc_char(c));
    }
}

// ---------------------------------------------------------------- numbers
pub open spec fn dig(n: u8) -> char {
    hex_digit((n % 10) as u32)
}

/// The canonical decimal form of a byte: no leading zeros.
pub open spec fn dec_u8(n: u8) -> Seq<char> {
    if n < 10 {
        seq![dig(n)]
    } else if n < 100 {
        seq![dig(n / 10), dig(n % 10)]
    } else {
        seq![dig(n / 100), dig((n / 10) % 10), dig(n % 10)]
    }
}

pub open spec fn ser_bytes_items(b: Seq<u8>) -> Seq<char>
    decreases b.len(),
{
    if b.len() == 0 {
        Seq::empty()
    } else if b.len() == 1 {
        dec_u8(b[0])
    } else {
        dec_u8(b[0]) + seq![','] + ser_bytes_items(b.drop_first())
    }
}

/// A byte vector as a decimal array.
pub open spec fn ser_bytes(b: Seq<u8>) -> Seq<char> {
    seq!['['] + ser_bytes_items(b) + seq![']']
}

pub open spec fn ser_bool(b: bool) -> Seq<char> {
    if b {
        seq!['t', 'r', 'u', 'e']
    } else {
        seq!['f', 'a', 'l', 's', 'e']
    }
}

pub proof fn lemma_bytes_items_push(b: Seq<u8>, x: u8)
    ensures
        b.len() == 0 ==> ser_bytes_items(b.push(x)) == dec_u8(x),
        b.len() > 0 ==> ser_bytes_items(b.push(x)) == ser_bytes_items(b) + seq![','] + dec_u8(x),
    decreases b.len(),
{
    if b.len() == 0 {
        assert(b.push(x) =~= seq![x]);
    } else {
        lemma_bytes_items_push(b.drop_first(), x);
        assert(b.push(x).drop_first() =~= b.drop_first().push(x));
        if b.len() == 1 {
            assert(ser_bytes_items(b.push(x)) == dec_u8(b[0]) + seq![','] + ser_bytes_items(
                b.drop_first().push(x),
            ));
            assert(ser_bytes_items(b.drop_first().push(x)) == dec_u8(x));
            assert(ser_bytes_items(b) =~= dec_u8(b[0]));
        } else {
            assert(dec_u8(b[0]) + seq![','] + (ser_bytes_items(b.drop_first()) + seq![','] + dec_u8(
                x,
            )) =~= (dec_u8(b[0]) + seq![','] + ser_bytes_items(b.drop_first())) + seq![',']
                + dec_u8(x));
        }
    }
}

// ---------------------------------------------------------------- literals
pub open spec fn lit_c_name() -> Seq<char> {
    seq!['{', '"', 'n', 'a', 'm', 'e', '"', ':']
}

pub open spec fn lit_c_children() -> Seq<char> {
    seq![',', '"', 'c', 'h', 'i', 'l', 'd', 'r', 'e', 'n', '"', ':', '[']
}

pub open spec fn lit_c_entries() -> Seq<char> {
    seq![',', '"', 'e', 'n', 't', 'r', 'i', 'e', 's', '"', ':', '[']
}

pub open spec fn lit_parent() -> Seq<char> {
    seq![',', '"', 'p', 'a', 'r', 'e', 'n', 't', '"', ':']
}

pub open spec fn lit_e_user() -> Seq<char> {
    seq!['{', '"', 'u', 's', 'e', 'r', 'n', 'a', 'm', 'e', '"', ':']
}

pub open spec fn lit_e_pass() -> Seq<char> {
    seq![',', '"', 'p', 'a', 's', 's', '_', 'v', 'e', 'c', '"', ':']
}

pub open spec fn lit_e_email() -> Seq<char> {
    seq![',', '"', 'e', 'm', 'a', 'i', 'l', '"', ':']
}

pub open spec fn lit_e_url() -> Seq<char> {
    seq![',', '"', 'u', 'r', 'l', '"', ':']
}

pub open spec fn lit_e_sealed() -> Seq<char> {
    seq![',', '"', 's', 'e', 'a', 'l', 'e', 'd', '"', ':']
}

pub open spec fn lit_e_password() -> Seq<char> {
    seq![',', '"', 'p', 'a', 's', 's', 'w', 'o', 'r', 'd', '"', ':']
}

// ---------------------------------------------------------------- documents
/// A serialized entry: an object with every field named, fields in fixed
/// order.
#[verifier::opaque]
pub open spec fn ser_entry(e: EntryV) -> Seq<char> {
    lit_e_user() + ser_string(e.username) + lit_e_pass() + ser_bytes(e.pass_vec) + lit_e_email()
        + ser_string(e.email) + lit_e_url() + ser_string(e.url) + lit_parent() + ser_string(
        e.parent,
    ) + lit_e_sealed() + ser_bool(e.sealed) + seq!['}']
}

pub open spec fn ser_entries_items(es: Seq<EntryV>) -> Seq<char>
    decreases es.len(),
{
    if es.len() == 0 {
        Seq::empty()
    } else if es.len() == 1 {
        ser_entry(es[0])
    } else {
        ser_entry(es[0]) + seq![','] + ser_entries_items(es.drop_first())
    }
}

/// A serialized container: name, then the children and entry arrays, then
/// the parent name.
pub open spec fn ser_container(v: ContainerV) -> Seq<char>
    decreases v,
{
    lit_c_name() + ser_string(v.name) + lit_c_children() + ser_containers_items(v.children)
        + seq![']'] + lit_c_entries() + ser_entries_items(v.entries) + seq![']'] + lit_parent()
        + ser_string(v.parent) + seq!['}']
}

pub open spec fn ser_containers_items(cs: Seq<ContainerV>) -> Seq<char>
    decreases cs,
{
    if cs.len() == 0 {
        Seq::empty()
    } else if cs.len() == 1 {
        ser_container(cs[0])
    } else {
        ser_container(cs[0]) + seq![','] + ser_containers_items(cs.drop_first())
    }
}

pub proof fn lemma_entries_items_push(es: Seq<EntryV>, x: EntryV)
    ensures
        es.len() == 0 ==> ser_entries_items(es.push(x)) == ser_entry(x),
        es.len() > 0 ==> ser_entries_items(es.push(x)) == ser_entries_items(es) + seq![',']
            + ser_entry(x),
    decreases es.len(),
{
    if es.len() == 0 {
        assert(es.push(x) =~= seq![x]);
    } else {
        lemma_entries_items_push(es.drop_first(), x);
        assert(es.push(x).drop_first() =~= es.drop_first().push(x));
        if es.len() == 1 {
            assert(ser_entries_items(es) =~= ser_entry(es[0]));
        } else {
            assert(ser_entry(es[0]) + seq![','] + (ser_entries_items(es.drop_first()) + seq![',']
                + ser_entry(x)) =~= (ser_entry(es[0]) + seq![','] + ser_entries_items(
                es.drop_first(),
            )) + seq![','] + ser_entry(x));
        }
    }
}

pub proof fn lemma_containers_items_push(cs: Seq<ContainerV>, x: ContainerV)
    ensures
        cs.len() == 0 ==> ser_containers_items(cs.push(x)) == ser_container(x),
        cs.len() > 0 ==> ser_containers_items(cs.push(x)) == ser_containers_items(cs) + seq![',']
            + ser_container(x),
    decreases cs.len(),
{
    if cs.len() == 0 {
        assert(cs.push(x) =~= seq![x]);
    } else {
        lemma_containers_items_push(cs.drop_first(), x);
        assert(cs.push(x).drop_first() =~= cs.drop_first().push(x));
        if cs.len() == 1 {
            assert(ser_containers_items(cs) =~= ser_container(cs[0]));
        } else {
            assert(ser_container(cs[0]) + seq![','] + (ser_containers_items(cs.drop_first())
                + seq![','] + ser_container(x)) =~= (ser_container(cs[0]) + seq![',']
                + ser_containers_items(cs.drop_first())) + seq![','] + ser_container(x));
        }
    }
}

// ---------------------------------------------------------------- exec printer
pub fn hex_digit_exec(n: u32) -> (c: char)
    requires
        n < 16,
    ensures
        c == hex_digit(n),
{
    if n == 0 {
        '0'
    } else if n == 1 {
        '1'
    } else if n == 2 {
        '2'
    } else if n == 3 {
        '3'
    } else if n == 4 {
        '4'
    } else if n == 5 {
        '5'
    } else if n == 6 {
        '6'
    } else if n == 7 {
        '7'
    } else if n == 8 {
        '8'
    } else if n == 9 {
        '9'
    } else if n == 10 {
        'a'
    } else if n == 11 {
        'b'
    } else if n == 12 {
        'c'
    } else if n == 13 {
        'd'
    } else if n == 14 {
        'e'
    } else {
        'f'
    }
}

pub fn chars_of(s: &str) -> (r: Vec<char>)
    ensures
        r@ == s@,
{
    let n = s.unicode_len();
    let mut v: Vec<char> = Vec::new();
    let mut i: usize = 0;
    while i < n
        invariant
            i <= n,
            n == s@.len(),
            v@ == s@.subrange(0, i as int),
        decreases n - i,
    {
        v.push(s.get_char(i));
        i += 1;
        proof {
            assert(v@ =~= s@.subrange(0, i as int));
        }
    }
    proof {
        assert(v@ =~= s@);
    }
    v
}

/// Relies on String's FromIterator over char (str::chars, collect): the
/// collected string holds exactly the given characters.
#[verifier::external_body]
pub fn chars_to_string(v: &Vec<char>) -> (r: String)
    ensures
        r@ == v@,
{
    v.iter().collect()
}

pub fn push_str_escaped(out: &mut Vec<char>, s: &str)
    ensures
        final(out)@ == old(out)@ + ser_string(s@),
{
    out.push('"');
    let n = s.unicode_len();
    let mut i: usize = 0;
    while i < n
        invariant
            i <= n,
            n == s@.len(),
            out@ == old(out)@ + seq!['"'] + esc(s@.subrange(0, i as int)),
        decreases n - i,
    {
        let c = s.get_char(i);
        let cv = c as u32;
        if c == '"' {
            out.push('\\');
            out.push('"');
        } else if c == '\\' {
            out.push('\\');
            out.push('\\');
        } else if cv < 32 {
            out.push('\\');
            out.push('u');
            out.push('0');
            out.push('0');
            out.push(hex_digit_exec(cv / 16));
            out.push(hex_digit_exec(cv % 16));
        } else {
            out.push(c);
        }
        proof {
            lemma_esc_push(s@.subrange(0, i as int), s@[i as int]);
            assert(s@.subrange(0, i + 1 as int) =~= s@.subrange(0, i as int).push(s@[i as int]));
            assert(out@ =~= old(out)@ + seq!['"'] + esc(s@.subrange(0, i + 1 as int)));
        }
        i += 1;
    }
    out.push('"');
    proof {
        assert(s@.subrange(0, n as int) =~= s@);
        assert(out@ =~= old(out)@ + ser_string(s@));
    }
}

pub fn push_u8_dec(out: &mut Vec<char>, n: u8)
    ensures
        final(out)@ == old(out)@ + dec_u8(n),
{
    if n < 10 {
        out.push(hex_digit_exec((n % 10) as u32));
        proof {
            assert(out@ =~= old(out)@ + dec_u8(n));
        }
    } else if n < 100 {
        out.push(hex_digit_exec(((n / 10) % 10) as u32));
        out.push(hex_digit_exec((n % 10) as u32));
        proof {
            assert(out@ =~= old(out)@ + dec_u8(n));
        }
    } else {
        out.push(hex_digit_exec(((n / 100) % 10) as u32));
        out.push(hex_digit_exec(((n / 10) % 10) as u32));
        out.push(hex_digit_exec((n % 10) as u32));
        proof {
            assert(out@ =~= old(out)@ + dec_u8(n));
        }
    }
}

pub fn push_bytes(out: &mut Vec<char>, b: &Vec<u8>)
    ensures
        final(out)@ == old(out)@ + ser_bytes(b@),
{
    out.push('[');
    let mut i: usize = 0;
    while i < b.len()
        invariant
            i <= b@.len(),
            out@ == old(out)@ + seq!['['] + ser_bytes_items(b@.subrange(0, i as int)),
        decreases b@.len() - i,
    {
        if i > 0 {
            out.push(',');
        }
        push_u8_dec(out, b[i]);
        proof {
            lemma_bytes_items_push(b@.subrange(0, i as int), b@[i as int]);
            assert(b@.subrange(0, i + 1 as int) =~= b@.subrange(0, i as int).push(b@[i as int]));
            assert(out@ =~= old(out)@ + seq!['['] + ser_bytes_items(b@.subrange(0, i + 1 as int)));
        }
        i += 1;
    }
    out.push(']');
    proof {
        assert(b@.subrange(0, b@.len() as int) =~= b@);
        assert(out@ =~= old(out)@ + ser_bytes(b@));
    }
}

pub fn push_bool(out: &mut Vec<char>, b: bool)
    ensures
        final(out)@ == old(out)@ + ser_bool(b),
{
    if b {
        out.push('t');
        out.push('r');
        out.push('u');
        out.push('e');
    } else {
        out.push('f');
        out.push('a');
        out.push('l');
        out.push('s');
        out.push('e');
    }
    proof {
        assert(out@ =~= old(out)@ + ser_bool(b));
    }
}

pub fn push_lit(out: &mut Vec<char>, lit: &Vec<char>)
    ensures
        final(out)@ == old(out)@ + lit@,
{
    let mut i: usize = 0;
    while i < lit.len()
        invariant
            i <= lit@.len(),
            out@ == old(out)@ + lit@.subrange(0, i as int),
        decreases lit@.len() - i,
    {
        out.push(lit[i]);
        i += 1;
        proof {
            assert(out@ =~= old(out)@ + lit@.subrange(0, i as int));
        }
    }
    proof {
        assert(out@ =~= old(out)@ + lit@);
    }
}

pub fn lit_c_name_vec() -> (r: Vec<char>)
    ensures
        r@ == lit_c_name(),
{
    let v = chars_of("{\"name\":");
    proof {
        reveal_strlit("{\"name\":");
        assert(v@ =~= lit_c_name());
    }
    v
}

pub fn lit_c_children_vec() -> (r: Vec<char>)
    ensures
        r@ == lit_c_children(),
{
    let v = chars_of(",\"children\":[");
    proof {
        reveal_strlit(",\"children\":[");
        assert(v@ =~= lit_c_children());
    }
    v
}

pub fn lit_c_entries_vec() -> (r: Vec<char>)
    ensures
        r@ == lit_c_entries(),
{
    let v = chars_of(",\"entries\":[");
    proof {
        reveal_strlit(",\"entries\":[");
        assert(v@ =~= lit_c_entries());
    }
    v
}

pub fn lit_parent_vec() -> (r: Vec<char>)
    ensures
        r@ == lit_parent(),
{
    let v = chars_of(",\"parent\":");
    proof {
        reveal_strlit(",\"parent\":");
        assert(v@ =~= lit_parent());
    }
    v
}

pub fn lit_e_user_vec() -> (r: Vec<char>)
    ensures
        r@ == lit_e_user(),
{
    let v = chars_of("{\"username\":");
    proof {
        reveal_strlit("{\"username\":");
        assert(v@ =~= lit_e_user());
    }
    v
}

pub fn lit_e_pass_vec() -> (r: Vec<char>)
    ensures
        r@ == lit_e_pass(),
{
    let v = chars_of(",\"pass_vec\":");
    proof {
        reveal_strlit(",\"pass_vec\":");
        assert(v@ =~= lit_e_pass());
    }
    v
}

pub fn lit_e_email_vec() -> (r: Vec<char>)
    ensures
        r@ == lit_e_email(),
{
    let v = chars_of(",\"email\":");
    proof {
        reveal_strlit(",\"email\":");
        assert(v@ =~= lit_e_email());
    }
    v
}

pub fn lit_e_url_vec() -> (r: Vec<char>)
    ensures
        r@ == lit_e_url(),
{
    let v = chars_of(",\"url\":");
    proof {
        reveal_strlit(",\"url\":");
        assert(v@ =~= lit_e_url());
    }
    v
}

pub fn lit_e_sealed_vec() -> (r: Vec<char>)
    ensures
        r@ == lit_e_sealed(),
{
    let v = chars_of(",\"sealed\":");
    proof {
        reveal_strlit(",\"sealed\":");
        assert(v@ =~= lit_e_sealed());
    }
    v
}

pub fn lit_e_password_vec() -> (r: Vec<char>)
    ensures
        r@ == lit_e_password(),
{
    let v = chars_of(",\"password\":");
    proof {
        reveal_strlit(",\"password\":");
        assert(v@ =~= lit_e_password());
    }
    v
}

pub fn push_entry(out: &mut Vec<char>, e: &Entry)
    ensures
        final(out)@ == old(out)@ + ser_entry(e@),
{
    let l = lit_e_user_vec();
    push_lit(out, &l);
    push_str_escaped(out, self_str(&e.username));
    let l = lit_e_pass_vec();
    push_lit(out, &l);
    push_bytes(out, &e.pass_vec);
    let l = lit_e_email_vec();
    push_lit(out, &l);
    push_str_escaped(out, self_str(&e.email));
    let l = lit_e_url_vec();
    push_lit(out, &l);
    push_str_escaped(out, self_str(&e.url));
    let l = lit_parent_vec();
    push_lit(out, &l);
    push_str_escaped(out, self_str(&e.parent));
    let l = lit_e_sealed_vec();
    push_lit(out, &l);
    push_bool(out, e.sealed);
    out.push('}');
    proof {
        reveal(ser_entry);
        assert(out@ =~= old(out)@ + ser_entry(e@));
    }
}

pub fn self_str(s: &String) -> (r: &str)
    ensures
        r@ == s@,
{
    s.as_str()
}

pub fn push_container(out: &mut Vec<char>, c: &Container)
    ensures
        final(out)@ == old(out)@ + ser_container(container_vw(*c)),
    decreases *c,
{
    let l = lit_c_name_vec();
    push_lit(out, &l);
    push_str_escaped(out, self_str(&c.name));
    let l = lit_c_children_vec();
    push_lit(out, &l);
    let ghost mid1 = out@;
    let mut i: usize = 0;
    while i < c.children.len()
        invariant
            i <= c.children@.len(),
            out@ == mid1 + ser_containers_items(views_of_children(c.children@).subrange(
                0,
                i as int,
            )),
        decreases c.children@.len() - i,
    {
        if i > 0 {
            out.push(',');
        }
        push_container(out, &c.children[i]);
        proof {
            crate::passman::lemma_views_of_children(c.children@);
            let vws = views_of_children(c.children@);
            lemma_containers_items_push(vws.subrange(0, i as int), vws[i as int]);
            assert(vws.subrange(0, i + 1 as int) =~= vws.subrange(0, i as int).push(vws[i as int]));
            assert(out@ =~= mid1 + ser_containers_items(vws.subrange(0, i + 1 as int)));
        }
        i += 1;
    }
    proof {
        crate::passman::lemma_views_of_children(c.children@);
        assert(views_of_children(c.children@).subrange(
            0,
            views_of_children(c.children@).len() as int,
        ) =~= views_of_children(c.children@));
    }
    out.push(']');
    let l = lit_c_entries_vec();
    push_lit(out, &l);
    let ghost mid2 = out@;
    let mut j: usize = 0;
    while j < c.entries.len()
        invariant
            j <= c.entries@.len(),
            out@ == mid2 + ser_entries_items(views_of_entries(c.entries@).subrange(0, j as int)),
        decreases c.entries@.len() - j,
    {
        if j > 0 {
            out.push(',');
        }
        push_entry(out, &c.entries[j]);
        proof {
            let vws = views_of_entries(c.entries@);
            lemma_entries_items_push(vws.subrange(0, j as int), vws[j as int]);
            assert(vws.subrange(0, j + 1 as int) =~= vws.subrange(0, j as int).push(vws[j as int]));
            assert(out@ =~= mid2 + ser_entries_items(vws.subrange(0, j + 1 as int)));
        }
        j += 1;
    }
    proof {
        assert(views_of_entries(c.entries@).subrange(
            0,
            views_of_entries(c.entries@).len() as int,
        ) =~= views_of_entries(c.entries@));
    }
    out.push(']');
    let l = lit_parent_vec();
    push_lit(out, &l);
    push_str_escaped(out, self_str(&c.parent));
    out.push('}');
    proof {
        assert(out@ =~= old(out)@ + ser_container(container_vw(*c)));
    }
}

} // verus!

verus! {

// ---------------------------------------------------------------- parser helpers
pub proof fn lemma_starts_with_concat(s: Seq<char>, a: Seq<char>, b: Seq<char>)
    ensures
        starts_with(s, a + b) <==> (starts_with(s, a) && starts_with(s.skip(a.len() as int), b)),
{
    if starts_with(s, a + b) {
        let ab = a + b;
        assert forall|t: int| 0 <= t < a.len() implies s[t] == a[t] by {
            assert(s.subrange(0, ab.len() as int)[t] == s[t]);
            assert(ab[t] == a[t]);
        }
        assert(s.subrange(0, a.len() as int) =~= a);
        assert forall|t: int| 0 <= t < b.len() implies s.skip(a.len() as int)[t] == b[t] by {
            assert(s.subrange(0, ab.len() as int)[a.len() + t] == s[a.len() + t]);
            assert(ab[a.len() + t] == b[t]);
        }
        assert(s.skip(a.len() as int).subrange(0, b.len() as int) =~= b);
    }
    if starts_with(s, a) && starts_with(s.skip(a.len() as int), b) {
        assert(s.subrange(0, (a + b).len() as int) =~= a + b);
    }
}

pub proof fn lemma_skip_skip(s: Seq<char>, m: int, n: int)
    requires
        0 <= m,
        0 <= n,
        m + n <= s.len(),
    ensures
        s.skip(m).skip(n) == s.skip(m + n),
{
    assert(s.skip(m).skip(n) =~= s.skip(m + n));
}

/// Match a fixed run of characters at a position.
pub fn match_at(s: &Vec<char>, i: usize, lit: &Vec<char>) -> (r: Option<usize>)
    requires
        i <= s@.len(),
    ensures
        r matches Some(j) ==> i <= j <= s@.len() && j as int == i + lit@.len() && s@.subrange(
            i as int,
            j as int,
        ) == lit@,
        r is None ==> !starts_with(s@.skip(i as int), lit@),
{
    if s.len() - i < lit.len() {
        return None;
    }
    let sl = s.len();
    let mut k: usize = 0;
    while k < lit.len()
        invariant
            k <= lit@.len(),
            i + lit@.len() <= s@.len(),
            sl == s@.len(),
            forall|t: int| 0 <= t < k ==> s@[i + t] == lit@[t],
        decreases lit@.len() - k,
    {
        proof {
            assert(i + k < sl);
        }
        if s[i + k] != lit[k] {
            proof {
                assert(s@.skip(i as int)[k as int] == s@[i + k]);
            }
            return None;
        }
        k += 1;
    }
    proof {
        assert(s@.subrange(i as int, i + lit@.len()) =~= lit@);
    }
    Some(i + lit.len())
}

pub fn lit_true_vec() -> (r: Vec<char>)
    ensures
        r@ == ser_bool(true),
{
    let v = chars_of("true");
    proof {
        reveal_strlit("true");
        assert(v@ =~= ser_bool(true));
    }
    v
}

pub fn lit_false_vec() -> (r: Vec<char>)
    ensures
        r@ == ser_bool(false),
{
    let v = chars_of("false");
    proof {
        reveal_strlit("false");
        assert(v@ =~= ser_bool(false));
    }
    v
}

pub fn parse_bool(s: &Vec<char>, i: usize) -> (r: Option<(bool, usize)>)
    requires
        i <= s@.len(),
    ensures
        r matches Some(bj) ==> i < bj.1 <= s@.len() && s@.subrange(i as int, bj.1 as int)
            == ser_bool(bj.0),
        forall|v: bool| #[trigger]
            starts_with(s@.skip(i as int), ser_bool(v)) ==> (r matches Some(bj) && bj.0 == v
                && bj.1 as int == i + ser_bool(v).len()),
{
    let lt = lit_true_vec();
    match match_at(s, i, &lt) {
        Some(j) => Some((true, j)),
        None => {
            let lf = lit_false_vec();
            match match_at(s, i, &lf) {
                Some(j) => Some((false, j)),
                None => None,
            }
        },
    }
}

// ---------------------------------------------------------------- numbers
pub open spec fn is_digit(c: char) -> bool {
    48 <= c as u32 <= 57
}

pub open spec fn digit_val(c: char) -> u32 {
    (c as u32 - 48) as u32
}

pub proof fn lemma_digit_chars()
    ensures
        forall|n: u32| n < 10 ==> is_digit(#[trigger] hex_digit(n)) && digit_val(hex_digit(n)) == n,
        forall|c: char| #[trigger] is_digit(c) ==> hex_digit(digit_val(c)) == c,
{
    assert forall|n: u32| n < 10 implies is_digit(#[trigger] hex_digit(n)) && digit_val(
        hex_digit(n),
    ) == n by {
        if n == 0 {
        } else if n == 1 {
        } else if n == 2 {
        } else if n == 3 {
        } else if n == 4 {
        } else if n == 5 {
        } else if n == 6 {
        } else if n == 7 {
        } else if n == 8 {
        } else {
            assert(n == 9);
        }
    }
    assert forall|c: char| #[trigger] is_digit(c) implies hex_digit(digit_val(c)) == c by {
        let n = digit_val(c);
        assert(n < 10);
        assert(c as u32 == n + 48);
        assert(hex_digit(n) as u32 == n + 48) by {
            if n == 0 {
            } else if n == 1 {
            } else if n == 2 {
            } else if n == 3 {
            } else if n == 4 {
            } else if n == 5 {
            } else if n == 6 {
            } else if n == 7 {
            } else if n == 8 {
            } else {
                assert(n == 9);
            }
        }
        vstd::utf8::char_u32_cast(c, c as u32);
        vstd::utf8::char_u32_cast(hex_digit(n), hex_digit(n) as u32);
    }
}

/// Parse a canonical decimal byte: one to three digits, no leading zero,
/// stopping before any character that is not a digit.
pub fn parse_u8(s: &Vec<char>, i: usize) -> (r: Option<(u8, usize)>)
    requires
        i <= s@.len(),
    ensures
        r matches Some(nj) ==> i < nj.1 <= s@.len() && s@.subrange(i as int, nj.1 as int)
            == dec_u8(nj.0) && (nj.1 == s@.len() || !is_digit(s@[nj.1 as int])),
        forall|v: u8|
            (#[trigger] starts_with(s@.skip(i as int), dec_u8(v)) && (i + dec_u8(v).len()
                == s@.len() || !is_digit(s@.skip(i as int)[dec_u8(v).len() as int]))) ==> (
            r matches Some(nj) && nj.0 == v && nj.1 as int == i + dec_u8(v).len()),
{
    proof {
        lemma_digit_chars();
    }
    if i >= s.len() {
        proof {
            assert forall|v: u8| !starts_with(s@.skip(i as int), dec_u8(v)) by {
                lemma_dec_digits(v);
            }
        }
        return None;
    }
    let c0 = s[i];
    let c0v = c0 as u32;
    if !(48 <= c0v && c0v <= 57) {
        proof {
            assert forall|v: u8| !starts_with(s@.skip(i as int), dec_u8(v)) by {
                lemma_dec_digits(v);
                if starts_with(s@.skip(i as int), dec_u8(v)) {
                    assert(s@.skip(i as int).subrange(0, dec_u8(v).len() as int)[0] == s@.skip(
                        i as int,
                    )[0]);
                    assert(s@.skip(i as int)[0] == dec_u8(v)[0]);
                    assert(is_digit(dec_u8(v)[0]));
                    assert(s@[i as int] == dec_u8(v)[0]);
                }
            }
        }
        return None;
    }
    let d0 = c0v - 48;
    if d0 == 0 {
        if i + 1 < s.len() {
            let c1 = s[i + 1];
            let c1v = c1 as u32;
            if 48 <= c1v && c1v <= 57 {
                proof {
                    assert forall|v: u8|
                        !(#[trigger] starts_with(s@.skip(i as int), dec_u8(v)) && (i + dec_u8(
                            v,
                        ).len() == s@.len() || !is_digit(
                            s@.skip(i as int)[dec_u8(v).len() as int],
                        ))) by {
                        lemma_dec_digits(v);
                        if starts_with(s@.skip(i as int), dec_u8(v)) {
                            assert(s@.skip(i as int).subrange(0, dec_u8(v).len() as int)[0]
                                == s@.skip(i as int)[0]);
                            assert(s@.skip(i as int)[0] == dec_u8(v)[0]);
                            assert(dec_u8(v)[0] == s@[i as int]);
                            assert(digit_val(dec_u8(v)[0]) == 0);
                            assert(v < 10);
                            assert(dec_u8(v).len() == 1);
                            assert(s@.skip(i as int)[1] == s@[i + 1]);
                            assert(is_digit(s@.skip(i as int)[1]));
                            assert(i + 1 < s@.len());
                        }
                    }
                }
                return None;
            }
        }
        proof {
            assert(s@.subrange(i as int, i + 1) =~= dec_u8(0u8)) by {
                assert(is_digit(s@[i as int]) && digit_val(s@[i as int]) == 0);
                assert(s@[i as int] == hex_digit(0));
            }
            lemma_parse_u8_complete(s@, i as int, 0u8, i + 1);
        }
        return Some((0, i + 1));
    }
    let mut n: u32 = d0;
    let mut j: usize = i + 1;
    if j < s.len() {
        let c1 = s[j];
        let c1v = c1 as u32;
        if 48 <= c1v && c1v <= 57 {
            n = n * 10 + (c1v - 48);
            j += 1;
            if j < s.len() {
                let c2 = s[j];
                let c2v = c2 as u32;
                if 48 <= c2v && c2v <= 57 {
                    n = n * 10 + (c2v - 48);
                    j += 1;
                    if n > 255 {
                        proof {
                            assert forall|v: u8|
                                !(#[trigger] starts_with(s@.skip(i as int), dec_u8(v)) && (i
                                    + dec_u8(v).len() == s@.len() || !is_digit(
                                    s@.skip(i as int)[dec_u8(v).len() as int],
                                ))) by {
                                lemma_dec_digits(v);
                                lemma_dec_value(v);
                                if starts_with(s@.skip(i as int), dec_u8(v)) {
                                    let lv = dec_u8(v).len() as int;
                                    assert(forall|t: int|
                                        0 <= t < lv ==> #[trigger] s@.skip(i as int)[t] == dec_u8(
                                            v,
                                        )[t]) by {
                                        assert(forall|t: int|
                                            0 <= t < lv ==> #[trigger] s@.skip(i as int).subrange(
                                                0,
                                                lv,
                                            )[t] == s@.skip(i as int)[t]);
                                    }
                                    assert(s@.skip(i as int)[0] == s@[i as int]);
                                    assert(s@.skip(i as int)[1] == s@[i + 1]);
                                    assert(s@.skip(i as int)[2] == s@[i + 2]);
                                    if lv == 1 {
                                        assert(is_digit(s@.skip(i as int)[1]));
                                        assert(i + 1 < s@.len());
                                    } else if lv == 2 {
                                        assert(is_digit(s@.skip(i as int)[2]));
                                        assert(i + 2 < s@.len());
                                    } else {
                                        assert(digit_val(dec_u8(v)[0]) == digit_val(s@[i as int]));
                                        assert(digit_val(dec_u8(v)[1]) == digit_val(s@[i + 1]));
                                        assert(digit_val(dec_u8(v)[2]) == digit_val(s@[i + 2]));
                                        assert(v as u32 == n);
                                    }
                                }
                            }
                        }
                        return None;
                    }
                    if j < s.len() {
                        let c3 = s[j];
                        let c3v = c3 as u32;
                        if 48 <= c3v && c3v <= 57 {
                            proof {
                                assert forall|v: u8|
                                    !(#[trigger] starts_with(s@.skip(i as int), dec_u8(v)) && (i
                                        + dec_u8(v).len() == s@.len() || !is_digit(
                                        s@.skip(i as int)[dec_u8(v).len() as int],
                                    ))) by {
                                    lemma_dec_digits(v);
                                    let lv = dec_u8(v).len() as int;
                                    assert(s@.skip(i as int)[1] == s@[i + 1]);
                                    assert(s@.skip(i as int)[2] == s@[i + 2]);
                                    assert(s@.skip(i as int)[3] == s@[i + 3]);
                                    assert(is_digit(s@.skip(i as int)[lv]));
                                    assert(i + lv < s@.len());
                                }
                            }
                            return None;
                        }
                    }
                    proof {
                        let m = (n as u8) as u8;
                        assert(digit_val(s@[i as int]) == d0 && digit_val(s@[i + 1]) == c1v - 48
                            && digit_val(s@[i + 2]) == c2v - 48);
                        assert(s@.subrange(i as int, j as int) =~= dec_u8(n as u8)) by {
                            assert(is_digit(s@[i as int]) && digit_val(s@[i as int]) == d0);
                            assert(is_digit(s@[i + 1]) && digit_val(s@[i + 1]) == c1v - 48);
                            assert(is_digit(s@[i + 2]) && digit_val(s@[i + 2]) == c2v - 48);
                            assert(n as u8 >= 100) by {
                                assert(d0 >= 1);
                            }
                            assert((n as u8) / 100 == d0 as u8);
                            assert(((n as u8) / 10) % 10 == (c1v - 48) as u8);
                            assert((n as u8) % 10 == (c2v - 48) as u8);
                            assert(dec_u8(n as u8)[0] == hex_digit(d0));
                            assert(dec_u8(n as u8)[1] == hex_digit(((c1v - 48) as u32)));
                            assert(dec_u8(n as u8)[2] == hex_digit(((c2v - 48) as u32)));
                            assert(s@[i as int] == hex_digit(d0));
                            assert(s@[i + 1] == hex_digit(((c1v - 48) as u32)));
                            assert(s@[i + 2] == hex_digit(((c2v - 48) as u32)));
                        }
                        lemma_parse_u8_complete(s@, i as int, n as u8, j as int);
                    }
                    return Some((n as u8, j));
                }
            }
            proof {
                assert(digit_val(s@[i as int]) == d0 && digit_val(s@[i + 1]) == c1v - 48);
                assert(s@.subrange(i as int, j as int) =~= dec_u8(n as u8)) by {
                    assert(is_digit(s@[i as int]) && digit_val(s@[i as int]) == d0);
                    assert(is_digit(s@[i + 1]) && digit_val(s@[i + 1]) == c1v - 48);
                    assert(10 <= n as u8 && (n as u8) < 100) by {
                        assert(d0 >= 1);
                    }
                    assert((n as u8) / 10 == d0 as u8);
                    assert((n as u8) % 10 == (c1v - 48) as u8);
                    assert(dec_u8(n as u8)[0] == hex_digit(d0));
                    assert(dec_u8(n as u8)[1] == hex_digit(((c1v - 48) as u32)));
                    assert(s@[i as int] == hex_digit(d0));
                    assert(s@[i + 1] == hex_digit(((c1v - 48) as u32)));
                }
                lemma_parse_u8_complete(s@, i as int, n as u8, j as int);
            }
            return Some((n as u8, j));
        }
    }
    proof {
        assert(s@.subrange(i as int, j as int) =~= dec_u8(n as u8)) by {
            assert(n < 10);
            assert(is_digit(s@[i as int]) && digit_val(s@[i as int]) == n);
            assert(dec_u8(n as u8)[0] == hex_digit(n));
            assert(s@[i as int] == hex_digit(n));
        }
        lemma_parse_u8_complete(s@, i as int, n as u8, j as int);
    }
    Some((n as u8, j))
}

/// Every character of a canonical number is a digit, and its length tells
/// the value's range.
pub proof fn lemma_dec_digits(v: u8)
    ensures
        1 <= dec_u8(v).len() <= 3,
        forall|t: int| 0 <= t < dec_u8(v).len() ==> is_digit(#[trigger] dec_u8(v)[t]),
        v >= 10 ==> digit_val(dec_u8(v)[0]) >= 1,
        dec_u8(v).len() == 1 <==> v < 10,
        dec_u8(v).len() == 2 <==> (10 <= v && v < 100),
        dec_u8(v).len() == 3 <==> v >= 100,
{
    lemma_digit_chars();
    assert forall|t: int| 0 <= t < dec_u8(v).len() implies is_digit(#[trigger] dec_u8(v)[t]) by {
        if v < 10 {
            assert(dec_u8(v)[t] == hex_digit((v % 10) as u32));
        } else if v < 100 {
            if t == 0 {
                assert(dec_u8(v)[t] == hex_digit(((v / 10) % 10) as u32));
            } else {
                assert(dec_u8(v)[t] == hex_digit((v % 10) as u32));
            }
        } else {
            if t == 0 {
                assert(dec_u8(v)[t] == hex_digit(((v / 100) % 10) as u32));
            } else if t == 1 {
                assert(dec_u8(v)[t] == hex_digit(((v / 10) % 10) as u32));
            } else {
                assert(dec_u8(v)[t] == hex_digit((v % 10) as u32));
            }
        }
    }
    if v >= 10 && v < 100 {
        assert(digit_val(dec_u8(v)[0]) == (v / 10) as u32);
    }
    if v >= 100 {
        assert(digit_val(dec_u8(v)[0]) == (v / 100) as u32);
    }
}

/// The value of a canonical number is determined by its digits.
pub proof fn lemma_dec_value(v: u8)
    ensures
        dec_u8(v).len() == 1 ==> v as u32 == digit_val(dec_u8(v)[0]),
        dec_u8(v).len() == 2 ==> v as u32 == 10 * digit_val(dec_u8(v)[0]) + digit_val(
            dec_u8(v)[1],
        ),
        dec_u8(v).len() == 3 ==> v as u32 == 100 * digit_val(dec_u8(v)[0]) + 10 * digit_val(
            dec_u8(v)[1],
        ) + digit_val(dec_u8(v)[2]),
{
    lemma_digit_chars();
    lemma_dec_digits(v);
    if v < 10 {
        assert(digit_val(dec_u8(v)[0]) == (v % 10) as u32);
    } else if v < 100 {
        assert(digit_val(dec_u8(v)[0]) == (v / 10) as u32);
        assert(digit_val(dec_u8(v)[1]) == (v % 10) as u32);
    } else {
        assert(digit_val(dec_u8(v)[0]) == (v / 100) as u32);
        assert(digit_val(dec_u8(v)[1]) == ((v / 10) % 10) as u32);
        assert(digit_val(dec_u8(v)[2]) == (v % 10) as u32);
    }
}

/// At most one canonical number, digit-delimited, stands at any position.
pub proof fn lemma_parse_u8_complete(s: Seq<char>, i: int, n: u8, j: int)
    requires
        0 <= i < j <= s.len(),
        s.subrange(i, j) == dec_u8(n),
        j == s.len() || !is_digit(s[j]),
    ensures
        forall|v: u8|
            (#[trigger] starts_with(s.skip(i), dec_u8(v)) && (i + dec_u8(v).len() == s.len()
                || !is_digit(s.skip(i)[dec_u8(v).len() as int]))) ==> v == n && i + dec_u8(v).len()
                == j,
{
    lemma_digit_chars();
    lemma_dec_digits(n);
    lemma_dec_value(n);
    let ln = dec_u8(n).len() as int;
    assert(j == i + ln);
    assert forall|t: int| 0 <= t < ln implies s.skip(i)[t] == dec_u8(n)[t] by {
        assert(dec_u8(n)[t] == s.subrange(i, j)[t]);
    }
    assert forall|v: u8|
        (#[trigger] starts_with(s.skip(i), dec_u8(v)) && (i + dec_u8(v).len() == s.len()
            || !is_digit(s.skip(i)[dec_u8(v).len() as int]))) implies v == n && i + dec_u8(v).len()
        == j by {
        lemma_dec_digits(v);
        lemma_dec_value(v);
        let lv = dec_u8(v).len() as int;
        assert(forall|t: int| 0 <= t < lv ==> #[trigger] s.skip(i)[t] == dec_u8(v)[t]) by {
            assert(forall|t: int|
                0 <= t < lv ==> #[trigger] s.skip(i).subrange(0, lv)[t] == s.skip(i)[t]);
        }
        assert(lv == ln) by {
            if lv < ln {
                assert(s.skip(i)[lv] == dec_u8(n)[lv]);
                assert(is_digit(dec_u8(n)[lv]));
                assert(i + lv < s.len());
            } else if ln < lv {
                assert(s.skip(i)[ln] == dec_u8(v)[ln]);
                assert(is_digit(dec_u8(v)[ln]));
                assert(s[j] == s.skip(i)[ln]);
            }
        }
        assert(forall|t: int| 0 <= t < ln ==> dec_u8(v)[t] == dec_u8(n)[t]);
        assert(v == n) by {
            if ln == 1 {
                assert(digit_val(dec_u8(v)[0]) == digit_val(dec_u8(n)[0]));
            } else if ln == 2 {
                assert(digit_val(dec_u8(v)[0]) == digit_val(dec_u8(n)[0]));
                assert(digit_val(dec_u8(v)[1]) == digit_val(dec_u8(n)[1]));
            } else {
                assert(digit_val(dec_u8(v)[0]) == digit_val(dec_u8(n)[0]));
                assert(digit_val(dec_u8(v)[1]) == digit_val(dec_u8(n)[1]));
                assert(digit_val(dec_u8(v)[2]) == digit_val(dec_u8(n)[2]));
            }
        }
    }
}

} // verus!

verus! {

// ---------------------------------------------------------------- strings
pub open spec fn is_hex_lower(c: char) -> bool {
    is_digit(c) || (97 <= c as u32 <= 102)
}

pub open spec fn hex_val(c: char) -> u32 {
    if is_digit(c) {
        digit_val(c)
    } else {
        (c as u32 - 87) as u32
    }
}

pub proof fn lemma_hex_chars()
    ensures
        forall|n: u32|
            n < 16 ==> is_hex_lower(#[trigger] hex_digit(n)) && hex_val(hex_digit(n)) == n,
        forall|c: char| #[trigger] is_hex_lower(c) ==> hex_digit(hex_val(c)) == c,
{
    lemma_digit_chars();
    assert forall|n: u32| n < 16 implies is_hex_lower(#[trigger] hex_digit(n)) && hex_val(
        hex_digit(n),
    ) == n by {
        if n == 10 {
        } else if n == 11 {
        } else if n == 12 {
        } else if n == 13 {
        } else if n == 14 {
        } else if n == 15 {
        } else {
            assert(n < 10);
        }
    }
    assert forall|c: char| #[trigger] is_hex_lower(c) implies hex_digit(hex_val(c)) == c by {
        let n = hex_val(c);
        if is_digit(c) {
        } else {
            assert(c as u32 == n + 87);
            assert(10 <= n < 16);
            assert(hex_digit(n) as u32 == n + 87) by {
                if n == 10 {
                } else if n == 11 {
                } else if n == 12 {
                } else if n == 13 {
                } else if n == 14 {
                } else {
                    assert(n == 15);
                }
            }
            vstd::utf8::char_u32_cast(c, c as u32);
            vstd::utf8::char_u32_cast(hex_digit(n), hex_digit(n) as u32);
        }
    }
}

pub proof fn lemma_starts_with_index(t: Seq<char>, p: Seq<char>, k: int)
    requires
        starts_with(t, p),
        0 <= k < p.len(),
    ensures
        t[k] == p[k],
{
    assert(t.subrange(0, p.len() as int)[k] == t[k]);
}

/// Inside a string body: what the input must still hold for a candidate
/// value, given the characters already recognized.
pub proof fn lemma_string_midstate(s: Seq<char>, i: int, pos: int, out: Seq<char>, v: Seq<char>)
    requires
        0 <= i < pos <= s.len(),
        s.subrange(i + 1, pos) == esc(out),
        starts_with(s.skip(i), ser_string(v)),
        out.len() <= v.len(),
        v.subrange(0, out.len() as int) == out,
    ensures
        starts_with(s.skip(pos), esc(v.skip(out.len() as int)) + seq!['"']),
        pos == i + 1 + esc(out).len(),
{
    let n = out.len() as int;
    let x = v.skip(n);
    assert(v =~= v.subrange(0, n) + x);
    lemma_esc_append(v.subrange(0, n), x);
    assert(esc(v) == esc(out) + esc(x));
    assert(ser_string(v) =~= seq!['"'] + (esc(out) + (esc(x) + seq!['"'])));
    lemma_starts_with_concat(s.skip(i), seq!['"'], esc(out) + (esc(x) + seq!['"']));
    assert(starts_with(s.skip(i).skip(1), esc(out) + (esc(x) + seq!['"'])));
    lemma_skip_skip(s, i, 1);
    lemma_starts_with_concat(s.skip(i + 1), esc(out), esc(x) + seq!['"']);
    assert(starts_with(s.skip(i + 1).skip(esc(out).len() as int), esc(x) + seq!['"']));
    assert(pos == i + 1 + esc(out).len());
    lemma_skip_skip(s, i + 1, esc(out).len() as int);
}

/// The shape of one escape unit at the head of a string body.
pub proof fn lemma_esc_head(t: Seq<char>, x: Seq<char>)
    requires
        x.len() > 0,
        starts_with(t, esc(x) + seq!['"']),
    ensures
        starts_with(t, esc_char(x[0])),
        starts_with(t.skip(esc_char(x[0]).len() as int), esc(x.drop_first()) + seq!['"']),
        t[0] == esc_char(x[0])[0],
{
    assert(esc(x) + seq!['"'] =~= esc_char(x[0]) + (esc(x.drop_first()) + seq!['"']));
    lemma_starts_with_concat(t, esc_char(x[0]), esc(x.drop_first()) + seq!['"']);
    lemma_starts_with_index(t, esc_char(x[0]), 0);
}

/// The character encoded by a canonical unicode escape, and its escape.
pub proof fn lemma_u_escape(h1: char, h2: char, cc: char, hv1: u32, hv2: u32)
    requires
        h1 == '0' || h1 == '1',
        is_hex_lower(h2),
        hv1 == hex_val(h1),
        hv2 == hex_val(h2),
        cc as u32 == 16 * hv1 + hv2,
    ensures
        esc_char(cc) == seq!['\\', 'u', '0', '0', h1, h2],
        (cc as u32) < 32,
{
    lemma_hex_chars();
    assert(is_hex_lower(h1));
    assert(hv1 < 2 && hv2 < 16);
    assert((cc as u32) < 32);
    assert(cc != '"' && cc != '\\') by {
        assert('"' as u32 == 34 && '\\' as u32 == 92);
    }
    assert((cc as u32) / 16 == hv1 && (cc as u32) % 16 == hv2);
    assert(hex_digit(hex_val(h1)) == h1 && hex_digit(hex_val(h2)) == h2);
    assert(esc_char(cc) =~= seq!['\\', 'u', '0', '0', h1, h2]);
}

/// Parse a canonical serialized string starting at its opening quote.
#[verifier::rlimit(100)]
#[verifier::spinoff_prover]
pub fn parse_string(s: &Vec<char>, i: usize) -> (r: Option<(Vec<char>, usize)>)
    requires
        i <= s@.len(),
    ensures
        r matches Some(tj) ==> i < tj.1 <= s@.len() && s@.subrange(i as int, tj.1 as int)
            == ser_string(tj.0@),
        forall|v: Seq<char>| #[trigger]
            starts_with(s@.skip(i as int), ser_string(v)) ==> (r matches Some(tj) && tj.0@ == v
                && tj.1 as int == i + ser_string(v).len()),
{
    proof {
        lemma_hex_chars();
        lemma_digit_chars();
    }
    let sl = s.len();
    if i >= sl || s[i] != '"' {
        proof {
            assert forall|v: Seq<char>| !starts_with(s@.skip(i as int), ser_string(v)) by {
                if starts_with(s@.skip(i as int), ser_string(v)) {
                    lemma_starts_with_index(s@.skip(i as int), ser_string(v), 0);
                    assert(ser_string(v)[0] == '"');
                    assert(s@[i as int] == '"');
                }
            }
        }
        return None;
    }
    let mut out: Vec<char> = Vec::new();
    let mut pos: usize = i + 1;
    proof {
        assert(s@.subrange(i + 1, pos as int) =~= esc(out@));
    }
    while pos < sl
        invariant
            i < pos <= sl,
            sl == s@.len(),
            s@[i as int] == '"',
            s@.subrange(i + 1, pos as int) == esc(out@),
            forall|v: Seq<char>| #[trigger]
                starts_with(s@.skip(i as int), ser_string(v)) ==> out@.len() <= v.len()
                    && v.subrange(0, out@.len() as int) == out@,
        decreases sl - pos,
    {
        let c = s[pos];
        if c == '"' {
            proof {
                assert(s@.subrange(i as int, pos + 1) =~= ser_string(out@)) by {
                    assert(s@.subrange(i as int, pos + 1) =~= seq!['"'] + esc(out@) + seq!['"']);
                }
                assert forall|v: Seq<char>| #[trigger]
                    starts_with(s@.skip(i as int), ser_string(v)) implies out@ == v && pos + 1 == i
                    + ser_string(v).len() by {
                    lemma_string_midstate(s@, i as int, pos as int, out@, v);
                    let x = v.skip(out@.len() as int);
                    if x.len() > 0 {
                        lemma_esc_head(s@.skip(pos as int), x);
                        assert(s@.skip(pos as int)[0] == s@[pos as int]);
                        assert(esc_char(x[0])[0] != '"') by {
                            if x[0] == '"' {
                            } else if x[0] == '\\' {
                            } else if (x[0] as u32) < 32 {
                            } else {
                            }
                        }
                    }
                    assert(x.len() == 0);
                    assert(v =~= v.subrange(0, out@.len() as int));
                }
            }
            return Some((out, pos + 1));
        } else if c == '\\' {
            if pos + 1 >= sl {
                proof {
                    assert forall|v: Seq<char>| !starts_with(s@.skip(i as int), ser_string(v)) by {
                        if starts_with(s@.skip(i as int), ser_string(v)) {
                            lemma_string_midstate(s@, i as int, pos as int, out@, v);
                            let x = v.skip(out@.len() as int);
                            let t = s@.skip(pos as int);
                            if x.len() == 0 {
                                lemma_starts_with_index(t, esc(x) + seq!['"'], 0);
                                assert(t[0] == '"');
                                assert(s@[pos as int] == '"');
                            } else {
                                lemma_esc_head(t, x);
                                assert(esc_char(x[0]).len() >= 2) by {
                                    if x[0] == '"' {
                                    } else if x[0] == '\\' {
                                    } else if (x[0] as u32) < 32 {
                                    } else {
                                        assert(esc_char(x[0])[0] == x[0]);
                                        assert(s@[pos as int] == x[0]);
                                    }
                                }
                                assert(t.len() >= esc_char(x[0]).len());
                                assert(pos + 2 <= sl);
                            }
                        }
                    }
                }
                return None;
            }
            let d = s[pos + 1];
            let ghost old_out = out@;
            let ghost old_pos = pos as int;
            if d == '"' || d == '\\' {
                out.push(d);
                pos = pos + 2;
                proof {
                    lemma_esc_push(old_out, d);
                    assert(esc_char(d) =~= seq!['\\', d]);
                    assert(s@.subrange(i + 1, pos as int) =~= esc(out@)) by {
                        assert(s@.subrange(i + 1, pos as int) =~= esc(old_out) + seq!['\\', d]);
                    }
                    assert forall|v: Seq<char>| #[trigger]
                        starts_with(s@.skip(i as int), ser_string(v)) implies out@.len() <= v.len()
                        && v.subrange(0, out@.len() as int) == out@ by {
                        lemma_string_midstate(s@, i as int, old_pos, old_out, v);
                        let x = v.skip(old_out.len() as int);
                        let t = s@.skip(old_pos);
                        if x.len() == 0 {
                            lemma_starts_with_index(t, esc(x) + seq!['"'], 0);
                            assert(s@[old_pos] == '"');
                        }
                        assert(x.len() > 0);
                        lemma_esc_head(t, x);
                        assert(x[0] == d) by {
                            assert(t[0] == esc_char(x[0])[0]);
                            assert(t[0] == s@[old_pos]);
                            if x[0] == '"' {
                                lemma_starts_with_index(t, esc_char(x[0]), 1);
                                assert(s@[old_pos + 1] == '"');
                            } else if x[0] == '\\' {
                                lemma_starts_with_index(t, esc_char(x[0]), 1);
                                assert(s@[old_pos + 1] == '\\');
                            } else if (x[0] as u32) < 32 {
                                lemma_starts_with_index(t, esc_char(x[0]), 1);
                                assert(s@[old_pos + 1] == 'u');
                            } else {
                                assert(s@[old_pos] == x[0]);
                            }
                        }
                        assert(v.subrange(0, out@.len() as int) =~= out@) by {
                            assert(v[old_out.len() as int] == x[0]);
                        }
                    }
                }
            } else if d == 'u' {
                if sl - pos < 6 {
                    proof {
                        assert forall|v: Seq<char>|
                            !starts_with(s@.skip(i as int), ser_string(v)) by {
                            if starts_with(s@.skip(i as int), ser_string(v)) {
                                lemma_string_midstate(s@, i as int, pos as int, out@, v);
                                let x = v.skip(out@.len() as int);
                                let t = s@.skip(pos as int);
                                if x.len() == 0 {
                                    lemma_starts_with_index(t, esc(x) + seq!['"'], 0);
                                    assert(s@[pos as int] == '"');
                                }
                                assert(x.len() > 0);
                                lemma_esc_head(t, x);
                                assert(t[0] == s@[pos as int]);
                                if x[0] == '"' || x[0] == '\\' {
                                    lemma_starts_with_index(t, esc_char(x[0]), 1);
                                    assert(s@[pos + 1] == esc_char(x[0])[1]);
                                } else if (x[0] as u32) < 32 {
                                    assert(esc_char(x[0]).len() == 6);
                                    assert(t.len() >= 6);
                                    assert(pos + 6 <= sl);
                                } else {
                                    assert(s@[pos as int] == x[0]);
                                }
                            }
                        }
                    }
                    return None;
                }
                let z1 = s[pos + 2];
                let z2 = s[pos + 3];
                let h1 = s[pos + 4];
                let h2 = s[pos + 5];
                let h1v = h1 as u32;
                let h2v = h2 as u32;
                let h1_ok = h1 == '0' || h1 == '1';
                let h2_ok = (48 <= h2v && h2v <= 57) || (97 <= h2v && h2v <= 102);
                if z1 == '0' && z2 == '0' && h1_ok && h2_ok {
                    let hv1 = if h1 == '0' {
                        0u32
                    } else {
                        1u32
                    };
                    let hv2 = if 48 <= h2v && h2v <= 57 {
                        h2v - 48
                    } else {
                        h2v - 87
                    };
                    let value = 16 * hv1 + hv2;
                    let cc = (value as u8) as char;
                    out.push(cc);
                    pos = pos + 6;
                    proof {
                        assert(hv1 == hex_val(h1) && hv2 == hex_val(h2)) by {
                            vstd::utf8::char_u32_cast(h1, h1 as u32);
                        }
                        assert(cc as u32 == value);
                        assert(is_hex_lower(h2));
                        lemma_u_escape(h1, h2, cc, hv1, hv2);
                        lemma_esc_push(old_out, cc);
                        assert(s@.subrange(i + 1, pos as int) =~= esc(out@)) by {
                            assert(s@.subrange(i + 1, pos as int) =~= esc(old_out) + seq!['\\', 'u', '0', '0', h1, h2]);
                        }
                        assert forall|v: Seq<char>| #[trigger]
                            starts_with(s@.skip(i as int), ser_string(v)) implies out@.len()
                            <= v.len() && v.subrange(0, out@.len() as int) == out@ by {
                            lemma_string_midstate(s@, i as int, old_pos, old_out, v);
                            let x = v.skip(old_out.len() as int);
                            let t = s@.skip(old_pos);
                            if x.len() == 0 {
                                lemma_starts_with_index(t, esc(x) + seq!['"'], 0);
                                assert(s@[old_pos] == '"');
                            }
                            assert(x.len() > 0);
                            lemma_esc_head(t, x);
                            assert(t[0] == s@[old_pos]);
                            assert(x[0] == cc) by {
                                if x[0] == '"' || x[0] == '\\' {
                                    lemma_starts_with_index(t, esc_char(x[0]), 1);
                                    assert(s@[old_pos + 1] == esc_char(x[0])[1]);
                                } else if (x[0] as u32) < 32 {
                                    lemma_starts_with_index(t, esc_char(x[0]), 4);
                                    lemma_starts_with_index(t, esc_char(x[0]), 5);
                                    assert(s@[old_pos + 4] == hex_digit((x[0] as u32) / 16));
                                    assert(s@[old_pos + 5] == hex_digit((x[0] as u32) % 16));
                                    assert(hex_val(h1) == (x[0] as u32) / 16);
                                    assert(hex_val(h2) == (x[0] as u32) % 16);
                                    assert(x[0] as u32 == value);
                                    vstd::utf8::char_u32_cast(x[0], x[0] as u32);
                                    vstd::utf8::char_u32_cast(cc, cc as u32);
                                } else {
                                    assert(s@[old_pos] == x[0]);
                                }
                            }
                            assert(v.subrange(0, out@.len() as int) =~= out@) by {
                                assert(v[old_out.len() as int] == x[0]);
                            }
                        }
                    }
                } else {
                    proof {
                        assert forall|v: Seq<char>|
                            !starts_with(s@.skip(i as int), ser_string(v)) by {
                            if starts_with(s@.skip(i as int), ser_string(v)) {
                                lemma_string_midstate(s@, i as int, pos as int, out@, v);
                                let x = v.skip(out@.len() as int);
                                let t = s@.skip(pos as int);
                                if x.len() == 0 {
                                    lemma_starts_with_index(t, esc(x) + seq!['"'], 0);
                                    assert(s@[pos as int] == '"');
                                }
                                assert(x.len() > 0);
                                lemma_esc_head(t, x);
                                assert(t[0] == s@[pos as int]);
                                if x[0] == '"' || x[0] == '\\' {
                                    lemma_starts_with_index(t, esc_char(x[0]), 1);
                                    assert(s@[pos + 1] == esc_char(x[0])[1]);
                                } else if (x[0] as u32) < 32 {
                                    let cv = x[0] as u32;
                                    lemma_starts_with_index(t, esc_char(x[0]), 2);
                                    lemma_starts_with_index(t, esc_char(x[0]), 3);
                                    lemma_starts_with_index(t, esc_char(x[0]), 4);
                                    lemma_starts_with_index(t, esc_char(x[0]), 5);
                                    assert(s@[pos + 2] == '0' && s@[pos + 3] == '0');
                                    assert(s@[pos + 4] == hex_digit(cv / 16));
                                    assert(s@[pos + 5] == hex_digit(cv % 16));
                                    assert(cv / 16 < 2 && cv % 16 < 16);
                                    assert(hex_digit(cv / 16) == '0' || hex_digit(cv / 16) == '1');
                                    assert(is_hex_lower(hex_digit(cv % 16)));
                                } else {
                                    assert(s@[pos as int] == x[0]);
                                }
                            }
                        }
                    }
                    return None;
                }
            } else {
                proof {
                    assert forall|v: Seq<char>| !starts_with(s@.skip(i as int), ser_string(v)) by {
                        if starts_with(s@.skip(i as int), ser_string(v)) {
                            lemma_string_midstate(s@, i as int, pos as int, out@, v);
                            let x = v.skip(out@.len() as int);
                            let t = s@.skip(pos as int);
                            if x.len() == 0 {
                                lemma_starts_with_index(t, esc(x) + seq!['"'], 0);
                                assert(s@[pos as int] == '"');
                            }
                            assert(x.len() > 0);
                            lemma_esc_head(t, x);
                            assert(t[0] == s@[pos as int]);
                            if x[0] == '"' || x[0] == '\\' || (x[0] as u32) < 32 {
                                lemma_starts_with_index(t, esc_char(x[0]), 1);
                                assert(s@[pos + 1] == esc_char(x[0])[1]);
                            } else {
                                assert(s@[pos as int] == x[0]);
                            }
                        }
                    }
                }
                return None;
            }
        } else {
            let cv = c as u32;
            if cv < 32 {
                proof {
                    assert forall|v: Seq<char>| !starts_with(s@.skip(i as int), ser_string(v)) by {
                        if starts_with(s@.skip(i as int), ser_string(v)) {
                            lemma_string_midstate(s@, i as int, pos as int, out@, v);
                            let x = v.skip(out@.len() as int);
                            let t = s@.skip(pos as int);
                            if x.len() == 0 {
                                lemma_starts_with_index(t, esc(x) + seq!['"'], 0);
                                assert(s@[pos as int] == '"');
                            }
                            assert(x.len() > 0);
                            lemma_esc_head(t, x);
                            assert(t[0] == s@[pos as int]);
                            if x[0] == '"' {
                            } else if x[0] == '\\' {
                            } else if (x[0] as u32) < 32 {
                            } else {
                                assert(s@[pos as int] == x[0]);
                            }
                        }
                    }
                }
                return None;
            }
            let ghost old_out = out@;
            let ghost old_pos = pos as int;
            out.push(c);
            pos = pos + 1;
            proof {
                lemma_esc_push(old_out, c);
                assert(esc_char(c) =~= seq![c]);
                assert(s@.subrange(i + 1, pos as int) =~= esc(out@)) by {
                    assert(s@.subrange(i + 1, pos as int) =~= esc(old_out) + seq![c]);
                }
                assert forall|v: Seq<char>| #[trigger]
                    starts_with(s@.skip(i as int), ser_string(v)) implies out@.len() <= v.len()
                    && v.subrange(0, out@.len() as int) == out@ by {
                    lemma_string_midstate(s@, i as int, old_pos, old_out, v);
                    let x = v.skip(old_out.len() as int);
                    let t = s@.skip(old_pos);
                    if x.len() == 0 {
                        lemma_starts_with_index(t, esc(x) + seq!['"'], 0);
                        assert(s@[old_pos] == '"');
                    }
                    assert(x.len() > 0);
                    lemma_esc_head(t, x);
                    assert(t[0] == s@[old_pos]);
                    assert(x[0] == c) by {
                        if x[0] == '"' {
                        } else if x[0] == '\\' {
                        } else if (x[0] as u32) < 32 {
                        } else {
                            assert(s@[old_pos] == x[0]);
                        }
                    }
                    assert(v.subrange(0, out@.len() as int) =~= out@) by {
                        assert(v[old_out.len() as int] == x[0]);
                    }
                }
            }
        }
    }
    proof {
        assert forall|v: Seq<char>| !starts_with(s@.skip(i as int), ser_string(v)) by {
            if starts_with(s@.skip(i as int), ser_string(v)) {
                lemma_string_midstate(s@, i as int, pos as int, out@, v);
                let x = v.skip(out@.len() as int);
                let t = s@.skip(pos as int);
                assert(t.len() >= (esc(x) + seq!['"']).len());
                assert(t.len() >= 1);
            }
        }
    }
    None
}

} // verus!

verus! {

// ---------------------------------------------------------------- byte arrays
/// The items of a partial array, with the separator that must follow them
/// when more items come.
pub open spec fn ser_bytes_items_sep(b: Seq<u8>) -> Seq<char> {
    if b.len() == 0 {
        Seq::empty()
    } else {
        ser_bytes_items(b) + seq![',']
    }
}

pub proof fn lemma_bytes_items_split(v: Seq<u8>, k: int)
    requires
        0 <= k < v.len(),
    ensures
        ser_bytes_items(v) == ser_bytes_items_sep(v.subrange(0, k)) + ser_bytes_items(v.skip(k)),
    decreases k,
{
    if k == 0 {
        assert(v.subrange(0, 0) =~= Seq::<u8>::empty());
        assert(v.skip(0) =~= v);
        assert(ser_bytes_items_sep(v.subrange(0, 0)) + ser_bytes_items(v.skip(0))
            =~= ser_bytes_items(v));
    } else {
        let vd = v.drop_first();
        lemma_bytes_items_split(vd, k - 1);
        assert(v.skip(k) =~= vd.skip(k - 1));
        let d0 = dec_u8(v[0]);
        assert(ser_bytes_items(v) == d0 + seq![','] + ser_bytes_items(vd));
        if k == 1 {
            assert(v.subrange(0, 1) =~= seq![v[0]]);
            assert(ser_bytes_items(seq![v[0]]) == dec_u8(seq![v[0]][0]));
            assert(ser_bytes_items_sep(v.subrange(0, 1)) =~= d0 + seq![',']);
            assert(vd.subrange(0, 0) =~= Seq::<u8>::empty());
            assert(ser_bytes_items(vd) == ser_bytes_items(vd.skip(0)));
            assert(vd.skip(0) =~= vd);
            assert((d0 + seq![',']) + ser_bytes_items(vd) =~= d0 + seq![','] + ser_bytes_items(
                vd,
            ));
        } else {
            let p = v.subrange(0, k);
            assert(p.len() >= 2);
            assert(p.drop_first() =~= vd.subrange(0, k - 1));
            assert(ser_bytes_items(p) == dec_u8(p[0]) + seq![','] + ser_bytes_items(
                vd.subrange(0, k - 1),
            ));
            assert(p[0] == v[0]);
            assert(ser_bytes_items_sep(vd.subrange(0, k - 1)) == ser_bytes_items(
                vd.subrange(0, k - 1),
            ) + seq![',']) by {
                assert(vd.subrange(0, k - 1).len() == k - 1 >= 1);
            }
            assert(ser_bytes_items_sep(p) + ser_bytes_items(v.skip(k)) =~= d0 + seq![','] + (
            ser_bytes_items_sep(vd.subrange(0, k - 1)) + ser_bytes_items(vd.skip(k - 1))));
        }
    }
}

/// Inside an array: what the input must still hold for a candidate value,
/// given the items already recognized.
pub proof fn lemma_bytes_midstate(s: Seq<char>, i: int, pos: int, out: Seq<u8>, v: Seq<u8>)
    requires
        0 <= i < pos <= s.len(),
        s.subrange(i + 1, pos) == ser_bytes_items_sep(out),
        starts_with(s.skip(i), ser_bytes(v)),
        out.len() < v.len(),
        v.subrange(0, out.len() as int) == out,
    ensures
        starts_with(s.skip(pos), ser_bytes_items(v.skip(out.len() as int)) + seq![']']),
        pos == i + 1 + ser_bytes_items_sep(out).len(),
{
    let k = out.len() as int;
    let x = v.skip(k);
    lemma_bytes_items_split(v, k);
    assert(ser_bytes(v) =~= seq!['['] + (ser_bytes_items_sep(out) + (ser_bytes_items(x)
        + seq![']'])));
    lemma_starts_with_concat(s.skip(i), seq!['['], ser_bytes_items_sep(out) + (ser_bytes_items(x)
        + seq![']']));
    lemma_skip_skip(s, i, 1);
    lemma_starts_with_concat(s.skip(i + 1), ser_bytes_items_sep(out), ser_bytes_items(x)
        + seq![']']);
    assert(pos == i + 1 + ser_bytes_items_sep(out).len());
    lemma_skip_skip(s, i + 1, ser_bytes_items_sep(out).len() as int);
}

/// The first item of a non-empty array rest, and what follows it.
pub proof fn lemma_bytes_item_head(t: Seq<char>, x: Seq<u8>)
    requires
        x.len() > 0,
        starts_with(t, ser_bytes_items(x) + seq![']']),
    ensures
        starts_with(t, dec_u8(x[0])),
        dec_u8(x[0]).len() < t.len(),
        !is_digit(t[dec_u8(x[0]).len() as int]),
        x.len() == 1 ==> t[dec_u8(x[0]).len() as int] == ']',
        x.len() > 1 ==> t[dec_u8(x[0]).len() as int] == ',' && starts_with(
            t.skip(dec_u8(x[0]).len() as int + 1),
            ser_bytes_items(x.drop_first()) + seq![']'],
        ),
{
    let d = dec_u8(x[0]);
    assert(']' as u32 == 93 && ',' as u32 == 44);
    if x.len() == 1 {
        assert(ser_bytes_items(x) == d);
        lemma_starts_with_concat(t, d, seq![']']);
        lemma_starts_with_index(t.skip(d.len() as int), seq![']'], 0);
        assert(t.skip(d.len() as int)[0] == t[d.len() as int]);
        assert(!is_digit(']'));
    } else {
        assert(ser_bytes_items(x) == d + seq![','] + ser_bytes_items(x.drop_first()));
        assert(ser_bytes_items(x) + seq![']'] =~= d + (seq![','] + (ser_bytes_items(
            x.drop_first(),
        ) + seq![']'])));
        lemma_starts_with_concat(t, d, seq![','] + (ser_bytes_items(x.drop_first()) + seq![']']));
        lemma_starts_with_concat(
            t.skip(d.len() as int),
            seq![','],
            ser_bytes_items(x.drop_first()) + seq![']'],
        );
        lemma_starts_with_index(t.skip(d.len() as int), seq![','], 0);
        assert(t.skip(d.len() as int)[0] == t[d.len() as int]);
        assert(!is_digit(','));
        lemma_skip_skip(t, d.len() as int, 1);
    }
}

/// Parse a canonical byte array.
#[verifier::rlimit(60)]
#[verifier::spinoff_prover]
pub fn parse_bytes(s: &Vec<char>, i: usize) -> (r: Option<(Vec<u8>, usize)>)
    requires
        i <= s@.len(),
    ensures
        r matches Some(bj) ==> i < bj.1 <= s@.len() && s@.subrange(i as int, bj.1 as int)
            == ser_bytes(bj.0@),
        forall|v: Seq<u8>| #[trigger]
            starts_with(s@.skip(i as int), ser_bytes(v)) ==> (r matches Some(bj) && bj.0@ == v
                && bj.1 as int == i + ser_bytes(v).len()),
{
    let sl = s.len();
    if i >= sl || s[i] != '[' {
        proof {
            assert forall|v: Seq<u8>| !starts_with(s@.skip(i as int), ser_bytes(v)) by {
                if starts_with(s@.skip(i as int), ser_bytes(v)) {
                    lemma_starts_with_index(s@.skip(i as int), ser_bytes(v), 0);
                    assert(ser_bytes(v)[0] == '[');
                    assert(s@[i as int] == '[');
                }
            }
        }
        return None;
    }
    if i + 1 >= sl {
        proof {
            assert forall|v: Seq<u8>| !starts_with(s@.skip(i as int), ser_bytes(v)) by {
                assert(ser_bytes(v).len() >= 2);
            }
        }
        return None;
    }
    if s[i + 1] == ']' {
        proof {
            assert(s@.subrange(i as int, i + 2) =~= ser_bytes(Seq::<u8>::empty())) by {
                assert(ser_bytes(Seq::<u8>::empty()) =~= seq!['[', ']']);
            }
            assert forall|v: Seq<u8>| #[trigger]
                starts_with(s@.skip(i as int), ser_bytes(v)) implies v
                == Seq::<u8>::empty() && i + 2 == i + ser_bytes(v).len() by {
                if v.len() > 0 {
                    assert(ser_bytes(v) =~= seq!['['] + (ser_bytes_items(v) + seq![']']));
                    lemma_starts_with_concat(
                        s@.skip(i as int),
                        seq!['['],
                        ser_bytes_items(v) + seq![']'],
                    );
                    lemma_skip_skip(s@, i as int, 1);
                    lemma_bytes_item_head(s@.skip(i + 1), v);
                    lemma_starts_with_index(s@.skip(i + 1), dec_u8(v[0]), 0);
                    lemma_dec_digits(v[0]);
                    assert(s@[i + 1] == dec_u8(v[0])[0]);
                    assert(is_digit(s@[i + 1]));
                    assert(']' as u32 == 93);
                }
                assert(v =~= Seq::<u8>::empty());
            }
        }
        let e: Vec<u8> = Vec::new();
        return Some((e, i + 2));
    }
    let mut out: Vec<u8> = Vec::new();
    let mut pos: usize = i + 1;
    proof {
        assert(s@.subrange(i + 1, pos as int) =~= ser_bytes_items_sep(out@));
        assert forall|v: Seq<u8>| #[trigger]
            starts_with(s@.skip(i as int), ser_bytes(v)) implies out@.len() < v.len()
            && v.subrange(0, out@.len() as int) == out@ by {
            if v.len() == 0 {
                assert(ser_bytes(v) =~= seq!['[', ']']);
                lemma_starts_with_index(s@.skip(i as int), ser_bytes(v), 1);
                assert(s@[i + 1] == ']');
            }
            assert(v.subrange(0, 0) =~= out@);
        }
    }
    loop
        invariant
            i < pos <= sl,
            sl == s@.len(),
            s@[i as int] == '[',
            s@.subrange(i + 1, pos as int) == ser_bytes_items_sep(out@),
            forall|v: Seq<u8>| #[trigger]
                starts_with(s@.skip(i as int), ser_bytes(v)) ==> out@.len() < v.len()
                    && v.subrange(0, out@.len() as int) == out@,
        decreases sl - pos,
    {
        let ghost old_out = out@;
        let ghost old_pos = pos as int;
        proof {
            assert forall|v: Seq<u8>| #[trigger]
                starts_with(s@.skip(i as int), ser_bytes(v)) implies starts_with(
                s@.skip(old_pos),
                dec_u8(v[old_out.len() as int]),
            ) && !is_digit(s@.skip(old_pos)[dec_u8(v[old_out.len() as int]).len() as int])
                && old_pos + dec_u8(v[old_out.len() as int]).len() < s@.len() by {
                lemma_bytes_midstate(s@, i as int, old_pos, old_out, v);
                lemma_bytes_item_head(s@.skip(old_pos), v.skip(old_out.len() as int));
                assert(v.skip(old_out.len() as int)[0] == v[old_out.len() as int]);
            }
        }
        let nres = parse_u8(s, pos);
        match nres {
            None => {
                proof {
                    assert forall|v: Seq<u8>| !starts_with(s@.skip(i as int), ser_bytes(v)) by {
                        if starts_with(s@.skip(i as int), ser_bytes(v)) {
                            let b0 = v[old_out.len() as int];
                            assert(starts_with(s@.skip(old_pos), dec_u8(b0)));
                            assert(!is_digit(s@.skip(old_pos)[dec_u8(b0).len() as int]));
                        }
                    }
                }
                return None;
            },
            Some((n, pos2)) => {
                proof {
                    assert forall|v: Seq<u8>| #[trigger]
                        starts_with(s@.skip(i as int), ser_bytes(v)) implies v[old_out.len() as int]
                        == n && pos2 as int == old_pos + dec_u8(v[old_out.len() as int]).len() by {
                        let b0 = v[old_out.len() as int];
                        assert(starts_with(s@.skip(old_pos), dec_u8(b0)));
                        assert(!is_digit(s@.skip(old_pos)[dec_u8(b0).len() as int]));
                    }
                }
                out.push(n);
                if pos2 >= sl {
                    proof {
                        assert forall|v: Seq<u8>| !starts_with(s@.skip(i as int), ser_bytes(v)) by {
                            if starts_with(s@.skip(i as int), ser_bytes(v)) {
                                lemma_bytes_midstate(s@, i as int, old_pos, old_out, v);
                                lemma_bytes_item_head(s@.skip(old_pos), v.skip(old_out.len() as int));
                                assert(old_pos + dec_u8(v[old_out.len() as int]).len() < s@.len());
                            }
                        }
                    }
                    return None;
                }
                let c = s[pos2];
                if c == ']' {
                    proof {
                        lemma_bytes_items_push(old_out, n);
                        assert(s@.subrange(i as int, pos2 + 1) =~= ser_bytes(out@)) by {
                            assert(s@.subrange(old_pos, pos2 as int) == dec_u8(n)) by {
                                assert(s@.subrange(old_pos, pos2 as int) =~= s@.skip(
                                    old_pos,
                                ).subrange(0, dec_u8(n).len() as int));
                            }
                            if old_out.len() == 0 {
                                assert(ser_bytes_items(out@) == dec_u8(n));
                            } else {
                                assert(ser_bytes_items(out@) == ser_bytes_items(old_out)
                                    + seq![','] + dec_u8(n));
                            }
                        }
                        assert forall|v: Seq<u8>| #[trigger]
                            starts_with(s@.skip(i as int), ser_bytes(v)) implies v == out@ && pos2
                            + 1 == i + ser_bytes(v).len() by {
                            lemma_bytes_midstate(s@, i as int, old_pos, old_out, v);
                            let x = v.skip(old_out.len() as int);
                            lemma_bytes_item_head(s@.skip(old_pos), x);
                            assert(x[0] == v[old_out.len() as int]);
                            assert(s@.skip(old_pos)[dec_u8(x[0]).len() as int] == s@[pos2 as int]);
                            if x.len() > 1 {
                                assert(s@[pos2 as int] == ',');
                                assert(',' as u32 == 44 && ']' as u32 == 93);
                            }
                            assert(x.len() == 1);
                            assert(v =~= out@) by {
                                assert(v.len() == old_out.len() + 1);
                                assert(v.subrange(0, old_out.len() as int) == old_out);
                                assert(v[old_out.len() as int] == n);
                            }
                            assert(ser_bytes(v).len() == 2 + ser_bytes_items(v).len());
                            assert(s@.subrange(i as int, pos2 + 1) == ser_bytes(out@));
                        }
                    }
                    return Some((out, pos2 + 1));
                } else if c == ',' {
                    pos = pos2 + 1;
                    proof {
                        lemma_bytes_items_push(old_out, n);
                        assert(s@.subrange(i + 1, pos as int) =~= ser_bytes_items_sep(out@)) by {
                            assert(s@.subrange(old_pos, pos2 as int) == dec_u8(n)) by {
                                assert(s@.subrange(old_pos, pos2 as int) =~= s@.skip(
                                    old_pos,
                                ).subrange(0, dec_u8(n).len() as int));
                            }
                            if old_out.len() == 0 {
                                assert(ser_bytes_items(out@) == dec_u8(n));
                            } else {
                                assert(ser_bytes_items(out@) == ser_bytes_items(old_out)
                                    + seq![','] + dec_u8(n));
                            }
                        }
                        assert forall|v: Seq<u8>| #[trigger]
                            starts_with(s@.skip(i as int), ser_bytes(v)) implies out@.len()
                            < v.len() && v.subrange(0, out@.len() as int) == out@ by {
                            lemma_bytes_midstate(s@, i as int, old_pos, old_out, v);
                            let x = v.skip(old_out.len() as int);
                            lemma_bytes_item_head(s@.skip(old_pos), x);
                            assert(x[0] == v[old_out.len() as int]);
                            assert(s@.skip(old_pos)[dec_u8(x[0]).len() as int] == s@[pos2 as int]);
                            if x.len() == 1 {
                                assert(s@[pos2 as int] == ']');
                                assert(',' as u32 == 44 && ']' as u32 == 93);
                            }
                            assert(x.len() > 1);
                            assert(v.subrange(0, out@.len() as int) =~= out@) by {
                                assert(v[old_out.len() as int] == n);
                            }
                        }
                    }
                } else {
                    proof {
                        assert forall|v: Seq<u8>| !starts_with(s@.skip(i as int), ser_bytes(v)) by {
                            if starts_with(s@.skip(i as int), ser_bytes(v)) {
                                lemma_bytes_midstate(s@, i as int, old_pos, old_out, v);
                                let x = v.skip(old_out.len() as int);
                                lemma_bytes_item_head(s@.skip(old_pos), x);
                                assert(s@.skip(old_pos)[dec_u8(x[0]).len() as int]
                                    == s@[pos2 as int]);
                                if x.len() == 1 {
                                    assert(s@[pos2 as int] == ']');
                                } else {
                                    assert(s@[pos2 as int] == ',');
                                }
                            }
                        }
                    }
                    return None;
                }
            },
        }
    }
}

} // verus!

verus! {

pub proof fn lemma_subrange_glue(s: Seq<char>, a: int, b: int, c: int)
    requires
        0 <= a <= b <= c <= s.len(),
    ensures
        s.subrange(a, c) == s.subrange(a, b) + s.subrange(b, c),
{
    assert(s.subrange(a, c) =~= s.subrange(a, b) + s.subrange(b, c));
}

/// A named string field: its label literal, then the string.
pub open spec fn enc_str(l: Seq<char>, v: Seq<char>) -> Seq<char> {
    l + ser_string(v)
}

/// A named byte-array field.
pub open spec fn enc_bytes(l: Seq<char>, v: Seq<u8>) -> Seq<char> {
    l + ser_bytes(v)
}

/// A named boolean field.
pub open spec fn enc_bool(l: Seq<char>, v: bool) -> Seq<char> {
    l + ser_bool(v)
}

/// Parse a label literal followed by a string.
pub fn parse_lit_string(s: &Vec<char>, i: usize, lit: &Vec<char>) -> (r: Option<(Vec<char>, usize)>)
    requires
        i <= s@.len(),
    ensures
        r matches Some(tj) ==> i < tj.1 <= s@.len() && s@.subrange(i as int, tj.1 as int)
            == enc_str(lit@, tj.0@),
        forall|v: Seq<char>| #[trigger]
            starts_with(s@.skip(i as int), enc_str(lit@, v)) ==> (r matches Some(tj) && tj.0@ == v
                && tj.1 as int == i + enc_str(lit@, v).len()),
{
    let p1 = match match_at(s, i, lit) {
        Some(p) => p,
        None => {
            proof {
                assert forall|v: Seq<char>| !starts_with(s@.skip(i as int), enc_str(lit@, v)) by {
                    if starts_with(s@.skip(i as int), enc_str(lit@, v)) {
                        lemma_starts_with_concat(s@.skip(i as int), lit@, ser_string(v));
                    }
                }
            }
            return None;
        },
    };
    match parse_string(s, p1) {
        Some((t, j)) => {
            proof {
                lemma_subrange_glue(s@, i as int, p1 as int, j as int);
                assert forall|v: Seq<char>| #[trigger]
                    starts_with(s@.skip(i as int), enc_str(lit@, v)) implies t@ == v && j as int
                    == i + enc_str(lit@, v).len() by {
                    lemma_starts_with_concat(s@.skip(i as int), lit@, ser_string(v));
                    lemma_skip_skip(s@, i as int, lit@.len() as int);
                }
            }
            Some((t, j))
        },
        None => {
            proof {
                assert forall|v: Seq<char>| !starts_with(s@.skip(i as int), enc_str(lit@, v)) by {
                    if starts_with(s@.skip(i as int), enc_str(lit@, v)) {
                        lemma_starts_with_concat(s@.skip(i as int), lit@, ser_string(v));
                        lemma_skip_skip(s@, i as int, lit@.len() as int);
                    }
                }
            }
            None
        },
    }
}

/// Parse a label literal followed by a byte array.
pub fn parse_lit_bytes(s: &Vec<char>, i: usize, lit: &Vec<char>) -> (r: Option<(Vec<u8>, usize)>)
    requires
        i <= s@.len(),
    ensures
        r matches Some(tj) ==> i < tj.1 <= s@.len() && s@.subrange(i as int, tj.1 as int)
            == enc_bytes(lit@, tj.0@),
        forall|v: Seq<u8>| #[trigger]
            starts_with(s@.skip(i as int), enc_bytes(lit@, v)) ==> (r matches Some(tj) && tj.0@
                == v && tj.1 as int == i + enc_bytes(lit@, v).len()),
{
    let p1 = match match_at(s, i, lit) {
        Some(p) => p,
        None => {
            proof {
                assert forall|v: Seq<u8>| !starts_with(s@.skip(i as int), enc_bytes(lit@, v)) by {
                    if starts_with(s@.skip(i as int), enc_bytes(lit@, v)) {
                        lemma_starts_with_concat(s@.skip(i as int), lit@, ser_bytes(v));
                    }
                }
            }
            return None;
        },
    };
    match parse_bytes(s, p1) {
        Some((t, j)) => {
            proof {
                lemma_subrange_glue(s@, i as int, p1 as int, j as int);
                assert forall|v: Seq<u8>| #[trigger]
                    starts_with(s@.skip(i as int), enc_bytes(lit@, v)) implies t@ == v && j as int
                    == i + enc_bytes(lit@, v).len() by {
                    lemma_starts_with_concat(s@.skip(i as int), lit@, ser_bytes(v));
                    lemma_skip_skip(s@, i as int, lit@.len() as int);
                }
            }
            Some((t, j))
        },
        None => {
            proof {
                assert forall|v: Seq<u8>| !starts_with(s@.skip(i as int), enc_bytes(lit@, v)) by {
                    if starts_with(s@.skip(i as int), enc_bytes(lit@, v)) {
                        lemma_starts_with_concat(s@.skip(i as int), lit@, ser_bytes(v));
                        lemma_skip_skip(s@, i as int, lit@.len() as int);
                    }
                }
            }
            None
        },
    }
}

/// Parse a label literal followed by a boolean.
pub fn parse_lit_bool(s: &Vec<char>, i: usize, lit: &Vec<char>) -> (r: Option<(bool, usize)>)
    requires
        i <= s@.len(),
    ensures
        r matches Some(tj) ==> i < tj.1 <= s@.len() && s@.subrange(i as int, tj.1 as int)
            == enc_bool(lit@, tj.0),
        forall|v: bool| #[trigger]
            starts_with(s@.skip(i as int), enc_bool(lit@, v)) ==> (r matches Some(tj) && tj.0 == v
                && tj.1 as int == i + enc_bool(lit@, v).len()),
{
    let p1 = match match_at(s, i, lit) {
        Some(p) => p,
        None => {
            proof {
                assert forall|v: bool| !starts_with(s@.skip(i as int), enc_bool(lit@, v)) by {
                    if starts_with(s@.skip(i as int), enc_bool(lit@, v)) {
                        lemma_starts_with_concat(s@.skip(i as int), lit@, ser_bool(v));
                    }
                }
            }
            return None;
        },
    };
    match parse_bool(s, p1) {
        Some((t, j)) => {
            proof {
                lemma_subrange_glue(s@, i as int, p1 as int, j as int);
                assert forall|v: bool| #[trigger]
                    starts_with(s@.skip(i as int), enc_bool(lit@, v)) implies t == v && j as int
                    == i + enc_bool(lit@, v).len() by {
                    lemma_starts_with_concat(s@.skip(i as int), lit@, ser_bool(v));
                    lemma_skip_skip(s@, i as int, lit@.len() as int);
                }
            }
            Some((t, j))
        },
        None => {
            proof {
                assert forall|v: bool| !starts_with(s@.skip(i as int), enc_bool(lit@, v)) by {
                    if starts_with(s@.skip(i as int), enc_bool(lit@, v)) {
                        lemma_starts_with_concat(s@.skip(i as int), lit@, ser_bool(v));
                        lemma_skip_skip(s@, i as int, lit@.len() as int);
                    }
                }
            }
            None
        },
    }
}

/// The first half of a serialized entry: username, secret bytes, email.
pub open spec fn ser_entry_head(u: Seq<char>, pv: Seq<u8>, m: Seq<char>) -> Seq<char> {
    enc_str(lit_e_user(), u) + enc_bytes(lit_e_pass(), pv) + enc_str(lit_e_email(), m)
}

/// The second half: url, parent, sealed flag, closing brace.
pub open spec fn ser_entry_tail(url: Seq<char>, par: Seq<char>, sl: bool) -> Seq<char> {
    enc_str(lit_e_url(), url) + enc_str(lit_parent(), par) + enc_bool(lit_e_sealed(), sl)
        + seq!['}']
}

/// A serialized entry is its two halves, back to back.
pub proof fn lemma_entry_halves(e: EntryV)
    ensures
        ser_entry(e) == ser_entry_head(e.username, e.pass_vec, e.email) + ser_entry_tail(
            e.url,
            e.parent,
            e.sealed,
        ),
{
    reveal(ser_entry);
    assert(ser_entry(e) =~= ser_entry_head(e.username, e.pass_vec, e.email) + ser_entry_tail(
        e.url,
        e.parent,
        e.sealed,
    ));
}

pub proof fn lemma_entry_head_parts(t: Seq<char>, u: Seq<char>, pv: Seq<u8>, m: Seq<char>)
    requires
        starts_with(t, ser_entry_head(u, pv, m)),
    ensures
        ({
            let o1 = enc_str(lit_e_user(), u).len() as int;
            let o2 = o1 + enc_bytes(lit_e_pass(), pv).len();
            &&& starts_with(t, enc_str(lit_e_user(), u))
            &&& starts_with(t.skip(o1), enc_bytes(lit_e_pass(), pv))
            &&& starts_with(t.skip(o2), enc_str(lit_e_email(), m))
            &&& ser_entry_head(u, pv, m).len() == o2 + enc_str(lit_e_email(), m).len()
        }),
{
    let c1 = enc_str(lit_e_user(), u);
    let c2 = enc_bytes(lit_e_pass(), pv);
    let c3 = enc_str(lit_e_email(), m);
    assert(ser_entry_head(u, pv, m) =~= c1 + (c2 + c3));
    lemma_starts_with_concat(t, c1, c2 + c3);
    lemma_starts_with_concat(t.skip(c1.len() as int), c2, c3);
    lemma_skip_skip(t, c1.len() as int, c2.len() as int);
}

pub proof fn lemma_entry_tail_parts(t: Seq<char>, url: Seq<char>, par: Seq<char>, sl: bool)
    requires
        starts_with(t, ser_entry_tail(url, par, sl)),
    ensures
        ({
            let o1 = enc_str(lit_e_url(), url).len() as int;
            let o2 = o1 + enc_str(lit_parent(), par).len();
            let o3 = o2 + enc_bool(lit_e_sealed(), sl).len();
            &&& starts_with(t, enc_str(lit_e_url(), url))
            &&& starts_with(t.skip(o1), enc_str(lit_parent(), par))
            &&& starts_with(t.skip(o2), enc_bool(lit_e_sealed(), sl))
            &&& starts_with(t.skip(o3), seq!['}'])
            &&& ser_entry_tail(url, par, sl).len() == o3 + 1
        }),
{
    let c1 = enc_str(lit_e_url(), url);
    let c2 = enc_str(lit_parent(), par);
    let c3 = enc_bool(lit_e_sealed(), sl);
    let c4 = seq!['}'];
    assert(ser_entry_tail(url, par, sl) =~= c1 + (c2 + (c3 + c4)));
    lemma_starts_with_concat(t, c1, c2 + (c3 + c4));
    lemma_starts_with_concat(t.skip(c1.len() as int), c2, c3 + c4);
    lemma_skip_skip(t, c1.len() as int, c2.len() as int);
    lemma_starts_with_concat(t.skip(c1.len() as int + c2.len()), c3, c4);
    lemma_skip_skip(t, c1.len() as int + c2.len(), c3.len() as int);
}

/// Parse the first half of an entry.
#[verifier::rlimit(100)]
#[verifier::spinoff_prover]
fn parse_entry_head(s: &Vec<char>, i: usize) -> (r: Option<(Vec<char>, Vec<u8>, Vec<char>, usize)>)
    requires
        i <= s@.len(),
    ensures
        r matches Some(x) ==> i < x.3 <= s@.len() && s@.subrange(i as int, x.3 as int)
            == ser_entry_head(x.0@, x.1@, x.2@),
        forall|u: Seq<char>, pv: Seq<u8>, m: Seq<char>| #[trigger]
            starts_with(s@.skip(i as int), ser_entry_head(u, pv, m)) ==> (r matches Some(x) && x.0@
                == u && x.1@ == pv && x.2@ == m && x.3 as int == i + ser_entry_head(u, pv, m).len()),
{
    let l_user = lit_e_user_vec();
    let (username, p1) = match parse_lit_string(s, i, &l_user) {
        Some(x) => x,
        None => {
            proof {
                assert forall|u: Seq<char>, pv: Seq<u8>, m: Seq<char>|
                    !starts_with(s@.skip(i as int), ser_entry_head(u, pv, m)) by {
                    if starts_with(s@.skip(i as int), ser_entry_head(u, pv, m)) {
                        lemma_entry_head_parts(s@.skip(i as int), u, pv, m);
                    }
                }
            }
            return None;
        },
    };
    proof {
        assert forall|u: Seq<char>, pv: Seq<u8>, m: Seq<char>| #[trigger]
            starts_with(s@.skip(i as int), ser_entry_head(u, pv, m)) implies username@ == u
            && p1 as int == i + enc_str(lit_e_user(), u).len() by {
            lemma_entry_head_parts(s@.skip(i as int), u, pv, m);
        }
    }
    let l_pass = lit_e_pass_vec();
    let (pass_vec, p2) = match parse_lit_bytes(s, p1, &l_pass) {
        Some(x) => x,
        None => {
            proof {
                assert forall|u: Seq<char>, pv: Seq<u8>, m: Seq<char>|
                    !starts_with(s@.skip(i as int), ser_entry_head(u, pv, m)) by {
                    if starts_with(s@.skip(i as int), ser_entry_head(u, pv, m)) {
                        lemma_entry_head_parts(s@.skip(i as int), u, pv, m);
                        lemma_skip_skip(s@, i as int, enc_str(lit_e_user(), u).len() as int);
                    }
                }
            }
            return None;
        },
    };
    proof {
        assert forall|u: Seq<char>, pv: Seq<u8>, m: Seq<char>| #[trigger]
            starts_with(s@.skip(i as int), ser_entry_head(u, pv, m)) implies pass_vec@ == pv
            && p2 as int == p1 + enc_bytes(lit_e_pass(), pv).len() by {
            lemma_entry_head_parts(s@.skip(i as int), u, pv, m);
            lemma_skip_skip(s@, i as int, enc_str(lit_e_user(), u).len() as int);
        }
    }
    let l_email = lit_e_email_vec();
    let (email, p3) = match parse_lit_string(s, p2, &l_email) {
        Some(x) => x,
        None => {
            proof {
                assert forall|u: Seq<char>, pv: Seq<u8>, m: Seq<char>|
                    !starts_with(s@.skip(i as int), ser_entry_head(u, pv, m)) by {
                    if starts_with(s@.skip(i as int), ser_entry_head(u, pv, m)) {
                        lemma_entry_head_parts(s@.skip(i as int), u, pv, m);
                        lemma_skip_skip(
                            s@,
                            i as int,
                            enc_str(lit_e_user(), u).len() as int + enc_bytes(
                                lit_e_pass(),
                                pv,
                            ).len(),
                        );
                    }
                }
            }
            return None;
        },
    };
    proof {
        assert forall|u: Seq<char>, pv: Seq<u8>, m: Seq<char>| #[trigger]
            starts_with(s@.skip(i as int), ser_entry_head(u, pv, m)) implies email@ == m
            && p3 as int == p2 + enc_str(lit_e_email(), m).len() by {
            lemma_entry_head_parts(s@.skip(i as int), u, pv, m);
            lemma_skip_skip(
                s@,
                i as int,
                enc_str(lit_e_user(), u).len() as int + enc_bytes(lit_e_pass(), pv).len(),
            );
        }
        lemma_subrange_glue(s@, i as int, p1 as int, p2 as int);
        lemma_subrange_glue(s@, i as int, p2 as int, p3 as int);
        assert(s@.subrange(i as int, p3 as int) =~= ser_entry_head(username@, pass_vec@, email@));
    }
    Some((username, pass_vec, email, p3))
}

/// Parse the second half of an entry.
#[verifier::rlimit(100)]
#[verifier::spinoff_prover]
fn parse_entry_tail(s: &Vec<char>, i: usize) -> (r: Option<(Vec<char>, Vec<char>, bool, usize)>)
    requires
        i <= s@.len(),
    ensures
        r matches Some(x) ==> i < x.3 <= s@.len() && s@.subrange(i as int, x.3 as int)
            == ser_entry_tail(x.0@, x.1@, x.2),
        forall|url: Seq<char>, par: Seq<char>, sl: bool| #[trigger]
            starts_with(s@.skip(i as int), ser_entry_tail(url, par, sl)) ==> (r matches Some(x)
                && x.0@ == url && x.1@ == par && x.2 == sl && x.3 as int == i + ser_entry_tail(
                url,
                par,
                sl,
            ).len()),
{
    let l_url = lit_e_url_vec();
    let (url, p1) = match parse_lit_string(s, i, &l_url) {
        Some(x) => x,
        None => {
            proof {
                assert forall|url: Seq<char>, par: Seq<char>, sl: bool|
                    !starts_with(s@.skip(i as int), ser_entry_tail(url, par, sl)) by {
                    if starts_with(s@.skip(i as int), ser_entry_tail(url, par, sl)) {
                        lemma_entry_tail_parts(s@.skip(i as int), url, par, sl);
                    }
                }
            }
            return None;
        },
    };
    proof {
        assert forall|url: Seq<char>, par: Seq<char>, sl: bool| #[trigger]
            starts_with(s@.skip(i as int), ser_entry_tail(url, par, sl)) implies url == url
            && p1 as int == i + enc_str(lit_e_url(), url).len() by {
            lemma_entry_tail_parts(s@.skip(i as int), url, par, sl);
        }
        assert forall|url2: Seq<char>, par: Seq<char>, sl: bool| #[trigger]
            starts_with(s@.skip(i as int), ser_entry_tail(url2, par, sl)) implies url@ == url2 by {
            lemma_entry_tail_parts(s@.skip(i as int), url2, par, sl);
        }
    }
    let l_par = lit_parent_vec();
    let (parent, p2) = match parse_lit_string(s, p1, &l_par) {
        Some(x) => x,
        None => {
            proof {
                assert forall|url2: Seq<char>, par: Seq<char>, sl: bool|
                    !starts_with(s@.skip(i as int), ser_entry_tail(url2, par, sl)) by {
                    if starts_with(s@.skip(i as int), ser_entry_tail(url2, par, sl)) {
                        lemma_entry_tail_parts(s@.skip(i as int), url2, par, sl);
                        lemma_skip_skip(s@, i as int, enc_str(lit_e_url(), url2).len() as int);
                    }
                }
            }
            return None;
        },
    };
    proof {
        assert forall|url2: Seq<char>, par: Seq<char>, sl: bool| #[trigger]
            starts_with(s@.skip(i as int), ser_entry_tail(url2, par, sl)) implies parent@ == par
            && p2 as int == p1 + enc_str(lit_parent(), par).len() by {
            lemma_entry_tail_parts(s@.skip(i as int), url2, par, sl);
            lemma_skip_skip(s@, i as int, enc_str(lit_e_url(), url2).len() as int);
        }
    }
    let l_sealed = lit_e_sealed_vec();
    let (sealed, p3) = match parse_lit_bool(s, p2, &l_sealed) {
        Some(x) => x,
        None => {
            proof {
                assert forall|url2: Seq<char>, par: Seq<char>, sl: bool|
                    !starts_with(s@.skip(i as int), ser_entry_tail(url2, par, sl)) by {
                    if starts_with(s@.skip(i as int), ser_entry_tail(url2, par, sl)) {
                        lemma_entry_tail_parts(s@.skip(i as int), url2, par, sl);
                        lemma_skip_skip(
                            s@,
                            i as int,
                            enc_str(lit_e_url(), url2).len() as int + enc_str(
                                lit_parent(),
                                par,
                            ).len(),
                        );
                    }
                }
            }
            return None;
        },
    };
    proof {
        assert forall|url2: Seq<char>, par: Seq<char>, sl: bool| #[trigger]
            starts_with(s@.skip(i as int), ser_entry_tail(url2, par, sl)) implies sealed == sl
            && p3 as int == p2 + enc_bool(lit_e_sealed(), sl).len() by {
            lemma_entry_tail_parts(s@.skip(i as int), url2, par, sl);
            lemma_skip_skip(
                s@,
                i as int,
                enc_str(lit_e_url(), url2).len() as int + enc_str(lit_parent(), par).len(),
            );
        }
    }
    if p3 >= s.len() || s[p3] != '}' {
        proof {
            assert forall|url2: Seq<char>, par: Seq<char>, sl: bool|
                !starts_with(s@.skip(i as int), ser_entry_tail(url2, par, sl)) by {
                if starts_with(s@.skip(i as int), ser_entry_tail(url2, par, sl)) {
                    lemma_entry_tail_parts(s@.skip(i as int), url2, par, sl);
                    let o3 = enc_str(lit_e_url(), url2).len() as int + enc_str(
                        lit_parent(),
                        par,
                    ).len() + enc_bool(lit_e_sealed(), sl).len();
                    lemma_skip_skip(s@, i as int, o3);
                    lemma_starts_with_index(s@.skip(i + o3), seq!['}'], 0);
                    assert(s@.skip(i + o3)[0] == s@[i + o3]);
                }
            }
        }
        return None;
    }
    let j = p3 + 1;
    proof {
        lemma_subrange_glue(s@, i as int, p1 as int, p2 as int);
        lemma_subrange_glue(s@, i as int, p2 as int, p3 as int);
        lemma_subrange_glue(s@, i as int, p3 as int, j as int);
        assert(s@.subrange(p3 as int, j as int) =~= seq!['}']);
        assert(s@.subrange(i as int, j as int) =~= ser_entry_tail(url@, parent@, sealed));
    }
    Some((url, parent, sealed, j))
}

/// Parse one serialized entry.
#[verifier::rlimit(100)]
#[verifier::spinoff_prover]
pub fn parse_entry(s: &Vec<char>, i: usize) -> (r: Option<(Entry, usize)>)
    requires
        i <= s@.len(),
    ensures
        r matches Some(ej) ==> i < ej.1 <= s@.len() && s@.subrange(i as int, ej.1 as int)
            == ser_entry(ej.0@),
        forall|v: EntryV| #[trigger]
            starts_with(s@.skip(i as int), ser_entry(v)) ==> (r matches Some(ej) && ej.0@ == v
                && ej.1 as int == i + ser_entry(v).len()),
{
    let (username, pass_vec, email, p1) = match parse_entry_head(s, i) {
        Some(x) => x,
        None => {
            proof {
                assert forall|v: EntryV| !starts_with(s@.skip(i as int), ser_entry(v)) by {
                    if starts_with(s@.skip(i as int), ser_entry(v)) {
                        lemma_entry_halves(v);
                        lemma_starts_with_concat(
                            s@.skip(i as int),
                            ser_entry_head(v.username, v.pass_vec, v.email),
                            ser_entry_tail(v.url, v.parent, v.sealed),
                        );
                    }
                }
            }
            return None;
        },
    };
    proof {
        assert forall|v: EntryV| #[trigger]
            starts_with(s@.skip(i as int), ser_entry(v)) implies username@ == v.username
            && pass_vec@ == v.pass_vec && email@ == v.email && p1 as int == i + ser_entry_head(
            v.username,
            v.pass_vec,
            v.email,
        ).len() && starts_with(
            s@.skip(p1 as int),
            ser_entry_tail(v.url, v.parent, v.sealed),
        ) by {
            lemma_entry_halves(v);
            lemma_starts_with_concat(
                s@.skip(i as int),
                ser_entry_head(v.username, v.pass_vec, v.email),
                ser_entry_tail(v.url, v.parent, v.sealed),
            );
            lemma_skip_skip(
                s@,
                i as int,
                ser_entry_head(v.username, v.pass_vec, v.email).len() as int,
            );
        }
    }
    let (url, parent, sealed, p2) = match parse_entry_tail(s, p1) {
        Some(x) => x,
        None => {
            proof {
                assert forall|v: EntryV| !starts_with(s@.skip(i as int), ser_entry(v)) by {
                    if starts_with(s@.skip(i as int), ser_entry(v)) {
                        assert(starts_with(
                            s@.skip(p1 as int),
                            ser_entry_tail(v.url, v.parent, v.sealed),
                        ));
                    }
                }
            }
            return None;
        },
    };
    let e = Entry {
        username: chars_to_string(&username),
        pass_vec,
        email: chars_to_string(&email),
        url: chars_to_string(&url),
        parent: chars_to_string(&parent),
        sealed,
    };
    proof {
        lemma_entry_halves(e@);
        lemma_subrange_glue(s@, i as int, p1 as int, p2 as int);
        assert(s@.subrange(i as int, p2 as int) == ser_entry(e@));
        assert forall|v: EntryV| #[trigger]
            starts_with(s@.skip(i as int), ser_entry(v)) implies e@ == v && p2 as int == i
            + ser_entry(v).len() by {
            lemma_entry_halves(v);
        }
    }
    Some((e, p2))
}

} // verus!

verus! {

// ---------------------------------------------------------------- entry lists
/// An entry list as it stands in a container: items, then the closing
/// bracket.
pub open spec fn ser_entry_list(vs: Seq<EntryV>) -> Seq<char> {
    ser_entries_items(vs) + seq![']']
}

pub open spec fn ser_entries_items_sep(vs: Seq<EntryV>) -> Seq<char> {
    if vs.len() == 0 {
        Seq::empty()
    } else {
        ser_entries_items(vs) + seq![',']
    }
}

pub proof fn lemma_ser_entry_first(e: EntryV)
    ensures
        ser_entry(e).len() >= 1,
        ser_entry(e)[0] == '{',
{
    reveal(ser_entry);
    assert(lit_e_user()[0] == '{');
}

pub proof fn lemma_entries_items_split(v: Seq<EntryV>, k: int)
    requires
        0 <= k < v.len(),
    ensures
        ser_entries_items(v) == ser_entries_items_sep(v.subrange(0, k)) + ser_entries_items(
            v.skip(k),
        ),
    decreases k,
{
    if k == 0 {
        assert(v.subrange(0, 0) =~= Seq::<EntryV>::empty());
        assert(v.skip(0) =~= v);
        assert(ser_entries_items_sep(v.subrange(0, 0)) + ser_entries_items(v.skip(0))
            =~= ser_entries_items(v));
    } else {
        let vd = v.drop_first();
        lemma_entries_items_split(vd, k - 1);
        assert(v.skip(k) =~= vd.skip(k - 1));
        let d0 = ser_entry(v[0]);
        assert(ser_entries_items(v) == d0 + seq![','] + ser_entries_items(vd));
        if k == 1 {
            assert(v.subrange(0, 1) =~= seq![v[0]]);
            assert(ser_entries_items(seq![v[0]]) == ser_entry(seq![v[0]][0]));
            assert(ser_entries_items_sep(v.subrange(0, 1)) =~= d0 + seq![',']);
            assert(vd.subrange(0, 0) =~= Seq::<EntryV>::empty());
            assert(ser_entries_items(vd) == ser_entries_items(vd.skip(0)));
            assert(vd.skip(0) =~= vd);
            assert((d0 + seq![',']) + ser_entries_items(vd) =~= d0 + seq![',']
                + ser_entries_items(vd));
        } else {
            let p = v.subrange(0, k);
            assert(p.len() >= 2);
            assert(p.drop_first() =~= vd.subrange(0, k - 1));
            assert(ser_entries_items(p) == ser_entry(p[0]) + seq![','] + ser_entries_items(
                vd.subrange(0, k - 1),
            ));
            assert(p[0] == v[0]);
            assert(ser_entries_items_sep(vd.subrange(0, k - 1)) == ser_entries_items(
                vd.subrange(0, k - 1),
            ) + seq![',']) by {
                assert(vd.subrange(0, k - 1).len() == k - 1 >= 1);
            }
            assert(ser_entries_items_sep(p) + ser_entries_items(v.skip(k)) =~= d0 + seq![','] + (
            ser_entries_items_sep(vd.subrange(0, k - 1)) + ser_entries_items(vd.skip(k - 1))));
        }
    }
}

pub proof fn lemma_entries_midstate(s: Seq<char>, i: int, pos: int, out: Seq<EntryV>, v: Seq<EntryV>)
    requires
        0 <= i <= pos <= s.len(),
        s.subrange(i, pos) == ser_entries_items_sep(out),
        starts_with(s.skip(i), ser_entry_list(v)),
        out.len() < v.len(),
        v.subrange(0, out.len() as int) == out,
    ensures
        starts_with(s.skip(pos), ser_entries_items(v.skip(out.len() as int)) + seq![']']),
        pos == i + ser_entries_items_sep(out).len(),
{
    let k = out.len() as int;
    let x = v.skip(k);
    lemma_entries_items_split(v, k);
    assert(ser_entry_list(v) =~= ser_entries_items_sep(out) + (ser_entries_items(x) + seq![']']));
    lemma_starts_with_concat(
        s.skip(i),
        ser_entries_items_sep(out),
        ser_entries_items(x) + seq![']'],
    );
    assert(pos == i + ser_entries_items_sep(out).len());
    lemma_skip_skip(s, i, ser_entries_items_sep(out).len() as int);
}

pub proof fn lemma_entries_item_head(t: Seq<char>, x: Seq<EntryV>)
    requires
        x.len() > 0,
        starts_with(t, ser_entries_items(x) + seq![']']),
    ensures
        starts_with(t, ser_entry(x[0])),
        ser_entry(x[0]).len() < t.len(),
        x.len() == 1 ==> t[ser_entry(x[0]).len() as int] == ']',
        x.len() > 1 ==> t[ser_entry(x[0]).len() as int] == ',' && starts_with(
            t.skip(ser_entry(x[0]).len() as int + 1),
            ser_entries_items(x.drop_first()) + seq![']'],
        ),
{
    let d = ser_entry(x[0]);
    if x.len() == 1 {
        assert(ser_entries_items(x) == d);
        lemma_starts_with_concat(t, d, seq![']']);
        lemma_starts_with_index(t.skip(d.len() as int), seq![']'], 0);
        assert(t.skip(d.len() as int)[0] == t[d.len() as int]);
    } else {
        assert(ser_entries_items(x) == d + seq![','] + ser_entries_items(x.drop_first()));
        assert(ser_entries_items(x) + seq![']'] =~= d + (seq![','] + (ser_entries_items(
            x.drop_first(),
        ) + seq![']'])));
        lemma_starts_with_concat(t, d, seq![','] + (ser_entries_items(x.drop_first())
            + seq![']']));
        lemma_starts_with_concat(
            t.skip(d.len() as int),
            seq![','],
            ser_entries_items(x.drop_first()) + seq![']'],
        );
        lemma_starts_with_index(t.skip(d.len() as int), seq![','], 0);
        assert(t.skip(d.len() as int)[0] == t[d.len() as int]);
        lemma_skip_skip(t, d.len() as int, 1);
    }
}

/// Parse an entry list up to and including its closing bracket.
#[verifier::rlimit(100)]
#[verifier::spinoff_prover]
pub fn parse_entries_list(s: &Vec<char>, i: usize) -> (r: Option<(Vec<Entry>, usize)>)
    requires
        i <= s@.len(),
    ensures
        r matches Some(bj) ==> i < bj.1 <= s@.len() && s@.subrange(i as int, bj.1 as int)
            == ser_entry_list(views_of_entries(bj.0@)),
        forall|v: Seq<EntryV>| #[trigger]
            starts_with(s@.skip(i as int), ser_entry_list(v)) ==> (r matches Some(bj)
                && views_of_entries(bj.0@) == v && bj.1 as int == i + ser_entry_list(v).len()),
{
    let sl = s.len();
    if i >= sl {
        proof {
            assert forall|v: Seq<EntryV>| !starts_with(s@.skip(i as int), ser_entry_list(v)) by {
                assert(ser_entry_list(v).len() >= 1);
            }
        }
        return None;
    }
    if s[i] == ']' {
        let e: Vec<Entry> = Vec::new();
        proof {
            assert(s@.subrange(i as int, i + 1) =~= ser_entry_list(views_of_entries(e@))) by {
                assert(views_of_entries(e@) =~= Seq::<EntryV>::empty());
                assert(ser_entry_list(Seq::<EntryV>::empty()) =~= seq![']']);
            }
            assert forall|v: Seq<EntryV>| #[trigger]
                starts_with(s@.skip(i as int), ser_entry_list(v)) implies views_of_entries(e@)
                == v && i + 1 == i + ser_entry_list(v).len() by {
                if v.len() > 0 {
                    lemma_entries_item_head(s@.skip(i as int), v);
                    lemma_ser_entry_first(v[0]);
                    lemma_starts_with_index(s@.skip(i as int), ser_entry(v[0]), 0);
                    assert(s@.skip(i as int)[0] == s@[i as int]);
                }
                assert(v.len() == 0);
                assert(views_of_entries(e@) =~= v);
            }
        }
        return Some((e, i + 1));
    }
    let mut out: Vec<Entry> = Vec::new();
    let mut pos: usize = i;
    proof {
        assert(s@.subrange(i as int, pos as int) =~= ser_entries_items_sep(views_of_entries(out@)));
        assert forall|v: Seq<EntryV>| #[trigger]
            starts_with(s@.skip(i as int), ser_entry_list(v)) implies views_of_entries(out@).len()
            < v.len() && v.subrange(0, views_of_entries(out@).len() as int) == views_of_entries(
            out@,
        ) by {
            if v.len() == 0 {
                assert(ser_entry_list(v) =~= seq![']']);
                lemma_starts_with_index(s@.skip(i as int), ser_entry_list(v), 0);
                assert(s@[i as int] == ']');
            }
            assert(v.subrange(0, 0) =~= views_of_entries(out@));
        }
    }
    loop
        invariant
            i <= pos <= sl,
            sl == s@.len(),
            s@.subrange(i as int, pos as int) == ser_entries_items_sep(views_of_entries(out@)),
            forall|v: Seq<EntryV>| #[trigger]
                starts_with(s@.skip(i as int), ser_entry_list(v)) ==> views_of_entries(out@).len()
                    < v.len() && v.subrange(0, views_of_entries(out@).len() as int)
                    == views_of_entries(out@),
        decreases sl - pos,
    {
        let ghost old_out = views_of_entries(out@);
        let ghost old_pos = pos as int;
        proof {
            assert forall|v: Seq<EntryV>| #[trigger]
                starts_with(s@.skip(i as int), ser_entry_list(v)) implies starts_with(
                s@.skip(old_pos),
                ser_entry(v[old_out.len() as int]),
            ) by {
                lemma_entries_midstate(s@, i as int, old_pos, old_out, v);
                lemma_entries_item_head(s@.skip(old_pos), v.skip(old_out.len() as int));
                assert(v.skip(old_out.len() as int)[0] == v[old_out.len() as int]);
            }
        }
        let eres = parse_entry(s, pos);
        match eres {
            None => {
                proof {
                    assert forall|v: Seq<EntryV>|
                        !starts_with(s@.skip(i as int), ser_entry_list(v)) by {
                        if starts_with(s@.skip(i as int), ser_entry_list(v)) {
                            assert(starts_with(
                                s@.skip(old_pos),
                                ser_entry(v[old_out.len() as int]),
                            ));
                        }
                    }
                }
                return None;
            },
            Some((en, pos2)) => {
                proof {
                    assert forall|v: Seq<EntryV>| #[trigger]
                        starts_with(s@.skip(i as int), ser_entry_list(v)) implies v[old_out.len() as int]
                        == en@ && pos2 as int == old_pos + ser_entry(
                        v[old_out.len() as int],
                    ).len() by {
                        assert(starts_with(s@.skip(old_pos), ser_entry(v[old_out.len() as int])));
                    }
                }
                out.push(en);
                proof {
                    assert(views_of_entries(out@) =~= old_out.push(en@));
                }
                if pos2 >= sl {
                    proof {
                        assert forall|v: Seq<EntryV>|
                            !starts_with(s@.skip(i as int), ser_entry_list(v)) by {
                            if starts_with(s@.skip(i as int), ser_entry_list(v)) {
                                lemma_entries_midstate(s@, i as int, old_pos, old_out, v);
                                lemma_entries_item_head(
                                    s@.skip(old_pos),
                                    v.skip(old_out.len() as int),
                                );
                                assert(old_pos + ser_entry(v.skip(old_out.len() as int)[0]).len()
                                    < s@.len());
                                assert(v.skip(old_out.len() as int)[0]
                                    == v[old_out.len() as int]);
                            }
                        }
                    }
                    return None;
                }
                let c = s[pos2];
                if c == ']' {
                    proof {
                        lemma_entries_items_push(old_out, en@);
                        assert(s@.subrange(i as int, pos2 + 1) =~= ser_entry_list(
                            views_of_entries(out@),
                        )) by {
                            assert(s@.subrange(old_pos, pos2 as int) == ser_entry(en@)) by {
                                assert(s@.subrange(old_pos, pos2 as int) =~= s@.skip(
                                    old_pos,
                                ).subrange(0, ser_entry(en@).len() as int));
                            }
                            if old_out.len() == 0 {
                                assert(ser_entries_items(views_of_entries(out@)) == ser_entry(
                                    en@,
                                ));
                            } else {
                                assert(ser_entries_items(views_of_entries(out@))
                                    == ser_entries_items(old_out) + seq![','] + ser_entry(en@));
                            }
                        }
                        assert forall|v: Seq<EntryV>| #[trigger]
                            starts_with(s@.skip(i as int), ser_entry_list(v)) implies v
                            == views_of_entries(out@) && pos2 + 1 == i + ser_entry_list(
                            v,
                        ).len() by {
                            lemma_entries_midstate(s@, i as int, old_pos, old_out, v);
                            let x = v.skip(old_out.len() as int);
                            lemma_entries_item_head(s@.skip(old_pos), x);
                            assert(x[0] == v[old_out.len() as int]);
                            assert(s@.skip(old_pos)[ser_entry(x[0]).len() as int]
                                == s@[pos2 as int]);
                            if x.len() > 1 {
                                assert(s@[pos2 as int] == ',');
                                assert(',' as u32 == 44 && ']' as u32 == 93);
                            }
                            assert(x.len() == 1);
                            assert(v =~= views_of_entries(out@)) by {
                                assert(v.len() == old_out.len() + 1);
                                assert(v.subrange(0, old_out.len() as int) == old_out);
                                assert(v[old_out.len() as int] == en@);
                            }
                            assert(s@.subrange(i as int, pos2 + 1) == ser_entry_list(
                                views_of_entries(out@),
                            ));
                        }
                    }
                    return Some((out, pos2 + 1));
                } else if c == ',' {
                    pos = pos2 + 1;
                    proof {
                        lemma_entries_items_push(old_out, en@);
                        assert(s@.subrange(i as int, pos as int) =~= ser_entries_items_sep(
                            views_of_entries(out@),
                        )) by {
                            assert(s@.subrange(old_pos, pos2 as int) == ser_entry(en@)) by {
                                assert(s@.subrange(old_pos, pos2 as int) =~= s@.skip(
                                    old_pos,
                                ).subrange(0, ser_entry(en@).len() as int));
                            }
                            if old_out.len() == 0 {
                                assert(ser_entries_items(views_of_entries(out@)) == ser_entry(
                                    en@,
                                ));
                            } else {
                                assert(ser_entries_items(views_of_entries(out@))
                                    == ser_entries_items(old_out) + seq![','] + ser_entry(en@));
                            }
                        }
                        assert forall|v: Seq<EntryV>| #[trigger]
                            starts_with(s@.skip(i as int), ser_entry_list(v)) implies views_of_entries(
                            out@,
                        ).len() < v.len() && v.subrange(0, views_of_entries(out@).len() as int)
                            == views_of_entries(out@) by {
                            lemma_entries_midstate(s@, i as int, old_pos, old_out, v);
                            let x = v.skip(old_out.len() as int);
                            lemma_entries_item_head(s@.skip(old_pos), x);
                            assert(x[0] == v[old_out.len() as int]);
                            assert(s@.skip(old_pos)[ser_entry(x[0]).len() as int]
                                == s@[pos2 as int]);
                            if x.len() == 1 {
                                assert(s@[pos2 as int] == ']');
                                assert(',' as u32 == 44 && ']' as u32 == 93);
                            }
                            assert(x.len() > 1);
                            assert(v.subrange(0, views_of_entries(out@).len() as int)
                                =~= views_of_entries(out@)) by {
                                assert(v[old_out.len() as int] == en@);
                            }
                        }
                    }
                } else {
                    proof {
                        assert forall|v: Seq<EntryV>|
                            !starts_with(s@.skip(i as int), ser_entry_list(v)) by {
                            if starts_with(s@.skip(i as int), ser_entry_list(v)) {
                                lemma_entries_midstate(s@, i as int, old_pos, old_out, v);
                                let x = v.skip(old_out.len() as int);
                                lemma_entries_item_head(s@.skip(old_pos), x);
                                assert(s@.skip(old_pos)[ser_entry(x[0]).len() as int]
                                    == s@[pos2 as int]);
                                if x.len() == 1 {
                                    assert(s@[pos2 as int] == ']');
                                } else {
                                    assert(s@[pos2 as int] == ',');
                                }
                            }
                        }
                    }
                    return None;
                }
            },
        }
    }
}

} // verus!

verus! {

// ---------------------------------------------------------------- container lists
/// A child list as it stands in a container: items, then the closing
/// bracket.
pub open spec fn ser_container_list(vs: Seq<ContainerV>) -> Seq<char> {
    ser_containers_items(vs) + seq![']']
}

pub open spec fn ser_containers_items_sep(vs: Seq<ContainerV>) -> Seq<char> {
    if vs.len() == 0 {
        Seq::empty()
    } else {
        ser_containers_items(vs) + seq![',']
    }
}

pub proof fn lemma_ser_container_first(v: ContainerV)
    ensures
        ser_container(v).len() >= 1,
        ser_container(v)[0] == '{',
{
    assert(lit_c_name()[0] == '{');
}

pub proof fn lemma_containers_items_split(v: Seq<ContainerV>, k: int)
    requires
        0 <= k < v.len(),
    ensures
        ser_containers_items(v) == ser_containers_items_sep(v.subrange(0, k))
            + ser_containers_items(v.skip(k)),
    decreases k,
{
    if k == 0 {
        assert(v.subrange(0, 0) =~= Seq::<ContainerV>::empty());
        assert(v.skip(0) =~= v);
        assert(ser_containers_items_sep(v.subrange(0, 0)) + ser_containers_items(v.skip(0))
            =~= ser_containers_items(v));
    } else {
        let vd = v.drop_first();
        lemma_containers_items_split(vd, k - 1);
        assert(v.skip(k) =~= vd.skip(k - 1));
        let d0 = ser_container(v[0]);
        assert(ser_containers_items(v) == d0 + seq![','] + ser_containers_items(vd));
        if k == 1 {
            assert(v.subrange(0, 1) =~= seq![v[0]]);
            assert(ser_containers_items(seq![v[0]]) == ser_container(seq![v[0]][0]));
            assert(ser_containers_items_sep(v.subrange(0, 1)) =~= d0 + seq![',']);
            assert(vd.subrange(0, 0) =~= Seq::<ContainerV>::empty());
            assert(ser_containers_items(vd) == ser_containers_items(vd.skip(0)));
            assert(vd.skip(0) =~= vd);
            assert((d0 + seq![',']) + ser_containers_items(vd) =~= d0 + seq![',']
                + ser_containers_items(vd));
        } else {
            let p = v.subrange(0, k);
            assert(p.len() >= 2);
            assert(p.drop_first() =~= vd.subrange(0, k - 1));
            assert(ser_containers_items(p) == ser_container(p[0]) + seq![',']
                + ser_containers_items(vd.subrange(0, k - 1)));
            assert(p[0] == v[0]);
            assert(ser_containers_items_sep(vd.subrange(0, k - 1)) == ser_containers_items(
                vd.subrange(0, k - 1),
            ) + seq![',']) by {
                assert(vd.subrange(0, k - 1).len() == k - 1 >= 1);
            }
            assert(ser_containers_items_sep(p) + ser_containers_items(v.skip(k)) =~= d0 + seq![',']
                + (ser_containers_items_sep(vd.subrange(0, k - 1)) + ser_containers_items(
                vd.skip(k - 1),
            )));
        }
    }
}

pub proof fn lemma_containers_midstate(
    s: Seq<char>,
    i: int,
    pos: int,
    out: Seq<ContainerV>,
    v: Seq<ContainerV>,
)
    requires
        0 <= i <= pos <= s.len(),
        s.subrange(i, pos) == ser_containers_items_sep(out),
        starts_with(s.skip(i), ser_container_list(v)),
        out.len() < v.len(),
        v.subrange(0, out.len() as int) == out,
    ensures
        starts_with(s.skip(pos), ser_containers_items(v.skip(out.len() as int)) + seq![']']),
        pos == i + ser_containers_items_sep(out).len(),
{
    let k = out.len() as int;
    let x = v.skip(k);
    lemma_containers_items_split(v, k);
    assert(ser_container_list(v) =~= ser_containers_items_sep(out) + (ser_containers_items(x)
        + seq![']']));
    lemma_starts_with_concat(
        s.skip(i),
        ser_containers_items_sep(out),
        ser_containers_items(x) + seq![']'],
    );
    assert(pos == i + ser_containers_items_sep(out).len());
    lemma_skip_skip(s, i, ser_containers_items_sep(out).len() as int);
}

pub proof fn lemma_containers_item_head(t: Seq<char>, x: Seq<ContainerV>)
    requires
        x.len() > 0,
        starts_with(t, ser_containers_items(x) + seq![']']),
    ensures
        starts_with(t, ser_container(x[0])),
        ser_container(x[0]).len() < t.len(),
        x.len() == 1 ==> t[ser_container(x[0]).len() as int] == ']',
        x.len() > 1 ==> t[ser_container(x[0]).len() as int] == ',' && starts_with(
            t.skip(ser_container(x[0]).len() as int + 1),
            ser_containers_items(x.drop_first()) + seq![']'],
        ),
{
    let d = ser_container(x[0]);
    if x.len() == 1 {
        assert(ser_containers_items(x) == d);
        lemma_starts_with_concat(t, d, seq![']']);
        lemma_starts_with_index(t.skip(d.len() as int), seq![']'], 0);
        assert(t.skip(d.len() as int)[0] == t[d.len() as int]);
    } else {
        assert(ser_containers_items(x) == d + seq![','] + ser_containers_items(x.drop_first()));
        assert(ser_containers_items(x) + seq![']'] =~= d + (seq![','] + (ser_containers_items(
            x.drop_first(),
        ) + seq![']'])));
        lemma_starts_with_concat(t, d, seq![','] + (ser_containers_items(x.drop_first())
            + seq![']']));
        lemma_starts_with_concat(
            t.skip(d.len() as int),
            seq![','],
            ser_containers_items(x.drop_first()) + seq![']'],
        );
        lemma_starts_with_index(t.skip(d.len() as int), seq![','], 0);
        assert(t.skip(d.len() as int)[0] == t[d.len() as int]);
        lemma_skip_skip(t, d.len() as int, 1);
    }
}

// ---------------------------------------------------------------- containers
/// The first half of a serialized container: its name and its child list.
pub open spec fn ser_container_head(nm: Seq<char>, cs: Seq<ContainerV>) -> Seq<char> {
    enc_str(lit_c_name(), nm) + lit_c_children() + ser_container_list(cs)
}

/// The second half: the entry list, the parent name, the closing brace.
pub open spec fn ser_container_tail(es: Seq<EntryV>, par: Seq<char>) -> Seq<char> {
    lit_c_entries() + ser_entry_list(es) + enc_str(lit_parent(), par) + seq!['}']
}

/// A serialized container is its two halves, back to back.
pub proof fn lemma_container_halves(v: ContainerV)
    ensures
        ser_container(v) == ser_container_head(v.name, v.children) + ser_container_tail(
            v.entries,
            v.parent,
        ),
{
    assert(ser_container(v) =~= ser_container_head(v.name, v.children) + ser_container_tail(
        v.entries,
        v.parent,
    ));
}

pub proof fn lemma_container_head_parts(t: Seq<char>, nm: Seq<char>, cs: Seq<ContainerV>)
    requires
        starts_with(t, ser_container_head(nm, cs)),
    ensures
        ({
            let o1 = enc_str(lit_c_name(), nm).len() as int;
            let o2 = o1 + lit_c_children().len();
            &&& starts_with(t, enc_str(lit_c_name(), nm))
            &&& starts_with(t.skip(o1), lit_c_children())
            &&& starts_with(t.skip(o2), ser_container_list(cs))
            &&& ser_container_head(nm, cs).len() == o2 + ser_container_list(cs).len()
        }),
{
    let c1 = enc_str(lit_c_name(), nm);
    let c2 = lit_c_children();
    let c3 = ser_container_list(cs);
    assert(ser_container_head(nm, cs) =~= c1 + (c2 + c3));
    lemma_starts_with_concat(t, c1, c2 + c3);
    lemma_starts_with_concat(t.skip(c1.len() as int), c2, c3);
    lemma_skip_skip(t, c1.len() as int, c2.len() as int);
}

pub proof fn lemma_container_tail_parts(t: Seq<char>, es: Seq<EntryV>, par: Seq<char>)
    requires
        starts_with(t, ser_container_tail(es, par)),
    ensures
        ({
            let o1 = lit_c_entries().len() as int;
            let o2 = o1 + ser_entry_list(es).len();
            let o3 = o2 + enc_str(lit_parent(), par).len();
            &&& starts_with(t, lit_c_entries())
            &&& starts_with(t.skip(o1), ser_entry_list(es))
            &&& starts_with(t.skip(o2), enc_str(lit_parent(), par))
            &&& starts_with(t.skip(o3), seq!['}'])
            &&& ser_container_tail(es, par).len() == o3 + 1
        }),
{
    let c1 = lit_c_entries();
    let c2 = ser_entry_list(es);
    let c3 = enc_str(lit_parent(), par);
    let c4 = seq!['}'];
    assert(ser_container_tail(es, par) =~= c1 + (c2 + (c3 + c4)));
    lemma_starts_with_concat(t, c1, c2 + (c3 + c4));
    lemma_starts_with_concat(t.skip(c1.len() as int), c2, c3 + c4);
    lemma_skip_skip(t, c1.len() as int, c2.len() as int);
    lemma_starts_with_concat(t.skip(c1.len() as int + c2.len()), c3, c4);
    lemma_skip_skip(t, c1.len() as int + c2.len(), c3.len() as int);
}

/// Parse the second half of a container.
#[verifier::rlimit(100)]
#[verifier::spinoff_prover]
fn parse_container_tail(s: &Vec<char>, i: usize) -> (r: Option<(Vec<Entry>, Vec<char>, usize)>)
    requires
        i <= s@.len(),
    ensures
        r matches Some(x) ==> i < x.2 <= s@.len() && s@.subrange(i as int, x.2 as int)
            == ser_container_tail(views_of_entries(x.0@), x.1@),
        forall|es: Seq<EntryV>, par: Seq<char>| #[trigger]
            starts_with(s@.skip(i as int), ser_container_tail(es, par)) ==> (r matches Some(x)
                && views_of_entries(x.0@) == es && x.1@ == par && x.2 as int == i
                + ser_container_tail(es, par).len()),
{
    let l_ent = lit_c_entries_vec();
    let p1 = match match_at(s, i, &l_ent) {
        Some(p) => p,
        None => {
            proof {
                assert forall|es: Seq<EntryV>, par: Seq<char>|
                    !starts_with(s@.skip(i as int), ser_container_tail(es, par)) by {
                    if starts_with(s@.skip(i as int), ser_container_tail(es, par)) {
                        lemma_container_tail_parts(s@.skip(i as int), es, par);
                    }
                }
            }
            return None;
        },
    };
    let (entries, p2) = match parse_entries_list(s, p1) {
        Some(x) => x,
        None => {
            proof {
                assert forall|es: Seq<EntryV>, par: Seq<char>|
                    !starts_with(s@.skip(i as int), ser_container_tail(es, par)) by {
                    if starts_with(s@.skip(i as int), ser_container_tail(es, par)) {
                        lemma_container_tail_parts(s@.skip(i as int), es, par);
                        lemma_skip_skip(s@, i as int, lit_c_entries().len() as int);
                    }
                }
            }
            return None;
        },
    };
    proof {
        assert forall|es: Seq<EntryV>, par: Seq<char>| #[trigger]
            starts_with(s@.skip(i as int), ser_container_tail(es, par)) implies views_of_entries(
            entries@,
        ) == es && p2 as int == p1 + ser_entry_list(es).len() by {
            lemma_container_tail_parts(s@.skip(i as int), es, par);
            lemma_skip_skip(s@, i as int, lit_c_entries().len() as int);
        }
    }
    let l_par = lit_parent_vec();
    let (parent, p3) = match parse_lit_string(s, p2, &l_par) {
        Some(x) => x,
        None => {
            proof {
                assert forall|es: Seq<EntryV>, par: Seq<char>|
                    !starts_with(s@.skip(i as int), ser_container_tail(es, par)) by {
                    if starts_with(s@.skip(i as int), ser_container_tail(es, par)) {
                        lemma_container_tail_parts(s@.skip(i as int), es, par);
                        lemma_skip_skip(
                            s@,
                            i as int,
                            lit_c_entries().len() as int + ser_entry_list(es).len(),
                        );
                    }
                }
            }
            return None;
        },
    };
    proof {
        assert forall|es: Seq<EntryV>, par: Seq<char>| #[trigger]
            starts_with(s@.skip(i as int), ser_container_tail(es, par)) implies parent@ == par
            && p3 as int == p2 + enc_str(lit_parent(), par).len() by {
            lemma_container_tail_parts(s@.skip(i as int), es, par);
            lemma_skip_skip(
                s@,
                i as int,
                lit_c_entries().len() as int + ser_entry_list(es).len(),
            );
        }
    }
    if p3 >= s.len() || s[p3] != '}' {
        proof {
            assert forall|es: Seq<EntryV>, par: Seq<char>|
                !starts_with(s@.skip(i as int), ser_container_tail(es, par)) by {
                if starts_with(s@.skip(i as int), ser_container_tail(es, par)) {
                    lemma_container_tail_parts(s@.skip(i as int), es, par);
                    let o3 = lit_c_entries().len() as int + ser_entry_list(es).len() + enc_str(
                        lit_parent(),
                        par,
                    ).len();
                    lemma_skip_skip(s@, i as int, o3);
                    lemma_starts_with_index(s@.skip(i + o3), seq!['}'], 0);
                    assert(s@.skip(i + o3)[0] == s@[i + o3]);
                }
            }
        }
        return None;
    }
    let j = p3 + 1;
    proof {
        lemma_subrange_glue(s@, i as int, p1 as int, p2 as int);
        lemma_subrange_glue(s@, i as int, p2 as int, p3 as int);
        lemma_subrange_glue(s@, i as int, p3 as int, j as int);
        assert(s@.subrange(p3 as int, j as int) =~= seq!['}']);
        assert(s@.subrange(i as int, j as int) =~= ser_container_tail(
            views_of_entries(entries@),
            parent@,
        ));
    }
    Some((entries, parent, j))
}

} // verus!

verus! {

/// Parse the first half of a container: its name and its children.
#[verifier::rlimit(100)]
#[verifier::spinoff_prover]
fn parse_container_head(s: &Vec<char>, i: usize) -> (r: Option<(Vec<char>, Vec<Container>, usize)>)
    requires
        i <= s@.len(),
    ensures
        r matches Some(x) ==> i < x.2 <= s@.len() && s@.subrange(i as int, x.2 as int)
            == ser_container_head(x.0@, views_of_children(x.1@)),
        forall|nm: Seq<char>, cs: Seq<ContainerV>| #[trigger]
            starts_with(s@.skip(i as int), ser_container_head(nm, cs)) ==> (r matches Some(x)
                && x.0@ == nm && views_of_children(x.1@) == cs && x.2 as int == i
                + ser_container_head(nm, cs).len()),
    decreases s@.len() - i, 0int,
{
    let l_name = lit_c_name_vec();
    let (name, p1) = match parse_lit_string(s, i, &l_name) {
        Some(x) => x,
        None => {
            proof {
                assert forall|nm: Seq<char>, cs: Seq<ContainerV>|
                    !starts_with(s@.skip(i as int), ser_container_head(nm, cs)) by {
                    if starts_with(s@.skip(i as int), ser_container_head(nm, cs)) {
                        lemma_container_head_parts(s@.skip(i as int), nm, cs);
                    }
                }
            }
            return None;
        },
    };
    proof {
        assert forall|nm: Seq<char>, cs: Seq<ContainerV>| #[trigger]
            starts_with(s@.skip(i as int), ser_container_head(nm, cs)) implies name@ == nm
            && p1 as int == i + enc_str(lit_c_name(), nm).len() by {
            lemma_container_head_parts(s@.skip(i as int), nm, cs);
        }
    }
    let l_ch = lit_c_children_vec();
    let p2 = match match_at(s, p1, &l_ch) {
        Some(p) => p,
        None => {
            proof {
                assert forall|nm: Seq<char>, cs: Seq<ContainerV>|
                    !starts_with(s@.skip(i as int), ser_container_head(nm, cs)) by {
                    if starts_with(s@.skip(i as int), ser_container_head(nm, cs)) {
                        lemma_container_head_parts(s@.skip(i as int), nm, cs);
                        lemma_skip_skip(s@, i as int, enc_str(lit_c_name(), nm).len() as int);
                    }
                }
            }
            return None;
        },
    };
    let (children, p3) = match parse_containers_list(s, p2) {
        Some(x) => x,
        None => {
            proof {
                assert forall|nm: Seq<char>, cs: Seq<ContainerV>|
                    !starts_with(s@.skip(i as int), ser_container_head(nm, cs)) by {
                    if starts_with(s@.skip(i as int), ser_container_head(nm, cs)) {
                        lemma_container_head_parts(s@.skip(i as int), nm, cs);
                        lemma_skip_skip(
                            s@,
                            i as int,
                            enc_str(lit_c_name(), nm).len() as int + lit_c_children().len(),
                        );
                    }
                }
            }
            return None;
        },
    };
    proof {
        assert forall|nm: Seq<char>, cs: Seq<ContainerV>| #[trigger]
            starts_with(s@.skip(i as int), ser_container_head(nm, cs)) implies views_of_children(
            children@,
        ) == cs && p3 as int == p2 + ser_container_list(cs).len() by {
            lemma_container_head_parts(s@.skip(i as int), nm, cs);
            lemma_skip_skip(
                s@,
                i as int,
                enc_str(lit_c_name(), nm).len() as int + lit_c_children().len(),
            );
        }
        lemma_subrange_glue(s@, i as int, p1 as int, p2 as int);
        lemma_subrange_glue(s@, i as int, p2 as int, p3 as int);
        assert(s@.subrange(i as int, p3 as int) =~= ser_container_head(
            name@,
            views_of_children(children@),
        ));
    }
    Some((name, children, p3))
}

/// Parse a child list up to and including its closing bracket.
#[verifier::rlimit(100)]
#[verifier::spinoff_prover]
pub fn parse_containers_list(s: &Vec<char>, i: usize) -> (r: Option<(Vec<Container>, usize)>)
    requires
        i <= s@.len(),
    ensures
        r matches Some(bj) ==> i < bj.1 <= s@.len() && s@.subrange(i as int, bj.1 as int)
            == ser_container_list(views_of_children(bj.0@)),
        forall|v: Seq<ContainerV>| #[trigger]
            starts_with(s@.skip(i as int), ser_container_list(v)) ==> (r matches Some(bj)
                && views_of_children(bj.0@) == v && bj.1 as int == i + ser_container_list(v).len()),
    decreases s@.len() - i, 2int,
{
    let sl = s.len();
    if i >= sl {
        proof {
            assert forall|v: Seq<ContainerV>|
                !starts_with(s@.skip(i as int), ser_container_list(v)) by {
                assert(ser_container_list(v).len() >= 1);
            }
        }
        return None;
    }
    if s[i] == ']' {
        let e: Vec<Container> = Vec::new();
        proof {
            crate::passman::lemma_views_of_children(e@);
            assert(s@.subrange(i as int, i + 1) =~= ser_container_list(views_of_children(e@))) by {
                assert(views_of_children(e@) =~= Seq::<ContainerV>::empty());
                assert(ser_container_list(Seq::<ContainerV>::empty()) =~= seq![']']);
            }
            assert forall|v: Seq<ContainerV>| #[trigger]
                starts_with(s@.skip(i as int), ser_container_list(v)) implies views_of_children(e@)
                == v && i + 1 == i + ser_container_list(v).len() by {
                if v.len() > 0 {
                    lemma_containers_item_head(s@.skip(i as int), v);
                    lemma_ser_container_first(v[0]);
                    lemma_starts_with_index(s@.skip(i as int), ser_container(v[0]), 0);
                    assert(s@.skip(i as int)[0] == s@[i as int]);
                }
                assert(v.len() == 0);
                assert(views_of_children(e@) =~= v);
            }
        }
        return Some((e, i + 1));
    }
    let mut out: Vec<Container> = Vec::new();
    let mut pos: usize = i;
    proof {
        crate::passman::lemma_views_of_children(out@);
        assert(s@.subrange(i as int, pos as int) =~= ser_containers_items_sep(
            views_of_children(out@),
        ));
        assert forall|v: Seq<ContainerV>| #[trigger]
            starts_with(s@.skip(i as int), ser_container_list(v)) implies views_of_children(
            out@,
        ).len() < v.len() && v.subrange(0, views_of_children(out@).len() as int)
            == views_of_children(out@) by {
            if v.len() == 0 {
                assert(ser_container_list(v) =~= seq![']']);
                lemma_starts_with_index(s@.skip(i as int), ser_container_list(v), 0);
                assert(s@[i as int] == ']');
            }
            assert(v.subrange(0, 0) =~= views_of_children(out@));
        }
    }
    loop
        invariant
            i <= pos <= sl,
            sl == s@.len(),
            s@.subrange(i as int, pos as int) == ser_containers_items_sep(views_of_children(out@)),
            forall|v: Seq<ContainerV>| #[trigger]
                starts_with(s@.skip(i as int), ser_container_list(v)) ==> views_of_children(
                    out@,
                ).len() < v.len() && v.subrange(0, views_of_children(out@).len() as int)
                    == views_of_children(out@),
        decreases sl - pos,
    {
        let ghost old_out = views_of_children(out@);
        let ghost old_exec = out@;
        let ghost old_pos = pos as int;
        proof {
            assert forall|v: Seq<ContainerV>| #[trigger]
                starts_with(s@.skip(i as int), ser_container_list(v)) implies starts_with(
                s@.skip(old_pos),
                ser_container(v[old_out.len() as int]),
            ) by {
                lemma_containers_midstate(s@, i as int, old_pos, old_out, v);
                lemma_containers_item_head(s@.skip(old_pos), v.skip(old_out.len() as int));
                assert(v.skip(old_out.len() as int)[0] == v[old_out.len() as int]);
            }
        }
        let cres = parse_container(s, pos);
        match cres {
            None => {
                proof {
                    assert forall|v: Seq<ContainerV>|
                        !starts_with(s@.skip(i as int), ser_container_list(v)) by {
                        if starts_with(s@.skip(i as int), ser_container_list(v)) {
                            assert(starts_with(
                                s@.skip(old_pos),
                                ser_container(v[old_out.len() as int]),
                            ));
                        }
                    }
                }
                return None;
            },
            Some((cn, pos2)) => {
                proof {
                    assert forall|v: Seq<ContainerV>| #[trigger]
                        starts_with(s@.skip(i as int), ser_container_list(v)) implies v[old_out.len() as int]
                        == container_vw(cn) && pos2 as int == old_pos + ser_container(
                        v[old_out.len() as int],
                    ).len() by {
                        assert(starts_with(
                            s@.skip(old_pos),
                            ser_container(v[old_out.len() as int]),
                        ));
                    }
                }
                out.push(cn);
                proof {
                    crate::passman::lemma_views_of_children(out@);
                    crate::passman::lemma_views_of_children(old_exec);
                    assert(out@ =~= old_exec.push(cn));
                    assert(views_of_children(out@) =~= old_out.push(container_vw(cn))) by {
                        assert(forall|k: int| 0 <= k < old_exec.len() ==> out@[k] == old_exec[k]);
                        assert(out@[old_exec.len() as int] == cn);
                    }
                }
                if pos2 >= sl {
                    proof {
                        assert forall|v: Seq<ContainerV>|
                            !starts_with(s@.skip(i as int), ser_container_list(v)) by {
                            if starts_with(s@.skip(i as int), ser_container_list(v)) {
                                lemma_containers_midstate(s@, i as int, old_pos, old_out, v);
                                lemma_containers_item_head(
                                    s@.skip(old_pos),
                                    v.skip(old_out.len() as int),
                                );
                                assert(old_pos + ser_container(
                                    v.skip(old_out.len() as int)[0],
                                ).len() < s@.len());
                                assert(v.skip(old_out.len() as int)[0]
                                    == v[old_out.len() as int]);
                            }
                        }
                    }
                    return None;
                }
                let c = s[pos2];
                if c == ']' {
                    proof {
                        lemma_containers_items_push(old_out, container_vw(cn));
                        assert(s@.subrange(i as int, pos2 + 1) =~= ser_container_list(
                            views_of_children(out@),
                        )) by {
                            assert(s@.subrange(old_pos, pos2 as int) == ser_container(
                                container_vw(cn),
                            )) by {
                                assert(s@.subrange(old_pos, pos2 as int) =~= s@.skip(
                                    old_pos,
                                ).subrange(0, ser_container(container_vw(cn)).len() as int));
                            }
                            if old_out.len() == 0 {
                                assert(ser_containers_items(views_of_children(out@))
                                    == ser_container(container_vw(cn)));
                            } else {
                                assert(ser_containers_items(views_of_children(out@))
                                    == ser_containers_items(old_out) + seq![','] + ser_container(
                                    container_vw(cn),
                                ));
                            }
                        }
                        assert forall|v: Seq<ContainerV>| #[trigger]
                            starts_with(s@.skip(i as int), ser_container_list(v)) implies v
                            == views_of_children(out@) && pos2 + 1 == i + ser_container_list(
                            v,
                        ).len() by {
                            lemma_containers_midstate(s@, i as int, old_pos, old_out, v);
                            let x = v.skip(old_out.len() as int);
                            lemma_containers_item_head(s@.skip(old_pos), x);
                            assert(x[0] == v[old_out.len() as int]);
                            assert(s@.skip(old_pos)[ser_container(x[0]).len() as int]
                                == s@[pos2 as int]);
                            if x.len() > 1 {
                                assert(s@[pos2 as int] == ',');
                                assert(',' as u32 == 44 && ']' as u32 == 93);
                            }
                            assert(x.len() == 1);
                            assert(v =~= views_of_children(out@)) by {
                                assert(v.len() == old_out.len() + 1);
                                assert(v.subrange(0, old_out.len() as int) == old_out);
                                assert(v[old_out.len() as int] == container_vw(cn));
                            }
                            assert(s@.subrange(i as int, pos2 + 1) == ser_container_list(
                                views_of_children(out@),
                            ));
                        }
                    }
                    return Some((out, pos2 + 1));
                } else if c == ',' {
                    pos = pos2 + 1;
                    proof {
                        lemma_containers_items_push(old_out, container_vw(cn));
                        assert(s@.subrange(i as int, pos as int) =~= ser_containers_items_sep(
                            views_of_children(out@),
                        )) by {
                            assert(s@.subrange(old_pos, pos2 as int) == ser_container(
                                container_vw(cn),
                            )) by {
                                assert(s@.subrange(old_pos, pos2 as int) =~= s@.skip(
                                    old_pos,
                                ).subrange(0, ser_container(container_vw(cn)).len() as int));
                            }
                            if old_out.len() == 0 {
                                assert(ser_containers_items(views_of_children(out@))
                                    == ser_container(container_vw(cn)));
                            } else {
                                assert(ser_containers_items(views_of_children(out@))
                                    == ser_containers_items(old_out) + seq![','] + ser_container(
                                    container_vw(cn),
                                ));
                            }
                        }
                        assert forall|v: Seq<ContainerV>| #[trigger]
                            starts_with(s@.skip(i as int), ser_container_list(v)) implies views_of_children(
                            out@,
                        ).len() < v.len() && v.subrange(0, views_of_children(out@).len() as int)
                            == views_of_children(out@) by {
                            lemma_containers_midstate(s@, i as int, old_pos, old_out, v);
                            let x = v.skip(old_out.len() as int);
                            lemma_containers_item_head(s@.skip(old_pos), x);
                            assert(x[0] == v[old_out.len() as int]);
                            assert(s@.skip(old_pos)[ser_container(x[0]).len() as int]
                                == s@[pos2 as int]);
                            if x.len() == 1 {
                                assert(s@[pos2 as int] == ']');
                                assert(',' as u32 == 44 && ']' as u32 == 93);
                            }
                            assert(x.len() > 1);
                            assert(v.subrange(0, views_of_children(out@).len() as int)
                                =~= views_of_children(out@)) by {
                                assert(v[old_out.len() as int] == container_vw(cn));
                            }
                        }
                    }
                } else {
                    proof {
                        assert forall|v: Seq<ContainerV>|
                            !starts_with(s@.skip(i as int), ser_container_list(v)) by {
                            if starts_with(s@.skip(i as int), ser_container_list(v)) {
                                lemma_containers_midstate(s@, i as int, old_pos, old_out, v);
                                let x = v.skip(old_out.len() as int);
                                lemma_containers_item_head(s@.skip(old_pos), x);
                                assert(s@.skip(old_pos)[ser_container(x[0]).len() as int]
                                    == s@[pos2 as int]);
                                if x.len() == 1 {
                                    assert(s@[pos2 as int] == ']');
                                } else {
                                    assert(s@[pos2 as int] == ',');
                                }
                            }
                        }
                    }
                    return None;
                }
            },
        }
    }
}

/// Parse one serialized container.
#[verifier::rlimit(100)]
#[verifier::spinoff_prover]
pub fn parse_container(s: &Vec<char>, i: usize) -> (r: Option<(Container, usize)>)
    requires
        i <= s@.len(),
    ensures
        r matches Some(cj) ==> i < cj.1 <= s@.len() && s@.subrange(i as int, cj.1 as int)
            == ser_container(container_vw(cj.0)),
        forall|v: ContainerV| #[trigger]
            starts_with(s@.skip(i as int), ser_container(v)) ==> (r matches Some(cj) && container_vw(
                cj.0,
            ) == v && cj.1 as int == i + ser_container(v).len()),
    decreases s@.len() - i, 1int,
{
    let (name, children, p1) = match parse_container_head(s, i) {
        Some(x) => x,
        None => {
            proof {
                assert forall|v: ContainerV| !starts_with(s@.skip(i as int), ser_container(v)) by {
                    if starts_with(s@.skip(i as int), ser_container(v)) {
                        lemma_container_halves(v);
                        lemma_starts_with_concat(
                            s@.skip(i as int),
                            ser_container_head(v.name, v.children),
                            ser_container_tail(v.entries, v.parent),
                        );
                    }
                }
            }
            return None;
        },
    };
    proof {
        assert forall|v: ContainerV| #[trigger]
            starts_with(s@.skip(i as int), ser_container(v)) implies name@ == v.name
            && views_of_children(children@) == v.children && p1 as int == i + ser_container_head(
            v.name,
            v.children,
        ).len() && starts_with(
            s@.skip(p1 as int),
            ser_container_tail(v.entries, v.parent),
        ) by {
            lemma_container_halves(v);
            lemma_starts_with_concat(
                s@.skip(i as int),
                ser_container_head(v.name, v.children),
                ser_container_tail(v.entries, v.parent),
            );
            lemma_skip_skip(s@, i as int, ser_container_head(v.name, v.children).len() as int);
        }
    }
    let (entries, parent, p2) = match parse_container_tail(s, p1) {
        Some(x) => x,
        None => {
            proof {
                assert forall|v: ContainerV| !starts_with(s@.skip(i as int), ser_container(v)) by {
                    if starts_with(s@.skip(i as int), ser_container(v)) {
                        assert(starts_with(
                            s@.skip(p1 as int),
                            ser_container_tail(v.entries, v.parent),
                        ));
                    }
                }
            }
            return None;
        },
    };
    let c = Container {
        name: chars_to_string(&name),
        children,
        entries,
        parent: chars_to_string(&parent),
    };
    proof {
        lemma_container_halves(container_vw(c));
        lemma_subrange_glue(s@, i as int, p1 as int, p2 as int);
        assert(s@.subrange(i as int, p2 as int) == ser_container(container_vw(c)));
        assert forall|v: ContainerV| #[trigger]
            starts_with(s@.skip(i as int), ser_container(v)) implies container_vw(c) == v
            && p2 as int == i + ser_container(v).len() by {
            lemma_container_halves(v);
        }
    }
    Some((c, p2))
}

} // verus!

verus! {

/// Relies on core::str::from_utf8: succeeds exactly on valid UTF-8 and
/// yields its decoding.
#[verifier::external_body]
fn bytes_to_str(b: &[u8]) -> (r: Option<&str>)
    ensures
        r matches Some(t) ==> vstd::utf8::valid_utf8(b@) && t@ == vstd::utf8::decode_utf8(b@),
        r is None ==> !vstd::utf8::valid_utf8(b@),
{
    core::str::from_utf8(b).ok()
}

/// The input form of an entry, as a caller writes it: four string fields,
/// the plaintext secret under the name "password".
pub open spec fn ser_entry_input(
    u: Seq<char>,
    p: Seq<char>,
    m: Seq<char>,
    url: Seq<char>,
) -> Seq<char> {
    enc_str(lit_e_user(), u) + enc_str(lit_e_password(), p) + enc_str(lit_e_email(), m) + enc_str(
        lit_e_url(),
        url,
    ) + seq!['}']
}

pub proof fn lemma_entry_input_parts(t: Seq<char>, u: Seq<char>, p: Seq<char>, m: Seq<char>, url: Seq<char>)
    requires
        starts_with(t, ser_entry_input(u, p, m, url)),
    ensures
        ({
            let o1 = enc_str(lit_e_user(), u).len() as int;
            let o2 = o1 + enc_str(lit_e_password(), p).len();
            let o3 = o2 + enc_str(lit_e_email(), m).len();
            let o4 = o3 + enc_str(lit_e_url(), url).len();
            &&& starts_with(t, enc_str(lit_e_user(), u))
            &&& starts_with(t.skip(o1), enc_str(lit_e_password(), p))
            &&& starts_with(t.skip(o2), enc_str(lit_e_email(), m))
            &&& starts_with(t.skip(o3), enc_str(lit_e_url(), url))
            &&& starts_with(t.skip(o4), seq!['}'])
            &&& ser_entry_input(u, p, m, url).len() == o4 + 1
        }),
{
    let c1 = enc_str(lit_e_user(), u);
    let c2 = enc_str(lit_e_password(), p);
    let c3 = enc_str(lit_e_email(), m);
    let c4 = enc_str(lit_e_url(), url);
    let c5 = seq!['}'];
    assert(ser_entry_input(u, p, m, url) =~= c1 + (c2 + (c3 + (c4 + c5))));
    lemma_starts_with_concat(t, c1, c2 + (c3 + (c4 + c5)));
    lemma_starts_with_concat(t.skip(c1.len() as int), c2, c3 + (c4 + c5));
    lemma_skip_skip(t, c1.len() as int, c2.len() as int);
    lemma_starts_with_concat(t.skip(c1.len() as int + c2.len()), c3, c4 + c5);
    lemma_skip_skip(t, c1.len() as int + c2.len(), c3.len() as int);
    lemma_starts_with_concat(t.skip(c1.len() as int + c2.len() + c3.len()), c4, c5);
    lemma_skip_skip(t, c1.len() as int + c2.len() + c3.len(), c4.len() as int);
}

impl Container {
    /// The canonical serialized form of this tree.
    pub fn to_json_string(&self) -> (r: String)
        ensures
            r@ == ser_container(self@),
    {
        let mut out: Vec<char> = Vec::new();
        push_container(&mut out, self);
        proof {
            assert(out@ =~= ser_container(container_vw(*self)));
        }
        chars_to_string(&out)
    }

    /// Replace this tree with the one a serialized form describes. Exactly
    /// the canonical forms are accepted, and on failure the tree stands
    /// unchanged.
    pub fn from_json_string(&mut self, s: &str) -> (r: Result<(), StoreError>)
        ensures
            r is Ok ==> s@ == ser_container(final(self)@),
            forall|v: ContainerV| s@ == ser_container(v) ==> r is Ok && final(self)@ == v,
            r is Err ==> *final(self) == *old(self) && r == Result::<(), StoreError>::Err(
                StoreError::SerializationError,
            ),
    {
        let chars = chars_of(s);
        proof {
            assert(chars@.skip(0) =~= chars@);
            assert forall|v: ContainerV| s@ == ser_container(v) implies starts_with(
                chars@.skip(0),
                ser_container(v),
            ) by {
                assert(chars@.subrange(0, ser_container(v).len() as int) =~= chars@);
            }
        }
        match parse_container(&chars, 0) {
            Some((c, j)) => {
                if j == chars.len() {
                    proof {
                        assert(chars@.subrange(0, j as int) =~= chars@);
                    }
                    *self = c;
                    Ok(())
                } else {
                    proof {
                        assert forall|v: ContainerV| s@ != ser_container(v) by {
                            if s@ == ser_container(v) {
                                assert(starts_with(chars@.skip(0), ser_container(v)));
                            }
                        }
                    }
                    Err(StoreError::SerializationError)
                }
            },
            None => {
                proof {
                    assert forall|v: ContainerV| s@ != ser_container(v) by {
                        if s@ == ser_container(v) {
                            assert(starts_with(chars@.skip(0), ser_container(v)));
                        }
                    }
                }
                Err(StoreError::SerializationError)
            },
        }
    }

    /// Replace this tree with the one a serialized byte form describes: the
    /// bytes must be the UTF-8 encoding of a canonical form.
    pub fn from_json_arr(&mut self, arr: &[u8]) -> (r: Result<(), StoreError>)
        ensures
            r is Ok ==> vstd::utf8::valid_utf8(arr@) && vstd::utf8::decode_utf8(arr@)
                == ser_container(final(self)@),
            forall|v: ContainerV|
                (vstd::utf8::valid_utf8(arr@) && vstd::utf8::decode_utf8(arr@) == ser_container(v))
                    ==> r is Ok && final(self)@ == v,
            r is Err ==> *final(self) == *old(self) && r == Result::<(), StoreError>::Err(
                StoreError::SerializationError,
            ),
    {
        match bytes_to_str(arr) {
            Some(t) => self.from_json_string(t),
            None => Err(StoreError::SerializationError),
        }
    }
}

impl Entry {
    /// The canonical serialized form of this entry.
    pub fn to_json_string(&self) -> (r: String)
        ensures
            r@ == ser_entry(self@),
    {
        let mut out: Vec<char> = Vec::new();
        push_entry(&mut out, self);
        proof {
            assert(out@ =~= ser_entry(self@));
        }
        chars_to_string(&out)
    }

    /// Replace this entry with the one a serialized byte form describes.
    pub fn from_json_arr(&mut self, arr: &[u8]) -> (r: Result<(), StoreError>)
        ensures
            r is Ok ==> vstd::utf8::valid_utf8(arr@) && vstd::utf8::decode_utf8(arr@) == ser_entry(
                final(self)@,
            ),
            forall|v: EntryV|
                (vstd::utf8::valid_utf8(arr@) && vstd::utf8::decode_utf8(arr@) == ser_entry(v))
                    ==> r is Ok && final(self)@ == v,
            r is Err ==> *final(self) == *old(self) && r == Result::<(), StoreError>::Err(
                StoreError::SerializationError,
            ),
    {
        let t = match bytes_to_str(arr) {
            Some(t) => t,
            None => {
                return Err(StoreError::SerializationError);
            },
        };
        let chars = chars_of(t);
        proof {
            assert(chars@.skip(0) =~= chars@);
            assert forall|v: EntryV| t@ == ser_entry(v) implies starts_with(
                chars@.skip(0),
                ser_entry(v),
            ) by {
                assert(chars@.subrange(0, ser_entry(v).len() as int) =~= chars@);
            }
        }
        match parse_entry(&chars, 0) {
            Some((e, j)) => {
                if j == chars.len() {
                    proof {
                        assert(chars@.subrange(0, j as int) =~= chars@);
                    }
                    *self = e;
                    Ok(())
                } else {
                    proof {
                        assert forall|v: EntryV| t@ != ser_entry(v) by {
                            if t@ == ser_entry(v) {
                                assert(starts_with(chars@.skip(0), ser_entry(v)));
                            }
                        }
                    }
                    Err(StoreError::SerializationError)
                }
            },
            None => {
                proof {
                    assert forall|v: EntryV| t@ != ser_entry(v) by {
                        if t@ == ser_entry(v) {
                            assert(starts_with(chars@.skip(0), ser_entry(v)));
                        }
                    }
                }
                Err(StoreError::SerializationError)
            },
        }
    }

    /// Replace this entry with one a caller's input form describes: four
    /// string fields, the plaintext secret under the name "password". The
    /// secret arrives as plaintext bytes, the parent is cleared.
    #[verifier::rlimit(100)]
    #[verifier::spinoff_prover]
    pub fn from_json_string(&mut self, s: &str) -> (r: Result<(), StoreError>)
        ensures
            r is Ok ==> exists|u: Seq<char>, p: Seq<char>, m: Seq<char>, url: Seq<char>|
                s@ == ser_entry_input(u, p, m, url) && final(self)@ == (EntryV {
                    username: u,
                    pass_vec: vstd::utf8::encode_utf8(p),
                    email: m,
                    url: url,
                    parent: Seq::<char>::empty(),
                    sealed: false,
                }),
            forall|u: Seq<char>, p: Seq<char>, m: Seq<char>, url: Seq<char>|
                s@ == ser_entry_input(u, p, m, url) ==> r is Ok && final(self)@ == (EntryV {
                    username: u,
                    pass_vec: vstd::utf8::encode_utf8(p),
                    email: m,
                    url: url,
                    parent: Seq::<char>::empty(),
                    sealed: false,
                }),
            r is Err ==> *final(self) == *old(self) && r == Result::<(), StoreError>::Err(
                StoreError::SerializationError,
            ),
    {
        let chars = chars_of(s);
        proof {
            assert(chars@.skip(0) =~= chars@);
            assert forall|u: Seq<char>, p: Seq<char>, m: Seq<char>, url: Seq<char>|
                s@ == ser_entry_input(u, p, m, url) implies starts_with(
                chars@.skip(0),
                ser_entry_input(u, p, m, url),
            ) by {
                assert(chars@.subrange(0, ser_entry_input(u, p, m, url).len() as int) =~= chars@);
            }
        }
        let l_user = lit_e_user_vec();
        let ru = parse_lit_string(&chars, 0, &l_user);
        let (u, p1) = match ru {
            Some(x) => x,
            None => {
                proof {
                    assert forall|u2: Seq<char>, p: Seq<char>, m2: Seq<char>, url2: Seq<char>|
                        s@ != ser_entry_input(u2, p, m2, url2) by {
                        if s@ == ser_entry_input(u2, p, m2, url2) {
                            lemma_entry_input_parts(chars@.skip(0), u2, p, m2, url2);
                        }
                    }
                }
                return Err(StoreError::SerializationError);
            },
        };
        proof {
            assert forall|u2: Seq<char>, p: Seq<char>, m: Seq<char>, url: Seq<char>|
                s@ == ser_entry_input(u2, p, m, url) implies u@ == u2 && p1 as int == enc_str(
                lit_e_user(),
                u2,
            ).len() by {
                lemma_entry_input_parts(chars@.skip(0), u2, p, m, url);
            }
        }
        let l_pw = lit_e_password_vec();
        let rp = parse_lit_string(&chars, p1, &l_pw);
        let (pw, p2) = match rp {
            Some(x) => x,
            None => {
                proof {
                    assert forall|u2: Seq<char>, p: Seq<char>, m2: Seq<char>, url2: Seq<char>|
                        s@ != ser_entry_input(u2, p, m2, url2) by {
                        if s@ == ser_entry_input(u2, p, m2, url2) {
                            lemma_entry_input_parts(chars@.skip(0), u2, p, m2, url2);
                            lemma_skip_skip(chars@, 0, enc_str(lit_e_user(), u2).len() as int);
                            assert(chars@.skip(0) =~= chars@);
                        }
                    }
                }
                return Err(StoreError::SerializationError);
            },
        };
        proof {
            assert forall|u2: Seq<char>, p: Seq<char>, m: Seq<char>, url: Seq<char>|
                s@ == ser_entry_input(u2, p, m, url) implies pw@ == p && p2 as int == p1 + enc_str(
                lit_e_password(),
                p,
            ).len() by {
                lemma_entry_input_parts(chars@.skip(0), u2, p, m, url);
                lemma_skip_skip(chars@, 0, enc_str(lit_e_user(), u2).len() as int);
                assert(chars@.skip(0) =~= chars@);
            }
        }
        let l_email = lit_e_email_vec();
        let rm = parse_lit_string(&chars, p2, &l_email);
        let (m, p3) = match rm {
            Some(x) => x,
            None => {
                proof {
                    assert forall|u2: Seq<char>, p: Seq<char>, m2: Seq<char>, url2: Seq<char>|
                        s@ != ser_entry_input(u2, p, m2, url2) by {
                        if s@ == ser_entry_input(u2, p, m2, url2) {
                            lemma_entry_input_parts(chars@.skip(0), u2, p, m2, url2);
                            lemma_skip_skip(
                                chars@,
                                0,
                                enc_str(lit_e_user(), u2).len() as int + enc_str(
                                    lit_e_password(),
                                    p,
                                ).len(),
                            );
                            assert(chars@.skip(0) =~= chars@);
                        }
                    }
                }
                return Err(StoreError::SerializationError);
            },
        };
        proof {
            assert forall|u2: Seq<char>, p: Seq<char>, m2: Seq<char>, url: Seq<char>|
                s@ == ser_entry_input(u2, p, m2, url) implies m@ == m2 && p3 as int == p2 + enc_str(
                lit_e_email(),
                m2,
            ).len() by {
                lemma_entry_input_parts(chars@.skip(0), u2, p, m2, url);
                lemma_skip_skip(
                    chars@,
                    0,
                    enc_str(lit_e_user(), u2).len() as int + enc_str(lit_e_password(), p).len(),
                );
                assert(chars@.skip(0) =~= chars@);
            }
        }
        let l_url = lit_e_url_vec();
        let rl = parse_lit_string(&chars, p3, &l_url);
        let (url, p4) = match rl {
            Some(x) => x,
            None => {
                proof {
                    assert forall|u2: Seq<char>, p: Seq<char>, m2: Seq<char>, url2: Seq<char>|
                        s@ != ser_entry_input(u2, p, m2, url2) by {
                        if s@ == ser_entry_input(u2, p, m2, url2) {
                            lemma_entry_input_parts(chars@.skip(0), u2, p, m2, url2);
                            lemma_skip_skip(
                                chars@,
                                0,
                                enc_str(lit_e_user(), u2).len() as int + enc_str(
                                    lit_e_password(),
                                    p,
                                ).len() + enc_str(lit_e_email(), m2).len(),
                            );
                            assert(chars@.skip(0) =~= chars@);
                        }
                    }
                }
                return Err(StoreError::SerializationError);
            },
        };
        proof {
            assert forall|u2: Seq<char>, p: Seq<char>, m2: Seq<char>, url2: Seq<char>|
                s@ == ser_entry_input(u2, p, m2, url2) implies url@ == url2 && p4 as int == p3
                + enc_str(lit_e_url(), url2).len() by {
                lemma_entry_input_parts(chars@.skip(0), u2, p, m2, url2);
                lemma_skip_skip(
                    chars@,
                    0,
                    enc_str(lit_e_user(), u2).len() as int + enc_str(lit_e_password(), p).len()
                        + enc_str(lit_e_email(), m2).len(),
                );
                assert(chars@.skip(0) =~= chars@);
            }
        }
        if !(chars.len() - p4 == 1 && chars[p4] == '}') {
            proof {
                assert forall|u2: Seq<char>, p: Seq<char>, m2: Seq<char>, url2: Seq<char>|
                    s@ != ser_entry_input(u2, p, m2, url2) by {
                    if s@ == ser_entry_input(u2, p, m2, url2) {
                        lemma_entry_input_parts(chars@.skip(0), u2, p, m2, url2);
                        let o4 = enc_str(lit_e_user(), u2).len() as int + enc_str(
                            lit_e_password(),
                            p,
                        ).len() + enc_str(lit_e_email(), m2).len() + enc_str(
                            lit_e_url(),
                            url2,
                        ).len();
                        lemma_skip_skip(chars@, 0, o4);
                        assert(chars@.skip(0) =~= chars@);
                        lemma_starts_with_index(chars@.skip(o4), seq!['}'], 0);
                        assert(chars@.skip(o4)[0] == chars@[o4]);
                        assert(chars@.len() == ser_entry_input(u2, p, m2, url2).len());
                    }
                }
            }
            return Err(StoreError::SerializationError);
        }
        let pw_string = chars_to_string(&pw);
        let pass_vec = pw_string.as_str().as_bytes_vec();
        let e = Entry {
            username: chars_to_string(&u),
            pass_vec,
            email: chars_to_string(&m),
            url: chars_to_string(&url),
            parent: String::new(),
            sealed: false,
        };
        proof {
            assert(e@.parent =~= Seq::<char>::empty());
            lemma_subrange_glue(chars@, 0, p1 as int, p2 as int);
            lemma_subrange_glue(chars@, 0, p2 as int, p3 as int);
            lemma_subrange_glue(chars@, 0, p3 as int, p4 as int);
            lemma_subrange_glue(chars@, 0, p4 as int, p4 + 1);
            assert(chars@.subrange(p4 as int, p4 + 1) =~= seq!['}']);
            assert(chars@.subrange(0, chars@.len() as int) =~= chars@);
            assert(s@ == ser_entry_input(u@, pw@, m@, url@)) by {
                assert(chars@.subrange(0, p4 + 1) =~= ser_entry_input(u@, pw@, m@, url@));
            }
            assert(e@ == (EntryV {
                username: u@,
                pass_vec: vstd::utf8::encode_utf8(pw@),
                email: m@,
                url: url@,
                parent: Seq::<char>::empty(),
                sealed: false,
            }));
        }
        *self = e;
        Ok(())
    }
}

} // verus!

verus! {

/// The UTF-8 encoding of a character sequence takes between one and four
/// bytes per character.
pub proof fn lemma_encode_utf8_len(s: Seq<char>)
    ensures
        s.len() <= vstd::utf8::encode_utf8(s).len() <= 4 * s.len(),
    decreases s.len(),
{
    if s.len() > 0 {
        lemma_encode_utf8_len(s.drop_first());
        assert(1 <= vstd::utf8::encode_scalar(s[0] as u32).len() <= 4);
    }
}

/// An escaped character takes at most six characters.
pub proof fn lemma_esc_len(s: Seq<char>)
    ensures
        esc(s).len() <= 6 * s.len(),
    decreases s.len(),
{
    if s.len() > 0 {
        lemma_esc_len(s.drop_first());
        assert(esc_char(s[0]).len() <= 6);
    }
}

pub proof fn lemma_ser_string_len(s: Seq<char>)
    ensures
        ser_string(s).len() <= 2 + 6 * s.len(),
{
    lemma_esc_len(s);
}

pub proof fn lemma_ser_bytes_items_len(b: Seq<u8>)
    ensures
        ser_bytes_items(b).len() <= 4 * b.len(),
    decreases b.len(),
{
    if b.len() > 0 {
        lemma_ser_bytes_items_len(b.drop_first());
        assert(dec_u8(b[0]).len() <= 3);
    }
}

pub proof fn lemma_ser_bytes_len(b: Seq<u8>)
    ensures
        ser_bytes(b).len() <= 2 + 4 * b.len(),
{
    lemma_ser_bytes_items_len(b);
}

/// A bound on a serialized entry: the field labels and punctuation, six
/// characters per metadata character, four per secret byte.
pub open spec fn ser_entry_raw_bound(e: EntryV) -> int {
    76 + 6 * (e.username.len() + e.email.len() + e.url.len() + e.parent.len()) as int + 4
        * e.pass_vec.len() as int
}

pub proof fn lemma_ser_entry_len(e: EntryV)
    ensures
        ser_entry(e).len() <= ser_entry_raw_bound(e),
{
    reveal(ser_entry);
    lemma_ser_string_len(e.username);
    lemma_ser_string_len(e.email);
    lemma_ser_string_len(e.url);
    lemma_ser_string_len(e.parent);
    lemma_ser_bytes_len(e.pass_vec);
    assert(ser_bool(e.sealed).len() <= 5);
}

} // verus!
