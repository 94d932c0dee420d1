//! Binary framing of the cluster messages.
//!
//! Integers are 8 bytes little-endian; a string is its UTF-8 length as an
//! integer followed by its bytes; an optional value is a tag byte (0 absent,
//! 1 present) followed by the value; a flag is one byte 0 or 1; a list is its
//! length followed by its items. Decoding reads the fields in order and must
//! end exactly at the end of the input.
use vstd::prelude::*;
use vstd::bytes::*;
use vstd::slice::*;
use vstd::string::*;
use vstd::utf8::*;
use crate::horizontal::{BroadcastMessage, ChannelCount, MemberInfo, RequestBody, RequestType, ResponseBody};

verus! {

broadcast use vstd::utf8::encode_utf8_decode_utf8, vstd::utf8::encode_utf8_valid_utf8;

pub open spec fn enc_u64(x: u64) -> Seq<u8> {
    spec_u64_to_le_bytes(x)
}

pub open spec fn enc_str(s: Seq<char>) -> Seq<u8> {
    enc_u64(encode_utf8(s).len() as u64) + encode_utf8(s)
}

pub open spec fn enc_bool(b: bool) -> Seq<u8> {
    seq![if b { 1u8 } else { 0u8 }]
}

pub open spec fn enc_opt_str(o: Option<Seq<char>>) -> Seq<u8> {
    match o {
        None => seq![0u8],
        Some(s) => seq![1u8] + enc_str(s),
    }
}

pub open spec fn enc_opt_u64(o: Option<u64>) -> Seq<u8> {
    match o {
        None => seq![0u8],
        Some(x) => seq![1u8] + enc_u64(x),
    }
}

/// A string whose UTF-8 length fits the length prefix.
pub open spec fn fits(s: Seq<char>) -> bool {
    encode_utf8(s).len() <= u64::MAX
}

pub open spec fn opt_fits(o: Option<Seq<char>>) -> bool {
    match o {
        None => true,
        Some(s) => fits(s),
    }
}

pub open spec fn parse_u64(b: Seq<u8>, pos: int) -> Option<(u64, int)> {
    if 0 <= pos && pos + 8 <= b.len() {
        Some((spec_u64_from_le_bytes(b.subrange(pos, pos + 8)), pos + 8))
    } else {
        None
    }
}

pub open spec fn parse_str(b: Seq<u8>, pos: int) -> Option<(Seq<char>, int)> {
    match parse_u64(b, pos) {
        None => None,
        Some((n, p)) => if p + n <= b.len() && valid_utf8(b.subrange(p, p + n)) {
            Some((decode_utf8(b.subrange(p, p + n)), p + n))
        } else {
            None
        },
    }
}

pub open spec fn parse_bool(b: Seq<u8>, pos: int) -> Option<(bool, int)> {
    if 0 <= pos < b.len() && b[pos] == 0 {
        Some((false, pos + 1))
    } else if 0 <= pos < b.len() && b[pos] == 1 {
        Some((true, pos + 1))
    } else {
        None
    }
}

pub open spec fn parse_opt_str(b: Seq<u8>, pos: int) -> Option<(Option<Seq<char>>, int)> {
    match parse_bool(b, pos) {
        None => None,
        Some((false, p)) => Some((None, p)),
        Some((true, p)) => match parse_str(b, p) {
            None => None,
            Some((s, q)) => Some((Some(s), q)),
        },
    }
}

pub open spec fn parse_opt_u64(b: Seq<u8>, pos: int) -> Option<(Option<u64>, int)> {
    match parse_bool(b, pos) {
        None => None,
        Some((false, p)) => Some((None, p)),
        Some((true, p)) => match parse_u64(b, p) {
            None => None,
            Some((x, q)) => Some((Some(x), q)),
        },
    }
}

/// `e` stands in `b` at `pos`.
pub open spec fn at(b: Seq<u8>, pos: int, e: Seq<u8>) -> bool {
    0 <= pos && pos + e.len() <= b.len() && b.subrange(pos, pos + e.len()) == e
}

proof fn lemma_at_split(b: Seq<u8>, pos: int, e1: Seq<u8>, e2: Seq<u8>)
    requires
        at(b, pos, e1 + e2),
    ensures
        at(b, pos, e1),
        at(b, pos + e1.len(), e2),
{
    let whole = b.subrange(pos, pos + (e1 + e2).len());
    assert(whole == e1 + e2);
    assert(b.subrange(pos, pos + e1.len()) =~= whole.subrange(0, e1.len() as int));
    assert(whole.subrange(0, e1.len() as int) =~= e1);
    assert(b.subrange(pos + e1.len(), pos + e1.len() + e2.len()) =~= whole.subrange(e1.len() as int, (e1.len() + e2.len()) as int));
    assert(whole.subrange(e1.len() as int, (e1.len() + e2.len()) as int) =~= e2);
}

proof fn lemma_parse_u64(b: Seq<u8>, pos: int, x: u64)
    requires
        at(b, pos, enc_u64(x)),
    ensures
        enc_u64(x).len() == 8,
        parse_u64(b, pos) == Some((x, pos + 8)),
{
    lemma_auto_spec_u64_to_from_le_bytes();
}

proof fn lemma_parse_str(b: Seq<u8>, pos: int, s: Seq<char>)
    requires
        fits(s),
        at(b, pos, enc_str(s)),
    ensures
        parse_str(b, pos) == Some((s, pos + enc_str(s).len())),
{
    let e = encode_utf8(s);
    lemma_at_split(b, pos, enc_u64(e.len() as u64), e);
    lemma_parse_u64(b, pos, e.len() as u64);
    assert(b.subrange(pos + 8, pos + 8 + e.len()) == e);
}

proof fn lemma_parse_bool(b: Seq<u8>, pos: int, x: bool)
    requires
        at(b, pos, enc_bool(x)),
    ensures
        parse_bool(b, pos) == Some((x, pos + 1)),
{
    assert(b[pos] == b.subrange(pos, pos + 1)[0]);
}

proof fn lemma_parse_opt_str(b: Seq<u8>, pos: int, o: Option<Seq<char>>)
    requires
        opt_fits(o),
        at(b, pos, enc_opt_str(o)),
    ensures
        parse_opt_str(b, pos) == Some((o, pos + enc_opt_str(o).len())),
{
    match o {
        None => {
            lemma_parse_bool(b, pos, false);
        },
        Some(s) => {
            lemma_at_split(b, pos, seq![1u8], enc_str(s));
            assert(seq![1u8] == enc_bool(true));
            lemma_parse_bool(b, pos, true);
            lemma_parse_str(b, pos + 1, s);
        },
    }
}

proof fn lemma_parse_opt_u64(b: Seq<u8>, pos: int, o: Option<u64>)
    requires
        at(b, pos, enc_opt_u64(o)),
    ensures
        parse_opt_u64(b, pos) == Some((o, pos + enc_opt_u64(o).len())),
{
    match o {
        None => {
            lemma_parse_bool(b, pos, false);
        },
        Some(x) => {
            lemma_at_split(b, pos, seq![1u8], enc_u64(x));
            assert(seq![1u8] == enc_bool(true));
            lemma_parse_bool(b, pos, true);
            lemma_parse_u64(b, pos + 1, x);
        },
    }
}

/// Relies on `core::str::from_utf8`: it accepts exactly the valid UTF-8
/// sequences, and the string it gives holds the characters they encode.
#[verifier::external_body]
fn utf8_to_string(b: &[u8]) -> (r: Option<String>)
    ensures
        r is Some == valid_utf8(b@),
        r is Some ==> r->Some_0@ == decode_utf8(b@),
{
    core::str::from_utf8(b).ok().map(|s| s.to_string())
}

fn put_bytes(out: &mut Vec<u8>, b: &[u8])
    ensures
        final(out)@ == old(out)@ + b@,
{
    let mut i: usize = 0;
    while i < b.len()
        invariant
            i <= b@.len(),
            out@ == old(out)@ + b@.subrange(0, i as int),
        decreases b@.len() - i,
    {
        out.push(b[i]);
        proof {
            assert(b@.subrange(0, i + 1) =~= b@.subrange(0, i as int).push(b@[i as int]));
        }
        i = i + 1;
    }
    assert(b@.subrange(0, i as int) =~= b@);
}

pub fn put_u64(out: &mut Vec<u8>, x: u64)
    ensures
        final(out)@ == old(out)@ + enc_u64(x),
{
    let bs = u64_to_le_bytes(x);
    put_bytes(out, bs.as_slice());
}

pub fn put_str(out: &mut Vec<u8>, s: &str)
    ensures
        final(out)@ == old(out)@ + enc_str(s@),
{
    let bs = s.as_bytes();
    put_u64(out, bs.len() as u64);
    put_bytes(out, bs);
    assert(old(out)@ + enc_u64(bs@.len() as u64) + bs@ =~= old(out)@ + enc_str(s@));
}

pub fn put_bool(out: &mut Vec<u8>, x: bool)
    ensures
        final(out)@ == old(out)@ + enc_bool(x),
{
    out.push(if x { 1u8 } else { 0u8 });
    assert(out@ =~= old(out)@ + enc_bool(x));
}

pub fn put_opt_str(out: &mut Vec<u8>, o: &Option<String>)
    ensures
        final(out)@ == old(out)@ + enc_opt_str(match o { Some(s) => Some(s@), None => None::<Seq<char>> }),
{
    match o {
        None => {
            out.push(0u8);
            assert(out@ =~= old(out)@ + seq![0u8]);
        },
        Some(s) => {
            out.push(1u8);
            let ghost mid = out@;
            put_str(out, s.as_str());
            assert(out@ =~= old(out)@ + (seq![1u8] + enc_str(s@)));
        },
    }
}

pub fn put_opt_u64(out: &mut Vec<u8>, o: Option<u64>)
    ensures
        final(out)@ == old(out)@ + enc_opt_u64(o),
{
    match o {
        None => {
            out.push(0u8);
            assert(out@ =~= old(out)@ + seq![0u8]);
        },
        Some(x) => {
            out.push(1u8);
            put_u64(out, x);
            assert(out@ =~= old(out)@ + (seq![1u8] + enc_u64(x)));
        },
    }
}

pub fn get_u64(b: &[u8], pos: usize) -> (r: Option<(u64, usize)>)
    ensures
        match parse_u64(b@, pos as int) {
            None => r is None,
            Some((x, p)) => r is Some && r->Some_0.0 == x && r->Some_0.1 as int == p,
        },
{
    if pos <= b.len() && b.len() - pos >= 8 {
        let s = slice_subrange(b, pos, pos + 8);
        Some((u64_from_le_bytes(s), pos + 8))
    } else {
        None
    }
}

pub fn get_str(b: &[u8], pos: usize) -> (r: Option<(String, usize)>)
    ensures
        match parse_str(b@, pos as int) {
            None => r is None,
            Some((s, p)) => r is Some && r->Some_0.0@ == s && r->Some_0.1 as int == p,
        },
{
    let (n, p) = get_u64(b, pos)?;
    if n > (b.len() - p) as u64 {
        return None;
    }
    let end = p + n as usize;
    let sub = slice_subrange(b, p, end);
    let s = utf8_to_string(sub)?;
    Some((s, end))
}

pub fn get_bool(b: &[u8], pos: usize) -> (r: Option<(bool, usize)>)
    ensures
        match parse_bool(b@, pos as int) {
            None => r is None,
            Some((x, p)) => r is Some && r->Some_0.0 == x && r->Some_0.1 as int == p,
        },
{
    if pos < b.len() && b[pos] == 0 {
        Some((false, pos + 1))
    } else if pos < b.len() && b[pos] == 1 {
        Some((true, pos + 1))
    } else {
        None
    }
}

pub fn get_opt_str(b: &[u8], pos: usize) -> (r: Option<(Option<String>, usize)>)
    ensures
        match parse_opt_str(b@, pos as int) {
            None => r is None,
            Some((o, p)) => r is Some && r->Some_0.1 as int == p && match (o, r->Some_0.0) {
                (None, None) => true,
                (Some(s), Some(t)) => t@ == s,
                _ => false,
            },
        },
{
    match get_bool(b, pos) {
        None => None,
        Some((false, p)) => Some((None, p)),
        Some((true, p)) => match get_str(b, p) {
            None => None,
            Some((s, q)) => Some((Some(s), q)),
        },
    }
}

pub fn get_opt_u64(b: &[u8], pos: usize) -> (r: Option<(Option<u64>, usize)>)
    ensures
        match parse_opt_u64(b@, pos as int) {
            None => r is None,
            Some((o, p)) => r is Some && r->Some_0.0 == o && r->Some_0.1 as int == p,
        },
{
    match get_bool(b, pos) {
        None => None,
        Some((false, p)) => Some((None, p)),
        Some((true, p)) => match get_u64(b, p) {
            None => None,
            Some((x, q)) => Some((Some(x), q)),
        },
    }
}

// ---- lists ----

pub open spec fn items_strs(v: Seq<Seq<char>>) -> Seq<u8>
    decreases v.len(),
{
    if v.len() == 0 { Seq::empty() } else { items_strs(v.drop_last()) + enc_str(v.last()) }
}

pub open spec fn enc_strs(v: Seq<Seq<char>>) -> Seq<u8> {
    enc_u64(v.len() as u64) + items_strs(v)
}

pub open spec fn items_pairs(v: Seq<(Seq<char>, Seq<char>)>) -> Seq<u8>
    decreases v.len(),
{
    if v.len() == 0 { Seq::empty() } else { items_pairs(v.drop_last()) + enc_str(v.last().0) + enc_str(v.last().1) }
}

pub open spec fn enc_pairs(v: Seq<(Seq<char>, Seq<char>)>) -> Seq<u8> {
    enc_u64(v.len() as u64) + items_pairs(v)
}

pub open spec fn items_counts(v: Seq<(Seq<char>, u64)>) -> Seq<u8>
    decreases v.len(),
{
    if v.len() == 0 { Seq::empty() } else { items_counts(v.drop_last()) + enc_str(v.last().0) + enc_u64(v.last().1) }
}

pub open spec fn enc_counts(v: Seq<(Seq<char>, u64)>) -> Seq<u8> {
    enc_u64(v.len() as u64) + items_counts(v)
}

pub open spec fn parse_items_strs(b: Seq<u8>, pos: int, n: nat) -> Option<(Seq<Seq<char>>, int)>
    decreases n,
{
    if n == 0 {
        Some((Seq::empty(), pos))
    } else {
        match parse_items_strs(b, pos, (n - 1) as nat) {
            None => None,
            Some((v, p)) => match parse_str(b, p) {
                None => None,
                Some((x, q)) => Some((v.push(x), q)),
            },
        }
    }
}

pub open spec fn parse_strs(b: Seq<u8>, pos: int) -> Option<(Seq<Seq<char>>, int)> {
    match parse_u64(b, pos) {
        None => None,
        Some((n, p)) => parse_items_strs(b, p, n as nat),
    }
}

pub open spec fn parse_items_pairs(b: Seq<u8>, pos: int, n: nat) -> Option<(Seq<(Seq<char>, Seq<char>)>, int)>
    decreases n,
{
    if n == 0 {
        Some((Seq::empty(), pos))
    } else {
        match parse_items_pairs(b, pos, (n - 1) as nat) {
            None => None,
            Some((v, p)) => match parse_str(b, p) {
                None => None,
                Some((x, q)) => match parse_str(b, q) {
                    None => None,
                    Some((y, t)) => Some((v.push((x, y)), t)),
                },
            },
        }
    }
}

pub open spec fn parse_pairs(b: Seq<u8>, pos: int) -> Option<(Seq<(Seq<char>, Seq<char>)>, int)> {
    match parse_u64(b, pos) {
        None => None,
        Some((n, p)) => parse_items_pairs(b, p, n as nat),
    }
}

pub open spec fn parse_items_counts(b: Seq<u8>, pos: int, n: nat) -> Option<(Seq<(Seq<char>, u64)>, int)>
    decreases n,
{
    if n == 0 {
        Some((Seq::empty(), pos))
    } else {
        match parse_items_counts(b, pos, (n - 1) as nat) {
            None => None,
            Some((v, p)) => match parse_str(b, p) {
                None => None,
                Some((x, q)) => match parse_u64(b, q) {
                    None => None,
                    Some((y, t)) => Some((v.push((x, y)), t)),
                },
            },
        }
    }
}

pub open spec fn parse_counts(b: Seq<u8>, pos: int) -> Option<(Seq<(Seq<char>, u64)>, int)> {
    match parse_u64(b, pos) {
        None => None,
        Some((n, p)) => parse_items_counts(b, p, n as nat),
    }
}

pub open spec fn all_fit(v: Seq<Seq<char>>) -> bool {
    forall|i: int| 0 <= i < v.len() ==> fits(#[trigger] v[i])
}

pub open spec fn pairs_fit(v: Seq<(Seq<char>, Seq<char>)>) -> bool {
    forall|i: int| 0 <= i < v.len() ==> fits((#[trigger] v[i]).0) && fits(v[i].1)
}

pub open spec fn counts_fit(v: Seq<(Seq<char>, u64)>) -> bool {
    forall|i: int| 0 <= i < v.len() ==> fits((#[trigger] v[i]).0)
}

proof fn lemma_parse_items_strs(b: Seq<u8>, pos: int, v: Seq<Seq<char>>)
    requires
        all_fit(v),
        at(b, pos, items_strs(v)),
    ensures
        parse_items_strs(b, pos, v.len()) == Some((v, pos + items_strs(v).len())),
    decreases v.len(),
{
    if v.len() > 0 {
        let w = v.drop_last();
        lemma_at_split(b, pos, items_strs(w), enc_str(v.last()));
        assert(all_fit(w)) by {
            assert forall|i: int| 0 <= i < w.len() implies fits(#[trigger] w[i]) by {
                assert(w[i] == v[i]);
            }
        }
        lemma_parse_items_strs(b, pos, w);
        assert(fits(v[v.len() - 1]));
        lemma_parse_str(b, pos + items_strs(w).len(), v.last());
        assert(w.push(v.last()) =~= v);
    }
}

proof fn lemma_parse_strs(b: Seq<u8>, pos: int, v: Seq<Seq<char>>)
    requires
        all_fit(v),
        v.len() <= u64::MAX,
        at(b, pos, enc_strs(v)),
    ensures
        parse_strs(b, pos) == Some((v, pos + enc_strs(v).len())),
{
    lemma_at_split(b, pos, enc_u64(v.len() as u64), items_strs(v));
    lemma_parse_u64(b, pos, v.len() as u64);
    lemma_parse_items_strs(b, pos + 8, v);
}

proof fn lemma_parse_items_pairs(b: Seq<u8>, pos: int, v: Seq<(Seq<char>, Seq<char>)>)
    requires
        pairs_fit(v),
        at(b, pos, items_pairs(v)),
    ensures
        parse_items_pairs(b, pos, v.len()) == Some((v, pos + items_pairs(v).len())),
    decreases v.len(),
{
    if v.len() > 0 {
        let w = v.drop_last();
        let x = v.last();
        lemma_at_split(b, pos, items_pairs(w) + enc_str(x.0), enc_str(x.1));
        lemma_at_split(b, pos, items_pairs(w), enc_str(x.0));
        assert(pairs_fit(w)) by {
            assert forall|i: int| 0 <= i < w.len() implies fits((#[trigger] w[i]).0) && fits(w[i].1) by {
                assert(w[i] == v[i]);
            }
        }
        lemma_parse_items_pairs(b, pos, w);
        assert(fits(v[v.len() - 1].0) && fits(v[v.len() - 1].1));
        lemma_parse_str(b, pos + items_pairs(w).len(), x.0);
        lemma_parse_str(b, pos + items_pairs(w).len() + enc_str(x.0).len(), x.1);
        assert(w.push(x) =~= v);
    }
}

proof fn lemma_parse_pairs(b: Seq<u8>, pos: int, v: Seq<(Seq<char>, Seq<char>)>)
    requires
        pairs_fit(v),
        v.len() <= u64::MAX,
        at(b, pos, enc_pairs(v)),
    ensures
        parse_pairs(b, pos) == Some((v, pos + enc_pairs(v).len())),
{
    lemma_at_split(b, pos, enc_u64(v.len() as u64), items_pairs(v));
    lemma_parse_u64(b, pos, v.len() as u64);
    lemma_parse_items_pairs(b, pos + 8, v);
}

proof fn lemma_parse_items_counts(b: Seq<u8>, pos: int, v: Seq<(Seq<char>, u64)>)
    requires
        counts_fit(v),
        at(b, pos, items_counts(v)),
    ensures
        parse_items_counts(b, pos, v.len()) == Some((v, pos + items_counts(v).len())),
    decreases v.len(),
{
    if v.len() > 0 {
        let w = v.drop_last();
        let x = v.last();
        lemma_at_split(b, pos, items_counts(w) + enc_str(x.0), enc_u64(x.1));
        lemma_at_split(b, pos, items_counts(w), enc_str(x.0));
        assert(counts_fit(w)) by {
            assert forall|i: int| 0 <= i < w.len() implies fits((#[trigger] w[i]).0) by {
                assert(w[i] == v[i]);
            }
        }
        lemma_parse_items_counts(b, pos, w);
        assert(fits(v[v.len() - 1].0));
        lemma_parse_str(b, pos + items_counts(w).len(), x.0);
        lemma_parse_u64(b, pos + items_counts(w).len() + enc_str(x.0).len(), x.1);
        assert(w.push(x) =~= v);
    }
}

proof fn lemma_parse_counts(b: Seq<u8>, pos: int, v: Seq<(Seq<char>, u64)>)
    requires
        counts_fit(v),
        v.len() <= u64::MAX,
        at(b, pos, enc_counts(v)),
    ensures
        parse_counts(b, pos) == Some((v, pos + enc_counts(v).len())),
{
    lemma_at_split(b, pos, enc_u64(v.len() as u64), items_counts(v));
    lemma_parse_u64(b, pos, v.len() as u64);
    lemma_parse_items_counts(b, pos + 8, v);
}

pub open spec fn str_views(v: Seq<String>) -> Seq<Seq<char>> {
    v.map_values(|s: String| s@)
}

pub fn put_strs(out: &mut Vec<u8>, v: &Vec<String>)
    ensures
        final(out)@ == old(out)@ + enc_strs(str_views(v@)),
{
    put_u64(out, v.len() as u64);
    let ghost head = out@;
    let mut i: usize = 0;
    while i < v.len()
        invariant
            i <= v@.len(),
            out@ == head + items_strs(str_views(v@.take(i as int))),
        decreases v@.len() - i,
    {
        put_str(out, v[i].as_str());
        proof {
            let t1 = str_views(v@.take(i + 1));
            assert(t1.drop_last() =~= str_views(v@.take(i as int)));
            assert(t1.last() == v@[i as int]@);
        }
        i = i + 1;
    }
    assert(v@.take(i as int) =~= v@);
}

pub fn get_strs(b: &[u8], pos: usize) -> (r: Option<(Vec<String>, usize)>)
    ensures
        match parse_strs(b@, pos as int) {
            None => r is None,
            Some((v, p)) => r is Some && str_views(r->Some_0.0@) == v && r->Some_0.1 as int == p,
        },
{
    let (n, p0) = match get_u64(b, pos) {
        None => {
            return None;
        },
        Some(x) => x,
    };
    let mut out: Vec<String> = Vec::new();
    let mut p: usize = p0;
    let mut i: u64 = 0;
    while i < n
        invariant
            i <= n,
            parse_u64(b@, pos as int) == Some((n, p0 as int)),
            parse_items_strs(b@, p0 as int, i as nat) == Some((str_views(out@), p as int)),
        decreases n - i,
    {
        match get_str(b, p) {
            None => {
                proof {
                    assert(parse_items_strs(b@, p0 as int, (i + 1) as nat) is None);
                    lemma_parse_items_strs_none(b@, p0 as int, (i + 1) as nat, n as nat);
                }
                return None;
            },
            Some((x, q)) => {
                let ghost before = out@;
                out.push(x);
                proof {
                    assert(str_views(out@) =~= str_views(before).push(x@));
                }
                p = q;
            },
        }
        i = i + 1;
    }
    Some((out, p))
}

proof fn lemma_parse_items_strs_none(b: Seq<u8>, pos: int, k: nat, n: nat)
    requires
        parse_items_strs(b, pos, k) is None,
        k <= n,
    ensures
        parse_items_strs(b, pos, n) is None,
    decreases n - k,
{
    if k < n {
        lemma_parse_items_strs_none(b, pos, k + 1, n);
    }
}

proof fn lemma_parse_items_pairs_none(b: Seq<u8>, pos: int, k: nat, n: nat)
    requires
        parse_items_pairs(b, pos, k) is None,
        k <= n,
    ensures
        parse_items_pairs(b, pos, n) is None,
    decreases n - k,
{
    if k < n {
        lemma_parse_items_pairs_none(b, pos, k + 1, n);
    }
}

proof fn lemma_parse_items_counts_none(b: Seq<u8>, pos: int, k: nat, n: nat)
    requires
        parse_items_counts(b, pos, k) is None,
        k <= n,
    ensures
        parse_items_counts(b, pos, n) is None,
    decreases n - k,
{
    if k < n {
        lemma_parse_items_counts_none(b, pos, k + 1, n);
    }
}

pub open spec fn member_views(v: Seq<MemberInfo>) -> Seq<(Seq<char>, Seq<char>)> {
    v.map_values(|m: MemberInfo| (m.user_id@, m.user_info@))
}

pub fn put_members(out: &mut Vec<u8>, v: &Vec<MemberInfo>)
    ensures
        final(out)@ == old(out)@ + enc_pairs(member_views(v@)),
{
    put_u64(out, v.len() as u64);
    let ghost head = out@;
    let mut i: usize = 0;
    while i < v.len()
        invariant
            i <= v@.len(),
            out@ == head + items_pairs(member_views(v@.take(i as int))),
        decreases v@.len() - i,
    {
        put_str(out, v[i].user_id.as_str());
        put_str(out, v[i].user_info.as_str());
        proof {
            let t1 = member_views(v@.take(i + 1));
            assert(t1.drop_last() =~= member_views(v@.take(i as int)));
            assert(t1.last() == (v@[i as int].user_id@, v@[i as int].user_info@));
        }
        i = i + 1;
    }
    assert(v@.take(i as int) =~= v@);
}

pub fn get_members(b: &[u8], pos: usize) -> (r: Option<(Vec<MemberInfo>, usize)>)
    ensures
        match parse_pairs(b@, pos as int) {
            None => r is None,
            Some((v, p)) => r is Some && member_views(r->Some_0.0@) == v && r->Some_0.1 as int == p,
        },
{
    let (n, p0) = match get_u64(b, pos) {
        None => {
            return None;
        },
        Some(x) => x,
    };
    let mut out: Vec<MemberInfo> = Vec::new();
    let mut p: usize = p0;
    let mut i: u64 = 0;
    while i < n
        invariant
            i <= n,
            parse_u64(b@, pos as int) == Some((n, p0 as int)),
            parse_items_pairs(b@, p0 as int, i as nat) == Some((member_views(out@), p as int)),
        decreases n - i,
    {
        let step = match get_str(b, p) {
            None => None,
            Some((x, q)) => match get_str(b, q) {
                None => None,
                Some((y, t)) => Some((x, y, t)),
            },
        };
        match step {
            None => {
                proof {
                    assert(parse_items_pairs(b@, p0 as int, (i + 1) as nat) is None);
                    lemma_parse_items_pairs_none(b@, p0 as int, (i + 1) as nat, n as nat);
                }
                return None;
            },
            Some((x, y, t)) => {
                let ghost before = out@;
                out.push(MemberInfo { user_id: x, user_info: y });
                proof {
                    assert(member_views(out@) =~= member_views(before).push((x@, y@)));
                }
                p = t;
            },
        }
        i = i + 1;
    }
    Some((out, p))
}

pub open spec fn count_views(v: Seq<ChannelCount>) -> Seq<(Seq<char>, u64)> {
    v.map_values(|c: ChannelCount| (c.channel@, c.count as u64))
}

pub fn put_counts(out: &mut Vec<u8>, v: &Vec<ChannelCount>)
    ensures
        final(out)@ == old(out)@ + enc_counts(count_views(v@)),
{
    put_u64(out, v.len() as u64);
    let ghost head = out@;
    let mut i: usize = 0;
    while i < v.len()
        invariant
            i <= v@.len(),
            out@ == head + items_counts(count_views(v@.take(i as int))),
        decreases v@.len() - i,
    {
        put_str(out, v[i].channel.as_str());
        put_u64(out, v[i].count as u64);
        proof {
            let t1 = count_views(v@.take(i + 1));
            assert(t1.drop_last() =~= count_views(v@.take(i as int)));
            assert(t1.last() == (v@[i as int].channel@, v@[i as int].count as u64));
        }
        i = i + 1;
    }
    assert(v@.take(i as int) =~= v@);
}

/// All counts of a decoded list fit a `usize`.
pub open spec fn counts_in_range(v: Seq<(Seq<char>, u64)>) -> bool {
    forall|i: int| 0 <= i < v.len() ==> (#[trigger] v[i]).1 <= usize::MAX
}

pub fn get_counts(b: &[u8], pos: usize) -> (r: Option<(Vec<ChannelCount>, usize)>)
    ensures
        match parse_counts(b@, pos as int) {
            None => r is None,
            Some((v, p)) => if counts_in_range(v) {
                r is Some && count_views(r->Some_0.0@) == v && r->Some_0.1 as int == p
            } else {
                r is None
            },
        },
{
    let (n, p0) = match get_u64(b, pos) {
        None => {
            return None;
        },
        Some(x) => x,
    };
    let mut out: Vec<ChannelCount> = Vec::new();
    let mut p: usize = p0;
    let mut i: u64 = 0;
    while i < n
        invariant
            i <= n,
            count_views(out@).len() == i,
            parse_u64(b@, pos as int) == Some((n, p0 as int)),
            parse_items_counts(b@, p0 as int, i as nat) == Some((count_views(out@), p as int)),
            counts_in_range(count_views(out@)),
        decreases n - i,
    {
        let step = match get_str(b, p) {
            None => None,
            Some((x, q)) => match get_u64(b, q) {
                None => None,
                Some((y, t)) => Some((x, y, t)),
            },
        };
        match step {
            None => {
                proof {
                    assert(parse_items_counts(b@, p0 as int, (i + 1) as nat) is None);
                    lemma_parse_items_counts_none(b@, p0 as int, (i + 1) as nat, n as nat);
                }
                return None;
            },
            Some((x, y, t)) => {
                if y > usize::MAX as u64 {
                    proof {
                        let k = (i + 1) as nat;
                        lemma_parse_items_counts_len(b@, p0 as int, i as nat);
                        assert(parse_items_counts(b@, p0 as int, k) == Some((count_views(out@).push((x@, y)), t as int)));
                        assert(count_views(out@).push((x@, y))[i as int] == (x@, y));
                        lemma_parse_items_counts_prefix(b@, p0 as int, k, n as nat);
                    }
                    return None;
                }
                let ghost before = out@;
                out.push(ChannelCount { channel: x, count: y as usize });
                proof {
                    assert(count_views(out@) =~= count_views(before).push((x@, y)));
                }
                p = t;
            },
        }
        i = i + 1;
    }
    Some((out, p))
}

proof fn lemma_parse_items_counts_prefix(b: Seq<u8>, pos: int, k: nat, n: nat)
    requires
        k <= n,
        parse_items_counts(b, pos, k) is Some,
    ensures
        parse_items_counts(b, pos, n) is Some ==> parse_items_counts(b, pos, k)->Some_0.0
            == parse_items_counts(b, pos, n)->Some_0.0.take(k as int),
        parse_items_counts(b, pos, n) is Some ==> parse_items_counts(b, pos, n)->Some_0.0.len() == n,
    decreases n - k,
{
    lemma_parse_items_counts_len(b, pos, k);
    if k < n {
        if parse_items_counts(b, pos, k + 1) is Some {
            lemma_parse_items_counts_prefix(b, pos, k + 1, n);
            let v1 = parse_items_counts(b, pos, k + 1)->Some_0.0;
            assert(v1.take(k as int) =~= parse_items_counts(b, pos, k)->Some_0.0);
            if parse_items_counts(b, pos, n) is Some {
                let vn = parse_items_counts(b, pos, n)->Some_0.0;
                assert(vn.take(k as int) =~= vn.take((k + 1) as int).take(k as int));
            }
        } else {
            lemma_parse_items_counts_none(b, pos, k + 1, n);
        }
    }
}

proof fn lemma_parse_items_counts_len(b: Seq<u8>, pos: int, k: nat)
    ensures
        parse_items_counts(b, pos, k) is Some ==> parse_items_counts(b, pos, k)->Some_0.0.len() == k,
    decreases k,
{
    if k > 0 {
        lemma_parse_items_counts_len(b, pos, (k - 1) as nat);
    }
}

// ---- messages ----

pub open spec fn opt_str_view(o: Option<String>) -> Option<Seq<char>> {
    match o {
        Some(s) => Some(s@),
        None => None,
    }
}

/// The fields of a broadcast, in wire order.
pub type BroadcastView = (Seq<char>, Seq<char>, Seq<char>, Seq<char>, Option<Seq<char>>, Option<u64>);

pub open spec fn broadcast_view(m: BroadcastMessage) -> BroadcastView {
    (m.node_id@, m.app_id@, m.channel@, m.message@, opt_str_view(m.except_socket_id), m.timestamp_ms)
}

pub open spec fn broadcast_fits(v: BroadcastView) -> bool {
    fits(v.0) && fits(v.1) && fits(v.2) && fits(v.3) && opt_fits(v.4)
}

pub open spec fn enc_broadcast(v: BroadcastView) -> Seq<u8> {
    enc_str(v.0) + enc_str(v.1) + enc_str(v.2) + enc_str(v.3) + enc_opt_str(v.4) + enc_opt_u64(v.5)
}

pub open spec fn parse_broadcast(b: Seq<u8>) -> Option<BroadcastView> {
    match parse_str(b, 0) {
        None => None,
        Some((a, p1)) => match parse_str(b, p1) {
            None => None,
            Some((c, p2)) => match parse_str(b, p2) {
                None => None,
                Some((d, p3)) => match parse_str(b, p3) {
                    None => None,
                    Some((e, p4)) => match parse_opt_str(b, p4) {
                        None => None,
                        Some((f, p5)) => match parse_opt_u64(b, p5) {
                            None => None,
                            Some((g, p6)) => if p6 == b.len() { Some((a, c, d, e, f, g)) } else { None },
                        },
                    },
                },
            },
        },
    }
}

/// Decoding an encoded broadcast gives back its fields.
pub proof fn lemma_broadcast_round_trip(v: BroadcastView)
    requires
        broadcast_fits(v),
    ensures
        parse_broadcast(enc_broadcast(v)) == Some(v),
{
    let b = enc_broadcast(v);
    let e1 = enc_str(v.0);
    let e2 = enc_str(v.1);
    let e3 = enc_str(v.2);
    let e4 = enc_str(v.3);
    let e5 = enc_opt_str(v.4);
    let e6 = enc_opt_u64(v.5);
    assert(at(b, 0, b)) by { assert(b.subrange(0, b.len() as int) =~= b); }
    lemma_at_split(b, 0, e1 + e2 + e3 + e4 + e5, e6);
    lemma_at_split(b, 0, e1 + e2 + e3 + e4, e5);
    lemma_at_split(b, 0, e1 + e2 + e3, e4);
    lemma_at_split(b, 0, e1 + e2, e3);
    lemma_at_split(b, 0, e1, e2);
    lemma_parse_str(b, 0, v.0);
    lemma_parse_str(b, e1.len() as int, v.1);
    lemma_parse_str(b, (e1.len() + e2.len()) as int, v.2);
    lemma_parse_str(b, (e1.len() + e2.len() + e3.len()) as int, v.3);
    lemma_parse_opt_str(b, (e1.len() + e2.len() + e3.len() + e4.len()) as int, v.4);
    lemma_parse_opt_u64(b, (e1.len() + e2.len() + e3.len() + e4.len() + e5.len()) as int, v.5);
}

/// Frames a broadcast for the wire.
pub fn encode_broadcast(m: &BroadcastMessage) -> (r: Vec<u8>)
    ensures
        r@ == enc_broadcast(broadcast_view(*m)),
{
    let mut out: Vec<u8> = Vec::new();
    put_str(&mut out, m.node_id.as_str());
    put_str(&mut out, m.app_id.as_str());
    put_str(&mut out, m.channel.as_str());
    put_str(&mut out, m.message.as_str());
    put_opt_str(&mut out, &m.except_socket_id);
    put_opt_u64(&mut out, m.timestamp_ms);
    assert(out@ =~= enc_broadcast(broadcast_view(*m)));
    out
}

/// Reads a broadcast; `None` unless the bytes are exactly one well-formed frame.
pub fn decode_broadcast(b: &[u8]) -> (r: Option<BroadcastMessage>)
    ensures
        match parse_broadcast(b@) {
            None => r is None,
            Some(v) => r is Some && broadcast_view(r->Some_0) == v,
        },
{
    let (node_id, p1) = match get_str(b, 0) { None => { return None; }, Some(x) => x };
    let (app_id, p2) = match get_str(b, p1) { None => { return None; }, Some(x) => x };
    let (channel, p3) = match get_str(b, p2) { None => { return None; }, Some(x) => x };
    let (message, p4) = match get_str(b, p3) { None => { return None; }, Some(x) => x };
    let (except_socket_id, p5) = match get_opt_str(b, p4) { None => { return None; }, Some(x) => x };
    let (timestamp_ms, p6) = match get_opt_u64(b, p5) { None => { return None; }, Some(x) => x };
    if p6 != b.len() {
        return None;
    }
    let m = BroadcastMessage { node_id, app_id, channel, message, except_socket_id, timestamp_ms };
    proof {
        assert(opt_str_view(m.except_socket_id) == parse_opt_str(b@, p4 as int)->Some_0.0);
    }
    Some(m)
}

pub open spec fn type_tag(t: RequestType) -> u8 {
    match t {
        RequestType::ChannelMembers => 0,
        RequestType::ChannelSockets => 1,
        RequestType::ChannelSocketsCount => 2,
        RequestType::SocketExistsInChannel => 3,
        RequestType::TerminateUserConnections => 4,
        RequestType::ChannelsWithSocketsCount => 5,
        RequestType::SocketsCount => 6,
        RequestType::CountUserConnectionsInChannel => 7,
    }
}

pub open spec fn tag_type(x: u8) -> Option<RequestType> {
    if x == 0 { Some(RequestType::ChannelMembers) }
    else if x == 1 { Some(RequestType::ChannelSockets) }
    else if x == 2 { Some(RequestType::ChannelSocketsCount) }
    else if x == 3 { Some(RequestType::SocketExistsInChannel) }
    else if x == 4 { Some(RequestType::TerminateUserConnections) }
    else if x == 5 { Some(RequestType::ChannelsWithSocketsCount) }
    else if x == 6 { Some(RequestType::SocketsCount) }
    else if x == 7 { Some(RequestType::CountUserConnectionsInChannel) }
    else { None }
}

fn put_type(out: &mut Vec<u8>, t: RequestType)
    ensures
        final(out)@ == old(out)@ + seq![type_tag(t)],
{
    let x: u8 = match t {
        RequestType::ChannelMembers => 0,
        RequestType::ChannelSockets => 1,
        RequestType::ChannelSocketsCount => 2,
        RequestType::SocketExistsInChannel => 3,
        RequestType::TerminateUserConnections => 4,
        RequestType::ChannelsWithSocketsCount => 5,
        RequestType::SocketsCount => 6,
        RequestType::CountUserConnectionsInChannel => 7,
    };
    out.push(x);
}

pub open spec fn parse_type(b: Seq<u8>, pos: int) -> Option<(RequestType, int)> {
    if 0 <= pos < b.len() && tag_type(b[pos]) is Some {
        Some((tag_type(b[pos])->Some_0, pos + 1))
    } else {
        None
    }
}

fn get_type(b: &[u8], pos: usize) -> (r: Option<(RequestType, usize)>)
    ensures
        match parse_type(b@, pos as int) {
            None => r is None,
            Some((t, p)) => r is Some && r->Some_0.0 == t && r->Some_0.1 as int == p,
        },
{
    if pos >= b.len() {
        return None;
    }
    let t = match b[pos] {
        0 => RequestType::ChannelMembers,
        1 => RequestType::ChannelSockets,
        2 => RequestType::ChannelSocketsCount,
        3 => RequestType::SocketExistsInChannel,
        4 => RequestType::TerminateUserConnections,
        5 => RequestType::ChannelsWithSocketsCount,
        6 => RequestType::SocketsCount,
        7 => RequestType::CountUserConnectionsInChannel,
        _ => {
            return None;
        },
    };
    Some((t, pos + 1))
}

/// The fields of a request, in wire order.
pub type RequestView = (Seq<char>, Seq<char>, Seq<char>, RequestType, Option<Seq<char>>, Option<Seq<char>>, Option<Seq<char>>);

pub open spec fn request_view(m: RequestBody) -> RequestView {
    (m.request_id@, m.node_id@, m.app_id@, m.request_type, opt_str_view(m.channel), opt_str_view(m.socket_id), opt_str_view(m.user_id))
}

pub open spec fn request_fits(v: RequestView) -> bool {
    fits(v.0) && fits(v.1) && fits(v.2) && opt_fits(v.4) && opt_fits(v.5) && opt_fits(v.6)
}

pub open spec fn enc_request(v: RequestView) -> Seq<u8> {
    enc_str(v.0) + enc_str(v.1) + enc_str(v.2) + seq![type_tag(v.3)] + enc_opt_str(v.4) + enc_opt_str(v.5) + enc_opt_str(v.6)
}

pub open spec fn parse_request(b: Seq<u8>) -> Option<RequestView> {
    match parse_str(b, 0) {
        None => None,
        Some((a, p1)) => match parse_str(b, p1) {
            None => None,
            Some((c, p2)) => match parse_str(b, p2) {
                None => None,
                Some((d, p3)) => match parse_type(b, p3) {
                    None => None,
                    Some((t, p4)) => match parse_opt_str(b, p4) {
                        None => None,
                        Some((e, p5)) => match parse_opt_str(b, p5) {
                            None => None,
                            Some((f, p6)) => match parse_opt_str(b, p6) {
                                None => None,
                                Some((g, p7)) => if p7 == b.len() { Some((a, c, d, t, e, f, g)) } else { None },
                            },
                        },
                    },
                },
            },
        },
    }
}

/// Decoding an encoded request gives back its fields.
pub proof fn lemma_request_round_trip(v: RequestView)
    requires
        request_fits(v),
    ensures
        parse_request(enc_request(v)) == Some(v),
{
    let b = enc_request(v);
    let e1 = enc_str(v.0);
    let e2 = enc_str(v.1);
    let e3 = enc_str(v.2);
    let e4: Seq<u8> = seq![type_tag(v.3)];
    let e5 = enc_opt_str(v.4);
    let e6 = enc_opt_str(v.5);
    let e7 = enc_opt_str(v.6);
    assert(at(b, 0, b)) by { assert(b.subrange(0, b.len() as int) =~= b); }
    lemma_at_split(b, 0, e1 + e2 + e3 + e4 + e5 + e6, e7);
    lemma_at_split(b, 0, e1 + e2 + e3 + e4 + e5, e6);
    lemma_at_split(b, 0, e1 + e2 + e3 + e4, e5);
    lemma_at_split(b, 0, e1 + e2 + e3, e4);
    lemma_at_split(b, 0, e1 + e2, e3);
    lemma_at_split(b, 0, e1, e2);
    let q = (e1.len() + e2.len() + e3.len()) as int;
    lemma_parse_str(b, 0, v.0);
    lemma_parse_str(b, e1.len() as int, v.1);
    lemma_parse_str(b, (e1.len() + e2.len()) as int, v.2);
    assert(b[q] == b.subrange(q, q + 1)[0]);
    assert(tag_type(type_tag(v.3)) == Some(v.3));
    lemma_parse_opt_str(b, q + 1, v.4);
    lemma_parse_opt_str(b, q + 1 + e5.len(), v.5);
    lemma_parse_opt_str(b, q + 1 + e5.len() + e6.len(), v.6);
}

/// Frames a request for the wire.
pub fn encode_request(m: &RequestBody) -> (r: Vec<u8>)
    ensures
        r@ == enc_request(request_view(*m)),
{
    let mut out: Vec<u8> = Vec::new();
    put_str(&mut out, m.request_id.as_str());
    put_str(&mut out, m.node_id.as_str());
    put_str(&mut out, m.app_id.as_str());
    put_type(&mut out, m.request_type);
    put_opt_str(&mut out, &m.channel);
    put_opt_str(&mut out, &m.socket_id);
    put_opt_str(&mut out, &m.user_id);
    assert(out@ =~= enc_request(request_view(*m)));
    out
}

/// Reads a request; `None` unless the bytes are exactly one well-formed frame.
pub fn decode_request(b: &[u8]) -> (r: Option<RequestBody>)
    ensures
        match parse_request(b@) {
            None => r is None,
            Some(v) => r is Some && request_view(r->Some_0) == v,
        },
{
    let (request_id, p1) = match get_str(b, 0) { None => { return None; }, Some(x) => x };
    let (node_id, p2) = match get_str(b, p1) { None => { return None; }, Some(x) => x };
    let (app_id, p3) = match get_str(b, p2) { None => { return None; }, Some(x) => x };
    let (request_type, p4) = match get_type(b, p3) { None => { return None; }, Some(x) => x };
    let (channel, p5) = match get_opt_str(b, p4) { None => { return None; }, Some(x) => x };
    let (socket_id, p6) = match get_opt_str(b, p5) { None => { return None; }, Some(x) => x };
    let (user_id, p7) = match get_opt_str(b, p6) { None => { return None; }, Some(x) => x };
    if p7 != b.len() {
        return None;
    }
    let m = RequestBody { request_id, node_id, app_id, request_type, channel, socket_id, user_id };
    proof {
        assert(opt_str_view(m.channel) == parse_opt_str(b@, p4 as int)->Some_0.0);
        assert(opt_str_view(m.socket_id) == parse_opt_str(b@, p5 as int)->Some_0.0);
        assert(opt_str_view(m.user_id) == parse_opt_str(b@, p6 as int)->Some_0.0);
    }
    Some(m)
}

/// The fields of a response, in wire order.
pub type ResponseView = (
    Seq<char>,
    Seq<char>,
    Seq<char>,
    Seq<(Seq<char>, Seq<char>)>,
    Seq<Seq<char>>,
    u64,
    Seq<(Seq<char>, u64)>,
    bool,
    Seq<Seq<char>>,
    u64,
);

pub open spec fn response_view(m: ResponseBody) -> ResponseView {
    (
        m.request_id@,
        m.node_id@,
        m.app_id@,
        member_views(m.members@),
        str_views(m.socket_ids@),
        m.sockets_count as u64,
        count_views(m.channels_with_sockets_count@),
        m.exists,
        str_views(m.channels@),
        m.members_count as u64,
    )
}

pub open spec fn response_fits(v: ResponseView) -> bool {
    &&& fits(v.0) && fits(v.1) && fits(v.2)
    &&& pairs_fit(v.3) && v.3.len() <= u64::MAX
    &&& all_fit(v.4) && v.4.len() <= u64::MAX
    &&& counts_fit(v.6) && v.6.len() <= u64::MAX
    &&& all_fit(v.8) && v.8.len() <= u64::MAX
}

/// The counts of a response fit a `usize` on this machine.
pub open spec fn response_in_range(v: ResponseView) -> bool {
    v.5 <= usize::MAX && counts_in_range(v.6) && v.9 <= usize::MAX
}

pub open spec fn enc_response(v: ResponseView) -> Seq<u8> {
    enc_str(v.0) + enc_str(v.1) + enc_str(v.2) + enc_pairs(v.3) + enc_strs(v.4) + enc_u64(v.5)
        + enc_counts(v.6) + enc_bool(v.7) + enc_strs(v.8) + enc_u64(v.9)
}

pub open spec fn parse_response(b: Seq<u8>) -> Option<ResponseView> {
    match parse_str(b, 0) {
        None => None,
        Some((f0, p1)) => match parse_str(b, p1) {
            None => None,
            Some((f1, p2)) => match parse_str(b, p2) {
                None => None,
                Some((f2, p3)) => match parse_pairs(b, p3) {
                    None => None,
                    Some((f3, p4)) => match parse_strs(b, p4) {
                        None => None,
                        Some((f4, p5)) => match parse_u64(b, p5) {
                            None => None,
                            Some((f5, p6)) => match parse_counts(b, p6) {
                                None => None,
                                Some((f6, p7)) => match parse_bool(b, p7) {
                                    None => None,
                                    Some((f7, p8)) => match parse_strs(b, p8) {
                                        None => None,
                                        Some((f8, p9)) => match parse_u64(b, p9) {
                                            None => None,
                                            Some((f9, p10)) => if p10 == b.len() {
                                                Some((f0, f1, f2, f3, f4, f5, f6, f7, f8, f9))
                                            } else {
                                                None
                                            },
                                        },
                                    },
                                },
                            },
                        },
                    },
                },
            },
        },
    }
}

/// Decoding an encoded response gives back its fields.
pub proof fn lemma_response_round_trip(v: ResponseView)
    requires
        response_fits(v),
    ensures
        parse_response(enc_response(v)) == Some(v),
{
    let b = enc_response(v);
    let e0 = enc_str(v.0);
    let e1 = enc_str(v.1);
    let e2 = enc_str(v.2);
    let e3 = enc_pairs(v.3);
    let e4 = enc_strs(v.4);
    let e5 = enc_u64(v.5);
    let e6 = enc_counts(v.6);
    let e7 = enc_bool(v.7);
    let e8 = enc_strs(v.8);
    let e9 = enc_u64(v.9);
    assert(at(b, 0, b)) by { assert(b.subrange(0, b.len() as int) =~= b); }
    lemma_at_split(b, 0, e0 + e1 + e2 + e3 + e4 + e5 + e6 + e7 + e8, e9);
    lemma_at_split(b, 0, e0 + e1 + e2 + e3 + e4 + e5 + e6 + e7, e8);
    lemma_at_split(b, 0, e0 + e1 + e2 + e3 + e4 + e5 + e6, e7);
    lemma_at_split(b, 0, e0 + e1 + e2 + e3 + e4 + e5, e6);
    lemma_at_split(b, 0, e0 + e1 + e2 + e3 + e4, e5);
    lemma_at_split(b, 0, e0 + e1 + e2 + e3, e4);
    lemma_at_split(b, 0, e0 + e1 + e2, e3);
    lemma_at_split(b, 0, e0 + e1, e2);
    lemma_at_split(b, 0, e0, e1);
    let q3 = (e0.len() + e1.len() + e2.len()) as int;
    let q4 = q3 + e3.len();
    let q5 = q4 + e4.len();
    let q6 = q5 + e5.len();
    let q7 = q6 + e6.len();
    let q8 = q7 + e7.len();
    let q9 = q8 + e8.len();
    lemma_parse_str(b, 0, v.0);
    lemma_parse_str(b, e0.len() as int, v.1);
    lemma_parse_str(b, (e0.len() + e1.len()) as int, v.2);
    lemma_parse_pairs(b, q3, v.3);
    lemma_parse_strs(b, q4, v.4);
    lemma_parse_u64(b, q5, v.5);
    lemma_parse_counts(b, q6, v.6);
    lemma_parse_bool(b, q7, v.7);
    lemma_parse_strs(b, q8, v.8);
    lemma_parse_u64(b, q9, v.9);
}

/// Frames a response for the wire.
pub fn encode_response(m: &ResponseBody) -> (r: Vec<u8>)
    ensures
        r@ == enc_response(response_view(*m)),
{
    let mut out: Vec<u8> = Vec::new();
    put_str(&mut out, m.request_id.as_str());
    put_str(&mut out, m.node_id.as_str());
    put_str(&mut out, m.app_id.as_str());
    put_members(&mut out, &m.members);
    put_strs(&mut out, &m.socket_ids);
    put_u64(&mut out, m.sockets_count as u64);
    put_counts(&mut out, &m.channels_with_sockets_count);
    put_bool(&mut out, m.exists);
    put_strs(&mut out, &m.channels);
    put_u64(&mut out, m.members_count as u64);
    assert(out@ =~= enc_response(response_view(*m)));
    out
}

/// Reads a response; `None` unless the bytes are exactly one well-formed
/// frame whose counts fit a `usize`.
pub fn decode_response(b: &[u8]) -> (r: Option<ResponseBody>)
    ensures
        match parse_response(b@) {
            None => r is None,
            Some(v) => if response_in_range(v) { r is Some && response_view(r->Some_0) == v } else { r is None },
        },
{
    let (request_id, p1) = match get_str(b, 0) { None => { return None; }, Some(x) => x };
    let (node_id, p2) = match get_str(b, p1) { None => { return None; }, Some(x) => x };
    let (app_id, p3) = match get_str(b, p2) { None => { return None; }, Some(x) => x };
    let (members, p4) = match get_members(b, p3) { None => { return None; }, Some(x) => x };
    let (socket_ids, p5) = match get_strs(b, p4) { None => { return None; }, Some(x) => x };
    let (sockets_count, p6) = match get_u64(b, p5) { None => { return None; }, Some(x) => x };
    let (channels_with_sockets_count, p7) = match get_counts(b, p6) { None => { return None; }, Some(x) => x };
    let (exists, p8) = match get_bool(b, p7) { None => { return None; }, Some(x) => x };
    let (channels, p9) = match get_strs(b, p8) { None => { return None; }, Some(x) => x };
    let (members_count, p10) = match get_u64(b, p9) { None => { return None; }, Some(x) => x };
    if p10 != b.len() {
        return None;
    }
    if sockets_count > usize::MAX as u64 || members_count > usize::MAX as u64 {
        return None;
    }
    Some(ResponseBody {
        request_id,
        node_id,
        app_id,
        members,
        socket_ids,
        sockets_count: sockets_count as usize,
        channels_with_sockets_count,
        exists,
        channels,
        members_count: members_count as usize,
    })
}

} // verus!
