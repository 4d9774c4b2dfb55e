//! The length-prefixed tree format of the kvptree crate, in which the client
//! and the server exchange request and reply trees.
//!
//! A packet is UTF-8 text. The bracket tokens `[` and `]` stand alone; every
//! other token is written as its length in bytes, a space and its text. The
//! tokens are then read as the packet tree format reads its tokens. Which
//! texts kvptree reads without stopping is stated here (`kvp_well_formed`)
//! and checked by `kvp_well_formed_check`; the tree it reads is `kvp_parse`.

use vstd::prelude::*;
use vstd::std_specs::iter::IteratorSpec;
use vstd::string::*;
use crate::packet::{close_token, keys_distinct, open_token, parse_from, parse_list, token_view, Tree};
use crate::text::{parse_u64, parse_u64_spec, push_char, string_from_utf8};
use kvptree::ValueType as KvpValue;

verus! {

/// Whitespace as `char::is_whitespace` has it (the Unicode `White_Space`
/// characters).
pub open spec fn kvp_ws(c: char) -> bool {
    let u = c as u32;
    (0x9 <= u <= 0xd) || u == 0x20 || u == 0x85 || u == 0xa0 || u == 0x1680 || (0x2000 <= u
        <= 0x200a) || u == 0x2028 || u == 0x2029 || u == 0x202f || u == 0x205f || u == 0x3000
}

/// The number of bytes of `c` in UTF-8.
pub open spec fn utf8_width(c: char) -> nat {
    let u = c as u32;
    if u < 0x80 {
        1
    } else if u < 0x800 {
        2
    } else if u < 0x10000 {
        3
    } else {
        4
    }
}

/// Each character takes in UTF-8 as many bytes as its encoding has.
pub proof fn lemma_utf8_width_is_encoding_length(c: char)
    ensures
        utf8_width(c) == vstd::utf8::encode_utf8(seq![c]).len(),
{
    vstd::utf8::char_is_scalar(c);
    let e = vstd::utf8::encode_utf8(seq![c]);
    assert(seq![c].drop_first() =~= Seq::<char>::empty());
    assert(seq![c][0] == c);
    assert(vstd::utf8::encode_utf8(Seq::<char>::empty()) =~= Seq::<u8>::empty());
    assert(e =~= vstd::utf8::encode_scalar(c as u32));
}

/// The UTF-8 encoding of the first `k` characters of `s` is exactly `k`
/// characters long in the sense of `prefix_for_bytes`: splitting at its byte
/// length lands on the character boundary after them.
pub proof fn lemma_prefix_of_encoding(s: Seq<char>, k: int)
    requires
        0 <= k <= s.len(),
    ensures
        prefix_for_bytes(s, vstd::utf8::encode_utf8(s.subrange(0, k)).len()) == Some(k as nat),
    decreases k,
{
    if k == 0 {
        assert(s.subrange(0, 0) =~= Seq::<char>::empty());
    } else {
        let p = s.subrange(0, k);
        let r = s.subrange(1, s.len() as int);
        lemma_utf8_width_is_encoding_length(s[0]);
        vstd::utf8::char_is_scalar(s[0]);
        assert(vstd::utf8::encode_utf8(seq![s[0]]) =~= vstd::utf8::encode_scalar(s[0] as u32)) by {
            assert(seq![s[0]].drop_first() =~= Seq::<char>::empty());
        }
        assert(p.drop_first() =~= r.subrange(0, k - 1));
        assert(p[0] == s[0]);
        lemma_prefix_of_encoding(r, k - 1);
        let n = vstd::utf8::encode_utf8(p).len();
        assert(n == utf8_width(s[0]) + vstd::utf8::encode_utf8(r.subrange(0, k - 1)).len());
        assert(utf8_width(s[0]) >= 1);
    }
}

/// The number of leading characters of `s` that take exactly `n` bytes in
/// UTF-8; `None` where `n` bytes end inside a character or beyond `s`.
pub open spec fn prefix_for_bytes(s: Seq<char>, n: nat) -> Option<nat>
    decreases s.len(),
{
    if n == 0 {
        Some(0)
    } else if s.len() == 0 || utf8_width(s[0]) > n {
        None
    } else {
        match prefix_for_bytes(s.subrange(1, s.len() as int), (n - utf8_width(s[0])) as nat) {
            Some(k) => Some(k + 1),
            None => None,
        }
    }
}

/// The number of whitespace characters at the start of `s`.
pub open spec fn lead_ws(s: Seq<char>) -> nat
    decreases s.len(),
{
    if s.len() > 0 && kvp_ws(s[0]) {
        1 + lead_ws(s.subrange(1, s.len() as int))
    } else {
        0
    }
}

/// The number of whitespace characters at the end of `s`.
pub open spec fn trail_ws(s: Seq<char>) -> nat
    decreases s.len(),
{
    if s.len() > 0 && kvp_ws(s.last()) {
        1 + trail_ws(s.drop_last())
    } else {
        0
    }
}

pub proof fn lemma_ws_counts(s: Seq<char>)
    ensures
        lead_ws(s) <= s.len(),
        trail_ws(s) <= s.len(),
    decreases s.len(),
{
    if s.len() > 0 {
        lemma_ws_counts(s.subrange(1, s.len() as int));
        lemma_ws_counts(s.drop_last());
    }
}

/// `s` without its leading and trailing whitespace, as `str::trim` gives it.
pub open spec fn kvp_trim(s: Seq<char>) -> Seq<char> {
    let t = s.subrange(lead_ws(s) as int, s.len() as int);
    t.subrange(0, t.len() - trail_ws(t))
}

/// The position of the first space in `p`, or its length when there is none.
pub open spec fn space_index(p: Seq<char>) -> nat
    decreases p.len(),
{
    if p.len() == 0 || p[0] == ' ' {
        0
    } else {
        1 + space_index(p.subrange(1, p.len() as int))
    }
}

proof fn lemma_space_index(p: Seq<char>, k: int)
    requires
        0 <= k <= p.len(),
        forall|i: int| 0 <= i < k ==> p[i] != ' ',
        k == p.len() || p[k] == ' ',
    ensures
        space_index(p) == k,
    decreases k,
{
    if k > 0 {
        let r = p.subrange(1, p.len() as int);
        assert forall|i: int| 0 <= i < k - 1 implies r[i] != ' ' by {
            assert(r[i] == p[i + 1]);
        }
        if k - 1 < r.len() {
            assert(r[k - 1] == p[k]);
        }
        lemma_space_index(r, k - 1);
    }
}

pub proof fn lemma_prefix_bound(s: Seq<char>, n: nat)
    ensures
        prefix_for_bytes(s, n) matches Some(k) ==> k <= s.len(),
    decreases s.len(),
{
    if n > 0 && s.len() > 0 && utf8_width(s[0]) <= n {
        lemma_prefix_bound(s.subrange(1, s.len() as int), (n - utf8_width(s[0])) as nat);
    }
}

/// A length field read as `str::parse::<usize>` reads it.
pub open spec fn usize_parse(s: Seq<char>) -> Option<nat> {
    match parse_u64_spec(s) {
        Some(n) => if n <= usize::MAX {
            Some(n as nat)
        } else {
            None
        },
        None => None,
    }
}

/// The tokens of the text `val`, read as kvptree reads them: a bracket token
/// up to the next space; otherwise a length up to the next space, that many
/// bytes of text after it as the token, and the rest with its surrounding
/// whitespace trimmed. `None` where a length does not read as a number or does
/// not end on a character within the text.
#[verifier::opaque]
pub open spec fn kvp_split(val: Seq<char>) -> Option<Seq<Seq<char>>>
    decreases val.len(),
{
    if val.len() == 0 {
        Some(seq![])
    } else {
        let d = space_index(val);
        proof {
            lemma_space_index_bound(val);
        }
        let part = val.subrange(0, d as int);
        let rest = if d < val.len() {
            val.subrange(d + 1 as int, val.len() as int)
        } else {
            seq![]
        };
        if part == open_token() || part == close_token() {
            match kvp_split(rest) {
                Some(t) => Some(seq![part] + t),
                None => None,
            }
        } else {
            match usize_parse(part) {
                None => None,
                Some(n) => match prefix_for_bytes(rest, n) {
                    None => None,
                    Some(k) => {
                        proof {
                            lemma_prefix_bound(rest, n);
                            lemma_ws_counts(rest.subrange(k as int, rest.len() as int));
                            let r = rest.subrange(k as int, rest.len() as int);
                            lemma_ws_counts(r.subrange(lead_ws(r) as int, r.len() as int));
                        }
                        match kvp_split(kvp_trim(rest.subrange(k as int, rest.len() as int))) {
                            Some(t) => Some(seq![rest.subrange(0, k as int)] + t),
                            None => None,
                        }
                    },
                },
            }
        }
    }
}

/// The text after the first space of `val`, or nothing.
pub open spec fn after_space(val: Seq<char>) -> Seq<char> {
    if space_index(val) < val.len() {
        val.subrange(space_index(val) + 1 as int, val.len() as int)
    } else {
        seq![]
    }
}

/// One step of `kvp_split` on nonempty text.
proof fn lemma_split_step(val: Seq<char>)
    requires
        val.len() > 0,
    ensures
        ({
            let part = val.subrange(0, space_index(val) as int);
            let rest = after_space(val);
            kvp_split(val) == if part == open_token() || part == close_token() {
                match kvp_split(rest) {
                    Some(t) => Some(seq![part] + t),
                    None => None,
                }
            } else {
                match usize_parse(part) {
                    None => None,
                    Some(n) => match prefix_for_bytes(rest, n) {
                        None => None,
                        Some(k) => match kvp_split(
                            kvp_trim(rest.subrange(k as int, rest.len() as int)),
                        ) {
                            Some(t) => Some(seq![rest.subrange(0, k as int)] + t),
                            None => None,
                        },
                    },
                }
            }
        }),
{
    reveal(kvp_split);
}

proof fn lemma_split_empty()
    ensures
        kvp_split(Seq::<char>::empty()) == Some(Seq::<Seq<char>>::empty()),
{
    reveal(kvp_split);
}

pub proof fn lemma_space_index_bound(p: Seq<char>)
    ensures
        space_index(p) <= p.len(),
    decreases p.len(),
{
    if p.len() > 0 && p[0] != ' ' {
        lemma_space_index_bound(p.subrange(1, p.len() as int));
    }
}

/// Whether kvptree reads `bytes` without stopping: bytes that are not UTF-8
/// are reported as an error; UTF-8 text must split into at least one token,
/// and the tokens after the first must give every key a value.
pub open spec fn kvp_well_formed(bytes: Seq<u8>) -> bool {
    vstd::utf8::valid_utf8(bytes) ==> match kvp_split(vstd::utf8::decode_utf8(bytes)) {
        Some(t) => t.len() >= 1 && parse_from(t.subrange(1, t.len() as int), 0, Map::empty()) is Some,
        None => false,
    }
}

/// The tree that `kvptree::from_byte_vec` reads from `bytes`: none from bytes
/// that are not UTF-8; otherwise the first token is passed over and the rest
/// are read as the entries of the root list, a later entry for a key
/// replacing an earlier one. On text that is not well formed kvptree stops
/// instead, and this gives `None`.
pub open spec fn kvp_parse(bytes: Seq<u8>) -> Option<Tree> {
    if !vstd::utf8::valid_utf8(bytes) {
        None
    } else {
        match kvp_split(vstd::utf8::decode_utf8(bytes)) {
            Some(t) => if t.len() >= 1 {
                match parse_from(t.subrange(1, t.len() as int), 0, Map::empty()) {
                    Some((_, m)) => Some(Tree::List(m)),
                    None => None,
                }
            } else {
                None
            },
            None => None,
        }
    }
}

#[verifier::external_type_specification]
#[verifier::external_body]
pub struct ExKvpValueType(KvpValue);

/// Turns a kvptree value into the library's value, entry for entry. The
/// entries of a list come in the order in which its `HashMap` is walked.
#[verifier::external_body]
fn from_kvp(value: KvpValue) -> (res: crate::packet::ValueType) {
    match value {
        KvpValue::STRING(s) => crate::packet::ValueType::STRING(s),
        KvpValue::LIST(map) => crate::packet::ValueType::LIST(
            map.into_iter().map(|(k, v)| (k, from_kvp(v))).collect(),
        ),
    }
}

/// `kvptree::from_byte_vec` on text that it reads without stopping: it fails
/// exactly when the bytes are not UTF-8 (its only error comes from
/// `String::from_utf8`), and otherwise gives a list holding the tree
/// `kvp_parse` states: its `HashMap`s take the entries in token order, a later
/// entry for a key replacing an earlier one, and hold each key once.
#[verifier::external_body]
fn decode_kvp(bytes: Vec<u8>) -> (res: Option<crate::packet::ValueType>)
    requires
        kvp_well_formed(bytes@),
    ensures
        res is Some <==> vstd::utf8::valid_utf8(bytes@),
        res matches Some(v) ==> v is LIST && kvp_parse(bytes@) == Some(v@) && keys_distinct(v),
        res is None ==> kvp_parse(bytes@) is None,
{
    match kvptree::from_byte_vec(bytes) {
        Ok(v) => Some(from_kvp(v)),
        Err(_) => None,
    }
}

/// A value that kvptree writes and reads back as itself: at every depth no
/// key is `]` and no word is `[`.
pub open spec fn kvp_value_safe(v: crate::packet::ValueType) -> bool
    decreases v,
{
    match v {
        crate::packet::ValueType::STRING(s) => s@ != open_token(),
        crate::packet::ValueType::LIST(e) => kvp_entries_safe(e@),
    }
}

/// Every entry of `s` is safe in the sense of `kvp_value_safe`.
pub open spec fn kvp_entries_safe(s: Seq<(String, crate::packet::ValueType)>) -> bool
    decreases s,
{
    s.len() == 0 || (s[0].0@ != close_token() && kvp_value_safe(s[0].1) && kvp_entries_safe(
        s.subrange(1, s.len() as int),
    ))
}

/// Turns the library's value into a kvptree value, entry for entry; a later
/// entry of a list replaces an earlier one with the same key, as inserting
/// them into the `HashMap` in order does.
#[verifier::external_body]
fn to_kvp(value: crate::packet::ValueType) -> (res: KvpValue) {
    match value {
        crate::packet::ValueType::STRING(s) => KvpValue::STRING(s),
        crate::packet::ValueType::LIST(entries) => KvpValue::LIST(
            entries.into_iter().map(|(k, v)| (k, to_kvp(v))).collect(),
        ),
    }
}

/// `kvptree::to_byte_vec` on a list (it panics on a word). The bytes are a
/// `String`'s, so valid UTF-8; the order of a list's entries follows the walk
/// of its `HashMap` and is not stated. A value that is safe in the sense of
/// `kvp_value_safe` comes out as text that kvptree reads without stopping
/// and reads back as the same tree: each token other than a bracket is
/// written with its exact byte length, and a key `]` or a word `[` would be
/// read as a bracket.
#[verifier::external_body]
pub(crate) fn encode_kvp(tree: crate::packet::ValueType) -> (res: Vec<u8>)
    requires
        tree is LIST,
    ensures
        vstd::utf8::valid_utf8(res@),
        kvp_value_safe(tree) ==> kvp_well_formed(res@) && kvp_parse(res@) == Some(tree@),
{
    kvptree::to_byte_vec(to_kvp(tree))
}

/// Why a received packet could not be read.
#[derive(Debug, Clone, Copy, PartialEq, Eq)]
pub enum DecodeError {
    /// The text does not have the token structure that kvptree reads.
    Malformed,
    /// The bytes are not UTF-8.
    InvalidUtf8,
}

/// Reads a received packet: checks that kvptree reads it without stopping,
/// then reads it with kvptree.
pub fn read_packet(bytes: Vec<u8>) -> (res: Result<crate::packet::ValueType, DecodeError>)
    requires
        bytes@.len() <= usize::MAX / 2,
    ensures
        res is Err <==> (!kvp_well_formed(bytes@) || kvp_parse(bytes@) is None),
        !kvp_well_formed(bytes@) ==> res == Err::<crate::packet::ValueType, DecodeError>(DecodeError::Malformed),
        kvp_well_formed(bytes@) && !vstd::utf8::valid_utf8(bytes@) ==> res == Err::<
            crate::packet::ValueType,
            DecodeError,
        >(DecodeError::InvalidUtf8),
        res matches Ok(v) ==> v is LIST && kvp_parse(bytes@) == Some(v@) && keys_distinct(v),
{
    if !kvp_well_formed_check(&bytes) {
        return Err(DecodeError::Malformed);
    }
    match decode_kvp(bytes) {
        Some(v) => Ok(v),
        None => Err(DecodeError::InvalidUtf8),
    }
}

/// The characters of `s`.
fn chars_of(s: &str) -> (res: Vec<char>)
    ensures
        res@ == s@,
{
    broadcast use vstd::string::next_postcondition, vstd::string::axiom_spec_iter;

    let mut it = s.chars();
    let mut out: Vec<char> = Vec::new();
    let ghost mut pos: int = 0;
    assert(s@.subrange(0, s@.len() as int) =~= s@);
    loop
        invariant
            0 <= pos <= s@.len(),
            it.obeys_prophetic_iter_laws(),
            it.remaining() == s@.subrange(pos, s@.len() as int),
            out@ == s@.subrange(0, pos),
        ensures
            out@ == s@,
        decreases s@.len() - pos,
    {
        let ghost rem = it.remaining();
        match it.next() {
            Some(c) => {
                assert(rem[0] == c);
                assert(rem.subrange(1, rem.len() as int) =~= s@.subrange(pos + 1, s@.len() as int));
                out.push(c);
                proof {
                    assert(s@[pos] == c);
                    pos = pos + 1;
                }
                assert(out@ =~= s@.subrange(0, pos));
            },
            None => {
                assert(pos == s@.len());
                assert(out@ =~= s@);
                break;
            },
        }
    }
    out
}

/// The characters of `cs` from `a` to `b` as a string.
fn string_of(cs: &Vec<char>, a: usize, b: usize) -> (res: String)
    requires
        a <= b <= cs@.len(),
    ensures
        res@ == cs@.subrange(a as int, b as int),
{
    let mut r = String::new();
    let mut i = a;
    while i < b
        invariant
            a <= i <= b <= cs@.len(),
            r@ == cs@.subrange(a as int, i as int),
        decreases b - i,
    {
        push_char(&mut r, cs[i]);
        assert(r@ =~= cs@.subrange(a as int, i + 1 as int));
        i += 1;
    }
    r
}

fn is_ws(c: char) -> (b: bool)
    ensures
        b == kvp_ws(c),
{
    let u = c as u32;
    (0x9 <= u && u <= 0xd) || u == 0x20 || u == 0x85 || u == 0xa0 || u == 0x1680 || (0x2000 <= u
        && u <= 0x200a) || u == 0x2028 || u == 0x2029 || u == 0x202f || u == 0x205f || u == 0x3000
}

fn width(c: char) -> (w: usize)
    ensures
        w == utf8_width(c),
{
    let u = c as u32;
    if u < 0x80 {
        1
    } else if u < 0x800 {
        2
    } else if u < 0x10000 {
        3
    } else {
        4
    }
}

/// The position of the first space in `cs` from `start` on, before `end`, or
/// `end`.
fn find_space(cs: &Vec<char>, start: usize, end: usize) -> (d: usize)
    requires
        start <= end <= cs@.len(),
    ensures
        start <= d <= end,
        d - start == space_index(cs@.subrange(start as int, end as int)),
{
    let mut d = start;
    while d < end && cs[d] != ' '
        invariant
            start <= d <= end <= cs@.len(),
            forall|i: int| start <= i < d ==> cs@[i] != ' ',
        decreases end - d,
    {
        d += 1;
    }
    proof {
        let val = cs@.subrange(start as int, end as int);
        assert forall|i: int| 0 <= i < d - start implies val[i] != ' ' by {
            assert(val[i] == cs@[start + i]);
        }
        if d < end {
            assert(val[d - start] == cs@[d as int]);
        }
        lemma_space_index(val, d - start);
    }
    d
}

/// Where `n` bytes of UTF-8 after position `rs` end, if they end on a
/// character before `end`.
fn prefix_end(cs: &Vec<char>, rs: usize, end: usize, n: usize) -> (res: Option<usize>)
    requires
        rs <= end <= cs@.len(),
    ensures
        match prefix_for_bytes(cs@.subrange(rs as int, end as int), n as nat) {
            Some(k) => res == Some((rs + k) as usize) && rs + k <= end,
            None => res is None,
        },
{
    let ghost rest = cs@.subrange(rs as int, end as int);
    let mut j = rs;
    let mut acc: usize = 0;
    while acc < n
        invariant
            rs <= j <= end <= cs@.len(),
            acc <= n,
            rest == cs@.subrange(rs as int, end as int),
            prefix_for_bytes(rest, n as nat) == (match prefix_for_bytes(
                cs@.subrange(j as int, end as int),
                (n - acc) as nat,
            ) {
                Some(k) => Some((k + (j - rs)) as nat),
                None => None,
            }),
        decreases n - acc,
    {
        let ghost sub = cs@.subrange(j as int, end as int);
        if j >= end {
            assert(sub.len() == 0);
            return None;
        }
        let w = width(cs[j]);
        assert(sub[0] == cs@[j as int]);
        if w > n - acc {
            return None;
        }
        assert(sub.subrange(1, sub.len() as int) =~= cs@.subrange(j + 1, end as int));
        acc = acc + w;
        j = j + 1;
    }
    assert(prefix_for_bytes(cs@.subrange(j as int, end as int), 0) == Some(0nat));
    Some(j)
}

/// The window `start..end` of `cs` without its leading and trailing
/// whitespace.
fn trim_window(cs: &Vec<char>, start: usize, end: usize) -> (res: (usize, usize))
    requires
        start <= end <= cs@.len(),
    ensures
        start <= res.0 <= res.1 <= end,
        cs@.subrange(res.0 as int, res.1 as int) == kvp_trim(cs@.subrange(start as int, end as int)),
{
    let mut a = start;
    while a < end && is_ws(cs[a])
        invariant
            start <= a <= end <= cs@.len(),
            lead_ws(cs@.subrange(start as int, end as int)) == (a - start) + lead_ws(
                cs@.subrange(a as int, end as int),
            ),
        decreases end - a,
    {
        let ghost sub = cs@.subrange(a as int, end as int);
        assert(sub[0] == cs@[a as int]);
        assert(sub.subrange(1, sub.len() as int) =~= cs@.subrange(a + 1, end as int));
        a += 1;
    }
    proof {
        let sub = cs@.subrange(a as int, end as int);
        if a < end {
            assert(sub[0] == cs@[a as int]);
        }
        assert(lead_ws(sub) == 0);
        let r = cs@.subrange(start as int, end as int);
        assert(r.subrange(lead_ws(r) as int, r.len() as int) =~= sub);
    }
    let mut b = end;
    while b > a && is_ws(cs[b - 1])
        invariant
            start <= a <= b <= end <= cs@.len(),
            trail_ws(cs@.subrange(a as int, end as int)) == (end - b) + trail_ws(
                cs@.subrange(a as int, b as int),
            ),
        decreases b - a,
    {
        let ghost sub = cs@.subrange(a as int, b as int);
        assert(sub.last() == cs@[b - 1]);
        assert(sub.drop_last() =~= cs@.subrange(a as int, b - 1));
        b -= 1;
    }
    proof {
        let sub = cs@.subrange(a as int, b as int);
        if a < b {
            assert(sub.last() == cs@[b - 1]);
        }
        assert(trail_ws(sub) == 0);
        let t = cs@.subrange(a as int, end as int);
        assert(t.subrange(0, t.len() - trail_ws(t)) =~= sub);
    }
    (a, b)
}

/// The tokens of the characters `cs`, as `kvp_split` reads them.
#[verifier::rlimit(40)]
fn kvp_tokens(cs: &Vec<char>) -> (res: Option<Vec<String>>)
    ensures
        match kvp_split(cs@) {
            Some(t) => res matches Some(v) && token_view(v@) == t && v@.len() <= cs@.len(),
            None => res is None,
        },
{
    let mut out: Vec<String> = Vec::new();
    let mut start: usize = 0;
    let mut end: usize = cs.len();
    assert(cs@.subrange(0, cs@.len() as int) =~= cs@);
    assert(token_view(out@) =~= Seq::<Seq<char>>::empty());
    while start < end
        invariant
            start <= end <= cs@.len(),
            out@.len() <= start,
            kvp_split(cs@) == (match kvp_split(cs@.subrange(start as int, end as int)) {
                Some(t) => Some(token_view(out@) + t),
                None => None,
            }),
        decreases end - start,
    {
        let ghost val = cs@.subrange(start as int, end as int);
        let ghost before = token_view(out@);
        let d = find_space(cs, start, end);
        proof {
            lemma_split_step(val);
        }
        let rs = if d < end {
            d + 1
        } else {
            end
        };
        let ghost part = val.subrange(0, d - start);
        let ghost rest = after_space(val);
        assert(rest =~= cs@.subrange(rs as int, end as int));
        assert(part =~= cs@.subrange(start as int, d as int));
        let is_bracket = d == start + 1 && (cs[start] == '[' || cs[start] == ']');
        proof {
            if is_bracket {
                if cs@[start as int] == '[' {
                    assert(part =~= open_token());
                } else {
                    assert(part =~= close_token());
                }
            } else {
                if part.len() == 1 {
                    assert(part[0] == cs@[start as int]);
                }
                assert(part != open_token());
                assert(part != close_token());
            }
        }
        if is_bracket {
            let token = string_of(cs, start, d);
            out.push(token);
            proof {
                assert(token_view(out@) =~= before.push(part));
                if let Some(t) = kvp_split(rest) {
                    assert(before + (seq![part] + t) =~= token_view(out@) + t);
                }
            }
            start = rs;
        } else {
            let text = string_of(cs, start, d);
            let n: usize = match parse_u64(text.as_str()) {
                Some(n) => {
                    if n <= usize::MAX as u64 {
                        n as usize
                    } else {
                        return None;
                    }
                },
                None => {
                    return None;
                },
            };
            assert(usize_parse(part) == Some(n as nat));
            let j = match prefix_end(cs, rs, end, n) {
                Some(j) => j,
                None => {
                    return None;
                },
            };
            let ghost k = (j - rs) as nat;
            assert(prefix_for_bytes(rest, n as nat) == Some(k));
            let token = string_of(cs, rs, j);
            assert(rest.subrange(0, k as int) =~= cs@.subrange(rs as int, j as int));
            out.push(token);
            let ghost r = rest.subrange(k as int, rest.len() as int);
            assert(r =~= cs@.subrange(j as int, end as int));
            let (a, b) = trim_window(cs, j, end);
            proof {
                assert(token_view(out@) =~= before.push(rest.subrange(0, k as int)));
                if let Some(t) = kvp_split(cs@.subrange(a as int, b as int)) {
                    assert(before + (seq![rest.subrange(0, k as int)] + t) =~= token_view(out@) + t);
                }
            }
            start = a;
            end = b;
        }
    }
    proof {
        assert(cs@.subrange(start as int, end as int) =~= Seq::<char>::empty());
        lemma_split_empty();
        assert(token_view(out@) + Seq::<Seq<char>>::empty() =~= token_view(out@));
    }
    Some(out)
}

/// Whether kvptree reads `bytes` without stopping, as `kvp_well_formed` states.
pub fn kvp_well_formed_check(bytes: &Vec<u8>) -> (res: bool)
    requires
        bytes@.len() <= usize::MAX / 2,
    ensures
        res == kvp_well_formed(bytes@),
{
    let text = match string_from_utf8(bytes.clone()) {
        Some(t) => t,
        None => {
            return true;
        },
    };
    proof {
        crate::text::lemma_decode_utf8_len(bytes@);
    }
    let cs = chars_of(text.as_str());
    match kvp_tokens(&cs) {
        None => false,
        Some(tokens) => {
            if tokens.len() == 0 {
                return false;
            }
            let rest = &tokens.as_slice()[1..tokens.len()];
            assert(token_view(rest@) =~= token_view(tokens@).subrange(1, tokens@.len() as int));
            parse_list(rest).is_some()
        },
    }
}

} // verus!
