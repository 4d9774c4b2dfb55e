//! What the packet format promises: a value written as a packet reads back as
//! the same tree.

use vstd::prelude::*;
use crate::packet::{
    close_token, entries_safe, entries_text, fold_entries, no_space, open_token, packet_bytes,
    packet_parse, packet_tokens, parse_from, split_from, split_spaces, value_safe, value_text, Tree,
    ValueType,
};

verus! {

/// The tokens written for a value, in order.
pub open spec fn value_tokens(v: ValueType) -> Seq<Seq<char>>
    decreases v,
{
    match v {
        ValueType::STRING(s) => seq![s@],
        ValueType::LIST(e) => seq![open_token()] + entries_tokens(e@) + seq![close_token()],
    }
}

/// The tokens written for list entries: each key followed by its value's tokens.
pub open spec fn entries_tokens(s: Seq<(String, ValueType)>) -> Seq<Seq<char>>
    decreases s,
{
    if s.len() == 0 {
        seq![]
    } else {
        seq![s[0].0@] + value_tokens(s[0].1) + entries_tokens(s.subrange(1, s.len() as int))
    }
}

/// Tokens joined with single spaces.
pub open spec fn join_tokens(ts: Seq<Seq<char>>) -> Seq<char>
    decreases ts.len(),
{
    if ts.len() == 0 {
        seq![]
    } else if ts.len() == 1 {
        ts[0]
    } else {
        ts[0] + seq![' '] + join_tokens(ts.subrange(1, ts.len() as int))
    }
}

/// No token of `ts` holds a space.
pub open spec fn tokens_no_space(ts: Seq<Seq<char>>) -> bool {
    forall|i: int| 0 <= i < ts.len() ==> no_space(#[trigger] ts[i])
}

proof fn lemma_join_append(a: Seq<Seq<char>>, b: Seq<Seq<char>>)
    requires
        a.len() > 0,
        b.len() > 0,
    ensures
        join_tokens(a + b) == join_tokens(a) + seq![' '] + join_tokens(b),
    decreases a.len(),
{
    let ab = a + b;
    assert(ab.subrange(1, ab.len() as int) =~= a.subrange(1, a.len() as int) + b);
    if a.len() == 1 {
        assert(a.subrange(1, a.len() as int) + b =~= b);
    } else {
        lemma_join_append(a.subrange(1, a.len() as int), b);
        assert(join_tokens(a + b) =~= a[0] + seq![' '] + (join_tokens(a.subrange(1, a.len() as int))
            + seq![' '] + join_tokens(b)));
    }
}

proof fn lemma_value_text(v: ValueType)
    ensures
        value_text(v) == join_tokens(value_tokens(v)),
        value_tokens(v).len() > 0,
    decreases v,
{
    match v {
        ValueType::STRING(s) => {},
        ValueType::LIST(e) => {
            lemma_entries_text(e@);
            let et = entries_tokens(e@);
            let open = seq![open_token()];
            let close = seq![close_token()];
            if e@.len() == 0 {
                assert(value_tokens(v) =~= seq![open_token(), close_token()]);
                assert(value_tokens(v).subrange(1, 2) =~= close);
                assert(join_tokens(close) == close_token());
                assert(join_tokens(value_tokens(v)) =~= open_token() + seq![' '] + close_token());
                assert(entries_text(e@) =~= Seq::<char>::empty());
                assert(value_text(v) =~= join_tokens(value_tokens(v)));
            } else {
                lemma_join_append(open, et + close);
                lemma_join_append(et, close);
                assert(open + et + close =~= open + (et + close));
                assert(join_tokens(open) == open_token());
                assert(join_tokens(close) == close_token());
                assert(value_text(v) =~= join_tokens(value_tokens(v)));
            }
        },
    }
}

proof fn lemma_entries_text(s: Seq<(String, ValueType)>)
    ensures
        s.len() == 0 ==> entries_text(s) == Seq::<char>::empty() && entries_tokens(s).len() == 0,
        s.len() > 0 ==> entries_text(s) == seq![' '] + join_tokens(entries_tokens(s))
            && entries_tokens(s).len() > 0,
    decreases s,
{
    if s.len() > 0 {
        let rest = s.subrange(1, s.len() as int);
        lemma_value_text(s[0].1);
        lemma_entries_text(rest);
        let k = seq![s[0].0@];
        let vt = value_tokens(s[0].1);
        let rt = entries_tokens(rest);
        lemma_join_append(k, vt);
        assert(join_tokens(k) == s[0].0@);
        if rest.len() == 0 {
            assert(k + vt + rt =~= k + vt);
            assert(entries_text(s) =~= seq![' '] + join_tokens(entries_tokens(s)));
        } else {
            lemma_join_append(k + vt, rt);
            assert(entries_text(s) =~= seq![' '] + join_tokens(entries_tokens(s)));
        }
    }
}

proof fn lemma_split_word(w: Seq<char>, done: Seq<Seq<char>>, cur: Seq<char>)
    requires
        no_space(w),
    ensures
        split_from(w, done, cur) == done.push(cur + w),
    decreases w.len(),
{
    if w.len() == 0 {
        assert(cur + w =~= cur);
    } else {
        let r = w.subrange(1, w.len() as int);
        lemma_split_word(r, done, cur.push(w[0]));
        assert(cur.push(w[0]) + r =~= cur + w);
    }
}

proof fn lemma_split_word_space(
    w: Seq<char>,
    r: Seq<char>,
    done: Seq<Seq<char>>,
    cur: Seq<char>,
)
    requires
        no_space(w),
    ensures
        split_from(w + seq![' '] + r, done, cur) == split_from(r, done.push(cur + w), seq![]),
    decreases w.len(),
{
    let x = w + seq![' '] + r;
    if w.len() == 0 {
        assert(x.subrange(1, x.len() as int) =~= r);
        assert(cur + w =~= cur);
    } else {
        let w2 = w.subrange(1, w.len() as int);
        assert(x.subrange(1, x.len() as int) =~= w2 + seq![' '] + r);
        lemma_split_word_space(w2, r, done, cur.push(w[0]));
        assert(cur.push(w[0]) + w2 =~= cur + w);
    }
}

proof fn lemma_split_join(ts: Seq<Seq<char>>, done: Seq<Seq<char>>)
    requires
        ts.len() > 0,
        tokens_no_space(ts),
    ensures
        split_from(join_tokens(ts), done, seq![]) == done + ts,
    decreases ts.len(),
{
    assert(no_space(ts[0]));
    assert(Seq::<char>::empty() + ts[0] =~= ts[0]);
    if ts.len() == 1 {
        lemma_split_word(ts[0], done, seq![]);
        assert(done.push(ts[0]) =~= done + ts);
    } else {
        let rest = ts.subrange(1, ts.len() as int);
        assert(tokens_no_space(rest)) by {
            assert forall|i: int| 0 <= i < rest.len() implies no_space(#[trigger] rest[i]) by {
                assert(rest[i] == ts[i + 1]);
            }
        }
        lemma_split_word_space(ts[0], join_tokens(rest), done, seq![]);
        lemma_split_join(rest, done.push(ts[0]));
        assert(done.push(ts[0]) + rest =~= done + ts);
    }
}

proof fn lemma_tokens_concat(a: Seq<Seq<char>>, b: Seq<Seq<char>>)
    requires
        tokens_no_space(a),
        tokens_no_space(b),
    ensures
        tokens_no_space(a + b),
{
    assert forall|i: int| 0 <= i < (a + b).len() implies no_space(#[trigger] (a + b)[i]) by {
        if i < a.len() {
            assert((a + b)[i] == a[i]);
        } else {
            assert((a + b)[i] == b[i - a.len()]);
        }
    }
}

proof fn lemma_value_tokens_no_space(v: ValueType)
    requires
        value_safe(v),
    ensures
        tokens_no_space(value_tokens(v)),
    decreases v,
{
    match v {
        ValueType::STRING(s) => {
            assert(value_tokens(v)[0] == s@);
        },
        ValueType::LIST(e) => {
            lemma_entries_tokens_no_space(e@);
            let open = seq![open_token()];
            let close = seq![close_token()];
            assert(tokens_no_space(open)) by {
                assert(open[0] == open_token());
            }
            assert(tokens_no_space(close)) by {
                assert(close[0] == close_token());
            }
            lemma_tokens_concat(open, entries_tokens(e@));
            lemma_tokens_concat(open + entries_tokens(e@), close);
        },
    }
}

proof fn lemma_entries_tokens_no_space(s: Seq<(String, ValueType)>)
    requires
        entries_safe(s),
    ensures
        tokens_no_space(entries_tokens(s)),
    decreases s,
{
    if s.len() > 0 {
        let rest = s.subrange(1, s.len() as int);
        lemma_value_tokens_no_space(s[0].1);
        lemma_entries_tokens_no_space(rest);
        let k = seq![s[0].0@];
        assert(tokens_no_space(k)) by {
            assert(k[0] == s[0].0@);
        }
        lemma_tokens_concat(k, value_tokens(s[0].1));
        lemma_tokens_concat(k + value_tokens(s[0].1), entries_tokens(rest));
    }
}

proof fn lemma_parse_entries(s: Seq<(String, ValueType)>, t: Seq<Seq<char>>, i: nat, m: Map<Seq<char>, Tree>)
    requires
        entries_safe(s),
        i + entries_tokens(s).len() < t.len(),
        t.subrange(i as int, i + entries_tokens(s).len() as int) == entries_tokens(s),
        t[i + entries_tokens(s).len() as int] == close_token(),
    ensures
        parse_from(t, i, m) == Some((i + entries_tokens(s).len(), fold_entries(m, s))),
    decreases entries_tokens(s).len(),
{
    let n = entries_tokens(s).len() as int;
    let ii = i as int;
    if s.len() == 0 {
        assert(t[i as int] == close_token());
    } else {
        let k = s[0].0@;
        let v0 = s[0].1;
        let rest = s.subrange(1, s.len() as int);
        let vt = value_tokens(v0);
        let rt = entries_tokens(rest);
        let et = entries_tokens(s);
        assert(et == seq![k] + vt + rt);
        lemma_value_text(v0);
        assert(t[i as int] == et[0]);
        assert(et[0] == k);
        assert(k != close_token());
        assert(value_safe(v0));
        assert(entries_safe(rest));
        match v0 {
            ValueType::STRING(w) => {
                assert(vt =~= seq![w@]);
                assert(t[i + 1 as int] == et[1]);
                assert(et[1] == w@);
                assert(w@ != open_token());
                let m2 = m.insert(k, Tree::Str(w@));
                assert(rt.len() == n - 2);
                assert(t.subrange(ii + 2, ii + 2 + rt.len()) =~= rt) by {
                    assert forall|j: int| 0 <= j < rt.len() implies #[trigger] t.subrange(
                        ii + 2,
                        ii + 2 + rt.len(),
                    )[j] == rt[j] by {
                        assert(t[ii + 2 + j] == t.subrange(ii, ii + n)[2 + j]);
                        assert(et[2 + j] == rt[j]);
                    }
                }
                lemma_parse_entries(rest, t, i + 2, m2);
                assert(v0.model() == Tree::Str(w@));
            },
            ValueType::LIST(e0) => {
                let ie = entries_tokens(e0@);
                assert(vt == seq![open_token()] + ie + seq![close_token()]);
                assert(t[i + 1 as int] == et[1]);
                assert(et[1] == open_token());
                let t2 = t.subrange(i + 2 as int, t.len() as int);
                assert(t2.subrange(0, ie.len() as int) =~= ie) by {
                    assert forall|j: int| 0 <= j < ie.len() implies #[trigger] t2.subrange(
                        0,
                        ie.len() as int,
                    )[j] == ie[j] by {
                        assert(t2[j] == t[ii + 2 + j]);
                        assert(t[ii + 2 + j] == t.subrange(ii, ii + n)[2 + j]);
                        assert(et[2 + j] == ie[j]);
                    }
                }
                assert(t2[ie.len() as int] == close_token()) by {
                    assert(t2[ie.len() as int] == t[ii + 2 + ie.len()]);
                    assert(t[ii + 2 + ie.len()] == t.subrange(ii, ii + n)[2 + ie.len() as int]);
                    assert(et[2 + ie.len() as int] == close_token());
                }
                assert(entries_safe(e0@));
                lemma_parse_entries(e0@, t2, 0, Map::empty());
                let sub = fold_entries(Map::empty(), e0@);
                let next: nat = i + 3 + ie.len();
                let ni = next as int;
                let m2 = m.insert(k, Tree::List(sub));
                assert(v0.model() == Tree::List(sub));
                assert(rt.len() == n - 3 - ie.len());
                assert(t.subrange(ni, ni + rt.len()) =~= rt) by {
                    assert forall|j: int| 0 <= j < rt.len() implies #[trigger] t.subrange(
                        ni,
                        ni + rt.len(),
                    )[j] == rt[j] by {
                        assert(t[ni + j] == t.subrange(ii, ii + n)[3 + ie.len() + j]);
                        assert(et[3 + ie.len() + j] == rt[j]);
                    }
                }
                lemma_parse_entries(rest, t, next, m2);
            },
        }
    }
}

/// A list whose keys and words hold no space, whose keys are never `]` and
/// whose words are never `[` is written as a packet that is valid UTF-8 and
/// reads back as the same tree.
pub proof fn lemma_packet_roundtrip(v: ValueType)
    requires
        v is LIST,
        value_safe(v),
    ensures
        vstd::utf8::valid_utf8(packet_bytes(v)),
        packet_parse(packet_bytes(v)) matches Some((_, m)) && Tree::List(m) == v@,
{
    let e = v->LIST_0;
    let text = value_text(v);
    vstd::utf8::encode_utf8_valid_utf8(text);
    vstd::utf8::encode_utf8_decode_utf8(text);
    lemma_value_text(v);
    lemma_value_tokens_no_space(v);
    let vt = value_tokens(v);
    lemma_split_join(vt, seq![]);
    assert(Seq::<Seq<char>>::empty() + vt =~= vt);
    assert(packet_tokens(packet_bytes(v)) == vt);
    let et = entries_tokens(e@);
    let t = vt.subrange(1, vt.len() as int);
    assert(t =~= et + seq![close_token()]);
    assert(t.subrange(0, et.len() as int) =~= et);
    lemma_parse_entries(e@, t, 0, Map::empty());
}

/// A copy of a safe list (as `clone` makes one: the same text, entry for
/// entry) is written as the same packet, which reads back as the original
/// tree.
pub proof fn lemma_packet_roundtrip_copy(v: ValueType, c: ValueType)
    requires
        v is LIST,
        value_safe(v),
        value_text(c) == value_text(v),
    ensures
        packet_bytes(c) == packet_bytes(v),
        vstd::utf8::valid_utf8(packet_bytes(c)),
        packet_parse(packet_bytes(c)) matches Some((_, m)) && Tree::List(m) == v@,
{
    lemma_packet_roundtrip(v);
}

} // verus!
