//! The space-separated tree format that client and server exchange.
//!
//! A packet is UTF-8 text of tokens separated by single spaces:
//! `[ key value key [ key value ] ]`. A list holds key/value pairs, and a
//! value is either a word or another list.

use vstd::prelude::*;
use vstd::std_specs::iter::IteratorSpec;
use vstd::string::*;
use vstd::std_specs::cmp::PartialEqSpecImpl;
use crate::text::{push_char, string_from_utf8};

verus! {

/// The abstract content of a packet value: a word, or a map from keys to values.
pub enum Tree {
    Str(Seq<char>),
    List(Map<Seq<char>, Tree>),
}

/// A packet value. A list keeps its entries in order. It stands for a map:
/// the lists that the library reads and builds hold each key once
/// (`keys_distinct`), and writing one asks for that; where a key occurs more
/// than once, the last entry for it counts, as with repeated map insertion.
#[derive(Debug)]
pub enum ValueType {
    STRING(String),
    LIST(Vec<(String, ValueType)>),
}

impl ValueType {
    /// The abstract tree that this value stands for.
    pub open spec fn model(self) -> Tree
        decreases self,
    {
        match self {
            ValueType::STRING(s) => Tree::Str(s@),
            ValueType::LIST(entries) => Tree::List(fold_entries(Map::empty(), entries@)),
        }
    }
}

impl View for ValueType {
    type V = Tree;

    open spec fn view(&self) -> Tree {
        self.model()
    }
}

/// Inserts the entries of `s` into `m` from first to last.
pub open spec fn fold_entries(m: Map<Seq<char>, Tree>, s: Seq<(String, ValueType)>) -> Map<
    Seq<char>,
    Tree,
>
    decreases s,
{
    if s.len() == 0 {
        m
    } else {
        fold_entries(m.insert(s[0].0@, s[0].1.model()), s.subrange(1, s.len() as int))
    }
}

/// The token that opens a list.
pub open spec fn open_token() -> Seq<char> {
    seq!['[']
}

/// The token that closes a list.
pub open spec fn close_token() -> Seq<char> {
    seq![']']
}

/// Splits `text` at every space, as `str::split(' ')` does; `done` holds the
/// pieces already cut off and `cur` the piece being read.
pub open spec fn split_from(text: Seq<char>, done: Seq<Seq<char>>, cur: Seq<char>) -> Seq<
    Seq<char>,
>
    decreases text.len(),
{
    if text.len() == 0 {
        done.push(cur)
    } else if text[0] == ' ' {
        split_from(text.subrange(1, text.len() as int), done.push(cur), seq![])
    } else {
        split_from(text.subrange(1, text.len() as int), done, cur.push(text[0]))
    }
}

/// The pieces of `text` between single spaces (always at least one).
pub open spec fn split_spaces(text: Seq<char>) -> Seq<Seq<char>> {
    split_from(text, seq![], seq![])
}

/// Reads key/value pairs of `t` from position `i` on, inserting them into `m`,
/// until a closing token or the end. A value that is an opening token starts a
/// nested list, read from the position after it. The result is the position
/// where reading stopped and the map; `None` where a key has no value after
/// it, the one input the reader cannot handle.
pub open spec fn parse_from(t: Seq<Seq<char>>, i: nat, m: Map<Seq<char>, Tree>) -> Option<
    (nat, Map<Seq<char>, Tree>),
>
    decreases t.len() - i,
{
    if i >= t.len() {
        Some((i, m))
    } else if t[i as int] == close_token() {
        Some((i, m))
    } else if i + 1 >= t.len() {
        None
    } else if t[i + 1 as int] == open_token() {
        match parse_from(t.subrange(i + 2 as int, t.len() as int), 0, Map::empty()) {
            None => None,
            Some((j, sub)) => {
                let next = i + 3 + j;
                let m2 = m.insert(t[i as int], Tree::List(sub));
                if next >= t.len() {
                    Some((next, m2))
                } else {
                    parse_from(t, next, m2)
                }
            },
        }
    } else {
        let m2 = m.insert(t[i as int], Tree::Str(t[i + 1 as int]));
        if i + 2 >= t.len() {
            Some((i + 2, m2))
        } else {
            parse_from(t, i + 2, m2)
        }
    }
}

/// The tokens of a packet: its UTF-8 text split at spaces.
pub open spec fn packet_tokens(bytes: Seq<u8>) -> Seq<Seq<char>> {
    split_spaces(vstd::utf8::decode_utf8(bytes))
}

/// Reading a packet: the first token is passed over, and the rest is read as
/// the entries of the root list.
pub open spec fn packet_parse(bytes: Seq<u8>) -> Option<(nat, Map<Seq<char>, Tree>)> {
    let t = packet_tokens(bytes);
    parse_from(t.subrange(1, t.len() as int), 0, Map::empty())
}

/// The text written for a value: a word as it is, a list as `[`, its entries
/// and ` ]`.
pub open spec fn value_text(v: ValueType) -> Seq<char>
    decreases v,
{
    match v {
        ValueType::STRING(s) => s@,
        ValueType::LIST(e) => seq!['['] + entries_text(e@) + seq![' ', ']'],
    }
}

/// The text written for list entries: ` key value` for each.
pub open spec fn entries_text(s: Seq<(String, ValueType)>) -> Seq<char>
    decreases s,
{
    if s.len() == 0 {
        seq![]
    } else {
        seq![' '] + s[0].0@ + seq![' '] + value_text(s[0].1) + entries_text(
            s.subrange(1, s.len() as int),
        )
    }
}

/// The bytes of a packet holding `v`.
pub open spec fn packet_bytes(v: ValueType) -> Seq<u8> {
    vstd::utf8::encode_utf8(value_text(v))
}

/// No space in `w`.
pub open spec fn no_space(w: Seq<char>) -> bool {
    forall|i: int| 0 <= i < w.len() ==> w[i] != ' '
}

/// A value that reads back as written: no key or word holds a space, no key is
/// a closing token and no word is an opening token.
pub open spec fn value_safe(v: ValueType) -> bool
    decreases v,
{
    match v {
        ValueType::STRING(s) => no_space(s@) && s@ != open_token(),
        ValueType::LIST(e) => entries_safe(e@),
    }
}

/// Every entry of `s` is safe in the sense of `value_safe`.
pub open spec fn entries_safe(s: Seq<(String, ValueType)>) -> bool
    decreases s,
{
    s.len() == 0 || (no_space(s[0].0@) && s[0].0@ != close_token() && value_safe(s[0].1)
        && entries_safe(s.subrange(1, s.len() as int)))
}

/// The characters of each token.
pub open spec fn token_view(ts: Seq<String>) -> Seq<Seq<char>> {
    ts.map_values(|s: String| s@)
}

/// Whether `s` is the one-character token `c`.
fn is_token(s: &String, c: char) -> (b: bool)
    ensures
        b == (s@ == seq![c]),
{
    let st = s.as_str();
    if st.unicode_len() == 1 {
        let d = st.get_char(0);
        if d == c {
            assert(s@ =~= seq![c]);
            true
        } else {
            false
        }
    } else {
        false
    }
}

/// Splits `text` at every space.
fn split_tokens(text: &String) -> (res: Vec<String>)
    ensures
        token_view(res@) == split_spaces(text@),
        1 <= res.len() <= text@.len() + 1,
{
    broadcast use vstd::string::next_postcondition, vstd::string::axiom_spec_iter;

    let st = text.as_str();
    let mut it = st.chars();
    assert(it.remaining() == st@);
    let mut done: Vec<String> = Vec::new();
    let mut cur = String::new();
    let ghost mut pos: int = 0;
    assert(text@.subrange(0, text@.len() as int) =~= text@);
    assert(token_view(done@) =~= Seq::<Seq<char>>::empty());
    loop
        invariant
            0 <= pos <= text@.len(),
            it.obeys_prophetic_iter_laws(),
            it.remaining() == text@.subrange(pos, text@.len() as int),
            split_from(it.remaining(), token_view(done@), cur@) == split_spaces(text@),
            done.len() <= pos,
        ensures
            it.remaining().len() == 0,
        decreases text@.len() - pos,
    {
        let ghost rem = it.remaining();
        match it.next() {
            Some(c) => {
                assert(rem[0] == c);
                assert(rem.subrange(1, rem.len() as int) =~= text@.subrange(pos + 1, text@.len() as int));
                if c == ' ' {
                    let ghost dv = token_view(done@);
                    done.push(cur);
                    assert(token_view(done@) =~= dv.push(cur@));
                    cur = String::new();
                } else {
                    push_char(&mut cur, c);
                }
                proof {
                    pos = pos + 1;
                }
            },
            None => {
                break;
            },
        }
    }
    let ghost dv = token_view(done@);
    done.push(cur);
    assert(token_view(done@) =~= dv.push(cur@));
    done
}

/// Inserting the entries of `s` and then `x` is inserting `s` with `x` pushed.
pub proof fn lemma_fold_push(m: Map<Seq<char>, Tree>, s: Seq<(String, ValueType)>, x: (String, ValueType))
    ensures
        fold_entries(m, s.push(x)) == fold_entries(m, s).insert(x.0@, x.1.model()),
    decreases s.len(),
{
    let sx = s.push(x);
    if s.len() == 0 {
        assert(sx[0] == x);
        assert(sx.subrange(1, sx.len() as int) =~= Seq::<(String, ValueType)>::empty());
        assert(fold_entries(m, sx) == fold_entries(m.insert(x.0@, x.1.model()), Seq::<(String, ValueType)>::empty()));
    } else {
        let m2 = m.insert(s[0].0@, s[0].1.model());
        let rest = s.subrange(1, s.len() as int);
        assert(s.push(x).subrange(1, s.len() + 1 as int) =~= rest.push(x));
        lemma_fold_push(m2, rest, x);
    }
}

/// No two entries of `s` have the same key.
pub open spec fn entries_distinct(s: Seq<(String, ValueType)>) -> bool {
    forall|i: int, j: int| 0 <= i < j < s.len() ==> #[trigger] s[i].0@ != #[trigger] s[j].0@
}

/// At every depth of `v`, no two entries of a list have the same key, as in
/// a map.
pub open spec fn keys_distinct(v: ValueType) -> bool
    decreases v,
{
    match v {
        ValueType::STRING(_) => true,
        ValueType::LIST(e) => entries_distinct(e@) && values_distinct(e@),
    }
}

/// No value among the entries of `s` has repeated keys at any depth.
pub open spec fn values_distinct(s: Seq<(String, ValueType)>) -> bool
    decreases s,
{
    s.len() == 0 || (keys_distinct(s[0].1) && values_distinct(s.subrange(1, s.len() as int)))
}

/// `values_distinct` holds exactly when every value has no repeated keys.
pub proof fn lemma_values_distinct(s: Seq<(String, ValueType)>)
    ensures
        values_distinct(s) == forall|i: int| 0 <= i < s.len() ==> #[trigger] keys_distinct(s[i].1),
    decreases s.len(),
{
    if s.len() > 0 {
        let rest = s.subrange(1, s.len() as int);
        lemma_values_distinct(rest);
        if forall|i: int| 0 <= i < s.len() ==> #[trigger] keys_distinct(s[i].1) {
            assert forall|i: int| 0 <= i < rest.len() implies #[trigger] keys_distinct(rest[i].1) by {
                assert(rest[i] == s[i + 1]);
            }
            assert(keys_distinct(s[0].1));
            assert(values_distinct(s));
        }
        if values_distinct(s) {
            assert forall|i: int| 0 <= i < s.len() implies #[trigger] keys_distinct(s[i].1) by {
                if i > 0 {
                    assert(s[i] == rest[i - 1]);
                }
            }
        }
    }
}

/// Inserting entries whose keys are not `k` commutes with inserting `k`.
proof fn lemma_fold_insert_other(m: Map<Seq<char>, Tree>, s: Seq<(String, ValueType)>, k: Seq<char>, v: Tree)
    requires
        forall|i: int| 0 <= i < s.len() ==> #[trigger] s[i].0@ != k,
    ensures
        fold_entries(m.insert(k, v), s) == fold_entries(m, s).insert(k, v),
    decreases s.len(),
{
    if s.len() > 0 {
        let rest = s.subrange(1, s.len() as int);
        assert(s[0].0@ != k);
        assert(m.insert(k, v).insert(s[0].0@, s[0].1.model()) =~= m.insert(s[0].0@, s[0].1.model()).insert(k, v));
        assert forall|i: int| 0 <= i < rest.len() implies #[trigger] rest[i].0@ != k by {
            assert(rest[i] == s[i + 1]);
        }
        lemma_fold_insert_other(m.insert(s[0].0@, s[0].1.model()), rest, k, v);
    }
}

/// Replacing the entry of a key in a list without repeated keys is inserting
/// the new value for that key.
proof fn lemma_fold_update(m: Map<Seq<char>, Tree>, s: Seq<(String, ValueType)>, j: int, x: (String, ValueType))
    requires
        entries_distinct(s),
        0 <= j < s.len(),
        s[j].0@ == x.0@,
    ensures
        fold_entries(m, s.update(j, x)) == fold_entries(m, s).insert(x.0@, x.1.model()),
    decreases s.len(),
{
    let su = s.update(j, x);
    let rest = s.subrange(1, s.len() as int);
    assert forall|i: int| 0 <= i < rest.len() implies #[trigger] rest[i].0@ != s[0].0@ by {
        assert(rest[i] == s[i + 1]);
        assert(s[0].0@ != s[i + 1].0@);
    }
    if j == 0 {
        assert(su[0] == x);
        assert(su.subrange(1, su.len() as int) =~= rest);
        lemma_fold_insert_other(m, rest, x.0@, x.1.model());
        lemma_fold_insert_other(m, rest, x.0@, s[0].1.model());
        assert(fold_entries(m, rest).insert(x.0@, s[0].1.model()).insert(x.0@, x.1.model())
            =~= fold_entries(m, rest).insert(x.0@, x.1.model()));
    } else {
        assert(su[0] == s[0]);
        assert(su.subrange(1, su.len() as int) =~= rest.update(j - 1, x));
        assert(entries_distinct(rest)) by {
            assert forall|a: int, b: int| 0 <= a < b < rest.len() implies #[trigger] rest[a].0@
                != #[trigger] rest[b].0@ by {
                assert(rest[a] == s[a + 1] && rest[b] == s[b + 1]);
            }
        }
        assert(rest[j - 1] == s[j]);
        lemma_fold_update(m.insert(s[0].0@, s[0].1.model()), rest, j - 1, x);
    }
}

/// A list has no repeated keys at any depth when its own keys are distinct and
/// each of its values has none.
pub proof fn lemma_keys_distinct_list(e: Vec<(String, ValueType)>)
    requires
        entries_distinct(e@),
        forall|i: int| 0 <= i < e@.len() ==> #[trigger] keys_distinct(e@[i].1),
    ensures
        keys_distinct(ValueType::LIST(e)),
{
    lemma_values_distinct(e@);
    let v = ValueType::LIST(e);
    assert(values_distinct(e@));
    assert(entries_distinct(e@));
    assert(keys_distinct(v) == (entries_distinct(e@) && values_distinct(e@)));
}

/// Stores an entry in a list without repeated keys as a map insertion does:
/// it replaces the entry with the same key, or is added at the end.
fn store_entry(map: &mut Vec<(String, ValueType)>, x: (String, ValueType))
    requires
        entries_distinct(old(map)@),
        forall|i: int| 0 <= i < old(map)@.len() ==> #[trigger] keys_distinct(old(map)@[i].1),
        keys_distinct(x.1),
    ensures
        fold_entries(Map::empty(), final(map)@) == fold_entries(Map::empty(), old(map)@).insert(
            x.0@,
            x.1.model(),
        ),
        entries_distinct(final(map)@),
        forall|i: int| 0 <= i < final(map)@.len() ==> #[trigger] keys_distinct(final(map)@[i].1),
{
    match find_last(map, &x.0) {
        Some(j) => {
            proof {
                lemma_fold_update(Map::empty(), map@, j as int, x);
            }
            map.set(j, x);
            assert forall|i: int| 0 <= i < map@.len() implies #[trigger] keys_distinct(map@[i].1) by {
                if i != j {
                    assert(map@[i] == old(map)@[i]);
                }
            }
            assert forall|a: int, b: int| 0 <= a < b < map@.len() implies #[trigger] map@[a].0@
                != #[trigger] map@[b].0@ by {
                assert(old(map)@[a].0@ != old(map)@[b].0@);
            }
        },
        None => {
            proof {
                lemma_fold_push(Map::empty(), map@, x);
            }
            let ghost before = map@;
            map.push(x);
            assert forall|i: int| 0 <= i < map@.len() implies #[trigger] keys_distinct(map@[i].1) by {
                if i < before.len() {
                    assert(map@[i] == before[i]);
                }
            }
            assert forall|a: int, b: int| 0 <= a < b < map@.len() implies #[trigger] map@[a].0@
                != #[trigger] map@[b].0@ by {
                if b == before.len() {
                    assert(map@[a] == before[a]);
                    assert(!(0 <= a < before.len() && before[a].0@ == x.0@));
                } else {
                    assert(map@[a] == before[a] && map@[b] == before[b]);
                }
            }
        },
    }
}

/// Reads list entries from `data` until a closing token or the end, as
/// `parse_from` describes; returns the position where reading stopped and the
/// entries in the order read, or `None` where a key has no value after it.
pub(crate) fn parse_list(data: &[String]) -> (res: Option<(usize, Vec<(String, ValueType)>)>)
    requires
        data@.len() <= usize::MAX / 2,
    ensures
        res is Some <==> parse_from(token_view(data@), 0, Map::empty()) is Some,
        res matches Some(r) ==> parse_from(token_view(data@), 0, Map::empty()) == Some(
            (r.0 as nat, fold_entries(Map::empty(), r.1@)),
        ) && r.0 <= 2 * data@.len() && keys_distinct(ValueType::LIST(r.1)),
    decreases data@.len(),
{
    let ghost t = token_view(data@);
    let mut map: Vec<(String, ValueType)> = Vec::new();
    let mut index: usize = 0;
    while index < data.len()
        invariant
            t == token_view(data@),
            data@.len() <= usize::MAX / 2,
            index <= 2 * data@.len(),
            parse_from(t, index as nat, fold_entries(Map::empty(), map@)) == parse_from(
                t,
                0,
                Map::empty(),
            ),
            entries_distinct(map@),
            forall|i: int| 0 <= i < map@.len() ==> #[trigger] keys_distinct(map@[i].1),
        decreases 2 * data@.len() + 1 - index,
    {
        let ghost p = index as nat;
        let ghost m = fold_entries(Map::empty(), map@);
        let key = &data[index];
        assert(t[p as int] == key@);
        if is_token(key, ']') {
            proof {
                lemma_keys_distinct_list(map);
            }
            return Some((index, map));
        }
        index += 1;
        if index >= data.len() {
            return None;
        }
        let value = &data[index];
        assert(t[index as int] == value@);
        if is_token(value, '[') {
            let sub = &data[index + 1..data.len()];
            assert(token_view(sub@) =~= t.subrange((p + 2) as int, t.len() as int));
            let (i, val) = match parse_list(sub) {
                Some(r) => r,
                None => {
                    return None;
                },
            };
            let x = (key.clone(), ValueType::LIST(val));
            store_entry(&mut map, x);
            index += 1 + i;
        } else {
            let x = (key.clone(), ValueType::STRING(value.clone()));
            store_entry(&mut map, x);
        }
        index += 1;
    }
    proof {
        lemma_keys_distinct_list(map);
    }
    Some((index, map))
}

/// Why a packet could not be read.
#[derive(Debug, Clone, Copy, PartialEq, Eq)]
pub enum PacketError {
    /// The bytes are not valid UTF-8.
    InvalidUtf8,
}

/// Reads a packet: decodes the bytes as UTF-8, splits the text at spaces,
/// passes over the first token and reads the rest as the entries of the root
/// list.
pub fn from_packet(data: Vec<u8>) -> (res: Result<ValueType, PacketError>)
    requires
        data@.len() < usize::MAX / 2,
        vstd::utf8::valid_utf8(data@) ==> packet_parse(data@) is Some,
    ensures
        res is Ok <==> vstd::utf8::valid_utf8(data@),
        res matches Ok(v) ==> v is LIST && v@ == Tree::List(packet_parse(data@)->Some_0.1)
            && keys_distinct(v),
        res matches Err(e) ==> e == PacketError::InvalidUtf8,
{
    let ghost bytes = data@;
    let text = match string_from_utf8(data) {
        Some(text) => text,
        None => {
            return Err(PacketError::InvalidUtf8);
        },
    };
    proof {
        crate::text::lemma_decode_utf8_len(bytes);
    }
    let tokens = split_tokens(&text);
    let rest = &tokens.as_slice()[1..tokens.len()];
    assert(token_view(rest@) =~= packet_tokens(bytes).subrange(1, packet_tokens(bytes).len() as int));
    match parse_list(rest) {
        Some((_, map)) => Ok(ValueType::LIST(map)),
        None => Ok(ValueType::LIST(Vec::new())),
    }
}

/// Whether `from_packet` can read `data`: bytes that are not UTF-8 are
/// reported as such, and UTF-8 text must give every key a value.
pub fn packet_parses(data: &Vec<u8>) -> (res: bool)
    requires
        data@.len() < usize::MAX / 2,
    ensures
        res == (vstd::utf8::valid_utf8(data@) ==> packet_parse(data@) is Some),
{
    let ghost bytes = data@;
    let text = match string_from_utf8(data.clone()) {
        Some(text) => text,
        None => {
            return true;
        },
    };
    proof {
        crate::text::lemma_decode_utf8_len(bytes);
    }
    let tokens = split_tokens(&text);
    let rest = &tokens.as_slice()[1..tokens.len()];
    assert(token_view(rest@) =~= packet_tokens(bytes).subrange(1, packet_tokens(bytes).len() as int));
    parse_list(rest).is_some()
}

/// Writing entries one after another appends their texts.
pub proof fn lemma_entries_text_push(s: Seq<(String, ValueType)>, x: (String, ValueType))
    ensures
        entries_text(s.push(x)) == entries_text(s) + (seq![' '] + x.0@ + seq![' '] + value_text(
            x.1,
        )),
    decreases s.len(),
{
    let sx = s.push(x);
    if s.len() == 0 {
        assert(sx[0] == x);
        assert(sx.subrange(1, sx.len() as int) =~= Seq::<(String, ValueType)>::empty());
        assert(entries_text(Seq::<(String, ValueType)>::empty()) == Seq::<char>::empty());
        assert(entries_text(s) == Seq::<char>::empty());
        assert(entries_text(sx) =~= entries_text(s) + (seq![' '] + x.0@ + seq![' '] + value_text(
            x.1,
        )));
    } else {
        let rest = s.subrange(1, s.len() as int);
        assert(sx.subrange(1, sx.len() as int) =~= rest.push(x));
        lemma_entries_text_push(rest, x);
        assert(entries_text(sx) =~= entries_text(s) + (seq![' '] + x.0@ + seq![' '] + value_text(
            x.1,
        )));
    }
}

/// A list with one more entry is safe exactly when the list and the entry are.
pub proof fn lemma_entries_safe_push(s: Seq<(String, ValueType)>, x: (String, ValueType))
    ensures
        entries_safe(s.push(x)) == (entries_safe(s) && no_space(x.0@) && x.0@ != close_token()
            && value_safe(x.1)),
    decreases s.len(),
{
    let sx = s.push(x);
    if s.len() == 0 {
        assert(sx[0] == x);
        assert(sx.subrange(1, sx.len() as int) =~= Seq::<(String, ValueType)>::empty());
        assert(entries_safe(Seq::<(String, ValueType)>::empty()));
        assert(entries_safe(s));
    } else {
        let rest = s.subrange(1, s.len() as int);
        assert(sx.subrange(1, sx.len() as int) =~= rest.push(x));
        assert(sx[0] == s[0]);
        lemma_entries_safe_push(rest, x);
        assert(entries_safe(sx) == (no_space(s[0].0@) && s[0].0@ != close_token() && value_safe(s[0].1)
            && entries_safe(rest.push(x))));
    }
}

/// Writes list entries as `[ key value ... ]`.
fn write_list(map: &Vec<(String, ValueType)>) -> (res: String)
    ensures
        res@ == seq!['['] + entries_text(map@) + seq![' ', ']'],
    decreases map@,
{
    let mut string = String::new();
    push_char(&mut string, '[');
    let mut i: usize = 0;
    while i < map.len()
        invariant
            i <= map@.len(),
            string@ == seq!['['] + entries_text(map@.subrange(0, i as int)),
        decreases map@.len() - i,
    {
        let element = &map[i];
        proof {
            lemma_entries_text_push(map@.subrange(0, i as int), *element);
            assert(map@.subrange(0, i as int).push(*element) =~= map@.subrange(0, i + 1 as int));
        }
        let ghost before = string@;
        push_char(&mut string, ' ');
        string.append(element.0.as_str());
        push_char(&mut string, ' ');
        match &element.1 {
            ValueType::STRING(value) => {
                string.append(value.as_str());
            },
            ValueType::LIST(inner) => {
                assert(decreases_to!(map@ => inner@)) by {
                    assert(decreases_to!(map@ => map@[i as int]));
                    assert(decreases_to!(map@[i as int] => map@[i as int].1));
                };
                let written = write_list(inner);
                string.append(written.as_str());
            },
        }
        assert(string@ =~= before + (seq![' '] + element.0@ + seq![' '] + value_text(element.1)));
        i += 1;
    }
    push_char(&mut string, ' ');
    push_char(&mut string, ']');
    assert(map@.subrange(0, map@.len() as int) =~= map@);
    string
}

/// Writes a list value as packet bytes: its text encoded as UTF-8. Only a list
/// can stand at the root of a packet.
pub fn to_packet(data: ValueType) -> (res: Vec<u8>)
    requires
        data is LIST,
        keys_distinct(data),
    ensures
        res@ == packet_bytes(data),
{
    match data {
        ValueType::LIST(map) => {
            let string = write_list(&map);
            string.as_str().as_bytes_vec()
        },
        ValueType::STRING(_) => {
            Vec::new()
        },
    }
}

/// Some entry of `s` has key `k`.
pub open spec fn has_key(s: Seq<(String, ValueType)>, k: Seq<char>) -> bool {
    exists|j: int| 0 <= j < s.len() && #[trigger] s[j].0@ == k
}

/// Entry `j` is the last entry of `s` with key `k`.
pub open spec fn is_last_key(s: Seq<(String, ValueType)>, j: int, k: Seq<char>) -> bool {
    &&& 0 <= j < s.len()
    &&& s[j].0@ == k
    &&& forall|j2: int| j < j2 < s.len() ==> #[trigger] s[j2].0@ != k
}

/// The map of a list holds exactly its keys, each with the value of the last
/// entry that has it.
pub proof fn lemma_fold_lookup(s: Seq<(String, ValueType)>, k: Seq<char>)
    ensures
        fold_entries(Map::empty(), s).dom().contains(k) == has_key(s, k),
        forall|j: int|
            is_last_key(s, j, k) ==> fold_entries(Map::empty(), s)[k] == #[trigger] s[j].1.model(),
    decreases s.len(),
{
    if s.len() > 0 {
        let n = s.len() - 1;
        let s2 = s.subrange(0, n);
        let x = s[n];
        assert(s =~= s2.push(x));
        lemma_fold_push(Map::empty(), s2, x);
        lemma_fold_lookup(s2, k);
        if x.0@ == k {
            assert(s[n].0@ == k);
            assert forall|j: int| is_last_key(s, j, k) implies fold_entries(Map::empty(), s)[k]
                == #[trigger] s[j].1.model() by {
                assert(j == n);
            }
        } else {
            assert(has_key(s, k) == has_key(s2, k)) by {
                if has_key(s, k) {
                    let j = choose|j: int| 0 <= j < s.len() && #[trigger] s[j].0@ == k;
                    assert(s2[j].0@ == k);
                }
                if has_key(s2, k) {
                    let j = choose|j: int| 0 <= j < s2.len() && #[trigger] s2[j].0@ == k;
                    assert(s[j].0@ == k);
                }
            }
            assert forall|j: int| is_last_key(s, j, k) implies fold_entries(Map::empty(), s)[k]
                == #[trigger] s[j].1.model() by {
                assert(j < n);
                assert(is_last_key(s2, j, k));
                assert(s2[j] == s[j]);
            }
        }
    }
}

/// The position of the last entry with key `k`, if any.
pub(crate) fn find_last(s: &Vec<(String, ValueType)>, k: &String) -> (res: Option<usize>)
    ensures
        res matches Some(j) ==> is_last_key(s@, j as int, k@),
        res is None ==> !has_key(s@, k@),
{
    let mut i = s.len();
    while i > 0
        invariant
            i <= s@.len(),
            forall|j: int| i <= j < s@.len() ==> #[trigger] s@[j].0@ != k@,
        decreases i,
    {
        i -= 1;
        if s[i].0 == *k {
            return Some(i);
        }
    }
    None
}

impl ValueType {
    /// Whether both values stand for the same tree: two equal words, or two
    /// lists with the same keys whose values stand for the same trees.
    pub fn same_tree(&self, other: &ValueType) -> (res: bool)
        ensures
            res == (self@ == other@),
        decreases self,
    {
        match (self, other) {
            (ValueType::STRING(a), ValueType::STRING(b)) => {
                assert(self@ == Tree::Str(a@));
                assert(other@ == Tree::Str(b@));
                *a == *b
            },
            (ValueType::LIST(ea), ValueType::LIST(eb)) => {
                let ghost ma = fold_entries(Map::empty(), ea@);
                let ghost mb = fold_entries(Map::empty(), eb@);
                assert(self@ == Tree::List(ma));
                assert(other@ == Tree::List(mb));
                let mut i: usize = 0;
                while i < ea.len()
                    invariant
                        i <= ea@.len(),
                        *self == ValueType::LIST(*ea),
                        self@ == Tree::List(ma),
                        other@ == Tree::List(mb),
                        ma == fold_entries(Map::empty(), ea@),
                        mb == fold_entries(Map::empty(), eb@),
                        forall|j: int|
                            #![trigger ea@[j]]
                            0 <= j < i ==> mb.dom().contains(ea@[j].0@) && ma[ea@[j].0@] == mb[ea@[j].0@],
                    decreases ea@.len() - i,
                {
                    let key = &ea[i].0;
                    proof {
                        lemma_fold_lookup(ea@, key@);
                        lemma_fold_lookup(eb@, key@);
                    }
                    let ja = match find_last(ea, key) {
                        Some(j) => j,
                        None => {
                            assert(ea@[i as int].0@ == key@);
                            return false;
                        },
                    };
                    let jb = match find_last(eb, key) {
                        Some(j) => j,
                        None => {
                            assert(!mb.dom().contains(key@));
                            assert(ma.dom().contains(key@));
                            return false;
                        },
                    };
                    assert(ma[key@] == ea@[ja as int].1.model());
                    assert(mb[key@] == eb@[jb as int].1.model());
                    assert(decreases_to!(*self => ea@[ja as int].1)) by {
                        assert(decreases_to!(*self => *ea));
                        assert(decreases_to!(*ea => ea@));
                        assert(decreases_to!(ea@ => ea@[ja as int]));
                        assert(decreases_to!(ea@[ja as int] => ea@[ja as int].1));
                    };
                    if !ea[ja].1.same_tree(&eb[jb].1) {
                        assert(ma[key@] != mb[key@]);
                        return false;
                    }
                    assert(key@ == ea@[i as int].0@);
                    assert(mb.dom().contains(ea@[i as int].0@));
                    assert(ma[ea@[i as int].0@] == mb[ea@[i as int].0@]);
                    i += 1;
                }
                let mut i: usize = 0;
                while i < eb.len()
                    invariant
                        i <= eb@.len(),
                        self@ == Tree::List(ma),
                        other@ == Tree::List(mb),
                        ma == fold_entries(Map::empty(), ea@),
                        mb == fold_entries(Map::empty(), eb@),
                        forall|j: int| #![trigger eb@[j]] 0 <= j < i ==> ma.dom().contains(eb@[j].0@),
                        forall|j: int|
                            #![trigger ea@[j]]
                            0 <= j < ea@.len() ==> mb.dom().contains(ea@[j].0@) && ma[ea@[j].0@] == mb[ea@[j].0@],
                    decreases eb@.len() - i,
                {
                    let key = &eb[i].0;
                    proof {
                        lemma_fold_lookup(ea@, key@);
                        lemma_fold_lookup(eb@, key@);
                    }
                    if find_last(ea, key).is_none() {
                        assert(mb.dom().contains(key@));
                        assert(!ma.dom().contains(key@));
                        return false;
                    }
                    assert(ma.dom().contains(eb@[i as int].0@));
                    i += 1;
                }
                assert forall|k: Seq<char>| ma.dom().contains(k) implies #[trigger] mb.dom().contains(k)
                    && ma[k] == mb[k] by {
                    lemma_fold_lookup(ea@, k);
                    let j = choose|j: int| 0 <= j < ea@.len() && #[trigger] ea@[j].0@ == k;
                    assert(ea@[j].0@ == k);
                }
                assert forall|k: Seq<char>| mb.dom().contains(k) implies #[trigger] ma.dom().contains(k) by {
                    lemma_fold_lookup(eb@, k);
                    let j = choose|j: int| 0 <= j < eb@.len() && #[trigger] eb@[j].0@ == k;
                    assert(eb@[j].0@ == k);
                }
                assert(ma.dom() =~= mb.dom());
                assert(ma =~= mb);
                assert(self@ == other@);
                true
            },
            (ValueType::STRING(a), ValueType::LIST(eb)) => {
                assert(self@ == Tree::Str(a@));
                assert(other@ == Tree::List(fold_entries(Map::empty(), eb@)));
                false
            },
            (ValueType::LIST(ea), ValueType::STRING(b)) => {
                assert(self@ == Tree::List(fold_entries(Map::empty(), ea@)));
                assert(other@ == Tree::Str(b@));
                false
            },
        }
    }
}

/// Lists whose entries have the same keys and stand for the same trees, in the
/// same order, stand for the same map.
#[verifier::spinoff_prover]
pub proof fn lemma_fold_congruent(m: Map<Seq<char>, Tree>, s1: Seq<(String, ValueType)>, s2: Seq<(String, ValueType)>)
    requires
        s1.len() == s2.len(),
        forall|i: int| 0 <= i < s1.len() ==> #[trigger] s1[i].0@ == s2[i].0@ && s1[i].1.model() == s2[i].1.model(),
    ensures
        fold_entries(m, s1) == fold_entries(m, s2),
    decreases s1.len(),
{
    if s1.len() > 0 {
        assert(s1[0].0@ == s2[0].0@ && s1[0].1.model() == s2[0].1.model());
        let r1 = s1.subrange(1, s1.len() as int);
        let r2 = s2.subrange(1, s2.len() as int);
        assert forall|i: int| 0 <= i < r1.len() implies #[trigger] r1[i].0@ == r2[i].0@ && r1[i].1.model() == r2[i].1.model() by {
            assert(s1[i + 1].0@ == s2[i + 1].0@ && s1[i + 1].1.model() == s2[i + 1].1.model());
        }
        lemma_fold_congruent(m.insert(s1[0].0@, s1[0].1.model()), r1, r2);
    }
}

/// `c` is a list with the entries of list `v` in the same order: equal keys,
/// and values that stand for the same trees.
pub open spec fn copies_entries(c: ValueType, v: ValueType) -> bool {
    &&& c is LIST
    &&& c->LIST_0@.len() == v->LIST_0@.len()
    &&& forall|i: int|
        0 <= i < v->LIST_0@.len() ==> #[trigger] c->LIST_0@[i].0@ == v->LIST_0@[i].0@
            && c->LIST_0@[i].1@ == v->LIST_0@[i].1@
}

impl ValueType {
    /// A copy of this value, entry for entry.
    pub fn deep_copy(&self) -> (res: ValueType)
        ensures
            res@ == self@,
            (res is LIST) == (self is LIST),
            self is LIST ==> copies_entries(res, *self),
            value_text(res) == value_text(*self),
            value_safe(res) == value_safe(*self),
            keys_distinct(res) == keys_distinct(*self),
        decreases self,
    {
        match self {
            ValueType::STRING(s) => ValueType::STRING(s.clone()),
            ValueType::LIST(entries) => {
                let mut copy: Vec<(String, ValueType)> = Vec::new();
                let mut i: usize = 0;
                while i < entries.len()
                    invariant
                        i <= entries@.len(),
                        *self == ValueType::LIST(*entries),
                        copy@.len() == i,
                        forall|j: int|
                            0 <= j < i ==> #[trigger] copy@[j].0@ == entries@[j].0@ && copy@[j].1.model()
                                == entries@[j].1.model(),
                        entries_text(copy@) == entries_text(entries@.subrange(0, i as int)),
                        entries_safe(copy@) == entries_safe(entries@.subrange(0, i as int)),
                        forall|j: int|
                            0 <= j < i ==> keys_distinct(#[trigger] copy@[j].1) == keys_distinct(
                                entries@[j].1,
                            ),
                    decreases entries@.len() - i,
                {
                    assert(decreases_to!(*self => entries@[i as int].1)) by {
                        assert(decreases_to!(*self => self->LIST_0));
                        assert(decreases_to!(*entries => entries@));
                        assert(decreases_to!(entries@ => entries@[i as int]));
                        assert(decreases_to!(entries@[i as int] => entries@[i as int].1));
                    };
                    let value = entries[i].1.deep_copy();
                    let x = (entries[i].0.clone(), value);
                    proof {
                        let e = entries@[i as int];
                        lemma_entries_text_push(copy@, x);
                        lemma_entries_text_push(entries@.subrange(0, i as int), e);
                        lemma_entries_safe_push(copy@, x);
                        lemma_entries_safe_push(entries@.subrange(0, i as int), e);
                        assert(entries@.subrange(0, i as int).push(e) =~= entries@.subrange(0, i + 1 as int));
                    }
                    copy.push(x);
                    i += 1;
                }
                proof {
                    lemma_fold_congruent(Map::empty(), copy@, entries@);
                    assert(entries@.subrange(0, entries@.len() as int) =~= entries@);
                    lemma_values_distinct(copy@);
                    lemma_values_distinct(entries@);
                    assert(values_distinct(copy@) == values_distinct(entries@)) by {
                        if values_distinct(entries@) {
                            assert forall|j: int| 0 <= j < copy@.len() implies #[trigger] keys_distinct(copy@[j].1) by {
                                assert(keys_distinct(entries@[j].1));
                            }
                        }
                        if values_distinct(copy@) {
                            assert forall|j: int| 0 <= j < entries@.len() implies #[trigger] keys_distinct(entries@[j].1) by {
                                assert(keys_distinct(copy@[j].1));
                            }
                        }
                    }
                    assert(entries_distinct(copy@) == entries_distinct(entries@)) by {
                        if entries_distinct(entries@) {
                            assert forall|a: int, b: int| 0 <= a < b < copy@.len() implies #[trigger] copy@[a].0@
                                != #[trigger] copy@[b].0@ by {
                                assert(entries@[a].0@ != entries@[b].0@);
                            }
                        }
                        if entries_distinct(copy@) {
                            assert forall|a: int, b: int| 0 <= a < b < entries@.len() implies #[trigger] entries@[a].0@
                                != #[trigger] entries@[b].0@ by {
                                assert(copy@[a].0@ != copy@[b].0@);
                            }
                        }
                    }
                    let r = ValueType::LIST(copy);
                    assert(keys_distinct(r) == (entries_distinct(copy@) && values_distinct(copy@)));
                    assert(keys_distinct(*self) == (entries_distinct(entries@) && values_distinct(entries@)));
                }
                ValueType::LIST(copy)
            },
        }
    }
}

impl Clone for ValueType {
    fn clone(&self) -> (res: Self)
        ensures
            res@ == self@,
            (res is LIST) == (self is LIST),
            self is LIST ==> copies_entries(res, *self),
            value_text(res) == value_text(*self),
            value_safe(res) == value_safe(*self),
            keys_distinct(res) == keys_distinct(*self),
    {
        self.deep_copy()
    }
}

impl PartialEq for ValueType {
    fn eq(&self, other: &Self) -> (res: bool) {
        self.same_tree(other)
    }
}

impl PartialEqSpecImpl for ValueType {
    open spec fn obeys_eq_spec() -> bool {
        true
    }

    open spec fn eq_spec(&self, other: &Self) -> bool {
        self@ == other@
    }
}

/// The position of the first `.` in `p`, or its length when there is none.
pub open spec fn dot_index(p: Seq<char>) -> nat
    decreases p.len(),
{
    if p.len() == 0 {
        0
    } else if p[0] == '.' {
        0
    } else {
        1 + dot_index(p.subrange(1, p.len() as int))
    }
}

/// The first component of a path: what comes before the first `.`.
pub open spec fn path_head(p: Seq<char>) -> Seq<char> {
    p.subrange(0, dot_index(p) as int)
}

/// The rest of a path: what comes after the first `.`, or nothing.
pub open spec fn path_rest(p: Seq<char>) -> Seq<char> {
    if dot_index(p) < p.len() {
        p.subrange(dot_index(p) + 1 as int, p.len() as int)
    } else {
        seq![]
    }
}

/// The node that a dotted path leads to: the empty path leads to the tree
/// itself, and `key.rest` leads into the list entry for `key`.
pub open spec fn tree_get(t: Tree, path: Seq<char>) -> Option<Tree>
    decreases path.len(),
{
    if path.len() == 0 {
        Some(t)
    } else {
        match t {
            Tree::List(m) => {
                if dot_index(path) <= path.len() && m.contains_key(path_head(path)) {
                    tree_get(m[path_head(path)], path_rest(path))
                } else {
                    None
                }
            },
            Tree::Str(_) => None,
        }
    }
}

/// Following a dotted path: in a list whose entry for the key `k` (a key
/// without `.`) is `w`, the path `k.p` leads where `p` leads in `w`, and the
/// path `k` leads to `w` itself.
pub proof fn lemma_tree_get_step(m: Map<Seq<char>, Tree>, k: Seq<char>, p: Seq<char>)
    requires
        m.contains_key(k),
        forall|i: int| 0 <= i < k.len() ==> k[i] != '.',
    ensures
        tree_get(Tree::List(m), k + seq!['.'] + p) == tree_get(m[k], p),
        k.len() > 0 ==> tree_get(Tree::List(m), k) == Some(m[k]),
{
    let path = k + seq!['.'] + p;
    lemma_dot_index_at(path, k.len() as int);
    assert(path_head(path) =~= k);
    assert(path_rest(path) =~= p);
    if k.len() > 0 {
        lemma_dot_index_at(k, k.len() as int);
        assert(path_head(k) =~= k);
        assert(path_rest(k) =~= Seq::<char>::empty());
        assert(tree_get(m[k], Seq::<char>::empty()) == Some(m[k]));
    }
}

/// The first `.` of `p` is at `d` when none comes before and one stands
/// there, or `d` is the end.
proof fn lemma_dot_index_at(p: Seq<char>, d: int)
    requires
        0 <= d <= p.len(),
        forall|i: int| 0 <= i < d ==> p[i] != '.',
        d == p.len() || p[d] == '.',
    ensures
        dot_index(p) == d,
    decreases d,
{
    if d > 0 {
        let r = p.subrange(1, p.len() as int);
        assert forall|i: int| 0 <= i < d - 1 implies r[i] != '.' by {
            assert(r[i] == p[i + 1]);
        }
        if d - 1 < r.len() {
            assert(r[d - 1] == p[d]);
        }
        lemma_dot_index_at(r, d - 1);
    }
}

proof fn lemma_dot_index(p: Seq<char>)
    ensures
        dot_index(p) <= p.len(),
        dot_index(p) < p.len() ==> p[dot_index(p) as int] == '.',
        forall|i: int| 0 <= i < dot_index(p) ==> p[i] != '.',
    decreases p.len(),
{
    if p.len() > 0 && p[0] != '.' {
        let r = p.subrange(1, p.len() as int);
        lemma_dot_index(r);
        assert forall|i: int| 0 <= i < dot_index(p) implies p[i] != '.' by {
            if i > 0 {
                assert(p[i] == r[i - 1]);
            }
        }
    }
}

/// Splits a path at its first `.`.
fn split_path(path: &str) -> (res: (String, String))
    ensures
        dot_index(path@) <= path@.len(),
        res.0@ == path_head(path@),
        res.1@ == path_rest(path@),
{
    proof {
        lemma_dot_index(path@);
    }
    let n = path.unicode_len();
    let mut d: usize = 0;
    while d < n
        invariant
            n == path@.len(),
            d <= n,
            forall|i: int| 0 <= i < d ==> path@[i] != '.',
            dot_index(path@) <= path@.len(),
            dot_index(path@) < path@.len() ==> path@[dot_index(path@) as int] == '.',
            forall|i: int| 0 <= i < dot_index(path@) ==> path@[i] != '.',
        ensures
            d < n ==> path@[d as int] == '.',
            forall|i: int| 0 <= i < d ==> path@[i] != '.',
            d <= n,
        decreases n - d,
    {
        if path.get_char(d) == '.' {
            break;
        }
        d += 1;
    }
    assert(d == dot_index(path@)) by {
        if d < dot_index(path@) {
            assert(path@[d as int] != '.');
        }
        if d > dot_index(path@) {
            assert(path@[dot_index(path@) as int] == '.');
        }
    }
    let head = path.substring_char(0, d).to_owned();
    let rest = if d < n {
        path.substring_char(d + 1, n).to_owned()
    } else {
        path.substring_char(n, n).to_owned()
    };
    assert(rest@ =~= path_rest(path@));
    (head, rest)
}

impl ValueType {
    /// The word that a dotted path leads to, if the path leads to a word.
    pub fn get_str(&self, path: &str) -> (res: Option<String>)
        ensures
            res is Some <==> tree_get(self@, path@) matches Some(Tree::Str(_)),
            res matches Some(s) ==> tree_get(self@, path@) == Some(Tree::Str(s@)),
        decreases path@.len(),
    {
        if path.unicode_len() == 0 {
            return match self {
                ValueType::STRING(val) => Some(val.clone()),
                ValueType::LIST(_) => None,
            };
        }
        let (head, rest) = split_path(path);
        match self {
            ValueType::LIST(map) => {
                proof {
                    lemma_fold_lookup(map@, head@);
                }
                match find_last(map, &head) {
                    Some(j) => map[j].1.get_str(rest.as_str()),
                    None => None,
                }
            },
            ValueType::STRING(_) => None,
        }
    }

    /// The list that a dotted path leads to, if the path leads to a list.
    pub fn get_node(&self, path: &str) -> (res: Option<ValueType>)
        ensures
            res is Some <==> tree_get(self@, path@) matches Some(Tree::List(_)),
            res matches Some(v) ==> v is LIST && tree_get(self@, path@) == Some(v@),
        decreases path@.len(),
    {
        if path.unicode_len() == 0 {
            return match self {
                ValueType::STRING(_) => None,
                ValueType::LIST(_) => Some(self.deep_copy()),
            };
        }
        let (head, rest) = split_path(path);
        match self {
            ValueType::LIST(map) => {
                proof {
                    lemma_fold_lookup(map@, head@);
                }
                match find_last(map, &head) {
                    Some(j) => map[j].1.get_node(rest.as_str()),
                    None => None,
                }
            },
            ValueType::STRING(_) => None,
        }
    }
}

} // verus!
