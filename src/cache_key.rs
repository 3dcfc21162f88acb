use vstd::prelude::*;
use vstd::string::*;
use crate::headers::{find_header, header_map, insert_header, lemma_header_map_unique, names_unique};
use crate::text::{
    decimal, json_str, push_char, push_decimal, push_json_str, push_signed_decimal, signed_decimal,
};

verus! {

/// A key attribute's value as the backend types it.
#[derive(Debug)]
pub enum KeyValue {
    /// A string.
    String(String),
    /// A number.
    Number(i64),
    /// Binary data.
    Binary(Vec<u8>),
}

/// A read-single-item call: the table and the key attributes, in the order they
/// were received (a later attribute overrides an earlier one of the same name).
pub struct GetItemRequest {
    pub table_name: String,
    pub key: Vec<(String, KeyValue)>,
}

/// Lexicographic order on character sequences, by code point.
pub open spec fn seq_lt(a: Seq<char>, b: Seq<char>) -> bool
    decreases a.len(),
{
    if b.len() == 0 {
        false
    } else if a.len() == 0 {
        true
    } else if a[0] != b[0] {
        a[0] < b[0]
    } else {
        seq_lt(a.skip(1), b.skip(1))
    }
}

proof fn lemma_lt_irreflexive(a: Seq<char>)
    ensures
        !seq_lt(a, a),
    decreases a.len(),
{
    if a.len() > 0 {
        lemma_lt_irreflexive(a.skip(1));
    }
}

proof fn lemma_lt_total(a: Seq<char>, b: Seq<char>)
    ensures
        a == b || seq_lt(a, b) || seq_lt(b, a),
        !(seq_lt(a, b) && seq_lt(b, a)),
    decreases a.len(),
{
    if a.len() > 0 && b.len() > 0 && a[0] == b[0] {
        lemma_lt_total(a.skip(1), b.skip(1));
        if a.skip(1) == b.skip(1) {
            assert(a =~= seq![a[0]] + a.skip(1));
            assert(b =~= seq![b[0]] + b.skip(1));
        }
    } else if a.len() == 0 && b.len() == 0 {
        assert(a =~= b);
    }
}

proof fn lemma_lt_transitive(a: Seq<char>, b: Seq<char>, c: Seq<char>)
    requires
        seq_lt(a, b),
        seq_lt(b, c),
    ensures
        seq_lt(a, c),
    decreases a.len(),
{
    if a.len() > 0 && a[0] == b[0] && b[0] == c[0] {
        lemma_lt_transitive(a.skip(1), b.skip(1), c.skip(1));
    }
}

/// `a` orders strictly before `b`.
pub fn str_lt(a: &String, b: &String) -> (r: bool)
    ensures
        r == seq_lt(a@, b@),
{
    let x = a.as_str();
    let y = b.as_str();
    let xl = x.unicode_len();
    let yl = y.unicode_len();
    let mut i: usize = 0;
    assert(x@.skip(0) =~= x@);
    assert(y@.skip(0) =~= y@);
    while i < xl && i < yl
        invariant
            i <= xl,
            i <= yl,
            xl == x@.len(),
            yl == y@.len(),
            x@ == a@,
            y@ == b@,
            seq_lt(a@, b@) == seq_lt(x@.skip(i as int), y@.skip(i as int)),
        decreases xl - i,
    {
        let c = x.get_char(i);
        let d = y.get_char(i);
        if c != d {
            return c < d;
        }
        assert(x@.skip(i as int).skip(1) =~= x@.skip(i + 1));
        assert(y@.skip(i as int).skip(1) =~= y@.skip(i + 1));
        i = i + 1;
    }
    i < yl
}

/// Canonical text of one key attribute value.
pub open spec fn key_value_text(v: KeyValue) -> Seq<char> {
    match v {
        KeyValue::String(s) => "{\"S\":"@ + json_str(s@) + "}"@,
        KeyValue::Number(n) => "{\"N\":"@ + signed_decimal(n as int) + "}"@,
        KeyValue::Binary(b) => "{\"B\":["@ + bytes_text(b@) + "]}"@,
    }
}

/// Bytes as comma-separated decimals.
pub open spec fn bytes_text(b: Seq<u8>) -> Seq<char>
    decreases b.len(),
{
    if b.len() == 0 {
        Seq::empty()
    } else if b.len() == 1 {
        decimal(b[0] as nat)
    } else {
        bytes_text(b.drop_last()) + ","@ + decimal(b.last() as nat)
    }
}

/// The attributes of a call, name to canonical value text; later wins.
pub open spec fn attribute_map(key: Seq<(String, KeyValue)>) -> Map<Seq<char>, Seq<char>>
    decreases key.len(),
{
    if key.len() == 0 {
        Map::empty()
    } else {
        attribute_map(key.drop_last()).insert(key.last().0@, key_value_text(key.last().1))
    }
}

/// Names strictly increase along the list.
pub open spec fn strictly_sorted(s: Seq<(String, String)>) -> bool {
    forall|i: int, j: int| 0 <= i < j < s.len() ==> seq_lt(s[i].0@, s[j].0@)
}

/// Attribute entries, name then value text, comma-separated in list order.
pub open spec fn entries_text(s: Seq<(String, String)>) -> Seq<char>
    decreases s.len(),
{
    if s.len() == 0 {
        Seq::empty()
    } else if s.len() == 1 {
        json_str(s[0].0@) + ":"@ + s[0].1@
    } else {
        entries_text(s.drop_last()) + ","@ + json_str(s.last().0@) + ":"@ + s.last().1@
    }
}

pub open spec fn key_text(table: Seq<char>, s: Seq<(String, String)>) -> Seq<char> {
    "{\"TableName\":"@ + json_str(table) + ",\"Key\":{"@ + entries_text(s) + "}}"@
}

/// The cache key of a call on `table` whose attributes map names to value texts
/// as `attrs` does: the attributes are listed in increasing name order.
pub open spec fn canonical_key(table: Seq<char>, attrs: Map<Seq<char>, Seq<char>>) -> Seq<char> {
    key_text(
        table,
        choose|s: Seq<(String, String)>| strictly_sorted(s) && header_map(s) == attrs,
    )
}

/// Two sorted lists that denote the same mapping hold the same names and values
/// at each position.
proof fn lemma_sorted_unique(s: Seq<(String, String)>, t: Seq<(String, String)>)
    requires
        strictly_sorted(s),
        strictly_sorted(t),
        header_map(s) == header_map(t),
    ensures
        s.len() == t.len(),
        forall|i: int| 0 <= i < s.len() ==> s[i].0@ == t[i].0@ && s[i].1@ == t[i].1@,
    decreases s.len() + t.len(),
{
    lemma_sorted_names_unique(s);
    lemma_sorted_names_unique(t);
    lemma_header_map_unique(s);
    lemma_header_map_unique(t);
    if s.len() > 0 && t.len() > 0 {
        let a = s.last().0@;
        let b = t.last().0@;
        assert(header_map(s).contains_key(s[s.len() - 1].0@));
        assert(header_map(t).contains_key(t[t.len() - 1].0@));
        let i = choose|i: int| 0 <= i < t.len() && t[i].0@ == a;
        let j = choose|j: int| 0 <= j < s.len() && s[j].0@ == b;
        if a != b {
            lemma_lt_total(a, b);
            if seq_lt(a, b) {
                if j < s.len() - 1 {
                    lemma_lt_total(s[j].0@, a);
                }
            } else {
                if i < t.len() - 1 {
                    lemma_lt_total(t[i].0@, b);
                }
            }
        }
        assert(a == b);
        let sp = s.drop_last();
        let tp = t.drop_last();
        assert(strictly_sorted(sp));
        assert(strictly_sorted(tp));
        assert(names_unique(sp)) by {
            lemma_sorted_names_unique(sp);
        }
        assert(names_unique(tp)) by {
            lemma_sorted_names_unique(tp);
        }
        lemma_header_map_unique(sp);
        lemma_header_map_unique(tp);
        assert forall|k: Seq<char>| #[trigger] header_map(sp).contains_key(k) implies k != a by {
            let x = choose|x: int| 0 <= x < sp.len() && sp[x].0@ == k;
            assert(sp[x] == s[x]);
            lemma_lt_irreflexive(a);
        }
        assert forall|k: Seq<char>| #[trigger] header_map(tp).contains_key(k) implies k != a by {
            let x = choose|x: int| 0 <= x < tp.len() && tp[x].0@ == k;
            assert(tp[x] == t[x]);
            lemma_lt_irreflexive(a);
        }
        assert(header_map(sp) =~= header_map(s).remove(a));
        assert(header_map(tp) =~= header_map(t).remove(a));
        lemma_sorted_unique(sp, tp);
        assert forall|x: int| 0 <= x < s.len() implies s[x].0@ == t[x].0@ && s[x].1@ == t[x].1@ by {
            if x < s.len() - 1 {
                assert(sp[x] == s[x] && tp[x] == t[x]);
            } else {
                assert(header_map(s)[a] == s[s.len() - 1].1@);
                assert(header_map(t)[a] == t[t.len() - 1].1@);
            }
        }
    } else if s.len() > 0 {
        assert(header_map(s).contains_key(s[0].0@));
    } else if t.len() > 0 {
        assert(header_map(t).contains_key(t[0].0@));
    }
}

proof fn lemma_sorted_names_unique(s: Seq<(String, String)>)
    requires
        strictly_sorted(s),
    ensures
        names_unique(s),
{
    assert forall|i: int, j: int| 0 <= i < j < s.len() implies s[i].0@ != s[j].0@ by {
        lemma_lt_irreflexive(s[i].0@);
    }
}

proof fn lemma_entries_text_same(s: Seq<(String, String)>, t: Seq<(String, String)>)
    requires
        s.len() == t.len(),
        forall|i: int| 0 <= i < s.len() ==> s[i].0@ == t[i].0@ && s[i].1@ == t[i].1@,
    ensures
        entries_text(s) == entries_text(t),
    decreases s.len(),
{
    if s.len() > 1 {
        lemma_entries_text_same(s.drop_last(), t.drop_last());
    }
}

/// Sets attribute `name` to `text` in a sorted list, keeping it sorted.
fn insert_sorted(s: &mut Vec<(String, String)>, name: String, text: String)
    requires
        strictly_sorted(old(s)@),
    ensures
        strictly_sorted(final(s)@),
        header_map(final(s)@) == header_map(old(s)@).insert(name@, text@),
{
    proof {
        lemma_sorted_names_unique(s@);
        lemma_header_map_unique(s@);
    }
    let ghost before = s@;
    let ghost n = name@;
    let ghost v = text@;
    if find_header(s, &name).is_some() {
        insert_header(s, name, text);
        return ;
    }
    let mut j: usize = 0;
    while j < s.len()
        invariant
            j <= s@.len(),
            s@ == before,
            name@ == n,
            text@ == v,
            forall|k: int| 0 <= k < j ==> seq_lt(#[trigger] s@[k].0@, n),
        ensures
            j <= s@.len(),
            forall|k: int| 0 <= k < j ==> seq_lt(#[trigger] s@[k].0@, n),
            j < s@.len() ==> !seq_lt(s@[j as int].0@, n),
        decreases s@.len() - j,
    {
        let lt = str_lt(&s[j].0, &name);
        if !lt {
            break;
        }
        j = j + 1;
    }
    s.insert(j, (name, text));
    proof {
        let after = s@;
        assert forall|a: int, b: int| 0 <= a < b < after.len() implies seq_lt(
            after[a].0@,
            after[b].0@,
        ) by {
            if b < j {
                assert(after[a] == before[a] && after[b] == before[b]);
            } else if b == j {
                assert(after[a] == before[a]);
            } else if a > j {
                assert(after[a] == before[a - 1] && after[b] == before[b - 1]);
            } else {
                assert(after[b] == before[b - 1]);
                lemma_lt_total(before[j as int].0@, n);
                if a == j {
                    if b - 1 > j {
                        lemma_lt_transitive(n, before[j as int].0@, before[b - 1].0@);
                    }
                } else {
                    assert(after[a] == before[a]);
                    lemma_lt_total(before[j as int].0@, n);
                    lemma_lt_transitive(before[a].0@, n, before[j as int].0@);
                    if b - 1 > j {
                        lemma_lt_transitive(before[a].0@, before[j as int].0@, before[b - 1].0@);
                    }
                }
            }
        }
        lemma_sorted_names_unique(after);
        lemma_header_map_unique(after);
        assert(header_map(after) =~= header_map(before).insert(n, v)) by {
            assert forall|k: Seq<char>| #[trigger] header_map(after).contains_key(k)
                <==> header_map(before).insert(n, v).contains_key(k) by {
                if header_map(after).contains_key(k) {
                    let x = choose|x: int| 0 <= x < after.len() && after[x].0@ == k;
                    if x < j {
                        assert(after[x] == before[x]);
                        assert(header_map(before).contains_key(before[x].0@));
                    } else if x > j {
                        assert(after[x] == before[x - 1]);
                        assert(header_map(before).contains_key(before[x - 1].0@));
                    }
                }
                if header_map(before).contains_key(k) {
                    let x = choose|x: int| 0 <= x < before.len() && before[x].0@ == k;
                    if x < j {
                        assert(after[x] == before[x]);
                        assert(header_map(after).contains_key(after[x].0@));
                    } else {
                        assert(after[x + 1] == before[x]);
                        assert(header_map(after).contains_key(after[x + 1].0@));
                    }
                }
                if k == n {
                    assert(header_map(after).contains_key(after[j as int].0@));
                }
            }
            assert forall|k: Seq<char>| #[trigger] header_map(after).contains_key(k) implies header_map(
                after,
            )[k] == header_map(before).insert(n, v)[k] by {
                let x = choose|x: int| 0 <= x < after.len() && after[x].0@ == k;
                if x < j {
                    assert(after[x] == before[x]);
                } else if x > j {
                    assert(after[x] == before[x - 1]);
                }
            }
        }
    }
}

/// Appends the canonical text of a key attribute value.
fn push_key_value(out: &mut String, v: &KeyValue)
    ensures
        final(out)@ == old(out)@ + key_value_text(*v),
{
    match v {
        KeyValue::String(s) => {
            out.append("{\"S\":");
            push_json_str(out, s.as_str());
            out.append("}");
        },
        KeyValue::Number(n) => {
            out.append("{\"N\":");
            push_signed_decimal(out, *n);
            out.append("}");
        },
        KeyValue::Binary(b) => {
            out.append("{\"B\":[");
            let ghost start = out@;
            let mut i: usize = 0;
            while i < b.len()
                invariant
                    i <= b@.len(),
                    out@ == start + bytes_text(b@.subrange(0, i as int)),
                decreases b@.len() - i,
            {
                let ghost pre = out@;
                if i > 0 {
                    out.append(",");
                }
                push_decimal(out, b[i] as u64);
                let ghost cur = b@.subrange(0, i + 1);
                assert(cur.drop_last() =~= b@.subrange(0, i as int));
                if i == 0 {
                    assert(b@.subrange(0, 0) =~= Seq::<u8>::empty());
                }
                assert(out@ =~= start + bytes_text(cur));
                i = i + 1;
            }
            assert(b@.subrange(0, b@.len() as int) =~= b@);
            out.append("]}");
        },
    }
    assert(out@ =~= old(out)@ + key_value_text(*v));
}

/// The cache key of a read call: a canonical serialization of its table and
/// its key attributes, listed in increasing name order.
pub fn cache_key(request: &GetItemRequest) -> (r: String)
    ensures
        r@ == canonical_key(request.table_name@, attribute_map(request.key@)),
{
    let key = &request.key;
    let mut sorted: Vec<(String, String)> = Vec::new();
    let mut i: usize = 0;
    while i < key.len()
        invariant
            i <= key@.len(),
            strictly_sorted(sorted@),
            header_map(sorted@) == attribute_map(key@.subrange(0, i as int)),
        decreases key@.len() - i,
    {
        let mut text = String::new();
        push_key_value(&mut text, &key[i].1);
        assert(text@ =~= key_value_text(key@[i as int].1));
        insert_sorted(&mut sorted, key[i].0.clone(), text);
        assert(key@.subrange(0, i + 1).drop_last() =~= key@.subrange(0, i as int));
        i = i + 1;
    }
    assert(key@.subrange(0, key@.len() as int) =~= key@);
    let mut out = String::new();
    out.append("{\"TableName\":");
    push_json_str(&mut out, request.table_name.as_str());
    out.append(",\"Key\":{");
    let ghost start = out@;
    let mut j: usize = 0;
    while j < sorted.len()
        invariant
            j <= sorted@.len(),
            out@ == start + entries_text(sorted@.subrange(0, j as int)),
        decreases sorted@.len() - j,
    {
        if j > 0 {
            out.append(",");
        }
        push_json_str(&mut out, sorted[j].0.as_str());
        out.append(":");
        out.append(sorted[j].1.as_str());
        let ghost cur = sorted@.subrange(0, j + 1);
        assert(cur.drop_last() =~= sorted@.subrange(0, j as int));
        if j == 0 {
            assert(sorted@.subrange(0, 0) =~= Seq::<(String, String)>::empty());
        }
        assert(out@ =~= start + entries_text(cur));
        j = j + 1;
    }
    assert(sorted@.subrange(0, sorted@.len() as int) =~= sorted@);
    out.append("}}");
    proof {
        let attrs = attribute_map(key@);
        let t = choose|t: Seq<(String, String)>| strictly_sorted(t) && header_map(t) == attrs;
        lemma_sorted_unique(sorted@, t);
        lemma_entries_text_same(sorted@, t);
    }
    assert(out@ =~= canonical_key(request.table_name@, attribute_map(request.key@)));
    out
}

/// Equal calls share a key: two read calls on the same table whose key
/// attributes agree (whatever their order or repetition) have the same cache
/// key text.
pub proof fn lemma_cache_key_deterministic(a: GetItemRequest, b: GetItemRequest)
    requires
        a.table_name@ == b.table_name@,
        attribute_map(a.key@) == attribute_map(b.key@),
    ensures
        canonical_key(a.table_name@, attribute_map(a.key@)) == canonical_key(
            b.table_name@,
            attribute_map(b.key@),
        ),
{
}

} // verus!
