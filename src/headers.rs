use vstd::prelude::*;
use vstd::string::*;

verus! {

/// The prefix that disguises a header name while it crosses a relay that may
/// rewrite or drop headers.
pub const DISGUISE_MARKER: &'static str = "hahaha-";

pub open spec fn marker_seq() -> Seq<char> {
    seq!['h', 'a', 'h', 'a', 'h', 'a', '-']
}

/// Header names in `hs` are pairwise distinct.
pub open spec fn names_unique(hs: Seq<(String, String)>) -> bool {
    forall|i: int, j: int| 0 <= i < j < hs.len() ==> hs[i].0@ != hs[j].0@
}

/// The mapping from name to value that a header list denotes; a later entry
/// overrides an earlier one with the same name.
pub open spec fn header_map(hs: Seq<(String, String)>) -> Map<Seq<char>, Seq<char>>
    decreases hs.len(),
{
    if hs.len() == 0 {
        Map::empty()
    } else {
        header_map(hs.drop_last()).insert(hs.last().0@, hs.last().1@)
    }
}

pub open spec fn is_disguised(n: Seq<char>) -> bool {
    n.len() >= marker_seq().len() && n.subrange(0, marker_seq().len() as int) == marker_seq()
}

pub open spec fn undisguised(n: Seq<char>) -> Seq<char> {
    n.subrange(marker_seq().len() as int, n.len() as int)
}

/// Headers that arrived under their own name (the first of a repeated name
/// counts).
pub open spec fn ambient_headers(raw: Seq<(String, String)>) -> Map<Seq<char>, Seq<char>>
    decreases raw.len(),
{
    if raw.len() == 0 {
        Map::empty()
    } else if is_disguised(raw.last().0@) || ambient_headers(raw.drop_last()).contains_key(
        raw.last().0@,
    ) {
        ambient_headers(raw.drop_last())
    } else {
        ambient_headers(raw.drop_last()).insert(raw.last().0@, raw.last().1@)
    }
}

/// Disguised headers, keyed by their true name (the first of a repeated name
/// counts).
pub open spec fn disguised_headers(raw: Seq<(String, String)>) -> Map<Seq<char>, Seq<char>>
    decreases raw.len(),
{
    if raw.len() == 0 {
        Map::empty()
    } else if is_disguised(raw.last().0@) && !disguised_headers(raw.drop_last()).contains_key(
        undisguised(raw.last().0@),
    ) {
        disguised_headers(raw.drop_last()).insert(undisguised(raw.last().0@), raw.last().1@)
    } else {
        disguised_headers(raw.drop_last())
    }
}

/// The authoritative header set: ambient headers overlaid by disguised ones.
pub open spec fn reconciled_headers(raw: Seq<(String, String)>) -> Map<Seq<char>, Seq<char>> {
    ambient_headers(raw).union_prefer_right(disguised_headers(raw))
}

/// In a list with distinct names, each entry is what the list maps its name to.
pub proof fn lemma_header_map_unique(hs: Seq<(String, String)>)
    requires
        names_unique(hs),
    ensures
        forall|i: int| 0 <= i < hs.len() ==> #[trigger] header_map(hs).contains_key(hs[i].0@)
            && header_map(hs)[hs[i].0@] == hs[i].1@,
        forall|n: Seq<char>| #[trigger] header_map(hs).contains_key(n) ==> exists|i: int|
            0 <= i < hs.len() && hs[i].0@ == n,
    decreases hs.len(),
{
    if hs.len() > 0 {
        let p = hs.drop_last();
        assert(names_unique(p));
        lemma_header_map_unique(p);
        assert forall|n: Seq<char>| #[trigger] header_map(hs).contains_key(n) implies exists|i: int|
            0 <= i < hs.len() && hs[i].0@ == n by {
            if n != hs.last().0@ {
                assert(header_map(p).contains_key(n));
                let i = choose|i: int| 0 <= i < p.len() && p[i].0@ == n;
                assert(hs[i] == p[i]);
                assert(0 <= i < hs.len() && hs[i].0@ == n);
            } else {
                assert(hs[hs.len() - 1].0@ == n);
            }
        }
        assert forall|i: int| 0 <= i < hs.len() implies #[trigger] header_map(hs).contains_key(
            hs[i].0@) && header_map(hs)[hs[i].0@] == hs[i].1@ by {
            if i < hs.len() - 1 {
                assert(hs[i] == p[i]);
                assert(header_map(p).contains_key(p[i].0@));
                assert(hs[i].0@ != hs[hs.len() - 1].0@);
            }
        }
    }
}

/// Position of the header named `name`, if any.
pub fn find_header(hs: &Vec<(String, String)>, name: &String) -> (r: Option<usize>)
    ensures
        match r {
            Some(i) => i < hs@.len() && hs@[i as int].0@ == name@,
            None => forall|i: int| 0 <= i < hs@.len() ==> hs@[i].0@ != name@,
        },
{
    let mut i: usize = 0;
    while i < hs.len()
        invariant
            i <= hs@.len(),
            forall|j: int| 0 <= j < i ==> hs@[j].0@ != name@,
        decreases hs@.len() - i,
    {
        if hs[i].0 == *name {
            return Some(i);
        }
        i = i + 1;
    }
    None
}

/// Value of the header named `name`, if any.
pub fn get_header(hs: &Vec<(String, String)>, name: &String) -> (r: Option<String>)
    requires
        names_unique(hs@),
    ensures
        match r {
            Some(v) => header_map(hs@).contains_key(name@) && header_map(hs@)[name@] == v@,
            None => !header_map(hs@).contains_key(name@),
        },
{
    proof {
        lemma_header_map_unique(hs@);
    }
    match find_header(hs, name) {
        Some(i) => {
            assert(header_map(hs@).contains_key(hs@[i as int].0@));
            Some(hs[i].1.clone())
        },
        None => None,
    }
}

/// Sets header `name` to `value`, replacing any earlier value.
pub fn insert_header(hs: &mut Vec<(String, String)>, name: String, value: String)
    requires
        names_unique(old(hs)@),
    ensures
        names_unique(final(hs)@),
        header_map(final(hs)@) == header_map(old(hs)@).insert(name@, value@),
        header_map(old(hs)@).contains_key(name@) ==> final(hs)@.len() == old(hs)@.len() && forall|
            k: int,
        | 0 <= k < old(hs)@.len() ==> #[trigger] final(hs)@[k].0@ == old(hs)@[k].0@,
{
    proof {
        lemma_header_map_unique(hs@);
    }
    let ghost n = name@;
    let ghost v = value@;
    let ghost before = hs@;
    match find_header(hs, &name) {
        Some(i) => {
            hs.set(i, (name, value));
            proof {
                let after = hs@;
                assert(names_unique(after));
                lemma_header_map_unique(after);
                assert(header_map(after) =~= header_map(before).insert(n, v)) by {
                    assert forall|k: Seq<char>| #[trigger] header_map(after).contains_key(k)
                        <==> header_map(before).insert(n, v).contains_key(k) by {
                        if header_map(after).contains_key(k) {
                            let j = choose|j: int| 0 <= j < after.len() && after[j].0@ == k;
                            if j != i {
                                assert(after[j] == before[j]);
                                assert(header_map(before).contains_key(before[j].0@));
                            }
                        }
                        if header_map(before).contains_key(k) && k != n {
                            let j = choose|j: int| 0 <= j < before.len() && before[j].0@ == k;
                            assert(after[j] == before[j]);
                            assert(header_map(after).contains_key(after[j].0@));
                        }
                        if k == n {
                            assert(after[i as int].0@ == n);
                            assert(header_map(after).contains_key(after[i as int].0@));
                        }
                    }
                    assert forall|k: Seq<char>| #[trigger] header_map(after).contains_key(k)
                        implies header_map(after)[k] == header_map(before).insert(n, v)[k] by {
                        let j = choose|j: int| 0 <= j < after.len() && after[j].0@ == k;
                        if j != i {
                            assert(after[j] == before[j]);
                        }
                    }
                }
            }
        },
        None => {
            hs.push((name, value));
            proof {
                assert(hs@.drop_last() =~= before);
            }
        },
    }
}

/// The exec form of the disguise marker.
pub fn disguise_marker() -> (r: &'static str)
    ensures
        r@ == marker_seq(),
{
    proof {
        reveal_strlit("hahaha-");
    }
    assert(DISGUISE_MARKER@ =~= marker_seq());
    DISGUISE_MARKER
}

/// The true name behind a disguised header name, or `None` for an ambient one.
pub fn strip_marker(name: &String) -> (r: Option<String>)
    ensures
        match r {
            Some(t) => is_disguised(name@) && t@ == undisguised(name@),
            None => !is_disguised(name@),
        },
{
    let m = disguise_marker();
    let s = name.as_str();
    let ml = m.unicode_len();
    let nl = s.unicode_len();
    if nl < ml {
        return None;
    }
    let mut i: usize = 0;
    while i < ml
        invariant
            i <= ml,
            ml == marker_seq().len(),
            nl == s@.len(),
            s@ == name@,
            m@ == marker_seq(),
            ml <= nl,
            forall|j: int| 0 <= j < i ==> s@[j] == marker_seq()[j],
        decreases ml - i,
    {
        if s.get_char(i) != m.get_char(i) {
            assert(s@.subrange(0, ml as int)[i as int] != marker_seq()[i as int]);
            return None;
        }
        i = i + 1;
    }
    assert(s@.subrange(0, ml as int) =~= marker_seq());
    Some(String::from_str(s.substring_char(ml, nl)))
}

/// Prefixes a header name with the disguise marker.
pub fn disguise_name(name: &String) -> (r: String)
    ensures
        r@ == marker_seq() + name@,
{
    String::from_str(disguise_marker()).concat(name.as_str())
}

/// Recovers the authoritative header set from headers as received: ambient
/// headers first, then every disguised header under its true name, overriding.
/// Of a name received more than once, in either form, the first value counts.
pub fn reconcile_headers(raw: &Vec<(String, String)>) -> (r: Vec<(String, String)>)
    ensures
        names_unique(r@),
        header_map(r@) == reconciled_headers(raw@),
{
    let mut ambient: Vec<(String, String)> = Vec::new();
    let mut disguised: Vec<(String, String)> = Vec::new();
    let mut i: usize = 0;
    while i < raw.len()
        invariant
            i <= raw@.len(),
            names_unique(ambient@),
            names_unique(disguised@),
            header_map(ambient@) == ambient_headers(raw@.subrange(0, i as int)),
            header_map(disguised@) == disguised_headers(raw@.subrange(0, i as int)),
        decreases raw@.len() - i,
    {
        let ghost pre = raw@.subrange(0, i as int);
        let ghost cur = raw@.subrange(0, i + 1);
        assert(cur.drop_last() =~= pre);
        assert(cur.last() == raw@[i as int]);
        let name = &raw[i].0;
        let value = raw[i].1.clone();
        match strip_marker(name) {
            Some(true_name) => {
                if get_header(&disguised, &true_name).is_none() {
                    insert_header(&mut disguised, true_name, value);
                }
            },
            None => {
                if get_header(&ambient, name).is_none() {
                    insert_header(&mut ambient, name.clone(), value);
                }
            },
        }
        i = i + 1;
    }
    assert(raw@.subrange(0, raw@.len() as int) =~= raw@);
    let ghost amb = header_map(ambient@);
    let mut result = ambient;
    let mut j: usize = 0;
    while j < disguised.len()
        invariant
            j <= disguised@.len(),
            names_unique(result@),
            header_map(result@) == amb.union_prefer_right(
                header_map(disguised@.subrange(0, j as int)),
            ),
        decreases disguised@.len() - j,
    {
        let ghost pre = disguised@.subrange(0, j as int);
        let ghost cur = disguised@.subrange(0, j + 1);
        assert(cur.drop_last() =~= pre);
        assert(cur.last() == disguised@[j as int]);
        let name = disguised[j].0.clone();
        let value = disguised[j].1.clone();
        insert_header(&mut result, name, value);
        assert(header_map(result@) =~= amb.union_prefer_right(header_map(cur)));
        j = j + 1;
    }
    assert(disguised@.subrange(0, disguised@.len() as int) =~= disguised@);
    result
}

/// A header named with the marker followed by `n` is seen as the disguised form of `n`.
pub proof fn lemma_disguised_name(n: Seq<char>)
    ensures
        is_disguised(marker_seq() + n),
        undisguised(marker_seq() + n) == n,
{
    assert((marker_seq() + n).subrange(0, marker_seq().len() as int) =~= marker_seq());
    assert(undisguised(marker_seq() + n) =~= n);
}

/// Any header received in disguised form under true name `n` is known by that name.
pub proof fn lemma_disguised_present(raw: Seq<(String, String)>, n: Seq<char>, i: int)
    requires
        0 <= i < raw.len(),
        raw[i].0@ == marker_seq() + n,
    ensures
        disguised_headers(raw).contains_key(n),
    decreases raw.len(),
{
    lemma_disguised_name(n);
    if i < raw.len() - 1 {
        assert(raw.drop_last()[i] == raw[i]);
        lemma_disguised_present(raw.drop_last(), n, i);
    }
}

/// Disguise precedence: whenever a header arrives both disguised and under its
/// own name, reconciliation keeps the disguised value (the first one received).
pub proof fn lemma_disguise_precedence(raw: Seq<(String, String)>, n: Seq<char>, i: int, j: int)
    requires
        0 <= i < raw.len(),
        0 <= j < raw.len(),
        raw[i].0@ == marker_seq() + n,
        raw[j].0@ == n,
    ensures
        reconciled_headers(raw).contains_key(n),
        reconciled_headers(raw)[n] == disguised_headers(raw)[n],
{
    lemma_disguised_present(raw, n, i);
}

/// Where every disguised copy of `n` carries `v`, the disguised set maps `n` to `v`.
proof fn lemma_disguised_single_value(raw: Seq<(String, String)>, n: Seq<char>, v: Seq<char>)
    requires
        forall|i: int| 0 <= i < raw.len() && #[trigger] raw[i].0@ == marker_seq() + n ==> raw[i].1@
            == v,
    ensures
        disguised_headers(raw).contains_key(n) ==> disguised_headers(raw)[n] == v,
    decreases raw.len(),
{
    if raw.len() > 0 {
        let p = raw.drop_last();
        assert forall|i: int| 0 <= i < p.len() && #[trigger] p[i].0@ == marker_seq() + n implies p[i].1@
            == v by {
            assert(p[i] == raw[i]);
        }
        lemma_disguised_single_value(p, n, v);
        let last = raw.last().0@;
        if is_disguised(last) && undisguised(last) == n {
            assert(last =~= marker_seq() + n);
            assert(raw[raw.len() - 1].0@ == marker_seq() + n);
        }
    }
}

/// Disguise precedence, by value: when a header arrives under its own name
/// with any value and disguised, every disguised copy carrying `v`, the
/// reconciled header set gives it the value `v`.
pub proof fn lemma_disguised_value_wins(raw: Seq<(String, String)>, n: Seq<char>, v: Seq<char>, i: int)
    requires
        0 <= i < raw.len(),
        raw[i].0@ == marker_seq() + n,
        forall|j: int| 0 <= j < raw.len() && #[trigger] raw[j].0@ == marker_seq() + n ==> raw[j].1@
            == v,
    ensures
        reconciled_headers(raw).contains_key(n),
        reconciled_headers(raw)[n] == v,
{
    lemma_disguised_present(raw, n, i);
    lemma_disguised_single_value(raw, n, v);
}

} // verus!
