use vstd::prelude::*;
use vstd::utf8::{decode_utf8, encode_utf8, encode_utf8_decode_utf8, encode_utf8_valid_utf8, valid_utf8};

verus! {

/// A snapshot of a backend response: status, headers in order, and body.
#[derive(Debug, Clone, PartialEq, Eq)]
pub struct CachedResponse {
    pub status: u16,
    pub headers: Vec<(String, String)>,
    pub body: Vec<u8>,
}


/// Four bytes, most significant first.
pub open spec fn u32_bytes(n: u32) -> Seq<u8> {
    seq![(n >> 24u32) as u8, (n >> 16u32) as u8, (n >> 8u32) as u8, n as u8]
}

/// The integer that four bytes from `p` spell, most significant first.
pub open spec fn read_u32(b: Seq<u8>, p: int) -> u32 {
    ((b[p] as u32) << 24u32) | ((b[p + 1] as u32) << 16u32) | ((b[p + 2] as u32) << 8u32) | (b[p
        + 3] as u32)
}

proof fn lemma_u32_round_trip(n: u32)
    ensures
        read_u32(u32_bytes(n), 0) == n,
{
    let b = u32_bytes(n);
    let (b0, b1, b2, b3) = (b[0], b[1], b[2], b[3]);
    assert(b0 == (n >> 24u32) as u8 && b1 == (n >> 16u32) as u8 && b2 == (n >> 8u32) as u8 && b3
        == n as u8);
    assert(((b0 as u32) << 24u32) | ((b1 as u32) << 16u32) | ((b2 as u32) << 8u32) | (b3 as u32)
        == n) by (bit_vector)
        requires
            b0 == (n >> 24u32) as u8,
            b1 == (n >> 16u32) as u8,
            b2 == (n >> 8u32) as u8,
            b3 == n as u8,
    ;
}

/// One length-prefixed field.
pub open spec fn field(b: Seq<u8>) -> Seq<u8> {
    u32_bytes(b.len() as u32) + b
}

/// Fields one after another.
#[verifier::opaque]
pub open spec fn fields(l: Seq<Seq<u8>>) -> Seq<u8>
    decreases l.len(),
{
    if l.len() == 0 {
        Seq::empty()
    } else {
        field(l[0]) + fields(l.drop_first())
    }
}

/// Header names and values, each as UTF-8, alternating.
pub open spec fn header_fields(h: Seq<(String, String)>) -> Seq<Seq<u8>> {
    Seq::new(
        (2 * h.len()) as nat,
        |j: int|
            if j % 2 == 0 {
                encode_utf8(h[j / 2].0@)
            } else {
                encode_utf8(h[j / 2].1@)
            },
    )
}

/// The stored form of a response snapshot: the status, the number of headers,
/// then each header name and value and finally the body, each prefixed with
/// its length.
pub open spec fn snapshot_bytes(x: CachedResponse) -> Seq<u8> {
    seq![(x.status >> 8u16) as u8, x.status as u8] + u32_bytes(x.headers@.len() as u32) + fields(
        header_fields(x.headers@).push(x.body@),
    )
}

/// What a snapshot holds: status, header names and values in order, body.
pub open spec fn snapshot_view(x: CachedResponse) -> (u16, Seq<(Seq<char>, Seq<char>)>, Seq<u8>) {
    (x.status, x.headers@.map_values(|p: (String, String)| (p.0@, p.1@)), x.body@)
}

/// The lengths in a snapshot fit in four bytes.
pub open spec fn encodable(x: CachedResponse) -> bool {
    &&& x.headers@.len() <= u32::MAX
    &&& x.body@.len() <= u32::MAX
    &&& forall|i: int| 0 <= i < x.headers@.len() ==> encode_utf8(#[trigger] x.headers@[i].0@).len()
        <= u32::MAX && encode_utf8(x.headers@[i].1@).len() <= u32::MAX
}

/// Reads `k` fields from position `p`, giving them and the position after them.
pub open spec fn parse_fields(b: Seq<u8>, p: int, k: nat) -> Option<(Seq<Seq<u8>>, int)>
    decreases k,
{
    if k == 0 {
        Some((Seq::empty(), p))
    } else if p < 0 || p + 4 > b.len() {
        None
    } else {
        let n = read_u32(b, p) as int;
        if p + 4 + n > b.len() {
            None
        } else {
            match parse_fields(b, p + 4 + n, (k - 1) as nat) {
                Some((l, e)) => Some((seq![b.subrange(p + 4, p + 4 + n)] + l, e)),
                None => None,
            }
        }
    }
}

pub open spec fn read_u16(b: Seq<u8>) -> u16 {
    ((b[0] as u16) << 8u16) | (b[1] as u16)
}

/// What a stored snapshot decodes to, if it is well formed.
pub open spec fn decode_spec(b: Seq<u8>) -> Option<(u16, Seq<(Seq<char>, Seq<char>)>, Seq<u8>)> {
    if b.len() < 6 {
        None
    } else {
        let n = read_u32(b, 2) as nat;
        match parse_fields(b, 6, 2 * n + 1) {
            Some((f, e)) => if e == b.len() && forall|j: int| 0 <= j < 2 * n ==> valid_utf8(
                #[trigger] f[j],
            ) {
                Some(
                    (
                        read_u16(b),
                        Seq::new(n, |i: int| (decode_utf8(f[2 * i]), decode_utf8(f[2 * i + 1]))),
                        f[2 * n as int],
                    ),
                )
            } else {
                None
            },
            None => None,
        }
    }
}

proof fn lemma_fields_push(a: Seq<Seq<u8>>, x: Seq<u8>)
    ensures
        fields(a.push(x)) == fields(a) + field(x),
    decreases a.len(),
{
    reveal(fields);
    if a.len() == 0 {
        assert(a.push(x).drop_first() =~= Seq::<Seq<u8>>::empty());
        assert(fields(a.push(x).drop_first()) == Seq::<u8>::empty());
        assert(a.push(x)[0] == x);
        assert(fields(a.push(x)) =~= fields(a) + field(x));
    } else {
        assert(a.push(x).drop_first() =~= a.drop_first().push(x));
        assert(a.push(x)[0] == a[0]);
        lemma_fields_push(a.drop_first(), x);
        assert(fields(a.push(x)) == field(a[0]) + (fields(a.drop_first()) + field(x)));
        assert(fields(a.push(x)) =~= fields(a) + field(x));
    }
}

proof fn lemma_parse_fields(pre: Seq<u8>, l: Seq<Seq<u8>>, suf: Seq<u8>)
    requires
        forall|i: int| 0 <= i < l.len() ==> (#[trigger] l[i]).len() <= u32::MAX,
    ensures
        parse_fields(pre + fields(l) + suf, pre.len() as int, l.len()) == Some(
            (l, (pre.len() + fields(l).len()) as int),
        ),
    decreases l.len(),
{
    let b = pre + fields(l) + suf;
    if l.len() > 0 {
        let p = pre.len() as int;
        let x = l[0];
        let rest = l.drop_first();
        assert(fields(l) == field(x) + fields(rest)) by {
            reveal(fields);
        }
        let pre2 = pre + field(x);
        assert(b =~= pre2 + fields(rest) + suf);
        assert forall|i: int| 0 <= i < rest.len() implies (#[trigger] rest[i]).len() <= u32::MAX by {
            assert(rest[i] == l[i + 1]);
        }
        lemma_parse_fields(pre2, rest, suf);
        lemma_u32_round_trip(x.len() as u32);
        assert(b.subrange(p, p + 4) =~= u32_bytes(x.len() as u32));
        assert(read_u32(b, p) == read_u32(u32_bytes(x.len() as u32), 0));
        assert(b.subrange(p + 4, p + 4 + x.len()) =~= x);
        assert(seq![x] + rest =~= l);
    } else {
        assert(fields(l) == Seq::<u8>::empty()) by {
            reveal(fields);
        }
        assert(b =~= pre + suf);
    }
}

proof fn lemma_status_bytes(s: u16)
    ensures
        read_u16(seq![(s >> 8u16) as u8, s as u8]) == s,
{
    let b = seq![(s >> 8u16) as u8, s as u8];
    let (b0, b1) = (b[0], b[1]);
    assert(((b0 as u16) << 8u16) | (b1 as u16) == s) by (bit_vector)
        requires
            b0 == (s >> 8u16) as u8,
            b1 == s as u8,
    ;
}

proof fn lemma_header_fields_decode(h: Seq<(String, String)>, l: Seq<Seq<u8>>)
    requires
        l.len() == 2 * h.len() + 1,
        forall|j: int| 0 <= j < 2 * h.len() ==> l[j] == header_fields(h)[j],
    ensures
        forall|j: int| 0 <= j < 2 * h.len() ==> valid_utf8(#[trigger] l[j]),
        Seq::new(h.len(), |i: int| (decode_utf8(l[2 * i]), decode_utf8(l[2 * i + 1])))
            == h.map_values(|p: (String, String)| (p.0@, p.1@)),
{
    let n = h.len();
    assert forall|j: int| 0 <= j < 2 * n implies valid_utf8(#[trigger] l[j]) by {
        assert(l[j] == header_fields(h)[j]);
        encode_utf8_valid_utf8(h[j / 2].0@);
        encode_utf8_valid_utf8(h[j / 2].1@);
    }
    let v = Seq::new(n, |i: int| (decode_utf8(l[2 * i]), decode_utf8(l[2 * i + 1])));
    assert forall|i: int| 0 <= i < n implies v[i] == (h[i].0@, h[i].1@) by {
        assert((2 * i) / 2 == i && (2 * i + 1) / 2 == i && (2 * i) % 2 == 0 && (2 * i + 1) % 2
            == 1);
        assert(l[2 * i] == header_fields(h)[2 * i]);
        assert(l[2 * i + 1] == header_fields(h)[2 * i + 1]);
        encode_utf8_decode_utf8(h[i].0@);
        encode_utf8_decode_utf8(h[i].1@);
    }
    assert(v =~= h.map_values(|p: (String, String)| (p.0@, p.1@)));
}

/// Round trip: decoding the stored form of a snapshot gives back its status,
/// its headers in order and its body.
#[verifier::rlimit(50)]
pub proof fn lemma_snapshot_round_trip(x: CachedResponse)
    requires
        encodable(x),
    ensures
        decode_spec(snapshot_bytes(x)) == Some(snapshot_view(x)),
{
    let h = x.headers@;
    let n = h.len();
    let l = header_fields(h).push(x.body@);
    let head = seq![(x.status >> 8u16) as u8, x.status as u8];
    let pre = head + u32_bytes(n as u32);
    let b = snapshot_bytes(x);
    assert(b =~= pre + fields(l) + Seq::<u8>::empty());
    assert forall|i: int| 0 <= i < l.len() implies (#[trigger] l[i]).len() <= u32::MAX by {
        if i < 2 * n {
            assert(encode_utf8(h[i / 2].0@).len() <= u32::MAX);
        }
    }
    lemma_parse_fields(pre, l, Seq::empty());
    assert(pre.len() == 6);
    assert(b.len() == pre.len() + fields(l).len());
    assert(l.len() == 2 * n + 1);
    assert(parse_fields(b, 6, 2 * n + 1) == Some((l, b.len() as int)));
    lemma_u32_round_trip(n as u32);
    assert(b.subrange(2, 6) =~= u32_bytes(n as u32));
    assert(read_u32(b, 2) == read_u32(u32_bytes(n as u32), 0));
    lemma_status_bytes(x.status);
    assert(b[0] == head[0] && b[1] == head[1]);
    assert(read_u16(b) == read_u16(head));
    lemma_header_fields_decode(h, l);
    assert(l[2 * n as int] == x.body@);
    assert(read_u32(b, 2) as nat == n);
}

/// Relies on `String::from_utf8`: it succeeds exactly on well-formed UTF-8,
/// and the string then holds the characters those bytes encode.
#[verifier::external_body]
fn string_from_utf8(b: Vec<u8>) -> (r: Option<String>)
    ensures
        match r {
            Some(s) => valid_utf8(b@) && s@ == decode_utf8(b@),
            None => !valid_utf8(b@),
        },
{
    String::from_utf8(b).ok()
}

fn push_u32(out: &mut Vec<u8>, n: u32)
    ensures
        final(out)@ == old(out)@ + u32_bytes(n),
{
    out.push((n >> 24u32) as u8);
    out.push((n >> 16u32) as u8);
    out.push((n >> 8u32) as u8);
    out.push(n as u8);
    assert(out@ =~= old(out)@ + u32_bytes(n));
}

fn push_field(out: &mut Vec<u8>, b: &[u8])
    requires
        b@.len() <= u32::MAX,
    ensures
        final(out)@ == old(out)@ + field(b@),
{
    push_u32(out, b.len() as u32);
    let ghost start = out@;
    let mut i: usize = 0;
    while i < b.len()
        invariant
            i <= b@.len(),
            out@ == start + b@.subrange(0, i as int),
        decreases b@.len() - i,
    {
        out.push(b[i]);
        assert(out@ =~= start + b@.subrange(0, i + 1));
        i = i + 1;
    }
    assert(b@.subrange(0, b@.len() as int) =~= b@);
    assert(out@ =~= old(out)@ + field(b@));
}

fn copy_range(b: &Vec<u8>, from: usize, to: usize) -> (r: Vec<u8>)
    requires
        from <= to <= b@.len(),
    ensures
        r@ == b@.subrange(from as int, to as int),
{
    let mut r: Vec<u8> = Vec::new();
    let mut i: usize = from;
    while i < to
        invariant
            from <= i <= to,
            to <= b@.len(),
            r@ == b@.subrange(from as int, i as int),
        decreases to - i,
    {
        r.push(b[i]);
        assert(r@ =~= b@.subrange(from as int, i + 1));
        i = i + 1;
    }
    r
}

/// The fields that byte ranges of `b` delimit.
pub open spec fn range_fields(b: Seq<u8>, rs: Seq<(usize, usize)>) -> Seq<Seq<u8>> {
    rs.map_values(|r: (usize, usize)| b.subrange(r.0 as int, r.1 as int))
}

pub open spec fn prepend(a: Seq<Seq<u8>>, o: Option<(Seq<Seq<u8>>, int)>) -> Option<
    (Seq<Seq<u8>>, int),
> {
    match o {
        Some((l, e)) => Some((a + l, e)),
        None => None,
    }
}

impl CachedResponse {
    /// The stored form of this snapshot.
    pub fn encode(&self) -> (r: Vec<u8>)
        requires
            encodable(*self),
        ensures
            r@ == snapshot_bytes(*self),
    {
        let mut out: Vec<u8> = Vec::new();
        out.push((self.status >> 8u16) as u8);
        out.push(self.status as u8);
        push_u32(&mut out, self.headers.len() as u32);
        let ghost head = out@;
        let ghost h = self.headers@;
        let ghost l = header_fields(h);
        let mut i: usize = 0;
        proof {
            assert(l.take(0) =~= Seq::<Seq<u8>>::empty());
            assert(fields(Seq::<Seq<u8>>::empty()) == Seq::<u8>::empty()) by {
                reveal(fields);
            }
            assert(out@ =~= head + fields(l.take(0)));
        }
        while i < self.headers.len()
            invariant
                i <= h.len(),
                h == self.headers@,
                l == header_fields(h),
                encodable(*self),
                out@ == head + fields(l.take(2 * i)),
            decreases h.len() - i,
        {
            let name = self.headers[i].0.as_str().as_bytes();
            let value = self.headers[i].1.as_str().as_bytes();
            assert(encode_utf8(h[i as int].0@).len() <= u32::MAX);
            push_field(&mut out, name);
            push_field(&mut out, value);
            proof {
                let t = l.take(2 * i);
                assert((2 * i) / 2 == i && (2 * i + 1) / 2 == i && (2 * i) % 2 == 0 && (2 * i + 1)
                    % 2 == 1);
                assert(l[2 * i] == encode_utf8(h[i as int].0@));
                assert(l[2 * i + 1] == encode_utf8(h[i as int].1@));
                lemma_fields_push(t, l[2 * i]);
                lemma_fields_push(t.push(l[2 * i]), l[2 * i + 1]);
                assert(l.take(2 * i + 2) =~= t.push(l[2 * i]).push(l[2 * i + 1]));
                assert(out@ =~= head + fields(l.take(2 * (i + 1))));
            }
            i = i + 1;
        }
        push_field(&mut out, self.body.as_slice());
        proof {
            assert(l.take(2 * h.len() as int) =~= l);
            lemma_fields_push(l, self.body@);
            assert(out@ =~= snapshot_bytes(*self));
        }
        out
    }

    /// Reads a snapshot back from its stored form; `None` when the bytes are
    /// not the stored form of any snapshot.
    pub fn decode(b: &Vec<u8>) -> (r: Option<CachedResponse>)
        ensures
            match decode_spec(b@) {
                Some(v) => r matches Some(x) && snapshot_view(x) == v,
                None => r is None,
            },
    {
        if b.len() < 6 {
            return None;
        }
        let status: u16 = ((b[0] as u16) << 8u16) | (b[1] as u16);
        let n: u32 = ((b[2] as u32) << 24u32) | ((b[3] as u32) << 16u32) | ((b[4] as u32) << 8u32)
            | (b[5] as u32);
        assert(status == read_u16(b@));
        assert(n == read_u32(b@, 2));
        let k: u64 = 2 * (n as u64) + 1;
        let mut ranges: Vec<(usize, usize)> = Vec::new();
        let mut p: usize = 6;
        let mut i: u64 = 0;
        assert(range_fields(b@, ranges@) =~= Seq::<Seq<u8>>::empty());
        assert(prepend(Seq::empty(), parse_fields(b@, 6, k as nat)) =~= parse_fields(
            b@,
            6,
            k as nat,
        )) by {
            match parse_fields(b@, 6, k as nat) {
                Some((l, e)) => {
                    assert(Seq::<Seq<u8>>::empty() + l =~= l);
                },
                None => {},
            }
        }
        while i < k
            invariant
                6 <= p <= b@.len(),
                n == read_u32(b@, 2),
                i <= k,
                k == 2 * (n as u64) + 1,
                ranges@.len() == i,
                forall|t: int| 0 <= t < ranges@.len() ==> (#[trigger] ranges@[t]).0 <= ranges@[t].1 <= b@.len(),
                parse_fields(b@, 6, k as nat) == prepend(
                    range_fields(b@, ranges@),
                    parse_fields(b@, p as int, (k - i) as nat),
                ),
            decreases k - i,
        {
            if b.len() - p < 4 {
                assert(parse_fields(b@, p as int, (k - i) as nat) is None);
                assert(parse_fields(b@, 6, (2 * (n as nat) + 1) as nat) is None);
                return None;
            }
            let m: u32 = ((b[p] as u32) << 24u32) | ((b[p + 1] as u32) << 16u32) | ((b[p + 2] as u32)
                << 8u32) | (b[p + 3] as u32);
            assert(m == read_u32(b@, p as int));
            if (b.len() - p - 4) < m as usize {
                assert(parse_fields(b@, p as int, (k - i) as nat) is None);
                assert(parse_fields(b@, 6, (2 * (n as nat) + 1) as nat) is None);
                return None;
            }
            let start = p + 4;
            let end = start + m as usize;
            let ghost old_ranges = range_fields(b@, ranges@);
            ranges.push((start, end));
            proof {
                let f = b@.subrange(start as int, end as int);
                assert(range_fields(b@, ranges@) =~= old_ranges.push(f));
                match parse_fields(b@, end as int, (k - i - 1) as nat) {
                    Some((l, e)) => {
                        assert(old_ranges.push(f) + l =~= old_ranges + (seq![f] + l));
                    },
                    None => {},
                }
            }
            p = end;
            i = i + 1;
        }
        let ghost f = range_fields(b@, ranges@);
        assert(parse_fields(b@, 6, k as nat) == Some((f, p as int))) by {
            assert(f + Seq::<Seq<u8>>::empty() =~= f);
        }
        if p != b.len() {
            return None;
        }
        let rl = ranges.len();
        let mut headers: Vec<(String, String)> = Vec::new();
        let mut j: usize = 0;
        while (j as u64) < (n as u64)
            invariant
                j <= n,
                ranges@.len() == 2 * (n as int) + 1,
                rl == ranges@.len(),
                n == read_u32(b@, 2),
                b@.len() >= 6,
                parse_fields(b@, 6, (2 * (n as nat) + 1) as nat) == Some((f, b@.len() as int)),
                forall|t: int| 0 <= t < ranges@.len() ==> (#[trigger] ranges@[t]).0 <= ranges@[t].1 <= b@.len(),
                f == range_fields(b@, ranges@),
                headers@.len() == j,
                forall|t: int| 0 <= t < 2 * j ==> valid_utf8(#[trigger] f[t]),
                forall|t: int| 0 <= t < j ==> (#[trigger] headers@[t]).0@ == decode_utf8(f[2 * t])
                    && headers@[t].1@ == decode_utf8(f[2 * t + 1]),
            decreases n - j,
        {
            let a = 2 * j;
            let (s0, e0) = ranges[a];
            let (s1, e1) = ranges[a + 1];
            assert(f[2 * j as int] == b@.subrange(s0 as int, e0 as int));
            assert(f[2 * j + 1] == b@.subrange(s1 as int, e1 as int));
            let name = match string_from_utf8(copy_range(b, s0, e0)) {
                Some(s) => s,
                None => {
                    assert(!valid_utf8(f[2 * j as int]));
                    return None;
                },
            };
            let value = match string_from_utf8(copy_range(b, s1, e1)) {
                Some(s) => s,
                None => {
                    assert(!valid_utf8(f[2 * j + 1]));
                    return None;
                },
            };
            headers.push((name, value));
            j = j + 1;
        }
        let (sb, eb) = ranges[rl - 1];
        let body = copy_range(b, sb, eb);
        let r = CachedResponse { status, headers, body };
        proof {
            let v = Seq::new(n as nat, |t: int| (decode_utf8(f[2 * t]), decode_utf8(f[2 * t + 1])));
            assert(r.headers@.map_values(|q: (String, String)| (q.0@, q.1@)) =~= v);
        }
        Some(r)
    }
}

} // verus!
