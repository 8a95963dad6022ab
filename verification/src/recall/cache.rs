//! Ground-truth cache: a byte format that holds the hits of every query under
//! the parameters they were computed with.
//!
//! Layout: the magic `GKGT1\n`; the length of the parameter text in bytes and
//! its bytes; the number of queries; per query the number of hits, and per hit
//! its id and the bit pattern of its score. All numbers are 32-bit
//! little-endian.

use vstd::prelude::*;
use crate::scan::hit::Hit;
use crate::text;

verus! {

/// The four bytes of a number, little-endian; higher parts are cut off.
pub open spec fn le32(n: int) -> Seq<u8> {
    seq![
        (n % 0x100) as u8,
        (n / 0x100 % 0x100) as u8,
        (n / 0x1_0000 % 0x100) as u8,
        (n / 0x100_0000 % 0x100) as u8,
    ]
}

/// The bytes of a hit.
pub open spec fn hit_bytes(h: Hit) -> Seq<u8> {
    le32(h.id as int) + le32(h.score as int)
}

/// The bytes of hits, one after another.
pub open spec fn hits_bytes(hits: Seq<Hit>) -> Seq<u8>
    decreases hits.len(),
{
    if hits.len() == 0 {
        Seq::empty()
    } else {
        hits_bytes(hits.drop_last()) + hit_bytes(hits.last())
    }
}

/// The bytes of one query's hits, with their number in front.
pub open spec fn list_bytes(hits: Seq<Hit>) -> Seq<u8> {
    le32(hits.len() as int) + hits_bytes(hits)
}

/// The bytes of several queries' hits.
pub open spec fn lists_bytes(lists: Seq<Seq<Hit>>) -> Seq<u8>
    decreases lists.len(),
{
    if lists.len() == 0 {
        Seq::empty()
    } else {
        lists_bytes(lists.drop_last()) + list_bytes(lists.last())
    }
}

/// The bytes in front of the hits.
#[verifier::opaque]
pub open spec fn front_bytes(params: Seq<u8>, queries: int) -> Seq<u8> {
    seq![0x47u8, 0x4B, 0x47, 0x54, 0x31, 0x0A] + le32(params.len() as int) + params + le32(queries)
}

/// The bytes of a cache.
pub open spec fn cache_bytes(params: Seq<u8>, lists: Seq<Seq<Hit>>) -> Seq<u8> {
    front_bytes(params, lists.len() as int) + lists_bytes(lists)
}

/// All lengths fit in 32 bits, so the format holds them whole.
pub open spec fn sizes_fit(params: Seq<u8>, lists: Seq<Seq<Hit>>) -> bool {
    &&& params.len() <= u32::MAX
    &&& lists.len() <= u32::MAX
    &&& lists_fit(lists)
}

/// `bytes` are a cache of `lists` under the parameters.
pub open spec fn caches(bytes: Seq<u8>, params: Seq<u8>, lists: Seq<Seq<Hit>>) -> bool {
    sizes_fit(params, lists) && bytes == cache_bytes(params, lists)
}

/// `bytes` are no cache under the parameters.
pub open spec fn caches_none(bytes: Seq<u8>, params: Seq<u8>) -> bool {
    forall|lists: Seq<Seq<Hit>>| !#[trigger] caches(bytes, params, lists)
}

/// The hits of all queries, as sequences.
pub open spec fn views(lists: Seq<Vec<Hit>>) -> Seq<Seq<Hit>> {
    Seq::new(lists.len(), |i: int| lists[i]@)
}

/// The bytes begin with `front`.
pub open spec fn begins(bytes: Seq<u8>, front: Seq<u8>) -> bool {
    front.len() <= bytes.len() && bytes.take(front.len() as int) == front
}

/// Number `n` stands in `bytes` at `at`.
pub open spec fn reads(bytes: Seq<u8>, at: int) -> int {
    bytes[at] + 0x100 * bytes[at + 1] + 0x1_0000 * bytes[at + 2] + 0x100_0000 * bytes[at + 3]
}

/// A number is read back from its bytes.
proof fn lemma_le32(bytes: Seq<u8>, at: int, n: int)
    requires
        0 <= n <= u32::MAX,
        0 <= at,
        at + 4 <= bytes.len(),
        bytes.subrange(at, at + 4) == le32(n),
    ensures
        reads(bytes, at) == n,
{
    let s = bytes.subrange(at, at + 4);
    assert(s[0] == bytes[at] && s[1] == bytes[at + 1] && s[2] == bytes[at + 2] && s[3] == bytes[at
        + 3]);
}

/// A number's bytes are those that are read.
proof fn lemma_reads(bytes: Seq<u8>, at: int)
    requires
        0 <= at,
        at + 4 <= bytes.len(),
    ensures
        bytes.subrange(at, at + 4) == le32(reads(bytes, at)),
        0 <= reads(bytes, at) <= u32::MAX,
{
    lemma_byte_places(
        bytes[at] as int,
        bytes[at + 1] as int,
        bytes[at + 2] as int,
        bytes[at + 3] as int,
    );
    assert(bytes.subrange(at, at + 4) =~= le32(reads(bytes, at)));
}

/// Bytes are the digits of the number they make up.
proof fn lemma_byte_places(a: int, b: int, c: int, d: int)
    requires
        0 <= a < 0x100,
        0 <= b < 0x100,
        0 <= c < 0x100,
        0 <= d < 0x100,
    ensures
        ({
            let n = a + 0x100 * b + 0x1_0000 * c + 0x100_0000 * d;
            &&& n % 0x100 == a
            &&& n / 0x100 % 0x100 == b
            &&& n / 0x1_0000 % 0x100 == c
            &&& n / 0x100_0000 % 0x100 == d
        }),
{
    let n = a + 0x100 * b + 0x1_0000 * c + 0x100_0000 * d;
    let high = c + 0x100 * d;
    let middle = b + 0x100 * high;
    assert(n / 0x100 == middle && n % 0x100 == a);
    assert(n / 0x1_0000 == high);
    assert(n / 0x100_0000 == d);
}

/// The length of hits in bytes.
proof fn lemma_hits_len(hits: Seq<Hit>)
    ensures
        hits_bytes(hits).len() == 8 * hits.len(),
    decreases hits.len(),
{
    if hits.len() > 0 {
        lemma_hits_len(hits.drop_last());
    }
}

/// Equally many hits that the same bytes begin with are the same.
proof fn lemma_hits_unique(bytes: Seq<u8>, a: Seq<Hit>, b: Seq<Hit>)
    requires
        a.len() == b.len(),
        begins(bytes, hits_bytes(a)),
        begins(bytes, hits_bytes(b)),
    ensures
        a == b,
    decreases a.len(),
{
    if a.len() > 0 {
        let n = a.len() - 1;
        lemma_hits_len(a);
        lemma_hits_len(b);
        lemma_hits_len(a.drop_last());
        lemma_hits_len(b.drop_last());
        let at = 8 * n;
        assert(bytes.take(at) =~= bytes.take(at + 8).take(at));
        assert(hits_bytes(a).take(at) =~= hits_bytes(a.drop_last()));
        assert(hits_bytes(b).take(at) =~= hits_bytes(b.drop_last()));
        lemma_hits_unique(bytes, a.drop_last(), b.drop_last());
        let (x, y) = (a.last(), b.last());
        let tail = bytes.take(at + 8).subrange(at, at + 8);
        assert(tail =~= hit_bytes(x));
        assert(tail =~= hit_bytes(y));
        assert(tail.subrange(0, 4) =~= le32(x.id as int));
        assert(tail.subrange(0, 4) =~= le32(y.id as int));
        assert(tail.subrange(4, 8) =~= le32(x.score as int));
        assert(tail.subrange(4, 8) =~= le32(y.score as int));
        lemma_le32(tail, 0, x.id as int);
        lemma_le32(tail, 0, y.id as int);
        lemma_le32(tail, 4, x.score as int);
        lemma_le32(tail, 4, y.score as int);
        assert(x == y);
        assert(a =~= a.drop_last().push(x));
        assert(b =~= b.drop_last().push(y));
    } else {
        assert(a =~= b);
    }
}

/// Lists that the same bytes begin with are the same.
proof fn lemma_list_unique(bytes: Seq<u8>, a: Seq<Hit>, b: Seq<Hit>)
    requires
        a.len() <= u32::MAX,
        b.len() <= u32::MAX,
        begins(bytes, list_bytes(a)),
        begins(bytes, list_bytes(b)),
    ensures
        a == b,
{
    lemma_hits_len(a);
    lemma_hits_len(b);
    let la = list_bytes(a).len() as int;
    let lb = list_bytes(b).len() as int;
    assert(bytes.subrange(0, 4) =~= bytes.take(la).subrange(0, 4));
    assert(bytes.subrange(0, 4) =~= bytes.take(lb).subrange(0, 4));
    assert(list_bytes(a).subrange(0, 4) =~= le32(a.len() as int));
    assert(list_bytes(b).subrange(0, 4) =~= le32(b.len() as int));
    lemma_le32(bytes, 0, a.len() as int);
    lemma_le32(bytes, 0, b.len() as int);
    let rest = bytes.skip(4);
    assert(rest.take(la - 4) =~= bytes.take(la).skip(4));
    assert(rest.take(lb - 4) =~= bytes.take(lb).skip(4));
    assert(list_bytes(a).skip(4) =~= hits_bytes(a));
    assert(list_bytes(b).skip(4) =~= hits_bytes(b));
    lemma_hits_unique(rest, a, b);
}

/// Equally many lists that the same bytes begin with are the same.
proof fn lemma_lists_unique(bytes: Seq<u8>, a: Seq<Seq<Hit>>, b: Seq<Seq<Hit>>)
    requires
        a.len() == b.len(),
        forall|i: int| 0 <= i < a.len() ==> (#[trigger] a[i]).len() <= u32::MAX,
        forall|i: int| 0 <= i < b.len() ==> (#[trigger] b[i]).len() <= u32::MAX,
        begins(bytes, lists_bytes(a)),
        begins(bytes, lists_bytes(b)),
    ensures
        a == b,
    decreases a.len(),
{
    if a.len() > 0 {
        let (fa, fb) = (a.drop_last(), b.drop_last());
        lemma_begins_parts(bytes, lists_bytes(fa), list_bytes(a.last()));
        lemma_begins_parts(bytes, lists_bytes(fb), list_bytes(b.last()));
        lemma_lists_unique(bytes, fa, fb);
        let at = lists_bytes(fa).len() as int;
        assert(a[a.len() - 1].len() <= u32::MAX && b[b.len() - 1].len() <= u32::MAX);
        lemma_list_unique(bytes.skip(at), a.last(), b.last());
        assert(a =~= fa.push(a.last()));
        assert(b =~= fb.push(b.last()));
    } else {
        assert(a =~= b);
    }
}

/// Bytes that begin with two parts begin with the first, and go on with the
/// second.
proof fn lemma_begins_parts(bytes: Seq<u8>, first: Seq<u8>, second: Seq<u8>)
    requires
        begins(bytes, first + second),
    ensures
        begins(bytes, first),
        begins(bytes.skip(first.len() as int), second),
{
    let n = (first + second).len() as int;
    let at = first.len() as int;
    assert(bytes.take(at) =~= bytes.take(n).take(at));
    assert((first + second).take(at) =~= first);
    assert(bytes.skip(at).take(n - at) =~= bytes.take(n).skip(at));
    assert((first + second).skip(at) =~= second);
}

/// The lists of a shorter cache come first in a longer one.
proof fn lemma_lists_prefix(lists: Seq<Seq<Hit>>, n: int)
    requires
        0 <= n <= lists.len(),
    ensures
        begins(lists_bytes(lists), lists_bytes(lists.take(n))),
    decreases lists.len() - n,
{
    if n == lists.len() {
        assert(lists.take(n) =~= lists);
        assert(lists_bytes(lists).take(lists_bytes(lists).len() as int) =~= lists_bytes(lists));
    } else {
        lemma_lists_prefix(lists, n + 1);
        assert(lists.take(n + 1).drop_last() =~= lists.take(n));
        let (short, long) = (lists_bytes(lists.take(n)), lists_bytes(lists.take(n + 1)));
        assert(long == short + list_bytes(lists.take(n + 1).last()));
        lemma_begins_parts(lists_bytes(lists), short, list_bytes(lists.take(n + 1).last()));
    }
}

/// Reading gives back what was written: a cache holds one list of hits per
/// query, and no other.
pub proof fn law_cache_round_trip(
    bytes: Seq<u8>,
    params: Seq<u8>,
    written: Seq<Seq<Hit>>,
    read: Seq<Seq<Hit>>,
)
    requires
        caches(bytes, params, written),
        caches(bytes, params, read),
    ensures
        read == written,
{
    lemma_front(bytes, params, written.len() as int, lists_bytes(written));
    lemma_front(bytes, params, read.len() as int, lists_bytes(read));
    let at = 6 + 4 + params.len() + 4;
    let rest = bytes.skip(at as int);
    assert(rest =~= lists_bytes(written));
    assert(rest =~= lists_bytes(read));
    assert(rest.take(rest.len() as int) =~= rest);
    lemma_lists_unique(rest, written, read);
}

/// A cache is stale under any other parameters.
pub proof fn law_stale_parameters_miss(
    bytes: Seq<u8>,
    params: Seq<u8>,
    other: Seq<u8>,
    written: Seq<Seq<Hit>>,
    read: Seq<Seq<Hit>>,
)
    requires
        caches(bytes, params, written),
        params != other,
    ensures
        !caches(bytes, other, read),
{
    if caches(bytes, other, read) {
        lemma_front(bytes, params, written.len() as int, lists_bytes(written));
        lemma_front(bytes, other, read.len() as int, lists_bytes(read));
        assert(bytes.subrange(10, 10 + params.len() as int) =~= params);
        assert(bytes.subrange(10, 10 + other.len() as int) =~= other);
    }
}

/// The parts of the front of a cache.
proof fn lemma_front(bytes: Seq<u8>, params: Seq<u8>, queries: int, rest: Seq<u8>)
    requires
        params.len() <= u32::MAX,
        0 <= queries <= u32::MAX,
        bytes == front_bytes(params, queries) + rest,
    ensures
        bytes.len() == 14 + params.len() + rest.len(),
        bytes.take(6) == seq![0x47u8, 0x4B, 0x47, 0x54, 0x31, 0x0A],
        reads(bytes, 6) == params.len(),
        bytes.subrange(10, 10 + params.len() as int) == params,
        reads(bytes, 10 + params.len() as int) == queries,
        bytes.skip(14 + params.len() as int) == rest,
{
    reveal(front_bytes);
    let n = params.len() as int;
    assert(bytes.take(6) =~= seq![0x47u8, 0x4B, 0x47, 0x54, 0x31, 0x0A]);
    assert(bytes.subrange(6, 10) =~= le32(n));
    lemma_le32(bytes, 6, n);
    assert(bytes.subrange(10, 10 + n) =~= params);
    assert(bytes.subrange(10 + n, 14 + n) =~= le32(queries));
    lemma_le32(bytes, 10 + n, queries);
    assert(bytes.skip(14 + n) =~= rest);
}

/// Appends the low 32 bits of a number.
fn push_le32(out: &mut Vec<u8>, n: u64)
    ensures
        final(out)@ == old(out)@ + le32(n as int),
{
    out.push((n % 0x100) as u8);
    out.push((n / 0x100 % 0x100) as u8);
    out.push((n / 0x1_0000 % 0x100) as u8);
    out.push((n / 0x100_0000 % 0x100) as u8);
    assert(out@ =~= old(out)@ + le32(n as int));
}

/// Writes a cache: the bytes of the hits under a parameter text.
pub fn encode_gt(params: &str, gt: &[Vec<Hit>]) -> (r: Vec<u8>)
    ensures
        r@ == cache_bytes(vstd::utf8::encode_utf8(params@), views(gt@)),
        sizes_fit(vstd::utf8::encode_utf8(params@), views(gt@)) ==> caches(
            r@,
            vstd::utf8::encode_utf8(params@),
            views(gt@),
        ),
{
    let text: &[u8] = params.as_bytes();
    let ghost bytes = vstd::utf8::encode_utf8(params@);
    let mut out: Vec<u8> = vec![0x47, 0x4B, 0x47, 0x54, 0x31, 0x0A];
    push_le32(&mut out, text.len() as u64);
    let ghost front = out@;
    let mut i: usize = 0;
    assert(out@ =~= front + text@.take(0));
    while i < text.len()
        invariant
            i <= text@.len(),
            out@ == front + text@.take(i as int),
        decreases text@.len() - i,
    {
        out.push(text[i]);
        i += 1;
        assert(out@ =~= front + text@.take(i as int));
    }
    assert(text@.take(i as int) =~= text@);
    push_le32(&mut out, gt.len() as u64);
    proof {
        reveal(front_bytes);
        assert(out@ =~= front_bytes(bytes, gt@.len() as int));
    }
    let ghost head = out@;
    let mut q: usize = 0;
    assert(views(gt@).take(0) =~= Seq::<Seq<Hit>>::empty());
    assert(out@ =~= head + lists_bytes(views(gt@).take(0)));
    while q < gt.len()
        invariant
            q <= gt@.len(),
            out@ == head + lists_bytes(views(gt@).take(q as int)),
        decreases gt@.len() - q,
    {
        let hits: &Vec<Hit> = &gt[q];
        let ghost before = out@;
        push_le32(&mut out, hits.len() as u64);
        let mut j: usize = 0;
        assert(hits@.take(0) =~= Seq::<Hit>::empty());
        assert(out@ =~= before + le32(hits@.len() as int) + hits_bytes(hits@.take(0)));
        while j < hits.len()
            invariant
                j <= hits@.len(),
                out@ == before + le32(hits@.len() as int) + hits_bytes(hits@.take(j as int)),
            decreases hits@.len() - j,
        {
            let h: Hit = hits[j];
            push_le32(&mut out, h.id as u64);
            push_le32(&mut out, h.score as u64);
            j += 1;
            assert(hits@.take(j as int).drop_last() =~= hits@.take(j - 1));
            assert(out@ =~= before + le32(hits@.len() as int) + hits_bytes(hits@.take(j as int)));
        }
        assert(hits@.take(j as int) =~= hits@);
        q += 1;
        assert(views(gt@).take(q as int).drop_last() =~= views(gt@).take(q - 1));
        assert(views(gt@).take(q as int).last() == hits@);
        assert(out@ =~= head + lists_bytes(views(gt@).take(q as int)));
    }
    assert(views(gt@).take(q as int) =~= views(gt@));
    out
}

/// Reads a number.
fn read_le32(bytes: &[u8], at: usize) -> (r: u32)
    requires
        at + 4 <= bytes@.len(),
    ensures
        r == reads(bytes@, at as int),
{
    let total: usize = bytes.len();
    bytes[at] as u32 + 0x100 * bytes[at + 1] as u32 + 0x1_0000 * bytes[at + 2] as u32 + 0x100_0000
        * bytes[at + 3] as u32
}

/// Reads one query's hits at `at`: the hits and where they end, or `None`
/// where no list stands there.
fn read_list(bytes: &[u8], at: usize) -> (r: Option<(Vec<Hit>, usize)>)
    requires
        at <= bytes@.len(),
    ensures
        match r {
            Some((hits, end)) => {
                &&& hits@.len() <= u32::MAX
                &&& at <= end <= bytes@.len()
                &&& bytes@.subrange(at as int, end as int) == list_bytes(hits@)
            },
            None => forall|hits: Seq<Hit>|
                hits.len() <= u32::MAX ==> !begins(bytes@.skip(at as int), #[trigger] list_bytes(hits)),
        },
{
    let total: usize = bytes.len();
    let ghost tail = bytes@.skip(at as int);
    if total - at < 4 {
        assert forall|hits: Seq<Hit>| hits.len() <= u32::MAX implies !begins(
            tail,
            #[trigger] list_bytes(hits),
        ) by {
            assert(list_bytes(hits).len() >= 4);
        }
        return None;
    }
    let len: u32 = read_le32(bytes, at);
    assert forall|hits: Seq<Hit>|
        hits.len() <= u32::MAX && begins(tail, #[trigger] list_bytes(hits)) implies hits.len()
        == len && 4 + 8 * len <= tail.len() by {
        lemma_hits_len(hits);
        let n = list_bytes(hits).len() as int;
        assert(bytes@.subrange(at as int, at + 4) =~= tail.take(n).subrange(0, 4));
        assert(list_bytes(hits).subrange(0, 4) =~= le32(hits.len() as int));
        lemma_le32(bytes@, at as int, hits.len() as int);
    }
    if ((total - at - 4) / 8) < len as usize {
        return None;
    }
    let mut hits: Vec<Hit> = Vec::new();
    let mut i: u32 = 0;
    let mut pos: usize = at + 4;
    proof {
        lemma_reads(bytes@, at as int);
    }
    assert(bytes@.subrange(at + 4, pos as int) =~= hits_bytes(hits@));
    while i < len
        invariant
            i <= len,
            total == bytes@.len(),
            at + 4 <= total,
            8 * len <= total - at - 4,
            pos == at + 4 + 8 * i,
            hits@.len() == i,
            bytes@.subrange(at + 4, pos as int) == hits_bytes(hits@),
        decreases len - i,
    {
        let id: u32 = read_le32(bytes, pos);
        let score: u32 = read_le32(bytes, pos + 4);
        let ghost before = hits@;
        hits.push(Hit { id, score });
        proof {
            lemma_reads(bytes@, pos as int);
            lemma_reads(bytes@, pos + 4);
            assert(hits@.drop_last() =~= before);
            assert(bytes@.subrange(at + 4, pos + 8) =~= bytes@.subrange(at + 4, pos as int)
                + bytes@.subrange(pos as int, pos + 4) + bytes@.subrange(pos + 4, pos + 8));
            assert(bytes@.subrange(at + 4, pos + 8) =~= hits_bytes(hits@));
        }
        pos += 8;
        i += 1;
    }
    assert(bytes@.subrange(at as int, pos as int) =~= bytes@.subrange(at as int, at + 4)
        + bytes@.subrange(at + 4, pos as int));
    Some((hits, pos))
}

/// No list is longer than the format can say.
pub open spec fn lists_fit(lists: Seq<Seq<Hit>>) -> bool {
    forall|i: int| 0 <= i < lists.len() ==> (#[trigger] lists[i]).len() <= u32::MAX
}

/// Reads the hits of `queries` queries, from `start` to the very end.
fn read_lists(bytes: &[u8], start: usize, queries: u32) -> (r: Option<Vec<Vec<Hit>>>)
    requires
        start <= bytes@.len(),
    ensures
        match r {
            Some(gt) => {
                &&& gt@.len() == queries
                &&& lists_fit(views(gt@))
                &&& bytes@.skip(start as int) == lists_bytes(views(gt@))
            },
            None => forall|lists: Seq<Seq<Hit>>|
                lists.len() == queries && lists_fit(lists) ==> bytes@.skip(start as int)
                    != #[trigger] lists_bytes(lists),
        },
{
    let total: usize = bytes.len();
    let ghost tail = bytes@.skip(start as int);
    let mut gt: Vec<Vec<Hit>> = Vec::new();
    let mut at: usize = start;
    let mut q: u32 = 0;
    assert(views(gt@) =~= Seq::<Seq<Hit>>::empty());
    assert(tail.subrange(0, at - start) =~= lists_bytes(views(gt@)));
    while q < queries
        invariant
            q <= queries,
            total == bytes@.len(),
            start <= at <= total,
            tail == bytes@.skip(start as int),
            gt@.len() == q,
            lists_fit(views(gt@)),
            tail.subrange(0, at - start) == lists_bytes(views(gt@)),
        decreases queries - q,
    {
        let ghost before = views(gt@);
        match read_list(bytes, at) {
            None => {
                proof {
                    assert(tail.skip(at - start) =~= bytes@.skip(at as int));
                    assert forall|lists: Seq<Seq<Hit>>|
                        lists.len() == queries && lists_fit(lists) implies tail
                        != #[trigger] lists_bytes(lists) by {
                        if tail == lists_bytes(lists) {
                            lemma_next_list(tail, lists, before, at - start);
                        }
                    }
                }
                return None;
            },
            Some((hits, end)) => {
                let ghost list = hits@;
                gt.push(hits);
                proof {
                    assert(views(gt@) =~= before.push(list));
                    assert(views(gt@).drop_last() =~= before);
                    assert(tail.subrange(0, end - start) =~= tail.subrange(0, at - start)
                        + bytes@.subrange(at as int, end as int));
                    assert forall|i: int| 0 <= i < gt@.len() implies (#[trigger] views(
                        gt@,
                    )[i]).len() <= u32::MAX by {
                        if i < q {
                            assert(views(gt@)[i] == before[i]);
                        }
                    }
                }
                at = end;
            },
        }
        q += 1;
    }
    if at != total {
        proof {
            assert forall|lists: Seq<Seq<Hit>>|
                lists.len() == queries && lists_fit(lists) implies tail != #[trigger] lists_bytes(
                lists,
            ) by {
                if tail == lists_bytes(lists) {
                    lemma_same_start(tail, lists, views(gt@), at - start);
                    assert(lists.take(q as int) =~= lists);
                }
            }
        }
        return None;
    }
    assert(tail.subrange(0, at - start) =~= tail);
    Some(gt)
}

/// Behind the lists read so far stands the next of any lists that the bytes
/// hold.
proof fn lemma_next_list(tail: Seq<u8>, lists: Seq<Seq<Hit>>, read: Seq<Seq<Hit>>, len: int)
    requires
        tail == lists_bytes(lists),
        read.len() < lists.len(),
        0 <= len <= tail.len(),
        tail.subrange(0, len) == lists_bytes(read),
        lists_fit(lists),
        lists_fit(read),
    ensures
        begins(tail.skip(len), list_bytes(lists[read.len() as int])),
        lists[read.len() as int].len() <= u32::MAX,
{
    let q = read.len() as int;
    lemma_same_start(tail, lists, read, len);
    lemma_lists_prefix(lists, q + 1);
    assert(lists.take(q + 1).drop_last() =~= lists.take(q));
    lemma_begins_parts(tail, lists_bytes(lists.take(q)), list_bytes(lists[q]));
}

/// Reads a cache: the hits of every query, where the bytes are a cache under
/// exactly these parameters. Anything else (other parameters, a cut or longer
/// file) is a miss.
pub fn decode_gt(bytes: &[u8], params: &str) -> (r: Option<Vec<Vec<Hit>>>)
    ensures
        match r {
            Some(gt) => caches(bytes@, vstd::utf8::encode_utf8(params@), views(gt@)),
            None => caches_none(bytes@, vstd::utf8::encode_utf8(params@)),
        },
{
    let total: usize = bytes.len();
    let text: &[u8] = params.as_bytes();
    let n: usize = text.len();
    let ghost want = vstd::utf8::encode_utf8(params@);
    let ghost magic = seq![0x47u8, 0x4B, 0x47, 0x54, 0x31, 0x0A];
    assert forall|lists: Seq<Seq<Hit>>| #[trigger] caches(bytes@, want, lists) implies {
        &&& total >= 14 + n
        &&& bytes@.subrange(0, 6) == magic
        &&& reads(bytes@, 6) == n
        &&& bytes@.subrange(10, 10 + n) == want
        &&& reads(bytes@, 10 + n) == lists.len()
        &&& bytes@.skip(14 + n) == lists_bytes(lists)
    } by {
        lemma_front(bytes@, want, lists.len() as int, lists_bytes(lists));
        assert(bytes@.subrange(0, 6) =~= bytes@.take(6));
    }
    if total < 14 || total - 14 < n {
        return None;
    }
    let expected: [u8; 6] = [0x47, 0x4B, 0x47, 0x54, 0x31, 0x0A];
    assert(expected@ =~= magic);
    if !text::same_bytes(&bytes[0..6], &expected) {
        return None;
    }
    if read_le32(bytes, 6) as u64 != n as u64 {
        return None;
    }
    if !text::same_bytes(&bytes[10..10 + n], text) {
        return None;
    }
    let queries: u32 = read_le32(bytes, 10 + n);
    let r: Option<Vec<Vec<Hit>>> = read_lists(bytes, 14 + n, queries);
    proof {
        if r is Some {
            lemma_whole(bytes@, want, views(r->0@));
        }
    }
    r
}

/// Bytes with the right front and lists behind it are a cache.
proof fn lemma_whole(bytes: Seq<u8>, params: Seq<u8>, lists: Seq<Seq<Hit>>)
    requires
        bytes.len() >= 14 + params.len(),
        bytes.subrange(0, 6) == seq![0x47u8, 0x4B, 0x47, 0x54, 0x31, 0x0A],
        reads(bytes, 6) == params.len(),
        bytes.subrange(10, 10 + params.len() as int) == params,
        reads(bytes, 10 + params.len() as int) == lists.len(),
        lists_fit(lists),
        bytes.skip(14 + params.len() as int) == lists_bytes(lists),
    ensures
        caches(bytes, params, lists),
{
    reveal(front_bytes);
    let n = params.len() as int;
    lemma_reads(bytes, 6);
    lemma_reads(bytes, 10 + n);
    assert(bytes =~= bytes.subrange(0, 6) + bytes.subrange(6, 10) + bytes.subrange(10, 10 + n)
        + bytes.subrange(10 + n, 14 + n) + bytes.skip(14 + n));
}

/// The lists read so far are the first of any lists that the bytes cache.
proof fn lemma_same_start(tail: Seq<u8>, lists: Seq<Seq<Hit>>, read: Seq<Seq<Hit>>, len: int)
    requires
        tail == lists_bytes(lists),
        read.len() <= lists.len(),
        0 <= len <= tail.len(),
        tail.subrange(0, len) == lists_bytes(read),
        lists_fit(lists),
        lists_fit(read),
    ensures
        lists.take(read.len() as int) == read,
        lists_bytes(read).len() == len,
{
    lemma_lists_prefix(lists, read.len() as int);
    assert(tail.take(len) =~= tail.subrange(0, len));
    lemma_lists_unique(tail, lists.take(read.len() as int), read);
}

/// The ground truth of a cache file's bytes where they hold it under these
/// parameters, else what `compute` gives; and whether it came from the cache.
pub fn load_or_compute_gt<F: FnOnce() -> Vec<Vec<Hit>>>(
    cached: Option<&[u8]>,
    params: &str,
    compute: F,
) -> (r: (Vec<Vec<Hit>>, bool))
    requires
        call_requires(compute, ()),
    ensures
        r.1 <==> (cached is Some && !caches_none(cached->0@, vstd::utf8::encode_utf8(params@))),
        r.1 ==> caches(cached->0@, vstd::utf8::encode_utf8(params@), views(r.0@)),
        !r.1 ==> call_ensures(compute, (), r.0),
{
    if let Some(bytes) = cached {
        if let Some(gt) = decode_gt(bytes, params) {
            return (gt, true);
        }
    }
    (compute(), false)
}

/// A cut or lengthened cache misses: neither a proper front part of a cache nor
/// a cache with something behind it holds any lists under its parameters.
pub proof fn law_cut_or_lengthened_misses(
    bytes: Seq<u8>,
    params: Seq<u8>,
    written: Seq<Seq<Hit>>,
    other: Seq<u8>,
    read: Seq<Seq<Hit>>,
)
    requires
        caches(bytes, params, written),
        other.len() != bytes.len(),
        begins(bytes, other) || begins(other, bytes),
    ensures
        !caches(other, params, read),
{
    if caches(other, params, read) {
        let (short, long, a, b) = if bytes.len() < other.len() {
            (bytes, other, written, read)
        } else {
            (other, bytes, read, written)
        };
        lemma_front(short, params, a.len() as int, lists_bytes(a));
        lemma_front(long, params, b.len() as int, lists_bytes(b));
        let n = params.len() as int;
        let at = 10 + n;
        assert forall|j: int| 0 <= j < short.len() implies #[trigger] short[j] == long[j] by {
            assert(long.take(short.len() as int)[j] == long[j]);
        }
        assert(reads(short, at) == reads(long, at));
        let rest = long.skip(14 + n);
        let part = lists_bytes(a);
        assert(rest.take(part.len() as int) =~= part) by {
            assert(short.skip(14 + n) == part);
            assert forall|j: int| 0 <= j < part.len() implies rest[j] == part[j] by {
                assert(short.skip(14 + n)[j] == short[14 + n + j]);
            }
        }
        assert(rest.take(rest.len() as int) =~= rest);
        lemma_lists_unique(rest, a, b);
    }
}

/// Where the cache of a selectivity is kept: `shown` is for the reader, the
/// pattern tells selectivities apart.
pub open spec fn cache_path(base: Seq<char>, shown: Seq<char>, selectivity: u64) -> Seq<char> {
    base + ".s"@ + shown + "-"@ + text::hex(selectivity)
}

/// Name of the cache file for one filter selectivity, so that runs with
/// several filters do not clobber each other. `shown` is the selectivity's
/// text, `selectivity` its pattern.
pub fn gt_cache_path(base: &str, shown: &str, selectivity: u64) -> (r: String)
    ensures
        r@ == cache_path(base@, shown@, selectivity),
{
    let mut path: String = String::new();
    path.append(base);
    path.append(".s");
    path.append(shown);
    path.append("-");
    text::push_hex(&mut path, selectivity);
    assert(path@ =~= cache_path(base@, shown@, selectivity));
    path
}

/// Different selectivities never share a cache file, whatever their texts are.
pub proof fn law_selectivities_never_share(
    base: Seq<char>,
    shown_a: Seq<char>,
    shown_b: Seq<char>,
    a: u64,
    b: u64,
)
    requires
        a != b,
    ensures
        cache_path(base, shown_a, a) != cache_path(base, shown_b, b),
{
    let (x, y) = (cache_path(base, shown_a, a), cache_path(base, shown_b, b));
    if x == y {
        assert(x.skip(x.len() - 16) =~= text::hex(a));
        assert(y.skip(y.len() - 16) =~= text::hex(b));
        text::lemma_hex_injective(a, b);
    }
}

} // verus!
