//! Filter bitmap over vector ids: the optional predicate that a scan applies.

use vstd::prelude::*;
use vstd::std_specs::bits::*;
use crate::ieee;
use crate::rng::{self, SplitMix64};

verus! {

/// Bit `p` of a bitmap of 64-bit words, lowest bit of the first word first.
pub open spec fn word_bit(words: Seq<u64>, p: int) -> bool {
    (words[p / 64] >> ((p % 64) as u64)) & 1 == 1
}

/// The positions below `p` whose bit is set, ascending.
spec fn ones_below(words: Seq<u64>, p: nat) -> Seq<u32>
    decreases p,
{
    if p == 0 {
        Seq::empty()
    } else if word_bit(words, p - 1) {
        ones_below(words, (p - 1) as nat).push((p - 1) as u32)
    } else {
        ones_below(words, (p - 1) as nat)
    }
}

/// Fixed-size bitmap over the ids `[0, len)`. Its view is the set of ids
/// whose bit is set.
pub struct Bitset {
    words: Vec<u64>,
    len: usize,
}

impl View for Bitset {
    type V = Set<u32>;

    closed spec fn view(&self) -> Set<u32> {
        Set::new(|id: u32| id < self.len && word_bit(self.words@, id as int))
    }
}

/// No bit is set at a position outside `[0, limit)` or past the ids.
spec fn bits_within(words: Seq<u64>, limit: nat) -> bool {
    forall|p: int|
        0 <= p < 64 * words.len() && #[trigger] word_bit(words, p) ==> p < limit && p <= u32::MAX
}

/// A run of clear bits adds no position.
proof fn lemma_skip_clear(words: Seq<u64>, from: nat, to: nat)
    requires
        from <= to,
        forall|p: int| from <= p < to ==> !#[trigger] word_bit(words, p),
    ensures
        ones_below(words, to) == ones_below(words, from),
    decreases to - from,
{
    if from < to {
        lemma_skip_clear(words, from, (to - 1) as nat);
    }
}

/// What the set positions below `p` are.
proof fn lemma_ones(words: Seq<u64>, p: nat, limit: nat)
    requires
        p <= 64 * words.len(),
        bits_within(words, limit),
    ensures
        ones_below(words, p).len() <= p,
        ones_below(words, p).len() <= limit,
        forall|i: int, j: int|
            0 <= i < j < ones_below(words, p).len() ==> ones_below(words, p)[i] < ones_below(
                words,
                p,
            )[j],
        forall|i: int|
            0 <= i < ones_below(words, p).len() ==> (#[trigger] ones_below(words, p)[i]) < p
                && word_bit(words, ones_below(words, p)[i] as int),
        forall|id: u32|
            id < p && #[trigger] word_bit(words, id as int) ==> ones_below(words, p).contains(id),
    decreases p,
{
    if p > 0 {
        let before = ones_below(words, (p - 1) as nat);
        lemma_ones(words, (p - 1) as nat, limit);
        let here = ones_below(words, p);
        if word_bit(words, p - 1) {
            assert(here == before.push((p - 1) as u32));
            assert forall|id: u32| id < p && #[trigger] word_bit(words, id as int) implies here.contains(
                id,
            ) by {
                if id == p - 1 {
                    assert(here[before.len() as int] == id);
                } else {
                    let i = choose|i: int| 0 <= i < before.len() && before[i] == id;
                    assert(here[i] == id);
                }
            }
        }
    }
}

/// Dropping the lowest set bit of a word, at `t`, clears that bit alone.
proof fn lemma_drop_lowest(c: u64, t: u64)
    requires
        c != 0,
        t == u64_trailing_zeros(c),
    ensures
        t < 64,
        (c >> t) & 1 == 1,
        forall|q: u64| q < t ==> #[trigger] (c >> q) & 1 == 0,
        forall|q: u64|
            q < 64 ==> (#[trigger] ((c & ((c - 1) as u64)) >> q) & 1 == 1 <==> (c >> q) & 1 == 1
                && q != t),
{
    axiom_u64_trailing_zeros(c);
    let s = (64 - t) as u64;
    assert(c << s == 0);
    let d = (c - 1) as u64;
    assert forall|q: u64| q < 64 implies (#[trigger] ((c & ((c - 1) as u64)) >> q) & 1 == 1 <==> (c
        >> q) & 1 == 1 && q != t) by {
        assert(((c & d) >> q) & 1 == 1 <==> (c >> q) & 1 == 1 && q != t) by (bit_vector)
            requires
                c != 0,
                d == c - 1,
                t < 64,
                s == 64 - t,
                c << s == 0,
                (c >> t) & 1 == 1,
                q < 64,
        ;
    }
}

/// The zero word has no bit set.
proof fn lemma_zero_word(q: u64)
    ensures
        (0u64 >> q) & 1 == 0,
{
    assert((0u64 >> q) & 1 == 0) by (bit_vector);
}

/// The positions listed so far, while the word `w` is walked from its lowest
/// bit: `rest` holds the word's bits from `lo` on.
spec fn walked(words: Seq<u64>, w: int, rest: u64, lo: u64, listed: Seq<u32>) -> bool {
    &&& lo <= 64
    &&& listed == ones_below(words, (64 * w + lo) as nat)
    &&& forall|q: u64|
        q < 64 ==> (#[trigger] (rest >> q) & 1 == 1 <==> (words[w] >> q) & 1 == 1 && q >= lo)
}

/// One step of the walk lists the lowest bit that is left.
proof fn lemma_walk_step(words: Seq<u64>, w: int, rest: u64, lo: u64, listed: Seq<u32>, t: u64)
    requires
        0 <= w < words.len(),
        rest != 0,
        t == u64_trailing_zeros(rest),
        walked(words, w, rest, lo, listed),
    ensures
        t < 64,
        word_bit(words, 64 * w + t),
        walked(
            words,
            w,
            rest & ((rest - 1) as u64),
            (t + 1) as u64,
            listed.push((64 * w + t) as u32),
        ),
{
    lemma_drop_lowest(rest, t);
    assert((rest >> t) & 1 == 1);
    assert(t >= lo);
    assert forall|p: int| 64 * w + lo <= p < 64 * w + t implies !#[trigger] word_bit(words, p) by {
        let q = (p - 64 * w) as u64;
        assert(p % 64 == q && p / 64 == w);
        assert((rest >> q) & 1 == 0);
    }
    lemma_skip_clear(words, (64 * w + lo) as nat, (64 * w + t) as nat);
    assert((64 * w + t) / 64 == w && (64 * w + t) % 64 == t);
    assert(word_bit(words, 64 * w + t));
    assert(ones_below(words, (64 * w + (t + 1) as u64) as nat) == ones_below(
        words,
        (64 * w + t) as nat,
    ).push((64 * w + t) as u32));
}

/// At the end of the walk all positions of the word are listed.
proof fn lemma_walk_end(words: Seq<u64>, w: int, lo: u64, listed: Seq<u32>)
    requires
        0 <= w < words.len(),
        walked(words, w, 0, lo, listed),
    ensures
        listed == ones_below(words, (64 * (w + 1)) as nat),
{
    assert forall|p: int| 64 * w + lo <= p < 64 * (w + 1) implies !#[trigger] word_bit(
        words,
        p,
    ) by {
        let q = (p - 64 * w) as u64;
        assert(p % 64 == q && p / 64 == w);
        lemma_zero_word(q);
        assert(!((0u64 >> q) & 1 == 1));
    }
    lemma_skip_clear(words, (64 * w + lo) as nat, (64 * (w + 1)) as nat);
}

/// At the start of the walk nothing of the word is listed.
proof fn lemma_walk_start(words: Seq<u64>, w: int)
    requires
        0 <= w < words.len(),
    ensures
        walked(words, w, words[w], 0, ones_below(words, (64 * w) as nat)),
{
}

/// Replaces one word.
fn store(words: &mut Vec<u64>, i: usize, word: u64)
    requires
        i < old(words)@.len(),
    ensures
        final(words)@ == old(words)@.update(i as int, word),
    no_unwind
{
    words[i] = word;
}

/// The ids of a set, ascending, each once.
pub open spec fn lists(ids: Seq<u32>, set: Set<u32>) -> bool {
    &&& forall|i: int, j: int| 0 <= i < j < ids.len() ==> ids[i] < ids[j]
    &&& forall|id: u32| set.contains(id) <==> #[trigger] ids.contains(id)
}

/// The list of a set holds the same ids as any other list of it.
pub proof fn lemma_lists_same(a: Seq<u32>, b: Seq<u32>, set: Set<u32>)
    requires
        lists(a, set),
        lists(b, set),
    ensures
        a.no_duplicates(),
        a.to_multiset() == b.to_multiset(),
{
    a.to_multiset_ensures();
    b.to_multiset_ensures();
    assert(b.no_duplicates());
    a.lemma_multiset_has_no_duplicates();
    b.lemma_multiset_has_no_duplicates();
    assert forall|id: u32| #[trigger] a.to_multiset().count(id) == b.to_multiset().count(id) by {
        assert(set.contains(id) <==> a.contains(id));
        assert(set.contains(id) <==> b.contains(id));
        assert(a.to_multiset().contains(id) <==> a.to_multiset().count(id) > 0);
        assert(b.to_multiset().contains(id) <==> b.to_multiset().count(id) > 0);
    }
    assert(a.to_multiset() =~= b.to_multiset());
}

/// Whether the `i`-th uniform number from a seed is below the fraction.
pub open spec fn kept(seed: u64, keep_fraction: u64, i: nat) -> bool {
    exists|f: u64| #[trigger]
        ieee::is_53bit_fraction(f, rng::high_bits(rng::drawn(seed, i))) && ieee::less_64(
            f,
            keep_fraction,
        )
}

/// The ids that a seed's uniform stream keeps out of `[0, len)`. (Ids wrap
/// round at `2^32`.)
pub open spec fn random_ids(ids: Set<u32>, len: nat, keep_fraction: u64, seed: u64) -> bool {
    forall|id: u32| #[trigger]
        ids.contains(id) <==> exists|i: int|
            0 <= i < len && i % 0x1_0000_0000 == id && #[trigger] kept(
                seed,
                keep_fraction,
                i as nat,
            )
}

/// From one seed, a greater fraction keeps every id that a smaller one keeps.
pub proof fn law_greater_fraction_keeps_more(
    few: Set<u32>,
    many: Set<u32>,
    len: nat,
    small: u64,
    great: u64,
    seed: u64,
)
    requires
        random_ids(few, len, small, seed),
        random_ids(many, len, great, seed),
        !ieee::is_nan_64(great),
        ieee::line_rank_64(small) <= ieee::line_rank_64(great),
    ensures
        few.subset_of(many),
{
    assert forall|id: u32| #[trigger] few.contains(id) implies many.contains(id) by {
        let i = choose|i: int|
            0 <= i < len && i % 0x1_0000_0000 == id && #[trigger] kept(seed, small, i as nat);
        let f = choose|f: u64| #[trigger]
            ieee::is_53bit_fraction(f, rng::high_bits(rng::drawn(seed, i as nat)))
                && ieee::less_64(f, small);
        assert(ieee::less_64(f, great));
        assert(kept(seed, great, i as nat));
    }
}

/// A fraction of zero keeps nothing.
pub proof fn law_zero_fraction_keeps_none(ids: Set<u32>, len: nat, fraction: u64, seed: u64)
    requires
        random_ids(ids, len, fraction, seed),
        ieee::line_rank_64(fraction) <= 0,
    ensures
        ids == Set::<u32>::empty(),
{
    assert forall|id: u32| !ids.contains(id) by {
        if ids.contains(id) {
            let i = choose|i: int|
                0 <= i < len && i % 0x1_0000_0000 == id && #[trigger] kept(
                    seed,
                    fraction,
                    i as nat,
                );
            let f = choose|f: u64| #[trigger]
                ieee::is_53bit_fraction(f, rng::high_bits(rng::drawn(seed, i as nat)))
                    && ieee::less_64(f, fraction);
            assert(ieee::line_rank_64(f) >= 0);
        }
    }
    assert(ids =~= Set::<u32>::empty());
}

/// A fraction of one keeps every id.
pub proof fn law_full_fraction_keeps_all(ids: Set<u32>, len: nat, seed: u64)
    requires
        random_ids(ids, len, ieee::ONE_64, seed),
        len <= 0x1_0000_0000,
    ensures
        forall|id: u32| #[trigger] ids.contains(id) <==> id < len,
{
    assert forall|id: u32| #[trigger] ids.contains(id) <==> id < len by {
        if id < len {
            let n = rng::high_bits(rng::drawn(seed, id as nat));
            let f = ieee::lemma_fraction_exists(n);
            ieee::lemma_fraction_below_one(f, n);
            assert(kept(seed, ieee::ONE_64, (id as int) as nat));
        }
    }
}

impl Bitset {
    /// Number of ids covered.
    pub closed spec fn size(&self) -> nat {
        self.len as nat
    }

    #[verifier::type_invariant]
    closed spec fn wf(&self) -> bool {
        &&& self.words@.len() == (self.len + 63) / 64
        &&& bits_within(self.words@, self.len as nat)
    }

    /// Only covered ids are members.
    pub proof fn lemma_members_covered(&self)
        ensures
            forall|id: u32| #[trigger] self@.contains(id) ==> id < self.size(),
    {
    }

    /// A bitmap over `[0, len)` with no bit set.
    pub fn new(len: usize) -> (r: Self)
        ensures
            r.size() == len,
            r@ == Set::<u32>::empty(),
    {
        let n: usize = if len % 64 == 0 {
            len / 64
        } else {
            len / 64 + 1
        };
        let words: Vec<u64> = vec![0u64; n];
        assert forall|p: int| 0 <= p < 64 * words@.len() implies !#[trigger] word_bit(
            words@,
            p,
        ) by {
            let b = (p % 64) as u64;
            assert((0u64 >> b) & 1 == 0) by (bit_vector);
        }
        let r = Bitset { words, len };
        assert(r@ =~= Set::<u32>::empty());
        r
    }

    /// Number of ids covered (the corpus size), not the number of set bits.
    pub fn len(&self) -> (r: usize)
        ensures
            r == self.size(),
    {
        self.len
    }

    /// Whether no id is covered.
    pub fn is_empty(&self) -> (r: bool)
        ensures
            r == (self.size() == 0),
    {
        self.len == 0
    }

    /// Sets bit `id`.
    pub fn set(&mut self, id: u32)
        requires
            id < old(self).size(),
        ensures
            final(self).size() == old(self).size(),
            final(self)@ == old(self)@.insert(id),
    {
        proof {
            use_type_invariant(&*self);
        }
        let w: usize = id as usize / 64;
        let b: u64 = (id % 64) as u64;
        let word: u64 = self.words[w] | (1u64 << b);
        let ghost before = self.words@;
        proof {
            let old_word = before[w as int];
            assert forall|p: int| 0 <= p < 64 * before.len() implies #[trigger] word_bit(
                before.update(w as int, word),
                p,
            ) == (word_bit(before, p) || p == id) by {
                let q = (p % 64) as u64;
                assert(((old_word | (1u64 << b)) >> q) & 1 == 1 <==> ((old_word >> q) & 1 == 1 || q
                    == b)) by (bit_vector)
                    requires
                        b < 64,
                        q < 64,
                ;
            }
        }
        store(&mut self.words, w, word);
        assert(self@ =~= old(self)@.insert(id));
    }

    /// Tests bit `id`.
    pub fn contains(&self, id: u32) -> (r: bool)
        requires
            id < self.size(),
        ensures
            r == self@.contains(id),
    {
        proof {
            use_type_invariant(self);
        }
        (self.words[id as usize / 64] >> ((id % 64) as u64)) & 1 == 1
    }

    /// Number of set bits.
    pub fn count_ones(&self) -> (r: usize)
        ensures
            self@.finite(),
            r == self@.len(),
    {
        proof {
            use_type_invariant(self);
        }
        let mut count: usize = 0;
        let mut w: usize = 0;
        while w < self.words.len()
            invariant
                w <= self.words@.len(),
                self.wf(),
                count == ones_below(self.words@, (64 * w) as nat).len(),
            decreases self.words@.len() - w,
        {
            let mut rest: u64 = self.words[w];
            let ghost mut lo: u64 = 0;
            let ghost mut listed: Seq<u32> = ones_below(self.words@, (64 * w) as nat);
            proof {
                lemma_walk_start(self.words@, w as int);
            }
            while rest != 0
                invariant
                    w < self.words@.len(),
                    self.wf(),
                    walked(self.words@, w as int, rest, lo, listed),
                    count == listed.len(),
                decreases rest,
            {
                proof {
                    let t = u64_trailing_zeros(rest) as u64;
                    lemma_walk_step(self.words@, w as int, rest, lo, listed, t);
                    lemma_ones(self.words@, (64 * w + t + 1) as nat, self.len as nat);
                    lo = (t + 1) as u64;
                    listed = listed.push((64 * w + t) as u32);
                    let d = (rest - 1) as u64;
                    assert(rest & d < rest) by (bit_vector)
                        requires
                            d == rest - 1,
                            rest != 0,
                    ;
                }
                rest = rest & (rest - 1);
                count += 1;
            }
            proof {
                lemma_walk_end(self.words@, w as int, lo, listed);
            }
            w += 1;
        }
        proof {
            self.lemma_all_listed();
        }
        count
    }

    /// The positions set in all words list the view.
    proof fn lemma_all_listed(&self)
        requires
            self.wf(),
        ensures
            lists(ones_below(self.words@, (64 * self.words@.len()) as nat), self@),
            self@.finite(),
            self@.len() == ones_below(self.words@, (64 * self.words@.len()) as nat).len(),
    {
        let all = ones_below(self.words@, (64 * self.words@.len()) as nat);
        lemma_ones(self.words@, (64 * self.words@.len()) as nat, self.len as nat);
        assert forall|id: u32| self@.contains(id) <==> #[trigger] all.contains(id) by {
            if all.contains(id) {
                let i = choose|i: int| 0 <= i < all.len() && all[i] == id;
                assert(word_bit(self.words@, all[i] as int));
            }
        }
        assert(all.to_set() =~= self@);
        assert(all.no_duplicates());
        all.unique_seq_to_set();
        vstd::seq_lib::seq_to_set_is_finite(all);
    }

    /// The set ids in ascending order.
    pub fn iter_ones(&self) -> (r: Vec<u32>)
        ensures
            lists(r@, self@),
            forall|i: int| 0 <= i < r@.len() ==> #[trigger] r@[i] < self.size(),
    {
        proof {
            use_type_invariant(self);
        }
        let mut out: Vec<u32> = Vec::new();
        let mut w: usize = 0;
        while w < self.words.len()
            invariant
                w <= self.words@.len(),
                self.wf(),
                out@ == ones_below(self.words@, (64 * w) as nat),
            decreases self.words@.len() - w,
        {
            let mut rest: u64 = self.words[w];
            let ghost mut lo: u64 = 0;
            proof {
                lemma_walk_start(self.words@, w as int);
            }
            while rest != 0
                invariant
                    w < self.words@.len(),
                    self.wf(),
                    walked(self.words@, w as int, rest, lo, out@),
                decreases rest,
            {
                let bit: u32 = rest.trailing_zeros();
                proof {
                    lemma_walk_step(self.words@, w as int, rest, lo, out@, bit as u64);
                    assert(word_bit(self.words@, 64 * w + bit));
                    lo = (bit + 1) as u64;
                    let d = (rest - 1) as u64;
                    assert(rest & d < rest) by (bit_vector)
                        requires
                            d == rest - 1,
                            rest != 0,
                    ;
                }
                out.push(w as u32 * 64 + bit);
                rest = rest & (rest - 1);
            }
            proof {
                lemma_walk_end(self.words@, w as int, lo, out@);
            }
            w += 1;
        }
        proof {
            self.lemma_all_listed();
            assert forall|i: int| 0 <= i < out@.len() implies #[trigger] out@[i] < self.size() by {
                assert(out@.contains(out@[i]));
            }
        }
        out
    }

    /// A bitmap with the given ids set.
    pub fn from_ids(len: usize, ids: &[u32]) -> (r: Self)
        requires
            forall|i: int| 0 <= i < ids@.len() ==> #[trigger] ids@[i] < len,
        ensures
            r.size() == len,
            forall|id: u32| #[trigger] r@.contains(id) <==> ids@.contains(id),
    {
        let mut bs: Bitset = Bitset::new(len);
        let mut i: usize = 0;
        while i < ids.len()
            invariant
                i <= ids@.len(),
                bs.size() == len,
                forall|i: int| 0 <= i < ids@.len() ==> #[trigger] ids@[i] < len,
                forall|id: u32| #[trigger]
                    bs@.contains(id) <==> exists|j: int| 0 <= j < i && ids@[j] == id,
            decreases ids@.len() - i,
        {
            let ghost before = bs@;
            bs.set(ids[i]);
            assert forall|id: u32| #[trigger] bs@.contains(id) <==> exists|j: int|
                0 <= j < i + 1 && ids@[j] == id by {
                if id == ids@[i as int] {
                    assert(ids@[i as int] == id);
                } else if before.contains(id) {
                    let j = choose|j: int| 0 <= j < i && ids@[j] == id;
                    assert(0 <= j < i + 1 && ids@[j] == id);
                }
            }
            i += 1;
        }
        bs
    }

    /// A bitmap that keeps each id with the given probability: number `i` of
    /// the seed's uniform stream decides on id `i`. The same arguments give
    /// the same bitmap on every platform.
    pub fn random(len: usize, keep_fraction: u64, seed: u64) -> (r: Self)
        ensures
            r.size() == len,
            random_ids(r@, len as nat, keep_fraction, seed),
    {
        let mut bs: Bitset = Bitset::new(len);
        let mut rng: SplitMix64 = SplitMix64::new(seed);
        let mut i: usize = 0;
        while i < len
            invariant
                i <= len,
                bs.size() == len,
                rng.state() == rng::state_after(seed, i as nat),
                forall|id: u32| #[trigger]
                    bs@.contains(id) <==> exists|j: int|
                        0 <= j < i && j % 0x1_0000_0000 == id && #[trigger] kept(
                            seed,
                            keep_fraction,
                            j as nat,
                        ),
            decreases len - i,
        {
            let ghost before = bs@;
            let f: u64 = rng.next_f64();
            let hit: bool = ieee::is_less_64(f, keep_fraction);
            proof {
                assert((i + 1) as nat - 1 == i as nat);
                assert(rng.state() == rng::state_after(seed, (i + 1) as nat));
                assert(ieee::is_53bit_fraction(f, rng::high_bits(rng::drawn(seed, i as nat))));
                if kept(seed, keep_fraction, i as nat) {
                    let g = choose|g: u64| #[trigger]
                        ieee::is_53bit_fraction(g, rng::high_bits(rng::drawn(seed, i as nat)))
                            && ieee::less_64(g, keep_fraction);
                    ieee::lemma_fraction_unique(
                        f,
                        g,
                        rng::high_bits(rng::drawn(seed, i as nat)),
                    );
                }
                assert(hit == kept(seed, keep_fraction, i as nat));
            }
            if hit {
                let wide: u64 = i as u64;
                let id: u32 = #[verifier::truncate]
                (wide as u32);
                assert(wide as u32 == wide % 0x1_0000_0000) by (bit_vector);
                bs.set(id);
            }
            assert forall|id: u32| #[trigger] bs@.contains(id) <==> exists|j: int|
                0 <= j < i + 1 && j % 0x1_0000_0000 == id && #[trigger] kept(
                    seed,
                    keep_fraction,
                    j as nat,
                ) by {
                if before.contains(id) {
                    let j = choose|j: int|
                        0 <= j < i && j % 0x1_0000_0000 == id && #[trigger] kept(
                            seed,
                            keep_fraction,
                            j as nat,
                        );
                    assert(0 <= j < i + 1 && kept(seed, keep_fraction, j as nat));
                } else if hit && id == i as int % 0x1_0000_0000 {
                    assert(kept(seed, keep_fraction, (i as int) as nat));
                }
            }
            i += 1;
        }
        bs
    }
}

} // verus!
