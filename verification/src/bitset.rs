use vstd::prelude::*;
use vstd::std_specs::bits::{u64_trailing_zeros, axiom_u64_trailing_zeros};

verus! {

/// Bit `b` of the word `w`.
pub open spec fn bit_of(w: u64, b: u64) -> bool {
    (w >> b) & 1u64 == 1u64
}

/// The bits of a word sequence, word by word, least significant bit first.
pub open spec fn bits_of_words(words: Seq<u64>) -> Seq<bool> {
    Seq::new((words.len() * 64) as nat, |i: int| bit_of(words[i / 64], (i % 64) as u64))
}

/// How many entries of `s` are `true`.
pub open spec fn count_true(s: Seq<bool>) -> nat
    decreases s.len(),
{
    if s.len() == 0 {
        0
    } else {
        count_true(s.drop_last()) + if s.last() { 1nat } else { 0nat }
    }
}

/// The indices below `limit` at which `s` is `true`, in increasing order.
pub open spec fn true_indices(s: Seq<bool>, limit: int) -> Seq<int>
    decreases limit,
{
    if limit <= 0 {
        Seq::empty()
    } else if limit - 1 < s.len() && s[limit - 1] {
        true_indices(s, limit - 1).push(limit - 1)
    } else {
        true_indices(s, limit - 1)
    }
}

/// The indices listed below `k` are as many as the `true` entries among the first `k`, and no
/// more than `k`.
pub proof fn lemma_true_indices_len(s: Seq<bool>, k: int)
    requires
        0 <= k <= s.len(),
    ensures
        true_indices(s, k).len() == count_true(s.take(k)),
        count_true(s.take(k)) <= k,
    decreases k,
{
    if k == 0 {
        assert(s.take(0) =~= Seq::<bool>::empty());
    } else {
        lemma_true_indices_len(s, k - 1);
        lemma_count_true_step(s, k - 1);
    }
}

/// Entries `a..b` that are all `false` add nothing to the count.
proof fn lemma_count_false_run(s: Seq<bool>, a: int, b: int)
    requires
        0 <= a <= b <= s.len(),
        forall|i: int| a <= i < b ==> !#[trigger] s[i],
    ensures
        count_true(s.take(b)) == count_true(s.take(a)),
    decreases b - a,
{
    if a < b {
        lemma_count_false_run(s, a, b - 1);
        lemma_count_true_step(s, b - 1);
    }
}

pub proof fn lemma_count_true_step(s: Seq<bool>, k: int)
    requires
        0 <= k < s.len(),
    ensures
        count_true(s.take(k + 1)) == count_true(s.take(k)) + if s[k] { 1nat } else { 0nat },
{
    assert(s.take(k + 1).drop_last() =~= s.take(k));
}

pub proof fn lemma_count_true_bounds(s: Seq<bool>)
    ensures
        count_true(s) <= s.len(),
        (forall|i: int| 0 <= i < s.len() ==> !s[i]) ==> count_true(s) == 0,
        (exists|i: int| 0 <= i < s.len() && s[i]) ==> count_true(s) > 0,
    decreases s.len(),
{
    if s.len() > 0 {
        lemma_count_true_bounds(s.drop_last());
        if exists|i: int| 0 <= i < s.len() && s[i] {
            let i = choose|i: int| 0 <= i < s.len() && s[i];
            if i < s.len() - 1 {
                assert(s.drop_last()[i]);
            }
        }
    }
}

/// A sequence with exactly one `true` entry has count one.
pub proof fn lemma_count_true_single(s: Seq<bool>, k: int)
    requires
        0 <= k < s.len(),
        s[k],
        forall|i: int| 0 <= i < s.len() && i != k ==> !s[i],
    ensures
        count_true(s) == 1,
    decreases s.len(),
{
    if k == s.len() - 1 {
        lemma_count_true_bounds(s.drop_last());
    } else {
        lemma_count_true_single(s.drop_last(), k);
    }
}

/// A count of one means exactly one `true` entry.
pub proof fn lemma_count_true_one(s: Seq<bool>) -> (k: int)
    requires
        count_true(s) == 1,
    ensures
        0 <= k < s.len(),
        s[k],
        forall|i: int| 0 <= i < s.len() && i != k ==> !s[i],
    decreases s.len(),
{
    lemma_count_true_bounds(s.drop_last());
    if s.last() {
        assert(count_true(s.drop_last()) == 0);
        assert forall|i: int| 0 <= i < s.len() && i != s.len() - 1 implies !s[i] by {
            if s[i] {
                assert(s.drop_last()[i]);
            }
        }
        s.len() - 1
    } else {
        let k = lemma_count_true_one(s.drop_last());
        assert(s.drop_last()[k]);
        assert forall|i: int| 0 <= i < s.len() && i != k implies !s[i] by {
            if i < s.len() - 1 {
                assert(!s.drop_last()[i]);
            }
        }
        k
    }
}

pub proof fn lemma_true_indices(s: Seq<bool>, limit: int)
    requires
        0 <= limit,
    ensures
        forall|k: int|
            0 <= k < true_indices(s, limit).len() ==> 0 <= #[trigger] true_indices(s, limit)[k] < limit
                && true_indices(s, limit)[k] < s.len() && s[true_indices(s, limit)[k]],
        forall|a: int, b: int|
            0 <= a < b < true_indices(s, limit).len() ==> #[trigger] true_indices(s, limit)[a]
                < #[trigger] true_indices(s, limit)[b],
        forall|i: int|
            0 <= i < limit && i < s.len() && s[i] ==> #[trigger] true_indices(s, limit).contains(i),
    decreases limit,
{
    if limit > 0 {
        lemma_true_indices(s, limit - 1);
        let prev = true_indices(s, limit - 1);
        if limit - 1 < s.len() && s[limit - 1] {
            let cur = prev.push(limit - 1);
            assert forall|i: int| 0 <= i < limit && i < s.len() && s[i] implies #[trigger] cur.contains(i) by {
                if i < limit - 1 {
                    assert(prev.contains(i));
                    let j = choose|j: int| 0 <= j < prev.len() && prev[j] == i;
                    assert(cur[j] == i);
                } else {
                    assert(cur[cur.len() - 1] == i);
                }
            }
        } else {
            assert forall|i: int| 0 <= i < limit && i < s.len() && s[i] implies #[trigger] prev.contains(i) by {
                if i == limit - 1 {
                } else {
                    assert(prev.contains(i));
                }
            }
        }
    }
}

proof fn lemma_bit_and(a: u64, c: u64, b: u64)
    requires
        b < 64,
    ensures
        bit_of(a & c, b) == (bit_of(a, b) && bit_of(c, b)),
{
    assert(((a & c) >> b) & 1u64 == 1u64 <==> ((a >> b) & 1u64 == 1u64 && (c >> b) & 1u64 == 1u64))
        by (bit_vector)
        requires
            b < 64,
    ;
}

proof fn lemma_bit_or(a: u64, c: u64, b: u64)
    requires
        b < 64,
    ensures
        bit_of(a | c, b) == (bit_of(a, b) || bit_of(c, b)),
{
    assert(((a | c) >> b) & 1u64 == 1u64 <==> ((a >> b) & 1u64 == 1u64 || (c >> b) & 1u64 == 1u64))
        by (bit_vector)
        requires
            b < 64,
    ;
}

proof fn lemma_bit_and_not(a: u64, c: u64, b: u64)
    requires
        b < 64,
    ensures
        bit_of(a & !c, b) == (bit_of(a, b) && !bit_of(c, b)),
{
    assert(((a & !c) >> b) & 1u64 == 1u64 <==> ((a >> b) & 1u64 == 1u64 && !((c >> b) & 1u64
        == 1u64))) by (bit_vector)
        requires
            b < 64,
    ;
}

proof fn lemma_bit_xor(a: u64, c: u64, b: u64)
    requires
        b < 64,
    ensures
        bit_of(a ^ c, b) == (bit_of(a, b) != bit_of(c, b)),
{
    assert(((a ^ c) >> b) & 1u64 == 1u64 <==> ((a >> b) & 1u64 == 1u64) != ((c >> b) & 1u64
        == 1u64)) by (bit_vector)
        requires
            b < 64,
    ;
}

proof fn lemma_bit_set(w: u64, i: u64, b: u64)
    requires
        b < 64,
        i < 64,
    ensures
        bit_of(w | (1u64 << i), b) == (b == i || bit_of(w, b)),
{
    assert(((w | (1u64 << i)) >> b) & 1u64 == 1u64 <==> (b == i || (w >> b) & 1u64 == 1u64))
        by (bit_vector)
        requires
            b < 64,
            i < 64,
    ;
}

proof fn lemma_bit_test(w: u64, b: u64)
    requires
        b < 64,
    ensures
        ((w & (1u64 << b)) != 0) == bit_of(w, b),
{
    assert(((w & (1u64 << b)) != 0) <==> ((w >> b) & 1u64 == 1u64)) by (bit_vector)
        requires
            b < 64,
    ;
}

proof fn lemma_bit_const(b: u64)
    requires
        b < 64,
    ensures
        !bit_of(0, b),
        bit_of(u64::MAX, b),
{
    assert((0u64 >> b) & 1u64 != 1u64) by (bit_vector);
    assert((u64::MAX >> b) & 1u64 == 1u64) by (bit_vector)
        requires
            b < 64,
    ;
}

proof fn lemma_bit_low_mask(w: u64, u: u64, b: u64)
    requires
        b < 64,
        u < 64,
    ensures
        bit_of(w & (u64::MAX >> u), b) == (bit_of(w, b) && b < 64 - u),
{
    assert(((w & (u64::MAX >> u)) >> b) & 1u64 == 1u64 <==> ((w >> b) & 1u64 == 1u64 && b < 64
        - u)) by (bit_vector)
        requires
            b < 64,
            u < 64,
    ;
}

/// A nonzero word has a set bit, and a zero word has none.
proof fn lemma_word_zero(w: u64)
    ensures
        w == 0 <==> (forall|b: u64| b < 64 ==> !#[trigger] bit_of(w, b)),
{
    if w == 0 {
        assert forall|b: u64| b < 64 implies !#[trigger] bit_of(w, b) by {
            lemma_bit_const(b);
        }
    } else {
        axiom_u64_trailing_zeros(w);
        let t = u64_trailing_zeros(w) as u64;
        assert(bit_of(w, t));
    }
}

/// Two words are equal exactly when all their bits are.
proof fn lemma_word_eq(x: u64, y: u64)
    ensures
        x == y <==> (forall|b: u64| b < 64 ==> #[trigger] bit_of(x, b) == bit_of(y, b)),
{
    if x != y {
        assert(x ^ y != 0) by (bit_vector)
            requires
                x != y,
        ;
        lemma_word_zero(x ^ y);
        let t = choose|b: u64| b < 64 && #[trigger] bit_of(x ^ y, b);
        lemma_bit_xor(x, y, t);
    }
}

proof fn lemma_index_split(i: int)
    requires
        0 <= i,
    ensures
        i == (i / 64) * 64 + i % 64,
        0 <= i % 64 < 64,
{
}

/// Two word sequences of the same length have the same bits exactly when they are equal.
pub proof fn lemma_bits_eq(a: Seq<u64>, b: Seq<u64>)
    requires
        a.len() == b.len(),
    ensures
        a == b <==> bits_of_words(a) == bits_of_words(b),
{
    if bits_of_words(a) == bits_of_words(b) {
        assert forall|w: int| 0 <= w < a.len() implies a[w] == b[w] by {
            assert forall|k: u64| k < 64 implies #[trigger] bit_of(a[w], k) == bit_of(b[w], k) by {
                let i = w * 64 + k;
                assert(i / 64 == w && i % 64 == k);
                assert(bits_of_words(a)[i] == bits_of_words(b)[i]);
            }
            lemma_word_eq(a[w], b[w]);
        }
        assert(a =~= b);
    }
}

/// A fixed-length set of small indices, stored as a bit vector.
///
/// Every bit of the backing words is a member candidate; the `bit_len` first
/// bits are the domain proper.
#[derive(Debug)]
pub struct DomainBits {
    words: Vec<u64>,
    bit_len: usize,
}

impl DomainBits {
    /// All bits of the backing words, the domain proper first.
    pub closed spec fn view(&self) -> Seq<bool> {
        bits_of_words(self.words@)
    }

    /// The number of indices the domain was made for.
    pub closed spec fn len_spec(&self) -> nat {
        self.bit_len as nat
    }

    /// The backing words are exactly as many as the domain needs.
    pub closed spec fn wf(&self) -> bool {
        &&& self.words@.len() == (self.bit_len as int + 63) / 64
        &&& self.bit_len + 63 <= usize::MAX
    }

    /// No bit beyond the domain proper is set.
    pub open spec fn clean(&self) -> bool {
        forall|i: int| self.len_spec() <= i < self@.len() ==> !#[trigger] self@[i]
    }

    /// The members of the domain, as a set of indices.
    pub open spec fn members(&self) -> Set<int> {
        Set::new(|i: int| 0 <= i < self@.len() && self@[i])
    }

    /// A domain counts as many members as it lists, and no more than its length.
    pub proof fn lemma_count_lists_members(&self)
        requires
            self.wf(),
            self.clean(),
        ensures
            count_true(self@) == true_indices(self@, self.len_spec() as int).len(),
            count_true(self@) <= self.len_spec(),
    {
        self.lemma_wf_len();
        let s = self@;
        let n = self.len_spec() as int;
        lemma_true_indices_len(s, n);
        lemma_count_false_run(s, n, s.len() as int);
        assert(s.take(s.len() as int) =~= s);
    }

    pub proof fn lemma_wf_len(&self)
        requires
            self.wf(),
        ensures
            self@.len() >= self.len_spec(),
            self@.len() < self.len_spec() + 64,
            self@.len() % 64 == 0,
            self@.len() <= usize::MAX,
    {
        let n = self.words@.len();
        assert(n * 64 == (n * 64) as nat) by (nonlinear_arith);
        assert(self@.len() == n * 64);
    }

    pub fn bit_len(&self) -> (r: usize)
        ensures
            r == self.len_spec(),
    {
        self.bit_len
    }

    pub fn empty(bit_len: usize) -> (r: Self)
        requires
            bit_len + 63 <= usize::MAX,
        ensures
            r.wf(),
            r.len_spec() == bit_len,
            r.clean(),
            forall|i: int| 0 <= i < r@.len() ==> !#[trigger] r@[i],
    {
        let n: usize = (bit_len + 63) / 64;
        let words: Vec<u64> = vec![0u64; n];
        let r = Self { words, bit_len };
        assert forall|i: int| 0 <= i < r@.len() implies !#[trigger] r@[i] by {
            lemma_index_split(i);
            lemma_bit_const((i % 64) as u64);
        }
        r
    }

    pub fn full(bit_len: usize) -> (r: Self)
        requires
            bit_len + 63 <= usize::MAX,
        ensures
            r.wf(),
            r.len_spec() == bit_len,
            r.clean(),
            forall|i: int| 0 <= i < r@.len() ==> #[trigger] r@[i] == (i < bit_len),
    {
        let mut bits = Self::empty(bit_len);
        let n = bits.words.len();
        let mut k: usize = 0;
        while k < n
            invariant
                n == bits.words.len(),
                k <= n,
                bits.bit_len == bit_len,
                bits.wf(),
                forall|w: int| 0 <= w < k ==> bits.words@[w] == u64::MAX,
            decreases n - k,
        {
            bits.words.set(k, u64::MAX);
            k = k + 1;
        }
        proof {
            bits.lemma_wf_len();
            assert forall|i: int| 0 <= i < bits@.len() implies #[trigger] bits@[i] by {
                lemma_index_split(i);
                lemma_bit_const((i % 64) as u64);
            }
        }
        bits.clear_unused_bits();
        bits
    }

    /// Clear the bits of the last word that lie beyond the domain proper.
    fn clear_unused_bits(&mut self)
        requires
            old(self).wf(),
        ensures
            final(self).wf(),
            final(self).len_spec() == old(self).len_spec(),
            final(self)@.len() == old(self)@.len(),
            forall|i: int|
                0 <= i < final(self)@.len() ==> #[trigger] final(self)@[i] == (old(self)@[i] && i
                    < old(self).len_spec()),
    {
        proof {
            self.lemma_wf_len();
        }
        let unused: usize = self.words.len() * 64 - self.bit_len;
        if unused == 0 {
            return;
        }
        let n = self.words.len();
        let last = self.words[n - 1];
        let masked = last & (u64::MAX >> (unused as u64));
        self.words.set(n - 1, masked);
        proof {
            assert forall|i: int| 0 <= i < self@.len() implies #[trigger] self@[i] == (old(self)@[i]
                && i < old(self).len_spec()) by {
                lemma_index_split(i);
                if i / 64 == n - 1 {
                    lemma_bit_low_mask(last, unused as u64, (i % 64) as u64);
                } else {
                    assert(i / 64 < n - 1);
                }
            }
        }
    }

    pub fn singleton(bit_len: usize, index: usize) -> (r: Self)
        requires
            bit_len + 63 <= usize::MAX,
        ensures
            r.wf(),
            r.len_spec() == bit_len,
            forall|i: int| 0 <= i < r@.len() ==> #[trigger] r@[i] == (i == index),
            index < bit_len ==> r.clean(),
    {
        let mut bits = Self::empty(bit_len);
        bits.insert(index);
        proof {
            bits.lemma_wf_len();
        }
        bits
    }

    pub fn count(&self) -> (r: usize)
        requires
            self.wf(),
        ensures
            r == count_true(self@),
    {
        proof {
            self.lemma_wf_len();
        }
        let n = self.words.len();
        let mut total: usize = 0;
        let mut w: usize = 0;
        while w < n
            invariant
                n == self.words@.len(),
                self@.len() == n * 64,
                self@.len() <= usize::MAX,
                w <= n,
                total == count_true(self@.take(w * 64)),
            decreases n - w,
        {
            let word = self.words[w];
            let mut b: u64 = 0;
            while b < 64
                invariant
                    n == self.words@.len(),
                    self@.len() == n * 64,
                    self@.len() <= usize::MAX,
                    w < n,
                    word == self.words@[w as int],
                    b <= 64,
                    total == count_true(self@.take(w * 64 + b)),
                decreases 64 - b,
            {
                let ghost k: int = w * 64 + b;
                proof {
                    assert(k < n * 64) by (nonlinear_arith)
                        requires
                            k == w * 64 + b,
                            w < n,
                            b < 64,
                    ;
                    lemma_count_true_step(self@, k);
                    lemma_count_true_bounds(self@.take(k));
                    assert(k / 64 == w && k % 64 == b) by (nonlinear_arith)
                        requires
                            k == w * 64 + b,
                            b < 64,
                    ;
                    assert(self@[k] == bit_of(word, b));
                }
                if (word >> b) & 1 == 1 {
                    total = total + 1;
                }
                b = b + 1;
            }
            assert(w * 64 + 64 == (w + 1) * 64);
            w = w + 1;
        }
        assert(self@.take(n * 64) =~= self@);
        total
    }

    pub fn is_empty(&self) -> (r: bool)
        requires
            self.wf(),
        ensures
            r == (forall|i: int| 0 <= i < self@.len() ==> !#[trigger] self@[i]),
    {
        proof {
            self.lemma_wf_len();
        }
        let n = self.words.len();
        let mut w: usize = 0;
        while w < n
            invariant
                n == self.words@.len(),
                self@.len() == n * 64,
                w <= n,
                forall|i: int| 0 <= i < w * 64 ==> !#[trigger] self@[i],
            decreases n - w,
        {
            let word = self.words[w];
            proof {
                lemma_word_zero(word);
            }
            if word != 0 {
                proof {
                    let b = choose|b: u64| b < 64 && #[trigger] bit_of(word, b);
                    let i = w * 64 + b;
                    assert(i / 64 == w && i % 64 == b) by (nonlinear_arith)
                        requires
                            i == w * 64 + b,
                            b < 64,
                    ;
                    assert(self@[i]);
                }
                return false;
            }
            proof {
                assert forall|i: int| 0 <= i < (w + 1) * 64 implies !#[trigger] self@[i] by {
                    if i >= w * 64 {
                        lemma_index_split(i);
                        assert(i / 64 == w) by (nonlinear_arith)
                            requires
                                w * 64 <= i < (w + 1) * 64,
                        ;
                    }
                }
            }
            w = w + 1;
        }
        true
    }

    pub fn is_singleton(&self) -> (r: bool)
        requires
            self.wf(),
        ensures
            r == (count_true(self@) == 1),
    {
        self.count() == 1
    }

    pub fn first_one(&self) -> (r: Option<usize>)
        requires
            self.wf(),
        ensures
            r is None <==> (forall|i: int| 0 <= i < self@.len() ==> !#[trigger] self@[i]),
            r matches Some(k) ==> k < self@.len() && self@[k as int] && forall|i: int|
                0 <= i < k ==> !#[trigger] self@[i],
    {
        proof {
            self.lemma_wf_len();
        }
        let n = self.words.len();
        let mut w: usize = 0;
        while w < n
            invariant
                n == self.words@.len(),
                self@.len() == n * 64,
                self@.len() <= usize::MAX,
                w <= n,
                forall|i: int| 0 <= i < w * 64 ==> !#[trigger] self@[i],
            decreases n - w,
        {
            let word = self.words[w];
            proof {
                lemma_word_zero(word);
            }
            if word != 0 {
                let t = word.trailing_zeros();
                proof {
                    axiom_u64_trailing_zeros(word);
                }
                let k: usize = w * 64 + t as usize;
                proof {
                    assert(k / 64 == w && k % 64 == t) by (nonlinear_arith)
                        requires
                            k == w * 64 + t,
                            t < 64,
                    ;
                    assert(self@[k as int]);
                    assert forall|i: int| 0 <= i < k implies !#[trigger] self@[i] by {
                        if i >= w * 64 {
                            lemma_index_split(i);
                            assert(i / 64 == w) by (nonlinear_arith)
                                requires
                                    w * 64 <= i < w * 64 + 64,
                            ;
                            let j = (i % 64) as u64;
                            assert(j < t);
                            assert((word >> j) & 1u64 == 0u64);
                        }
                    }
                }
                return Some(k);
            }
            proof {
                assert forall|i: int| 0 <= i < (w + 1) * 64 implies !#[trigger] self@[i] by {
                    if i >= w * 64 {
                        lemma_index_split(i);
                        assert(i / 64 == w) by (nonlinear_arith)
                            requires
                                w * 64 <= i < (w + 1) * 64,
                        ;
                    }
                }
            }
            w = w + 1;
        }
        None
    }

    pub fn contains(&self, index: usize) -> (r: bool)
        requires
            self.wf(),
        ensures
            r == (index < self@.len() && self@[index as int]),
    {
        proof {
            self.lemma_wf_len();
        }
        let word_index = index / 64;
        let bit_index = index % 64;
        if word_index < self.words.len() {
            let word = self.words[word_index];
            proof {
                lemma_bit_test(word, bit_index as u64);
                assert(index < self@.len()) by (nonlinear_arith)
                    requires
                        word_index == index / 64,
                        word_index < self.words@.len(),
                        self@.len() == self.words@.len() * 64,
                ;
            }
            (word & (1u64 << (bit_index as u64))) != 0
        } else {
            proof {
                assert(index >= self@.len()) by (nonlinear_arith)
                    requires
                        word_index == index / 64,
                        word_index >= self.words@.len(),
                        self@.len() == self.words@.len() * 64,
                ;
            }
            false
        }
    }

    pub fn insert(&mut self, index: usize)
        requires
            old(self).wf(),
        ensures
            final(self).wf(),
            final(self).len_spec() == old(self).len_spec(),
            final(self)@ == if index < old(self)@.len() {
                old(self)@.update(index as int, true)
            } else {
                old(self)@
            },
    {
        proof {
            self.lemma_wf_len();
        }
        let ghost nw = self.words@.len();
        let word_index = index / 64;
        let bit_index = index % 64;
        if word_index < self.words.len() {
            let word = self.words[word_index];
            self.words.set(word_index, word | (1u64 << (bit_index as u64)));
            proof {
                assert(index < nw * 64) by (nonlinear_arith)
                    requires
                        word_index == index / 64,
                        word_index < nw,
                ;
                assert forall|i: int| 0 <= i < self@.len() implies #[trigger] self@[i]
                    == old(self)@.update(index as int, true)[i] by {
                    lemma_index_split(i);
                    if i / 64 == word_index {
                        lemma_bit_set(word, bit_index as u64, (i % 64) as u64);
                        if i % 64 == bit_index {
                            assert(i == index);
                        } else {
                            assert(i != index);
                        }
                    } else {
                        assert(i != index);
                    }
                }
                assert(self@ =~= old(self)@.update(index as int, true));
            }
        } else {
            proof {
                assert(index >= nw * 64) by (nonlinear_arith)
                    requires
                        word_index == index / 64,
                        word_index >= nw,
                ;
            }
        }
    }

    /// Intersect with `other` over the words both have; report whether anything changed.
    pub fn and_assign(&mut self, other: &Self) -> (changed: bool)
        requires
            old(self).wf(),
            other.wf(),
            old(self).len_spec() == other.len_spec(),
        ensures
            final(self).wf(),
            final(self).len_spec() == old(self).len_spec(),
            final(self)@.len() == old(self)@.len(),
            forall|i: int|
                0 <= i < final(self)@.len() ==> #[trigger] final(self)@[i] == (old(self)@[i]
                    && other@[i]),
            changed == (final(self)@ != old(self)@),
    {
        proof {
            self.lemma_wf_len();
            other.lemma_wf_len();
        }
        let n = self.words.len();
        let mut changed = false;
        let mut w: usize = 0;
        while w < n
            invariant
                n == self.words@.len(),
                n == other.words@.len(),
                n == old(self).words@.len(),
                self.bit_len == old(self).bit_len,
                self.wf(),
                w <= n,
                forall|k: int| 0 <= k < w ==> self.words@[k] == old(self).words@[k] & other.words@[k],
                forall|k: int| w <= k < n ==> self.words@[k] == old(self).words@[k],
                changed == exists|k: int| 0 <= k < w && self.words@[k] != old(self).words@[k],
            decreases n - w,
        {
            let left = self.words[w];
            let next = left & other.words[w];
            if next != left {
                changed = true;
            }
            self.words.set(w, next);
            w = w + 1;
        }
        proof {
            assert forall|i: int| 0 <= i < self@.len() implies #[trigger] self@[i] == (old(self)@[i]
                && other@[i]) by {
                lemma_index_split(i);
                lemma_bit_and(old(self).words@[i / 64], other.words@[i / 64], (i % 64) as u64);
            }
            lemma_bits_eq(self.words@, old(self).words@);
            if changed {
                assert(self.words@ != old(self).words@);
            } else {
                assert(self.words@ =~= old(self).words@);
            }
        }
        changed
    }

    /// Add the members of `other`.
    pub fn or_assign(&mut self, other: &Self)
        requires
            old(self).wf(),
            other.wf(),
            old(self).len_spec() == other.len_spec(),
        ensures
            final(self).wf(),
            final(self).len_spec() == old(self).len_spec(),
            final(self)@.len() == old(self)@.len(),
            forall|i: int|
                0 <= i < final(self)@.len() ==> #[trigger] final(self)@[i] == (old(self)@[i]
                    || other@[i]),
    {
        proof {
            self.lemma_wf_len();
            other.lemma_wf_len();
        }
        let n = self.words.len();
        let mut w: usize = 0;
        while w < n
            invariant
                n == self.words@.len(),
                n == other.words@.len(),
                n == old(self).words@.len(),
                self.bit_len == old(self).bit_len,
                self.wf(),
                w <= n,
                forall|k: int| 0 <= k < w ==> self.words@[k] == old(self).words@[k] | other.words@[k],
                forall|k: int| w <= k < n ==> self.words@[k] == old(self).words@[k],
            decreases n - w,
        {
            let left = self.words[w];
            self.words.set(w, left | other.words[w]);
            w = w + 1;
        }
        proof {
            assert forall|i: int| 0 <= i < self@.len() implies #[trigger] self@[i] == (old(self)@[i]
                || other@[i]) by {
                lemma_index_split(i);
                lemma_bit_or(old(self).words@[i / 64], other.words@[i / 64], (i % 64) as u64);
            }
        }
    }

    /// The members of `self` that are not members of `other`.
    pub fn difference(&self, other: &Self) -> (r: Self)
        requires
            self.wf(),
            other.wf(),
            self.len_spec() == other.len_spec(),
        ensures
            r.wf(),
            r.len_spec() == self.len_spec(),
            r@.len() == self@.len(),
            forall|i: int| 0 <= i < r@.len() ==> #[trigger] r@[i] == (self@[i] && !other@[i]),
    {
        proof {
            self.lemma_wf_len();
            other.lemma_wf_len();
        }
        let mut next = self.duplicate();
        proof {
            lemma_bits_eq(next.words@, self.words@);
        }
        let n = next.words.len();
        let mut w: usize = 0;
        while w < n
            invariant
                n == next.words@.len(),
                n == other.words@.len(),
                n == self.words@.len(),
                next.bit_len == self.bit_len,
                next.wf(),
                w <= n,
                forall|k: int| 0 <= k < w ==> next.words@[k] == self.words@[k] & !other.words@[k],
                forall|k: int| w <= k < n ==> next.words@[k] == self.words@[k],
            decreases n - w,
        {
            let left = next.words[w];
            next.words.set(w, left & !other.words[w]);
            w = w + 1;
        }
        proof {
            assert forall|i: int| 0 <= i < next@.len() implies #[trigger] next@[i] == (self@[i]
                && !other@[i]) by {
                lemma_index_split(i);
                lemma_bit_and_not(self.words@[i / 64], other.words@[i / 64], (i % 64) as u64);
            }
        }
        next
    }

    /// Whether the two sets share a member among the words both have.
    pub fn intersects(&self, other: &Self) -> (r: bool)
        requires
            self.wf(),
            other.wf(),
            self.len_spec() == other.len_spec(),
        ensures
            r == exists|i: int| 0 <= i < self@.len() && self@[i] && other@[i],
    {
        proof {
            self.lemma_wf_len();
            other.lemma_wf_len();
        }
        let n = self.words.len();
        let mut w: usize = 0;
        while w < n
            invariant
                n == self.words@.len(),
                n == other.words@.len(),
                self@.len() == n * 64,
                other@.len() == n * 64,
                w <= n,
                forall|i: int| 0 <= i < w * 64 ==> !(#[trigger] self@[i] && other@[i]),
            decreases n - w,
        {
            let both = self.words[w] & other.words[w];
            proof {
                lemma_word_zero(both);
            }
            if both != 0 {
                proof {
                    let b = choose|b: u64| b < 64 && #[trigger] bit_of(both, b);
                    lemma_bit_and(self.words@[w as int], other.words@[w as int], b);
                    let i = w * 64 + b;
                    assert(i / 64 == w && i % 64 == b) by (nonlinear_arith)
                        requires
                            i == w * 64 + b,
                            b < 64,
                    ;
                    assert(self@[i] && other@[i]);
                }
                return true;
            }
            proof {
                assert forall|i: int| 0 <= i < (w + 1) * 64 implies !(#[trigger] self@[i]
                    && other@[i]) by {
                    if i >= w * 64 {
                        lemma_index_split(i);
                        assert(i / 64 == w) by (nonlinear_arith)
                            requires
                                w * 64 <= i < (w + 1) * 64,
                        ;
                        lemma_bit_and(self.words@[w as int], other.words@[w as int], (i % 64) as u64);
                    }
                }
            }
            w = w + 1;
        }
        false
    }

    /// The member indices below the domain length, in increasing order.
    pub fn to_indices(&self) -> (r: Vec<usize>)
        requires
            self.wf(),
        ensures
            r@.map_values(|k: usize| k as int) == true_indices(self@, self.len_spec() as int),
            forall|k: int|
                0 <= k < r@.len() ==> #[trigger] r@[k] < self.len_spec() && self@[r@[k] as int],
            forall|a: int, b: int| 0 <= a < b < r@.len() ==> #[trigger] r@[a] < #[trigger] r@[b],
            forall|i: int|
                0 <= i < self.len_spec() && self@[i] ==> #[trigger] r@.contains(i as usize),
    {
        proof {
            self.lemma_wf_len();
        }
        let limit = self.bit_len;
        let mut indices: Vec<usize> = Vec::new();
        let mut i: usize = 0;
        while i < limit
            invariant
                limit == self.len_spec(),
                limit <= self@.len(),
                self.wf(),
                i <= limit,
                indices@.map_values(|k: usize| k as int) == true_indices(self@, i as int),
            decreases limit - i,
        {
            let present = self.contains(i);
            if present {
                indices.push(i);
            }
            proof {
                if present {
                    assert(indices@.map_values(|k: usize| k as int) =~= true_indices(
                        self@,
                        i as int,
                    ).push(i as int));
                }
            }
            i = i + 1;
        }
        proof {
            lemma_true_indices(self@, limit as int);
            let t = true_indices(self@, limit as int);
            assert forall|k: int| 0 <= k < indices@.len() implies #[trigger] indices@[k] < limit
                && self@[indices@[k] as int] by {
                assert(indices@.map_values(|k: usize| k as int)[k] == t[k]);
            }
            assert forall|a: int, b: int| 0 <= a < b < indices@.len() implies #[trigger] indices@[a]
                < #[trigger] indices@[b] by {
                assert(indices@.map_values(|k: usize| k as int)[a] == t[a]);
                assert(indices@.map_values(|k: usize| k as int)[b] == t[b]);
            }
            assert forall|j: int| 0 <= j < limit && self@[j] implies #[trigger] indices@.contains(
                j as usize,
            ) by {
                assert(t.contains(j));
                let p = choose|p: int| 0 <= p < t.len() && t[p] == j;
                assert(indices@.map_values(|k: usize| k as int)[p] == t[p]);
                assert(indices@[p] == j as usize);
            }
        }
        indices
    }

    /// A copy with the same members.
    pub fn duplicate(&self) -> (r: Self)
        ensures
            r@ == self@,
            r.len_spec() == self.len_spec(),
            self.wf() ==> r.wf(),
    {
        let words = self.words.clone();
        proof {
            assert(words@ =~= self.words@);
        }
        Self { words, bit_len: self.bit_len }
    }

    /// Whether both sets were made for the same length and hold the same bits.
    pub fn same_as(&self, other: &Self) -> (r: bool)
        requires
            self.wf(),
            other.wf(),
        ensures
            r == (self@ == other@ && self.len_spec() == other.len_spec()),
    {
        if self.bit_len != other.bit_len {
            return false;
        }
        let n = self.words.len();
        let mut w: usize = 0;
        while w < n
            invariant
                n == self.words@.len(),
                n == other.words@.len(),
                w <= n,
                forall|k: int| 0 <= k < w ==> self.words@[k] == other.words@[k],
            decreases n - w,
        {
            if self.words[w] != other.words[w] {
                proof {
                    lemma_bits_eq(self.words@, other.words@);
                }
                return false;
            }
            w = w + 1;
        }
        proof {
            assert(self.words@ =~= other.words@);
        }
        true
    }
}

} // verus!
