//! A packed array of bits stored little-endian in 64-bit words.
use vstd::prelude::*;

verus! {

/// Bit `i` of the word `w`, counting from the least significant bit.
pub open spec fn word_bit(w: u64, i: u64) -> bool {
    (w >> i) & 1u64 == 1u64
}

/// Number of set entries of `s` at the positions `lo..hi`.
pub open spec fn count_set(s: Seq<bool>, lo: int, hi: int) -> nat
    decreases hi - lo,
{
    if hi <= lo {
        0
    } else {
        count_set(s, lo, hi - 1) + if s[hi - 1] {
            1nat
        } else {
            0nat
        }
    }
}

/// Number of set bits of `w` among its lowest `k` positions.
pub open spec fn word_ones(w: u64, k: int) -> nat
    decreases k,
{
    if k <= 0 {
        0
    } else {
        word_ones(w, k - 1) + if word_bit(w, (k - 1) as u64) {
            1nat
        } else {
            0nat
        }
    }
}

/// The word with its lowest `t` bits set.
pub open spec fn low_mask(t: u64) -> u64 {
    ((1u64 << t) - 1) as u64
}

/// The word with its lowest `t` bits set, computed.
fn low_bits(t: u64) -> (r: u64)
    requires
        t < 64,
    ensures
        r == low_mask(t),
{
    let one = 1u64 << t;
    proof {
        assert(1u64 << t >= 1) by (bit_vector)
            requires
                t < 64,
        ;
    }
    one - 1
}

/// Relies on `u64::count_ones`: the number of ones in the binary
/// representation of the word.
#[verifier::external_body]
fn ones_in_word(w: u64) -> (r: u32)
    ensures
        r as nat == word_ones(w, 64),
{
    w.count_ones()
}

proof fn lemma_full_and_empty_words()
    ensures
        forall|i: u64| i < 64 ==> #[trigger] word_bit(u64::MAX, i),
        forall|i: u64| i < 64 ==> !#[trigger] word_bit(0u64, i),
{
    assert forall|i: u64| i < 64 implies #[trigger] word_bit(u64::MAX, i) by {
        assert((u64::MAX >> i) & 1u64 == 1u64) by (bit_vector)
            requires
                i < 64,
        ;
    }
    assert forall|i: u64| i < 64 implies !#[trigger] word_bit(0u64, i) by {
        assert((0u64 >> i) & 1u64 == 0u64) by (bit_vector);
    }
}

proof fn lemma_set_in_word(w: u64, s: u64)
    requires
        s < 64,
    ensures
        forall|i: u64|
            i < 64 ==> #[trigger] word_bit(w | (1u64 << s), i) == (i == s || word_bit(w, i)),
        forall|i: u64|
            i < 64 ==> #[trigger] word_bit(w & !(1u64 << s), i) == (i != s && word_bit(w, i)),
{
    assert forall|i: u64| i < 64 implies #[trigger] word_bit(w | (1u64 << s), i) == (i == s
        || word_bit(w, i)) by {
        assert(((w | (1u64 << s)) >> i) & 1u64 == 1u64 <==> (i == s || (w >> i) & 1u64 == 1u64))
            by (bit_vector)
            requires
                i < 64,
                s < 64,
        ;
    }
    assert forall|i: u64| i < 64 implies #[trigger] word_bit(w & !(1u64 << s), i) == (i != s
        && word_bit(w, i)) by {
        assert(((w & !(1u64 << s)) >> i) & 1u64 == 1u64 <==> (i != s && (w >> i) & 1u64 == 1u64))
            by (bit_vector)
            requires
                i < 64,
                s < 64,
        ;
    }
}

proof fn lemma_fill_above(w: u64, t: u64)
    requires
        t < 64,
    ensures
        forall|i: u64|
            i < 64 ==> #[trigger] word_bit(w & low_mask(t), i) == (i < t && word_bit(w, i)),
        forall|i: u64|
            i < 64 ==> #[trigger] word_bit(w | !low_mask(t), i) == (i >= t || word_bit(w, i)),
{
    assert forall|i: u64| i < 64 implies #[trigger] word_bit(w & low_mask(t), i) == (i < t
        && word_bit(w, i)) by {
        assert(((w & (((1u64 << t) - 1) as u64)) >> i) & 1u64 == 1u64 <==> (i < t && (w >> i)
            & 1u64 == 1u64)) by (bit_vector)
            requires
                i < 64,
                t < 64,
        ;
    }
    assert forall|i: u64| i < 64 implies #[trigger] word_bit(w | !low_mask(t), i) == (i >= t
        || word_bit(w, i)) by {
        assert(((w | !(((1u64 << t) - 1) as u64)) >> i) & 1u64 == 1u64 <==> (i >= t || (w >> i)
            & 1u64 == 1u64)) by (bit_vector)
            requires
                i < 64,
                t < 64,
        ;
    }
}

/// Counting over `lo..hi` splits at any point in between.
pub proof fn lemma_count_split(s: Seq<bool>, lo: int, mid: int, hi: int)
    requires
        lo <= mid <= hi,
    ensures
        count_set(s, lo, hi) == count_set(s, lo, mid) + count_set(s, mid, hi),
    decreases hi - mid,
{
    if hi > mid {
        lemma_count_split(s, lo, mid, hi - 1);
    }
}

/// Two sequences that agree on `lo..hi` have the same count there.
pub proof fn lemma_count_agree(s: Seq<bool>, t: Seq<bool>, lo: int, hi: int)
    requires
        forall|k: int| lo <= k < hi ==> s[k] == t[k],
    ensures
        count_set(s, lo, hi) == count_set(t, lo, hi),
    decreases hi - lo,
{
    if hi > lo {
        lemma_count_agree(s, t, lo, hi - 1);
    }
}

proof fn lemma_count_bounded(s: Seq<bool>, lo: int, hi: int)
    requires
        lo <= hi,
    ensures
        count_set(s, lo, hi) <= hi - lo,
    decreases hi - lo,
{
    if hi > lo {
        lemma_count_bounded(s, lo, hi - 1);
    }
}

proof fn lemma_word_ones_masked(w: u64, t: u64, k: int)
    requires
        t < 64,
        0 <= k <= 64,
    ensures
        word_ones(w & low_mask(t), k) == if k <= t {
            word_ones(w, k)
        } else {
            word_ones(w, t as int)
        },
    decreases k,
{
    lemma_fill_above(w, t);
    if k > 0 {
        lemma_word_ones_masked(w, t, k - 1);
        assert(word_bit(w & low_mask(t), (k - 1) as u64) == ((k - 1) < t && word_bit(
            w,
            (k - 1) as u64,
        )));
    }
}

/// A packed array of bits; bit `j` lives in word `j / 64` at shift `j % 64`.
pub struct BitVec {
    data: Vec<u64>,
    len: usize,
}

impl View for BitVec {
    type V = Seq<bool>;

    closed spec fn view(&self) -> Seq<bool> {
        Seq::new(self.len as nat, |j: int| word_bit(self.data@[j / 64], (j % 64) as u64))
    }
}

impl BitVec {
    /// The storage holds exactly as many words as the bits need.
    pub closed spec fn wf(&self) -> bool {
        self.data@.len() == (self.len as int + 63) / 64
    }

    proof fn lemma_word_count(&self, k: int, t: int)
        requires
            self.wf(),
            0 <= k,
            0 <= t <= 64,
            64 * k + t <= self.len,
        ensures
            count_set(self@, 64 * k, 64 * k + t) == word_ones(self.data@[k], t),
        decreases t,
    {
        if t > 0 {
            self.lemma_word_count(k, t - 1);
            let j = 64 * k + t - 1;
            assert(j / 64 == k && j % 64 == t - 1);
        }
    }

    /// A bit array of `length` bits, each equal to `value`.
    pub fn with_capacity(length: usize, value: bool) -> (r: BitVec)
        ensures
            r.wf(),
            r@ == Seq::new(length as nat, |j: int| value),
    {
        let words: usize = if length % 64 == 0 {
            length / 64
        } else {
            length / 64 + 1
        };
        let fill: u64 = if value {
            u64::MAX
        } else {
            0
        };
        let r = BitVec { data: vec![fill; words], len: length };
        proof {
            lemma_full_and_empty_words();
            assert forall|j: int| 0 <= j < length implies r@[j] == value by {
                assert(r.data@[j / 64] == fill);
            }
            assert(r@ =~= Seq::new(length as nat, |j: int| value));
        }
        r
    }

    /// The number of bits.
    pub fn len(&self) -> (r: usize)
        ensures
            r == self@.len(),
    {
        self.len
    }

    /// Sets bit `index` to `value`, leaving every other bit as it was.
    pub fn set_bit(&mut self, index: usize, value: bool)
        requires
            old(self).wf(),
            index < old(self)@.len(),
        ensures
            final(self).wf(),
            final(self)@ == old(self)@.update(index as int, value),
    {
        let k = index / 64;
        let s = (index % 64) as u64;
        let w = self.data[k];
        let nw = if value {
            w | (1u64 << s)
        } else {
            w & !(1u64 << s)
        };
        self.data.set(k, nw);
        proof {
            lemma_set_in_word(w, s);
            let before = old(self)@;
            assert forall|j: int| 0 <= j < before.len() implies self@[j] == before.update(
                index as int,
                value,
            )[j] by {
                if j / 64 == k as int {
                    assert(word_bit(nw, (j % 64) as u64) == if j % 64 == s as int {
                        value
                    } else {
                        word_bit(w, (j % 64) as u64)
                    });
                }
            }
            assert(self@ =~= before.update(index as int, value));
        }
    }

    /// The value of bit `index`.
    pub fn get_bit(&self, index: usize) -> (r: bool)
        requires
            self.wf(),
            index < self@.len(),
        ensures
            r == self@[index as int],
    {
        let w = self.data[index / 64];
        let s = (index % 64) as u64;
        (w >> s) & 1u64 == 1u64
    }
    /// Changes the length to `size`: the bits below both lengths are kept and
    /// every new bit equals `value`.
    pub fn resize(&mut self, size: usize, value: bool)
        requires
            old(self).wf(),
        ensures
            final(self).wf(),
            final(self)@ == if size <= old(self)@.len() {
                old(self)@.subrange(0, size as int)
            } else {
                old(self)@ + Seq::new((size - old(self)@.len()) as nat, |j: int| value)
            },
    {
        let ghost before = self@;
        let ghost old_data = self.data@;
        let fill: u64 = if value {
            u64::MAX
        } else {
            0
        };
        if size > self.len && self.len % 64 != 0 {
            let k = self.len / 64;
            let t = (self.len % 64) as u64;
            let w = self.data[k];
            let mask = low_bits(t);
            let nw = if value {
                w | !mask
            } else {
                w & mask
            };
            proof {
                lemma_fill_above(w, t);
            }
            self.data.set(k, nw);
        }
        let words: usize = if size % 64 == 0 {
            size / 64
        } else {
            size / 64 + 1
        };
        let ghost mid = self.data@;
        self.data.resize(words, fill);
        self.len = size;
        proof {
            lemma_full_and_empty_words();
            let target = if size <= before.len() {
                before.subrange(0, size as int)
            } else {
                before + Seq::new((size - before.len()) as nat, |j: int| value)
            };
            let last = before.len() / 64;
            let t = (before.len() % 64) as u64;
            assert forall|j: int| 0 <= j < size implies self@[j] == target[j] by {
                let k = j / 64;
                let i = (j % 64) as u64;
                if k < mid.len() {
                    assert(self.data@[k] == mid[k]);
                    if k != last || size <= before.len() || t == 0 {
                        assert(mid[k] == old_data[k]);
                        if j >= before.len() {
                            assert(false);
                        }
                    } else {
                        lemma_fill_above(old_data[k], t);
                    }
                } else {
                    assert(self.data@[k] == fill);
                }
            }
            assert(self@ =~= target);
        }
    }

    /// The number of set bits among the first `end` bits, or among all of
    /// them where `end` is `None`; an `end` past the length counts up to the
    /// length.
    pub fn get_population_count(&self, end: Option<usize>) -> (r: u64)
        requires
            self.wf(),
        ensures
            r == count_set(
                self@,
                0,
                match end {
                    Some(e) => if e <= self@.len() {
                        e as int
                    } else {
                        self@.len() as int
                    },
                    None => self@.len() as int,
                },
            ),
    {
        let stop: usize = match end {
            Some(e) => if e <= self.len {
                e
            } else {
                self.len
            },
            None => self.len,
        };
        let full = stop / 64;
        let mut total: u64 = 0;
        let mut k: usize = 0;
        while k < full
            invariant
                self.wf(),
                stop <= self.len,
                full == stop / 64,
                k <= full,
                total == count_set(self@, 0, 64 * k),
                total <= 64 * k,
            decreases full - k,
        {
            let n = ones_in_word(self.data[k]);
            proof {
                self.lemma_word_count(k as int, 64);
                lemma_count_split(self@, 0, 64 * k, 64 * k + 64);
                lemma_count_bounded(self@, 64 * k, 64 * k + 64);
            }
            total = total + n as u64;
            k = k + 1;
        }
        let t = (stop % 64) as u64;
        if t > 0 {
            let w = self.data[full];
            let n = ones_in_word(w & low_bits(t));
            proof {
                lemma_word_ones_masked(w, t, 64);
                self.lemma_word_count(full as int, t as int);
                lemma_count_split(self@, 0, 64 * full, 64 * full + t);
                lemma_count_bounded(self@, 64 * full, 64 * full + t);
            }
            total = total + n as u64;
        }
        total
    }
}

/// Writing a bit and reading it back gives the value written, and no other
/// bit changes.
pub proof fn lemma_get_after_set(before: Seq<bool>, after: Seq<bool>, j: int, value: bool)
    requires
        0 <= j < before.len(),
        after == before.update(j, value),
    ensures
        after[j] == value,
        forall|k: int| 0 <= k < before.len() && k != j ==> after[k] == before[k],
{
}

/// The positions of the set bits among the first `hi`.
pub open spec fn set_positions(s: Seq<bool>, hi: int) -> Set<int> {
    Set::new(|j: int| 0 <= j < hi && s[j])
}

/// The population count over the whole array is the number of positions
/// whose bit is set.
pub proof fn lemma_count_is_set_size(s: Seq<bool>, hi: int)
    requires
        0 <= hi,
    ensures
        set_positions(s, hi).finite(),
        set_positions(s, hi).len() == count_set(s, 0, hi),
    decreases hi,
{
    if hi == 0 {
        assert(set_positions(s, 0) =~= Set::empty());
    } else {
        lemma_count_is_set_size(s, hi - 1);
        if s[hi - 1] {
            assert(set_positions(s, hi) =~= set_positions(s, hi - 1).insert(hi - 1));
        } else {
            assert(set_positions(s, hi) =~= set_positions(s, hi - 1));
        }
    }
}

} // verus!
