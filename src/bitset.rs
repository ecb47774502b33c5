use vstd::prelude::*;

verus! {

/// Width of one storage word, in bits.
pub const WORD_BITS: usize = 64;

/// Bit `k` of the word `w`.
pub open spec fn word_bit(w: u64, k: u64) -> bool {
    (w >> k) & 1u64 == 1u64
}

/// Number of set bits of `w` among its `k` lowest positions.
pub open spec fn word_ones(w: u64, k: nat) -> nat
    decreases k,
{
    if k == 0 {
        0
    } else {
        word_ones(w, (k - 1) as nat) + if word_bit(w, (k - 1) as u64) {
            1nat
        } else {
            0nat
        }
    }
}

/// Number of set bits over a sequence of words.
pub open spec fn seq_ones(ws: Seq<u64>) -> nat
    decreases ws.len(),
{
    if ws.len() == 0 {
        0
    } else {
        seq_ones(ws.drop_last()) + word_ones(ws.last(), 64)
    }
}

/// XOR of all words of a sequence.
pub open spec fn seq_xor(ws: Seq<u64>) -> u64
    decreases ws.len(),
{
    if ws.len() == 0 {
        0
    } else {
        seq_xor(ws.drop_last()) ^ ws.last()
    }
}

/// The fingerprint of a bitset stored in the words `ws`.
pub open spec fn hash_of(ws: Seq<u64>) -> u64 {
    (seq_ones(ws) as u64) ^ seq_xor(ws)
}

/// The bits stored in the words `ws`, lowest position first.
pub open spec fn bits_of(ws: Seq<u64>) -> Seq<bool> {
    Seq::new(64 * ws.len(), |i: int| word_bit(ws[i / 64], (i % 64) as u64))
}

proof fn lemma_word_ones_bound(w: u64, k: nat)
    ensures
        word_ones(w, k) <= k,
    decreases k,
{
    if k > 0 {
        lemma_word_ones_bound(w, (k - 1) as nat);
    }
}

proof fn lemma_seq_ones_bound(ws: Seq<u64>)
    ensures
        seq_ones(ws) <= 64 * ws.len(),
    decreases ws.len(),
{
    if ws.len() > 0 {
        lemma_seq_ones_bound(ws.drop_last());
        lemma_word_ones_bound(ws.last(), 64);
    }
}

proof fn lemma_bit_or(w: u64, m: u64, k: u64)
    requires
        m < 64,
        k < 64,
    ensures
        word_bit(w | (1u64 << m), k) == (k == m || word_bit(w, k)),
{
    assert(((w | (1u64 << m)) >> k) & 1u64 == 1u64 <==> (k == m || (w >> k) & 1u64 == 1u64))
        by (bit_vector)
        requires
            m < 64,
            k < 64,
    ;
}

proof fn lemma_bit_and_not(w: u64, m: u64, k: u64)
    requires
        m < 64,
        k < 64,
    ensures
        word_bit(w & !(1u64 << m), k) == (k != m && word_bit(w, k)),
{
    assert(((w & !(1u64 << m)) >> k) & 1u64 == 1u64 <==> (k != m && (w >> k) & 1u64 == 1u64))
        by (bit_vector)
        requires
            m < 64,
            k < 64,
    ;
}

proof fn lemma_bit_test(w: u64, m: u64)
    requires
        m < 64,
    ensures
        (w & (1u64 << m) != 0) == word_bit(w, m),
{
    assert((w & (1u64 << m) != 0) <==> ((w >> m) & 1u64 == 1u64)) by (bit_vector)
        requires
            m < 64,
    ;
}

proof fn lemma_low_bit(v: u64)
    ensures
        v & 1u64 <= 1,
        (v & 1u64 == 1u64) == word_bit(v, 0),
        v >> 0u64 == v,
{
    assert(v & 1u64 <= 1) by (bit_vector);
    assert(v >> 0u64 == v) by (bit_vector);
}

/// A fixed-size vector of bits, stored in 64-bit words.
pub struct Bitset(Vec<u64>);

impl View for Bitset {
    type V = Seq<bool>;

    /// Bit `i` of the set; the length is the word count times 64.
    closed spec fn view(&self) -> Seq<bool> {
        bits_of(self.0@)
    }
}

impl Clone for Bitset {
    fn clone(&self) -> (r: Self)
        ensures
            r.words() == self.words(),
            r@ == self@,
    {
        Bitset(self.0.clone())
    }
}

impl Bitset {
    /// The storage words.
    pub closed spec fn words(&self) -> Seq<u64> {
        self.0@
    }

    /// The number of bits fits in a `usize`.
    pub open spec fn wf(&self) -> bool {
        64 * self.words().len() <= usize::MAX
    }

    /// A set of `bits` bits, rounded up to whole words, all clear.
    pub fn new(bits: usize) -> (r: Self)
        requires
            bits <= usize::MAX - 63,
        ensures
            r.wf(),
            r@.len() == 64 * ((bits + 63) / 64),
            forall|i: int| 0 <= i < r@.len() ==> !r@[i],
    {
        let mut extra: usize = 0;
        if bits % WORD_BITS != 0 {
            extra = 1;
        }
        let r = Bitset(vec![0u64; bits / WORD_BITS + extra]);
        proof {
            assert(r.0@.len() == (bits + 63) / 64);
            assert forall|i: int| 0 <= i < r@.len() implies !r@[i] by {
                assert(r.0@[i / 64] == 0u64);
                let k = (i % 64) as u64;
                assert((0u64 >> k) & 1u64 == 0u64) by (bit_vector);
            }
        }
        r
    }

    /// Sets bit `pos`.
    pub fn set(&mut self, pos: usize)
        requires
            pos < old(self)@.len(),
        ensures
            final(self)@ == old(self)@.update(pos as int, true),
            final(self).words().len() == old(self).words().len(),
    {
        let (major, minor) = bitset_index(pos);
        let w = self.0[major];
        self.0.set(major, w | (1u64 << minor as u64));
        proof {
            assert forall|i: int| 0 <= i < self@.len() implies self@[i] == old(
                self,
            )@.update(pos as int, true)[i] by {
                if i / 64 == major {
                    lemma_bit_or(w, minor as u64, (i % 64) as u64);
                }
            }
            assert(self@ =~= old(self)@.update(pos as int, true));
        }
    }

    /// Clears bit `pos`.
    pub fn clear(&mut self, pos: usize)
        requires
            pos < old(self)@.len(),
        ensures
            final(self)@ == old(self)@.update(pos as int, false),
            final(self).words().len() == old(self).words().len(),
    {
        let (major, minor) = bitset_index(pos);
        let w = self.0[major];
        self.0.set(major, w & !(1u64 << minor as u64));
        proof {
            assert forall|i: int| 0 <= i < self@.len() implies self@[i] == old(
                self,
            )@.update(pos as int, false)[i] by {
                if i / 64 == major {
                    lemma_bit_and_not(w, minor as u64, (i % 64) as u64);
                }
            }
            assert(self@ =~= old(self)@.update(pos as int, false));
        }
    }

    /// Whether bit `pos` is set.
    pub fn get(&self, pos: usize) -> (r: bool)
        requires
            pos < self@.len(),
        ensures
            r == self@[pos as int],
    {
        let (major, minor) = bitset_index(pos);
        proof {
            lemma_bit_test(self.0@[major as int], minor as u64);
        }
        self.0[major] & (1u64 << minor as u64) != 0
    }

    /// Number of set bits.
    fn popcnt(&self) -> (r: usize)
        requires
            self.wf(),
        ensures
            r == seq_ones(self.words()),
    {
        let mut total: usize = 0;
        let mut i: usize = 0;
        while i < self.0.len()
            invariant
                self.wf(),
                i <= self.0@.len(),
                total == seq_ones(self.0@.take(i as int)),
            decreases self.0@.len() - i,
        {
            let w = self.0[i];
            let mut k: u64 = 0;
            let mut c: usize = 0;
            while k < 64
                invariant
                    k <= 64,
                    c == word_ones(w, k as nat),
                    c <= k,
                decreases 64 - k,
            {
                let b = (w >> k) & 1u64;
                proof {
                    lemma_low_bit(w >> k);
                }
                c = c + b as usize;
                k = k + 1;
            }
            proof {
                let t = self.0@.take(i as int + 1);
                assert(t.drop_last() =~= self.0@.take(i as int));
                lemma_seq_ones_bound(t);
                assert(t.len() == i + 1);
                assert(64 * (i + 1) <= 64 * self.0@.len()) by (nonlinear_arith)
                    requires
                        i < self.0@.len(),
                ;
            }
            total = total + c;
            i = i + 1;
        }
        proof {
            assert(self.0@.take(i as int) =~= self.0@);
        }
        total
    }

    /// A cheap fingerprint: the population count XORed with every word.
    /// Equal bitsets have equal hashes; the converse need not hold.
    pub fn hash(&self) -> (r: u64)
        requires
            self.wf(),
        ensures
            r == hash_of(self.words()),
    {
        let mut hash: u64 = self.popcnt() as u64;
        let mut i: usize = 0;
        proof {
            lemma_seq_ones_bound(self.0@);
            assert(self.0@.take(0) =~= Seq::<u64>::empty());
            let a = hash;
            assert(a ^ 0u64 == a) by (bit_vector);
        }
        while i < self.0.len()
            invariant
                i <= self.0@.len(),
                seq_ones(self.0@) <= usize::MAX,
                hash == (seq_ones(self.0@) as u64) ^ seq_xor(self.0@.take(i as int)),
            decreases self.0@.len() - i,
        {
            proof {
                let t = self.0@.take(i as int + 1);
                assert(t.drop_last() =~= self.0@.take(i as int));
                let a = seq_ones(self.0@) as u64;
                let b = seq_xor(self.0@.take(i as int));
                let c = self.0@[i as int];
                assert((a ^ b) ^ c == a ^ (b ^ c)) by (bit_vector);
            }
            hash = hash ^ self.0[i];
            i = i + 1;
        }
        proof {
            assert(self.0@.take(i as int) =~= self.0@);
        }
        hash
    }

    /// Exact comparison: same number of words and identical words.
    pub fn equals(&self, b2: &Bitset) -> (r: bool)
        ensures
            r == (self.words() == b2.words()),
            r ==> self@ == b2@,
    {
        if self.0.len() != b2.0.len() {
            return false;
        }
        let mut i: usize = 0;
        while i < self.0.len()
            invariant
                self.0@.len() == b2.0@.len(),
                i <= self.0@.len(),
                forall|j: int| 0 <= j < i ==> self.0@[j] == b2.0@[j],
            decreases self.0@.len() - i,
        {
            if self.0[i] != b2.0[i] {
                proof {
                    assert(self.0@[i as int] != b2.0@[i as int]);
                }
                return false;
            }
            i = i + 1;
        }
        proof {
            assert(self.0@ =~= b2.0@);
        }
        true
    }
}

/// Setting a bit makes it read as set and clearing it makes it read as clear,
/// leaving the others; equal words give equal bits and equal hashes (so a
/// clone hashes as the original); `equals` is reflexive and symmetric and
/// fails on bitsets of different sizes.
pub proof fn lemma_bitset_laws(a: Bitset, b: Bitset, i: int)
    requires
        0 <= i < a@.len(),
    ensures
        a@.update(i, true)[i],
        !a@.update(i, false)[i],
        forall|j: int| 0 <= j < a@.len() && j != i ==> a@.update(i, true)[j] == a@[j] && a@.update(
            i,
            false,
        )[j] == a@[j],
        a.words() == b.words() ==> a@ == b@ && hash_of(a.words()) == hash_of(b.words()),
        a.words() == a.words(),
        (a.words() == b.words()) == (b.words() == a.words()),
        a@.len() != b@.len() ==> a.words() != b.words(),
{
}

/// The word holding bit `pos`, and the bit's place within it.
fn bitset_index(pos: usize) -> (r: (usize, usize))
    ensures
        r.0 == pos / 64,
        r.1 == pos % 64,
        r.1 < 64,
{
    (pos / WORD_BITS, pos % WORD_BITS)
}

} // verus!
