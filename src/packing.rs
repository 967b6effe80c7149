use vstd::arithmetic::div_mod::{lemma_fundamental_div_mod, lemma_fundamental_div_mod_converse};
use vstd::prelude::*;

verus! {

/// The low `bits` bits set.
pub open spec fn low_mask(bits: u64) -> u64 {
    ((1u64 << bits) - 1) as u64
}

/// How many entries of `bits` bits fit in one 64-bit word.
pub open spec fn per_word(bits: u64) -> nat {
    (64u64 / bits) as nat
}

/// Entry `v`, cut to `bits` bits, moved to slot `k` of a word.
pub open spec fn slot(v: u64, bits: u64, k: nat) -> u64 {
    (v & low_mask(bits)) << ((bits * k) as u64)
}

/// The word holding entries `start .. start + k` of `vals`, the first in the
/// lowest bits; the bits above them are zero.
pub open spec fn word_of(vals: Seq<u64>, bits: u64, start: int, k: nat) -> u64
    decreases k,
{
    if k == 0 {
        0
    } else {
        word_of(vals, bits, start, (k - 1) as nat) | slot(vals[start + k - 1], bits, (k - 1) as nat)
    }
}

/// How many entries word `j` holds when `n` entries are packed.
pub open spec fn entries_in_word(n: nat, per: nat, j: int) -> nat {
    if (j + 1) * per <= n {
        per
    } else {
        (n - j * per) as nat
    }
}

/// `vals` packed `bits` bits per entry: each word holds `64 / bits` entries,
/// low bits first, no entry crosses into the next word, and a last partial
/// word is padded with zero bits.
pub open spec fn packed(vals: Seq<u64>, bits: u64) -> Seq<u64> {
    let per = per_word(bits);
    Seq::new(
        ((vals.len() + per - 1) / per as int) as nat,
        |j: int| word_of(vals, bits, j * per, entries_in_word(vals.len(), per, j)),
    )
}

/// Entry `i` as read back from packed `words`.
pub open spec fn entry_of(words: Seq<u64>, bits: u64, i: int) -> u64 {
    let per = per_word(bits) as int;
    (words[i / per] >> ((bits * (i % per)) as u64)) & low_mask(bits)
}

proof fn lemma_shift_positive(bits: u64)
    requires
        bits <= 63,
    ensures
        (1u64 << bits) >= 1,
{
    assert((1u64 << bits) >= 1) by (bit_vector)
        requires
            bits <= 63,
    ;
}

/// Packs every value, cut to its low `bits` bits, into 64-bit words with
/// `64 / bits` entries per word, low bits first.
pub fn pack_entries(values: &Vec<u64>, bits: u64) -> (r: Vec<u64>)
    requires
        1 <= bits <= 63,
    ensures
        r@ == packed(values@, bits),
{
    let per: u64 = 64 / bits;
    proof {
        lemma_shift_positive(bits);
    }
    let mask: u64 = (1u64 << bits) - 1;
    assert(mask == low_mask(bits));
    let mut data: Vec<u64> = Vec::new();
    let mut current: u64 = 0;
    let mut count: u64 = 0;
    let mut i: usize = 0;
    let ghost vals = values@;
    let ghost p = per as nat;
    assert(p >= 1 && bits * p <= 64) by (nonlinear_arith)
        requires
            1 <= bits <= 63,
            p == 64u64 / bits,
    ;
    assert(data@.len() * p == 0) by (nonlinear_arith)
        requires
            data@.len() == 0,
    ;
    while i < values.len()
        invariant
            vals == values@,
            1 <= bits <= 63,
            per == p,
            p >= 1,
            bits * p <= 64,
            mask == low_mask(bits),
            i <= vals.len(),
            count < per,
            i == data@.len() * p + count,
            current == word_of(vals, bits, (data@.len() * p) as int, count as nat),
            forall|j: int| 0 <= j < data@.len() ==> #[trigger] data@[j] == word_of(vals, bits, j * p, p),
        decreases vals.len() - i,
    {
        let ghost w = data@.len();
        assert(bits * count < 64) by (nonlinear_arith)
            requires
                count < p,
                bits * p <= 64,
        ;
        current = current | ((values[i] & mask) << (bits * count));
        count = count + 1;
        if count == per {
            data.push(current);
            current = 0;
            count = 0;
            assert((w + 1) * p == w * p + p) by (nonlinear_arith);
        }
        i = i + 1;
    }
    let ghost n = vals.len();
    let ghost w = data@.len();
    if count > 0 {
        data.push(current);
    }
    proof {
        let q = ((n + p - 1) / (p as int)) as nat;
        if count > 0 {
            assert((w + 1) * p == w * p + p) by (nonlinear_arith);
            lemma_fundamental_div_mod_converse((n + p - 1) as int, p as int, (w + 1) as int, (count - 1) as int);
            assert(data@.len() == q);
        } else {
            lemma_fundamental_div_mod_converse((n + p - 1) as int, p as int, w as int, (p - 1) as int);
        }
        assert forall|j: int| 0 <= j < data@.len() implies data@[j] == packed(vals, bits)[j] by {
            if j < w {
                assert((j + 1) * p <= w * p) by (nonlinear_arith)
                    requires
                        j < w,
                ;
            } else {
                assert((j + 1) * p > n) by (nonlinear_arith)
                    requires
                        j == w,
                        n == w * p + count,
                        count < p,
                ;
            }
        }
        assert(data@ =~= packed(vals, bits));
    }
    data
}

/// Reads back the first `n` entries of words packed `bits` bits per entry.
pub fn unpack_entries(words: &Vec<u64>, bits: u64, n: usize) -> (r: Vec<u64>)
    requires
        1 <= bits <= 63,
        n <= words@.len() * per_word(bits),
    ensures
        r@.len() == n,
        forall|i: int| 0 <= i < n ==> #[trigger] r@[i] == entry_of(words@, bits, i),
{
    let per: u64 = 64 / bits;
    proof {
        lemma_shift_positive(bits);
    }
    let mask: u64 = (1u64 << bits) - 1;
    let mut out: Vec<u64> = Vec::new();
    let mut i: usize = 0;
    while i < n
        invariant
            1 <= bits <= 63,
            per == per_word(bits),
            mask == low_mask(bits),
            n <= words@.len() * per_word(bits),
            i <= n,
            out@.len() == i,
            forall|k: int| 0 <= k < i ==> #[trigger] out@[k] == entry_of(words@, bits, k),
        decreases n - i,
    {
        assert(per >= 1 && bits * per <= 64) by (nonlinear_arith)
            requires
                1 <= bits <= 63,
                per == 64u64 / bits,
        ;
        let j: usize = i / (per as usize);
        let k: u64 = (i as u64) % per;
        proof {
            lemma_fundamental_div_mod(i as int, per as int);
            assert(j < words@.len()) by (nonlinear_arith)
                requires
                    i < words@.len() * per,
                    j == i as int / per as int,
                    per >= 1,
            ;
            assert(bits * k < 64) by (nonlinear_arith)
                requires
                    k < per,
                    bits * per <= 64,
            ;
        }
        out.push((words[j] >> (bits * k)) & mask);
        i = i + 1;
    }
    out
}


proof fn lemma_new_slot_reads_back(w: u64, x: u64, s: u64, b: u64, m: u64)
    requires
        1 <= b <= 63,
        s + b <= 64,
        w >> s == 0,
        m == ((1u64 << b) - 1) as u64,
    ensures
        ((w | ((x & m) << s)) >> s) & m == x & m,
        s + b < 64 ==> (w | ((x & m) << s)) >> ((s + b) as u64) == 0,
{
    assert(((w | ((x & m) << s)) >> s) & m == x & m) by (bit_vector)
        requires
            1 <= b <= 63,
            s + b <= 64,
            w >> s == 0,
            m == ((1u64 << b) - 1) as u64,
    ;
    assert(s + b < 64 ==> (w | ((x & m) << s)) >> ((s + b) as u64) == 0) by (bit_vector)
        requires
            1 <= b <= 63,
            s + b <= 64,
            w >> s == 0,
            m == ((1u64 << b) - 1) as u64,
    ;
}

proof fn lemma_new_slot_keeps_old(w: u64, x: u64, s: u64, t: u64, b: u64, m: u64)
    requires
        1 <= b <= 63,
        s + b <= 64,
        t + b <= s,
        m == ((1u64 << b) - 1) as u64,
    ensures
        ((w | ((x & m) << s)) >> t) & m == (w >> t) & m,
{
    assert(((w | ((x & m) << s)) >> t) & m == (w >> t) & m) by (bit_vector)
        requires
            1 <= b <= 63,
            s + b <= 64,
            t + b <= s,
            m == ((1u64 << b) - 1) as u64,
    ;
}

proof fn lemma_small_value_unmasked(x: u64, b: u64, m: u64)
    requires
        1 <= b <= 63,
        x < (1u64 << b),
        m == ((1u64 << b) - 1) as u64,
    ensures
        x & m == x,
{
    assert(x & m == x) by (bit_vector)
        requires
            1 <= b <= 63,
            x < (1u64 << b),
            m == ((1u64 << b) - 1) as u64,
    ;
}

proof fn lemma_word_of_slots(vals: Seq<u64>, bits: u64, start: int, k: nat)
    requires
        1 <= bits <= 63,
        bits * k <= 64,
        0 <= start,
        start + k <= vals.len(),
    ensures
        bits * k < 64 ==> word_of(vals, bits, start, k) >> ((bits * k) as u64) == 0,
        forall|t: nat| t < k ==> (#[trigger] (word_of(vals, bits, start, k) >> ((bits * t) as u64)))
            & low_mask(bits) == vals[start + t] & low_mask(bits),
    decreases k,
{
    let m = low_mask(bits);
    if k == 0 {
        assert(bits * k == 0) by (nonlinear_arith)
            requires
                k == 0,
        ;
        assert(0u64 >> 0u64 == 0) by (bit_vector);
    } else {
        let k1 = (k - 1) as nat;
        let w = word_of(vals, bits, start, k1);
        let s = (bits * k1) as u64;
        let x = vals[start + k1];
        assert(bits * k1 + bits == bits * k) by (nonlinear_arith)
            requires
                k1 + 1 == k,
        ;
        lemma_word_of_slots(vals, bits, start, k1);
        lemma_new_slot_reads_back(w, x, s, bits, m);
        assert((bits * k) as u64 == (s + bits) as u64);
        assert forall|t: nat| t < k implies (#[trigger] (word_of(vals, bits, start, k) >> ((bits
            * t) as u64))) & m == vals[start + t] & m by {
            if t < k1 {
                assert(bits * t + bits <= bits * k1) by (nonlinear_arith)
                    requires
                        t < k1,
                        bits >= 1,
                ;
                lemma_new_slot_keeps_old(w, x, s, (bits * t) as u64, bits, m);
            }
        }
    }
}

/// Unpacking what was packed gives back every entry, when each entry fits in
/// `bits` bits; the packed words hold room for all of them.
pub proof fn lemma_pack_round_trip(vals: Seq<u64>, bits: u64)
    requires
        1 <= bits <= 63,
        forall|i: int| 0 <= i < vals.len() ==> #[trigger] vals[i] < (1u64 << bits),
    ensures
        vals.len() <= packed(vals, bits).len() * per_word(bits),
        forall|i: int| 0 <= i < vals.len() ==> #[trigger] entry_of(packed(vals, bits), bits, i) == vals[i],
{
    let p = per_word(bits);
    let n = vals.len();
    let words = packed(vals, bits);
    assert(p >= 1 && bits * p <= 64) by (nonlinear_arith)
        requires
            1 <= bits <= 63,
            p == 64u64 / bits,
    ;
    lemma_fundamental_div_mod((n + p - 1) as int, p as int);
    assert(n <= words.len() * p) by (nonlinear_arith)
        requires
            words.len() == (n + p - 1) / (p as int),
            (n + p - 1) as int == p * ((n + p - 1) / (p as int)) + (n + p - 1) % (p as int),
            0 <= (n + p - 1) % (p as int) < p,
    ;
    assert forall|i: int| 0 <= i < vals.len() implies #[trigger] entry_of(words, bits, i) == vals[i] by {
        let j = i / (p as int);
        let t = i % (p as int);
        lemma_fundamental_div_mod(i, p as int);
        assert(0 <= j < words.len()) by (nonlinear_arith)
            requires
                i == p * j + t,
                0 <= t < p,
                0 <= i < n,
                n <= words.len() * p,
                j == i / (p as int),
        ;
        let k = entries_in_word(n, p, j);
        assert(t < k && j * p + t == i && k <= p) by (nonlinear_arith)
            requires
                i == p * j + t,
                0 <= t < p,
                i < n,
                k == (if (j + 1) * p <= n { p as int } else { n - j * p }),
        ;
        assert(bits * k <= 64) by (nonlinear_arith)
            requires
                k <= p,
                bits * p <= 64,
        ;
        assert(j * p + k <= n) by (nonlinear_arith)
            requires
                k == (if (j + 1) * p <= n { p as int } else { n - j * p }),
        ;
        lemma_word_of_slots(vals, bits, j * p, k);
        assert(words[j] == word_of(vals, bits, j * p, k));
        let tn = t as nat;
        assert((words[j] >> ((bits * tn) as u64)) & low_mask(bits) == vals[j * p + tn] & low_mask(bits));
        lemma_small_value_unmasked(vals[i], bits, low_mask(bits));
    }
}

} // verus!
