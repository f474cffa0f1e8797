//! The IETF Internet checksum (RFC 1071) over an ICMP echo message, with the
//! word at the checksum field's own position skipped unconditionally.

use vstd::prelude::*;
use vstd::arithmetic::div_mod::{lemma_add_mod_noop, lemma_mod_multiples_vanish};

verus! {

/// The 16-bit big-endian word starting at byte offset `2 * i`.
pub open spec fn word_at(b: Seq<u8>, i: int) -> int {
    b[2 * i] * 256 + b[2 * i + 1]
}

/// How many complete 16-bit words the buffer holds; a trailing odd byte is
/// not part of any word and is ignored by the accumulation.
pub open spec fn word_count(b: Seq<u8>) -> int {
    b.len() as int / 2
}

/// Sum of the first `n` words of the buffer, always skipping word 1 (the
/// checksum field's own position in the echo header).
pub open spec fn sum_skip(b: Seq<u8>, n: int) -> int
    decreases n,
{
    if n <= 0 {
        0
    } else if n - 1 == 1 {
        sum_skip(b, n - 1)
    } else {
        sum_skip(b, n - 1) + word_at(b, n - 1)
    }
}

/// Sum of the first `n` words of the buffer with no word skipped.
pub open spec fn sum_all(b: Seq<u8>, n: int) -> int
    decreases n,
{
    if n <= 0 {
        0
    } else {
        sum_all(b, n - 1) + word_at(b, n - 1)
    }
}

/// End-around-carry folding: while bits above position 16 remain, add the
/// upper 16 bits back into the lower 16.
pub open spec fn fold_carries(s: int) -> int
    decreases s,
{
    if s < 0x10000 {
        s
    } else {
        fold_carries(s / 0x10000 + s % 0x10000)
    }
}

/// The Internet checksum of a buffer: the one's complement of the folded
/// sum of its words, word 1 excluded.
pub open spec fn spec_checksum(b: Seq<u8>) -> u16 {
    (0xFFFF - fold_carries(sum_skip(b, word_count(b)))) as u16
}

proof fn lemma_fold_bounds(s: int)
    requires
        s >= 0,
    ensures
        0 <= fold_carries(s) < 0x10000,
    decreases s,
{
    if s >= 0x10000 {
        lemma_fold_bounds(s / 0x10000 + s % 0x10000);
    }
}

proof fn lemma_fold_congruent(s: int)
    requires
        s >= 0,
    ensures
        fold_carries(s) % 0xFFFF == s % 0xFFFF,
    decreases s,
{
    if s >= 0x10000 {
        let q = s / 0x10000;
        let r = s % 0x10000;
        assert(s == 0xFFFF * q + (q + r));
        lemma_mod_multiples_vanish(q, q + r, 0xFFFF);
        lemma_fold_congruent(q + r);
    }
}

proof fn lemma_fold_zero(s: int)
    requires
        s >= 0,
    ensures
        fold_carries(s) == 0 <==> s == 0,
    decreases s,
{
    if s >= 0x10000 {
        lemma_fold_zero(s / 0x10000 + s % 0x10000);
    }
}

/// Folding distributes over accumulation: carrying an already-folded partial
/// sum forward gives the same result as folding the whole sum at the end.
pub proof fn lemma_fold_add(a: int, b: int)
    requires
        a >= 0,
        b >= 0,
    ensures
        fold_carries(a + b) == fold_carries(fold_carries(a) + b),
{
    let m = 0xFFFF;
    let fa = fold_carries(a);
    let x = fold_carries(a + b);
    let y = fold_carries(fa + b);
    lemma_fold_bounds(a);
    lemma_fold_bounds(a + b);
    lemma_fold_bounds(fa + b);
    lemma_fold_congruent(a);
    lemma_fold_congruent(a + b);
    lemma_fold_congruent(fa + b);
    lemma_add_mod_noop(fa, b, m);
    lemma_add_mod_noop(a, b, m);
    assert(x % m == y % m);
    if x != y {
        // Equal residues below 0x10000 leave only 0 and 0xFFFF as a
        // distinct pair, and either combination forces the sums to be zero.
        assert((x == 0 && y == m) || (x == m && y == 0));
        lemma_fold_zero(a + b);
        lemma_fold_zero(a);
        lemma_fold_zero(fa + b);
        assert(false);
    }
}

proof fn lemma_sum_skip_nonneg(b: Seq<u8>, n: int)
    ensures
        sum_skip(b, n) >= 0,
    decreases n,
{
    if n > 0 {
        lemma_sum_skip_nonneg(b, n - 1);
    }
}

proof fn lemma_sum_skip_agree(a: Seq<u8>, c: Seq<u8>, n: int)
    requires
        forall|i: int| 0 <= i < n && i != 1 ==> word_at(a, i) == word_at(c, i),
    ensures
        sum_skip(a, n) == sum_skip(c, n),
    decreases n,
{
    if n > 0 {
        lemma_sum_skip_agree(a, c, n - 1);
    }
}

proof fn lemma_sum_all_split(b: Seq<u8>, n: int)
    requires
        n >= 2,
    ensures
        sum_all(b, n) == sum_skip(b, n) + word_at(b, 1),
    decreases n,
{
    if n > 2 {
        lemma_sum_all_split(b, n - 1);
    } else {
        assert(sum_all(b, 1) == sum_all(b, 0) + word_at(b, 0));
        assert(sum_skip(b, 1) == sum_skip(b, 0) + word_at(b, 0));
    }
}

/// Law: writing the checksum computed over a buffer into that buffer's
/// checksum field (bytes 2 and 3, big-endian) makes the full one's-complement
/// word sum of the patched buffer — no word skipped — fold to 0xFFFF, the
/// all-ones value that marks a checksum as verifying.
pub proof fn lemma_checksum_round_trip(b: Seq<u8>)
    requires
        b.len() >= 4,
    ensures
        ({
            let c = spec_checksum(b);
            let patched = b.update(2, (c / 256) as u8).update(3, (c % 256) as u8);
            fold_carries(sum_all(patched, word_count(patched))) == 0xFFFF
        }),
{
    let c = spec_checksum(b);
    let patched = b.update(2, (c / 256) as u8).update(3, (c % 256) as u8);
    let n = word_count(b);
    assert(patched.len() == b.len());
    let s = sum_skip(b, n);
    lemma_sum_skip_nonneg(b, n);
    lemma_fold_bounds(s);
    let f = fold_carries(s);
    assert(c == 0xFFFF - f);
    assert(word_at(patched, 1) == c);
    assert forall|i: int| 0 <= i < n && i != 1 implies word_at(b, i) == word_at(patched, i) by {
        assert(patched[2 * i] == b[2 * i]);
        assert(patched[2 * i + 1] == b[2 * i + 1]);
    }
    lemma_sum_skip_agree(b, patched, n);
    lemma_sum_all_split(patched, n);
    assert(sum_all(patched, n) == s + c);
    lemma_fold_add(s, c as int);
    assert(fold_carries(f + c) == 0xFFFF);
}

/// Computes the RFC 1071 Internet checksum of the buffer, skipping the word
/// at index 1 (the checksum field) regardless of its content. Complete
/// 2-byte big-endian words only; a trailing odd byte is ignored.
pub fn checksum(bytes: &[u8]) -> (r: u16)
    ensures
        r == spec_checksum(bytes@),
{
    let len: usize = bytes.len();
    let n: usize = len / 2;
    let mut sum: u32 = 0;
    let mut i: usize = 0;
    while i < n
        invariant
            bytes@.len() <= usize::MAX,
            n == word_count(bytes@),
            2 * n <= bytes@.len(),
            i <= n,
            sum < 0x10000,
            sum == fold_carries(sum_skip(bytes@, i as int)),
        decreases n - i,
    {
        proof {
            lemma_sum_skip_nonneg(bytes@, i as int);
        }
        if i != 1 {
            assert(2 * i + 1 < bytes@.len());
            let hi = bytes[2 * i];
            let lo = bytes[2 * i + 1];
            let w: u32 = (hi as u32) * 256 + (lo as u32);
            let s1: u32 = sum + w;
            proof {
                if s1 >= 0x10000 {
                    assert(s1 >> 16 == s1 / 0x10000 && (s1 & 0xFFFF) == s1 % 0x10000)
                        by (bit_vector);
                }
            }
            let folded: u32 = if s1 >= 0x10000 {
                (s1 >> 16) + (s1 & 0xFFFF)
            } else {
                s1
            };
            proof {
                assert(w == word_at(bytes@, i as int));
                if s1 >= 0x10000 {
                    let t = s1 as int / 0x10000 + s1 as int % 0x10000;
                    assert(fold_carries(s1 as int) == fold_carries(t));
                    assert(t < 0x10000);
                    assert(fold_carries(t) == t);
                }
                assert(folded == fold_carries(sum + w));
                lemma_fold_add(sum_skip(bytes@, i as int), w as int);
                assert(sum_skip(bytes@, i as int + 1)
                    == sum_skip(bytes@, i as int) + word_at(bytes@, i as int));
            }
            sum = folded;
        } else {
            assert(sum_skip(bytes@, i as int + 1) == sum_skip(bytes@, i as int));
        }
        i = i + 1;
    }
    0xFFFFu16 - (sum as u16)
}

} // verus!
