//! The weak-cipher oracle, the exhaustive key search, and the byte-string
//! helpers both are built from.

use vstd::prelude::*;

use crate::model::{
    crypt_seq, first_match, head_seq, hits, key_at, key_count, key_index, keystream_byte, le_val, LAST_MASK,
    lemma_crypt_involution, lemma_key_at_pass, lemma_key_index_roundtrip, lemma_le_val_bound,
    lemma_le_val_snoc, lemma_le_val_split, lemma_le_val_zero, lemma_pow256_pos, no_match, pow256,
    weak_key, xor_seq,
};
use vstd::arithmetic::div_mod::{lemma_mod_multiples_vanish, lemma_small_mod};

use crypto::blockmodes::CtrMode;
use crypto::blowfish::Blowfish;
use crypto::symmetriccipher::SynchronousStreamCipher;
use rand::Rng;

verus! {

/// The exhaustive search ran through the whole key space without a hit: the
/// ciphertext was not produced under any key of the assumed space.
#[derive(Debug, PartialEq, Eq, Structural)]
pub enum GuessFail {
    LenError,
}

/// Relies on rand's thread-local generator (`rand::rng().fill_bytes`): fills
/// a buffer with random bytes. Nothing is assumed of the bytes beyond their
/// count.
#[verifier::external_body]
pub(crate) fn random_bytes(len: usize) -> (r: Vec<u8>)
    ensures
        r@.len() == len as nat,
{
    let mut buf = vec![0u8; len];
    rand::rng().fill_bytes(&mut buf);
    buf
}

/// Relies on rand's `random_range`: a uniformly drawn index below `n`.
/// Nothing is assumed of the draw beyond the bound.
#[verifier::external_body]
pub(crate) fn random_index(n: usize) -> (r: usize)
    requires
        1 <= n,
    ensures
        r < n,
{
    rand::random_range(0..n)
}

/// Relies on crypto's Blowfish run in `CtrMode` over the all-zero IV: a
/// length-preserving XOR stream whose keystream is a function of the key
/// alone, so one call both encrypts and decrypts. The key schedule reads the
/// key cyclically and so needs at least one byte.
#[verifier::external_body]
pub(crate) fn ctr_crypt(key: &[u8], data: &[u8]) -> (r: Vec<u8>)
    requires
        1 <= key@.len(),
    ensures
        r@.len() == data@.len(),
        forall|i: int| 0 <= i < data@.len() ==> r@[i] == (data@[i] ^ keystream_byte(key@, i)),
        r@ == crypt_seq(key@, data@),
{
    let mut output = vec![0u8; data.len()];
    let mut cipher = Blowfish::init_state();
    cipher.expand_key(key);
    CtrMode::new(cipher, vec![0u8; 8]).process(data, &mut output);
    output
}

/// Bytewise XOR of two equal-length strings.
pub fn xor(a: &[u8], b: &[u8]) -> (r: Vec<u8>)
    requires
        a@.len() == b@.len(),
    ensures
        r@ == xor_seq(a@, b@),
{
    let mut out: Vec<u8> = Vec::new();
    let mut i: usize = 0;
    while i < a.len()
        invariant
            a@.len() == b@.len(),
            i <= a@.len(),
            out@.len() == i as nat,
            forall|j: int| 0 <= j < i ==> out@[j] == (a@[j] ^ b@[j]),
        decreases a@.len() - i,
    {
        out.push(a[i] ^ b[i]);
        i += 1;
    }
    proof {
        assert(out@ =~= xor_seq(a@, b@));
    }
    out
}

/// A fresh copy of `v[start..end]`.
pub(crate) fn sub_vec(v: &[u8], start: usize, end: usize) -> (r: Vec<u8>)
    requires
        start <= end <= v@.len(),
    ensures
        r@ == v@.subrange(start as int, end as int),
{
    let mut out: Vec<u8> = Vec::new();
    let mut i: usize = start;
    while i < end
        invariant
            start <= i <= end <= v@.len(),
            out@.len() == i - start,
            forall|j: int| 0 <= j < out@.len() ==> out@[j] == v@[start + j],
        decreases end - i,
    {
        out.push(v[i]);
        i += 1;
    }
    proof {
        assert(out@ =~= v@.subrange(start as int, end as int));
    }
    out
}

/// Appends a copy of `src` to `dst`.
pub(crate) fn append_copy(dst: &mut Vec<u8>, src: &[u8])
    ensures
        final(dst)@ == old(dst)@ + src@,
{
    let mut i: usize = 0;
    while i < src.len()
        invariant
            i <= src@.len(),
            dst@.len() == old(dst)@.len() + i,
            dst@.subrange(0, old(dst)@.len() as int) == old(dst)@,
            forall|j: int| 0 <= j < i ==> dst@[old(dst)@.len() + j] == src@[j],
        decreases src@.len() - i,
    {
        dst.push(src[i]);
        proof {
            assert(dst@.subrange(0, old(dst)@.len() as int) =~= old(dst)@);
        }
        i += 1;
    }
    proof {
        assert(dst@ =~= old(dst)@ + src@);
    }
}

/// Whether `data` starts with `prefix`.
pub(crate) fn has_prefix(data: &Vec<u8>, prefix: &[u8]) -> (r: bool)
    ensures
        r == (prefix@.len() <= data@.len() && data@.subrange(0, prefix@.len() as int)
            == prefix@),
{
    if prefix.len() > data.len() {
        return false;
    }
    let mut i: usize = 0;
    while i < prefix.len()
        invariant
            prefix@.len() <= data@.len(),
            i <= prefix@.len(),
            forall|j: int| 0 <= j < i ==> data@[j] == prefix@[j],
        decreases prefix@.len() - i,
    {
        if data[i] != prefix[i] {
            proof {
                assert(data@.subrange(0, prefix@.len() as int)[i as int] != prefix@[i as int]);
            }
            return false;
        }
        i += 1;
    }
    proof {
        assert(data@.subrange(0, prefix@.len() as int) =~= prefix@);
    }
    true
}

/// Whether two byte strings hold the same bytes.
pub(crate) fn bytes_eq(a: &[u8], b: &[u8]) -> (r: bool)
    ensures
        r == (a@ == b@),
{
    if a.len() != b.len() {
        return false;
    }
    let mut i: usize = 0;
    while i < a.len()
        invariant
            a@.len() == b@.len(),
            i <= a@.len(),
            forall|j: int| 0 <= j < i ==> a@[j] == b@[j],
        decreases a@.len() - i,
    {
        if a[i] != b[i] {
            return false;
        }
        i += 1;
    }
    proof {
        assert(a@ =~= b@);
    }
    true
}

/// A vector of `n` zero bytes.
fn zero_vec(n: usize) -> (r: Vec<u8>)
    ensures
        r@.len() == n as nat,
        forall|i: int| 0 <= i < n ==> r@[i] == 0u8,
{
    let mut out: Vec<u8> = Vec::new();
    let mut i: usize = 0;
    while i < n
        invariant
            i <= n,
            out@.len() == i as nat,
            forall|j: int| 0 <= j < i ==> out@[j] == 0u8,
        decreases n - i,
    {
        out.push(0u8);
        i += 1;
    }
    out
}

/// Whether every byte of `v` is zero.
fn all_zero(v: &[u8]) -> (r: bool)
    ensures
        r == (forall|i: int| 0 <= i < v@.len() ==> v@[i] == 0u8),
{
    let mut i: usize = 0;
    while i < v.len()
        invariant
            i <= v@.len(),
            forall|j: int| 0 <= j < i ==> v@[j] == 0u8,
        decreases v@.len() - i,
    {
        if v[i] != 0 {
            return false;
        }
        i += 1;
    }
    true
}

/// Adds `amount` to a byte-string counter, little-endian with carry
/// propagating from byte 0, wrapping around at the top of the range: the
/// counter's value becomes its old value plus `amount`, modulo `pow256` of
/// its length.
pub fn add_ctr(ctr: &mut Vec<u8>, amount: u8)
    ensures
        final(ctr)@.len() == old(ctr)@.len(),
        le_val(final(ctr)@) == (le_val(old(ctr)@) + amount as nat) % pow256(old(ctr)@.len()),
{
    let ghost orig = old(ctr)@;
    let mut pending: u8 = amount;
    let mut i: usize = 0;
    proof {
        assert(ctr@.subrange(0, 0) =~= Seq::<u8>::empty());
        assert(le_val(ctr@.subrange(0, 0)) == 0);
        assert(pow256(0) == 1);
        assert((amount as nat) * 1 == amount as nat) by (nonlinear_arith);
    }
    while i < ctr.len() && pending != 0
        invariant
            ctr@.len() == orig.len(),
            orig == old(ctr)@,
            i <= orig.len(),
            forall|j: int| i <= j < orig.len() ==> ctr@[j] == orig[j],
            le_val(ctr@.subrange(0, i as int)) + (pending as nat) * pow256(i as nat) == le_val(
                orig.subrange(0, i as int),
            ) + amount as nat,
        decreases orig.len() - i,
    {
        let prev = ctr[i];
        let next = prev.wrapping_add(pending);
        let ghost before = ctr@;
        let ghost pend_old: nat = pending as nat;
        ctr[i] = next;
        if next >= prev {
            pending = 0;
        } else {
            pending = 1;
        }
        i += 1;
        proof {
            let iold = i as int - 1;
            let p = pow256(iold as nat);
            let pre = before.subrange(0, iold);
            let lo = le_val(orig.subrange(0, iold));
            assert(ctr@.subrange(0, iold) =~= pre);
            assert(ctr@.subrange(0, i as int) =~= pre.push(next));
            assert(orig.subrange(0, i as int) =~= orig.subrange(0, iold).push(prev));
            lemma_le_val_snoc(pre, next);
            lemma_le_val_snoc(orig.subrange(0, iold), prev);
            assert(le_val(pre) + pend_old * p == lo + amount as nat);
            assert(le_val(ctr@.subrange(0, i as int)) == le_val(pre) + p * (next as nat));
            assert(le_val(orig.subrange(0, i as int)) == lo + p * (prev as nat));
            assert(pow256(i as nat) == 256 * p);
            if next >= prev {
                assert(next as int == prev as int + pend_old);
                assert(p * (next as nat) == p * (prev as nat) + pend_old * p)
                    by (nonlinear_arith)
                    requires
                        next as int == prev as int + pend_old,
                ;
                assert((pending as nat) * pow256(i as nat) == 0) by (nonlinear_arith)
                    requires
                        pending == 0u8,
                ;
                assert(le_val(ctr@.subrange(0, i as int)) + (pending as nat) * pow256(i as nat)
                    == le_val(orig.subrange(0, i as int)) + amount as nat);
            } else {
                assert(next as int + 256 == prev as int + pend_old);
                assert(p * (next as nat) + (pending as nat) * (256 * p) == p * (prev as nat)
                    + pend_old * p)
                    by (nonlinear_arith)
                    requires
                        next as int + 256 == prev as int + pend_old && pending == 1u8,
                ;
                assert((pending as nat) * pow256(i as nat) == (pending as nat) * (256 * p));
                assert(le_val(ctr@.subrange(0, i as int)) + (pending as nat) * pow256(i as nat)
                    == le_val(orig.subrange(0, i as int)) + amount as nat);
            }
        }
    }
    proof {
        let n = orig.len();
        lemma_pow256_pos(n);
        lemma_le_val_bound(ctr@);
        if pending == 0 {
            let p = pow256(i as nat);
            lemma_le_val_split(ctr@, i as int);
            lemma_le_val_split(orig, i as int);
            assert(ctr@.subrange(i as int, n as int) =~= orig.subrange(i as int, n as int));
            assert(le_val(ctr@) == le_val(orig) + amount as nat);
            lemma_small_mod(le_val(ctr@), pow256(n));
        } else {
            assert(i == orig.len());
            assert(ctr@.subrange(0, i as int) =~= ctr@);
            assert(orig.subrange(0, i as int) =~= orig);
            assert(le_val(ctr@) + (pending as nat) * pow256(n) == le_val(orig) + amount as nat);
            assert((pow256(n) as int * (pending as int) + le_val(ctr@) as int) % (pow256(
                n,
            ) as int) == le_val(ctr@) as int % (pow256(n) as int)) by {
                lemma_mod_multiples_vanish(pending as int, le_val(ctr@) as int, pow256(n) as int);
            }
            lemma_small_mod(le_val(ctr@), pow256(n));
            assert(pow256(n) as int * (pending as int) == (pending as nat) * pow256(n))
                by (nonlinear_arith);
        }
    }
}

/// Builds one puzzle ciphertext: draws a fresh weak key — every byte random,
/// the last masked down to its high bit — and encrypts `message` with it.
/// The result is the stream encryption of the message under some key of the
/// reduced space.
pub fn oracle(message: &[u8], len: usize) -> (r: Vec<u8>)
    requires
        1 <= len,
    ensures
        r@.len() == message@.len(),
        exists|i: nat|
            i < key_count(len as nat) && r@ == crypt_seq(
                #[trigger] key_at(len as nat, i),
                message@,
            ),
{
    let mut key = random_bytes(len);
    let last = key.len() - 1;
    let drawn = key[last];
    let masked = drawn & LAST_MASK;
    key[last] = masked;
    proof {
        assert(masked == 0 || masked == LAST_MASK) by (bit_vector)
            requires
                masked == drawn & LAST_MASK,
        ;
        assert(key@.last() == masked);
        assert(weak_key(key@, len as nat));
        lemma_key_index_roundtrip(key@, len as nat);
    }
    let r = ctr_crypt(key.as_slice(), message);
    proof {
        let w = key_index(key@);
        assert(w < key_count(len as nat) && r@ == crypt_seq(key_at(len as nat, w), message@));
    }
    r
}

/// Exhaustive key search: tries every candidate of the reduced weak-key
/// space in enumeration order, decrypting the ciphertext with each, until
/// the known plaintext prefix appears; the first hit's full decryption is
/// returned. Reports exhaustion after the whole space ran out without a hit.
pub fn exhaustion(ciphertext: &[u8], plaintext: &[u8], len: usize) -> (r: Result<
    Vec<u8>,
    GuessFail,
>)
    requires
        1 <= len,
    ensures
        match r {
            Ok(out) => exists|i: nat|
                #[trigger] first_match(len as nat, ciphertext@, plaintext@, i) && out@
                    == crypt_seq(key_at(len as nat, i), ciphertext@),
            Err(e) => e == GuessFail::LenError && no_match(len as nat, ciphertext@, plaintext@),
        },
{
    let ghost half = pow256((len - 1) as nat);
    proof {
        lemma_pow256_pos((len - 1) as nat);
    }
    let mut pass: usize = 0;
    while pass < 2
        invariant
            1 <= len,
            pass <= 2,
            half == pow256((len - 1) as nat),
            1 <= half,
            forall|j: nat|
                j < pass * half ==> !hits(key_at(len as nat, j), ciphertext@, plaintext@),
        decreases 2 - pass,
    {
        let last: u8 = if pass == 0 {
            0
        } else {
            LAST_MASK
        };
        let mut low = zero_vec(len - 1);
        let ghost mut n: nat = 0;
        proof {
            lemma_le_val_zero(low@);
        }
        let mut wrapped = false;
        while !wrapped
            invariant
                1 <= len,
                pass < 2,
                last == (if pass == 0 {
                    0u8
                } else {
                    LAST_MASK
                }),
                half == pow256((len - 1) as nat),
                1 <= half,
                low@.len() == len - 1,
                n <= half,
                !wrapped ==> n < half && le_val(low@) == n,
                wrapped ==> n == half,
                forall|j: nat|
                    j < pass * half + n ==> !hits(key_at(len as nat, j), ciphertext@, plaintext@),
            decreases half - n,
        {
            let mut key = sub_vec(low.as_slice(), 0, low.len());
            key.push(last);
            let ghost w = pass as nat * half + n;
            proof {
                assert(low@.subrange(0, low@.len() as int) =~= low@);
                lemma_key_at_pass(len as nat, pass as nat, low@, last);
                assert(key@ == low@.push(last));
                assert(key@ == key_at(len as nat, w));
                assert(w < key_count(len as nat));
            }
            let out = ctr_crypt(key.as_slice(), ciphertext);
            if has_prefix(&out, plaintext) {
                proof {
                    assert(hits(key_at(len as nat, w), ciphertext@, plaintext@));
                    assert(first_match(len as nat, ciphertext@, plaintext@, w));
                }
                return Ok(out);
            }
            proof {
                assert(!hits(key_at(len as nat, w), ciphertext@, plaintext@));
                assert forall|j: nat| j < w + 1 implies !hits(
                    key_at(len as nat, j),
                    ciphertext@,
                    plaintext@,
                ) by {
                    if j < w {
                    } else {
                        assert(j == w);
                    }
                }
            }
            add_ctr(&mut low, 1);
            wrapped = all_zero(low.as_slice());
            proof {
                let m = n + 1;
                assert(le_val(low@) == m % half);
                lemma_le_val_zero(low@);
                if wrapped {
                    assert(le_val(low@) == 0);
                    if m < half {
                        lemma_small_mod(m, half);
                        assert(false);
                    }
                    assert(m == half);
                } else {
                    assert(le_val(low@) != 0);
                    if m == half {
                        assert((half as int * 1 + 0) % (half as int) == 0int % (half as int)) by {
                            lemma_mod_multiples_vanish(1, 0, half as int);
                        }
                        lemma_small_mod(0, half);
                        assert(false);
                    }
                    assert(m < half);
                    lemma_small_mod(m, half);
                }
                n = m;
            }
        }
        proof {
            assert((pass as nat + 1) * half == pass as nat * half + half) by (nonlinear_arith);
        }
        pass += 1;
    }
    proof {
        assert(pass as nat * half == 2 * half);
        assert(key_count(len as nat) == 2 * half);
        assert(no_match(len as nat, ciphertext@, plaintext@));
    }
    Err(GuessFail::LenError)
}

/// The fixed known-plaintext header: eight `'w'` bytes.
pub(crate) fn head_bytes() -> (r: Vec<u8>)
    ensures
        r@ == crate::model::head_seq(),
{
    let mut v: Vec<u8> = Vec::new();
    let mut i: usize = 0;
    while i < 8
        invariant
            i <= 8,
            v@.len() == i as nat,
            forall|j: int| 0 <= j < i ==> v@[j] == 119u8,
        decreases 8 - i,
    {
        v.push(119u8);
        i += 1;
    }
    proof {
        assert(v@ =~= crate::model::head_seq());
    }
    v
}

/// Round trip: a ciphertext encrypted under any key of the reduced space is
/// hit by the exhaustive search keyed to a true prefix of the message, so
/// the search never reports exhaustion on an honestly built ciphertext.
pub proof fn lemma_round_trip(len: nat, i: nat, msg: Seq<u8>, p: int)
    requires
        1 <= len,
        i < key_count(len),
        0 <= p <= msg.len(),
    ensures
        hits(key_at(len, i), crypt_seq(key_at(len, i), msg), msg.subrange(0, p)),
        !no_match(len, crypt_seq(key_at(len, i), msg), msg.subrange(0, p)),
{
    let key = key_at(len, i);
    let ct = crypt_seq(key, msg);
    let pre = msg.subrange(0, p);
    lemma_crypt_involution(key, msg);
    assert(crypt_seq(key, ct) == msg);
    assert(crypt_seq(key, ct).subrange(0, p) =~= pre);
    assert(hits(key, ct, pre));
    if no_match(len, ct, pre) {
        assert(!hits(key_at(len, i), ct, pre));
    }
}

/// Exact recovery: when no earlier candidate key hits, the search's first
/// match is the encrypting key itself and the recovered plaintext is the
/// original message, bit for bit.
pub proof fn lemma_round_trip_exact(len: nat, i: nat, msg: Seq<u8>, p: int)
    requires
        1 <= len,
        i < key_count(len),
        0 <= p <= msg.len(),
        forall|j: nat|
            j < i ==> !hits(key_at(len, j), crypt_seq(key_at(len, i), msg), msg.subrange(0, p)),
    ensures
        first_match(len, crypt_seq(key_at(len, i), msg), msg.subrange(0, p), i),
        crypt_seq(key_at(len, i), crypt_seq(key_at(len, i), msg)) == msg,
{
    lemma_round_trip(len, i, msg, p);
    lemma_crypt_involution(key_at(len, i), msg);
}

/// Idempotent publication: a puzzle built over a book entry decodes back to
/// that entry's id and session key whenever no earlier candidate key hits,
/// whatever fresh weak key the build drew — so every rebuild of the puzzle
/// list decodes to the same set of pairs.
pub proof fn lemma_decode_recovers_entry(len: nat, i: nat, id: Seq<u8>, k: Seq<u8>, ct: Seq<u8>)
    requires
        1 <= len,
        i < key_count(len),
        id.len() == 8,
        k.len() == 16,
        ct == crypt_seq(key_at(len, i), head_seq() + id + k),
        forall|j: nat| j < i ==> !hits(key_at(len, j), ct, head_seq()),
    ensures
        first_match(len, ct, head_seq(), i),
        crypt_seq(key_at(len, i), ct).subrange(8, 16) == id,
        crypt_seq(key_at(len, i), ct).subrange(16, 32) == k,
{
    let msg = head_seq() + id + k;
    let key = key_at(len, i);
    assert(msg.subrange(0, 8) =~= head_seq());
    lemma_round_trip(len, i, msg, 8);
    lemma_crypt_involution(key, msg);
    assert(crypt_seq(key, ct) == msg);
    assert(msg.subrange(8, 16) =~= id);
    assert(msg.subrange(16, 32) =~= k);
}

} // verus!

