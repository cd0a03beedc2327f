//! Mathematical model of the protocol's primitives: the stream cipher as an
//! XOR with a key-determined keystream, byte strings as little-endian
//! counters, and the reduced weak-key space with its enumeration order.

use vstd::prelude::*;
use vstd::arithmetic::div_mod::{
    lemma_fundamental_div_mod_converse, lemma_mod_multiples_vanish, lemma_small_mod,
};

verus! {

/// The reduced-entropy knob shared by the oracle and the search: the last
/// byte of every drawn key keeps only the bits of this mask, and the search
/// enumerates exactly the keys so masked.
pub const LAST_MASK: u8 = 128;

/// One byte of the keystream that the block cipher, run in counter mode over
/// the protocol's fixed all-zero IV, derives from a key. The stream is a
/// function of the key and the byte position alone.
pub uninterp spec fn keystream_byte(key: Seq<u8>, i: int) -> u8;

/// A stream-mode pass over `data` under `key`: each byte XORed with the
/// keystream byte at its position. Encryption and decryption are the same
/// operation.
pub open spec fn crypt_seq(key: Seq<u8>, data: Seq<u8>) -> Seq<u8> {
    Seq::new(data.len(), |i: int| data[i] ^ keystream_byte(key, i))
}

/// Bytewise XOR of two equal-length strings.
pub open spec fn xor_seq(a: Seq<u8>, b: Seq<u8>) -> Seq<u8> {
    Seq::new(a.len(), |i: int| a[i] ^ b[i])
}

/// The fixed public known-plaintext marker: the byte `'w'` repeated 8 times.
pub open spec fn head_seq() -> Seq<u8> {
    seq![119u8, 119u8, 119u8, 119u8, 119u8, 119u8, 119u8, 119u8]
}

/// 256 to the `n`-th power: how many byte strings of length `n` there are.
pub open spec fn pow256(n: nat) -> nat
    decreases n,
{
    if n == 0 {
        1
    } else {
        256 * pow256((n - 1) as nat)
    }
}

/// The little-endian value of a byte string: byte 0 is least significant.
pub open spec fn le_val(s: Seq<u8>) -> nat
    decreases s.len(),
{
    if s.len() == 0 {
        0
    } else {
        s[0] as nat + 256 * le_val(s.subrange(1, s.len() as int))
    }
}

/// The `n`-byte little-endian encoding of `v` (reduced modulo `pow256(n)`).
pub open spec fn le_bytes(v: nat, n: nat) -> Seq<u8>
    decreases n,
{
    if n == 0 {
        Seq::empty()
    } else {
        seq![(v % 256) as u8] + le_bytes(v / 256, (n - 1) as nat)
    }
}

/// How many keys of byte length `len` the scheme draws from: the reduced
/// space where every byte but the last ranges freely and the last byte keeps
/// only its high bit.
pub open spec fn key_count(len: nat) -> nat {
    2 * pow256((len - 1) as nat)
}

/// The candidate key at position `i` of the search's enumeration order: the
/// low `len - 1` bytes count up little-endian, first under last byte 0, then
/// under last byte `LAST_MASK`.
pub open spec fn key_at(len: nat, i: nat) -> Seq<u8> {
    le_bytes(i % pow256((len - 1) as nat), (len - 1) as nat) + seq![
        if i < pow256((len - 1) as nat) {
            0u8
        } else {
            LAST_MASK
        },
    ]
}

/// A key the oracle can draw: `len` bytes whose last byte is 0 or `LAST_MASK`.
pub open spec fn weak_key(k: Seq<u8>, len: nat) -> bool {
    k.len() == len && 1 <= len && (k.last() == 0 || k.last() == LAST_MASK)
}

/// The position a weak key holds in the enumeration order.
pub open spec fn key_index(k: Seq<u8>) -> nat {
    le_val(k.drop_last()) + if k.last() == 0 {
        0
    } else {
        pow256((k.len() - 1) as nat)
    }
}

/// A candidate key hits when decrypting the ciphertext with it yields the
/// known prefix.
pub open spec fn hits(key: Seq<u8>, ciphertext: Seq<u8>, prefix: Seq<u8>) -> bool {
    prefix.len() <= ciphertext.len() && crypt_seq(key, ciphertext).subrange(
        0,
        prefix.len() as int,
    ) == prefix
}

/// Position `i` holds the first hitting key of the enumeration.
pub open spec fn first_match(len: nat, ciphertext: Seq<u8>, prefix: Seq<u8>, i: nat) -> bool {
    &&& i < key_count(len)
    &&& hits(key_at(len, i), ciphertext, prefix)
    &&& forall|j: nat| j < i ==> !hits(key_at(len, j), ciphertext, prefix)
}

/// No key of the whole reduced space hits.
pub open spec fn no_match(len: nat, ciphertext: Seq<u8>, prefix: Seq<u8>) -> bool {
    forall|i: nat| i < key_count(len) ==> !hits(key_at(len, i), ciphertext, prefix)
}

pub proof fn lemma_pow256_pos(n: nat)
    ensures
        pow256(n) >= 1,
    decreases n,
{
    if n > 0 {
        lemma_pow256_pos((n - 1) as nat);
    }
}

pub proof fn lemma_le_val_bound(s: Seq<u8>)
    ensures
        le_val(s) < pow256(s.len()),
    decreases s.len(),
{
    if s.len() > 0 {
        lemma_le_val_bound(s.subrange(1, s.len() as int));
    }
}

/// A byte string's value is zero exactly when all its bytes are.
pub proof fn lemma_le_val_zero(s: Seq<u8>)
    ensures
        (le_val(s) == 0) <==> (forall|i: int| 0 <= i < s.len() ==> s[i] == 0),
    decreases s.len(),
{
    if s.len() > 0 {
        let tail = s.subrange(1, s.len() as int);
        lemma_le_val_zero(tail);
        if le_val(s) == 0 {
            assert forall|i: int| 0 <= i < s.len() implies s[i] == 0 by {
                if i > 0 {
                    assert(tail[i - 1] == 0);
                }
            }
        } else {
            if forall|i: int| 0 <= i < s.len() ==> s[i] == 0 {
                assert forall|i: int| 0 <= i < tail.len() implies tail[i] == 0 by {
                    assert(s[i + 1] == 0);
                }
                assert(le_val(tail) == 0);
                assert(s[0] == 0);
                assert(false);
            }
        }
    }
}

/// Encoding a string's value back over its own length gives the string.
pub proof fn lemma_le_bytes_le_val(s: Seq<u8>)
    ensures
        le_bytes(le_val(s), s.len()) == s,
    decreases s.len(),
{
    if s.len() == 0 {
        assert(le_bytes(0, 0) =~= s);
    } else {
        let tail = s.subrange(1, s.len() as int);
        lemma_le_val_bound(tail);
        lemma_fundamental_div_mod_converse(
            le_val(s) as int,
            256,
            le_val(tail) as int,
            s[0] as int,
        );
        lemma_le_bytes_le_val(tail);
        assert(le_bytes(le_val(s), s.len()) =~= s);
    }
}

/// Splitting a string at `m` splits its value: low part plus `pow256(m)`
/// times the high part.
pub proof fn lemma_le_val_split(s: Seq<u8>, m: int)
    requires
        0 <= m <= s.len(),
    ensures
        le_val(s) == le_val(s.subrange(0, m)) + pow256(m as nat) * le_val(
            s.subrange(m, s.len() as int),
        ),
    decreases m,
{
    if m == 0 {
        assert(s.subrange(0, 0) =~= Seq::<u8>::empty());
        assert(s.subrange(0, s.len() as int) =~= s);
        assert(le_val(s.subrange(0, m)) == 0);
        assert(pow256(m as nat) == 1);
        assert(le_val(s.subrange(m, s.len() as int)) == le_val(s));
        assert(1 * le_val(s) == le_val(s)) by (nonlinear_arith);
        assert(le_val(s) == le_val(s.subrange(0, m)) + pow256(m as nat) * le_val(
            s.subrange(m, s.len() as int),
        ));
    } else {
        let tail = s.subrange(1, s.len() as int);
        lemma_le_val_split(tail, m - 1);
        let low = s.subrange(0, m);
        assert(low.subrange(1, m) =~= tail.subrange(0, m - 1));
        assert(s.subrange(m, s.len() as int) =~= tail.subrange(m - 1, tail.len() as int));
        let a = le_val(tail.subrange(0, m - 1));
        let b = le_val(tail.subrange(m - 1, tail.len() as int));
        let p = pow256((m - 1) as nat);
        assert(le_val(tail) == a + p * b);
        assert(le_val(s) == s[0] as nat + 256 * le_val(tail));
        assert(low[0] == s[0]);
        assert(le_val(low) == low[0] as nat + 256 * le_val(low.subrange(1, m)));
        assert(le_val(low) == s[0] as nat + 256 * a);
        assert(256 * (a + p * b) == 256 * a + (256 * p) * b) by (nonlinear_arith);
        assert(pow256(m as nat) == 256 * p);
        assert(pow256(m as nat) * b == (256 * p) * b);
        assert(le_val(s.subrange(m, s.len() as int)) == b);
        assert(le_val(s) == le_val(low) + pow256(m as nat) * b);
        assert(le_val(s) == le_val(s.subrange(0, m)) + pow256(m as nat) * le_val(
            s.subrange(m, s.len() as int),
        ));
    }
}

/// Appending one byte adds it at weight `pow256` of the old length.
pub proof fn lemma_le_val_snoc(s: Seq<u8>, b: u8)
    ensures
        le_val(s.push(b)) == le_val(s) + pow256(s.len()) * b as nat,
{
    let t = s.push(b);
    lemma_le_val_split(t, s.len() as int);
    assert(t.subrange(0, s.len() as int) =~= s);
    let hi = t.subrange(s.len() as int, t.len() as int);
    assert(hi =~= seq![b]);
    assert(hi.subrange(1, 1) =~= Seq::<u8>::empty());
    assert(hi[0] == b);
    assert(le_val(hi) == hi[0] as nat + 256 * le_val(hi.subrange(1, 1)));
    assert(le_val(hi.subrange(1, 1)) == 0);
    assert(le_val(hi) == b as nat);
}

/// Every weak key stands at its own enumeration position.
pub proof fn lemma_key_index_roundtrip(k: Seq<u8>, len: nat)
    requires
        weak_key(k, len),
    ensures
        key_index(k) < key_count(len),
        key_at(len, key_index(k)) == k,
{
    let low = k.drop_last();
    let h = pow256((len - 1) as nat);
    lemma_pow256_pos((len - 1) as nat);
    assert(low.len() == len - 1);
    lemma_le_val_bound(low);
    lemma_le_bytes_le_val(low);
    let idx = key_index(k);
    if k.last() == 0 {
        lemma_small_mod(le_val(low), h);
        assert(key_at(len, idx) =~= k);
    } else {
        assert((h as int * 1 + le_val(low) as int) % (h as int) == le_val(low) as int % (
        h as int)) by {
            lemma_mod_multiples_vanish(1, le_val(low) as int, h as int);
        }
        lemma_small_mod(le_val(low), h);
        assert(idx % h == le_val(low));
        assert(key_at(len, idx) =~= k);
    }
}

/// The key a search pass tries: the counter's bytes with the pass's last
/// byte appended, standing at position `pass * pow256(len - 1) + counter`.
pub proof fn lemma_key_at_pass(len: nat, pass: nat, low: Seq<u8>, last: u8)
    requires
        1 <= len,
        low.len() == len - 1,
        pass < 2,
        last == if pass == 0 {
            0u8
        } else {
            LAST_MASK
        },
    ensures
        pass * pow256((len - 1) as nat) + le_val(low) < key_count(len),
        key_at(len, pass * pow256((len - 1) as nat) + le_val(low)) == low.push(last),
{
    let h = pow256((len - 1) as nat);
    lemma_pow256_pos((len - 1) as nat);
    lemma_le_val_bound(low);
    lemma_le_bytes_le_val(low);
    let idx = pass * h + le_val(low);
    if pass == 0 {
        assert(idx == le_val(low));
        lemma_small_mod(le_val(low), h);
        assert(key_at(len, idx) =~= low.push(last));
    } else {
        assert(idx == h + le_val(low));
        assert((h as int * 1 + le_val(low) as int) % (h as int) == le_val(low) as int % (
        h as int)) by {
            lemma_mod_multiples_vanish(1, le_val(low) as int, h as int);
        }
        lemma_small_mod(le_val(low), h);
        assert(idx % h == le_val(low));
        assert(key_at(len, idx) =~= low.push(last));
    }
}

/// Decrypting under the key that encrypted gives the message back: the
/// stream cipher is an involution.
pub proof fn lemma_crypt_involution(key: Seq<u8>, data: Seq<u8>)
    ensures
        crypt_seq(key, crypt_seq(key, data)) == data,
{
    let once = crypt_seq(key, data);
    let twice = crypt_seq(key, once);
    assert forall|i: int| 0 <= i < data.len() implies twice[i] == data[i] by {
        let b = keystream_byte(key, i);
        let d = data[i];
        assert((d ^ b) ^ b == d) by (bit_vector);
    }
    assert(twice =~= data);
}

} // verus!
