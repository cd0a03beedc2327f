//! Merkle's Puzzle key exchange.
//!
//! An initiator publishes many puzzles, each the weak encryption of a fixed
//! header, a puzzle id and a session key. A responder picks one puzzle,
//! brute-forces its short key, and answers with the recovered id and a fresh
//! contribution; both sides then derive the same shared secret. An
//! eavesdropper, not knowing which puzzle was chosen, must brute-force them
//! all.

use vstd::prelude::*;

pub mod model;
pub mod util;

use crate::model::{crypt_seq, first_match, head_seq, key_at, key_count, no_match, xor_seq};
use crate::util::{
    append_copy, bytes_eq, exhaustion, head_bytes, oracle, random_bytes, random_index, sub_vec,
    xor,
};
pub use crate::util::GuessFail;

verus! {

/// Protocol sizing: the number of puzzles the initiator generates, and the
/// byte length of the intentionally weak per-puzzle key.
#[derive(Clone, Copy, Debug)]
pub struct Config(pub usize, pub usize);

/// The session key of the first book entry carrying `id`, if any.
pub open spec fn book_lookup(b: Seq<(Seq<u8>, Seq<u8>)>, id: Seq<u8>) -> Option<Seq<u8>>
    decreases b.len(),
{
    if b.len() == 0 {
        None
    } else if b[0].0 == id {
        Some(b[0].1)
    } else {
        book_lookup(b.subrange(1, b.len() as int), id)
    }
}

/// Lookup misses exactly when no book entry carries the id.
pub proof fn lemma_book_lookup_miss(b: Seq<(Seq<u8>, Seq<u8>)>, id: Seq<u8>)
    ensures
        (book_lookup(b, id) is None) <==> (forall|q: int| 0 <= q < b.len() ==> (#[trigger] b[
            q
        ]).0 != id),
    decreases b.len(),
{
    if b.len() > 0 {
        let tail = b.subrange(1, b.len() as int);
        lemma_book_lookup_miss(tail, id);
        if b[0].0 != id {
            if book_lookup(b, id) is None {
                assert forall|q: int| 0 <= q < b.len() implies (#[trigger] b[q]).0 != id by {
                    if q > 0 {
                        assert(tail[q - 1] == b[q]);
                    }
                }
            } else {
                if forall|q: int| 0 <= q < b.len() ==> (#[trigger] b[q]).0 != id {
                    assert forall|q: int| 0 <= q < tail.len() implies (#[trigger] tail[q]).0
                        != id by {
                        assert(b[q + 1] == tail[q]);
                    }
                }
            }
        }
    }
}

/// Exchange equality: when the pair the responder recovered stands in the
/// initiator's book, the secret the initiator derives from the
/// reconciliation equals the responder's own — the core correctness of the
/// handshake.
pub proof fn lemma_exchange_equality(
    b: Seq<(Seq<u8>, Seq<u8>)>,
    out: Seq<u8>,
    c: Seq<u8>,
    recon: Seq<u8>,
)
    requires
        out.len() == 32,
        c.len() == 16,
        recon == out.subrange(8, 16) + c,
        book_lookup(b, out.subrange(8, 16)) == Some(out.subrange(16, 32)),
    ensures
        book_lookup(b, recon.subrange(0, 8)) == Some(out.subrange(16, 32)),
        xor_seq(book_lookup(b, recon.subrange(0, 8)).unwrap(), recon.subrange(8, 24)) == xor_seq(
            out.subrange(16, 32),
            c,
        ),
{
    assert(recon.subrange(0, 8) =~= out.subrange(8, 16));
    assert(recon.subrange(8, 24) =~= c);
}

/// The puzzle `pz` encloses the book entry: it is the weak encryption of
/// `header ‖ id ‖ key` under some key of the reduced space.
pub open spec fn puzzle_for(len: nat, entry: (Seq<u8>, Seq<u8>), pz: Seq<u8>) -> bool {
    exists|i: nat|
        i < key_count(len) && pz == crypt_seq(
            #[trigger] key_at(len, i),
            head_seq() + entry.0 + entry.1,
        )
}

/// Each published puzzle encloses the book entry at its position.
pub open spec fn puzzles_match(len: nat, b: Seq<(Seq<u8>, Seq<u8>)>, ps: Seq<Seq<u8>>) -> bool {
    ps.len() == b.len() && forall|j: int|
        #![trigger ps[j]]
        0 <= j < b.len() ==> puzzle_for(len, b[j], ps[j])
}

/// One party of the exchange. An initiator holds the book of
/// (puzzle id, session key) pairs it generated; a responder holds none and
/// only knows the weak-key length.
pub struct MpKex {
    map: Option<Vec<(Vec<u8>, Vec<u8>)>>,
    len: usize,
}

impl MpKex {
    /// The weak-key byte length this instance uses.
    pub closed spec fn key_len(&self) -> nat {
        self.len as nat
    }

    /// The initiator's book of (puzzle id, session key) pairs; a responder
    /// has none.
    pub closed spec fn book(&self) -> Option<Seq<(Seq<u8>, Seq<u8>)>> {
        match self.map {
            Some(m) => Some(m@.map_values(|p: (Vec<u8>, Vec<u8>)| (p.0@, p.1@))),
            None => None,
        }
    }

    /// Well-formed: a usable key length, and every book entry an 8-byte id
    /// holding a 16-byte session key.
    pub open spec fn wf(&self) -> bool {
        &&& 1 <= self.key_len()
        &&& match self.book() {
            Some(b) => forall|q: int|
                0 <= q < b.len() ==> (#[trigger] b[q]).0.len() == 8 && b[q].1.len() == 16,
            None => true,
        }
    }

    /// Builds an initiator: draws `config.0` fresh random
    /// (puzzle id, session key) pairs.
    pub fn new(config: Config) -> (r: MpKex)
        requires
            1 <= config.0,
            1 <= config.1,
        ensures
            r.wf(),
            r.key_len() == config.1 as nat,
            r.book() matches Some(b) && b.len() == config.0 as nat,
    {
        let Config(num, len) = config;
        let mut map: Vec<(Vec<u8>, Vec<u8>)> = Vec::new();
        let mut i: usize = 0;
        while i < num
            invariant
                i <= num,
                map@.len() == i as nat,
                forall|j: int|
                    0 <= j < i ==> (#[trigger] map@[j]).0@.len() == 8 && map@[j].1@.len() == 16,
            decreases num - i,
        {
            let id = random_bytes(8);
            let k = random_bytes(16);
            map.push((id, k));
            i += 1;
        }
        let r = MpKex { map: Some(map), len };
        proof {
            let b = r.book().unwrap();
            assert forall|j: int| 0 <= j < b.len() implies (#[trigger] b[j]).0.len() == 8 && b[
                j
            ].1.len() == 16 by {
                assert(b[j] == (map@[j].0@, map@[j].1@));
            }
        }
        r
    }

    /// Builds a responder: no book, only the key length.
    pub fn new_empty(config: Config) -> (r: MpKex)
        requires
            1 <= config.1,
        ensures
            r.wf(),
            r.key_len() == config.1 as nat,
            r.book() is None,
    {
        let Config(_, len) = config;
        MpKex { map: None, len }
    }

    /// For an initiator: one freshly encrypted puzzle per book entry, each
    /// the weak encryption of `header ‖ id ‖ session key` under some key of
    /// the reduced space. A responder gets nothing.
    pub fn public(&self) -> (r: Option<Vec<Vec<u8>>>)
        requires
            self.wf(),
        ensures
            match self.book() {
                None => r is None,
                Some(b) => r matches Some(ps) && puzzles_match(
                    self.key_len(),
                    b,
                    ps.deep_view(),
                ),
            },
    {
        match &self.map {
            None => None,
            Some(m) => {
                let ghost b = self.book().unwrap();
                let mut ps: Vec<Vec<u8>> = Vec::new();
                let mut j: usize = 0;
                while j < m.len()
                    invariant
                        self.wf(),
                        self.map == Some(*m),
                        b == self.book().unwrap(),
                        b.len() == m@.len(),
                        1 <= self.key_len(),
                        j <= m@.len(),
                        ps@.len() == j as nat,
                        forall|q: int|
                            #![trigger ps@[q]]
                            0 <= q < j ==> puzzle_for(self.key_len(), b[q], ps@[q]@),
                    decreases m@.len() - j,
                {
                    let mut msg = head_bytes();
                    append_copy(&mut msg, m[j].0.as_slice());
                    append_copy(&mut msg, m[j].1.as_slice());
                    proof {
                        assert(msg@ == head_seq() + m@[j as int].0@ + m@[j as int].1@);
                    }
                    let pz = oracle(msg.as_slice(), self.len);
                    let ghost i0 = choose|i: nat|
                        i < key_count(self.len as nat) && pz@ == crypt_seq(
                            #[trigger] key_at(self.len as nat, i),
                            msg@,
                        );
                    let ghost ps_old = ps@;
                    proof {
                        assert(b[j as int] == (m@[j as int].0@, m@[j as int].1@));
                        assert(head_seq() + b[j as int].0 + b[j as int].1 == msg@);
                        assert(i0 < key_count(self.key_len()) && pz@ == crypt_seq(
                            key_at(self.key_len(), i0),
                            head_seq() + b[j as int].0 + b[j as int].1,
                        ));
                        assert(puzzle_for(self.key_len(), b[j as int], pz@));
                    }
                    ps.push(pz);
                    j += 1;
                    proof {
                        assert(ps@ == ps_old.push(pz));
                        assert forall|q: int| #![trigger ps@[q]] 0 <= q < j implies puzzle_for(
                            self.key_len(),
                            b[q],
                            ps@[q]@,
                        ) by {
                            if q < j - 1 {
                                assert(ps@[q] == ps_old[q]);
                            } else {
                                assert(q == j - 1);
                                assert(ps@[q] == pz);
                            }
                        }
                    }
                }
                proof {
                    assert(ps.deep_view().len() == b.len());
                    assert forall|j2: int| #![trigger ps.deep_view()[j2]] 0 <= j2
                        < b.len() implies puzzle_for(
                        self.key_len(),
                        b[j2],
                        ps.deep_view()[j2],
                    ) by {
                        assert(ps.deep_view()[j2] =~= ps@[j2]@);
                        assert(puzzle_for(self.key_len(), b[j2], ps@[j2]@));
                    }
                    assert(puzzles_match(self.key_len(), b, ps.deep_view()));
                }
                Some(ps)
            },
        }
    }

    /// The responder's half of the handshake: picks one published puzzle at
    /// random, brute-forces its weak key, and answers with the recovered
    /// puzzle id followed by a fresh 16-byte contribution; the shared secret
    /// is the recovered session key XORed with that contribution. Fails with
    /// `GuessFail` exactly when the chosen puzzle decrypts under no key of
    /// the space.
    pub fn exchange(&self, data: &[Vec<u8>]) -> (r: Result<(Vec<u8>, Vec<u8>), GuessFail>)
        requires
            self.wf(),
            1 <= data@.len(),
            forall|s: int| 0 <= s < data@.len() ==> (#[trigger] data@[s])@.len() == 32,
        ensures
            match r {
                Ok(p) => p.0@.len() == 24 && p.1@.len() == 16 && exists|s: int, i: nat, c: Seq<u8>|
                    #![auto]
                    {
                        &&& 0 <= s < data@.len()
                        &&& first_match(self.key_len(), data@[s]@, head_seq(), i)
                        &&& c.len() == 16
                        &&& p.0@ == crypt_seq(key_at(self.key_len(), i), data@[s]@).subrange(8, 16)
                            + c
                        &&& p.1@ == xor_seq(
                            crypt_seq(key_at(self.key_len(), i), data@[s]@).subrange(16, 32),
                            c,
                        )
                    },
                Err(e) => exists|s: int|
                    0 <= s < data@.len() && no_match(
                        self.key_len(),
                        (#[trigger] data@[s])@,
                        head_seq(),
                    ),
            },
    {
        let a_key = random_bytes(16);
        let s = random_index(data.len());
        let sample = &data[s];
        let head = head_bytes();
        match exhaustion(sample.as_slice(), head.as_slice(), self.len) {
            Ok(out) => {
                let ghost i0 = choose|i: nat|
                    first_match(self.key_len(), sample@, head_seq(), i) && out@ == crypt_seq(
                        key_at(self.key_len(), i),
                        sample@,
                    );
                proof {
                    assert(out@.len() == 32);
                }
                let mut recon = sub_vec(out.as_slice(), 8, 16);
                append_copy(&mut recon, a_key.as_slice());
                let b_key = sub_vec(out.as_slice(), 16, 32);
                let secret = xor(b_key.as_slice(), a_key.as_slice());
                proof {
                    assert(recon@ == out@.subrange(8, 16) + a_key@);
                    assert(secret@ == xor_seq(out@.subrange(16, 32), a_key@));
                    assert({
                        &&& 0 <= s < data@.len()
                        &&& first_match(self.key_len(), data@[s as int]@, head_seq(), i0)
                        &&& a_key@.len() == 16
                        &&& recon@ == crypt_seq(key_at(self.key_len(), i0), data@[
                            s as int
                        ]@).subrange(8, 16) + a_key@
                        &&& secret@ == xor_seq(
                            crypt_seq(key_at(self.key_len(), i0), data@[s as int]@).subrange(
                                16,
                                32,
                            ),
                            a_key@,
                        )
                    });
                }
                Ok((recon, secret))
            },
            Err(e) => {
                proof {
                    assert(no_match(self.key_len(), data@[s as int]@, head_seq()));
                }
                Err(e)
            },
        }
    }

    /// The initiator's half of the handshake: splits the reconciliation
    /// into id and contribution, looks the id up in its book, and derives
    /// the secret as the stored session key XORed with the contribution.
    /// `None` exactly when this side holds no book or no entry carries the
    /// id.
    pub fn exchange_from(&self, data: &[u8]) -> (r: Option<Vec<u8>>)
        requires
            self.wf(),
            data@.len() == 24,
        ensures
            match self.book() {
                None => r is None,
                Some(b) => match book_lookup(b, data@.subrange(0, 8)) {
                    None => r is None,
                    Some(k) => r matches Some(v) && v@ == xor_seq(k, data@.subrange(8, 24)),
                },
            },
    {
        let id = &data[0..8];
        let share = &data[8..24];
        match &self.map {
            None => None,
            Some(m) => {
                let ghost b = self.book().unwrap();
                let mut j: usize = 0;
                proof {
                    assert(b.subrange(0, b.len() as int) =~= b);
                }
                while j < m.len()
                    invariant
                        self.wf(),
                        self.map == Some(*m),
                        data@.len() == 24,
                        b == self.book().unwrap(),
                        b.len() == m@.len(),
                        id@ == data@.subrange(0, 8),
                        share@ == data@.subrange(8, 24),
                        j <= m@.len(),
                        book_lookup(b, id@) == book_lookup(
                            b.subrange(j as int, b.len() as int),
                            id@,
                        ),
                    decreases m@.len() - j,
                {
                    proof {
                        assert(b[j as int] == (m@[j as int].0@, m@[j as int].1@));
                    }
                    if bytes_eq(m[j].0.as_slice(), id) {
                        proof {
                            let rest = b.subrange(j as int, b.len() as int);
                            assert(rest[0] == b[j as int]);
                            assert(book_lookup(rest, id@) == Some(b[j as int].1));
                            assert(b[j as int].1.len() == 16);
                            assert(m@[j as int].1@.len() == 16);
                            assert(share@.len() == 16);
                        }
                        return Some(xor(m[j].1.as_slice(), share));
                    }
                    proof {
                        let rest = b.subrange(j as int, b.len() as int);
                        assert(rest[0] == b[j as int]);
                        assert(rest.subrange(1, rest.len() as int) =~= b.subrange(
                            j as int + 1,
                            b.len() as int,
                        ));
                    }
                    j += 1;
                }
                proof {
                    assert(b.subrange(j as int, b.len() as int).len() == 0);
                }
                None
            },
        }
    }
}

} // verus!
