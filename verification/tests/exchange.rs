use mpkex::util::{add_ctr, exhaustion, xor};
use mpkex::{Config, MpKex};

#[test]
fn exchange_roundtrip() {
    let alice = MpKex::new(Config(100, 2));
    let bob = MpKex::new_empty(Config(100, 2));

    let puzzles = alice.public().unwrap();
    let (recon, bob_secret) = bob.exchange(&puzzles).unwrap();
    let alice_secret = alice.exchange_from(&recon).unwrap();
    assert_eq!(alice_secret, bob_secret);
}

#[test]
fn concrete_scenario() {
    let alice = MpKex::new(Config(16, 1));
    let puzzles = alice.public().unwrap();
    assert_eq!(puzzles.len(), 16);
    for p in &puzzles {
        assert_eq!(p.len(), 32);
    }

    let bob = MpKex::new_empty(Config(16, 1));
    let (recon, secret_b) = bob.exchange(&puzzles).unwrap();
    assert_eq!(recon.len(), 24);
    assert_eq!(secret_b.len(), 16);

    let secret_a = alice.exchange_from(&recon).unwrap();
    assert_eq!(secret_a.len(), 16);
    assert_eq!(secret_a, secret_b);
}

#[test]
fn responder_has_no_puzzles() {
    let bob = MpKex::new_empty(Config(16, 1));
    assert_eq!(bob.public(), None);
}

#[test]
fn lookup_miss_returns_none() {
    // the responder side holds no book at all
    let bob = MpKex::new_empty(Config(4, 1));
    assert_eq!(bob.exchange_from(&[0u8; 24]), None);

    // an id the initiator never published: decode the single entry's id and
    // flip a bit of it
    let alice = MpKex::new(Config(1, 1));
    let puzzles = alice.public().unwrap();
    let plain = exhaustion(&puzzles[0], &[b'w'; 8], 1).unwrap();
    let mut recon: Vec<u8> = Vec::new();
    recon.extend_from_slice(&plain[8..16]);
    recon[0] ^= 0xff;
    recon.extend_from_slice(&[0u8; 16]);
    assert_eq!(alice.exchange_from(&recon), None);
}

#[test]
fn public_decodes_to_same_pairs() {
    let alice = MpKex::new(Config(4, 1));
    let first = alice.public().unwrap();
    let second = alice.public().unwrap();

    let decode = |ps: &Vec<Vec<u8>>| {
        let mut pairs: Vec<Vec<u8>> = ps
            .iter()
            .map(|p| exhaustion(p, &[b'w'; 8], 1).unwrap()[8..32].to_vec())
            .collect();
        pairs.sort();
        pairs
    };
    assert_eq!(decode(&first), decode(&second));
}

#[test]
fn xor_exact() {
    assert_eq!(xor(&[1, 2, 3], &[255, 0, 3]), vec![254, 2, 0]);
    assert_eq!(xor(&[], &[]), Vec::<u8>::new());
}

#[test]
fn add_ctr_carries_and_wraps() {
    let mut c = vec![255u8, 0];
    add_ctr(&mut c, 1);
    assert_eq!(c, vec![0, 1]);

    let mut w = vec![255u8, 255];
    add_ctr(&mut w, 1);
    assert_eq!(w, vec![0, 0]);

    let mut p = vec![10u8, 20];
    add_ctr(&mut p, 5);
    assert_eq!(p, vec![15, 20]);

    let mut e: Vec<u8> = Vec::new();
    add_ctr(&mut e, 9);
    assert!(e.is_empty());
}
