use mpkex::util::{exhaustion, oracle};
use mpkex::GuessFail;
use rand::Rng;

#[test]
fn test_exhaustion_oracle() {
    let mut plaintext = vec![0u8; 16];
    rand::rng().fill_bytes(&mut plaintext);
    let ciphertext = oracle(&plaintext, 2);
    let guesstext = exhaustion(&ciphertext, &plaintext[0..8], 2);

    assert_eq!(guesstext, Ok(plaintext));
}

#[test]
fn exhaustion_reports_failure() {
    // a known prefix longer than the ciphertext can never match
    let ct = oracle(&[7u8; 8], 1);
    let long_prefix = [0u8; 16];
    assert_eq!(exhaustion(&ct, &long_prefix, 1), Err(GuessFail::LenError));

    // a ciphertext that hides a different header than the one searched for
    let foreign = oracle(&[b'x'; 32], 1);
    assert_eq!(exhaustion(&foreign, &[b'w'; 8], 1), Err(GuessFail::LenError));
}

#[test]
fn oracle_changes_the_message() {
    let msg = [b'w'; 32];
    let ct = oracle(&msg, 4);
    assert_eq!(ct.len(), 32);
    assert_ne!(ct, msg.to_vec());
}

#[test]
fn oracle_accepts_any_plaintext_length() {
    assert_eq!(oracle(&[], 1).len(), 0);
    assert_eq!(oracle(&[1u8; 100], 3).len(), 100);
}
