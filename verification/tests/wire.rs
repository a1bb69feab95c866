use near_sdk::borsh::{BorshDeserialize, BorshSerialize};
use ronaldo_vs_messi::wire::{read_log, write_log};
use ronaldo_vs_messi::{RonaldoVsMessi, Side};

fn id(name: &str) -> String {
    name.to_string()
}

fn same_answers(a: &RonaldoVsMessi, b: &RonaldoVsMessi, probes: &[String]) {
    assert_eq!(a.get_total_votes(), b.get_total_votes());
    for who in probes {
        assert_eq!(a.check_if_user_voted(who), b.check_if_user_voted(who));
    }
}

#[test]
fn empty_ledger_is_two_zero_counts() {
    let ledger = RonaldoVsMessi::new();
    assert_eq!(ledger.encode(), Some(vec![0u8, 0, 0, 0, 0, 0, 0, 0]));
}

#[test]
fn one_vote_is_length_prefixed_utf8() {
    let mut ledger = RonaldoVsMessi::new();
    ledger.vote_ronaldo(id("alice"));
    let expected: Vec<u8> = vec![
        1, 0, 0, 0, // one entry for Ronaldo
        5, 0, 0, 0, b'a', b'l', b'i', b'c', b'e', // "alice"
        0, 0, 0, 0, // no entry for Messi
    ];
    assert_eq!(ledger.encode(), Some(expected));
}

#[test]
fn messi_log_follows_ronaldo_log() {
    let mut ledger = RonaldoVsMessi::new();
    ledger.votes_messi(id("bo"));
    ledger.vote_ronaldo(id("al"));
    ledger.votes_messi(id(""));
    let expected: Vec<u8> = vec![
        1, 0, 0, 0, 2, 0, 0, 0, b'a', b'l', // Ronaldo: "al"
        2, 0, 0, 0, 2, 0, 0, 0, b'b', b'o', 0, 0, 0, 0, // Messi: "bo", ""
    ];
    assert_eq!(ledger.encode(), Some(expected));
}

#[test]
fn identity_length_counts_bytes_not_chars() {
    let mut ledger = RonaldoVsMessi::new();
    ledger.vote_ronaldo(id("é"));
    let expected: Vec<u8> = vec![1, 0, 0, 0, 2, 0, 0, 0, 0xc3, 0xa9, 0, 0, 0, 0];
    assert_eq!(ledger.encode(), Some(expected));
}

#[test]
fn encoding_is_borsh_of_the_two_logs() {
    let ronaldo = vec![id("alice"), id("bob_near"), id("alice")];
    let messi = vec![id("carol.testnet"), id("ünïcödé")];
    let mut ledger = RonaldoVsMessi::new();
    for who in &ronaldo {
        ledger.vote_ronaldo(who.clone());
    }
    for who in &messi {
        ledger.votes_messi(who.clone());
    }
    let by_borsh = (ronaldo, messi).try_to_vec().unwrap();
    assert_eq!(ledger.encode(), Some(by_borsh));
}

#[test]
fn decoding_reads_what_borsh_wrote() {
    let logs = (vec![id("x"), id("y")], vec![id("z")]);
    let bytes = logs.try_to_vec().unwrap();
    let ledger = RonaldoVsMessi::decode(&bytes).unwrap();
    assert_eq!(ledger.get_total_votes(), (2, 1));
    assert_eq!(ledger.check_if_user_voted(&id("x")), (true, false));
    assert_eq!(ledger.check_if_user_voted(&id("y")), (true, false));
    assert_eq!(ledger.check_if_user_voted(&id("z")), (false, true));
    let back: (Vec<String>, Vec<String>) =
        BorshDeserialize::try_from_slice(&ledger.encode().unwrap()).unwrap();
    assert_eq!(back, logs);
}

#[test]
fn round_trip_empty_ledger() {
    let ledger = RonaldoVsMessi::new();
    let bytes = ledger.encode().unwrap();
    let back = RonaldoVsMessi::decode(&bytes).unwrap();
    same_answers(&ledger, &back, &[id("alice"), id("")]);
    assert_eq!(back.get_total_votes(), (0, 0));
    assert_eq!(back.encode(), Some(bytes));
}

#[test]
fn round_trip_many_mixed_votes() {
    let mut ledger = RonaldoVsMessi::new();
    let mut probes = Vec::new();
    for i in 0..150u32 {
        let who = format!("account-{}.near", i % 40);
        if i % 7 < 3 {
            ledger.vote_ronaldo(who.clone());
        } else {
            ledger.votes_messi(who.clone());
        }
        probes.push(who);
    }
    probes.push(id("nobody"));
    probes.push(id("account-40.near"));
    let bytes = ledger.encode().unwrap();
    let back = RonaldoVsMessi::decode(&bytes).unwrap();
    same_answers(&ledger, &back, &probes);
    assert_eq!(back.get_total_votes(), (66, 84));
    assert_eq!(back.encode(), Some(bytes));
}

#[test]
fn round_trip_keeps_votes_coming() {
    let mut ledger = RonaldoVsMessi::new();
    ledger.vote_ronaldo(id("alice"));
    let mut back = RonaldoVsMessi::decode(&ledger.encode().unwrap()).unwrap();
    back.record_vote_for(Side::Messi, id("bob"));
    back.record_vote_for(Side::Ronaldo, id("alice"));
    assert_eq!(back.get_total_votes(), (2, 1));
    assert_eq!(back.check_if_user_voted(&id("alice")), (true, false));
    assert_eq!(back.check_if_user_voted(&id("bob")), (false, true));
}

#[test]
fn empty_buffer_is_not_a_ledger() {
    assert!(RonaldoVsMessi::decode(&[]).is_none());
    assert!(RonaldoVsMessi::decode(&[0, 0, 0]).is_none());
}

#[test]
fn missing_second_log_is_refused() {
    assert!(RonaldoVsMessi::decode(&[0, 0, 0, 0]).is_none());
    assert!(RonaldoVsMessi::decode(&[0, 0, 0, 0, 0, 0]).is_none());
}

#[test]
fn trailing_bytes_are_refused() {
    assert!(RonaldoVsMessi::decode(&[0, 0, 0, 0, 0, 0, 0, 0]).is_some());
    assert!(RonaldoVsMessi::decode(&[0, 0, 0, 0, 0, 0, 0, 0, 0]).is_none());
}

#[test]
fn truncated_identity_is_refused() {
    let bytes = [1u8, 0, 0, 0, 5, 0, 0, 0, b'a', b'l', b'i', b'c'];
    assert!(RonaldoVsMessi::decode(&bytes).is_none());
    let short_prefix = [1u8, 0, 0, 0, 5, 0];
    assert!(RonaldoVsMessi::decode(&short_prefix).is_none());
}

#[test]
fn count_larger_than_entries_is_refused() {
    let bytes = [2u8, 0, 0, 0, 1, 0, 0, 0, b'a', 0, 0, 0, 0];
    assert!(RonaldoVsMessi::decode(&bytes).is_none());
    let huge = [0xffu8, 0xff, 0xff, 0xff, 0, 0, 0, 0];
    assert!(RonaldoVsMessi::decode(&huge).is_none());
}

#[test]
fn invalid_utf8_is_refused() {
    let bytes = [1u8, 0, 0, 0, 1, 0, 0, 0, 0xff, 0, 0, 0, 0];
    assert!(RonaldoVsMessi::decode(&bytes).is_none());
    let overlong = [1u8, 0, 0, 0, 2, 0, 0, 0, 0xc0, 0x80, 0, 0, 0, 0];
    assert!(RonaldoVsMessi::decode(&overlong).is_none());
    let surrogate = [1u8, 0, 0, 0, 3, 0, 0, 0, 0xed, 0xa0, 0x80, 0, 0, 0, 0];
    assert!(RonaldoVsMessi::decode(&surrogate).is_none());
}

#[test]
fn write_log_appends_after_what_is_there() {
    let mut out = vec![9u8, 9];
    let ok = write_log(&vec![id("ab"), id("c")], &mut out);
    assert!(ok);
    assert_eq!(out, vec![9, 9, 2, 0, 0, 0, 2, 0, 0, 0, b'a', b'b', 1, 0, 0, 0, b'c']);
}

#[test]
fn read_log_leaves_the_rest() {
    let bytes = [1u8, 0, 0, 0, 2, 0, 0, 0, b'h', b'i', 7, 8, 9];
    let (log, rest) = read_log(&bytes).unwrap();
    assert_eq!(log, vec![id("hi")]);
    assert_eq!(rest, &[7u8, 8, 9][..]);
    assert!(read_log(&bytes[..9]).is_none());
}

#[test]
fn read_log_of_empty_log() {
    let bytes = [0u8, 0, 0, 0, 42];
    let (log, rest) = read_log(&bytes).unwrap();
    assert!(log.is_empty());
    assert_eq!(rest, &[42u8][..]);
}
