use brontes::abi::{address_at, address_of_topic, be_u128, be_u32, selector, word_at};
use brontes::actions::Log;
use brontes::pattern::{match_logs, LogMatcher};
use brontes::primitives::{Address, B256, U256};

fn sig(n: u128) -> B256 {
    B256 { hi: n, lo: n }
}

fn log(n: u128) -> Log {
    Log { address: Address::from_u64(1), topics: vec![sig(n)], data: vec![] }
}

const A: u128 = 1;
const B: u128 = 2;
const S: u128 = 3;
const T: u128 = 4;

#[test]
fn pattern_captures_the_exact_events_in_order() {
    let pattern = vec![LogMatcher::Ignore(sig(S)), LogMatcher::Exact(sig(A)), LogMatcher::Exact(sig(B))];
    assert_eq!(match_logs(&pattern, &vec![log(S), log(A), log(B)]), Some(vec![1, 2]));
    assert_eq!(match_logs(&pattern, &vec![log(A), log(S), log(S), log(B)]), Some(vec![0, 3]));
    assert_eq!(match_logs(&pattern, &vec![log(A), log(B)]), Some(vec![0, 1]));
    // Out of order, missing, twice, or with an event that the pattern does not know.
    assert_eq!(match_logs(&pattern, &vec![log(B), log(A)]), None);
    assert_eq!(match_logs(&pattern, &vec![log(S), log(A)]), None);
    assert_eq!(match_logs(&pattern, &vec![log(A), log(A), log(B)]), None);
    assert_eq!(match_logs(&pattern, &vec![log(A), log(T), log(B)]), None);
    assert_eq!(match_logs(&pattern, &vec![]), None);
    // A log without topics names no event.
    let anonymous = Log { address: Address::from_u64(1), topics: vec![], data: vec![] };
    assert_eq!(match_logs(&pattern, &vec![log(A), anonymous, log(B)]), None);
    assert_eq!(match_logs(&vec![], &vec![]), Some(vec![]));
}

#[test]
fn reordering_ignores_changes_nothing() {
    let logs = vec![log(T), log(S), log(A)];
    let one = vec![LogMatcher::Possible(sig(T)), LogMatcher::Ignore(sig(S)), LogMatcher::Exact(sig(A))];
    let other = vec![LogMatcher::Ignore(sig(S)), LogMatcher::Possible(sig(T)), LogMatcher::Exact(sig(A))];
    let behind = vec![LogMatcher::Exact(sig(A)), LogMatcher::Ignore(sig(S)), LogMatcher::Possible(sig(T))];
    assert_eq!(match_logs(&one, &logs), Some(vec![2]));
    assert_eq!(match_logs(&other, &logs), Some(vec![2]));
    assert_eq!(match_logs(&behind, &logs), Some(vec![2]));
}

#[test]
fn removing_an_absent_possible_changes_nothing() {
    let logs = vec![log(S), log(A)];
    let with = vec![LogMatcher::Possible(sig(T)), LogMatcher::Ignore(sig(S)), LogMatcher::Exact(sig(A))];
    let without = vec![LogMatcher::Ignore(sig(S)), LogMatcher::Exact(sig(A))];
    assert_eq!(match_logs(&with, &logs), match_logs(&without, &logs));
    assert_eq!(match_logs(&with, &logs), Some(vec![1]));
}

#[test]
fn removing_a_present_exact_forces_fall_through() {
    let logs = vec![log(S), log(A), log(B)];
    let with = vec![LogMatcher::Ignore(sig(S)), LogMatcher::Exact(sig(A)), LogMatcher::Exact(sig(B))];
    let without = vec![LogMatcher::Ignore(sig(S)), LogMatcher::Exact(sig(B))];
    assert_eq!(match_logs(&with, &logs), Some(vec![1, 2]));
    assert_eq!(match_logs(&without, &logs), None);
}

#[test]
fn words_are_read_big_endian() {
    let mut data = vec![0u8; 64];
    data[15] = 1; // 2^128 in the first word
    data[31] = 2;
    data[63] = 0xff;
    data[62] = 0x01;
    assert_eq!(word_at(&data, 0), Some(U256 { hi: 1, lo: 2 }));
    assert_eq!(word_at(&data, 32), Some(U256::from_u64(0x01ff)));
    assert_eq!(word_at(&data, 33), None);
    assert_eq!(word_at(&data, 64), None);
    assert_eq!(word_at(&vec![0u8; 31], 0), None);
    assert_eq!(word_at(&data, usize::MAX), None);
    assert_eq!(be_u128(&data, 48), 0x01ff);
    assert_eq!(be_u128(&data, 47), 0x01);
    assert_eq!(be_u32(&data, 60), 0x01ff);
    let all: Vec<u8> = (1..=16).collect();
    assert_eq!(be_u128(&all, 0), 0x0102030405060708090a0b0c0d0e0f10);
}

#[test]
fn addresses_are_the_low_twenty_bytes_of_a_word() {
    let mut data = vec![0xeeu8; 4];
    let mut word = vec![0xaau8; 12];
    word.extend((1..=20).collect::<Vec<u8>>());
    data.extend(word);
    let expected = Address { hi: 0x01020304, lo: 0x05060708090a0b0c0d0e0f1011121314 };
    assert_eq!(address_at(&data, 4), Some(expected));
    assert_eq!(address_at(&data, 5), None);
    assert_eq!(selector(&data), Some(0xeeeeeeee));
    assert_eq!(selector(&vec![1, 2, 3]), None);
    assert_eq!(selector(&vec![0x02, 0x2c, 0x0d, 0x9f, 0x00]), Some(0x022c0d9f));
    let topic = B256 { hi: 0xaaaaaaaa_aaaaaaaa_aaaaaaaa_01020304, lo: 7 };
    assert_eq!(address_of_topic(&topic), Address { hi: 0x01020304, lo: 7 });
}
