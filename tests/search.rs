use loom_core::amount_search::{golden_narrow, golden_probes, GoldenSearch};
use loom_core::encoder::{
    encode_swap_line, encoded_amount_in, read_word, write_word, AmountPatch, EncodeError, StepCall,
};
use loom_core::health::PoolHealth;
use loom_core::merger::{merge_candidates, SwapCandidate};
use loom_core::primitives::{Address, Word};
use loom_core::search::{find_cycles, SwapStep};

fn addr(b: u8) -> Address {
    Address::with_last_byte(b)
}

fn step(pool: u8, from: u8, to: u8) -> SwapStep {
    SwapStep { pool: addr(pool), token_in: addr(from), token_out: addr(to) }
}

const A: u8 = 0xa;
const B: u8 = 0xb;
const C: u8 = 0xc;
const P_AB: u8 = 1;
const P_BC: u8 = 2;
const P_CA: u8 = 3;

#[test]
fn path_search_finds_three_hop_cycle() {
    let directions = vec![step(P_AB, A, B), step(P_BC, B, C), step(P_CA, C, A)];
    let health = PoolHealth::new(3);
    let found = find_cycles(&directions, &health, &addr(A), &addr(P_BC));
    assert_eq!(found, vec![vec![step(P_AB, A, B), step(P_BC, B, C), step(P_CA, C, A)]]);
}

#[test]
fn path_search_emits_only_sound_cycles() {
    let directions = vec![
        step(P_AB, A, B),
        step(P_AB, B, A),
        step(P_BC, B, C),
        step(P_BC, C, B),
        step(P_CA, C, A),
        step(P_CA, A, C),
    ];
    let health = PoolHealth::new(3);
    let found = find_cycles(&directions, &health, &addr(A), &addr(P_BC));
    assert_eq!(found.len(), 2);
    for path in &found {
        assert!(path.len() == 2 || path.len() == 3);
        assert_eq!(path[0].token_in, addr(A));
        assert_eq!(path[path.len() - 1].token_out, addr(A));
        for w in path.windows(2) {
            assert_eq!(w[0].token_out, w[1].token_in);
        }
        assert!(path.iter().any(|s| s.pool == addr(P_BC)));
    }
    let two_hop = find_cycles(&directions, &health, &addr(A), &addr(P_AB));
    assert!(two_hop.contains(&vec![step(P_AB, A, B), step(P_AB, B, A)]));
}

#[test]
fn health_quarantine() {
    let directions = vec![step(P_AB, A, B), step(P_BC, B, C), step(P_CA, C, A)];
    let mut health = PoolHealth::new(3);
    for _ in 0..2 {
        health.record_trial(addr(P_CA), false);
    }
    assert!(!health.is_disabled(&addr(P_CA)));
    assert_eq!(health.failures_of(&addr(P_CA)), 2);
    assert_eq!(find_cycles(&directions, &health, &addr(A), &addr(P_BC)).len(), 1);
    health.record_trial(addr(P_CA), false);
    assert!(health.is_disabled(&addr(P_CA)));
    assert!(find_cycles(&directions, &health, &addr(A), &addr(P_BC)).is_empty());
}

#[test]
fn health_success_resets_failures() {
    let mut health = PoolHealth::new(3);
    health.record_trial(addr(P_AB), false);
    health.record_trial(addr(P_AB), false);
    health.record_trial(addr(P_AB), true);
    health.record_trial(addr(P_AB), false);
    assert_eq!(health.failures_of(&addr(P_AB)), 1);
    assert!(!health.is_disabled(&addr(P_AB)));
    assert_eq!(health.failures_of(&addr(P_BC)), 0);
}

fn cand(pools: &[u8], amount: u64, profit: u64) -> SwapCandidate {
    SwapCandidate {
        pools: pools.iter().map(|p| addr(*p)).collect(),
        amount_in: Word::from_u64(amount),
        profit: Word::from_u64(profit),
    }
}

fn summary(v: &[SwapCandidate]) -> Vec<(Vec<Address>, Word, Word)> {
    v.iter().map(|c| (c.pools.clone(), c.amount_in, c.profit)).collect()
}

#[test]
fn merger_dedup() {
    let merged = merge_candidates(&vec![cand(&[1, 2, 3], 100, 5), cand(&[1, 2, 3], 100, 9)]);
    assert_eq!(merged.len(), 1);
    assert_eq!(merged[0].profit, Word::from_u64(9));
    let merged = merge_candidates(&vec![cand(&[1, 2, 3], 100, 9), cand(&[1, 2, 3], 100, 5)]);
    assert_eq!(merged.len(), 1);
    assert_eq!(merged[0].profit, Word::from_u64(9));
}

#[test]
fn merger_keeps_distinct_swaps_and_ignores_order() {
    let a = vec![cand(&[1, 2], 10, 1), cand(&[1, 2], 20, 2), cand(&[2, 1], 10, 3), cand(&[1, 2], 10, 4)];
    let b = vec![cand(&[1, 2], 10, 4), cand(&[2, 1], 10, 3), cand(&[1, 2], 10, 1), cand(&[1, 2], 20, 2)];
    let ma = merge_candidates(&a);
    let mb = merge_candidates(&b);
    assert_eq!(ma.len(), 3);
    assert_eq!(summary(&ma), summary(&mb));
    assert_eq!(
        summary(&ma),
        vec![
            (vec![addr(1), addr(2)], Word::from_u64(10), Word::from_u64(4)),
            (vec![addr(1), addr(2)], Word::from_u64(20), Word::from_u64(2)),
            (vec![addr(2), addr(1)], Word::from_u64(10), Word::from_u64(3)),
        ]
    );
}

#[test]
fn golden_section_finds_peak() {
    let peak: i128 = 777_777;
    let profit = |x: u128| -> i128 {
        let d = x as i128 - peak;
        1_000_000_000_000 - d * d
    };
    let (mut lo, mut hi) = (0u128, 1_000_000u128);
    for _ in 0..24 {
        let (x1, x2) = golden_probes(lo, hi);
        assert!(lo <= x1 && x1 <= x2 && x2 <= hi);
        if x1 == x2 {
            break;
        }
        let (l, h) = golden_narrow(lo, hi, profit(x1), profit(x2));
        assert!(l <= peak as u128 && peak as u128 <= h);
        assert!((h - l) * 1000 <= (hi - lo) * 618 + 1000);
        lo = l;
        hi = h;
    }
    assert!(hi - lo <= 20);
    assert_eq!(golden_probes(0, 1000), (382, 618));
    assert_eq!(golden_narrow(0, 1000, 1, 2), (382, 1000));
    assert_eq!(golden_narrow(0, 1000, 2, 1), (0, 618));
    assert_eq!(golden_probes(0, u128::MAX).1, u128::MAX / 1000 * 618 + (u128::MAX % 1000) * 618 / 1000);
}

#[test]
fn encoder_round_trip_and_chaining() {
    let amount = Word { l0: 0x0102030405060708, l1: 9, l2: 0, l3: 0xff00000000000001 };
    let steps = vec![
        StepCall { calldata: vec![0xaa; 68], in_amount_offset: 4, out_amount_return_offset: 0 },
        StepCall { calldata: vec![0xbb; 100], in_amount_offset: 36, out_amount_return_offset: 32 },
        StepCall { calldata: vec![0xcc; 36], in_amount_offset: 4, out_amount_return_offset: 0 },
    ];
    let encoded = encode_swap_line(steps, amount).unwrap();
    assert_eq!(encoded.len(), 3);
    assert_eq!(encoded_amount_in(&encoded, 4), Some(amount));
    assert_eq!(&encoded[0].calldata[..4], &[0xaa; 4]);
    assert_eq!(encoded[0].calldata[4], 0xff);
    assert_eq!(encoded[0].calldata[35], 0x08);
    assert_eq!(&encoded[0].calldata[36..], &[0xaa; 32]);
    assert!(encoded[0].patch.is_none());
    assert_eq!(encoded[1].patch, Some(AmountPatch { from_step: 0, return_offset: 0, calldata_offset: 36 }));
    assert_eq!(encoded[2].patch, Some(AmountPatch { from_step: 1, return_offset: 32, calldata_offset: 4 }));
    assert_eq!(encoded[2].calldata, vec![0xcc; 36]);

    let mut buf = vec![0u8; 40];
    write_word(&mut buf, 8, Word::from_u64(0x1234));
    assert_eq!(buf[38], 0x12);
    assert_eq!(buf[39], 0x34);
    assert_eq!(read_word(&buf, 8), Word::from_u64(0x1234));

    assert!(matches!(encode_swap_line(vec![], amount), Err(EncodeError::Empty)));
    let short = vec![StepCall { calldata: vec![0; 20], in_amount_offset: 0, out_amount_return_offset: 0 }];
    assert!(matches!(encode_swap_line(short, amount), Err(EncodeError::AmountOutsideCalldata)));
}

#[test]
fn golden_search_machine_stops_within_budget() {
    let peak: i128 = 777_777;
    let profit = |x: u128| -> i128 {
        let d = x as i128 - peak;
        1_000_000_000_000 - d * d
    };
    let mut search = GoldenSearch::new(0, 1_000_000, 24);
    let mut steps = 0;
    while let Some((x1, x2)) = search.next_probes() {
        search.observe(profit(x1), profit(x2));
        steps += 1;
        assert!(search.lo <= peak as u128 && peak as u128 <= search.hi);
    }
    assert!(steps <= 24);
    let best = search.best_amount();
    assert!((best as i128 - peak).abs() <= 10);
    let mut short = GoldenSearch::new(0, 1_000_000, 2);
    while let Some((x1, x2)) = short.next_probes() {
        short.observe(profit(x1), profit(x2));
    }
    assert_eq!(short.steps, 2);
}
