//! The memory budget.

use vocan::memory::{
    check_alloc, dsp_weight, estimated_dsp_bytes, gate, total_physical_memory, Admission, Attempt,
    MemoryGate, MemoryPermit, MemoryRequest,
};
use vocan::single::Single;

fn s(x: f32) -> Single {
    Single::from_bits(x.to_bits())
}

fn granted(a: Admission) -> MemoryPermit {
    match a {
        Admission::Granted(p) => p,
        Admission::Wait(m) => panic!("must not wait: {m}"),
    }
}

#[test]
fn dsp_weight_is_heavier_for_dfn3() {
    assert!(dsp_weight(false).lt(dsp_weight(true)));
    assert!(s(2.0).le(dsp_weight(false)), "must cover the measured ~2x peak");
    assert_eq!(f32::from_bits(dsp_weight(true).to_bits()), 3.5);
}

#[test]
fn estimated_bytes_scale_with_duration_and_rate() {
    let a = estimated_dsp_bytes(Some(s(10.0)), 48_000, false);
    let b = estimated_dsp_bytes(Some(s(20.0)), 48_000, false);
    assert_eq!(b, 2 * a);
    let c = estimated_dsp_bytes(Some(s(10.0)), 96_000, false);
    assert_eq!(c, 2 * a);
    assert_eq!(a, 4_800_000);
}

#[test]
fn estimated_bytes_are_zero_when_duration_is_unknown_or_absurd() {
    assert_eq!(estimated_dsp_bytes(None, 48_000, false), 0);
    assert_eq!(estimated_dsp_bytes(Some(s(0.0)), 48_000, false), 0);
    assert_eq!(estimated_dsp_bytes(Some(s(f32::NAN)), 48_000, false), 0);
    assert_eq!(estimated_dsp_bytes(Some(s(-5.0)), 48_000, false), 0);
}

#[test]
fn estimated_bytes_are_those_of_double_precision_arithmetic() {
    let mut state: u32 = 77;
    for _ in 0..3000 {
        state ^= state << 13;
        state ^= state >> 17;
        state ^= state << 5;
        let secs = f32::from_bits(state & 0x7FFF_FFFF);
        if !secs.is_finite() || secs == 0.0 {
            continue;
        }
        for (dfn3, weight) in [(false, 2.5f64), (true, 3.5f64)] {
            for sr in [8_000u32, 44_100, 192_000, u32::MAX] {
                let expected = (secs as f64 * sr as f64 * 4.0 * weight) as u64;
                assert_eq!(estimated_dsp_bytes(Some(s(secs)), sr, dfn3), expected, "{secs:e} {sr}");
            }
        }
    }
}

#[test]
fn permit_reserves_and_releases() {
    let mut gate = MemoryGate::new(1000);
    let p = granted(gate.acquire(400));
    assert_eq!(gate.in_use(), 400);
    gate.release(p);
    assert_eq!(gate.in_use(), 0, "drop must release the reservation");
}

#[test]
fn concurrent_requests_below_budget_do_not_contend() {
    let mut gate = MemoryGate::new(1000);
    let _a = granted(gate.acquire(300));
    let _b = granted(gate.acquire(300));
    assert_eq!(gate.in_use(), 600);
}

#[test]
fn a_request_larger_than_the_whole_budget_is_clamped_not_refused() {
    let mut gate = MemoryGate::new(1000);
    let p = granted(gate.acquire(9_999));
    assert_eq!(gate.in_use(), 1000, "clamped to the full budget");
    gate.release(p);
    assert_eq!(gate.in_use(), 0);
}

#[test]
fn a_zero_budget_gate_never_blocks_or_accounts() {
    let mut gate = MemoryGate::new(0);
    let _a = granted(gate.acquire(u64::MAX));
    let _b = granted(gate.acquire(u64::MAX));
    assert_eq!(gate.in_use(), 0);
}

#[test]
fn a_request_that_waits_says_so_once() {
    let mut gate = MemoryGate::new(1000);
    let held = granted(gate.acquire(800));
    let mut request = MemoryRequest::new(500);
    match request.attempt(&mut gate) {
        Attempt::Wait(Some(m)) => assert!(m.contains("not a hang")),
        _ => panic!("the first refusal comes with a notice"),
    }
    for _ in 0..3 {
        assert!(matches!(request.attempt(&mut gate), Attempt::Wait(None)));
    }
    assert_eq!(gate.in_use(), 800);
    gate.release(held);
    assert!(matches!(request.attempt(&mut gate), Attempt::Granted(_)));
    assert_eq!(gate.in_use(), 500);
    let mut fits = MemoryRequest::new(400);
    assert!(matches!(fits.attempt(&mut gate), Attempt::Granted(_)));
}

#[test]
fn a_request_that_does_not_fit_waits_until_the_holder_releases() {
    let mut gate = MemoryGate::new(1000);
    let held = granted(gate.acquire(800));
    match gate.acquire(800) {
        Admission::Granted(_) => panic!("second acquire should wait while 800/1000 is in use"),
        Admission::Wait(m) => {
            assert!(m.contains("not a hang"), "a caller that waits must be told why");
            assert_eq!(
                m,
                "Waiting for memory: this file needs 0.0 GB, and other files in flight are already \
                 using 0.0 GB of the 0.0 GB budget. Throughput drops until they finish -- this is not a hang."
            );
        }
    }
    assert_eq!(gate.in_use(), 800);
    gate.release(held);
    let _p = granted(gate.acquire(800));
    assert_eq!(gate.in_use(), 800);
}

#[test]
fn what_is_in_use_is_what_the_live_permits_hold() {
    let mut gate = MemoryGate::new(1000);
    let a = granted(gate.acquire(300));
    let b = granted(gate.acquire(600));
    let nothing = granted(gate.acquire(0));
    assert!(matches!(gate.acquire(200), Admission::Wait(_)));
    assert_eq!(gate.in_use(), 900);
    gate.release(a);
    assert_eq!(gate.in_use(), 600);
    let c = granted(gate.acquire(400));
    assert_eq!(gate.in_use(), 1000);
    gate.release(b);
    gate.release(nothing);
    assert_eq!(gate.in_use(), 400);
    gate.release(c);
    let whole = granted(gate.acquire(5000));
    assert!(matches!(gate.acquire(1), Admission::Wait(_)), "a permit for all is alone");
    gate.release(whole);
    assert_eq!(gate.in_use(), 0);
}

#[test]
fn the_gate_of_a_machine_holds_half_its_memory() {
    let mut g = gate(Some(16 << 30));
    let _p = granted(g.acquire(u64::MAX));
    assert_eq!(g.in_use(), 8 << 30);
    let mut none = gate(None);
    let _q = granted(none.acquire(5));
    assert_eq!(none.in_use(), 0);
}

#[test]
fn check_alloc_accepts_ordinary_sizes() {
    assert!(check_alloc(28_800_000, 4, "test buffer", Some(16 << 30)).is_ok());
    assert!(check_alloc(28_800_000, 4, "test buffer", None).is_ok());
}

#[test]
fn check_alloc_rejects_an_impossible_size() {
    assert!(check_alloc(usize::MAX / 8, 4, "test buffer", Some(16 << 30)).is_err());
    let m = check_alloc(3 << 30, 4, "the samples", Some(16 << 30)).unwrap_err();
    assert_eq!(
        m,
        "this file needs 12.0 GB for the samples alone, more than the 8.0 GB budget (50% of system RAM). \
         Process it without Automixer, or split it into shorter takes."
    );
    assert!(check_alloc(usize::MAX / 8, 4, "test buffer", None).is_ok());
}

#[test]
fn physical_memory_needs_both_numbers() {
    assert_eq!(total_physical_memory(4_000_000, 4096), Some(16_384_000_000));
    assert_eq!(total_physical_memory(-1, 4096), None);
    assert_eq!(total_physical_memory(4_000_000, 0), None);
}
