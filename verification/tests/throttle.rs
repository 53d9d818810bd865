use soulseek_rs::utils::throttle::{Limiter, Take};

/// Take `want` bytes, waiting on a clock in nanoseconds as the limiter asks.
fn take_blocking(limiter: &mut Limiter, want: usize, clock: &mut u64) -> usize {
    loop {
        match limiter.take_step(want, *clock) {
            Take::Grant(n) => return n,
            Take::Wait(ns) => *clock += ns,
        }
    }
}

#[test]
fn no_limit_hands_back_everything_asked_for() {
    let mut uploads = Limiter::new();
    uploads.set(0);
    assert_eq!(uploads.take_step(1 << 20, 0), Take::Grant(1 << 20));
}

#[test]
fn a_limit_actually_paces_the_bytes_it_hands_out() {
    let rate = 20 * 1024;
    let mut uploads = Limiter::new();
    uploads.set(rate);

    let target = 40 * 1024;
    let mut clock = 0u64;
    let mut sent = 0usize;
    while sent < target {
        sent += take_blocking(&mut uploads, 4096, &mut clock);
    }

    assert!(sent >= target);
    // An upper bound alone would pass with no throttling at all.
    assert!(clock >= 1_500_000_000, "{target} bytes at {rate}/s went out in {clock} ns");
    assert!(clock < 6_000_000_000, "throttling should pace, not stall: took {clock} ns");
}

#[test]
fn a_slow_limit_still_makes_progress_on_a_large_ask() {
    let mut uploads = Limiter::new();
    uploads.set(4 * 1024);
    let mut clock = 0u64;
    let granted = take_blocking(&mut uploads, 1 << 20, &mut clock);
    assert!(granted > 0);
    assert!(granted <= 1 << 20);
}

#[test]
fn changing_the_limit_does_not_carry_the_old_allowance_over() {
    let mut uploads = Limiter::new();
    uploads.set(1 << 20);
    let mut clock = 0u64;
    take_blocking(&mut uploads, 1, &mut clock);
    // Twenty milliseconds at a megabyte a second bank twenty kilobytes.
    clock += 20_000_000;
    uploads.set(8 * 1024);
    let granted = take_blocking(&mut uploads, 1 << 20, &mut clock);
    assert!(granted <= 8 * 1024, "a fresh limit granted {granted} at once");
}

#[test]
fn the_two_directions_do_not_share_a_ceiling() {
    let mut uploads = Limiter::new();
    let mut downloads = Limiter::new();
    uploads.set(1024);
    downloads.set(0);
    assert_eq!(downloads.take_step(1 << 20, 0), Take::Grant(1 << 20), "an upload cap must not pace downloads");
    assert_eq!(uploads.rate(), 1024);
    assert_eq!(downloads.rate(), 0);
}

#[test]
fn a_download_limit_paces_what_is_read() {
    let rate = 20 * 1024;
    let mut downloads = Limiter::new();
    downloads.set(rate);

    let target = 40 * 1024;
    let mut clock = 0u64;
    let mut read = 0usize;
    while read < target {
        read += take_blocking(&mut downloads, 4096, &mut clock);
    }

    assert!(read >= target);
    assert!(clock >= 1_500_000_000, "{target} bytes at {rate}/s came in in {clock} ns");
}

#[test]
fn a_quiet_second_banks_no_more_than_a_second() {
    let mut limiter = Limiter::new();
    limiter.set(2048);
    assert_eq!(limiter.take_step(1024, 0), Take::Wait(500_000_000));
    // Ten seconds idle bank one second's worth: 2048 bytes.
    assert_eq!(limiter.take_step(1 << 20, 10_000_000_000), Take::Grant(2048));
    assert_eq!(limiter.take_step(1, 10_000_000_000), Take::Wait(488_282));
}

#[test]
fn a_limit_below_a_slice_still_grants() {
    let mut uploads = Limiter::new();
    uploads.set(1000);
    let mut clock = 0u64;
    let granted = take_blocking(&mut uploads, 4096, &mut clock);
    assert_eq!(granted, 1000);
    assert_eq!(clock, 1_000_000_000);
}
