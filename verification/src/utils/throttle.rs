//! A ceiling on transfer rate, one per direction, shared across transfers so
//! that raising the slot count does not raise the ceiling with it. Off by
//! default.
//!
//! The ceiling is a token bucket. Time is counted in nanoseconds and bytes
//! in billionths of a byte, so that a nanosecond at any rate adds a whole
//! number of them and nothing is lost to rounding. The host keeps one
//! limiter per direction, reads its clock, and waits as a step asks.

use vstd::prelude::*;

verus! {

/// A second, in nanoseconds: how much idle time may be banked, so a quiet
/// stretch cannot burst, and the longest single wait.
pub const MAX_BURST: u64 = 1_000_000_000;

/// The smallest slice worth waking for, in bytes.
pub const MIN_SLICE: u64 = 1024;

/// Billionths of a byte in a byte.
pub const SCALE: u128 = 1_000_000_000;

/// What is banked: billionths of a byte, as of `refilled`, in nanoseconds.
#[derive(Debug, Clone, Copy, PartialEq, Eq)]
pub struct Bucket {
    pub available: u128,
    pub refilled: u64,
}

/// One direction's ceiling. A limit of zero is no limit.
#[derive(Debug, Clone, Copy, PartialEq, Eq)]
pub struct Limiter {
    pub limit: u64,
    pub bucket: Option<Bucket>,
}

/// What one step decides: let this many bytes pass, or wait this many
/// nanoseconds and ask again.
#[derive(Debug, Clone, Copy, PartialEq, Eq)]
pub enum Take {
    Grant(usize),
    Wait(u64),
}

/// Billionths of a byte in a byte, as a number.
pub open spec fn scale() -> nat {
    1_000_000_000
}

/// The most a bucket holds at `rate`: a second's worth.
pub open spec fn burst(rate: nat) -> nat {
    rate * scale()
}

/// What a bucket holds at `now`: what it held, plus what the time since
/// added at `rate`, up to a second's worth.
pub open spec fn level(b: Bucket, now: nat, rate: nat) -> nat {
    let elapsed = if now >= b.refilled { (now - b.refilled) as nat } else { 0nat };
    let filled = (b.available + elapsed * rate) as nat;
    if filled < burst(rate) { filled } else { burst(rate) }
}

/// The least a step grants at once: a slice, but no more than a second's
/// worth at `rate`, so that a slow limit still lets something through, and
/// no more than was asked.
pub open spec fn slice_for(rate: nat, want: nat) -> nat {
    let s = if MIN_SLICE < rate { MIN_SLICE as nat } else { rate };
    if s < want { s } else { want }
}

/// One step of taking `want` bytes at `now`: the limiter after it, and what
/// it decides. What the bucket holds is granted, up to the ask, once it is
/// at least a slice; else the step says how long until it will be.
pub open spec fn take_spec(l: Limiter, want: nat, now: nat) -> (Limiter, Take) {
    if l.limit == 0 || want == 0 {
        (l, Take::Grant(want as usize))
    } else {
        let rate = l.limit as nat;
        let start = match l.bucket {
            Some(b) => b,
            None => Bucket { available: 0, refilled: now as u64 },
        };
        let avail = level(start, now, rate);
        let wanted = want * scale();
        let grant = if avail < wanted { avail } else { wanted };
        let slice = slice_for(rate, want);
        if grant >= slice * scale() {
            (
                Limiter { limit: l.limit, bucket: Some(Bucket { available: (avail - grant) as u128, refilled: now as u64 }) },
                Take::Grant((grant / scale()) as usize),
            )
        } else {
            let short = (slice * scale() - grant) as nat;
            let wait = ((short + rate - 1) as nat) / rate;
            (
                Limiter { limit: l.limit, bucket: Some(Bucket { available: avail as u128, refilled: now as u64 }) },
                Take::Wait(if wait < MAX_BURST { wait as u64 } else { MAX_BURST }),
            )
        }
    }
}

impl Limiter {
    /// What every limiter keeps: a bucket never holds more than a second's
    /// worth.
    pub open spec fn wf(&self) -> bool {
        self.bucket matches Some(b) ==> b.available <= burst(self.limit as nat)
    }

    /// No limit.
    pub fn new() -> (l: Limiter)
        ensures
            l.limit == 0,
            l.bucket is None,
            l.wf(),
    {
        Limiter { limit: 0, bucket: None }
    }

    /// Set the limit, in bytes per second; zero removes it. What was banked
    /// under the old limit is dropped.
    pub fn set(&mut self, bytes_per_second: u64)
        ensures
            final(self).limit == bytes_per_second,
            final(self).bucket is None,
            final(self).wf(),
    {
        self.limit = bytes_per_second;
        self.bucket = None;
    }

    /// The limit in bytes per second, or zero when there is none.
    pub fn rate(&self) -> (r: u64)
        ensures
            r == self.limit,
    {
        self.limit
    }

    /// One step of taking `want` bytes at `now`, in nanoseconds on a clock
    /// that does not go back: grant what may pass, or say how long to wait
    /// before asking again. Without a limit everything passes at once.
    pub fn take_step(&mut self, want: usize, now: u64) -> (t: Take)
        requires
            old(self).wf(),
        ensures
            (*final(self), t) == take_spec(*old(self), want as nat, now as nat),
            final(self).wf(),
    {
        if self.limit == 0 || want == 0 {
            return Take::Grant(want);
        }
        let rate = self.limit as u128;
        let start = match self.bucket {
            Some(b) => b,
            None => Bucket { available: 0, refilled: now },
        };
        let elapsed = if now >= start.refilled { now - start.refilled } else { 0 };
        let capped = if elapsed < MAX_BURST { elapsed } else { MAX_BURST };
        let cap = rate * SCALE;
        proof {
            assert(capped as u128 * rate <= MAX_BURST as u128 * rate) by (nonlinear_arith)
                requires capped <= MAX_BURST;
            assert(start.available <= cap);
        }
        let filled = start.available + capped as u128 * rate;
        let avail = if filled < cap { filled } else { cap };
        proof {
            let e = if now >= start.refilled { (now - start.refilled) as nat } else { 0nat };
            assert(e == elapsed);
            if elapsed >= MAX_BURST {
                assert(elapsed * rate >= MAX_BURST * rate) by (nonlinear_arith)
                    requires elapsed >= MAX_BURST;
            }
            assert(avail == level(start, now as nat, self.limit as nat));
        }
        let wanted = want as u128 * SCALE;
        let grant = if avail < wanted { avail } else { wanted };
        let least = if (MIN_SLICE as u128) < rate { MIN_SLICE as u128 } else { rate };
        let slice = if least < want as u128 { least } else { want as u128 };
        if grant >= slice * SCALE {
            self.bucket = Some(Bucket { available: avail - grant, refilled: now });
            Take::Grant((grant / SCALE) as usize)
        } else {
            let short = slice * SCALE - grant;
            let wait = (short + rate - 1) / rate;
            self.bucket = Some(Bucket { available: avail, refilled: now });
            Take::Wait(if wait < MAX_BURST as u128 { wait as u64 } else { MAX_BURST })
        }
    }
}

/// A step under a limit grants no more than was asked, and something
/// whenever it grants, or waits at least a nanosecond and at most a second;
/// with no limit, everything asked for passes at once.
pub proof fn lemma_take_bounds(l: Limiter, want: nat, now: nat)
    requires
        l.wf(),
        want <= usize::MAX,
    ensures
        l.limit == 0 ==> take_spec(l, want, now).1 == Take::Grant(want as usize),
        take_spec(l, want, now).1 matches Take::Grant(g) ==> g <= want && (want > 0 ==> g > 0),
        take_spec(l, want, now).1 matches Take::Wait(w) ==> 1 <= w <= MAX_BURST,
        take_spec(l, want, now).0.wf(),
{
    if l.limit != 0 && want != 0 {
        let rate = l.limit as nat;
        let start = match l.bucket {
            Some(b) => b,
            None => Bucket { available: 0, refilled: now as u64 },
        };
        let avail = level(start, now, rate);
        let wanted = want * scale();
        let grant = if avail < wanted { avail } else { wanted };
        let slice = slice_for(rate, want);
        assert(slice >= 1);
        if grant >= slice * scale() {
            assert(grant / scale() <= want) by (nonlinear_arith)
                requires grant <= want * scale(), scale() > 0;
            assert(grant >= scale()) by (nonlinear_arith)
                requires grant >= slice * scale(), slice >= 1, scale() > 0;
            assert(grant / scale() >= 1) by (nonlinear_arith)
                requires grant >= scale(), scale() > 0;
        } else {
            let short = (slice * scale() - grant) as nat;
            assert(short >= 1);
            assert(((short + rate - 1) as nat) / rate >= 1) by (nonlinear_arith)
                requires short >= 1, rate >= 1;
        }
    }
}

/// Under a limit, a step never lets more than a second's worth through at
/// once, however long the limiter sat idle, nor more than was asked; and
/// when it lets anything through, it is at least 1024 bytes, or the limit
/// or the ask if that is less, so that small slices do not wake the host
/// for nothing.
pub proof fn lemma_grant_size(l: Limiter, want: nat, now: nat)
    requires
        l.wf(),
        l.limit > 0,
        0 < want <= usize::MAX,
    ensures
        take_spec(l, want, now).1 matches Take::Grant(g) ==> {
            &&& g <= l.limit
            &&& g <= want
            &&& g >= 1024 || g >= l.limit || g >= want
        },
{
    let rate = l.limit as nat;
    let sc = scale();
    let start = match l.bucket {
        Some(b) => b,
        None => Bucket { available: 0, refilled: now as u64 },
    };
    let avail = level(start, now, rate);
    let wanted = want * sc;
    let grant = if avail < wanted { avail } else { wanted };
    let slice = slice_for(rate, want);
    assert(avail <= rate * sc);
    if grant >= slice * sc {
        assert(grant / sc <= rate) by (nonlinear_arith)
            requires grant <= rate * sc, sc > 0;
        assert(grant / sc <= want) by (nonlinear_arith)
            requires grant <= want * sc, sc > 0;
        assert(grant / sc >= slice) by (nonlinear_arith)
            requires grant >= slice * sc, sc > 0;
    }
}

/// Waiting what a step asks and asking again grants something, under any
/// limit: the wait is long enough for a slice to be banked, and a slice is
/// never more than a second's worth, which is what a bucket can hold.
pub proof fn lemma_wait_then_grant(l: Limiter, want: nat, now: nat, w: nat)
    requires
        l.wf(),
        want <= usize::MAX,
        now + w <= u64::MAX,
        take_spec(l, want, now).1 == Take::Wait(w as u64),
    ensures
        take_spec(take_spec(l, want, now).0, want, now + w).1 matches Take::Grant(g) && g > 0,
{
    let rate = l.limit as nat;
    let sc = scale();
    let start = match l.bucket {
        Some(b) => b,
        None => Bucket { available: 0, refilled: now as u64 },
    };
    let avail = level(start, now, rate);
    let wanted = want * sc;
    assert(want >= 1 && rate >= 1);
    let slice = slice_for(rate, want);
    assert(1 <= slice <= rate && slice <= want);
    let grant = if avail < wanted { avail } else { wanted };
    assert(grant < slice * sc);
    assert(slice * sc <= wanted) by (nonlinear_arith)
        requires slice <= want, wanted == want * sc;
    assert(grant == avail);
    let short = (slice * sc - avail) as nat;
    let wait = ((short + rate - 1) as nat) / rate;
    assert(wait * rate >= short) by (nonlinear_arith)
        requires wait == ((short + rate - 1) as nat) / rate, rate >= 1;
    assert(w == if wait < MAX_BURST { wait } else { MAX_BURST as nat });
    let b2 = Bucket { available: avail as u128, refilled: now as u64 };
    let filled = (avail + w * rate) as nat;
    assert(w * rate >= short || w * rate >= burst(rate)) by (nonlinear_arith)
        requires
            w == wait || w == MAX_BURST,
            wait * rate >= short,
            burst(rate) == rate * 1_000_000_000,
            MAX_BURST == 1_000_000_000;
    let avail2 = level(b2, now + w, rate);
    assert(avail2 == if filled < burst(rate) { filled } else { burst(rate) });
    assert(burst(rate) >= slice * sc) by (nonlinear_arith)
        requires slice <= rate, sc == 1_000_000_000, burst(rate) == rate * sc;
    assert(avail2 >= slice * sc);
    let grant2 = if avail2 < wanted { avail2 } else { wanted };
    assert(grant2 >= slice * sc);
    assert(take_spec(l, want, now).0.bucket == Some(b2));
    assert(slice_for(rate, want) == slice);
    assert(grant2 >= sc) by (nonlinear_arith)
        requires grant2 >= slice * sc, slice >= 1, sc >= 1;
    assert(grant2 / sc >= 1) by (nonlinear_arith)
        requires grant2 >= sc, sc >= 1;
}

/// The bytes a step lets pass.
pub open spec fn granted_by(t: Take) -> nat {
    match t {
        Take::Grant(n) => n as nat,
        Take::Wait(_) => 0nat,
    }
}

/// The account a limiter keeps of `granted` bytes let pass since `since`,
/// the time of the first step after the limit was set that asked for
/// anything: what is banked and what was granted, in billionths of a byte,
/// come to no more than the limit's worth of the time from `since` to the
/// last refill. Before that first step nothing was granted.
pub open spec fn accounted(l: Limiter, since: nat, granted: nat) -> bool {
    match l.bucket {
        None => granted == 0,
        Some(b) => since <= b.refilled && b.available + granted * scale() <= l.limit as nat * (b.refilled - since),
    }
}

/// A limiter just set keeps an account of nothing granted.
pub proof fn lemma_set_opens_account(l: Limiter, since: nat)
    requires
        l.bucket is None,
    ensures
        accounted(l, since, 0),
{
}

/// Each step keeps the account, whatever it is asked, on a clock that does
/// not go back; `since` is the time of the first step after the limit was
/// set that asked for anything. So, call by call, the bytes granted since
/// that step, times a billion, never pass the limit times the nanoseconds
/// since: no more than the limit per second.
pub proof fn lemma_step_keeps_account(l: Limiter, since: nat, granted: nat, want: nat, now: nat)
    requires
        l.wf(),
        l.limit > 0,
        accounted(l, since, granted),
        l.bucket is None ==> since == now,
        l.bucket matches Some(b) ==> b.refilled <= now,
        want <= usize::MAX,
        now <= u64::MAX,
    ensures
        ({
            let (l2, t) = take_spec(l, want, now);
            let total = granted + granted_by(t);
            &&& accounted(l2, since, total)
            &&& l2.bucket is Some || want == 0
            &&& total * scale() <= l.limit as nat * (now - since)
        }),
{
    let rate = l.limit as nat;
    let sc = scale();
    lemma_take_bounds(l, want, now);
    if want > 0 {
        let start = match l.bucket {
            Some(b) => b,
            None => Bucket { available: 0, refilled: now as u64 },
        };
        let avail = level(start, now, rate);
        let e = (now - start.refilled) as nat;
        assert(avail <= start.available + e * rate);
        let wanted = want * sc;
        let grant = if avail < wanted { avail } else { wanted };
        assert((grant / sc) * sc <= grant) by (nonlinear_arith)
            requires sc > 0;
        assert(start.available + granted * sc <= rate * (start.refilled - since));
        assert(rate * (start.refilled - since) + e * rate == rate * (now - since)) by (nonlinear_arith)
            requires e == now - start.refilled, since <= start.refilled <= now;
    } else {
        match l.bucket {
            None => {},
            Some(b) => {
                assert(rate * (b.refilled - since) <= rate * (now - since)) by (nonlinear_arith)
                    requires since <= b.refilled <= now;
            },
        }
    }
}

/// What the bytes granted by `k` steps, the `j`th at `nows[j]` asking for
/// `wants[j]`, add up to, and the limiter after them.
pub open spec fn run_steps(l: Limiter, nows: Seq<nat>, wants: Seq<nat>, k: nat) -> (Limiter, nat)
    decreases k,
{
    if k == 0 {
        (l, 0)
    } else {
        let (l1, granted) = run_steps(l, nows, wants, (k - 1) as nat);
        let (l2, t) = take_spec(l1, wants[k - 1], nows[k - 1]);
        (l2, granted + match t {
            Take::Grant(n) => n as nat,
            Take::Wait(_) => 0nat,
        })
    }
}

/// The times asked at run forwards and fit the clock, and the asks fit.
pub open spec fn steady_run(nows: Seq<nat>, wants: Seq<nat>) -> bool {
    &&& nows.len() == wants.len()
    &&& forall|a: int, b: int| 0 <= a <= b < nows.len() ==> nows[a] <= nows[b]
    &&& forall|j: int| 0 <= j < nows.len() ==> nows[j] <= u64::MAX && wants[j] <= usize::MAX
}

proof fn lemma_run_accounts(l: Limiter, nows: Seq<nat>, wants: Seq<nat>, k: nat)
    requires
        l.limit > 0,
        l.bucket is None,
        steady_run(nows, wants),
        1 <= k <= nows.len(),
    ensures
        ({
            let (l1, granted) = run_steps(l, nows, wants, k);
            let rate = l.limit as nat;
            &&& l1.limit == l.limit
            &&& l1.wf()
            &&& l1.bucket is None ==> granted == 0
            &&& l1.bucket matches Some(b) ==> nows[0] <= b.refilled <= nows[k - 1]
                && b.available + granted * scale() <= rate * (b.refilled - nows[0])
        }),
    decreases k,
{
    let rate = l.limit as nat;
    let sc = scale();
    let (l1, g) = run_steps(l, nows, wants, (k - 1) as nat);
    if k > 1 {
        lemma_run_accounts(l, nows, wants, (k - 1) as nat);
    } else {
        assert(l1 == l && g == 0);
    }
    assert(l1.wf());
    let now = nows[k - 1];
    let want = wants[k - 1];
    assert(nows[0] <= now);
    if k > 1 {
        assert(nows[k - 2] <= now);
    }
    lemma_take_bounds(l1, want, now);
    if want > 0 {
        let start = match l1.bucket {
            Some(b) => b,
            None => Bucket { available: 0, refilled: now as u64 },
        };
        let avail = level(start, now, rate);
        let e = (now - start.refilled) as nat;
        assert(start.refilled <= now);
        assert(avail <= start.available + e * rate);
        let wanted = want * sc;
        let grant = if avail < wanted { avail } else { wanted };
        assert((grant / sc) * sc <= grant) by (nonlinear_arith)
            requires sc > 0;
        assert(start.available + g * sc <= rate * (start.refilled - nows[0]));
        assert(rate * (start.refilled - nows[0]) + e * rate == rate * (now - nows[0])) by (nonlinear_arith)
            requires e == now - start.refilled, nows[0] <= start.refilled <= now;
    }
}

/// The ceiling: after the limit is set, the bytes the following steps
/// grant add up to no more than the limit's worth of the time since the
/// first of them.
pub proof fn lemma_rate_ceiling(l: Limiter, nows: Seq<nat>, wants: Seq<nat>, k: nat)
    requires
        l.limit > 0,
        l.bucket is None,
        steady_run(nows, wants),
        1 <= k <= nows.len(),
    ensures
        run_steps(l, nows, wants, k).1 * scale() <= l.limit as nat * (nows[k - 1] - nows[0]),
{
    lemma_run_accounts(l, nows, wants, k);
    let (l1, granted) = run_steps(l, nows, wants, k);
    if let Some(b) = l1.bucket {
        assert(l.limit as nat * (b.refilled - nows[0]) <= l.limit as nat * (nows[k - 1] - nows[0])) by (nonlinear_arith)
            requires nows[0] <= b.refilled <= nows[k - 1];
    }
}

} // verus!
