//! Limits on background traffic: metering, backoff, budgets and the breaker.
use std::collections::VecDeque;
use vstd::prelude::*;

use crate::text::ascii_lowered;
use crate::text::same_str;
use crate::text::to_ascii_lowercase;
use crate::text::trim;
use crate::text::trimmed;

verus! {

/// How a metered connection is treated.
#[derive(Debug, Clone, Copy, PartialEq, Eq, Structural)]
pub enum Metered {
    Never,
    Reduced,
    /// Prefetching is suspended outright.
    Always,
}

impl Metered {
    /// The setting's word.
    pub open spec fn word(self) -> Seq<char> {
        match self {
            Metered::Never => "never"@,
            Metered::Reduced => "reduced"@,
            Metered::Always => "always"@,
        }
    }

    /// Parses the setting's word, whatever its ASCII case and the whitespace
    /// around it.
    pub fn parse(s: &str) -> (r: Option<Self>)
        ensures
            r matches Some(m) ==> ascii_lowered(trimmed(s@)) == m.word(),
            r is None ==> forall|m: Metered| ascii_lowered(trimmed(s@)) != #[trigger] m.word(),
    {
        let inner = trim(s);
        let word = to_ascii_lowercase(inner.as_str());
        if same_str(word.as_str(), "never") {
            Some(Metered::Never)
        } else if same_str(word.as_str(), "reduced") {
            Some(Metered::Reduced)
        } else if same_str(word.as_str(), "always") {
            Some(Metered::Always)
        } else {
            None
        }
    }

    /// The setting's word.
    pub fn label(self) -> (r: &'static str)
        ensures
            r@ == self.word(),
    {
        match self {
            Metered::Never => "never",
            Metered::Reduced => "reduced",
            Metered::Always => "always",
        }
    }
}

/// The three words differ, so a word names one setting.
pub proof fn metered_words_are_distinct(a: Metered, b: Metered)
    requires
        a.word() == b.word(),
    ensures
        a == b,
{
    reveal_strlit("never");
    reveal_strlit("reduced");
    reveal_strlit("always");
    assert("never"@.len() == 5);
    assert("reduced"@.len() == 7);
    assert("always"@.len() == 6);
}

/// The settings of background traffic.
#[derive(Debug, Clone, Copy)]
pub struct SubstrateConfig {
    pub daily_byte_budget: u64,
    pub hourly_request_budget: u32,
    pub metered: Metered,
    pub top_n: usize,
    pub breaker_threshold: u32,
    pub breaker_cooldown_secs: u64,
    pub retry_after_default_secs: u64,
    pub backoff_base_ms: u64,
    pub backoff_max_ms: u64,
    pub jitter_seed: u64,
}

impl Default for SubstrateConfig {
    fn default() -> (r: Self)
        ensures
            r == (SubstrateConfig {
                daily_byte_budget: 20_971_520,
                hourly_request_budget: 100,
                metered: Metered::Reduced,
                top_n: 5,
                breaker_threshold: 3,
                breaker_cooldown_secs: 300,
                retry_after_default_secs: 5,
                backoff_base_ms: 500,
                backoff_max_ms: 30_000,
                jitter_seed: 0x5EED_1234_ABCD_0001,
            }),
    {
        SubstrateConfig {
            daily_byte_budget: 20 * 1024 * 1024,
            hourly_request_budget: 100,
            metered: Metered::Reduced,
            top_n: 5,
            breaker_threshold: 3,
            breaker_cooldown_secs: 300,
            retry_after_default_secs: 5,
            backoff_base_ms: 500,
            backoff_max_ms: 30_000,
            jitter_seed: 0x5EED_1234_ABCD_0001,
        }
    }
}

/// The step between two states of the generator.
pub const JITTER_STEP: u64 = 0x9E37_79B9_7F4A_7C15;

/// A sum of two words, modulo 2^64.
pub open spec fn wrap_sum(a: u64, b: u64) -> u64 {
    ((a + b) % 0x1_0000_0000_0000_0000) as u64
}

/// A product of two words, modulo 2^64.
pub open spec fn wrap_product(a: u64, b: u64) -> u64 {
    ((a * b) % 0x1_0000_0000_0000_0000) as u64
}

/// What a generator in state `state` puts out.
pub open spec fn mixed(state: u64) -> u64 {
    let y = wrap_product(state ^ (state >> 30), 0xBF58_476D_1CE4_E5B9);
    let z = wrap_product(y ^ (y >> 27), 0x94D0_49BB_1331_11EB);
    z ^ (z >> 31)
}

/// A seeded generator: the same seed gives the same sequence.
#[derive(Debug, Clone)]
pub struct Jitter {
    state: u64,
}

impl Jitter {
    /// The state the next number is drawn from.
    pub closed spec fn state(self) -> u64 {
        self.state
    }

    /// A generator that starts at `seed`.
    pub fn new(seed: u64) -> (r: Self)
        ensures
            r.state() == seed,
    {
        Jitter { state: seed }
    }

    /// Steps the generator and draws a number.
    pub fn next_u64(&mut self) -> (r: u64)
        ensures
            final(self).state() == wrap_sum(old(self).state(), JITTER_STEP),
            r == mixed(final(self).state()),
    {
        self.state = self.state.wrapping_add(JITTER_STEP);
        let x: u64 = self.state;
        let y: u64 = (x ^ (x >> 30)).wrapping_mul(0xBF58_476D_1CE4_E5B9);
        let z: u64 = (y ^ (y >> 27)).wrapping_mul(0x94D0_49BB_1331_11EB);
        z ^ (z >> 31)
    }
}

/// A delay under full jitter, as an exact fraction: `ceiling_ms` times
/// `numerator` over 2^53.
#[derive(Debug, Clone, Copy, PartialEq, Eq, Structural)]
pub struct Delay {
    pub numerator: u64,
    pub ceiling_ms: u64,
}

/// Exponential backoff with full jitter.
#[derive(Debug, Clone)]
pub struct Backoff {
    base_ms: u64,
    max_ms: u64,
    jitter: Jitter,
}

/// The number of doublings an attempt is worth.
pub open spec fn doublings(attempt: u32) -> nat {
    if attempt < 16 {
        attempt as nat
    } else {
        16
    }
}

/// 2 to the power of `n`.
pub open spec fn power2(n: nat) -> nat
    decreases n,
{
    if n == 0 {
        1
    } else {
        2 * power2((n - 1) as nat)
    }
}

/// The ceiling of an attempt between a base and a maximum: the base doubled
/// once for each attempt before it, sixteen times at most, and capped.
pub open spec fn raised_ceiling(base: nat, max: nat, attempt: u32) -> nat {
    let raised = base * power2(doublings(attempt));
    if raised < max {
        raised
    } else {
        max
    }
}

/// A duration of one millisecond at least.
pub open spec fn some_millis(ms: u64) -> nat {
    if ms < 1 {
        1
    } else {
        ms as nat
    }
}

impl Backoff {
    /// The delay's ceiling before it is doubled.
    pub closed spec fn base(self) -> nat {
        self.base_ms as nat
    }

    /// The most a ceiling can be.
    pub closed spec fn max(self) -> nat {
        self.max_ms as nat
    }

    /// The state of the generator.
    pub closed spec fn state(self) -> u64 {
        self.jitter.state()
    }

    /// The ceiling of an attempt.
    pub open spec fn ceiling(self, attempt: u32) -> nat {
        raised_ceiling(self.base(), self.max(), attempt)
    }

    /// Backoff from `base_ms` to `max_ms`, each one millisecond at least.
    pub fn new(base_ms: u64, max_ms: u64, seed: u64) -> (r: Self)
        ensures
            r.base() == some_millis(base_ms),
            r.max() == some_millis(max_ms),
            r.state() == seed,
    {
        Backoff {
            base_ms: if base_ms < 1 {
                1
            } else {
                base_ms
            },
            max_ms: if max_ms < 1 {
                1
            } else {
                max_ms
            },
            jitter: Jitter::new(seed),
        }
    }

    /// The ceiling of an attempt.
    pub fn ceiling_ms(&self, attempt: u32) -> (r: u64)
        ensures
            r as nat == self.ceiling(attempt),
    {
        let n: u32 = if attempt < 16 {
            attempt
        } else {
            16
        };
        let mut raised: u64 = self.base_ms;
        let mut over = false;
        proof {
            let b = self.base_ms as int;
            assert(b * 1 == b) by (nonlinear_arith);
            assert(power2(0) == 1);
        }
        for i in 0..n
            invariant
                n <= 16,
                over ==> self.base_ms * power2(i as nat) > u64::MAX,
                !over ==> raised == self.base_ms * power2(i as nat),
        {
            proof {
                let b = self.base_ms as int;
                let p = power2(i as nat) as int;
                assert(b * (2 * p) == 2 * (b * p)) by (nonlinear_arith);
                assert(power2((i + 1) as nat) == 2 * power2(i as nat));
            }
            if !over {
                match raised.checked_add(raised) {
                    Some(x) => {
                        raised = x;
                    },
                    None => {
                        over = true;
                    },
                }
            }
        }
        if over || raised >= self.max_ms {
            self.max_ms
        } else {
            raised
        }
    }

    /// Draws the delay before attempt `attempt`: somewhere from nothing up to,
    /// but not including, the attempt's ceiling.
    pub fn delay(&mut self, attempt: u32) -> (r: Delay)
        ensures
            r.ceiling_ms as nat == old(self).ceiling(attempt),
            r.numerator == mixed(final(self).state()) >> 11,
            r.numerator < 0x20_0000_0000_0000,
            final(self).state() == wrap_sum(old(self).state(), JITTER_STEP),
            final(self).base() == old(self).base(),
            final(self).max() == old(self).max(),
    {
        let ceiling_ms: u64 = self.ceiling_ms(attempt);
        let drawn: u64 = self.jitter.next_u64();
        assert(drawn >> 11 < 0x20_0000_0000_0000) by (bit_vector);
        Delay { numerator: drawn >> 11, ceiling_ms }
    }
}

/// A drawn delay is below the ceiling it was drawn under, and the ceiling
/// never exceeds the configured maximum.
pub proof fn delay_is_below_its_ceiling(b: Backoff, attempt: u32, d: Delay)
    requires
        b.base() >= 1,
        b.max() >= 1,
        d.ceiling_ms as nat == b.ceiling(attempt),
        d.numerator < 0x20_0000_0000_0000,
    ensures
        d.numerator * d.ceiling_ms < d.ceiling_ms * 0x20_0000_0000_0000,
        d.ceiling_ms <= b.max(),
{
    lemma_power2_positive(doublings(attempt));
    let p = power2(doublings(attempt));
    assert(b.base() * p >= 1) by (nonlinear_arith)
        requires
            b.base() >= 1,
            p >= 1,
    ;
    let n = d.numerator as int;
    let c = d.ceiling_ms as int;
    assert(n * c < c * 0x20_0000_0000_0000) by (nonlinear_arith)
        requires
            n < 0x20_0000_0000_0000,
            c >= 1,
    ;
}

proof fn lemma_power2_positive(n: nat)
    ensures
        power2(n) >= 1,
    decreases n,
{
    if n > 0 {
        lemma_power2_positive((n - 1) as nat);
    }
}

/// The seconds of an hour.
pub const HOUR_SECS: u64 = 3600;

/// The seconds of a day.
pub const DAY_SECS: u64 = 86_400;

/// The seconds since `then`; a moment in the future is not past at all.
pub open spec fn elapsed(now: u64, then: u64) -> nat {
    if now >= then {
        (now - then) as nat
    } else {
        0
    }
}

/// Whether a moment is `window` seconds past or more.
pub open spec fn expired(now: u64, then: u64, window: u64) -> bool {
    elapsed(now, then) >= window
}

/// The moments once the expired ones at the front are gone.
pub open spec fn still_open(times: Seq<u64>, now: u64, window: u64) -> Seq<u64>
    decreases times.len(),
{
    if times.len() > 0 && expired(now, times[0], window) {
        still_open(times.drop_first(), now, window)
    } else {
        times
    }
}

/// The records once the expired ones at the front are gone.
pub open spec fn still_counted(records: Seq<(u64, u64)>, now: u64, window: u64) -> Seq<(u64, u64)>
    decreases records.len(),
{
    if records.len() > 0 && expired(now, records[0].0, window) {
        still_counted(records.drop_first(), now, window)
    } else {
        records
    }
}

/// The bytes of all records.
pub open spec fn bytes_in(records: Seq<(u64, u64)>) -> nat
    decreases records.len(),
{
    if records.len() == 0 {
        0
    } else {
        bytes_in(records.drop_last()) + records.last().1 as nat
    }
}

/// A count as a `u32` holds it.
pub open spec fn held32(n: nat) -> u32 {
    if n <= u32::MAX {
        n as u32
    } else {
        u32::MAX
    }
}

/// A sum as a `u64` holds it.
pub open spec fn held64(n: nat) -> u64 {
    if n <= u64::MAX {
        n as u64
    } else {
        u64::MAX
    }
}

/// Prefetch budgets: requests in a rolling hour and bytes in a rolling day.
#[derive(Debug)]
pub struct Budget {
    daily_byte_cap: u64,
    hourly_req_cap: u32,
    metered: Metered,
    reqs: VecDeque<u64>,
    bytes: VecDeque<(u64, u64)>,
}

/// The state of a budget.
#[derive(Debug, Clone, Copy, PartialEq, Eq, Structural)]
pub struct BudgetSnapshot {
    pub requests_used: u32,
    pub requests_cap: u32,
    pub bytes_used: u64,
    pub bytes_cap: u64,
    pub metered: Metered,
    pub suspended: bool,
}

/// A budget's settings and records.
#[verifier::ext_equal]
pub struct BudgetModel {
    pub byte_cap: u64,
    pub req_cap: u32,
    pub metered: Metered,
    pub reqs: Seq<u64>,
    pub bytes: Seq<(u64, u64)>,
}

impl BudgetModel {
    /// The budget without what has rolled off.
    pub open spec fn pruned(self, now: u64) -> BudgetModel {
        BudgetModel {
            reqs: still_open(self.reqs, now, HOUR_SECS),
            bytes: still_counted(self.bytes, now, DAY_SECS),
            ..self
        }
    }

    /// Whether one more request may be made: prefetching is not suspended,
    /// and both windows have headroom.
    pub open spec fn has_headroom(self, now: u64) -> bool {
        let p = self.pruned(now);
        self.metered != Metered::Always && p.reqs.len() < self.req_cap && bytes_in(p.bytes)
            < self.byte_cap
    }

    /// What a snapshot shows.
    pub open spec fn shown(self, now: u64) -> BudgetSnapshot {
        BudgetSnapshot {
            requests_used: held32(self.pruned(now).reqs.len()),
            requests_cap: self.req_cap,
            bytes_used: held64(bytes_in(self.pruned(now).bytes)),
            bytes_cap: self.byte_cap,
            metered: self.metered,
            suspended: self.metered == Metered::Always,
        }
    }
}

impl View for Budget {
    type V = BudgetModel;

    closed spec fn view(&self) -> BudgetModel {
        BudgetModel {
            byte_cap: self.daily_byte_cap,
            req_cap: self.hourly_req_cap,
            metered: self.metered,
            reqs: self.reqs@,
            bytes: self.bytes@,
        }
    }
}

impl Budget {
    /// A budget with nothing used.
    pub fn new(daily_byte_cap: u64, hourly_req_cap: u32, metered: Metered) -> (r: Self)
        ensures
            r@ == (BudgetModel {
                byte_cap: daily_byte_cap,
                req_cap: hourly_req_cap,
                metered,
                reqs: Seq::empty(),
                bytes: Seq::empty(),
            }),
    {
        Budget {
            daily_byte_cap,
            hourly_req_cap,
            metered,
            reqs: VecDeque::new(),
            bytes: VecDeque::new(),
        }
    }

    /// Drops what has rolled out of the windows.
    fn prune(&mut self, now: u64)
        ensures
            final(self)@ == old(self)@.pruned(now),
    {
        let ghost start = self@;
        while self.reqs.len() > 0 && now.saturating_sub(self.reqs[0]) >= HOUR_SECS
            invariant
                still_open(start.reqs, now, HOUR_SECS) == still_open(self@.reqs, now, HOUR_SECS),
                self@.bytes == start.bytes,
                self@.byte_cap == start.byte_cap,
                self@.req_cap == start.req_cap,
                self@.metered == start.metered,
            decreases self.reqs.len(),
        {
            let ghost before = self.reqs@;
            let _ = self.reqs.pop_front();
            proof { assert(self.reqs@ =~= before.drop_first()); }
        }
        while self.bytes.len() > 0 && now.saturating_sub(self.bytes[0].0) >= DAY_SECS
            invariant
                still_counted(start.bytes, now, DAY_SECS) == still_counted(
                    self@.bytes,
                    now,
                    DAY_SECS,
                ),
                self@.reqs == still_open(start.reqs, now, HOUR_SECS),
                self@.byte_cap == start.byte_cap,
                self@.req_cap == start.req_cap,
                self@.metered == start.metered,
            decreases self.bytes.len(),
        {
            let ghost before = self.bytes@;
            let _ = self.bytes.pop_front();
            proof { assert(self.bytes@ =~= before.drop_first()); }
        }
    }

    fn bytes_used(&self) -> (r: u64)
        ensures
            r == held64(bytes_in(self@.bytes)),
    {
        let mut sum: u64 = 0;
        let n: usize = self.bytes.len();
        for i in 0..n
            invariant
                n == self.bytes.len(),
                sum == held64(bytes_in(self.bytes@.take(i as int))),
        {
            proof {
                assert(self.bytes@.take(i + 1).drop_last() =~= self.bytes@.take(i as int));
            }
            sum = sum.saturating_add(self.bytes[i].1);
        }
        proof { assert(self.bytes@.take(n as int) =~= self.bytes@); }
        sum
    }

    fn requests_used(&self) -> (r: u32)
        ensures
            r == held32(self@.reqs.len()),
    {
        let n: u64 = self.reqs.len() as u64;
        if n <= 0xFFFF_FFFF {
            n as u32
        } else {
            0xFFFF_FFFF
        }
    }

    /// Whether a prefetch request may be made now.
    pub fn allows(&mut self, now: u64) -> (r: bool)
        ensures
            r == old(self)@.has_headroom(now),
            final(self)@ == if old(self)@.metered == Metered::Always {
                old(self)@
            } else {
                old(self)@.pruned(now)
            },
    {
        if self.metered == Metered::Always {
            return false;
        }
        self.prune(now);
        self.requests_used() < self.hourly_req_cap && self.bytes_used() < self.daily_byte_cap
    }

    /// Counts a request.
    pub fn record_request(&mut self, now: u64)
        ensures
            final(self)@ == (BudgetModel { reqs: old(self)@.reqs.push(now), ..old(self)@ }),
    {
        self.reqs.push_back(now);
    }

    /// Counts bytes; none leave no record.
    pub fn record_bytes(&mut self, now: u64, n: u64)
        ensures
            final(self)@ == (BudgetModel {
                bytes: if n > 0 {
                    old(self)@.bytes.push((now, n))
                } else {
                    old(self)@.bytes
                },
                ..old(self)@
            }),
    {
        if n > 0 {
            self.bytes.push_back((now, n));
        }
    }

    /// The state of the budget now.
    pub fn snapshot(&mut self, now: u64) -> (r: BudgetSnapshot)
        ensures
            final(self)@ == old(self)@.pruned(now),
            r == old(self)@.shown(now),
    {
        self.prune(now);
        BudgetSnapshot {
            requests_used: self.requests_used(),
            requests_cap: self.hourly_req_cap,
            bytes_used: self.bytes_used(),
            bytes_cap: self.daily_byte_cap,
            metered: self.metered,
            suspended: self.metered == Metered::Always,
        }
    }
}

/// A request is let through only while the day's bytes are below their cap,
/// so a single response is all that can overshoot it.
pub proof fn bytes_overshoot_by_one_response(b: BudgetModel, now: u64, n: u64)
    requires
        b.has_headroom(now),
    ensures
        bytes_in(b.pruned(now).bytes.push((now, n))) < b.byte_cap + n,
{
    let records = b.pruned(now).bytes;
    assert(records.push((now, n)).drop_last() =~= records);
}

/// Everything rolls off a window once it has passed.
pub proof fn windows_roll_off(b: BudgetModel, now: u64)
    requires
        forall|i: int| 0 <= i < b.reqs.len() ==> expired(now, #[trigger] b.reqs[i], HOUR_SECS),
        forall|i: int| 0 <= i < b.bytes.len() ==> expired(now, (#[trigger] b.bytes[i]).0, DAY_SECS),
    ensures
        b.pruned(now).reqs.len() == 0,
        b.pruned(now).bytes.len() == 0,
{
    lemma_all_open_gone(b.reqs, now, HOUR_SECS);
    lemma_all_counted_gone(b.bytes, now, DAY_SECS);
}

proof fn lemma_all_open_gone(times: Seq<u64>, now: u64, window: u64)
    requires
        forall|i: int| 0 <= i < times.len() ==> expired(now, #[trigger] times[i], window),
    ensures
        still_open(times, now, window).len() == 0,
    decreases times.len(),
{
    if times.len() > 0 {
        assert(expired(now, times[0], window));
        let rest = times.drop_first();
        assert forall|i: int| 0 <= i < rest.len() implies expired(now, #[trigger] rest[i], window)
            by {
            assert(expired(now, times[i + 1], window));
        }
        lemma_all_open_gone(rest, now, window);
    }
}

proof fn lemma_all_counted_gone(records: Seq<(u64, u64)>, now: u64, window: u64)
    requires
        forall|i: int| 0 <= i < records.len() ==> expired(now, (#[trigger] records[i]).0, window),
    ensures
        still_counted(records, now, window).len() == 0,
    decreases records.len(),
{
    if records.len() > 0 {
        assert(expired(now, records[0].0, window));
        let rest = records.drop_first();
        assert forall|i: int| 0 <= i < rest.len() implies expired(
            now,
            (#[trigger] rest[i]).0,
            window,
        ) by {
            assert(expired(now, records[i + 1].0, window));
        }
        lemma_all_counted_gone(rest, now, window);
    }
}

/// Opens after a number of consecutive failures and stays open for a while.
#[derive(Debug)]
pub struct CircuitBreaker {
    threshold: u32,
    cooldown_secs: u64,
    consecutive: u32,
    opened_at: Option<u64>,
}

/// A breaker's settings and state.
#[verifier::ext_equal]
pub struct BreakerModel {
    pub threshold: u32,
    pub cooldown: u64,
    pub consecutive: u32,
    pub opened_at: Option<u64>,
}

impl BreakerModel {
    /// Whether the breaker holds traffic back.
    pub open spec fn open_at(self, now: u64) -> bool {
        match self.opened_at {
            Some(t) => elapsed(now, t) < self.cooldown,
            None => false,
        }
    }

    /// The seconds until it lets traffic through.
    pub open spec fn wait(self, now: u64) -> nat {
        match self.opened_at {
            Some(t) => if elapsed(now, t) < self.cooldown {
                (self.cooldown - elapsed(now, t)) as nat
            } else {
                0
            },
            None => 0,
        }
    }

    /// After a success.
    pub open spec fn after_success(self) -> BreakerModel {
        BreakerModel { consecutive: 0, opened_at: None, ..self }
    }

    /// After a request that failed in a way that is not the server's.
    pub open spec fn after_soft_failure(self) -> BreakerModel {
        BreakerModel { consecutive: 0, ..self }
    }

    /// After the server refused or failed.
    pub open spec fn after_failure(self, now: u64) -> BreakerModel {
        let count = if self.consecutive < u32::MAX {
            (self.consecutive + 1) as u32
        } else {
            u32::MAX
        };
        BreakerModel {
            consecutive: count,
            opened_at: if count >= self.threshold {
                Some(now)
            } else {
                self.opened_at
            },
            ..self
        }
    }

    /// After `n` failures in a row at `now`.
    pub open spec fn after_failures(self, n: nat, now: u64) -> BreakerModel
        decreases n,
    {
        if n == 0 {
            self
        } else {
            self.after_failures((n - 1) as nat, now).after_failure(now)
        }
    }
}

impl View for CircuitBreaker {
    type V = BreakerModel;

    closed spec fn view(&self) -> BreakerModel {
        BreakerModel {
            threshold: self.threshold,
            cooldown: self.cooldown_secs,
            consecutive: self.consecutive,
            opened_at: self.opened_at,
        }
    }
}

impl CircuitBreaker {
    /// A closed breaker; the threshold is one at least.
    pub fn new(threshold: u32, cooldown_secs: u64) -> (r: Self)
        ensures
            r@ == (BreakerModel {
                threshold: if threshold < 1 {
                    1
                } else {
                    threshold
                },
                cooldown: cooldown_secs,
                consecutive: 0,
                opened_at: None,
            }),
    {
        CircuitBreaker {
            threshold: if threshold < 1 {
                1
            } else {
                threshold
            },
            cooldown_secs,
            consecutive: 0,
            opened_at: None,
        }
    }

    /// A success closes the breaker and ends the streak.
    pub fn on_success(&mut self)
        ensures
            final(self)@ == old(self)@.after_success(),
    {
        self.consecutive = 0;
        self.opened_at = None;
    }

    /// A failure that is not the server's ends the streak.
    pub fn on_soft_failure(&mut self)
        ensures
            final(self)@ == old(self)@.after_soft_failure(),
    {
        self.consecutive = 0;
    }

    /// A failure of the server lengthens the streak, and opens the breaker
    /// once that reaches the threshold.
    pub fn on_failure(&mut self, now: u64)
        ensures
            final(self)@ == old(self)@.after_failure(now),
    {
        self.consecutive = self.consecutive.saturating_add(1);
        if self.consecutive >= self.threshold {
            self.opened_at = Some(now);
        }
    }

    /// Whether the breaker holds traffic back.
    pub fn is_open(&self, now: u64) -> (r: bool)
        ensures
            r == self@.open_at(now),
    {
        match self.opened_at {
            Some(t) => now.saturating_sub(t) < self.cooldown_secs,
            None => false,
        }
    }

    /// The seconds until the breaker lets a probe through, 0 if it does.
    pub fn remaining_cooldown(&self, now: u64) -> (r: u64)
        ensures
            r as nat == self@.wait(now),
    {
        match self.opened_at {
            Some(t) => self.cooldown_secs.saturating_sub(now.saturating_sub(t)),
            None => 0,
        }
    }
}

proof fn lemma_failures(b: BreakerModel, n: nat, now: u64)
    requires
        n <= u32::MAX,
        b.consecutive == 0,
        b.threshold >= 1,
    ensures
        b.after_failures(n, now).consecutive == n,
        b.after_failures(n, now).threshold == b.threshold,
        b.after_failures(n, now).cooldown == b.cooldown,
        n < b.threshold ==> b.after_failures(n, now).opened_at == b.opened_at,
        n >= b.threshold ==> b.after_failures(n, now).opened_at == Some(now),
    decreases n,
{
    if n > 0 {
        lemma_failures(b, (n - 1) as nat, now);
    }
}

/// From an ended streak, exactly a threshold of consecutive failures opens a
/// closed breaker, and it stays open for its cooldown and no longer.
pub proof fn breaker_opens_at_the_threshold(b: BreakerModel, n: nat, now: u64, later: u64)
    requires
        n <= u32::MAX,
        b.consecutive == 0,
        b.opened_at is None,
        b.threshold >= 1,
        b.cooldown > 0,
        later >= now,
    ensures
        b.after_failures(n, now).open_at(later) <==> n >= b.threshold && later - now < b.cooldown,
{
    lemma_failures(b, n, now);
}

/// A success or a soft failure ends the streak, so that it takes a full
/// threshold of failures again.
pub proof fn streak_starts_over(b: BreakerModel, n: nat, now: u64)
    requires
        n < b.threshold,
        b.threshold >= 1,
    ensures
        b.after_success().after_failures(n, now).opened_at is None,
        b.after_soft_failure().after_failures(n, now).opened_at == b.opened_at,
{
    lemma_failures(b.after_success(), n, now);
    lemma_failures(b.after_soft_failure(), n, now);
}

/// A breaker that is open says for how long, and one that is not says zero.
pub proof fn open_breaker_has_a_wait(b: BreakerModel, now: u64)
    ensures
        b.open_at(now) <==> b.wait(now) > 0,
{
}

} // verus!
