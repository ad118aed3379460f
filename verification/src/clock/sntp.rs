//! SNTP exchanges against the monotonic clock, and the decisions of the poll loop.
//!
//! A client gives an offset and a round-trip delay, but its offset is measured against
//! the OS wall clock, which the time daemon steps and slews. What is wanted is the offset
//! against the *monotonic* clock, so every exchange is sandwiched between paired readings
//! of both. If the OS jumps the wall clock by D, the sandwiched midpoint gains D and the
//! reported offset loses exactly D, so the UTC derived is unchanged. The only case that
//! cannot be absorbed is a step inside the exchange itself, which shows as the two clocks
//! disagreeing about how much time just passed.

use crate::clock::ClockModel;
use crate::float::accuracy;
use crate::float::bounds;
use crate::float::error;
use crate::float::error::abs;
use crate::float::ops;
use crate::float::ops::Width;
use crate::float::round;
use crate::float::F64;
use crate::instants;
use crate::text;
use crate::text::push_decimal;
use crate::time;
use crate::time::{held_sum, Duration, Instant, GIGA};
use vstd::arithmetic::div_mod::*;
use vstd::arithmetic::power2::*;
use vstd::prelude::*;

verus! {

/// Default NTP port.
pub const NTP_PORT: u16 = 123;

/// Fixed part of the tolerance for wall-vs-monotonic disagreement during one exchange: a
/// millisecond, in seconds, as bits.
pub const STEP_TOLERANCE_BASE: u64 = 0x3F50_624D_D2F1_A9FC;

/// Proportional part: a thousand parts per million, as bits. Slewing is legitimate and can
/// legally run this fast, so the tolerance scales with the length of the exchange.
pub const STEP_TOLERANCE_RATE: u64 = 0x3F50_624D_D2F1_A9FC;

/// How long an exchange may take, in nanoseconds.
pub const EXCHANGE_TIMEOUT: u128 = 3_000_000_000;

/// The longest uninterrupted sleep, in nanoseconds.
pub const SLEEP_SLICE: u128 = 200_000_000;

/// One exchange, already re-expressed against the monotonic clock.
#[derive(Clone, Copy, PartialEq, Eq, Structural, Debug)]
pub struct Exchange {
    /// Midpoint of the exchange on the monotonic clock.
    pub mono_mid: Instant,
    /// UTC believed to hold at `mono_mid`, in unix nanoseconds.
    pub utc_mid_nanos: i128,
    pub delay: F64,
    pub offset: F64,
}

#[derive(Debug)]
pub enum Outcome {
    Good(Exchange),
    /// The wall clock and the monotonic clock disagreed about how much time passed, so
    /// something stepped the wall clock mid-exchange and this sample is unusable.
    Stepped { skew: F64 },
    Failed(String),
}

/// The clock readings around an exchange.
#[derive(Clone, Copy, PartialEq, Eq, Structural, Debug)]
pub struct Sandwich {
    pub mono_before: Instant,
    pub mono_after: Instant,
    /// The wall clock, in unix nanoseconds.
    pub sys_before: i128,
    pub sys_after: i128,
}

/// What the server's reply implied, in seconds.
#[derive(Clone, Copy, PartialEq, Eq, Structural, Debug)]
pub struct Reply {
    pub offset: F64,
    pub delay: F64,
}

impl Sandwich {
    /// The monotonic clock does not run backwards, and the wall clock's readings are far
    /// from the ends of their range.
    pub open spec fn wf(self) -> bool {
        &&& self.mono_before.nanos <= self.mono_after.nanos
        &&& i128::MIN / 4 < self.sys_before < i128::MAX / 4
        &&& i128::MIN / 4 < self.sys_after < i128::MAX / 4
    }

    pub open spec fn mono_elapsed(self) -> F64 {
        time::seconds((self.mono_after.nanos - self.mono_before.nanos) as nat)
    }

    /// How much more time passed on the wall clock than on the monotonic clock.
    pub open spec fn skew(self) -> F64 {
        F64::of_int(self.sys_after - self.sys_before).div_spec(F64 { bits: GIGA }).sub_spec(
            self.mono_elapsed(),
        )
    }

    /// The disagreement that is allowed.
    pub open spec fn tolerance(self) -> F64 {
        (F64 { bits: STEP_TOLERANCE_BASE }).add_spec(
            (F64 { bits: STEP_TOLERANCE_RATE }).mul_spec(self.mono_elapsed()),
        )
    }

    pub open spec fn stepped(self) -> bool {
        self.tolerance().lt_spec(self.skew().abs_spec())
    }

    /// The midpoint of the wall clock's readings, cut towards zero.
    pub open spec fn sys_mid(self) -> int {
        let sum = self.sys_before + self.sys_after;
        if sum < 0 {
            -((-sum) / 2)
        } else {
            sum / 2
        }
    }

    /// The exchange in the monotonic domain: midpoints on both clocks, and the offset
    /// applied at the wall clock's.
    pub open spec fn exchange(self, reply: Reply) -> Exchange {
        Exchange {
            mono_mid: Instant {
                nanos: (self.mono_before.nanos + (self.mono_after.nanos - self.mono_before.nanos)
                    / 2) as i64,
            },
            utc_mid_nanos: time::held(
                self.sys_mid() + reply.offset.mul_spec(F64 { bits: GIGA }).round_i128_spec(),
            ) as i128,
            delay: reply.delay,
            offset: reply.offset,
        }
    }
}

/// Converts one exchange into the monotonic domain.
pub fn exchange(around: Sandwich, reply: Result<Reply, String>) -> (r: Outcome)
    requires
        around.wf(),
    ensures
        (match (reply, r) {
            (Err(e), Outcome::Failed(why)) => why@ == e@,
            (Err(_), _) => false,
            (Ok(_), Outcome::Stepped { skew }) => around.stepped() && skew == around.skew(),
            (Ok(ok), Outcome::Good(ex)) => !around.stepped() && ex == around.exchange(ok),
            (Ok(_), Outcome::Failed(_)) => false,
        }),
{
    let reply: Reply = match reply {
        Ok(ok) => ok,
        Err(e) => return Outcome::Failed(e),
    };
    let span: i128 = around.mono_after.since(around.mono_before);
    let mono_elapsed: F64 = Duration { nanos: span as u128 }.as_secs_f64();
    let sys_elapsed: F64 = F64::from_i128(around.sys_after - around.sys_before).div(
        F64 { bits: GIGA },
    );
    let skew: F64 = sys_elapsed.sub(mono_elapsed);
    let tolerance: F64 = (F64 { bits: STEP_TOLERANCE_BASE }).add(
        (F64 { bits: STEP_TOLERANCE_RATE }).mul(mono_elapsed),
    );
    if tolerance.lt(skew.abs()) {
        return Outcome::Stepped { skew };
    }
    let sum: i128 = around.sys_before + around.sys_after;
    let sys_mid: i128 = if sum < 0 { -((-sum) / 2) } else { sum / 2 };
    let mono_mid = Instant { nanos: (around.mono_before.nanos as i128 + span / 2) as i64 };
    let utc_mid_nanos: i128 = held_sum(
        sys_mid,
        reply.offset.mul(F64 { bits: GIGA }).round_i128(),
    );
    Outcome::Good(
        Exchange { mono_mid, utc_mid_nanos, delay: reply.delay, offset: reply.offset },
    )
}

/// The position of the first `c` in `s`, or the length where there is none.
pub open spec fn first_of(s: Seq<char>, c: char) -> int
    decreases s.len(),
{
    if s.len() == 0 {
        0
    } else if s[0] == c {
        0
    } else {
        1 + first_of(s.skip(1), c)
    }
}

fn find_char(s: &str, from: usize, c: char) -> (r: usize)
    requires
        from <= s@.len() <= usize::MAX,
    ensures
        r == from + first_of(s@.skip(from as int), c),
        from <= r <= s@.len(),
        r < s@.len() ==> s@[r as int] == c,
    decreases s@.len() - from,
{
    let n: usize = s.unicode_len();
    if from == n {
        return from;
    }
    assert(s@.skip(from as int)[0] == s@[from as int]);
    if s.get_char(from) == c {
        return from;
    }
    assert(s@.skip(from as int).skip(1) =~= s@.skip(from + 1));
    find_char(s, from + 1, c)
}

/// Whether a server is written with a port of its own. A bracketed IPv6 literal has one
/// only where a colon follows the bracket; anything else has one where it holds a colon.
pub open spec fn names_port(server: Seq<char>) -> bool {
    if server.len() > 0 && server[0] == '[' {
        let close = first_of(server.skip(1), ']') + 1;
        close + 1 < server.len() && server[close + 1] == ':'
    } else {
        first_of(server, ':') < server.len()
    }
}

/// A server as typed, with the default port added where it names none. A bare IPv6
/// literal is nothing but colons, so it has to be recognised first, and is bracketed.
pub open spec fn with_port_spec(server: Seq<char>, bare_ipv6: bool) -> Seq<char> {
    if bare_ipv6 {
        "["@ + server + "]:"@ + text::decimal(NTP_PORT as nat)
    } else if names_port(server) {
        server
    } else {
        server + ":"@ + text::decimal(NTP_PORT as nat)
    }
}

/// What a user-typed server is looked up as. `bare_ipv6` says whether the whole of it
/// parses as an IPv6 address.
pub fn with_port(server: &str, bare_ipv6: bool) -> (r: String)
    requires
        server@.len() < usize::MAX,
    ensures
        r@ == with_port_spec(server@, bare_ipv6),
{
    if bare_ipv6 {
        let mut s: String = String::from_str("[");
        s.append(server);
        s.append("]:");
        push_decimal(&mut s, NTP_PORT as u128);
        return s;
    }
    let n: usize = server.unicode_len();
    let named: bool = if n > 0 && server.get_char(0) == '[' {
        let close: usize = find_char(server, 1, ']');
        close < n && close + 1 < n && server.get_char(close + 1) == ':'
    } else {
        assert(server@.skip(0) =~= server@);
        find_char(server, 0, ':') < n
    };
    let mut s: String = String::from_str(server);
    if !named {
        s.append(":");
        push_decimal(&mut s, NTP_PORT as u128);
    }
    s
}

/// What the poll loop does next.
#[derive(Clone, Copy, PartialEq, Eq, Structural, Debug)]
pub enum PollAction {
    /// Look the server up.
    Resolve,
    /// Exchange with the address that was found.
    Exchange,
    /// Wait out the poll interval, then ask [`poll_next`] again.
    Wait,
}

/// The start of a round. A server is looked up lazily, and again after a failure, so one
/// that was down at launch recovers without a restart.
pub fn poll_next(resolved: bool) -> (r: PollAction)
    ensures
        r == if resolved {
            PollAction::Exchange
        } else {
            PollAction::Resolve
        },
{
    if resolved {
        PollAction::Exchange
    } else {
        PollAction::Resolve
    }
}

/// The lookup came back.
pub fn poll_resolved(model: &mut ClockModel, found: bool) -> (r: PollAction)
    requires
        !found ==> old(model).failed < u64::MAX,
    ensures
        found ==> r == PollAction::Exchange && *final(model) == *old(model),
        !found ==> r == PollAction::Wait && final(model).failed == old(model).failed + 1
            && final(model).rejected == old(model).rejected && final(model).same_samples(
            old(model),
        ),
{
    if found {
        PollAction::Exchange
    } else {
        model.record_failure();
        PollAction::Wait
    }
}

/// The exchange came back: the model learns from it, and the address is kept unless the
/// exchange failed. A round always ends in a wait.
pub fn poll_exchanged(model: &mut ClockModel, outcome: &Outcome) -> (keep_address: bool)
    requires
        old(model).wf(),
        outcome is Stepped ==> old(model).rejected < u64::MAX,
        outcome is Failed ==> old(model).failed < u64::MAX,
    ensures
        final(model).wf(),
        keep_address == !(outcome is Failed),
        (match *outcome {
            Outcome::Good(ex) => {
                &&& final(model).base_mono == old(model).base_mono
                &&& final(model).base_utc_nanos == Some(
                    old(model).pinned(ex.mono_mid, ex.utc_mid_nanos),
                )
                &&& final(model).log@ == old(model).log@.push(
                    crate::clock::sample_of(
                        old(model).base_mono,
                        old(model).pinned(ex.mono_mid, ex.utc_mid_nanos),
                        ex.mono_mid,
                        ex.utc_mid_nanos,
                        ex.delay,
                        ex.offset,
                    ),
                )
                &&& final(model).accepted == old(model).accepted + 1
                &&& final(model).rejected == old(model).rejected
                &&& final(model).failed == old(model).failed
            },
            Outcome::Stepped { .. } => final(model).rejected == old(model).rejected + 1
                && final(model).failed == old(model).failed && final(model).same_samples(
                old(model),
            ),
            Outcome::Failed(_) => final(model).failed == old(model).failed + 1
                && final(model).rejected == old(model).rejected && final(model).same_samples(
                old(model),
            ),
        }),
{
    match outcome {
        Outcome::Good(ex) => {
            model.push(ex.mono_mid, ex.utc_mid_nanos, ex.delay, ex.offset);
            true
        },
        Outcome::Stepped { .. } => {
            model.record_stepped();
            true
        },
        Outcome::Failed(_) => {
            model.record_failure();
            false
        },
    }
}

/// How long to sleep next on the way to `deadline`, in slices so that a shutdown does not
/// wait out a whole interval; `None` once the deadline has passed or a stop was asked for.
pub fn next_sleep(now: Instant, deadline: Instant, stop: bool) -> (r: Option<Duration>)
    ensures
        r is None <==> stop || now.nanos >= deadline.nanos,
        r is Some ==> r->0.nanos == if deadline.nanos - now.nanos < SLEEP_SLICE {
            deadline.nanos - now.nanos
        } else {
            SLEEP_SLICE as int
        },
{
    if stop || now.nanos >= deadline.nanos {
        return None;
    }
    let remaining: u128 = deadline.since(now) as u128;
    if remaining < SLEEP_SLICE {
        Some(Duration { nanos: remaining })
    } else {
        Some(Duration { nanos: SLEEP_SLICE })
    }
}

/// The readings around an exchange on a wall clock that was stepped by `d` nanoseconds before
/// it.
pub open spec fn stepped_by(s: Sandwich, d: int) -> Sandwich {
    Sandwich {
        mono_before: s.mono_before,
        mono_after: s.mono_after,
        sys_before: (s.sys_before + d) as i128,
        sys_after: (s.sys_after + d) as i128,
    }
}

/// The server's offset in whole nanoseconds.
pub open spec fn offset_nanos(reply: Reply) -> int {
    reply.offset.mul_spec(F64 { bits: GIGA }).round_i128_spec() as int
}

/// A step of the wall clock before an exchange changes nothing that is derived from it: the
/// readings gain `d` nanoseconds and the server's offset loses the same, so the exchange is
/// judged and placed as it was. The midpoint is cut towards zero, so a step that carries an odd
/// sum of readings across the epoch moves it by one nanosecond at most.
pub proof fn law_a_step_before_the_exchange_cancels(s: Sandwich, d: int, plain: Reply, moved: Reply)
    requires
        s.wf(),
        i128::MIN / 4 < s.sys_before + d < i128::MAX / 4,
        i128::MIN / 4 < s.sys_after + d < i128::MAX / 4,
        offset_nanos(moved) == offset_nanos(plain) - d,
    ensures
        ({
            let t = stepped_by(s, d);
            let sum = s.sys_before + s.sys_after;
            let a = s.exchange(plain);
            let b = t.exchange(moved);
            &&& t.wf()
            &&& t.skew() == s.skew()
            &&& t.stepped() == s.stepped()
            &&& b.mono_mid == a.mono_mid
            &&& -1 <= b.utc_mid_nanos - a.utc_mid_nanos <= 1
            &&& sum % 2 == 0 || (sum < 0) == (sum + 2 * d < 0) ==> b.utc_mid_nanos
                == a.utc_mid_nanos
        }),
{
    let t = stepped_by(s, d);
    assert(t.sys_before == s.sys_before + d);
    assert(t.sys_after == s.sys_after + d);
}

/// An exchange is placed halfway between the readings around it, on both clocks, and the server's
/// offset is added to the wall clock's: UTC is what the wall clock showed in the middle, and the
/// offset later, to within two nanoseconds and one part in two to the power of fifty.
pub proof fn law_an_exchange_is_placed_in_its_middle(s: Sandwich, reply: Reply)
    requires
        s.wf(),
        reply.offset.is_finite_spec(),
        abs(reply.offset.value()) <= pow2(1134),
    ensures
        ({
            let one = pow2(1074) as int;
            let e = s.exchange(reply);
            let o = reply.offset.value();
            &&& -1 <= 2 * e.mono_mid.nanos - (s.mono_before.nanos + s.mono_after.nanos) <= 0
            &&& 0x4_0000_0000_0000 * abs(
                (2 * e.utc_mid_nanos - (s.sys_before + s.sys_after)) * one - 2_000_000_000 * o,
            ) <= 2_000_000_000 * abs(o) + 0xC_0000_0000_0000 * one
            &&& e.delay == reply.delay
            &&& e.offset == reply.offset
        }),
{
    let u = pow2(1074) as int;
    instants::lemma_seconds_to_nanos(reply.offset);
    lemma_pow2_pos(1074);
    round::lemma_pow2_127();
    lemma_pow2_strictly_increases(100, 124);
    lemma_pow2_adds(124, 3);
    lemma2_to64();
    let r = offset_nanos(reply);
    let mid = s.sys_mid();
    let sum = s.sys_before + s.sys_after;
    let e = s.exchange(reply);
    assert(e.utc_mid_nanos == mid + r);
    let x = 2 * mid - sum;
    assert(-1 <= x <= 1);
    assert((2 * e.utc_mid_nanos - sum) * u == x * u + 2 * (r * u)) by (nonlinear_arith)
        requires
            e.utc_mid_nanos == mid + r,
            x == 2 * mid - sum,
    ;
    assert(abs(x * u) <= u) by (nonlinear_arith)
        requires
            -1 <= x <= 1,
            u > 0,
    ;
}

/// A thousandth as a double.
proof fn lemma_thousandth()
    ensures
        (F64 { bits: STEP_TOLERANCE_BASE }).is_finite_spec(),
        (F64 { bits: STEP_TOLERANCE_RATE }).is_finite_spec(),
        pow2(1074) <= 1000 * (F64 { bits: STEP_TOLERANCE_BASE }).value() <= pow2(1074) + pow2(1019),
        pow2(1074) <= 1000 * (F64 { bits: STEP_TOLERANCE_RATE }).value() <= pow2(1074) + pow2(1019),
        pow2(1074) == 0x80_0000_0000_0000 * pow2(1019),
{
    lemma2_to64();
    lemma2_to64_rest();
    lemma_fundamental_div_mod_converse(
        STEP_TOLERANCE_BASE as int,
        pow2(52) as int,
        1013,
        0x0_624D_D2F1_A9FC,
    );
    lemma_pow2_adds(62, 1012);
    lemma_pow2_adds(7, 1012);
    lemma_pow2_adds(55, 1019);
    let t = pow2(1012) as int;
    lemma_pow2_pos(1012);
    assert(1000 * (0x10_624D_D2F1_A9FC * t) == 0x4000_0000_0000_0000 * t + 96 * t)
        by (nonlinear_arith);
}

/// The steps to the tolerance: `r` is the rate and `b` the base, both close to a thousandth of
/// one, `e` the nanoseconds that went by, `x` the same in seconds, `p` the rate times them and `t`
/// the sum.
proof fn lemma_tolerance_steps(b: int, r: int, e: int, x: int, p: int, t: int, u: int, w: int)
    requires
        w > 0x1_0000_0000_0000_0000,
        u == 0x80_0000_0000_0000 * w,
        e >= 0,
        u <= 1000 * b <= u + w,
        u <= 1000 * r <= u + w,
        0x4_0000_0000_0000 * abs(1_000_000_000 * x - e * u) <= e * u,
        0x20_0000_0000_0000 * abs(p * u - r * x) <= abs(r * x) + 0x10_0000_0000_0000 * u,
        0x20_0000_0000_0000 * abs(t - (b + p)) <= abs(b + p),
    ensures
        0x1_0000_0000_0000 * abs(1_000_000_000_000 * t - (1_000_000_000 + e) * u) <= (1_000_000_000
            + e) * u,
{
    let eu = e * u;
    assert(eu >= 0) by (nonlinear_arith)
        requires
            eu == e * u,
            e >= 0,
            u > 0,
    ;
    assert(x >= 0);
    let rx = r * x;
    let xu = x * u;
    let xw = x * w;
    assert(xu <= 1000 * rx <= xu + xw) by (nonlinear_arith)
        requires
            u <= 1000 * r <= u + w,
            rx == r * x,
            xu == x * u,
            xw == x * w,
            x >= 0,
    ;
    assert(xu == 0x80_0000_0000_0000 * xw) by (nonlinear_arith)
        requires
            u == 0x80_0000_0000_0000 * w,
            xu == x * u,
            xw == x * w,
    ;
    // The product, without the factor.
    let g = 1000 * p - x;
    assert(1000 * (p * u) - xu == g * u) by (nonlinear_arith)
        requires
            g == 1000 * p - x,
            xu == x * u,
    ;
    assert(abs(g * u) == abs(g) * u) by (nonlinear_arith)
        requires
            u > 0,
    ;
    assert(0x8_0000_0000_0000 * (abs(g) * u) <= xu + 0x1000_0000_0000_0000 * u);
    assert(0x8_0000_0000_0000 * abs(g) <= x + 0x1000_0000_0000_0000) by (nonlinear_arith)
        requires
            0x8_0000_0000_0000 * (abs(g) * u) <= x * u + 0x1000_0000_0000_0000 * u,
            u > 0,
    {
        assert((0x8_0000_0000_0000 * abs(g)) * u <= (x + 0x1000_0000_0000_0000) * u);
    }
    let n = 1_000_000_000 * u + eu;
    assert((1_000_000_000 + e) * u == n) by (nonlinear_arith)
        requires
            n == 1_000_000_000 * u + e * u,
    ;
}

/// An exchange is given up exactly where the wall clock gained or lost more against the monotonic
/// clock than a millisecond and a thousandth of the time that it took, whichever way it was
/// stepped. Ten nanoseconds and one part in two to the power of thirty are left open on either
/// side, since the comparison is between doubles.
pub proof fn law_a_step_is_noticed_either_way(s: Sandwich)
    requires
        s.wf(),
    ensures
        ({
            let took = s.mono_after.nanos - s.mono_before.nanos;
            let shown = s.sys_after - s.sys_before;
            let over = 1000 * abs(shown - took) - (1_000_000_000 + took);
            let slack = 0x4000_0000 * 10_000 + abs(shown) + took;
            &&& 0x4000_0000 * over > slack ==> s.stepped()
            &&& 0x4000_0000 * over < -slack ==> !s.stepped()
        }),
{
    let u = pow2(1074) as int;
    let w = pow2(1019) as int;
    let took = s.mono_after.nanos - s.mono_before.nanos;
    let shown = s.sys_after - s.sys_before;
    let base = F64 { bits: STEP_TOLERANCE_BASE };
    let rate = F64 { bits: STEP_TOLERANCE_RATE };
    let x = s.mono_elapsed();
    let y = F64::of_int(shown).div_spec(F64 { bits: GIGA });
    lemma_thousandth();
    lemma_pow2_pos(1074);
    lemma2_to64();
    lemma_pow2_strictly_increases(64, 1019);
    instants::lemma_seconds(took);
    instants::lemma_nanos_in_seconds(shown);
    time::lemma_signed_seconds_within(took);
    time::lemma_nanos_in_seconds_within(shown);
    assert(x == time::signed_seconds(took));
    // The skew.
    bounds::lemma_within_more(x, 1140, 1201);
    bounds::lemma_difference_within(y, x, 1201);
    let k = s.skew();
    error::lemma_finite_difference(y, x);
    // The tolerance.
    assert(bounds::within(rate, 1074) && bounds::within(base, 1074));
    bounds::lemma_product_within(rate, x, 1074, 1140);
    let p = rate.mul_spec(x);
    error::lemma_finite_product(rate, x);
    bounds::lemma_within_more(base, 1074, 1140);
    bounds::lemma_sum_within(base, p, 1140);
    let t = s.tolerance();
    error::lemma_finite_sum(base, p);
    assert(abs(took) * u == took * u);
    lemma_tolerance_steps(
        base.value(),
        rate.value(),
        took,
        x.value(),
        p.value(),
        t.value(),
        u,
        w,
    );
    // The comparison.
    let a = k.abs_spec();
    assert(ops::magnitude_bits(Width::Double, a.bits as nat) == ops::magnitude_bits(
        Width::Double,
        k.bits as nat,
    ));
    assert(a.value() == abs(k.value()));
    accuracy::lemma_finite_order(Width::Double, a.bits as nat, t.bits as nat);
    assert(s.stepped() <==> t.value() < abs(k.value()));
    lemma_skew_steps(shown, took, y.value(), x.value(), k.value(), t.value(), u);
}

/// The last steps: `y` and `x` are what went by on the two clocks, in seconds, `k` what they
/// differ by and `t` the tolerance.
proof fn lemma_skew_steps(shown: int, took: int, y: int, x: int, k: int, t: int, u: int)
    requires
        u > 0,
        took >= 0,
        0x4_0000_0000_0000 * abs(1_000_000_000 * y - shown * u) <= abs(shown) * u,
        0x4_0000_0000_0000 * abs(1_000_000_000 * x - took * u) <= took * u,
        0x20_0000_0000_0000 * abs(k - (y - x)) <= abs(y - x),
        0x1_0000_0000_0000 * abs(1_000_000_000_000 * t - (1_000_000_000 + took) * u) <= (
        1_000_000_000 + took) * u,
    ensures
        ({
            let over = 1000 * abs(shown - took) - (1_000_000_000 + took);
            let slack = 0x4000_0000 * 10_000 + abs(shown) + took;
            &&& 0x4000_0000 * over > slack ==> t < abs(k)
            &&& 0x4000_0000 * over < -slack ==> t >= abs(k)
        }),
{
    let su = shown * u;
    let tu = took * u;
    let au = abs(shown) * u;
    assert(abs(su) == au && tu >= 0) by (nonlinear_arith)
        requires
            su == shown * u,
            au == abs(shown) * u,
            tu == took * u,
            took >= 0,
            u > 0,
    ;
    assert((1_000_000_000 + took) * u == 1_000_000_000 * u + tu) by (nonlinear_arith)
        requires
            tu == took * u,
    ;
    let d = abs(shown - took);
    let du = d * u;
    assert(du == abs(su - tu)) by (nonlinear_arith)
        requires
            du == d * u,
            d == abs(shown - took),
            su == shown * u,
            tu == took * u,
            u > 0,
    {
        assert(su - tu == (shown - took) * u);
    }
    let over = 1000 * d - (1_000_000_000 + took);
    let slack = 0x4000_0000 * 10_000 + abs(shown) + took;
    let ou = over * u;
    let lu = slack * u;
    assert(ou == 1000 * du - 1_000_000_000 * u - tu) by (nonlinear_arith)
        requires
            ou == over * u,
            over == 1000 * d - (1_000_000_000 + took),
            du == d * u,
            tu == took * u,
    ;
    assert(lu == 0x4000_0000 * (10_000 * u) + au + tu) by (nonlinear_arith)
        requires
            lu == slack * u,
            slack == 0x4000_0000 * 10_000 + abs(shown) + took,
            au == abs(shown) * u,
            tu == took * u,
    ;
    if 0x4000_0000 * over > slack {
        assert(0x4000_0000 * ou > lu) by (nonlinear_arith)
            requires
                0x4000_0000 * over > slack,
                ou == over * u,
                lu == slack * u,
                u > 0,
        {
            assert((0x4000_0000 * over) * u > slack * u);
        }
    }
    if 0x4000_0000 * over < -slack {
        assert(0x4000_0000 * ou < -lu) by (nonlinear_arith)
            requires
                0x4000_0000 * over < -slack,
                ou == over * u,
                lu == slack * u,
                u > 0,
        {
            assert((0x4000_0000 * over) * u < (-slack) * u);
            assert((-slack) * u == -(slack * u));
        }
    }
}

/// The first place of a character is the first one.
proof fn lemma_first_of(s: Seq<char>, c: char)
    ensures
        0 <= first_of(s, c) <= s.len(),
        forall|i: int| 0 <= i < first_of(s, c) ==> #[trigger] s[i] != c,
        first_of(s, c) < s.len() ==> s[first_of(s, c)] == c,
    decreases s.len(),
{
    if s.len() > 0 && s[0] != c {
        lemma_first_of(s.skip(1), c);
        assert forall|i: int| 0 <= i < first_of(s, c) implies #[trigger] s[i] != c by {
            if i > 0 {
                assert(s.skip(1)[i - 1] == s[i]);
            }
        }
    }
}

/// A server is asked at the port that was typed with it, and at 123 where none was. A plain name
/// has one typed where there is a colon in it, an address in brackets where one follows them. An
/// IPv6 address without brackets is put into them, since all its colons are its own.
pub proof fn law_a_server_is_asked_at_its_port(
    server: Seq<char>,
    host: Seq<char>,
    behind: Seq<char>,
)
    requires
        !host.contains(']'),
    ensures
        with_port_spec(server, true) == "["@ + server + "]:123"@,
        server.len() > 0 && server[0] == '[' || with_port_spec(server, false) == if server.contains(
            ':',
        ) {
            server
        } else {
            server + ":123"@
        },
        ({
            let bracketed = "["@ + host + "]"@ + behind;
            with_port_spec(bracketed, false) == if behind.len() > 0 && behind[0] == ':' {
                bracketed
            } else {
                bracketed + ":123"@
            }
        }),
{
    reveal_strlit("[");
    reveal_strlit("]");
    reveal_strlit(":");
    reveal_strlit("]:");
    reveal_strlit(":123");
    reveal_strlit("]:123");
    reveal_with_fuel(text::decimal, 3);
    let port = text::decimal(NTP_PORT as nat);
    assert(port =~= seq!['1', '2', '3']);
    assert("["@ + server + "]:"@ + port =~= "["@ + server + "]:123"@);
    assert(server + ":"@ + port =~= server + ":123"@);
    lemma_first_of(server, ':');
    assert(server.contains(':') <==> first_of(server, ':') < server.len());
    let b = "["@ + host + "]"@ + behind;
    let rest = b.skip(1);
    assert(b[0] == '[');
    assert(rest =~= host + "]"@ + behind);
    lemma_first_of(rest, ']');
    assert(rest[host.len() as int] == ']');
    assert(first_of(rest, ']') == host.len()) by {
        if first_of(rest, ']') < host.len() {
            assert(host[first_of(rest, ']')] == ']');
        }
    }
    if behind.len() > 0 {
        assert(b[host.len() as int + 2] == behind[0]);
    }
    assert(b + ":"@ + port =~= b + ":123"@);
}

} // verus!
