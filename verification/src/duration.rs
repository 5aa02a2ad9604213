//! A span of time held as whole seconds plus a nanosecond remainder.
//!
//! Every operation is stated over the total number of nanoseconds (the view).

use vstd::prelude::*;

verus! {

/// Nanoseconds in one second.
pub const NANOS_PER_SEC: u32 = 1_000_000_000;

/// The largest number of nanoseconds a `Duration` can hold.
pub open spec fn max_nanos() -> nat {
    18_446_744_073_709_551_615nat * 1_000_000_000nat + 999_999_999nat
}

/// A span of time: `secs` seconds and `nanos` nanoseconds, `nanos < NANOS_PER_SEC`.
#[derive(Clone, Copy, Debug, PartialEq, Eq, Structural)]
pub struct Duration {
    secs: u64,
    nanos: u32,
}

impl View for Duration {
    type V = nat;

    /// Total length in nanoseconds.
    closed spec fn view(&self) -> nat {
        self.secs as nat * 1_000_000_000 + self.nanos as nat
    }
}

impl Duration {
    #[verifier::type_invariant]
    spec fn inv(self) -> bool {
        self.nanos < NANOS_PER_SEC
    }

    /// The empty span.
    pub fn zero() -> (d: Duration)
        ensures
            d@ == 0,
    {
        Duration { secs: 0, nanos: 0 }
    }

    /// `secs` seconds plus `nanos` nanoseconds; nanoseconds beyond one second
    /// carry into the seconds.
    pub fn new(secs: u64, nanos: u32) -> (d: Duration)
        requires
            secs * 1_000_000_000 + nanos <= max_nanos(),
        ensures
            d@ == secs * 1_000_000_000 + nanos,
    {
        let extra: u32 = nanos / NANOS_PER_SEC;
        let rest: u32 = nanos % NANOS_PER_SEC;
        assert(secs + extra <= u64::MAX) by (nonlinear_arith)
            requires
                secs * 1_000_000_000 + nanos <= max_nanos(),
                extra == nanos / 1_000_000_000,
                secs <= u64::MAX,
        ;
        Duration { secs: secs + extra as u64, nanos: rest }
    }

    /// A span of `nanos` nanoseconds.
    pub fn from_nanos(nanos: u64) -> (d: Duration)
        ensures
            d@ == nanos,
    {
        let secs: u64 = nanos / 1_000_000_000;
        let rest: u64 = nanos % 1_000_000_000;
        Duration { secs, nanos: rest as u32 }
    }

    /// A span of `millis` milliseconds.
    pub fn from_millis(millis: u64) -> (d: Duration)
        ensures
            d@ == millis * 1_000_000,
    {
        let secs: u64 = millis / 1000;
        let rest: u64 = millis % 1000;
        let nanos: u32 = (rest * 1_000_000) as u32;
        Duration { secs, nanos }
    }

    /// Whole seconds.
    pub fn as_secs(&self) -> (s: u64)
        ensures
            s == self@ / 1_000_000_000,
    {
        proof {
            use_type_invariant(self);
        }
        self.secs
    }

    /// Nanoseconds beyond the whole seconds.
    pub fn subsec_nanos(&self) -> (n: u32)
        ensures
            n == self@ % 1_000_000_000,
            n < NANOS_PER_SEC,
    {
        proof {
            use_type_invariant(self);
        }
        self.nanos
    }

    /// Total length in nanoseconds.
    pub fn as_nanos(&self) -> (n: u128)
        ensures
            n == self@,
    {
        self.secs as u128 * 1_000_000_000 + self.nanos as u128
    }

    /// The sum of two spans; the sum must fit.
    pub fn plus(self, rhs: Duration) -> (d: Duration)
        requires
            self@ + rhs@ <= max_nanos(),
        ensures
            d@ == self@ + rhs@,
    {
        proof {
            use_type_invariant(self);
            use_type_invariant(rhs);
        }
        let nanos: u32 = self.nanos + rhs.nanos;
        if nanos >= NANOS_PER_SEC {
            assert(self.secs + rhs.secs + 1 <= u64::MAX) by (nonlinear_arith)
                requires
                    self.secs * 1_000_000_000 + self.nanos + rhs.secs * 1_000_000_000 + rhs.nanos
                        <= max_nanos(),
                    self.nanos + rhs.nanos >= 1_000_000_000,
                    self.nanos < 1_000_000_000,
                    rhs.nanos < 1_000_000_000,
            ;
            Duration { secs: self.secs + rhs.secs + 1, nanos: nanos - NANOS_PER_SEC }
        } else {
            assert(self.secs + rhs.secs <= u64::MAX) by (nonlinear_arith)
                requires
                    self.secs * 1_000_000_000 + self.nanos + rhs.secs * 1_000_000_000 + rhs.nanos
                        <= max_nanos(),
            ;
            Duration { secs: self.secs + rhs.secs, nanos }
        }
    }

    /// The sum of two spans, or `None` when it does not fit.
    pub fn checked_plus(self, rhs: Duration) -> (r: Option<Duration>)
        ensures
            r is Some <==> self@ + rhs@ <= max_nanos(),
            r matches Some(d) ==> d@ == self@ + rhs@,
    {
        let total: u128 = self.as_nanos() + rhs.as_nanos();
        if total <= 18_446_744_073_709_551_615_999_999_999u128 {
            Some(self.plus(rhs))
        } else {
            None
        }
    }

    /// The difference of two spans; `rhs` must not be longer than `self`.
    pub fn minus(self, rhs: Duration) -> (d: Duration)
        requires
            self@ >= rhs@,
        ensures
            d@ == self@ - rhs@,
    {
        proof {
            use_type_invariant(self);
            use_type_invariant(rhs);
        }
        if self.nanos >= rhs.nanos {
            assert(self.secs >= rhs.secs) by (nonlinear_arith)
                requires
                    self.secs * 1_000_000_000 + self.nanos >= rhs.secs * 1_000_000_000 + rhs.nanos,
                    self.nanos < 1_000_000_000,
            ;
            Duration { secs: self.secs - rhs.secs, nanos: self.nanos - rhs.nanos }
        } else {
            assert(self.secs >= rhs.secs + 1) by (nonlinear_arith)
                requires
                    self.secs * 1_000_000_000 + self.nanos >= rhs.secs * 1_000_000_000 + rhs.nanos,
                    self.nanos < rhs.nanos,
            ;
            Duration {
                secs: self.secs - rhs.secs - 1,
                nanos: NANOS_PER_SEC - rhs.nanos + self.nanos,
            }
        }
    }

    /// The span divided by `rhs`, rounded down to a whole nanosecond.
    pub fn div_u32(self, rhs: u32) -> (d: Duration)
        requires
            rhs > 0,
        ensures
            d@ == self@ / (rhs as nat),
    {
        proof {
            use_type_invariant(self);
        }
        let r: u64 = rhs as u64;
        let secs: u64 = self.secs / r;
        let extra_secs: u64 = self.secs % r;
        let nanos: u32 = self.nanos / rhs;
        let extra_nanos: u32 = self.nanos % rhs;
        assert(extra_nanos <= self.nanos) by (nonlinear_arith)
            requires
                extra_nanos == self.nanos % rhs,
                rhs > 0,
        ;
        assert(extra_secs * 1_000_000_000 + extra_nanos < r * 1_000_000_000) by (nonlinear_arith)
            requires
                extra_secs < r,
                extra_nanos < 1_000_000_000,
                r >= 1,
        ;
        assert(r * 1_000_000_000 <= u64::MAX) by (nonlinear_arith)
            requires
                r <= 0xffff_ffff,
        ;
        let carry: u64 = (extra_secs * 1_000_000_000 + extra_nanos as u64) / r;
        proof {
            Self::lemma_div_parts(
                self.secs as int,
                self.nanos as int,
                r as int,
                secs as int,
                extra_secs as int,
                nanos as int,
                extra_nanos as int,
                carry as int,
            );
        }
        Duration { secs, nanos: nanos + carry as u32 }
    }

    proof fn lemma_div_parts(s: int, n: int, r: int, q: int, es: int, qn: int, en: int, c: int)
        requires
            r >= 1,
            s >= 0,
            0 <= n < 1_000_000_000,
            q == s / r,
            es == s % r,
            qn == n / r,
            en == n % r,
            c == (es * 1_000_000_000 + en) / r,
        ensures
            qn + c < 1_000_000_000,
            q * 1_000_000_000 + qn + c == (s * 1_000_000_000 + n) / r,
    {
        assert(s == q * r + es && 0 <= es < r) by (nonlinear_arith)
            requires
                r >= 1,
                q == s / r,
                es == s % r,
        ;
        assert(n == qn * r + en && 0 <= en < r) by (nonlinear_arith)
            requires
                r >= 1,
                qn == n / r,
                en == n % r,
        ;
        let t = es * 1_000_000_000 + en;
        assert(t == c * r + t % r && 0 <= t % r < r) by (nonlinear_arith)
            requires
                r >= 1,
                c == t / r,
        ;
        // s * 1e9 + n == r * (q * 1e9 + qn + c) + t % r
        assert(s * 1_000_000_000 + n == (q * 1_000_000_000 + qn + c) * r + t % r)
            by (nonlinear_arith)
            requires
                s == q * r + es,
                n == qn * r + en,
                t == es * 1_000_000_000 + en,
                t == c * r + t % r,
        ;
        vstd::arithmetic::div_mod::lemma_fundamental_div_mod_converse(
            s * 1_000_000_000 + n,
            r,
            q * 1_000_000_000 + qn + c,
            t % r,
        );
        assert(qn * r + c * r < r * 1_000_000_000) by (nonlinear_arith)
            requires
                n == qn * r + en,
                0 <= en < r,
                t == c * r + t % r,
                0 <= t % r,
                t == es * 1_000_000_000 + en,
                es <= r - 1,
                n < 1_000_000_000,
        ;
        assert(qn + c < 1_000_000_000) by (nonlinear_arith)
            requires
                qn * r + c * r < r * 1_000_000_000,
                r >= 1,
        ;
    }
}

impl Default for Duration {
    fn default() -> (d: Duration)
        ensures
            d@ == 0,
    {
        Duration::zero()
    }
}

} // verus!
