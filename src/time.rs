use vstd::prelude::*;

verus! {

/// Nanoseconds in one second.
pub const NANOS_PER_SEC: u32 = 1_000_000_000;

/// A point in time: whole seconds since the Unix epoch (negative before it)
/// and the nanoseconds past that second.
#[derive(Clone, Copy, Debug, PartialEq, Eq, Structural)]
pub struct Timestamp {
    pub secs: i64,
    pub nanos: u32,
}

/// The nanosecond part is below one second.
pub open spec fn wf(t: Timestamp) -> bool {
    t.nanos < NANOS_PER_SEC
}

/// The instant as nanoseconds since the epoch.
pub open spec fn instant(t: Timestamp) -> int {
    t.secs * NANOS_PER_SEC as int + t.nanos as int
}

/// `a` is no later than `b`: seconds first, then nanoseconds.
pub open spec fn not_after(a: Timestamp, b: Timestamp) -> bool {
    a.secs < b.secs || (a.secs == b.secs && a.nanos <= b.nanos)
}

/// The later of two optional times; an absent time never wins against a
/// present one.
pub open spec fn later_of(a: Option<Timestamp>, b: Option<Timestamp>) -> Option<Timestamp> {
    match (a, b) {
        (None, _) => b,
        (Some(_), None) => a,
        (Some(x), Some(y)) => if not_after(x, y) { b } else { a },
    }
}

/// `a` is absent, or both are present and `a` is no later than `b`.
pub open spec fn opt_not_after(a: Option<Timestamp>, b: Option<Timestamp>) -> bool {
    match a {
        None => true,
        Some(x) => match b {
            None => false,
            Some(y) => not_after(x, y),
        },
    }
}

/// On well-formed times the order is the order of instants.
pub proof fn lemma_order_is_instant_order(a: Timestamp, b: Timestamp)
    requires
        wf(a),
        wf(b),
    ensures
        not_after(a, b) <==> instant(a) <= instant(b),
{
    if a.secs < b.secs {
        assert(a.secs * 1_000_000_000 + 1_000_000_000 <= b.secs * 1_000_000_000)
            by (nonlinear_arith)
            requires
                a.secs < b.secs,
        ;
    } else if a.secs > b.secs {
        assert(b.secs * 1_000_000_000 + 1_000_000_000 <= a.secs * 1_000_000_000)
            by (nonlinear_arith)
            requires
                b.secs < a.secs,
        ;
    }
}

/// The result of `later_of` bounds both arguments and is one of them.
pub proof fn lemma_later_of_bounds(a: Option<Timestamp>, b: Option<Timestamp>)
    ensures
        opt_not_after(a, later_of(a, b)),
        opt_not_after(b, later_of(a, b)),
        later_of(a, b) == a || later_of(a, b) == b,
        later_of(a, b) is None <==> (a is None && b is None),
{
}

/// `opt_not_after` is transitive.
pub proof fn lemma_opt_not_after_trans(a: Option<Timestamp>, b: Option<Timestamp>, c: Option<Timestamp>)
    requires
        opt_not_after(a, b),
        opt_not_after(b, c),
    ensures
        opt_not_after(a, c),
{
}

impl Timestamp {
    /// A time `secs` seconds and `nanos` nanoseconds after the epoch.
    pub fn since_epoch(secs: u64, nanos: u32) -> (r: Option<Timestamp>)
        requires
            nanos < NANOS_PER_SEC,
        ensures
            r is Some <==> secs <= i64::MAX,
            r matches Some(t) ==> wf(t) && instant(t) == secs * NANOS_PER_SEC as int + nanos,
    {
        if secs <= i64::MAX as u64 {
            Some(Timestamp { secs: secs as i64, nanos })
        } else {
            None
        }
    }

    /// A time `secs` seconds and `nanos` nanoseconds before the epoch.
    pub fn before_epoch(secs: u64, nanos: u32) -> (r: Option<Timestamp>)
        requires
            nanos < NANOS_PER_SEC,
        ensures
            r is Some <==> (secs <= i64::MAX || (secs == i64::MAX + 1 && nanos == 0)),
            r matches Some(t) ==> wf(t) && instant(t) == -(secs * NANOS_PER_SEC as int + nanos),
    {
        if nanos == 0 {
            if secs <= i64::MAX as u64 {
                Some(Timestamp { secs: -(secs as i64), nanos: 0 })
            } else if secs == i64::MAX as u64 + 1 {
                Some(Timestamp { secs: i64::MIN, nanos: 0 })
            } else {
                None
            }
        } else if secs <= i64::MAX as u64 {
            Some(Timestamp { secs: -(secs as i64) - 1, nanos: NANOS_PER_SEC - nanos })
        } else {
            None
        }
    }

    /// Whether `self` is no later than `other`.
    pub fn is_not_after(&self, other: &Timestamp) -> (r: bool)
        ensures
            r == not_after(*self, *other),
    {
        self.secs < other.secs || (self.secs == other.secs && self.nanos <= other.nanos)
    }
}

/// The later of two optional times.
pub fn later(a: Option<Timestamp>, b: Option<Timestamp>) -> (r: Option<Timestamp>)
    ensures
        r == later_of(a, b),
{
    match (a, b) {
        (None, _) => b,
        (Some(_), None) => a,
        (Some(x), Some(y)) => if x.is_not_after(&y) { b } else { a },
    }
}

} // verus!
