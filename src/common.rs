//! The derivations that let a backend with few primitives answer every
//! question: aggregates over cores, lookup of a mount by path, and uptime
//! and boot time from one another.

use vstd::arithmetic::div_mod::lemma_fundamental_div_mod_converse;
use vstd::prelude::*;

use crate::data::{CpuTime, Filesystem};
use crate::linux::MountError;

verus! {

/// Counter `k` of a tick sample, in the order user, nice, system,
/// interrupt, idle, other.
pub open spec fn tick_field(t: CpuTime, k: int) -> int {
    if k == 0 {
        t.user as int
    } else if k == 1 {
        t.nice as int
    } else if k == 2 {
        t.system as int
    } else if k == 3 {
        t.interrupt as int
    } else if k == 4 {
        t.idle as int
    } else {
        t.other as int
    }
}

/// The sum of counter `k` over all samples.
pub open spec fn ticks_sum(s: Seq<CpuTime>, k: int) -> int
    decreases s.len(),
{
    if s.len() == 0 {
        0
    } else {
        ticks_sum(s.drop_last(), k) + tick_field(s.last(), k)
    }
}

/// Every counter's sum fits in a `usize`.
pub open spec fn sums_fit(s: Seq<CpuTime>) -> bool {
    forall|k: int| 0 <= k < 6 ==> #[trigger] ticks_sum(s, k) <= usize::MAX
}

proof fn lemma_ticks_sum_prefix_le(s: Seq<CpuTime>, i: int, k: int)
    requires
        0 <= i <= s.len(),
    ensures
        ticks_sum(s.subrange(0, i), k) <= ticks_sum(s, k),
    decreases s.len() - i,
{
    if i < s.len() {
        lemma_ticks_sum_prefix_le(s.drop_last(), i, k);
        assert(s.drop_last().subrange(0, i) =~= s.subrange(0, i));
    } else {
        assert(s.subrange(0, i) =~= s);
    }
}

/// A counter sum that overflows part way overflows in the end too.
proof fn lemma_sum_overflows(s: Seq<CpuTime>, i: int, k: int)
    requires
        0 <= i < s.len(),
        0 <= k < 6,
        ticks_sum(s.subrange(0, i), k) + tick_field(s[i], k) > usize::MAX,
    ensures
        !sums_fit(s),
{
    let pre = s.subrange(0, i + 1);
    assert(pre.drop_last() =~= s.subrange(0, i));
    assert(ticks_sum(pre, k) == ticks_sum(s.subrange(0, i), k) + tick_field(s[i], k));
    lemma_ticks_sum_prefix_le(s, i + 1, k);
}

/// Adds one counter to a running sum, or `None` on overflow.
fn add_ticks(acc: usize, x: usize) -> (r: Option<usize>)
    ensures
        r is Some <==> acc + x <= usize::MAX,
        r is Some ==> r->0 == acc + x,
{
    acc.checked_add(x)
}

/// Sums the per-core tick samples into one, counter by counter. `None`
/// when a sum does not fit in a `usize`.
pub fn cpu_time_aggregate(times: &Vec<CpuTime>) -> (r: Option<CpuTime>)
    ensures
        r is Some <==> sums_fit(times@),
        r matches Some(t) ==> forall|k: int|
            0 <= k < 6 ==> #[trigger] tick_field(t, k) == ticks_sum(times@, k),
{
    let mut acc = CpuTime { user: 0, nice: 0, system: 0, interrupt: 0, idle: 0, other: 0 };
    let mut i: usize = 0;
    assert(times@.subrange(0, 0) =~= Seq::<CpuTime>::empty());
    while i < times.len()
        invariant
            i <= times.len(),
            forall|k: int|
                0 <= k < 6 ==> #[trigger] tick_field(acc, k) == ticks_sum(
                    times@.subrange(0, i as int),
                    k,
                ),
        decreases times.len() - i,
    {
        let t = times[i];
        let ghost pre = times@.subrange(0, i + 1);
        assert(pre.drop_last() =~= times@.subrange(0, i as int));
        assert(pre.last() == t);
        let user = match add_ticks(acc.user, t.user) {
            Some(v) => v,
            None => {
                proof {
                    assert(tick_field(acc, 0) == ticks_sum(times@.subrange(0, i as int), 0));
                    lemma_sum_overflows(times@, i as int, 0);
                }
                return None;
            },
        };
        let nice = match add_ticks(acc.nice, t.nice) {
            Some(v) => v,
            None => {
                proof {
                    assert(tick_field(acc, 1) == ticks_sum(times@.subrange(0, i as int), 1));
                    lemma_sum_overflows(times@, i as int, 1);
                }
                return None;
            },
        };
        let system = match add_ticks(acc.system, t.system) {
            Some(v) => v,
            None => {
                proof {
                    assert(tick_field(acc, 2) == ticks_sum(times@.subrange(0, i as int), 2));
                    lemma_sum_overflows(times@, i as int, 2);
                }
                return None;
            },
        };
        let interrupt = match add_ticks(acc.interrupt, t.interrupt) {
            Some(v) => v,
            None => {
                proof {
                    assert(tick_field(acc, 3) == ticks_sum(times@.subrange(0, i as int), 3));
                    lemma_sum_overflows(times@, i as int, 3);
                }
                return None;
            },
        };
        let idle = match add_ticks(acc.idle, t.idle) {
            Some(v) => v,
            None => {
                proof {
                    assert(tick_field(acc, 4) == ticks_sum(times@.subrange(0, i as int), 4));
                    lemma_sum_overflows(times@, i as int, 4);
                }
                return None;
            },
        };
        let other = match add_ticks(acc.other, t.other) {
            Some(v) => v,
            None => {
                proof {
                    assert(tick_field(acc, 5) == ticks_sum(times@.subrange(0, i as int), 5));
                    lemma_sum_overflows(times@, i as int, 5);
                }
                return None;
            },
        };
        let next = CpuTime { user, nice, system, interrupt, idle, other };
        assert forall|k: int| 0 <= k < 6 implies #[trigger] tick_field(next, k) == ticks_sum(
            pre,
            k,
        ) by {
            assert(ticks_sum(pre, k) == ticks_sum(times@.subrange(0, i as int), k) + tick_field(
                t,
                k,
            ));
            assert(tick_field(acc, k) == ticks_sum(times@.subrange(0, i as int), k));
        }
        acc = next;
        i = i + 1;
        assert(times@.subrange(0, i as int) == pre);
    }
    assert(times@.subrange(0, times.len() as int) =~= times@);
    assert forall|k: int| 0 <= k < 6 implies #[trigger] ticks_sum(times@, k) <= usize::MAX by {
        assert(tick_field(acc, k) == ticks_sum(times@, k));
    }
    Some(acc)
}

/// Finds, among `mounts`, the first whose target is exactly `path`.
pub fn mount_at(mounts: Vec<Filesystem>, path: &str) -> (r: Result<Filesystem, MountError>)
    ensures
        match r {
            Ok(m) => exists|i: int|
                0 <= i < mounts.len() && m == mounts[i] && mounts[i].fs_mounted_on@ == path@
                    && forall|j: int|
                    0 <= j < i ==> (#[trigger] mounts[j]).fs_mounted_on@ != path@,
            Err(e) => e == MountError::NoSuchMount && forall|i: int|
                0 <= i < mounts.len() ==> (#[trigger] mounts[i]).fs_mounted_on@ != path@,
        },
{
    let p = path.to_owned();
    let mut i: usize = 0;
    while i < mounts.len()
        invariant
            i <= mounts.len(),
            p@ == path@,
            forall|j: int| 0 <= j < i ==> (#[trigger] mounts[j]).fs_mounted_on@ != path@,
        decreases mounts.len() - i,
    {
        if mounts[i].fs_mounted_on == p {
            let ghost all = mounts@;
            let mut mounts = mounts;
            let m = mounts.remove(i);
            assert(m == all[i as int]);
            return Ok(m);
        }
        i = i + 1;
    }
    Err(MountError::NoSuchMount)
}


pub const NANOS_PER_SEC: u32 = 1_000_000_000;

/// A point in time: seconds and nanoseconds since the Unix epoch.
#[derive(Debug, Clone, Copy, PartialEq, Eq, Structural)]
pub struct UnixTime {
    pub secs: i64,
    pub nanos: u32,
}

/// A length of time: seconds and nanoseconds.
#[derive(Debug, Clone, Copy, PartialEq, Eq, Structural)]
pub struct TimeSpan {
    pub secs: u64,
    pub nanos: u32,
}

impl UnixTime {
    /// The nanoseconds are under a second.
    pub open spec fn wf(self) -> bool {
        self.nanos < NANOS_PER_SEC
    }

    /// Nanoseconds since the epoch.
    pub open spec fn as_nanos(self) -> int {
        self.secs * NANOS_PER_SEC + self.nanos
    }
}

impl TimeSpan {
    /// The nanoseconds are under a second.
    pub open spec fn wf(self) -> bool {
        self.nanos < NANOS_PER_SEC
    }

    /// The length in nanoseconds.
    pub open spec fn as_nanos(self) -> int {
        self.secs * NANOS_PER_SEC + self.nanos
    }
}

/// The point in time `n` nanoseconds after the epoch.
pub open spec fn time_at_nanos(n: int) -> UnixTime {
    UnixTime { secs: (n / NANOS_PER_SEC as int) as i64, nanos: (n % NANOS_PER_SEC as int) as u32 }
}

/// The length of time of `n` nanoseconds.
pub open spec fn span_of_nanos(n: int) -> TimeSpan {
    TimeSpan { secs: (n / NANOS_PER_SEC as int) as u64, nanos: (n % NANOS_PER_SEC as int) as u32 }
}

/// The one clock primitive that a backend supplies; the other is derived.
#[derive(Debug, Clone, Copy, PartialEq, Eq, Structural)]
pub enum ClockSource {
    /// The backend knows how long the system has been up.
    Uptime(TimeSpan),
    /// The backend knows when the system booted.
    BootTime(UnixTime),
}

impl ClockSource {
    pub open spec fn wf(self) -> bool {
        match self {
            ClockSource::Uptime(u) => u.wf(),
            ClockSource::BootTime(b) => b.wf(),
        }
    }
}

/// Why a derived time could not be given.
#[derive(Debug, Clone, Copy, PartialEq, Eq, Structural)]
pub enum TimeError {
    /// The boot time lies after the current time.
    BootInFuture,
    /// The result lies outside the range of the type.
    OutOfRange,
}

/// The uptime that `src` gives at `now`.
pub open spec fn derived_uptime(src: ClockSource, now: UnixTime) -> Result<TimeSpan, TimeError> {
    match src {
        ClockSource::Uptime(u) => Ok(u),
        ClockSource::BootTime(b) => if now.as_nanos() >= b.as_nanos() {
            Ok(span_of_nanos(now.as_nanos() - b.as_nanos()))
        } else {
            Err(TimeError::BootInFuture)
        },
    }
}

/// The boot time that `src` gives at `now`.
pub open spec fn derived_boot_time(src: ClockSource, now: UnixTime) -> Result<UnixTime, TimeError> {
    match src {
        ClockSource::BootTime(b) => Ok(b),
        ClockSource::Uptime(u) => {
            let t = now.as_nanos() - u.as_nanos();
            if t >= i64::MIN * NANOS_PER_SEC {
                Ok(time_at_nanos(t))
            } else {
                Err(TimeError::OutOfRange)
            }
        },
    }
}

/// The system uptime at `now`: the primitive itself, or the time elapsed
/// since boot.
pub fn uptime(src: ClockSource, now: UnixTime) -> (r: Result<TimeSpan, TimeError>)
    requires
        src.wf(),
        now.wf(),
    ensures
        r == derived_uptime(src, now),
        r matches Ok(u) ==> u.wf(),
{
    match src {
        ClockSource::Uptime(u) => Ok(u),
        ClockSource::BootTime(b) => {
            let mut secs: i128 = now.secs as i128 - b.secs as i128;
            let mut nanos: i64 = now.nanos as i64 - b.nanos as i64;
            if nanos < 0 {
                nanos = nanos + NANOS_PER_SEC as i64;
                secs = secs - 1;
            }
            assert(secs * NANOS_PER_SEC + nanos == now.as_nanos() - b.as_nanos());
            if secs < 0 {
                assert(now.as_nanos() - b.as_nanos() < 0) by (nonlinear_arith)
                    requires
                        secs < 0,
                        0 <= nanos < NANOS_PER_SEC,
                        secs * NANOS_PER_SEC + nanos == now.as_nanos() - b.as_nanos(),
                ;
                return Err(TimeError::BootInFuture);
            }
            proof {
                assert(secs * NANOS_PER_SEC + nanos >= 0) by (nonlinear_arith)
                    requires
                        secs >= 0,
                        nanos >= 0,
                ;
                lemma_fundamental_div_mod_converse(
                    now.as_nanos() - b.as_nanos(),
                    NANOS_PER_SEC as int,
                    secs as int,
                    nanos as int,
                );
            }
            Ok(TimeSpan { secs: secs as u64, nanos: nanos as u32 })
        },
    }
}

/// The boot time at `now`: the primitive itself, or `now` less the uptime.
pub fn boot_time(src: ClockSource, now: UnixTime) -> (r: Result<UnixTime, TimeError>)
    requires
        src.wf(),
        now.wf(),
    ensures
        r == derived_boot_time(src, now),
        r matches Ok(b) ==> b.wf(),
{
    match src {
        ClockSource::BootTime(b) => Ok(b),
        ClockSource::Uptime(u) => {
            let mut secs: i128 = now.secs as i128 - u.secs as i128;
            let mut nanos: i64 = now.nanos as i64 - u.nanos as i64;
            if nanos < 0 {
                nanos = nanos + NANOS_PER_SEC as i64;
                secs = secs - 1;
            }
            assert(secs * NANOS_PER_SEC + nanos == now.as_nanos() - u.as_nanos());
            proof {
                lemma_fundamental_div_mod_converse(
                    now.as_nanos() - u.as_nanos(),
                    NANOS_PER_SEC as int,
                    secs as int,
                    nanos as int,
                );
            }
            if secs < i64::MIN as i128 {
                assert(now.as_nanos() - u.as_nanos() < i64::MIN * NANOS_PER_SEC) by (nonlinear_arith)
                    requires
                        secs < i64::MIN,
                        0 <= nanos < NANOS_PER_SEC,
                        secs * NANOS_PER_SEC + nanos == now.as_nanos() - u.as_nanos(),
                ;
                return Err(TimeError::OutOfRange);
            }
            assert(now.as_nanos() - u.as_nanos() >= i64::MIN * NANOS_PER_SEC) by (nonlinear_arith)
                requires
                    secs >= i64::MIN,
                    0 <= nanos,
                    secs * NANOS_PER_SEC + nanos == now.as_nanos() - u.as_nanos(),
            ;
            assert(secs <= i64::MAX) by (nonlinear_arith)
                requires
                    secs <= now.secs,
                    now.secs <= i64::MAX,
            ;
            Ok(UnixTime { secs: secs as i64, nanos: nanos as u32 })
        },
    }
}


/// Uptime and boot time are two views of one clock: the uptime derived from
/// a boot time, fed back as the primitive, gives that boot time again.
pub proof fn lemma_uptime_boot_time_round_trip(boot: UnixTime, now: UnixTime)
    requires
        boot.wf(),
        now.wf(),
        now.as_nanos() >= boot.as_nanos(),
    ensures
        derived_uptime(ClockSource::BootTime(boot), now) matches Ok(u) && derived_boot_time(
            ClockSource::Uptime(u),
            now,
        ) == Ok::<UnixTime, TimeError>(boot),
{
    let n = now.as_nanos() - boot.as_nanos();
    let u = span_of_nanos(n);
    let q = n / NANOS_PER_SEC as int;
    let r = n % NANOS_PER_SEC as int;
    vstd::arithmetic::div_mod::lemma_fundamental_div_mod(n, NANOS_PER_SEC as int);
    assert(0 <= q) by {
        vstd::arithmetic::div_mod::lemma_div_pos_is_pos(n, NANOS_PER_SEC as int);
    }
    assert(q <= u64::MAX) by (nonlinear_arith)
        requires
            q * 1_000_000_000 + r == n,
            0 <= r,
            n <= now.as_nanos() - boot.as_nanos(),
            now.as_nanos() == now.secs * 1_000_000_000 + now.nanos,
            boot.as_nanos() == boot.secs * 1_000_000_000 + boot.nanos,
            now.nanos < 1_000_000_000,
            now.secs <= i64::MAX,
            boot.secs >= i64::MIN,
    ;
    assert(u.as_nanos() == n);
    assert(now.as_nanos() - u.as_nanos() == boot.as_nanos());
    assert(boot.as_nanos() >= i64::MIN * NANOS_PER_SEC);
    lemma_fundamental_div_mod_converse(
        boot.as_nanos(),
        NANOS_PER_SEC as int,
        boot.secs as int,
        boot.nanos as int,
    );
}


/// A backend that knows only its boot time has an uptime: the time from the
/// boot to now, whenever the boot is not after now.
pub proof fn lemma_uptime_from_boot_time(boot: UnixTime, now: UnixTime)
    requires
        boot.wf(),
        now.wf(),
        now.as_nanos() >= boot.as_nanos(),
    ensures
        derived_uptime(ClockSource::BootTime(boot), now) matches Ok(u) && u.wf() && u.as_nanos()
            == now.as_nanos() - boot.as_nanos(),
{
    lemma_uptime_boot_time_round_trip(boot, now);
    let n = now.as_nanos() - boot.as_nanos();
    vstd::arithmetic::div_mod::lemma_fundamental_div_mod(n, NANOS_PER_SEC as int);
}

/// A backend that knows only its uptime has a boot time: now less the
/// uptime, whenever that instant is representable (not before the earliest
/// second an `i64` counts).
pub proof fn lemma_boot_time_from_uptime(up: TimeSpan, now: UnixTime)
    requires
        up.wf(),
        now.wf(),
        now.as_nanos() - up.as_nanos() >= i64::MIN * NANOS_PER_SEC,
    ensures
        derived_boot_time(ClockSource::Uptime(up), now) matches Ok(b) && b.wf() && b.as_nanos()
            == now.as_nanos() - up.as_nanos(),
{
    let t = now.as_nanos() - up.as_nanos();
    let q = t / NANOS_PER_SEC as int;
    vstd::arithmetic::div_mod::lemma_fundamental_div_mod(t, NANOS_PER_SEC as int);
    assert(q >= i64::MIN) by (nonlinear_arith)
        requires
            q * 1_000_000_000 + t % 1_000_000_000 == t,
            t % 1_000_000_000 < 1_000_000_000,
            t >= i64::MIN * 1_000_000_000,
    ;
    assert(q <= i64::MAX) by (nonlinear_arith)
        requires
            q * 1_000_000_000 + t % 1_000_000_000 == t,
            t % 1_000_000_000 >= 0,
            t <= now.as_nanos(),
            now.as_nanos() == now.secs * 1_000_000_000 + now.nanos,
            now.nanos < 1_000_000_000,
            now.secs <= i64::MAX,
    ;
}

} // verus!
