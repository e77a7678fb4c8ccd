//! The value types that every backend normalizes into.

use vstd::prelude::*;

pub use bytesize::ByteSize;

verus! {

#[verifier::external_type_specification]
pub struct ExByteSize(bytesize::ByteSize);

/// Relies on `bytesize::ByteSize::b`: wraps the byte count unchanged.
pub assume_specification[ bytesize::ByteSize::b ](size: u64) -> (r: bytesize::ByteSize)
    ensures
        r.0 == size,
;

/// Relies on `bytesize::ByteSize::kib`: multiplies by 1024, which must not overflow.
pub assume_specification[ bytesize::ByteSize::kib ](size: u64) -> (r: bytesize::ByteSize)
    requires
        size * 1024 <= u64::MAX,
    ensures
        r.0 == size * 1024,
;

/// Relies on `bytesize::ByteSize::as_u64`: returns the byte count.
pub assume_specification[ bytesize::ByteSize::as_u64 ](b: &bytesize::ByteSize) -> (r: u64)
    ensures
        r == b.0,
;

/// Relies on the `Clone` that `bytesize::ByteSize` derives: a copy of the byte count.
pub assume_specification[ <bytesize::ByteSize as core::clone::Clone>::clone ](b: &bytesize::ByteSize) -> (r: bytesize::ByteSize)
    ensures
        r == *b,
;

/// Subtracts two byte counts, clamping at zero instead of wrapping.
pub fn saturating_sub_bytes(l: ByteSize, r: ByteSize) -> (res: ByteSize)
    ensures
        res.0 == if l.0 >= r.0 { (l.0 - r.0) as u64 } else { 0u64 },
{
    ByteSize::b(l.as_u64().saturating_sub(r.as_u64()))
}


/// Subtraction that stops at zero.
pub open spec fn sat_sub(a: usize, b: usize) -> usize {
    if a >= b { (a - b) as usize } else { 0usize }
}

/// Cumulative scheduler ticks since boot, for one core or for all of them.
#[derive(Debug, Clone, Copy, PartialEq, Eq, Structural)]
pub struct CpuTime {
    pub user: usize,
    pub nice: usize,
    pub system: usize,
    pub interrupt: usize,
    pub idle: usize,
    pub other: usize,
}

impl CpuTime {
    /// All ticks counted, over the six categories.
    pub open spec fn total(self) -> int {
        self.user + self.nice + self.system + self.interrupt + self.idle + self.other
    }

    /// Every counter at least as large as in `earlier`.
    pub open spec fn dominates(self, earlier: CpuTime) -> bool {
        &&& self.user >= earlier.user
        &&& self.nice >= earlier.nice
        &&& self.system >= earlier.system
        &&& self.interrupt >= earlier.interrupt
        &&& self.idle >= earlier.idle
        &&& self.other >= earlier.other
    }

    /// The ticks elapsed since `earlier`, field by field; a counter that went
    /// backwards counts as zero.
    pub open spec fn elapsed_since(self, earlier: CpuTime) -> CpuTime {
        CpuTime {
            user: sat_sub(self.user, earlier.user),
            nice: sat_sub(self.nice, earlier.nice),
            system: sat_sub(self.system, earlier.system),
            interrupt: sat_sub(self.interrupt, earlier.interrupt),
            idle: sat_sub(self.idle, earlier.idle),
            other: sat_sub(self.other, earlier.other),
        }
    }

    /// The ticks elapsed since `earlier`, field by field, never below zero.
    pub fn saturating_sub(self, earlier: &CpuTime) -> (r: CpuTime)
        ensures
            r == self.elapsed_since(*earlier),
    {
        CpuTime {
            user: self.user.saturating_sub(earlier.user),
            nice: self.nice.saturating_sub(earlier.nice),
            system: self.system.saturating_sub(earlier.system),
            interrupt: self.interrupt.saturating_sub(earlier.interrupt),
            idle: self.idle.saturating_sub(earlier.idle),
            other: self.other.saturating_sub(earlier.other),
        }
    }

    /// The number of ticks over all six categories: the denominator of each
    /// load fraction. It cannot overflow, as six `usize` values fit in `u128`.
    pub fn total_ticks(&self) -> (r: u128)
        ensures
            r == self.total(),
    {
        self.user as u128 + self.nice as u128 + self.system as u128 + self.interrupt as u128
            + self.idle as u128 + self.other as u128
    }
}

impl<'a> core::ops::Sub<&'a CpuTime> for CpuTime {
    type Output = CpuTime;

    fn sub(self, rhs: &'a CpuTime) -> (r: CpuTime)
        ensures
            r == self.elapsed_since(*rhs),
    {
        self.saturating_sub(rhs)
    }
}

impl<'a> vstd::std_specs::ops::SubSpecImpl<&'a CpuTime> for CpuTime {
    open spec fn obeys_sub_spec() -> bool {
        true
    }

    open spec fn sub_req(self, rhs: &'a CpuTime) -> bool {
        true
    }

    open spec fn sub_spec(self, rhs: &'a CpuTime) -> CpuTime {
        self.elapsed_since(*rhs)
    }
}


/// The map that a list of `(key, bytes)` entries stands for; a later entry
/// overrides an earlier one with the same key.
pub open spec fn entries_map(s: Seq<(String, ByteSize)>) -> Map<Seq<char>, u64>
    decreases s.len(),
{
    if s.len() == 0 {
        Map::empty()
    } else {
        let (k, b) = s.last();
        entries_map(s.drop_last()).insert(k@, b.0)
    }
}

/// No two entries share a key.
pub open spec fn keys_unique(s: Seq<(String, ByteSize)>) -> bool {
    forall|i: int, j: int| 0 <= i < j < s.len() ==> s[i].0@ != s[j].0@
}

proof fn lemma_entries_map_dom(s: Seq<(String, ByteSize)>, k: Seq<char>)
    ensures
        entries_map(s).dom().contains(k) <==> exists|i: int| 0 <= i < s.len() && s[i].0@ == k,
    decreases s.len(),
{
    if s.len() > 0 {
        lemma_entries_map_dom(s.drop_last(), k);
        if entries_map(s).dom().contains(k) && s.last().0@ != k {
            let i = choose|i: int| 0 <= i < s.len() - 1 && s.drop_last()[i].0@ == k;
            assert(s[i].0@ == k);
        }
        if exists|i: int| 0 <= i < s.len() && s[i].0@ == k {
            let i = choose|i: int| 0 <= i < s.len() && s[i].0@ == k;
            if i < s.len() - 1 {
                assert(s.drop_last()[i].0@ == k);
            }
        }
    }
}

proof fn lemma_entries_map_finite_len(s: Seq<(String, ByteSize)>)
    requires
        keys_unique(s),
    ensures
        entries_map(s).dom().finite(),
        entries_map(s).len() == s.len(),
    decreases s.len(),
{
    if s.len() > 0 {
        lemma_entries_map_finite_len(s.drop_last());
        let k = s.last().0@;
        lemma_entries_map_dom(s.drop_last(), k);
        if entries_map(s.drop_last()).dom().contains(k) {
            let i = choose|i: int| 0 <= i < s.len() - 1 && s.drop_last()[i].0@ == k;
            assert(s[i].0@ == s[s.len() - 1].0@);
        }
    }
}

proof fn lemma_entries_map_update(s: Seq<(String, ByteSize)>, j: int, e: (String, ByteSize))
    requires
        keys_unique(s),
        0 <= j < s.len(),
        s[j].0@ == e.0@,
    ensures
        entries_map(s.update(j, e)) == entries_map(s).insert(e.0@, (e.1).0),
    decreases s.len(),
{
    let t = s.update(j, e);
    if j == s.len() - 1 {
        assert(t.drop_last() =~= s.drop_last());
        assert(entries_map(t) =~= entries_map(s).insert(e.0@, (e.1).0));
    } else {
        lemma_entries_map_update(s.drop_last(), j, e);
        assert(t.drop_last() =~= s.drop_last().update(j, e));
        assert(s[j].0@ != s[s.len() - 1].0@);
        assert(entries_map(t) =~= entries_map(s).insert(e.0@, (e.1).0));
    }
}

/// A key to byte-count table, such as the one the kernel gives for memory.
/// Keys are unique; entries keep the order in which their keys first came.
#[derive(Debug, Clone)]
pub struct MemInfo {
    entries: Vec<(String, ByteSize)>,
}

impl View for MemInfo {
    type V = Map<Seq<char>, u64>;

    closed spec fn view(&self) -> Map<Seq<char>, u64> {
        entries_map(self.entries@)
    }
}

impl MemInfo {
    /// Keys are unique.
    pub closed spec fn wf(&self) -> bool {
        keys_unique(self.entries@)
    }

    /// An empty table.
    pub fn new() -> (r: MemInfo)
        ensures
            r.wf(),
            r@ == Map::<Seq<char>, u64>::empty(),
    {
        MemInfo { entries: Vec::new() }
    }

    /// The number of keys.
    pub fn len(&self) -> (r: usize)
        requires
            self.wf(),
        ensures
            r == self@.len(),
            self@.dom().finite(),
    {
        proof {
            lemma_entries_map_finite_len(self.entries@);
        }
        self.entries.len()
    }

    /// Sets `key` to `value`, replacing what it held before.
    pub fn insert(&mut self, key: String, value: ByteSize)
        requires
            old(self).wf(),
        ensures
            final(self).wf(),
            final(self)@ == old(self)@.insert(key@, value.0),
    {
        let mut j: usize = 0;
        while j < self.entries.len()
            invariant
                keys_unique(self.entries@),
                self.entries@ == old(self).entries@,
                j <= self.entries.len(),
                forall|i: int| 0 <= i < j ==> self.entries@[i].0@ != key@,
            decreases self.entries.len() - j,
        {
            if self.entries[j].0 == key {
                let ghost prev = self.entries@;
                let ghost e = (key, value);
                proof {
                    lemma_entries_map_update(prev, j as int, e);
                }
                assert(keys_unique(prev.update(j as int, e))) by {
                    assert forall|a: int, b: int| 0 <= a < b < prev.len() implies
                        prev.update(j as int, e)[a].0@ != prev.update(j as int, e)[b].0@ by {
                        assert(prev[a].0@ != prev[b].0@);
                    }
                }
                self.entries.set(j, (key, value));
                assert(self.entries@ =~= prev.update(j as int, e));
                return;
            }
            j = j + 1;
        }
        let ghost prev = self.entries@;
        let ghost next = prev.push((key, value));
        assert(keys_unique(next)) by {
            assert forall|a: int, b: int| 0 <= a < b < next.len() implies next[a].0@
                != next[b].0@ by {
                if b < prev.len() {
                    assert(prev[a].0@ != prev[b].0@);
                }
            }
        }
        self.entries.push((key, value));
        assert(self.entries@.drop_last() =~= prev);
    }

    /// The byte count under `key`, if any.
    pub fn get(&self, key: &str) -> (r: Option<ByteSize>)
        requires
            self.wf(),
        ensures
            r is Some <==> self@.contains_key(key@),
            r is Some ==> r == Some(ByteSize(self@[key@])),
    {
        let k = key.to_owned();
        let mut j: usize = 0;
        while j < self.entries.len()
            invariant
                keys_unique(self.entries@),
                j <= self.entries.len(),
                k@ == key@,
                forall|i: int| 0 <= i < j ==> self.entries@[i].0@ != key@,
            decreases self.entries.len() - j,
        {
            if self.entries[j].0 == k {
                proof {
                    self.lemma_value_at(j as int);
                }
                return Some(self.entries[j].1);
            }
            j = j + 1;
        }
        proof {
            lemma_entries_map_dom(self.entries@, key@);
        }
        None
    }

    /// The byte count under `key`, or zero bytes where the key is missing.
    pub fn get_or_zero(&self, key: &str) -> (r: ByteSize)
        requires
            self.wf(),
        ensures
            r.0 == self.value_or_zero(key@),
    {
        match self.get(key) {
            Some(v) => v,
            None => ByteSize::b(0),
        }
    }

    /// What [`MemInfo::get_or_zero`] gives.
    pub open spec fn value_or_zero(&self, key: Seq<char>) -> u64 {
        if self@.contains_key(key) {
            self@[key]
        } else {
            0
        }
    }

    proof fn lemma_value_at(&self, j: int)
        requires
            keys_unique(self.entries@),
            0 <= j < self.entries@.len(),
        ensures
            self@.contains_key(self.entries@[j].0@),
            self@[self.entries@[j].0@] == (self.entries@[j].1).0,
    {
        lemma_entries_map_update(self.entries@, j, self.entries@[j]);
        assert(self.entries@.update(j, self.entries@[j]) =~= self.entries@);
    }

    /// The entries, in the order in which their keys first came.
    pub fn entries(&self) -> (r: &Vec<(String, ByteSize)>)
        ensures
            entries_map(r@) == self@,
    {
        &self.entries
    }
}


/// A measurement that takes time: the first sample is taken when the value
/// is made, the second when the caller decides, and the result compares the two.
pub struct DelayedMeasurement<T> {
    first: T,
}

impl<T> DelayedMeasurement<T> {
    /// The sample taken at the start.
    pub closed spec fn first_sample(&self) -> T {
        self.first
    }

    /// Starts a measurement from its first sample.
    pub fn new(first: T) -> (r: DelayedMeasurement<T>)
        ensures
            r.first_sample() == first,
    {
        DelayedMeasurement { first }
    }

    /// The sample taken at the start.
    pub fn first(&self) -> (r: &T)
        ensures
            *r == self.first_sample(),
    {
        &self.first
    }
}

impl DelayedMeasurement<Vec<CpuTime>> {
    /// Finishes a per-core tick measurement against a second sample: the
    /// ticks each core spent since the first sample, pairing cores in order.
    /// Every call compares with the first sample, never with an earlier result.
    pub fn done(&self, now: &Vec<CpuTime>) -> (r: Vec<CpuTime>)
        ensures
            r.len() == if now.len() <= self.first_sample().len() {
                now.len()
            } else {
                self.first_sample().len()
            },
            forall|i: int|
                0 <= i < r.len() ==> #[trigger] r[i] == now[i].elapsed_since(
                    self.first_sample()[i],
                ),
    {
        let mut r: Vec<CpuTime> = Vec::new();
        let mut i: usize = 0;
        while i < now.len() && i < self.first.len()
            invariant
                i <= now.len(),
                i <= self.first.len(),
                r.len() == i,
                forall|j: int| 0 <= j < i ==> #[trigger] r[j] == now[j].elapsed_since(self.first[j]),
            decreases now.len() - i,
        {
            r.push(now[i].saturating_sub(&self.first[i]));
            i = i + 1;
        }
        r
    }
}

/// Memory and swap as the kernel's key to byte-count table reports them.
#[derive(Debug, Clone)]
pub struct PlatformMemory {
    pub meminfo: MemInfo,
}

/// Swap details come from the same table as memory details.
pub type PlatformSwap = PlatformMemory;

/// Physical memory: the total and what is free for new allocations.
#[derive(Debug, Clone)]
pub struct Memory {
    pub total: ByteSize,
    pub free: ByteSize,
    pub platform_memory: PlatformMemory,
}

/// Swap space: the total and what is unused.
#[derive(Debug, Clone)]
pub struct Swap {
    pub total: ByteSize,
    pub free: ByteSize,
    pub platform_swap: PlatformSwap,
}

/// One mounted filesystem.
#[derive(Debug, Clone)]
pub struct Filesystem {
    /// Used file nodes in filesystem
    pub files: usize,
    /// Total file nodes in filesystem
    pub files_total: usize,
    /// Free nodes available to non-superuser
    pub files_avail: usize,
    /// Free bytes in filesystem
    pub free: ByteSize,
    /// Free bytes available to non-superuser
    pub avail: ByteSize,
    /// Total bytes in filesystem
    pub total: ByteSize,
    /// Maximum filename length
    pub name_max: usize,
    pub fs_type: String,
    pub fs_mounted_from: String,
    pub fs_mounted_on: String,
}

/// Cumulative input/output counters of one block device.
#[derive(Debug, Clone)]
pub struct BlockDeviceStats {
    pub name: String,
    pub read_ios: usize,
    pub read_merges: usize,
    pub read_sectors: usize,
    pub read_ticks: usize,
    pub write_ios: usize,
    pub write_merges: usize,
    pub write_sectors: usize,
    pub write_ticks: usize,
    pub in_flight: usize,
    pub io_ticks: usize,
    pub time_in_queue: usize,
}

/// Sockets in use, by protocol.
#[derive(Debug, Clone, Copy, PartialEq, Eq, Structural)]
pub struct SocketStats {
    pub tcp_sockets_in_use: usize,
    pub tcp_sockets_orphaned: usize,
    pub udp_sockets_in_use: usize,
    pub tcp6_sockets_in_use: usize,
    pub udp6_sockets_in_use: usize,
}


/// Load over a window: with `later` no behind `earlier` in any counter, each
/// category's elapsed ticks are the exact difference of the two samples, lie
/// between zero and the elapsed total, and add up to that total; so each
/// load fraction (elapsed ticks over the total) lies in `[0, 1]` and the
/// fractions sum to one whenever any tick elapsed.
pub proof fn lemma_load_fractions(earlier: CpuTime, later: CpuTime)
    requires
        later.dominates(earlier),
    ensures
        ({
            let d = later.elapsed_since(earlier);
            &&& d.user == later.user - earlier.user
            &&& d.nice == later.nice - earlier.nice
            &&& d.system == later.system - earlier.system
            &&& d.interrupt == later.interrupt - earlier.interrupt
            &&& d.idle == later.idle - earlier.idle
            &&& d.other == later.other - earlier.other
            &&& 0 <= d.user <= d.total()
            &&& 0 <= d.nice <= d.total()
            &&& 0 <= d.system <= d.total()
            &&& 0 <= d.interrupt <= d.total()
            &&& 0 <= d.idle <= d.total()
            &&& 0 <= d.other <= d.total()
            &&& d.user + d.nice + d.system + d.interrupt + d.idle + d.other == d.total()
        }),
{
}

/// No time elapsed: a sample compared with itself has no elapsed tick in
/// any category, so the total is zero and every load fraction is zero.
pub proof fn lemma_no_elapsed_ticks(sample: CpuTime)
    ensures
        sample.elapsed_since(sample).total() == 0,
        sample.elapsed_since(sample) == (CpuTime {
            user: 0,
            nice: 0,
            system: 0,
            interrupt: 0,
            idle: 0,
            other: 0,
        }),
{
}


/// Bytes, packets and errors an interface has moved.
#[derive(Debug, Clone)]
pub struct NetworkStats {
    pub rx_bytes: ByteSize,
    pub tx_bytes: ByteSize,
    pub rx_packets: u64,
    pub tx_packets: u64,
    pub rx_errors: u64,
    pub tx_errors: u64,
}

} // verus!
