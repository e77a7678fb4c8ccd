//! Parsers for the text files that Linux exposes under `/proc`, and the
//! computations that turn what they hold into the common records.

use vstd::prelude::*;

use bytesize::ByteSize;

use crate::data::{
    sat_sub, saturating_sub_bytes, BlockDeviceStats, CpuTime, Filesystem, MemInfo, Memory,
    PlatformMemory, SocketStats, Swap,
};
use crate::text::{
    chars_of, count_until, digits_value, is_digits, is_number_upto, line_spans, lines, parse_u64,
    parse_usize, span_count_blanks, span_count_until, span_eq, span_is_digits, span_string,
    spans_text, spans_within, trim_start, word_spans, words, words_acc,
};

verus! {

broadcast use vstd::string::group_string_axioms;

/// Why a text that must yield one record did not.
#[derive(Debug, Clone, Copy, PartialEq, Eq, Structural)]
pub enum ParseError {
    /// The CPU table does not open with the aggregate `cpu` line.
    NoCpuAggregate,
    /// The aggregate `cpu` line is not followed by any per-core line.
    NoCpuCores,
    /// No well-formed `TCP: inuse <n> orphan <n>` line.
    NoTcpLine,
    /// No well-formed `UDP: inuse <n>` line.
    NoUdpLine,
    /// No well-formed `TCP6: inuse <n>` line.
    NoTcp6Line,
    /// No well-formed `UDP6: inuse <n>` line.
    NoUdp6Line,
    /// No well-formed `btime <seconds>` line.
    NoBootTime,
}

/// The word at `k` of the words that `ws` designates in `cs`.
pub open spec fn word_at(cs: Seq<char>, ws: Seq<(usize, usize)>, k: int) -> Seq<char> {
    cs.subrange(ws[k].0 as int, ws[k].1 as int)
}

/// Reads word `k` of a line as a `usize`.
fn word_usize(cs: &Vec<char>, ws: &Vec<(usize, usize)>, k: usize) -> (r: Option<usize>)
    requires
        k < ws.len(),
        spans_within(ws@, 0, cs.len() as int),
    ensures
        r is Some <==> is_number_upto(spans_text(cs@, ws@)[k as int], usize::MAX as int),
        r is Some ==> r->0 == digits_value(spans_text(cs@, ws@)[k as int]),
{
    assert(spans_text(cs@, ws@)[k as int] == word_at(cs@, ws@, k as int));
    let (a, b) = ws[k];
    assert(0 <= ws@[k as int].0 <= ws@[k as int].1 <= cs.len());
    parse_usize(cs, a, b)
}

/// Whether word `k` of a line is exactly `lit`.
fn word_is(cs: &Vec<char>, ws: &Vec<(usize, usize)>, k: usize, lit: &[char]) -> (r: bool)
    requires
        spans_within(ws@, 0, cs.len() as int),
    ensures
        r == (k < ws.len() && spans_text(cs@, ws@)[k as int] == lit@),
{
    if k >= ws.len() {
        return false;
    }
    assert(spans_text(cs@, ws@)[k as int] == word_at(cs@, ws@, k as int));
    let (a, b) = ws[k];
    assert(0 <= ws@[k as int].0 <= ws@[k as int].1 <= cs.len());
    span_eq(cs, a, b, lit)
}

pub open spec fn cpu_tag() -> Seq<char> {
    seq!['c', 'p', 'u']
}

/// The aggregate line of the CPU table: its first word is `cpu`.
pub open spec fn is_cpu_aggregate_line(l: Seq<char>) -> bool {
    words(l).len() > 0 && words(l)[0] == cpu_tag()
}

/// `cpu` followed by the core's number.
pub open spec fn is_cpu_core_tag(w: Seq<char>) -> bool {
    w.len() > 3 && w.subrange(0, 3) == cpu_tag() && is_digits(w.subrange(3, w.len() as int))
}

/// A per-core line of the CPU table: the core's tag, then user, nice, system,
/// idle, iowait and irq ticks; further columns are ignored. Iowait is kept
/// as `other` and irq as `interrupt`.
pub open spec fn cpu_core_line(l: Seq<char>) -> Option<CpuTime> {
    cpu_core_words(words(l))
}

/// [`cpu_core_line`], given the line's words.
pub open spec fn cpu_core_words(w: Seq<Seq<char>>) -> Option<CpuTime> {
    if w.len() >= 7 && is_cpu_core_tag(w[0]) && (forall|k: int|
        1 <= k < 7 ==> #[trigger] is_number_upto(w[k], usize::MAX as int)) {
        Some(
            CpuTime {
                user: digits_value(w[1]) as usize,
                nice: digits_value(w[2]) as usize,
                system: digits_value(w[3]) as usize,
                idle: digits_value(w[4]) as usize,
                other: digits_value(w[5]) as usize,
                interrupt: digits_value(w[6]) as usize,
            },
        )
    } else {
        None
    }
}

/// Where a reader of the CPU table stands.
pub enum CpuScan {
    /// No line with a word seen yet.
    Start,
    /// The first line with a word is not the aggregate line.
    Bad,
    /// Reading per-core lines; these are the ones read so far.
    Cores(Seq<CpuTime>),
    /// A line that is not a per-core line ended the table.
    Done(Seq<CpuTime>),
}

/// Reads the lines of the CPU table in order; blank lines are passed over.
pub open spec fn cpu_scan(ls: Seq<Seq<char>>) -> CpuScan
    decreases ls.len(),
{
    if ls.len() == 0 {
        CpuScan::Start
    } else {
        let st = cpu_scan(ls.drop_last());
        let l = ls.last();
        if words(l).len() == 0 {
            st
        } else {
            match st {
                CpuScan::Start => if is_cpu_aggregate_line(l) {
                    CpuScan::Cores(seq![])
                } else {
                    CpuScan::Bad
                },
                CpuScan::Bad => CpuScan::Bad,
                CpuScan::Cores(v) => match cpu_core_line(l) {
                    Some(t) => CpuScan::Cores(v.push(t)),
                    None => CpuScan::Done(v),
                },
                CpuScan::Done(v) => CpuScan::Done(v),
            }
        }
    }
}

/// The per-core records of a CPU table, or why there are none.
pub open spec fn cpu_table(s: Seq<char>) -> Result<Seq<CpuTime>, ParseError> {
    match cpu_scan(lines(s)) {
        CpuScan::Start => Err(ParseError::NoCpuAggregate),
        CpuScan::Bad => Err(ParseError::NoCpuAggregate),
        CpuScan::Cores(v) => if v.len() > 0 {
            Ok(v)
        } else {
            Err(ParseError::NoCpuCores)
        },
        CpuScan::Done(v) => if v.len() > 0 {
            Ok(v)
        } else {
            Err(ParseError::NoCpuCores)
        },
    }
}

/// Reads one per-core line, given its words.
fn cpu_core_from_words(cs: &Vec<char>, ws: &Vec<(usize, usize)>) -> (r: Option<CpuTime>)
    requires
        spans_within(ws@, 0, cs.len() as int),
    ensures
        r == cpu_core_words(spans_text(cs@, ws@)),
{
    let ghost w = spans_text(cs@, ws@);
    if ws.len() < 7 {
        return None;
    }
    let (a, b) = ws[0];
    assert(w[0] == word_at(cs@, ws@, 0));
    assert(0 <= ws@[0].0 <= ws@[0].1 <= cs.len());
    if b - a <= 3 || !span_eq(cs, a, a + 3, &['c', 'p', 'u']) {
        assert(b - a <= 3 || w[0].subrange(0, 3) != cpu_tag()) by {
            if b - a > 3 {
                assert(w[0].subrange(0, 3) =~= cs@.subrange(a as int, a + 3));
            }
        }
        return None;
    }
    assert(w[0].subrange(0, 3) =~= cs@.subrange(a as int, a + 3));
    assert(w[0].subrange(3, w[0].len() as int) =~= cs@.subrange(a + 3, b as int));
    if !span_is_digits(cs, a + 3, b) {
        return None;
    }
    let user = word_usize(cs, ws, 1);
    let nice = word_usize(cs, ws, 2);
    let system = word_usize(cs, ws, 3);
    let idle = word_usize(cs, ws, 4);
    let iowait = word_usize(cs, ws, 5);
    let irq = word_usize(cs, ws, 6);
    match (user, nice, system, idle, iowait, irq) {
        (Some(user), Some(nice), Some(system), Some(idle), Some(other), Some(interrupt)) => {
            Some(CpuTime { user, nice, system, interrupt, idle, other })
        },
        _ => None,
    }
}


/// The exec state `(phase, cores)` of the CPU table reader stands for `st`.
pub open spec fn cpu_scan_at(st: CpuScan, phase: u8, cores: Seq<CpuTime>) -> bool {
    match st {
        CpuScan::Start => phase == 0 && cores.len() == 0,
        CpuScan::Bad => phase == 1,
        CpuScan::Cores(v) => phase == 2 && cores == v,
        CpuScan::Done(v) => phase == 3 && cores == v,
    }
}

/// Parses the CPU tick table of `/proc/stat`: an aggregate line whose first
/// word is `cpu`, then one line per core. The result holds the per-core
/// lines in file order, up to the first line that is not one; blank lines
/// are passed over. Fails when the aggregate line is missing or no core
/// line follows it.
pub fn proc_stat_cpu_times(input: &str) -> (r: Result<Vec<CpuTime>, ParseError>)
    ensures
        match cpu_table(input@) {
            Ok(v) => r is Ok && r->Ok_0@ == v,
            Err(e) => r == Err::<Vec<CpuTime>, ParseError>(e),
        },
{
    let cs = chars_of(input);
    let ls = line_spans(&cs);
    let ghost all = lines(cs@);
    let mut phase: u8 = 0;
    let mut cores: Vec<CpuTime> = Vec::new();
    let mut i: usize = 0;
    assert(all.subrange(0, 0) =~= Seq::<Seq<char>>::empty());
    while i < ls.len()
        invariant
            cs@ == input@,
            all == lines(cs@),
            spans_text(cs@, ls@) == all,
            spans_within(ls@, 0, cs.len() as int),
            i <= ls.len(),
            cpu_scan_at(cpu_scan(all.subrange(0, i as int)), phase, cores@),
        decreases ls.len() - i,
    {
        let (a, b) = ls[i];
        assert(0 <= ls@[i as int].0 <= ls@[i as int].1 <= cs.len());
        assert(all[i as int] == cs@.subrange(a as int, b as int));
        let ghost pre = all.subrange(0, i + 1);
        assert(pre.drop_last() =~= all.subrange(0, i as int));
        assert(pre.last() == all[i as int]);
        if phase == 0 || phase == 2 {
            let ws = word_spans(&cs, a, b);
            if ws.len() > 0 {
                if phase == 0 {
                    let tag: &[char] = &['c', 'p', 'u'];
                    assert(tag@ == cpu_tag());
                    if word_is(&cs, &ws, 0, tag) {
                        assert(cores@ =~= Seq::<CpuTime>::empty());
                        phase = 2;
                    } else {
                        phase = 1;
                    }
                } else {
                    match cpu_core_from_words(&cs, &ws) {
                        Some(t) => {
                            cores.push(t);
                        },
                        None => {
                            phase = 3;
                        },
                    }
                }
            }
        }
        assert(cpu_scan_at(cpu_scan(pre), phase, cores@));
        i = i + 1;
        assert(all.subrange(0, i as int) == pre);
    }
    assert(all.subrange(0, ls.len() as int) =~= all);
    if phase == 2 || phase == 3 {
        if cores.len() > 0 {
            Ok(cores)
        } else {
            Err(ParseError::NoCpuCores)
        }
    } else {
        Err(ParseError::NoCpuAggregate)
    }
}


pub open spec fn kb_tag() -> Seq<char> {
    seq!['k', 'B']
}

/// A line of the memory table: the key is the text before the first `:`
/// without its leading blanks (it may hold blanks of its own), and after
/// the `:` come a count of kibibytes and `kB`, as two words. The result is
/// the key and the count in bytes.
pub open spec fn meminfo_line(l: Seq<char>) -> Option<(Seq<char>, u64)> {
    let c = count_until(l, ':') as int;
    if c < l.len() {
        let w = words(l.subrange(c + 1, l.len() as int));
        if w.len() == 2 && is_number_upto(w[0], (u64::MAX / 1024) as int) && w[1] == kb_tag() {
            Some((trim_start(l.subrange(0, c)), (digits_value(w[0]) * 1024) as u64))
        } else {
            None
        }
    } else {
        None
    }
}

/// The memory table read line by line; lines that are not entries are
/// passed over, and a later entry overrides an earlier one with its key.
pub open spec fn meminfo_map(ls: Seq<Seq<char>>) -> Map<Seq<char>, u64>
    decreases ls.len(),
{
    if ls.len() == 0 {
        Map::empty()
    } else {
        match meminfo_line(ls.last()) {
            Some(e) => meminfo_map(ls.drop_last()).insert(e.0, e.1),
            None => meminfo_map(ls.drop_last()),
        }
    }
}

/// Reads one entry of the memory table, the line `cs[lo..hi]`.
fn meminfo_from_line(input: &str, cs: &Vec<char>, lo: usize, hi: usize) -> (r: Option<
    (String, ByteSize),
>)
    requires
        cs@ == input@,
        lo <= hi <= cs.len(),
    ensures
        match meminfo_line(cs@.subrange(lo as int, hi as int)) {
            Some(e) => r is Some && (r->0).0@ == e.0 && (r->0).1.0 == e.1,
            None => r is None,
        },
{
    let ghost l = cs@.subrange(lo as int, hi as int);
    let c = span_count_until(cs, lo, hi, ':');
    if c == hi - lo {
        return None;
    }
    let colon = lo + c;
    assert(l.subrange(c + 1, l.len() as int) =~= cs@.subrange(colon + 1, hi as int));
    let ws = word_spans(cs, colon + 1, hi);
    let ghost w = spans_text(cs@, ws@);
    if ws.len() != 2 {
        return None;
    }
    let kb: &[char] = &['k', 'B'];
    assert(kb@ == kb_tag());
    if !word_is(cs, &ws, 1, kb) {
        return None;
    }
    let (d0, d1) = ws[0];
    assert(w[0] == word_at(cs@, ws@, 0));
    assert(colon + 1 <= ws@[0].0 <= ws@[0].1 <= hi);
    match parse_u64(cs, d0, d1) {
        Some(v) => {
            if v > u64::MAX / 1024 {
                return None;
            }
            assert(l.subrange(0, c as int) =~= cs@.subrange(lo as int, colon as int));
            let t = span_count_blanks(cs, lo, colon);
            let key = span_string(input, lo + t, colon);
            assert(key@ =~= trim_start(l.subrange(0, c as int)));
            Some((key, ByteSize::kib(v)))
        },
        None => None,
    }
}

/// Parses a key to byte-count table such as `/proc/meminfo`: lines of the
/// form `<key>: <n> kB`, where the key may hold blanks. Lines of another form are passed over; when a key
/// comes twice the later value stands.
pub fn proc_meminfo(input: &str) -> (r: MemInfo)
    ensures
        r.wf(),
        r@ == meminfo_map(lines(input@)),
{
    let cs = chars_of(input);
    let ls = line_spans(&cs);
    let ghost all = lines(cs@);
    let mut m = MemInfo::new();
    let mut i: usize = 0;
    assert(all.subrange(0, 0) =~= Seq::<Seq<char>>::empty());
    assert(m@ =~= meminfo_map(all.subrange(0, 0)));
    while i < ls.len()
        invariant
            cs@ == input@,
            all == lines(cs@),
            spans_text(cs@, ls@) == all,
            spans_within(ls@, 0, cs.len() as int),
            i <= ls.len(),
            m.wf(),
            m@ == meminfo_map(all.subrange(0, i as int)),
        decreases ls.len() - i,
    {
        let (a, b) = ls[i];
        assert(0 <= ls@[i as int].0 <= ls@[i as int].1 <= cs.len());
        assert(all[i as int] == cs@.subrange(a as int, b as int));
        let ghost pre = all.subrange(0, i + 1);
        assert(pre.drop_last() =~= all.subrange(0, i as int));
        assert(pre.last() == all[i as int]);
        match meminfo_from_line(input, &cs, a, b) {
            Some((k, v)) => {
                m.insert(k, v);
            },
            None => {},
        }
        i = i + 1;
        assert(all.subrange(0, i as int) == pre);
    }
    assert(all.subrange(0, ls.len() as int) =~= all);
    m
}


/// The words of the lines of `ls` whose words meet `keep`, in order.
pub open spec fn kept_words(ls: Seq<Seq<char>>, keep: spec_fn(Seq<Seq<char>>) -> bool) -> Seq<
    Seq<Seq<char>>,
>
    decreases ls.len(),
{
    if ls.len() == 0 {
        seq![]
    } else if keep(words(ls.last())) {
        kept_words(ls.drop_last(), keep).push(words(ls.last()))
    } else {
        kept_words(ls.drop_last(), keep)
    }
}

/// One mount of the mount table.
#[derive(Debug, Clone)]
pub struct ProcMountsData {
    pub source: String,
    pub target: String,
    pub fstype: String,
}

/// A mount line: source, target and filesystem type, then anything.
pub open spec fn is_mount_words(w: Seq<Seq<char>>) -> bool {
    w.len() >= 3
}

/// The record read from the words of a mount line.
pub open spec fn mount_matches(m: ProcMountsData, w: Seq<Seq<char>>) -> bool {
    m.source@ == w[0] && m.target@ == w[1] && m.fstype@ == w[2]
}

/// The words of the mount lines of a mount table, in order.
pub open spec fn mount_lines(s: Seq<char>) -> Seq<Seq<Seq<char>>> {
    kept_words(lines(s), |w: Seq<Seq<char>>| is_mount_words(w))
}

/// Parses a mount table such as `/proc/mounts`: one mount per line, whose
/// first three words are its source, target and filesystem type; the rest
/// of the line is ignored. Lines with fewer than three words, blank lines
/// among them, are passed over.
pub fn proc_mounts(input: &str) -> (r: Vec<ProcMountsData>)
    ensures
        r.len() == mount_lines(input@).len(),
        forall|i: int| 0 <= i < r.len() ==> mount_matches(#[trigger] r[i], mount_lines(input@)[i]),
{
    let cs = chars_of(input);
    let ls = line_spans(&cs);
    let ghost all = lines(cs@);
    let ghost keep = |w: Seq<Seq<char>>| is_mount_words(w);
    let mut r: Vec<ProcMountsData> = Vec::new();
    let mut i: usize = 0;
    assert(all.subrange(0, 0) =~= Seq::<Seq<char>>::empty());
    while i < ls.len()
        invariant
            cs@ == input@,
            all == lines(cs@),
            keep == (|w: Seq<Seq<char>>| is_mount_words(w)),
            spans_text(cs@, ls@) == all,
            spans_within(ls@, 0, cs.len() as int),
            i <= ls.len(),
            r.len() == kept_words(all.subrange(0, i as int), keep).len(),
            forall|j: int|
                0 <= j < r.len() ==> mount_matches(
                    #[trigger] r[j],
                    kept_words(all.subrange(0, i as int), keep)[j],
                ),
        decreases ls.len() - i,
    {
        let (a, b) = ls[i];
        assert(0 <= ls@[i as int].0 <= ls@[i as int].1 <= cs.len());
        assert(all[i as int] == cs@.subrange(a as int, b as int));
        let ghost pre = all.subrange(0, i + 1);
        assert(pre.drop_last() =~= all.subrange(0, i as int));
        assert(pre.last() == all[i as int]);
        let ws = word_spans(&cs, a, b);
        let ghost w = spans_text(cs@, ws@);
        if ws.len() >= 3 {
            let (a0, b0) = ws[0];
            let (a1, b1) = ws[1];
            let (a2, b2) = ws[2];
            assert(w[0] == word_at(cs@, ws@, 0));
            assert(w[1] == word_at(cs@, ws@, 1));
            assert(w[2] == word_at(cs@, ws@, 2));
            assert(0 <= ws@[0].0 <= ws@[0].1 <= cs.len());
            assert(0 <= ws@[1].0 <= ws@[1].1 <= cs.len());
            assert(0 <= ws@[2].0 <= ws@[2].1 <= cs.len());
            let m = ProcMountsData {
                source: span_string(input, a0, b0),
                target: span_string(input, a1, b1),
                fstype: span_string(input, a2, b2),
            };
            r.push(m);
        }
        i = i + 1;
        assert(all.subrange(0, i as int) == pre);
    }
    assert(all.subrange(0, ls.len() as int) =~= all);
    r
}

/// A line of the disk statistics table: major and minor numbers, the device
/// name and eleven counters; later columns are ignored.
pub open spec fn is_disk_words(w: Seq<Seq<char>>) -> bool {
    &&& w.len() >= 14
    &&& is_number_upto(w[0], usize::MAX as int)
    &&& is_number_upto(w[1], usize::MAX as int)
    &&& forall|k: int| 3 <= k < 14 ==> #[trigger] is_number_upto(w[k], usize::MAX as int)
}

/// The record read from the words of a disk statistics line.
pub open spec fn disk_matches(d: BlockDeviceStats, w: Seq<Seq<char>>) -> bool {
    &&& d.name@ == w[2]
    &&& d.read_ios == digits_value(w[3])
    &&& d.read_merges == digits_value(w[4])
    &&& d.read_sectors == digits_value(w[5])
    &&& d.read_ticks == digits_value(w[6])
    &&& d.write_ios == digits_value(w[7])
    &&& d.write_merges == digits_value(w[8])
    &&& d.write_sectors == digits_value(w[9])
    &&& d.write_ticks == digits_value(w[10])
    &&& d.in_flight == digits_value(w[11])
    &&& d.io_ticks == digits_value(w[12])
    &&& d.time_in_queue == digits_value(w[13])
}

/// The words of the well-formed lines of a disk statistics table, in order.
pub open spec fn disk_lines(s: Seq<char>) -> Seq<Seq<Seq<char>>> {
    kept_words(lines(s), |w: Seq<Seq<char>>| is_disk_words(w))
}

/// Reads one disk statistics line, given its words.
fn disk_from_words(input: &str, cs: &Vec<char>, ws: &Vec<(usize, usize)>) -> (r: Option<
    BlockDeviceStats,
>)
    requires
        cs@ == input@,
        spans_within(ws@, 0, cs.len() as int),
    ensures
        r is Some <==> is_disk_words(spans_text(cs@, ws@)),
        r is Some ==> disk_matches(r->0, spans_text(cs@, ws@)),
{
    let ghost w = spans_text(cs@, ws@);
    if ws.len() < 14 {
        return None;
    }
    let major = word_usize(cs, ws, 0);
    let minor = word_usize(cs, ws, 1);
    if major.is_none() || minor.is_none() {
        return None;
    }
    let mut vals: Vec<usize> = Vec::new();
    let mut k: usize = 3;
    while k < 14
        invariant
            3 <= k <= 14,
            14 <= ws.len(),
            spans_within(ws@, 0, cs.len() as int),
            w == spans_text(cs@, ws@),
            vals.len() == k - 3,
            forall|j: int| 3 <= j < k ==> #[trigger] is_number_upto(w[j], usize::MAX as int),
            forall|j: int| 0 <= j < vals.len() ==> #[trigger] vals[j] == digits_value(w[j + 3]),
        decreases 14 - k,
    {
        match word_usize(cs, ws, k) {
            Some(v) => {
                vals.push(v);
            },
            None => {
                return None;
            },
        }
        k = k + 1;
    }
    let (a, b) = ws[2];
    assert(w[2] == word_at(cs@, ws@, 2));
    assert(0 <= ws@[2].0 <= ws@[2].1 <= cs.len());
    assert(vals[0] == digits_value(w[3]));
    assert(vals[10] == digits_value(w[13]));
    Some(
        BlockDeviceStats {
            name: span_string(input, a, b),
            read_ios: vals[0],
            read_merges: vals[1],
            read_sectors: vals[2],
            read_ticks: vals[3],
            write_ios: vals[4],
            write_merges: vals[5],
            write_sectors: vals[6],
            write_ticks: vals[7],
            in_flight: vals[8],
            io_ticks: vals[9],
            time_in_queue: vals[10],
        },
    )
}

/// Parses a disk statistics table such as `/proc/diskstats`: one device per
/// line, read by position. Lines that do not have the form are passed over.
pub fn proc_diskstats(input: &str) -> (r: Vec<BlockDeviceStats>)
    ensures
        r.len() == disk_lines(input@).len(),
        forall|i: int| 0 <= i < r.len() ==> disk_matches(#[trigger] r[i], disk_lines(input@)[i]),
{
    let cs = chars_of(input);
    let ls = line_spans(&cs);
    let ghost all = lines(cs@);
    let ghost keep = |w: Seq<Seq<char>>| is_disk_words(w);
    let mut r: Vec<BlockDeviceStats> = Vec::new();
    let mut i: usize = 0;
    assert(all.subrange(0, 0) =~= Seq::<Seq<char>>::empty());
    while i < ls.len()
        invariant
            cs@ == input@,
            all == lines(cs@),
            keep == (|w: Seq<Seq<char>>| is_disk_words(w)),
            spans_text(cs@, ls@) == all,
            spans_within(ls@, 0, cs.len() as int),
            i <= ls.len(),
            r.len() == kept_words(all.subrange(0, i as int), keep).len(),
            forall|j: int|
                0 <= j < r.len() ==> disk_matches(
                    #[trigger] r[j],
                    kept_words(all.subrange(0, i as int), keep)[j],
                ),
        decreases ls.len() - i,
    {
        let (a, b) = ls[i];
        assert(0 <= ls@[i as int].0 <= ls@[i as int].1 <= cs.len());
        assert(all[i as int] == cs@.subrange(a as int, b as int));
        let ghost pre = all.subrange(0, i + 1);
        assert(pre.drop_last() =~= all.subrange(0, i as int));
        assert(pre.last() == all[i as int]);
        let ws = word_spans(&cs, a, b);
        match disk_from_words(input, &cs, &ws) {
            Some(d) => {
                r.push(d);
            },
            None => {},
        }
        i = i + 1;
        assert(all.subrange(0, i as int) == pre);
    }
    assert(all.subrange(0, ls.len() as int) =~= all);
    r
}


/// The words of the first line whose first word is `tag`.
pub open spec fn first_tagged(ls: Seq<Seq<char>>, tag: Seq<char>) -> Option<Seq<Seq<char>>>
    decreases ls.len(),
{
    if ls.len() == 0 {
        None
    } else {
        match first_tagged(ls.drop_last(), tag) {
            Some(w) => Some(w),
            None => if words(ls.last()).len() > 0 && words(ls.last())[0] == tag {
                Some(words(ls.last()))
            } else {
                None
            },
        }
    }
}

/// Once a tagged line is found, later lines do not change which one it is.
proof fn lemma_first_tagged_stays(ls: Seq<Seq<char>>, k: int, tag: Seq<char>)
    requires
        0 <= k <= ls.len(),
        first_tagged(ls.subrange(0, k), tag) is Some,
    ensures
        first_tagged(ls, tag) == first_tagged(ls.subrange(0, k), tag),
    decreases ls.len(),
{
    if k == ls.len() {
        assert(ls.subrange(0, k) =~= ls);
    } else {
        assert(ls.drop_last().subrange(0, k) =~= ls.subrange(0, k));
        lemma_first_tagged_stays(ls.drop_last(), k, tag);
    }
}

/// The word spans of the first line of `input` whose first word is `tag`.
fn find_tagged(cs: &Vec<char>, tag: &[char]) -> (r: Option<Vec<(usize, usize)>>)
    ensures
        match first_tagged(lines(cs@), tag@) {
            Some(w) => r is Some && spans_text(cs@, (r->0)@) == w && spans_within(
                (r->0)@,
                0,
                cs.len() as int,
            ),
            None => r is None,
        },
{
    let ls = line_spans(cs);
    let ghost all = lines(cs@);
    let mut i: usize = 0;
    assert(all.subrange(0, 0) =~= Seq::<Seq<char>>::empty());
    while i < ls.len()
        invariant
            all == lines(cs@),
            spans_text(cs@, ls@) == all,
            spans_within(ls@, 0, cs.len() as int),
            i <= ls.len(),
            first_tagged(all.subrange(0, i as int), tag@) is None,
        decreases ls.len() - i,
    {
        let (a, b) = ls[i];
        assert(0 <= ls@[i as int].0 <= ls@[i as int].1 <= cs.len());
        assert(all[i as int] == cs@.subrange(a as int, b as int));
        let ghost pre = all.subrange(0, i + 1);
        assert(pre.drop_last() =~= all.subrange(0, i as int));
        assert(pre.last() == all[i as int]);
        let ws = word_spans(cs, a, b);
        if word_is(cs, &ws, 0, tag) {
            proof {
                lemma_first_tagged_stays(all, i + 1, tag@);
            }
            return Some(ws);
        }
        i = i + 1;
        assert(all.subrange(0, i as int) == pre);
    }
    assert(all.subrange(0, ls.len() as int) =~= all);
    None
}

/// Counts of IPv4 sockets in use.
#[derive(Debug, Clone, Copy, PartialEq, Eq, Structural)]
pub struct ProcNetSockStat {
    pub tcp_in_use: usize,
    pub tcp_orphaned: usize,
    pub udp_in_use: usize,
}

/// Counts of IPv6 sockets in use.
#[derive(Debug, Clone, Copy, PartialEq, Eq, Structural)]
pub struct ProcNetSockStat6 {
    pub tcp_in_use: usize,
    pub udp_in_use: usize,
}

pub open spec fn inuse_tag() -> Seq<char> {
    seq!['i', 'n', 'u', 's', 'e']
}

pub open spec fn orphan_tag() -> Seq<char> {
    seq!['o', 'r', 'p', 'h', 'a', 'n']
}

pub open spec fn tcp_tag() -> Seq<char> {
    seq!['T', 'C', 'P', ':']
}

pub open spec fn udp_tag() -> Seq<char> {
    seq!['U', 'D', 'P', ':']
}

pub open spec fn tcp6_tag() -> Seq<char> {
    seq!['T', 'C', 'P', '6', ':']
}

pub open spec fn udp6_tag() -> Seq<char> {
    seq!['U', 'D', 'P', '6', ':']
}

pub open spec fn btime_tag() -> Seq<char> {
    seq!['b', 't', 'i', 'm', 'e']
}

/// A tagged line that goes on with `inuse <n>`.
pub open spec fn has_inuse(w: Seq<Seq<char>>) -> bool {
    w.len() >= 3 && w[1] == inuse_tag() && is_number_upto(w[2], usize::MAX as int)
}

/// A tagged line that goes on with `inuse <n> orphan <n>`.
pub open spec fn has_inuse_orphan(w: Seq<Seq<char>>) -> bool {
    has_inuse(w) && w.len() >= 5 && w[3] == orphan_tag() && is_number_upto(
        w[4],
        usize::MAX as int,
    )
}

/// What the IPv4 socket summary holds: the counts on the first line tagged
/// `TCP:` and on the first line tagged `UDP:`, wherever they stand.
pub open spec fn sockstat(s: Seq<char>) -> Result<ProcNetSockStat, ParseError> {
    match first_tagged(lines(s), tcp_tag()) {
        Some(t) => if has_inuse_orphan(t) {
            match first_tagged(lines(s), udp_tag()) {
                Some(u) => if has_inuse(u) {
                    Ok(
                        ProcNetSockStat {
                            tcp_in_use: digits_value(t[2]) as usize,
                            tcp_orphaned: digits_value(t[4]) as usize,
                            udp_in_use: digits_value(u[2]) as usize,
                        },
                    )
                } else {
                    Err(ParseError::NoUdpLine)
                },
                None => Err(ParseError::NoUdpLine),
            }
        } else {
            Err(ParseError::NoTcpLine)
        },
        None => Err(ParseError::NoTcpLine),
    }
}

/// What the IPv6 socket summary holds: the counts on the first line tagged
/// `TCP6:` and on the first line tagged `UDP6:`.
pub open spec fn sockstat6(s: Seq<char>) -> Result<ProcNetSockStat6, ParseError> {
    match first_tagged(lines(s), tcp6_tag()) {
        Some(t) => if has_inuse(t) {
            match first_tagged(lines(s), udp6_tag()) {
                Some(u) => if has_inuse(u) {
                    Ok(
                        ProcNetSockStat6 {
                            tcp_in_use: digits_value(t[2]) as usize,
                            udp_in_use: digits_value(u[2]) as usize,
                        },
                    )
                } else {
                    Err(ParseError::NoUdp6Line)
                },
                None => Err(ParseError::NoUdp6Line),
            }
        } else {
            Err(ParseError::NoTcp6Line)
        },
        None => Err(ParseError::NoTcp6Line),
    }
}

/// Reads the `inuse <n>` count of a tagged line, given its words.
fn inuse_count(cs: &Vec<char>, ws: &Vec<(usize, usize)>) -> (r: Option<usize>)
    requires
        spans_within(ws@, 0, cs.len() as int),
    ensures
        r is Some <==> has_inuse(spans_text(cs@, ws@)),
        r is Some ==> r->0 == digits_value(spans_text(cs@, ws@)[2]),
{
    let inuse: &[char] = &['i', 'n', 'u', 's', 'e'];
    assert(inuse@ == inuse_tag());
    if ws.len() < 3 || !word_is(cs, ws, 1, inuse) {
        return None;
    }
    word_usize(cs, ws, 2)
}

/// Parses an IPv4 socket summary such as `/proc/net/sockstat`. The counts
/// are found by their literal tags, not by position. Fails when either line
/// is missing or malformed.
pub fn proc_net_sockstat(input: &str) -> (r: Result<ProcNetSockStat, ParseError>)
    ensures
        r == sockstat(input@),
{
    let cs = chars_of(input);
    let tcp: &[char] = &['T', 'C', 'P', ':'];
    let udp: &[char] = &['U', 'D', 'P', ':'];
    let orphan: &[char] = &['o', 'r', 'p', 'h', 'a', 'n'];
    assert(tcp@ == tcp_tag());
    assert(udp@ == udp_tag());
    assert(orphan@ == orphan_tag());
    let t = match find_tagged(&cs, tcp) {
        Some(t) => t,
        None => {
            return Err(ParseError::NoTcpLine);
        },
    };
    let tcp_in_use = match inuse_count(&cs, &t) {
        Some(n) => n,
        None => {
            return Err(ParseError::NoTcpLine);
        },
    };
    if t.len() < 5 || !word_is(&cs, &t, 3, orphan) {
        return Err(ParseError::NoTcpLine);
    }
    let tcp_orphaned = match word_usize(&cs, &t, 4) {
        Some(n) => n,
        None => {
            return Err(ParseError::NoTcpLine);
        },
    };
    let u = match find_tagged(&cs, udp) {
        Some(u) => u,
        None => {
            return Err(ParseError::NoUdpLine);
        },
    };
    let udp_in_use = match inuse_count(&cs, &u) {
        Some(n) => n,
        None => {
            return Err(ParseError::NoUdpLine);
        },
    };
    Ok(ProcNetSockStat { tcp_in_use, tcp_orphaned, udp_in_use })
}

/// Parses an IPv6 socket summary such as `/proc/net/sockstat6`. The counts
/// are found by their literal tags. Fails when either line is missing or
/// malformed.
pub fn proc_net_sockstat6(input: &str) -> (r: Result<ProcNetSockStat6, ParseError>)
    ensures
        r == sockstat6(input@),
{
    let cs = chars_of(input);
    let tcp: &[char] = &['T', 'C', 'P', '6', ':'];
    let udp: &[char] = &['U', 'D', 'P', '6', ':'];
    assert(tcp@ == tcp6_tag());
    assert(udp@ == udp6_tag());
    let t = match find_tagged(&cs, tcp) {
        Some(t) => t,
        None => {
            return Err(ParseError::NoTcp6Line);
        },
    };
    let tcp_in_use = match inuse_count(&cs, &t) {
        Some(n) => n,
        None => {
            return Err(ParseError::NoTcp6Line);
        },
    };
    let u = match find_tagged(&cs, udp) {
        Some(u) => u,
        None => {
            return Err(ParseError::NoUdp6Line);
        },
    };
    let udp_in_use = match inuse_count(&cs, &u) {
        Some(n) => n,
        None => {
            return Err(ParseError::NoUdp6Line);
        },
    };
    Ok(ProcNetSockStat6 { tcp_in_use, udp_in_use })
}

/// The socket counts of both summaries together.
pub open spec fn socket_stats_of(v4: ProcNetSockStat, v6: ProcNetSockStat6) -> SocketStats {
    SocketStats {
        tcp_sockets_in_use: v4.tcp_in_use,
        tcp_sockets_orphaned: v4.tcp_orphaned,
        udp_sockets_in_use: v4.udp_in_use,
        tcp6_sockets_in_use: v6.tcp_in_use,
        udp6_sockets_in_use: v6.udp_in_use,
    }
}

/// Reads the socket counts from the IPv4 and the IPv6 summaries. The IPv4
/// summary is read first, and its error is the one reported when both fail.
pub fn socket_stats(sockstat_text: &str, sockstat6_text: &str) -> (r: Result<
    SocketStats,
    ParseError,
>)
    ensures
        match (sockstat(sockstat_text@), sockstat6(sockstat6_text@)) {
            (Ok(a), Ok(b)) => r == Ok::<SocketStats, ParseError>(socket_stats_of(a, b)),
            (Err(e), _) => r == Err::<SocketStats, ParseError>(e),
            (Ok(_), Err(e)) => r == Err::<SocketStats, ParseError>(e),
        },
{
    let v4 = match proc_net_sockstat(sockstat_text) {
        Ok(v) => v,
        Err(e) => {
            return Err(e);
        },
    };
    let v6 = match proc_net_sockstat6(sockstat6_text) {
        Ok(v) => v,
        Err(e) => {
            return Err(e);
        },
    };
    Ok(
        SocketStats {
            tcp_sockets_in_use: v4.tcp_in_use,
            tcp_sockets_orphaned: v4.tcp_orphaned,
            udp_sockets_in_use: v4.udp_in_use,
            tcp6_sockets_in_use: v6.tcp_in_use,
            udp6_sockets_in_use: v6.udp_in_use,
        },
    )
}

/// The boot time that a `/proc/stat` text gives: the number of seconds on
/// the first line tagged `btime`, which must be its only other word.
pub open spec fn stat_boot_time(s: Seq<char>) -> Result<i64, ParseError> {
    match first_tagged(lines(s), btime_tag()) {
        Some(w) => if w.len() == 2 && is_number_upto(w[1], i64::MAX as int) {
            Ok(digits_value(w[1]) as i64)
        } else {
            Err(ParseError::NoBootTime)
        },
        None => Err(ParseError::NoBootTime),
    }
}

/// Reads the boot time, in seconds since the Unix epoch, from the `btime`
/// line of a `/proc/stat` text.
pub fn proc_stat_boot_time(input: &str) -> (r: Result<i64, ParseError>)
    ensures
        r == stat_boot_time(input@),
{
    let cs = chars_of(input);
    let tag: &[char] = &['b', 't', 'i', 'm', 'e'];
    assert(tag@ == btime_tag());
    match find_tagged(&cs, tag) {
        Some(w) => {
            if w.len() != 2 {
                return Err(ParseError::NoBootTime);
            }
            let (a, b) = w[1];
            assert(spans_text(cs@, w@)[1] == word_at(cs@, w@, 1));
            assert(0 <= w@[1].0 <= w@[1].1 <= cs.len());
            match parse_u64(&cs, a, b) {
                Some(v) => {
                    if v <= i64::MAX as u64 {
                        Ok(v as i64)
                    } else {
                        Err(ParseError::NoBootTime)
                    }
                },
                None => Err(ParseError::NoBootTime),
            }
        },
        None => Err(ParseError::NoBootTime),
    }
}


/// Memory free for new allocations: free pages, buffers, the page cache and
/// reclaimable slab, less shared memory. The sum stops at the largest
/// count, the difference at zero, and the result at the total memory.
pub open spec fn free_memory(m: MemInfo) -> u64 {
    let sum = m.value_or_zero("MemFree"@) + m.value_or_zero("Buffers"@) + m.value_or_zero(
        "Cached"@,
    ) + m.value_or_zero("SReclaimable"@);
    let capped = if sum > u64::MAX {
        u64::MAX as int
    } else {
        sum
    };
    let shared = m.value_or_zero("Shmem"@);
    let free = if capped >= shared {
        capped - shared
    } else {
        0
    };
    let total = m.value_or_zero("MemTotal"@);
    if free <= total {
        free as u64
    } else {
        total
    }
}

impl PlatformMemory {
    /// Memory as the table gives it; a missing key counts as zero bytes.
    pub fn to_memory(self) -> (r: Memory)
        requires
            self.meminfo.wf(),
        ensures
            r.total.0 == self.meminfo.value_or_zero("MemTotal"@),
            r.free.0 == free_memory(self.meminfo),
            r.free.0 <= r.total.0,
            r.platform_memory == self,
    {
        let m = &self.meminfo;
        let total = m.get_or_zero("MemTotal");
        let sum = m.get_or_zero("MemFree").as_u64().saturating_add(
            m.get_or_zero("Buffers").as_u64(),
        ).saturating_add(m.get_or_zero("Cached").as_u64()).saturating_add(
            m.get_or_zero("SReclaimable").as_u64(),
        );
        let free = saturating_sub_bytes(ByteSize::b(sum), m.get_or_zero("Shmem"));
        let free = if free.as_u64() <= total.as_u64() {
            free
        } else {
            total
        };
        Memory { total, free, platform_memory: self }
    }

    /// Swap as the table gives it; a missing key counts as zero bytes.
    pub fn to_swap(self) -> (r: Swap)
        requires
            self.meminfo.wf(),
        ensures
            r.total.0 == self.meminfo.value_or_zero("SwapTotal"@),
            r.free.0 == self.meminfo.value_or_zero("SwapFree"@),
            r.platform_swap == self,
    {
        let total = self.meminfo.get_or_zero("SwapTotal");
        let free = self.meminfo.get_or_zero("SwapFree");
        Swap { total, free, platform_swap: self }
    }
}


/// The lines of `ws` whose device name no earlier kept line has.
pub open spec fn first_per_device(ws: Seq<Seq<Seq<char>>>) -> Seq<Seq<Seq<char>>>
    decreases ws.len(),
{
    if ws.len() == 0 {
        seq![]
    } else {
        let kept = first_per_device(ws.drop_last());
        if exists|j: int| 0 <= j < kept.len() && kept[j][2] == ws.last()[2] {
            kept
        } else {
            kept.push(ws.last())
        }
    }
}

/// Reads a disk statistics table into one record per device name; where a
/// name comes twice, its first line stands.
pub fn block_device_statistics(input: &str) -> (r: Vec<BlockDeviceStats>)
    ensures
        r.len() == first_per_device(disk_lines(input@)).len(),
        forall|i: int|
            0 <= i < r.len() ==> disk_matches(
                #[trigger] r[i],
                first_per_device(disk_lines(input@))[i],
            ),
{
    let mut rest = proc_diskstats(input);
    let ghost dl = disk_lines(input@);
    let ghost n = rest.len() as int;
    let mut r: Vec<BlockDeviceStats> = Vec::new();
    let ghost mut i: int = 0;
    assert(dl.subrange(0, 0) =~= Seq::<Seq<Seq<char>>>::empty());
    while rest.len() > 0
        invariant
            0 <= i <= n,
            n == dl.len(),
            rest.len() == n - i,
            forall|j: int| 0 <= j < rest.len() ==> disk_matches(#[trigger] rest[j], dl[i + j]),
            r.len() == first_per_device(dl.subrange(0, i)).len(),
            forall|j: int|
                0 <= j < r.len() ==> disk_matches(
                    #[trigger] r[j],
                    first_per_device(dl.subrange(0, i))[j],
                ),
        decreases rest.len(),
    {
        let ghost kept = first_per_device(dl.subrange(0, i));
        let ghost pre = dl.subrange(0, i + 1);
        assert(pre.drop_last() =~= dl.subrange(0, i));
        assert(pre.last() == dl[i]);
        let ghost old_rest = rest@;
        let d = rest.remove(0);
        assert(disk_matches(old_rest[0], dl[i + 0]));
        assert forall|j: int| 0 <= j < rest.len() implies disk_matches(
            #[trigger] rest[j],
            dl[(i + 1) + j],
        ) by {
            assert(rest[j] == old_rest[j + 1]);
            assert(disk_matches(old_rest[j + 1], dl[i + (j + 1)]));
        }
        let mut seen = false;
        let mut j: usize = 0;
        while j < r.len()
            invariant
                j <= r.len(),
                r.len() == kept.len(),
                forall|k: int| 0 <= k < r.len() ==> disk_matches(#[trigger] r[k], kept[k]),
                disk_matches(d, dl[i]),
                seen <==> exists|k: int| 0 <= k < j && kept[k][2] == dl[i][2],
            decreases r.len() - j,
        {
            assert(disk_matches(r[j as int], kept[j as int]));
            if r[j].name == d.name {
                seen = true;
            }
            j = j + 1;
        }
        if !seen {
            r.push(d);
        }
        proof {
            i = i + 1;
        }
        assert(dl.subrange(0, i) == pre);
    }
    assert(dl.subrange(0, n) =~= dl);
    r
}


/// Why a mount lookup failed.
#[derive(Debug, Clone, Copy, PartialEq, Eq, Structural)]
pub enum MountError {
    /// No mount has the path as its target.
    NoSuchMount,
}

/// Finds, in a mount table such as `/proc/mounts`, the first mount whose
/// target is exactly `path`.
pub fn proc_mount_at(input: &str, path: &str) -> (r: Result<ProcMountsData, MountError>)
    ensures
        match r {
            Ok(m) => exists|i: int|
                0 <= i < mount_lines(input@).len() && mount_matches(m, mount_lines(input@)[i])
                    && mount_lines(input@)[i][1] == path@ && forall|j: int|
                    0 <= j < i ==> (#[trigger] mount_lines(input@)[j])[1] != path@,
            Err(e) => e == MountError::NoSuchMount && forall|i: int|
                0 <= i < mount_lines(input@).len() ==> (#[trigger] mount_lines(input@)[i])[1]
                    != path@,
        },
{
    let mut rest = proc_mounts(input);
    let ghost ml = mount_lines(input@);
    let ghost n = rest.len() as int;
    let p = path.to_owned();
    let ghost mut i: int = 0;
    while rest.len() > 0
        invariant
            0 <= i <= n,
            ml == mount_lines(input@),
            n == ml.len(),
            p@ == path@,
            rest.len() == n - i,
            forall|j: int| 0 <= j < rest.len() ==> mount_matches(#[trigger] rest[j], ml[i + j]),
            forall|j: int| 0 <= j < i ==> (#[trigger] ml[j])[1] != path@,
        decreases rest.len(),
    {
        let ghost old_rest = rest@;
        let m = rest.remove(0);
        assert(mount_matches(old_rest[0], ml[i + 0]));
        if m.target == p {
            assert(mount_matches(m, ml[i]) && ml[i][1] == path@);
            return Ok(m);
        }
        assert forall|j: int| 0 <= j < rest.len() implies mount_matches(
            #[trigger] rest[j],
            ml[(i + 1) + j],
        ) by {
            assert(rest[j] == old_rest[j + 1]);
            assert(mount_matches(old_rest[j + 1], ml[i + (j + 1)]));
        }
        proof {
            i = i + 1;
        }
    }
    Err(MountError::NoSuchMount)
}

/// What a filesystem reports of its size: file nodes and blocks.
#[derive(Debug, Clone, Copy, PartialEq, Eq, Structural)]
pub struct FsCounters {
    /// Total file nodes
    pub files: usize,
    /// Free file nodes
    pub ffree: usize,
    /// Free file nodes available to non-superuser
    pub favail: usize,
    /// Free blocks
    pub bfree: u64,
    /// Free blocks available to non-superuser
    pub bavail: u64,
    /// Total blocks
    pub blocks: u64,
    /// Block size in bytes
    pub bsize: u64,
    /// Maximum filename length
    pub namemax: usize,
}

/// The record of a mounted filesystem, from its mount line and its counters:
/// used nodes are total less free ones (stopping at zero) and byte counts
/// are block counts times the block size. `None` when a byte count does not
/// fit in 64 bits.
pub fn mount_filesystem(mount: ProcMountsData, c: FsCounters) -> (r: Option<Filesystem>)
    ensures
        r is Some <==> (c.bfree * c.bsize <= u64::MAX && c.bavail * c.bsize <= u64::MAX
            && c.blocks * c.bsize <= u64::MAX),
        r matches Some(f) ==> {
            &&& f.files == sat_sub(c.files, c.ffree)
            &&& f.files_total == c.files
            &&& f.files_avail == c.favail
            &&& f.free.0 == c.bfree * c.bsize
            &&& f.avail.0 == c.bavail * c.bsize
            &&& f.total.0 == c.blocks * c.bsize
            &&& f.name_max == c.namemax
            &&& f.fs_type == mount.fstype
            &&& f.fs_mounted_from == mount.source
            &&& f.fs_mounted_on == mount.target
        },
{
    let free = c.bfree.checked_mul(c.bsize);
    let avail = c.bavail.checked_mul(c.bsize);
    let total = c.blocks.checked_mul(c.bsize);
    match (free, avail, total) {
        (Some(free), Some(avail), Some(total)) => Some(
            Filesystem {
                files: c.files.saturating_sub(c.ffree),
                files_total: c.files,
                files_avail: c.favail,
                free: ByteSize::b(free),
                avail: ByteSize::b(avail),
                total: ByteSize::b(total),
                name_max: c.namemax,
                fs_type: mount.fstype,
                fs_mounted_from: mount.source,
                fs_mounted_on: mount.target,
            },
        ),
        _ => None,
    }
}


/// The records that the core lines `ls[1..k]` give.
pub open spec fn core_records(ls: Seq<Seq<char>>, k: int) -> Seq<CpuTime> {
    Seq::new((k - 1) as nat, |i: int| cpu_core_line(ls[i + 1])->0)
}

proof fn lemma_cpu_scan_cores(ls: Seq<Seq<char>>, k: int)
    requires
        1 <= k <= ls.len(),
        is_cpu_aggregate_line(ls[0]),
        forall|i: int| 1 <= i < k ==> (#[trigger] cpu_core_line(ls[i])) is Some,
    ensures
        cpu_scan(ls.subrange(0, k)) == CpuScan::Cores(core_records(ls, k)),
    decreases k,
{
    let pre = ls.subrange(0, k);
    assert(pre.drop_last() =~= ls.subrange(0, k - 1));
    if k == 1 {
        assert(ls.subrange(0, 0) =~= Seq::<Seq<char>>::empty());
        assert(core_records(ls, 1) =~= Seq::<CpuTime>::empty());
    } else {
        lemma_cpu_scan_cores(ls, k - 1);
        assert(cpu_core_line(ls[k - 1]) is Some);
        assert(words(ls[k - 1]).len() >= 7);
        assert(core_records(ls, k) =~= core_records(ls, k - 1).push(
            cpu_core_line(ls[k - 1])->0,
        ));
    }
}

proof fn lemma_cpu_scan_blank_tail(ls: Seq<Seq<char>>, n: int, k: int)
    requires
        1 <= n < k <= ls.len(),
        forall|i: int| n < i < k ==> (#[trigger] words(ls[i])).len() == 0,
    ensures
        cpu_scan(ls.subrange(0, k)) == cpu_scan(ls.subrange(0, n + 1)),
    decreases k,
{
    if k > n + 1 {
        let pre = ls.subrange(0, k);
        assert(pre.drop_last() =~= ls.subrange(0, k - 1));
        assert(words(ls[k - 1]).len() == 0);
        lemma_cpu_scan_blank_tail(ls, n, k - 1);
    }
}

proof fn lemma_cpu_scan_done_stays(ls: Seq<Seq<char>>, k: int, v: Seq<CpuTime>, m: int)
    requires
        0 <= k <= m <= ls.len(),
        cpu_scan(ls.subrange(0, k)) == CpuScan::Done(v),
    ensures
        cpu_scan(ls.subrange(0, m)) == CpuScan::Done(v),
    decreases m,
{
    if m > k {
        lemma_cpu_scan_done_stays(ls, k, v, m - 1);
        assert(ls.subrange(0, m).drop_last() =~= ls.subrange(0, m - 1));
    }
}

/// A well-formed CPU table parses into exactly its core records, in file
/// order, each read from its own line: the aggregate line, then `n`
/// per-core lines, and after them either only blank lines, or blank lines
/// and then a line with words that is not a per-core line (whatever
/// follows that line is not read).
pub proof fn lemma_cpu_table_round_trip(s: Seq<char>, n: int)
    requires
        1 <= n < lines(s).len(),
        is_cpu_aggregate_line(lines(s)[0]),
        forall|i: int| 1 <= i <= n ==> (#[trigger] cpu_core_line(lines(s)[i])) is Some,
        (forall|i: int| n < i < lines(s).len() ==> (#[trigger] words(lines(s)[i])).len() == 0)
            || exists|m: int|
            n < m < lines(s).len() && words(lines(s)[m]).len() > 0 && cpu_core_line(
                lines(s)[m],
            ) is None && forall|i: int| n < i < m ==> (#[trigger] words(lines(s)[i])).len() == 0,
    ensures
        cpu_table(s) is Ok,
        cpu_table(s)->Ok_0.len() == n,
        forall|i: int|
            0 <= i < n ==> cpu_core_line(lines(s)[i + 1]) == Some(
                #[trigger] cpu_table(s)->Ok_0[i],
            ),
{
    let ls = lines(s);
    lemma_cpu_scan_cores(ls, n + 1);
    if forall|i: int| n < i < ls.len() ==> (#[trigger] words(ls[i])).len() == 0 {
        if n + 1 < ls.len() {
            lemma_cpu_scan_blank_tail(ls, n, ls.len() as int);
        }
    } else {
        let m = choose|m: int|
            n < m < ls.len() && words(ls[m]).len() > 0 && cpu_core_line(ls[m]) is None && forall|
                i: int,
            | n < i < m ==> (#[trigger] words(ls[i])).len() == 0;
        if m > n + 1 {
            lemma_cpu_scan_blank_tail(ls, n, m);
        }
        let pre = ls.subrange(0, m + 1);
        assert(pre.drop_last() =~= ls.subrange(0, m));
        assert(pre.last() == ls[m]);
        lemma_cpu_scan_done_stays(ls, m + 1, core_records(ls, n + 1), ls.len() as int);
    }
    assert(ls.subrange(0, ls.len() as int) =~= ls);
}

proof fn lemma_kept_mounts(ls: Seq<Seq<char>>, k: int)
    requires
        0 <= k <= ls.len(),
        forall|i: int| 0 <= i < ls.len() ==> is_mount_words(#[trigger] words(ls[i])),
    ensures
        kept_words(ls.subrange(0, k), |w: Seq<Seq<char>>| is_mount_words(w)) == Seq::new(
            k as nat,
            |i: int| words(ls[i]),
        ),
    decreases k,
{
    let keep = |w: Seq<Seq<char>>| is_mount_words(w);
    if k == 0 {
        assert(kept_words(ls.subrange(0, 0), keep) =~= Seq::new(0, |i: int| words(ls[i])));
    } else {
        lemma_kept_mounts(ls, k - 1);
        let pre = ls.subrange(0, k);
        assert(pre.drop_last() =~= ls.subrange(0, k - 1));
        assert(is_mount_words(words(ls[k - 1])));
        assert(kept_words(pre, keep) =~= Seq::new(k as nat, |i: int| words(ls[i])));
    }
}

/// A mount table of `n` well-formed lines followed by an empty line (as a
/// text ending in a newline has) gives exactly `n` mounts, one per line.
pub proof fn lemma_mounts_trailing_blank_line(s: Seq<char>)
    requires
        lines(s).len() >= 1,
        lines(s).last().len() == 0,
        forall|i: int| 0 <= i < lines(s).len() - 1 ==> is_mount_words(#[trigger] words(lines(s)[i])),
    ensures
        mount_lines(s).len() == lines(s).len() - 1,
        forall|i: int|
            0 <= i < lines(s).len() - 1 ==> #[trigger] mount_lines(s)[i] == words(lines(s)[i]),
{
    let ls = lines(s);
    let body = ls.drop_last();
    let keep = |w: Seq<Seq<char>>| is_mount_words(w);
    assert forall|i: int| 0 <= i < body.len() implies is_mount_words(#[trigger] words(body[i])) by {
        assert(body[i] == ls[i]);
    }
    lemma_kept_mounts(body, body.len() as int);
    assert(body.subrange(0, body.len() as int) =~= body);
    assert(words(ls.last()) =~= Seq::<Seq<char>>::empty()) by {
        assert(ls.last() =~= Seq::<char>::empty());
        assert(words_acc(Seq::<char>::empty()).1.len() == 0);
    }
    assert(kept_words(ls, keep) == kept_words(body, keep));
}


/// Seconds until the batteries are full (on AC power) or empty (on battery),
/// from the charge when full, the charge now and the current. No time is
/// left when no current flows, or a negative one. On AC power the distance
/// between full and now counts, whichever is larger; on battery a negative
/// charge counts as empty.
pub open spec fn battery_seconds(on_ac: bool, charge_full: int, charge_now: int, current_now: int) -> int {
    if current_now <= 0 {
        0
    } else if on_ac {
        (if charge_full >= charge_now {
            charge_full - charge_now
        } else {
            charge_now - charge_full
        }) * 3600 / current_now
    } else {
        (if charge_now >= 0 {
            charge_now
        } else {
            0
        }) * 3600 / current_now
    }
}

/// The remaining battery time in seconds; see [`battery_seconds`].
pub fn time(on_ac: bool, charge_full: i32, charge_now: i32, current_now: i32) -> (r: u64)
    ensures
        r == battery_seconds(on_ac, charge_full as int, charge_now as int, current_now as int),
{
    if current_now <= 0 {
        return 0;
    }
    let charge: u64 = if on_ac {
        if charge_full >= charge_now {
            (charge_full as i64 - charge_now as i64) as u64
        } else {
            (charge_now as i64 - charge_full as i64) as u64
        }
    } else if charge_now >= 0 {
        charge_now as u64
    } else {
        0
    };
    charge * 3600 / current_now as u64
}

/// What one battery reports: its charge when full, its charge now and the
/// current through it.
#[derive(Debug, Clone, Copy, PartialEq, Eq, Structural)]
pub struct BatteryReading {
    pub full: i32,
    pub now: i32,
    pub current: i32,
}

/// The batteries together: charge when full, charge now, and seconds left.
#[derive(Debug, Clone, Copy, PartialEq, Eq, Structural)]
pub struct BatteryTotals {
    pub full: i32,
    pub now: i32,
    pub seconds: u64,
}

/// Why the batteries give no totals.
#[derive(Debug, Clone, Copy, PartialEq, Eq, Structural)]
pub enum BatteryError {
    /// A sum does not fit in an `i32`.
    Overflow,
    /// The batteries report no charge when full: there is no battery.
    Missing,
}

/// The sum of the full charges, the charges now (`k == 1`) or the currents
/// (`k == 2`) of the readings.
pub open spec fn battery_sum(rs: Seq<BatteryReading>, k: int) -> int
    decreases rs.len(),
{
    if rs.len() == 0 {
        0
    } else {
        battery_sum(rs.drop_last(), k) + if k == 0 {
            rs.last().full as int
        } else if k == 1 {
            rs.last().now as int
        } else {
            rs.last().current as int
        }
    }
}

pub open spec fn fits_i32(x: int) -> bool {
    i32::MIN <= x <= i32::MAX
}

/// Sums the readings of all batteries. Fails with `Overflow` when a sum does
/// not fit in an `i32`, and otherwise with `Missing` when the full charges
/// sum to zero; else gives the sums and the seconds left.
pub fn battery_totals(rs: &Vec<BatteryReading>, on_ac: bool) -> (r: Result<
    BatteryTotals,
    BatteryError,
>)
    ensures
        !(fits_i32(battery_sum(rs@, 0)) && fits_i32(battery_sum(rs@, 1)) && fits_i32(
            battery_sum(rs@, 2),
        )) ==> r == Err::<BatteryTotals, BatteryError>(BatteryError::Overflow),
        fits_i32(battery_sum(rs@, 0)) && fits_i32(battery_sum(rs@, 1)) && fits_i32(
            battery_sum(rs@, 2),
        ) ==> r == if battery_sum(rs@, 0) == 0 {
            Err::<BatteryTotals, BatteryError>(BatteryError::Missing)
        } else {
            Ok::<BatteryTotals, BatteryError>(
                BatteryTotals {
                    full: battery_sum(rs@, 0) as i32,
                    now: battery_sum(rs@, 1) as i32,
                    seconds: battery_seconds(
                        on_ac,
                        battery_sum(rs@, 0),
                        battery_sum(rs@, 1),
                        battery_sum(rs@, 2),
                    ) as u64,
                },
            )
        },
{
    let mut full: i128 = 0;
    let mut now: i128 = 0;
    let mut current: i128 = 0;
    let mut i: usize = 0;
    assert(rs@.subrange(0, 0) =~= Seq::<BatteryReading>::empty());
    while i < rs.len()
        invariant
            i <= rs.len(),
            full == battery_sum(rs@.subrange(0, i as int), 0),
            now == battery_sum(rs@.subrange(0, i as int), 1),
            current == battery_sum(rs@.subrange(0, i as int), 2),
            -(i as int) * 0x8000_0000 <= full <= (i as int) * 0x8000_0000,
            -(i as int) * 0x8000_0000 <= now <= (i as int) * 0x8000_0000,
            -(i as int) * 0x8000_0000 <= current <= (i as int) * 0x8000_0000,
        decreases rs.len() - i,
    {
        let b = rs[i];
        let ghost pre = rs@.subrange(0, i + 1);
        assert(pre.drop_last() =~= rs@.subrange(0, i as int));
        assert(pre.last() == b);
        assert((i as int) * 0x8000_0000 <= 0x1_0000_0000_0000_0000 * 0x8000_0000) by (
        nonlinear_arith)
            requires
                i <= usize::MAX,
                usize::MAX < 0x1_0000_0000_0000_0000,
        ;
        full = full + b.full as i128;
        now = now + b.now as i128;
        current = current + b.current as i128;
        i = i + 1;
        assert(rs@.subrange(0, i as int) == pre);
    }
    assert(rs@.subrange(0, rs.len() as int) =~= rs@);
    if full < i32::MIN as i128 || full > i32::MAX as i128 || now < i32::MIN as i128 || now
        > i32::MAX as i128 || current < i32::MIN as i128 || current > i32::MAX as i128 {
        return Err(BatteryError::Overflow);
    }
    if full == 0 {
        return Err(BatteryError::Missing);
    }
    let seconds = time(on_ac, full as i32, now as i32, current as i32);
    Ok(BatteryTotals { full: full as i32, now: now as i32, seconds })
}

} // verus!
