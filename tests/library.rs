use bytesize::ByteSize;
use systemstat::common::{
    boot_time, cpu_time_aggregate, mount_at, uptime, ClockSource, TimeError, TimeSpan, UnixTime,
};
use systemstat::data::{saturating_sub_bytes, CpuTime, DelayedMeasurement, Filesystem, MemInfo, PlatformMemory};
use systemstat::linux::{
    battery_totals, BatteryError, BatteryReading, block_device_statistics, mount_filesystem, proc_meminfo, proc_mount_at, proc_mounts,
    proc_net_sockstat, proc_net_sockstat6, proc_stat_boot_time, proc_stat_cpu_times,
    socket_stats, FsCounters, MountError, ParseError, ProcMountsData,
};

fn ticks(user: usize, nice: usize, system: usize, interrupt: usize, idle: usize, other: usize) -> CpuTime {
    CpuTime { user, nice, system, interrupt, idle, other }
}

fn fs(on: &str) -> Filesystem {
    Filesystem {
        files: 1,
        files_total: 2,
        files_avail: 1,
        free: ByteSize::b(10),
        avail: ByteSize::b(5),
        total: ByteSize::b(100),
        name_max: 255,
        fs_type: "ext4".to_string(),
        fs_mounted_from: format!("/dev/{}", on.len()),
        fs_mounted_on: on.to_string(),
    }
}

#[test]
fn elapsed_ticks_give_fractions_that_sum_to_one() {
    let a = ticks(100, 20, 30, 5, 400, 7);
    let b = ticks(160, 20, 50, 10, 500, 17);
    let d = b - &a;
    assert_eq!(d, ticks(60, 0, 20, 5, 100, 10));
    let total = d.total_ticks();
    assert_eq!(total, 195);
    let sum: f64 = [d.user, d.nice, d.system, d.interrupt, d.idle, d.other]
        .iter()
        .map(|x| *x as f64 / total as f64)
        .sum();
    assert!((sum - 1.0).abs() < 1e-4);
}

#[test]
fn no_elapsed_ticks_give_zero_total() {
    let a = ticks(1, 2, 3, 4, 5, 6);
    let d = a - &a;
    assert_eq!(d, ticks(0, 0, 0, 0, 0, 0));
    assert_eq!(d.total_ticks(), 0);
}

#[test]
fn counters_that_went_back_count_as_zero() {
    let a = ticks(10, 10, 10, 10, 10, 10);
    let b = ticks(5, 12, 10, 0, 11, 9);
    assert_eq!(b.saturating_sub(&a), ticks(0, 2, 0, 0, 1, 0));
}

#[test]
fn saturating_byte_subtraction_stops_at_zero() {
    assert_eq!(saturating_sub_bytes(ByteSize::b(3), ByteSize::b(5)), ByteSize::b(0));
    assert_eq!(saturating_sub_bytes(ByteSize::b(10), ByteSize::b(4)), ByteSize::b(6));
    assert_eq!(saturating_sub_bytes(ByteSize::b(0), ByteSize::b(u64::MAX)), ByteSize::b(0));
}

#[test]
fn cpu_table_with_one_core() {
    let r = proc_stat_cpu_times("cpu  100 20 30 40 50 0\ncpu0 10 2 3 4 5 0\n").unwrap();
    assert_eq!(r, vec![CpuTime { user: 10, nice: 2, system: 3, idle: 4, other: 5, interrupt: 0 }]);
}

#[test]
fn cpu_table_keeps_file_order_and_stops_at_other_lines() {
    let input = "cpu  1 1 1 1 1 1\ncpu0 1 2 3 4 5 6\n\ncpu1 7 8 9 10 11 12 13 14\nintr 5 5\ncpu2 1 1 1 1 1 1\n";
    let r = proc_stat_cpu_times(input).unwrap();
    assert_eq!(r, vec![ticks(1, 2, 3, 6, 4, 5), ticks(7, 8, 9, 12, 10, 11)]);
}

#[test]
fn cpu_table_errors() {
    assert_eq!(proc_stat_cpu_times(""), Err(ParseError::NoCpuAggregate));
    assert_eq!(proc_stat_cpu_times("cpu0 1 2 3 4 5 6\n"), Err(ParseError::NoCpuAggregate));
    assert_eq!(proc_stat_cpu_times("cpu  1 2 3 4 5 6\nintr 1\n"), Err(ParseError::NoCpuCores));
    assert_eq!(proc_stat_cpu_times("cpu  1 2 3 4 5 6\ncpu0 1 2 3\n"), Err(ParseError::NoCpuCores));
}

#[test]
fn mounts_with_trailing_blank_line() {
    let input = "a /x ext4 rw 0 0\nb /y tmpfs rw 0 0\nc /z proc rw 0 0\n";
    let m = proc_mounts(input);
    assert_eq!(m.len(), 3);
    assert_eq!(m[2].source, "c");
    assert_eq!(m[2].target, "/z");
    assert_eq!(m[2].fstype, "proc");
    assert_eq!(proc_mounts("").len(), 0);
    assert_eq!(proc_mounts("a /x\n\nb /y tmpfs\n").len(), 1);
}

#[test]
fn meminfo_two_lines_exactly() {
    let m = proc_meminfo("MemTotal:   100 kB\nMemFree:    40 kB\n");
    assert_eq!(m.len(), 2);
    assert_eq!(m.get("MemTotal"), Some(ByteSize::kib(100)));
    assert_eq!(m.get("MemFree"), Some(ByteSize::kib(40)));
    assert_eq!(m.get("MemFree").unwrap().as_u64(), 40 * 1024);
    assert_eq!(m.get("Cached"), None);
}

#[test]
fn meminfo_later_key_wins_and_bad_lines_are_skipped() {
    let m = proc_meminfo("A: 1 kB\nB: 2\nC: x kB\nA: 3 kB\n: 4 kB\n");
    assert_eq!(m.len(), 2);
    assert_eq!(m.get("A"), Some(ByteSize::kib(3)));
    assert_eq!(m.get(""), Some(ByteSize::kib(4)));
    assert_eq!(m.entries()[0].0, "A");
}

#[test]
fn meminfo_insert_replaces() {
    let mut m = MemInfo::new();
    m.insert("K".to_string(), ByteSize::b(1));
    m.insert("L".to_string(), ByteSize::b(2));
    m.insert("K".to_string(), ByteSize::b(3));
    assert_eq!(m.len(), 2);
    assert_eq!(m.get_or_zero("K"), ByteSize::b(3));
    assert_eq!(m.get_or_zero("M"), ByteSize::b(0));
}

#[test]
fn memory_and_swap_from_table() {
    let table = "MemTotal: 1000 kB\nMemFree: 100 kB\nBuffers: 10 kB\nCached: 200 kB\nSReclaimable: 5 kB\nShmem: 15 kB\nSwapTotal: 50 kB\nSwapFree: 20 kB\n";
    let pm = PlatformMemory { meminfo: proc_meminfo(table) };
    let mem = pm.clone().to_memory();
    assert_eq!(mem.total, ByteSize::kib(1000));
    assert_eq!(mem.free, ByteSize::kib(300));
    let swap = pm.to_swap();
    assert_eq!(swap.total, ByteSize::kib(50));
    assert_eq!(swap.free, ByteSize::kib(20));
}

#[test]
fn memory_with_more_shared_than_free_is_zero() {
    let pm = PlatformMemory { meminfo: proc_meminfo("MemFree: 1 kB\nShmem: 9 kB\n") };
    let mem = pm.to_memory();
    assert_eq!(mem.total, ByteSize::b(0));
    assert_eq!(mem.free, ByteSize::b(0));
}

#[test]
fn socket_summary_by_anchor() {
    let v4 = "sockets: used 9\nTCP: inuse 20 orphan 3 tw 1\nRAW: inuse 0\nUDP: inuse 5 mem 1\n";
    let r = proc_net_sockstat(v4).unwrap();
    assert_eq!((r.tcp_in_use, r.tcp_orphaned, r.udp_in_use), (20, 3, 5));
    let v6 = "TCP6: inuse 4\nUDP6: inuse 2\n";
    let s = socket_stats(v4, v6).unwrap();
    assert_eq!(s.tcp_sockets_in_use, 20);
    assert_eq!(s.tcp_sockets_orphaned, 3);
    assert_eq!(s.udp_sockets_in_use, 5);
    assert_eq!(s.tcp6_sockets_in_use, 4);
    assert_eq!(s.udp6_sockets_in_use, 2);
}

#[test]
fn socket_summary_errors() {
    assert_eq!(proc_net_sockstat("UDP: inuse 1\n"), Err(ParseError::NoTcpLine));
    assert_eq!(proc_net_sockstat("TCP: inuse 1 tw 2\nUDP: inuse 1\n"), Err(ParseError::NoTcpLine));
    assert_eq!(proc_net_sockstat("TCP: inuse 1 orphan 2\n"), Err(ParseError::NoUdpLine));
    assert_eq!(proc_net_sockstat6("UDP6: inuse 1\n"), Err(ParseError::NoTcp6Line));
    assert_eq!(proc_net_sockstat6("TCP6: inuse 1\nUDP6: used 1\n"), Err(ParseError::NoUdp6Line));
    assert_eq!(socket_stats("", ""), Err(ParseError::NoTcpLine));
    assert_eq!(socket_stats("TCP: inuse 1 orphan 0\nUDP: inuse 1\n", ""), Err(ParseError::NoTcp6Line));
}

#[test]
fn boot_time_line() {
    assert_eq!(proc_stat_boot_time("cpu 1\nbtime 1605203377\nprocesses 3\n"), Ok(1605203377));
    assert_eq!(proc_stat_boot_time("cpu 1\n"), Err(ParseError::NoBootTime));
    assert_eq!(proc_stat_boot_time("btime 12 13\n"), Err(ParseError::NoBootTime));
    assert_eq!(proc_stat_boot_time("btime 9223372036854775808\n"), Err(ParseError::NoBootTime));
}

#[test]
fn uptime_from_boot_time_and_back() {
    let now = UnixTime { secs: 1_000, nanos: 100 };
    let boot = UnixTime { secs: 400, nanos: 500 };
    let up = uptime(ClockSource::BootTime(boot), now).unwrap();
    assert_eq!(up, TimeSpan { secs: 599, nanos: 999_999_600 });
    assert_eq!(boot_time(ClockSource::Uptime(up), now), Ok(boot));
    assert_eq!(boot_time(ClockSource::BootTime(boot), now), Ok(boot));
    assert_eq!(uptime(ClockSource::Uptime(up), now), Ok(up));
}

#[test]
fn boot_time_from_uptime() {
    let now = UnixTime { secs: 100, nanos: 0 };
    let up = TimeSpan { secs: 30, nanos: 250 };
    assert_eq!(boot_time(ClockSource::Uptime(up), now), Ok(UnixTime { secs: 69, nanos: 999_999_750 }));
}

#[test]
fn derived_time_errors() {
    let now = UnixTime { secs: 10, nanos: 0 };
    let later = UnixTime { secs: 10, nanos: 1 };
    assert_eq!(uptime(ClockSource::BootTime(later), now), Err(TimeError::BootInFuture));
    let far = UnixTime { secs: i64::MIN, nanos: 0 };
    let long = TimeSpan { secs: 1, nanos: 0 };
    assert_eq!(boot_time(ClockSource::Uptime(long), far), Err(TimeError::OutOfRange));
}

#[test]
fn aggregate_sums_each_counter() {
    let v = vec![ticks(1, 2, 3, 4, 5, 6), ticks(10, 20, 30, 40, 50, 60)];
    assert_eq!(cpu_time_aggregate(&v), Some(ticks(11, 22, 33, 44, 55, 66)));
    assert_eq!(cpu_time_aggregate(&vec![]), Some(ticks(0, 0, 0, 0, 0, 0)));
    let big = vec![ticks(0, 0, 0, 0, usize::MAX, 0), ticks(0, 0, 0, 0, 1, 0)];
    assert_eq!(cpu_time_aggregate(&big), None);
}

#[test]
fn delayed_measurement_compares_with_first_sample() {
    let first = vec![ticks(1, 1, 1, 1, 1, 1), ticks(5, 5, 5, 5, 5, 5)];
    let m = DelayedMeasurement::new(first.clone());
    assert_eq!(m.first(), &first);
    let now = vec![ticks(2, 3, 4, 5, 6, 7), ticks(6, 5, 5, 5, 9, 5), ticks(9, 9, 9, 9, 9, 9)];
    let d = m.done(&now);
    assert_eq!(d, vec![ticks(1, 2, 3, 4, 5, 6), ticks(1, 0, 0, 0, 4, 0)]);
    assert_eq!(m.done(&now), d);
}

#[test]
fn mount_at_three_mounts() {
    let mounts = vec![fs("/"), fs("/home"), fs("/boot")];
    let m = mount_at(mounts.clone(), "/home").unwrap();
    assert_eq!(m.fs_mounted_on, "/home");
    assert_eq!(m.fs_mounted_from, "/dev/5");
    assert_eq!(mount_at(mounts.clone(), "/boot").unwrap().fs_mounted_on, "/boot");
    assert_eq!(mount_at(mounts, "/var").unwrap_err(), MountError::NoSuchMount);
}

#[test]
fn proc_mount_lookup() {
    let input = "proc /proc proc rw 0 0\n/dev/md0 / btrfs rw 0 0\n/dev/sda1 / ext4 rw 0 0\n";
    let m = proc_mount_at(input, "/").unwrap();
    assert_eq!(m.source, "/dev/md0");
    assert_eq!(m.fstype, "btrfs");
    assert_eq!(proc_mount_at(input, "/proc/").unwrap_err(), MountError::NoSuchMount);
}

#[test]
fn filesystem_from_counters() {
    let mount = ProcMountsData { source: "/dev/sda1".to_string(), target: "/".to_string(), fstype: "ext4".to_string() };
    let c = FsCounters { files: 100, ffree: 30, favail: 25, bfree: 10, bavail: 8, blocks: 50, bsize: 4096, namemax: 255 };
    let f = mount_filesystem(mount.clone(), c).unwrap();
    assert_eq!(f.files, 70);
    assert_eq!(f.files_total, 100);
    assert_eq!(f.files_avail, 25);
    assert_eq!(f.free, ByteSize::b(40960));
    assert_eq!(f.avail, ByteSize::b(32768));
    assert_eq!(f.total, ByteSize::b(204800));
    assert_eq!(f.name_max, 255);
    assert_eq!(f.fs_mounted_on, "/");
    assert_eq!(f.fs_mounted_from, "/dev/sda1");
    assert_eq!(f.fs_type, "ext4");
    let huge = FsCounters { blocks: u64::MAX, ..c };
    assert!(mount_filesystem(mount, huge).is_none());
}

#[test]
fn block_devices_first_line_per_name_wins() {
    let input = " 8 0 sda 1 2 3 4 5 6 7 8 9 10 11\n 8 1 sdb 1 1 1 1 1 1 1 1 1 1 1 9 9\nbad line\n 8 2 sda 9 9 9 9 9 9 9 9 9 9 9\n";
    let r = block_device_statistics(input);
    assert_eq!(r.len(), 2);
    assert_eq!(r[0].name, "sda");
    assert_eq!(r[0].read_ios, 1);
    assert_eq!(r[0].time_in_queue, 11);
    assert_eq!(r[1].name, "sdb");
}

#[test]
fn bsd_tick_layouts() {
    let c = systemstat::bsd::sysctl_cpu { user: 1, nice: 2, system: 3, interrupt: 4, idle: 5 };
    assert_eq!(CpuTime::from(c), ticks(1, 2, 3, 4, 5, 0));
    let o = systemstat::openbsd::sysctl_cpu { user: 1, nice: 2, system: 3, spin: 9, interrupt: 4, idle: 5 };
    assert_eq!(CpuTime::from(o), ticks(1, 2, 3, 4, 5, 0));
}

#[test]
fn meminfo_key_may_hold_blanks() {
    let m = proc_meminfo("  a b: 1 kB\nc d :2 kB\ne: 3 kB junk\n");
    assert_eq!(m.len(), 2);
    assert_eq!(m.get("a b"), Some(ByteSize::kib(1)));
    assert_eq!(m.get("c d "), Some(ByteSize::kib(2)));
    assert_eq!(m.get("e"), None);
}

#[test]
fn free_memory_never_exceeds_total() {
    let pm = PlatformMemory { meminfo: proc_meminfo("MemFree: 5 kB\n") };
    let mem = pm.to_memory();
    assert_eq!(mem.total, ByteSize::b(0));
    assert_eq!(mem.free, ByteSize::b(0));
    let pm = PlatformMemory { meminfo: proc_meminfo("MemTotal: 100 kB\nMemFree: 80 kB\nCached: 50 kB\n") };
    let mem = pm.to_memory();
    assert_eq!(mem.free, ByteSize::kib(100));
}

#[test]
fn cpu_table_ends_at_first_non_core_line() {
    let input = "cpu  1 1 1 1 1 1\ncpu0 1 2 3 4 5 6\n\nintr 1 2\ncpu1 1 1 1 1 1 1\n";
    assert_eq!(proc_stat_cpu_times(input).unwrap(), vec![ticks(1, 2, 3, 6, 4, 5)]);
}

#[test]
fn battery_sums_and_errors() {
    let rs = vec![
        BatteryReading { full: 1000, now: 400, current: 200 },
        BatteryReading { full: 500, now: 100, current: 100 },
    ];
    let t = battery_totals(&rs, false).unwrap();
    assert_eq!((t.full, t.now, t.seconds), (1500, 500, 6000));
    assert_eq!(battery_totals(&rs, true).unwrap().seconds, 12000);
    assert_eq!(battery_totals(&vec![], false), Err(BatteryError::Missing));
    let big = vec![
        BatteryReading { full: i32::MAX, now: 0, current: 1 },
        BatteryReading { full: 1, now: 0, current: 1 },
    ];
    assert_eq!(battery_totals(&big, false), Err(BatteryError::Overflow));
}
