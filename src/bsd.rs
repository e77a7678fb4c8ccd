//! The per-core tick counters as the BSD kernels lay them out.

use vstd::prelude::*;

use crate::data::CpuTime;

verus! {

/// Per-core ticks as FreeBSD, NetBSD and macOS report them.
#[allow(non_camel_case_types)]
#[derive(Debug, Clone, Copy, PartialEq, Eq, Structural)]
pub struct sysctl_cpu {
    pub user: usize,
    pub nice: usize,
    pub system: usize,
    pub interrupt: usize,
    pub idle: usize,
}

impl From<sysctl_cpu> for CpuTime {
    /// The same counters; these kernels count nothing as `other`.
    fn from(cpu: sysctl_cpu) -> (r: CpuTime)
        ensures
            r == CpuTime::from_bsd(cpu),
    {
        CpuTime {
            user: cpu.user,
            nice: cpu.nice,
            system: cpu.system,
            interrupt: cpu.interrupt,
            idle: cpu.idle,
            other: 0,
        }
    }
}

impl vstd::std_specs::convert::FromSpecImpl<sysctl_cpu> for CpuTime {
    open spec fn obeys_from_spec() -> bool {
        true
    }

    open spec fn from_spec(cpu: sysctl_cpu) -> CpuTime {
        CpuTime::from_bsd(cpu)
    }
}

impl CpuTime {
    /// The tick sample that a BSD per-core record stands for.
    pub open spec fn from_bsd(cpu: sysctl_cpu) -> CpuTime {
        CpuTime {
            user: cpu.user,
            nice: cpu.nice,
            system: cpu.system,
            interrupt: cpu.interrupt,
            idle: cpu.idle,
            other: 0,
        }
    }
}

} // verus!
