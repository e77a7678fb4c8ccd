//! The per-core tick counters as OpenBSD lays them out.

use vstd::prelude::*;

use crate::data::CpuTime;

verus! {

/// Per-core ticks as OpenBSD reports them; spin time is its own category.
#[allow(non_camel_case_types)]
#[derive(Debug, Clone, Copy, PartialEq, Eq, Structural)]
pub struct sysctl_cpu {
    pub user: usize,
    pub nice: usize,
    pub system: usize,
    pub spin: usize,
    pub interrupt: usize,
    pub idle: usize,
}

impl From<sysctl_cpu> for CpuTime {
    /// The counters the common sample has; spin time is left out.
    fn from(cpu: sysctl_cpu) -> (r: CpuTime)
        ensures
            r == CpuTime::from_openbsd(cpu),
    {
        CpuTime {
            user: cpu.user,
            nice: cpu.nice,
            system: cpu.system,
            interrupt: cpu.interrupt,
            idle: cpu.idle,
            other: 0,
        }
    }
}

impl vstd::std_specs::convert::FromSpecImpl<sysctl_cpu> for CpuTime {
    open spec fn obeys_from_spec() -> bool {
        true
    }

    open spec fn from_spec(cpu: sysctl_cpu) -> CpuTime {
        CpuTime::from_openbsd(cpu)
    }
}

impl CpuTime {
    /// The tick sample that an OpenBSD per-core record stands for.
    pub open spec fn from_openbsd(cpu: sysctl_cpu) -> CpuTime {
        CpuTime {
            user: cpu.user,
            nice: cpu.nice,
            system: cpu.system,
            interrupt: cpu.interrupt,
            idle: cpu.idle,
            other: 0,
        }
    }
}

} // verus!
