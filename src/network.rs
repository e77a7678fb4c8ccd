//! Network interfaces: the addresses that the kernel lists one by one,
//! gathered into one record per interface.

use vstd::prelude::*;

verus! {

/// An interface address, as the kernel's address family gives it.
#[derive(Debug, Clone, Copy, PartialEq, Eq)]
pub enum IpAddr {
    /// No address was given.
    Empty,
    /// An address of a family other than IPv4 and IPv6.
    Unsupported,
    /// An IPv4 address, most significant octet first.
    V4([u8; 4]),
    /// An IPv6 address, most significant segment first.
    V6([u16; 8]),
}

/// An address of an interface with its netmask.
#[derive(Debug, Clone, Copy, PartialEq, Eq)]
pub struct NetworkAddrs {
    pub addr: IpAddr,
    pub netmask: IpAddr,
}

/// A network interface and its addresses, in the order listed.
#[derive(Debug, Clone)]
pub struct Network {
    pub name: String,
    pub addrs: Vec<NetworkAddrs>,
}

/// One entry of the kernel's address list: interface name, address, netmask.
pub struct InterfaceAddr {
    pub name: String,
    pub addr: IpAddr,
    pub netmask: IpAddr,
}

/// The position of the first group named `name`.
pub open spec fn group_index(g: Seq<(Seq<char>, Seq<NetworkAddrs>)>, name: Seq<char>) -> Option<int>
    decreases g.len(),
{
    if g.len() == 0 {
        None
    } else {
        match group_index(g.drop_last(), name) {
            Some(i) => Some(i),
            None => if g.last().0 == name {
                Some(g.len() - 1)
            } else {
                None
            },
        }
    }
}

/// The addresses that an entry adds to its interface: none for an
/// unsupported family.
pub open spec fn kept_addrs(e: InterfaceAddr) -> Seq<NetworkAddrs> {
    if e.addr is Unsupported {
        seq![]
    } else {
        seq![NetworkAddrs { addr: e.addr, netmask: e.netmask }]
    }
}

/// The address list read in order: one group per interface name, in order
/// of first appearance, holding its supported addresses in order.
pub open spec fn group_addrs(es: Seq<InterfaceAddr>) -> Seq<(Seq<char>, Seq<NetworkAddrs>)>
    decreases es.len(),
{
    if es.len() == 0 {
        seq![]
    } else {
        let g = group_addrs(es.drop_last());
        let e = es.last();
        match group_index(g, e.name@) {
            Some(i) => g.update(i, (g[i].0, g[i].1 + kept_addrs(e))),
            None => g.push((e.name@, kept_addrs(e))),
        }
    }
}

/// A network record holds group `g`.
pub open spec fn network_is(n: Network, g: (Seq<char>, Seq<NetworkAddrs>)) -> bool {
    n.name@ == g.0 && n.addrs@ == g.1
}

proof fn lemma_group_index(g: Seq<(Seq<char>, Seq<NetworkAddrs>)>, name: Seq<char>, k: int)
    requires
        0 <= k <= g.len(),
        forall|j: int| 0 <= j < k ==> (#[trigger] g[j]).0 != name,
    ensures
        k < g.len() && g[k].0 == name ==> group_index(g, name) == Some(k),
        k == g.len() ==> group_index(g, name) is None,
    decreases g.len(),
{
    if g.len() > 0 {
        if k < g.len() {
            lemma_group_index(g.drop_last(), name, k);
        } else {
            lemma_group_index(g.drop_last(), name, k - 1);
        }
    }
}

/// Gathers the kernel's address list into one record per interface, in
/// order of first appearance. Every interface listed gets a record; its
/// addresses are the supported ones, in order.
pub fn networks(entries: Vec<InterfaceAddr>) -> (r: Vec<Network>)
    ensures
        r.len() == group_addrs(entries@).len(),
        forall|i: int| 0 <= i < r.len() ==> network_is(#[trigger] r[i], group_addrs(entries@)[i]),
{
    let ghost all = entries@;
    let mut rest = entries;
    let mut r: Vec<Network> = Vec::new();
    let ghost mut k: int = 0;
    assert(all.subrange(0, 0) =~= Seq::<InterfaceAddr>::empty());
    while rest.len() > 0
        invariant
            0 <= k <= all.len(),
            rest@ == all.subrange(k, all.len() as int),
            r.len() == group_addrs(all.subrange(0, k)).len(),
            forall|i: int|
                0 <= i < r.len() ==> network_is(#[trigger] r[i], group_addrs(all.subrange(0, k))[i]),
        decreases rest.len(),
    {
        let ghost g = group_addrs(all.subrange(0, k));
        let ghost pre = all.subrange(0, k + 1);
        assert(pre.drop_last() =~= all.subrange(0, k));
        let e = rest.remove(0);
        assert(e == all[k]);
        assert(pre.last() == e);
        assert(rest@ =~= all.subrange(k + 1, all.len() as int));
        let mut i: usize = 0;
        let mut found = false;
        let mut j: usize = 0;
        while i < r.len()
            invariant
                i <= r.len(),
                j <= r.len(),
                r.len() == g.len(),
                forall|x: int| 0 <= x < r.len() ==> network_is(#[trigger] r[x], g[x]),
                found ==> j < i && g[j as int].0 == e.name@,
                forall|x: int| 0 <= x < (if found { j as int } else { i as int }) ==> (#[trigger] g[x]).0
                    != e.name@,
            decreases r.len() - i,
        {
            assert(network_is(r[i as int], g[i as int]));
            if !found && r[i].name == e.name {
                found = true;
                j = i;
            }
            i = i + 1;
        }
        if !found {
            j = i;
        }
        let keep = match e.addr {
            IpAddr::Unsupported => false,
            _ => true,
        };
        if found {
            proof {
                lemma_group_index(g, e.name@, j as int);
            }
            let ghost old_r = r@;
            let mut n = r.remove(j);
            assert(network_is(n, g[j as int]));
            if keep {
                n.addrs.push(NetworkAddrs { addr: e.addr, netmask: e.netmask });
            }
            assert(n.addrs@ =~= g[j as int].1 + kept_addrs(e));
            r.insert(j, n);
            assert(r@ =~= old_r.update(j as int, n));
            let ghost ng = g.update(j as int, (g[j as int].0, g[j as int].1 + kept_addrs(e)));
            assert(group_addrs(pre) == ng);
            assert(r.len() == ng.len());
            assert forall|i: int| 0 <= i < r.len() implies network_is(#[trigger] r[i], ng[i]) by {
                if i != j {
                    assert(r[i] == old_r[i]);
                    assert(network_is(old_r[i], g[i]));
                }
            }
        } else {
            proof {
                lemma_group_index(g, e.name@, j as int);
            }
            let mut addrs: Vec<NetworkAddrs> = Vec::new();
            if keep {
                addrs.push(NetworkAddrs { addr: e.addr, netmask: e.netmask });
            }
            assert(addrs@ =~= kept_addrs(e));
            let ghost old_r = r@;
            r.push(Network { name: e.name, addrs });
            let ghost ng = g.push((e.name@, kept_addrs(e)));
            assert(group_addrs(pre) == ng);
            assert forall|i: int| 0 <= i < r.len() implies network_is(#[trigger] r[i], ng[i]) by {
                if i < old_r.len() {
                    assert(r[i] == old_r[i]);
                    assert(network_is(old_r[i], g[i]));
                }
            }
        }
        proof {
            k = k + 1;
        }
        assert(all.subrange(0, k) == pre);
    }
    assert(all.subrange(0, all.len() as int) =~= all);
    r
}


/// The value of a `width`-bit group whose leading `n` bits are set and the
/// rest clear; `n` is clamped to `0..=width`.
pub open spec fn leading_ones(n: int, width: nat) -> int {
    if n <= 0 {
        0
    } else if n >= width {
        vstd::arithmetic::power2::pow2(width) - 1
    } else {
        vstd::arithmetic::power2::pow2(width) - vstd::arithmetic::power2::pow2((width - n) as nat)
    }
}

/// The `width`-bit group with its leading `n` bits set, for `n <= width <= 16`.
fn leading_ones_exec(n: u32, width: u32) -> (r: u32)
    requires
        n <= width <= 16,
    ensures
        r == leading_ones(n as int, width as nat),
{
    // 2^(width - n) and 2^width, by doubling
    proof {
        vstd::arithmetic::power2::lemma2_to64();
    }
    let mut low: u32 = 1;
    let mut k: u32 = 0;
    while k < width - n
        invariant
            k <= width - n,
            n <= width <= 16,
            low == vstd::arithmetic::power2::pow2(k as nat),
        decreases width - n - k,
    {
        proof {
            vstd::arithmetic::power2::lemma_pow2_unfold((k + 1) as nat);
            vstd::arithmetic::power2::lemma_pow2_strictly_increases(k as nat, 16);
            vstd::arithmetic::power2::lemma2_to64();
        }
        low = low * 2;
        k = k + 1;
    }
    let mut full: u32 = low;
    while k < width
        invariant
            width - n <= k <= width,
            width <= 16,
            low == vstd::arithmetic::power2::pow2((width - n) as nat),
            full == vstd::arithmetic::power2::pow2(k as nat),
        decreases width - k,
    {
        proof {
            vstd::arithmetic::power2::lemma_pow2_unfold((k + 1) as nat);
            vstd::arithmetic::power2::lemma_pow2_strictly_increases(k as nat, 16);
            vstd::arithmetic::power2::lemma2_to64();
        }
        full = full * 2;
        k = k + 1;
    }
    proof {
        vstd::arithmetic::power2::lemma_pow2_pos((width - n) as nat);
        if n > 0 {
            vstd::arithmetic::power2::lemma_pow2_strictly_increases((width - n) as nat, width as nat);
        }
    }
    if n == 0 {
        0
    } else {
        full - low
    }
}

/// The IPv4 netmask of a prefix of `bits` bits: the leading `bits` bits set.
pub fn netmask_v4(bits: u8) -> (r: [u8; 4])
    ensures
        forall|k: int| 0 <= k < 4 ==> #[trigger] r[k] == leading_ones(bits - 8 * k, 8),
{
    let mut r: [u8; 4] = [0; 4];
    let mut k: usize = 0;
    while k < 4
        invariant
            k <= 4,
            forall|j: int| 0 <= j < k ==> #[trigger] r[j] == leading_ones(bits - 8 * j, 8),
        decreases 4 - k,
    {
        let idx8 = 8 * k as u32;
        let n: u32 = if bits as u32 > idx8 + 8 {
            8
        } else if bits as u32 > idx8 {
            bits as u32 - idx8
        } else {
            0
        };
        let v = leading_ones_exec(n, 8);
        proof {
            vstd::arithmetic::power2::lemma2_to64();
            vstd::arithmetic::power2::lemma_pow2_pos((8 - n) as nat);
        }
        assert(v == leading_ones(bits - 8 * k, 8));
        r.set(k, v as u8);
        k = k + 1;
    }
    r
}

/// The IPv6 netmask of a prefix of `bits` bits: the leading `bits` bits set.
pub fn netmask_v6(bits: u8) -> (r: [u16; 8])
    ensures
        forall|k: int| 0 <= k < 8 ==> #[trigger] r[k] == leading_ones(bits - 16 * k, 16),
{
    let mut r: [u16; 8] = [0; 8];
    let mut k: usize = 0;
    while k < 8
        invariant
            k <= 8,
            forall|j: int| 0 <= j < k ==> #[trigger] r[j] == leading_ones(bits - 16 * j, 16),
        decreases 8 - k,
    {
        let idx16 = 16 * k as u32;
        let n: u32 = if bits as u32 > idx16 + 16 {
            16
        } else if bits as u32 > idx16 {
            bits as u32 - idx16
        } else {
            0
        };
        let v = leading_ones_exec(n, 16);
        proof {
            vstd::arithmetic::power2::lemma2_to64();
            vstd::arithmetic::power2::lemma_pow2_pos((16 - n) as nat);
        }
        assert(v == leading_ones(bits - 16 * k, 16));
        r.set(k, v as u16);
        k = k + 1;
    }
    r
}

} // verus!
