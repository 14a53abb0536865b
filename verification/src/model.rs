//! Plain data shared between the sampler and its callers.
use vstd::prelude::*;

verus! {

/// Memory figures in kB, as `/proc/meminfo` and zram report them.
pub struct Memory {
    pub total_kb: u64,
    pub free_kb: u64,
    pub avail_kb: u64,
    /// Buffers plus Cached.
    pub cache_kb: u64,
    pub swap_total_kb: u64,
    pub swap_free_kb: u64,
    /// The compressed size of zram's contents.
    pub zram_compressed_kb: u64,
}

/// The throughput of one network interface, in bytes per second.
pub struct NetIface {
    pub name: String,
    /// `Wi-Fi`, `Ethernet`, or the interface's name.
    pub label: String,
    pub down_bps: u64,
    pub up_bps: u64,
}

/// Network throughput: the totals over the interfaces, and each interface.
pub struct Net {
    pub down_bps: u64,
    pub up_bps: u64,
    pub ifaces: Vec<NetIface>,
}

/// The sum of the interfaces' download rates.
pub open spec fn down_sum(s: Seq<NetIface>) -> int
    decreases s.len(),
{
    if s.len() == 0 {
        0
    } else {
        down_sum(s.drop_last()) + s.last().down_bps
    }
}

/// The sum of the interfaces' upload rates.
pub open spec fn up_sum(s: Seq<NetIface>) -> int
    decreases s.len(),
{
    if s.len() == 0 {
        0
    } else {
        up_sum(s.drop_last()) + s.last().up_bps
    }
}

/// Both totals fit in a `u64`.
pub open spec fn net_fits(s: Seq<NetIface>) -> bool {
    down_sum(s) <= u64::MAX && up_sum(s) <= u64::MAX
}

proof fn lemma_sums_grow(s: Seq<NetIface>, k: int)
    requires
        0 <= k <= s.len(),
    ensures
        0 <= down_sum(s.take(k)) <= down_sum(s),
        0 <= up_sum(s.take(k)) <= up_sum(s),
    decreases s.len(),
{
    if s.len() > 0 {
        if k == s.len() {
            assert(s.take(k) =~= s);
            lemma_sums_grow(s.drop_last(), k - 1);
            assert(s.drop_last().take(k - 1) =~= s.drop_last());
        } else {
            lemma_sums_grow(s.drop_last(), k);
            assert(s.drop_last().take(k) =~= s.take(k));
        }
    }
}

proof fn lemma_sums_step(s: Seq<NetIface>, k: int)
    requires
        0 <= k < s.len(),
    ensures
        down_sum(s.take(k + 1)) == down_sum(s.take(k)) + s[k].down_bps,
        up_sum(s.take(k + 1)) == up_sum(s.take(k)) + s[k].up_bps,
{
    assert(s.take(k + 1).drop_last() =~= s.take(k));
}

/// Whether [`net_totals`] may add up `ifaces` (see [`net_fits`]).
pub fn net_fits_check(ifaces: &[NetIface]) -> (b: bool)
    ensures
        b == net_fits(ifaces@),
{
    let mut down: u64 = 0;
    let mut up: u64 = 0;
    let mut i: usize = 0;
    assert(ifaces@.take(0) =~= seq![]);
    while i < ifaces.len()
        invariant
            0 <= i <= ifaces@.len(),
            down == down_sum(ifaces@.take(i as int)),
            up == up_sum(ifaces@.take(i as int)),
        decreases ifaces.len() - i,
    {
        proof {
            lemma_sums_step(ifaces@, i as int);
            lemma_sums_grow(ifaces@, i + 1);
        }
        match down.checked_add(ifaces[i].down_bps) {
            Some(d) => down = d,
            None => return false,
        }
        match up.checked_add(ifaces[i].up_bps) {
            Some(u) => up = u,
            None => return false,
        }
        i += 1;
    }
    assert(ifaces@.take(ifaces@.len() as int) =~= ifaces@);
    true
}

/// The network figures of a sample: `ifaces` as they are, and the totals
/// of their download and upload rates.
pub fn net_totals(ifaces: Vec<NetIface>) -> (n: Net)
    requires
        net_fits(ifaces@),
    ensures
        n.ifaces@ == ifaces@,
        n.down_bps == down_sum(ifaces@),
        n.up_bps == up_sum(ifaces@),
{
    let mut down: u64 = 0;
    let mut up: u64 = 0;
    let mut i: usize = 0;
    assert(ifaces@.take(0) =~= seq![]);
    while i < ifaces.len()
        invariant
            net_fits(ifaces@),
            0 <= i <= ifaces@.len(),
            down == down_sum(ifaces@.take(i as int)),
            up == up_sum(ifaces@.take(i as int)),
        decreases ifaces.len() - i,
    {
        proof {
            lemma_sums_step(ifaces@, i as int);
            lemma_sums_grow(ifaces@, i + 1);
        }
        down = down + ifaces[i].down_bps;
        up = up + ifaces[i].up_bps;
        i += 1;
    }
    assert(ifaces@.take(ifaces@.len() as int) =~= ifaces@);
    Net { down_bps: down, up_bps: up, ifaces }
}

} // verus!
