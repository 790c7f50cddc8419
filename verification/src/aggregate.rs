//! The aggregation engine.
//!
//! Folds a flat list of observations into a table mapping each host address
//! to the hardware addresses it resolved to, each with its occurrence
//! count. The table is kept in ascending address order with each entry's
//! hardware addresses in ascending order, so that equal observation
//! multisets always produce identical tables, whatever order the
//! observations arrived in.

use vstd::prelude::*;

verus! {

use vstd::multiset::Multiset;
use vstd::multiset::group_multiset_axioms;
use vstd::seq_lib::group_to_multiset_ensures;
use crate::scan::Observation;

broadcast use group_to_multiset_ensures, group_multiset_axioms,
    vstd::multiset::lemma_insert_increases_count_by_1,
    vstd::multiset::lemma_insert_other_elements_unchanged;

/// One hardware address and how often it was observed.
#[derive(Clone, Copy, Debug, PartialEq, Eq, Structural)]
#[verifier::ext_equal]
pub struct MacCount {
    pub hw: u64,
    pub count: u64,
}

/// All hardware addresses one host address resolved to.
#[derive(Clone, Debug)]
pub struct AddrEntry {
    pub addr: u32,
    pub macs: Vec<MacCount>,
}

/// The aggregation of a whole run: one entry per observed host address.
#[derive(Clone, Debug)]
pub struct AggregationTable {
    pub entries: Vec<AddrEntry>,
}

/// How often the pair (address, hardware address) occurs among the
/// observations. Defined over the multiset of observations, so it is
/// order-independent by construction.
pub open spec fn pair_count(obs: Seq<Observation>, a: u32, h: u64) -> nat {
    obs.to_multiset().count(Observation { addr: a, hw: h })
}

/// The count a mac list stores for hardware address `h` (0 when absent).
pub open spec fn mac_count_in(macs: Seq<MacCount>, h: u64) -> nat
    decreases macs.len(),
{
    if macs.len() == 0 {
        0
    } else if macs[0].hw == h {
        macs[0].count as nat
    } else {
        mac_count_in(macs.drop_first(), h)
    }
}

/// The count a table stores for the pair (address, hardware address).
pub open spec fn table_count(entries: Seq<AddrEntry>, a: u32, h: u64) -> nat
    decreases entries.len(),
{
    if entries.len() == 0 {
        0
    } else if entries[0].addr == a {
        mac_count_in(entries[0].macs@, h)
    } else {
        table_count(entries.drop_first(), a, h)
    }
}

/// A strictly ascending list of hardware addresses.
pub open spec fn hw_ascending(macs: Seq<MacCount>) -> bool {
    forall|i: int, j: int|
        0 <= i < j < macs.len() ==> #[trigger] macs[i].hw < #[trigger] macs[j].hw
}

/// A strictly ascending list of table entries.
pub open spec fn addr_ascending(e: Seq<AddrEntry>) -> bool {
    forall|i: int, j: int|
        0 <= i < j < e.len() ==> #[trigger] e[i].addr < #[trigger] e[j].addr
}

/// A well-formed mac list: nonempty, strictly ascending, every count
/// positive.
pub open spec fn macs_wf(macs: Seq<MacCount>) -> bool {
    &&& macs.len() >= 1
    &&& hw_ascending(macs)
    &&& forall|i: int| 0 <= i < macs.len() ==> (#[trigger] macs[i]).count >= 1
}

/// A well-formed table: strictly ascending addresses, each with a
/// well-formed mac list.
pub open spec fn entries_wf(e: Seq<AddrEntry>) -> bool {
    &&& addr_ascending(e)
    &&& forall|i: int| 0 <= i < e.len() ==> macs_wf((#[trigger] e[i]).macs@)
}

/// In an ascending mac list, a present key's stored count is what
/// `mac_count_in` yields.
pub proof fn lemma_mac_lookup(macs: Seq<MacCount>, i: int, h: u64)
    requires
        hw_ascending(macs),
        0 <= i < macs.len(),
        macs[i].hw == h,
    ensures
        mac_count_in(macs, h) == macs[i].count,
    decreases i,
{
    if i > 0 {
        assert(macs[0].hw < macs[i].hw);
        assert(hw_ascending(macs.drop_first())) by {
            assert(forall|p: int, q: int|
                0 <= p < q < macs.drop_first().len() ==> #[trigger] macs.drop_first()[p].hw
                    < #[trigger] macs.drop_first()[q].hw) by {
                assert(forall|p: int|
                    0 <= p < macs.drop_first().len() ==> #[trigger] macs.drop_first()[p]
                        == macs[p + 1]);
            }
        }
        lemma_mac_lookup(macs.drop_first(), i - 1, h);
        assert(macs.drop_first()[i - 1] == macs[i]);
    }
}

/// A key no element of a mac list carries has count 0.
pub proof fn lemma_mac_absent(macs: Seq<MacCount>, h: u64)
    requires
        forall|i: int| 0 <= i < macs.len() ==> (#[trigger] macs[i]).hw != h,
    ensures
        mac_count_in(macs, h) == 0,
    decreases macs.len(),
{
    if macs.len() > 0 {
        assert(forall|i: int|
            0 <= i < macs.drop_first().len() ==> #[trigger] macs.drop_first()[i] == macs[i
                + 1]);
        lemma_mac_absent(macs.drop_first(), h);
    }
}

/// In an ascending table, a present address's count for any hardware
/// address is what its own mac list stores.
pub proof fn lemma_table_lookup(e: Seq<AddrEntry>, i: int, a: u32, h: u64)
    requires
        addr_ascending(e),
        0 <= i < e.len(),
        e[i].addr == a,
    ensures
        table_count(e, a, h) == mac_count_in(e[i].macs@, h),
    decreases i,
{
    if i > 0 {
        assert(e[0].addr < e[i].addr);
        assert(addr_ascending(e.drop_first())) by {
            assert(forall|p: int|
                0 <= p < e.drop_first().len() ==> #[trigger] e.drop_first()[p] == e[p + 1]);
        }
        lemma_table_lookup(e.drop_first(), i - 1, a, h);
        assert(e.drop_first()[i - 1] == e[i]);
    }
}

/// An address no table entry carries has count 0 for every hardware
/// address.
pub proof fn lemma_table_absent(e: Seq<AddrEntry>, a: u32, h: u64)
    requires
        forall|i: int| 0 <= i < e.len() ==> (#[trigger] e[i]).addr != a,
    ensures
        table_count(e, a, h) == 0,
    decreases e.len(),
{
    if e.len() > 0 {
        assert(forall|i: int|
            0 <= i < e.drop_first().len() ==> #[trigger] e.drop_first()[i] == e[i + 1]);
        lemma_table_absent(e.drop_first(), a, h);
    }
}

impl AggregationTable {
    pub open spec fn wf(self) -> bool {
        entries_wf(self.entries@)
    }

    /// The count the table stores for one pair.
    pub open spec fn count_of(self, a: u32, h: u64) -> nat {
        table_count(self.entries@, a, h)
    }

    /// Whether the table has an entry for the address.
    pub open spec fn has_addr(self, a: u32) -> bool {
        exists|i: int| 0 <= i < self.entries@.len() && self.entries@[i].addr == a
    }
}

/// Counts how often the pair (a, h) occurs among the observations.
#[verifier::loop_isolation(false)]
pub fn count_pair(obs: &Vec<Observation>, a: u32, h: u64) -> (r: u64)
    ensures
        r == pair_count(obs@, a, h),
{
    let o = Observation { addr: a, hw: h };
    let mut r: u64 = 0;
    let mut i: usize = 0;
    proof {
        assert(obs@.take(0) =~= Seq::<Observation>::empty());
        assert(Seq::<Observation>::empty().to_multiset() =~= Multiset::<
            Observation,
        >::empty());
    }
    while i < obs.len()
        invariant
            i <= obs.len(),
            r <= i,
            r == pair_count(obs@.take(i as int), a, h),
        decreases obs.len() - i,
    {
        proof {
            let pre = obs@.take(i as int);
            let x = obs@[i as int];
            assert(obs@.take(i + 1) =~= pre.push(x));
            assert(pre.push(x).to_multiset() =~= pre.to_multiset().insert(x));
            if x == o {
                assert(pre.to_multiset().insert(x).count(o) == pre.to_multiset().count(o)
                    + 1);
            } else {
                assert(pre.to_multiset().insert(x).count(o) == pre.to_multiset().count(o));
            }
        }
        if obs[i] == o {
            r = r + 1;
        }
        i = i + 1;
    }
    proof {
        assert(obs@.take(obs@.len() as int) =~= obs@);
    }
    r
}

/// Inserts `x` into a strictly ascending list if it is not already there.
fn insert_distinct_u64(v: &mut Vec<u64>, x: u64)
    requires
        forall|i: int, j: int|
            0 <= i < j < old(v)@.len() ==> #[trigger] old(v)@[i] < #[trigger] old(v)@[j],
    ensures
        forall|i: int, j: int|
            0 <= i < j < final(v)@.len() ==> #[trigger] final(v)@[i] < #[trigger] final(v)@[j],
        forall|y: u64| final(v)@.contains(y) <==> old(v)@.contains(y) || y == x,
{
    let ghost v0 = v@;
    let mut j: usize = 0;
    while j < v.len() && v[j] < x
        invariant
            j <= v@.len(),
            v@ == v0,
            forall|i: int| 0 <= i < j ==> #[trigger] v@[i] < x,
        decreases v@.len() - j,
    {
        j = j + 1;
    }
    if j < v.len() && v[j] == x {
        proof {
            assert(v@.contains(x));
            assert(forall|y: u64| v@.contains(y) <==> v0.contains(y) || y == x);
        }
        return ;
    }
    v.insert(j, x);
    proof {
        assert(forall|i: int| 0 <= i < j ==> v@[i] == v0[i]);
        assert(v@[j as int] == x);
        assert(forall|i: int| j < i < v@.len() ==> v@[i] == v0[i - 1]);
        assert(j < v0.len() ==> v0[j as int] > x);
        assert forall|i: int, j2: int| 0 <= i < j2 < v@.len() implies #[trigger] v@[i]
            < #[trigger] v@[j2] by {
            if i < j && j2 > j {
                assert(v@[i] == v0[i]);
                assert(v@[j2] == v0[j2 - 1]);
                if j2 - 1 == j {
                    assert(v0[j as int] > x);
                } else {
                    assert(v0[i] < v0[j2 - 1]);
                }
            }
        }
        assert forall|y: u64| final(v)@.contains(y) <==> v0.contains(y) || y == x by {
            if v@.contains(y) {
                let i = choose|i: int| 0 <= i < v@.len() && v@[i] == y;
                if i < j {
                    assert(v0[i] == y);
                } else if i == j {
                } else {
                    assert(v0[i - 1] == y);
                }
            }
            if v0.contains(y) {
                let i = choose|i: int| 0 <= i < v0.len() && v0[i] == y;
                if i < j {
                    assert(v@[i] == y);
                } else {
                    assert(v@[i + 1] == y);
                }
            }
            if y == x {
                assert(v@[j as int] == y);
            }
        }
    }
}

/// Inserts `x` into a strictly ascending list if it is not already there.
fn insert_distinct_u32(v: &mut Vec<u32>, x: u32)
    requires
        forall|i: int, j: int|
            0 <= i < j < old(v)@.len() ==> #[trigger] old(v)@[i] < #[trigger] old(v)@[j],
    ensures
        forall|i: int, j: int|
            0 <= i < j < final(v)@.len() ==> #[trigger] final(v)@[i] < #[trigger] final(v)@[j],
        forall|y: u32| final(v)@.contains(y) <==> old(v)@.contains(y) || y == x,
{
    let ghost v0 = v@;
    let mut j: usize = 0;
    while j < v.len() && v[j] < x
        invariant
            j <= v@.len(),
            v@ == v0,
            forall|i: int| 0 <= i < j ==> #[trigger] v@[i] < x,
        decreases v@.len() - j,
    {
        j = j + 1;
    }
    if j < v.len() && v[j] == x {
        proof {
            assert(v@.contains(x));
            assert(forall|y: u32| v@.contains(y) <==> v0.contains(y) || y == x);
        }
        return ;
    }
    v.insert(j, x);
    proof {
        assert(forall|i: int| 0 <= i < j ==> v@[i] == v0[i]);
        assert(v@[j as int] == x);
        assert(forall|i: int| j < i < v@.len() ==> v@[i] == v0[i - 1]);
        assert(j < v0.len() ==> v0[j as int] > x);
        assert forall|i: int, j2: int| 0 <= i < j2 < v@.len() implies #[trigger] v@[i]
            < #[trigger] v@[j2] by {
            if i < j && j2 > j {
                assert(v@[i] == v0[i]);
                assert(v@[j2] == v0[j2 - 1]);
                if j2 - 1 == j {
                    assert(v0[j as int] > x);
                } else {
                    assert(v0[i] < v0[j2 - 1]);
                }
            }
        }
        assert forall|y: u32| final(v)@.contains(y) <==> v0.contains(y) || y == x by {
            if v@.contains(y) {
                let i = choose|i: int| 0 <= i < v@.len() && v@[i] == y;
                if i < j {
                    assert(v0[i] == y);
                } else if i == j {
                } else {
                    assert(v0[i - 1] == y);
                }
            }
            if v0.contains(y) {
                let i = choose|i: int| 0 <= i < v0.len() && v0[i] == y;
                if i < j {
                    assert(v@[i] == y);
                } else {
                    assert(v@[i + 1] == y);
                }
            }
            if y == x {
                assert(v@[j as int] == y);
            }
        }
    }
}

/// The distinct addresses among the observations, ascending.
fn distinct_addrs(obs: &Vec<Observation>) -> (r: Vec<u32>)
    ensures
        forall|i: int, j: int|
            0 <= i < j < r@.len() ==> #[trigger] r@[i] < #[trigger] r@[j],
        forall|a: u32|
            r@.contains(a) <==> exists|k: int|
                0 <= k < obs@.len() && (#[trigger] obs@[k]).addr == a,
{
    let mut r: Vec<u32> = Vec::new();
    let mut i: usize = 0;
    while i < obs.len()
        invariant
            i <= obs.len(),
            forall|p: int, q: int|
                0 <= p < q < r@.len() ==> #[trigger] r@[p] < #[trigger] r@[q],
            forall|a: u32|
                r@.contains(a) <==> exists|k: int|
                    0 <= k < i && (#[trigger] obs@[k]).addr == a,
        decreases obs.len() - i,
    {
        insert_distinct_u32(&mut r, obs[i].addr);
        i = i + 1;
    }
    r
}

/// The distinct hardware addresses observed for one address, ascending.
fn distinct_hws_for(obs: &Vec<Observation>, a: u32) -> (r: Vec<u64>)
    ensures
        forall|i: int, j: int|
            0 <= i < j < r@.len() ==> #[trigger] r@[i] < #[trigger] r@[j],
        forall|h: u64|
            r@.contains(h) <==> exists|k: int|
                0 <= k < obs@.len() && #[trigger] obs@[k] == (Observation { addr: a, hw: h }),
{
    let mut r: Vec<u64> = Vec::new();
    let mut i: usize = 0;
    while i < obs.len()
        invariant
            i <= obs.len(),
            forall|p: int, q: int|
                0 <= p < q < r@.len() ==> #[trigger] r@[p] < #[trigger] r@[q],
            forall|h: u64|
                r@.contains(h) <==> exists|k: int|
                    0 <= k < i && #[trigger] obs@[k] == (Observation { addr: a, hw: h }),
        decreases obs.len() - i,
    {
        if obs[i].addr == a {
            insert_distinct_u64(&mut r, obs[i].hw);
            proof {
                assert(obs@[i as int] == (Observation { addr: a, hw: obs@[i as int].hw }));
            }
        }
        i = i + 1;
    }
    r
}

/// Folds the observations into the aggregation table: for every pair of
/// address and hardware address, the table stores exactly how often the
/// pair was observed, and it has an entry for an address exactly when some
/// observation carries it.
#[verifier::loop_isolation(false)]
pub fn aggregate(obs: &Vec<Observation>) -> (t: AggregationTable)
    ensures
        t.wf(),
        forall|a: u32, h: u64| #[trigger] t.count_of(a, h) == pair_count(obs@, a, h),
        forall|a: u32|
            #[trigger] t.has_addr(a) <==> exists|k: int|
                0 <= k < obs@.len() && (#[trigger] obs@[k]).addr == a,
{
    let addrs = distinct_addrs(obs);
    let mut entries: Vec<AddrEntry> = Vec::new();
    let mut ai: usize = 0;
    while ai < addrs.len()
        invariant
            ai <= addrs@.len(),
            entries@.len() == ai,
            forall|i: int| 0 <= i < ai ==> (#[trigger] entries@[i]).addr == addrs@[i],
            forall|i: int| 0 <= i < ai ==> macs_wf((#[trigger] entries@[i]).macs@),
            forall|i: int, h: u64|
                0 <= i < ai ==> #[trigger] mac_count_in(entries@[i].macs@, h) == pair_count(
                    obs@,
                    entries@[i].addr,
                    h,
                ),
            forall|i: int, h: u64|
                0 <= i < ai ==> ((exists|j: int|
                    0 <= j < entries@[i].macs@.len() && (#[trigger] entries@[i].macs@[j]).hw
                        == h) <==> #[trigger] obs@.contains(
                    Observation { addr: entries@[i].addr, hw: h },
                )),
        decreases addrs@.len() - ai,
    {
        let a = addrs[ai];
        let hws = distinct_hws_for(obs, a);
        let mut macs: Vec<MacCount> = Vec::new();
        let mut hi: usize = 0;
        while hi < hws.len()
            invariant
                hi <= hws@.len(),
                macs@.len() == hi,
                forall|j: int| 0 <= j < hi ==> (#[trigger] macs@[j]).hw == hws@[j],
                forall|j: int|
                    0 <= j < hi ==> (#[trigger] macs@[j]).count == pair_count(
                        obs@,
                        a,
                        macs@[j].hw,
                    ),
                forall|j: int| 0 <= j < hi ==> (#[trigger] macs@[j]).count >= 1,
            decreases hws@.len() - hi,
        {
            let h = hws[hi];
            let c = count_pair(obs, a, h);
            proof {
                assert(hws@.contains(hws@[hi as int]));
                let k = choose|k: int|
                    0 <= k < obs@.len() && obs@[k] == (Observation { addr: a, hw: h });
                assert(obs@.contains(Observation { addr: a, hw: h }));
                assert(pair_count(obs@, a, h) > 0);
            }
            macs.push(MacCount { hw: h, count: c });
            hi = hi + 1;
        }
        let ghost macs_snap = macs@;
        proof {
            assert(addrs@.contains(addrs@[ai as int]));
            let k = choose|k: int| 0 <= k < obs@.len() && (#[trigger] obs@[k]).addr == a;
            assert(obs@[k] =~= (Observation { addr: a, hw: obs@[k].hw }));
            assert(hws@.contains(obs@[k].hw));
            assert(hws@.len() >= 1);
            assert(hw_ascending(macs_snap)) by {
                assert(forall|p: int, q: int|
                    0 <= p < q < macs_snap.len() ==> (#[trigger] macs_snap[p]).hw
                        < (#[trigger] macs_snap[q]).hw);
            }
            assert(macs_wf(macs_snap));
            assert forall|h: u64|
                (exists|j: int|
                    0 <= j < macs_snap.len() && (#[trigger] macs_snap[j]).hw == h)
                    <==> #[trigger] obs@.contains(Observation { addr: a, hw: h }) by {
                if exists|j: int| 0 <= j < macs_snap.len() && (#[trigger] macs_snap[j]).hw == h {
                    let j = choose|j: int|
                        0 <= j < macs_snap.len() && (#[trigger] macs_snap[j]).hw == h;
                    assert(hws@.contains(hws@[j]));
                    let k2 = choose|k2: int|
                        0 <= k2 < obs@.len() && #[trigger] obs@[k2] == (Observation {
                            addr: a,
                            hw: h,
                        });
                    assert(obs@.contains(Observation { addr: a, hw: h }));
                }
                if obs@.contains(Observation { addr: a, hw: h }) {
                    assert(hws@.contains(h));
                    let j = choose|j: int| 0 <= j < hws@.len() && hws@[j] == h;
                    assert(macs_snap[j].hw == h);
                }
            }
            assert forall|h: u64| #[trigger] mac_count_in(macs_snap, h) == pair_count(
                obs@,
                a,
                h,
            ) by {
                if exists|j: int| 0 <= j < macs_snap.len() && (#[trigger] macs_snap[j]).hw == h {
                    let j = choose|j: int|
                        0 <= j < macs_snap.len() && (#[trigger] macs_snap[j]).hw == h;
                    lemma_mac_lookup(macs_snap, j, h);
                } else {
                    lemma_mac_absent(macs_snap, h);
                    assert(!obs@.contains(Observation { addr: a, hw: h }));
                    assert(pair_count(obs@, a, h) == 0);
                }
            }
        }
        entries.push(AddrEntry { addr: a, macs });
        proof {
            assert(entries@[ai as int].addr == a);
            assert(entries@[ai as int].macs@ == macs_snap);
        }
        ai = ai + 1;
    }
    let t = AggregationTable { entries };
    proof {
        assert forall|a: u32, h: u64| #[trigger] t.count_of(a, h) == pair_count(obs@, a, h) by {
            if exists|i: int| 0 <= i < entries@.len() && (#[trigger] entries@[i]).addr == a {
                let i = choose|i: int|
                    0 <= i < entries@.len() && (#[trigger] entries@[i]).addr == a;
                lemma_table_lookup(entries@, i, a, h);
                let macs = entries@[i].macs@;
                if exists|j: int| 0 <= j < macs.len() && (#[trigger] macs[j]).hw == h {
                    let j = choose|j: int| 0 <= j < macs.len() && (#[trigger] macs[j]).hw == h;
                    lemma_mac_lookup(macs, j, h);
                } else {
                    lemma_mac_absent(macs, h);
                    assert(!obs@.contains(Observation { addr: a, hw: h }));
                    assert(pair_count(obs@, a, h) == 0);
                }
            } else {
                assert(forall|i: int|
                    0 <= i < entries@.len() ==> (#[trigger] entries@[i]).addr != a);
                lemma_table_absent(entries@, a, h);
                assert(pair_count(obs@, a, h) == 0) by {
                    if obs@.contains(Observation { addr: a, hw: h }) {
                        let k = choose|k: int|
                            0 <= k < obs@.len() && obs@[k] == (Observation { addr: a, hw: h });
                        assert(addrs@.contains(a));
                        let i = choose|i: int| 0 <= i < addrs@.len() && addrs@[i] == a;
                        assert(entries@[i].addr == a);
                    }
                }
            }
        }
        assert forall|a: u32|
            #[trigger] t.has_addr(a) <==> exists|k: int|
                0 <= k < obs@.len() && (#[trigger] obs@[k]).addr == a by {
            if t.has_addr(a) {
                let i = choose|i: int|
                    0 <= i < t.entries@.len() && t.entries@[i].addr == a;
                assert(entries@[i].addr == a);
                assert(addrs@[i] == a);
                assert(addrs@.contains(addrs@[i]));
                assert(addrs@.contains(a));
                assert(exists|k: int| 0 <= k < obs@.len() && (#[trigger] obs@[k]).addr == a);
            }
            if exists|k: int| 0 <= k < obs@.len() && (#[trigger] obs@[k]).addr == a {
                assert(addrs@.contains(a));
                let i = choose|i: int| 0 <= i < addrs@.len() && addrs@[i] == a;
                assert(entries@[i].addr == a);
                assert(0 <= i < t.entries@.len() && t.entries@[i].addr == a);
                assert(t.has_addr(a));
            }
        }
    }
    t
}

/// Two well-formed mac lists that store the same count for every hardware
/// address are the same list.
pub proof fn lemma_mac_canonical(m1: Seq<MacCount>, m2: Seq<MacCount>)
    requires
        hw_ascending(m1),
        hw_ascending(m2),
        forall|i: int| 0 <= i < m1.len() ==> (#[trigger] m1[i]).count >= 1,
        forall|i: int| 0 <= i < m2.len() ==> (#[trigger] m2[i]).count >= 1,
        forall|h: u64| #[trigger] mac_count_in(m1, h) == mac_count_in(m2, h),
    ensures
        m1 == m2,
    decreases m1.len() + m2.len(),
{
    if m1.len() == 0 && m2.len() == 0 {
        assert(m1 =~= m2);
    } else if m1.len() == 0 {
        lemma_mac_lookup(m2, 0, m2[0].hw);
        assert(mac_count_in(m1, m2[0].hw) == 0);
        assert(false);
    } else if m2.len() == 0 {
        lemma_mac_lookup(m1, 0, m1[0].hw);
        assert(mac_count_in(m2, m1[0].hw) == 0);
        assert(false);
    } else {
        let h1 = m1[0].hw;
        let h2 = m2[0].hw;
        lemma_mac_lookup(m1, 0, h1);
        lemma_mac_lookup(m2, 0, h2);
        if h1 < h2 {
            assert(forall|i: int| 0 < i < m2.len() ==> m2[0].hw < (#[trigger] m2[i]).hw);
            assert(forall|i: int| 0 <= i < m2.len() ==> (#[trigger] m2[i]).hw != h1);
            lemma_mac_absent(m2, h1);
            assert(false);
        }
        if h2 < h1 {
            assert(forall|i: int| 0 < i < m1.len() ==> m1[0].hw < (#[trigger] m1[i]).hw);
            assert(forall|i: int| 0 <= i < m1.len() ==> (#[trigger] m1[i]).hw != h2);
            lemma_mac_absent(m1, h2);
            assert(false);
        }
        assert(h1 == h2);
        assert(m1[0].count == mac_count_in(m1, h1));
        assert(m2[0].count == mac_count_in(m2, h1));
        assert(m1[0] =~= m2[0]);
        let t1 = m1.drop_first();
        let t2 = m2.drop_first();
        assert(forall|p: int| 0 <= p < t1.len() ==> #[trigger] t1[p] == m1[p + 1]);
        assert(forall|p: int| 0 <= p < t2.len() ==> #[trigger] t2[p] == m2[p + 1]);
        assert(hw_ascending(t1));
        assert(hw_ascending(t2));
        assert forall|h: u64| #[trigger] mac_count_in(t1, h) == mac_count_in(t2, h) by {
            if h == h1 {
                assert(forall|p: int| 0 <= p < t1.len() ==> (#[trigger] t1[p]).hw != h);
                lemma_mac_absent(t1, h);
                assert(forall|p: int| 0 <= p < t2.len() ==> (#[trigger] t2[p]).hw != h);
                lemma_mac_absent(t2, h);
            } else {
                assert(mac_count_in(m1, h) == mac_count_in(t1, h));
                assert(mac_count_in(m2, h) == mac_count_in(t2, h));
            }
        }
        lemma_mac_canonical(t1, t2);
        assert(m1.len() == m2.len());
        assert forall|i: int| 0 <= i < m1.len() implies m1[i] == m2[i] by {
            if i > 0 {
                assert(t1[i - 1] == m1[i]);
                assert(t2[i - 1] == m2[i]);
            }
        }
        assert(m1 =~= m2);
    }
}

/// Two well-formed tables that store the same count for every pair are the
/// same table, entry for entry.
pub proof fn lemma_table_canonical(e1: Seq<AddrEntry>, e2: Seq<AddrEntry>)
    requires
        entries_wf(e1),
        entries_wf(e2),
        forall|a: u32, h: u64| #[trigger] table_count(e1, a, h) == table_count(e2, a, h),
    ensures
        e1.len() == e2.len(),
        forall|i: int|
            0 <= i < e1.len() ==> (#[trigger] e1[i]).addr == e2[i].addr && e1[i].macs@
                == e2[i].macs@,
    decreases e1.len() + e2.len(),
{
    if e1.len() == 0 && e2.len() == 0 {
    } else if e1.len() == 0 {
        let a0 = e2[0].addr;
        let h0 = e2[0].macs@[0].hw;
        lemma_table_lookup(e2, 0, a0, h0);
        lemma_mac_lookup(e2[0].macs@, 0, h0);
        assert(table_count(e1, a0, h0) == 0);
        assert(false);
    } else if e2.len() == 0 {
        let a0 = e1[0].addr;
        let h0 = e1[0].macs@[0].hw;
        lemma_table_lookup(e1, 0, a0, h0);
        lemma_mac_lookup(e1[0].macs@, 0, h0);
        assert(table_count(e2, a0, h0) == 0);
        assert(false);
    } else {
        let a1 = e1[0].addr;
        let a2 = e2[0].addr;
        if a1 < a2 {
            let h0 = e1[0].macs@[0].hw;
            lemma_table_lookup(e1, 0, a1, h0);
            lemma_mac_lookup(e1[0].macs@, 0, h0);
            assert(forall|i: int| 0 < i < e2.len() ==> e2[0].addr < (#[trigger] e2[i]).addr);
            assert(forall|i: int| 0 <= i < e2.len() ==> (#[trigger] e2[i]).addr != a1);
            lemma_table_absent(e2, a1, h0);
            assert(false);
        }
        if a2 < a1 {
            let h0 = e2[0].macs@[0].hw;
            lemma_table_lookup(e2, 0, a2, h0);
            lemma_mac_lookup(e2[0].macs@, 0, h0);
            assert(forall|i: int| 0 < i < e1.len() ==> e1[0].addr < (#[trigger] e1[i]).addr);
            assert(forall|i: int| 0 <= i < e1.len() ==> (#[trigger] e1[i]).addr != a2);
            lemma_table_absent(e1, a2, h0);
            assert(false);
        }
        assert(a1 == a2);
        assert forall|h: u64| #[trigger] mac_count_in(e1[0].macs@, h) == mac_count_in(
            e2[0].macs@,
            h,
        ) by {
            assert(mac_count_in(e1[0].macs@, h) == table_count(e1, a1, h));
            assert(mac_count_in(e2[0].macs@, h) == table_count(e2, a1, h));
        }
        lemma_mac_canonical(e1[0].macs@, e2[0].macs@);
        let t1 = e1.drop_first();
        let t2 = e2.drop_first();
        assert(forall|p: int| 0 <= p < t1.len() ==> #[trigger] t1[p] == e1[p + 1]);
        assert(forall|p: int| 0 <= p < t2.len() ==> #[trigger] t2[p] == e2[p + 1]);
        assert(entries_wf(t1));
        assert(entries_wf(t2));
        assert forall|a: u32, h: u64| #[trigger] table_count(t1, a, h) == table_count(
            t2,
            a,
            h,
        ) by {
            if a == a1 {
                assert(forall|p: int| 0 <= p < t1.len() ==> (#[trigger] t1[p]).addr != a);
                lemma_table_absent(t1, a, h);
                assert(forall|p: int| 0 <= p < t2.len() ==> (#[trigger] t2[p]).addr != a);
                lemma_table_absent(t2, a, h);
            } else {
                assert(table_count(e1, a, h) == table_count(t1, a, h));
                assert(table_count(e2, a, h) == table_count(t2, a, h));
            }
        }
        lemma_table_canonical(t1, t2);
        assert forall|i: int|
            0 <= i < e1.len() implies (#[trigger] e1[i]).addr == e2[i].addr && e1[i].macs@
            == e2[i].macs@ by {
            if i > 0 {
                assert(t1[i - 1] == e1[i]);
                assert(t2[i - 1] == e2[i]);
            }
        }
    }
}

/// Aggregation is order-independent: two observation lists that are
/// permutations of each other (equal as multisets) always produce the same
/// aggregation table, entry for entry.
pub proof fn lemma_aggregation_order_independent(
    obs1: Seq<Observation>,
    obs2: Seq<Observation>,
    t1: AggregationTable,
    t2: AggregationTable,
)
    requires
        obs1.to_multiset() == obs2.to_multiset(),
        t1.wf(),
        t2.wf(),
        forall|a: u32, h: u64| #[trigger] t1.count_of(a, h) == pair_count(obs1, a, h),
        forall|a: u32, h: u64| #[trigger] t2.count_of(a, h) == pair_count(obs2, a, h),
    ensures
        t1.entries@.len() == t2.entries@.len(),
        forall|i: int|
            0 <= i < t1.entries@.len() ==> (#[trigger] t1.entries@[i]).addr
                == t2.entries@[i].addr && t1.entries@[i].macs@ == t2.entries@[i].macs@,
{
    assert forall|a: u32, h: u64| #[trigger] table_count(t1.entries@, a, h) == table_count(
        t2.entries@,
        a,
        h,
    ) by {
        assert(t1.count_of(a, h) == pair_count(obs1, a, h));
        assert(t2.count_of(a, h) == pair_count(obs2, a, h));
    }
    lemma_table_canonical(t1.entries@, t2.entries@);
}

} // verus!
