//! The inconsistency reporter.
//!
//! Filters the aggregation table down to the addresses that resolved to
//! more than one distinct hardware address. An address with exactly one
//! hardware address is never emitted. The table is kept in ascending
//! address order, so the report is deterministic whatever order the
//! observations arrived in.

use vstd::prelude::*;

verus! {

use crate::aggregate::AddrEntry;
use crate::aggregate::AggregationTable;
use crate::aggregate::addr_ascending;

/// The entries with at least two distinct hardware addresses, in order.
pub open spec fn inconsistent_of(e: Seq<AddrEntry>) -> Seq<AddrEntry>
    decreases e.len(),
{
    if e.len() == 0 {
        Seq::empty()
    } else {
        let rest = inconsistent_of(e.drop_first());
        if e[0].macs@.len() >= 2 {
            seq![e[0]] + rest
        } else {
            rest
        }
    }
}

/// Every reported entry is an entry of the table.
pub proof fn lemma_inconsistent_subset(e: Seq<AddrEntry>)
    ensures
        forall|x: AddrEntry| inconsistent_of(e).contains(x) ==> e.contains(x),
    decreases e.len(),
{
    if e.len() > 0 {
        let d = e.drop_first();
        lemma_inconsistent_subset(d);
        assert(forall|p: int| 0 <= p < d.len() ==> #[trigger] d[p] == e[p + 1]);
        assert forall|x: AddrEntry| inconsistent_of(e).contains(x) implies e.contains(x) by {
            let r = inconsistent_of(e);
            let k = choose|k: int| 0 <= k < r.len() && r[k] == x;
            let rest = inconsistent_of(d);
            if e[0].macs@.len() >= 2 {
                if k == 0 {
                    assert(e[0] == x);
                    assert(e.contains(e[0]));
                } else {
                    assert(rest[k - 1] == x);
                    assert(rest.contains(x));
                    assert(d.contains(x));
                    let i = choose|i: int| 0 <= i < d.len() && d[i] == x;
                    assert(e[i + 1] == x);
                    assert(e.contains(e[i + 1]));
                }
            } else {
                assert(rest[k] == x);
                assert(rest.contains(x));
                assert(d.contains(x));
                let i = choose|i: int| 0 <= i < d.len() && d[i] == x;
                assert(e[i + 1] == x);
                assert(e.contains(e[i + 1]));
            }
        }
    }
}

/// An entry is reported exactly when it has at least two distinct hardware
/// addresses: every reported entry is a table entry with at least two, and
/// every table entry with at least two is reported.
pub proof fn lemma_reported_addresses(e: Seq<AddrEntry>)
    ensures
        forall|j: int|
            0 <= j < inconsistent_of(e).len() ==> (#[trigger] inconsistent_of(e)[j]).macs@.len()
                >= 2 && e.contains(inconsistent_of(e)[j]),
        forall|i: int|
            0 <= i < e.len() && (#[trigger] e[i]).macs@.len() >= 2 ==> inconsistent_of(
                e,
            ).contains(e[i]),
    decreases e.len(),
{
    if e.len() > 0 {
        let d = e.drop_first();
        lemma_reported_addresses(d);
        let rest = inconsistent_of(d);
        let r = inconsistent_of(e);
        assert(forall|p: int| 0 <= p < d.len() ==> #[trigger] d[p] == e[p + 1]);
        assert forall|j: int| 0 <= j < r.len() implies (#[trigger] r[j]).macs@.len() >= 2
            && e.contains(r[j]) by {
            if e[0].macs@.len() >= 2 {
                if j == 0 {
                    assert(r[0] == e[0]);
                    assert(e.contains(e[0]));
                } else {
                    assert(r[j] == rest[j - 1]);
                    assert(d.contains(rest[j - 1]));
                    let i = choose|i: int| 0 <= i < d.len() && d[i] == rest[j - 1];
                    assert(e[i + 1] == rest[j - 1]);
                    assert(e.contains(e[i + 1]));
                }
            } else {
                assert(r[j] == rest[j]);
                assert(d.contains(rest[j]));
                let i = choose|i: int| 0 <= i < d.len() && d[i] == rest[j];
                assert(e[i + 1] == rest[j]);
                assert(e.contains(e[i + 1]));
            }
        }
        assert forall|i: int| 0 <= i < e.len() && (#[trigger] e[i]).macs@.len() >= 2 implies r
            .contains(e[i]) by {
            if i == 0 {
                assert(r[0] == e[0]);
                assert(r.contains(r[0]));
            } else {
                assert(d[i - 1] == e[i]);
                assert(rest.contains(d[i - 1]));
                let j = choose|j: int| 0 <= j < rest.len() && rest[j] == d[i - 1];
                if e[0].macs@.len() >= 2 {
                    assert(r[j + 1] == rest[j]);
                    assert(r.contains(r[j + 1]));
                } else {
                    assert(r[j] == rest[j]);
                    assert(r.contains(r[j]));
                }
            }
        }
    }
}

/// The report keeps the table's ascending address order.
pub proof fn lemma_inconsistent_ascending(e: Seq<AddrEntry>)
    requires
        addr_ascending(e),
    ensures
        addr_ascending(inconsistent_of(e)),
    decreases e.len(),
{
    if e.len() > 0 {
        assert(forall|p: int|
            0 <= p < e.drop_first().len() ==> #[trigger] e.drop_first()[p] == e[p + 1]);
        assert(addr_ascending(e.drop_first()));
        lemma_inconsistent_ascending(e.drop_first());
        lemma_inconsistent_subset(e.drop_first());
        let rest = inconsistent_of(e.drop_first());
        if e[0].macs@.len() >= 2 {
            let r = seq![e[0]] + rest;
            assert forall|p: int, q: int| 0 <= p < q < r.len() implies #[trigger] r[p].addr
                < #[trigger] r[q].addr by {
                if p == 0 {
                    assert(r[q] == rest[q - 1]);
                    assert(rest.contains(rest[q - 1]));
                    assert(e.drop_first().contains(rest[q - 1]));
                    let i = choose|i: int|
                        0 <= i < e.drop_first().len() && e.drop_first()[i] == rest[q - 1];
                    assert(e[i + 1] == rest[q - 1]);
                    assert(e[0].addr < e[i + 1].addr);
                } else {
                    assert(r[p] == rest[p - 1] && r[q] == rest[q - 1]);
                }
            }
        }
    }
}

/// Keeps only the addresses that resolved to more than one distinct
/// hardware address, in ascending address order.
#[verifier::loop_isolation(false)]
pub fn report(t: AggregationTable) -> (r: Vec<AddrEntry>)
    requires
        t.wf(),
    ensures
        r@ == inconsistent_of(t.entries@),
        addr_ascending(r@),
        forall|j: int| 0 <= j < r@.len() ==> (#[trigger] r@[j]).macs@.len() >= 2,
{
    let ghost orig = t.entries@;
    let mut rem = t.entries;
    let mut r: Vec<AddrEntry> = Vec::new();
    proof {
        assert(r@ + inconsistent_of(rem@) =~= inconsistent_of(orig));
    }
    while rem.len() > 0
        invariant
            r@ + inconsistent_of(rem@) == inconsistent_of(orig),
            forall|j: int| 0 <= j < r@.len() ==> (#[trigger] r@[j]).macs@.len() >= 2,
        decreases rem.len(),
    {
        let ghost pre = rem@;
        let e = rem.remove(0);
        proof {
            assert(rem@ =~= pre.drop_first());
            assert(pre[0] == e);
        }
        if e.macs.len() >= 2 {
            let ghost r0 = r@;
            r.push(e);
            proof {
                assert(r@ + inconsistent_of(rem@) =~= (r0 + (seq![e] + inconsistent_of(
                    rem@,
                ))));
            }
        }
    }
    proof {
        assert(inconsistent_of(rem@) =~= Seq::<AddrEntry>::empty());
        assert(r@ =~= r@ + inconsistent_of(rem@));
        lemma_inconsistent_ascending(orig);
    }
    r
}

} // verus!
