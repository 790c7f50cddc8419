//! The echo-probe sweep's output structure.
//!
//! The sweep itself is a thin per-address, per-iteration call to an
//! external ping capability; what the library fixes is the shape of its
//! output: for each iteration below the limit, one header line tagged with
//! the iteration number, followed by one result line per probed address,
//! in address order.

use vstd::prelude::*;

verus! {

/// The outcome of one echo probe.
#[derive(Clone, Copy, Debug, PartialEq, Eq, Structural)]
pub enum ProbeOutcome {
    Success { bytes: u32, rtt_ms: u32, ttl: u8 },
    Failure,
}

/// One line of the sweep output: an iteration header, or the result of
/// probing the address at `addr_index` in the caller's address list.
#[derive(Clone, Copy, Debug, PartialEq, Eq, Structural)]
pub enum SweepLine {
    Header { iteration: u64 },
    Probe { addr_index: usize, outcome: ProbeOutcome },
}

/// The lines one iteration contributes: its header, then one probe line
/// per address.
pub open spec fn iteration_lines_of(iteration: u64, outcomes: Seq<ProbeOutcome>) -> Seq<
    SweepLine,
> {
    seq![SweepLine::Header { iteration }] + Seq::new(
        outcomes.len(),
        |j: int| SweepLine::Probe { addr_index: j as usize, outcome: outcomes[j] },
    )
}

/// The lines of a whole sweep, iteration by iteration.
pub open spec fn sweep_lines_of(outcomes: Seq<Seq<ProbeOutcome>>) -> Seq<SweepLine>
    decreases outcomes.len(),
{
    if outcomes.len() == 0 {
        Seq::empty()
    } else {
        sweep_lines_of(outcomes.drop_last()) + iteration_lines_of(
            (outcomes.len() - 1) as u64,
            outcomes.last(),
        )
    }
}

/// Builds the lines of one iteration.
#[verifier::loop_isolation(false)]
pub fn iteration_lines(iteration: u64, outcomes: &Vec<ProbeOutcome>) -> (r: Vec<SweepLine>)
    ensures
        r@ == iteration_lines_of(iteration, outcomes@),
{
    let mut r: Vec<SweepLine> = Vec::new();
    r.push(SweepLine::Header { iteration });
    let mut j: usize = 0;
    while j < outcomes.len()
        invariant
            j <= outcomes.len(),
            r@.len() == 1 + j,
            r@[0] == (SweepLine::Header { iteration }),
            forall|k: int|
                0 <= k < j ==> r@[k + 1] == (SweepLine::Probe {
                    addr_index: k as usize,
                    outcome: outcomes@[k],
                }),
        decreases outcomes.len() - j,
    {
        r.push(SweepLine::Probe { addr_index: j, outcome: outcomes[j] });
        j = j + 1;
    }
    proof {
        assert(r@ =~= iteration_lines_of(iteration, outcomes@));
    }
    r
}

/// Builds the lines of a whole sweep: for each iteration, a header line
/// then one line per address, in order.
#[verifier::loop_isolation(false)]
pub fn sweep_report(outcomes: &Vec<Vec<ProbeOutcome>>) -> (r: Vec<SweepLine>)
    requires
        outcomes@.len() <= u64::MAX,
    ensures
        r@ == sweep_lines_of(outcomes@.map_values(|v: Vec<ProbeOutcome>| v@)),
{
    let ghost dv = outcomes@.map_values(|v: Vec<ProbeOutcome>| v@);
    let mut r: Vec<SweepLine> = Vec::new();
    let mut i: usize = 0;
    proof {
        assert(dv.take(0) =~= Seq::<Seq<ProbeOutcome>>::empty());
    }
    while i < outcomes.len()
        invariant
            i <= outcomes.len(),
            r@ == sweep_lines_of(dv.take(i as int)),
        decreases outcomes.len() - i,
    {
        let block = iteration_lines(i as u64, &outcomes[i]);
        let ghost r0 = r@;
        let mut k: usize = 0;
        while k < block.len()
            invariant
                k <= block.len(),
                r@ == r0 + block@.take(k as int),
            decreases block.len() - k,
        {
            let ghost rk = r@;
            r.push(block[k]);
            proof {
                assert(r@ =~= r0 + block@.take(k + 1));
            }
            k = k + 1;
        }
        proof {
            assert(block@.take(block@.len() as int) =~= block@);
            assert(dv.take(i + 1).drop_last() =~= dv.take(i as int));
            assert(dv.take(i + 1).last() == dv[i as int]);
            assert(dv[i as int] == outcomes@[i as int]@);
            assert(r@ =~= sweep_lines_of(dv.take(i + 1)));
        }
        i = i + 1;
    }
    proof {
        assert(dv.take(dv.len() as int) =~= dv);
    }
    r
}

} // verus!
