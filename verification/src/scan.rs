//! The multi-pass scan orchestrator.
//!
//! The orchestrator is a state machine: it tells its driver which action to
//! perform next (acquire the privileged resolution resource, resolve one
//! host with a timeout, release the resource), and the driver feeds the
//! outcome of each action back as an event. Successful resolutions are
//! collected, in encounter order, into one flat observation list spanning
//! all passes. A `Timeout` or `Unreachable` outcome skips the host for that
//! pass; a `ResourceError` aborts the whole run, after which the only step
//! left is releasing the resource.

use vstd::prelude::*;

verus! {

use crate::addr::IpBlock;
use crate::addr::lemma_block_bounds;

/// One successful resolution: a host address and the hardware address it
/// resolved to (48 significant bits).
#[derive(Clone, Copy, Debug, PartialEq, Eq, Structural)]
#[verifier::ext_equal]
pub struct Observation {
    pub addr: u32,
    pub hw: u64,
}

/// The outcome of resolving one host.
#[derive(Clone, Copy, Debug, PartialEq, Eq, Structural)]
pub enum ResolveOutcome {
    Resolved { hw: u64 },
    Timeout,
    Unreachable,
    ResourceError,
}

/// An event the driver feeds back to the orchestrator.
#[derive(Clone, Copy, Debug, PartialEq, Eq, Structural)]
pub enum ScanEvent {
    Acquired,
    AcquireFailed,
    Resolution { outcome: ResolveOutcome },
    Released,
}

/// The next action the driver must perform.
#[derive(Clone, Copy, Debug, PartialEq, Eq, Structural)]
pub enum ScanAction {
    Acquire,
    Resolve { addr: u32, timeout_ms: u64 },
    Release,
    Finished { aborted: bool },
}

/// The orchestrator's phase.
#[derive(Clone, Copy, Debug, PartialEq, Eq, Structural)]
pub enum ScanPhase {
    Acquiring,
    Scanning,
    Releasing,
    Done,
}

/// The mathematical state of an orchestrator.
pub ghost struct ScanModel {
    pub block: IpBlock,
    pub passes: int,
    pub timeout_ms: int,
    pub phase: ScanPhase,
    pub pass: int,
    pub host: int,
    pub observations: Seq<Observation>,
    pub aborted: bool,
}

/// Moves a scanning state past the host it just handled: on to the next
/// host, the next pass, or to releasing when the last pass is finished.
pub open spec fn advanced(m: ScanModel) -> ScanModel {
    if m.host + 1 < m.block.host_count() {
        ScanModel { host: m.host + 1, ..m }
    } else if m.pass + 1 <= m.passes {
        ScanModel { pass: m.pass + 1, host: 0, ..m }
    } else {
        ScanModel { phase: ScanPhase::Releasing, ..m }
    }
}

/// The orchestrator's transition function.
pub open spec fn scan_step(m: ScanModel, event: ScanEvent) -> ScanModel {
    match (m.phase, event) {
        (ScanPhase::Acquiring, ScanEvent::Acquired) => {
            if m.passes >= 1 && m.block.host_count() >= 1 {
                ScanModel { phase: ScanPhase::Scanning, pass: 1, host: 0, ..m }
            } else {
                ScanModel { phase: ScanPhase::Releasing, ..m }
            }
        },
        (ScanPhase::Acquiring, ScanEvent::AcquireFailed) => {
            ScanModel { phase: ScanPhase::Done, aborted: true, ..m }
        },
        (ScanPhase::Scanning, ScanEvent::Resolution { outcome }) => {
            match outcome {
                ResolveOutcome::Resolved { hw } => {
                    let o = Observation { addr: m.block.host_at(m.host) as u32, hw };
                    advanced(ScanModel { observations: m.observations.push(o), ..m })
                },
                ResolveOutcome::Timeout => advanced(m),
                ResolveOutcome::Unreachable => advanced(m),
                ResolveOutcome::ResourceError => {
                    ScanModel { phase: ScanPhase::Releasing, aborted: true, ..m }
                },
            }
        },
        (ScanPhase::Releasing, ScanEvent::Released) => {
            ScanModel { phase: ScanPhase::Done, ..m }
        },
        _ => m,
    }
}

/// The orchestrator of one scan run.
pub struct ScanMachine {
    pub block: IpBlock,
    pub passes: u32,
    pub timeout_ms: u64,
    pub phase: ScanPhase,
    pub pass: u32,
    pub host: u64,
    pub observations: Vec<Observation>,
    pub aborted: bool,
}

impl ScanMachine {
    pub open spec fn model(self) -> ScanModel {
        ScanModel {
            block: self.block,
            passes: self.passes as int,
            timeout_ms: self.timeout_ms as int,
            phase: self.phase,
            pass: self.pass as int,
            host: self.host as int,
            observations: self.observations@,
            aborted: self.aborted,
        }
    }

    pub open spec fn wf(self) -> bool {
        &&& self.block.wf()
        &&& (self.phase is Scanning ==> {
            &&& 1 <= self.pass <= self.passes
            &&& (self.host as nat) < self.block.host_count()
        })
        &&& forall|k: int|
            0 <= k < self.observations@.len() ==> self.block.network()
                < (#[trigger] self.observations@[k]).addr < self.block.broadcast()
    }

    /// Which events the orchestrator accepts in its current phase.
    pub open spec fn accepts(self, event: ScanEvent) -> bool {
        match self.phase {
            ScanPhase::Acquiring => event is Acquired || event is AcquireFailed,
            ScanPhase::Scanning => event is Resolution,
            ScanPhase::Releasing => event is Released,
            ScanPhase::Done => false,
        }
    }

    pub fn new(block: IpBlock, passes: u32, timeout_ms: u64) -> (r: ScanMachine)
        requires
            block.wf(),
        ensures
            r.wf(),
            r.model() == (ScanModel {
                block,
                passes: passes as int,
                timeout_ms: timeout_ms as int,
                phase: ScanPhase::Acquiring,
                pass: 0,
                host: 0,
                observations: Seq::<Observation>::empty(),
                aborted: false,
            }),
    {
        let r = ScanMachine {
            block,
            passes,
            timeout_ms,
            phase: ScanPhase::Acquiring,
            pass: 0,
            host: 0,
            observations: Vec::new(),
            aborted: false,
        };
        proof {
            assert(r.observations@ =~= Seq::<Observation>::empty());
        }
        r
    }

    /// The action the driver must perform next.
    pub fn next_action(&self) -> (r: ScanAction)
        requires
            self.wf(),
        ensures
            self.phase is Acquiring ==> r == ScanAction::Acquire,
            self.phase is Scanning ==> r == (ScanAction::Resolve {
                addr: self.block.host_at(self.host as int) as u32,
                timeout_ms: self.timeout_ms,
            }),
            self.phase is Releasing ==> r == ScanAction::Release,
            self.phase is Done ==> r == (ScanAction::Finished { aborted: self.aborted }),
    {
        match self.phase {
            ScanPhase::Acquiring => ScanAction::Acquire,
            ScanPhase::Scanning => {
                let addr = self.block.host_address(self.host);
                ScanAction::Resolve { addr, timeout_ms: self.timeout_ms }
            },
            ScanPhase::Releasing => ScanAction::Release,
            ScanPhase::Done => ScanAction::Finished { aborted: self.aborted },
        }
    }

    /// Feeds the outcome of the last action back into the orchestrator.
    pub fn step(&mut self, event: ScanEvent)
        requires
            old(self).wf(),
            old(self).accepts(event),
        ensures
            final(self).wf(),
            final(self).model() == scan_step(old(self).model(), event),
    {
        proof {
            lemma_block_bounds(self.block);
        }
        let ghost pre = self.model();
        match event {
            ScanEvent::Acquired => {
                let count = self.block.count_hosts();
                if self.passes >= 1 && count >= 1 {
                    self.phase = ScanPhase::Scanning;
                    self.pass = 1;
                    self.host = 0;
                } else {
                    self.phase = ScanPhase::Releasing;
                }
            },
            ScanEvent::AcquireFailed => {
                self.phase = ScanPhase::Done;
                self.aborted = true;
            },
            ScanEvent::Resolution { outcome } => {
                match outcome {
                    ResolveOutcome::Resolved { hw } => {
                        let addr = self.block.host_address(self.host);
                        self.observations.push(Observation { addr, hw });
                        self.advance_position();
                    },
                    ResolveOutcome::Timeout => {
                        self.advance_position();
                    },
                    ResolveOutcome::Unreachable => {
                        self.advance_position();
                    },
                    ResolveOutcome::ResourceError => {
                        self.phase = ScanPhase::Releasing;
                        self.aborted = true;
                    },
                }
            },
            ScanEvent::Released => {
                self.phase = ScanPhase::Done;
            },
        }
        proof {
            assert(self.model() =~= scan_step(pre, event));
        }
    }

    /// Moves past the host that was just handled.
    fn advance_position(&mut self)
        requires
            old(self).wf(),
            old(self).phase is Scanning,
        ensures
            final(self).wf(),
            final(self).model() == advanced(old(self).model()),
            final(self).block == old(self).block,
    {
        let ghost pre = self.model();
        let count = self.block.count_hosts();
        if self.host + 1 < count {
            self.host = self.host + 1;
        } else if self.pass < self.passes {
            self.pass = self.pass + 1;
            self.host = 0;
        } else {
            self.phase = ScanPhase::Releasing;
        }
        proof {
            assert(self.model() =~= advanced(pre));
        }
    }

    /// Hands the collected observations out.
    pub fn into_observations(self) -> (r: Vec<Observation>)
        ensures
            r@ == self.model().observations,
    {
        self.observations
    }
}

/// A `ResourceError` during scanning aborts the run at once: no further host
/// is resolved, the observations collected so far are kept unchanged, and
/// the one step left before the run finishes is releasing the privileged
/// resource.
pub proof fn lemma_resource_error_aborts(m: ScanModel)
    requires
        m.phase is Scanning,
    ensures
        ({
            let e = ScanEvent::Resolution { outcome: ResolveOutcome::ResourceError };
            let n = scan_step(m, e);
            &&& n.phase is Releasing
            &&& n.aborted
            &&& n.observations == m.observations
            &&& scan_step(n, ScanEvent::Released).phase is Done
            &&& scan_step(n, ScanEvent::Released).observations == m.observations
        }),
{
}

/// The releasing phase is entered at most once in a run: no transition
/// leads into it except from acquiring or scanning, and from it the one
/// accepted event moves the run to done, where it stays. Together with
/// `next_action`, which demands a release exactly in the releasing phase,
/// this pins the privileged resource's release to exactly one step of
/// every completed run that acquired it.
pub proof fn lemma_release_phase_entered_once(m: ScanModel, event: ScanEvent)
    ensures
        (scan_step(m, event).phase is Releasing && !(m.phase is Releasing)) ==> (m.phase
            is Acquiring || m.phase is Scanning),
        (m.phase is Releasing && event is Released) ==> scan_step(m, event).phase is Done,
        m.phase is Done ==> scan_step(m, event) == m,
{
}

/// A `Timeout` or `Unreachable` outcome contributes no observation for that
/// host and does not abort: the scan simply moves on.
pub proof fn lemma_failed_resolution_skips_host(m: ScanModel, outcome: ResolveOutcome)
    requires
        m.phase is Scanning,
        !m.aborted,
        outcome is Timeout || outcome is Unreachable,
    ensures
        ({
            let n = scan_step(m, ScanEvent::Resolution { outcome });
            &&& n.observations == m.observations
            &&& !n.aborted
            &&& !(n.phase is Done)
        }),
{
}

/// The per-pass, per-host resolution outcomes of a whole run, as the spec
/// sees them: row `p` holds pass `p + 1`, one outcome per usable host.
pub open spec fn outcomes_view(o: Seq<Vec<ResolveOutcome>>) -> Seq<Seq<ResolveOutcome>> {
    o.map_values(|v: Vec<ResolveOutcome>| v@)
}

/// The observations a run collects from position (pass, host) on, when
/// every resolution outcome is fixed in advance. Successes are kept in
/// encounter order; a `ResourceError` ends the collection at once.
pub open spec fn collected_from(
    b: IpBlock,
    passes: int,
    outs: Seq<Seq<ResolveOutcome>>,
    pass: int,
    host: int,
) -> Seq<Observation>
    decreases passes - pass, b.host_count() - host,
{
    if !(1 <= pass <= passes && 0 <= host < b.host_count()) {
        Seq::empty()
    } else {
        let rest = if host + 1 < b.host_count() {
            collected_from(b, passes, outs, pass, host + 1)
        } else if pass + 1 <= passes {
            collected_from(b, passes, outs, pass + 1, 0)
        } else {
            Seq::empty()
        };
        match outs[pass - 1][host] {
            ResolveOutcome::Resolved { hw } => seq![
                Observation { addr: b.host_at(host) as u32, hw },
            ] + rest,
            ResolveOutcome::Timeout => rest,
            ResolveOutcome::Unreachable => rest,
            ResolveOutcome::ResourceError => Seq::empty(),
        }
    }
}

/// Whether a run that starts at position (pass, host) hits a
/// `ResourceError` before it completes.
pub open spec fn aborts_from(
    b: IpBlock,
    passes: int,
    outs: Seq<Seq<ResolveOutcome>>,
    pass: int,
    host: int,
) -> bool
    decreases passes - pass, b.host_count() - host,
{
    if !(1 <= pass <= passes && 0 <= host < b.host_count()) {
        false
    } else {
        let rest = if host + 1 < b.host_count() {
            aborts_from(b, passes, outs, pass, host + 1)
        } else if pass + 1 <= passes {
            aborts_from(b, passes, outs, pass + 1, 0)
        } else {
            false
        };
        match outs[pass - 1][host] {
            ResolveOutcome::Resolved { hw } => rest,
            ResolveOutcome::Timeout => rest,
            ResolveOutcome::Unreachable => rest,
            ResolveOutcome::ResourceError => true,
        }
    }
}

/// What one whole scan run produced.
pub struct ScanRunResult {
    pub observations: Vec<Observation>,
    pub aborted: bool,
    pub releases: u32,
}

/// Runs a whole scan by driving the orchestrator, with every resolution
/// outcome fixed in advance: `outcomes[p][h]` answers the resolution of
/// host `h` in pass `p + 1`, and `acquire_ok` answers the acquisition of
/// the privileged resource. The result holds exactly the successes up to
/// the first `ResourceError`, in encounter order; the resource is released
/// exactly once whenever it was acquired, and never otherwise.
#[verifier::loop_isolation(false)]
pub fn run_scan(
    block: IpBlock,
    passes: u32,
    timeout_ms: u64,
    acquire_ok: bool,
    outcomes: &Vec<Vec<ResolveOutcome>>,
) -> (r: ScanRunResult)
    requires
        block.wf(),
        outcomes@.len() == passes,
        forall|p: int|
            0 <= p < outcomes@.len() ==> (#[trigger] outcomes@[p])@.len()
                == block.host_count(),
    ensures
        !acquire_ok ==> r.aborted && r.observations@.len() == 0 && r.releases == 0,
        acquire_ok ==> r.releases == 1,
        acquire_ok ==> r.observations@ == collected_from(
            block,
            passes as int,
            outcomes_view(outcomes@),
            1,
            0,
        ),
        acquire_ok ==> r.aborted == aborts_from(
            block,
            passes as int,
            outcomes_view(outcomes@),
            1,
            0,
        ),
{
    let ghost ov = outcomes_view(outcomes@);
    let ghost total = collected_from(block, passes as int, ov, 1, 0);
    let ghost will_abort = aborts_from(block, passes as int, ov, 1, 0);
    let mut m = ScanMachine::new(block, passes, timeout_ms);
    if !acquire_ok {
        m.step(ScanEvent::AcquireFailed);
        return ScanRunResult { observations: m.into_observations(), aborted: true, releases: 0 };
    }
    m.step(ScanEvent::Acquired);
    while m.phase == ScanPhase::Scanning
        invariant
            m.wf(),
            m.block == block,
            m.passes == passes,
            m.phase is Scanning || m.phase is Releasing,
            m.phase is Scanning ==> {
                &&& !m.aborted
                &&& m.observations@ + collected_from(
                    block,
                    passes as int,
                    ov,
                    m.pass as int,
                    m.host as int,
                ) == total
                &&& aborts_from(block, passes as int, ov, m.pass as int, m.host as int)
                    == will_abort
            },
            m.phase is Releasing ==> {
                &&& m.observations@ == total
                &&& m.aborted == will_abort
            },
        decreases
            (if m.phase is Scanning {
                1int
            } else {
                0int
            }),
            passes + 1 - m.pass,
            block.host_count() - m.host,
    {
        let ghost pre = m.model();
        let ghost pp = m.pass as int;
        let ghost hh = m.host as int;
        proof {
            assert(outcomes@[pp - 1]@.len() == block.host_count());
        }
        let p_idx = (m.pass - 1) as usize;
        let row_len = outcomes[p_idx].len();
        proof {
            assert(m.host < row_len);
        }
        let h_idx = m.host as usize;
        let out = outcomes[p_idx][h_idx];
        proof {
            assert(ov[pp - 1] == outcomes@[pp - 1]@);
            assert(out == ov[pp - 1][hh]);
        }
        m.step(ScanEvent::Resolution { outcome: out });
        proof {
            let rest_pos_obs = if hh + 1 < block.host_count() {
                collected_from(block, passes as int, ov, pp, hh + 1)
            } else if pp + 1 <= passes {
                collected_from(block, passes as int, ov, pp + 1, 0)
            } else {
                Seq::<Observation>::empty()
            };
            match out {
                ResolveOutcome::Resolved { hw } => {
                    let o = Observation { addr: block.host_at(hh) as u32, hw };
                    assert(collected_from(block, passes as int, ov, pp, hh) == seq![o]
                        + rest_pos_obs);
                    assert(m.observations@ == pre.observations.push(o));
                    assert(pre.observations.push(o) + rest_pos_obs =~= pre.observations + (
                    seq![o] + rest_pos_obs));
                },
                ResolveOutcome::Timeout => {
                    assert(collected_from(block, passes as int, ov, pp, hh) == rest_pos_obs);
                },
                ResolveOutcome::Unreachable => {
                    assert(collected_from(block, passes as int, ov, pp, hh) == rest_pos_obs);
                },
                ResolveOutcome::ResourceError => {
                    assert(collected_from(block, passes as int, ov, pp, hh)
                        =~= Seq::<Observation>::empty());
                    assert(pre.observations + Seq::<Observation>::empty()
                        =~= pre.observations);
                    assert(aborts_from(block, passes as int, ov, pp, hh));
                },
            }
            if m.phase is Releasing && !(out is ResourceError) {
                assert(rest_pos_obs =~= Seq::<Observation>::empty());
                assert(m.observations@ + Seq::<Observation>::empty() =~= m.observations@);
            }
        }
    }
    m.step(ScanEvent::Released);
    let aborted = m.aborted;
    ScanRunResult { observations: m.into_observations(), aborted, releases: 1 }
}

} // verus!
