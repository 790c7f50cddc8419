use rdiag::addr::format_block;
use rdiag::addr::format_ipv4;
use rdiag::addr::parse_block;
use rdiag::addr::format_mac;
use rdiag::addr::AddressEnumerator;
use rdiag::addr::IpBlock;
use rdiag::aggregate::aggregate;
use rdiag::aggregate::MacCount;
use rdiag::report::report;
use rdiag::scan::run_scan;
use rdiag::scan::Observation;
use rdiag::scan::ResolveOutcome;
use rdiag::scan::ScanAction;
use rdiag::scan::ScanEvent;
use rdiag::scan::ScanMachine;
use rdiag::sweep::iteration_lines;
use rdiag::sweep::sweep_report;
use rdiag::sweep::ProbeOutcome;
use rdiag::sweep::SweepLine;

const MAC_AA: u64 = 0xAAAA_AAAA_AAAA;
const MAC_BB: u64 = 0xBBBB_BBBB_BBBB;

fn block(base: u32, prefix: u8) -> IpBlock {
    IpBlock::new(base, prefix).expect("prefix in range")
}

#[test]
fn enumerator_slash_30() {
    let b = block(0x0A00_0000, 30); // 10.0.0.0/30
    let hosts = b.hosts();
    assert_eq!(hosts, vec![0x0A00_0001, 0x0A00_0002]);
}

#[test]
fn enumerator_slash_24_count_and_bounds() {
    let b = block(0xC0A8_0100, 24); // 192.168.1.0/24
    let hosts = b.hosts();
    assert_eq!(hosts.len(), 254); // 2^(32-24) - 2
    assert_eq!(hosts[0], 0xC0A8_0101);
    assert_eq!(hosts[253], 0xC0A8_01FE);
    for w in hosts.windows(2) {
        assert!(w[0] < w[1]);
    }
    assert!(!hosts.contains(&0xC0A8_0100)); // network address
    assert!(!hosts.contains(&0xC0A8_01FF)); // broadcast address
}

#[test]
fn enumerator_long_prefixes_empty() {
    assert!(block(0x0A00_0000, 31).hosts().is_empty());
    assert!(block(0x0A00_0000, 32).hosts().is_empty());
}

#[test]
fn enumerator_nonaligned_base() {
    let b = block(0x0A00_0005, 30); // 10.0.0.5/30 -> network 10.0.0.4
    assert_eq!(b.hosts(), vec![0x0A00_0005, 0x0A00_0006]);
}

#[test]
fn enumerator_is_restartable() {
    let b = block(0x0A00_0000, 30);
    let mut e = AddressEnumerator::new(b);
    assert_eq!(e.next(), Some(0x0A00_0001));
    assert_eq!(e.next(), Some(0x0A00_0002));
    assert_eq!(e.next(), None);
    e.reset();
    assert_eq!(e.next(), Some(0x0A00_0001));
}

#[test]
fn block_new_rejects_long_prefix() {
    assert!(IpBlock::new(0, 33).is_none());
}

#[test]
fn aggregate_counts_pairs() {
    let obs = vec![
        Observation { addr: 1, hw: MAC_BB },
        Observation { addr: 1, hw: MAC_AA },
        Observation { addr: 1, hw: MAC_BB },
        Observation { addr: 2, hw: MAC_AA },
    ];
    let t = aggregate(&obs);
    assert_eq!(t.entries.len(), 2);
    assert_eq!(t.entries[0].addr, 1);
    assert_eq!(
        t.entries[0].macs,
        vec![
            MacCount { hw: MAC_AA, count: 1 },
            MacCount { hw: MAC_BB, count: 2 },
        ]
    );
    assert_eq!(t.entries[1].addr, 2);
    assert_eq!(t.entries[1].macs, vec![MacCount { hw: MAC_AA, count: 1 }]);
}

#[test]
fn aggregate_is_order_independent() {
    let obs1 = vec![
        Observation { addr: 9, hw: MAC_AA },
        Observation { addr: 3, hw: MAC_BB },
        Observation { addr: 9, hw: MAC_AA },
        Observation { addr: 3, hw: MAC_AA },
    ];
    let obs2 = vec![
        Observation { addr: 3, hw: MAC_AA },
        Observation { addr: 9, hw: MAC_AA },
        Observation { addr: 3, hw: MAC_BB },
        Observation { addr: 9, hw: MAC_AA },
    ];
    let t1 = aggregate(&obs1);
    let t2 = aggregate(&obs2);
    assert_eq!(t1.entries.len(), t2.entries.len());
    for (e1, e2) in t1.entries.iter().zip(t2.entries.iter()) {
        assert_eq!(e1.addr, e2.addr);
        assert_eq!(e1.macs, e2.macs);
    }
}

#[test]
fn report_emits_only_multi_mac_addresses() {
    let obs = vec![
        Observation { addr: 5, hw: MAC_AA },
        Observation { addr: 5, hw: MAC_AA },
        Observation { addr: 7, hw: MAC_AA },
        Observation { addr: 7, hw: MAC_BB },
    ];
    let r = report(aggregate(&obs));
    assert_eq!(r.len(), 1);
    assert_eq!(r[0].addr, 7);
    assert_eq!(r[0].macs.len(), 2);
}

#[test]
fn report_is_ascending() {
    let obs = vec![
        Observation { addr: 20, hw: MAC_AA },
        Observation { addr: 20, hw: MAC_BB },
        Observation { addr: 10, hw: MAC_BB },
        Observation { addr: 10, hw: MAC_AA },
    ];
    let r = report(aggregate(&obs));
    assert_eq!(r.len(), 2);
    assert_eq!(r[0].addr, 10);
    assert_eq!(r[1].addr, 20);
}

#[test]
fn scenario_single_pass_one_success_one_failure() {
    // block 10.0.0.0/30, 1 pass: .1 resolves to AA, .2 fails.
    let b = block(0x0A00_0000, 30);
    let mut m = ScanMachine::new(b, 1, 100);
    assert_eq!(m.next_action(), ScanAction::Acquire);
    m.step(ScanEvent::Acquired);
    assert_eq!(
        m.next_action(),
        ScanAction::Resolve { addr: 0x0A00_0001, timeout_ms: 100 }
    );
    m.step(ScanEvent::Resolution { outcome: ResolveOutcome::Resolved { hw: MAC_AA } });
    assert_eq!(
        m.next_action(),
        ScanAction::Resolve { addr: 0x0A00_0002, timeout_ms: 100 }
    );
    m.step(ScanEvent::Resolution { outcome: ResolveOutcome::Unreachable });
    assert_eq!(m.next_action(), ScanAction::Release);
    m.step(ScanEvent::Released);
    assert_eq!(m.next_action(), ScanAction::Finished { aborted: false });
    let obs = m.into_observations();
    assert_eq!(obs, vec![Observation { addr: 0x0A00_0001, hw: MAC_AA }]);
    let t = aggregate(&obs);
    assert_eq!(t.entries.len(), 1);
    assert_eq!(t.entries[0].addr, 0x0A00_0001);
    assert_eq!(t.entries[0].macs, vec![MacCount { hw: MAC_AA, count: 1 }]);
    // single hardware address: the report is empty.
    assert!(report(t).is_empty());
}

#[test]
fn scenario_two_passes_inconsistency_reported() {
    // same block, 2 passes: .1 gives AA then BB, .2 fails both times.
    let b = block(0x0A00_0000, 30);
    let mut m = ScanMachine::new(b, 2, 100);
    m.step(ScanEvent::Acquired);
    m.step(ScanEvent::Resolution { outcome: ResolveOutcome::Resolved { hw: MAC_AA } });
    m.step(ScanEvent::Resolution { outcome: ResolveOutcome::Timeout });
    m.step(ScanEvent::Resolution { outcome: ResolveOutcome::Resolved { hw: MAC_BB } });
    m.step(ScanEvent::Resolution { outcome: ResolveOutcome::Timeout });
    assert_eq!(m.next_action(), ScanAction::Release);
    m.step(ScanEvent::Released);
    let obs = m.into_observations();
    let r = report(aggregate(&obs));
    assert_eq!(r.len(), 1);
    assert_eq!(r[0].addr, 0x0A00_0001);
    assert_eq!(
        r[0].macs,
        vec![
            MacCount { hw: MAC_AA, count: 1 },
            MacCount { hw: MAC_BB, count: 1 },
        ]
    );
}

#[test]
fn scenario_timeout_skips_host_and_continues() {
    let b = block(0x0A00_0000, 30);
    let mut m = ScanMachine::new(b, 1, 50);
    m.step(ScanEvent::Acquired);
    m.step(ScanEvent::Resolution { outcome: ResolveOutcome::Timeout });
    // the run went on to the next host instead of aborting.
    assert_eq!(
        m.next_action(),
        ScanAction::Resolve { addr: 0x0A00_0002, timeout_ms: 50 }
    );
    m.step(ScanEvent::Resolution { outcome: ResolveOutcome::Resolved { hw: MAC_BB } });
    m.step(ScanEvent::Released);
    let obs = m.into_observations();
    // the timed-out host contributed nothing.
    assert_eq!(obs, vec![Observation { addr: 0x0A00_0002, hw: MAC_BB }]);
}

#[test]
fn scenario_resource_error_aborts_and_releases_once() {
    let b = block(0x0A00_0000, 30);
    let mut m = ScanMachine::new(b, 3, 100);
    let mut releases: u32 = 0;
    m.step(ScanEvent::Acquired);
    m.step(ScanEvent::Resolution { outcome: ResolveOutcome::ResourceError });
    // no further host is attempted: the next action is the release.
    assert_eq!(m.next_action(), ScanAction::Release);
    releases += 1;
    m.step(ScanEvent::Released);
    assert_eq!(m.next_action(), ScanAction::Finished { aborted: true });
    assert_eq!(releases, 1);
    assert!(m.into_observations().is_empty());
}

#[test]
fn scenario_acquire_failure_is_fatal_without_release() {
    let b = block(0x0A00_0000, 30);
    let mut m = ScanMachine::new(b, 2, 100);
    m.step(ScanEvent::AcquireFailed);
    assert_eq!(m.next_action(), ScanAction::Finished { aborted: true });
}

#[test]
fn sweep_two_iterations_one_address() {
    let ok = ProbeOutcome::Success { bytes: 4, rtt_ms: 3, ttl: 128 };
    let outcomes = vec![vec![ok], vec![ok]];
    let lines = sweep_report(&outcomes);
    assert_eq!(
        lines,
        vec![
            SweepLine::Header { iteration: 0 },
            SweepLine::Probe { addr_index: 0, outcome: ok },
            SweepLine::Header { iteration: 1 },
            SweepLine::Probe { addr_index: 0, outcome: ok },
        ]
    );
}

#[test]
fn sweep_failure_lines_kept_inline() {
    let ok = ProbeOutcome::Success { bytes: 4, rtt_ms: 1, ttl: 64 };
    let lines = iteration_lines(7, &vec![ProbeOutcome::Failure, ok]);
    assert_eq!(
        lines,
        vec![
            SweepLine::Header { iteration: 7 },
            SweepLine::Probe { addr_index: 0, outcome: ProbeOutcome::Failure },
            SweepLine::Probe { addr_index: 1, outcome: ok },
        ]
    );
}

#[test]
fn runner_collects_in_encounter_order() {
    let b = block(0x0A00_0000, 30);
    let outcomes = vec![
        vec![
            ResolveOutcome::Resolved { hw: MAC_AA },
            ResolveOutcome::Timeout,
        ],
        vec![
            ResolveOutcome::Resolved { hw: MAC_BB },
            ResolveOutcome::Resolved { hw: MAC_AA },
        ],
    ];
    let r = run_scan(b, 2, 100, true, &outcomes);
    assert!(!r.aborted);
    assert_eq!(r.releases, 1);
    assert_eq!(
        r.observations,
        vec![
            Observation { addr: 0x0A00_0001, hw: MAC_AA },
            Observation { addr: 0x0A00_0001, hw: MAC_BB },
            Observation { addr: 0x0A00_0002, hw: MAC_AA },
        ]
    );
}

#[test]
fn runner_resource_error_stops_collection() {
    let b = block(0x0A00_0000, 30);
    let outcomes = vec![vec![
        ResolveOutcome::ResourceError,
        ResolveOutcome::Resolved { hw: MAC_AA },
    ]];
    let r = run_scan(b, 1, 100, true, &outcomes);
    assert!(r.aborted);
    assert_eq!(r.releases, 1);
    assert!(r.observations.is_empty());
}

#[test]
fn runner_acquire_failure_releases_nothing() {
    let b = block(0x0A00_0000, 30);
    let outcomes = vec![vec![ResolveOutcome::Timeout, ResolveOutcome::Timeout]];
    let r = run_scan(b, 1, 100, false, &outcomes);
    assert!(r.aborted);
    assert_eq!(r.releases, 0);
    assert!(r.observations.is_empty());
}

#[test]
fn format_ipv4_dotted_quad() {
    assert_eq!(format_ipv4(0x0A00_0001), b"10.0.0.1".to_vec());
    assert_eq!(format_ipv4(0xFFFF_FFFF), b"255.255.255.255".to_vec());
    assert_eq!(format_ipv4(0), b"0.0.0.0".to_vec());
    assert_eq!(format_ipv4(0xC0A8_0164), b"192.168.1.100".to_vec());
}

#[test]
fn format_mac_canonical() {
    assert_eq!(format_mac(MAC_AA), b"aa:aa:aa:aa:aa:aa".to_vec());
    assert_eq!(format_mac(0x0123_4567_89AB), b"01:23:45:67:89:ab".to_vec());
    assert_eq!(format_mac(0), b"00:00:00:00:00:00".to_vec());
}

#[test]
fn parse_block_reads_canonical_text() {
    assert_eq!(
        parse_block(&b"10.0.0.0/30".to_vec()),
        Some(IpBlock { base: 0x0A00_0000, prefix: 30 })
    );
    assert_eq!(
        parse_block(&b"255.255.255.255/32".to_vec()),
        Some(IpBlock { base: 0xFFFF_FFFF, prefix: 32 })
    );
    assert_eq!(
        parse_block(&b"0.0.0.0/0".to_vec()),
        Some(IpBlock { base: 0, prefix: 0 })
    );
}

#[test]
fn parse_block_rejects_malformed_text() {
    let bad = [
        "",
        "10.0.0.0",
        "10.0.0/8",
        "10.0.0.0/33",
        "10.0.0.256/8",
        "10.0.0.01/8",
        "a.b.c.d/8",
        "10.0.0.0/08",
        "10.0.0.0/8x",
        "10.0.0.0.0/8",
        " 10.0.0.0/8",
        "10.0.0.0/",
    ];
    for case in bad {
        assert!(parse_block(&case.as_bytes().to_vec()).is_none(), "{case}");
    }
}

#[test]
fn parse_block_inverts_format_block() {
    let b = parse_block(&b"192.168.1.0/24".to_vec()).unwrap();
    assert_eq!(b, IpBlock { base: 0xC0A8_0100, prefix: 24 });
    assert_eq!(format_block(&b), b"192.168.1.0/24".to_vec());
}
