use ipnet::IpNet;
use sni_gate::net::{parse_ip, push_ip, IpAddr, SocketAddr};
use sni_gate::pool::health::{beats, ewma, Health, HealthTable};
use sni_gate::pool::http::{accept_status, parse_status, probe_request, response_complete};
use sni_gate::pool::ranking::{reorder_with_hysteresis, Candidate, Ranking, Selector, Views};
use sni_gate::pool::state::{
    dedup, idle_nat64_targets, nat64_sources, with_nat64, Change, EffectiveProbe, Nat64Projection, PoolPlan, PoolState,
    ProbeMode,
};
use sni_gate::pool::target::{add_draw, draw_at, draw_sample, network_size, Network, Target, TargetSpec};
use sni_gate::time::{Duration, Instant};

fn ip(s: &str) -> IpAddr {
    let cs: Vec<char> = s.chars().collect();
    parse_ip(&cs).unwrap()
}

fn shown(a: &IpAddr) -> String {
    let mut out = String::new();
    push_ip(&mut out, *a);
    out
}

fn network(s: &str) -> Network {
    match TargetSpec::parse(&format!("{s}[1]")).unwrap() {
        TargetSpec::Cidr { net, .. } => net,
        other => panic!("expected CIDR, got {other:?}"),
    }
}

const NOW: Instant = Instant { nanos: 1_000_000_000_000 };

#[test]
fn target_kind_is_inferred() {
    assert_eq!(TargetSpec::parse("cf.example.com").unwrap(), TargetSpec::Domain("cf.example.com".into()));
    assert_eq!(TargetSpec::parse("1.2.3.4").unwrap(), TargetSpec::Ip(ip("1.2.3.4")));
    assert_eq!(TargetSpec::parse("2606:4700::1").unwrap(), TargetSpec::Ip(ip("2606:4700::1")));
    match TargetSpec::parse("104.16.0.0/12[4]").unwrap() {
        TargetSpec::Cidr { net, sample } => {
            let own: IpNet = "104.16.0.0/12".parse().unwrap();
            assert_eq!(shown(&net.addr), own.addr().to_string());
            assert_eq!(net.prefix_len, own.prefix_len());
            assert_eq!(sample, Some(4));
        }
        other => panic!("expected CIDR, got {other:?}"),
    }
}

#[test]
fn unbounded_cidr_expansion_is_rejected() {
    let err = TargetSpec::parse("104.16.0.0/12").unwrap_err();
    assert!(err.contains("sample count"), "unhelpful message: {err}");
    assert!(TargetSpec::parse("192.0.2.0/29").is_ok());
}

#[test]
fn malformed_targets_are_rejected() {
    for bad in [
        "",
        "   ",
        "not a cidr/xx",
        "10.0.0.0/33",
        "1.2.3.4[2]",
        "192.0.2.0/29[0]",
        "192.0.2.0/29[abc]",
        "2606:4700::/32[4]x",
        "bad:host",
    ] {
        assert!(TargetSpec::parse(bad).is_err(), "{bad:?} must not parse as a target");
    }
}

fn inside(net: &IpNet, a: &IpAddr) -> bool {
    net.contains(&shown(a).parse::<IpNet>().map(|n| n.addr()).unwrap_or_else(|_| {
        format!("{}/{}", shown(a), net.max_prefix_len()).parse::<IpNet>().unwrap().addr()
    }))
}

#[test]
fn sampling_stays_inside_the_network_and_is_bounded() {
    let own: IpNet = "104.16.0.0/12".parse().unwrap();
    let drawn = draw_sample(&network("104.16.0.0/12"), Some(4));
    assert_eq!(drawn.len(), 4);
    for a in &drawn {
        assert!(inside(&own, a), "{} outside {own}", shown(a));
    }
    let all = draw_sample(&network("192.0.2.0/30"), Some(50));
    assert!(all.len() <= 4, "drew {} from a /30", all.len());
}

#[test]
fn ipv6_sampling_stays_inside_the_network() {
    let own: IpNet = "2606:4700::/32".parse().unwrap();
    let drawn = draw_sample(&network("2606:4700::/32"), Some(4));
    assert_eq!(drawn.len(), 4);
    for a in &drawn {
        assert!(inside(&own, a), "{} outside {own}", shown(a));
    }
}

#[test]
fn a_whole_network_is_its_hosts() {
    let TargetSpec::Cidr { net, sample } = TargetSpec::parse("192.0.2.0/29").unwrap() else {
        panic!("a network");
    };
    assert_eq!(network_size(&net), 8);
    let all = draw_sample(&net, sample);
    let own: IpNet = "192.0.2.0/29".parse().unwrap();
    let hosts: Vec<String> = own.hosts().map(|h| h.to_string()).collect();
    assert_eq!(all.iter().map(shown).collect::<Vec<_>>(), hosts);
}

#[test]
fn a_repeated_draw_adds_nothing() {
    let net = network("10.0.0.0/30");
    let mut out = Vec::new();
    add_draw(&mut out, &net, 1);
    add_draw(&mut out, &net, 1);
    add_draw(&mut out, &net, 3);
    assert_eq!(out, vec![ip("10.0.0.1"), ip("10.0.0.3")]);
}

#[test]
fn given_places_fix_the_sample() {
    let net = network("10.0.0.0/24");
    assert_eq!(draw_at(&net, 2, &vec![7, 7, 9, 11]), vec![ip("10.0.0.7"), ip("10.0.0.9")]);
    assert_eq!(draw_at(&net, 4, &vec![7, 7, 9]), vec![ip("10.0.0.7"), ip("10.0.0.9")]);
    assert!(draw_at(&net, 0, &vec![7]).is_empty());
}

fn candidate(addr: &str, target: usize, tags: &[&str]) -> Candidate {
    Candidate { addr: ip(addr), target, tags: tags.iter().map(|s| (*s).to_string()).collect() }
}

#[test]
fn select_unions_indices_and_tags() {
    let c = candidate("1.2.3.4", 1, &["ipv4", "edge"]);

    assert!(c.matches(&vec![]), "an empty filter selects everything");
    assert!(c.matches(&vec![Selector::Index(1)]));
    assert!(!c.matches(&vec![Selector::Index(0)]));
    assert!(c.matches(&vec![Selector::Tag("ipv4".into())]));
    assert!(c.matches(&vec![Selector::Tag("edge".into())]));
    assert!(!c.matches(&vec![Selector::Tag("ipv6".into())]));
    assert!(c.matches(&vec![Selector::Tag("ipv6".into()), Selector::Index(1)]));
    assert!(!c.matches(&vec![Selector::Tag("ipv6".into()), Selector::Index(0)]));
}

#[test]
fn ewma_smooths_a_single_outlier() {
    let base = Duration::from_millis(20);
    let after = ewma(base, Duration::from_millis(200));
    assert!(after < Duration::from_millis(90), "a single spike moved the average to {after:?}");
    assert_eq!(after, Duration::from_millis(74));
    let mut v = base;
    for _ in 0..20 {
        v = ewma(v, Duration::from_millis(200));
    }
    assert!(v > Duration::from_millis(180), "did not converge: {v:?}");
}

#[test]
fn the_average_is_that_of_double_precision() {
    let average = |prev: u128, sample: u128| ewma(Duration { nanos: prev }, Duration { nanos: sample }).nanos;
    assert_eq!(average(3, 3), 2);
    assert_eq!(average(7, 7), 7);
    assert_eq!(average(20_000_000, 200_000_000), 74_000_000);

    let mut bits: u128 = 0x9e37_79b9_7f4a_7c15;
    for shift in 0..94u32 {
        for other in 0..94u32 {
            bits = bits.wrapping_mul(0x2360_ed05_1fc6_5da4_4385_df64_9fcc_f645).wrapping_add(0x5851_f42d_4c95_7f2d);
            let prev = bits >> (34 + shift);
            let sample = (bits.rotate_left(64) ^ bits) >> (34 + other);
            let expected = (prev as f64 * (1.0 - 0.3) + sample as f64 * 0.3) as u64;
            let max = 18_446_744_073_709_551_615_999_999_999;
            if prev <= max && sample <= max {
                assert_eq!(average(prev, sample), expected as u128, "{prev} and {sample}");
            }
        }
    }
}

#[test]
fn hysteresis_margin_ignores_noise_but_yields_to_real_gains() {
    assert!(!beats(Duration::from_millis(49), Duration::from_millis(50)));
    assert!(beats(Duration::from_millis(35), Duration::from_millis(50)));
    assert!(!beats(Duration::from_micros(900), Duration::from_millis(1)));
    assert!(beats(Duration::from_millis(1), Duration::from_millis(10)));
}

fn table_with(rtts: &[(&str, Option<u64>, bool)]) -> HealthTable {
    let mut health = HealthTable::new();
    for (addr, ms, degraded) in rtts {
        let mut h = Health::new(NOW, Duration::from_secs(30));
        h.rtt = ms.map(Duration::from_millis);
        h.degraded = *degraded;
        health.set(ip(addr), h);
    }
    health
}

fn measure(state: &mut PoolState, addr: &str, ms: u64) {
    let mut h = state.health.get(ip(addr)).unwrap();
    h.rtt = Some(Duration::from_millis(ms));
    state.health.set(ip(addr), h);
}

#[test]
fn the_computed_order_is_stored_so_hysteresis_persists() {
    let candidates = vec![candidate("1.1.1.1", 0, &["ipv4"]), candidate("2.2.2.2", 0, &["ipv4"])];

    let mut state = PoolState::new(1);
    state.health = table_with(&[("1.1.1.1", None, false), ("2.2.2.2", None, false)]);
    state.recompute_order(&candidates);
    assert!(state.order.is_empty());

    measure(&mut state, "1.1.1.1", 50);
    state.recompute_order(&candidates);
    assert_eq!(state.order, vec![ip("1.1.1.1")], "the order must be stored, not recomputed and discarded");

    measure(&mut state, "2.2.2.2", 49);
    state.recompute_order(&candidates);
    assert_eq!(state.order.first(), Some(&ip("1.1.1.1")), "a 1ms gain must not flip the leader across cycles");

    measure(&mut state, "2.2.2.2", 20);
    state.recompute_order(&candidates);
    assert_eq!(state.order.first(), Some(&ip("2.2.2.2")), "a decisive gain must take the lead");
}

#[test]
fn ranking_is_stable_under_noise() {
    let candidates = vec![candidate("1.1.1.1", 0, &["ipv4"]), candidate("2.2.2.2", 0, &["ipv4"])];
    let table = table_with(&[("1.1.1.1", Some(50), false), ("2.2.2.2", Some(49), false)]);
    let prev = vec![ip("1.1.1.1")];
    let order = reorder_with_hysteresis(&prev, &table, &candidates);
    assert_eq!(order[0], ip("1.1.1.1"), "a 1ms gain must not flip the leader");

    let table = table_with(&[("1.1.1.1", Some(50), false), ("2.2.2.2", Some(20), false)]);
    let order = reorder_with_hysteresis(&prev, &table, &candidates);
    assert_eq!(order[0], ip("2.2.2.2"));
}

#[test]
fn degraded_and_unmeasured_candidates_leave_the_order() {
    let candidates = vec![
        candidate("1.1.1.1", 0, &["ipv4"]),
        candidate("2.2.2.2", 0, &["ipv4"]),
        candidate("3.3.3.3", 0, &["ipv4"]),
    ];
    let table =
        table_with(&[("1.1.1.1", Some(10), true), ("2.2.2.2", Some(30), false), ("3.3.3.3", None, false)]);
    let order = reorder_with_hysteresis(&vec![], &table, &candidates);
    assert_eq!(order, vec![ip("2.2.2.2")]);
}

#[test]
fn degraded_backoff_doubles_and_caps() {
    let interval = Duration::from_secs(300);
    let base = Duration::from_secs(30);
    let mut h = Health::new(NOW, base);

    h.record_failure(NOW, 2, interval, base);
    assert!(!h.degraded, "one failure is below the threshold of 2");
    h.record_failure(NOW, 2, interval, base);
    assert!(h.degraded);
    assert_eq!(h.backoff, base);

    for expected in [60u64, 120, 240, 300, 300] {
        h.record_failure(NOW, 2, interval, base);
        assert_eq!(h.backoff, Duration::from_secs(expected));
    }
}

#[test]
fn recovery_clears_degradation_and_resets_backoff() {
    let interval = Duration::from_secs(300);
    let base = Duration::from_secs(30);
    let mut h = Health::new(NOW, base);
    h.record_failure(NOW, 1, interval, base);
    h.record_failure(NOW, 1, interval, base);
    assert!(h.degraded);

    h.record_success(NOW, Duration::from_millis(25), interval, base);
    assert!(!h.degraded);
    assert_eq!(h.consecutive_failures, 0);
    assert_eq!(h.backoff, base);
    assert_eq!(h.rtt, Some(Duration::from_millis(25)));
}

#[test]
fn status_line_parsing() {
    assert_eq!(parse_status(b"HTTP/1.1 200 OK\r\n").unwrap(), 200);
    assert_eq!(parse_status(b"HTTP/1.0 403 Forbidden\r\n").unwrap(), 403);
    assert_eq!(parse_status(b"HTTP/2 204 \r\n").unwrap(), 204);
    assert!(parse_status(b"\x16\x03\x01\x00\x01").is_err());
    assert!(parse_status(b"SSH-2.0-OpenSSH\r\n").is_err());
    assert!(parse_status(b"HTTP/1.1\r\n").is_err());
    assert!(parse_status(b"HTTP/1.1 abc OK\r\n").is_err());
}

#[test]
fn probe_answers_are_judged() {
    let req = probe_request("/status", "edge.test");
    assert!(req.starts_with("GET /status HTTP/1.1\r\n"), "{req}");
    assert!(req.contains("Host: edge.test\r\n"), "{req}");
    assert!(response_complete(b"HTTP/1.1 200 OK\r\n"));
    assert!(!response_complete(b"HTTP/1.1 200 OK"));
    assert!(accept_status(200, &vec![200, 204]).is_ok());
    let err = accept_status(500, &vec![200, 204]).unwrap_err();
    assert!(err.contains("500") && err.contains("200"), "{err}");
}

fn plan(targets: &[&str]) -> PoolPlan {
    PoolPlan {
        name: "edge".to_string(),
        targets: targets
            .iter()
            .enumerate()
            .map(|(i, t)| Target::prepare("edge", i, t, &vec![" eu ".to_string()]).unwrap())
            .collect(),
        probe: EffectiveProbe {
            mode: ProbeMode::Tcp,
            port: 443,
            sni: None,
            path: None,
            status: Vec::new(),
            timeout: Duration::from_secs(3),
            interval: Duration::from_secs(300),
            degraded_interval: Duration::from_secs(30),
            fail_threshold: 2,
        },
        nat64: None,
        fallback: Some(0),
    }
}

#[test]
fn a_cycle_probes_ranks_and_publishes() {
    let plan = plan(&["1.1.1.1", "2.2.2.2"]);
    let mut state = PoolState::new(2);
    assert!(state.begin_cycle(&plan, NOW));
    let candidates = state.native_candidates(&plan);
    assert_eq!(candidates.iter().map(|c| c.addr).collect::<Vec<_>>(), vec![ip("1.1.1.1"), ip("2.2.2.2")]);
    assert!(candidates[0].tagged("eu"));
    state.tend(&plan, &candidates, NOW);
    assert_eq!(state.due(&candidates, NOW), vec![0, 1]);

    assert_eq!(state.on_outcome(&plan, ip("1.1.1.1"), Some(Duration::from_millis(50)), NOW), Change::Nothing);
    assert_eq!(state.on_outcome(&plan, ip("2.2.2.2"), Some(Duration::from_millis(10)), NOW), Change::Nothing);
    assert_eq!(state.on_outcome(&plan, ip("9.9.9.9"), None, NOW), Change::Unknown);
    state.recompute_order(&candidates);
    assert_eq!(state.order, vec![ip("2.2.2.2"), ip("1.1.1.1")]);
    assert!(state.due(&candidates, NOW).is_empty());

    let mut views = Views::new();
    let all = views.register_view(Vec::new());
    let first = views.register_view(vec![Selector::Index(0)]);
    let ranking = Ranking::publish(&state.order, &candidates, &views, plan.fallback);
    assert_eq!(ranking.pick("edge", all, 443).unwrap(), SocketAddr::new(ip("2.2.2.2"), 443));
    assert_eq!(ranking.pick("edge", first, 443).unwrap(), SocketAddr::new(ip("1.1.1.1"), 443));

    assert_eq!(state.on_outcome(&plan, ip("2.2.2.2"), None, NOW), Change::Nothing);
    assert_eq!(state.on_outcome(&plan, ip("2.2.2.2"), None, NOW), Change::Degraded);
    state.recompute_order(&candidates);
    assert_eq!(state.order, vec![ip("1.1.1.1")]);
    assert_eq!(
        state.on_outcome(&plan, ip("2.2.2.2"), Some(Duration::from_millis(10)), NOW),
        Change::Recovered
    );
    assert!(state.next_due(&plan, &candidates, NOW) > Duration::zero());
    assert!(Ranking::empty(1).pick("edge", 0, 443).is_err());
    assert!(Ranking::empty(1).pick("edge", 7, 443).is_err());
}

#[test]
fn a_target_that_cannot_be_read_names_its_place() {
    let err = Target::prepare("edge", 3, "bad:host", &Vec::new()).unwrap_err();
    assert!(err.starts_with("[pools.edge]: targets[3]: "), "{err}");
}

#[test]
fn projected_candidates_come_behind_the_native_ones() {
    let mut plan = plan(&["1.1.1.1", "2606:4700::1", "cf.test"]);
    plan.nat64 = Some(Nat64Projection { from: Some(vec![0, 1]), timeout: Duration::from_secs(9) });
    let mut state = PoolState::new(3);
    assert!(state.begin_cycle(&plan, NOW));
    state.set_resolved(2, vec![ip("1.1.1.1"), ip("2.2.2.2")]);
    let from = plan.nat64.as_ref().unwrap().from.clone();
    let natives = state.native_candidates(&plan);
    assert_eq!(natives.len(), 4);
    assert_eq!(idle_nat64_targets(&natives, from.as_ref().unwrap()), vec![1]);
    assert_eq!(nat64_sources(&natives, &from), vec![0x01010101]);
    let all = dedup(with_nat64(natives, &from, &plan.targets, &vec![vec![0x0064_ff9b << 96 | 0x01010101]]));
    assert_eq!(
        all.iter().map(|c| shown(&c.addr)).collect::<Vec<_>>(),
        vec!["1.1.1.1", "2606:4700::1", "2.2.2.2", "64:ff9b::101:101"]
    );
    assert!(all[3].tagged("nat64") && all[3].tagged("ipv6") && all[3].tagged("eu"));
    assert_eq!(all[3].target, 0);
    assert_eq!(plan.budget(&all[3]), Duration::from_secs(9));
    assert_eq!(plan.budget(&all[0]), Duration::from_secs(3));
    assert!(!state.begin_cycle(&plan, NOW), "names are not resolved again at once");
    let built = state.build_candidates(&plan, &vec![vec![0x0064_ff9b << 96 | 0x01010101]], NOW);
    assert_eq!(
        built.iter().map(|c| shown(&c.addr)).collect::<Vec<_>>(),
        vec!["1.1.1.1", "2606:4700::1", "2.2.2.2", "64:ff9b::101:101"]
    );
    assert!(built.iter().all(|c| state.health.get(c.addr).is_some()));
}

#[test]
fn a_sample_that_never_answers_is_replaced() {
    let plan = plan(&["10.0.0.0/8[1]"]);
    let mut state = PoolState::new(1);
    let candidates = state.native_candidates(&plan);
    let dead = candidates[0].addr;
    state.tend(&plan, &candidates, NOW);
    state.resample_dead(&plan, &candidates);
    assert!(state.resampled.is_empty(), "it has not been given up");
    for _ in 0..10 {
        state.on_outcome(&plan, dead, None, NOW);
    }
    // A draw that hits the same address again changes nothing.
    while state.resampled.is_empty() {
        state.resample_dead(&plan, &candidates);
    }
    assert_eq!(state.resampled, vec![dead]);
    assert!(state.health.get(dead).is_none());
    let now = state.native_candidates(&plan);
    assert_eq!(now.len(), 1);
    assert_ne!(now[0].addr, dead);
    assert!(inside(&"10.0.0.0/8".parse().unwrap(), &now[0].addr));
    // What was drawn instead gives way in turn, and neither comes back.
    let second = now[0].addr;
    state.tend(&plan, &now, NOW);
    for _ in 0..10 {
        state.on_outcome(&plan, second, None, NOW);
    }
    let draws = vec![Some(ip("10.255.255.255"))];
    if second != ip("10.255.255.255") && dead != ip("10.255.255.255") {
        state.resample_with(&plan, &now, &draws);
        let last = state.native_candidates(&plan);
        assert_eq!(last.iter().map(|c| c.addr).collect::<Vec<_>>(), vec![ip("10.255.255.255")]);
    }
}

#[test]
fn given_draws_fix_which_samples_are_replaced() {
    let plan = plan(&["10.0.0.0/8[1]", "10.0.0.0/8[1]", "1.1.1.1"]);
    let mut state = PoolState::new(3);
    let candidates = vec![candidate("10.0.0.1", 0, &[]), candidate("10.0.0.2", 1, &[]), candidate("1.1.1.1", 2, &[])];
    state.tend(&plan, &candidates, NOW);
    for c in &candidates {
        for _ in 0..10 {
            state.on_outcome(&plan, c.addr, None, NOW);
        }
    }
    // The second draw is known already; the third candidate was not sampled.
    let draws = vec![Some(ip("10.9.9.9")), Some(ip("1.1.1.1")), Some(ip("10.8.8.8"))];
    state.resample_with(&plan, &candidates, &draws);
    assert_eq!(state.resampled, vec![ip("10.0.0.1")]);
    assert_eq!(state.replacements, vec![vec![ip("10.9.9.9")], vec![], vec![]]);
    assert!(state.health.get(ip("10.0.0.1")).is_none());
    assert!(state.health.get(ip("10.0.0.2")).is_some());
    // An address that was given up is not taken back.
    let draws = vec![None, Some(ip("10.0.0.1")), None];
    state.resample_with(&plan, &candidates, &draws);
    assert_eq!(state.resampled, vec![ip("10.0.0.1")]);
}

#[test]
fn a_pool_is_used_once_a_view_is_registered() {
    let mut views = Views::new();
    assert!(!views.is_used());
    views.register_view(vec![Selector::Tag("ipv4".into())]);
    assert!(views.is_used());
}

#[test]
fn a_plan_with_an_unsound_network_or_span_is_told_apart() {
    let good = plan(&["10.0.0.0/8[1]"]);
    assert!(good.is_valid());
    let mut bad = plan(&["10.0.0.0/8[1]"]);
    bad.probe.interval = Duration { nanos: u128::MAX };
    assert!(!bad.is_valid());
    let mut bad = plan(&["10.0.0.0/8[1]"]);
    bad.targets[0].spec =
        TargetSpec::Cidr { net: Network { addr: ip("10.0.0.0"), prefix_len: 33 }, sample: Some(1) };
    assert!(!bad.is_valid());
}

#[test]
fn neighbours_in_an_order_are_within_the_margin() {
    let mut table = HealthTable::new();
    let spans = [("10.0.0.1", 80u64), ("10.0.0.2", 20), ("10.0.0.3", 79), ("10.0.0.4", 10)];
    let mut candidates = Vec::new();
    for (addr, millis) in spans {
        let mut h = Health::new(NOW, Duration::from_secs(30));
        h.record_success(NOW, Duration::from_millis(millis), Duration::from_secs(300), Duration::from_secs(30));
        table.set(ip(addr), h);
        candidates.push(candidate(addr, 0, &[]));
    }
    let prev = vec![ip("10.0.0.1"), ip("10.0.0.3"), ip("10.0.0.2")];
    let order = reorder_with_hysteresis(&prev, &table, &candidates);
    assert_eq!(order.len(), 4);
    for w in order.windows(2) {
        let ahead = table.get(w[0]).unwrap().rtt.unwrap();
        let behind = table.get(w[1]).unwrap().rtt.unwrap();
        assert!(!beats(behind, ahead));
    }
    // A millisecond does not suffice to get ahead.
    let of = |a: &str| order.iter().position(|x| *x == ip(a)).unwrap();
    assert!(of("10.0.0.1") < of("10.0.0.3"));
    assert!(of("10.0.0.2") < of("10.0.0.1"));
}
