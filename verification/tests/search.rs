use fantoch::region::Region;
use fantoch::search::{RankingFT, RankingMetric, RankingParams, Search, SearchInput};
use fantoch::stats::{AllStats, BoteMethod, Stats, StatsKey};

fn regions(names: &[&str]) -> Vec<Region> {
    names.iter().map(|n| Region::new(n)).collect()
}

fn names(rs: &[Region]) -> Vec<String> {
    rs.iter().map(|r| r.name().clone()).collect()
}

fn name_len(servers: &Vec<Region>) -> u16 {
    servers.iter().map(|r| r.name().len() as u16).sum()
}

/// Latencies that grow with the length of the servers' names: Atlas and
/// EPaxos see the sum plus the quorum size, the FPaxos leaders twice the sum
/// plus the quorum size (and the fastest leader one more).
fn by_name_len(m: BoteMethod, servers: &Vec<Region>, _clients: &Vec<Region>, q: usize) -> Stats {
    let base = name_len(servers);
    match m {
        BoteMethod::Leaderless => Stats::new(base + q as u16),
        BoteMethod::BestLatencyLeader => Stats::new(2 * base + q as u16 + 1),
        BoteMethod::BestFairnessLeader => Stats::new(2 * base + q as u16),
    }
}

fn five_regions() -> Vec<Region> {
    regions(&["ccc", "a", "eeeee", "bb", "dddd"])
}

fn params(min_n: usize, max_n: usize, ft: RankingFT) -> RankingParams {
    RankingParams::new(0, 0, 0, min_n, max_n, RankingMetric::Latency, ft)
}

#[test]
fn search_input_names() {
    assert_eq!(SearchInput::R20.to_string(), "R20");
    assert_eq!(SearchInput::R20C20.to_string(), "R20C20");
    assert_eq!(SearchInput::R17C17.to_string(), "R17C17");
}

#[test]
fn search_filename() {
    assert_eq!(Search::filename(3, 13, &SearchInput::R20), "3_13_R20.data");
    assert_eq!(Search::filename(5, 7, &SearchInput::R17C17), "5_7_R17C17.data");
    assert_eq!(Search::filename(0, 120, &SearchInput::R20C20), "0_120_R20C20.data");
}

#[test]
fn fault_tolerances_considered() {
    assert_eq!(RankingFT::F1.fs(3), vec![1]);
    assert_eq!(RankingFT::F1.fs(13), vec![1]);
    assert_eq!(RankingFT::F1F2.fs(3), vec![1]);
    assert_eq!(RankingFT::F1F2.fs(5), vec![1, 2]);
    assert_eq!(RankingFT::F1F2.fs(13), vec![1, 2]);
    assert_eq!(RankingFT::F1F2.fs(1), Vec::<usize>::new());
    assert_eq!(RankingFT::F1.fs(0), Vec::<usize>::new());
}

#[test]
fn ranking_params_keep_their_values() {
    let p = RankingParams::new(1, 2, 3, 4, 5, RankingMetric::Fairness, RankingFT::F1F2);
    assert_eq!(p.min_lat_improv, 1);
    assert_eq!(p.min_fair_improv, 2);
    assert_eq!(p.min_lat_decrease, 3);
    assert_eq!(p.min_n, 4);
    assert_eq!(p.max_n, 5);
    assert_eq!(p.ranking_metric, RankingMetric::Fairness);
    assert_eq!(p.ranking_ft, RankingFT::F1F2);
}

fn stats_3() -> AllStats {
    let mut stats = AllStats::new();
    stats.insert(StatsKey::Atlas, 1, Stats::new(5));
    stats.insert(StatsKey::LFPaxos, 1, Stats::new(7));
    stats.insert(StatsKey::FFPaxos, 1, Stats::new(9));
    stats.insert(StatsKey::EPaxos, 0, Stats::new(6));
    stats
}

#[test]
fn stats_fmt_shows_atlas_and_fair_fpaxos() {
    assert_eq!(
        Search::stats_fmt(&stats_3(), 3, false),
        "a1=Stats { mean: 5 } ff1=Stats { mean: 9 } e=Stats { mean: 6 }"
    );
}

#[test]
fn stats_fmt_appends_fast_fpaxos_when_asked() {
    assert_eq!(
        Search::stats_fmt(&stats_3(), 3, true),
        "a1=Stats { mean: 5 } ff1=Stats { mean: 9 } lf1=Stats { mean: 7 } e=Stats { mean: 6 }"
    );
}

#[test]
fn stats_fmt_for_two_faults() {
    let mut stats = stats_3();
    stats.insert(StatsKey::Atlas, 2, Stats::new(15));
    stats.insert(StatsKey::FFPaxos, 2, Stats::new(19));
    assert_eq!(
        Search::stats_fmt(&stats, 5, false),
        "a1=Stats { mean: 5 } ff1=Stats { mean: 9 } a2=Stats { mean: 15 } ff2=Stats { mean: 19 } e=Stats { mean: 6 }"
    );
    // a single process tolerates no faults
    assert_eq!(Search::stats_fmt(&stats, 1, false), "e=Stats { mean: 6 }");
}

#[test]
fn can_search_checks_sizes() {
    assert!(Search::can_search(3, 5, SearchInput::R20, 5));
    assert!(Search::can_search(3, 13, SearchInput::R20, 20));
    assert!(Search::can_search(3, 13, SearchInput::R17C17, 0));
    assert!(!Search::can_search(3, 7, SearchInput::R20, 5));
    assert!(!Search::can_search(0, 4, SearchInput::R20, 5));
    assert!(Search::can_search(4, 3, SearchInput::R20, 0));
}

#[test]
fn new_search_with_colocated_clients() {
    let search = Search::new(3, 5, SearchInput::R20, five_regions(), &by_name_len);
    assert_eq!(names(search.regions()), vec!["a", "bb", "ccc", "dddd", "eeeee"]);
    assert!(search.clients().is_none());
    let all = search.configs_by_size();
    assert_eq!(all.len(), 2);
    assert_eq!(all[0].0, 3);
    assert_eq!(all[0].1.len(), 10);
    assert_eq!(all[1].0, 5);
    assert_eq!(all[1].1.len(), 1);

    // configurations come in lexicographic order of the regions picked
    assert_eq!(names(&all[0].1[0].0), vec!["a", "bb", "ccc"]);
    assert_eq!(names(&all[0].1[1].0), vec!["a", "bb", "dddd"]);
    assert_eq!(names(&all[0].1[9].0), vec!["ccc", "dddd", "eeeee"]);

    // statistics of {a, bb, ccc}: names of total length 6
    let stats = &all[0].1[0].1;
    assert_eq!(stats.get(StatsKey::Atlas, 1), Stats::new(6 + 2));
    assert_eq!(stats.get(StatsKey::LFPaxos, 1), Stats::new(12 + 2 + 1));
    assert_eq!(stats.get(StatsKey::FFPaxos, 1), Stats::new(12 + 2));
    assert_eq!(stats.get(StatsKey::EPaxos, 0), Stats::new(6 + 2));
    assert!(!stats.contains(StatsKey::Atlas, 2));
    assert_eq!(stats.entries().len(), 4);

    // statistics of all five regions: names of total length 15
    let stats = &all[1].1[0].1;
    assert_eq!(stats.get(StatsKey::Atlas, 1), Stats::new(15 + 3));
    assert_eq!(stats.get(StatsKey::Atlas, 2), Stats::new(15 + 4));
    assert_eq!(stats.get(StatsKey::FFPaxos, 2), Stats::new(30 + 3));
    assert_eq!(stats.get(StatsKey::LFPaxos, 2), Stats::new(30 + 3 + 1));
    assert_eq!(stats.get(StatsKey::EPaxos, 0), Stats::new(15 + 3));
    assert_eq!(stats.entries().len(), 7);
}

#[test]
fn new_search_clients_everywhere() {
    let seen = std::cell::RefCell::new(Vec::new());
    let bote = |m: BoteMethod, servers: &Vec<Region>, clients: &Vec<Region>, q: usize| {
        seen.borrow_mut().push(clients.len());
        by_name_len(m, servers, clients, q)
    };
    let search = Search::new(3, 3, SearchInput::R20C20, five_regions(), &bote);
    let clients = search.clients().as_ref().unwrap();
    assert_eq!(names(clients), vec!["a", "bb", "ccc", "dddd", "eeeee"]);
    assert!(seen.borrow().iter().all(|&n| n == 5));
    assert_eq!(search.configs_by_size().len(), 1);
}

#[test]
fn new_search_with_2018_regions() {
    let search = Search::new(15, 17, SearchInput::R17C17, Vec::new(), &by_name_len);
    let expected = vec![
        "asia-east1",
        "asia-northeast1",
        "asia-south1",
        "asia-southeast1",
        "australia-southeast1",
        "europe-north1",
        "europe-west1",
        "europe-west2",
        "europe-west3",
        "europe-west4",
        "northamerica-northeast1",
        "southamerica-east1",
        "us-central1",
        "us-east1",
        "us-east4",
        "us-west1",
        "us-west2",
    ];
    assert_eq!(names(search.regions()), expected);
    assert_eq!(names(search.clients().as_ref().unwrap()), expected);
    let all = search.configs_by_size();
    assert_eq!(all.len(), 2);
    assert_eq!(all[0].1.len(), 136);
    assert_eq!(all[1].1.len(), 1);
}

#[test]
fn sorted_configs_highest_score_first() {
    let search = Search::new(3, 5, SearchInput::R20, five_regions(), &by_name_len);
    let sorted = search.sorted_configs(&params(3, 5, RankingFT::F1), 3);
    assert_eq!(sorted.keys().copied().collect::<Vec<_>>(), vec![3, 5]);

    // with n = 3 and f = 1, Atlas improves on FPaxos by the names' length
    let top3 = &sorted[&3];
    assert_eq!(top3.len(), 3);
    assert_eq!(top3[0].0, 12);
    assert_eq!(names(&top3[0].1 .0), vec!["ccc", "dddd", "eeeee"]);
    assert_eq!(top3[1].0, 11);
    assert_eq!(names(&top3[1].1 .0), vec!["bb", "dddd", "eeeee"]);
    // a tie is broken by the configuration, the greater first
    assert_eq!(top3[2].0, 10);
    assert_eq!(names(&top3[2].1 .0), vec!["bb", "ccc", "eeeee"]);

    // with n = 5, Atlas' quorum is one larger than FPaxos'
    let top5 = &sorted[&5];
    assert_eq!(top5.len(), 1);
    assert_eq!(top5[0].0, 14);
}

#[test]
fn sorted_configs_with_two_faults() {
    let search = Search::new(3, 5, SearchInput::R20, five_regions(), &by_name_len);
    let sorted = search.sorted_configs(&params(5, 5, RankingFT::F1F2), 10);
    assert_eq!(sorted.keys().copied().collect::<Vec<_>>(), vec![5]);
    assert_eq!(sorted[&5].len(), 1);
    assert_eq!(sorted[&5][0].0, 28);
}

#[test]
fn sorted_configs_drops_invalid_ones() {
    let search = Search::new(3, 5, SearchInput::R20, five_regions(), &by_name_len);
    // only configurations where Atlas improves by at least 11
    let p = RankingParams::new(11, 0, 0, 3, 3, RankingMetric::Latency, RankingFT::F1);
    let sorted = search.sorted_configs(&p, 100);
    let top3 = &sorted[&3];
    assert_eq!(top3.len(), 2);
    assert_eq!(top3[0].0, 12);
    assert_eq!(top3[1].0, 11);
}

#[test]
fn sorted_configs_fairness_scores_zero() {
    let search = Search::new(3, 5, SearchInput::R20, five_regions(), &by_name_len);
    let p = RankingParams::new(0, 0, 0, 3, 3, RankingMetric::Fairness, RankingFT::F1);
    let sorted = search.sorted_configs(&p, 100);
    let top3 = &sorted[&3];
    assert_eq!(top3.len(), 10);
    assert!(top3.iter().all(|(score, _)| *score == 0));
    // with equal scores, the greatest configuration comes first
    assert_eq!(names(&top3[0].1 .0), vec!["ccc", "dddd", "eeeee"]);
    assert_eq!(names(&top3[9].1 .0), vec!["a", "bb", "ccc"]);
}

#[test]
fn ranked_counts_per_size() {
    let search = Search::new(3, 5, SearchInput::R20, five_regions(), &by_name_len);
    assert_eq!(search.ranked_counts(&params(3, 5, RankingFT::F1)), vec![(3, 10), (5, 1)]);
    let p = RankingParams::new(11, 0, 0, 3, 13, RankingMetric::Latency, RankingFT::F1);
    assert_eq!(search.ranked_counts(&p), vec![(3, 2), (5, 1)]);
    assert_eq!(search.ranked_counts(&params(4, 4, RankingFT::F1)), vec![]);
}

fn thirteen_regions() -> Vec<Region> {
    let names: Vec<String> = (0..13).rev().map(|i| format!("r{:02}", i)).collect();
    names.iter().map(|n| Region::new(n)).collect()
}

/// Only the configurations of the first regions, by name, improve on FPaxos;
/// Atlas' latency goes down by two with every two regions more.
fn prefix_only(m: BoteMethod, servers: &Vec<Region>, _clients: &Vec<Region>, _q: usize) -> Stats {
    let prefix = servers
        .iter()
        .enumerate()
        .all(|(i, r)| *r.name() == format!("r{:02}", i));
    let atlas = 200 - servers.len() as u16;
    match m {
        BoteMethod::Leaderless => Stats::new(atlas),
        BoteMethod::BestLatencyLeader => Stats::new(atlas),
        BoteMethod::BestFairnessLeader => Stats::new(if prefix { atlas + 1 } else { atlas }),
    }
}

#[test]
fn sorted_evolving_configs_follow_the_prefixes() {
    let search = Search::new(3, 13, SearchInput::R20, thirteen_regions(), &prefix_only);
    let p = RankingParams::new(1, 0, 2, 3, 13, RankingMetric::Latency, RankingFT::F1);
    assert!(search.evolving_ready(&p));
    let evolving = search.sorted_evolving_configs(&p, 10);
    assert_eq!(evolving.len(), 1);
    let (score, css) = &evolving[0];
    assert_eq!(*score, 6);
    assert_eq!(css.len(), 6);
    for (k, cs) in css.iter().enumerate() {
        let n = 3 + 2 * k;
        let expected: Vec<String> = (0..n).map(|i| format!("r{:02}", i)).collect();
        assert_eq!(names(&cs.0), expected);
    }
}

#[test]
fn sorted_evolving_configs_need_latency_decrease() {
    let search = Search::new(3, 13, SearchInput::R20, thirteen_regions(), &prefix_only);
    // Atlas' latency only goes down by two at each step
    let p = RankingParams::new(1, 0, 3, 3, 13, RankingMetric::Latency, RankingFT::F1);
    assert!(search.sorted_evolving_configs(&p, 10).is_empty());
}

#[test]
fn sorted_evolving_configs_capped() {
    let search = Search::new(3, 13, SearchInput::R20, thirteen_regions(), &prefix_only);
    let p = RankingParams::new(1, 0, 2, 3, 13, RankingMetric::Latency, RankingFT::F1);
    assert!(search.sorted_evolving_configs(&p, 0).is_empty());
}

#[test]
fn evolving_needs_the_sizes_that_chains_reach() {
    let search = Search::new(3, 5, SearchInput::R20, five_regions(), &by_name_len);
    // configurations of 3 and 5 regions are ranked, but none of 7
    let p = RankingParams::new(0, 0, -100, 3, 13, RankingMetric::Latency, RankingFT::F1);
    assert!(!search.evolving_ready(&p));
    // no configuration of 3 regions is valid: no chain starts, nothing is missing
    let strict = RankingParams::new(100, 0, 0, 3, 13, RankingMetric::Latency, RankingFT::F1);
    assert!(search.evolving_ready(&strict));
    assert!(search.sorted_evolving_configs(&strict, 10).is_empty());
    // no configuration of 3 regions extends to 5: nothing beyond 5 is needed
    let no_decrease = RankingParams::new(0, 0, 100, 3, 13, RankingMetric::Latency, RankingFT::F1);
    assert!(search.evolving_ready(&no_decrease));
    assert!(search.sorted_evolving_configs(&no_decrease, 10).is_empty());
    // a search without configurations of 3 regions
    let search = Search::new(5, 5, SearchInput::R20, five_regions(), &by_name_len);
    assert!(!search.evolving_ready(&strict));
}

#[test]
fn from_parts_accepts_stored_searches() {
    let made = Search::new(3, 5, SearchInput::R20, five_regions(), &by_name_len);
    let rebuilt = Search::from_parts(
        made.regions().clone(),
        made.clients().clone(),
        made.configs_by_size().iter().map(|(n, css)| (*n, css.iter().map(|(c, s)| (c.clone(), copy_stats(s))).collect())).collect(),
    );
    let rebuilt = rebuilt.expect("a search as it was made is accepted");
    assert_eq!(names(rebuilt.regions()), names(made.regions()));
    assert_eq!(rebuilt.configs_by_size().len(), 2);
    let sorted = rebuilt.sorted_configs(&params(3, 5, RankingFT::F1), 3);
    assert_eq!(sorted[&3][0].0, 12);
}

fn copy_stats(s: &AllStats) -> AllStats {
    let mut out = AllStats::new();
    for (k, f, st) in s.entries() {
        out.insert(*k, *f, *st);
    }
    out
}

fn full_stats(n: usize) -> AllStats {
    let mut stats = AllStats::new();
    let max_f = std::cmp::min(n / 2, 2);
    for f in 1..=max_f {
        stats.insert(StatsKey::Atlas, f, Stats::new(1));
        stats.insert(StatsKey::LFPaxos, f, Stats::new(1));
        stats.insert(StatsKey::FFPaxos, f, Stats::new(1));
    }
    stats.insert(StatsKey::EPaxos, 0, Stats::new(1));
    stats
}

#[test]
fn from_parts_rejects_malformed_searches() {
    let ok = || vec![(3, vec![(regions(&["a", "b", "c"]), full_stats(3))])];
    assert!(Search::from_parts(Vec::new(), None, ok()).is_some());
    assert!(Search::from_parts(Vec::new(), None, Vec::new()).is_some());

    // a configuration of the wrong size
    let wrong_size = vec![(3, vec![(regions(&["a", "b"]), full_stats(3))])];
    assert!(Search::from_parts(Vec::new(), None, wrong_size).is_none());

    // regions out of order
    let unsorted = vec![(3, vec![(regions(&["b", "a", "c"]), full_stats(3))])];
    assert!(Search::from_parts(Vec::new(), None, unsorted).is_none());

    // missing statistics
    let mut partial = full_stats(3);
    partial = {
        let mut s = AllStats::new();
        for (k, f, st) in partial.entries() {
            if *k != StatsKey::EPaxos {
                s.insert(*k, *f, *st);
            }
        }
        s
    };
    let missing = vec![(3, vec![(regions(&["a", "b", "c"]), partial)])];
    assert!(Search::from_parts(Vec::new(), None, missing).is_none());

    // configurations out of order, or repeated
    let twice = vec![(
        3,
        vec![
            (regions(&["a", "b", "c"]), full_stats(3)),
            (regions(&["a", "b", "c"]), full_stats(3)),
        ],
    )];
    assert!(Search::from_parts(Vec::new(), None, twice).is_none());

    // sizes out of order
    let sizes = vec![
        (5, vec![(regions(&["a", "b", "c", "d", "e"]), full_stats(5))]),
        (3, vec![(regions(&["a", "b", "c"]), full_stats(3))]),
    ];
    assert!(Search::from_parts(Vec::new(), None, sizes).is_none());
}

/// The configurations made of the first regions by name improve on FPaxos by
/// two, those made of the last regions by one, the others not at all.
fn two_orders(m: BoteMethod, servers: &Vec<Region>, _clients: &Vec<Region>, _q: usize) -> Stats {
    let n = servers.len();
    let first = servers
        .iter()
        .enumerate()
        .all(|(i, r)| *r.name() == format!("r{:02}", i));
    let last = servers
        .iter()
        .enumerate()
        .all(|(i, r)| *r.name() == format!("r{:02}", 13 - n + i));
    let atlas = 200 - n as u16;
    let improv = if first { 2 } else if last { 1 } else { 0 };
    match m {
        BoteMethod::Leaderless => Stats::new(atlas),
        BoteMethod::BestLatencyLeader => Stats::new(atlas),
        BoteMethod::BestFairnessLeader => Stats::new(atlas + improv),
    }
}

#[test]
fn sorted_evolving_configs_highest_first_and_capped() {
    let search = Search::new(3, 13, SearchInput::R20, thirteen_regions(), &two_orders);
    let p = RankingParams::new(1, 0, 2, 3, 13, RankingMetric::Latency, RankingFT::F1);
    let evolving = search.sorted_evolving_configs(&p, 10);
    assert_eq!(evolving.len(), 2);
    assert_eq!(evolving[0].0, 12);
    // the last step, all 13 regions, is also made of the first regions
    assert_eq!(evolving[1].0, 1 + 1 + 1 + 1 + 1 + 2);
    for (k, cs) in evolving[1].1.iter().enumerate() {
        let n = 3 + 2 * k;
        let expected: Vec<String> = (13 - n..13).map(|i| format!("r{:02}", i)).collect();
        assert_eq!(names(&cs.0), expected);
    }
    let best = search.sorted_evolving_configs(&p, 1);
    assert_eq!(best.len(), 1);
    assert_eq!(best[0].0, 12);
    assert_eq!(names(&best[0].1[0].0), vec!["r00", "r01", "r02"]);
}

#[test]
fn evolving_steps_extend_each_other() {
    let search = Search::new(3, 13, SearchInput::R20, thirteen_regions(), &two_orders);
    let p = RankingParams::new(1, 0, 2, 3, 13, RankingMetric::Latency, RankingFT::F1);
    for (score, css) in search.sorted_evolving_configs(&p, 10) {
        let mut sum = 0;
        for k in 0..css.len() {
            let (config, stats) = css[k];
            assert_eq!(config.len(), 3 + 2 * k);
            let improv = stats.get(StatsKey::FFPaxos, 1).mean_improv(&stats.get(StatsKey::Atlas, 1));
            assert!(improv >= p.min_lat_improv);
            sum += improv;
            if k > 0 {
                let (prev, prev_stats) = css[k - 1];
                assert!(fantoch::region::is_superset(config, prev));
                let decrease = prev_stats.get(StatsKey::Atlas, 1).mean_improv(&stats.get(StatsKey::Atlas, 1));
                assert!(decrease >= p.min_lat_decrease);
            }
        }
        assert_eq!(score, sum);
    }
}

#[test]
fn sorted_configs_are_top_and_descending() {
    let regions8: Vec<Region> = ["h", "gg", "fff", "e", "dd", "ccc", "b", "aa"]
        .iter()
        .map(|n| Region::new(n))
        .collect();
    let search = Search::new(3, 7, SearchInput::R20, regions8, &by_name_len);
    let p = params(3, 7, RankingFT::F1F2);
    let k = 5;
    let sorted = search.sorted_configs(&p, k);
    assert_eq!(sorted.keys().copied().collect::<Vec<_>>(), vec![3, 5, 7]);
    for (n, top) in &sorted {
        assert!(top.len() <= k);
        let level = &search.configs_by_size().iter().find(|(m, _)| m == n).unwrap().1;
        // every score is the configuration's own
        let score_of = |stats: &AllStats| -> isize {
            let fs = p.ranking_ft.fs(*n);
            fs.iter()
                .map(|f| stats.get(StatsKey::FFPaxos, *f).mean_improv(&stats.get(StatsKey::Atlas, *f)))
                .sum()
        };
        for (score, (_, stats)) in top.iter().map(|(s, cs)| (*s, *cs)).map(|(s, cs)| (s, (&cs.0, &cs.1))) {
            assert_eq!(score, score_of(stats));
        }
        // highest first, ties broken by the greater configuration
        for w in top.windows(2) {
            assert!(w[0].0 > w[1].0 || (w[0].0 == w[1].0 && w[0].1 .0 > w[1].1 .0));
        }
        // nothing left out ranks above the last one kept
        let last = top.last().unwrap();
        for (config, stats) in level.iter() {
            if !top.iter().any(|(_, cs)| cs.0 == *config) {
                let s = score_of(stats);
                assert!(s < last.0 || (s == last.0 && *config < last.1 .0));
            }
        }
    }
}

#[test]
fn asking_for_more_configs_only_appends() {
    let search = Search::new(3, 5, SearchInput::R20, five_regions(), &by_name_len);
    let p = params(3, 5, RankingFT::F1);
    let few = search.sorted_configs(&p, 2);
    let many = search.sorted_configs(&p, 7);
    for (n, top) in &few {
        let longer = &many[n];
        assert!(top.len() <= longer.len());
        for (i, (score, cs)) in top.iter().enumerate() {
            assert_eq!(*score, longer[i].0);
            assert_eq!(names(&cs.0), names(&longer[i].1 .0));
        }
    }
    assert_eq!(few[&3].len(), 2);
    assert_eq!(many[&3].len(), 7);
}

#[test]
fn file_names_tell_searches_apart() {
    let inputs = [SearchInput::R20, SearchInput::R20C20, SearchInput::R17C17];
    let mut seen = Vec::new();
    for min_n in [1usize, 3, 11, 13] {
        for max_n in [1usize, 3, 13, 113] {
            for input in inputs {
                seen.push(Search::filename(min_n, max_n, &input));
            }
        }
    }
    let total = seen.len();
    seen.sort();
    seen.dedup();
    assert_eq!(seen.len(), total);
}

#[test]
fn regions_of_2018_ignore_the_planet() {
    let a = Search::new(17, 17, SearchInput::R17C17, Vec::new(), &by_name_len);
    let b = Search::new(17, 17, SearchInput::R17C17, five_regions(), &by_name_len);
    assert_eq!(names(a.regions()), names(b.regions()));
    assert_eq!(names(a.clients().as_ref().unwrap()), names(b.clients().as_ref().unwrap()));
    let c = Search::new(3, 3, SearchInput::R20, five_regions(), &by_name_len);
    let d = Search::new(3, 3, SearchInput::R20C20, five_regions(), &by_name_len);
    assert_eq!(names(c.regions()), names(d.regions()));
}
