use vstd::prelude::*;
use std::collections::BTreeMap;
use crate::region::{compare_configs, config_lt, is_superset, lemma_config_order, names, sort_regions, strictly_increasing, superset_of, Region};
use crate::combination::{all_index_subsets, combinations, enumerable, factorial, falling_factorial, index_order, index_subset};
use crate::order::{char_order, lemma_lex_strict_total, lemma_sorted_from_neighbours, lemma_sorted_unique_by, lemma_text_order, lemma_text_order_strict_total, lemma_usize_keys_ordered, lex_lt, lex_lt_at, text_order, text_lt, Precedence};
use vstd::relations::strict_total_ordering;
use crate::stats::{quorum_size_spec, stats_text, AllStats, BoteMethod, Protocol, Stats, StatsKey};
use crate::text::{decimal, push_decimal};
use vstd::string::*;

pub mod evolving;
pub mod laws;
pub mod stored;

use self::stored::{level_sorted, stored_wf};

verus! {

/// The largest number of faults considered for `n` processes: a minority, at most two.
pub open spec fn max_f_spec(n: nat) -> nat {
    if n / 2 < 2 {
        n / 2
    } else {
        2
    }
}

/// The keys under which the statistics of a configuration of `n` processes are stored.
pub open spec fn stats_key_present(n: nat, k: (StatsKey, usize)) -> bool {
    if k.0 == StatsKey::EPaxos {
        k.1 == 0
    } else {
        1 <= k.1 <= max_f_spec(n)
    }
}

/// How the statistics stored under a key are computed.
pub open spec fn key_method(k: StatsKey) -> BoteMethod {
    match k {
        StatsKey::Atlas => BoteMethod::Leaderless,
        StatsKey::LFPaxos => BoteMethod::BestLatencyLeader,
        StatsKey::FFPaxos => BoteMethod::BestFairnessLeader,
        StatsKey::EPaxos => BoteMethod::Leaderless,
    }
}

/// The protocol whose quorums the statistics stored under a key are computed with.
pub open spec fn key_protocol(k: StatsKey) -> Protocol {
    match k {
        StatsKey::Atlas => Protocol::Atlas,
        StatsKey::LFPaxos => Protocol::FPaxos,
        StatsKey::FFPaxos => Protocol::FPaxos,
        StatsKey::EPaxos => Protocol::EPaxos,
    }
}

/// The statistics of a configuration: for every key, what `bote` gives for the
/// key's method, the servers and clients, and the key's quorum size.
pub open spec fn stats_of<F: Fn(BoteMethod, &Vec<Region>, &Vec<Region>, usize) -> Stats>(
    bote: F,
    config: Vec<Region>,
    clients: Vec<Region>,
    stats: Map<(StatsKey, usize), Stats>,
) -> bool {
    let n = config.len() as nat;
    &&& forall|k: (StatsKey, usize)| #[trigger] stats.contains_key(k) <==> stats_key_present(n, k)
    &&& forall|k: (StatsKey, usize)|
        #[trigger] stats.contains_key(k) ==> bote.ensures(
            (
                key_method(k.0),
                &config,
                &clients,
                quorum_size_spec(key_protocol(k.0), n, k.1 as nat) as usize,
            ),
            stats[k],
        )
}

/// Identifies which regions are considered for the search.
#[derive(Debug, Clone, Copy, PartialEq, Eq, Hash, Structural)]
pub enum SearchInput {
    /// search within the 20 regions, clients colocated with servers
    R20,
    /// search within the 20 regions, clients deployed in the 20 regions
    R20C20,
    /// search within 2018 17 regions, clients deployed in the 17 regions
    R17C17,
}

/// What's considered when ranking configurations.
#[derive(Debug, Clone, Copy, PartialEq, Eq, Hash, Structural)]
pub enum RankingMetric {
    Latency,
    Fairness,
    LatencyAndFairness,
}

/// Fault tolerance considered when ranking configurations.
#[derive(Debug, Clone, Copy, PartialEq, Eq, Hash, Structural)]
pub enum RankingFT {
    F1,
    F1F2,
}

/// The largest number of faults a fault tolerance considers for `n` processes.
pub open spec fn fs_max(ft: RankingFT, n: nat) -> nat {
    let minority = n / 2;
    let max_f: nat = match ft {
        RankingFT::F1 => 1,
        RankingFT::F1F2 => 2,
    };
    if minority < max_f {
        minority
    } else {
        max_f
    }
}

impl RankingFT {
    /// The numbers of faults considered for `n` processes: `1..=fs_max`.
    pub fn fs(&self, n: usize) -> (fs: Vec<usize>)
        ensures
            fs@.len() == fs_max(*self, n as nat),
            forall|i: int| 0 <= i < fs@.len() ==> fs@[i] == i + 1,
    {
        let minority = n / 2;
        let max_f: usize = match self {
            RankingFT::F1 => 1,
            RankingFT::F1F2 => 2,
        };
        let top = if minority < max_f {
            minority
        } else {
            max_f
        };
        let mut fs: Vec<usize> = Vec::new();
        let mut f: usize = 1;
        while f <= top
            invariant
                top == fs_max(*self, n as nat),
                1 <= f <= top + 1,
                fs@.len() == f - 1,
                forall|i: int| 0 <= i < fs@.len() ==> fs@[i] == i + 1,
            decreases top + 1 - f,
        {
            fs.push(f);
            f = f + 1;
        }
        fs
    }
}

/// The numbers of faults a ranking considers are among those whose statistics
/// are computed: at most a minority and at most two; all of them when ranking
/// with one and two faults.
pub proof fn lemma_faults_considered(ft: RankingFT, n: nat)
    ensures
        fs_max(ft, n) <= max_f_spec(n),
        fs_max(ft, n) <= n / 2,
        ft == RankingFT::F1F2 ==> fs_max(ft, n) == max_f_spec(n),
        ft == RankingFT::F1 ==> fs_max(ft, n) == (if n >= 2 { 1nat } else { 0nat }),
{
}

/// The parameters of a ranking of configurations.
pub struct RankingParams {
    pub min_lat_improv: isize,
    pub min_fair_improv: isize,
    pub min_lat_decrease: isize,
    pub min_n: usize,
    pub max_n: usize,
    pub ranking_metric: RankingMetric,
    pub ranking_ft: RankingFT,
}

impl RankingParams {
    pub fn new(
        min_lat_improv: isize,
        min_fair_improv: isize,
        min_lat_decrease: isize,
        min_n: usize,
        max_n: usize,
        ranking_metric: RankingMetric,
        ranking_ft: RankingFT,
    ) -> (p: Self)
        ensures
            p.min_lat_improv == min_lat_improv,
            p.min_fair_improv == min_fair_improv,
            p.min_lat_decrease == min_lat_decrease,
            p.min_n == min_n,
            p.max_n == max_n,
            p.ranking_metric == ranking_metric,
            p.ranking_ft == ranking_ft,
    {
        RankingParams {
            min_lat_improv,
            min_fair_improv,
            min_lat_decrease,
            min_n,
            max_n,
            ranking_metric,
            ranking_ft,
        }
    }
}

/// How much lower Atlas' mean latency is than that of FPaxos with the fairest
/// leader, with `f` tolerated faults.
pub open spec fn lat_improv_spec(stats: Map<(StatsKey, usize), Stats>, f: nat) -> int {
    stats[(StatsKey::FFPaxos, f as usize)].mean - stats[(StatsKey::Atlas, f as usize)].mean
}

/// What one number of tolerated faults adds to a configuration's score.
pub open spec fn metric_score(metric: RankingMetric, lat_improv: int) -> int {
    match metric {
        RankingMetric::Latency => lat_improv,
        RankingMetric::Fairness => 0,
        RankingMetric::LatencyAndFairness => lat_improv,
    }
}

/// The score of a configuration over the faults `1..=m`.
pub open spec fn score_upto(stats: Map<(StatsKey, usize), Stats>, metric: RankingMetric, m: nat) -> int
    decreases m,
{
    if m == 0 {
        0
    } else {
        score_upto(stats, metric, (m - 1) as nat) + metric_score(metric, lat_improv_spec(stats, m))
    }
}

/// A configuration is valid when Atlas improves on FPaxos by at least the
/// minimum for every number of faults considered.
pub open spec fn valid_upto(stats: Map<(StatsKey, usize), Stats>, min_lat_improv: int, m: nat) -> bool {
    forall|f: nat| 1 <= f <= m ==> #[trigger] lat_improv_spec(stats, f) >= min_lat_improv
}

/// The statistics that scoring reads for `m` numbers of faults are there.
pub open spec fn scorable(stats: Map<(StatsKey, usize), Stats>, m: nat) -> bool {
    &&& forall|f: usize| 1 <= f <= m ==> #[trigger] stats.contains_key((StatsKey::Atlas, f))
    &&& forall|f: usize| 1 <= f <= m ==> #[trigger] stats.contains_key((StatsKey::LFPaxos, f))
    &&& forall|f: usize| 1 <= f <= m ==> #[trigger] stats.contains_key((StatsKey::FFPaxos, f))
    &&& m >= 1 ==> stats.contains_key((StatsKey::EPaxos, 0usize))
}

/// The validity and score of a configuration of `n` processes.
pub open spec fn score_spec(n: nat, stats: Map<(StatsKey, usize), Stats>, params: RankingParams) -> (bool, int) {
    let m = fs_max(params.ranking_ft, n);
    (valid_upto(stats, params.min_lat_improv as int, m), score_upto(stats, params.ranking_metric, m))
}

/// Ranking by fairness scores every configuration zero, and ranking by latency
/// and fairness scores as ranking by latency does.
pub proof fn lemma_fairness_scores_zero(stats: Map<(StatsKey, usize), Stats>, m: nat)
    ensures
        score_upto(stats, RankingMetric::Fairness, m) == 0,
        score_upto(stats, RankingMetric::LatencyAndFairness, m) == score_upto(
            stats,
            RankingMetric::Latency,
            m,
        ),
    decreases m,
{
    if m > 0 {
        lemma_fairness_scores_zero(stats, (m - 1) as nat);
    }
}

proof fn lemma_score_bound(stats: Map<(StatsKey, usize), Stats>, metric: RankingMetric, m: nat)
    ensures
        -65535 * m <= score_upto(stats, metric, m) <= 65535 * m,
    decreases m,
{
    if m > 0 {
        lemma_score_bound(stats, metric, (m - 1) as nat);
    }
}

/// A configuration, its regions in increasing order, and its statistics.
pub type ConfigAndStats = (Vec<Region>, AllStats);

/// A configuration of `n` regions, in increasing order, with all its statistics.
pub open spec fn config_wf(n: usize, cs: ConfigAndStats) -> bool {
    &&& cs.0.len() == n
    &&& strictly_increasing(names(cs.0@))
    &&& forall|k: (StatsKey, usize)|
        stats_key_present(n as nat, k) ==> #[trigger] cs.1@.contains_key(k)
}

/// The configurations of `n` regions: well formed and pairwise distinct.
pub open spec fn level_wf(n: usize, css: Seq<ConfigAndStats>) -> bool {
    &&& css.len() <= usize::MAX
    &&& forall|c: int| 0 <= c < css.len() ==> config_wf(n, #[trigger] css[c])
    &&& forall|c: int, d: int|
        0 <= c < css.len() && 0 <= d < css.len() && c != d ==> names(#[trigger] css[c].0@)
            != names(#[trigger] css[d].0@)
}

/// All configurations, by number of regions, in increasing order of that number.
pub open spec fn configs_wf(all: Seq<(usize, Vec<ConfigAndStats>)>) -> bool {
    &&& forall|i: int, j: int| 0 <= i < j < all.len() ==> all[i].0 < all[j].0
    &&& forall|i: int| 0 <= i < all.len() ==> level_wf(#[trigger] all[i].0, all[i].1@)
}

/// `n` is among the numbers of regions that `params` ranks.
pub open spec fn in_range(n: usize, params: RankingParams) -> bool {
    params.min_n <= n <= params.max_n
}

/// The configurations of `css` that the ranking keeps, in their order: each
/// valid one, with its score and its position in `css`.
pub open spec fn ranked_list(css: Seq<ConfigAndStats>, n: usize, params: RankingParams) -> Seq<(isize, usize)>
    decreases css.len(),
{
    if css.len() == 0 {
        seq![]
    } else {
        let prev = ranked_list(css.drop_last(), n, params);
        let r = score_spec(n as nat, css.last().1@, params);
        if r.0 {
            prev.push((r.1 as isize, (css.len() - 1) as usize))
        } else {
            prev
        }
    }
}

/// A score is within what one configuration can reach.
proof fn lemma_score_in_range(n: usize, stats: Map<(StatsKey, usize), Stats>, params: RankingParams)
    ensures
        -131070 <= score_spec(n as nat, stats, params).1 <= 131070,
{
    let m = fs_max(params.ranking_ft, n as nat);
    lemma_score_bound(stats, params.ranking_metric, m);
    assert(m <= 2);
    let s = score_upto(stats, params.ranking_metric, m);
    assert(-131070 <= s <= 131070) by (nonlinear_arith)
        requires
            -65535 * m <= s <= 65535 * m,
            m <= 2,
    ;
}

/// The entries of a ranked list: positions within `css`, in increasing order,
/// and scores within what one configuration can reach.
proof fn lemma_ranked_list_positions(css: Seq<ConfigAndStats>, n: usize, params: RankingParams)
    requires
        css.len() <= usize::MAX,
    ensures
        ranked_list(css, n, params).len() <= css.len(),
        forall|q: int|
            0 <= q < ranked_list(css, n, params).len() ==> (#[trigger] ranked_list(css, n, params)[q]).1
                < css.len(),
        forall|q: int|
            0 <= q < ranked_list(css, n, params).len() ==> -131070 <= (#[trigger] ranked_list(
                css,
                n,
                params,
            )[q]).0 <= 131070,
        forall|a: int, b: int|
            0 <= a < b < ranked_list(css, n, params).len() ==> ranked_list(css, n, params)[a].1
                < ranked_list(css, n, params)[b].1,
        ranked_list(css, n, params).no_duplicates(),
    decreases css.len(),
{
    let rl = ranked_list(css, n, params);
    if css.len() > 0 {
        let d = css.drop_last();
        lemma_ranked_list_positions(d, n, params);
        let prev = ranked_list(d, n, params);
        let r = score_spec(n as nat, css.last().1@, params);
        lemma_score_in_range(n, css.last().1@, params);
        if r.0 {
            assert(rl == prev.push((r.1 as isize, (css.len() - 1) as usize)));
            assert forall|q: int| 0 <= q < rl.len() implies (#[trigger] rl[q]).1 < css.len() && -131070
                <= rl[q].0 <= 131070 by {
                if q < prev.len() {
                    assert(rl[q] == prev[q]);
                }
            }
            assert forall|a: int, b: int| 0 <= a < b < rl.len() implies rl[a].1 < rl[b].1 by {
                assert(rl[a] == prev[a]);
                if b < prev.len() {
                    assert(rl[b] == prev[b]);
                }
            }
        } else {
            assert(rl == prev);
        }
        assert forall|a: int, b: int| 0 <= a < rl.len() && 0 <= b < rl.len() && a != b implies rl[a]
            != rl[b] by {
            if a < b {
                assert(rl[a].1 < rl[b].1);
            } else {
                assert(rl[b].1 < rl[a].1);
            }
        }
    }
}

/// The ranking keeps exactly the valid configurations, in their order, each
/// with its score and its position.
pub proof fn lemma_ranked_entries(css: Seq<ConfigAndStats>, n: usize, params: RankingParams)
    requires
        css.len() <= usize::MAX,
    ensures
        forall|q: int|
            0 <= q < ranked_list(css, n, params).len() ==> {
                let e = #[trigger] ranked_list(css, n, params)[q];
                &&& e.1 < css.len()
                &&& score_spec(n as nat, css[e.1 as int].1@, params).0
                &&& score_spec(n as nat, css[e.1 as int].1@, params).1 == e.0
            },
        forall|c: int|
            0 <= c < css.len() && (#[trigger] score_spec(n as nat, css[c].1@, params)).0 ==> exists|q: int|
                0 <= q < ranked_list(css, n, params).len() && ranked_list(css, n, params)[q].1 == c,
    decreases css.len(),
{
    let rl = ranked_list(css, n, params);
    if css.len() > 0 {
        let d = css.drop_last();
        lemma_ranked_entries(d, n, params);
        let prev = ranked_list(d, n, params);
        let r = score_spec(n as nat, css.last().1@, params);
        lemma_score_in_range(n, css.last().1@, params);
        let last = (css.len() - 1) as int;
        assert(css.last() == css[last]);
        if r.0 {
            assert(rl == prev.push((r.1 as isize, (css.len() - 1) as usize)));
        } else {
            assert(rl == prev);
        }
        assert forall|q: int| 0 <= q < rl.len() implies {
            let e = #[trigger] rl[q];
            &&& e.1 < css.len()
            &&& score_spec(n as nat, css[e.1 as int].1@, params).0
            &&& score_spec(n as nat, css[e.1 as int].1@, params).1 == e.0
        } by {
            if q < prev.len() {
                assert(rl[q] == prev[q]);
                let e = prev[q];
                assert(score_spec(n as nat, d[e.1 as int].1@, params).0);
                assert(css[e.1 as int] == d[e.1 as int]);
            }
        }
        assert forall|c: int|
            0 <= c < css.len() && (#[trigger] score_spec(n as nat, css[c].1@, params)).0 implies exists|q: int|
                0 <= q < rl.len() && rl[q].1 == c by {
            if c < last {
                assert(css[c] == d[c]);
                assert(score_spec(n as nat, d[c].1@, params).0);
                let q = choose|q: int| 0 <= q < prev.len() && prev[q].1 == c;
                assert(rl[q] == prev[q]);
            } else {
                assert(rl[prev.len() as int].1 == c);
            }
        }
    }
}

/// In a ranking, `a` comes below `b`: a lower score, or the same score and a
/// configuration that comes first.
pub open spec fn ranked_before(css: Seq<ConfigAndStats>, a: (isize, usize), b: (isize, usize)) -> bool {
    a.0 < b.0 || (a.0 == b.0 && config_lt(names(css[a.1 as int].0@), names(css[b.1 as int].0@)))
}

/// Highest ranked first.
pub open spec fn descending(css: Seq<ConfigAndStats>, s: Seq<(isize, usize)>) -> bool {
    forall|i: int, j: int| 0 <= i < j < s.len() ==> ranked_before(css, s[j], s[i])
}

/// `r` holds the `k` highest ranked entries of `from`, highest first.
pub open spec fn is_top(
    r: Seq<(isize, usize)>,
    from: Seq<(isize, usize)>,
    css: Seq<ConfigAndStats>,
    k: nat,
) -> bool {
    &&& r.len() == (if k < from.len() {
        k
    } else {
        from.len()
    })
    &&& descending(css, r)
    &&& forall|i: int| 0 <= i < r.len() ==> from.contains(#[trigger] r[i])
    &&& forall|x: (isize, usize)|
        from.contains(x) && !r.contains(x) ==> forall|i: int|
            0 <= i < r.len() ==> ranked_before(css, x, #[trigger] r[i])
}

/// `v` refers to the entries of `s`, each by its position in `css`.
pub open spec fn refers<'a>(
    v: Seq<(isize, &'a ConfigAndStats)>,
    s: Seq<(isize, usize)>,
    css: Seq<ConfigAndStats>,
) -> bool {
    &&& v.len() == s.len()
    &&& forall|i: int|
        0 <= i < v.len() ==> {
            &&& (#[trigger] v[i]).0 == s[i].0
            &&& s[i].1 < css.len()
            &&& *v[i].1 == css[s[i].1 as int]
        }
}

proof fn lemma_ranked_before_order(n: usize, css: Seq<ConfigAndStats>)
    requires
        level_wf(n, css),
    ensures
        forall|x: (isize, usize)| !#[trigger] ranked_before(css, x, x),
        forall|x: (isize, usize), y: (isize, usize), z: (isize, usize)|
            #[trigger] ranked_before(css, x, y) && #[trigger] ranked_before(css, y, z)
                ==> ranked_before(css, x, z),
        forall|x: (isize, usize), y: (isize, usize)|
            x != y && x.1 < css.len() && y.1 < css.len() ==> #[trigger] ranked_before(css, x, y)
                || #[trigger] ranked_before(css, y, x),
{
    lemma_config_order();
    assert forall|x: (isize, usize), y: (isize, usize)|
        x != y && x.1 < css.len() && y.1 < css.len() implies #[trigger] ranked_before(css, x, y)
        || #[trigger] ranked_before(css, y, x) by {
        if x.0 == y.0 {
            assert(x.1 != y.1);
            assert(names(css[x.1 as int].0@) != names(css[y.1 as int].0@));
        }
    }
}

/// `s`, cut to its first `k` entries.
pub open spec fn capped(s: Seq<(isize, usize)>, k: nat) -> Seq<(isize, usize)> {
    if k < s.len() {
        s.subrange(0, k as int)
    } else {
        s
    }
}

/// While `r` holds fewer than `k` entries, it holds every entry of `from`.
pub open spec fn holds_all_below(r: Seq<(isize, usize)>, from: Seq<(isize, usize)>, k: nat) -> bool {
    r.len() < k ==> forall|y: (isize, usize)| from.contains(y) ==> r.contains(y)
}

/// Adding the next entry of `list` to the top entries of the ones before it:
/// inserted where it ranks, when that is among the first `k`, and cut to `k`.
proof fn lemma_top_insert(
    css: Seq<ConfigAndStats>,
    n: usize,
    list: Seq<(isize, usize)>,
    t: int,
    top: Seq<(isize, usize)>,
    p: int,
    k: nat,
)
    requires
        level_wf(n, css),
        forall|a: int| 0 <= a < list.len() ==> (#[trigger] list[a]).1 < css.len(),
        list.no_duplicates(),
        0 <= t < list.len(),
        is_top(top, list.take(t), css, k),
        holds_all_below(top, list.take(t), k),
        0 <= p <= top.len(),
        forall|q: int| 0 <= q < p ==> !ranked_before(css, #[trigger] top[q], list[t]),
        p < top.len() ==> ranked_before(css, top[p], list[t]),
    ensures
        p < k ==> is_top(capped(top.insert(p, list[t]), k), list.take(t + 1), css, k) && holds_all_below(
            capped(top.insert(p, list[t]), k),
            list.take(t + 1),
            k,
        ),
        p >= k ==> is_top(top, list.take(t + 1), css, k) && holds_all_below(top, list.take(t + 1), k),
{
    lemma_ranked_before_order(n, css);
    let x = list[t];
    let from = list.take(t);
    let from1 = list.take(t + 1);
    assert(from1 == from.push(x));
    assert forall|y: (isize, usize)| from1.contains(y) <==> from.contains(y) || y == x by {
        if from1.contains(y) {
            let a = choose|a: int| 0 <= a < from1.len() && from1[a] == y;
            if a < t {
                assert(from[a] == y);
            }
        }
        if from.contains(y) {
            let a = choose|a: int| 0 <= a < from.len() && from[a] == y;
            assert(from1[a] == y);
        }
        if y == x {
            assert(from1[t] == y);
        }
    }
    assert(!from.contains(x)) by {
        if from.contains(x) {
            let a = choose|a: int| 0 <= a < from.len() && from[a] == x;
            assert(list[a] == list[t]);
        }
    }
    assert forall|y: (isize, usize)| from.contains(y) implies y.1 < css.len() by {
        let a = choose|a: int| 0 <= a < from.len() && from[a] == y;
        assert(list[a] == y);
    }
    assert(x.1 < css.len());
    assert forall|q: int| 0 <= q < top.len() implies (#[trigger] top[q]) != x && top[q].1 < css.len() by {
        assert(from.contains(top[q]));
    }
    // every entry of `top` that does not come after `x` comes before it
    assert forall|q: int| 0 <= q < p implies ranked_before(css, x, #[trigger] top[q]) by {
        assert(!ranked_before(css, top[q], x));
        assert(top[q] != x);
    }
    // every entry of `top` from `p` on comes after `x`
    assert forall|q: int| p <= q < top.len() implies ranked_before(css, #[trigger] top[q], x) by {
        if q > p {
            assert(ranked_before(css, top[q], top[p]));
        }
    }
    if p < k {
        let ins = top.insert(p, x);
        let res = capped(ins, k);
        assert(ins.len() == top.len() + 1);
        assert forall|i: int| 0 <= i < ins.len() implies #[trigger] ins[i] == (if i < p {
            top[i]
        } else if i == p {
            x
        } else {
            top[i - 1]
        }) by {}
        assert(descending(css, ins)) by {
            assert forall|i: int, j: int| 0 <= i < j < ins.len() implies ranked_before(css, ins[j], ins[i]) by {
                if j < p {
                } else if j == p {
                    assert(ranked_before(css, x, top[i]));
                } else if i < p {
                    assert(ranked_before(css, top[j - 1], top[i]));
                } else if i == p {
                    assert(ranked_before(css, top[j - 1], x));
                } else {
                    assert(ranked_before(css, top[j - 1], top[i - 1]));
                }
            }
        }
        assert forall|i: int| 0 <= i < res.len() implies #[trigger] res[i] == ins[i] by {}
        assert(descending(css, res)) by {
            assert forall|i: int, j: int| 0 <= i < j < res.len() implies ranked_before(css, res[j], res[i]) by {
                assert(res[i] == ins[i] && res[j] == ins[j]);
            }
        }
        assert forall|i: int| 0 <= i < res.len() implies from1.contains(#[trigger] res[i]) by {
            assert(res[i] == ins[i]);
            if i < p {
                assert(from.contains(top[i]));
            } else if i > p {
                assert(from.contains(top[i - 1]));
            }
        }
        assert(res.contains(x)) by {
            assert(res[p] == x);
        }
        assert forall|y: (isize, usize)| from1.contains(y) && !res.contains(y) implies forall|i: int|
            0 <= i < res.len() ==> ranked_before(css, y, #[trigger] res[i]) by {
            assert(y != x);
            assert(from.contains(y));
            if top.contains(y) {
                // `y` was cut: it is the last entry of `ins`
                let q = choose|q: int| 0 <= q < top.len() && top[q] == y;
                let qi = if q < p {
                    q
                } else {
                    q + 1
                };
                assert(ins[qi] == y);
                if qi < res.len() {
                    assert(res[qi] == y);
                }
                assert forall|i: int| 0 <= i < res.len() implies ranked_before(css, y, #[trigger] res[i]) by {
                    assert(res[i] == ins[i]);
                    assert(i < qi);
                }
            } else {
                // `y` was left out before, so `top` was full
                assert(top.len() == k);
                assert forall|i: int| 0 <= i < res.len() implies ranked_before(css, y, #[trigger] res[i]) by {
                    assert(res[i] == ins[i]);
                    if i < p {
                    } else if i == p {
                        assert(ranked_before(css, y, top[p]));
                        assert(ranked_before(css, top[p], x));
                    } else {
                        assert(ranked_before(css, y, top[i - 1]));
                    }
                }
            }
        }
        assert(holds_all_below(res, from1, k)) by {
            if res.len() < k {
                assert(res == ins);
                assert(top.len() < k);
                assert forall|y: (isize, usize)| from1.contains(y) implies res.contains(y) by {
                    if y != x {
                        assert(top.contains(y));
                        let q = choose|q: int| 0 <= q < top.len() && top[q] == y;
                        if q < p {
                            assert(ins[q] == y);
                        } else {
                            assert(ins[q + 1] == y);
                        }
                    }
                }
            }
        }
    } else {
        assert(p == top.len());
        assert(top.len() == k);
        assert forall|y: (isize, usize)| from1.contains(y) && !top.contains(y) implies forall|i: int|
            0 <= i < top.len() ==> ranked_before(css, y, #[trigger] top[i]) by {
            if y != x {
                assert(from.contains(y));
            }
        }
        assert forall|i: int| 0 <= i < top.len() implies from1.contains(#[trigger] top[i]) by {
            assert(from.contains(top[i]));
        }
    }
}

/// Whether entry `a` ranks below entry `b`.
fn before_entry(css: &Vec<ConfigAndStats>, a: (isize, usize), b: (isize, usize)) -> (r: bool)
    requires
        a.1 < css.len(),
        b.1 < css.len(),
    ensures
        r == ranked_before(css@, a, b),
{
    if a.0 < b.0 {
        true
    } else if a.0 == b.0 {
        compare_configs(&css[a.1].0, &css[b.1].0) == Precedence::Before
    } else {
        false
    }
}

/// The entries of `list`, highest ranked first, cut to the first `k`.
fn top_configs(css: &Vec<ConfigAndStats>, list: &Vec<(isize, usize)>, k: usize, Ghost(n): Ghost<usize>) -> (top: Vec<
    (isize, usize),
>)
    requires
        level_wf(n, css@),
        forall|a: int| 0 <= a < list.len() ==> (#[trigger] list@[a]).1 < css.len(),
        list@.no_duplicates(),
    ensures
        is_top(top@, list@, css@, k as nat),
{
    let mut top: Vec<(isize, usize)> = Vec::new();
    let mut t: usize = 0;
    proof {
        assert(list@.take(0) =~= Seq::<(isize, usize)>::empty());
    }
    while t < list.len()
        invariant
            level_wf(n, css@),
            forall|a: int| 0 <= a < list.len() ==> (#[trigger] list@[a]).1 < css.len(),
            list@.no_duplicates(),
            t <= list.len(),
            is_top(top@, list@.take(t as int), css@, k as nat),
            holds_all_below(top@, list@.take(t as int), k as nat),
        decreases list.len() - t,
    {
        let x = list[t];
        proof {
            assert forall|q: int| 0 <= q < top.len() implies (#[trigger] top@[q]).1 < css.len() by {
                assert(list@.take(t as int).contains(top@[q]));
                let a = choose|a: int| 0 <= a < t && list@.take(t as int)[a] == top@[q];
                assert(list@[a] == top@[q]);
            }
        }
        // find where `x` ranks among the entries kept so far
        let mut p: usize = 0;
        let mut placed = false;
        while p < top.len() && !placed
            invariant
                forall|q: int| 0 <= q < top.len() ==> (#[trigger] top@[q]).1 < css.len(),
                x.1 < css.len(),
                p <= top.len(),
                forall|q: int| 0 <= q < p ==> !ranked_before(css@, #[trigger] top@[q], x),
                placed ==> p < top.len() && ranked_before(css@, top@[p as int], x),
            decreases top.len() - p + (if placed {
                0int
            } else {
                1int
            }),
        {
            if before_entry(css, top[p], x) {
                placed = true;
            } else {
                p = p + 1;
            }
        }
        proof {
            lemma_top_insert(css@, n, list@, t as int, top@, p as int, k as nat);
        }
        let ghost before = top@;
        if p < k {
            top.insert(p, x);
            top.truncate(k);
            proof {
                assert(top@ =~= capped(before.insert(p as int, x), k as nat));
            }
        }
        t = t + 1;
    }
    proof {
        assert(list@.take(list.len() as int) =~= list@);
    }
    top
}

/// The name of a search input, as `Display` shows it.
pub open spec fn search_input_name(i: SearchInput) -> Seq<char> {
    match i {
        SearchInput::R20 => "R20"@,
        SearchInput::R20C20 => "R20C20"@,
        SearchInput::R17C17 => "R17C17"@,
    }
}

impl SearchInput {
    /// The name of this search input, as `Display` shows it.
    pub fn to_string(&self) -> (s: String)
        ensures
            s@ == search_input_name(*self),
    {
        match self {
            SearchInput::R20 => String::from_str("R20"),
            SearchInput::R20C20 => String::from_str("R20C20"),
            SearchInput::R17C17 => String::from_str("R17C17"),
        }
    }
}

/// The names of the 17 regions of the end of 2018, in increasing order.
pub open spec fn regions17_names() -> Seq<Seq<char>> {
    seq![
        "asia-east1"@,
        "asia-northeast1"@,
        "asia-south1"@,
        "asia-southeast1"@,
        "australia-southeast1"@,
        "europe-north1"@,
        "europe-west1"@,
        "europe-west2"@,
        "europe-west3"@,
        "europe-west4"@,
        "northamerica-northeast1"@,
        "southamerica-east1"@,
        "us-central1"@,
        "us-east1"@,
        "us-east4"@,
        "us-west1"@,
        "us-west2"@
    ]
}

/// `sorted` holds the regions of `from`, by increasing name.
pub open spec fn sorted_regions_of(sorted: Seq<Region>, from: Seq<Region>) -> bool {
    &&& sorted.len() == from.len()
    &&& strictly_increasing(names(sorted))
    &&& forall|x: Seq<char>| names(sorted).contains(x) <==> names(from).contains(x)
}

/// The regions of a search, and its clients, for the regions of a planet.
pub open spec fn search_inputs_spec(
    input: SearchInput,
    planet_regions: Seq<Region>,
    regions: Seq<Region>,
    clients: Option<Vec<Region>>,
) -> bool {
    match input {
        SearchInput::R20 => sorted_regions_of(regions, planet_regions) && clients is None,
        SearchInput::R20C20 => sorted_regions_of(regions, planet_regions) && (clients matches Some(
            c,
        ) && c@ == regions),
        SearchInput::R17C17 => names(regions) == regions17_names() && (clients matches Some(c)
            && c@ == regions),
    }
}

/// The file name under which a search of the sizes `min_n..=max_n` among the
/// regions of `input` is saved.
pub open spec fn file_name(min_n: usize, max_n: usize, input: SearchInput) -> Seq<char> {
    decimal(min_n as nat) + "_"@ + decimal(max_n as nat) + "_"@ + search_input_name(input) + ".data"@
}

/// How many regions a search chooses among.
pub open spec fn search_len(input: SearchInput, planet_len: nat) -> nat {
    match input {
        SearchInput::R17C17 => 17,
        _ => planet_len,
    }
}

/// The 17 regions of the end of 2018 are listed by increasing name.
#[verifier::spinoff_prover]
proof fn lemma_regions17_sorted()
    ensures
        strictly_increasing(regions17_names()),
        regions17_names().no_duplicates(),
{
    let s = regions17_names();
    lemma_text_order_strict_total();
    assert forall|i: int| 0 <= i < s.len() - 1 implies text_order()(#[trigger] s[i], s[i + 1]) by {
        if i == 0 {
            assert(lex_lt_at(s[0], s[1], char_order(), 5)) by {
                reveal_strlit("asia-east1");
                reveal_strlit("asia-northeast1");
            }
        }
        if i == 1 {
            assert(lex_lt_at(s[1], s[2], char_order(), 5)) by {
                reveal_strlit("asia-northeast1");
                reveal_strlit("asia-south1");
            }
        }
        if i == 2 {
            assert(lex_lt_at(s[2], s[3], char_order(), 10)) by {
                reveal_strlit("asia-south1");
                reveal_strlit("asia-southeast1");
            }
        }
        if i == 3 {
            assert(lex_lt_at(s[3], s[4], char_order(), 1)) by {
                reveal_strlit("asia-southeast1");
                reveal_strlit("australia-southeast1");
            }
        }
        if i == 4 {
            assert(lex_lt_at(s[4], s[5], char_order(), 0)) by {
                reveal_strlit("australia-southeast1");
                reveal_strlit("europe-north1");
            }
        }
        if i == 5 {
            assert(lex_lt_at(s[5], s[6], char_order(), 7)) by {
                reveal_strlit("europe-north1");
                reveal_strlit("europe-west1");
            }
        }
        if i == 6 {
            assert(lex_lt_at(s[6], s[7], char_order(), 11)) by {
                reveal_strlit("europe-west1");
                reveal_strlit("europe-west2");
            }
        }
        if i == 7 {
            assert(lex_lt_at(s[7], s[8], char_order(), 11)) by {
                reveal_strlit("europe-west2");
                reveal_strlit("europe-west3");
            }
        }
        if i == 8 {
            assert(lex_lt_at(s[8], s[9], char_order(), 11)) by {
                reveal_strlit("europe-west3");
                reveal_strlit("europe-west4");
            }
        }
        if i == 9 {
            assert(lex_lt_at(s[9], s[10], char_order(), 0)) by {
                reveal_strlit("europe-west4");
                reveal_strlit("northamerica-northeast1");
            }
        }
        if i == 10 {
            assert(lex_lt_at(s[10], s[11], char_order(), 0)) by {
                reveal_strlit("northamerica-northeast1");
                reveal_strlit("southamerica-east1");
            }
        }
        if i == 11 {
            assert(lex_lt_at(s[11], s[12], char_order(), 0)) by {
                reveal_strlit("southamerica-east1");
                reveal_strlit("us-central1");
            }
        }
        if i == 12 {
            assert(lex_lt_at(s[12], s[13], char_order(), 3)) by {
                reveal_strlit("us-central1");
                reveal_strlit("us-east1");
            }
        }
        if i == 13 {
            assert(lex_lt_at(s[13], s[14], char_order(), 7)) by {
                reveal_strlit("us-east1");
                reveal_strlit("us-east4");
            }
        }
        if i == 14 {
            assert(lex_lt_at(s[14], s[15], char_order(), 3)) by {
                reveal_strlit("us-east4");
                reveal_strlit("us-west1");
            }
        }
        if i == 15 {
            assert(lex_lt_at(s[15], s[16], char_order(), 7)) by {
                reveal_strlit("us-west1");
                reveal_strlit("us-west2");
            }
        }
    }
    lemma_sorted_from_neighbours(s, text_order());
    assert forall|i: int, j: int| 0 <= i < j < s.len() implies text_lt(s[i], s[j]) by {
        assert(text_order()(s[i], s[j]));
    }
    assert forall|i: int, j: int| 0 <= i < s.len() && 0 <= j < s.len() && i != j implies s[i] != s[j] by {
        if i < j {
            assert(text_order()(s[i], s[j]));
        } else {
            assert(text_order()(s[j], s[i]));
        }
    }
}

fn regions17() -> (r: Vec<Region>)
    ensures
        names(r@) == regions17_names(),
        names(r@).no_duplicates(),
        strictly_increasing(names(r@)),
{
    let r = vec![
            Region::new("asia-east1"),
            Region::new("asia-northeast1"),
            Region::new("asia-south1"),
            Region::new("asia-southeast1"),
            Region::new("australia-southeast1"),
            Region::new("europe-north1"),
            Region::new("europe-west1"),
            Region::new("europe-west2"),
            Region::new("europe-west3"),
            Region::new("europe-west4"),
            Region::new("northamerica-northeast1"),
            Region::new("southamerica-east1"),
            Region::new("us-central1"),
            Region::new("us-east1"),
            Region::new("us-east4"),
            Region::new("us-west1"),
            Region::new("us-west2"),
    ];
    proof {
        assert(names(r@) =~= regions17_names());
        lemma_regions17_sorted();
    }
    r
}

/// What `stats_fmt` shows of one number of tolerated faults `f`: Atlas and
/// FPaxos with the fairest leader, then, when asked, FPaxos with the fastest leader.
pub open spec fn fmt_part(stats: Map<(StatsKey, usize), Stats>, f: nat, include_lfpaxos: bool) -> Seq<
    char,
> {
    if include_lfpaxos {
        fmt_fair(stats, f) + fmt_fast(stats, f)
    } else {
        fmt_fair(stats, f)
    }
}

/// What `stats_fmt` shows of Atlas and FPaxos with the fairest leader, with `f` faults.
pub open spec fn fmt_fair(stats: Map<(StatsKey, usize), Stats>, f: nat) -> Seq<char> {
    "a"@ + decimal(f) + "="@ + stats_text(stats[(StatsKey::Atlas, f as usize)]) + " ff"@ + decimal(f)
        + "="@ + stats_text(stats[(StatsKey::FFPaxos, f as usize)]) + " "@
}

/// What `stats_fmt` shows of FPaxos with the fastest leader, with `f` faults.
pub open spec fn fmt_fast(stats: Map<(StatsKey, usize), Stats>, f: nat) -> Seq<char> {
    "lf"@ + decimal(f) + "="@ + stats_text(stats[(StatsKey::LFPaxos, f as usize)]) + " "@
}

/// What `stats_fmt` shows of the faults `1..=m`.
pub open spec fn fmt_parts(stats: Map<(StatsKey, usize), Stats>, m: nat, include_lfpaxos: bool) -> Seq<
    char,
>
    decreases m,
{
    if m == 0 {
        seq![]
    } else {
        fmt_parts(stats, (m - 1) as nat, include_lfpaxos) + fmt_part(stats, m, include_lfpaxos)
    }
}

/// What `stats_fmt` shows of the statistics of a configuration of `n` processes.
pub open spec fn stats_fmt_spec(stats: Map<(StatsKey, usize), Stats>, n: nat, include_lfpaxos: bool) -> Seq<
    char,
> {
    fmt_parts(stats, max_f_spec(n), include_lfpaxos) + "e="@ + stats_text(
        stats[(StatsKey::EPaxos, 0usize)],
    )
}

/// The statistics that `stats_fmt` reads are there.
pub open spec fn formattable(stats: Map<(StatsKey, usize), Stats>, n: nat, include_lfpaxos: bool) -> bool {
    &&& forall|f: usize|
        1 <= f <= max_f_spec(n) ==> #[trigger] stats.contains_key((StatsKey::Atlas, f))
    &&& forall|f: usize|
        1 <= f <= max_f_spec(n) ==> #[trigger] stats.contains_key((StatsKey::FFPaxos, f))
    &&& forall|f: usize|
        1 <= f <= max_f_spec(n) && include_lfpaxos ==> #[trigger] stats.contains_key(
            (StatsKey::LFPaxos, f),
        )
    &&& stats.contains_key((StatsKey::EPaxos, 0usize))
}

/// The regions at the indices `c`.
pub open spec fn select(regions: Seq<Region>, c: Seq<usize>) -> Seq<Region> {
    c.map_values(|j: usize| regions[j as int])
}

/// The clients of a configuration: the given ones, or else the configuration's own regions.
pub open spec fn clients_for(clients: Option<Vec<Region>>, config: Vec<Region>) -> Vec<Region> {
    match clients {
        Some(c) => c,
        None => config,
    }
}

/// `cs` is the configuration of the regions at the indices `c`, as a set, with
/// the statistics that `bote` gives for those regions, in the order of `c`.
pub open spec fn config_from<F: Fn(BoteMethod, &Vec<Region>, &Vec<Region>, usize) -> Stats>(
    cs: ConfigAndStats,
    regions: Seq<Region>,
    c: Seq<usize>,
    clients: Option<Vec<Region>>,
    bote: F,
) -> bool {
    &&& strictly_increasing(names(cs.0@))
    &&& forall|x: Seq<char>|
        #[trigger] names(cs.0@).contains(x) <==> names(select(regions, c)).contains(x)
    &&& exists|v: Vec<Region>|
        #[trigger] stats_of(bote, v, clients_for(clients, v), cs.1@) && v@ == select(regions, c)
}

/// `css` holds, in order, the configurations of every way of picking `n` of the
/// `regions`, the ways in lexicographic order of their indices.
pub open spec fn level_configs<F: Fn(BoteMethod, &Vec<Region>, &Vec<Region>, usize) -> Stats>(
    css: Seq<ConfigAndStats>,
    regions: Seq<Region>,
    clients: Option<Vec<Region>>,
    n: usize,
    bote: F,
) -> bool {
    exists|cs: Seq<Seq<usize>>|
        #[trigger] all_index_subsets(cs, regions.len() as nat, n as nat) && cs.len() == css.len()
            && forall|i: int|
            0 <= i < css.len() ==> config_from(#[trigger] css[i], regions, cs[i], clients, bote)
}

/// The number of sizes in `(min_n..=max_n).step_by(2)`.
pub open spec fn step_count(min_n: usize, max_n: usize) -> nat {
    if min_n <= max_n {
        ((max_n - min_n) / 2 + 1) as nat
    } else {
        0
    }
}

/// Picking `n` of `len` regions can be enumerated.
pub open spec fn combinable(n: nat, len: nat) -> bool {
    &&& 1 <= n <= len
    &&& factorial(n) <= usize::MAX
    &&& falling_factorial(len, n) <= usize::MAX
}

/// Every size in `(min_n..=max_n).step_by(2)` can be enumerated among `len` regions.
pub open spec fn all_combinable(min_n: usize, max_n: usize, len: nat) -> bool {
    forall|n: nat| min_n <= n <= max_n && (n - min_n) % 2 == 0 ==> #[trigger] combinable(n, len)
}

/// Bote can be asked anything.
pub open spec fn bote_total<F: Fn(BoteMethod, &Vec<Region>, &Vec<Region>, usize) -> Stats>(bote: F) -> bool {
    forall|m: BoteMethod, s: &Vec<Region>, c: &Vec<Region>, q: usize| bote.requires((m, s, c, q))
}

proof fn lemma_index_order()
    ensures
        strict_total_ordering(index_order()),
{
}

/// Picking increasing indices of regions in increasing order gives regions in
/// increasing order.
proof fn lemma_select_sorted(regions: Seq<Region>, c: Seq<usize>, k: nat)
    requires
        strictly_increasing(names(regions)),
        index_subset(c, regions.len(), k),
    ensures
        strictly_increasing(names(select(regions, c))),
{
    assert forall|p: int, q: int| 0 <= p < q < c.len() implies text_lt(
        names(select(regions, c))[p],
        names(select(regions, c))[q],
    ) by {
        assert(c[p] < c[q]);
        assert(names(select(regions, c))[p] == names(regions)[c[p] as int]);
        assert(names(select(regions, c))[q] == names(regions)[c[q] as int]);
    }
}

/// Two lists of names in increasing order with the same names are equal.
proof fn lemma_same_sorted_names(a: Seq<Seq<char>>, b: Seq<Seq<char>>)
    requires
        strictly_increasing(a),
        strictly_increasing(b),
        forall|x: Seq<char>| a.contains(x) <==> b.contains(x),
    ensures
        a == b,
{
    lemma_text_order_strict_total();
    assert forall|i: int, j: int| 0 <= i < j < a.len() implies text_order()(a[i], a[j]) by {
        assert(text_lt(a[i], a[j]));
    }
    assert forall|i: int, j: int| 0 <= i < j < b.len() implies text_order()(b[i], b[j]) by {
        assert(text_lt(b[i], b[j]));
    }
    lemma_sorted_unique_by(a, b, text_order());
}

/// Among regions in increasing order, the ways of picking them in
/// lexicographic order of their indices give configurations in increasing order.
proof fn lemma_picks_ordered(regions: Seq<Region>, a: Seq<usize>, b: Seq<usize>, k: nat)
    requires
        strictly_increasing(names(regions)),
        index_subset(a, regions.len(), k),
        index_subset(b, regions.len(), k),
        lex_lt(a, b, index_order()),
    ensures
        config_lt(names(select(regions, a)), names(select(regions, b))),
{
    let i = choose|i: int| #[trigger] lex_lt_at(a, b, index_order(), i);
    let na = names(select(regions, a));
    let nb = names(select(regions, b));
    assert(i < a.len());
    assert(a[i] < b[i]);
    assert forall|j: int| 0 <= j < i implies na[j] == nb[j] by {
        assert(a[j] == b[j]);
    }
    assert(na[i] == names(regions)[a[i] as int]);
    assert(nb[i] == names(regions)[b[i] as int]);
    assert(text_lt(na[i], nb[i]));
    assert(text_order()(na[i], nb[i]));
    assert(lex_lt_at(na, nb, text_order(), i));
}

/// Two ways of picking regions with distinct names that pick the same names are the same.
proof fn lemma_same_picks(regions: Seq<Region>, a: Seq<usize>, b: Seq<usize>, k: nat)
    requires
        names(regions).no_duplicates(),
        index_subset(a, regions.len(), k),
        index_subset(b, regions.len(), k),
        forall|x: Seq<char>| names(select(regions, a)).contains(x) <==> names(select(regions, b)).contains(x),
    ensures
        a == b,
{
    lemma_index_order();
    assert forall|i: usize| a.contains(i) <==> b.contains(i) by {
        if a.contains(i) {
            let p = choose|p: int| 0 <= p < a.len() && a[p] == i;
            assert(names(select(regions, a))[p] == names(regions)[i as int]);
            assert(names(select(regions, a)).contains(names(regions)[i as int]));
            let q = choose|q: int| 0 <= q < b.len() && names(select(regions, b))[q] == names(regions)[i as int];
            assert(names(regions)[b[q] as int] == names(regions)[i as int]);
            assert(b[q] == i);
        }
        if b.contains(i) {
            let p = choose|p: int| 0 <= p < b.len() && b[p] == i;
            assert(names(select(regions, b))[p] == names(regions)[i as int]);
            assert(names(select(regions, b)).contains(names(regions)[i as int]));
            let q = choose|q: int| 0 <= q < a.len() && names(select(regions, a))[q] == names(regions)[i as int];
            assert(names(regions)[a[q] as int] == names(regions)[i as int]);
            assert(a[q] == i);
        }
    }
    lemma_sorted_unique_by(a, b, index_order());
}

/// How much Atlas' mean latency with one tolerated fault drops from `prev` to `stats`.
pub open spec fn lat_decrease_spec(prev: Map<(StatsKey, usize), Stats>, stats: Map<(StatsKey, usize), Stats>) -> int {
    prev[(StatsKey::Atlas, 1usize)].mean - stats[(StatsKey::Atlas, 1usize)].mean
}

/// `n` is among the numbers of regions of `all`.
pub open spec fn has_level(all: Seq<(usize, Vec<ConfigAndStats>)>, n: usize) -> bool {
    exists|i: int| 0 <= i < all.len() && #[trigger] all[i].0 == n
}

/// Where the configurations of `n` regions are in `all`.
pub open spec fn level_of(all: Seq<(usize, Vec<ConfigAndStats>)>, n: usize) -> int {
    choose|i: int| 0 <= i < all.len() && #[trigger] all[i].0 == n
}

/// The configurations of `n` regions in `all`.
pub open spec fn level_css(all: Seq<(usize, Vec<ConfigAndStats>)>, n: usize) -> Seq<ConfigAndStats> {
    all[level_of(all, n)].1@
}

/// `ranked` is what ranking `all` with `params` gives: for each number of
/// regions in range, in order, where its configurations are and its ranked list.
pub open spec fn rank_spec(
    all: Seq<(usize, Vec<ConfigAndStats>)>,
    params: RankingParams,
    ranked: Seq<(usize, Vec<(isize, usize)>)>,
) -> bool {
    &&& forall|r: int, s: int| 0 <= r < s < ranked.len() ==> ranked[r].0 < ranked[s].0
    &&& forall|r: int|
        0 <= r < ranked.len() ==> {
            let i = (#[trigger] ranked[r]).0 as int;
            &&& 0 <= i < all.len()
            &&& in_range(all[i].0, params)
            &&& ranked[r].1@ == ranked_list(all[i].1@, all[i].0, params)
        }
    &&& forall|i: int|
        0 <= i < all.len() && in_range((#[trigger] all[i]).0, params) ==> exists|r: int|
            0 <= r < ranked.len() && ranked[r].0 == i
}

/// Going from configuration `prev` to `cur` adds regions only and lowers
/// Atlas' latency by at least the minimum.
pub open spec fn extends(prev: ConfigAndStats, cur: ConfigAndStats, params: RankingParams) -> bool {
    &&& superset_of(names(cur.0@), names(prev.0@))
    &&& lat_decrease_spec(prev.1@, cur.1@) >= params.min_lat_decrease
}

/// The entries of `rl`, in order, whose configuration in `css` extends `prev`.
pub open spec fn super_list(
    rl: Seq<(isize, usize)>,
    css: Seq<ConfigAndStats>,
    prev: ConfigAndStats,
    params: RankingParams,
) -> Seq<(isize, usize)>
    decreases rl.len(),
{
    if rl.len() == 0 {
        seq![]
    } else {
        let p = super_list(rl.drop_last(), css, prev, params);
        if extends(prev, css[rl.last().1 as int], params) {
            p.push(rl.last())
        } else {
            p
        }
    }
}

proof fn lemma_level_of(all: Seq<(usize, Vec<ConfigAndStats>)>, i: int)
    requires
        configs_wf(all),
        0 <= i < all.len(),
    ensures
        level_of(all, all[i].0) == i,
{
    let j = level_of(all, all[i].0);
    assert(all[j].0 == all[i].0);
    if j < i {
        assert(all[j].0 < all[i].0);
    } else if i < j {
        assert(all[i].0 < all[j].0);
    }
}

/// The configurations of each number of regions, with their statistics, and
/// the regions they were chosen among.
pub struct Search {
    regions: Vec<Region>,
    clients: Option<Vec<Region>>,
    all_configs: Vec<(usize, Vec<ConfigAndStats>)>,
}

/// `sorted` holds, for every number of regions `n` of `all` that `params`
/// ranks, the `k` highest ranked configurations of `n` regions, highest first.
pub open spec fn sorted_configs_spec<'a>(
    all: Seq<(usize, Vec<ConfigAndStats>)>,
    params: RankingParams,
    k: nat,
    sorted: Map<usize, Vec<(isize, &'a ConfigAndStats)>>,
) -> bool {
    &&& forall|n: usize|
        #[trigger] sorted.contains_key(n) <==> exists|i: int|
            0 <= i < all.len() && (#[trigger] all[i]).0 == n && in_range(n, params)
    &&& forall|i: int|
        0 <= i < all.len() && in_range((#[trigger] all[i]).0, params) ==> exists|
            top: Seq<(isize, usize)>,
        |
            #![trigger is_top(top, ranked_list(all[i].1@, all[i].0, params), all[i].1@, k)]
            is_top(top, ranked_list(all[i].1@, all[i].0, params), all[i].1@, k) && refers(
                sorted[all[i].0]@,
                top,
                all[i].1@,
            )
}

/// What `sorted_configs` gives for `n` regions: only numbers of regions in
/// range that the search has, at most `k` configurations of `n` regions each,
/// each valid and with its score, highest score first.
pub proof fn lemma_sorted_configs_valid<'a>(
    all: Seq<(usize, Vec<ConfigAndStats>)>,
    params: RankingParams,
    k: nat,
    sorted: Map<usize, Vec<(isize, &'a ConfigAndStats)>>,
    n: usize,
)
    requires
        configs_wf(all),
        sorted_configs_spec(all, params, k, sorted),
        sorted.contains_key(n),
    ensures
        in_range(n, params),
        has_level(all, n),
        sorted[n].len() <= k,
        forall|i: int|
            0 <= i < sorted[n].len() ==> {
                let e = #[trigger] sorted[n]@[i];
                &&& level_css(all, n).contains(*e.1)
                &&& score_spec(n as nat, e.1.1@, params).0
                &&& score_spec(n as nat, e.1.1@, params).1 == e.0
            },
        forall|i: int, j: int| 0 <= i < j < sorted[n].len() ==> sorted[n]@[j].0 <= sorted[n]@[i].0,
{
    let i0 = choose|i: int| 0 <= i < all.len() && (#[trigger] all[i]).0 == n && in_range(n, params);
    assert(all[i0].0 == n);
    lemma_level_of(all, i0);
    let css = all[i0].1@;
    assert(level_wf(n, css));
    lemma_ranked_entries(css, n, params);
    let rl = ranked_list(css, n, params);
    let top = choose|top: Seq<(isize, usize)>|
        #![trigger is_top(top, ranked_list(all[i0].1@, all[i0].0, params), all[i0].1@, k)]
        is_top(top, ranked_list(all[i0].1@, all[i0].0, params), all[i0].1@, k) && refers(
            sorted[all[i0].0]@,
            top,
            all[i0].1@,
        );
    assert(is_top(top, rl, css, k));
    assert forall|i: int| 0 <= i < sorted[n].len() implies {
        let e = #[trigger] sorted[n]@[i];
        &&& level_css(all, n).contains(*e.1)
        &&& score_spec(n as nat, e.1.1@, params).0
        &&& score_spec(n as nat, e.1.1@, params).1 == e.0
    } by {
        assert(rl.contains(top[i]));
        let q = choose|q: int| 0 <= q < rl.len() && rl[q] == top[i];
        assert(css.contains(css[top[i].1 as int]));
    }
    assert forall|i: int, j: int| 0 <= i < j < sorted[n].len() implies sorted[n]@[j].0 <= sorted[n]@[i].0 by {
        assert(ranked_before(css, top[j], top[i]));
    }
}

impl Search {
    #[verifier::type_invariant]
    spec fn wf(self) -> bool {
        &&& configs_wf(self.all_configs@)
        &&& stored_wf(self.all_configs@)
    }

    /// The configurations of each number of regions, with their statistics.
    pub closed spec fn all_configs(self) -> Seq<(usize, Vec<ConfigAndStats>)> {
        self.all_configs@
    }

    /// The regions among which servers were chosen.
    pub closed spec fn regions_spec(self) -> Seq<Region> {
        self.regions@
    }

    /// The regions of the clients, if they are not the servers' own.
    pub closed spec fn clients_spec(self) -> Option<Vec<Region>> {
        self.clients
    }

    /// The configurations of each number of regions in `[min_n, max_n]`, in
    /// order, each with the valid ones among them and their scores.
    fn rank(&self, params: &RankingParams) -> (ranked: Vec<(usize, Vec<(isize, usize)>)>)
        ensures
            forall|r: int, s: int|
                0 <= r < s < ranked.len() ==> ranked@[r].0 < ranked@[s].0,
            forall|r: int|
                0 <= r < ranked.len() ==> {
                    let i = (#[trigger] ranked@[r]).0 as int;
                    &&& 0 <= i < self.all_configs().len()
                    &&& in_range(self.all_configs()[i].0, *params)
                    &&& ranked@[r].1@ == ranked_list(
                        self.all_configs()[i].1@,
                        self.all_configs()[i].0,
                        *params,
                    )
                },
            forall|i: int|
                0 <= i < self.all_configs().len() && in_range((#[trigger] self.all_configs()[i]).0, *params)
                    ==> exists|r: int| 0 <= r < ranked.len() && ranked@[r].0 == i,
    {
        proof {
            use_type_invariant(self);
        }
        let all = &self.all_configs;
        let mut ranked: Vec<(usize, Vec<(isize, usize)>)> = Vec::new();
        let mut j: usize = 0;
        while j < all.len()
            invariant
                configs_wf(all@),
                *all == self.all_configs,
                j <= all.len(),
                forall|r: int| 0 <= r < ranked.len() ==> (#[trigger] ranked@[r]).0 < j,
                forall|r: int, s: int| 0 <= r < s < ranked.len() ==> ranked@[r].0 < ranked@[s].0,
                forall|r: int|
                    0 <= r < ranked.len() ==> {
                        let i = (#[trigger] ranked@[r]).0 as int;
                        &&& 0 <= i < all.len()
                        &&& in_range(all@[i].0, *params)
                        &&& ranked@[r].1@ == ranked_list(all@[i].1@, all@[i].0, *params)
                    },
                forall|i: int|
                    0 <= i < j && in_range((#[trigger] all@[i]).0, *params) ==> exists|r: int|
                        0 <= r < ranked.len() && ranked@[r].0 == i,
            decreases all.len() - j,
        {
            let ghost old_ranked = ranked@;
            let n = all[j].0;
            // only keep `n` values between `min_n` and `max_n`
            if n >= params.min_n && n <= params.max_n {
                let css = &all[j].1;
                let mut list: Vec<(isize, usize)> = Vec::new();
                let mut c: usize = 0;
                proof {
                    assert(level_wf(all@[j as int].0, all@[j as int].1@));
                }
                while c < css.len()
                    invariant
                        level_wf(n, css@),
                        c <= css.len(),
                        list@ == ranked_list(css@.take(c as int), n, *params),
                    decreases css.len() - c,
                {
                    let cs = &css[c];
                    proof {
                        assert(config_wf(n, css@[c as int]));
                        let m = fs_max(params.ranking_ft, n as nat);
                        assert(m <= max_f_spec(n as nat));
                        assert forall|f: usize| 1 <= f <= m implies #[trigger] cs.1@.contains_key(
                            (StatsKey::Atlas, f),
                        ) by {
                            assert(stats_key_present(n as nat, (StatsKey::Atlas, f)));
                        }
                        assert forall|f: usize| 1 <= f <= m implies #[trigger] cs.1@.contains_key(
                            (StatsKey::LFPaxos, f),
                        ) by {
                            assert(stats_key_present(n as nat, (StatsKey::LFPaxos, f)));
                        }
                        assert forall|f: usize| 1 <= f <= m implies #[trigger] cs.1@.contains_key(
                            (StatsKey::FFPaxos, f),
                        ) by {
                            assert(stats_key_present(n as nat, (StatsKey::FFPaxos, f)));
                        }
                        assert(stats_key_present(n as nat, (StatsKey::EPaxos, 0usize)));
                    }
                    // only keep valid configurations
                    let (valid, score) = Self::compute_score(n, &cs.1, params);
                    proof {
                        assert(css@.take(c as int + 1).drop_last() =~= css@.take(c as int));
                        assert(css@.take(c as int + 1).last() == css@[c as int]);
                    }
                    if valid {
                        list.push((score, c));
                    }
                    c = c + 1;
                }
                proof {
                    assert(css@.take(css.len() as int) =~= css@);
                }
                ranked.push((j, list));
            }
            proof {
                assert forall|i: int|
                    0 <= i < j + 1 && in_range((#[trigger] all@[i]).0, *params) implies exists|r: int|
                        0 <= r < ranked.len() && ranked@[r].0 == i by {
                    if i == j {
                        assert(ranked@[ranked.len() - 1].0 == i);
                    } else {
                        let r = choose|r: int| 0 <= r < old_ranked.len() && old_ranked[r].0 == i;
                        assert(ranked@[r] == old_ranked[r]);
                    }
                }
            }
            j = j + 1;
        }
        ranked
    }

    /// For every number of regions in `[params.min_n, params.max_n]` that the
    /// search has, in increasing order, how many of its configurations are valid.
    pub fn ranked_counts(&self, params: &RankingParams) -> (counts: Vec<(usize, usize)>)
        ensures
            forall|r: int, s: int| 0 <= r < s < counts.len() ==> counts@[r].0 < counts@[s].0,
            forall|r: int|
                0 <= r < counts.len() ==> {
                    &&& #[trigger] has_level(self.all_configs(), counts@[r].0)
                    &&& in_range(counts@[r].0, *params)
                    &&& counts@[r].1 == ranked_list(
                        level_css(self.all_configs(), counts@[r].0),
                        counts@[r].0,
                        *params,
                    ).len()
                },
            forall|n: usize|
                #[trigger] has_level(self.all_configs(), n) && in_range(n, *params) ==> exists|r: int|
                    0 <= r < counts.len() && counts@[r].0 == n,
    {
        proof {
            use_type_invariant(self);
        }
        let all = &self.all_configs;
        let ranked = self.rank(params);
        let mut counts: Vec<(usize, usize)> = Vec::new();
        let mut r: usize = 0;
        while r < ranked.len()
            invariant
                *all == self.all_configs,
                configs_wf(all@),
                r <= ranked.len(),
                counts.len() == r,
                forall|a: int, b: int| 0 <= a < b < ranked.len() ==> ranked@[a].0 < ranked@[b].0,
                forall|q: int|
                    0 <= q < ranked.len() ==> {
                        let i = (#[trigger] ranked@[q]).0 as int;
                        &&& 0 <= i < all.len()
                        &&& in_range(all@[i].0, *params)
                        &&& ranked@[q].1@ == ranked_list(all@[i].1@, all@[i].0, *params)
                    },
                forall|q: int|
                    0 <= q < r ==> (#[trigger] counts@[q]).0 == all@[ranked@[q].0 as int].0
                        && counts@[q].1 == ranked@[q].1.len(),
            decreases ranked.len() - r,
        {
            let i = ranked[r].0;
            counts.push((all[i].0, ranked[r].1.len()));
            r = r + 1;
        }
        proof {
            assert(self.all_configs() == all@);
            assert forall|a: int, b: int| 0 <= a < b < counts.len() implies counts@[a].0 < counts@[b].0 by {
                assert(ranked@[a].0 < ranked@[b].0);
            }
            assert forall|q: int| 0 <= q < counts.len() implies {
                &&& #[trigger] has_level(self.all_configs(), counts@[q].0)
                &&& in_range(counts@[q].0, *params)
                &&& counts@[q].1 == ranked_list(
                    level_css(self.all_configs(), counts@[q].0),
                    counts@[q].0,
                    *params,
                ).len()
            } by {
                let i = ranked@[q].0 as int;
                assert(all@[i].0 == counts@[q].0);
                lemma_level_of(all@, i);
            }
            assert forall|n: usize|
                #[trigger] has_level(self.all_configs(), n) && in_range(n, *params) implies exists|q: int|
                    0 <= q < counts.len() && counts@[q].0 == n by {
                let i = level_of(all@, n);
                assert(all@[i].0 == n);
                let q = choose|q: int| 0 <= q < ranked.len() && ranked@[q].0 == i;
                assert(counts@[q].0 == n);
            }
        }
        counts
    }

    /// For every number of regions `n` in `[params.min_n, params.max_n]`, the
    /// highest ranked `max_configs_per_n` valid configurations of `n` regions,
    /// highest score first.
    pub fn sorted_configs(&self, params: &RankingParams, max_configs_per_n: usize) -> (sorted:
        BTreeMap<usize, Vec<(isize, &ConfigAndStats)>>)
        ensures
            configs_wf(self.all_configs()),
            sorted_configs_spec(self.all_configs(), *params, max_configs_per_n as nat, sorted@),
    {
        proof {
            use_type_invariant(self);
        }
        proof {
            lemma_usize_keys_ordered();
        }
        let all = &self.all_configs;
        let ranked = self.rank(params);
        proof {
            assert(self.all_configs() == all@);
            assert forall|i: int|
                0 <= i < all.len() && in_range((#[trigger] all@[i]).0, *params) implies exists|q: int|
                    0 <= q < ranked.len() && ranked@[q].0 == i by {
                assert(self.all_configs()[i] == all@[i]);
            }
            assert forall|q: int| 0 <= q < ranked.len() implies {
                let i = (#[trigger] ranked@[q]).0 as int;
                &&& 0 <= i < all.len()
                &&& in_range(all@[i].0, *params)
                &&& ranked@[q].1@ == ranked_list(all@[i].1@, all@[i].0, *params)
            } by {
                let i = ranked@[q].0 as int;
                assert(self.all_configs()[i] == all@[i]);
            }
        }
        let mut sorted: BTreeMap<usize, Vec<(isize, &ConfigAndStats)>> = BTreeMap::new();
        let mut r: usize = 0;
        let ghost mut tops: Seq<Seq<(isize, usize)>> = seq![];
        while r < ranked.len()
            invariant
                configs_wf(all@),
                *all == self.all_configs,
                r <= ranked.len(),
                forall|r: int, s: int| 0 <= r < s < ranked.len() ==> ranked@[r].0 < ranked@[s].0,
                forall|r: int|
                    0 <= r < ranked.len() ==> {
                        let i = (#[trigger] ranked@[r]).0 as int;
                        &&& 0 <= i < all.len()
                        &&& in_range(all@[i].0, *params)
                        &&& ranked@[r].1@ == ranked_list(all@[i].1@, all@[i].0, *params)
                    },
                forall|i: int|
                    0 <= i < all.len() && in_range((#[trigger] all@[i]).0, *params) ==> exists|
                        q: int,
                    | 0 <= q < ranked.len() && ranked@[q].0 == i,
                forall|n: usize|
                    #[trigger] sorted@.contains_key(n) <==> exists|q: int|
                        0 <= q < r && (#[trigger] all@[ranked@[q].0 as int]).0 == n,
                tops.len() == r,
                forall|q: int|
                    #![trigger ranked@[q]]
                    0 <= q < r ==> is_top(
                        tops[q],
                        ranked_list(all@[ranked@[q].0 as int].1@, all@[ranked@[q].0 as int].0, *params),
                        all@[ranked@[q].0 as int].1@,
                        max_configs_per_n as nat,
                    ) && refers(
                        sorted@[all@[ranked@[q].0 as int].0]@,
                        tops[q],
                        all@[ranked@[q].0 as int].1@,
                    ),
            decreases ranked.len() - r,
        {
            let i = ranked[r].0;
            let n = all[i].0;
            let css = &all[i].1;
            let list = &ranked[r].1;
            proof {
                assert(level_wf(all@[i as int].0, all@[i as int].1@));
                lemma_ranked_list_positions(css@, n, *params);
                assert(list@.no_duplicates()) by {
                    assert forall|a: int, b: int| 0 <= a < list@.len() && 0 <= b < list@.len() && a
                        != b implies list@[a] != list@[b] by {
                        if a < b {
                            assert(list@[a].1 < list@[b].1);
                        } else {
                            assert(list@[b].1 < list@[a].1);
                        }
                    }
                }
            }
            let top = top_configs(css, list, max_configs_per_n, Ghost(n));
            let mut refs: Vec<(isize, &ConfigAndStats)> = Vec::new();
            let mut t: usize = 0;
            while t < top.len()
                invariant
                    t <= top.len(),
                    forall|a: int| 0 <= a < top.len() ==> list@.contains(#[trigger] top@[a]),
                    forall|a: int| 0 <= a < list.len() ==> (#[trigger] list@[a]).1 < css.len(),
                    refers(refs@, top@.take(t as int), css@),
                decreases top.len() - t,
            {
                proof {
                    assert(list@.contains(top@[t as int]));
                }
                let e = top[t];
                refs.push((e.0, &css[e.1]));
                t = t + 1;
            }
            proof {
                assert(top@.take(top.len() as int) =~= top@);
            }
            let ghost old_sorted = sorted@;
            sorted.insert(n, refs);
            proof {
                assert forall|q: int| 0 <= q < r implies (#[trigger] all@[ranked@[q].0 as int]).0 != n by {
                    assert(ranked@[q].0 < ranked@[r as int].0);
                    let iq = ranked@[q].0 as int;
                    assert(0 <= iq < all.len());
                }
                let new_tops = tops.push(top@);
                assert forall|q: int| #![trigger ranked@[q]] 0 <= q < r + 1 implies is_top(
                        new_tops[q],
                        ranked_list(all@[ranked@[q].0 as int].1@, all@[ranked@[q].0 as int].0, *params),
                        all@[ranked@[q].0 as int].1@,
                        max_configs_per_n as nat,
                    ) && refers(
                        sorted@[all@[ranked@[q].0 as int].0]@,
                        new_tops[q],
                        all@[ranked@[q].0 as int].1@,
                    ) by {
                    let iq = ranked@[q].0 as int;
                    if q < r {
                        assert(new_tops[q] == tops[q]);
                        assert(sorted@[all@[iq].0] == old_sorted[all@[iq].0]);
                    }
                }
                tops = new_tops;
                assert forall|m: usize|
                    #[trigger] sorted@.contains_key(m) <==> exists|q: int|
                        0 <= q < r + 1 && (#[trigger] all@[ranked@[q].0 as int]).0 == m by {
                    if m == n {
                        assert(all@[ranked@[r as int].0 as int].0 == m);
                    }
                }
            }
            r = r + 1;
        }
        proof {
            assert forall|n: usize| #[trigger] sorted@.contains_key(n) <==> exists|i: int|
                0 <= i < all.len() && (#[trigger] all@[i]).0 == n && in_range(n, *params) by {
                if sorted@.contains_key(n) {
                    let q = choose|q: int| 0 <= q < ranked.len() && (#[trigger] all@[ranked@[q].0 as int]).0 == n;
                    assert(all@[ranked@[q].0 as int].0 == n);
                }
                if exists|i: int| 0 <= i < all.len() && (#[trigger] all@[i]).0 == n && in_range(n, *params) {
                    let i = choose|i: int| 0 <= i < all.len() && (#[trigger] all@[i]).0 == n && in_range(n, *params);
                    let q = choose|q: int| 0 <= q < ranked.len() && ranked@[q].0 == i;
                    assert(all@[ranked@[q].0 as int].0 == n);
                }
            }
            assert forall|i: int| 0 <= i < all.len() && in_range((#[trigger] all@[i]).0, *params) implies exists|
                top: Seq<(isize, usize)>,
            |
                #![trigger is_top(top, ranked_list(all@[i].1@, all@[i].0, *params), all@[i].1@, max_configs_per_n as nat)]
                is_top(top, ranked_list(all@[i].1@, all@[i].0, *params), all@[i].1@, max_configs_per_n as nat) && refers(
                    sorted@[all@[i].0]@,
                    top,
                    all@[i].1@,
                ) by {
                let q = choose|q: int| 0 <= q < ranked.len() && ranked@[q].0 == i;
                assert(ranked@[q].0 == i);
                assert(is_top(tops[q], ranked_list(all@[i].1@, all@[i].0, *params), all@[i].1@, max_configs_per_n as nat));
            }
        }
        sorted
    }
}

impl Search {
    /// How much Atlas' mean latency with one tolerated fault drops when the
    /// number of sites increases from the configuration of `prev_stats` to that
    /// of `stats`.
    fn lat_decrease(prev_stats: &AllStats, stats: &AllStats) -> (d: isize)
        requires
            prev_stats@.contains_key((StatsKey::Atlas, 1usize)),
            stats@.contains_key((StatsKey::Atlas, 1usize)),
        ensures
            d == lat_decrease_spec(prev_stats@, stats@),
    {
        let f: usize = 1;
        let prev_atlas = prev_stats.get(StatsKey::Atlas, f);
        let atlas = stats.get(StatsKey::Atlas, f);
        prev_atlas.mean_improv(&atlas)
    }

    /// The ranked configurations of `n` regions.
    fn configs(&self, ranked: &Vec<(usize, Vec<(isize, usize)>)>, params: &RankingParams, n: usize) -> (cs: Vec<
        (isize, usize),
    >)
        requires
            rank_spec(self.all_configs(), *params, ranked@),
            exists|r: int|
                0 <= r < ranked.len() && (#[trigger] self.all_configs()[ranked@[r].0 as int]).0 == n,
        ensures
            has_level(self.all_configs(), n),
            cs@ == ranked_list(level_css(self.all_configs(), n), n, *params),
    {
        proof {
            use_type_invariant(self);
        }
        let all = &self.all_configs;
        let mut r: usize = 0;
        while r < ranked.len()
            invariant
                *all == self.all_configs,
                configs_wf(all@),
                rank_spec(all@, *params, ranked@),
                r <= ranked.len(),
                forall|q: int| 0 <= q < r ==> all@[ranked@[q].0 as int].0 != n,
            decreases ranked.len() - r,
        {
            if all[ranked[r].0].0 == n {
                let list = &ranked[r].1;
                let mut cs: Vec<(isize, usize)> = Vec::new();
                let mut t: usize = 0;
                while t < list.len()
                    invariant
                        t <= list.len(),
                        cs@ == list@.take(t as int),
                    decreases list.len() - t,
                {
                    cs.push(list[t]);
                    t = t + 1;
                    proof {
                        assert(cs@ =~= list@.take(t as int));
                    }
                }
                proof {
                    assert(list@.take(list.len() as int) =~= list@);
                    let i = ranked@[r as int].0 as int;
                    assert(all@[i].0 == n);
                    lemma_level_of(all@, i);
                }
                return cs;
            }
            r = r + 1;
        }
        assert(false);
        Vec::new()
    }

    /// Return ranked configurations such that:
    /// - their size is `n`
    /// - are a superset of `prev`, and lower Atlas' latency by at least
    ///   `params.min_lat_decrease`
    fn super_configs(
        &self,
        ranked: &Vec<(usize, Vec<(isize, usize)>)>,
        params: &RankingParams,
        n: usize,
        prev: &ConfigAndStats,
    ) -> (cs: Vec<(isize, usize)>)
        requires
            rank_spec(self.all_configs(), *params, ranked@),
            exists|r: int|
                0 <= r < ranked.len() && (#[trigger] self.all_configs()[ranked@[r].0 as int]).0 == n,
            n >= 2,
            prev.1@.contains_key((StatsKey::Atlas, 1usize)),
        ensures
            has_level(self.all_configs(), n),
            cs@ == super_list(
                ranked_list(level_css(self.all_configs(), n), n, *params),
                level_css(self.all_configs(), n),
                *prev,
                *params,
            ),
    {
        proof {
            use_type_invariant(self);
        }
        let list = self.configs(ranked, params, n);
        let ghost css = level_css(self.all_configs(), n);
        let all = &self.all_configs;
        let mut idx: usize = 0;
        while idx < all.len() && all[idx].0 != n
            invariant
                *all == self.all_configs,
                idx <= all.len(),
                forall|q: int| 0 <= q < idx ==> all@[q].0 != n,
            decreases all.len() - idx,
        {
            idx = idx + 1;
        }
        proof {
            if idx == all.len() {
                let q = level_of(all@, n);
                assert(all@[q].0 == n);
            }
            lemma_level_of(all@, idx as int);
            assert(css == all@[idx as int].1@);
            assert(css.len() == all@[idx as int].1.len());
            assert(level_wf(all@[idx as int].0, css));
        }
        let level = &all[idx].1;
        proof {
            lemma_ranked_list_positions(css, n, *params);
        }
        let mut cs: Vec<(isize, usize)> = Vec::new();
        let mut t: usize = 0;
        while t < list.len()
            invariant
                t <= list.len(),
                level@ == css,
                level_wf(n, css),
                n >= 2,
                prev.1@.contains_key((StatsKey::Atlas, 1usize)),
                list@ == ranked_list(css, n, *params),
                forall|i: int| 0 <= i < list.len() ==> (#[trigger] list@[i]).1 < css.len(),
                cs@ == super_list(list@.take(t as int), css, *prev, *params),
            decreases list.len() - t,
        {
            let e = list[t];
            let (config, stats) = &level[e.1];
            proof {
                assert(config_wf(n, css[e.1 as int]));
                assert(stats_key_present(n as nat, (StatsKey::Atlas, 1usize)));
                assert(list@.take(t as int + 1).drop_last() =~= list@.take(t as int));
            }
            if is_superset(config, &prev.0) && Self::lat_decrease(&prev.1, stats) >= params.min_lat_decrease {
                cs.push(e);
            }
            t = t + 1;
        }
        proof {
            assert(list@.take(list.len() as int) =~= list@);
        }
        cs
    }

    /// The largest number of faults considered for `n` processes.
    fn max_f(n: usize) -> (m: usize)
        ensures
            m == max_f_spec(n as nat),
    {
        let max_f: usize = 2;
        if n / 2 < max_f {
            n / 2
        } else {
            max_f
        }
    }

    /// Computes whether a configuration of `n` processes is valid, and its score.
    fn compute_score(n: usize, stats: &AllStats, params: &RankingParams) -> (r: (bool, isize))
        requires
            scorable(stats@, fs_max(params.ranking_ft, n as nat)),
        ensures
            r.0 == score_spec(n as nat, stats@, *params).0,
            r.1 == score_spec(n as nat, stats@, *params).1,
    {
        // compute score and check if it is a valid configuration
        let mut valid = true;
        let mut score: isize = 0;

        // f values accounted for when computing score and config validity
        let fs = params.ranking_ft.fs(n);
        let ghost m = fs_max(params.ranking_ft, n as nat);

        let mut i: usize = 0;
        while i < fs.len()
            invariant
                fs@.len() == m,
                m <= 2,
                forall|j: int| 0 <= j < fs@.len() ==> fs@[j] == j + 1,
                scorable(stats@, m),
                i <= fs.len(),
                valid == valid_upto(stats@, params.min_lat_improv as int, i as nat),
                score == score_upto(stats@, params.ranking_metric, i as nat),
            decreases fs.len() - i,
        {
            let f = fs[i];
            let atlas = stats.get(StatsKey::Atlas, f);
            let _lfpaxos = stats.get(StatsKey::LFPaxos, f);
            let ffpaxos = stats.get(StatsKey::FFPaxos, f);
            let _epaxos = stats.get(StatsKey::EPaxos, 0);

            // compute latency and fairness improvement of atlas wrto to ffpaxos
            let lat_improv = ffpaxos.mean_improv(&atlas);

            // check if it's a valid config
            valid = valid && lat_improv >= params.min_lat_improv;

            // compute scores
            let lat_score = lat_improv;
            let fair_score: isize = 0;

            proof {
                lemma_score_bound(stats@, params.ranking_metric, i as nat);
                let min = params.min_lat_improv as int;
                let next = (i + 1) as nat;
                assert(lat_improv == lat_improv_spec(stats@, next));
                if valid_upto(stats@, min, i as nat) && lat_improv_spec(stats@, next) >= min {
                    assert forall|g: nat| 1 <= g <= next implies #[trigger] lat_improv_spec(stats@, g)
                        >= min by {}
                }
                if valid_upto(stats@, min, next) {
                    assert(lat_improv_spec(stats@, next) >= min);
                }
            }

            // compute score depending on the ranking metric
            score = score + match params.ranking_metric {
                RankingMetric::Latency => lat_score,
                RankingMetric::Fairness => fair_score,
                RankingMetric::LatencyAndFairness => lat_score + fair_score,
            };
            i = i + 1;
        }

        (valid, score)
    }

    /// It returns a tuple where the:
    /// - 1st component is the set of regions where to look for a configuration
    /// - 2nd component might be a set of clients
    ///
    /// If the 2nd component is `None`, clients are colocated with servers.
    fn search_inputs(search_input: &SearchInput, planet_regions: Vec<Region>) -> (r: (
        Vec<Region>,
        Option<Vec<Region>>,
    ))
        requires
            names(planet_regions@).no_duplicates(),
        ensures
            search_inputs_spec(*search_input, planet_regions@, r.0@, r.1),
            names(r.0@).no_duplicates(),
            strictly_increasing(names(r.0@)),
            r.0.len() == search_len(*search_input, planet_regions.len() as nat),
    {
        // compute all regions
        let ghost planet = planet_regions@;
        let regions = sort_regions(planet_regions);
        proof {
            lemma_text_order();
            assert forall|p: int, q: int| 0 <= p < regions.len() && 0 <= q < regions.len() && p != q
                implies names(regions@)[p] != names(regions@)[q] by {
                if p < q {
                    assert(text_lt(names(regions@)[p], names(regions@)[q]));
                } else {
                    assert(text_lt(names(regions@)[q], names(regions@)[p]));
                }
            }
        }

        // compute 17-regions (from end of 2018)
        let regions17 = regions17();

        match search_input {
            SearchInput::R20 => (regions, None),
            SearchInput::R20C20 => {
                let clients = regions.clone();
                proof {
                    assert(clients@ =~= regions@);
                }
                (regions, Some(clients))
            },
            SearchInput::R17C17 => {
                let clients = regions17.clone();
                proof {
                    assert(clients@ =~= regions17@);
                }
                (regions17, Some(clients))
            },
        }
    }

    /// Searches the configurations of each size in `(min_n..=max_n).step_by(2)`
    /// among the regions that `search_input` selects from `planet_regions`,
    /// with the latency statistics that `bote` computes.
    pub fn new<F: Fn(BoteMethod, &Vec<Region>, &Vec<Region>, usize) -> Stats>(
        min_n: usize,
        max_n: usize,
        search_input: SearchInput,
        planet_regions: Vec<Region>,
        bote: &F,
    ) -> (search: Search)
        requires
            names(planet_regions@).no_duplicates(),
            all_combinable(
                min_n,
                max_n,
                search_len(search_input, planet_regions.len() as nat),
            ),
            bote_total(*bote),
        ensures
            search_inputs_spec(
                search_input,
                planet_regions@,
                search.regions_spec(),
                search.clients_spec(),
            ),
            configs_wf(search.all_configs()),
            stored_wf(search.all_configs()),
            search.all_configs().len() == step_count(min_n, max_n),
            forall|j: int|
                0 <= j < search.all_configs().len() ==> (#[trigger] search.all_configs()[j]).0 == min_n + 2
                    * j && level_configs(
                    search.all_configs()[j].1@,
                    search.regions_spec(),
                    search.clients_spec(),
                    search.all_configs()[j].0,
                    *bote,
                ),
    {
        // get regions for servers and clients
        let (regions, clients) = Self::search_inputs(&search_input, planet_regions);

        // create empty config and get all configs
        let all_configs = Self::compute_all_configs(min_n, max_n, &regions, &clients, bote);

        // create a new `Search` instance
        Search { regions, clients, all_configs }
    }

    /// Whether every size in `(min_n..=max_n).step_by(2)` can be enumerated
    /// among the regions that `search_input` selects from `planet_len` regions.
    pub fn can_search(min_n: usize, max_n: usize, search_input: SearchInput, planet_len: usize) -> (r:
        bool)
        ensures
            r == all_combinable(min_n, max_n, search_len(search_input, planet_len as nat)),
    {
        let len: usize = match search_input {
            SearchInput::R17C17 => 17,
            _ => planet_len,
        };
        if min_n > max_n {
            return true;
        }
        let mut n = min_n;
        loop
            invariant
                len == search_len(search_input, planet_len as nat),
                min_n <= n <= max_n,
                (n - min_n) % 2 == 0,
                forall|m: nat|
                    min_n <= m < n && (m - min_n) % 2 == 0 ==> #[trigger] combinable(m, len as nat),
            decreases max_n - n,
        {
            if !enumerable(len, n) {
                proof {
                    assert(!combinable(n as nat, len as nat));
                }
                return false;
            }
            if max_n - n < 2 {
                proof {
                    assert forall|m: nat|
                        min_n <= m <= max_n && (m - min_n) % 2 == 0 implies #[trigger] combinable(
                            m,
                            len as nat,
                        ) by {
                        if m > n {
                            assert(m - n >= 2);
                        }
                    }
                }
                return true;
            }
            n = n + 2;
        }
    }

    /// Shows the statistics of a configuration of `n` processes, for all
    /// possible `f`: Atlas and FPaxos with the fairest leader, followed, when
    /// `include_lfpaxos`, by FPaxos with the fastest leader; then EPaxos.
    pub fn stats_fmt(stats: &AllStats, n: usize, include_lfpaxos: bool) -> (fmt: String)
        requires
            formattable(stats@, n as nat, include_lfpaxos),
        ensures
            fmt@ == stats_fmt_spec(stats@, n as nat, include_lfpaxos),
    {
        // shows stats for all possible f
        let mut fmt = String::new();
        let max_f = Self::max_f(n);
        let mut f: usize = 1;
        while f <= max_f
            invariant
                max_f == max_f_spec(n as nat),
                1 <= f <= max_f + 1,
                formattable(stats@, n as nat, include_lfpaxos),
                fmt@ == fmt_parts(stats@, (f - 1) as nat, include_lfpaxos),
            decreases max_f + 1 - f,
        {
            let atlas = stats.get(StatsKey::Atlas, f);
            let ffpaxos = stats.get(StatsKey::FFPaxos, f);
            let ghost before = fmt@;
            fmt.append("a");
            push_decimal(&mut fmt, f as u64);
            fmt.append("=");
            fmt.append(atlas.debug_text().as_str());
            fmt.append(" ff");
            push_decimal(&mut fmt, f as u64);
            fmt.append("=");
            fmt.append(ffpaxos.debug_text().as_str());
            fmt.append(" ");
            proof {
                assert(fmt@ =~= before + fmt_fair(stats@, f as nat));
            }
            let ghost fair = fmt@;
            if include_lfpaxos {
                // append lfpaxos if we should
                let lfpaxos = stats.get(StatsKey::LFPaxos, f);
                fmt.append("lf");
                push_decimal(&mut fmt, f as u64);
                fmt.append("=");
                fmt.append(lfpaxos.debug_text().as_str());
                fmt.append(" ");
                proof {
                    assert(fmt@ =~= fair + fmt_fast(stats@, f as nat));
                }
            }
            proof {
                assert(fmt@ =~= before + fmt_part(stats@, f as nat, include_lfpaxos));
            }
            f = f + 1;
        }

        // add epaxos
        let epaxos = stats.get(StatsKey::EPaxos, 0);
        fmt.append("e=");
        fmt.append(epaxos.debug_text().as_str());
        fmt
    }

    /// The file name under which a search is saved.
    pub fn filename(min_n: usize, max_n: usize, search_input: &SearchInput) -> (name: String)
        ensures
            name@ == file_name(min_n, max_n, *search_input),
    {
        let mut name = String::new();
        push_decimal(&mut name, min_n as u64);
        name.append("_");
        push_decimal(&mut name, max_n as u64);
        name.append("_");
        let input = search_input.to_string();
        name.append(input.as_str());
        name.append(".data");
        name
    }

    /// The configurations, with their statistics, of the ways of picking `n`
    /// regions in `combos`.
    fn configs_from_combinations<F: Fn(BoteMethod, &Vec<Region>, &Vec<Region>, usize) -> Stats>(
        n: usize,
        combos: &Vec<Vec<usize>>,
        regions: &Vec<Region>,
        clients: &Option<Vec<Region>>,
        bote: &F,
    ) -> (css: Vec<ConfigAndStats>)
        requires
            names(regions@).no_duplicates(),
            strictly_increasing(names(regions@)),
            all_index_subsets(combos@.map_values(|c: Vec<usize>| c@), regions.len() as nat, n as nat),
            bote_total(*bote),
        ensures
            level_configs(css@, regions@, *clients, n, *bote),
            level_wf(n, css@),
            level_sorted(n, css@),
    {
        let ghost cs = combos@.map_values(|c: Vec<usize>| c@);
        let mut css: Vec<ConfigAndStats> = Vec::new();
        let mut t: usize = 0;
        while t < combos.len()
            invariant
                cs == combos@.map_values(|c: Vec<usize>| c@),
                names(regions@).no_duplicates(),
                strictly_increasing(names(regions@)),
                all_index_subsets(cs, regions.len() as nat, n as nat),
                bote_total(*bote),
                t <= combos.len(),
                css.len() == t,
                forall|i: int|
                    0 <= i < t ==> config_from(#[trigger] css@[i], regions@, cs[i], *clients, *bote),
                forall|i: int| 0 <= i < t ==> config_wf(n, #[trigger] css@[i]),
            decreases combos.len() - t,
        {
            let combo = &combos[t];
            proof {
                assert(index_subset(cs[t as int], regions.len() as nat, n as nat));
                assert(cs[t as int] == combo@);
            }
            let mut config: Vec<Region> = Vec::new();
            let mut a: usize = 0;
            while a < combo.len()
                invariant
                    index_subset(combo@, regions.len() as nat, n as nat),
                    a <= combo.len(),
                    config@ == select(regions@, combo@.take(a as int)),
                decreases combo.len() - a,
            {
                let r = regions[combo[a]].clone();
                config.push(r);
                a = a + 1;
                proof {
                    assert(config@ =~= select(regions@, combo@.take(a as int)));
                }
            }
            proof {
                assert(combo@.take(combo.len() as int) =~= combo@);
                assert(names(config@).no_duplicates()) by {
                    assert forall|p: int, q: int| 0 <= p < config.len() && 0 <= q < config.len() && p != q
                        implies names(config@)[p] != names(config@)[q] by {
                        assert(combo@[p] != combo@[q]) by {
                            if p < q {
                                assert(combo@[p] < combo@[q]);
                            } else {
                                assert(combo@[q] < combo@[p]);
                            }
                        }
                        assert(names(config@)[p] == names(regions@)[combo@[p] as int]);
                        assert(names(config@)[q] == names(regions@)[combo@[q] as int]);
                    }
                }
            }
            // compute clients and stats
            let stats = match clients {
                Some(cl) => Self::compute_stats(&config, cl, bote),
                None => Self::compute_stats(&config, &config, bote),
            };
            let ghost picked = config;
            // turn config into a set of regions, in increasing order
            let config = sort_regions(config);
            proof {
                assert(stats_of(*bote, picked, clients_for(*clients, picked), stats@));
                assert(picked@ == select(regions@, cs[t as int]));
                assert(strictly_increasing(names(config@)));
                assert forall|x: Seq<char>| #[trigger] names(config@).contains(x) <==> names(
                    select(regions@, cs[t as int]),
                ).contains(x) by {}
                let entry = (config, stats);
                assert(stats_of(*bote, picked, clients_for(*clients, picked), entry.1@));
                assert(config_from(entry, regions@, cs[t as int], *clients, *bote));
                assert forall|k: (StatsKey, usize)| stats_key_present(n as nat, k) implies #[trigger] stats@.contains_key(k) by {}
            }
            css.push((config, stats));
            t = t + 1;
        }
        proof {
            lemma_index_order();
            lemma_lex_strict_total(index_order());
            assert forall|c: int, d: int|
                0 <= c < css.len() && 0 <= d < css.len() && c != d implies names(#[trigger] css@[c].0@)
                    != names(#[trigger] css@[d].0@) by {
                if names(css@[c].0@) == names(css@[d].0@) {
                    assert(config_from(css@[c], regions@, cs[c], *clients, *bote));
                    assert(config_from(css@[d], regions@, cs[d], *clients, *bote));
                    assert(index_subset(cs[c], regions.len() as nat, n as nat));
                    assert(index_subset(cs[d], regions.len() as nat, n as nat));
                    assert forall|x: Seq<char>| names(select(regions@, cs[c])).contains(x) <==> names(
                        select(regions@, cs[d]),
                    ).contains(x) by {
                        assert(names(css@[c].0@).contains(x) == names(css@[d].0@).contains(x));
                    }
                    lemma_same_picks(regions@, cs[c], cs[d], n as nat);
                    if c < d {
                        assert(crate::order::lex_lt(cs[c], cs[d], index_order()));
                    } else {
                        assert(crate::order::lex_lt(cs[d], cs[c], index_order()));
                    }
                }
            }
            assert forall|c: int| 0 <= c < css.len() implies config_wf(n, #[trigger] css@[c]) by {}
        }
        proof {
            assert forall|c: int, d: int|
                0 <= c < d < css.len() implies config_lt(
                    names(#[trigger] css@[c].0@),
                    names(#[trigger] css@[d].0@),
                ) by {
                assert(config_from(css@[c], regions@, cs[c], *clients, *bote));
                assert(config_from(css@[d], regions@, cs[d], *clients, *bote));
                assert(index_subset(cs[c], regions.len() as nat, n as nat));
                assert(index_subset(cs[d], regions.len() as nat, n as nat));
                lemma_select_sorted(regions@, cs[c], n as nat);
                lemma_select_sorted(regions@, cs[d], n as nat);
                lemma_same_sorted_names(names(css@[c].0@), names(select(regions@, cs[c])));
                lemma_same_sorted_names(names(css@[d].0@), names(select(regions@, cs[d])));
                assert(crate::order::lex_lt(cs[c], cs[d], index_order()));
                lemma_picks_ordered(regions@, cs[c], cs[d], n as nat);
            }
            assert(level_sorted(n, css@));
            assert(level_wf(n, css@));
            assert(all_index_subsets(cs, regions.len() as nat, n as nat) && cs.len() == css.len());
        }
        css
    }

    /// Computes the configurations of each size in `(min_n..=max_n).step_by(2)`,
    /// with their statistics.
    fn compute_all_configs<F: Fn(BoteMethod, &Vec<Region>, &Vec<Region>, usize) -> Stats>(
        min_n: usize,
        max_n: usize,
        regions: &Vec<Region>,
        clients: &Option<Vec<Region>>,
        bote: &F,
    ) -> (all: Vec<(usize, Vec<ConfigAndStats>)>)
        requires
            names(regions@).no_duplicates(),
            strictly_increasing(names(regions@)),
            all_combinable(min_n, max_n, regions.len() as nat),
            bote_total(*bote),
        ensures
            stored_wf(all@),
            all.len() == step_count(min_n, max_n),
            forall|j: int|
                0 <= j < all.len() ==> (#[trigger] all@[j]).0 == min_n + 2 * j && level_configs(
                    all@[j].1@,
                    regions@,
                    *clients,
                    all@[j].0,
                    *bote,
                ),
            configs_wf(all@),
    {
        let steps: usize = if min_n <= max_n {
            (max_n - min_n) / 2 + 1
        } else {
            0
        };
        let mut all: Vec<(usize, Vec<ConfigAndStats>)> = Vec::new();
        let mut j: usize = 0;
        while j < steps
            invariant
                steps == step_count(min_n, max_n),
                names(regions@).no_duplicates(),
                strictly_increasing(names(regions@)),
                all_combinable(min_n, max_n, regions.len() as nat),
                bote_total(*bote),
                j <= steps,
                all.len() == j,
                forall|i: int|
                    0 <= i < j ==> (#[trigger] all@[i]).0 == min_n + 2 * i && level_configs(
                        all@[i].1@,
                        regions@,
                        *clients,
                        all@[i].0,
                        *bote,
                    ),
                configs_wf(all@),
                stored_wf(all@),
            decreases steps - j,
        {
            let n = min_n + 2 * j;
            proof {
                assert(combinable(n as nat, regions.len() as nat));
            }
            let combos = combinations(regions.len(), n);
            let configs = Self::configs_from_combinations(n, &combos, regions, clients, bote);
            let ghost before = all@;
            all.push((n, configs));
            proof {
                assert forall|i: int| 0 <= i < all.len() implies level_wf(#[trigger] all@[i].0, all@[i].1@)
                    && level_sorted(all@[i].0, all@[i].1@) by {
                    if i < j {
                        assert(all@[i] == before[i]);
                    }
                }
            }
            j = j + 1;
        }
        all
    }

    /// Computes the statistics of a configuration with the given clients.
    fn compute_stats<F: Fn(BoteMethod, &Vec<Region>, &Vec<Region>, usize) -> Stats>(
        config: &Vec<Region>,
        clients: &Vec<Region>,
        bote: &F,
    ) -> (stats: AllStats)
        requires
            forall|m: BoteMethod, s: &Vec<Region>, c: &Vec<Region>, q: usize|
                bote.requires((m, s, c, q)),
        ensures
            stats_of(*bote, *config, *clients, stats@),
    {
        let n = config.len();
        let mut stats = AllStats::new();
        let max_f = Self::max_f(n);
        let mut f: usize = 1;
        while f <= max_f
            invariant
                n == config.len(),
                max_f == max_f_spec(n as nat),
                1 <= f <= max_f + 1,
                forall|m: BoteMethod, s: &Vec<Region>, c: &Vec<Region>, q: usize|
                    bote.requires((m, s, c, q)),
                forall|k: (StatsKey, usize)|
                    #[trigger] stats@.contains_key(k) <==> (k.0 != StatsKey::EPaxos && 1 <= k.1
                        < f),
                forall|k: (StatsKey, usize)|
                    #[trigger] stats@.contains_key(k) ==> bote.ensures(
                        (
                            key_method(k.0),
                            config,
                            clients,
                            quorum_size_spec(key_protocol(k.0), n as nat, k.1 as nat) as usize,
                        ),
                        stats@[k],
                    ),
            decreases max_f + 1 - f,
        {
            // compute atlas stats
            let atlas = bote(BoteMethod::Leaderless, config, clients, Protocol::Atlas.quorum_size(n, f));
            stats.insert(StatsKey::Atlas, f, atlas);

            // compute best latency fpaxos stats
            let lfpaxos = bote(
                BoteMethod::BestLatencyLeader,
                config,
                clients,
                Protocol::FPaxos.quorum_size(n, f),
            );
            stats.insert(StatsKey::LFPaxos, f, lfpaxos);

            // compute best fairness fpaxos stats
            let ffpaxos = bote(
                BoteMethod::BestFairnessLeader,
                config,
                clients,
                Protocol::FPaxos.quorum_size(n, f),
            );
            stats.insert(StatsKey::FFPaxos, f, ffpaxos);
            f = f + 1;
        }

        // compute epaxos stats
        let epaxos = bote(BoteMethod::Leaderless, config, clients, Protocol::EPaxos.quorum_size(n, 0));
        stats.insert(StatsKey::EPaxos, 0, epaxos);
        stats
    }
}

} // verus!
