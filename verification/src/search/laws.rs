use vstd::prelude::*;
use crate::region::{lemma_config_order, names, Region};
use crate::stats::{quorum_size_spec, BoteMethod, Stats, StatsKey};
use crate::combination::index_subset;
use super::{fmt_fair, fmt_fast, fmt_part, fmt_parts, max_f_spec, stats_fmt_spec, config_from, key_method, key_protocol, level_configs, select, stats_of};
use crate::region::superset_of;
use super::evolving::{chain_entry, chain_score, evolving_refers, evolving_top, lemma_evolving_steps, level};
use crate::stats::stats_text;
use crate::text::{decimal, lemma_decimal_digits, lemma_decimal_injective};
use super::{
    file_name, is_top, lemma_fairness_scores_zero, lemma_ranked_entries, lemma_same_sorted_names,
    ranked_before, ranked_list, refers, score_spec, search_input_name,
    search_inputs_spec, sorted_configs_spec, fs_max, in_range, ConfigAndStats, RankingMetric,
    RankingParams, SearchInput, RankingFT, score_upto, valid_upto, lat_improv_spec, level_css, configs_wf,
    level_wf, lemma_level_of,
};

verus! {

/// Searching among the regions of the end of 2018 does not depend on the
/// planet: any two planets give the same servers and the same clients.
pub proof fn lemma_2018_regions_ignore_planet(
    planet1: Seq<Region>,
    planet2: Seq<Region>,
    regions1: Seq<Region>,
    clients1: Option<Vec<Region>>,
    regions2: Seq<Region>,
    clients2: Option<Vec<Region>>,
)
    requires
        search_inputs_spec(SearchInput::R17C17, planet1, regions1, clients1),
        search_inputs_spec(SearchInput::R17C17, planet2, regions2, clients2),
    ensures
        names(regions1) == names(regions2),
        clients1 is Some && clients2 is Some,
        names(clients1->0@) == names(clients2->0@),
{
}

/// With clients colocated with the servers or deployed everywhere, a search
/// chooses its servers among the same regions, in the same order.
pub proof fn lemma_same_servers_for_any_clients(
    planet: Seq<Region>,
    regions1: Seq<Region>,
    clients1: Option<Vec<Region>>,
    regions2: Seq<Region>,
    clients2: Option<Vec<Region>>,
)
    requires
        search_inputs_spec(SearchInput::R20, planet, regions1, clients1),
        search_inputs_spec(SearchInput::R20C20, planet, regions2, clients2),
    ensures
        names(regions1) == names(regions2),
{
    lemma_same_sorted_names(names(regions1), names(regions2));
}

/// A configuration's validity and score depend only on the latency minimum,
/// the fault tolerance and the metric; ranking by latency and fairness scores
/// as ranking by latency.
pub proof fn lemma_score_depends_on(
    n: nat,
    stats: Map<(StatsKey, usize), Stats>,
    p1: RankingParams,
    p2: RankingParams,
)
    requires
        p1.min_lat_improv == p2.min_lat_improv,
        p1.ranking_ft == p2.ranking_ft,
        p1.ranking_metric == p2.ranking_metric || (p1.ranking_metric != RankingMetric::Fairness
            && p2.ranking_metric != RankingMetric::Fairness),
    ensures
        score_spec(n, stats, p1) == score_spec(n, stats, p2),
{
    lemma_fairness_scores_zero(stats, fs_max(p1.ranking_ft, n));
}

/// A stricter latency minimum only drops configurations from a ranking: what
/// it keeps was kept before, with the same score, and what was kept before and
/// meets the stricter minimum is still kept. Both rankings list their entries
/// by position, so the stricter one is a subsequence of the other.
pub proof fn lemma_stricter_minimum(css: Seq<ConfigAndStats>, n: usize, p1: RankingParams, p2: RankingParams)
    requires
        css.len() <= usize::MAX,
        p1.min_lat_improv <= p2.min_lat_improv,
        p1.ranking_ft == p2.ranking_ft,
        p1.ranking_metric == p2.ranking_metric,
    ensures
        forall|e: (isize, usize)|
            #[trigger] ranked_list(css, n, p2).contains(e) ==> ranked_list(css, n, p1).contains(e),
        forall|e: (isize, usize)|
            #[trigger] ranked_list(css, n, p1).contains(e) && score_spec(n as nat, css[e.1 as int].1@, p2).0
                ==> ranked_list(css, n, p2).contains(e),
{
    lemma_ranked_entries(css, n, p1);
    lemma_ranked_entries(css, n, p2);
    let r1 = ranked_list(css, n, p1);
    let r2 = ranked_list(css, n, p2);
    assert forall|e: (isize, usize)| #[trigger] r2.contains(e) implies r1.contains(e) by {
        let q = choose|q: int| 0 <= q < r2.len() && r2[q] == e;
        assert(r2[q] == e);
        let c = e.1 as int;
        let s1 = score_spec(n as nat, css[c].1@, p1);
        let s2 = score_spec(n as nat, css[c].1@, p2);
        assert(s1.1 == s2.1);
        assert(s1.0);
        let q1 = choose|q1: int| 0 <= q1 < r1.len() && r1[q1].1 == c;
        assert(r1[q1].1 == e.1);
        assert(r1[q1] == e);
    }
    assert forall|e: (isize, usize)|
        #[trigger] r1.contains(e) && score_spec(n as nat, css[e.1 as int].1@, p2).0 implies r2.contains(e) by {
        let q = choose|q: int| 0 <= q < r1.len() && r1[q] == e;
        assert(r1[q] == e);
        let c = e.1 as int;
        let q2 = choose|q2: int| 0 <= q2 < r2.len() && r2[q2].1 == c;
        assert(r2[q2].1 == e.1);
        assert(r2[q2] == e);
    }
}

proof fn lemma_ranked_before_strict(css: Seq<ConfigAndStats>)
    ensures
        forall|x: (isize, usize)| !#[trigger] ranked_before(css, x, x),
        forall|x: (isize, usize), y: (isize, usize), z: (isize, usize)|
            #[trigger] ranked_before(css, x, y) && #[trigger] ranked_before(css, y, z)
                ==> ranked_before(css, x, z),
{
    lemma_config_order();
}

/// In a top list, an entry ranks above every entry of `from` that does not
/// come before it in the list.
proof fn lemma_top_above(t: Seq<(isize, usize)>, from: Seq<(isize, usize)>, css: Seq<ConfigAndStats>, k: nat, i: int, y: (isize, usize))
    requires
        is_top(t, from, css, k),
        0 <= i < t.len(),
        from.contains(y),
        forall|j: int| 0 <= j <= i ==> y != t[j],
    ensures
        ranked_before(css, y, t[i]),
{
    if t.contains(y) {
        let j = choose|j: int| 0 <= j < t.len() && t[j] == y;
        assert(j > i);
    }
}

/// The first `i` entries of two top lists of the same entries agree.
proof fn lemma_top_prefix(
    t1: Seq<(isize, usize)>,
    t2: Seq<(isize, usize)>,
    from: Seq<(isize, usize)>,
    css: Seq<ConfigAndStats>,
    k: nat,
    m: nat,
    i: int,
)
    requires
        is_top(t1, from, css, k),
        is_top(t2, from, css, m),
        k <= m,
        0 <= i <= t1.len(),
    ensures
        t1.len() <= t2.len(),
        forall|j: int| 0 <= j < i ==> t1[j] == t2[j],
    decreases i,
{
    lemma_ranked_before_strict(css);
    if i > 0 {
        lemma_top_prefix(t1, t2, from, css, k, m, i - 1);
        let a = t1[i - 1];
        let b = t2[i - 1];
        if a != b {
            assert(from.contains(a));
            assert(from.contains(b));
            assert forall|j: int| 0 <= j <= i - 1 implies a != t2[j] by {
                if j < i - 1 {
                    assert(t2[j] == t1[j]);
                    assert(ranked_before(css, t1[i - 1], t1[j]));
                }
            }
            assert forall|j: int| 0 <= j <= i - 1 implies b != t1[j] by {
                if j < i - 1 {
                    assert(t2[j] == t1[j]);
                    assert(ranked_before(css, t2[i - 1], t2[j]));
                }
            }
            lemma_top_above(t2, from, css, m, i - 1, a);
            lemma_top_above(t1, from, css, k, i - 1, b);
            assert(ranked_before(css, a, a));
        }
    }
}

/// Asking `sorted_configs` for more configurations of each size only appends
/// lower ranked ones: the shorter answer is a prefix of the longer one.
pub proof fn lemma_sorted_configs_prefix<'a>(
    all: Seq<(usize, Vec<ConfigAndStats>)>,
    params: RankingParams,
    k: nat,
    m: nat,
    sorted1: Map<usize, Vec<(isize, &'a ConfigAndStats)>>,
    sorted2: Map<usize, Vec<(isize, &'a ConfigAndStats)>>,
    n: usize,
)
    requires
        sorted_configs_spec(all, params, k, sorted1),
        sorted_configs_spec(all, params, m, sorted2),
        k <= m,
        sorted1.contains_key(n),
    ensures
        sorted2.contains_key(n),
        sorted1[n].len() <= sorted2[n].len(),
        sorted1[n]@ == sorted2[n]@.take(sorted1[n].len() as int),
{
    let i = choose|i: int| 0 <= i < all.len() && (#[trigger] all[i]).0 == n && in_range(n, params);
    assert(all[i].0 == n);
    let css = all[i].1@;
    let rl = ranked_list(css, n, params);
    let t1 = choose|top: Seq<(isize, usize)>|
        #![trigger is_top(top, ranked_list(all[i].1@, all[i].0, params), all[i].1@, k)]
        is_top(top, ranked_list(all[i].1@, all[i].0, params), all[i].1@, k) && refers(
            sorted1[all[i].0]@,
            top,
            all[i].1@,
        );
    let t2 = choose|top: Seq<(isize, usize)>|
        #![trigger is_top(top, ranked_list(all[i].1@, all[i].0, params), all[i].1@, m)]
        is_top(top, ranked_list(all[i].1@, all[i].0, params), all[i].1@, m) && refers(
            sorted2[all[i].0]@,
            top,
            all[i].1@,
        );
    assert(is_top(t1, rl, css, k) && refers(sorted1[n]@, t1, css));
    assert(is_top(t2, rl, css, m) && refers(sorted2[n]@, t2, css));
    lemma_top_prefix(t1, t2, rl, css, k, m, t1.len() as int);
    let v1 = sorted1[n]@;
    let v2 = sorted2[n]@;
    assert forall|j: int| 0 <= j < v1.len() implies v1[j] == v2.take(v1.len() as int)[j] by {
        assert(t1[j] == t2[j]);
        assert(v1[j].0 == t1[j].0);
        assert(v2[j].0 == t2[j].0);
        assert(*v1[j].1 == css[t1[j].1 as int]);
        assert(*v2[j].1 == css[t2[j].1 as int]);
    }
    assert(v1 =~= v2.take(v1.len() as int));
}

proof fn lemma_split_at_underscore(d1: Seq<char>, r1: Seq<char>, d2: Seq<char>, r2: Seq<char>)
    requires
        d1 + seq!['_'] + r1 == d2 + seq!['_'] + r2,
        forall|i: int| 0 <= i < d1.len() ==> #[trigger] d1[i] != '_',
        forall|i: int| 0 <= i < d2.len() ==> #[trigger] d2[i] != '_',
    ensures
        d1 == d2,
        r1 == r2,
{
    let s1 = d1 + seq!['_'] + r1;
    let s2 = d2 + seq!['_'] + r2;
    if d1.len() < d2.len() {
        assert(s1[d1.len() as int] == '_');
        assert(s2[d1.len() as int] == d2[d1.len() as int]);
    } else if d2.len() < d1.len() {
        assert(s2[d2.len() as int] == '_');
        assert(s1[d2.len() as int] == d1[d2.len() as int]);
    }
    assert(d1 =~= s1.subrange(0, d1.len() as int));
    assert(d2 =~= s2.subrange(0, d2.len() as int));
    assert(r1 =~= s1.subrange(d1.len() as int + 1, s1.len() as int));
    assert(r2 =~= s2.subrange(d2.len() as int + 1, s2.len() as int));
}

proof fn lemma_no_underscore(n: nat)
    ensures
        forall|i: int| 0 <= i < decimal(n).len() ==> #[trigger] decimal(n)[i] != '_',
{
    lemma_decimal_digits(n);
}

/// Different searches are saved under different file names.
pub proof fn lemma_file_names_distinct(
    min1: usize,
    max1: usize,
    input1: SearchInput,
    min2: usize,
    max2: usize,
    input2: SearchInput,
)
    requires
        file_name(min1, max1, input1) == file_name(min2, max2, input2),
    ensures
        min1 == min2,
        max1 == max2,
        input1 == input2,
{
    reveal_strlit("_");
    reveal_strlit(".data");
    reveal_strlit("R20");
    reveal_strlit("R20C20");
    reveal_strlit("R17C17");
    let u = seq!['_'];
    assert("_"@ == u);
    let a1 = decimal(min1 as nat);
    let a2 = decimal(min2 as nat);
    let b1 = decimal(max1 as nat);
    let b2 = decimal(max2 as nat);
    let n1 = search_input_name(input1);
    let n2 = search_input_name(input2);
    let d = ".data"@;
    let rest1 = b1 + u + n1 + d;
    let rest2 = b2 + u + n2 + d;
    assert(file_name(min1, max1, input1) =~= a1 + u + rest1);
    assert(file_name(min2, max2, input2) =~= a2 + u + rest2);
    lemma_no_underscore(min1 as nat);
    lemma_no_underscore(min2 as nat);
    lemma_no_underscore(max1 as nat);
    lemma_no_underscore(max2 as nat);
    lemma_split_at_underscore(a1, rest1, a2, rest2);
    lemma_decimal_injective(min1 as nat, min2 as nat);
    assert(rest1 =~= b1 + u + (n1 + d));
    assert(rest2 =~= b2 + u + (n2 + d));
    lemma_split_at_underscore(b1, n1 + d, b2, n2 + d);
    lemma_decimal_injective(max1 as nat, max2 as nat);
    assert(n1 =~= (n1 + d).subrange(0, n1.len() as int));
    assert(n2 =~= (n2 + d).subrange(0, n2.len() as int));
    assert(n1.len() == n2.len());
    assert(n1 == n2);
    if input1 != input2 {
        match input1 {
            SearchInput::R20 => {},
            SearchInput::R20C20 => {
                if input2 == SearchInput::R17C17 {
                    assert(n1[1] != n2[1]);
                }
            },
            SearchInput::R17C17 => {
                if input2 == SearchInput::R20C20 {
                    assert(n1[1] != n2[1]);
                }
            },
        }
    }
}


proof fn lemma_valid_raw(st: Map<(StatsKey, usize), Stats>, n: usize, params: RankingParams)
    ensures
        valid_upto(st, params.min_lat_improv as int, fs_max(params.ranking_ft, n as nat)) <==> (forall|f: usize|
            1 <= f <= n / 2 && f <= 2 && (params.ranking_ft == RankingFT::F1 ==> f <= 1) ==> #[trigger] st[(
                StatsKey::FFPaxos,
                f,
            )].mean - st[(StatsKey::Atlas, f)].mean >= params.min_lat_improv),
{
    let m = fs_max(params.ranking_ft, n as nat);
    if valid_upto(st, params.min_lat_improv as int, m) {
        assert forall|f: usize|
            1 <= f <= n / 2 && f <= 2 && (params.ranking_ft == RankingFT::F1 ==> f <= 1) implies #[trigger] st[(
                StatsKey::FFPaxos,
                f,
            )].mean - st[(StatsKey::Atlas, f)].mean >= params.min_lat_improv by {
            assert(lat_improv_spec(st, f as nat) >= params.min_lat_improv);
        }
    }
    if forall|f: usize|
        1 <= f <= n / 2 && f <= 2 && (params.ranking_ft == RankingFT::F1 ==> f <= 1) ==> #[trigger] st[(
            StatsKey::FFPaxos,
            f,
        )].mean - st[(StatsKey::Atlas, f)].mean >= params.min_lat_improv {
        assert forall|f: nat| 1 <= f <= m implies #[trigger] lat_improv_spec(st, f) >= params.min_lat_improv by {
            let g = f as usize;
            assert(st[(StatsKey::FFPaxos, g)].mean - st[(StatsKey::Atlas, g)].mean >= params.min_lat_improv);
        }
    }
}

proof fn lemma_member_raw(css: Seq<ConfigAndStats>, n: usize, params: RankingParams, c: int)
    requires
        css.len() <= usize::MAX,
        0 <= c < css.len(),
    ensures
        (exists|q: int| 0 <= q < ranked_list(css, n, params).len() && ranked_list(css, n, params)[q].1 == c)
            <==> (forall|f: usize|
            1 <= f <= n / 2 && f <= 2 && (params.ranking_ft == RankingFT::F1 ==> f <= 1) ==> #[trigger] css[c].1@[(
                StatsKey::FFPaxos,
                f,
            )].mean - css[c].1@[(StatsKey::Atlas, f)].mean >= params.min_lat_improv),
{
    lemma_ranked_entries(css, n, params);
    let rl = ranked_list(css, n, params);
    let m = fs_max(params.ranking_ft, n as nat);
    lemma_valid_raw(css[c].1@, n, params);
    if exists|q: int| 0 <= q < rl.len() && rl[q].1 == c {
        let q = choose|q: int| 0 <= q < rl.len() && rl[q].1 == c;
        assert(score_spec(n as nat, css[rl[q].1 as int].1@, params).0);
    }
    if valid_upto(css[c].1@, params.min_lat_improv as int, m) {
        assert(score_spec(n as nat, css[c].1@, params).0);
    }
}

/// The rule by which configurations are ranked: a configuration of `n`
/// regions is kept exactly when, for every number of faults `f` considered
/// (at most a minority, at most two, only one with `F1`), FPaxos with the
/// fairest leader is slower than Atlas by at least the minimum, whatever the
/// metric; its score is the sum of those differences, or zero by fairness.
pub proof fn lemma_ranking_rule(css: Seq<ConfigAndStats>, n: usize, params: RankingParams)
    requires
        css.len() <= usize::MAX,
    ensures
        forall|c: int|
            #![trigger css[c]]
            0 <= c < css.len() ==> ((exists|q: int|
                0 <= q < ranked_list(css, n, params).len() && ranked_list(css, n, params)[q].1 == c)
                <==> (forall|f: usize|
                1 <= f <= n / 2 && f <= 2 && (params.ranking_ft == RankingFT::F1 ==> f <= 1) ==> #[trigger] css[c].1@[(
                    StatsKey::FFPaxos,
                    f,
                )].mean - css[c].1@[(StatsKey::Atlas, f)].mean >= params.min_lat_improv)),
        forall|q: int|
            0 <= q < ranked_list(css, n, params).len() ==> {
                let s = css[(#[trigger] ranked_list(css, n, params)[q]).1 as int].1@;
                ranked_list(css, n, params)[q].0 == (if params.ranking_metric == RankingMetric::Fairness {
                    0int
                } else {
                    (if n >= 2 {
                        s[(StatsKey::FFPaxos, 1usize)].mean - s[(StatsKey::Atlas, 1usize)].mean
                    } else {
                        0int
                    }) + (if n >= 4 && params.ranking_ft == RankingFT::F1F2 {
                        s[(StatsKey::FFPaxos, 2usize)].mean - s[(StatsKey::Atlas, 2usize)].mean
                    } else {
                        0int
                    })
                })
            },
{
    let rl = ranked_list(css, n, params);
    assert forall|c: int| #![trigger css[c]] 0 <= c < css.len() implies ((exists|q: int|
        0 <= q < ranked_list(css, n, params).len() && ranked_list(css, n, params)[q].1 == c) <==> (forall|f: usize|
        1 <= f <= n / 2 && f <= 2 && (params.ranking_ft == RankingFT::F1 ==> f <= 1) ==> #[trigger] css[c].1@[(
            StatsKey::FFPaxos,
            f,
        )].mean - css[c].1@[(StatsKey::Atlas, f)].mean >= params.min_lat_improv)) by {
        lemma_member_raw(css, n, params, c);
    }
    assert forall|q: int| 0 <= q < rl.len() implies {
        let s = css[(#[trigger] rl[q]).1 as int].1@;
        rl[q].0 == (if params.ranking_metric == RankingMetric::Fairness {
            0int
        } else {
            (if n >= 2 {
                s[(StatsKey::FFPaxos, 1usize)].mean - s[(StatsKey::Atlas, 1usize)].mean
            } else {
                0int
            }) + (if n >= 4 && params.ranking_ft == RankingFT::F1F2 {
                s[(StatsKey::FFPaxos, 2usize)].mean - s[(StatsKey::Atlas, 2usize)].mean
            } else {
                0int
            })
        })
    } by {
        lemma_ranked_entries(css, n, params);
        let s = css[rl[q].1 as int].1@;
        assert(score_spec(n as nat, s, params).1 == rl[q].0);
        reveal_with_fuel(score_upto, 3);
        assert(lat_improv_spec(s, 1) == s[(StatsKey::FFPaxos, 1usize)].mean - s[(StatsKey::Atlas, 1usize)].mean);
        assert(lat_improv_spec(s, 2) == s[(StatsKey::FFPaxos, 2usize)].mean - s[(StatsKey::Atlas, 2usize)].mean);
    }
}


/// Every configuration that `sorted_configs` gives for `n` regions is one of
/// the search's configurations of `n` regions on which, for every number of
/// faults considered, Atlas beats FPaxos with the fairest leader by at least
/// the minimum, whatever the metric; it comes with the sum of those margins as
/// its score, or zero by fairness.
pub proof fn lemma_sorted_configs_rule<'a>(
    all: Seq<(usize, Vec<ConfigAndStats>)>,
    params: RankingParams,
    k: nat,
    sorted: Map<usize, Vec<(isize, &'a ConfigAndStats)>>,
    n: usize,
)
    requires
        configs_wf(all),
        sorted_configs_spec(all, params, k, sorted),
        sorted.contains_key(n),
    ensures
        forall|i: int|
            0 <= i < sorted[n].len() ==> {
                let e = #[trigger] sorted[n]@[i];
                let s = e.1.1@;
                &&& level_css(all, n).contains(*e.1)
                &&& forall|f: usize|
                    1 <= f <= n / 2 && f <= 2 && (params.ranking_ft == RankingFT::F1 ==> f <= 1)
                        ==> #[trigger] s[(StatsKey::FFPaxos, f)].mean - s[(StatsKey::Atlas, f)].mean
                        >= params.min_lat_improv
                &&& e.0 == (if params.ranking_metric == RankingMetric::Fairness {
                    0int
                } else {
                    (if n >= 2 {
                        s[(StatsKey::FFPaxos, 1usize)].mean - s[(StatsKey::Atlas, 1usize)].mean
                    } else {
                        0int
                    }) + (if n >= 4 && params.ranking_ft == RankingFT::F1F2 {
                        s[(StatsKey::FFPaxos, 2usize)].mean - s[(StatsKey::Atlas, 2usize)].mean
                    } else {
                        0int
                    })
                })
            },
{
    let i0 = choose|i: int| 0 <= i < all.len() && (#[trigger] all[i]).0 == n && in_range(n, params);
    assert(all[i0].0 == n);
    lemma_level_of(all, i0);
    let css = all[i0].1@;
    assert(level_wf(n, css));
    lemma_ranking_rule(css, n, params);
    lemma_ranked_entries(css, n, params);
    let rl = ranked_list(css, n, params);
    let top = choose|top: Seq<(isize, usize)>|
        #![trigger is_top(top, ranked_list(all[i0].1@, all[i0].0, params), all[i0].1@, k)]
        is_top(top, ranked_list(all[i0].1@, all[i0].0, params), all[i0].1@, k) && refers(
            sorted[all[i0].0]@,
            top,
            all[i0].1@,
        );
    assert(is_top(top, rl, css, k));
    assert forall|i: int| 0 <= i < sorted[n].len() implies {
        let e = #[trigger] sorted[n]@[i];
        let s = e.1.1@;
        &&& level_css(all, n).contains(*e.1)
        &&& forall|f: usize|
            1 <= f <= n / 2 && f <= 2 && (params.ranking_ft == RankingFT::F1 ==> f <= 1)
                ==> #[trigger] s[(StatsKey::FFPaxos, f)].mean - s[(StatsKey::Atlas, f)].mean
                >= params.min_lat_improv
        &&& e.0 == (if params.ranking_metric == RankingMetric::Fairness {
            0int
        } else {
            (if n >= 2 {
                s[(StatsKey::FFPaxos, 1usize)].mean - s[(StatsKey::Atlas, 1usize)].mean
            } else {
                0int
            }) + (if n >= 4 && params.ranking_ft == RankingFT::F1F2 {
                s[(StatsKey::FFPaxos, 2usize)].mean - s[(StatsKey::Atlas, 2usize)].mean
            } else {
                0int
            })
        })
    } by {
        assert(rl.contains(top[i]));
        let q = choose|q: int| 0 <= q < rl.len() && rl[q] == top[i];
        assert(rl[q] == top[i]);
        let c = top[i].1 as int;
        assert(exists|p: int| 0 <= p < rl.len() && rl[p].1 == c);
        assert(css[c] == css[c]);
        assert(css.contains(css[c]));
    }
}


/// The score of a configuration of `n` regions with statistics `s`: by how much
/// FPaxos with the fairest leader is slower than Atlas, summed over the numbers
/// of faults considered, or zero when ranking by fairness.
pub open spec fn margin_score(params: RankingParams, n: usize, s: Map<(StatsKey, usize), Stats>) -> int {
    if params.ranking_metric == RankingMetric::Fairness {
        0int
    } else {
        (if n >= 2 {
            s[(StatsKey::FFPaxos, 1usize)].mean - s[(StatsKey::Atlas, 1usize)].mean
        } else {
            0int
        }) + (if n >= 4 && params.ranking_ft == RankingFT::F1F2 {
            s[(StatsKey::FFPaxos, 2usize)].mean - s[(StatsKey::Atlas, 2usize)].mean
        } else {
            0int
        })
    }
}

proof fn lemma_score_raw(n: usize, s: Map<(StatsKey, usize), Stats>, params: RankingParams)
    ensures
        score_spec(n as nat, s, params).1 == margin_score(params, n, s),
{
    reveal_with_fuel(score_upto, 3);
    assert(lat_improv_spec(s, 1) == s[(StatsKey::FFPaxos, 1usize)].mean - s[(StatsKey::Atlas, 1usize)].mean);
    assert(lat_improv_spec(s, 2) == s[(StatsKey::FFPaxos, 2usize)].mean - s[(StatsKey::Atlas, 2usize)].mean);
}

/// What `sorted_evolving_configs` gives: at most `max` evolving
/// configurations, highest score first; each goes through 3, 5, ..., 13
/// regions, every step a configuration of the search on which Atlas beats
/// FPaxos with the fairest leader by at least the minimum for every number of
/// faults considered, every step keeping the regions of the one before and
/// making Atlas' mean latency with one fault lower by at least
/// `min_lat_decrease`; the score is the sum of the steps' scores.
pub proof fn lemma_evolving_rule<'a>(
    all: Seq<(usize, Vec<ConfigAndStats>)>,
    params: RankingParams,
    max: nat,
    out: Seq<(isize, Vec<&'a ConfigAndStats>)>,
)
    requires
        configs_wf(all),
        exists|top: Seq<(isize, Seq<(isize, usize)>)>|
            evolving_top(all, params, max, top) && evolving_refers(all, top, out),
    ensures
        out.len() <= max,
        forall|i: int, j: int| 0 <= i < j < out.len() ==> out[j].0 <= out[i].0,
        forall|i: int|
            0 <= i < out.len() ==> (#[trigger] out[i]).1.len() == 6 && out[i].0 == margin_score(
                params,
                3,
                out[i].1@[0].1@,
            ) + margin_score(params, 5, out[i].1@[1].1@) + margin_score(params, 7, out[i].1@[2].1@)
                + margin_score(params, 9, out[i].1@[3].1@) + margin_score(params, 11, out[i].1@[4].1@)
                + margin_score(params, 13, out[i].1@[5].1@),
        forall|i: int, k: int|
            0 <= i < out.len() && 0 <= k < 6 ==> {
                let cs = *(#[trigger] out[i].1@[k]);
                let n = (3 + 2 * k) as usize;
                &&& cs.0.len() == n
                &&& level_css(all, n).contains(cs)
                &&& forall|f: usize|
                    1 <= f <= n / 2 && f <= 2 && (params.ranking_ft == RankingFT::F1 ==> f <= 1)
                        ==> #[trigger] cs.1@[(StatsKey::FFPaxos, f)].mean - cs.1@[(StatsKey::Atlas, f)].mean
                        >= params.min_lat_improv
            },
        forall|i: int, k: int|
            0 <= i < out.len() && 1 <= k < 6 ==> {
                let prev = *out[i].1@[k - 1];
                let cur = *(#[trigger] out[i].1@[k]);
                &&& forall|x: Seq<char>| names(prev.0@).contains(x) ==> names(cur.0@).contains(x)
                &&& prev.1@[(StatsKey::Atlas, 1usize)].mean - cur.1@[(StatsKey::Atlas, 1usize)].mean
                    >= params.min_lat_decrease
            },
{
    let top = choose|top: Seq<(isize, Seq<(isize, usize)>)>|
        evolving_top(all, params, max, top) && evolving_refers(all, top, out);
    lemma_evolving_steps(all, params, max, top);
    assert forall|i: int, j: int| 0 <= i < j < out.len() implies out[j].0 <= out[i].0 by {
        assert(out[i].0 == top[i].0 && out[j].0 == top[j].0);
    }
    assert forall|i: int, k: int| 0 <= i < out.len() && 0 <= k < 6 implies {
        let cs = *(#[trigger] out[i].1@[k]);
        let n = (3 + 2 * k) as usize;
        &&& cs.0.len() == n
        &&& level_css(all, n).contains(cs)
        &&& forall|f: usize|
            1 <= f <= n / 2 && f <= 2 && (params.ranking_ft == RankingFT::F1 ==> f <= 1)
                ==> #[trigger] cs.1@[(StatsKey::FFPaxos, f)].mean - cs.1@[(StatsKey::Atlas, f)].mean
                >= params.min_lat_improv
    } by {
        let cs = chain_entry(all, k, top[i].1[k]);
        assert(*out[i].1@[k] == cs);
        assert(level(k) == (3 + 2 * k) as usize);
        lemma_valid_raw(cs.1@, level(k), params);
    }
    assert forall|i: int, k: int| 0 <= i < out.len() && 1 <= k < 6 implies {
        let prev = *out[i].1@[k - 1];
        let cur = *(#[trigger] out[i].1@[k]);
        &&& forall|x: Seq<char>| names(prev.0@).contains(x) ==> names(cur.0@).contains(x)
        &&& prev.1@[(StatsKey::Atlas, 1usize)].mean - cur.1@[(StatsKey::Atlas, 1usize)].mean
            >= params.min_lat_decrease
    } by {
        assert(*out[i].1@[k - 1] == chain_entry(all, k - 1, top[i].1[k - 1]));
        assert(*out[i].1@[k] == chain_entry(all, k, top[i].1[k]));
        assert(superset_of(names(chain_entry(all, k, top[i].1[k]).0@), names(chain_entry(all, k - 1, top[i].1[k - 1]).0@)));
    }
    assert forall|i: int| 0 <= i < out.len() implies (#[trigger] out[i]).1.len() == 6 && out[i].0 == margin_score(
        params,
        3,
        out[i].1@[0].1@,
    ) + margin_score(params, 5, out[i].1@[1].1@) + margin_score(params, 7, out[i].1@[2].1@)
        + margin_score(params, 9, out[i].1@[3].1@) + margin_score(params, 11, out[i].1@[4].1@)
        + margin_score(params, 13, out[i].1@[5].1@) by {
        let c = top[i].1;
        assert(c.len() == 6);
        reveal_with_fuel(chain_score, 7);
        assert(c.drop_last().drop_last().drop_last().drop_last().drop_last().drop_last().len() == 0);
        assert forall|k: int| 0 <= k < 6 implies #[trigger] c[k].0 == margin_score(params, level(k), out[i].1@[k].1@) by {
            let cs = chain_entry(all, k, c[k]);
            assert(*out[i].1@[k] == cs);
            lemma_score_raw(level(k), cs.1@, params);
        }
        assert(level(0) == 3 && level(1) == 5 && level(2) == 7 && level(3) == 9 && level(4) == 11 && level(5) == 13);
        assert(c[0].0 + c[1].0 + c[2].0 + c[3].0 + c[4].0 + c[5].0 == chain_score(c)) by {
            let d5 = c.drop_last();
            let d4 = d5.drop_last();
            let d3 = d4.drop_last();
            let d2 = d3.drop_last();
            let d1 = d2.drop_last();
            let d0 = d1.drop_last();
            assert(chain_score(d0) == 0);
            assert(chain_score(d1) == c[0].0);
            assert(chain_score(d2) == c[0].0 + c[1].0);
            assert(chain_score(d3) == c[0].0 + c[1].0 + c[2].0);
            assert(chain_score(d4) == c[0].0 + c[1].0 + c[2].0 + c[3].0);
            assert(chain_score(d5) == c[0].0 + c[1].0 + c[2].0 + c[3].0 + c[4].0);
        }
        assert(out[i].0 == top[i].0);
    }
}


/// In a search, the statistics of each configuration (the `i`-th one of `n`
/// regions, in the `j`-th size) are what `bote` gives for the configuration's regions, with the search's clients or,
/// when it has none (as with `R20`), with the configuration's own regions as
/// clients, for each protocol's method and quorum size.
/// `cs` holds the statistics of a configuration of `n` regions that `bote`
/// gives when the servers are `v`, a list of the configuration's regions, and
/// the clients are `clients`, or `v` itself when there are none.
pub open spec fn measured_on<F: Fn(BoteMethod, &Vec<Region>, &Vec<Region>, usize) -> Stats>(
    bote: F,
    v: Vec<Region>,
    clients: Option<Vec<Region>>,
    n: usize,
    cs: ConfigAndStats,
) -> bool {
    &&& v.len() == n
    &&& forall|x: Seq<char>| #[trigger] names(v@).contains(x) <==> names(cs.0@).contains(x)
    &&& forall|k: (StatsKey, usize)|
        #[trigger] cs.1@.contains_key(k) ==> {
            let q = quorum_size_spec(key_protocol(k.0), n as nat, k.1 as nat) as usize;
            &&& clients is Some ==> bote.ensures((key_method(k.0), &v, &clients->0, q), cs.1@[k])
            &&& clients is None ==> bote.ensures((key_method(k.0), &v, &v, q), cs.1@[k])
        }
}

proof fn lemma_config_stats<F: Fn(BoteMethod, &Vec<Region>, &Vec<Region>, usize) -> Stats>(
    regions: Seq<Region>,
    clients: Option<Vec<Region>>,
    all: Seq<(usize, Vec<ConfigAndStats>)>,
    bote: F,
    j: int,
    i: int,
)
    requires
        0 <= j < all.len(),
        0 <= i < all[j].1.len(),
        level_configs(all[j].1@, regions, clients, all[j].0, bote),
    ensures
        exists|v: Vec<Region>| #[trigger] measured_on(bote, v, clients, all[j].0, all[j].1@[i]),
{
        let css = all[j].1@;
        let n = all[j].0;
        assert(level_configs(all[j].1@, regions, clients, n, bote));
        let picks = choose|picks: Seq<Seq<usize>>|
            #[trigger] crate::combination::all_index_subsets(picks, regions.len() as nat, n as nat)
                && picks.len() == css.len() && forall|t: int|
                0 <= t < css.len() ==> config_from(#[trigger] css[t], regions, picks[t], clients, bote);
        let cs = css[i];
        assert(config_from(cs, regions, picks[i], clients, bote));
        assert(index_subset(picks[i], regions.len() as nat, n as nat));
        let v = choose|v: Vec<Region>|
            #[trigger] stats_of(bote, v, super::clients_for(clients, v), cs.1@) && v@ == select(regions, picks[i]);
        assert(v.len() == n);
        assert forall|x: Seq<char>| #[trigger] names(v@).contains(x) <==> names(cs.0@).contains(x) by {
            assert(names(v@) == names(select(regions, picks[i])));
        }
        assert forall|k: (StatsKey, usize)| #[trigger] cs.1@.contains_key(k) implies {
            let q = quorum_size_spec(key_protocol(k.0), v.len() as nat, k.1 as nat) as usize;
            &&& clients is Some ==> bote.ensures((key_method(k.0), &v, &clients->0, q), cs.1@[k])
            &&& clients is None ==> bote.ensures((key_method(k.0), &v, &v, q), cs.1@[k])
        } by {}
        assert(measured_on(bote, v, clients, n, cs));
}

pub proof fn lemma_search_stats<F: Fn(BoteMethod, &Vec<Region>, &Vec<Region>, usize) -> Stats>(
    input: SearchInput,
    planet: Seq<Region>,
    regions: Seq<Region>,
    clients: Option<Vec<Region>>,
    all: Seq<(usize, Vec<ConfigAndStats>)>,
    bote: F,
    j: int,
    i: int,
)
    requires
        search_inputs_spec(input, planet, regions, clients),
        forall|j: int|
            0 <= j < all.len() ==> level_configs((#[trigger] all[j]).1@, regions, clients, all[j].0, bote),
        0 <= j < all.len(),
        0 <= i < all[j].1.len(),
    ensures
        input == SearchInput::R20 ==> clients is None,
        exists|v: Vec<Region>| #[trigger] measured_on(bote, v, clients, all[j].0, all[j].1@[i]),
{
    lemma_config_stats(regions, clients, all, bote, j, i);
}


/// `piece` appears somewhere in `text`.
pub open spec fn occurs(text: Seq<char>, piece: Seq<char>) -> bool {
    exists|i: int| 0 <= i && i + piece.len() <= text.len() && #[trigger] text.subrange(i, i + piece.len()) == piece
}

proof fn lemma_occurs_at(text: Seq<char>, piece: Seq<char>, i: int)
    requires
        0 <= i,
        i + piece.len() <= text.len(),
        text.subrange(i, i + piece.len()) =~= piece,
    ensures
        occurs(text, piece),
{
}

proof fn lemma_occurs_in_left(a: Seq<char>, b: Seq<char>, piece: Seq<char>)
    requires
        occurs(a, piece),
    ensures
        occurs(a + b, piece),
{
    let i = choose|i: int| 0 <= i && i + piece.len() <= a.len() && #[trigger] a.subrange(i, i + piece.len()) == piece;
    assert((a + b).subrange(i, i + piece.len()) =~= a.subrange(i, i + piece.len()));
    lemma_occurs_at(a + b, piece, i);
}

proof fn lemma_occurs_in_right(a: Seq<char>, b: Seq<char>, piece: Seq<char>)
    requires
        occurs(b, piece),
    ensures
        occurs(a + b, piece),
{
    let i = choose|i: int| 0 <= i && i + piece.len() <= b.len() && #[trigger] b.subrange(i, i + piece.len()) == piece;
    assert((a + b).subrange(a.len() + i, a.len() + i + piece.len()) =~= b.subrange(i, i + piece.len()));
    lemma_occurs_at(a + b, piece, a.len() + i);
}

/// What the statistics text shows of Atlas with `f` faults.
pub open spec fn atlas_piece(stats: Map<(StatsKey, usize), Stats>, f: usize) -> Seq<char> {
    "a"@ + decimal(f as nat) + "="@ + stats_text(stats[(StatsKey::Atlas, f)])
}

/// What the statistics text shows of FPaxos with the fairest leader with `f` faults.
pub open spec fn fair_piece(stats: Map<(StatsKey, usize), Stats>, f: usize) -> Seq<char> {
    "ff"@ + decimal(f as nat) + "="@ + stats_text(stats[(StatsKey::FFPaxos, f)])
}

/// What the statistics text shows of FPaxos with the fastest leader with `f` faults.
pub open spec fn fast_piece(stats: Map<(StatsKey, usize), Stats>, f: usize) -> Seq<char> {
    "lf"@ + decimal(f as nat) + "="@ + stats_text(stats[(StatsKey::LFPaxos, f)])
}

proof fn lemma_part_pieces(stats: Map<(StatsKey, usize), Stats>, f: usize, include_lfpaxos: bool)
    ensures
        occurs(fmt_part(stats, f as nat, include_lfpaxos), atlas_piece(stats, f)),
        occurs(fmt_part(stats, f as nat, include_lfpaxos), fair_piece(stats, f)),
        include_lfpaxos ==> occurs(fmt_part(stats, f as nat, include_lfpaxos), fast_piece(stats, f)),
{
    reveal_strlit(" ff");
    reveal_strlit("ff");
    reveal_strlit(" ");
    let d = decimal(f as nat);
    let ta = stats_text(stats[(StatsKey::Atlas, f)]);
    let tf = stats_text(stats[(StatsKey::FFPaxos, f)]);
    let fair = fmt_fair(stats, f as nat);
    let a = atlas_piece(stats, f);
    let ff = fair_piece(stats, f);
    assert(" ff"@ =~= " "@ + "ff"@);
    assert(fair =~= a + (" "@ + ff + " "@));
    lemma_occurs_at(a, a, 0);
    lemma_occurs_in_left(a, " "@ + ff + " "@, a);
    assert(" "@ + ff + " "@ =~= " "@ + (ff + " "@));
    lemma_occurs_at(ff, ff, 0);
    lemma_occurs_in_left(ff, " "@, ff);
    lemma_occurs_in_right(" "@, ff + " "@, ff);
    lemma_occurs_in_right(a, " "@ + ff + " "@, ff);
    let lf = fast_piece(stats, f);
    let fast = fmt_fast(stats, f as nat);
    assert(fast =~= lf + " "@);
    lemma_occurs_at(lf, lf, 0);
    lemma_occurs_in_left(lf, " "@, lf);
    if include_lfpaxos {
        lemma_occurs_in_left(fair, fast, a);
        lemma_occurs_in_left(fair, fast, ff);
        lemma_occurs_in_right(fair, fast, lf);
    }
}

proof fn lemma_parts_pieces(stats: Map<(StatsKey, usize), Stats>, m: nat, include_lfpaxos: bool, f: usize)
    requires
        1 <= f <= m,
    ensures
        occurs(fmt_parts(stats, m, include_lfpaxos), atlas_piece(stats, f)),
        occurs(fmt_parts(stats, m, include_lfpaxos), fair_piece(stats, f)),
        include_lfpaxos ==> occurs(fmt_parts(stats, m, include_lfpaxos), fast_piece(stats, f)),
    decreases m,
{
    let before = fmt_parts(stats, (m - 1) as nat, include_lfpaxos);
    let part = fmt_part(stats, m, include_lfpaxos);
    assert(fmt_parts(stats, m, include_lfpaxos) == before + part);
    if f == m {
        lemma_part_pieces(stats, f, include_lfpaxos);
        lemma_occurs_in_right(before, part, atlas_piece(stats, f));
        lemma_occurs_in_right(before, part, fair_piece(stats, f));
        if include_lfpaxos {
            lemma_occurs_in_right(before, part, fast_piece(stats, f));
        }
    } else {
        lemma_parts_pieces(stats, (m - 1) as nat, include_lfpaxos, f);
        lemma_occurs_in_left(before, part, atlas_piece(stats, f));
        lemma_occurs_in_left(before, part, fair_piece(stats, f));
        if include_lfpaxos {
            lemma_occurs_in_left(before, part, fast_piece(stats, f));
        }
    }
}

/// The text of `stats_fmt` shows, for every number of faults `f` up to a
/// minority and at most two, Atlas and FPaxos with the fairest leader, and
/// FPaxos with the fastest leader when asked; it ends with EPaxos.
pub proof fn lemma_stats_fmt_shows_every_f(stats: Map<(StatsKey, usize), Stats>, n: nat, include_lfpaxos: bool, f: usize)
    requires
        1 <= f <= n / 2,
        f <= 2,
    ensures
        occurs(stats_fmt_spec(stats, n, include_lfpaxos), atlas_piece(stats, f)),
        occurs(stats_fmt_spec(stats, n, include_lfpaxos), fair_piece(stats, f)),
        include_lfpaxos ==> occurs(stats_fmt_spec(stats, n, include_lfpaxos), fast_piece(stats, f)),
{
    let parts = fmt_parts(stats, max_f_spec(n), include_lfpaxos);
    let tail = "e="@ + stats_text(stats[(StatsKey::EPaxos, 0usize)]);
    assert(stats_fmt_spec(stats, n, include_lfpaxos) =~= parts + tail);
    lemma_parts_pieces(stats, max_f_spec(n), include_lfpaxos, f);
    lemma_occurs_in_left(parts, tail, atlas_piece(stats, f));
    lemma_occurs_in_left(parts, tail, fair_piece(stats, f));
    if include_lfpaxos {
        lemma_occurs_in_left(parts, tail, fast_piece(stats, f));
    }
}

/// The text of `stats_fmt` ends with EPaxos' statistics.
pub proof fn lemma_stats_fmt_ends_with_epaxos(stats: Map<(StatsKey, usize), Stats>, n: nat, include_lfpaxos: bool)
    ensures
        ({
            let text = stats_fmt_spec(stats, n, include_lfpaxos);
            let tail = "e="@ + stats_text(stats[(StatsKey::EPaxos, 0usize)]);
            text.len() >= tail.len() && text.subrange(text.len() - tail.len(), text.len() as int) == tail
        }),
{
    let parts = fmt_parts(stats, max_f_spec(n), include_lfpaxos);
    let tail = "e="@ + stats_text(stats[(StatsKey::EPaxos, 0usize)]);
    let text = stats_fmt_spec(stats, n, include_lfpaxos);
    assert(text =~= parts + tail);
    assert(text.subrange(text.len() - tail.len(), text.len() as int) =~= tail);
}

} // verus!
