use vstd::prelude::*;
use crate::stats::StatsKey;
use crate::order::{lemma_lex_strict_total, lex_lt, lex_lt_at, lex_order, text_order, Precedence};
use crate::region::{compare_configs, lemma_config_order, lemma_config_order_strict_total, names};
use super::{
    score_spec, configs_wf, config_wf, extends, has_level, in_range, lemma_level_of, lemma_ranked_list_positions,
    level_css, level_of, level_wf, rank_spec, ranked_list, stats_key_present, super_list,
    ConfigAndStats, RankingParams, Search,
};

verus! {

/// The number of regions at step `k` of an evolving configuration: 3, 5, ..., 13.
pub open spec fn level(k: int) -> usize {
    (3 + 2 * k) as usize
}

/// The configuration that the ranked entry `e` stands for at step `k`.
pub open spec fn chain_entry(
    all: Seq<(usize, Vec<ConfigAndStats>)>,
    k: int,
    e: (isize, usize),
) -> ConfigAndStats {
    level_css(all, level(k))[e.1 as int]
}

/// `c` is an evolving configuration, or a beginning of one: a ranked
/// configuration of 3 regions, then of 5, and so on, each one extending the one
/// before.
pub open spec fn valid_chain(
    all: Seq<(usize, Vec<ConfigAndStats>)>,
    params: RankingParams,
    c: Seq<(isize, usize)>,
) -> bool {
    &&& 1 <= c.len() <= 6
    &&& chain_ranked(all, params, c)
    &&& chain_extends(all, params, c)
}

/// Every step of `c` is a ranked configuration of its number of regions.
pub open spec fn chain_ranked(
    all: Seq<(usize, Vec<ConfigAndStats>)>,
    params: RankingParams,
    c: Seq<(isize, usize)>,
) -> bool {
    &&& forall|k: int| 0 <= k < c.len() ==> #[trigger] has_level(all, level(k))
    &&& forall|k: int|
        0 <= k < c.len() ==> ranked_list(level_css(all, level(k)), level(k), params).contains(
            #[trigger] c[k],
        )
}

/// Every step of `c` extends the one before.
pub open spec fn chain_extends(
    all: Seq<(usize, Vec<ConfigAndStats>)>,
    params: RankingParams,
    c: Seq<(isize, usize)>,
) -> bool {
    forall|k: int|
        1 <= k < c.len() ==> extends(
            chain_entry(all, k - 1, c[k - 1]),
            chain_entry(all, k, #[trigger] c[k]),
            params,
        )
}

/// The score of an evolving configuration: the sum of its steps' scores.
pub open spec fn chain_score(c: Seq<(isize, usize)>) -> int
    decreases c.len(),
{
    if c.len() == 0 {
        0
    } else {
        chain_score(c.drop_last()) + c.last().0
    }
}

/// The configurations of every step that some evolving configuration reaches
/// are there.
pub open spec fn evolving_defined(all: Seq<(usize, Vec<ConfigAndStats>)>, params: RankingParams) -> bool {
    &&& has_level(all, 3)
    &&& forall|c: Seq<(isize, usize)>|
        #[trigger] valid_chain(all, params, c) && c.len() < 6 ==> has_level(
            all,
            level(c.len() as int),
        )
}

/// `chains` holds every beginning of `len` steps of an evolving configuration
/// exactly once, each with its score.
pub open spec fn chains_at(
    all: Seq<(usize, Vec<ConfigAndStats>)>,
    params: RankingParams,
    chains: Seq<(isize, Vec<(isize, usize)>)>,
    len: nat,
) -> bool {
    &&& forall|i: int|
        0 <= i < chains.len() ==> {
            &&& valid_chain(all, params, (#[trigger] chains[i]).1@)
            &&& chains[i].1@.len() == len
            &&& chains[i].0 == chain_score(chains[i].1@)
            &&& -131070 * len <= chains[i].0 <= 131070 * len
        }
    &&& forall|c: Seq<(isize, usize)>|
        #[trigger] valid_chain(all, params, c) && c.len() == len ==> exists|i: int|
            0 <= i < chains.len() && chains[i].1@ == c
    &&& forall|i: int, j: int|
        0 <= i < chains.len() && 0 <= j < chains.len() && i != j ==> (#[trigger] chains[i]).1@
            != (#[trigger] chains[j]).1@
}

proof fn lemma_super_list(
    rl: Seq<(isize, usize)>,
    css: Seq<ConfigAndStats>,
    prev: ConfigAndStats,
    params: RankingParams,
)
    ensures
        forall|e: (isize, usize)|
            #[trigger] super_list(rl, css, prev, params).contains(e) <==> rl.contains(e) && extends(
                prev,
                css[e.1 as int],
                params,
            ),
        rl.no_duplicates() ==> super_list(rl, css, prev, params).no_duplicates(),
    decreases rl.len(),
{
    if rl.len() > 0 {
        let d = rl.drop_last();
        let sub = super_list(d, css, prev, params);
        lemma_super_list(d, css, prev, params);
        let x = rl.last();
        assert(rl =~= d.push(x));
        assert forall|e: (isize, usize)|
            #[trigger] super_list(rl, css, prev, params).contains(e) <==> rl.contains(e) && extends(
                prev,
                css[e.1 as int],
                params,
            ) by {
            if rl.contains(e) {
                let i = choose|i: int| 0 <= i < rl.len() && rl[i] == e;
                if i < d.len() {
                    assert(d[i] == e);
                }
            }
            if d.contains(e) {
                let i = choose|i: int| 0 <= i < d.len() && d[i] == e;
                assert(rl[i] == e);
            }
            if extends(prev, css[x.1 as int], params) {
                let sp = sub.push(x);
                if sp.contains(e) {
                    let i = choose|i: int| 0 <= i < sp.len() && sp[i] == e;
                    if i < sub.len() {
                        assert(sub[i] == e);
                    }
                }
                if sub.contains(e) {
                    let i = choose|i: int| 0 <= i < sub.len() && sub[i] == e;
                    assert(sp[i] == e);
                }
                if e == x {
                    assert(sp[sub.len() as int] == e);
                }
            }
        }
        if rl.no_duplicates() {
            assert(d.no_duplicates()) by {
                assert forall|i: int, j: int| 0 <= i < d.len() && 0 <= j < d.len() && i != j implies d[i]
                    != d[j] by {
                    assert(rl[i] == d[i] && rl[j] == d[j]);
                }
            }
            if extends(prev, css[x.1 as int], params) {
                let sp = sub.push(x);
                assert(!d.contains(x)) by {
                    if d.contains(x) {
                        let i = choose|i: int| 0 <= i < d.len() && d[i] == x;
                        assert(rl[i] == rl[rl.len() - 1]);
                    }
                }
                assert(!sub.contains(x));
                assert forall|i: int, j: int| 0 <= i < sp.len() && 0 <= j < sp.len() && i != j implies sp[i]
                    != sp[j] by {
                    if i < sub.len() && j < sub.len() {
                        assert(sp[i] == sub[i] && sp[j] == sub[j]);
                    } else if i < sub.len() {
                        assert(sub.contains(sp[i]));
                    } else if j < sub.len() {
                        assert(sub.contains(sp[j]));
                    }
                }
            }
        }
    }
}

/// A copy of a list of ranked entries.
fn copy_entries(list: &Vec<(isize, usize)>) -> (c: Vec<(isize, usize)>)
    ensures
        c@ == list@,
{
    let mut c: Vec<(isize, usize)> = Vec::new();
    let mut t: usize = 0;
    while t < list.len()
        invariant
            t <= list.len(),
            c@ == list@.take(t as int),
        decreases list.len() - t,
    {
        c.push(list[t]);
        t = t + 1;
        proof {
            assert(c@ =~= list@.take(t as int));
        }
    }
    proof {
        assert(list@.take(list.len() as int) =~= list@);
    }
    c
}

proof fn lemma_chain_prefix(
    all: Seq<(usize, Vec<ConfigAndStats>)>,
    params: RankingParams,
    c: Seq<(isize, usize)>,
)
    requires
        valid_chain(all, params, c),
        c.len() >= 2,
    ensures
        valid_chain(all, params, c.drop_last()),
{
    let d = c.drop_last();
    assert(forall|k: int| 0 <= k < d.len() ==> #[trigger] d[k] == c[k]);
    assert forall|k: int| 1 <= k < d.len() implies extends(
        chain_entry(all, k - 1, d[k - 1]),
        chain_entry(all, k, #[trigger] d[k]),
        params,
    ) by {
        assert(d[k] == c[k] && d[k - 1] == c[k - 1]);
        assert(extends(chain_entry(all, k - 1, c[k - 1]), chain_entry(all, k, c[k]), params));
    }
    assert(1 <= d.len() <= 6);
    assert(chain_ranked(all, params, d));
    assert(chain_extends(all, params, d));
}

/// When no evolving configuration reaches `k` steps, none reaches more.
proof fn lemma_no_longer_chains(all: Seq<(usize, Vec<ConfigAndStats>)>, params: RankingParams, k: nat)
    requires
        k >= 1,
        forall|c: Seq<(isize, usize)>| #[trigger] valid_chain(all, params, c) ==> c.len() != k,
    ensures
        forall|c: Seq<(isize, usize)>| #[trigger] valid_chain(all, params, c) ==> c.len() < k,
{
    assert forall|c: Seq<(isize, usize)>| #[trigger] valid_chain(all, params, c) implies c.len() < k by {
        lemma_chain_shorter(all, params, c, k);
    }
}

proof fn lemma_chain_shorter(all: Seq<(usize, Vec<ConfigAndStats>)>, params: RankingParams, c: Seq<(isize, usize)>, k: nat)
    requires
        k >= 1,
        valid_chain(all, params, c),
        forall|d: Seq<(isize, usize)>| #[trigger] valid_chain(all, params, d) ==> d.len() != k,
    ensures
        c.len() < k,
    decreases c.len(),
{
    if c.len() > k {
        lemma_chain_prefix(all, params, c);
        lemma_chain_shorter(all, params, c.drop_last(), k);
    }
}

impl Search {
    /// Where the configurations of `n` regions are.
    fn level_index(&self, n: usize) -> (i: usize)
        requires
            has_level(self.all_configs(), n),
        ensures
            i == level_of(self.all_configs(), n),
            i < self.all_configs().len(),
    {
        proof {
            use_type_invariant(self);
        }
        let all = &self.all_configs;
        let mut i: usize = 0;
        while i < all.len() && all[i].0 != n
            invariant
                *all == self.all_configs,
                i <= all.len(),
                forall|q: int| 0 <= q < i ==> all@[q].0 != n,
            decreases all.len() - i,
        {
            i = i + 1;
        }
        proof {
            if i == all.len() {
                let q = level_of(all@, n);
                assert(all@[q].0 == n);
            }
            lemma_level_of(all@, i as int);
        }
        i
    }

    /// Every way of extending the given beginnings of `k` steps by one more step.
    #[verifier::spinoff_prover]
    #[verifier::rlimit(60)]
    fn extend_chains(
        &self,
        ranked: &Vec<(usize, Vec<(isize, usize)>)>,
        params: &RankingParams,
        chains: &Vec<(isize, Vec<(isize, usize)>)>,
        k: usize,
    ) -> (next: Vec<(isize, Vec<(isize, usize)>)>)
        requires
            1 <= k < 6,
            params.min_n == 3,
            params.max_n == 13,
            rank_spec(self.all_configs(), *params, ranked@),
            chains@.len() > 0 ==> has_level(self.all_configs(), level(k as int)),
            chains_at(self.all_configs(), *params, chains@, k as nat),
        ensures
            chains_at(self.all_configs(), *params, next@, k as nat + 1),
    {
        proof {
            use_type_invariant(self);
        }
        let ghost all = self.all_configs();
        let mut next: Vec<(isize, Vec<(isize, usize)>)> = Vec::new();
        if chains.len() == 0 {
            proof {
                assert forall|c: Seq<(isize, usize)>|
                    #[trigger] valid_chain(all, *params, c) && c.len() == k + 1 implies exists|i: int|
                        0 <= i < next.len() && next@[i].1@ == c by {
                    lemma_chain_prefix(all, *params, c);
                    assert(valid_chain(all, *params, c.drop_last()));
                }
            }
            return next;
        }
        let n = 3 + 2 * k;
        let pn = n - 2;
        proof {
            assert(valid_chain(all, *params, chains@[0].1@));
            assert(has_level(all, level(k as int)));
            assert(has_level(all, level(k - 1)));
        }
        let li = self.level_index(n);
        let pli = self.level_index(pn);
        proof {
            assert(in_range(all[li as int].0, *params));
            let r = choose|r: int| 0 <= r < ranked.len() && ranked@[r].0 == li;
            assert(all[ranked@[r].0 as int].0 == n);
        }
        let cur_level = &self.all_configs[li].1;
        let prev_level = &self.all_configs[pli].1;
        let _len = cur_level.len();
        let ghost css = level_css(all, n);
        let ghost pcss = level_css(all, pn);
        proof {
            assert(css == cur_level@);
            assert(pcss == prev_level@);
            assert(level_wf(n, css));
            assert(level_wf(pn, pcss));
            lemma_ranked_list_positions(css, n, *params);
        }
        let mut i: usize = 0;
        while i < chains.len()
            invariant
                all == self.all_configs(),
                configs_wf(all),
                1 <= k < 6,
                n == level(k as int),
                pn == level(k - 1),
                params.min_n == 3,
                params.max_n == 13,
                rank_spec(all, *params, ranked@),
                has_level(all, n),
                exists|r: int| 0 <= r < ranked.len() && (#[trigger] all[ranked@[r].0 as int]).0 == n,
                css == level_css(all, n),
                pcss == level_css(all, pn),
                pcss == prev_level@,
                pcss.len() <= usize::MAX,
                level_wf(n, css),
                level_wf(pn, pcss),
                forall|q: int|
                    0 <= q < ranked_list(css, n, *params).len() ==> -131070 <= (#[trigger] ranked_list(
                        css,
                        n,
                        *params,
                    )[q]).0 <= 131070,
                ranked_list(css, n, *params).no_duplicates(),
                chains_at(all, *params, chains@, k as nat),
                i <= chains.len(),
                forall|j: int|
                    0 <= j < next.len() ==> {
                        &&& valid_chain(all, *params, (#[trigger] next@[j]).1@)
                        &&& next@[j].1@.len() == k + 1
                        &&& next@[j].0 == chain_score(next@[j].1@)
                        &&& -131070 * (k + 1) <= next@[j].0 <= 131070 * (k + 1)
                        &&& exists|q: int| 0 <= q < i && chains@[q].1@ == next@[j].1@.drop_last()
                    },
                forall|c: Seq<(isize, usize)>|
                    #[trigger] valid_chain(all, *params, c) && c.len() == k + 1 && (exists|q: int|
                        0 <= q < i && chains@[q].1@ == c.drop_last()) ==> exists|j: int|
                        0 <= j < next.len() && next@[j].1@ == c,
                forall|a: int, b: int|
                    0 <= a < next.len() && 0 <= b < next.len() && a != b ==> (#[trigger] next@[a]).1@
                        != (#[trigger] next@[b]).1@,
            decreases chains.len() - i,
        {
            let chain = &chains[i];
            let last = chain.1[k - 1];
            proof {
                assert(valid_chain(all, *params, chain.1@));
                assert(ranked_list(level_css(all, pn), pn, *params).contains(chain.1@[k - 1]));
                lemma_ranked_list_positions(pcss, pn, *params);
                let q = choose|q: int| 0 <= q < ranked_list(pcss, pn, *params).len() && ranked_list(pcss, pn, *params)[q] == last;
                assert(last.1 < pcss.len());
                assert(config_wf(pn, pcss[last.1 as int]));
                assert(stats_key_present(pn as nat, (StatsKey::Atlas, 1usize)));
            }
            let prev = &prev_level[last.1];
            let cands = self.super_configs(ranked, params, n, prev);
            proof {
                lemma_super_list(ranked_list(css, n, *params), css, *prev, *params);
            }
            let ghost before_i = next@;
            let mut t: usize = 0;
            while t < cands.len()
                invariant
                    all == self.all_configs(),
                    1 <= k < 6,
                    n == level(k as int),
                    pn == level(k - 1),
                    has_level(all, n),
                    css == level_css(all, n),
                    pcss == level_css(all, pn),
                    i < chains.len(),
                    *chain == chains@[i as int],
                    last == chain.1@[k - 1],
                    *prev == pcss[last.1 as int],
                    forall|q: int|
                        0 <= q < ranked_list(css, n, *params).len() ==> -131070 <= (#[trigger] ranked_list(
                            css,
                            n,
                            *params,
                        )[q]).0 <= 131070,
                    cands@ == super_list(ranked_list(css, n, *params), css, *prev, *params),
                    cands@.no_duplicates(),
                    forall|e: (isize, usize)|
                        #[trigger] cands@.contains(e) <==> ranked_list(css, n, *params).contains(e)
                            && extends(*prev, css[e.1 as int], *params),
                    chains_at(all, *params, chains@, k as nat),
                    t <= cands.len(),
                    next.len() == before_i.len() + t,
                    forall|j: int| 0 <= j < before_i.len() ==> next@[j] == before_i[j],
                    forall|j: int|
                        0 <= j < t ==> next@[before_i.len() + j].1@ == chain.1@.push(cands@[j])
                            && next@[before_i.len() + j].0 == chain.0 + cands@[j].0,
                decreases cands.len() - t,
            {
                let e = cands[t];
                let mut extended = copy_entries(&chain.1);
                extended.push(e);
                proof {
                    assert(cands@.contains(e));
                    let q = choose|q: int| 0 <= q < ranked_list(css, n, *params).len() && ranked_list(css, n, *params)[q] == e;
                    assert(-131070 <= e.0 <= 131070);
                    assert(-131070 * k <= chain.0 <= 131070 * k);
                }
                next.push((chain.0 + e.0, extended));
                t = t + 1;
            }
            proof {
                let c0 = chain.1@;
                assert forall|j: int| 0 <= j < next.len() implies {
                    &&& valid_chain(all, *params, (#[trigger] next@[j]).1@)
                    &&& next@[j].1@.len() == k + 1
                    &&& next@[j].0 == chain_score(next@[j].1@)
                    &&& -131070 * (k + 1) <= next@[j].0 <= 131070 * (k + 1)
                    &&& exists|q: int| 0 <= q < i + 1 && chains@[q].1@ == next@[j].1@.drop_last()
                } by {
                    if j >= before_i.len() {
                        let tt = j - before_i.len();
                        let e = cands@[tt];
                        let c1 = c0.push(e);
                        assert(next@[j].1@ == c1);
                        assert(c1.drop_last() =~= c0);
                        assert(cands@.contains(e));
                        assert(valid_chain(all, *params, c1)) by {
                            assert forall|m: int| 0 <= m < c1.len() implies has_level(all, level(m)) && ranked_list(
                                level_css(all, level(m)),
                                level(m),
                                *params,
                            ).contains(#[trigger] c1[m]) by {
                                if m < c0.len() {
                                    assert(c1[m] == c0[m]);
                                }
                            }
                            assert forall|m: int| 1 <= m < c1.len() implies extends(
                                chain_entry(all, m - 1, c1[m - 1]),
                                chain_entry(all, m, #[trigger] c1[m]),
                                *params,
                            ) by {
                                if m < c0.len() {
                                    assert(c1[m] == c0[m] && c1[m - 1] == c0[m - 1]);
                                } else {
                                    assert(c1[m - 1] == last);
                                }
                            }
                        }
                        assert(-131070 <= e.0 <= 131070) by {
                            let q = choose|q: int| 0 <= q < ranked_list(css, n, *params).len() && ranked_list(css, n, *params)[q] == e;
                        }
                    } else {
                        assert(next@[j] == before_i[j]);
                    }
                }
                assert forall|c: Seq<(isize, usize)>|
                    #[trigger] valid_chain(all, *params, c) && c.len() == k + 1 && (exists|q: int|
                        0 <= q < i + 1 && chains@[q].1@ == c.drop_last()) implies exists|j: int|
                        0 <= j < next.len() && next@[j].1@ == c by {
                    let q = choose|q: int| 0 <= q < i + 1 && chains@[q].1@ == c.drop_last();
                    if q < i {
                        let j = choose|j: int| 0 <= j < before_i.len() && before_i[j].1@ == c;
                        assert(next@[j] == before_i[j]);
                    } else {
                        let e = c.last();
                        assert(c[k as int] == e);
                        assert(c[k - 1] == c.drop_last()[k - 1]);
                        assert(ranked_list(css, n, *params).contains(e));
                        assert(extends(chain_entry(all, k - 1, c[k - 1]), chain_entry(all, k as int, c[k as int]), *params));
                        assert(cands@.contains(e));
                        let tt = choose|tt: int| 0 <= tt < cands.len() && cands@[tt] == e;
                        assert(c =~= c0.push(e));
                        assert(next@[before_i.len() + tt].1@ == c);
                    }
                }
                assert forall|a: int, b: int|
                    0 <= a < next.len() && 0 <= b < next.len() && a != b implies (#[trigger] next@[a]).1@
                        != (#[trigger] next@[b]).1@ by {
                    if a >= before_i.len() && b >= before_i.len() {
                        let ea = cands@[a - before_i.len()];
                        let eb = cands@[b - before_i.len()];
                        assert(ea != eb);
                        assert(next@[a].1@.last() == ea);
                        assert(next@[b].1@.last() == eb);
                    } else if a >= before_i.len() {
                        assert(next@[b] == before_i[b]);
                        let qb = choose|q: int| 0 <= q < i && chains@[q].1@ == before_i[b].1@.drop_last();
                        let ta = a - before_i.len();
                        assert(next@[before_i.len() + ta].1@ == c0.push(cands@[ta]));
                        assert(c0.push(cands@[ta]).drop_last() =~= c0);
                        assert(chains@[qb].1@ != chains@[i as int].1@);
                    } else if b >= before_i.len() {
                        assert(next@[a] == before_i[a]);
                        let qa = choose|q: int| 0 <= q < i && chains@[q].1@ == before_i[a].1@.drop_last();
                        let tb = b - before_i.len();
                        assert(next@[before_i.len() + tb].1@ == c0.push(cands@[tb]));
                        assert(c0.push(cands@[tb]).drop_last() =~= c0);
                        assert(chains@[qa].1@ != chains@[i as int].1@);
                    } else {
                        assert(next@[a] == before_i[a] && next@[b] == before_i[b]);
                    }
                }
            }
            i = i + 1;
        }
        proof {
            assert forall|c: Seq<(isize, usize)>|
                #[trigger] valid_chain(all, *params, c) && c.len() == k + 1 implies exists|j: int|
                    0 <= j < next.len() && next@[j].1@ == c by {
                lemma_chain_prefix(all, *params, c);
                let q = choose|q: int| 0 <= q < chains.len() && chains@[q].1@ == c.drop_last();
            }
        }
        next
    }
}

/// `level_idx` tells where the configurations of each step are.
pub open spec fn levels_indexed(all: Seq<(usize, Vec<ConfigAndStats>)>, level_idx: Seq<usize>) -> bool {
    &&& level_idx.len() == 6
    &&& forall|k: int| 0 <= k < 6 ==> #[trigger] has_level(all, level(k))
    &&& forall|k: int| 0 <= k < 6 ==> #[trigger] level_idx[k] == level_of(all, level(k))
}

/// The configurations of the steps of `c`, each by the names of its regions.
pub open spec fn chain_names(all: Seq<(usize, Vec<ConfigAndStats>)>, c: Seq<(isize, usize)>) -> Seq<
    Seq<Seq<char>>,
> {
    Seq::new(c.len(), |k: int| names(chain_entry(all, k, c[k]).0@))
}

/// In the ranking of evolving configurations, `a` comes below `b`: a lower
/// score, or the same score and configurations that come first, step by step.
pub open spec fn chain_below(
    all: Seq<(usize, Vec<ConfigAndStats>)>,
    a: (isize, Seq<(isize, usize)>),
    b: (isize, Seq<(isize, usize)>),
) -> bool {
    a.0 < b.0 || (a.0 == b.0 && lex_lt(
        chain_names(all, a.1),
        chain_names(all, b.1),
        lex_order(text_order()),
    ))
}

/// `top` holds the `max` highest ranked evolving configurations, highest first,
/// each with its score.
pub open spec fn evolving_top(
    all: Seq<(usize, Vec<ConfigAndStats>)>,
    params: RankingParams,
    max: nat,
    top: Seq<(isize, Seq<(isize, usize)>)>,
) -> bool {
    &&& top.len() <= max
    &&& forall|i: int|
        0 <= i < top.len() ==> {
            &&& valid_chain(all, params, (#[trigger] top[i]).1)
            &&& top[i].1.len() == 6
            &&& top[i].0 == chain_score(top[i].1)
        }
    &&& forall|i: int, j: int| 0 <= i < j < top.len() ==> chain_below(all, top[j], top[i])
    &&& forall|c: Seq<(isize, usize)>|
        #[trigger] valid_chain(all, params, c) && c.len() == 6 && !(exists|i: int|
            0 <= i < top.len() && top[i].1 == c) ==> top.len() == max && forall|i: int|
            0 <= i < top.len() ==> chain_below(all, (chain_score(c) as isize, c), #[trigger] top[i])
}

/// `out` shows the evolving configurations of `top`, each with its score and
/// its configurations, step by step.
pub open spec fn evolving_refers<'a>(
    all: Seq<(usize, Vec<ConfigAndStats>)>,
    top: Seq<(isize, Seq<(isize, usize)>)>,
    out: Seq<(isize, Vec<&'a ConfigAndStats>)>,
) -> bool {
    &&& out.len() == top.len()
    &&& forall|i: int|
        0 <= i < out.len() ==> {
            &&& (#[trigger] out[i]).0 == top[i].0
            &&& out[i].1.len() == 6
            &&& forall|k: int| 0 <= k < 6 ==> *(#[trigger] out[i].1@[k]) == chain_entry(all, k, top[i].1[k])
        }
}

proof fn lemma_chain_names_distinct(
    all: Seq<(usize, Vec<ConfigAndStats>)>,
    params: RankingParams,
    a: Seq<(isize, usize)>,
    b: Seq<(isize, usize)>,
)
    requires
        configs_wf(all),
        valid_chain(all, params, a),
        valid_chain(all, params, b),
        a.len() == b.len(),
        a != b,
    ensures
        chain_names(all, a) != chain_names(all, b),
{
    assert(exists|k: int| 0 <= k < a.len() && a[k] != b[k]) by {
        if forall|k: int| 0 <= k < a.len() ==> a[k] == b[k] {
            assert(a =~= b);
        }
    }
    let k = choose|k: int| 0 <= k < a.len() && a[k] != b[k];
    let n = level(k);
    assert(has_level(all, n));
    let i = level_of(all, n);
    assert(all[i].0 == n);
    let css = level_css(all, n);
    assert(level_wf(n, css));
    lemma_ranked_list_positions(css, n, params);
    let rl = ranked_list(css, n, params);
    assert(rl.contains(a[k]));
    assert(rl.contains(b[k]));
    let p = choose|p: int| 0 <= p < rl.len() && rl[p] == a[k];
    let q = choose|q: int| 0 <= q < rl.len() && rl[q] == b[k];
    assert(p != q);
    assert(a[k].1 != b[k].1) by {
        if p < q {
            assert(rl[p].1 < rl[q].1);
        } else {
            assert(rl[q].1 < rl[p].1);
        }
    }
    assert(names(css[a[k].1 as int].0@) != names(css[b[k].1 as int].0@));
    assert(chain_names(all, a)[k] != chain_names(all, b)[k]);
}

proof fn lemma_chain_below_order(all: Seq<(usize, Vec<ConfigAndStats>)>)
    ensures
        forall|x: (isize, Seq<(isize, usize)>)| !#[trigger] chain_below(all, x, x),
        forall|x: (isize, Seq<(isize, usize)>), y: (isize, Seq<(isize, usize)>), z: (
            isize,
            Seq<(isize, usize)>,
        )|
            #[trigger] chain_below(all, x, y) && #[trigger] chain_below(all, y, z) ==> chain_below(
                all,
                x,
                z,
            ),
        forall|x: (isize, Seq<(isize, usize)>), y: (isize, Seq<(isize, usize)>)|
            chain_names(all, x.1) != chain_names(all, y.1) ==> #[trigger] chain_below(all, x, y)
                || #[trigger] chain_below(all, y, x),
{
    lemma_config_order_strict_total();
    lemma_lex_strict_total(lex_order(text_order()));
}

/// Whether `a` comes below `b` in the ranking of evolving configurations.
fn below_chain(
    all: &Vec<(usize, Vec<ConfigAndStats>)>,
    level_idx: &Vec<usize>,
    a: &(isize, Vec<(isize, usize)>),
    b: &(isize, Vec<(isize, usize)>),
) -> (r: bool)
    requires
        configs_wf(all@),
        level_idx.len() == 6,
        levels_indexed(all@, level_idx@),
        a.1.len() == 6,
        b.1.len() == 6,
        forall|k: int| 0 <= k < 6 ==> (a.1@[k]).1 < level_css(all@, level(k)).len(),
        forall|k: int| 0 <= k < 6 ==> (b.1@[k]).1 < level_css(all@, level(k)).len(),
    ensures
        r == chain_below(all@, (a.0, a.1@), (b.0, b.1@)),
{
    proof {
        lemma_chain_below_order(all@);
        lemma_config_order();
    }
    if a.0 < b.0 {
        return true;
    }
    if a.0 > b.0 {
        return false;
    }
    let ghost na = chain_names(all@, a.1@);
    let ghost nb = chain_names(all@, b.1@);
    let mut k: usize = 0;
    while k < 6
        invariant
            a.0 == b.0,
            k <= 6,
            configs_wf(all@),
            level_idx.len() == 6,
            levels_indexed(all@, level_idx@),
            a.1.len() == 6,
            b.1.len() == 6,
            forall|k: int| 0 <= k < 6 ==> (a.1@[k]).1 < level_css(all@, level(k)).len(),
            forall|k: int| 0 <= k < 6 ==> (b.1@[k]).1 < level_css(all@, level(k)).len(),
            na == chain_names(all@, a.1@),
            nb == chain_names(all@, b.1@),
            forall|j: int| 0 <= j < k ==> na[j] == nb[j],
        decreases 6 - k,
    {
        let li = level_idx[k];
        proof {
            let n = level(k as int);
            assert(has_level(all@, n));
            let i = level_of(all@, n);
            assert(all@[i].0 == n);
            assert(li < all.len());
        }
        let level = &all[li].1;
        let ca = &level[a.1[k].1].0;
        let cb = &level[b.1[k].1].0;
        let p = compare_configs(ca, cb);
        if p == Precedence::Before {
            proof {
                assert(lex_order(text_order())(na[k as int], nb[k as int]));
                assert(lex_lt_at(na, nb, lex_order(text_order()), k as int));
            }
            return true;
        } else if p == Precedence::After {
            proof {
                assert(lex_order(text_order())(nb[k as int], na[k as int]));
                assert(lex_lt_at(nb, na, lex_order(text_order()), k as int));
            }
            return false;
        }
        k = k + 1;
    }
    proof {
        assert(na =~= nb);
    }
    false
}

/// An evolving configuration with its score, as the ranking sees it.
pub open spec fn cview(e: (isize, Vec<(isize, usize)>)) -> (isize, Seq<(isize, usize)>) {
    (e.0, e.1@)
}

/// The views of a list of evolving configurations with their scores.
pub open spec fn cviews(s: Seq<(isize, Vec<(isize, usize)>)>) -> Seq<(isize, Seq<(isize, usize)>)> {
    s.map_values(|e: (isize, Vec<(isize, usize)>)| cview(e))
}

/// A complete evolving configuration with its score.
pub open spec fn full_chain(
    all: Seq<(usize, Vec<ConfigAndStats>)>,
    params: RankingParams,
    x: (isize, Seq<(isize, usize)>),
) -> bool {
    &&& valid_chain(all, params, x.1)
    &&& x.1.len() == 6
    &&& x.0 == chain_score(x.1)
}

proof fn lemma_chain_positions(
    all: Seq<(usize, Vec<ConfigAndStats>)>,
    params: RankingParams,
    c: Seq<(isize, usize)>,
)
    requires
        configs_wf(all),
        valid_chain(all, params, c),
    ensures
        forall|k: int| 0 <= k < c.len() ==> (#[trigger] c[k]).1 < level_css(all, level(k)).len(),
{
    assert forall|k: int| 0 <= k < c.len() implies (#[trigger] c[k]).1 < level_css(all, level(k)).len() by {
        let n = level(k);
        assert(has_level(all, n));
        let i = level_of(all, n);
        assert(all[i].0 == n);
        let css = level_css(all, n);
        assert(level_wf(n, css));
        lemma_ranked_list_positions(css, n, params);
        let rl = ranked_list(css, n, params);
        assert(rl.contains(c[k]));
        let p = choose|p: int| 0 <= p < rl.len() && rl[p] == c[k];
    }
}

/// The entries of `from`, highest ranked first, cut to the first `max`.
fn top_chains(
    all: &Vec<(usize, Vec<ConfigAndStats>)>,
    level_idx: &Vec<usize>,
    from: Vec<(isize, Vec<(isize, usize)>)>,
    max: usize,
    Ghost(params): Ghost<RankingParams>,
) -> (top: Vec<(isize, Vec<(isize, usize)>)>)
    requires
        configs_wf(all@),
        level_idx.len() == 6,
        levels_indexed(all@, level_idx@),
        chains_at(all@, params, from@, 6),
    ensures
        evolving_top(all@, params, max as nat, cviews(top@)),
        forall|i: int| 0 <= i < top.len() ==> (#[trigger] top@[i]).1.len() == 6,
{
    proof {
        lemma_chain_below_order(all@);
    }
    let ghost orig = cviews(from@);
    let ghost ab = all@;
    proof {
        assert forall|i: int| 0 <= i < orig.len() implies full_chain(ab, params, #[trigger] orig[i]) by {
            assert(from@[i].1@.len() == 6);
        }
        assert forall|x: (isize, Seq<(isize, usize)>), y: (isize, Seq<(isize, usize)>)|
            orig.contains(x) && orig.contains(y) && x != y implies #[trigger] chain_below(ab, x, y)
                || #[trigger] chain_below(ab, y, x) by {
            let i = choose|i: int| 0 <= i < orig.len() && orig[i] == x;
            let j = choose|j: int| 0 <= j < orig.len() && orig[j] == y;
            assert(i != j);
            assert(from@[i].1@ != from@[j].1@);
            lemma_chain_names_distinct(ab, params, x.1, y.1);
        }
        assert(orig.no_duplicates()) by {
            assert forall|i: int, j: int| 0 <= i < orig.len() && 0 <= j < orig.len() && i != j implies orig[i]
                != orig[j] by {
                assert(from@[i].1@ != from@[j].1@);
            }
        }
    }
    let mut rest = from;
    let mut sorted: Vec<(isize, Vec<(isize, usize)>)> = Vec::new();
    while rest.len() > 0
        invariant
            ab == all@,
            configs_wf(all@),
            level_idx.len() == 6,
            levels_indexed(all@, level_idx@),
            sorted.len() + rest.len() == orig.len(),
            forall|i: int| 0 <= i < orig.len() ==> full_chain(ab, params, #[trigger] orig[i]),
            forall|x: (isize, Seq<(isize, usize)>), y: (isize, Seq<(isize, usize)>)|
                orig.contains(x) && orig.contains(y) && x != y ==> #[trigger] chain_below(ab, x, y)
                    || #[trigger] chain_below(ab, y, x),
            forall|x: (isize, Seq<(isize, usize)>)| !#[trigger] chain_below(ab, x, x),
            forall|x: (isize, Seq<(isize, usize)>), y: (isize, Seq<(isize, usize)>), z: (
                isize,
                Seq<(isize, usize)>,
            )|
                #[trigger] chain_below(ab, x, y) && #[trigger] chain_below(ab, y, z) ==> chain_below(
                    ab,
                    x,
                    z,
                ),
            forall|x: (isize, Seq<(isize, usize)>)|
                orig.contains(x) <==> (cviews(sorted@).contains(x) || cviews(rest@).contains(x)),
            cviews(rest@).no_duplicates(),
            forall|i: int, j: int|
                0 <= i < sorted.len() && 0 <= j < rest.len() ==> cviews(sorted@)[i] != cviews(rest@)[j],
            forall|i: int, j: int|
                0 <= i < j < sorted.len() ==> chain_below(ab, cviews(sorted@)[j], cviews(sorted@)[i]),
            forall|i: int| 0 <= i < sorted.len() ==> (#[trigger] sorted@[i]).1.len() == 6,
            forall|i: int| 0 <= i < rest.len() ==> (#[trigger] rest@[i]).1.len() == 6,
        decreases rest.len(),
    {
        let ghost before = cviews(sorted@);
        let ghost brest = cviews(rest@);
        let ghost before_sorted = sorted@;
        let e = rest.pop().unwrap();
        proof {
            assert(brest.last() == cview(e));
            assert(brest.contains(cview(e)));
            assert(orig.contains(cview(e)));
            let ie = choose|i: int| 0 <= i < orig.len() && orig[i] == cview(e);
            assert(full_chain(ab, params, orig[ie]));
            lemma_chain_positions(ab, params, e.1@);
            assert(cviews(rest@) =~= brest.drop_last());
            assert forall|i: int| 0 <= i < before.len() implies orig.contains(#[trigger] before[i]) by {
                assert(before.contains(before[i]));
            }
        }
        proof {
            assert forall|i: int| 0 <= i < sorted.len() implies forall|k: int|
                0 <= k < (#[trigger] sorted@[i]).1.len() ==> (sorted@[i].1@[k]).1 < level_css(
                    all@,
                    level(k),
                ).len() by {
                assert(before[i] == cview(sorted@[i]));
                assert(orig.contains(before[i]));
                let ip = choose|q: int| 0 <= q < orig.len() && orig[q] == before[i];
                assert(full_chain(ab, params, orig[ip]));
                lemma_chain_positions(ab, params, sorted@[i].1@);
            }
        }
        let mut p: usize = 0;
        while p < sorted.len() && !below_chain(all, level_idx, &sorted[p], &e)
            invariant
                sorted@ == before_sorted,
                cviews(sorted@) == before,
                ab == all@,
                configs_wf(all@),
                level_idx.len() == 6,
                levels_indexed(all@, level_idx@),
                e.1.len() == 6,
                forall|k: int| 0 <= k < 6 ==> (e.1@[k]).1 < level_css(all@, level(k)).len(),
                forall|i: int| 0 <= i < sorted.len() ==> (#[trigger] sorted@[i]).1.len() == 6,
                forall|i: int| 0 <= i < before.len() ==> orig.contains(#[trigger] before[i]),
                forall|i: int| 0 <= i < orig.len() ==> full_chain(ab, params, #[trigger] orig[i]),
                p <= sorted.len(),
                forall|i: int| 0 <= i < sorted.len() ==> forall|k: int|
                    0 <= k < (#[trigger] sorted@[i]).1.len() ==> (sorted@[i].1@[k]).1 < level_css(
                        all@,
                        level(k),
                    ).len(),
                forall|q: int| 0 <= q < p ==> !chain_below(ab, #[trigger] before[q], cview(e)),
            decreases sorted.len() - p,
        {
            proof {
                assert(orig.contains(before[p as int]));
                let ip = choose|i: int| 0 <= i < orig.len() && orig[i] == before[p as int];
                assert(full_chain(ab, params, orig[ip]));
                lemma_chain_positions(ab, params, before[p as int].1);
                assert(before[p as int] == cview(sorted@[p as int]));
            }
            p = p + 1;
        }
        sorted.insert(p, e);
        proof {
            let x = cview(e);
            let s2 = cviews(sorted@);
            let r2 = cviews(rest@);
            assert(s2 =~= before.insert(p as int, x));
            assert(r2 =~= brest.drop_last());
            assert(x == brest[brest.len() - 1]);
            assert forall|q: int| 0 <= q < p implies chain_below(ab, x, #[trigger] before[q]) by {
                assert(before[q] != brest[brest.len() - 1]);
                assert(orig.contains(before[q]));
                assert(!chain_below(ab, before[q], x));
            }
            assert forall|a: int, b: int| 0 <= a < b < s2.len() implies chain_below(ab, s2[b], s2[a]) by {
                if b < p {
                    assert(s2[a] == before[a] && s2[b] == before[b]);
                } else if b == p {
                    assert(s2[a] == before[a]);
                } else if a == p {
                    assert(s2[b] == before[b - 1]);
                    if b - 1 > p {
                        assert(chain_below(ab, before[b - 1], before[p as int]));
                    }
                } else if a < p {
                    assert(s2[a] == before[a] && s2[b] == before[b - 1]);
                } else {
                    assert(s2[a] == before[a - 1] && s2[b] == before[b - 1]);
                }
            }
            assert forall|y: (isize, Seq<(isize, usize)>)|
                orig.contains(y) <==> (s2.contains(y) || r2.contains(y)) by {
                if s2.contains(y) {
                    let q = choose|q: int| 0 <= q < s2.len() && s2[q] == y;
                    if q < p {
                        assert(before[q] == y);
                        assert(before.contains(y));
                    } else if q > p {
                        assert(before[q - 1] == y);
                        assert(before.contains(y));
                    } else {
                        assert(brest.contains(y));
                    }
                }
                if r2.contains(y) {
                    let q = choose|q: int| 0 <= q < r2.len() && r2[q] == y;
                    assert(brest[q] == y);
                    assert(brest.contains(y));
                }
                if before.contains(y) {
                    let q = choose|q: int| 0 <= q < before.len() && before[q] == y;
                    if q < p {
                        assert(s2[q] == y);
                    } else {
                        assert(s2[q + 1] == y);
                    }
                }
                if brest.contains(y) {
                    let q = choose|q: int| 0 <= q < brest.len() && brest[q] == y;
                    if q < r2.len() {
                        assert(r2[q] == y);
                    } else {
                        assert(s2[p as int] == y);
                    }
                }
            }
            assert forall|i: int, j: int| 0 <= i < r2.len() && 0 <= j < r2.len() && i != j implies r2[i]
                != r2[j] by {
                assert(brest[i] != brest[j]);
            }
            assert forall|i: int, j: int| 0 <= i < s2.len() && 0 <= j < r2.len() implies s2[i] != r2[j] by {
                assert(r2[j] == brest[j]);
                if i < p {
                    assert(s2[i] == before[i]);
                } else if i > p {
                    assert(s2[i] == before[i - 1]);
                } else {
                    assert(brest[j] != brest[brest.len() - 1]);
                }
            }
            assert forall|i: int| 0 <= i < sorted.len() implies (#[trigger] sorted@[i]).1.len() == 6 by {
                if i < p {
                    assert(sorted@[i] == before_sorted[i]);
                } else if i > p {
                    assert(sorted@[i] == before_sorted[i - 1]);
                }
            }
        }
    }
    let ghost full = cviews(sorted@);
    proof {
        assert(cviews(rest@).len() == 0);
        assert forall|x: (isize, Seq<(isize, usize)>)| orig.contains(x) <==> full.contains(x) by {
            if cviews(rest@).contains(x) {
                let q = choose|q: int| 0 <= q < cviews(rest@).len() && cviews(rest@)[q] == x;
            }
        }
    }
    sorted.truncate(max);
    proof {
        let t = cviews(sorted@);
        if (max as int) <= full.len() {
            assert(t =~= full.subrange(0, max as int));
        } else {
            assert(t =~= full);
        }
        assert(forall|a: int| 0 <= a < t.len() ==> t[a] == full[a]);
        assert forall|i: int| 0 <= i < t.len() implies {
            &&& valid_chain(ab, params, (#[trigger] t[i]).1)
            &&& t[i].1.len() == 6
            &&& t[i].0 == chain_score(t[i].1)
        } by {
            assert(full.contains(full[i]));
            let q = choose|q: int| 0 <= q < orig.len() && orig[q] == full[i];
            assert(full_chain(ab, params, orig[q]));
        }
        assert forall|c: Seq<(isize, usize)>|
            #[trigger] valid_chain(ab, params, c) && c.len() == 6 && !(exists|i: int|
                0 <= i < t.len() && t[i].1 == c) implies t.len() == max && forall|i: int|
                0 <= i < t.len() ==> chain_below(ab, (chain_score(c) as isize, c), #[trigger] t[i]) by {
            let q = choose|q: int| 0 <= q < from@.len() && from@[q].1@ == c;
            let x = orig[q];
            assert(x == (chain_score(c) as isize, c));
            assert(orig.contains(x));
            assert(full.contains(x));
            let fq = choose|fq: int| 0 <= fq < full.len() && full[fq] == x;
            if fq < t.len() {
                assert(t[fq].1 == c);
            }
            assert forall|i: int| 0 <= i < t.len() implies chain_below(ab, (chain_score(c) as isize, c), #[trigger] t[i]) by {
                assert(t[i] == full[i]);
            }
        }
        assert forall|i: int| 0 <= i < sorted.len() implies (#[trigger] sorted@[i]).1.len() == 6 by {
            assert(t[i] == full[i]);
        }
    }
    sorted
}

/// Every evolving configuration that the ranking gives goes through 3, 5, ...,
/// 13 regions, each step a valid configuration, with its score, that adds
/// regions to the one before and lowers Atlas' latency by at least the
/// minimum; the scores are the sums of the steps' scores, highest first.
pub proof fn lemma_evolving_steps(
    all: Seq<(usize, Vec<ConfigAndStats>)>,
    params: RankingParams,
    max: nat,
    top: Seq<(isize, Seq<(isize, usize)>)>,
)
    requires
        configs_wf(all),
        evolving_top(all, params, max, top),
    ensures
        forall|i: int, k: int|
            0 <= i < top.len() && 0 <= k < 6 ==> {
                let cs = chain_entry(all, k, #[trigger] top[i].1[k]);
                &&& cs.0.len() == level(k)
                &&& level_css(all, level(k)).contains(cs)
                &&& score_spec(level(k) as nat, cs.1@, params).0
                &&& score_spec(level(k) as nat, cs.1@, params).1 == top[i].1[k].0
            },
        forall|i: int, k: int|
            0 <= i < top.len() && 1 <= k < 6 ==> extends(
                chain_entry(all, k - 1, top[i].1[k - 1]),
                chain_entry(all, k, #[trigger] top[i].1[k]),
                params,
            ),
        forall|i: int| 0 <= i < top.len() ==> (#[trigger] top[i]).0 == chain_score(top[i].1),
        forall|i: int, j: int| 0 <= i < j < top.len() ==> top[j].0 <= top[i].0,
{
    assert forall|i: int, k: int| 0 <= i < top.len() && 0 <= k < 6 implies {
        let cs = chain_entry(all, k, #[trigger] top[i].1[k]);
        &&& cs.0.len() == level(k)
        &&& level_css(all, level(k)).contains(cs)
        &&& score_spec(level(k) as nat, cs.1@, params).0
        &&& score_spec(level(k) as nat, cs.1@, params).1 == top[i].1[k].0
    } by {
        let c = top[i].1;
        assert(valid_chain(all, params, c));
        assert(chain_ranked(all, params, c));
        let n = level(k);
        assert(has_level(all, n));
        let li = level_of(all, n);
        assert(all[li].0 == n);
        let css = level_css(all, n);
        assert(level_wf(n, css));
        super::lemma_ranked_entries(css, n, params);
        let rl = ranked_list(css, n, params);
        assert(rl.contains(c[k]));
        let q = choose|q: int| 0 <= q < rl.len() && rl[q] == c[k];
        assert(config_wf(n, css[c[k].1 as int]));
        assert(css.contains(css[c[k].1 as int]));
    }
    assert forall|i: int, k: int| 0 <= i < top.len() && 1 <= k < 6 implies extends(
        chain_entry(all, k - 1, top[i].1[k - 1]),
        chain_entry(all, k, #[trigger] top[i].1[k]),
        params,
    ) by {
        assert(valid_chain(all, params, top[i].1));
        assert(chain_extends(all, params, top[i].1));
    }
    assert forall|i: int, j: int| 0 <= i < j < top.len() implies top[j].0 <= top[i].0 by {
        assert(chain_below(all, top[j], top[i]));
    }
}

impl Search {
    /// The ranking of all configurations, and every evolving configuration of
    /// one step, with its score.
    fn first_chains(&self, p: &RankingParams) -> (r: (
        Vec<(usize, Vec<(isize, usize)>)>,
        Vec<(isize, Vec<(isize, usize)>)>,
    ))
        requires
            p.min_n == 3,
            p.max_n == 13,
            has_level(self.all_configs(), 3),
        ensures
            rank_spec(self.all_configs(), *p, r.0@),
            chains_at(self.all_configs(), *p, r.1@, 1),
    {
        proof {
            use_type_invariant(self);
        }
        let all = &self.all_configs;
        let ghost ab = self.all_configs();
        // first we should rank all configs
        let ranked = self.rank(p);
        proof {
            assert(ab == all@);
            let i = level_of(ab, 3);
            assert(ab[i].0 == 3);
            assert(in_range(ab[i].0, *p));
            let r = choose|r: int| 0 <= r < ranked.len() && ranked@[r].0 == i;
            assert(ab[ranked@[r].0 as int].0 == 3);
        }
        let first = self.configs(&ranked, p, 3);
        proof {
            let i = level_of(ab, 3);
            assert(ab[i].0 == 3);
            assert(level_wf(3, level_css(ab, 3)));
            lemma_ranked_list_positions(level_css(ab, 3), 3, *p);
            assert(level(0) == 3);
        }
        let mut chains: Vec<(isize, Vec<(isize, usize)>)> = Vec::new();
        let mut t: usize = 0;
        while t < first.len()
            invariant
                ab == self.all_configs(),
                configs_wf(ab),
                level(0) == 3,
                has_level(ab, 3),
                first@ == ranked_list(level_css(ab, 3), 3, *p),
                forall|q: int|
                    0 <= q < first@.len() ==> -131070 <= (#[trigger] first@[q]).0 <= 131070,
                forall|a: int, b: int| 0 <= a < b < first@.len() ==> first@[a].1 < first@[b].1,
                t <= first.len(),
                chains.len() == t,
                forall|q: int| 0 <= q < t ==> (#[trigger] chains@[q]).1@ == seq![first@[q]] && chains@[q].0 == first@[q].0,
            decreases first.len() - t,
        {
            let e = first[t];
            chains.push((e.0, vec![e]));
            t = t + 1;
            proof {
                assert(chains@[t - 1].1@ =~= seq![first@[t - 1]]);
            }
        }
        proof {
            assert forall|q: int| 0 <= q < chains.len() implies {
                &&& valid_chain(ab, *p, (#[trigger] chains@[q]).1@)
                &&& chains@[q].1@.len() == 1
                &&& chains@[q].0 == chain_score(chains@[q].1@)
                &&& -131070 * 1 <= chains@[q].0 <= 131070 * 1
            } by {
                let c = chains@[q].1@;
                assert(c[0] == first@[q]);
                assert(first@.contains(first@[q]));
                assert(c.drop_last() =~= Seq::<(isize, usize)>::empty());
                assert(chain_score(c.drop_last()) == 0);
                assert(c.last() == first@[q]);
                assert(chain_ranked(ab, *p, c));
            }
            assert forall|c: Seq<(isize, usize)>|
                #[trigger] valid_chain(ab, *p, c) && c.len() == 1 implies exists|q: int|
                    0 <= q < chains.len() && chains@[q].1@ == c by {
                assert(ranked_list(level_css(ab, level(0)), level(0), *p).contains(c[0]));
                let q = choose|q: int| 0 <= q < first@.len() && first@[q] == c[0];
                assert(chains@[q].1@ =~= c);
            }
            assert forall|a: int, b: int|
                0 <= a < chains.len() && 0 <= b < chains.len() && a != b implies (#[trigger] chains@[a]).1@
                    != (#[trigger] chains@[b]).1@ by {
                assert(chains@[a].1@[0] == first@[a]);
                assert(chains@[b].1@[0] == first@[b]);
                if a < b {
                    assert(first@[a].1 < first@[b].1);
                } else {
                    assert(first@[b].1 < first@[a].1);
                }
            }
        }
        (ranked, chains)
    }

    /// Whether the configurations of every step that some evolving
    /// configuration reaches are there, so that `sorted_evolving_configs` can
    /// rank them.
    pub fn evolving_ready(&self, p: &RankingParams) -> (r: bool)
        requires
            p.min_n == 3,
            p.max_n == 13,
        ensures
            r == evolving_defined(self.all_configs(), *p),
    {
        let ghost ab = self.all_configs();
        if !self.has_level_of(3) {
            return false;
        }
        let (ranked, mut chains) = self.first_chains(p);
        let mut k: usize = 1;
        while k < 6
            invariant
                ab == self.all_configs(),
                1 <= k <= 6,
                p.min_n == 3,
                p.max_n == 13,
                rank_spec(ab, *p, ranked@),
                chains_at(ab, *p, chains@, k as nat),
                forall|j: int| 0 <= j < k ==> #[trigger] has_level(ab, level(j)),
            decreases 6 - k,
        {
            if chains.len() == 0 {
                proof {
                    assert(has_level(ab, level(0)));
                    assert(level(0) == 3);
                    assert forall|c: Seq<(isize, usize)>| #[trigger] valid_chain(ab, *p, c) implies c.len() != k by {
                        if c.len() == k {
                            let i = choose|i: int| 0 <= i < chains.len() && chains@[i].1@ == c;
                        }
                    }
                    lemma_no_longer_chains(ab, *p, k as nat);
                    assert forall|c: Seq<(isize, usize)>|
                        #[trigger] valid_chain(ab, *p, c) && c.len() < 6 implies has_level(
                            ab,
                            level(c.len() as int),
                        ) by {
                        assert(c.len() < k);
                    }
                }
                return true;
            }
            if !self.has_level_of(3 + 2 * k) {
                proof {
                    assert(valid_chain(ab, *p, chains@[0].1@));
                    assert(chains@[0].1@.len() == k);
                    assert(level(k as int) == 3 + 2 * k);
                }
                return false;
            }
            proof {
                assert(level(k as int) == 3 + 2 * k);
            }
            chains = self.extend_chains(&ranked, p, &chains, k);
            k = k + 1;
        }
        proof {
            assert(has_level(ab, level(0)));
            assert(level(0) == 3);
            assert forall|c: Seq<(isize, usize)>|
                #[trigger] valid_chain(ab, *p, c) && c.len() < 6 implies has_level(
                    ab,
                    level(c.len() as int),
                ) by {}
        }
        true
    }

    /// Whether the search has configurations of `n` regions.
    fn has_level_of(&self, n: usize) -> (r: bool)
        ensures
            r == has_level(self.all_configs(), n),
    {
        let all = &self.all_configs;
        let mut i: usize = 0;
        while i < all.len()
            invariant
                *all == self.all_configs,
                i <= all.len(),
                forall|q: int| 0 <= q < i ==> all@[q].0 != n,
            decreases all.len() - i,
        {
            if all[i].0 == n {
                proof {
                    assert(self.all_configs()[i as int].0 == n);
                }
                return true;
            }
            i = i + 1;
        }
        false
    }

    /// The highest ranked `max_configs` evolving configurations: a ranked
    /// configuration of 3 regions, one of 5 that extends it, and so on up to 13,
    /// each step adding regions and lowering Atlas' latency by at least
    /// `p.min_lat_decrease`; scored by the sum of their steps' scores, highest first.
    pub fn sorted_evolving_configs(&self, p: &RankingParams, max_configs: usize) -> (sorted: Vec<
        (isize, Vec<&ConfigAndStats>),
    >)
        requires
            p.min_n == 3,
            p.max_n == 13,
            evolving_defined(self.all_configs(), *p),
        ensures
            configs_wf(self.all_configs()),
            exists|top: Seq<(isize, Seq<(isize, usize)>)>|
                evolving_top(self.all_configs(), *p, max_configs as nat, top) && evolving_refers(
                    self.all_configs(),
                    top,
                    sorted@,
                ),
    {
        proof {
            use_type_invariant(self);
        }
        let all = &self.all_configs;
        let ghost ab = self.all_configs();
        let (ranked, mut chains) = self.first_chains(p);
        proof {
            assert(ab == all@);
        }
        let mut k: usize = 1;
        while k < 6
            invariant
                ab == self.all_configs(),
                1 <= k <= 6,
                p.min_n == 3,
                p.max_n == 13,
                rank_spec(ab, *p, ranked@),
                evolving_defined(ab, *p),
                chains_at(ab, *p, chains@, k as nat),
            decreases 6 - k,
        {
            proof {
                if chains.len() > 0 {
                    assert(valid_chain(ab, *p, chains@[0].1@));
                }
            }
            chains = self.extend_chains(&ranked, p, &chains, k);
            k = k + 1;
        }
        if chains.len() == 0 {
            let none: Vec<(isize, Vec<&ConfigAndStats>)> = Vec::new();
            proof {
                assert(evolving_top(ab, *p, max_configs as nat, Seq::empty()));
                assert(evolving_refers(ab, Seq::empty(), none@));
            }
            return none;
        }
        proof {
            assert(valid_chain(ab, *p, chains@[0].1@));
            assert(chain_ranked(ab, *p, chains@[0].1@));
        }
        let mut level_idx: Vec<usize> = Vec::new();
        let mut j: usize = 0;
        while j < 6
            invariant
                ab == self.all_configs(),
                j <= 6,
                level_idx.len() == j,
                forall|k: int| 0 <= k < 6 ==> #[trigger] has_level(ab, level(k)),
                forall|k: int| 0 <= k < j ==> level_idx@[k] == level_of(ab, level(k)),
            decreases 6 - j,
        {
            proof {
                assert(has_level(ab, level(j as int)));
            }
            let idx = self.level_index(3 + 2 * j);
            level_idx.push(idx);
            j = j + 1;
        }
        proof {
            assert(levels_indexed(ab, level_idx@));
        }
        let top = top_chains(all, &level_idx, chains, max_configs, Ghost(*p));
        let mut out: Vec<(isize, Vec<&ConfigAndStats>)> = Vec::new();
        let mut i: usize = 0;
        while i < top.len()
            invariant
                ab == all@,
                configs_wf(ab),
                level_idx.len() == 6,
                levels_indexed(ab, level_idx@),
                evolving_top(ab, *p, max_configs as nat, cviews(top@)),
                forall|q: int| 0 <= q < top.len() ==> (#[trigger] top@[q]).1.len() == 6,
                i <= top.len(),
                evolving_refers(ab, cviews(top@).take(i as int), out@),
            decreases top.len() - i,
        {
            let chain = &top[i];
            proof {
                assert(cviews(top@)[i as int] == cview(top@[i as int]));
                lemma_chain_positions(ab, *p, chain.1@);
            }
            let mut refs: Vec<&ConfigAndStats> = Vec::new();
            let mut k: usize = 0;
            while k < 6
                invariant
                    ab == all@,
                    configs_wf(ab),
                    level_idx.len() == 6,
                    levels_indexed(ab, level_idx@),
                    chain.1.len() == 6,
                    forall|k: int| 0 <= k < chain.1.len() ==> (#[trigger] chain.1@[k]).1 < level_css(ab, level(k)).len(),
                    k <= 6,
                    refs.len() == k,
                    forall|m: int| 0 <= m < k ==> *(#[trigger] refs@[m]) == chain_entry(ab, m, chain.1@[m]),
                decreases 6 - k,
            {
                let li = level_idx[k];
                proof {
                    let n = level(k as int);
                    assert(has_level(ab, n));
                    let q = level_of(ab, n);
                    assert(ab[q].0 == n);
                    assert(chain.1@[k as int].1 < level_css(ab, level(k as int)).len());
                }
                refs.push(&all[li].1[chain.1[k].1]);
                k = k + 1;
            }
            out.push((chain.0, refs));
            i = i + 1;
            proof {
                let tv = cviews(top@).take(i as int);
                assert forall|q: int| 0 <= q < out.len() implies {
                    &&& (#[trigger] out@[q]).0 == tv[q].0
                    &&& out@[q].1.len() == 6
                    &&& forall|k: int| 0 <= k < 6 ==> *(#[trigger] out@[q].1@[k]) == chain_entry(ab, k, tv[q].1[k])
                } by {
                    if q < i - 1 {
                        assert(cviews(top@).take(i - 1)[q] == tv[q]);
                    } else {
                        assert(tv[q] == cview(top@[q]));
                    }
                }
            }
        }
        proof {
            assert(cviews(top@).take(top.len() as int) =~= cviews(top@));
        }
        out
    }
}

} // verus!
