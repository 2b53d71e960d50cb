use vstd::prelude::*;
use crate::order::{lemma_text_order, text_lt, Precedence};
use crate::region::{compare_configs, compare_regions, config_lt, lemma_config_order, names, strictly_increasing, Region};
use crate::stats::StatsKey;
use super::{config_wf, configs_wf, level_wf, max_f_spec, stats_key_present, ConfigAndStats, Search};

verus! {

/// The configurations of `n` regions: well formed, and in increasing order.
pub open spec fn level_sorted(n: usize, css: Seq<ConfigAndStats>) -> bool {
    &&& css.len() <= usize::MAX
    &&& forall|c: int| 0 <= c < css.len() ==> config_wf(n, #[trigger] css[c])
    &&& forall|c: int, d: int|
        0 <= c < d < css.len() ==> config_lt(names(#[trigger] css[c].0@), names(#[trigger] css[d].0@))
}

/// Stored configurations, as a search keeps them: by increasing number of
/// regions, each level well formed and in increasing order.
pub open spec fn stored_wf(all: Seq<(usize, Vec<ConfigAndStats>)>) -> bool {
    &&& forall|i: int, j: int| 0 <= i < j < all.len() ==> all[i].0 < all[j].0
    &&& forall|i: int| 0 <= i < all.len() ==> level_sorted(#[trigger] all[i].0, all[i].1@)
}

proof fn lemma_stored_wf(all: Seq<(usize, Vec<ConfigAndStats>)>)
    requires
        stored_wf(all),
    ensures
        configs_wf(all),
{
    lemma_config_order();
    assert forall|i: int| 0 <= i < all.len() implies level_wf(#[trigger] all[i].0, all[i].1@) by {
        let css = all[i].1@;
        assert(level_sorted(all[i].0, css));
        assert forall|c: int, d: int|
            0 <= c < css.len() && 0 <= d < css.len() && c != d implies names(#[trigger] css[c].0@)
                != names(#[trigger] css[d].0@) by {
            if c < d {
                assert(config_lt(names(css[c].0@), names(css[d].0@)));
            } else {
                assert(config_lt(names(css[d].0@), names(css[c].0@)));
            }
        }
    }
}

/// Whether a configuration of `n` regions is well formed.
fn check_config(n: usize, cs: &ConfigAndStats) -> (r: bool)
    ensures
        r == config_wf(n, *cs),
{
    proof {
        lemma_text_order();
    }
    let config = &cs.0;
    if config.len() != n {
        return false;
    }
    let mut i: usize = 1;
    while i < config.len()
        invariant
            *config == cs.0,
            config.len() == n,
            1 <= i <= config.len() || config.len() == 0,
            forall|a: int, b: int| 0 <= a < b < i && b < config.len() ==> text_lt(names(config@)[a], names(config@)[b]),
        decreases config.len() - i,
    {
        proof {
            lemma_text_order();
        }
        if compare_regions(&config[i - 1], &config[i]) != Precedence::Before {
            proof {
                assert(!text_lt(names(config@)[i - 1], names(config@)[i as int]));
            }
            return false;
        }
        proof {
            assert forall|a: int, b: int| 0 <= a < b < i + 1 && b < config.len() implies text_lt(
                names(config@)[a],
                names(config@)[b],
            ) by {
                if b == i && a < i - 1 {
                    assert(text_lt(names(config@)[a], names(config@)[i - 1]));
                }
            }
        }
        i = i + 1;
    }
    proof {
        assert(strictly_increasing(names(config@)));
    }
    let stats = &cs.1;
    let max_f = if n / 2 < 2 {
        n / 2
    } else {
        2
    };
    let mut f: usize = 1;
    while f <= max_f
        invariant
            *stats == cs.1,
            cs.0.len() == n,
            strictly_increasing(names(cs.0@)),
            max_f == max_f_spec(n as nat),
            1 <= f <= max_f + 1,
            forall|g: usize| 1 <= g < f ==> #[trigger] stats@.contains_key((StatsKey::Atlas, g)),
            forall|g: usize| 1 <= g < f ==> #[trigger] stats@.contains_key((StatsKey::LFPaxos, g)),
            forall|g: usize| 1 <= g < f ==> #[trigger] stats@.contains_key((StatsKey::FFPaxos, g)),
        decreases max_f + 1 - f,
    {
        if !stats.contains(StatsKey::Atlas, f) || !stats.contains(StatsKey::LFPaxos, f)
            || !stats.contains(StatsKey::FFPaxos, f) {
            proof {
                if !stats@.contains_key((StatsKey::Atlas, f)) {
                    assert(stats_key_present(n as nat, (StatsKey::Atlas, f)));
                } else if !stats@.contains_key((StatsKey::LFPaxos, f)) {
                    assert(stats_key_present(n as nat, (StatsKey::LFPaxos, f)));
                } else {
                    assert(stats_key_present(n as nat, (StatsKey::FFPaxos, f)));
                }
            }
            return false;
        }
        f = f + 1;
    }
    if !stats.contains(StatsKey::EPaxos, 0) {
        proof {
            assert(stats_key_present(n as nat, (StatsKey::EPaxos, 0usize)));
        }
        return false;
    }
    proof {
        assert forall|k: (StatsKey, usize)| stats_key_present(n as nat, k) implies #[trigger] stats@.contains_key(k) by {
            match k.0 {
                StatsKey::Atlas => {},
                StatsKey::LFPaxos => {},
                StatsKey::FFPaxos => {},
                StatsKey::EPaxos => {},
            }
        }
    }
    true
}

/// Whether the configurations of `n` regions are well formed and in increasing order.
fn check_level(n: usize, css: &Vec<ConfigAndStats>) -> (r: bool)
    ensures
        r == level_sorted(n, css@),
{
    proof {
        lemma_config_order();
    }
    let _len = css.len();
    let mut i: usize = 0;
    while i < css.len()
        invariant
            i <= css.len(),
            forall|c: int| 0 <= c < i ==> config_wf(n, #[trigger] css@[c]),
            forall|c: int, d: int|
                0 <= c < d < i ==> config_lt(names(#[trigger] css@[c].0@), names(#[trigger] css@[d].0@)),
        decreases css.len() - i,
    {
        proof {
            lemma_config_order();
        }
        if !check_config(n, &css[i]) {
            return false;
        }
        if i > 0 && compare_configs(&css[i - 1].0, &css[i].0) != Precedence::Before {
            return false;
        }
        proof {
            assert forall|c: int, d: int|
                0 <= c < d < i + 1 implies config_lt(names(#[trigger] css@[c].0@), names(#[trigger] css@[d].0@)) by {
                if d == i && c < i - 1 {
                    assert(config_lt(names(css@[c].0@), names(css@[i - 1].0@)));
                }
            }
        }
        i = i + 1;
    }
    true
}

impl Search {
    /// A search of the given configurations, if they are stored as a search
    /// keeps them.
    pub fn from_parts(
        regions: Vec<Region>,
        clients: Option<Vec<Region>>,
        all_configs: Vec<(usize, Vec<ConfigAndStats>)>,
    ) -> (s: Option<Search>)
        ensures
            s is Some <==> stored_wf(all_configs@),
            s matches Some(s) ==> s.regions_spec() == regions@ && s.clients_spec() == clients
                && s.all_configs() == all_configs@,
    {
        let mut i: usize = 0;
        while i < all_configs.len()
            invariant
                i <= all_configs.len(),
                forall|a: int, b: int| 0 <= a < b < i ==> all_configs@[a].0 < all_configs@[b].0,
                forall|a: int| 0 <= a < i ==> level_sorted(#[trigger] all_configs@[a].0, all_configs@[a].1@),
            decreases all_configs.len() - i,
        {
            if i > 0 && all_configs[i - 1].0 >= all_configs[i].0 {
                return None;
            }
            if !check_level(all_configs[i].0, &all_configs[i].1) {
                return None;
            }
            i = i + 1;
        }
        proof {
            lemma_stored_wf(all_configs@);
        }
        Some(Search { regions, clients, all_configs })
    }

    /// The regions among which servers were chosen.
    pub fn regions(&self) -> (r: &Vec<Region>)
        ensures
            r@ == self.regions_spec(),
    {
        &self.regions
    }

    /// The regions of the clients, if they are not the servers' own.
    pub fn clients(&self) -> (c: &Option<Vec<Region>>)
        ensures
            *c == self.clients_spec(),
    {
        &self.clients
    }

    /// The configurations of each number of regions, with their statistics.
    pub fn configs_by_size(&self) -> (a: &Vec<(usize, Vec<ConfigAndStats>)>)
        ensures
            a@ == self.all_configs(),
            configs_wf(a@),
            stored_wf(a@),
    {
        proof {
            use_type_invariant(self);
        }
        &self.all_configs
    }
}

} // verus!
