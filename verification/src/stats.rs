use vstd::prelude::*;
use vstd::string::*;
use crate::text::{decimal, push_decimal};

verus! {

/// Latency statistics of a deployment, as the configuration search reads them:
/// the mean latency, in whole milliseconds.
#[derive(Debug, Clone, Copy, PartialEq, Eq, PartialOrd, Ord, Hash)]
pub struct Stats {
    pub mean: u16,
}

/// What `{:?}` shows of a `Stats`.
pub open spec fn stats_text(s: Stats) -> Seq<char> {
    "Stats { mean: "@ + decimal(s.mean as nat) + " }"@
}

impl Stats {
    /// Statistics with the given mean latency.
    pub fn new(mean: u16) -> (s: Self)
        ensures
            s.mean == mean,
    {
        Stats { mean }
    }

    /// The mean latency.
    pub fn mean(&self) -> (m: u16)
        ensures
            m == self.mean,
    {
        self.mean
    }

    /// How much lower the mean latency of `other` is than this one's.
    pub fn mean_improv(&self, other: &Self) -> (d: isize)
        ensures
            d == self.mean - other.mean,
    {
        self.mean as isize - other.mean as isize
    }

    /// The text that `{:?}` shows of these statistics.
    pub fn debug_text(&self) -> (t: String)
        ensures
            t@ == stats_text(*self),
    {
        let mut t = String::from_str("Stats { mean: ");
        push_decimal(&mut t, self.mean as u64);
        t.append(" }");
        t
    }
}

/// The statistics computed for each configuration.
#[derive(Debug, Clone, Copy, PartialEq, Eq, PartialOrd, Ord, Hash, Structural)]
pub enum StatsKey {
    /// Atlas.
    Atlas,
    /// FPaxos with the leader that gives the lowest mean latency.
    LFPaxos,
    /// FPaxos with the leader that gives the fairest latencies.
    FFPaxos,
    /// EPaxos.
    EPaxos,
}

/// The key under which statistics of a protocol are stored for a number of tolerated faults.
pub open spec fn entry_key(e: (StatsKey, usize, Stats)) -> (StatsKey, usize) {
    (e.0, e.1)
}

/// The map that a list of entries with distinct keys stands for.
pub open spec fn entries_map(s: Seq<(StatsKey, usize, Stats)>) -> Map<(StatsKey, usize), Stats> {
    Map::new(
        |k: (StatsKey, usize)| exists|i: int| 0 <= i < s.len() && #[trigger] entry_key(s[i]) == k,
        |k: (StatsKey, usize)|
            s[choose|i: int| 0 <= i < s.len() && #[trigger] entry_key(s[i]) == k].2,
    )
}

/// No two entries share a key.
pub open spec fn keys_distinct(s: Seq<(StatsKey, usize, Stats)>) -> bool {
    forall|i: int, j: int| 0 <= i < j < s.len() ==> entry_key(s[i]) != entry_key(s[j])
}

proof fn lemma_entries_map_at(s: Seq<(StatsKey, usize, Stats)>, i: int)
    requires
        keys_distinct(s),
        0 <= i < s.len(),
    ensures
        entries_map(s).contains_key(entry_key(s[i])),
        entries_map(s)[entry_key(s[i])] == s[i].2,
{
    let k = entry_key(s[i]);
    assert(exists|i: int| 0 <= i < s.len() && #[trigger] entry_key(s[i]) == k);
    let j = choose|j: int| 0 <= j < s.len() && #[trigger] entry_key(s[j]) == k;
    assert(i == j) by {
        if i < j {
            assert(entry_key(s[i]) != entry_key(s[j]));
        } else if j < i {
            assert(entry_key(s[j]) != entry_key(s[i]));
        }
    }
}

/// All statistics of one configuration, by protocol and number of tolerated faults.
pub struct AllStats {
    entries: Vec<(StatsKey, usize, Stats)>,
}

impl AllStats {
    #[verifier::type_invariant]
    spec fn wf(self) -> bool {
        keys_distinct(self.entries@)
    }
}

impl View for AllStats {
    type V = Map<(StatsKey, usize), Stats>;

    closed spec fn view(&self) -> Map<(StatsKey, usize), Stats> {
        entries_map(self.entries@)
    }
}

impl AllStats {
    /// No statistics yet.
    pub fn new() -> (s: Self)
        ensures
            s@ == Map::<(StatsKey, usize), Stats>::empty(),
    {
        let s = AllStats { entries: Vec::new() };
        assert(s@ =~= Map::<(StatsKey, usize), Stats>::empty());
        s
    }

    /// The statistics of `key` with `f` tolerated faults.
    pub fn get(&self, key: StatsKey, f: usize) -> (s: Stats)
        requires
            self@.contains_key((key, f)),
        ensures
            s == self@[(key, f)],
    {
        proof {
            use_type_invariant(self);
        }
        let mut i: usize = 0;
        while i < self.entries.len()
            invariant
                i <= self.entries.len(),
                keys_distinct(self.entries@),
                forall|j: int| 0 <= j < i ==> entry_key(self.entries@[j]) != (key, f),
            decreases self.entries.len() - i,
        {
            let e = self.entries[i];
            if e.0 == key && e.1 == f {
                proof {
                    lemma_entries_map_at(self.entries@, i as int);
                }
                return e.2;
            }
            i = i + 1;
        }
        assert(false);
        self.entries[0].2
    }

    /// Whether there are statistics of `key` with `f` tolerated faults.
    pub fn contains(&self, key: StatsKey, f: usize) -> (r: bool)
        ensures
            r == self@.contains_key((key, f)),
    {
        proof {
            use_type_invariant(self);
        }
        let mut i: usize = 0;
        while i < self.entries.len()
            invariant
                i <= self.entries.len(),
                keys_distinct(self.entries@),
                forall|j: int| 0 <= j < i ==> entry_key(self.entries@[j]) != (key, f),
            decreases self.entries.len() - i,
        {
            let e = self.entries[i];
            if e.0 == key && e.1 == f {
                proof {
                    lemma_entries_map_at(self.entries@, i as int);
                }
                return true;
            }
            i = i + 1;
        }
        false
    }

    /// Records the statistics of `key` with `f` tolerated faults, replacing earlier ones.
    pub fn insert(&mut self, key: StatsKey, f: usize, stats: Stats)
        ensures
            final(self)@ == old(self)@.insert((key, f), stats),
    {
        proof {
            use_type_invariant(&*self);
        }
        let ghost before = self.entries@;
        let mut i: usize = 0;
        while i < self.entries.len()
            invariant
                self.entries@ == before,
                keys_distinct(before),
                old(self)@ == entries_map(before),
                i <= before.len(),
                forall|j: int| 0 <= j < i ==> entry_key(before[j]) != (key, f),
            decreases before.len() - i,
        {
            if self.entries[i].0 == key && self.entries[i].1 == f {
                let ghost after = before.update(i as int, (key, f, stats));
                proof {
                    assert(entry_key(after[i as int]) == entry_key(before[i as int]));
                    assert forall|a: int, b: int| 0 <= a < b < after.len() implies entry_key(after[a])
                        != entry_key(after[b]) by {
                        assert(entry_key(after[a]) == entry_key(before[a]));
                        assert(entry_key(after[b]) == entry_key(before[b]));
                    }
                    assert forall|k: (StatsKey, usize)|
                        #![trigger entries_map(after).contains_key(k)]
                        entries_map(after).contains_key(k) == before_insert_dom(before, key, f, k) by {
                        if k == (key, f) {
                            assert(entry_key(after[i as int]) == k);
                        } else {
                            if exists|j: int| 0 <= j < before.len() && #[trigger] entry_key(before[j]) == k {
                                let j = choose|j: int| 0 <= j < before.len() && #[trigger] entry_key(before[j]) == k;
                                assert(entry_key(after[j]) == k);
                            }
                            if exists|j: int| 0 <= j < after.len() && #[trigger] entry_key(after[j]) == k {
                                let j = choose|j: int| 0 <= j < after.len() && #[trigger] entry_key(after[j]) == k;
                                assert(entry_key(before[j]) == k);
                            }
                        }
                    }
                    assert forall|j: int| 0 <= j < after.len() implies
                        #[trigger] entries_map(after)[entry_key(after[j])]
                            == old(self)@.insert((key, f), stats)[entry_key(after[j])] by {
                        lemma_entries_map_at(after, j);
                        if j != i {
                            lemma_entries_map_at(before, j);
                        }
                    }
                    assert(entries_map(after) =~= old(self)@.insert((key, f), stats)) by {
                        assert forall|k: (StatsKey, usize)| #[trigger] entries_map(after).contains_key(k)
                            implies entries_map(after)[k] == old(self)@.insert((key, f), stats)[k] by {
                            let j = choose|j: int| 0 <= j < after.len() && #[trigger] entry_key(after[j]) == k;
                        }
                    }
                }
                let mut entries = Vec::new();
                std::mem::swap(&mut entries, &mut self.entries);
                entries.set(i, (key, f, stats));
                self.entries = entries;
                return;
            }
            i = i + 1;
        }
        let ghost after = before.push((key, f, stats));
        proof {
            assert(keys_distinct(after));
            assert forall|k: (StatsKey, usize)|
                #![trigger entries_map(after).contains_key(k)]
                entries_map(after).contains_key(k) == before_insert_dom(before, key, f, k) by {
                if k == (key, f) {
                    assert(entry_key(after[before.len() as int]) == k);
                } else {
                    if exists|j: int| 0 <= j < before.len() && #[trigger] entry_key(before[j]) == k {
                        let j = choose|j: int| 0 <= j < before.len() && #[trigger] entry_key(before[j]) == k;
                        assert(entry_key(after[j]) == k);
                    }
                    if exists|j: int| 0 <= j < after.len() && #[trigger] entry_key(after[j]) == k {
                        let j = choose|j: int| 0 <= j < after.len() && #[trigger] entry_key(after[j]) == k;
                        assert(entry_key(before[j]) == k);
                    }
                }
            }
            assert forall|j: int| 0 <= j < after.len() implies
                #[trigger] entries_map(after)[entry_key(after[j])]
                    == old(self)@.insert((key, f), stats)[entry_key(after[j])] by {
                lemma_entries_map_at(after, j);
                if j < before.len() {
                    lemma_entries_map_at(before, j);
                }
            }
            assert(entries_map(after) =~= old(self)@.insert((key, f), stats)) by {
                assert forall|k: (StatsKey, usize)| #[trigger] entries_map(after).contains_key(k)
                    implies entries_map(after)[k] == old(self)@.insert((key, f), stats)[k] by {
                    let j = choose|j: int| 0 <= j < after.len() && #[trigger] entry_key(after[j]) == k;
                }
            }
        }
        let mut entries = Vec::new();
        std::mem::swap(&mut entries, &mut self.entries);
        entries.push((key, f, stats));
        self.entries = entries;
    }

    /// The recorded entries: protocol, tolerated faults and statistics.
    pub fn entries(&self) -> (e: &Vec<(StatsKey, usize, Stats)>)
        ensures
            keys_distinct(e@),
            entries_map(e@) == self@,
    {
        proof {
            use_type_invariant(self);
        }
        &self.entries
    }
}

spec fn before_insert_dom(
    before: Seq<(StatsKey, usize, Stats)>,
    key: StatsKey,
    f: usize,
    k: (StatsKey, usize),
) -> bool {
    entries_map(before).insert((key, f), Stats { mean: 0 }).contains_key(k)
}

/// The consensus protocols whose latencies the search compares.
#[derive(Debug, Clone, Copy, PartialEq, Eq, Hash, Structural)]
pub enum Protocol {
    FPaxos,
    EPaxos,
    Atlas,
}

/// The number of processes a protocol waits for, among `n`, when it tolerates
/// `f` faults. EPaxos always tolerates a minority, so `f` does not matter to it.
pub open spec fn quorum_size_spec(p: Protocol, n: nat, f: nat) -> nat {
    let minority = n / 2;
    match p {
        Protocol::FPaxos => f + 1,
        Protocol::EPaxos => minority + (minority + 1) / 2,
        Protocol::Atlas => minority + f,
    }
}

impl Protocol {
    /// The number of processes this protocol waits for, among `n`, when it
    /// tolerates `f` faults.
    pub fn quorum_size(&self, n: usize, f: usize) -> (q: usize)
        requires
            quorum_size_spec(*self, n as nat, f as nat) <= usize::MAX,
        ensures
            q == quorum_size_spec(*self, n as nat, f as nat),
    {
        let minority = n / 2;
        match self {
            Protocol::FPaxos => f + 1,
            Protocol::EPaxos => minority + (minority + 1) / 2,
            Protocol::Atlas => minority + f,
        }
    }
}

/// The ways of computing the latency statistics of a deployment: every process
/// leads its own commands, or one leader chosen for the lowest mean latency,
/// or one chosen for the fairest latencies.
#[derive(Debug, Clone, Copy, PartialEq, Eq, Hash, Structural)]
pub enum BoteMethod {
    Leaderless,
    BestLatencyLeader,
    BestFairnessLeader,
}

} // verus!
