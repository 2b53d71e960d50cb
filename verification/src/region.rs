use vstd::prelude::*;
use vstd::string::*;
use vstd::relations::strict_total_ordering;
use crate::order::{compare_text, lemma_lex_strict_total, lemma_text_order, lemma_text_order_strict_total, lex_lt, lex_lt_at, lex_order, text_lt, text_order, Precedence};

verus! {

/// A named location where servers and clients can be deployed.
#[derive(Debug, PartialEq, Eq, PartialOrd, Ord, Hash)]
pub struct Region {
    name: String,
}

impl View for Region {
    type V = Seq<char>;

    /// The region's name.
    closed spec fn view(&self) -> Seq<char> {
        self.name@
    }
}

impl Clone for Region {
    fn clone(&self) -> (r: Self)
        ensures
            r == *self,
    {
        Region { name: self.name.clone() }
    }
}

impl Region {
    /// Creates a region with the given name.
    pub fn new(name: &str) -> (r: Self)
        ensures
            r@ == name@,
    {
        Region { name: String::from_str(name) }
    }

    /// The region's name.
    pub fn name(&self) -> (s: &String)
        ensures
            s@ == self@,
    {
        &self.name
    }
}

/// The names of a sequence of regions.
pub open spec fn names(rs: Seq<Region>) -> Seq<Seq<char>> {
    rs.map_values(|r: Region| r@)
}

/// Every name comes strictly before the names that follow it.
pub open spec fn strictly_increasing(s: Seq<Seq<char>>) -> bool {
    forall|i: int, j: int| 0 <= i < j < s.len() ==> text_lt(s[i], s[j])
}

/// Compares two regions by name.
pub fn compare_regions(a: &Region, b: &Region) -> (p: Precedence)
    ensures
        p == Precedence::Before <==> text_lt(a@, b@),
        p == Precedence::Same <==> a@ == b@,
        p == Precedence::After <==> text_lt(b@, a@),
{
    compare_text(a.name.as_str(), b.name.as_str())
}

/// A configuration, given by the names of its regions in increasing order,
/// comes strictly before another one as `BTreeSet<Region>` orders them.
pub open spec fn config_lt(a: Seq<Seq<char>>, b: Seq<Seq<char>>) -> bool {
    lex_lt(a, b, text_order())
}

/// Configurations are ordered strictly and totally.
pub proof fn lemma_config_order()
    ensures
        forall|x: Seq<Seq<char>>| !#[trigger] config_lt(x, x),
        forall|x: Seq<Seq<char>>, y: Seq<Seq<char>>, z: Seq<Seq<char>>|
            #[trigger] config_lt(x, y) && #[trigger] config_lt(y, z) ==> config_lt(x, z),
        forall|x: Seq<Seq<char>>, y: Seq<Seq<char>>|
            x != y ==> #[trigger] config_lt(x, y) || #[trigger] config_lt(y, x),
{
    lemma_text_order_strict_total();
    let r = text_order();
    lemma_lex_strict_total(r);
}

/// Configurations are ordered strictly and totally, as a relation.
pub proof fn lemma_config_order_strict_total()
    ensures
        strict_total_ordering(lex_order(text_order())),
{
    lemma_config_order();
    let r = lex_order(text_order());
    assert forall|x: Seq<Seq<char>>| !#[trigger] r(x, x) by {
        assert(!config_lt(x, x));
    }
    assert forall|x: Seq<Seq<char>>, y: Seq<Seq<char>>, z: Seq<Seq<char>>|
        #[trigger] r(x, y) && #[trigger] r(y, z) implies r(x, z) by {
        assert(config_lt(x, y) && config_lt(y, z));
    }
    assert forall|x: Seq<Seq<char>>, y: Seq<Seq<char>>| #[trigger] r(x, y) && #[trigger] r(y, x)
        implies x == y by {
        assert(config_lt(x, y) && config_lt(y, x));
        assert(config_lt(x, x));
    }
    assert forall|x: Seq<Seq<char>>, y: Seq<Seq<char>>| x != y implies #[trigger] r(x, y)
        || #[trigger] r(y, x) by {
        assert(config_lt(x, y) || config_lt(y, x));
    }
}

/// Compares two configurations, each with its regions in increasing order, as
/// `BTreeSet<Region>` compares them.
pub fn compare_configs(a: &Vec<Region>, b: &Vec<Region>) -> (p: Precedence)
    ensures
        p == Precedence::Before <==> config_lt(names(a@), names(b@)),
        p == Precedence::Same <==> names(a@) == names(b@),
        p == Precedence::After <==> config_lt(names(b@), names(a@)),
{
    proof {
        lemma_config_order();
        lemma_text_order();
    }
    let ghost na = names(a@);
    let ghost nb = names(b@);
    let mut i: usize = 0;
    while i < a.len() && i < b.len()
        invariant
            na == names(a@),
            nb == names(b@),
            i <= a.len(),
            i <= b.len(),
            forall|j: int| 0 <= j < i ==> na[j] == nb[j],
        decreases a.len() - i,
    {
        let p = compare_regions(&a[i], &b[i]);
        if p == Precedence::Before {
            assert(text_order()(na[i as int], nb[i as int]));
            assert(lex_lt_at(na, nb, text_order(), i as int));
            return Precedence::Before;
        } else if p == Precedence::After {
            assert(text_order()(nb[i as int], na[i as int]));
            assert(lex_lt_at(nb, na, text_order(), i as int));
            return Precedence::After;
        }
        i = i + 1;
    }
    if a.len() < b.len() {
        assert(lex_lt_at(na, nb, text_order(), i as int));
        Precedence::Before
    } else if b.len() < a.len() {
        assert(lex_lt_at(nb, na, text_order(), i as int));
        Precedence::After
    } else {
        assert(na =~= nb);
        Precedence::Same
    }
}

/// Whether no two of the regions share a name.
pub fn distinct_names(regions: &Vec<Region>) -> (r: bool)
    ensures
        r == names(regions@).no_duplicates(),
{
    let mut i: usize = 0;
    while i < regions.len()
        invariant
            i <= regions.len(),
            forall|a: int, b: int|
                0 <= a < i && 0 <= b < regions.len() && a != b ==> names(regions@)[a] != names(
                    regions@,
                )[b],
        decreases regions.len() - i,
    {
        let mut j: usize = 0;
        while j < regions.len()
            invariant
                i < regions.len(),
                j <= regions.len(),
                forall|a: int, b: int|
                    0 <= a < i && 0 <= b < regions.len() && a != b ==> names(regions@)[a] != names(
                        regions@,
                    )[b],
                forall|b: int| 0 <= b < j && b != i ==> names(regions@)[i as int] != names(regions@)[b],
            decreases regions.len() - j,
        {
            if j != i && compare_regions(&regions[i], &regions[j]) == Precedence::Same {
                proof {
                    assert(names(regions@)[i as int] == names(regions@)[j as int]);
                }
                return false;
            }
            j = j + 1;
        }
        i = i + 1;
    }
    true
}

/// Every name of `small` is a name of `big`.
pub open spec fn superset_of(big: Seq<Seq<char>>, small: Seq<Seq<char>>) -> bool {
    forall|x: Seq<char>| small.contains(x) ==> big.contains(x)
}

/// Whether every region of `small` is also in `big`, as `BTreeSet::is_superset`.
pub fn is_superset(big: &Vec<Region>, small: &Vec<Region>) -> (r: bool)
    ensures
        r == superset_of(names(big@), names(small@)),
{
    let mut i: usize = 0;
    while i < small.len()
        invariant
            i <= small.len(),
            forall|k: int| 0 <= k < i ==> names(big@).contains(#[trigger] names(small@)[k]),
        decreases small.len() - i,
    {
        let mut j: usize = 0;
        let mut found = false;
        while j < big.len() && !found
            invariant
                i < small.len(),
                j <= big.len(),
                found ==> names(big@).contains(names(small@)[i as int]),
                !found ==> forall|m: int| 0 <= m < j ==> names(big@)[m] != names(small@)[i as int],
            decreases big.len() - j + (if found { 0int } else { 1int }),
        {
            if compare_regions(&big[j], &small[i]) == Precedence::Same {
                found = true;
                assert(names(big@)[j as int] == names(small@)[i as int]);
            } else {
                j = j + 1;
            }
        }
        if !found {
            proof {
                assert(names(small@).contains(names(small@)[i as int]));
                assert(!names(big@).contains(names(small@)[i as int]));
            }
            return false;
        }
        i = i + 1;
    }
    proof {
        assert forall|x: Seq<char>| names(small@).contains(x) implies names(big@).contains(x) by {
            let k = choose|k: int| 0 <= k < small.len() && names(small@)[k] == x;
        }
    }
    true
}

/// Sorts regions with distinct names by name.
pub fn sort_regions(regions: Vec<Region>) -> (sorted: Vec<Region>)
    requires
        names(regions@).no_duplicates(),
    ensures
        sorted.len() == regions.len(),
        strictly_increasing(names(sorted@)),
        forall|x: Seq<char>| names(sorted@).contains(x) <==> names(regions@).contains(x),
{
    proof {
        lemma_text_order();
    }
    let ghost given = regions@;
    let mut rest = regions;
    let mut sorted: Vec<Region> = Vec::new();
    while rest.len() > 0
        invariant
            sorted.len() + rest.len() == given.len(),
            strictly_increasing(names(sorted@)),
            names(rest@).no_duplicates(),
            forall|i: int, j: int|
                0 <= i < sorted.len() && 0 <= j < rest.len() ==> sorted@[i]@ != rest@[j]@,
            forall|x: Seq<char>|
                names(given).contains(x) <==> (names(sorted@).contains(x) || names(
                    rest@,
                ).contains(x)),
            forall|x: Seq<char>| !#[trigger] text_lt(x, x),
            forall|x: Seq<char>, y: Seq<char>, z: Seq<char>|
                #[trigger] text_lt(x, y) && #[trigger] text_lt(y, z) ==> text_lt(x, z),
            forall|x: Seq<char>, y: Seq<char>|
                x != y ==> #[trigger] text_lt(x, y) || #[trigger] text_lt(y, x),
        decreases rest.len(),
    {
        let ghost before_sorted = sorted@;
        let ghost before_rest = rest@;
        let r = rest.pop().unwrap();
        let mut p: usize = 0;
        while p < sorted.len() && compare_regions(&sorted[p], &r) == Precedence::Before
            invariant
                sorted@ == before_sorted,
                p <= sorted.len(),
                forall|k: int| 0 <= k < p ==> text_lt(sorted@[k]@, r@),
            decreases sorted.len() - p,
        {
            p = p + 1;
        }
        proof {
            assert(r == before_rest.last());
            if p < sorted.len() {
                assert(sorted@[p as int]@ != r@);
                assert(!text_lt(sorted@[p as int]@, r@));
                assert(text_lt(r@, sorted@[p as int]@));
            }
        }
        sorted.insert(p, r);
        proof {
            let s = sorted@;
            assert(s == before_sorted.insert(p as int, r));
            let ns = names(s);
            let nb = names(before_sorted);
            assert(ns =~= nb.insert(p as int, r@));
            assert forall|k: int| 0 <= k < p implies text_lt(nb[k], r@) by {
                assert(nb[k] == before_sorted[k]@);
            }
            if p < nb.len() {
                assert(nb[p as int] == sorted@[p as int + 1]@);
            }
            assert forall|i: int, j: int| 0 <= i < j < s.len() implies text_lt(ns[i], ns[j]) by {
                if j < p {
                    assert(text_lt(nb[i], nb[j]));
                } else if j == p {
                } else if i == p {
                    if j - 1 > p {
                        assert(text_lt(nb[p as int], nb[j - 1]));
                    }
                } else if i < p {
                    assert(text_lt(nb[i], nb[j - 1]));
                } else {
                    assert(text_lt(nb[i - 1], nb[j - 1]));
                }
            }
            assert forall|i: int, j: int|
                0 <= i < s.len() && 0 <= j < rest.len() implies s[i]@ != rest@[j]@ by {
                assert(rest@[j] == before_rest[j]);
                if i < p {
                    assert(s[i] == before_sorted[i]);
                } else if i == p {
                    assert(names(before_rest)[j] != names(before_rest)[before_rest.len() - 1]);
                } else {
                    assert(s[i] == before_sorted[i - 1]);
                }
            }
            assert forall|x: Seq<char>|
                names(given).contains(x) <==> (names(s).contains(x) || names(
                    rest@,
                ).contains(x)) by {
                if names(before_sorted).contains(x) {
                    let k = choose|k: int| 0 <= k < before_sorted.len() && names(before_sorted)[k] == x;
                    if k < p {
                        assert(names(s)[k] == x);
                    } else {
                        assert(names(s)[k + 1] == x);
                    }
                }
                if names(before_rest).contains(x) {
                    let k = choose|k: int| 0 <= k < before_rest.len() && names(before_rest)[k] == x;
                    if k < rest.len() {
                        assert(names(rest@)[k] == x);
                    } else {
                        assert(names(s)[p as int] == x);
                    }
                }
                if names(s).contains(x) {
                    let k = choose|k: int| 0 <= k < s.len() && names(s)[k] == x;
                    if k < p {
                        assert(names(before_sorted)[k] == x);
                    } else if k == p {
                        assert(names(before_rest)[before_rest.len() - 1] == x);
                    } else {
                        assert(names(before_sorted)[k - 1] == x);
                    }
                }
                if names(rest@).contains(x) {
                    let k = choose|k: int| 0 <= k < rest.len() && names(rest@)[k] == x;
                    assert(names(before_rest)[k] == x);
                }
            }
            assert forall|i: int, j: int|
                0 <= i < rest.len() && 0 <= j < rest.len() && i != j implies names(rest@)[i]
                != names(rest@)[j] by {
                assert(names(before_rest)[i] != names(before_rest)[j]);
            }
        }
    }
    sorted
}

} // verus!
