use vstd::prelude::*;
use vstd::relations::*;
use vstd::string::*;

verus! {

/// The outcome of comparing two values.
#[derive(Debug, Clone, Copy, PartialEq, Eq, Structural)]
pub enum Precedence {
    Before,
    Same,
    After,
}

/// `a` comes strictly before `b` in the lexicographic order induced by `lt`,
/// and `i` is the length of the prefix they share.
pub open spec fn lex_lt_at<A>(a: Seq<A>, b: Seq<A>, lt: spec_fn(A, A) -> bool, i: int) -> bool {
    &&& 0 <= i <= a.len()
    &&& i <= b.len()
    &&& forall|j: int| 0 <= j < i ==> a[j] == b[j]
    &&& ((i == a.len() && i < b.len()) || (i < a.len() && i < b.len() && lt(a[i], b[i])))
}

/// Lexicographic order on sequences: a proper prefix comes first, otherwise the
/// first differing position decides.
pub open spec fn lex_lt<A>(a: Seq<A>, b: Seq<A>, lt: spec_fn(A, A) -> bool) -> bool {
    exists|i: int| #[trigger] lex_lt_at(a, b, lt, i)
}

/// The lexicographic order induced by `lt`, as a relation.
pub open spec fn lex_order<A>(lt: spec_fn(A, A) -> bool) -> spec_fn(Seq<A>, Seq<A>) -> bool {
    |a: Seq<A>, b: Seq<A>| lex_lt(a, b, lt)
}

/// Characters ordered by their code points.
pub open spec fn char_order() -> spec_fn(char, char) -> bool {
    |x: char, y: char| (x as int) < (y as int)
}

/// Strings ordered as `String` orders them.
pub open spec fn text_order() -> spec_fn(Seq<char>, Seq<char>) -> bool {
    lex_order(char_order())
}

/// `a` comes strictly before `b` as text.
pub open spec fn text_lt(a: Seq<char>, b: Seq<char>) -> bool {
    lex_lt(a, b, char_order())
}

proof fn lemma_lex_irreflexive<A>(a: Seq<A>, lt: spec_fn(A, A) -> bool)
    requires
        irreflexive(lt),
    ensures
        !lex_lt(a, a, lt),
{
    if lex_lt(a, a, lt) {
        let i = choose|i: int| #[trigger] lex_lt_at(a, a, lt, i);
        assert(lt(a[i], a[i]));
    }
}

proof fn lemma_lex_transitive<A>(a: Seq<A>, b: Seq<A>, c: Seq<A>, lt: spec_fn(A, A) -> bool)
    requires
        transitive(lt),
        lex_lt(a, b, lt),
        lex_lt(b, c, lt),
    ensures
        lex_lt(a, c, lt),
{
    let i = choose|i: int| #[trigger] lex_lt_at(a, b, lt, i);
    let j = choose|j: int| #[trigger] lex_lt_at(b, c, lt, j);
    if i < j {
        assert(b[i] == c[i]);
        if i < a.len() {
            assert(lt(a[i], b[i]));
            assert(lt(a[i], c[i]));
        }
        assert(lex_lt_at(a, c, lt, i));
    } else if j < i {
        assert(a[j] == b[j]);
        assert(lex_lt_at(a, c, lt, j));
    } else {
        if i < a.len() {
            assert(lt(a[i], b[i]) && lt(b[i], c[i]));
            assert(lt(a[i], c[i]));
        }
        assert(lex_lt_at(a, c, lt, i));
    }
}

proof fn lemma_lex_connected<A>(a: Seq<A>, b: Seq<A>, lt: spec_fn(A, A) -> bool)
    requires
        connected(lt),
        a != b,
    ensures
        lex_lt(a, b, lt) || lex_lt(b, a, lt),
    decreases a.len(),
{
    if a.len() == 0 {
        assert(b.len() > 0) by {
            if b.len() == 0 {
                assert(a =~= b);
            }
        }
        assert(lex_lt_at(a, b, lt, 0));
    } else if b.len() == 0 {
        assert(lex_lt_at(b, a, lt, 0));
    } else if a[0] != b[0] {
        if lt(a[0], b[0]) {
            assert(lex_lt_at(a, b, lt, 0));
        } else {
            assert(lex_lt_at(b, a, lt, 0));
        }
    } else {
        let a1 = a.drop_first();
        let b1 = b.drop_first();
        assert(a1 != b1) by {
            if a1 =~= b1 {
                assert forall|k: int| 0 <= k < a.len() implies a[k] == b[k] by {
                    if k > 0 {
                        assert(a[k] == a1[k - 1]);
                        assert(b[k] == b1[k - 1]);
                    }
                }
                assert(a =~= b);
            }
        }
        lemma_lex_connected(a1, b1, lt);
        if lex_lt(a1, b1, lt) {
            let i = choose|i: int| #[trigger] lex_lt_at(a1, b1, lt, i);
            assert forall|j: int| 0 <= j < i + 1 implies a[j] == b[j] by {
                if j > 0 {
                    assert(a[j] == a1[j - 1]);
                    assert(b[j] == b1[j - 1]);
                }
            }
            assert(lex_lt_at(a, b, lt, i + 1));
        } else {
            let i = choose|i: int| #[trigger] lex_lt_at(b1, a1, lt, i);
            assert forall|j: int| 0 <= j < i + 1 implies b[j] == a[j] by {
                if j > 0 {
                    assert(a[j] == a1[j - 1]);
                    assert(b[j] == b1[j - 1]);
                }
            }
            assert(lex_lt_at(b, a, lt, i + 1));
        }
    }
}

/// The lexicographic extension of a strict total order is again one:
/// irreflexive, transitive and total.
pub proof fn lemma_lex_strict_total<A>(lt: spec_fn(A, A) -> bool)
    requires
        strict_total_ordering(lt),
    ensures
        forall|x: Seq<A>| !#[trigger] lex_lt(x, x, lt),
        forall|x: Seq<A>, y: Seq<A>, z: Seq<A>|
            #[trigger] lex_lt(x, y, lt) && #[trigger] lex_lt(y, z, lt) ==> lex_lt(x, z, lt),
        forall|x: Seq<A>, y: Seq<A>|
            x != y ==> #[trigger] lex_lt(x, y, lt) || #[trigger] lex_lt(y, x, lt),
{
    assert forall|x: Seq<A>| !#[trigger] lex_lt(x, x, lt) by {
        lemma_lex_irreflexive(x, lt);
    }
    assert forall|x: Seq<A>, y: Seq<A>, z: Seq<A>|
        #[trigger] lex_lt(x, y, lt) && #[trigger] lex_lt(y, z, lt) implies lex_lt(x, z, lt) by {
        lemma_lex_transitive(x, y, z, lt);
    }
    assert forall|x: Seq<A>, y: Seq<A>| x != y implies #[trigger] lex_lt(x, y, lt)
        || #[trigger] lex_lt(y, x, lt) by {
        lemma_lex_connected(x, y, lt);
    }
}

/// Every element of `s` comes strictly before the ones that follow it.
pub open spec fn sorted_strictly<A>(s: Seq<A>, lt: spec_fn(A, A) -> bool) -> bool {
    forall|i: int, j: int| 0 <= i < j < s.len() ==> lt(s[i], s[j])
}

/// A sequence whose neighbours are in order is sorted, for a transitive order.
pub proof fn lemma_sorted_from_neighbours<A>(s: Seq<A>, lt: spec_fn(A, A) -> bool)
    requires
        transitive(lt),
        forall|i: int| 0 <= i < s.len() - 1 ==> lt(#[trigger] s[i], s[i + 1]),
    ensures
        sorted_strictly(s, lt),
    decreases s.len(),
{
    if s.len() > 1 {
        let d = s.drop_last();
        assert forall|i: int| 0 <= i < d.len() - 1 implies lt(#[trigger] d[i], d[i + 1]) by {
            assert(d[i] == s[i] && d[i + 1] == s[i + 1]);
        }
        lemma_sorted_from_neighbours(d, lt);
        assert forall|i: int, j: int| 0 <= i < j < s.len() implies lt(s[i], s[j]) by {
            if j < s.len() - 1 {
                assert(d[i] == s[i] && d[j] == s[j]);
            } else if i < j - 1 {
                assert(d[i] == s[i] && d[j - 1] == s[j - 1]);
                assert(lt(s[i], s[j - 1]));
                assert(lt(s[j - 1], s[j]));
            }
        }
    }
}

/// Two sequences sorted strictly by the same strict total order, with the same
/// elements, are equal.
pub proof fn lemma_sorted_unique_by<A>(a: Seq<A>, b: Seq<A>, lt: spec_fn(A, A) -> bool)
    requires
        strict_total_ordering(lt),
        sorted_strictly(a, lt),
        sorted_strictly(b, lt),
        forall|x: A| a.contains(x) <==> b.contains(x),
    ensures
        a == b,
    decreases a.len(),
{
    if a.len() == 0 {
        if b.len() > 0 {
            assert(b.contains(b[0]));
        }
        assert(a =~= b);
    } else if b.len() == 0 {
        assert(a.contains(a[0]));
    } else {
        assert(b.contains(a[0]));
        assert(a.contains(b[0]));
        let j = choose|j: int| 0 <= j < b.len() && b[j] == a[0];
        let i = choose|i: int| 0 <= i < a.len() && a[i] == b[0];
        if a[0] != b[0] {
            assert(i > 0 && j > 0);
            assert(lt(b[0], b[j]));
            assert(lt(a[0], a[i]));
            assert(false);
        }
        let a1 = a.drop_first();
        let b1 = b.drop_first();
        assert forall|x: A| a1.contains(x) <==> b1.contains(x) by {
            if a1.contains(x) {
                let k = choose|k: int| 0 <= k < a1.len() && a1[k] == x;
                assert(a[k + 1] == x);
                assert(lt(a[0], a[k + 1]));
                assert(x != a[0]);
                assert(a.contains(x));
                let m = choose|m: int| 0 <= m < b.len() && b[m] == x;
                assert(m != 0);
                assert(b1[m - 1] == x);
            }
            if b1.contains(x) {
                let k = choose|k: int| 0 <= k < b1.len() && b1[k] == x;
                assert(b[k + 1] == x);
                assert(lt(b[0], b[k + 1]));
                assert(x != b[0]);
                assert(b.contains(x));
                let m = choose|m: int| 0 <= m < a.len() && a[m] == x;
                assert(m != 0);
                assert(a1[m - 1] == x);
            }
        }
        assert(sorted_strictly(a1, lt)) by {
            assert forall|p: int, q: int| 0 <= p < q < a1.len() implies lt(a1[p], a1[q]) by {
                assert(a1[p] == a[p + 1] && a1[q] == a[q + 1]);
            }
        }
        assert(sorted_strictly(b1, lt)) by {
            assert forall|p: int, q: int| 0 <= p < q < b1.len() implies lt(b1[p], b1[q]) by {
                assert(b1[p] == b[p + 1] && b1[q] == b[q + 1]);
            }
        }
        lemma_sorted_unique_by(a1, b1, lt);
        assert(a =~= b) by {
            assert forall|k: int| 0 <= k < a.len() implies a[k] == b[k] by {
                if k > 0 {
                    assert(a[k] == a1[k - 1]);
                    assert(b[k] == b1[k - 1]);
                }
            }
        }
    }
}

/// Code points order characters strictly and totally.
pub proof fn lemma_char_order_strict_total()
    ensures
        strict_total_ordering(char_order()),
{
    let r = char_order();
    assert forall|x: char, y: char| x != y implies #[trigger] r(x, y) || #[trigger] r(y, x) by {
        assert((x as int) != (y as int));
    }
}

/// Text is ordered strictly and totally.
pub proof fn lemma_text_order()
    ensures
        forall|x: Seq<char>| !#[trigger] text_lt(x, x),
        forall|x: Seq<char>, y: Seq<char>, z: Seq<char>|
            #[trigger] text_lt(x, y) && #[trigger] text_lt(y, z) ==> text_lt(x, z),
        forall|x: Seq<char>, y: Seq<char>|
            x != y ==> #[trigger] text_lt(x, y) || #[trigger] text_lt(y, x),
{
    lemma_char_order_strict_total();
    lemma_lex_strict_total(char_order());
}

/// Text is ordered strictly and totally, as a relation.
pub proof fn lemma_text_order_strict_total()
    ensures
        strict_total_ordering(text_order()),
{
    lemma_text_order();
    let r = text_order();
    assert forall|x: Seq<char>| !#[trigger] r(x, x) by {
        assert(!text_lt(x, x));
    }
    assert forall|x: Seq<char>, y: Seq<char>, z: Seq<char>|
        #[trigger] r(x, y) && #[trigger] r(y, z) implies r(x, z) by {
        assert(text_lt(x, y) && text_lt(y, z));
    }
    assert forall|x: Seq<char>, y: Seq<char>| #[trigger] r(x, y) && #[trigger] r(y, x) implies x == y by {
        assert(text_lt(x, y) && text_lt(y, x));
        assert(text_lt(x, x));
    }
    assert forall|x: Seq<char>, y: Seq<char>| x != y implies #[trigger] r(x, y) || #[trigger] r(y, x) by {
        assert(text_lt(x, y) || text_lt(y, x));
    }
}

/// Compares two strings as `String` does, character by character.
pub fn compare_text(a: &str, b: &str) -> (p: Precedence)
    ensures
        p == Precedence::Before <==> text_lt(a@, b@),
        p == Precedence::Same <==> a@ == b@,
        p == Precedence::After <==> text_lt(b@, a@),
{
    proof {
        lemma_text_order();
    }
    let la = a.unicode_len();
    let lb = b.unicode_len();
    let mut i: usize = 0;
    while i < la && i < lb
        invariant
            la == a@.len(),
            lb == b@.len(),
            i <= la,
            i <= lb,
            forall|j: int| 0 <= j < i ==> a@[j] == b@[j],
        decreases la - i,
    {
        let ca = a.get_char(i);
        let cb = b.get_char(i);
        if ca != cb {
            if (ca as u32) < (cb as u32) {
                assert(lex_lt_at(a@, b@, char_order(), i as int));
                return Precedence::Before;
            } else {
                assert(lex_lt_at(b@, a@, char_order(), i as int));
                return Precedence::After;
            }
        }
        i = i + 1;
    }
    if la < lb {
        assert(lex_lt_at(a@, b@, char_order(), i as int));
        Precedence::Before
    } else if lb < la {
        assert(lex_lt_at(b@, a@, char_order(), i as int));
        Precedence::After
    } else {
        assert(a@ =~= b@);
        Precedence::Same
    }
}

/// `usize` keys are ordered as `BTreeMap` needs them to be.
pub proof fn lemma_usize_keys_ordered()
    ensures
        vstd::laws_cmp::obeys_cmp::<usize>(),
{
    broadcast use vstd::laws_cmp::group_laws_cmp;

}

} // verus!
