use vstd::prelude::*;
use crate::id::Id;

verus! {

/// Identifies a client.
pub type ClientId = u64;

/// Identifies a command: the client that issued it and the client's sequence number.
pub type Rifl = Id<ClientId>;

/// What an executor hands back to clients.
#[derive(Debug, Clone, PartialEq, Eq)]
pub enum ExecutorResult<R> {
    /// The command of a client of this process was executed, with this result.
    Ready(R),
}

/// The commands still pending and the results handed back, after the executed
/// commands `executed` are handled in order starting from the pending commands
/// `pending`: a command's result is handed back, and the command stops being
/// pending, if and only if it is pending when it is handled.
pub open spec fn handle_spec<R>(pending: Set<Rifl>, executed: Seq<(Rifl, R)>) -> (Set<Rifl>, Seq<
    ExecutorResult<R>,
>)
    decreases executed.len(),
{
    if executed.len() == 0 {
        (pending, seq![])
    } else {
        let (p, out) = handle_spec(pending, executed.drop_last());
        let (rifl, result) = executed.last();
        if p.contains(rifl) {
            (p.remove(rifl), out.push(ExecutorResult::Ready(result)))
        } else {
            (p, out)
        }
    }
}

/// The commands whose results `handle_spec` hands back, in order.
pub open spec fn answered<R>(pending: Set<Rifl>, executed: Seq<(Rifl, R)>) -> Seq<Rifl>
    decreases executed.len(),
{
    if executed.len() == 0 {
        seq![]
    } else {
        let p = handle_spec(pending, executed.drop_last()).0;
        let rifl = executed.last().0;
        if p.contains(rifl) {
            answered(pending, executed.drop_last()).push(rifl)
        } else {
            answered(pending, executed.drop_last())
        }
    }
}

/// Handling executed commands hands back one result per answered command; it
/// answers only pending commands, each at most once, and every pending command
/// among the executed ones; the commands answered stop being pending, and no
/// others do.
pub proof fn lemma_handle_answers<R>(pending: Set<Rifl>, executed: Seq<(Rifl, R)>)
    ensures
        handle_spec(pending, executed).1.len() == answered(pending, executed).len(),
        forall|i: int|
            0 <= i < answered(pending, executed).len() ==> pending.contains(
                #[trigger] answered(pending, executed)[i],
            ),
        answered(pending, executed).no_duplicates(),
        handle_spec(pending, executed).0 == pending.difference(answered(pending, executed).to_set()),
        forall|j: int|
            0 <= j < executed.len() && pending.contains(#[trigger] executed[j].0) ==> answered(
                pending,
                executed,
            ).contains(executed[j].0),
    decreases executed.len(),
{
    if executed.len() > 0 {
        let d = executed.drop_last();
        lemma_handle_answers(pending, d);
        let p = handle_spec(pending, d).0;
        let ad = answered(pending, d);
        let a = answered(pending, executed);
        let rifl = executed.last().0;
        if p.contains(rifl) {
            assert(a == ad.push(rifl));
            assert(!ad.contains(rifl)) by {
                if ad.contains(rifl) {
                    assert(ad.to_set().contains(rifl));
                }
            }
            assert forall|i: int, k: int| 0 <= i < a.len() && 0 <= k < a.len() && i != k implies a[i] != a[k] by {
                if i < ad.len() && k < ad.len() {
                } else if i < ad.len() {
                    assert(ad.contains(a[i]));
                } else if k < ad.len() {
                    assert(ad.contains(a[k]));
                }
            }
            assert(a.to_set() =~= ad.to_set().insert(rifl)) by {
                assert forall|x: Rifl| a.to_set().contains(x) <==> ad.to_set().insert(rifl).contains(x) by {
                    if a.contains(x) {
                        let i = choose|i: int| 0 <= i < a.len() && a[i] == x;
                        if i < ad.len() {
                            assert(ad[i] == x);
                        }
                    }
                    if ad.contains(x) {
                        let i = choose|i: int| 0 <= i < ad.len() && ad[i] == x;
                        assert(a[i] == x);
                    }
                    if x == rifl {
                        assert(a[ad.len() as int] == x);
                    }
                }
            }
            assert(handle_spec(pending, executed).0 =~= pending.difference(a.to_set()));
            assert forall|i: int| 0 <= i < a.len() implies pending.contains(#[trigger] a[i]) by {
                if i < ad.len() {
                    assert(ad[i] == a[i]);
                }
            }
            assert forall|j: int|
                0 <= j < executed.len() && pending.contains(#[trigger] executed[j].0) implies a.contains(
                    executed[j].0,
                ) by {
                if j < d.len() {
                    assert(d[j] == executed[j]);
                    let i = choose|i: int| 0 <= i < ad.len() && ad[i] == executed[j].0;
                    assert(a[i] == executed[j].0);
                } else {
                    assert(a[ad.len() as int] == rifl);
                }
            }
        } else {
            assert(a == ad);
            assert forall|j: int|
                0 <= j < executed.len() && pending.contains(#[trigger] executed[j].0) implies a.contains(
                    executed[j].0,
                ) by {
                if j < d.len() {
                    assert(d[j] == executed[j]);
                } else {
                    assert(ad.to_set().contains(rifl));
                }
            }
        }
    }
}

/// A command answered by one call of `handle` is not answered by the next one,
/// unless it is registered again in between.
pub proof fn lemma_answered_once<R>(pending: Set<Rifl>, first: Seq<(Rifl, R)>, second: Seq<(Rifl, R)>)
    ensures
        forall|i: int, j: int|
            0 <= i < answered(pending, first).len() && 0 <= j < answered(
                handle_spec(pending, first).0,
                second,
            ).len() ==> #[trigger] answered(pending, first)[i] != #[trigger] answered(
                handle_spec(pending, first).0,
                second,
            )[j],
{
    lemma_handle_answers(pending, first);
    let p1 = handle_spec(pending, first).0;
    lemma_handle_answers(p1, second);
    assert forall|i: int, j: int|
        0 <= i < answered(pending, first).len() && 0 <= j < answered(p1, second).len() implies #[trigger] answered(
            pending,
            first,
        )[i] != #[trigger] answered(p1, second)[j] by {
        let x = answered(pending, first)[i];
        assert(answered(pending, first).to_set().contains(x));
        assert(p1.contains(answered(p1, second)[j]));
    }
}

/// The commands still pending, and the commands answered in order, after the
/// executed commands of each of `calls` are handled in turn, starting from the
/// pending commands `pending`.
pub open spec fn handle_calls<R>(pending: Set<Rifl>, calls: Seq<Seq<(Rifl, R)>>) -> (Set<Rifl>, Seq<Rifl>)
    decreases calls.len(),
{
    if calls.len() == 0 {
        (pending, seq![])
    } else {
        let (p, out) = handle_calls(pending, calls.drop_last());
        (handle_spec(p, calls.last()).0, out + answered(p, calls.last()))
    }
}

/// Across any number of calls of `handle`, with no command registered in
/// between, a command is answered at most once, only if it was pending at the
/// start, and the commands answered are exactly those that stop being pending.
pub proof fn lemma_answered_at_most_once<R>(pending: Set<Rifl>, calls: Seq<Seq<(Rifl, R)>>)
    ensures
        handle_calls(pending, calls).1.no_duplicates(),
        forall|i: int|
            0 <= i < handle_calls(pending, calls).1.len() ==> pending.contains(
                #[trigger] handle_calls(pending, calls).1[i],
            ),
        handle_calls(pending, calls).0 == pending.difference(handle_calls(pending, calls).1.to_set()),
    decreases calls.len(),
{
    if calls.len() > 0 {
        let d = calls.drop_last();
        lemma_answered_at_most_once(pending, d);
        let (p, out) = handle_calls(pending, d);
        let last = calls.last();
        lemma_handle_answers(p, last);
        let a = answered(p, last);
        let all = out + a;
        assert(handle_calls(pending, calls).1 == all);
        assert forall|i: int| 0 <= i < all.len() implies pending.contains(#[trigger] all[i]) by {
            if i < out.len() {
                assert(all[i] == out[i]);
            } else {
                assert(all[i] == a[i - out.len()]);
                assert(p.contains(a[i - out.len()]));
            }
        }
        assert forall|i: int, j: int| 0 <= i < all.len() && 0 <= j < all.len() && i != j implies all[i]
            != all[j] by {
            if i < out.len() && j < out.len() {
                assert(all[i] == out[i] && all[j] == out[j]);
            } else if i >= out.len() && j >= out.len() {
                assert(all[i] == a[i - out.len()] && all[j] == a[j - out.len()]);
            } else if i < out.len() {
                assert(all[i] == out[i]);
                assert(out.to_set().contains(out[i]));
                assert(all[j] == a[j - out.len()]);
                assert(p.contains(a[j - out.len()]));
            } else {
                assert(all[j] == out[j]);
                assert(out.to_set().contains(out[j]));
                assert(all[i] == a[i - out.len()]);
                assert(p.contains(a[i - out.len()]));
            }
        }
        assert(handle_spec(p, last).0 =~= pending.difference(all.to_set())) by {
            assert forall|x: Rifl| all.to_set().contains(x) <==> (out.to_set().contains(x) || a.to_set().contains(x)) by {
                if all.contains(x) {
                    let i = choose|i: int| 0 <= i < all.len() && all[i] == x;
                    if i < out.len() {
                        assert(out[i] == x);
                    } else {
                        assert(a[i - out.len()] == x);
                    }
                }
                if out.contains(x) {
                    let i = choose|i: int| 0 <= i < out.len() && out[i] == x;
                    assert(all[i] == x);
                }
                if a.contains(x) {
                    let i = choose|i: int| 0 <= i < a.len() && a[i] == x;
                    assert(all[i + out.len()] == x);
                }
            }
        }
    }
}

/// Executes commands in the order a dependency graph releases them, and hands
/// the results of the commands of this process's clients back to them.
pub struct GraphExecutor {
    pending: Vec<Rifl>,
}

impl GraphExecutor {
    #[verifier::type_invariant]
    spec fn wf(self) -> bool {
        self.pending@.no_duplicates()
    }
}

impl View for GraphExecutor {
    /// The commands of this process's clients that are not executed yet.
    type V = Set<Rifl>;

    closed spec fn view(&self) -> Set<Rifl> {
        self.pending@.to_set()
    }
}

fn same_rifl(a: &Rifl, b: &Rifl) -> (r: bool)
    ensures
        r == (*a == *b),
{
    a.source == b.source && a.seq == b.seq
}

impl GraphExecutor {
    /// Creates an executor; this executor can never be parallel.
    pub fn new(parallel_executor: bool) -> (e: Self)
        requires
            !parallel_executor,
        ensures
            e@ == Set::<Rifl>::empty(),
    {
        let e = GraphExecutor { pending: Vec::new() };
        assert(e@ =~= Set::<Rifl>::empty());
        e
    }

    /// Starts a command of a client of this process as pending.
    pub fn register(&mut self, rifl: Rifl, _key_count: usize)
        requires
            !old(self)@.contains(rifl),
        ensures
            final(self)@ == old(self)@.insert(rifl),
    {
        proof {
            use_type_invariant(&*self);
        }
        let ghost before = self.pending@;
        let mut pending = Vec::new();
        std::mem::swap(&mut pending, &mut self.pending);
        pending.push(rifl);
        proof {
            assert(!before.contains(rifl)) by {
                assert(before.to_set().contains(rifl) == before.contains(rifl));
            }
            assert(pending@ == before.push(rifl));
            assert forall|i: int, j: int| 0 <= i < pending@.len() && 0 <= j < pending@.len() && i != j
                implies pending@[i] != pending@[j] by {
                if i < before.len() && j < before.len() {
                } else if i < before.len() {
                    assert(before.contains(pending@[i]));
                } else if j < before.len() {
                    assert(before.contains(pending@[j]));
                }
            }
            assert(pending@.to_set() =~= before.to_set().insert(rifl)) by {
                assert forall|x: Rifl| pending@.to_set().contains(x) <==> before.to_set().insert(rifl).contains(x) by {
                    if pending@.contains(x) {
                        let i = choose|i: int| 0 <= i < pending@.len() && pending@[i] == x;
                        if i < before.len() {
                            assert(before[i] == x);
                        }
                    }
                    if before.contains(x) {
                        let i = choose|i: int| 0 <= i < before.len() && before[i] == x;
                        assert(pending@[i] == x);
                    }
                    if x == rifl {
                        assert(pending@[before.len() as int] == x);
                    }
                }
            }
        }
        self.pending = pending;
    }

    /// Handles the commands that the dependency graph released, in order, each
    /// already executed: the result of each command of this process's clients
    /// is handed back, and the command is no longer pending.
    pub fn handle<R>(&mut self, executed: Vec<(Rifl, R)>) -> (results: Vec<ExecutorResult<R>>)
        ensures
            (final(self)@, results@) == handle_spec(old(self)@, executed@),
    {
        proof {
            use_type_invariant(&*self);
        }
        let ghost all = executed@;
        let total = executed.len();
        let mut pending = Vec::new();
        std::mem::swap(&mut pending, &mut self.pending);
        let mut results: Vec<ExecutorResult<R>> = Vec::new();
        let mut executed = executed;
        let mut rev: Vec<(Rifl, R)> = Vec::new();
        // handle the commands in the order they were executed
        while executed.len() > 0
            invariant
                rev@.len() + executed@.len() == all.len(),
                executed@ == all.take(executed@.len() as int),
                forall|i: int| 0 <= i < rev@.len() ==> rev@[i] == all[all.len() - 1 - i],
            decreases executed.len(),
        {
            let e = executed.pop().unwrap();
            rev.push(e);
            proof {
                assert(executed@ =~= all.take(executed@.len() as int));
            }
        }
        let mut done: usize = 0;
        while rev.len() > 0
            invariant
                all.len() == total,
                done + rev@.len() == all.len(),
                forall|i: int| 0 <= i < rev@.len() ==> rev@[i] == all[all.len() - 1 - i],
                pending@.no_duplicates(),
                (pending@.to_set(), results@) == handle_spec(old(self)@, all.take(done as int)),
            decreases rev.len(),
        {
            let (rifl, result) = rev.pop().unwrap();
            let ghost p0 = pending@;
            proof {
                assert(all[done as int] == (rifl, result));
                assert(all.take(done as int + 1).drop_last() =~= all.take(done as int));
                assert(all.take(done as int + 1).last() == (rifl, result));
            }
            // if it was pending locally, then it's from a client of this process
            let mut i: usize = 0;
            let mut found = false;
            while i < pending.len() && !found
                invariant
                    pending@ == p0,
                    i <= pending.len(),
                    found ==> i < pending.len() && pending@[i as int] == rifl,
                    !found ==> forall|j: int| 0 <= j < i ==> pending@[j] != rifl,
                decreases pending.len() - i + (if found { 0int } else { 1int }),
            {
                if same_rifl(&pending[i], &rifl) {
                    found = true;
                } else {
                    i = i + 1;
                }
            }
            if found {
                pending.remove(i);
                results.push(ExecutorResult::Ready(result));
                proof {
                    assert(pending@ == p0.remove(i as int));
                    assert(p0.to_set().contains(rifl));
                    assert forall|a: int, b: int| 0 <= a < pending@.len() && 0 <= b < pending@.len() && a != b
                        implies pending@[a] != pending@[b] by {
                        let a0 = if a < i { a } else { a + 1 };
                        let b0 = if b < i { b } else { b + 1 };
                        assert(pending@[a] == p0[a0] && pending@[b] == p0[b0]);
                    }
                    assert(pending@.to_set() =~= p0.to_set().remove(rifl)) by {
                        assert forall|x: Rifl| pending@.to_set().contains(x) <==> p0.to_set().remove(rifl).contains(x) by {
                            if pending@.contains(x) {
                                let a = choose|a: int| 0 <= a < pending@.len() && pending@[a] == x;
                                let a0 = if a < i { a } else { a + 1 };
                                assert(p0[a0] == x);
                                assert(a0 != i);
                                assert(p0[i as int] == rifl);
                            }
                            if p0.contains(x) && x != rifl {
                                let a = choose|a: int| 0 <= a < p0.len() && p0[a] == x;
                                assert(a != i);
                                if a < i {
                                    assert(pending@[a] == x);
                                } else {
                                    assert(pending@[a - 1] == x);
                                }
                            }
                        }
                    }
                }
            } else {
                proof {
                    assert(!p0.contains(rifl));
                    assert(!p0.to_set().contains(rifl));
                }
            }
            done = done + 1;
        }
        proof {
            assert(all.take(all.len() as int) =~= all);
        }
        self.pending = pending;
        results
    }

    /// This executor is never parallel.
    pub fn parallel(&self) -> (p: bool)
        ensures
            !p,
    {
        false
    }
}

} // verus!
