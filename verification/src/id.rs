use vstd::prelude::*;

verus! {

/// An identifier made of the source that created it and a sequence number.
#[derive(Debug, Clone, Copy, PartialEq, Eq, Hash)]
pub struct Id<S> {
    pub source: S,
    pub seq: u64,
}

impl<S> Id<S> where S: Copy {
    /// Creates a new identifier Id.
    pub fn new(source: S, seq: u64) -> (id: Self)
        ensures
            id.source == source,
            id.seq == seq,
    {
        Self { source, seq }
    }

    /// Retrieves the source that created this `Id`.
    pub fn source(&self) -> (s: S)
        ensures
            s == self.source,
    {
        self.source
    }
}

/// One step of a generator: from the state `g` (source, last sequence number)
/// to `next`, handing out `id`.
pub open spec fn next_step<S>(g: (S, u64), next: (S, u64), id: Id<S>) -> bool {
    &&& g.1 < u64::MAX
    &&& next == (g.0, (g.1 + 1) as u64)
    &&& id == Id { source: g.0, seq: (g.1 + 1) as u64 }
}

/// A generator of identifiers of a single source.
pub struct IdGen<S> {
    source: S,
    last_seq: u64,
}

impl<S> View for IdGen<S> {
    /// The generator's source and the sequence number it handed out last.
    type V = (S, u64);

    closed spec fn view(&self) -> (S, u64) {
        (self.source, self.last_seq)
    }
}

impl<S> IdGen<S> where S: Copy {
    /// Creates a new generator of `Id`.
    pub fn new(source: S) -> (g: Self)
        ensures
            g@ == (source, 0u64),
    {
        Self { source, last_seq: 0 }
    }

    /// Retrives source.
    pub fn source(&self) -> (s: S)
        ensures
            s == self@.0,
    {
        self.source
    }

    /// Generates the next `Id`.
    pub fn next_id(&mut self) -> (id: Id<S>)
        requires
            old(self)@.1 < u64::MAX,
        ensures
            next_step(old(self)@, final(self)@, id),
    {
        self.last_seq = self.last_seq + 1;
        Id::new(self.source, self.last_seq)
    }
}

/// Two identifiers generated one after the other by the same generator have
/// its source, and the second has the next sequence number: they differ.
pub proof fn lemma_successive_ids<S>(g0: (S, u64), g1: (S, u64), g2: (S, u64), a: Id<S>, b: Id<S>)
    requires
        next_step(g0, g1, a),
        next_step(g1, g2, b),
    ensures
        a.source == g0.0 && b.source == g0.0,
        b.seq == a.seq + 1,
        a != b,
        g2.0 == g0.0,
{
}

/// After `k` identifiers, a new generator has handed out the sequence numbers
/// `1..=k` and its state is `(source, k)`; the identifiers are distinct.
pub proof fn lemma_generated_ids<S>(source: S, ids: Seq<Id<S>>, states: Seq<(S, u64)>)
    requires
        states.len() == ids.len() + 1,
        states[0] == (source, 0u64),
        forall|i: int| 0 <= i < ids.len() ==> next_step(states[i], states[i + 1], #[trigger] ids[i]),
    ensures
        forall|i: int| 0 <= i < ids.len() ==> (#[trigger] ids[i]).source == source && ids[i].seq == i + 1,
        forall|i: int, j: int| 0 <= i < j < ids.len() ==> ids[i] != ids[j],
        states.last().0 == source,
        states.last().1 == ids.len(),
    decreases ids.len(),
{
    if ids.len() > 0 {
        let n = ids.len() - 1;
        lemma_generated_ids(source, ids.take(n as int), states.take(n + 1));
        assert(states.take(n + 1).last() == states[n as int]);
        assert(next_step(states[n as int], states[n + 1], ids[n as int]));
        assert forall|i: int| 0 <= i < ids.len() implies (#[trigger] ids[i]).source == source && ids[i].seq == i
            + 1 by {
            if i < n {
                assert(ids.take(n as int)[i] == ids[i]);
            }
        }
        assert forall|i: int, j: int| 0 <= i < j < ids.len() implies ids[i] != ids[j] by {
            assert(ids[i].seq == i + 1);
            assert(ids[j].seq == j + 1);
        }
    }
}

} // verus!
