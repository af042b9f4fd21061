//! Per-cell search status, with the order in which cells were generated and
//! expanded.

use vstd::prelude::*;

verus! {

/// Where a cell stands in a search.
#[derive(Copy, Clone, Debug, PartialEq, Eq, Structural)]
pub enum DiagStatus {
    Unexplored,
    /// Placed in the frontier.
    Generated,
    /// Taken from the frontier and processed.
    Expanded,
}

impl DiagStatus {
    /// The status as a bit set: generated `0x01`, expanded `0x03`.
    pub fn code(&self) -> (r: u8)
        ensures
            r == status_code(*self),
    {
        match self {
            DiagStatus::Unexplored => 0x00,
            DiagStatus::Generated => 0x01,
            DiagStatus::Expanded => 0x03,
        }
    }
}

pub open spec fn status_code(s: DiagStatus) -> u8 {
    match s {
        DiagStatus::Unexplored => 0x00,
        DiagStatus::Generated => 0x01,
        DiagStatus::Expanded => 0x03,
    }
}

/// The status after a generation: an unexplored cell becomes generated.
pub open spec fn after_generated(s: DiagStatus) -> DiagStatus {
    match s {
        DiagStatus::Unexplored => DiagStatus::Generated,
        _ => s,
    }
}

pub open spec fn sum(s: Seq<usize>) -> int
    decreases s.len(),
{
    if s.len() == 0 {
        0
    } else {
        sum(s.drop_last()) + s.last()
    }
}

pub proof fn lemma_push_contains(s: Seq<usize>, x: usize)
    ensures
        forall|y: usize| #[trigger] s.push(x).contains(y) <==> s.contains(y) || y == x,
{
    assert forall|y: usize| #[trigger] s.push(x).contains(y) <==> s.contains(y) || y == x by {
        if s.push(x).contains(y) {
            let k = choose|k: int| 0 <= k < s.push(x).len() && s.push(x)[k] == y;
            if k < s.len() {
                assert(s[k] == y);
            }
        }
        if s.contains(y) {
            let k = choose|k: int| 0 <= k < s.len() && s[k] == y;
            assert(s.push(x)[k] == y);
        }
        if y == x {
            assert(s.push(x)[s.len() as int] == y);
        }
    }
}

pub struct DiagMap {
    pub inner: Vec<DiagStatus>,
    pub generated_history: Vec<usize>,
    pub expanded_history: Vec<usize>,
    /// For each expansion, the generations since the one before.
    pub num_generated_history: Vec<usize>,
    /// The length of the generated log at the last expansion.
    pub last_generated_len: usize,
}

impl DiagMap {
    pub open spec fn wf(&self) -> bool {
        &&& self.last_generated_len == sum(self.num_generated_history@)
        &&& self.last_generated_len <= self.generated_history@.len()
    }

    /// The statuses agree with the histories: a cell is expanded iff it was
    /// expanded at least once, generated iff generated and never expanded.
    pub open spec fn consistent(&self) -> bool {
        &&& self.num_generated_history@.len() == self.expanded_history@.len()
        &&& forall|k: int| 0 <= k < self.generated_history@.len() ==> #[trigger] self.generated_history@[k] < self.inner@.len()
        &&& forall|k: int| 0 <= k < self.expanded_history@.len() ==> #[trigger] self.expanded_history@[k] < self.inner@.len()
        &&& forall|c: usize|
            c < self.inner@.len() ==> (#[trigger] self.inner@[c as int] == DiagStatus::Expanded
                <==> self.expanded_history@.contains(c))
        &&& forall|c: usize|
            c < self.inner@.len() ==> (#[trigger] self.inner@[c as int] == DiagStatus::Generated <==> (
            self.generated_history@.contains(c) && !self.expanded_history@.contains(c)))
    }

    /// A map of `size` unexplored cells with empty histories.
    pub fn new(size: usize) -> (r: DiagMap)
        ensures
            r.wf(),
            r.consistent(),
            r.inner@ == Seq::new(size as nat, |k: int| DiagStatus::Unexplored),
            r.generated_history@.len() == 0,
            r.expanded_history@.len() == 0,
            r.num_generated_history@.len() == 0,
    {
        let mut inner: Vec<DiagStatus> = Vec::with_capacity(size);
        let mut k: usize = 0;
        while k < size
            invariant
                k <= size,
                inner@ == Seq::new(k as nat, |j: int| DiagStatus::Unexplored),
            decreases size - k,
        {
            inner.push(DiagStatus::Unexplored);
            k = k + 1;
            assert(inner@ =~= Seq::new(k as nat, |j: int| DiagStatus::Unexplored));
        }
        DiagMap {
            inner,
            generated_history: Vec::with_capacity(size),
            expanded_history: Vec::with_capacity(size),
            num_generated_history: Vec::with_capacity(size),
            last_generated_len: 0,
        }
    }

    pub fn status(&self, index: usize) -> (r: DiagStatus)
        requires
            index < self.inner@.len(),
        ensures
            r == self.inner@[index as int],
    {
        self.inner[index]
    }

    /// Marks `index` expanded, logs it, and logs how many generations came
    /// since the previous expansion.
    pub fn mark_expanded(&mut self, index: usize)
        requires
            old(self).wf(),
            old(self).consistent(),
            index < old(self).inner@.len(),
        ensures
            final(self).wf(),
            final(self).consistent(),
            final(self).inner@ == old(self).inner@.update(index as int, DiagStatus::Expanded),
            final(self).generated_history@ == old(self).generated_history@,
            final(self).expanded_history@ == old(self).expanded_history@.push(index),
            final(self).last_generated_len == final(self).generated_history@.len(),
            final(self).num_generated_history@ == old(self).num_generated_history@.push(
                (old(self).generated_history@.len() - sum(old(self).num_generated_history@)) as usize,
            ),
    {
        self.inner.set(index, DiagStatus::Expanded);
        self.expanded_history.push(index);
        let ghost before = self.num_generated_history@;
        self.num_generated_history.push(self.generated_history.len() - self.last_generated_len);
        proof {
            assert(self.num_generated_history@.drop_last() =~= before);
        }
        self.last_generated_len = self.generated_history.len();
        proof {
            let m = *self;
            let o = old(self).expanded_history@;
            lemma_push_contains(o, index);
            assert(m.expanded_history@ == o.push(index));
            assert forall|c: usize| c < m.inner@.len() implies (#[trigger] m.inner@[c as int] == DiagStatus::Expanded
                <==> m.expanded_history@.contains(c)) by {
                assert(o.push(index).contains(c) <==> o.contains(c) || c == index);
            }
            assert forall|c: usize| c < m.inner@.len() implies (#[trigger] m.inner@[c as int] == DiagStatus::Generated <==> (
            m.generated_history@.contains(c) && !m.expanded_history@.contains(c))) by {
                assert(o.push(index).contains(c) <==> o.contains(c) || c == index);
            }
            assert forall|k: int| 0 <= k < m.expanded_history@.len() implies #[trigger] m.expanded_history@[k] < m.inner@.len() by {
                if k < o.len() {
                    assert(m.expanded_history@[k] == o[k]);
                }
            }
        }
    }

    /// Marks `index` generated unless it is already further along, and logs it.
    pub fn mark_generated(&mut self, index: usize)
        requires
            old(self).wf(),
            old(self).consistent(),
            index < old(self).inner@.len(),
        ensures
            final(self).wf(),
            final(self).consistent(),
            final(self).inner@ == old(self).inner@.update(index as int, after_generated(old(self).inner@[index as int])),
            final(self).generated_history@ == old(self).generated_history@.push(index),
            final(self).expanded_history@ == old(self).expanded_history@,
            final(self).num_generated_history@ == old(self).num_generated_history@,
    {
        let s = self.inner[index];
        let t = match s {
            DiagStatus::Unexplored => DiagStatus::Generated,
            _ => s,
        };
        self.inner.set(index, t);
        self.generated_history.push(index);
        proof {
            let m = *self;
            let o = old(self).generated_history@;
            lemma_push_contains(o, index);
            assert forall|c: usize| c < m.inner@.len() implies (#[trigger] m.inner@[c as int] == DiagStatus::Generated <==> (
            m.generated_history@.contains(c) && !m.expanded_history@.contains(c))) by {
                assert(o.push(index).contains(c) <==> o.contains(c) || c == index);
            }
            assert forall|k: int| 0 <= k < m.generated_history@.len() implies #[trigger] m.generated_history@[k] < m.inner@.len() by {
                if k < o.len() {
                    assert(m.generated_history@[k] == o[k]);
                }
            }
        }
    }

    /// The snapshot handed to the caller.
    pub fn finalize(self) -> (r: FinalizedDiagMap)
        ensures
            self.consistent() ==> r.consistent(),
            r.inner@ == self.inner@,
            r.generated_history@ == self.generated_history@,
            r.expanded_history@ == self.expanded_history@,
            r.num_generated_history@ == self.num_generated_history@,
    {
        FinalizedDiagMap {
            inner: self.inner,
            generated_history: self.generated_history,
            expanded_history: self.expanded_history,
            num_generated_history: self.num_generated_history,
        }
    }
}

/// A diagnostic map after its search: read only.
pub struct FinalizedDiagMap {
    pub inner: Vec<DiagStatus>,
    pub generated_history: Vec<usize>,
    pub expanded_history: Vec<usize>,
    pub num_generated_history: Vec<usize>,
}

impl FinalizedDiagMap {
    /// The statuses agree with the histories, as in `DiagMap::consistent`.
    pub open spec fn consistent(&self) -> bool {
        &&& self.num_generated_history@.len() == self.expanded_history@.len()
        &&& forall|k: int| 0 <= k < self.generated_history@.len() ==> #[trigger] self.generated_history@[k] < self.inner@.len()
        &&& forall|k: int| 0 <= k < self.expanded_history@.len() ==> #[trigger] self.expanded_history@[k] < self.inner@.len()
        &&& forall|c: usize|
            c < self.inner@.len() ==> (#[trigger] self.inner@[c as int] == DiagStatus::Expanded
                <==> self.expanded_history@.contains(c))
        &&& forall|c: usize|
            c < self.inner@.len() ==> (#[trigger] self.inner@[c as int] == DiagStatus::Generated <==> (
            self.generated_history@.contains(c) && !self.expanded_history@.contains(c)))
    }
}

} // verus!
