use vstd::prelude::*;

verus! {

/// Chunks whose byte offsets differ by less than this are treated as showing
/// the same passage; only the better-ranked one is reported.
pub const WINDOW: usize = 256;

/// Distance between two byte offsets.
pub open spec fn dist(a: int, b: int) -> int {
    if a >= b {
        a - b
    } else {
        b - a
    }
}

/// Whether `p` lies within `WINDOW` bytes of an offset already chosen.
pub open spec fn too_close(chosen: Seq<usize>, p: int) -> bool {
    exists|j: int| 0 <= j < chosen.len() && dist(chosen[j] as int, p) < WINDOW
}

/// Whether the chosen offsets lie pairwise at least `WINDOW` bytes apart.
pub open spec fn spread(chosen: Seq<usize>) -> bool {
    forall|i: int, j: int|
        0 <= i < j < chosen.len() ==> dist(#[trigger] chosen[i] as int, #[trigger] chosen[j] as int) >= WINDOW
}

/// Picks, among search hits offered best first, at most `limit` of them whose
/// byte offsets lie pairwise at least `WINDOW` bytes apart.
pub struct WindowSelector {
    chosen: Vec<usize>,
    limit: usize,
}

impl WindowSelector {
    /// The offsets chosen so far, in the order they were accepted.
    pub closed spec fn chosen_view(&self) -> Seq<usize> {
        self.chosen@
    }

    /// The largest number of hits to choose.
    pub closed spec fn limit_view(&self) -> nat {
        self.limit as nat
    }

    /// The selector's invariant: no more than `limit` offsets are chosen,
    /// and they are spread apart.
    pub closed spec fn wf(&self) -> bool {
        self.chosen@.len() <= self.limit && spread(self.chosen@)
    }

    /// What a well-formed selector guarantees: at most `limit` hits chosen,
    /// pairwise at least `WINDOW` bytes apart.
    pub proof fn lemma_chosen_spread(&self)
        requires
            self.wf(),
        ensures
            self.chosen_view().len() <= self.limit_view(),
            spread(self.chosen_view()),
    {
    }

    /// A selector that has chosen nothing yet.
    pub fn new(limit: usize) -> (r: Self)
        ensures
            r.wf(),
            r.chosen_view() == Seq::<usize>::empty(),
            r.limit_view() == limit,
    {
        WindowSelector { chosen: Vec::new(), limit }
    }

    /// Whether `limit` hits have been chosen, so that no more are taken.
    pub fn is_full(&self) -> (r: bool)
        ensures
            r == (self.chosen_view().len() >= self.limit_view()),
    {
        self.chosen.len() >= self.limit
    }

    /// Offers the next hit, at byte offset `pos`, while fewer than `limit`
    /// are chosen: it is chosen, and `true` returned, unless it lies within
    /// `WINDOW` bytes of a hit already chosen.
    pub fn offer(&mut self, pos: usize) -> (accepted: bool)
        requires
            old(self).wf(),
            old(self).chosen_view().len() < old(self).limit_view(),
        ensures
            final(self).wf(),
            accepted == !too_close(old(self).chosen_view(), pos as int),
            final(self).chosen_view() == if accepted {
                old(self).chosen_view().push(pos)
            } else {
                old(self).chosen_view()
            },
            final(self).limit_view() == old(self).limit_view(),
    {
        let mut i: usize = 0;
        while i < self.chosen.len()
            invariant
                self.chosen@ == old(self).chosen@,
                self.chosen@.len() < self.limit,
                spread(self.chosen@),
                self.limit == old(self).limit,
                i <= self.chosen.len(),
                forall|j: int| 0 <= j < i ==> dist(#[trigger] self.chosen@[j] as int, pos as int) >= WINDOW,
            decreases self.chosen.len() - i,
        {
            let p = self.chosen[i];
            let d = if pos >= p {
                pos - p
            } else {
                p - pos
            };
            if d < WINDOW {
                assert(dist(self.chosen@[i as int] as int, pos as int) < WINDOW);
                return false;
            }
            i = i + 1;
        }
        self.chosen.push(pos);
        assert forall|a: int, b: int| 0 <= a < b < self.chosen@.len() implies dist(
            #[trigger] self.chosen@[a] as int,
            #[trigger] self.chosen@[b] as int,
        ) >= WINDOW by {
            if b == self.chosen@.len() - 1 {
                assert(self.chosen@[b] == pos);
                assert(self.chosen@[a] == old(self).chosen@[a]);
            } else {
                assert(self.chosen@[a] == old(self).chosen@[a]);
                assert(self.chosen@[b] == old(self).chosen@[b]);
            }
        }
        true
    }
}

} // verus!
