//! The engine state: one value owns the problem instance, both tables and
//! the progress marker. It is created once per problem instance, mutated in
//! place by every work unit, and handed back and forth between the engine
//! and the caller across suspensions.

use vstd::prelude::*;
use crate::model::{
    grid_view, init_model, input_valid, m_wf, M, Phase, PreEntry,
};

verus! {

/// A problem instance together with the engine's whole resumable progress.
/// The fields are deliberately private: every reachable `State` satisfies
/// `wf`, which the work units rely on and preserve.
pub struct State {
    pub(crate) n: usize,
    pub(crate) edges: Vec<(usize, usize)>,
    pub(crate) terms: Vec<usize>,
    pub(crate) args_ok: bool,
    pub(crate) dp: Vec<Vec<usize>>,
    pub(crate) pre: Vec<Vec<PreEntry>>,
    pub(crate) phase: Phase,
}

impl State {
    /// The ghost image of this state.
    pub open(crate) spec fn model(self) -> M {
        M {
            n: self.n,
            edges: self.edges@,
            terms: self.terms@,
            dp: grid_view(self.dp),
            pre: grid_view(self.pre),
            phase: self.phase,
        }
    }

    /// Validity of a state: the recorded validation outcome matches the
    /// input, and the tables are well formed for the current phase.
    pub open(crate) spec fn wf(self) -> bool {
        &&& self.args_ok == input_valid(self.n, self.edges@, self.terms@)
        &&& m_wf(self.model())
    }

    /// Wraps a problem instance in a fresh engine state. Validation of edge
    /// endpoints and terminal indices happens once, here; its outcome is
    /// recorded and reported by the first work unit.
    pub fn new(n: usize, edges: Vec<(usize, usize)>, terms: Vec<usize>) -> (s: State)
        ensures
            s.wf(),
            s.model() == init_model(n, edges@, terms@),
    {
        let mut ok = true;
        let mut i: usize = 0;
        while i < edges.len()
            invariant
                0 <= i <= edges.len(),
                ok == (forall|j: int|
                    0 <= j < i ==> (#[trigger] edges@[j]).0 < n && edges@[j].1 < n),
            decreases edges.len() - i,
        {
            let (x, y) = edges[i];
            if x >= n || y >= n {
                ok = false;
            }
            i = i + 1;
        }
        let mut i: usize = 0;
        while i < terms.len()
            invariant
                0 <= i <= terms.len(),
                ok == ((forall|j: int|
                    0 <= j < edges.len() ==> (#[trigger] edges@[j]).0 < n && edges@[j].1 < n)
                    && (forall|j: int| 0 <= j < i ==> #[trigger] terms@[j] < n)),
            decreases terms.len() - i,
        {
            if terms[i] >= n {
                ok = false;
            }
            i = i + 1;
        }
        let s = State {
            n,
            edges,
            terms,
            args_ok: ok,
            dp: Vec::new(),
            pre: Vec::new(),
            phase: Phase::Allocate,
        };
        proof {
            assert(grid_view(s.dp) =~= Seq::<Seq<usize>>::empty());
            assert(grid_view(s.pre) =~= Seq::<Seq<PreEntry>>::empty());
            assert(s.model() =~= init_model(n, s.edges@, s.terms@));
        }
        s
    }
}

} // verus!
