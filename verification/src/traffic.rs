//! The traffic state machine: picks the next PUT or GET operation and its
//! URI under a traffic pattern. In the alternating pattern every GET reuses
//! the URI of the PUT issued immediately before it, and the very first
//! operation is a PUT so the object exists before any GET.

use crate::uri::{uri_str_of, UriProvider};
use vstd::prelude::*;

verus! {

/// The long-run mix of PUTs and GETs against the target bucket.
#[derive(Clone, Copy)]
pub enum TrafficPattern {
    Put,
    Get,
    Both,
}

/// The operation a single request performs, with its target URI.
#[derive(Clone)]
pub enum TrafficState {
    Put { uri: String },
    Get { uri: String },
}

/// `(is_put, uri)` model of a traffic state.
pub open spec fn state_model(s: TrafficState) -> (bool, Seq<char>) {
    match s {
        TrafficState::Put { uri } => (true, uri@),
        TrafficState::Get { uri } => (false, uri@),
    }
}

/// Whether the next transition draws a fresh URI from the supplier: the
/// pure patterns always do; the alternating pattern only after a GET.
pub open spec fn spec_pulls_fresh(pattern: TrafficPattern, state: TrafficState) -> bool {
    match pattern {
        TrafficPattern::Put => true,
        TrafficPattern::Get => true,
        TrafficPattern::Both => state matches TrafficState::Get { .. },
    }
}

/// The URI the supplier emits next, from its current state.
pub open spec fn spec_next_pull(p: UriProvider) -> Seq<char> {
    uri_str_of(p.base@, p.bucket@, p.obj_prefix@, p.digits_seq(), p.obj_cnt)
}

pub struct TrafficStateMachine {
    pub pattern: TrafficPattern,
    pub uri_supplier: UriProvider,
    pub state: TrafficState,
    /// Models of the states handed out so far, in order.
    pub emitted: Ghost<Seq<(bool, Seq<char>)>>,
    /// The URIs pulled from the supplier so far, in order.
    pub pulls: Ghost<Seq<Seq<char>>>,
}

impl TrafficStateMachine {
    /// State invariant. For `Put` and `Get` patterns every emitted state
    /// carries the supplier's URIs in order. For `Both`, even steps are
    /// PUTs of fresh supplier URIs and each odd step is a GET of the URI
    /// the PUT immediately before it used.
    pub open spec fn wf(&self) -> bool {
        &&& self.uri_supplier.wf()
        &&& match self.pattern {
            TrafficPattern::Put => {
                &&& self.pulls@.len() == self.emitted@.len() + 1
                &&& state_model(self.state) == (true, self.pulls@.last())
                &&& forall|j: int|
                    0 <= j < self.emitted@.len() ==> #[trigger] self.emitted@[j] == (
                    true,
                    self.pulls@[j],
                    )
            },
            TrafficPattern::Get => {
                &&& self.pulls@.len() == self.emitted@.len() + 1
                &&& state_model(self.state) == (false, self.pulls@.last())
                &&& forall|j: int|
                    0 <= j < self.emitted@.len() ==> #[trigger] self.emitted@[j] == (
                    false,
                    self.pulls@[j],
                    )
            },
            TrafficPattern::Both => {
                &&& (if self.emitted@.len() % 2 == 0 {
                    &&& self.pulls@.len() == self.emitted@.len() / 2 + 1
                    &&& state_model(self.state) == (true, self.pulls@.last())
                } else {
                    &&& self.pulls@.len() == (self.emitted@.len() + 1) / 2
                    &&& state_model(self.state) == (false, self.pulls@.last())
                })
                &&& forall|j: int|
                    0 <= j < self.emitted@.len() && j % 2 == 0 ==> #[trigger] self.emitted@[j] == (
                    true,
                    self.pulls@[j / 2],
                    )
                &&& forall|j: int|
                    0 <= j < self.emitted@.len() && j % 2 == 1 ==> #[trigger] self.emitted@[j] == (
                    false,
                    self.pulls@[(j - 1) / 2],
                    )
            },
        }
    }

    pub fn new(pattern: TrafficPattern, mut uri_supplier: UriProvider) -> (r: Self)
        requires
            uri_supplier.wf(),
        ensures
            r.wf(),
            r.pattern == pattern,
            r.emitted@.len() == 0,
            r.pulls@ =~= seq![
                uri_str_of(
                    uri_supplier.base@,
                    uri_supplier.bucket@,
                    uri_supplier.obj_prefix@,
                    uri_supplier.digits_seq(),
                    uri_supplier.obj_cnt,
                ),
            ],
            r.uri_supplier.steps@ == uri_supplier.steps@ + 1,
    {
        let ghost first = uri_str_of(
            uri_supplier.base@,
            uri_supplier.bucket@,
            uri_supplier.obj_prefix@,
            uri_supplier.digits_seq(),
            uri_supplier.obj_cnt,
        );
        let state = match pattern {
            TrafficPattern::Both | TrafficPattern::Put => TrafficState::Put {
                uri: uri_supplier.next(),
            },
            TrafficPattern::Get => TrafficState::Get { uri: uri_supplier.next() },
        };
        TrafficStateMachine {
            pattern,
            uri_supplier,
            state,
            emitted: Ghost(Seq::empty()),
            pulls: Ghost(Seq::empty().push(first)),
        }
    }

    /// Returns the previous state and stores the next one; the very first
    /// call returns the initial state.
    pub fn next(&mut self) -> (r: TrafficState)
        requires
            old(self).wf(),
        ensures
            final(self).wf(),
            final(self).pattern == old(self).pattern,
            state_model(r) == state_model(old(self).state),
            final(self).emitted@ =~= old(self).emitted@.push(state_model(r)),
            // Exactly when the transition draws a fresh URI, it is the one
            // the supplier's formula gives at its current step, and the
            // supplier advances one step.
            spec_pulls_fresh(old(self).pattern, old(self).state) ==> {
                &&& final(self).pulls@ =~= old(self).pulls@.push(
                    spec_next_pull(old(self).uri_supplier),
                )
                &&& final(self).uri_supplier.steps@ == old(self).uri_supplier.steps@ + 1
                &&& final(self).uri_supplier.base@ == old(self).uri_supplier.base@
                &&& final(self).uri_supplier.bucket@ == old(self).uri_supplier.bucket@
                &&& final(self).uri_supplier.obj_prefix@ == old(self).uri_supplier.obj_prefix@
                &&& final(self).uri_supplier.num_objs_per_prefix == old(
                    self,
                ).uri_supplier.num_objs_per_prefix
                &&& final(self).uri_supplier.digits_seq().len() == old(
                    self,
                ).uri_supplier.digits_seq().len()
            },
            !spec_pulls_fresh(old(self).pattern, old(self).state) ==> {
                &&& final(self).pulls@ == old(self).pulls@
                &&& final(self).uri_supplier == old(self).uri_supplier
            },
    {
        let prev = match &self.state {
            TrafficState::Put { uri } => TrafficState::Put { uri: uri.clone() },
            TrafficState::Get { uri } => TrafficState::Get { uri: uri.clone() },
        };
        let new_state = match self.pattern {
            // A pure PUT or pure GET pattern keeps issuing the same kind
            // against fresh URIs.
            TrafficPattern::Put => TrafficState::Put { uri: self.pull_uri() },
            TrafficPattern::Get => TrafficState::Get { uri: self.pull_uri() },
            // The alternating pattern reuses the URI of the PUT just issued
            // for the following GET, then pulls a fresh URI for the next PUT.
            TrafficPattern::Both => match &prev {
                TrafficState::Put { uri } => TrafficState::Get { uri: uri.clone() },
                TrafficState::Get { .. } => TrafficState::Put { uri: self.pull_uri() },
            },
        };
        self.state = new_state;
        proof {
            self.emitted@ = self.emitted@.push(state_model(prev));
        }
        prev
    }

    /// Pulls the next URI from the supplier and records it.
    fn pull_uri(&mut self) -> (r: String)
        requires
            old(self).uri_supplier.wf(),
        ensures
            final(self).uri_supplier.wf(),
            final(self).pattern == old(self).pattern,
            final(self).state == old(self).state,
            final(self).emitted@ == old(self).emitted@,
            r@ == spec_next_pull(old(self).uri_supplier),
            final(self).pulls@ =~= old(self).pulls@.push(r@),
            final(self).uri_supplier.steps@ == old(self).uri_supplier.steps@ + 1,
            final(self).uri_supplier.base@ == old(self).uri_supplier.base@,
            final(self).uri_supplier.bucket@ == old(self).uri_supplier.bucket@,
            final(self).uri_supplier.obj_prefix@ == old(self).uri_supplier.obj_prefix@,
            final(self).uri_supplier.num_objs_per_prefix == old(
                self,
            ).uri_supplier.num_objs_per_prefix,
            final(self).uri_supplier.digits_seq().len() == old(
                self,
            ).uri_supplier.digits_seq().len(),
    {
        let u = self.uri_supplier.next();
        proof {
            self.pulls@ = self.pulls@.push(u@);
        }
        u
    }
}

/// In the alternating pattern, the emitted sequence satisfies: the state at
/// every even step is a PUT carrying the supplier's URIs in order, and the
/// state at every odd step is a GET of the URI of the PUT one step earlier.
pub proof fn lemma_both_alternation(m: TrafficStateMachine)
    requires
        m.wf(),
        m.pattern is Both,
    ensures
        forall|j: int|
            0 <= j < m.emitted@.len() && j % 2 == 0 ==> #[trigger] m.emitted@[j] == (
            true,
            m.pulls@[j / 2],
            ),
        forall|j: int|
            0 <= j < m.emitted@.len() && j % 2 == 1 ==> m.emitted@[j].0 == false
                && #[trigger] m.emitted@[j].1 == m.emitted@[j - 1].1,
{
    assert forall|j: int| 0 <= j < m.emitted@.len() && j % 2 == 1 implies m.emitted@[j].0 == false
        && #[trigger] m.emitted@[j].1 == m.emitted@[j - 1].1 by {
        assert(m.emitted@[j] == (false, m.pulls@[(j - 1) / 2]));
        assert((j - 1) % 2 == 0);
        assert(m.emitted@[j - 1] == (true, m.pulls@[(j - 1) / 2]));
    }
}

} // verus!
