//! The net: a marking, its transitions and a firing budget, with the
//! decisions of the scheduler loop.

use vstd::prelude::*;

use crate::marking::{arcs_fit, covers, fires_to, lemma_firing_keeps_non_negative, non_negative, overflows};
use crate::select::choose_random;
use crate::transition::{FireError, Transition, TransitionView};

verus! {

/// Why a net was refused at construction.
#[derive(Debug, Clone, Copy, PartialEq, Eq, Structural)]
pub enum NetError {
    /// The initial marking holds a negative token count.
    NegativeTokens,
    /// An arc names a place that the marking does not have.
    PlaceOutOfRange,
}

/// How an accepted firing proceeds.
#[derive(Debug, Clone, Copy, PartialEq, Eq, Structural)]
pub enum Firing {
    /// A zero-duration firing, already applied to the marking.
    Instant,
    /// A timed firing: the transition is now in flight, and its effect is
    /// applied when its completion is reported.
    Started,
}

/// The outcome of one step of the scheduler loop.
#[derive(Debug, Clone, Copy, PartialEq, Eq, Structural)]
pub enum Step {
    /// The transition with this index fired instantaneously.
    Fired(usize),
    /// The transition with this index started a timed firing.
    Started(usize),
    /// The transition with this index was chosen and its firing refused.
    Rejected(usize, FireError),
    /// Nothing is enabled but timed firings are in flight: wait for one.
    Wait,
    /// Nothing is enabled and nothing is in flight: no transition can ever fire again.
    Dead,
    /// The firing budget is spent.
    Exhausted,
}

impl Step {
    /// The transition that the step chose, if it chose one.
    pub open spec fn chosen(self) -> Option<usize> {
        match self {
            Step::Fired(t) => Some(t),
            Step::Started(t) => Some(t),
            Step::Rejected(t, _) => Some(t),
            _ => None,
        }
    }
}

/// What a net is, seen mathematically.
pub struct NetView {
    pub marking: Seq<i32>,
    pub transitions: Seq<TransitionView>,
    /// How many more firings the budget allows.
    pub remaining: nat,
}

impl NetView {
    /// No place is negative and every arc names a place of the marking.
    pub open spec fn wf(self) -> bool {
        &&& non_negative(self.marking)
        &&& forall|i: int| 0 <= i < self.transitions.len() ==> #[trigger] self.transitions[i].fits(self.marking.len())
    }

    pub open spec fn enabled_at(self, t: int) -> bool {
        0 <= t < self.transitions.len() && self.transitions[t].enabled(self.marking)
    }

    /// Some transition is enabled.
    pub open spec fn live(self) -> bool {
        exists|t: int| self.enabled_at(t)
    }

    /// Some timed firing has started and not completed.
    pub open spec fn in_flight(self) -> bool {
        exists|i: int| 0 <= i < self.transitions.len() && #[trigger] self.transitions[i].processing
    }

    /// The net with transition `t`'s in-flight flag set to `processing`.
    pub open spec fn with_flag(self, t: int, processing: bool) -> NetView {
        NetView {
            transitions: self.transitions.update(t, TransitionView { processing, ..self.transitions[t] }),
            ..self
        }
    }

    /// Dispatching transition `t` turns `self` into `after` with result `r`:
    /// a check of enabledness and the firing happen as one step.
    pub open spec fn fires(self, t: int, after: NetView, r: Result<Firing, FireError>) -> bool {
        if !(0 <= t < self.transitions.len()) {
            r == Err::<Firing, FireError>(FireError::UnknownTransition) && after == self
        } else if !self.transitions[t].enabled(self.marking) {
            r == Err::<Firing, FireError>(FireError::NotEnabled) && after == self
        } else if !covers(self.marking, self.transitions[t].input) {
            r == Err::<Firing, FireError>(FireError::InsufficientTokens) && after == self
        } else if self.transitions[t].duration > 0 {
            r == Ok::<Firing, FireError>(Firing::Started) && after == self.with_flag(t, true)
        } else if overflows(self.marking, self.transitions[t].input, self.transitions[t].output) {
            r == Err::<Firing, FireError>(FireError::Overflow) && after == self
        } else {
            &&& r == Ok::<Firing, FireError>(Firing::Instant)
            &&& after.transitions == self.transitions
            &&& after.remaining == self.remaining
            &&& fires_to(self.marking, self.transitions[t].input, self.transitions[t].output, after.marking)
        }
    }

    /// Reporting the completion of transition `t` turns `self` into `after`
    /// with result `r`: the flag is cleared and the effect applied.
    pub open spec fn completes(self, t: int, after: NetView, r: Result<(), FireError>) -> bool {
        if !(0 <= t < self.transitions.len()) {
            r == Err::<(), FireError>(FireError::UnknownTransition) && after == self
        } else if !self.transitions[t].processing {
            r == Err::<(), FireError>(FireError::NotInFlight) && after == self
        } else {
            let tr = self.transitions[t];
            let cleared = self.with_flag(t, false);
            if !covers(self.marking, tr.input) {
                r == Err::<(), FireError>(FireError::InsufficientTokens) && after == cleared
            } else if overflows(self.marking, tr.input, tr.output) {
                r == Err::<(), FireError>(FireError::Overflow) && after == cleared
            } else {
                &&& r is Ok
                &&& after.transitions == cleared.transitions
                &&& after.remaining == self.remaining
                &&& fires_to(self.marking, tr.input, tr.output, after.marking)
            }
        }
    }

    /// Dispatching transition `t` within the budget turns `self` into
    /// `after` with step `r`; an accepted firing spends one unit of budget.
    pub open spec fn advances(self, t: int, after: NetView, r: Step) -> bool {
        if self.remaining == 0 {
            r == Step::Exhausted && after == self
        } else {
            match r {
                Step::Fired(u) => u == t && after.remaining == self.remaining - 1
                    && self.fires(t, NetView { remaining: self.remaining, ..after }, Ok(Firing::Instant)),
                Step::Started(u) => u == t && after.remaining == self.remaining - 1
                    && self.fires(t, NetView { remaining: self.remaining, ..after }, Ok(Firing::Started)),
                Step::Rejected(u, e) => u == t && self.fires(t, after, Err(e)),
                _ => false,
            }
        }
    }

    /// One pass of the scheduler loop turns `self` into `after` with step
    /// `r`: with budget left, an enabled transition is dispatched when there
    /// is one; otherwise the loop waits for an in-flight firing, or finds the
    /// net dead.
    pub open spec fn steps(self, after: NetView, r: Step) -> bool {
        if self.remaining == 0 {
            r == Step::Exhausted && after == self
        } else if !self.live() {
            after == self && r == if self.in_flight() { Step::Wait } else { Step::Dead }
        } else {
            &&& r.chosen() is Some
            &&& self.enabled_at(r.chosen()->0 as int)
            &&& self.advances(r.chosen()->0 as int, after, r)
        }
    }
}

/// A net under simulation.
pub struct Net {
    marking: Vec<i32>,
    transitions: Vec<Transition>,
    remaining: usize,
}

impl View for Net {
    type V = NetView;

    closed spec fn view(&self) -> NetView {
        NetView {
            marking: self.marking@,
            transitions: self.transitions@.map_values(|t: Transition| t@),
            remaining: self.remaining as nat,
        }
    }
}

fn arcs_within(arcs: &Vec<(i32, i8)>, n: usize) -> (r: bool)
    ensures
        r == arcs_fit(arcs@, n as nat),
{
    let mut k: usize = 0;
    while k < arcs.len()
        invariant
            k <= arcs@.len(),
            forall|j: int| 0 <= j < k ==> 0 <= #[trigger] arcs@[j].0 && (arcs@[j].0 as int) < n,
        decreases arcs@.len() - k,
    {
        let place = arcs[k].0;
        if place < 0 || place as usize >= n {
            return false;
        }
        k = k + 1;
    }
    true
}

impl Net {
    /// A net over `marking` with `transitions` and a budget of `budget`
    /// firings. A negative token count, or an arc that names a place outside
    /// the marking, refuses the net.
    pub fn new(marking: Vec<i32>, transitions: Vec<Transition>, budget: usize) -> (r: Result<Net, NetError>)
        ensures
            r == Err::<Net, NetError>(NetError::NegativeTokens) <==> !non_negative(marking@),
            r == Err::<Net, NetError>(NetError::PlaceOutOfRange) <==> non_negative(marking@) && exists|i: int|
                0 <= i < transitions@.len() && !(#[trigger] transitions@[i])@.fits(marking@.len()),
            r matches Ok(net) ==> net@ == (NetView {
                marking: marking@,
                transitions: transitions@.map_values(|t: Transition| t@),
                remaining: budget as nat,
            }),
            r matches Ok(net) ==> net@.wf(),
    {
        let mut p: usize = 0;
        while p < marking.len()
            invariant
                p <= marking@.len(),
                forall|q: int| 0 <= q < p ==> 0 <= #[trigger] marking@[q],
            decreases marking@.len() - p,
        {
            if marking[p] < 0 {
                return Err(NetError::NegativeTokens);
            }
            p = p + 1;
        }
        let n = marking.len();
        let mut i: usize = 0;
        while i < transitions.len()
            invariant
                i <= transitions@.len(),
                n == marking@.len(),
                non_negative(marking@),
                forall|j: int| 0 <= j < i ==> (#[trigger] transitions@[j])@.fits(n as nat),
            decreases transitions@.len() - i,
        {
            let t = &transitions[i];
            let fits = arcs_within(t.input(), n) && arcs_within(t.output(), n);
            if !fits {
                assert(!transitions@[i as int]@.fits(n as nat));
                return Err(NetError::PlaceOutOfRange);
            }
            i = i + 1;
        }
        let net = Net { marking, transitions, remaining: budget };
        proof {
            assert forall|j: int| 0 <= j < net@.transitions.len() implies #[trigger] net@.transitions[j].fits(
                net@.marking.len()) by {
                assert(net@.transitions[j] == transitions@[j]@);
            }
        }
        Ok(net)
    }

    /// The current token counts, one per place.
    pub fn marking(&self) -> (r: &Vec<i32>)
        ensures
            r@ == self@.marking,
    {
        &self.marking
    }

    pub fn transitions(&self) -> (r: &Vec<Transition>)
        ensures
            r@.map_values(|t: Transition| t@) == self@.transitions,
    {
        &self.transitions
    }

    /// The indices of the enabled transitions, in increasing order.
    pub fn enabled_transitions(&self) -> (r: Vec<usize>)
        requires
            self@.wf(),
        ensures
            forall|k: int| 0 <= k < r@.len() ==> self@.enabled_at(#[trigger] r@[k] as int),
            forall|t: int| self@.enabled_at(t) ==> r@.contains(t as usize),
            forall|a: int, b: int| 0 <= a < b < r@.len() ==> r@[a] < r@[b],
    {
        let mut r: Vec<usize> = Vec::new();
        let mut i: usize = 0;
        while i < self.transitions.len()
            invariant
                self@.wf(),
                i <= self@.transitions.len(),
                forall|k: int| 0 <= k < r@.len() ==> self@.enabled_at(#[trigger] r@[k] as int) && r@[k] < i,
                forall|t: int| 0 <= t < i && self@.enabled_at(t) ==> r@.contains(t as usize),
                forall|a: int, b: int| 0 <= a < b < r@.len() ==> r@[a] < r@[b],
            decreases self@.transitions.len() - i,
        {
            assert(self@.transitions[i as int] == self.transitions@[i as int]@);
            assert(self@.transitions[i as int].fits(self@.marking.len()));
            if self.transitions[i].is_active(self.marking.as_slice()) {
                let ghost old_r = r@;
                r.push(i);
                assert(r@[old_r.len() as int] == i);
                assert forall|t: int| 0 <= t < i + 1 && self@.enabled_at(t) implies r@.contains(t as usize) by {
                    if t < i {
                        let k = choose|k: int| 0 <= k < old_r.len() && old_r[k] == t as usize;
                        assert(r@[k] == t as usize);
                    }
                }
            }
            i = i + 1;
        }
        r
    }

    /// Whether some timed firing has started and not completed.
    pub fn any_in_flight(&self) -> (r: bool)
        ensures
            r == self@.in_flight(),
    {
        let mut i: usize = 0;
        while i < self.transitions.len()
            invariant
                i <= self@.transitions.len(),
                forall|j: int| 0 <= j < i ==> !(#[trigger] self@.transitions[j]).processing,
            decreases self@.transitions.len() - i,
        {
            assert(self@.transitions[i as int] == self.transitions@[i as int]@);
            if self.transitions[i].processing() {
                return true;
            }
            i = i + 1;
        }
        false
    }

    fn set_flag(&mut self, t: usize, processing: bool)
        requires
            old(self)@.wf(),
            t < old(self)@.transitions.len(),
        ensures
            final(self)@ == old(self)@.with_flag(t as int, processing),
            final(self)@.wf(),
    {
        self.transitions[t].set_processing(processing);
        assert(self@.transitions =~= old(self)@.transitions.update(
            t as int,
            TransitionView { processing, ..old(self)@.transitions[t as int] },
        ));
        assert forall|i: int| 0 <= i < self@.transitions.len() implies #[trigger] self@.transitions[i].fits(
            self@.marking.len()) by {
            assert(old(self)@.transitions[i].fits(self@.marking.len()));
        }
    }

    /// Checks that transition `t` is enabled and fires it, as one step:
    /// a zero-duration firing is applied at once, a timed one marks the
    /// transition as in flight and leaves the marking to its completion.
    pub fn fire(&mut self, t: usize) -> (r: Result<Firing, FireError>)
        requires
            old(self)@.wf(),
        ensures
            old(self)@.fires(t as int, final(self)@, r),
            final(self)@.wf(),
    {
        if t >= self.transitions.len() {
            return Err(FireError::UnknownTransition);
        }
        let ghost tv = self@.transitions[t as int];
        assert(tv == self.transitions@[t as int]@);
        assert(tv.fits(self@.marking.len()));
        if !self.transitions[t].is_active(self.marking.as_slice()) {
            return Err(FireError::NotEnabled);
        }
        if self.transitions[t].duration() > 0 {
            if self.transitions[t].debited(&self.marking).is_none() {
                return Err(FireError::InsufficientTokens);
            }
            self.set_flag(t, true);
            return Ok(Firing::Started);
        }
        let ghost before = self@;
        let result = self.transitions[t].enable(&mut self.marking);
        match result {
            Ok(()) => {
                proof {
                    assert(self@.transitions =~= before.transitions);
                    lemma_firing_keeps_non_negative(before.marking, tv.input, tv.output, self@.marking);
                }
                Ok(Firing::Instant)
            },
            Err(e) => {
                assert(self@ == before);
                Err(e)
            },
        }
    }

    /// Reports that the timed firing of transition `t` has run its
    /// duration: the transition leaves flight and its effect is applied to
    /// the marking. When the marking no longer covers what it consumes, or a
    /// place would overflow, that firing fails and the marking stays as it is.
    pub fn complete(&mut self, t: usize) -> (r: Result<(), FireError>)
        requires
            old(self)@.wf(),
        ensures
            old(self)@.completes(t as int, final(self)@, r),
            final(self)@.wf(),
    {
        if t >= self.transitions.len() {
            return Err(FireError::UnknownTransition);
        }
        let ghost tv = self@.transitions[t as int];
        assert(tv == self.transitions@[t as int]@);
        if !self.transitions[t].processing() {
            return Err(FireError::NotInFlight);
        }
        self.set_flag(t, false);
        let ghost cleared = self@;
        assert(cleared.transitions[t as int].input == tv.input);
        assert(cleared.transitions[t as int].output == tv.output);
        assert(cleared.transitions[t as int].fits(cleared.marking.len()));
        assert(self.transitions@[t as int]@ == cleared.transitions[t as int]);
        let result = self.transitions[t].enable(&mut self.marking);
        proof {
            assert(self@.transitions =~= cleared.transitions);
            assert(cleared == old(self)@.with_flag(t as int, false));
            if result is Ok {
                lemma_firing_keeps_non_negative(cleared.marking, tv.input, tv.output, self@.marking);
            } else {
                assert(self@ == cleared);
            }
        }
        result
    }

    /// Dispatches transition `t` when budget is left: an accepted firing
    /// spends one unit of budget, a refused one leaves the net unchanged.
    pub fn advance(&mut self, t: usize) -> (r: Step)
        requires
            old(self)@.wf(),
        ensures
            old(self)@.advances(t as int, final(self)@, r),
            final(self)@.wf(),
    {
        if self.remaining == 0 {
            return Step::Exhausted;
        }
        let ghost before = self@;
        match self.fire(t) {
            Ok(firing) => {
                let ghost fired = self@;
                self.remaining = self.remaining - 1;
                assert(NetView { remaining: before.remaining, ..self@ } == fired);
                assert(self@.marking == fired.marking && self@.transitions == fired.transitions);
                match firing {
                    Firing::Instant => Step::Fired(t),
                    Firing::Started => Step::Started(t),
                }
            },
            Err(e) => Step::Rejected(t, e),
        }
    }

    /// One pass of the scheduler loop: when budget is left and some
    /// transition is enabled, one of them, drawn at random, is dispatched;
    /// when none is enabled the result says whether to wait for an in-flight
    /// firing or whether the net is dead.
    pub fn step(&mut self) -> (r: Step)
        requires
            old(self)@.wf(),
        ensures
            old(self)@.steps(final(self)@, r),
            final(self)@.wf(),
    {
        if self.remaining == 0 {
            return Step::Exhausted;
        }
        let enabled = self.enabled_transitions();
        match choose_random(&enabled) {
            None => {
                assert(!self@.live()) by {
                    if self@.live() {
                        let t = choose|t: int| self@.enabled_at(t);
                        assert(enabled@.contains(t as usize));
                    }
                }
                if self.any_in_flight() {
                    Step::Wait
                } else {
                    Step::Dead
                }
            },
            Some(t) => {
                proof {
                    let k = choose|k: int| 0 <= k < enabled@.len() && enabled@[k] == t;
                    assert(self@.enabled_at(enabled@[k] as int));
                }
                self.advance(t)
            },
        }
    }

    /// How many more firings the budget allows.
    pub fn remaining(&self) -> (r: usize)
        ensures
            r == self@.remaining,
    {
        self.remaining
    }
}

} // verus!
