//! Transitions: their arcs, enabledness over a marking, and the effect of
//! one firing.

use vstd::prelude::*;

use crate::marking::{
    arcs_fit, arcs_hold, count_after, covers, fires_to, lemma_weight_prefix, lemma_weight_step,
    non_negative, overflows, weight_at,
};

verus! {

/// Why one firing could not be applied.
#[derive(Debug, Clone, Copy, PartialEq, Eq, Structural)]
pub enum FireError {
    /// No transition has the given index.
    UnknownTransition,
    /// The transition is in flight, or one of its input conditions fails.
    NotEnabled,
    /// Some place holds fewer tokens than the transition consumes from it.
    InsufficientTokens,
    /// Some place would hold more than `i32::MAX` tokens.
    Overflow,
    /// A completion was reported for a transition that is not in flight.
    NotInFlight,
}

/// What a transition is, seen mathematically.
pub struct TransitionView {
    pub id: u8,
    /// Input arcs as (place index, weight); a negative weight is inhibitory.
    pub input: Seq<(i32, i8)>,
    /// Output arcs as (place index, weight).
    pub output: Seq<(i32, i8)>,
    /// Firing duration in seconds; zero means instantaneous.
    pub duration: u64,
    /// A timed firing of this transition has started and not completed.
    pub processing: bool,
}

impl TransitionView {
    /// Every arc names one of `n` places.
    pub open spec fn fits(self, n: nat) -> bool {
        arcs_fit(self.input, n) && arcs_fit(self.output, n)
    }

    /// The transition may fire on `m`: it is not in flight and every input
    /// arc's condition holds.
    pub open spec fn enabled(self, m: Seq<i32>) -> bool {
        !self.processing && arcs_hold(m, self.input)
    }
}

/// A transition with its arcs, its firing duration and its in-flight flag.
pub struct Transition {
    id: u8,
    input: Vec<(i32, i8)>,
    output: Vec<(i32, i8)>,
    duration: u64,
    processing: bool,
}

impl View for Transition {
    type V = TransitionView;

    closed spec fn view(&self) -> TransitionView {
        TransitionView {
            id: self.id,
            input: self.input@,
            output: self.output@,
            duration: self.duration,
            processing: self.processing,
        }
    }
}

fn copy_arcs(arcs: &[(i32, i8)]) -> (r: Vec<(i32, i8)>)
    ensures
        r@ == arcs@,
{
    let mut r: Vec<(i32, i8)> = Vec::new();
    let mut i: usize = 0;
    while i < arcs.len()
        invariant
            i <= arcs@.len(),
            r@ == arcs@.take(i as int),
        decreases arcs@.len() - i,
    {
        r.push(arcs[i]);
        i = i + 1;
        assert(r@ =~= arcs@.take(i as int));
    }
    assert(arcs@.take(i as int) =~= arcs@);
    r
}

impl Transition {
    /// A transition that is not in flight, with the given arcs and a
    /// duration of `duration` seconds.
    pub fn new(id: u8, input: &[(i32, i8)], output: &[(i32, i8)], duration: u64) -> (r: Self)
        ensures
            r@ == (TransitionView { id, input: input@, output: output@, duration, processing: false }),
    {
        Transition {
            id,
            input: copy_arcs(input),
            output: copy_arcs(output),
            duration,
            processing: false,
        }
    }

    /// Whether the transition may fire on the marking `vect`: false while it
    /// is in flight, otherwise true exactly when every input arc's condition
    /// holds.
    pub fn is_active(&self, vect: &[i32]) -> (r: bool)
        requires
            arcs_fit(self@.input, vect@.len()),
        ensures
            r == self@.enabled(vect@),
    {
        if self.processing {
            return false;
        }
        let mut k: usize = 0;
        while k < self.input.len()
            invariant
                k <= self.input@.len(),
                !self.processing,
                arcs_fit(self@.input, vect@.len()),
                forall|j: int| 0 <= j < k ==> crate::marking::arc_holds(vect@, #[trigger] self.input@[j]),
            decreases self.input@.len() - k,
        {
            let (place, weight) = self.input[k];
            assert(0 <= self@.input[k as int].0);
            let count = vect[place as usize];
            let holds = if weight < 0 {
                (count as i64) < -(weight as i64)
            } else {
                count >= weight as i32
            };
            if !holds {
                return false;
            }
            k = k + 1;
        }
        true
    }

    /// The marking `vect` with the tokens that the input arcs consume taken
    /// away, or `None` when some place holds fewer than that.
    pub(crate) fn debited(&self, vect: &Vec<i32>) -> (r: Option<Vec<i32>>)
        requires
            self@.fits(vect@.len()),
            non_negative(vect@),
        ensures
            r is None <==> !covers(vect@, self@.input),
            r matches Some(v) ==> v@.len() == vect@.len() && forall|p: int|
                0 <= p < vect@.len() ==> #[trigger] v@[p] as int == vect@[p] - weight_at(self@.input, p),
    {
        let ghost m = vect@;
        let n = vect.len();
        let mut next: Vec<i32> = Vec::new();
        let mut i: usize = 0;
        while i < n
            invariant
                n == m.len(),
                i <= n,
                vect@ == m,
                next@ == m.take(i as int),
            decreases n - i,
        {
            next.push(vect[i]);
            i = i + 1;
            assert(next@ =~= m.take(i as int));
        }
        assert(next@ =~= m);
        let mut k: usize = 0;
        while k < self.input.len()
            invariant
                k <= self.input@.len(),
                next@.len() == m.len(),
                vect@ == m,
                self@.fits(m.len()),
                non_negative(m),
                forall|p: int| 0 <= p < m.len() ==> #[trigger] next@[p] as int == m[p] - weight_at(self.input@.take(k as int), p),
                forall|p: int| 0 <= p < m.len() ==> 0 <= #[trigger] next@[p],
            decreases self.input@.len() - k,
        {
            let (place, weight) = self.input[k];
            assert(0 <= self@.input[k as int].0);
            let q = place as usize;
            proof {
                assert forall|p: int| 0 <= p < m.len() implies weight_at(self.input@.take(k + 1), p)
                    == weight_at(self.input@.take(k as int), p) + if self.input@[k as int].0 as int == p
                        && self.input@[k as int].1 >= 0 {
                        self.input@[k as int].1 as int
                    } else {
                        0
                    } by {
                    lemma_weight_step(self.input@, k as int, p);
                }
            }
            if weight >= 0 {
                if next[q] < weight as i32 {
                    proof {
                        lemma_weight_prefix(self.input@, k + 1, q as int);
                    }
                    return None;
                }
                next.set(q, next[q] - weight as i32);
            }
            k = k + 1;
        }
        assert(self.input@.take(k as int) =~= self.input@);
        assert forall|p: int| 0 <= p < m.len() implies weight_at(self.input@, p) <= #[trigger] m[p] by {
            assert(0 <= next@[p]);
        }
        Some(next)
    }

    /// Applies one firing to `vect`: every input arc with a weight `w >= 0`
    /// takes `w` tokens from its place, every output arc with a weight
    /// `w >= 0` adds `w` tokens to its place; inhibitory arcs change nothing.
    /// The marking is left as it was when some place holds fewer tokens than
    /// the firing consumes from it, or when some place would exceed
    /// `i32::MAX`.
    pub fn enable(&self, vect: &mut Vec<i32>) -> (r: Result<(), FireError>)
        requires
            self@.fits(old(vect)@.len()),
            non_negative(old(vect)@),
        ensures
            r is Err ==> final(vect)@ == old(vect)@,
            r matches Err(e) ==> e == FireError::InsufficientTokens || e == FireError::Overflow,
            r == Err::<(), FireError>(FireError::InsufficientTokens) <==> !covers(old(vect)@, self@.input),
            r == Err::<(), FireError>(FireError::Overflow) <==> covers(old(vect)@, self@.input)
                && overflows(old(vect)@, self@.input, self@.output),
            r is Ok ==> fires_to(old(vect)@, self@.input, self@.output, final(vect)@),
    {
        let ghost m = vect@;
        let mut next = match self.debited(vect) {
            Some(v) => v,
            None => {
                return Err(FireError::InsufficientTokens);
            },
        };
        let mut j: usize = 0;
        while j < self.output.len()
            invariant
                j <= self.output@.len(),
                next@.len() == m.len(),
                vect@ == m,
                self@.fits(m.len()),
                covers(m, self@.input),
                forall|p: int| 0 <= p < m.len() ==> #[trigger] next@[p] as int == m[p] - weight_at(self.input@, p)
                    + weight_at(self.output@.take(j as int), p),
            decreases self.output@.len() - j,
        {
            let (place, weight) = self.output[j];
            assert(0 <= self@.output[j as int].0);
            let q = place as usize;
            proof {
                assert forall|p: int| 0 <= p < m.len() implies weight_at(self.output@.take(j + 1), p)
                    == weight_at(self.output@.take(j as int), p) + if self.output@[j as int].0 as int == p
                        && self.output@[j as int].1 >= 0 {
                        self.output@[j as int].1 as int
                    } else {
                        0
                    } by {
                    lemma_weight_step(self.output@, j as int, p);
                }
            }
            if weight >= 0 {
                match next[q].checked_add(weight as i32) {
                    Some(v) => {
                        next.set(q, v);
                    },
                    None => {
                        proof {
                            lemma_weight_prefix(self.output@, j + 1, q as int);
                            assert(count_after(m, self@.input, self@.output, q as int) > i32::MAX);
                        }
                        return Err(FireError::Overflow);
                    },
                }
            }
            j = j + 1;
        }
        assert(self.output@.take(j as int) =~= self.output@);
        assert forall|p: int| 0 <= p < m.len() implies count_after(m, self@.input, self@.output, p) <= i32::MAX by {
            assert(next@[p] <= i32::MAX);
        }
        *vect = next;
        Ok(())
    }

    /// Marks the transition as in flight or not.
    pub(crate) fn set_processing(&mut self, processing: bool)
        ensures
            final(self)@ == (TransitionView { processing, ..old(self)@ }),
    {
        self.processing = processing;
    }

    pub fn id(&self) -> (r: u8)
        ensures
            r == self@.id,
    {
        self.id
    }

    /// The firing duration in seconds.
    pub fn duration(&self) -> (r: u64)
        ensures
            r == self@.duration,
    {
        self.duration
    }

    pub fn processing(&self) -> (r: bool)
        ensures
            r == self@.processing,
    {
        self.processing
    }

    pub fn input(&self) -> (r: &Vec<(i32, i8)>)
        ensures
            r@ == self@.input,
    {
        &self.input
    }

    pub fn output(&self) -> (r: &Vec<(i32, i8)>)
        ensures
            r@ == self@.output,
    {
        &self.output
    }
}

} // verus!
