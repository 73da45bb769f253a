//! The payloads that travel on simulated channels.
//!
//! A single sum type carries every payload shape the pipelines exchange:
//! bare scalars, the per-score state of the online-softmax recurrence, short
//! vectors (one row of V, or one output accumulator), and pairs produced by
//! a zip block.  Using one type for all channels lets a whole graph live in
//! one simulation while each block checks, at run time, that the shape it
//! receives is the one its wiring promises; a mismatch is a fatal wiring
//! fault.  Contracts speak of payloads through their mathematical view
//! [`Val`], in which a vector payload is a sequence.

use vstd::prelude::*;

use crate::scalar::Scalar;

verus! {

/// Per-score state of the online-softmax recurrence.
///
/// For a score `s` arriving in a row whose running maximum was `old_max`:
/// `cur_max` is the new running maximum, `delta_max` is `old_max - cur_max`,
/// `exp` is `exp(s - cur_max)`, and `delta_elem` is `exp(delta_max)`, the
/// factor that rescales previously accumulated partial results.
#[derive(Clone, Copy, PartialEq, Eq, Structural, Debug)]
pub struct RunningResult<S> {
    pub cur_max: S,
    pub delta_max: S,
    pub exp: S,
    pub delta_elem: S,
}

/// A payload on a simulated channel.
#[derive(Debug)]
pub enum Value<S> {
    /// A single scalar.
    Num(S),
    /// One step of the online-softmax recurrence.
    Run(RunningResult<S>),
    /// An ordered sequence of scalars.
    Vect(Vec<S>),
    /// The output of a zip block.
    Pair(Box<Value<S>>, Box<Value<S>>),
}

/// The mathematical view of a payload.
pub enum Val<S> {
    Num(S),
    Run(RunningResult<S>),
    Vect(Seq<S>),
    Pair(Box<Val<S>>, Box<Val<S>>),
}

impl<S> View for Value<S> {
    type V = Val<S>;

    open spec fn view(&self) -> Val<S>
        decreases self,
    {
        match self {
            Value::Num(x) => Val::Num(*x),
            Value::Run(r) => Val::Run(*r),
            Value::Vect(v) => Val::Vect(v@),
            Value::Pair(a, b) => Val::Pair(Box::new((**a)@), Box::new((**b)@)),
        }
    }
}

/// The views of a sequence of payloads.
pub open spec fn vals_of<S>(s: Seq<Value<S>>) -> Seq<Val<S>> {
    s.map_values(|v: Value<S>| v@)
}

impl<S: Scalar> Value<S> {
    /// A structural copy; broadcast fan-out clones a payload into every
    /// target channel.
    pub fn dup(&self) -> (r: Self)
        ensures
            r@ == self@,
        decreases self,
    {
        match self {
            Value::Num(x) => Value::Num(*x),
            Value::Run(x) => Value::Run(*x),
            Value::Vect(v) => {
                let mut copy: Vec<S> = Vec::new();
                let mut i: usize = 0;
                while i < v.len()
                    invariant
                        i <= v.len(),
                        copy@ == v@.subrange(0, i as int),
                    decreases v.len() - i,
                {
                    copy.push(v[i]);
                    proof {
                        assert(copy@ =~= v@.subrange(0, i + 1 as int));
                    }
                    i = i + 1;
                }
                proof {
                    assert(copy@ =~= v@);
                }
                Value::Vect(copy)
            },
            Value::Pair(a, b) => Value::Pair(Box::new(a.dup()), Box::new(b.dup())),
        }
    }
}

} // verus!
