//! Finite and infinite numeric domains, as capability traits over values:
//! a set may report a size, hand out elements by position, and answer
//! membership.  Two variants live here — an enumerated list and an
//! arithmetic progression — and further variants may implement the same
//! three capabilities.

use vstd::prelude::*;

use crate::scalar::{
    f64_add, f64_mul, f64_neg, f64_of_int, f64_rem, sc_is_zero, sc_le, scalar_add, scalar_le,
    scalar_mul, scalar_neg, scalar_of_int, scalar_rem,
};
use crate::types::{spec_val_eq, Val, Value};

verus! {

/// The size of a set: a finite count or "infinite".
#[derive(Clone, Copy, PartialEq, Eq, Structural)]
pub enum SetSize {
    Finite(usize),
    Infinite,
}

/// The capability to report a size.
pub trait SizedSet {
    /// The size this set has.
    spec fn spec_card(&self) -> SetSize;

    /// Reports the set's size.
    fn card(&self) -> (r: SetSize)
        ensures
            r == self.spec_card(),
    ;
}

/// The capability to hand elements out by position, in a fixed order.
pub trait IterableSet {
    /// The element at position `i`, if the set reaches that far.
    spec fn spec_index(&self, i: int) -> Option<Val>;

    /// Hands out the element at position `i`.
    fn index(&self, i: usize) -> (r: Option<Value>)
        ensures
            match r {
                Some(v) => self.spec_index(i as int) == Some(v@) && v.wf(),
                None => self.spec_index(i as int) is None,
            },
    ;
}

/// The capability to answer membership.
pub trait QueryableSet {
    /// Whether the value belongs to the set.
    spec fn spec_contains(&self, v: Val) -> bool;

    /// Answers whether `value` belongs to the set.
    fn contains(&self, value: &Value) -> (r: bool)
        requires
            value.wf(),
        ensures
            r == self.spec_contains(value@),
    ;
}

/// A finite enumerated set: an explicit ordered list of values.  Its
/// cardinality is the list's length, iteration follows the stored order, and
/// membership is a structural-equality scan.
pub struct FiniteSet(Vec<Value>);

impl FiniteSet {
    /// Every stored value is well formed.
    #[verifier::type_invariant]
    spec fn type_inv(&self) -> bool {
        forall|i: int| 0 <= i < self.0@.len() ==> (#[trigger] self.0@[i]).wf()
    }

    /// The stored values, in order.
    pub closed spec fn models(&self) -> Seq<Val> {
        Seq::new(self.0@.len(), |i: int| self.0@[i]@)
    }

    /// Builds the set over the given values, keeping their order.
    pub fn new(items: Vec<Value>) -> (r: FiniteSet)
        requires
            forall|i: int| 0 <= i < items@.len() ==> (#[trigger] items@[i]).wf(),
        ensures
            r.models() == Seq::new(items@.len(), |i: int| items@[i]@),
    {
        FiniteSet(items)
    }
}

impl SizedSet for FiniteSet {
    open spec fn spec_card(&self) -> SetSize {
        SetSize::Finite(self.models().len() as usize)
    }

    fn card(&self) -> (r: SetSize) {
        SetSize::Finite(self.0.len())
    }
}

impl IterableSet for FiniteSet {
    open spec fn spec_index(&self, i: int) -> Option<Val> {
        if 0 <= i < self.models().len() {
            Some(self.models()[i])
        } else {
            None
        }
    }

    fn index(&self, i: usize) -> (r: Option<Value>) {
        proof {
            use_type_invariant(self);
        }
        if i < self.0.len() {
            Some(self.0[i].duplicate())
        } else {
            None
        }
    }
}

impl QueryableSet for FiniteSet {
    open spec fn spec_contains(&self, v: Val) -> bool {
        exists|i: int| 0 <= i < self.models().len() && spec_val_eq(#[trigger] self.models()[i], v)
    }

    fn contains(&self, value: &Value) -> (r: bool) {
        proof {
            use_type_invariant(self);
        }
        let mut i: usize = 0;
        while i < self.0.len()
            invariant
                i <= self.0@.len(),
                value.wf(),
                forall|j: int| 0 <= j < self.0@.len() ==> (#[trigger] self.0@[j]).wf(),
                forall|j: int| 0 <= j < i ==> !spec_val_eq(#[trigger] self.models()[j], value@),
            decreases self.0@.len() - i,
        {
            if self.0[i].equal(value) {
                proof {
                    assert(spec_val_eq(self.models()[i as int], value@));
                }
                return true;
            }
            i += 1;
        }
        false
    }
}

/// The element of the progression `start, start + step, ...` at position
/// `k`, computed in binary64: `start + k * step`.
pub open spec fn prog_element(start: u64, step: u64, k: u64) -> u64 {
    f64_add(start, f64_mul(f64_of_int(k), step))
}

/// Whether the progression's `k`-th element still lies at or below `stop`.
pub open spec fn prog_le(start: u64, step: u64, stop: u64, k: u64) -> bool {
    sc_le(prog_element(start, step, k), stop)
}

/// `n` counts exactly the leading elements that lie at or below `stop`.
pub open spec fn is_prog_count(start: u64, step: u64, stop: u64, n: usize) -> bool {
    &&& n < usize::MAX
    &&& !prog_le(start, step, stop, n as u64)
    &&& forall|j: u64| j < n ==> prog_le(start, step, stop, j)
}

/// The count of non-negative positions `k` with `start + k * step <= stop`,
/// saturated at the largest count a `usize` can carry.
pub closed spec fn prog_count(start: u64, step: u64, stop: u64) -> usize {
    if exists|n: usize| is_prog_count(start, step, stop, n) {
        choose|n: usize| is_prog_count(start, step, stop, n)
    } else {
        usize::MAX
    }
}

/// An arithmetic progression `start, start + step, ...`, stopping at `stop`
/// when one is given and running on without end otherwise.  The fields carry
/// binary64 bit patterns.
pub struct ArithmeticProgression(u64, u64, Option<u64>);

impl ArithmeticProgression {
    /// The first element's bits.
    pub closed spec fn spec_start(&self) -> u64 {
        self.0
    }

    /// The step's bits.
    pub closed spec fn spec_step(&self) -> u64 {
        self.1
    }

    /// The bound's bits, where the progression has one.
    pub closed spec fn spec_stop(&self) -> Option<u64> {
        self.2
    }

    /// The progression bounded by `stop`.
    pub fn new_finite(start: u64, step: u64, stop: u64) -> (r: ArithmeticProgression)
        ensures
            r.spec_start() == start,
            r.spec_step() == step,
            r.spec_stop() == Some(stop),
    {
        ArithmeticProgression(start, step, Some(stop))
    }

    /// The unbounded progression.
    pub fn new_infinite(start: u64, step: u64) -> (r: ArithmeticProgression)
        ensures
            r.spec_start() == start,
            r.spec_step() == step,
            r.spec_stop() is None,
    {
        ArithmeticProgression(start, step, None)
    }
}

impl SizedSet for ArithmeticProgression {
    open spec fn spec_card(&self) -> SetSize {
        match self.spec_stop() {
            None => SetSize::Infinite,
            Some(stop) => SetSize::Finite(prog_count(self.spec_start(), self.spec_step(), stop)),
        }
    }

    fn card(&self) -> (r: SetSize) {
        let stop = match self.2 {
            None => {
                return SetSize::Infinite;
            },
            Some(stop) => stop,
        };
        let mut k: usize = 0;
        while k < usize::MAX
            invariant
                self.2 == Some(stop),
                forall|j: u64| j < k ==> prog_le(self.0, self.1, stop, j),
            decreases usize::MAX - k,
        {
            let el = scalar_add(self.0, scalar_mul(scalar_of_int(k as u64), self.1));
            if !scalar_le(el, stop) {
                proof {
                    assert(is_prog_count(self.0, self.1, stop, k));
                    let n = choose|n: usize| is_prog_count(self.0, self.1, stop, n);
                    assert(is_prog_count(self.0, self.1, stop, n));
                    if n < k {
                        assert(prog_le(self.0, self.1, stop, n as u64));
                        assert(false);
                    }
                    if n > k {
                        assert(prog_le(self.0, self.1, stop, k as u64));
                        assert(false);
                    }
                    assert(prog_count(self.0, self.1, stop) == k);
                }
                return SetSize::Finite(k);
            }
            k += 1;
        }
        proof {
            assert forall|n: usize| !is_prog_count(self.0, self.1, stop, n) by {
                if n < usize::MAX {
                    assert(prog_le(self.0, self.1, stop, n as u64));
                }
            }
        }
        SetSize::Finite(usize::MAX)
    }
}

impl IterableSet for ArithmeticProgression {
    open spec fn spec_index(&self, i: int) -> Option<Val> {
        if 0 <= i <= u64::MAX {
            Some(Val::Num(prog_element(self.spec_start(), self.spec_step(), i as u64)))
        } else {
            None
        }
    }

    fn index(&self, i: usize) -> (r: Option<Value>) {
        Some(Value::Number(scalar_add(self.0, scalar_mul(scalar_of_int(i as u64), self.1))))
    }
}

impl QueryableSet for ArithmeticProgression {
    /// A scalar belongs when its distance from `start` leaves no remainder
    /// by `step`.  The remainder check is exact only where the values are
    /// exactly representable: that precision caveat is the progression's
    /// documented behaviour, not rounded away here.
    open spec fn spec_contains(&self, v: Val) -> bool {
        v matches Val::Num(x) && sc_is_zero(
            f64_rem(f64_add(x, f64_neg(self.spec_start())), self.spec_step()),
        )
    }

    fn contains(&self, value: &Value) -> (r: bool) {
        match value {
            Value::Number(x) => crate::scalar::is_zero(
                scalar_rem(scalar_add(*x, scalar_neg(self.0)), self.1),
            ),
            Value::Matrix(_, _) => false,
        }
    }
}

} // verus!
