//! The value algebra: scalars and row-major matrices of scalars.

use vstd::arithmetic::div_mod::{lemma_fundamental_div_mod, lemma_fundamental_div_mod_converse};
use vstd::prelude::*;
use vstd::string::StringExecFns;

use crate::scalar::{
    f64_add, f64_div, f64_mul, f64_neg, f64_text, sc_eq, sc_is_nan, sc_is_zero, scalar_add,
    scalar_div, scalar_eq, scalar_mul, scalar_neg,
};

verus! {

/// How an evaluation fails.  Resolve errors cover a malformed numeral, an
/// unbound identifier and an unsupported node kind; definition errors a
/// malformed matrix literal; arithmetic errors a dimension mismatch, a zero
/// divisor and an operator applied to shapes it does not support.
#[derive(Debug, Copy, Clone, PartialEq, Eq, Structural)]
pub enum Error {
    ArithmeticError,
    DefinitionError,
    ResolveError,
}

/// A value: a scalar, carried as the bits of an IEEE 754 binary64 number, or
/// a matrix, carried as a flat row-major sequence of scalar entries together
/// with its column width.  Matrices of matrices are not permitted: a
/// well-formed matrix holds scalars alone.
pub enum Value {
    Number(u64),
    Matrix(Vec<Value>, usize),
}

/// The mathematical shape of a [`Value`]: a scalar's bits, or a matrix's flat
/// sequence of scalar bits with its column width.
pub ghost enum Val {
    Num(u64),
    Mat(Seq<u64>, nat),
}

impl Val {
    /// The entry count of a matrix is an exact multiple of its width.
    pub open spec fn wf(self) -> bool {
        match self {
            Val::Num(_) => true,
            Val::Mat(s, w) => (w == 0 ==> s.len() == 0) && (w != 0 ==> s.len() as int % (
            w as int) == 0),
        }
    }

    /// (height, width): a scalar sizes as a 1-by-1 matrix; a matrix with no
    /// width or no entries as 0-by-0.
    pub open spec fn size(self) -> (nat, nat) {
        match self {
            Val::Num(_) => (1nat, 1nat),
            Val::Mat(s, w) => if w == 0 || s.len() == 0 {
                (0nat, 0nat)
            } else {
                ((s.len() / w) as nat, w)
            },
        }
    }
}

impl Value {
    /// Well-formedness: every matrix entry is a scalar, and the entry count
    /// is an exact multiple of the width.
    pub open spec fn wf(&self) -> bool {
        match self {
            Value::Number(_) => true,
            Value::Matrix(data, width) => {
                &&& forall|i: int| 0 <= i < data@.len() ==> (#[trigger] data@[i]) is Number
                &&& self@.wf()
            },
        }
    }
}

impl View for Value {
    type V = Val;

    /// The model: meaningful for well-formed values, where every matrix entry
    /// is a `Number`.
    open spec fn view(&self) -> Val {
        match self {
            Value::Number(bits) => Val::Num(*bits),
            Value::Matrix(data, width) => Val::Mat(
                Seq::new(data@.len(), |i: int| data@[i]->Number_0),
                *width as nat,
            ),
        }
    }
}

/// The model of an operation's outcome.
pub open spec fn result_view(r: Result<Value, Error>) -> Result<Val, Error> {
    match r {
        Ok(v) => Ok(v@),
        Err(e) => Err(e),
    }
}

/// Negation: elementwise on a matrix, structure preserved.  It never fails.
pub open spec fn spec_negate(v: Val) -> Val {
    match v {
        Val::Num(a) => Val::Num(f64_neg(a)),
        Val::Mat(s, w) => Val::Mat(Seq::new(s.len(), |i: int| f64_neg(s[i])), w),
    }
}

/// Addition: scalar with scalar, or elementwise on matrices of identical
/// size; every other pairing is an arithmetic error.
pub open spec fn spec_add(a: Val, b: Val) -> Result<Val, Error> {
    match (a, b) {
        (Val::Num(x), Val::Num(y)) => Ok(Val::Num(f64_add(x, y))),
        (Val::Mat(xs, xw), Val::Mat(ys, yw)) => if a.size() == b.size() {
            Ok(Val::Mat(Seq::new(xs.len(), |i: int| f64_add(xs[i], ys[i])), xw))
        } else {
            Err(Error::ArithmeticError)
        },
        _ => Err(Error::ArithmeticError),
    }
}

/// Subtraction is addition of the negation.
pub open spec fn spec_sub(a: Val, b: Val) -> Result<Val, Error> {
    spec_add(a, spec_negate(b))
}

/// Elementwise scaling of a matrix by a scalar, the scalar on the left.
pub open spec fn spec_scale(x: u64, s: Seq<u64>, w: nat) -> Val {
    Val::Mat(Seq::new(s.len(), |i: int| f64_mul(x, s[i])), w)
}

/// The left-to-right fold of the first `k` products of a matrix-product
/// cell: row `i` of `xs` (of width `inner`) against column `j` of `ys`
/// (of width `wb`).
pub open spec fn spec_dot(
    xs: Seq<u64>,
    ys: Seq<u64>,
    inner: nat,
    wb: nat,
    i: int,
    j: int,
    k: nat,
) -> u64
    decreases k,
{
    if k <= 1 {
        f64_mul(xs[i * inner as int], ys[j])
    } else {
        f64_add(
            spec_dot(xs, ys, inner, wb, i, j, (k - 1) as nat),
            f64_mul(xs[i * inner as int + (k - 1)], ys[(k - 1) * wb as int + j]),
        )
    }
}

/// Multiplication: scalar with scalar; a scalar against a matrix scales it
/// elementwise; matrix against matrix is the standard product, asking the
/// left's column count to equal the right's row count, and giving the empty
/// matrix when that shared inner dimension is 0.
pub open spec fn spec_mul(a: Val, b: Val) -> Result<Val, Error> {
    match (a, b) {
        (Val::Num(x), Val::Num(y)) => Ok(Val::Num(f64_mul(x, y))),
        (Val::Num(x), Val::Mat(s, w)) => Ok(spec_scale(x, s, w)),
        (Val::Mat(s, w), Val::Num(x)) => Ok(spec_scale(x, s, w)),
        (Val::Mat(xs, xw), Val::Mat(ys, yw)) => {
            let ha = a.size().0;
            let ca = a.size().1;
            let hb = b.size().0;
            let cb = b.size().1;
            if ca != hb {
                Err(Error::ArithmeticError)
            } else if ca == 0 {
                Ok(Val::Mat(Seq::empty(), 0))
            } else {
                Ok(
                    Val::Mat(
                        Seq::new(
                            (ha * cb) as nat,
                            |idx: int| spec_dot(xs, ys, ca, cb, idx / cb as int, idx % cb as int, ca),
                        ),
                        cb,
                    ),
                )
            }
        },
    }
}

/// Division: scalar by a non-zero scalar; a zero divisor and any matrix
/// operand are arithmetic errors.
pub open spec fn spec_div(a: Val, b: Val) -> Result<Val, Error> {
    match (a, b) {
        (Val::Num(x), Val::Num(y)) => if !sc_is_zero(y) {
            Ok(Val::Num(f64_div(x, y)))
        } else {
            Err(Error::ArithmeticError)
        },
        _ => Err(Error::ArithmeticError),
    }
}

/// Exponentiation: a scalar raised to a scalar power, by this library's own
/// power algorithm over the primitives ([`crate::scalar::spec_pow`]); any
/// matrix operand is an arithmetic error.
pub open spec fn spec_exp(a: Val, b: Val) -> Result<Val, Error> {
    match (a, b) {
        (Val::Num(x), Val::Num(y)) => Ok(Val::Num(crate::scalar::spec_pow(x, y))),
        _ => Err(Error::ArithmeticError),
    }
}

/// Structural equality: scalars by IEEE 754 equality, matrices entry by
/// entry with equal widths and entry counts, and never across shapes.
pub open spec fn spec_val_eq(a: Val, b: Val) -> bool {
    match (a, b) {
        (Val::Num(x), Val::Num(y)) => sc_eq(x, y),
        (Val::Mat(xs, xw), Val::Mat(ys, yw)) => {
            &&& xw == yw
            &&& xs.len() == ys.len()
            &&& forall|i: int| 0 <= i < xs.len() ==> sc_eq(#[trigger] xs[i], ys[i])
        },
        _ => false,
    }
}

/// Subtraction is exactly addition of the negation, on every pair of values.
pub proof fn lemma_sub_is_add_negate(a: Val, b: Val)
    ensures
        spec_sub(a, b) == spec_add(a, spec_negate(b)),
{
}

/// On matrices of one size, subtraction is elementwise: entry by entry the
/// difference is the sum with the negated entry.
pub proof fn lemma_sub_matrices_elementwise(a: Val, b: Val)
    requires
        a is Mat,
        b is Mat,
        a.wf(),
        b.wf(),
        a.size() == b.size(),
    ensures
        spec_sub(a, b) is Ok,
        spec_sub(a, b)->Ok_0 is Mat,
        spec_sub(a, b)->Ok_0->Mat_1 == a->Mat_1,
        spec_sub(a, b)->Ok_0->Mat_0.len() == a->Mat_0.len(),
        forall|i: int|
            0 <= i < a->Mat_0.len() ==> #[trigger] spec_sub(a, b)->Ok_0->Mat_0[i] == f64_add(
                a->Mat_0[i],
                f64_neg(b->Mat_0[i]),
            ),
{
    let nb = spec_negate(b);
    assert(nb->Mat_0.len() == b->Mat_0.len());
    assert(nb.size() == b.size());
    lemma_wf_mat_len(a);
    lemma_wf_mat_len(b);
    assert(a->Mat_0.len() == b->Mat_0.len());
    assert forall|i: int|
        0 <= i < a->Mat_0.len() implies #[trigger] spec_sub(a, b)->Ok_0->Mat_0[i] == f64_add(
        a->Mat_0[i],
        f64_neg(b->Mat_0[i]),
    ) by {
        assert(nb->Mat_0[i] == f64_neg(b->Mat_0[i]));
    }
}

/// A well-formed matrix's entry count is its height times its width.
pub proof fn lemma_wf_mat_len(v: Val)
    requires
        v.wf(),
        v is Mat,
    ensures
        v->Mat_0.len() == v.size().0 * v.size().1,
{
    let s = v->Mat_0;
    let w = v->Mat_1;
    if w == 0 {
        assert(s.len() == 0);
    } else if s.len() == 0 {
    } else {
        let len = s.len() as int;
        let wi = w as int;
        lemma_fundamental_div_mod(len, wi);
        assert(len == wi * (len / wi));
        assert(v.size().0 == len / wi);
        assert(v.size().1 == wi);
        assert(v.size().0 * v.size().1 == len) by (nonlinear_arith)
            requires
                v.size().0 == len / wi,
                v.size().1 == wi,
                len == wi * (len / wi),
        ;
    }
}

/// Reads a matrix entry's scalar bits; well-formedness makes every entry a
/// scalar, so the other arm is unreachable.
fn entry_bits(v: &Value) -> (r: u64)
    requires
        *v is Number,
    ensures
        r == v->Number_0,
{
    match v {
        Value::Number(b) => *b,
        Value::Matrix(_, _) => vstd::pervasive::unreached(),
    }
}

impl Value {
    /// True of a scalar.
    pub fn is_number(&self) -> (r: bool)
        ensures
            r == (self@ is Num),
    {
        match self {
            Value::Number(_) => true,
            Value::Matrix(_, _) => false,
        }
    }

    /// The (height, width) of the value, a scalar counting as 1-by-1.
    pub fn size(&self) -> (r: (usize, usize))
        ensures
            r.0 == self@.size().0,
            r.1 == self@.size().1,
    {
        match self {
            Value::Number(_) => (1, 1),
            Value::Matrix(data, width) => {
                if *width == 0 || data.len() == 0 {
                    (0, 0)
                } else {
                    (data.len() / *width, *width)
                }
            },
        }
    }

    /// A structurally equal copy.
    pub fn duplicate(&self) -> (r: Value)
        requires
            self.wf(),
        ensures
            r@ == self@,
            r.wf(),
    {
        match self {
            Value::Number(b) => Value::Number(*b),
            Value::Matrix(data, width) => {
                let mut out: Vec<Value> = Vec::new();
                let mut i: usize = 0;
                while i < data.len()
                    invariant
                        i <= data@.len(),
                        out@.len() == i,
                        forall|j: int| 0 <= j < data@.len() ==> (#[trigger] data@[j]) is Number,
                        forall|j: int|
                            0 <= j < i ==> (#[trigger] out@[j]) is Number && out@[j]->Number_0
                                == data@[j]->Number_0,
                    decreases data@.len() - i,
                {
                    out.push(Value::Number(entry_bits(&data[i])));
                    i += 1;
                }
                let r = Value::Matrix(out, *width);
                proof {
                    assert(r@->Mat_0 =~= self@->Mat_0);
                }
                r
            },
        }
    }

    /// Structural equality, as [`spec_val_eq`] states it.
    pub fn equal(&self, other: &Value) -> (r: bool)
        requires
            self.wf(),
            other.wf(),
        ensures
            r == spec_val_eq(self@, other@),
    {
        match (self, other) {
            (Value::Number(a), Value::Number(b)) => scalar_eq(*a, *b),
            (Value::Matrix(xs, xw), Value::Matrix(ys, yw)) => {
                if *xw != *yw || xs.len() != ys.len() {
                    return false;
                }
                let mut i: usize = 0;
                while i < xs.len()
                    invariant
                        i <= xs@.len(),
                        xs@.len() == ys@.len(),
                        forall|j: int| 0 <= j < xs@.len() ==> (#[trigger] xs@[j]) is Number,
                        forall|j: int| 0 <= j < ys@.len() ==> (#[trigger] ys@[j]) is Number,
                        self@ is Mat && self@->Mat_0.len() == xs@.len(),
                        other@ is Mat && other@->Mat_0.len() == ys@.len(),
                        forall|j: int|
                            0 <= j < xs@.len() ==> #[trigger] self@->Mat_0[j] == xs@[j]->Number_0,
                        forall|j: int|
                            0 <= j < ys@.len() ==> #[trigger] other@->Mat_0[j] == ys@[j]->Number_0,
                        forall|j: int|
                            0 <= j < i ==> sc_eq(
                                #[trigger] xs@[j]->Number_0,
                                ys@[j]->Number_0,
                            ),
                    decreases xs@.len() - i,
                {
                    if !scalar_eq(entry_bits(&xs[i]), entry_bits(&ys[i])) {
                        proof {
                            assert(!sc_eq(self@->Mat_0[i as int], other@->Mat_0[i as int]));
                        }
                        return false;
                    }
                    i += 1;
                }
                true
            },
            _ => false,
        }
    }

    /// Negates the value, elementwise on a matrix.  It never fails; the
    /// `Result` stands so that all six operations report alike.
    pub fn negate(&self) -> (r: Result<Value, Error>)
        requires
            self.wf(),
        ensures
            r is Ok,
            r->Ok_0.wf(),
            r->Ok_0@ == spec_negate(self@),
    {
        match self {
            Value::Number(a) => Ok(Value::Number(scalar_neg(*a))),
            Value::Matrix(data, width) => {
                let mut out: Vec<Value> = Vec::new();
                let mut i: usize = 0;
                while i < data.len()
                    invariant
                        i <= data@.len(),
                        out@.len() == i,
                        forall|j: int| 0 <= j < data@.len() ==> (#[trigger] data@[j]) is Number,
                        forall|j: int|
                            0 <= j < i ==> (#[trigger] out@[j]) is Number && out@[j]->Number_0
                                == f64_neg(data@[j]->Number_0),
                    decreases data@.len() - i,
                {
                    out.push(Value::Number(scalar_neg(entry_bits(&data[i]))));
                    i += 1;
                }
                let r = Value::Matrix(out, *width);
                proof {
                    assert(r@->Mat_0 =~= spec_negate(self@)->Mat_0);
                }
                Ok(r)
            },
        }
    }

    /// Adds two values as [`spec_add`] states it; on non-NaN scalars the sum
    /// is the same with the operands swapped.
    pub fn add(&self, other: &Value) -> (r: Result<Value, Error>)
        requires
            self.wf(),
            other.wf(),
        ensures
            result_view(r) == spec_add(self@, other@),
            r is Ok ==> r->Ok_0.wf(),
            self@ is Num && other@ is Num && !sc_is_nan(self@->Num_0) && !sc_is_nan(
                other@->Num_0,
            ) ==> result_view(r) == spec_add(other@, self@),
    {
        match (self, other) {
            (Value::Number(a), Value::Number(b)) => Ok(Value::Number(scalar_add(*a, *b))),
            (Value::Matrix(xs, xw), Value::Matrix(ys, yw)) => {
                let sa = self.size();
                let sb = other.size();
                if sa.0 == sb.0 && sa.1 == sb.1 {
                    proof {
                        lemma_wf_mat_len(self@);
                        lemma_wf_mat_len(other@);
                    }
                    let mut out: Vec<Value> = Vec::new();
                    let mut i: usize = 0;
                    while i < xs.len()
                        invariant
                            i <= xs@.len(),
                            xs@.len() == ys@.len(),
                            out@.len() == i,
                            forall|j: int| 0 <= j < xs@.len() ==> (#[trigger] xs@[j]) is Number,
                            forall|j: int| 0 <= j < ys@.len() ==> (#[trigger] ys@[j]) is Number,
                            forall|j: int|
                                0 <= j < i ==> (#[trigger] out@[j]) is Number && out@[j]->Number_0
                                    == f64_add(xs@[j]->Number_0, ys@[j]->Number_0),
                        decreases xs@.len() - i,
                    {
                        out.push(Value::Number(scalar_add(entry_bits(&xs[i]), entry_bits(&ys[i]))));
                        i += 1;
                    }
                    let r = Value::Matrix(out, *xw);
                    proof {
                        assert(r@->Mat_0 =~= spec_add(self@, other@)->Ok_0->Mat_0);
                    }
                    Ok(r)
                } else {
                    Err(Error::ArithmeticError)
                }
            },
            _ => Err(Error::ArithmeticError),
        }
    }

    /// Subtracts by adding the negation, as [`spec_sub`] states it.
    pub fn sub(&self, other: &Value) -> (r: Result<Value, Error>)
        requires
            self.wf(),
            other.wf(),
        ensures
            result_view(r) == spec_sub(self@, other@),
            r is Ok ==> r->Ok_0.wf(),
    {
        let n = match other.negate() {
            Ok(v) => v,
            Err(_) => vstd::pervasive::unreached(),
        };
        self.add(&n)
    }

    /// Multiplies two values as [`spec_mul`] states it; on non-NaN scalars
    /// the product is the same with the operands swapped.
    pub fn mul(&self, other: &Value) -> (r: Result<Value, Error>)
        requires
            self.wf(),
            other.wf(),
        ensures
            result_view(r) == spec_mul(self@, other@),
            r is Ok ==> r->Ok_0.wf(),
            self@ is Num && other@ is Num && !sc_is_nan(self@->Num_0) && !sc_is_nan(
                other@->Num_0,
            ) ==> result_view(r) == spec_mul(other@, self@),
    {
        match (self, other) {
            (Value::Number(a), Value::Number(b)) => Ok(Value::Number(scalar_mul(*a, *b))),
            (Value::Number(a), Value::Matrix(_, _)) => Ok(scale(*a, other)),
            (Value::Matrix(_, _), Value::Number(b)) => Ok(scale(*b, self)),
            (Value::Matrix(xs, xw), Value::Matrix(ys, yw)) => {
                let sa = self.size();
                let sb = other.size();
                let ha = sa.0;
                let ca = sa.1;
                let hb = sb.0;
                let cb = sb.1;
                if ca != hb {
                    return Err(Error::ArithmeticError);
                }
                if ca == 0 {
                    let empty: Vec<Value> = Vec::new();
                    let r = Value::Matrix(empty, 0);
                    proof {
                        assert(r@->Mat_0 =~= Seq::<u64>::empty());
                    }
                    return Ok(r);
                }
                let xlen: usize = xs.len();
                let ylen: usize = ys.len();
                let ghost axs = self@->Mat_0;
                let ghost bys = other@->Mat_0;
                proof {
                    lemma_wf_mat_len(self@);
                    lemma_wf_mat_len(other@);
                    assert(cb as int <= hb as int * cb as int) by (nonlinear_arith)
                        requires
                            hb >= 1,
                            cb >= 1,
                    ;
                }
                let mut out: Vec<Value> = Vec::new();
                let mut i: usize = 0;
                while i < ha
                    invariant
                        i <= ha,
                        ca >= 1,
                        cb >= 1,
                        hb == ca,
                        xlen == xs@.len() && ylen == ys@.len(),
                        xs@.len() == ha as int * ca as int,
                        ys@.len() == hb as int * cb as int,
                        out@.len() == i as int * cb as int,
                        forall|p: int| 0 <= p < xs@.len() ==> (#[trigger] xs@[p]) is Number,
                        forall|p: int| 0 <= p < ys@.len() ==> (#[trigger] ys@[p]) is Number,
                        axs.len() == xs@.len(),
                        bys.len() == ys@.len(),
                        forall|p: int| 0 <= p < xs@.len() ==> #[trigger] axs[p] == xs@[p]->Number_0,
                        forall|p: int| 0 <= p < ys@.len() ==> #[trigger] bys[p] == ys@[p]->Number_0,
                        forall|p: int|
                            0 <= p < out@.len() ==> (#[trigger] out@[p]) is Number
                                && out@[p]->Number_0 == spec_dot(
                                axs,
                                bys,
                                ca as nat,
                                cb as nat,
                                p / cb as int,
                                p % cb as int,
                                ca as nat,
                            ),
                    decreases ha - i,
                {
                    let mut j: usize = 0;
                    while j < cb
                        invariant
                            i < ha,
                            j <= cb,
                            ca >= 1,
                            cb >= 1,
                            hb == ca,
                            xlen == xs@.len() && ylen == ys@.len(),
                            xs@.len() == ha as int * ca as int,
                            ys@.len() == hb as int * cb as int,
                            out@.len() == i as int * cb as int + j as int,
                            forall|p: int| 0 <= p < xs@.len() ==> (#[trigger] xs@[p]) is Number,
                            forall|p: int| 0 <= p < ys@.len() ==> (#[trigger] ys@[p]) is Number,
                            axs.len() == xs@.len(),
                            bys.len() == ys@.len(),
                            forall|p: int|
                                0 <= p < xs@.len() ==> #[trigger] axs[p] == xs@[p]->Number_0,
                            forall|p: int|
                                0 <= p < ys@.len() ==> #[trigger] bys[p] == ys@[p]->Number_0,
                            forall|p: int|
                                0 <= p < out@.len() ==> (#[trigger] out@[p]) is Number
                                    && out@[p]->Number_0 == spec_dot(
                                    axs,
                                    bys,
                                    ca as nat,
                                    cb as nat,
                                    p / cb as int,
                                    p % cb as int,
                                    ca as nat,
                                ),
                        decreases cb - j,
                    {
                        proof {
                            assert(i as int * ca as int + (ca - 1) < ha as int * ca as int)
                                by (nonlinear_arith)
                                requires
                                    i < ha,
                                    ca >= 1,
                            ;
                            assert(j < hb as int * cb as int) by (nonlinear_arith)
                                requires
                                    j < cb,
                                    hb >= 1,
                            ;
                        }
                        let mut acc: u64 = scalar_mul(entry_bits(&xs[i * ca]), entry_bits(&ys[j]));
                        let mut k: usize = 1;
                        while k < ca
                            invariant
                                1 <= k <= ca,
                                i < ha,
                                j < cb,
                                ca >= 1,
                                cb >= 1,
                                hb == ca,
                                xlen == xs@.len() && ylen == ys@.len(),
                                xs@.len() == ha as int * ca as int,
                                ys@.len() == hb as int * cb as int,
                                forall|p: int| 0 <= p < xs@.len() ==> (#[trigger] xs@[p]) is Number,
                                forall|p: int| 0 <= p < ys@.len() ==> (#[trigger] ys@[p]) is Number,
                                axs.len() == xs@.len(),
                                bys.len() == ys@.len(),
                                forall|p: int|
                                    0 <= p < xs@.len() ==> #[trigger] axs[p] == xs@[p]->Number_0,
                                forall|p: int|
                                    0 <= p < ys@.len() ==> #[trigger] bys[p] == ys@[p]->Number_0,
                                acc == spec_dot(
                                    axs,
                                    bys,
                                    ca as nat,
                                    cb as nat,
                                    i as int,
                                    j as int,
                                    k as nat,
                                ),
                            decreases ca - k,
                        {
                            proof {
                                assert(i as int * ca as int + k < ha as int * ca as int)
                                    by (nonlinear_arith)
                                    requires
                                        i < ha,
                                        k < ca,
                                ;
                                assert(k as int * cb as int + j < hb as int * cb as int)
                                    by (nonlinear_arith)
                                    requires
                                        j < cb,
                                        k < hb,
                                        cb >= 1,
                                ;
                            }
                            let xi = i * ca + k;
                            let yi = k * cb + j;
                            acc = scalar_add(acc, scalar_mul(entry_bits(&xs[xi]), entry_bits(&ys[yi])));
                            k += 1;
                        }
                        proof {
                            lemma_fundamental_div_mod_converse(
                                i as int * cb as int + j as int,
                                cb as int,
                                i as int,
                                j as int,
                            );
                        }
                        out.push(Value::Number(acc));
                        j += 1;
                    }
                    proof {
                        assert((i as int + 1) * cb as int == i as int * cb as int + cb as int)
                            by (nonlinear_arith);
                    }
                    i += 1;
                }
                let r = Value::Matrix(out, cb);
                proof {
                    assert(out@.len() as int % cb as int == 0) by (nonlinear_arith)
                        requires
                            cb >= 1,
                            out@.len() == ha as int * cb as int,
                    ;
                    assert(r@->Mat_0 =~= spec_mul(self@, other@)->Ok_0->Mat_0);
                }
                Ok(r)
            },
        }
    }

    /// Divides a scalar by a non-zero scalar, as [`spec_div`] states it; a
    /// zero divisor, and any matrix operand, is an arithmetic error.
    pub fn div(&self, other: &Value) -> (r: Result<Value, Error>)
        requires
            self.wf(),
            other.wf(),
        ensures
            result_view(r) == spec_div(self@, other@),
            r is Ok ==> r->Ok_0.wf(),
            other@ matches Val::Num(y) && sc_is_zero(y) ==> r == Err::<Value, Error>(
                Error::ArithmeticError,
            ),
    {
        match (self, other) {
            (Value::Number(a), Value::Number(b)) => {
                if !crate::scalar::is_zero(*b) {
                    Ok(Value::Number(scalar_div(*a, *b)))
                } else {
                    Err(Error::ArithmeticError)
                }
            },
            _ => Err(Error::ArithmeticError),
        }
    }

    /// Raises a scalar to a scalar power, as [`spec_exp`] states it; any
    /// matrix operand is an arithmetic error.
    pub fn exp(&self, other: &Value) -> (r: Result<Value, Error>)
        requires
            self.wf(),
            other.wf(),
        ensures
            result_view(r) == spec_exp(self@, other@),
            r is Ok ==> r->Ok_0.wf(),
    {
        match (self, other) {
            (Value::Number(a), Value::Number(b)) => Ok(
                Value::Number(crate::scalar::pow_bits(*a, *b)),
            ),
            _ => Err(Error::ArithmeticError),
        }
    }
}

/// The scalar bits of a sequence of scalar values.
pub open spec fn vec_bits(d: Seq<Value>) -> Seq<u64> {
    Seq::new(d.len(), |i: int| d[i]->Number_0)
}

/// The row separator: `"; "`, or `";\n "` in the pretty mode.
pub open spec fn spec_row_sep(pretty: bool) -> Seq<char> {
    if pretty {
        ";\n "@
    } else {
        "; "@
    }
}

/// Row `i`'s rendered entries from column `j` on: comma-separated scalar
/// texts.
pub open spec fn spec_cells_from(s: Seq<u64>, w: nat, i: int, j: int) -> Seq<char>
    decreases (w - j) as nat,
{
    if j < 0 || j >= w {
        Seq::empty()
    } else {
        ((if j > 0 {
            ", "@
        } else {
            Seq::<char>::empty()
        }) + f64_text(s[i * w as int + j])) + spec_cells_from(s, w, i, j + 1)
    }
}

/// The rendered rows from row `i` on, separated by [`spec_row_sep`].
pub open spec fn spec_rows_from(s: Seq<u64>, w: nat, h: nat, i: int, pretty: bool) -> Seq<char>
    decreases (h - i) as nat,
{
    if i < 0 || i >= h {
        Seq::empty()
    } else {
        ((if i > 0 {
            spec_row_sep(pretty)
        } else {
            Seq::<char>::empty()
        }) + spec_cells_from(s, w, i, 0)) + spec_rows_from(s, w, h, i + 1, pretty)
    }
}

/// The textual rendering: a scalar as its shortest round-trippable decimal
/// text, a matrix bracketed, rows separated by `"; "` (or `";\n "` in the
/// pretty mode) and entries within a row comma-separated.
pub open spec fn spec_render(v: Val, pretty: bool) -> Seq<char> {
    match v {
        Val::Num(b) => f64_text(b),
        Val::Mat(s, w) => ("["@ + spec_rows_from(s, w, v.size().0, 0, pretty)) + "]"@,
    }
}

/// Renders row `i`'s entries from column `j` on, as [`spec_cells_from`]
/// states it.
fn render_cells(data: &Vec<Value>, w: usize, h: usize, i: usize, j: usize) -> (r: String)
    requires
        forall|p: int| 0 <= p < data@.len() ==> (#[trigger] data@[p]) is Number,
        data@.len() == h as int * w as int,
        i < h,
        j <= w,
    ensures
        r@ == spec_cells_from(vec_bits(data@), w as nat, i as int, j as int),
    decreases w - j,
{
    if j >= w {
        String::new()
    } else {
        let dlen = data.len();
        proof {
            assert(i as int * w as int + j < h as int * w as int) by (nonlinear_arith)
                requires
                    i < h,
                    j < w,
            ;
        }
        let t = crate::scalar::scalar_text(entry_bits(&data[i * w + j]));
        let rest = render_cells(data, w, h, i, j + 1);
        let cell = if j > 0 {
            String::from_str(", ").concat(t.as_str())
        } else {
            t
        };
        cell.concat(rest.as_str())
    }
}

/// Renders the rows from row `i` on, as [`spec_rows_from`] states it.
fn render_rows(data: &Vec<Value>, w: usize, h: usize, i: usize, pretty: bool) -> (r: String)
    requires
        forall|p: int| 0 <= p < data@.len() ==> (#[trigger] data@[p]) is Number,
        data@.len() == h as int * w as int,
        i <= h,
    ensures
        r@ == spec_rows_from(vec_bits(data@), w as nat, h as nat, i as int, pretty),
    decreases h - i,
{
    if i >= h {
        String::new()
    } else {
        let cells = render_cells(data, w, h, i, 0);
        let rest = render_rows(data, w, h, i + 1, pretty);
        let row = if i > 0 {
            if pretty {
                String::from_str(";\n ").concat(cells.as_str())
            } else {
                String::from_str("; ").concat(cells.as_str())
            }
        } else {
            cells
        };
        row.concat(rest.as_str())
    }
}

impl Value {
    /// Renders the value as text, as [`spec_render`] states it: the pretty
    /// mode breaks matrix rows across lines.
    pub fn render(&self, pretty: bool) -> (r: String)
        requires
            self.wf(),
        ensures
            r@ == spec_render(self@, pretty),
    {
        match self {
            Value::Number(b) => crate::scalar::scalar_text(*b),
            Value::Matrix(data, width) => {
                let size = self.size();
                proof {
                    lemma_wf_mat_len(self@);
                    assert(vec_bits(data@) =~= self@->Mat_0);
                }
                let rows = render_rows(data, size.1, size.0, 0, pretty);
                String::from_str("[").concat(rows.as_str()).concat("]")
            },
        }
    }
}

/// Scales a matrix elementwise by a scalar, the scalar on the left, as
/// [`spec_scale`] states it.
fn scale(x: u64, m: &Value) -> (r: Value)
    requires
        m.wf(),
        m@ is Mat,
    ensures
        r.wf(),
        r@ == spec_scale(x, m@->Mat_0, m@->Mat_1),
{
    match m {
        Value::Matrix(data, width) => {
            let mut out: Vec<Value> = Vec::new();
            let mut i: usize = 0;
            while i < data.len()
                invariant
                    i <= data@.len(),
                    out@.len() == i,
                    forall|j: int| 0 <= j < data@.len() ==> (#[trigger] data@[j]) is Number,
                    forall|j: int|
                        0 <= j < i ==> (#[trigger] out@[j]) is Number && out@[j]->Number_0
                            == f64_mul(x, data@[j]->Number_0),
                decreases data@.len() - i,
            {
                out.push(Value::Number(scalar_mul(x, entry_bits(&data[i]))));
                i += 1;
            }
            let r = Value::Matrix(out, *width);
            proof {
                assert(r@->Mat_0 =~= spec_scale(x, m@->Mat_0, m@->Mat_1)->Mat_0);
            }
            r
        },
        Value::Number(_) => vstd::pervasive::unreached(),
    }
}

} // verus!

