//! The evaluator: a table of named bindings, a memo of resolved identifiers,
//! and the recursive resolution of a tree to a value.
//!
//! Resolution is specified by [`spec_resolve`], a function of the binding
//! table and the tree alone: the memo never changes a result, only its cost.
//! The function carries a depth budget that only identifier indirections
//! spend; [`lemma_resolve_mono`] shows that a budget large enough to settle
//! the answer settles it once and for all, so the budget is a bound, not a
//! parameter of the semantics.  The executable evaluator runs with the fixed
//! budget [`BINDING_DEPTH`] and answers exactly as the specification does
//! wherever that budget suffices; a chain of bindings deeper than that,
//! which unbounded evaluation would chase without end, is refused as a
//! resolve error.

use vstd::arithmetic::div_mod::lemma_fundamental_div_mod_converse;
use vstd::hash_map::StringHashMap;
use vstd::prelude::*;
use vstd::string::StringExecFns;

use crate::scalar::f64_parse;
use crate::syntax::{Rule, Tree};
use crate::types::{
    result_view, spec_add, spec_div, spec_exp, spec_mul, spec_negate, spec_sub, Error, Val, Value,
};

verus! {

/// How many identifier indirections one resolution may follow.
pub const BINDING_DEPTH: u64 = 4096;

/// Resolves a tree against a binding table, spending one unit of `fuel` per
/// identifier indirection.  `None` means the fuel ran out; every other
/// outcome is the resolution's own answer and, by [`lemma_resolve_mono`],
/// final.
pub open spec fn spec_resolve(vars: Map<Seq<char>, Tree>, t: Tree, fuel: nat) -> Option<
    Result<Val, Error>,
>
    decreases fuel, t, 0nat,
    via spec_resolve_dec
{
    match t.rule {
        Rule::sum_expr => if t.children@.len() == 0 {
            Some(Err(Error::ResolveError))
        } else {
            match spec_resolve(vars, t.children@[0], fuel) {
                None => None,
                Some(Err(e)) => Some(Err(e)),
                Some(Ok(acc)) => spec_fold_sum(vars, t.children@, 1, acc, fuel),
            }
        },
        Rule::prod_expr => if t.children@.len() == 0 {
            Some(Err(Error::ResolveError))
        } else {
            match spec_resolve(vars, t.children@[0], fuel) {
                None => None,
                Some(Err(e)) => Some(Err(e)),
                Some(Ok(acc)) => spec_fold_prod(vars, t.children@, 1, acc, fuel),
            }
        },
        Rule::exp_expr => if t.children@.len() < 3 {
            Some(Err(Error::ResolveError))
        } else {
            match spec_resolve(vars, t.children@[0], fuel) {
                None => None,
                Some(Err(e)) => Some(Err(e)),
                Some(Ok(base)) => match spec_resolve(vars, t.children@[2], fuel) {
                    None => None,
                    Some(Err(e)) => Some(Err(e)),
                    Some(Ok(power)) => Some(spec_exp(base, power)),
                },
            }
        },
        Rule::negate_expr => if t.children@.len() == 0 {
            Some(Err(Error::ResolveError))
        } else {
            match spec_resolve(vars, t.children@[0], fuel) {
                None => None,
                Some(Err(e)) => Some(Err(e)),
                Some(Ok(v)) => Some(Ok(spec_negate(v))),
            }
        },
        Rule::identifier => if vars.contains_key(t.text@) {
            if fuel == 0 {
                None
            } else {
                spec_resolve(vars, vars[t.text@], (fuel - 1) as nat)
            }
        } else {
            Some(Err(Error::ResolveError))
        },
        Rule::number_lit => match f64_parse(t.text@) {
            Some(bits) => Some(Ok(Val::Num(bits))),
            None => Some(Err(Error::ResolveError)),
        },
        Rule::matrix_lit => {
            let rows = t.children@;
            if rows.len() == 0 {
                Some(Ok(Val::Mat(Seq::empty(), 0)))
            } else {
                let width = rows[0].children@.len();
                if exists|i: int|
                    0 <= i < rows.len() && !((#[trigger] rows[i]).rule == Rule::matrix_row_lit
                        && rows[i].children@.len() == width) {
                    Some(Err(Error::DefinitionError))
                } else {
                    match spec_entries(vars, rows, width, 0, fuel) {
                        None => None,
                        Some(Err(e)) => Some(Err(e)),
                        Some(Ok(bits)) => Some(Ok(Val::Mat(bits, width))),
                    }
                }
            }
        },
        _ => Some(Err(Error::ResolveError)),
    }
}

/// The left fold of a sum node's tail: `cs[i]` is an operator token (`+` or
/// `-`; anything else is a resolve error) and `cs[i + 1]` the next operand.
pub open spec fn spec_fold_sum(
    vars: Map<Seq<char>, Tree>,
    cs: Seq<Tree>,
    i: int,
    acc: Val,
    fuel: nat,
) -> Option<Result<Val, Error>>
    decreases fuel, cs, (cs.len() - i) as nat,
{
    if i + 1 >= cs.len() || i < 0 {
        Some(Ok(acc))
    } else {
        match spec_resolve(vars, cs[i + 1], fuel) {
            None => None,
            Some(Err(e)) => Some(Err(e)),
            Some(Ok(v)) => {
                let op = cs[i].text@;
                let step = if op == "+"@ {
                    spec_add(acc, v)
                } else if op == "-"@ {
                    spec_sub(acc, v)
                } else {
                    Err(Error::ResolveError)
                };
                match step {
                    Ok(w) => spec_fold_sum(vars, cs, i + 2, w, fuel),
                    Err(e) => Some(Err(e)),
                }
            },
        }
    }
}

/// The left fold of a product node's tail: operator tokens are skipped, and
/// each operand at `i` is divided into or multiplied onto the running value
/// as the text just before it says — `/` divides, anything else (an explicit
/// `*`, or an operand standing directly beside the last, which is implicit
/// multiplication) multiplies.
pub open spec fn spec_fold_prod(
    vars: Map<Seq<char>, Tree>,
    cs: Seq<Tree>,
    i: int,
    acc: Val,
    fuel: nat,
) -> Option<Result<Val, Error>>
    decreases fuel, cs, (cs.len() - i) as nat,
{
    if i >= cs.len() || i < 1 {
        Some(Ok(acc))
    } else if cs[i].rule == Rule::operator {
        spec_fold_prod(vars, cs, i + 1, acc, fuel)
    } else {
        match spec_resolve(vars, cs[i], fuel) {
            None => None,
            Some(Err(e)) => Some(Err(e)),
            Some(Ok(v)) => {
                let step = if cs[i - 1].text@ == "/"@ {
                    spec_div(acc, v)
                } else {
                    spec_mul(acc, v)
                };
                match step {
                    Ok(w) => spec_fold_prod(vars, cs, i + 1, w, fuel),
                    Err(e) => Some(Err(e)),
                }
            },
        }
    }
}

/// The entries of a matrix literal's rows, resolved row-major from flat
/// position `idx` on, each one owing a scalar: a matrix entry inside a matrix
/// is a definition error.
pub open spec fn spec_entries(
    vars: Map<Seq<char>, Tree>,
    rows: Seq<Tree>,
    width: nat,
    idx: int,
    fuel: nat,
) -> Option<Result<Seq<u64>, Error>>
    decreases fuel, rows, (rows.len() * width - idx) as nat,
    via spec_entries_dec
{
    if width == 0 || idx < 0 || idx >= rows.len() * width {
        Some(Ok(Seq::empty()))
    } else if rows[idx / width as int].children@.len() <= idx % width as int {
        Some(Err(Error::DefinitionError))
    } else {
        match spec_resolve(vars, rows[idx / width as int].children@[idx % width as int], fuel) {
            None => None,
            Some(Err(e)) => Some(Err(e)),
            Some(Ok(Val::Num(bits))) => match spec_entries(vars, rows, width, idx + 1, fuel) {
                None => None,
                Some(Err(e)) => Some(Err(e)),
                Some(Ok(rest)) => Some(Ok(seq![bits] + rest)),
            },
            Some(Ok(_)) => Some(Err(Error::DefinitionError)),
        }
    }
}

/// A child stands below its parent in the well-founded order that the
/// recursion descends.
pub proof fn lemma_child_decreases(t: Tree, i: int)
    requires
        0 <= i < t.children@.len(),
    ensures
        decreases_to!(t => t.children@[i]),
{
    assert(decreases_to!(t => t.children));
    assert(decreases_to!(t.children => t.children@));
    assert(decreases_to!(t.children@ => t.children@[i]));
}

/// A row-major entry position picks a row inside the rows and a column
/// inside that row's children.
proof fn lemma_entry_position(rows: Seq<Tree>, width: nat, idx: int)
    requires
        width >= 1,
        0 <= idx < rows.len() * width,
    ensures
        0 <= idx / (width as int) < rows.len(),
        0 <= idx % (width as int) < width,
{
    let w = width as int;
    vstd::arithmetic::div_mod::lemma_fundamental_div_mod(idx, w);
    vstd::arithmetic::div_mod::lemma_mod_bound(idx, w);
    assert(idx / w < rows.len()) by (nonlinear_arith)
        requires
            w * (idx / w) + idx % w == idx,
            0 <= idx % w < w,
            idx < rows.len() * w,
            w >= 1,
    ;
    assert(idx / w >= 0) by (nonlinear_arith)
        requires
            w * (idx / w) + idx % w == idx,
            0 <= idx % w < w,
            idx >= 0,
            w >= 1,
    ;
}

#[via_fn]
proof fn spec_resolve_dec(vars: Map<Seq<char>, Tree>, t: Tree, fuel: nat) {
    if t.children@.len() > 0 {
        lemma_child_decreases(t, 0);
    }
    if t.children@.len() >= 3 {
        lemma_child_decreases(t, 2);
    }
    assert(decreases_to!(t => t.children));
    assert(decreases_to!(t.children => t.children@));
}

#[via_fn]
proof fn spec_entries_dec(
    vars: Map<Seq<char>, Tree>,
    rows: Seq<Tree>,
    width: nat,
    idx: int,
    fuel: nat,
) {
    if width >= 1 && 0 <= idx < rows.len() * width {
        lemma_entry_position(rows, width, idx);
        let q = idx / width as int;
        let m = idx % width as int;
        if m < rows[q].children@.len() {
            assert(decreases_to!(rows => rows[q]));
            lemma_child_decreases(rows[q], m);
        }
    }
}

/// More fuel never changes an answer, it only turns `None` into the answer:
/// a resolution that settles within some budget is the resolution.
pub proof fn lemma_resolve_mono(vars: Map<Seq<char>, Tree>, t: Tree, f1: nat, f2: nat)
    requires
        f1 <= f2,
        spec_resolve(vars, t, f1) is Some,
    ensures
        spec_resolve(vars, t, f2) == spec_resolve(vars, t, f1),
    decreases f1, t, 0nat,
{
    match t.rule {
        Rule::sum_expr => {
            if t.children@.len() > 0 {
                lemma_child_decreases(t, 0);
                assert(decreases_to!(t => t.children));
                assert(decreases_to!(t.children => t.children@));
                lemma_resolve_mono(vars, t.children@[0], f1, f2);
                if let Some(Ok(acc)) = spec_resolve(vars, t.children@[0], f1) {
                    lemma_fold_sum_mono(vars, t.children@, 1, acc, f1, f2);
                }
            }
        },
        Rule::prod_expr => {
            if t.children@.len() > 0 {
                lemma_child_decreases(t, 0);
                assert(decreases_to!(t => t.children));
                assert(decreases_to!(t.children => t.children@));
                lemma_resolve_mono(vars, t.children@[0], f1, f2);
                if let Some(Ok(acc)) = spec_resolve(vars, t.children@[0], f1) {
                    lemma_fold_prod_mono(vars, t.children@, 1, acc, f1, f2);
                }
            }
        },
        Rule::exp_expr => {
            if t.children@.len() >= 3 {
                lemma_child_decreases(t, 0);
                lemma_child_decreases(t, 2);
                lemma_resolve_mono(vars, t.children@[0], f1, f2);
                if let Some(Ok(_)) = spec_resolve(vars, t.children@[0], f1) {
                    lemma_resolve_mono(vars, t.children@[2], f1, f2);
                }
            }
        },
        Rule::negate_expr => {
            if t.children@.len() > 0 {
                lemma_child_decreases(t, 0);
                lemma_resolve_mono(vars, t.children@[0], f1, f2);
            }
        },
        Rule::identifier => {
            if vars.contains_key(t.text@) && f1 > 0 {
                lemma_resolve_mono(vars, vars[t.text@], (f1 - 1) as nat, (f2 - 1) as nat);
            }
        },
        Rule::matrix_lit => {
            let rows = t.children@;
            if rows.len() > 0 {
                assert(decreases_to!(t => t.children));
                assert(decreases_to!(t.children => t.children@));
                let width = rows[0].children@.len();
                if !exists|i: int|
                    0 <= i < rows.len() && !((#[trigger] rows[i]).rule == Rule::matrix_row_lit
                        && rows[i].children@.len() == width) {
                    lemma_entries_mono(vars, rows, width, 0, f1, f2);
                }
            }
        },
        _ => {},
    }
}

proof fn lemma_fold_sum_mono(
    vars: Map<Seq<char>, Tree>,
    cs: Seq<Tree>,
    i: int,
    acc: Val,
    f1: nat,
    f2: nat,
)
    requires
        f1 <= f2,
        spec_fold_sum(vars, cs, i, acc, f1) is Some,
    ensures
        spec_fold_sum(vars, cs, i, acc, f2) == spec_fold_sum(vars, cs, i, acc, f1),
    decreases f1, cs, (cs.len() - i) as nat,
{
    if i + 1 >= cs.len() || i < 0 {
    } else {
        assert(decreases_to!(cs => cs[i + 1]));
        lemma_resolve_mono(vars, cs[i + 1], f1, f2);
        if let Some(Ok(v)) = spec_resolve(vars, cs[i + 1], f1) {
            let op = cs[i].text@;
            let step = if op == "+"@ {
                spec_add(acc, v)
            } else if op == "-"@ {
                spec_sub(acc, v)
            } else {
                Err(Error::ResolveError)
            };
            if let Ok(w) = step {
                lemma_fold_sum_mono(vars, cs, i + 2, w, f1, f2);
            }
        }
    }
}

proof fn lemma_fold_prod_mono(
    vars: Map<Seq<char>, Tree>,
    cs: Seq<Tree>,
    i: int,
    acc: Val,
    f1: nat,
    f2: nat,
)
    requires
        f1 <= f2,
        spec_fold_prod(vars, cs, i, acc, f1) is Some,
    ensures
        spec_fold_prod(vars, cs, i, acc, f2) == spec_fold_prod(vars, cs, i, acc, f1),
    decreases f1, cs, (cs.len() - i) as nat,
{
    if i >= cs.len() || i < 1 {
    } else if cs[i].rule == Rule::operator {
        lemma_fold_prod_mono(vars, cs, i + 1, acc, f1, f2);
    } else {
        assert(decreases_to!(cs => cs[i]));
        lemma_resolve_mono(vars, cs[i], f1, f2);
        if let Some(Ok(v)) = spec_resolve(vars, cs[i], f1) {
            let step = if cs[i - 1].text@ == "/"@ {
                spec_div(acc, v)
            } else {
                spec_mul(acc, v)
            };
            if let Ok(w) = step {
                lemma_fold_prod_mono(vars, cs, i + 1, w, f1, f2);
            }
        }
    }
}

proof fn lemma_entries_mono(
    vars: Map<Seq<char>, Tree>,
    rows: Seq<Tree>,
    width: nat,
    idx: int,
    f1: nat,
    f2: nat,
)
    requires
        f1 <= f2,
        spec_entries(vars, rows, width, idx, f1) is Some,
    ensures
        spec_entries(vars, rows, width, idx, f2) == spec_entries(vars, rows, width, idx, f1),
    decreases f1, rows, (rows.len() * width - idx) as nat,
{
    if width == 0 || idx < 0 || idx >= rows.len() * width {
    } else {
        lemma_entry_position(rows, width, idx);
        let q = idx / width as int;
        let m = idx % width as int;
        if m < rows[q].children@.len() {
            let entry = rows[q].children@[m];
            assert(decreases_to!(rows => rows[q]));
            lemma_child_decreases(rows[q], m);
            lemma_resolve_mono(vars, entry, f1, f2);
            if let Some(Ok(Val::Num(_))) = spec_resolve(vars, entry, f1) {
                lemma_entries_mono(vars, rows, width, idx + 1, f1, f2);
            }
        }
    }
}

/// Resolution is deterministic: two budgets that both settle the answer
/// settle it alike, so a value once resolved — a memoized value, in
/// particular — is the only value the tree can ever resolve to.
pub proof fn lemma_resolve_unique(vars: Map<Seq<char>, Tree>, t: Tree, fa: nat, fb: nat)
    requires
        spec_resolve(vars, t, fa) is Some,
        spec_resolve(vars, t, fb) is Some,
    ensures
        spec_resolve(vars, t, fa) == spec_resolve(vars, t, fb),
{
    if fa <= fb {
        lemma_resolve_mono(vars, t, fa, fb);
    } else {
        lemma_resolve_mono(vars, t, fb, fa);
    }
}

/// Every bound tree has the shape a conforming front end produces.
pub open spec fn vars_conforming(vars: Map<Seq<char>, Tree>) -> bool {
    forall|n: Seq<char>| #[trigger] vars.contains_key(n) ==> vars[n].conforming()
}

/// The memo never misleads: every cached value is well formed, belongs to a
/// name that is still bound, and is exactly what resolving that name's tree
/// settles to.
pub open spec fn cache_inv(vars: Map<Seq<char>, Tree>, cache: Map<Seq<char>, Value>) -> bool {
    forall|n: Seq<char>| #[trigger] cache.contains_key(n) ==> {
        &&& vars.contains_key(n)
        &&& cache[n].wf()
        &&& exists|f: nat| spec_resolve(vars, vars[n], f) == Some(Ok::<Val, Error>(cache[n]@))
    }
}

/// The evaluator's state: the binding table, and a memo of the values that
/// bound identifiers last resolved to.  Any change to the bindings clears the
/// whole memo, so a memoized value is never returned stale.
pub struct State {
    vars: StringHashMap<Tree>,
    cache: StringHashMap<Value>,
}

impl State {
    /// The binding table, as a map from name to bound tree.
    pub closed spec fn vars_view(&self) -> Map<Seq<char>, Tree> {
        self.vars@
    }

    /// The state's invariant: conforming bindings and a truthful memo.
    pub closed spec fn inv(&self) -> bool {
        vars_conforming(self.vars@) && cache_inv(self.vars@, self.cache@)
    }

    /// Creates an evaluator with no bindings and an empty memo.
    pub fn new() -> (r: State)
        ensures
            r.inv(),
            r.vars_view() == Map::<Seq<char>, Tree>::empty(),
    {
        State { vars: StringHashMap::new(), cache: StringHashMap::new() }
    }

    /// Stores or replaces the binding for `varname` and invalidates the whole
    /// memo: after any binding change, nothing stale can ever be returned.
    pub fn set_var(&mut self, varname: String, expr: Tree)
        requires
            old(self).inv(),
            expr.conforming(),
        ensures
            final(self).inv(),
            final(self).vars_view() == old(self).vars_view().insert(varname@, expr),
    {
        self.cache.clear();
        self.vars.insert(varname, expr);
    }

    /// Records a resolved value for a bound name.  The memo is trusted by
    /// [`State::resolve_expression`], so the value must be exactly what
    /// resolving the name's binding settles to.
    pub fn cache_var(&mut self, varname: String, value: Value)
        requires
            old(self).inv(),
            value.wf(),
            old(self).vars_view().contains_key(varname@),
            exists|f: nat|
                spec_resolve(old(self).vars_view(), old(self).vars_view()[varname@], f) == Some(
                    Ok::<Val, Error>(value@),
                ),
        ensures
            final(self).inv(),
            final(self).vars_view() == old(self).vars_view(),
    {
        self.cache.insert(varname, value);
    }

    /// Resolves a tree to a value against the current bindings.  The answer
    /// is a function of the bindings and the tree alone — the memo can only
    /// make it cheaper — and is exactly what [`spec_resolve`] gives wherever
    /// the depth budget [`BINDING_DEPTH`] settles it; whatever succeeds is
    /// the one value the tree resolves to at all.  Failures are fail-fast:
    /// the first failing sub-resolution is returned unchanged.
    pub fn resolve_expression(&mut self, expr: &Tree) -> (r: Result<Value, Error>)
        requires
            old(self).inv(),
            expr.conforming(),
        ensures
            final(self).inv(),
            final(self).vars_view() == old(self).vars_view(),
            spec_resolve(old(self).vars_view(), *expr, BINDING_DEPTH as nat) matches Some(res)
                ==> result_view(r) == res,
            r is Ok ==> r->Ok_0.wf() && exists|f: nat|
                spec_resolve(old(self).vars_view(), *expr, f) == Some(
                    Ok::<Val, Error>(r->Ok_0@),
                ),
    {
        resolve_inner(&self.vars, &mut self.cache, expr, BINDING_DEPTH)
    }
}

/// One resolution step with an explicit depth budget.  Answers exactly as
/// [`spec_resolve`] wherever the budget settles the question; an `Ok` is
/// always the settled answer, whatever budget it took.
fn resolve_inner(
    vars: &StringHashMap<Tree>,
    cache: &mut StringHashMap<Value>,
    expr: &Tree,
    fuel: u64,
) -> (r: Result<Value, Error>)
    requires
        expr.conforming(),
        vars_conforming(vars@),
        cache_inv(vars@, old(cache)@),
    ensures
        cache_inv(vars@, final(cache)@),
        spec_resolve(vars@, *expr, fuel as nat) matches Some(res) ==> result_view(r) == res,
        r is Ok ==> r->Ok_0.wf() && exists|f: nat|
            spec_resolve(vars@, *expr, f) == Some(Ok::<Val, Error>(r->Ok_0@)),
    decreases fuel, *expr, 1nat,
{
    match expr.rule {
        Rule::number_lit => match crate::scalar::scalar_parse(expr.text.as_str()) {
            Some(bits) => {
                proof {
                    assert(spec_resolve(vars@, *expr, 0) == Some(
                        Ok::<Val, Error>(Val::Num(bits)),
                    ));
                }
                Ok(Value::Number(bits))
            },
            None => Err(Error::ResolveError),
        },
        Rule::negate_expr => {
            proof {
                lemma_child_decreases(*expr, 0);
            }
            let v = match resolve_inner(vars, cache, &expr.children[0], fuel) {
                Ok(v) => v,
                Err(e) => {
                    return Err(e);
                },
            };
            let ghost fv = choose|f: nat|
                (#[trigger] spec_resolve(vars@, expr.children@[0], f)) == Some(
                    Ok::<Val, Error>(v@),
                );
            let n = match v.negate() {
                Ok(n) => n,
                Err(_) => vstd::pervasive::unreached(),
            };
            proof {
                assert(spec_resolve(vars@, *expr, fv) == Some(Ok::<Val, Error>(n@)));
            }
            Ok(n)
        },
        Rule::exp_expr => {
            proof {
                lemma_child_decreases(*expr, 0);
                lemma_child_decreases(*expr, 2);
            }
            let base = match resolve_inner(vars, cache, &expr.children[0], fuel) {
                Ok(v) => v,
                Err(e) => {
                    return Err(e);
                },
            };
            let ghost fb = choose|f: nat|
                (#[trigger] spec_resolve(vars@, expr.children@[0], f)) == Some(
                    Ok::<Val, Error>(base@),
                );
            let power = match resolve_inner(vars, cache, &expr.children[2], fuel) {
                Ok(v) => v,
                Err(e) => {
                    return Err(e);
                },
            };
            let ghost fp = choose|f: nat|
                (#[trigger] spec_resolve(vars@, expr.children@[2], f)) == Some(
                    Ok::<Val, Error>(power@),
                );
            let r = base.exp(&power);
            proof {
                let fm: nat = if fb >= fp {
                    fb
                } else {
                    fp
                };
                lemma_resolve_mono(vars@, expr.children@[0], fb, fm);
                lemma_resolve_mono(vars@, expr.children@[2], fp, fm);
                assert(spec_resolve(vars@, *expr, fm) == Some(spec_exp(base@, power@)));
            }
            r
        },
        Rule::identifier => {
            if let Some(v) = cache.get(expr.text.as_str()) {
                let dup = v.duplicate();
                proof {
                    let fc = choose|f: nat|
                        (#[trigger] spec_resolve(vars@, vars@[expr.text@], f)) == Some(
                            Ok::<Val, Error>(dup@),
                        );
                    assert(spec_resolve(vars@, *expr, fc + 1) == Some(Ok::<Val, Error>(dup@)));
                    if spec_resolve(vars@, *expr, fuel as nat) is Some {
                        lemma_resolve_unique(vars@, *expr, fc + 1, fuel as nat);
                    }
                }
                return Ok(dup);
            }
            if fuel == 0 {
                return Err(Error::ResolveError);
            }
            let bound = match vars.get(expr.text.as_str()) {
                Some(t) => t,
                None => {
                    return Err(Error::ResolveError);
                },
            };
            let result = resolve_inner(vars, cache, bound, fuel - 1);
            match result {
                Ok(v) => {
                    let ghost fv = choose|f: nat|
                        (#[trigger] spec_resolve(vars@, *bound, f)) == Some(Ok::<Val, Error>(v@));
                    let dup = v.duplicate();
                    cache.insert(expr.text.clone(), dup);
                    proof {
                        assert(spec_resolve(vars@, *expr, fv + 1) == Some(Ok::<Val, Error>(v@)));
                    }
                    Ok(v)
                },
                Err(e) => Err(e),
            }
        },
        Rule::sum_expr => {
            let cs = &expr.children;
            proof {
                lemma_child_decreases(*expr, 0);
            }
            let mut acc = match resolve_inner(vars, cache, &cs[0], fuel) {
                Ok(v) => v,
                Err(e) => {
                    return Err(e);
                },
            };
            let ghost mut fwit: nat = choose|f: nat|
                (#[trigger] spec_resolve(vars@, cs@[0], f)) == Some(Ok::<Val, Error>(acc@));
            proof {
                assert forall|ff: nat| ff >= fwit implies spec_resolve(vars@, *expr, ff)
                    == spec_fold_sum(vars@, cs@, 1, acc@, ff) by {
                    lemma_resolve_mono(vars@, cs@[0], fwit, ff);
                }
            }
            let mut i: usize = 1;
            while i < cs.len()
                invariant
                    1 <= i && i % 2 == 1,
                    cs@.len() % 2 == 1,
                    expr.conforming(),
                    vars_conforming(vars@),
                    cache_inv(vars@, cache@),
                    cs@ == expr.children@,
                    acc.wf(),
                    spec_resolve(vars@, *expr, fuel as nat) matches Some(res) ==> spec_fold_sum(
                        vars@,
                        cs@,
                        i as int,
                        acc@,
                        fuel as nat,
                    ) == Some(res),
                    forall|ff: nat|
                        ff >= fwit ==> spec_resolve(vars@, *expr, ff) == spec_fold_sum(
                            vars@,
                            cs@,
                            i as int,
                            acc@,
                            ff,
                        ),
                decreases cs@.len() - i,
            {
                proof {
                    lemma_child_decreases(*expr, i as int + 1);
                }
                let operand = match resolve_inner(vars, cache, &cs[i + 1], fuel) {
                    Ok(v) => v,
                    Err(e) => {
                        return Err(e);
                    },
                };
                let ghost fop = choose|f: nat|
                    (#[trigger] spec_resolve(vars@, cs@[i as int + 1], f)) == Some(
                        Ok::<Val, Error>(operand@),
                    );
                let step = if cs[i].text == String::from_str("+") {
                    acc.add(&operand)
                } else if cs[i].text == String::from_str("-") {
                    acc.sub(&operand)
                } else {
                    return Err(Error::ResolveError);
                };
                let next = match step {
                    Ok(w) => w,
                    Err(e) => {
                        return Err(e);
                    },
                };
                proof {
                    let ghost oldf = fwit;
                    fwit = if fwit >= fop {
                        fwit
                    } else {
                        fop
                    };
                    assert forall|ff: nat| ff >= fwit implies spec_resolve(vars@, *expr, ff)
                        == spec_fold_sum(vars@, cs@, i as int + 2, next@, ff) by {
                        lemma_resolve_mono(vars@, cs@[i as int + 1], fop, ff);
                    }
                }
                acc = next;
                i += 2;
            }
            proof {
                assert(spec_resolve(vars@, *expr, fwit) == Some(Ok::<Val, Error>(acc@)));
            }
            Ok(acc)
        },
        Rule::prod_expr => {
            let cs = &expr.children;
            proof {
                lemma_child_decreases(*expr, 0);
            }
            let mut acc = match resolve_inner(vars, cache, &cs[0], fuel) {
                Ok(v) => v,
                Err(e) => {
                    return Err(e);
                },
            };
            let ghost mut fwit: nat = choose|f: nat|
                (#[trigger] spec_resolve(vars@, cs@[0], f)) == Some(Ok::<Val, Error>(acc@));
            proof {
                assert forall|ff: nat| ff >= fwit implies spec_resolve(vars@, *expr, ff)
                    == spec_fold_prod(vars@, cs@, 1, acc@, ff) by {
                    lemma_resolve_mono(vars@, cs@[0], fwit, ff);
                }
            }
            let mut i: usize = 1;
            while i < cs.len()
                invariant
                    1 <= i,
                    expr.conforming(),
                    vars_conforming(vars@),
                    cache_inv(vars@, cache@),
                    cs@ == expr.children@,
                    acc.wf(),
                    spec_resolve(vars@, *expr, fuel as nat) matches Some(res) ==> spec_fold_prod(
                        vars@,
                        cs@,
                        i as int,
                        acc@,
                        fuel as nat,
                    ) == Some(res),
                    forall|ff: nat|
                        ff >= fwit ==> spec_resolve(vars@, *expr, ff) == spec_fold_prod(
                            vars@,
                            cs@,
                            i as int,
                            acc@,
                            ff,
                        ),
                decreases cs@.len() - i,
            {
                if is_operator(&cs[i]) {
                    i += 1;
                    continue ;
                }
                proof {
                    lemma_child_decreases(*expr, i as int);
                }
                let operand = match resolve_inner(vars, cache, &cs[i], fuel) {
                    Ok(v) => v,
                    Err(e) => {
                        return Err(e);
                    },
                };
                let ghost fop = choose|f: nat|
                    (#[trigger] spec_resolve(vars@, cs@[i as int], f)) == Some(
                        Ok::<Val, Error>(operand@),
                    );
                let step = if cs[i - 1].text == String::from_str("/") {
                    acc.div(&operand)
                } else {
                    acc.mul(&operand)
                };
                let next = match step {
                    Ok(w) => w,
                    Err(e) => {
                        return Err(e);
                    },
                };
                proof {
                    fwit = if fwit >= fop {
                        fwit
                    } else {
                        fop
                    };
                    assert forall|ff: nat| ff >= fwit implies spec_resolve(vars@, *expr, ff)
                        == spec_fold_prod(vars@, cs@, i as int + 1, next@, ff) by {
                        lemma_resolve_mono(vars@, cs@[i as int], fop, ff);
                    }
                }
                acc = next;
                i += 1;
            }
            proof {
                assert(spec_resolve(vars@, *expr, fwit) == Some(Ok::<Val, Error>(acc@)));
            }
            Ok(acc)
        },
        Rule::matrix_lit => resolve_matrix(vars, cache, expr, fuel),
        _ => Err(Error::ResolveError),
    }
}

/// True of an operator token.
fn is_operator(t: &Tree) -> (r: bool)
    ensures
        r == (t.rule == Rule::operator),
{
    match t.rule {
        Rule::operator => true,
        _ => false,
    }
}

/// Resolves a matrix literal: rows must all be row nodes of one common entry
/// count (the width of the first row), and every entry must resolve to a
/// scalar; the entries are flattened row-major.
fn resolve_matrix(
    vars: &StringHashMap<Tree>,
    cache: &mut StringHashMap<Value>,
    expr: &Tree,
    fuel: u64,
) -> (r: Result<Value, Error>)
    requires
        expr.rule == Rule::matrix_lit,
        expr.conforming(),
        vars_conforming(vars@),
        cache_inv(vars@, old(cache)@),
    ensures
        cache_inv(vars@, final(cache)@),
        spec_resolve(vars@, *expr, fuel as nat) matches Some(res) ==> result_view(r) == res,
        r is Ok ==> r->Ok_0.wf() && exists|f: nat|
            spec_resolve(vars@, *expr, f) == Some(Ok::<Val, Error>(r->Ok_0@)),
    decreases fuel, *expr, 0nat,
{
    let rows = &expr.children;
    if rows.len() == 0 {
        let empty: Vec<Value> = Vec::new();
        let r = Value::Matrix(empty, 0);
        proof {
            assert(r@->Mat_0 =~= Seq::<u64>::empty());
            assert(spec_resolve(vars@, *expr, 0) == Some(Ok::<Val, Error>(r@)));
        }
        return Ok(r);
    }
    let width = rows[0].children.len();
    let mut k: usize = 0;
    while k < rows.len()
        invariant
            k <= rows@.len(),
            rows@.len() >= 1,
            rows@ == expr.children@,
            expr.rule == Rule::matrix_lit,
            width == rows@[0].children@.len(),
            cache_inv(vars@, cache@),
            forall|p: int|
                0 <= p < k ==> (#[trigger] rows@[p]).rule == Rule::matrix_row_lit
                    && rows@[p].children@.len() == width,
        decreases rows@.len() - k,
    {
        if !is_row(&rows[k]) || rows[k].children.len() != width {
            proof {
                let bad = rows@[k as int];
                assert(!(bad.rule == Rule::matrix_row_lit && bad.children@.len() == width));
            }
            return Err(Error::DefinitionError);
        }
        k += 1;
    }
    if width == 0 {
        let empty: Vec<Value> = Vec::new();
        let r = Value::Matrix(empty, 0);
        proof {
            assert(r@->Mat_0 =~= Seq::<u64>::empty());
            assert(spec_entries(vars@, rows@, 0, 0, 0) == Some(Ok::<Seq<u64>, Error>(
                Seq::empty(),
            )));
            assert(spec_resolve(vars@, *expr, 0) == Some(Ok::<Val, Error>(r@)));
        }
        return Ok(r);
    }
    let mut out: Vec<Value> = Vec::new();
    let ghost mut done: Seq<u64> = Seq::empty();
    let ghost mut fwit: nat = 0;
    let mut rr: usize = 0;
    proof {
        lemma_entries_prefix_zero(vars@, rows@, width as nat, fuel as nat);
    }
    while rr < rows.len()
        invariant
            rr <= rows@.len(),
            rows@ == expr.children@,
            expr.rule == Rule::matrix_lit,
            expr.conforming(),
            vars_conforming(vars@),
            cache_inv(vars@, cache@),
            width >= 1,
            width == rows@[0].children@.len(),
            forall|p: int|
                0 <= p < rows@.len() ==> (#[trigger] rows@[p]).rule == Rule::matrix_row_lit
                    && rows@[p].children@.len() == width,
            out@.len() == rr as int * width as int,
            done.len() == out@.len(),
            forall|p: int|
                0 <= p < out@.len() ==> (#[trigger] out@[p]) is Number && out@[p]->Number_0
                    == done[p],
            spec_resolve(vars@, *expr, fuel as nat) matches Some(res) ==> (match spec_entries(
                vars@,
                rows@,
                width as nat,
                rr as int * width as int,
                fuel as nat,
            ) {
                None => false,
                Some(Err(e)) => res == Err::<Val, Error>(e),
                Some(Ok(rest)) => res == Ok::<Val, Error>(
                    Val::Mat(done + rest, width as nat),
                ),
            }),
            forall|ff: nat|
                #![trigger spec_entries(vars@, rows@, width as nat, rr as int * width as int, ff)]
                ff >= fwit ==> (match spec_entries(
                    vars@,
                    rows@,
                    width as nat,
                    rr as int * width as int,
                    ff,
                ) {
                    None => spec_resolve(vars@, *expr, ff) is None,
                    Some(Err(e)) => spec_resolve(vars@, *expr, ff) == Some(
                        Err::<Val, Error>(e),
                    ),
                    Some(Ok(rest)) => spec_resolve(vars@, *expr, ff) == Some(
                        Ok::<Val, Error>(Val::Mat(done + rest, width as nat)),
                    ),
                }),
        decreases rows@.len() - rr,
    {
        let row = &rows[rr];
        let mut cc: usize = 0;
        while cc < width
            invariant
                cc <= width,
                rr < rows@.len(),
                rows@ == expr.children@,
                expr.rule == Rule::matrix_lit,
                expr.conforming(),
                vars_conforming(vars@),
                cache_inv(vars@, cache@),
                width >= 1,
                width == rows@[0].children@.len(),
                row == rows@[rr as int],
                forall|p: int|
                    0 <= p < rows@.len() ==> (#[trigger] rows@[p]).rule == Rule::matrix_row_lit
                        && rows@[p].children@.len() == width,
                out@.len() == rr as int * width as int + cc as int,
                done.len() == out@.len(),
                forall|p: int|
                    0 <= p < out@.len() ==> (#[trigger] out@[p]) is Number && out@[p]->Number_0
                        == done[p],
                spec_resolve(vars@, *expr, fuel as nat) matches Some(res) ==> (match spec_entries(
                    vars@,
                    rows@,
                    width as nat,
                    rr as int * width as int + cc as int,
                    fuel as nat,
                ) {
                    None => false,
                    Some(Err(e)) => res == Err::<Val, Error>(e),
                    Some(Ok(rest)) => res == Ok::<Val, Error>(
                        Val::Mat(done + rest, width as nat),
                    ),
                }),
                forall|ff: nat|
                    #![trigger spec_entries(vars@, rows@, width as nat, rr as int * width as int + cc as int, ff)]
                    ff >= fwit ==> (match spec_entries(
                        vars@,
                        rows@,
                        width as nat,
                        rr as int * width as int + cc as int,
                        ff,
                    ) {
                        None => spec_resolve(vars@, *expr, ff) is None,
                        Some(Err(e)) => spec_resolve(vars@, *expr, ff) == Some(
                            Err::<Val, Error>(e),
                        ),
                        Some(Ok(rest)) => spec_resolve(vars@, *expr, ff) == Some(
                            Ok::<Val, Error>(Val::Mat(done + rest, width as nat)),
                        ),
                    }),
            decreases width - cc,
        {
            let ghost idx = rr as int * width as int + cc as int;
            proof {
                lemma_entry_index(rows@.len() as int, width as int, rr as int, cc as int);
                lemma_fundamental_div_mod_converse(idx, width as int, rr as int, cc as int);
            }
            proof {
                lemma_child_decreases(*expr, rr as int);
                lemma_child_decreases(rows@[rr as int], cc as int);
                assert(rows@[rr as int].conforming());
                assert(rows@[rr as int].children@[cc as int].conforming());
            }
            let entry = match resolve_inner(vars, cache, &row.children[cc], fuel) {
                Ok(v) => v,
                Err(e) => {
                    return Err(e);
                },
            };
            let ghost fop = choose|f: nat|
                (#[trigger] spec_resolve(vars@, row.children@[cc as int], f)) == Some(
                    Ok::<Val, Error>(entry@),
                );
            let bits = match &entry {
                Value::Number(b) => *b,
                Value::Matrix(_, _) => {
                    return Err(Error::DefinitionError);
                },
            };
            proof {
                assert(entry@ == Val::Num(bits));
            }
            proof {
                fwit = if fwit >= fop {
                    fwit
                } else {
                    fop
                };
                assert forall|ff: nat|
                    #![trigger spec_entries(vars@, rows@, width as nat, idx + 1, ff)]
                    ff >= fwit implies (match spec_entries(
                    vars@,
                    rows@,
                    width as nat,
                    idx + 1,
                    ff,
                ) {
                    None => spec_resolve(vars@, *expr, ff) is None,
                    Some(Err(e)) => spec_resolve(vars@, *expr, ff) == Some(Err::<Val, Error>(e)),
                    Some(Ok(rest)) => spec_resolve(vars@, *expr, ff) == Some(
                        Ok::<Val, Error>(Val::Mat(done.push(bits) + rest, width as nat)),
                    ),
                }) by {
                    lemma_resolve_mono(vars@, row.children@[cc as int], fop, ff);
                    assert(rows@[idx / (width as int)] == rows@[rr as int]);
                    assert(idx % (width as int) == cc as int);
                    // mentioning the walk at `idx` lets its hypothesis unfold
                    let here = spec_entries(vars@, rows@, width as nat, idx, ff);
                    if let Some(Ok(rest)) = spec_entries(vars@, rows@, width as nat, idx + 1, ff) {
                        assert(done + (seq![bits] + rest) =~= done.push(bits) + rest);
                    }
                }
                if spec_resolve(vars@, *expr, fuel as nat) is Some {
                    // and likewise for the run at the fixed budget
                    let here = spec_entries(vars@, rows@, width as nat, idx, fuel as nat);
                    if let Some(Ok(rest)) = spec_entries(
                        vars@,
                        rows@,
                        width as nat,
                        idx + 1,
                        fuel as nat,
                    ) {
                        assert(done + (seq![bits] + rest) =~= done.push(bits) + rest);
                    }
                }
                done = done.push(bits);
            }
            out.push(Value::Number(bits));
            cc += 1;
        }
        proof {
            assert(rr as int * width as int + width as int == (rr as int + 1) * width as int)
                by (nonlinear_arith);
        }
        rr += 1;
    }
    let r = Value::Matrix(out, width);
    proof {
        assert(spec_entries(vars@, rows@, width as nat, rows@.len() * width as int, fwit)
            == Some(Ok::<Seq<u64>, Error>(Seq::empty())));
        assert(done + Seq::<u64>::empty() =~= done);
        assert(r@->Mat_0 =~= done);
        assert(out@.len() as int % width as int == 0) by (nonlinear_arith)
            requires
                width >= 1,
                out@.len() == rows@.len() * width as int,
        ;
        assert(spec_resolve(vars@, *expr, fwit) == Some(Ok::<Val, Error>(r@)));
    }
    Ok(r)
}

/// True of a matrix row node.
fn is_row(t: &Tree) -> (r: bool)
    ensures
        r == (t.rule == Rule::matrix_row_lit),
{
    match t.rule {
        Rule::matrix_row_lit => true,
        _ => false,
    }
}

/// Entry resolution past the end of the rows yields nothing more.
proof fn lemma_entries_prefix_zero(
    vars: Map<Seq<char>, Tree>,
    rows: Seq<Tree>,
    width: nat,
    fuel: nat,
)
    ensures
        spec_entries(vars, rows, width, rows.len() * width as int, fuel) == Some(
            Ok::<Seq<u64>, Error>(Seq::empty()),
        ),
{
}

/// A cell's flat position sits inside the flat entry count.
proof fn lemma_entry_index(nrows: int, width: int, rr: int, cc: int)
    requires
        0 <= rr < nrows,
        0 <= cc < width,
    ensures
        0 <= rr * width + cc,
        rr * width + cc < nrows * width,
        rr * width + cc + 1 <= nrows * width,
    decreases 0nat,
{
    assert(rr * width + cc < nrows * width) by (nonlinear_arith)
        requires
            0 <= rr < nrows,
            0 <= cc < width,
    ;
    assert(rr * width >= 0) by (nonlinear_arith)
        requires
            rr >= 0,
            width >= 0,
    ;
}

} // verus!
