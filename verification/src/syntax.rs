//! The syntax-tree model that the grammar front end produces.
//!
//! A node carries its grammar-production label (its kind), the raw text of
//! the span it matched, and its ordered children.  A leaf has text and no
//! children; an interior node has children, and its text is only the full
//! matched span.  No validation happens here: shape checks (rectangular
//! matrix literals, child counts) are the evaluator's responsibility.

use vstd::prelude::*;
use vstd::string::StringExecFns;

verus! {

/// The grammar-production label of a node: the vocabulary the front end must
/// produce.  Precedence, lowest to highest: sum, product, exponent, unary
/// negation, primary (number literal, identifier, matrix literal, or a
/// parenthesized expression, which nests a sum).
#[allow(non_camel_case_types)]
#[derive(Clone, Copy, PartialEq, Eq, Structural)]
pub enum Rule {
    document,
    assignment,
    sum_expr,
    prod_expr,
    exp_expr,
    negate_expr,
    identifier,
    number_lit,
    matrix_lit,
    matrix_row_lit,
    operator,
}

/// One syntax-tree node.
pub struct Tree {
    pub rule: Rule,
    pub text: String,
    pub children: Vec<Tree>,
}

/// Conversion into the tree model, for a front end's parse results.
pub trait ToTree {
    fn to_syntax_tree(self) -> Tree;
}

/// The name of a grammar production.
pub open spec fn spec_rule_text(r: Rule) -> Seq<char> {
    match r {
        Rule::document => "document"@,
        Rule::assignment => "assignment"@,
        Rule::sum_expr => "sum_expr"@,
        Rule::prod_expr => "prod_expr"@,
        Rule::exp_expr => "exp_expr"@,
        Rule::negate_expr => "negate_expr"@,
        Rule::identifier => "identifier"@,
        Rule::number_lit => "number_lit"@,
        Rule::matrix_lit => "matrix_lit"@,
        Rule::matrix_row_lit => "matrix_row_lit"@,
        Rule::operator => "operator"@,
    }
}

/// The diagnostic rendering of a node: `kind("text")` for a leaf, and
/// `kind [child, child, ...]` for an interior node.
pub open spec fn spec_tree_text(t: Tree) -> Seq<char>
    decreases t, 0nat,
    via spec_tree_text_dec
{
    if t.children@.len() == 0 {
        ((spec_rule_text(t.rule) + "(\""@) + t.text@) + "\")"@
    } else {
        ((spec_rule_text(t.rule) + " ["@) + spec_tree_list(t.children@, 0)) + "]"@
    }
}

/// The children from position `i` on, rendered and comma-separated.
pub open spec fn spec_tree_list(cs: Seq<Tree>, i: int) -> Seq<char>
    decreases cs, (cs.len() - i) as nat,
    via spec_tree_list_dec
{
    if i < 0 || i >= cs.len() {
        Seq::empty()
    } else {
        ((if i > 0 {
            ", "@
        } else {
            Seq::<char>::empty()
        }) + spec_tree_text(cs[i])) + spec_tree_list(cs, i + 1)
    }
}

#[via_fn]
proof fn spec_tree_text_dec(t: Tree) {
    assert(decreases_to!(t => t.children));
    assert(decreases_to!(t.children => t.children@));
}

#[via_fn]
proof fn spec_tree_list_dec(cs: Seq<Tree>, i: int) {
    if 0 <= i < cs.len() {
        assert(decreases_to!(cs => cs[i]));
    }
}

/// Computes [`spec_rule_text`].
fn rule_label(r: Rule) -> (s: String)
    ensures
        s@ == spec_rule_text(r),
{
    match r {
        Rule::document => String::from_str("document"),
        Rule::assignment => String::from_str("assignment"),
        Rule::sum_expr => String::from_str("sum_expr"),
        Rule::prod_expr => String::from_str("prod_expr"),
        Rule::exp_expr => String::from_str("exp_expr"),
        Rule::negate_expr => String::from_str("negate_expr"),
        Rule::identifier => String::from_str("identifier"),
        Rule::number_lit => String::from_str("number_lit"),
        Rule::matrix_lit => String::from_str("matrix_lit"),
        Rule::matrix_row_lit => String::from_str("matrix_row_lit"),
        Rule::operator => String::from_str("operator"),
    }
}

/// Computes [`spec_tree_list`].
fn render_list(cs: &Vec<Tree>, i: usize) -> (r: String)
    requires
        i <= cs@.len(),
    ensures
        r@ == spec_tree_list(cs@, i as int),
    decreases cs@, (cs@.len() - i) as nat,
{
    if i >= cs.len() {
        String::new()
    } else {
        proof {
            assert(decreases_to!(cs@ => cs@[i as int]));
        }
        let mine = cs[i].render();
        let rest = render_list(cs, i + 1);
        let head = if i > 0 {
            String::from_str(", ").concat(mine.as_str())
        } else {
            mine
        };
        head.concat(rest.as_str())
    }
}

impl Tree {
    /// Renders the node for diagnostics, as [`spec_tree_text`] states it: a
    /// leaf as its kind with its quoted text, an interior node as its kind
    /// followed by its children as a bracketed ordered list.
    pub fn render(&self) -> (r: String)
        ensures
            r@ == spec_tree_text(*self),
        decreases *self, 0nat,
    {
        proof {
            assert(decreases_to!(*self => self.children));
            assert(decreases_to!(self.children => self.children@));
        }
        let label = rule_label(self.rule);
        if self.children.len() == 0 {
            label.concat("(\"").concat(self.text.as_str()).concat("\")")
        } else {
            let inner = render_list(&self.children, 0);
            label.concat(" [").concat(inner.as_str()).concat("]")
        }
    }

    /// The shape a conforming front end gives a node: sums hold operands and
    /// operators alternating, starting and ending on an operand; products
    /// hold at least one child; an exponent holds exactly base, operator
    /// token and exponent; a negation exactly one child.  A tree outside this
    /// shape is a front-end bug, not an input the evaluator answers for.
    pub open spec fn conforming(&self) -> bool
        decreases *self,
    {
        &&& match self.rule {
            Rule::sum_expr => self.children@.len() % 2 == 1,
            Rule::prod_expr => self.children@.len() >= 1,
            Rule::exp_expr => self.children@.len() == 3,
            Rule::negate_expr => self.children@.len() == 1,
            _ => true,
        }
        &&& forall|i: int|
            0 <= i < self.children@.len() ==> (#[trigger] self.children@[i]).conforming()
    }
}

} // verus!
