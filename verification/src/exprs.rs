//! The physical expression model and the utilities over expression lists:
//! list equality in any or strict order, conjunction splitting, projection
//! mapping helpers, index lookup, order-by reversal and duplicate-free
//! concatenation of sort expressions.

use vstd::prelude::*;

use crate::data::{DataType, SortOptions};
use vstd::multiset::Multiset;

verus! {

/// A scalar literal: a typed optional value.
pub enum ScalarValue {
    Int64(Option<i64>),
    Utf8(Option<String>),
}

/// Spec-level value of a scalar literal.
pub ghost enum ScalarSpec {
    Int64(Option<i64>),
    Utf8(Option<Seq<char>>),
}

/// The spec-level contents of a scalar.
pub open spec fn sview(s: ScalarValue) -> ScalarSpec {
    match s {
        ScalarValue::Int64(v) => ScalarSpec::Int64(v),
        ScalarValue::Utf8(v) => ScalarSpec::Utf8(
            match v {
                Some(s) => Some(s@),
                None => None,
            },
        ),
    }
}

/// A column reference: a field name together with its index in the schema.
pub struct Column {
    pub name: String,
    pub index: usize,
}

/// Spec-level value of a column reference.
pub ghost struct ColumnV {
    pub name: Seq<char>,
    pub index: nat,
}

impl Column {
    pub open spec fn view_spec(&self) -> ColumnV {
        ColumnV { name: self.name@, index: self.index as nat }
    }

    pub fn new(name: &str, index: usize) -> (r: Self)
        ensures
            r.view_spec() == (ColumnV { name: name@, index: index as nat }),
    {
        Column { name: name.to_owned(), index }
    }

    pub fn name(&self) -> (r: &str)
        ensures
            r@ == self.name@,
    {
        self.name.as_str()
    }

    pub fn index(&self) -> (r: usize)
        ensures
            r == self.index,
    {
        self.index
    }

    /// A copy of this column reference.
    pub fn duplicate(&self) -> (r: Self)
        ensures
            r.view_spec() == self.view_spec(),
    {
        Column { name: self.name.clone(), index: self.index }
    }
}

/// A placeholder for an expression that is no longer valid after a
/// projection.
pub struct UnKnownColumn {
    pub name: String,
}

/// The binary operators the utilities inspect.
#[derive(Clone, Copy, PartialEq, Eq, Structural, Debug)]
pub enum Operator {
    And,
    Or,
    Eq,
    NotEq,
    Lt,
    LtEq,
    Gt,
    GtEq,
    Plus,
    Minus,
}

/// A physical expression tree.
pub enum PhysicalExpr {
    Column(Column),
    UnknownColumn(UnKnownColumn),
    Literal(ScalarValue),
    Cast { input: Box<PhysicalExpr>, to: DataType },
    Binary { left: Box<PhysicalExpr>, op: Operator, right: Box<PhysicalExpr> },
    InList { expr: Box<PhysicalExpr>, list: Vec<ScalarValue>, negated: bool },
}

/// Spec-level value of an expression tree.
pub ghost enum ExprSpec {
    Column(ColumnV),
    UnknownColumn(Seq<char>),
    Literal(ScalarSpec),
    Cast { input: Box<ExprSpec>, to: DataType },
    Binary { left: Box<ExprSpec>, op: Operator, right: Box<ExprSpec> },
    InList { expr: Box<ExprSpec>, list: Seq<ScalarSpec>, negated: bool },
}

/// The spec-level contents of an expression.
pub open spec fn eview(e: PhysicalExpr) -> ExprSpec
    decreases e,
{
    match e {
        PhysicalExpr::Column(c) => ExprSpec::Column(c.view_spec()),
        PhysicalExpr::UnknownColumn(u) => ExprSpec::UnknownColumn(u.name@),
        PhysicalExpr::Literal(s) => ExprSpec::Literal(sview(s)),
        PhysicalExpr::Cast { input, to } => ExprSpec::Cast {
            input: Box::new(eview(*input)),
            to,
        },
        PhysicalExpr::Binary { left, op, right } => ExprSpec::Binary {
            left: Box::new(eview(*left)),
            op,
            right: Box::new(eview(*right)),
        },
        PhysicalExpr::InList { expr, list, negated } => ExprSpec::InList {
            expr: Box::new(eview(*expr)),
            list: list@.map_values(|s: ScalarValue| sview(s)),
            negated,
        },
    }
}

/// The spec-level contents of a list of expressions.
pub open spec fn eviews(l: Seq<PhysicalExpr>) -> Seq<ExprSpec> {
    l.map_values(|e: PhysicalExpr| eview(e))
}

/// Equality of two scalars: same type, same null-ness, same value.
pub fn scalar_eq(a: &ScalarValue, b: &ScalarValue) -> (r: bool)
    ensures
        r == (sview(*a) == sview(*b)),
{
    match a {
        ScalarValue::Int64(x) => match b {
            ScalarValue::Int64(y) => match x {
                Some(u) => match y {
                    Some(v) => *u == *v,
                    None => false,
                },
                None => y.is_none(),
            },
            _ => false,
        },
        ScalarValue::Utf8(x) => match b {
            ScalarValue::Utf8(y) => match x {
                Some(u) => match y {
                    Some(v) => *u == *v,
                    None => false,
                },
                None => y.is_none(),
            },
            _ => false,
        },
    }
}

/// A copy of a scalar.
pub fn clone_scalar(s: &ScalarValue) -> (r: ScalarValue)
    ensures
        sview(r) == sview(*s),
{
    match s {
        ScalarValue::Int64(v) => ScalarValue::Int64(*v),
        ScalarValue::Utf8(v) => ScalarValue::Utf8(
            match v {
                Some(x) => Some(x.clone()),
                None => None,
            },
        ),
    }
}

/// Structural equality of two expression trees.
pub fn expr_eq(a: &PhysicalExpr, b: &PhysicalExpr) -> (r: bool)
    ensures
        r == (eview(*a) == eview(*b)),
    decreases *a,
{
    match a {
        PhysicalExpr::Column(x) => match b {
            PhysicalExpr::Column(y) => {
                return x.name == y.name && x.index == y.index;
            },
            _ => {
                return false;
            },
        },
        PhysicalExpr::UnknownColumn(x) => match b {
            PhysicalExpr::UnknownColumn(y) => {
                return x.name == y.name;
            },
            _ => {
                return false;
            },
        },
        PhysicalExpr::Literal(x) => match b {
            PhysicalExpr::Literal(y) => {
                return scalar_eq(x, y);
            },
            _ => {
                return false;
            },
        },
        PhysicalExpr::Cast { input: xi, to: xt } => match b {
            PhysicalExpr::Cast { input: yi, to: yt } => {
                return *xt == *yt && expr_eq(xi, yi);
            },
            _ => {
                return false;
            },
        },
        PhysicalExpr::Binary { left: xl, op: xo, right: xr } => match b {
            PhysicalExpr::Binary { left: yl, op: yo, right: yr } => {
                return *xo == *yo && expr_eq(xl, yl) && expr_eq(xr, yr);
            },
            _ => {
                return false;
            },
        },
        PhysicalExpr::InList { expr: xe, list: xl, negated: xn } => match b {
            PhysicalExpr::InList { expr: ye, list: yl, negated: yn } => {
            if *xn != *yn || !expr_eq(xe, ye) || xl.len() != yl.len() {
                proof {
                    let f = |s: ScalarValue| sview(s);
                    assert(xl@.map_values(f).len() == xl@.len());
                    assert(yl@.map_values(f).len() == yl@.len());
                }
                return false;
            } else {
                let n = xl.len();
                let mut i: usize = 0;
                let mut same = true;
                while i < n
                    invariant
                        0 <= i <= n,
                        n == xl@.len(),
                        n == yl@.len(),
                        same == (xl@.take(i as int).map_values(|s: ScalarValue| sview(s))
                            =~= yl@.take(i as int).map_values(|s: ScalarValue| sview(s))),
                    decreases n - i,
                {
                    let eqi = scalar_eq(&xl[i], &yl[i]);
                    proof {
                        let f = |s: ScalarValue| sview(s);
                        let xs = xl@.take(i + 1).map_values(f);
                        let ys = yl@.take(i + 1).map_values(f);
                        if same && eqi {
                            assert forall|j: int| 0 <= j < i + 1 implies xs[j] == ys[j] by {
                                if j < i {
                                    assert(xl@.take(i as int).map_values(f)[j]
                                        == yl@.take(i as int).map_values(f)[j]);
                                }
                            }
                            assert(xs =~= ys);
                        } else {
                            if !eqi {
                                assert(xs[i as int] == sview(xl@[i as int]));
                                assert(ys[i as int] == sview(yl@[i as int]));
                                assert(!(xs =~= ys));
                            } else {
                                // a mismatch below i stays a mismatch
                                let k = choose|k: int|
                                    0 <= k < i && xl@.take(i as int).map_values(f)[k]
                                        != yl@.take(i as int).map_values(f)[k];
                                assert(xs[k] != ys[k]);
                                assert(!(xs =~= ys));
                            }
                        }
                    }
                    same = same && eqi;
                    i += 1;
                }
                proof {
                    let f = |s: ScalarValue| sview(s);
                    assert(xl@.take(n as int) =~= xl@);
                    assert(yl@.take(n as int) =~= yl@);
                    if same {
                        assert(xl@.map_values(f) =~= yl@.map_values(f));
                    }
                }
                return same;
            }
            },
            _ => {
                return false;
            },
        },
    }
}

impl PartialEq for PhysicalExpr {
    fn eq(&self, other: &Self) -> (r: bool) {
        expr_eq(self, other)
    }
}

impl vstd::std_specs::cmp::PartialEqSpecImpl for PhysicalExpr {
    open spec fn obeys_eq_spec() -> bool {
        true
    }

    open spec fn eq_spec(&self, other: &Self) -> bool {
        eview(*self) == eview(*other)
    }
}

impl PartialEq for Column {
    fn eq(&self, other: &Self) -> (r: bool) {
        self.name == other.name && self.index == other.index
    }
}

impl vstd::std_specs::cmp::PartialEqSpecImpl for Column {
    open spec fn obeys_eq_spec() -> bool {
        true
    }

    open spec fn eq_spec(&self, other: &Self) -> bool {
        self.view_spec() == other.view_spec()
    }
}

/// A deep copy of an expression tree.
pub fn clone_expr(e: &PhysicalExpr) -> (r: PhysicalExpr)
    ensures
        eview(r) == eview(*e),
    decreases *e,
{
    match e {
        PhysicalExpr::Column(c) => PhysicalExpr::Column(c.duplicate()),
        PhysicalExpr::UnknownColumn(u) => PhysicalExpr::UnknownColumn(
            UnKnownColumn { name: u.name.clone() },
        ),
        PhysicalExpr::Literal(s) => PhysicalExpr::Literal(clone_scalar(s)),
        PhysicalExpr::Cast { input, to } => PhysicalExpr::Cast {
            input: Box::new(clone_expr(input)),
            to: *to,
        },
        PhysicalExpr::Binary { left, op, right } => PhysicalExpr::Binary {
            left: Box::new(clone_expr(left)),
            op: *op,
            right: Box::new(clone_expr(right)),
        },
        PhysicalExpr::InList { expr, list, negated } => {
            let mut copy: Vec<ScalarValue> = Vec::new();
            let n = list.len();
            let mut i: usize = 0;
            while i < n
                invariant
                    0 <= i <= n,
                    n == list@.len(),
                    copy@.len() == i,
                    forall|j: int| 0 <= j < i ==> sview(#[trigger] copy@[j]) == sview(list@[j]),
                decreases n - i,
            {
                copy.push(clone_scalar(&list[i]));
                i += 1;
            }
            proof {
                let f = |s: ScalarValue| sview(s);
                assert(copy@.map_values(f) =~= list@.map_values(f));
            }
            PhysicalExpr::InList {
                expr: Box::new(clone_expr(expr)),
                list: copy,
                negated: *negated,
            }
        },
    }
}

/// A sort expression: an expression together with its sort options.
pub struct PhysicalSortExpr {
    pub expr: PhysicalExpr,
    pub options: SortOptions,
}

/// Spec-level value of a sort expression.
pub ghost struct SortExprV {
    pub expr: ExprSpec,
    pub options: SortOptions,
}

/// The spec-level contents of a sort expression.
pub open spec fn seview(s: PhysicalSortExpr) -> SortExprV {
    SortExprV { expr: eview(s.expr), options: s.options }
}

/// The spec-level contents of a list of sort expressions.
pub open spec fn seviews(l: Seq<PhysicalSortExpr>) -> Seq<SortExprV> {
    l.map_values(|s: PhysicalSortExpr| seview(s))
}

/// Strict, ordered equality of two expression lists.
pub fn expr_list_eq_strict_order(list1: &Vec<PhysicalExpr>, list2: &Vec<PhysicalExpr>) -> (r:
    bool)
    ensures
        r == (eviews(list1@) == eviews(list2@)),
{
    if list1.len() != list2.len() {
        proof {
            assert(eviews(list1@).len() == list1@.len());
            assert(eviews(list2@).len() == list2@.len());
        }
        return false;
    }
    let n = list1.len();
    let mut i: usize = 0;
    while i < n
        invariant
            0 <= i <= n,
            n == list1@.len(),
            n == list2@.len(),
            forall|j: int| 0 <= j < i ==> eviews(list1@)[j] == eviews(list2@)[j],
        decreases n - i,
    {
        if !expr_eq(&list1[i], &list2[i]) {
            proof {
                assert(eviews(list1@)[i as int] == eview(list1@[i as int]));
                assert(eviews(list2@)[i as int] == eview(list2@[i as int]));
                assert(eviews(list1@) != eviews(list2@));
            }
            return false;
        }
        i += 1;
    }
    proof {
        assert(eviews(list1@) =~= eviews(list2@));
    }
    true
}

/// The multiset of expression contents that a list of remaining indices
/// selects out of `l`.
pub open spec fn picked_views(rem: Seq<usize>, l: Seq<PhysicalExpr>) -> Multiset<ExprSpec> {
    rem.map_values(|k: usize| eview(l[k as int])).to_multiset()
}

/// Unordered equality of two expression lists: the same expressions with
/// the same multiplicities, in any order.
pub fn expr_list_eq_any_order(list1: &Vec<PhysicalExpr>, list2: &Vec<PhysicalExpr>) -> (r: bool)
    ensures
        r == (eviews(list1@).to_multiset() == eviews(list2@).to_multiset()),
{
    broadcast use vstd::seq_lib::group_to_multiset_ensures;
    broadcast use vstd::multiset::group_multiset_axioms;

    if list1.len() != list2.len() {
        proof {
            assert(eviews(list1@).len() == list1@.len());
            assert(eviews(list2@).len() == list2@.len());
            assert(eviews(list1@).to_multiset().len() == eviews(list1@).len());
            assert(eviews(list2@).to_multiset().len() == eviews(list2@).len());
        }
        return false;
    }
    let n = list1.len();
    // indices of `list2` not yet matched with an element of `list1`
    let mut rem: Vec<usize> = Vec::new();
    let mut k: usize = 0;
    while k < n
        invariant
            0 <= k <= n,
            n == list2@.len(),
            rem@.len() == k,
            forall|j: int| 0 <= j < k ==> rem@[j] == j,
        decreases n - k,
    {
        rem.push(k);
        k += 1;
    }
    proof {
        assert(rem@.map_values(|q: usize| eview(list2@[q as int])) =~= eviews(list2@));
        assert(eviews(list1@).take(0).to_multiset() =~= Multiset::<ExprSpec>::empty());
    }
    let mut i: usize = 0;
    while i < n
        invariant
            0 <= i <= n,
            n == list1@.len(),
            n == list2@.len(),
            rem@.len() == n - i,
            forall|j: int| 0 <= j < rem@.len() ==> #[trigger] rem@[j] < n,
            eviews(list2@).to_multiset() == eviews(list1@).take(i as int).to_multiset().add(
                picked_views(rem@, list2@),
            ),
        decreases n - i,
    {
        broadcast use vstd::seq_lib::group_to_multiset_ensures;
        broadcast use vstd::multiset::group_multiset_axioms;

        let ghost target_v = eview(list1@[i as int]);
        // look for a match among the remaining indices of `list2`
        let mut j: usize = 0;
        let mut found = false;
        let rl = rem.len();
        while j < rl && !found
            invariant
                0 <= j <= rl,
                rl == rem@.len(),
                n == list1@.len(),
                n == list2@.len(),
                i < n,
                target_v == eview(list1@[i as int]),
                forall|q: int| 0 <= q < rem@.len() ==> #[trigger] rem@[q] < n,
                !found ==> forall|q: int|
                    0 <= q < j ==> eview(list2@[#[trigger] rem@[q] as int]) != target_v,
                found ==> j < rl && eview(list2@[rem@[j as int] as int]) == target_v,
            decreases rl - j + (if found { 0int } else { 1int }),
        {
            if expr_eq(&list2[rem[j]], &list1[i]) {
                found = true;
            } else {
                j += 1;
            }
        }
        if !found {
            proof {
                let l1v = eviews(list1@);
                let l2v = eviews(list2@);
                let mapped = rem@.map_values(|q: usize| eview(list2@[q as int]));
                // the target does not occur among the remaining elements
                assert forall|q: int| 0 <= q < mapped.len() implies mapped[q] != target_v by {
                    assert(mapped[q] == eview(list2@[rem@[q] as int]));
                }
                assert(!mapped.contains(target_v));
                assert(picked_views(rem@, list2@).count(target_v) == 0);
                // but it occurs at least once more in list1 beyond the prefix
                assert(l1v =~= l1v.take(i as int) + l1v.skip(i as int));
                vstd::seq_lib::lemma_multiset_commutative(
                    l1v.take(i as int),
                    l1v.skip(i as int),
                );
                assert(l1v.skip(i as int)[0] == l1v[i as int]);
                assert(l1v[i as int] == target_v);
                assert(l1v.skip(i as int).contains(target_v));
                assert(l1v.skip(i as int).to_multiset().count(target_v) > 0);
                if l1v.to_multiset() == l2v.to_multiset() {
                    assert(l2v.to_multiset().count(target_v) == l1v.take(
                        i as int,
                    ).to_multiset().count(target_v) + picked_views(rem@, list2@).count(
                        target_v,
                    ));
                    assert(l1v.to_multiset().count(target_v) == l1v.take(
                        i as int,
                    ).to_multiset().count(target_v) + l1v.skip(i as int).to_multiset().count(
                        target_v,
                    ));
                    assert(false);
                }
            }
            return false;
        }
        let ghost old_rem = rem@;
        let ghost old_mapped = old_rem.map_values(|q: usize| eview(list2@[q as int]));
        rem.remove(j);
        proof {
            let l1v = eviews(list1@);
            let mapped = rem@.map_values(|q: usize| eview(list2@[q as int]));
            assert(mapped =~= old_mapped.remove(j as int));
            assert(old_mapped[j as int] == target_v);
            // removing the matched element removes one count of the target
            assert(old_mapped.remove(j as int).to_multiset() =~= old_mapped.to_multiset()
                .remove(target_v));
            assert(old_mapped.to_multiset().count(target_v) > 0);
            // the prefix gains the same element
            assert(l1v.take(i + 1).drop_last() =~= l1v.take(i as int));
            assert(l1v.take(i + 1) =~= l1v.take(i as int).push(target_v));
            assert(l1v.take(i + 1).to_multiset() =~= l1v.take(i as int).to_multiset().insert(
                target_v,
            ));
            assert(eviews(list2@).to_multiset() =~= l1v.take(i + 1).to_multiset().add(
                picked_views(rem@, list2@),
            ));
        }
        i += 1;
    }
    proof {
        assert(eviews(list1@).take(n as int) =~= eviews(list1@));
        assert(rem@.map_values(|q: usize| eview(list2@[q as int])) =~= Seq::<
            ExprSpec,
        >::empty());
        assert(picked_views(rem@, list2@) =~= Multiset::<ExprSpec>::empty());
        assert(eviews(list2@).to_multiset() =~= eviews(list1@).to_multiset());
    }
    true
}

/// The spec-level contents of a list of expression references.
pub open spec fn refviews(l: Seq<&PhysicalExpr>) -> Seq<ExprSpec> {
    l.map_values(|e: &PhysicalExpr| eview(*e))
}

/// The conjuncts of a predicate in conjunctive normal form, left to right:
/// a conjunction splits into the conjuncts of both sides, anything else is
/// a single conjunct.
pub open spec fn conjuncts(e: ExprSpec) -> Seq<ExprSpec>
    decreases e,
{
    match e {
        ExprSpec::Binary { left, op, right } => {
            if op == Operator::And {
                conjuncts(*left) + conjuncts(*right)
            } else {
                seq![e]
            }
        },
        _ => seq![e],
    }
}

fn split_conjunction_impl<'a>(predicate: &'a PhysicalExpr, exprs: Vec<&'a PhysicalExpr>) -> (r:
    Vec<&'a PhysicalExpr>)
    ensures
        refviews(r@) == refviews(exprs@) + conjuncts(eview(*predicate)),
    decreases *predicate,
{
    let ghost in_views = refviews(exprs@);
    match predicate {
        PhysicalExpr::Binary { left, op, right } => {
            if *op == Operator::And {
                let mid = split_conjunction_impl(left, exprs);
                let r = split_conjunction_impl(right, mid);
                proof {
                    assert(refviews(r@) =~= in_views + conjuncts(eview(*predicate)));
                }
                r
            } else {
                let mut exprs = exprs;
                exprs.push(predicate);
                proof {
                    assert(refviews(exprs@) =~= in_views + seq![eview(*predicate)]);
                }
                exprs
            }
        },
        _ => {
            let mut exprs = exprs;
            exprs.push(predicate);
            proof {
                assert(refviews(exprs@) =~= in_views + seq![eview(*predicate)]);
            }
            exprs
        },
    }
}

/// Split a predicate in conjunctive normal form into its conjuncts.
pub fn split_conjunction<'a>(predicate: &'a PhysicalExpr) -> (r: Vec<&'a PhysicalExpr>)
    ensures
        refviews(r@) == conjuncts(eview(*predicate)),
{
    let r = split_conjunction_impl(predicate, Vec::new());
    proof {
        assert(refviews(r@) =~= conjuncts(eview(*predicate)));
    }
    r
}

/// The disjuncts of a predicate, left to right: a disjunction splits into
/// the disjuncts of both sides, anything else is a single disjunct.
pub open spec fn disjuncts(e: ExprSpec) -> Seq<ExprSpec>
    decreases e,
{
    match e {
        ExprSpec::Binary { left, op, right } => {
            if op == Operator::Or {
                disjuncts(*left) + disjuncts(*right)
            } else {
                seq![e]
            }
        },
        _ => seq![e],
    }
}

fn split_disjunction_impl<'a>(predicate: &'a PhysicalExpr, exprs: Vec<&'a PhysicalExpr>) -> (r:
    Vec<&'a PhysicalExpr>)
    ensures
        refviews(r@) == refviews(exprs@) + disjuncts(eview(*predicate)),
    decreases *predicate,
{
    let ghost in_views = refviews(exprs@);
    match predicate {
        PhysicalExpr::Binary { left, op, right } => {
            if *op == Operator::Or {
                let mid = split_disjunction_impl(left, exprs);
                let r = split_disjunction_impl(right, mid);
                proof {
                    assert(refviews(r@) =~= in_views + disjuncts(eview(*predicate)));
                }
                r
            } else {
                let mut exprs = exprs;
                exprs.push(predicate);
                proof {
                    assert(refviews(exprs@) =~= in_views + seq![eview(*predicate)]);
                }
                exprs
            }
        },
        _ => {
            let mut exprs = exprs;
            exprs.push(predicate);
            proof {
                assert(refviews(exprs@) =~= in_views + seq![eview(*predicate)]);
            }
            exprs
        },
    }
}

/// Split a predicate in disjunctive normal form into its disjuncts.
pub fn split_disjunction<'a>(predicate: &'a PhysicalExpr) -> (r: Vec<&'a PhysicalExpr>)
    ensures
        refviews(r@) == disjuncts(eview(*predicate)),
{
    let r = split_disjunction_impl(predicate, Vec::new());
    proof {
        assert(refviews(r@) =~= disjuncts(eview(*predicate)));
    }
    r
}

/// The expressions inside a list of sort expressions, in order.
pub fn convert_to_expr(sequence: &Vec<PhysicalSortExpr>) -> (r: Vec<PhysicalExpr>)
    ensures
        r@.len() == sequence@.len(),
        forall|i: int|
            0 <= i < r@.len() ==> eview(#[trigger] r@[i]) == seview(sequence@[i]).expr,
{
    let mut r: Vec<PhysicalExpr> = Vec::new();
    let n = sequence.len();
    let mut i: usize = 0;
    while i < n
        invariant
            0 <= i <= n,
            n == sequence@.len(),
            r@.len() == i,
            forall|j: int|
                0 <= j < i ==> eview(#[trigger] r@[j]) == seview(sequence@[j]).expr,
        decreases n - i,
    {
        r.push(clone_expr(&sequence[i].expr));
        i += 1;
    }
    r
}

/// The index of the first element of `items` equal to `t`, if any.
pub open spec fn first_match(items: Seq<ExprSpec>, t: ExprSpec) -> Option<int>
    decreases items.len(),
{
    if items.len() == 0 {
        None
    } else {
        match first_match(items.drop_last(), t) {
            Some(i) => Some(i),
            None => if items.last() == t {
                Some(items.len() - 1)
            } else {
                None
            },
        }
    }
}

/// A match found in a prefix is the first match of the whole sequence.
proof fn lemma_first_match_extend(items: Seq<ExprSpec>, t: ExprSpec, k: int)
    requires
        0 <= k <= items.len(),
        first_match(items.take(k), t) is Some,
    ensures
        first_match(items, t) == first_match(items.take(k), t),
    decreases items.len(),
{
    if k == items.len() {
        assert(items.take(k) =~= items);
    } else {
        assert(items.drop_last().take(k) =~= items.take(k));
        lemma_first_match_extend(items.drop_last(), t, k);
    }
}

/// No match in a prefix leaves the tail to decide.
proof fn lemma_first_match_none(items: Seq<ExprSpec>, t: ExprSpec)
    requires
        first_match(items, t) is None,
    ensures
        forall|j: int| 0 <= j < items.len() ==> items[j] != t,
    decreases items.len(),
{
    if items.len() > 0 {
        lemma_first_match_none(items.drop_last(), t);
        assert forall|j: int| 0 <= j < items.len() implies items[j] != t by {
            if j < items.len() - 1 {
                assert(items.drop_last()[j] == items[j]);
            }
        }
    }
}

/// Find the first element of `items` equal to `target`.
pub fn find_first_expr(items: &Vec<PhysicalExpr>, target: &PhysicalExpr) -> (r: Option<usize>)
    ensures
        match r {
            Some(i) => i < items@.len() && first_match(eviews(items@), eview(*target)) == Some(
                i as int,
            ),
            None => first_match(eviews(items@), eview(*target)) is None,
        },
{
    let ghost iv = eviews(items@);
    let ghost tv = eview(*target);
    let n = items.len();
    let mut j: usize = 0;
    while j < n
        invariant
            0 <= j <= n,
            n == items@.len(),
            iv == eviews(items@),
            tv == eview(*target),
            iv.len() == n,
            first_match(iv.take(j as int), tv) is None,
        decreases n - j,
    {
        let hit = expr_eq(&items[j], target);
        proof {
            assert(iv[j as int] == eview(items@[j as int]));
            assert(iv.take(j + 1).drop_last() =~= iv.take(j as int));
            assert(iv.take(j + 1).last() == iv[j as int]);
        }
        if hit {
            proof {
                assert(first_match(iv.take(j + 1), tv) == Some(j as int));
                lemma_first_match_extend(iv, tv, j + 1);
            }
            return Some(j);
        }
        j += 1;
    }
    proof {
        assert(iv.take(n as int) =~= iv);
    }
    None
}

/// The indices in `items` of those targets that occur in `items`, by first
/// match, in target order; absent targets contribute nothing.
pub open spec fn strict_indices(targets: Seq<ExprSpec>, items: Seq<ExprSpec>) -> Seq<int>
    decreases targets.len(),
{
    if targets.len() == 0 {
        Seq::empty()
    } else {
        let prefix = strict_indices(targets.drop_last(), items);
        match first_match(items, targets.last()) {
            Some(i) => prefix.push(i),
            None => prefix,
        }
    }
}

/// Find the indices of `targets` within `items` using strict equality.
pub fn get_indices_of_exprs_strict(targets: &Vec<PhysicalExpr>, items: &Vec<PhysicalExpr>) -> (r:
    Vec<usize>)
    ensures
        r@.map_values(|u: usize| u as int) == strict_indices(eviews(targets@), eviews(items@)),
{
    let ghost tv = eviews(targets@);
    let ghost iv = eviews(items@);
    let mut r: Vec<usize> = Vec::new();
    let n = targets.len();
    let mut i: usize = 0;
    while i < n
        invariant
            0 <= i <= n,
            n == targets@.len(),
            tv == eviews(targets@),
            iv == eviews(items@),
            tv.len() == n,
            r@.map_values(|u: usize| u as int) == strict_indices(tv.take(i as int), iv),
        decreases n - i,
    {
        let ghost old_r = r@;
        proof {
            assert(tv.take(i + 1).drop_last() =~= tv.take(i as int));
            assert(tv.take(i + 1).last() == tv[i as int]);
            assert(tv[i as int] == eview(targets@[i as int]));
        }
        match find_first_expr(items, &targets[i]) {
            Some(idx) => {
                r.push(idx);
                proof {
                    assert(r@.map_values(|u: usize| u as int) =~= old_r.map_values(
                        |u: usize| u as int,
                    ).push(idx as int));
                }
            },
            None => {},
        }
        i += 1;
    }
    proof {
        assert(tv.take(n as int) =~= tv);
    }
    r
}

/// Reverse a list of sort expressions: same expressions, each direction
/// and null position flipped.
pub fn reverse_order_bys(order_bys: &Vec<PhysicalSortExpr>) -> (r: Vec<PhysicalSortExpr>)
    ensures
        r@.len() == order_bys@.len(),
        forall|i: int|
            0 <= i < r@.len() ==> seview(#[trigger] r@[i]) == (SortExprV {
                expr: seview(order_bys@[i]).expr,
                options: SortOptions {
                    descending: !seview(order_bys@[i]).options.descending,
                    nulls_first: !seview(order_bys@[i]).options.nulls_first,
                },
            }),
{
    let mut r: Vec<PhysicalSortExpr> = Vec::new();
    let n = order_bys.len();
    let mut i: usize = 0;
    while i < n
        invariant
            0 <= i <= n,
            n == order_bys@.len(),
            r@.len() == i,
            forall|j: int|
                0 <= j < i ==> seview(#[trigger] r@[j]) == (SortExprV {
                    expr: seview(order_bys@[j]).expr,
                    options: SortOptions {
                        descending: !seview(order_bys@[j]).options.descending,
                        nulls_first: !seview(order_bys@[j]).options.nulls_first,
                    },
                }),
        decreases n - i,
    {
        let e = &order_bys[i];
        r.push(PhysicalSortExpr { expr: clone_expr(&e.expr), options: e.options.reversed() });
        i += 1;
    }
    r
}

/// Keep the first occurrence of every sort expression.
pub open spec fn dedup_first(s: Seq<SortExprV>) -> Seq<SortExprV>
    decreases s.len(),
{
    if s.len() == 0 {
        Seq::empty()
    } else {
        let p = dedup_first(s.drop_last());
        if p.contains(s.last()) {
            p
        } else {
            p.push(s.last())
        }
    }
}

/// Whether two sort expressions are equal: same expression, same options.
pub fn sort_expr_eq(a: &PhysicalSortExpr, b: &PhysicalSortExpr) -> (r: bool)
    ensures
        r == (seview(*a) == seview(*b)),
{
    expr_eq(&a.expr, &b.expr) && a.options == b.options
}

/// A copy of a sort expression.
pub fn clone_sort_expr(s: &PhysicalSortExpr) -> (r: PhysicalSortExpr)
    ensures
        seview(r) == seview(*s),
{
    PhysicalSortExpr { expr: clone_expr(&s.expr), options: s.options }
}

/// Append a copy of `cur` unless an equal sort expression is already in
/// `r`; `r` holds the first occurrences of the prefix processed so far.
fn push_if_absent(r: &mut Vec<PhysicalSortExpr>, cur: &PhysicalSortExpr, Ghost(pfx): Ghost<
    Seq<SortExprV>,
>)
    requires
        seviews(old(r)@) == dedup_first(pfx),
    ensures
        seviews(final(r)@) == dedup_first(pfx.push(seview(*cur))),
{
    proof {
        assert(pfx.push(seview(*cur)).drop_last() =~= pfx);
        assert(pfx.push(seview(*cur)).last() == seview(*cur));
    }
    let mut present = false;
    let rl = r.len();
    let mut j: usize = 0;
    while j < rl && !present
        invariant
            0 <= j <= rl,
            rl == r@.len(),
            seviews(r@).len() == rl,
            !present ==> forall|q: int| 0 <= q < j ==> seviews(r@)[q] != seview(*cur),
            present ==> exists|q: int| 0 <= q < rl && seviews(r@)[q] == seview(*cur),
        decreases rl - j + (if present { 0int } else { 1int }),
    {
        if sort_expr_eq(&r[j], cur) {
            proof {
                assert(seviews(r@)[j as int] == seview(r@[j as int]));
            }
            present = true;
        } else {
            proof {
                assert(seviews(r@)[j as int] == seview(r@[j as int]));
            }
            j += 1;
        }
    }
    let ghost old_rv = seviews(r@);
    if !present {
        proof {
            assert(forall|q: int| 0 <= q < rl ==> old_rv[q] != seview(*cur));
            assert(!old_rv.contains(seview(*cur)));
        }
        r.push(clone_sort_expr(cur));
        proof {
            assert(seviews(r@) =~= old_rv.push(seview(*cur)));
        }
    } else {
        proof {
            assert(old_rv.contains(seview(*cur)));
        }
    }
}

/// Merge two lists of sort expressions, dropping duplicates: the result
/// keeps the first occurrence of every sort expression of `left` followed
/// by `right`.
pub fn merge_vectors(left: &Vec<PhysicalSortExpr>, right: &Vec<PhysicalSortExpr>) -> (r: Vec<
    PhysicalSortExpr,
>)
    ensures
        seviews(r@) == dedup_first(seviews(left@) + seviews(right@)),
{
    let ghost all = seviews(left@) + seviews(right@);
    let mut r: Vec<PhysicalSortExpr> = Vec::new();
    proof {
        assert(all.take(0) =~= Seq::<SortExprV>::empty());
    }
    let nl = left.len();
    let mut k: usize = 0;
    while k < nl
        invariant
            0 <= k <= nl,
            nl == left@.len(),
            all == seviews(left@) + seviews(right@),
            seviews(r@) == dedup_first(all.take(k as int)),
        decreases nl - k,
    {
        let cur = &left[k];
        proof {
            assert(all[k as int] == seviews(left@)[k as int]);
            assert(all[k as int] == seview(*cur));
            assert(all.take(k + 1) =~= all.take(k as int).push(seview(*cur)));
        }
        push_if_absent(&mut r, cur, Ghost(all.take(k as int)));
        k += 1;
    }
    let nr = right.len();
    let mut k2: usize = 0;
    while k2 < nr
        invariant
            0 <= k2 <= nr,
            nl == left@.len(),
            nr == right@.len(),
            all == seviews(left@) + seviews(right@),
            seviews(r@) == dedup_first(all.take(nl + k2)),
        decreases nr - k2,
    {
        let cur = &right[k2];
        proof {
            assert(all[nl + k2] == seviews(right@)[k2 as int]);
            assert(all[nl + k2] == seview(*cur));
            assert(all.take(nl + k2 + 1) =~= all.take(nl + k2).push(seview(*cur)));
        }
        push_if_absent(&mut r, cur, Ghost(all.take(nl + k2)));
        k2 += 1;
    }
    proof {
        assert(all.take(nl + nr) =~= all);
    }
    r
}

/// The subexpressions of an expression, left to right.
pub open spec fn child_exprs(e: ExprSpec) -> Seq<ExprSpec> {
    match e {
        ExprSpec::Cast { input, .. } => seq![*input],
        ExprSpec::Binary { left, op, right } => seq![*left, *right],
        ExprSpec::InList { expr, .. } => seq![*expr],
        _ => Seq::empty(),
    }
}

/// A node of an expression tree being rewritten into a DAG: the
/// expression, optional per-node data, and materialized child nodes.
pub struct ExprTreeNode<T> {
    pub expr: PhysicalExpr,
    pub data: Option<T>,
    pub child_nodes: Vec<ExprTreeNode<T>>,
}

impl<T> ExprTreeNode<T> {
    pub fn new(expr: PhysicalExpr) -> (r: Self)
        ensures
            eview(r.expr) == eview(expr),
            r.data is None,
            r.child_nodes@.len() == 0,
    {
        ExprTreeNode { expr, data: None, child_nodes: Vec::new() }
    }

    pub fn expression(&self) -> (r: &PhysicalExpr)
        ensures
            eview(*r) == eview(self.expr),
    {
        &self.expr
    }

    /// Fresh nodes for the direct subexpressions of this node's
    /// expression.
    pub fn children(&self) -> (r: Vec<ExprTreeNode<T>>)
        ensures
            r@.len() == child_exprs(eview(self.expr)).len(),
            forall|i: int|
                0 <= i < r@.len() ==> eview((#[trigger] r@[i]).expr) == child_exprs(
                    eview(self.expr),
                )[i],
    {
        let mut out: Vec<ExprTreeNode<T>> = Vec::new();
        match &self.expr {
            PhysicalExpr::Cast { input, .. } => {
                out.push(ExprTreeNode::new(clone_expr(input)));
            },
            PhysicalExpr::Binary { left, op: _, right } => {
                out.push(ExprTreeNode::new(clone_expr(left)));
                out.push(ExprTreeNode::new(clone_expr(right)));
            },
            PhysicalExpr::InList { expr, .. } => {
                out.push(ExprTreeNode::new(clone_expr(expr)));
            },
            _ => {},
        }
        out
    }
}

/// The mapping a projection induces from source expressions to output
/// columns: entry `i` pairs the `i`-th projected expression with the
/// output column that carries it.
pub struct ProjectionMapping {
    pub inner: Vec<(PhysicalExpr, PhysicalExpr)>,
}

impl ProjectionMapping {
    /// Build the mapping from the projection's expressions and output
    /// names: the target of entry `i` is an output column named after the
    /// projected expression, at index `i`.
    pub fn try_new(exprs: Vec<(PhysicalExpr, String)>) -> (r: Self)
        ensures
            r.inner@.len() == exprs@.len(),
            forall|i: int|
                0 <= i < exprs@.len() ==> eview((#[trigger] r.inner@[i]).0) == eview(
                    exprs@[i].0,
                ),
            forall|i: int|
                0 <= i < exprs@.len() ==> eview((#[trigger] r.inner@[i]).1)
                    == ExprSpec::Column(ColumnV { name: exprs@[i].1@, index: i as nat }),
    {
        let mut inner: Vec<(PhysicalExpr, PhysicalExpr)> = Vec::new();
        let n = exprs.len();
        let mut i: usize = 0;
        while i < n
            invariant
                0 <= i <= n,
                n == exprs@.len(),
                inner@.len() == i,
                forall|j: int|
                    0 <= j < i ==> eview((#[trigger] inner@[j]).0) == eview(exprs@[j].0),
                forall|j: int|
                    0 <= j < i ==> eview((#[trigger] inner@[j]).1) == ExprSpec::Column(
                        ColumnV { name: exprs@[j].1@, index: j as nat },
                    ),
            decreases n - i,
        {
            let (expression, name) = &exprs[i];
            let target = PhysicalExpr::Column(Column::new(name.as_str(), i));
            inner.push((clone_expr(expression), target));
            i += 1;
        }
        ProjectionMapping { inner }
    }

    /// The (source, target) pairs of the mapping, in projection order.
    pub fn iter(&self) -> (r: &Vec<(PhysicalExpr, PhysicalExpr)>)
        ensures
            r@ == self.inner@,
    {
        &self.inner
    }
}

/// A named, typed field of a schema.
pub struct Field {
    pub name: String,
    pub data_type: DataType,
    pub nullable: bool,
}

/// A named schema: the fields of a record, in order.
pub struct Schema {
    pub fields: Vec<Field>,
}

/// The field names of a schema.
pub open spec fn schema_names(s: &Schema) -> Seq<Seq<char>> {
    s.fields@.map_values(|f: Field| f.name@)
}

/// The index of the first field with the given name.
pub open spec fn name_index(names: Seq<Seq<char>>, name: Seq<char>) -> Option<int>
    decreases names.len(),
{
    if names.len() == 0 {
        None
    } else {
        match name_index(names.drop_last(), name) {
            Some(i) => Some(i),
            None => if names.last() == name {
                Some(names.len() - 1)
            } else {
                None
            },
        }
    }
}

impl Schema {
    /// The index of the first field with the given name, if any.
    pub fn index_of(&self, name: &String) -> (r: Option<usize>)
        ensures
            match r {
                Some(i) => name_index(schema_names(self), name@) == Some(i as int),
                None => name_index(schema_names(self), name@) is None,
            },
    {
        let ghost names = schema_names(self);
        let n = self.fields.len();
        proof {
            assert(names.take(0) =~= Seq::<Seq<char>>::empty());
        }
        let mut i: usize = 0;
        while i < n
            invariant
                0 <= i <= n,
                n == self.fields@.len(),
                names == schema_names(self),
                names.len() == n,
                name_index(names.take(i as int), name@) is None,
            decreases n - i,
        {
            proof {
                assert(names[i as int] == self.fields@[i as int].name@);
                assert(names.take(i + 1).drop_last() =~= names.take(i as int));
                assert(names.take(i + 1).last() == names[i as int]);
            }
            if self.fields[i].name == *name {
                proof {
                    assert(name_index(names.take(i + 1), name@) == Some(i as int));
                    lemma_name_index_extend(names, name@, i + 1);
                }
                return Some(i);
            }
            i += 1;
        }
        proof {
            assert(names.take(n as int) =~= names);
        }
        None
    }
}

proof fn lemma_name_index_extend(names: Seq<Seq<char>>, name: Seq<char>, k: int)
    requires
        0 <= k <= names.len(),
        name_index(names.take(k), name) is Some,
    ensures
        name_index(names, name) == name_index(names.take(k), name),
    decreases names.len(),
{
    if k == names.len() {
        assert(names.take(k) =~= names);
    } else {
        assert(names.drop_last().take(k) =~= names.take(k));
        lemma_name_index_extend(names.drop_last(), name, k);
    }
}

/// The projection source column that carries an output name: of the
/// projected expressions that are plain columns, the last one emitted
/// under that name.
pub open spec fn lookup_col(proj: Seq<(ExprSpec, Seq<char>)>, name: Seq<char>) -> Option<ColumnV>
    decreases proj.len(),
{
    if proj.len() == 0 {
        None
    } else if proj.last().1 == name && proj.last().0 is Column {
        Some(proj.last().0->Column_0)
    } else {
        lookup_col(proj.drop_last(), name)
    }
}

/// The columns a requirement list maps back to before a projection: each
/// required plain column whose name a projected column carries, replaced
/// by that projection source column; everything else dropped.
pub open spec fn mapped_columns(
    parent: Seq<ExprSpec>,
    proj: Seq<(ExprSpec, Seq<char>)>,
) -> Seq<ColumnV>
    decreases parent.len(),
{
    if parent.len() == 0 {
        Seq::empty()
    } else {
        let p = mapped_columns(parent.drop_last(), proj);
        match parent.last() {
            ExprSpec::Column(c) => match lookup_col(proj, c.name) {
                Some(t) => p.push(t),
                None => p,
            },
            _ => p,
        }
    }
}

/// The spec-level contents of a projection pair list.
pub open spec fn pviews(l: Seq<(PhysicalExpr, String)>) -> Seq<(ExprSpec, Seq<char>)> {
    l.map_values(|p: (PhysicalExpr, String)| (eview(p.0), p.1@))
}

/// Map a requirement on a projection's output back to the projection's
/// input: column requirements named like a projected column turn into
/// that projection's source column; requirements the projection does not
/// carry are dropped. Assumes column names are unique.
pub fn map_columns_before_projection(
    parent_required: &Vec<PhysicalExpr>,
    proj_exprs: &Vec<(PhysicalExpr, String)>,
) -> (r: Vec<PhysicalExpr>)
    ensures
        r@.map_values(|e: PhysicalExpr| eview(e)) == mapped_columns(
            eviews(parent_required@),
            pviews(proj_exprs@),
        ).map_values(|c: ColumnV| ExprSpec::Column(c)),
{
    let ghost pv = pviews(proj_exprs@);
    let ghost parents = eviews(parent_required@);
    let mut r: Vec<PhysicalExpr> = Vec::new();
    let n = parent_required.len();
    let mut i: usize = 0;
    while i < n
        invariant
            0 <= i <= n,
            n == parent_required@.len(),
            pv == pviews(proj_exprs@),
            parents == eviews(parent_required@),
            parents.len() == n,
            r@.map_values(|e: PhysicalExpr| eview(e)) == mapped_columns(
                parents.take(i as int),
                pv,
            ).map_values(|c: ColumnV| ExprSpec::Column(c)),
        decreases n - i,
    {
        let ghost old_r = r@;
        proof {
            assert(parents.take(i + 1).drop_last() =~= parents.take(i as int));
            assert(parents.take(i + 1).last() == parents[i as int]);
            assert(parents[i as int] == eview(parent_required@[i as int]));
        }
        match &parent_required[i] {
            PhysicalExpr::Column(c) => {
                match find_projected_column(proj_exprs, &c.name) {
                    Some(found) => {
                        r.push(PhysicalExpr::Column(found));
                        proof {
                            let f = |e: PhysicalExpr| eview(e);
                            let g = |c2: ColumnV| ExprSpec::Column(c2);
                            assert(r@.map_values(f) =~= old_r.map_values(f).push(
                                ExprSpec::Column(found.view_spec()),
                            ));
                            assert(mapped_columns(parents.take(i + 1), pv) =~= mapped_columns(
                                parents.take(i as int),
                                pv,
                            ).push(found.view_spec()));
                            assert(r@.map_values(f) =~= mapped_columns(
                                parents.take(i + 1),
                                pv,
                            ).map_values(g));
                        }
                    },
                    None => {},
                }
            },
            _ => {},
        }
        i += 1;
    }
    proof {
        assert(parents.take(n as int) =~= parents);
    }
    r
}

/// The last projected plain column emitted under `name`, if any.
fn find_projected_column(proj_exprs: &Vec<(PhysicalExpr, String)>, name: &String) -> (r: Option<
    Column,
>)
    ensures
        match r {
            Some(c) => lookup_col(pviews(proj_exprs@), name@) == Some(c.view_spec()),
            None => lookup_col(pviews(proj_exprs@), name@) is None,
        },
{
    let ghost pv = pviews(proj_exprs@);
    let n = proj_exprs.len();
    proof {
        assert(pv.take(n as int) =~= pv);
    }
    let mut i: usize = n;
    while i > 0
        invariant
            0 <= i <= n,
            n == proj_exprs@.len(),
            pv == pviews(proj_exprs@),
            pv.len() == n,
            lookup_col(pv, name@) == lookup_col(pv.take(i as int), name@),
        decreases i,
    {
        i -= 1;
        proof {
            assert(pv.take(i + 1).drop_last() =~= pv.take(i as int));
            assert(pv.take(i + 1).last() == pv[i as int]);
            assert(pv[i as int] == (eview(proj_exprs@[i as int].0), proj_exprs@[i as int].1@));
        }
        let (expression, pname) = &proj_exprs[i];
        if *pname == *name {
            match expression {
                PhysicalExpr::Column(c) => {
                    proof {
                        assert(pv[i as int].0 is Column);
                        assert(pv[i as int].0->Column_0 == c.view_spec());
                        assert(lookup_col(pv.take(i + 1), name@) == Some(c.view_spec()));
                    }
                    return Some(c.duplicate());
                },
                _ => {},
            }
        }
        proof {
            if !(pv[i as int].1 == name@ && pv[i as int].0 is Column) {
                assert(lookup_col(pv.take(i + 1), name@) == lookup_col(pv.take(i as int), name@));
            }
        }
    }
    proof {
        assert(pv.take(0) =~= Seq::<(ExprSpec, Seq<char>)>::empty());
    }
    None
}

/// The spec-level contents of a list of column references.
pub open spec fn cviews(l: Seq<Column>) -> Seq<ColumnV> {
    l.map_values(|c: Column| c.view_spec())
}

/// The column references inside an expression, in depth-first visit
/// order, duplicates included.
pub open spec fn columns_of(e: ExprSpec) -> Seq<ColumnV>
    decreases e,
{
    match e {
        ExprSpec::Column(c) => seq![c],
        ExprSpec::UnknownColumn(_) => Seq::empty(),
        ExprSpec::Literal(_) => Seq::empty(),
        ExprSpec::Cast { input, .. } => columns_of(*input),
        ExprSpec::Binary { left, op, right } => columns_of(*left) + columns_of(*right),
        ExprSpec::InList { expr, .. } => columns_of(*expr),
    }
}

/// Insert every column of `s` into `acc`, in order, keeping only first
/// occurrences.
pub open spec fn dedup_into(acc: Seq<ColumnV>, s: Seq<ColumnV>) -> Seq<ColumnV>
    decreases s.len(),
{
    if s.len() == 0 {
        acc
    } else {
        let p = dedup_into(acc, s.drop_last());
        if p.contains(s.last()) {
            p
        } else {
            p.push(s.last())
        }
    }
}

proof fn lemma_dedup_into_concat(acc: Seq<ColumnV>, x: Seq<ColumnV>, y: Seq<ColumnV>)
    ensures
        dedup_into(acc, x + y) == dedup_into(dedup_into(acc, x), y),
    decreases y.len(),
{
    if y.len() == 0 {
        assert(x + y =~= x);
    } else {
        assert((x + y).drop_last() =~= x + y.drop_last());
        assert((x + y).last() == y.last());
        lemma_dedup_into_concat(acc, x, y.drop_last());
    }
}

fn collect_columns_into(e: &PhysicalExpr, acc: &mut Vec<Column>)
    ensures
        cviews(final(acc)@) == dedup_into(cviews(old(acc)@), columns_of(eview(*e))),
    decreases *e,
{
    match e {
        PhysicalExpr::Column(c) => {
            proof {
                assert(seq![c.view_spec()].drop_last() =~= Seq::<ColumnV>::empty());
                assert(dedup_into(cviews(acc@), Seq::<ColumnV>::empty()) == cviews(acc@));
            }
            let mut present = false;
            let n = acc.len();
            let mut j: usize = 0;
            while j < n && !present
                invariant
                    0 <= j <= n,
                    n == acc@.len(),
                    !present ==> forall|q: int|
                        0 <= q < j ==> (#[trigger] cviews(acc@)[q]) != c.view_spec(),
                    present ==> exists|q: int|
                        0 <= q < n && (#[trigger] cviews(acc@)[q]) == c.view_spec(),
                decreases n - j + (if present { 0int } else { 1int }),
            {
                let hit = acc[j].name == c.name && acc[j].index == c.index;
                proof {
                    assert(cviews(acc@)[j as int] == acc@[j as int].view_spec());
                }
                if hit {
                    present = true;
                } else {
                    j += 1;
                }
            }
            let ghost old_view = cviews(acc@);
            if !present {
                proof {
                    assert(forall|q: int|
                        0 <= q < n ==> (#[trigger] old_view[q]) != c.view_spec());
                    assert(!old_view.contains(c.view_spec()));
                }
                acc.push(c.duplicate());
                proof {
                    assert(cviews(acc@) =~= old_view.push(c.view_spec()));
                }
            } else {
                proof {
                    assert(old_view.contains(c.view_spec()));
                }
            }
        },
        PhysicalExpr::UnknownColumn(_) => {
            proof {
                assert(dedup_into(cviews(acc@), Seq::<ColumnV>::empty()) == cviews(acc@));
            }
        },
        PhysicalExpr::Literal(_) => {
            proof {
                assert(dedup_into(cviews(acc@), Seq::<ColumnV>::empty()) == cviews(acc@));
            }
        },
        PhysicalExpr::Cast { input, .. } => {
            collect_columns_into(input, acc);
        },
        PhysicalExpr::Binary { left, op: _, right } => {
            let ghost base = cviews(acc@);
            collect_columns_into(left, acc);
            collect_columns_into(right, acc);
            proof {
                lemma_dedup_into_concat(
                    base,
                    columns_of(eview(**left)),
                    columns_of(eview(**right)),
                );
            }
        },
        PhysicalExpr::InList { expr, .. } => {
            collect_columns_into(expr, acc);
        },
    }
}

/// The distinct column references inside an expression, in first-visit
/// order.
pub fn collect_columns(expr: &PhysicalExpr) -> (r: Vec<Column>)
    ensures
        cviews(r@) == dedup_into(Seq::empty(), columns_of(eview(*expr))),
{
    let mut acc: Vec<Column> = Vec::new();
    proof {
        assert(cviews(acc@) =~= Seq::<ColumnV>::empty());
    }
    collect_columns_into(expr, &mut acc);
    acc
}

/// An expression with every column's index re-assigned by name against a
/// schema: `None` when a column's name is not in the schema and misses
/// are not ignored; an ignored miss takes the largest index.
pub open spec fn reassign_spec(e: ExprSpec, names: Seq<Seq<char>>, ignore: bool) -> Option<
    ExprSpec,
>
    decreases e,
{
    match e {
        ExprSpec::Column(c) => match name_index(names, c.name) {
            Some(i) => Some(ExprSpec::Column(ColumnV { name: c.name, index: i as nat })),
            None => if ignore {
                Some(ExprSpec::Column(ColumnV { name: c.name, index: usize::MAX as nat }))
            } else {
                None
            },
        },
        ExprSpec::Cast { input, to } => match reassign_spec(*input, names, ignore) {
            Some(inner) => Some(ExprSpec::Cast { input: Box::new(inner), to }),
            None => None,
        },
        ExprSpec::Binary { left, op, right } => match reassign_spec(*left, names, ignore) {
            Some(l2) => match reassign_spec(*right, names, ignore) {
                Some(r2) => Some(
                    ExprSpec::Binary { left: Box::new(l2), op, right: Box::new(r2) },
                ),
                None => None,
            },
            None => None,
        },
        ExprSpec::InList { expr, list, negated } => match reassign_spec(*expr, names, ignore) {
            Some(inner) => Some(ExprSpec::InList { expr: Box::new(inner), list, negated }),
            None => None,
        },
        _ => Some(e),
    }
}

/// Re-assign the column indices referenced in a predicate according to
/// the given schema, by field name. Fails exactly when a referenced name
/// is missing from the schema and misses are not ignored; an ignored
/// miss takes the largest index.
pub fn reassign_predicate_columns(
    pred: &PhysicalExpr,
    schema: &Schema,
    ignore_not_found: bool,
) -> (r: Result<PhysicalExpr, crate::error::ExecError>)
    ensures
        match r {
            Ok(e) => reassign_spec(eview(*pred), schema_names(schema), ignore_not_found) == Some(
                eview(e),
            ),
            Err(err) => reassign_spec(eview(*pred), schema_names(schema), ignore_not_found)
                is None && err == crate::error::ExecError::InvalidInput,
        },
    decreases *pred,
{
    match pred {
        PhysicalExpr::Column(c) => match schema.index_of(&c.name) {
            Some(i) => Ok(PhysicalExpr::Column(Column { name: c.name.clone(), index: i })),
            None => {
                if ignore_not_found {
                    Ok(PhysicalExpr::Column(Column { name: c.name.clone(), index: usize::MAX }))
                } else {
                    Err(crate::error::ExecError::InvalidInput)
                }
            },
        },
        PhysicalExpr::UnknownColumn(u) => Ok(
            PhysicalExpr::UnknownColumn(UnKnownColumn { name: u.name.clone() }),
        ),
        PhysicalExpr::Literal(s) => Ok(PhysicalExpr::Literal(clone_scalar(s))),
        PhysicalExpr::Cast { input, to } => match reassign_predicate_columns(
            input,
            schema,
            ignore_not_found,
        ) {
            Ok(inner) => Ok(PhysicalExpr::Cast { input: Box::new(inner), to: *to }),
            Err(e) => Err(e),
        },
        PhysicalExpr::Binary { left, op, right } => match reassign_predicate_columns(
            left,
            schema,
            ignore_not_found,
        ) {
            Ok(l2) => match reassign_predicate_columns(right, schema, ignore_not_found) {
                Ok(r2) => Ok(
                    PhysicalExpr::Binary { left: Box::new(l2), op: *op, right: Box::new(r2) },
                ),
                Err(e) => Err(e),
            },
            Err(e) => Err(e),
        },
        PhysicalExpr::InList { expr, list, negated } => match reassign_predicate_columns(
            expr,
            schema,
            ignore_not_found,
        ) {
            Ok(inner) => {
                let mut copy: Vec<ScalarValue> = Vec::new();
                let n = list.len();
                let mut i: usize = 0;
                while i < n
                    invariant
                        0 <= i <= n,
                        n == list@.len(),
                        copy@.len() == i,
                        forall|j: int|
                            0 <= j < i ==> sview(#[trigger] copy@[j]) == sview(list@[j]),
                    decreases n - i,
                {
                    copy.push(clone_scalar(&list[i]));
                    i += 1;
                }
                proof {
                    let f = |s: ScalarValue| sview(s);
                    assert(copy@.map_values(f) =~= list@.map_values(f));
                }
                Ok(PhysicalExpr::InList { expr: Box::new(inner), list: copy, negated: *negated })
            },
            Err(e) => Err(e),
        },
    }
}

} // verus!
