//! Literal guarantees deduced from a boolean predicate: columns that are
//! known to take, or to avoid, one of a set of constant values wherever
//! the predicate is true. A conjunct `a = 1` pins `a` to {1}; a disjunct
//! chain `a = 1 OR a = 2` pins `a` to {1, 2}; `a != 1 AND a != 2`
//! excludes {1, 2}; conflicting conjuncts such as `a = 1 AND a = 2`
//! cancel the guarantee for that column and operator.

use vstd::prelude::*;

use crate::exprs::{
    clone_scalar, conjuncts, disjuncts, eview, refviews, scalar_eq, split_conjunction, split_disjunction,
    sview, Column, ColumnV, ExprSpec, Operator, PhysicalExpr, ScalarSpec, ScalarValue,
};

verus! {

/// Whether the column is known to be in, or not in, the literal set.
#[derive(Clone, Copy, PartialEq, Eq, Structural, Debug)]
pub enum Guarantee {
    /// The column is one of the literals.
    In,
    /// The column is none of the literals.
    NotIn,
}

/// A column known to take (or to avoid) one of a set of literal values
/// wherever the analyzed predicate holds.
pub struct LiteralGuarantee {
    pub column: Column,
    pub guarantee: Guarantee,
    /// The literal set, kept in first-appearance order without duplicates.
    pub literals: Vec<ScalarValue>,
}

/// Spec-level value of a literal guarantee.
pub ghost struct GuaranteeV {
    pub column: ColumnV,
    pub guarantee: Guarantee,
    pub literals: Seq<ScalarSpec>,
}

/// The spec-level contents of a list of scalar literals.
pub open spec fn svals(l: Seq<ScalarValue>) -> Seq<ScalarSpec> {
    l.map_values(|s: ScalarValue| sview(s))
}

impl LiteralGuarantee {
    /// The spec-level contents.
    pub open spec fn view_spec(&self) -> GuaranteeV {
        GuaranteeV {
            column: self.column.view_spec(),
            guarantee: self.guarantee,
            literals: svals(self.literals@),
        }
    }

    /// No literal appears twice.
    pub open spec fn wf(&self) -> bool {
        forall|i: int, j: int|
            0 <= i < j < self.literals@.len() ==> sview(self.literals@[i]) != sview(
                self.literals@[j],
            )
    }
}

/// A conjunct of the shape `col <op> literal` or `literal <op> col`,
/// read as the column, the operator and the literal.
pub open spec fn col_op_lit_spec(e: ExprSpec) -> Option<(ColumnV, Operator, ScalarSpec)> {
    match e {
        ExprSpec::Binary { left, op, right } => match (*left, *right) {
            (ExprSpec::Column(c), ExprSpec::Literal(l)) => Some((c, op, l)),
            (ExprSpec::Literal(l), ExprSpec::Column(c)) => Some((c, op, l)),
            _ => None,
        },
        _ => None,
    }
}

/// The `col <op> literal` readings of the disjuncts, in order, skipping
/// disjuncts of any other shape.
pub open spec fn lit_terms(ds: Seq<ExprSpec>) -> Seq<(ColumnV, Operator, ScalarSpec)>
    decreases ds.len(),
{
    if ds.len() == 0 {
        Seq::empty()
    } else {
        let rest = lit_terms(ds.drop_last());
        match col_op_lit_spec(ds.last()) {
            Some(t) => rest + seq![t],
            None => rest,
        }
    }
}

/// The first appearance of each value, in order.
pub open spec fn dedup_keep_first(s: Seq<ScalarSpec>) -> Seq<ScalarSpec>
    decreases s.len(),
{
    if s.len() == 0 {
        Seq::empty()
    } else {
        let rest = dedup_keep_first(s.drop_last());
        if rest.contains(s.last()) {
            rest
        } else {
            rest + seq![s.last()]
        }
    }
}

/// The analysis state: one slot per guarantee met so far, `None` once a
/// later conjunct has cancelled it, keyed by column and operator.
pub ghost struct BuilderV {
    pub slots: Seq<Option<GuaranteeV>>,
    pub keys: Seq<(ColumnV, Operator)>,
}

/// No key appears twice.
pub open spec fn keys_unique(keys: Seq<(ColumnV, Operator)>) -> bool {
    forall|i: int, j: int| 0 <= i < j < keys.len() ==> keys[i] != keys[j]
}

/// Fold one `col <op> (value OR value OR ...)` group into the state:
/// a new supported guarantee opens a slot; a repeated key narrows,
/// extends or cancels the slot it named.
pub open spec fn builder_step(
    b: BuilderV,
    col: ColumnV,
    op: Operator,
    vals: Seq<ScalarSpec>,
) -> BuilderV {
    let key = (col, op);
    if exists|i: int| 0 <= i < b.keys.len() && b.keys[i] == key {
        let i = choose|i: int| 0 <= i < b.keys.len() && b.keys[i] == key;
        match b.slots[i] {
            None => b,
            Some(g) => match g.guarantee {
                Guarantee::NotIn => {
                    if dedup_keep_first(vals).len() == 1 {
                        let v = dedup_keep_first(vals)[0];
                        let lits = if g.literals.contains(v) {
                            g.literals
                        } else {
                            g.literals.push(v)
                        };
                        BuilderV {
                            slots: b.slots.update(
                                i,
                                Some(
                                    GuaranteeV {
                                        column: g.column,
                                        guarantee: g.guarantee,
                                        literals: lits,
                                    },
                                ),
                            ),
                            keys: b.keys,
                        }
                    } else {
                        b
                    }
                },
                Guarantee::In => {
                    if forall|k: int| 0 <= k < vals.len() ==> g.literals.contains(#[trigger] vals[k]) {
                        b
                    } else {
                        BuilderV { slots: b.slots.update(i, None), keys: b.keys }
                    }
                },
            },
        }
    } else if op == Operator::Eq {
        BuilderV {
            slots: b.slots.push(
                Some(
                    GuaranteeV {
                        column: col,
                        guarantee: Guarantee::In,
                        literals: dedup_keep_first(vals),
                    },
                ),
            ),
            keys: b.keys.push(key),
        }
    } else if op == Operator::NotEq && dedup_keep_first(vals).len() == 1 {
        BuilderV {
            slots: b.slots.push(
                Some(
                    GuaranteeV {
                        column: col,
                        guarantee: Guarantee::NotIn,
                        literals: dedup_keep_first(vals),
                    },
                ),
            ),
            keys: b.keys.push(key),
        }
    } else {
        b
    }
}

/// Fold one conjunct into the state: a plain `col <op> literal` counts
/// as itself; a disjunction counts only if every disjunct compares the
/// same column with the same operator to a literal; anything else says
/// nothing.
pub open spec fn conjunct_step(b: BuilderV, e: ExprSpec) -> BuilderV {
    match col_op_lit_spec(e) {
        Some(t) => builder_step(b, t.0, t.1, seq![t.2]),
        None => {
            let ds = disjuncts(e);
            let ts = lit_terms(ds);
            if ts.len() == 0 || ts.len() != ds.len() {
                b
            } else if forall|k: int|
                0 <= k < ts.len() ==> (#[trigger] ts[k]).0.name == ts[0].0.name && ts[k].1
                    == ts[0].1 {
                builder_step(b, ts[0].0, ts[0].1, Seq::new(ts.len(), |k: int| ts[k].2))
            } else {
                b
            }
        },
    }
}

/// The state after folding every conjunct, left to right.
pub open spec fn analyze_fold(conjs: Seq<ExprSpec>) -> BuilderV
    decreases conjs.len(),
{
    if conjs.len() == 0 {
        BuilderV { slots: Seq::empty(), keys: Seq::empty() }
    } else {
        conjunct_step(analyze_fold(conjs.drop_last()), conjs.last())
    }
}

/// The surviving guarantees, in the order their slots were opened.
pub open spec fn built(slots: Seq<Option<GuaranteeV>>) -> Seq<GuaranteeV>
    decreases slots.len(),
{
    if slots.len() == 0 {
        Seq::empty()
    } else {
        built(slots.drop_last()) + match slots.last() {
            Some(g) => seq![g],
            None => Seq::empty(),
        }
    }
}

/// A list of scalars has one distinct value exactly when every element
/// equals the first; that value is then the first.
proof fn lemma_dedup_single(s: Seq<ScalarSpec>)
    requires
        s.len() >= 1,
    ensures
        (dedup_keep_first(s).len() == 1) <==> (forall|k: int|
            0 <= k < s.len() ==> #[trigger] s[k] == s[0]),
        (forall|k: int| 0 <= k < s.len() ==> #[trigger] s[k] == s[0])
            ==> dedup_keep_first(s)[0] == s[0],
    decreases s.len(),
{
    if s.len() == 1 {
        assert(dedup_keep_first(s.drop_last()).len() == 0);
        assert(dedup_keep_first(s) =~= seq![s[0]]);
    } else {
        lemma_dedup_single(s.drop_last());
        let rest = dedup_keep_first(s.drop_last());
        if forall|k: int| 0 <= k < s.len() ==> #[trigger] s[k] == s[0] {
            assert(forall|k: int|
                0 <= k < s.len() - 1 ==> #[trigger] s.drop_last()[k] == s.drop_last()[0]);
            assert(rest.len() == 1 && rest[0] == s[0]);
            assert(rest.contains(s.last())) by {
                assert(rest[0] == s.last());
            }
        } else {
            if dedup_keep_first(s).len() == 1 {
                // every element of the list appears in its deduplication
                assert forall|k: int| 0 <= k < s.len() implies #[trigger] s[k] == s[0] by {
                    lemma_dedup_contains(s, k);
                    lemma_dedup_contains(s, 0);
                    let a = choose|w: int|
                        0 <= w < dedup_keep_first(s).len() && dedup_keep_first(s)[w] == s[k];
                    let b = choose|w: int|
                        0 <= w < dedup_keep_first(s).len() && dedup_keep_first(s)[w] == s[0];
                    assert(a == 0 && b == 0);
                }
            }
        }
    }
}

/// Every element of a list appears in its deduplication.
proof fn lemma_dedup_contains(s: Seq<ScalarSpec>, k: int)
    requires
        0 <= k < s.len(),
    ensures
        dedup_keep_first(s).contains(s[k]),
    decreases s.len(),
{
    let rest = dedup_keep_first(s.drop_last());
    if k == s.len() - 1 {
        if rest.contains(s.last())  {
        } else {
            assert(dedup_keep_first(s).last() == s.last());
        }
    } else {
        lemma_dedup_contains(s.drop_last(), k);
        assert(s.drop_last()[k] == s[k]);
        if !rest.contains(s.last()) {
            let w = choose|w: int| 0 <= w < rest.len() && rest[w] == s[k];
            assert(dedup_keep_first(s)[w] == s[k]);
        }
    }
}

/// The running analysis state.
struct GuaranteeBuilder {
    slots: Vec<Option<LiteralGuarantee>>,
    keys: Vec<(Column, Operator)>,
}

/// The spec-level contents of the key list.
pub open spec fn kviews(keys: Seq<(Column, Operator)>) -> Seq<(ColumnV, Operator)> {
    keys.map_values(|k: (Column, Operator)| (k.0.view_spec(), k.1))
}

/// The spec-level contents of the slot list.
pub open spec fn slot_views(slots: Seq<Option<LiteralGuarantee>>) -> Seq<Option<GuaranteeV>> {
    slots.map_values(
        |s: Option<LiteralGuarantee>|
            match s {
                Some(g) => Some(g.view_spec()),
                None => None,
            },
    )
}

impl GuaranteeBuilder {
    /// The spec-level analysis state.
    spec fn view_spec(&self) -> BuilderV {
        BuilderV { slots: slot_views(self.slots@), keys: kviews(self.keys@) }
    }

    /// One key per slot, no key twice, every open slot deduplicated.
    spec fn wf(&self) -> bool {
        &&& self.slots@.len() == self.keys@.len()
        &&& keys_unique(kviews(self.keys@))
        &&& forall|i: int|
            0 <= i < self.slots@.len() ==> ((#[trigger] self.slots@[i]) matches Some(g) ==> g.wf())
    }
}

/// A conjunct of the shape `col <op> literal` or `literal <op> col`.
fn col_op_lit<'a>(e: &'a PhysicalExpr) -> (r: Option<(&'a Column, Operator, &'a ScalarValue)>)
    ensures
        match r {
            Some(t) => col_op_lit_spec(eview(*e)) == Some((t.0.view_spec(), t.1, sview(*t.2))),
            None => col_op_lit_spec(eview(*e)) is None,
        },
{
    match e {
        PhysicalExpr::Binary { left, op, right } => {
            proof {
                assert(eview(*e) == ExprSpec::Binary {
                    left: Box::new(eview(**left)),
                    op: *op,
                    right: Box::new(eview(**right)),
                });
            }
            match &**left {
                PhysicalExpr::Column(c) => match &**right {
                    PhysicalExpr::Literal(l) => {
                        proof {
                            assert(eview(**left) == ExprSpec::Column(c.view_spec()));
                            assert(eview(**right) == ExprSpec::Literal(sview(*l)));
                        }
                        Some((c, *op, l))
                    },
                    _ => None,
                },
                PhysicalExpr::Literal(l) => match &**right {
                    PhysicalExpr::Column(c) => {
                        proof {
                            assert(eview(**left) == ExprSpec::Literal(sview(*l)));
                            assert(eview(**right) == ExprSpec::Column(c.view_spec()));
                        }
                        Some((c, *op, l))
                    },
                    _ => None,
                },
                _ => None,
            }
        },
        _ => None,
    }
}

impl GuaranteeBuilder {
    fn new() -> (r: Self)
        ensures
            r.wf(),
            r.view_spec() == (BuilderV {
                slots: Seq::<Option<GuaranteeV>>::empty(),
                keys: Seq::<(ColumnV, Operator)>::empty(),
            }),
    {
        let r = GuaranteeBuilder { slots: Vec::new(), keys: Vec::new() };
        proof {
            assert(slot_views(r.slots@) =~= Seq::<Option<GuaranteeV>>::empty());
            assert(kviews(r.keys@) =~= Seq::<(ColumnV, Operator)>::empty());
        }
        r
    }

    /// Fold one `col <op> values` group into the state.
    fn step(&mut self, col: &Column, op: Operator, vals: &Vec<ScalarValue>)
        requires
            old(self).wf(),
            vals@.len() >= 1,
        ensures
            final(self).wf(),
            final(self).view_spec() == builder_step(
                old(self).view_spec(),
                col.view_spec(),
                op,
                svals(vals@),
            ),
    {
        let ghost key = (col.view_spec(), op);
        let ghost b0 = self.view_spec();
        // find the slot this key already names, if any
        let n = self.keys.len();
        let mut w: usize = 0;
        let mut found = false;
        while w < n && !found
            invariant
                0 <= w <= n,
                n == self.keys@.len(),
                key == (col.view_spec(), op),
                !found ==> forall|u: int| 0 <= u < w ==> kviews(self.keys@)[u] != key,
                found ==> (w < n && kviews(self.keys@)[w as int] == key),
            decreases n - w + (if found {
                0int
            } else {
                1int
            }),
        {
            let k = &self.keys[w];
            let same_op = k.1 == op;
            let same_idx = k.0.index == col.index;
            let same_name = k.0.name == col.name;
            let same = same_op && same_idx && same_name;
            proof {
                assert(*k == self.keys@[w as int]);
                assert(kviews(self.keys@)[w as int] == (
                    self.keys@[w as int].0.view_spec(),
                    self.keys@[w as int].1,
                ));
                if same {
                    assert(k.1 == op);
                    assert(k.0.index == col.index);
                    assert(k.0.name@ == col.name@);
                    assert(k.0.view_spec() == col.view_spec());
                    assert(key == (col.view_spec(), op));
                    assert(kviews(self.keys@)[w as int] == key);
                } else {
                    if k.0.view_spec() == col.view_spec() && k.1 == op {
                        assert(k.0.name@ == col.name@);
                        assert(k.0.index == col.index);
                        assert(same_name && same_idx && same_op);
                        assert(false);
                    }
                    assert(kviews(self.keys@)[w as int] != key);
                }
            }
            if same {
                found = true;
            } else {
                w += 1;
            }
        }
        // whether the values hold a single distinct literal, and whether
        // each appears in a slot's literal set, decide every branch below
        if found {
            proof {
                assert(b0.keys[w as int] == key);
                assert(exists|i: int| 0 <= i < b0.keys.len() && b0.keys[i] == key);
                let i = choose|i: int| 0 <= i < b0.keys.len() && b0.keys[i] == key;
                if i != w as int {
                    if i < w as int {
                        assert(b0.keys[i] != b0.keys[w as int]);
                    } else {
                        assert(b0.keys[w as int] != b0.keys[i]);
                    }
                }
                assert(i == w as int);
            }
            let slot_open = self.slots[w].is_some();
            if !slot_open {
                return ;
            }
            let is_not_in = match self.slots[w].as_ref().unwrap().guarantee {
                Guarantee::NotIn => true,
                Guarantee::In => false,
            };
            if is_not_in {
                // a single distinct value extends the exclusion set
                let mut all_same = true;
                let m = vals.len();
                let mut k: usize = 1;
                while k < m
                    invariant
                        1 <= k <= m,
                        m == vals@.len(),
                        all_same == (forall|u: int|
                            0 <= u < k ==> #[trigger] svals(vals@)[u] == svals(vals@)[0]),
                    decreases m - k,
                {
                    if !scalar_eq(&vals[k], &vals[0]) {
                        proof {
                            assert(svals(vals@)[k as int] != svals(vals@)[0]);
                        }
                        all_same = false;
                    }
                    k += 1;
                }
                proof {
                    lemma_dedup_single(svals(vals@));
                }
                if !all_same {
                    return ;
                }
                // look for the value among the kept literals
                let g = self.slots[w].as_ref().unwrap();
                let ghost lits0 = svals(g.literals@);
                let ml = g.literals.len();
                let mut present = false;
                let mut u: usize = 0;
                while u < ml && !present
                    invariant
                        0 <= u <= ml,
                        ml == g.literals@.len(),
                        lits0 == svals(g.literals@),
                        vals@.len() >= 1,
                        !present ==> forall|t: int| 0 <= t < u ==> lits0[t] != sview(vals@[0]),
                        present ==> lits0.contains(sview(vals@[0])),
                    decreases ml - u + (if present {
                        0int
                    } else {
                        1int
                    }),
                {
                    proof {
                        assert(lits0[u as int] == sview(g.literals@[u as int]));
                    }
                    if scalar_eq(&g.literals[u], &vals[0]) {
                        present = true;
                        proof {
                            assert(lits0.contains(sview(vals@[0])));
                        }
                    } else {
                        u += 1;
                    }
                }
                if present {
                    proof {
                        let b1 = builder_step(b0, col.view_spec(), op, svals(vals@));
                        assert(b1.slots =~= b0.slots.update(
                            w as int,
                            Some(b0.slots[w as int]->Some_0),
                        ));
                        assert(b1.slots =~= b0.slots);
                        assert(self.view_spec() =~= b1);
                    }
                    return ;
                }
                proof {
                    assert(!lits0.contains(sview(vals@[0])));
                }
                let extended = clone_scalar(&vals[0]);
                proof {
                    assert(w < self.slots@.len());
                }
                let entry = self.slots[w].as_mut().unwrap();
                entry.literals.push(extended);
                proof {
                    assert((old(self).slots@[w as int]) matches Some(gg) ==> gg.wf());
                    let g1 = self.slots@[w as int]->Some_0;
                    assert(svals(g1.literals@) =~= lits0.push(sview(vals@[0])));
                    assert forall|i2: int, j2: int|
                        0 <= i2 < j2 < g1.literals@.len() implies sview(g1.literals@[i2])
                        != sview(g1.literals@[j2]) by {
                        assert(svals(g1.literals@)[i2] == sview(g1.literals@[i2]));
                        assert(svals(g1.literals@)[j2] == sview(g1.literals@[j2]));
                        assert(lits0[i2] == sview(g.literals@[i2]));
                        if j2 == g1.literals@.len() - 1 {
                            assert(lits0[i2] != sview(vals@[0]));
                        } else {
                            assert(lits0[j2] == sview(g.literals@[j2]));
                            assert(sview(g.literals@[i2]) != sview(g.literals@[j2]));
                        }
                    }
                    assert(g1.wf());
                    let b1 = builder_step(b0, col.view_spec(), op, svals(vals@));
                    assert(slot_views(self.slots@) =~= b1.slots);
                    assert(self.view_spec() =~= b1);
                }
            } else {
                // an `In` slot survives only if every value is already kept
                let g = self.slots[w].as_ref().unwrap();
                let ghost lits0 = svals(g.literals@);
                let m = vals.len();
                let mut all_in = true;
                let mut k: usize = 0;
                while k < m
                    invariant
                        0 <= k <= m,
                        m == vals@.len(),
                        lits0 == svals(g.literals@),
                        all_in == (forall|t: int|
                            0 <= t < k ==> lits0.contains(#[trigger] svals(vals@)[t])),
                    decreases m - k,
                {
                    let ml = g.literals.len();
                    let mut present = false;
                    let mut u: usize = 0;
                    while u < ml && !present
                        invariant
                            0 <= u <= ml,
                            k < m,
                            m == vals@.len(),
                            ml == g.literals@.len(),
                            lits0 == svals(g.literals@),
                            !present ==> forall|t: int|
                                0 <= t < u ==> lits0[t] != sview(vals@[k as int]),
                            present ==> lits0.contains(sview(vals@[k as int])),
                        decreases ml - u + (if present {
                            0int
                        } else {
                            1int
                        }),
                    {
                        proof {
                            assert(lits0[u as int] == sview(g.literals@[u as int]));
                        }
                        if scalar_eq(&g.literals[u], &vals[k]) {
                            present = true;
                            proof {
                                assert(lits0.contains(sview(vals@[k as int])));
                            }
                        } else {
                            u += 1;
                        }
                    }
                    proof {
                        if !present {
                            assert(!lits0.contains(sview(vals@[k as int])));
                        }
                        assert(svals(vals@)[k as int] == sview(vals@[k as int]));
                    }
                    if !present {
                        all_in = false;
                    }
                    k += 1;
                }
                if all_in {
                    proof {
                        let b1 = builder_step(b0, col.view_spec(), op, svals(vals@));
                        assert(self.view_spec() =~= b1);
                    }
                } else {
                    proof {
                        assert(w < self.slots@.len());
                    }
                    self.slots[w] = None;
                    proof {
                        let b1 = builder_step(b0, col.view_spec(), op, svals(vals@));
                        assert(slot_views(self.slots@) =~= b1.slots);
                        assert(self.view_spec() =~= b1);
                    }
                }
            }
        } else {
            proof {
                assert(forall|u: int| 0 <= u < b0.keys.len() ==> b0.keys[u] != key);
            }
            let is_eq = op == Operator::Eq;
            let is_neq = op == Operator::NotEq;
            if !is_eq && !is_neq {
                return ;
            }
            // keep the first appearance of each value
            let m = vals.len();
            let mut lits: Vec<ScalarValue> = Vec::new();
            let mut k: usize = 0;
            while k < m
                invariant
                    0 <= k <= m,
                    m == vals@.len(),
                    svals(lits@) == dedup_keep_first(svals(vals@).take(k as int)),
                    forall|i: int, j: int|
                        0 <= i < j < lits@.len() ==> sview(lits@[i]) != sview(lits@[j]),
                decreases m - k,
            {
                let ghost lv = svals(lits@);
                let ml = lits.len();
                let mut present = false;
                let mut u: usize = 0;
                while u < ml && !present
                    invariant
                        0 <= u <= ml,
                        k < m,
                        m == vals@.len(),
                        ml == lits@.len(),
                        lv == svals(lits@),
                        !present ==> forall|t: int| 0 <= t < u ==> lv[t] != sview(vals@[k as int]),
                        present ==> lv.contains(sview(vals@[k as int])),
                    decreases ml - u + (if present {
                        0int
                    } else {
                        1int
                    }),
                {
                    proof {
                        assert(lv[u as int] == sview(lits@[u as int]));
                    }
                    if scalar_eq(&lits[u], &vals[k]) {
                        present = true;
                        proof {
                            assert(lv.contains(sview(vals@[k as int])));
                        }
                    } else {
                        u += 1;
                    }
                }
                proof {
                    assert(svals(vals@).take(k + 1).drop_last() =~= svals(vals@).take(k as int));
                    assert(svals(vals@).take(k + 1).last() == sview(vals@[k as int]));
                }
                if !present {
                    proof {
                        assert(!lv.contains(sview(vals@[k as int])));
                    }
                    lits.push(clone_scalar(&vals[k]));
                    proof {
                        assert(svals(lits@) =~= lv.push(sview(vals@[k as int])));
                        assert(svals(lits@) =~= dedup_keep_first(svals(vals@).take(k + 1)));
                        assert forall|i2: int, j2: int|
                            0 <= i2 < j2 < lits@.len() implies sview(lits@[i2]) != sview(
                            lits@[j2],
                        ) by {
                            assert(svals(lits@)[i2] == sview(lits@[i2]));
                            assert(svals(lits@)[j2] == sview(lits@[j2]));
                            assert(svals(lits@)[i2] == lv[i2]);
                            if j2 == lits@.len() - 1 {
                                assert(lv[i2] != sview(vals@[k as int]));
                            } else {
                                assert(svals(lits@)[j2] == lv[j2]);
                            }
                        }
                    }
                } else {
                    proof {
                        assert(svals(lits@) =~= dedup_keep_first(svals(vals@).take(k + 1)));
                    }
                }
                k += 1;
            }
            proof {
                assert(svals(vals@).take(m as int) =~= svals(vals@));
            }
            if is_neq && lits.len() != 1 {
                return ;
            }
            let guarantee = if is_eq {
                Guarantee::In
            } else {
                Guarantee::NotIn
            };
            let entry = LiteralGuarantee { column: col.duplicate(), guarantee, literals: lits };
            proof {
                assert(entry.wf());
                assert(entry.view_spec() == (GuaranteeV {
                    column: col.view_spec(),
                    guarantee,
                    literals: dedup_keep_first(svals(vals@)),
                }));
            }
            self.slots.push(Some(entry));
            self.keys.push((col.duplicate(), op));
            proof {
                let b1 = builder_step(b0, col.view_spec(), op, svals(vals@));
                assert(slot_views(self.slots@) =~= b1.slots);
                assert(kviews(self.keys@) =~= b1.keys);
                assert(self.view_spec() =~= b1);
                assert(keys_unique(kviews(self.keys@)));
            }
        }
    }

    /// Fold one conjunct into the state.
    fn absorb_conjunct(&mut self, e: &PhysicalExpr)
        requires
            old(self).wf(),
        ensures
            final(self).wf(),
            final(self).view_spec() == conjunct_step(old(self).view_spec(), eview(*e)),
    {
        if let Some((col, op, lit)) = col_op_lit(e) {
            let mut vals: Vec<ScalarValue> = Vec::new();
            vals.push(clone_scalar(lit));
            proof {
                assert(svals(vals@) =~= seq![sview(*lit)]);
            }
            self.step(col, op, &vals);
            return ;
        }
        let ds = split_disjunction(e);
        let ghost dviews = disjuncts(eview(*e));
        let n = ds.len();
        // read every disjunct as `col <op> literal`; one of another shape
        // ends the attempt
        let mut terms: Vec<(&Column, Operator, &ScalarValue)> = Vec::new();
        let mut all = true;
        let mut k: usize = 0;
        while k < n
            invariant
                0 <= k <= n,
                n == ds@.len(),
                dviews == refviews(ds@),
                all ==> {
                    &&& terms@.len() == k
                    &&& forall|t: int|
                        0 <= t < k ==> lit_terms(dviews.take(k as int))[t] == ((
                        #[trigger] terms@[t]).0.view_spec(), terms@[t].1, sview(*terms@[t].2))
                    &&& lit_terms(dviews.take(k as int)).len() == k
                },
                !all ==> lit_terms(dviews.take(k as int)).len() < k,
                lit_terms(dviews.take(k as int)).len() <= k,
            decreases n - k,
        {
            proof {
                assert(dviews.take(k + 1).drop_last() =~= dviews.take(k as int));
                assert(dviews.take(k + 1).last() == dviews[k as int]);
            }
            match col_op_lit(&ds[k]) {
                Some(t) => {
                    terms.push(t);
                },
                None => {
                    all = false;
                },
            }
            k += 1;
        }
        proof {
            assert(dviews.take(n as int) =~= dviews);
        }
        if !all || n == 0 {
            proof {
                let ts = lit_terms(dviews);
                assert(ts.len() == 0 || ts.len() != dviews.len());
            }
            return ;
        }
        // every term must name the same column and use the same operator
        let first_col = terms[0].0;
        let first_op = terms[0].1;
        let m = terms.len();
        let ghost ts = lit_terms(dviews);
        let mut uniform = true;
        let mut k2: usize = 1;
        while k2 < m
            invariant
                1 <= k2 <= m,
                m == terms@.len(),
                m == ts.len(),
                m >= 1,
                forall|t: int|
                    0 <= t < m ==> ts[t] == ((#[trigger] terms@[t]).0.view_spec(), terms@[t].1, sview(
                        *terms@[t].2,
                    )),
                first_col == terms@[0].0,
                first_op == terms@[0].1,
                uniform == (forall|t: int|
                    0 <= t < k2 ==> (#[trigger] ts[t]).0.name == ts[0].0.name && ts[t].1
                        == ts[0].1),
            decreases m - k2,
        {
            let t = &terms[k2];
            if !(t.1 == first_op && t.0.name == first_col.name) {
                proof {
                    assert(!((ts[k2 as int]).0.name == ts[0].0.name && ts[k2 as int].1
                        == ts[0].1));
                }
                uniform = false;
            }
            k2 += 1;
        }
        if !uniform {
            return ;
        }
        let mut vals: Vec<ScalarValue> = Vec::new();
        let mut k3: usize = 0;
        while k3 < m
            invariant
                0 <= k3 <= m,
                m == terms@.len(),
                m == ts.len(),
                forall|t: int|
                    0 <= t < m ==> ts[t] == ((#[trigger] terms@[t]).0.view_spec(), terms@[t].1, sview(
                        *terms@[t].2,
                    )),
                vals@.len() == k3,
                forall|t: int| 0 <= t < k3 ==> svals(vals@)[t] == (#[trigger] ts[t]).2,
            decreases m - k3,
        {
            vals.push(clone_scalar(terms[k3].2));
            k3 += 1;
        }
        proof {
            assert(svals(vals@) =~= Seq::new(ts.len(), |k: int| ts[k].2));
        }
        self.step(first_col, first_op, &vals);
    }
}

/// A deep copy of a guarantee.
fn duplicate_guarantee(g: &LiteralGuarantee) -> (r: LiteralGuarantee)
    requires
        g.wf(),
    ensures
        r.view_spec() == g.view_spec(),
        r.wf(),
{
    let m = g.literals.len();
    let mut lits: Vec<ScalarValue> = Vec::new();
    let mut k: usize = 0;
    while k < m
        invariant
            0 <= k <= m,
            m == g.literals@.len(),
            lits@.len() == k,
            forall|t: int| 0 <= t < k ==> sview(#[trigger] lits@[t]) == sview(g.literals@[t]),
        decreases m - k,
    {
        lits.push(clone_scalar(&g.literals[k]));
        k += 1;
    }
    let guarantee = match g.guarantee {
        Guarantee::In => Guarantee::In,
        Guarantee::NotIn => Guarantee::NotIn,
    };
    let r = LiteralGuarantee { column: g.column.duplicate(), guarantee, literals: lits };
    proof {
        assert(svals(r.literals@) =~= svals(g.literals@));
        assert(r.view_spec() =~= g.view_spec());
    }
    r
}

impl LiteralGuarantee {
    /// The guarantees that the predicate forces, in the order their
    /// columns first appear: the state after folding every conjunct,
    /// with the cancelled slots left out.
    pub fn analyze(expr: &PhysicalExpr) -> (r: Vec<LiteralGuarantee>)
        ensures
            r@.map_values(|g: LiteralGuarantee| g.view_spec()) == built(
                analyze_fold(conjuncts(eview(*expr))).slots,
            ),
            forall|i: int| 0 <= i < r@.len() ==> (#[trigger] r@[i]).wf(),
    {
        let conjs = split_conjunction(expr);
        let ghost cviews = conjuncts(eview(*expr));
        let n = conjs.len();
        let mut b = GuaranteeBuilder::new();
        let mut i: usize = 0;
        while i < n
            invariant
                0 <= i <= n,
                n == conjs@.len(),
                cviews == refviews(conjs@),
                b.wf(),
                b.view_spec() == analyze_fold(cviews.take(i as int)),
            decreases n - i,
        {
            proof {
                assert(cviews.take(i + 1).drop_last() =~= cviews.take(i as int));
                assert(cviews.take(i + 1).last() == cviews[i as int]);
            }
            b.absorb_conjunct(&conjs[i]);
            i += 1;
        }
        proof {
            assert(cviews.take(n as int) =~= cviews);
        }
        // keep the surviving slots
        let m = b.slots.len();
        let mut r: Vec<LiteralGuarantee> = Vec::new();
        let mut k: usize = 0;
        while k < m
            invariant
                0 <= k <= m,
                m == b.slots@.len(),
                b.wf(),
                b.view_spec() == analyze_fold(cviews),
                r@.map_values(|g: LiteralGuarantee| g.view_spec()) == built(
                    slot_views(b.slots@).take(k as int),
                ),
                forall|t: int| 0 <= t < r@.len() ==> (#[trigger] r@[t]).wf(),
            decreases m - k,
        {
            let ghost sv = slot_views(b.slots@);
            proof {
                assert(sv.take(k + 1).drop_last() =~= sv.take(k as int));
                assert(sv.take(k + 1).last() == sv[k as int]);
            }
            match &b.slots[k] {
                Some(g) => {
                    let copied = duplicate_guarantee(g);
                    r.push(copied);
                    proof {
                        assert(r@.map_values(|g2: LiteralGuarantee| g2.view_spec()) =~= built(
                            sv.take(k + 1),
                        ));
                    }
                },
                None => {
                    proof {
                        assert(built(sv.take(k + 1)) =~= built(sv.take(k as int)));
                    }
                },
            }
            k += 1;
        }
        proof {
            assert(slot_views(b.slots@).take(m as int) =~= slot_views(b.slots@));
        }
        r
    }
}

} // verus!
