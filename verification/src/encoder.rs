//! The row encoder: encodes a tuple of typed values into a single byte
//! row whose lexicographic order matches the SQL sort order declared by a
//! list of sort fields.
//!
//! Per field the encoding is prefix-free, so concatenating field encodings
//! preserves the lexicographic product order; nulls take the smallest or
//! largest position per the nulls-first flag; a descending field has its
//! payload bytes inverted.

use vstd::prelude::*;

use crate::data::{Cell, Column, DataType, SortField};
use crate::error::ExecError;
use crate::lex::{
    is_prefix, lemma_lex_decided_at, lemma_lex_lt_concat_decided, lemma_lex_lt_concat_eq_head,
    lemma_lex_trichotomy, lex_lt,
};

verus! {

/// 256 to the `w`-th power.
pub open spec fn pow256(w: nat) -> nat
    decreases w,
{
    if w == 0 {
        1
    } else {
        256 * pow256((w - 1) as nat)
    }
}

/// Big-endian base-256 digits of `x`, `w` bytes wide: the high digits
/// followed by the lowest byte.
pub open spec fn be_bytes(x: nat, w: nat) -> Seq<u8>
    decreases w,
{
    if w == 0 {
        Seq::empty()
    } else {
        be_bytes(x / 256, (w - 1) as nat) + seq![((x % 256) as u8)]
    }
}

proof fn lemma_pow256_pos(w: nat)
    ensures
        pow256(w) >= 1,
    decreases w,
{
    if w > 0 {
        lemma_pow256_pos((w - 1) as nat);
    }
}

proof fn lemma_be_bytes_len(x: nat, w: nat)
    ensures
        be_bytes(x, w).len() == w,
    decreases w,
{
    if w > 0 {
        lemma_be_bytes_len(x / 256, (w - 1) as nat);
    }
}

/// Big-endian digits compare like the numbers they stand for.
proof fn lemma_be_bytes_order(x: nat, y: nat, w: nat)
    requires
        x < pow256(w),
        y < pow256(w),
    ensures
        lex_lt(be_bytes(x, w), be_bytes(y, w)) == (x < y),
        (be_bytes(x, w) == be_bytes(y, w)) == (x == y),
    decreases w,
{
    lemma_be_bytes_len(x, w);
    lemma_be_bytes_len(y, w);
    if w == 0 {
        assert(x == 0 && y == 0);
        assert(be_bytes(x, w) =~= be_bytes(y, w));
    } else {
        let p = pow256((w - 1) as nat);
        lemma_pow256_pos((w - 1) as nat);
        assert(x / 256 < p && y / 256 < p) by (nonlinear_arith)
            requires
                x < 256 * p,
                y < 256 * p,
                p >= 1,
        ;
        lemma_be_bytes_order(x / 256, y / 256, (w - 1) as nat);
        let hx = be_bytes(x / 256, (w - 1) as nat);
        let hy = be_bytes(y / 256, (w - 1) as nat);
        let lx = ((x % 256) as u8);
        let ly = ((y % 256) as u8);
        assert(be_bytes(x, w) == hx + seq![lx]);
        assert(be_bytes(y, w) == hy + seq![ly]);
        lemma_be_bytes_len(x / 256, (w - 1) as nat);
        lemma_be_bytes_len(y / 256, (w - 1) as nat);
        assert(x == 256 * (x / 256) + x % 256 && x % 256 < 256) by (nonlinear_arith);
        assert(y == 256 * (y / 256) + y % 256 && y % 256 < 256) by (nonlinear_arith);
        if x / 256 == y / 256 {
            assert(hx == hy);
            lemma_lex_lt_concat_eq_head(hx, seq![lx], seq![ly]);
            // a singleton comparison is a byte comparison
            assert(lex_lt(seq![lx], seq![ly]) == (lx < ly)) by {
                if lx != ly {
                    assert(seq![lx][0] == lx && seq![ly][0] == ly);
                } else {
                    assert(seq![lx] =~= seq![ly]);
                    lemma_lex_trichotomy(seq![lx], seq![ly]);
                }
            }
            assert((x < y) == (x % 256 < y % 256));
            assert((x == y) == (x % 256 == y % 256));
            if be_bytes(x, w) == be_bytes(y, w) {
                assert((hx + seq![lx])[hx.len() as int] == lx);
                assert((hy + seq![ly])[hy.len() as int] == ly);
                assert(lx == ly);
            }
            if lx == ly {
                assert(hx + seq![lx] =~= hy + seq![ly]);
            }
        } else {
            // the high digits differ and decide the comparison
            assert(hx != hy);
            assert(!is_prefix(hx, hy)) by {
                if is_prefix(hx, hy) {
                    assert(hx =~= hy.take(hx.len() as int));
                    assert(hy.take(hx.len() as int) =~= hy);
                }
            }
            assert(!is_prefix(hy, hx)) by {
                if is_prefix(hy, hx) {
                    assert(hy =~= hx.take(hy.len() as int));
                    assert(hx.take(hy.len() as int) =~= hx);
                }
            }
            lemma_lex_lt_concat_decided(hx, hy, seq![lx], seq![ly]);
            assert((x / 256 < y / 256) == (x < y)) by (nonlinear_arith)
                requires
                    x == 256 * (x / 256) + x % 256,
                    y == 256 * (y / 256) + y % 256,
                    x % 256 < 256,
                    y % 256 < 256,
                    x / 256 != y / 256,
            ;
            assert(be_bytes(x, w) != be_bytes(y, w)) by {
                if be_bytes(x, w) == be_bytes(y, w) {
                    assert forall|i: int| 0 <= i < hx.len() implies hx[i] == hy[i] by {
                        assert((hx + seq![lx])[i] == hx[i]);
                        assert((hy + seq![ly])[i] == hy[i]);
                    }
                    assert(hx =~= hy);
                }
            }
        }
    }
}

/// The unsigned number that orders like the signed value: the sign bit
/// flipped, as a 64-bit offset from the smallest value.
pub open spec fn flip64(v: i64) -> nat {
    (v + 0x8000000000000000) as nat
}

/// Escape a single byte: zero becomes the pair (0, 255), anything else
/// stands for itself.
pub open spec fn esc_unit(b: u8) -> Seq<u8> {
    if b == 0 {
        seq![0u8, 255u8]
    } else {
        seq![b]
    }
}

/// The escaped body of a byte string, without the terminator.
pub open spec fn esc_body(s: Seq<u8>) -> Seq<u8>
    decreases s.len(),
{
    if s.len() == 0 {
        Seq::empty()
    } else {
        esc_unit(s[0]) + esc_body(s.skip(1))
    }
}

/// Order-preserving, prefix-free encoding of a byte string: the escaped
/// body followed by the terminator (0, 0).
pub open spec fn esc(s: Seq<u8>) -> Seq<u8> {
    esc_body(s) + seq![0u8, 0u8]
}

proof fn lemma_esc_shape(s: Seq<u8>)
    ensures
        esc(s).len() >= 2,
        s.len() == 0 ==> esc(s) =~= seq![0u8, 0u8],
        s.len() > 0 ==> esc(s) =~= esc_unit(s[0]) + esc(s.skip(1)),
        s.len() > 0 && s[0] == 0 ==> esc(s)[0] == 0 && esc(s)[1] == 255,
        s.len() > 0 && s[0] != 0 ==> esc(s)[0] == s[0],
        s.len() == 0 ==> esc(s)[0] == 0 && esc(s)[1] == 0,
{
    if s.len() > 0 {
        assert(esc(s) =~= esc_unit(s[0]) + esc(s.skip(1)));
    }
}

/// The escape encoding preserves lexicographic order, maps equal strings
/// and only equal strings to equal encodings, and is prefix-free.
proof fn lemma_esc_order(s: Seq<u8>, t: Seq<u8>)
    ensures
        lex_lt(esc(s), esc(t)) == lex_lt(s, t),
        (esc(s) == esc(t)) == (s == t),
        is_prefix(esc(s), esc(t)) ==> s == t,
    decreases s.len(),
{
    lemma_esc_shape(s);
    lemma_esc_shape(t);
    if s.len() == 0 && t.len() == 0 {
        assert(esc(s) =~= esc(t));
        assert(s =~= t);
        lemma_lex_trichotomy(esc(s), esc(t));
        assert(!lex_lt(esc(s), esc(t)));
        assert(!lex_lt(s, t));
    } else if s.len() == 0 {
        // s is empty, t is not: s sorts first, encodings differ at index 0 or 1
        assert(lex_lt(s, t));
        assert(s != t);
        if t[0] == 0 {
            assert(esc(s)[0] == esc(t)[0]);
            assert(esc(s)[1] == 0 && esc(t)[1] == 255);
            lemma_lex_decided_at(esc(s), esc(t), 1);
        } else {
            assert(esc(s)[0] == 0 && esc(t)[0] == t[0]);
            lemma_lex_decided_at(esc(s), esc(t), 0);
        }
        assert(lex_lt(esc(s), esc(t)) == lex_lt(s, t));
    } else if t.len() == 0 {
        // t is empty, s is not: s does not sort first
        assert(!lex_lt(s, t));
        assert(s != t);
        if s[0] == 0 {
            assert(esc(s)[0] == esc(t)[0]);
            assert(esc(s)[1] == 255 && esc(t)[1] == 0);
            lemma_lex_decided_at(esc(s), esc(t), 1);
        } else {
            assert(esc(s)[0] == s[0] && esc(t)[0] == 0);
            lemma_lex_decided_at(esc(s), esc(t), 0);
        }
        assert(lex_lt(esc(s), esc(t)) == lex_lt(s, t));
    } else {
        // both nonempty
        let su = esc_unit(s[0]);
        let tu = esc_unit(t[0]);
        let sr = esc(s.skip(1));
        let tr = esc(t.skip(1));
        assert(esc(s) == su + sr) by {
            assert(esc(s) =~= su + sr);
        }
        assert(esc(t) == tu + tr) by {
            assert(esc(t) =~= tu + tr);
        }
        if s[0] == t[0] {
            assert(su =~= tu);
            lemma_lex_lt_concat_eq_head(su, sr, tr);
            lemma_esc_order(s.skip(1), t.skip(1));
            // the raw comparison also reduces to the tails
            assert(lex_lt(s, t) == lex_lt(s.skip(1), t.skip(1)));
            // equality joins and splits at the head
            if esc(s) == esc(t) {
                assert((su + sr).skip(su.len() as int) =~= sr);
                assert((tu + tr).skip(tu.len() as int) =~= tr);
                assert(sr == tr);
            }
            if s.skip(1) == t.skip(1) {
                assert(s =~= t) by {
                    assert(s.len() == t.len());
                    assert forall|i: int| 0 <= i < s.len() implies s[i] == t[i] by {
                        if i > 0 {
                            assert(s.skip(1)[i - 1] == t.skip(1)[i - 1]);
                        }
                    }
                }
            }
            if s == t {
                assert(s.skip(1) =~= t.skip(1));
                assert(esc(s) =~= esc(t));
            }
            // prefix reduces to the tails
            assert(lex_lt(esc(s), esc(t)) == lex_lt(s, t));
            if is_prefix(esc(s), esc(t)) {
                assert(is_prefix(sr, tr)) by {
                    assert(sr.len() <= tr.len());
                    assert forall|i: int| 0 <= i < sr.len() implies sr[i] == tr.take(
                        sr.len() as int,
                    )[i] by {
                        assert((su + sr)[su.len() + i] == sr[i]);
                        assert((tu + tr)[tu.len() + i] == tr[i]);
                        assert(esc(s)[su.len() + i] == esc(t).take(esc(s).len() as int)[
                            su.len() + i]);
                    }
                    assert(sr =~= tr.take(sr.len() as int));
                }
                assert(s.skip(1) == t.skip(1));
            }
        } else {
            // the first bytes differ; the encodings are decided at index 0
            // or 1, in the same direction as the raw strings
            assert(lex_lt(s, t) == (s[0] < t[0]));
            assert(s != t);
            if s[0] == 0 {
                assert(esc(s)[0] == 0 && esc(t)[0] == t[0]);
                lemma_lex_decided_at(esc(s), esc(t), 0);
                assert(lex_lt(esc(s), esc(t)) == lex_lt(s, t));
            } else if t[0] == 0 {
                assert(esc(s)[0] == s[0] && esc(t)[0] == 0);
                lemma_lex_decided_at(esc(s), esc(t), 0);
                assert(lex_lt(esc(s), esc(t)) == lex_lt(s, t));
            } else {
                assert(esc(s)[0] == s[0] && esc(t)[0] == t[0]);
                lemma_lex_decided_at(esc(s), esc(t), 0);
                assert(lex_lt(esc(s), esc(t)) == lex_lt(s, t));
            }
        }
    }
}

/// Every byte inverted.
pub open spec fn inv_bytes(s: Seq<u8>) -> Seq<u8> {
    s.map_values(|b: u8| (255 - b) as u8)
}

/// Byte inversion reverses lexicographic order on a prefix-free pair and
/// keeps equality and prefix structure.
proof fn lemma_inv_bytes_order(s: Seq<u8>, t: Seq<u8>)
    requires
        is_prefix(s, t) ==> s == t,
        is_prefix(t, s) ==> s == t,
    ensures
        lex_lt(inv_bytes(s), inv_bytes(t)) == lex_lt(t, s),
        (inv_bytes(s) == inv_bytes(t)) == (s == t),
        is_prefix(inv_bytes(s), inv_bytes(t)) ==> inv_bytes(s) == inv_bytes(t),
    decreases s.len(),
{
    assert(inv_bytes(s).len() == s.len());
    assert(inv_bytes(t).len() == t.len());
    if s.len() == 0 {
        assert(is_prefix(s, t)) by {
            assert(s =~= t.take(0));
        }
        assert(s == t);
        assert(inv_bytes(s) =~= inv_bytes(t));
    } else if t.len() == 0 {
        assert(is_prefix(t, s)) by {
            assert(t =~= s.take(0));
        }
        assert(s == t);
        assert(false);
    } else if s[0] == t[0] {
        let s1 = s.skip(1);
        let t1 = t.skip(1);
        assert(inv_bytes(s) =~= seq![(255 - s[0]) as u8] + inv_bytes(s1));
        assert(inv_bytes(t) =~= seq![(255 - t[0]) as u8] + inv_bytes(t1));
        // the prefix hypotheses carry to the tails
        assert(is_prefix(s1, t1) ==> is_prefix(s, t)) by {
            if is_prefix(s1, t1) {
                assert forall|i: int| 0 <= i < s.len() implies s[i] == t.take(
                    s.len() as int,
                )[i] by {
                    if i > 0 {
                        assert(s1[i - 1] == t1.take(s1.len() as int)[i - 1]);
                    }
                }
                assert(s =~= t.take(s.len() as int));
            }
        }
        assert(is_prefix(t1, s1) ==> is_prefix(t, s)) by {
            if is_prefix(t1, s1) {
                assert forall|i: int| 0 <= i < t.len() implies t[i] == s.take(
                    t.len() as int,
                )[i] by {
                    if i > 0 {
                        assert(t1[i - 1] == s1.take(t1.len() as int)[i - 1]);
                    }
                }
                assert(t =~= s.take(t.len() as int));
            }
        }
        if s == t {
            assert(s1 =~= t1);
        }
        if s1 == t1 {
            assert(s =~= t) by {
                assert(s.len() == t.len());
                assert forall|i: int| 0 <= i < s.len() implies s[i] == t[i] by {
                    if i > 0 {
                        assert(s1[i - 1] == t1[i - 1]);
                    }
                }
            }
        }
        lemma_inv_bytes_order(s1, t1);
        lemma_lex_lt_concat_eq_head(seq![(255 - s[0]) as u8], inv_bytes(s1), inv_bytes(t1));
        assert(lex_lt(t, s) == lex_lt(t1, s1));
        if inv_bytes(s) == inv_bytes(t) {
            assert(inv_bytes(s)[0] == inv_bytes(t)[0]);
            assert forall|i: int| 0 <= i < inv_bytes(s1).len() implies inv_bytes(s1)[i]
                == inv_bytes(t1)[i] by {
                assert(inv_bytes(s)[i + 1] == inv_bytes(t)[i + 1]);
                assert(inv_bytes(s)[i + 1] == inv_bytes(s1)[i]);
                assert(inv_bytes(t)[i + 1] == inv_bytes(t1)[i]);
            }
            assert(inv_bytes(s1) =~= inv_bytes(t1));
        }
        if s == t {
            assert(inv_bytes(s) =~= inv_bytes(t));
        }
        if is_prefix(inv_bytes(s), inv_bytes(t)) {
            assert(is_prefix(inv_bytes(s1), inv_bytes(t1))) by {
                assert forall|i: int| 0 <= i < inv_bytes(s1).len() implies inv_bytes(s1)[i]
                    == inv_bytes(t1).take(inv_bytes(s1).len() as int)[i] by {
                    assert(inv_bytes(s)[i + 1] == inv_bytes(t).take(
                        inv_bytes(s).len() as int,
                    )[i + 1]);
                }
                assert(inv_bytes(s1) =~= inv_bytes(t1).take(inv_bytes(s1).len() as int));
            }
            assert(inv_bytes(s1) == inv_bytes(t1));
            assert(s1 == t1);
            assert(s =~= t);
        }
    } else {
        // decided at the first byte, in reversed direction
        assert(inv_bytes(s)[0] == (255 - s[0]) as u8);
        assert(inv_bytes(t)[0] == (255 - t[0]) as u8);
        lemma_lex_decided_at(inv_bytes(s), inv_bytes(t), 0);
        assert(lex_lt(inv_bytes(s), inv_bytes(t)) == (255 - s[0] < 255 - t[0]));
        assert(lex_lt(t, s) == (t[0] < s[0]));
        assert(s != t);
    }
}

/// The marker byte of a null cell: before every value when nulls come
/// first, after every value otherwise. Non-null cells carry the marker 1.
pub open spec fn null_marker(nulls_first: bool) -> u8 {
    if nulls_first {
        0u8
    } else {
        2u8
    }
}

/// A field payload, inverted bytewise when the field is descending.
pub open spec fn dir_bytes(descending: bool, s: Seq<u8>) -> Seq<u8> {
    if descending {
        inv_bytes(s)
    } else {
        s
    }
}

/// The encoding of one cell under one sort field: the marker byte, then
/// for a non-null value its payload, inverted when the field descends.
pub open spec fn enc_field(f: SortField, c: Cell) -> Seq<u8> {
    match c {
        Cell::Null => seq![null_marker(f.options.nulls_first)],
        Cell::Int(v) => seq![1u8] + dir_bytes(f.options.descending, be_bytes(flip64(v), 8)),
        Cell::Bytes(s) => seq![1u8] + dir_bytes(f.options.descending, esc(s)),
        Cell::Bool(v) => seq![1u8] + dir_bytes(f.options.descending, seq![bool_byte(v)]),
    }
}

/// The payload byte of a boolean: false sorts before true.
pub open spec fn bool_byte(v: bool) -> u8 {
    if v {
        1u8
    } else {
        0u8
    }
}

/// Whether a cell can be carried by a column of the given data type.
pub open spec fn cell_matches(c: Cell, dt: DataType) -> bool {
    match c {
        Cell::Null => true,
        Cell::Int(_) => dt == DataType::Int64,
        Cell::Bytes(_) => dt == DataType::Bytes || dt == DataType::BytesView,
        Cell::Bool(_) => dt == DataType::Bool,
    }
}

/// A comparison negated for a descending field.
pub open spec fn ord_dir(descending: bool, c: int) -> int {
    if descending {
        -c
    } else {
        c
    }
}

/// SQL three-way comparison of two cells under one sort field: negative
/// means `a` sorts before `b`. Nulls take the position the nulls-first
/// flag gives them, independent of direction; values compare by value,
/// reversed for a descending field.
pub open spec fn cmp_cell(f: SortField, a: Cell, b: Cell) -> int {
    match a {
        Cell::Null => match b {
            Cell::Null => 0,
            _ => if f.options.nulls_first {
                -1
            } else {
                1
            },
        },
        Cell::Int(u) => match b {
            Cell::Null => if f.options.nulls_first {
                1
            } else {
                -1
            },
            Cell::Int(v) => ord_dir(
                f.options.descending,
                if u < v {
                    -1
                } else if u == v {
                    0
                } else {
                    1
                },
            ),
            _ => 0,
        },
        Cell::Bytes(s) => match b {
            Cell::Null => if f.options.nulls_first {
                1
            } else {
                -1
            },
            Cell::Bytes(t) => ord_dir(
                f.options.descending,
                if lex_lt(s, t) {
                    -1
                } else if s == t {
                    0
                } else {
                    1
                },
            ),
            _ => 0,
        },
        Cell::Bool(u) => match b {
            Cell::Null => if f.options.nulls_first {
                1
            } else {
                -1
            },
            Cell::Bool(v) => ord_dir(
                f.options.descending,
                if !u && v {
                    -1
                } else if u == v {
                    0
                } else {
                    1
                },
            ),
            _ => 0,
        },
    }
}

/// Removing a shared head keeps equality and the prefix relation.
proof fn lemma_concat_head(p: Seq<u8>, x: Seq<u8>, y: Seq<u8>)
    ensures
        ((p + x) == (p + y)) == (x == y),
        is_prefix(p + x, p + y) == is_prefix(x, y),
{
    if (p + x) == (p + y) {
        assert((p + x).skip(p.len() as int) =~= x);
        assert((p + y).skip(p.len() as int) =~= y);
    }
    if x == y {
        assert(p + x =~= p + y);
    }
    if is_prefix(p + x, p + y) {
        assert(is_prefix(x, y)) by {
            assert(x.len() <= y.len());
            assert forall|i: int| 0 <= i < x.len() implies x[i] == y.take(x.len() as int)[i] by {
                assert((p + x)[p.len() + i] == x[i]);
                assert((p + y)[p.len() + i] == y[i]);
                assert((p + x)[p.len() + i] == (p + y).take((p + x).len() as int)[p.len() + i]);
            }
            assert(x =~= y.take(x.len() as int));
        }
    }
    if is_prefix(x, y) {
        assert(is_prefix(p + x, p + y)) by {
            assert((p + x).len() <= (p + y).len());
            assert forall|i: int| 0 <= i < (p + x).len() implies (p + x)[i] == (p + y).take(
                (p + x).len() as int,
            )[i] by {
                if i >= p.len() {
                    assert(x[i - p.len()] == y.take(x.len() as int)[i - p.len()]);
                }
            }
            assert((p + x) =~= (p + y).take((p + x).len() as int));
        }
    }
}

/// One field's encoding follows the field's SQL comparison, and is
/// prefix-free for cells of the field's type.
proof fn lemma_enc_field(f: SortField, a: Cell, b: Cell)
    requires
        cell_matches(a, f.data_type),
        cell_matches(b, f.data_type),
    ensures
        lex_lt(enc_field(f, a), enc_field(f, b)) == (cmp_cell(f, a, b) < 0),
        (enc_field(f, a) == enc_field(f, b)) == (cmp_cell(f, a, b) == 0),
        is_prefix(enc_field(f, a), enc_field(f, b)) ==> enc_field(f, a) == enc_field(f, b),
        enc_field(f, a).len() >= 1,
{
    let ea = enc_field(f, a);
    let eb = enc_field(f, b);
    let desc = f.options.descending;
    assert(pow256(8) == 0x10000000000000000) by {
        assert(pow256(0) == 1);
        assert(pow256(1) == 256);
        assert(pow256(2) == 0x10000);
        assert(pow256(3) == 0x1000000);
        assert(pow256(4) == 0x100000000);
        assert(pow256(5) == 0x10000000000);
        assert(pow256(6) == 0x1000000000000);
        assert(pow256(7) == 0x100000000000000);
    }
    match a {
        Cell::Null => match b {
            Cell::Null => {
                assert(ea =~= eb);
                lemma_lex_trichotomy(ea, eb);
            },
            _ => {
                // markers differ: 0 or 2 against 1
                assert(ea[0] == null_marker(f.options.nulls_first));
                assert(eb[0] == 1u8) by {
                    match b {
                        Cell::Int(v) => {
                            assert(eb == seq![1u8] + dir_bytes(desc, be_bytes(flip64(v), 8)));
                        },
                        Cell::Bytes(t) => {
                            assert(eb == seq![1u8] + dir_bytes(desc, esc(t)));
                        },
                        Cell::Bool(v) => {
                            assert(eb == seq![1u8] + dir_bytes(desc, seq![bool_byte(v)]));
                        },
                        _ => {},
                    }
                }
                lemma_lex_decided_at(ea, eb, 0);
            },
        },
        Cell::Int(u) => match b {
            Cell::Null => {
                assert(eb[0] == null_marker(f.options.nulls_first));
                assert(ea[0] == 1u8) by {
                    assert(ea == seq![1u8] + dir_bytes(desc, be_bytes(flip64(u), 8)));
                }
                lemma_lex_decided_at(ea, eb, 0);
            },
            Cell::Int(v) => {
                let pa = be_bytes(flip64(u), 8);
                let pb = be_bytes(flip64(v), 8);
                lemma_be_bytes_len(flip64(u), 8);
                lemma_be_bytes_len(flip64(v), 8);
                lemma_be_bytes_order(flip64(u), flip64(v), 8);
                lemma_be_bytes_order(flip64(v), flip64(u), 8);
                // fixed width, so the pair is prefix-free
                assert(is_prefix(pa, pb) ==> pa == pb) by {
                    if is_prefix(pa, pb) {
                        assert(pa =~= pb.take(pa.len() as int));
                        assert(pb.take(pa.len() as int) =~= pb);
                    }
                }
                assert(is_prefix(pb, pa) ==> pb == pa) by {
                    if is_prefix(pb, pa) {
                        assert(pb =~= pa.take(pb.len() as int));
                        assert(pa.take(pb.len() as int) =~= pa);
                    }
                }
                if desc {
                    lemma_inv_bytes_order(pa, pb);
                } else {
                }
                lemma_concat_head(seq![1u8], dir_bytes(desc, pa), dir_bytes(desc, pb));
                lemma_lex_lt_concat_eq_head(seq![1u8], dir_bytes(desc, pa), dir_bytes(desc, pb));
                assert((flip64(u) < flip64(v)) == (u < v));
                assert((flip64(u) == flip64(v)) == (u == v));
                assert(is_prefix(dir_bytes(desc, pa), dir_bytes(desc, pb)) ==> dir_bytes(
                    desc,
                    pa,
                ) == dir_bytes(desc, pb)) by {
                    if is_prefix(dir_bytes(desc, pa), dir_bytes(desc, pb)) {
                        if !desc {
                            assert(pa =~= pb.take(pa.len() as int));
                            assert(pb.take(pa.len() as int) =~= pb);
                        }
                    }
                }
                if desc {
                    assert(lex_lt(ea, eb) == lex_lt(pb, pa));
                    assert(lex_lt(pb, pa) == (v < u));
                    assert((cmp_cell(f, a, b) < 0) == (v < u));
                    assert((ea == eb) == (pa == pb));
                } else {
                    assert(lex_lt(ea, eb) == lex_lt(pa, pb));
                    assert(lex_lt(pa, pb) == (u < v));
                    assert((cmp_cell(f, a, b) < 0) == (u < v));
                    assert((ea == eb) == (pa == pb));
                }
                assert((pa == pb) == (u == v));
                assert((cmp_cell(f, a, b) == 0) == (u == v));
            },
            _ => {},
        },
        Cell::Bytes(s) => match b {
            Cell::Null => {
                assert(eb[0] == null_marker(f.options.nulls_first));
                assert(ea[0] == 1u8) by {
                    assert(ea == seq![1u8] + dir_bytes(desc, esc(s)));
                }
                lemma_lex_decided_at(ea, eb, 0);
            },
            Cell::Int(_) => {},
            Cell::Bytes(t) => {
                let pa = esc(s);
                let pb = esc(t);
                lemma_esc_order(s, t);
                lemma_esc_order(t, s);
                if desc {
                    lemma_inv_bytes_order(pa, pb);
                }
                lemma_concat_head(seq![1u8], dir_bytes(desc, pa), dir_bytes(desc, pb));
                lemma_lex_lt_concat_eq_head(seq![1u8], dir_bytes(desc, pa), dir_bytes(desc, pb));
                lemma_lex_trichotomy(s, t);
                assert(is_prefix(dir_bytes(desc, pa), dir_bytes(desc, pb)) ==> dir_bytes(
                    desc,
                    pa,
                ) == dir_bytes(desc, pb)) by {
                    if is_prefix(dir_bytes(desc, pa), dir_bytes(desc, pb)) && !desc {
                        assert(s == t);
                    }
                }
                if desc {
                    assert(lex_lt(ea, eb) == lex_lt(pb, pa));
                    assert(lex_lt(pb, pa) == lex_lt(t, s));
                    assert((cmp_cell(f, a, b) < 0) == lex_lt(t, s));
                    assert((ea == eb) == (pa == pb));
                } else {
                    assert(lex_lt(ea, eb) == lex_lt(pa, pb));
                    assert(lex_lt(pa, pb) == lex_lt(s, t));
                    assert((cmp_cell(f, a, b) < 0) == lex_lt(s, t));
                    assert((ea == eb) == (pa == pb));
                }
                assert((pa == pb) == (s == t));
                assert((cmp_cell(f, a, b) == 0) == (s == t));
            },
            _ => {},
        },
        Cell::Bool(u) => match b {
            Cell::Null => {
                assert(eb[0] == null_marker(f.options.nulls_first));
                assert(ea[0] == 1u8) by {
                    assert(ea == seq![1u8] + dir_bytes(desc, seq![bool_byte(u)]));
                }
                lemma_lex_decided_at(ea, eb, 0);
            },
            Cell::Bool(v) => {
                let pa = seq![bool_byte(u)];
                let pb = seq![bool_byte(v)];
                assert(ea == seq![1u8] + dir_bytes(desc, pa));
                assert(eb == seq![1u8] + dir_bytes(desc, pb));
                // singleton payloads compare like their single bytes
                assert(lex_lt(pa, pb) == (bool_byte(u) < bool_byte(v))) by {
                    if bool_byte(u) != bool_byte(v) {
                        assert(pa[0] == bool_byte(u) && pb[0] == bool_byte(v));
                    } else {
                        assert(pa =~= pb);
                        lemma_lex_trichotomy(pa, pb);
                    }
                }
                assert(lex_lt(pb, pa) == (bool_byte(v) < bool_byte(u))) by {
                    if bool_byte(u) != bool_byte(v) {
                        assert(pa[0] == bool_byte(u) && pb[0] == bool_byte(v));
                    } else {
                        assert(pb =~= pa);
                        lemma_lex_trichotomy(pb, pa);
                    }
                }
                assert((pa == pb) == (u == v)) by {
                    if u == v {
                        assert(pa =~= pb);
                    } else {
                        assert(pa[0] != pb[0]);
                    }
                }
                // equal-width payloads are prefix-free
                assert(is_prefix(pa, pb) ==> pa == pb) by {
                    if is_prefix(pa, pb) {
                        assert(pa =~= pb.take(pa.len() as int));
                        assert(pb.take(pa.len() as int) =~= pb);
                    }
                }
                assert(is_prefix(pb, pa) ==> pb == pa) by {
                    if is_prefix(pb, pa) {
                        assert(pb =~= pa.take(pb.len() as int));
                        assert(pa.take(pb.len() as int) =~= pa);
                    }
                }
                if desc {
                    lemma_inv_bytes_order(pa, pb);
                }
                lemma_concat_head(seq![1u8], dir_bytes(desc, pa), dir_bytes(desc, pb));
                lemma_lex_lt_concat_eq_head(seq![1u8], dir_bytes(desc, pa), dir_bytes(desc, pb));
                assert(is_prefix(dir_bytes(desc, pa), dir_bytes(desc, pb)) ==> dir_bytes(
                    desc,
                    pa,
                ) == dir_bytes(desc, pb)) by {
                    if is_prefix(dir_bytes(desc, pa), dir_bytes(desc, pb)) && !desc {
                        assert(pa =~= pb.take(pa.len() as int));
                        assert(pb.take(pa.len() as int) =~= pb);
                    }
                }
                if desc {
                    assert(lex_lt(ea, eb) == lex_lt(pb, pa));
                    assert(lex_lt(pb, pa) == (!v && u));
                    assert((cmp_cell(f, a, b) < 0) == (!v && u));
                    assert((ea == eb) == (pa == pb));
                } else {
                    assert(lex_lt(ea, eb) == lex_lt(pa, pb));
                    assert(lex_lt(pa, pb) == (!u && v));
                    assert((cmp_cell(f, a, b) < 0) == (!u && v));
                    assert((ea == eb) == (pa == pb));
                }
                assert((cmp_cell(f, a, b) == 0) == (u == v));
            },
            _ => {},
        },
    }
}

/// The concatenated field encodings of a row, from field `k` on.
pub open spec fn enc_row_from(fields: Seq<SortField>, cells: Seq<Cell>, k: int) -> Seq<u8>
    decreases fields.len() - k,
{
    if k < 0 || k >= fields.len() {
        Seq::empty()
    } else {
        enc_field(fields[k], cells[k]) + enc_row_from(fields, cells, k + 1)
    }
}

/// The encoded row: all field encodings concatenated.
pub open spec fn enc_row(fields: Seq<SortField>, cells: Seq<Cell>) -> Seq<u8> {
    enc_row_from(fields, cells, 0)
}

/// Lexicographic SQL comparison of two rows, from field `k` on: the first
/// field whose cells differ decides.
pub open spec fn cmp_row_from(fields: Seq<SortField>, a: Seq<Cell>, b: Seq<Cell>, k: int) -> int
    decreases fields.len() - k,
{
    if k < 0 || k >= fields.len() {
        0
    } else {
        let c = cmp_cell(fields[k], a[k], b[k]);
        if c != 0 {
            c
        } else {
            cmp_row_from(fields, a, b, k + 1)
        }
    }
}

/// Lexicographic SQL comparison of two rows under a sort-field list.
pub open spec fn cmp_rows(fields: Seq<SortField>, a: Seq<Cell>, b: Seq<Cell>) -> int {
    cmp_row_from(fields, a, b, 0)
}

/// A row's cells match a sort-field list: one cell per field, each of the
/// field's type.
pub open spec fn row_matches(fields: Seq<SortField>, cells: Seq<Cell>) -> bool {
    &&& cells.len() == fields.len()
    &&& forall|i: int|
        0 <= i < fields.len() ==> cell_matches(cells[i], (#[trigger] fields[i]).data_type)
}

proof fn lemma_enc_row_from_order(fields: Seq<SortField>, a: Seq<Cell>, b: Seq<Cell>, k: int)
    requires
        0 <= k <= fields.len(),
        row_matches(fields, a),
        row_matches(fields, b),
    ensures
        lex_lt(enc_row_from(fields, a, k), enc_row_from(fields, b, k)) == (cmp_row_from(
            fields,
            a,
            b,
            k,
        ) < 0),
        (enc_row_from(fields, a, k) == enc_row_from(fields, b, k)) == (cmp_row_from(
            fields,
            a,
            b,
            k,
        ) == 0),
    decreases fields.len() - k,
{
    if k == fields.len() {
        assert(enc_row_from(fields, a, k) =~= enc_row_from(fields, b, k));
        lemma_lex_trichotomy(enc_row_from(fields, a, k), enc_row_from(fields, b, k));
    } else {
        let ea = enc_field(fields[k], a[k]);
        let eb = enc_field(fields[k], b[k]);
        let ra = enc_row_from(fields, a, k + 1);
        let rb = enc_row_from(fields, b, k + 1);
        lemma_enc_field(fields[k], a[k], b[k]);
        lemma_enc_field(fields[k], b[k], a[k]);
        lemma_enc_row_from_order(fields, a, b, k + 1);
        assert(enc_row_from(fields, a, k) == ea + ra);
        assert(enc_row_from(fields, b, k) == eb + rb);
        if ea == eb {
            assert(cmp_cell(fields[k], a[k], b[k]) == 0);
            lemma_lex_lt_concat_eq_head(ea, ra, rb);
            lemma_concat_head(ea, ra, rb);
        } else {
            assert(cmp_cell(fields[k], a[k], b[k]) != 0);
            assert(!is_prefix(ea, eb));
            assert(!is_prefix(eb, ea));
            lemma_lex_lt_concat_decided(ea, eb, ra, rb);
            lemma_lex_lt_concat_decided(eb, ea, rb, ra);
            lemma_lex_trichotomy(ea, eb);
            assert((ea + ra) != (eb + rb)) by {
                if (ea + ra) == (eb + rb) {
                    assert(!lex_lt(ea + ra, eb + rb) && !lex_lt(eb + rb, ea + ra)) by {
                        lemma_lex_trichotomy(ea + ra, eb + rb);
                        assert((ea + ra) =~= (eb + rb));
                    }
                    assert(!lex_lt(ea, eb) && !lex_lt(eb, ea));
                }
            }
        }
    }
}

/// Encoding two rows of the same sort-field list and comparing the byte
/// rows gives exactly the SQL comparison of the rows: the bytes sort
/// lower exactly when the row sorts first, and the bytes are equal
/// exactly when every field compares equal.
pub proof fn lemma_encoded_order(fields: Seq<SortField>, a: Seq<Cell>, b: Seq<Cell>)
    requires
        row_matches(fields, a),
        row_matches(fields, b),
    ensures
        lex_lt(enc_row(fields, a), enc_row(fields, b)) == (cmp_rows(fields, a, b) < 0),
        (enc_row(fields, a) == enc_row(fields, b)) == (cmp_rows(fields, a, b) == 0),
{
    lemma_enc_row_from_order(fields, a, b, 0);
}

/// The cells of row `i` across a list of columns.
pub open spec fn row_cells(cols: Seq<Column>, i: int) -> Seq<Cell> {
    Seq::new(cols.len(), |c: int| cols[c].cell(i))
}

/// The unsigned 64-bit offset of a signed value from the smallest value.
fn flip_i64(v: i64) -> (r: u64)
    ensures
        r as nat == flip64(v),
{
    proof {
        assert(0 <= v + 0x8000000000000000i128 < 0x10000000000000000i128);
    }
    ((v as i128) + 0x8000000000000000i128) as u64
}

proof fn lemma_pow256_8()
    ensures
        pow256(8) == 0x10000000000000000,
{
    assert(pow256(0) == 1);
    assert(pow256(1) == 256);
    assert(pow256(2) == 0x10000);
    assert(pow256(3) == 0x1000000);
    assert(pow256(4) == 0x100000000);
    assert(pow256(5) == 0x10000000000);
    assert(pow256(6) == 0x1000000000000);
    assert(pow256(7) == 0x100000000000000);
}

/// Append the big-endian bytes of `x`, `w` bytes wide.
fn be_push(x: u64, w: usize, out: &mut Vec<u8>)
    ensures
        final(out)@ == old(out)@ + be_bytes(x as nat, w as nat),
    decreases w,
{
    if w > 0 {
        be_push(x / 256, w - 1, out);
        out.push((x % 256) as u8);
        proof {
            assert((x / 256) as nat == (x as nat) / 256);
            assert((x % 256) as nat == (x as nat) % 256);
            assert(final(out)@ =~= old(out)@ + be_bytes(x as nat, w as nat));
        }
    } else {
        proof {
            assert(out@ =~= out@ + be_bytes(x as nat, 0));
        }
    }
}

/// Appending a byte extends the escaped body by that byte's escape.
proof fn lemma_esc_body_push(u: Seq<u8>, x: u8)
    ensures
        esc_body(u.push(x)) == esc_body(u) + esc_unit(x),
    decreases u.len(),
{
    if u.len() == 0 {
        assert(u.push(x)[0] == x);
        assert(u.push(x).skip(1) =~= Seq::<u8>::empty());
        assert(esc_body(u.push(x)) == esc_unit(x) + esc_body(u.push(x).skip(1)));
        assert(esc_body(Seq::<u8>::empty()) =~= Seq::<u8>::empty());
        assert(esc_body(u) =~= Seq::<u8>::empty());
        assert(esc_unit(x) + Seq::<u8>::empty() =~= esc_unit(x));
        assert(Seq::<u8>::empty() + esc_unit(x) =~= esc_unit(x));
        assert(esc_body(u.push(x)) =~= esc_body(u) + esc_unit(x));
    } else {
        assert(u.push(x)[0] == u[0]);
        assert(u.push(x).skip(1) =~= u.skip(1).push(x));
        lemma_esc_body_push(u.skip(1), x);
        assert(esc_body(u.push(x)) == esc_unit(u[0]) + esc_body(u.skip(1).push(x)));
        assert(esc_unit(u[0]) + (esc_body(u.skip(1)) + esc_unit(x)) =~= (esc_unit(u[0])
            + esc_body(u.skip(1))) + esc_unit(x));
    }
}

/// Append the escape encoding of a byte string: its escaped body followed
/// by the terminator.
fn esc_push(payload: &[u8], out: &mut Vec<u8>)
    ensures
        final(out)@ == old(out)@ + esc(payload@),
{
    let ghost base = out@;
    let n = payload.len();
    let mut j: usize = 0;
    while j < n
        invariant
            0 <= j <= n,
            n == payload@.len(),
            out@ == base + esc_body(payload@.take(j as int)),
        decreases n - j,
    {
        let ghost pre = out@;
        let b = payload[j];
        if b == 0 {
            out.push(0);
            out.push(255);
        } else {
            out.push(b);
        }
        proof {
            assert(payload@.take(j + 1) =~= payload@.take(j as int).push(b));
            lemma_esc_body_push(payload@.take(j as int), b);
            assert(out@ =~= pre + esc_unit(b));
            assert(out@ =~= base + esc_body(payload@.take(j + 1)));
        }
        j += 1;
    }
    out.push(0);
    out.push(0);
    proof {
        assert(payload@.take(n as int) =~= payload@);
        assert(out@ =~= base + (esc_body(payload@) + seq![0u8, 0u8]));
    }
}

/// Append a payload, inverted bytewise when the field descends.
fn dir_push(descending: bool, payload: &Vec<u8>, out: &mut Vec<u8>)
    ensures
        final(out)@ == old(out)@ + dir_bytes(descending, payload@),
{
    let ghost base = out@;
    let n = payload.len();
    let mut j: usize = 0;
    while j < n
        invariant
            0 <= j <= n,
            n == payload@.len(),
            out@ == base + dir_bytes(descending, payload@.take(j as int)),
        decreases n - j,
    {
        let ghost pre = out@;
        let b = payload[j];
        if descending {
            out.push(255 - b);
        } else {
            out.push(b);
        }
        proof {
            assert(payload@.take(j + 1) =~= payload@.take(j as int).push(b));
            if descending {
                assert(inv_bytes(payload@.take(j + 1)) =~= inv_bytes(
                    payload@.take(j as int),
                ).push((255 - b) as u8));
            } else {
                assert(payload@.take(j + 1) =~= payload@.take(j as int).push(b));
            }
            assert(out@ =~= base + dir_bytes(descending, payload@.take(j + 1)));
        }
        j += 1;
    }
    proof {
        assert(payload@.take(n as int) =~= payload@);
    }
}

/// Append the encoding of the cell at `row` of `col` under field `f`.
fn encode_cell(f: &SortField, col: &Column, row: usize, out: &mut Vec<u8>)
    requires
        col.wf(),
        row < col.len_spec(),
        col.matches_type_spec(f.data_type),
    ensures
        final(out)@ == old(out)@ + enc_field(*f, col.cell(row as int)),
{
    let ghost base = out@;
    match col {
        Column::Int64(c) => {
            if c.is_null(row) {
                if f.options.nulls_first {
                    out.push(0);
                } else {
                    out.push(2);
                }
                proof {
                    assert(out@ =~= base + enc_field(*f, col.cell(row as int)));
                }
            } else {
                out.push(1);
                let ghost mid = out@;
                let v = c.value(row);
                let u = flip_i64(v);
                let mut payload: Vec<u8> = Vec::new();
                be_push(u, 8, &mut payload);
                proof {
                    assert(payload@ =~= be_bytes(flip64(v), 8));
                }
                dir_push(f.options.descending, &payload, out);
                proof {
                    assert(mid =~= base + seq![1u8]);
                    assert(out@ =~= base + (seq![1u8] + dir_bytes(
                        f.options.descending,
                        be_bytes(flip64(v), 8),
                    )));
                    assert(col.cell(row as int) == Cell::Int(v));
                }
            }
        },
        Column::Bytes(c) => {
            if c.is_null(row) {
                if f.options.nulls_first {
                    out.push(0);
                } else {
                    out.push(2);
                }
                proof {
                    assert(out@ =~= base + enc_field(*f, col.cell(row as int)));
                }
            } else {
                out.push(1);
                let ghost mid = out@;
                let s = c.value(row);
                let mut payload: Vec<u8> = Vec::new();
                esc_push(s.as_slice(), &mut payload);
                dir_push(f.options.descending, &payload, out);
                proof {
                    assert(mid =~= base + seq![1u8]);
                    assert(out@ =~= base + (seq![1u8] + dir_bytes(
                        f.options.descending,
                        esc(s@),
                    )));
                    assert(col.cell(row as int) == Cell::Bytes(s@));
                }
            }
        },
        Column::Bool(c) => {
            if c.is_null(row) {
                if f.options.nulls_first {
                    out.push(0);
                } else {
                    out.push(2);
                }
                proof {
                    assert(out@ =~= base + enc_field(*f, col.cell(row as int)));
                }
            } else {
                out.push(1);
                let ghost mid = out@;
                let v = c.value(row);
                let mut payload: Vec<u8> = Vec::new();
                if v {
                    payload.push(1);
                } else {
                    payload.push(0);
                }
                proof {
                    assert(payload@ =~= seq![bool_byte(v)]);
                }
                dir_push(f.options.descending, &payload, out);
                proof {
                    assert(mid =~= base + seq![1u8]);
                    assert(out@ =~= base + (seq![1u8] + dir_bytes(
                        f.options.descending,
                        seq![bool_byte(v)],
                    )));
                    assert(col.cell(row as int) == Cell::Bool(v));
                }
            }
        },
    }
}

/// Encode one row of sort-key columns into a single byte row.
fn encode_one_row(columns: &Vec<Column>, fields: &Vec<SortField>, row: usize) -> (r: Vec<u8>)
    requires
        fields@.len() == columns@.len(),
        forall|c: int| 0 <= c < columns@.len() ==> (#[trigger] columns@[c]).wf(),
        forall|c: int| 0 <= c < columns@.len() ==> row < (#[trigger] columns@[c]).len_spec(),
        forall|c: int|
            0 <= c < columns@.len() ==> (#[trigger] columns@[c]).matches_type_spec(
                fields@[c].data_type,
            ),
    ensures
        r@ == enc_row(fields@, row_cells(columns@, row as int)),
{
    let ghost cells = row_cells(columns@, row as int);
    let mut out: Vec<u8> = Vec::new();
    let n = fields.len();
    let mut k: usize = 0;
    while k < n
        invariant
            0 <= k <= n,
            n == fields@.len(),
            n == columns@.len(),
            forall|c: int| 0 <= c < columns@.len() ==> (#[trigger] columns@[c]).wf(),
            forall|c: int| 0 <= c < columns@.len() ==> row < (#[trigger] columns@[c]).len_spec(),
            forall|c: int|
                0 <= c < columns@.len() ==> (#[trigger] columns@[c]).matches_type_spec(
                    fields@[c].data_type,
                ),
            cells == row_cells(columns@, row as int),
            enc_row(fields@, cells) == out@ + enc_row_from(fields@, cells, k as int),
        decreases n - k,
    {
        let ghost pre = out@;
        encode_cell(&fields[k], &columns[k], row, &mut out);
        proof {
            assert(cells[k as int] == columns@[k as int].cell(row as int));
            assert(enc_row_from(fields@, cells, k as int) == enc_field(fields@[k as int], cells[
                k as int]) + enc_row_from(fields@, cells, k + 1));
            assert(pre + (enc_field(fields@[k as int], cells[k as int]) + enc_row_from(
                fields@,
                cells,
                k + 1,
            )) =~= (pre + enc_field(fields@[k as int], cells[k as int])) + enc_row_from(
                fields@,
                cells,
                k + 1,
            ));
        }
        k += 1;
    }
    proof {
        assert(enc_row_from(fields@, cells, n as int) =~= Seq::<u8>::empty());
        assert(out@ + Seq::<u8>::empty() =~= out@);
    }
    out
}

/// Encode sort-key columns into one comparable byte row per input row:
/// stable, and ordered like the SQL sort order of the rows. Fails with an
/// encoder error exactly when the column types do not match the sort
/// fields.
pub fn encode_rows(columns: &Vec<Column>, fields: &Vec<SortField>, num_rows: usize) -> (r: Result<
    Vec<Vec<u8>>,
    ExecError,
>)
    requires
        forall|c: int| 0 <= c < columns@.len() ==> (#[trigger] columns@[c]).wf(),
        forall|c: int|
            0 <= c < columns@.len() ==> (#[trigger] columns@[c]).len_spec() == num_rows,
    ensures
        r is Ok <==> {
            &&& fields@.len() == columns@.len()
            &&& forall|c: int|
                0 <= c < columns@.len() ==> (#[trigger] columns@[c]).matches_type_spec(
                    fields@[c].data_type,
                )
        },
        r is Err ==> r == Result::<Vec<Vec<u8>>, ExecError>::Err(ExecError::EncoderError),
        r is Ok ==> r->Ok_0@.len() == num_rows,
        r is Ok ==> forall|i: int|
            0 <= i < num_rows ==> (#[trigger] r->Ok_0@[i])@ == enc_row(
                fields@,
                row_cells(columns@, i),
            ),
{
    if fields.len() != columns.len() {
        return Err(ExecError::EncoderError);
    }
    let n = columns.len();
    let mut c: usize = 0;
    while c < n
        invariant
            0 <= c <= n,
            n == columns@.len(),
            n == fields@.len(),
            forall|j: int|
                0 <= j < c ==> (#[trigger] columns@[j]).matches_type_spec(fields@[j].data_type),
        decreases n - c,
    {
        if !columns[c].matches_type(fields[c].data_type) {
            return Err(ExecError::EncoderError);
        }
        c += 1;
    }
    let mut rows: Vec<Vec<u8>> = Vec::new();
    let mut i: usize = 0;
    while i < num_rows
        invariant
            0 <= i <= num_rows,
            n == columns@.len(),
            n == fields@.len(),
            forall|j: int| 0 <= j < columns@.len() ==> (#[trigger] columns@[j]).wf(),
            forall|j: int|
                0 <= j < columns@.len() ==> (#[trigger] columns@[j]).len_spec() == num_rows,
            forall|j: int|
                0 <= j < columns@.len() ==> (#[trigger] columns@[j]).matches_type_spec(
                    fields@[j].data_type,
                ),
            rows@.len() == i,
            forall|j: int|
                0 <= j < i ==> (#[trigger] rows@[j])@ == enc_row(fields@, row_cells(columns@, j)),
        decreases num_rows - i,
    {
        let row = encode_one_row(columns, fields, i);
        rows.push(row);
        i += 1;
    }
    Ok(rows)
}

} // verus!
