use vstd::prelude::*;

use crate::number::{float_float_eq, float_int_eq, is_float_literal};

verus! {

/// The mathematical model of a parsed value: the payload of every variant
/// is a mathematical object, so contracts can speak of whole value trees.
/// A `Dict` is modelled as its entry sequence; well-formed trees carry each
/// key once.
pub enum Val {
    Null,
    Bool(bool),
    Int(i128),
    Float(Seq<char>),
    Str(Seq<char>),
    Arr(Seq<Val>),
    Dict(Seq<(Seq<char>, Val)>),
}

/// Value equality: structural and recursive, with one relaxation — an
/// integer and a floating-point literal are equal when the literal's exact
/// decimal value is that integer. Two `nan` literals are never equal.
/// Dictionaries compare without regard to entry order.
pub open spec fn val_eq(a: Val, b: Val) -> bool
    decreases a, 0int,
{
    match (a, b) {
        (Val::Null, Val::Null) => true,
        (Val::Bool(x), Val::Bool(y)) => x == y,
        (Val::Int(x), Val::Int(y)) => x == y,
        (Val::Float(x), Val::Float(y)) => float_float_eq(x, y),
        (Val::Int(x), Val::Float(y)) => float_int_eq(x as int, y),
        (Val::Float(x), Val::Int(y)) => float_int_eq(y as int, x),
        (Val::Str(x), Val::Str(y)) => x == y,
        (Val::Arr(x), Val::Arr(y)) => x.len() == y.len() && (forall|i: int|
            0 <= i < x.len() ==> val_eq(#[trigger] x[i], y[i])),
        (Val::Dict(x), Val::Dict(y)) => dict_le(x, y) && dict_ge(x, y),
        _ => false,
    }
}

/// Some entry of `y` carries the key `k` and a value that `v` equals.
pub open spec fn dict_has(y: Seq<(Seq<char>, Val)>, k: Seq<char>, v: Val) -> bool
    decreases v, 1int,
{
    exists|j: int| 0 <= j < y.len() && (#[trigger] y[j]).0 == k && val_eq(v, y[j].1)
}

/// Some entry of `x` carries the key `k` with a value equal to `v`.
pub open spec fn dict_has_rev(x: Seq<(Seq<char>, Val)>, k: Seq<char>, v: Val) -> bool
    decreases x, 1int,
{
    exists|i: int| 0 <= i < x.len() && (#[trigger] x[i]).0 == k && val_eq(x[i].1, v)
}

/// Every entry of `x` has a matching key in `y` whose value equals its own.
pub open spec fn dict_le(x: Seq<(Seq<char>, Val)>, y: Seq<(Seq<char>, Val)>) -> bool
    decreases x, 2int,
{
    forall|i: int| 0 <= i < x.len() ==> dict_has(y, (#[trigger] x[i]).0, x[i].1)
}

/// Every entry of `y` is matched by an entry of `x` with an equal value.
pub open spec fn dict_ge(x: Seq<(Seq<char>, Val)>, y: Seq<(Seq<char>, Val)>) -> bool
    decreases x, 2int,
{
    forall|j: int| 0 <= j < y.len() ==> dict_has_rev(x, (#[trigger] y[j]).0, y[j].1)
}

/// A well-formed value tree: every floating-point payload is a literal the
/// grammar accepts, and every dictionary carries each key at most once.
pub open spec fn val_wf(v: Val) -> bool
    decreases v,
{
    match v {
        Val::Float(t) => is_float_literal(t),
        Val::Arr(x) => forall|i: int| 0 <= i < x.len() ==> val_wf(#[trigger] x[i]),
        Val::Dict(x) => (forall|i: int| 0 <= i < x.len() ==> val_wf((#[trigger] x[i]).1))
            && (forall|i: int, j: int|
            0 <= i < j < x.len() ==> (#[trigger] x[i]).0 != (#[trigger] x[j]).0),
        _ => true,
    }
}

/// The value stored under a key, the entry nearest the end winning.
pub open spec fn dict_lookup(entries: Seq<(Seq<char>, Val)>, k: Seq<char>) -> Option<Val>
    decreases entries.len(),
{
    if entries.len() == 0 {
        None
    } else if entries.last().0 == k {
        Some(entries.last().1)
    } else {
        dict_lookup(entries.drop_last(), k)
    }
}

proof fn lemma_dict_le_flip(x: Seq<(Seq<char>, Val)>, y: Seq<(Seq<char>, Val)>)
    ensures
        dict_le(x, y) == dict_ge(y, x),
    decreases x, 0int,
{
    if dict_le(x, y) {
        assert forall|j: int| 0 <= j < x.len() implies dict_has_rev(
            y,
            (#[trigger] x[j]).0,
            x[j].1,
        ) by {
            assert(dict_has(y, x[j].0, x[j].1));
            let i = choose|i: int|
                0 <= i < y.len() && (#[trigger] y[i]).0 == x[j].0 && val_eq(x[j].1, y[i].1);
            lemma_val_eq_sym(x[j].1, y[i].1);
            assert(0 <= i < y.len() && y[i].0 == x[j].0 && val_eq(y[i].1, x[j].1));
        }
    }
    if dict_ge(y, x) {
        assert forall|i: int| 0 <= i < x.len() implies dict_has(
            y,
            (#[trigger] x[i]).0,
            x[i].1,
        ) by {
            assert(dict_has_rev(y, x[i].0, x[i].1));
            let j = choose|j: int|
                0 <= j < y.len() && (#[trigger] y[j]).0 == x[i].0 && val_eq(y[j].1, x[i].1);
            lemma_val_eq_sym(x[i].1, y[j].1);
            assert(0 <= j < y.len() && y[j].0 == x[i].0 && val_eq(x[i].1, y[j].1));
        }
    }
}

proof fn lemma_dict_ge_flip(x: Seq<(Seq<char>, Val)>, y: Seq<(Seq<char>, Val)>)
    ensures
        dict_ge(x, y) == dict_le(y, x),
    decreases x, 0int,
{
    if dict_ge(x, y) {
        assert forall|j: int| 0 <= j < y.len() implies dict_has(
            x,
            (#[trigger] y[j]).0,
            y[j].1,
        ) by {
            assert(dict_has_rev(x, y[j].0, y[j].1));
            let i = choose|i: int|
                0 <= i < x.len() && (#[trigger] x[i]).0 == y[j].0 && val_eq(x[i].1, y[j].1);
            lemma_val_eq_sym(x[i].1, y[j].1);
            assert(0 <= i < x.len() && x[i].0 == y[j].0 && val_eq(y[j].1, x[i].1));
        }
    }
    if dict_le(y, x) {
        assert forall|j: int| 0 <= j < y.len() implies dict_has_rev(
            x,
            (#[trigger] y[j]).0,
            y[j].1,
        ) by {
            assert(dict_has(x, y[j].0, y[j].1));
            let i = choose|i: int|
                0 <= i < x.len() && (#[trigger] x[i]).0 == y[j].0 && val_eq(y[j].1, x[i].1);
            lemma_val_eq_sym(x[i].1, y[j].1);
            assert(0 <= i < x.len() && x[i].0 == y[j].0 && val_eq(x[i].1, y[j].1));
        }
    }
}

/// Value equality does not depend on the order of its operands — in
/// particular, an integer equals a floating-point value exactly when the
/// floating-point value equals the integer.
pub proof fn lemma_val_eq_sym(a: Val, b: Val)
    ensures
        val_eq(a, b) == val_eq(b, a),
    decreases a, 1int,
{
    match (a, b) {
        (Val::Arr(x), Val::Arr(y)) => {
            if x.len() == y.len() {
                assert forall|i: int| 0 <= i < x.len() implies val_eq(#[trigger] x[i], y[i])
                    == val_eq(y[i], x[i]) by {
                    lemma_val_eq_sym(x[i], y[i]);
                }
                if val_eq(a, b) {
                    assert(forall|i: int| 0 <= i < y.len() ==> val_eq(#[trigger] y[i], x[i]));
                }
                if val_eq(b, a) {
                    assert(forall|i: int| 0 <= i < x.len() ==> val_eq(#[trigger] x[i], y[i]));
                }
            }
        },
        (Val::Dict(x), Val::Dict(y)) => {
            lemma_dict_le_flip(x, y);
            lemma_dict_ge_flip(x, y);
        },
        _ => {},
    }
}

} // verus!
