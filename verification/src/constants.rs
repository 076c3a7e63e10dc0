use vstd::prelude::*;

use crate::expr::{expr_view, exprs_view, lemma_exprs_view_index, lemma_exprs_view_len, Expr};
use crate::val::Val;

verus! {

broadcast use lemma_exprs_view_len, lemma_exprs_view_index;

/// A module-level constant definition: an array of exactly three elements
/// whose first is the string `$` and whose second, the constant's name, is
/// a string too.
pub open spec fn is_const_def(v: Val) -> bool {
    &&& v is Arr
    &&& v->Arr_0.len() == 3
    &&& v->Arr_0[0] == Val::Str("$"@)
    &&& v->Arr_0[1] is Str
}

/// The defined constant's name.
pub open spec fn const_name(v: Val) -> Seq<char> {
    v->Arr_0[1]->Str_0
}

/// Some value among the first `n` defines a constant named `nm`.
pub open spec fn name_defined(ast: Seq<Expr>, n: int, nm: Seq<char>) -> bool {
    exists|j: int|
        0 <= j < n && is_const_def(expr_view(#[trigger] ast[j])) && const_name(expr_view(ast[j]))
            == nm
}

/// The gathered names include `nm`.
pub open spec fn name_listed(out: Seq<String>, nm: Seq<char>) -> bool {
    exists|a: int| 0 <= a < out.len() && (#[trigger] out[a])@ == nm
}

/// Collects the names of the constants a module's top-level values define:
/// exactly the names of its `[$ name value]` triples, each once.
pub fn scan_for_constants(ast: &Vec<Expr>) -> (r: Vec<String>)
    ensures
        forall|a: int, b: int|
            0 <= a < b < r@.len() ==> (#[trigger] r@[a])@ != (#[trigger] r@[b])@,
        forall|a: int|
            0 <= a < r@.len() ==> name_defined(ast@, ast@.len() as int, (#[trigger] r@[a])@),
        forall|i: int|
            0 <= i < ast@.len() && is_const_def(expr_view(#[trigger] ast@[i])) ==> name_listed(
                r@,
                const_name(expr_view(ast@[i])),
            ),
{
    let tag = "$".to_owned();
    let n = ast.len();
    let mut out: Vec<String> = Vec::new();
    let mut i: usize = 0;
    while i < n
        invariant
            0 <= i <= n,
            n == ast.len(),
            tag@ == "$"@,
            forall|a: int, b: int|
                0 <= a < b < out@.len() ==> (#[trigger] out@[a])@ != (#[trigger] out@[b])@,
            forall|a: int|
                0 <= a < out@.len() ==> name_defined(ast@, n as int, (#[trigger] out@[a])@),
            forall|j: int|
                0 <= j < i && is_const_def(expr_view(#[trigger] ast@[j])) ==> name_listed(
                    out@,
                    const_name(expr_view(ast@[j])),
                ),
        decreases n - i,
    {
        let ghost out0 = out@;
        match &ast[i] {
            Expr::Array(items) => {
                if items.len() == 3 {
                    let is_tag = match &items[0] {
                        Expr::String(s) => s.eq(&tag),
                        _ => false,
                    };
                    if is_tag {
                        match &items[1] {
                            Expr::String(name) => {
                                proof {
                                    assert(expr_view(ast@[i as int]) == Val::Arr(
                                        exprs_view(items@),
                                    ));
                                    assert(exprs_view(items@)[0] == expr_view(items@[0]));
                                    assert(exprs_view(items@)[1] == expr_view(items@[1]));
                                    assert(is_const_def(expr_view(ast@[i as int])));
                                    assert(const_name(expr_view(ast@[i as int])) == name@);
                                }
                                let mut have = false;
                                let m = out.len();
                                let mut a: usize = 0;
                                while a < m
                                    invariant
                                        0 <= a <= m,
                                        m == out.len(),
                                        out@ == out0,
                                        !have ==> forall|b: int|
                                            0 <= b < a ==> (#[trigger] out@[b])@ != name@,
                                        have ==> name_listed(out@, name@),
                                    ensures
                                        out@ == out0,
                                        have == name_listed(out@, name@),
                                    decreases m - a,
                                {
                                    if out[a].eq(name) {
                                        have = true;
                                        proof {
                                            assert((out@[a as int])@ == name@);
                                        }
                                        break;
                                    }
                                    a = a + 1;
                                }
                                if !have {
                                    out.push(name.clone());
                                    proof {
                                        assert(out@ == out0.push(out@.last()));
                                        assert((out@.last())@ == name@);
                                        assert(name_defined(ast@, n as int, name@)) by {
                                            assert(0 <= i < n && is_const_def(
                                                expr_view(ast@[i as int]),
                                            ) && const_name(expr_view(ast@[i as int])) == name@);
                                        }
                                        assert forall|a2: int|
                                            0 <= a2 < out@.len() implies name_defined(
                                            ast@,
                                            n as int,
                                            (#[trigger] out@[a2])@,
                                        ) by {
                                            if a2 < out0.len() {
                                                assert(out@[a2] == out0[a2]);
                                                assert(name_defined(ast@, n as int, (out0[a2])@));
                                            } else {
                                                assert((out@[a2])@ == name@);
                                            }
                                        }
                                        assert forall|j: int|
                                            0 <= j < i + 1 && is_const_def(
                                                expr_view(#[trigger] ast@[j]),
                                            ) implies name_listed(
                                            out@,
                                            const_name(expr_view(ast@[j])),
                                        ) by {
                                            if j < i {
                                                let b = choose|b: int|
                                                    0 <= b < out0.len() && (#[trigger] out0[b])@
                                                        == const_name(expr_view(ast@[j]));
                                                assert(out@[b] == out0[b]);
                                                assert((out@[b])@ == const_name(
                                                    expr_view(ast@[j]),
                                                ));
                                            } else {
                                                assert((out@[out0.len() as int])@ == name@);
                                            }
                                        }
                                        assert forall|a2: int, b2: int|
                                            0 <= a2 < b2 < out@.len() implies (
                                        #[trigger] out@[a2])@ != (#[trigger] out@[b2])@ by {
                                            if b2 < out0.len() {
                                                assert(out@[a2] == out0[a2] && out@[b2]
                                                    == out0[b2]);
                                            } else {
                                                assert(out@[a2] == out0[a2]);
                                                assert((out@[b2])@ == name@);
                                                assert((out0[a2])@ != name@);
                                            }
                                        }
                                    }
                                } else {
                                    proof {
                                        assert forall|j: int|
                                            0 <= j < i + 1 && is_const_def(
                                                expr_view(#[trigger] ast@[j]),
                                            ) implies name_listed(
                                            out@,
                                            const_name(expr_view(ast@[j])),
                                        ) by {
                                            if j == i {
                                                assert(name_listed(out@, name@));
                                            }
                                        }
                                    }
                                }
                            },
                            _ => {
                                proof {
                                    assert(expr_view(ast@[i as int]) == Val::Arr(
                                        exprs_view(items@),
                                    ));
                                    assert(exprs_view(items@)[1] == expr_view(items@[1]));
                                    assert(!is_const_def(expr_view(ast@[i as int])));
                                }
                            },
                        }
                    } else {
                        proof {
                            assert(expr_view(ast@[i as int]) == Val::Arr(exprs_view(items@)));
                            assert(exprs_view(items@)[0] == expr_view(items@[0]));
                            assert(!is_const_def(expr_view(ast@[i as int])));
                        }
                    }
                } else {
                    proof {
                        assert(expr_view(ast@[i as int]) == Val::Arr(exprs_view(items@)));
                        assert(!is_const_def(expr_view(ast@[i as int])));
                    }
                }
            },
            _ => {
                proof {
                    assert(!is_const_def(expr_view(ast@[i as int])));
                }
            },
        }
        i = i + 1;
    }
    out
}

} // verus!
