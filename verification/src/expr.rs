use vstd::prelude::*;

use crate::number::{
    all_digits, dec_eq, dec_int_eq, dec_view, float_float_eq, float_int_eq, float_sem, has_sign,
    int_lit_val, int_text, int_to_chars, is_digit, is_float_literal, is_int_literal,
    lemma_nat_text_digits, nat_text, num_body, num_is_neg, parse_float_chars, parse_int_chars,
    push_range, sem_eq, FloatClass, FloatDec, FloatSem,
};
use crate::text::{chars_of, string_from_chars};
use crate::val::{dict_ge, dict_has, dict_has_rev, dict_le, val_eq, Val};

verus! {

/// A floating-point value, kept as the literal that denoted it together
/// with the decimal normal form decoded from it.
#[derive(Debug)]
pub struct FloatLit {
    text: String,
    dec: FloatDec,
}

impl FloatLit {
    /// The characters of the literal as written.
    pub closed spec fn text_spec(&self) -> Seq<char> {
        self.text@
    }

    #[verifier::type_invariant]
    spec fn inv(self) -> bool {
        &&& is_float_literal(self.text@)
        &&& dec_view(self.dec) == float_sem(self.text@)
        &&& all_digits(self.dec.sig@)
    }

    /// Accepts exactly the literals the floating-point grammar accepts.
    pub fn new(text: String) -> (r: Option<FloatLit>)
        ensures
            match r {
                Some(f) => is_float_literal(text@) && f.text_spec() == text@,
                None => !is_float_literal(text@),
            },
    {
        let cs = chars_of(text.as_str());
        match parse_float_chars(&cs) {
            Some(d) => Some(FloatLit { text, dec: d }),
            None => None,
        }
    }

    pub(crate) fn from_parts(text: String, dec: FloatDec) -> (r: FloatLit)
        requires
            is_float_literal(text@),
            dec_view(dec) == float_sem(text@),
            all_digits(dec.sig@),
        ensures
            r.text_spec() == text@,
    {
        FloatLit { text, dec }
    }

    /// The literal text.
    pub fn text(&self) -> (r: &String)
        ensures
            r@ == self.text_spec(),
    {
        &self.text
    }

    /// Whether this literal and another denote equal values.
    pub fn value_eq(&self, other: &FloatLit) -> (r: bool)
        ensures
            r == float_float_eq(self.text_spec(), other.text_spec()),
    {
        proof {
            use_type_invariant(self);
            use_type_invariant(other);
        }
        dec_eq(&self.dec, &other.dec)
    }

    /// Whether this literal denotes exactly the integer `n`.
    pub fn value_eq_int(&self, n: i128) -> (r: bool)
        ensures
            r == float_int_eq(n as int, self.text_spec()),
    {
        proof {
            use_type_invariant(self);
        }
        dec_int_eq(n, &self.dec)
    }

    /// Appends the encoding of the decimal class this literal denotes.
    fn push_sem_bytes(&self, out: &mut Vec<u8>)
        ensures
            final(out)@ == old(out)@ + sem_bytes(float_sem(self.text_spec())),
    {
        proof {
            use_type_invariant(self);
        }
        match self.dec.class {
            FloatClass::Nan => {
                out.push(0u8);
                proof {
                    assert(out@ =~= old(out)@ + sem_bytes(float_sem(self.text_spec())));
                }
            },
            FloatClass::Inf => {
                out.push(1u8);
                if self.dec.neg {
                    out.push(1u8);
                } else {
                    out.push(0u8);
                }
                proof {
                    assert(out@ =~= old(out)@ + sem_bytes(float_sem(self.text_spec())));
                }
            },
            FloatClass::Zero => {
                out.push(2u8);
                proof {
                    assert(out@ =~= old(out)@ + sem_bytes(float_sem(self.text_spec())));
                }
            },
            FloatClass::Fin => {
                out.push(3u8);
                if self.dec.neg {
                    out.push(1u8);
                } else {
                    out.push(0u8);
                }
                push_le_bytes(self.dec.exp as u128, 16, out);
                push_le_bytes(self.dec.sig.len() as u128, 8, out);
                push_chars_bytes(&self.dec.sig, out);
                proof {
                    assert(out@ =~= old(out)@ + sem_bytes(float_sem(self.text_spec())));
                }
            },
        }
    }
}

impl Clone for FloatLit {
    fn clone(&self) -> (r: Self)
        ensures
            r.text_spec() == self.text_spec(),
    {
        proof {
            use_type_invariant(self);
        }
        let mut sig: Vec<char> = Vec::new();
        push_range(&self.dec.sig, 0, self.dec.sig.len(), &mut sig);
        proof {
            assert(sig@ =~= self.dec.sig@);
        }
        let dec = FloatDec {
            class: self.dec.class,
            neg: self.dec.neg,
            sig,
            exp: self.dec.exp,
        };
        proof {
            assert(dec_view(dec) == dec_view(self.dec));
        }
        FloatLit { text: self.text.clone(), dec }
    }
}

/// A parsed value: the tagged union at the heart of the notation.
#[derive(Debug)]
pub enum Expr {
    Null(),
    Boolean(bool),
    Integer(i128),
    Float(FloatLit),
    String(String),
    Array(Vec<Expr>),
    Dict(Vec<(String, Expr)>),
}

/// The model of a value tree.
pub open spec fn expr_view(e: Expr) -> Val
    decreases e,
{
    match e {
        Expr::Null() => Val::Null,
        Expr::Boolean(b) => Val::Bool(b),
        Expr::Integer(n) => Val::Int(n),
        Expr::Float(f) => Val::Float(f.text_spec()),
        Expr::String(s) => Val::Str(s@),
        Expr::Array(a) => Val::Arr(exprs_view(a@)),
        Expr::Dict(m) => Val::Dict(pairs_view(m@)),
    }
}

pub open spec fn exprs_view(s: Seq<Expr>) -> Seq<Val>
    decreases s,
{
    if s.len() == 0 {
        Seq::empty()
    } else {
        exprs_view(s.drop_last()).push(expr_view(s.last()))
    }
}

pub open spec fn pairs_view(s: Seq<(String, Expr)>) -> Seq<(Seq<char>, Val)>
    decreases s,
{
    if s.len() == 0 {
        Seq::empty()
    } else {
        pairs_view(s.drop_last()).push((s.last().0@, expr_view(s.last().1)))
    }
}

impl View for Expr {
    type V = Val;

    open spec fn view(&self) -> Val {
        expr_view(*self)
    }
}

pub broadcast proof fn lemma_exprs_view_len(s: Seq<Expr>)
    ensures
        (#[trigger] exprs_view(s)).len() == s.len(),
    decreases s,
{
    if s.len() > 0 {
        lemma_exprs_view_len(s.drop_last());
    }
}

pub broadcast proof fn lemma_exprs_view_index(s: Seq<Expr>, i: int)
    requires
        0 <= i < s.len(),
    ensures
        #[trigger] exprs_view(s)[i] == expr_view(s[i]),
    decreases s,
{
    lemma_exprs_view_len(s);
    if s.len() > 0 {
        if i < s.len() - 1 {
            lemma_exprs_view_index(s.drop_last(), i);
        }
    }
}

pub broadcast proof fn lemma_pairs_view_len(s: Seq<(String, Expr)>)
    ensures
        (#[trigger] pairs_view(s)).len() == s.len(),
    decreases s,
{
    if s.len() > 0 {
        lemma_pairs_view_len(s.drop_last());
    }
}

pub broadcast proof fn lemma_pairs_view_index(s: Seq<(String, Expr)>, i: int)
    requires
        0 <= i < s.len(),
    ensures
        #[trigger] pairs_view(s)[i] == (s[i].0@, expr_view(s[i].1)),
    decreases s,
{
    lemma_pairs_view_len(s);
    if s.len() > 0 {
        if i < s.len() - 1 {
            lemma_pairs_view_index(s.drop_last(), i);
        }
    }
}

/// How a bare token classifies, first match winning: `N`, `T`, `F`, an
/// integer literal, a floating-point literal, and otherwise the text itself.
/// No token is refused.
pub open spec fn classify_val(s: Seq<char>) -> Val {
    if s.len() == 1 && s[0] == 'N' {
        Val::Null
    } else if s.len() == 1 && s[0] == 'T' {
        Val::Bool(true)
    } else if s.len() == 1 && s[0] == 'F' {
        Val::Bool(false)
    } else if is_int_literal(s) {
        Val::Int(int_lit_val(s) as i128)
    } else if is_float_literal(s) {
        Val::Float(s)
    } else {
        Val::Str(s)
    }
}

impl Expr {
    /// Classifies a bare token, consuming the gathered characters.
    pub(crate) fn from_atom(cs: Vec<char>) -> (r: Expr)
        ensures
            r@ == classify_val(cs@),
    {
        if cs.len() == 1 && cs[0] == 'N' {
            return Expr::Null();
        }
        if cs.len() == 1 && cs[0] == 'T' {
            return Expr::Boolean(true);
        }
        if cs.len() == 1 && cs[0] == 'F' {
            return Expr::Boolean(false);
        }
        match parse_int_chars(&cs) {
            Some(n) => {
                return Expr::Integer(n);
            },
            None => {},
        }
        let text = string_from_chars(&cs);
        match parse_float_chars(&cs) {
            Some(d) => Expr::Float(FloatLit::from_parts(text, d)),
            None => Expr::String(text),
        }
    }

    /// Classifies a bare token given as a string.
    pub fn from(s: &String) -> (r: Expr)
        ensures
            r@ == classify_val(s@),
    {
        let cs = chars_of(s.as_str());
        Expr::from_atom(cs)
    }

    pub fn as_null(&self) -> (r: Option<()>)
        ensures
            r is Some <==> self@ is Null,
    {
        match self {
            Expr::Null() => Some(()),
            _ => None,
        }
    }

    pub fn as_boolean(&self) -> (r: Option<bool>)
        ensures
            match self@ {
                Val::Bool(b) => r == Some(b),
                _ => r is None,
            },
    {
        match self {
            Expr::Boolean(b) => Some(*b),
            _ => None,
        }
    }

    pub fn as_integer(&self) -> (r: Option<i128>)
        ensures
            match self@ {
                Val::Int(n) => r == Some(n),
                _ => r is None,
            },
    {
        match self {
            Expr::Integer(n) => Some(*n),
            _ => None,
        }
    }

    pub fn as_float(&self) -> (r: Option<&FloatLit>)
        ensures
            match self@ {
                Val::Float(t) => r matches Some(f) && f.text_spec() == t,
                _ => r is None,
            },
    {
        match self {
            Expr::Float(f) => Some(f),
            _ => None,
        }
    }

    pub fn as_string(&self) -> (r: Option<String>)
        ensures
            match self@ {
                Val::Str(t) => r matches Some(s) && s@ == t,
                _ => r is None,
            },
    {
        match self {
            Expr::String(s) => Some(s.clone()),
            _ => None,
        }
    }

    pub fn as_array(&self) -> (r: Option<&Vec<Expr>>)
        ensures
            match self@ {
                Val::Arr(x) => r matches Some(a) && exprs_view(a@) == x,
                _ => r is None,
            },
    {
        match self {
            Expr::Array(a) => Some(a),
            _ => None,
        }
    }

    pub fn as_map(&self) -> (r: Option<&Vec<(String, Expr)>>)
        ensures
            match self@ {
                Val::Dict(x) => r matches Some(m) && pairs_view(m@) == x,
                _ => r is None,
            },
    {
        match self {
            Expr::Dict(m) => Some(m),
            _ => None,
        }
    }
}

impl Clone for Expr {
    /// A deep copy with the same model.
    fn clone(&self) -> (r: Self)
        ensures
            r@ == self@,
        decreases *self,
    {
        match self {
            Expr::Null() => Expr::Null(),
            Expr::Boolean(b) => Expr::Boolean(*b),
            Expr::Integer(n) => Expr::Integer(*n),
            Expr::Float(f) => Expr::Float(f.clone()),
            Expr::String(s) => Expr::String(s.clone()),
            Expr::Array(a) => {
                let n = a.len();
                let mut out: Vec<Expr> = Vec::new();
                let mut i: usize = 0;
                while i < n
                    invariant
                        *self == Expr::Array(*a),
                        0 <= i <= n,
                        n == a.len(),
                        out@.len() == i,
                        forall|j: int| 0 <= j < i ==> expr_view(#[trigger] out@[j]) == expr_view(
                            a@[j],
                        ),
                    decreases n - i,
                {
                    proof {
                        assert(*self is Array);
                        assert(self->Array_0 == *a);
                        assert(decreases_to!(*self => self->Array_0));
                        assert(decreases_to!(*a => a@));
                        assert(decreases_to!(a@ => a@[i as int]));
                        assert(decreases_to!(*self => a@[i as int]));
                    }
                    out.push(a[i].clone());
                    i = i + 1;
                }
                proof {
                    broadcast use lemma_exprs_view_len, lemma_exprs_view_index;

                    assert(exprs_view(out@) =~= exprs_view(a@));
                }
                Expr::Array(out)
            },
            Expr::Dict(m) => {
                let n = m.len();
                let mut out: Vec<(String, Expr)> = Vec::new();
                let mut i: usize = 0;
                while i < n
                    invariant
                        *self == Expr::Dict(*m),
                        0 <= i <= n,
                        n == m.len(),
                        out@.len() == i,
                        forall|j: int|
                            0 <= j < i ==> (#[trigger] out@[j]).0@ == m@[j].0@ && expr_view(
                                out@[j].1,
                            ) == expr_view(m@[j].1),
                    decreases n - i,
                {
                    proof {
                        assert(*self is Dict);
                        assert(self->Dict_0 == *m);
                        assert(decreases_to!(*self => self->Dict_0));
                        assert(decreases_to!(*m => m@));
                        assert(decreases_to!(m@ => m@[i as int]));
                        assert(decreases_to!(m@[i as int] => m@[i as int].1));
                        assert(decreases_to!(*self => m@[i as int].1));
                    }
                    let k = m[i].0.clone();
                    let v = m[i].1.clone();
                    out.push((k, v));
                    i = i + 1;
                }
                proof {
                    broadcast use lemma_pairs_view_len, lemma_pairs_view_index;

                    assert(pairs_view(out@) =~= pairs_view(m@));
                }
                Expr::Dict(out)
            },
        }
    }
}

/// Every entry of `x` finds a key-equal, value-equal entry in `y`.
fn dict_le_exec(x: &Vec<(String, Expr)>, y: &Vec<(String, Expr)>) -> (r: bool)
    ensures
        r == dict_le(pairs_view(x@), pairs_view(y@)),
    decreases x@,
{
    proof {
        broadcast use lemma_pairs_view_len, lemma_pairs_view_index;

    }
    let ghost xv = pairs_view(x@);
    let ghost yv = pairs_view(y@);
    let n = x.len();
    let m = y.len();
    let mut i: usize = 0;
    while i < n
        invariant
            0 <= i <= n,
            n == x.len(),
            m == y.len(),
            xv == pairs_view(x@),
            yv == pairs_view(y@),
            xv.len() == n,
            yv.len() == m,
            forall|a: int| 0 <= a < xv.len() ==> #[trigger] xv[a] == (x@[a].0@, expr_view(x@[a].1)),
            forall|b: int| 0 <= b < yv.len() ==> #[trigger] yv[b] == (y@[b].0@, expr_view(y@[b].1)),
            forall|a: int| 0 <= a < i ==> dict_has(yv, (#[trigger] xv[a]).0, xv[a].1),
        decreases n - i,
    {
        let mut j: usize = 0;
        let mut found = false;
        while j < m
            invariant
                0 <= i < n,
                0 <= j <= m,
                n == x.len(),
                m == y.len(),
                xv == pairs_view(x@),
                yv == pairs_view(y@),
                xv.len() == n,
                yv.len() == m,
                forall|a: int|
                    0 <= a < xv.len() ==> #[trigger] xv[a] == (x@[a].0@, expr_view(x@[a].1)),
                forall|b: int|
                    0 <= b < yv.len() ==> #[trigger] yv[b] == (y@[b].0@, expr_view(y@[b].1)),
                !found ==> forall|b: int|
                    0 <= b < j ==> !((#[trigger] yv[b]).0 == xv[i as int].0 && val_eq(
                        xv[i as int].1,
                        yv[b].1,
                    )),
                found ==> dict_has(yv, xv[i as int].0, xv[i as int].1),
            ensures
                found == dict_has(yv, xv[i as int].0, xv[i as int].1),
            decreases m - j,
        {
            proof {
                assert(decreases_to!(x@ => x@[i as int]));
                assert(decreases_to!(x@[i as int] => x@[i as int].1));
            }
            if x[i].0.eq(&y[j].0) && x[i].1.eq(&y[j].1) {
                found = true;
                proof {
                    assert(0 <= j < yv.len() && yv[j as int].0 == xv[i as int].0 && val_eq(
                        xv[i as int].1,
                        yv[j as int].1,
                    ));
                }
                break;
            }
            j = j + 1;
        }
        if !found {
            proof {
                assert(!dict_le(xv, yv));
            }
            return false;
        }
        i = i + 1;
    }
    true
}

impl PartialEq for Expr {
    /// Value equality: structural, recursive, with the cross-variant numeric
    /// relaxation; `nan` literals never compare equal, and dictionaries
    /// compare without regard to entry order.
    fn eq(&self, other: &Self) -> (r: bool)
        ensures
            r == val_eq(self@, other@),
        decreases *self,
    {
        match (self, other) {
            (Expr::Null(), Expr::Null()) => true,
            (Expr::Boolean(x), Expr::Boolean(y)) => *x == *y,
            (Expr::Integer(x), Expr::Integer(y)) => *x == *y,
            (Expr::Float(x), Expr::Float(y)) => x.value_eq(y),
            (Expr::Integer(x), Expr::Float(y)) => y.value_eq_int(*x),
            (Expr::Float(x), Expr::Integer(y)) => x.value_eq_int(*y),
            (Expr::String(x), Expr::String(y)) => x.eq(y),
            (Expr::Array(x), Expr::Array(y)) => {
                proof {
                    broadcast use lemma_exprs_view_len, lemma_exprs_view_index;

                }
                let ghost xv = exprs_view(x@);
                let ghost yv = exprs_view(y@);
                let n = x.len();
                if n != y.len() {
                    return false;
                }
                let mut i: usize = 0;
                while i < n
                    invariant
                        *self == Expr::Array(*x),
                        *other == Expr::Array(*y),
                        0 <= i <= n,
                        n == x.len() == y.len(),
                        xv == exprs_view(x@),
                        yv == exprs_view(y@),
                        xv.len() == n,
                        yv.len() == n,
                        forall|a: int| 0 <= a < n ==> #[trigger] xv[a] == expr_view(x@[a]),
                        forall|b: int| 0 <= b < n ==> #[trigger] yv[b] == expr_view(y@[b]),
                        forall|a: int| 0 <= a < i ==> val_eq(#[trigger] xv[a], yv[a]),
                    decreases n - i,
                {
                    proof {
                        assert(*self is Array);
                        assert(self->Array_0 == *x);
                        assert(decreases_to!(*self => self->Array_0));
                        assert(decreases_to!(x@ => x@[i as int]));
                    }
                    if !x[i].eq(&y[i]) {
                        proof {
                            assert(!val_eq(xv[i as int], yv[i as int]));
                            assert(!val_eq(self@, other@));
                        }
                        return false;
                    }
                    i = i + 1;
                }
                true
            },
            (Expr::Dict(x), Expr::Dict(y)) => {
                proof {
                    assert(*self is Dict);
                    assert(self->Dict_0 == *x);
                    assert(decreases_to!(*self => self->Dict_0));
                    assert(decreases_to!(self->Dict_0 => x@));
                }
                let le = dict_le_exec(x, y);
                if !le {
                    return false;
                }
                dict_ge_exec(x, y)
            },
            _ => false,
        }
    }
}

/// Every entry of `y` is matched by an entry of `x` with an equal value.
fn dict_ge_exec(x: &Vec<(String, Expr)>, y: &Vec<(String, Expr)>) -> (r: bool)
    ensures
        r == dict_ge(pairs_view(x@), pairs_view(y@)),
    decreases x@,
{
    proof {
        broadcast use lemma_pairs_view_len, lemma_pairs_view_index;

    }
    let ghost xv = pairs_view(x@);
    let ghost yv = pairs_view(y@);
    let n = x.len();
    let m = y.len();
    let mut j: usize = 0;
    while j < m
        invariant
            0 <= j <= m,
            n == x.len(),
            m == y.len(),
            xv == pairs_view(x@),
            yv == pairs_view(y@),
            xv.len() == n,
            yv.len() == m,
            forall|a: int| 0 <= a < xv.len() ==> #[trigger] xv[a] == (x@[a].0@, expr_view(x@[a].1)),
            forall|b: int| 0 <= b < yv.len() ==> #[trigger] yv[b] == (y@[b].0@, expr_view(y@[b].1)),
            forall|b: int| 0 <= b < j ==> dict_has_rev(xv, (#[trigger] yv[b]).0, yv[b].1),
        decreases m - j,
    {
        let mut i: usize = 0;
        let mut found = false;
        while i < n
            invariant
                0 <= j < m,
                0 <= i <= n,
                n == x.len(),
                m == y.len(),
                xv == pairs_view(x@),
                yv == pairs_view(y@),
                xv.len() == n,
                yv.len() == m,
                forall|a: int|
                    0 <= a < xv.len() ==> #[trigger] xv[a] == (x@[a].0@, expr_view(x@[a].1)),
                forall|b: int|
                    0 <= b < yv.len() ==> #[trigger] yv[b] == (y@[b].0@, expr_view(y@[b].1)),
                !found ==> forall|a: int|
                    0 <= a < i ==> !((#[trigger] xv[a]).0 == yv[j as int].0 && val_eq(
                        xv[a].1,
                        yv[j as int].1,
                    )),
                found ==> dict_has_rev(xv, yv[j as int].0, yv[j as int].1),
            ensures
                found == dict_has_rev(xv, yv[j as int].0, yv[j as int].1),
            decreases n - i,
        {
            proof {
                assert(decreases_to!(x@ => x@[i as int]));
                assert(decreases_to!(x@[i as int] => x@[i as int].1));
            }
            if x[i].0.eq(&y[j].0) && x[i].1.eq(&y[j].1) {
                found = true;
                proof {
                    assert(0 <= i < xv.len() && xv[i as int].0 == yv[j as int].0 && val_eq(
                        xv[i as int].1,
                        yv[j as int].1,
                    ));
                }
                break;
            }
            i = i + 1;
        }
        if !found {
            proof {
                assert(!dict_ge(xv, yv));
            }
            return false;
        }
        j = j + 1;
    }
    true
}

impl vstd::std_specs::cmp::PartialEqSpecImpl for Expr {
    open spec fn obeys_eq_spec() -> bool {
        true
    }

    open spec fn eq_spec(&self, other: &Expr) -> bool {
        val_eq(self@, other@)
    }
}

// ---------------------------------------------------------------------------
// Canonical text rendering
// ---------------------------------------------------------------------------

/// The canonical rendering of a value: `N`, `T`/`F`, decimal text for
/// numbers, a floating-point literal as written, raw text for a string with
/// no quoting or escaping, space-joined elements in `[`/`]` for an array and
/// space-joined `key value` pairs in `(`/`)` for a dictionary.
pub open spec fn text_of(v: Val) -> Seq<char>
    decreases v, 1int,
{
    match v {
        Val::Null => seq!['N'],
        Val::Bool(b) => if b {
            seq!['T']
        } else {
            seq!['F']
        },
        Val::Int(n) => int_text(n as int),
        Val::Float(t) => t,
        Val::Str(s) => s,
        Val::Arr(x) => seq!['['] + texts_join(x) + seq![']'],
        Val::Dict(x) => seq!['('] + pairs_join(x) + seq![')'],
    }
}

/// Renderings joined by single spaces.
pub open spec fn texts_join(x: Seq<Val>) -> Seq<char>
    decreases x, 2int,
{
    if x.len() == 0 {
        Seq::empty()
    } else if x.len() == 1 {
        text_of(x.first())
    } else {
        text_of(x.first()) + seq![' '] + texts_join(x.drop_first())
    }
}

/// `key value` pairs joined by single spaces.
pub open spec fn pairs_join(x: Seq<(Seq<char>, Val)>) -> Seq<char>
    decreases x, 2int,
{
    if x.len() == 0 {
        Seq::empty()
    } else if x.len() == 1 {
        x.first().0 + seq![' '] + text_of(x.first().1)
    } else {
        x.first().0 + seq![' '] + text_of(x.first().1) + seq![' '] + pairs_join(x.drop_first())
    }
}

proof fn lemma_texts_join_push(x: Seq<Val>, e: Val)
    ensures
        texts_join(x.push(e)) == if x.len() == 0 {
            text_of(e)
        } else {
            texts_join(x) + seq![' '] + text_of(e)
        },
    decreases x.len(),
{
    let xe = x.push(e);
    if x.len() == 0 {
        assert(xe.len() == 1);
        assert(xe.first() == e);
    } else {
        assert(xe.first() == x.first());
        assert(xe.drop_first() =~= x.drop_first().push(e));
        lemma_texts_join_push(x.drop_first(), e);
        if x.len() == 1 {
            assert(x.drop_first().len() == 0);
            assert(texts_join(xe) == text_of(x.first()) + seq![' '] + text_of(e));
            assert(texts_join(x) == text_of(x.first()));
        } else {
            assert(texts_join(xe) == text_of(x.first()) + seq![' '] + (texts_join(x.drop_first())
                + seq![' '] + text_of(e)));
            assert(texts_join(xe) =~= texts_join(x) + seq![' '] + text_of(e));
        }
    }
}

proof fn lemma_pairs_join_push(x: Seq<(Seq<char>, Val)>, e: (Seq<char>, Val))
    ensures
        pairs_join(x.push(e)) == if x.len() == 0 {
            e.0 + seq![' '] + text_of(e.1)
        } else {
            pairs_join(x) + seq![' '] + e.0 + seq![' '] + text_of(e.1)
        },
    decreases x.len(),
{
    let xe = x.push(e);
    if x.len() == 0 {
        assert(xe.len() == 1);
        assert(xe.first() == e);
    } else {
        assert(xe.first() == x.first());
        assert(xe.drop_first() =~= x.drop_first().push(e));
        lemma_pairs_join_push(x.drop_first(), e);
        if x.len() == 1 {
            assert(x.drop_first().len() == 0);
            assert(pairs_join(xe) =~= pairs_join(x) + seq![' '] + e.0 + seq![' '] + text_of(e.1));
        } else {
            assert(pairs_join(xe) =~= pairs_join(x) + seq![' '] + e.0 + seq![' '] + text_of(e.1));
        }
    }
}

impl Expr {
    /// Appends this value's canonical rendering.
    fn push_text(&self, out: &mut Vec<char>)
        ensures
            final(out)@ == old(out)@ + text_of(self@),
        decreases *self,
    {
        match self {
            Expr::Null() => {
                out.push('N');
                proof {
                    assert(out@ =~= old(out)@ + text_of(self@));
                }
            },
            Expr::Boolean(b) => {
                if *b {
                    out.push('T');
                } else {
                    out.push('F');
                }
                proof {
                    assert(out@ =~= old(out)@ + text_of(self@));
                }
            },
            Expr::Integer(n) => {
                let mut cs = int_to_chars(*n);
                out.append(&mut cs);
            },
            Expr::Float(f) => {
                let mut cs = chars_of(f.text().as_str());
                out.append(&mut cs);
            },
            Expr::String(s) => {
                let mut cs = chars_of(s.as_str());
                out.append(&mut cs);
            },
            Expr::Array(a) => {
                proof {
                    broadcast use lemma_exprs_view_len, lemma_exprs_view_index;

                }
                let ghost xv = exprs_view(a@);
                out.push('[');
                let n = a.len();
                let mut i: usize = 0;
                while i < n
                    invariant
                        *self == Expr::Array(*a),
                        0 <= i <= n,
                        n == a.len(),
                        xv == exprs_view(a@),
                        xv.len() == n,
                        forall|c: int| 0 <= c < n ==> #[trigger] xv[c] == expr_view(a@[c]),
                        out@ == old(out)@ + seq!['['] + texts_join(xv.take(i as int)),
                    decreases n - i,
                {
                    proof {
                        assert(*self is Array);
                        assert(self->Array_0 == *a);
                        assert(decreases_to!(*self => self->Array_0));
                        assert(decreases_to!(a@ => a@[i as int]));
                    }
                    if i > 0 {
                        out.push(' ');
                    }
                    a[i].push_text(out);
                    proof {
                        assert(xv.take(i + 1) =~= xv.take(i as int).push(xv[i as int]));
                        lemma_texts_join_push(xv.take(i as int), xv[i as int]);
                        assert(out@ =~= old(out)@ + seq!['['] + texts_join(xv.take(i + 1)));
                    }
                    i = i + 1;
                }
                out.push(']');
                proof {
                    assert(xv.take(n as int) =~= xv);
                    assert(out@ =~= old(out)@ + text_of(self@));
                }
            },
            Expr::Dict(m) => {
                proof {
                    broadcast use lemma_pairs_view_len, lemma_pairs_view_index;

                }
                let ghost xv = pairs_view(m@);
                out.push('(');
                let n = m.len();
                let mut i: usize = 0;
                while i < n
                    invariant
                        *self == Expr::Dict(*m),
                        0 <= i <= n,
                        n == m.len(),
                        xv == pairs_view(m@),
                        xv.len() == n,
                        forall|c: int|
                            0 <= c < n ==> #[trigger] xv[c] == (m@[c].0@, expr_view(m@[c].1)),
                        out@ == old(out)@ + seq!['('] + pairs_join(xv.take(i as int)),
                    decreases n - i,
                {
                    proof {
                        assert(*self is Dict);
                        assert(self->Dict_0 == *m);
                        assert(decreases_to!(*self => self->Dict_0));
                        assert(decreases_to!(m@ => m@[i as int]));
                        assert(decreases_to!(m@[i as int] => m@[i as int].1));
                    }
                    if i > 0 {
                        out.push(' ');
                    }
                    let mut kc = chars_of(m[i].0.as_str());
                    out.append(&mut kc);
                    out.push(' ');
                    m[i].1.push_text(out);
                    proof {
                        assert(xv.take(i + 1) =~= xv.take(i as int).push(xv[i as int]));
                        lemma_pairs_join_push(xv.take(i as int), xv[i as int]);
                        assert(out@ =~= old(out)@ + seq!['('] + pairs_join(xv.take(i + 1)));
                    }
                    i = i + 1;
                }
                out.push(')');
                proof {
                    assert(xv.take(n as int) =~= xv);
                    assert(out@ =~= old(out)@ + text_of(self@));
                }
            },
        }
    }

    /// The canonical rendering as a string.
    pub fn to_text(&self) -> (r: String)
        ensures
            r@ == text_of(self@),
    {
        let mut out: Vec<char> = Vec::new();
        self.push_text(&mut out);
        string_from_chars(&out)
    }
}

// ---------------------------------------------------------------------------
// Laws of classification and rendering
// ---------------------------------------------------------------------------

/// The canonical decimal text of an integer classifies back to it.
pub proof fn lemma_classify_int_text(n: i128)
    ensures
        classify_val(int_text(n as int)) == Val::Int(n),
{
    if n >= 0 {
        let t = int_text(n as int);
        lemma_nat_text_digits(n as int);
        assert(is_digit(t[0]));
        assert(t[0] != 'N' && t[0] != 'T' && t[0] != 'F' && t[0] != '+' && t[0] != '-');
        assert(!has_sign(t));
        assert(num_body(t) == t);
        assert(is_int_literal(t));
        assert(int_lit_val(t) == n as int);
    } else {
        let t = int_text(n as int);
        let m = -(n as int);
        lemma_nat_text_digits(m);
        assert(t == seq!['-'] + nat_text(m));
        assert(t[0] == '-');
        assert(t.len() >= 2);
        assert(has_sign(t));
        assert(num_is_neg(t));
        assert(t.drop_first() =~= nat_text(m));
        assert(all_digits(num_body(t)));
        assert(int_lit_val(t) == n as int);
        assert(is_int_literal(t));
    }
}

/// Rendering an atom's classification and classifying the rendering gives
/// an equal value. This holds of every bare token — strings included, since
/// a token that classified as text is rendered verbatim — except a token
/// denoting a `nan`, which equals nothing, itself included.
pub proof fn lemma_atom_round_trip(t: Seq<char>)
    requires
        classify_val(t) matches Val::Float(ft) ==> !(float_sem(ft) is Nan),
    ensures
        val_eq(classify_val(text_of(classify_val(t))), classify_val(t)),
{
    let v = classify_val(t);
    match v {
        Val::Null => {
            assert(text_of(v) == seq!['N']);
            assert(classify_val(text_of(v)) == Val::Null);
        },
        Val::Bool(b) => {
            if b {
                assert(text_of(v) == seq!['T']);
                assert(classify_val(text_of(v)) == Val::Bool(true));
            } else {
                assert(text_of(v) == seq!['F']);
                assert(classify_val(text_of(v)) == Val::Bool(false));
            }
        },
        Val::Int(n) => {
            lemma_classify_int_text(n);
            assert(val_eq(Val::Int(n), Val::Int(n)));
        },
        Val::Float(ft) => {
            assert(ft == t);
            assert(text_of(v) == t);
            assert(classify_val(text_of(v)) == Val::Float(t));
            assert(float_float_eq(t, t)) by {
                let x = float_sem(t);
                assert(!(x is Nan));
                assert(sem_eq(x, x));
            }
        },
        Val::Str(s) => {
            assert(s == t);
            assert(text_of(v) == t);
            assert(classify_val(text_of(v)) == Val::Str(t));
        },
        _ => {
            assert(false);
        },
    }
}

// ---------------------------------------------------------------------------
// Canonical encoding
// ---------------------------------------------------------------------------

/// `k` little-endian bytes of `u`.
pub open spec fn le_bytes(u: int, k: int) -> Seq<u8>
    decreases k,
{
    if k <= 0 {
        Seq::empty()
    } else {
        seq![(u % 256) as u8] + le_bytes(u / 256, k - 1)
    }
}

/// Each character as four little-endian bytes of its scalar value.
pub open spec fn chars_bytes(s: Seq<char>) -> Seq<u8>
    decreases s.len(),
{
    if s.len() == 0 {
        Seq::empty()
    } else {
        chars_bytes(s.drop_last()) + le_bytes((s.last() as u32) as int, 4)
    }
}

/// The payload encoding of a floating-point value: its decimal class and
/// normal form, so floating-point literals denoting equal values encode
/// equally, whatever text denoted them.
pub open spec fn sem_bytes(x: FloatSem) -> Seq<u8> {
    match x {
        FloatSem::Nan => seq![0u8],
        FloatSem::Inf(neg) => seq![1u8, if neg {
            1u8
        } else {
            0u8
        }],
        FloatSem::Zero => seq![2u8],
        FloatSem::Fin(neg, sig, adj) => seq![3u8, if neg {
            1u8
        } else {
            0u8
        }] + le_bytes((adj as i128 as u128) as int, 16) + le_bytes(sig.len() as int, 8)
            + chars_bytes(sig),
    }
}

/// The canonical encoding of a value: a discriminant tag byte, then the
/// variant's payload, lengths carried as eight little-endian bytes. Within
/// a variant, equal values encode equally: floating-point payloads are the
/// decimal normal form, and a dictionary's payload is its entry count and a
/// wrapping sum of per-entry digests, so entry order plays no role. Across
/// the numeric variants the known asymmetry stands: an integer and a
/// numerically equal floating-point value encode differently, also where
/// they sit inside an array or dictionary.
pub open spec fn enc_of(v: Val) -> Seq<u8>
    decreases v, 1int,
{
    match v {
        Val::Null => seq![0u8],
        Val::Bool(b) => seq![1u8, if b {
            1u8
        } else {
            0u8
        }],
        Val::Int(n) => seq![2u8] + le_bytes((n as u128) as int, 16),
        Val::Float(t) => seq![3u8] + sem_bytes(float_sem(t)),
        Val::Str(s) => seq![4u8] + le_bytes(s.len() as int, 8) + chars_bytes(s),
        Val::Arr(x) => seq![5u8] + le_bytes(x.len() as int, 8) + enc_list(x),
        Val::Dict(x) => seq![6u8] + le_bytes(x.len() as int, 8) + le_bytes(
            dict_digest(x) as int,
            8,
        ),
    }
}

/// Floating-point values that are equal encode equally: hashing by the
/// canonical encoding is consistent with equality within the variant.
pub proof fn lemma_float_enc_consistent(a: Seq<char>, b: Seq<char>)
    requires
        float_float_eq(a, b),
    ensures
        enc_of(Val::Float(a)) == enc_of(Val::Float(b)),
{
}

pub open spec fn enc_list(x: Seq<Val>) -> Seq<u8>
    decreases x, 2int,
{
    if x.len() == 0 {
        Seq::empty()
    } else {
        enc_list(x.drop_last()) + enc_of(x.last())
    }
}

/// One step of the FNV-1a digest over a byte.
pub open spec fn fnv8_step(h: u64, b: u8) -> u64 {
    vstd::wrapping::u64_specs::wrapping_mul(h ^ (b as u64), 0x100000001b3u64)
}

/// The FNV-1a digest of a byte sequence.
pub open spec fn fnv_bytes(s: Seq<u8>) -> u64
    decreases s.len(),
{
    if s.len() == 0 {
        0xcbf29ce484222325u64
    } else {
        fnv8_step(fnv_bytes(s.drop_last()), s.last())
    }
}

/// The bytes of one dictionary entry: the length-prefixed key, then the
/// value's encoding.
pub open spec fn entry_bytes(e: (Seq<char>, Val)) -> Seq<u8>
    decreases e, 2int,
{
    le_bytes(e.0.len() as int, 8) + chars_bytes(e.0) + enc_of(e.1)
}

/// The combined digest of a dictionary's entries: a wrapping sum of each
/// entry's digest, one commutative combination, so the order the entries
/// stand in plays no role.
pub open spec fn dict_digest(x: Seq<(Seq<char>, Val)>) -> u64
    decreases x, 3int,
{
    if x.len() == 0 {
        0u64
    } else {
        vstd::wrapping::u64_specs::wrapping_add(
            dict_digest(x.drop_last()),
            fnv_bytes(entry_bytes(x.last())),
        )
    }
}

/// Appends `k` little-endian bytes of `u`.
fn push_le_bytes(u0: u128, k: u8, out: &mut Vec<u8>)
    ensures
        final(out)@ == old(out)@ + le_bytes(u0 as int, k as int),
    decreases k,
{
    if k == 0 {
        proof {
            assert(out@ =~= old(out)@ + le_bytes(u0 as int, 0));
        }
    } else {
        out.push((u0 % 256) as u8);
        push_le_bytes(u0 / 256, k - 1, out);
        proof {
            assert(out@ =~= old(out)@ + le_bytes(u0 as int, k as int));
        }
    }
}

/// Appends every character as four little-endian bytes.
fn push_chars_bytes(s: &Vec<char>, out: &mut Vec<u8>)
    ensures
        final(out)@ == old(out)@ + chars_bytes(s@),
{
    let n = s.len();
    let mut i: usize = 0;
    while i < n
        invariant
            0 <= i <= n,
            n == s.len(),
            out@ == old(out)@ + chars_bytes(s@.take(i as int)),
        decreases n - i,
    {
        let c = s[i];
        push_le_bytes(c as u32 as u128, 4, out);
        proof {
            assert(s@.take(i + 1).drop_last() =~= s@.take(i as int));
            assert(s@.take(i + 1).last() == s@[i as int]);
            assert(out@ =~= old(out)@ + chars_bytes(s@.take(i + 1)));
        }
        i = i + 1;
    }
    proof {
        assert(s@.take(n as int) =~= s@);
    }
}

/// The FNV-1a digest of gathered bytes.
fn fnv_bytes_vec(s: &Vec<u8>) -> (r: u64)
    ensures
        r == fnv_bytes(s@),
{
    let n = s.len();
    let mut h: u64 = 0xcbf29ce484222325u64;
    let mut i: usize = 0;
    while i < n
        invariant
            0 <= i <= n,
            n == s.len(),
            h == fnv_bytes(s@.take(i as int)),
        decreases n - i,
    {
        let b = s[i];
        h = (h ^ (b as u64)).wrapping_mul(0x100000001b3u64);
        proof {
            assert(s@.take(i + 1).drop_last() =~= s@.take(i as int));
            assert(s@.take(i + 1).last() == s@[i as int]);
        }
        i = i + 1;
    }
    proof {
        assert(s@.take(n as int) =~= s@);
    }
    h
}

impl Expr {
    /// Appends this value's canonical encoding.
    fn push_canonical(&self, out: &mut Vec<u8>)
        ensures
            final(out)@ == old(out)@ + enc_of(self@),
        decreases *self,
    {
        match self {
            Expr::Null() => {
                out.push(0u8);
                proof {
                    assert(out@ =~= old(out)@ + enc_of(self@));
                }
            },
            Expr::Boolean(b) => {
                out.push(1u8);
                if *b {
                    out.push(1u8);
                } else {
                    out.push(0u8);
                }
                proof {
                    assert(out@ =~= old(out)@ + enc_of(self@));
                }
            },
            Expr::Integer(n) => {
                out.push(2u8);
                push_le_bytes(*n as u128, 16, out);
                proof {
                    assert(out@ =~= old(out)@ + enc_of(self@));
                }
            },
            Expr::Float(f) => {
                out.push(3u8);
                f.push_sem_bytes(out);
                proof {
                    assert(out@ =~= old(out)@ + enc_of(self@));
                }
            },
            Expr::String(s) => {
                out.push(4u8);
                let cs = chars_of(s.as_str());
                push_le_bytes(cs.len() as u128, 8, out);
                push_chars_bytes(&cs, out);
                proof {
                    assert(out@ =~= old(out)@ + enc_of(self@));
                }
            },
            Expr::Array(a) => {
                proof {
                    broadcast use lemma_exprs_view_len, lemma_exprs_view_index;

                }
                let ghost xv = exprs_view(a@);
                out.push(5u8);
                let n = a.len();
                push_le_bytes(n as u128, 8, out);
                let ghost mid = out@;
                let mut i: usize = 0;
                while i < n
                    invariant
                        *self == Expr::Array(*a),
                        0 <= i <= n,
                        n == a.len(),
                        xv == exprs_view(a@),
                        xv.len() == n,
                        forall|c: int| 0 <= c < n ==> #[trigger] xv[c] == expr_view(a@[c]),
                        out@ == mid + enc_list(xv.take(i as int)),
                    decreases n - i,
                {
                    proof {
                        assert(*self is Array);
                        assert(self->Array_0 == *a);
                        assert(decreases_to!(*self => self->Array_0));
                        assert(decreases_to!(a@ => a@[i as int]));
                    }
                    a[i].push_canonical(out);
                    proof {
                        assert(xv.take(i + 1).drop_last() =~= xv.take(i as int));
                        assert(xv.take(i + 1).last() == xv[i as int]);
                        assert(out@ =~= mid + enc_list(xv.take(i + 1)));
                    }
                    i = i + 1;
                }
                proof {
                    assert(xv.take(n as int) =~= xv);
                    assert(out@ =~= old(out)@ + enc_of(self@));
                }
            },
            Expr::Dict(m) => {
                proof {
                    broadcast use lemma_pairs_view_len, lemma_pairs_view_index;

                }
                let ghost xv = pairs_view(m@);
                out.push(6u8);
                let n = m.len();
                push_le_bytes(n as u128, 8, out);
                let mut dig: u64 = 0;
                let mut i: usize = 0;
                while i < n
                    invariant
                        *self == Expr::Dict(*m),
                        0 <= i <= n,
                        n == m.len(),
                        xv == pairs_view(m@),
                        xv.len() == n,
                        forall|c: int|
                            0 <= c < n ==> #[trigger] xv[c] == (m@[c].0@, expr_view(m@[c].1)),
                        dig == dict_digest(xv.take(i as int)),
                    decreases n - i,
                {
                    proof {
                        assert(*self is Dict);
                        assert(self->Dict_0 == *m);
                        assert(decreases_to!(*self => self->Dict_0));
                        assert(decreases_to!(m@ => m@[i as int]));
                        assert(decreases_to!(m@[i as int] => m@[i as int].1));
                    }
                    let mut eb: Vec<u8> = Vec::new();
                    let kc = chars_of(m[i].0.as_str());
                    push_le_bytes(kc.len() as u128, 8, &mut eb);
                    push_chars_bytes(&kc, &mut eb);
                    m[i].1.push_canonical(&mut eb);
                    proof {
                        assert(eb@ =~= entry_bytes(xv[i as int]));
                    }
                    let h = fnv_bytes_vec(&eb);
                    dig = dig.wrapping_add(h);
                    proof {
                        assert(xv.take(i + 1).drop_last() =~= xv.take(i as int));
                        assert(xv.take(i + 1).last() == xv[i as int]);
                        assert(dig == dict_digest(xv.take(i + 1)));
                    }
                    i = i + 1;
                }
                push_le_bytes(dig as u128, 8, out);
                proof {
                    assert(xv.take(n as int) =~= xv);
                    assert(out@ =~= old(out)@ + enc_of(self@));
                }
            },
        }
    }

    /// The canonical byte encoding: what a hasher is fed, so same-variant
    /// hashing is consistent with the value's content.
    pub fn canonical_bytes(&self) -> (r: Vec<u8>)
        ensures
            r@ == enc_of(self@),
    {
        let mut out: Vec<u8> = Vec::new();
        self.push_canonical(&mut out);
        out
    }
}

proof fn lemma_wadd_shuffle(a: u64, b: u64, c: u64)
    ensures
        vstd::wrapping::u64_specs::wrapping_add(
            vstd::wrapping::u64_specs::wrapping_add(a, b),
            c,
        ) == vstd::wrapping::u64_specs::wrapping_add(
            vstd::wrapping::u64_specs::wrapping_add(a, c),
            b,
        ),
{
}

/// Taking one entry out of a dictionary takes exactly its digest out of
/// the combined digest.
proof fn lemma_digest_remove(y: Seq<(Seq<char>, Val)>, j: int)
    requires
        0 <= j < y.len(),
    ensures
        dict_digest(y) == vstd::wrapping::u64_specs::wrapping_add(
            dict_digest(y.take(j) + y.skip(j + 1)),
            fnv_bytes(entry_bytes(y[j])),
        ),
    decreases y.len(),
{
    let rm = y.take(j) + y.skip(j + 1);
    if j == y.len() - 1 {
        assert(rm =~= y.drop_last());
    } else {
        let ydl = y.drop_last();
        let rmdl = ydl.take(j) + ydl.skip(j + 1);
        lemma_digest_remove(ydl, j);
        assert(rm.len() == y.len() - 1);
        assert(rm.last() == y[y.len() - 1]);
        assert(rm.drop_last() =~= rmdl);
        assert(ydl[j] == y[j]);
        lemma_wadd_shuffle(
            dict_digest(rmdl),
            fnv_bytes(entry_bytes(y[j])),
            fnv_bytes(entry_bytes(y.last())),
        );
    }
}

proof fn lemma_dict_digest_perm(x: Seq<(Seq<char>, Val)>, y: Seq<(Seq<char>, Val)>)
    requires
        x.len() == y.len(),
        forall|i: int, j: int|
            0 <= i < j < x.len() ==> (#[trigger] x[i]).0 != (#[trigger] x[j]).0,
        forall|i: int| 0 <= i < x.len() ==> y.contains(#[trigger] x[i]),
    ensures
        dict_digest(x) == dict_digest(y),
    decreases x.len(),
{
    if x.len() == 0 {
    } else {
        let e = x.last();
        assert(y.contains(e));
        let j = choose|j: int| 0 <= j < y.len() && y[j] == e;
        let x2 = x.drop_last();
        let y2 = y.take(j) + y.skip(j + 1);
        assert(x2.len() == y2.len());
        assert(forall|i: int, k: int|
            0 <= i < k < x2.len() ==> (#[trigger] x2[i]).0 != (#[trigger] x2[k]).0);
        assert forall|i: int| 0 <= i < x2.len() implies y2.contains(#[trigger] x2[i]) by {
            assert(x2[i] == x[i]);
            assert(y.contains(x[i]));
            let jj = choose|jj: int| 0 <= jj < y.len() && y[jj] == x[i];
            assert(jj != j) by {
                if jj == j {
                    assert(x[i] == e);
                    assert(x[i].0 == x[x.len() - 1].0);
                }
            }
            if jj < j {
                assert(y2[jj] == y[jj]);
            } else {
                assert(y2[jj - 1] == y[jj]);
            }
        }
        lemma_dict_digest_perm(x2, y2);
        lemma_digest_remove(y, j);
    }
}

/// Dictionaries carrying each key once and holding the same entries encode
/// equally, whatever order the entries stand in: hashing by the canonical
/// encoding is consistent with the order-insensitivity of map equality.
pub proof fn lemma_dict_enc_order_insensitive(x: Seq<(Seq<char>, Val)>, y: Seq<
    (Seq<char>, Val)>)
    requires
        x.len() == y.len(),
        forall|i: int, j: int|
            0 <= i < j < x.len() ==> (#[trigger] x[i]).0 != (#[trigger] x[j]).0,
        forall|i: int| 0 <= i < x.len() ==> y.contains(#[trigger] x[i]),
    ensures
        enc_of(Val::Dict(x)) == enc_of(Val::Dict(y)),
{
    lemma_dict_digest_perm(x, y);
}

} // verus!
