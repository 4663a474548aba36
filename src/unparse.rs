use vstd::prelude::*;
use crate::ast::{NodeModel, LitModel, OperatorData};
use crate::parse::{
    at, is_space, is_digit, is_ident_char, skip_spaces, ident_end, digits_end, string_end, literal,
    name, atom, op_pairs, operator, build, last_min, expr, expr_text, sign, digits_value, digit_value,
    lemma_digits_end_all,
};
use crate::text::{int_text, nat_text, digit_char};

verus! {

pub open spec fn op_text(op: OperatorData) -> Seq<char> {
    match op {
        OperatorData::Eq => seq!['=', '='],
        OperatorData::NotEq => seq!['!', '='],
        OperatorData::Add => seq!['+'],
        OperatorData::Sub => seq!['-'],
        OperatorData::Mul => seq!['*'],
        OperatorData::Div => seq!['/'],
    }
}

/// The text of an expression with every operation in parentheses.
pub open spec fn unparse(n: NodeModel) -> Seq<char>
    decreases n,
{
    match n {
        NodeModel::Name(k) => seq!['$'] + k,
        NodeModel::Value(LitModel::Int(i)) => int_text(i),
        NodeModel::Value(LitModel::Float(t)) => t,
        NodeModel::Value(LitModel::Str(s)) => seq!['"'] + s + seq!['"'],
        NodeModel::Expr(l, op, r) => seq!['('] + unparse(*l) + op_text(op) + unparse(*r) + seq![')'],
        _ => Seq::empty(),
    }
}

pub open spec fn all_digits(t: Seq<char>, a: int, b: int) -> bool {
    forall|j: int| a <= j < b ==> is_digit(#[trigger] t[j])
}

/// Text of a float literal: an optional `-`, digits, `.`, digits.
pub open spec fn float_text_ok(t: Seq<char>) -> bool {
    let k: int = if t.len() > 0 && t[0] == '-' { 1 } else { 0 };
    let a = digits_end(t, k);
    a > k && at(t, a, '.') && t.len() > a + 1 && all_digits(t, a + 1, t.len() as int)
}

/// The body of a string literal: not empty, and its first unescaped `"` is
/// the one that closes it.
pub open spec fn string_body_ok(b: Seq<char>) -> bool {
    b.len() > 0 && string_end(b.push('"'), 0) == b.len()
}

/// The expressions that the parser gives: names of identifier characters,
/// integers whose magnitude fits in 63 bits, well-formed float and string
/// literals, and operations on such.
pub open spec fn printable(n: NodeModel) -> bool
    decreases n,
{
    match n {
        NodeModel::Name(k) => k.len() > 0 && forall|j: int| 0 <= j < k.len() ==> is_ident_char(#[trigger] k[j]),
        NodeModel::Value(LitModel::Int(i)) => -i64::MAX <= i <= i64::MAX,
        NodeModel::Value(LitModel::Float(t)) => float_text_ok(t),
        NodeModel::Value(LitModel::Str(s)) => string_body_ok(s),
        NodeModel::Expr(l, _, r) => printable(*l) && printable(*r),
        _ => false,
    }
}

/// What may follow an expression: the end, a `)`, or the start of an operator.
pub open spec fn stops(s: Seq<char>, q: int) -> bool {
    q == s.len() || (0 <= q < s.len() && (s[q] == ')' || s[q] == '=' || s[q] == '!' || s[q] == '+'
        || s[q] == '-' || s[q] == '*' || s[q] == '/'))
}

pub proof fn lemma_digits_run(s: Seq<char>, p: int, e: int)
    requires
        0 <= p <= e <= s.len(),
        all_digits(s, p, e),
        !(e < s.len() && is_digit(s[e])),
    ensures
        digits_end(s, p) == e,
    decreases e - p,
{
    if p < e {
        lemma_digits_run(s, p + 1, e);
    }
}

pub proof fn lemma_ident_run(s: Seq<char>, p: int, e: int)
    requires
        0 <= p <= e <= s.len(),
        forall|j: int| p <= j < e ==> is_ident_char(#[trigger] s[j]),
        !(e < s.len() && is_ident_char(s[e])),
    ensures
        ident_end(s, p) == e,
    decreases e - p,
{
    if p < e {
        lemma_ident_run(s, p + 1, e);
    }
}

/// A string body well formed on its own ends at the same place inside a
/// longer text.
pub proof fn lemma_string_run(s: Seq<char>, p: int, b: Seq<char>, i: int)
    requires
        0 <= p,
        0 <= i <= b.len(),
        p + b.len() < s.len(),
        s.subrange(p, p + b.len()) == b,
        s[p + b.len()] == '"',
        string_end(b.push('"'), i) == b.len(),
    ensures
        string_end(s, p + i) == p + b.len(),
    decreases b.len() - i,
{
    let x = b.push('"');
    if i < b.len() {
        assert(s[p + i] == s.subrange(p, p + b.len())[i]);
        assert(x[i] == b[i]);
        if x[i] == '\\' {
            if i + 1 == b.len() {
                assert(string_end(x, i + 2) == i + 2);
            }
            lemma_string_run(s, p, b, i + 2);
        } else {
            lemma_string_run(s, p, b, i + 1);
        }
    }
}

pub proof fn lemma_digit_char(d: int)
    requires
        0 <= d < 10,
    ensures
        is_digit(digit_char(d)),
        digit_value(digit_char(d)) == d,
{
}

pub proof fn lemma_nat_text(n: nat)
    ensures
        nat_text(n).len() >= 1,
        all_digits(nat_text(n), 0, nat_text(n).len() as int),
        digits_value(nat_text(n)) == n,
    decreases n,
{
    if n >= 10 {
        lemma_nat_text(n / 10);
        lemma_digit_char((n % 10) as int);
        let t = nat_text(n);
        assert(t.drop_last() =~= nat_text(n / 10));
        assert(t.last() == digit_char((n % 10) as int));
        assert((n / 10) * 10 + n % 10 == n);
        assert(digits_value(t) == digits_value(nat_text(n / 10)) * 10 + digit_value(t.last()));
        assert(digits_value(t) == (n / 10) * 10 + n % 10);
        assert(all_digits(t, 0, t.len() as int)) by {
            assert forall|j: int| 0 <= j < t.len() implies is_digit(#[trigger] t[j]) by {
                if j < t.len() - 1 {
                    assert(t[j] == nat_text(n / 10)[j]);
                }
            }
        }
    } else {
        lemma_digit_char(n as int);
        let t = seq![digit_char(n as int)];
        assert(t.drop_last() =~= Seq::<char>::empty());
        assert(digits_value(t) == digits_value(t.drop_last()) * 10 + digit_value(t.last()));
        assert(digits_value(Seq::<char>::empty()) == 0);
    }
}

} // verus!

verus! {

proof fn lemma_chars_at(s: Seq<char>, p: int, u: Seq<char>)
    requires
        0 <= p,
        p + u.len() <= s.len(),
        s.subrange(p, p + u.len()) == u,
    ensures
        forall|j: int| 0 <= j < u.len() ==> #[trigger] s[p + j] == u[j],
{
    assert forall|j: int| 0 <= j < u.len() implies #[trigger] s[p + j] == u[j] by {
        assert(s.subrange(p, p + u.len())[j] == s[p + j]);
    }
}

proof fn lemma_build_one(l: NodeModel, op: OperatorData, r: NodeModel)
    ensures
        build(seq![l, r], seq![op]) == NodeModel::Expr(Box::new(l), op, Box::new(r)),
{
    let atoms = seq![l, r];
    let ops = seq![op];
    assert(last_min(ops) == 0);
    assert(atoms.subrange(0, 1) =~= seq![l]);
    assert(atoms.subrange(1, 2) =~= seq![r]);
    assert(ops.subrange(0, 0) =~= Seq::<OperatorData>::empty());
    assert(ops.subrange(1, 1) =~= Seq::<OperatorData>::empty());
    assert(build(seq![l], Seq::empty()) == l);
    assert(build(seq![r], Seq::empty()) == r);
}

pub open spec fn embedded(s: Seq<char>, p: int, n: NodeModel) -> bool {
    &&& 0 <= p
    &&& p + unparse(n).len() <= s.len()
    &&& s.subrange(p, p + unparse(n).len()) == unparse(n)
    &&& stops(s, p + unparse(n).len())
}

proof fn lemma_atom_name(s: Seq<char>, p: int, k: Seq<char>)
    requires
        printable(NodeModel::Name(k)),
        embedded(s, p, NodeModel::Name(k)),
    ensures
        atom(s, p) == Some((NodeModel::Name(k), p + unparse(NodeModel::Name(k)).len())),
{
    let u = unparse(NodeModel::Name(k));
    let e = p + u.len();
    lemma_chars_at(s, p, u);
    assert(s[p + 0] == u[0]);
    assert(s[p] == '$');
    assert forall|j: int| p + 1 <= j < e implies is_ident_char(#[trigger] s[j]) by {
        assert(s[p + (j - p)] == u[j - p]);
        assert(u[j - p] == k[j - p - 1]);
    }
    assert(skip_spaces(s, p) == p);
    lemma_ident_run(s, p + 1, e);
    assert(digits_end(s, p) == p);
    assert(literal(s, p) is None);
    assert(s.subrange(p + 1, e) =~= k) by {
        assert forall|j: int| 0 <= j < k.len() implies #[trigger] s.subrange(p + 1, e)[j] == k[j] by {
            assert(s[p + (1 + j)] == u[1 + j]);
        }
    }
    assert(name(s, p) == Some((k, e)));
    assert(skip_spaces(s, e) == e);
}

proof fn lemma_atom_int(s: Seq<char>, p: int, i: int)
    requires
        printable(NodeModel::Value(LitModel::Int(i))),
        embedded(s, p, NodeModel::Value(LitModel::Int(i))),
    ensures
        atom(s, p) == Some((NodeModel::Value(LitModel::Int(i)), p + unparse(NodeModel::Value(LitModel::Int(i))).len())),
{
    let u = unparse(NodeModel::Value(LitModel::Int(i)));
    let e = p + u.len();
    lemma_chars_at(s, p, u);
    let m: nat = if i < 0 { (-i) as nat } else { i as nat };
    lemma_nat_text(m);
    let d: int = if i < 0 { p + 1 } else { p };
    assert(u == if i < 0 { seq!['-'] + nat_text(m) } else { nat_text(m) });
    assert(all_digits(s, d, e)) by {
        assert forall|j: int| d <= j < e implies is_digit(#[trigger] s[j]) by {
            assert(s[p + (j - p)] == u[j - p]);
            if i < 0 {
                assert(u[j - p] == nat_text(m)[j - p - 1]);
            }
        }
    }
    assert(s[p + 0] == u[0]);
    if i >= 0 {
        assert(is_digit(nat_text(m)[0]));
    }
    assert(skip_spaces(s, p) == p);
    assert(sign(s, p) == (d, i < 0));
    lemma_digits_run(s, d, e);
    assert(s.subrange(d, e) =~= nat_text(m)) by {
        assert forall|j: int| 0 <= j < e - d implies #[trigger] s.subrange(d, e)[j] == nat_text(m)[j] by {
            assert(s[p + (d - p + j)] == u[d - p + j]);
        }
    }
    assert(literal(s, p) == Some((LitModel::Int(i), e)));
    assert(skip_spaces(s, e) == e);
}

proof fn lemma_atom_float(s: Seq<char>, p: int, t: Seq<char>)
    requires
        printable(NodeModel::Value(LitModel::Float(t))),
        embedded(s, p, NodeModel::Value(LitModel::Float(t))),
    ensures
        atom(s, p) == Some((NodeModel::Value(LitModel::Float(t)), p + t.len())),
{
    let e = p + t.len();
    lemma_chars_at(s, p, t);
    let k: int = if t.len() > 0 && t[0] == '-' { 1 } else { 0 };
    let a = digits_end(t, k);
    lemma_digits_end_all(t, k);
    assert(all_digits(s, p + k, p + a)) by {
        assert forall|j: int| p + k <= j < p + a implies is_digit(#[trigger] s[j]) by {
            assert(s[p + (j - p)] == t[j - p]);
        }
    }
    assert(s[p + a] == t[a]);
    lemma_digits_run(s, p + k, p + a);
    assert(all_digits(s, p + a + 1, e)) by {
        assert forall|j: int| p + a + 1 <= j < e implies is_digit(#[trigger] s[j]) by {
            assert(s[p + (j - p)] == t[j - p]);
        }
    }
    lemma_digits_run(s, p + a + 1, e);
    assert(s[p + 0] == t[0]);
    if k == 0 {
        assert(is_digit(t[0]));
    } else {
        assert(s[p + 1] == t[1]);
    }
    assert(skip_spaces(s, p) == p);
    assert(sign(s, p) == (p + k, k == 1));
    let prefix = if k == 1 { seq!['-'] } else { Seq::<char>::empty() };
    let whole = prefix + s.subrange(p + k, e);
    assert(whole =~= t) by {
        assert forall|j: int| 0 <= j < t.len() implies #[trigger] whole[j] == t[j] by {
            assert(s[p + j] == t[j]);
        }
    }
    assert(literal(s, p) == Some((LitModel::Float(t), e)));
    assert(skip_spaces(s, e) == e);
}

proof fn lemma_atom_str(s: Seq<char>, p: int, b: Seq<char>)
    requires
        printable(NodeModel::Value(LitModel::Str(b))),
        embedded(s, p, NodeModel::Value(LitModel::Str(b))),
    ensures
        atom(s, p) == Some((NodeModel::Value(LitModel::Str(b)), p + unparse(NodeModel::Value(LitModel::Str(b))).len())),
{
    let u = unparse(NodeModel::Value(LitModel::Str(b)));
    let e = p + u.len();
    lemma_chars_at(s, p, u);
    assert(s[p + 0] == u[0]);
    assert(s[p] == '"');
    assert(s.subrange(p + 1, p + 1 + b.len()) =~= b) by {
        assert forall|j: int| 0 <= j < b.len() implies #[trigger] s.subrange(p + 1, p + 1 + b.len())[j] == b[j] by {
            assert(s[p + (1 + j)] == u[1 + j]);
        }
    }
    assert(s[p + (1 + b.len())] == u[1 + b.len() as int]);
    lemma_string_run(s, p + 1, b, 0);
    assert(skip_spaces(s, p) == p);
    assert(digits_end(s, p) == p);
    assert(literal(s, p) == Some((LitModel::Str(b), e)));
    assert(skip_spaces(s, e) == e);
}

proof fn lemma_atom_expr(s: Seq<char>, p: int, l: NodeModel, op: OperatorData, r: NodeModel)
    requires
        embedded(s, p, NodeModel::Expr(Box::new(l), op, Box::new(r))),
        atom(s, p + 1) == Some((l, p + 1 + unparse(l).len())),
        atom(s, p + 1 + unparse(l).len() + op_text(op).len()) == Some((
            r,
            p + 1 + unparse(l).len() + op_text(op).len() + unparse(r).len(),
        )),
        unparse(l).len() >= 1,
        unparse(r).len() >= 1,
    ensures
        atom(s, p) == Some((NodeModel::Expr(Box::new(l), op, Box::new(r)), p + unparse(NodeModel::Expr(Box::new(l), op, Box::new(r))).len())),
{
    let n = NodeModel::Expr(Box::new(l), op, Box::new(r));
    let u = unparse(n);
    let e = p + u.len();
    let lu = unparse(l);
    let ou = op_text(op);
    let ru = unparse(r);
    let p1 = p + 1 + lu.len();
    let q1 = p1 + ou.len();
    let q2 = q1 + ru.len();
    lemma_chars_at(s, p, u);
    assert(u =~= seq!['('] + lu + ou + ru + seq![')']);
    assert(s[p + 0] == u[0]);
    assert(s[p + (1 + lu.len())] == u[1 + lu.len() as int]);
    assert(s[p + (1 + lu.len() + ou.len() + ru.len())] == u[1 + lu.len() as int + ou.len() as int + ru.len() as int]);
    if ou.len() == 2 {
        assert(s[p + (2 + lu.len())] == u[2 + lu.len() as int]);
    }
    assert(operator(s, p1) == Some((op, q1)));
    assert(operator(s, q2) is None);
    assert(op_pairs(s, q2) == (Seq::<(OperatorData, NodeModel)>::empty(), q2));
    let pairs = seq![(op, r)];
    assert(op_pairs(s, p1) == (seq![(op, r)] + Seq::<(OperatorData, NodeModel)>::empty(), q2));
    assert(seq![(op, r)] + Seq::<(OperatorData, NodeModel)>::empty() =~= pairs);
    assert(seq![l] + Seq::new(pairs.len(), |i: int| pairs[i].1) =~= seq![l, r]);
    assert(Seq::new(pairs.len(), |i: int| pairs[i].0) =~= seq![op]);
    lemma_build_one(l, op, r);
    assert(expr(s, p + 1) == Some((n, q2)));
    assert(skip_spaces(s, p) == p);
    assert(digits_end(s, p) == p);
    assert(literal(s, p) is None);
    assert(name(s, p) is None);
    assert(skip_spaces(s, e) == e);
}

/// An unparsed expression, followed by the end, a `)` or an operator, is
/// read back by `atom` as the same tree.
pub proof fn lemma_atom_unparse(s: Seq<char>, p: int, n: NodeModel)
    requires
        printable(n),
        embedded(s, p, n),
    ensures
        unparse(n).len() >= 1,
        atom(s, p) == Some((n, p + unparse(n).len())),
    decreases n,
{
    match n {
        NodeModel::Name(k) => lemma_atom_name(s, p, k),
        NodeModel::Value(LitModel::Int(i)) => {
            lemma_nat_text(if i < 0 { (-i) as nat } else { i as nat });
            lemma_atom_int(s, p, i);
        },
        NodeModel::Value(LitModel::Float(t)) => lemma_atom_float(s, p, t),
        NodeModel::Value(LitModel::Str(b)) => lemma_atom_str(s, p, b),
        NodeModel::Expr(l, op, r) => {
            let u = unparse(n);
            let lu = unparse(*l);
            let ou = op_text(op);
            let ru = unparse(*r);
            let p1 = p + 1 + lu.len();
            let q1 = p1 + ou.len();
            let q2 = q1 + ru.len();
            lemma_chars_at(s, p, u);
            assert(u =~= seq!['('] + lu + ou + ru + seq![')']);
            assert(s.subrange(p + 1, p1) =~= lu) by {
                assert forall|j: int| 0 <= j < lu.len() implies #[trigger] s.subrange(p + 1, p1)[j] == lu[j] by {
                    assert(s[p + (1 + j)] == u[1 + j]);
                }
            }
            assert(s.subrange(q1, q2) =~= ru) by {
                assert forall|j: int| 0 <= j < ru.len() implies #[trigger] s.subrange(q1, q2)[j] == ru[j] by {
                    assert(s[p + (1 + lu.len() + ou.len() + j)] == u[1 + lu.len() + ou.len() + j]);
                }
            }
            assert(s[p + (1 + lu.len())] == u[1 + lu.len() as int]);
            assert(s[p + (1 + lu.len() + ou.len() + ru.len())] == u[1 + lu.len() as int + ou.len() as int + ru.len() as int]);
            lemma_atom_unparse(s, p + 1, *l);
            lemma_atom_unparse(s, q1, *r);
            lemma_atom_expr(s, p, *l, op, *r);
        },
        _ => {},
    }
}

/// Round trip: an expression that the parser can give, written out with
/// every operation in parentheses, parses back to the same tree.
pub proof fn lemma_round_trip(n: NodeModel)
    requires
        printable(n),
    ensures
        expr_text(unparse(n)) == Ok::<NodeModel, crate::value::ErrorModel>(n),
{
    let s = unparse(n);
    assert(s.subrange(0, s.len() as int) =~= s);
    lemma_atom_unparse(s, 0, n);
    assert(operator(s, s.len() as int) is None);
    assert(op_pairs(s, s.len() as int) == (Seq::<(OperatorData, NodeModel)>::empty(), s.len() as int));
    let pairs = Seq::<(OperatorData, NodeModel)>::empty();
    assert(seq![n] + Seq::new(pairs.len(), |i: int| pairs[i].1) =~= seq![n]);
    assert(Seq::new(pairs.len(), |i: int| pairs[i].0) =~= Seq::<OperatorData>::empty());
    assert(build(seq![n], Seq::empty()) == n);
}

} // verus!

verus! {

proof fn lemma_ident_end_all(s: Seq<char>, p: int)
    requires
        0 <= p <= s.len(),
    ensures
        p <= ident_end(s, p) <= s.len(),
        forall|i: int| p <= i < ident_end(s, p) ==> is_ident_char(#[trigger] s[i]),
    decreases s.len() - p,
{
    if p < s.len() && is_ident_char(s[p]) {
        lemma_ident_end_all(s, p + 1);
    }
}

proof fn lemma_string_end_ge(s: Seq<char>, q: int)
    requires
        0 <= q <= s.len(),
    ensures
        q <= string_end(s, q) <= s.len(),
    decreases s.len() - q,
{
    if q < s.len() && s[q] != '"' {
        if s[q] == '\\' && q + 1 < s.len() {
            lemma_string_end_ge(s, q + 2);
        } else if s[q] != '\\' {
            lemma_string_end_ge(s, q + 1);
        }
    }
}

/// The body that a string literal read keeps is well formed on its own.
proof fn lemma_string_back(s: Seq<char>, p0: int, e: int, i: int)
    requires
        0 <= p0 <= i <= e < s.len(),
        s[e] == '"',
        string_end(s, i) == e,
    ensures
        string_end(s.subrange(p0, e).push('"'), i - p0) == e - p0,
    decreases e - i,
{
    let b = s.subrange(p0, e);
    let x = b.push('"');
    if i < e {
        assert(x[i - p0] == s[i]);
        if s[i] == '\\' && i + 1 < s.len() {
            lemma_string_end_ge(s, i + 2);
            if i + 1 == e {
                assert(false);
            }
            lemma_string_back(s, p0, e, i + 2);
        } else if s[i] != '\\' {
            lemma_string_back(s, p0, e, i + 1);
        }
    } else {
        assert(x[e - p0] == '"');
    }
}

proof fn lemma_literal_printable(s: Seq<char>, p: int)
    requires
        0 <= p <= s.len(),
        literal(s, p) is Some,
    ensures
        printable(NodeModel::Value(literal(s, p)->Some_0.0)),
{
    let (d, neg) = sign(s, p);
    let e1 = digits_end(s, d);
    let e2 = digits_end(s, e1 + 1);
    if e1 > d && at(s, e1, '.') && e2 > e1 + 1 {
        lemma_digits_end_all(s, d);
        lemma_digits_end_all(s, e1 + 1);
        let prefix = if neg { seq!['-'] } else { Seq::<char>::empty() };
        let t = prefix + s.subrange(d, e2);
        let k: int = if neg { 1 } else { 0 };
        assert(t[k] == s[d]);
        let a = k + (e1 - d);
        assert(all_digits(t, k, a)) by {
            assert forall|j: int| k <= j < a implies is_digit(#[trigger] t[j]) by {
                assert(t[j] == s[d + (j - k)]);
            }
        }
        assert(t[a] == s[e1]);
        lemma_digits_run(t, k, a);
        assert(all_digits(t, a + 1, t.len() as int)) by {
            assert forall|j: int| a + 1 <= j < t.len() implies is_digit(#[trigger] t[j]) by {
                assert(t[j] == s[d + (j - k)]);
            }
        }
        assert(float_text_ok(t));
    } else if e1 > d {
    } else if at(s, p, '"') {
        let e = string_end(s, p + 1);
        lemma_string_back(s, p + 1, e, p + 1);
    }
}

proof fn lemma_atom_printable(s: Seq<char>, p: int)
    requires
        0 <= p <= s.len(),
        atom(s, p) is Some,
    ensures
        printable(atom(s, p)->Some_0.0),
    decreases s.len() - p, 0int,
{
    let q = skip_spaces(s, p);
    crate::parse::lemma_skip_spaces_bounds(s, p);
    if literal(s, q) is Some {
        lemma_literal_printable(s, q);
    } else if name(s, q) is Some {
        lemma_ident_end_all(s, q + 1);
    } else if at(s, q, '(') && q >= p {
        lemma_expr_printable(s, q + 1);
    }
}

proof fn lemma_op_pairs_printable(s: Seq<char>, p: int)
    requires
        0 <= p <= s.len(),
    ensures
        forall|i: int| 0 <= i < op_pairs(s, p).0.len() ==> printable(#[trigger] op_pairs(s, p).0[i].1),
    decreases s.len() - p, 1int,
{
    match operator(s, p) {
        Some((op, q1)) => if q1 > p {
            match atom(s, q1) {
                Some((a, q2)) => if p < q2 <= s.len() {
                    lemma_atom_printable(s, q1);
                    lemma_op_pairs_printable(s, q2);
                    let rest = op_pairs(s, q2).0;
                    assert forall|i: int| 0 <= i < op_pairs(s, p).0.len() implies printable(#[trigger] op_pairs(s, p).0[i].1) by {
                        if i > 0 {
                            assert(op_pairs(s, p).0[i] == rest[i - 1]);
                        }
                    }
                },
                None => {},
            }
        },
        None => {},
    }
}

proof fn lemma_build_printable(atoms: Seq<NodeModel>, ops: Seq<OperatorData>)
    requires
        atoms.len() == ops.len() + 1,
        forall|i: int| 0 <= i < atoms.len() ==> printable(#[trigger] atoms[i]),
    ensures
        printable(build(atoms, ops)),
    decreases ops.len(),
{
    if ops.len() > 0 {
        let k = last_min(ops);
        crate::parse::lemma_last_min_bounds(ops);
        let la = atoms.subrange(0, k + 1);
        let ra = atoms.subrange(k + 1, atoms.len() as int);
        assert forall|i: int| 0 <= i < la.len() implies printable(#[trigger] la[i]) by {
            assert(la[i] == atoms[i]);
        }
        assert forall|i: int| 0 <= i < ra.len() implies printable(#[trigger] ra[i]) by {
            assert(ra[i] == atoms[k + 1 + i]);
        }
        lemma_build_printable(la, ops.subrange(0, k));
        lemma_build_printable(ra, ops.subrange(k + 1, ops.len() as int));
    }
}

proof fn lemma_expr_printable(s: Seq<char>, p: int)
    requires
        0 <= p <= s.len(),
    ensures
        expr(s, p) matches Some((n, _)) ==> printable(n),
    decreases s.len() - p, 1int,
{
    if let Some((a0, p1)) = atom(s, p) {
        if p < p1 <= s.len() {
            lemma_atom_printable(s, p);
            lemma_op_pairs_printable(s, p1);
            let pairs = op_pairs(s, p1).0;
            let atoms = seq![a0] + Seq::new(pairs.len(), |i: int| pairs[i].1);
            assert forall|i: int| 0 <= i < atoms.len() implies printable(#[trigger] atoms[i]) by {
                if i > 0 {
                    assert(atoms[i] == pairs[i - 1].1);
                }
            }
            lemma_build_printable(atoms, Seq::new(pairs.len(), |i: int| pairs[i].0));
        }
    }
}

/// Round trip: any expression the parser gives, written out with every
/// operation in parentheses, parses back to the same tree.
pub proof fn lemma_parse_unparse(s: Seq<char>)
    requires
        expr_text(s) is Ok,
    ensures
        expr_text(unparse(expr_text(s)->Ok_0)) == expr_text(s),
{
    lemma_expr_printable(s, 0);
    lemma_round_trip(expr_text(s)->Ok_0);
}

} // verus!
