use vstd::prelude::*;
use vstd::string::StringExecFns;
use crate::ast::{Node, NodeModel, LitModel, OperatorData, ValueData, nodes_model};
use crate::value::{ErrorKind, ErrorModel};

verus! {

broadcast use vstd::std_specs::vec::group_vec_axioms;

// Lexical level. Every grammar function takes the whole input `s` and a
// position `p`, and gives what it read with the position after it.

pub open spec fn at(s: Seq<char>, i: int, c: char) -> bool {
    0 <= i < s.len() && s[i] == c
}

pub open spec fn is_space(c: char) -> bool {
    c == ' ' || c == '\t'
}

pub open spec fn is_digit(c: char) -> bool {
    '0' <= c && c <= '9'
}

pub open spec fn is_ident_char(c: char) -> bool {
    ('a' <= c && c <= 'z') || ('A' <= c && c <= 'Z') || is_digit(c) || c == '_'
}

/// A bare command argument runs to the next space, tab or line break.
pub open spec fn is_token_char(c: char) -> bool {
    !(c == ' ' || c == '\t' || c == '\r' || c == '\n')
}

/// Skips spaces and tabs.
pub open spec fn skip_spaces(s: Seq<char>, p: int) -> int
    decreases s.len() - p,
{
    if 0 <= p < s.len() && is_space(s[p]) {
        skip_spaces(s, p + 1)
    } else {
        p
    }
}

pub open spec fn ident_end(s: Seq<char>, p: int) -> int
    decreases s.len() - p,
{
    if 0 <= p < s.len() && is_ident_char(s[p]) {
        ident_end(s, p + 1)
    } else {
        p
    }
}

pub open spec fn digits_end(s: Seq<char>, p: int) -> int
    decreases s.len() - p,
{
    if 0 <= p < s.len() && is_digit(s[p]) {
        digits_end(s, p + 1)
    } else {
        p
    }
}

pub open spec fn token_end(s: Seq<char>, p: int) -> int
    decreases s.len() - p,
{
    if 0 <= p < s.len() && is_token_char(s[p]) {
        token_end(s, p + 1)
    } else {
        p
    }
}

/// The end of a string literal's body: the next `"` that no backslash
/// escapes, or the end of the input.
pub open spec fn string_end(s: Seq<char>, p: int) -> int
    decreases s.len() - p,
{
    if p < 0 || p >= s.len() || s[p] == '"' {
        p
    } else if s[p] == '\\' && p + 1 < s.len() {
        string_end(s, p + 2)
    } else if s[p] == '\\' {
        s.len() as int
    } else {
        string_end(s, p + 1)
    }
}

/// An identifier: one or more of `[A-Za-z0-9_]`.
pub open spec fn ident(s: Seq<char>, p: int) -> Option<(Seq<char>, int)> {
    let e = ident_end(s, p);
    if e > p {
        Some((s.subrange(p, e), e))
    } else {
        None
    }
}

/// A variable reference: `$` and an identifier.
pub open spec fn name(s: Seq<char>, p: int) -> Option<(Seq<char>, int)> {
    if at(s, p, '$') {
        ident(s, p + 1)
    } else {
        None
    }
}

pub open spec fn digit_value(c: char) -> nat {
    (c as u32 - '0' as u32) as nat
}

pub open spec fn digits_value(d: Seq<char>) -> nat
    decreases d.len(),
{
    if d.len() == 0 {
        0
    } else {
        digits_value(d.drop_last()) * 10 + digit_value(d.last())
    }
}

/// An optional `+` then an optional `-`: where the digits start, and
/// whether the literal is negative.
pub open spec fn sign(s: Seq<char>, p: int) -> (int, bool) {
    let p1 = if at(s, p, '+') { p + 1 } else { p };
    if at(s, p1, '-') {
        (p1 + 1, true)
    } else {
        (p1, false)
    }
}

/// A literal: a float (sign, digits, `.`, digits), else an integer (sign,
/// digits; its magnitude must fit in 63 bits), else a string (`"`, one or
/// more characters, `"`; a backslash takes the next character as it is and
/// stays in the text).
pub open spec fn literal(s: Seq<char>, p: int) -> Option<(LitModel, int)> {
    let (d, neg) = sign(s, p);
    let e1 = digits_end(s, d);
    let e2 = digits_end(s, e1 + 1);
    if e1 > d && at(s, e1, '.') && e2 > e1 + 1 {
        Some((LitModel::Float((if neg { seq!['-'] } else { Seq::empty() }) + s.subrange(d, e2)), e2))
    } else if e1 > d {
        let v = digits_value(s.subrange(d, e1));
        if v <= i64::MAX {
            Some((LitModel::Int(if neg { -v } else { v as int }), e1))
        } else {
            None
        }
    } else if at(s, p, '"') {
        let e = string_end(s, p + 1);
        if e > p + 1 && at(s, e, '"') {
            Some((LitModel::Str(s.subrange(p + 1, e)), e + 1))
        } else {
            None
        }
    } else {
        None
    }
}

pub open spec fn operator(s: Seq<char>, p: int) -> Option<(OperatorData, int)> {
    if at(s, p, '=') && at(s, p + 1, '=') {
        Some((OperatorData::Eq, p + 2))
    } else if at(s, p, '!') && at(s, p + 1, '=') {
        Some((OperatorData::NotEq, p + 2))
    } else if at(s, p, '+') {
        Some((OperatorData::Add, p + 1))
    } else if at(s, p, '-') {
        Some((OperatorData::Sub, p + 1))
    } else if at(s, p, '*') {
        Some((OperatorData::Mul, p + 1))
    } else if at(s, p, '/') {
        Some((OperatorData::Div, p + 1))
    } else {
        None
    }
}

// Expressions.

/// An atom, with the spaces around it: a literal, a variable reference, or
/// an expression in parentheses.
pub open spec fn atom(s: Seq<char>, p: int) -> Option<(NodeModel, int)>
    decreases s.len() - p, 0int,
{
    let q = skip_spaces(s, p);
    let inner = match literal(s, q) {
        Some((l, e)) => Some((NodeModel::Value(l), e)),
        None => match name(s, q) {
            Some((k, e)) => Some((NodeModel::Name(k), e)),
            None => if at(s, q, '(') && q >= p {
                match expr(s, q + 1) {
                    Some((x, e)) => if at(s, e, ')') {
                        Some((x, e + 1))
                    } else {
                        None
                    },
                    None => None,
                }
            } else {
                None
            },
        },
    };
    match inner {
        Some((x, e)) => Some((x, skip_spaces(s, e))),
        None => None,
    }
}

/// The `(operator, atom)` pairs that follow the first atom, as many as there are.
pub open spec fn op_pairs(s: Seq<char>, p: int) -> (Seq<(OperatorData, NodeModel)>, int)
    decreases s.len() - p, 1int,
{
    match operator(s, p) {
        Some((op, q1)) => if q1 > p {
            match atom(s, q1) {
                Some((a, q2)) => if p < q2 <= s.len() {
                    let (rest, q3) = op_pairs(s, q2);
                    (seq![(op, a)] + rest, q3)
                } else {
                    (Seq::empty(), p)
                },
                None => (Seq::empty(), p),
            }
        } else {
            (Seq::empty(), p)
        },
        None => (Seq::empty(), p),
    }
}

/// Index of the last operator of lowest priority.
pub open spec fn last_min(ops: Seq<OperatorData>) -> int
    decreases ops.len(),
{
    if ops.len() <= 1 {
        0
    } else {
        let k = last_min(ops.drop_last());
        if ops.last().priority() <= ops[k].priority() {
            ops.len() - 1
        } else {
            k
        }
    }
}

/// The tree of `a0 op0 a1 op1 ... an`: the last operator of lowest priority
/// is the root, so higher priorities bind first and equal ones group to the
/// left.
pub open spec fn build(atoms: Seq<NodeModel>, ops: Seq<OperatorData>) -> NodeModel
    decreases ops.len(),
{
    if ops.len() == 0 || atoms.len() != ops.len() + 1 {
        atoms[0]
    } else {
        let k = last_min(ops);
        if 0 <= k < ops.len() {
            NodeModel::Expr(
                Box::new(build(atoms.subrange(0, k + 1), ops.subrange(0, k))),
                ops[k],
                Box::new(build(atoms.subrange(k + 1, atoms.len() as int), ops.subrange(k + 1, ops.len() as int))),
            )
        } else {
            atoms[0]
        }
    }
}

/// An expression: an atom and the `(operator, atom)` pairs after it, grouped
/// by priority.
pub open spec fn expr(s: Seq<char>, p: int) -> Option<(NodeModel, int)>
    decreases s.len() - p, 1int,
{
    match atom(s, p) {
        Some((a0, p1)) => if p < p1 <= s.len() {
            let (pairs, p2) = op_pairs(s, p1);
            Some((
                build(seq![a0] + Seq::new(pairs.len(), |i: int| pairs[i].1), Seq::new(pairs.len(), |i: int| pairs[i].0)),
                p2,
            ))
        } else {
            None
        },
        None => None,
    }
}

} // verus!

verus! {

pub open spec fn node_result(r: Option<(Node, usize)>) -> Option<(NodeModel, int)> {
    match r {
        Some((n, q)) => Some((n@, q as int)),
        None => None,
    }
}

/// The parser's input, held both as text and as characters, with the
/// parser's line counter.
pub struct Parser {
    text: String,
    chars: Vec<char>,
    this_line: usize,
}

impl Parser {
    pub closed spec fn input(&self) -> Seq<char> {
        self.chars@
    }

    pub closed spec fn wf(&self) -> bool {
        &&& self.text@ == self.chars@
        &&& self.chars@.len() < usize::MAX
    }

    pub closed spec fn line(&self) -> nat {
        self.this_line as nat
    }

    /// A parser over `input`, on line 1.
    pub fn new(input: &str) -> (r: Parser)
        requires
            input@.len() < usize::MAX,
        ensures
            r.wf(),
            r.input() == input@,
            r.line() == 1,
    {
        let n = input.unicode_len();
        let mut chars: Vec<char> = Vec::new();
        let mut i: usize = 0;
        while i < n
            invariant
                n == input@.len(),
                i <= n,
                chars@ == input@.subrange(0, i as int),
            decreases n - i,
        {
            chars.push(input.get_char(i));
            i = i + 1;
            assert(chars@ =~= input@.subrange(0, i as int));
        }
        assert(chars@ =~= input@);
        Parser { text: input.to_owned(), chars, this_line: 1 }
    }

    /// Moves the line counter `s` lines on.
    pub fn next_to(&mut self, s: usize)
        requires
            old(self).line() + s <= usize::MAX,
        ensures
            final(self).line() == old(self).line() + s,
            final(self).input() == old(self).input(),
            final(self).wf() == old(self).wf(),
    {
        self.this_line = self.this_line + s;
    }

    pub fn next_line(&mut self)
        requires
            old(self).line() < usize::MAX,
        ensures
            final(self).line() == old(self).line() + 1,
            final(self).input() == old(self).input(),
            final(self).wf() == old(self).wf(),
    {
        self.next_to(1);
    }

    pub fn this_line(&self) -> (r: usize)
        ensures
            r == self.line(),
    {
        self.this_line
    }

    fn len(&self) -> (r: usize)
        ensures
            r == self.input().len(),
    {
        self.chars.len()
    }

    fn at(&self, i: usize, c: char) -> (r: bool)
        ensures
            r == at(self.input(), i as int, c),
            r ==> i < self.input().len(),
    {
        i < self.chars.len() && self.chars[i] == c
    }

    fn slice(&self, a: usize, b: usize) -> (r: String)
        requires
            self.wf(),
            a <= b <= self.input().len(),
        ensures
            r@ == self.input().subrange(a as int, b as int),
    {
        self.text.as_str().substring_char(a, b).to_owned()
    }

    fn skip_spaces(&self, p: usize) -> (r: usize)
        requires
            p <= self.input().len(),
        ensures
            r == skip_spaces(self.input(), p as int),
            p <= r <= self.input().len(),
    {
        let mut i = p;
        while i < self.chars.len() && (self.chars[i] == ' ' || self.chars[i] == '\t')
            invariant
                p <= i <= self.input().len(),
                skip_spaces(self.input(), i as int) == skip_spaces(self.input(), p as int),
            decreases self.input().len() - i,
        {
            i = i + 1;
        }
        i
    }

    fn ident_end(&self, p: usize) -> (r: usize)
        requires
            p <= self.input().len(),
        ensures
            r == ident_end(self.input(), p as int),
            p <= r <= self.input().len(),
    {
        let mut i = p;
        while i < self.chars.len() && is_ident_char_exec(self.chars[i])
            invariant
                p <= i <= self.input().len(),
                ident_end(self.input(), i as int) == ident_end(self.input(), p as int),
            decreases self.input().len() - i,
        {
            i = i + 1;
        }
        i
    }

    fn digits_end(&self, p: usize) -> (r: usize)
        requires
            p <= self.input().len(),
        ensures
            r == digits_end(self.input(), p as int),
            p <= r <= self.input().len(),
    {
        let mut i = p;
        while i < self.chars.len() && '0' <= self.chars[i] && self.chars[i] <= '9'
            invariant
                p <= i <= self.input().len(),
                digits_end(self.input(), i as int) == digits_end(self.input(), p as int),
            decreases self.input().len() - i,
        {
            i = i + 1;
        }
        i
    }

    fn token_end(&self, p: usize) -> (r: usize)
        requires
            p <= self.input().len(),
        ensures
            r == token_end(self.input(), p as int),
            p <= r <= self.input().len(),
    {
        let mut i = p;
        while i < self.chars.len() && !(self.chars[i] == ' ' || self.chars[i] == '\t' || self.chars[i] == '\r'
            || self.chars[i] == '\n')
            invariant
                p <= i <= self.input().len(),
                token_end(self.input(), i as int) == token_end(self.input(), p as int),
            decreases self.input().len() - i,
        {
            i = i + 1;
        }
        i
    }

    fn string_end(&self, p: usize) -> (r: usize)
        requires
            p <= self.input().len(),
        ensures
            r == string_end(self.input(), p as int),
            p <= r <= self.input().len(),
    {
        let n = self.chars.len();
        let mut i = p;
        let mut done = false;
        while !done && i < n
            invariant
                n == self.input().len(),
                p <= i <= n,
                done ==> string_end(self.input(), i as int) == i,
                string_end(self.input(), i as int) == string_end(self.input(), p as int),
            decreases n - i, if done { 0int } else { 1int },
        {
            let c = self.chars[i];
            if c == '"' {
                done = true;
            } else if c == '\\' && i + 1 < n {
                i = i + 2;
            } else if c == '\\' {
                i = n;
            } else {
                i = i + 1;
            }
        }
        i
    }

    /// An identifier at `p`.
    pub fn parse_alphanumeric_underscore(&self, p: usize) -> (r: Option<(String, usize)>)
        requires
            self.wf(),
            p <= self.input().len(),
        ensures
            match r {
                Some((t, q)) => ident(self.input(), p as int) == Some((t@, q as int)) && q <= self.input().len(),
                None => ident(self.input(), p as int) is None,
            },
    {
        let e = self.ident_end(p);
        if e > p {
            Some((self.slice(p, e), e))
        } else {
            None
        }
    }

    /// A variable reference `$name` at `p`.
    pub fn parse_name(&self, p: usize) -> (r: Option<(String, usize)>)
        requires
            self.wf(),
            p <= self.input().len(),
        ensures
            match r {
                Some((t, q)) => name(self.input(), p as int) == Some((t@, q as int)) && q <= self.input().len(),
                None => name(self.input(), p as int) is None,
            },
    {
        if self.at(p, '$') {
            self.parse_alphanumeric_underscore(p + 1)
        } else {
            None
        }
    }

    /// A variable reference `$name` at `p`, as a `Name` node.
    pub fn parse_name_node(&self, p: usize) -> (r: Option<(Node, usize)>)
        requires
            self.wf(),
            p <= self.input().len(),
        ensures
            node_result(r) == match name(self.input(), p as int) {
                Some((k, q)) => Some((NodeModel::Name(k), q)),
                None => None,
            },
    {
        match self.parse_name(p) {
            Some((k, q)) => Some((Node::Name(k), q)),
            None => None,
        }
    }

    fn digits_number(&self, d: usize, e: usize) -> (r: Option<i64>)
        requires
            d <= e <= self.input().len(),
            forall|i: int| d <= i < e ==> is_digit(#[trigger] self.input()[i]),
        ensures
            match r {
                Some(v) => v >= 0 && v as int == digits_value(self.input().subrange(d as int, e as int)),
                None => digits_value(self.input().subrange(d as int, e as int)) > i64::MAX,
            },
    {
        let ghost s = self.input();
        let mut v: u64 = 0;
        let mut i = d;
        while i < e
            invariant
                s == self.input(),
                d <= i <= e <= s.len(),
                forall|i: int| d <= i < e ==> is_digit(#[trigger] s[i]),
                v as int == digits_value(s.subrange(d as int, i as int)),
                v <= i64::MAX,
            decreases e - i,
        {
            let dv = (self.chars[i] as u32 - '0' as u32) as u64;
            assert(s.subrange(d as int, i + 1).drop_last() =~= s.subrange(d as int, i as int));
            if v > 922337203685477580 || (v == 922337203685477580 && dv > 7) {
                proof {
                    lemma_digits_grow(s, d as int, i as int + 1, e as int);
                }
                return None;
            }
            v = v * 10 + dv;
            i = i + 1;
        }
        Some(v as i64)
    }

    /// A literal at `p`.
    pub fn parse_value(&self, p: usize) -> (r: Option<(ValueData, usize)>)
        requires
            self.wf(),
            p <= self.input().len(),
        ensures
            match r {
                Some((v, q)) => literal(self.input(), p as int) == Some((crate::ast::lit_model(v), q as int)) && q <= self.input().len(),
                None => literal(self.input(), p as int) is None,
            },
    {
        let p1 = if self.at(p, '+') { p + 1 } else { p };
        let neg = self.at(p1, '-');
        let d = if neg { p1 + 1 } else { p1 };
        let e1 = self.digits_end(d);
        if e1 > d && self.at(e1, '.') {
            let e2 = self.digits_end(e1 + 1);
            if e2 > e1 + 1 {
                let mut t = if neg { "-".to_owned() } else { String::new() };
                proof {
                    reveal_strlit("-");
                    assert("-"@ =~= seq!['-']);
                }
                let body = self.slice(d, e2);
                t.append(body.as_str());
                return Some((ValueData::Float(t), e2));
            }
        }
        if e1 > d {
            proof {
                lemma_digits_end_all(self.input(), d as int);
            }
            return match self.digits_number(d, e1) {
                Some(v) => Some((ValueData::Int(if neg { -v } else { v }), e1)),
                None => None,
            };
        }
        if self.at(p, '"') {
            let e = self.string_end(p + 1);
            if e > p + 1 && self.at(e, '"') {
                return Some((ValueData::String(self.slice(p + 1, e)), e + 1));
            }
        }
        None
    }

    pub fn parse_operator_data(&self, p: usize) -> (r: Option<(OperatorData, usize)>)
        requires
            self.wf(),
        ensures
            match r {
                Some((op, q)) => operator(self.input(), p as int) == Some((op, q as int)) && q <= self.input().len(),
                None => operator(self.input(), p as int) is None,
            },
    {
        if self.at(p, '=') && self.at(p + 1, '=') {
            Some((OperatorData::Eq, p + 2))
        } else if self.at(p, '!') && self.at(p + 1, '=') {
            Some((OperatorData::NotEq, p + 2))
        } else if self.at(p, '+') {
            Some((OperatorData::Add, p + 1))
        } else if self.at(p, '-') {
            Some((OperatorData::Sub, p + 1))
        } else if self.at(p, '*') {
            Some((OperatorData::Mul, p + 1))
        } else if self.at(p, '/') {
            Some((OperatorData::Div, p + 1))
        } else {
            None
        }
    }
}

fn is_ident_char_exec(c: char) -> (r: bool)
    ensures
        r == is_ident_char(c),
{
    ('a' <= c && c <= 'z') || ('A' <= c && c <= 'Z') || ('0' <= c && c <= '9') || c == '_'
}

pub proof fn lemma_skip_spaces_bounds(s: Seq<char>, p: int)
    requires
        0 <= p <= s.len(),
    ensures
        p <= skip_spaces(s, p) <= s.len(),
    decreases s.len() - p,
{
    if p < s.len() && is_space(s[p]) {
        lemma_skip_spaces_bounds(s, p + 1);
    }
}

pub proof fn lemma_last_min_bounds(ops: Seq<OperatorData>)
    requires
        ops.len() >= 1,
    ensures
        0 <= last_min(ops) < ops.len(),
    decreases ops.len(),
{
    if ops.len() > 1 {
        lemma_last_min_bounds(ops.drop_last());
    }
}

pub proof fn lemma_digits_end_all(s: Seq<char>, p: int)
    requires
        0 <= p <= s.len(),
    ensures
        p <= digits_end(s, p) <= s.len(),
        forall|i: int| p <= i < digits_end(s, p) ==> is_digit(#[trigger] s[i]),
    decreases s.len() - p,
{
    if p < s.len() && is_digit(s[p]) {
        lemma_digits_end_all(s, p + 1);
    }
}

/// A longer run of digits is worth at least as much.
pub proof fn lemma_digits_grow(s: Seq<char>, d: int, i: int, j: int)
    requires
        0 <= d <= i <= j <= s.len(),
    ensures
        digits_value(s.subrange(d, j)) >= digits_value(s.subrange(d, i)),
    decreases j - i,
{
    if j > i {
        lemma_digits_grow(s, d, i, j - 1);
        assert(s.subrange(d, j).drop_last() =~= s.subrange(d, j - 1));
    }
}

} // verus!

verus! {

fn last_min_exec(ops: &Vec<OperatorData>) -> (r: usize)
    requires
        ops@.len() >= 1,
    ensures
        r as int == last_min(ops@),
        r < ops@.len(),
{
    let mut k: usize = 0;
    let mut i: usize = 1;
    assert(ops@.subrange(0, 1).len() == 1);
    while i < ops.len()
        invariant
            1 <= i <= ops@.len(),
            k < i,
            k as int == last_min(ops@.subrange(0, i as int)),
        decreases ops@.len() - i,
    {
        let ghost sub = ops@.subrange(0, i as int + 1);
        assert(sub.drop_last() =~= ops@.subrange(0, i as int));
        assert(sub.last() == ops@[i as int]);
        assert(sub[k as int] == ops@[k as int]);
        if ops[i].get_priority() <= ops[k].get_priority() {
            k = i;
        }
        i = i + 1;
    }
    assert(ops@.subrange(0, ops@.len() as int) =~= ops@);
    k
}

/// The tree of `atoms[0] ops[0] atoms[1] ...`, grouped by priority.
pub fn build_expr(atoms: Vec<Node>, ops: Vec<OperatorData>) -> (r: Node)
    requires
        atoms@.len() == ops@.len() + 1,
    ensures
        r@ == build(nodes_model(atoms@), ops@),
    decreases ops@.len(),
{
    let ghost am = nodes_model(atoms@);
    proof {
        crate::ast::lemma_nodes_model_index(atoms@);
    }
    if ops.len() == 0 {
        let mut atoms = atoms;
        match atoms.pop() {
            Some(x) => x,
            None => {
                assert(false);
                Node::Module { body: Vec::new() }
            },
        }
    } else {
        let k = last_min_exec(&ops);
        let mut left_atoms = atoms;
        let mut left_ops = ops;
        let ghost all_atoms = left_atoms@;
        let ghost all_ops = left_ops@;
        let right_atoms = left_atoms.split_off(k + 1);
        let mut right_ops = left_ops.split_off(k);
        let op = right_ops.remove(0);
        proof {
            crate::ast::lemma_nodes_model_ext(left_atoms@, am.subrange(0, k as int + 1));
            crate::ast::lemma_nodes_model_ext(right_atoms@, am.subrange(k as int + 1, am.len() as int));
            assert(left_ops@ =~= all_ops.subrange(0, k as int));
            assert(right_ops@ =~= all_ops.subrange(k as int + 1, all_ops.len() as int));
        }
        let left = build_expr(left_atoms, left_ops);
        let right = build_expr(right_atoms, right_ops);
        Node::Expr(Box::new(left), op, Box::new(right))
    }
}

impl Parser {
    /// An atom with the spaces around it.
    pub fn parse_a_have_value_node(&self, p: usize) -> (r: Option<(Node, usize)>)
        requires
            self.wf(),
            p <= self.input().len(),
        ensures
            node_result(r) == atom(self.input(), p as int),
            r matches Some((_, q)) ==> q <= self.input().len(),
        decreases self.input().len() - p, 0int,
    {
        let q = self.skip_spaces(p);
        let inner: Option<(Node, usize)> = match self.parse_value(q) {
            Some((v, e)) => Some((Node::Value(v), e)),
            None => match self.parse_name(q) {
                Some((k, e)) => Some((Node::Name(k), e)),
                None => if self.at(q, '(') {
                    match self.parse_expr(q + 1) {
                        Some((x, e)) => if self.at(e, ')') {
                            Some((x, e + 1))
                        } else {
                            None
                        },
                        None => None,
                    }
                } else {
                    None
                },
            },
        };
        match inner {
            Some((x, e)) => Some((x, self.skip_spaces(e))),
            None => None,
        }
    }

    /// The `(operator, atom)` pairs from `p` on, as operators and atoms.
    fn op_pairs(&self, p: usize) -> (r: (Vec<OperatorData>, Vec<Node>, usize))
        requires
            self.wf(),
            p <= self.input().len(),
        ensures
            ({
                let (pairs, q) = op_pairs(self.input(), p as int);
                &&& r.0@ == Seq::new(pairs.len(), |i: int| pairs[i].0)
                &&& nodes_model(r.1@) == Seq::new(pairs.len(), |i: int| pairs[i].1)
                &&& r.2 as int == q
            }),
            p <= r.2 <= self.input().len(),
        decreases self.input().len() - p, 1int,
    {
        let none = (Vec::new(), Vec::new(), p);
        proof {
            crate::ast::lemma_nodes_model_ext(none.1@, Seq::empty());
            assert(none.0@ =~= Seq::<OperatorData>::empty());
        }
        match self.parse_operator_data(p) {
            Some((op, q1)) => if q1 > p {
                match self.parse_a_have_value_node(q1) {
                    Some((a, q2)) => if p < q2 {
                        let (mut ops, mut atoms, q3) = self.op_pairs(q2);
                        let ghost (pairs, _) = op_pairs(self.input(), q2 as int);
                        let ghost am = a@;
                        let ghost rest_atoms = atoms@;
                        let ghost rest_ops = ops@;
                        ops.insert(0, op);
                        atoms.insert(0, a);
                        proof {
                            let full = seq![(op, am)] + pairs;
                            crate::ast::lemma_nodes_model_index(rest_atoms);
                            assert forall|i: int| 0 <= i < atoms@.len() implies #[trigger] crate::ast::node_model(atoms@[i]) == Seq::new(full.len(), |j: int| full[j].1)[i] by {
                                if i > 0 {
                                    assert(atoms@[i] == rest_atoms[i - 1]);
                                    assert(nodes_model(rest_atoms)[i - 1] == Seq::new(pairs.len(), |j: int| pairs[j].1)[i - 1]);
                                }
                            }
                            crate::ast::lemma_nodes_model_ext(atoms@, Seq::new(full.len(), |j: int| full[j].1));
                            assert(ops@ =~= Seq::new(full.len(), |j: int| full[j].0));
                        }
                        (ops, atoms, q3)
                    } else {
                        none
                    },
                    None => none,
                }
            } else {
                none
            },
            None => none,
        }
    }

    /// An expression at `p`.
    pub fn parse_expr(&self, p: usize) -> (r: Option<(Node, usize)>)
        requires
            self.wf(),
            p <= self.input().len(),
        ensures
            node_result(r) == expr(self.input(), p as int),
            r matches Some((_, q)) ==> p < q <= self.input().len(),
        decreases self.input().len() - p, 1int,
    {
        match self.parse_a_have_value_node(p) {
            Some((a0, p1)) => if p < p1 {
                let ghost a0m = a0@;
                let (ops, rest, p2) = self.op_pairs(p1);
                let ghost (pairs, _) = op_pairs(self.input(), p1 as int);
                let mut atoms: Vec<Node> = Vec::new();
                atoms.push(a0);
                let ghost rest_atoms = rest@;
                let mut rest = rest;
                atoms.append(&mut rest);
                proof {
                    let want = seq![a0m] + Seq::new(pairs.len(), |i: int| pairs[i].1);
                    crate::ast::lemma_nodes_model_index(rest_atoms);
                    assert forall|i: int| 0 <= i < atoms@.len() implies #[trigger] crate::ast::node_model(atoms@[i]) == want[i] by {
                        if i > 0 {
                            assert(atoms@[i] == rest_atoms[i - 1]);
                            assert(nodes_model(rest_atoms)[i - 1] == Seq::new(pairs.len(), |j: int| pairs[j].1)[i - 1]);
                        }
                    }
                    crate::ast::lemma_nodes_model_ext(atoms@, want);
                }
                Some((build_expr(atoms, ops), p2))
            } else {
                None
            },
            None => None,
        }
    }
}

} // verus!

verus! {

// Statements.

/// A command argument, with the spaces around it: an atom, else a bare
/// token, which is a string.
pub open spec fn arg(s: Seq<char>, p: int) -> Option<(NodeModel, int)> {
    let q = skip_spaces(s, p);
    let inner = match atom(s, q) {
        Some(x) => Some(x),
        None => {
            let e = token_end(s, q);
            if e > q {
                Some((NodeModel::Value(LitModel::Str(s.subrange(q, e))), e))
            } else {
                None
            }
        },
    };
    match inner {
        Some((x, e)) => Some((x, skip_spaces(s, e))),
        None => None,
    }
}

pub open spec fn args(s: Seq<char>, p: int) -> (Seq<NodeModel>, int)
    decreases s.len() - p,
{
    match arg(s, p) {
        Some((a, q)) => if p < q <= s.len() {
            let (rest, r) = args(s, q);
            (seq![a] + rest, r)
        } else {
            (Seq::empty(), p)
        },
        None => (Seq::empty(), p),
    }
}

/// A command: an identifier and its arguments.
pub open spec fn command(s: Seq<char>, p: int) -> Option<(NodeModel, int)> {
    match ident(s, p) {
        Some((c, q)) => {
            let (a, r) = args(s, q);
            Some((NodeModel::Command(c, a), r))
        },
        None => None,
    }
}

/// An assignment: `$name = ` and an expression, else a command.
pub open spec fn set_attr(s: Seq<char>, p: int) -> Option<(NodeModel, int)> {
    match name(s, p) {
        Some((k, q)) => {
            let q1 = skip_spaces(s, q);
            if at(s, q1, '=') {
                let q2 = skip_spaces(s, q1 + 1);
                match expr(s, q2) {
                    Some((v, e)) => Some((NodeModel::SetAttr(k, Box::new(v)), e)),
                    None => match command(s, q2) {
                        Some((v, e)) => Some((NodeModel::SetAttr(k, Box::new(v)), e)),
                        None => None,
                    },
                }
            } else {
                None
            }
        },
        None => None,
    }
}

/// `\n` or `\r\n` at `p`.
pub open spec fn newline(s: Seq<char>, p: int) -> Option<int> {
    if at(s, p, '\n') {
        Some(p + 1)
    } else if at(s, p, '\r') && at(s, p + 1, '\n') {
        Some(p + 2)
    } else {
        None
    }
}

/// Spaces, then a line break or the end of the input.
pub open spec fn line_end(s: Seq<char>, p: int) -> Option<int> {
    let q = skip_spaces(s, p);
    if q >= s.len() {
        Some(q)
    } else {
        newline(s, q)
    }
}

/// A line of spaces only.
pub open spec fn blank_line(s: Seq<char>, p: int) -> Option<int> {
    newline(s, skip_spaces(s, p))
}

pub open spec fn skip_blank(s: Seq<char>, p: int) -> int
    decreases s.len() - p,
{
    match blank_line(s, p) {
        Some(q) => if p < q <= s.len() {
            skip_blank(s, q)
        } else {
            p
        },
        None => p,
    }
}

pub open spec fn tab_run(s: Seq<char>, p: int) -> (nat, int)
    decreases s.len() - p,
{
    if at(s, p, '\t') {
        let (n, e) = tab_run(s, p + 1);
        (n + 1, e)
    } else {
        (0, p)
    }
}

pub open spec fn quad_run(s: Seq<char>, p: int) -> (nat, int)
    decreases s.len() - p,
{
    if at(s, p, ' ') && at(s, p + 1, ' ') && at(s, p + 2, ' ') && at(s, p + 3, ' ') {
        let (n, e) = quad_run(s, p + 4);
        (n + 1, e)
    } else {
        (0, p)
    }
}

/// Indentation units at `p`: tabs, or groups of four spaces, not both on one
/// line. How many, and where they end.
pub open spec fn indent(s: Seq<char>, p: int) -> (nat, int) {
    if at(s, p, '\t') {
        tab_run(s, p)
    } else {
        quad_run(s, p)
    }
}

/// After the indentation, a statement starts: no further space or tab.
pub open spec fn indent_clean(s: Seq<char>, q: int) -> bool {
    !at(s, q, ' ') && !at(s, q, '\t')
}

pub open spec fn keyword(s: Seq<char>, p: int, kw: Seq<char>) -> bool {
    0 <= p && p + kw.len() <= s.len() && s.subrange(p, p + kw.len()) == kw
}

pub open spec fn terminated(s: Seq<char>, r: Option<(NodeModel, int)>) -> Option<(NodeModel, int)> {
    match r {
        Some((x, e)) => match line_end(s, e) {
            Some(q) => Some((x, q)),
            None => None,
        },
        None => None,
    }
}

/// `$name` items separated by spaces.
pub open spec fn req_names(s: Seq<char>, p: int) -> (Seq<Seq<char>>, int)
    decreases s.len() - p,
{
    match name(s, p) {
        Some((k, q)) => {
            let q1 = skip_spaces(s, q);
            if p < q1 <= s.len() {
                let (rest, r) = req_names(s, q1);
                (seq![k] + rest, r)
            } else {
                (Seq::empty(), p)
            }
        },
        None => (Seq::empty(), p),
    }
}

/// A block: the items at indentation `n`, as many as there are.
pub open spec fn block(s: Seq<char>, p: int, n: nat) -> (Seq<NodeModel>, int)
    decreases s.len() - p, 3int,
{
    match item(s, p, n) {
        Some((x, q)) => if p < q <= s.len() {
            let (rest, r) = block(s, q, n);
            (seq![x] + rest, r)
        } else {
            (Seq::empty(), p)
        },
        None => (Seq::empty(), p),
    }
}

/// One item: blank lines, exactly `n` indentation units and no further
/// space or tab, a statement, and the blank lines after it.
pub open spec fn item(s: Seq<char>, p: int, n: nat) -> Option<(NodeModel, int)>
    decreases s.len() - p, 2int,
{
    let p1 = skip_blank(s, p);
    let (cnt, p2) = indent(s, p1);
    if !indent_clean(s, p2) || cnt != n || !(p <= p2 <= s.len()) {
        None
    } else {
        match statement(s, p2, n) {
            Some((x, e)) => Some((x, skip_blank(s, e))),
            None => None,
        }
    }
}

/// The first of: an assignment, a target, an `if`, an expression, a
/// command; each but the blocks ends its line.
pub open spec fn statement(s: Seq<char>, p: int, n: nat) -> Option<(NodeModel, int)>
    decreases s.len() - p, 1int,
{
    match terminated(s, set_attr(s, p)) {
        Some(x) => Some(x),
        None => match target_block(s, p, n) {
            Some(x) => Some(x),
            None => match if_block(s, p, n) {
                Some(x) => Some(x),
                None => match terminated(s, expr(s, p)) {
                    Some(x) => Some(x),
                    None => terminated(s, command(s, p)),
                },
            },
        },
    }
}

/// `target $name: $req ...`, the line's end, and a block one level deeper.
pub open spec fn target_block(s: Seq<char>, p: int, n: nat) -> Option<(NodeModel, int)>
    decreases s.len() - p, 0int,
{
    let q = skip_spaces(s, p);
    if !keyword(s, q, "target"@) {
        None
    } else {
        match name(s, skip_spaces(s, q + 6)) {
            Some((nm, q2)) => {
                let q3 = skip_spaces(s, q2);
                if !at(s, q3, ':') {
                    None
                } else {
                    let (reqs, q5) = req_names(s, skip_spaces(s, q3 + 1));
                    match line_end(s, q5) {
                        Some(q6) => if p < q6 <= s.len() {
                            let (body, q7) = block(s, q6, n + 1);
                            Some((NodeModel::Target(nm, reqs, body), q7))
                        } else {
                            None
                        },
                        None => None,
                    }
                }
            },
            None => None,
        }
    }
}

/// `kw <expr>:` and the line's end (`if`, `elif`), or `kw:` (`else`) when
/// there is no condition: the condition and where the body starts.
pub open spec fn header(s: Seq<char>, p: int, kw: Seq<char>, with_cond: bool) -> Option<(Option<NodeModel>, int)> {
    let q = skip_spaces(s, p);
    if !keyword(s, q, kw) {
        None
    } else {
        let q1 = skip_spaces(s, q + kw.len());
        let c = if with_cond {
            match expr(s, q1) {
                Some((x, e)) => Some((Some(x), e)),
                None => None,
            }
        } else {
            Some((None, q1))
        };
        match c {
            Some((x, e)) => {
                let q2 = skip_spaces(s, e);
                if at(s, q2, ':') {
                    match line_end(s, q2 + 1) {
                        Some(q3) => Some((x, q3)),
                        None => None,
                    }
                } else {
                    None
                }
            },
            None => None,
        }
    }
}

/// A clause that continues an `if` (`elif` or `else`): blank lines, the
/// indentation of the `if`, its header, and a block one level deeper.
pub open spec fn clause(s: Seq<char>, p: int, n: nat, kw: Seq<char>, with_cond: bool) -> Option<((Option<NodeModel>, Seq<NodeModel>), int)>
    decreases s.len() - p, 0int,
{
    let p1 = skip_blank(s, p);
    let (cnt, p2) = indent(s, p1);
    if !indent_clean(s, p2) || cnt != n {
        None
    } else {
        match header(s, p2, kw, with_cond) {
            Some((c, q)) => if p < q <= s.len() {
                let (body, r) = block(s, q, n + 1);
                Some(((c, body), r))
            } else {
                None
            },
            None => None,
        }
    }
}

pub open spec fn elif_clauses(s: Seq<char>, p: int, n: nat) -> (Seq<(NodeModel, Seq<NodeModel>)>, int)
    decreases s.len() - p, 1int,
{
    match clause(s, p, n, "elif"@, true) {
        Some(((Some(c), body), q)) => if p < q <= s.len() {
            let (rest, r) = elif_clauses(s, q, n);
            (seq![(c, body)] + rest, r)
        } else {
            (Seq::empty(), p)
        },
        _ => (Seq::empty(), p),
    }
}

/// `if` with its block, the `elif` clauses, and an optional `else` clause.
pub open spec fn if_block(s: Seq<char>, p: int, n: nat) -> Option<(NodeModel, int)>
    decreases s.len() - p, 0int,
{
    match header(s, p, "if"@, true) {
        Some((Some(c), q)) => if p < q <= s.len() {
            let (body, q1) = block(s, q, n + 1);
            if p < q1 <= s.len() {
                let (elifs, q2) = elif_clauses(s, q1, n);
                if p < q2 <= s.len() {
                    match clause(s, q2, n, "else"@, false) {
                        Some(((_, eb), q3)) => Some((NodeModel::If(seq![(c, body)] + elifs, Some(eb)), q3)),
                        None => Some((NodeModel::If(seq![(c, body)] + elifs, None), q2)),
                    }
                } else {
                    None
                }
            } else {
                None
            }
        } else {
            None
        },
        _ => None,
    }
}

pub open spec fn count_newlines(s: Seq<char>, i: int) -> nat
    decreases i,
{
    if i <= 0 || i > s.len() {
        0
    } else {
        count_newlines(s, i - 1) + if s[i - 1] == '\n' { 1nat } else { 0nat }
    }
}

/// A module: the items at indentation 0; only blank lines and spaces may
/// follow. Otherwise a syntax error on the line where reading stopped.
pub open spec fn module(s: Seq<char>) -> Result<NodeModel, ErrorModel> {
    let (body, q) = block(s, 0, 0);
    let q1 = skip_blank(s, q);
    if skip_spaces(s, q1) == s.len() {
        Ok(NodeModel::Module(body))
    } else {
        Err(ErrorModel::Syntax(1 + count_newlines(s, q1)))
    }
}

/// A whole input that is one expression, spaces around it allowed.
pub open spec fn expr_text(s: Seq<char>) -> Result<NodeModel, ErrorModel> {
    match expr(s, 0) {
        Some((x, q)) => if skip_spaces(s, q) == s.len() {
            Ok(x)
        } else {
            Err(ErrorModel::Syntax(1))
        },
        None => Err(ErrorModel::Syntax(1)),
    }
}

} // verus!

verus! {

pub proof fn lemma_tab_run_bounds(s: Seq<char>, p: int)
    requires
        0 <= p <= s.len(),
    ensures
        p + tab_run(s, p).0 <= tab_run(s, p).1 <= s.len(),
    decreases s.len() - p,
{
    if at(s, p, '\t') {
        lemma_tab_run_bounds(s, p + 1);
    }
}

pub proof fn lemma_quad_run_bounds(s: Seq<char>, p: int)
    requires
        0 <= p <= s.len(),
    ensures
        p + quad_run(s, p).0 <= quad_run(s, p).1 <= s.len(),
    decreases s.len() - p,
{
    if at(s, p, ' ') && at(s, p + 1, ' ') && at(s, p + 2, ' ') && at(s, p + 3, ' ') {
        lemma_quad_run_bounds(s, p + 4);
    }
}

pub proof fn lemma_indent_bounds(s: Seq<char>, p: int)
    requires
        0 <= p <= s.len(),
    ensures
        p + indent(s, p).0 <= indent(s, p).1 <= s.len(),
{
    lemma_tab_run_bounds(s, p);
    lemma_quad_run_bounds(s, p);
}

pub open spec fn line_result(r: Option<usize>) -> Option<int> {
    match r {
        Some(q) => Some(q as int),
        None => None,
    }
}

impl Parser {
    fn newline(&self, p: usize) -> (r: Option<usize>)
        requires
            self.wf(),
        ensures
            line_result(r) == newline(self.input(), p as int),
            r matches Some(q) ==> p < q <= self.input().len(),
    {
        if self.at(p, '\n') {
            Some(p + 1)
        } else if self.at(p, '\r') && self.at(p + 1, '\n') {
            Some(p + 2)
        } else {
            None
        }
    }

    /// Spaces, then a line break or the end of the input.
    pub fn parse_crlf_or_ending(&self, p: usize) -> (r: Option<usize>)
        requires
            self.wf(),
            p <= self.input().len(),
        ensures
            line_result(r) == line_end(self.input(), p as int),
            r matches Some(q) ==> p <= q <= self.input().len(),
    {
        let q = self.skip_spaces(p);
        if q >= self.len() {
            Some(q)
        } else {
            self.newline(q)
        }
    }

    /// A line of spaces only.
    pub fn parse_blank_line(&self, p: usize) -> (r: Option<usize>)
        requires
            self.wf(),
            p <= self.input().len(),
        ensures
            line_result(r) == blank_line(self.input(), p as int),
            r matches Some(q) ==> p < q <= self.input().len(),
    {
        let q = self.skip_spaces(p);
        self.newline(q)
    }

    fn skip_blank(&self, p: usize) -> (r: usize)
        requires
            self.wf(),
            p <= self.input().len(),
        ensures
            r == skip_blank(self.input(), p as int),
            p <= r <= self.input().len(),
    {
        let mut i = p;
        loop
            invariant
                self.wf(),
                p <= i <= self.input().len(),
                skip_blank(self.input(), i as int) == skip_blank(self.input(), p as int),
            decreases self.input().len() - i,
        {
            match self.parse_blank_line(i) {
                Some(q) => {
                    i = q;
                },
                None => {
                    return i;
                },
            }
        }
    }

    fn indent(&self, p: usize) -> (r: (usize, usize))
        requires
            self.wf(),
            p <= self.input().len(),
        ensures
            (r.0 as nat, r.1 as int) == indent(self.input(), p as int),
    {
        let tabs = self.at(p, '\t');
        let mut cnt: usize = 0;
        let mut i = p;
        proof {
            lemma_tab_run_bounds(self.input(), p as int);
            lemma_quad_run_bounds(self.input(), p as int);
        }
        loop
            invariant
                self.wf(),
                p <= i <= self.input().len(),
                cnt <= i,
                tabs == at(self.input(), p as int, '\t'),
                tabs ==> tab_run(self.input(), p as int) == ((cnt + tab_run(self.input(), i as int).0) as nat, tab_run(self.input(), i as int).1),
                !tabs ==> quad_run(self.input(), p as int) == ((cnt + quad_run(self.input(), i as int).0) as nat, quad_run(self.input(), i as int).1),
            decreases self.input().len() - i,
        {
            if tabs && self.at(i, '\t') {
                cnt = cnt + 1;
                i = i + 1;
            } else if !tabs && self.at(i, ' ') && self.at(i + 1, ' ') && self.at(i + 2, ' ') && self.at(i + 3, ' ') {
                cnt = cnt + 1;
                i = i + 4;
            } else {
                return (cnt, i);
            }
        }
    }

    fn keyword(&self, p: usize, kw: &str) -> (r: bool)
        requires
            self.wf(),
        ensures
            r == keyword(self.input(), p as int, kw@),
    {
        let k = kw.unicode_len();
        if k > self.len() || p > self.len() - k {
            return false;
        }
        let mut i: usize = 0;
        while i < k
            invariant
                self.wf(),
                k == kw@.len(),
                p + k <= self.input().len(),
                i <= k,
                forall|j: int| 0 <= j < i ==> self.input()[p + j] == kw@[j],
            decreases k - i,
        {
            if self.chars[p + i] != kw.get_char(i) {
                assert(self.input().subrange(p as int, p + k)[i as int] != kw@[i as int]);
                return false;
            }
            i = i + 1;
        }
        assert(self.input().subrange(p as int, p + k) =~= kw@);
        true
    }

    fn parse_arg(&self, p: usize) -> (r: Option<(Node, usize)>)
        requires
            self.wf(),
            p <= self.input().len(),
        ensures
            node_result(r) == arg(self.input(), p as int),
            r matches Some((_, q)) ==> q <= self.input().len(),
    {
        let q = self.skip_spaces(p);
        let inner = match self.parse_a_have_value_node(q) {
            Some(x) => Some(x),
            None => {
                let e = self.token_end(q);
                if e > q {
                    Some((Node::Value(ValueData::String(self.slice(q, e))), e))
                } else {
                    None
                }
            },
        };
        match inner {
            Some((x, e)) => Some((x, self.skip_spaces(e))),
            None => None,
        }
    }

    fn parse_args(&self, p: usize) -> (r: (Vec<Node>, usize))
        requires
            self.wf(),
            p <= self.input().len(),
        ensures
            (nodes_model(r.0@), r.1 as int) == args(self.input(), p as int),
            p <= r.1 <= self.input().len(),
        decreases self.input().len() - p,
    {
        let none: (Vec<Node>, usize) = (Vec::new(), p);
        proof {
            crate::ast::lemma_nodes_model_ext(none.0@, Seq::empty());
        }
        match self.parse_arg(p) {
            Some((a, q)) => if p < q {
                let (mut rest, r) = self.parse_args(q);
                let ghost rm = rest@;
                let ghost am = a@;
                rest.insert(0, a);
                proof {
                    let want = seq![am] + nodes_model(rm);
                    crate::ast::lemma_nodes_model_index(rm);
                    assert forall|i: int| 0 <= i < rest@.len() implies #[trigger] crate::ast::node_model(rest@[i]) == want[i] by {
                        if i > 0 {
                            assert(rest@[i] == rm[i - 1]);
                        }
                    }
                    crate::ast::lemma_nodes_model_ext(rest@, want);
                }
                (rest, r)
            } else {
                none
            },
            None => none,
        }
    }

    /// A command: an identifier and its arguments.
    pub fn parse_command(&self, p: usize) -> (r: Option<(Node, usize)>)
        requires
            self.wf(),
            p <= self.input().len(),
        ensures
            node_result(r) == command(self.input(), p as int),
            r matches Some((_, q)) ==> q <= self.input().len(),
    {
        match self.parse_alphanumeric_underscore(p) {
            Some((c, q)) => {
                let (a, r) = self.parse_args(q);
                Some((Node::Command { command: c, args: a }, r))
            },
            None => None,
        }
    }

    /// An assignment `$name = value`.
    pub fn parse_set_attr(&self, p: usize) -> (r: Option<(Node, usize)>)
        requires
            self.wf(),
            p <= self.input().len(),
        ensures
            node_result(r) == set_attr(self.input(), p as int),
            r matches Some((_, q)) ==> q <= self.input().len(),
    {
        match self.parse_name(p) {
            Some((k, q)) => {
                let q1 = self.skip_spaces(q);
                if self.at(q1, '=') {
                    let q2 = self.skip_spaces(q1 + 1);
                    match self.parse_expr(q2) {
                        Some((v, e)) => Some((Node::SetAttr { name: k, value: Box::new(v) }, e)),
                        None => match self.parse_command(q2) {
                            Some((v, e)) => Some((Node::SetAttr { name: k, value: Box::new(v) }, e)),
                            None => None,
                        },
                    }
                } else {
                    None
                }
            },
            None => None,
        }
    }

    fn terminated(&self, r: Option<(Node, usize)>) -> (t: Option<(Node, usize)>)
        requires
            self.wf(),
            r matches Some((_, q)) ==> q <= self.input().len(),
        ensures
            node_result(t) == terminated(self.input(), node_result(r)),
            t matches Some((_, q)) ==> q <= self.input().len(),
    {
        match r {
            Some((x, e)) => match self.parse_crlf_or_ending(e) {
                Some(q) => Some((x, q)),
                None => None,
            },
            None => None,
        }
    }

    fn req_names(&self, p: usize) -> (r: (Vec<String>, usize))
        requires
            self.wf(),
            p <= self.input().len(),
        ensures
            (crate::ast::strings_model(r.0@), r.1 as int) == req_names(self.input(), p as int),
            p <= r.1 <= self.input().len(),
        decreases self.input().len() - p,
    {
        match self.parse_name(p) {
            Some((k, q)) => {
                let q1 = self.skip_spaces(q);
                if p < q1 {
                    let (mut rest, r) = self.req_names(q1);
                    let ghost rm = crate::ast::strings_model(rest@);
                    let ghost km = k@;
                    rest.insert(0, k);
                    assert(crate::ast::strings_model(rest@) =~= seq![km] + rm);
                    (rest, r)
                } else {
                    let v: Vec<String> = Vec::new();
                    assert(crate::ast::strings_model(v@) =~= Seq::<Seq<char>>::empty());
                    (v, p)
                }
            },
            None => {
                let v: Vec<String> = Vec::new();
                assert(crate::ast::strings_model(v@) =~= Seq::<Seq<char>>::empty());
                (v, p)
            },
        }
    }
}

} // verus!

verus! {

pub open spec fn header_result(r: Option<(Option<Node>, usize)>) -> Option<(Option<NodeModel>, int)> {
    match r {
        Some((Some(c), q)) => Some((Some(c@), q as int)),
        Some((None, q)) => Some((None, q as int)),
        None => None,
    }
}

pub open spec fn clause_result(r: Option<((Option<Node>, Vec<Node>), usize)>) -> Option<((Option<NodeModel>, Seq<NodeModel>), int)> {
    match r {
        Some(((Some(c), b), q)) => Some(((Some(c@), nodes_model(b@)), q as int)),
        Some(((None, b), q)) => Some(((None, nodes_model(b@)), q as int)),
        None => None,
    }
}

pub open spec fn parse_result(r: Result<Node, ErrorKind>) -> Result<NodeModel, ErrorModel> {
    match r {
        Ok(n) => Ok(n@),
        Err(e) => Err(e@),
    }
}

pub proof fn lemma_count_newlines_bound(s: Seq<char>, i: int)
    ensures
        count_newlines(s, i) <= if i < 0 { 0 } else { i },
    decreases i,
{
    if i > 0 && i <= s.len() {
        lemma_count_newlines_bound(s, i - 1);
    }
}

impl Parser {
    /// The items of a block at indentation `n`.
    pub fn parse_block(&self, p: usize, n: usize) -> (r: (Vec<Node>, usize))
        requires
            self.wf(),
            p <= self.input().len(),
            n <= self.input().len() + 1,
        ensures
            (nodes_model(r.0@), r.1 as int) == block(self.input(), p as int, n as nat),
            p <= r.1 <= self.input().len(),
        decreases self.input().len() - p, 3int,
    {
        let ghost s = self.input();
        let mut items: Vec<Node> = Vec::new();
        let mut i = p;
        proof {
            crate::ast::lemma_nodes_model_ext(items@, Seq::empty());
            assert(block(s, p as int, n as nat).0 =~= Seq::empty() + block(s, p as int, n as nat).0);
        }
        loop
            invariant
                self.wf(),
                s == self.input(),
                n <= s.len() + 1,
                p <= i <= s.len(),
                block(s, p as int, n as nat) == (nodes_model(items@) + block(s, i as int, n as nat).0, block(s, i as int, n as nat).1),
            decreases s.len() - i,
        {
            match self.parse_item(i, n) {
                Some((x, q)) => if i < q {
                    let ghost before = items@;
                    let ghost xm = x@;
                    items.push(x);
                    proof {
                        crate::ast::lemma_nodes_model_push(before, x);
                        assert(nodes_model(before) + (seq![xm] + block(s, q as int, n as nat).0) =~= nodes_model(items@) + block(s, q as int, n as nat).0);
                    }
                    i = q;
                } else {
                    assert(nodes_model(items@) + Seq::empty() =~= nodes_model(items@));
                    return (items, i);
                },
                None => {
                    assert(nodes_model(items@) + Seq::empty() =~= nodes_model(items@));
                    return (items, i);
                },
            }
        }
    }

    /// One item of a block at indentation `n`.
    pub fn parse_item(&self, p: usize, n: usize) -> (r: Option<(Node, usize)>)
        requires
            self.wf(),
            p <= self.input().len(),
            n <= self.input().len() + 1,
        ensures
            node_result(r) == item(self.input(), p as int, n as nat),
            r matches Some((_, q)) ==> q <= self.input().len(),
        decreases self.input().len() - p, 2int,
    {
        let p1 = self.skip_blank(p);
        let (cnt, p2) = self.indent(p1);
        proof {
            lemma_indent_bounds(self.input(), p1 as int);
        }
        if self.at(p2, ' ') || self.at(p2, '\t') || cnt != n {
            return None;
        }
        match self.statement(p2, n) {
            Some((x, e)) => Some((x, self.skip_blank(e))),
            None => None,
        }
    }

    fn statement(&self, p: usize, n: usize) -> (r: Option<(Node, usize)>)
        requires
            self.wf(),
            p <= self.input().len(),
            n <= self.input().len(),
        ensures
            node_result(r) == statement(self.input(), p as int, n as nat),
            r matches Some((_, q)) ==> q <= self.input().len(),
        decreases self.input().len() - p, 1int,
    {
        match self.terminated(self.parse_set_attr(p)) {
            Some(x) => Some(x),
            None => match self.parse_target_block(p, n) {
                Some(x) => Some(x),
                None => match self.parse_if_block(p, n) {
                    Some(x) => Some(x),
                    None => match self.terminated(self.parse_expr(p)) {
                        Some(x) => Some(x),
                        None => self.terminated(self.parse_command(p)),
                    },
                },
            },
        }
    }

    /// `target $name: $req ...` and its block.
    pub fn parse_target_block(&self, p: usize, n: usize) -> (r: Option<(Node, usize)>)
        requires
            self.wf(),
            p <= self.input().len(),
            n <= self.input().len(),
        ensures
            node_result(r) == target_block(self.input(), p as int, n as nat),
            r matches Some((_, q)) ==> q <= self.input().len(),
        decreases self.input().len() - p, 0int,
    {
        let q = self.skip_spaces(p);
        proof {
            reveal_strlit("target");
        }
        if !self.keyword(q, "target") {
            return None;
        }
        let q1 = self.skip_spaces(q + 6);
        match self.parse_name(q1) {
            Some((nm, q2)) => {
                let q3 = self.skip_spaces(q2);
                if !self.at(q3, ':') {
                    return None;
                }
                let q4 = self.skip_spaces(q3 + 1);
                let (reqs, q5) = self.req_names(q4);
                match self.parse_crlf_or_ending(q5) {
                    Some(q6) => if p < q6 {
                        let (body, q7) = self.parse_block(q6, n + 1);
                        Some((Node::Target { name: nm, require: reqs, body }, q7))
                    } else {
                        None
                    },
                    None => None,
                }
            },
            None => None,
        }
    }

    fn header(&self, p: usize, kw: &str, with_cond: bool) -> (r: Option<(Option<Node>, usize)>)
        requires
            self.wf(),
            p <= self.input().len(),
        ensures
            header_result(r) == header(self.input(), p as int, kw@, with_cond),
            r matches Some((_, q)) ==> q <= self.input().len(),
    {
        let q = self.skip_spaces(p);
        if !self.keyword(q, kw) {
            return None;
        }
        let q1 = self.skip_spaces(q + kw.unicode_len());
        let c = if with_cond {
            match self.parse_expr(q1) {
                Some((x, e)) => Some((Some(x), e)),
                None => None,
            }
        } else {
            Some((None, q1))
        };
        match c {
            Some((x, e)) => {
                let q2 = self.skip_spaces(e);
                if self.at(q2, ':') {
                    match self.parse_crlf_or_ending(q2 + 1) {
                        Some(q3) => Some((x, q3)),
                        None => None,
                    }
                } else {
                    None
                }
            },
            None => None,
        }
    }

    fn clause(&self, p: usize, n: usize, kw: &str, with_cond: bool) -> (r: Option<((Option<Node>, Vec<Node>), usize)>)
        requires
            self.wf(),
            p <= self.input().len(),
            n <= self.input().len(),
        ensures
            clause_result(r) == clause(self.input(), p as int, n as nat, kw@, with_cond),
            r matches Some((_, q)) ==> q <= self.input().len(),
        decreases self.input().len() - p, 0int,
    {
        let p1 = self.skip_blank(p);
        let (cnt, p2) = self.indent(p1);
        proof {
            lemma_indent_bounds(self.input(), p1 as int);
        }
        if self.at(p2, ' ') || self.at(p2, '\t') || cnt != n {
            return None;
        }
        match self.header(p2, kw, with_cond) {
            Some((c, q)) => if p < q {
                let (body, r) = self.parse_block(q, n + 1);
                Some(((c, body), r))
            } else {
                None
            },
            None => None,
        }
    }

    fn elif_clauses(&self, p: usize, n: usize) -> (r: (Vec<(Node, Vec<Node>)>, usize))
        requires
            self.wf(),
            p <= self.input().len(),
            n <= self.input().len(),
        ensures
            (crate::ast::branches_model(r.0@), r.1 as int) == elif_clauses(self.input(), p as int, n as nat),
            p <= r.1 <= self.input().len(),
        decreases self.input().len() - p, 1int,
    {
        let none: (Vec<(Node, Vec<Node>)>, usize) = (Vec::new(), p);
        proof {
            crate::ast::lemma_branches_model_ext(none.0@, Seq::empty());
            reveal_strlit("elif");
        }
        match self.clause(p, n, "elif", true) {
            Some(((Some(c), body), q)) => if p < q {
                let (mut rest, r) = self.elif_clauses(q, n);
                let ghost rm = rest@;
                let ghost first = (c@, nodes_model(body@));
                rest.insert(0, (c, body));
                proof {
                    let want = seq![first] + crate::ast::branches_model(rm);
                    crate::ast::lemma_branches_model_index(rm);
                    assert forall|i: int| 0 <= i < rest@.len() implies (crate::ast::node_model(#[trigger] rest@[i].0), nodes_model(rest@[i].1@)) == want[i] by {
                        if i > 0 {
                            assert(rest@[i] == rm[i - 1]);
                        }
                    }
                    crate::ast::lemma_branches_model_ext(rest@, want);
                }
                (rest, r)
            } else {
                none
            },
            _ => none,
        }
    }

    /// `if`, its block, the `elif` clauses and an optional `else` clause.
    pub fn parse_if_block(&self, p: usize, n: usize) -> (r: Option<(Node, usize)>)
        requires
            self.wf(),
            p <= self.input().len(),
            n <= self.input().len(),
        ensures
            node_result(r) == if_block(self.input(), p as int, n as nat),
            r matches Some((_, q)) ==> q <= self.input().len(),
        decreases self.input().len() - p, 0int,
    {
        proof {
            reveal_strlit("if");
            reveal_strlit("else");
        }
        match self.header(p, "if", true) {
            Some((Some(c), q)) => if p < q {
                let (body, q1) = self.parse_block(q, n + 1);
                if p < q1 {
                    let (elifs, q2) = self.elif_clauses(q1, n);
                    if p < q2 {
                        match self.clause(q2, n, "else", false) {
                            Some(((_, eb), q3)) => Some((
                                Node::If { if_node: Box::new((c, body)), elif_nodes: elifs, else_node: Some(eb) },
                                q3,
                            )),
                            None => Some((Node::If { if_node: Box::new((c, body)), elif_nodes: elifs, else_node: None }, q2)),
                        }
                    } else {
                        None
                    }
                } else {
                    None
                }
            } else {
                None
            },
            _ => None,
        }
    }

    /// The whole input as a module, or a syntax error on the line where
    /// reading stopped; the line counter ends on that line.
    pub fn parse_module(&mut self) -> (r: Result<Node, ErrorKind>)
        requires
            old(self).wf(),
            old(self).line() == 1,
        ensures
            final(self).wf(),
            final(self).input() == old(self).input(),
            parse_result(r) == module(old(self).input()),
    {
        let ghost s = self.input();
        let (body, q) = self.parse_block(0, 0);
        let q1 = self.skip_blank(q);
        if self.skip_spaces(q1) == self.len() {
            return Ok(Node::Module { body });
        }
        let mut i: usize = 0;
        while i < q1
            invariant
                self.wf(),
                s == self.input(),
                q1 <= s.len(),
                i <= q1,
                self.line() == 1 + count_newlines(s, i as int),
                count_newlines(s, i as int) <= i,
            decreases q1 - i,
        {
            proof {
                lemma_count_newlines_bound(s, i as int);
            }
            if self.chars[i] == '\n' {
                self.next_line();
            }
            i = i + 1;
        }
        Err(ErrorKind::Syntax { error_line_number: self.this_line() })
    }
}

/// Parses a whole program.
pub fn parse_code(input: &str) -> (r: Result<Node, ErrorKind>)
    requires
        input@.len() < usize::MAX,
    ensures
        parse_result(r) == module(input@),
{
    let mut parser = Parser::new(input);
    parser.parse_module()
}

/// Parses an input that is one expression.
pub fn parse_expr(input: &str) -> (r: Result<Node, ErrorKind>)
    requires
        input@.len() < usize::MAX,
    ensures
        parse_result(r) == expr_text(input@),
{
    let parser = Parser::new(input);
    match parser.parse_expr(0) {
        Some((x, q)) => if parser.skip_spaces(q) == parser.len() {
            Ok(x)
        } else {
            Err(ErrorKind::Syntax { error_line_number: 1 })
        },
        None => Err(ErrorKind::Syntax { error_line_number: 1 }),
    }
}

} // verus!

verus! {

/// Precedence and associativity: in `a o1 b o2 c`, the right operator binds
/// first exactly when its priority is strictly higher (`1 + 2 * 3` is
/// `1 + (2 * 3)`); otherwise the left one does (`1 * 2 + 3` is
/// `(1 * 2) + 3`, and `1 - 2 - 3` is `(1 - 2) - 3`).
pub proof fn lemma_precedence(a: NodeModel, b: NodeModel, c: NodeModel, o1: OperatorData, o2: OperatorData)
    ensures
        build(seq![a, b, c], seq![o1, o2]) == if o2.priority() > o1.priority() {
            NodeModel::Expr(Box::new(a), o1, Box::new(NodeModel::Expr(Box::new(b), o2, Box::new(c))))
        } else {
            NodeModel::Expr(Box::new(NodeModel::Expr(Box::new(a), o1, Box::new(b))), o2, Box::new(c))
        },
{
    let ops = seq![o1, o2];
    let atoms = seq![a, b, c];
    assert(ops.drop_last() =~= seq![o1]);
    assert(last_min(seq![o1]) == 0);
    if o2.priority() > o1.priority() {
        assert(last_min(ops) == 0);
        assert(atoms.subrange(0, 1) =~= seq![a]);
        assert(ops.subrange(0, 0) =~= Seq::<OperatorData>::empty());
        assert(atoms.subrange(1, 3) =~= seq![b, c]);
        assert(ops.subrange(1, 2) =~= seq![o2]);
        assert(build(seq![a], Seq::empty()) == a);
        let r = build(seq![b, c], seq![o2]);
        assert(seq![o2].subrange(0, 0) =~= Seq::<OperatorData>::empty());
        assert(seq![o2].subrange(1, 1) =~= Seq::<OperatorData>::empty());
        assert(seq![b, c].subrange(0, 1) =~= seq![b]);
        assert(seq![b, c].subrange(1, 2) =~= seq![c]);
        assert(build(seq![b], Seq::empty()) == b);
        assert(build(seq![c], Seq::empty()) == c);
        assert(last_min(seq![o2]) == 0);
        assert(r == NodeModel::Expr(Box::new(b), o2, Box::new(c)));
        assert(build(atoms, ops) == NodeModel::Expr(
            Box::new(build(atoms.subrange(0, 1), ops.subrange(0, 0))),
            o1,
            Box::new(build(atoms.subrange(1, 3), ops.subrange(1, 2))),
        ));
    } else {
        assert(last_min(ops) == 1);
        assert(atoms.subrange(0, 2) =~= seq![a, b]);
        assert(ops.subrange(0, 1) =~= seq![o1]);
        assert(atoms.subrange(2, 3) =~= seq![c]);
        assert(ops.subrange(2, 2) =~= Seq::<OperatorData>::empty());
        assert(seq![o1].subrange(0, 0) =~= Seq::<OperatorData>::empty());
        assert(seq![o1].subrange(1, 1) =~= Seq::<OperatorData>::empty());
        assert(seq![a, b].subrange(0, 1) =~= seq![a]);
        assert(seq![a, b].subrange(1, 2) =~= seq![b]);
        assert(build(seq![a], Seq::empty()) == a);
        assert(build(seq![b], Seq::empty()) == b);
        assert(build(seq![c], Seq::empty()) == c);
        assert(build(seq![a, b], seq![o1]) == NodeModel::Expr(Box::new(a), o1, Box::new(b)));
        assert(build(atoms, ops) == NodeModel::Expr(
            Box::new(build(atoms.subrange(0, 2), ops.subrange(0, 1))),
            o2,
            Box::new(build(atoms.subrange(2, 3), ops.subrange(2, 2))),
        ));
    }
}

} // verus!
