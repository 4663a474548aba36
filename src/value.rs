use vstd::prelude::*;
use vstd::string::StringExecFns;
use crate::ast::{Node, NodeModel, OperatorData, nodes_model, strings_model, copy_nodes, copy_strings};
use crate::host::{Host, Machine, Oracle, FloatQuery, agrees};
use crate::text::{int_text, nat_text, i64_text, u64_text, join_with, quoted, quote, join_strings};

verus! {

broadcast use vstd::std_specs::vec::group_vec_axioms;

/// Errors raised by the parser, the value model and the evaluator.
#[derive(Debug, PartialEq)]
pub enum ErrorKind {
    Syntax { error_line_number: usize },
    FunctionNotImplemented,
    RuntimeError(String),
    CommandError(String, String),
    NameError(String),
    TypeError,
}

pub enum ErrorModel {
    Syntax(nat),
    FunctionNotImplemented,
    RuntimeError(Seq<char>),
    CommandError(Seq<char>, Seq<char>),
    NameError(Seq<char>),
    TypeError,
}

impl View for ErrorKind {
    type V = ErrorModel;

    open spec fn view(&self) -> ErrorModel {
        match self {
            ErrorKind::Syntax { error_line_number } => ErrorModel::Syntax(*error_line_number as nat),
            ErrorKind::FunctionNotImplemented => ErrorModel::FunctionNotImplemented,
            ErrorKind::RuntimeError(m) => ErrorModel::RuntimeError(m@),
            ErrorKind::CommandError(c, m) => ErrorModel::CommandError(c@, m@),
            ErrorKind::NameError(n) => ErrorModel::NameError(n@),
            ErrorKind::TypeError => ErrorModel::TypeError,
        }
    }
}

/// The one-line diagnostic for an error.
pub open spec fn error_text(e: ErrorModel) -> Seq<char> {
    match e {
        ErrorModel::Syntax(n) => "SyntaxError: line "@ + nat_text(n),
        ErrorModel::FunctionNotImplemented => "FunctionNotImplementedError"@,
        ErrorModel::RuntimeError(m) => "RuntimeError: "@ + m,
        ErrorModel::CommandError(c, m) => "CommandError("@ + c + "): "@ + m,
        ErrorModel::NameError(n) => "NameError: name '"@ + n + "' is not defined"@,
        ErrorModel::TypeError => "TypeError"@,
    }
}

impl ErrorKind {
    pub fn make_run_err(message: &str) -> (r: ErrorKind)
        ensures
            r@ == ErrorModel::RuntimeError(message@),
    {
        ErrorKind::RuntimeError(message.to_owned())
    }

    pub fn duplicate(&self) -> (r: ErrorKind)
        ensures
            r@ == self@,
    {
        match self {
            ErrorKind::Syntax { error_line_number } => ErrorKind::Syntax {
                error_line_number: *error_line_number,
            },
            ErrorKind::FunctionNotImplemented => ErrorKind::FunctionNotImplemented,
            ErrorKind::RuntimeError(m) => ErrorKind::RuntimeError(m.clone()),
            ErrorKind::CommandError(c, m) => ErrorKind::CommandError(c.clone(), m.clone()),
            ErrorKind::NameError(n) => ErrorKind::NameError(n.clone()),
            ErrorKind::TypeError => ErrorKind::TypeError,
        }
    }

    pub fn to_str(&self) -> (r: String)
        ensures
            r@ == error_text(self@),
    {
        match self {
            ErrorKind::Syntax { error_line_number } => {
                let mut s = "SyntaxError: line ".to_owned();
                s.append(u64_text(*error_line_number as u64).as_str());
                s
            },
            ErrorKind::FunctionNotImplemented => "FunctionNotImplementedError".to_owned(),
            ErrorKind::RuntimeError(m) => {
                let mut s = "RuntimeError: ".to_owned();
                s.append(m.as_str());
                s
            },
            ErrorKind::CommandError(c, m) => {
                let mut s = "CommandError(".to_owned();
                s.append(c.as_str());
                s.append("): ");
                s.append(m.as_str());
                s
            },
            ErrorKind::NameError(n) => {
                let mut s = "NameError: name '".to_owned();
                s.append(n.as_str());
                s.append("' is not defined");
                s
            },
            ErrorKind::TypeError => "TypeError".to_owned(),
        }
    }
}

/// A declared target: its name, the targets it requires, and its body.
#[derive(Debug)]
pub struct TTargetObject {
    pub name: String,
    pub require: Vec<String>,
    pub body: Vec<Node>,
}

/// A value of the language.
#[derive(Debug)]
pub enum WrapValueObject {
    Int(i64),
    /// An IEEE-754 double, as its bit pattern.
    Float(u64),
    Str(String),
    Bool(bool),
    Nil,
    List(Vec<WrapValueObject>),
    Target(TTargetObject),
}

/// The `None` value.
pub struct TNone;

impl TNone {
    pub fn a_none() -> (r: WrapValueObject)
        ensures
            r@ == ValueModel::Nil,
    {
        WrapValueObject::Nil
    }
}

pub struct TargetModel {
    pub name: Seq<char>,
    pub require: Seq<Seq<char>>,
    pub body: Seq<NodeModel>,
}

pub enum ValueModel {
    Int(int),
    Float(u64),
    Str(Seq<char>),
    Bool(bool),
    Nil,
    List(Seq<ValueModel>),
    Target(TargetModel),
}

pub open spec fn target_model(t: TTargetObject) -> TargetModel {
    TargetModel { name: t.name@, require: strings_model(t.require@), body: nodes_model(t.body@) }
}

pub open spec fn value_model(v: WrapValueObject) -> ValueModel
    decreases v, 0int,
{
    match v {
        WrapValueObject::Int(i) => ValueModel::Int(i as int),
        WrapValueObject::Float(b) => ValueModel::Float(b),
        WrapValueObject::Str(s) => ValueModel::Str(s@),
        WrapValueObject::Bool(b) => ValueModel::Bool(b),
        WrapValueObject::Nil => ValueModel::Nil,
        WrapValueObject::List(items) => ValueModel::List(values_model(items@)),
        WrapValueObject::Target(t) => ValueModel::Target(target_model(t)),
    }
}

pub open spec fn values_model(s: Seq<WrapValueObject>) -> Seq<ValueModel>
    decreases s, 1int,
{
    if s.len() == 0 {
        Seq::empty()
    } else {
        values_model(s.drop_last()).push(value_model(s.last()))
    }
}

impl View for WrapValueObject {
    type V = ValueModel;

    open spec fn view(&self) -> ValueModel {
        value_model(*self)
    }
}

pub open spec fn result_model(r: Result<WrapValueObject, ErrorKind>) -> Result<ValueModel, ErrorModel> {
    match r {
        Ok(v) => Ok(v@),
        Err(e) => Err(e@),
    }
}

pub proof fn lemma_values_model_push(s: Seq<WrapValueObject>, x: WrapValueObject)
    ensures
        values_model(s.push(x)) == values_model(s).push(value_model(x)),
{
    assert(s.push(x).drop_last() =~= s);
}

pub proof fn lemma_values_model_index(s: Seq<WrapValueObject>)
    ensures
        values_model(s).len() == s.len(),
        forall|i: int| 0 <= i < s.len() ==> #[trigger] values_model(s)[i] == value_model(s[i]),
    decreases s.len(),
{
    if s.len() > 0 {
        lemma_values_model_index(s.drop_last());
    }
}

impl TTargetObject {
    pub fn duplicate(&self) -> (r: TTargetObject)
        ensures
            target_model(r) == target_model(*self),
    {
        TTargetObject {
            name: self.name.clone(),
            require: copy_strings(&self.require),
            body: copy_nodes(&self.body),
        }
    }
}

impl WrapValueObject {
    /// A deep copy with the same model.
    pub fn duplicate(&self) -> (r: WrapValueObject)
        ensures
            r@ == self@,
        decreases self, 0int,
    {
        match self {
            WrapValueObject::Int(i) => WrapValueObject::Int(*i),
            WrapValueObject::Float(b) => WrapValueObject::Float(*b),
            WrapValueObject::Str(s) => WrapValueObject::Str(s.clone()),
            WrapValueObject::Bool(b) => WrapValueObject::Bool(*b),
            WrapValueObject::Nil => WrapValueObject::Nil,
            WrapValueObject::List(items) => WrapValueObject::List(copy_values(items)),
            WrapValueObject::Target(t) => WrapValueObject::Target(t.duplicate()),
        }
    }
}

pub fn copy_values(v: &Vec<WrapValueObject>) -> (r: Vec<WrapValueObject>)
    ensures
        values_model(r@) == values_model(v@),
    decreases v, 1int,
{
    let mut r: Vec<WrapValueObject> = Vec::new();
    let mut i: usize = 0;
    while i < v.len()
        invariant
            i <= v.len(),
            values_model(r@) == values_model(v@.subrange(0, i as int)),
        decreases v.len() - i,
    {
        let c = v[i].duplicate();
        proof {
            lemma_values_model_push(r@, c);
            lemma_values_model_push(v@.subrange(0, i as int), v@[i as int]);
            assert(v@.subrange(0, i as int).push(v@[i as int]) =~= v@.subrange(0, i + 1));
        }
        r.push(c);
        i = i + 1;
    }
    assert(v@.subrange(0, v.len() as int) =~= v@);
    r
}

} // verus!

verus! {

pub open spec fn is_arith(op: OperatorData) -> bool {
    op is Add || op is Sub || op is Mul || op is Div
}

pub open spec fn is_num(v: ValueModel) -> bool {
    v is Int || v is Float
}

/// A number as a double: an integer goes through the host's conversion.
pub open spec fn num_bits(o: Oracle, v: ValueModel) -> u64 {
    match v {
        ValueModel::Int(i) => (o.float)(FloatQuery::OfInt(i)),
        ValueModel::Float(b) => b,
        _ => 0,
    }
}

pub open spec fn int_arith(op: OperatorData, x: int, y: int) -> Result<ValueModel, ErrorModel> {
    let r = match op {
        OperatorData::Add => x + y,
        OperatorData::Sub => x - y,
        _ => x * y,
    };
    if i64::MIN <= r <= i64::MAX {
        Ok(ValueModel::Int(r))
    } else {
        Err(ErrorModel::RuntimeError("integer overflow"@))
    }
}

/// `a op b` for `+ - * /`. Two integers stay integers except under `/`, which
/// always gives a float; a float on either side makes a float; `+` also
/// concatenates strings (a number on the right is written in decimal) and lists.
pub open spec fn arith_spec(o: Oracle, op: OperatorData, a: ValueModel, b: ValueModel) -> Result<ValueModel, ErrorModel> {
    if a is Int && b is Int && !(op is Div) {
        int_arith(op, a->Int_0, b->Int_0)
    } else if is_num(a) && is_num(b) {
        Ok(ValueModel::Float((o.float)(FloatQuery::Arith(op, num_bits(o, a), num_bits(o, b)))))
    } else if op is Add {
        match (a, b) {
            (ValueModel::Str(s), ValueModel::Str(t)) => Ok(ValueModel::Str(s + t)),
            (ValueModel::Str(s), ValueModel::Int(i)) => Ok(ValueModel::Str(s + int_text(i))),
            (ValueModel::Str(s), ValueModel::Float(f)) => Ok(ValueModel::Str(s + (o.text)(f))),
            (ValueModel::List(x), ValueModel::List(y)) => Ok(ValueModel::List(x + y)),
            _ => Err(ErrorModel::FunctionNotImplemented),
        }
    } else {
        Err(ErrorModel::FunctionNotImplemented)
    }
}

pub open spec fn float_is_nan(b: u64) -> bool {
    (b as int / 0x10_0000_0000_0000) % 2048 == 2047 && b as int % 0x10_0000_0000_0000 != 0
}

/// `+0.0` or `-0.0`.
pub open spec fn float_is_zero(b: u64) -> bool {
    b as int % 0x8000_0000_0000_0000 == 0
}

/// IEEE-754 equality: NaN equals nothing, the two zeros are equal.
pub open spec fn float_eq(a: u64, b: u64) -> bool {
    !float_is_nan(a) && !float_is_nan(b) && (a == b || (float_is_zero(a) && float_is_zero(b)))
}

/// `a == b`. Numbers compare as doubles when either is a float; targets are
/// equal when their names, requirements and bodies are; values of different
/// kinds are unequal; two lists cannot be compared.
pub open spec fn eq_spec(o: Oracle, a: ValueModel, b: ValueModel) -> Result<bool, ErrorModel> {
    match a {
        ValueModel::Int(x) => match b {
            ValueModel::Int(y) => Ok(x == y),
            ValueModel::Float(g) => Ok(float_eq(num_bits(o, a), g)),
            _ => Ok(false),
        },
        ValueModel::Float(f) => match b {
            ValueModel::Int(_) => Ok(float_eq(f, num_bits(o, b))),
            ValueModel::Float(g) => Ok(float_eq(f, g)),
            _ => Ok(false),
        },
        ValueModel::Str(s) => Ok(b is Str && b->Str_0 == s),
        ValueModel::Bool(x) => Ok(b is Bool && b->Bool_0 == x),
        ValueModel::Nil => Ok(b is Nil),
        ValueModel::List(_) => if b is List {
            Err(ErrorModel::FunctionNotImplemented)
        } else {
            Ok(false)
        },
        ValueModel::Target(t) => Ok(b is Target && b->Target_0 == t),
    }
}

pub open spec fn bool_result(r: Result<bool, ErrorModel>, negate: bool) -> Result<ValueModel, ErrorModel> {
    match r {
        Ok(x) => Ok(ValueModel::Bool(x != negate)),
        Err(e) => Err(e),
    }
}

/// Truthiness: zero, `0.0`, `-0.0`, `false` and `None` are false.
pub open spec fn truthy(v: ValueModel) -> bool {
    match v {
        ValueModel::Int(i) => i != 0,
        ValueModel::Float(b) => !float_is_zero(b),
        ValueModel::Bool(b) => b,
        ValueModel::Nil => false,
        _ => true,
    }
}

fn float_bits_is_nan(b: u64) -> (r: bool)
    ensures
        r == float_is_nan(b),
{
    b / 0x10_0000_0000_0000 % 2048 == 2047 && b % 0x10_0000_0000_0000 != 0
}

fn float_bits_eq(a: u64, b: u64) -> (r: bool)
    ensures
        r == float_eq(a, b),
{
    !float_bits_is_nan(a) && !float_bits_is_nan(b) && (a == b || (a % 0x8000_0000_0000_0000 == 0
        && b % 0x8000_0000_0000_0000 == 0))
}

fn int_arith_exec(op: OperatorData, x: i64, y: i64) -> (r: Result<WrapValueObject, ErrorKind>)
    requires
        op is Add || op is Sub || op is Mul,
    ensures
        result_model(r) == int_arith(op, x as int, y as int),
{
    let c = match op {
        OperatorData::Add => x.checked_add(y),
        OperatorData::Sub => x.checked_sub(y),
        _ => x.checked_mul(y),
    };
    match c {
        Some(v) => Ok(WrapValueObject::Int(v)),
        None => Err(ErrorKind::make_run_err("integer overflow")),
    }
}

impl WrapValueObject {
    /// The value as a double; an integer is converted by the host.
    fn num_to_bits<H: Host>(&self, m: &mut Machine<H>) -> (r: u64)
        requires
            is_num(self@),
        ensures
            final(m).quiet_since(*old(m)),
            forall|o: Oracle| #[trigger] agrees(o, final(m).answers()) ==> r == num_bits(o, self@),
    {
        match self {
            WrapValueObject::Int(i) => {
                let r = m.float_of_int(*i);
                proof {
                    assert forall|o: Oracle| #[trigger] agrees(o, m.answers()) implies r == num_bits(o, self@) by {
                        crate::host::lemma_agrees_push(o, old(m).answers(), m.answers().last());
                        assert(m.answers() == old(m).answers().push(m.answers().last()));
                    }
                    assert(old(m).answers() =~= m.answers().subrange(0, old(m).answers().len() as int));
                }
                r
            },
            WrapValueObject::Float(b) => {
                assert(old(m).answers() =~= m.answers().subrange(0, old(m).answers().len() as int));
                *b
            },
            _ => 0,
        }
    }

    /// `self op right` for one of `+ - * /`.
    pub fn t_arith<H: Host>(&self, op: OperatorData, right: &WrapValueObject, m: &mut Machine<H>) -> (r: Result<WrapValueObject, ErrorKind>)
        requires
            is_arith(op),
        ensures
            final(m).quiet_since(*old(m)),
            forall|o: Oracle| #[trigger] agrees(o, final(m).answers()) ==> result_model(r) == arith_spec(o, op, self@, right@),
    {
        let ghost a0 = m.answers();
        proof {
            assert(a0 =~= a0.subrange(0, a0.len() as int));
        }
        if let (WrapValueObject::Int(x), WrapValueObject::Int(y)) = (self, right) {
            if !(op == OperatorData::Div) {
                return int_arith_exec(op, *x, *y);
            }
        }
        if is_num_value(self) && is_num_value(right) {
            let a = self.num_to_bits(m);
            let ghost a1 = m.answers();
            let b = right.num_to_bits(m);
            let ghost a2 = m.answers();
            let f = m.float_arith(op, a, b);
            proof {
                assert(a2 =~= m.answers().subrange(0, a2.len() as int));
                crate::host::lemma_prefix_trans(a0, a1, a2);
                crate::host::lemma_prefix_trans(a1, a2, m.answers());
                crate::host::lemma_prefix_trans(a0, a2, m.answers());
                assert forall|o: Oracle| #[trigger] agrees(o, m.answers()) implies f == (o.float)(
                    FloatQuery::Arith(op, num_bits(o, self@), num_bits(o, right@)),
                ) by {
                    crate::host::lemma_agrees_push(o, a2, m.answers().last());
                    assert(m.answers() == a2.push(m.answers().last()));
                    crate::host::lemma_agrees_prefix(o, a1, a2);
                }
            }
            return Ok(WrapValueObject::Float(f));
        }
        if !(op == OperatorData::Add) {
            return Err(ErrorKind::FunctionNotImplemented);
        }
        match (self, right) {
            (WrapValueObject::Str(s), WrapValueObject::Str(t)) => {
                let mut v = s.clone();
                v.append(t.as_str());
                Ok(WrapValueObject::Str(v))
            },
            (WrapValueObject::Str(s), WrapValueObject::Int(i)) => {
                let mut v = s.clone();
                v.append(i64_text(*i).as_str());
                Ok(WrapValueObject::Str(v))
            },
            (WrapValueObject::Str(s), WrapValueObject::Float(f)) => {
                let mut v = s.clone();
                let t = m.float_text(*f);
                v.append(t.as_str());
                proof {
                    assert(a0 =~= m.answers().subrange(0, a0.len() as int));
                    assert forall|o: Oracle| #[trigger] agrees(o, m.answers()) implies t@ == (o.text)(*f) by {
                        crate::host::lemma_agrees_push(o, a0, m.answers().last());
                        assert(m.answers() == a0.push(m.answers().last()));
                    }
                }
                Ok(WrapValueObject::Str(v))
            },
            (WrapValueObject::List(x), WrapValueObject::List(y)) => {
                let mut v = copy_values(x);
                let mut w = copy_values(y);
                proof {
                    lemma_values_model_index(v@);
                    lemma_values_model_index(w@);
                    lemma_values_model_index(x@);
                    lemma_values_model_index(y@);
                }
                v.append(&mut w);
                proof {
                    lemma_values_model_index(v@);
                    assert(values_model(v@) =~= values_model(x@) + values_model(y@));
                }
                Ok(WrapValueObject::List(v))
            },
            _ => Err(ErrorKind::FunctionNotImplemented),
        }
    }

    pub fn t_add<H: Host>(&self, right: &WrapValueObject, m: &mut Machine<H>) -> (r: Result<WrapValueObject, ErrorKind>)
        ensures
            final(m).quiet_since(*old(m)),
            forall|o: Oracle| #[trigger] agrees(o, final(m).answers()) ==> result_model(r) == arith_spec(o, OperatorData::Add, self@, right@),
    {
        self.t_arith(OperatorData::Add, right, m)
    }

    pub fn t_sub<H: Host>(&self, right: &WrapValueObject, m: &mut Machine<H>) -> (r: Result<WrapValueObject, ErrorKind>)
        ensures
            final(m).quiet_since(*old(m)),
            forall|o: Oracle| #[trigger] agrees(o, final(m).answers()) ==> result_model(r) == arith_spec(o, OperatorData::Sub, self@, right@),
    {
        self.t_arith(OperatorData::Sub, right, m)
    }

    pub fn t_mul<H: Host>(&self, right: &WrapValueObject, m: &mut Machine<H>) -> (r: Result<WrapValueObject, ErrorKind>)
        ensures
            final(m).quiet_since(*old(m)),
            forall|o: Oracle| #[trigger] agrees(o, final(m).answers()) ==> result_model(r) == arith_spec(o, OperatorData::Mul, self@, right@),
    {
        self.t_arith(OperatorData::Mul, right, m)
    }

    pub fn t_div<H: Host>(&self, right: &WrapValueObject, m: &mut Machine<H>) -> (r: Result<WrapValueObject, ErrorKind>)
        ensures
            final(m).quiet_since(*old(m)),
            forall|o: Oracle| #[trigger] agrees(o, final(m).answers()) ==> result_model(r) == arith_spec(o, OperatorData::Div, self@, right@),
    {
        self.t_arith(OperatorData::Div, right, m)
    }

    fn eq_bool<H: Host>(&self, right: &WrapValueObject, m: &mut Machine<H>) -> (r: Result<bool, ErrorKind>)
        ensures
            final(m).quiet_since(*old(m)),
            forall|o: Oracle| #[trigger] agrees(o, final(m).answers()) ==> match r {
                Ok(x) => eq_spec(o, self@, right@) == Ok::<bool, ErrorModel>(x),
                Err(e) => eq_spec(o, self@, right@) == Err::<bool, ErrorModel>(e@),
            },
    {
        proof {
            assert(m.answers() =~= m.answers().subrange(0, m.answers().len() as int));
        }
        match (self, right) {
            (WrapValueObject::Int(x), WrapValueObject::Int(y)) => Ok(*x == *y),
            (WrapValueObject::Int(_), WrapValueObject::Float(g)) => {
                let f = self.num_to_bits(m);
                Ok(float_bits_eq(f, *g))
            },
            (WrapValueObject::Float(f), WrapValueObject::Int(_)) => {
                let g = right.num_to_bits(m);
                Ok(float_bits_eq(*f, g))
            },
            (WrapValueObject::Float(f), WrapValueObject::Float(g)) => Ok(float_bits_eq(*f, *g)),
            (WrapValueObject::Int(_), _) => Ok(false),
            (WrapValueObject::Float(_), _) => Ok(false),
            (WrapValueObject::Str(s), WrapValueObject::Str(t)) => Ok(s.eq(t)),
            (WrapValueObject::Str(_), _) => Ok(false),
            (WrapValueObject::Bool(x), WrapValueObject::Bool(y)) => Ok(*x == *y),
            (WrapValueObject::Bool(_), _) => Ok(false),
            (WrapValueObject::Nil, WrapValueObject::Nil) => Ok(true),
            (WrapValueObject::Nil, _) => Ok(false),
            (WrapValueObject::List(_), WrapValueObject::List(_)) => Err(ErrorKind::FunctionNotImplemented),
            (WrapValueObject::List(_), _) => Ok(false),
            (WrapValueObject::Target(x), WrapValueObject::Target(y)) => Ok(same_target(x, y)),
            (WrapValueObject::Target(_), _) => Ok(false),
        }
    }

    /// `self == right`, as a `Bool` value.
    pub fn t_eq<H: Host>(&self, right: &WrapValueObject, m: &mut Machine<H>) -> (r: Result<WrapValueObject, ErrorKind>)
        ensures
            final(m).quiet_since(*old(m)),
            forall|o: Oracle| #[trigger] agrees(o, final(m).answers()) ==> result_model(r) == bool_result(eq_spec(o, self@, right@), false),
    {
        match self.eq_bool(right, m) {
            Ok(x) => Ok(WrapValueObject::Bool(x)),
            Err(e) => Err(e),
        }
    }

    /// `self != right`: the negation of `==`.
    pub fn t_not_eq<H: Host>(&self, right: &WrapValueObject, m: &mut Machine<H>) -> (r: Result<WrapValueObject, ErrorKind>)
        ensures
            final(m).quiet_since(*old(m)),
            forall|o: Oracle| #[trigger] agrees(o, final(m).answers()) ==> result_model(r) == bool_result(eq_spec(o, self@, right@), true),
    {
        match self.eq_bool(right, m) {
            Ok(x) => Ok(WrapValueObject::Bool(!x)),
            Err(e) => Err(e),
        }
    }

    pub fn to_bool(&self) -> (r: bool)
        ensures
            r == truthy(self@),
    {
        match self {
            WrapValueObject::Int(i) => *i != 0,
            WrapValueObject::Float(b) => *b % 0x8000_0000_0000_0000 != 0,
            WrapValueObject::Bool(b) => *b,
            WrapValueObject::Nil => false,
            _ => true,
        }
    }
}

fn same_target(a: &TTargetObject, b: &TTargetObject) -> (r: bool)
    ensures
        r == (target_model(*a) == target_model(*b)),
{
    a.name.eq(&b.name) && crate::ast::same_strings(&a.require, &b.require) && crate::ast::same_nodes(&a.body, &b.body)
}

fn is_num_value(v: &WrapValueObject) -> (r: bool)
    ensures
        r == is_num(v@),
{
    match v {
        WrapValueObject::Int(_) | WrapValueObject::Float(_) => true,
        _ => false,
    }
}

} // verus!

verus! {

pub open spec fn target_text(t: TargetModel) -> Seq<char> {
    "TargetObject(\""@ + t.name + "\", body_size="@ + nat_text(t.body.len()) + ", require=["@
        + join_with(Seq::new(t.require.len(), |i: int| quoted(t.require[i])), ", "@) + "])"@
}

/// `to_str`: the text of a value. A float is written by the host.
pub open spec fn value_text(o: Oracle, v: ValueModel) -> Seq<char>
    decreases v, 0int,
{
    match v {
        ValueModel::Int(i) => int_text(i),
        ValueModel::Float(b) => (o.text)(b),
        ValueModel::Str(s) => s,
        ValueModel::Bool(b) => if b {
            "true"@
        } else {
            "false"@
        },
        ValueModel::Nil => "None"@,
        ValueModel::List(items) => "["@ + join_with(reprs(o, items), ", "@) + "]"@,
        ValueModel::Target(t) => target_text(t),
    }
}

/// `to_repr_str`: as `to_str`, but a string is quoted.
pub open spec fn repr_text(o: Oracle, v: ValueModel) -> Seq<char>
    decreases v, 1int,
{
    match v {
        ValueModel::Str(s) => quoted(s),
        _ => value_text(o, v),
    }
}

pub open spec fn reprs(o: Oracle, items: Seq<ValueModel>) -> Seq<Seq<char>>
    decreases items, 2int,
{
    if items.len() == 0 {
        Seq::empty()
    } else {
        reprs(o, items.drop_last()).push(repr_text(o, items.last()))
    }
}

fn target_to_str(t: &TTargetObject) -> (r: String)
    ensures
        r@ == target_text(target_model(*t)),
{
    let mut quoted_reqs: Vec<String> = Vec::new();
    let mut i: usize = 0;
    while i < t.require.len()
        invariant
            i <= t.require.len(),
            quoted_reqs@.len() == i,
            forall|j: int| 0 <= j < i ==> #[trigger] quoted_reqs@[j]@ == quoted(t.require@[j]@),
        decreases t.require.len() - i,
    {
        quoted_reqs.push(quote(t.require[i].as_str()));
        i = i + 1;
    }
    let reqs = join_strings(&quoted_reqs, ", ");
    proof {
        crate::ast::lemma_nodes_model_index(t.body@);
        assert(Seq::new(quoted_reqs@.len(), |i: int| quoted_reqs@[i]@) =~= Seq::new(
            strings_model(t.require@).len(),
            |i: int| quoted(strings_model(t.require@)[i]),
        ));
    }
    let mut r = "TargetObject(\"".to_owned();
    r.append(t.name.as_str());
    r.append("\", body_size=");
    r.append(u64_text(t.body.len() as u64).as_str());
    r.append(", require=[");
    r.append(reqs.as_str());
    r.append("])");
    r
}


fn list_to_str<H: Host>(items: &Vec<WrapValueObject>, m: &mut Machine<H>) -> (r: String)
    ensures
        final(m).quiet_since(*old(m)),
        forall|o: Oracle| #[trigger] agrees(o, final(m).answers()) ==> r@ == value_text(o, ValueModel::List(values_model(items@))),
    decreases items, 2int,
{
    proof {
        assert(m.answers() =~= m.answers().subrange(0, m.answers().len() as int));
    }
    let mut r = "[".to_owned();
    let ghost start = r@;
    let ghost model = values_model(items@);
    proof {
        lemma_values_model_index(items@);
    }
    let mut i: usize = 0;
    while i < items.len()
        invariant
            i <= items.len(),
            model == values_model(items@),
            model.len() == items@.len(),
            forall|j: int| 0 <= j < items@.len() ==> #[trigger] model[j] == value_model(items@[j]),
            m.quiet_since(*old(m)),
            forall|o: Oracle| #[trigger] agrees(o, m.answers()) ==> r@ == start + join_with(
                reprs(o, model.subrange(0, i as int)),
                ", "@,
            ),
        decreases items.len() - i,
    {
        let ghost mi = *m;
        if i > 0 {
            r.append(", ");
        }
        let t = items[i].to_repr_str(m);
        r.append(t.as_str());
        proof {
            crate::host::lemma_prefix_trans(old(m).answers(), mi.answers(), m.answers());
            assert(model.subrange(0, i as int + 1).drop_last() =~= model.subrange(0, i as int));
            assert forall|o: Oracle| #[trigger] agrees(o, m.answers()) implies r@ == start + join_with(
                reprs(o, model.subrange(0, i as int + 1)),
                ", "@,
            ) by {
                crate::host::lemma_agrees_prefix(o, mi.answers(), m.answers());
                assert(agrees(o, mi.answers()));
                crate::text::lemma_join_push(reprs(o, model.subrange(0, i as int)), ", "@, repr_text(o, model[i as int]));
                assert(reprs(o, model.subrange(0, i as int + 1)) == reprs(o, model.subrange(0, i as int)).push(repr_text(o, model[i as int])));
            }
        }
        i = i + 1;
    }
    r.append("]");
    proof {
        assert(model.subrange(0, items@.len() as int) =~= model);
    }
    r
}

impl WrapValueObject {
    pub fn to_str<H: Host>(&self, m: &mut Machine<H>) -> (r: String)
        ensures
            final(m).quiet_since(*old(m)),
            forall|o: Oracle| #[trigger] agrees(o, final(m).answers()) ==> r@ == value_text(o, self@),
        decreases self, 0int,
    {
        proof {
            assert(m.answers() =~= m.answers().subrange(0, m.answers().len() as int));
        }
        match self {
            WrapValueObject::Int(i) => i64_text(*i),
            WrapValueObject::Float(b) => {
                let t = m.float_text(*b);
                proof {
                    assert(old(m).answers() =~= m.answers().subrange(0, old(m).answers().len() as int));
                    assert forall|o: Oracle| #[trigger] agrees(o, m.answers()) implies t@ == (o.text)(*b) by {
                        crate::host::lemma_agrees_push(o, old(m).answers(), m.answers().last());
                        assert(m.answers() == old(m).answers().push(m.answers().last()));
                    }
                }
                t
            },
            WrapValueObject::Str(s) => s.clone(),
            WrapValueObject::Bool(b) => if *b {
                "true".to_owned()
            } else {
                "false".to_owned()
            },
            WrapValueObject::Nil => "None".to_owned(),
            WrapValueObject::List(items) => list_to_str(items, m),
            WrapValueObject::Target(t) => target_to_str(t),
        }
    }

    pub fn to_repr_str<H: Host>(&self, m: &mut Machine<H>) -> (r: String)
        ensures
            final(m).quiet_since(*old(m)),
            forall|o: Oracle| #[trigger] agrees(o, final(m).answers()) ==> r@ == repr_text(o, self@),
        decreases self, 1int,
    {
        match self {
            WrapValueObject::Str(s) => {
                proof {
                    assert(m.answers() =~= m.answers().subrange(0, m.answers().len() as int));
                }
                quote(s.as_str())
            },
            _ => self.to_str(m),
        }
    }
}

} // verus!

verus! {

/// Division promotes: two integers divide to a float, the quotient of the
/// two converted integers.
pub proof fn lemma_division_promotes(o: Oracle, a: int, b: int)
    ensures
        arith_spec(o, OperatorData::Div, ValueModel::Int(a), ValueModel::Int(b)) == Ok::<ValueModel, ErrorModel>(
            ValueModel::Float((o.float)(FloatQuery::Arith(
                OperatorData::Div,
                (o.float)(FloatQuery::OfInt(a)),
                (o.float)(FloatQuery::OfInt(b)),
            ))),
        ),
{
}

/// String concatenation: a string plus an integer plus a float is the
/// string, the integer in decimal, then the float's text (`"a" + 1 + 2.5`
/// is `"a12.5"`).
pub proof fn lemma_concat(o: Oracle, s: Seq<char>, i: int, f: u64)
    ensures
        ({
            let first = arith_spec(o, OperatorData::Add, ValueModel::Str(s), ValueModel::Int(i));
            &&& first == Ok::<ValueModel, ErrorModel>(ValueModel::Str(s + int_text(i)))
            &&& arith_spec(o, OperatorData::Add, first->Ok_0, ValueModel::Float(f)) == Ok::<ValueModel, ErrorModel>(
                ValueModel::Str(s + int_text(i) + (o.text)(f)),
            )
        }),
{
}

/// Equality is reflexive on every value a program can build (integers,
/// floats other than NaN, strings, booleans, `None`, targets); `!=` is its
/// negation.
pub proof fn lemma_eq_reflexive(o: Oracle, v: ValueModel)
    requires
        v is Int || v is Str || v is Bool || v is Nil || v is Target || (v is Float && !float_is_nan(v->Float_0)),
    ensures
        eq_spec(o, v, v) == Ok::<bool, ErrorModel>(true),
        bool_result(eq_spec(o, v, v), true) == Ok::<ValueModel, ErrorModel>(ValueModel::Bool(false)),
{
}

} // verus!

verus! {

/// A cursor over a list.
#[derive(Debug)]
pub struct TListIter {
    list: Vec<WrapValueObject>,
    this: usize,
}

impl TListIter {
    pub closed spec fn items(&self) -> Seq<ValueModel> {
        values_model(self.list@)
    }

    pub closed spec fn position(&self) -> nat {
        self.this as nat
    }

    /// The next item, if any, and the cursor moves past it.
    pub fn iter_next(&mut self) -> (r: Option<WrapValueObject>)
        ensures
            final(self).items() == old(self).items(),
            old(self).position() < old(self).items().len() ==> (r matches Some(v) && v@ == old(self).items()[old(self).position() as int]
                && final(self).position() == old(self).position() + 1),
            old(self).position() >= old(self).items().len() ==> (r is None && final(self).position() == old(self).position()),
    {
        proof {
            lemma_values_model_index(self.list@);
        }
        if self.this < self.list.len() {
            let v = self.list[self.this].duplicate();
            self.this = self.this + 1;
            Some(v)
        } else {
            None
        }
    }
}

impl WrapValueObject {
    /// A cursor at the start of a list; other values cannot be walked.
    pub fn t_get_iter(&self) -> (r: Result<TListIter, ErrorKind>)
        ensures
            self@ is List ==> (r matches Ok(it) && it.items() == self@->List_0 && it.position() == 0),
            !(self@ is List) ==> (r matches Err(e) && e@ == ErrorModel::FunctionNotImplemented),
    {
        match self {
            WrapValueObject::List(items) => Ok(TListIter { list: copy_values(items), this: 0 }),
            _ => Err(ErrorKind::FunctionNotImplemented),
        }
    }
}

} // verus!
