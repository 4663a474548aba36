use vstd::prelude::*;
use vstd::string::StringExecFns;
use vstd::pervasive::VecAdditionalExecFns;
use crate::ast::{Node, NodeModel, LitModel, OperatorData, nodes_model, strings_model, branches_model};
use crate::host::{Host, Machine, Oracle, FloatQuery, SpawnModel, HostEvent, agrees, is_prefix};
use crate::text::{join_with, join_strings};
use crate::value::{
    ErrorKind, ErrorModel, WrapValueObject, ValueModel, TargetModel, TTargetObject, TNone,
    arith_spec, eq_spec, bool_result, truthy, value_text, result_model, target_model,
};

verus! {

broadcast use vstd::std_specs::vec::group_vec_axioms;

/// The commands that run inside the interpreter.
#[derive(Debug, Clone, Copy, PartialEq, Eq, Structural)]
pub enum Builtin {
    /// Writes its arguments, separated by single spaces, as one line.
    Message,
}

/// Model of a run-space: the variables, the built-in commands, the lines
/// written so far and the processes spawned so far (each command with its
/// argument texts).
pub struct SpaceModel {
    pub vars: Map<Seq<char>, ValueModel>,
    pub commands: Map<Seq<char>, Builtin>,
    pub out: Seq<Seq<char>>,
    pub spawns: Seq<(Seq<char>, Seq<Seq<char>>)>,
}

/// The map built by a list of bindings, a later binding of a key replacing
/// an earlier one.
pub open spec fn bindings_map<V>(s: Seq<(Seq<char>, V)>) -> Map<Seq<char>, V>
    decreases s.len(),
{
    if s.len() == 0 {
        Map::empty()
    } else {
        bindings_map(s.drop_last()).insert(s.last().0, s.last().1)
    }
}

pub open spec fn bind(s: SpaceModel, k: Seq<char>, v: ValueModel) -> SpaceModel {
    SpaceModel { vars: s.vars.insert(k, v), ..s }
}

pub open spec fn binop_spec(o: Oracle, op: OperatorData, a: ValueModel, b: ValueModel) -> Result<ValueModel, ErrorModel> {
    match op {
        OperatorData::Eq => bool_result(eq_spec(o, a, b), false),
        OperatorData::NotEq => bool_result(eq_spec(o, a, b), true),
        _ => arith_spec(o, op, a, b),
    }
}

pub open spec fn lit_value(o: Oracle, l: LitModel) -> ValueModel {
    match l {
        LitModel::Int(i) => ValueModel::Int(i),
        LitModel::Float(t) => ValueModel::Float((o.float)(FloatQuery::Literal(t))),
        LitModel::Str(s) => ValueModel::Str(s),
    }
}

/// What a command does once its arguments are written out: a built-in runs
/// in place; any other name is spawned as a process, with the command's name
/// and the argument texts, and its exit code is the result.
pub open spec fn command_spec(o: Oracle, c: Seq<char>, texts: Seq<Seq<char>>, s: SpaceModel) -> (Result<ValueModel, ErrorModel>, SpaceModel) {
    if s.commands.contains_key(c) {
        match s.commands[c] {
            Builtin::Message => (Ok(ValueModel::Nil), SpaceModel { out: s.out.push(join_with(texts, " "@)), ..s }),
        }
    } else {
        let s1 = SpaceModel { spawns: s.spawns.push((c, texts)), ..s };
        match (o.spawn)(s.spawns.len()) {
            SpawnModel::Exited(Some(code)) => (Ok(ValueModel::Int(code)), s1),
            SpawnModel::Exited(None) => (Ok(ValueModel::Nil), s1),
            SpawnModel::Failed(msg) => (Err(ErrorModel::CommandError(c, msg)), s1),
        }
    }
}

/// Evaluation of one node against a run-space.
pub open spec fn eval(o: Oracle, n: NodeModel, s: SpaceModel) -> (Result<ValueModel, ErrorModel>, SpaceModel)
    decreases n, 1int, 0int,
{
    match n {
        NodeModel::Name(k) => if s.vars.contains_key(k) {
            (Ok(s.vars[k]), s)
        } else {
            (Err(ErrorModel::RuntimeError("key "@ + k + " not found"@)), s)
        },
        NodeModel::Value(l) => (Ok(lit_value(o, l)), s),
        NodeModel::Expr(l, op, r) => {
            let (lr, s1) = eval(o, *l, s);
            match lr {
                Err(e) => (Err(e), s1),
                Ok(lv) => {
                    let (rr, s2) = eval(o, *r, s1);
                    match rr {
                        Err(e) => (Err(e), s2),
                        Ok(rv) => (binop_spec(o, op, lv, rv), s2),
                    }
                },
            }
        },
        NodeModel::SetAttr(k, e) => {
            let (r, s1) = eval(o, *e, s);
            match r {
                Err(e) => (Err(e), s1),
                Ok(v) => (Ok(ValueModel::Nil), bind(s1, k, v)),
            }
        },
        NodeModel::Command(c, args) => {
            let (r, s1) = eval_args(o, args, args.len() as int, s);
            match r {
                Err(e) => (Err(e), s1),
                Ok(texts) => command_spec(o, c, texts, s1),
            }
        },
        NodeModel::Target(name, require, body) => (
            Ok(ValueModel::Nil),
            bind(s, name, ValueModel::Target(TargetModel { name, require, body })),
        ),
        NodeModel::If(branches, else_body) => {
            let (r, s1) = eval_branches(o, branches, 0, s);
            match r {
                Err(e) => (Err(e), s1),
                Ok(true) => (Ok(ValueModel::Nil), s1),
                Ok(false) => match else_body {
                    Some(b) => unit_result(eval_body(o, b, b.len() as int, s1)),
                    None => (Ok(ValueModel::Nil), s1),
                },
            }
        },
        NodeModel::Module(body) => unit_result(eval_body(o, body, body.len() as int, s)),
    }
}

pub open spec fn unit_result(p: (Result<(), ErrorModel>, SpaceModel)) -> (Result<ValueModel, ErrorModel>, SpaceModel) {
    match p.0 {
        Ok(_) => (Ok(ValueModel::Nil), p.1),
        Err(e) => (Err(e), p.1),
    }
}

/// The first `k` arguments, evaluated left to right and written out.
pub open spec fn eval_args(o: Oracle, args: Seq<NodeModel>, k: int, s: SpaceModel) -> (Result<Seq<Seq<char>>, ErrorModel>, SpaceModel)
    decreases args, 0int, k,
{
    if k <= 0 || k > args.len() {
        (Ok(Seq::empty()), s)
    } else {
        let (r, s1) = eval_args(o, args, k - 1, s);
        match r {
            Err(e) => (Err(e), s1),
            Ok(texts) => {
                let (v, s2) = eval(o, args[k - 1], s1);
                match v {
                    Err(e) => (Err(e), s2),
                    Ok(v) => (Ok(texts.push(value_text(o, v))), s2),
                }
            },
        }
    }
}

/// The first `k` statements, in order, stopping at the first error.
pub open spec fn eval_body(o: Oracle, body: Seq<NodeModel>, k: int, s: SpaceModel) -> (Result<(), ErrorModel>, SpaceModel)
    decreases body, 0int, k,
{
    if k <= 0 || k > body.len() {
        (Ok(()), s)
    } else {
        let (r, s1) = eval_body(o, body, k - 1, s);
        match r {
            Err(e) => (Err(e), s1),
            Ok(_) => {
                let (v, s2) = eval(o, body[k - 1], s1);
                match v {
                    Err(e) => (Err(e), s2),
                    Ok(_) => (Ok(()), s2),
                }
            },
        }
    }
}

/// Tries the branches from the `i`-th on: the first whose condition is truthy
/// has its body run, and the result says whether one was.
pub open spec fn eval_branches(o: Oracle, bs: Seq<(NodeModel, Seq<NodeModel>)>, i: int, s: SpaceModel) -> (Result<bool, ErrorModel>, SpaceModel)
    decreases bs, 0int, bs.len() - i,
{
    if i < 0 || i >= bs.len() {
        (Ok(false), s)
    } else {
        let (c, s1) = eval(o, bs[i].0, s);
        match c {
            Err(e) => (Err(e), s1),
            Ok(v) => if truthy(v) {
                let (r, s2) = eval_body(o, bs[i].1, bs[i].1.len() as int, s1);
                match r {
                    Err(e) => (Err(e), s2),
                    Ok(_) => (Ok(true), s2),
                }
            } else {
                eval_branches(o, bs, i + 1, s1)
            },
        }
    }
}

/// The diagnostic for a cycle: the chain of targets, back to the repeated one.
pub open spec fn cycle_text(chain: Seq<Seq<char>>, name: Seq<char>) -> Seq<char> {
    "dependency cycle: "@ + join_with(chain.push(name), " -> "@)
}

/// Runs a target: its requirements first, in order and each with its own
/// requirements first, then its body. `chain` holds the targets being run
/// that led here, none twice. The chain is held in memory, so it never
/// reaches `usize::MAX` names; that bound measures the recursion.
pub open spec fn run_target(o: Oracle, name: Seq<char>, s: SpaceModel, chain: Seq<Seq<char>>) -> (Result<(), ErrorModel>, SpaceModel)
    decreases usize::MAX - chain.len(), 0int, 0int,
{
    if !s.vars.contains_key(name) {
        (Err(ErrorModel::NameError(name)), s)
    } else if !(s.vars[name] is Target) {
        (Err(ErrorModel::TypeError), s)
    } else if chain.contains(name) {
        (Err(ErrorModel::RuntimeError(cycle_text(chain, name))), s)
    } else if chain.len() >= usize::MAX {
        (Err(ErrorModel::RuntimeError("dependency chain does not fit in memory"@)), s)
    } else {
        let t = s.vars[name]->Target_0;
        let (r, s1) = run_requires(o, t.require, t.require.len() as int, s, chain.push(name));
        match r {
            Err(e) => (Err(e), s1),
            Ok(_) => eval_body(o, t.body, t.body.len() as int, s1),
        }
    }
}

/// Runs the first `k` required targets in order.
pub open spec fn run_requires(o: Oracle, reqs: Seq<Seq<char>>, k: int, s: SpaceModel, chain: Seq<Seq<char>>) -> (Result<(), ErrorModel>, SpaceModel)
    decreases usize::MAX - chain.len(), 1int, k,
{
    if k <= 0 || k > reqs.len() || chain.len() > usize::MAX {
        (Ok(()), s)
    } else {
        let (r, s1) = run_requires(o, reqs, k - 1, s, chain);
        match r {
            Err(e) => (Err(e), s1),
            Ok(_) => run_target(o, reqs[k - 1], s1, chain),
        }
    }
}

} // verus!

verus! {

pub proof fn lemma_bindings_last<V>(s: Seq<(Seq<char>, V)>, j: int, k: Seq<char>)
    requires
        0 <= j < s.len(),
        s[j].0 == k,
        forall|i: int| j < i < s.len() ==> (#[trigger] s[i]).0 != k,
    ensures
        bindings_map(s).contains_key(k),
        bindings_map(s)[k] == s[j].1,
    decreases s.len(),
{
    if j < s.len() - 1 {
        lemma_bindings_last(s.drop_last(), j, k);
    }
}

/// Replacing the last binding of a key is binding it anew.
pub proof fn lemma_bindings_update<V>(s: Seq<(Seq<char>, V)>, i: int, k: Seq<char>, v: V)
    requires
        0 <= i < s.len(),
        s[i].0 == k,
        forall|j: int| i < j < s.len() ==> (#[trigger] s[j]).0 != k,
    ensures
        bindings_map(s.update(i, (k, v))) == bindings_map(s).insert(k, v),
    decreases s.len(),
{
    let t = s.update(i, (k, v));
    if i == s.len() - 1 {
        assert(t.drop_last() =~= s.drop_last());
        assert(bindings_map(t) =~= bindings_map(s).insert(k, v));
    } else {
        assert(t.drop_last() =~= s.drop_last().update(i, (k, v)));
        lemma_bindings_update(s.drop_last(), i, k, v);
        assert(s.last().0 != k);
        assert(bindings_map(t) =~= bindings_map(s).insert(k, v));
    }
}

pub proof fn lemma_bindings_absent<V>(s: Seq<(Seq<char>, V)>, k: Seq<char>)
    requires
        forall|i: int| 0 <= i < s.len() ==> (#[trigger] s[i]).0 != k,
    ensures
        !bindings_map(s).contains_key(k),
    decreases s.len(),
{
    if s.len() > 0 {
        lemma_bindings_absent(s.drop_last(), k);
    }
}

pub open spec fn var_seq(v: Seq<(String, WrapValueObject)>) -> Seq<(Seq<char>, ValueModel)> {
    Seq::new(v.len(), |i: int| (v[i].0@, v[i].1@))
}

pub open spec fn command_seq(v: Seq<(String, Builtin)>) -> Seq<(Seq<char>, Builtin)> {
    Seq::new(v.len(), |i: int| (v[i].0@, v[i].1))
}

/// The state of one run: variables (targets among them), built-in commands,
/// and the host.
pub struct RunSpace<H: Host> {
    local_commands: Vec<(String, Builtin)>,
    vars: Vec<(String, WrapValueObject)>,
    pub machine: Machine<H>,
}

impl<H: Host> View for RunSpace<H> {
    type V = SpaceModel;

    closed spec fn view(&self) -> SpaceModel {
        SpaceModel {
            vars: bindings_map(var_seq(self.vars@)),
            commands: bindings_map(command_seq(self.local_commands@)),
            out: self.machine.out(),
            spawns: self.machine.spawns(),
        }
    }
}

impl<H: Host> RunSpace<H> {
    /// The log of host answers of this run.
    pub closed spec fn answers(&self) -> Seq<HostEvent> {
        self.machine.answers()
    }

    /// A run-space with no variables and the built-in `message`.
    pub fn new(host: H) -> (r: RunSpace<H>)
        ensures
            r@.vars == Map::<Seq<char>, ValueModel>::empty(),
            r@.commands == Map::<Seq<char>, Builtin>::empty().insert("message"@, Builtin::Message),
            r@.out == Seq::<Seq<char>>::empty(),
            r@.spawns == Seq::<(Seq<char>, Seq<Seq<char>>)>::empty(),
            r.answers() == Seq::<HostEvent>::empty(),
    {
        let mut space = RunSpace { local_commands: Vec::new(), vars: Vec::new(), machine: Machine::new(host) };
        proof {
            assert(var_seq(space.vars@) =~= Seq::empty());
            assert(command_seq(space.local_commands@) =~= Seq::empty());
        }
        space.add_local_command("message", Builtin::Message);
        space
    }

    /// Binds `key` to `value`, replacing any earlier binding of `key`.
    pub fn set(&mut self, key: &str, value: WrapValueObject)
        ensures
            final(self)@ == bind(old(self)@, key@, value@),
            final(self).answers() == old(self).answers(),
    {
        let ghost v0 = value@;
        let k = key.to_owned();
        let ghost s = var_seq(self.vars@);
        let mut i: usize = self.vars.len();
        while i > 0
            invariant
                i <= self.vars.len(),
                s == var_seq(self.vars@),
                *self == *old(self),
                k@ == key@,
                value@ == v0,
                forall|j: int| i <= j < s.len() ==> (#[trigger] s[j]).0 != key@,
            decreases i,
        {
            i = i - 1;
            if self.vars[i].0.eq(&k) {
                let ghost before = self.vars@;
                let entry = (k, value);
                let ghost em = (entry.0@, entry.1@);
                self.vars.set(i, entry);
                proof {
                    assert(em == (key@, v0));
                    lemma_bindings_update(s, i as int, key@, v0);
                    assert forall|j: int| 0 <= j < s.len() implies #[trigger] var_seq(self.vars@)[j] == s.update(i as int, (key@, v0))[j] by {
                        if j != i {
                            assert(self.vars@[j] == before[j]);
                        }
                    }
                    assert(var_seq(self.vars@) =~= s.update(i as int, (key@, v0)));
                    assert(self@.vars =~= old(self)@.vars.insert(key@, v0));
                }
                return;
            }
        }
        self.vars.push((k, value));
        proof {
            assert(var_seq(self.vars@).drop_last() =~= var_seq(old(self).vars@));
            assert(self@.vars =~= old(self)@.vars.insert(key@, v0));
        }
    }

    pub fn get(&self, key: &str) -> (r: Option<WrapValueObject>)
        ensures
            match r {
                Some(v) => self@.vars.contains_key(key@) && v@ == self@.vars[key@],
                None => !self@.vars.contains_key(key@),
            },
    {
        let k = key.to_owned();
        let ghost s = var_seq(self.vars@);
        let mut i: usize = self.vars.len();
        while i > 0
            invariant
                i <= self.vars.len(),
                s == var_seq(self.vars@),
                k@ == key@,
                forall|j: int| i <= j < s.len() ==> (#[trigger] s[j]).0 != key@,
            decreases i,
        {
            i = i - 1;
            if self.vars[i].0.eq(&k) {
                proof {
                    lemma_bindings_last(s, i as int, key@);
                }
                return Some(self.vars[i].1.duplicate());
            }
        }
        proof {
            lemma_bindings_absent(s, key@);
        }
        None
    }

    pub fn add_local_command(&mut self, name: &str, f: Builtin)
        ensures
            final(self)@ == (SpaceModel { commands: old(self)@.commands.insert(name@, f), ..old(self)@ }),
            final(self).answers() == old(self).answers(),
    {
        self.local_commands.push((name.to_owned(), f));
        proof {
            assert(command_seq(self.local_commands@).drop_last() =~= command_seq(old(self).local_commands@));
            assert(var_seq(self.vars@) =~= var_seq(old(self).vars@));
        }
    }

    pub fn get_command(&self, name: &str) -> (r: Option<Builtin>)
        ensures
            match r {
                Some(b) => self@.commands.contains_key(name@) && b == self@.commands[name@],
                None => !self@.commands.contains_key(name@),
            },
    {
        let k = name.to_owned();
        let ghost s = command_seq(self.local_commands@);
        let mut i: usize = self.local_commands.len();
        while i > 0
            invariant
                i <= self.local_commands.len(),
                s == command_seq(self.local_commands@),
                k@ == name@,
                forall|j: int| i <= j < s.len() ==> (#[trigger] s[j]).0 != name@,
            decreases i,
        {
            i = i - 1;
            if self.local_commands[i].0.eq(&k) {
                proof {
                    lemma_bindings_last(s, i as int, name@);
                }
                return Some(self.local_commands[i].1);
            }
        }
        proof {
            lemma_bindings_absent(s, name@);
        }
        None
    }
}

} // verus!

verus! {

/// The host was asked more, never less.
pub open spec fn grows<H: Host>(new: RunSpace<H>, old: RunSpace<H>) -> bool {
    is_prefix(old.answers(), new.answers())
}

proof fn lemma_agrees_chain(o: Oracle, a: Seq<HostEvent>, b: Seq<HostEvent>, c: Seq<HostEvent>)
    requires
        is_prefix(a, b),
        is_prefix(b, c),
        agrees(o, c),
    ensures
        agrees(o, a),
        agrees(o, b),
        is_prefix(a, c),
{
    crate::host::lemma_prefix_trans(a, b, c);
    crate::host::lemma_agrees_prefix(o, b, c);
    crate::host::lemma_agrees_prefix(o, a, c);
}

proof fn lemma_prefix_refl<A>(a: Seq<A>)
    ensures
        is_prefix(a, a),
{
    assert(a.subrange(0, a.len() as int) =~= a);
}

proof fn lemma_prefix_push<A>(a: Seq<A>, x: A)
    ensures
        is_prefix(a, a.push(x)),
{
    assert(a.push(x).subrange(0, a.len() as int) =~= a);
}

fn runtime_error_key(k: &String) -> (r: ErrorKind)
    ensures
        r@ == ErrorModel::RuntimeError("key "@ + k@ + " not found"@),
{
    let mut m = "key ".to_owned();
    m.append(k.as_str());
    m.append(" not found");
    ErrorKind::RuntimeError(m)
}

/// Evaluates one node.
pub fn exec_ast<H: Host>(ast: &Node, space: &mut RunSpace<H>) -> (r: Result<WrapValueObject, ErrorKind>)
    ensures
        grows(*final(space), *old(space)),
        forall|o: Oracle| #[trigger] agrees(o, final(space).answers()) ==> (result_model(r), final(space)@) == eval(o, ast@, old(space)@),
    decreases ast, 0int,
{
    let ghost s0 = space@;
    let ghost a0 = space.answers();
    proof {
        lemma_prefix_refl(a0);
    }
    match ast {
        Node::Name(k) => match space.get(k.as_str()) {
            Some(v) => Ok(v),
            None => Err(runtime_error_key(k)),
        },
        Node::Value(crate::ast::ValueData::Int(i)) => Ok(WrapValueObject::Int(*i)),
        Node::Value(crate::ast::ValueData::String(t)) => Ok(WrapValueObject::Str(t.clone())),
        Node::Value(crate::ast::ValueData::Float(t)) => {
            let b = space.machine.float_literal(t.as_str());
            proof {
                lemma_prefix_push(a0, space.answers().last());
                assert(space.answers() == a0.push(space.answers().last()));
                assert forall|o: Oracle| #[trigger] agrees(o, space.answers()) implies b == (o.float)(FloatQuery::Literal(t@)) by {
                    crate::host::lemma_agrees_push(o, a0, space.answers().last());
                }
            }
            Ok(WrapValueObject::Float(b))
        },
        Node::Expr(l, op, rn) => {
            let lv = match exec_ast(l, space) {
                Ok(v) => v,
                Err(e) => return Err(e),
            };
            let ghost a1 = space.answers();
            let ghost s1 = space@;
            let rv = match exec_ast(rn, space) {
                Ok(v) => v,
                Err(e) => {
                    proof {
                        crate::host::lemma_prefix_trans(a0, a1, space.answers());
                        assert forall|o: Oracle| #[trigger] agrees(o, space.answers()) implies (result_model(Err(e)), space@) == eval(o, ast@, s0) by {
                            lemma_agrees_chain(o, a0, a1, space.answers());
                        }
                    }
                    return Err(e);
                },
            };
            let ghost a2 = space.answers();
            let ghost s2 = space@;
            let r = match op {
                OperatorData::Eq => lv.t_eq(&rv, &mut space.machine),
                OperatorData::NotEq => lv.t_not_eq(&rv, &mut space.machine),
                _ => lv.t_arith(*op, &rv, &mut space.machine),
            };
            proof {
                assert(space@ == s2);
                crate::host::lemma_prefix_trans(a0, a1, a2);
                crate::host::lemma_prefix_trans(a0, a2, space.answers());
                assert forall|o: Oracle| #[trigger] agrees(o, space.answers()) implies (result_model(r), space@) == eval(o, ast@, s0) by {
                    lemma_agrees_chain(o, a1, a2, space.answers());
                    crate::host::lemma_agrees_prefix(o, a0, a1);
                }
            }
            r
        },
        Node::SetAttr { name, value } => {
            let v = match exec_ast(value, space) {
                Ok(v) => v,
                Err(e) => return Err(e),
            };
            let ghost a1 = space.answers();
            space.set(name.as_str(), v);
            Ok(TNone::a_none())
        },
        Node::Command { command, args } => {
            let texts = match exec_args(args, space) {
                Ok(t) => t,
                Err(e) => return Err(e),
            };
            let ghost a1 = space.answers();
            let r = exec_command(command, texts, space);
            proof {
                crate::host::lemma_prefix_trans(a0, a1, space.answers());
                assert forall|o: Oracle| #[trigger] agrees(o, space.answers()) implies (result_model(r), space@) == eval(o, ast@, s0) by {
                    lemma_agrees_chain(o, a0, a1, space.answers());
                }
            }
            r
        },
        Node::Target { name, require, body } => {
            let t = TTargetObject { name: name.clone(), require: crate::ast::copy_strings(require), body: crate::ast::copy_nodes(body) };
            space.set(name.as_str(), WrapValueObject::Target(t));
            Ok(TNone::a_none())
        },
        Node::If { if_node, elif_nodes, else_node } => {
            let ghost all = ast@->If_0;
            proof {
                crate::ast::lemma_branches_model_index(elif_nodes@);
                assert(all == seq![(if_node.0@, nodes_model(if_node.1@))] + branches_model(elif_nodes@));
                assert(all[0] == (if_node.0@, nodes_model(if_node.1@)));
                assert(all.len() == elif_nodes@.len() + 1);
            }
            let c = match exec_ast(&if_node.0, space) {
                Ok(v) => v,
                Err(e) => {
                    proof {
                        assert forall|o: Oracle| #[trigger] agrees(o, space.answers()) implies (result_model(Err(e)), space@) == eval(o, ast@, s0) by {
                            assert(ast@ is If);
                            assert(eval(o, all[0].0, s0) == (Err::<ValueModel, ErrorModel>(e@), space@));
                            assert(eval_branches(o, all, 0, s0) == (Err::<bool, ErrorModel>(e@), space@));
                        }
                    }
                    return Err(e);
                },
            };
            let ghost a1 = space.answers();
            let ghost s1 = space@;
            if c.to_bool() {
                let r = exec_body(&if_node.1, space);
                let v = unit_value(r);
                proof {
                    crate::host::lemma_prefix_trans(a0, a1, space.answers());
                    assert forall|o: Oracle| #[trigger] agrees(o, space.answers()) implies (result_model(v), space@) == eval(o, ast@, s0) by {
                        lemma_agrees_chain(o, a0, a1, space.answers());
                        assert(eval(o, all[0].0, s0) == (Ok::<ValueModel, ErrorModel>(c@), s1));
                        assert(eval_branches(o, all, 0, s0) == (match r {
                            Ok(_) => Ok::<bool, ErrorModel>(true),
                            Err(e) => Err(e@),
                        }, space@));
                    }
                }
                return v;
            }
            let taken = exec_elifs(elif_nodes, space, Ghost(all));
            let ghost a2 = space.answers();
            let ghost s2 = space@;
            proof {
                crate::host::lemma_prefix_trans(a0, a1, a2);
            }
            match taken {
                Err(e) => {
                    proof {
                        assert forall|o: Oracle| #[trigger] agrees(o, space.answers()) implies (result_model(Err(e)), space@) == eval(o, ast@, s0) by {
                            lemma_agrees_chain(o, a0, a1, space.answers());
                            assert(eval(o, all[0].0, s0) == (Ok::<ValueModel, ErrorModel>(c@), s1));
                            assert(eval_branches(o, all, 0, s0) == eval_branches(o, all, 1, s1));
                        }
                    }
                    Err(e)
                },
                Ok(true) => {
                    proof {
                        assert forall|o: Oracle| #[trigger] agrees(o, space.answers()) implies (result_model(Ok(WrapValueObject::Nil)), space@) == eval(o, ast@, s0) by {
                            lemma_agrees_chain(o, a0, a1, space.answers());
                            assert(eval(o, all[0].0, s0) == (Ok::<ValueModel, ErrorModel>(c@), s1));
                            assert(eval_branches(o, all, 0, s0) == eval_branches(o, all, 1, s1));
                        }
                    }
                    Ok(TNone::a_none())
                },
                Ok(false) => match else_node {
                    Some(b) => {
                        assert(ast@->If_1 == Some(nodes_model(b@)));
                        let r = exec_body(b, space);
                        let v = unit_value(r);
                        proof {
                            crate::host::lemma_prefix_trans(a0, a2, space.answers());
                            assert forall|o: Oracle| #[trigger] agrees(o, space.answers()) implies (result_model(v), space@) == eval(o, ast@, s0) by {
                                lemma_agrees_chain(o, a1, a2, space.answers());
                                lemma_agrees_chain(o, a0, a1, space.answers());
                                assert(eval(o, all[0].0, s0) == (Ok::<ValueModel, ErrorModel>(c@), s1));
                                assert(eval_branches(o, all, 0, s0) == eval_branches(o, all, 1, s1));
                            }
                        }
                        v
                    },
                    None => {
                        assert(ast@->If_1 is None);
                        proof {
                            assert forall|o: Oracle| #[trigger] agrees(o, space.answers()) implies (result_model(Ok(WrapValueObject::Nil)), space@) == eval(o, ast@, s0) by {
                                lemma_agrees_chain(o, a0, a1, space.answers());
                                assert(eval(o, all[0].0, s0) == (Ok::<ValueModel, ErrorModel>(c@), s1));
                                assert(eval_branches(o, all, 0, s0) == eval_branches(o, all, 1, s1));
                            }
                        }
                        Ok(TNone::a_none())
                    },
                },
            }
        },
        Node::Module { body } => unit_value(exec_body(body, space)),
    }
}

pub open spec fn unit_model(r: Result<(), ErrorKind>) -> Result<(), ErrorModel> {
    match r {
        Ok(_) => Ok(()),
        Err(e) => Err(e@),
    }
}

fn unit_value(r: Result<(), ErrorKind>) -> (v: Result<WrapValueObject, ErrorKind>)
    ensures
        match r {
            Ok(_) => v matches Ok(x) && x@ == ValueModel::Nil,
            Err(e) => v matches Err(f) && f@ == e@,
        },
        forall|s: SpaceModel| (result_model(v), s) == #[trigger] unit_result((unit_model(r), s)),
{
    match r {
        Ok(_) => Ok(TNone::a_none()),
        Err(e) => Err(e),
    }
}

/// Evaluates the arguments of a command in order and writes each out.
fn exec_args<H: Host>(args: &Vec<Node>, space: &mut RunSpace<H>) -> (r: Result<Vec<String>, ErrorKind>)
    ensures
        grows(*final(space), *old(space)),
        forall|o: Oracle| #[trigger] agrees(o, final(space).answers()) ==> eval_args(o, nodes_model(args@), nodes_model(args@).len() as int, old(space)@) == (match r {
            Ok(t) => Ok(strings_model(t@)),
            Err(e) => Err(e@),
        }, final(space)@),
    decreases args, 1int,
{
    let ghost s0 = space@;
    let ghost a0 = space.answers();
    let ghost am = nodes_model(args@);
    proof {
        lemma_prefix_refl(a0);
        crate::ast::lemma_nodes_model_index(args@);
    }
    let mut texts: Vec<String> = Vec::new();
    proof {
        assert(strings_model(texts@) =~= Seq::<Seq<char>>::empty());
    }
    let mut i: usize = 0;
    while i < args.len()
        invariant
            i <= args.len(),
            am == nodes_model(args@),
            am.len() == args@.len(),
            forall|j: int| 0 <= j < args@.len() ==> #[trigger] am[j] == args@[j]@,
            a0 == old(space).answers(),
            s0 == old(space)@,
            is_prefix(a0, space.answers()),
            forall|o: Oracle| #[trigger] agrees(o, space.answers()) ==> eval_args(o, am, i as int, s0) == (Ok::<Seq<Seq<char>>, ErrorModel>(strings_model(texts@)), space@),
        decreases args.len() - i,
    {
        let ghost ai = space.answers();
        let ghost si = space@;
        let ghost ti = texts@;
        let v = match exec_ast(&args[i], space) {
            Ok(v) => v,
            Err(e) => {
                proof {
                    crate::host::lemma_prefix_trans(a0, ai, space.answers());
                    assert forall|o: Oracle| #[trigger] agrees(o, space.answers()) implies eval_args(o, am, args@.len() as int, s0) == (Err::<Seq<Seq<char>>, ErrorModel>(e@), space@) by {
                        lemma_agrees_chain(o, a0, ai, space.answers());
                        lemma_eval_args_err(o, am, i as int + 1, args@.len() as int, s0);
                    }
                }
                return Err(e);
            },
        };
        let ghost a1 = space.answers();
        let t = v.to_str(&mut space.machine);
        texts.push(t);
        proof {
            crate::host::lemma_prefix_trans(ai, a1, space.answers());
            crate::host::lemma_prefix_trans(a0, ai, space.answers());
            assert(strings_model(texts@) =~= strings_model(ti).push(t@));
            assert forall|o: Oracle| #[trigger] agrees(o, space.answers()) implies eval_args(o, am, i as int + 1, s0) == (Ok::<Seq<Seq<char>>, ErrorModel>(strings_model(texts@)), space@) by {
                lemma_agrees_chain(o, ai, a1, space.answers());
            }
        }
        i = i + 1;
    }
    Ok(texts)
}

/// Once an error is reached, evaluating more arguments keeps it.
proof fn lemma_eval_args_err(o: Oracle, args: Seq<NodeModel>, k: int, n: int, s: SpaceModel)
    requires
        1 <= k <= n <= args.len(),
        eval_args(o, args, k, s).0 is Err,
    ensures
        eval_args(o, args, n, s) == eval_args(o, args, k, s),
    decreases n - k,
{
    if n > k {
        lemma_eval_args_err(o, args, k, n - 1, s);
    }
}

/// Once an error is reached, running more statements keeps it.
proof fn lemma_eval_body_err(o: Oracle, body: Seq<NodeModel>, k: int, n: int, s: SpaceModel)
    requires
        1 <= k <= n <= body.len(),
        eval_body(o, body, k, s).0 is Err,
    ensures
        eval_body(o, body, n, s) == eval_body(o, body, k, s),
    decreases n - k,
{
    if n > k {
        lemma_eval_body_err(o, body, k, n - 1, s);
    }
}

/// Runs statements in order, stopping at the first error.
pub fn exec_body<H: Host>(body: &Vec<Node>, space: &mut RunSpace<H>) -> (r: Result<(), ErrorKind>)
    ensures
        grows(*final(space), *old(space)),
        forall|o: Oracle| #[trigger] agrees(o, final(space).answers()) ==> eval_body(o, nodes_model(body@), nodes_model(body@).len() as int, old(space)@) == (unit_model(r), final(space)@),
    decreases body, 1int,
{
    let ghost s0 = space@;
    let ghost a0 = space.answers();
    let ghost bm = nodes_model(body@);
    proof {
        lemma_prefix_refl(a0);
        crate::ast::lemma_nodes_model_index(body@);
    }
    let mut i: usize = 0;
    while i < body.len()
        invariant
            i <= body.len(),
            bm == nodes_model(body@),
            bm.len() == body@.len(),
            forall|j: int| 0 <= j < body@.len() ==> #[trigger] bm[j] == body@[j]@,
            a0 == old(space).answers(),
            s0 == old(space)@,
            is_prefix(a0, space.answers()),
            forall|o: Oracle| #[trigger] agrees(o, space.answers()) ==> eval_body(o, bm, i as int, s0) == (Ok::<(), ErrorModel>(()), space@),
        decreases body.len() - i,
    {
        let ghost ai = space.answers();
        let r = exec_ast(&body[i], space);
        proof {
            crate::host::lemma_prefix_trans(a0, ai, space.answers());
        }
        match r {
            Ok(_) => {},
            Err(e) => {
                proof {
                    assert forall|o: Oracle| #[trigger] agrees(o, space.answers()) implies eval_body(o, bm, body@.len() as int, s0) == (unit_model(Err::<(), ErrorKind>(e)), space@) by {
                        lemma_agrees_chain(o, a0, ai, space.answers());
                        lemma_eval_body_err(o, bm, i as int + 1, body@.len() as int, s0);
                    }
                }
                return Err(e);
            },
        }
        proof {
            assert forall|o: Oracle| #[trigger] agrees(o, space.answers()) implies eval_body(o, bm, i as int + 1, s0) == (Ok::<(), ErrorModel>(()), space@) by {
                lemma_agrees_chain(o, a0, ai, space.answers());
            }
        }
        i = i + 1;
    }
    Ok(())
}

/// Tries the `elif` branches in order; `all` is the model of the whole `if`
/// chain, whose first branch has already been tried.
fn exec_elifs<H: Host>(elifs: &Vec<(Node, Vec<Node>)>, space: &mut RunSpace<H>, all: Ghost<Seq<(NodeModel, Seq<NodeModel>)>>) -> (r: Result<bool, ErrorKind>)
    requires
        all@.len() == elifs@.len() + 1,
        forall|j: int| 0 <= j < elifs@.len() ==> #[trigger] all@[j + 1] == (elifs@[j].0@, nodes_model(elifs@[j].1@)),
    ensures
        grows(*final(space), *old(space)),
        forall|o: Oracle| #[trigger] agrees(o, final(space).answers()) ==> eval_branches(o, all@, 1, old(space)@) == (match r {
            Ok(b) => Ok(b),
            Err(e) => Err(e@),
        }, final(space)@),
    decreases elifs, 1int,
{
    let ghost s0 = space@;
    let ghost a0 = space.answers();
    proof {
        lemma_prefix_refl(a0);
    }
    let mut i: usize = 0;
    while i < elifs.len()
        invariant
            i <= elifs.len(),
            all@.len() == elifs@.len() + 1,
            forall|j: int| 0 <= j < elifs@.len() ==> #[trigger] all@[j + 1] == (elifs@[j].0@, nodes_model(elifs@[j].1@)),
            a0 == old(space).answers(),
            s0 == old(space)@,
            is_prefix(a0, space.answers()),
            forall|o: Oracle| #[trigger] agrees(o, space.answers()) ==> eval_branches(o, all@, 1, s0) == eval_branches(o, all@, i + 1, space@),
        decreases elifs.len() - i,
    {
        let ghost ai = space.answers();
        let ghost si = space@;
        assert(all@[i + 1] == (elifs@[i as int].0@, nodes_model(elifs@[i as int].1@)));
        let c = match exec_ast(&elifs[i].0, space) {
            Ok(v) => v,
            Err(e) => {
                proof {
                    crate::host::lemma_prefix_trans(a0, ai, space.answers());
                    assert forall|o: Oracle| #[trigger] agrees(o, space.answers()) implies eval_branches(o, all@, 1, s0) == (Err::<bool, ErrorModel>(e@), space@) by {
                        lemma_agrees_chain(o, a0, ai, space.answers());
                    }
                }
                return Err(e);
            },
        };
        let ghost a1 = space.answers();
        proof {
            crate::host::lemma_prefix_trans(a0, ai, a1);
        }
        if c.to_bool() {
            let r = exec_body(&elifs[i].1, space);
            proof {
                crate::host::lemma_prefix_trans(a0, a1, space.answers());
                assert forall|o: Oracle| #[trigger] agrees(o, space.answers()) implies eval_branches(o, all@, 1, s0) == (match r {
                    Ok(_) => Ok::<bool, ErrorModel>(true),
                    Err(e) => Err(e@),
                }, space@) by {
                    lemma_agrees_chain(o, ai, a1, space.answers());
                    crate::host::lemma_agrees_prefix(o, a0, ai);
                }
            }
            return match r {
                Ok(_) => Ok(true),
                Err(e) => Err(e),
            };
        }
        proof {
            assert forall|o: Oracle| #[trigger] agrees(o, space.answers()) implies eval_branches(o, all@, 1, s0) == eval_branches(o, all@, i + 2, space@) by {
                lemma_agrees_chain(o, a0, ai, space.answers());
            }
        }
        i = i + 1;
    }
    Ok(false)
}

/// Runs a command whose arguments are written out already.
fn exec_command<H: Host>(command: &String, texts: Vec<String>, space: &mut RunSpace<H>) -> (r: Result<WrapValueObject, ErrorKind>)
    ensures
        grows(*final(space), *old(space)),
        forall|o: Oracle| #[trigger] agrees(o, final(space).answers()) ==> (result_model(r), final(space)@) == command_spec(o, command@, strings_model(texts@), old(space)@),
{
    let ghost a0 = space.answers();
    let ghost s0 = space@;
    proof {
        lemma_prefix_refl(a0);
    }
    match space.get_command(command.as_str()) {
        Some(Builtin::Message) => {
            let line = join_strings(&texts, " ");
            space.machine.emit_line(line.as_str());
            Ok(TNone::a_none())
        },
        None => {
            let p = space.machine.spawn(command.as_str(), &texts);
            proof {
                lemma_prefix_push(a0, space.answers().last());
                assert(space.answers() == a0.push(space.answers().last()));
                assert forall|o: Oracle| #[trigger] agrees(o, space.answers()) implies (o.spawn)(s0.spawns.len()) == crate::host::spawn_model(p) by {
                    crate::host::lemma_agrees_push(o, a0, space.answers().last());
                }
            }
            match p {
                Ok(Some(code)) => Ok(WrapValueObject::Int(code)),
                Ok(None) => Ok(TNone::a_none()),
                Err(msg) => Err(ErrorKind::CommandError(command.clone(), msg)),
            }
        },
    }
}

} // verus!

verus! {

fn chain_contains(chain: &Vec<String>, name: &str) -> (r: bool)
    ensures
        r == strings_model(chain@).contains(name@),
{
    let k = name.to_owned();
    let mut i: usize = 0;
    while i < chain.len()
        invariant
            i <= chain.len(),
            k@ == name@,
            forall|j: int| 0 <= j < i ==> chain@[j]@ != name@,
        decreases chain.len() - i,
    {
        if chain[i].eq(&k) {
            assert(strings_model(chain@)[i as int] == name@);
            return true;
        }
        i = i + 1;
    }
    false
}

fn cycle_error(chain: &Vec<String>, name: &str) -> (r: ErrorKind)
    ensures
        r@ == ErrorModel::RuntimeError(cycle_text(strings_model(chain@), name@)),
{
    let mut names = crate::ast::copy_strings(chain);
    names.push(name.to_owned());
    let joined = join_strings(&names, " -> ");
    proof {
        assert(Seq::new(names@.len(), |i: int| names@[i]@) =~= strings_model(chain@).push(name@));
    }
    let mut m = "dependency cycle: ".to_owned();
    m.append(joined.as_str());
    ErrorKind::RuntimeError(m)
}

fn run_target_exec<H: Host>(space: &mut RunSpace<H>, name: &str, chain: &Vec<String>) -> (r: Result<(), ErrorKind>)
    requires
        chain@.len() <= usize::MAX,
    ensures
        grows(*final(space), *old(space)),
        forall|o: Oracle| #[trigger] agrees(o, final(space).answers()) ==> run_target(o, name@, old(space)@, strings_model(chain@)) == (unit_model(r), final(space)@),
    decreases usize::MAX - chain@.len(),
{
    let ghost s0 = space@;
    let ghost a0 = space.answers();
    let ghost cm = strings_model(chain@);
    proof {
        lemma_prefix_refl(a0);
    }
    let t = match space.get(name) {
        None => return Err(ErrorKind::NameError(name.to_owned())),
        Some(WrapValueObject::Target(t)) => t,
        Some(_) => return Err(ErrorKind::TypeError),
    };
    if chain_contains(chain, name) {
        return Err(cycle_error(chain, name));
    }
    if chain.len() >= usize::MAX {
        return Err(ErrorKind::make_run_err("dependency chain does not fit in memory"));
    }
    let mut inner = crate::ast::copy_strings(chain);
    inner.push(name.to_owned());
    let ghost tm = target_model(t);
    let ghost im = strings_model(inner@);
    proof {
        assert(im =~= cm.push(name@));
    }
    let mut i: usize = 0;
    while i < t.require.len()
        invariant
            i <= t.require.len(),
            tm == target_model(t),
            im == strings_model(inner@),
            cm == strings_model(chain@),
            im == cm.push(name@),
            !cm.contains(name@),
            s0.vars.contains_key(name@),
            s0.vars[name@] == ValueModel::Target(tm),
            inner@.len() == chain@.len() + 1,
            chain@.len() < usize::MAX,
            a0 == old(space).answers(),
            s0 == old(space)@,
            is_prefix(a0, space.answers()),
            forall|o: Oracle| #[trigger] agrees(o, space.answers()) ==> run_requires(o, tm.require, i as int, s0, im) == (Ok::<(), ErrorModel>(()), space@),
        decreases t.require.len() - i,
    {
        let ghost ai = space.answers();
        let ghost si = space@;
        let r = run_target_exec(space, t.require[i].as_str(), &inner);
        proof {
            crate::host::lemma_prefix_trans(a0, ai, space.answers());
            assert(tm.require[i as int] == t.require@[i as int]@);
        }
        match r {
            Ok(_) => {},
            Err(e) => {
                proof {
                    assert forall|o: Oracle| #[trigger] agrees(o, space.answers()) implies run_target(o, name@, s0, cm) == (unit_model(Err::<(), ErrorKind>(e)), space@) by {
                        lemma_agrees_chain(o, a0, ai, space.answers());
                        assert(run_requires(o, tm.require, i as int + 1, s0, im) == (Err::<(), ErrorModel>(e@), space@));
                        lemma_run_requires_err(o, tm.require, i as int + 1, tm.require.len() as int, s0, im);
                    }
                }
                return Err(e);
            },
        }
        proof {
            assert forall|o: Oracle| #[trigger] agrees(o, space.answers()) implies run_requires(o, tm.require, i as int + 1, s0, im) == (Ok::<(), ErrorModel>(()), space@) by {
                lemma_agrees_chain(o, a0, ai, space.answers());
            }
        }
        i = i + 1;
    }
    let ghost a1 = space.answers();
    let ghost s1 = space@;
    let r = exec_body(&t.body, space);
    proof {
        crate::host::lemma_prefix_trans(a0, a1, space.answers());
        assert forall|o: Oracle| #[trigger] agrees(o, space.answers()) implies run_target(o, name@, s0, cm) == (unit_model(r), space@) by {
            lemma_agrees_chain(o, a0, a1, space.answers());
            assert(run_requires(o, tm.require, tm.require.len() as int, s0, im) == (Ok::<(), ErrorModel>(()), s1));
        }
    }
    r
}

/// Once a requirement fails, later ones are not run.
proof fn lemma_run_requires_err(o: Oracle, reqs: Seq<Seq<char>>, k: int, n: int, s: SpaceModel, chain: Seq<Seq<char>>)
    requires
        1 <= k <= n <= reqs.len(),
        run_requires(o, reqs, k, s, chain).0 is Err,
    ensures
        run_requires(o, reqs, n, s, chain) == run_requires(o, reqs, k, s, chain),
    decreases n - k,
{
    if n > k {
        lemma_run_requires_err(o, reqs, k, n - 1, s, chain);
    }
}

/// Runs the target bound to `target`: its requirements first, depth first and
/// in declaration order, then its body. A missing name is a `NameError`, a
/// name bound to anything but a target a `TypeError`; a target that requires
/// itself, directly or not, is a `RuntimeError` naming the cycle.
pub fn exec_target<H: Host>(space: &mut RunSpace<H>, target: &str) -> (r: Result<WrapValueObject, ErrorKind>)
    ensures
        grows(*final(space), *old(space)),
        forall|o: Oracle| #[trigger] agrees(o, final(space).answers()) ==> (result_model(r), final(space)@) == unit_result(run_target(o, target@, old(space)@, Seq::empty())),
{
    let chain: Vec<String> = Vec::new();
    proof {
        assert(strings_model(chain@) =~= Seq::<Seq<char>>::empty());
    }
    let r = run_target_exec(space, target, &chain);
    unit_value(r)
}

} // verus!

verus! {

/// Parses a program and evaluates it.
pub open spec fn run_code(o: Oracle, text: Seq<char>, s: SpaceModel) -> (Result<ValueModel, ErrorModel>, SpaceModel) {
    match crate::parse::module(text) {
        Err(e) => (Err(e), s),
        Ok(m) => eval(o, m, s),
    }
}

/// Parses an expression and evaluates it.
pub open spec fn eval_text(o: Oracle, text: Seq<char>, s: SpaceModel) -> (Result<ValueModel, ErrorModel>, SpaceModel) {
    match crate::parse::expr_text(text) {
        Err(e) => (Err(e), s),
        Ok(x) => eval(o, x, s),
    }
}

/// Runs the top-level statements of a program: it defines variables and
/// targets and runs what it says.
pub fn exec_code<H: Host>(input: &str, space: &mut RunSpace<H>) -> (r: Result<WrapValueObject, ErrorKind>)
    requires
        input@.len() < usize::MAX,
    ensures
        grows(*final(space), *old(space)),
        forall|o: Oracle| #[trigger] agrees(o, final(space).answers()) ==> (result_model(r), final(space)@) == run_code(o, input@, old(space)@),
{
    proof {
        lemma_prefix_refl(space.answers());
    }
    match crate::parse::parse_code(input) {
        Ok(ast) => exec_ast(&ast, space),
        Err(e) => Err(e),
    }
}

/// Evaluates an input that is one expression.
pub fn eval_code<H: Host>(input: &str, space: &mut RunSpace<H>) -> (r: Result<WrapValueObject, ErrorKind>)
    requires
        input@.len() < usize::MAX,
    ensures
        grows(*final(space), *old(space)),
        forall|o: Oracle| #[trigger] agrees(o, final(space).answers()) ==> (result_model(r), final(space)@) == eval_text(o, input@, old(space)@),
{
    proof {
        lemma_prefix_refl(space.answers());
    }
    match crate::parse::parse_expr(input) {
        Ok(ast) => exec_ast(&ast, space),
        Err(e) => Err(e),
    }
}

} // verus!

verus! {

/// Assignment: once `$x = e` has run without error, `$x` evaluates to the
/// value that `e` had.
pub proof fn lemma_assignment(o: Oracle, x: Seq<char>, e: NodeModel, s: SpaceModel)
    requires
        eval(o, e, s).0 is Ok,
    ensures
        ({
            let (r, s1) = eval(o, NodeModel::SetAttr(x, Box::new(e)), s);
            &&& r == Ok::<ValueModel, ErrorModel>(ValueModel::Nil)
            &&& eval(o, NodeModel::Name(x), s1) == (eval(o, e, s).0, s1)
        }),
{
}

/// The conditions of branches `i` to `k - 1`, evaluated in turn, all give
/// false without error: the state after them.
pub open spec fn falsy_prefix(o: Oracle, bs: Seq<(NodeModel, Seq<NodeModel>)>, i: int, k: int, s: SpaceModel) -> Option<SpaceModel>
    decreases k - i,
{
    if i >= k {
        Some(s)
    } else {
        let (c, s1) = eval(o, bs[i].0, s);
        match c {
            Ok(v) => if truthy(v) {
                None
            } else {
                falsy_prefix(o, bs, i + 1, k, s1)
            },
            Err(_) => None,
        }
    }
}

/// An `if` chain runs exactly one body: when the conditions before branch
/// `k` are false and branch `k`'s is true, the chain is branch `k`'s body
/// and nothing else.
pub proof fn lemma_if_runs_one_branch(o: Oracle, bs: Seq<(NodeModel, Seq<NodeModel>)>, i: int, k: int, s: SpaceModel)
    requires
        0 <= i <= k < bs.len(),
        falsy_prefix(o, bs, i, k, s) is Some,
        eval(o, bs[k].0, falsy_prefix(o, bs, i, k, s)->Some_0).0 is Ok,
        truthy(eval(o, bs[k].0, falsy_prefix(o, bs, i, k, s)->Some_0).0->Ok_0),
    ensures
        ({
            let s1 = eval(o, bs[k].0, falsy_prefix(o, bs, i, k, s)->Some_0).1;
            let (r, s2) = eval_body(o, bs[k].1, bs[k].1.len() as int, s1);
            eval_branches(o, bs, i, s) == (match r {
                Ok(_) => Ok::<bool, ErrorModel>(true),
                Err(e) => Err(e),
            }, s2)
        }),
    decreases k - i,
{
    if i < k {
        let s1 = eval(o, bs[i].0, s).1;
        lemma_if_runs_one_branch(o, bs, i + 1, k, s1);
    }
}

/// When every condition is false, no body runs.
pub proof fn lemma_if_runs_no_branch(o: Oracle, bs: Seq<(NodeModel, Seq<NodeModel>)>, i: int, s: SpaceModel)
    requires
        0 <= i <= bs.len(),
        falsy_prefix(o, bs, i, bs.len() as int, s) is Some,
    ensures
        eval_branches(o, bs, i, s) == (Ok::<bool, ErrorModel>(false), falsy_prefix(o, bs, i, bs.len() as int, s)->Some_0),
    decreases bs.len() - i,
{
    if i < bs.len() {
        let s1 = eval(o, bs[i].0, s).1;
        lemma_if_runs_no_branch(o, bs, i + 1, s1);
    }
}

/// Target order: a target's requirements run first, in declaration order,
/// each with its own requirements before it; the body runs after them, and
/// only when they all succeeded.
pub proof fn lemma_target_order(o: Oracle, name: Seq<char>, s: SpaceModel, chain: Seq<Seq<char>>)
    requires
        s.vars.contains_key(name),
        s.vars[name] is Target,
        !chain.contains(name),
        chain.len() < usize::MAX,
    ensures
        ({
            let t = s.vars[name]->Target_0;
            let (r, s1) = run_requires(o, t.require, t.require.len() as int, s, chain.push(name));
            run_target(o, name, s, chain) == match r {
                Err(e) => (Err(e), s1),
                Ok(_) => eval_body(o, t.body, t.body.len() as int, s1),
            }
        }),
        forall|reqs: Seq<Seq<char>>, k: int, st: SpaceModel|
            #![trigger run_requires(o, reqs, k, st, chain.push(name))]
            1 <= k <= reqs.len() ==> run_requires(o, reqs, k, st, chain.push(name)) == ({
                let (r, s1) = run_requires(o, reqs, k - 1, st, chain.push(name));
                match r {
                    Err(e) => (Err(e), s1),
                    Ok(_) => run_target(o, reqs[k - 1], s1, chain.push(name)),
                }
            }),
{
}

} // verus!
