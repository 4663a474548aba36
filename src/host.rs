use vstd::prelude::*;
use crate::ast::{OperatorData, strings_model};

verus! {

/// What the evaluator needs from its surroundings: a place to write lines, a
/// way to run external processes, and a floating-point unit. Floats travel
/// through the library as IEEE-754 bit patterns; only the host computes with
/// them.
pub trait Host {
    /// Writes one line (without its terminator) to the standard output.
    fn emit_line(&mut self, line: &str);

    /// Runs `command` with `args` and waits for it: `Ok(Some(code))` for an
    /// exit code, `Ok(None)` when none is available, `Err(message)` when the
    /// process could not be started.
    fn spawn(&mut self, command: &str, args: &Vec<String>) -> Result<Option<i64>, String>;

    /// The double nearest to a decimal literal such as `-10.5`.
    fn float_literal(&mut self, text: &str) -> u64;

    /// The double nearest to an integer.
    fn float_of_int(&mut self, value: i64) -> u64;

    /// `a op b` in IEEE-754 double arithmetic; `op` is one of `+ - * /`.
    fn float_arith(&mut self, op: OperatorData, a: u64, b: u64) -> u64;

    /// Shortest decimal text that reads back as the same double (`10.5`, `3`).
    fn float_text(&mut self, bits: u64) -> String;
}

/// A question put to the floating-point unit.
pub enum FloatQuery {
    Literal(Seq<char>),
    OfInt(int),
    Arith(OperatorData, u64, u64),
}

/// Model of what a spawned process reported.
pub enum SpawnModel {
    Exited(Option<int>),
    Failed(Seq<char>),
}

/// A model of the host's answers. Float questions are answered as a function
/// of the question; the n-th process spawned gets the n-th spawn answer.
pub struct Oracle {
    pub float: spec_fn(FloatQuery) -> u64,
    pub text: spec_fn(u64) -> Seq<char>,
    pub spawn: spec_fn(nat) -> SpawnModel,
}

/// One answer the host gave.
pub enum HostEvent {
    Float(FloatQuery, u64),
    Text(u64, Seq<char>),
    Spawn(nat, SpawnModel),
}

pub open spec fn event_agrees(o: Oracle, e: HostEvent) -> bool {
    match e {
        HostEvent::Float(q, r) => (o.float)(q) == r,
        HostEvent::Text(b, t) => (o.text)(b) == t,
        HostEvent::Spawn(k, s) => (o.spawn)(k) == s,
    }
}

/// The oracle gives every answer recorded in `log`.
pub open spec fn agrees(o: Oracle, log: Seq<HostEvent>) -> bool {
    forall|i: int| 0 <= i < log.len() ==> event_agrees(o, #[trigger] log[i])
}

pub open spec fn is_prefix<A>(a: Seq<A>, b: Seq<A>) -> bool {
    a.len() <= b.len() && b.subrange(0, a.len() as int) =~= a
}

pub proof fn lemma_agrees_prefix(o: Oracle, a: Seq<HostEvent>, b: Seq<HostEvent>)
    requires
        is_prefix(a, b),
        agrees(o, b),
    ensures
        agrees(o, a),
{
    assert forall|i: int| 0 <= i < a.len() implies event_agrees(o, #[trigger] a[i]) by {
        assert(a[i] == b.subrange(0, a.len() as int)[i]);
        assert(event_agrees(o, b[i]));
    }
}

pub proof fn lemma_prefix_trans<A>(a: Seq<A>, b: Seq<A>, c: Seq<A>)
    requires
        is_prefix(a, b),
        is_prefix(b, c),
    ensures
        is_prefix(a, c),
{
    assert forall|i: int| 0 <= i < a.len() implies c.subrange(0, a.len() as int)[i] == a[i] by {
        assert(c.subrange(0, b.len() as int)[i] == b[i]);
        assert(b.subrange(0, a.len() as int)[i] == a[i]);
    }
}

/// The host, with a ghost record of its answers, of the lines written, and
/// of the processes spawned (command and argument texts). Only the methods
/// below extend these records, each by what it handed to the host and what
/// came back.
pub struct Machine<H: Host> {
    host: H,
    answers: Ghost<Seq<HostEvent>>,
    out: Ghost<Seq<Seq<char>>>,
    spawns: Ghost<Seq<(Seq<char>, Seq<Seq<char>>)>>,
}

pub proof fn lemma_agrees_push(o: Oracle, log: Seq<HostEvent>, e: HostEvent)
    requires
        agrees(o, log.push(e)),
    ensures
        agrees(o, log),
        event_agrees(o, e),
{
    assert(event_agrees(o, log.push(e)[log.len() as int]));
    assert forall|i: int| 0 <= i < log.len() implies event_agrees(o, #[trigger] log[i]) by {
        assert(event_agrees(o, log.push(e)[i]));
    }
}

impl<H: Host> Machine<H> {
    /// Every answer the host gave, in order.
    pub closed spec fn answers(&self) -> Seq<HostEvent> {
        self.answers@
    }

    /// The lines written, in order.
    pub closed spec fn out(&self) -> Seq<Seq<char>> {
        self.out@
    }

    /// The processes spawned, in order: each command with its arguments.
    pub closed spec fn spawns(&self) -> Seq<(Seq<char>, Seq<Seq<char>>)> {
        self.spawns@
    }

    /// More answers, and nothing written or spawned.
    pub open spec fn quiet_since(self, old: Machine<H>) -> bool {
        &&& is_prefix(old.answers(), self.answers())
        &&& self.out() == old.out()
        &&& self.spawns() == old.spawns()
    }

    pub fn new(host: H) -> (r: Machine<H>)
        ensures
            r.answers() == Seq::<HostEvent>::empty(),
            r.out() == Seq::<Seq<char>>::empty(),
            r.spawns() == Seq::<(Seq<char>, Seq<Seq<char>>)>::empty(),
    {
        Machine { host, answers: Ghost(Seq::empty()), out: Ghost(Seq::empty()), spawns: Ghost(Seq::empty()) }
    }

    /// The host.
    pub fn host(&self) -> &H {
        &self.host
    }

    pub fn emit_line(&mut self, line: &str)
        ensures
            final(self).answers() == old(self).answers(),
            final(self).out() == old(self).out().push(line@),
            final(self).spawns() == old(self).spawns(),
    {
        self.host.emit_line(line);
        self.out = Ghost(self.out@.push(line@));
    }

    pub fn spawn(&mut self, command: &str, args: &Vec<String>) -> (r: Result<Option<i64>, String>)
        ensures
            final(self).answers() == old(self).answers().push(
                HostEvent::Spawn(old(self).spawns().len(), spawn_model(r)),
            ),
            final(self).out() == old(self).out(),
            final(self).spawns() == old(self).spawns().push((command@, strings_model(args@))),
    {
        let r = self.host.spawn(command, args);
        self.answers = Ghost(self.answers@.push(HostEvent::Spawn(self.spawns@.len(), spawn_model(r))));
        self.spawns = Ghost(self.spawns@.push((command@, strings_model(args@))));
        r
    }

    pub fn float_literal(&mut self, text: &str) -> (r: u64)
        ensures
            final(self).answers() == old(self).answers().push(
                HostEvent::Float(FloatQuery::Literal(text@), r),
            ),
            final(self).out() == old(self).out(),
            final(self).spawns() == old(self).spawns(),
    {
        let r = self.host.float_literal(text);
        self.answers = Ghost(self.answers@.push(HostEvent::Float(FloatQuery::Literal(text@), r)));
        r
    }

    pub fn float_of_int(&mut self, value: i64) -> (r: u64)
        ensures
            final(self).answers() == old(self).answers().push(
                HostEvent::Float(FloatQuery::OfInt(value as int), r),
            ),
            final(self).out() == old(self).out(),
            final(self).spawns() == old(self).spawns(),
    {
        let r = self.host.float_of_int(value);
        self.answers = Ghost(
            self.answers@.push(HostEvent::Float(FloatQuery::OfInt(value as int), r)),
        );
        r
    }

    pub fn float_arith(&mut self, op: OperatorData, a: u64, b: u64) -> (r: u64)
        ensures
            final(self).answers() == old(self).answers().push(
                HostEvent::Float(FloatQuery::Arith(op, a, b), r),
            ),
            final(self).out() == old(self).out(),
            final(self).spawns() == old(self).spawns(),
    {
        let r = self.host.float_arith(op, a, b);
        self.answers = Ghost(self.answers@.push(HostEvent::Float(FloatQuery::Arith(op, a, b), r)));
        r
    }

    pub fn float_text(&mut self, bits: u64) -> (r: String)
        ensures
            final(self).answers() == old(self).answers().push(HostEvent::Text(bits, r@)),
            final(self).out() == old(self).out(),
            final(self).spawns() == old(self).spawns(),
    {
        let r = self.host.float_text(bits);
        self.answers = Ghost(self.answers@.push(HostEvent::Text(bits, r@)));
        r
    }
}

pub open spec fn spawn_model(r: Result<Option<i64>, String>) -> SpawnModel {
    match r {
        Ok(Some(c)) => SpawnModel::Exited(Some(c as int)),
        Ok(None) => SpawnModel::Exited(None),
        Err(m) => SpawnModel::Failed(m@),
    }
}

} // verus!
