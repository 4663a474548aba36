use vstd::prelude::*;

verus! {

/// The binary operators of the expression grammar.
#[derive(Debug, Clone, Copy, PartialEq, Eq, Structural)]
pub enum OperatorData {
    Eq,
    NotEq,
    Add,
    Sub,
    Mul,
    Div,
}

impl OperatorData {
    /// Binding strength: `*` and `/` bind tighter than `+` and `-`, which bind
    /// tighter than `==` and `!=`.
    pub open spec fn priority(self) -> int {
        match self {
            OperatorData::Eq | OperatorData::NotEq => -1,
            OperatorData::Add | OperatorData::Sub => 0,
            OperatorData::Mul | OperatorData::Div => 1,
        }
    }

    pub fn get_priority(&self) -> (r: isize)
        ensures
            r as int == self.priority(),
    {
        match self {
            OperatorData::Eq => -1,
            OperatorData::NotEq => -1,
            OperatorData::Add => 0,
            OperatorData::Sub => 0,
            OperatorData::Mul => 1,
            OperatorData::Div => 1,
        }
    }
}

} // verus!

verus! {

/// A literal as it appears in source. A float literal keeps its source text
/// (optional `-`, digits, `.`, digits): turning it into a number is the job of
/// the host's floating-point unit.
#[derive(Debug, Clone, PartialEq)]
pub enum ValueData {
    Int(i64),
    Float(String),
    String(String),
}

/// The syntax tree.
#[derive(Debug, PartialEq)]
pub enum Node {
    Name(String),
    Value(ValueData),
    Expr(Box<Node>, OperatorData, Box<Node>),
    SetAttr { name: String, value: Box<Node> },
    Command { command: String, args: Vec<Node> },
    Target { name: String, require: Vec<String>, body: Vec<Node> },
    If {
        if_node: Box<(Node, Vec<Node>)>,
        elif_nodes: Vec<(Node, Vec<Node>)>,
        else_node: Option<Vec<Node>>,
    },
    Module { body: Vec<Node> },
}

/// Mathematical model of a literal.
pub enum LitModel {
    Int(int),
    Float(Seq<char>),
    Str(Seq<char>),
}

/// Mathematical model of a syntax tree. An `If` holds its `if` branch and its
/// `elif` branches in one sequence, in source order.
pub enum NodeModel {
    Name(Seq<char>),
    Value(LitModel),
    Expr(Box<NodeModel>, OperatorData, Box<NodeModel>),
    SetAttr(Seq<char>, Box<NodeModel>),
    Command(Seq<char>, Seq<NodeModel>),
    Target(Seq<char>, Seq<Seq<char>>, Seq<NodeModel>),
    If(Seq<(NodeModel, Seq<NodeModel>)>, Option<Seq<NodeModel>>),
    Module(Seq<NodeModel>),
}

pub open spec fn lit_model(v: ValueData) -> LitModel {
    match v {
        ValueData::Int(i) => LitModel::Int(i as int),
        ValueData::Float(s) => LitModel::Float(s@),
        ValueData::String(s) => LitModel::Str(s@),
    }
}

pub open spec fn strings_model(s: Seq<String>) -> Seq<Seq<char>> {
    Seq::new(s.len(), |i: int| s[i]@)
}

pub open spec fn node_model(n: Node) -> NodeModel
    decreases n, 0int,
{
    match n {
        Node::Name(k) => NodeModel::Name(k@),
        Node::Value(v) => NodeModel::Value(lit_model(v)),
        Node::Expr(l, op, r) => NodeModel::Expr(
            Box::new(node_model(*l)),
            op,
            Box::new(node_model(*r)),
        ),
        Node::SetAttr { name, value } => NodeModel::SetAttr(name@, Box::new(node_model(*value))),
        Node::Command { command, args } => NodeModel::Command(command@, nodes_model(args@)),
        Node::Target { name, require, body } => NodeModel::Target(
            name@,
            strings_model(require@),
            nodes_model(body@),
        ),
        Node::If { if_node, elif_nodes, else_node } => NodeModel::If(
            seq![(node_model(if_node.0), nodes_model(if_node.1@))] + branches_model(elif_nodes@),
            match else_node {
                Some(b) => Some(nodes_model(b@)),
                None => None,
            },
        ),
        Node::Module { body } => NodeModel::Module(nodes_model(body@)),
    }
}

pub open spec fn nodes_model(s: Seq<Node>) -> Seq<NodeModel>
    decreases s, 1int,
{
    if s.len() == 0 {
        Seq::empty()
    } else {
        nodes_model(s.drop_last()).push(node_model(s.last()))
    }
}

pub open spec fn branches_model(s: Seq<(Node, Vec<Node>)>) -> Seq<(NodeModel, Seq<NodeModel>)>
    decreases s, 1int,
{
    if s.len() == 0 {
        Seq::empty()
    } else {
        branches_model(s.drop_last()).push(
            (node_model(s.last().0), nodes_model(s.last().1@)),
        )
    }
}

impl View for Node {
    type V = NodeModel;

    open spec fn view(&self) -> NodeModel {
        node_model(*self)
    }
}

} // verus!

verus! {

broadcast use vstd::std_specs::vec::group_vec_axioms;

pub proof fn lemma_nodes_model_push(s: Seq<Node>, x: Node)
    ensures
        nodes_model(s.push(x)) == nodes_model(s).push(node_model(x)),
{
    assert(s.push(x).drop_last() =~= s);
}

pub proof fn lemma_nodes_model_index(s: Seq<Node>)
    ensures
        nodes_model(s).len() == s.len(),
        forall|i: int| 0 <= i < s.len() ==> #[trigger] nodes_model(s)[i] == node_model(s[i]),
    decreases s.len(),
{
    if s.len() > 0 {
        lemma_nodes_model_index(s.drop_last());
    }
}

/// `nodes_model` is the element-wise model.
pub proof fn lemma_nodes_model_ext(a: Seq<Node>, b: Seq<NodeModel>)
    requires
        a.len() == b.len(),
        forall|i: int| 0 <= i < a.len() ==> #[trigger] node_model(a[i]) == b[i],
    ensures
        nodes_model(a) == b,
{
    lemma_nodes_model_index(a);
    assert(nodes_model(a) =~= b);
}

pub proof fn lemma_branches_model_ext(a: Seq<(Node, Vec<Node>)>, b: Seq<(NodeModel, Seq<NodeModel>)>)
    requires
        a.len() == b.len(),
        forall|i: int| 0 <= i < a.len() ==> (node_model(#[trigger] a[i].0), nodes_model(a[i].1@)) == b[i],
    ensures
        branches_model(a) == b,
{
    lemma_branches_model_index(a);
    assert(branches_model(a) =~= b);
}

pub proof fn lemma_branches_model_push(s: Seq<(Node, Vec<Node>)>, x: (Node, Vec<Node>))
    ensures
        branches_model(s.push(x)) == branches_model(s).push((node_model(x.0), nodes_model(x.1@))),
{
    assert(s.push(x).drop_last() =~= s);
}

pub proof fn lemma_branches_model_index(s: Seq<(Node, Vec<Node>)>)
    ensures
        branches_model(s).len() == s.len(),
        forall|i: int| 0 <= i < s.len() ==> #[trigger] branches_model(s)[i] == (node_model(s[i].0), nodes_model(s[i].1@)),
    decreases s.len(),
{
    if s.len() > 0 {
        lemma_branches_model_index(s.drop_last());
    }
}

impl Node {
    pub fn create_expr(left_node: Node, op: OperatorData, right_node: Node) -> (r: Node)
        ensures
            r@ == NodeModel::Expr(Box::new(left_node@), op, Box::new(right_node@)),
    {
        Node::Expr(Box::new(left_node), op, Box::new(right_node))
    }

    /// A deep copy with the same model.
    pub fn duplicate(&self) -> (r: Node)
        ensures
            r@ == self@,
        decreases self, 0int,
    {
        match self {
            Node::Name(k) => Node::Name(k.clone()),
            Node::Value(v) => Node::Value(copy_value_data(v)),
            Node::Expr(l, op, r) => Node::Expr(Box::new(l.duplicate()), *op, Box::new(r.duplicate())),
            Node::SetAttr { name, value } => Node::SetAttr {
                name: name.clone(),
                value: Box::new(value.duplicate()),
            },
            Node::Command { command, args } => Node::Command {
                command: command.clone(),
                args: copy_nodes(args),
            },
            Node::Target { name, require, body } => Node::Target {
                name: name.clone(),
                require: copy_strings(require),
                body: copy_nodes(body),
            },
            Node::If { if_node, elif_nodes, else_node } => {
                let first = (if_node.0.duplicate(), copy_nodes(&if_node.1));
                let elifs = copy_branches(elif_nodes);
                let else_copy = match else_node {
                    Some(b) => Some(copy_nodes(b)),
                    None => None,
                };
                Node::If { if_node: Box::new(first), elif_nodes: elifs, else_node: else_copy }
            },
            Node::Module { body } => Node::Module { body: copy_nodes(body) },
        }
    }
}

pub fn copy_value_data(v: &ValueData) -> (r: ValueData)
    ensures
        lit_model(r) == lit_model(*v),
{
    match v {
        ValueData::Int(i) => ValueData::Int(*i),
        ValueData::Float(s) => ValueData::Float(s.clone()),
        ValueData::String(s) => ValueData::String(s.clone()),
    }
}

pub fn copy_strings(v: &Vec<String>) -> (r: Vec<String>)
    ensures
        strings_model(r@) == strings_model(v@),
{
    let mut r: Vec<String> = Vec::new();
    let mut i: usize = 0;
    while i < v.len()
        invariant
            i <= v.len(),
            r@.len() == i,
            forall|j: int| 0 <= j < i ==> #[trigger] r@[j]@ == v@[j]@,
        decreases v.len() - i,
    {
        r.push(v[i].clone());
        i = i + 1;
    }
    assert(strings_model(r@) =~= strings_model(v@));
    r
}

pub fn copy_nodes(v: &Vec<Node>) -> (r: Vec<Node>)
    ensures
        nodes_model(r@) == nodes_model(v@),
    decreases v, 1int,
{
    let mut r: Vec<Node> = Vec::new();
    let mut i: usize = 0;
    while i < v.len()
        invariant
            i <= v.len(),
            nodes_model(r@) == nodes_model(v@.subrange(0, i as int)),
        decreases v.len() - i,
    {
        let c = v[i].duplicate();
        proof {
            lemma_nodes_model_push(r@, c);
            lemma_nodes_model_push(v@.subrange(0, i as int), v@[i as int]);
            assert(v@.subrange(0, i as int).push(v@[i as int]) =~= v@.subrange(0, i + 1));
        }
        r.push(c);
        i = i + 1;
    }
    assert(v@.subrange(0, v.len() as int) =~= v@);
    r
}

fn copy_branches(v: &Vec<(Node, Vec<Node>)>) -> (r: Vec<(Node, Vec<Node>)>)
    ensures
        branches_model(r@) == branches_model(v@),
    decreases v, 1int,
{
    let mut r: Vec<(Node, Vec<Node>)> = Vec::new();
    let mut i: usize = 0;
    while i < v.len()
        invariant
            i <= v.len(),
            branches_model(r@) == branches_model(v@.subrange(0, i as int)),
        decreases v.len() - i,
    {
        let c = (v[i].0.duplicate(), copy_nodes(&v[i].1));
        proof {
            lemma_branches_model_push(r@, c);
            lemma_branches_model_push(v@.subrange(0, i as int), v@[i as int]);
            assert(v@.subrange(0, i as int).push(v@[i as int]) =~= v@.subrange(0, i + 1));
        }
        r.push(c);
        i = i + 1;
    }
    assert(v@.subrange(0, v.len() as int) =~= v@);
    r
}

} // verus!

verus! {

proof fn lemma_cons_eq<A>(x1: A, y1: Seq<A>, x2: A, y2: Seq<A>)
    ensures
        (seq![x1] + y1 == seq![x2] + y2) == (x1 == x2 && y1 == y2),
{
    if seq![x1] + y1 == seq![x2] + y2 {
        assert((seq![x1] + y1)[0] == x1);
        assert((seq![x2] + y2)[0] == x2);
        assert((seq![x1] + y1).subrange(1, 1 + y1.len() as int) =~= y1);
        assert((seq![x2] + y2).subrange(1, 1 + y2.len() as int) =~= y2);
    }
}

pub fn same_value_data(a: &ValueData, b: &ValueData) -> (r: bool)
    ensures
        r == (lit_model(*a) == lit_model(*b)),
{
    match (a, b) {
        (ValueData::Int(x), ValueData::Int(y)) => *x == *y,
        (ValueData::Float(x), ValueData::Float(y)) => x.eq(y),
        (ValueData::String(x), ValueData::String(y)) => x.eq(y),
        _ => false,
    }
}

pub fn same_strings(a: &Vec<String>, b: &Vec<String>) -> (r: bool)
    ensures
        r == (strings_model(a@) == strings_model(b@)),
{
    if a.len() != b.len() {
        assert(strings_model(a@).len() != strings_model(b@).len());
        return false;
    }
    let mut i: usize = 0;
    while i < a.len()
        invariant
            a@.len() == b@.len(),
            i <= a@.len(),
            forall|j: int| 0 <= j < i ==> #[trigger] a@[j]@ == b@[j]@,
        decreases a@.len() - i,
    {
        if !a[i].eq(&b[i]) {
            assert(strings_model(a@)[i as int] != strings_model(b@)[i as int]);
            return false;
        }
        i = i + 1;
    }
    assert(strings_model(a@) =~= strings_model(b@));
    true
}

impl Node {
    /// Whether two trees have the same model.
    pub fn same_as(&self, other: &Node) -> (r: bool)
        ensures
            r == (self@ == other@),
        decreases self, 0int,
    {
        match (self, other) {
            (Node::Name(x), Node::Name(y)) => x.eq(y),
            (Node::Value(x), Node::Value(y)) => same_value_data(x, y),
            (Node::Expr(l1, o1, r1), Node::Expr(l2, o2, r2)) => *o1 == *o2 && l1.same_as(l2) && r1.same_as(r2),
            (Node::SetAttr { name: n1, value: v1 }, Node::SetAttr { name: n2, value: v2 }) => n1.eq(n2) && v1.same_as(v2),
            (Node::Command { command: c1, args: a1 }, Node::Command { command: c2, args: a2 }) => c1.eq(c2) && same_nodes(a1, a2),
            (Node::Target { name: n1, require: q1, body: b1 }, Node::Target { name: n2, require: q2, body: b2 }) => n1.eq(n2)
                && same_strings(q1, q2) && same_nodes(b1, b2),
            (
                Node::If { if_node: i1, elif_nodes: e1, else_node: x1 },
                Node::If { if_node: i2, elif_nodes: e2, else_node: x2 },
            ) => {
                proof {
                    lemma_cons_eq(
                        (node_model(i1.0), nodes_model(i1.1@)),
                        branches_model(e1@),
                        (node_model(i2.0), nodes_model(i2.1@)),
                        branches_model(e2@),
                    );
                }
                let same_else = match (x1, x2) {
                    (Some(b1), Some(b2)) => same_nodes(b1, b2),
                    (None, None) => true,
                    _ => false,
                };
                same_else && i1.0.same_as(&i2.0) && same_nodes(&i1.1, &i2.1) && same_branches(e1, e2)
            },
            (Node::Module { body: b1 }, Node::Module { body: b2 }) => same_nodes(b1, b2),
            _ => false,
        }
    }
}

pub fn same_nodes(a: &Vec<Node>, b: &Vec<Node>) -> (r: bool)
    ensures
        r == (nodes_model(a@) == nodes_model(b@)),
    decreases a, 1int,
{
    proof {
        lemma_nodes_model_index(a@);
        lemma_nodes_model_index(b@);
    }
    if a.len() != b.len() {
        return false;
    }
    let mut i: usize = 0;
    while i < a.len()
        invariant
            a@.len() == b@.len(),
            i <= a@.len(),
            nodes_model(a@).len() == a@.len(),
            nodes_model(b@).len() == b@.len(),
            forall|j: int| 0 <= j < a@.len() ==> #[trigger] nodes_model(a@)[j] == node_model(a@[j]),
            forall|j: int| 0 <= j < b@.len() ==> #[trigger] nodes_model(b@)[j] == node_model(b@[j]),
            forall|j: int| 0 <= j < i ==> #[trigger] node_model(a@[j]) == node_model(b@[j]),
        decreases a@.len() - i,
    {
        if !a[i].same_as(&b[i]) {
            assert(nodes_model(a@)[i as int] != nodes_model(b@)[i as int]);
            return false;
        }
        i = i + 1;
    }
    assert(nodes_model(a@) =~= nodes_model(b@));
    true
}

fn same_branches(a: &Vec<(Node, Vec<Node>)>, b: &Vec<(Node, Vec<Node>)>) -> (r: bool)
    ensures
        r == (branches_model(a@) == branches_model(b@)),
    decreases a, 1int,
{
    proof {
        lemma_branches_model_index(a@);
        lemma_branches_model_index(b@);
    }
    if a.len() != b.len() {
        return false;
    }
    let mut i: usize = 0;
    while i < a.len()
        invariant
            a@.len() == b@.len(),
            i <= a@.len(),
            branches_model(a@).len() == a@.len(),
            branches_model(b@).len() == b@.len(),
            forall|j: int| 0 <= j < a@.len() ==> #[trigger] branches_model(a@)[j] == (node_model(a@[j].0), nodes_model(a@[j].1@)),
            forall|j: int| 0 <= j < b@.len() ==> #[trigger] branches_model(b@)[j] == (node_model(b@[j].0), nodes_model(b@[j].1@)),
            forall|j: int| 0 <= j < i ==> #[trigger] branches_model(a@)[j] == branches_model(b@)[j],
        decreases a@.len() - i,
    {
        let same = a[i].0.same_as(&b[i].0) && same_nodes(&a[i].1, &b[i].1);
        if !same {
            assert(branches_model(a@)[i as int] != branches_model(b@)[i as int]);
            return false;
        }
        i = i + 1;
    }
    assert(branches_model(a@) =~= branches_model(b@));
    true
}

} // verus!
