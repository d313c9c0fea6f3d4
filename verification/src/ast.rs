use vstd::prelude::*;

use crate::forge::args::strs_view;
use crate::text::{chars_of, join, join_strings, string_of};

verus! {

/// A byte range `[start, end)` in the text a node was read from. Offsets count each
/// line as its bytes without a carriage return before its newline, plus one byte for
/// the line ending, so in text with `\r\n` line endings they fall short of the
/// true byte positions by one for each earlier line that ends in `\r\n`.
#[derive(Clone, Copy, Debug, PartialEq, Eq)]
pub struct Span {
    pub start: usize,
    pub end: usize,
}

/// A piece of ordinary Markdown.
#[derive(Clone, Debug, PartialEq, Eq)]
pub enum MdEvent {
    Text(String),
}

/// The value of an argument as written: an integer when it reads as an `i64`,
/// a string otherwise.
#[derive(Clone, Debug, PartialEq)]
pub enum ArgValue {
    Int(i64),
    String(String),
}

/// The kind of value an argument of a block or inline extension accepts.
#[derive(Clone, Copy, Debug, PartialEq, Eq)]
pub enum ArgType {
    Int,
    String,
    StaticEnum(&'static [&'static str]),
    DynamicEnum(&'static str),
}

/// An argument's type together with whether it must be present.
#[derive(Clone, Copy, Debug, PartialEq, Eq)]
pub struct ArgSpec {
    pub arg_type: ArgType,
    pub required: bool,
}

/// A parsed document.
#[derive(Debug, PartialEq)]
pub struct Document {
    pub nodes: Vec<Node>,
}

/// A node of a document: a run of Markdown lines or a block extension.
#[derive(Debug, PartialEq)]
pub enum Node {
    Markdown(Vec<MdEvent>),
    Block(BlockNode),
}

/// A block extension `:::name key=value ...` with its body.
/// `args` holds each key once, in the order in which keys first appear.
#[derive(Debug, PartialEq)]
pub struct BlockNode {
    pub name: String,
    pub args: Vec<(String, ArgValue)>,
    pub body: Vec<Node>,
    pub span: Span,
}

/// An inline extension `{name key=value ...}`.
/// `args` holds each key once, in the order in which keys first appear.
#[derive(Clone, Debug, PartialEq)]
pub struct InlineExt {
    pub name: String,
    pub args: Vec<(String, ArgValue)>,
    pub span: Span,
}

// ---------------------------------------------------------------------------
// Mathematical model
// ---------------------------------------------------------------------------

/// Model of an argument value.
pub enum ArgValueV {
    Int(i64),
    Str(Seq<char>),
}

/// Model of a block node.
pub struct BlockNodeV {
    pub name: Seq<char>,
    pub args: Seq<(Seq<char>, ArgValueV)>,
    pub body: Seq<NodeV>,
    pub span: Span,
}

/// Model of a node: Markdown holds the texts of its events.
pub enum NodeV {
    Markdown(Seq<Seq<char>>),
    Block(BlockNodeV),
}

/// Model of an inline extension.
pub struct InlineExtV {
    pub name: Seq<char>,
    pub args: Seq<(Seq<char>, ArgValueV)>,
    pub span: Span,
}

impl View for ArgValue {
    type V = ArgValueV;

    open spec fn view(&self) -> ArgValueV {
        match self {
            ArgValue::Int(i) => ArgValueV::Int(*i),
            ArgValue::String(s) => ArgValueV::Str(s@),
        }
    }
}

impl View for MdEvent {
    type V = Seq<char>;

    open spec fn view(&self) -> Seq<char> {
        match self {
            MdEvent::Text(s) => s@,
        }
    }
}

/// Model of an argument list.
pub open spec fn args_view(args: Seq<(String, ArgValue)>) -> Seq<(Seq<char>, ArgValueV)> {
    args.map_values(|p: (String, ArgValue)| (p.0@, p.1@))
}

/// Model of a list of Markdown events.
pub open spec fn events_view(evs: Seq<MdEvent>) -> Seq<Seq<char>> {
    evs.map_values(|e: MdEvent| e@)
}

/// Model of a node.
pub open spec fn node_view(n: Node) -> NodeV
    decreases n,
{
    match n {
        Node::Markdown(evs) => NodeV::Markdown(events_view(evs@)),
        Node::Block(b) => NodeV::Block(
            BlockNodeV {
                name: b.name@,
                args: args_view(b.args@),
                body: nodes_view(b.body@),
                span: b.span,
            },
        ),
    }
}

/// Model of a list of nodes.
pub open spec fn nodes_view(ns: Seq<Node>) -> Seq<NodeV>
    decreases ns,
{
    if ns.len() == 0 {
        Seq::empty()
    } else {
        nodes_view(ns.drop_last()).push(node_view(ns.last()))
    }
}

/// The model of a list of nodes has one model per node, in order.
pub broadcast proof fn lemma_nodes_view(ns: Seq<Node>)
    ensures
        #[trigger] nodes_view(ns).len() == ns.len(),
        forall|i: int| 0 <= i < ns.len() ==> #[trigger] nodes_view(ns)[i] == node_view(ns[i]),
    decreases ns.len(),
{
    if ns.len() > 0 {
        lemma_nodes_view(ns.drop_last());
    }
}

/// Pushing a node pushes its model.
pub proof fn lemma_nodes_view_push(ns: Seq<Node>, n: Node)
    ensures
        nodes_view(ns.push(n)) == nodes_view(ns).push(node_view(n)),
{
    assert(ns.push(n).drop_last() =~= ns);
}

impl View for BlockNode {
    type V = BlockNodeV;

    open spec fn view(&self) -> BlockNodeV {
        BlockNodeV {
            name: self.name@,
            args: args_view(self.args@),
            body: nodes_view(self.body@),
            span: self.span,
        }
    }
}

impl View for Node {
    type V = NodeV;

    open spec fn view(&self) -> NodeV {
        node_view(*self)
    }
}

impl View for Document {
    type V = Seq<NodeV>;

    open spec fn view(&self) -> Seq<NodeV> {
        nodes_view(self.nodes@)
    }
}

impl View for InlineExt {
    type V = InlineExtV;

    open spec fn view(&self) -> InlineExtV {
        InlineExtV { name: self.name@, args: args_view(self.args@), span: self.span }
    }
}

fn clone_value(v: &ArgValue) -> (r: ArgValue)
    ensures
        r@ == v@,
{
    match v {
        ArgValue::Int(i) => ArgValue::Int(*i),
        ArgValue::String(s) => ArgValue::String(s.clone()),
    }
}

fn clone_args(a: &Vec<(String, ArgValue)>) -> (r: Vec<(String, ArgValue)>)
    ensures
        args_view(r@) == args_view(a@),
{
    let mut r: Vec<(String, ArgValue)> = Vec::new();
    let n = a.len();
    let mut i: usize = 0;
    while i < n
        invariant
            i <= n == a@.len(),
            r@.len() == i,
            args_view(r@) == args_view(a@.take(i as int)),
        decreases n - i,
    {
        let k = a[i].0.clone();
        let v = clone_value(&a[i].1);
        let ghost prev = r@;
        r.push((k, v));
        assert(r@ == prev.push((k, v)));
        assert forall|j: int| 0 <= j <= i implies #[trigger] args_view(r@)[j] == args_view(
            a@.take(i + 1),
        )[j] by {
            if j < i {
                assert(r@[j] == prev[j]);
                assert(args_view(prev)[j] == args_view(a@.take(i as int))[j]);
            }
        }
        assert(args_view(r@) =~= args_view(a@.take(i + 1)));
        i = i + 1;
    }
    assert(a@.take(n as int) =~= a@);
    r
}

fn clone_events(evs: &Vec<MdEvent>) -> (r: Vec<MdEvent>)
    ensures
        events_view(r@) == events_view(evs@),
{
    let mut r: Vec<MdEvent> = Vec::new();
    let n = evs.len();
    let mut i: usize = 0;
    while i < n
        invariant
            i <= n == evs@.len(),
            r@.len() == i,
            events_view(r@) == events_view(evs@.take(i as int)),
        decreases n - i,
    {
        let e = match &evs[i] {
            MdEvent::Text(t) => MdEvent::Text(t.clone()),
        };
        let ghost prev = r@;
        r.push(e);
        assert(r@ == prev.push(e));
        assert forall|j: int| 0 <= j <= i implies #[trigger] events_view(r@)[j] == events_view(
            evs@.take(i + 1),
        )[j] by {
            if j < i {
                assert(r@[j] == prev[j]);
                assert(events_view(prev)[j] == events_view(evs@.take(i as int))[j]);
            }
        }
        assert(events_view(r@) =~= events_view(evs@.take(i + 1)));
        i = i + 1;
    }
    assert(evs@.take(n as int) =~= evs@);
    r
}

fn clone_node(n: &Node) -> (r: Node)
    ensures
        node_view(r) == node_view(*n),
    decreases n,
{
    match n {
        Node::Markdown(evs) => Node::Markdown(clone_events(evs)),
        Node::Block(b) => Node::Block(
            BlockNode {
                name: b.name.clone(),
                args: clone_args(&b.args),
                body: clone_nodes(&b.body),
                span: b.span,
            },
        ),
    }
}

fn clone_nodes(ns: &Vec<Node>) -> (r: Vec<Node>)
    ensures
        nodes_view(r@) == nodes_view(ns@),
    decreases ns,
{
    let mut r: Vec<Node> = Vec::new();
    let n = ns.len();
    let mut i: usize = 0;
    assert(ns@.take(0) =~= Seq::<Node>::empty());
    assert(r@ =~= Seq::<Node>::empty());
    while i < n
        invariant
            i <= n == ns@.len(),
            nodes_view(r@) == nodes_view(ns@.take(i as int)),
        decreases n - i,
    {
        proof {
            vstd::std_specs::vec::axiom_vec_index_decreases(*ns, i as int);
        }
        let c = clone_node(&ns[i]);
        proof {
            lemma_nodes_view_push(r@, c);
            lemma_nodes_view_push(ns@.take(i as int), ns@[i as int]);
            assert(ns@.take(i + 1) =~= ns@.take(i as int).push(ns@[i as int]));
        }
        r.push(c);
        i = i + 1;
    }
    assert(ns@.take(n as int) =~= ns@);
    r
}

impl Clone for Node {
    fn clone(&self) -> (r: Self)
        ensures
            r@ == self@,
    {
        clone_node(self)
    }
}

impl Clone for BlockNode {
    fn clone(&self) -> (r: Self)
        ensures
            r@ == self@,
    {
        BlockNode {
            name: self.name.clone(),
            args: clone_args(&self.args),
            body: clone_nodes(&self.body),
            span: self.span,
        }
    }
}

impl Clone for Document {
    fn clone(&self) -> (r: Self)
        ensures
            r@ == self@,
    {
        Document { nodes: clone_nodes(&self.nodes) }
    }
}

/// The placeholder for a value of type `t`, as the signature shows it.
pub open spec fn label_core(t: ArgType) -> Seq<char> {
    match t {
        ArgType::Int => "<int>"@,
        ArgType::String => "<string>"@,
        ArgType::StaticEnum(values) => "<"@ + join(strs_view(values@), "|"@) + ">"@,
        ArgType::DynamicEnum(name) => "<dynamic:"@ + name@ + ">"@,
    }
}

/// `s` without its trailing `>` characters.
pub open spec fn trim_end_gt(s: Seq<char>) -> Seq<char>
    decreases s.len(),
{
    if s.len() > 0 && s.last() == '>' {
        trim_end_gt(s.drop_last())
    } else {
        s
    }
}

/// The placeholder for a value of type `t`: an optional one ends in `?>`.
pub open spec fn label_spec(t: ArgType, required: bool) -> Seq<char> {
    if required {
        label_core(t)
    } else {
        trim_end_gt(label_core(t)) + "?>"@
    }
}

impl ArgType {
    /// Marks an argument of this type as one that must be present.
    pub fn required(self) -> (s: ArgSpec)
        ensures
            s == (ArgSpec { arg_type: self, required: true }),
    {
        ArgSpec { arg_type: self, required: true }
    }

    /// Marks an argument of this type as one that may be left out.
    pub fn optional(self) -> (s: ArgSpec)
        ensures
            s == (ArgSpec { arg_type: self, required: false }),
    {
        ArgSpec { arg_type: self, required: false }
    }

    /// The placeholder for a value of this type in a signature, such as `<int>` or,
    /// for an optional argument, `<int?>`.
    pub fn signature_label(&self, required: bool) -> (r: String)
        ensures
            r@ == label_spec(*self, required),
    {
        let core = match self {
            ArgType::Int => String::from_str("<int>"),
            ArgType::String => String::from_str("<string>"),
            ArgType::StaticEnum(values) => {
                let parts = crate::forge::args::strs_to_strings(values);
                let joined = join_strings(parts.as_slice(), "|");
                let mut c = String::from_str("<");
                c.append(joined.as_str());
                c.append(">");
                c
            },
            ArgType::DynamicEnum(name) => {
                let mut c = String::from_str("<dynamic:");
                c.append(name);
                c.append(">");
                c
            },
        };
        if required {
            return core;
        }
        let cc = chars_of(core.as_str());
        let mut e = cc.len();
        assert(cc@.take(e as int) =~= cc@);
        while e > 0 && cc[e - 1] == '>'
            invariant
                e <= cc@.len(),
                trim_end_gt(cc@) == trim_end_gt(cc@.take(e as int)),
            decreases e,
        {
            assert(cc@.take(e as int).drop_last() =~= cc@.take(e - 1));
            e = e - 1;
        }
        assert(trim_end_gt(cc@.take(e as int)) == cc@.take(e as int));
        let mut r = string_of(cc.as_slice(), 0, e);
        assert(cc@.subrange(0, e as int) =~= cc@.take(e as int));
        r.append("?>");
        r
    }
}

} // verus!
