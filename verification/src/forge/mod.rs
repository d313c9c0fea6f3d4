use vstd::prelude::*;

use crate::ast::{ArgSpec, BlockNode, BlockNodeV, Document, InlineExt, InlineExtV};
use crate::diagnostic::{diags_view, Diagnostic};
use crate::dom::{vnodes_view, VNode, VNodeV};
use crate::forge::eval::eval_nodes_spec;
use crate::forge::parse::{nodes_keys_unique, parse_spec};
use crate::forge::render::{render_nodes_spec, renders};
use crate::forge::signature::signature_spec;
use crate::forge::validate::validate_nodes_spec;

pub mod args;
pub mod builder;
pub mod eval;
pub mod inline;
pub mod parse;
pub mod render;
pub mod signature;
pub mod validate;

pub use builder::{BlockBuilder, ForgeBuilder, InlineBuilder};

verus! {

/// Turns blocks and inline extensions into DOM nodes. `children` are the nodes
/// already made from the block's body.
///
/// An implementation gives the node that it makes as a function of the block or
/// inline extension, the context and the children, each taken by its model:
/// `block_node` and `inline_node` name those functions, and each call returns a node
/// whose model is what they give. So a renderer must make equal nodes of equal
/// inputs: one that keeps state from call to call (say, a counter of ids in a
/// `Cell`) cannot meet this contract.
///
/// The default bodies only let implementations outside verified code leave the two
/// functions out. Such an implementation then keeps the defaults, one unknown
/// constant node each, which its real nodes need not equal: what is proved of it
/// holds only where it meets the contract. The library's proofs do not rely on the
/// defaults: for a renderer type that it does not know, Verus knows the two
/// functions only through what the calls return.
pub trait DomRenderer {
    /// The model of the node made for the block `block` with children `children`.
    open spec fn block_node(
        &self,
        block: BlockNodeV,
        ctx: Seq<(Seq<char>, Seq<Seq<char>>)>,
        children: Seq<VNodeV>,
    ) -> VNodeV {
        vstd::pervasive::arbitrary()
    }

    /// The model of the node made for the inline extension `inline`.
    open spec fn inline_node(&self, inline: InlineExtV, ctx: Seq<(Seq<char>, Seq<Seq<char>>)>) -> VNodeV {
        vstd::pervasive::arbitrary()
    }

    fn render_block(&self, block: &BlockNode, ctx: &EvalContext, children: Vec<VNode>) -> (r: VNode)
        ensures
            r@ == self.block_node(block@, ctx@, vnodes_view(children@)),
    ;

    fn render_inline(&self, inline: &InlineExt, ctx: &EvalContext) -> (r: VNode)
        ensures
            r@ == self.inline_node(inline@, ctx@),
    ;
}

/// For each dynamic enum, by name, the values it allows. Where a name occurs more
/// than once, its first entry counts.
#[derive(Debug, Clone, PartialEq, Eq)]
pub struct EvalContext {
    pub dynamic_values: Vec<(String, Vec<String>)>,
}

/// A registered block extension.
#[derive(Debug, Clone, PartialEq, Eq)]
pub struct BlockSpec {
    pub name: String,
    pub args: Vec<(String, ArgSpec)>,
    pub body_markdown: bool,
}

/// A registered inline extension.
#[derive(Debug, Clone, PartialEq, Eq)]
pub struct InlineSpec {
    pub name: String,
    pub args: Vec<(String, ArgSpec)>,
}

/// The extensions that a document may use, and the pipeline that checks and
/// renders documents against them.
#[derive(Debug, Clone, PartialEq, Eq)]
pub struct Forge {
    blocks: Vec<BlockSpec>,
    inlines: Vec<InlineSpec>,
}

// ---------------------------------------------------------------------------
// Model
// ---------------------------------------------------------------------------

/// Model of a block extension.
pub struct BlockSpecV {
    pub name: Seq<char>,
    pub args: Seq<(Seq<char>, ArgSpec)>,
    pub body_markdown: bool,
}

/// Model of an inline extension.
pub struct InlineSpecV {
    pub name: Seq<char>,
    pub args: Seq<(Seq<char>, ArgSpec)>,
}

/// Model of a forge: its extensions in the order of registration.
pub struct ForgeV {
    pub blocks: Seq<BlockSpecV>,
    pub inlines: Seq<InlineSpecV>,
}

/// Model of a list of argument specifications.
pub open spec fn arg_specs_view(a: Seq<(String, ArgSpec)>) -> Seq<(Seq<char>, ArgSpec)> {
    a.map_values(|p: (String, ArgSpec)| (p.0@, p.1))
}

impl View for BlockSpec {
    type V = BlockSpecV;

    open spec fn view(&self) -> BlockSpecV {
        BlockSpecV {
            name: self.name@,
            args: arg_specs_view(self.args@),
            body_markdown: self.body_markdown,
        }
    }
}

impl View for InlineSpec {
    type V = InlineSpecV;

    open spec fn view(&self) -> InlineSpecV {
        InlineSpecV { name: self.name@, args: arg_specs_view(self.args@) }
    }
}

/// Model of a list of block extensions.
pub open spec fn block_specs_view(v: Seq<BlockSpec>) -> Seq<BlockSpecV> {
    v.map_values(|b: BlockSpec| b@)
}

/// Model of a list of inline extensions.
pub open spec fn inline_specs_view(v: Seq<InlineSpec>) -> Seq<InlineSpecV> {
    v.map_values(|b: InlineSpec| b@)
}

impl View for Forge {
    type V = ForgeV;

    closed spec fn view(&self) -> ForgeV {
        ForgeV { blocks: block_specs_view(self.blocks@), inlines: inline_specs_view(self.inlines@) }
    }
}

/// Model of an evaluation context.
pub open spec fn ctx_view(c: EvalContext) -> Seq<(Seq<char>, Seq<Seq<char>>)> {
    c.dynamic_values@.map_values(
        |p: (String, Vec<String>)| (p.0@, crate::text::strings_view(p.1@)),
    )
}

impl View for EvalContext {
    type V = Seq<(Seq<char>, Seq<Seq<char>>)>;

    open spec fn view(&self) -> Seq<(Seq<char>, Seq<Seq<char>>)> {
        ctx_view(*self)
    }
}

/// Index of the first of `names` equal to `k`, or `names.len()` when there is none.
pub open spec fn first_pos(names: Seq<Seq<char>>, k: Seq<char>) -> nat
    decreases names.len(),
{
    if names.len() == 0 {
        0
    } else if names[0] == k {
        0
    } else {
        1 + first_pos(names.drop_first(), k)
    }
}

/// `m` is the first position of `k` when no earlier name is `k` and name `m` is.
pub proof fn lemma_first_pos_at(names: Seq<Seq<char>>, k: Seq<char>, m: int)
    requires
        0 <= m <= names.len(),
        forall|j: int| 0 <= j < m ==> #[trigger] names[j] != k,
        m < names.len() ==> names[m] == k,
    ensures
        first_pos(names, k) == m,
    decreases names.len(),
{
    if names.len() > 0 && m > 0 {
        assert forall|j: int| 0 <= j < m - 1 implies #[trigger] names.drop_first()[j] != k by {
            assert(names.drop_first()[j] == names[j + 1]);
        }
        lemma_first_pos_at(names.drop_first(), k, m - 1);
    }
}

/// A forge with the given extensions.
pub(crate) fn new_forge(blocks: Vec<BlockSpec>, inlines: Vec<InlineSpec>) -> (r: Forge)
    ensures
        r@ == (ForgeV { blocks: block_specs_view(blocks@), inlines: inline_specs_view(inlines@) }),
{
    Forge { blocks, inlines }
}

impl Default for EvalContext {
    fn default() -> (r: EvalContext)
        ensures
            r@ == Seq::<(Seq<char>, Seq<Seq<char>>)>::empty(),
    {
        let r = EvalContext { dynamic_values: Vec::new() };
        assert(r@ =~= Seq::<(Seq<char>, Seq<Seq<char>>)>::empty());
        r
    }
}

impl Forge {
    /// A builder to register extensions with.
    pub fn builder() -> (r: ForgeBuilder)
        ensures
            r@.blocks == Seq::<BlockSpecV>::empty(),
            r@.inlines == Seq::<InlineSpecV>::empty(),
    {
        ForgeBuilder::new()
    }

    /// Parses `input` into a document of Markdown runs and block extensions;
    /// `Err` with every diagnostic when a block is not closed, has no name or has an
    /// argument without `=`.
    pub fn parse(&self, input: &str) -> (r: Result<Document, Vec<Diagnostic>>)
        ensures
            ({
                let out = parse_spec(input@);
                match r {
                    Ok(doc) => out.diags.len() == 0 && doc@ == out.nodes && nodes_keys_unique(doc@),
                    Err(ds) => out.diags.len() > 0 && diags_view(ds@) == out.diags,
                }
            }),
    {
        parse::parse_document(input)
    }

    /// Checks that every block and inline extension of `doc` is registered and that
    /// their arguments are present, known and of their types (dynamic enums aside).
    pub fn validate(&self, doc: &Document) -> (r: Result<(), Vec<Diagnostic>>)
        ensures
            ({
                let ds = validate_nodes_spec(self@.blocks, self@.inlines, doc@);
                match r {
                    Ok(()) => ds.len() == 0,
                    Err(v) => ds.len() > 0 && diags_view(v@) == ds,
                }
            }),
    {
        validate::validate_document(doc, &self.blocks, &self.inlines)
    }

    /// Checks the dynamic-enum arguments of `doc` against `dynamic_ctx`; on success
    /// gives back a copy of the context.
    pub fn eval(&self, doc: &Document, dynamic_ctx: &EvalContext) -> (r: Result<
        EvalContext,
        Vec<Diagnostic>,
    >)
        ensures
            ({
                let ds = eval_nodes_spec(self@.blocks, self@.inlines, dynamic_ctx@, doc@);
                match r {
                    Ok(c) => ds.len() == 0 && c@ == dynamic_ctx@,
                    Err(v) => ds.len() > 0 && diags_view(v@) == ds,
                }
            }),
    {
        eval::eval_document(doc, &self.blocks, &self.inlines, dynamic_ctx)
    }

    /// Renders `doc` with `renderer` into DOM nodes: Markdown text pieces become text
    /// nodes, each registered inline extension becomes what `render_inline` makes of
    /// it, and each registered block what `render_block` makes of it and of the nodes
    /// rendered from its body.
    pub fn render_dom<R: DomRenderer + ?Sized>(&self, doc: &Document, ctx: &EvalContext, renderer: &R) -> (r:
        Result<Vec<VNode>, Vec<Diagnostic>>)
        ensures
            ({
                let spec = render_nodes_spec(self@.blocks, self@.inlines, doc@);
                match r {
                    Ok(v) => spec.1.len() == 0 && renders(renderer, ctx@, v@, spec.0),
                    Err(ds) => spec.1.len() > 0 && diags_view(ds@) == spec.1,
                }
            }),
    {
        render::render_document(&self.blocks, &self.inlines, doc, ctx, renderer)
    }

    /// The signature of the registered extensions, to be handed to a language model.
    pub fn signature(&self) -> (r: String)
        ensures
            r@ == signature_spec(self@.blocks, self@.inlines),
    {
        signature::build_signature(&self.blocks, &self.inlines)
    }
}

/// The block extension named `k` that was registered first, if any.
pub open spec fn find_block(blocks: Seq<BlockSpecV>, k: Seq<char>) -> Option<BlockSpecV> {
    let j = first_pos(blocks.map_values(|b: BlockSpecV| b.name), k);
    if j < blocks.len() {
        Some(blocks[j as int])
    } else {
        None
    }
}

/// The inline extension named `k` that was registered first, if any.
pub open spec fn find_inline(inlines: Seq<InlineSpecV>, k: Seq<char>) -> Option<InlineSpecV> {
    let j = first_pos(inlines.map_values(|b: InlineSpecV| b.name), k);
    if j < inlines.len() {
        Some(inlines[j as int])
    } else {
        None
    }
}

/// The first block extension named `k`, if any.
pub fn lookup_block<'a>(blocks: &'a Vec<BlockSpec>, k: &String) -> (r: Option<&'a BlockSpec>)
    ensures
        match find_block(block_specs_view(blocks@), k@) {
            Some(b) => r matches Some(x) && x@ == b,
            None => r is None,
        },
{
    let n = blocks.len();
    let mut j: usize = 0;
    let ghost names = block_specs_view(blocks@).map_values(|b: BlockSpecV| b.name);
    while j < n && !(blocks[j].name == *k)
        invariant
            j <= n == blocks@.len(),
            names == block_specs_view(blocks@).map_values(|b: BlockSpecV| b.name),
            forall|i: int| 0 <= i < j ==> #[trigger] names[i] != k@,
        decreases n - j,
    {
        assert(names[j as int] == blocks@[j as int].name@);
        j = j + 1;
    }
    proof {
        if j < n {
            assert(names[j as int] == blocks@[j as int].name@);
        }
        lemma_first_pos_at(names, k@, j as int);
    }
    if j < n {
        Some(&blocks[j])
    } else {
        None
    }
}

/// The first inline extension named `k`, if any.
pub fn lookup_inline<'a>(inlines: &'a Vec<InlineSpec>, k: &String) -> (r: Option<&'a InlineSpec>)
    ensures
        match find_inline(inline_specs_view(inlines@), k@) {
            Some(b) => r matches Some(x) && x@ == b,
            None => r is None,
        },
{
    let n = inlines.len();
    let mut j: usize = 0;
    let ghost names = inline_specs_view(inlines@).map_values(|b: InlineSpecV| b.name);
    while j < n && !(inlines[j].name == *k)
        invariant
            j <= n == inlines@.len(),
            names == inline_specs_view(inlines@).map_values(|b: InlineSpecV| b.name),
            forall|i: int| 0 <= i < j ==> #[trigger] names[i] != k@,
        decreases n - j,
    {
        assert(names[j as int] == inlines@[j as int].name@);
        j = j + 1;
    }
    proof {
        if j < n {
            assert(names[j as int] == inlines@[j as int].name@);
        }
        lemma_first_pos_at(names, k@, j as int);
    }
    if j < n {
        Some(&inlines[j])
    } else {
        None
    }
}

} // verus!
pub mod laws;
