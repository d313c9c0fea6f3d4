use vstd::prelude::*;

use crate::ast::ArgSpec;
use crate::forge::{
    arg_specs_view, block_specs_view, inline_specs_view, new_forge, BlockSpec, BlockSpecV, Forge,
    ForgeV, InlineSpec, InlineSpecV,
};

verus! {

broadcast use vstd::string::group_string_axioms;

/// Collects the extensions of a forge, in the order in which they are registered.
#[derive(Debug, Clone)]
pub struct ForgeBuilder {
    blocks: Vec<BlockSpec>,
    inlines: Vec<InlineSpec>,
}

/// A block extension being described; `register` hands it to the builder.
#[derive(Debug, Clone)]
pub struct BlockBuilder {
    parent: ForgeBuilder,
    name: String,
    args: Vec<(String, ArgSpec)>,
    body_markdown: bool,
}

/// An inline extension being described; `register` hands it to the builder.
#[derive(Debug, Clone)]
pub struct InlineBuilder {
    parent: ForgeBuilder,
    name: String,
    args: Vec<(String, ArgSpec)>,
}

impl View for ForgeBuilder {
    type V = ForgeV;

    closed spec fn view(&self) -> ForgeV {
        ForgeV { blocks: block_specs_view(self.blocks@), inlines: inline_specs_view(self.inlines@) }
    }
}

impl View for BlockBuilder {
    type V = (ForgeV, BlockSpecV);

    closed spec fn view(&self) -> (ForgeV, BlockSpecV) {
        (
            self.parent@,
            BlockSpecV {
                name: self.name@,
                args: arg_specs_view(self.args@),
                body_markdown: self.body_markdown,
            },
        )
    }
}

impl View for InlineBuilder {
    type V = (ForgeV, InlineSpecV);

    closed spec fn view(&self) -> (ForgeV, InlineSpecV) {
        (self.parent@, InlineSpecV { name: self.name@, args: arg_specs_view(self.args@) })
    }
}

impl ForgeBuilder {
    /// A builder with no extensions.
    pub fn new() -> (r: ForgeBuilder)
        ensures
            r@.blocks == Seq::<BlockSpecV>::empty(),
            r@.inlines == Seq::<InlineSpecV>::empty(),
    {
        let r = ForgeBuilder { blocks: Vec::new(), inlines: Vec::new() };
        assert(block_specs_view(r.blocks@) =~= Seq::<BlockSpecV>::empty());
        assert(inline_specs_view(r.inlines@) =~= Seq::<InlineSpecV>::empty());
        r
    }

    /// Starts describing a block extension named `name`.
    pub fn block(self, name: &str) -> (r: BlockBuilder)
        ensures
            r@.0 == self@,
            r@.1 == (BlockSpecV { name: name@, args: Seq::empty(), body_markdown: false }),
    {
        let r = BlockBuilder {
            parent: self,
            name: String::from_str(name),
            args: Vec::new(),
            body_markdown: false,
        };
        assert(arg_specs_view(r.args@) =~= Seq::<(Seq<char>, ArgSpec)>::empty());
        r
    }

    /// Starts describing an inline extension named `name`.
    pub fn inline(self, name: &str) -> (r: InlineBuilder)
        ensures
            r@.0 == self@,
            r@.1 == (InlineSpecV { name: name@, args: Seq::empty() }),
    {
        let r = InlineBuilder { parent: self, name: String::from_str(name), args: Vec::new() };
        assert(arg_specs_view(r.args@) =~= Seq::<(Seq<char>, ArgSpec)>::empty());
        r
    }

    /// The forge with the registered extensions.
    pub fn build(self) -> (r: Forge)
        ensures
            r@ == self@,
    {
        new_forge(self.blocks, self.inlines)
    }
}

impl Default for ForgeBuilder {
    fn default() -> (r: ForgeBuilder)
        ensures
            r@.blocks == Seq::<BlockSpecV>::empty(),
            r@.inlines == Seq::<InlineSpecV>::empty(),
    {
        ForgeBuilder::new()
    }
}

impl BlockBuilder {
    /// Adds an argument named `name`.
    pub fn arg(self, name: &str, spec: ArgSpec) -> (r: Self)
        ensures
            r@.0 == self@.0,
            r@.1 == (BlockSpecV { args: self@.1.args.push((name@, spec)), ..self@.1 }),
    {
        let mut s = self;
        let ghost old_args = s.args@;
        s.args.push((String::from_str(name), spec));
        assert(arg_specs_view(s.args@) =~= arg_specs_view(old_args).push((name@, spec)));
        s
    }

    /// Lets the block's body hold Markdown.
    pub fn body_markdown(self) -> (r: Self)
        ensures
            r@.0 == self@.0,
            r@.1 == (BlockSpecV { body_markdown: true, ..self@.1 }),
    {
        let mut s = self;
        s.body_markdown = true;
        s
    }

    /// Registers the block extension with the builder.
    pub fn register(self) -> (r: ForgeBuilder)
        ensures
            r@.blocks == self@.0.blocks.push(self@.1),
            r@.inlines == self@.0.inlines,
    {
        let BlockBuilder { parent, name, args, body_markdown } = self;
        let mut p = parent;
        let ghost old_blocks = p.blocks@;
        let spec = BlockSpec { name, args, body_markdown };
        p.blocks.push(spec);
        assert(block_specs_view(p.blocks@) =~= block_specs_view(old_blocks).push(spec@));
        p
    }
}

impl InlineBuilder {
    /// Adds an argument named `name`.
    pub fn arg(self, name: &str, spec: ArgSpec) -> (r: Self)
        ensures
            r@.0 == self@.0,
            r@.1 == (InlineSpecV { args: self@.1.args.push((name@, spec)), ..self@.1 }),
    {
        let mut s = self;
        let ghost old_args = s.args@;
        s.args.push((String::from_str(name), spec));
        assert(arg_specs_view(s.args@) =~= arg_specs_view(old_args).push((name@, spec)));
        s
    }

    /// Registers the inline extension with the builder.
    pub fn register(self) -> (r: ForgeBuilder)
        ensures
            r@.blocks == self@.0.blocks,
            r@.inlines == self@.0.inlines.push(self@.1),
    {
        let InlineBuilder { parent, name, args } = self;
        let mut p = parent;
        let ghost old_inlines = p.inlines@;
        let spec = InlineSpec { name, args };
        p.inlines.push(spec);
        assert(inline_specs_view(p.inlines@) =~= inline_specs_view(old_inlines).push(spec@));
        p
    }
}

} // verus!
