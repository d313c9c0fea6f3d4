use vstd::prelude::*;

use crate::ast::{
    events_view, lemma_nodes_view, node_view, nodes_view, BlockNodeV, Document, InlineExt,
    InlineExtV, MdEvent, Node, NodeV,
};
use crate::diagnostic::{diags_view, Diagnostic, DiagnosticV};
use crate::forge::args::{eval_args_spec, eval_dynamic_args};
use crate::forge::inline::{inline_exts_spec, scan_inline};
use crate::forge::{
    block_specs_view, ctx_view, find_block, find_inline, inline_specs_view, lookup_block,
    lookup_inline, BlockSpec, BlockSpecV, EvalContext, InlineSpec, InlineSpecV,
};
use crate::text::{chars_of, strings_view};

verus! {

broadcast use vstd::string::group_string_axioms;

/// What evaluating one inline extension reports (nothing for an unknown one).
pub open spec fn eval_inline_spec(
    inlines: Seq<InlineSpecV>,
    ctx: Seq<(Seq<char>, Seq<Seq<char>>)>,
    e: InlineExtV,
) -> Seq<DiagnosticV> {
    match find_inline(inlines, e.name) {
        Some(s) => eval_args_spec(e.args, s.args, e.span, ctx),
        None => Seq::empty(),
    }
}

/// What evaluating a list of inline extensions reports, in order.
pub open spec fn eval_exts_spec(
    inlines: Seq<InlineSpecV>,
    ctx: Seq<(Seq<char>, Seq<Seq<char>>)>,
    exts: Seq<InlineExtV>,
) -> Seq<DiagnosticV>
    decreases exts.len(),
{
    if exts.len() == 0 {
        Seq::empty()
    } else {
        eval_exts_spec(inlines, ctx, exts.drop_last()) + eval_inline_spec(inlines, ctx, exts.last())
    }
}

/// What evaluating the inline extensions of Markdown texts reports, in order.
pub open spec fn eval_texts_spec(
    inlines: Seq<InlineSpecV>,
    ctx: Seq<(Seq<char>, Seq<Seq<char>>)>,
    texts: Seq<Seq<char>>,
) -> Seq<DiagnosticV>
    decreases texts.len(),
{
    if texts.len() == 0 {
        Seq::empty()
    } else {
        eval_texts_spec(inlines, ctx, texts.drop_last()) + eval_exts_spec(
            inlines,
            ctx,
            inline_exts_spec(texts.last()),
        )
    }
}

/// What evaluating one block's arguments reports (nothing for an unknown block).
pub open spec fn eval_block_spec(
    blocks: Seq<BlockSpecV>,
    ctx: Seq<(Seq<char>, Seq<Seq<char>>)>,
    b: BlockNodeV,
) -> Seq<DiagnosticV> {
    match find_block(blocks, b.name) {
        Some(s) => eval_args_spec(b.args, s.args, b.span, ctx),
        None => Seq::empty(),
    }
}

/// What evaluating a node reports: a block first, then its body.
pub open spec fn eval_node_spec(
    blocks: Seq<BlockSpecV>,
    inlines: Seq<InlineSpecV>,
    ctx: Seq<(Seq<char>, Seq<Seq<char>>)>,
    n: NodeV,
) -> Seq<DiagnosticV>
    decreases n,
{
    match n {
        NodeV::Markdown(texts) => eval_texts_spec(inlines, ctx, texts),
        NodeV::Block(b) => eval_block_spec(blocks, ctx, b) + eval_nodes_spec(
            blocks,
            inlines,
            ctx,
            b.body,
        ),
    }
}

/// What evaluating a list of nodes reports, in document order.
pub open spec fn eval_nodes_spec(
    blocks: Seq<BlockSpecV>,
    inlines: Seq<InlineSpecV>,
    ctx: Seq<(Seq<char>, Seq<Seq<char>>)>,
    ns: Seq<NodeV>,
) -> Seq<DiagnosticV>
    decreases ns,
{
    if ns.len() == 0 {
        Seq::empty()
    } else {
        eval_nodes_spec(blocks, inlines, ctx, ns.drop_last()) + eval_node_spec(
            blocks,
            inlines,
            ctx,
            ns.last(),
        )
    }
}

/// Evaluates the inline extensions of one Markdown text.
fn eval_text(
    text: &String,
    inlines: &Vec<InlineSpec>,
    ctx: &EvalContext,
    diagnostics: &mut Vec<Diagnostic>,
)
    ensures
        diags_view(final(diagnostics)@) == diags_view(old(diagnostics)@) + eval_exts_spec(
            inline_specs_view(inlines@),
            ctx_view(*ctx),
            inline_exts_spec(text@),
        ),
{
    // The bytes of `text` are in memory, so their number fits in a `usize`.
    let _byte_len: usize = text.as_str().as_bytes().len();
    let tc = chars_of(text.as_str());
    let (exts, _ranges) = scan_inline(tc.as_slice());
    let ghost ev = inline_exts_spec(text@);
    let ghost iv = inline_specs_view(inlines@);
    let ghost cv = ctx_view(*ctx);
    assert(exts@.map_values(|e: InlineExt| e@) =~= ev);
    let ghost d0 = diags_view(diagnostics@);
    let n = exts.len();
    let mut k: usize = 0;
    assert(ev.take(0) =~= Seq::<InlineExtV>::empty());
    assert(diags_view(diagnostics@) =~= d0 + eval_exts_spec(iv, cv, ev.take(0)));
    while k < n
        invariant
            k <= n == exts@.len(),
            ev == exts@.map_values(|e: InlineExt| e@),
            iv == inline_specs_view(inlines@),
            cv == ctx_view(*ctx),
            d0 == diags_view(old(diagnostics)@),
            diags_view(diagnostics@) == d0 + eval_exts_spec(iv, cv, ev.take(k as int)),
        decreases n - k,
    {
        assert(ev.take(k + 1).drop_last() =~= ev.take(k as int));
        assert(ev.take(k + 1).last() == exts@[k as int]@);
        let ghost before = diags_view(diagnostics@);
        let inline = &exts[k];
        match lookup_inline(inlines, &inline.name) {
            Some(spec) => {
                eval_dynamic_args(&inline.args, spec.args.as_slice(), inline.span, ctx, diagnostics);
            },
            None => {
                assert(diags_view(diagnostics@) =~= before + Seq::<DiagnosticV>::empty());
            },
        }
        assert(diags_view(diagnostics@) =~= d0 + eval_exts_spec(iv, cv, ev.take(k + 1)));
        k = k + 1;
    }
    assert(ev.take(n as int) =~= ev);
}

/// Evaluates the Markdown texts `evs`.
fn eval_events(
    evs: &Vec<MdEvent>,
    inlines: &Vec<InlineSpec>,
    ctx: &EvalContext,
    diagnostics: &mut Vec<Diagnostic>,
)
    ensures
        diags_view(final(diagnostics)@) == diags_view(old(diagnostics)@) + eval_texts_spec(
            inline_specs_view(inlines@),
            ctx_view(*ctx),
            events_view(evs@),
        ),
{
    let ghost tv = events_view(evs@);
    let ghost iv = inline_specs_view(inlines@);
    let ghost cv = ctx_view(*ctx);
    let ghost d0 = diags_view(diagnostics@);
    let n = evs.len();
    let mut k: usize = 0;
    assert(tv.take(0) =~= Seq::<Seq<char>>::empty());
    assert(diags_view(diagnostics@) =~= d0 + eval_texts_spec(iv, cv, tv.take(0)));
    while k < n
        invariant
            k <= n == evs@.len(),
            tv == events_view(evs@),
            iv == inline_specs_view(inlines@),
            cv == ctx_view(*ctx),
            d0 == diags_view(old(diagnostics)@),
            diags_view(diagnostics@) == d0 + eval_texts_spec(iv, cv, tv.take(k as int)),
        decreases n - k,
    {
        assert(tv.take(k + 1).drop_last() =~= tv.take(k as int));
        let MdEvent::Text(text) = &evs[k];
        assert(tv.take(k + 1).last() == text@);
        eval_text(text, inlines, ctx, diagnostics);
        assert(diags_view(diagnostics@) =~= d0 + eval_texts_spec(iv, cv, tv.take(k + 1)));
        k = k + 1;
    }
    assert(tv.take(n as int) =~= tv);
}

/// Evaluates the dynamic-enum arguments of `nodes` and, inside blocks, of their bodies.
pub fn eval_nodes(
    nodes: &Vec<Node>,
    blocks: &Vec<BlockSpec>,
    inlines: &Vec<InlineSpec>,
    ctx: &EvalContext,
    diagnostics: &mut Vec<Diagnostic>,
)
    ensures
        diags_view(final(diagnostics)@) == diags_view(old(diagnostics)@) + eval_nodes_spec(
            block_specs_view(blocks@),
            inline_specs_view(inlines@),
            ctx_view(*ctx),
            nodes_view(nodes@),
        ),
    decreases nodes@,
{
    let ghost bv = block_specs_view(blocks@);
    let ghost iv = inline_specs_view(inlines@);
    let ghost cv = ctx_view(*ctx);
    let ghost nv = nodes_view(nodes@);
    proof {
        lemma_nodes_view(nodes@);
    }
    let ghost d0 = diags_view(diagnostics@);
    let n = nodes.len();
    let mut k: usize = 0;
    assert(nv.take(0) =~= Seq::<NodeV>::empty());
    assert(diags_view(diagnostics@) =~= d0 + eval_nodes_spec(bv, iv, cv, nv.take(0)));
    while k < n
        invariant
            k <= n == nodes@.len(),
            nv == nodes_view(nodes@),
            nv.len() == n,
            forall|i: int| 0 <= i < n ==> #[trigger] nv[i] == node_view(nodes@[i]),
            bv == block_specs_view(blocks@),
            iv == inline_specs_view(inlines@),
            cv == ctx_view(*ctx),
            d0 == diags_view(old(diagnostics)@),
            diags_view(diagnostics@) == d0 + eval_nodes_spec(bv, iv, cv, nv.take(k as int)),
        decreases n - k,
    {
        assert(nv.take(k + 1).drop_last() =~= nv.take(k as int));
        assert(nv.take(k + 1).last() == node_view(nodes@[k as int]));
        let ghost before = diags_view(diagnostics@);
        match &nodes[k] {
            Node::Markdown(evs) => {
                assert(node_view(nodes@[k as int]) == NodeV::Markdown(events_view(evs@)));
                assert(eval_node_spec(bv, iv, cv, NodeV::Markdown(events_view(evs@)))
                    == eval_texts_spec(iv, cv, events_view(evs@)));
                eval_events(evs, inlines, ctx, diagnostics);
            },
            Node::Block(block) => {
                assert(node_view(nodes@[k as int]) == NodeV::Block(block@));
                assert(eval_node_spec(bv, iv, cv, NodeV::Block(block@)) == eval_block_spec(
                    bv,
                    cv,
                    block@,
                ) + eval_nodes_spec(bv, iv, cv, nodes_view(block.body@)));
                match lookup_block(blocks, &block.name) {
                    Some(spec) => {
                        eval_dynamic_args(
                            &block.args,
                            spec.args.as_slice(),
                            block.span,
                            ctx,
                            diagnostics,
                        );
                    },
                    None => {
                        assert(diags_view(diagnostics@) =~= before + Seq::<DiagnosticV>::empty());
                    },
                }
                assert(decreases_to!(nodes@ => nodes@[k as int]));
                eval_nodes(&block.body, blocks, inlines, ctx, diagnostics);
            },
        }
        assert(diags_view(diagnostics@) =~= d0 + eval_nodes_spec(bv, iv, cv, nv.take(k + 1)));
        k = k + 1;
    }
    assert(nv.take(n as int) =~= nv);
}

/// A copy of `v`.
fn copy_strings(v: &Vec<String>) -> (r: Vec<String>)
    ensures
        strings_view(r@) == strings_view(v@),
{
    let mut r: Vec<String> = Vec::new();
    let n = v.len();
    let mut k: usize = 0;
    while k < n
        invariant
            k <= n == v@.len(),
            strings_view(r@) == strings_view(v@).take(k as int),
        decreases n - k,
    {
        let ghost old_r = r@;
        let c = v[k].clone();
        r.push(c);
        assert(strings_view(r@) =~= strings_view(old_r).push(v@[k as int]@));
        assert(strings_view(r@) =~= strings_view(v@).take(k + 1));
        k = k + 1;
    }
    assert(strings_view(v@).take(n as int) =~= strings_view(v@));
    r
}

/// A copy of `ctx`.
pub fn copy_context(ctx: &EvalContext) -> (r: EvalContext)
    ensures
        r@ == ctx@,
{
    let mut dv: Vec<(String, Vec<String>)> = Vec::new();
    let n = ctx.dynamic_values.len();
    let mut k: usize = 0;
    while k < n
        invariant
            k <= n == ctx.dynamic_values@.len(),
            ctx_view(EvalContext { dynamic_values: dv }) == ctx_view(*ctx).take(k as int),
        decreases n - k,
    {
        let name = ctx.dynamic_values[k].0.clone();
        let vals = copy_strings(&ctx.dynamic_values[k].1);
        let ghost old_dv = dv@;
        assert(ctx_view(EvalContext { dynamic_values: dv }) =~= old_dv.map_values(
            |p: (String, Vec<String>)| (p.0@, strings_view(p.1@)),
        ));
        let ghost entry = (name@, strings_view(vals@));
        dv.push((name, vals));
        assert(ctx_view(EvalContext { dynamic_values: dv }) =~= ctx_view(*ctx).take(k as int).push(entry));
        assert(ctx_view(*ctx)[k as int] == entry);
        assert(ctx_view(EvalContext { dynamic_values: dv }) =~= ctx_view(*ctx).take(k + 1));
        k = k + 1;
    }
    assert(ctx_view(*ctx).take(n as int) =~= ctx_view(*ctx));
    EvalContext { dynamic_values: dv }
}

/// Evaluates the dynamic enums of `doc` against `dynamic_ctx`: `Ok` with a copy of the
/// context when every value is allowed, else `Err` with every diagnostic in document
/// order.
pub fn eval_document(
    doc: &Document,
    blocks: &Vec<BlockSpec>,
    inlines: &Vec<InlineSpec>,
    dynamic_ctx: &EvalContext,
) -> (r: Result<EvalContext, Vec<Diagnostic>>)
    ensures
        ({
            let ds = eval_nodes_spec(
                block_specs_view(blocks@),
                inline_specs_view(inlines@),
                dynamic_ctx@,
                doc@,
            );
            match r {
                Ok(c) => ds.len() == 0 && c@ == dynamic_ctx@,
                Err(v) => ds.len() > 0 && diags_view(v@) == ds,
            }
        }),
{
    let mut diagnostics: Vec<Diagnostic> = Vec::new();
    assert(diags_view(diagnostics@) =~= Seq::<DiagnosticV>::empty());
    eval_nodes(&doc.nodes, blocks, inlines, dynamic_ctx, &mut diagnostics);
    assert(diags_view(diagnostics@) =~= eval_nodes_spec(
        block_specs_view(blocks@),
        inline_specs_view(inlines@),
        dynamic_ctx@,
        doc@,
    ));
    if diagnostics.len() == 0 {
        Ok(copy_context(dynamic_ctx))
    } else {
        Err(diagnostics)
    }
}

} // verus!
