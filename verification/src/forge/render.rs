use vstd::prelude::*;

use crate::ast::{
    events_view, lemma_nodes_view, node_view, nodes_view, BlockNodeV, Document, InlineExtV,
    MdEvent, Node, NodeV,
};
use crate::diagnostic::{diags_view, new_error, Diagnostic, DiagnosticV, ErrorCode};
use crate::dom::{lemma_vnodes_view_concat, vnode_view, vnodes_view, VNode, VNodeV};
use crate::forge::inline::{
    hits_match, inline_scan, lemma_inline_scan_bounds, scan_inline, InlineHit,
};
use crate::forge::validate::{unknown_block_diag, unknown_inline_diag};
use crate::forge::{
    block_specs_view, find_block, find_inline, inline_specs_view, lookup_block, lookup_inline,
    BlockSpec, BlockSpecV, DomRenderer, EvalContext, InlineSpec, InlineSpecV,
};
use crate::text::{chars_of, string_of};

verus! {

broadcast use vstd::string::group_string_axioms;

/// What one output node stands for: a piece of text, what the renderer makes of an
/// inline extension, or what it makes of a block and of the items of its body.
pub enum RItem {
    Text(Seq<char>),
    Inline(InlineExtV),
    Block(BlockNodeV, Seq<RItem>),
}

/// The model of the node that `r` makes for `it` under the context `ctx`: a text
/// node for text, and the renderer's node for an inline extension, or for a block
/// with the nodes made for its body's items as children.
pub open spec fn item_out<R: DomRenderer + ?Sized>(
    r: &R,
    ctx: Seq<(Seq<char>, Seq<Seq<char>>)>,
    it: RItem,
) -> VNodeV
    decreases it,
{
    match it {
        RItem::Text(t) => VNodeV::Text(t),
        RItem::Inline(e) => r.inline_node(e, ctx),
        RItem::Block(b, kids) => r.block_node(b, ctx, render_out(r, ctx, kids)),
    }
}

/// The models of the nodes that `r` makes for `items`, in order.
pub open spec fn render_out<R: DomRenderer + ?Sized>(
    r: &R,
    ctx: Seq<(Seq<char>, Seq<Seq<char>>)>,
    items: Seq<RItem>,
) -> Seq<VNodeV>
    decreases items,
{
    if items.len() == 0 {
        Seq::empty()
    } else {
        render_out(r, ctx, items.drop_last()).push(item_out(r, ctx, items[items.len() - 1]))
    }
}

/// The output nodes `out` are, in order, the nodes that `r` makes for `items`.
pub open spec fn renders<R: DomRenderer + ?Sized>(
    r: &R,
    ctx: Seq<(Seq<char>, Seq<Seq<char>>)>,
    out: Seq<VNode>,
    items: Seq<RItem>,
) -> bool {
    vnodes_view(out) == render_out(r, ctx, items)
}

proof fn lemma_render_out_concat<R: DomRenderer + ?Sized>(
    r: &R,
    ctx: Seq<(Seq<char>, Seq<Seq<char>>)>,
    a: Seq<RItem>,
    b: Seq<RItem>,
)
    ensures
        render_out(r, ctx, a + b) == render_out(r, ctx, a) + render_out(r, ctx, b),
    decreases b.len(),
{
    if b.len() == 0 {
        assert(a + b =~= a);
        assert(render_out(r, ctx, a) + render_out(r, ctx, b) =~= render_out(r, ctx, a));
    } else {
        lemma_render_out_concat(r, ctx, a, b.drop_last());
        assert((a + b).drop_last() =~= a + b.drop_last());
        assert((a + b)[(a + b).len() - 1] == b[b.len() - 1]);
        assert(render_out(r, ctx, a) + render_out(r, ctx, b) =~= (render_out(r, ctx, a)
            + render_out(r, ctx, b.drop_last())).push(item_out(r, ctx, b[b.len() - 1])));
    }
}

/// `renders` holds of concatenations.
pub proof fn lemma_renders_concat<R: DomRenderer + ?Sized>(
    r: &R,
    ctx: Seq<(Seq<char>, Seq<Seq<char>>)>,
    o1: Seq<VNode>,
    i1: Seq<RItem>,
    o2: Seq<VNode>,
    i2: Seq<RItem>,
)
    requires
        renders(r, ctx, o1, i1),
        renders(r, ctx, o2, i2),
    ensures
        renders(r, ctx, o1 + o2, i1 + i2),
{
    lemma_vnodes_view_concat(o1, o2);
    lemma_render_out_concat(r, ctx, i1, i2);
}

/// One node renders one item when its model is the item's.
pub proof fn lemma_renders_single<R: DomRenderer + ?Sized>(
    r: &R,
    ctx: Seq<(Seq<char>, Seq<Seq<char>>)>,
    n: VNode,
    it: RItem,
)
    requires
        n@ == item_out(r, ctx, it),
    ensures
        renders(r, ctx, seq![n], seq![it]),
{
    assert(seq![n].drop_last() =~= Seq::<VNode>::empty());
    assert(seq![it].drop_last() =~= Seq::<RItem>::empty());
    assert(vnodes_view(Seq::<VNode>::empty()) == Seq::<VNodeV>::empty());
    assert(render_out(r, ctx, Seq::<RItem>::empty()) == Seq::<VNodeV>::empty());
    assert(vnodes_view(seq![n]) =~= seq![vnode_view(n)]);
    assert(render_out(r, ctx, seq![it]) =~= seq![item_out(r, ctx, it)]);
}

/// No node renders no item.
pub proof fn lemma_renders_empty<R: DomRenderer + ?Sized>(r: &R, ctx: Seq<(Seq<char>, Seq<Seq<char>>)>)
    ensures
        renders(r, ctx, Seq::<VNode>::empty(), Seq::<RItem>::empty()),
{
    assert(vnodes_view(Seq::<VNode>::empty()) =~= Seq::<VNodeV>::empty());
    assert(render_out(r, ctx, Seq::<RItem>::empty()) =~= Seq::<VNodeV>::empty());
}

/// The items and diagnostics for the text `t` from character `last` on, where `hits`
/// are the inline extensions still ahead: the text between extensions, each known
/// extension, and the rest of the text; each unknown extension is reported.
pub open spec fn render_hits(
    inlines: Seq<InlineSpecV>,
    t: Seq<char>,
    hits: Seq<InlineHit>,
    last: int,
) -> (Seq<RItem>, Seq<DiagnosticV>)
    decreases hits.len(),
{
    if hits.len() == 0 {
        if last < t.len() {
            (seq![RItem::Text(t.subrange(last, t.len() as int))], Seq::empty())
        } else {
            (Seq::empty(), Seq::empty())
        }
    } else {
        let h = hits[0];
        let pre: Seq<RItem> = if h.lo > last {
            seq![RItem::Text(t.subrange(last, h.lo))]
        } else {
            Seq::empty()
        };
        let rest = render_hits(inlines, t, hits.drop_first(), h.hi);
        if find_inline(inlines, h.ext.name) is Some {
            (pre + seq![RItem::Inline(h.ext)] + rest.0, rest.1)
        } else {
            (pre + rest.0, seq![unknown_inline_diag(h.ext.name, h.ext.span)] + rest.1)
        }
    }
}

/// The items and diagnostics for one Markdown text.
pub open spec fn render_text_spec(inlines: Seq<InlineSpecV>, t: Seq<char>) -> (Seq<RItem>, Seq<DiagnosticV>) {
    render_hits(inlines, t, inline_scan(t, 0), 0)
}

/// The items and diagnostics for a list of Markdown texts.
pub open spec fn render_texts_spec(inlines: Seq<InlineSpecV>, texts: Seq<Seq<char>>) -> (
    Seq<RItem>,
    Seq<DiagnosticV>,
)
    decreases texts.len(),
{
    if texts.len() == 0 {
        (Seq::empty(), Seq::empty())
    } else {
        let prev = render_texts_spec(inlines, texts.drop_last());
        let cur = render_text_spec(inlines, texts.last());
        (prev.0 + cur.0, prev.1 + cur.1)
    }
}

/// The items and diagnostics for a node: a known block is one item, rendered from
/// its rendered body; an unknown block is reported and left out.
pub open spec fn render_node_spec(
    blocks: Seq<BlockSpecV>,
    inlines: Seq<InlineSpecV>,
    n: NodeV,
) -> (Seq<RItem>, Seq<DiagnosticV>)
    decreases n,
{
    match n {
        NodeV::Markdown(texts) => render_texts_spec(inlines, texts),
        NodeV::Block(b) => if find_block(blocks, b.name) is Some {
            (
                seq![RItem::Block(b, render_nodes_spec(blocks, inlines, b.body).0)],
                render_nodes_spec(blocks, inlines, b.body).1,
            )
        } else {
            (Seq::empty(), seq![unknown_block_diag(b.name, b.span)])
        },
    }
}

/// The items and diagnostics for a list of nodes, in document order.
pub open spec fn render_nodes_spec(
    blocks: Seq<BlockSpecV>,
    inlines: Seq<InlineSpecV>,
    ns: Seq<NodeV>,
) -> (Seq<RItem>, Seq<DiagnosticV>)
    decreases ns,
{
    if ns.len() == 0 {
        (Seq::empty(), Seq::empty())
    } else {
        let prev = render_nodes_spec(blocks, inlines, ns.drop_last());
        let cur = render_node_spec(blocks, inlines, ns.last());
        (prev.0 + cur.0, prev.1 + cur.1)
    }
}

/// Renders one Markdown text: its text pieces and its inline extensions.
pub fn render_markdown_text<R: DomRenderer + ?Sized>(
    inlines: &Vec<InlineSpec>,
    text: &String,
    ctx: &EvalContext,
    renderer: &R,
    diagnostics: &mut Vec<Diagnostic>,
) -> (out: Vec<VNode>)
    ensures
        renders(renderer, ctx@, out@, render_text_spec(inline_specs_view(inlines@), text@).0),
        diags_view(final(diagnostics)@) == diags_view(old(diagnostics)@) + render_text_spec(
            inline_specs_view(inlines@),
            text@,
        ).1,
{
    // The bytes of `text` are in memory, so their number fits in a `usize`.
    let _byte_len: usize = text.as_str().as_bytes().len();
    let tc = chars_of(text.as_str());
    let (exts, ranges) = scan_inline(tc.as_slice());
    let ghost t = tc@;
    let ghost hits = inline_scan(t, 0);
    let ghost iv = inline_specs_view(inlines@);
    let ghost full = render_hits(iv, t, hits, 0);
    proof {
        lemma_inline_scan_bounds(t, 0);
    }
    let ghost d0 = diags_view(diagnostics@);
    let mut out: Vec<VNode> = Vec::new();
    let n = exts.len();
    let len = tc.len();
    let mut last: usize = 0;
    let mut k: usize = 0;
    let ghost mut acc_items: Seq<RItem> = Seq::empty();
    let ghost mut acc_diags: Seq<DiagnosticV> = Seq::empty();
    assert(hits.skip(0) =~= hits);
    assert(full.0 =~= acc_items + render_hits(iv, t, hits.skip(0), 0).0);
    assert(full.1 =~= acc_diags + render_hits(iv, t, hits.skip(0), 0).1);
    assert(diags_view(diagnostics@) =~= d0 + acc_diags);
    while k < n
        invariant
            k <= n == hits.len(),
            len == t.len(),
            t == tc@,
            iv == inline_specs_view(inlines@),
            hits == inline_scan(t, 0),
            hits_match(exts@, ranges@, hits),
            full == render_hits(iv, t, hits, 0),
            forall|a: int|
                0 <= a < hits.len() ==> 0 <= (#[trigger] hits[a]).lo < hits[a].hi <= t.len(),
            forall|a: int, b: int|
                0 <= a < b < hits.len() ==> (#[trigger] hits[a]).hi <= (#[trigger] hits[b]).lo,
            last <= len,
            k > 0 ==> last == hits[k - 1].hi,
            k == 0 ==> last == 0,
            full.0 == acc_items + render_hits(iv, t, hits.skip(k as int), last as int).0,
            full.1 == acc_diags + render_hits(iv, t, hits.skip(k as int), last as int).1,
            renders(renderer, ctx@, out@, acc_items),
            d0 == diags_view(old(diagnostics)@),
            diags_view(diagnostics@) == d0 + acc_diags,
        decreases n - k,
    {
        let ghost h = hits[k as int];
        assert(hits.skip(k as int)[0] == h);
        assert(hits.skip(k as int).drop_first() =~= hits.skip(k + 1));
        assert(exts@[k as int]@ == hits[k as int].ext);
        let lo = ranges[k].0;
        let hi = ranges[k].1;
        assert(lo == h.lo && hi == h.hi);
        let ghost old_out = out@;
        let ghost pre: Seq<RItem> = if h.lo > last {
            seq![RItem::Text(t.subrange(last as int, h.lo))]
        } else {
            Seq::empty()
        };
        let ghost mut seg: Seq<VNode> = Seq::empty();
        proof {
            lemma_renders_empty(renderer, ctx@);
        }
        if lo > last {
            let piece = string_of(tc.as_slice(), last, lo);
            let node = VNode::Text(piece);
            out.push(node);
            proof {
                seg = seq![node];
                assert(pre == seq![RItem::Text(t.subrange(last as int, h.lo))]);
                lemma_renders_single(renderer, ctx@, node, RItem::Text(t.subrange(last as int, h.lo)));
            }
        }
        assert(renders(renderer, ctx@, seg, pre));
        let inline = &exts[k];
        match lookup_inline(inlines, &inline.name) {
            Some(_) => {
                let node = renderer.render_inline(inline, ctx);
                out.push(node);
                proof {
                    let items = pre + seq![RItem::Inline(h.ext)];
                    lemma_renders_single(renderer, ctx@, node, RItem::Inline(h.ext));
                    lemma_renders_concat(renderer, ctx@, seg, pre, seq![node], seq![RItem::Inline(h.ext)]);
                    seg = seg + seq![node];
                    assert(renders(renderer, ctx@, seg, items));
                    lemma_renders_concat(renderer, ctx@, old_out, acc_items, seg, items);
                    assert(out@ =~= old_out + seg);
                    acc_items = acc_items + items;
                }
            },
            None => {
                let mut msg = String::new();
                msg.append("unknown inline '");
                msg.append(inline.name.as_str());
                msg.append("'");
                let d = new_error(ErrorCode::UnknownInline, msg, inline.span, None);
                let ghost before = diags_view(diagnostics@);
                diagnostics.push(d);
                proof {
                    assert(diags_view(diagnostics@) =~= before.push(d@));
                    lemma_renders_concat(renderer, ctx@, old_out, acc_items, seg, pre);
                    assert(out@ =~= old_out + seg);
                    acc_items = acc_items + pre;
                    acc_diags = acc_diags.push(d@);
                }
            },
        }
        proof {
            let r = render_hits(iv, t, hits.skip(k + 1), h.hi);
            assert(full.0 =~= acc_items + r.0);
            assert(full.1 =~= acc_diags + r.1);
        }
        last = hi;
        k = k + 1;
    }
    let ghost old_out = out@;
    if last < len {
        let piece = string_of(tc.as_slice(), last, len);
        let node = VNode::Text(piece);
        out.push(node);
        proof {
            lemma_renders_single(renderer, ctx@, node, RItem::Text(t.subrange(last as int, t.len() as int)));
        }
    }
    proof {
        assert(hits.skip(n as int) =~= Seq::<InlineHit>::empty());
        let r = render_hits(iv, t, hits.skip(n as int), last as int);
        if last < len {
            assert(r.0 == seq![RItem::Text(t.subrange(last as int, t.len() as int))]);
            lemma_renders_concat(renderer, ctx@, old_out, acc_items, seq![out@.last()], r.0);
            assert(out@ =~= old_out + seq![out@.last()]);
        } else {
            assert(r.0 =~= Seq::<RItem>::empty());
            assert(acc_items + r.0 =~= acc_items);
        }
        assert(full.1 =~= acc_diags);
    }
    out
}


/// Renders the Markdown texts `evs`.
fn render_events<R: DomRenderer + ?Sized>(
    inlines: &Vec<InlineSpec>,
    evs: &Vec<MdEvent>,
    ctx: &EvalContext,
    renderer: &R,
    diagnostics: &mut Vec<Diagnostic>,
) -> (out: Vec<VNode>)
    ensures
        renders(renderer, ctx@, out@, render_texts_spec(inline_specs_view(inlines@), events_view(evs@)).0),
        diags_view(final(diagnostics)@) == diags_view(old(diagnostics)@) + render_texts_spec(
            inline_specs_view(inlines@),
            events_view(evs@),
        ).1,
{
    let ghost tv = events_view(evs@);
    let ghost iv = inline_specs_view(inlines@);
    let ghost d0 = diags_view(diagnostics@);
    let mut out: Vec<VNode> = Vec::new();
    let n = evs.len();
    let mut k: usize = 0;
    assert(tv.take(0) =~= Seq::<Seq<char>>::empty());
    assert(diags_view(diagnostics@) =~= d0 + render_texts_spec(iv, tv.take(0)).1);
    while k < n
        invariant
            k <= n == evs@.len(),
            tv == events_view(evs@),
            iv == inline_specs_view(inlines@),
            d0 == diags_view(old(diagnostics)@),
            renders(renderer, ctx@, out@, render_texts_spec(iv, tv.take(k as int)).0),
            diags_view(diagnostics@) == d0 + render_texts_spec(iv, tv.take(k as int)).1,
        decreases n - k,
    {
        assert(tv.take(k + 1).drop_last() =~= tv.take(k as int));
        let MdEvent::Text(text) = &evs[k];
        assert(tv.take(k + 1).last() == text@);
        let ghost old_out = out@;
        let mut seg = render_markdown_text(inlines, text, ctx, renderer, diagnostics);
        let ghost segv = seg@;
        out.append(&mut seg);
        proof {
            lemma_renders_concat(renderer, ctx@, 
                old_out,
                render_texts_spec(iv, tv.take(k as int)).0,
                segv,
                render_text_spec(iv, text@).0,
            );
        }
        assert(diags_view(diagnostics@) =~= d0 + render_texts_spec(iv, tv.take(k + 1)).1);
        k = k + 1;
    }
    assert(tv.take(n as int) =~= tv);
    out
}

/// Renders `nodes`: text pieces and known inline extensions of Markdown, and known
/// blocks from their rendered bodies; unknown ones are reported.
pub fn render_nodes<R: DomRenderer + ?Sized>(
    blocks: &Vec<BlockSpec>,
    inlines: &Vec<InlineSpec>,
    nodes: &Vec<Node>,
    ctx: &EvalContext,
    renderer: &R,
    diagnostics: &mut Vec<Diagnostic>,
) -> (out: Vec<VNode>)
    ensures
        renders(
            renderer,
            ctx@,
            out@,
            render_nodes_spec(block_specs_view(blocks@), inline_specs_view(inlines@), nodes_view(nodes@)).0,
        ),
        diags_view(final(diagnostics)@) == diags_view(old(diagnostics)@) + render_nodes_spec(
            block_specs_view(blocks@),
            inline_specs_view(inlines@),
            nodes_view(nodes@),
        ).1,
    decreases nodes@,
{
    let ghost bv = block_specs_view(blocks@);
    let ghost iv = inline_specs_view(inlines@);
    let ghost nv = nodes_view(nodes@);
    proof {
        lemma_nodes_view(nodes@);
    }
    let ghost d0 = diags_view(diagnostics@);
    let mut out: Vec<VNode> = Vec::new();
    let n = nodes.len();
    let mut k: usize = 0;
    assert(nv.take(0) =~= Seq::<NodeV>::empty());
    assert(diags_view(diagnostics@) =~= d0 + render_nodes_spec(bv, iv, nv.take(0)).1);
    while k < n
        invariant
            k <= n == nodes@.len(),
            nv == nodes_view(nodes@),
            nv.len() == n,
            forall|i: int| 0 <= i < n ==> #[trigger] nv[i] == node_view(nodes@[i]),
            bv == block_specs_view(blocks@),
            iv == inline_specs_view(inlines@),
            d0 == diags_view(old(diagnostics)@),
            renders(renderer, ctx@, out@, render_nodes_spec(bv, iv, nv.take(k as int)).0),
            diags_view(diagnostics@) == d0 + render_nodes_spec(bv, iv, nv.take(k as int)).1,
        decreases n - k,
    {
        assert(nv.take(k + 1).drop_last() =~= nv.take(k as int));
        assert(nv.take(k + 1).last() == node_view(nodes@[k as int]));
        let ghost before = diags_view(diagnostics@);
        let ghost old_out = out@;
        let ghost prev = render_nodes_spec(bv, iv, nv.take(k as int));
        match &nodes[k] {
            Node::Markdown(evs) => {
                assert(node_view(nodes@[k as int]) == NodeV::Markdown(events_view(evs@)));
                assert(render_node_spec(bv, iv, NodeV::Markdown(events_view(evs@)))
                    == render_texts_spec(iv, events_view(evs@)));
                let mut seg = render_events(inlines, evs, ctx, renderer, diagnostics);
                let ghost segv = seg@;
                out.append(&mut seg);
                proof {
                    lemma_renders_concat(renderer, ctx@, old_out, prev.0, segv, render_texts_spec(iv, events_view(evs@)).0);
                }
            },
            Node::Block(block) => {
                assert(node_view(nodes@[k as int]) == NodeV::Block(block@));
                match lookup_block(blocks, &block.name) {
                    Some(_) => {
                        let ghost kids = render_nodes_spec(bv, iv, nodes_view(block.body@)).0;
                        assert(render_node_spec(bv, iv, NodeV::Block(block@)) == (
                            seq![RItem::Block(block@, kids)],
                            render_nodes_spec(bv, iv, nodes_view(block.body@)).1,
                        ));
                        assert(decreases_to!(nodes@ => nodes@[k as int]));
                        let children = render_nodes(blocks, inlines, &block.body, ctx, renderer, diagnostics);
                        let ghost cv = vnodes_view(children@);
                        let node = renderer.render_block(block, ctx, children);
                        out.push(node);
                        proof {
                            let items = seq![RItem::Block(block@, kids)];
                            assert(node@ == item_out(renderer, ctx@, RItem::Block(block@, kids)));
                            lemma_renders_single(renderer, ctx@, node, RItem::Block(block@, kids));
                            lemma_renders_concat(renderer, ctx@, old_out, prev.0, seq![node], items);
                            assert(out@ =~= old_out + seq![node]);
                        }
                    },
                    None => {
                        assert(render_node_spec(bv, iv, NodeV::Block(block@)) == (
                            Seq::<RItem>::empty(),
                            seq![unknown_block_diag(block@.name, block@.span)],
                        ));
                        let mut msg = String::new();
                        msg.append("unknown block '");
                        msg.append(block.name.as_str());
                        msg.append("'");
                        let d = new_error(ErrorCode::UnknownBlock, msg, block.span, None);
                        diagnostics.push(d);
                        proof {
                            assert(diags_view(diagnostics@) =~= before.push(d@));
                            assert(prev.0 + Seq::<RItem>::empty() =~= prev.0);
                        }
                    },
                }
            },
        }
        proof {
            let cur = render_node_spec(bv, iv, node_view(nodes@[k as int]));
            assert(render_nodes_spec(bv, iv, nv.take(k + 1)) == (prev.0 + cur.0, prev.1 + cur.1));
        }
        assert(diags_view(diagnostics@) =~= d0 + render_nodes_spec(bv, iv, nv.take(k + 1)).1);
        k = k + 1;
    }
    assert(nv.take(n as int) =~= nv);
    out
}

/// Renders `doc`: `Ok` with its nodes when every block and inline extension is known,
/// else `Err` with every diagnostic in document order.
pub fn render_document<R: DomRenderer + ?Sized>(
    blocks: &Vec<BlockSpec>,
    inlines: &Vec<InlineSpec>,
    doc: &Document,
    ctx: &EvalContext,
    renderer: &R,
) -> (r: Result<Vec<VNode>, Vec<Diagnostic>>)
    ensures
        ({
            let spec = render_nodes_spec(block_specs_view(blocks@), inline_specs_view(inlines@), doc@);
            match r {
                Ok(v) => spec.1.len() == 0 && renders(renderer, ctx@, v@, spec.0),
                Err(ds) => spec.1.len() > 0 && diags_view(ds@) == spec.1,
            }
        }),
{
    let mut diagnostics: Vec<Diagnostic> = Vec::new();
    assert(diags_view(diagnostics@) =~= Seq::<DiagnosticV>::empty());
    let nodes = render_nodes(blocks, inlines, &doc.nodes, ctx, renderer, &mut diagnostics);
    assert(diags_view(diagnostics@) =~= render_nodes_spec(
        block_specs_view(blocks@),
        inline_specs_view(inlines@),
        doc@,
    ).1);
    if diagnostics.len() == 0 {
        Ok(nodes)
    } else {
        Err(diagnostics)
    }
}

} // verus!
