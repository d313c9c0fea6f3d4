use vstd::prelude::*;

use crate::ast::{
    events_view, lemma_nodes_view, node_view, nodes_view, BlockNode, BlockNodeV,
    Document, InlineExt, InlineExtV, MdEvent, Node, NodeV, Span,
};
use crate::diagnostic::{diags_view, error_diag, new_error, Diagnostic, DiagnosticV, ErrorCode};
use crate::forge::args::{validate_args, validate_args_spec};
use crate::forge::inline::{inline_exts_spec, scan_inline};
use crate::forge::{
    block_specs_view, find_block, find_inline, inline_specs_view, lookup_block, lookup_inline,
    BlockSpec, BlockSpecV, InlineSpec, InlineSpecV,
};
use crate::text::chars_of;

verus! {

broadcast use vstd::string::group_string_axioms;

/// The diagnostic for a block that no registered extension names.
pub open spec fn unknown_block_diag(name: Seq<char>, sp: Span) -> DiagnosticV {
    error_diag(ErrorCode::UnknownBlock, "unknown block '"@ + name + "'"@, sp, None)
}

/// The diagnostic for an inline extension that no registered extension names.
pub open spec fn unknown_inline_diag(name: Seq<char>, sp: Span) -> DiagnosticV {
    error_diag(ErrorCode::UnknownInline, "unknown inline '"@ + name + "'"@, sp, None)
}

/// What checking one inline extension reports.
pub open spec fn validate_inline_spec(inlines: Seq<InlineSpecV>, e: InlineExtV) -> Seq<DiagnosticV> {
    match find_inline(inlines, e.name) {
        None => seq![unknown_inline_diag(e.name, e.span)],
        Some(s) => validate_args_spec(e.args, s.args, e.span),
    }
}

/// What checking a list of inline extensions reports, in order.
pub open spec fn validate_exts_spec(inlines: Seq<InlineSpecV>, exts: Seq<InlineExtV>) -> Seq<
    DiagnosticV,
>
    decreases exts.len(),
{
    if exts.len() == 0 {
        Seq::empty()
    } else {
        validate_exts_spec(inlines, exts.drop_last()) + validate_inline_spec(inlines, exts.last())
    }
}

/// What checking the inline extensions of Markdown texts reports, in order.
pub open spec fn validate_texts_spec(inlines: Seq<InlineSpecV>, texts: Seq<Seq<char>>) -> Seq<
    DiagnosticV,
>
    decreases texts.len(),
{
    if texts.len() == 0 {
        Seq::empty()
    } else {
        validate_texts_spec(inlines, texts.drop_last()) + validate_exts_spec(
            inlines,
            inline_exts_spec(texts.last()),
        )
    }
}

/// What checking a block's name and arguments reports.
pub open spec fn validate_block_spec(blocks: Seq<BlockSpecV>, b: BlockNodeV) -> Seq<DiagnosticV> {
    match find_block(blocks, b.name) {
        None => seq![unknown_block_diag(b.name, b.span)],
        Some(s) => validate_args_spec(b.args, s.args, b.span),
    }
}

/// What checking a node reports: a block first, then its body.
pub open spec fn validate_node_spec(
    blocks: Seq<BlockSpecV>,
    inlines: Seq<InlineSpecV>,
    n: NodeV,
) -> Seq<DiagnosticV>
    decreases n,
{
    match n {
        NodeV::Markdown(texts) => validate_texts_spec(inlines, texts),
        NodeV::Block(b) => validate_block_spec(blocks, b) + validate_nodes_spec(
            blocks,
            inlines,
            b.body,
        ),
    }
}

/// What checking a list of nodes reports, in document order.
pub open spec fn validate_nodes_spec(
    blocks: Seq<BlockSpecV>,
    inlines: Seq<InlineSpecV>,
    ns: Seq<NodeV>,
) -> Seq<DiagnosticV>
    decreases ns,
{
    if ns.len() == 0 {
        Seq::empty()
    } else {
        validate_nodes_spec(blocks, inlines, ns.drop_last()) + validate_node_spec(
            blocks,
            inlines,
            ns.last(),
        )
    }
}

/// Checks one inline extension.
pub fn validate_inline(inline: &InlineExt, inlines: &Vec<InlineSpec>, diagnostics: &mut Vec<Diagnostic>)
    ensures
        diags_view(final(diagnostics)@) == diags_view(old(diagnostics)@) + validate_inline_spec(
            inline_specs_view(inlines@),
            inline@,
        ),
{
    match lookup_inline(inlines, &inline.name) {
        None => {
            let mut msg = String::new();
            msg.append("unknown inline '");
            msg.append(inline.name.as_str());
            msg.append("'");
            let ghost before = diags_view(diagnostics@);
            diagnostics.push(new_error(ErrorCode::UnknownInline, msg, inline.span, None));
            assert(diags_view(diagnostics@) =~= before + validate_inline_spec(
                inline_specs_view(inlines@),
                inline@,
            ));
        },
        Some(spec) => {
            validate_args(&inline.args, spec.args.as_slice(), inline.span, diagnostics);
        },
    }
}

/// Checks one block's name and arguments.
pub fn validate_block(block: &BlockNode, blocks: &Vec<BlockSpec>, diagnostics: &mut Vec<Diagnostic>)
    ensures
        diags_view(final(diagnostics)@) == diags_view(old(diagnostics)@) + validate_block_spec(
            block_specs_view(blocks@),
            block@,
        ),
{
    match lookup_block(blocks, &block.name) {
        None => {
            let mut msg = String::new();
            msg.append("unknown block '");
            msg.append(block.name.as_str());
            msg.append("'");
            let ghost before = diags_view(diagnostics@);
            diagnostics.push(new_error(ErrorCode::UnknownBlock, msg, block.span, None));
            assert(diags_view(diagnostics@) =~= before + validate_block_spec(
                block_specs_view(blocks@),
                block@,
            ));
        },
        Some(spec) => {
            validate_args(&block.args, spec.args.as_slice(), block.span, diagnostics);
        },
    }
}

/// Checks the inline extensions of one Markdown text.
fn validate_text(text: &String, inlines: &Vec<InlineSpec>, diagnostics: &mut Vec<Diagnostic>)
    ensures
        diags_view(final(diagnostics)@) == diags_view(old(diagnostics)@) + validate_exts_spec(
            inline_specs_view(inlines@),
            inline_exts_spec(text@),
        ),
{
    // The bytes of `text` are in memory, so their number fits in a `usize`.
    let _byte_len: usize = text.as_str().as_bytes().len();
    let tc = chars_of(text.as_str());
    let (exts, _ranges) = scan_inline(tc.as_slice());
    let ghost ev = inline_exts_spec(text@);
    assert(exts@.map_values(|e: InlineExt| e@) =~= ev);
    let ghost d0 = diags_view(diagnostics@);
    let n = exts.len();
    let mut k: usize = 0;
    assert(ev.take(0) =~= Seq::<InlineExtV>::empty());
    assert(diags_view(diagnostics@) =~= d0 + validate_exts_spec(inline_specs_view(inlines@), ev.take(0)));
    while k < n
        invariant
            k <= n == exts@.len(),
            ev == exts@.map_values(|e: InlineExt| e@),
            d0 == diags_view(old(diagnostics)@),
            diags_view(diagnostics@) == d0 + validate_exts_spec(
                inline_specs_view(inlines@),
                ev.take(k as int),
            ),
        decreases n - k,
    {
        assert(ev.take(k + 1).drop_last() =~= ev.take(k as int));
        assert(ev.take(k + 1).last() == exts@[k as int]@);
        let ghost before = diags_view(diagnostics@);
        validate_inline(&exts[k], inlines, diagnostics);
        assert(diags_view(diagnostics@) =~= d0 + validate_exts_spec(
            inline_specs_view(inlines@),
            ev.take(k + 1),
        ));
        k = k + 1;
    }
    assert(ev.take(n as int) =~= ev);
}

/// Checks the Markdown texts `evs`.
fn validate_events(evs: &Vec<MdEvent>, inlines: &Vec<InlineSpec>, diagnostics: &mut Vec<Diagnostic>)
    ensures
        diags_view(final(diagnostics)@) == diags_view(old(diagnostics)@) + validate_texts_spec(
            inline_specs_view(inlines@),
            events_view(evs@),
        ),
{
    let ghost tv = events_view(evs@);
    let ghost d0 = diags_view(diagnostics@);
    let n = evs.len();
    let mut k: usize = 0;
    assert(tv.take(0) =~= Seq::<Seq<char>>::empty());
    assert(diags_view(diagnostics@) =~= d0 + validate_texts_spec(inline_specs_view(inlines@), tv.take(0)));
    while k < n
        invariant
            k <= n == evs@.len(),
            tv == events_view(evs@),
            d0 == diags_view(old(diagnostics)@),
            diags_view(diagnostics@) == d0 + validate_texts_spec(
                inline_specs_view(inlines@),
                tv.take(k as int),
            ),
        decreases n - k,
    {
        assert(tv.take(k + 1).drop_last() =~= tv.take(k as int));
        let MdEvent::Text(text) = &evs[k];
        assert(tv.take(k + 1).last() == text@);
        validate_text(text, inlines, diagnostics);
        assert(diags_view(diagnostics@) =~= d0 + validate_texts_spec(
            inline_specs_view(inlines@),
            tv.take(k + 1),
        ));
        k = k + 1;
    }
    assert(tv.take(n as int) =~= tv);
}

/// Checks `nodes` and, inside blocks, their bodies.
pub fn validate_nodes(
    nodes: &Vec<Node>,
    blocks: &Vec<BlockSpec>,
    inlines: &Vec<InlineSpec>,
    diagnostics: &mut Vec<Diagnostic>,
)
    ensures
        diags_view(final(diagnostics)@) == diags_view(old(diagnostics)@) + validate_nodes_spec(
            block_specs_view(blocks@),
            inline_specs_view(inlines@),
            nodes_view(nodes@),
        ),
    decreases nodes@,
{
    let ghost bv = block_specs_view(blocks@);
    let ghost iv = inline_specs_view(inlines@);
    let ghost nv = nodes_view(nodes@);
    proof {
        lemma_nodes_view(nodes@);
    }
    let ghost d0 = diags_view(diagnostics@);
    let n = nodes.len();
    let mut k: usize = 0;
    assert(nv.take(0) =~= Seq::<NodeV>::empty());
    assert(diags_view(diagnostics@) =~= d0 + validate_nodes_spec(bv, iv, nv.take(0)));
    while k < n
        invariant
            k <= n == nodes@.len(),
            nv == nodes_view(nodes@),
            nv.len() == n,
            forall|i: int| 0 <= i < n ==> #[trigger] nv[i] == node_view(nodes@[i]),
            bv == block_specs_view(blocks@),
            iv == inline_specs_view(inlines@),
            d0 == diags_view(old(diagnostics)@),
            diags_view(diagnostics@) == d0 + validate_nodes_spec(bv, iv, nv.take(k as int)),
        decreases n - k,
    {
        assert(nv.take(k + 1).drop_last() =~= nv.take(k as int));
        assert(nv.take(k + 1).last() == node_view(nodes@[k as int]));
        let ghost before = diags_view(diagnostics@);
        match &nodes[k] {
            Node::Markdown(evs) => {
                assert(node_view(nodes@[k as int]) == NodeV::Markdown(events_view(evs@)));
                assert(validate_node_spec(bv, iv, NodeV::Markdown(events_view(evs@)))
                    == validate_texts_spec(iv, events_view(evs@)));
                validate_events(evs, inlines, diagnostics);
            },
            Node::Block(block) => {
                assert(node_view(nodes@[k as int]) == NodeV::Block(block@));
                assert(validate_node_spec(bv, iv, NodeV::Block(block@)) == validate_block_spec(
                    bv,
                    block@,
                ) + validate_nodes_spec(bv, iv, nodes_view(block.body@)));
                validate_block(block, blocks, diagnostics);
                let ghost mid = diags_view(diagnostics@);
                assert(decreases_to!(nodes@ => nodes@[k as int]));
                validate_nodes(&block.body, blocks, inlines, diagnostics);
            },
        }
        assert(diags_view(diagnostics@) =~= d0 + validate_nodes_spec(bv, iv, nv.take(k + 1)));
        k = k + 1;
    }
    assert(nv.take(n as int) =~= nv);
}

/// Checks `doc` against the registered extensions: `Ok` when nothing is wrong, else
/// `Err` with every diagnostic in document order.
pub fn validate_document(doc: &Document, blocks: &Vec<BlockSpec>, inlines: &Vec<InlineSpec>) -> (r:
    Result<(), Vec<Diagnostic>>)
    ensures
        ({
            let ds = validate_nodes_spec(block_specs_view(blocks@), inline_specs_view(inlines@), doc@);
            match r {
                Ok(()) => ds.len() == 0,
                Err(v) => ds.len() > 0 && diags_view(v@) == ds,
            }
        }),
{
    let mut diagnostics: Vec<Diagnostic> = Vec::new();
    assert(diags_view(diagnostics@) =~= Seq::<DiagnosticV>::empty());
    validate_nodes(&doc.nodes, blocks, inlines, &mut diagnostics);
    assert(diags_view(diagnostics@) =~= validate_nodes_spec(
        block_specs_view(blocks@),
        inline_specs_view(inlines@),
        doc@,
    ));
    if diagnostics.len() == 0 {
        Ok(())
    } else {
        Err(diagnostics)
    }
}

} // verus!
