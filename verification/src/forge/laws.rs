use vstd::prelude::*;

use crate::ast::{ArgSpec, ArgValueV, BlockNodeV, InlineExtV, NodeV, Span};
use crate::diagnostic::{DiagnosticV, ErrorCode, Level};
use crate::forge::args::{
    check_arg, check_args, eval_arg, eval_args_spec, missing_diags, validate_args_spec,
};
use crate::forge::eval::{
    eval_block_spec, eval_exts_spec, eval_inline_spec, eval_node_spec, eval_nodes_spec,
    eval_texts_spec,
};
use crate::forge::inline::{inline_exts_spec, inline_scan, InlineHit};
use crate::forge::args::parse_args_spec;
use crate::forge::parse::{
    lemma_plain_markdown, line_offset, md_flush, md_text, missing_name_diag, not_closed_diag,
    open_span, parse_from, parse_spec, plain_line, split_lines, strip_cr,
};
use crate::text::{
    blen, fence, first_index, lemma_blen_single, lemma_encode_concat, lemma_first_index, trim, words,
};
use vstd::utf8::encode_utf8;
use crate::forge::render::{
    render_hits, render_node_spec, render_nodes_spec, render_text_spec, render_texts_spec, RItem,
};
use crate::forge::validate::{
    unknown_block_diag, unknown_inline_diag, validate_block_spec, validate_exts_spec, validate_inline_spec, validate_node_spec,
    validate_nodes_spec, validate_texts_spec,
};
use crate::forge::{find_block, find_inline, BlockSpecV, InlineSpecV};

verus! {

/// No diagnostic of `ds` has code `c`.
pub open spec fn lacks_code(ds: Seq<DiagnosticV>, c: ErrorCode) -> bool {
    forall|k: int| 0 <= k < ds.len() ==> (#[trigger] ds[k]).code != c
}

/// Every diagnostic of `ds` has code `c`.
pub open spec fn only_code(ds: Seq<DiagnosticV>, c: ErrorCode) -> bool {
    forall|k: int| 0 <= k < ds.len() ==> (#[trigger] ds[k]).code == c
}

/// Every diagnostic of `ds` is an error.
pub open spec fn all_errors(ds: Seq<DiagnosticV>) -> bool {
    forall|k: int| 0 <= k < ds.len() ==> (#[trigger] ds[k]).level == Level::Error
}

spec fn errors_lacking(ds: Seq<DiagnosticV>, c: ErrorCode) -> bool {
    forall|k: int| 0 <= k < ds.len() ==> (#[trigger] ds[k]).code != c && ds[k].level == Level::Error
}

spec fn errors_only(ds: Seq<DiagnosticV>, c: ErrorCode) -> bool {
    forall|k: int| 0 <= k < ds.len() ==> (#[trigger] ds[k]).code == c && ds[k].level == Level::Error
}

proof fn lemma_lacks_concat(a: Seq<DiagnosticV>, b: Seq<DiagnosticV>, c: ErrorCode)
    requires
        errors_lacking(a, c),
        errors_lacking(b, c),
    ensures
        errors_lacking(a + b, c),
{
    assert forall|k: int| 0 <= k < (a + b).len() implies (#[trigger] (a + b)[k]).code != c && (a + b)[k].level == Level::Error by {
        if k >= a.len() {
            assert((a + b)[k] == b[k - a.len()]);
        }
    }
}

proof fn lemma_only_concat(a: Seq<DiagnosticV>, b: Seq<DiagnosticV>, c: ErrorCode)
    requires
        errors_only(a, c),
        errors_only(b, c),
    ensures
        errors_only(a + b, c),
{
    assert forall|k: int| 0 <= k < (a + b).len() implies (#[trigger] (a + b)[k]).code == c && (a + b)[k].level == Level::Error by {
        if k >= a.len() {
            assert((a + b)[k] == b[k - a.len()]);
        }
    }
}

proof fn lemma_validate_args_static(
    actual: Seq<(Seq<char>, ArgValueV)>,
    spec: Seq<(Seq<char>, ArgSpec)>,
    sp: Span,
)
    ensures
        errors_lacking(validate_args_spec(actual, spec, sp), ErrorCode::InvalidDynamicEnumValue),
{
    lemma_missing_static(actual, spec, sp);
    lemma_check_args_static(actual, spec, sp);
    lemma_lacks_concat(
        missing_diags(actual, spec, sp),
        check_args(actual, spec, sp),
        ErrorCode::InvalidDynamicEnumValue,
    );
}

proof fn lemma_missing_static(actual: Seq<(Seq<char>, ArgValueV)>, spec: Seq<(Seq<char>, ArgSpec)>, sp: Span)
    ensures
        errors_lacking(missing_diags(actual, spec, sp), ErrorCode::InvalidDynamicEnumValue),
    decreases spec.len(),
{
    if spec.len() > 0 {
        lemma_missing_static(actual, spec.drop_last(), sp);
    }
}

proof fn lemma_check_args_static(
    actual: Seq<(Seq<char>, ArgValueV)>,
    spec: Seq<(Seq<char>, ArgSpec)>,
    sp: Span,
)
    ensures
        errors_lacking(check_args(actual, spec, sp), ErrorCode::InvalidDynamicEnumValue),
    decreases actual.len(),
{
    if actual.len() > 0 {
        lemma_check_args_static(actual.drop_last(), spec, sp);
        let d = check_arg(actual.last().0, actual.last().1, spec, sp);
        assert(errors_lacking(d, ErrorCode::InvalidDynamicEnumValue));
        lemma_lacks_concat(
            check_args(actual.drop_last(), spec, sp),
            d,
            ErrorCode::InvalidDynamicEnumValue,
        );
    }
}

proof fn lemma_validate_exts_static(inlines: Seq<InlineSpecV>, exts: Seq<InlineExtV>)
    ensures
        errors_lacking(validate_exts_spec(inlines, exts), ErrorCode::InvalidDynamicEnumValue),
    decreases exts.len(),
{
    if exts.len() > 0 {
        lemma_validate_exts_static(inlines, exts.drop_last());
        let e = exts.last();
        if let Some(s) = find_inline(inlines, e.name) {
            lemma_validate_args_static(e.args, s.args, e.span);
        }
        lemma_lacks_concat(
            validate_exts_spec(inlines, exts.drop_last()),
            validate_inline_spec(inlines, e),
            ErrorCode::InvalidDynamicEnumValue,
        );
    }
}

proof fn lemma_validate_texts_static(inlines: Seq<InlineSpecV>, texts: Seq<Seq<char>>)
    ensures
        errors_lacking(validate_texts_spec(inlines, texts), ErrorCode::InvalidDynamicEnumValue),
    decreases texts.len(),
{
    if texts.len() > 0 {
        lemma_validate_texts_static(inlines, texts.drop_last());
        lemma_validate_exts_static(inlines, inline_exts_spec(texts.last()));
        lemma_lacks_concat(
            validate_texts_spec(inlines, texts.drop_last()),
            validate_exts_spec(inlines, inline_exts_spec(texts.last())),
            ErrorCode::InvalidDynamicEnumValue,
        );
    }
}

proof fn lemma_validate_node_static(blocks: Seq<BlockSpecV>, inlines: Seq<InlineSpecV>, n: NodeV)
    ensures
        errors_lacking(validate_node_spec(blocks, inlines, n), ErrorCode::InvalidDynamicEnumValue),
    decreases n,
{
    match n {
        NodeV::Markdown(texts) => {
            lemma_validate_texts_static(inlines, texts);
        },
        NodeV::Block(b) => {
            if let Some(s) = find_block(blocks, b.name) {
                lemma_validate_args_static(b.args, s.args, b.span);
            }
            lemma_validate_nodes_static(blocks, inlines, b.body);
            lemma_lacks_concat(
                validate_block_spec(blocks, b),
                validate_nodes_spec(blocks, inlines, b.body),
                ErrorCode::InvalidDynamicEnumValue,
            );
        },
    }
}

/// Validation never reports a dynamic enum: those are left to evaluation.
pub proof fn lemma_validate_static(blocks: Seq<BlockSpecV>, inlines: Seq<InlineSpecV>, ns: Seq<NodeV>)
    ensures
        lacks_code(validate_nodes_spec(blocks, inlines, ns), ErrorCode::InvalidDynamicEnumValue),
{
    lemma_validate_nodes_static(blocks, inlines, ns);
}

proof fn lemma_validate_nodes_static(blocks: Seq<BlockSpecV>, inlines: Seq<InlineSpecV>, ns: Seq<NodeV>)
    ensures
        errors_lacking(validate_nodes_spec(blocks, inlines, ns), ErrorCode::InvalidDynamicEnumValue),
    decreases ns,
{
    if ns.len() > 0 {
        lemma_validate_nodes_static(blocks, inlines, ns.drop_last());
        lemma_validate_node_static(blocks, inlines, ns.last());
        lemma_lacks_concat(
            validate_nodes_spec(blocks, inlines, ns.drop_last()),
            validate_node_spec(blocks, inlines, ns.last()),
            ErrorCode::InvalidDynamicEnumValue,
        );
    }
}

proof fn lemma_eval_args_dynamic(
    actual: Seq<(Seq<char>, ArgValueV)>,
    spec: Seq<(Seq<char>, ArgSpec)>,
    sp: Span,
    ctx: Seq<(Seq<char>, Seq<Seq<char>>)>,
)
    ensures
        errors_only(eval_args_spec(actual, spec, sp, ctx), ErrorCode::InvalidDynamicEnumValue),
    decreases spec.len(),
{
    if spec.len() > 0 {
        lemma_eval_args_dynamic(actual, spec.drop_last(), sp, ctx);
        let d = eval_arg(actual, spec.last().0, spec.last().1.arg_type, sp, ctx);
        assert(errors_only(d, ErrorCode::InvalidDynamicEnumValue));
        lemma_only_concat(
            eval_args_spec(actual, spec.drop_last(), sp, ctx),
            d,
            ErrorCode::InvalidDynamicEnumValue,
        );
    }
}

proof fn lemma_eval_exts_dynamic(
    inlines: Seq<InlineSpecV>,
    ctx: Seq<(Seq<char>, Seq<Seq<char>>)>,
    exts: Seq<InlineExtV>,
)
    ensures
        errors_only(eval_exts_spec(inlines, ctx, exts), ErrorCode::InvalidDynamicEnumValue),
    decreases exts.len(),
{
    if exts.len() > 0 {
        lemma_eval_exts_dynamic(inlines, ctx, exts.drop_last());
        let e = exts.last();
        if let Some(s) = find_inline(inlines, e.name) {
            lemma_eval_args_dynamic(e.args, s.args, e.span, ctx);
        }
        lemma_only_concat(
            eval_exts_spec(inlines, ctx, exts.drop_last()),
            eval_inline_spec(inlines, ctx, e),
            ErrorCode::InvalidDynamicEnumValue,
        );
    }
}

proof fn lemma_eval_texts_dynamic(
    inlines: Seq<InlineSpecV>,
    ctx: Seq<(Seq<char>, Seq<Seq<char>>)>,
    texts: Seq<Seq<char>>,
)
    ensures
        errors_only(eval_texts_spec(inlines, ctx, texts), ErrorCode::InvalidDynamicEnumValue),
    decreases texts.len(),
{
    if texts.len() > 0 {
        lemma_eval_texts_dynamic(inlines, ctx, texts.drop_last());
        lemma_eval_exts_dynamic(inlines, ctx, inline_exts_spec(texts.last()));
        lemma_only_concat(
            eval_texts_spec(inlines, ctx, texts.drop_last()),
            eval_exts_spec(inlines, ctx, inline_exts_spec(texts.last())),
            ErrorCode::InvalidDynamicEnumValue,
        );
    }
}

proof fn lemma_eval_node_dynamic(
    blocks: Seq<BlockSpecV>,
    inlines: Seq<InlineSpecV>,
    ctx: Seq<(Seq<char>, Seq<Seq<char>>)>,
    n: NodeV,
)
    ensures
        errors_only(eval_node_spec(blocks, inlines, ctx, n), ErrorCode::InvalidDynamicEnumValue),
    decreases n,
{
    match n {
        NodeV::Markdown(texts) => {
            lemma_eval_texts_dynamic(inlines, ctx, texts);
        },
        NodeV::Block(b) => {
            if let Some(s) = find_block(blocks, b.name) {
                lemma_eval_args_dynamic(b.args, s.args, b.span, ctx);
            }
            lemma_eval_nodes_dynamic(blocks, inlines, ctx, b.body);
            lemma_only_concat(
                eval_block_spec(blocks, ctx, b),
                eval_nodes_spec(blocks, inlines, ctx, b.body),
                ErrorCode::InvalidDynamicEnumValue,
            );
        },
    }
}

proof fn lemma_eval_nodes_dynamic(
    blocks: Seq<BlockSpecV>,
    inlines: Seq<InlineSpecV>,
    ctx: Seq<(Seq<char>, Seq<Seq<char>>)>,
    ns: Seq<NodeV>,
)
    ensures
        errors_only(eval_nodes_spec(blocks, inlines, ctx, ns), ErrorCode::InvalidDynamicEnumValue),
    decreases ns,
{
    if ns.len() > 0 {
        lemma_eval_nodes_dynamic(blocks, inlines, ctx, ns.drop_last());
        lemma_eval_node_dynamic(blocks, inlines, ctx, ns.last());
        lemma_only_concat(
            eval_nodes_spec(blocks, inlines, ctx, ns.drop_last()),
            eval_node_spec(blocks, inlines, ctx, ns.last()),
            ErrorCode::InvalidDynamicEnumValue,
        );
    }
}

/// Evaluation reports dynamic enums and nothing else: names, presence and static
/// types are validation's business.
pub proof fn lemma_eval_dynamic_only(
    blocks: Seq<BlockSpecV>,
    inlines: Seq<InlineSpecV>,
    ctx: Seq<(Seq<char>, Seq<Seq<char>>)>,
    ns: Seq<NodeV>,
)
    ensures
        only_code(eval_nodes_spec(blocks, inlines, ctx, ns), ErrorCode::InvalidDynamicEnumValue),
{
    lemma_eval_nodes_dynamic(blocks, inlines, ctx, ns);
}


proof fn lemma_validate_exts_known(inlines: Seq<InlineSpecV>, exts: Seq<InlineExtV>)
    requires
        validate_exts_spec(inlines, exts).len() == 0,
    ensures
        forall|k: int| 0 <= k < exts.len() ==> find_inline(inlines, (#[trigger] exts[k]).name) is Some,
    decreases exts.len(),
{
    if exts.len() > 0 {
        lemma_validate_exts_known(inlines, exts.drop_last());
        assert forall|k: int| 0 <= k < exts.len() implies find_inline(
            inlines,
            (#[trigger] exts[k]).name,
        ) is Some by {
            if k < exts.len() - 1 {
                assert(exts[k] == exts.drop_last()[k]);
            }
        }
    }
}

proof fn lemma_render_hits_clean(inlines: Seq<InlineSpecV>, t: Seq<char>, hits: Seq<InlineHit>, last: int)
    requires
        forall|k: int| 0 <= k < hits.len() ==> find_inline(inlines, (#[trigger] hits[k]).ext.name) is Some,
    ensures
        render_hits(inlines, t, hits, last).1.len() == 0,
    decreases hits.len(),
{
    if hits.len() > 0 {
        assert(find_inline(inlines, hits[0].ext.name) is Some);
        assert forall|k: int| 0 <= k < hits.drop_first().len() implies find_inline(
            inlines,
            (#[trigger] hits.drop_first()[k]).ext.name,
        ) is Some by {
            assert(hits.drop_first()[k] == hits[k + 1]);
        }
        lemma_render_hits_clean(inlines, t, hits.drop_first(), hits[0].hi);
    }
}

proof fn lemma_texts_clean(inlines: Seq<InlineSpecV>, texts: Seq<Seq<char>>)
    requires
        validate_texts_spec(inlines, texts).len() == 0,
    ensures
        render_texts_spec(inlines, texts).1.len() == 0,
    decreases texts.len(),
{
    if texts.len() > 0 {
        lemma_texts_clean(inlines, texts.drop_last());
        let t = texts.last();
        let exts = inline_exts_spec(t);
        let hits = inline_scan(t, 0);
        lemma_validate_exts_known(inlines, exts);
        assert forall|k: int| 0 <= k < hits.len() implies find_inline(
            inlines,
            (#[trigger] hits[k]).ext.name,
        ) is Some by {
            assert(exts[k] == hits[k].ext);
        }
        lemma_render_hits_clean(inlines, t, hits, 0);
    }
}

proof fn lemma_node_clean(blocks: Seq<BlockSpecV>, inlines: Seq<InlineSpecV>, n: NodeV)
    requires
        validate_node_spec(blocks, inlines, n).len() == 0,
    ensures
        render_node_spec(blocks, inlines, n).1.len() == 0,
    decreases n,
{
    match n {
        NodeV::Markdown(texts) => {
            lemma_texts_clean(inlines, texts);
        },
        NodeV::Block(b) => {
            lemma_nodes_clean(blocks, inlines, b.body);
        },
    }
}

proof fn lemma_nodes_clean(blocks: Seq<BlockSpecV>, inlines: Seq<InlineSpecV>, ns: Seq<NodeV>)
    requires
        validate_nodes_spec(blocks, inlines, ns).len() == 0,
    ensures
        render_nodes_spec(blocks, inlines, ns).1.len() == 0,
    decreases ns,
{
    if ns.len() > 0 {
        lemma_nodes_clean(blocks, inlines, ns.drop_last());
        lemma_node_clean(blocks, inlines, ns.last());
    }
}

/// A document that validates renders: rendering only fails on blocks and inline
/// extensions that are not registered, which validation reports.
pub proof fn lemma_valid_renders(blocks: Seq<BlockSpecV>, inlines: Seq<InlineSpecV>, ns: Seq<NodeV>)
    requires
        validate_nodes_spec(blocks, inlines, ns).len() == 0,
    ensures
        render_nodes_spec(blocks, inlines, ns).1.len() == 0,
{
    lemma_nodes_clean(blocks, inlines, ns);
}

proof fn lemma_inline_scan_none(t: Seq<char>, i: int)
    requires
        0 <= i,
        forall|k: int| i <= k < t.len() ==> t[k] != '{',
    ensures
        inline_scan(t, i) == Seq::<InlineHit>::empty(),
    decreases t.len() - i,
{
    if i < t.len() {
        lemma_inline_scan_none(t, i + 1);
    }
}

/// A Markdown text without `{` holds no inline extension: it renders to itself as
/// one text node (to nothing when empty), with nothing to report.
pub proof fn lemma_plain_text_renders(inlines: Seq<InlineSpecV>, t: Seq<char>)
    requires
        forall|k: int| 0 <= k < t.len() ==> t[k] != '{',
    ensures
        render_text_spec(inlines, t) == (
            if t.len() > 0 { seq![RItem::Text(t)] } else { Seq::<RItem>::empty() },
            Seq::<DiagnosticV>::empty(),
        ),
{
    lemma_inline_scan_none(t, 0);
    assert(t.subrange(0, t.len() as int) =~= t);
}

proof fn lemma_split_lines_lack(s: Seq<char>, c: char)
    requires
        forall|j: int| 0 <= j < s.len() ==> s[j] != c,
    ensures
        forall|k: int, j: int|
            #![trigger split_lines(s)[k][j]]
            0 <= k < split_lines(s).len() && 0 <= j < split_lines(s)[k].len() ==> split_lines(s)[k][j] != c,
    decreases s.len(),
{
    if s.len() > 0 {
        let n = crate::text::first_index(s, '\n') as int;
        if n < s.len() {
            crate::text::lemma_first_index(s, '\n');
            let rest = s.skip(n + 1);
            assert forall|j: int| 0 <= j < rest.len() implies rest[j] != c by {
                assert(rest[j] == s[j + n + 1]);
            }
            lemma_split_lines_lack(rest, c);
            let first = strip_cr(s.take(n));
            assert forall|j: int| 0 <= j < first.len() implies first[j] != c by {
                assert(first[j] == s[j]);
            }
            assert forall|k: int, j: int|
                #![trigger split_lines(s)[k][j]]
                0 <= k < split_lines(s).len() && 0 <= j < split_lines(s)[k].len() implies split_lines(s)[k][j] != c by {
                if k > 0 {
                    assert(split_lines(s)[k] == split_lines(rest)[k - 1]);
                }
            }
        }
    }
}

proof fn lemma_md_text_lacks(lines: Seq<Seq<char>>)
    requires
        forall|k: int, j: int| #![trigger lines[k][j]] 0 <= k < lines.len() && 0 <= j < lines[k].len() ==> lines[k][j] != '{',
    ensures
        forall|j: int| 0 <= j < md_text(lines).len() ==> md_text(lines)[j] != '{',
    decreases lines.len(),
{
    if lines.len() > 0 {
        let rest = lines.drop_first();
        assert forall|k: int, j: int| #![trigger rest[k][j]] 0 <= k < rest.len() && 0 <= j < rest[k].len() implies rest[k][j] != '{' by {
            assert(rest[k] == lines[k + 1]);
        }
        lemma_md_text_lacks(rest);
        let head = lines[0] + seq!['\n'];
        assert forall|j: int| 0 <= j < md_text(lines).len() implies md_text(lines)[j] != '{' by {
            if j < lines[0].len() {
                assert(md_text(lines)[j] == lines[0][j]);
            } else if j == lines[0].len() {
                assert(md_text(lines)[j] == '\n');
            } else {
                assert(md_text(lines)[j] == md_text(rest)[j - head.len()]);
            }
        }
    }
}

/// A document in which no line opens or closes a block and no `{` occurs parses
/// and renders back to its text: one text node holding its lines, each followed by a
/// newline (nothing for an empty document), whatever is registered, with nothing to
/// report.
pub proof fn lemma_plain_document_renders(blocks: Seq<BlockSpecV>, inlines: Seq<InlineSpecV>, input: Seq<char>)
    requires
        forall|k: int| 0 <= k < split_lines(input).len() ==> plain_line(#[trigger] split_lines(input)[k]),
        forall|j: int| 0 <= j < input.len() ==> input[j] != '{',
    ensures
        parse_spec(input).diags.len() == 0,
        ({
            let md = md_text(split_lines(input));
            render_nodes_spec(blocks, inlines, parse_spec(input).nodes) == (
                if md.len() > 0 { seq![RItem::Text(md)] } else { Seq::<RItem>::empty() },
                Seq::<DiagnosticV>::empty(),
            )
        }),
{
    let lines = split_lines(input);
    let md = md_text(lines);
    lemma_plain_markdown(input);
    lemma_split_lines_lack(input, '{');
    lemma_md_text_lacks(lines);
    lemma_plain_text_renders(inlines, md);
    let ns = md_flush(md);
    if md.len() > 0 {
        let texts = seq![md];
        let cur = render_text_spec(inlines, md);
        assert(cur.0 == seq![RItem::Text(md)] && cur.1 == Seq::<DiagnosticV>::empty());
        assert(texts.drop_last() =~= Seq::<Seq<char>>::empty());
        assert(texts.last() == md);
        let e = render_texts_spec(inlines, Seq::<Seq<char>>::empty());
        assert(e == (Seq::<RItem>::empty(), Seq::<DiagnosticV>::empty()));
        let tr = render_texts_spec(inlines, texts);
        assert(tr.0 == e.0 + cur.0 && tr.1 == e.1 + cur.1);
        assert(tr.0 =~= seq![RItem::Text(md)]);
        assert(tr.1 =~= Seq::<DiagnosticV>::empty());
        assert(ns.drop_last() =~= Seq::<NodeV>::empty());
        assert(ns.last() == NodeV::Markdown(texts));
        let ne = render_nodes_spec(blocks, inlines, Seq::<NodeV>::empty());
        assert(ne == (Seq::<RItem>::empty(), Seq::<DiagnosticV>::empty()));
        let nc = render_node_spec(blocks, inlines, ns.last());
        assert(nc == tr);
        let nr = render_nodes_spec(blocks, inlines, ns);
        assert(nr.0 == ne.0 + nc.0 && nr.1 == ne.1 + nc.1);
        assert(nr.0 =~= seq![RItem::Text(md)]);
        assert(nr.1 =~= Seq::<DiagnosticV>::empty());
    }
}

proof fn lemma_all_errors_concat(a: Seq<DiagnosticV>, b: Seq<DiagnosticV>)
    requires
        all_errors(a),
        all_errors(b),
    ensures
        all_errors(a + b),
{
    assert forall|k: int| 0 <= k < (a + b).len() implies (#[trigger] (a + b)[k]).level == Level::Error by {
        if k >= a.len() {
            assert((a + b)[k] == b[k - a.len()]);
        }
    }
}

proof fn lemma_parse_args_errors(tokens: Seq<Seq<char>>, start: int)
    ensures
        all_errors(parse_args_spec(tokens, start).1),
    decreases tokens.len(),
{
    if tokens.len() > 0 {
        lemma_parse_args_errors(tokens.drop_last(), start);
        let d = parse_args_spec(tokens.drop_last(), start).1;
        let all = parse_args_spec(tokens, start).1;
        assert forall|k: int| 0 <= k < all.len() implies (#[trigger] all[k]).level == Level::Error by {
            if k < d.len() {
                assert(all[k] == d[k]);
            }
        }
    }
}

proof fn lemma_parse_from_errors(lines: Seq<Seq<char>>, i: int, md: Seq<char>, stop: bool)
    ensures
        all_errors(parse_from(lines, i, md, stop).diags),
    decreases lines.len() - i,
{
    reveal(parse_from);
    if 0 <= i < lines.len() {
        let line = lines[i];
        if trim(line) == fence() {
            if !stop {
                lemma_parse_from_errors(lines, i + 1, md + line + seq!['\n'], stop);
            }
        } else if line.len() >= 3 && line.take(3) == fence() {
            let sp = open_span(lines, i);
            let parts = words(line.skip(3));
            if parts.len() == 0 {
                lemma_parse_from_errors(lines, i + 1, Seq::empty(), stop);
                lemma_all_errors_concat(
                    seq![missing_name_diag(sp)],
                    parse_from(lines, i + 1, Seq::empty(), stop).diags,
                );
            } else {
                let adiags = parse_args_spec(parts.drop_first(), line_offset(lines, i)).1;
                lemma_parse_args_errors(parts.drop_first(), line_offset(lines, i));
                lemma_parse_from_errors(lines, i + 1, Seq::empty(), true);
                let inner = parse_from(lines, i + 1, Seq::empty(), true);
                lemma_all_errors_concat(adiags, inner.diags);
                if !inner.closed {
                    lemma_all_errors_concat(adiags + inner.diags, seq![not_closed_diag(parts[0], sp)]);
                } else if i < inner.next <= lines.len() {
                    lemma_parse_from_errors(lines, inner.next, Seq::empty(), stop);
                    lemma_all_errors_concat(
                        adiags + inner.diags,
                        parse_from(lines, inner.next, Seq::empty(), stop).diags,
                    );
                }
            }
        } else {
            lemma_parse_from_errors(lines, i + 1, md + line + seq!['\n'], stop);
        }
    }
}

proof fn lemma_render_hits_errors(inlines: Seq<InlineSpecV>, t: Seq<char>, hits: Seq<InlineHit>, last: int)
    ensures
        all_errors(render_hits(inlines, t, hits, last).1),
    decreases hits.len(),
{
    if hits.len() > 0 {
        let h = hits[0];
        lemma_render_hits_errors(inlines, t, hits.drop_first(), h.hi);
        lemma_all_errors_concat(
            seq![unknown_inline_diag(h.ext.name, h.ext.span)],
            render_hits(inlines, t, hits.drop_first(), h.hi).1,
        );
    }
}

proof fn lemma_render_texts_errors(inlines: Seq<InlineSpecV>, texts: Seq<Seq<char>>)
    ensures
        all_errors(render_texts_spec(inlines, texts).1),
    decreases texts.len(),
{
    if texts.len() > 0 {
        lemma_render_texts_errors(inlines, texts.drop_last());
        lemma_render_hits_errors(inlines, texts.last(), inline_scan(texts.last(), 0), 0);
        lemma_all_errors_concat(
            render_texts_spec(inlines, texts.drop_last()).1,
            render_text_spec(inlines, texts.last()).1,
        );
    }
}

proof fn lemma_render_node_errors(blocks: Seq<BlockSpecV>, inlines: Seq<InlineSpecV>, n: NodeV)
    ensures
        all_errors(render_node_spec(blocks, inlines, n).1),
    decreases n,
{
    match n {
        NodeV::Markdown(texts) => {
            lemma_render_texts_errors(inlines, texts);
        },
        NodeV::Block(b) => {
            lemma_render_nodes_errors(blocks, inlines, b.body);
            assert(seq![unknown_block_diag(b.name, b.span)][0].level == Level::Error);
        },
    }
}

proof fn lemma_render_nodes_errors(blocks: Seq<BlockSpecV>, inlines: Seq<InlineSpecV>, ns: Seq<NodeV>)
    ensures
        all_errors(render_nodes_spec(blocks, inlines, ns).1),
    decreases ns,
{
    if ns.len() > 0 {
        lemma_render_nodes_errors(blocks, inlines, ns.drop_last());
        lemma_render_node_errors(blocks, inlines, ns.last());
        lemma_all_errors_concat(
            render_nodes_spec(blocks, inlines, ns.drop_last()).1,
            render_node_spec(blocks, inlines, ns.last()).1,
        );
    }
}

/// Every diagnostic that parsing, validation, evaluation or rendering reports is an
/// error: none of them reports a warning.
pub proof fn lemma_all_errors(
    blocks: Seq<BlockSpecV>,
    inlines: Seq<InlineSpecV>,
    ctx: Seq<(Seq<char>, Seq<Seq<char>>)>,
    input: Seq<char>,
    ns: Seq<NodeV>,
)
    ensures
        all_errors(parse_spec(input).diags),
        all_errors(validate_nodes_spec(blocks, inlines, ns)),
        all_errors(eval_nodes_spec(blocks, inlines, ctx, ns)),
        all_errors(render_nodes_spec(blocks, inlines, ns).1),
{
    lemma_parse_from_errors(split_lines(input), 0, Seq::empty(), false);
    lemma_validate_nodes_static(blocks, inlines, ns);
    lemma_eval_nodes_dynamic(blocks, inlines, ctx, ns);
    lemma_render_nodes_errors(blocks, inlines, ns);
}

/// The characters of the text items of `items`, in order.
pub open spec fn text_of(items: Seq<RItem>) -> Seq<char>
    decreases items.len(),
{
    if items.len() == 0 {
        Seq::empty()
    } else {
        (match items[0] {
            RItem::Text(s) => s,
            _ => Seq::empty(),
        }) + text_of(items.drop_first())
    }
}

/// The inline extensions of `items`, in order.
pub open spec fn exts_of(items: Seq<RItem>) -> Seq<InlineExtV>
    decreases items.len(),
{
    if items.len() == 0 {
        Seq::empty()
    } else {
        (match items[0] {
            RItem::Inline(e) => seq![e],
            _ => Seq::empty(),
        }) + exts_of(items.drop_first())
    }
}

/// The characters of `t` from `last` on that lie outside the character ranges of
/// `hits`.
pub open spec fn outside(t: Seq<char>, hits: Seq<InlineHit>, last: int) -> Seq<char>
    decreases hits.len(),
{
    if hits.len() == 0 {
        t.subrange(last, t.len() as int)
    } else {
        t.subrange(last, hits[0].lo) + outside(t, hits.drop_first(), hits[0].hi)
    }
}

/// Whether an inline extension is registered in `inlines`.
pub open spec fn known_inline(inlines: Seq<InlineSpecV>) -> spec_fn(InlineExtV) -> bool {
    |e: InlineExtV| find_inline(inlines, e.name) is Some
}

proof fn lemma_text_of_concat(a: Seq<RItem>, b: Seq<RItem>)
    ensures
        text_of(a + b) == text_of(a) + text_of(b),
        exts_of(a + b) == exts_of(a) + exts_of(b),
    decreases a.len(),
{
    if a.len() == 0 {
        assert(a + b =~= b);
        assert(text_of(a) + text_of(b) =~= text_of(b));
        assert(exts_of(a) + exts_of(b) =~= exts_of(b));
    } else {
        lemma_text_of_concat(a.drop_first(), b);
        assert((a + b).drop_first() =~= a.drop_first() + b);
        assert((a + b)[0] == a[0]);
        let ht: Seq<char> = match a[0] {
            RItem::Text(s) => s,
            _ => Seq::empty(),
        };
        let he: Seq<InlineExtV> = match a[0] {
            RItem::Inline(e) => seq![e],
            _ => Seq::empty(),
        };
        assert(text_of(a + b) =~= ht + (text_of(a.drop_first()) + text_of(b)));
        assert(text_of(a) + text_of(b) =~= ht + text_of(a.drop_first()) + text_of(b));
        assert(exts_of(a + b) =~= he + (exts_of(a.drop_first()) + exts_of(b)));
        assert(exts_of(a) + exts_of(b) =~= he + exts_of(a.drop_first()) + exts_of(b));
    }
}

proof fn lemma_text_of_single(x: RItem)
    ensures
        text_of(seq![x]) == (match x {
            RItem::Text(s) => s,
            _ => Seq::<char>::empty(),
        }),
        exts_of(seq![x]) == (match x {
            RItem::Inline(e) => seq![e],
            _ => Seq::<InlineExtV>::empty(),
        }),
{
    let e = Seq::<RItem>::empty();
    assert(seq![x].drop_first() =~= e);
    assert(text_of(e) == Seq::<char>::empty());
    assert(exts_of(e) == Seq::<InlineExtV>::empty());
    assert(seq![x][0] == x);
    let ht: Seq<char> = match x {
        RItem::Text(s) => s,
        _ => Seq::empty(),
    };
    let he: Seq<InlineExtV> = match x {
        RItem::Inline(e) => seq![e],
        _ => Seq::empty(),
    };
    assert(ht + Seq::<char>::empty() =~= ht);
    assert(he + Seq::<InlineExtV>::empty() =~= he);
}

proof fn lemma_render_hits_parts(inlines: Seq<InlineSpecV>, t: Seq<char>, hits: Seq<InlineHit>, last: int)
    requires
        0 <= last <= t.len(),
        forall|k: int| 0 <= k < hits.len() ==> last <= (#[trigger] hits[k]).lo < hits[k].hi <= t.len(),
        forall|k: int, m: int| 0 <= k < m < hits.len() ==> (#[trigger] hits[k]).hi <= (#[trigger] hits[m]).lo,
    ensures
        text_of(render_hits(inlines, t, hits, last).0) == outside(t, hits, last),
        exts_of(render_hits(inlines, t, hits, last).0) == hits.map_values(|h: InlineHit| h.ext).filter(
            known_inline(inlines),
        ),
    decreases hits.len(),
{
    let items = render_hits(inlines, t, hits, last).0;
    let es = hits.map_values(|h: InlineHit| h.ext);
    if hits.len() == 0 {
        assert(es =~= Seq::<InlineExtV>::empty());
        assert(es.filter(known_inline(inlines)) =~= Seq::<InlineExtV>::empty()) by {
            reveal(Seq::filter);
        }
        if last < t.len() {
            let x = RItem::Text(t.subrange(last, t.len() as int));
            assert(items == seq![x]);
            lemma_text_of_single(x);
        } else {
            assert(items =~= Seq::<RItem>::empty());
            assert(t.subrange(last, t.len() as int) =~= Seq::<char>::empty());
        }
    } else {
        let h = hits[0];
        let tail = hits.drop_first();
        assert forall|k: int| 0 <= k < tail.len() implies h.hi <= (#[trigger] tail[k]).lo < tail[k].hi <= t.len() by {
            assert(tail[k] == hits[k + 1]);
        }
        assert forall|k: int, m: int| 0 <= k < m < tail.len() implies (#[trigger] tail[k]).hi <= (#[trigger] tail[m]).lo by {
            assert(tail[k] == hits[k + 1]);
            assert(tail[m] == hits[m + 1]);
        }
        lemma_render_hits_parts(inlines, t, tail, h.hi);
        let rest = render_hits(inlines, t, tail, h.hi).0;
        let pre: Seq<RItem> = if h.lo > last {
            seq![RItem::Text(t.subrange(last, h.lo))]
        } else {
            Seq::empty()
        };
        assert(text_of(pre) == t.subrange(last, h.lo) && exts_of(pre) == Seq::<InlineExtV>::empty()) by {
            if h.lo > last {
                lemma_text_of_single(RItem::Text(t.subrange(last, h.lo)));
            } else {
                assert(t.subrange(last, h.lo) =~= Seq::<char>::empty());
            }
        }
        let mid = seq![RItem::Inline(h.ext)];
        lemma_text_of_single(RItem::Inline(h.ext));
        assert(es =~= seq![h.ext] + tail.map_values(|h: InlineHit| h.ext));
        tail.map_values(|h: InlineHit| h.ext).lemma_filter_prepend(h.ext, known_inline(inlines));
        if find_inline(inlines, h.ext.name) is Some {
            assert(items == pre + mid + rest);
            lemma_text_of_concat(pre, mid);
            lemma_text_of_concat(pre + mid, rest);
            assert(text_of(items) =~= t.subrange(last, h.lo) + outside(t, tail, h.hi));
            assert(exts_of(items) =~= seq![h.ext] + exts_of(rest));
        } else {
            assert(items == pre + rest);
            lemma_text_of_concat(pre, rest);
            assert(text_of(items) =~= t.subrange(last, h.lo) + outside(t, tail, h.hi));
            assert(exts_of(items) =~= exts_of(rest));
            assert(!(known_inline(inlines))(h.ext));
            assert(Seq::<InlineExtV>::empty() + tail.map_values(|h: InlineHit| h.ext).filter(
                known_inline(inlines),
            ) =~= tail.map_values(|h: InlineHit| h.ext).filter(known_inline(inlines)));
        }
    }
}

/// Rendering a Markdown text keeps in its text nodes, in order, exactly the characters
/// that lie outside its inline extensions, and hands the renderer each registered
/// inline extension of the text once, in order.
pub proof fn lemma_render_text_parts(inlines: Seq<InlineSpecV>, t: Seq<char>)
    ensures
        text_of(render_text_spec(inlines, t).0) == outside(t, inline_scan(t, 0), 0),
        exts_of(render_text_spec(inlines, t).0) == inline_exts_spec(t).filter(known_inline(inlines)),
{
    crate::forge::inline::lemma_inline_scan_bounds(t, 0);
    lemma_render_hits_parts(inlines, t, inline_scan(t, 0), 0);
    assert(inline_exts_spec(t) =~= inline_scan(t, 0).map_values(|h: InlineHit| h.ext));
}

proof fn lemma_line_offset_cons(a: Seq<char>, rest: Seq<Seq<char>>, i: int)
    requires
        1 <= i <= rest.len() + 1,
    ensures
        line_offset(seq![a] + rest, i) == blen(a) + 1 + line_offset(rest, i - 1),
    decreases i,
{
    let l = seq![a] + rest;
    if i > 1 {
        lemma_line_offset_cons(a, rest, i - 1);
        assert(l[i - 1] == rest[i - 2]);
        assert(line_offset(l, i) == line_offset(l, i - 1) + blen(l[i - 1]) + 1);
        assert(line_offset(rest, i - 1) == line_offset(rest, i - 2) + blen(rest[i - 2]) + 1);
    } else {
        assert(l[0] == a);
        assert(line_offset(l, 0) == 0);
        assert(line_offset(rest, 0) == 0);
        assert(line_offset(l, 1) == line_offset(l, 0) + blen(l[0]) + 1);
    }
}

/// In a text without carriage returns, line `i` sits at byte `line_offset(.., i)`: the
/// bytes there are those of the line.
proof fn lemma_line_bytes(s: Seq<char>, i: int)
    requires
        forall|j: int| 0 <= j < s.len() ==> s[j] != '\r',
        0 <= i < split_lines(s).len(),
    ensures
        ({
            let lines = split_lines(s);
            let off = line_offset(lines, i);
            &&& 0 <= off
            &&& off + blen(lines[i]) <= blen(s)
            &&& encode_utf8(s).subrange(off, off + blen(lines[i])) == encode_utf8(lines[i])
        }),
    decreases s.len(),
{
    let lines = split_lines(s);
    let n = first_index(s, '\n') as int;
    lemma_first_index(s, '\n');
    if n < s.len() {
        let a = s.take(n);
        let rest = s.skip(n + 1);
        assert(strip_cr(a) == a) by {
            if a.len() > 0 {
                assert(a.last() == s[n - 1]);
            }
        }
        assert(lines == seq![a] + split_lines(rest));
        assert(s =~= a + (seq!['\n'] + rest));
        lemma_encode_concat(a, seq!['\n'] + rest);
        lemma_encode_concat(seq!['\n'], rest);
        lemma_blen_single('\n');
        let ea = encode_utf8(a);
        let en = encode_utf8(seq!['\n']);
        let er = encode_utf8(rest);
        assert(encode_utf8(s) == ea + (en + er));
        assert(en.len() == 1) by {
            assert(crate::text::cwidth('\n') == 1);
        }
        if i == 0 {
            assert(lines[0] == a);
            assert(encode_utf8(s).subrange(0, blen(a) as int) =~= ea);
        } else {
            assert forall|j: int| 0 <= j < rest.len() implies rest[j] != '\r' by {
                assert(rest[j] == s[j + n + 1]);
            }
            lemma_line_bytes(rest, i - 1);
            lemma_line_offset_cons(a, split_lines(rest), i);
            let rl = split_lines(rest);
            assert(lines[i] == rl[i - 1]);
            let off2 = line_offset(rl, i - 1);
            let len = blen(rl[i - 1]);
            assert(encode_utf8(s).subrange(blen(a) + 1 + off2, blen(a) + 1 + off2 + len) =~= er.subrange(
                off2,
                off2 + len,
            ));
        }
    } else {
        assert(lines == seq![s]);
        assert(encode_utf8(s).subrange(0, blen(s) as int) =~= encode_utf8(s));
    }
}

/// Whether `l` is a line that opens a block named `name`: `:::` followed by the name
/// as its first word.
pub open spec fn opens(l: Seq<char>, name: Seq<char>) -> bool {
    &&& l.len() >= 3
    &&& l.take(3) == fence()
    &&& words(l.skip(3)).len() > 0
    &&& words(l.skip(3))[0] == name
}

/// The bytes of `input` that the span of `b` selects are those of a line of `input`
/// that opens a block named as `b`.
pub open spec fn spans_its_line(input: Seq<char>, b: BlockNodeV) -> bool {
    let lines = split_lines(input);
    exists|i: int|
        0 <= i < lines.len() && #[trigger] opens(lines[i], b.name) && encode_utf8(input).subrange(
            b.span.start as int,
            b.span.end as int,
        ) == encode_utf8(lines[i])
}

/// Every block of `n`, at any depth, spans the line that opened it.
pub open spec fn node_spans(input: Seq<char>, n: NodeV) -> bool
    decreases n,
{
    match n {
        NodeV::Markdown(_) => true,
        NodeV::Block(b) => spans_its_line(input, b) && nodes_spans(input, b.body),
    }
}

/// Every block of `ns`, at any depth, spans the line that opened it.
pub open spec fn nodes_spans(input: Seq<char>, ns: Seq<NodeV>) -> bool
    decreases ns,
{
    if ns.len() == 0 {
        true
    } else {
        nodes_spans(input, ns.drop_last()) && node_spans(input, ns.last())
    }
}

proof fn lemma_nodes_spans_concat(input: Seq<char>, a: Seq<NodeV>, b: Seq<NodeV>)
    requires
        nodes_spans(input, a),
        nodes_spans(input, b),
    ensures
        nodes_spans(input, a + b),
    decreases b.len(),
{
    if b.len() == 0 {
        assert(a + b =~= a);
    } else {
        lemma_nodes_spans_concat(input, a, b.drop_last());
        assert((a + b).drop_last() =~= a + b.drop_last());
        assert((a + b).last() == b.last());
    }
}

proof fn lemma_md_flush_spans(input: Seq<char>, md: Seq<char>)
    ensures
        nodes_spans(input, md_flush(md)),
{
    let ns = md_flush(md);
    assert(nodes_spans(input, Seq::<NodeV>::empty()));
    if md.len() > 0 {
        assert(ns.drop_last() =~= Seq::<NodeV>::empty());
        assert(node_spans(input, ns.last()));
    } else {
        assert(ns =~= Seq::<NodeV>::empty());
    }
}

proof fn lemma_parse_from_spans(input: Seq<char>, i: int, md: Seq<char>, stop: bool)
    requires
        forall|j: int| 0 <= j < input.len() ==> input[j] != '\r',
        blen(input) <= usize::MAX,
    ensures
        nodes_spans(input, parse_from(split_lines(input), i, md, stop).nodes),
    decreases split_lines(input).len() - i,
{
    let lines = split_lines(input);
    reveal(parse_from);
    lemma_md_flush_spans(input, md);
    if 0 <= i < lines.len() {
        let line = lines[i];
        if trim(line) == fence() {
            if !stop {
                lemma_parse_from_spans(input, i + 1, md + line + seq!['\n'], stop);
            }
        } else if line.len() >= 3 && line.take(3) == fence() {
            let parts = words(line.skip(3));
            if parts.len() == 0 {
                lemma_parse_from_spans(input, i + 1, Seq::empty(), stop);
                lemma_nodes_spans_concat(input, md_flush(md), parse_from(lines, i + 1, Seq::empty(), stop).nodes);
            } else {
                let (args, adiags) = parse_args_spec(parts.drop_first(), line_offset(lines, i));
                lemma_parse_from_spans(input, i + 1, Seq::empty(), true);
                let inner = parse_from(lines, i + 1, Seq::empty(), true);
                let sp = open_span(lines, i);
                let b = BlockNodeV { name: parts[0], args, body: inner.nodes, span: sp };
                let block = NodeV::Block(b);
                lemma_line_bytes(input, i);
                assert(sp.start as int == line_offset(lines, i));
                assert(sp.end as int == line_offset(lines, i) + blen(line));
                assert(opens(lines[i], b.name));
                assert(spans_its_line(input, b));
                assert(node_spans(input, block));
                let pre = md_flush(md).push(block);
                assert(pre.drop_last() =~= md_flush(md));
                assert(nodes_spans(input, pre));
                if inner.closed && i < inner.next <= lines.len() {
                    lemma_parse_from_spans(input, inner.next, Seq::empty(), stop);
                    lemma_nodes_spans_concat(input, pre, parse_from(lines, inner.next, Seq::empty(), stop).nodes);
                }
            }
        } else {
            lemma_parse_from_spans(input, i + 1, md + line + seq!['\n'], stop);
        }
    }
}

/// In an input without carriage returns, every block, at any depth, spans exactly the
/// bytes of the input line that opened it: `:::` followed by the block's name.
pub proof fn lemma_block_spans(input: Seq<char>)
    requires
        forall|j: int| 0 <= j < input.len() ==> input[j] != '\r',
        blen(input) <= usize::MAX,
    ensures
        nodes_spans(input, parse_spec(input).nodes),
{
    lemma_parse_from_spans(input, 0, Seq::empty(), false);
}

} // verus!
