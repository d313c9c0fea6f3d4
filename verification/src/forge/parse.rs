use vstd::prelude::*;

use crate::ast::{args_view, nodes_view, BlockNode, BlockNodeV, Document, MdEvent, Node, NodeV, Span};
use crate::diagnostic::{diags_view, error_diag, new_error, Diagnostic, DiagnosticV, ErrorCode};
use crate::forge::args::{
    keys_unique, lemma_parse_args_unique, parse_args, parse_args_spec, str_refs, strs_view,
};
use crate::text::{
    blen, char_width, chars_of, cwidth, fence, first_index, is_fence_line, lemma_blen_subrange,
    lemma_blen_take, lemma_blen_take_step, lemma_first_index_at, lemma_words_blen,
    split_words, starts_with_fence, string_of, strings_view, trim, words,
};

verus! {

broadcast use vstd::string::group_string_axioms;

// ---------------------------------------------------------------------------
// Lines
// ---------------------------------------------------------------------------

/// `l` without a final carriage return.
pub open spec fn strip_cr(l: Seq<char>) -> Seq<char> {
    if l.len() > 0 && l.last() == '\r' {
        l.drop_last()
    } else {
        l
    }
}

/// The lines of `s`, as `str::lines` yields them: split at `\n`, with a `\r` before
/// the `\n` removed; a final line ending adds no empty line.
pub open spec fn split_lines(s: Seq<char>) -> Seq<Seq<char>>
    decreases s.len(),
{
    if s.len() == 0 {
        Seq::empty()
    } else {
        let n = first_index(s, '\n') as int;
        if n < s.len() {
            seq![strip_cr(s.take(n))] + split_lines(s.skip(n + 1))
        } else {
            seq![s]
        }
    }
}

/// Byte offset of line `i`: the bytes of the lines before it, one newline after each.
pub open spec fn line_offset(lines: Seq<Seq<char>>, i: int) -> int
    decreases i,
{
    if i <= 0 {
        0
    } else {
        line_offset(lines, i - 1) + blen(lines[i - 1]) + 1
    }
}

/// Appending lines leaves the offsets of the earlier lines unchanged.
pub proof fn lemma_line_offset_prefix(a: Seq<Seq<char>>, b: Seq<Seq<char>>, k: int)
    requires
        0 <= k <= a.len(),
    ensures
        line_offset(a + b, k) == line_offset(a, k),
    decreases k,
{
    if k > 0 {
        lemma_line_offset_prefix(a, b, k - 1);
        assert((a + b)[k - 1] == a[k - 1]);
    }
}

/// The lines of a document with the byte length and offset of each.
pub struct Lines {
    pub text: Vec<Vec<char>>,
    pub bytes: Vec<usize>,
    pub offs: Vec<usize>,
}

/// The lines, as character sequences.
pub open spec fn lines_view(l: &Lines) -> Seq<Seq<char>> {
    l.text@.map_values(|v: Vec<char>| v@)
}

/// `bytes` and `offs` hold the byte length and offset of each line.
pub open spec fn lines_wf(l: &Lines) -> bool {
    &&& l.bytes@.len() == l.text@.len()
    &&& l.offs@.len() == l.text@.len()
    &&& forall|k: int|
        0 <= k < l.text@.len() ==> {
            &&& #[trigger] l.bytes@[k] == blen(lines_view(l)[k])
            &&& l.offs@[k] == line_offset(lines_view(l), k)
            &&& l.offs@[k] + l.bytes@[k] <= usize::MAX
        }
}

/// `cs[lo..hi]` as a vector.
fn copy_range(cs: &[char], lo: usize, hi: usize) -> (r: Vec<char>)
    requires
        lo <= hi <= cs@.len(),
    ensures
        r@ == cs@.subrange(lo as int, hi as int),
{
    let mut r: Vec<char> = Vec::new();
    let mut i = lo;
    while i < hi
        invariant
            lo <= i <= hi <= cs@.len(),
            r@ == cs@.subrange(lo as int, i as int),
        decreases hi - i,
    {
        r.push(cs[i]);
        i = i + 1;
    }
    r
}

/// Splits `input` into its lines, with the byte length and offset of each.
pub fn split_into_lines(input: &str) -> (l: Lines)
    ensures
        lines_wf(&l),
        lines_view(&l) == split_lines(input@),
{
    // The bytes of `input` are in memory, so their number fits in a `usize`.
    let total: usize = input.as_bytes().len();
    let s = chars_of(input);
    let n = s.len();
    let ghost sv = s@;
    let mut text: Vec<Vec<char>> = Vec::new();
    let mut bytes: Vec<usize> = Vec::new();
    let mut offs: Vec<usize> = Vec::new();
    let mut i: usize = 0;
    let mut bi: usize = 0;
    let mut off: usize = 0;
    assert(sv.take(0) =~= Seq::<char>::empty());
    assert(blen(Seq::<char>::empty()) == 0) by {
        assert(vstd::utf8::encode_utf8(Seq::<char>::empty()) =~= Seq::<u8>::empty());
    }
    assert(sv.skip(0) =~= sv);
    assert(cwidth('\n') == 1 && cwidth('\r') == 1);
    while i < n
        invariant
            i <= n == sv.len(),
            sv == s@,
            total == blen(sv),
            cwidth('\n') == 1 && cwidth('\r') == 1,
            bi == blen(sv.take(i as int)),
            i < n ==> off <= bi,
            bytes@.len() == text@.len(),
            offs@.len() == text@.len(),
            i < n ==> off == line_offset(text@.map_values(|v: Vec<char>| v@), text@.len() as int),
            forall|k: int|
                0 <= k < text@.len() ==> {
                    &&& #[trigger] bytes@[k] == blen(text@.map_values(|v: Vec<char>| v@)[k])
                    &&& offs@[k] == line_offset(text@.map_values(|v: Vec<char>| v@), k)
                    &&& offs@[k] + bytes@[k] <= usize::MAX
                },
            split_lines(sv) == text@.map_values(|v: Vec<char>| v@) + split_lines(sv.skip(i as int)),
        decreases n - i,
    {
        let ghost lv = text@.map_values(|v: Vec<char>| v@);
        let mut j = i;
        let mut bj = bi;
        while j < n && s[j] != '\n'
            invariant
                i <= j <= n == sv.len(),
                sv == s@,
                total == blen(sv),
                bj == blen(sv.take(j as int)),
                forall|k: int| i <= k < j ==> sv[k] != '\n',
            decreases n - j,
        {
            proof {
                lemma_blen_take_step(sv, j as int);
                lemma_blen_take(sv, j + 1);
            }
            bj = bj + char_width(s[j]);
            j = j + 1;
        }
        let ghost t = sv.skip(i as int);
        proof {
            assert forall|k: int| 0 <= k < j - i implies t[k] != '\n' by {
                assert(t[k] == sv[k + i]);
            }
            if j < n {
                assert(t[j - i] == sv[j as int]);
            }
            lemma_first_index_at(t, '\n', j - i);
            lemma_blen_take(sv, j as int);
        }
        let mut e = j;
        let mut be = bj;
        if j < n && j > i && s[j - 1] == '\r' {
            proof {
                lemma_blen_take_step(sv, j - 1);
            }
            e = j - 1;
            be = bj - 1;
        }
        proof {
            lemma_blen_subrange(sv, i as int, e as int);
            lemma_blen_take(sv, e as int);
        }
        let line = copy_range(s.as_slice(), i, e);
        let ghost lc = line@;
        proof {
            if j < n {
                assert(t.take(j - i) =~= sv.subrange(i as int, j as int));
                assert(t.skip(j - i + 1) =~= sv.skip(j + 1));
                assert(strip_cr(sv.subrange(i as int, j as int)) =~= lc);
                assert(split_lines(t) == seq![lc] + split_lines(sv.skip(j + 1)));
            } else {
                assert(t =~= lc);
                assert(split_lines(t) == seq![lc]);
            }
        }
        text.push(line);
        bytes.push(be - bi);
        offs.push(off);
        let ghost lv2 = text@.map_values(|v: Vec<char>| v@);
        proof {
            assert(lv2 =~= lv + seq![lc]);
            assert forall|k: int| 0 <= k <= lv.len() implies line_offset(lv2, k) == line_offset(lv, k) by {
                lemma_line_offset_prefix(lv, seq![lc], k);
            }
            assert(lv2[lv.len() as int] == lc);
        }
        if j < n {
            proof {
                lemma_blen_take_step(sv, j as int);
                lemma_blen_take(sv, j + 1);
                assert(split_lines(sv) =~= lv2 + split_lines(sv.skip(j + 1)));
            }
            off = off + (be - bi) + 1;
            bi = bj + 1;
            i = j + 1;
        } else {
            proof {
                assert(sv.skip(n as int) =~= Seq::<char>::empty());
                assert(split_lines(sv) =~= lv2 + split_lines(sv.skip(n as int)));
            }
            bi = bj;
            i = n;
        }
    }
    assert(sv.skip(n as int) =~= Seq::<char>::empty());
    assert(split_lines(sv) =~= text@.map_values(|v: Vec<char>| v@));
    Lines { text, bytes, offs }
}


// ---------------------------------------------------------------------------
// Blocks
// ---------------------------------------------------------------------------

/// What reading lines from some line on gives.
pub struct ParseOut {
    pub nodes: Seq<NodeV>,
    pub diags: Seq<DiagnosticV>,
    pub next: int,
    pub closed: bool,
}

/// The Markdown node that the pending text `md` makes, if it is not empty.
pub open spec fn md_flush(md: Seq<char>) -> Seq<NodeV> {
    if md.len() > 0 {
        seq![NodeV::Markdown(seq![md])]
    } else {
        Seq::empty()
    }
}

/// The span of the opening line `i`.
pub open spec fn open_span(lines: Seq<Seq<char>>, i: int) -> Span {
    Span {
        start: line_offset(lines, i) as usize,
        end: (line_offset(lines, i) + blen(lines[i])) as usize,
    }
}

/// The diagnostic for `:::` followed by no name.
pub open spec fn missing_name_diag(sp: Span) -> DiagnosticV {
    error_diag(ErrorCode::UnknownBlock, "block name is missing"@, sp, None)
}

/// The diagnostic for a block that no `:::` line closes.
pub open spec fn not_closed_diag(name: Seq<char>, sp: Span) -> DiagnosticV {
    error_diag(
        ErrorCode::BlockNotClosed,
        "block '"@ + name + "' is not closed"@,
        sp,
        Some("add a closing ::: line"@),
    )
}

/// Reading `lines` from line `i` on, with the Markdown text `md` pending; `stop` when
/// inside a block, where a `:::` line closes it. Lines whose trimmed text is `:::`
/// close a block (or are Markdown at the top); lines that start with `:::` open one;
/// other lines, each followed by a newline, make up Markdown nodes.
#[verifier::opaque]
pub open spec fn parse_from(lines: Seq<Seq<char>>, i: int, md: Seq<char>, stop: bool) -> ParseOut
    decreases lines.len() - i,
{
    if i < 0 || i >= lines.len() {
        ParseOut { nodes: md_flush(md), diags: Seq::empty(), next: lines.len() as int, closed: false }
    } else {
        let line = lines[i];
        if trim(line) == fence() {
            if stop {
                ParseOut { nodes: md_flush(md), diags: Seq::empty(), next: i + 1, closed: true }
            } else {
                parse_from(lines, i + 1, md + line + seq!['\n'], stop)
            }
        } else if line.len() >= 3 && line.take(3) == fence() {
            let sp = open_span(lines, i);
            let parts = words(line.skip(3));
            if parts.len() == 0 {
                let rest = parse_from(lines, i + 1, Seq::empty(), stop);
                ParseOut {
                    nodes: md_flush(md) + rest.nodes,
                    diags: seq![missing_name_diag(sp)] + rest.diags,
                    next: rest.next,
                    closed: rest.closed,
                }
            } else {
                let (args, adiags) = parse_args_spec(parts.drop_first(), line_offset(lines, i));
                let inner = parse_from(lines, i + 1, Seq::empty(), true);
                let block = NodeV::Block(
                    BlockNodeV { name: parts[0], args, body: inner.nodes, span: sp },
                );
                if !inner.closed {
                    ParseOut {
                        nodes: md_flush(md).push(block),
                        diags: adiags + inner.diags + seq![not_closed_diag(parts[0], sp)],
                        next: inner.next,
                        closed: false,
                    }
                } else if i < inner.next <= lines.len() {
                    let rest = parse_from(lines, inner.next, Seq::empty(), stop);
                    ParseOut {
                        nodes: md_flush(md).push(block) + rest.nodes,
                        diags: adiags + inner.diags + rest.diags,
                        next: rest.next,
                        closed: rest.closed,
                    }
                } else {
                    ParseOut { nodes: Seq::empty(), diags: Seq::empty(), next: i, closed: false }
                }
            }
        } else {
            parse_from(lines, i + 1, md + line + seq!['\n'], stop)
        }
    }
}

/// What parsing `input` gives: its nodes, and the diagnostics found on the way.
pub open spec fn parse_spec(input: Seq<char>) -> ParseOut {
    parse_from(split_lines(input), 0, Seq::empty(), false)
}

/// The steps of `parse_from`, one per kind of line.
pub proof fn lemma_parse_from_end(lines: Seq<Seq<char>>, i: int, md: Seq<char>, stop: bool)
    requires
        i >= lines.len(),
    ensures
        parse_from(lines, i, md, stop) == (ParseOut {
            nodes: md_flush(md),
            diags: Seq::empty(),
            next: lines.len() as int,
            closed: false,
        }),
{
    reveal(parse_from);
}

/// A closing line ends a block's body, and is Markdown at the top.
pub proof fn lemma_parse_from_fence(lines: Seq<Seq<char>>, i: int, md: Seq<char>, stop: bool)
    requires
        0 <= i < lines.len(),
        trim(lines[i]) == fence(),
    ensures
        stop ==> parse_from(lines, i, md, stop) == (ParseOut {
            nodes: md_flush(md),
            diags: Seq::empty(),
            next: i + 1,
            closed: true,
        }),
        !stop ==> parse_from(lines, i, md, stop) == parse_from(lines, i + 1, md + lines[i] + seq!['\n'], stop),
{
    reveal(parse_from);
}

/// A line that neither opens nor closes a block is added to the pending Markdown.
pub proof fn lemma_parse_from_text(lines: Seq<Seq<char>>, i: int, md: Seq<char>, stop: bool)
    requires
        0 <= i < lines.len(),
        trim(lines[i]) != fence(),
        !(lines[i].len() >= 3 && lines[i].take(3) == fence()),
    ensures
        parse_from(lines, i, md, stop) == parse_from(lines, i + 1, md + lines[i] + seq!['\n'], stop),
{
    reveal(parse_from);
}

/// A line that starts with `:::` opens a block, or is reported when it names none.
pub proof fn lemma_parse_from_open(lines: Seq<Seq<char>>, i: int, md: Seq<char>, stop: bool)
    requires
        0 <= i < lines.len(),
        trim(lines[i]) != fence(),
        lines[i].len() >= 3 && lines[i].take(3) == fence(),
    ensures
        ({
            let line = lines[i];
            let sp = open_span(lines, i);
            let parts = words(line.skip(3));
            let out = parse_from(lines, i, md, stop);
            if parts.len() == 0 {
                let rest = parse_from(lines, i + 1, Seq::empty(), stop);
                out == (ParseOut {
                    nodes: md_flush(md) + rest.nodes,
                    diags: seq![missing_name_diag(sp)] + rest.diags,
                    next: rest.next,
                    closed: rest.closed,
                })
            } else {
                let (args, adiags) = parse_args_spec(parts.drop_first(), line_offset(lines, i));
                let inner = parse_from(lines, i + 1, Seq::empty(), true);
                let block = NodeV::Block(
                    BlockNodeV { name: parts[0], args, body: inner.nodes, span: sp },
                );
                &&& !inner.closed ==> out == (ParseOut {
                    nodes: md_flush(md).push(block),
                    diags: adiags + inner.diags + seq![not_closed_diag(parts[0], sp)],
                    next: inner.next,
                    closed: false,
                })
                &&& (inner.closed && i < inner.next <= lines.len()) ==> {
                    let rest = parse_from(lines, inner.next, Seq::empty(), stop);
                    out == (ParseOut {
                        nodes: md_flush(md).push(block) + rest.nodes,
                        diags: adiags + inner.diags + rest.diags,
                        next: rest.next,
                        closed: rest.closed,
                    })
                }
            }
        }),
{
    reveal(parse_from);
}

/// `nodes` followed by `r`, with `diags` before its diagnostics.
pub open spec fn after(nodes: Seq<NodeV>, diags: Seq<DiagnosticV>, r: ParseOut) -> ParseOut {
    ParseOut { nodes: nodes + r.nodes, diags: diags + r.diags, next: r.next, closed: r.closed }
}

/// Pushes the Markdown node for `md` onto `nodes` when `md` is not empty.
fn flush(nodes: &mut Vec<Node>, md: &Vec<char>)
    ensures
        nodes_view(final(nodes)@) == nodes_view(old(nodes)@) + md_flush(md@),
{
    proof {
        crate::ast::lemma_nodes_view(old(nodes)@);
    }
    if md.len() > 0 {
        let text = string_of(md.as_slice(), 0, md.len());
        assert(md@.subrange(0, md@.len() as int) =~= md@);
        let mut evs: Vec<MdEvent> = Vec::new();
        evs.push(MdEvent::Text(text));
        let node = Node::Markdown(evs);
        assert(crate::ast::node_view(node) == NodeV::Markdown(seq![md@])) by {
            assert(crate::ast::events_view(evs@) =~= seq![md@]);
        }
        nodes.push(node);
        proof {
            crate::ast::lemma_nodes_view(nodes@);
        }
        assert(nodes_view(nodes@) =~= nodes_view(old(nodes)@) + md_flush(md@));
    } else {
        assert(nodes_view(nodes@) =~= nodes_view(old(nodes)@) + md_flush(md@));
    }
}

/// Appends `line` and a newline to `md`.
fn add_line(md: &mut Vec<char>, line: &Vec<char>)
    ensures
        final(md)@ == old(md)@ + line@ + seq!['\n'],
{
    let mut k: usize = 0;
    while k < line.len()
        invariant
            k <= line@.len(),
            md@ == old(md)@ + line@.take(k as int),
        decreases line@.len() - k,
    {
        md.push(line[k]);
        k = k + 1;
    }
    md.push('\n');
    assert(line@.take(line@.len() as int) =~= line@);
}


/// Reads the lines of `lines` from line `index` on into nodes, as `parse_from` says;
/// when `stop_on_close`, a `:::` line ends the reading and is reported as closing.
pub fn parse_lines(
    lines: &Lines,
    index: usize,
    diagnostics: &mut Vec<Diagnostic>,
    stop_on_close: bool,
) -> (r: (Vec<Node>, usize, bool))
    requires
        lines_wf(lines),
        index <= lines.text@.len(),
    ensures
        ({
            let out = parse_from(lines_view(lines), index as int, Seq::empty(), stop_on_close);
            &&& nodes_view(r.0@) == out.nodes
            &&& diags_view(final(diagnostics)@) == diags_view(old(diagnostics)@) + out.diags
            &&& r.2 == out.closed
            &&& r.1 == out.next
            &&& index <= r.1 <= lines.text@.len()
            &&& r.2 ==> stop_on_close && index < r.1
        }),
    decreases lines.text@.len() - index,
{
    let ghost lv = lines_view(lines);
    let ghost out0 = parse_from(lv, index as int, Seq::empty(), stop_on_close);
    let ghost d0 = diags_view(diagnostics@);
    let ghost mut dacc: Seq<DiagnosticV> = Seq::empty();
    let n = lines.text.len();
    let mut nodes: Vec<Node> = Vec::new();
    let mut md: Vec<char> = Vec::new();
    let mut i = index;
    assert(nodes_view(nodes@) =~= Seq::<NodeV>::empty());
    assert(out0 == after(nodes_view(nodes@), dacc, parse_from(lv, i as int, md@, stop_on_close))) by {
        assert(md@ =~= Seq::<char>::empty());
        let r = parse_from(lv, i as int, md@, stop_on_close);
        assert(r.nodes =~= Seq::<NodeV>::empty() + r.nodes);
        assert(r.diags =~= Seq::<DiagnosticV>::empty() + r.diags);
    }
    assert(diags_view(diagnostics@) =~= d0 + dacc);
    while i < n
        invariant
            index <= i <= n == lines.text@.len(),
            lines_wf(lines),
            lv == lines_view(lines),
            diags_view(diagnostics@) == d0 + dacc,
            out0 == after(nodes_view(nodes@), dacc, parse_from(lv, i as int, md@, stop_on_close)),
            d0 == diags_view(old(diagnostics)@),
            out0 == parse_from(lv, index as int, Seq::empty(), stop_on_close),
        decreases n - i,
    {
        let line = &lines.text[i];
        assert(line@ == lv[i as int]);
        let ghost cur = parse_from(lv, i as int, md@, stop_on_close);
        if is_fence_line(line.as_slice()) {
            proof {
                lemma_parse_from_fence(lv, i as int, md@, stop_on_close);
            }
            if stop_on_close {
                let ghost old_nodes = nodes_view(nodes@);
                flush(&mut nodes, &md);
                assert(out0.nodes =~= nodes_view(nodes@));
                assert(out0.diags =~= dacc);
                assert(diags_view(diagnostics@) =~= d0 + out0.diags);
                return (nodes, i + 1, true);
            }
            add_line(&mut md, line);
            i = i + 1;
        } else if starts_with_fence(line.as_slice()) {
            proof {
                lemma_parse_from_open(lv, i as int, md@, stop_on_close);
            }
            let ghost old_nodes = nodes_view(nodes@);
            flush(&mut nodes, &md);
            let ghost old_md = md@;
            md = Vec::new();
            let off = lines.offs[i];
            let nb = lines.bytes[i];
            let sp = Span { start: off, end: off + nb };
            assert(sp == open_span(lv, i as int));
            let mut parts = split_words(line.as_slice(), 3, line.len());
            assert(line@.subrange(3, line@.len() as int) =~= line@.skip(3));
            let ghost pv = words(line@.skip(3));
            if parts.len() == 0 {
                let m = String::from_str("block name is missing");
                let d = new_error(ErrorCode::UnknownBlock, m, sp, None);
                let ghost dv_before = diags_view(diagnostics@);
                diagnostics.push(d);
                proof {
                    assert(diags_view(diagnostics@) =~= dv_before.push(d@));
                    let rest = parse_from(lv, i + 1, Seq::empty(), stop_on_close);
                    assert(d@ == missing_name_diag(sp));
                    assert(cur.nodes == md_flush(old_md) + rest.nodes);
                    assert(cur.diags == seq![missing_name_diag(sp)] + rest.diags);
                    assert(nodes_view(nodes@) =~= old_nodes + md_flush(old_md));
                    assert(out0.nodes =~= nodes_view(nodes@) + rest.nodes);
                    dacc = dacc.push(d@);
                    assert(out0.diags =~= dacc + rest.diags);
                    assert(md@ =~= Seq::<char>::empty());
                }
                assert(diags_view(diagnostics@) =~= d0 + dacc);
                i = i + 1;
            } else {
                proof {
                    lemma_words_blen(line@.skip(3));
                    lemma_blen_take(line@, 3);
                    assert forall|k: int| 0 <= k < parts@.len() - 1 implies off + blen(
                        #[trigger] strings_view(parts@).drop_first()[k],
                    ) <= usize::MAX by {
                        assert(strings_view(parts@).drop_first()[k] == pv[k + 1]);
                    }
                }
                let name = parts.remove(0);
                assert(strings_view(parts@) =~= pv.drop_first());
                assert forall|k: int| 0 <= k < parts@.len() implies off + blen(
                    #[trigger] parts@[k]@,
                ) <= usize::MAX by {
                    assert(parts@[k]@ == strings_view(parts@)[k]);
                }
                let tokens = str_refs(&parts);
                assert forall|k: int| 0 <= k < tokens@.len() implies off + blen(
                    #[trigger] tokens@[k]@,
                ) <= usize::MAX by {
                    assert(tokens@[k]@ == strs_view(tokens@)[k]);
                    assert(parts@[k]@ == strings_view(parts@)[k]);
                }
                let ghost dbefore = diags_view(diagnostics@);
                let args = parse_args(tokens.as_slice(), off, diagnostics);
                let ghost adiags = diags_view(diagnostics@).skip(dbefore.len() as int);
                assert(diags_view(diagnostics@) =~= dbefore + adiags);
                let ghost dmid = diags_view(diagnostics@);
                let (body, next, closed) = parse_lines(lines, i + 1, diagnostics, true);
                let ghost inner = parse_from(lv, i + 1, Seq::empty(), true);
                let ghost idiags = inner.diags;
                let ghost block = NodeV::Block(
                    BlockNodeV { name: name@, args: args_view(args@), body: inner.nodes, span: sp },
                );
                assert(name@ == pv[0]);
                assert(args_view(args@) == parse_args_spec(pv.drop_first(), line_offset(lv, i as int)).0);
                assert(adiags == parse_args_spec(pv.drop_first(), line_offset(lv, i as int)).1);
                if !closed {
                    let mut m = String::new();
                    m.append("block '");
                    m.append(name.as_str());
                    m.append("' is not closed");
                    let sugg = String::from_str("add a closing ::: line");
                    let d = new_error(ErrorCode::BlockNotClosed, m, sp, Some(sugg));
                    assert(d@ == not_closed_diag(pv[0], sp));
                    let ghost dm = diags_view(diagnostics@);
                    diagnostics.push(d);
                    let bn = BlockNode { name, args, body, span: sp };
                    let node = Node::Block(bn);
                    assert(crate::ast::node_view(node) == block);
                    let ghost nb_nodes = nodes@;
                    nodes.push(node);
                    proof {
                        crate::ast::lemma_nodes_view_push(nb_nodes, node);
                        assert(cur.nodes == md_flush(old_md).push(block));
                        assert(out0.nodes =~= nodes_view(nodes@));
                        assert(diags_view(diagnostics@) =~= dm.push(d@));
                        assert(out0.diags =~= dacc + adiags + idiags + seq![d@]);
                        assert(diags_view(diagnostics@) =~= d0 + out0.diags);
                    }
                    return (nodes, next, false);
                }
                let bn = BlockNode { name, args, body, span: sp };
                let node = Node::Block(bn);
                assert(crate::ast::node_view(node) == block);
                let ghost nb_nodes = nodes@;
                nodes.push(node);
                proof {
                    crate::ast::lemma_nodes_view_push(nb_nodes, node);
                    let rest = parse_from(lv, next as int, Seq::empty(), stop_on_close);
                    assert(cur == after(md_flush(old_md).push(block), adiags + idiags, rest));
                    assert(nodes_view(nodes@) =~= old_nodes + md_flush(old_md).push(block));
                    dacc = dacc + adiags + idiags;
                    assert(out0.nodes =~= nodes_view(nodes@) + rest.nodes);
                    assert(out0.diags =~= dacc + rest.diags);
                    assert(diags_view(diagnostics@) =~= d0 + dacc);
                    assert(md@ =~= Seq::<char>::empty());
                }
                i = next;
            }
        } else {
            proof {
                lemma_parse_from_text(lv, i as int, md@, stop_on_close);
            }
            add_line(&mut md, line);
            i = i + 1;
        }
    }
    let ghost last_md = md@;
    proof {
        lemma_parse_from_end(lv, n as int, last_md, stop_on_close);
    }
    flush(&mut nodes, &md);
    proof {
        let r = parse_from(lv, n as int, last_md, stop_on_close);
        assert(r.nodes == md_flush(last_md));
        assert(out0.nodes =~= nodes_view(nodes@));
        assert(out0.diags =~= dacc);
    }
    (nodes, n, false)
}


/// Every block of `n`, at any depth, holds each argument key once.
pub open spec fn node_keys_unique(n: NodeV) -> bool
    decreases n,
{
    match n {
        NodeV::Markdown(_) => true,
        NodeV::Block(b) => keys_unique(b.args) && nodes_keys_unique(b.body),
    }
}

/// Every block of `ns`, at any depth, holds each argument key once.
pub open spec fn nodes_keys_unique(ns: Seq<NodeV>) -> bool
    decreases ns,
{
    if ns.len() == 0 {
        true
    } else {
        nodes_keys_unique(ns.drop_last()) && node_keys_unique(ns.last())
    }
}

proof fn lemma_keys_unique_concat(a: Seq<NodeV>, b: Seq<NodeV>)
    requires
        nodes_keys_unique(a),
        nodes_keys_unique(b),
    ensures
        nodes_keys_unique(a + b),
    decreases b.len(),
{
    if b.len() == 0 {
        assert(a + b =~= a);
    } else {
        lemma_keys_unique_concat(a, b.drop_last());
        assert((a + b).drop_last() =~= a + b.drop_last());
        assert((a + b).last() == b.last());
    }
}

proof fn lemma_md_flush_unique(md: Seq<char>)
    ensures
        nodes_keys_unique(md_flush(md)),
{
    let ns = md_flush(md);
    assert(nodes_keys_unique(Seq::<NodeV>::empty()));
    if md.len() > 0 {
        assert(ns.drop_last() =~= Seq::<NodeV>::empty());
        assert(node_keys_unique(ns.last()));
    } else {
        assert(ns =~= Seq::<NodeV>::empty());
    }
}

/// Reading lines gives blocks whose arguments hold each key once.
pub proof fn lemma_parse_from_unique(lines: Seq<Seq<char>>, i: int, md: Seq<char>, stop: bool)
    ensures
        nodes_keys_unique(parse_from(lines, i, md, stop).nodes),
    decreases lines.len() - i,
{
    reveal(parse_from);
    lemma_md_flush_unique(md);
    if 0 <= i < lines.len() {
        let line = lines[i];
        if trim(line) == fence() {
            if !stop {
                lemma_parse_from_unique(lines, i + 1, md + line + seq!['\n'], stop);
            }
        } else if line.len() >= 3 && line.take(3) == fence() {
            let parts = words(line.skip(3));
            if parts.len() == 0 {
                lemma_parse_from_unique(lines, i + 1, Seq::empty(), stop);
                let rest = parse_from(lines, i + 1, Seq::empty(), stop);
                lemma_keys_unique_concat(md_flush(md), rest.nodes);
            } else {
                let (args, adiags) = parse_args_spec(parts.drop_first(), line_offset(lines, i));
                lemma_parse_args_unique(parts.drop_first(), line_offset(lines, i));
                lemma_parse_from_unique(lines, i + 1, Seq::empty(), true);
                let inner = parse_from(lines, i + 1, Seq::empty(), true);
                let block = NodeV::Block(
                    BlockNodeV { name: parts[0], args, body: inner.nodes, span: open_span(lines, i) },
                );
                let pre = md_flush(md).push(block);
                assert(node_keys_unique(block));
                assert(pre.drop_last() =~= md_flush(md));
                assert(nodes_keys_unique(pre));
                if inner.closed && i < inner.next <= lines.len() {
                    lemma_parse_from_unique(lines, inner.next, Seq::empty(), stop);
                    lemma_keys_unique_concat(pre, parse_from(lines, inner.next, Seq::empty(), stop).nodes);
                }
            }
        } else {
            lemma_parse_from_unique(lines, i + 1, md + line + seq!['\n'], stop);
        }
    }
}

/// A line that neither opens nor closes a block.
pub open spec fn plain_line(l: Seq<char>) -> bool {
    trim(l) != fence() && !(l.len() >= 3 && l.take(3) == fence())
}

/// The Markdown text of `lines`: each line followed by a newline.
pub open spec fn md_text(lines: Seq<Seq<char>>) -> Seq<char>
    decreases lines.len(),
{
    if lines.len() == 0 {
        Seq::empty()
    } else {
        lines[0] + seq!['\n'] + md_text(lines.drop_first())
    }
}

proof fn lemma_plain_from(lines: Seq<Seq<char>>, i: int, md: Seq<char>, stop: bool)
    requires
        0 <= i <= lines.len(),
        forall|k: int| i <= k < lines.len() ==> plain_line(#[trigger] lines[k]),
    ensures
        parse_from(lines, i, md, stop) == (ParseOut {
            nodes: md_flush(md + md_text(lines.skip(i))),
            diags: Seq::empty(),
            next: lines.len() as int,
            closed: false,
        }),
    decreases lines.len() - i,
{
    if i == lines.len() {
        lemma_parse_from_end(lines, i, md, stop);
        assert(lines.skip(i) =~= Seq::<Seq<char>>::empty());
        assert(md + md_text(lines.skip(i)) =~= md);
    } else {
        assert(plain_line(lines[i]));
        lemma_parse_from_text(lines, i, md, stop);
        lemma_plain_from(lines, i + 1, md + lines[i] + seq!['\n'], stop);
        assert(lines.skip(i).drop_first() =~= lines.skip(i + 1));
        assert(lines.skip(i)[0] == lines[i]);
        assert(md + lines[i] + seq!['\n'] + md_text(lines.skip(i + 1)) =~= md + md_text(
            lines.skip(i),
        ));
    }
}

/// A document in which no line opens or closes a block parses, with nothing to
/// report, to its lines as one Markdown text, each line followed by a newline (no
/// node at all for an empty document).
pub proof fn lemma_plain_markdown(input: Seq<char>)
    requires
        forall|k: int| 0 <= k < split_lines(input).len() ==> plain_line(#[trigger] split_lines(input)[k]),
    ensures
        parse_spec(input).diags.len() == 0,
        parse_spec(input).nodes == md_flush(md_text(split_lines(input))),
{
    lemma_plain_from(split_lines(input), 0, Seq::empty(), false);
    assert(split_lines(input).skip(0) =~= split_lines(input));
    assert(Seq::<char>::empty() + md_text(split_lines(input)) =~= md_text(split_lines(input)));
}

/// Parses `input` into a document: `Ok` with its nodes when reading it found nothing
/// wrong, else `Err` with every diagnostic, in the order met.
pub fn parse_document(input: &str) -> (r: Result<Document, Vec<Diagnostic>>)
    ensures
        ({
            let out = parse_spec(input@);
            match r {
                Ok(doc) => out.diags.len() == 0 && doc@ == out.nodes && nodes_keys_unique(doc@),
                Err(ds) => out.diags.len() > 0 && diags_view(ds@) == out.diags,
            }
        }),
{
    proof {
        lemma_parse_from_unique(split_lines(input@), 0, Seq::empty(), false);
    }
    let lines = split_into_lines(input);
    let mut diagnostics: Vec<Diagnostic> = Vec::new();
    assert(diags_view(diagnostics@) =~= Seq::<DiagnosticV>::empty());
    let (nodes, _next, _closed) = parse_lines(&lines, 0, &mut diagnostics, false);
    assert(diags_view(diagnostics@) =~= parse_spec(input@).diags);
    if diagnostics.len() == 0 {
        Ok(Document { nodes })
    } else {
        Err(diagnostics)
    }
}

} // verus!