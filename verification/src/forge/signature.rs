use vstd::prelude::*;

use crate::ast::{label_spec, ArgSpec};
use crate::forge::{
    arg_specs_view, block_specs_view, inline_specs_view, BlockSpec, BlockSpecV, InlineSpec,
    InlineSpecV,
};
use crate::text::{join, join_strings, strings_view};

verus! {

broadcast use vstd::string::group_string_axioms;

/// The `name=<label>` entries of a list of argument specifications.
pub open spec fn arg_entries(args: Seq<(Seq<char>, ArgSpec)>) -> Seq<Seq<char>> {
    args.map_values(
        |p: (Seq<char>, ArgSpec)| p.0 + "="@ + label_spec(p.1.arg_type, p.1.required),
    )
}

/// The lines that describe a block extension, ending with an empty line.
pub open spec fn block_lines(b: BlockSpecV) -> Seq<Seq<char>> {
    let args = join(arg_entries(b.args), " "@);
    let head = if args.len() == 0 {
        ":::"@ + b.name
    } else {
        ":::"@ + b.name + " "@ + args
    };
    seq!["Block: "@ + b.name, head] + (if b.body_markdown {
        seq!["Body: markdown"@]
    } else {
        Seq::empty()
    }) + seq![Seq::<char>::empty()]
}

/// The lines that describe an inline extension, ending with an empty line.
pub open spec fn inline_lines(i: InlineSpecV) -> Seq<Seq<char>> {
    let args = join(arg_entries(i.args), " "@);
    let body = if args.len() == 0 {
        "{"@ + i.name + "}"@
    } else {
        "{"@ + i.name + " "@ + args + "}"@
    };
    seq!["Inline: "@ + i.name, body, Seq::<char>::empty()]
}

/// The lines of all block extensions, in order.
pub open spec fn blocks_lines(bs: Seq<BlockSpecV>) -> Seq<Seq<char>>
    decreases bs.len(),
{
    if bs.len() == 0 {
        Seq::empty()
    } else {
        blocks_lines(bs.drop_last()) + block_lines(bs.last())
    }
}

/// The lines of all inline extensions, in order.
pub open spec fn inlines_lines(is: Seq<InlineSpecV>) -> Seq<Seq<char>>
    decreases is.len(),
{
    if is.len() == 0 {
        Seq::empty()
    } else {
        inlines_lines(is.drop_last()) + inline_lines(is.last())
    }
}

/// `lines` without its trailing empty lines.
pub open spec fn trim_trailing_empty(lines: Seq<Seq<char>>) -> Seq<Seq<char>>
    decreases lines.len(),
{
    if lines.len() > 0 && lines.last().len() == 0 {
        trim_trailing_empty(lines.drop_last())
    } else {
        lines
    }
}

/// The signature: blocks then inline extensions, each described by its lines, the
/// lines joined by newlines, without trailing empty lines.
pub open spec fn signature_spec(blocks: Seq<BlockSpecV>, inlines: Seq<InlineSpecV>) -> Seq<char> {
    join(trim_trailing_empty(blocks_lines(blocks) + inlines_lines(inlines)), "\n"@)
}

/// The `name=<label>` entries of `args`, joined by spaces.
fn args_text(args: &Vec<(String, ArgSpec)>) -> (r: String)
    ensures
        r@ == join(arg_entries(arg_specs_view(args@)), " "@),
{
    let mut entries: Vec<String> = Vec::new();
    let ghost ev = arg_entries(arg_specs_view(args@));
    let n = args.len();
    let mut k: usize = 0;
    while k < n
        invariant
            k <= n == args@.len(),
            ev == arg_entries(arg_specs_view(args@)),
            strings_view(entries@) == ev.take(k as int),
        decreases n - k,
    {
        let mut e = args[k].0.clone();
        e.append("=");
        let label = args[k].1.arg_type.signature_label(args[k].1.required);
        e.append(label.as_str());
        let ghost old_entries = entries@;
        entries.push(e);
        assert(ev[k as int] == e@);
        assert(strings_view(entries@) =~= strings_view(old_entries).push(e@));
        assert(strings_view(entries@) =~= ev.take(k + 1));
        k = k + 1;
    }
    assert(ev.take(n as int) =~= ev);
    join_strings(entries.as_slice(), " ")
}

/// Appends `s` to `lines`.
fn push_line(lines: &mut Vec<String>, s: String)
    ensures
        strings_view(final(lines)@) == strings_view(old(lines)@).push(s@),
{
    lines.push(s);
    assert(strings_view(lines@) =~= strings_view(old(lines)@).push(s@));
}

/// Builds the signature text of the given extensions, for a language model to follow.
pub fn build_signature(blocks: &Vec<BlockSpec>, inlines: &Vec<InlineSpec>) -> (r: String)
    ensures
        r@ == signature_spec(block_specs_view(blocks@), inline_specs_view(inlines@)),
{
    let ghost bv = block_specs_view(blocks@);
    let ghost iv = inline_specs_view(inlines@);
    let mut lines: Vec<String> = Vec::new();
    let nb = blocks.len();
    let mut k: usize = 0;
    assert(bv.take(0) =~= Seq::<BlockSpecV>::empty());
    assert(strings_view(lines@) =~= blocks_lines(bv.take(0)));
    while k < nb
        invariant
            k <= nb == blocks@.len(),
            bv == block_specs_view(blocks@),
            strings_view(lines@) == blocks_lines(bv.take(k as int)),
        decreases nb - k,
    {
        assert(bv.take(k + 1).drop_last() =~= bv.take(k as int));
        assert(bv.take(k + 1).last() == blocks@[k as int]@);
        let b = &blocks[k];
        let ghost before = strings_view(lines@);
        let mut l1 = String::from_str("Block: ");
        l1.append(b.name.as_str());
        push_line(&mut lines, l1);
        let args = args_text(&b.args);
        let mut head = String::from_str(":::");
        head.append(b.name.as_str());
        if !args.as_str().is_empty() {
            head.append(" ");
            head.append(args.as_str());
        }
        push_line(&mut lines, head);
        if b.body_markdown {
            push_line(&mut lines, String::from_str("Body: markdown"));
        }
        push_line(&mut lines, String::new());
        assert(strings_view(lines@) =~= before + block_lines(b@));
        k = k + 1;
    }
    assert(bv.take(nb as int) =~= bv);
    let ghost mid = strings_view(lines@);
    let ni = inlines.len();
    let mut k: usize = 0;
    assert(iv.take(0) =~= Seq::<InlineSpecV>::empty());
    assert(strings_view(lines@) =~= mid + inlines_lines(iv.take(0)));
    while k < ni
        invariant
            k <= ni == inlines@.len(),
            iv == inline_specs_view(inlines@),
            strings_view(lines@) == mid + inlines_lines(iv.take(k as int)),
        decreases ni - k,
    {
        assert(iv.take(k + 1).drop_last() =~= iv.take(k as int));
        assert(iv.take(k + 1).last() == inlines@[k as int]@);
        let it = &inlines[k];
        let ghost before = strings_view(lines@);
        let mut l1 = String::from_str("Inline: ");
        l1.append(it.name.as_str());
        push_line(&mut lines, l1);
        let args = args_text(&it.args);
        let mut body = String::from_str("{");
        body.append(it.name.as_str());
        if !args.as_str().is_empty() {
            body.append(" ");
            body.append(args.as_str());
        }
        body.append("}");
        push_line(&mut lines, body);
        push_line(&mut lines, String::new());
        assert(strings_view(lines@) =~= before + inline_lines(it@));
        assert(strings_view(lines@) =~= mid + inlines_lines(iv.take(k + 1)));
        k = k + 1;
    }
    assert(iv.take(ni as int) =~= iv);
    let ghost all = strings_view(lines@);
    while lines.len() > 0 && lines[lines.len() - 1].as_str().is_empty()
        invariant
            trim_trailing_empty(all) == trim_trailing_empty(strings_view(lines@)),
        decreases lines@.len(),
    {
        let ghost before = strings_view(lines@);
        lines.pop();
        assert(strings_view(lines@) =~= before.drop_last());
    }
    assert(trim_trailing_empty(strings_view(lines@)) == strings_view(lines@));
    join_strings(lines.as_slice(), "\n")
}

} // verus!
