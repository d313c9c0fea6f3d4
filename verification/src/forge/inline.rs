use vstd::prelude::*;

use crate::ast::{args_view, ArgValue, InlineExt, InlineExtV, Span};
use crate::forge::args::{
    inline_args_spec, insert_arg, keys_unique, lemma_inline_args_unique, split_token,
};
use crate::text::{
    blen, char_width, chars_of, cwidth, first_index, lemma_blen_take, lemma_blen_take_step,
    lemma_first_index_at, split_words, strings_view, words,
};

verus! {

broadcast use vstd::string::group_string_axioms;

/// An inline extension found in a text, with the characters `[lo, hi)` it spans.
pub struct InlineHit {
    pub ext: InlineExtV,
    pub lo: int,
    pub hi: int,
}

/// The inline extensions of `t` from character `i` on: each `{`, up to the next `}`,
/// whose content has at least one word; the first word names it and the rest are its
/// `key=value` arguments. A `{` without a later `}` ends the search.
pub open spec fn inline_scan(t: Seq<char>, i: int) -> Seq<InlineHit>
    decreases t.len() - i,
{
    if i < 0 || i >= t.len() {
        Seq::empty()
    } else if t[i] != '{' {
        inline_scan(t, i + 1)
    } else {
        let j = i + 1 + first_index(t.skip(i + 1), '}');
        if j >= t.len() {
            Seq::empty()
        } else {
            let parts = words(t.subrange(i + 1, j));
            let rest = inline_scan(t, j + 1);
            if parts.len() > 0 {
                seq![
                    InlineHit {
                        ext: InlineExtV {
                            name: parts[0],
                            args: inline_args_spec(parts.drop_first()),
                            span: Span {
                                start: blen(t.take(i)) as usize,
                                end: blen(t.take(j + 1)) as usize,
                            },
                        },
                        lo: i,
                        hi: j + 1,
                    },
                ] + rest
            } else {
                rest
            }
        }
    }
}

/// The inline extensions of `t`, in order.
pub open spec fn inline_exts_spec(t: Seq<char>) -> Seq<InlineExtV> {
    inline_scan(t, 0).map_values(|h: InlineHit| h.ext)
}

/// The extensions found from character `i` on lie after `i`, within `t`, in order,
/// without overlapping, and each spans a `{` to the next `}`.
pub proof fn lemma_inline_scan_bounds(t: Seq<char>, i: int)
    requires
        0 <= i,
    ensures
        forall|k: int|
            0 <= k < inline_scan(t, i).len() ==> i <= (#[trigger] inline_scan(t, i)[k]).lo
                < inline_scan(t, i)[k].hi <= t.len() && t[inline_scan(t, i)[k].lo] == '{'
                && t[inline_scan(t, i)[k].hi - 1] == '}',
        forall|k: int, m: int|
            0 <= k < m < inline_scan(t, i).len() ==> (#[trigger] inline_scan(t, i)[k]).hi
                <= (#[trigger] inline_scan(t, i)[m]).lo,
    decreases t.len() - i,
{
    let all = inline_scan(t, i);
    if i < t.len() {
        if t[i] != '{' {
            lemma_inline_scan_bounds(t, i + 1);
            assert(all == inline_scan(t, i + 1));
        } else {
            crate::text::lemma_first_index(t.skip(i + 1), '}');
            let j = i + 1 + first_index(t.skip(i + 1), '}');
            if j < t.len() {
                assert(t.skip(i + 1)[j - (i + 1)] == t[j]);
                lemma_inline_scan_bounds(t, j + 1);
                let rest = inline_scan(t, j + 1);
                if words(t.subrange(i + 1, j)).len() > 0 {
                    assert(all[0].lo == i && all[0].hi == j + 1);
                    assert forall|k: int| 0 < k < all.len() implies #[trigger] all[k] == rest[k - 1] by {}
                    assert forall|k: int| 0 <= k < all.len() implies i <= (#[trigger] all[k]).lo
                        < all[k].hi <= t.len() && t[all[k].lo] == '{' && t[all[k].hi - 1] == '}' by {
                        if k > 0 {
                            assert(all[k] == rest[k - 1]);
                        }
                    }
                    assert forall|k: int, m: int| 0 <= k < m < all.len() implies (#[trigger] all[k]).hi
                        <= (#[trigger] all[m]).lo by {
                        assert(all[m] == rest[m - 1]);
                        if k > 0 {
                            assert(all[k] == rest[k - 1]);
                        }
                    }
                } else {
                    assert(all == rest);
                }
            } else {
                assert(all.len() == 0);
            }
        }
    }
}

/// Each extension found holds each argument key once.
pub proof fn lemma_inline_scan_unique(t: Seq<char>, i: int)
    ensures
        forall|k: int|
            0 <= k < inline_scan(t, i).len() ==> keys_unique((#[trigger] inline_scan(t, i)[k]).ext.args),
    decreases t.len() - i,
{
    let all = inline_scan(t, i);
    if 0 <= i < t.len() {
        if t[i] != '{' {
            lemma_inline_scan_unique(t, i + 1);
            assert(all == inline_scan(t, i + 1));
        } else {
            let j = i + 1 + first_index(t.skip(i + 1), '}');
            if j < t.len() {
                lemma_inline_scan_unique(t, j + 1);
                let parts = words(t.subrange(i + 1, j));
                let rest = inline_scan(t, j + 1);
                if parts.len() > 0 {
                    lemma_inline_args_unique(parts.drop_first());
                    assert(all[0].ext.args == inline_args_spec(parts.drop_first()));
                    assert forall|k: int| 0 <= k < all.len() implies keys_unique(
                        (#[trigger] all[k]).ext.args,
                    ) by {
                        if k > 0 {
                            assert(all[k] == rest[k - 1]);
                        }
                    }
                } else {
                    assert(all == rest);
                }
            } else {
                assert(all.len() == 0);
            }
        }
    }
}

/// `exts` and `ranges` describe `hits`.
pub open spec fn hits_match(exts: Seq<InlineExt>, ranges: Seq<(usize, usize)>, hits: Seq<InlineHit>) -> bool {
    &&& exts.len() == hits.len()
    &&& ranges.len() == hits.len()
    &&& forall|k: int|
        0 <= k < hits.len() ==> {
            &&& (#[trigger] exts[k])@ == hits[k].ext
            &&& ranges[k].0 == hits[k].lo
            &&& ranges[k].1 == hits[k].hi
        }
}

/// Reads the `key=value` tokens `tokens[lo..]` of an inline extension.
fn inline_args(tokens: &[String], lo: usize) -> (r: Vec<(String, ArgValue)>)
    requires
        lo <= tokens@.len(),
    ensures
        args_view(r@) == inline_args_spec(strings_view(tokens@).skip(lo as int)),
{
    let mut args: Vec<(String, ArgValue)> = Vec::new();
    let n = tokens.len();
    let mut i = lo;
    assert(strings_view(tokens@).subrange(lo as int, lo as int) =~= Seq::<Seq<char>>::empty());
    while i < n
        invariant
            lo <= i <= n == tokens@.len(),
            args_view(args@) == inline_args_spec(strings_view(tokens@).subrange(lo as int, i as int)),
        decreases n - i,
    {
        let ghost prev = strings_view(tokens@).subrange(lo as int, i as int);
        assert(strings_view(tokens@).subrange(lo as int, i + 1).drop_last() =~= prev);
        assert(strings_view(tokens@).subrange(lo as int, i + 1).last() == tokens@[i as int]@);
        if let Some((key, value)) = split_token(tokens[i].as_str()) {
            insert_arg(&mut args, key, value);
        }
        i = i + 1;
    }
    assert(strings_view(tokens@).subrange(lo as int, n as int) =~= strings_view(tokens@).skip(lo as int));
    args
}

/// The inline extensions of the characters `tc`, with the character range of each.
pub fn scan_inline(tc: &[char]) -> (r: (Vec<InlineExt>, Vec<(usize, usize)>))
    requires
        blen(tc@) <= usize::MAX,
    ensures
        hits_match(r.0@, r.1@, inline_scan(tc@, 0)),
{
    let n = tc.len();
    let mut exts: Vec<InlineExt> = Vec::new();
    let mut ranges: Vec<(usize, usize)> = Vec::new();
    let mut i: usize = 0;
    let mut bi: usize = 0;
    assert(tc@.take(0) =~= Seq::<char>::empty());
    assert(blen(Seq::<char>::empty()) == 0) by {
        assert(vstd::utf8::encode_utf8(Seq::<char>::empty()) =~= Seq::<u8>::empty());
    }
    assert(hits_match(exts@, ranges@, Seq::<InlineHit>::empty()));
    assert(inline_scan(tc@, 0) =~= Seq::<InlineHit>::empty() + inline_scan(tc@, 0));
    assert(cwidth('{') == 1 && cwidth('}') == 1);
    while i < n
        invariant
            i <= n == tc@.len(),
            blen(tc@) <= usize::MAX,
            cwidth('{') == 1 && cwidth('}') == 1,
            bi == blen(tc@.take(i as int)),
            exists|acc: Seq<InlineHit>|
                hits_match(exts@, ranges@, acc) && inline_scan(tc@, 0) == acc + inline_scan(tc@, i as int),
        decreases n - i,
    {
        let ghost acc = choose|acc: Seq<InlineHit>|
            hits_match(exts@, ranges@, acc) && inline_scan(tc@, 0) == acc + inline_scan(tc@, i as int);
        proof {
            lemma_blen_take_step(tc@, i as int);
            lemma_blen_take(tc@, i + 1);
        }
        if tc[i] != '{' {
            bi = bi + char_width(tc[i]);
            i = i + 1;
            assert(hits_match(exts@, ranges@, acc) && inline_scan(tc@, 0) == acc + inline_scan(tc@, i as int));
        } else {
            let mut j = i + 1;
            let mut bj = bi + 1;
            while j < n && tc[j] != '}'
                invariant
                    i < j <= n == tc@.len(),
                    blen(tc@) <= usize::MAX,
                    cwidth('{') == 1 && cwidth('}') == 1,
                    bj == blen(tc@.take(j as int)),
                    forall|k: int| i + 1 <= k < j ==> tc@[k] != '}',
                decreases n - j,
            {
                proof {
                    lemma_blen_take_step(tc@, j as int);
                    lemma_blen_take(tc@, j + 1);
                }
                bj = bj + char_width(tc[j]);
                j = j + 1;
            }
            proof {
                let t = tc@.skip(i + 1);
                assert forall|k: int| 0 <= k < j - (i + 1) implies t[k] != '}' by {
                    assert(t[k] == tc@[k + i + 1]);
                }
                if j < n {
                    assert(t[j - (i + 1)] == tc@[j as int]);
                }
                lemma_first_index_at(t, '}', j - (i + 1));
            }
            if j >= n {
                assert(inline_scan(tc@, i as int) == Seq::<InlineHit>::empty());
                assert(inline_scan(tc@, 0) =~= acc);
                assert(inline_scan(tc@, n as int) =~= Seq::<InlineHit>::empty());
                assert(inline_scan(tc@, 0) =~= acc + inline_scan(tc@, n as int));
                i = n;
                bi = bj;
            } else {
                proof {
                    lemma_blen_take_step(tc@, j as int);
                    lemma_blen_take(tc@, j + 1);
                }
                let mut parts = split_words(tc, i + 1, j);
                if parts.len() > 0 {
                    let ghost pv = strings_view(parts@);
                    let name = parts[0].clone();
                    let args = inline_args(parts.as_slice(), 1);
                    assert(pv.skip(1) =~= pv.drop_first());
                    let ext = InlineExt { name, args, span: Span { start: bi, end: bj + 1 } };
                    let ghost hit = InlineHit { ext: ext@, lo: i as int, hi: j + 1 };
                    exts.push(ext);
                    ranges.push((i, j + 1));
                    proof {
                        let acc2 = acc.push(hit);
                        assert(hits_match(exts@, ranges@, acc2));
                        assert(inline_scan(tc@, i as int) == seq![hit] + inline_scan(tc@, j + 1));
                        assert(inline_scan(tc@, 0) =~= acc2 + inline_scan(tc@, j + 1));
                    }
                } else {
                    assert(inline_scan(tc@, 0) =~= acc + inline_scan(tc@, j + 1));
                }
                bi = bj + 1;
                i = j + 1;
            }
        }
    }
    let ghost acc = choose|acc: Seq<InlineHit>|
        hits_match(exts@, ranges@, acc) && inline_scan(tc@, 0) == acc + inline_scan(tc@, i as int);
    assert(inline_scan(tc@, 0) =~= acc);
    (exts, ranges)
}

/// The inline extensions `{name key=value ...}` of `text`, in order; spans are byte
/// offsets in `text`.
pub fn parse_inline_exts(text: &str) -> (r: Vec<InlineExt>)
    ensures
        r@.map_values(|e: InlineExt| e@) == inline_exts_spec(text@),
        forall|k: int| 0 <= k < r@.len() ==> keys_unique((#[trigger] r@[k])@.args),
{
    proof {
        lemma_inline_scan_unique(text@, 0);
    }
    // The bytes of `text` are in memory, so their number fits in a `usize`.
    let _byte_len: usize = text.as_bytes().len();
    let tc = chars_of(text);
    let (exts, _ranges) = scan_inline(tc.as_slice());
    assert(exts@.map_values(|e: InlineExt| e@) =~= inline_exts_spec(text@));
    exts
}

} // verus!
