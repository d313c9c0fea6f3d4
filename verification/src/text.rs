use vstd::prelude::*;
use vstd::utf8::*;

verus! {

broadcast use vstd::string::group_string_axioms;

/// The characters of `s`, in order.
pub fn chars_of(s: &str) -> (r: Vec<char>)
    ensures
        r@ == s@,
{
    let mut r: Vec<char> = Vec::new();
    for c in iter: s.chars()
        invariant
            r@ == iter.seq().take(iter.index() as int),
    {
        r.push(c);
    }
    r
}


/// `String::push` appends one character to the end of the string.
pub assume_specification[ std::string::String::push ](s: &mut std::string::String, ch: char)
    ensures
        final(s)@ == old(s)@.push(ch),
;

/// The string made of the characters `cs[lo..hi]`.
pub fn string_of(cs: &[char], lo: usize, hi: usize) -> (r: String)
    requires
        lo <= hi <= cs@.len(),
    ensures
        r@ == cs@.subrange(lo as int, hi as int),
{
    let mut r = String::new();
    let mut i = lo;
    while i < hi
        invariant
            lo <= i <= hi <= cs@.len(),
            r@ == cs@.subrange(lo as int, i as int),
        decreases hi - i,
    {
        r.push(cs[i]);
        i = i + 1;
    }
    r
}


// ---------------------------------------------------------------------------
// Byte lengths (UTF-8)
// ---------------------------------------------------------------------------

/// Number of bytes of the UTF-8 encoding of `s`.
pub open spec fn blen(s: Seq<char>) -> nat {
    encode_utf8(s).len()
}

/// Number of bytes of the UTF-8 encoding of `c`.
pub open spec fn cwidth(c: char) -> nat {
    encode_scalar(c as u32).len()
}

/// The UTF-8 encoding of a concatenation is the concatenation of the encodings.
pub proof fn lemma_encode_concat(a: Seq<char>, b: Seq<char>)
    ensures
        encode_utf8(a + b) == encode_utf8(a) + encode_utf8(b),
    decreases a.len(),
{
    if a.len() == 0 {
        assert(a + b =~= b);
        assert(encode_utf8(a) =~= Seq::<u8>::empty());
        assert(encode_utf8(a) + encode_utf8(b) =~= encode_utf8(b));
    } else {
        lemma_encode_concat(a.drop_first(), b);
        assert((a + b).drop_first() =~= a.drop_first() + b);
        assert(encode_utf8(a + b) =~= encode_scalar(a[0] as u32) + encode_utf8(a.drop_first() + b));
    }
}

/// Byte lengths add up over a concatenation.
pub proof fn lemma_blen_concat(a: Seq<char>, b: Seq<char>)
    ensures
        blen(a + b) == blen(a) + blen(b),
{
    lemma_encode_concat(a, b);
}

/// One character takes its own width in bytes.
pub proof fn lemma_blen_single(c: char)
    ensures
        blen(seq![c]) == cwidth(c),
{
    assert(seq![c].drop_first() =~= Seq::<char>::empty());
    assert(encode_utf8(seq![c].drop_first()) =~= Seq::<u8>::empty());
    assert(encode_utf8(seq![c]) =~= encode_scalar(c as u32));
}

/// Pushing a character adds its width.
pub proof fn lemma_blen_push(s: Seq<char>, c: char)
    ensures
        blen(s.push(c)) == blen(s) + cwidth(c),
{
    assert(s.push(c) =~= s + seq![c]);
    lemma_blen_concat(s, seq![c]);
    lemma_blen_single(c);
}

/// The bytes of a prefix never exceed those of the whole.
pub proof fn lemma_blen_take(s: Seq<char>, i: int)
    requires
        0 <= i <= s.len(),
    ensures
        blen(s.take(i)) <= blen(s),
        blen(s.take(i)) + blen(s.skip(i)) == blen(s),
{
    assert(s =~= s.take(i) + s.skip(i));
    lemma_blen_concat(s.take(i), s.skip(i));
}

/// The bytes of `s[a..b]` are those of `s[..b]` less those of `s[..a]`.
pub proof fn lemma_blen_subrange(s: Seq<char>, a: int, b: int)
    requires
        0 <= a <= b <= s.len(),
    ensures
        blen(s.take(a)) + blen(s.subrange(a, b)) == blen(s.take(b)),
        blen(s.subrange(a, b)) <= blen(s),
{
    assert(s.take(b) =~= s.take(a) + s.subrange(a, b));
    lemma_blen_concat(s.take(a), s.subrange(a, b));
    lemma_blen_take(s, b);
}

/// The prefix one character longer is that character's width longer.
pub proof fn lemma_blen_take_step(s: Seq<char>, i: int)
    requires
        0 <= i < s.len(),
    ensures
        blen(s.take(i + 1)) == blen(s.take(i)) + cwidth(s[i]),
{
    assert(s.take(i + 1) =~= s.take(i).push(s[i]));
    lemma_blen_push(s.take(i), s[i]);
}

/// Number of bytes of the UTF-8 encoding of `c`.
pub fn char_width(c: char) -> (w: usize)
    ensures
        w == cwidth(c),
        1 <= w <= 4,
        (c as u32) < 0x80 ==> w == 1,
{
    proof {
        char_is_scalar(c);
    }
    let v = c as u32;
    if v <= 0x7F {
        1
    } else if v <= 0x7FF {
        2
    } else if v <= 0xFFFF {
        3
    } else {
        4
    }
}


// ---------------------------------------------------------------------------
// Whitespace, searching, trimming, splitting
// ---------------------------------------------------------------------------

/// Unicode `White_Space`, the property that `char::is_whitespace` tests.
pub open spec fn is_ws(c: char) -> bool {
    let v = c as u32;
    ||| 0x09 <= v <= 0x0D
    ||| v == 0x20
    ||| v == 0x85
    ||| v == 0xA0
    ||| v == 0x1680
    ||| 0x2000 <= v <= 0x200A
    ||| v == 0x2028
    ||| v == 0x2029
    ||| v == 0x202F
    ||| v == 0x205F
    ||| v == 0x3000
}

/// Whether `c` is Unicode whitespace.
pub fn is_whitespace(c: char) -> (b: bool)
    ensures
        b == is_ws(c),
{
    let v = c as u32;
    (0x09 <= v && v <= 0x0D) || v == 0x20 || v == 0x85 || v == 0xA0 || v == 0x1680 || (0x2000
        <= v && v <= 0x200A) || v == 0x2028 || v == 0x2029 || v == 0x202F || v == 0x205F || v
        == 0x3000
}

/// Index of the first `c` in `t`, or `t.len()` when there is none.
pub open spec fn first_index(t: Seq<char>, c: char) -> nat
    decreases t.len(),
{
    if t.len() == 0 {
        0
    } else if t[0] == c {
        0
    } else {
        1 + first_index(t.drop_first(), c)
    }
}

/// `first_index` finds the first `c`, and nothing before it is `c`.
pub proof fn lemma_first_index(t: Seq<char>, c: char)
    ensures
        first_index(t, c) <= t.len(),
        first_index(t, c) < t.len() ==> t[first_index(t, c) as int] == c,
        forall|k: int| 0 <= k < first_index(t, c) ==> t[k] != c,
    decreases t.len(),
{
    if t.len() > 0 && t[0] != c {
        lemma_first_index(t.drop_first(), c);
        assert forall|k: int| 0 <= k < first_index(t, c) implies t[k] != c by {
            if k > 0 {
                assert(t[k] == t.drop_first()[k - 1]);
            }
        }
    }
}

/// `m` is the first index of `c` when no earlier character is `c`
/// and `t[m]` is `c` (or `m` is the end).
pub proof fn lemma_first_index_at(t: Seq<char>, c: char, m: int)
    requires
        0 <= m <= t.len(),
        forall|k: int| 0 <= k < m ==> t[k] != c,
        m < t.len() ==> t[m] == c,
    ensures
        first_index(t, c) == m,
    decreases t.len(),
{
    if t.len() > 0 && m > 0 {
        assert forall|k: int| 0 <= k < m - 1 implies t.drop_first()[k] != c by {
            assert(t.drop_first()[k] == t[k + 1]);
        }
        lemma_first_index_at(t.drop_first(), c, m - 1);
    }
}

/// `s` without its leading whitespace.
pub open spec fn trim_start(s: Seq<char>) -> Seq<char>
    decreases s.len(),
{
    if s.len() > 0 && is_ws(s[0]) {
        trim_start(s.drop_first())
    } else {
        s
    }
}

/// `s` without its trailing whitespace.
pub open spec fn trim_end(s: Seq<char>) -> Seq<char>
    decreases s.len(),
{
    if s.len() > 0 && is_ws(s.last()) {
        trim_end(s.drop_last())
    } else {
        s
    }
}

/// `s` without leading and trailing whitespace, as `str::trim` gives it.
pub open spec fn trim(s: Seq<char>) -> Seq<char> {
    trim_end(trim_start(s))
}

/// The words of `cur + s`, where `cur` is a word being read: the maximal runs of
/// characters that are not whitespace.
pub open spec fn words_acc(s: Seq<char>, cur: Seq<char>) -> Seq<Seq<char>>
    decreases s.len(),
{
    if s.len() == 0 {
        if cur.len() > 0 {
            seq![cur]
        } else {
            Seq::empty()
        }
    } else if is_ws(s[0]) {
        (if cur.len() > 0 {
            seq![cur]
        } else {
            Seq::empty()
        }) + words_acc(s.drop_first(), Seq::empty())
    } else {
        words_acc(s.drop_first(), cur.push(s[0]))
    }
}

/// The words of `s`, as `str::split_whitespace` yields them.
pub open spec fn words(s: Seq<char>) -> Seq<Seq<char>> {
    words_acc(s, Seq::empty())
}

/// Every word of `cur + s` takes no more bytes than `cur + s`.
pub proof fn lemma_words_acc_blen(s: Seq<char>, cur: Seq<char>)
    ensures
        forall|k: int|
            0 <= k < words_acc(s, cur).len() ==> blen(#[trigger] words_acc(s, cur)[k]) <= blen(cur)
                + blen(s),
    decreases s.len(),
{
    if s.len() == 0 {
    } else {
        assert(s =~= seq![s[0]] + s.drop_first());
        lemma_blen_concat(seq![s[0]], s.drop_first());
        lemma_blen_single(s[0]);
        if is_ws(s[0]) {
            lemma_words_acc_blen(s.drop_first(), Seq::empty());
            assert(blen(Seq::<char>::empty()) == 0) by {
                assert(encode_utf8(Seq::<char>::empty()) =~= Seq::<u8>::empty());
            }
            let pre: Seq<Seq<char>> = if cur.len() > 0 {
                seq![cur]
            } else {
                Seq::empty()
            };
            assert forall|k: int|
                0 <= k < words_acc(s, cur).len() implies blen(
                #[trigger] words_acc(s, cur)[k],
            ) <= blen(cur) + blen(s) by {
                if k >= pre.len() {
                    assert(words_acc(s, cur)[k] == words_acc(s.drop_first(), Seq::empty())[k
                        - pre.len()]);
                }
            }
        } else {
            lemma_words_acc_blen(s.drop_first(), cur.push(s[0]));
            lemma_blen_push(cur, s[0]);
            assert(words_acc(s, cur) == words_acc(s.drop_first(), cur.push(s[0])));
            assert forall|k: int|
                0 <= k < words_acc(s, cur).len() implies blen(
                #[trigger] words_acc(s, cur)[k],
            ) <= blen(cur) + blen(s) by {
                assert(words_acc(s, cur)[k] == words_acc(s.drop_first(), cur.push(s[0]))[k]);
            }
        }
    }
}

/// Every word of `s` takes no more bytes than `s`.
pub proof fn lemma_words_blen(s: Seq<char>)
    ensures
        forall|k: int| 0 <= k < words(s).len() ==> blen(#[trigger] words(s)[k]) <= blen(s),
{
    lemma_words_acc_blen(s, Seq::empty());
    assert(blen(Seq::<char>::empty()) == 0) by {
        assert(encode_utf8(Seq::<char>::empty()) =~= Seq::<u8>::empty());
    }
}

/// Models of a list of strings.
pub open spec fn strings_view(v: Seq<String>) -> Seq<Seq<char>> {
    v.map_values(|s: String| s@)
}

/// The words of `cs[lo..hi]`.
pub fn split_words(cs: &[char], lo: usize, hi: usize) -> (r: Vec<String>)
    requires
        lo <= hi <= cs@.len(),
    ensures
        strings_view(r@) == words(cs@.subrange(lo as int, hi as int)),
{
    let ghost s = cs@.subrange(lo as int, hi as int);
    let mut r: Vec<String> = Vec::new();
    let mut start = lo;
    let mut i = lo;
    assert(cs@.subrange(lo as int, lo as int) =~= Seq::<char>::empty());
    assert(strings_view(r@) =~= Seq::<Seq<char>>::empty());
    assert(words(s) =~= strings_view(r@) + words_acc(s, Seq::empty()));
    while i < hi
        invariant
            lo <= start <= i <= hi <= cs@.len(),
            s == cs@.subrange(lo as int, hi as int),
            words(s) == strings_view(r@) + words_acc(
                cs@.subrange(i as int, hi as int),
                cs@.subrange(start as int, i as int),
            ),
        decreases hi - i,
    {
        let ghost rest = cs@.subrange(i as int, hi as int);
        let ghost cur = cs@.subrange(start as int, i as int);
        assert(rest.drop_first() =~= cs@.subrange(i + 1, hi as int));
        if is_whitespace(cs[i]) {
            let ghost old_r = r@;
            if start < i {
                let w = string_of(cs, start, i);
                r.push(w);
                assert(strings_view(r@) =~= strings_view(old_r).push(cur));
            }
            assert(cs@.subrange(i + 1, i + 1) =~= Seq::<char>::empty());
            start = i + 1;
        } else {
            assert(cur.push(cs[i as int]) =~= cs@.subrange(start as int, i + 1));
        }
        i = i + 1;
    }
    let ghost old_r = r@;
    assert(cs@.subrange(hi as int, hi as int) =~= Seq::<char>::empty());
    if start < hi {
        let w = string_of(cs, start, hi);
        r.push(w);
        assert(strings_view(r@) =~= strings_view(old_r).push(cs@.subrange(start as int, hi as int)));
    } else {
        assert(strings_view(r@) =~= strings_view(old_r) + Seq::<Seq<char>>::empty());
    }
    r
}


/// Trimming the start drops exactly the leading whitespace, ending at `lo`.
pub proof fn lemma_trim_start_at(s: Seq<char>, lo: int)
    requires
        0 <= lo <= s.len(),
        forall|k: int| 0 <= k < lo ==> is_ws(#[trigger] s[k]),
        lo < s.len() ==> !is_ws(s[lo]),
    ensures
        trim_start(s) == s.skip(lo),
    decreases lo,
{
    if lo == 0 {
        assert(s.skip(0) =~= s);
    } else {
        assert forall|k: int| 0 <= k < lo - 1 implies is_ws(#[trigger] s.drop_first()[k]) by {
            assert(s.drop_first()[k] == s[k + 1]);
        }
        lemma_trim_start_at(s.drop_first(), lo - 1);
        assert(s.drop_first().skip(lo - 1) =~= s.skip(lo));
    }
}

/// Trimming the end drops exactly the trailing whitespace, starting at `m`.
pub proof fn lemma_trim_end_at(t: Seq<char>, m: int)
    requires
        0 <= m <= t.len(),
        forall|k: int| m <= k < t.len() ==> is_ws(#[trigger] t[k]),
        m > 0 ==> !is_ws(t[m - 1]),
    ensures
        trim_end(t) == t.take(m),
    decreases t.len() - m,
{
    if m == t.len() {
        assert(t.take(m) =~= t);
    } else {
        assert forall|k: int| m <= k < t.len() - 1 implies is_ws(#[trigger] t.drop_last()[k]) by {
            assert(t.drop_last()[k] == t[k]);
        }
        lemma_trim_end_at(t.drop_last(), m);
        assert(t.drop_last().take(m) =~= t.take(m));
    }
}

/// The three colons that open and close a block.
pub open spec fn fence() -> Seq<char> {
    seq![':', ':', ':']
}

/// Whether `cs` is a closing line: `:::` with only whitespace around it.
pub fn is_fence_line(cs: &[char]) -> (b: bool)
    ensures
        b == (trim(cs@) == fence()),
{
    let n = cs.len();
    let mut lo: usize = 0;
    while lo < n && is_whitespace(cs[lo])
        invariant
            lo <= n == cs@.len(),
            forall|k: int| 0 <= k < lo ==> is_ws(#[trigger] cs@[k]),
        decreases n - lo,
    {
        lo = lo + 1;
    }
    proof {
        lemma_trim_start_at(cs@, lo as int);
    }
    let ghost t = cs@.skip(lo as int);
    let mut hi: usize = n;
    while hi > lo && is_whitespace(cs[hi - 1])
        invariant
            lo <= hi <= n == cs@.len(),
            t == cs@.skip(lo as int),
            forall|k: int| hi <= k < n ==> is_ws(#[trigger] cs@[k]),
        decreases hi,
    {
        hi = hi - 1;
    }
    proof {
        assert forall|k: int| hi - lo <= k < t.len() implies is_ws(#[trigger] t[k]) by {
            assert(t[k] == cs@[k + lo]);
        }
        lemma_trim_end_at(t, hi - lo);
        assert(t.take(hi - lo) =~= cs@.subrange(lo as int, hi as int));
    }
    if hi - lo == 3 && cs[lo] == ':' && cs[lo + 1] == ':' && cs[lo + 2] == ':' {
        assert(cs@.subrange(lo as int, hi as int) =~= fence());
        true
    } else {
        proof {
            if trim(cs@) == fence() {
                assert(cs@.subrange(lo as int, hi as int)[0] == ':');
                assert(cs@.subrange(lo as int, hi as int)[1] == ':');
                assert(cs@.subrange(lo as int, hi as int)[2] == ':');
            }
        }
        false
    }
}

/// Whether `cs` starts with `:::`.
pub fn starts_with_fence(cs: &[char]) -> (b: bool)
    ensures
        b == (cs@.len() >= 3 && cs@.take(3) == fence()),
{
    if cs.len() >= 3 && cs[0] == ':' && cs[1] == ':' && cs[2] == ':' {
        assert(cs@.take(3) =~= fence());
        true
    } else {
        proof {
            if cs@.len() >= 3 && cs@.take(3) == fence() {
                assert(cs@.take(3)[0] == ':' && cs@.take(3)[1] == ':' && cs@.take(3)[2] == ':');
            }
        }
        false
    }
}

// ---------------------------------------------------------------------------
// Joining
// ---------------------------------------------------------------------------

/// `parts` with `sep` between each two of them.
pub open spec fn join(parts: Seq<Seq<char>>, sep: Seq<char>) -> Seq<char>
    decreases parts.len(),
{
    if parts.len() == 0 {
        Seq::empty()
    } else if parts.len() == 1 {
        parts[0]
    } else {
        join(parts.drop_last(), sep) + sep + parts.last()
    }
}

/// The strings of `parts` with `sep` between each two of them.
pub fn join_strings(parts: &[String], sep: &str) -> (r: String)
    ensures
        r@ == join(strings_view(parts@), sep@),
{
    let mut r = String::new();
    let n = parts.len();
    let mut i: usize = 0;
    while i < n
        invariant
            i <= n == parts@.len(),
            r@ == join(strings_view(parts@.take(i as int)), sep@),
        decreases n - i,
    {
        assert(strings_view(parts@.take(i + 1)).drop_last() =~= strings_view(parts@.take(i as int)));
        if i > 0 {
            r.append(sep);
        } else {
            assert(strings_view(parts@.take(1)) =~= seq![parts@[0]@]);
        }
        r.append(parts[i].as_str());
        i = i + 1;
    }
    assert(parts@.take(n as int) =~= parts@);
    r
}


// ---------------------------------------------------------------------------
// Ordering
// ---------------------------------------------------------------------------

/// Lexicographic order by code point, the order of `str` (UTF-8 bytes compare
/// as their code points do).
pub open spec fn lex_lt(a: Seq<char>, b: Seq<char>) -> bool
    decreases a.len(),
{
    if b.len() == 0 {
        false
    } else if a.len() == 0 {
        true
    } else if a[0] != b[0] {
        (a[0] as int) < (b[0] as int)
    } else {
        lex_lt(a.drop_first(), b.drop_first())
    }
}

/// No sequence is lexicographically below itself.
pub proof fn lemma_lex_irrefl(a: Seq<char>)
    ensures
        !lex_lt(a, a),
    decreases a.len(),
{
    if a.len() > 0 {
        lemma_lex_irrefl(a.drop_first());
    }
}

/// The lexicographic order is transitive.
pub proof fn lemma_lex_trans(a: Seq<char>, b: Seq<char>, c: Seq<char>)
    requires
        lex_lt(a, b),
        lex_lt(b, c),
    ensures
        lex_lt(a, c),
    decreases a.len(),
{
    if a.len() > 0 && b.len() > 0 && c.len() > 0 && a[0] == b[0] && b[0] == c[0] {
        lemma_lex_trans(a.drop_first(), b.drop_first(), c.drop_first());
    }
}

/// Of two different sequences, one is lexicographically below the other.
pub proof fn lemma_lex_total(a: Seq<char>, b: Seq<char>)
    ensures
        a == b || lex_lt(a, b) || lex_lt(b, a),
    decreases a.len(),
{
    if a.len() > 0 && b.len() > 0 && a[0] == b[0] {
        lemma_lex_total(a.drop_first(), b.drop_first());
        if a.drop_first() == b.drop_first() {
            assert(a =~= seq![a[0]] + a.drop_first());
            assert(b =~= seq![b[0]] + b.drop_first());
        }
    } else if a.len() == 0 && b.len() == 0 {
        assert(a =~= b);
    }
}

/// Two sequences are not each lexicographically below the other.
pub proof fn lemma_lex_asym(a: Seq<char>, b: Seq<char>)
    requires
        lex_lt(a, b),
    ensures
        !lex_lt(b, a),
{
    if lex_lt(b, a) {
        lemma_lex_trans(a, b, a);
        lemma_lex_irrefl(a);
    }
}

/// Whether `a` comes before `b`.
pub fn lex_less(a: &[char], b: &[char]) -> (r: bool)
    ensures
        r == lex_lt(a@, b@),
{
    let mut i: usize = 0;
    assert(a@.skip(0) =~= a@);
    assert(b@.skip(0) =~= b@);
    while i < a.len() && i < b.len() && a[i] == b[i]
        invariant
            i <= a@.len(),
            i <= b@.len(),
            lex_lt(a@, b@) == lex_lt(a@.skip(i as int), b@.skip(i as int)),
        decreases a@.len() - i,
    {
        assert(a@.skip(i as int).drop_first() =~= a@.skip(i + 1));
        assert(b@.skip(i as int).drop_first() =~= b@.skip(i + 1));
        i = i + 1;
    }
    if i == b.len() {
        false
    } else if i == a.len() {
        true
    } else {
        assert(a@.skip(i as int)[0] == a@[i as int]);
        assert(b@.skip(i as int)[0] == b@[i as int]);
        a[i] < b[i]
    }
}

/// Each element comes before every later one.
pub open spec fn strictly_sorted(r: Seq<Seq<char>>) -> bool {
    forall|i: int, j: int| 0 <= i < j < r.len() ==> lex_lt(#[trigger] r[i], #[trigger] r[j])
}

/// The elements of `v`, each once, in ascending order.
pub open spec fn sorted_set(v: Seq<Seq<char>>) -> Seq<Seq<char>> {
    choose|r: Seq<Seq<char>>|
        strictly_sorted(r) && forall|x: Seq<char>| #[trigger] r.contains(x) <==> v.contains(x)
}

/// Two ascending lists without repeats that hold the same elements are equal.
pub proof fn lemma_sorted_unique(a: Seq<Seq<char>>, b: Seq<Seq<char>>)
    requires
        strictly_sorted(a),
        strictly_sorted(b),
        forall|x: Seq<char>| #[trigger] a.contains(x) <==> b.contains(x),
    ensures
        a == b,
    decreases a.len(),
{
    if a.len() == 0 {
        if b.len() > 0 {
            assert(b.contains(b[0]));
            assert(a.contains(b[0]));
        }
        assert(a =~= b);
    } else if b.len() == 0 {
        assert(a.contains(a[0]));
        assert(b.contains(a[0]));
    } else {
        assert(a.contains(a[0]));
        assert(b.contains(a[0]));
        assert(b.contains(b[0]));
        assert(a.contains(b[0]));
        let j = choose|j: int| 0 <= j < b.len() && b[j] == a[0];
        let k = choose|k: int| 0 <= k < a.len() && a[k] == b[0];
        if j > 0 {
            assert(lex_lt(b[0], b[j]));
            if k > 0 {
                assert(lex_lt(a[0], a[k]));
                lemma_lex_asym(a[0], b[0]);
            } else {
                lemma_lex_irrefl(a[0]);
            }
        }
        assert(a[0] == b[0]);
        let a1 = a.drop_first();
        let b1 = b.drop_first();
        assert forall|i: int, j: int| 0 <= i < j < a1.len() implies lex_lt(
            #[trigger] a1[i],
            #[trigger] a1[j],
        ) by {
            assert(a1[i] == a[i + 1] && a1[j] == a[j + 1]);
        }
        assert forall|i: int, j: int| 0 <= i < j < b1.len() implies lex_lt(
            #[trigger] b1[i],
            #[trigger] b1[j],
        ) by {
            assert(b1[i] == b[i + 1] && b1[j] == b[j + 1]);
        }
        assert forall|x: Seq<char>| #[trigger] a1.contains(x) <==> b1.contains(x) by {
            if a1.contains(x) {
                let i = choose|i: int| 0 <= i < a1.len() && a1[i] == x;
                assert(a[i + 1] == x);
                assert(lex_lt(a[0], a[i + 1]));
                lemma_lex_irrefl(x);
                assert(a.contains(x));
                assert(b.contains(x));
                let m = choose|m: int| 0 <= m < b.len() && b[m] == x;
                assert(m != 0);
                assert(b1[m - 1] == x);
            }
            if b1.contains(x) {
                let i = choose|i: int| 0 <= i < b1.len() && b1[i] == x;
                assert(b[i + 1] == x);
                assert(lex_lt(b[0], b[i + 1]));
                lemma_lex_irrefl(x);
                assert(b.contains(x));
                assert(a.contains(x));
                let m = choose|m: int| 0 <= m < a.len() && a[m] == x;
                assert(m != 0);
                assert(a1[m - 1] == x);
            }
        }
        lemma_sorted_unique(a1, b1);
        assert(a =~= seq![a[0]] + a1);
        assert(b =~= seq![b[0]] + b1);
    }
}

/// The strings of `vals`, each once, in ascending order.
pub fn sorted_unique(vals: &[String]) -> (r: Vec<String>)
    ensures
        strings_view(r@) == sorted_set(strings_view(vals@)),
{
    let mut r: Vec<String> = Vec::new();
    let mut rc: Vec<Vec<char>> = Vec::new();
    let n = vals.len();
    let mut i: usize = 0;
    while i < n
        invariant
            i <= n == vals@.len(),
            rc@.len() == r@.len(),
            forall|k: int| 0 <= k < r@.len() ==> #[trigger] rc@[k]@ == r@[k]@,
            strictly_sorted(strings_view(r@)),
            forall|x: Seq<char>|
                #[trigger] strings_view(r@).contains(x) <==> strings_view(vals@.take(i as int)).contains(x),
        decreases n - i,
    {
        let ghost old_view = strings_view(r@);
        let ghost old_take = strings_view(vals@.take(i as int));
        let ghost new_take = strings_view(vals@.take(i + 1));
        assert(new_take =~= old_take.push(vals@[i as int]@));
        let c = chars_of(vals[i].as_str());
        let mut p: usize = 0;
        while p < rc.len() && lex_less(rc[p].as_slice(), c.as_slice())
            invariant
                p <= rc@.len() == r@.len(),
                forall|k: int| 0 <= k < r@.len() ==> #[trigger] rc@[k]@ == r@[k]@,
                forall|k: int| 0 <= k < p ==> lex_lt(#[trigger] rc@[k]@, c@),
            decreases rc@.len() - p,
        {
            p = p + 1;
        }
        if p < rc.len() && !lex_less(c.as_slice(), rc[p].as_slice()) {
            proof {
                lemma_lex_total(c@, rc@[p as int]@);
                assert(old_view[p as int] == c@);
                assert forall|x: Seq<char>| #[trigger] old_view.contains(x) <==> new_take.contains(x) by {
                    if x == c@ {
                        assert(old_view.contains(old_view[p as int]));
                    }
                    if new_take.contains(x) && x != c@ {
                        let m = choose|m: int| 0 <= m < new_take.len() && new_take[m] == x;
                        assert(old_take[m] == x);
                        assert(old_take.contains(x));
                    }
                    if old_take.contains(x) {
                        let m = choose|m: int| 0 <= m < old_take.len() && old_take[m] == x;
                        assert(new_take[m] == x);
                    }
                }
            }
        } else {
            let s = vals[i].clone();
            proof {
                assert forall|k: int| 0 <= k < p implies lex_lt(#[trigger] old_view[k], c@) by {
                    assert(old_view[k] == rc@[k]@);
                }
                assert(p < old_view.len() ==> lex_lt(c@, old_view[p as int]));
                assert(forall|x: Seq<char>| #[trigger] old_view.contains(x) <==> old_take.contains(x));
            }
            r.insert(p, s);
            rc.insert(p, c);
            proof {
                let nv = strings_view(r@);
                assert(nv =~= old_view.insert(p as int, c@));
                assert forall|a: int, b: int| 0 <= a < b < nv.len() implies lex_lt(
                    #[trigger] nv[a],
                    #[trigger] nv[b],
                ) by {
                    if b < p {
                        assert(nv[a] == old_view[a] && nv[b] == old_view[b]);
                    } else if b == p {
                        assert(nv[a] == old_view[a] && nv[b] == c@);
                    } else if a == p {
                        assert(nv[a] == c@);
                        assert(nv[b] == old_view[b - 1]);
                        if b - 1 > p {
                            assert(lex_lt(old_view[p as int], old_view[b - 1]));
                            lemma_lex_trans(c@, old_view[p as int], old_view[b - 1]);
                        }
                    } else if a < p {
                        assert(nv[a] == old_view[a] && nv[b] == old_view[b - 1]);
                        assert(lex_lt(old_view[a], old_view[b - 1]));
                    } else {
                        assert(nv[a] == old_view[a - 1] && nv[b] == old_view[b - 1]);
                    }
                }
                assert forall|x: Seq<char>| #[trigger] nv.contains(x) <==> new_take.contains(x) by {
                    if x == c@ {
                        assert(nv[p as int] == c@);
                        assert(new_take[i as int] == c@);
                    }
                    if nv.contains(x) && x != c@ {
                        let m = choose|m: int| 0 <= m < nv.len() && nv[m] == x;
                        if m < p {
                            assert(old_view[m] == x);
                        } else {
                            assert(old_view[m - 1] == x);
                        }
                        assert(old_view.contains(x));
                        assert(old_take.contains(x));
                        let m2 = choose|m2: int| 0 <= m2 < old_take.len() && old_take[m2] == x;
                        assert(new_take[m2] == x);
                    }
                    if new_take.contains(x) && x != c@ {
                        let m = choose|m: int| 0 <= m < new_take.len() && new_take[m] == x;
                        assert(old_take[m] == x);
                        assert(old_take.contains(x));
                        assert(old_view.contains(x));
                        let m2 = choose|m2: int| 0 <= m2 < old_view.len() && old_view[m2] == x;
                        if m2 < p {
                            assert(nv[m2] == x);
                        } else {
                            assert(nv[m2 + 1] == x);
                        }
                    }
                }
            }
        }
        i = i + 1;
    }
    proof {
        assert(vals@.take(n as int) =~= vals@);
        let w = strings_view(r@);
        let v = strings_view(vals@);
        assert(strictly_sorted(w) && forall|x: Seq<char>| #[trigger] w.contains(x) <==> v.contains(x));
        let c = sorted_set(v);
        lemma_sorted_unique(c, w);
    }
    r
}


// ---------------------------------------------------------------------------
// Integers
// ---------------------------------------------------------------------------

/// Whether `c` is an ASCII digit.
pub open spec fn is_digit(c: char) -> bool {
    '0' <= c <= '9'
}

/// Whether `d` is one or more ASCII digits.
pub open spec fn all_digits(d: Seq<char>) -> bool {
    d.len() > 0 && forall|i: int| 0 <= i < d.len() ==> is_digit(#[trigger] d[i])
}

/// The number that the decimal digits `d` denote.
pub open spec fn digits_value(d: Seq<char>) -> int
    decreases d.len(),
{
    if d.len() == 0 {
        0
    } else {
        digits_value(d.drop_last()) * 10 + ((d.last() as int) - ('0' as int))
    }
}

/// The integer that `s` denotes: an optional `+` or `-`, then one or more digits.
pub open spec fn int_text(s: Seq<char>) -> Option<int> {
    if s.len() > 0 && s[0] == '-' {
        if all_digits(s.drop_first()) {
            Some(-digits_value(s.drop_first()))
        } else {
            None
        }
    } else if s.len() > 0 && s[0] == '+' {
        if all_digits(s.drop_first()) {
            Some(digits_value(s.drop_first()))
        } else {
            None
        }
    } else if all_digits(s) {
        Some(digits_value(s))
    } else {
        None
    }
}

/// What `str::parse::<i64>` gives for `s`: the integer when `s` denotes one in range.
pub open spec fn parse_i64_spec(s: Seq<char>) -> Option<i64> {
    match int_text(s) {
        Some(v) => if i64::MIN <= v <= i64::MAX {
            Some(v as i64)
        } else {
            None
        },
        None => None,
    }
}

/// The value of a run of digits is not negative.
pub proof fn lemma_digits_value_nonneg(d: Seq<char>)
    requires
        forall|i: int| 0 <= i < d.len() ==> is_digit(#[trigger] d[i]),
    ensures
        digits_value(d) >= 0,
    decreases d.len(),
{
    if d.len() > 0 {
        assert(is_digit(d[d.len() - 1]));
        lemma_digits_value_nonneg(d.drop_last());
    }
}

/// The value of the decimal digits `cs[lo..hi]` when it fits in a `u64`.
fn digits_u64(cs: &[char], lo: usize, hi: usize) -> (r: Option<u64>)
    requires
        lo <= hi <= cs@.len(),
        forall|i: int| lo <= i < hi ==> is_digit(#[trigger] cs@[i]),
    ensures
        match r {
            Some(v) => v == digits_value(cs@.subrange(lo as int, hi as int)),
            None => digits_value(cs@.subrange(lo as int, hi as int)) > u64::MAX,
        },
{
    let mut acc: u64 = 0;
    let mut i = lo;
    assert(cs@.subrange(lo as int, lo as int) =~= Seq::<char>::empty());
    while i < hi
        invariant
            lo <= i <= hi <= cs@.len(),
            forall|k: int| lo <= k < hi ==> is_digit(#[trigger] cs@[k]),
            acc == digits_value(cs@.subrange(lo as int, i as int)),
        decreases hi - i,
    {
        let ghost d = cs@.subrange(lo as int, i + 1);
        assert(d.drop_last() =~= cs@.subrange(lo as int, i as int));
        assert(is_digit(cs@[i as int]));
        let dig = (cs[i] as u32 - '0' as u32) as u64;
        assert(dig == (d.last() as int) - ('0' as int));
        match acc.checked_mul(10) {
            Some(m) => match m.checked_add(dig) {
                Some(v) => {
                    acc = v;
                },
                None => {
                    proof {
                        lemma_digits_value_above(cs, lo, i + 1, hi);
                    }
                    return None;
                },
            },
            None => {
                proof {
                    lemma_digits_value_above(cs, lo, i + 1, hi);
                }
                return None;
            },
        }
        i = i + 1;
    }
    Some(acc)
}

/// Appending digits never lowers the value.
proof fn lemma_digits_value_above(cs: &[char], lo: usize, j: int, hi: usize)
    requires
        lo < j <= hi <= cs@.len(),
        forall|k: int| lo <= k < hi ==> is_digit(#[trigger] cs@[k]),
        digits_value(cs@.subrange(lo as int, j)) > u64::MAX,
    ensures
        digits_value(cs@.subrange(lo as int, hi as int)) > u64::MAX,
    decreases hi - j,
{
    if j < hi {
        let d = cs@.subrange(lo as int, j + 1);
        assert(d.drop_last() =~= cs@.subrange(lo as int, j));
        assert(is_digit(cs@[j]));
        lemma_digits_value_above(cs, lo, j + 1, hi);
    }
}

/// What `str::parse::<i64>` gives for `cs[lo..hi]`.
pub fn parse_i64(cs: &[char], lo: usize, hi: usize) -> (r: Option<i64>)
    requires
        lo <= hi <= cs@.len(),
    ensures
        r == parse_i64_spec(cs@.subrange(lo as int, hi as int)),
{
    let ghost s = cs@.subrange(lo as int, hi as int);
    let mut start = lo;
    let mut neg = false;
    if lo < hi && (cs[lo] == '-' || cs[lo] == '+') {
        neg = cs[lo] == '-';
        start = lo + 1;
        assert(s.drop_first() =~= cs@.subrange(start as int, hi as int));
    }
    let ghost d = cs@.subrange(start as int, hi as int);
    assert(start == lo ==> d == s);
    assert(start == lo ==> !(s.len() > 0 && (s[0] == '-' || s[0] == '+')));
    assert(start != lo ==> start == lo + 1 && s.drop_first() == d && (neg <==> s[0] == '-') && (
    s[0] == '-' || s[0] == '+'));
    if start == hi {
        return None;
    }
    let mut i = start;
    while i < hi
        invariant
            start <= i <= hi <= cs@.len(),
            lo <= start,
            d == cs@.subrange(start as int, hi as int),
            s == cs@.subrange(lo as int, hi as int),
            start == lo ==> d == s && !(s.len() > 0 && (s[0] == '-' || s[0] == '+')),
            start != lo ==> start == lo + 1 && s.drop_first() == d && (s[0] == '-' || s[0]
                == '+'),
            forall|k: int| start <= k < i ==> is_digit(#[trigger] cs@[k]),
        decreases hi - i,
    {
        if !(cs[i] >= '0' && cs[i] <= '9') {
            assert(d[i - start] == cs@[i as int]);
            return None;
        }
        i = i + 1;
    }
    assert forall|k: int| 0 <= k < d.len() implies is_digit(#[trigger] d[k]) by {
        assert(d[k] == cs@[k + start]);
    }
    assert(all_digits(d));
    proof {
        lemma_digits_value_nonneg(d);
    }
    match digits_u64(cs, start, hi) {
        None => None,
        Some(m) => {
            if neg {
                if m <= 9223372036854775807 {
                    Some(-(m as i64))
                } else if m == 9223372036854775808 {
                    Some(i64::MIN)
                } else {
                    None
                }
            } else {
                if m <= 9223372036854775807 {
                    Some(m as i64)
                } else {
                    None
                }
            }
        },
    }
}

} // verus!
