use vstd::prelude::*;

use crate::ast::{args_view, ArgSpec, ArgType, ArgValue, ArgValueV, Span};
use crate::diagnostic::{diags_view, error_diag, new_error, Diagnostic, DiagnosticV, ErrorCode};
use crate::forge::{arg_specs_view, ctx_view, first_pos, lemma_first_pos_at, EvalContext};
use crate::text::{
    blen, chars_of, first_index, join, join_strings, lemma_first_index_at, parse_i64,
    parse_i64_spec, sorted_set, sorted_unique, string_of, strings_view,
};

verus! {

broadcast use vstd::string::group_string_axioms;

// ---------------------------------------------------------------------------
// Argument lists as ordered maps
// ---------------------------------------------------------------------------

/// Index of the entry whose key is `k`, or `args.len()` when there is none.
pub open spec fn key_index(args: Seq<(Seq<char>, ArgValueV)>, k: Seq<char>) -> nat
    decreases args.len(),
{
    if args.len() == 0 {
        0
    } else if args[0].0 == k {
        0
    } else {
        1 + key_index(args.drop_first(), k)
    }
}

/// `key_index` finds the first entry with key `k`, and no earlier entry has it.
pub proof fn lemma_key_index(args: Seq<(Seq<char>, ArgValueV)>, k: Seq<char>)
    ensures
        key_index(args, k) <= args.len(),
        key_index(args, k) < args.len() ==> args[key_index(args, k) as int].0 == k,
        forall|j: int| 0 <= j < key_index(args, k) ==> (#[trigger] args[j]).0 != k,
    decreases args.len(),
{
    if args.len() > 0 && args[0].0 != k {
        lemma_key_index(args.drop_first(), k);
        assert forall|j: int| 0 <= j < key_index(args, k) implies (#[trigger] args[j]).0 != k by {
            if j > 0 {
                assert(args[j] == args.drop_first()[j - 1]);
            }
        }
    }
}

/// `m` is the first index with key `k` when no earlier entry has it and entry `m` does.
pub proof fn lemma_key_index_at(args: Seq<(Seq<char>, ArgValueV)>, k: Seq<char>, m: int)
    requires
        0 <= m <= args.len(),
        forall|j: int| 0 <= j < m ==> (#[trigger] args[j]).0 != k,
        m < args.len() ==> args[m].0 == k,
    ensures
        key_index(args, k) == m,
    decreases args.len(),
{
    if args.len() > 0 && m > 0 {
        assert forall|j: int| 0 <= j < m - 1 implies (#[trigger] args.drop_first()[j]).0 != k by {
            assert(args.drop_first()[j] == args[j + 1]);
        }
        lemma_key_index_at(args.drop_first(), k, m - 1);
    }
}

/// Whether some entry has key `k`.
pub open spec fn has_key(args: Seq<(Seq<char>, ArgValueV)>, k: Seq<char>) -> bool {
    key_index(args, k) < args.len()
}

/// The value stored under `k`, as `HashMap::get` gives it.
pub open spec fn get_arg(args: Seq<(Seq<char>, ArgValueV)>, k: Seq<char>) -> Option<ArgValueV> {
    if has_key(args, k) {
        Some(args[key_index(args, k) as int].1)
    } else {
        None
    }
}

/// `args` with `k` mapped to `v`: an existing entry keeps its place, a new one goes last.
pub open spec fn args_insert(
    args: Seq<(Seq<char>, ArgValueV)>,
    k: Seq<char>,
    v: ArgValueV,
) -> Seq<(Seq<char>, ArgValueV)> {
    let j = key_index(args, k);
    if j < args.len() {
        args.update(j as int, (k, v))
    } else {
        args.push((k, v))
    }
}

/// No key occurs twice.
pub open spec fn keys_unique(args: Seq<(Seq<char>, ArgValueV)>) -> bool {
    forall|i: int, j: int| 0 <= i < j < args.len() ==> (#[trigger] args[i]).0 != (#[trigger] args[j]).0
}

/// Inserting keeps each key once.
pub proof fn lemma_insert_keeps_unique(args: Seq<(Seq<char>, ArgValueV)>, k: Seq<char>, v: ArgValueV)
    requires
        keys_unique(args),
    ensures
        keys_unique(args_insert(args, k, v)),
        get_arg(args_insert(args, k, v), k) == Some(v),
{
    lemma_key_index(args, k);
    let r = args_insert(args, k, v);
    assert forall|i: int, j: int| 0 <= i < j < r.len() implies (#[trigger] r[i]).0 != (
    #[trigger] r[j]).0 by {
        if j == args.len() {
            assert(args[i].0 != k);
        }
    }
    lemma_key_index(r, k);
    if key_index(args, k) < args.len() {
        lemma_key_index_at(r, k, key_index(args, k) as int);
    } else {
        lemma_key_index_at(r, k, args.len() as int);
    }
}

/// Index of the entry with key `k` (or the length when there is none).
pub fn find_arg(args: &Vec<(String, ArgValue)>, k: &String) -> (r: usize)
    ensures
        r == key_index(args_view(args@), k@),
{
    let n = args.len();
    let mut j: usize = 0;
    while j < n && !(args[j].0 == *k)
        invariant
            j <= n == args@.len(),
            forall|i: int| 0 <= i < j ==> (#[trigger] args_view(args@)[i]).0 != k@,
        decreases n - j,
    {
        j = j + 1;
    }
    proof {
        lemma_key_index_at(args_view(args@), k@, j as int);
    }
    j
}

/// Maps `k` to `v` in `args`, as `HashMap::insert` does.
pub fn insert_arg(args: &mut Vec<(String, ArgValue)>, k: String, v: ArgValue)
    ensures
        args_view(final(args)@) == args_insert(args_view(old(args)@), k@, v@),
{
    let j = find_arg(args, &k);
    let ghost kv = k@;
    if j < args.len() {
        args.set(j, (k, v));
        assert(args_view(args@) =~= args_view(old(args)@).update(j as int, (kv, v@)));
    } else {
        args.push((k, v));
        assert(args_view(args@) =~= args_view(old(args)@).push((kv, v@)));
    }
}

// ---------------------------------------------------------------------------
// Reading arguments
// ---------------------------------------------------------------------------

/// `t` split at its first `=`, as `str::split_once('=')` does.
pub open spec fn split_eq(t: Seq<char>) -> Option<(Seq<char>, Seq<char>)> {
    let p = first_index(t, '=');
    if p < t.len() {
        Some((t.take(p as int), t.skip(p as int + 1)))
    } else {
        None
    }
}

/// The value that the text `raw` stands for.
pub open spec fn value_of(raw: Seq<char>) -> ArgValueV {
    match parse_i64_spec(raw) {
        Some(i) => ArgValueV::Int(i),
        None => ArgValueV::Str(raw),
    }
}

/// The diagnostic for a block argument without `=`.
pub open spec fn invalid_arg_diag(t: Seq<char>, start: int) -> DiagnosticV {
    error_diag(
        ErrorCode::InvalidType,
        "invalid argument '"@ + t + "', expected key=value"@,
        Span { start: start as usize, end: (start + blen(t)) as usize },
        None,
    )
}

/// The arguments and diagnostics that the tokens of a block's opening line give.
pub open spec fn parse_args_spec(tokens: Seq<Seq<char>>, start: int) -> (
    Seq<(Seq<char>, ArgValueV)>,
    Seq<DiagnosticV>,
)
    decreases tokens.len(),
{
    if tokens.len() == 0 {
        (Seq::empty(), Seq::empty())
    } else {
        let (a, d) = parse_args_spec(tokens.drop_last(), start);
        let t = tokens.last();
        match split_eq(t) {
            Some((k, raw)) => (args_insert(a, k, value_of(raw)), d),
            None => (a, d.push(invalid_arg_diag(t, start))),
        }
    }
}

/// The arguments that the tokens of an inline extension give; tokens without `=`
/// are passed over.
pub open spec fn inline_args_spec(tokens: Seq<Seq<char>>) -> Seq<(Seq<char>, ArgValueV)>
    decreases tokens.len(),
{
    if tokens.len() == 0 {
        Seq::empty()
    } else {
        let a = inline_args_spec(tokens.drop_last());
        match split_eq(tokens.last()) {
            Some((k, raw)) => args_insert(a, k, value_of(raw)),
            None => a,
        }
    }
}

/// The arguments read from a block's opening line hold each key once.
pub proof fn lemma_parse_args_unique(tokens: Seq<Seq<char>>, start: int)
    ensures
        keys_unique(parse_args_spec(tokens, start).0),
    decreases tokens.len(),
{
    if tokens.len() > 0 {
        lemma_parse_args_unique(tokens.drop_last(), start);
        let (a, d) = parse_args_spec(tokens.drop_last(), start);
        if let Some((k, raw)) = split_eq(tokens.last()) {
            lemma_insert_keeps_unique(a, k, value_of(raw));
        }
    }
}

/// The arguments of an inline extension hold each key once.
pub proof fn lemma_inline_args_unique(tokens: Seq<Seq<char>>)
    ensures
        keys_unique(inline_args_spec(tokens)),
    decreases tokens.len(),
{
    if tokens.len() > 0 {
        lemma_inline_args_unique(tokens.drop_last());
        if let Some((k, raw)) = split_eq(tokens.last()) {
            lemma_insert_keeps_unique(inline_args_spec(tokens.drop_last()), k, value_of(raw));
        }
    }
}

/// A token split at its first `=` into key and value, if it has one.
pub(crate) fn split_token(t: &str) -> (r: Option<(String, ArgValue)>)
    ensures
        match split_eq(t@) {
            Some((k, raw)) => r matches Some((kk, vv)) && kk@ == k && vv@ == value_of(raw),
            None => r is None,
        },
{
    let tc = chars_of(t);
    let n = tc.len();
    let mut p: usize = 0;
    while p < n && tc[p] != '='
        invariant
            p <= n == tc@.len(),
            forall|k: int| 0 <= k < p ==> tc@[k] != '=',
        decreases n - p,
    {
        p = p + 1;
    }
    proof {
        lemma_first_index_at(tc@, '=', p as int);
    }
    if p == n {
        return None;
    }
    assert(tc@.subrange(0, p as int) =~= t@.take(p as int));
    assert(tc@.subrange(p + 1, n as int) =~= t@.skip(p + 1));
    let key = string_of(tc.as_slice(), 0, p);
    let value = match parse_i64(tc.as_slice(), p + 1, n) {
        Some(i) => ArgValue::Int(i),
        None => ArgValue::String(string_of(tc.as_slice(), p + 1, n)),
    };
    Some((key, value))
}

/// Reads the `key=value` tokens of a block's opening line into an argument map.
/// A token without `=` is reported with a span that starts at `span_start` and is
/// as long as the token, which must fit in a `usize`.
pub fn parse_args(tokens: &[&str], span_start: usize, diagnostics: &mut Vec<Diagnostic>) -> (r:
    Vec<(String, ArgValue)>)
    requires
        forall|i: int|
            0 <= i < tokens@.len() && split_eq(#[trigger] tokens@[i]@) is None ==> span_start + blen(
                tokens@[i]@,
            ) <= usize::MAX,
    ensures
        args_view(r@) == parse_args_spec(strs_view(tokens@), span_start as int).0,
        diags_view(final(diagnostics)@) == diags_view(old(diagnostics)@) + parse_args_spec(
            strs_view(tokens@),
            span_start as int,
        ).1,
{
    let mut args: Vec<(String, ArgValue)> = Vec::new();
    let n = tokens.len();
    let mut i: usize = 0;
    assert(strs_view(tokens@.take(0)) =~= Seq::<Seq<char>>::empty());
    assert(diags_view(diagnostics@) =~= diags_view(old(diagnostics)@) + Seq::<DiagnosticV>::empty());
    while i < n
        invariant
            i <= n == tokens@.len(),
            forall|i: int|
                0 <= i < tokens@.len() && split_eq(#[trigger] tokens@[i]@) is None ==> span_start + blen(
                    tokens@[i]@,
                ) <= usize::MAX,
            args_view(args@) == parse_args_spec(strs_view(tokens@.take(i as int)), span_start as int).0,
            diags_view(diagnostics@) == diags_view(old(diagnostics)@) + parse_args_spec(
                strs_view(tokens@.take(i as int)),
                span_start as int,
            ).1,
        decreases n - i,
    {
        let ghost prev = strs_view(tokens@.take(i as int));
        assert(strs_view(tokens@.take(i + 1)) =~= prev.push(tokens@[i as int]@));
        assert(strs_view(tokens@.take(i + 1)).drop_last() =~= prev);
        let token: &str = tokens[i];
        match split_token(token) {
            Some((k, v)) => {
                insert_arg(&mut args, k, v);
            },
            None => {
                let mut m = String::new();
                m.append("invalid argument '");
                m.append(token);
                m.append("', expected key=value");
                let end = span_start + token.len();
                let d = new_error(ErrorCode::InvalidType, m, Span { start: span_start, end }, None);
                let ghost old_d = diags_view(diagnostics@);
                diagnostics.push(d);
                assert(diags_view(diagnostics@) =~= old_d.push(d@));
            },
        }
        i = i + 1;
    }
    assert(tokens@.take(n as int) =~= tokens@);
    args
}


// ---------------------------------------------------------------------------
// Checking arguments against their specifications
// ---------------------------------------------------------------------------

/// The texts of the values of a static enum.
pub open spec fn strs_view(v: Seq<&str>) -> Seq<Seq<char>> {
    v.map_values(|s: &str| s@)
}

/// The names of a list of argument specifications.
pub open spec fn spec_names(spec: Seq<(Seq<char>, ArgSpec)>) -> Seq<Seq<char>> {
    spec.map_values(|p: (Seq<char>, ArgSpec)| p.0)
}

/// The diagnostic for a required argument that is missing.
pub open spec fn missing_arg_diag(name: Seq<char>, sp: Span) -> DiagnosticV {
    error_diag(ErrorCode::MissingRequiredArg, "missing required arg '"@ + name + "'"@, sp, None)
}

/// The diagnostic for an argument that the specification does not name.
pub open spec fn unknown_arg_diag(name: Seq<char>, sp: Span) -> DiagnosticV {
    error_diag(ErrorCode::UnknownArg, "unknown arg '"@ + name + "'"@, sp, None)
}

/// The diagnostic for a value that its static enum does not list.
pub open spec fn static_enum_diag(value: Seq<char>, allowed: Seq<Seq<char>>, sp: Span) -> DiagnosticV {
    error_diag(
        ErrorCode::InvalidStaticEnumValue,
        "'"@ + value + "' is not in static enum"@,
        sp,
        Some("allowed: "@ + join(allowed, ", "@)),
    )
}

/// The diagnostic for a value of the wrong kind.
pub open spec fn invalid_type_diag(name: Seq<char>, sp: Span) -> DiagnosticV {
    error_diag(ErrorCode::InvalidType, "invalid type for arg '"@ + name + "'"@, sp, None)
}

/// One diagnostic for each required argument of `spec` that `actual` lacks, in the
/// order of `spec`.
pub open spec fn missing_diags(
    actual: Seq<(Seq<char>, ArgValueV)>,
    spec: Seq<(Seq<char>, ArgSpec)>,
    sp: Span,
) -> Seq<DiagnosticV>
    decreases spec.len(),
{
    if spec.len() == 0 {
        Seq::empty()
    } else {
        let prev = missing_diags(actual, spec.drop_last(), sp);
        let (name, s) = spec.last();
        if s.required && !has_key(actual, name) {
            prev.push(missing_arg_diag(name, sp))
        } else {
            prev
        }
    }
}

/// What is wrong, if anything, with the argument `name = value` under `spec`.
/// Dynamic enums are left to evaluation.
pub open spec fn check_arg(
    name: Seq<char>,
    value: ArgValueV,
    spec: Seq<(Seq<char>, ArgSpec)>,
    sp: Span,
) -> Seq<DiagnosticV> {
    let j = first_pos(spec_names(spec), name);
    if j >= spec.len() {
        seq![unknown_arg_diag(name, sp)]
    } else {
        match (spec[j as int].1.arg_type, value) {
            (ArgType::Int, ArgValueV::Int(_)) => Seq::empty(),
            (ArgType::String, ArgValueV::Str(_)) => Seq::empty(),
            (ArgType::StaticEnum(allowed), ArgValueV::Str(v)) => if strs_view(allowed@).contains(v) {
                Seq::empty()
            } else {
                seq![static_enum_diag(v, strs_view(allowed@), sp)]
            },
            (ArgType::DynamicEnum(_), ArgValueV::Str(_)) => Seq::empty(),
            _ => seq![invalid_type_diag(name, sp)],
        }
    }
}

/// The diagnostics of the arguments of `actual`, in its order.
pub open spec fn check_args(
    actual: Seq<(Seq<char>, ArgValueV)>,
    spec: Seq<(Seq<char>, ArgSpec)>,
    sp: Span,
) -> Seq<DiagnosticV>
    decreases actual.len(),
{
    if actual.len() == 0 {
        Seq::empty()
    } else {
        check_args(actual.drop_last(), spec, sp) + check_arg(
            actual.last().0,
            actual.last().1,
            spec,
            sp,
        )
    }
}

/// What checking `actual` against `spec` reports: missing required arguments first,
/// then unknown arguments and values of the wrong kind or outside their static enum.
pub open spec fn validate_args_spec(
    actual: Seq<(Seq<char>, ArgValueV)>,
    spec: Seq<(Seq<char>, ArgSpec)>,
    sp: Span,
) -> Seq<DiagnosticV> {
    missing_diags(actual, spec, sp) + check_args(actual, spec, sp)
}

/// Whether the static enum `allowed` lists `v`.
fn static_contains(allowed: &[&str], v: &String) -> (b: bool)
    ensures
        b == strs_view(allowed@).contains(v@),
{
    let n = allowed.len();
    let mut k: usize = 0;
    while k < n
        invariant
            k <= n == allowed@.len(),
            forall|i: int| 0 <= i < k ==> #[trigger] strs_view(allowed@)[i] != v@,
        decreases n - k,
    {
        let a = String::from_str(allowed[k]);
        if a == *v {
            assert(strs_view(allowed@)[k as int] == v@);
            return true;
        }
        k = k + 1;
    }
    false
}

/// The strings of `v`, borrowed.
pub fn str_refs<'a>(v: &'a Vec<String>) -> (r: Vec<&'a str>)
    ensures
        strs_view(r@) == strings_view(v@),
{
    let mut r: Vec<&'a str> = Vec::new();
    let n = v.len();
    let mut k: usize = 0;
    while k < n
        invariant
            k <= n == v@.len(),
            strs_view(r@) == strings_view(v@).take(k as int),
        decreases n - k,
    {
        r.push(v[k].as_str());
        assert(strings_view(v@).take(k + 1) =~= strings_view(v@).take(k as int).push(v@[k as int]@));
        assert(strs_view(r@) =~= strings_view(v@).take(k + 1));
        k = k + 1;
    }
    assert(strings_view(v@).take(n as int) =~= strings_view(v@));
    r
}

/// The strings of a static enum.
pub fn strs_to_strings(allowed: &[&str]) -> (r: Vec<String>)
    ensures
        strings_view(r@) == strs_view(allowed@),
{
    let mut r: Vec<String> = Vec::new();
    let n = allowed.len();
    let mut k: usize = 0;
    while k < n
        invariant
            k <= n == allowed@.len(),
            strings_view(r@) == strs_view(allowed@).take(k as int),
        decreases n - k,
    {
        r.push(String::from_str(allowed[k]));
        assert(strs_view(allowed@).take(k + 1) =~= strs_view(allowed@).take(k as int).push(allowed@[k as int]@));
        assert(strings_view(r@) =~= strs_view(allowed@).take(k + 1));
        k = k + 1;
    }
    assert(strs_view(allowed@).take(n as int) =~= strs_view(allowed@));
    r
}

/// The first argument specification named `k`, as an index.
fn find_spec(spec: &[(String, ArgSpec)], k: &String) -> (r: usize)
    ensures
        r == first_pos(spec_names(arg_specs_view(spec@)), k@),
        r <= spec@.len(),
{
    let n = spec.len();
    let mut j: usize = 0;
    let ghost names = spec_names(arg_specs_view(spec@));
    while j < n && !(spec[j].0 == *k)
        invariant
            j <= n == spec@.len(),
            names == spec_names(arg_specs_view(spec@)),
            forall|i: int| 0 <= i < j ==> #[trigger] names[i] != k@,
        decreases n - j,
    {
        assert(names[j as int] == spec@[j as int].0@);
        j = j + 1;
    }
    proof {
        if j < n {
            assert(names[j as int] == spec@[j as int].0@);
        }
        lemma_first_pos_at(names, k@, j as int);
    }
    j
}

/// Checks the arguments `actual` against `spec`, reporting with span `span`.
pub fn validate_args(
    actual: &Vec<(String, ArgValue)>,
    spec: &[(String, ArgSpec)],
    span: Span,
    diagnostics: &mut Vec<Diagnostic>,
)
    ensures
        diags_view(final(diagnostics)@) == diags_view(old(diagnostics)@) + validate_args_spec(
            args_view(actual@),
            arg_specs_view(spec@),
            span,
        ),
{
    let ghost av = args_view(actual@);
    let ghost sv = arg_specs_view(spec@);
    let ghost d0 = diags_view(diagnostics@);
    let n = spec.len();
    let mut i: usize = 0;
    assert(sv.take(0) =~= Seq::<(Seq<char>, ArgSpec)>::empty());
    assert(diags_view(diagnostics@) =~= d0 + missing_diags(av, sv.take(0), span));
    while i < n
        invariant
            i <= n == spec@.len(),
            av == args_view(actual@),
            sv == arg_specs_view(spec@),
            d0 == diags_view(old(diagnostics)@),
            diags_view(diagnostics@) == d0 + missing_diags(av, sv.take(i as int), span),
        decreases n - i,
    {
        assert(sv.take(i + 1).drop_last() =~= sv.take(i as int));
        assert(sv.take(i + 1).last() == (spec@[i as int].0@, spec@[i as int].1));
        let name = &spec[i].0;
        let s = spec[i].1;
        let j = find_arg(actual, name);
        proof {
            lemma_key_index(av, name@);
        }
        if s.required && j == actual.len() {
            let mut m = String::new();
            m.append("missing required arg '");
            m.append(name.as_str());
            m.append("'");
            let d = new_error(ErrorCode::MissingRequiredArg, m, span, None);
            let ghost before = diags_view(diagnostics@);
            diagnostics.push(d);
            assert(diags_view(diagnostics@) =~= before.push(d@));
        }
        i = i + 1;
    }
    assert(sv.take(n as int) =~= sv);
    let ghost d1 = diags_view(diagnostics@);
    let m = actual.len();
    let mut k: usize = 0;
    assert(av.take(0) =~= Seq::<(Seq<char>, ArgValueV)>::empty());
    assert(diags_view(diagnostics@) =~= d1 + check_args(av.take(0), sv, span));
    while k < m
        invariant
            k <= m == actual@.len(),
            av == args_view(actual@),
            sv == arg_specs_view(spec@),
            diags_view(diagnostics@) == d1 + check_args(av.take(k as int), sv, span),
        decreases m - k,
    {
        assert(av.take(k + 1).drop_last() =~= av.take(k as int));
        assert(av.take(k + 1).last() == av[k as int]);
        let name = &actual[k].0;
        let value = &actual[k].1;
        let j = find_spec(spec, name);
        let ghost before = diags_view(diagnostics@);
        let ghost expect = check_arg(name@, value@, sv, span);
        if j == spec.len() {
            let mut msg = String::new();
            msg.append("unknown arg '");
            msg.append(name.as_str());
            msg.append("'");
            diagnostics.push(new_error(ErrorCode::UnknownArg, msg, span, None));
        } else {
            assert(sv[j as int].1 == spec@[j as int].1);
            match (spec[j].1.arg_type, value) {
                (ArgType::Int, ArgValue::Int(_)) => {},
                (ArgType::String, ArgValue::String(_)) => {},
                (ArgType::StaticEnum(allowed), ArgValue::String(v)) => {
                    if !static_contains(allowed, v) {
                        let mut msg = String::new();
                        msg.append("'");
                        msg.append(v.as_str());
                        msg.append("' is not in static enum");
                        let names = strs_to_strings(allowed);
                        let joined = join_strings(names.as_slice(), ", ");
                        let mut sugg = String::new();
                        sugg.append("allowed: ");
                        sugg.append(joined.as_str());
                        diagnostics.push(
                            new_error(ErrorCode::InvalidStaticEnumValue, msg, span, Some(sugg)),
                        );
                    }
                },
                (ArgType::DynamicEnum(_), ArgValue::String(_)) => {},
                _ => {
                    let mut msg = String::new();
                    msg.append("invalid type for arg '");
                    msg.append(name.as_str());
                    msg.append("'");
                    diagnostics.push(new_error(ErrorCode::InvalidType, msg, span, None));
                },
            }
        }
        assert(diags_view(diagnostics@) =~= before + expect);
        k = k + 1;
    }
    assert(av.take(m as int) =~= av);
    assert(diags_view(diagnostics@) =~= d0 + validate_args_spec(av, sv, span));
}


// ---------------------------------------------------------------------------
// Evaluating dynamic enums
// ---------------------------------------------------------------------------

/// The values that the context allows for the dynamic enum `k`, if it has them.
pub open spec fn ctx_lookup(ctx: Seq<(Seq<char>, Seq<Seq<char>>)>, k: Seq<char>) -> Option<
    Seq<Seq<char>>,
> {
    let j = first_pos(ctx.map_values(|p: (Seq<char>, Seq<Seq<char>>)| p.0), k);
    if j < ctx.len() {
        Some(ctx[j as int].1)
    } else {
        None
    }
}

/// The diagnostic for a dynamic enum that the context does not provide.
pub open spec fn not_provided_diag(dn: Seq<char>, sp: Span) -> DiagnosticV {
    error_diag(
        ErrorCode::InvalidDynamicEnumValue,
        "dynamic enum '"@ + dn + "' is not provided"@,
        sp,
        None,
    )
}

/// The diagnostic for a value that its dynamic enum does not allow.
pub open spec fn dyn_enum_diag(v: Seq<char>, dn: Seq<char>, vals: Seq<Seq<char>>, sp: Span) -> DiagnosticV {
    error_diag(
        ErrorCode::InvalidDynamicEnumValue,
        "'"@ + v + "' is not in dynamic enum '"@ + dn + "'"@,
        sp,
        Some("allowed: "@ + join(sorted_set(vals), ", "@)),
    )
}

/// What is wrong, if anything, with the argument `name` of type `t` in `actual`:
/// only a string given for a dynamic enum is looked at.
pub open spec fn eval_arg(
    actual: Seq<(Seq<char>, ArgValueV)>,
    name: Seq<char>,
    t: ArgType,
    sp: Span,
    ctx: Seq<(Seq<char>, Seq<Seq<char>>)>,
) -> Seq<DiagnosticV> {
    match t {
        ArgType::DynamicEnum(dn) => match get_arg(actual, name) {
            Some(ArgValueV::Str(v)) => match ctx_lookup(ctx, dn@) {
                None => seq![not_provided_diag(dn@, sp)],
                Some(vals) => if vals.contains(v) {
                    Seq::empty()
                } else {
                    seq![dyn_enum_diag(v, dn@, vals, sp)]
                },
            },
            _ => Seq::empty(),
        },
        _ => Seq::empty(),
    }
}

/// What evaluating `actual` against `spec` in `ctx` reports, in the order of `spec`.
pub open spec fn eval_args_spec(
    actual: Seq<(Seq<char>, ArgValueV)>,
    spec: Seq<(Seq<char>, ArgSpec)>,
    sp: Span,
    ctx: Seq<(Seq<char>, Seq<Seq<char>>)>,
) -> Seq<DiagnosticV>
    decreases spec.len(),
{
    if spec.len() == 0 {
        Seq::empty()
    } else {
        eval_args_spec(actual, spec.drop_last(), sp, ctx) + eval_arg(
            actual,
            spec.last().0,
            spec.last().1.arg_type,
            sp,
            ctx,
        )
    }
}

/// Whether `vals` holds `v`.
fn strings_contain(vals: &Vec<String>, v: &String) -> (b: bool)
    ensures
        b == strings_view(vals@).contains(v@),
{
    let n = vals.len();
    let mut k: usize = 0;
    while k < n
        invariant
            k <= n == vals@.len(),
            forall|i: int| 0 <= i < k ==> #[trigger] strings_view(vals@)[i] != v@,
        decreases n - k,
    {
        if vals[k] == *v {
            assert(strings_view(vals@)[k as int] == v@);
            return true;
        }
        k = k + 1;
    }
    false
}

/// The values that `ctx` allows for the dynamic enum `name`, if it has them.
fn lookup_dynamic<'a>(ctx: &'a EvalContext, name: &String) -> (r: Option<&'a Vec<String>>)
    ensures
        match ctx_lookup(ctx_view(*ctx), name@) {
            Some(vals) => r matches Some(x) && strings_view(x@) == vals,
            None => r is None,
        },
{
    let n = ctx.dynamic_values.len();
    let mut j: usize = 0;
    let ghost names = ctx_view(*ctx).map_values(|p: (Seq<char>, Seq<Seq<char>>)| p.0);
    while j < n && !(ctx.dynamic_values[j].0 == *name)
        invariant
            j <= n == ctx.dynamic_values@.len(),
            names == ctx_view(*ctx).map_values(|p: (Seq<char>, Seq<Seq<char>>)| p.0),
            forall|i: int| 0 <= i < j ==> #[trigger] names[i] != name@,
        decreases n - j,
    {
        assert(names[j as int] == ctx.dynamic_values@[j as int].0@);
        j = j + 1;
    }
    proof {
        if j < n {
            assert(names[j as int] == ctx.dynamic_values@[j as int].0@);
        }
        lemma_first_pos_at(names, name@, j as int);
    }
    if j < n {
        Some(&ctx.dynamic_values[j].1)
    } else {
        None
    }
}

/// Checks the dynamic-enum arguments of `actual` against the values that `ctx` allows.
pub fn eval_dynamic_args(
    actual: &Vec<(String, ArgValue)>,
    spec: &[(String, ArgSpec)],
    span: Span,
    ctx: &EvalContext,
    diagnostics: &mut Vec<Diagnostic>,
)
    ensures
        diags_view(final(diagnostics)@) == diags_view(old(diagnostics)@) + eval_args_spec(
            args_view(actual@),
            arg_specs_view(spec@),
            span,
            ctx_view(*ctx),
        ),
{
    let ghost av = args_view(actual@);
    let ghost sv = arg_specs_view(spec@);
    let ghost cv = ctx_view(*ctx);
    let ghost d0 = diags_view(diagnostics@);
    let n = spec.len();
    let mut i: usize = 0;
    assert(sv.take(0) =~= Seq::<(Seq<char>, ArgSpec)>::empty());
    assert(diags_view(diagnostics@) =~= d0 + eval_args_spec(av, sv.take(0), span, cv));
    while i < n
        invariant
            i <= n == spec@.len(),
            av == args_view(actual@),
            sv == arg_specs_view(spec@),
            cv == ctx_view(*ctx),
            d0 == diags_view(old(diagnostics)@),
            diags_view(diagnostics@) == d0 + eval_args_spec(av, sv.take(i as int), span, cv),
        decreases n - i,
    {
        assert(sv.take(i + 1).drop_last() =~= sv.take(i as int));
        assert(sv.take(i + 1).last() == (spec@[i as int].0@, spec@[i as int].1));
        let ghost before = diags_view(diagnostics@);
        let ghost expect = eval_arg(av, spec@[i as int].0@, spec@[i as int].1.arg_type, span, cv);
        let name = &spec[i].0;
        if let ArgType::DynamicEnum(dynamic_name) = spec[i].1.arg_type {
            let j = find_arg(actual, name);
            proof {
                lemma_key_index(av, name@);
            }
            if j < actual.len() {
                if let ArgValue::String(value) = &actual[j].1 {
                    let dn = String::from_str(dynamic_name);
                    match lookup_dynamic(ctx, &dn) {
                        None => {
                            let mut msg = String::new();
                            msg.append("dynamic enum '");
                            msg.append(dynamic_name);
                            msg.append("' is not provided");
                            diagnostics.push(
                                new_error(ErrorCode::InvalidDynamicEnumValue, msg, span, None),
                            );
                        },
                        Some(allowed) => {
                            if !strings_contain(allowed, value) {
                                let mut msg = String::new();
                                msg.append("'");
                                msg.append(value.as_str());
                                msg.append("' is not in dynamic enum '");
                                msg.append(dynamic_name);
                                msg.append("'");
                                let candidates = sorted_unique(allowed.as_slice());
                                let joined = join_strings(candidates.as_slice(), ", ");
                                let mut sugg = String::new();
                                sugg.append("allowed: ");
                                sugg.append(joined.as_str());
                                diagnostics.push(
                                    new_error(
                                        ErrorCode::InvalidDynamicEnumValue,
                                        msg,
                                        span,
                                        Some(sugg),
                                    ),
                                );
                            }
                        },
                    }
                }
            }
        }
        assert(diags_view(diagnostics@) =~= before + expect);
        i = i + 1;
    }
    assert(sv.take(n as int) =~= sv);
}

} // verus!
