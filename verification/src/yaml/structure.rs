//! Structure parsing for YAML: key-value pairs, lists, blocks nested by
//! indentation, comments and whole documents.
//!
//! A block is a run of `key: value` lines at one indentation; a list is a run of
//! `- value` lines at one indentation. A key whose value is left empty on its line
//! takes as its value the list or block on the following, more indented lines.
//! Blank lines and lines holding only a `#` comment are skipped; a `#` comment may
//! also end a line.

use crate::parsing::error::ParseError;
use crate::parsing::input::{error_at, lemma_start_position, Input, ParseResult};
use crate::parsing::primitives::fails_with;
use crate::text::{
    digit_pred, is_digit, lemma_run_len, lemma_run_prefix, other_than, run_len, str_trim,
    str_trim_start, tail, trim, trim_start, until_char,
};
use crate::yaml::scalar::{
    closing_quote, models, pair_models, scalar, scalar_outcome, unquoted_pred, Value, ValueModel,
};
use vstd::prelude::*;
use vstd::string::*;

verus! {

/// Spaces and tabs.
pub open spec fn inline_ws_pred() -> spec_fn(char) -> bool {
    |c: char| c == ' ' || c == '\t'
}

/// Number of spaces and tabs at the start of `t`.
pub open spec fn indent_len(t: Seq<char>) -> int {
    run_len(t, inline_ws_pred()) as int
}

/// Length of the first line of `t`, without its line break.
pub open spec fn line_len(t: Seq<char>) -> int {
    run_len(t, other_than('\n')) as int
}

/// Where the line after the first line of `t` starts (the end of `t` when there is none).
pub open spec fn next_line(t: Seq<char>) -> int {
    if line_len(t) < t.len() {
        line_len(t) + 1
    } else {
        line_len(t)
    }
}

/// Position of the first `:` of `t`, or its length when it holds none.
pub open spec fn colon_pos(t: Seq<char>) -> int {
    run_len(t, other_than(':')) as int
}

/// The first line of `t` holds nothing but spaces, tabs and perhaps a `#` comment.
pub open spec fn blank_line(t: Seq<char>) -> bool {
    let w = indent_len(t);
    w == t.len() || t[w] == '\n' || t[w] == '#'
}

/// Bounds of the runs that split a line, and what the characters of each run are.
pub proof fn lemma_runs(t: Seq<char>)
    ensures
        0 <= indent_len(t) <= t.len(),
        0 <= line_len(t) <= t.len(),
        0 <= colon_pos(t) <= t.len(),
        line_len(t) <= next_line(t) <= t.len(),
        t.len() > 0 ==> next_line(t) > 0,
        forall|j: int| 0 <= j < indent_len(t) ==> t[j] == ' ' || t[j] == '\t',
        indent_len(t) < t.len() ==> t[indent_len(t)] != ' ' && t[indent_len(t)] != '\t',
        forall|j: int| 0 <= j < line_len(t) ==> t[j] != '\n',
        line_len(t) < t.len() ==> t[line_len(t)] == '\n',
        forall|j: int| 0 <= j < colon_pos(t) ==> t[j] != ':',
        colon_pos(t) < t.len() ==> t[colon_pos(t)] == ':',
{
    lemma_run_prefix(t, inline_ws_pred(), indent_len(t));
    lemma_run_prefix(t, other_than('\n'), line_len(t));
    lemma_run_prefix(t, other_than(':'), colon_pos(t));
    assert forall|j: int| 0 <= j < indent_len(t) implies t[j] == ' ' || t[j] == '\t' by {
        assert(inline_ws_pred()(t[j]));
    }
    assert forall|j: int| 0 <= j < line_len(t) implies t[j] != '\n' by {
        assert(other_than('\n')(t[j]));
    }
    assert forall|j: int| 0 <= j < colon_pos(t) implies t[j] != ':' by {
        assert(other_than(':')(t[j]));
    }
}

/// Number of characters taken by the blank and comment lines at the start of `t`.
pub open spec fn skip_blank(t: Seq<char>) -> int
    decreases t.len(),
{
    if t.len() > 0 && blank_line(t) {
        proof {
            lemma_runs(t);
        }
        next_line(t) + skip_blank(t.skip(next_line(t)))
    } else {
        0
    }
}

/// The blank lines at the start of `t` lie within `t`.
pub proof fn lemma_skip_blank(t: Seq<char>)
    ensures
        0 <= skip_blank(t) <= t.len(),
    decreases t.len(),
{
    if t.len() > 0 && blank_line(t) {
        lemma_runs(t);
        lemma_skip_blank(t.skip(next_line(t)));
    }
}

/// The scalar at the start of `i` lies within `i` and takes at least one character.
pub proof fn lemma_scalar_outcome_bounds(i: Seq<char>)
    ensures
        scalar_outcome(i) matches Some((n, _)) ==> 1 <= n <= i.len(),
{
    reveal_strlit("null");
    reveal_strlit("~");
    reveal_strlit("true");
    reveal_strlit("false");
    let digits = run_len(i, digit_pred()) as int;
    let word = run_len(i, unquoted_pred()) as int;
    lemma_run_prefix(i, digit_pred(), digits);
    lemma_run_prefix(i, unquoted_pred(), word);
    if i.len() > 0 && (i[0] == '"' || i[0] == '\'') && exists|k: int| closing_quote(i, i[0], k) {
    } else if i.len() > 0 && is_digit(i[0]) && i.contains('.') {
        assert(digit_pred()(i[0]));
        if digits < i.len() && i[digits] == '.' {
            let after = i.skip(digits + 1);
            lemma_run_prefix(after, digit_pred(), run_len(after, digit_pred()) as int);
        }
    } else if i.len() > 0 && is_digit(i[0]) {
        assert(digit_pred()(i[0]));
    } else if trim(i.take(word)).len() > 0 {
        assert(word > 0) by {
            if word == 0 {
                assert(i.take(0) =~= Seq::<char>::empty());
                assert(trim_start(Seq::<char>::empty()) =~= Seq::<char>::empty());
            }
        }
    }
}

/// A key-value pair at the start of `t`, whose key stands at indentation `n`:
/// how many characters it takes and the key and value, or the error message.
pub open spec fn kv_spec(t: Seq<char>, n: int) -> Result<(int, (Seq<char>, ValueModel)), Seq<char>>
    decreases t.len(), 1int,
{
    let ke = colon_pos(t);
    if ke >= t.len() {
        Err("expected ':' in key-value pair"@)
    } else {
        let key = trim(t.take(ke));
        let after = t.skip(ke + 1);
        proof {
            lemma_runs(t);
            lemma_runs(after);
        }
        if blank_line(after) {
            let nl = next_line(after);
            let u0 = after.skip(nl);
            proof {
                lemma_skip_blank(u0);
            }
            let b = skip_blank(u0);
            let u = u0.skip(b);
            let m = indent_len(u);
            if line_len(after) < after.len() && m < u.len() && m > n {
                if u[m] == '-' {
                    match list_spec(u0, m) {
                        Err(e) => Err(e),
                        Ok((c2, vs)) => Ok((ke + 1 + nl + c2, (key, ValueModel::List(vs)))),
                    }
                } else {
                    let (c2, ps) = block_spec(u0, m);
                    Ok((ke + 1 + nl + c2, (key, ValueModel::Mapping(ps))))
                }
            } else {
                Ok((ke + 1 + indent_len(after), (key, ValueModel::Mapping(Seq::empty()))))
            }
        } else {
            let w = indent_len(after);
            match scalar_outcome(after.skip(w)) {
                None => Err("expected scalar value"@),
                Some((c, v)) => Ok((ke + 1 + w + c, (key, v))),
            }
        }
    }
}

/// The block of key-value lines at indentation `n` at the start of `t` (which starts
/// a line): how many characters it takes, up to the end of its last value, and its
/// pairs. The block ends at a line of another indentation, at a `-` line, and at a
/// line without a key.
pub open spec fn block_spec(t: Seq<char>, n: int) -> (int, Seq<(Seq<char>, ValueModel)>)
    decreases t.len(), 2int,
{
    proof {
        lemma_skip_blank(t);
    }
    let b = skip_blank(t);
    let u = t.skip(b);
    let m = indent_len(u);
    proof {
        lemma_runs(u);
        lemma_runs(u.skip(m));
    }
    let content = u.skip(m);
    if m != n || m >= u.len() || u[m] == '-' || colon_pos(content) >= line_len(content) || trim(
        content.take(colon_pos(content)),
    ).len() == 0 {
        (0, Seq::empty())
    } else {
        match kv_spec(content, n) {
            Err(_) => (0, Seq::empty()),
            Ok((c, pair)) => {
                if 0 < c <= content.len() {
                    let after = content.skip(c);
                    proof {
                        lemma_runs(after);
                    }
                    if !blank_line(after) || after.len() == 0 {
                        (b + m + c, seq![pair])
                    } else {
                        let e = next_line(after);
                        let (c2, ps) = block_spec(t.skip(b + m + c + e), n);
                        if ps.len() == 0 {
                            (b + m + c, seq![pair])
                        } else {
                            (b + m + c + e + c2, seq![pair] + ps)
                        }
                    }
                } else {
                    (0, Seq::empty())
                }
            },
        }
    }
}

/// A list item (`-` then a scalar) at the start of `t`: how many characters it
/// takes and its value, or the error message.
pub open spec fn item_spec(t: Seq<char>) -> Result<(int, ValueModel), Seq<char>> {
    if t.len() == 0 || t[0] != '-' {
        Err("expected list item starting with '-'"@)
    } else {
        let after = t.skip(1);
        let v = trim_start(after);
        match scalar_outcome(v) {
            None => Err("expected scalar value"@),
            Some((c, m)) => Ok((1 + (after.len() - v.len()) + c, m)),
        }
    }
}

/// The list of `-` lines at indentation `n` at the start of `t` (which starts a
/// line): how many characters it takes, up to the end of its last value, and its
/// values, or the error of an item.
pub open spec fn list_spec(t: Seq<char>, n: int) -> Result<(int, Seq<ValueModel>), Seq<char>>
    decreases t.len(), 0int,
{
    proof {
        lemma_skip_blank(t);
    }
    let b = skip_blank(t);
    let u = t.skip(b);
    let m = indent_len(u);
    proof {
        lemma_runs(u);
    }
    if m != n || m >= u.len() || u[m] != '-' {
        Ok((0, Seq::empty()))
    } else {
        match item_spec(u.skip(m)) {
            Err(e) => Err(e),
            Ok((c, v)) => {
                if 0 < c <= u.len() - m {
                    let after = u.skip(m + c);
                    proof {
                        lemma_runs(after);
                    }
                    if !blank_line(after) || after.len() == 0 {
                        Ok((b + m + c, seq![v]))
                    } else {
                        let e = next_line(after);
                        match list_spec(t.skip(b + m + c + e), n) {
                            Err(err) => Err(err),
                            Ok((c2, vs)) => if vs.len() == 0 {
                                Ok((b + m + c, seq![v]))
                            } else {
                                Ok((b + m + c + e + c2, seq![v] + vs))
                            },
                        }
                    }
                } else {
                    Ok((0, Seq::empty()))
                }
            },
        }
    }
}


/// Number of spaces and tabs at the start of `s`.
fn indent_run(s: &str) -> (n: usize)
    ensures
        n == indent_len(s@),
        n <= s@.len(),
{
    let len = s.unicode_len();
    let mut n: usize = 0;
    while n < len
        invariant
            len == s@.len(),
            n <= len,
            forall|j: int| 0 <= j < n ==> #[trigger] inline_ws_pred()(s@[j]),
        ensures
            n <= len,
            forall|j: int| 0 <= j < n ==> #[trigger] inline_ws_pred()(s@[j]),
            n == len || !inline_ws_pred()(s@[n as int]),
        decreases len - n,
    {
        let c = s.get_char(n);
        if c != ' ' && c != '\t' {
            break;
        }
        n = n + 1;
    }
    proof {
        lemma_run_len(s@, inline_ws_pred(), n as int);
    }
    n
}

/// Whether the first line of `s` is blank or holds only a comment.
fn is_blank_line(s: &str) -> (b: bool)
    ensures
        b == blank_line(s@),
{
    let w = indent_run(s);
    if w == s.unicode_len() {
        true
    } else {
        let c = s.get_char(w);
        c == '\n' || c == '#'
    }
}

/// Where the second line of `s` starts.
fn next_line_start(s: &str) -> (k: usize)
    ensures
        k == next_line(s@),
        k <= s@.len(),
{
    proof {
        lemma_runs(s@);
    }
    let l = until_char(s, '\n');
    if l < s.unicode_len() {
        l + 1
    } else {
        l
    }
}

proof fn lemma_skip_skip(s: Seq<char>, a: int, b: int)
    requires
        0 <= a <= s.len(),
        0 <= b <= s.len() - a,
    ensures
        s.skip(a).skip(b) == s.skip(a + b),
{
    assert(s.skip(a).skip(b) =~= s.skip(a + b));
}

/// Number of characters taken by the blank and comment lines at the start of `s`.
fn skip_blank_lines(s: &str) -> (k: usize)
    ensures
        k == skip_blank(s@),
        k <= s@.len(),
{
    let len = s.unicode_len();
    let mut k: usize = 0;
    proof {
        lemma_skip_blank(s@);
        assert(s@.skip(0) =~= s@);
    }
    while k < len
        invariant
            len == s@.len(),
            k <= len,
            skip_blank(s@) == k + skip_blank(s@.skip(k as int)),
        ensures
            k <= len,
            skip_blank(s@) == k + skip_blank(s@.skip(k as int)),
            skip_blank(s@.skip(k as int)) == 0,
        decreases len - k,
    {
        let rest = tail(s, k);
        if !is_blank_line(rest) {
            break;
        }
        let e = next_line_start(rest);
        proof {
            lemma_runs(rest@);
            lemma_skip_skip(s@, k as int, e as int);
        }
        k = k + e;
    }
    proof {
        if k == len {
            assert(s@.skip(k as int).len() == 0);
        }
    }
    k
}


/// The model of a list value is the list of its items' models.
pub proof fn lemma_list_model(vs: Vec<Value>)
    ensures
        Value::List(vs).model() == ValueModel::List(models(vs@)),
{
    assert(Value::List(vs).model()->List_0 =~= models(vs@));
}

/// The model of a mapping value is the list of its pairs' models.
pub proof fn lemma_mapping_model(ps: Vec<(String, Value)>)
    ensures
        Value::Mapping(ps).model() == ValueModel::Mapping(pair_models(ps@)),
{
    assert(Value::Mapping(ps).model()->Mapping_0 =~= pair_models(ps@));
}

/// `r` is the error that carries `msg` at line 1, column 1.
pub open spec fn error_is(r: ParseError, msg: Seq<char>) -> bool {
    r.message@ == msg && r.line == 1 && r.column == 1
}

/// The outcome `r` of parsing a key-value pair agrees with its specification `s`.
pub open spec fn kv_agrees(
    s: Result<(int, (Seq<char>, ValueModel)), Seq<char>>,
    r: Result<(usize, (String, Value)), ParseError>,
) -> bool {
    match s {
        Err(msg) => r is Err && error_is(r->Err_0, msg),
        Ok((c, (k, v))) => r is Ok && r->Ok_0.0 == c && r->Ok_0.1.0@ == k && r->Ok_0.1.1.model()
            == v,
    }
}

/// The outcome `r` of parsing a list item agrees with its specification `s`.
pub open spec fn item_agrees(
    s: Result<(int, ValueModel), Seq<char>>,
    r: Result<(usize, Value), ParseError>,
) -> bool {
    match s {
        Err(msg) => r is Err && error_is(r->Err_0, msg),
        Ok((c, v)) => r is Ok && r->Ok_0.0 == c && r->Ok_0.1.model() == v,
    }
}

/// The outcome `r` of parsing a list agrees with its specification `s`.
pub open spec fn list_agrees(
    s: Result<(int, Seq<ValueModel>), Seq<char>>,
    r: Result<(usize, Vec<Value>), ParseError>,
) -> bool {
    match s {
        Err(msg) => r is Err && error_is(r->Err_0, msg),
        Ok((c, vs)) => r is Ok && r->Ok_0.0 == c && models(r->Ok_0.1@) == vs,
    }
}

/// Parse a list item at the start of `t`.
fn parse_item(t: &str) -> (r: Result<(usize, Value), ParseError>)
    ensures
        item_agrees(item_spec(t@), r),
        r is Ok ==> 0 < r->Ok_0.0 <= t@.len(),
{
    proof {
        reveal_strlit("expected list item starting with '-'");
        lemma_start_position(t);
    }
    let len = t.unicode_len();
    if len == 0 || t.get_char(0) != '-' {
        return Err(error_at(t, "expected list item starting with '-'", 0));
    }
    let after = tail(t, 1);
    let v = str_trim_start(after);
    let r0 = scalar()(v);
    proof {
        lemma_scalar_outcome_bounds(v@);
    }
    match r0 {
        Err(e) => Err(e),
        Ok((rest, val)) => {
            let c = v.unicode_len() - rest.unicode_len();
            Ok((1 + (after.unicode_len() - v.unicode_len()) + c, val))
        },
    }
}

/// Parse a key-value pair at the start of `t`, whose key stands at indentation `n`.
fn parse_kv(t: &str, n: usize) -> (r: Result<(usize, (String, Value)), ParseError>)
    ensures
        kv_agrees(kv_spec(t@, n as int), r),
        r is Ok ==> 0 < r->Ok_0.0 <= t@.len(),
    decreases t@.len(), 1int,
{
    proof {
        reveal_strlit("expected ':' in key-value pair");
        lemma_start_position(t);
        lemma_runs(t@);
    }
    let len = t.unicode_len();
    let ke = until_char(t, ':');
    if ke >= len {
        return Err(error_at(t, "expected ':' in key-value pair", 0));
    }
    let key = str_trim(t.substring_char(0, ke)).to_string();
    proof {
        assert(t@.subrange(0, ke as int) =~= t@.take(ke as int));
    }
    let after = tail(t, ke + 1);
    proof {
        lemma_runs(after@);
    }
    if is_blank_line(after) {
        let alen = after.unicode_len();
        let nl = next_line_start(after);
        let u0 = tail(after, nl);
        let b = skip_blank_lines(u0);
        let u = tail(u0, b);
        let m = indent_run(u);
        let ll = until_char(after, '\n');
        if ll < alen && m < u.unicode_len() && m > n {
            if u.get_char(m) == '-' {
                match parse_list(u0, m) {
                    Err(e) => Err(e),
                    Ok((c2, vs)) => {
                        proof {
                            lemma_list_model(vs);
                        }
                        Ok((ke + 1 + nl + c2, (key, Value::List(vs))))
                    },
                }
            } else {
                let (c2, ps) = parse_block(u0, m);
                proof {
                    lemma_mapping_model(ps);
                }
                Ok((ke + 1 + nl + c2, (key, Value::Mapping(ps))))
            }
        } else {
            let w = indent_run(after);
            let ps: Vec<(String, Value)> = Vec::new();
            proof {
                lemma_mapping_model(ps);
                assert(pair_models(ps@) =~= Seq::<(Seq<char>, ValueModel)>::empty());
            }
            Ok((ke + 1 + w, (key, Value::Mapping(ps))))
        }
    } else {
        let w = indent_run(after);
        let v_in = tail(after, w);
        let r0 = scalar()(v_in);
        proof {
            lemma_scalar_outcome_bounds(v_in@);
        }
        match r0 {
            Err(e) => Err(e),
            Ok((rest, v)) => {
                let c = v_in.unicode_len() - rest.unicode_len();
                Ok((ke + 1 + w + c, (key, v)))
            },
        }
    }
}

/// Parse the block of key-value lines at indentation `n` at the start of `t`.
fn parse_block(t: &str, n: usize) -> (r: (usize, Vec<(String, Value)>))
    ensures
        r.0 == block_spec(t@, n as int).0,
        pair_models(r.1@) == block_spec(t@, n as int).1,
        r.0 <= t@.len(),
    decreases t@.len(), 2int,
{
    let tlen = t.unicode_len();
    let b = skip_blank_lines(t);
    let u = tail(t, b);
    let m = indent_run(u);
    let ulen = u.unicode_len();
    proof {
        lemma_runs(u@);
    }
    if m != n || m >= ulen || u.get_char(m) == '-' {
        return (0, Vec::new());
    }
    let content = tail(u, m);
    proof {
        lemma_runs(content@);
        assert(u@.len() == t@.len() - b);
        assert(content@.len() == u@.len() - m);
    }
    let ce = until_char(content, ':');
    let ll = until_char(content, '\n');
    if ce >= ll {
        return (0, Vec::new());
    }
    let key_text = str_trim(content.substring_char(0, ce));
    proof {
        assert(content@.subrange(0, ce as int) =~= content@.take(ce as int));
    }
    if key_text.unicode_len() == 0 {
        return (0, Vec::new());
    }
    match parse_kv(content, n) {
        Err(_) => (0, Vec::new()),
        Ok((c, pair)) => {
            let after = tail(content, c);
            proof {
                lemma_runs(after@);
                assert(after@.len() == content@.len() - c);
            }
            let mut v: Vec<(String, Value)> = Vec::new();
            v.push(pair);
            if !is_blank_line(after) || after.unicode_len() == 0 {
                proof {
                    assert(pair_models(v@) =~= seq![(pair.0@, pair.1.model())]);
                }
                (b + m + c, v)
            } else {
                let e = next_line_start(after);
                proof {
                    lemma_skip_skip(t@, b as int, m as int);
                    lemma_skip_skip(t@, (b + m) as int, c as int);
                }
                let (c2, mut ps) = parse_block(tail(t, b + m + c + e), n);
                if ps.len() == 0 {
                    proof {
                        assert(pair_models(v@) =~= seq![(pair.0@, pair.1.model())]);
                    }
                    (b + m + c, v)
                } else {
                    let ghost old_ps = ps@;
                    v.append(&mut ps);
                    proof {
                        assert(pair_models(v@) =~= seq![(pair.0@, pair.1.model())] + pair_models(
                            old_ps,
                        ));
                    }
                    (b + m + c + e + c2, v)
                }
            }
        },
    }
}

/// Parse the list of `-` lines at indentation `n` at the start of `t`.
fn parse_list(t: &str, n: usize) -> (r: Result<(usize, Vec<Value>), ParseError>)
    ensures
        list_agrees(list_spec(t@, n as int), r),
        r is Ok ==> r->Ok_0.0 <= t@.len(),
    decreases t@.len(), 0int,
{
    let tlen = t.unicode_len();
    let b = skip_blank_lines(t);
    let u = tail(t, b);
    let m = indent_run(u);
    let ulen = u.unicode_len();
    proof {
        lemma_runs(u@);
    }
    if m != n || m >= ulen || u.get_char(m) != '-' {
        let empty: Vec<Value> = Vec::new();
        proof {
            assert(models(empty@) =~= Seq::<ValueModel>::empty());
        }
        return Ok((0, empty));
    }
    let item = tail(u, m);
    proof {
        assert(u@.len() == t@.len() - b);
        assert(item@.len() == u@.len() - m);
    }
    match parse_item(item) {
        Err(e) => Err(e),
        Ok((c, val)) => {
            proof {
                lemma_skip_skip(u@, m as int, c as int);
            }
            let after = tail(u, m + c);
            proof {
                lemma_runs(after@);
                assert(after@.len() == u@.len() - m - c);
            }
            let mut v: Vec<Value> = Vec::new();
            v.push(val);
            if !is_blank_line(after) || after.unicode_len() == 0 {
                proof {
                    assert(models(v@) =~= seq![val.model()]);
                }
                Ok((b + m + c, v))
            } else {
                let e = next_line_start(after);
                proof {
                    lemma_skip_skip(t@, b as int, (m + c) as int);
                }
                match parse_list(tail(t, b + m + c + e), n) {
                    Err(err) => Err(err),
                    Ok((c2, mut vs)) => {
                        if vs.len() == 0 {
                            proof {
                                assert(models(v@) =~= seq![val.model()]);
                            }
                            Ok((b + m + c, v))
                        } else {
                            let ghost old_vs = vs@;
                            v.append(&mut vs);
                            proof {
                                assert(models(v@) =~= seq![val.model()] + models(old_vs));
                            }
                            Ok((b + m + c + e + c2, v))
                        }
                    },
                }
            }
        },
    }
}


/// The indentation of the first line of `t` that is not blank.
pub open spec fn first_indent(t: Seq<char>) -> int {
    indent_len(t.skip(skip_blank(t)))
}

/// What `indent()` gives on input `i`: the number of leading spaces and tabs.
pub open spec fn indent_result<'a>(i: Seq<char>, r: ParseResult<'a, usize>) -> bool {
    r is Ok && r->Ok_0.0@ == i.skip(indent_len(i)) && r->Ok_0.1 == indent_len(i)
}

/// Parse whitespace (spaces and tabs, not newlines), giving how many there were.
pub fn indent<'a>() -> (f: impl Fn(Input<'a>) -> ParseResult<'a, usize>)
    ensures
        forall|i: Input<'a>| #[trigger] f.requires((i,)),
        forall|i: Input<'a>, r| #[trigger] f.ensures((i,), r) ==> indent_result(i@, r),
{
    move |input: Input<'a>| -> (r: ParseResult<'a, usize>)
        ensures
            indent_result(input@, r),
    {
        let n = indent_run(input);
        Ok((tail(input, n), n))
    }
}

/// What `ws()` gives on input `i`: the leading spaces and tabs, and the rest.
pub open spec fn ws_result<'a>(i: Seq<char>, r: ParseResult<'a, &'a str>) -> bool {
    r is Ok && r->Ok_0.0@ == i.skip(indent_len(i)) && r->Ok_0.1@ == i.take(indent_len(i))
}

/// Parse inline whitespace (spaces and tabs).
pub fn ws<'a>() -> (f: impl Fn(Input<'a>) -> ParseResult<'a, &'a str>)
    ensures
        forall|i: Input<'a>| #[trigger] f.requires((i,)),
        forall|i: Input<'a>, r| #[trigger] f.ensures((i,), r) ==> ws_result(i@, r),
{
    move |input: Input<'a>| -> (r: ParseResult<'a, &'a str>)
        ensures
            ws_result(input@, r),
    {
        let n = indent_run(input);
        let taken = input.substring_char(0, n);
        proof {
            assert(taken@ =~= input@.take(n as int));
        }
        Ok((tail(input, n), taken))
    }
}

/// What `comment()` gives on input `i`: a `#` comment is skipped up to the line
/// break; any other input is left as it is.
pub open spec fn comment_result<'a>(i: Seq<char>, r: ParseResult<'a, ()>) -> bool {
    &&& r is Ok
    &&& if i.len() > 0 && i[0] == '#' {
        r->Ok_0.0@ == i.skip(line_len(i))
    } else {
        r->Ok_0.0@ == i
    }
}

/// Parse a comment (from `#` to the end of the line); without one, nothing is taken.
pub fn comment<'a>() -> (f: impl Fn(Input<'a>) -> ParseResult<'a, ()>)
    ensures
        forall|i: Input<'a>| #[trigger] f.requires((i,)),
        forall|i: Input<'a>, r| #[trigger] f.ensures((i,), r) ==> comment_result(i@, r),
{
    move |input: Input<'a>| -> (r: ParseResult<'a, ()>)
        ensures
            comment_result(input@, r),
    {
        if input.unicode_len() > 0 && input.get_char(0) == '#' {
            let l = until_char(input, '\n');
            Ok((tail(input, l), ()))
        } else {
            Ok((input, ()))
        }
    }
}

/// What `key_value()` gives on input `i`: the key-value pair whose key stands at the
/// indentation that `i` starts with.
pub open spec fn key_value_result<'a>(i: Seq<char>, r: ParseResult<'a, (String, Value)>) -> bool {
    match kv_spec(i, indent_len(i)) {
        Err(msg) => r is Err && error_is(r->Err_0, msg),
        Ok((c, (k, v))) => r is Ok && r->Ok_0.0@ == i.skip(c) && r->Ok_0.1.0@ == k
            && r->Ok_0.1.1.model() == v,
    }
}

/// Parse a key-value pair: `key: value`, or `key:` followed by a more indented list
/// or block.
pub fn key_value<'a>() -> (f: impl Fn(Input<'a>) -> ParseResult<'a, (String, Value)>)
    ensures
        forall|i: Input<'a>| #[trigger] f.requires((i,)),
        forall|i: Input<'a>, r| #[trigger] f.ensures((i,), r) ==> key_value_result(i@, r),
{
    move |input: Input<'a>| -> (r: ParseResult<'a, (String, Value)>)
        ensures
            key_value_result(input@, r),
    {
        let n = indent_run(input);
        match parse_kv(input, n) {
            Err(e) => Err(e),
            Ok((c, pair)) => Ok((tail(input, c), pair)),
        }
    }
}

/// What `list_item()` gives on input `i`.
pub open spec fn list_item_result<'a>(i: Seq<char>, r: ParseResult<'a, Value>) -> bool {
    match item_spec(i) {
        Err(msg) => r is Err && error_is(r->Err_0, msg),
        Ok((c, v)) => r is Ok && r->Ok_0.0@ == i.skip(c) && r->Ok_0.1.model() == v,
    }
}

/// Parse a list item: `- value`.
pub fn list_item<'a>() -> (f: impl Fn(Input<'a>) -> ParseResult<'a, Value>)
    ensures
        forall|i: Input<'a>| #[trigger] f.requires((i,)),
        forall|i: Input<'a>, r| #[trigger] f.ensures((i,), r) ==> list_item_result(i@, r),
{
    move |input: Input<'a>| -> (r: ParseResult<'a, Value>)
        ensures
            list_item_result(input@, r),
    {
        match parse_item(input) {
            Err(e) => Err(e),
            Ok((c, v)) => Ok((tail(input, c), v)),
        }
    }
}

/// What `list()` gives on input `i`: the list at the indentation of its first line
/// that is not blank.
pub open spec fn list_result<'a>(i: Seq<char>, r: ParseResult<'a, Vec<Value>>) -> bool {
    match list_spec(i, first_indent(i)) {
        Err(msg) => r is Err && error_is(r->Err_0, msg),
        Ok((c, vs)) => r is Ok && r->Ok_0.0@ == i.skip(c) && models(r->Ok_0.1@) == vs,
    }
}

/// Parse a list: the `- value` lines at one indentation.
pub fn list<'a>() -> (f: impl Fn(Input<'a>) -> ParseResult<'a, Vec<Value>>)
    ensures
        forall|i: Input<'a>| #[trigger] f.requires((i,)),
        forall|i: Input<'a>, r| #[trigger] f.ensures((i,), r) ==> list_result(i@, r),
{
    move |input: Input<'a>| -> (r: ParseResult<'a, Vec<Value>>)
        ensures
            list_result(input@, r),
    {
        let b = skip_blank_lines(input);
        let n = indent_run(tail(input, b));
        match parse_list(input, n) {
            Err(e) => Err(e),
            Ok((c, vs)) => Ok((tail(input, c), vs)),
        }
    }
}

/// What `block()` gives on input `i`: the block at the indentation of its first line
/// that is not blank.
pub open spec fn block_result<'a>(i: Seq<char>, r: ParseResult<'a, Vec<(String, Value)>>) -> bool {
    let (c, ps) = block_spec(i, first_indent(i));
    r is Ok && r->Ok_0.0@ == i.skip(c) && pair_models(r->Ok_0.1@) == ps
}

/// Parse a block: the key-value lines at one indentation.
pub fn block<'a>() -> (f: impl Fn(Input<'a>) -> ParseResult<'a, Vec<(String, Value)>>)
    ensures
        forall|i: Input<'a>| #[trigger] f.requires((i,)),
        forall|i: Input<'a>, r| #[trigger] f.ensures((i,), r) ==> block_result(i@, r),
{
    move |input: Input<'a>| -> (r: ParseResult<'a, Vec<(String, Value)>>)
        ensures
            block_result(input@, r),
    {
        let b = skip_blank_lines(input);
        let n = indent_run(tail(input, b));
        let (c, ps) = parse_block(input, n);
        Ok((tail(input, c), ps))
    }
}

/// A document at the start of `t`: a list when its first line that is not blank is
/// a `-` line, else a block; how many characters it takes and its value, or the
/// error of a list item.
pub open spec fn document_spec(t: Seq<char>) -> Result<(int, ValueModel), Seq<char>> {
    let u = t.skip(skip_blank(t));
    let m = indent_len(u);
    if m < u.len() && u[m] == '-' {
        match list_spec(t, m) {
            Err(msg) => Err(msg),
            Ok((c, vs)) => Ok((c, ValueModel::List(vs))),
        }
    } else {
        let (c, ps) = block_spec(t, m);
        Ok((c, ValueModel::Mapping(ps)))
    }
}

fn parse_document(t: &str) -> (r: Result<(usize, Value), ParseError>)
    ensures
        item_agrees(document_spec(t@), r),
        r is Ok ==> r->Ok_0.0 <= t@.len(),
{
    let b = skip_blank_lines(t);
    let u = tail(t, b);
    let m = indent_run(u);
    if m < u.unicode_len() && u.get_char(m) == '-' {
        match parse_list(t, m) {
            Err(e) => Err(e),
            Ok((c, vs)) => {
                proof {
                    lemma_list_model(vs);
                }
                Ok((c, Value::List(vs)))
            },
        }
    } else {
        let (c, ps) = parse_block(t, m);
        proof {
            lemma_mapping_model(ps);
        }
        Ok((c, Value::Mapping(ps)))
    }
}

/// What `document()` gives on input `i`.
pub open spec fn document_result<'a>(i: Seq<char>, r: ParseResult<'a, Value>) -> bool {
    match document_spec(i) {
        Err(msg) => r is Err && error_is(r->Err_0, msg),
        Ok((c, v)) => r is Ok && r->Ok_0.0@ == i.skip(c) && r->Ok_0.1.model() == v,
    }
}

/// Parse a complete YAML document: a list or a block.
pub fn document<'a>() -> (f: impl Fn(Input<'a>) -> ParseResult<'a, Value>)
    ensures
        forall|i: Input<'a>| #[trigger] f.requires((i,)),
        forall|i: Input<'a>, r| #[trigger] f.ensures((i,), r) ==> document_result(i@, r),
{
    move |input: Input<'a>| -> (r: ParseResult<'a, Value>)
        ensures
            document_result(input@, r),
    {
        match parse_document(input) {
            Err(e) => Err(e),
            Ok((c, v)) => Ok((tail(input, c), v)),
        }
    }
}

/// Parse YAML file content into a value: the document at its start.
pub fn parse(input: &str) -> (r: Result<Value, ParseError>)
    ensures
        match document_spec(input@) {
            Err(msg) => r is Err && error_is(r->Err_0, msg),
            Ok((_, v)) => r is Ok && r->Ok_0.model() == v,
        },
{
    match parse_document(input) {
        Err(e) => Err(e),
        Ok((_, v)) => Ok(v),
    }
}
/// A key whose value is a nested list takes its own line and then exactly the
/// characters of the list that starts on the lines below it, at the indentation of
/// that list's first item, which is deeper than the key's; the value is that list's
/// items. So the pair ends where the list's last item ends, and what follows is left
/// for the rest of the block.
pub proof fn lemma_list_value_is_the_list_below(
    t: Seq<char>,
    n: int,
    c: int,
    k: Seq<char>,
    vs: Seq<ValueModel>,
)
    requires
        kv_spec(t, n) == Ok::<(int, (Seq<char>, ValueModel)), Seq<char>>((c, (k, ValueModel::List(vs)))),
    ensures
        ({
            let ke = colon_pos(t);
            let after = t.skip(ke + 1);
            let below = after.skip(next_line(after));
            let m = indent_len(below.skip(skip_blank(below)));
            &&& ke < t.len()
            &&& k == trim(t.take(ke))
            &&& n < m
            &&& list_spec(below, m) == Ok::<(int, Seq<ValueModel>), Seq<char>>(
                (c - (ke + 1 + next_line(after)), vs),
            )
        }),
{
    let ke = colon_pos(t);
    let after = t.skip(ke + 1);
    lemma_runs(t);
    lemma_runs(after);
    if !blank_line(after) {
        let w = indent_len(after);
        match scalar_outcome(after.skip(w)) {
            None => {},
            Some((c0, v)) => {
                assert(!(v is List));
            },
        }
    }
}

/// A key whose value is a nested block takes its own line and then exactly the
/// characters of the block of pairs that starts on the lines below it, deeper than
/// the key; a key with nothing deeper below it has the empty mapping and takes its
/// line up to its blank rest.
pub proof fn lemma_mapping_value_is_the_block_below(
    t: Seq<char>,
    n: int,
    c: int,
    k: Seq<char>,
    ps: Seq<(Seq<char>, ValueModel)>,
)
    requires
        kv_spec(t, n) == Ok::<(int, (Seq<char>, ValueModel)), Seq<char>>((c, (k, ValueModel::Mapping(ps)))),
    ensures
        ({
            let ke = colon_pos(t);
            let after = t.skip(ke + 1);
            let below = after.skip(next_line(after));
            let u = below.skip(skip_blank(below));
            let m = indent_len(u);
            &&& ke < t.len()
            &&& k == trim(t.take(ke))
            &&& blank_line(after)
            &&& if line_len(after) < after.len() && m < u.len() && m > n {
                &&& u[m] != '-'
                &&& block_spec(below, m) == (c - (ke + 1 + next_line(after)), ps)
            } else {
                &&& ps.len() == 0
                &&& c == ke + 1 + indent_len(after)
            }
        }),
{
    let ke = colon_pos(t);
    let after = t.skip(ke + 1);
    lemma_runs(t);
    lemma_runs(after);
    if !blank_line(after) {
        let w = indent_len(after);
        match scalar_outcome(after.skip(w)) {
            None => {},
            Some((c0, v)) => {
                assert(!(v is Mapping));
            },
        }
    }
}

/// A key followed on its line by a value takes the key, the `:`, the white space after
/// it and exactly the characters of the scalar that starts there, which is the value.
pub proof fn lemma_scalar_value_is_the_scalar_after_the_colon(
    t: Seq<char>,
    n: int,
    c: int,
    k: Seq<char>,
    v: ValueModel,
)
    requires
        kv_spec(t, n) == Ok::<(int, (Seq<char>, ValueModel)), Seq<char>>((c, (k, v))),
        !(v is List),
        !(v is Mapping),
    ensures
        ({
            let ke = colon_pos(t);
            let after = t.skip(ke + 1);
            let w = indent_len(after);
            &&& ke < t.len()
            &&& k == trim(t.take(ke))
            &&& !blank_line(after)
            &&& scalar_outcome(after.skip(w)) == Some((c - (ke + 1 + w), v))
        }),
{
    lemma_runs(t);
    lemma_runs(t.skip(colon_pos(t) + 1));
}

} // verus!
