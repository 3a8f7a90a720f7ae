//! Scalar value parsing for YAML.

use crate::parsing::input::{error_at, lemma_start_position, Input, ParseResult};
use crate::parsing::primitives::fails_with;
use crate::text::{
    decimal_value, digit_pred, digit_run, is_digit, lemma_decimal_value_mono, lemma_run_prefix, run_len,
    starts_with, str_contains_char, str_starts_with, str_trim, trim, lemma_run_len,
};
use vstd::prelude::*;
use vstd::string::*;

verus! {

/// A YAML value. A float is held as the decimal text it was read from
/// (`"3.14"`, or `"3"` for a float written without a fraction).
#[derive(Debug, PartialEq)]
pub enum Value {
    String(String),
    Number(u64),
    Float(String),
    Bool(bool),
    Null,
    List(Vec<Value>),
    Mapping(Vec<(String, Value)>),
}

/// The mathematical model of a [`Value`].
pub enum ValueModel {
    String(Seq<char>),
    Number(u64),
    Float(Seq<char>),
    Bool(bool),
    Null,
    List(Seq<ValueModel>),
    Mapping(Seq<(Seq<char>, ValueModel)>),
}

impl Value {
    /// The model of this value.
    pub open spec fn model(self) -> ValueModel
        decreases self,
    {
        match self {
            Value::String(s) => ValueModel::String(s@),
            Value::Number(n) => ValueModel::Number(n),
            Value::Float(s) => ValueModel::Float(s@),
            Value::Bool(b) => ValueModel::Bool(b),
            Value::Null => ValueModel::Null,
            Value::List(items) => ValueModel::List(
                Seq::new(
                    items@.len(),
                    |k: int|
                        if 0 <= k < items@.len() {
                            items@[k].model()
                        } else {
                            ValueModel::Null
                        },
                ),
            ),
            Value::Mapping(pairs) => ValueModel::Mapping(
                Seq::new(
                    pairs@.len(),
                    |k: int|
                        if 0 <= k < pairs@.len() {
                            (pairs@[k].0@, pairs@[k].1.model())
                        } else {
                            (Seq::empty(), ValueModel::Null)
                        },
                ),
            ),
        }
    }
}

/// The models of a sequence of values.
pub open spec fn models(vs: Seq<Value>) -> Seq<ValueModel> {
    Seq::new(vs.len(), |k: int| vs[k].model())
}

/// The models of a sequence of key-value pairs.
pub open spec fn pair_models(ps: Seq<(String, Value)>) -> Seq<(Seq<char>, ValueModel)> {
    Seq::new(ps.len(), |k: int| (ps[k].0@, ps[k].1.model()))
}

/// A deep copy of `v`.
fn clone_value(v: &Value) -> (r: Value)
    ensures
        r.model() == v.model(),
    decreases v,
{
    match v {
        Value::String(s) => Value::String(s.clone()),
        Value::Number(n) => Value::Number(*n),
        Value::Float(t) => Value::Float(t.clone()),
        Value::Bool(b) => Value::Bool(*b),
        Value::Null => Value::Null,
        Value::List(items) => {
            let c = clone_values(items);
            assert(Value::List(c).model()->List_0 =~= models(c@));
            assert(v.model()->List_0 =~= models(items@));
            Value::List(c)
        },
        Value::Mapping(pairs) => {
            let c = clone_pairs(pairs);
            assert(Value::Mapping(c).model()->Mapping_0 =~= pair_models(c@));
            assert(v.model()->Mapping_0 =~= pair_models(pairs@));
            Value::Mapping(c)
        },
    }
}

/// A deep copy of the values `vs`.
fn clone_values(vs: &Vec<Value>) -> (r: Vec<Value>)
    ensures
        models(r@) == models(vs@),
    decreases vs,
{
    let mut out: Vec<Value> = Vec::new();
    let mut i: usize = 0;
    while i < vs.len()
        invariant
            i <= vs@.len(),
            out@.len() == i,
            forall|k: int| 0 <= k < i ==> #[trigger] out@[k].model() == vs@[k].model(),
        decreases vs@.len() - i,
    {
        let c = clone_value(&vs[i]);
        out.push(c);
        i = i + 1;
    }
    assert(models(out@) =~= models(vs@));
    out
}

/// A deep copy of the key-value pairs `ps`.
fn clone_pairs(ps: &Vec<(String, Value)>) -> (r: Vec<(String, Value)>)
    ensures
        pair_models(r@) == pair_models(ps@),
    decreases ps,
{
    let mut out: Vec<(String, Value)> = Vec::new();
    let mut i: usize = 0;
    while i < ps.len()
        invariant
            i <= ps@.len(),
            out@.len() == i,
            forall|k: int|
                0 <= k < i ==> #[trigger] out@[k].0@ == ps@[k].0@ && out@[k].1.model() == ps@[k].1.model(),
        decreases ps@.len() - i,
    {
        let c = clone_value(&ps[i].1);
        out.push((ps[i].0.clone(), c));
        i = i + 1;
    }
    assert(pair_models(out@) =~= pair_models(ps@));
    out
}

impl Clone for Value {
    /// A deep copy, with the same model.
    fn clone(&self) -> (r: Self)
        ensures
            r.model() == self.model(),
    {
        clone_value(self)
    }
}

/// A character that may follow the quote that closes a string: white space, the
/// end of a flow item (`,`, `]`, `}`), a `:` or a comment's `#`.
pub open spec fn ends_after_quote(c: char) -> bool {
    c == ' ' || c == '\t' || c == '\n' || c == '\r' || c == ',' || c == ']' || c == '}' || c == ':'
        || c == '#'
}

/// The quote `q` at `m` of `i`, after the opening one, can close the string: it ends
/// the input or is followed by a character in `ends_after_quote`.
pub open spec fn ends_string(i: Seq<char>, q: char, m: int) -> bool {
    &&& 1 <= m < i.len()
    &&& i[m] == q
    &&& (m + 1 == i.len() || ends_after_quote(i[m + 1]))
}

/// `k` is the closing quote of the quoted string that `i` starts with: the first
/// quote `q` after the opening one that can end the string, or, when none can, the
/// first quote `q` after the opening one.
pub open spec fn closing_quote(i: Seq<char>, q: char, k: int) -> bool {
    if exists|m: int| #[trigger] ends_string(i, q, m) {
        &&& ends_string(i, q, k)
        &&& forall|m: int| 1 <= m < k ==> !#[trigger] ends_string(i, q, m)
    } else {
        &&& 1 <= k < i.len()
        &&& i[k] == q
        &&& forall|m: int| 1 <= m < k ==> i[m] != q
    }
}

/// The message of an unterminated string opened by `q`.
pub open spec fn unterminated_message(q: char) -> Seq<char> {
    if q == '"' {
        "unterminated double-quoted string"@
    } else {
        "unterminated single-quoted string"@
    }
}

/// What `quoted_string()` gives on input `i`.
pub open spec fn quoted_string_result<'a>(i: Seq<char>, r: ParseResult<'a, String>) -> bool {
    if i.len() > 0 && (i[0] == '"' || i[0] == '\'') {
        if exists|k: int| closing_quote(i, i[0], k) {
            &&& r is Ok
            &&& closing_quote(i, i[0], (r->Ok_0.1@.len() + 1) as int)
            &&& r->Ok_0.1@ == i.subrange(1, (r->Ok_0.1@.len() + 1) as int)
            &&& r->Ok_0.0@ == i.skip((r->Ok_0.1@.len() + 2) as int)
        } else {
            fails_with(r, unterminated_message(i[0]))
        }
    } else {
        fails_with(r, "expected quoted string"@)
    }
}

fn char_ends_after_quote(c: char) -> (b: bool)
    ensures
        b == ends_after_quote(c),
{
    c == ' ' || c == '\t' || c == '\n' || c == '\r' || c == ',' || c == ']' || c == '}' || c == ':'
        || c == '#'
}

/// The closing quote of the quoted string at the start of `s`, if it has one.
fn find_closing_quote(s: &str, q: char) -> (r: Option<usize>)
    requires
        s@.len() > 0,
        s@[0] == q,
        q == '"' || q == '\'',
    ensures
        match r {
            Some(k) => closing_quote(s@, q, k as int),
            None => forall|k: int| !closing_quote(s@, q, k),
        },
{
    let len = s.unicode_len();
    let mut j: usize = 1;
    let mut first: Option<usize> = None;
    while j < len
        invariant
            len == s@.len(),
            1 <= j <= len,
            forall|m: int| 1 <= m < j ==> !#[trigger] ends_string(s@, q, m),
            match first {
                Some(k) => 1 <= k < j && s@[k as int] == q && forall|m: int| 1 <= m < k ==> s@[m] != q,
                None => forall|m: int| 1 <= m < j ==> s@[m] != q,
            },
        decreases len - j,
    {
        let c = s.get_char(j);
        if c == q {
            if j + 1 == len || char_ends_after_quote(s.get_char(j + 1)) {
                assert(ends_string(s@, q, j as int));
                return Some(j);
            }
            if first.is_none() {
                first = Some(j);
            }
        }
        j = j + 1;
    }
    assert(!exists|m: int| #[trigger] ends_string(s@, q, m));
    match first {
        Some(k) => Some(k),
        None => {
            assert forall|k: int| !closing_quote(s@, q, k) by {
                if closing_quote(s@, q, k) {
                    assert(s@[k] != q);
                }
            }
            None
        },
    }
}

/// Parse a quoted string (double or single quotes).
pub fn quoted_string<'a>() -> (f: impl Fn(Input<'a>) -> ParseResult<'a, String>)
    ensures
        forall|i: Input<'a>| #[trigger] f.requires((i,)),
        forall|i: Input<'a>, r| #[trigger] f.ensures((i,), r) ==> quoted_string_result(i@, r),
{
    move |input: Input<'a>| -> (r: ParseResult<'a, String>)
        ensures
            quoted_string_result(input@, r),
    {
        proof {
            reveal_strlit("unterminated double-quoted string");
            reveal_strlit("unterminated single-quoted string");
            reveal_strlit("expected quoted string");
            lemma_start_position(input);
        }
        let len = input.unicode_len();
        if len > 0 {
            let q = input.get_char(0);
            if q == '"' || q == '\'' {
                match find_closing_quote(input, q) {
                    Some(k) => {
                        let content = input.substring_char(1, k).to_string();
                        return Ok((input.substring_char(k + 1, len), content));
                    }
                    None => {
                        if q == '"' {
                            return Err(error_at(input, "unterminated double-quoted string", 0));
                        } else {
                            return Err(error_at(input, "unterminated single-quoted string", 0));
                        }
                    }
                }
            }
        }
        Err(error_at(input, "expected quoted string", 0))
    }
}


/// A quoted string has at most one closing quote.
pub proof fn lemma_closing_quote_unique(i: Seq<char>, q: char, k1: int, k2: int)
    requires
        closing_quote(i, q, k1),
        closing_quote(i, q, k2),
    ensures
        k1 == k2,
{
    if exists|m: int| #[trigger] ends_string(i, q, m) {
        if k1 < k2 {
            assert(!ends_string(i, q, k1));
        } else if k2 < k1 {
            assert(!ends_string(i, q, k2));
        }
    }
}

/// Characters an unquoted scalar may hold.
pub open spec fn unquoted_pred() -> spec_fn(char) -> bool {
    |c: char| c != ':' && c != '\n' && c != '\r' && c != '#' && c != ',' && c != ' '
}

fn unquoted_run(s: &str) -> (n: usize)
    ensures
        n == run_len(s@, unquoted_pred()),
        n <= s@.len(),
{
    let len = s.unicode_len();
    let mut n: usize = 0;
    while n < len
        invariant
            len == s@.len(),
            n <= len,
            forall|j: int| 0 <= j < n ==> #[trigger] unquoted_pred()(s@[j]),
        ensures
            n <= len,
            forall|j: int| 0 <= j < n ==> #[trigger] unquoted_pred()(s@[j]),
            n == len || !unquoted_pred()(s@[n as int]),
        decreases len - n,
    {
        let c = s.get_char(n);
        if c == ':' || c == '\n' || c == '\r' || c == '#' || c == ',' || c == ' ' {
            break;
        }
        n = n + 1;
    }
    proof {
        lemma_run_len(s@, unquoted_pred(), n as int);
    }
    n
}

/// What `unquoted_scalar()` gives on input `i`: the run of characters up to `:`, a
/// line break, `#`, `,` or a space, trimmed; the rest starts where that run ends.
pub open spec fn unquoted_scalar_result<'a>(i: Seq<char>, r: ParseResult<'a, &'a str>) -> bool {
    let n = run_len(i, unquoted_pred()) as int;
    &&& r is Ok
    &&& r->Ok_0.0@ == i.skip(n)
    &&& r->Ok_0.1@ == trim(i.take(n))
}

/// Parse an unquoted scalar (stops at `:`, line breaks, `#`, `,` and spaces).
pub fn unquoted_scalar<'a>() -> (f: impl Fn(Input<'a>) -> ParseResult<'a, &'a str>)
    ensures
        forall|i: Input<'a>| #[trigger] f.requires((i,)),
        forall|i: Input<'a>, r| #[trigger] f.ensures((i,), r) ==> unquoted_scalar_result(i@, r),
{
    move |input: Input<'a>| -> (r: ParseResult<'a, &'a str>)
        ensures
            unquoted_scalar_result(input@, r),
    {
        let n = unquoted_run(input);
        let len = input.unicode_len();
        Ok((input.substring_char(n, len), str_trim(input.substring_char(0, n))))
    }
}

/// What `boolean()` gives on input `i`.
pub open spec fn boolean_result<'a>(i: Seq<char>, r: ParseResult<'a, bool>) -> bool {
    if starts_with(i, "true"@) {
        r is Ok && r->Ok_0.0@ == i.skip(4) && r->Ok_0.1 == true
    } else if starts_with(i, "false"@) {
        r is Ok && r->Ok_0.0@ == i.skip(5) && r->Ok_0.1 == false
    } else {
        fails_with(r, "expected boolean (true/false)"@)
    }
}

/// Parse a boolean value.
pub fn boolean<'a>() -> (f: impl Fn(Input<'a>) -> ParseResult<'a, bool>)
    ensures
        forall|i: Input<'a>| #[trigger] f.requires((i,)),
        forall|i: Input<'a>, r| #[trigger] f.ensures((i,), r) ==> boolean_result(i@, r),
{
    move |input: Input<'a>| -> (r: ParseResult<'a, bool>)
        ensures
            boolean_result(input@, r),
    {
        proof {
            reveal_strlit("true");
            reveal_strlit("false");
            reveal_strlit("expected boolean (true/false)");
            lemma_start_position(input);
        }
        let len = input.unicode_len();
        if str_starts_with(input, "true") {
            Ok((input.substring_char(4, len), true))
        } else if str_starts_with(input, "false") {
            Ok((input.substring_char(5, len), false))
        } else {
            Err(error_at(input, "expected boolean (true/false)", 0))
        }
    }
}

/// What `number()` gives on input `i`: the value of its leading digits.
pub open spec fn number_result<'a>(i: Seq<char>, r: ParseResult<'a, u64>) -> bool {
    let n = run_len(i, digit_pred()) as int;
    if n == 0 {
        fails_with(r, "expected number"@)
    } else if decimal_value(i.take(n)) > u64::MAX {
        fails_with(r, "invalid number"@)
    } else {
        r is Ok && r->Ok_0.0@ == i.skip(n) && r->Ok_0.1 == decimal_value(i.take(n))
    }
}

/// The value of the first `n` characters of `s`, all digits, if it fits in a `u64`.
fn digits_value(s: &str, n: usize) -> (r: Option<u64>)
    requires
        n <= s@.len(),
        forall|j: int| 0 <= j < n ==> is_digit(#[trigger] s@[j]),
    ensures
        match r {
            Some(v) => v == decimal_value(s@.take(n as int)),
            None => decimal_value(s@.take(n as int)) > u64::MAX,
        },
{
    let mut v: u64 = 0;
    let mut j: usize = 0;
    while j < n
        invariant
            n <= s@.len(),
            forall|k: int| 0 <= k < n ==> is_digit(#[trigger] s@[k]),
            j <= n,
            v == decimal_value(s@.take(j as int)),
        decreases n - j,
    {
        let c = s.get_char(j);
        let d = (c as u32 - '0' as u32) as u64;
        proof {
            assert(s@.take(j + 1).drop_last() =~= s@.take(j as int));
            assert(is_digit(s@[j as int]));
        }
        if v > (u64::MAX - d) / 10 {
            proof {
                assert(decimal_value(s@.take(j + 1)) == v * 10 + d);
                let tk = s@.take(n as int);
                assert forall|k: int| 0 <= k < tk.len() implies is_digit(#[trigger] tk[k]) by {
                    assert(tk[k] == s@[k]);
                }
                lemma_decimal_value_mono(tk, j + 1, n as int);
                assert(tk.take(j + 1) =~= s@.take(j + 1));
                assert(tk.take(n as int) =~= tk);
            }
            return None;
        }
        v = v * 10 + d;
        j = j + 1;
    }
    Some(v)
}

/// Parse an unsigned integer.
pub fn number<'a>() -> (f: impl Fn(Input<'a>) -> ParseResult<'a, u64>)
    ensures
        forall|i: Input<'a>| #[trigger] f.requires((i,)),
        forall|i: Input<'a>, r| #[trigger] f.ensures((i,), r) ==> number_result(i@, r),
{
    move |input: Input<'a>| -> (r: ParseResult<'a, u64>)
        ensures
            number_result(input@, r),
    {
        proof {
            reveal_strlit("expected number");
            reveal_strlit("invalid number");
            lemma_start_position(input);
        }
        let n = digit_run(input);
        if n == 0 {
            return Err(error_at(input, "expected number", 0));
        }
        proof {
            lemma_run_prefix(input@, digit_pred(), n as int);
            assert forall|j: int| 0 <= j < n implies is_digit(#[trigger] input@[j]) by {
                assert(digit_pred()(input@[j]));
            }
        }
        match digits_value(input, n) {
            Some(v) => {
                let len = input.unicode_len();
                Ok((input.substring_char(n, len), v))
            }
            None => Err(error_at(input, "invalid number", 0)),
        }
    }
}

/// Number of characters that make up the float at the start of `i`: its digits,
/// then, when a `.` follows them, the `.` and the digits after it.
pub open spec fn float_len(i: Seq<char>) -> int {
    let n = run_len(i, digit_pred()) as int;
    if n < i.len() && i[n] == '.' {
        n + 1 + run_len(i.skip(n + 1), digit_pred())
    } else {
        n
    }
}

/// What `float()` gives on input `i`: the decimal text of its leading float.
pub open spec fn float_result<'a>(i: Seq<char>, r: ParseResult<'a, String>) -> bool {
    if run_len(i, digit_pred()) == 0 {
        fails_with(r, "expected at least one matching character"@)
    } else {
        r is Ok && r->Ok_0.0@ == i.skip(float_len(i)) && r->Ok_0.1@ == i.take(float_len(i))
    }
}

/// Parse a float number, giving its decimal text (digits, optionally a `.` and more digits).
pub fn float<'a>() -> (f: impl Fn(Input<'a>) -> ParseResult<'a, String>)
    ensures
        forall|i: Input<'a>| #[trigger] f.requires((i,)),
        forall|i: Input<'a>, r| #[trigger] f.ensures((i,), r) ==> float_result(i@, r),
{
    move |input: Input<'a>| -> (r: ParseResult<'a, String>)
        ensures
            float_result(input@, r),
    {
        proof {
            reveal_strlit("expected at least one matching character");
            lemma_start_position(input);
        }
        let n = digit_run(input);
        if n == 0 {
            return Err(error_at(input, "expected at least one matching character", 0));
        }
        proof {
            lemma_run_prefix(input@, digit_pred(), n as int);
        }
        let len = input.unicode_len();
        let mut end = n;
        if n < len && input.get_char(n) == '.' {
            let after = input.substring_char(n + 1, len);
            let m = digit_run(after);
            proof {
                lemma_run_prefix(after@, digit_pred(), m as int);
            }
            end = n + 1 + m;
        }
        Ok((input.substring_char(end, len), input.substring_char(0, end).to_string()))
    }
}

/// What `null()` gives on input `i`.
pub open spec fn null_result<'a>(i: Seq<char>, r: ParseResult<'a, ()>) -> bool {
    if starts_with(i, "null"@) {
        r is Ok && r->Ok_0.0@ == i.skip(4)
    } else if starts_with(i, "~"@) {
        r is Ok && r->Ok_0.0@ == i.skip(1)
    } else {
        fails_with(r, "expected tag '~'"@)
    }
}

/// Parse a null value (`null` or `~`).
pub fn null<'a>() -> (f: impl Fn(Input<'a>) -> ParseResult<'a, ()>)
    ensures
        forall|i: Input<'a>| #[trigger] f.requires((i,)),
        forall|i: Input<'a>, r| #[trigger] f.ensures((i,), r) ==> null_result(i@, r),
{
    move |input: Input<'a>| -> (r: ParseResult<'a, ()>)
        ensures
            null_result(input@, r),
    {
        proof {
            reveal_strlit("null");
            reveal_strlit("~");
            reveal_strlit("expected tag '~'");
            lemma_start_position(input);
        }
        let len = input.unicode_len();
        if str_starts_with(input, "null") {
            Ok((input.substring_char(4, len), ()))
        } else if str_starts_with(input, "~") {
            Ok((input.substring_char(1, len), ()))
        } else {
            Err(error_at(input, "expected tag '~'", 0))
        }
    }
}

/// The scalar at the start of `i`: how many characters it takes and its model, or
/// `None` when there is no scalar there.
pub open spec fn scalar_outcome(i: Seq<char>) -> Option<(int, ValueModel)> {
    let digits = run_len(i, digit_pred()) as int;
    let word = run_len(i, unquoted_pred()) as int;
    if i.len() > 0 && (i[0] == '"' || i[0] == '\'') && exists|k: int| closing_quote(i, i[0], k) {
        let k = choose|k: int| closing_quote(i, i[0], k);
        Some((k + 1, ValueModel::String(i.subrange(1, k))))
    } else if starts_with(i, "null"@) {
        Some((4, ValueModel::Null))
    } else if starts_with(i, "~"@) {
        Some((1, ValueModel::Null))
    } else if starts_with(i, "true"@) {
        Some((4, ValueModel::Bool(true)))
    } else if starts_with(i, "false"@) {
        Some((5, ValueModel::Bool(false)))
    } else if i.len() > 0 && is_digit(i[0]) && i.contains('.') {
        Some((float_len(i), ValueModel::Float(i.take(float_len(i)))))
    } else if i.len() > 0 && is_digit(i[0]) && decimal_value(i.take(digits)) <= u64::MAX {
        Some((digits, ValueModel::Number(decimal_value(i.take(digits)) as u64)))
    } else if trim(i.take(word)).len() > 0 {
        Some((word, ValueModel::String(trim(i.take(word)))))
    } else {
        None
    }
}

/// What `scalar()` gives on input `i`.
pub open spec fn scalar_result<'a>(i: Seq<char>, r: ParseResult<'a, Value>) -> bool {
    match scalar_outcome(i) {
        Some((n, m)) => r is Ok && r->Ok_0.0@ == i.skip(n) && r->Ok_0.1.model() == m,
        None => fails_with(r, "expected scalar value"@),
    }
}

/// Parse any scalar value: a quoted string, null, a boolean, a float (a number when
/// the input holds a `.`), an integer, or else an unquoted string.
pub fn scalar<'a>() -> (f: impl Fn(Input<'a>) -> ParseResult<'a, Value>)
    ensures
        forall|i: Input<'a>| #[trigger] f.requires((i,)),
        forall|i: Input<'a>, r| #[trigger] f.ensures((i,), r) ==> scalar_result(i@, r),
{
    move |input: Input<'a>| -> (r: ParseResult<'a, Value>)
        ensures
            scalar_result(input@, r),
    {
        proof {
            reveal_strlit("null");
            reveal_strlit("~");
            reveal_strlit("expected scalar value");
            lemma_start_position(input);
        }
        let len = input.unicode_len();
        let first: Option<char> = if len > 0 { Some(input.get_char(0)) } else { None };
        if first == Some('"') || first == Some('\'') {
            let q = input.get_char(0);
            let r0 = quoted_string()(input);
            match r0 {
                Ok((rest, s)) => {
                    proof {
                        let k = choose|k: int| closing_quote(input@, input@[0], k);
                        lemma_closing_quote_unique(input@, q, k, (s@.len() + 1) as int);
                    }
                    return Ok((rest, Value::String(s)));
                }
                Err(_) => {}
            }
        }
        if str_starts_with(input, "null") || str_starts_with(input, "~") {
            let r0 = null()(input);
            match r0 {
                Ok((rest, ())) => return Ok((rest, Value::Null)),
                Err(_) => {}
            }
        }
        let rb = boolean()(input);
        match rb {
            Ok((rest, b)) => return Ok((rest, Value::Bool(b))),
            Err(_) => {}
        }
        let starts_numeric = match first {
            Some(c) => ('0' <= c && c <= '9') || c == '.',
            None => false,
        };
        if starts_numeric {
            if str_contains_char(input, '.') {
                let rf = float()(input);
                match rf {
                    Ok((rest, text)) => return Ok((rest, Value::Float(text))),
                    Err(_) => {}
                }
            }
            let rn = number()(input);
            match rn {
                Ok((rest, n)) => return Ok((rest, Value::Number(n))),
                Err(_) => {}
            }
        }
        let ru = unquoted_scalar()(input);
        match ru {
            Ok((rest, s)) => {
                if s.unicode_len() == 0 {
                    Err(error_at(input, "expected scalar value", 0))
                } else {
                    Ok((rest, Value::String(s.to_string())))
                }
            }
            Err(e) => Err(e),
        }
    }
}

} // verus!
