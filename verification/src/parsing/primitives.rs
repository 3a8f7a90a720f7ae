//! Basic parser primitives.
//!
//! Each primitive returns a parser: a function from the input to the rest of the
//! input and a value, or an error at the start of the input (line 1, column 1).

use crate::parsing::input::{error_at, lemma_start_position, Input, ParseResult};
use crate::text::{append_decimal, decimal, starts_with, str_contains_char, str_starts_with};
use vstd::prelude::*;
use vstd::string::*;

verus! {

/// `r` succeeded, leaving `i` without its first `n` characters and yielding those.
pub open spec fn splits_at<'a>(i: Seq<char>, n: int, r: ParseResult<'a, &'a str>) -> bool {
    &&& r is Ok
    &&& 0 <= n <= i.len()
    &&& r->Ok_0.0@ == i.skip(n)
    &&& r->Ok_0.1@ == i.take(n)
}

/// `r` failed with `msg` at the start of the input.
pub open spec fn fails_with<'a, T>(r: ParseResult<'a, T>, msg: Seq<char>) -> bool {
    &&& r is Err
    &&& r->Err_0.message@ == msg
    &&& r->Err_0.line == 1
    &&& r->Err_0.column == 1
}

/// What `tag(s)` gives on input `i`.
pub open spec fn tag_result<'a>(s: Seq<char>, i: Seq<char>, r: ParseResult<'a, &'a str>) -> bool {
    if starts_with(i, s) {
        splits_at(i, s.len() as int, r)
    } else {
        fails_with(r, "expected tag '"@ + s + "'"@)
    }
}

/// Parse a literal string tag.
pub fn tag<'a>(s: &'a str) -> (f: impl Fn(Input<'a>) -> ParseResult<'a, &'a str> + 'a)
    ensures
        forall|i: Input<'a>| #[trigger] f.requires((i,)),
        forall|i: Input<'a>, r| #[trigger] f.ensures((i,), r) ==> tag_result(s@, i@, r),
{
    move |input: Input<'a>| -> (r: ParseResult<'a, &'a str>)
        ensures
            tag_result(s@, input@, r),
    {
        proof {
            reveal_strlit("expected tag '");
            reveal_strlit("'");
        }
        if str_starts_with(input, s) {
            let n = s.unicode_len();
            let len = input.unicode_len();
            Ok((input.substring_char(n, len), input.substring_char(0, n)))
        } else {
            let mut m = String::from_str("expected tag '");
            m.append(s);
            m.append("'");
            proof {
                lemma_start_position(input);
            }
            Err(error_at(input, m.as_str(), 0))
        }
    }
}

/// What `one_of(chars)` gives on input `i`.
pub open spec fn one_of_result<'a>(chars: Seq<char>, i: Seq<char>, r: ParseResult<'a, char>) -> bool {
    if i.len() > 0 && chars.contains(i[0]) {
        &&& r is Ok
        &&& r->Ok_0.0@ == i.skip(1)
        &&& r->Ok_0.1 == i[0]
    } else {
        fails_with(r, "expected one of '"@ + chars + "'"@)
    }
}

/// Parse one of the given characters.
pub fn one_of<'a>(chars: &'a str) -> (f: impl Fn(Input<'a>) -> ParseResult<'a, char> + 'a)
    ensures
        forall|i: Input<'a>| #[trigger] f.requires((i,)),
        forall|i: Input<'a>, r| #[trigger] f.ensures((i,), r) ==> one_of_result(chars@, i@, r),
{
    move |input: Input<'a>| -> (r: ParseResult<'a, char>)
        ensures
            one_of_result(chars@, input@, r),
    {
        proof {
            reveal_strlit("expected one of '");
            reveal_strlit("'");
        }
        let len = input.unicode_len();
        if len > 0 {
            let c = input.get_char(0);
            if str_contains_char(chars, c) {
                return Ok((input.substring_char(1, len), c));
            }
        }
        let mut m = String::from_str("expected one of '");
        m.append(chars);
        m.append("'");
        proof {
            lemma_start_position(input);
        }
        Err(error_at(input, m.as_str(), 0))
    }
}

/// `n` is where a run of characters of `i` accepted by `pred` ends.
pub open spec fn run_end<F: Fn(char) -> bool>(pred: F, i: Seq<char>, n: int) -> bool {
    &&& 0 <= n <= i.len()
    &&& forall|j: int| 0 <= j < n ==> #[trigger] pred.ensures((i[j],), true)
    &&& n < i.len() ==> pred.ensures((i[n],), false)
}

/// What `take_while(pred)` gives on input `i`.
pub open spec fn take_while_result<'a, F: Fn(char) -> bool>(
    pred: F,
    i: Seq<char>,
    r: ParseResult<'a, &'a str>,
) -> bool {
    &&& r is Ok
    &&& run_end(pred, i, r->Ok_0.1@.len() as int)
    &&& splits_at(i, r->Ok_0.1@.len() as int, r)
}

/// The length of the run of characters of `input` that `pred` accepts.
fn run_length<F: Fn(char) -> bool>(pred: &F, input: &str) -> (n: usize)
    requires
        forall|c: char| #[trigger] pred.requires((c,)),
    ensures
        run_end(*pred, input@, n as int),
{
    let len = input.unicode_len();
    let mut n: usize = 0;
    while n < len
        invariant
            len == input@.len(),
            n <= len,
            forall|c: char| #[trigger] pred.requires((c,)),
            forall|j: int| 0 <= j < n ==> #[trigger] pred.ensures((input@[j],), true),
        decreases len - n,
    {
        let c = input.get_char(n);
        if !pred(c) {
            return n;
        }
        n = n + 1;
    }
    n
}

/// Parse zero or more characters matching the predicate.
pub fn take_while<'a, F>(pred: F) -> (f: impl Fn(Input<'a>) -> ParseResult<'a, &'a str>)
    where
        F: Fn(char) -> bool + 'static,
    requires
        forall|c: char| #[trigger] pred.requires((c,)),
    ensures
        forall|i: Input<'a>| #[trigger] f.requires((i,)),
        forall|i: Input<'a>, r| #[trigger] f.ensures((i,), r) ==> take_while_result(pred, i@, r),
{
    move |input: Input<'a>| -> (r: ParseResult<'a, &'a str>)
        ensures
            take_while_result(pred, input@, r),
    {
        let n = run_length(&pred, input);
        let len = input.unicode_len();
        Ok((input.substring_char(n, len), input.substring_char(0, n)))
    }
}

/// What `take_while1(pred)` gives on input `i`.
pub open spec fn take_while1_result<'a, F: Fn(char) -> bool>(
    pred: F,
    i: Seq<char>,
    r: ParseResult<'a, &'a str>,
) -> bool {
    if r is Ok {
        &&& r->Ok_0.1@.len() > 0
        &&& run_end(pred, i, r->Ok_0.1@.len() as int)
        &&& splits_at(i, r->Ok_0.1@.len() as int, r)
    } else {
        &&& run_end(pred, i, 0)
        &&& fails_with(r, "expected at least one matching character"@)
    }
}

/// Parse one or more characters matching the predicate.
pub fn take_while1<'a, F>(pred: F) -> (f: impl Fn(Input<'a>) -> ParseResult<'a, &'a str>)
    where
        F: Fn(char) -> bool + 'static,
    requires
        forall|c: char| #[trigger] pred.requires((c,)),
    ensures
        forall|i: Input<'a>| #[trigger] f.requires((i,)),
        forall|i: Input<'a>, r| #[trigger] f.ensures((i,), r) ==> take_while1_result(pred, i@, r),
{
    move |input: Input<'a>| -> (r: ParseResult<'a, &'a str>)
        ensures
            take_while1_result(pred, input@, r),
    {
        proof {
            reveal_strlit("expected at least one matching character");
        }
        let n = run_length(&pred, input);
        if n == 0 {
            proof {
                lemma_start_position(input);
            }
            Err(error_at(input, "expected at least one matching character", 0))
        } else {
            let len = input.unicode_len();
            Ok((input.substring_char(n, len), input.substring_char(0, n)))
        }
    }
}

/// `pred` gives one answer for each character.
pub open spec fn deterministic_pred<F: Fn(char) -> bool>(pred: F) -> bool {
    forall|c: char, a: bool, b: bool|
        #![trigger pred.ensures((c,), a), pred.ensures((c,), b)]
        pred.ensures((c,), a) && pred.ensures((c,), b) ==> a == b
}

/// When `pred` accepts the first character of `i`, `take_while1(pred)` and
/// `take_while(pred)` give the same results on `i`; otherwise `take_while1(pred)`
/// fails with "expected at least one matching character" at the start.
pub proof fn lemma_take_while1_agrees_with_take_while<'a, F: Fn(char) -> bool>(
    pred: F,
    i: Seq<char>,
    r: ParseResult<'a, &'a str>,
)
    requires
        deterministic_pred(pred),
    ensures
        i.len() > 0 && pred.ensures((i[0],), true) ==> (take_while1_result(pred, i, r)
            <==> take_while_result(pred, i, r)),
        i.len() == 0 || pred.ensures((i[0],), false) ==> (take_while1_result(pred, i, r)
            <==> fails_with(r, "expected at least one matching character"@)),
{
    if i.len() > 0 && pred.ensures((i[0],), true) {
        if take_while_result(pred, i, r) {
            if r->Ok_0.1@.len() == 0 {
                assert(pred.ensures((i[0],), false));
            }
        }
        if take_while1_result(pred, i, r) && r is Err {
            assert(pred.ensures((i[0],), false));
        }
    }
}

/// `d` occurs in `i` at character position `k`.
pub open spec fn occurs_at(i: Seq<char>, d: Seq<char>, k: int) -> bool {
    0 <= k <= i.len() && starts_with(i.skip(k), d)
}

/// `k` is the first position of `d` in `i`.
pub open spec fn first_occurrence(i: Seq<char>, d: Seq<char>, k: int) -> bool {
    occurs_at(i, d, k) && forall|j: int| 0 <= j < k ==> !#[trigger] occurs_at(i, d, j)
}

/// The first position of `d` in `s`, if any.
pub fn find_str(s: &str, d: &str) -> (r: Option<usize>)
    ensures
        match r {
            Some(k) => first_occurrence(s@, d@, k as int),
            None => forall|j: int| !#[trigger] occurs_at(s@, d@, j),
        },
{
    let len = s.unicode_len();
    let dlen = d.unicode_len();
    let mut k: usize = 0;
    while k <= len
        invariant
            len == s@.len(),
            dlen == d@.len(),
            forall|j: int| 0 <= j < k ==> !#[trigger] occurs_at(s@, d@, j),
        decreases len + 1 - k,
    {
        if len - k < dlen {
            assert forall|j: int| !#[trigger] occurs_at(s@, d@, j) by {
                if 0 <= j < k {
                } else if k <= j <= len {
                    assert(s@.skip(j).len() < d@.len());
                }
            }
            return None;
        }
        let rest = s.substring_char(k, len);
        if str_starts_with(rest, d) {
            return Some(k);
        }
        k = k + 1;
    }
    None
}

/// What `take_until(delim)` gives on input `i`.
pub open spec fn take_until_result<'a>(d: Seq<char>, i: Seq<char>, r: ParseResult<'a, &'a str>) -> bool {
    if exists|k: int| #[trigger] occurs_at(i, d, k) {
        &&& first_occurrence(i, d, r->Ok_0.1@.len() as int)
        &&& splits_at(i, r->Ok_0.1@.len() as int, r)
    } else {
        fails_with(r, "expected '"@ + d + "' not found"@)
    }
}

/// Parse characters until the delimiter is found.
pub fn take_until<'a>(delim: &'a str) -> (f: impl Fn(Input<'a>) -> ParseResult<'a, &'a str> + 'a)
    ensures
        forall|i: Input<'a>| #[trigger] f.requires((i,)),
        forall|i: Input<'a>, r| #[trigger] f.ensures((i,), r) ==> take_until_result(delim@, i@, r),
{
    move |input: Input<'a>| -> (r: ParseResult<'a, &'a str>)
        ensures
            take_until_result(delim@, input@, r),
    {
        proof {
            reveal_strlit("expected '");
            reveal_strlit("' not found");
        }
        match find_str(input, delim) {
            Some(pos) => {
                let len = input.unicode_len();
                Ok((input.substring_char(pos, len), input.substring_char(0, pos)))
            }
            None => {
                let mut m = String::from_str("expected '");
                m.append(delim);
                m.append("' not found");
                proof {
                    lemma_start_position(input);
                }
                Err(error_at(input, m.as_str(), 0))
            }
        }
    }
}


/// What `take(n)` gives on input `input`: an error when the input holds fewer than
/// `n` characters, else its first `n` characters.
pub open spec fn take_result<'a>(n: nat, input: Seq<char>, r: ParseResult<'a, &'a str>) -> bool {
    if input.len() < n {
        fails_with(r, "expected "@ + decimal(n) + " characters"@)
    } else {
        splits_at(input, n as int, r)
    }
}

/// Parse exactly `n` characters.
pub fn take<'a>(n: usize) -> (f: impl Fn(Input<'a>) -> ParseResult<'a, &'a str>)
    ensures
        forall|i: Input<'a>| #[trigger] f.requires((i,)),
        forall|i: Input<'a>, r| #[trigger] f.ensures((i,), r) ==> take_result(n as nat, i@, r),
{
    move |input: Input<'a>| -> (r: ParseResult<'a, &'a str>)
        ensures
            take_result(n as nat, input@, r),
    {
        proof {
            reveal_strlit("expected ");
            reveal_strlit(" characters");
        }
        let len = input.unicode_len();
        if len < n {
            let mut m = String::from_str("expected ");
            append_decimal(&mut m, n);
            m.append(" characters");
            assert(m@ =~= "expected "@ + decimal(n as nat) + " characters"@);
            proof {
                lemma_start_position(input);
            }
            let e = error_at(input, m.as_str(), 0);
            assert(fails_with::<()>(Err(e), "expected "@ + decimal(n as nat) + " characters"@));
            Err(e)
        } else {
            let r: ParseResult<'a, &'a str> = Ok((input.substring_char(n, len), input.substring_char(0, n)));
            assert(splits_at(input@, n as int, r));
            r
        }
    }
}

/// What `eof()` gives on input `i`.
pub open spec fn eof_result<'a>(i: Seq<char>, r: ParseResult<'a, ()>) -> bool {
    if i.len() == 0 {
        r is Ok && r->Ok_0.0@ == i
    } else {
        fails_with(r, "expected end of input"@)
    }
}

/// Parse end of input.
pub fn eof<'a>() -> (f: impl Fn(Input<'a>) -> ParseResult<'a, ()>)
    ensures
        forall|i: Input<'a>| #[trigger] f.requires((i,)),
        forall|i: Input<'a>, r| #[trigger] f.ensures((i,), r) ==> eof_result(i@, r),
{
    move |input: Input<'a>| -> (r: ParseResult<'a, ()>)
        ensures
            eof_result(input@, r),
    {
        proof {
            reveal_strlit("expected end of input");
        }
        if input.is_empty() {
            Ok((input, ()))
        } else {
            proof {
                lemma_start_position(input);
            }
            Err(error_at(input, "expected end of input", 0))
        }
    }
}

/// What `newline()` gives on input `i`.
pub open spec fn newline_result<'a>(i: Seq<char>, r: ParseResult<'a, &'a str>) -> bool {
    if i.len() > 0 && i[0] == '\n' {
        splits_at(i, 1, r)
    } else {
        fails_with(r, "expected newline"@)
    }
}

/// Parse a newline.
pub fn newline<'a>() -> (f: impl Fn(Input<'a>) -> ParseResult<'a, &'a str>)
    ensures
        forall|i: Input<'a>| #[trigger] f.requires((i,)),
        forall|i: Input<'a>, r| #[trigger] f.ensures((i,), r) ==> newline_result(i@, r),
{
    move |input: Input<'a>| -> (r: ParseResult<'a, &'a str>)
        ensures
            newline_result(input@, r),
    {
        proof {
            reveal_strlit("expected newline");
            reveal_strlit("\n");
        }
        let len = input.unicode_len();
        if len > 0 && input.get_char(0) == '\n' {
            let nl: &'a str = "\n";
            assert(nl@ =~= input@.take(1));
            Ok((input.substring_char(1, len), nl))
        } else {
            proof {
                lemma_start_position(input);
            }
            Err(error_at(input, "expected newline", 0))
        }
    }
}

/// The position of the first newline of `i`, or its length when it holds none.
pub open spec fn line_end(i: Seq<char>, k: int) -> bool {
    &&& 0 <= k <= i.len()
    &&& k < i.len() ==> i[k] == '\n'
    &&& forall|j: int| 0 <= j < k ==> i[j] != '\n'
}

/// What `comment()` gives on input `i`.
pub open spec fn comment_result<'a>(i: Seq<char>, r: ParseResult<'a, &'a str>) -> bool {
    if i.len() > 0 && i[0] == '#' {
        &&& line_end(i, r->Ok_0.1@.len() as int)
        &&& splits_at(i, r->Ok_0.1@.len() as int, r)
    } else {
        fails_with(r, "expected comment starting with #"@)
    }
}

/// The position of the first occurrence of `c` in `s`, if any.
pub fn find_char(s: &str, c: char) -> (r: Option<usize>)
    ensures
        match r {
            Some(k) => k < s@.len() && s@[k as int] == c && forall|j: int| 0 <= j < k ==> s@[j] != c,
            None => !s@.contains(c),
        },
{
    let len = s.unicode_len();
    let mut k: usize = 0;
    while k < len
        invariant
            len == s@.len(),
            k <= len,
            forall|j: int| 0 <= j < k ==> s@[j] != c,
        decreases len - k,
    {
        if s.get_char(k) == c {
            return Some(k);
        }
        k = k + 1;
    }
    None
}

/// Parse a comment starting with `#` up to the end of the line.
pub fn comment<'a>() -> (f: impl Fn(Input<'a>) -> ParseResult<'a, &'a str>)
    ensures
        forall|i: Input<'a>| #[trigger] f.requires((i,)),
        forall|i: Input<'a>, r| #[trigger] f.ensures((i,), r) ==> comment_result(i@, r),
{
    move |input: Input<'a>| -> (r: ParseResult<'a, &'a str>)
        ensures
            comment_result(input@, r),
    {
        proof {
            reveal_strlit("expected comment starting with #");
        }
        let len = input.unicode_len();
        if len == 0 || input.get_char(0) != '#' {
            proof {
                lemma_start_position(input);
            }
            return Err(error_at(input, "expected comment starting with #", 0));
        }
        let k = match find_char(input, '\n') {
            Some(pos) => pos,
            None => len,
        };
        Ok((input.substring_char(k, len), input.substring_char(0, k)))
    }
}

} // verus!
