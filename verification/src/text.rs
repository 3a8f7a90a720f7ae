//! Small verified helpers on strings and characters used across the crate.

use vstd::prelude::*;
use vstd::string::*;

verus! {

/// The decimal digit of `d` (`d < 10`) as a character.
pub open spec fn digit_char(d: nat) -> char {
    (('0' as u32) + d) as char
}

/// The decimal representation of `n`, most significant digit first.
pub open spec fn decimal(n: nat) -> Seq<char>
    decreases n,
{
    if n < 10 {
        seq![digit_char(n)]
    } else {
        decimal(n / 10).push(digit_char(n % 10))
    }
}

/// `p` is a prefix of `s`.
pub open spec fn starts_with(s: Seq<char>, p: Seq<char>) -> bool {
    p.len() <= s.len() && s.take(p.len() as int) =~= p
}

fn digit_str(d: usize) -> (r: &'static str)
    requires
        d < 10,
    ensures
        r@ == seq![digit_char(d as nat)],
{
    proof {
        reveal_strlit("0");
        reveal_strlit("1");
        reveal_strlit("2");
        reveal_strlit("3");
        reveal_strlit("4");
        reveal_strlit("5");
        reveal_strlit("6");
        reveal_strlit("7");
        reveal_strlit("8");
        reveal_strlit("9");
    }
    if d == 0 {
        "0"
    } else if d == 1 {
        "1"
    } else if d == 2 {
        "2"
    } else if d == 3 {
        "3"
    } else if d == 4 {
        "4"
    } else if d == 5 {
        "5"
    } else if d == 6 {
        "6"
    } else if d == 7 {
        "7"
    } else if d == 8 {
        "8"
    } else {
        "9"
    }
}

/// Appends the decimal representation of `n` to `out`.
pub fn append_decimal_u64(out: &mut String, n: u64)
    ensures
        final(out)@ == old(out)@ + decimal(n as nat),
    decreases n,
{
    if n < 10 {
        out.append(digit_str(n as usize));
    } else {
        append_decimal_u64(out, n / 10);
        out.append(digit_str((n % 10) as usize));
    }
}

/// Appends the decimal representation of `n` to `out`.
pub fn append_decimal(out: &mut String, n: usize)
    ensures
        final(out)@ == old(out)@ + decimal(n as nat),
{
    append_decimal_u64(out, n as u64)
}

/// Whether `s` starts with `p`, character by character.
pub fn str_starts_with(s: &str, p: &str) -> (b: bool)
    ensures
        b == starts_with(s@, p@),
{
    let n = s.unicode_len();
    let m = p.unicode_len();
    if m > n {
        return false;
    }
    let mut i: usize = 0;
    while i < m
        invariant
            n == s@.len(),
            m == p@.len(),
            m <= n,
            i <= m,
            forall|j: int| 0 <= j < i ==> s@[j] == p@[j],
        decreases m - i,
    {
        if s.get_char(i) != p.get_char(i) {
            assert(s@.take(m as int)[i as int] != p@[i as int]);
            return false;
        }
        i = i + 1;
    }
    assert(s@.take(m as int) =~= p@);
    true
}

/// Whether character `c` occurs in `s`.
pub fn str_contains_char(s: &str, c: char) -> (b: bool)
    ensures
        b == s@.contains(c),
{
    let n = s.unicode_len();
    let mut i: usize = 0;
    while i < n
        invariant
            n == s@.len(),
            i <= n,
            forall|j: int| 0 <= j < i ==> s@[j] != c,
        decreases n - i,
    {
        if s.get_char(i) == c {
            assert(s@[i as int] == c);
            return true;
        }
        i = i + 1;
    }
    false
}


/// Unicode `White_Space` characters: what `char::is_whitespace` and `str::trim` go by.
pub open spec fn is_ws(c: char) -> bool {
    ||| c == ' '
    ||| ('\t' <= c && c <= '\r')
    ||| c == '\u{85}'
    ||| c == '\u{a0}'
    ||| c == '\u{1680}'
    ||| ('\u{2000}' <= c && c <= '\u{200a}')
    ||| c == '\u{2028}'
    ||| c == '\u{2029}'
    ||| c == '\u{202f}'
    ||| c == '\u{205f}'
    ||| c == '\u{3000}'
}

/// Whether `c` is Unicode white space.
pub fn char_is_ws(c: char) -> (b: bool)
    ensures
        b == is_ws(c),
{
    c == ' ' || ('\t' <= c && c <= '\r') || c == '\u{85}' || c == '\u{a0}' || c == '\u{1680}'
        || ('\u{2000}' <= c && c <= '\u{200a}') || c == '\u{2028}' || c == '\u{2029}'
        || c == '\u{202f}' || c == '\u{205f}' || c == '\u{3000}'
}

/// An ASCII decimal digit.
pub open spec fn is_digit(c: char) -> bool {
    '0' <= c && c <= '9'
}

/// `s` without its leading white space.
pub open spec fn trim_start(s: Seq<char>) -> Seq<char>
    decreases s.len(),
{
    if s.len() > 0 && is_ws(s[0]) {
        trim_start(s.drop_first())
    } else {
        s
    }
}

/// `s` without its trailing white space.
pub open spec fn trim_end(s: Seq<char>) -> Seq<char>
    decreases s.len(),
{
    if s.len() > 0 && is_ws(s.last()) {
        trim_end(s.drop_last())
    } else {
        s
    }
}

/// `s` without leading and trailing white space.
pub open spec fn trim(s: Seq<char>) -> Seq<char> {
    trim_end(trim_start(s))
}

proof fn lemma_trim_start_skip(s: Seq<char>, n: int)
    requires
        0 <= n <= s.len(),
        forall|j: int| 0 <= j < n ==> is_ws(#[trigger] s[j]),
    ensures
        trim_start(s) == trim_start(s.skip(n)),
    decreases n,
{
    if n > 0 {
        assert(s.skip(1) =~= s.drop_first());
        lemma_trim_start_skip(s.drop_first(), n - 1);
        assert(s.drop_first().skip(n - 1) =~= s.skip(n));
    } else {
        assert(s.skip(0) =~= s);
    }
}

proof fn lemma_trim_end_take(s: Seq<char>, n: int)
    requires
        0 <= n <= s.len(),
        forall|j: int| n <= j < s.len() ==> is_ws(#[trigger] s[j]),
    ensures
        trim_end(s) == trim_end(s.take(n)),
    decreases s.len() - n,
{
    if n < s.len() {
        assert(s.take(s.len() - 1) =~= s.drop_last());
        lemma_trim_end_take(s.drop_last(), n);
        assert(s.drop_last().take(n) =~= s.take(n));
    } else {
        assert(s.take(s.len() as int) =~= s);
    }
}

/// `s` without its leading white space.
pub fn str_trim_start(s: &str) -> (r: &str)
    ensures
        r@ == trim_start(s@),
        r@.len() <= s@.len(),
        r@ == s@.skip(s@.len() - r@.len()),
{
    let len = s.unicode_len();
    let mut i: usize = 0;
    while i < len
        invariant
            len == s@.len(),
            i <= len,
            forall|j: int| 0 <= j < i ==> is_ws(#[trigger] s@[j]),
        ensures
            i <= len,
            forall|j: int| 0 <= j < i ==> is_ws(#[trigger] s@[j]),
            i == len || !is_ws(s@[i as int]),
        decreases len - i,
    {
        if !char_is_ws(s.get_char(i)) {
            break;
        }
        i = i + 1;
    }
    proof {
        lemma_trim_start_skip(s@, i as int);
        let t = s@.skip(i as int);
        if i < len {
            assert(t[0] == s@[i as int]);
        }
        assert(trim_start(t) == t);
    }
    s.substring_char(i, len)
}

/// `s` without its trailing white space.
pub fn str_trim_end(s: &str) -> (r: &str)
    ensures
        r@ == trim_end(s@),
        r@ == s@.take(r@.len() as int),
{
    let len = s.unicode_len();
    let mut i: usize = len;
    while i > 0
        invariant
            len == s@.len(),
            i <= len,
            forall|j: int| i <= j < len ==> is_ws(#[trigger] s@[j]),
        ensures
            i <= len,
            forall|j: int| i <= j < len ==> is_ws(#[trigger] s@[j]),
            i == 0 || !is_ws(s@[i - 1]),
        decreases i,
    {
        if !char_is_ws(s.get_char(i - 1)) {
            break;
        }
        i = i - 1;
    }
    proof {
        lemma_trim_end_take(s@, i as int);
        let t = s@.take(i as int);
        if i > 0 {
            assert(t.last() == s@[i - 1]);
        }
        assert(trim_end(t) == t);
    }
    s.substring_char(0, i)
}

/// `s` without leading and trailing white space.
pub fn str_trim(s: &str) -> (r: &str)
    ensures
        r@ == trim(s@),
{
    str_trim_end(str_trim_start(s))
}


/// Length of the run of characters at the start of `s` that satisfy `p`.
pub open spec fn run_len(s: Seq<char>, p: spec_fn(char) -> bool) -> nat
    decreases s.len(),
{
    if s.len() > 0 && p(s[0]) {
        1 + run_len(s.drop_first(), p)
    } else {
        0
    }
}

/// A run of `n` characters satisfying `p`, followed by the end or by one that does not,
/// has length `run_len`.
pub proof fn lemma_run_len(s: Seq<char>, p: spec_fn(char) -> bool, n: int)
    requires
        0 <= n <= s.len(),
        forall|j: int| 0 <= j < n ==> #[trigger] p(s[j]),
        n == s.len() || !p(s[n]),
    ensures
        run_len(s, p) == n,
    decreases n,
{
    if n > 0 {
        lemma_run_len(s.drop_first(), p, n - 1);
    }
}

/// The characters of a run all satisfy the predicate.
pub proof fn lemma_run_prefix(s: Seq<char>, p: spec_fn(char) -> bool, n: int)
    requires
        n == run_len(s, p),
    ensures
        0 <= n <= s.len(),
        forall|j: int| 0 <= j < n ==> #[trigger] p(s[j]),
        n == s.len() || !p(s[n]),
    decreases s.len(),
{
    if s.len() > 0 && p(s[0]) {
        lemma_run_prefix(s.drop_first(), p, n - 1);
        assert forall|j: int| 0 <= j < n implies #[trigger] p(s[j]) by {
            if j > 0 {
                assert(s[j] == s.drop_first()[j - 1]);
            }
        }
    }
}

/// Characters other than `c`.
pub open spec fn other_than(c: char) -> spec_fn(char) -> bool {
    |x: char| x != c
}

/// The characters of `s` from position `k` on.
pub fn tail<'a>(s: &'a str, k: usize) -> (r: &'a str)
    requires
        k <= s@.len(),
    ensures
        r@ == s@.skip(k as int),
{
    let len = s.unicode_len();
    let r = s.substring_char(k, len);
    assert(r@ =~= s@.skip(k as int));
    r
}

/// Number of characters at the start of `s` before the first `c` (all of them
/// when there is none).
pub fn until_char(s: &str, c: char) -> (n: usize)
    ensures
        n == run_len(s@, other_than(c)),
        n <= s@.len(),
{
    let len = s.unicode_len();
    let mut n: usize = 0;
    while n < len
        invariant
            len == s@.len(),
            n <= len,
            forall|j: int| 0 <= j < n ==> #[trigger] other_than(c)(s@[j]),
        ensures
            n <= len,
            forall|j: int| 0 <= j < n ==> #[trigger] other_than(c)(s@[j]),
            n == len || !other_than(c)(s@[n as int]),
        decreases len - n,
    {
        if s.get_char(n) == c {
            break;
        }
        n = n + 1;
    }
    proof {
        lemma_run_len(s@, other_than(c), n as int);
    }
    n
}

/// ASCII decimal digits, as a predicate.
pub open spec fn digit_pred() -> spec_fn(char) -> bool {
    |c: char| is_digit(c)
}

/// Length of the run of ASCII digits at the start of `s`.
pub fn digit_run(s: &str) -> (n: usize)
    ensures
        n == run_len(s@, digit_pred()),
        n <= s@.len(),
{
    let len = s.unicode_len();
    let mut n: usize = 0;
    while n < len
        invariant
            len == s@.len(),
            n <= len,
            forall|j: int| 0 <= j < n ==> #[trigger] digit_pred()(s@[j]),
        ensures
            n <= len,
            forall|j: int| 0 <= j < n ==> #[trigger] digit_pred()(s@[j]),
            n == len || !digit_pred()(s@[n as int]),
        decreases len - n,
    {
        let c = s.get_char(n);
        if !('0' <= c && c <= '9') {
            break;
        }
        n = n + 1;
    }
    proof {
        lemma_run_len(s@, digit_pred(), n as int);
    }
    n
}

/// The value of the decimal digits `s`.
pub open spec fn decimal_value(s: Seq<char>) -> nat
    decreases s.len(),
{
    if s.len() == 0 {
        0
    } else {
        decimal_value(s.drop_last()) * 10 + ((s.last() as nat) - ('0' as nat)) as nat
    }
}

/// Appending digits never decreases a decimal value.
pub proof fn lemma_decimal_value_mono(s: Seq<char>, j: int, n: int)
    requires
        0 <= j <= n <= s.len(),
        forall|k: int| 0 <= k < s.len() ==> is_digit(#[trigger] s[k]),
    ensures
        decimal_value(s.take(j)) <= decimal_value(s.take(n)),
    decreases n - j,
{
    if j < n {
        lemma_decimal_value_mono(s, j, n - 1);
        assert(s.take(n).drop_last() =~= s.take(n - 1));
    }
}


/// Appends `c` to `s` by `String::push`, which the standard library documents as
/// appending the given char to the end of the string.
#[verifier::external_body]
pub(crate) fn push_char(s: &mut String, c: char)
    ensures
        final(s)@ == old(s)@.push(c),
{
    s.push(c);
}

/// `parts` joined with `sep` between consecutive parts.
pub open spec fn join(parts: Seq<Seq<char>>, sep: Seq<char>) -> Seq<char>
    decreases parts.len(),
{
    if parts.len() == 0 {
        Seq::empty()
    } else if parts.len() == 1 {
        parts[0]
    } else {
        join(parts.drop_last(), sep) + sep + parts.last()
    }
}

/// Joining one more part.
pub proof fn lemma_join_push(parts: Seq<Seq<char>>, sep: Seq<char>, x: Seq<char>)
    ensures
        join(parts.push(x), sep) == if parts.len() == 0 { x } else { join(parts, sep) + sep + x },
{
    assert(parts.push(x).drop_last() =~= parts);
}


/// Whether `a` and `b` hold the same characters.
pub fn str_eq(a: &str, b: &str) -> (r: bool)
    ensures
        r == (a@ == b@),
{
    let r = a.unicode_len() == b.unicode_len() && str_starts_with(a, b);
    proof {
        if a@.len() == b@.len() && starts_with(a@, b@) {
            assert(a@.take(b@.len() as int) =~= a@);
        }
    }
    r
}


/// `s` without a final `\r`.
pub open spec fn drop_cr(s: Seq<char>) -> Seq<char> {
    if s.len() > 0 && s.last() == '\r' {
        s.drop_last()
    } else {
        s
    }
}

/// The lines of `s`, split as `str::lines` splits them: at each `\n`, dropping a
/// `\r` just before it; a final `\n` ends the last line and starts no empty one.
pub open spec fn lines(s: Seq<char>) -> Seq<Seq<char>>
    decreases s.len(),
{
    if s.len() == 0 {
        Seq::empty()
    } else {
        let l = run_len(s, other_than('\n')) as int;
        if l < s.len() {
            seq![drop_cr(s.take(l))] + lines(s.skip(l + 1))
        } else {
            seq![s]
        }
    }
}

/// The first line of a non-empty `s` and where the rest of its lines start.
pub fn first_line<'a>(s: &'a str) -> (r: (&'a str, usize))
    requires
        s@.len() > 0,
    ensures
        0 < r.1 <= s@.len(),
        lines(s@) == seq![r.0@] + lines(s@.skip(r.1 as int)),
{
    let len = s.unicode_len();
    let l = until_char(s, '\n');
    if l < len {
        let mut e = l;
        if l > 0 && s.get_char(l - 1) == '\r' {
            e = l - 1;
        }
        let line = s.substring_char(0, e);
        proof {
            assert(line@ =~= drop_cr(s@.take(l as int)));
        }
        (line, l + 1)
    } else {
        proof {
            assert(s@.skip(len as int) =~= Seq::<char>::empty());
            assert(lines(s@.skip(len as int)) =~= Seq::<Seq<char>>::empty());
            assert(seq![s@] + Seq::<Seq<char>>::empty() =~= seq![s@]);
        }
        (s, len)
    }
}

/// The text before the first `c` of `s` (all of `s` when it holds none).
pub open spec fn first_field(s: Seq<char>, c: char) -> Seq<char> {
    s.take(run_len(s, other_than(c)) as int)
}

/// The text between the first and the second `c` of `s` (up to its end when there
/// is no second one), or nothing when `s` holds no `c`.
pub open spec fn second_field(s: Seq<char>, c: char) -> Seq<char> {
    let a = run_len(s, other_than(c)) as int;
    if a < s.len() {
        first_field(s.skip(a + 1), c)
    } else {
        Seq::empty()
    }
}

/// The text before the first `c` of `s`.
pub fn str_first_field<'a>(s: &'a str, c: char) -> (r: &'a str)
    ensures
        r@ == first_field(s@, c),
{
    let a = until_char(s, c);
    let r = s.substring_char(0, a);
    assert(r@ =~= first_field(s@, c));
    r
}

/// The text between the first and the second `c` of `s`.
pub fn str_second_field<'a>(s: &'a str, c: char) -> (r: &'a str)
    ensures
        r@ == second_field(s@, c),
{
    let a = until_char(s, c);
    if a < s.unicode_len() {
        str_first_field(tail(s, a + 1), c)
    } else {
        let r = s.substring_char(0, 0);
        assert(r@ =~= Seq::<char>::empty());
        r
    }
}

/// Characters equal to `c`.
pub open spec fn equal_to(c: char) -> spec_fn(char) -> bool {
    |x: char| x == c
}

/// `s` without the copies of `c` at its start.
pub open spec fn trim_char_start(s: Seq<char>, c: char) -> Seq<char> {
    s.skip(run_len(s, equal_to(c)) as int)
}

/// `s` without the copies of `c` at its end.
pub open spec fn trim_char_end(s: Seq<char>, c: char) -> Seq<char>
    decreases s.len(),
{
    if s.len() > 0 && s.last() == c {
        trim_char_end(s.drop_last(), c)
    } else {
        s
    }
}

proof fn lemma_trim_char_end_take(s: Seq<char>, c: char, n: int)
    requires
        0 <= n <= s.len(),
        forall|j: int| n <= j < s.len() ==> s[j] == c,
    ensures
        trim_char_end(s, c) == trim_char_end(s.take(n), c),
    decreases s.len() - n,
{
    if n < s.len() {
        assert(s.take(s.len() - 1) =~= s.drop_last());
        lemma_trim_char_end_take(s.drop_last(), c, n);
        assert(s.drop_last().take(n) =~= s.take(n));
    } else {
        assert(s.take(s.len() as int) =~= s);
    }
}

/// `s` without the copies of `c` at its start.
pub fn str_trim_char_start<'a>(s: &'a str, c: char) -> (r: &'a str)
    ensures
        r@ == trim_char_start(s@, c),
{
    let len = s.unicode_len();
    let mut i: usize = 0;
    while i < len
        invariant
            len == s@.len(),
            i <= len,
            forall|j: int| 0 <= j < i ==> #[trigger] equal_to(c)(s@[j]),
        ensures
            i <= len,
            forall|j: int| 0 <= j < i ==> #[trigger] equal_to(c)(s@[j]),
            i == len || !equal_to(c)(s@[i as int]),
        decreases len - i,
    {
        if s.get_char(i) != c {
            break;
        }
        i = i + 1;
    }
    proof {
        lemma_run_len(s@, equal_to(c), i as int);
    }
    tail(s, i)
}

/// `s` without the copies of `c` at its end.
pub fn str_trim_char_end<'a>(t: &'a str, c: char) -> (r: &'a str)
    ensures
        r@ == trim_char_end(t@, c),
{
    let tlen = t.unicode_len();
    let mut k: usize = tlen;
    while k > 0
        invariant
            tlen == t@.len(),
            k <= tlen,
            forall|j: int| k <= j < tlen ==> t@[j] == c,
        ensures
            k <= tlen,
            forall|j: int| k <= j < tlen ==> t@[j] == c,
            k == 0 || t@[k - 1] != c,
        decreases k,
    {
        if t.get_char(k - 1) != c {
            break;
        }
        k = k - 1;
    }
    proof {
        lemma_trim_char_end_take(t@, c, k as int);
        let u = t@.take(k as int);
        if k > 0 {
            assert(u.last() == t@[k - 1]);
        }
        assert(trim_char_end(u, c) == u);
    }
    let r = t.substring_char(0, k);
    assert(r@ =~= t@.take(k as int));
    r
}

/// `s` without the copies of `c` at either end, as `str::trim_matches` gives it.
pub fn str_trim_char<'a>(s: &'a str, c: char) -> (r: &'a str)
    ensures
        r@ == trim_char_end(trim_char_start(s@, c), c),
{
    str_trim_char_end(str_trim_char_start(s, c), c)
}

/// Whether `s` ends with `c`.
pub fn str_ends_with_char(s: &str, c: char) -> (b: bool)
    ensures
        b == (s@.len() > 0 && s@.last() == c),
{
    let len = s.unicode_len();
    len > 0 && s.get_char(len - 1) == c
}

/// Whether `s` holds `c`.
pub open spec fn holds(s: Seq<char>, c: char) -> bool {
    run_len(s, other_than(c)) < s.len()
}

/// The number written by `s` as `str::parse` reads an unsigned integer (an optional
/// `+`, then one or more ASCII digits) when it is at most `max`, or `None`.
pub open spec fn parse_number(s: Seq<char>, max: nat) -> Option<nat> {
    let d = if s.len() > 0 && s[0] == '+' { s.skip(1) } else { s };
    if d.len() > 0 && run_len(d, digit_pred()) == d.len() && decimal_value(d) <= max {
        Some(decimal_value(d))
    } else {
        None
    }
}

/// The `u32` written by `s`, or `None`.
pub open spec fn parse_u32(s: Seq<char>) -> Option<u32> {
    match parse_number(s, u32::MAX as nat) {
        Some(v) => Some(v as u32),
        None => None,
    }
}

/// The number written by `s` when it is at most `max`.
pub fn parse_number_upto(s: &str, max: u64) -> (r: Option<u64>)
    ensures
        match parse_number(s@, max as nat) {
            Some(v) => r == Some(v as u64),
            None => r is None,
        },
{
    let len = s.unicode_len();
    let d = if len > 0 && s.get_char(0) == '+' { tail(s, 1) } else { s };
    let dlen = d.unicode_len();
    let n = digit_run(d);
    if dlen == 0 || n != dlen {
        return None;
    }
    proof {
        lemma_run_prefix(d@, digit_pred(), n as int);
    }
    let mut v: u64 = 0;
    let mut j: usize = 0;
    while j < n
        invariant
            n == dlen,
            dlen == d@.len(),
            d@ == (if s@.len() > 0 && s@[0] == '+' { s@.skip(1) } else { s@ }),
            forall|k: int| 0 <= k < n ==> #[trigger] digit_pred()(d@[k]),
            j <= n,
            v == decimal_value(d@.take(j as int)),
            v <= max,
        decreases n - j,
    {
        let c = d.get_char(j);
        assert(digit_pred()(d@[j as int]));
        assert(is_digit(d@[j as int]));
        let digit = (c as u32 - '0' as u32) as u64;
        proof {
            assert(d@.take(j + 1).drop_last() =~= d@.take(j as int));
        }
        if digit > max || v > (max - digit) / 10 {
            proof {
                assert(v * 10 + digit > max) by (nonlinear_arith)
                    requires
                        digit > max || v > (max - digit) / 10,
                        v >= 0,
                ;
                assert(decimal_value(d@.take(j + 1)) == v * 10 + digit);
                assert forall|k: int| 0 <= k < d@.len() implies is_digit(#[trigger] d@[k]) by {
                    assert(digit_pred()(d@[k]));
                }
                lemma_decimal_value_mono(d@, j + 1, n as int);
                assert(d@.take(n as int) =~= d@);
            }
            return None;
        }
        proof {
            assert(v * 10 + digit <= max) by (nonlinear_arith)
                requires
                    v <= (max - digit) / 10,
                    digit <= max,
            ;
        }
        v = v * 10 + digit;
        j = j + 1;
    }
    proof {
        assert(d@.take(n as int) =~= d@);
    }
    Some(v)
}

/// The `u32` written by `s`, or 0 when `s` does not write one.
pub fn parse_u32_or_zero(s: &str) -> (n: u32)
    ensures
        n == match parse_u32(s@) {
            Some(v) => v,
            None => 0,
        },
{
    match parse_number_upto(s, 4294967295u64) {
        Some(v) => v as u32,
        None => 0,
    }
}

} // verus!
