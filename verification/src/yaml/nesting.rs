//! How nested structures end and what blank lines do: what follows a list-valued key
//! on a line at the key's indentation or less is not part of the list, and blank and
//! comment lines before a list or a block change nothing but where it ends.

use crate::text::{digit_pred, is_ws, lemma_run_prefix, other_than, run_len, starts_with, trim_start};
use crate::yaml::scalar::{
    closing_quote, ends_after_quote, ends_string, float_len, lemma_closing_quote_unique,
    scalar_outcome, unquoted_pred, ValueModel,
};
use crate::yaml::structure::{
    blank_line, block_spec, colon_pos, indent_len, inline_ws_pred, item_spec, kv_spec, lemma_runs,
    line_len, list_spec, next_line, skip_blank,
};
use vstd::prelude::*;

verus! {

/// `s` is a line break followed by a line that is not blank and is indented at most
/// `n`, and it holds no quote and no `.`.
pub open spec fn shallow_line(s: Seq<char>, n: int) -> bool {
    &&& s.len() > 0
    &&& s[0] == '\n'
    &&& !blank_line(s.skip(1))
    &&& indent_len(s.skip(1)) <= n
    &&& forall|j: int| 0 <= j < s.len() ==> s[j] != '"' && s[j] != '\'' && s[j] != '.'
}

/// A run at the start of `x` stays the same with `s` after `x`, when it ends inside
/// `x` or `s` starts with a character outside the run.
proof fn lemma_run_len_append(x: Seq<char>, s: Seq<char>, p: spec_fn(char) -> bool)
    requires
        run_len(x, p) < x.len() || (s.len() > 0 && !p(s[0])),
    ensures
        run_len(x + s, p) == run_len(x, p),
    decreases x.len(),
{
    if x.len() == 0 {
        assert(x + s =~= s);
    } else {
        assert((x + s)[0] == x[0]);
        if p(x[0]) {
            assert((x + s).drop_first() =~= x.drop_first() + s);
            lemma_run_len_append(x.drop_first(), s, p);
        }
    }
}

proof fn lemma_skip_append(x: Seq<char>, s: Seq<char>, k: int)
    requires
        0 <= k <= x.len(),
    ensures
        (x + s).skip(k) == x.skip(k) + s,
{
    assert((x + s).skip(k) =~= x.skip(k) + s);
}

/// The first line of `x` reads the same with a line break and more after `x`.
proof fn lemma_line_append(x: Seq<char>, s: Seq<char>)
    requires
        s.len() > 0,
        s[0] == '\n',
    ensures
        indent_len(x + s) == indent_len(x),
        line_len(x + s) == line_len(x),
        next_line(x + s) == if line_len(x) < x.len() { next_line(x) } else { x.len() + 1int },
        blank_line(x + s) == blank_line(x),
{
    lemma_run_len_append(x, s, inline_ws_pred());
    lemma_run_len_append(x, s, crate::text::other_than('\n'));
    lemma_runs(x);
    lemma_runs(x + s);
    let w = indent_len(x);
    if w < x.len() {
        assert((x + s)[w] == x[w]);
    } else {
        assert((x + s)[w] == s[0]);
    }
}

/// Blank lines at the start of `x` are skipped the same way with a shallow line after
/// `x`, unless they are all of `x`: then the line break of the shallow line is skipped
/// too, and the skipping stops at its line.
proof fn lemma_skip_blank_append(x: Seq<char>, s: Seq<char>, n: int)
    requires
        shallow_line(s, n),
    ensures
        0 <= skip_blank(x) <= x.len(),
        skip_blank(x) < x.len() ==> skip_blank(x + s) == skip_blank(x) && !blank_line(
            x.skip(skip_blank(x)),
        ),
        skip_blank(x) == x.len() ==> skip_blank(x + s) == x.len() + 1,
    decreases x.len(),
{
    crate::yaml::structure::lemma_skip_blank(x);
    lemma_runs(x);
    lemma_runs(s);
    lemma_runs(s.skip(1));
    assert(skip_blank(s.skip(1)) == 0);
    if x.len() == 0 {
        assert(x + s =~= s);
        assert(blank_line(s));
        assert(next_line(s) == 1);
        assert(skip_blank(s) == next_line(s) + skip_blank(s.skip(next_line(s))));
    } else {
        lemma_line_append(x, s);
        if blank_line(x) {
            let e = next_line(x);
            if line_len(x) < x.len() {
                lemma_skip_append(x, s, e);
                lemma_skip_blank_append(x.skip(e), s, n);
                assert(x.skip(e).skip(skip_blank(x.skip(e))) =~= x.skip(skip_blank(x)));
            } else {
                assert(x.skip(e).len() == 0);
                assert((x + s).skip(x.len() + 1int) =~= s.skip(1));
                assert(skip_blank(x + s) == next_line(x + s) + skip_blank((x + s).skip(next_line(x + s))));
            }
        } else {
            assert(x.skip(0) =~= x);
        }
    }
}

/// `p` is a prefix of `v` with a line break after `v` exactly when it is a prefix of
/// `v`, for `p` without a line break.
proof fn lemma_starts_with_append(v: Seq<char>, s: Seq<char>, p: Seq<char>)
    requires
        s.len() > 0,
        s[0] == '\n',
        forall|j: int| 0 <= j < p.len() ==> p[j] != '\n',
    ensures
        starts_with(v + s, p) == starts_with(v, p),
{
    if p.len() <= v.len() {
        assert((v + s).take(p.len() as int) =~= v.take(p.len() as int));
    } else if starts_with(v + s, p) {
        assert((v + s).take(p.len() as int)[v.len() as int] == p[v.len() as int]);
    }
}

/// The closing quote of a quoted string stays where it is with a shallow line after it.
proof fn lemma_closing_quote_append(v: Seq<char>, s: Seq<char>, n: int, q: char, k: int)
    requires
        shallow_line(s, n),
        q == '"' || q == '\'',
    ensures
        closing_quote(v + s, q, k) == closing_quote(v, q, k),
{
    assert forall|m: int| #[trigger] ends_string(v + s, q, m) == ends_string(v, q, m) by {
        if 1 <= m < v.len() {
            assert((v + s)[m] == v[m]);
            if m + 1 < v.len() {
                assert((v + s)[m + 1] == v[m + 1]);
            } else {
                assert((v + s)[m + 1] == s[0]);
            }
        } else if v.len() <= m < v.len() + s.len() {
            assert((v + s)[m] == s[m - v.len()]);
        }
    }
    if exists|m: int| #[trigger] ends_string(v, q, m) {
        let m = choose|m: int| #[trigger] ends_string(v, q, m);
        assert(ends_string(v + s, q, m));
    }
    if exists|m: int| #[trigger] ends_string(v + s, q, m) {
        let m = choose|m: int| #[trigger] ends_string(v + s, q, m);
        assert(ends_string(v, q, m));
    }
    if k >= v.len() && k < v.len() + s.len() {
        assert((v + s)[k] == s[k - v.len()]);
    }
    if exists|m: int| #[trigger] ends_string(v, q, m) {
        if closing_quote(v, q, k) {
            assert forall|m: int| 1 <= m < k implies !#[trigger] ends_string(v + s, q, m) by {
                assert(!ends_string(v, q, m));
            }
        }
        if closing_quote(v + s, q, k) {
            assert forall|m: int| 1 <= m < k implies !#[trigger] ends_string(v, q, m) by {
                assert(!ends_string(v + s, q, m));
            }
        }
    } else {
        if closing_quote(v, q, k) {
            assert forall|m: int| 1 <= m < k implies (v + s)[m] != q by {
                assert(v[m] != q);
            }
        }
        if closing_quote(v + s, q, k) {
            assert(k < v.len());
            assert forall|m: int| 1 <= m < k implies v[m] != q by {
                assert((v + s)[m] != q);
            }
        }
    }
}

/// A scalar at the start of `v` reads the same with a shallow line after `v`.
proof fn lemma_scalar_append(v: Seq<char>, s: Seq<char>, n: int)
    requires
        shallow_line(s, n),
        scalar_outcome(v) is Some,
    ensures
        scalar_outcome(v + s) == scalar_outcome(v),
{
    reveal_strlit("null");
    reveal_strlit("~");
    reveal_strlit("true");
    reveal_strlit("false");
    lemma_starts_with_append(v, s, "null"@);
    lemma_starts_with_append(v, s, "~"@);
    lemma_starts_with_append(v, s, "true"@);
    lemma_starts_with_append(v, s, "false"@);
    let digits = run_len(v, digit_pred()) as int;
    let word = run_len(v, unquoted_pred()) as int;
    lemma_run_len_append(v, s, digit_pred());
    lemma_run_len_append(v, s, unquoted_pred());
    lemma_run_prefix(v, digit_pred(), digits);
    lemma_run_prefix(v, unquoted_pred(), word);
    assert((v + s).take(digits) =~= v.take(digits));
    assert((v + s).take(word) =~= v.take(word));
    if v.len() == 0 {
        assert(v.take(word) =~= Seq::<char>::empty());
        assert(trim_start(Seq::<char>::empty()) =~= Seq::<char>::empty());
    } else {
        assert((v + s)[0] == v[0]);
        let q = v[0];
        if q == '"' || q == '\'' {
            assert forall|k: int| #[trigger] closing_quote(v + s, q, k) == closing_quote(v, q, k) by {
                lemma_closing_quote_append(v, s, n, q, k);
            }
            if exists|k: int| closing_quote(v, q, k) {
                let k1 = choose|k: int| closing_quote(v, q, k);
                let k2 = choose|k: int| closing_quote(v + s, q, k);
                assert(closing_quote(v + s, q, k1));
                lemma_closing_quote_unique(v + s, q, k1, k2);
                assert((v + s).subrange(1, k1) =~= v.subrange(1, k1));
            }
        }
        assert((v + s).contains('.') == v.contains('.')) by {
            if (v + s).contains('.') {
                let j = choose|j: int| 0 <= j < (v + s).len() && (v + s)[j] == '.';
                if j < v.len() {
                    assert(v[j] == '.');
                } else {
                    assert((v + s)[j] == s[j - v.len()]);
                }
            }
            if v.contains('.') {
                let j = choose|j: int| 0 <= j < v.len() && v[j] == '.';
                assert((v + s)[j] == '.');
            }
        }
        if digits < v.len() {
            assert((v + s)[digits] == v[digits]);
            if v[digits] == '.' {
                assert((v + s).skip(digits + 1) =~= v.skip(digits + 1) + s);
                lemma_run_len_append(v.skip(digits + 1), s, digit_pred());
                lemma_run_prefix(
                    v.skip(digits + 1),
                    digit_pred(),
                    run_len(v.skip(digits + 1), digit_pred()) as int,
                );
            }
        } else {
            assert((v + s)[digits] == s[0]);
        }
        assert(float_len(v + s) == float_len(v));
        assert((v + s).take(float_len(v)) =~= v.take(float_len(v)));
    }
}

/// Leading white space is dropped the same way with more text after, as long as
/// something other than white space is left.
proof fn lemma_trim_start_append(a: Seq<char>, s: Seq<char>)
    requires
        trim_start(a).len() > 0,
    ensures
        trim_start(a + s) == trim_start(a) + s,
    decreases a.len(),
{
    assert((a + s)[0] == a[0]);
    if is_ws(a[0]) {
        assert((a + s).drop_first() =~= a.drop_first() + s);
        lemma_trim_start_append(a.drop_first(), s);
    }
}

/// There is no scalar in empty text.
proof fn lemma_no_scalar_in_nothing(v: Seq<char>)
    requires
        v.len() == 0,
    ensures
        scalar_outcome(v) is None,
{
    reveal_strlit("null");
    reveal_strlit("~");
    reveal_strlit("true");
    reveal_strlit("false");
    assert(v.take(0) =~= Seq::<char>::empty());
    assert(trim_start(Seq::<char>::empty()) =~= Seq::<char>::empty());
}

/// A list item reads the same with a shallow line after it.
proof fn lemma_item_append(y: Seq<char>, s: Seq<char>, n: int)
    requires
        shallow_line(s, n),
        item_spec(y) is Ok,
    ensures
        item_spec(y + s) == item_spec(y),
{
    assert((y + s)[0] == y[0]);
    let after = y.skip(1);
    assert((y + s).skip(1) =~= after + s);
    let v = trim_start(after);
    if v.len() == 0 {
        lemma_no_scalar_in_nothing(v);
    } else {
        lemma_trim_start_append(after, s);
        lemma_scalar_append(v, s, n);
    }
}

/// No list at indentation `m` starts on the line of a shallow line, which is indented
/// less than `m`.
proof fn lemma_no_list_on_shallow_line(s: Seq<char>, n: int, m: int)
    requires
        shallow_line(s, n),
        n < m,
    ensures
        list_spec(s.skip(1), m) == Ok::<(int, Seq<ValueModel>), Seq<char>>((0, Seq::empty())),
{
    let l = s.skip(1);
    lemma_runs(l);
    assert(skip_blank(l) == 0);
    assert(l.skip(0) =~= l);
}

/// A list item takes no more than its text.
proof fn lemma_item_bounds(y: Seq<char>)
    requires
        item_spec(y) is Ok,
    ensures
        item_spec(y)->Ok_0.0 <= y.len(),
{
    let after = y.skip(1);
    let v = trim_start(after);
    crate::yaml::structure::lemma_scalar_outcome_bounds(v);
}

/// A list at indentation `m` reads the same with a line indented less than `m` after
/// it: the list ends at its last item.
proof fn lemma_list_append(x: Seq<char>, s: Seq<char>, n: int, m: int)
    requires
        shallow_line(s, n),
        n < m,
        list_spec(x, m) is Ok,
    ensures
        list_spec(x + s, m) == list_spec(x, m),
    decreases x.len(),
{
    lemma_skip_blank_append(x, s, n);
    lemma_no_list_on_shallow_line(s, n, m);
    let b = skip_blank(x);
    if b == x.len() {
        assert(x.skip(b).len() == 0);
        assert((x + s).skip(x.len() + 1int) =~= s.skip(1));
    } else {
        lemma_skip_append(x, s, b);
        let u = x.skip(b);
        lemma_line_append(u, s);
        lemma_runs(u);
        let mm = indent_len(u);
        assert((u + s)[mm] == u[mm]);
        if mm == m && u[mm] == '-' && item_spec(u.skip(m)) is Ok {
            lemma_skip_append(u, s, m);
            lemma_item_append(u.skip(m), s, n);
            lemma_item_bounds(u.skip(m));
            let c = item_spec(u.skip(m))->Ok_0.0;
            if 0 < c {
                let after = u.skip(m + c);
                lemma_skip_append(u, s, m + c);
                assert(u.skip(m + c) =~= x.skip(b + m + c));
                lemma_line_append(after, s);
                lemma_runs(after);
                if after.len() == 0 {
                    assert(after + s =~= s);
                    lemma_runs(s);
                    assert(b + m + c == x.len());
                    assert((x + s).skip(b + m + c + 1) =~= s.skip(1));
                } else if blank_line(after) {
                    let e = next_line(after);
                    if line_len(after) < after.len() {
                        lemma_skip_append(x, s, b + m + c + e);
                        assert(x.skip(b + m + c).skip(e) =~= x.skip(b + m + c + e));
                        lemma_list_append(x.skip(b + m + c + e), s, n, m);
                    } else {
                        assert(b + m + c + e == x.len());
                        assert(x.skip(b + m + c + e).len() == 0);
                        assert((x + s).skip(b + m + c + e + 1) =~= s.skip(1));
                    }
                }
            }
        }
    }
}

/// A key whose value is a nested list ends where the list's last item ends: when the
/// text of the pair is followed by a line at the key's indentation or less (the next
/// key of the same block, say), the pair, its value and the characters it takes stay
/// exactly as they are, and that line is left for what follows. (The line is taken
/// to hold no quote and no `.`, since the reading of a scalar looks ahead for those.)
pub proof fn lemma_list_value_ends_at_its_last_item(t: Seq<char>, n: int, s: Seq<char>)
    requires
        shallow_line(s, n),
        kv_spec(t, n) matches Ok((_, (_, ValueModel::List(_)))),
    ensures
        kv_spec(t + s, n) == kv_spec(t, n),
{
    lemma_runs(t);
    let ke = colon_pos(t);
    lemma_run_len_append(t, s, other_than(':'));
    assert((t + s).take(ke) =~= t.take(ke));
    let after = t.skip(ke + 1);
    lemma_skip_append(t, s, ke + 1);
    lemma_runs(after);
    lemma_line_append(after, s);
    if blank_line(after) {
        let nl = next_line(after);
        let u0 = after.skip(nl);
        lemma_skip_append(after, s, nl);
        lemma_skip_blank_append(u0, s, n);
        let b = skip_blank(u0);
        let u = u0.skip(b);
        let m = indent_len(u);
        if line_len(after) < after.len() && m < u.len() && m > n && u[m] == '-' {
            lemma_skip_append(u0, s, b);
            lemma_line_append(u, s);
            assert((u + s)[m] == u[m]);
            lemma_list_append(u0, s, n, m);
        }
    } else {
        let w = indent_len(after);
        match scalar_outcome(after.skip(w)) {
            None => {},
            Some((c0, v)) => {
                assert(!(v is List));
            },
        }
    }
}

/// `bl` is whole blank or comment lines, each ending with a line break.
pub open spec fn blank_lines(bl: Seq<char>) -> bool {
    skip_blank(bl) == bl.len() && (bl.len() == 0 || bl.last() == '\n')
}

/// Blank lines before `x` are skipped, and then the skipping goes on in `x`.
proof fn lemma_skip_blank_prefix(bl: Seq<char>, x: Seq<char>)
    requires
        blank_lines(bl),
    ensures
        skip_blank(bl + x) == bl.len() + skip_blank(x),
        (bl + x).skip(bl.len() + skip_blank(x)) == x.skip(skip_blank(x)),
    decreases bl.len(),
{
    crate::yaml::structure::lemma_skip_blank(x);
    assert((bl + x).skip(bl.len() + skip_blank(x)) =~= x.skip(skip_blank(x)));
    if bl.len() == 0 {
        assert(bl + x =~= x);
    } else {
        lemma_runs(bl);
        crate::yaml::structure::lemma_skip_blank(bl);
        assert(blank_line(bl));
        assert(line_len(bl) < bl.len()) by {
            if line_len(bl) == bl.len() {
                assert(bl[bl.len() - 1] != '\n');
            }
        }
        lemma_run_len_append(bl, x, other_than('\n'));
        lemma_run_len_append(bl, x, inline_ws_pred());
        lemma_runs(bl + x);
        let w = indent_len(bl);
        assert(w < bl.len()) by {
            if w == bl.len() {
                assert(bl[bl.len() - 1] == ' ' || bl[bl.len() - 1] == '\t');
            }
        }
        assert((bl + x)[w] == bl[w]);
        let e = next_line(bl);
        lemma_skip_append(bl, x, e);
        let rest = bl.skip(e);
        assert(rest.len() == 0 || rest.last() == bl.last());
        lemma_skip_blank_prefix(rest, x);
    }
}

/// Blank and comment lines before a list change only where it ends: the list of
/// `bl + x` is the list of `x`, and when it has items it takes the blank lines too.
pub proof fn lemma_blank_lines_before_a_list(bl: Seq<char>, x: Seq<char>, m: int)
    requires
        blank_lines(bl),
    ensures
        list_spec(bl + x, m) == match list_spec(x, m) {
            Ok((c, vs)) => Ok((if vs.len() > 0 { bl.len() + c } else { 0 }, vs)),
            Err(e) => Err(e),
        },
{
    lemma_skip_blank_prefix(bl, x);
    let b = skip_blank(x);
    let u = x.skip(b);
    lemma_runs(u);
    let mm = indent_len(u);
    if mm == m && mm < u.len() && u[mm] == '-' {
        match item_spec(u.skip(mm)) {
            Err(_) => {},
            Ok((c, v)) => {
                if 0 < c <= u.len() - mm {
                    let after = u.skip(mm + c);
                    lemma_runs(after);
                    if blank_line(after) && after.len() > 0 {
                        let e = next_line(after);
                        crate::yaml::structure::lemma_skip_blank(x);
                        assert((bl + x).skip(bl.len() + b + mm + c + e) =~= x.skip(b + mm + c + e));
                    }
                }
            },
        }
    }
}

/// Blank and comment lines before a block change only where it ends: the pairs of
/// `bl + x` are the pairs of `x`, and when there are any the block takes the blank
/// lines too.
pub proof fn lemma_blank_lines_before_a_block(bl: Seq<char>, x: Seq<char>, n: int)
    requires
        blank_lines(bl),
    ensures
        block_spec(bl + x, n) == ({
            let (c, ps) = block_spec(x, n);
            (if ps.len() > 0 { bl.len() + c } else { 0 }, ps)
        }),
{
    lemma_skip_blank_prefix(bl, x);
    let b = skip_blank(x);
    let u = x.skip(b);
    lemma_runs(u);
    let mm = indent_len(u);
    let content = u.skip(mm);
    if mm == n && mm < u.len() {
        match kv_spec(content, n) {
            Err(_) => {},
            Ok((c, pair)) => {
                if 0 < c <= content.len() {
                    let after = content.skip(c);
                    lemma_runs(after);
                    if blank_line(after) && after.len() > 0 {
                        let e = next_line(after);
                        crate::yaml::structure::lemma_skip_blank(x);
                        assert((bl + x).skip(bl.len() + b + mm + c + e) =~= x.skip(b + mm + c + e));
                    }
                }
            },
        }
    }
}

} // verus!
