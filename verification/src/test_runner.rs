//! The test runner's logic: how it reads the output of a test binary, and which
//! libraries of the workspace it links a test against.

use crate::manifest::{keyed_model, lookup, string_keys, key_position, lemma_key_position, keys_of};
use crate::parsing::primitives::{find_str, first_occurrence, occurs_at};
use crate::resolver::{dep_graph, dep_name, deps_of, dep_texts, ResolvedPackage, ResolvedWorkspace, names_of};
use crate::text::{
    decimal_value, digit_pred, first_line, is_digit, lemma_run_len, lines, parse_number,
    parse_number_upto, push_char, run_len, str_eq, str_first_field, str_trim, tail, trim,
    trim_end, trim_start,
};
use vstd::prelude::*;
use vstd::string::*;

verus! {

// ---------------------------------------------------------------- text searches

/// `s` holds the text `p`.
pub open spec fn contains_text(s: Seq<char>, p: Seq<char>) -> bool {
    exists|k: int| occurs_at(s, p, k)
}

/// The text of `s` before the first `p` in it (all of `s` when it holds none), as
/// `split(p).next()` gives it.
pub open spec fn text_before(s: Seq<char>, p: Seq<char>) -> Seq<char> {
    if exists|k: int| first_occurrence(s, p, k) {
        s.take(choose|k: int| first_occurrence(s, p, k))
    } else {
        s
    }
}

/// The text of `s` after its last `c` (all of `s` when it holds none), as
/// `rsplit(c).next()` gives it.
pub open spec fn after_last(s: Seq<char>, c: char) -> Seq<char>
    decreases s.len(),
{
    if s.len() == 0 {
        s
    } else if s.last() == c {
        Seq::empty()
    } else {
        after_last(s.drop_last(), c).push(s.last())
    }
}

proof fn lemma_first_occurrence_unique(s: Seq<char>, p: Seq<char>, a: int, b: int)
    requires
        first_occurrence(s, p, a),
        first_occurrence(s, p, b),
    ensures
        a == b,
{
    if a < b {
        assert(!occurs_at(s, p, a));
    } else if b < a {
        assert(!occurs_at(s, p, b));
    }
}

/// Whether `s` holds `p`.
pub fn str_contains(s: &str, p: &str) -> (b: bool)
    ensures
        b == contains_text(s@, p@),
{
    match find_str(s, p) {
        Some(k) => {
            assert(occurs_at(s@, p@, k as int));
            true
        },
        None => false,
    }
}

/// The text of `s` before the first `p`.
fn str_before<'a>(s: &'a str, p: &str) -> (r: &'a str)
    ensures
        r@ == text_before(s@, p@),
{
    match find_str(s, p) {
        Some(k) => {
            proof {
                let c = choose|c: int| first_occurrence(s@, p@, c);
                lemma_first_occurrence_unique(s@, p@, c, k as int);
            }
            let r = s.substring_char(0, k);
            assert(r@ =~= s@.take(k as int));
            r
        },
        None => s,
    }
}

proof fn lemma_after_last(s: Seq<char>, c: char, k: int)
    requires
        0 <= k <= s.len(),
        forall|j: int| k <= j < s.len() ==> s[j] != c,
        k == 0 || s[k - 1] == c,
    ensures
        after_last(s, c) == s.skip(k),
    decreases s.len(),
{
    if s.len() == k {
        assert(s.skip(k) =~= Seq::<char>::empty());
    } else {
        lemma_after_last(s.drop_last(), c, k);
        assert(s.skip(k) =~= s.drop_last().skip(k).push(s.last()));
    }
}

/// The text of `s` after its last `c`.
fn str_after_last<'a>(s: &'a str, c: char) -> (r: &'a str)
    ensures
        r@ == after_last(s@, c),
{
    let len = s.unicode_len();
    let mut k: usize = len;
    while k > 0
        invariant
            len == s@.len(),
            k <= len,
            forall|j: int| k <= j < len ==> s@[j] != c,
        ensures
            k <= len,
            forall|j: int| k <= j < len ==> s@[j] != c,
            k == 0 || s@[k - 1] == c,
        decreases k,
    {
        if s.get_char(k - 1) == c {
            break;
        }
        k = k - 1;
    }
    proof {
        lemma_after_last(s@, c, k as int);
    }
    tail(s, k)
}

// ---------------------------------------------------------------- test output

/// The number that a summary line gives just before `word`: the text after the last
/// space before the first `word`, read as a number, or 0 when it is not one (as when
/// a space stands right before `word`).
pub open spec fn count_before(line: Seq<char>, word: Seq<char>) -> nat {
    match parse_number(trim(after_last(text_before(line, word), ' ')), usize::MAX as nat) {
        Some(v) => v,
        None => 0,
    }
}

/// A summary line of a successful test run.
pub open spec fn summary_line(line: Seq<char>) -> bool {
    contains_text(line, "test result: ok"@)
}

/// The last summary line of `ls`.
pub open spec fn last_summary(ls: Seq<Seq<char>>) -> Option<Seq<char>>
    decreases ls.len(),
{
    if ls.len() == 0 {
        None
    } else {
        match last_summary(ls.drop_first()) {
            Some(l) => Some(l),
            None => if summary_line(ls[0]) {
                Some(ls[0])
            } else {
                None
            },
        }
    }
}

/// Number of lines of `ls` that report a passed test.
pub open spec fn passed_lines(ls: Seq<Seq<char>>) -> nat
    decreases ls.len(),
{
    if ls.len() == 0 {
        0
    } else {
        (if contains_text(ls[0], "... ok"@) { 1nat } else { 0nat }) + passed_lines(ls.drop_first())
    }
}

/// Number of lines of `ls` that report a failed test (and not a passed one).
pub open spec fn failed_lines(ls: Seq<Seq<char>>) -> nat
    decreases ls.len(),
{
    if ls.len() == 0 {
        0
    } else {
        (if !contains_text(ls[0], "... ok"@) && contains_text(ls[0], "... FAILED"@) {
            1nat
        } else {
            0nat
        }) + failed_lines(ls.drop_first())
    }
}

/// The numbers of passed and failed tests in the output of a test run: those of its
/// last summary line, or, when these are both 0 or there is none, the numbers of
/// lines that report a passed and a failed test.
pub open spec fn test_counts(output: Seq<char>) -> (nat, nat) {
    let ls = lines(output);
    let (p, f) = match last_summary(ls) {
        Some(l) => (count_before(l, "passed"@), count_before(l, "failed"@)),
        None => (0nat, 0nat),
    };
    if p == 0 && f == 0 {
        (passed_lines(ls), failed_lines(ls))
    } else {
        (p, f)
    }
}

/// The number before `word` in a summary line.
fn summary_count(line: &str, word: &str) -> (n: usize)
    ensures
        n == count_before(line@, word@),
{
    let before = str_before(line, word);
    let field = str_trim(str_after_last(before, ' '));
    match parse_number_upto(field, usize::MAX as u64) {
        Some(v) => v as usize,
        None => 0,
    }
}

/// Count the passed and failed tests in the output of a test run.
pub fn parse_test_output(output: &str) -> (r: (usize, usize))
    ensures
        r.0 == test_counts(output@).0,
        r.1 == test_counts(output@).1,
{
    proof {
        reveal_strlit("test result: ok");
        reveal_strlit("passed");
        reveal_strlit("failed");
        reveal_strlit("... ok");
        reveal_strlit("... FAILED");
    }
    let ghost ls = lines(output@);
    let len = output.unicode_len();
    let mut summary: Option<&str> = None;
    let mut pos: usize = 0;
    proof {
        assert(output@.skip(0) =~= output@);
    }
    while pos < len
        invariant
            len == output@.len(),
            pos <= len,
            ls == lines(output@),
            last_summary(ls) == match last_summary(lines(output@.skip(pos as int))) {
                Some(l) => Some(l),
                None => match summary {
                    Some(s) => Some(s@),
                    None => None,
                },
            },
        decreases len - pos,
    {
        let rest = tail(output, pos);
        let (line, next) = first_line(rest);
        proof {
            let rl = lines(rest@);
            assert(rl[0] == line@);
            assert(rl.drop_first() =~= lines(rest@.skip(next as int)));
            assert(rest@.skip(next as int) =~= output@.skip(pos + next));
        }
        if str_contains(line, "test result: ok") {
            summary = Some(line);
        }
        pos = pos + next;
    }
    proof {
        assert(output@.skip(len as int) =~= Seq::<char>::empty());
        assert(lines(output@.skip(len as int)) =~= Seq::<Seq<char>>::empty());
    }
    let (mut passed, mut failed) = match summary {
        Some(l) => (summary_count(l, "passed"), summary_count(l, "failed")),
        None => (0, 0),
    };
    if passed == 0 && failed == 0 {
        let mut pos: usize = 0;
        proof {
            assert(output@.skip(0) =~= output@);
        }
        while pos < len
            invariant
                len == output@.len(),
                pos <= len,
                ls == lines(output@),
                passed + failed <= pos,
                passed_lines(ls) == passed + passed_lines(lines(output@.skip(pos as int))),
                failed_lines(ls) == failed + failed_lines(lines(output@.skip(pos as int))),
            decreases len - pos,
        {
            let rest = tail(output, pos);
            let (line, next) = first_line(rest);
            proof {
                let rl = lines(rest@);
                assert(rl[0] == line@);
                assert(rl.drop_first() =~= lines(rest@.skip(next as int)));
                assert(rest@.skip(next as int) =~= output@.skip(pos + next));
            }
            if str_contains(line, "... ok") {
                passed = passed + 1;
            } else if str_contains(line, "... FAILED") {
                failed = failed + 1;
            }
            pos = pos + next;
        }
        proof {
            assert(output@.skip(len as int) =~= Seq::<char>::empty());
            assert(lines(output@.skip(len as int)) =~= Seq::<Seq<char>>::empty());
        }
    }
    (passed, failed)
}


// ---------------------------------------------------------------- libraries to link

/// The name of the library of package `name`: each `-` written `_`.
pub open spec fn lib_name(name: Seq<char>) -> Seq<char> {
    name.map_values(|c: char| if c == '-' { '_' } else { c })
}

/// The name of the library of package `name`.
pub fn library_name(name: &str) -> (r: String)
    ensures
        r@ == lib_name(name@),
        r@.len() == name@.len(),
        forall|i: int| 0 <= i < name@.len() && name@[i] == '-' ==> r@[i] == '_',
        forall|i: int| 0 <= i < name@.len() && name@[i] != '-' ==> r@[i] == name@[i],
{
    proof {
        lemma_library_name_chars(name@);
    }
    let mut r = String::new();
    let len = name.unicode_len();
    let mut i: usize = 0;
    while i < len
        invariant
            len == name@.len(),
            i <= len,
            r@ == lib_name(name@.take(i as int)),
        decreases len - i,
    {
        let c = name.get_char(i);
        let d = if c == '-' { '_' } else { c };
        push_char(&mut r, d);
        proof {
            assert(lib_name(name@.take(i + 1)) =~= lib_name(name@.take(i as int)).push(d));
        }
        i = i + 1;
    }
    proof {
        assert(name@.take(len as int) =~= name@);
    }
    r
}

/// Whether a package has a library target.
pub open spec fn lib_of(p: ResolvedPackage) -> bool {
    p.manifest.lib is Some
}

/// Package `n` of `ps` has a library target.
pub open spec fn has_lib(ps: Seq<(String, ResolvedPackage)>, n: Seq<char>) -> bool {
    lookup(keyed_model(ps, |p: ResolvedPackage| lib_of(p)), n) == Some(true)
}

/// The library entry of package `n`: its library name and its name.
pub open spec fn lib_entry(n: Seq<char>) -> (Seq<char>, Seq<char>) {
    (lib_name(n), n)
}

/// The entries of the packages named by the dependency entries `ds` that have a
/// library.
pub open spec fn direct_libs(ps: Seq<(String, ResolvedPackage)>, ds: Seq<Seq<char>>) -> Seq<(Seq<char>, Seq<char>)>
    decreases ds.len(),
{
    if ds.len() == 0 {
        Seq::empty()
    } else {
        let n = dep_name(ds[0]);
        (if has_lib(ps, n) { seq![lib_entry(n)] } else { Seq::empty() }) + direct_libs(ps, ds.drop_first())
    }
}

/// The libraries an integration test of a package with dependency entries `ds` is
/// linked against, before duplicates are dropped: for each dependency that is a
/// package of the workspace, its library, then the libraries of its own dependencies.
pub open spec fn integration_candidates(ps: Seq<(String, ResolvedPackage)>, ds: Seq<Seq<char>>) -> Seq<(Seq<char>, Seq<char>)>
    decreases ds.len(),
{
    if ds.len() == 0 {
        Seq::empty()
    } else {
        let g = dep_graph(ps);
        let n = dep_name(ds[0]);
        let here = if lookup(g, n) is Some {
            (if has_lib(ps, n) { seq![lib_entry(n)] } else { Seq::empty() }) + direct_libs(ps, deps_of(g, n))
        } else {
            Seq::empty()
        };
        here + integration_candidates(ps, ds.drop_first())
    }
}

/// `s` with each entry whose library name came before dropped.
pub open spec fn first_of_each(s: Seq<(Seq<char>, Seq<char>)>) -> Seq<(Seq<char>, Seq<char>)>
    decreases s.len(),
{
    if s.len() == 0 {
        s
    } else {
        let d = first_of_each(s.drop_last());
        if lib_names_of(s.drop_last()).contains(s.last().0) {
            d
        } else {
            d.push(s.last())
        }
    }
}

/// The library names of library entries.
pub open spec fn lib_names_of(s: Seq<(Seq<char>, Seq<char>)>) -> Seq<Seq<char>> {
    s.map_values(|e: (Seq<char>, Seq<char>)| e.0)
}

/// The model of library entries.
pub open spec fn entries_of(v: Seq<(String, String)>) -> Seq<(Seq<char>, Seq<char>)> {
    v.map_values(|e: (String, String)| (e.0@, e.1@))
}

/// The package of `ps` named `name`, with whether it has a library.
fn find_resolved(ps: &Vec<(String, ResolvedPackage)>, name: &str) -> (r: Option<usize>)
    ensures
        match r {
            Some(i) => i < ps@.len() && lookup(dep_graph(ps@), name@) == Some(dep_texts(ps@[i as int].1))
                && (has_lib(ps@, name@) <==> lib_of(ps@[i as int].1)),
            None => lookup(dep_graph(ps@), name@) is None && !has_lib(ps@, name@),
        },
{
    let ghost g = dep_graph(ps@);
    let ghost lm = keyed_model(ps@, |p: ResolvedPackage| lib_of(p));
    proof {
        assert(keys_of(g) =~= string_keys(ps@));
        assert(keys_of(lm) =~= string_keys(ps@));
    }
    let len = ps.len();
    let mut i: usize = 0;
    while i < len
        invariant
            len == ps@.len(),
            g == dep_graph(ps@),
            lm == keyed_model(ps@, |p: ResolvedPackage| lib_of(p)),
            keys_of(g) == string_keys(ps@),
            keys_of(lm) == string_keys(ps@),
            i <= len,
            forall|j: int| 0 <= j < i ==> #[trigger] string_keys(ps@)[j] != name@,
        decreases len - i,
    {
        if str_eq(ps[i].0.as_str(), name) {
            proof {
                lemma_key_position(keys_of(g), name@, i as int);
                lemma_key_position(keys_of(lm), name@, i as int);
            }
            return Some(i);
        }
        i = i + 1;
    }
    proof {
        lemma_key_position(keys_of(g), name@, -1);
        lemma_key_position(keys_of(lm), name@, -1);
    }
    None
}

/// Append to `out` the entries of the packages named by `deps` that have a library.
fn push_direct_libs(ps: &Vec<(String, ResolvedPackage)>, deps: &Vec<String>, out: &mut Vec<(String, String)>)
    ensures
        entries_of(final(out)@) == entries_of(old(out)@) + direct_libs(ps@, names_of(deps@)),
{
    let ghost ds = names_of(deps@);
    let n = deps.len();
    let mut i: usize = 0;
    proof {
        assert(ds.skip(0) =~= ds);
        assert(entries_of(out@) + direct_libs(ps@, ds) =~= entries_of(old(out)@) + direct_libs(ps@, ds.skip(0)));
    }
    while i < n
        invariant
            n == deps@.len(),
            ds == names_of(deps@),
            i <= n,
            entries_of(old(out)@) + direct_libs(ps@, ds) == entries_of(out@) + direct_libs(ps@, ds.skip(i as int)),
        decreases n - i,
    {
        let name = str_first_field(deps[i].as_str(), ' ');
        proof {
            assert(ds.skip(i as int)[0] == deps@[i as int]@);
            assert(ds.skip(i as int).drop_first() =~= ds.skip(i + 1));
        }
        let ghost before = entries_of(out@);
        match find_resolved(ps, name) {
            Some(j) => {
                if ps[j].1.manifest.lib.is_some() {
                    let e = (library_name(name), name.to_string());
                    out.push(e);
                    proof {
                        assert(entries_of(out@) =~= before.push(lib_entry(name@)));
                        assert(before + direct_libs(ps@, ds.skip(i as int)) =~= entries_of(out@) + direct_libs(ps@, ds.skip(i + 1)));
                    }
                } else {
                    proof {
                        assert(before + direct_libs(ps@, ds.skip(i as int)) =~= before + direct_libs(ps@, ds.skip(i + 1)));
                    }
                }
            },
            None => {
                proof {
                    assert(before + direct_libs(ps@, ds.skip(i as int)) =~= before + direct_libs(ps@, ds.skip(i + 1)));
                }
            },
        }
        i = i + 1;
    }
    proof {
        assert(ds.skip(n as int) =~= Seq::<Seq<char>>::empty());
        assert(entries_of(out@) + Seq::<(Seq<char>, Seq<char>)>::empty() =~= entries_of(out@));
    }
}

/// Drop each entry whose library name came before.
fn keep_first_of_each(v: Vec<(String, String)>) -> (r: Vec<(String, String)>)
    ensures
        entries_of(r@) == first_of_each(entries_of(v@)),
{
    let ghost s = entries_of(v@);
    let mut out: Vec<(String, String)> = Vec::new();
    let n = v.len();
    let mut i: usize = 0;
    proof {
        assert(s.take(0) =~= Seq::<(Seq<char>, Seq<char>)>::empty());
        assert(entries_of(out@) =~= Seq::<(Seq<char>, Seq<char>)>::empty());
    }
    while i < n
        invariant
            n == v@.len(),
            s == entries_of(v@),
            i <= n,
            entries_of(out@) == first_of_each(s.take(i as int)),
            forall|x: Seq<char>|
                #![trigger lib_names_of(s.take(i as int)).contains(x)]
                lib_names_of(entries_of(out@)).contains(x)
                    <==> lib_names_of(s.take(i as int)).contains(x),
        decreases n - i,
    {
        let ghost pre = s.take(i as int);
        let ghost post = s.take(i + 1);
        let ghost ko = lib_names_of(entries_of(out@));
        let ghost kpre = lib_names_of(pre);
        let ghost kpost = lib_names_of(post);
        proof {
            assert(post.drop_last() =~= pre);
            assert(post.last() == s[i as int]);
            assert(kpost =~= kpre.push(s[i as int].0));
        }
        let mut seen = false;
        let mut j: usize = 0;
        while j < out.len()
            invariant
                n == v@.len(),
                i < n,
                j <= out@.len(),
                ko == lib_names_of(entries_of(out@)),
                ko.len() == out@.len(),
                seen == exists|m: int| 0 <= m < j && ko[m] == v@[i as int].0@,
            decreases out@.len() - j,
        {
            assert(ko[j as int] == out@[j as int].0@);
            if str_eq(out[j].0.as_str(), v[i].0.as_str()) {
                seen = true;
            }
            proof {
                if seen {
                    if ko[j as int] == v@[i as int].0@ {
                        assert(0 <= j < j + 1 && ko[j as int] == v@[i as int].0@);
                    }
                }
            }
            j = j + 1;
        }
        proof {
            assert(seen == ko.contains(s[i as int].0));
        }
        if !seen {
            let e = (v[i].0.clone(), v[i].1.clone());
            out.push(e);
            proof {
                assert(entries_of(out@) =~= first_of_each(pre).push(s[i as int]));
                assert forall|x: Seq<char>| lib_names_of(entries_of(out@)).contains(x) <==> kpost.contains(x) by {
                    let ko2 = lib_names_of(entries_of(out@));
                    assert(ko2 =~= ko.push(s[i as int].0));
                    if ko2.contains(x) {
                        let m = choose|m: int| 0 <= m < ko2.len() && ko2[m] == x;
                        if m < ko.len() {
                            assert(ko.contains(x));
                            assert(kpre.contains(x));
                            let w = choose|w: int| 0 <= w < kpre.len() && kpre[w] == x;
                            assert(kpost[w] == x);
                        } else {
                            assert(kpost[i as int] == x);
                        }
                    }
                    if kpost.contains(x) {
                        let m = choose|m: int| 0 <= m < kpost.len() && kpost[m] == x;
                        if m < i {
                            assert(kpre[m] == x);
                            assert(kpre.contains(x));
                            assert(ko.contains(x));
                            let w = choose|w: int| 0 <= w < ko.len() && ko[w] == x;
                            assert(ko2[w] == x);
                        } else {
                            assert(ko2[ko.len() as int] == x);
                        }
                    }
                }
            }
        } else {
            proof {
                assert forall|x: Seq<char>| ko.contains(x) <==> kpost.contains(x) by {
                    if kpost.contains(x) {
                        let m = choose|m: int| 0 <= m < kpost.len() && kpost[m] == x;
                        if m < i {
                            assert(kpre[m] == x);
                            assert(kpre.contains(x));
                        }
                    }
                    if ko.contains(x) {
                        assert(kpre.contains(x));
                        let w = choose|w: int| 0 <= w < kpre.len() && kpre[w] == x;
                        assert(kpost[w] == x);
                    }
                }
            }
        }
        i = i + 1;
    }
    proof {
        assert(s.take(n as int) =~= s);
    }
    out
}

/// The libraries, each as its library name and its package name, that an
/// integration test of `package` is linked against: those of the packages it depends
/// on and of the packages these depend on, each library once.
pub fn integration_test_libs(package: &ResolvedPackage, workspace: &ResolvedWorkspace) -> (r: Vec<(String, String)>)
    ensures
        entries_of(r@) == first_of_each(
            integration_candidates(workspace.packages@, dep_texts(*package)),
        ),
{
    let ps = &workspace.packages;
    let ghost ds = dep_texts(*package);
    let ghost g = dep_graph(ps@);
    let mut out: Vec<(String, String)> = Vec::new();
    let n = package.dependencies.len();
    let mut i: usize = 0;
    proof {
        assert(ds.skip(0) =~= ds);
        assert(entries_of(out@) + integration_candidates(ps@, ds) =~= integration_candidates(ps@, ds.skip(0)));
    }
    while i < n
        invariant
            n == package.dependencies@.len(),
            ds == dep_texts(*package),
            g == dep_graph(ps@),
            i <= n,
            integration_candidates(ps@, ds) == entries_of(out@) + integration_candidates(ps@, ds.skip(i as int)),
        decreases n - i,
    {
        let name = str_first_field(package.dependencies[i].as_str(), ' ');
        let ghost before = entries_of(out@);
        let ghost rest = ds.skip(i as int);
        proof {
            assert(rest[0] == package.dependencies@[i as int]@);
            assert(rest.drop_first() =~= ds.skip(i + 1));
        }
        match find_resolved(ps, name) {
            Some(j) => {
                if ps[j].1.manifest.lib.is_some() {
                    let e = (library_name(name), name.to_string());
                    out.push(e);
                }
                let ghost mid = entries_of(out@);
                push_direct_libs(ps, &ps[j].1.dependencies, &mut out);
                proof {
                    assert(deps_of(g, name@) == names_of(ps@[j as int].1.dependencies@));
                    if lib_of(ps@[j as int].1) {
                        assert(mid =~= before.push(lib_entry(name@)));
                        assert(mid =~= before + seq![lib_entry(name@)]);
                    } else {
                        assert(mid =~= before + Seq::<(Seq<char>, Seq<char>)>::empty());
                    }
                    assert(before + integration_candidates(ps@, rest) =~= entries_of(out@) + integration_candidates(ps@, ds.skip(i + 1)));
                }
            },
            None => {
                proof {
                    assert(before + integration_candidates(ps@, rest) =~= before + integration_candidates(ps@, ds.skip(i + 1)));
                }
            },
        }
        i = i + 1;
    }
    proof {
        assert(ds.skip(n as int) =~= Seq::<Seq<char>>::empty());
        assert(entries_of(out@) + Seq::<(Seq<char>, Seq<char>)>::empty() =~= entries_of(out@));
    }
    keep_first_of_each(out)
}

// ---------------------------------------------------------------- libraries of inline tests

/// The names seen so far.
pub open spec fn seen_of(v: Seq<String>) -> Set<Seq<char>> {
    names_of(v).to_set()
}

/// Number of packages of `ps` not yet seen.
pub open spec fn unseen(ps: Seq<(String, ResolvedPackage)>, seen: Set<Seq<char>>) -> nat {
    keys_of(dep_graph(ps)).to_set().difference(seen).len()
}

/// Seeing more names leaves no more packages unseen.
pub proof fn lemma_unseen_mono(ps: Seq<(String, ResolvedPackage)>, a: Set<Seq<char>>, b: Set<Seq<char>>)
    requires
        a.subset_of(b),
    ensures
        unseen(ps, b) <= unseen(ps, a),
{
    let k = keys_of(dep_graph(ps)).to_set();
    vstd::seq_lib::seq_to_set_is_finite(keys_of(dep_graph(ps)));
    vstd::set_lib::lemma_len_subset(k.difference(a), k);
    vstd::set_lib::lemma_len_subset(k.difference(b), k.difference(a));
}

/// Seeing a package not seen before leaves one package fewer unseen.
pub proof fn lemma_unseen_insert(ps: Seq<(String, ResolvedPackage)>, seen: Set<Seq<char>>, n: Seq<char>)
    requires
        !seen.contains(n),
        lookup(dep_graph(ps), n) is Some,
    ensures
        unseen(ps, seen.insert(n)) + 1 == unseen(ps, seen),
{
    let g = dep_graph(ps);
    let k = keys_of(g).to_set();
    vstd::seq_lib::seq_to_set_is_finite(keys_of(g));
    vstd::set_lib::lemma_len_subset(k.difference(seen), k);
    let i = key_position(keys_of(g), n);
    assert(keys_of(g)[i] == n);
    assert(k.contains(n));
    assert(k.difference(seen.insert(n)) =~= k.difference(seen).remove(n));
}

/// The libraries found from package `n`, in the order a depth-first walk meets them:
/// when `n` was not seen, the library of package `n`, then those found from its
/// dependencies; with the names seen afterwards.
pub open spec fn libs_from(ps: Seq<(String, ResolvedPackage)>, n: Seq<char>, seen: Set<Seq<char>>) -> (Seq<(Seq<char>, Seq<char>)>, Set<Seq<char>>)
    decreases unseen(ps, seen), 0nat, 0nat,
{
    if seen.contains(n) {
        (Seq::empty(), seen)
    } else {
        let seen1 = seen.insert(n);
        match lookup(dep_graph(ps), n) {
            None => (Seq::empty(), seen1),
            Some(ds) => {
                proof {
                    lemma_unseen_insert(ps, seen, n);
                }
                let here = if has_lib(ps, n) { seq![lib_entry(n)] } else { Seq::empty() };
                let rest = libs_from_list(ps, ds, seen1);
                (here + rest.0, rest.1)
            },
        }
    }
}

/// The libraries found from the packages named by the dependency entries `ds`, one
/// after the other, with the names seen afterwards.
pub open spec fn libs_from_list(ps: Seq<(String, ResolvedPackage)>, ds: Seq<Seq<char>>, seen: Set<Seq<char>>) -> (Seq<(Seq<char>, Seq<char>)>, Set<Seq<char>>)
    decreases unseen(ps, seen), 1nat, ds.len(),
{
    if ds.len() == 0 {
        (Seq::empty(), seen)
    } else {
        let first = libs_from(ps, dep_name(ds[0]), seen);
        if seen.subset_of(first.1) {
            proof {
                lemma_unseen_mono(ps, seen, first.1);
            }
            let rest = libs_from_list(ps, ds.drop_first(), first.1);
            (first.0 + rest.0, rest.1)
        } else {
            first
        }
    }
}

/// Whether `name` was seen.
fn was_seen(visited: &Vec<String>, name: &str) -> (b: bool)
    ensures
        b == seen_of(visited@).contains(name@),
{
    let n = visited.len();
    let mut i: usize = 0;
    while i < n
        invariant
            n == visited@.len(),
            i <= n,
            forall|j: int| 0 <= j < i ==> visited@[j]@ != name@,
        decreases n - i,
    {
        if str_eq(visited[i].as_str(), name) {
            assert(names_of(visited@)[i as int] == name@);
            return true;
        }
        i = i + 1;
    }
    proof {
        if names_of(visited@).contains(name@) {
            let j = choose|j: int| 0 <= j < names_of(visited@).len() && names_of(visited@)[j] == name@;
            assert(visited@[j]@ == name@);
        }
    }
    false
}

/// Add the libraries found from package `name` to `libs`.
fn collect_libs(
    name: &str,
    ps: &Vec<(String, ResolvedPackage)>,
    libs: &mut Vec<(String, String)>,
    visited: &mut Vec<String>,
)
    ensures
        entries_of(final(libs)@) == entries_of(old(libs)@) + libs_from(ps@, name@, seen_of(old(visited)@)).0,
        seen_of(final(visited)@) == libs_from(ps@, name@, seen_of(old(visited)@)).1,
        seen_of(old(visited)@).subset_of(seen_of(final(visited)@)),
    decreases unseen(ps@, seen_of(old(visited)@)), 0nat, 0nat,
{
    let ghost seen0 = seen_of(visited@);
    if was_seen(visited, name) {
        assert(entries_of(libs@) =~= entries_of(libs@) + Seq::<(Seq<char>, Seq<char>)>::empty());
        return;
    }
    let ghost v0 = visited@;
    visited.push(name.to_string());
    proof {
        assert(names_of(visited@) =~= names_of(v0).push(name@));
        names_of(v0).lemma_push_to_set_commute(name@);
    }
    match find_resolved(ps, name) {
        None => {
            assert(entries_of(libs@) =~= entries_of(libs@) + Seq::<(Seq<char>, Seq<char>)>::empty());
        },
        Some(j) => {
            proof {
                lemma_unseen_insert(ps@, seen0, name@);
            }
            let ghost before = entries_of(libs@);
            if ps[j].1.manifest.lib.is_some() {
                let e = (library_name(name), name.to_string());
                libs.push(e);
            }
            let ghost mid = entries_of(libs@);
            proof {
                if has_lib(ps@, name@) {
                    assert(mid =~= before + seq![lib_entry(name@)]);
                } else {
                    assert(mid =~= before + Seq::<(Seq<char>, Seq<char>)>::empty());
                }
            }
            collect_libs_list(&ps[j].1.dependencies, ps, libs, visited);
            proof {
                let rest = libs_from_list(ps@, dep_texts(ps@[j as int].1), seen0.insert(name@));
                assert(dep_texts(ps@[j as int].1) == names_of(ps@[j as int].1.dependencies@));
                assert(entries_of(libs@) =~= before + ((if has_lib(ps@, name@) {
                    seq![lib_entry(name@)]
                } else {
                    Seq::empty()
                }) + rest.0));
            }
        },
    }
}

/// Add the libraries found from the packages named by `deps`, one after the other.
fn collect_libs_list(
    deps: &Vec<String>,
    ps: &Vec<(String, ResolvedPackage)>,
    libs: &mut Vec<(String, String)>,
    visited: &mut Vec<String>,
)
    ensures
        entries_of(final(libs)@) == entries_of(old(libs)@) + libs_from_list(ps@, names_of(deps@), seen_of(old(visited)@)).0,
        seen_of(final(visited)@) == libs_from_list(ps@, names_of(deps@), seen_of(old(visited)@)).1,
        seen_of(old(visited)@).subset_of(seen_of(final(visited)@)),
    decreases unseen(ps@, seen_of(old(visited)@)), 1nat, deps@.len(),
{
    let ghost ds = names_of(deps@);
    let ghost seen0 = seen_of(visited@);
    let ghost libs0 = entries_of(libs@);
    let n = deps.len();
    let mut i: usize = 0;
    proof {
        assert(ds.skip(0) =~= ds);
        assert(libs0 =~= libs0 + Seq::<(Seq<char>, Seq<char>)>::empty());
    }
    while i < n
        invariant
            n == deps@.len(),
            ds == names_of(deps@),
            i <= n,
            seen0 == seen_of(old(visited)@),
            libs0 == entries_of(old(libs)@),
            seen0.subset_of(seen_of(visited@)),
            libs_from_list(ps@, ds, seen0).0 == (entries_of(libs@) + libs_from_list(ps@, ds.skip(i as int), seen_of(visited@)).0).skip(libs0.len() as int),
            entries_of(libs@).take(libs0.len() as int) == libs0,
            libs0.len() <= entries_of(libs@).len(),
            libs_from_list(ps@, ds, seen0).1 == libs_from_list(ps@, ds.skip(i as int), seen_of(visited@)).1,
        decreases n - i,
    {
        let name = str_first_field(deps[i].as_str(), ' ');
        let ghost seen_now = seen_of(visited@);
        let ghost libs_now = entries_of(libs@);
        let ghost rest = ds.skip(i as int);
        proof {
            assert(rest[0] == deps@[i as int]@);
            assert(rest.drop_first() =~= ds.skip(i + 1));
            lemma_unseen_mono(ps@, seen0, seen_now);
        }
        collect_libs(name, ps, libs, visited);
        proof {
            let first = libs_from(ps@, name@, seen_now);
            let after = libs_from_list(ps@, ds.skip(i + 1), seen_of(visited@));
            assert(libs_from_list(ps@, rest, seen_now) == (first.0 + after.0, after.1));
            assert(entries_of(libs@) =~= libs_now + first.0);
            assert((libs_now + libs_from_list(ps@, rest, seen_now).0) =~= (entries_of(libs@) + after.0));
            assert(entries_of(libs@).take(libs0.len() as int) =~= libs_now.take(libs0.len() as int));
            assert(seen0.subset_of(seen_of(visited@)));
        }
        i = i + 1;
    }
    proof {
        assert(ds.skip(n as int) =~= Seq::<Seq<char>>::empty());
        let e = entries_of(libs@);
        assert((e + Seq::<(Seq<char>, Seq<char>)>::empty()).skip(libs0.len() as int) =~= e.skip(libs0.len() as int));
        assert(e =~= libs0 + e.skip(libs0.len() as int));
    }
}

/// The libraries, each as its library name and its package name, that the inline
/// tests of `package` are linked against: those of the packages it depends on,
/// directly or through other packages, in the order a depth-first walk meets them,
/// each library once.
pub fn inline_test_libs(package: &ResolvedPackage, workspace: &ResolvedWorkspace) -> (r: Vec<(String, String)>)
    ensures
        entries_of(r@) == first_of_each(
            libs_from_list(workspace.packages@, dep_texts(*package), Set::empty()).0,
        ),
{
    let mut libs: Vec<(String, String)> = Vec::new();
    let mut visited: Vec<String> = Vec::new();
    proof {
        assert(seen_of(visited@) =~= Set::<Seq<char>>::empty());
    }
    collect_libs_list(&package.dependencies, &workspace.packages, &mut libs, &mut visited);
    proof {
        assert(entries_of(libs@) =~= Seq::<(Seq<char>, Seq<char>)>::empty() + libs_from_list(workspace.packages@, dep_texts(*package), Set::empty()).0);
    }
    keep_first_of_each(libs)
}
/// The library name of a package writes each `-` of the package name as `_` and
/// keeps every other character where it is; so it holds no `-`.
pub proof fn lemma_library_name_chars(name: Seq<char>)
    ensures
        lib_name(name).len() == name.len(),
        forall|i: int| 0 <= i < name.len() && name[i] == '-' ==> lib_name(name)[i] == '_',
        forall|i: int| 0 <= i < name.len() && name[i] != '-' ==> lib_name(name)[i] == name[i],
        !lib_name(name).contains('-'),
{
}

/// The lines of a test run that report results count one by one: over two runs of
/// lines the counts add up, and a single line counts as passed exactly when it holds
/// `... ok`, and as failed exactly when it holds `... FAILED` but not `... ok`; any
/// other line (an ignored test, say) adds to neither count.
pub proof fn lemma_result_lines_count(a: Seq<Seq<char>>, b: Seq<Seq<char>>, l: Seq<char>)
    ensures
        passed_lines(a + b) == passed_lines(a) + passed_lines(b),
        failed_lines(a + b) == failed_lines(a) + failed_lines(b),
        passed_lines(seq![l]) == (if contains_text(l, "... ok"@) { 1nat } else { 0nat }),
        failed_lines(seq![l]) == (if !contains_text(l, "... ok"@) && contains_text(l, "... FAILED"@) {
            1nat
        } else {
            0nat
        }),
        !contains_text(l, "... ok"@) && !contains_text(l, "... FAILED"@) ==> passed_lines(seq![l] + b)
            == passed_lines(b) && failed_lines(seq![l] + b) == failed_lines(b),
    decreases a.len(),
{
    if a.len() > 0 {
        lemma_result_lines_count(a.drop_first(), b, l);
        assert((a + b).drop_first() =~= a.drop_first() + b);
        assert((a + b)[0] == a[0]);
    } else {
        assert(a + b =~= b);
    }
    assert(seq![l].drop_first() =~= Seq::<Seq<char>>::empty());
    assert(passed_lines(Seq::<Seq<char>>::empty()) == 0);
    assert(failed_lines(Seq::<Seq<char>>::empty()) == 0);
    assert((seq![l] + b).drop_first() =~= b);
    assert((seq![l] + b)[0] == l);
}

/// The summary a test run's output is read from is its last summary line: over two
/// runs of lines it is the one of the second run when that has one, else the one of
/// the first; and a single line is the summary exactly when it is a summary line.
pub proof fn lemma_last_summary_is_the_last(a: Seq<Seq<char>>, b: Seq<Seq<char>>, l: Seq<char>)
    ensures
        last_summary(a + b) == match last_summary(b) {
            Some(x) => Some(x),
            None => last_summary(a),
        },
        last_summary(seq![l]) == if summary_line(l) {
            Some(l)
        } else {
            None::<Seq<char>>
        },
    decreases a.len(),
{
    if a.len() > 0 {
        lemma_last_summary_is_the_last(a.drop_first(), b, l);
        assert((a + b).drop_first() =~= a.drop_first() + b);
        assert((a + b)[0] == a[0]);
    } else {
        assert(a + b =~= b);
    }
    assert(seq![l].drop_first() =~= Seq::<Seq<char>>::empty());
    assert(last_summary(Seq::<Seq<char>>::empty()) is None);
}

/// A summary line gives for `w` the number written right before the first `w`, after a
/// space or at the start of the line: for `a + d + w + b`, where `a` is empty or ends
/// with a space, `d` is decimal digits (of a value that fits a `usize`) and `w` first
/// occurs right after `d`, the count is the value of `d`.
pub proof fn lemma_count_before_reads_the_number(
    a: Seq<char>,
    d: Seq<char>,
    w: Seq<char>,
    b: Seq<char>,
)
    requires
        a.len() == 0 || a.last() == ' ',
        d.len() > 0,
        forall|j: int| 0 <= j < d.len() ==> is_digit(#[trigger] d[j]),
        decimal_value(d) <= usize::MAX,
        first_occurrence(a + d + w + b, w, (a.len() + d.len()) as int),
    ensures
        count_before(a + d + w + b, w) == decimal_value(d),
{
    let line = a + d + w + b;
    let k = (a.len() + d.len()) as int;
    let c = choose|c: int| first_occurrence(line, w, c);
    lemma_first_occurrence_unique(line, w, c, k);
    assert(line.take(k) =~= a + d);
    assert forall|j: int| a.len() <= j < (a + d).len() implies (a + d)[j] != ' ' by {
        assert((a + d)[j] == d[j - a.len()]);
        assert(is_digit(d[j - a.len()]));
    }
    if a.len() > 0 {
        assert((a + d)[a.len() - 1] == a.last());
    }
    lemma_after_last(a + d, ' ', a.len() as int);
    assert((a + d).skip(a.len() as int) =~= d);
    assert(is_digit(d[0]));
    assert(is_digit(d.last()));
    assert(trim_start(d) == d);
    assert(trim_end(d) == d);
    assert forall|j: int| 0 <= j < d.len() implies #[trigger] digit_pred()(d[j]) by {
        assert(is_digit(d[j]));
    }
    lemma_run_len(d, digit_pred(), d.len() as int);
}

/// With a space right before the first `w`, a summary line gives no number for `w`:
/// the count is 0.
pub proof fn lemma_count_before_space_is_zero(a: Seq<char>, w: Seq<char>, b: Seq<char>)
    requires
        first_occurrence(a + seq![' '] + w + b, w, a.len() + 1int),
    ensures
        count_before(a + seq![' '] + w + b, w) == 0,
{
    let line = a + seq![' '] + w + b;
    let k = a.len() + 1int;
    let c = choose|c: int| first_occurrence(line, w, c);
    lemma_first_occurrence_unique(line, w, c, k);
    assert(line.take(k) =~= a + seq![' ']);
    assert((a + seq![' ']).last() == ' ');
    assert(after_last(a + seq![' '], ' ') == Seq::<char>::empty());
    assert(trim_start(Seq::<char>::empty()) == Seq::<char>::empty());
    assert(trim_end(Seq::<char>::empty()) == Seq::<char>::empty());
}

} // verus!
