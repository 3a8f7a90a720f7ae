//! Parser combinators for composing parsers.
//!
//! Each combinator's contract describes the parser it returns in terms of what
//! the parsers it was built from may return (their `ensures`), so that it holds
//! of any parser, deterministic or not.

use crate::parsing::error::ParseError;
use crate::parsing::input::{Input, ParseResult};
use vstd::prelude::*;
use vstd::string::*;

verus! {

/// Every input is acceptable to parser `p`.
pub open spec fn total<'a, T, P: Fn(Input<'a>) -> ParseResult<'a, T>>(p: P) -> bool {
    forall|i: Input<'a>| #[trigger] p.requires((i,))
}

/// Whenever `p` succeeds, the rest it leaves is no longer than its input.
pub open spec fn no_growth<'a, T, P: Fn(Input<'a>) -> ParseResult<'a, T>>(p: P) -> bool {
    forall|i: Input<'a>, r: ParseResult<'a, T>| #[trigger] p.ensures((i,), r) && r is Ok ==> r->Ok_0.0@.len() <= i@.len()
}

/// Whenever `p` succeeds, the rest it leaves is shorter than its input.
pub open spec fn progresses<'a, T, P: Fn(Input<'a>) -> ParseResult<'a, T>>(p: P) -> bool {
    forall|i: Input<'a>, r: ParseResult<'a, T>| #[trigger] p.ensures((i,), r) && r is Ok ==> r->Ok_0.0@.len() < i@.len()
}

/// `p` may fail on input `i`.
pub open spec fn may_fail<'a, T, P: Fn(Input<'a>) -> ParseResult<'a, T>>(p: P, i: Input<'a>) -> bool {
    exists|e: ParseError| #[trigger] p.ensures((i,), Err(e))
}

/// `r` is an error with `msg` at line 1, column 1.
pub open spec fn is_error_at_start(e: ParseError, msg: Seq<char>) -> bool {
    e.message@ == msg && e.line == 1 && e.column == 1
}

/// What `opt(p)` returns on `i`.
pub open spec fn opt_result<'a, T, P: Fn(Input<'a>) -> ParseResult<'a, T>>(
    p: P,
    i: Input<'a>,
    r: ParseResult<'a, Option<T>>,
) -> bool {
    &&& r is Ok
    &&& match r->Ok_0.1 {
        Some(v) => p.ensures((i,), Ok((r->Ok_0.0, v))),
        None => r->Ok_0.0 == i && may_fail(p, i),
    }
}

/// Make a parser optional: it never fails, and leaves the input unchanged when `p` fails.
pub fn opt<'a, T>(parser: impl Fn(Input<'a>) -> ParseResult<'a, T>) -> (f: impl Fn(Input<'a>) -> ParseResult<'a, Option<T>>)
    requires
        total(parser),
    ensures
        forall|i: Input<'a>| #[trigger] f.requires((i,)),
        forall|i: Input<'a>, r| #[trigger] f.ensures((i,), r) ==> opt_result(parser, i, r),
{
    move |input: Input<'a>| -> (r: ParseResult<'a, Option<T>>)
        ensures
            opt_result(parser, input, r),
    {
        let r0 = parser(input);
        match r0 {
            Ok((rest, value)) => Ok((rest, Some(value))),
            Err(e) => {
                assert(parser.ensures((input,), Err(e)));
                Ok((input, None))
            }
        }
    }
}

/// `mids` and `items` record `p` succeeding `items.len()` times in a row from `mids[0]`,
/// the `k`th time on `mids[k]`, leaving `mids[k + 1]` and yielding `items[k]`.
pub open spec fn chain<'a, T, P: Fn(Input<'a>) -> ParseResult<'a, T>>(
    p: P,
    mids: Seq<Input<'a>>,
    items: Seq<T>,
) -> bool {
    &&& mids.len() == items.len() + 1
    &&& forall|k: int| 0 <= k < items.len() ==> #[trigger] p.ensures((mids[k],), Ok((mids[k + 1], items[k])))
}

/// What `many(p)` returns on `i`: as many successes of `p` as follow each other, up to a failure.
pub open spec fn many_result<'a, T, P: Fn(Input<'a>) -> ParseResult<'a, T>>(
    p: P,
    i: Input<'a>,
    r: ParseResult<'a, Vec<T>>,
) -> bool {
    &&& r is Ok
    &&& exists|mids: Seq<Input<'a>>| {
        &&& #[trigger] chain(p, mids, r->Ok_0.1@)
        &&& mids[0] == i
        &&& mids.last() == r->Ok_0.0
    }
    &&& may_fail(p, r->Ok_0.0)
}

/// Parse zero or more occurrences.
pub fn many<'a, T>(parser: impl Fn(Input<'a>) -> ParseResult<'a, T>) -> (f: impl Fn(Input<'a>) -> ParseResult<'a, Vec<T>>)
    requires
        total(parser),
        progresses(parser),
    ensures
        forall|i: Input<'a>| #[trigger] f.requires((i,)),
        forall|i: Input<'a>, r| #[trigger] f.ensures((i,), r) ==> many_result(parser, i, r),
{
    move |input: Input<'a>| -> (r: ParseResult<'a, Vec<T>>)
        ensures
            many_result(parser, input, r),
    {
        let mut results: Vec<T> = Vec::new();
        let mut rest = input;
        let ghost mut mids: Seq<Input<'a>> = seq![input];
        loop
            invariant
                total(parser),
                progresses(parser),
                chain(parser, mids, results@),
                mids[0] == input,
                mids.last() == rest,
            decreases rest@.len(),
        {
            let r0 = parser(rest);
            match r0 {
                Ok((next, value)) => {
                    assert(parser.ensures((rest,), Ok((next, value))));
                    proof {
                        mids = mids.push(next);
                    }
                    results.push(value);
                    assert(chain(parser, mids, results@));
                    rest = next;
                }
                Err(e) => {
                    assert(parser.ensures((rest,), Err(e)));
                    let r: ParseResult<'a, Vec<T>> = Ok((rest, results));
                    assert(chain(parser, mids, r->Ok_0.1@) && mids[0] == input && mids.last() == r->Ok_0.0);
                    assert(may_fail(parser, r->Ok_0.0));
                    return r;
                }
            }
        }
    }
}


/// What `many1(p)` returns on `i`: the error of `p` when it fails at once, else as `many`.
pub open spec fn many1_result<'a, T, P: Fn(Input<'a>) -> ParseResult<'a, T>>(
    p: P,
    i: Input<'a>,
    r: ParseResult<'a, Vec<T>>,
) -> bool {
    match r {
        Err(e) => p.ensures((i,), Err(e)),
        Ok(_) => many_result(p, i, r) && r->Ok_0.1@.len() >= 1,
    }
}

/// `p` gives one result for each input.
pub open spec fn deterministic<'a, T, P: Fn(Input<'a>) -> ParseResult<'a, T>>(p: P) -> bool {
    forall|i: Input<'a>, r1: ParseResult<'a, T>, r2: ParseResult<'a, T>|
        #![trigger p.ensures((i,), r1), p.ensures((i,), r2)]
        p.ensures((i,), r1) && p.ensures((i,), r2) ==> r1 == r2
}

/// Once `p` succeeds on `i`, `many1(p)` and `many(p)` give the same results on `i`,
/// and those hold at least one item; when `p` fails on `i`, `many1(p)` gives
/// exactly `p`'s error.
pub proof fn lemma_many1_agrees_with_many<'a, T, P: Fn(Input<'a>) -> ParseResult<'a, T>>(
    p: P,
    i: Input<'a>,
    first: ParseResult<'a, T>,
    r: ParseResult<'a, Vec<T>>,
)
    requires
        deterministic(p),
        p.ensures((i,), first),
    ensures
        first is Ok ==> (many1_result(p, i, r) <==> many_result(p, i, r)),
        first is Ok && many_result(p, i, r) ==> r->Ok_0.1@.len() >= 1,
        first is Err ==> (many1_result(p, i, r) <==> r == ParseResult::<'a, Vec<T>>::Err(first->Err_0)),
{
    if first is Ok && many_result(p, i, r) {
        let mids = choose|mids: Seq<Input<'a>>| {
            &&& #[trigger] chain(p, mids, r->Ok_0.1@)
            &&& mids[0] == i
            &&& mids.last() == r->Ok_0.0
        };
        if r->Ok_0.1@.len() == 0 {
            let e = choose|e: ParseError| #[trigger] p.ensures((r->Ok_0.0,), Err(e));
            assert(p.ensures((i,), Err(e)));
        }
    }
    if first is Err && many1_result(p, i, r) && r is Ok {
        assert(many_result(p, i, r));
        assert(r->Ok_0.1@.len() >= 1);
        let mids = choose|mids: Seq<Input<'a>>| {
            &&& #[trigger] chain(p, mids, r->Ok_0.1@)
            &&& mids[0] == i
            &&& mids.last() == r->Ok_0.0
        };
        assert(chain(p, mids, r->Ok_0.1@));
        assert(p.ensures((mids[0],), Ok((mids[0int + 1], r->Ok_0.1@[0]))));
    }
}

/// Parse one or more occurrences.
pub fn many1<'a, T>(parser: impl Fn(Input<'a>) -> ParseResult<'a, T>) -> (f: impl Fn(Input<'a>) -> ParseResult<'a, Vec<T>>)
    requires
        total(parser),
        progresses(parser),
    ensures
        forall|i: Input<'a>| #[trigger] f.requires((i,)),
        forall|i: Input<'a>, r| #[trigger] f.ensures((i,), r) ==> many1_result(parser, i, r),
{
    move |input: Input<'a>| -> (r: ParseResult<'a, Vec<T>>)
        ensures
            many1_result(parser, input, r),
    {
        let mut results: Vec<T> = Vec::new();
        let first = parser(input);
        let mut rest = match first {
            Ok((next, value)) => {
                assert(parser.ensures((input,), Ok((next, value))));
                results.push(value);
                next
            }
            Err(e) => {
                assert(parser.ensures((input,), Err(e)));
                return Err(e);
            }
        };
        let ghost mut mids: Seq<Input<'a>> = seq![input, rest];
        assert(chain(parser, mids, results@));
        loop
            invariant
                total(parser),
                progresses(parser),
                chain(parser, mids, results@),
                results@.len() >= 1,
                mids[0] == input,
                mids.last() == rest,
            decreases rest@.len(),
        {
            let r0 = parser(rest);
            match r0 {
                Ok((next, value)) => {
                    assert(parser.ensures((rest,), Ok((next, value))));
                    proof {
                        mids = mids.push(next);
                    }
                    results.push(value);
                    assert(chain(parser, mids, results@));
                    rest = next;
                }
                Err(e) => {
                    assert(parser.ensures((rest,), Err(e)));
                    let r: ParseResult<'a, Vec<T>> = Ok((rest, results));
                    assert(chain(parser, mids, r->Ok_0.1@) && mids[0] == input && mids.last() == r->Ok_0.0);
                    assert(may_fail(parser, r->Ok_0.0));
                    return r;
                }
            }
        }
    }
}

/// What `pair(p1, p2)` returns on `i`: `p1`, then `p2` on what `p1` left.
pub open spec fn pair_result<'a, T1, T2, P1: Fn(Input<'a>) -> ParseResult<'a, T1>, P2: Fn(Input<'a>) -> ParseResult<'a, T2>>(
    p1: P1,
    p2: P2,
    i: Input<'a>,
    r: ParseResult<'a, (T1, T2)>,
) -> bool {
    match r {
        Ok((rest, (t1, t2))) => exists|mid: Input<'a>|
            #[trigger] p1.ensures((i,), Ok((mid, t1))) && p2.ensures((mid,), Ok((rest, t2))),
        Err(e) => p1.ensures((i,), Err(e)) || exists|mid: Input<'a>, t1: T1|
            #[trigger] p1.ensures((i,), Ok((mid, t1))) && p2.ensures((mid,), Err(e)),
    }
}

/// Parse two parsers in sequence and return both results.
pub fn pair<'a, T1, T2>(
    p1: impl Fn(Input<'a>) -> ParseResult<'a, T1>,
    p2: impl Fn(Input<'a>) -> ParseResult<'a, T2>,
) -> (f: impl Fn(Input<'a>) -> ParseResult<'a, (T1, T2)>)
    requires
        total(p1),
        total(p2),
    ensures
        forall|i: Input<'a>| #[trigger] f.requires((i,)),
        forall|i: Input<'a>, r| #[trigger] f.ensures((i,), r) ==> pair_result(p1, p2, i, r),
{
    move |input: Input<'a>| -> (r: ParseResult<'a, (T1, T2)>)
        ensures
            pair_result(p1, p2, input, r),
    {
        let r1 = p1(input);
        match r1 {
            Err(e) => {
                assert(p1.ensures((input,), Err(e)));
                Err(e)
            }
            Ok((mid, t1)) => {
                assert(p1.ensures((input,), Ok((mid, t1))));
                let r2 = p2(mid);
                match r2 {
                    Err(e) => {
                        assert(p2.ensures((mid,), Err(e)));
                        assert(exists|m: Input<'a>, t: T1| #[trigger] p1.ensures((input,), Ok((m, t))) && p2.ensures((m,), Err(e)));
                        Err(e)
                    }
                    Ok((rest, t2)) => {
                        assert(p2.ensures((mid,), Ok((rest, t2))));
                        assert(exists|m: Input<'a>| #[trigger] p1.ensures((input,), Ok((m, t1))) && p2.ensures((m,), Ok((rest, t2))));
                        let res: ParseResult<'a, (T1, T2)> = Ok((rest, (t1, t2)));
                        assert(res->Ok_0.1.0 == t1 && res->Ok_0.1.1 == t2 && res->Ok_0.0 == rest);
                        res
                    }
                }
            }
        }
    }
}

/// What `tuple3(p1, p2, p3)` returns on `i`: the three parsers in sequence.
pub open spec fn tuple3_result<'a, T1, T2, T3, P1, P2, P3>(
    p1: P1,
    p2: P2,
    p3: P3,
    i: Input<'a>,
    r: ParseResult<'a, (T1, T2, T3)>,
) -> bool where
    P1: Fn(Input<'a>) -> ParseResult<'a, T1>,
    P2: Fn(Input<'a>) -> ParseResult<'a, T2>,
    P3: Fn(Input<'a>) -> ParseResult<'a, T3>,
 {
    match r {
        Ok((rest, (t1, t2, t3))) => exists|m1: Input<'a>, m2: Input<'a>|
            #[trigger] p1.ensures((i,), Ok((m1, t1))) && #[trigger] p2.ensures((m1,), Ok((m2, t2)))
                && p3.ensures((m2,), Ok((rest, t3))),
        Err(e) => {
            ||| p1.ensures((i,), Err(e))
            ||| exists|m1: Input<'a>, t1: T1| #[trigger] p1.ensures((i,), Ok((m1, t1))) && p2.ensures((m1,), Err(e))
            ||| exists|m1: Input<'a>, t1: T1, m2: Input<'a>, t2: T2|
                #[trigger] p1.ensures((i,), Ok((m1, t1))) && #[trigger] p2.ensures((m1,), Ok((m2, t2)))
                    && p3.ensures((m2,), Err(e))
        },
    }
}

/// Parse three parsers in sequence.
pub fn tuple3<'a, T1, T2, T3>(
    p1: impl Fn(Input<'a>) -> ParseResult<'a, T1>,
    p2: impl Fn(Input<'a>) -> ParseResult<'a, T2>,
    p3: impl Fn(Input<'a>) -> ParseResult<'a, T3>,
) -> (f: impl Fn(Input<'a>) -> ParseResult<'a, (T1, T2, T3)>)
    requires
        total(p1),
        total(p2),
        total(p3),
    ensures
        forall|i: Input<'a>| #[trigger] f.requires((i,)),
        forall|i: Input<'a>, r| #[trigger] f.ensures((i,), r) ==> tuple3_result(p1, p2, p3, i, r),
{
    move |input: Input<'a>| -> (r: ParseResult<'a, (T1, T2, T3)>)
        ensures
            tuple3_result(p1, p2, p3, input, r),
    {
        let r1 = p1(input);
        let (m1, t1) = match r1 {
            Err(e) => {
                assert(p1.ensures((input,), Err(e)));
                return Err(e);
            }
            Ok(x) => x,
        };
        assert(p1.ensures((input,), Ok((m1, t1))));
        let r2 = p2(m1);
        let (m2, t2) = match r2 {
            Err(e) => {
                assert(p2.ensures((m1,), Err(e)));
                assert(exists|m: Input<'a>, t: T1| #[trigger] p1.ensures((input,), Ok((m, t))) && p2.ensures((m,), Err(e)));
                return Err(e);
            }
            Ok(x) => x,
        };
        assert(p2.ensures((m1,), Ok((m2, t2))));
        let r3 = p3(m2);
        match r3 {
            Err(e) => {
                assert(p3.ensures((m2,), Err(e)));
                assert(exists|a: Input<'a>, t: T1, b: Input<'a>, u: T2|
                    #[trigger] p1.ensures((input,), Ok((a, t))) && #[trigger] p2.ensures((a,), Ok((b, u)))
                        && p3.ensures((b,), Err(e)));
                Err(e)
            }
            Ok((rest, t3)) => {
                assert(p3.ensures((m2,), Ok((rest, t3))));
                assert(exists|a: Input<'a>, b: Input<'a>|
                    #[trigger] p1.ensures((input,), Ok((a, t1))) && #[trigger] p2.ensures((a,), Ok((b, t2)))
                        && p3.ensures((b,), Ok((rest, t3))));
                let res: ParseResult<'a, (T1, T2, T3)> = Ok((rest, (t1, t2, t3)));
                assert(res->Ok_0.1.0 == t1 && res->Ok_0.1.1 == t2 && res->Ok_0.1.2 == t3 && res->Ok_0.0 == rest);
                res
            }
        }
    }
}


/// `mids`, `afters`, `seps` and `items` record a list parse from `mids[0]`: the item
/// parser `p` yields `items[0]` leaving `mids[1]`, and for each later `k` the
/// separator yields `seps[k]` on `mids[k]` leaving `afters[k]`, on which `p` yields
/// `items[k]` leaving `mids[k + 1]`.
pub open spec fn list_chain<'a, T, D, S, P>(
    sep: S,
    p: P,
    mids: Seq<Input<'a>>,
    afters: Seq<Input<'a>>,
    seps: Seq<D>,
    items: Seq<T>,
) -> bool where S: Fn(Input<'a>) -> ParseResult<'a, D>, P: Fn(Input<'a>) -> ParseResult<'a, T> {
    &&& items.len() >= 1
    &&& mids.len() == items.len() + 1
    &&& afters.len() == items.len()
    &&& seps.len() == items.len()
    &&& p.ensures((mids[0],), Ok((mids[1], items[0])))
    &&& forall|k: int|
        1 <= k < items.len() ==> #[trigger] sep.ensures((mids[k],), Ok((afters[k], seps[k])))
            && p.ensures((afters[k],), Ok((mids[k + 1], items[k])))
}

/// The list ends at `rest`: the separator fails there, or the item after it fails.
pub open spec fn list_stops<'a, T, D, S, P>(sep: S, p: P, rest: Input<'a>) -> bool where
    S: Fn(Input<'a>) -> ParseResult<'a, D>,
    P: Fn(Input<'a>) -> ParseResult<'a, T>,
 {
    ||| may_fail(sep, rest)
    ||| exists|a: Input<'a>, d: D| #[trigger] sep.ensures((rest,), Ok((a, d))) && may_fail(p, a)
}

/// What `separated_list(sep, p)` returns on `i`: it never fails; with no first item
/// it leaves `i` whole, else it takes items separated by `sep` for as long as both succeed.
pub open spec fn separated_list_result<'a, T, D, S, P>(
    sep: S,
    p: P,
    i: Input<'a>,
    r: ParseResult<'a, Vec<T>>,
) -> bool where S: Fn(Input<'a>) -> ParseResult<'a, D>, P: Fn(Input<'a>) -> ParseResult<'a, T> {
    &&& r is Ok
    &&& if r->Ok_0.1@.len() == 0 {
        r->Ok_0.0 == i && may_fail(p, i)
    } else {
        &&& exists|mids: Seq<Input<'a>>, afters: Seq<Input<'a>>, seps: Seq<D>| {
            &&& #[trigger] list_chain(sep, p, mids, afters, seps, r->Ok_0.1@)
            &&& mids[0] == i
            &&& mids.last() == r->Ok_0.0
        }
        &&& list_stops(sep, p, r->Ok_0.0)
    }
}

/// Parse items with a separator between them.
#[verifier::spinoff_prover]
pub fn separated_list<'a, T, D>(
    sep: impl Fn(Input<'a>) -> ParseResult<'a, D>,
    parser: impl Fn(Input<'a>) -> ParseResult<'a, T>,
) -> (f: impl Fn(Input<'a>) -> ParseResult<'a, Vec<T>>)
    requires
        total(sep),
        total(parser),
        no_growth(sep),
        no_growth(parser),
        progresses(sep) || progresses(parser),
    ensures
        forall|i: Input<'a>| #[trigger] f.requires((i,)),
        forall|i: Input<'a>, r| #[trigger] f.ensures((i,), r) ==> separated_list_result(sep, parser, i, r),
{
    move |input: Input<'a>| -> (r: ParseResult<'a, Vec<T>>)
        ensures
            separated_list_result(sep, parser, input, r),
    {
        let mut results: Vec<T> = Vec::new();
        let first = parser(input);
        let mut rest = match first {
            Ok((next, value)) => {
                assert(parser.ensures((input,), Ok((next, value))));
                results.push(value);
                next
            }
            Err(e) => {
                assert(parser.ensures((input,), Err(e)));
                return Ok((input, results));
            }
        };
        let ghost mut mids: Seq<Input<'a>> = seq![input, rest];
        let ghost mut afters: Seq<Input<'a>> = seq![input];
        let ghost mut seps: Seq<D> = seq![arbitrary()];
        assert(list_chain(sep, parser, mids, afters, seps, results@));
        loop
            invariant
                total(sep),
                total(parser),
                no_growth(sep),
                no_growth(parser),
                progresses(sep) || progresses(parser),
                list_chain(sep, parser, mids, afters, seps, results@),
                mids[0] == input,
                mids.last() == rest,
            decreases rest@.len(),
        {
            let rs = sep(rest);
            match rs {
                Ok((after, d)) => {
                    assert(sep.ensures((rest,), Ok((after, d))));
                    let rp = parser(after);
                    match rp {
                        Ok((next, value)) => {
                            assert(parser.ensures((after,), Ok((next, value))));
                            proof {
                                mids = mids.push(next);
                                afters = afters.push(after);
                                seps = seps.push(d);
                            }
                            results.push(value);
                            assert(list_chain(sep, parser, mids, afters, seps, results@));
                            rest = next;
                        }
                        Err(e) => {
                            assert(parser.ensures((after,), Err(e)));
                            assert(may_fail(parser, after));
                            assert(list_stops(sep, parser, rest));
                            let r: ParseResult<'a, Vec<T>> = Ok((rest, results));
                            assert(list_chain(sep, parser, mids, afters, seps, r->Ok_0.1@));
                            return r;
                        }
                    }
                }
                Err(e) => {
                    assert(sep.ensures((rest,), Err(e)));
                    assert(list_stops(sep, parser, rest));
                    let r: ParseResult<'a, Vec<T>> = Ok((rest, results));
                    assert(list_chain(sep, parser, mids, afters, seps, r->Ok_0.1@));
                    return r;
                }
            }
        }
    }
}

/// What `map(p, g)` returns on `i`: the result of `p` with its value passed through `g`.
pub open spec fn map_result<'a, I, O, P: Fn(Input<'a>) -> ParseResult<'a, I>, G: Fn(I) -> O>(
    p: P,
    g: G,
    i: Input<'a>,
    r: ParseResult<'a, O>,
) -> bool {
    match r {
        Ok((rest, o)) => exists|v: I| #[trigger] p.ensures((i,), Ok((rest, v))) && g.ensures((v,), o),
        Err(e) => p.ensures((i,), Err(e)),
    }
}

/// Transform the output of a parser.
pub fn map<'a, I, O>(
    parser: impl Fn(Input<'a>) -> ParseResult<'a, I>,
    f: impl Fn(I) -> O,
) -> (m: impl Fn(Input<'a>) -> ParseResult<'a, O>)
    requires
        total(parser),
        forall|v: I| #[trigger] f.requires((v,)),
    ensures
        forall|i: Input<'a>| #[trigger] m.requires((i,)),
        forall|i: Input<'a>, r| #[trigger] m.ensures((i,), r) ==> map_result(parser, f, i, r),
{
    move |input: Input<'a>| -> (r: ParseResult<'a, O>)
        ensures
            map_result(parser, f, input, r),
    {
        let r0 = parser(input);
        match r0 {
            Ok((rest, value)) => {
                assert(parser.ensures((input,), Ok((rest, value))));
                let ghost v = value;
                let o = f(value);
                assert(f.ensures((v,), o));
                let res: ParseResult<'a, O> = Ok((rest, o));
                assert(res->Ok_0.1 == o && res->Ok_0.0 == rest);
                res
            }
            Err(e) => {
                assert(parser.ensures((input,), Err(e)));
                Err(e)
            }
        }
    }
}

/// What `value(val, p)` returns on `i`: the rest `p` leaves and a clone of `val`.
pub open spec fn value_result<'a, T: Clone, I, P: Fn(Input<'a>) -> ParseResult<'a, I>>(
    val: T,
    p: P,
    i: Input<'a>,
    r: ParseResult<'a, T>,
) -> bool {
    match r {
        Ok((rest, t)) => cloned(val, t) && exists|v: I| #[trigger] p.ensures((i,), Ok((rest, v))),
        Err(e) => p.ensures((i,), Err(e)),
    }
}

/// Ignore the output of a parser and return a constant value.
pub fn value<'a, T, I>(
    val: T,
    parser: impl Fn(Input<'a>) -> ParseResult<'a, I>,
) -> (f: impl Fn(Input<'a>) -> ParseResult<'a, T>)
    where
        T: Clone,
    requires
        total(parser),
    ensures
        forall|i: Input<'a>| #[trigger] f.requires((i,)),
        forall|i: Input<'a>, r| #[trigger] f.ensures((i,), r) ==> value_result(val, parser, i, r),
{
    move |input: Input<'a>| -> (r: ParseResult<'a, T>)
        ensures
            value_result(val, parser, input, r),
    {
        let r0 = parser(input);
        match r0 {
            Ok((rest, v)) => {
                assert(parser.ensures((input,), Ok((rest, v))));
                let t = val.clone();
                let res: ParseResult<'a, T> = Ok((rest, t));
                assert(res->Ok_0.1 == t && res->Ok_0.0 == rest);
                res
            }
            Err(e) => {
                assert(parser.ensures((input,), Err(e)));
                Err(e)
            }
        }
    }
}

/// What `ignore(p)` returns on `i`: the rest `p` leaves, or its error.
pub open spec fn ignore_result<'a, I, P: Fn(Input<'a>) -> ParseResult<'a, I>>(
    p: P,
    i: Input<'a>,
    r: ParseResult<'a, ()>,
) -> bool {
    match r {
        Ok((rest, _)) => exists|v: I| #[trigger] p.ensures((i,), Ok((rest, v))),
        Err(e) => p.ensures((i,), Err(e)),
    }
}

/// Run the parser but discard its result.
pub fn ignore<'a, I>(parser: impl Fn(Input<'a>) -> ParseResult<'a, I>) -> (f: impl Fn(Input<'a>) -> ParseResult<'a, ()>)
    requires
        total(parser),
    ensures
        forall|i: Input<'a>| #[trigger] f.requires((i,)),
        forall|i: Input<'a>, r| #[trigger] f.ensures((i,), r) ==> ignore_result(parser, i, r),
{
    move |input: Input<'a>| -> (r: ParseResult<'a, ()>)
        ensures
            ignore_result(parser, input, r),
    {
        let r0 = parser(input);
        match r0 {
            Ok((rest, v)) => {
                assert(parser.ensures((input,), Ok((rest, v))));
                let res: ParseResult<'a, ()> = Ok((rest, ()));
                assert(res->Ok_0.0 == rest);
                res
            }
            Err(e) => {
                assert(parser.ensures((input,), Err(e)));
                Err(e)
            }
        }
    }
}

/// `e` is the error `inner` with `msg` and `": "` put before its message, at the
/// same line and column.
pub open spec fn is_prefixed_error(e: ParseError, msg: Seq<char>, inner: ParseError) -> bool {
    &&& e.message@ == msg + ": "@ + inner.message@
    &&& e.line == inner.line
    &&& e.column == inner.column
}

/// What `context(p, msg)` returns on `i`: the success of `p` unchanged, or, when `p`
/// fails, its error with `msg` put before the message.
pub open spec fn context_result<'a, T, P: Fn(Input<'a>) -> ParseResult<'a, T>>(
    p: P,
    msg: Seq<char>,
    i: Input<'a>,
    r: ParseResult<'a, T>,
) -> bool {
    match r {
        Ok(x) => p.ensures((i,), Ok(x)),
        Err(e) => exists|inner: ParseError|
            #[trigger] p.ensures((i,), Err(inner)) && is_prefixed_error(e, msg, inner),
    }
}

/// Prepend context to the error of a parser.
pub fn context<'a, T>(
    parser: impl Fn(Input<'a>) -> ParseResult<'a, T>,
    msg: &'static str,
) -> (f: impl Fn(Input<'a>) -> ParseResult<'a, T>)
    requires
        total(parser),
    ensures
        forall|i: Input<'a>| #[trigger] f.requires((i,)),
        forall|i: Input<'a>, r| #[trigger] f.ensures((i,), r) ==> context_result(parser, msg@, i, r),
{
    move |input: Input<'a>| -> (r: ParseResult<'a, T>)
        ensures
            context_result(parser, msg@, input, r),
    {
        let r0 = parser(input);
        match r0 {
            Ok(x) => Ok(x),
            Err(e) => {
                assert(parser.ensures((input,), Err(e)));
                proof {
                    reveal_strlit(": ");
                }
                let mut m = String::from_str(msg);
                m.append(": ");
                m.append(e.message.as_str());
                let e2 = ParseError::new(m.as_str(), e.line, e.column);
                assert(is_prefixed_error(e2, msg@, e));
                Err(e2)
            }
        }
    }
}

/// What `alt(ps)` returns on `i`: the success of the first parser in `ps` that
/// succeeds, after all before it failed; an error when they all fail.
pub open spec fn alt_result<'a, T, P: Fn(Input<'a>) -> ParseResult<'a, T>>(
    ps: Seq<P>,
    i: Input<'a>,
    r: ParseResult<'a, T>,
) -> bool {
    match r {
        Ok(x) => exists|k: int| {
            &&& 0 <= k < ps.len()
            &&& #[trigger] ps[k].ensures((i,), Ok(x))
            &&& forall|j: int| 0 <= j < k ==> may_fail(#[trigger] ps[j], i)
        },
        Err(e) => {
            &&& is_error_at_start(e, "no alternative parser succeeded"@)
            &&& forall|j: int| 0 <= j < ps.len() ==> may_fail(#[trigger] ps[j], i)
        },
    }
}

/// Try the parsers in order and return the first success.
pub fn alt<'a, 'b, T>(parsers: &'b [impl Fn(Input<'a>) -> ParseResult<'a, T> + 'b]) -> (f: impl Fn(Input<'a>) -> ParseResult<'a, T> + 'b)
    requires
        forall|k: int| 0 <= k < parsers@.len() ==> total(#[trigger] parsers@[k]),
    ensures
        forall|i: Input<'a>| #[trigger] f.requires((i,)),
        forall|i: Input<'a>, r| #[trigger] f.ensures((i,), r) ==> alt_result(parsers@, i, r),
{
    move |input: Input<'a>| -> (r: ParseResult<'a, T>)
        ensures
            alt_result(parsers@, input, r),
    {
        proof {
            reveal_strlit("no alternative parser succeeded");
        }
        let n = parsers.len();
        let mut k: usize = 0;
        while k < n
            invariant
                n == parsers@.len(),
                k <= n,
                forall|m: int| 0 <= m < parsers@.len() ==> total(#[trigger] parsers@[m]),
                forall|j: int| 0 <= j < k ==> may_fail(#[trigger] parsers@[j], input),
            decreases n - k,
        {
            let p = &parsers[k];
            assert(total(parsers@[k as int]));
            let r0 = p(input);
            match r0 {
                Ok(x) => {
                    assert(parsers@[k as int].ensures((input,), Ok(x)));
                    return Ok(x);
                }
                Err(e) => {
                    assert(parsers@[k as int].ensures((input,), Err(e)));
                    assert(may_fail(parsers@[k as int], input));
                }
            }
            k = k + 1;
        }
        Err(ParseError::new("no alternative parser succeeded", 1, 1))
    }
}

} // verus!
