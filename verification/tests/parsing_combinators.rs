use rmpl::parsing::combinators;
use rmpl::parsing::{alt, context, ignore, many, many1, opt, pair, separated_list, tag, take_while, tuple3, value};

#[test]
fn combinators_test_opt_success() {
    let parser = opt(tag("hello"));
    let result = parser("hello world");
    assert_eq!(result, Ok((" world", Some("hello"))));
}

#[test]
fn test_opt_failure() {
    let parser = opt(tag("hello"));
    let result = parser("goodbye world");
    assert_eq!(result, Ok(("goodbye world", None)));
}

#[test]
fn test_many_zero() {
    let parser = many(tag("a"));
    let result = parser("bbb");
    assert_eq!(result, Ok(("bbb", vec![])));
}

#[test]
fn test_many_multiple() {
    let parser = many(tag("a"));
    let result = parser("aaabbb");
    assert_eq!(result, Ok(("bbb", vec!["a", "a", "a"])));
}

#[test]
fn combinators_test_many1_success() {
    let parser = many1(tag("a"));
    let result = parser("aaabbb");
    assert_eq!(result, Ok(("bbb", vec!["a", "a", "a"])));
}

#[test]
fn test_many1_failure() {
    let parser = many1(tag("a"));
    let result = parser("bbb");
    assert!(result.is_err());
}

#[test]
fn test_pair() {
    let parser = pair(tag("hello"), tag(" world"));
    let result = parser("hello world");
    assert_eq!(result, Ok(("", ("hello", " world"))));
}

#[test]
fn test_map() {
    let parser = combinators::map(take_while(|c| c.is_alphabetic()), |s: &str| s.to_uppercase());
    let result = parser("Hello123");
    assert_eq!(result, Ok(("123", String::from("HELLO"))));
}

#[test]
fn test_value() {
    let parser = value(42, tag("hello"));
    let result = parser("hello world");
    assert_eq!(result, Ok((" world", 42)));
}

#[test]
fn test_ignore() {
    let parser = ignore(tag("hello"));
    let result = parser("hello world");
    assert_eq!(result, Ok((" world", ())));
}

#[test]
fn test_alt_success_first() {
    let p1 = tag("hello");
    let p2 = tag("world");
    let parsers = [p1, p2];
    let parser = alt(&parsers);
    let result = parser("hello world");
    assert_eq!(result, Ok((" world", "hello")));
}

#[test]
fn test_alt_success_second() {
    let p1 = tag("hello");
    let p2 = tag("world");
    let parsers = [p1, p2];
    let parser = alt(&parsers);
    let result = parser("world hello");
    assert_eq!(result, Ok((" hello", "world")));
}

#[test]
fn test_alt_failure() {
    let p1 = tag("hello");
    let p2 = tag("world");
    let parsers = [p1, p2];
    let parser = alt(&parsers);
    let result = parser("foo bar");
    assert!(result.is_err());
}

#[test]
fn test_tuple3() {
    let parser = tuple3(tag("a"), tag("b"), tag("c"));
    let result = parser("abc");
    assert_eq!(result, Ok(("", ("a", "b", "c"))));
}

#[test]
fn test_separated_list() {
    let parser = separated_list(tag(","), take_while(|c| c != ','));
    let result = parser("a,b,c");
    assert_eq!(result, Ok(("", vec!["a", "b", "c"])));
}

#[test]
fn test_opt_failure_returns_none() {
    let parser = opt(tag("hello"));
    let result = parser("goodbye");
    assert_eq!(result, Ok(("goodbye", None)));
}

#[test]
fn test_many_zero_matches() {
    let parser = many(tag("a"));
    let result = parser("bbb");
    assert_eq!(result, Ok(("bbb", vec![])));
}

#[test]
fn test_many_multiple_matches() {
    let parser = many(tag("a"));
    let result = parser("aaabbb");
    assert_eq!(result, Ok(("bbb", vec!["a", "a", "a"])));
}

#[test]
fn test_many1_requires_at_least_one() {
    let parser = many1(tag("a"));
    let result = parser("bbb");
    assert!(result.is_err());
}

#[test]
fn test_pair_success() {
    let parser = pair(tag("hello"), tag(" world"));
    let result = parser("hello world");
    assert_eq!(result, Ok(("", ("hello", " world"))));
}

#[test]
fn test_pair_failure_second() {
    let parser = pair(tag("hello"), tag(" world"));
    let result = parser("hello, world");
    assert!(result.is_err());
}

#[test]
fn test_tuple3_success() {
    let parser = tuple3(tag("a"), tag("b"), tag("c"));
    let result = parser("abc");
    assert_eq!(result, Ok(("", ("a", "b", "c"))));
}

#[test]
fn test_map_transform() {
    let parser = combinators::map(take_while(|c| c.is_alphabetic()), |s: &str| s.to_uppercase());
    let result = parser("Hello123");
    assert_eq!(result, Ok(("123", String::from("HELLO"))));
}

#[test]
fn test_map_parse_number() {
    let parser = combinators::map(take_while(|c| c.is_ascii_digit()), |s: &str| s.parse::<u32>().unwrap());
    let result = parser("123abc");
    assert_eq!(result, Ok(("abc", 123)));
}

#[test]
fn test_value_ignore_output() {
    let parser = value(42, tag("hello"));
    let result = parser("hello world");
    assert_eq!(result, Ok((" world", 42)));
}

#[test]
fn test_ignore_discard_result() {
    let parser = ignore(tag("hello"));
    let result = parser("hello world");
    assert_eq!(result, Ok((" world", ())));
}

#[test]
fn test_alt_first_matches() {
    let p1 = tag("hello");
    let p2 = tag("world");
    let parsers = [p1, p2];
    let parser = alt(&parsers);
    let result = parser("hello world");
    assert_eq!(result, Ok((" world", "hello")));
}

#[test]
fn test_alt_second_matches() {
    let p1 = tag("hello");
    let p2 = tag("world");
    let parsers = [p1, p2];
    let parser = alt(&parsers);
    let result = parser("world hello");
    assert_eq!(result, Ok((" hello", "world")));
}

#[test]
fn test_alt_none_match() {
    let p1 = tag("hello");
    let p2 = tag("world");
    let parsers = [p1, p2];
    let parser = alt(&parsers);
    let result = parser("foo bar");
    assert!(result.is_err());
}

#[test]
fn test_separated_list_simple() {
    let parser = separated_list(tag(","), take_while(|c| c != ','));
    let result = parser("a,b,c");
    assert_eq!(result, Ok(("", vec!["a", "b", "c"])));
}

#[test]
fn test_separated_list_single() {
    let parser = separated_list(tag(","), take_while(|c| c != ','));
    let result = parser("a");
    assert_eq!(result, Ok(("", vec!["a"])));
}

#[test]
fn test_separated_list_empty() {
    let parser = separated_list(tag(","), take_while(|c| c != ','));
    let result = parser("123");
    // take_while matches "123" before seeing the comma separator
    assert_eq!(result, Ok(("", vec!["123"])));
}

#[test]
fn test_separated_list_with_spaces() {
    let parser = separated_list(tag(", "), take_while(|c| c != ',' && c != ' '));
    let result = parser("a, b, c");
    assert_eq!(result, Ok(("", vec!["a", "b", "c"])));
}

#[test]
fn parse_simple_key_value() {
    let key = take_while(|c| c.is_alphabetic());
    let colon = tag(":");
    let value = take_while(|c| c != '\n');
    let kv = pair(pair(key, colon), combinators::map(value, |s: &str| s.trim()));

    let result = kv("name: value\n");
    assert_eq!(result, Ok(("\n", (("name", ":"), "value"))));
}

#[test]
fn parse_csv_line() {
    let field = take_while(|c| c != ',');
    let parser = separated_list(tag(","), field);

    let result = parser("hello,world,foo");
    assert_eq!(result, Ok(("", vec!["hello", "world", "foo"])));
}

#[test]
fn parse_parenthesized_expression() {
    let open = tag("(");
    let close = tag(")");
    let content = take_while(|c| c != ')' && c != '(');
    let parser = pair(pair(open, content), close);

    let result = parser("(hello)");
    assert_eq!(result, Ok(("", (("(", "hello"), ")"))));
}

#[test]
fn parse_quoted_string() {
    let content = take_while(|c| c != '"');
    let parser = pair(pair(tag("\""), content), tag("\""));

    let result = parser("\"hello world\"");
    assert_eq!(result, Ok(("", (("\"", "hello world"), "\""))));
}

// Further behaviour of the combinators.

#[test]
fn alt_error_message() {
    let parsers = [tag("x"), tag("y")];
    let err = alt(&parsers)("z").unwrap_err();
    assert_eq!(err.message, "no alternative parser succeeded");
    assert_eq!((err.line, err.column), (1, 1));
}

#[test]
fn context_prepends_to_the_error() {
    let parser = context(tag("a"), "expected an a");
    let err = parser("b").unwrap_err();
    assert_eq!(err.message, "expected an a: expected tag 'a'");
    assert_eq!((err.line, err.column), (1, 1));
    assert_eq!(parser("ab"), Ok(("b", "a")));
}

#[test]
fn many1_keeps_the_first_error() {
    let err = many1(tag("a"))("b").unwrap_err();
    assert_eq!(err.message, "expected tag 'a'");
}

#[test]
fn pair_failure_on_first_keeps_its_error() {
    let err = pair(tag("a"), tag("b"))("xb").unwrap_err();
    assert_eq!(err.message, "expected tag 'a'");
    let err = pair(tag("a"), tag("b"))("ax").unwrap_err();
    assert_eq!(err.message, "expected tag 'b'");
}

#[test]
fn separated_list_without_first_item_leaves_input() {
    let parser = separated_list(tag(","), tag("x"));
    assert_eq!(parser("y,x"), Ok(("y,x", vec![])));
    // A separator not followed by an item is left in place.
    assert_eq!(parser("x,x,y"), Ok((",y", vec!["x", "x"])));
}

#[test]
fn tuple3_failure_in_third() {
    let err = tuple3(tag("a"), tag("b"), tag("c"))("abx").unwrap_err();
    assert_eq!(err.message, "expected tag 'c'");
}

#[test]
fn many1_agrees_with_many_after_a_success() {
    assert_eq!(many1(tag("a"))("aab"), many(tag("a"))("aab"));
    assert_eq!(many1(tag("a"))("aab"), Ok(("b", vec!["a", "a"])));
    assert_eq!(many1(tag("a"))("b").unwrap_err(), tag("a")("b").unwrap_err());
    assert_eq!(many(tag("a"))("b"), Ok(("b", vec![])));
}
