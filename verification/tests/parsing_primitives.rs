use rmpl::parsing::{comment, eof, newline, one_of, tag, take, take_until, take_while, take_while1};

#[test]
fn test_tag_success() {
    let result = tag("hello")("hello world");
    assert_eq!(result, Ok((" world", "hello")));
}

#[test]
fn test_tag_failure() {
    let result = tag("hello")("goodbye world");
    assert!(result.is_err());
}

#[test]
fn test_one_of_success() {
    let result = one_of("aeiou")("apple");
    assert_eq!(result, Ok(("pple", 'a')));
}

#[test]
fn test_one_of_failure() {
    let result = one_of("aeiou")("xyz");
    assert!(result.is_err());
}

#[test]
fn test_take_while_success() {
    let result = take_while(|c| c.is_alphabetic())("hello123");
    assert_eq!(result, Ok(("123", "hello")));
}

#[test]
fn test_take_while_empty() {
    let result = take_while(|c| c.is_alphabetic())("123hello");
    assert_eq!(result, Ok(("123hello", "")));
}

#[test]
fn primitives_test_take_while1_success() {
    let result = take_while1(|c| c.is_alphabetic())("hello123");
    assert_eq!(result, Ok(("123", "hello")));
}

#[test]
fn test_take_while1_failure() {
    let result = take_while1(|c| c.is_alphabetic())("123hello");
    assert!(result.is_err());
}

#[test]
fn test_take_until_success() {
    let result = take_until(":")("key: value");
    assert_eq!(result, Ok((": value", "key")));
}

#[test]
fn test_take_until_failure() {
    let result = take_until(":")("no colon here");
    assert!(result.is_err());
}

#[test]
fn test_take_success() {
    let result = take(5)("hello world");
    assert_eq!(result, Ok((" world", "hello")));
}

#[test]
fn test_eof_success() {
    let result = eof()("");
    assert_eq!(result, Ok(("", ())));
}

#[test]
fn test_eof_failure() {
    let result = eof()("not empty");
    assert!(result.is_err());
}

#[test]
fn test_newline() {
    let result = newline()("\nhello");
    assert_eq!(result, Ok(("hello", "\n")));
}

#[test]
fn primitives_test_comment() {
    let result = comment()("# this is a comment\nmore");
    assert_eq!(result, Ok(("\nmore", "# this is a comment")));
}

#[test]
fn test_tag_exact_match() {
    let result = tag("hello")("hello");
    assert_eq!(result, Ok(("", "hello")));
}

#[test]
fn test_tag_partial_match() {
    let result = tag("hello")("hello world");
    assert_eq!(result, Ok((" world", "hello")));
}

#[test]
fn test_tag_no_match() {
    let result = tag("hello")("goodbye");
    assert!(result.is_err());
}

#[test]
fn test_tag_empty() {
    let result = tag("")("anything");
    assert_eq!(result, Ok(("anything", "")));
}

#[test]
fn test_one_of_first_char() {
    let result = one_of("aeiou")("apple");
    assert_eq!(result, Ok(("pple", 'a')));
}

#[test]
fn test_one_of_middle_char() {
    let result = one_of("xyz")("xyz");
    assert_eq!(result, Ok(("yz", 'x')));
}

#[test]
fn test_one_of_no_match() {
    let result = one_of("aeiou")("xyz");
    assert!(result.is_err());
}

#[test]
fn test_take_while_alphabetic() {
    let result = take_while(|c| c.is_alphabetic())("hello123");
    assert_eq!(result, Ok(("123", "hello")));
}

#[test]
fn test_take_while_digits() {
    let result = take_while(|c| c.is_ascii_digit())("123abc");
    assert_eq!(result, Ok(("abc", "123")));
}

#[test]
fn test_take_while_none() {
    let result = take_while(|c| c.is_alphabetic())("123abc");
    assert_eq!(result, Ok(("123abc", "")));
}

#[test]
fn test_take_while_all() {
    let result = take_while(|c| c.is_alphabetic())("hello");
    assert_eq!(result, Ok(("", "hello")));
}

#[test]
fn test_take_while1_requires_match() {
    let result = take_while1(|c| c.is_alphabetic())("123abc");
    assert!(result.is_err());
}

#[test]
fn test_take_until_found() {
    let result = take_until(":")("key:value");
    assert_eq!(result, Ok((":value", "key")));
}

#[test]
fn test_take_until_not_found() {
    let result = take_until(":")("no colon");
    assert!(result.is_err());
}

#[test]
fn test_take_exact() {
    let result = take(5)("hello world");
    assert_eq!(result, Ok((" world", "hello")));
}

#[test]
fn test_take_all() {
    let result = take(5)("hello");
    assert_eq!(result, Ok(("", "hello")));
}

#[test]
fn test_eof_empty() {
    let result = eof()("");
    assert_eq!(result, Ok(("", ())));
}

#[test]
fn test_eof_not_empty() {
    let result = eof()("not empty");
    assert!(result.is_err());
}

#[test]
fn test_newline_success() {
    let result = newline()("\n");
    assert_eq!(result, Ok(("", "\n")));
}

#[test]
fn test_newline_with_rest() {
    let result = newline()("\nhello");
    assert_eq!(result, Ok(("hello", "\n")));
}

#[test]
fn test_newline_failure() {
    let result = newline()("hello");
    assert!(result.is_err());
}

#[test]
fn test_comment_simple() {
    let result = comment()("# comment\nrest");
    assert_eq!(result, Ok(("\nrest", "# comment")));
}

#[test]
fn test_comment_no_newline() {
    let result = comment()("# comment");
    assert_eq!(result, Ok(("", "# comment")));
}

#[test]
fn test_comment_failure() {
    let result = comment()("not a comment");
    assert!(result.is_err());
}

// Error messages and positions of the primitives.

#[test]
fn tag_error_message_names_the_tag() {
    let err = tag("hello")("goodbye").unwrap_err();
    assert_eq!(err.message, "expected tag 'hello'");
    assert_eq!((err.line, err.column), (1, 1));
}

#[test]
fn one_of_error_message_and_empty_input() {
    let err = one_of("ab")("").unwrap_err();
    assert_eq!(err.message, "expected one of 'ab'");
}

#[test]
fn take_until_error_message() {
    let err = take_until("::")("a:b").unwrap_err();
    assert_eq!(err.message, "expected '::' not found");
    assert_eq!(take_until("")("abc"), Ok(("abc", "")));
}

#[test]
fn take_counts_characters() {
    assert_eq!(take(3)("ab").unwrap_err().message, "expected 3 characters");
    // Two characters in three bytes: too short.
    let err = take(3)("aé").unwrap_err();
    assert_eq!(err.message, "expected 3 characters");
    assert_eq!((err.line, err.column), (1, 1));
    assert_eq!(take(2)("aé"), Ok(("", "aé")));
    assert_eq!(take(2)("héllo"), Ok(("llo", "hé")));
    assert_eq!(take(0)("x"), Ok(("x", "")));
}

#[test]
fn take_while1_error_message() {
    let err = take_while1(|c: char| c.is_ascii_digit())("abc").unwrap_err();
    assert_eq!(err.message, "expected at least one matching character");
}

#[test]
fn eof_newline_comment_error_messages() {
    assert_eq!(eof()("x").unwrap_err().message, "expected end of input");
    assert_eq!(newline()("x").unwrap_err().message, "expected newline");
    assert_eq!(comment()("x").unwrap_err().message, "expected comment starting with #");
}

#[test]
fn tag_on_multibyte_input() {
    assert_eq!(tag("né")("néon"), Ok(("on", "né")));
}

#[test]
fn take_while1_agrees_with_take_while_after_a_match() {
    let digit = |c: char| c.is_ascii_digit();
    assert_eq!(take_while1(digit)("123abc"), take_while(digit)("123abc"));
    assert_eq!(take_while1(digit)("7"), Ok(("", "7")));
    let err = take_while1(digit)("abc").unwrap_err();
    assert_eq!(err.message, "expected at least one matching character");
    assert_eq!((err.line, err.column), (1, 1));
    assert_eq!(take_while(digit)("abc"), Ok(("abc", "")));
    assert!(take_while1(digit)("").is_err());
}
