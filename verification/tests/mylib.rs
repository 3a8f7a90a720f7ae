use rmpl::mylib::math;
use rmpl::mylib::{add, greet};

#[test]
fn test_add() {
    assert_eq!(add(2, 3), 5);
}

#[test]
fn test_greet() {
    assert_eq!(greet("World"), "Hello, World!");
}

#[test]
fn test_multiply() {
    assert_eq!(math::multiply(3, 4), 12);
}

#[test]
fn test_divide() {
    assert_eq!(math::divide(10, 2), Some(5));
    assert_eq!(math::divide(10, 0), None);
}

#[test]
fn test_add_simple() {
    assert_eq!(add(1, 2), 3);
}

#[test]
fn test_add_negative() {
    assert_eq!(add(-1, -1), -2);
}

#[test]
fn test_greet_format() {
    assert_eq!(greet("Test"), "Hello, Test!");
}

#[test]
fn divide_rounds_toward_zero() {
    assert_eq!(math::divide(-7, 2), Some(-3));
    assert_eq!(math::divide(7, -2), Some(-3));
    assert_eq!(math::divide(-7, -2), Some(3));
    assert_eq!(math::divide(i32::MIN, 1), Some(i32::MIN));
    assert_eq!(math::multiply(-4, 5), -20);
}
