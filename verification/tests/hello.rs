use rmpl::hello::hello_expansion;

#[test]
fn hello_is_the_identity() {
    assert_eq!(hello_expansion("fn main() {}"), "fn main() {}");
    assert_eq!(hello_expansion("world"), "world");
    assert_eq!(hello_expansion(""), "");
}
