use track::order::{copy_bytes, order_of, Order};
use track::path::{join, parent, starts_at_root, strip_root};

fn b(s: &str) -> Vec<u8> {
    s.as_bytes().to_vec()
}

#[test]
fn order_compares_byte_by_byte() {
    assert_eq!(order_of(&b("/a"), &b("/b")), Order::Less);
    assert_eq!(order_of(&b("/b"), &b("/a")), Order::Greater);
    assert_eq!(order_of(&b("/a/z"), &b("/b")), Order::Less);
}

#[test]
fn order_puts_a_prefix_first() {
    assert_eq!(order_of(&b("/a"), &b("/a/b")), Order::Less);
    assert_eq!(order_of(&b("/a/b"), &b("/a")), Order::Greater);
    assert_eq!(order_of(&b(""), &b("/")), Order::Less);
}

#[test]
fn order_knows_equal_paths() {
    assert_eq!(order_of(&b("/tmp/proj"), &b("/tmp/proj")), Order::Equal);
    assert_eq!(order_of(&b(""), &b("")), Order::Equal);
}

#[test]
fn order_is_on_bytes_not_on_text() {
    let high = vec![47u8, 0xff];
    let low = vec![47u8, 0x7f];
    assert_eq!(order_of(&low, &high), Order::Less);
}

#[test]
fn copy_keeps_every_byte() {
    let raw = vec![47u8, 0xff, 0x00, 0xfe];
    assert_eq!(copy_bytes(&raw), raw);
}

#[test]
fn absolute_paths_begin_with_a_separator() {
    assert!(starts_at_root(&b("/")));
    assert!(starts_at_root(&b("/tmp/proj")));
    assert!(!starts_at_root(&b("tmp/proj")));
    assert!(!starts_at_root(&b("")));
}

#[test]
fn strip_root_takes_the_leading_separator_away() {
    assert_eq!(strip_root(&b("/x/a.txt")), Some(b("x/a.txt")));
    assert_eq!(strip_root(&b("/tmp/proj/x.txt")), Some(b("tmp/proj/x.txt")));
}

#[test]
fn strip_root_takes_all_leading_separators_away() {
    assert_eq!(strip_root(&b("//x")), Some(b("x")));
    assert_eq!(strip_root(&b("/")), Some(b("")));
    assert_eq!(strip_root(&b("///")), Some(b("")));
}

#[test]
fn strip_root_refuses_a_relative_path() {
    assert_eq!(strip_root(&b("x/a.txt")), None);
    assert_eq!(strip_root(&b("")), None);
}

#[test]
fn join_puts_one_separator_between() {
    assert_eq!(join(&b("/out"), &b("x/a.txt")), b("/out/x/a.txt"));
    assert_eq!(join(&b("/out/"), &b("x/a.txt")), b("/out/x/a.txt"));
    assert_eq!(join(&b("out"), &b("a")), b("out/a"));
}

#[test]
fn join_with_an_empty_side() {
    assert_eq!(join(&b(""), &b("a.txt")), b("a.txt"));
    assert_eq!(join(&b("/out"), &b("")), b("/out/"));
    assert_eq!(join(&b("/"), &b("a")), b("/a"));
}

#[test]
fn join_leaves_an_absolute_path_alone() {
    assert_eq!(join(&b("/out"), &b("/etc/passwd")), b("/etc/passwd"));
}

#[test]
fn parent_is_what_stands_before_the_last_separator() {
    assert_eq!(parent(&b("/out/x/a.txt")), b("/out/x"));
    assert_eq!(parent(&b("out/a.txt")), b("out"));
    assert_eq!(parent(&b("/out/tmp/proj/x.txt")), b("/out/tmp/proj"));
}

#[test]
fn parent_at_the_root_and_without_a_separator() {
    assert_eq!(parent(&b("/a.txt")), b("/"));
    assert_eq!(parent(&b("a.txt")), b(""));
    assert_eq!(parent(&b("")), b(""));
    assert_eq!(parent(&b("/")), b("/"));
}
