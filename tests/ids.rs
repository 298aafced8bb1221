use glomers::{node_group, node_num};

fn s(x: &str) -> String {
    x.to_string()
}

#[test]
fn ordinal_of_plain_identifier() {
    assert_eq!(node_num(&s("n7")), Some(7));
    assert_eq!(node_num(&s("n0")), Some(0));
    assert_eq!(node_num(&s("c24")), Some(24));
}

#[test]
fn ordinal_accepts_leading_zeros_and_plus() {
    assert_eq!(node_num(&s("n007")), Some(7));
    assert_eq!(node_num(&s("n+12")), Some(12));
}

#[test]
fn ordinal_at_the_u32_limit() {
    assert_eq!(node_num(&s("n4294967295")), Some(u32::MAX));
    assert_eq!(node_num(&s("n4294967296")), None);
    assert_eq!(node_num(&s("n99999999999999999999")), None);
}

#[test]
fn malformed_identifiers_have_no_ordinal() {
    assert_eq!(node_num(&s("")), None);
    assert_eq!(node_num(&s("n")), None);
    assert_eq!(node_num(&s("7")), None);
    assert_eq!(node_num(&s("n+")), None);
    assert_eq!(node_num(&s("nx")), None);
    assert_eq!(node_num(&s("n1x")), None);
    assert_eq!(node_num(&s("n-1")), None);
    assert_eq!(node_num(&s("\u{e9}7")), None);
    assert_eq!(node_num(&s("n7\u{e9}")), None);
}

#[test]
fn group_is_ordinal_mod_five() {
    assert_eq!(node_group(&s("n7")), Some(2));
    assert_eq!(node_group(&s("n10")), Some(0));
    assert_eq!(node_group(&s("n24")), Some(4));
    assert_eq!(node_group(&s("bad")), None);
}
