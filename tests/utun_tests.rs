use neutils::utun::lowest_free_utun;

#[test]
fn empty_list_gives_unit_zero() {
    assert_eq!(lowest_free_utun(b""), Some(0));
}

#[test]
fn lowest_gap_is_chosen() {
    assert_eq!(lowest_free_utun(b"lo0 gif0 utun0 utun1 utun3 en0\n"), Some(2));
}

#[test]
fn names_split_on_newlines_and_spaces() {
    assert_eq!(lowest_free_utun(b"utun1\nutun0 utun2\n"), Some(3));
}

#[test]
fn other_names_do_not_count() {
    assert_eq!(lowest_free_utun(b"xutun0 utun utunx utun0a tun0"), Some(0));
}

#[test]
fn leading_zeros_and_large_numbers() {
    assert_eq!(lowest_free_utun(b"utun00 utun4294967296 utun99 utun1"), Some(2));
}

#[test]
fn all_units_taken_gives_none() {
    let mut list = String::new();
    for i in 0..99 {
        list.push_str(&format!("utun{} ", i));
    }
    assert_eq!(lowest_free_utun(list.as_bytes()), None);
    list.push_str("utun99");
    assert_eq!(lowest_free_utun(list.as_bytes()), None);
}
