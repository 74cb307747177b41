use sampsyn::note::str_to_note;

#[test]
fn test_str_to_note() {
    assert_eq!(str_to_note("a0"), Some(0));
    assert_eq!(str_to_note("as0"), Some(1));
    assert_eq!(str_to_note("b0"), Some(2));
    assert_eq!(str_to_note("c0"), Some(3));
    assert_eq!(str_to_note("cs0"), Some(4));
    assert_eq!(str_to_note("d0"), Some(5));
    assert_eq!(str_to_note("ds0"), Some(6));
    assert_eq!(str_to_note("e0"), Some(7));
    assert_eq!(str_to_note("f0"), Some(8));
    assert_eq!(str_to_note("fs0"), Some(9));
    assert_eq!(str_to_note("g0"), Some(10));
    assert_eq!(str_to_note("gs0"), Some(11));
    assert_eq!(str_to_note("a1"), Some(12));
    assert_eq!(str_to_note("cs1"), Some(16));
}

#[test]
fn unrecognized_names_are_rejected() {
    assert_eq!(str_to_note(""), None);
    assert_eq!(str_to_note("h0"), None);
    assert_eq!(str_to_note("a"), None);
    assert_eq!(str_to_note("ax"), None);
    assert_eq!(str_to_note("axe"), None);
}

#[test]
fn it_works() {
    assert_eq!(2 + 2, 4);
}
