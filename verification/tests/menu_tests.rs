use mtg_fletch::menu::menu_option;

#[test]
fn menu_accepts_listed_numbers() {
    assert_eq!(menu_option("1", 4), Some(1));
    assert_eq!(menu_option("4", 4), Some(4));
}

#[test]
fn menu_rejects_everything_else() {
    assert_eq!(menu_option("5", 4), None);
    assert_eq!(menu_option("0", 4), None);
    assert_eq!(menu_option("", 4), None);
    assert_eq!(menu_option("12", 9), None);
    assert_eq!(menu_option("a", 9), None);
}
