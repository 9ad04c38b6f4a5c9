use gd_level::level::create_level_string;
use gd_level::level::push_decimal;
use gd_level::level::GDObject;

#[test]
fn new_object_has_only_its_id() {
    let obj = GDObject::new("1");
    assert_eq!(obj.get_obj_string(), "1,1,;");
}

#[test]
fn set_prop_replaces_a_value() {
    let mut obj = GDObject::new("1");
    obj.set_prop(1, "5");
    assert_eq!(obj.get_obj_string(), "1,5,;");
}

#[test]
fn object_string_lists_every_property_once() {
    let mut obj = GDObject::new("694");
    obj.set_prop(32, "1.5");
    obj.set_prop(6, "45");
    obj.set_prop(255, "x");
    obj.set_prop(6, "-45");
    let s = obj.get_obj_string();
    assert!(s.ends_with(';'));
    let body = &s[..s.len() - 1];
    let mut pairs: Vec<String> = Vec::new();
    let fields: Vec<&str> = body.split(',').collect();
    assert_eq!(fields.last(), Some(&""));
    for chunk in fields[..fields.len() - 1].chunks(2) {
        pairs.push(format!("{}={}", chunk[0], chunk[1]));
    }
    pairs.sort();
    assert_eq!(pairs, vec!["1=694", "255=x", "32=1.5", "6=-45"]);
}

#[test]
fn decimal_keys_have_no_leading_zeros() {
    let mut s = String::from("x");
    push_decimal(&mut s, 0);
    push_decimal(&mut s, 7);
    push_decimal(&mut s, 10);
    push_decimal(&mut s, 99);
    push_decimal(&mut s, 100);
    push_decimal(&mut s, 255);
    assert_eq!(s, "x071099100255");
}

#[test]
fn empty_level_is_a_semicolon() {
    assert_eq!(create_level_string(Vec::new()), ";");
}

#[test]
fn level_string_joins_objects_in_order() {
    let a = GDObject::new("1");
    let b = GDObject::new("2");
    let c = GDObject::new("1753");
    assert_eq!(create_level_string(vec![a, b, c]), ";1,1,;1,2,;1,1753,;");
}
