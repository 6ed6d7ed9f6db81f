use json_walk::buffer_walk::CharIter;
use json_walk::obj_map::ObjMap;
use json_walk::{read_string, read_tf, Json};

#[test]
fn whitespace_then_number_lands_on_delimiter() {
    let s = "   \t 42.5]";
    let mut c = CharIter::new(s);
    let _ = c.skip_whitespace();
    let o = json_walk::read_number(&mut c);
    assert_eq!(o, Option::Some("42.5"));
    assert_eq!(c.current(), Option::Some(']'));
}

#[test]
fn escaped_quote_does_not_split_string() {
    let s = "\"a\\\"b\"";
    let mut c = CharIter::new(s);
    let _ = c.next();
    let o = read_string(&mut c);
    assert_eq!(o, Option::Some("a\\\"b"));
}

#[test]
fn escaped_backslash_in_string() {
    let s = "\"a\\\\\" ,";
    let mut c = CharIter::new(s);
    let _ = c.next();
    let o = read_string(&mut c);
    assert_eq!(o, Option::Some("a\\\\"));
    assert_eq!(c.current(), Option::Some(','));
}

#[test]
fn unterminated_string_fails() {
    let s = "\"abc";
    let mut c = CharIter::new(s);
    let _ = c.next();
    let o = read_string(&mut c);
    assert_eq!(o, Option::None);
}

#[test]
fn boolean_needs_terminator() {
    let s = "truex";
    let mut c = CharIter::new(s);
    let _ = c.next();
    let o = read_tf(&mut c);
    assert_eq!(o, Option::None);
}

#[test]
fn boolean_at_end_of_input_fails() {
    let s = "true";
    let mut c = CharIter::new(s);
    let _ = c.next();
    let o = read_tf(&mut c);
    assert_eq!(o, Option::None);
}

#[test]
fn duplicate_key_keeps_last_value() {
    let s = "{\"a\": 1, \"a\": 2}";
    let o = Json::new(s).unwrap();
    assert!(o.is_obj());
    let v = o.search_obj("a").unwrap();
    assert_eq!(v.get_var(), Option::Some("2"));
}

#[test]
fn obj_map_insert_overwrites() {
    let mut m = ObjMap::new();
    m.insert("k", Json::Var("1"));
    m.insert("k", Json::Var("2"));
    let v = m.get("k").unwrap();
    assert_eq!(v.get_var(), Option::Some("2"));
    assert!(m.get("missing").is_none());
}

#[test]
fn object_lookup_present_and_absent() {
    let s = "{\"a\": [1,2]}";
    let o = Json::new(s).unwrap();
    assert!(o.is_obj());
    let v = o.search_obj("a").unwrap();
    assert!(v.is_vec());
    assert!(o.search_obj("b").is_none());
}

#[test]
fn double_decimal_point_fails_whole_parse() {
    assert!(Json::new("1.2.3").is_none());
    assert!(Json::new("[1, 1.2.3]").is_none());
    assert!(Json::new("{\"a\": 1.2.3}").is_none());
}

#[test]
fn blank_input_has_no_value() {
    assert!(Json::new("").is_none());
    assert!(Json::new("   \t\n  ").is_none());
}

#[test]
fn boolean_not_an_array_element() {
    assert!(Json::new("[true, false]").is_none());
    let o = Json::new("true,").unwrap();
    assert_eq!(o.get_var(), Option::Some("true"));
}

#[test]
fn nested_object_shape() {
    let s = " { \"id\" :7, \"tags\" : [ \"x\" , \"y\" ] , \"sub\" : { 5 :true} } trailing";
    let o = Json::new(s).unwrap();
    assert!(o.is_obj());
    assert_eq!(o.search_obj("id").unwrap().get_var(), Option::Some("7"));
    let tags = o.search_obj("tags").unwrap();
    let tags = tags.get_vec().unwrap();
    assert_eq!(tags.len(), 2);
    assert_eq!(tags[0].get_var(), Option::Some("x"));
    assert_eq!(tags[1].get_var(), Option::Some("y"));
    let sub = o.search_obj("sub").unwrap();
    assert!(sub.is_obj());
    assert_eq!(sub.search_obj("5").unwrap().get_var(), Option::Some("true"));
    assert!(o.search_obj("absent").is_none());
}

#[test]
fn object_keys_kept_in_sorted_order() {
    let s = "{\"b\" :1, \"a\" :2, \"c\" :3}";
    let o = Json::new(s).unwrap();
    let m = o.get_obj().unwrap();
    assert_eq!(m.entries.len(), 3);
    assert_eq!(m.entries[0].0, "a");
    assert_eq!(m.entries[1].0, "b");
    assert_eq!(m.entries[2].0, "c");
}

#[test]
fn cloned_tree_reads_the_same() {
    let s = "{\"a\" :[1, \"x\"], \"b\" :2}";
    let o = Json::new(s).unwrap();
    let c = o.clone();
    assert!(c.is_obj());
    assert_eq!(c.search_obj("b").unwrap().get_var(), Option::Some("2"));
    let a = c.search_obj("a").unwrap();
    let a = a.get_vec().unwrap();
    assert_eq!(a[0].get_var(), Option::Some("1"));
    assert_eq!(a[1].clone().get_var(), Option::Some("x"));
}

#[test]
fn position_counts_every_advance() {
    let s = "ab";
    let mut c = CharIter::new(s);
    let _ = c.next();
    let _ = c.next();
    assert_eq!(c.position(), 1);
    let o = c.next();
    assert_eq!(o, Option::None);
    assert_eq!(c.position(), 2);
    assert_eq!(c.len(), 2);
    assert!(!c.is_empty());
}

#[test]
fn cursor_getters() {
    let s = "abc";
    let mut c = CharIter::new(s);
    assert_eq!(c.len(), 3);
    assert!(!c.is_empty());
    assert_eq!(c.get_buffer(), "abc");
    let _ = c.next();
    assert_eq!(c.position(), 0);
    assert_eq!(c.get_sub_string(1, 3), "bc");
    assert!(CharIter::new("").is_empty());
}

#[test]
fn type_predicates_and_accessors() {
    let v = Json::new("[1]").unwrap();
    assert!(v.is_vec() && !v.is_obj() && !v.is_var());
    assert!(v.get_var().is_none());
    assert!(v.get_obj().is_none());
    assert!(v.get_vec().is_some());
    assert!(v.search_obj("a").is_none());
    let o = Json::new("{}").unwrap();
    assert!(o.is_obj());
    assert!(o.get_obj().is_some());
    let s = Json::new("\"hi\" ").unwrap();
    assert_eq!(s.get_var(), Option::Some("hi"));
}
