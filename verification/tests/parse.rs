use json_walk::buffer_walk::CharIter;
use json_walk::{read_number, read_obj, read_string, read_tf, read_vec, Json};

#[test]
fn test_char_iter_skip_whitespace() {
    let s = "     5";
    let mut c = CharIter::new(s);
    let o = c.skip_whitespace();
    assert_eq!(o, Option::Some('5'));
}

#[test]
fn test_char_iter_next() {
    let s = "563";
    let mut c = CharIter::new(s);
    let o = c.current();
    assert_eq!(o, Option::None);
    let o = c.next();
    assert_eq!(o, Option::Some('5'));
    let o = c.current();
    assert_eq!(o, Option::Some('5'));
    let o = c.next();
    assert_eq!(o, Option::Some('6'));
}

#[test]
fn test_read_number() {
    let s = "12345.7,";
    let mut c = CharIter::new(s);
    let _ = c.skip_whitespace();
    let o = read_number(&mut c);
    assert!(o.is_some());
    assert_eq!(o, Option::Some("12345.7"));

    let o = c.current();
    assert_eq!(o, Option::Some(','));
}

#[test]
fn test_read_tf_0() {
    let s = "true,";
    let mut c = CharIter::new(s);
    let o = c.next();
    assert_eq!(o, Option::Some('t'));
    assert_eq!(c.current(), Option::Some('t'));
    let o = read_tf(&mut c);
    assert_eq!(o, Option::Some("true"));
}

#[test]
fn test_read_tf_1() {
    let s = "false,";
    let mut c = CharIter::new(s);
    let o = c.next();
    assert_eq!(o, Option::Some('f'));
    assert_eq!(c.current(), Option::Some('f'));
    let o = read_tf(&mut c);
    assert_eq!(o, Option::Some("false"));
}

#[test]
fn test_read_string() {
    let s = "\"HelloWorld\",";
    let mut c = CharIter::new(s);
    let _ = c.next();
    assert_eq!(c.current(), Option::Some('"'));
    let o = read_string(&mut c);
    assert_eq!(o, Option::Some("HelloWorld"));
    let o = c.current();
    assert_eq!(o, Option::Some(','));
}

#[test]
fn test_read_vec() {
    let s = "[0,\"HelloWorld\",2,[0,\"Hi\"]]";
    let mut c = CharIter::new(s);
    let o = c.next();
    assert_eq!(o, Option::Some('['));
    let o = read_vec(&mut c);
    let o = o.unwrap();
    let o = match o {
        Json::Vec(x) => x,
        _ => panic!("Type Mismatch"),
    };
    match o[0] {
        Json::Var(x) => assert_eq!(x, "0"),
        _ => panic!("Type Mismatch"),
    };
    match o[1] {
        Json::Var(x) => assert_eq!(x, "HelloWorld"),
        _ => panic!("Type Mismatch"),
    };
    match o[2] {
        Json::Var(x) => assert_eq!(x, "2"),
        _ => panic!("Type Mismatch"),
    };
    match &o[3] {
        &Json::Vec(ref x) => {
            match x[0] {
                Json::Var(y) => assert_eq!(y, "0"),
                _ => panic!("Type Mismatch"),
            };
            match x[1] {
                Json::Var(y) => assert_eq!(y, "Hi"),
                _ => panic!("Type Mismatch"),
            };
        },
        _ => panic!("Type Mismatch"),
    };
}

#[test]
fn test_read_object() {
    let s = "{1: [0,\"HelloWorld\",2,[0,\"Hi\"]] }";
    let mut c = CharIter::new(s);
    let o = c.next();
    assert_eq!(o, Option::Some('{'));
    let o = read_obj(&mut c);
    assert!(o.is_some());
    let o = o.unwrap();
    assert!(o.is_obj());
    let o = o.search_obj("1").unwrap();
    assert!(o.is_vec());
}
