//! Tests for form-encoded bodies: decoding, lookup, and the nested
//! dictionary and array retrievals.

use tusk_rs::urlencoded::UrlEncoded;

#[test]
fn pairs_decode_ampersand_separated() {
    let u = UrlEncoded::from_string("a=1&b=2".to_string());
    let a: String = u.get("a").unwrap();
    let b: String = u.get("b").unwrap();
    assert_eq!(a, "1");
    assert_eq!(b, "2");
}

#[test]
fn missing_key_gives_none() {
    let u = UrlEncoded::from_string("a=1".to_string());
    let r: Option<String> = u.get("b");
    assert!(r.is_none());
}

#[test]
fn plus_and_percent_escapes_decode() {
    let u = UrlEncoded::from_string("msg=hello+world%21&pair=%5B1%2C2%5D".to_string());
    let msg: String = u.get("msg").unwrap();
    assert_eq!(msg, "hello world!");
    let pair: String = u.get("pair").unwrap();
    assert_eq!(pair, "[1,2]");
}

#[test]
fn typed_retrieval_parses_ints() {
    let u = UrlEncoded::from_string("n=-7&bad=x".to_string());
    let n: Option<i32> = u.get("n");
    assert_eq!(n, Some(-7));
    let bad: Option<i32> = u.get("bad");
    assert_eq!(bad, None);
}

#[test]
fn pieces_without_equals_are_dropped() {
    let u = UrlEncoded::from_string("solo&a=1".to_string());
    let solo: Option<String> = u.get("solo");
    assert!(solo.is_none());
    let a: String = u.get("a").unwrap();
    assert_eq!(a, "1");
}

#[test]
fn duplicate_form_keys_last_write_wins() {
    let u = UrlEncoded::from_string("a=1&a=2".to_string());
    let a: String = u.get("a").unwrap();
    assert_eq!(a, "2");
}

#[test]
fn nested_dict_reassembles() {
    let u = UrlEncoded::from_string("user[name]=ada&user[age]=36&other=x".to_string());
    let d = u.get_dict("user").unwrap();
    let name: String = d.get("name").unwrap();
    let age: i32 = d.get("age").unwrap();
    assert_eq!(name, "ada");
    assert_eq!(age, 36);
}

#[test]
fn indexed_dicts_come_back_ascending() {
    let u = UrlEncoded::from_string(
        "it[1][n]=second&it[0][n]=first&it[0][m]=extra".to_string(),
    );
    let list = u.get_vec_dict("it").unwrap();
    assert_eq!(list.len(), 2);
    let n0: String = list[0].get("n").unwrap();
    let m0: String = list[0].get("m").unwrap();
    let n1: String = list[1].get("n").unwrap();
    assert_eq!(n0, "first");
    assert_eq!(m0, "extra");
    assert_eq!(n1, "second");
}

#[test]
fn indexed_values_come_back_ascending() {
    let u = UrlEncoded::from_string("xs[2]=30&xs[0]=10&xs[1]=20".to_string());
    let xs: Vec<i32> = u.get_vec("xs").unwrap();
    assert_eq!(xs, vec![10, 20, 30]);
}

#[test]
fn indexed_values_drop_unparsable_entries() {
    let u = UrlEncoded::from_string("xs[0]=10&xs[1]=oops".to_string());
    let xs: Vec<i32> = u.get_vec("xs").unwrap();
    assert_eq!(xs, vec![10]);
}

#[test]
fn indexed_strings_come_back_complete_and_ascending() {
    let u = UrlEncoded::from_string("k[1]=b&k[0]=a".to_string());
    let ks: Vec<String> = u.get_vec("k").unwrap();
    assert_eq!(ks, vec!["a".to_string(), "b".to_string()]);
}

#[test]
fn vec_entry_check_decides_the_precondition() {
    let good = UrlEncoded::from_string("xs[0]=10&xs[2]=30&other=1".to_string());
    assert!(good.check_vec_entries("xs", false));
    let bad_index = UrlEncoded::from_string("xs[zero]=10".to_string());
    assert!(!bad_index.check_vec_entries("xs", false));
    let unclosed = UrlEncoded::from_string("it[0=flat".to_string());
    assert!(!unclosed.check_vec_entries("it", true));
    let with_subkey = UrlEncoded::from_string("it[0][n]=x".to_string());
    assert!(with_subkey.check_vec_entries("it", true));
}
