use rustydns::Label;

use std::collections::hash_map::DefaultHasher;
use std::hash::Hasher;

fn check_to_bytes(s: &str, expected: Vec<u8>) -> bool {
    let object = Label::from_str(s);
    if object.is_err() {
        return false;
    }
    let object = object.ok().unwrap();
    let mut v = Vec::<u8>::new();
    if !object.to_bytes(&mut v).is_ok() {
        return false;
    }
    expected.eq(&v)
}

fn check_from_bytes(bytes: &[u8], exp: Result<&str, &str>) -> bool {
    let result = Label::from_bytes(bytes);
    match exp {
        Ok(s) => {
            let entity = &result.unwrap();
            let expected = &Label::from_str(s).ok().unwrap();
            expected.eq(entity)
        },
        Err(_) => result.is_err(),
    }
}

fn check_partial_eq(str1: &str, str2: &str) -> bool {
    let result1 = Label::from_str(str1);
    let result2 = Label::from_str(str2);
    if result1.is_err() || result2.is_err() {
        return false;
    }
    let entity1 = result1.ok().unwrap();
    let entity2 = result2.ok().unwrap();
    entity1.eq(&entity2)
}

fn check_to_from_string(s: &str, expected: Result<&'static str, &'static str>) -> bool {
    let object = Label::from_str(s);
    match expected {
        Err(_) => object.is_err(),
        Ok(_) => {
            let serialized = object.ok().unwrap().to_string();
            s.to_string().eq(&serialized)
        },
    }
}

#[test]
fn dnslabel_tests_test_label_to_bytes() {
    assert!(check_to_bytes("", vec![0]));
    assert!(check_to_bytes("www", vec![3, b'w', b'w', b'w']));
    assert!(check_to_bytes("Aa", vec![2, b'A', b'a']));
}

#[test]
fn dnslabel_tests_test_label_from_bytes() {
    assert!(check_from_bytes(&[0], Ok("")));
    assert!(check_from_bytes(&[3, b'w', b'w', b'w'], Ok("www")));
    assert!(check_from_bytes(&[2, b'A', b'a'], Ok("Aa")));
    assert!(check_from_bytes(&[64u8, 65], Err("LABEL EXCEEDS 63 char LIMIT")));
}

#[test]
fn check_label_to_from_string() {
    assert!(check_to_from_string("", Ok("OK")));
    assert!(check_to_from_string("org", Ok("OK")));
    assert!(check_to_from_string("TEST", Ok("OK")));
    assert!(check_to_from_string("ubeer", Ok("OK")));
    assert!(check_to_from_string("Ubeer", Ok("OK")));
    assert!(check_to_from_string("aFGgG", Ok("OK")));
}

#[test]
fn check_label_partial_eq() {
    assert!(check_partial_eq("", ""));
    assert!(!check_partial_eq("1", ""));
    assert!(!check_partial_eq("", "1"));
    assert!(check_partial_eq("1", "1"));
    assert!(check_partial_eq("a", "a"));
    assert!(!check_partial_eq("a", "aa"));
    assert!(check_partial_eq("aa", "aa"));
    assert!(check_partial_eq("A", "a"));
    assert!(check_partial_eq("dhgfe", "dhgfe"));
    assert!(check_partial_eq("DHGFE", "dhgfe"));
    assert!(check_partial_eq("dHGFE", "dhgfe"));
    assert!(check_partial_eq("dhgfE", "dhgfe"));
    assert!(check_partial_eq("dHGFe", "Dhgfe"));
    assert!(!check_partial_eq("dHGVe", "DhgFe"));
    assert!(!check_partial_eq(
        "dHGVedHGVedHGVedHGVedHGVedHGVedHGVedHGVedHGVedHGVedHGVedHGVedHGt",
        "dHGVedHGVedHGVedHGVedHGVedHGVedHGVedHGVedHGVedHGVedHGVedHGVedHGt",
    ));
}

fn hash_label(s: &str) -> u64 {
    let mut hasher = DefaultHasher::new();
    Label::from_str(s).ok().unwrap().hash(&mut hasher);
    hasher.finish()
}

#[test]
fn check_label_hash() {
    assert!(hash_label("") == hash_label(""));
    assert!(hash_label("1") == hash_label("1"));
    assert!(hash_label("a") == hash_label("a"));
    assert!(hash_label("aa") == hash_label("aa"));
    assert!(hash_label("A") == hash_label("a"));
    assert!(hash_label("dhgfe") == hash_label("dhgfe"));
    assert!(hash_label("DHGFE") == hash_label("dhgfe"));
    assert!(hash_label("dHGFE") == hash_label("dhgfe"));
    assert!(hash_label("dhgfE") == hash_label("dhgfe"));
    assert!(hash_label("dHGFe") == hash_label("Dhgfe"));
}
