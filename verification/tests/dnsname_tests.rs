use rustydns::Name;

fn check_to_bytes(s: &str, expected: Vec<u8>) -> bool {
    let object = Name::from_str(s);
    if object.is_err() {
        return false;
    }
    let object = object.ok().unwrap();
    let mut v = Vec::<u8>::new();
    if !object.to_bytes(&mut v).is_ok() {
        return false;
    }
    expected.eq(&v)
}

fn check_from_bytes(bytes: &[u8], exp: Result<&str, &str>) -> bool {
    let result = Name::from_bytes(bytes);
    match exp {
        Ok(s) => {
            let entity = &result.unwrap();
            let expected = &Name::from_str(s).ok().unwrap();
            expected.eq(entity)
        },
        Err(_) => result.is_err(),
    }
}

fn check_partial_eq(str1: &str, str2: &str) -> bool {
    let result1 = Name::from_str(str1);
    let result2 = Name::from_str(str2);
    if result1.is_err() || result2.is_err() {
        return false;
    }
    let entity1 = result1.ok().unwrap();
    let entity2 = result2.ok().unwrap();
    entity1.eq(&entity2)
}

fn check_to_from_string(s: &str, expected: Result<&'static str, &'static str>) -> bool {
    let object = Name::from_str(s);
    match expected {
        Err(_) => object.is_err(),
        Ok(_) => {
            let serialized = object.ok().unwrap().to_string();
            s.to_string().eq(&serialized)
        },
    }
}

#[test]
fn dnsname_tests_test_name_to_bytes() {
    assert!(check_to_bytes("", vec![0]));
    assert!(check_to_bytes("www", vec![3, b'w', b'w', b'w', 0]));
    assert!(check_to_bytes("Aa", vec![2, b'A', b'a', 0]));
    assert!(check_to_bytes(
        "aBC.de.fghI",
        vec![4, b'f', b'g', b'h', b'I', 2, b'd', b'e', 3, b'a', b'B', b'C', 0],
    ));
    assert!(check_to_bytes(
        ".aBC.de.fghI",
        vec![4, b'f', b'g', b'h', b'I', 2, b'd', b'e', 3, b'a', b'B', b'C', 0],
    ));

    assert!(check_to_bytes("www.Aa", vec![2, b'A', b'a', 3, b'w', b'w', b'w', 0]));
    assert!(check_to_bytes(".www.Aa", vec![2, b'A', b'a', 3, b'w', b'w', b'w', 0]));
}

#[test]
fn dnsname_tests_test_name_from_bytes() {
    assert!(check_from_bytes(&[0], Ok("")));
    assert!(check_from_bytes(&[3, b'w', b'w', b'w', 0], Ok("www")));
    assert!(check_from_bytes(&[2, b'A', b'a', 0], Ok("Aa")));
    assert!(check_from_bytes(
        &[4, b'f', b'g', b'h', b'I', 2, b'd', b'e', 3, b'a', b'B', b'C', 0],
        Ok("aBC.de.fghI"),
    ));
    assert!(check_from_bytes(
        &[4, b'f', b'g', b'h', b'I', 2, b'd', b'e', 3, b'a', b'B', b'C', 0],
        Ok(".aBC.de.fghI"),
    ));

    assert!(check_from_bytes(&[2, b'A', b'a', 3, b'w', b'w', b'w', 0], Ok("www.Aa")));
    assert!(check_from_bytes(&[2, b'A', b'a', 3, b'w', b'w', b'w', 0], Ok(".www.Aa")));
}

#[test]
fn check_name_partial_eq() {
    assert!(check_partial_eq("", ""));
    assert!(!check_partial_eq("ubeer.org", ""));
    assert!(check_partial_eq("ubeer.org", "ubeer.org"));
    assert!(check_partial_eq("Ubeer.org", "ubeer.org"));
    assert!(check_partial_eq("UbeeR.orG", "ubeer.org"));
    assert!(!check_partial_eq("beer.org", "ubeer.org"));
    assert!(!check_partial_eq("org", "ubeer.org"));
}

#[test]
fn check_name_to_from_string() {
    assert!(check_to_from_string("", Ok("OK")));
    assert!(check_to_from_string("org", Ok("OK")));
    assert!(check_to_from_string("org", Ok("OK")));
    assert!(check_to_from_string("org.ubeer", Ok("OK")));
    assert!(check_to_from_string("org.ubeer", Ok("OK")));
    assert!(check_to_from_string("org.ubeer.www", Ok("OK")));
}
