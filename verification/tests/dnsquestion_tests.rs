use rustydns::QuestionType;

fn check_to_bytes(s: &str, expected: Vec<u8>) -> bool {
    let object = QuestionType::from_str(s);
    if object.is_err() {
        return false;
    }
    let object = object.ok().unwrap();
    let mut v = Vec::<u8>::new();
    if !object.to_bytes(&mut v).is_ok() {
        return false;
    }
    expected.eq(&v)
}

fn check_from_bytes(bytes: &[u8], exp: Result<&str, &str>) -> bool {
    let result = QuestionType::from_bytes(bytes);
    match exp {
        Ok(s) => {
            let entity = &result.unwrap();
            let expected = &QuestionType::from_str(s).ok().unwrap();
            expected.eq(entity)
        },
        Err(_) => result.is_err(),
    }
}

fn check_to_from_string(s: &str, expected: Result<&'static str, &'static str>) -> bool {
    let object = QuestionType::from_str(s);
    match expected {
        Err(_) => object.is_err(),
        Ok(_) => {
            let serialized = object.ok().unwrap().to_string();
            s.to_string().eq(&serialized)
        },
    }
}

#[test]
fn test_question_type_to_bytes() {
    assert!(check_to_bytes("A", vec![0u8, 1u8]));
    assert!(check_to_bytes("NS", vec![0u8, 2u8]));
    assert!(check_to_bytes("CNAME", vec![0u8, 5u8]));
    assert!(check_to_bytes("PTR", vec![0u8, 12u8]));
    assert!(check_to_bytes("HINFO", vec![0u8, 13u8]));
    assert!(check_to_bytes("MX", vec![0u8, 15u8]));
    assert!(check_to_bytes("AXFR", vec![0u8, 252u8]));
    assert!(check_to_bytes("ANY", vec![0u8, 255u8]));
}

#[test]
fn test_question_type_from_bytes() {
    assert!(check_from_bytes(&[0u8, 1u8], Ok("A")));
    assert!(check_from_bytes(&[0u8, 2u8], Ok("NS")));
    assert!(check_from_bytes(&[0u8, 5u8], Ok("CNAME")));
    assert!(check_from_bytes(&[0u8, 12u8], Ok("PTR")));
    assert!(check_from_bytes(&[0u8, 13u8], Ok("HINFO")));
    assert!(check_from_bytes(&[0u8, 15u8], Ok("MX")));
    assert!(check_from_bytes(&[0u8, 252u8], Ok("AXFR")));
    assert!(check_from_bytes(&[0u8, 255u8], Ok("ANY")));
}

#[test]
fn test_question_type_to_from_string() {
    assert!(check_to_from_string("A", Ok("A")));
    assert!(check_to_from_string("NS", Ok("NS")));
    assert!(check_to_from_string("CNAME", Ok("CNAME")));
    assert!(check_to_from_string("PTR", Ok("PTR")));
    assert!(check_to_from_string("HINFO", Ok("HINFO")));
    assert!(check_to_from_string("MX", Ok("MX")));
    assert!(check_to_from_string("AXFR", Ok("AXFR")));
    assert!(check_to_from_string("ANY", Ok("ANY")));
    assert!(check_to_from_string("InvaLid", Err("")));
}
