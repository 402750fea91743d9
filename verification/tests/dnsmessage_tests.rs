use rustydns::{calc_dns_string_len, dns_string_from_str, dns_strings_to_bytes};

#[test]
fn test_calc_dns_string_len() {
    let v = vec![];

    assert_eq!(calc_dns_string_len(&v).unwrap(), 0);

    let v = vec![[0u8; 64]];
    assert_eq!(calc_dns_string_len(&v).unwrap(), 1);

    let v = vec![[0u8; 64], [0u8; 64]];
    assert_eq!(calc_dns_string_len(&v).unwrap(), 2);

    let v = vec![[0u8; 64], [0u8; 64], [0u8; 64]];
    assert_eq!(calc_dns_string_len(&v).unwrap(), 3);

    let v = dns_string_from_str("abcde").unwrap();
    assert_eq!(calc_dns_string_len(&vec![v]).unwrap(), 6);

    let w = dns_string_from_str("fgh").unwrap();
    assert_eq!(calc_dns_string_len(&vec![w, v]).unwrap(), 10);
}

#[test]
fn test_calc_dns_string_len_rejects_long() {
    let mut bad = [0u8; 64];
    bad[0] = 64;
    assert!(calc_dns_string_len(&vec![bad]).is_err());
}

#[test]
fn test_dns_string_from_str_rejects_long() {
    let long = "x".repeat(64);
    assert!(dns_string_from_str(&long).is_err());
    let fits = "x".repeat(63);
    assert!(dns_string_from_str(&fits).is_ok());
}

#[test]
fn test_dns_strings_to_bytes() {
    let v = dns_string_from_str("ab").unwrap();
    let w = dns_string_from_str("c").unwrap();
    let bytes = dns_strings_to_bytes(&vec![v, w]).unwrap();
    assert_eq!(bytes, vec![2, b'a', b'b', 1, b'c']);

    let mut bad = [0u8; 64];
    bad[0] = 64;
    assert!(dns_strings_to_bytes(&vec![bad]).is_err());
}
