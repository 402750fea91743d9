use rustydns::QuestionType;
use rustydns::{DnsError, Ipv4Address, Label, Name, Record, Zone};

#[test]
fn label_wire_vector() {
    let l = Label::from_str("www").unwrap();
    let mut v = Vec::<u8>::new();
    assert_eq!(l.to_bytes(&mut v).unwrap(), 4);
    assert_eq!(v, vec![3, b'w', b'w', b'w']);
}

#[test]
fn name_wire_vector() {
    let n = Name::from_str("aBC.de.fghI").unwrap();
    let mut v = Vec::<u8>::new();
    assert_eq!(n.to_bytes(&mut v).unwrap(), 13);
    assert_eq!(v, vec![4, b'f', b'g', b'h', b'I', 2, b'd', b'e', 3, b'a', b'B', b'C', 0]);
}

#[test]
fn name_eq_ignores_case() {
    let a = Name::from_str("ubeer.org").unwrap();
    let b = Name::from_str("UBEER.ORG").unwrap();
    assert!(a == b);
}

#[test]
fn name_wire_round_trip() {
    for s in ["", "org", "ubeer.org", "a.Bb.CCC.dddd"] {
        let n = Name::from_str(s).unwrap();
        let mut v = Vec::<u8>::new();
        n.to_bytes(&mut v).unwrap();
        let back = Name::from_bytes(&v).unwrap();
        assert!(n == back);
        assert_eq!(back.to_string(), s);
    }
}

#[test]
fn label_text_round_trip_keeps_case() {
    let l = Label::from_str("MiXeD").unwrap();
    assert_eq!(l.to_string(), "MiXeD");
    assert_eq!(l.len(), 5);
}

#[test]
fn label_errors() {
    let long = "y".repeat(64);
    assert_eq!(Label::from_str(&long).unwrap_err(), DnsError::TooLong);
    // A declared length of 64 exceeds the label bound.
    let mut wire = vec![64u8];
    wire.extend(std::iter::repeat(b'y').take(64));
    assert_eq!(Label::from_bytes(&wire).unwrap_err(), DnsError::LabelTooLong);
    assert_eq!(Label::from_bytes(&[5, b'a']).unwrap_err(), DnsError::Truncated);
    assert_eq!(Label::from_bytes(&[]).unwrap_err(), DnsError::Truncated);
}

#[test]
fn name_errors() {
    let long = format!("www.{}", "y".repeat(64));
    assert_eq!(Name::from_str(&long).unwrap_err(), DnsError::InvalidLabel);
    // A wire name whose buffer ends before the terminator.
    assert_eq!(Name::from_bytes(&[3, b'w', b'w', b'w']).unwrap_err(), DnsError::Truncated);
}

#[test]
fn record_text_round_trip() {
    let r = Record::from_str("A 1.2.3.4").unwrap();
    assert_eq!(r.to_string(), "A 1.2.3.4");
    let r = Record::from_str("PTR ubeer.org").unwrap();
    assert_eq!(r.to_string(), "PTR ubeer.org");
}

#[test]
fn record_errors() {
    assert_eq!(Record::from_str("A").unwrap_err(), DnsError::Malformed);
    assert_eq!(Record::from_str("A 1.2.3.300").unwrap_err(), DnsError::InvalidAddress);
    assert_eq!(Record::from_str("A 01.2.3.4").unwrap_err(), DnsError::InvalidAddress);
    assert_eq!(Record::from_str("A 1.2.3").unwrap_err(), DnsError::InvalidAddress);
    let long = format!("PTR {}", "y".repeat(64));
    assert_eq!(Record::from_str(&long).unwrap_err(), DnsError::InvalidName);
    assert_eq!(Record::from_str("BBBBBBB 1.1.1.1").unwrap_err(), DnsError::UnknownType);
}

#[test]
fn record_wire_forms() {
    let r = Record::from_str("A 10.20.30.40").unwrap();
    let mut v = Vec::<u8>::new();
    assert_eq!(r.to_bytes(&mut v).unwrap(), 4);
    assert_eq!(v, vec![10, 20, 30, 40]);

    let r = Record::from_str("PTR www").unwrap();
    let mut v = Vec::<u8>::new();
    assert_eq!(r.to_bytes(&mut v).unwrap(), 5);
    assert_eq!(v, vec![3, b'w', b'w', b'w', 0]);
}

#[test]
fn ipv4_wire_round_trip() {
    let a = Ipv4Address::new(1, 2, 3, 4);
    let mut v = Vec::<u8>::new();
    assert_eq!(a.to_bytes(&mut v).unwrap(), 4);
    assert_eq!(Ipv4Address::from_bytes(&v).unwrap(), a);
    assert_eq!(a.to_string(), "1.2.3.4");
    assert_eq!(Ipv4Address::from_bytes(&[1, 2, 3]).unwrap_err(), DnsError::Truncated);
    assert_eq!(Ipv4Address::from_bytes(&[1, 2, 3, 4, 5]).unwrap_err(), DnsError::Malformed);
}

#[test]
fn zone_add_and_lookup() {
    let mut z = Zone::new();
    let name = Name::from_str("ubeer.org").unwrap();
    let record = Record::from_str("A 1.2.3.4").unwrap();
    assert!(z.add(name, record).is_ok());

    let name = Name::from_str("ubeer.org").unwrap();
    let record = Record::from_str("A 1.2.3.4").unwrap();
    assert_eq!(z.lookup(&name), Some(&record));

    let absent = Name::from_str("not.present").unwrap();
    assert_eq!(z.lookup(&absent), None);
}

#[test]
fn zone_duplicate_add_fails() {
    let mut z = Zone::new();
    let name = Name::from_str("ubeer.org").unwrap();
    let record = Record::from_str("A 1.2.3.4").unwrap();
    assert!(z.add(name, record).is_ok());

    let name = Name::from_str("ubeer.org").unwrap();
    let record = Record::from_str("A 5.6.7.8").unwrap();
    assert_eq!(z.add(name, record).unwrap_err(), DnsError::AlreadyExists);
}

#[test]
fn zone_path_blocked_by_record() {
    let mut z = Zone::new();
    let name = Name::from_str("alfheim.yggdrasil").unwrap();
    let record = Record::from_str("A 1.1.1.1").unwrap();
    assert!(z.add(name, record).is_ok());

    let name = Name::from_str("sub.alfheim.yggdrasil").unwrap();
    let record = Record::from_str("A 2.2.2.2").unwrap();
    assert_eq!(z.add(name, record).unwrap_err(), DnsError::PathBlockedByRecord);
}

#[test]
fn zone_lookup_below_record_finds_it() {
    // The traversal returns the first record met, so a query that
    // extends below an existing leaf resolves to that leaf's record.
    let mut z = Zone::new();
    let name = Name::from_str("ubeer.org").unwrap();
    let record = Record::from_str("A 1.2.3.4").unwrap();
    assert!(z.add(name, record).is_ok());

    let deeper = Name::from_str("deep.ubeer.org").unwrap();
    let record = Record::from_str("A 1.2.3.4").unwrap();
    assert_eq!(z.lookup(&deeper), Some(&record));
}

#[test]
fn zone_add_root_name_fails() {
    let mut z = Zone::new();
    let name = Name::from_str("").unwrap();
    let record = Record::from_str("A 1.2.3.4").unwrap();
    assert_eq!(z.add(name, record).unwrap_err(), DnsError::EmptyName);
}

#[test]
fn zone_write_dumps_records() {
    let mut z = Zone::new();
    assert!(z.add_from_str("ubeer.org A 1.2.3.4").is_ok());
    assert!(z.add_from_str("www.ubeer.org A 5.6.7.8").is_err());
    assert!(z.add_from_str("beer.org PTR ubeer.org").is_ok());

    let mut out = String::new();
    z.write(&mut out).unwrap();
    assert_eq!(out, "ubeer.org A 1.2.3.4\nbeer.org PTR ubeer.org\n");
}

#[test]
fn zone_failed_add_leaves_zone_unchanged() {
    let mut z = Zone::new();
    assert!(z.add_from_str("ubeer.org A 1.2.3.4").is_ok());
    let mut before = String::new();
    z.write(&mut before).unwrap();

    // Blocked below a record: nothing may change.
    assert!(z.add_from_str("www.ubeer.org A 5.6.7.8").is_err());
    let mut after = String::new();
    z.write(&mut after).unwrap();
    assert_eq!(before, after);
}

#[test]
fn record_eq_ptr_ignores_name_case() {
    let a = Record::from_str("PTR ubeer.org").unwrap();
    let b = Record::from_str("PTR UBEER.ORG").unwrap();
    assert!(a == b);
    let c = Record::from_str("PTR beer.org").unwrap();
    assert!(a != c);
    let d = Record::from_str("A 1.2.3.4").unwrap();
    assert!(a != d);
}

#[test]
fn question_type_wire_errors() {
    assert_eq!(QuestionType::from_bytes(&[0]).unwrap_err(), DnsError::Truncated);
    assert_eq!(QuestionType::from_bytes(&[0, 3]).unwrap_err(), DnsError::UnknownType);
}
