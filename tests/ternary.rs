use virtual_brain::ternary_ops::{decode, encode, navigate_ternary, ternary_distance, trisect};
use virtual_brain::{TernaryAddr, TernaryAddrError};

#[test]
fn ternary_addr_test_encode_decode() {
    for depth in 1..=5 {
        let max_val = 3u64.pow(depth as u32) - 1;
        for val in 0..=max_val.min(100) {
            let addr = TernaryAddr::encode(val, depth).unwrap();
            assert_eq!(addr.decode(), val);
        }
    }
}

#[test]
fn ternary_addr_test_trisect() {
    let root = TernaryAddr::root();
    let (left, mid, right) = root.trisect();
    assert_eq!(left.digits(), &[0]);
    assert_eq!(mid.digits(), &[1]);
    assert_eq!(right.digits(), &[2]);
}

#[test]
fn test_navigation_distance() {
    let a = TernaryAddr::new(vec![0, 1]).unwrap();
    let b = TernaryAddr::new(vec![0, 2]).unwrap();
    assert_eq!(a.navigation_distance(&b), 2); // Up to [0], down to [0,2]
}

#[test]
fn test_string_roundtrip() {
    let addr = TernaryAddr::new(vec![0, 1, 2]).unwrap();
    let s = addr.to_string_repr();
    assert_eq!(s, "T012");
    let parsed = TernaryAddr::from_string(&s).unwrap();
    assert_eq!(addr, parsed);
}

#[test]
fn ternary_ops_test_encode_decode() {
    for val in 0..27 {
        let addr = encode(val, 3).unwrap();
        assert_eq!(decode(&addr), val);
    }
}

#[test]
fn ternary_ops_test_trisect() {
    let root = TernaryAddr::root();
    let (l, m, r) = trisect(&root);
    assert_eq!(l.depth(), 1);
    assert_eq!(m.depth(), 1);
    assert_eq!(r.depth(), 1);
}

#[test]
fn encode_writes_most_significant_digit_first() {
    let addr = encode(5, 3).unwrap();
    assert_eq!(addr.digits(), &[0, 1, 2]);
    assert_eq!(encode(0, 0).unwrap().depth(), 0);
    assert_eq!(encode(26, 3).unwrap().digits(), &[2, 2, 2]);
}

#[test]
fn encode_rejects_values_over_capacity() {
    assert_eq!(encode(27, 3), Err(TernaryAddrError::ValueExceedsCapacity(27, 26, 3)));
    assert_eq!(encode(1, 0), Err(TernaryAddrError::ValueExceedsCapacity(1, 0, 0)));
}

#[test]
fn encode_decode_at_large_depths() {
    let addr = encode(u64::MAX, 41).unwrap();
    assert_eq!(addr.depth(), 41);
    assert_eq!(decode(&addr), u64::MAX);
    let deep = encode(7, 60).unwrap();
    assert_eq!(deep.depth(), 60);
    assert_eq!(&deep.digits()[58..], &[2, 1]);
    assert_eq!(decode(&deep), 7);
    let max40 = 3u64.pow(40);
    assert_eq!(
        encode(max40, 40),
        Err(TernaryAddrError::ValueExceedsCapacity(max40, max40 - 1, 40))
    );
}

#[test]
fn new_rejects_first_invalid_digit() {
    assert_eq!(TernaryAddr::new(vec![0, 3, 7]), Err(TernaryAddrError::InvalidDigit(3)));
    assert!(TernaryAddr::new(vec![]).unwrap().digits().is_empty());
    let addr = TernaryAddr::new_unchecked(vec![2, 0]);
    assert_eq!(addr.decode(), 6);
}

#[test]
fn parent_drops_the_last_digit() {
    let addr = TernaryAddr::new(vec![1, 2, 0]).unwrap();
    assert_eq!(addr.parent().unwrap().digits(), &[1, 2]);
    assert!(TernaryAddr::root().parent().is_none());
}

#[test]
fn navigate_appends_a_direction() {
    let addr = TernaryAddr::new(vec![1]).unwrap();
    assert_eq!(addr.navigate(2).unwrap().digits(), &[1, 2]);
    assert_eq!(addr.navigate(3), Err(TernaryAddrError::InvalidDirection(3)));
}

#[test]
fn common_ancestor_is_longest_shared_prefix() {
    let a = TernaryAddr::new(vec![0, 1, 2, 2]).unwrap();
    let b = TernaryAddr::new(vec![0, 1, 0]).unwrap();
    assert_eq!(a.common_ancestor(&b).digits(), &[0, 1]);
    assert_eq!(a.common_ancestor(&a).digits(), a.digits());
    let c = TernaryAddr::new(vec![2]).unwrap();
    assert_eq!(a.common_ancestor(&c).depth(), 0);
    assert_eq!(ternary_distance(&a, &b), 3);
    assert_eq!(ternary_distance(&a, &a), 0);
}

#[test]
fn path_goes_through_common_ancestor() {
    let a = TernaryAddr::new(vec![0, 1, 2]).unwrap();
    let b = TernaryAddr::new(vec![0, 2]).unwrap();
    let path = navigate_ternary(&a, &b);
    let digits: Vec<Vec<u8>> = path.iter().map(|p| p.digits().to_vec()).collect();
    assert_eq!(digits, vec![vec![0, 1, 2], vec![0, 1], vec![0], vec![0, 2]]);
    assert_eq!(path.len(), a.navigation_distance(&b) + 1);
    let same = navigate_ternary(&a, &a);
    assert_eq!(same.len(), 1);
    assert_eq!(same[0], a);
}

#[test]
fn string_form_and_parse_errors() {
    assert_eq!(TernaryAddr::root().to_string_repr(), "T");
    assert_eq!(TernaryAddr::from_string("T").unwrap(), TernaryAddr::root());
    assert_eq!(
        TernaryAddr::from_string("X01"),
        Err(TernaryAddrError::InvalidPrefix("X01".to_string()))
    );
    assert_eq!(
        TernaryAddr::from_string(""),
        Err(TernaryAddrError::InvalidPrefix(String::new()))
    );
    assert_eq!(TernaryAddr::from_string("T0a1"), Err(TernaryAddrError::InvalidDigit(255)));
    assert_eq!(TernaryAddr::from_string("T3a"), Err(TernaryAddrError::InvalidDigit(255)));
    assert_eq!(TernaryAddr::from_string("T0192"), Err(TernaryAddrError::InvalidDigit(9)));
    assert_eq!(TernaryAddr::from_string("T2210").unwrap().digits(), &[2, 2, 1, 0]);
}

#[test]
fn default_and_clone() {
    assert_eq!(TernaryAddr::default(), TernaryAddr::root());
    let a = TernaryAddr::new(vec![2, 1]).unwrap();
    let b = a.clone();
    assert_eq!(a, b);
}

#[test]
fn reencoding_a_decoded_address_is_identity() {
    for digits in [vec![], vec![0], vec![2, 0, 1], vec![0, 0, 2, 1, 1], vec![2; 20]] {
        let addr = TernaryAddr::new(digits).unwrap();
        let again = encode(decode(&addr), addr.depth()).unwrap();
        assert_eq!(again, addr);
    }
}
