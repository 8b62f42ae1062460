use billow::ConnectorID;

#[test]
fn test_from_string() {
    let id = ConnectorID::from("a".as_bytes());
    assert_eq!(id.0, [202, 151, 129, 18]);
}

#[test]
fn test_from_array() {
    let id = ConnectorID::from(&[115, 155, 155, 255]);
    assert_eq!(id.0, [69, 209, 46, 83]);
}

#[test]
fn test_from_vec() {
    let id = ConnectorID::from(&vec![115, 155, 155, 255]);
    assert_eq!(id.0, [69, 209, 46, 83]);
}

#[test]
fn conector_test_display() {
    let id = ConnectorID::from("a".as_bytes());
    assert_eq!(id.to_string(), "CA978112");
}

#[test]
fn test_compare() {
    let id1 = ConnectorID::from("very long string".as_bytes());
    let id2 = ConnectorID::from("shorter string".as_bytes());
    assert_ne!(id1, id2);
    assert_eq!(id1, ConnectorID::from("very long string".as_bytes()));
}

#[test]
fn from_is_deterministic() {
    let id1 = ConnectorID::from("some bytes".as_bytes());
    let id2 = ConnectorID::from("some bytes".as_bytes());
    assert_eq!(id1, id2);
    assert_eq!(id1.0, id2.0);
}

#[test]
fn default_is_all_zero() {
    let id = ConnectorID::default();
    assert_eq!(id.0, [0, 0, 0, 0]);
    assert_eq!(id.to_string(), "00000000");
}
