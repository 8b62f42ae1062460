use billow::ConnectorID;
use billow::Direction;
use billow::Module;
use billow::Slot;

#[test]
fn test_is_possible() {
    let module_a = Module {
        connectors: [
            ConnectorID::from("a".as_bytes()),
            ConnectorID::from("b".as_bytes()),
            ConnectorID::from("a".as_bytes()),
            ConnectorID::from("b".as_bytes()),
        ],
        ..Default::default()
    };

    let module_b = Module {
        connectors: [
            ConnectorID::from("c".as_bytes()),
            ConnectorID::from("d".as_bytes()),
            ConnectorID::from("e".as_bytes()),
            ConnectorID::from("f".as_bytes()),
        ],
        ..Default::default()
    };

    let slot = Slot { superposition: vec![module_a.clone()], x: 0, y: 0 };

    assert!(module_a.is_possible(&slot, Direction::Up));
    assert!(module_a.is_possible(&slot, Direction::Left));
    assert!(!module_b.is_possible(&slot, Direction::Up));
}

#[test]
fn adjacency_is_symmetric() {
    // a's connector Up equals b's connector Down: a fits below a slot
    // holding only b, and b fits above a slot holding only a.
    let shared = ConnectorID::from("m".as_bytes());
    let module_a = Module {
        index: 0,
        connectors: [
            shared,
            ConnectorID::from("a1".as_bytes()),
            ConnectorID::from("a2".as_bytes()),
            ConnectorID::from("a3".as_bytes()),
        ],
    };
    let module_b = Module {
        index: 1,
        connectors: [
            ConnectorID::from("b0".as_bytes()),
            ConnectorID::from("b1".as_bytes()),
            shared,
            ConnectorID::from("b3".as_bytes()),
        ],
    };

    let slot_a = Slot { superposition: vec![module_a], x: 0, y: 0 };
    let slot_b = Slot { superposition: vec![module_b], x: 0, y: 1 };

    assert!(module_a.is_possible(&slot_b, Direction::Down));
    assert!(module_b.is_possible(&slot_a, Direction::Up));
    // Without a shared connector neither fits the other way round.
    assert!(!module_a.is_possible(&slot_b, Direction::Up));
    assert!(!module_b.is_possible(&slot_a, Direction::Down));
}

#[test]
fn new_module_has_blank_connectors() {
    let m = Module::new(7);
    assert_eq!(m.index, 7);
    for c in m.connectors.iter() {
        assert_eq!(c.0, [0, 0, 0, 0]);
    }
}
