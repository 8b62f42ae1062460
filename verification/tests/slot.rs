use billow::ConnectorID;
use billow::Module;
use billow::Slot;

#[test]
fn test_collapse() {
    let mut slot = Slot {
        x: 0,
        y: 0,
        superposition: vec![
            Module {
                connectors: [
                    ConnectorID::from("a".as_bytes()),
                    ConnectorID::from("b".as_bytes()),
                    ConnectorID::from("a".as_bytes()),
                    ConnectorID::from("b".as_bytes()),
                ],
                ..Default::default()
            },
            Module {
                connectors: [
                    ConnectorID::from("c".as_bytes()),
                    ConnectorID::from("d".as_bytes()),
                    ConnectorID::from("e".as_bytes()),
                    ConnectorID::from("f".as_bytes()),
                ],
                ..Default::default()
            },
        ],
    };

    slot.collapse();
    assert_eq!(slot.superposition.len(), 1);
}

#[test]
fn collapse_picks_a_candidate() {
    let mut slot = Slot {
        x: 3,
        y: 5,
        superposition: vec![Module::new(0), Module::new(1), Module::new(2)],
    };
    slot.collapse();
    assert_eq!(slot.superposition.len(), 1);
    assert!(slot.superposition[0].index < 3);
    assert_eq!(slot.x, 3);
    assert_eq!(slot.y, 5);
}

#[test]
fn collapse_of_empty_slot_is_sticky() {
    let mut slot = Slot { x: 0, y: 0, superposition: vec![] };
    slot.collapse();
    assert_eq!(slot.superposition.len(), 0);
}
