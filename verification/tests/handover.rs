use hotshot_new_protocol::handover::{epoch_to_forward, HandoverGate};

#[test]
fn the_gate_latches_on_the_first_crossing() {
    let mut gate = HandoverGate::new();
    assert!(!gate.is_active());
    assert!(!gate.record(false));
    assert!(!gate.is_active());
    assert!(gate.record(true));
    assert!(gate.is_active());
    assert!(gate.record(false));
    assert!(gate.is_active());
}

#[test]
fn only_later_epochs_are_announced() {
    assert_eq!(epoch_to_forward(None, 15, 10), Some(2));
    assert_eq!(epoch_to_forward(Some(2), 20, 10), None, "block 20 still lies in epoch 2");
    assert_eq!(epoch_to_forward(Some(2), 21, 10), Some(3));
    assert_eq!(epoch_to_forward(Some(3), 5, 10), None);
    assert_eq!(epoch_to_forward(None, 15, 0), None, "a zero epoch height disables the bridge");
}
