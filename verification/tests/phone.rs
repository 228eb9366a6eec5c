use lib::phone::{CanTurnOn, MyiPhone13Pro};

#[test]
fn turnon_phone() {
    let mut phone = MyiPhone13Pro::new(false);
    phone.turnon();
    assert!(phone.is_on);
}

#[test]
fn turnon_phone_that_is_on() {
    let mut phone = MyiPhone13Pro::new(true);
    assert!(phone.is_on);
    phone.turnon();
    assert!(phone.is_on);
}

#[test]
fn new_phone_keeps_state() {
    let phone = MyiPhone13Pro::new(false);
    assert!(!phone.is_on);
}
