use pvec::{Index, PVec, Shift};

#[test]
fn shift_must_return_correct_index() {
    let index = Index(141);

    let shift_0 = Shift(0);
    let shift_1 = shift_0.inc();
    let shift_2 = shift_1.inc();
    let shift_3 = shift_2.inc();
    let shift_4 = shift_3.inc();
    let shift_5 = shift_4.inc();
    let shift_6 = shift_5.inc();
    let shift_7 = shift_6.inc();

    assert_eq!(index.element(), 0b01101);
    assert_eq!(index.child(shift_0), 0b01101);
    assert_eq!(index.child(shift_1), 0b00100);
    assert_eq!(index.child(shift_2), 0b00000);
    assert_eq!(index.child(shift_3), 0b00000);
    assert_eq!(index.child(shift_4), 0b00000);
    assert_eq!(index.child(shift_5), 0b00000);
    assert_eq!(index.child(shift_6), 0b00000);
    assert_eq!(index.child(shift_7), 0b00000);
}

#[test]
fn new_must_return_correctly_initialized_pvec_instance() {
    let mut vec = PVec::new();

    for i in 0..33 {
        vec.push(i);
    }

    for i in 0..33 {
        assert_eq!(*vec.get(i).unwrap(), i);
    }
}
