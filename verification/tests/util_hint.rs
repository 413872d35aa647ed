#[test]
fn likely() {
    for val in [true, false] {
        assert_eq!(jix::util::hint::likely(val), val);
    }
}

#[test]
fn unlikely() {
    for val in [true, false] {
        assert_eq!(jix::util::hint::unlikely(val), val);
    }
}
