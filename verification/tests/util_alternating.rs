use jix::util::alternating::AlternatingBuffers;

/// data() on a freshly created Init state returns the initial slice.
#[test]
fn alternating_buffers_init_data() {
    let data = [1u8, 2, 3, 4];
    let mut buf1 = [0u8; 4];
    let mut buf2 = [0u8; 4];
    let ab = AlternatingBuffers::with_const_src(&data, &mut buf1, &mut buf2);
    assert_eq!(ab.data(), &[1u8, 2, 3, 4]);
}

/// The first edit() transitions from Init to Alternating, returning (the initial data, tmp_buf1).
#[test]
fn alternating_buffers_first_edit_transitions() {
    let data = [1u8, 2, 3, 4];
    let mut buf1 = [0u8; 4];
    let mut buf2 = [0u8; 4];
    let mut ab = AlternatingBuffers::with_const_src(&data, &mut buf1, &mut buf2);

    {
        let (src, dst) = ab.edit();
        assert_eq!(src, &[1u8, 2, 3, 4]);
        dst.copy_from_slice(&[10, 20, 30, 40]);
    }

    assert!(matches!(ab, AlternatingBuffers::Alternating { .. }));
    assert_eq!(ab.data(), &[10u8, 20, 30, 40]);
}

/// A second edit() reads the output of the first and writes a new result.
#[test]
fn alternating_buffers_two_edits() {
    let data = [1u8, 2, 3];
    let mut buf1 = [0u8; 3];
    let mut buf2 = [0u8; 3];
    let mut ab = AlternatingBuffers::with_const_src(&data, &mut buf1, &mut buf2);

    {
        let (src, dst) = ab.edit();
        assert_eq!(src, &[1u8, 2, 3]);
        for (d, &b) in dst.iter_mut().zip(src) {
            *d = b + 10;
        }
    }
    assert_eq!(ab.data(), &[11u8, 12, 13]);

    {
        let (src, dst) = ab.edit();
        assert_eq!(src, &[11u8, 12, 13]);
        for (d, &b) in dst.iter_mut().zip(src) {
            *d = b + 10;
        }
    }
    assert_eq!(ab.data(), &[21u8, 22, 23]);
}

/// Three or more edits continue to alternate correctly.
#[test]
fn alternating_buffers_pipeline() {
    let data = [0u8];
    let mut buf1 = [0u8; 1];
    let mut buf2 = [0u8; 1];
    let mut ab = AlternatingBuffers::with_const_src(&data, &mut buf1, &mut buf2);

    for step in 1u8..=5 {
        let (src, dst) = ab.edit();
        let prev = src[0];
        dst[0] = prev + step;
    }
    // 0 + 1 + 2 + 3 + 4 + 5 = 15
    assert_eq!(ab.data(), &[15u8]);
}

/// edit()'s src mirrors data() from the previous step.
#[test]
fn alternating_buffers_src_matches_previous_data() {
    let data = [42u8];
    let mut buf1 = [0u8; 1];
    let mut buf2 = [0u8; 1];
    let mut ab = AlternatingBuffers::with_const_src(&data, &mut buf1, &mut buf2);

    for _ in 0..4 {
        let current = ab.data().to_vec();
        let (src, dst) = ab.edit();
        assert_eq!(src, current.as_slice());
        dst[0] = src[0].wrapping_add(1);
    }
}

#[test]
fn alternating_buffers_new_starts_from_main() {
    let mut main = [5u8, 6];
    let mut secondary = [0u8; 2];
    let mut ab = AlternatingBuffers::new(&mut main, &mut secondary);
    assert_eq!(ab.data(), &[5u8, 6]);
    let (src, dst) = ab.edit();
    assert_eq!(src, &[5u8, 6]);
    dst[0] = src[1];
    dst[1] = src[0];
    assert_eq!(ab.into_data(), &[6u8, 5]);
}
