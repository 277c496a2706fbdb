use rav1d::with_offset::WithOffset;

#[test]
fn add_and_sub_unsigned() {
    let w = WithOffset { data: 'p', offset: 10 };
    let a = w + 5usize;
    assert_eq!(a.offset, 15);
    assert_eq!(a.data, 'p');
    let b = a - 15usize;
    assert_eq!(b.offset, 0);
}

#[test]
fn add_assign_and_sub_assign_unsigned() {
    let mut w = WithOffset { data: (), offset: 7 };
    w += 3usize;
    assert_eq!(w.offset, 10);
    w -= 10usize;
    assert_eq!(w.offset, 0);
}

#[test]
fn signed_moves() {
    let w = WithOffset { data: 1u8, offset: 100 };
    assert_eq!((w + -30isize).offset, 70);
    assert_eq!((w + 30isize).offset, 130);
    assert_eq!((w - 30isize).offset, 70);
    assert_eq!((w - -30isize).offset, 130);
    let mut v = w;
    v += -100isize;
    assert_eq!(v.offset, 0);
    v -= 4isize;
    assert_eq!(v.offset, usize::MAX - 3);
}

#[test]
fn signed_moves_wrap() {
    let w = WithOffset { data: 0u8, offset: 0 };
    assert_eq!((w + -1isize).offset, usize::MAX);
    let top = WithOffset { data: 0u8, offset: usize::MAX };
    assert_eq!((top + 1isize).offset, 0);
    assert_eq!((top - -2isize).offset, 1);
}

#[test]
fn moving_back_undoes_moving_forward() {
    for offset in [0usize, 1, 17, usize::MAX / 2, usize::MAX] {
        for delta in [0isize, 1, -1, 1000, -1000, isize::MAX, isize::MIN + 1] {
            let w = WithOffset { data: (), offset };
            assert_eq!(((w + delta) - delta).offset, offset);
        }
    }
    let w = WithOffset { data: (), offset: 40 };
    assert_eq!(((w + 2usize) - 2usize).offset, 40);
}
