use rav1d::error::Dav1dResult;
use rav1d::error::Rav1dError;
use rav1d::error::Rav1dResult;

const ALL: [(Rav1dError, u8); 8] = [
    (Rav1dError::_EPERM, 1),
    (Rav1dError::ENOENT, 2),
    (Rav1dError::EIO, 5),
    (Rav1dError::EAGAIN, 11),
    (Rav1dError::ENOMEM, 12),
    (Rav1dError::EINVAL, 22),
    (Rav1dError::ERANGE, 34),
    (Rav1dError::ENOPROTOOPT, 92),
];

#[test]
fn codes_are_the_errno_values() {
    for (e, code) in ALL {
        assert_eq!(e.code(), code);
    }
}

#[test]
fn from_repr_finds_every_kind() {
    for (e, code) in ALL {
        assert_eq!(Rav1dError::from_repr(code as usize), Some(e));
    }
}

#[test]
fn from_repr_refuses_other_codes() {
    for d in [0usize, 3, 4, 6, 13, 21, 23, 33, 35, 91, 93, 255, 256, usize::MAX] {
        assert_eq!(Rav1dError::from_repr(d), None);
    }
}

#[test]
fn ok_is_zero() {
    let r: Rav1dResult = Ok(());
    assert_eq!(Dav1dResult::from(r), Dav1dResult(0));
}

#[test]
fn errors_are_negated_codes() {
    let r: Rav1dResult = Err(Rav1dError::EINVAL);
    assert_eq!(Dav1dResult::from(r), Dav1dResult(-22));
    let r: Rav1dResult = Err(Rav1dError::ENOMEM);
    assert_eq!(Dav1dResult::from(r), Dav1dResult(-12));
    for (e, code) in ALL {
        let r: Rav1dResult = Err(e);
        assert_eq!(Dav1dResult::from(r), Dav1dResult(-(code as i32)));
    }
}

#[test]
fn zero_converts_to_ok() {
    assert_eq!(Rav1dResult::try_from(Dav1dResult(0)), Ok(Ok(())));
}

#[test]
fn negated_codes_convert_to_errors() {
    assert_eq!(Rav1dResult::try_from(Dav1dResult(-22)), Ok(Err(Rav1dError::EINVAL)));
    assert_eq!(Rav1dResult::try_from(Dav1dResult(-11)), Ok(Err(Rav1dError::EAGAIN)));
    assert_eq!(Rav1dResult::try_from(Dav1dResult(-92)), Ok(Err(Rav1dError::ENOPROTOOPT)));
}

#[test]
fn other_values_are_handed_back() {
    for v in [1, 22, 92, i32::MAX, -3, -4, -93, -256, -1000, i32::MIN, i32::MIN + 1] {
        assert_eq!(Rav1dResult::try_from(Dav1dResult(v)), Err(Dav1dResult(v)));
    }
}

#[test]
fn conversion_round_trips() {
    let mut results: Vec<Rav1dResult> = vec![Ok(())];
    for (e, _) in ALL {
        results.push(Err(e));
    }
    for r in results {
        assert_eq!(Rav1dResult::try_from(Dav1dResult::from(r)), Ok(r));
    }
    for v in -100..=100 {
        if let Ok(r) = Rav1dResult::try_from(Dav1dResult(v)) {
            assert_eq!(Dav1dResult::from(r), Dav1dResult(v));
        }
    }
}
