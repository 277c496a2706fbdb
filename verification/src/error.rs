use vstd::prelude::*;

verus! {

/// The error kinds of the decoder, each with the (positive) `errno` code it stands for.
#[derive(Clone, Copy, PartialEq, Eq, Structural, Debug)]
#[non_exhaustive]
pub enum Rav1dError {
    /// Not actually used (yet), but this forces `0` to be the niche,
    /// which is more optimal since `0` is no error for [`Dav1dResult`].
    _EPERM,
    ENOENT,
    EIO,
    EAGAIN,
    ENOMEM,
    EINVAL,
    ERANGE,
    ENOPROTOOPT,
}

impl Rav1dError {
    /// The `errno` code of an error kind.
    pub open spec fn spec_code(self) -> u8 {
        match self {
            Rav1dError::_EPERM => 1,
            Rav1dError::ENOENT => 2,
            Rav1dError::EIO => 5,
            Rav1dError::EAGAIN => 11,
            Rav1dError::ENOMEM => 12,
            Rav1dError::EINVAL => 22,
            Rav1dError::ERANGE => 34,
            Rav1dError::ENOPROTOOPT => 92,
        }
    }

    /// The `errno` code of this error kind.
    pub fn code(self) -> (c: u8)
        ensures
            c == self.spec_code(),
    {
        match self {
            Rav1dError::_EPERM => 1,
            Rav1dError::ENOENT => 2,
            Rav1dError::EIO => 5,
            Rav1dError::EAGAIN => 11,
            Rav1dError::ENOMEM => 12,
            Rav1dError::EINVAL => 22,
            Rav1dError::ERANGE => 34,
            Rav1dError::ENOPROTOOPT => 92,
        }
    }
}

impl Rav1dError {
    /// The error kind whose `errno` code is `discriminant`, if there is one.
    pub open spec fn spec_from_repr(discriminant: usize) -> Option<Rav1dError> {
        if discriminant == 1 {
            Some(Rav1dError::_EPERM)
        } else if discriminant == 2 {
            Some(Rav1dError::ENOENT)
        } else if discriminant == 5 {
            Some(Rav1dError::EIO)
        } else if discriminant == 11 {
            Some(Rav1dError::EAGAIN)
        } else if discriminant == 12 {
            Some(Rav1dError::ENOMEM)
        } else if discriminant == 22 {
            Some(Rav1dError::EINVAL)
        } else if discriminant == 34 {
            Some(Rav1dError::ERANGE)
        } else if discriminant == 92 {
            Some(Rav1dError::ENOPROTOOPT)
        } else {
            None
        }
    }

    /// Looks an error kind up by its `errno` code.
    pub fn from_repr(discriminant: usize) -> (r: Option<Rav1dError>)
        ensures
            r == Self::spec_from_repr(discriminant),
            r matches Some(e) ==> e.spec_code() == discriminant,
    {
        match discriminant {
            1 => Some(Rav1dError::_EPERM),
            2 => Some(Rav1dError::ENOENT),
            5 => Some(Rav1dError::EIO),
            11 => Some(Rav1dError::EAGAIN),
            12 => Some(Rav1dError::ENOMEM),
            22 => Some(Rav1dError::EINVAL),
            34 => Some(Rav1dError::ERANGE),
            92 => Some(Rav1dError::ENOPROTOOPT),
            _ => None,
        }
    }
}

/// The decoder's own result type: `Ok` or one of the error kinds.
pub type Rav1dResult<T = ()> = Result<T, Rav1dError>;

/// The C-facing result: `0` for success, minus the `errno` code for an error.
#[derive(Clone, Copy, PartialEq, Eq, Structural, Debug)]
pub struct Dav1dResult(pub i32);

/// The C-facing value of a decoder result.
pub open spec fn spec_dav1d_result_from(value: Rav1dResult) -> Dav1dResult {
    match value {
        Ok(()) => Dav1dResult(0),
        Err(e) => Dav1dResult((-(e.spec_code() as int)) as i32),
    }
}

/// The decoder result that a C-facing value stands for, or the value itself
/// where it is neither `0` nor minus the code of an error kind.
pub open spec fn spec_rav1d_result_try_from(value: Dav1dResult) -> Result<Rav1dResult, Dav1dResult> {
    if value.0 == 0 {
        Ok(Ok(()))
    } else if value.0 < 0 && Rav1dError::spec_from_repr((-value.0) as usize) is Some {
        Ok(Err(Rav1dError::spec_from_repr((-value.0) as usize).unwrap()))
    } else {
        Err(value)
    }
}

impl vstd::std_specs::convert::FromSpecImpl<Rav1dResult> for Dav1dResult {
    open spec fn obeys_from_spec() -> bool {
        true
    }

    open spec fn from_spec(v: Rav1dResult) -> Dav1dResult {
        spec_dav1d_result_from(v)
    }
}

impl From<Rav1dResult> for Dav1dResult {
    fn from(value: Rav1dResult) -> (r: Self)
        ensures
            r == spec_dav1d_result_from(value),
    {
        Dav1dResult(
            -(match value {
                Ok(()) => 0,
                Err(e) => e.code() as i32,
            }),
        )
    }
}

impl vstd::std_specs::convert::TryFromSpecImpl<Dav1dResult> for Rav1dResult {
    open spec fn obeys_try_from_spec() -> bool {
        true
    }

    open spec fn try_from_spec(v: Dav1dResult) -> Result<Rav1dResult, Dav1dResult> {
        spec_rav1d_result_try_from(v)
    }
}

impl TryFrom<Dav1dResult> for Rav1dResult {
    type Error = Dav1dResult;

    fn try_from(value: Dav1dResult) -> (r: Result<Self, Self::Error>)
        ensures
            r == spec_rav1d_result_try_from(value),
    {
        match value.0 {
            0 => Ok(Ok(())),
            e => {
                // Only a negative value other than `i32::MIN` negates to a
                // non-negative `i32`; every other value is no error code.
                if e > 0 || e == i32::MIN {
                    return Err(value);
                }
                let e = -e;
                match Rav1dError::from_repr(e as usize) {
                    Some(e) => Ok(Err(e)),
                    None => Err(value),
                }
            }
        }
    }
}

/// Every error kind is found again by its code, and no code is `0`, which is
/// left for success.
pub proof fn lemma_code_from_repr(e: Rav1dError)
    ensures
        Rav1dError::spec_from_repr(e.spec_code() as usize) == Some(e),
        e.spec_code() != 0,
        spec_dav1d_result_from(Err(e)).0 < 0,
{
}

/// Converting a decoder result to its C-facing value and back gives the
/// result again.
pub proof fn lemma_try_from_undoes_from(value: Rav1dResult)
    ensures
        spec_rav1d_result_try_from(spec_dav1d_result_from(value)) == Ok::<Rav1dResult, Dav1dResult>(value),
{
    if let Err(e) = value {
        let d = spec_dav1d_result_from(value);
        assert(d.0 == -(e.spec_code() as int));
        assert((-d.0) as usize == e.spec_code() as usize);
        lemma_code_from_repr(e);
        assert(d.0 < 0);
        assert(Rav1dError::spec_from_repr((-d.0) as usize) == Some(e));
        assert(spec_rav1d_result_try_from(d) == Ok::<Rav1dResult, Dav1dResult>(Err(e)));
    } else {
        let u = value->Ok_0;
        let () = u;
        assert(value == Ok::<(), Rav1dError>(()));
    }
}

/// A C-facing value that converts to a decoder result is the C-facing value
/// of that result; one that does not is handed back unchanged.
pub proof fn lemma_from_undoes_try_from(value: Dav1dResult)
    ensures
        spec_rav1d_result_try_from(value) matches Ok(r) ==> spec_dav1d_result_from(r) == value,
        spec_rav1d_result_try_from(value) matches Err(v) ==> v == value,
{
}

} // verus!
