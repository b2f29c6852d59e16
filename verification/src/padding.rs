//! Padding as written in a configuration: one number for every side, two
//! for the vertical and horizontal sides, or four for top, right, bottom
//! and left; and the shortest such form of a padding.
use vstd::prelude::*;

use crate::config::Padding;

verus! {

/// Why values do not make a padding.
#[derive(Debug, Clone, Copy, PartialEq, Eq, Structural)]
pub enum PaddingError {
    /// A number does not fit in `u16`.
    OutOfRange(i64),
    /// The count of values read (none, or three) is not 1, 2 or 4.
    InvalidLength(u8),
}

/// The same padding on every side.
pub open spec fn uniform(v: u16) -> Padding {
    Padding { top: v, right: v, bottom: v, left: v }
}

/// The padding one number gives: that number on every side, when it fits
/// in `u16`.
pub open spec fn padding_of_number(v: int) -> Result<Padding, PaddingError> {
    if 0 <= v <= u16::MAX {
        Ok(uniform(v as u16))
    } else {
        Err(PaddingError::OutOfRange(v as i64))
    }
}

/// The padding a list of values gives (at most four are read): one value
/// for every side; two for top and bottom, then left and right; four for
/// top, right, bottom and left. No value, or three, is refused.
pub open spec fn padding_of_values(vs: Seq<u16>) -> Result<Padding, PaddingError> {
    if vs.len() == 0 {
        Err(PaddingError::InvalidLength(0))
    } else if vs.len() == 1 {
        Ok(uniform(vs[0]))
    } else if vs.len() == 2 {
        Ok(Padding { top: vs[0], right: vs[1], bottom: vs[0], left: vs[1] })
    } else if vs.len() == 3 {
        Err(PaddingError::InvalidLength(3))
    } else {
        Ok(Padding { top: vs[0], right: vs[1], bottom: vs[2], left: vs[3] })
    }
}

/// The shortest list of values that writes `p`.
pub open spec fn values_of_padding(p: Padding) -> Seq<u16> {
    if p.top == p.bottom && p.left == p.right && p.top == p.left {
        seq![p.top]
    } else if p.top == p.bottom && p.left == p.right {
        seq![p.top, p.left]
    } else {
        seq![p.top, p.right, p.bottom, p.left]
    }
}

/// The padding one number gives (see [`padding_of_number`]).
pub fn padding_from_number(v: i64) -> (r: Result<Padding, PaddingError>)
    ensures
        r == padding_of_number(v as int),
{
    if 0 <= v && v <= 65535 {
        let u = v as u16;
        Ok(Padding { top: u, right: u, bottom: u, left: u })
    } else {
        Err(PaddingError::OutOfRange(v))
    }
}

/// The padding a list of values gives (see [`padding_of_values`]).
pub fn padding_from_values(vs: &Vec<u16>) -> (r: Result<Padding, PaddingError>)
    ensures
        r == padding_of_values(vs@),
{
    let n = vs.len();
    if n == 0 {
        Err(PaddingError::InvalidLength(0))
    } else if n == 1 {
        Ok(Padding { top: vs[0], right: vs[0], bottom: vs[0], left: vs[0] })
    } else if n == 2 {
        Ok(Padding { top: vs[0], right: vs[1], bottom: vs[0], left: vs[1] })
    } else if n == 3 {
        Err(PaddingError::InvalidLength(3))
    } else {
        Ok(Padding { top: vs[0], right: vs[1], bottom: vs[2], left: vs[3] })
    }
}

/// The shortest list of values that writes `p` (see [`values_of_padding`]).
pub fn padding_values(p: Padding) -> (r: Vec<u16>)
    ensures
        r@ == values_of_padding(p),
{
    let mut r: Vec<u16> = Vec::new();
    if p.top == p.bottom && p.left == p.right && p.top == p.left {
        r.push(p.top);
    } else if p.top == p.bottom && p.left == p.right {
        r.push(p.top);
        r.push(p.left);
    } else {
        r.push(p.top);
        r.push(p.right);
        r.push(p.bottom);
        r.push(p.left);
    }
    proof {
        assert(r@ =~= values_of_padding(p));
    }
    r
}

/// Writing a padding as values and reading them back gives it again.
pub proof fn law_padding_round_trip(p: Padding)
    ensures
        padding_of_values(values_of_padding(p)) == Ok::<Padding, PaddingError>(p),
{
}

/// One value pads every side; two pad the top and bottom with the first
/// and the sides with the second; four go top, right, bottom, left; no
/// value or three are refused. A number pads every side exactly when it
/// fits in `u16`.
pub proof fn law_padding_values_by_position(vs: Seq<u16>, v: int)
    ensures
        vs.len() == 1 ==> padding_of_values(vs) == Ok::<Padding, PaddingError>(
            Padding { top: vs[0], right: vs[0], bottom: vs[0], left: vs[0] },
        ),
        vs.len() == 2 ==> padding_of_values(vs) == Ok::<Padding, PaddingError>(
            Padding { top: vs[0], right: vs[1], bottom: vs[0], left: vs[1] },
        ),
        vs.len() >= 4 ==> padding_of_values(vs) == Ok::<Padding, PaddingError>(
            Padding { top: vs[0], right: vs[1], bottom: vs[2], left: vs[3] },
        ),
        vs.len() == 0 || vs.len() == 3 ==> padding_of_values(vs) is Err,
        (padding_of_number(v) is Ok) <==> (0 <= v <= u16::MAX),
        padding_of_number(v) matches Ok(p) ==> p.top == v && p.right == v && p.bottom == v && p.left == v,
{
}

/// The written form is as short as the padding allows: one value when all
/// sides agree, two when top matches bottom and left matches right, four
/// otherwise.
pub proof fn law_written_form_is_shortest(p: Padding)
    ensures
        values_of_padding(p).len() == 1 <==> (p.top == p.right && p.right == p.bottom && p.bottom == p.left),
        values_of_padding(p).len() <= 2 <==> (p.top == p.bottom && p.left == p.right),
        values_of_padding(p).len() != 3,
{
}

} // verus!
