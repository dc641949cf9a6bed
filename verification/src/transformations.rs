use crate::matrix::Matrix;
use vstd::prelude::*;

verus! {

/// Row `r`, column `c` of the identity matrix made of `zero` and `one`.
pub open spec fn identity_cell<T>(r: int, c: int, zero: T, one: T) -> T {
    if r == c {
        one
    } else {
        zero
    }
}

/// Row `r`, column `c` of the matrix that moves a point by `x`, `y` and `z`:
/// the identity with the three distances in its last column.
pub open spec fn translation_cell<T>(r: int, c: int, x: T, y: T, z: T, zero: T, one: T) -> T {
    if r == 0 && c == 3 {
        x
    } else if r == 1 && c == 3 {
        y
    } else if r == 2 && c == 3 {
        z
    } else {
        identity_cell(r, c, zero, one)
    }
}

/// Row `r`, column `c` of the matrix that scales by `x`, `y` and `z`: the
/// identity with the three factors on its diagonal.
pub open spec fn scaling_cell<T>(r: int, c: int, x: T, y: T, z: T, zero: T, one: T) -> T {
    if r == 0 && c == 0 {
        x
    } else if r == 1 && c == 1 {
        y
    } else if r == 2 && c == 2 {
        z
    } else {
        identity_cell(r, c, zero, one)
    }
}

/// Row `r`, column `c` of the matrix that turns the two axes `a` and `b` into
/// each other: the identity with the cosine in the diagonal cells of `a` and
/// `b`, the negated sine in row `a`, column `b`, and the sine in row `b`,
/// column `a`.
pub open spec fn rotation_cell<T>(
    r: int,
    c: int,
    a: int,
    b: int,
    cos: T,
    sin: T,
    neg_sin: T,
    zero: T,
    one: T,
) -> T {
    if (r == a && c == a) || (r == b && c == b) {
        cos
    } else if r == a && c == b {
        neg_sin
    } else if r == b && c == a {
        sin
    } else {
        identity_cell(r, c, zero, one)
    }
}

/// Row `r`, column `c` of the shearing matrix: the identity with, in each cell
/// of its upper three rows and left three columns off the diagonal, the share
/// of the column's axis that is added to the row's axis.
pub open spec fn shearing_cell<T>(
    r: int,
    c: int,
    xy: T,
    xz: T,
    yx: T,
    yz: T,
    zx: T,
    zy: T,
    zero: T,
    one: T,
) -> T {
    if r == 0 && c == 1 {
        xy
    } else if r == 0 && c == 2 {
        xz
    } else if r == 1 && c == 0 {
        yx
    } else if r == 1 && c == 2 {
        yz
    } else if r == 2 && c == 0 {
        zx
    } else if r == 2 && c == 1 {
        zy
    } else {
        identity_cell(r, c, zero, one)
    }
}

/// The matrix that moves a point by `x`, `y` and `z` along the three axes.
pub fn translation<T: Copy>(x: T, y: T, z: T, zero: T, one: T) -> (m: Matrix<T>)
    ensures
        m.wf(),
        m.dimensions == 4,
        forall|r: int, c: int|
            0 <= r < 4 && 0 <= c < 4 ==> #[trigger] m.spec_at(r, c) == translation_cell(
                r,
                c,
                x,
                y,
                z,
                zero,
                one,
            ),
{
    let t = Matrix::identity(zero, one);
    let m = t.update_at(0, 3, x).update_at(1, 3, y).update_at(2, 3, z);
    assert forall|r: int, c: int| 0 <= r < 4 && 0 <= c < 4 implies #[trigger] m.spec_at(r, c)
        == translation_cell(r, c, x, y, z, zero, one) by {
        assert(t.spec_at(r, c) == identity_cell(r, c, zero, one));
    }
    m
}

/// The matrix that scales by `x`, `y` and `z` along the three axes.
pub fn scaling<T: Copy>(x: T, y: T, z: T, zero: T, one: T) -> (m: Matrix<T>)
    ensures
        m.wf(),
        m.dimensions == 4,
        forall|r: int, c: int|
            0 <= r < 4 && 0 <= c < 4 ==> #[trigger] m.spec_at(r, c) == scaling_cell(
                r,
                c,
                x,
                y,
                z,
                zero,
                one,
            ),
{
    let t = Matrix::identity(zero, one);
    let m = t.update_at(0, 0, x).update_at(1, 1, y).update_at(2, 2, z);
    assert forall|r: int, c: int| 0 <= r < 4 && 0 <= c < 4 implies #[trigger] m.spec_at(r, c)
        == scaling_cell(r, c, x, y, z, zero, one) by {
        assert(t.spec_at(r, c) == identity_cell(r, c, zero, one));
    }
    m
}

/// The matrix that turns around the x axis by the angle whose cosine is `cos`,
/// whose sine is `sin` and whose negated sine is `neg_sin`.
pub fn rotation_x<T: Copy>(cos: T, sin: T, neg_sin: T, zero: T, one: T) -> (m: Matrix<T>)
    ensures
        m.wf(),
        m.dimensions == 4,
        forall|r: int, c: int|
            0 <= r < 4 && 0 <= c < 4 ==> #[trigger] m.spec_at(r, c) == rotation_cell(
                r,
                c,
                1,
                2,
                cos,
                sin,
                neg_sin,
                zero,
                one,
            ),
{
    let t = Matrix::identity(zero, one);
    let m = t.update_at(1, 1, cos).update_at(1, 2, neg_sin).update_at(2, 1, sin).update_at(
        2,
        2,
        cos,
    );
    assert forall|r: int, c: int| 0 <= r < 4 && 0 <= c < 4 implies #[trigger] m.spec_at(r, c)
        == rotation_cell(r, c, 1, 2, cos, sin, neg_sin, zero, one) by {
        assert(t.spec_at(r, c) == identity_cell(r, c, zero, one));
    }
    m
}

/// The matrix that turns around the y axis by the angle whose cosine is `cos`,
/// whose sine is `sin` and whose negated sine is `neg_sin`.
pub fn rotation_y<T: Copy>(cos: T, sin: T, neg_sin: T, zero: T, one: T) -> (m: Matrix<T>)
    ensures
        m.wf(),
        m.dimensions == 4,
        forall|r: int, c: int|
            0 <= r < 4 && 0 <= c < 4 ==> #[trigger] m.spec_at(r, c) == rotation_cell(
                r,
                c,
                2,
                0,
                cos,
                sin,
                neg_sin,
                zero,
                one,
            ),
{
    let t = Matrix::identity(zero, one);
    let m = t.update_at(0, 0, cos).update_at(0, 2, sin).update_at(2, 0, neg_sin).update_at(
        2,
        2,
        cos,
    );
    assert forall|r: int, c: int| 0 <= r < 4 && 0 <= c < 4 implies #[trigger] m.spec_at(r, c)
        == rotation_cell(r, c, 2, 0, cos, sin, neg_sin, zero, one) by {
        assert(t.spec_at(r, c) == identity_cell(r, c, zero, one));
    }
    m
}

/// The matrix that turns around the z axis by the angle whose cosine is `cos`,
/// whose sine is `sin` and whose negated sine is `neg_sin`.
pub fn rotation_z<T: Copy>(cos: T, sin: T, neg_sin: T, zero: T, one: T) -> (m: Matrix<T>)
    ensures
        m.wf(),
        m.dimensions == 4,
        forall|r: int, c: int|
            0 <= r < 4 && 0 <= c < 4 ==> #[trigger] m.spec_at(r, c) == rotation_cell(
                r,
                c,
                0,
                1,
                cos,
                sin,
                neg_sin,
                zero,
                one,
            ),
{
    let t = Matrix::identity(zero, one);
    let m = t.update_at(0, 0, cos).update_at(0, 1, neg_sin).update_at(1, 0, sin).update_at(
        1,
        1,
        cos,
    );
    assert forall|r: int, c: int| 0 <= r < 4 && 0 <= c < 4 implies #[trigger] m.spec_at(r, c)
        == rotation_cell(r, c, 0, 1, cos, sin, neg_sin, zero, one) by {
        assert(t.spec_at(r, c) == identity_cell(r, c, zero, one));
    }
    m
}

/// The matrix that shears: `xy` is the share of y that is added to x, `xz` the
/// share of z that is added to x, and so on for the four others.
pub fn shearing<T: Copy>(xy: T, xz: T, yx: T, yz: T, zx: T, zy: T, zero: T, one: T) -> (m: Matrix<
    T,
>)
    ensures
        m.wf(),
        m.dimensions == 4,
        forall|r: int, c: int|
            0 <= r < 4 && 0 <= c < 4 ==> #[trigger] m.spec_at(r, c) == shearing_cell(
                r,
                c,
                xy,
                xz,
                yx,
                yz,
                zx,
                zy,
                zero,
                one,
            ),
{
    let t = Matrix::identity(zero, one);
    let m = t.update_at(0, 1, xy).update_at(0, 2, xz).update_at(1, 0, yx).update_at(1, 2, yz)
        .update_at(2, 0, zx).update_at(2, 1, zy);
    assert forall|r: int, c: int| 0 <= r < 4 && 0 <= c < 4 implies #[trigger] m.spec_at(r, c)
        == shearing_cell(r, c, xy, xz, yx, yz, zx, zy, zero, one) by {
        assert(t.spec_at(r, c) == identity_cell(r, c, zero, one));
    }
    m
}

} // verus!
