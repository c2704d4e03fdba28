use crate::model::{AnisotropicNetworkModel, DEFAULT_MASS, MASS_UNIT};
use crate::roots::{integer_sqrt, isqrt, lemma_integer_sqrt_positive};
use vstd::prelude::*;

verus! {

/// Component `axis` of the vector from atom `i` to atom `j`.
pub open spec fn displacement(coords: Seq<[i32; 3]>, i: int, j: int, axis: int) -> int {
    coords[j][axis] - coords[i][axis]
}

/// Squared length of the vector from atom `i` to atom `j`.
pub open spec fn squared_distance(coords: Seq<[i32; 3]>, i: int, j: int) -> int {
    displacement(coords, i, j, 0) * displacement(coords, i, j, 0) + displacement(coords, i, j, 1)
        * displacement(coords, i, j, 1) + displacement(coords, i, j, 2) * displacement(
        coords,
        i,
        j,
        2,
    )
}

/// `p / d` rounded toward zero, for a positive `d`.
pub open spec fn quotient_toward_zero(p: int, d: int) -> int {
    if p >= 0 {
        p / d
    } else {
        -((-p) / d)
    }
}

/// Mass of atom `i`: the one given, or `DEFAULT_MASS` where none are.
pub open spec fn mass_of(masses: Option<Seq<u64>>, i: int) -> int {
    match masses {
        Some(m) => m[i] as int,
        None => DEFAULT_MASS as int,
    }
}

/// Geometric mean of the masses of atoms `i` and `j`, rounded down.
pub open spec fn mass_factor(masses: Option<Seq<u64>>, i: int, j: int) -> int {
    integer_sqrt((mass_of(masses, i) * mass_of(masses, j)) as nat) as int
}

/// Two distinct atoms are joined by a spring when they lie closer than the
/// cutoff. Atoms at the same place define no direction and are not joined.
pub open spec fn is_linked(
    model: AnisotropicNetworkModel,
    coords: Seq<[i32; 3]>,
    i: int,
    j: int,
) -> bool {
    i != j && 0 < squared_distance(coords, i, j) < model.cutoff * model.cutoff
}

/// `-(gamma / d2) * ra * rb`, rounded toward zero; with mass weighting,
/// divided by `factor / MASS_UNIT` and rounded toward zero once more.
pub open spec fn scaled_element(
    gamma: int,
    mass_weighted: bool,
    ra: int,
    rb: int,
    d2: int,
    factor: int,
) -> int {
    let plain = quotient_toward_zero(-(gamma * (ra * rb)), d2);
    if mass_weighted {
        quotient_toward_zero(plain * MASS_UNIT, factor)
    } else {
        plain
    }
}

/// Entry `(a, b)` of the 3x3 block that the spring between atoms `i` and `j`
/// contributes: zero where they are not joined.
pub open spec fn spring_element(
    model: AnisotropicNetworkModel,
    coords: Seq<[i32; 3]>,
    masses: Option<Seq<u64>>,
    i: int,
    j: int,
    a: int,
    b: int,
) -> int {
    if is_linked(model, coords, i, j) {
        scaled_element(
            model.gamma as int,
            model.mass_weighted,
            displacement(coords, i, j, a),
            displacement(coords, i, j, b),
            squared_distance(coords, i, j),
            mass_factor(masses, i, j),
        )
    } else {
        0
    }
}

/// Largest magnitude that an entry of a spring block can have.
pub open spec fn element_bound() -> int {
    0x8000_0000_0000_0000 * MASS_UNIT
}

/// The masses, as the specifications read them.
pub open spec fn mass_view(masses: Option<&[u64]>) -> Option<Seq<u64>> {
    match masses {
        Some(m) => Some(m@),
        None => None,
    }
}

/// With mass weighting, every mass that is given is positive.
pub open spec fn masses_usable(mass_weighted: bool, masses: Option<Seq<u64>>) -> bool {
    mass_weighted ==> match masses {
        Some(m) => forall|k: int| 0 <= k < m.len() ==> #[trigger] m[k] > 0,
        None => true,
    }
}

/// A product of two components of a vector is no larger than its squared
/// length.
pub proof fn lemma_product_within_square(x: int, y: int, z: int)
    ensures
        -(x * x + y * y + z * z) <= x * y <= x * x + y * y + z * z,
        0 <= x * x <= x * x + y * y + z * z,
{
    assert(-(x * x + y * y + z * z) <= x * y <= x * x + y * y + z * z && 0 <= x * x <= x * x + y
        * y + z * z) by (nonlinear_arith);
}

/// Dividing toward zero by a positive number never grows the magnitude past
/// `bound`, where the dividend is within `bound * d`.
pub proof fn lemma_quotient_bounded(p: int, d: int, bound: int)
    requires
        d > 0,
        bound >= 0,
        -(bound * d) <= p <= bound * d,
    ensures
        -bound <= quotient_toward_zero(p, d) <= bound,
{
    if p >= 0 {
        assert(0 <= p / d <= bound) by (nonlinear_arith)
            requires
                d > 0,
                0 <= p <= bound * d,
        ;
    } else {
        let m = -p;
        assert(0 <= m / d <= bound) by (nonlinear_arith)
            requires
                d > 0,
                0 <= m <= bound * d,
        ;
    }
}

/// A quotient rounded toward zero is off the exact quotient by less than
/// one, and never past it: multiplied back, it lies between zero and the
/// dividend, less than one divisor short of it.
pub proof fn lemma_quotient_within_one(p: int, d: int)
    requires
        d > 0,
    ensures
        p >= 0 ==> p - d < quotient_toward_zero(p, d) * d <= p,
        p <= 0 ==> p <= quotient_toward_zero(p, d) * d < p + d,
{
    if p >= 0 {
        assert(p - d < (p / d) * d <= p) by (nonlinear_arith)
            requires
                d > 0,
                p >= 0,
        ;
    } else {
        let m = -p;
        assert(m - d < (m / d) * d <= m) by (nonlinear_arith)
            requires
                d > 0,
                m >= 0,
        ;
        assert((-(m / d)) * d == -((m / d) * d)) by (nonlinear_arith);
    }
}

/// An entry of a spring block has magnitude at most `element_bound()`.
pub proof fn lemma_scaled_element_bounded(
    gamma: int,
    mass_weighted: bool,
    ra: int,
    rb: int,
    d2: int,
    factor: int,
)
    requires
        -0x8000_0000_0000_0000 <= gamma <= 0x8000_0000_0000_0000,
        d2 > 0,
        -d2 <= ra * rb <= d2,
        mass_weighted ==> factor >= 1,
    ensures
        -element_bound() <= scaled_element(gamma, mass_weighted, ra, rb, d2, factor)
            <= element_bound(),
        -0x8000_0000_0000_0000 <= quotient_toward_zero(-(gamma * (ra * rb)), d2)
            <= 0x8000_0000_0000_0000,
{
    let top: int = 0x8000_0000_0000_0000;
    let product = ra * rb;
    assert(-(top * d2) <= -(gamma * product) <= top * d2) by (nonlinear_arith)
        requires
            -top <= gamma <= top,
            -d2 <= product <= d2,
            d2 > 0,
            top >= 0,
    ;
    lemma_quotient_bounded(-(gamma * product), d2, top);
    let plain = quotient_toward_zero(-(gamma * product), d2);
    if mass_weighted {
        let unit = MASS_UNIT as int;
        assert(-((top * unit) * factor) <= plain * unit <= (top * unit) * factor)
            by (nonlinear_arith)
            requires
                -top <= plain <= top,
                factor >= 1,
                unit > 0,
                top >= 0,
        ;
        lemma_quotient_bounded(plain * unit, factor, top * unit);
    } else {
        assert(top <= top * (MASS_UNIT as int)) by (nonlinear_arith)
            requires
                top >= 0,
                MASS_UNIT >= 1,
        ;
    }
}

/// Every entry of every spring block has magnitude at most
/// `element_bound()`.
pub proof fn lemma_spring_element_bounded(
    model: AnisotropicNetworkModel,
    coords: Seq<[i32; 3]>,
    masses: Option<Seq<u64>>,
    i: int,
    j: int,
    a: int,
    b: int,
)
    requires
        0 <= i < coords.len(),
        0 <= j < coords.len(),
        0 <= a < 3,
        0 <= b < 3,
        masses matches Some(m) ==> m.len() == coords.len(),
        masses_usable(model.mass_weighted, masses),
    ensures
        -element_bound() <= spring_element(model, coords, masses, i, j, a, b) <= element_bound(),
{
    if is_linked(model, coords, i, j) {
        let x = displacement(coords, i, j, 0);
        let y = displacement(coords, i, j, 1);
        let z = displacement(coords, i, j, 2);
        lemma_product_within_square(x, y, z);
        lemma_product_within_square(y, x, z);
        lemma_product_within_square(z, x, y);
        lemma_product_within_square(x, z, y);
        lemma_product_within_square(y, z, x);
        lemma_product_within_square(z, y, x);
        if model.mass_weighted {
            let mi = mass_of(masses, i);
            let mj = mass_of(masses, j);
            assert(mi * mj >= 1) by (nonlinear_arith)
                requires
                    mi >= 1,
                    mj >= 1,
            ;
            lemma_integer_sqrt_positive((mi * mj) as nat);
        }
        lemma_scaled_element_bounded(
            model.gamma as int,
            model.mass_weighted,
            displacement(coords, i, j, a),
            displacement(coords, i, j, b),
            squared_distance(coords, i, j),
            mass_factor(masses, i, j),
        );
    }
}

/// Without mass weighting an entry of a spring block is `-gamma * ra * rb /
/// d2` to within one count of the spring constant's unit: multiplied by
/// `d2`, it is less than `d2` away from `-gamma * ra * rb`.
pub proof fn lemma_spring_element_accurate(
    model: AnisotropicNetworkModel,
    coords: Seq<[i32; 3]>,
    masses: Option<Seq<u64>>,
    i: int,
    j: int,
    a: int,
    b: int,
)
    requires
        is_linked(model, coords, i, j),
        !model.mass_weighted,
    ensures
        ({
            let exact = -(model.gamma * (displacement(coords, i, j, a) * displacement(
                coords,
                i,
                j,
                b,
            )));
            let d2 = squared_distance(coords, i, j);
            let held = spring_element(model, coords, masses, i, j, a, b) * d2;
            exact - d2 < held < exact + d2
        }),
{
    let exact = -(model.gamma * (displacement(coords, i, j, a) * displacement(coords, i, j, b)));
    lemma_quotient_within_one(exact, squared_distance(coords, i, j));
}

/// A spring between two atoms, as the builder holds it while it writes the
/// nine entries of the block.
pub struct Link {
    /// The vector from the first atom to the second.
    pub offset: [i64; 3],
    /// Its squared length.
    pub d2: i128,
    /// The divisor of mass weighting; 1 without it.
    pub factor: i128,
}

impl Link {
    /// The numbers fit together: `d2` is the squared length of `offset`, no
    /// component is wider than a difference of two `i32`, and the divisors
    /// are positive.
    pub open spec fn wf(&self) -> bool {
        &&& forall|axis: int| 0 <= axis < 3 ==> -0xFFFF_FFFF <= #[trigger] self.offset[axis] <= 0xFFFF_FFFF
        &&& self.d2 == self.offset[0] * self.offset[0] + self.offset[1] * self.offset[1]
            + self.offset[2] * self.offset[2]
        &&& self.d2 > 0
        &&& self.factor >= 1
    }

    /// The link is the spring between atoms `i` and `j` of `coords`.
    pub open spec fn joins(
        &self,
        model: AnisotropicNetworkModel,
        coords: Seq<[i32; 3]>,
        masses: Option<Seq<u64>>,
        i: int,
        j: int,
    ) -> bool {
        &&& self.wf()
        &&& is_linked(model, coords, i, j)
        &&& forall|axis: int| 0 <= axis < 3 ==> #[trigger] self.offset[axis] == displacement(coords, i, j, axis)
        &&& self.d2 == squared_distance(coords, i, j)
        &&& model.mass_weighted ==> self.factor == mass_factor(masses, i, j)
        &&& !model.mass_weighted ==> self.factor == 1
    }
}

/// Mass of atom `i`: the one given, or `DEFAULT_MASS` where none are.
pub fn atom_mass(masses: Option<&[u64]>, i: usize) -> (mass: u64)
    requires
        masses matches Some(m) ==> i < m@.len(),
    ensures
        mass == mass_of(mass_view(masses), i as int),
{
    match masses {
        Some(m) => m[i],
        None => DEFAULT_MASS,
    }
}

impl AnisotropicNetworkModel {
    /// The spring between atoms `i` and `j`, if they are joined.
    pub fn find_link(&self, coords: &[[i32; 3]], masses: Option<&[u64]>, i: usize, j: usize) -> (link:
        Option<Link>)
        requires
            i < coords@.len(),
            j < coords@.len(),
            i != j,
            masses matches Some(m) ==> m@.len() == coords@.len(),
            masses_usable(self.mass_weighted, mass_view(masses)),
        ensures
            match link {
                Some(l) => l.joins(*self, coords@, mass_view(masses), i as int, j as int),
                None => !is_linked(*self, coords@, i as int, j as int),
            },
    {
        let ci: [i32; 3] = coords[i];
        let cj: [i32; 3] = coords[j];
        let dx: i64 = cj[0] as i64 - ci[0] as i64;
        let dy: i64 = cj[1] as i64 - ci[1] as i64;
        let dz: i64 = cj[2] as i64 - ci[2] as i64;
        assert(0 <= dx * dx <= 0xFFFF_FFFF * 0xFFFF_FFFF && 0 <= dy * dy <= 0xFFFF_FFFF * 0xFFFF_FFFF
            && 0 <= dz * dz <= 0xFFFF_FFFF * 0xFFFF_FFFF) by (nonlinear_arith)
            requires
                -0xFFFF_FFFF <= dx <= 0xFFFF_FFFF,
                -0xFFFF_FFFF <= dy <= 0xFFFF_FFFF,
                -0xFFFF_FFFF <= dz <= 0xFFFF_FFFF,
        ;
        let d2: i128 = (dx as i128) * (dx as i128) + (dy as i128) * (dy as i128) + (dz as i128) * (
        dz as i128);
        assert(self.cutoff * self.cutoff <= u128::MAX) by (nonlinear_arith)
            requires
                0 <= self.cutoff <= 0xFFFF_FFFF_FFFF_FFFF,
        ;
        let cutoff2: u128 = (self.cutoff as u128) * (self.cutoff as u128);
        if d2 == 0 || d2 as u128 >= cutoff2 {
            return None;
        }
        let mut factor: i128 = 1;
        if self.mass_weighted {
            let mi: u64 = atom_mass(masses, i);
            let mj: u64 = atom_mass(masses, j);
            assert(1 <= mi * mj <= u128::MAX) by (nonlinear_arith)
                requires
                    1 <= mi <= 0xFFFF_FFFF_FFFF_FFFF,
                    1 <= mj <= 0xFFFF_FFFF_FFFF_FFFF,
            ;
            let root: u64 = isqrt((mi as u128) * (mj as u128));
            proof {
                lemma_integer_sqrt_positive((mi * mj) as nat);
            }
            factor = root as i128;
        }
        let link = Link { offset: [dx, dy, dz], d2, factor };
        Some(link)
    }

    /// Entry `(a, b)` of the block that the spring contributes.
    pub fn link_element(&self, link: &Link, a: usize, b: usize) -> (value: i128)
        requires
            link.wf(),
            a < 3,
            b < 3,
        ensures
            value == scaled_element(
                self.gamma as int,
                self.mass_weighted,
                link.offset[a as int] as int,
                link.offset[b as int] as int,
                link.d2 as int,
                link.factor as int,
            ),
            -element_bound() <= value <= element_bound(),
    {
        let ra: i128 = link.offset[a] as i128;
        let rb: i128 = link.offset[b] as i128;
        let gamma: i128 = self.gamma as i128;
        proof {
            let x = link.offset[0] as int;
            let y = link.offset[1] as int;
            let z = link.offset[2] as int;
            lemma_product_within_square(x, y, z);
            lemma_product_within_square(y, x, z);
            lemma_product_within_square(z, x, y);
            lemma_product_within_square(x, z, y);
            lemma_product_within_square(y, z, x);
            lemma_product_within_square(z, y, x);
            assert(-0xFFFF_FFFF * 0xFFFF_FFFF <= ra * rb <= 0xFFFF_FFFF * 0xFFFF_FFFF)
                by (nonlinear_arith)
                requires
                    -0xFFFF_FFFF <= ra <= 0xFFFF_FFFF,
                    -0xFFFF_FFFF <= rb <= 0xFFFF_FFFF,
            ;
            lemma_scaled_element_bounded(
                gamma as int,
                self.mass_weighted,
                ra as int,
                rb as int,
                link.d2 as int,
                link.factor as int,
            );
        }
        let product: i128 = ra * rb;
        assert(-0x7FFF_FFFF_FFFF_FFFF_FFFF_FFFF_FFFF_FFFF <= gamma * product
            <= 0x7FFF_FFFF_FFFF_FFFF_FFFF_FFFF_FFFF_FFFF) by (nonlinear_arith)
            requires
                -0x8000_0000_0000_0000 <= gamma <= 0x8000_0000_0000_0000,
                -0xFFFF_FFFF * 0xFFFF_FFFF <= product <= 0xFFFF_FFFF * 0xFFFF_FFFF,
        ;
        let dividend: i128 = -(gamma * product);
        let plain: i128 = if dividend >= 0 {
            dividend / link.d2
        } else {
            -((-dividend) / link.d2)
        };
        if self.mass_weighted {
            let scaled: i128 = plain * (MASS_UNIT as i128);
            if scaled >= 0 {
                scaled / link.factor
            } else {
                -((-scaled) / link.factor)
            }
        } else {
            plain
        }
    }
}

} // verus!
