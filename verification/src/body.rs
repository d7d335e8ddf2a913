//! One celestial object: its physical constants and kinematic state.

use vstd::prelude::*;
use crate::vec3::{V3i, Vec3};
use crate::num64::{isqrt_u128, lemma_sqrt_floor_is};

verus! {

/// Mathematical view of a `Body`.
#[verifier::ext_equal]
pub ghost struct BodyView {
    /// ASCII name, unique within a simulation state.
    pub name: Seq<u8>,
    /// Standard gravitational parameter, units of 10^-6 km^3/s^2.
    pub gm: int,
    /// Body radius, units of 10^-6 km.
    pub radius: int,
    /// Position, units of 10^-6 km.
    pub pos: V3i,
    /// Velocity, units of 10^-6 km/s.
    pub vel: V3i,
}

impl BodyView {
    /// A well-formed body: positive gravitational parameter and radius, and
    /// a printable ASCII name that the snapshot codec can serialize.
    pub open spec fn wf(self) -> bool {
        &&& self.gm > 0
        &&& self.radius > 0
        &&& self.name.len() > 0
        &&& name_ok(self.name)
    }
}

/// Printable ASCII, no quote or backslash: a name the snapshot format can
/// hold verbatim between quotes.
pub open spec fn name_ok(name: Seq<u8>) -> bool {
    forall|i: int|
        0 <= i < name.len() ==> 0x20 <= #[trigger] name[i] <= 0x7e && name[i] != 0x22 && name[i]
            != 0x5c
}

/// A celestial body in fixed-point units.
pub struct Body {
    pub name: Vec<u8>,
    pub gm: i64,
    pub pos: Vec3,
    pub vel: Vec3,
    pub radius: i64,
}

impl View for Body {
    type V = BodyView;

    open spec fn view(&self) -> BodyView {
        BodyView {
            name: self.name@,
            gm: self.gm as int,
            radius: self.radius as int,
            pos: self.pos@,
            vel: self.vel@,
        }
    }
}

impl Clone for Body {
    /// A clone has the same view.
    fn clone(&self) -> (res: Body)
        ensures
            res@ == self@,
    {
        let name: Vec<u8> = clone_bytes(&self.name);
        Body { name, gm: self.gm, pos: self.pos, vel: self.vel, radius: self.radius }
    }
}

/// Copy a byte vector element by element.
pub fn clone_bytes(v: &Vec<u8>) -> (res: Vec<u8>)
    ensures
        res@ == v@,
{
    let mut out: Vec<u8> = Vec::new();
    let mut i: usize = 0;
    while i < v.len()
        invariant
            0 <= i <= v.len(),
            out@ == v@.subrange(0, i as int),
        decreases v.len() - i,
    {
        out.push(v[i]);
        proof {
            assert(out@ =~= v@.subrange(0, i + 1));
        }
        i = i + 1;
    }
    proof {
        assert(out@ =~= v@);
    }
    out
}

/// Two byte slices hold the same bytes.
pub fn bytes_eq(a: &[u8], b: &[u8]) -> (r: bool)
    ensures
        r <==> a@ == b@,
{
    if a.len() != b.len() {
        proof {
            assert(a@.len() != b@.len());
        }
        return false;
    }
    let mut i: usize = 0;
    while i < a.len()
        invariant
            a@.len() == b@.len(),
            0 <= i <= a@.len(),
            forall|j: int| 0 <= j < i ==> a@[j] == b@[j],
        decreases a.len() - i,
    {
        if a[i] != b[i] {
            return false;
        }
        i = i + 1;
    }
    proof {
        assert(a@ =~= b@);
    }
    true
}

impl Body {
    /// Construct a body; the preconditions are the `Body` invariant.
    pub fn new(name: Vec<u8>, gm: i64, radius: i64, pos: Vec3, vel: Vec3) -> (r: Body)
        requires
            gm > 0,
            radius > 0,
            name@.len() > 0,
            name_ok(name@),
        ensures
            r@ == (BodyView {
                name: name@,
                gm: gm as int,
                radius: radius as int,
                pos: pos@,
                vel: vel@,
            }),
            r@.wf(),
    {
        Body { name, gm, pos, vel, radius }
    }

    /// Euclidean distance to another body (floor of the exact value), in
    /// units of 10^-6 km; positions further apart than the 64-bit range wrap.
    pub fn distance_from(&self, other: &Body) -> (r: u128)
        ensures
            r as int == self@.pos.sub_wrapping(other@.pos).norm(),
    {
        let diff = self.pos.sub_wrapping(&other.pos);
        let n2 = diff.norm2();
        let r = isqrt_u128(n2);
        proof {
            lemma_sqrt_floor_is(n2 as int, r as int);
        }
        r
    }
}

} // verus!
