//! Random sampling.
use vstd::prelude::*;

use crate::fixed::ONE;
use crate::vec3::Vec3;

verus! {

/// How many candidates `unit_sphere` draws before it settles for the center.
pub const MAX_TRIES: u32 = 64;

/// Whether `v` lies strictly inside the unit ball.
pub open spec fn in_unit_ball(v: Vec3) -> bool {
    v.x * v.x + v.y * v.y + v.z * v.z < ONE * ONE
}

/// Relies on rand's `Rng::gen_range` over the thread-local generator: a value
/// in `[lo, hi)`. It panics on an empty range, which `requires` rules out.
#[verifier::external_body]
pub(crate) fn random_between(lo: i64, hi: i64) -> (r: i64)
    requires
        lo < hi,
    ensures
        lo <= r < hi,
{
    rand::Rng::gen_range(&mut rand::thread_rng(), lo..hi)
}

/// Every component lies in `[-1, 1)`: a point of the cube the candidates
/// are drawn from.
pub open spec fn in_cube(v: Vec3) -> bool {
    -ONE <= v.x < ONE && -ONE <= v.y < ONE && -ONE <= v.z < ONE
}

/// The first candidate strictly inside the unit ball, or the center if none is.
pub open spec fn first_in_ball(c: Seq<Vec3>) -> Vec3
    decreases c.len(),
{
    if c.len() == 0 {
        Vec3 { x: 0, y: 0, z: 0 }
    } else if in_unit_ball(c[0]) {
        c[0]
    } else {
        first_in_ball(c.drop_first())
    }
}

/// The first of the candidates that lies strictly inside the unit ball, or
/// the center if none does.
pub fn pick_in_ball(cands: &Vec<Vec3>) -> (r: Vec3)
    requires
        forall|i: int| 0 <= i < cands@.len() ==> in_cube(#[trigger] cands@[i]),
    ensures
        r == first_in_ball(cands@),
{
    let mut i: usize = 0;
    assert(cands@.skip(0) =~= cands@);
    while i < cands.len()
        invariant
            i <= cands@.len(),
            forall|k: int| 0 <= k < cands@.len() ==> in_cube(#[trigger] cands@[k]),
            first_in_ball(cands@) == first_in_ball(cands@.skip(i as int)),
        decreases cands@.len() - i,
    {
        let v = cands[i];
        assert(in_cube(cands@[i as int]));
        assert(cands@.skip(i as int)[0] == v);
        assert(cands@.skip(i as int).drop_first() =~= cands@.skip(i + 1));
        assert(0 <= v.x * v.x <= ONE * ONE && 0 <= v.y * v.y <= ONE * ONE && 0 <= v.z * v.z <= ONE * ONE) by (nonlinear_arith)
            requires -ONE <= v.x < ONE, -ONE <= v.y < ONE, -ONE <= v.z < ONE;
        if v.x * v.x + v.y * v.y + v.z * v.z < ONE * ONE {
            return v;
        }
        i = i + 1;
    }
    assert(cands@.skip(i as int) =~= Seq::<Vec3>::empty());
    Vec3 { x: 0, y: 0, z: 0 }
}

/// The first candidate point in the ball lies in it; with none the center does.
proof fn lemma_first_in_ball(c: Seq<Vec3>)
    requires
        forall|i: int| 0 <= i < c.len() ==> in_cube(#[trigger] c[i]),
    ensures
        in_unit_ball(first_in_ball(c)),
        first_in_ball(c).wf(),
    decreases c.len(),
{
    if c.len() > 0 {
        assert(in_cube(c[0]));
        if !in_unit_ball(c[0]) {
            assert forall|i: int| 0 <= i < c.drop_first().len() implies in_cube(#[trigger] c.drop_first()[i]) by {
                assert(in_cube(c[i + 1]));
            }
            lemma_first_in_ball(c.drop_first());
        }
    }
}

/// A random point strictly inside the unit ball, by rejection sampling from
/// the enclosing cube: candidates are drawn until one lies in the ball, at
/// most `MAX_TRIES` of them, and the first inside is returned. If all are
/// rejected (probability below `2^-60`) the center is returned.
pub fn unit_sphere() -> (r: Vec3)
    ensures
        in_unit_ball(r),
        r.wf(),
        exists|c: Seq<Vec3>|
            {
                &&& 1 <= c.len() <= MAX_TRIES
                &&& forall|i: int| 0 <= i < c.len() ==> in_cube(#[trigger] c[i])
                &&& forall|i: int| 0 <= i < c.len() - 1 ==> !in_unit_ball(#[trigger] c[i])
                &&& (c.len() < MAX_TRIES ==> in_unit_ball(c.last()))
                &&& r == first_in_ball(c)
            },
{
    let mut cands: Vec<Vec3> = Vec::new();
    let mut done = false;
    while !done && cands.len() < MAX_TRIES as usize
        invariant
            cands@.len() <= MAX_TRIES,
            forall|i: int| 0 <= i < cands@.len() ==> in_cube(#[trigger] cands@[i]),
            done ==> cands@.len() >= 1 && in_unit_ball(cands@.last()),
            forall|i: int| 0 <= i < cands@.len() - 1 ==> !in_unit_ball(#[trigger] cands@[i]),
            !done ==> forall|i: int| 0 <= i < cands@.len() ==> !in_unit_ball(#[trigger] cands@[i]),
        decreases MAX_TRIES - cands@.len(), if done { 0int } else { 1int },
    {
        let x = random_between(-ONE, ONE);
        let y = random_between(-ONE, ONE);
        let z = random_between(-ONE, ONE);
        assert(0 <= x * x <= ONE * ONE && 0 <= y * y <= ONE * ONE && 0 <= z * z <= ONE * ONE) by (nonlinear_arith)
            requires -ONE <= x < ONE, -ONE <= y < ONE, -ONE <= z < ONE;
        let v = Vec3 { x, y, z };
        let ghost before = cands@;
        cands.push(v);
        if x * x + y * y + z * z < ONE * ONE {
            done = true;
        }
        proof {
            assert forall|i: int| 0 <= i < cands@.len() - 1 implies !in_unit_ball(#[trigger] cands@[i]) by {
                assert(cands@[i] == before[i]);
            }
        }
    }
    let r = pick_in_ball(&cands);
    proof {
        lemma_first_in_ball(cands@);
    }
    r
}

} // verus!
