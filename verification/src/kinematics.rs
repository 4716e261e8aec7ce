//! Unreal rotator arithmetic on 16-bit angle units.
use vstd::prelude::*;

verus! {

/// An angle reduced to one turn of 65536 units (two's-complement masking).
pub open spec fn unwind(x: int) -> int {
    x % 65536
}

pub open spec fn min_int(a: int, b: int) -> int {
    if a <= b { a } else { b }
}

pub open spec fn max_int(a: int, b: int) -> int {
    if a >= b { a } else { b }
}

proof fn lemma_mask_is_unwind(x: i32)
    ensures
        (x & 0xffff) as int == unwind(x as int),
        0 <= (x & 0xffff) <= 0xffff,
{
    assert((x & 0xffff) as int == (x as int) % 65536) by (bit_vector);
    assert(0 <= (x & 0xffff) <= 0xffff) by (bit_vector);
}

fn unwind_exec(x: i32) -> (r: i32)
    ensures
        r as int == unwind(x as int),
        0 <= r < 65536,
{
    proof {
        lemma_mask_is_unwind(x);
    }
    x & 0xffff
}


/// Where a turn that takes the shorter way round ends, starting at `from`,
/// heading for `to`, moving at most `speed` units.
pub open spec fn turned_shortest(from: int, to: int, speed: int) -> int {
    let f = unwind(from);
    let t = unwind(to);
    if f > t {
        if f - t < 0x8000 {
            unwind(f - min_int(f - t, speed))
        } else {
            unwind(f + min_int(t + 0x10000 - f, speed))
        }
    } else if t - f < 0x8000 {
        unwind(f + min_int(t - f, speed))
    } else {
        unwind(f - min_int(f + 0x10000 - t, speed))
    }
}

/// Turns the angle `from` toward `to` the shorter way round by at most
/// `speed` units; the result lies in one turn.
pub fn turn_to_shortest(from: i32, to: i32, speed: i32) -> (r: i32)
    requires
        speed >= i32::MIN + 0x10000,
    ensures
        r as int == turned_shortest(from as int, to as int, speed as int),
        0 <= r < 65536,
{
    let from = unwind_exec(from);
    let to = unwind_exec(to);
    if from > to {
        if from - to < 0x8000 {
            let step = if from - to <= speed { from - to } else { speed };
            unwind_exec(from - step)
        } else {
            let gap = to + 0x10000 - from;
            let step = if gap <= speed { gap } else { speed };
            unwind_exec(from + step)
        }
    } else if to - from < 0x8000 {
        let step = if to - from <= speed { to - from } else { speed };
        unwind_exec(from + step)
    } else {
        let gap = from + 0x10000 - to;
        let step = if gap <= speed { gap } else { speed };
        unwind_exec(from - step)
    }
}

/// Where a turn in a fixed direction ends: `direction` is a signed step that
/// does not overshoot `to` when going round the circle that way.
pub open spec fn turned_fixed(from: int, to: int, direction: int) -> int {
    let f = unwind(from);
    let t = unwind(to);
    if direction > 0 {
        if f > t {
            unwind(f + min_int(direction, t - f + 0x10000))
        } else {
            unwind(f + min_int(direction, t - f))
        }
    } else if f < t {
        unwind(f + max_int(direction, t - f - 0x10000))
    } else {
        unwind(f + max_int(direction, t - f))
    }
}

/// Turns the angle `from` toward `to` by `direction` units in the sign's
/// direction, stopping at `to`.
pub fn turn_to_fixed(from: i32, to: i32, direction: i32) -> (r: i32)
    ensures
        r as int == turned_fixed(from as int, to as int, direction as int),
        0 <= r < 65536,
{
    let from = unwind_exec(from);
    let to = unwind_exec(to);
    if direction > 0 {
        if from > to {
            let gap = to - from + 0x10000;
            let step = if direction <= gap { direction } else { gap };
            unwind_exec(from + step)
        } else {
            let gap = to - from;
            let step = if direction <= gap { direction } else { gap };
            unwind_exec(from + step)
        }
    } else if from < to {
        let gap = to - from - 0x10000;
        let step = if direction >= gap { direction } else { gap };
        unwind_exec(from + step)
    } else {
        let gap = to - from;
        let step = if direction >= gap { direction } else { gap };
        unwind_exec(from + step)
    }
}

/// Two rotators are equal when each component agrees in its low 16 bits.
pub open spec fn rotators_match(left: [i32; 3], right: [i32; 3]) -> bool {
    forall|i: int| 0 <= i < 3 ==> unwind(left[i] as int) == unwind(right[i] as int)
}

/// Whether two rotators point the same way, comparing each component in
/// its low 16 bits.
pub fn rotators_equal(left: [i32; 3], right: [i32; 3]) -> (r: bool)
    ensures
        r == rotators_match(left, right),
{
    let mut i: usize = 0;
    while i < 3
        invariant
            0 <= i <= 3,
            forall|j: int| 0 <= j < i ==> unwind(left[j] as int) == unwind(right[j] as int),
        decreases 3 - i,
    {
        let l = left[i];
        let r = right[i];
        let lw = l as u16;
        let rw = r as u16;
        proof {
            assert(lw as int == (l as int) % 65536) by (bit_vector)
                requires lw == l as u16;
            assert(rw as int == (r as int) % 65536) by (bit_vector)
                requires rw == r as u16;
        }
        if lw != rw {
            return false;
        }
        i = i + 1;
    }
    true
}

/// The pitch a pawn may take: looking up is capped at `rate`, looking down
/// at `65536 - rate`, in unwound units.
pub open spec fn clamped_pitch(desired: int, rate: int) -> int {
    let d = unwind(desired);
    if d < 0x8000 {
        min_int(d, rate)
    } else if d < 0x10000 - rate {
        0x10000 - rate
    } else {
        d
    }
}

/// Clamps the pitch a pawn wants to the range its rotation rate allows.
pub fn clamp_pawn_pitch(desired: i32, rate: i32) -> (r: i32)
    requires
        rate > i32::MIN + 0x10000,
    ensures
        r as int == clamped_pitch(desired as int, rate as int),
{
    let desired = unwind_exec(desired);
    if desired < 0x8000 {
        if desired <= rate { desired } else { rate }
    } else if desired < 0x10000 - rate {
        0x10000 - rate
    } else {
        desired
    }
}

/// How far `b` lies ahead of `a` going round the circle upward.
pub open spec fn ahead(a: int, b: int) -> int {
    unwind(b - a)
}

/// The angular distance between two angles, the shorter way round.
pub open spec fn apart(a: int, b: int) -> int {
    min_int(ahead(a, b), ahead(b, a))
}

proof fn lemma_unwind_small(x: int)
    requires
        -65536 <= x < 131072,
    ensures
        unwind(x) == if x < 0 {
            x + 65536
        } else if x < 65536 {
            x
        } else {
            x - 65536
        },
{
    vstd::arithmetic::div_mod::lemma_fundamental_div_mod(x, 65536);
    vstd::arithmetic::div_mod::lemma_mod_bound(x, 65536);
}

proof fn lemma_unwind_bound(x: int)
    ensures
        0 <= unwind(x) < 65536,
{
    vstd::arithmetic::div_mod::lemma_mod_bound(x, 65536);
}

proof fn lemma_gaps(a: int, b: int)
    requires
        0 <= a < 65536,
        0 <= b < 65536,
    ensures
        ahead(a, b) == if b >= a { b - a } else { b - a + 65536 },
        ahead(b, a) == if a >= b { a - b } else { a - b + 65536 },
{
    lemma_unwind_small(b - a);
    lemma_unwind_small(a - b);
}

/// A shortest turn moves from `from` toward `to` by the turning speed, or
/// all the way when the target is nearer: it covers `min(speed, gap)` of
/// the shorter gap between the two, and what is left of the gap is the
/// rest.
pub proof fn lemma_turn_to_shortest(from: int, to: int, speed: int)
    requires
        speed >= 0,
    ensures
        ({
            let f = unwind(from);
            let t = unwind(to);
            let r = turned_shortest(from, to, speed);
            let g = apart(f, t);
            &&& 0 <= r < 65536
            &&& apart(f, r) == min_int(speed, g)
            &&& apart(r, t) == g - min_int(speed, g)
        }),
{
    let f = unwind(from);
    let t = unwind(to);
    lemma_unwind_bound(from);
    lemma_unwind_bound(to);
    let r = turned_shortest(from, to, speed);
    if f > t {
        if f - t < 0x8000 {
            lemma_unwind_small(f - min_int(f - t, speed));
        } else {
            lemma_unwind_small(f + min_int(t + 0x10000 - f, speed));
        }
    } else if t - f < 0x8000 {
        lemma_unwind_small(f + min_int(t - f, speed));
    } else {
        lemma_unwind_small(f - min_int(f + 0x10000 - t, speed));
    }
    lemma_gaps(f, t);
    lemma_gaps(f, r);
    lemma_gaps(r, t);
}

/// A turn in a fixed direction moves upward by `direction` units when it is
/// positive, and downward by its size otherwise, stopping at `to`: it
/// covers `min(|direction|, gap)` of the gap to `to` in that direction.
pub proof fn lemma_turn_to_fixed(from: int, to: int, direction: int)
    ensures
        ({
            let f = unwind(from);
            let t = unwind(to);
            let r = turned_fixed(from, to, direction);
            &&& 0 <= r < 65536
            &&& direction > 0 ==> ahead(f, r) == min_int(direction, ahead(f, t))
            &&& direction <= 0 ==> ahead(r, f) == min_int(-direction, ahead(t, f))
        }),
{
    let f = unwind(from);
    let t = unwind(to);
    lemma_unwind_bound(from);
    lemma_unwind_bound(to);
    let r = turned_fixed(from, to, direction);
    if direction > 0 {
        if f > t {
            lemma_unwind_small(f + min_int(direction, t - f + 0x10000));
        } else {
            lemma_unwind_small(f + min_int(direction, t - f));
        }
    } else if f < t {
        lemma_unwind_small(f + max_int(direction, t - f - 0x10000));
    } else {
        lemma_unwind_small(f + max_int(direction, t - f));
    }
    lemma_gaps(f, t);
    lemma_gaps(f, r);
}

/// A clamped pitch lies within the rate on either side of level: at most
/// `rate` looking up, at least `65536 - rate` looking down. A pitch already
/// there is kept; one beyond is brought back toward level on its own side.
/// (With a rate of 0, looking down is brought to 65536, which is level.)
pub proof fn lemma_clamp_pawn_pitch(desired: int, rate: int)
    requires
        0 <= rate < 0x8000,
    ensures
        ({
            let d = unwind(desired);
            let r = clamped_pitch(desired, rate);
            &&& 0 <= r <= 0x10000
            &&& rate > 0 ==> r < 0x10000
            &&& r <= rate || r >= 0x10000 - rate
            &&& (d <= rate || d >= 0x10000 - rate) ==> r == d
            &&& d < 0x8000 ==> r <= d
            &&& d >= 0x8000 ==> r >= d
        }),
{
    lemma_unwind_bound(desired);
    let d = unwind(desired);
    if d < 0x8000 {
        assert(clamped_pitch(desired, rate) == min_int(d, rate));
    } else if d < 0x10000 - rate {
        assert(clamped_pitch(desired, rate) == 0x10000 - rate);
    } else {
        assert(clamped_pitch(desired, rate) == d);
    }
}

/// Two rotators are equal exactly when each pair of components differs by
/// whole turns of 65536 units; equality is reflexive and symmetric.
pub proof fn lemma_rotators_match(left: [i32; 3], right: [i32; 3])
    ensures
        rotators_match(left, right) <==> forall|i: int|
            0 <= i < 3 ==> #[trigger] ((left[i] as int - right[i] as int) % 65536) == 0,
        rotators_match(left, left),
        rotators_match(left, right) == rotators_match(right, left),
{
    assert forall|i: int| 0 <= i < 3 implies (unwind(left[i] as int) == unwind(right[i] as int)) == (((left[i] as int
        - right[i] as int) % 65536) == 0) by {
        vstd::arithmetic::div_mod::lemma_mod_equivalence(left[i] as int, right[i] as int, 65536);
    }
}

} // verus!
