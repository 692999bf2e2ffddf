//! Who is in a room and what they want: joining, leaving, steering and standing still.

use crate::bounce::{lemma_negated, lemma_root_within, lemma_square_positive, real_value, within};
use crate::double::{encoded, Double};
use crate::exact::{
    law_over_near, least, lemma_associates, lemma_commutes, lemma_distributes, lemma_least,
    lemma_over_range, lemma_regrouped, lemma_scaled_ordered, lemma_size_is, lemma_size_ordered,
    lemma_size_positive, lemma_size_strict, lemma_slack_product, lemma_square_ordered, size, slack,
};
use crate::motion::{
    lemma_direction_part, lemma_moderate_exponent, lemma_norm_close, lemma_normal_size,
    lemma_root_square,
};
use crate::physics::{square_norm, Vec2, ONE, PLAYER_R};
use crate::room::{lemma_seat, new_player, normalised, present, sits, Phase, Player, RoomView};
use crate::space::lemma_compared;
use crate::spawn::lemma_ring_exact;
use vstd::arithmetic::power2::*;
use vstd::prelude::*;

verus! {

// ---------------------------------------------------------------------------
// Steering
// ---------------------------------------------------------------------------

/// Whether input was taken over as it should be, in real numbers: both coordinates are multiplied
/// by the same factor, which is 1 up to unit length, and makes longer input one long.
pub open spec fn taken_over(x: Double, y: Double, taken: Vec2, factor: real) -> bool {
    let a = real_value(x);
    let b = real_value(y);
    let square = a * a + b * b;
    let tiny = 1real / 1000000real;
    &&& 0real < factor <= 1real + tiny
    &&& square <= 1real - tiny ==> taken.x == x && taken.y == y
    &&& square <= 1real - tiny ==> factor == 1real
    &&& square >= 1real + tiny ==> within((factor * factor) * square - 1real, tiny)
    &&& within(real_value(taken.x) - factor * a, tiny)
    &&& within(real_value(taken.y) - factor * b, tiny)
}

/// Input keeps its direction, and is made one long if it is longer.
pub proof fn law_input_in_numbers(x: Double, y: Double) -> (factor: real)
    requires
        x.finite(),
        y.finite(),
        within(real_value(x), 4000real),
        within(real_value(y), 4000real),
    ensures
        taken_over(x, y, normalised(x, y), factor),
{
    lemma_least();
    lemma2_to64_rest();
    let a = real_value(x);
    let b = real_value(y);
    let d2 = a * a + b * b;
    let sum = square_norm(x, y);
    lemma_norm_close(x, y);
    lemma_size_positive(sum);
    lemma_root_square(sum);
    let len = sum.root();
    let l = size(len);
    let w = l * l;
    lemma_square_positive(l);
    lemma_square_positive(a);
    lemma_square_positive(b);
    let one = encoded(ONE);
    assert(one.exponent() == -52 && one.significand() == 0x10_0000_0000_0000);
    lemma_size_is(one, 52, 1real);
    lemma_compared(len, one);
    if len.gt(one) {
        let g = 1real / l;
        assert(g * l == 1real && g > 0real) by (nonlinear_arith)
            requires
                l >= 1real,
                g == 1real / l,
        ;
        if g > 1real {
            lemma_scaled_ordered(1real, l, g);
            lemma_commutes(g, l);
        }
        lemma_square_ordered(1real, l);
        assert(1real * 1real == 1real);
        // The length becomes one.
        lemma_regrouped(g, l, g, l);
        let g2 = g * g;
        assert(g2 * w == 1real);
        lemma_square_positive(g);
        let off = d2 - w;
        let bound = 20real * slack(w);
        assert(within(off, bound));
        lemma_distributes(w, off, g2);
        lemma_commutes(g2, d2);
        lemma_commutes(g2, w);
        lemma_scaled_ordered(off, bound, g2);
        lemma_scaled_ordered(-bound, off, g2);
        lemma_negated(bound, g2);
        lemma_associates(20real, slack(w), g2);
        lemma_slack_product(w, g2);
        lemma_commutes(w, g2);
        // The coordinates.
        lemma_moderate_exponent(x, 4000real);
        lemma_moderate_exponent(y, 4000real);
        lemma_normal_size(len);
        lemma_quotient_fits(x, len, g, w, d2);
        lemma_commutes(b * b, 1real);
        lemma_quotient_fits(y, len, g, w, d2);
        g
    } else {
        assert(1real * a == a && 1real * b == b && 1real * d2 == d2);
        lemma_square_ordered(l, 1real);
        assert(1real * 1real == 1real);
        1real
    }
}

/// A coordinate divided by the length is at most about one.
proof fn lemma_quotient_fits(x: Double, len: Double, g: real, w: real, d2: real)
    requires
        x.finite(),
        x.exponent() <= 0,
        len.finite(),
        !len.negative(),
        len.exponent() >= -60,
        0real < g <= 1real,
        g * size(len) == 1real,
        w == size(len) * size(len),
        w >= 1real,
        real_value(x) * real_value(x) <= d2,
        d2 <= w + 20real * slack(w),
    ensures
        x.over(len).finite(),
        within(real_value(x.over(len)) - g * real_value(x), slack(10real)),
{
    let a = real_value(x);
    let l = size(len);
    lemma_least();
    law_over_near(x, len);
    lemma_over_range(x, len);
    let n = x.over(len);
    let q = size(n);
    lemma_size_positive(x);
    lemma_size_positive(n);
    lemma_size_positive(len);
    // |a| <= 1.01 l, so the quotient is at most 1.1.
    let top = (101real / 100real) * l;
    lemma_regrouped(101real / 100real, l, 101real / 100real, l);
    assert((101real / 100real) * (101real / 100real) == 10201real / 10000real) by (nonlinear_arith);
    assert(top * top == (10201real / 10000real) * w);
    lemma_root_within(a, top);
    let e = slack(q) + least();
    assert((q - e) * l <= top);
    if l == 0real {
        assert(g * 0real == 0real);
    }
    if q > 11real / 10real {
        lemma_scaled_ordered(102real / 100real, q - e, l);
        assert((102real / 100real) * l > (101real / 100real) * l);
    }
    lemma_direction_part(x, len, a, g);
}

// ---------------------------------------------------------------------------
// Standing still
// ---------------------------------------------------------------------------

/// Whether a player is clearly moving or wanting to: some input is not zero, or the speed is above
/// one.
pub open spec fn clearly_moving(p: Player) -> bool {
    let x = real_value(p.body.vel.x);
    let y = real_value(p.body.vel.y);
    ||| !p.input.x.zero()
    ||| !p.input.y.zero()
    ||| x * x + y * y >= 1001real / 1000real
}

/// Whether a player is clearly at rest.
pub open spec fn clearly_still(p: Player) -> bool {
    let x = real_value(p.body.vel.x);
    let y = real_value(p.body.vel.y);
    &&& p.input.x.zero()
    &&& p.input.y.zero()
    &&& x * x + y * y <= 999real / 1000real
}

/// Whether a player's velocity and input are ordinary numbers.
pub open spec fn countable(p: Player) -> bool {
    &&& p.body.vel.x.finite() && p.body.vel.y.finite()
    &&& within(real_value(p.body.vel.x), 4000real)
    &&& within(real_value(p.body.vel.y), 4000real)
    &&& p.input.x.finite() && p.input.y.finite()
}

/// A room is in motion while a campaign is being played, and otherwise exactly if somebody moves
/// faster than one or steers, in either coordinate.
pub proof fn law_motion_in_numbers(room: RoomView)
    requires
        forall|i: int| 0 <= i < room.players.len() ==> countable(#[trigger] room.players[i]),
    ensures
        room.phase == Phase::Playing ==> room.in_motion(),
        (exists|i: int| 0 <= i < room.players.len() && clearly_moving(#[trigger] room.players[i]))
            ==> room.in_motion(),
        room.phase != Phase::Playing && (forall|i: int|
            0 <= i < room.players.len() ==> clearly_still(#[trigger] room.players[i]))
            ==> !room.in_motion(),
{
    assert forall|i: int| 0 <= i < room.players.len() implies (clearly_moving(
        #[trigger] room.players[i],
    ) ==> room.players[i].moving()) && (clearly_still(room.players[i])
        ==> !room.players[i].moving()) by {
        lemma_moving(room.players[i]);
    }
}

proof fn lemma_moving(p: Player)
    requires
        countable(p),
    ensures
        clearly_moving(p) ==> p.moving(),
        clearly_still(p) ==> !p.moving(),
{
    lemma2_to64_rest();
    let sum = square_norm(p.body.vel.x, p.body.vel.y);
    lemma_norm_close(p.body.vel.x, p.body.vel.y);
    lemma_size_positive(sum);
    let one = encoded(ONE);
    assert(one.exponent() == -52 && one.significand() == 0x10_0000_0000_0000);
    lemma_size_is(one, 52, 1real);
    lemma_compared(sum, one);
    lemma_compared(one, sum);
    if size(sum) > 1real {
        if sum.magnitude() <= one.magnitude() {
            lemma_size_ordered(sum, one);
        }
    } else {
        if one.magnitude() < sum.magnitude() {
            lemma_size_strict(one, sum);
        }
    }
}

// ---------------------------------------------------------------------------
// Coming and going
// ---------------------------------------------------------------------------

/// Who joins has their own id, index, name and colour, stands at rest on the ring around the middle
/// of the rink, 200 out in the direction of the heading, wants nothing yet and is not ready.
pub proof fn law_newcomers_in_numbers(
    id: String,
    idx: u8,
    name: String,
    color: String,
    heading: Vec2,
)
    requires
        heading.x.finite(),
        heading.y.finite(),
        within(real_value(heading.x), 1real),
        within(real_value(heading.y), 1real),
    ensures
        ({
            let p = new_player(id, idx, name, color, heading);
            &&& p.id == id
            &&& p.idx == idx
            &&& p.name == name
            &&& p.color == color
            &&& p.body.pos.x.finite() && p.body.pos.y.finite()
            &&& within(
                real_value(p.body.pos.x) - (900real + 200real * real_value(heading.x)),
                1real / 1000000real,
            )
            &&& within(
                real_value(p.body.pos.y) - (600real + 200real * real_value(heading.y)),
                1real / 1000000real,
            )
            &&& real_value(p.body.vel.x) == 0real
            &&& real_value(p.body.vel.y) == 0real
            &&& size(p.body.r) == 22real
            &&& !p.body.is_static
            &&& real_value(p.input.x) == 0real
            &&& real_value(p.input.y) == 0real
            &&& p.input.seq == 0
            &&& p.last_seq == 0
            &&& !p.ready
        }),
{
    lemma2_to64_rest();
    lemma_size_positive(encoded(0));
    let r = encoded(PLAYER_R);
    assert(r.exponent() == -48 && r.significand() == 0x16_0000_0000_0000);
    lemma_size_is(r, 48, 22real);
    lemma_ring_exact(heading);
}

/// Joining adds the newcomer behind everybody else, or in the place of whoever had the same id.
/// Nothing else changes.
pub proof fn law_joining_changes_nothing_else(room: RoomView, p: Player)
    requires
        room.wf(),
    ensures
        ({
            let after = room.with(p);
            &&& !present(room.players, p.id@) ==> after.players == room.players.push(p)
            &&& forall|k: int|
                #[trigger] sits(room.players, k, p.id@) ==> after.players == room.players.update(
                    k,
                    p,
                )
            &&& after.id == room.id
            &&& after.pillars == room.pillars
            &&& after.tick == room.tick
            &&& after.phase == room.phase
            &&& after.level == room.level
            &&& after.campaign_seed == room.campaign_seed
        }),
{
    assert forall|k: int| #[trigger] sits(room.players, k, p.id@) implies room.with(p).players
        == room.players.update(k, p) by {
        lemma_seat(room.players, k, p.id@);
    }
}

/// Leaving takes away whoever has the id, and keeps the order of the others. While somebody stays,
/// nothing else changes.
pub proof fn law_leaving_changes_nothing_else(room: RoomView, id: Seq<char>)
    requires
        room.wf(),
    ensures
        ({
            let after = room.without(id);
            &&& !present(room.players, id) && room.players.len() > 0 ==> after == room
            &&& forall|k: int|
                #[trigger] sits(room.players, k, id) && room.players.len() > 1 ==> after.players
                    == room.players.remove(k)
            &&& after.players.len() > 0 ==> {
                &&& after.phase == room.phase
                &&& after.level == room.level
            }
            &&& after.id == room.id
            &&& after.pillars == room.pillars
            &&& after.tick == room.tick
            &&& after.campaign_seed == room.campaign_seed
        }),
{
    assert forall|k: int| #[trigger] sits(room.players, k, id) && room.players.len() > 1 implies
        room.without(id).players == room.players.remove(k) by {
        lemma_seat(room.players, k, id);
    }
}

} // verus!
