//! Distances in real numbers: who stands in the exit, who reaches an item, who touches whom, and
//! who is chased.

use crate::bounce::{
    law_plus_close, lemma_negated, lemma_product_within, lemma_square_positive, lemma_value_negated,
    real_value, within,
};
use crate::double::{encoded, law_plus_commutes, lemma_magnitude_parts, Double};
use crate::exact::{
    law_plus_near, law_times_near, least, lemma_commutes, lemma_distributes, lemma_least,
    lemma_plus_range, lemma_root_range, lemma_size_is, lemma_size_ordered, lemma_size_positive,
    lemma_size_strict, lemma_slack_product, lemma_times_range, power, size, slack,
};
use crate::level::{lemma_target, taken_count, target, ExitZone, Item, LevelView, ITEM_R};
use crate::physics::{lemma_square, square_norm, touching, Body, Vec2, PLAYER_R};
use crate::rounding::INFINITE;
use vstd::arithmetic::power2::*;
use vstd::prelude::*;

verus! {

/// Whether a number is of moderate size: finite, and less than `2^353`.
pub open spec fn moderate(x: Double) -> bool {
    x.finite() && x.exponent() <= 300
}

/// The square of the exact distance between two points.
pub open spec fn exact_square(p: Vec2, q: Vec2) -> real {
    let x = real_value(q.x) - real_value(p.x);
    let y = real_value(q.y) - real_value(p.y);
    x * x + y * y
}

pub open spec fn moderate_point(p: Vec2) -> bool {
    moderate(p.x) && moderate(p.y)
}

/// A point mirrored at the diagonal.
pub open spec fn flipped(p: Vec2) -> Vec2 {
    Vec2 { x: p.y, y: p.x }
}

// ---------------------------------------------------------------------------
// Computed distances
// ---------------------------------------------------------------------------

/// The square of a number that is off by a trillionth part or so.
proof fn lemma_square_off(v: real, g: real, m: real)
    requires
        m == if v < 0real {
            -v
        } else {
            v
        },
        within(g, slack(m + 1real)),
    ensures
        within((v + g) * (v + g) - v * v, 4real * slack(v * v) + 2real * slack(1real)),
{
    let z = v + g;
    lemma_distributes(v, g, z);
    lemma_commutes(v, z);
    lemma_commutes(g, z);
    lemma_distributes(v, g, v);
    lemma_distributes(v, g, g);
    lemma_commutes(v, g);
    assert(z * z == v * v + 2real * (g * v) + g * g);
    lemma_negated(v, v);
    assert(m * m == v * v);
    lemma_product_within(g, v, slack(m + 1real), m);
    lemma_product_within(g, g, slack(m + 1real), slack(m + 1real));
    lemma_slack_product(m + 1real, m);
    lemma_distributes(m, 1real, m);
    assert(1real * m == m);
    // 2 m <= m^2 + 1
    lemma_square_positive(m - 1real);
    lemma_distributes(m, -1real, m - 1real);
    lemma_commutes(m, m - 1real);
    lemma_distributes(m, -1real, m);
    assert((-1real) * m == -m);
    assert((-1real) * (m - 1real) == 1real - m);
    let w = m + 1real;
    lemma_slack_product(w, slack(w));
    lemma_commutes(w, slack(w));
    lemma_slack_product(w, w);
    lemma_distributes(m, 1real, w);
    lemma_commutes(m, w);
    assert(1real * w == w);
    assert(w * w <= 2real * (m * m) + 2real);
    lemma_square_positive(g);
    lemma_square_positive(m);
}

/// The square of a computed difference is near that of the exact one.
pub(crate) proof fn lemma_side_close(a: Double, b: Double)
    requires
        moderate(a),
        moderate(b),
    ensures
        ({
            let d = b.minus(a);
            let t = real_value(b) - real_value(a);
            let s = size(d.times(d));
            &&& d.finite()
            &&& d.exponent() <= 303
            &&& d.times(d).finite()
            &&& !d.times(d).negative()
            &&& d.times(d).exponent() <= 660
            &&& within(t * t - s, 9real * slack(s) + 7real * slack(1real))
            &&& within(real_value(d) - t, slack(size(d)) + least())
        }),
{
    lemma_least();
    let d = b.minus(a);
    let t = real_value(b) - real_value(a);
    lemma_value_negated(a);
    lemma_size_positive(a);
    lemma_plus_range(b, a.negate());
    law_plus_close(b, a.negate());
    lemma_times_range(d, d);
    lemma_square(d);
    law_times_near(d, d);
    lemma_size_positive(d);
    let m = size(d);
    let v = real_value(d);
    lemma_negated(m, m);
    lemma_square_off(v, t - v, m);
    lemma_size_positive(d.times(d));
}

/// A computed squared distance is near the exact one.
pub proof fn law_distance_close(p: Vec2, q: Vec2)
    requires
        moderate_point(p),
        moderate_point(q),
    ensures
        ({
            let square = square_norm(q.x.minus(p.x), q.y.minus(p.y));
            &&& square.finite()
            &&& !square.negative()
            &&& within(size(square) - exact_square(p, q), 25real * slack(size(square) + 1real))
        }),
{
    lemma_least();
    lemma_side_close(p.x, q.x);
    lemma_side_close(p.y, q.y);
    let dx = q.x.minus(p.x);
    let dy = q.y.minus(p.y);
    let sx = dx.times(dx);
    let sy = dy.times(dy);
    lemma_plus_range(sx, sy);
    law_plus_close(sx, sy);
    law_plus_near(sx, sy);
    lemma_size_positive(sx);
    lemma_size_positive(sy);
    lemma_size_positive(sx.plus(sy));
}

/// Numbers that are not negative are compared as the real numbers that they stand for.
pub(crate) proof fn lemma_compared(x: Double, y: Double)
    requires
        x.finite(),
        y.finite(),
        !x.negative(),
        !y.negative(),
    ensures
        x.le(y) ==> size(x) <= size(y),
        !x.le(y) ==> size(y) <= size(x),
        x.lt(y) ==> size(x) <= size(y),
        !x.lt(y) ==> size(y) <= size(x),
        x.ge(y) ==> size(y) <= size(x),
        !x.ge(y) ==> size(x) <= size(y),
        x.gt(y) ==> size(y) <= size(x),
        !x.gt(y) ==> size(x) <= size(y),
{
    if x.magnitude() <= y.magnitude() {
        lemma_size_ordered(x, y);
    }
    if y.magnitude() <= x.magnitude() {
        lemma_size_ordered(y, x);
    }
}

/// Numbers whose real values are ordered are not ordered the other way round.
pub(crate) proof fn lemma_number_order(x: Double, y: Double)
    requires
        x.finite(),
        y.finite(),
        real_value(x) >= real_value(y),
    ensures
        !x.lt(y),
        !y.gt(x),
{
    lemma_size_positive(x);
    lemma_size_positive(y);
    if x.rank() < y.rank() {
        if !x.negative() || (!y.negative() && x.zero()) {
            lemma_size_strict(x, y);
        } else if y.negative() {
            lemma_size_strict(y, x);
        } else {
            lemma_size_strict(encoded(0), x);
            lemma_size_positive(encoded(0));
        }
    }
}

/// Numbers are ordered as the real numbers that they stand for.
pub(crate) proof fn lemma_rank_value(x: Double, y: Double)
    requires
        x.finite(),
        y.finite(),
        x.rank() <= y.rank(),
    ensures
        real_value(x) <= real_value(y),
{
    lemma_size_positive(x);
    lemma_size_positive(y);
    if x.negative() && y.negative() {
        lemma_size_ordered(y, x);
    } else if !x.negative() && !y.negative() {
        lemma_size_ordered(x, y);
    } else if !x.negative() {
        lemma_size_ordered(x, encoded(0));
        lemma_size_ordered(y, encoded(0));
        lemma_size_positive(encoded(0));
    }
}

/// How a computed squared distance compares with the square of a reach.
pub(crate) proof fn lemma_reached(p: Vec2, q: Vec2, reach: Double)
    requires
        moderate_point(p),
        moderate_point(q),
        moderate(reach),
    ensures
        ({
            let square = square_norm(q.x.minus(p.x), q.y.minus(p.y));
            let limit = reach.times(reach);
            let r = size(reach) * size(reach);
            let margin = 60real * slack(r + 1real);
            &&& square.finite() && limit.finite()
            &&& !square.negative() && !limit.negative()
            &&& square.le(limit) || !square.ge(limit) ==> exact_square(p, q) <= r + margin
            &&& !square.le(limit) || square.ge(limit) ==> exact_square(p, q) >= r - margin
        }),
{
    lemma_least();
    law_distance_close(p, q);
    let square = square_norm(q.x.minus(p.x), q.y.minus(p.y));
    let limit = reach.times(reach);
    lemma_times_range(reach, reach);
    lemma_square(reach);
    law_times_near(reach, reach);
    lemma_size_positive(limit);
    lemma_size_positive(square);
    lemma_compared(square, limit);
    lemma_square_positive(size(reach));
}

// ---------------------------------------------------------------------------
// The exit
// ---------------------------------------------------------------------------

/// The exit is a disc: it holds exactly those points whose distance from its centre is at most its
/// radius, but for rounding. A point that it holds is no further away in either coordinate.
pub proof fn law_exit_is_a_disc(exit: ExitZone, x: Double, y: Double)
    requires
        moderate(exit.x),
        moderate(exit.y),
        moderate(exit.r),
        moderate(x),
        moderate(y),
    ensures
        ({
            let dx = real_value(x) - real_value(exit.x);
            let dy = real_value(y) - real_value(exit.y);
            let r = size(exit.r) * size(exit.r);
            let margin = 60real * slack(r + 1real);
            &&& exit.holds(x, y) ==> {
                &&& dx * dx + dy * dy <= r + margin
                &&& dx * dx <= r + margin
                &&& dy * dy <= r + margin
            }
            &&& !exit.holds(x, y) ==> dx * dx + dy * dy >= r - margin
        }),
{
    let c = Vec2 { x: exit.x, y: exit.y };
    lemma_reached(c, Vec2 { x, y }, exit.r);
    lemma_square_positive(real_value(x) - real_value(exit.x));
    lemma_square_positive(real_value(y) - real_value(exit.y));
}

/// Mirrored at the diagonal, a point lies in the exit as it did before.
pub proof fn law_exit_flips(exit: ExitZone, x: Double, y: Double)
    ensures
        (ExitZone { x: exit.y, y: exit.x, r: exit.r }).holds(y, x) == exit.holds(x, y),
{
    let dx = x.minus(exit.x);
    let dy = y.minus(exit.y);
    law_plus_commutes(dx.times(dx), dy.times(dy));
}

// ---------------------------------------------------------------------------
// Items
// ---------------------------------------------------------------------------

/// The reach of a player for items: 22 and 16.
proof fn lemma_item_reach()
    ensures
        ({
            let reach = encoded(PLAYER_R).plus(encoded(ITEM_R));
            &&& moderate(reach)
            &&& 1444real - 1real / 10000real <= size(reach) * size(reach) <= 1444real + 1real
                / 10000real
        }),
{
    lemma_least();
    lemma2_to64();
    lemma2_to64_rest();
    let a = encoded(PLAYER_R);
    let b = encoded(ITEM_R);
    assert(a.exponent() == -48 && a.significand() == 0x16_0000_0000_0000);
    assert(b.exponent() == -48 && b.significand() == 0x10_0000_0000_0000);
    lemma_size_is(a, 48, 22real);
    lemma_size_is(b, 48, 16real);
    let reach = a.plus(b);
    lemma_plus_range(a, b);
    law_plus_near(a, b);
    lemma_size_positive(reach);
    lemma_sum_off(38real, size(reach));
    assert(38real * 38real == 1444real);
}

/// An item is taken by exactly those players whose centre is at most 38 away, but for rounding.
pub proof fn law_item_in_reach(item: Item, player: Body)
    requires
        moderate(item.x),
        moderate(item.y),
        moderate_point(player.pos),
    ensures
        ({
            let dx = real_value(player.pos.x) - real_value(item.x);
            let dy = real_value(player.pos.y) - real_value(item.y);
            let square = dx * dx + dy * dy;
            &&& item.in_reach(player) ==> square <= 38real * 38real + 1real / 1000real
            &&& square <= 38real * 38real - 1real / 1000real ==> item.in_reach(player)
        }),
{
    lemma_item_reach();
    let reach = encoded(PLAYER_R).plus(encoded(ITEM_R));
    lemma_reached(Vec2 { x: item.x, y: item.y }, player.pos, reach);
    assert(38real * 38real == 1444real);
}

/// Whether a player's centre is nearer to an item than a distance with the given square.
pub open spec fn near_item(item: Item, player: Body, limit: real) -> bool {
    let dx = real_value(player.pos.x) - real_value(item.x);
    let dy = real_value(player.pos.y) - real_value(item.y);
    dx * dx + dy * dy <= limit
}

/// How many items are taken.
pub open spec fn gone(items: Seq<Item>) -> nat
    decreases items.len(),
{
    if items.len() == 0 {
        0
    } else {
        gone(items.drop_last()) + if items.last().collected {
            1nat
        } else {
            0nat
        }
    }
}

/// Players pick up the items that they touch, and no others: an item is taken afterwards if it was
/// before or if some player is nearer than 38, and only if it was before or some player is no
/// further than that. Items stay where they are, and their order and number are kept.
pub proof fn law_items_collected(level: LevelView, players: Seq<Body>, t: int)
    requires
        0 <= t < level.items.len(),
        moderate(level.items[t].x),
        moderate(level.items[t].y),
        forall|i: int| 0 <= i < players.len() ==> moderate_point((#[trigger] players[i]).pos),
    ensures
        ({
            let item = level.items[t];
            let after = level.offered(players).items;
            &&& after.len() == level.items.len()
            &&& after[t].x == item.x
            &&& after[t].y == item.y
            &&& after[t].collected ==> item.collected || exists|i: int|
                0 <= i < players.len() && near_item(
                    item,
                    #[trigger] players[i],
                    38real * 38real + 1real / 1000real,
                )
            &&& (item.collected || exists|i: int|
                0 <= i < players.len() && near_item(
                    item,
                    #[trigger] players[i],
                    38real * 38real - 1real / 1000real,
                )) ==> after[t].collected
        }),
{
    let item = level.items[t];
    assert forall|i: int| 0 <= i < players.len() implies (item.in_reach(#[trigger] players[i])
        ==> near_item(item, players[i], 38real * 38real + 1real / 1000real)) && (near_item(
        item,
        players[i],
        38real * 38real - 1real / 1000real,
    ) ==> item.in_reach(players[i])) by {
        law_item_in_reach(item, players[i]);
    }
}

/// What is reported as taken is by how much the number of taken items grows.
pub proof fn law_items_counted(items: Seq<Item>, players: Seq<Body>)
    ensures
        taken_count(items, players) + gone(items) == gone(
            items.map_values(|t: Item| t.offered(players)),
        ),
    decreases items.len(),
{
    if items.len() > 0 {
        law_items_counted(items.drop_last(), players);
        let after = items.map_values(|t: Item| t.offered(players));
        assert(after.drop_last() =~= items.drop_last().map_values(|t: Item| t.offered(players)));
    }
}

// ---------------------------------------------------------------------------
// Touch and chase
// ---------------------------------------------------------------------------

/// Circles touch when the distance of their centres is less than their radii together, but for
/// rounding, unless they share their centre. How they lie to the axes does not matter.
pub proof fn law_touching_is_overlap(a: Body, b: Body)
    requires
        moderate_point(a.pos),
        moderate_point(b.pos),
        moderate(a.r),
        moderate(b.r),
        a.r.exponent() <= 290,
        b.r.exponent() <= 290,
        !a.r.negative(),
        !b.r.negative(),
    ensures
        ({
            let dx = real_value(b.pos.x) - real_value(a.pos.x);
            let dy = real_value(b.pos.y) - real_value(a.pos.y);
            let square = dx * dx + dy * dy;
            let reach = size(a.r) + size(b.r);
            let margin = 100real * slack(reach * reach + 1real);
            &&& touching(a, b) ==> square <= reach * reach + margin
            &&& square <= reach * reach - margin && square >= 1real / 1000000real ==> touching(
                a,
                b,
            )
        }),
{
    lemma_least();
    let sum = a.r.plus(b.r);
    lemma_plus_range(a.r, b.r);
    law_plus_near(a.r, b.r);
    lemma_reached(a.pos, b.pos, sum);
    law_distance_close(a.pos, b.pos);
    lemma_size_positive(a.r);
    lemma_size_positive(b.r);
    lemma_size_positive(sum);
    let reach = size(a.r) + size(b.r);
    lemma_sum_off(reach, size(sum));
    let square = square_norm(b.pos.x.minus(a.pos.x), b.pos.y.minus(a.pos.y));
    lemma_size_positive(square);
    if exact_square(a.pos, b.pos) >= 1real / 1000000real {
        if square.zero() {
            assert(size(square) == 0real) by {
                lemma_magnitude_parts(square);
                assert(0real * power(square.exponent()) == 0real);
            }
        }
        lemma_root_range(square);
    }
}

/// The square of a sum that is computed with a small error.
proof fn lemma_sum_off(exact: real, computed: real)
    requires
        exact >= 0real,
        computed >= 0real,
        within(computed - exact, slack(computed) + slack(1real)),
    ensures
        within(computed * computed - exact * exact, 8real * slack(exact * exact + 1real)),
{
    let g = exact - computed;
    lemma_square_off(computed, g, computed);
    lemma_square_positive(exact);
    lemma_square_positive(computed);
}

/// Mirrored at the diagonal, circles touch as they did before.
pub proof fn law_touching_flips(a: Body, b: Body)
    ensures
        touching(
            Body { pos: flipped(a.pos), ..a },
            Body { pos: flipped(b.pos), ..b },
        ) == touching(a, b),
{
    let dx = b.pos.x.minus(a.pos.x);
    let dy = b.pos.y.minus(a.pos.y);
    law_plus_commutes(dx.times(dx), dy.times(dy));
}

/// Who is chased is nearest: the way leads to some player, and no other is clearly nearer, in exact
/// distances.
pub proof fn law_target_is_nearest(from: Vec2, players: Seq<Body>) -> (j: int)
    requires
        players.len() > 0,
        moderate_point(from),
        forall|i: int| 0 <= i < players.len() ==> moderate_point((#[trigger] players[i]).pos),
    ensures
        ({
            let t = target(from, players, players.len());
            &&& 0 <= j < players.len()
            &&& t.dx == players[j].pos.x.minus(from.x)
            &&& t.dy == players[j].pos.y.minus(from.y)
            &&& t.square.finite()
            &&& t.square == square_norm(t.dx, t.dy)
            &&& forall|i: int|
                0 <= i < players.len() ==> {
                    let other = exact_square(from, (#[trigger] players[i]).pos);
                    exact_square(from, players[j].pos) <= other + 60real * slack(other + 1real)
                }
        }),
{
    lemma_least();
    let n = players.len();
    let t = target(from, players, n);
    lemma_target(from, players, n);
    law_distance_close(from, players[0].pos);
    let j = choose|j: int|
        0 <= j < n && t.dx == (#[trigger] players[j]).pos.x.minus(from.x) && t.dy
            == players[j].pos.y.minus(from.y) && t.square == square_norm(t.dx, t.dy);
    law_distance_close(from, players[j].pos);
    lemma_size_positive(t.square);
    assert forall|i: int| 0 <= i < n implies {
        let other = exact_square(from, (#[trigger] players[i]).pos);
        exact_square(from, players[j].pos) <= other + 60real * slack(other + 1real)
    } by {
        law_distance_close(from, players[i].pos);
        let square = square_norm(
            players[i].pos.x.minus(from.x),
            players[i].pos.y.minus(from.y),
        );
        lemma_compared(square, t.square);
        lemma_size_positive(square);
    }
    j
}

} // verus!
