//! How a campaign goes on, in real numbers: who stands where, what is picked up, and when a level
//! gives way to the next.

use crate::double::Double;
use crate::encounter::standing;
use crate::exact::{size, slack};
use crate::level::{law_enemies_only_lose, lemma_clash_len, ExitZone};
use crate::physics::Vec2;
use crate::room::{before_progress, law_levels_in_order, Phase, RoomView};
use crate::space::{
    exact_square, law_exit_is_a_disc, law_items_collected, moderate, moderate_point, near_item,
};
use vstd::prelude::*;

verus! {

/// Whether a point is clearly inside a zone: its exact distance from the centre is less than the
/// radius, by more than rounding.
pub open spec fn clearly_inside(exit: ExitZone, p: Vec2) -> bool {
    let r = size(exit.r) * size(exit.r);
    exact_square(Vec2 { x: exit.x, y: exit.y }, p) < r - 60real * slack(r + 1real)
}

/// Whether a point is clearly outside a zone.
pub open spec fn clearly_outside(exit: ExitZone, p: Vec2) -> bool {
    let r = size(exit.r) * size(exit.r);
    exact_square(Vec2 { x: exit.x, y: exit.y }, p) > r + 60real * slack(r + 1real)
}

pub open spec fn moderate_zone(exit: ExitZone) -> bool {
    moderate(exit.x) && moderate(exit.y) && moderate(exit.r)
}

/// A level is not left while somebody stands clearly outside its exit, or while an enemy is alive
/// that has more hit points than there are players to hit it.
pub proof fn law_level_is_not_left(room: RoomView, damp: Double)
    requires
        room.wf(),
        room.phase == Phase::Playing,
        moderate_zone(room.level->0.exit),
        ({
            let after = room.ticked(damp).room.players;
            ||| exists|i: int|
                0 <= i < room.players.len() && moderate_point((#[trigger] after[i]).body.pos)
                    && clearly_outside(room.level->0.exit, after[i].body.pos)
            ||| exists|k: int|
                0 <= k < room.level->0.enemies.len() && (#[trigger] room.level->0.enemies[k]).alive
                    && room.level->0.enemies[k].hp > room.players.len()
            ||| room.players.len() == 0
        }),
    ensures
        room.ticked(damp).room.phase == Phase::Playing,
        room.ticked(damp).room.level->0.index == room.level->0.index,
        room.ticked(damp).room.level->0.exit == room.level->0.exit,
{
    reveal(RoomView::ticked);
    law_levels_in_order(room, damp);
    let fought = before_progress(room, damp);
    let after = room.ticked(damp).room.players;
    let exit = room.level->0.exit;
    lemma_same_places(room, damp);
    if fought.level_done() {
        assert forall|i: int| 0 <= i < room.players.len() && moderate_point(
            (#[trigger] after[i]).body.pos,
        ) implies !clearly_outside(exit, after[i].body.pos) by {
            let pos = after[i].body.pos;
            assert(fought.players[i].body.pos == pos);
            law_exit_is_a_disc(exit, pos.x, pos.y);
        }
        assert forall|k: int|
            0 <= k < room.level->0.enemies.len() && (#[trigger] room.level->0.enemies[k]).alive
                implies room.level->0.enemies[k].hp <= room.players.len() by {
            law_enemies_only_lose(room.level->0, standing(room, damp), damp, k);
            let stepped = room.level->0.stepped(standing(room, damp), damp);
            assert(!fought.level->0.enemies[k].alive);
            assert(fought.level->0.enemies == stepped.enemies);
        }
    }
}

/// Nobody is moved by what a finished level leads to.
proof fn lemma_same_places(room: RoomView, damp: Double)
    requires
        room.wf(),
        room.phase == Phase::Playing,
    ensures
        ({
            let fought = before_progress(room, damp);
            let after = room.ticked(damp).room.players;
            &&& after.len() == room.players.len()
            &&& fought.players.len() == room.players.len()
            &&& forall|i: int|
                0 <= i < room.players.len() ==> (#[trigger] after[i]).body
                    == fought.players[i].body
        }),
{
    reveal(RoomView::ticked);
}

/// A level is left as soon as no enemy is alive in it and everybody stands clearly in its exit: for
/// the next one, or after the third for victory, where nobody is ready.
pub proof fn law_level_is_left(room: RoomView, damp: Double)
    requires
        room.wf(),
        room.phase == Phase::Playing,
        room.players.len() > 0,
        moderate_zone(room.level->0.exit),
        forall|k: int|
            0 <= k < room.level->0.enemies.len() ==> !(#[trigger] room.level->0.enemies[k]).alive,
        forall|i: int|
            0 <= i < room.players.len() ==> {
                let pos = (#[trigger] room.ticked(damp).room.players[i]).body.pos;
                moderate_point(pos) && clearly_inside(room.level->0.exit, pos)
            },
    ensures
        ({
            let after = room.ticked(damp).room;
            let index = room.level->0.index;
            if index < 2 {
                after.phase == Phase::Playing && after.level is Some && after.level->0.index
                    == index + 1
            } else {
                after.phase == Phase::Victory && after.level is None && forall|i: int|
                    0 <= i < after.players.len() ==> !(#[trigger] after.players[i]).ready
            }
        }),
{
    reveal(RoomView::ticked);
    law_levels_in_order(room, damp);
    lemma_same_places(room, damp);
    let fought = before_progress(room, damp);
    let after = room.ticked(damp).room.players;
    let exit = room.level->0.exit;
    assert(fought.level->0.cleared()) by {
        let stepped = room.level->0.stepped(standing(room, damp), damp);
        assert(fought.level->0.enemies == stepped.enemies);
        lemma_clash_len(room.level->0, standing(room, damp), damp);
        assert forall|k: int| 0 <= k < stepped.enemies.len() implies !(
        #[trigger] stepped.enemies[k]).alive by {
            law_enemies_only_lose(room.level->0, standing(room, damp), damp, k);
            assert(!room.level->0.enemies[k].alive);
        }
    }
    assert forall|i: int| 0 <= i < fought.players.len() implies exit.holds(
        (#[trigger] fought.players[i]).body.pos.x,
        fought.players[i].body.pos.y,
    ) by {
        let pos = after[i].body.pos;
        assert(fought.players[i].body.pos == pos);
        law_exit_is_a_disc(exit, pos.x, pos.y);
    }
}

/// In a campaign players pick up what they touch at the end of a tick, and nothing else.
pub proof fn law_players_pick_up(room: RoomView, damp: Double, t: int)
    requires
        room.wf(),
        room.phase == Phase::Playing,
        0 <= t < room.level->0.items.len(),
        room.ticked(damp).room.phase == Phase::Playing,
        room.ticked(damp).room.level->0.index == room.level->0.index,
        moderate(room.level->0.items[t].x),
        moderate(room.level->0.items[t].y),
        forall|i: int|
            0 <= i < room.players.len() ==> moderate_point(
                (#[trigger] room.ticked(damp).room.players[i]).body.pos,
            ),
    ensures
        ({
            let item = room.level->0.items[t];
            let out = room.ticked(damp).room;
            let after = out.level->0.items;
            &&& after.len() == room.level->0.items.len()
            &&& after[t].x == item.x
            &&& after[t].y == item.y
            &&& after[t].collected ==> item.collected || exists|i: int|
                0 <= i < room.players.len() && near_item(
                    item,
                    (#[trigger] out.players[i]).body,
                    38real * 38real + 1real / 1000real,
                )
            &&& (item.collected || exists|i: int|
                0 <= i < room.players.len() && near_item(
                    item,
                    (#[trigger] out.players[i]).body,
                    38real * 38real - 1real / 1000real,
                )) ==> after[t].collected
        }),
{
    reveal(RoomView::ticked);
    law_levels_in_order(room, damp);
    let fought = before_progress(room, damp);
    let out = room.ticked(damp).room;
    assert(!fought.level_done());
    let level = room.level->0.stepped(standing(room, damp), damp);
    let bodies = room.level->0.clash(standing(room, damp), damp).players;
    lemma_clash_len(room.level->0, standing(room, damp), damp);
    assert forall|i: int| 0 <= i < room.players.len() implies (
    #[trigger] out.players[i]).body == bodies[i] by {}
    assert forall|i: int| 0 <= i < bodies.len() implies moderate_point(
        (#[trigger] bodies[i]).pos,
    ) by {
        assert(moderate_point(out.players[i].body.pos));
    }
    law_items_collected(level, bodies, t);
    let item = room.level->0.items[t];
    assert(out.level->0.items == level.offered(bodies).items);
    if out.level->0.items[t].collected && !item.collected {
        let i = choose|i: int|
            0 <= i < bodies.len() && near_item(
                item,
                #[trigger] bodies[i],
                38real * 38real + 1real / 1000real,
            );
        assert(near_item(item, out.players[i].body, 38real * 38real + 1real / 1000real));
    }
    if exists|i: int|
        0 <= i < room.players.len() && near_item(
            item,
            (#[trigger] out.players[i]).body,
            38real * 38real - 1real / 1000real,
        ) {
        let i = choose|i: int|
            0 <= i < room.players.len() && near_item(
                item,
                (#[trigger] out.players[i]).body,
                38real * 38real - 1real / 1000real,
            );
        assert(near_item(item, bodies[i], 38real * 38real - 1real / 1000real));
    }
}

} // verus!
