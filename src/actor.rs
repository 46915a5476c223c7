use vstd::prelude::*;
use crate::geometry::{Position, COORD_LIMIT};
use crate::world::{
    ids_apart, laser_ids_distinct, lasers_ok, Laser, Terrain, WinSize, World, LASER_STEP,
};

verus! {

/// Edge of the actor's sprite.
pub const ACTOR_SPRITE_SIZE: i64 = 70;

/// Distance from the actor's corner to its centre.
pub const ACTOR_SPRITE_OFFSET: i64 = 35;

/// Units the actor moves per tick for each unit of vertical velocity.
pub const ACTOR_VERTICAL_SPEED: i64 = 10;

/// A velocity in units per tick.
#[derive(Clone, Copy, Debug, PartialEq, Eq, Structural)]
pub struct Velocity {
    pub x: i64,
    pub y: i64,
}

/// The player's gun: where it is and how it moves.
#[derive(Clone, Copy, Debug, PartialEq, Eq, Structural)]
pub struct Actor {
    pub pos: Position,
    pub velocity: Velocity,
}

/// The actor at the lower left corner of the field, drifting up.
pub fn actor_setup_system(field: &WinSize) -> (r: Actor)
    requires
        field.wf(),
    ensures
        r.pos.x == -(field.w / 2) + ACTOR_SPRITE_OFFSET,
        r.pos.y == -(field.h / 2) + ACTOR_SPRITE_OFFSET,
        r.velocity == (Velocity { x: 0, y: 1 }),
{
    Actor {
        pos: Position { x: -(field.w / 2) + ACTOR_SPRITE_OFFSET, y: -(field.h / 2) + ACTOR_SPRITE_OFFSET },
        velocity: Velocity { x: 0, y: 1 },
    }
}

/// Steers the actor: down wins over up, and with neither it stops.
pub fn actor_keyboard_event_system(actor: &mut Actor, down: bool, up: bool)
    ensures
        final(actor).pos == old(actor).pos,
        final(actor).velocity.x == old(actor).velocity.x,
        final(actor).velocity.y == (if down { -1int } else if up { 1int } else { 0int }),
{
    actor.velocity.y = if down {
        -1
    } else if up {
        1
    } else {
        0
    };
}

/// Moves the actor by its velocity, ten times as fast vertically.
pub fn actor_move_system(actor: &mut Actor)
    requires
        i64::MIN <= old(actor).pos.x + old(actor).velocity.x <= i64::MAX,
        i64::MIN <= old(actor).pos.y + ACTOR_VERTICAL_SPEED * old(actor).velocity.y <= i64::MAX,
    ensures
        final(actor).velocity == old(actor).velocity,
        final(actor).pos.x == old(actor).pos.x + old(actor).velocity.x,
        final(actor).pos.y == old(actor).pos.y + ACTOR_VERTICAL_SPEED * old(actor).velocity.y,
{
    let dy: i128 = (actor.velocity.y as i128) * 10;
    assert(dy == ACTOR_VERTICAL_SPEED * actor.velocity.y);
    actor.pos.x = actor.pos.x + actor.velocity.x;
    actor.pos.y = (actor.pos.y as i128 + dy) as i64;
}

/// Where a laser fired by the actor starts: one sprite width to its right.
pub open spec fn muzzle(actor: Actor) -> Position {
    Position { x: (actor.pos.x + ACTOR_SPRITE_SIZE) as i64, y: actor.pos.y }
}

/// Fires a laser from the actor when `fire` is set, and returns its id.
pub fn actor_laser_spawn_system(world: &mut World, actor: &Actor, fire: bool) -> (r: Option<u64>)
    requires
        old(world)@.wf(),
        old(world).next_id < u64::MAX,
        -COORD_LIMIT <= actor.pos.x + ACTOR_SPRITE_SIZE <= COORD_LIMIT,
        -COORD_LIMIT <= actor.pos.y <= COORD_LIMIT,
    ensures
        final(world)@.wf(),
        fire ==> r == Some(old(world).next_id) && final(world)@ == (Terrain {
            lasers: old(world)@.lasers.push(Laser { id: old(world).next_id, pos: muzzle(*actor) }),
            next_id: old(world)@.next_id + 1,
            ..old(world)@
        }),
        !fire ==> r.is_none() && final(world)@ == old(world)@,
{
    if fire {
        let id = world.spawn_laser(Position { x: actor.pos.x + ACTOR_SPRITE_SIZE, y: actor.pos.y });
        Some(id)
    } else {
        None
    }
}

/// The lasers after one step right; those that reach the right half-width `half_w` are gone.
pub open spec fn advance_lasers(ls: Seq<Laser>, half_w: int) -> Seq<Laser>
    decreases ls.len(),
{
    if ls.len() == 0 {
        ls
    } else {
        let rest = advance_lasers(ls.drop_last(), half_w);
        let l = ls.last();
        let moved = Laser { pos: Position { x: (l.pos.x + LASER_STEP) as i64, y: l.pos.y }, ..l };
        if moved.pos.x >= half_w { rest } else { rest.push(moved) }
    }
}

/// Every advanced laser comes from one of the given lasers, keeps its id and
/// height, and stands left of `half_w`.
proof fn lemma_advance_lasers(ls: Seq<Laser>, half_w: int)
    requires
        laser_ids_distinct(ls),
        forall|i: int| 0 <= i < ls.len() ==> (#[trigger] ls[i]).pos.in_bounds(COORD_LIMIT as int),
    ensures
        laser_ids_distinct(advance_lasers(ls, half_w)),
        forall|i: int| 0 <= i < advance_lasers(ls, half_w).len() ==> exists|m: int| 0 <= m < ls.len() && {
            &&& (#[trigger] advance_lasers(ls, half_w)[i]).id == ls[m].id
            &&& advance_lasers(ls, half_w)[i].pos.y == ls[m].pos.y
            &&& advance_lasers(ls, half_w)[i].pos.x == ls[m].pos.x + LASER_STEP
            &&& advance_lasers(ls, half_w)[i].pos.x < half_w
        },
    decreases ls.len(),
{
    if ls.len() > 0 {
        let front = ls.drop_last();
        assert(laser_ids_distinct(front)) by {
            assert forall|i: int, j: int| 0 <= i < front.len() && 0 <= j < front.len() && i != j implies #[trigger] front[i].id != #[trigger] front[j].id by {
                assert(ls[i].id != ls[j].id);
            }
        }
        lemma_advance_lasers(front, half_w);
        let rest = advance_lasers(front, half_w);
        let out = advance_lasers(ls, half_w);
        let last = ls.len() - 1;
        assert forall|i: int| 0 <= i < rest.len() implies #[trigger] rest[i].id != ls[last].id by {
            let m = choose|m: int| 0 <= m < front.len() && {
                &&& (#[trigger] rest[i]).id == front[m].id
                &&& rest[i].pos.y == front[m].pos.y
                &&& rest[i].pos.x == front[m].pos.x + LASER_STEP
                &&& rest[i].pos.x < half_w
            };
            assert(ls[m].id != ls[last].id);
        }
        assert forall|i: int| 0 <= i < out.len() implies exists|m: int| 0 <= m < ls.len() && {
            &&& (#[trigger] out[i]).id == ls[m].id
            &&& out[i].pos.y == ls[m].pos.y
            &&& out[i].pos.x == ls[m].pos.x + LASER_STEP
            &&& out[i].pos.x < half_w
        } by {
            if i < rest.len() {
                assert(out[i] == rest[i]);
                let m = choose|m: int| 0 <= m < front.len() && {
                    &&& (#[trigger] rest[i]).id == front[m].id
                    &&& rest[i].pos.y == front[m].pos.y
                    &&& rest[i].pos.x == front[m].pos.x + LASER_STEP
                    &&& rest[i].pos.x < half_w
                };
                assert(ls[m] == front[m]);
            } else {
                assert(ls[last] == ls.last());
                assert(ls[last].pos.in_bounds(COORD_LIMIT as int));
                assert(out[i].id == ls[last].id);
            }
        }
        assert forall|i: int, j: int| 0 <= i < out.len() && 0 <= j < out.len() && i != j implies #[trigger] out[i].id != #[trigger] out[j].id by {
            if i < rest.len() && j < rest.len() {
                assert(out[i] == rest[i] && out[j] == rest[j]);
            } else if i < rest.len() {
                assert(out[i] == rest[i]);
            } else if j < rest.len() {
                assert(out[j] == rest[j]);
            }
        }
    }
}

/// Moves every laser `LASER_STEP` units right; a laser that reaches the
/// right edge of the field is removed.
pub fn laser_move_system(world: &mut World)
    requires
        old(world)@.wf(),
    ensures
        final(world)@ == (Terrain { lasers: advance_lasers(old(world)@.lasers, old(world).field.w / 2), ..old(world)@ }),
        final(world)@.wf(),
{
    let ghost t = world@;
    let half_w = world.field.w / 2;
    let mut next: Vec<Laser> = Vec::new();
    let mut i: usize = 0;
    while i < world.lasers.len()
        invariant
            world@ == t,
            t.wf(),
            half_w == t.field.w / 2,
            i <= world.lasers.len(),
            next@ == advance_lasers(t.lasers.take(i as int), half_w as int),
        decreases world.lasers.len() - i,
    {
        assert(t.lasers.take(i as int + 1).drop_last() =~= t.lasers.take(i as int));
        let l = world.lasers[i];
        proof {
            assert(t.lasers[i as int].pos.in_bounds(COORD_LIMIT as int));
        }
        let moved = Laser { pos: Position { x: l.pos.x + LASER_STEP, y: l.pos.y }, ..l };
        if moved.pos.x < half_w {
            next.push(moved);
        }
        i = i + 1;
    }
    proof {
        assert(t.lasers.take(t.lasers.len() as int) =~= t.lasers);
        lemma_advance_lasers(t.lasers, half_w as int);
        let a = next@;
        assert forall|i: int| 0 <= i < a.len() implies {
            &&& (#[trigger] a[i]).pos.in_bounds(COORD_LIMIT as int)
            &&& a[i].id < t.next_id
        } by {
            let m = choose|m: int| 0 <= m < t.lasers.len() && {
                &&& (#[trigger] a[i]).id == t.lasers[m].id
                &&& a[i].pos.y == t.lasers[m].pos.y
                &&& a[i].pos.x == t.lasers[m].pos.x + LASER_STEP
                &&& a[i].pos.x < half_w
            };
            assert(t.lasers[m].pos.in_bounds(COORD_LIMIT as int));
        }
        assert forall|i: int, j: int| 0 <= i < t.blocks.len() && 0 <= j < a.len() implies #[trigger] t.blocks[i].id != #[trigger] a[j].id by {
            let m = choose|m: int| 0 <= m < t.lasers.len() && {
                &&& (#[trigger] a[j]).id == t.lasers[m].id
                &&& a[j].pos.y == t.lasers[m].pos.y
                &&& a[j].pos.x == t.lasers[m].pos.x + LASER_STEP
                &&& a[j].pos.x < half_w
            };
            assert(t.blocks[i].id != t.lasers[m].id);
        }
        assert(lasers_ok(a, t.next_id));
        assert(ids_apart(t.blocks, a));
    }
    world.lasers = next;
}

} // verus!
