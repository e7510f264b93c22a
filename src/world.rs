//! The simulation core: entities, bullets and obstacles, and the rules that
//! each tick applies to them.
use vstd::prelude::*;
use crate::model::{
    add_angles, angle_sum, default_color, drive_of, forward_speed, gun_angle_of, in_arena,
    rotation_speed, spawnable, traverse_angle, valid_actuator, BodyId, Bullet, Drive, Entity,
    Obstacle, Point, Rgb, ACTUATOR_HALF, ACTUATOR_ONE, AI_ARRIVAL_DISTANCE, AI_FIRE_INTERVAL_MS,
    AI_RETARGET_MAX_MS, AI_RETARGET_MIN_MS, ARENA_HEIGHT, ARENA_WIDTH, BULLET_TTL_MS,
    FIRE_COOLDOWN_MS, INITIAL_HEALTH, MUZZLE_OFFSET, OBSTACLE_COUNT, PI_MICRO, SPAWN_MARGIN,
    TAU_MICRO,
};
use crate::protocol::{Actuator, Command, CommandError, CommandView, Query};

verus! {

/// The elements of `s` whose flag in `drop` is false, in order.
pub open spec fn kept<T>(s: Seq<T>, drop: Seq<bool>) -> Seq<T>
    decreases s.len(),
{
    if s.len() == 0 {
        s
    } else if drop[0] {
        kept(s.drop_first(), drop.drop_first())
    } else {
        seq![s[0]] + kept(s.drop_first(), drop.drop_first())
    }
}

/// The elements of `s` whose flag in `drop` is true, from the last to the first.
pub open spec fn dropped<T>(s: Seq<T>, drop: Seq<bool>) -> Seq<T>
    decreases s.len(),
{
    if s.len() == 0 {
        s
    } else if drop[0] {
        dropped(s.drop_first(), drop.drop_first()).push(s[0])
    } else {
        dropped(s.drop_first(), drop.drop_first())
    }
}

pub proof fn lemma_kept_contains<T>(s: Seq<T>, drop: Seq<bool>, x: T)
    requires
        drop.len() == s.len(),
        kept(s, drop).contains(x),
    ensures
        exists|i: int| 0 <= i < s.len() && !drop[i] && s[i] == x,
    decreases s.len(),
{
    if s.len() > 0 {
        let rest = kept(s.drop_first(), drop.drop_first());
        if !drop[0] && x == s[0] {
            assert(!drop[0] && s[0] == x);
        } else {
            if !drop[0] {
                let k = choose|k: int| 0 <= k < kept(s, drop).len() && kept(s, drop)[k] == x;
                assert(k > 0);
                assert(rest[k - 1] == x);
            }
            assert(rest.contains(x));
            lemma_kept_contains(s.drop_first(), drop.drop_first(), x);
            let i = choose|i: int|
                0 <= i < s.len() - 1 && !drop.drop_first()[i] && s.drop_first()[i] == x;
            assert(!drop[i + 1] && s[i + 1] == x);
        }
    }
}

/// Removing nothing keeps the sequence as it is.
pub proof fn lemma_kept_nothing_flagged<T>(s: Seq<T>, drop: Seq<bool>)
    requires
        drop.len() == s.len(),
        forall|i: int| 0 <= i < drop.len() ==> !drop[i],
    ensures
        kept(s, drop) == s,
    decreases s.len(),
{
    if s.len() > 0 {
        lemma_kept_nothing_flagged(s.drop_first(), drop.drop_first());
        assert(!drop[0]);
        assert(kept(s, drop) =~= s);
    }
}

pub proof fn lemma_kept_all<T>(s: Seq<T>, drop: Seq<bool>, p: spec_fn(T) -> bool)
    requires
        drop.len() == s.len(),
        forall|i: int| 0 <= i < s.len() && !drop[i] ==> p(s[i]),
    ensures
        forall|k: int| 0 <= k < kept(s, drop).len() ==> p(#[trigger] kept(s, drop)[k]),
{
    assert forall|k: int| 0 <= k < kept(s, drop).len() implies p(#[trigger] kept(s, drop)[k]) by {
        assert(kept(s, drop).contains(kept(s, drop)[k]));
        lemma_kept_contains(s, drop, kept(s, drop)[k]);
    }
}

/// No two elements of `s` have the same key.
pub open spec fn unique_by<T, K>(s: Seq<T>, key: spec_fn(T) -> K) -> bool {
    forall|i: int, j: int| 0 <= i < s.len() && 0 <= j < s.len() && i != j ==> key(s[i]) != key(s[j])
}

pub proof fn lemma_kept_unique<T, K>(s: Seq<T>, drop: Seq<bool>, key: spec_fn(T) -> K)
    requires
        drop.len() == s.len(),
        unique_by(s, key),
    ensures
        unique_by(kept(s, drop), key),
    decreases s.len(),
{
    if s.len() > 0 {
        let t = s.drop_first();
        assert(unique_by(t, key)) by {
            assert forall|i: int, j: int|
                0 <= i < t.len() && 0 <= j < t.len() && i != j implies key(t[i]) != key(t[j]) by {
                assert(t[i] == s[i + 1] && t[j] == s[j + 1]);
            }
        }
        lemma_kept_unique(t, drop.drop_first(), key);
        if !drop[0] {
            let rest = kept(t, drop.drop_first());
            let r = kept(s, drop);
            assert(r == seq![s[0]] + rest);
            assert forall|i: int, j: int|
                0 <= i < r.len() && 0 <= j < r.len() && i != j implies key(r[i]) != key(r[j]) by {
                if i > 0 && j > 0 {
                    assert(r[i] == rest[i - 1] && r[j] == rest[j - 1]);
                } else {
                    let m = if i == 0 { j } else { i };
                    assert(rest.contains(r[m])) by {
                        assert(rest[m - 1] == r[m]);
                    }
                    lemma_kept_contains(t, drop.drop_first(), r[m]);
                    let q = choose|q: int|
                        0 <= q < t.len() && !drop.drop_first()[q] && t[q] == r[m];
                    assert(s[q + 1] == r[m]);
                }
            }
        }
    }
}

/// Removes from `v` the elements whose flag in `drop` is set, from the
/// highest index down so that no pending index is shifted, and returns them.
pub fn remove_marked<T>(v: &mut Vec<T>, drop: &Vec<bool>) -> (removed: Vec<T>)
    requires
        drop@.len() == old(v)@.len(),
    ensures
        final(v)@ == kept(old(v)@, drop@),
        removed@ == dropped(old(v)@, drop@),
{
    let ghost s = v@;
    let ghost d = drop@;
    let ghost n = s.len() as int;
    let mut removed: Vec<T> = Vec::new();
    let mut i = v.len();
    proof {
        assert(s.subrange(n, n) =~= Seq::<T>::empty());
        assert(s.subrange(0, n) =~= s);
        assert(v@ =~= s.subrange(0, n) + kept(s.subrange(n, n), d.subrange(n, n)));
    }
    while i > 0
        invariant
            0 <= i <= n,
            n == s.len() == d.len(),
            d == drop@,
            v@ == s.subrange(0, i as int) + kept(s.subrange(i as int, n), d.subrange(i as int, n)),
            removed@ == dropped(s.subrange(i as int, n), d.subrange(i as int, n)),
        decreases i,
    {
        i -= 1;
        let ghost tail = s.subrange(i as int, n);
        let ghost dtail = d.subrange(i as int, n);
        proof {
            assert(tail.drop_first() =~= s.subrange(i + 1, n));
            assert(dtail.drop_first() =~= d.subrange(i + 1, n));
            assert(tail[0] == s[i as int]);
            assert(dtail[0] == d[i as int]);
        }
        if drop[i] {
            proof {
                assert(v@[i as int] == s[i as int]);
            }
            let x = v.remove(i);
            removed.push(x);
            proof {
                assert(v@ =~= s.subrange(0, i as int) + kept(tail, dtail));
            }
        } else {
            proof {
                assert(v@ =~= s.subrange(0, i as int) + kept(tail, dtail));
            }
        }
    }
    proof {
        assert(s.subrange(0, 0) =~= Seq::<T>::empty());
        assert(s.subrange(0, n) =~= s);
        assert(d.subrange(0, n) =~= d);
    }
    removed
}

/// Relies on `rand::random_range` over the thread-local generator: for a
/// non-empty half-open integer range it returns a value inside it (and panics
/// on an empty one, which `requires` rules out).
#[verifier::external_body]
fn random_in(lo: i64, hi: i64) -> (r: i64)
    requires
        lo < hi,
    ensures
        lo <= r < hi,
{
    rand::random_range(lo..hi)
}

/// A random point where an entity or an obstacle may be placed.
pub fn random_spawn_point() -> (p: Point)
    ensures
        spawnable(p),
{
    let x = random_in(SPAWN_MARGIN, ARENA_WIDTH - SPAWN_MARGIN);
    let y = random_in(SPAWN_MARGIN, ARENA_HEIGHT - SPAWN_MARGIN);
    Point { x, y }
}

pub open spec fn ids_unique(es: Seq<Entity>) -> bool {
    forall|i: int, j: int|
        0 <= i < es.len() && 0 <= j < es.len() && i != j ==> es[i].id != es[j].id
}

pub open spec fn entity_handles_unique(es: Seq<Entity>) -> bool {
    forall|i: int, j: int|
        0 <= i < es.len() && 0 <= j < es.len() && i != j ==> es[i].handle != es[j].handle
}

pub open spec fn bullet_handles_unique(bs: Seq<Bullet>) -> bool {
    forall|i: int, j: int|
        0 <= i < bs.len() && 0 <= j < bs.len() && i != j ==> bs[i].handle != bs[j].handle
}

pub open spec fn tokens_unique(bd: Seq<(u64, u32)>) -> bool {
    forall|i: int, j: int| 0 <= i < bd.len() && 0 <= j < bd.len() && i != j ==> bd[i].0 != bd[j].0
}

pub open spec fn bound_ids_unique(bd: Seq<(u64, u32)>) -> bool {
    forall|i: int, j: int| 0 <= i < bd.len() && 0 <= j < bd.len() && i != j ==> bd[i].1 != bd[j].1
}

pub open spec fn has_id(es: Seq<Entity>, id: u32) -> bool {
    exists|i: int| 0 <= i < es.len() && es[i].id == id
}

/// An entity that is alive: well formed, with positive health and an id
/// between 1 and `next_id` (0 is never an entity's id).
pub open spec fn live(e: Entity, next_id: u32) -> bool {
    e.wf() && e.health >= 1 && 1 <= e.id < next_id
}

/// The state of the world shared by the tick and by every connection.
pub struct GameLogic {
    pub entities: Vec<Entity>,
    pub bullets: Vec<Bullet>,
    pub obstacles: Vec<Obstacle>,
    /// Which connection (by its token) controls which entity (by its id).
    pub bindings: Vec<(u64, u32)>,
    /// The id the next entity gets; ids are never reused.
    pub next_id: u32,
}

/// Why an entity could not be added.
#[derive(PartialEq, Eq, Structural, Clone, Copy, Debug)]
pub enum AddError {
    /// The body is already held by an entity or a bullet.
    HandleInUse,
    /// Every entity id has been handed out.
    IdsExhausted,
}

impl GameLogic {
    /// The world invariant: every entity is alive and has a unique id below
    /// `next_id`; every body is held by at most one entity or bullet; the
    /// connection bindings are one-to-one and name live entities only.
    pub open spec fn wf(&self) -> bool {
        let es = self.entities@;
        let bs = self.bullets@;
        let bd = self.bindings@;
        &&& self.next_id >= 1
        &&& forall|i: int| 0 <= i < es.len() ==> live(#[trigger] es[i], self.next_id)
        &&& ids_unique(es)
        &&& entity_handles_unique(es)
        &&& bullet_handles_unique(bs)
        &&& forall|i: int, j: int|
            0 <= i < es.len() && 0 <= j < bs.len() ==> es[i].handle != bs[j].handle
        &&& tokens_unique(bd)
        &&& bound_ids_unique(bd)
        &&& forall|k: int| 0 <= k < bd.len() ==> has_id(es, #[trigger] bd[k].1)
    }

    pub open spec fn handle_in_use(&self, h: BodyId) -> bool {
        (exists|i: int| 0 <= i < self.entities@.len() && self.entities@[i].handle == h) || (exists|
            j: int,
        |
            0 <= j < self.bullets@.len() && self.bullets@[j].handle == h)
    }

    /// An empty world.
    pub fn new() -> (r: GameLogic)
        ensures
            r.wf(),
            r.entities@.len() == 0,
            r.bullets@.len() == 0,
            r.obstacles@.len() == 0,
            r.bindings@.len() == 0,
    {
        GameLogic {
            entities: Vec::new(),
            bullets: Vec::new(),
            obstacles: Vec::new(),
            bindings: Vec::new(),
            next_id: 1,
        }
    }

    /// The id that the next added entity gets.
    pub fn next_entity_id(&self) -> (r: u32)
        ensures
            r == self.next_id,
    {
        self.next_id
    }

    /// The index of the entity with id `id`.
    pub fn find_entity(&self, id: u32) -> (r: Option<usize>)
        ensures
            r matches Some(i) ==> i < self.entities@.len() && self.entities@[i as int].id == id,
            r is None ==> !has_id(self.entities@, id),
    {
        let mut i: usize = 0;
        while i < self.entities.len()
            invariant
                i <= self.entities@.len(),
                forall|j: int| 0 <= j < i ==> self.entities@[j].id != id,
            decreases self.entities@.len() - i,
        {
            if self.entities[i].id == id {
                return Some(i);
            }
            i += 1;
        }
        None
    }

    fn handle_used(&self, h: BodyId) -> (r: bool)
        ensures
            r == self.handle_in_use(h),
    {
        let mut i: usize = 0;
        while i < self.entities.len()
            invariant
                i <= self.entities@.len(),
                forall|j: int| 0 <= j < i ==> self.entities@[j].handle != h,
            decreases self.entities@.len() - i,
        {
            if self.entities[i].handle == h {
                return true;
            }
            i += 1;
        }
        let mut j: usize = 0;
        while j < self.bullets.len()
            invariant
                j <= self.bullets@.len(),
                forall|k: int| 0 <= k < self.entities@.len() ==> self.entities@[k].handle != h,
                forall|k: int| 0 <= k < j ==> self.bullets@[k].handle != h,
            decreases self.bullets@.len() - j,
        {
            if self.bullets[j].handle == h {
                return true;
            }
            j += 1;
        }
        false
    }

    fn insert_entity(&mut self, name: String, handle: BodyId, position: Point, is_ai: bool, now: u64) -> (r:
        Result<u32, AddError>)
        requires
            old(self).wf(),
        ensures
            final(self).wf(),
            old(self).handle_in_use(handle) ==> r == Err::<u32, AddError>(AddError::HandleInUse),
            !old(self).handle_in_use(handle) && old(self).next_id == u32::MAX ==> r == Err::<
                u32,
                AddError,
            >(AddError::IdsExhausted),
            r is Err ==> *final(self) == *old(self),
            r matches Ok(id) ==> {
                &&& id == old(self).next_id
                &&& final(self).next_id == id + 1
                &&& final(self).entities@.len() == old(self).entities@.len() + 1
                &&& final(self).entities@.subrange(0, old(self).entities@.len() as int)
                    == old(self).entities@
                &&& fresh_entity(final(self).entities@.last(), id, name@, handle, is_ai, position, now)
                &&& final(self).bullets == old(self).bullets
                &&& final(self).obstacles == old(self).obstacles
                &&& final(self).bindings == old(self).bindings
            },
            !old(self).handle_in_use(handle) && old(self).next_id < u32::MAX ==> r is Ok,
    {
        if self.handle_used(handle) {
            return Err(AddError::HandleInUse);
        }
        if self.next_id == u32::MAX {
            return Err(AddError::IdsExhausted);
        }
        let id = self.next_id;
        let e = Entity::new(id, name, handle, is_ai, position, now);
        self.entities.push(e);
        self.next_id = id + 1;
        proof {
            let es = self.entities@;
            assert(es.subrange(0, es.len() - 1) =~= old(self).entities@);
            assert forall|k: int| 0 <= k < self.bindings@.len() implies has_id(
                es,
                #[trigger] self.bindings@[k].1,
            ) by {
                let i = choose|i: int|
                    0 <= i < old(self).entities@.len() && old(self).entities@[i].id
                        == self.bindings@[k].1;
                assert(es[i] == old(self).entities@[i]);
            }
            assert forall|i: int| 0 <= i < es.len() implies live(#[trigger] es[i], self.next_id) by {
                if i < es.len() - 1 {
                    assert(es[i] == old(self).entities@[i]);
                }
            }
            assert forall|i: int, j: int|
                0 <= i < es.len() && 0 <= j < self.bullets@.len() implies es[i].handle
                != self.bullets@[j].handle by {
                if i < es.len() - 1 {
                    assert(es[i] == old(self).entities@[i]);
                }
            }
            assert(ids_unique(es)) by {
                assert forall|i: int, j: int|
                    0 <= i < es.len() && 0 <= j < es.len() && i != j implies es[i].id
                    != es[j].id by {
                    if i < es.len() - 1 {
                        assert(es[i] == old(self).entities@[i]);
                    }
                    if j < es.len() - 1 {
                        assert(es[j] == old(self).entities@[j]);
                    }
                }
            }
            assert(entity_handles_unique(es)) by {
                assert forall|i: int, j: int|
                    0 <= i < es.len() && 0 <= j < es.len() && i != j implies es[i].handle
                    != es[j].handle by {
                    if i < es.len() - 1 {
                        assert(es[i] == old(self).entities@[i]);
                    }
                    if j < es.len() - 1 {
                        assert(es[j] == old(self).entities@[j]);
                    }
                }
            }
        }
        Ok(id)
    }

    /// Adds a client-controlled entity named `name`, bound to the body
    /// `handle` placed at `position`; its id is the next one.
    pub fn add_entity(&mut self, name: String, handle: BodyId, position: Point, now: u64) -> (r:
        Result<u32, AddError>)
        requires
            old(self).wf(),
        ensures
            final(self).wf(),
            old(self).handle_in_use(handle) ==> r == Err::<u32, AddError>(AddError::HandleInUse),
            !old(self).handle_in_use(handle) && old(self).next_id == u32::MAX ==> r == Err::<
                u32,
                AddError,
            >(AddError::IdsExhausted),
            !old(self).handle_in_use(handle) && old(self).next_id < u32::MAX ==> r is Ok,
            r is Err ==> *final(self) == *old(self),
            r matches Ok(id) ==> {
                &&& id == old(self).next_id
                &&& final(self).next_id == id + 1
                &&& final(self).entities@.len() == old(self).entities@.len() + 1
                &&& final(self).entities@.subrange(0, old(self).entities@.len() as int)
                    == old(self).entities@
                &&& fresh_entity(final(self).entities@.last(), id, name@, handle, false, position, now)
                &&& final(self).bullets == old(self).bullets
                &&& final(self).obstacles == old(self).obstacles
                &&& final(self).bindings == old(self).bindings
            },
    {
        self.insert_entity(name, handle, position, false, now)
    }

    /// Adds an entity steered by the autonomous driver; as `add_entity` otherwise.
    pub fn add_ai(&mut self, name: String, handle: BodyId, position: Point, now: u64) -> (r: Result<
        u32,
        AddError,
    >)
        requires
            old(self).wf(),
        ensures
            final(self).wf(),
            old(self).handle_in_use(handle) ==> r == Err::<u32, AddError>(AddError::HandleInUse),
            !old(self).handle_in_use(handle) && old(self).next_id == u32::MAX ==> r == Err::<
                u32,
                AddError,
            >(AddError::IdsExhausted),
            !old(self).handle_in_use(handle) && old(self).next_id < u32::MAX ==> r is Ok,
            r is Err ==> *final(self) == *old(self),
            r matches Ok(id) ==> {
                &&& id == old(self).next_id
                &&& final(self).next_id == id + 1
                &&& final(self).entities@.len() == old(self).entities@.len() + 1
                &&& final(self).entities@.subrange(0, old(self).entities@.len() as int)
                    == old(self).entities@
                &&& fresh_entity(final(self).entities@.last(), id, name@, handle, true, position, now)
                &&& final(self).bullets == old(self).bullets
                &&& final(self).obstacles == old(self).obstacles
                &&& final(self).bindings == old(self).bindings
            },
    {
        self.insert_entity(name, handle, position, true, now)
    }
}

/// `e` is a new entity with these identity fields, neutral actuators,
/// health 1 and score 0.
pub open spec fn fresh_entity(
    e: Entity,
    id: u32,
    name: Seq<char>,
    handle: BodyId,
    is_ai: bool,
    position: Point,
    now: u64,
) -> bool {
    &&& e.wf()
    &&& e.id == id
    &&& e.name@ == name
    &&& e.handle == handle
    &&& e.is_ai == is_ai
    &&& e.position == position
    &&& e.target == position
    &&& e.score == 0
    &&& e.health == INITIAL_HEALTH
    &&& e.last_shot == now
    &&& e.retarget_at == now
    &&& e.color == default_color()
    &&& e.motor_left == ACTUATOR_HALF
    &&& e.motor_right == ACTUATOR_HALF
    &&& e.gun_trigger == 0
    &&& e.gun_traverse == ACTUATOR_HALF
    &&& e.gun_orientation == 0
    &&& e.heading == 0
}

/// The answer to one applied sub-command.
pub enum Reply {
    NameSet(String),
    ColorSet(Rgb),
    ActuatorSet(Actuator, i64),
    EntityNotFound,
    Refused(CommandError),
    Unknown(String),
    /// A query that is recognised but not answered.
    NotAvailable(Query),
    /// The connection is to be closed.
    Closed,
}

pub enum ReplyView {
    NameSet(Seq<char>),
    ColorSet(Rgb),
    ActuatorSet(Actuator, int),
    EntityNotFound,
    Refused(CommandError),
    Unknown(Seq<char>),
    NotAvailable(Query),
    Closed,
}

impl View for Reply {
    type V = ReplyView;

    open spec fn view(&self) -> ReplyView {
        match self {
            Reply::NameSet(n) => ReplyView::NameSet(n@),
            Reply::ColorSet(c) => ReplyView::ColorSet(*c),
            Reply::ActuatorSet(a, v) => ReplyView::ActuatorSet(*a, *v as int),
            Reply::EntityNotFound => ReplyView::EntityNotFound,
            Reply::Refused(e) => ReplyView::Refused(*e),
            Reply::Unknown(c) => ReplyView::Unknown(c@),
            Reply::NotAvailable(q) => ReplyView::NotAvailable(*q),
            Reply::Closed => ReplyView::Closed,
        }
    }
}

/// `e` with the actuator `a` set to `v`.
pub open spec fn with_actuator(e: Entity, a: Actuator, v: i64) -> Entity {
    match a {
        Actuator::MotorLeft => Entity { motor_left: v, ..e },
        Actuator::MotorRight => Entity { motor_right: v, ..e },
        Actuator::GunTrigger => Entity { gun_trigger: v, ..e },
        Actuator::GunTraverse => Entity { gun_traverse: v, ..e },
    }
}

/// What applying a command to the entity `e` makes of it. A name is only
/// compared by its characters, so for `SetName` the result keeps `e`'s name.
pub open spec fn commanded(e: Entity, c: CommandView) -> Entity {
    match c {
        CommandView::SetColor(rgb) => Entity { color: rgb, ..e },
        CommandView::Actuate(a, v) => with_actuator(e, a, v as i64),
        _ => e,
    }
}

/// Whether command `c` changes the entity it is applied to.
pub open spec fn mutates(c: CommandView) -> bool {
    match c {
        CommandView::SetName(_) => true,
        CommandView::SetColor(_) => true,
        CommandView::Actuate(_, v) => 0 <= v <= ACTUATOR_ONE,
        _ => false,
    }
}

/// The reply to command `c` on a connection whose entity exists (`found`) or not.
pub open spec fn reply_of(c: CommandView, found: bool) -> ReplyView {
    match c {
        CommandView::Quit => ReplyView::Closed,
        CommandView::Query(q) => ReplyView::NotAvailable(q),
        CommandView::Unknown(code) => ReplyView::Unknown(code),
        CommandView::Invalid(e) => ReplyView::Refused(e),
        CommandView::Actuate(a, v) => if !(0 <= v <= ACTUATOR_ONE) {
            ReplyView::Refused(CommandError::OutOfRange)
        } else if found {
            ReplyView::ActuatorSet(a, v)
        } else {
            ReplyView::EntityNotFound
        },
        CommandView::SetColor(rgb) => if found {
            ReplyView::ColorSet(rgb)
        } else {
            ReplyView::EntityNotFound
        },
        CommandView::SetName(n) => if found {
            ReplyView::NameSet(n)
        } else {
            ReplyView::EntityNotFound
        },
    }
}

impl GameLogic {
    proof fn lemma_remove_entity_wf(old_self: GameLogic, new_self: GameLogic, i: int)
        requires
            old_self.wf(),
            0 <= i < old_self.entities@.len(),
            new_self.entities@ == old_self.entities@.remove(i),
            new_self.bullets == old_self.bullets,
            new_self.next_id == old_self.next_id,
            tokens_unique(new_self.bindings@),
            bound_ids_unique(new_self.bindings@),
            forall|k: int|
                0 <= k < new_self.bindings@.len() ==> has_id(
                    old_self.entities@,
                    #[trigger] new_self.bindings@[k].1,
                ) && new_self.bindings@[k].1 != old_self.entities@[i].id,
        ensures
            new_self.wf(),
    {
        let es = old_self.entities@;
        let ns = new_self.entities@;
        assert forall|k: int| 0 <= k < ns.len() implies ns[k] == es[if k < i { k } else { k + 1 }] by {}
        assert forall|k: int| 0 <= k < new_self.bindings@.len() implies has_id(
            ns,
            #[trigger] new_self.bindings@[k].1,
        ) by {
            let id = new_self.bindings@[k].1;
            let j = choose|j: int| 0 <= j < es.len() && es[j].id == id;
            assert(j != i);
            let m = if j < i { j } else { j - 1 };
            assert(ns[m] == es[j]);
        }
        assert forall|a: int| 0 <= a < ns.len() implies live(#[trigger] ns[a], new_self.next_id) by {
            assert(ns[a] == es[if a < i { a } else { a + 1 }]);
        }
        assert forall|a: int, b: int|
            0 <= a < ns.len() && 0 <= b < new_self.bullets@.len() implies ns[a].handle
            != new_self.bullets@[b].handle by {
            assert(ns[a] == es[if a < i { a } else { a + 1 }]);
        }
        assert(ids_unique(ns)) by {
            assert forall|a: int, b: int|
                0 <= a < ns.len() && 0 <= b < ns.len() && a != b implies ns[a].id != ns[b].id by {
                assert(ns[a] == es[if a < i { a } else { a + 1 }]);
                assert(ns[b] == es[if b < i { b } else { b + 1 }]);
            }
        }
        assert(entity_handles_unique(ns)) by {
            assert forall|a: int, b: int|
                0 <= a < ns.len() && 0 <= b < ns.len() && a != b implies ns[a].handle
                != ns[b].handle by {
                assert(ns[a] == es[if a < i { a } else { a + 1 }]);
                assert(ns[b] == es[if b < i { b } else { b + 1 }]);
            }
        }
    }

    /// Removes the binding of the entity `id`, if there is one.
    fn unbind_entity(&mut self, id: u32)
        requires
            tokens_unique(old(self).bindings@),
            bound_ids_unique(old(self).bindings@),
        ensures
            final(self).bindings@ == kept(
                old(self).bindings@,
                Seq::new(old(self).bindings@.len(), |k: int| old(self).bindings@[k].1 == id),
            ),
            tokens_unique(final(self).bindings@),
            bound_ids_unique(final(self).bindings@),
            forall|k: int|
                0 <= k < final(self).bindings@.len() ==> #[trigger] final(self).bindings@[k].1
                    != id && old(self).bindings@.contains(final(self).bindings@[k]),
            final(self).entities == old(self).entities,
            final(self).bullets == old(self).bullets,
            final(self).obstacles == old(self).obstacles,
            final(self).next_id == old(self).next_id,
    {
        let ghost bd = self.bindings@;
        let mut flags: Vec<bool> = Vec::new();
        let mut k: usize = 0;
        while k < self.bindings.len()
            invariant
                k <= self.bindings@.len(),
                self.bindings@ == bd,
                flags@.len() == k,
                forall|j: int| 0 <= j < k ==> flags@[j] == (bd[j].1 == id),
            decreases self.bindings@.len() - k,
        {
            flags.push(self.bindings[k].1 == id);
            k += 1;
        }
        proof {
            assert(flags@ =~= Seq::new(bd.len(), |k: int| bd[k].1 == id));
        }
        let _ = remove_marked(&mut self.bindings, &flags);
        proof {
            let r = self.bindings@;
            let ktok = |b: (u64, u32)| b.0;
            let kid = |b: (u64, u32)| b.1;
            lemma_kept_unique(bd, flags@, ktok);
            lemma_kept_unique(bd, flags@, kid);
            assert(tokens_unique(r)) by {
                assert forall|i: int, j: int|
                    0 <= i < r.len() && 0 <= j < r.len() && i != j implies r[i].0 != r[j].0 by {
                    assert(ktok(r[i]) != ktok(r[j]));
                }
            }
            assert(bound_ids_unique(r)) by {
                assert forall|i: int, j: int|
                    0 <= i < r.len() && 0 <= j < r.len() && i != j implies r[i].1 != r[j].1 by {
                    assert(kid(r[i]) != kid(r[j]));
                }
            }
            assert forall|k: int| 0 <= k < r.len() implies #[trigger] r[k].1 != id && bd.contains(
                r[k],
            ) by {
                assert(r.contains(r[k]));
                lemma_kept_contains(bd, flags@, r[k]);
            }
        }
    }

    /// Removes the entity `id` and its connection binding, and hands the
    /// entity back so that its body can be freed.
    pub fn remove_entity_by_id(&mut self, id: u32) -> (r: Option<Entity>)
        requires
            old(self).wf(),
        ensures
            final(self).wf(),
            final(self).bullets == old(self).bullets,
            final(self).obstacles == old(self).obstacles,
            final(self).next_id == old(self).next_id,
            !has_id(old(self).entities@, id) ==> r is None && *final(self) == *old(self),
            has_id(old(self).entities@, id) ==> (r matches Some(e) && e.id == id && exists|i: int|
                0 <= i < old(self).entities@.len() && old(self).entities@[i] == e
                    && final(self).entities@ == old(self).entities@.remove(i)),
            has_id(old(self).entities@, id) ==> final(self).bindings@ == kept(
                old(self).bindings@,
                Seq::new(old(self).bindings@.len(), |k: int| old(self).bindings@[k].1 == id),
            ),
            !has_id(final(self).entities@, id),
            forall|k: int|
                0 <= k < final(self).bindings@.len() ==> #[trigger] final(self).bindings@[k].1 != id,
    {
        match self.find_entity(id) {
            None => {
                proof {
                    assert forall|k: int| 0 <= k < self.bindings@.len() implies #[trigger] self.bindings@[k].1
                        != id by {
                        assert(has_id(self.entities@, self.bindings@[k].1));
                    }
                }
                None
            },
            Some(i) => {
                let ghost before = *self;
                self.unbind_entity(id);
                proof {
                    assert forall|k: int| 0 <= k < self.bindings@.len() implies has_id(
                        before.entities@,
                        #[trigger] self.bindings@[k].1,
                    ) && self.bindings@[k].1 != before.entities@[i as int].id by {
                        let b = self.bindings@[k];
                        assert(b.1 != id);
                        assert(before.bindings@.contains(b));
                        let j = choose|j: int| 0 <= j < before.bindings@.len() && before.bindings@[j] == b;
                        assert(has_id(before.entities@, before.bindings@[j].1));
                    }
                }
                let e = self.entities.remove(i);
                proof {
                    Self::lemma_remove_entity_wf(before, *self, i as int);
                    assert forall|j: int| 0 <= j < self.entities@.len() implies self.entities@[j].id != id by {
                        let es = before.entities@;
                        assert(self.entities@[j] == es[if j < i { j } else { j + 1 }]);
                    }
                }
                Some(e)
            },
        }
    }

    /// The entity that connection `token` controls.
    pub fn bound_entity(&self, token: u64) -> (r: Option<u32>)
        ensures
            r matches Some(id) ==> exists|k: int|
                0 <= k < self.bindings@.len() && self.bindings@[k] == (token, id),
            r is None ==> forall|k: int|
                0 <= k < self.bindings@.len() ==> #[trigger] self.bindings@[k].0 != token,
    {
        let mut k: usize = 0;
        while k < self.bindings.len()
            invariant
                k <= self.bindings@.len(),
                forall|j: int| 0 <= j < k ==> #[trigger] self.bindings@[j].0 != token,
            decreases self.bindings@.len() - k,
        {
            if self.bindings[k].0 == token {
                return Some(self.bindings[k].1);
            }
            k += 1;
        }
        None
    }

    /// Binds connection `token` to the entity `id`. Refused (false, nothing
    /// changed) when the entity does not exist or either side is already bound.
    pub fn bind(&mut self, token: u64, id: u32) -> (r: bool)
        requires
            old(self).wf(),
        ensures
            final(self).wf(),
            r == (has_id(old(self).entities@, id) && (forall|k: int|
                0 <= k < old(self).bindings@.len() ==> #[trigger] old(self).bindings@[k].0 != token
                    && old(self).bindings@[k].1 != id)),
            r ==> final(self).bindings@ == old(self).bindings@.push((token, id)),
            !r ==> final(self).bindings == old(self).bindings,
            final(self).entities == old(self).entities,
            final(self).bullets == old(self).bullets,
            final(self).obstacles == old(self).obstacles,
            final(self).next_id == old(self).next_id,
    {
        if self.find_entity(id).is_none() {
            return false;
        }
        let mut k: usize = 0;
        while k < self.bindings.len()
            invariant
                k <= self.bindings@.len(),
                *self == *old(self),
                old(self).wf(),
                forall|j: int|
                    0 <= j < k ==> #[trigger] self.bindings@[j].0 != token && self.bindings@[j].1
                        != id,
            decreases self.bindings@.len() - k,
        {
            if self.bindings[k].0 == token || self.bindings[k].1 == id {
                return false;
            }
            k += 1;
        }
        self.bindings.push((token, id));
        proof {
            let bd = self.bindings@;
            assert forall|k: int| 0 <= k < bd.len() implies has_id(self.entities@, #[trigger] bd[k].1) by {
                if k < bd.len() - 1 {
                    assert(bd[k] == old(self).bindings@[k]);
                }
            }
        }
        true
    }

    /// Registers a bullet. Refused (false, nothing changed) when its body is
    /// already held by an entity or a bullet.
    pub fn add_bullet(&mut self, bullet: Bullet) -> (r: bool)
        requires
            old(self).wf(),
        ensures
            final(self).wf(),
            r == !old(self).handle_in_use(bullet.handle),
            r ==> final(self).bullets@ == old(self).bullets@.push(bullet),
            !r ==> final(self).bullets == old(self).bullets,
            final(self).entities == old(self).entities,
            final(self).obstacles == old(self).obstacles,
            final(self).bindings == old(self).bindings,
            final(self).next_id == old(self).next_id,
    {
        if self.handle_used(bullet.handle) {
            return false;
        }
        self.bullets.push(bullet);
        proof {
            let bs = self.bullets@;
            assert forall|i: int, j: int|
                0 <= i < bs.len() && 0 <= j < bs.len() && i != j implies bs[i].handle
                != bs[j].handle by {
                if i < bs.len() - 1 {
                    assert(bs[i] == old(self).bullets@[i]);
                }
                if j < bs.len() - 1 {
                    assert(bs[j] == old(self).bullets@[j]);
                }
            }
            assert forall|i: int, j: int|
                0 <= i < self.entities@.len() && 0 <= j < bs.len() implies self.entities@[i].handle
                != bs[j].handle by {
                if j < bs.len() - 1 {
                    assert(bs[j] == old(self).bullets@[j]);
                }
            }
        }
        true
    }

    /// Applies one decoded sub-command to the entity `id` and says what
    /// happened. Only that entity's fields change, and only when the command
    /// is well formed and the entity exists.
    pub fn apply_command(&mut self, id: u32, cmd: &Command) -> (r: Reply)
        requires
            old(self).wf(),
        ensures
            final(self).wf(),
            r@ == reply_of(cmd@, has_id(old(self).entities@, id)),
            final(self).entities@.len() == old(self).entities@.len(),
            forall|i: int|
                0 <= i < old(self).entities@.len() ==> (#[trigger] final(self).entities@[i]).id
                    == old(self).entities@[i].id,
            final(self).bullets == old(self).bullets,
            final(self).obstacles == old(self).obstacles,
            final(self).bindings == old(self).bindings,
            final(self).next_id == old(self).next_id,
            !(mutates(cmd@) && has_id(old(self).entities@, id)) ==> final(self).entities
                == old(self).entities,
            mutates(cmd@) && has_id(old(self).entities@, id) ==> exists|i: int|
                0 <= i < old(self).entities@.len() && old(self).entities@[i].id == id && {
                    let e = final(self).entities@[i];
                    &&& final(self).entities@ == old(self).entities@.update(i, e)
                    &&& (Entity { name: old(self).entities@[i].name, ..e }) == commanded(
                        old(self).entities@[i],
                        cmd@,
                    )
                    &&& (match cmd@ {
                        CommandView::SetName(n) => e.name@ == n,
                        _ => true,
                    })
                    &&& (!(cmd@ is SetName) ==> e.name == old(self).entities@[i].name)
                },
    {
        match cmd {
            Command::Quit => Reply::Closed,
            Command::Query(q) => Reply::NotAvailable(*q),
            Command::Unknown(code) => Reply::Unknown(code.clone()),
            Command::Invalid(e) => Reply::Refused(*e),
            Command::Actuate(a, v) => {
                let v = *v;
                if !(0 <= v && v <= ACTUATOR_ONE) {
                    return Reply::Refused(CommandError::OutOfRange);
                }
                match self.find_entity(id) {
                    None => Reply::EntityNotFound,
                    Some(i) => {
                        let ghost before = self.entities@;
                        match a {
                            Actuator::MotorLeft => self.entities[i].motor_left = v,
                            Actuator::MotorRight => self.entities[i].motor_right = v,
                            Actuator::GunTrigger => self.entities[i].gun_trigger = v,
                            Actuator::GunTraverse => self.entities[i].gun_traverse = v,
                        }
                        proof {
                            self.lemma_update_entity_wf(before, i as int);
                        }
                        Reply::ActuatorSet(*a, v)
                    },
                }
            },
            Command::SetColor(rgb) => match self.find_entity(id) {
                None => Reply::EntityNotFound,
                Some(i) => {
                    let ghost before = self.entities@;
                    self.entities[i].color = *rgb;
                    proof {
                        self.lemma_update_entity_wf(before, i as int);
                    }
                    Reply::ColorSet(*rgb)
                },
            },
            Command::SetName(n) => match self.find_entity(id) {
                None => Reply::EntityNotFound,
                Some(i) => {
                    let ghost before = self.entities@;
                    let name = n.clone();
                    self.entities[i].name = name;
                    proof {
                        self.lemma_update_entity_wf(before, i as int);
                    }
                    Reply::NameSet(n.clone())
                },
            },
        }
    }

    /// Changing fields of one entity other than its id, handle and health
    /// keeps the world well formed, as long as its actuators stay valid.
    proof fn lemma_update_entity_wf(&self, before: Seq<Entity>, i: int)
        requires
            self.next_id >= 1,
            0 <= i < before.len(),
            self.entities@.len() == before.len(),
            self.entities@ == before.update(i, self.entities@[i]),
            self.entities@[i].id == before[i].id,
            self.entities@[i].handle == before[i].handle,
            self.entities@[i].health == before[i].health,
            self.entities@[i].wf(),
            ({
                let es = before;
                &&& forall|k: int| 0 <= k < es.len() ==> live(#[trigger] es[k], self.next_id)
                &&& ids_unique(es)
                &&& entity_handles_unique(es)
                &&& forall|a: int, b: int|
                    0 <= a < es.len() && 0 <= b < self.bullets@.len() ==> es[a].handle
                        != self.bullets@[b].handle
                &&& forall|k: int|
                    0 <= k < self.bindings@.len() ==> has_id(es, #[trigger] self.bindings@[k].1)
            }),
            bullet_handles_unique(self.bullets@),
            tokens_unique(self.bindings@),
            bound_ids_unique(self.bindings@),
        ensures
            self.wf(),
    {
        let es = self.entities@;
        assert forall|k: int| 0 <= k < self.bindings@.len() implies has_id(
            es,
            #[trigger] self.bindings@[k].1,
        ) by {
            let j = choose|j: int| 0 <= j < before.len() && before[j].id == self.bindings@[k].1;
            assert(es[j].id == before[j].id);
        }
        assert forall|k: int| 0 <= k < es.len() implies live(#[trigger] es[k], self.next_id) by {
            if k != i {
                assert(es[k] == before[k]);
            }
        }
    }
}

/// Bullet `i` is not consumed yet and is one of the two colliding bodies.
pub open spec fn bullet_hit(bs: Seq<Bullet>, consumed: Seq<bool>, i: int, a: BodyId, b: BodyId) -> bool {
    !consumed[i] && (bs[i].handle == a || bs[i].handle == b)
}

/// The first bullet from index `k` on that `bullet_hit` selects.
pub open spec fn first_bullet_from(
    bs: Seq<Bullet>,
    consumed: Seq<bool>,
    a: BodyId,
    b: BodyId,
    k: int,
) -> Option<int>
    decreases bs.len() - k,
{
    if k < 0 || k >= bs.len() {
        None
    } else if bullet_hit(bs, consumed, k, a, b) {
        Some(k)
    } else {
        first_bullet_from(bs, consumed, a, b, k + 1)
    }
}

/// The first entity from index `k` on whose body is `a` or `b`.
pub open spec fn first_entity_from(es: Seq<Entity>, a: BodyId, b: BodyId, k: int) -> Option<int>
    decreases es.len() - k,
{
    if k < 0 || k >= es.len() {
        None
    } else if es[k].handle == a || es[k].handle == b {
        Some(k)
    } else {
        first_entity_from(es, a, b, k + 1)
    }
}

/// `e` after taking one point of damage (health stops at `i32::MIN`).
pub open spec fn damaged(e: Entity) -> Entity {
    Entity {
        health: if e.health > i32::MIN {
            (e.health - 1) as i32
        } else {
            e.health
        },
        ..e
    }
}

/// `e` after scoring one point (score stops at `i32::MAX`).
pub open spec fn credited(e: Entity) -> Entity {
    Entity {
        score: if e.score < i32::MAX {
            (e.score + 1) as i32
        } else {
            e.score
        },
        ..e
    }
}

/// One collision-start event between the bodies `ev.0` and `ev.1`: the first
/// unconsumed bullet among them is consumed; the entity it struck loses one
/// health unless it fired that bullet, and then the shooter, if it still
/// exists, scores one point.
pub open spec fn resolve_event(
    es: Seq<Entity>,
    bs: Seq<Bullet>,
    consumed: Seq<bool>,
    ev: (BodyId, BodyId),
) -> (Seq<Entity>, Seq<bool>) {
    match first_bullet_from(bs, consumed, ev.0, ev.1, 0) {
        None => (es, consumed),
        Some(p) => {
            let c2 = consumed.update(p, true);
            match first_entity_from(es, ev.0, ev.1, 0) {
                None => (es, c2),
                Some(t) => if es[t].handle == bs[p].shooter {
                    (es, c2)
                } else {
                    let es2 = es.update(t, damaged(es[t]));
                    match first_entity_from(es2, bs[p].shooter, bs[p].shooter, 0) {
                        None => (es2, c2),
                        Some(s) => (es2.update(s, credited(es2[s])), c2),
                    }
                },
            }
        },
    }
}

/// The events of one tick, resolved in order.
pub open spec fn resolve_events(
    es: Seq<Entity>,
    bs: Seq<Bullet>,
    consumed: Seq<bool>,
    evs: Seq<(BodyId, BodyId)>,
) -> (Seq<Entity>, Seq<bool>)
    decreases evs.len(),
{
    if evs.len() == 0 {
        (es, consumed)
    } else {
        let r = resolve_events(es, bs, consumed, evs.drop_last());
        resolve_event(r.0, bs, r.1, evs.last())
    }
}

pub open spec fn no_flags(n: nat) -> Seq<bool> {
    Seq::new(n, |i: int| false)
}

pub open spec fn dead_flags(es: Seq<Entity>) -> Seq<bool> {
    Seq::new(es.len(), |i: int| es[i].health <= 0)
}

pub open spec fn stale_flags(bd: Seq<(u64, u32)>, es: Seq<Entity>) -> Seq<bool> {
    Seq::new(bd.len(), |k: int| !has_id(es, bd[k].1))
}

/// `e` differs from `orig` at most in health and score.
pub open spec fn same_but_tally(e: Entity, orig: Entity) -> bool {
    e == Entity { health: e.health, score: e.score, ..orig }
}

fn first_bullet(bs: &Vec<Bullet>, consumed: &Vec<bool>, a: BodyId, b: BodyId) -> (r: Option<usize>)
    requires
        consumed@.len() == bs@.len(),
    ensures
        r matches Some(p) ==> first_bullet_from(bs@, consumed@, a, b, 0) == Some(p as int),
        r is None ==> first_bullet_from(bs@, consumed@, a, b, 0) is None,
{
    let mut i: usize = 0;
    while i < bs.len()
        invariant
            i <= bs@.len() == consumed@.len(),
            first_bullet_from(bs@, consumed@, a, b, 0) == first_bullet_from(
                bs@,
                consumed@,
                a,
                b,
                i as int,
            ),
        decreases bs@.len() - i,
    {
        if !consumed[i] && (bs[i].handle == a || bs[i].handle == b) {
            return Some(i);
        }
        i += 1;
    }
    None
}

fn first_entity(es: &Vec<Entity>, a: BodyId, b: BodyId) -> (r: Option<usize>)
    ensures
        r matches Some(t) ==> first_entity_from(es@, a, b, 0) == Some(t as int),
        r is None ==> first_entity_from(es@, a, b, 0) is None,
{
    let mut i: usize = 0;
    while i < es.len()
        invariant
            i <= es@.len(),
            first_entity_from(es@, a, b, 0) == first_entity_from(es@, a, b, i as int),
        decreases es@.len() - i,
    {
        if es[i].handle == a || es[i].handle == b {
            return Some(i);
        }
        i += 1;
    }
    None
}

proof fn lemma_first_bullet_in_range(bs: Seq<Bullet>, c: Seq<bool>, a: BodyId, b: BodyId, k: int)
    requires
        c.len() == bs.len(),
    ensures
        first_bullet_from(bs, c, a, b, k) matches Some(p) ==> 0 <= p < bs.len() && bullet_hit(
            bs,
            c,
            p,
            a,
            b,
        ),
    decreases bs.len() - k,
{
    if 0 <= k < bs.len() && !bullet_hit(bs, c, k, a, b) {
        lemma_first_bullet_in_range(bs, c, a, b, k + 1);
    }
}

proof fn lemma_first_entity_in_range(es: Seq<Entity>, a: BodyId, b: BodyId, k: int)
    ensures
        first_entity_from(es, a, b, k) matches Some(t) ==> 0 <= t < es.len() && (es[t].handle == a
            || es[t].handle == b),
    decreases es.len() - k,
{
    if 0 <= k < es.len() && !(es[k].handle == a || es[k].handle == b) {
        lemma_first_entity_in_range(es, a, b, k + 1);
    }
}

/// Resolving one event keeps the length of both sequences and changes
/// entities only in health (never up) and score (never down).
pub proof fn lemma_resolve_event_shape(
    es: Seq<Entity>,
    bs: Seq<Bullet>,
    c: Seq<bool>,
    ev: (BodyId, BodyId),
)
    requires
        c.len() == bs.len(),
    ensures
        ({
            let r = resolve_event(es, bs, c, ev);
            &&& r.0.len() == es.len()
            &&& r.1.len() == c.len()
            &&& forall|i: int|
                0 <= i < es.len() ==> same_but_tally(#[trigger] r.0[i], es[i]) && r.0[i].health
                    <= es[i].health && r.0[i].score >= es[i].score
            &&& forall|i: int| 0 <= i < c.len() && #[trigger] c[i] ==> r.1[i]
        }),
{
    lemma_first_bullet_in_range(bs, c, ev.0, ev.1, 0);
    lemma_first_entity_in_range(es, ev.0, ev.1, 0);
    match first_bullet_from(bs, c, ev.0, ev.1, 0) {
        None => {},
        Some(p) => {
            match first_entity_from(es, ev.0, ev.1, 0) {
                None => {},
                Some(t) => {
                    if es[t].handle != bs[p].shooter {
                        let es2 = es.update(t, damaged(es[t]));
                        lemma_first_entity_in_range(es2, bs[p].shooter, bs[p].shooter, 0);
                    }
                },
            }
        },
    }
}

/// A bullet never damages the entity that fired it: whenever resolving an
/// event lowers an entity's health, that entity is one of the two colliding
/// bodies and the other is a bullet, not consumed before, fired by another
/// entity, and consumed by this very event.
pub proof fn lemma_no_self_damage(es: Seq<Entity>, bs: Seq<Bullet>, c: Seq<bool>, ev: (BodyId, BodyId))
    requires
        c.len() == bs.len(),
    ensures
        forall|t: int|
            0 <= t < es.len() && (#[trigger] resolve_event(es, bs, c, ev).0[t]).health < es[t].health
                ==> (es[t].handle == ev.0 || es[t].handle == ev.1) && exists|p: int|
                0 <= p < bs.len() && !c[p] && resolve_event(es, bs, c, ev).1[p] && (bs[p].handle
                    == ev.0 || bs[p].handle == ev.1) && bs[p].shooter != es[t].handle,
{
    lemma_first_bullet_in_range(bs, c, ev.0, ev.1, 0);
    lemma_first_entity_in_range(es, ev.0, ev.1, 0);
    lemma_resolve_event_shape(es, bs, c, ev);
    assert forall|t: int|
        0 <= t < es.len() && (#[trigger] resolve_event(es, bs, c, ev).0[t]).health
            < es[t].health implies (es[t].handle == ev.0 || es[t].handle == ev.1) && exists|p: int|
        0 <= p < bs.len() && !c[p] && resolve_event(es, bs, c, ev).1[p] && (bs[p].handle == ev.0
            || bs[p].handle == ev.1) && bs[p].shooter != es[t].handle by {
        match first_bullet_from(bs, c, ev.0, ev.1, 0) {
            None => {},
            Some(p) => {
                match first_entity_from(es, ev.0, ev.1, 0) {
                    None => {},
                    Some(u) => {
                        if es[u].handle != bs[p].shooter {
                            let es2 = es.update(u, damaged(es[u]));
                            lemma_first_entity_in_range(es2, bs[p].shooter, bs[p].shooter, 0);
                            if t != u {
                                assert(resolve_event(es, bs, c, ev).0[t].health == es[t].health);
                            }
                            assert(resolve_event(es, bs, c, ev).1[p]);
                        }
                    },
                }
            },
        }
    }
}

/// Whatever the events and their order, a bullet never damages the entity
/// that fired it: when resolving a tick's events leaves an entity with less
/// health, one of the events paired that entity with a bullet that was not
/// consumed before, was fired by another entity, and has been consumed.
pub proof fn lemma_no_self_damage_any_order(
    es: Seq<Entity>,
    bs: Seq<Bullet>,
    c: Seq<bool>,
    evs: Seq<(BodyId, BodyId)>,
)
    requires
        c.len() == bs.len(),
    ensures
        forall|t: int|
            0 <= t < es.len() && (#[trigger] resolve_events(es, bs, c, evs).0[t]).health
                < es[t].health ==> exists|p: int, j: int|
                0 <= p < bs.len() && 0 <= j < evs.len() && !c[p] && resolve_events(
                    es,
                    bs,
                    c,
                    evs,
                ).1[p] && bs[p].shooter != es[t].handle && (bs[p].handle == evs[j].0
                    || bs[p].handle == evs[j].1) && (es[t].handle == evs[j].0 || es[t].handle
                    == evs[j].1),
    decreases evs.len(),
{
    lemma_resolve_events_shape(es, bs, c, evs);
    if evs.len() > 0 {
        let prefix = evs.drop_last();
        let r = resolve_events(es, bs, c, prefix);
        let r2 = resolve_events(es, bs, c, evs);
        lemma_resolve_events_shape(es, bs, c, prefix);
        lemma_no_self_damage_any_order(es, bs, c, prefix);
        lemma_no_self_damage(r.0, bs, r.1, evs.last());
        lemma_resolve_event_shape(r.0, bs, r.1, evs.last());
        assert forall|t: int|
            0 <= t < es.len() && (#[trigger] resolve_events(es, bs, c, evs).0[t]).health
                < es[t].health implies exists|p: int, j: int|
            0 <= p < bs.len() && 0 <= j < evs.len() && !c[p] && resolve_events(es, bs, c, evs).1[p]
                && bs[p].shooter != es[t].handle && (bs[p].handle == evs[j].0 || bs[p].handle
                == evs[j].1) && (es[t].handle == evs[j].0 || es[t].handle == evs[j].1) by {
            assert(same_but_tally(r.0[t], es[t]));
            if r.0[t].health < es[t].health {
                let (p, j) = choose|p: int, j: int|
                    0 <= p < bs.len() && 0 <= j < prefix.len() && !c[p] && r.1[p] && bs[p].shooter
                        != es[t].handle && (bs[p].handle == prefix[j].0 || bs[p].handle
                        == prefix[j].1) && (es[t].handle == prefix[j].0 || es[t].handle
                        == prefix[j].1);
                assert(r2.1[p]);
                assert(prefix[j] == evs[j]);
            } else {
                assert(r2.0[t].health < r.0[t].health);
                let p = choose|p: int|
                    0 <= p < bs.len() && !r.1[p] && r2.1[p] && (bs[p].handle == evs.last().0
                        || bs[p].handle == evs.last().1) && bs[p].shooter != r.0[t].handle;
                assert(!c[p]);
                let j = evs.len() - 1;
                assert(evs[j] == evs.last());
            }
        }
    }
}

/// Health never rises while a tick's events are resolved, and scores never fall.
pub proof fn lemma_resolve_events_shape(
    es: Seq<Entity>,
    bs: Seq<Bullet>,
    c: Seq<bool>,
    evs: Seq<(BodyId, BodyId)>,
)
    requires
        c.len() == bs.len(),
    ensures
        ({
            let r = resolve_events(es, bs, c, evs);
            &&& r.0.len() == es.len()
            &&& r.1.len() == c.len()
            &&& forall|i: int|
                0 <= i < es.len() ==> same_but_tally(#[trigger] r.0[i], es[i]) && r.0[i].health
                    <= es[i].health && r.0[i].score >= es[i].score
            &&& forall|i: int| 0 <= i < c.len() && #[trigger] c[i] ==> r.1[i]
        }),
    decreases evs.len(),
{
    if evs.len() > 0 {
        lemma_resolve_events_shape(es, bs, c, evs.drop_last());
        let r = resolve_events(es, bs, c, evs.drop_last());
        lemma_resolve_event_shape(r.0, bs, r.1, evs.last());
        let c2 = resolve_event(r.0, bs, r.1, evs.last()).1;
        assert forall|i: int| 0 <= i < c.len() && #[trigger] c[i] implies c2[i] by {
            assert(r.1[i]);
        }
        let r2 = resolve_event(r.0, bs, r.1, evs.last()).0;
        assert forall|i: int| 0 <= i < es.len() implies same_but_tally(#[trigger] r2[i], es[i]) && r2[i].health
            <= es[i].health && r2[i].score >= es[i].score by {
            assert(same_but_tally(r.0[i], es[i]));
            assert(same_but_tally(r2[i], r.0[i]));
        }
    }
}

impl GameLogic {
    /// `wf` except that entities may have lost all their health.
    pub open spec fn wf_loose(&self) -> bool {
        let es = self.entities@;
        let bs = self.bullets@;
        let bd = self.bindings@;
        &&& self.next_id >= 1
        &&& forall|i: int| 0 <= i < es.len() ==> (#[trigger] es[i]).wf() && 1 <= es[i].id < self.next_id
        &&& ids_unique(es)
        &&& entity_handles_unique(es)
        &&& bullet_handles_unique(bs)
        &&& forall|i: int, j: int|
            0 <= i < es.len() && 0 <= j < bs.len() ==> es[i].handle != bs[j].handle
        &&& tokens_unique(bd)
        &&& bound_ids_unique(bd)
        &&& forall|k: int| 0 <= k < bd.len() ==> has_id(es, #[trigger] bd[k].1)
    }

    /// Removes the bindings whose entity no longer exists.
    fn drop_stale_bindings(&mut self)
        requires
            tokens_unique(old(self).bindings@),
            bound_ids_unique(old(self).bindings@),
        ensures
            final(self).bindings@ == kept(
                old(self).bindings@,
                stale_flags(old(self).bindings@, old(self).entities@),
            ),
            tokens_unique(final(self).bindings@),
            bound_ids_unique(final(self).bindings@),
            forall|k: int|
                0 <= k < final(self).bindings@.len() ==> has_id(
                    final(self).entities@,
                    #[trigger] final(self).bindings@[k].1,
                ),
            final(self).entities == old(self).entities,
            final(self).bullets == old(self).bullets,
            final(self).obstacles == old(self).obstacles,
            final(self).next_id == old(self).next_id,
    {
        let ghost bd = self.bindings@;
        let mut flags: Vec<bool> = Vec::new();
        let mut k: usize = 0;
        while k < self.bindings.len()
            invariant
                k <= self.bindings@.len(),
                self.bindings@ == bd,
                flags@.len() == k,
                forall|j: int| 0 <= j < k ==> flags@[j] == !has_id(self.entities@, bd[j].1),
            decreases self.bindings@.len() - k,
        {
            let found = self.find_entity(self.bindings[k].1);
            flags.push(found.is_none());
            k += 1;
        }
        proof {
            assert(flags@ =~= stale_flags(bd, self.entities@));
        }
        let _ = remove_marked(&mut self.bindings, &flags);
        proof {
            let r = self.bindings@;
            let ktok = |b: (u64, u32)| b.0;
            let kid = |b: (u64, u32)| b.1;
            lemma_kept_unique(bd, flags@, ktok);
            lemma_kept_unique(bd, flags@, kid);
            assert(tokens_unique(r)) by {
                assert forall|i: int, j: int|
                    0 <= i < r.len() && 0 <= j < r.len() && i != j implies r[i].0 != r[j].0 by {
                    assert(ktok(r[i]) != ktok(r[j]));
                }
            }
            assert(bound_ids_unique(r)) by {
                assert forall|i: int, j: int|
                    0 <= i < r.len() && 0 <= j < r.len() && i != j implies r[i].1 != r[j].1 by {
                    assert(kid(r[i]) != kid(r[j]));
                }
            }
            assert forall|k: int| 0 <= k < r.len() implies has_id(self.entities@, #[trigger] r[k].1) by {
                assert(r.contains(r[k]));
                lemma_kept_contains(bd, flags@, r[k]);
            }
        }
    }

    /// Removes, by identity, every entity whose health has dropped to zero or
    /// below, with its connection binding; hands the removed entities back.
    fn sweep_dead(&mut self) -> (removed: Vec<Entity>)
        requires
            old(self).wf_loose(),
        ensures
            final(self).wf(),
            final(self).entities@ == kept(old(self).entities@, dead_flags(old(self).entities@)),
            removed@ == dropped(old(self).entities@, dead_flags(old(self).entities@)),
            final(self).bindings@ == kept(
                old(self).bindings@,
                stale_flags(old(self).bindings@, final(self).entities@),
            ),
            final(self).bullets == old(self).bullets,
            final(self).obstacles == old(self).obstacles,
            final(self).next_id == old(self).next_id,
    {
        let ghost es = self.entities@;
        let mut flags: Vec<bool> = Vec::new();
        let mut k: usize = 0;
        while k < self.entities.len()
            invariant
                k <= self.entities@.len(),
                self.entities@ == es,
                flags@.len() == k,
                forall|j: int| 0 <= j < k ==> flags@[j] == (es[j].health <= 0),
            decreases self.entities@.len() - k,
        {
            flags.push(self.entities[k].health <= 0);
            k += 1;
        }
        proof {
            assert(flags@ =~= dead_flags(es));
        }
        let removed = remove_marked(&mut self.entities, &flags);
        let ghost mid = *self;
        proof {
            let d = flags@;
            let r = self.entities@;
            let next_id = self.next_id;
            let kid = |e: Entity| e.id;
            let kh = |e: Entity| e.handle;
            assert(unique_by(es, kid));
            assert(unique_by(es, kh));
            lemma_kept_unique(es, d, kid);
            lemma_kept_unique(es, d, kh);
            assert(ids_unique(r)) by {
                assert forall|i: int, j: int|
                    0 <= i < r.len() && 0 <= j < r.len() && i != j implies r[i].id != r[j].id by {
                    assert(kid(r[i]) != kid(r[j]));
                }
            }
            assert(entity_handles_unique(r)) by {
                assert forall|i: int, j: int|
                    0 <= i < r.len() && 0 <= j < r.len() && i != j implies r[i].handle
                    != r[j].handle by {
                    assert(kh(r[i]) != kh(r[j]));
                }
            }
            assert forall|i: int| 0 <= i < r.len() implies live(#[trigger] r[i], next_id)
                && forall|j: int| 0 <= j < self.bullets@.len() ==> r[i].handle
                != self.bullets@[j].handle by {
                assert(r.contains(r[i]));
                lemma_kept_contains(es, d, r[i]);
            }
        }
        self.drop_stale_bindings();
        proof {
            let r = self.entities@;
            assert forall|i: int, j: int|
                0 <= i < r.len() && 0 <= j < self.bullets@.len() implies r[i].handle
                != self.bullets@[j].handle by {
                assert(live(r[i], self.next_id));
            }
        }
        removed
    }

    /// Resolves the collision-start events of one tick (each a pair of
    /// bodies) into damage and score, then removes the consumed bullets and
    /// the dead entities. Hands back what was removed, so that its bodies can
    /// be freed.
    pub fn handle_collisions(&mut self, events: &Vec<(BodyId, BodyId)>) -> (r: (
        Vec<Bullet>,
        Vec<Entity>,
    ))
        requires
            old(self).wf(),
        ensures
            final(self).wf(),
            ({
                let res = resolve_events(
                    old(self).entities@,
                    old(self).bullets@,
                    no_flags(old(self).bullets@.len()),
                    events@,
                );
                &&& final(self).bullets@ == kept(old(self).bullets@, res.1)
                &&& r.0@ == dropped(old(self).bullets@, res.1)
                &&& final(self).entities@ == kept(res.0, dead_flags(res.0))
                &&& r.1@ == dropped(res.0, dead_flags(res.0))
                &&& final(self).bindings@ == kept(
                    old(self).bindings@,
                    stale_flags(old(self).bindings@, final(self).entities@),
                )
            }),
            final(self).obstacles == old(self).obstacles,
            final(self).next_id == old(self).next_id,
    {
        let ghost es0 = self.entities@;
        let ghost bs0 = self.bullets@;
        let mut consumed: Vec<bool> = Vec::new();
        let mut j: usize = 0;
        while j < self.bullets.len()
            invariant
                j <= self.bullets@.len(),
                consumed@.len() == j,
                forall|i: int| 0 <= i < j ==> consumed@[i] == false,
            decreases self.bullets@.len() - j,
        {
            consumed.push(false);
            j += 1;
        }
        proof {
            assert(consumed@ =~= no_flags(bs0.len()));
            assert(events@.subrange(0, 0) =~= Seq::<(BodyId, BodyId)>::empty());
        }
        let mut k: usize = 0;
        while k < events.len()
            invariant
                k <= events@.len(),
                self.bullets@ == bs0,
                consumed@.len() == bs0.len(),
                self.entities@.len() == es0.len(),
                (self.entities@, consumed@) == resolve_events(
                    es0,
                    bs0,
                    no_flags(bs0.len()),
                    events@.subrange(0, k as int),
                ),
                self.obstacles == old(self).obstacles,
                self.bindings == old(self).bindings,
                self.next_id == old(self).next_id,
            decreases events@.len() - k,
        {
            let (a, b) = events[k];
            let ghost before = self.entities@;
            let ghost cbefore = consumed@;
            proof {
                let evs = events@.subrange(0, k + 1);
                assert(evs.drop_last() =~= events@.subrange(0, k as int));
                assert(evs.last() == (a, b));
                lemma_first_bullet_in_range(bs0, cbefore, a, b, 0);
                lemma_first_entity_in_range(before, a, b, 0);
            }
            match first_bullet(&self.bullets, &consumed, a, b) {
                None => {},
                Some(p) => {
                    consumed.set(p, true);
                    match first_entity(&self.entities, a, b) {
                        None => {},
                        Some(t) => {
                            let shooter = self.bullets[p].shooter;
                            if self.entities[t].handle != shooter {
                                let h = self.entities[t].health;
                                self.entities[t].health = if h > i32::MIN {
                                    h - 1
                                } else {
                                    h
                                };
                                proof {
                                    assert(self.entities@ =~= before.update(t as int, damaged(before[t as int])));
                                    lemma_first_entity_in_range(self.entities@, shooter, shooter, 0);
                                }
                                match first_entity(&self.entities, shooter, shooter) {
                                    None => {},
                                    Some(s) => {
                                        let ghost mid = self.entities@;
                                        let sc = self.entities[s].score;
                                        self.entities[s].score = if sc < i32::MAX {
                                            sc + 1
                                        } else {
                                            sc
                                        };
                                        proof {
                                            assert(self.entities@ =~= mid.update(s as int, credited(mid[s as int])));
                                        }
                                    },
                                }
                            }
                        },
                    }
                },
            }
            k += 1;
        }
        proof {
            assert(events@.subrange(0, events@.len() as int) =~= events@);
        }
        let ghost res = resolve_events(es0, bs0, no_flags(bs0.len()), events@);
        let removed_bullets = remove_marked(&mut self.bullets, &consumed);
        proof {
            lemma_resolve_events_shape(es0, bs0, no_flags(bs0.len()), events@);
            let es = self.entities@;
            let bs = self.bullets@;
            let kb = |x: Bullet| x.handle;
            assert(unique_by(bs0, kb));
            lemma_kept_unique(bs0, consumed@, kb);
            assert(bullet_handles_unique(bs)) by {
                assert forall|i: int, j: int|
                    0 <= i < bs.len() && 0 <= j < bs.len() && i != j implies bs[i].handle
                    != bs[j].handle by {
                    assert(kb(bs[i]) != kb(bs[j]));
                }
            }
            assert forall|i: int| 0 <= i < es.len() implies (#[trigger] es[i]).wf() && 1 <= es[i].id
                < self.next_id && es[i].id == es0[i].id && es[i].handle == es0[i].handle by {
                assert(same_but_tally(es[i], es0[i]));
                assert(live(es0[i], self.next_id));
            }
            assert forall|i: int, j: int|
                0 <= i < es.len() && 0 <= j < bs.len() implies es[i].handle != bs[j].handle by {
                assert(bs.contains(bs[j]));
                lemma_kept_contains(bs0, consumed@, bs[j]);
            }
            assert(ids_unique(es)) by {
                assert forall|i: int, j: int|
                    0 <= i < es.len() && 0 <= j < es.len() && i != j implies es[i].id != es[j].id by {
                    assert(es[i].id == es0[i].id && es[j].id == es0[j].id);
                }
            }
            assert(entity_handles_unique(es)) by {
                assert forall|i: int, j: int|
                    0 <= i < es.len() && 0 <= j < es.len() && i != j implies es[i].handle
                    != es[j].handle by {
                    assert(es[i].handle == es0[i].handle && es[j].handle == es0[j].handle);
                }
            }
            assert forall|k: int| 0 <= k < self.bindings@.len() implies has_id(
                es,
                #[trigger] self.bindings@[k].1,
            ) by {
                let i = choose|i: int| 0 <= i < es0.len() && es0[i].id == self.bindings@[k].1;
                assert(es[i].id == es0[i].id);
            }
        }
        let removed_entities = self.sweep_dead();
        (removed_bullets, removed_entities)
    }
}

/// A bullet to be created by the physics world: it starts `muzzle`
/// milli-units from the shooter's body along `angle` and flies along `angle`
/// at `BULLET_SPEED` (see `crate::model`).
#[derive(PartialEq, Eq, Structural, Clone, Copy, Debug)]
pub struct Shot {
    pub shooter: BodyId,
    /// Absolute direction, in micro-radians, in `[0, TAU_MICRO)`.
    pub angle: i64,
    pub muzzle: i64,
}

/// What the physics world is to do with one entity's body this tick.
#[derive(PartialEq, Eq, Structural, Clone, Copy, Debug)]
pub struct Actuation {
    pub handle: BodyId,
    pub drive: Drive,
    pub shot: Option<Shot>,
}

/// The pose of a body as the physics world reports it after a step.
#[derive(PartialEq, Eq, Structural, Clone, Copy, Debug)]
pub struct BodyState {
    pub handle: BodyId,
    pub position: Point,
    /// Rotation, in micro-radians (any value; it is brought into one turn).
    pub heading: i64,
}

/// Whether entity `e` fires a trigger-gated shot at time `now`.
pub open spec fn fires(e: Entity, now: u64) -> bool {
    e.gun_trigger > ACTUATOR_HALF && cooled_down(e, now)
}

/// Entity `e` after the actuation phase of a tick at `now`.
pub open spec fn actuated(e: Entity, now: u64) -> Entity {
    Entity {
        gun_orientation: traverse_angle(e.gun_traverse as int) as i64,
        last_shot: if fires(e, now) {
            now
        } else {
            e.last_shot
        },
        ..e
    }
}

/// The direction of a trigger-gated shot: the chassis heading plus the
/// turret angle, turned half a turn so that it leaves through the muzzle.
pub open spec fn muzzle_angle(heading: int, gun: int) -> int {
    angle_sum(heading, angle_sum(gun, PI_MICRO as int))
}

pub open spec fn actuation_of(e: Entity, now: u64) -> Actuation {
    let a = actuated(e, now);
    Actuation {
        handle: e.handle,
        drive: Drive {
            forward: forward_speed(e.motor_left as int, e.motor_right as int) as i64,
            rotation: rotation_speed(e.motor_left as int, e.motor_right as int) as i64,
        },
        shot: if fires(e, now) {
            Some(
                Shot {
                    shooter: e.handle,
                    angle: muzzle_angle(e.heading as int, a.gun_orientation as int) as i64,
                    muzzle: MUZZLE_OFFSET,
                },
            )
        } else {
            None
        },
    }
}

/// The first state in `states` from index `k` on that is about body `h`.
pub open spec fn state_from(states: Seq<BodyState>, h: BodyId, k: int) -> Option<BodyState>
    decreases states.len() - k,
{
    if k < 0 || k >= states.len() {
        None
    } else if states[k].handle == h {
        Some(states[k])
    } else {
        state_from(states, h, k + 1)
    }
}

/// Entity `e` after the physics world reported `states`.
pub open spec fn synced_entity(e: Entity, states: Seq<BodyState>) -> Entity {
    match state_from(states, e.handle, 0) {
        Some(st) => Entity {
            position: st.position,
            heading: (st.heading as int % TAU_MICRO as int) as i64,
            ..e
        },
        None => e,
    }
}

pub open spec fn synced_bullet(b: Bullet, states: Seq<BodyState>) -> Bullet {
    match state_from(states, b.handle, 0) {
        Some(st) => Bullet { position: st.position, ..b },
        None => b,
    }
}

/// A bullet that has lived its time at `now`.
pub open spec fn expired(b: Bullet, now: u64) -> bool {
    now as int >= b.created_at as int + BULLET_TTL_MS as int
}

pub open spec fn expired_flags(bs: Seq<Bullet>, now: u64) -> Seq<bool> {
    Seq::new(bs.len(), |i: int| expired(bs[i], now))
}

pub open spec fn outside_flags(bs: Seq<Bullet>) -> Seq<bool> {
    Seq::new(bs.len(), |i: int| !in_arena(bs[i].position))
}

fn find_state(states: &Vec<BodyState>, h: BodyId) -> (r: Option<BodyState>)
    ensures
        r == state_from(states@, h, 0),
{
    let mut i: usize = 0;
    while i < states.len()
        invariant
            i <= states@.len(),
            state_from(states@, h, 0) == state_from(states@, h, i as int),
        decreases states@.len() - i,
    {
        if states[i].handle == h {
            return Some(states[i]);
        }
        i += 1;
    }
    None
}

/// Whether `FIRE_COOLDOWN_MS` have passed at `now` since the last shot of `e`.
pub open spec fn cooled_down(e: Entity, now: u64) -> bool {
    now as int >= e.last_shot as int + FIRE_COOLDOWN_MS as int
}

/// The shot of `shooter` at `now`, once its cooldown has passed: in the
/// direction of its turret, from its muzzle.
pub fn shoot_ball(shooter: &Entity, now: u64) -> (r: Option<Shot>)
    requires
        shooter.wf(),
    ensures
        r == if cooled_down(*shooter, now) {
            Some(
                Shot {
                    shooter: shooter.handle,
                    angle: muzzle_angle(shooter.heading as int, shooter.gun_orientation as int) as i64,
                    muzzle: MUZZLE_OFFSET,
                },
            )
        } else {
            None::<Shot>
        },
{
    if now as u128 >= shooter.last_shot as u128 + FIRE_COOLDOWN_MS as u128 {
        let angle = add_angles(shooter.heading, add_angles(shooter.gun_orientation, PI_MICRO));
        Some(Shot { shooter: shooter.handle, angle, muzzle: MUZZLE_OFFSET })
    } else {
        None
    }
}

impl GameLogic {
    /// The entity with id `id`, to change in place. The caller keeps the
    /// world well formed: it changes no id, body or health through it, and
    /// keeps actuator values within `[0, ACTUATOR_ONE]`.
    pub fn get_entity_mut(&mut self, id: u32) -> (r: Option<&mut Entity>)
        ensures
            r is None ==> !has_id(old(self).entities@, id) && *final(self) == *old(self),
            r matches Some(e) ==> exists|i: int|
                0 <= i < old(self).entities@.len() && old(self).entities@[i].id == id && *e
                    == old(self).entities@[i] && final(self).entities@ == old(self).entities@.update(
                    i,
                    *final(e),
                ),
            final(self).bullets == old(self).bullets,
            final(self).obstacles == old(self).obstacles,
            final(self).bindings == old(self).bindings,
            final(self).next_id == old(self).next_id,
    {
        match self.find_entity(id) {
            None => None,
            Some(i) => Some(&mut self.entities[i]),
        }
    }

    /// The actuation phase of a tick at `now`: every entity's turret angle is
    /// recomputed from its traverse, its motors give a velocity command, and
    /// an entity whose trigger is pressed past half and whose cooldown has
    /// elapsed fires (and its `last_shot` becomes `now`).
    pub fn apply_actuators(&mut self, now: u64) -> (r: Vec<Actuation>)
        requires
            old(self).wf(),
        ensures
            final(self).wf(),
            final(self).entities@.len() == old(self).entities@.len(),
            r@.len() == old(self).entities@.len(),
            forall|i: int|
                0 <= i < r@.len() ==> #[trigger] final(self).entities@[i] == actuated(
                    old(self).entities@[i],
                    now,
                ) && r@[i] == actuation_of(old(self).entities@[i], now),
            final(self).bullets == old(self).bullets,
            final(self).obstacles == old(self).obstacles,
            final(self).bindings == old(self).bindings,
            final(self).next_id == old(self).next_id,
    {
        let ghost es0 = self.entities@;
        let mut out: Vec<Actuation> = Vec::new();
        let mut i: usize = 0;
        while i < self.entities.len()
            invariant
                i <= self.entities@.len() == es0.len(),
                old(self).wf(),
                es0 == old(self).entities@,
                out@.len() == i,
                forall|j: int|
                    0 <= j < i ==> #[trigger] self.entities@[j] == actuated(es0[j], now) && out@[j]
                        == actuation_of(es0[j], now),
                forall|j: int| i <= j < es0.len() ==> #[trigger] self.entities@[j] == es0[j],
                self.bullets == old(self).bullets,
                self.obstacles == old(self).obstacles,
                self.bindings == old(self).bindings,
                self.next_id == old(self).next_id,
            decreases es0.len() - i,
        {
            let ghost before = self.entities@;
            proof {
                assert(live(es0[i as int], self.next_id));
            }
            let drive = drive_of(self.entities[i].motor_left, self.entities[i].motor_right);
            let gun = gun_angle_of(self.entities[i].gun_traverse);
            let handle = self.entities[i].handle;
            self.entities[i].gun_orientation = gun;
            let shot = if self.entities[i].gun_trigger > ACTUATOR_HALF {
                shoot_ball(&self.entities[i], now)
            } else {
                None
            };
            if shot.is_some() {
                self.entities[i].last_shot = now;
            }
            out.push(Actuation { handle, drive, shot });
            proof {
                assert(self.entities@ == before.update(i as int, actuated(es0[i as int], now)));
            }
            i += 1;
        }
        proof {
            let es = self.entities@;
            assert forall|j: int| 0 <= j < es.len() implies live(#[trigger] es[j], self.next_id)
                && es[j].id == es0[j].id && es[j].handle == es0[j].handle by {
                assert(es[j] == actuated(es0[j], now));
                assert(live(es0[j], self.next_id));
            }
            assert forall|k: int| 0 <= k < self.bindings@.len() implies has_id(
                es,
                #[trigger] self.bindings@[k].1,
            ) by {
                let j = choose|j: int| 0 <= j < es0.len() && es0[j].id == self.bindings@[k].1;
                assert(es[j].id == es0[j].id);
            }
            assert(ids_unique(es)) by {
                assert forall|a: int, b: int|
                    0 <= a < es.len() && 0 <= b < es.len() && a != b implies es[a].id != es[b].id by {
                    assert(es[a].id == es0[a].id && es[b].id == es0[b].id);
                }
            }
            assert(entity_handles_unique(es)) by {
                assert forall|a: int, b: int|
                    0 <= a < es.len() && 0 <= b < es.len() && a != b implies es[a].handle
                    != es[b].handle by {
                    assert(es[a].handle == es0[a].handle && es[b].handle == es0[b].handle);
                }
            }
        }
        out
    }

    /// Takes over the poses that the physics world reports: each entity and
    /// bullet whose body appears in `states` gets the first such position
    /// (and, for an entity, heading).
    pub fn sync_bodies(&mut self, states: &Vec<BodyState>)
        requires
            old(self).wf(),
        ensures
            final(self).wf(),
            final(self).entities@.len() == old(self).entities@.len(),
            final(self).bullets@.len() == old(self).bullets@.len(),
            forall|i: int|
                0 <= i < old(self).entities@.len() ==> #[trigger] final(self).entities@[i]
                    == synced_entity(old(self).entities@[i], states@),
            forall|i: int|
                0 <= i < old(self).bullets@.len() ==> #[trigger] final(self).bullets@[i]
                    == synced_bullet(old(self).bullets@[i], states@),
            final(self).obstacles == old(self).obstacles,
            final(self).bindings == old(self).bindings,
            final(self).next_id == old(self).next_id,
    {
        let ghost es0 = self.entities@;
        let ghost bs0 = self.bullets@;
        let mut i: usize = 0;
        while i < self.entities.len()
            invariant
                i <= self.entities@.len() == es0.len(),
                es0 == old(self).entities@,
                forall|j: int|
                    0 <= j < i ==> #[trigger] self.entities@[j] == synced_entity(es0[j], states@),
                forall|j: int| i <= j < es0.len() ==> #[trigger] self.entities@[j] == es0[j],
                self.bullets == old(self).bullets,
                self.obstacles == old(self).obstacles,
                self.bindings == old(self).bindings,
                self.next_id == old(self).next_id,
            decreases es0.len() - i,
        {
            let ghost before = self.entities@;
            match find_state(states, self.entities[i].handle) {
                Some(st) => {
                    let heading = match st.heading.checked_rem_euclid(TAU_MICRO) {
                        Some(m) => m,
                        None => 0,
                    };
                    self.entities[i].position = st.position;
                    self.entities[i].heading = heading;
                },
                None => {},
            }
            proof {
                assert(self.entities@ == before.update(i as int, synced_entity(es0[i as int], states@)));
            }
            i += 1;
        }
        let mut j: usize = 0;
        while j < self.bullets.len()
            invariant
                j <= self.bullets@.len() == bs0.len(),
                bs0 == old(self).bullets@,
                forall|k: int|
                    0 <= k < j ==> #[trigger] self.bullets@[k] == synced_bullet(bs0[k], states@),
                forall|k: int| j <= k < bs0.len() ==> #[trigger] self.bullets@[k] == bs0[k],
                forall|k: int|
                    0 <= k < es0.len() ==> #[trigger] self.entities@[k] == synced_entity(es0[k], states@),
                self.entities@.len() == es0.len(),
                es0 == old(self).entities@,
                self.obstacles == old(self).obstacles,
                self.bindings == old(self).bindings,
                self.next_id == old(self).next_id,
            decreases bs0.len() - j,
        {
            let ghost before = self.bullets@;
            match find_state(states, self.bullets[j].handle) {
                Some(st) => {
                    self.bullets[j].position = st.position;
                },
                None => {},
            }
            proof {
                assert(self.bullets@ == before.update(j as int, synced_bullet(bs0[j as int], states@)));
            }
            j += 1;
        }
        proof {
            let es = self.entities@;
            let bs = self.bullets@;
            assert forall|k: int| 0 <= k < es.len() implies live(#[trigger] es[k], self.next_id)
                && es[k].id == es0[k].id && es[k].handle == es0[k].handle by {
                assert(live(es0[k], self.next_id));
            }
            assert forall|k: int| 0 <= k < bs.len() implies (#[trigger] bs[k]).handle == bs0[k].handle by {
                assert(bs[k] == synced_bullet(bs0[k], states@));
            }
            assert forall|k: int| 0 <= k < self.bindings@.len() implies has_id(
                es,
                #[trigger] self.bindings@[k].1,
            ) by {
                let j = choose|j: int| 0 <= j < es0.len() && es0[j].id == self.bindings@[k].1;
                assert(es[j].id == es0[j].id);
            }
            assert(ids_unique(es)) by {
                assert forall|a: int, b: int|
                    0 <= a < es.len() && 0 <= b < es.len() && a != b implies es[a].id != es[b].id by {
                    assert(es[a].id == es0[a].id && es[b].id == es0[b].id);
                }
            }
            assert(entity_handles_unique(es)) by {
                assert forall|a: int, b: int|
                    0 <= a < es.len() && 0 <= b < es.len() && a != b implies es[a].handle
                    != es[b].handle by {
                    assert(es[a].handle == es0[a].handle && es[b].handle == es0[b].handle);
                }
            }
            assert(bullet_handles_unique(bs)) by {
                assert forall|a: int, b: int|
                    0 <= a < bs.len() && 0 <= b < bs.len() && a != b implies bs[a].handle
                    != bs[b].handle by {
                    assert(bs[a].handle == bs0[a].handle && bs[b].handle == bs0[b].handle);
                }
            }
            assert forall|a: int, b: int|
                0 <= a < es.len() && 0 <= b < bs.len() implies es[a].handle != bs[b].handle by {
                assert(es[a].handle == es0[a].handle && bs[b].handle == bs0[b].handle);
            }
        }
    }

    /// Removes the bullets flagged in `flags` (highest index first) and hands them back.
    fn drop_bullets(&mut self, flags: &Vec<bool>) -> (removed: Vec<Bullet>)
        requires
            old(self).wf(),
            flags@.len() == old(self).bullets@.len(),
        ensures
            final(self).wf(),
            final(self).bullets@ == kept(old(self).bullets@, flags@),
            removed@ == dropped(old(self).bullets@, flags@),
            final(self).entities == old(self).entities,
            final(self).obstacles == old(self).obstacles,
            final(self).bindings == old(self).bindings,
            final(self).next_id == old(self).next_id,
    {
        let ghost bs0 = self.bullets@;
        let removed = remove_marked(&mut self.bullets, flags);
        proof {
            let bs = self.bullets@;
            let kb = |x: Bullet| x.handle;
            assert(unique_by(bs0, kb));
            lemma_kept_unique(bs0, flags@, kb);
            assert(bullet_handles_unique(bs)) by {
                assert forall|i: int, j: int|
                    0 <= i < bs.len() && 0 <= j < bs.len() && i != j implies bs[i].handle
                    != bs[j].handle by {
                    assert(kb(bs[i]) != kb(bs[j]));
                }
            }
            assert forall|i: int, j: int|
                0 <= i < self.entities@.len() && 0 <= j < bs.len() implies self.entities@[i].handle
                != bs[j].handle by {
                assert(bs.contains(bs[j]));
                lemma_kept_contains(bs0, flags@, bs[j]);
            }
        }
        removed
    }

    /// Removes every bullet outside `[0, ARENA_WIDTH] x [0, ARENA_HEIGHT]`.
    pub fn remove_out_of_bounds_bullets(&mut self) -> (removed: Vec<Bullet>)
        requires
            old(self).wf(),
        ensures
            final(self).wf(),
            final(self).bullets@ == kept(old(self).bullets@, outside_flags(old(self).bullets@)),
            removed@ == dropped(old(self).bullets@, outside_flags(old(self).bullets@)),
            final(self).entities == old(self).entities,
            final(self).obstacles == old(self).obstacles,
            final(self).bindings == old(self).bindings,
            final(self).next_id == old(self).next_id,
    {
        let mut flags: Vec<bool> = Vec::new();
        let mut k: usize = 0;
        while k < self.bullets.len()
            invariant
                k <= self.bullets@.len(),
                flags@.len() == k,
                forall|j: int| 0 <= j < k ==> flags@[j] == !in_arena(self.bullets@[j].position),
            decreases self.bullets@.len() - k,
        {
            let p = self.bullets[k].position;
            flags.push(!(0 <= p.x && p.x <= ARENA_WIDTH && 0 <= p.y && p.y <= ARENA_HEIGHT));
            k += 1;
        }
        proof {
            assert(flags@ =~= outside_flags(self.bullets@));
        }
        self.drop_bullets(&flags)
    }

    /// Removes every bullet that has lived `BULLET_TTL_MS` or more at `now`.
    pub fn remove_expired_bullets(&mut self, now: u64) -> (removed: Vec<Bullet>)
        requires
            old(self).wf(),
        ensures
            final(self).wf(),
            final(self).bullets@ == kept(old(self).bullets@, expired_flags(old(self).bullets@, now)),
            removed@ == dropped(old(self).bullets@, expired_flags(old(self).bullets@, now)),
            final(self).entities == old(self).entities,
            final(self).obstacles == old(self).obstacles,
            final(self).bindings == old(self).bindings,
            final(self).next_id == old(self).next_id,
    {
        let mut flags: Vec<bool> = Vec::new();
        let mut k: usize = 0;
        while k < self.bullets.len()
            invariant
                k <= self.bullets@.len(),
                flags@.len() == k,
                forall|j: int| 0 <= j < k ==> flags@[j] == expired(self.bullets@[j], now),
            decreases self.bullets@.len() - k,
        {
            flags.push(now as u128 >= self.bullets[k].created_at as u128 + BULLET_TTL_MS as u128);
            k += 1;
        }
        proof {
            assert(flags@ =~= expired_flags(self.bullets@, now));
        }
        self.drop_bullets(&flags)
    }
}

pub open spec fn synced_entities(es: Seq<Entity>, states: Seq<BodyState>) -> Seq<Entity> {
    Seq::new(es.len(), |i: int| synced_entity(es[i], states))
}

pub open spec fn synced_bullets(bs: Seq<Bullet>, states: Seq<BodyState>) -> Seq<Bullet> {
    Seq::new(bs.len(), |i: int| synced_bullet(bs[i], states))
}

/// What a tick removed; the caller frees the bodies.
pub struct TickReport {
    pub bullets: Vec<Bullet>,
    pub entities: Vec<Entity>,
}

/// Squared distance between two points.
pub open spec fn dist2(p: Point, q: Point) -> int {
    (p.x - q.x) * (p.x - q.x) + (p.y - q.y) * (p.y - q.y)
}

/// Whether the autonomous driver of `e` fires at `now`.
pub open spec fn ai_fires(e: Entity, now: u64) -> bool {
    now as int >= e.last_shot as int + AI_FIRE_INTERVAL_MS as int
}

/// What the physics world is to do for one entity on behalf of the autonomous driver.
#[derive(PartialEq, Eq, Structural, Clone, Copy, Debug)]
pub struct AiOrder {
    pub handle: BodyId,
    /// Step the body towards this point.
    pub waypoint: Option<Point>,
    pub shot: Option<Shot>,
}

/// `e` after the autonomous driver ran at `now`, given the entity before (`e0`).
pub open spec fn ai_step_ok(e0: Entity, e: Entity, now: u64) -> bool {
    if !e0.is_ai {
        e == e0
    } else {
        &&& e == Entity {
            target: e.target,
            gun_orientation: e.gun_orientation,
            retarget_at: e.retarget_at,
            last_shot: e.last_shot,
            ..e0
        }
        &&& e.last_shot == if ai_fires(e0, now) {
            now
        } else {
            e0.last_shot
        }
        &&& now >= e0.retarget_at ==> {
            &&& spawnable(e.target)
            &&& 0 <= e.gun_orientation < TAU_MICRO
            &&& e.retarget_at as int >= if now as int + AI_RETARGET_MIN_MS as int > u64::MAX as int {
                u64::MAX as int
            } else {
                now as int + AI_RETARGET_MIN_MS as int
            }
            &&& e.retarget_at as int <= now as int + AI_RETARGET_MAX_MS as int
        }
        &&& now < e0.retarget_at ==> e.target == e0.target && e.gun_orientation
            == e0.gun_orientation && e.retarget_at == e0.retarget_at
    }
}

pub open spec fn ai_order_ok(e0: Entity, e: Entity, o: AiOrder, now: u64) -> bool {
    &&& o.handle == e0.handle
    &&& o.waypoint == if e0.is_ai && dist2(e.position, e.target) > AI_ARRIVAL_DISTANCE
        * AI_ARRIVAL_DISTANCE {
        Some(e.target)
    } else {
        None
    }
    &&& (o.shot is Some <==> e0.is_ai && ai_fires(e0, now))
    &&& o.shot matches Some(sh) ==> sh.shooter == e0.handle && sh.muzzle == 0 && 0 <= sh.angle
        < TAU_MICRO
}

fn far_from(p: Point, q: Point) -> (r: bool)
    ensures
        r == (dist2(p, q) > AI_ARRIVAL_DISTANCE * AI_ARRIVAL_DISTANCE),
{
    let dx = p.x as i128 - q.x as i128;
    let dy = p.y as i128 - q.y as i128;
    let a = AI_ARRIVAL_DISTANCE as i128;
    if dx > a || dx < -a || dy > a || dy < -a {
        proof {
            let ddx = p.x - q.x;
            let ddy = p.y - q.y;
            assert(ddx * ddx + ddy * ddy > AI_ARRIVAL_DISTANCE * AI_ARRIVAL_DISTANCE) by (nonlinear_arith)
                requires
                    ddx > 1000 || ddx < -1000 || ddy > 1000 || ddy < -1000,
            ;
        }
        true
    } else {
        proof {
            assert(0 <= dx * dx <= 1_000_000) by (nonlinear_arith)
                requires
                    -1000 <= dx <= 1000,
            ;
            assert(0 <= dy * dy <= 1_000_000) by (nonlinear_arith)
                requires
                    -1000 <= dy <= 1000,
            ;
        }
        dx * dx + dy * dy > a * a
    }
}

impl GameLogic {
    /// Changing only fields that the world invariant does not constrain
    /// (beyond the entity's own well-formedness) keeps it.
    proof fn lemma_same_keys_wf(&self, es0: Seq<Entity>)
        requires
            self.next_id >= 1,
            self.entities@.len() == es0.len(),
            forall|k: int|
                0 <= k < es0.len() ==> #[trigger] self.entities@[k].id == es0[k].id
                    && self.entities@[k].handle == es0[k].handle && self.entities@[k].wf()
                    && self.entities@[k].health == es0[k].health,
            ({
                let es = es0;
                &&& forall|k: int| 0 <= k < es.len() ==> live(#[trigger] es[k], self.next_id)
                &&& ids_unique(es)
                &&& entity_handles_unique(es)
                &&& forall|a: int, b: int|
                    0 <= a < es.len() && 0 <= b < self.bullets@.len() ==> es[a].handle
                        != self.bullets@[b].handle
                &&& forall|k: int|
                    0 <= k < self.bindings@.len() ==> has_id(es, #[trigger] self.bindings@[k].1)
            }),
            bullet_handles_unique(self.bullets@),
            tokens_unique(self.bindings@),
            bound_ids_unique(self.bindings@),
        ensures
            self.wf(),
    {
        let es = self.entities@;
        assert forall|k: int| 0 <= k < es.len() implies live(#[trigger] es[k], self.next_id) by {
            assert(live(es0[k], self.next_id));
            assert(es[k].id == es0[k].id);
        }
        assert forall|k: int| 0 <= k < self.bindings@.len() implies has_id(
            es,
            #[trigger] self.bindings@[k].1,
        ) by {
            let j = choose|j: int| 0 <= j < es0.len() && es0[j].id == self.bindings@[k].1;
            assert(es[j].id == es0[j].id);
        }
        assert(ids_unique(es)) by {
            assert forall|a: int, b: int|
                0 <= a < es.len() && 0 <= b < es.len() && a != b implies es[a].id != es[b].id by {
                assert(es[a].id == es0[a].id && es[b].id == es0[b].id);
            }
        }
        assert(entity_handles_unique(es)) by {
            assert forall|a: int, b: int|
                0 <= a < es.len() && 0 <= b < es.len() && a != b implies es[a].handle
                != es[b].handle by {
                assert(es[a].handle == es0[a].handle && es[b].handle == es0[b].handle);
            }
        }
        assert forall|a: int, b: int|
            0 <= a < es.len() && 0 <= b < self.bullets@.len() implies es[a].handle
            != self.bullets@[b].handle by {
            assert(es[a].handle == es0[a].handle);
        }
    }

    /// The autonomous driver at `now`, for every entity flagged `is_ai`: when
    /// its retarget time has come it picks a random waypoint, a random turret
    /// angle and a random delay (between `AI_RETARGET_MIN_MS` and
    /// `AI_RETARGET_MAX_MS`) until the next change; it heads for its waypoint
    /// while farther than `AI_ARRIVAL_DISTANCE`; and every
    /// `AI_FIRE_INTERVAL_MS` it fires in a random direction from where it stands.
    pub fn update_ai(&mut self, now: u64) -> (r: Vec<AiOrder>)
        requires
            old(self).wf(),
        ensures
            final(self).wf(),
            final(self).entities@.len() == old(self).entities@.len(),
            r@.len() == old(self).entities@.len(),
            forall|i: int|
                0 <= i < r@.len() ==> ai_step_ok(
                    old(self).entities@[i],
                    #[trigger] final(self).entities@[i],
                    now,
                ) && ai_order_ok(old(self).entities@[i], final(self).entities@[i], r@[i], now),
            final(self).bullets == old(self).bullets,
            final(self).obstacles == old(self).obstacles,
            final(self).bindings == old(self).bindings,
            final(self).next_id == old(self).next_id,
    {
        let ghost es0 = self.entities@;
        let mut out: Vec<AiOrder> = Vec::new();
        let mut i: usize = 0;
        while i < self.entities.len()
            invariant
                i <= self.entities@.len() == es0.len(),
                old(self).wf(),
                es0 == old(self).entities@,
                out@.len() == i,
                forall|j: int|
                    0 <= j < i ==> ai_step_ok(es0[j], #[trigger] self.entities@[j], now)
                        && ai_order_ok(es0[j], self.entities@[j], out@[j], now)
                        && self.entities@[j].wf(),
                forall|j: int| i <= j < es0.len() ==> #[trigger] self.entities@[j] == es0[j],
                self.bullets == old(self).bullets,
                self.obstacles == old(self).obstacles,
                self.bindings == old(self).bindings,
                self.next_id == old(self).next_id,
            decreases es0.len() - i,
        {
            let ghost before = self.entities@;
            proof {
                assert(live(es0[i as int], self.next_id));
            }
            let handle = self.entities[i].handle;
            if !self.entities[i].is_ai {
                out.push(AiOrder { handle, waypoint: None, shot: None });
            } else {
                if now >= self.entities[i].retarget_at {
                    let target = random_spawn_point();
                    let gun = random_in(0, TAU_MICRO);
                    let delay = random_in(AI_RETARGET_MIN_MS as i64, AI_RETARGET_MAX_MS as i64);
                    let at = now as u128 + delay as u128;
                    let at = if at > u64::MAX as u128 {
                        u64::MAX
                    } else {
                        at as u64
                    };
                    self.entities[i].target = target;
                    self.entities[i].gun_orientation = gun;
                    self.entities[i].retarget_at = at;
                }
                let waypoint = if far_from(self.entities[i].position, self.entities[i].target) {
                    Some(self.entities[i].target)
                } else {
                    None
                };
                let fire = now as u128 >= self.entities[i].last_shot as u128
                    + AI_FIRE_INTERVAL_MS as u128;
                let shot = if fire {
                    let angle = random_in(0, TAU_MICRO);
                    self.entities[i].last_shot = now;
                    Some(Shot { shooter: handle, angle, muzzle: 0 })
                } else {
                    None
                };
                out.push(AiOrder { handle, waypoint, shot });
            }
            proof {
                assert(self.entities@ == before.update(i as int, self.entities@[i as int]));
                assert forall|j: int| i < j < es0.len() implies #[trigger] self.entities@[j] == es0[j] by {
                    assert(self.entities@[j] == before[j]);
                }
            }
            i += 1;
        }
        proof {
            self.lemma_same_keys_wf(es0);
        }
        out
    }

    /// Finishes a tick at `now` once the physics world has stepped: takes over
    /// the reported poses, resolves the collision-start events, then removes
    /// the bullets that left the arena and those that expired. Afterwards every
    /// remaining bullet is inside the arena and younger than its time-to-live,
    /// and every remaining entity has positive health.
    pub fn step(&mut self, events: &Vec<(BodyId, BodyId)>, states: &Vec<BodyState>, now: u64) -> (r:
        TickReport)
        requires
            old(self).wf(),
        ensures
            final(self).wf(),
            ({
                let e1 = synced_entities(old(self).entities@, states@);
                let b1 = synced_bullets(old(self).bullets@, states@);
                let res = resolve_events(e1, b1, no_flags(b1.len()), events@);
                let b2 = kept(b1, res.1);
                let b3 = kept(b2, outside_flags(b2));
                &&& final(self).entities@ == kept(res.0, dead_flags(res.0))
                &&& final(self).bullets@ == kept(b3, expired_flags(b3, now))
                &&& r.entities@ == dropped(res.0, dead_flags(res.0))
                &&& r.bullets@ == dropped(b1, res.1) + dropped(b2, outside_flags(b2)) + dropped(
                    b3,
                    expired_flags(b3, now),
                )
            }),
            forall|k: int|
                0 <= k < final(self).bullets@.len() ==> in_arena(
                    (#[trigger] final(self).bullets@[k]).position,
                ) && !expired(final(self).bullets@[k], now),
            forall|k: int|
                0 <= k < final(self).entities@.len() ==> (#[trigger] final(self).entities@[k]).health
                    >= 1,
            bullet_handles_unique(r.bullets@),
            forall|i: int, j: int|
                0 <= i < r.bullets@.len() && 0 <= j < final(self).bullets@.len()
                    ==> r.bullets@[i].handle != final(self).bullets@[j].handle,
            forall|k: int|
                #![trigger final(self).entities@[k]]
                0 <= k < final(self).entities@.len() ==> exists|i: int|
                    #![trigger old(self).entities@[i]]
                    0 <= i < old(self).entities@.len()
                        && old(self).entities@[i].id == final(self).entities@[k].id
                        && final(self).entities@[k].health <= old(self).entities@[i].health,
            final(self).obstacles == old(self).obstacles,
            final(self).next_id == old(self).next_id,
    {
        let ghost es_old = self.entities@;
        self.sync_bodies(states);
        let ghost e1 = self.entities@;
        let ghost b1 = self.bullets@;
        proof {
            assert(self.entities@ =~= synced_entities(old(self).entities@, states@));
            assert(self.bullets@ =~= synced_bullets(old(self).bullets@, states@));
        }
        let (mut gone, dead) = self.handle_collisions(events);
        let ghost b2 = self.bullets@;
        let mut outside = self.remove_out_of_bounds_bullets();
        let ghost b3 = self.bullets@;
        let mut old_ones = self.remove_expired_bullets(now);
        gone.append(&mut outside);
        gone.append(&mut old_ones);
        proof {
            let fb = self.bullets@;
            lemma_kept_all(b2, outside_flags(b2), |b: Bullet| in_arena(b.position));
            lemma_kept_all(b3, expired_flags(b3, now), |b: Bullet| in_arena(b.position) && !expired(b, now));
            assert forall|k: int| 0 <= k < fb.len() implies in_arena((#[trigger] fb[k]).position)
                && !expired(fb[k], now) by {
                assert(fb[k] == kept(b3, expired_flags(b3, now))[k]);
            }
            assert forall|k: int| 0 <= k < self.entities@.len() implies (#[trigger] self.entities@[k]).health >= 1 by {
                assert(live(self.entities@[k], self.next_id));
            }
            let res = resolve_events(e1, b1, no_flags(b1.len()), events@);
            lemma_resolve_events_shape(e1, b1, no_flags(b1.len()), events@);
            lemma_three_passes_once(b1, res.1, outside_flags(b2), expired_flags(b3, now));
            let fe = self.entities@;
            assert forall|k: int| #![trigger fe[k]] 0 <= k < fe.len() implies exists|i: int|
                #![trigger es_old[i]]
                0 <= i < es_old.len() && es_old[i].id == fe[k].id && fe[k].health
                    <= es_old[i].health by {
                assert(fe.contains(fe[k]));
                lemma_kept_contains(res.0, dead_flags(res.0), fe[k]);
                let i = choose|i: int|
                    0 <= i < res.0.len() && !dead_flags(res.0)[i] && res.0[i] == fe[k];
                assert(same_but_tally(res.0[i], e1[i]));
                assert(e1[i] == synced_entity(es_old[i], states@));
            }
        }
        TickReport { bullets: gone, entities: dead }
    }

    /// Moves every entity to a new random spawn point; nothing else changes.
    fn reposition_entities(&mut self)
        requires
            old(self).wf(),
        ensures
            final(self).wf(),
            final(self).entities@.len() == old(self).entities@.len(),
            forall|i: int|
                0 <= i < old(self).entities@.len() ==> #[trigger] final(self).entities@[i]
                    == (Entity { position: final(self).entities@[i].position, ..old(self).entities@[i] })
                    && spawnable(final(self).entities@[i].position),
            final(self).bullets == old(self).bullets,
            final(self).obstacles == old(self).obstacles,
            final(self).bindings == old(self).bindings,
            final(self).next_id == old(self).next_id,
    {
        let ghost es0 = self.entities@;
        let mut i: usize = 0;
        while i < self.entities.len()
            invariant
                i <= self.entities@.len() == es0.len(),
                old(self).wf(),
                es0 == old(self).entities@,
                forall|j: int|
                    0 <= j < i ==> #[trigger] self.entities@[j] == (Entity {
                        position: self.entities@[j].position,
                        ..es0[j]
                    }) && spawnable(self.entities@[j].position),
                forall|j: int| i <= j < es0.len() ==> #[trigger] self.entities@[j] == es0[j],
                self.bullets == old(self).bullets,
                self.obstacles == old(self).obstacles,
                self.bindings == old(self).bindings,
                self.next_id == old(self).next_id,
            decreases es0.len() - i,
        {
            let ghost before = self.entities@;
            let p = random_spawn_point();
            self.entities[i].position = p;
            proof {
                assert(self.entities@ == before.update(i as int, self.entities@[i as int]));
            }
            i += 1;
        }
        proof {
            assert forall|k: int| 0 <= k < es0.len() implies #[trigger] self.entities@[k].id == es0[k].id
                && self.entities@[k].handle == es0[k].handle && self.entities@[k].wf()
                && self.entities@[k].health == es0[k].health by {
                assert(live(es0[k], self.next_id));
            }
            self.lemma_same_keys_wf(es0);
        }
    }

    /// Starts the match over: every score is 0, every bullet is gone (handed
    /// back so that its body can be freed) and every entity stands on a new
    /// random spawn point. Health, names, actuators and bindings are kept.
    pub fn reset_simulation(&mut self) -> (removed: Vec<Bullet>)
        requires
            old(self).wf(),
        ensures
            final(self).wf(),
            removed@ == old(self).bullets@,
            final(self).bullets@.len() == 0,
            final(self).entities@.len() == old(self).entities@.len(),
            forall|i: int|
                0 <= i < old(self).entities@.len() ==> #[trigger] final(self).entities@[i]
                    == (Entity {
                        score: 0,
                        position: final(self).entities@[i].position,
                        ..old(self).entities@[i]
                    }) && spawnable(final(self).entities@[i].position),
            final(self).obstacles == old(self).obstacles,
            final(self).bindings == old(self).bindings,
            final(self).next_id == old(self).next_id,
    {
        let ghost es0 = self.entities@;
        let mut i: usize = 0;
        while i < self.entities.len()
            invariant
                i <= self.entities@.len() == es0.len(),
                es0 == old(self).entities@,
                forall|j: int| 0 <= j < i ==> #[trigger] self.entities@[j] == (Entity { score: 0, ..es0[j] }),
                forall|j: int| i <= j < es0.len() ==> #[trigger] self.entities@[j] == es0[j],
                self.bullets == old(self).bullets,
                self.obstacles == old(self).obstacles,
                self.bindings == old(self).bindings,
                self.next_id == old(self).next_id,
            decreases es0.len() - i,
        {
            let ghost before = self.entities@;
            self.entities[i].score = 0;
            proof {
                assert(self.entities@ == before.update(i as int, self.entities@[i as int]));
            }
            i += 1;
        }
        let mut removed: Vec<Bullet> = Vec::new();
        core::mem::swap(&mut removed, &mut self.bullets);
        proof {
            assert forall|k: int| 0 <= k < es0.len() implies #[trigger] self.entities@[k].id == es0[k].id
                && self.entities@[k].handle == es0[k].handle && self.entities@[k].wf()
                && self.entities@[k].health == es0[k].health by {
                assert(live(es0[k], self.next_id));
            }
            self.lemma_same_keys_wf(es0);
        }
        let ghost mid = self.entities@;
        self.reposition_entities();
        proof {
            assert forall|k: int| 0 <= k < es0.len() implies #[trigger] self.entities@[k] == (Entity {
                score: 0,
                position: self.entities@[k].position,
                ..es0[k]
            }) && spawnable(self.entities@[k].position) by {
                assert(mid[k] == (Entity { score: 0, ..es0[k] }));
            }
        }
        removed
    }

    /// Records an obstacle that the physics world has placed.
    pub fn add_obstacle(&mut self, obstacle: Obstacle)
        requires
            old(self).wf(),
        ensures
            final(self).wf(),
            final(self).obstacles@ == old(self).obstacles@.push(obstacle),
            final(self).entities == old(self).entities,
            final(self).bullets == old(self).bullets,
            final(self).bindings == old(self).bindings,
            final(self).next_id == old(self).next_id,
    {
        self.obstacles.push(obstacle);
    }

    /// Regenerates the map: the old obstacles are removed (handed back so that
    /// their colliders can be freed), `OBSTACLE_COUNT` new random spawn points
    /// are chosen for new obstacles (for the physics world to place and then
    /// record with `add_obstacle`), and every entity is moved to a new random
    /// spawn point.
    pub fn generate_map(&mut self) -> (r: (Vec<Obstacle>, Vec<Point>))
        requires
            old(self).wf(),
        ensures
            final(self).wf(),
            r.0@ == old(self).obstacles@,
            final(self).obstacles@.len() == 0,
            r.1@.len() == OBSTACLE_COUNT,
            forall|k: int| 0 <= k < r.1@.len() ==> spawnable(#[trigger] r.1@[k]),
            final(self).entities@.len() == old(self).entities@.len(),
            forall|i: int|
                0 <= i < old(self).entities@.len() ==> #[trigger] final(self).entities@[i]
                    == (Entity { position: final(self).entities@[i].position, ..old(self).entities@[i] })
                    && spawnable(final(self).entities@[i].position),
            final(self).bullets == old(self).bullets,
            final(self).bindings == old(self).bindings,
            final(self).next_id == old(self).next_id,
    {
        let mut removed: Vec<Obstacle> = Vec::new();
        core::mem::swap(&mut removed, &mut self.obstacles);
        let mut placed: Vec<Point> = Vec::new();
        let mut k: usize = 0;
        while k < OBSTACLE_COUNT
            invariant
                k <= OBSTACLE_COUNT,
                placed@.len() == k,
                forall|j: int| 0 <= j < k ==> spawnable(#[trigger] placed@[j]),
            decreases OBSTACLE_COUNT - k,
        {
            placed.push(random_spawn_point());
            k += 1;
        }
        self.reposition_entities();
        (removed, placed)
    }
}

pub proof fn lemma_dropped_contains<T>(s: Seq<T>, drop: Seq<bool>, x: T)
    requires
        drop.len() == s.len(),
        dropped(s, drop).contains(x),
    ensures
        exists|i: int| 0 <= i < s.len() && drop[i] && s[i] == x,
    decreases s.len(),
{
    if s.len() > 0 {
        let rest = dropped(s.drop_first(), drop.drop_first());
        if drop[0] && x == s[0] {
            assert(drop[0] && s[0] == x);
        } else {
            if drop[0] {
                let k = choose|k: int| 0 <= k < dropped(s, drop).len() && dropped(s, drop)[k] == x;
                assert(k < rest.len());
                assert(rest[k] == x);
            }
            assert(rest.contains(x));
            lemma_dropped_contains(s.drop_first(), drop.drop_first(), x);
            let i = choose|i: int|
                0 <= i < s.len() - 1 && drop.drop_first()[i] && s.drop_first()[i] == x;
            assert(drop[i + 1] && s[i + 1] == x);
        }
    }
}

/// Removing the flagged elements of a sequence whose keys are unique (the
/// bodies of the bullets, say) removes each flagged element exactly once and
/// nothing else: what is kept and what is removed add up to the whole, no key is removed
/// twice, no key is both kept and removed, and every kept element was not
/// flagged (`lemma_dropped_contains` gives the converse for removed ones).
pub proof fn lemma_removed_exactly_once<T, K>(s: Seq<T>, drop: Seq<bool>, key: spec_fn(T) -> K)
    requires
        drop.len() == s.len(),
        unique_by(s, key),
    ensures
        kept(s, drop).len() + dropped(s, drop).len() == s.len(),
        unique_by(dropped(s, drop), key),
        forall|i: int, j: int|
            0 <= i < kept(s, drop).len() && 0 <= j < dropped(s, drop).len() ==> key(
                #[trigger] kept(s, drop)[i],
            ) != key(#[trigger] dropped(s, drop)[j]),
        forall|j: int|
            0 <= j < kept(s, drop).len() ==> exists|i: int|
                0 <= i < s.len() && !drop[i] && s[i] == #[trigger] kept(s, drop)[j],
    decreases s.len(),
{
    let k = kept(s, drop);
    let d = dropped(s, drop);
    if s.len() > 0 {
        let t = s.drop_first();
        let dt = drop.drop_first();
        assert(unique_by(t, key)) by {
            assert forall|i: int, j: int|
                0 <= i < t.len() && 0 <= j < t.len() && i != j implies key(t[i]) != key(t[j]) by {
                assert(t[i] == s[i + 1] && t[j] == s[j + 1]);
            }
        }
        lemma_removed_exactly_once(t, dt, key);
        if drop[0] {
            let rest = dropped(t, dt);
            assert(d == rest.push(s[0]));
            assert forall|a: int, b: int|
                0 <= a < d.len() && 0 <= b < d.len() && a != b implies key(d[a]) != key(d[b]) by {
                if a < rest.len() && b < rest.len() {
                    assert(d[a] == rest[a] && d[b] == rest[b]);
                } else {
                    let m = if a == rest.len() { b } else { a };
                    assert(d[m] == rest[m]);
                    assert(rest.contains(rest[m]));
                    lemma_dropped_contains(t, dt, rest[m]);
                    let q = choose|q: int| 0 <= q < t.len() && dt[q] && t[q] == rest[m];
                    assert(s[q + 1] == rest[m]);
                }
            }
        }
    }
    assert forall|j: int| 0 <= j < k.len() implies exists|i: int|
        0 <= i < s.len() && !drop[i] && s[i] == #[trigger] k[j] by {
        assert(k.contains(k[j]));
        lemma_kept_contains(s, drop, k[j]);
    }
    assert forall|a: int, b: int| 0 <= a < k.len() && 0 <= b < d.len() implies key(
        #[trigger] k[a],
    ) != key(#[trigger] d[b]) by {
        assert(k.contains(k[a]));
        lemma_kept_contains(s, drop, k[a]);
        assert(d.contains(d[b]));
        lemma_dropped_contains(s, drop, d[b]);
        let i = choose|i: int| 0 <= i < s.len() && !drop[i] && s[i] == k[a];
        let j = choose|j: int| 0 <= j < s.len() && drop[j] && s[j] == d[b];
        assert(i != j);
    }
}

proof fn lemma_first_bullet_is(bs: Seq<Bullet>, c: Seq<bool>, a: BodyId, b: BodyId, p: int, k: int)
    requires
        c.len() == bs.len(),
        0 <= k <= p < bs.len(),
        bullet_hit(bs, c, p, a, b),
        forall|i: int| 0 <= i < bs.len() && i != p ==> !bullet_hit(bs, c, i, a, b),
    ensures
        first_bullet_from(bs, c, a, b, k) == Some(p),
    decreases p - k,
{
    if k < p {
        lemma_first_bullet_is(bs, c, a, b, p, k + 1);
    }
}

proof fn lemma_first_entity_is(es: Seq<Entity>, a: BodyId, b: BodyId, t: int, k: int)
    requires
        0 <= k <= t < es.len(),
        es[t].handle == a || es[t].handle == b,
        forall|i: int| 0 <= i < es.len() && i != t ==> !(es[i].handle == a || es[i].handle == b),
    ensures
        first_entity_from(es, a, b, k) == Some(t),
    decreases t - k,
{
    if k < t {
        lemma_first_entity_is(es, a, b, t, k + 1);
    }
}

/// A bullet of entity `s` that has not been consumed yet and strikes another
/// entity `t` costs `t` exactly one health, earns `s` exactly one point, is
/// consumed, and changes no other entity — given that bodies are not shared,
/// as the world invariant ensures.
pub proof fn lemma_hit_scores(es: Seq<Entity>, bs: Seq<Bullet>, c: Seq<bool>, p: int, t: int, s: int)
    requires
        c.len() == bs.len(),
        entity_handles_unique(es),
        bullet_handles_unique(bs),
        forall|i: int, j: int|
            0 <= i < es.len() && 0 <= j < bs.len() ==> es[i].handle != bs[j].handle,
        0 <= p < bs.len(),
        !c[p],
        0 <= t < es.len(),
        0 <= s < es.len(),
        s != t,
        bs[p].shooter == es[s].handle,
    ensures
        ({
            let r = resolve_event(es, bs, c, (bs[p].handle, es[t].handle));
            &&& r.0 == es.update(t, damaged(es[t])).update(s, credited(es[s]))
            &&& r.1 == c.update(p, true)
        }),
{
    let a = bs[p].handle;
    let b = es[t].handle;
    assert forall|i: int| 0 <= i < bs.len() && i != p implies !bullet_hit(bs, c, i, a, b) by {
        assert(bs[i].handle != bs[p].handle);
        assert(es[t].handle != bs[i].handle);
    }
    lemma_first_bullet_is(bs, c, a, b, p, 0);
    assert forall|i: int| 0 <= i < es.len() && i != t implies !(es[i].handle == a
        || es[i].handle == b) by {
        assert(es[i].handle != es[t].handle);
        assert(es[i].handle != bs[p].handle);
    }
    lemma_first_entity_is(es, a, b, t, 0);
    assert(es[t].handle != es[s].handle);
    let es2 = es.update(t, damaged(es[t]));
    let h = bs[p].shooter;
    assert forall|i: int| 0 <= i < es2.len() && i != s implies !(es2[i].handle == h
        || es2[i].handle == h) by {
        assert(es2[i].handle == es[i].handle);
        assert(es[i].handle != es[s].handle);
    }
    lemma_first_entity_is(es2, h, h, s, 0);
}

/// Three successive removal passes over bullets with distinct bodies report
/// no body twice, and report none of the bodies that remain.
pub proof fn lemma_three_passes_once(
    b1: Seq<Bullet>,
    f1: Seq<bool>,
    f2: Seq<bool>,
    f3: Seq<bool>,
)
    requires
        bullet_handles_unique(b1),
        f1.len() == b1.len(),
        f2.len() == kept(b1, f1).len(),
        f3.len() == kept(kept(b1, f1), f2).len(),
    ensures
        ({
            let b2 = kept(b1, f1);
            let b3 = kept(b2, f2);
            let all = dropped(b1, f1) + dropped(b2, f2) + dropped(b3, f3);
            let rest = kept(b3, f3);
            &&& bullet_handles_unique(all)
            &&& forall|i: int, j: int|
                0 <= i < all.len() && 0 <= j < rest.len() ==> all[i].handle != rest[j].handle
        }),
{
    let key = |x: Bullet| x.handle;
    let b2 = kept(b1, f1);
    let b3 = kept(b2, f2);
    let d1 = dropped(b1, f1);
    let d2 = dropped(b2, f2);
    let d3 = dropped(b3, f3);
    let rest = kept(b3, f3);
    assert(unique_by(b1, key));
    lemma_removed_exactly_once(b1, f1, key);
    lemma_kept_unique(b1, f1, key);
    lemma_removed_exactly_once(b2, f2, key);
    lemma_kept_unique(b2, f2, key);
    lemma_removed_exactly_once(b3, f3, key);
    // every later bullet lies in b2, whose bodies are not among d1's
    assert forall|x: Bullet| #[trigger] b2.contains(x) implies forall|j: int|
        0 <= j < d1.len() ==> x.handle != d1[j].handle by {
        let i = choose|i: int| 0 <= i < b2.len() && b2[i] == x;
        assert forall|j: int| 0 <= j < d1.len() implies x.handle != d1[j].handle by {
            assert(key(b2[i]) != key(d1[j]));
        }
    }
    assert forall|x: Bullet| #[trigger] b3.contains(x) implies b2.contains(x) && forall|j: int|
        0 <= j < d2.len() ==> x.handle != d2[j].handle by {
        lemma_kept_contains(b2, f2, x);
        let i = choose|i: int| 0 <= i < b3.len() && b3[i] == x;
        assert forall|j: int| 0 <= j < d2.len() implies x.handle != d2[j].handle by {
            assert(key(b3[i]) != key(d2[j]));
        }
    }
    assert forall|x: Bullet| #[trigger] d2.contains(x) implies b2.contains(x) by {
        lemma_dropped_contains(b2, f2, x);
    }
    assert forall|x: Bullet| #[trigger] d3.contains(x) implies b3.contains(x) by {
        lemma_dropped_contains(b3, f3, x);
    }
    assert forall|x: Bullet| #[trigger] rest.contains(x) implies b3.contains(x) && forall|j: int|
        0 <= j < d3.len() ==> x.handle != d3[j].handle by {
        lemma_kept_contains(b3, f3, x);
        let i = choose|i: int| 0 <= i < rest.len() && rest[i] == x;
        assert forall|j: int| 0 <= j < d3.len() implies x.handle != d3[j].handle by {
            assert(key(rest[i]) != key(d3[j]));
        }
    }
    let all = d1 + d2 + d3;
    assert forall|i: int| 0 <= i < all.len() implies #[trigger] all[i] == if i < d1.len() {
        d1[i]
    } else if i < d1.len() + d2.len() {
        d2[i - d1.len()]
    } else {
        d3[i - d1.len() - d2.len()]
    } by {}
    assert forall|i: int, j: int|
        0 <= i < all.len() && 0 <= j < all.len() && i != j implies all[i].handle
        != all[j].handle by {
        let n1 = d1.len() as int;
        let n2 = d2.len() as int;
        if i < n1 && j < n1 {
            assert(key(d1[i]) != key(d1[j]));
        } else if i >= n1 + n2 && j >= n1 + n2 {
            assert(key(d3[i - n1 - n2]) != key(d3[j - n1 - n2]));
        } else if n1 <= i < n1 + n2 && n1 <= j < n1 + n2 {
            assert(key(d2[i - n1]) != key(d2[j - n1]));
        } else {
            let (lo, hi) = if i < j { (i, j) } else { (j, i) };
            let y = all[hi];
            if lo < n1 {
                if hi < n1 + n2 {
                    assert(d2.contains(y));
                    assert(b2.contains(y));
                } else {
                    assert(d3.contains(y));
                    assert(b3.contains(y));
                    assert(b2.contains(y));
                }
            } else {
                assert(d3.contains(y));
                assert(b3.contains(y));
                let x = all[lo];
                assert(x == d2[lo - n1]);
            }
        }
    }
    assert forall|i: int, j: int|
        0 <= i < all.len() && 0 <= j < rest.len() implies all[i].handle != rest[j].handle by {
        let n1 = d1.len() as int;
        let n2 = d2.len() as int;
        let y = rest[j];
        assert(rest.contains(y));
        assert(b3.contains(y));
        assert(b2.contains(y));
        if n1 <= i < n1 + n2 {
            assert(all[i] == d2[i - n1]);
        } else if i >= n1 + n2 {
            assert(all[i] == d3[i - n1 - n2]);
        }
    }
}

} // verus!
