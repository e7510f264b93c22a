//! One client connection: its inactivity timer and the dispatch of the
//! sub-commands it sends to the entity it controls.
use vstd::prelude::*;
use vstd::string::*;
use crate::model::Entity;
use crate::protocol::{command_of, line_commands, parse_line, Command, CommandView};
use crate::world::{
    commanded, has_id, kept, lemma_kept_nothing_flagged, mutates, reply_of, GameLogic, Reply,
};

verus! {

/// Seconds of silence after which a connection is closed.
pub const CONNECTION_TIMEOUT_SECS: u64 = 60;

/// The state of one connection.
pub struct ClientHandler {
    /// The token that binds this connection to its entity.
    pub token: u64,
    /// Time of the last activity, in seconds.
    pub previous_time: u64,
    pub open: bool,
}

/// What handling one read did.
pub struct LineOutcome {
    /// One reply per sub-command handled, in order.
    pub replies: Vec<Reply>,
    /// The connection is to be shut down.
    pub closed: bool,
    /// The entity that left the world with the connection, if any.
    pub removed: Option<Entity>,
}

/// The index of the first `QUIT` among sub-commands `cmds` from `k` on, or their number.
pub open spec fn first_quit(cmds: Seq<Seq<char>>, k: int) -> int
    decreases cmds.len() - k,
{
    if k < 0 || k >= cmds.len() {
        cmds.len() as int
    } else if command_of(cmds[k]) is Quit {
        k
    } else {
        first_quit(cmds, k + 1)
    }
}

/// Flags the bindings of connection `token`.
pub open spec fn token_flags(bd: Seq<(u64, u32)>, token: u64) -> Seq<bool> {
    Seq::new(bd.len(), |k: int| bd[k].0 == token)
}

/// Whether connection `token` controls an entity in `world`.
pub open spec fn is_bound(world: GameLogic, token: u64) -> bool {
    exists|k: int| 0 <= k < world.bindings@.len() && world.bindings@[k].0 == token
}

/// The entity that connection `token` controls in `world`, or 0, which no entity has.
pub open spec fn entity_of(world: GameLogic, token: u64) -> u32 {
    if is_bound(world, token) {
        world.bindings@[choose|k: int|
            0 <= k < world.bindings@.len() && world.bindings@[k].0 == token].1
    } else {
        0
    }
}

/// The entity `e` after the first `n` sub-commands of `cmds` were applied to
/// it, its name aside (see `last_name`).
pub open spec fn commanded_all(e: Entity, cmds: Seq<Seq<char>>, n: int) -> Entity
    decreases n,
{
    if n <= 0 {
        e
    } else {
        let prev = commanded_all(e, cmds, n - 1);
        if mutates(command_of(cmds[n - 1])) {
            commanded(prev, command_of(cmds[n - 1]))
        } else {
            prev
        }
    }
}

proof fn lemma_commanded_all_keeps_id(e: Entity, cmds: Seq<Seq<char>>, n: int)
    ensures
        commanded_all(e, cmds, n).id == e.id,
    decreases n,
{
    if n > 0 {
        lemma_commanded_all_keeps_id(e, cmds, n - 1);
    }
}

/// The name given by the last `SET_NAME` among the first `n` sub-commands of `cmds`.
pub open spec fn last_name(cmds: Seq<Seq<char>>, n: int) -> Option<Seq<char>>
    decreases n,
{
    if n <= 0 {
        None
    } else {
        match command_of(cmds[n - 1]) {
            CommandView::SetName(name) => Some(name),
            _ => last_name(cmds, n - 1),
        }
    }
}

/// `e` is `e0` after the first `n` sub-commands of `cmds`.
pub open spec fn after_commands(e0: Entity, e: Entity, cmds: Seq<Seq<char>>, n: int) -> bool {
    &&& (Entity { name: e0.name, ..e }) == commanded_all(e0, cmds, n)
    &&& match last_name(cmds, n) {
        Some(name) => e.name@ == name,
        None => e.name == e0.name,
    }
}

/// Whether a read of `bytes_read` bytes (line end included) means the peer hung up.
pub open spec fn hangs_up(bytes_read: usize) -> bool {
    bytes_read <= 1
}

impl ClientHandler {
    pub fn new(token: u64, now: u64) -> (r: ClientHandler)
        ensures
            r.token == token,
            r.previous_time == now,
            r.open,
    {
        ClientHandler { token, previous_time: now, open: true }
    }

    /// Closes the connection: its binding and its entity leave the world.
    pub fn handle_disconnection(&mut self, world: &mut GameLogic) -> (r: Option<Entity>)
        requires
            old(world).wf(),
        ensures
            final(world).wf(),
            !final(self).open,
            final(self).token == old(self).token,
            final(self).previous_time == old(self).previous_time,
            forall|k: int|
                0 <= k < final(world).bindings@.len() ==> (#[trigger] final(world).bindings@[k]).0
                    != old(self).token,
            r matches Some(e) ==> e.id == entity_of(*old(world), old(self).token) && !has_id(
                final(world).entities@,
                e.id,
            ),
            r is Some <==> is_bound(*old(world), old(self).token),
            r is None ==> *final(world) == *old(world),
            r matches Some(e) ==> exists|i: int|
                0 <= i < old(world).entities@.len() && old(world).entities@[i] == e
                    && final(world).entities@ == old(world).entities@.remove(i),
            final(world).bindings@ == kept(
                old(world).bindings@,
                token_flags(old(world).bindings@, old(self).token),
            ),
            final(world).bullets == old(world).bullets,
            final(world).obstacles == old(world).obstacles,
            final(world).next_id == old(world).next_id,
    {
        self.open = false;
        match world.bound_entity(self.token) {
            None => {
                proof {
                    assert(!(exists|k: int|
                        0 <= k < world.bindings@.len() && world.bindings@[k].0 == self.token));
                    lemma_kept_nothing_flagged(
                        world.bindings@,
                        token_flags(world.bindings@, self.token),
                    );
                }
                None
            },
            Some(id) => {
                proof {
                    lemma_entity_of(*world, self.token, Some(id));
                    let k = choose|k: int|
                        0 <= k < world.bindings@.len() && world.bindings@[k] == (self.token, id);
                    assert(world.bindings@[k].0 == self.token);
                    assert(has_id(world.entities@, world.bindings@[k].1));
                }
                let ghost before = *world;
                let r = world.remove_entity_by_id(id);
                proof {
                    let k0 = choose|k: int|
                        0 <= k < before.bindings@.len() && before.bindings@[k] == (self.token, id);
                    assert(Seq::new(before.bindings@.len(), |j: int| before.bindings@[j].1 == id)
                        =~= token_flags(before.bindings@, self.token)) by {
                        assert forall|j: int| 0 <= j < before.bindings@.len() implies (
                        before.bindings@[j].1 == id) == (before.bindings@[j].0 == self.token) by {
                            if j != k0 {
                                assert(before.bindings@[j].1 != before.bindings@[k0].1);
                                assert(before.bindings@[j].0 != before.bindings@[k0].0);
                            }
                        }
                    }
                    assert forall|k: int| 0 <= k < world.bindings@.len() implies (
                    #[trigger] world.bindings@[k]).0 != self.token by {
                        let b = world.bindings@[k];
                        assert(b.1 != id);
                        assert(world.bindings@ == kept(
                            before.bindings@,
                            Seq::new(before.bindings@.len(), |j: int| before.bindings@[j].1 == id),
                        ));
                        assert(world.bindings@.contains(b));
                        crate::world::lemma_kept_contains(
                            before.bindings@,
                            Seq::new(before.bindings@.len(), |j: int| before.bindings@[j].1 == id),
                            b,
                        );
                    }
                }
                r
            },
        }
    }

    /// Whether the connection has been silent for longer than the timeout at `now`.
    pub fn is_timed_out(&self, now: u64) -> (r: bool)
        ensures
            r == (now as int > self.previous_time as int + CONNECTION_TIMEOUT_SECS as int),
    {
        now as u128 > self.previous_time as u128 + CONNECTION_TIMEOUT_SECS as u128
    }

    /// At `now`, closes the connection if it has been silent for longer than
    /// the timeout, exactly as an explicit disconnect does.
    pub fn check_timeout(&mut self, world: &mut GameLogic, now: u64) -> (r: (bool, Option<Entity>))
        requires
            old(world).wf(),
        ensures
            final(world).wf(),
            r.0 == (now as int > old(self).previous_time as int + CONNECTION_TIMEOUT_SECS as int),
            !r.0 ==> *final(world) == *old(world) && *final(self) == *old(self) && r.1 is None,
            r.0 ==> (r.1 is Some <==> is_bound(*old(world), old(self).token)),
            r.0 ==> final(world).bindings@ == kept(
                old(world).bindings@,
                token_flags(old(world).bindings@, old(self).token),
            ),
            r.0 && r.1 is None ==> *final(world) == *old(world),
            r.1 matches Some(e) ==> exists|i: int|
                0 <= i < old(world).entities@.len() && old(world).entities@[i] == e
                    && final(world).entities@ == old(world).entities@.remove(i),
            final(world).bullets == old(world).bullets,
            final(world).obstacles == old(world).obstacles,
            final(world).next_id == old(world).next_id,
            r.0 ==> !final(self).open && forall|k: int|
                0 <= k < final(world).bindings@.len() ==> (#[trigger] final(world).bindings@[k]).0
                    != old(self).token,
            r.1 matches Some(e) ==> e.id == entity_of(*old(world), old(self).token) && !has_id(
                final(world).entities@,
                e.id,
            ),
    {
        if self.is_timed_out(now) {
            let removed = self.handle_disconnection(world);
            (true, removed)
        } else {
            (false, None)
        }
    }
}

/// The binding of `token` decides `entity_of`.
proof fn lemma_entity_of(world: GameLogic, token: u64, r: Option<u32>)
    requires
        crate::world::tokens_unique(world.bindings@),
        r matches Some(id) ==> exists|k: int|
            0 <= k < world.bindings@.len() && world.bindings@[k] == (token, id),
        r is None ==> forall|k: int|
            0 <= k < world.bindings@.len() ==> #[trigger] world.bindings@[k].0 != token,
    ensures
        entity_of(world, token) == match r {
            Some(id) => id,
            None => 0u32,
        },
{
    if let Some(id) = r {
        let k = choose|k: int| 0 <= k < world.bindings@.len() && world.bindings@[k] == (token, id);
        assert(world.bindings@[k].0 == token);
        let c = choose|c: int| 0 <= c < world.bindings@.len() && world.bindings@[c].0 == token;
        assert(c == k);
    }
}

impl ClientHandler {
    /// Handles one read of `bytes_read` bytes holding `line`, at `now`.
    ///
    /// A read of at most one byte means that the peer hung up: the
    /// connection closes. Otherwise the sub-commands of the line are handled
    /// in order, each against the entity bound to this connection, until a
    /// `QUIT`, which closes the connection. Every sub-command handled before
    /// it resets the inactivity timer.
    pub fn handle_received_message(
        &mut self,
        world: &mut GameLogic,
        bytes_read: usize,
        line: &str,
        now: u64,
    ) -> (r: LineOutcome)
        requires
            old(world).wf(),
        ensures
            final(world).wf(),
            final(self).token == old(self).token,
            r.closed ==> !final(self).open,
            !r.closed ==> final(self).open == old(self).open,
            hangs_up(bytes_read) ==> r.closed && r.replies@.len() == 0,
            !hangs_up(bytes_read) ==> {
                let cmds = line_commands(line@);
                let q = first_quit(cmds, 0);
                let id = entity_of(*old(world), old(self).token);
                &&& r.replies@.len() == q
                &&& forall|k: int|
                    0 <= k < q ==> (#[trigger] r.replies@[k])@ == reply_of(
                        command_of(cmds[k]),
                        has_id(old(world).entities@, id),
                    )
                &&& r.closed == (q < cmds.len())
                &&& final(self).previous_time == if q > 0 {
                    now
                } else {
                    old(self).previous_time
                }
                &&& !r.closed && !has_id(old(world).entities@, id) ==> final(world).entities
                    == old(world).entities
                &&& !r.closed && has_id(old(world).entities@, id) ==> exists|i: int|
                    0 <= i < old(world).entities@.len() && old(world).entities@[i].id == id
                        && final(world).entities@ == old(world).entities@.update(
                        i,
                        final(world).entities@[i],
                    ) && after_commands(
                        old(world).entities@[i],
                        final(world).entities@[i],
                        cmds,
                        q,
                    )
            },
            r.closed ==> forall|k: int|
                0 <= k < final(world).bindings@.len() ==> (#[trigger] final(world).bindings@[k]).0
                    != old(self).token,
            r.removed matches Some(e) ==> r.closed && e.id == entity_of(*old(world), old(self).token)
                && !has_id(final(world).entities@, e.id),
            r.closed ==> (r.removed is Some <==> is_bound(*old(world), old(self).token)),
            r.closed ==> final(world).bindings@ == kept(
                old(world).bindings@,
                token_flags(old(world).bindings@, old(self).token),
            ),
            !r.closed ==> final(world).bindings == old(world).bindings,
            !is_bound(*old(world), old(self).token) ==> !has_id(
                old(world).entities@,
                entity_of(*old(world), old(self).token),
            ),
            final(world).bullets == old(world).bullets,
            final(world).obstacles == old(world).obstacles,
            final(world).next_id == old(world).next_id,
    {
        if bytes_read <= 1 {
            let removed = self.handle_disconnection(world);
            return LineOutcome { replies: Vec::new(), closed: true, removed };
        }
        let cmds = parse_line(line);
        let ghost cs = line_commands(line@);
        let bound = world.bound_entity(self.token);
        proof {
            lemma_entity_of(*world, self.token, bound);
        }
        let id = match bound {
            Some(i) => i,
            None => 0,
        };
        let ghost w0 = *world;
        let ghost found = has_id(w0.entities@, id);
        proof {
            if !is_bound(w0, self.token) {
                assert(id == 0);
                assert(!has_id(w0.entities@, 0)) by {
                    if has_id(w0.entities@, 0) {
                        let i = choose|i: int| 0 <= i < w0.entities@.len() && w0.entities@[i].id == 0;
                        assert(crate::world::live(w0.entities@[i], w0.next_id));
                    }
                }
            }
        }
        let ghost i0: int = if found {
            choose|i: int| 0 <= i < w0.entities@.len() && w0.entities@[i].id == id
        } else {
            0
        };
        proof {
            if found {
                assert(w0.entities@ == w0.entities@.update(i0, w0.entities@[i0]));
            }
        }
        let mut replies: Vec<Reply> = Vec::new();
        let mut k: usize = 0;
        while k < cmds.len()
            invariant
                k <= cmds@.len() == cs.len(),
                cs == line_commands(line@),
                !hangs_up(bytes_read),
                w0 == *old(world),
                id == entity_of(w0, old(self).token),
                found == has_id(w0.entities@, id),
                forall|j: int| 0 <= j < cmds@.len() ==> #[trigger] cmds@[j]@ == command_of(cs[j]),
                first_quit(cs, 0) == first_quit(cs, k as int),
                world.wf(),
                world.bindings == w0.bindings,
                world.obstacles == w0.obstacles,
                world.bullets == w0.bullets,
                world.next_id == w0.next_id,
                has_id(world.entities@, id) == found,
                !found ==> world.entities == w0.entities,
                found ==> 0 <= i0 < w0.entities@.len() && w0.entities@[i0].id == id
                    && world.entities@ == w0.entities@.update(i0, world.entities@[i0])
                    && after_commands(w0.entities@[i0], world.entities@[i0], cs, k as int),
                replies@.len() == k,
                forall|j: int|
                    0 <= j < k ==> (#[trigger] replies@[j])@ == reply_of(command_of(cs[j]), found),
                self.token == old(self).token,
                self.open == old(self).open,
                self.previous_time == if k > 0 {
                    now
                } else {
                    old(self).previous_time
                },
            decreases cmds@.len() - k,
        {
            let is_quit = match &cmds[k] {
                Command::Quit => true,
                _ => false,
            };
            if is_quit {
                proof {
                    assert(cmds@[k as int]@ == command_of(cs[k as int]));
                    assert(command_of(cs[k as int]) is Quit);
                    assert(first_quit(cs, k as int) == k);
                    assert(entity_of(*world, self.token) == entity_of(w0, self.token));
                    assert(is_bound(*world, self.token) == is_bound(w0, self.token));
                }
                let removed = self.handle_disconnection(world);
                return LineOutcome { replies, closed: true, removed };
            }
            let ghost before = world.entities@;
            let reply = world.apply_command(id, &cmds[k]);
            proof {
                assert(cmds@[k as int]@ == command_of(cs[k as int]));
                assert(!(command_of(cs[k as int]) is Quit));
                let c = command_of(cs[k as int]);
                if found {
                    let e0 = w0.entities@[i0];
                    lemma_commanded_all_keeps_id(e0, cs, k as int);
                    assert(before[i0].id == id);
                    if mutates(c) {
                        let i = choose|i: int|
                            0 <= i < before.len() && before[i].id == id && {
                                let e = world.entities@[i];
                                &&& world.entities@ == before.update(i, e)
                                &&& (Entity { name: before[i].name, ..e }) == commanded(before[i], c)
                                &&& (match c {
                                    CommandView::SetName(n) => e.name@ == n,
                                    _ => true,
                                })
                                &&& (!(c is SetName) ==> e.name == before[i].name)
                            };
                        assert(i == i0) by {
                            assert(crate::world::ids_unique(before));
                        }
                        let e = world.entities@[i0];
                        assert(world.entities@ =~= w0.entities@.update(i0, e));
                        assert((Entity { name: e0.name, ..e }) == commanded(
                            commanded_all(e0, cs, k as int),
                            c,
                        ));
                    }
                }
                if has_id(before, id) {
                    let i = choose|i: int| 0 <= i < before.len() && before[i].id == id;
                    assert(world.entities@[i].id == id);
                }
                if has_id(world.entities@, id) {
                    let i = choose|i: int| 0 <= i < world.entities@.len() && world.entities@[i].id == id;
                    assert(before[i].id == id);
                }
            }
            replies.push(reply);
            self.previous_time = now;
            k += 1;
        }
        proof {
            assert(first_quit(cs, k as int) == cs.len());
        }
        LineOutcome { replies, closed: false, removed: None }
    }
}

/// Appends `message` to a reply line, after a command separator unless the
/// line is still empty.
pub fn add_to_reponse(reponse: String, message: String) -> (r: String)
    ensures
        r@ == if reponse@.len() == 0 {
            message@
        } else {
            reponse@ + seq![crate::protocol::COMMAND_SEP] + message@
        },
{
    if reponse.unicode_len() == 0 {
        message
    } else {
        let with_sep = reponse.concat(";");
        proof {
            reveal_strlit(";");
        }
        with_sep.concat(message.as_str())
    }
}

} // verus!
