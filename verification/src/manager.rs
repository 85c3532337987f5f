//! The manager of all rooms: it seats players, routes their requests and ticks every game.
use vstd::prelude::*;
use vstd::string::StringExecFns;
use crate::types::{Direction, GameMessage, GameState, SnakeView};
use crate::room::{
    input_result, joined, ready_result, removal_result, reset_result, shows, tick_result, GameRoom,
    RoomView,
};
use crate::rules::{free_start_cell, in_start_area, occupies, MAP_HEIGHT, MAP_WIDTH, REQUIRED_PLAYERS};
use crate::types::Position;
use crate::ranking::{ranked, score_pairs};

verus! {

/// The character of decimal digit `d`.
pub open spec fn digit_char(d: nat) -> char {
    (48 + d) as char
}

/// The decimal digits of `n`, most significant first, with no leading zero.
pub open spec fn decimal(n: nat) -> Seq<char>
    decreases n,
{
    if n < 10 {
        seq![digit_char(n)]
    } else {
        decimal(n / 10).push(digit_char(n % 10))
    }
}

/// The id of the `n`-th room the manager opens.
pub open spec fn room_name(n: u32) -> Seq<char> {
    "room_"@ + decimal(n as nat)
}

/// A room name `room_name(k)` with `k` below `n`.
pub open spec fn named_below(name: Seq<char>, n: u32) -> bool {
    exists|k: u32| k < n && name == #[trigger] room_name(k)
}

proof fn lemma_decimal_len(n: nat)
    ensures
        decimal(n).len() >= 1,
        n >= 10 ==> decimal(n).len() >= 2,
    decreases n,
{
    if n >= 10 {
        lemma_decimal_len(n / 10);
    }
}

proof fn lemma_digit_char_injective(x: nat, y: nat)
    requires
        x < 10,
        y < 10,
        digit_char(x) == digit_char(y),
    ensures
        x == y,
{
    reveal_strlit("0123456789");
    let digits = seq!['0', '1', '2', '3', '4', '5', '6', '7', '8', '9'];
    assert("0123456789"@ =~= digits);
    assert("0123456789"@.subrange(x as int, x as int + 1) =~= seq![digit_char(x)]);
    assert("0123456789"@.subrange(y as int, y as int + 1) =~= seq![digit_char(y)]);
    assert(digits[x as int] == digits[y as int]);
}

/// Distinct numbers have distinct decimal digits.
proof fn lemma_decimal_injective(a: nat, b: nat)
    requires
        decimal(a) == decimal(b),
    ensures
        a == b,
    decreases a,
{
    lemma_decimal_len(a / 10);
    lemma_decimal_len(b / 10);
    if a < 10 && b < 10 {
        assert(decimal(a) == seq![digit_char(a)]);
        assert(decimal(b) == seq![digit_char(b)]);
        assert(decimal(a)[0] == digit_char(a));
        assert(decimal(b)[0] == digit_char(b));
        lemma_digit_char_injective(a, b);
    } else if a < 10 {
        assert(decimal(b).len() >= 2);
    } else if b < 10 {
        assert(decimal(a).len() >= 2);
    } else {
        assert(decimal(a) == decimal(a / 10).push(digit_char(a % 10)));
        assert(decimal(b) == decimal(b / 10).push(digit_char(b % 10)));
        assert(decimal(a).last() == digit_char(a % 10));
        assert(decimal(b).last() == digit_char(b % 10));
        lemma_digit_char_injective(a % 10, b % 10);
        assert(decimal(a).drop_last() =~= decimal(a / 10));
        assert(decimal(b).drop_last() =~= decimal(b / 10));
        lemma_decimal_injective(a / 10, b / 10);
    }
}

/// Distinct room numbers give distinct room names.
pub proof fn lemma_room_name_injective(a: u32, b: u32)
    requires
        room_name(a) == room_name(b),
    ensures
        a == b,
{
    let p = "room_"@;
    assert(room_name(a).subrange(p.len() as int, room_name(a).len() as int) =~= decimal(a as nat));
    assert(room_name(b).subrange(p.len() as int, room_name(b).len() as int) =~= decimal(b as nat));
    lemma_decimal_injective(a as nat, b as nat);
}

/// Appends the decimal digits of `n` to `s`.
fn push_decimal(s: &mut String, n: u32)
    ensures
        final(s)@ == old(s)@ + decimal(n as nat),
    decreases n,
{
    if n >= 10 {
        push_decimal(s, n / 10);
    }
    let digits = "0123456789";
    proof {
        reveal_strlit("0123456789");
    }
    let d = (n % 10) as usize;
    s.append(digits.substring_ascii(d, d + 1));
    assert(digits@.subrange(d as int, d + 1) =~= seq![digit_char(d as nat)]);
    assert(final(s)@ =~= old(s)@ + decimal(n as nat));
}

/// The manager as a mathematical value: its rooms in the order they were opened, and the
/// number of the next room to open.
pub struct ManagerView {
    pub rooms: Seq<RoomView>,
    pub next_room_id: u32,
}

/// A room with id `name` that nobody has joined yet.
pub open spec fn empty_room(name: Seq<char>) -> RoomView {
    RoomView {
        room_id: name,
        snakes: Seq::empty(),
        foods: Seq::empty(),
        map_size: (MAP_WIDTH, MAP_HEIGHT),
        next_snake_id: 1,
        game_started: false,
        game_over: false,
        ready_players: Set::empty(),
        required_players: REQUIRED_PLAYERS,
    }
}

/// A room takes new players while it waits for players and its game has not started.
pub open spec fn joinable(r: RoomView) -> bool {
    r.snakes.len() < r.required_players && !r.game_started
}

/// `i` is the first joinable room.
pub open spec fn is_first_joinable(rooms: Seq<RoomView>, i: int) -> bool {
    &&& 0 <= i < rooms.len()
    &&& joinable(rooms[i])
    &&& forall|j: int| 0 <= j < i ==> !joinable(#[trigger] rooms[j])
}

/// The first joinable room, if there is one.
pub open spec fn first_joinable(rooms: Seq<RoomView>) -> Option<int> {
    if exists|i: int| is_first_joinable(rooms, i) {
        Some(choose|i: int| is_first_joinable(rooms, i))
    } else {
        None
    }
}

/// The index of the room with id `name`, if there is one.
pub open spec fn room_index(rooms: Seq<RoomView>, name: Seq<char>) -> Option<int> {
    if exists|i: int| 0 <= i < rooms.len() && (#[trigger] rooms[i]).room_id == name {
        Some(choose|i: int| 0 <= i < rooms.len() && (#[trigger] rooms[i]).room_id == name)
    } else {
        None
    }
}

impl ManagerView {
    /// What the manager keeps: sound rooms with distinct ids, each named after a room number
    /// already handed out, none of them empty and none holding more players than it requires.
    pub open spec fn wf(self) -> bool {
        &&& forall|i: int| 0 <= i < self.rooms.len() ==> (#[trigger] self.rooms[i]).wf()
        &&& forall|i: int, j: int|
            0 <= i < self.rooms.len() && 0 <= j < self.rooms.len() && i != j
                ==> self.rooms[i].room_id != self.rooms[j].room_id
        &&& forall|i: int|
            0 <= i < self.rooms.len() ==> 1 <= (#[trigger] self.rooms[i]).snakes.len()
                <= self.rooms[i].required_players
        &&& forall|i: int|
            0 <= i < self.rooms.len() ==> named_below((#[trigger] self.rooms[i]).room_id, self.next_room_id)
    }

    /// Ids are left to hand out: for a new room, and for a new player of every room.
    pub open spec fn has_capacity(self) -> bool {
        &&& self.next_room_id < u32::MAX
        &&& forall|i: int| 0 <= i < self.rooms.len() ==> (#[trigger] self.rooms[i]).next_snake_id < usize::MAX
    }
}

/// What seating a player makes of the manager; `name` and `id` are the room and snake handed
/// back. The player joins the first joinable room. Without one, a new room named after the
/// room counter opens after the others, with the player as its first snake.
pub open spec fn join_result(pre: ManagerView, post: ManagerView, name: Seq<char>, id: usize) -> bool {
    match first_joinable(pre.rooms) {
        Some(i) => {
            &&& name == pre.rooms[i].room_id
            &&& joined(pre.rooms[i], post.rooms[i], id)
            &&& post == ManagerView { rooms: pre.rooms.update(i, post.rooms[i]), ..pre }
        },
        None => {
            &&& name == room_name(pre.next_room_id)
            &&& post.next_room_id == pre.next_room_id + 1
            &&& exists|room: RoomView| joined(empty_room(name), room, id) && post.rooms == pre.rooms.push(room)
        },
    }
}

/// The manager after the room with id `name` changed to `room` by `change`; with no such room,
/// the manager stays as it is.
pub open spec fn in_room(
    pre: ManagerView,
    post: ManagerView,
    name: Seq<char>,
    change: spec_fn(RoomView, RoomView) -> bool,
) -> bool {
    match room_index(pre.rooms, name) {
        Some(i) => {
            &&& change(pre.rooms[i], post.rooms[i])
            &&& post == ManagerView { rooms: pre.rooms.update(i, post.rooms[i]), ..pre }
        },
        None => post == pre,
    }
}

/// A room with at most one snake, of three cells, leaves a start cell free.
proof fn lemma_room_for_one_more(snakes: Seq<SnakeView>)
    requires
        snakes.len() <= 1,
        forall|i: int| 0 <= i < snakes.len() ==> (#[trigger] snakes[i]).body.len() == 3,
    ensures
        free_start_cell(snakes),
{
    let c0 = Position { x: 3, y: 3 };
    let c1 = Position { x: 4, y: 3 };
    let c2 = Position { x: 5, y: 3 };
    let c3 = Position { x: 6, y: 3 };
    assert(in_start_area(c0) && in_start_area(c1) && in_start_area(c2) && in_start_area(c3));
    if snakes.len() == 0 {
        assert(!occupies(snakes, c0));
    } else {
        let b = snakes[0].body;
        assert forall|c: Position| occupies(snakes, c) implies c == b[0] || c == b[1] || c == b[2] by {
            let (i, j) = choose|i: int, j: int|
                0 <= i < snakes.len() && 0 <= j < snakes[i].body.len() && #[trigger] snakes[i].body[j]
                    == c;
            assert(i == 0);
        }
        if !occupies(snakes, c0) {
        } else if !occupies(snakes, c1) {
        } else if !occupies(snakes, c2) {
        } else {
            assert(!occupies(snakes, c3));
        }
    }
}

/// The manager of all rooms.
pub struct GameManager {
    rooms: Vec<GameRoom>,
    next_room_id: u32,
}

impl View for GameManager {
    type V = ManagerView;

    closed spec fn view(&self) -> ManagerView {
        ManagerView {
            rooms: self.rooms@.map_values(|r: GameRoom| r@),
            next_room_id: self.next_room_id,
        }
    }
}

impl GameManager {
    /// Every manager keeps what `ManagerView::wf` states.
    pub open spec fn wf(&self) -> bool {
        self@.wf()
    }

    pub fn new() -> (r: Self)
        ensures
            r.wf(),
            r@ == (ManagerView { rooms: Seq::empty(), next_room_id: 1 }),
    {
        let r = Self { rooms: Vec::new(), next_room_id: 1 };
        assert(r@.rooms =~= Seq::<RoomView>::empty());
        r
    }

    /// Whether ids are left to hand out: see `ManagerView::has_capacity`.
    pub fn has_capacity(&self) -> (r: bool)
        ensures
            r == self@.has_capacity(),
    {
        if self.next_room_id == u32::MAX {
            return false;
        }
        let mut i: usize = 0;
        while i < self.rooms.len()
            invariant
                i <= self.rooms.len(),
                forall|j: int| 0 <= j < i ==> (#[trigger] self@.rooms[j]).next_snake_id < usize::MAX,
            decreases self.rooms.len() - i,
        {
            if self.rooms[i].next_snake_id() == usize::MAX {
                assert(self@.rooms[i as int] == self.rooms@[i as int]@);
                return false;
            }
            i = i + 1;
        }
        true
    }

    /// The index of the room with id `name`.
    fn find_room(&self, name: &String) -> (r: Option<usize>)
        requires
            self.wf(),
        ensures
            match r {
                Some(i) => room_index(self@.rooms, name@) == Some(i as int),
                None => room_index(self@.rooms, name@) is None,
            },
    {
        let mut i: usize = 0;
        while i < self.rooms.len()
            invariant
                self.wf(),
                i <= self.rooms.len(),
                forall|j: int| 0 <= j < i ==> (#[trigger] self@.rooms[j]).room_id != name@,
            decreases self.rooms.len() - i,
        {
            if self.rooms[i].room_id().eq(name) {
                proof {
                    assert(self@.rooms[i as int] == self.rooms@[i as int]@);
                    assert(self@.rooms[i as int].room_id == name@);
                    let k = choose|k: int| 0 <= k < self@.rooms.len() && (#[trigger] self@.rooms[k]).room_id == name@;
                    assert(k == i);
                }
                return Some(i);
            }
            i = i + 1;
        }
        None
    }

    /// The first joinable room.
    fn find_joinable(&self) -> (r: Option<usize>)
        requires
            self.wf(),
        ensures
            match r {
                Some(i) => first_joinable(self@.rooms) == Some(i as int),
                None => first_joinable(self@.rooms) is None,
            },
    {
        let mut i: usize = 0;
        while i < self.rooms.len()
            invariant
                i <= self.rooms.len(),
                forall|j: int| 0 <= j < i ==> !joinable(#[trigger] self@.rooms[j]),
            decreases self.rooms.len() - i,
        {
            let (current, required) = self.rooms[i].get_matching_status();
            assert(self@.rooms[i as int] == self.rooms@[i as int]@);
            if current < required && !self.rooms[i].game_started() {
                proof {
                    assert(is_first_joinable(self@.rooms, i as int));
                    let k = choose|k: int| is_first_joinable(self@.rooms, k);
                    if k < i {
                        assert(!joinable(self@.rooms[k]));
                    } else if i < k {
                        assert(!joinable(self@.rooms[i as int]));
                    }
                }
                return Some(i);
            }
            i = i + 1;
        }
        proof {
            if exists|k: int| is_first_joinable(self@.rooms, k) {
                let k = choose|k: int| is_first_joinable(self@.rooms, k);
                assert(!joinable(self@.rooms[k]));
            }
        }
        None
    }

    /// The id of the `n`-th room.
    fn room_name_for(n: u32) -> (r: String)
        ensures
            r@ == room_name(n),
    {
        let mut name = String::from_str("room_");
        push_decimal(&mut name, n);
        name
    }

    /// Seats a new player: see `join_result`. Returns the room's id and the player's snake id.
    pub fn join_or_create_room(&mut self) -> (r: (String, usize))
        requires
            old(self).wf(),
            old(self)@.has_capacity(),
        ensures
            final(self).wf(),
            join_result(old(self)@, final(self)@, r.0@, r.1),
    {
        let ghost pre = self@;
        if let Some(i) = self.find_joinable() {
            proof {
                let room = pre.rooms[i as int];
                assert(room.wf());
                lemma_room_for_one_more(room.snakes);
            }
            assert(self.rooms@[i as int]@ == pre.rooms[i as int]);
            let snake_id = self.rooms[i].add_player();
            let name = self.rooms[i].room_id().clone();
            proof {
                let post = self@;
                assert(post.rooms[i as int] == self.rooms@[i as int]@);
                assert(post.rooms =~= pre.rooms.update(i as int, post.rooms[i as int]));
                lemma_replace_room(pre, i as int, post.rooms[i as int]);
            }
            return (name, snake_id);
        }
        let room_id = Self::room_name_for(self.next_room_id);
        self.next_room_id = self.next_room_id + 1;
        let mut room = GameRoom::new(room_id.clone());
        proof {
            lemma_room_for_one_more(room@.snakes);
        }
        let snake_id = room.add_player();
        let ghost new_room = room@;
        proof {
            assert forall|j: int| 0 <= j < pre.rooms.len() implies pre.rooms[j].room_id != room_id@ by {
                assert(named_below(pre.rooms[j].room_id, pre.next_room_id));
                let k = choose|k: u32| k < pre.next_room_id && pre.rooms[j].room_id == #[trigger] room_name(k);
                if pre.rooms[j].room_id == room_id@ {
                    lemma_room_name_injective(k, pre.next_room_id);
                }
            }
        }
        self.rooms.push(room);
        proof {
            let post = self@;
            assert(post.rooms =~= pre.rooms.push(new_room));
            assert forall|a: int, b: int|
                0 <= a < post.rooms.len() && 0 <= b < post.rooms.len() && a != b implies post.rooms[a].room_id
                != post.rooms[b].room_id by {
                if a == pre.rooms.len() {
                    assert(pre.rooms[b].room_id != room_id@);
                } else if b == pre.rooms.len() {
                    assert(pre.rooms[a].room_id != room_id@);
                }
            }
            assert forall|a: int| 0 <= a < post.rooms.len() implies named_below(
                (#[trigger] post.rooms[a]).room_id,
                post.next_room_id,
            ) by {
                if a < pre.rooms.len() {
                    assert(named_below(pre.rooms[a].room_id, pre.next_room_id));
                    let k = choose|k: u32| k < pre.next_room_id && pre.rooms[a].room_id == #[trigger] room_name(k);
                    assert(k < post.next_room_id && post.rooms[a].room_id == room_name(k));
                } else {
                    assert(post.rooms[a].room_id == room_name(pre.next_room_id));
                }
            }
            assert(joined(empty_room(room_id@), new_room, snake_id));
        }
        (room_id, snake_id)
    }
}

/// What resetting a room does: where a start cell is free it starts the room afresh as
/// `reset_result` says; otherwise it leaves the room as it is.
pub open spec fn reset_change(a: RoomView, b: RoomView) -> bool {
    if free_start_cell(a.snakes) {
        reset_result(a, b)
    } else {
        b == a
    }
}

/// What a player leaving makes of the manager: the player leaves its room as `removal_result`
/// says, and a room left empty closes.
pub open spec fn leave_result(pre: ManagerView, post: ManagerView, name: Seq<char>, id: usize) -> bool {
    match room_index(pre.rooms, name) {
        Some(i) => exists|room: RoomView, removed: Option<SnakeView>|
            #![trigger removal_result(pre.rooms[i], room, id, removed)]
            removal_result(pre.rooms[i], room, id, removed) && post == ManagerView {
                rooms: if room.snakes.len() == 0 {
                    pre.rooms.remove(i)
                } else {
                    pre.rooms.update(i, room)
                },
                ..pre
            },
        None => post == pre,
    }
}

/// What a player's "ready" makes of the manager, with `started` and `status` handed back. A
/// room whose game is over is reset first; then the player is marked ready, and the room's
/// player count is reported.
pub open spec fn ready_round_result(
    pre: ManagerView,
    post: ManagerView,
    name: Seq<char>,
    id: usize,
    started: bool,
    status: Option<(usize, usize)>,
) -> bool {
    match room_index(pre.rooms, name) {
        Some(i) => {
            &&& exists|mid: RoomView|
                #![trigger ready_result(mid, post.rooms[i], id, started)]
                (if pre.rooms[i].game_over {
                    reset_change(pre.rooms[i], mid)
                } else {
                    mid == pre.rooms[i]
                }) && ready_result(mid, post.rooms[i], id, started)
            &&& status == Some((post.rooms[i].snakes.len() as usize, post.rooms[i].required_players))
            &&& post == ManagerView { rooms: pre.rooms.update(i, post.rooms[i]), ..pre }
        },
        None => post == pre && !started && status is None,
    }
}

/// Replacing one room of a sound manager by a sound room with the same id and a player count
/// in bounds keeps the manager sound.
proof fn lemma_replace_room(pre: ManagerView, i: int, room: RoomView)
    requires
        pre.wf(),
        0 <= i < pre.rooms.len(),
        room.wf(),
        room.room_id == pre.rooms[i].room_id,
        1 <= room.snakes.len() <= room.required_players,
    ensures
        (ManagerView { rooms: pre.rooms.update(i, room), ..pre }).wf(),
{
    let rooms = pre.rooms.update(i, room);
    assert forall|a: int, b: int| 0 <= a < rooms.len() && 0 <= b < rooms.len() && a != b implies rooms[a].room_id
        != rooms[b].room_id by {
        assert(rooms[a].room_id == pre.rooms[a].room_id);
        assert(rooms[b].room_id == pre.rooms[b].room_id);
    }
    assert forall|a: int| 0 <= a < rooms.len() implies named_below((#[trigger] rooms[a]).room_id, pre.next_room_id) by {
        assert(rooms[a].room_id == pre.rooms[a].room_id);
    }
}

/// Closing one room of a sound manager keeps it sound.
proof fn lemma_close_room(pre: ManagerView, i: int)
    requires
        pre.wf(),
        0 <= i < pre.rooms.len(),
    ensures
        (ManagerView { rooms: pre.rooms.remove(i), ..pre }).wf(),
{
    let rooms = pre.rooms.remove(i);
    assert forall|a: int| 0 <= a < rooms.len() implies rooms[a] == pre.rooms[if a < i { a } else { a + 1 }] by {}
    assert forall|a: int, b: int| 0 <= a < rooms.len() && 0 <= b < rooms.len() && a != b implies rooms[a].room_id
        != rooms[b].room_id by {
        assert(rooms[a] == pre.rooms[if a < i { a } else { a + 1 }]);
        assert(rooms[b] == pre.rooms[if b < i { b } else { b + 1 }]);
    }
    assert forall|a: int| 0 <= a < rooms.len() implies (#[trigger] rooms[a]).wf() && 1 <= rooms[a].snakes.len()
        <= rooms[a].required_players && named_below(rooms[a].room_id, pre.next_room_id) by {
        assert(rooms[a] == pre.rooms[if a < i { a } else { a + 1 }]);
    }
}

impl GameManager {
    /// Marks player `snake_id` of room `room_id` ready; true when that started the room's game.
    pub fn player_ready(&mut self, room_id: &str, snake_id: usize) -> (started: bool)
        requires
            old(self).wf(),
        ensures
            final(self).wf(),
            in_room(old(self)@, final(self)@, room_id@, (|a: RoomView, b: RoomView| ready_result(a, b, snake_id, started))),
            room_index(old(self)@.rooms, room_id@) is None ==> !started,
    {
        let name = room_id.to_owned();
        let ghost pre = self@;
        match self.find_room(&name) {
            Some(i) => {
                assert(self.rooms@[i as int]@ == pre.rooms[i as int]);
                let started = self.rooms[i].player_ready(snake_id);
                proof {
                    assert(self@.rooms =~= pre.rooms.update(i as int, self.rooms@[i as int]@));
                    lemma_replace_room(pre, i as int, self.rooms@[i as int]@);
                }
                started
            },
            None => false,
        }
    }

    /// Player `snake_id` of room `room_id` asks its snake to head in `direction`.
    pub fn handle_input(&mut self, room_id: &str, snake_id: usize, direction: Direction)
        requires
            old(self).wf(),
        ensures
            final(self).wf(),
            in_room(old(self)@, final(self)@, room_id@, (|a: RoomView, b: RoomView| input_result(a, b, snake_id, direction))),
    {
        let name = room_id.to_owned();
        let ghost pre = self@;
        match self.find_room(&name) {
            Some(i) => {
                assert(self.rooms@[i as int]@ == pre.rooms[i as int]);
                self.rooms[i].handle_input(snake_id, direction);
                proof {
                    assert(self@.rooms =~= pre.rooms.update(i as int, self.rooms@[i as int]@));
                    assert(self@.rooms[i as int].snakes.len() == pre.rooms[i as int].snakes.len());
                    lemma_replace_room(pre, i as int, self.rooms@[i as int]@);
                }
            },
            None => {},
        }
    }

    /// Ticks every room, in order, and returns each room's id with its state after the tick.
    pub fn update_all_rooms(&mut self) -> (states: Vec<(String, GameState)>)
        requires
            old(self).wf(),
        ensures
            final(self).wf(),
            final(self)@.next_room_id == old(self)@.next_room_id,
            final(self)@.rooms.len() == old(self)@.rooms.len(),
            forall|i: int|
                0 <= i < old(self)@.rooms.len() ==> tick_result(
                    old(self)@.rooms[i],
                    #[trigger] final(self)@.rooms[i],
                ),
            states@.len() == final(self)@.rooms.len(),
            forall|i: int|
                0 <= i < states@.len() ==> (#[trigger] states@[i]).0@ == final(self)@.rooms[i].room_id
                    && shows(states@[i].1, final(self)@.rooms[i]),
    {
        let ghost pre = self@;
        let mut states: Vec<(String, GameState)> = Vec::new();
        let mut i: usize = 0;
        while i < self.rooms.len()
            invariant
                self.wf(),
                self@.rooms.len() == pre.rooms.len(),
                self@.next_room_id == pre.next_room_id,
                i <= self.rooms.len(),
                forall|k: int| i <= k < pre.rooms.len() ==> #[trigger] self@.rooms[k] == pre.rooms[k],
                forall|k: int| 0 <= k < i ==> tick_result(pre.rooms[k], #[trigger] self@.rooms[k]),
                states@.len() == i,
                forall|k: int|
                    0 <= k < i ==> (#[trigger] states@[k]).0@ == self@.rooms[k].room_id && shows(
                        states@[k].1,
                        self@.rooms[k],
                    ),
            decreases pre.rooms.len() - i,
        {
            let ghost before = self@;
            assert(self.rooms@[i as int]@ == before.rooms[i as int]);
            self.rooms[i].update();
            proof {
                assert(self@.rooms =~= before.rooms.update(i as int, self.rooms@[i as int]@));
                lemma_replace_room(before, i as int, self.rooms@[i as int]@);
            }
            let state = self.rooms[i].get_state();
            let name = self.rooms[i].room_id().clone();
            states.push((name, state));
            i = i + 1;
        }
        states
    }

    /// The state of room `room_id`, if there is such a room.
    pub fn get_room_state(&self, room_id: &str) -> (r: Option<GameState>)
        requires
            self.wf(),
        ensures
            match room_index(self@.rooms, room_id@) {
                Some(i) => r is Some && shows(r->0, self@.rooms[i]),
                None => r is None,
            },
    {
        let name = room_id.to_owned();
        match self.find_room(&name) {
            Some(i) => {
                assert(self.rooms@[i as int]@ == self@.rooms[i as int]);
                Some(self.rooms[i].get_state())
            },
            None => None,
        }
    }

    /// How many players room `room_id` holds and requires, if there is such a room.
    pub fn get_matching_status(&self, room_id: &str) -> (r: Option<(usize, usize)>)
        requires
            self.wf(),
        ensures
            match room_index(self@.rooms, room_id@) {
                Some(i) => r == Some(
                    (self@.rooms[i].snakes.len() as usize, self@.rooms[i].required_players),
                ),
                None => r is None,
            },
    {
        let name = room_id.to_owned();
        match self.find_room(&name) {
            Some(i) => {
                assert(self.rooms@[i as int]@ == self@.rooms[i as int]);
                Some(self.rooms[i].get_matching_status())
            },
            None => None,
        }
    }

    /// The rankings of room `room_id`, if there is such a room.
    pub fn get_rankings(&self, room_id: &str) -> (r: Option<Vec<(usize, u32)>>)
        requires
            self.wf(),
        ensures
            match room_index(self@.rooms, room_id@) {
                Some(i) => r is Some && r->0@ == ranked(score_pairs(self@.rooms[i].snakes)),
                None => r is None,
            },
    {
        let name = room_id.to_owned();
        match self.find_room(&name) {
            Some(i) => {
                assert(self.rooms@[i as int]@ == self@.rooms[i as int]);
                Some(self.rooms[i].get_rankings())
            },
            None => None,
        }
    }

    /// Starts room `room_id` afresh: see `reset_change`.
    pub fn reset_room(&mut self, room_id: &str)
        requires
            old(self).wf(),
        ensures
            final(self).wf(),
            in_room(old(self)@, final(self)@, room_id@, (|a: RoomView, b: RoomView| reset_change(a, b))),
    {
        let name = room_id.to_owned();
        let ghost pre = self@;
        match self.find_room(&name) {
            Some(i) => {
                assert(self.rooms@[i as int]@ == pre.rooms[i as int]);
                if self.rooms[i].has_free_start_cell() {
                    self.rooms[i].reset();
                    proof {
                        assert(self@.rooms =~= pre.rooms.update(i as int, self.rooms@[i as int]@));
                        lemma_replace_room(pre, i as int, self.rooms@[i as int]@);
                    }
                } else {
                    assert(self@.rooms =~= pre.rooms.update(i as int, pre.rooms[i as int]));
                }
            },
            None => {},
        }
    }

    /// Player `snake_id` leaves room `room_id`: see `leave_result`.
    pub fn leave_room(&mut self, room_id: &str, snake_id: usize)
        requires
            old(self).wf(),
        ensures
            final(self).wf(),
            leave_result(old(self)@, final(self)@, room_id@, snake_id),
    {
        let name = room_id.to_owned();
        let ghost pre = self@;
        match self.find_room(&name) {
            Some(i) => {
                assert(self.rooms@[i as int]@ == pre.rooms[i as int]);
                let removed = self.rooms[i].remove_player(snake_id);
                let ghost room = self.rooms@[i as int]@;
                let ghost removed_view = match removed {
                    Some(s) => Some(s@),
                    None => None,
                };
                assert(removal_result(pre.rooms[i as int], room, snake_id, removed_view));
                proof {
                    assert(self@.rooms =~= pre.rooms.update(i as int, room));
                }
                let (count, _) = self.rooms[i].get_matching_status();
                if count == 0 {
                    self.rooms.remove(i);
                    proof {
                        assert(self@.rooms =~= pre.rooms.remove(i as int));
                        lemma_close_room(pre, i as int);
                    }
                } else {
                    proof {
                        lemma_replace_room(pre, i as int, room);
                    }
                }
            },
            None => {},
        }
    }

    /// A player's "ready": see `ready_round_result`. Returns whether the room's game started,
    /// and the room's player count.
    pub fn handle_ready(&mut self, room_id: &str, snake_id: usize) -> (r: (bool, Option<(usize, usize)>))
        requires
            old(self).wf(),
        ensures
            final(self).wf(),
            ready_round_result(old(self)@, final(self)@, room_id@, snake_id, r.0, r.1),
    {
        let ghost pre = self@;
        let over = match self.get_room_state(room_id) {
            Some(state) => state.game_over,
            None => false,
        };
        if over {
            self.reset_room(room_id);
        }
        let ghost mid = self@;
        let started = self.player_ready(room_id, snake_id);
        let status = self.get_matching_status(room_id);
        proof {
            match room_index(pre.rooms, room_id@) {
                Some(i) => {
                    assert(room_index(mid.rooms, room_id@) == Some(i)) by {
                        assert(mid.rooms[i].room_id == room_id@);
                        let k = choose|k: int| 0 <= k < mid.rooms.len() && (#[trigger] mid.rooms[k]).room_id == room_id@;
                        assert(mid.rooms[k].room_id == mid.rooms[i].room_id);
                    }
                    assert(room_index(self@.rooms, room_id@) == Some(i)) by {
                        assert(self@.rooms[i].room_id == room_id@);
                        let k = choose|k: int| 0 <= k < self@.rooms.len() && (#[trigger] self@.rooms[k]).room_id == room_id@;
                        assert(self@.rooms[k].room_id == self@.rooms[i].room_id);
                    }
                    assert(ready_result(mid.rooms[i], self@.rooms[i], snake_id, started));
                    assert(self@.rooms =~= pre.rooms.update(i, self@.rooms[i]));
                },
                None => {
                    assert(room_index(self@.rooms, room_id@) is None);
                },
            }
        }
        (started, status)
    }

    /// Ticks every room and lists, room by room, what its players are sent: the room's state,
    /// followed, once its game is over, by its rankings.
    pub fn broadcasts_for_tick(&mut self) -> (r: Vec<(String, Vec<GameMessage>)>)
        requires
            old(self).wf(),
        ensures
            final(self).wf(),
            final(self)@.next_room_id == old(self)@.next_room_id,
            final(self)@.rooms.len() == old(self)@.rooms.len(),
            forall|i: int|
                0 <= i < old(self)@.rooms.len() ==> tick_result(
                    old(self)@.rooms[i],
                    #[trigger] final(self)@.rooms[i],
                ),
            r@.len() == final(self)@.rooms.len(),
            forall|i: int|
                0 <= i < r@.len() ==> {
                    let room = final(self)@.rooms[i];
                    let msgs = (#[trigger] r@[i]).1@;
                    &&& r@[i].0@ == room.room_id
                    &&& msgs.len() == (if room.game_over { 2int } else { 1int })
                    &&& msgs[0] matches GameMessage::GameState(st) && shows(st, room)
                    &&& room.game_over ==> (msgs[1] matches GameMessage::GameOver { rankings }
                        && rankings@ == ranked(score_pairs(room.snakes)))
                },
    {
        let states = self.update_all_rooms();
        let ghost post = self@;
        let mut out: Vec<(String, Vec<GameMessage>)> = Vec::new();
        let mut i: usize = 0;
        while i < states.len()
            invariant
                self@ == post,
                self.wf(),
                states@.len() == post.rooms.len(),
                forall|k: int|
                    0 <= k < states@.len() ==> (#[trigger] states@[k]).0@ == post.rooms[k].room_id
                        && shows(states@[k].1, post.rooms[k]),
                i <= states.len(),
                out@.len() == i,
                forall|k: int|
                    0 <= k < i ==> {
                        let room = post.rooms[k];
                        let msgs = (#[trigger] out@[k]).1@;
                        &&& out@[k].0@ == room.room_id
                        &&& msgs.len() == (if room.game_over { 2int } else { 1int })
                        &&& msgs[0] matches GameMessage::GameState(st) && shows(st, room)
                        &&& room.game_over ==> (msgs[1] matches GameMessage::GameOver { rankings }
                            && rankings@ == ranked(score_pairs(room.snakes)))
                    },
            decreases states.len() - i,
        {
            let name = states[i].0.clone();
            let state = states[i].1.clone_state();
            let over = state.game_over;
            let mut msgs: Vec<GameMessage> = Vec::new();
            msgs.push(GameMessage::GameState(state));
            if over {
                proof {
                    assert(self@.rooms[i as int].room_id == name@);
                    assert(room_index(self@.rooms, name@) == Some(i as int)) by {
                        let k = choose|k: int| 0 <= k < self@.rooms.len() && (#[trigger] self@.rooms[k]).room_id == name@;
                        assert(self@.rooms[k].room_id == self@.rooms[i as int].room_id);
                    }
                }
                match self.get_rankings(name.as_str()) {
                    Some(rankings) => {
                        msgs.push(GameMessage::GameOver { rankings });
                    },
                    None => {},
                }
            }
            out.push((name, msgs));
            i = i + 1;
        }
        out
    }
}

impl Default for GameManager {
    fn default() -> (r: Self)
        ensures
            r.wf(),
            r@ == (ManagerView { rooms: Seq::empty(), next_room_id: 1 }),
    {
        Self::new()
    }
}

} // verus!
