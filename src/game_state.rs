use vstd::prelude::*;

use crate::consts::{
    MAX_ACC, MAX_FIELD_SIZE, MAX_ITEMS, MAX_ITEM_R, MAX_PLAYERS, MAX_SPEED, MAX_TARGET_COORD,
    MAX_TURNS, MIN_ITEM_R, PLAYER_RADIUS, START_HEIGHT, START_MAX_PLAYERS, START_WIDTH,
};
use crate::field::{
    grid_cols, lemma_grid_size, lemma_start_field, field_height, field_width, item_target, lemma_field_monotone, lemma_rounded_sqrt, round_sqrt,
};
use crate::player_move::PlayerMove;
use vstd::arithmetic::div_mod::lemma_fundamental_div_mod;
use crate::random::{random_in_range, shuffle};
use crate::text::same_text;
use crate::ordering::{
    is_descending, lemma_sorted_is_descending, lemma_sorted_members, sort_by_score, sorted_by_score,
};
use crate::point::Point;

verus! {

/// A participant of a game.
#[derive(Clone, Debug)]
pub struct Player {
    pub name: String,
    pub pos: Point,
    pub speed: Point,
    pub target: Point,
    pub score: i64,
    pub radius: i32,
}

/// What a player is, with its name as a sequence of characters.
pub struct PlayerView {
    pub name: Seq<char>,
    pub pos: Point,
    pub speed: Point,
    pub target: Point,
    pub score: i64,
    pub radius: i32,
}

impl View for Player {
    type V = PlayerView;

    open spec fn view(&self) -> PlayerView {
        PlayerView {
            name: self.name@,
            pos: self.pos,
            speed: self.speed,
            target: self.target,
            score: self.score,
            radius: self.radius,
        }
    }
}

/// The players' views, in order.
pub open spec fn player_views(ps: Seq<Player>) -> Seq<PlayerView> {
    ps.map_values(|p: Player| p@)
}

/// Something to collect: a circle on the field.
#[derive(Clone, Copy, Debug, PartialEq, Eq, Structural)]
pub struct Item {
    pub pos: Point,
    pub radius: i32,
}

/// Two circles touch or overlap.
pub open spec fn circles_meet(a: Point, ra: int, b: Point, rb: int) -> bool {
    a.dist2_spec(b) <= (ra + rb) * (ra + rb)
}

impl Item {
    pub open spec fn touches(self, player: PlayerView) -> bool {
        circles_meet(self.pos, self.radius as int, player.pos, player.radius as int)
    }

    pub open spec fn overlaps(self, other: Item) -> bool {
        circles_meet(self.pos, self.radius as int, other.pos, other.radius as int)
    }

    /// Whether the player's circle meets this item's circle.
    pub fn intersects(&self, player: &Player) -> (r: bool)
        ensures
            r == self.touches(player@),
    {
        circles_intersect(self.pos, self.radius, player.pos, player.radius)
    }

    /// Whether the two items' circles meet.
    pub fn intersects_item(&self, another: &Item) -> (r: bool)
        ensures
            r == self.overlaps(*another),
    {
        circles_intersect(self.pos, self.radius, another.pos, another.radius)
    }
}

fn circles_intersect(a: Point, ra: i32, b: Point, rb: i32) -> (r: bool)
    ensures
        r == circles_meet(a, ra as int, b, rb as int),
{
    let sum = ra as i64 + rb as i64;
    let abs_sum: u128 = if sum < 0 { (-sum) as u128 } else { sum as u128 };
    proof {
        assert(abs_sum * abs_sum == sum * sum) by (nonlinear_arith)
            requires abs_sum == sum || abs_sum == -sum;
        assert(abs_sum * abs_sum <= 0x1_0000_0000_0000_0000) by (nonlinear_arith)
            requires abs_sum <= 0x1_0000_0000;
    }
    a.dist2(&b) <= abs_sum * abs_sum
}

/// The whole state of one game at one turn.
#[derive(Clone, Debug)]
pub struct GameState {
    pub width: i32,
    pub height: i32,
    pub turn: usize,
    pub max_turns: usize,
    pub players: Vec<Player>,
    pub items: Vec<Item>,
    pub game_id: String,
}

/// What a game state is, as plain values.
pub struct GameStateView {
    pub width: i32,
    pub height: i32,
    pub turn: usize,
    pub max_turns: usize,
    pub players: Seq<PlayerView>,
    pub items: Seq<Item>,
    pub game_id: Seq<char>,
}

impl View for GameState {
    type V = GameStateView;

    open spec fn view(&self) -> GameStateView {
        GameStateView {
            width: self.width,
            height: self.height,
            turn: self.turn,
            max_turns: self.max_turns,
            players: player_views(self.players@),
            items: self.items@,
            game_id: self.game_id@,
        }
    }
}

/// `v` lies in `[lo, hi]`.
pub open spec fn within(v: int, lo: int, hi: int) -> bool {
    lo <= v <= hi
}

/// The player's circle lies inside a `width` x `height` field.
pub open spec fn in_field(p: Player, width: int, height: int) -> bool {
    &&& within(p.pos.x as int, p.radius as int, width - p.radius)
    &&& within(p.pos.y as int, p.radius as int, height - p.radius)
}

/// The state a player is in between turns: inside the field, no faster than `MAX_SPEED` along
/// either axis, with a target of bounded magnitude, on a field wide enough to bounce in.
pub open spec fn valid_player(p: Player, width: int, height: int) -> bool {
    &&& 0 <= p.radius
    &&& 2 * p.radius + MAX_SPEED <= width <= MAX_FIELD_SIZE
    &&& 2 * p.radius + MAX_SPEED <= height <= MAX_FIELD_SIZE
    &&& in_field(p, width, height)
    &&& within(p.speed.x as int, -(MAX_SPEED as int), MAX_SPEED as int)
    &&& within(p.speed.y as int, -(MAX_SPEED as int), MAX_SPEED as int)
    &&& within(p.target.x as int, -MAX_TARGET_COORD, MAX_TARGET_COORD as int)
    &&& within(p.target.y as int, -MAX_TARGET_COORD, MAX_TARGET_COORD as int)
}

/// The acceleration a player applies: towards its target, clamped to length `MAX_ACC`.
pub open spec fn acceleration(p: Player) -> Point {
    let d = Point { x: (p.target.x - p.pos.x) as i32, y: (p.target.y - p.pos.y) as i32 };
    if d.len2_spec() > MAX_ACC * MAX_ACC {
        d.scaled(MAX_ACC as int)
    } else {
        d
    }
}

/// The speed after accelerating, clamped to length `MAX_SPEED`.
pub open spec fn accelerated_speed(p: Player) -> Point {
    let a = acceleration(p);
    let s = Point { x: (p.speed.x + a.x) as i32, y: (p.speed.y + a.y) as i32 };
    if s.len2_spec() > MAX_SPEED * MAX_SPEED {
        s.scaled(MAX_SPEED as int)
    } else {
        s
    }
}

/// A coordinate below `lo`, or at or above `hi`, is mirrored about that bound.
pub open spec fn reflected(pos: int, lo: int, hi: int) -> int {
    if pos < lo {
        2 * lo - pos
    } else if pos >= hi {
        2 * hi - pos
    } else {
        pos
    }
}

/// The velocity component is negated when the coordinate is mirrored.
pub open spec fn reflected_speed(pos: int, speed: int, lo: int, hi: int) -> int {
    if pos < lo || pos >= hi {
        -speed
    } else {
        speed
    }
}

/// The player after one turn of movement on a `width` x `height` field.
pub open spec fn moved_player(p: Player, width: int, height: int) -> Player {
    let s = accelerated_speed(p);
    let x = p.pos.x + s.x;
    let y = p.pos.y + s.y;
    let r = p.radius as int;
    Player {
        pos: Point {
            x: reflected(x, r, width - r) as i32,
            y: reflected(y, r, height - r) as i32,
        },
        speed: Point {
            x: reflected_speed(x, s.x as int, r, width - r) as i32,
            y: reflected_speed(y, s.y as int, r, height - r) as i32,
        },
        ..p
    }
}

proof fn lemma_component_bound(x: int, y: int, k: int)
    requires
        k >= 0,
        x * x + y * y <= k * k,
    ensures
        -k <= x <= k,
        -k <= y <= k,
{
    assert(-k <= x <= k) by (nonlinear_arith)
        requires k >= 0, x * x + y * y <= k * k;
    assert(-k <= y <= k) by (nonlinear_arith)
        requires k >= 0, x * x + y * y <= k * k;
}

/// Mirrors `pos` about `min_pos` or `max_pos` when it has left `[min_pos, max_pos)`, and then
/// negates `speed`.
fn clamp(pos: &mut i32, speed: &mut i32, min_pos: i32, max_pos: i32)
    requires
        i32::MIN <= 2 * min_pos - *old(pos) <= i32::MAX,
        i32::MIN <= 2 * max_pos - *old(pos) <= i32::MAX,
        *old(speed) > i32::MIN,
    ensures
        *final(pos) == reflected(*old(pos) as int, min_pos as int, max_pos as int),
        *final(speed) == reflected_speed(
            *old(pos) as int,
            *old(speed) as int,
            min_pos as int,
            max_pos as int,
        ),
{
    if *pos < min_pos {
        *pos = (2 * min_pos as i64 - *pos as i64) as i32;
        *speed = -*speed;
    } else if *pos >= max_pos {
        *pos = (2 * max_pos as i64 - *pos as i64) as i32;
        *speed = -*speed;
    }
}

/// Moves one player by one turn: accelerates towards its target (at most `MAX_ACC`), caps the
/// speed at `MAX_SPEED`, moves, and bounces off the edges of a `width` x `height` field.
pub fn next_turn_player_state(player: &mut Player, width: i32, height: i32)
    requires
        valid_player(*old(player), width as int, height as int),
    ensures
        *final(player) == moved_player(*old(player), width as int, height as int),
        valid_player(*final(player), width as int, height as int),
        within(acceleration(*old(player)).x as int, -(MAX_ACC as int), MAX_ACC as int),
        within(acceleration(*old(player)).y as int, -(MAX_ACC as int), MAX_ACC as int),
        acceleration(*old(player)).len2_spec() <= (MAX_ACC + 1) * (MAX_ACC + 1),
        final(player).speed.len2_spec() <= (MAX_SPEED + 1) * (MAX_SPEED + 1),
{
    let ghost p0 = *player;
    let mut acc = player.target.sub(player.pos);
    let max_acc = MAX_ACC as u64;
    if acc.len2() > max_acc * max_acc {
        acc = acc.scale(MAX_ACC);
    } else {
        proof {
            lemma_component_bound(acc.x as int, acc.y as int, MAX_ACC as int);
        }
    }
    assert(acc == acceleration(p0));
    player.speed.add_assign(acc);
    let max_speed = MAX_SPEED as u64;
    if player.speed.len2() > max_speed * max_speed {
        player.speed = player.speed.scale(MAX_SPEED);
    } else {
        proof {
            lemma_component_bound(player.speed.x as int, player.speed.y as int, MAX_SPEED as int);
        }
    }
    assert(player.speed == accelerated_speed(p0));
    assert(player.speed.len2_spec() <= (MAX_SPEED + 1) * (MAX_SPEED + 1));
    player.pos.add_assign(player.speed);
    let r = player.radius;
    clamp(&mut player.pos.x, &mut player.speed.x, r, width - r);
    clamp(&mut player.pos.y, &mut player.speed.y, r, height - r);
    proof {
        let s = accelerated_speed(p0);
        assert(player.speed.x == s.x || player.speed.x == -s.x);
        assert(player.speed.y == s.y || player.speed.y == -s.y);
        assert(player.speed.len2_spec() == s.len2_spec()) by (nonlinear_arith)
            requires
                player.speed.x == s.x || player.speed.x == -s.x,
                player.speed.y == s.y || player.speed.y == -s.y,
        ;
    }
}

/// The final standings of a game.
pub struct GameResults {
    pub players: Vec<Player>,
    pub game_id: String,
}

impl GameResults {
    /// The players of `state` by descending score (equal scores keep their order), and its id.
    pub fn new(state: GameState) -> (r: GameResults)
        ensures
            player_views(r.players@) == sorted_by_score(player_views(state.players@)),
            is_descending(player_views(r.players@)),
            r.game_id@ == state.game_id@,
    {
        proof {
            lemma_sorted_is_descending(player_views(state.players@));
        }
        GameResults { players: sort_by_score(state.players), game_id: state.game_id }
    }
}

/// What one turn produces: the next state, or the results once the last turn is played.
pub enum NextTurn {
    GameState(GameState),
    FinalResults(GameResults),
}

/// The items that remain after `p` takes every item its circle meets.
pub open spec fn claim(items: Seq<Item>, p: PlayerView) -> Seq<Item>
    decreases items.len(),
{
    if items.len() == 0 {
        items
    } else if items[0].touches(p) {
        claim(items.skip(1), p)
    } else {
        seq![items[0]] + claim(items.skip(1), p)
    }
}

pub open spec fn with_score(p: PlayerView, score: int) -> PlayerView {
    PlayerView { score: score as i64, ..p }
}

/// Player `id` takes what it touches, one point per item.
pub open spec fn collect_step(ps: Seq<PlayerView>, items: Seq<Item>, id: int) -> (
    Seq<PlayerView>,
    Seq<Item>,
) {
    let left = claim(items, ps[id]);
    (ps.update(id, with_score(ps[id], ps[id].score + items.len() - left.len())), left)
}

/// Players take items in the given order of indices; an item taken is gone for those after.
pub open spec fn collected(ps: Seq<PlayerView>, items: Seq<Item>, order: Seq<usize>) -> (
    Seq<PlayerView>,
    Seq<Item>,
)
    decreases order.len(),
{
    if order.len() == 0 {
        (ps, items)
    } else {
        let (ps1, items1) = collected(ps, items, order.drop_last());
        collect_step(ps1, items1, order.last() as int)
    }
}

/// No player name occurs twice.
pub open spec fn names_unique(ps: Seq<Player>) -> bool {
    forall|i: int, j: int| 0 <= i < j < ps.len() ==> ps[i].name@ != ps[j].name@
}

/// No two items overlap.
pub open spec fn items_disjoint(items: Seq<Item>) -> bool {
    forall|i: int, j: int| 0 <= i < j < items.len() ==> !items[i].overlaps(items[j])
}

/// `p` differs from `q` in its score at most.
pub open spec fn same_but_score(p: PlayerView, q: PlayerView) -> bool {
    p == with_score(q, p.score as int)
}

proof fn lemma_claim_shrinks(items: Seq<Item>, p: PlayerView)
    ensures
        claim(items, p).len() <= items.len(),
        forall|i: int|
            0 <= i < claim(items, p).len() ==> #[trigger] items.contains(claim(items, p)[i]),
    decreases items.len(),
{
    if items.len() > 0 {
        let rest = items.skip(1);
        lemma_claim_shrinks(rest, p);
        let c = claim(items, p);
        assert forall|i: int| 0 <= i < c.len() implies #[trigger] items.contains(c[i]) by {
            if items[0].touches(p) {
                assert(rest.contains(c[i]));
                let k = choose|k: int| 0 <= k < rest.len() && rest[k] == c[i];
                assert(items[k + 1] == c[i]);
            } else if i == 0 {
                assert(items[0] == c[i]);
            } else {
                assert(c[i] == claim(rest, p)[i - 1]);
                assert(rest.contains(c[i]));
                let k = choose|k: int| 0 <= k < rest.len() && rest[k] == c[i];
                assert(items[k + 1] == c[i]);
            }
        }
    }
}

proof fn lemma_disjoint_remove(items: Seq<Item>, k: int)
    requires
        items_disjoint(items),
        0 <= k < items.len(),
    ensures
        items_disjoint(items.remove(k)),
{
    let r = items.remove(k);
    assert forall|i: int, j: int| 0 <= i < j < r.len() implies !r[i].overlaps(r[j]) by {
        let i0 = if i < k { i } else { i + 1 };
        let j0 = if j < k { j } else { j + 1 };
        assert(r[i] == items[i0] && r[j] == items[j0]);
    }
}

impl GameState {
    /// Player `id` takes every item its circle meets, scanning the items from the last one.
    #[verifier::rlimit(40)]
    fn collect_for(&mut self, id: usize)
        requires
            id < old(self).players.len(),
            old(self).players@[id as int].score + old(self).items.len() <= i64::MAX,
            items_disjoint(old(self).items@),
        ensures
            (player_views(final(self).players@), final(self).items@) == collect_step(
                player_views(old(self).players@),
                old(self).items@,
                id as int,
            ),
            items_disjoint(final(self).items@),
            small_items(old(self).items@) ==> small_items(final(self).items@),
            final(self).items.len() <= old(self).items.len(),
            final(self).players@[id as int].score + final(self).items.len()
                == old(self).players@[id as int].score + old(self).items.len(),
            final(self).players@[id as int].score >= old(self).players@[id as int].score,
            final(self).width == old(self).width,
            final(self).height == old(self).height,
            final(self).turn == old(self).turn,
            final(self).max_turns == old(self).max_turns,
            final(self).game_id == old(self).game_id,
            final(self).players.len() == old(self).players.len(),
            forall|j: int|
                0 <= j < final(self).players.len() && j != id ==> final(self).players@[j]
                    == old(self).players@[j],
            final(self).players@[id as int]@ == with_score(
                old(self).players@[id as int]@,
                final(self).players@[id as int].score as int,
            ),
    {
        let ghost items0 = self.items@;
        let ghost p = self.players@[id as int]@;
        let ghost score0 = self.players@[id as int].score as int;
        let mut i = self.items.len();
        assert(items0.skip(items0.len() as int) =~= Seq::<Item>::empty());
        assert(items0.take(items0.len() as int) =~= items0);
        while i > 0
            invariant
                i <= items0.len(),
                id < self.players.len(),
                self.players.len() == old(self).players.len(),
                self.items@ == items0.take(i as int) + claim(items0.skip(i as int), p),
                self.players@[id as int].score == score0 + (items0.len() - i) - claim(
                    items0.skip(i as int),
                    p,
                ).len(),
                claim(items0.skip(i as int), p).len() <= items0.len() - i,
                score0 + items0.len() <= i64::MAX,
                self.players@[id as int]@ == with_score(p, self.players@[id as int].score as int),
                forall|j: int|
                    0 <= j < self.players.len() && j != id ==> self.players@[j] == old(
                        self,
                    ).players@[j],
                items_disjoint(self.items@),
                self.width == old(self).width,
                self.height == old(self).height,
                self.turn == old(self).turn,
                self.max_turns == old(self).max_turns,
                self.game_id == old(self).game_id,
                p == old(self).players@[id as int]@,
                items0 == old(self).items@,
            decreases i,
        {
            i = i - 1;
            let ghost suffix = items0.skip(i as int);
            assert(suffix.skip(1) =~= items0.skip(i + 1));
            assert(suffix[0] == items0[i as int]);
            assert(self.items@[i as int] == items0[i as int]);
            proof {
                lemma_claim_shrinks(suffix, p);
            }
            if self.items[i].intersects(&self.players[id]) {
                assert(self.players@[id as int]@.pos == p.pos);
                self.players[id].score = self.players[id].score + 1;
                let ghost before = self.items@;
                self.items.remove(i);
                proof {
                    lemma_disjoint_remove(before, i as int);
                }
                assert(self.items@ =~= items0.take(i as int) + claim(suffix, p));
            } else {
                assert(self.items@ =~= items0.take(i as int) + claim(suffix, p));
            }
        }
        assert(items0.skip(0) =~= items0);
        assert(items0.take(0) + claim(items0, p) =~= claim(items0, p));
        proof {
            lemma_claim_shrinks(items0, p);
            if small_items(items0) {
                let c = claim(items0, p);
                assert forall|i: int| 0 <= i < c.len() implies MIN_ITEM_R <= (#[trigger] c[i]).radius
                    < MAX_ITEM_R by {
                    assert(items0.contains(c[i]));
                }
            }
        }
        assert(player_views(self.players@) =~= player_views(old(self).players@).update(
            id as int,
            with_score(p, score0 + items0.len() - claim(items0, p).len()),
        ));
    }
}

/// Each player moved by one turn on a `width` x `height` field.
pub open spec fn moved_players(ps: Seq<Player>, width: int, height: int) -> Seq<Player> {
    ps.map_values(|p: Player| moved_player(p, width, height))
}

impl GameState {
    /// The invariant of a game in progress: a bounded number of players with distinct names,
    /// each inside the field and moving within bounds; a field no smaller than the starting
    /// one and no larger than the current player count calls for; no two items overlapping;
    /// a turn before the last.
    pub open spec fn wf(&self) -> bool {
        &&& self.players.len() <= MAX_PLAYERS
        &&& START_WIDTH <= self.width <= field_width(self.players.len() as int)
        &&& START_HEIGHT <= self.height <= field_height(self.players.len() as int)
        &&& self.turn < self.max_turns
        &&& names_unique(self.players@)
        &&& forall|i: int|
            0 <= i < self.players.len() ==> valid_player(
                #[trigger] self.players@[i],
                self.width as int,
                self.height as int,
            )
        &&& items_disjoint(self.items@)
        &&& small_items(self.items@)
        &&& self.items.len() <= item_target(self.players.len() as int)
    }

    /// Every score can take every item without overflowing.
    pub open spec fn scores_fit(&self) -> bool {
        forall|i: int|
            0 <= i < self.players.len() ==> #[trigger] self.players@[i].score + self.items.len()
                <= i64::MAX
    }

    /// Players take items in the order of `order`, which lists player indices: each removes
    /// every item its circle meets, scanning items from the last, and scores one point for each.
    #[verifier::rlimit(40)]
    pub fn collect_items(&mut self, order: &Vec<usize>)
        requires
            forall|k: int| 0 <= k < order.len() ==> #[trigger] order@[k] < old(self).players.len(),
            old(self).scores_fit(),
            items_disjoint(old(self).items@),
        ensures
            (player_views(final(self).players@), final(self).items@) == collected(
                player_views(old(self).players@),
                old(self).items@,
                order@,
            ),
            final(self).scores_fit(),
            items_disjoint(final(self).items@),
            small_items(old(self).items@) ==> small_items(final(self).items@),
            final(self).items.len() <= old(self).items.len(),
            final(self).width == old(self).width,
            final(self).height == old(self).height,
            final(self).turn == old(self).turn,
            final(self).max_turns == old(self).max_turns,
            final(self).game_id == old(self).game_id,
            final(self).players.len() == old(self).players.len(),
            forall|j: int|
                0 <= j < final(self).players.len() ==> same_but_score(
                    #[trigger] final(self).players@[j]@,
                    old(self).players@[j]@,
                ),
            forall|j: int|
                0 <= j < final(self).players.len() ==> old(self).players@[j].score <= (
                #[trigger] final(self).players@[j]).score && final(self).players@[j].score
                    + final(self).items.len() <= old(self).players@[j].score + old(self).items.len(),
    {
        let mut k: usize = 0;
        while k < order.len()
            invariant
                k <= order.len(),
                forall|q: int| 0 <= q < order.len() ==> #[trigger] order@[q] < self.players.len(),
                (player_views(self.players@), self.items@) == collected(
                    player_views(old(self).players@),
                    old(self).items@,
                    order@.take(k as int),
                ),
                self.scores_fit(),
                items_disjoint(self.items@),
                small_items(old(self).items@) ==> small_items(self.items@),
                self.items.len() <= old(self).items.len(),
                self.width == old(self).width,
                self.height == old(self).height,
                self.turn == old(self).turn,
                self.max_turns == old(self).max_turns,
                self.game_id == old(self).game_id,
                self.players.len() == old(self).players.len(),
                forall|j: int|
                    0 <= j < self.players.len() ==> same_but_score(
                        #[trigger] self.players@[j]@,
                        old(self).players@[j]@,
                    ),
                forall|j: int|
                    0 <= j < self.players.len() ==> old(self).players@[j].score <= (
                    #[trigger] self.players@[j]).score && self.players@[j].score + self.items.len()
                        <= old(self).players@[j].score + old(self).items.len(),
            decreases order.len() - k,
        {
            let id = order[k];
            assert(order@[k as int] == id);
            let ghost before = *self;
            self.collect_for(id);
            proof {
                assert(order@.take(k + 1).drop_last() =~= order@.take(k as int));
                assert forall|i: int| 0 <= i < self.players.len() implies #[trigger] self.players@[i].score
                    + self.items.len() <= i64::MAX by {
                    if i != id {
                        assert(self.players@[i] == before.players@[i]);
                        assert(before.players@[i].score + before.items.len() <= i64::MAX);
                        lemma_claim_shrinks(before.items@, before.players@[id as int]@);
                    }
                }
                assert forall|j: int| 0 <= j < self.players.len() implies same_but_score(
                    #[trigger] self.players@[j]@,
                    old(self).players@[j]@,
                ) by {
                    assert(same_but_score(before.players@[j]@, old(self).players@[j]@));
                }
                assert forall|j: int| 0 <= j < self.players.len() implies old(self).players@[j].score
                    <= (#[trigger] self.players@[j]).score && self.players@[j].score
                    + self.items.len() <= old(self).players@[j].score + old(self).items.len() by {
                    assert(old(self).players@[j].score <= before.players@[j].score);
                }
            }
            k = k + 1;
        }
        assert(order@.take(order.len() as int) =~= order@);
    }

    /// Moves every player by one turn.
    fn move_players(&mut self)
        requires
            forall|i: int|
                0 <= i < old(self).players.len() ==> valid_player(
                    #[trigger] old(self).players@[i],
                    old(self).width as int,
                    old(self).height as int,
                ),
        ensures
            final(self).players@ == moved_players(
                old(self).players@,
                old(self).width as int,
                old(self).height as int,
            ),
            forall|i: int|
                0 <= i < final(self).players.len() ==> valid_player(
                    #[trigger] final(self).players@[i],
                    final(self).width as int,
                    final(self).height as int,
                ),
            final(self).width == old(self).width,
            final(self).height == old(self).height,
            final(self).turn == old(self).turn,
            final(self).max_turns == old(self).max_turns,
            final(self).game_id == old(self).game_id,
            final(self).items == old(self).items,
    {
        let mut i: usize = 0;
        let w = self.width;
        let h = self.height;
        while i < self.players.len()
            invariant
                i <= self.players.len(),
                self.players.len() == old(self).players.len(),
                w == self.width && h == self.height,
                forall|j: int|
                    0 <= j < i ==> #[trigger] self.players@[j] == moved_player(
                        old(self).players@[j],
                        w as int,
                        h as int,
                    ),
                forall|j: int|
                    i <= j < self.players.len() ==> #[trigger] self.players@[j] == old(
                        self,
                    ).players@[j],
                forall|j: int|
                    0 <= j < self.players.len() ==> valid_player(
                        #[trigger] self.players@[j],
                        w as int,
                        h as int,
                    ),
                self.width == old(self).width,
                self.height == old(self).height,
                self.turn == old(self).turn,
                self.max_turns == old(self).max_turns,
                self.game_id == old(self).game_id,
                self.items == old(self).items,
            decreases self.players.len() - i,
        {
            next_turn_player_state(&mut self.players[i], w, h);
            i = i + 1;
        }
        assert(self.players@ =~= moved_players(old(self).players@, w as int, h as int));
    }
}

/// A freshly spawned item: a radius in `[MIN_ITEM_R, MAX_ITEM_R)` and its circle inside the field.
pub open spec fn fresh_item(it: Item, width: int, height: int) -> bool {
    &&& MIN_ITEM_R <= it.radius < MAX_ITEM_R
    &&& it.radius <= it.pos.x < width - it.radius
    &&& it.radius <= it.pos.y < height - it.radius
}

/// `target` with both coordinates divided by ten (rounding towards zero) when either of them
/// exceeds `MAX_TARGET_COORD` in magnitude.
pub open spec fn tamed_target(target: Point) -> Point {
    if target.x > MAX_TARGET_COORD || target.x < -MAX_TARGET_COORD || target.y > MAX_TARGET_COORD
        || target.y < -MAX_TARGET_COORD {
        Point { x: div_ten(target.x as int) as i32, y: div_ten(target.y as int) as i32 }
    } else {
        target
    }
}

/// `v / 10`, rounded towards zero.
pub open spec fn div_ten(v: int) -> int {
    if v >= 0 {
        v / 10
    } else {
        -((-v) / 10)
    }
}

pub open spec fn with_target(p: Player, target: Point) -> Player {
    Player { target, ..p }
}

/// `after` is `before` with the command of `name` towards `target` applied: a known player gets
/// the tamed target; an unknown name joins at rest inside the field with that target.
pub open spec fn applies_move(before: GameState, name: Seq<char>, target: Point, after: GameState) -> bool {
    &&& has_named(before.players@, name) ==> exists|i: int|
        is_first_named(before.players@, name, i) && after.players@ == before.players@.update(
            i,
            with_target(before.players@[i], tamed_target(target)),
        )
    &&& !has_named(before.players@, name) ==> {
        let n = before.players.len() as int;
        let p = after.players@[n];
        &&& after.players.len() == n + 1
        &&& after.players@.take(n) == before.players@
        &&& p.name@ == name
        &&& p.speed == Point { x: 0, y: 0 }
        &&& p.target == tamed_target(target)
        &&& p.score == 0
        &&& p.radius == PLAYER_RADIUS
        &&& PLAYER_RADIUS <= p.pos.x < before.width - PLAYER_RADIUS
        &&& PLAYER_RADIUS <= p.pos.y < before.height - PLAYER_RADIUS
    }
    &&& after.items == before.items
    &&& after.width == before.width
    &&& after.height == before.height
    &&& after.turn == before.turn
    &&& after.max_turns == before.max_turns
    &&& after.game_id == before.game_id
}

/// The index of the first player named `name`, if any.
pub open spec fn is_first_named(ps: Seq<Player>, name: Seq<char>, i: int) -> bool {
    &&& 0 <= i < ps.len()
    &&& ps[i].name@ == name
    &&& forall|j: int| 0 <= j < i ==> ps[j].name@ != name
}

pub open spec fn has_named(ps: Seq<Player>, name: Seq<char>) -> bool {
    exists|i: int| 0 <= i < ps.len() && ps[i].name@ == name
}

fn div_ten_exec(v: i32) -> (r: i32)
    ensures
        r == div_ten(v as int),
{
    if v >= 0 {
        v / 10
    } else {
        let a = -(v as i64);
        -((a / 10) as i32)
    }
}

impl GameState {
    /// Sets the field size from the player count.
    fn update_size(&mut self)
        requires
            old(self).players.len() <= MAX_PLAYERS,
        ensures
            final(self).width == field_width(old(self).players.len() as int),
            final(self).height == field_height(old(self).players.len() as int),
            final(self).players == old(self).players,
            final(self).items == old(self).items,
            final(self).turn == old(self).turn,
            final(self).max_turns == old(self).max_turns,
            final(self).game_id == old(self).game_id,
    {
        let n = self.players.len();
        proof {
            lemma_field_monotone(n as int, n as int);
        }
        if n < START_MAX_PLAYERS {
            self.width = START_WIDTH;
            self.height = START_HEIGHT;
        } else {
            let m_w: u64 = 800000 * (n as u64);
            let m_h: u64 = 450000 * (n as u64);
            let w = round_sqrt(m_w);
            let h = round_sqrt(m_h);
            proof {
                lemma_rounded_sqrt(w as int, m_w as int);
                lemma_rounded_sqrt(h as int, m_h as int);
                let ni = n as int;
                assert(4000000 * ni / 5 == 800000 * ni) by (nonlinear_arith);
                assert(2250000 * ni / 5 == 450000 * ni) by (nonlinear_arith);
            }
            self.width = w as i32;
            self.height = h as i32;
        }
    }

    /// How many items the field holds for the current player count.
    pub fn calc_max_items(&self) -> (r: usize)
        requires
            self.players.len() <= MAX_PLAYERS,
        ensures
            r == item_target(self.players.len() as int),
    {
        let n = self.players.len();
        if n < START_MAX_PLAYERS {
            MAX_ITEMS
        } else {
            MAX_ITEMS * n / START_MAX_PLAYERS
        }
    }

    /// A random position at which a circle of `radius` lies inside the field.
    fn gen_rand_position(&self, radius: i32) -> (r: Point)
        requires
            0 <= radius,
            radius < self.width - radius,
            radius < self.height - radius,
        ensures
            radius <= r.x < self.width - radius,
            radius <= r.y < self.height - radius,
    {
        let x = random_in_range(radius, self.width - radius);
        let y = random_in_range(radius, self.height - radius);
        Point { x, y }
    }

    /// Adds `candidate` unless it overlaps an item already on the field.
    pub fn try_add_item(&mut self, candidate: Item) -> (added: bool)
        ensures
            added == !(exists|i: int|
                0 <= i < old(self).items.len() && (#[trigger] old(self).items@[i]).overlaps(
                    candidate,
                )),
            final(self).items@ == if added {
                old(self).items@.push(candidate)
            } else {
                old(self).items@
            },
            final(self).players == old(self).players,
            final(self).width == old(self).width,
            final(self).height == old(self).height,
            final(self).turn == old(self).turn,
            final(self).max_turns == old(self).max_turns,
            final(self).game_id == old(self).game_id,
    {
        let mut i: usize = 0;
        while i < self.items.len()
            invariant
                i <= self.items.len(),
                forall|j: int| 0 <= j < i ==> !(#[trigger] self.items@[j]).overlaps(candidate),
            decreases self.items.len() - i,
        {
            if self.items[i].intersects_item(&candidate) {
                return false;
            }
            i = i + 1;
        }
        self.items.push(candidate);
        true
    }

    /// Spawns random items until the field holds `item_target` of them, dropping candidates that
    /// overlap an item already there. After `SPAWN_ATTEMPTS` random candidates it places
    /// items of the smallest radius at the first free positions instead. Returns whether the
    /// target was reached; it is missed only when no position of the field is free.
    #[verifier::rlimit(40)]
    pub fn add_more_items(&mut self) -> (filled: bool)
        requires
            old(self).players.len() <= MAX_PLAYERS,
            START_WIDTH <= old(self).width,
            START_HEIGHT <= old(self).height,
            items_disjoint(old(self).items@),
        ensures
            final(self).items@.take(old(self).items.len() as int) == old(self).items@,
            final(self).items.len() >= old(self).items.len(),
            forall|i: int|
                old(self).items.len() <= i < final(self).items.len() ==> fresh_item(
                    #[trigger] final(self).items@[i],
                    final(self).width as int,
                    final(self).height as int,
                ),
            items_disjoint(final(self).items@),
            final(self).items.len() <= old(self).items.len() || final(self).items.len() <= item_target(
                old(self).players.len() as int,
            ),
            filled <==> final(self).items.len() >= item_target(old(self).players.len() as int),
            filled && old(self).items.len() <= item_target(old(self).players.len() as int)
                ==> final(self).items.len() == item_target(old(self).players.len() as int),
            !filled ==> no_room(
                final(self).items@,
                final(self).width as int,
                final(self).height as int,
            ),
            final(self).players == old(self).players,
            final(self).width == old(self).width,
            final(self).height == old(self).height,
            final(self).turn == old(self).turn,
            final(self).max_turns == old(self).max_turns,
            final(self).game_id == old(self).game_id,
    {
        let target = self.calc_max_items();
        let mut attempts: u64 = SPAWN_ATTEMPTS;
        let ghost old_items = self.items@;
        while self.items.len() < target && attempts > 0
            invariant
                old_items == old(self).items@,
                target == item_target(self.players.len() as int),
                self.items@.take(old_items.len() as int) == old_items,
                self.items.len() >= old_items.len(),
                self.items.len() <= old_items.len() || self.items.len() <= target,
                forall|i: int|
                    old_items.len() <= i < self.items.len() ==> fresh_item(
                        #[trigger] self.items@[i],
                        self.width as int,
                        self.height as int,
                    ),
                items_disjoint(self.items@),
                self.players == old(self).players,
                self.width == old(self).width,
                self.height == old(self).height,
                self.turn == old(self).turn,
                self.max_turns == old(self).max_turns,
                self.game_id == old(self).game_id,
                START_WIDTH <= self.width,
                START_HEIGHT <= self.height,
            decreases attempts,
        {
            attempts = attempts - 1;
            let r = random_in_range(MIN_ITEM_R, MAX_ITEM_R);
            let pos = self.gen_rand_position(r);
            let candidate = Item { pos, radius: r };
            let ghost before = self.items@;
            if self.try_add_item(candidate) {
                assert(self.items@.take(old_items.len() as int) =~= before.take(
                    old_items.len() as int,
                ));
                assert forall|i: int, j: int| 0 <= i < j < self.items@.len() implies !self.items@[i].overlaps(
                    self.items@[j],
                ) by {
                    if j == before.len() {
                        assert(self.items@[i] == before[i]);
                    } else {
                        assert(self.items@[i] == before[i] && self.items@[j] == before[j]);
                    }
                }
            }
        }
        while self.items.len() < target
            invariant
                old_items == old(self).items@,
                target == item_target(self.players.len() as int),
                self.items@.take(old_items.len() as int) == old_items,
                self.items.len() >= old_items.len(),
                self.items.len() <= old_items.len() || self.items.len() <= target,
                forall|i: int|
                    old_items.len() <= i < self.items.len() ==> fresh_item(
                        #[trigger] self.items@[i],
                        self.width as int,
                        self.height as int,
                    ),
                items_disjoint(self.items@),
                self.players == old(self).players,
                self.width == old(self).width,
                self.height == old(self).height,
                self.turn == old(self).turn,
                self.max_turns == old(self).max_turns,
                self.game_id == old(self).game_id,
                START_WIDTH <= self.width,
                START_HEIGHT <= self.height,
            decreases target - self.items.len(),
        {
            match self.find_free_spot() {
                Some(pos) => {
                    let item = Item { pos, radius: MIN_ITEM_R };
                    let ghost before = self.items@;
                    self.items.push(item);
                    assert(self.items@.take(old_items.len() as int) =~= before.take(
                        old_items.len() as int,
                    ));
                    assert forall|i: int, j: int| 0 <= i < j < self.items@.len() implies !self.items@[i].overlaps(
                        self.items@[j],
                    ) by {
                        if j == before.len() {
                            assert(self.items@[i] == before[i]);
                            assert(!before[i].overlaps(item));
                        } else {
                            assert(self.items@[i] == before[i] && self.items@[j] == before[j]);
                        }
                    }
                },
                None => {
                    return false;
                },
            }
        }
        true
    }

    /// The first position, row by row, where an item of the smallest radius fits inside the
    /// field without overlapping an item; `None` when there is none.
    fn find_free_spot(&self) -> (r: Option<Point>)
        requires
            START_WIDTH <= self.width,
            START_HEIGHT <= self.height,
        ensures
            match r {
                Some(p) => {
                    &&& fresh_item(
                        Item { pos: p, radius: MIN_ITEM_R },
                        self.width as int,
                        self.height as int,
                    )
                    &&& forall|i: int|
                        0 <= i < self.items.len() ==> !(#[trigger] self.items@[i]).overlaps(
                            Item { pos: p, radius: MIN_ITEM_R },
                        )
                },
                None => no_room(self.items@, self.width as int, self.height as int),
            },
    {
        let r = MIN_ITEM_R;
        let mut y = r;
        while y < self.height - r
            invariant
                r == MIN_ITEM_R,
                START_HEIGHT <= self.height,
                START_WIDTH <= self.width,
                r <= y <= self.height - r,
                forall|x: int, y2: int|
                    r <= x < self.width - r && r <= y2 < y ==> #[trigger] blocked(self.items@, x, y2),
            decreases self.height - r - y,
        {
            let mut x = r;
            while x < self.width - r
                invariant
                    r == MIN_ITEM_R,
                    START_WIDTH <= self.width,
                    r <= y < self.height - r,
                    r <= x <= self.width - r,
                    forall|x2: int| r <= x2 < x ==> #[trigger] blocked(self.items@, x2, y as int),
                decreases self.width - r - x,
            {
                let candidate = Item { pos: Point { x, y }, radius: r };
                let mut i: usize = 0;
                let mut hit = false;
                while i < self.items.len() && !hit
                    invariant
                        i <= self.items.len(),
                        candidate == (Item { pos: Point { x, y }, radius: MIN_ITEM_R }),
                        !hit ==> forall|j: int| 0 <= j < i ==> !(#[trigger] self.items@[j]).overlaps(candidate),
                        hit ==> blocked(self.items@, x as int, y as int),
                    decreases self.items.len() - i + (if hit { 0int } else { 1int }),
                {
                    if self.items[i].intersects_item(&candidate) {
                        assert(candidate == Item {
                            pos: Point { x: (x as int) as i32, y: (y as int) as i32 },
                            radius: MIN_ITEM_R,
                        });
                        assert(self.items@[i as int].overlaps(candidate));
                        hit = true;
                    } else {
                        i = i + 1;
                    }
                }
                if !hit {
                    return Some(Point { x, y });
                }
                x = x + 1;
            }
            assert forall|x2: int, y2: int|
                r <= x2 < self.width - r && r <= y2 < y + 1 implies #[trigger] blocked(
                self.items@,
                x2,
                y2,
            ) by {
                if y2 == y {
                    assert(blocked(self.items@, x2, y as int));
                }
            }
            y = y + 1;
        }
        assert forall|x: int, y2: int|
            r <= x < self.width - r && r <= y2 < self.height - r implies #[trigger] blocked(
            self.items@,
            x,
            y2,
        ) by {}
        None
    }
}

/// Random candidates one respawn draws before it searches the field position by position.
pub const SPAWN_ATTEMPTS: u64 = 1000000;

/// An item of the smallest radius at `(x, y)` would overlap an item of `items`.
pub open spec fn blocked(items: Seq<Item>, x: int, y: int) -> bool {
    exists|i: int|
        0 <= i < items.len() && items[i].overlaps(
            Item { pos: Point { x: x as i32, y: y as i32 }, radius: MIN_ITEM_R },
        )
}

/// No position of a `width` x `height` field can take an item of the smallest radius, and so
/// none of any larger radius, without overlapping an item.
pub open spec fn no_room(items: Seq<Item>, width: int, height: int) -> bool {
    forall|x: int, y: int|
        MIN_ITEM_R <= x < width - MIN_ITEM_R && MIN_ITEM_R <= y < height - MIN_ITEM_R
            ==> #[trigger] blocked(items, x, y)
}

/// The indices `0..n`.
pub open spec fn index_seq(n: nat) -> Seq<usize> {
    Seq::new(n, |i: int| i as usize)
}

/// `order` lists each index of `0..n` once.
pub open spec fn is_shuffle(order: Seq<usize>, n: nat) -> bool {
    order.to_multiset() == index_seq(n).to_multiset()
}

/// Players and items after movement and collection, for one collection order.
pub open spec fn turn_outcome(v: GameState, order: Seq<usize>) -> (Seq<PlayerView>, Seq<Item>) {
    collected(
        player_views(moved_players(v.players@, v.width as int, v.height as int)),
        v.items@,
        order,
    )
}

/// No item overlaps an item of the smallest radius at `p`.
pub open spec fn spot_free(items: Seq<Item>, p: Point) -> bool {
    forall|i: int| 0 <= i < items.len() ==> !(#[trigger] items[i]).overlaps(Item { pos: p, radius: MIN_ITEM_R })
}

/// Spots at least 240 apart along one axis: no item of radius under `MAX_ITEM_R` reaches two.
pub open spec fn spread(ps: Seq<Point>) -> bool {
    forall|a: int, b: int|
        0 <= a < ps.len() && 0 <= b < ps.len() && a != b ==> (ps[a].x - ps[b].x >= 240 || ps[b].x
            - ps[a].x >= 240 || ps[a].y - ps[b].y >= 240 || ps[b].y - ps[a].y >= 240)
}

pub open spec fn small_items(items: Seq<Item>) -> bool {
    forall|i: int| 0 <= i < items.len() ==> MIN_ITEM_R <= (#[trigger] items[i]).radius < MAX_ITEM_R
}

proof fn lemma_reach(e: Item, p: Point)
    requires
        MIN_ITEM_R <= e.radius < MAX_ITEM_R,
        e.overlaps(Item { pos: p, radius: MIN_ITEM_R }),
    ensures
        -119 <= e.pos.x - p.x <= 119,
        -119 <= e.pos.y - p.y <= 119,
{
    let dx = e.pos.x - p.x;
    let dy = e.pos.y - p.y;
    let s = e.radius + MIN_ITEM_R;
    assert(dx * dx + dy * dy <= s * s);
    assert(-119 <= dx <= 119 && -119 <= dy <= 119) by (nonlinear_arith)
        requires dx * dx + dy * dy <= s * s, 40 <= s <= 119;
}

/// Fewer items than spread spots leave one spot free.
proof fn lemma_free_spot(items: Seq<Item>, ps: Seq<Point>)
    requires
        items.len() < ps.len(),
        spread(ps),
        small_items(items),
    ensures
        exists|k: int| 0 <= k < ps.len() && spot_free(items, #[trigger] ps[k]),
    decreases items.len(),
{
    if items.len() == 0 {
        assert(spot_free(items, ps[0]));
    } else {
        let e = items.last();
        let rest = items.drop_last();
        assert(small_items(rest)) by {
            assert forall|i: int| 0 <= i < rest.len() implies MIN_ITEM_R <= (#[trigger] rest[i]).radius
                < MAX_ITEM_R by {
                assert(rest[i] == items[i]);
            }
        }
        if exists|k: int| 0 <= k < ps.len() && e.overlaps(Item { pos: #[trigger] ps[k], radius: MIN_ITEM_R }) {
            let k0 = choose|k: int| 0 <= k < ps.len() && e.overlaps(Item { pos: #[trigger] ps[k], radius: MIN_ITEM_R });
            let qs = ps.remove(k0);
            assert(spread(qs)) by {
                assert forall|a: int, b: int| 0 <= a < qs.len() && 0 <= b < qs.len() && a != b implies (
                qs[a].x - qs[b].x >= 240 || qs[b].x - qs[a].x >= 240 || qs[a].y - qs[b].y >= 240
                    || qs[b].y - qs[a].y >= 240) by {
                    let a0 = if a < k0 { a } else { a + 1 };
                    let b0 = if b < k0 { b } else { b + 1 };
                    assert(qs[a] == ps[a0] && qs[b] == ps[b0]);
                }
            }
            lemma_free_spot(rest, qs);
            let k1 = choose|k: int| 0 <= k < qs.len() && spot_free(rest, #[trigger] qs[k]);
            let k = if k1 < k0 { k1 } else { k1 + 1 };
            assert(ps[k] == qs[k1]);
            lemma_reach(e, ps[k0]);
            if e.overlaps(Item { pos: ps[k], radius: MIN_ITEM_R }) {
                lemma_reach(e, ps[k]);
            }
            assert(spot_free(items, ps[k])) by {
                assert forall|i: int| 0 <= i < items.len() implies !(#[trigger] items[i]).overlaps(
                    Item { pos: ps[k], radius: MIN_ITEM_R },
                ) by {
                    if i < rest.len() {
                        assert(items[i] == rest[i]);
                    }
                }
            }
        } else {
            lemma_free_spot(rest, ps);
            let k = choose|k: int| 0 <= k < ps.len() && spot_free(rest, #[trigger] ps[k]);
            assert(spot_free(items, ps[k])) by {
                assert forall|i: int| 0 <= i < items.len() implies !(#[trigger] items[i]).overlaps(
                    Item { pos: ps[k], radius: MIN_ITEM_R },
                ) by {
                    if i < rest.len() {
                        assert(items[i] == rest[i]);
                    }
                }
            }
        }
    }
}

/// Spots 240 apart, row by row, that fit a `width` x `height` field with a margin of 20.
pub open spec fn grid_spots(width: int, height: int) -> Seq<Point> {
    let c = grid_cols(width);
    Seq::new(
        (c * grid_cols(height)) as nat,
        |k: int| Point { x: (20 + 240 * (k % c)) as i32, y: (20 + 240 * (k / c)) as i32 },
    )
}

proof fn lemma_grid_spots(width: int, height: int)
    requires
        START_WIDTH <= width <= MAX_FIELD_SIZE,
        START_HEIGHT <= height <= MAX_FIELD_SIZE,
    ensures
        spread(grid_spots(width, height)),
        forall|k: int|
            0 <= k < grid_spots(width, height).len() ==> {
                let p = #[trigger] grid_spots(width, height)[k];
                &&& MIN_ITEM_R <= p.x < width - MIN_ITEM_R
                &&& MIN_ITEM_R <= p.y < height - MIN_ITEM_R
            },
{
    let c = grid_cols(width);
    let r = grid_cols(height);
    let g = grid_spots(width, height);
    assert(c >= 1 && r >= 1);
    assert(240 * (c - 1) <= width - 41 && 240 * (r - 1) <= height - 41);
    assert forall|k: int| 0 <= k < g.len() implies {
        let p = #[trigger] g[k];
        &&& MIN_ITEM_R <= p.x < width - MIN_ITEM_R
        &&& MIN_ITEM_R <= p.y < height - MIN_ITEM_R
    } by {
        lemma_fundamental_div_mod(k, c);
        assert(0 <= k % c < c && 0 <= k / c < r) by (nonlinear_arith)
            requires 0 <= k < c * r, c >= 1, k == c * (k / c) + (k % c), r >= 1;
        assert(240 * (k % c) <= 240 * (c - 1) && 240 * (k / c) <= 240 * (r - 1));
    }
    assert forall|a: int, b: int| 0 <= a < g.len() && 0 <= b < g.len() && a != b implies (g[a].x
        - g[b].x >= 240 || g[b].x - g[a].x >= 240 || g[a].y - g[b].y >= 240 || g[b].y - g[a].y
        >= 240) by {
        lemma_fundamental_div_mod(a, c);
        lemma_fundamental_div_mod(b, c);
        assert(0 <= a % c < c && 0 <= a / c < r) by (nonlinear_arith)
            requires 0 <= a < c * r, c >= 1, a == c * (a / c) + (a % c), r >= 1;
        assert(0 <= b % c < c && 0 <= b / c < r) by (nonlinear_arith)
            requires 0 <= b < c * r, c >= 1, b == c * (b / c) + (b % c), r >= 1;
        assert(240 * (c - 1) + 20 < width && 240 * (r - 1) + 20 < height);
        if a % c == b % c {
            assert(a / c != b / c);
        }
    }
}

/// A field with fewer items of legal radius than grid spots has room for another item.
proof fn lemma_has_room(items: Seq<Item>, width: int, height: int)
    requires
        START_WIDTH <= width <= MAX_FIELD_SIZE,
        START_HEIGHT <= height <= MAX_FIELD_SIZE,
        items.len() < grid_spots(width, height).len(),
        small_items(items),
    ensures
        !no_room(items, width, height),
{
    let ps = grid_spots(width, height);
    lemma_grid_spots(width, height);
    lemma_free_spot(items, ps);
    let k = choose|k: int| 0 <= k < ps.len() && spot_free(items, #[trigger] ps[k]);
    let p = ps[k];
    assert(Point { x: (p.x as int) as i32, y: (p.y as int) as i32 } == p);
    assert(!blocked(items, p.x as int, p.y as int));
}

impl GameState {
    /// A new game: turn 0, the starting field, no players, and the field filled with items.
    pub fn new(game_id: &str) -> (r: GameState)
        ensures
            r.wf(),
            r.turn == 0,
            r.max_turns == MAX_TURNS,
            r.width == START_WIDTH,
            r.height == START_HEIGHT,
            r.players@.len() == 0,
            r.game_id@ == game_id@,
            r.items.len() == MAX_ITEMS,
            forall|i: int| 0 <= i < r.items.len() ==> fresh_item(#[trigger] r.items@[i], START_WIDTH as int, START_HEIGHT as int),
    {
        let mut res = GameState {
            width: START_WIDTH,
            height: START_HEIGHT,
            turn: 0,
            max_turns: MAX_TURNS,
            players: Vec::new(),
            items: Vec::new(),
            game_id: game_id.to_owned(),
        };
        let filled = res.add_more_items();
        proof {
            lemma_field_monotone(0, 0);
            if !filled {
                assert(small_items(res.items@)) by {
                    assert forall|i: int| 0 <= i < res.items.len() implies MIN_ITEM_R <= (
                    #[trigger] res.items@[i]).radius < MAX_ITEM_R by {
                        assert(fresh_item(res.items@[i], START_WIDTH as int, START_HEIGHT as int));
                    }
                }
                assert(grid_cols(2000) == 9 && grid_cols(1500) == 7);
                lemma_has_room(res.items@, START_WIDTH as int, START_HEIGHT as int);
            }
        }
        res
    }

    /// The index of the first player named `player_name`.
    pub fn find_player_idx(&self, player_name: &str) -> (r: Option<usize>)
        ensures
            match r {
                Some(i) => is_first_named(self.players@, player_name@, i as int),
                None => !has_named(self.players@, player_name@),
            },
    {
        let mut i: usize = 0;
        while i < self.players.len()
            invariant
                i <= self.players.len(),
                forall|j: int| 0 <= j < i ==> self.players@[j].name@ != player_name@,
            decreases self.players.len() - i,
        {
            if same_text(self.players[i].name.as_str(), player_name) {
                return Some(i);
            }
            i = i + 1;
        }
        None
    }

    /// Swaps the player named `player_name` (the first one, if several) to the front.
    /// Returns whether there was such a player; if not, nothing changes.
    pub fn make_player_first(&mut self, player_name: &str) -> (found: bool)
        ensures
            found == has_named(old(self).players@, player_name@),
            found ==> exists|i: int|
                is_first_named(old(self).players@, player_name@, i) && final(self).players@
                    == old(self).players@.update(0, old(self).players@[i]).update(
                    i,
                    old(self).players@[0],
                ),
            !found ==> final(self).players@ == old(self).players@,
            final(self).items == old(self).items,
            final(self).width == old(self).width,
            final(self).height == old(self).height,
            final(self).turn == old(self).turn,
            final(self).max_turns == old(self).max_turns,
            final(self).game_id == old(self).game_id,
    {
        match self.find_player_idx(player_name) {
            Some(idx) => {
                if idx > 0 {
                    let ghost ps = self.players@;
                    let b = self.players.remove(idx);
                    let a = self.players.remove(0);
                    self.players.insert(0, b);
                    self.players.insert(idx, a);
                    assert(self.players@ =~= ps.update(0, ps[idx as int]).update(idx as int, ps[0]));
                } else {
                    assert(self.players@ =~= self.players@.update(0, self.players@[0]).update(
                        0,
                        self.players@[0],
                    ));
                }
                true
            },
            None => false,
        }
    }

    /// Applies a command. A target with a coordinate beyond `MAX_TARGET_COORD` in magnitude has
    /// both coordinates divided by ten. A known player gets the new target; an unknown name
    /// joins at a random position inside the field, at rest, with that target and no points.
    #[verifier::rlimit(40)]
    pub fn apply_move(&mut self, player_move: PlayerMove)
        requires
            old(self).wf(),
            old(self).players.len() < MAX_PLAYERS || has_named(old(self).players@, player_move.name@),
        ensures
            final(self).wf(),
            applies_move(*old(self), player_move.name@, player_move.target, *final(self)),
    {
        let mut target = player_move.target;
        if target.x > MAX_TARGET_COORD || target.x < -MAX_TARGET_COORD || target.y > MAX_TARGET_COORD
            || target.y < -MAX_TARGET_COORD {
            target = Point { x: div_ten_exec(target.x), y: div_ten_exec(target.y) };
        }
        assert(target == tamed_target(player_move.target));
        assert(-MAX_TARGET_COORD <= target.x <= MAX_TARGET_COORD);
        assert(-MAX_TARGET_COORD <= target.y <= MAX_TARGET_COORD);
        let n = self.players.len();
        match self.find_player_idx(player_move.name.as_str()) {
            Some(idx) => {
                let ghost ps = self.players@;
                self.players[idx].target = target;
                assert(self.players@ =~= ps.update(idx as int, with_target(ps[idx as int], target)));
                assert forall|i: int| 0 <= i < self.players.len() implies valid_player(
                    #[trigger] self.players@[i],
                    self.width as int,
                    self.height as int,
                ) by {
                    assert(valid_player(ps[i], self.width as int, self.height as int));
                }
                assert forall|i: int, j: int| 0 <= i < j < self.players.len() implies self.players@[i].name@
                    != self.players@[j].name@ by {
                    assert(ps[i].name@ != ps[j].name@);
                }
            },
            None => {
                proof {
                    lemma_field_monotone(n as int, n as int + 1);
                }
                let radius = PLAYER_RADIUS;
                let pos = self.gen_rand_position(radius);
                let ghost ps = self.players@;
                self.players.push(
                    Player {
                        name: player_move.name,
                        pos,
                        speed: Point { x: 0, y: 0 },
                        target,
                        score: 0,
                        radius,
                    },
                );
                assert(self.players@.take(n as int) =~= ps);
                assert forall|i: int| 0 <= i < self.players.len() implies valid_player(
                    #[trigger] self.players@[i],
                    self.width as int,
                    self.height as int,
                ) by {
                    if i < n {
                        assert(valid_player(ps[i], self.width as int, self.height as int));
                    }
                }
                assert forall|i: int, j: int| 0 <= i < j < self.players.len() implies self.players@[i].name@
                    != self.players@[j].name@ by {
                    if j < n {
                        assert(ps[i].name@ != ps[j].name@);
                    } else {
                        assert(self.players@[i] == ps[i]);
                    }
                }
            },
        }
    }
}

proof fn lemma_shuffle_bounds(order: Seq<usize>, n: nat)
    requires
        is_shuffle(order, n),
    ensures
        forall|k: int| 0 <= k < order.len() ==> #[trigger] order[k] < n,
{
    broadcast use vstd::seq_lib::group_to_multiset_ensures;

    assert forall|k: int| 0 <= k < order.len() implies #[trigger] order[k] < n by {
        assert(order.contains(order[k]));
        assert(index_seq(n).to_multiset().count(order[k]) > 0);
        assert(index_seq(n).contains(order[k]));
    }
}

/// A player that was valid on a field stays valid on a field at least as large.
proof fn lemma_valid_on_larger(p: Player, w: int, h: int, w2: int, h2: int)
    requires
        valid_player(p, w, h),
        w <= w2 <= MAX_FIELD_SIZE,
        h <= h2 <= MAX_FIELD_SIZE,
    ensures
        valid_player(p, w2, h2),
{
}

impl GameState {
    /// Plays one turn with players taking items in the order `order`: every player moves, then
    /// collects, then the turn counter advances. On the last turn the results come out;
    /// otherwise the field is resized for the player count (items are not respawned here).
    #[verifier::rlimit(40)]
    pub fn next_turn_in_order(self, order: &Vec<usize>) -> (r: NextTurn)
        requires
            self.wf(),
            self.scores_fit(),
            forall|k: int| 0 <= k < order.len() ==> #[trigger] order@[k] < self.players.len(),
        ensures
            ({
                let (ps, its) = turn_outcome(self, order@);
                match r {
                    NextTurn::FinalResults(res) => {
                        &&& self.turn + 1 == self.max_turns
                        &&& player_views(res.players@) == sorted_by_score(ps)
                        &&& is_descending(player_views(res.players@))
                        &&& res.game_id@ == self.game_id@
                        &&& forall|i: int|
                            0 <= i < res.players.len() ==> in_field(
                                #[trigger] res.players@[i],
                                self.width as int,
                                self.height as int,
                            )
                    },
                    NextTurn::GameState(s) => {
                        &&& self.turn + 1 < self.max_turns
                        &&& s.turn == self.turn + 1
                        &&& s.max_turns == self.max_turns
                        &&& player_views(s.players@) == ps
                        &&& s.items@ == its
                        &&& s.width == field_width(self.players.len() as int)
                        &&& s.height == field_height(self.players.len() as int)
                        &&& s.game_id@ == self.game_id@
                        &&& s.wf()
                        &&& s.players.len() == self.players.len()
                        &&& forall|j: int|
                            0 <= j < s.players.len() ==> self.players@[j].score <= (
                            #[trigger] s.players@[j]).score <= self.players@[j].score
                                + self.items.len()
                    },
                }
            }),
    {
        let ghost v = self;
        let mut st = self;
        st.move_players();
        assert(player_views(st.players@) == player_views(
            moved_players(v.players@, v.width as int, v.height as int),
        ));
        st.collect_items(order);
        let ghost collected_state = st;
        st.turn = st.turn + 1;
        if st.turn == st.max_turns {
            let ghost ps = player_views(st.players@);
            let res = GameResults::new(st);
            proof {
                lemma_sorted_members(ps);
                assert forall|i: int| 0 <= i < res.players.len() implies in_field(
                    #[trigger] res.players@[i],
                    v.width as int,
                    v.height as int,
                ) by {
                    assert(player_views(res.players@)[i] == res.players@[i]@);
                    assert(ps.contains(res.players@[i]@));
                    let j = choose|j: int| 0 <= j < ps.len() && ps[j] == res.players@[i]@;
                    let q = moved_players(v.players@, v.width as int, v.height as int)[j];
                    assert(valid_player(q, v.width as int, v.height as int));
                    assert(same_but_score(ps[j], q@));
                }
            }
            return NextTurn::FinalResults(res);
        }
        st.update_size();
        proof {
            let n = st.players.len() as int;
            lemma_field_monotone(n, n);
            assert forall|i: int| 0 <= i < st.players.len() implies valid_player(
                #[trigger] st.players@[i],
                st.width as int,
                st.height as int,
            ) by {
                let q = moved_players(v.players@, v.width as int, v.height as int)[i];
                assert(valid_player(q, v.width as int, v.height as int));
                assert(same_but_score(st.players@[i]@, q@));
                assert(valid_player(st.players@[i], v.width as int, v.height as int));
                lemma_valid_on_larger(
                    st.players@[i],
                    v.width as int,
                    v.height as int,
                    st.width as int,
                    st.height as int,
                );
            }
            assert forall|i: int, j: int| 0 <= i < j < st.players.len() implies st.players@[i].name@
                != st.players@[j].name@ by {
                let qi = moved_players(v.players@, v.width as int, v.height as int)[i];
                let qj = moved_players(v.players@, v.width as int, v.height as int)[j];
                assert(same_but_score(st.players@[i]@, qi@));
                assert(same_but_score(st.players@[j]@, qj@));
                assert(v.players@[i].name@ != v.players@[j].name@);
            }
        }
        NextTurn::GameState(st)
    }

    /// Plays one turn: players move, take items in a freshly shuffled order, and the turn
    /// counter advances. On the last turn the results come out, ranked by descending score;
    /// otherwise the field is resized and refilled with non-overlapping items.
    #[verifier::rlimit(40)]
    pub fn next_turn(self) -> (r: NextTurn)
        requires
            self.wf(),
            self.scores_fit(),
        ensures
            match r {
                NextTurn::FinalResults(res) => {
                    &&& self.turn + 1 == self.max_turns
                    &&& is_descending(player_views(res.players@))
                    &&& res.game_id@ == self.game_id@
                    &&& forall|i: int|
                        0 <= i < res.players.len() ==> in_field(
                            #[trigger] res.players@[i],
                            self.width as int,
                            self.height as int,
                        )
                    &&& exists|order: Seq<usize>|
                        is_shuffle(order, self.players.len() as nat) && player_views(res.players@)
                            == sorted_by_score(#[trigger] turn_outcome(self, order).0)
                },
                NextTurn::GameState(s) => {
                    &&& self.turn + 1 < self.max_turns
                    &&& s.turn == self.turn + 1
                    &&& s.max_turns == self.max_turns
                    &&& s.wf()
                    &&& forall|i: int|
                        0 <= i < s.players.len() ==> in_field(
                            #[trigger] s.players@[i],
                            s.width as int,
                            s.height as int,
                        )
                    &&& s.width == field_width(self.players.len() as int)
                    &&& s.height == field_height(self.players.len() as int)
                    &&& s.game_id@ == self.game_id@
                    &&& s.players.len() == self.players.len()
                    &&& s.items.len() == item_target(self.players.len() as int)
                    &&& forall|j: int|
                        0 <= j < s.players.len() ==> self.players@[j].score <= (
                        #[trigger] s.players@[j]).score <= self.players@[j].score
                            + self.items.len()
                    &&& exists|order: Seq<usize>|
                        {
                            let (ps, its) = #[trigger] turn_outcome(self, order);
                            &&& is_shuffle(order, self.players.len() as nat)
                            &&& player_views(s.players@) == ps
                            &&& s.items@.take(its.len() as int) == its
                            &&& forall|i: int|
                                its.len() <= i < s.items.len() ==> fresh_item(
                                    #[trigger] s.items@[i],
                                    s.width as int,
                                    s.height as int,
                                )
                        }
                },
            },
    {
        let n = self.players.len();
        let mut order: Vec<usize> = Vec::new();
        let mut i: usize = 0;
        while i < n
            invariant
                i <= n,
                order@ == index_seq(i as nat),
            decreases n - i,
        {
            order.push(i);
            i = i + 1;
            assert(order@ =~= index_seq(i as nat));
        }
        shuffle(&mut order);
        proof {
            lemma_shuffle_bounds(order@, n as nat);
        }
        let ghost v = self;
        match self.next_turn_in_order(&order) {
            NextTurn::FinalResults(res) => {
                assert(is_shuffle(order@, n as nat));
                NextTurn::FinalResults(res)
            },
            NextTurn::GameState(mut s) => {
                proof {
                    lemma_field_monotone(n as int, n as int);
                }
                let ghost survivors = s.items@;
                let filled = s.add_more_items();
                proof {
                    let (ps, its) = turn_outcome(v, order@);
                    assert(is_shuffle(order@, n as nat));
                    assert(small_items(s.items@)) by {
                        assert forall|i: int| 0 <= i < s.items.len() implies MIN_ITEM_R <= (
                        #[trigger] s.items@[i]).radius < MAX_ITEM_R by {
                            if i >= survivors.len() {
                                assert(fresh_item(s.items@[i], s.width as int, s.height as int));
                            } else {
                                assert(s.items@[i] == s.items@.take(survivors.len() as int)[i]);
                                assert(survivors[i] == s.items@[i]);
                            }
                        }
                    }
                    if !filled {
                        lemma_field_monotone(n as int, n as int);
                        if n <= START_MAX_PLAYERS {
                            lemma_start_field(n as int);
                            assert(grid_cols(2000) == 9 && grid_cols(1500) == 7);
                        } else {
                            lemma_grid_size(n as int);
                        }
                        lemma_has_room(s.items@, s.width as int, s.height as int);
                    }
                }
                NextTurn::GameState(s)
            },
        }
    }
}

} // verus!
