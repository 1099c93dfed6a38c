use vstd::prelude::*;

use crate::game_state::{player_views, GameState, GameStateView, Item, Player, PlayerView};
use crate::point::Point;
use crate::text::{
    bounded_integer_of, char_views, int_text, is_word, is_ws, lemma_int_text_round_trip,
    parse_bounded, push_char, push_int, scan, split_tokens, tokens,
};

verus! {

/// One word of the wire format and the character that follows it.
pub type Piece = (Seq<char>, char);

/// The text that a list of pieces lays out.
pub open spec fn joined(pieces: Seq<Piece>) -> Seq<char>
    decreases pieces.len(),
{
    if pieces.len() == 0 {
        Seq::empty()
    } else {
        joined(pieces.drop_last()) + pieces.last().0.push(pieces.last().1)
    }
}

/// The words of a list of pieces.
pub open spec fn words(pieces: Seq<Piece>) -> Seq<Seq<char>> {
    pieces.map_values(|p: Piece| p.0)
}

pub open spec fn turn_keyword() -> Seq<char> {
    seq!['T', 'U', 'R', 'N']
}

pub open spec fn end_keyword() -> Seq<char> {
    seq!['E', 'N', 'D', '_', 'S', 'T', 'A', 'T', 'E']
}

/// `<name> <score> <x> <y> <radius> <vx> <vy> <target_x> <target_y>` and a newline.
pub open spec fn player_pieces(p: PlayerView) -> Seq<Piece> {
    seq![
        (p.name, ' '),
        (int_text(p.score as int), ' '),
        (int_text(p.pos.x as int), ' '),
        (int_text(p.pos.y as int), ' '),
        (int_text(p.radius as int), ' '),
        (int_text(p.speed.x as int), ' '),
        (int_text(p.speed.y as int), ' '),
        (int_text(p.target.x as int), ' '),
        (int_text(p.target.y as int), '\n'),
    ]
}

/// `<x> <y> <radius>` and a newline.
pub open spec fn item_pieces(it: Item) -> Seq<Piece> {
    seq![
        (int_text(it.pos.x as int), ' '),
        (int_text(it.pos.y as int), ' '),
        (int_text(it.radius as int), '\n'),
    ]
}

pub open spec fn players_pieces(ps: Seq<PlayerView>) -> Seq<Piece>
    decreases ps.len(),
{
    if ps.len() == 0 {
        Seq::empty()
    } else {
        players_pieces(ps.drop_last()) + player_pieces(ps.last())
    }
}

pub open spec fn items_pieces(its: Seq<Item>) -> Seq<Piece>
    decreases its.len(),
{
    if its.len() == 0 {
        Seq::empty()
    } else {
        items_pieces(its.drop_last()) + item_pieces(its.last())
    }
}

/// `TURN <turn> <max_turns> <width> <height> <game_id>` and the player count, each line ended
/// by a newline.
pub open spec fn header_pieces(v: GameStateView) -> Seq<Piece> {
    seq![
        (turn_keyword(), ' '),
        (int_text(v.turn as int), ' '),
        (int_text(v.max_turns as int), ' '),
        (int_text(v.width as int), ' '),
        (int_text(v.height as int), ' '),
        (v.game_id, '\n'),
        (int_text(v.players.len() as int), '\n'),
    ]
}

/// The whole snapshot, word by word.
pub open spec fn state_pieces(v: GameStateView) -> Seq<Piece> {
    header_pieces(v) + players_pieces(v.players) + seq![(int_text(v.items.len() as int), '\n')]
        + items_pieces(v.items) + seq![(end_keyword(), '\n')]
}

/// The text of a snapshot.
pub open spec fn encode_text(v: GameStateView) -> Seq<char> {
    joined(state_pieces(v))
}

pub proof fn lemma_joined_append(a: Seq<Piece>, b: Seq<Piece>)
    ensures
        joined(a + b) == joined(a) + joined(b),
    decreases b.len(),
{
    if b.len() == 0 {
        assert(a + b =~= a);
        assert(joined(b) =~= Seq::<char>::empty());
        assert(joined(a) + joined(b) =~= joined(a));
    } else {
        lemma_joined_append(a, b.drop_last());
        assert((a + b).drop_last() =~= a + b.drop_last());
        assert((a + b).last() == b.last());
        assert(joined(a) + joined(b.drop_last()) + b.last().0.push(b.last().1) =~= joined(a)
            + joined(b));
    }
}

/// Appends `word` and then `sep`.
fn push_piece_chars(out: &mut String, word: &Vec<char>, sep: char)
    ensures
        final(out)@ == old(out)@ + word@.push(sep),
{
    let mut i: usize = 0;
    while i < word.len()
        invariant
            i <= word.len(),
            out@ == old(out)@ + word@.take(i as int),
        decreases word.len() - i,
    {
        push_char(out, word[i]);
        i = i + 1;
        assert(out@ =~= old(out)@ + word@.take(i as int));
    }
    push_char(out, sep);
    assert(word@.take(word.len() as int) =~= word@);
    assert(out@ =~= old(out)@ + word@.push(sep));
}

/// Appends the characters of `s` and then `sep`.
pub(crate) fn push_piece_str(out: &mut String, s: &str, sep: char)
    ensures
        final(out)@ == old(out)@ + s@.push(sep),
{
    let mut i: usize = 0;
    let n = s.unicode_len();
    while i < n
        invariant
            i <= n,
            n == s@.len(),
            out@ == old(out)@ + s@.take(i as int),
        decreases n - i,
    {
        push_char(out, s.get_char(i));
        i = i + 1;
        assert(out@ =~= old(out)@ + s@.take(i as int));
    }
    push_char(out, sep);
    assert(s@.take(n as int) =~= s@);
    assert(out@ =~= old(out)@ + s@.push(sep));
}

/// Appends the decimal text of `v` and then `sep`.
pub(crate) fn push_piece_int(out: &mut String, v: i128, sep: char)
    requires
        v > i128::MIN,
    ensures
        final(out)@ == old(out)@ + int_text(v as int).push(sep),
{
    push_int(out, v);
    push_char(out, sep);
    assert(out@ =~= old(out)@ + int_text(v as int).push(sep));
}

fn push_turn_keyword(out: &mut String)
    ensures
        final(out)@ == old(out)@ + turn_keyword().push(' '),
{
    push_char(out, 'T');
    push_char(out, 'U');
    push_char(out, 'R');
    push_char(out, 'N');
    push_char(out, ' ');
    assert(out@ =~= old(out)@ + turn_keyword().push(' '));
}

fn push_end_keyword(out: &mut String)
    ensures
        final(out)@ == old(out)@ + end_keyword().push('\n'),
{
    push_char(out, 'E');
    push_char(out, 'N');
    push_char(out, 'D');
    push_char(out, '_');
    push_char(out, 'S');
    push_char(out, 'T');
    push_char(out, 'A');
    push_char(out, 'T');
    push_char(out, 'E');
    push_char(out, '\n');
    assert(out@ =~= old(out)@ + end_keyword().push('\n'));
}

pub proof fn lemma_joined_one(a: Seq<Piece>, p: Piece)
    ensures
        joined(a.push(p)) == joined(a) + p.0.push(p.1),
{
    assert(a.push(p).drop_last() =~= a);
}

fn push_player(out: &mut String, p: &Player)
    ensures
        final(out)@ == old(out)@ + joined(player_pieces(p@)),
{
    let ghost start = out@;
    push_piece_str(out, p.name.as_str(), ' ');
    push_piece_int(out, p.score as i128, ' ');
    push_piece_int(out, p.pos.x as i128, ' ');
    push_piece_int(out, p.pos.y as i128, ' ');
    push_piece_int(out, p.radius as i128, ' ');
    push_piece_int(out, p.speed.x as i128, ' ');
    push_piece_int(out, p.speed.y as i128, ' ');
    push_piece_int(out, p.target.x as i128, ' ');
    push_piece_int(out, p.target.y as i128, '\n');
    proof {
        let ps = player_pieces(p@);
        assert(ps.take(0) =~= Seq::<Piece>::empty());
        lemma_joined_one(ps.take(0), ps[0]);
        assert(ps.take(0).push(ps[0]) =~= ps.take(1));
        lemma_joined_one(ps.take(1), ps[1]);
        assert(ps.take(1).push(ps[1]) =~= ps.take(2));
        lemma_joined_one(ps.take(2), ps[2]);
        assert(ps.take(2).push(ps[2]) =~= ps.take(3));
        lemma_joined_one(ps.take(3), ps[3]);
        assert(ps.take(3).push(ps[3]) =~= ps.take(4));
        lemma_joined_one(ps.take(4), ps[4]);
        assert(ps.take(4).push(ps[4]) =~= ps.take(5));
        lemma_joined_one(ps.take(5), ps[5]);
        assert(ps.take(5).push(ps[5]) =~= ps.take(6));
        lemma_joined_one(ps.take(6), ps[6]);
        assert(ps.take(6).push(ps[6]) =~= ps.take(7));
        lemma_joined_one(ps.take(7), ps[7]);
        assert(ps.take(7).push(ps[7]) =~= ps.take(8));
        lemma_joined_one(ps.take(8), ps[8]);
        assert(ps.take(8).push(ps[8]) =~= ps);
        assert(out@ =~= start + joined(ps));
    }
}

fn push_item(out: &mut String, it: &Item)
    ensures
        final(out)@ == old(out)@ + joined(item_pieces(*it)),
{
    let ghost start = out@;
    push_piece_int(out, it.pos.x as i128, ' ');
    push_piece_int(out, it.pos.y as i128, ' ');
    push_piece_int(out, it.radius as i128, '\n');
    proof {
        let ps = item_pieces(*it);
        assert(ps.take(0) =~= Seq::<Piece>::empty());
        lemma_joined_one(ps.take(0), ps[0]);
        assert(ps.take(0).push(ps[0]) =~= ps.take(1));
        lemma_joined_one(ps.take(1), ps[1]);
        assert(ps.take(1).push(ps[1]) =~= ps.take(2));
        lemma_joined_one(ps.take(2), ps[2]);
        assert(ps.take(2).push(ps[2]) =~= ps);
        assert(out@ =~= start + joined(ps));
    }
}

impl GameState {
    /// The snapshot in the line-oriented wire format, ended by an `END_STATE` line.
    #[verifier::rlimit(40)]
    pub fn to_string(&self) -> (r: String)
        ensures
            r@ == encode_text(self@),
    {
        let ghost v = self@;
        let mut out = String::new();
        let ghost mut pcs: Seq<Piece> = Seq::empty();
        push_turn_keyword(&mut out);
        proof {
            lemma_joined_one(pcs, (turn_keyword(), ' '));
            pcs = pcs.push((turn_keyword(), ' '));
        }
        push_piece_int(&mut out, self.turn as i128, ' ');
        proof {
            lemma_joined_one(pcs, (int_text(v.turn as int), ' '));
            pcs = pcs.push((int_text(v.turn as int), ' '));
        }
        push_piece_int(&mut out, self.max_turns as i128, ' ');
        proof {
            lemma_joined_one(pcs, (int_text(v.max_turns as int), ' '));
            pcs = pcs.push((int_text(v.max_turns as int), ' '));
        }
        push_piece_int(&mut out, self.width as i128, ' ');
        proof {
            lemma_joined_one(pcs, (int_text(v.width as int), ' '));
            pcs = pcs.push((int_text(v.width as int), ' '));
        }
        push_piece_int(&mut out, self.height as i128, ' ');
        proof {
            lemma_joined_one(pcs, (int_text(v.height as int), ' '));
            pcs = pcs.push((int_text(v.height as int), ' '));
        }
        push_piece_str(&mut out, self.game_id.as_str(), '\n');
        proof {
            lemma_joined_one(pcs, (v.game_id, '\n'));
            pcs = pcs.push((v.game_id, '\n'));
        }
        push_piece_int(&mut out, self.players.len() as i128, '\n');
        proof {
            lemma_joined_one(pcs, (int_text(v.players.len() as int), '\n'));
            pcs = pcs.push((int_text(v.players.len() as int), '\n'));
            assert(pcs =~= header_pieces(v));
        }
        let mut i: usize = 0;
        while i < self.players.len()
            invariant
                i <= self.players.len(),
                v == self@,
                out@ == joined(header_pieces(v) + players_pieces(v.players.take(i as int))),
            decreases self.players.len() - i,
        {
            let ghost before = header_pieces(v) + players_pieces(v.players.take(i as int));
            push_player(&mut out, &self.players[i]);
            proof {
                let ps = v.players.take(i as int + 1);
                assert(ps.drop_last() =~= v.players.take(i as int));
                assert(ps.last() == self.players@[i as int]@);
                lemma_joined_append(before, player_pieces(ps.last()));
                assert(before + player_pieces(ps.last()) =~= header_pieces(v) + players_pieces(ps));
            }
            i = i + 1;
        }
        assert(v.players.take(self.players.len() as int) =~= v.players);
        let ghost with_players = header_pieces(v) + players_pieces(v.players);
        push_piece_int(&mut out, self.items.len() as i128, '\n');
        proof {
            lemma_joined_one(with_players, (int_text(v.items.len() as int), '\n'));
        }
        let ghost counted = with_players.push((int_text(v.items.len() as int), '\n'));
        let mut j: usize = 0;
        while j < self.items.len()
            invariant
                j <= self.items.len(),
                v == self@,
                out@ == joined(counted + items_pieces(v.items.take(j as int))),
            decreases self.items.len() - j,
        {
            let ghost before = counted + items_pieces(v.items.take(j as int));
            push_item(&mut out, &self.items[j]);
            proof {
                let its = v.items.take(j as int + 1);
                assert(its.drop_last() =~= v.items.take(j as int));
                lemma_joined_append(before, item_pieces(its.last()));
                assert(before + item_pieces(its.last()) =~= counted + items_pieces(its));
            }
            j = j + 1;
        }
        assert(v.items.take(self.items.len() as int) =~= v.items);
        let ghost with_items = counted + items_pieces(v.items);
        assert(v.items.take(0) =~= Seq::<Item>::empty());
        push_end_keyword(&mut out);
        proof {
            lemma_joined_one(with_items, (end_keyword(), '\n'));
            assert(with_items.push((end_keyword(), '\n')) =~= state_pieces(v));
        }
        out
    }
}

/// Why a snapshot could not be read.
#[derive(Clone, Copy, Debug, PartialEq, Eq, Structural)]
pub enum DecodeErrorKind {
    /// The text ended before the snapshot did.
    MissingToken,
    /// A token where a number belongs is not a number of the field's type.
    InvalidNumber,
    /// `TURN` or `END_STATE` is not where it belongs.
    UnexpectedKeyword,
}

/// The first token of the text (counted from zero) that does not fit the format, and why.
#[derive(Clone, Copy, Debug, PartialEq, Eq, Structural)]
pub struct DecodeError {
    pub index: usize,
    pub kind: DecodeErrorKind,
}

/// What a token of a snapshot must be.
pub enum TokenKind {
    Keyword(Seq<char>),
    Unsigned,
    Int32,
    Int64,
    Word,
    Ignored,
}

pub open spec fn usize_of(t: Seq<char>) -> Option<int> {
    bounded_integer_of(t, 0, usize::MAX as int)
}

pub open spec fn i32_of(t: Seq<char>) -> Option<int> {
    bounded_integer_of(t, i32::MIN as int, i32::MAX as int)
}

pub open spec fn i64_of(t: Seq<char>) -> Option<int> {
    bounded_integer_of(t, i64::MIN as int, i64::MAX as int)
}

pub open spec fn value_or_zero(o: Option<int>) -> int {
    match o {
        Some(v) => v,
        None => 0,
    }
}

/// The count that token `k` holds.
pub open spec fn count_at(toks: Seq<Seq<char>>, k: int) -> int {
    value_or_zero(usize_of(toks[k]))
}

/// Where the item count stands: after the header and nine tokens per player.
pub open spec fn items_slot(toks: Seq<Seq<char>>) -> int {
    7 + 9 * count_at(toks, 6)
}

/// Where `END_STATE` stands: after the item count and three tokens per item.
pub open spec fn end_slot(toks: Seq<Seq<char>>) -> int {
    items_slot(toks) + 1 + 3 * count_at(toks, items_slot(toks))
}

/// The kind of token `k` of a snapshot, given the counts that come before it.
pub open spec fn slot_kind(toks: Seq<Seq<char>>, k: int) -> TokenKind {
    if k == 0 {
        TokenKind::Keyword(turn_keyword())
    } else if k == 1 || k == 2 || k == 6 {
        TokenKind::Unsigned
    } else if k == 3 || k == 4 {
        TokenKind::Int32
    } else if k == 5 {
        TokenKind::Word
    } else if k < items_slot(toks) {
        if (k - 7) % 9 == 0 {
            TokenKind::Word
        } else if (k - 7) % 9 == 1 {
            TokenKind::Int64
        } else {
            TokenKind::Int32
        }
    } else if k == items_slot(toks) {
        TokenKind::Unsigned
    } else if k < end_slot(toks) {
        TokenKind::Int32
    } else if k == end_slot(toks) {
        TokenKind::Keyword(end_keyword())
    } else {
        TokenKind::Ignored
    }
}

pub open spec fn fits(t: Seq<char>, kind: TokenKind) -> bool {
    match kind {
        TokenKind::Keyword(w) => t == w,
        TokenKind::Unsigned => usize_of(t) is Some,
        TokenKind::Int32 => i32_of(t) is Some,
        TokenKind::Int64 => i64_of(t) is Some,
        TokenKind::Word => true,
        TokenKind::Ignored => true,
    }
}

/// Token `k` is there and has the kind the format asks for.
pub open spec fn slot_ok(toks: Seq<Seq<char>>, k: int) -> bool {
    0 <= k < toks.len() && fits(toks[k], slot_kind(toks, k))
}

/// Every token up to `END_STATE` is there and fits; tokens after it are ignored.
pub open spec fn decodes(toks: Seq<Seq<char>>) -> bool {
    forall|k: int| 0 <= k <= end_slot(toks) ==> slot_ok(toks, k)
}

/// `k` is the first token that does not fit.
pub open spec fn first_failure(toks: Seq<Seq<char>>, k: int) -> bool {
    &&& 0 <= k <= end_slot(toks)
    &&& !slot_ok(toks, k)
    &&& forall|j: int| 0 <= j < k ==> slot_ok(toks, j)
}

pub open spec fn error_kind_at(toks: Seq<Seq<char>>, k: int) -> DecodeErrorKind {
    if k >= toks.len() {
        DecodeErrorKind::MissingToken
    } else if slot_kind(toks, k) is Keyword {
        DecodeErrorKind::UnexpectedKeyword
    } else {
        DecodeErrorKind::InvalidNumber
    }
}

pub open spec fn i32_at(toks: Seq<Seq<char>>, k: int) -> i32 {
    value_or_zero(i32_of(toks[k])) as i32
}

/// The player whose nine tokens start at `k`.
pub open spec fn player_at(toks: Seq<Seq<char>>, k: int) -> PlayerView {
    PlayerView {
        name: toks[k],
        score: value_or_zero(i64_of(toks[k + 1])) as i64,
        pos: Point { x: i32_at(toks, k + 2), y: i32_at(toks, k + 3) },
        radius: i32_at(toks, k + 4),
        speed: Point { x: i32_at(toks, k + 5), y: i32_at(toks, k + 6) },
        target: Point { x: i32_at(toks, k + 7), y: i32_at(toks, k + 8) },
    }
}

/// The item whose three tokens start at `k`.
pub open spec fn item_at(toks: Seq<Seq<char>>, k: int) -> Item {
    Item { pos: Point { x: i32_at(toks, k), y: i32_at(toks, k + 1) }, radius: i32_at(toks, k + 2) }
}

/// The state that a well-formed token list describes.
pub open spec fn decoded(toks: Seq<Seq<char>>) -> GameStateView {
    GameStateView {
        turn: count_at(toks, 1) as usize,
        max_turns: count_at(toks, 2) as usize,
        width: i32_at(toks, 3),
        height: i32_at(toks, 4),
        game_id: toks[5],
        players: Seq::new(count_at(toks, 6) as nat, |j: int| player_at(toks, 7 + 9 * j)),
        items: Seq::new(
            count_at(toks, items_slot(toks)) as nat,
            |j: int| item_at(toks, items_slot(toks) + 1 + 3 * j),
        ),
    }
}

/// The tokens of a text, handed out front to back.
pub struct TokenReader {
    /// The tokens not yet handed out, last one first.
    tokens: Vec<Vec<char>>,
    consumed: usize,
}

/// A `String` with the given characters.
pub(crate) fn string_of(cs: &Vec<char>) -> (s: String)
    ensures
        s@ == cs@,
{
    let mut s = String::new();
    let mut i: usize = 0;
    while i < cs.len()
        invariant
            i <= cs.len(),
            s@ == cs@.take(i as int),
        decreases cs.len() - i,
    {
        push_char(&mut s, cs[i]);
        i = i + 1;
        assert(s@ =~= cs@.take(i as int));
    }
    assert(cs@.take(cs.len() as int) =~= cs@);
    s
}

impl TokenReader {
    /// The tokens not yet handed out, front first.
    pub closed spec fn remaining(&self) -> Seq<Seq<char>> {
        char_views(self.tokens@).reverse()
    }

    /// How many tokens were handed out.
    pub closed spec fn position(&self) -> int {
        self.consumed as int
    }

    pub closed spec fn wf(&self) -> bool {
        self.consumed + self.tokens.len() <= usize::MAX
    }

    /// Splits `s` at ASCII whitespace.
    pub fn new(s: &str) -> (r: TokenReader)
        ensures
            r.wf(),
            r.remaining() == tokens(s@),
            r.position() == 0,
    {
        let mut toks = split_tokens(s);
        let ghost all = char_views(toks@);
        let mut rev: Vec<Vec<char>> = Vec::new();
        while toks.len() > 0
            invariant
                char_views(toks@) == all.take(toks.len() as int),
                char_views(rev@) == all.skip(toks.len() as int).reverse(),
                toks.len() <= all.len(),
                toks.len() + rev.len() == all.len(),
            decreases toks.len(),
        {
            let ghost n = toks.len();
            let ghost old_rev = rev@;
            let ghost old_toks = toks@;
            assert(char_views(old_toks)[n - 1] == old_toks[n - 1]@);
            assert(all.take(n as int)[n - 1] == all[n - 1]);
            let t = toks.pop().unwrap();
            assert(t == old_toks[n - 1]);
            assert(t@ == all[n - 1]);
            rev.push(t);
            assert(char_views(rev@) =~= char_views(old_rev).push(t@));
            assert(all.skip(n - 1) =~= seq![all[n - 1]] + all.skip(n as int));
            assert(char_views(toks@) =~= all.take(toks.len() as int));
            assert(char_views(rev@) =~= all.skip(toks.len() as int).reverse());
        }
        assert(all.skip(0) =~= all);
        assert(char_views(rev@).reverse() =~= all);
        TokenReader { tokens: rev, consumed: 0 }
    }

    /// How many tokens were handed out.
    pub fn tokens_read(&self) -> (r: usize)
        ensures
            r == self.position(),
    {
        self.consumed
    }

    /// Hands out the next token, if there is one.
    pub fn next(&mut self) -> (r: Option<Vec<char>>)
        requires
            old(self).wf(),
        ensures
            final(self).wf(),
            final(self).position() <= usize::MAX,
            old(self).remaining().len() == 0 ==> {
                &&& r is None
                &&& final(self).remaining() == old(self).remaining()
                &&& final(self).position() == old(self).position()
            },
            old(self).remaining().len() > 0 ==> {
                &&& r is Some
                &&& r->0@ == old(self).remaining()[0]
                &&& final(self).remaining() == old(self).remaining().drop_first()
                &&& final(self).position() == old(self).position() + 1
            },
    {
        match self.tokens.pop() {
            Some(t) => {
                self.consumed = self.consumed + 1;
                assert(self.remaining() =~= old(self).remaining().drop_first());
                Some(t)
            },
            None => {
                assert(self.remaining() =~= old(self).remaining());
                None
            },
        }
    }

    /// The next token read as an integer in `[lo, hi]`.
    pub(crate) fn next_integer(&mut self, lo: i128, hi: i128) -> (r: Result<i128, DecodeError>)
        requires
            old(self).wf(),
            -0x1_0000_0000_0000_0000 <= lo <= 0 <= hi <= 0x1_0000_0000_0000_0000,
        ensures
            final(self).wf(),
            old(self).remaining().len() == 0 ==> r is Err && r->Err_0.index == old(self).position()
                && r->Err_0.kind == DecodeErrorKind::MissingToken,
            old(self).remaining().len() > 0 ==> {
                &&& final(self).remaining() == old(self).remaining().drop_first()
                &&& final(self).position() == old(self).position() + 1
                &&& match r {
                    Ok(v) => bounded_integer_of(old(self).remaining()[0], lo as int, hi as int)
                        == Some(v as int),
                    Err(e) => {
                        &&& (bounded_integer_of(old(self).remaining()[0], lo as int, hi as int) is None)
                        &&& e.index == old(self).position()
                        &&& e.kind == DecodeErrorKind::InvalidNumber
                    },
                }
            },
    {
        let index = self.consumed;
        match self.next() {
            Some(t) => match parse_bounded(&t, lo, hi) {
                Some(v) => Ok(v),
                None => Err(DecodeError { index, kind: DecodeErrorKind::InvalidNumber }),
            },
            None => Err(DecodeError { index, kind: DecodeErrorKind::MissingToken }),
        }
    }
}

/// The reader has handed out exactly the tokens of `toks` before its position.
pub open spec fn reads(reader: TokenReader, toks: Seq<Seq<char>>) -> bool {
    &&& reader.wf()
    &&& 0 <= reader.position() <= toks.len()
    &&& reader.remaining() == toks.skip(reader.position())
    &&& forall|j: int| 0 <= j < reader.position() ==> slot_ok(toks, j)
}

/// `kind` is the numeric kind whose tokens are the integers in `[lo, hi]`.
pub open spec fn numeric_kind(kind: TokenKind, lo: int, hi: int) -> bool {
    ||| kind == TokenKind::Unsigned && lo == 0 && hi == usize::MAX
    ||| kind == TokenKind::Int32 && lo == i32::MIN && hi == i32::MAX
    ||| kind == TokenKind::Int64 && lo == i64::MIN && hi == i64::MAX
}

/// Reads the numeric token at the reader's position.
fn read_number(reader: &mut TokenReader, lo: i128, hi: i128, Ghost(toks): Ghost<Seq<Seq<char>>>) -> (r:
    Result<i128, DecodeError>)
    requires
        reads(*old(reader), toks),
        numeric_kind(slot_kind(toks, old(reader).position()), lo as int, hi as int),
    ensures
        match r {
            Ok(v) => {
                &&& reads(*final(reader), toks)
                &&& final(reader).position() == old(reader).position() + 1
                &&& bounded_integer_of(toks[old(reader).position()], lo as int, hi as int) == Some(
                    v as int,
                )
            },
            Err(e) => {
                &&& e.index == old(reader).position()
                &&& !slot_ok(toks, e.index as int)
                &&& e.kind == error_kind_at(toks, e.index as int)
            },
        },
{
    let ghost k = reader.position();
    let r = reader.next_integer(lo, hi);
    proof {
        if k < toks.len() {
            assert(old(reader).remaining()[0] == toks[k]);
            assert(reader.remaining() =~= toks.skip(k + 1));
        }
    }
    r
}

/// Reads a token that may be any word.
fn read_word(reader: &mut TokenReader, Ghost(toks): Ghost<Seq<Seq<char>>>) -> (r: Result<String, DecodeError>)
    requires
        reads(*old(reader), toks),
        slot_kind(toks, old(reader).position()) == TokenKind::Word,
    ensures
        match r {
            Ok(w) => {
                &&& reads(*final(reader), toks)
                &&& final(reader).position() == old(reader).position() + 1
                &&& w@ == toks[old(reader).position()]
            },
            Err(e) => {
                &&& e.index == old(reader).position()
                &&& !slot_ok(toks, e.index as int)
                &&& e.kind == error_kind_at(toks, e.index as int)
            },
        },
{
    let index = reader.consumed;
    let ghost k = reader.position();
    match reader.next() {
        Some(t) => {
            assert(old(reader).remaining()[0] == toks[k]);
            assert(reader.remaining() =~= toks.skip(k + 1));
            Ok(string_of(&t))
        },
        None => Err(DecodeError { index, kind: DecodeErrorKind::MissingToken }),
    }
}

/// Reads a token that must be the keyword `kw`.
fn read_keyword(reader: &mut TokenReader, kw: &Vec<char>, Ghost(toks): Ghost<Seq<Seq<char>>>) -> (r: Result<
    (),
    DecodeError,
>)
    requires
        reads(*old(reader), toks),
        slot_kind(toks, old(reader).position()) == TokenKind::Keyword(kw@),
    ensures
        match r {
            Ok(_) => {
                &&& reads(*final(reader), toks)
                &&& final(reader).position() == old(reader).position() + 1
            },
            Err(e) => {
                &&& e.index == old(reader).position()
                &&& !slot_ok(toks, e.index as int)
                &&& e.kind == error_kind_at(toks, e.index as int)
            },
        },
{
    let index = reader.consumed;
    let ghost k = reader.position();
    match reader.next() {
        Some(t) => {
            assert(old(reader).remaining()[0] == toks[k]);
            assert(reader.remaining() =~= toks.skip(k + 1));
            if same_chars(&t, kw) {
                Ok(())
            } else {
                Err(DecodeError { index, kind: DecodeErrorKind::UnexpectedKeyword })
            }
        },
        None => Err(DecodeError { index, kind: DecodeErrorKind::MissingToken }),
    }
}

fn same_chars(a: &Vec<char>, b: &Vec<char>) -> (r: bool)
    ensures
        r == (a@ == b@),
{
    if a.len() != b.len() {
        return false;
    }
    let mut i: usize = 0;
    while i < a.len()
        invariant
            i <= a.len() == b.len(),
            a@.take(i as int) == b@.take(i as int),
        decreases a.len() - i,
    {
        if a[i] != b[i] {
            assert(a@[i as int] != b@[i as int]);
            return false;
        }
        assert(a@.take(i + 1) =~= a@.take(i as int).push(a@[i as int]));
        assert(b@.take(i + 1) =~= b@.take(i as int).push(b@[i as int]));
        i = i + 1;
    }
    assert(a@.take(a.len() as int) =~= a@);
    assert(b@.take(b.len() as int) =~= b@);
    true
}

fn keyword_turn() -> (r: Vec<char>)
    ensures
        r@ == turn_keyword(),
{
    let r = vec!['T', 'U', 'R', 'N'];
    assert(r@ =~= turn_keyword());
    r
}

fn keyword_end() -> (r: Vec<char>)
    ensures
        r@ == end_keyword(),
{
    let r = vec!['E', 'N', 'D', '_', 'S', 'T', 'A', 'T', 'E'];
    assert(r@ =~= end_keyword());
    r
}

proof fn lemma_player_slot(toks: Seq<Seq<char>>, i: int, f: int)
    requires
        0 <= i < count_at(toks, 6),
        0 <= f < 9,
    ensures
        7 + 9 * i + f < items_slot(toks),
        slot_kind(toks, 7 + 9 * i + f) == (if f == 0 {
            TokenKind::Word
        } else if f == 1 {
            TokenKind::Int64
        } else {
            TokenKind::Int32
        }),
{
    assert((9 * i + f) % 9 == f) by (nonlinear_arith)
        requires
            0 <= f < 9,
            i >= 0,
    ;
}

fn read_i32(reader: &mut TokenReader, Ghost(toks): Ghost<Seq<Seq<char>>>) -> (r: Result<i32, DecodeError>)
    requires
        reads(*old(reader), toks),
        slot_kind(toks, old(reader).position()) == TokenKind::Int32,
    ensures
        match r {
            Ok(v) => {
                &&& reads(*final(reader), toks)
                &&& final(reader).position() == old(reader).position() + 1
                &&& v == i32_at(toks, old(reader).position())
            },
            Err(e) => {
                &&& e.index == old(reader).position()
                &&& !slot_ok(toks, e.index as int)
                &&& e.kind == error_kind_at(toks, e.index as int)
            },
        },
{
    match read_number(reader, i32::MIN as i128, i32::MAX as i128, Ghost(toks)) {
        Ok(v) => Ok(v as i32),
        Err(e) => Err(e),
    }
}

/// Reads the nine tokens of player `i`.
#[verifier::rlimit(40)]
fn read_player(reader: &mut TokenReader, Ghost(toks): Ghost<Seq<Seq<char>>>, Ghost(i): Ghost<int>) -> (r:
    Result<Player, DecodeError>)
    requires
        reads(*old(reader), toks),
        0 <= i < count_at(toks, 6),
        old(reader).position() == 7 + 9 * i,
    ensures
        match r {
            Ok(p) => {
                &&& reads(*final(reader), toks)
                &&& final(reader).position() == old(reader).position() + 9
                &&& p@ == player_at(toks, 7 + 9 * i)
            },
            Err(e) => first_failure(toks, e.index as int) && e.kind == error_kind_at(
                toks,
                e.index as int,
            ),
        },
{
    let ghost k = 7 + 9 * i;
    proof {
        lemma_player_slot(toks, i, 0);
        lemma_player_slot(toks, i, 1);
        lemma_player_slot(toks, i, 2);
        lemma_player_slot(toks, i, 3);
        lemma_player_slot(toks, i, 4);
        lemma_player_slot(toks, i, 5);
        lemma_player_slot(toks, i, 6);
        lemma_player_slot(toks, i, 7);
        lemma_player_slot(toks, i, 8);
        assert(items_slot(toks) <= end_slot(toks));
    }
    let name = match read_word(reader, Ghost(toks)) {
        Ok(w) => w,
        Err(e) => return Err(e),
    };
    let score = match read_number(reader, i64::MIN as i128, i64::MAX as i128, Ghost(toks)) {
        Ok(v) => v as i64,
        Err(e) => return Err(e),
    };
    let x = match read_i32(reader, Ghost(toks)) {
        Ok(v) => v,
        Err(e) => return Err(e),
    };
    let y = match read_i32(reader, Ghost(toks)) {
        Ok(v) => v,
        Err(e) => return Err(e),
    };
    let radius = match read_i32(reader, Ghost(toks)) {
        Ok(v) => v,
        Err(e) => return Err(e),
    };
    let vx = match read_i32(reader, Ghost(toks)) {
        Ok(v) => v,
        Err(e) => return Err(e),
    };
    let vy = match read_i32(reader, Ghost(toks)) {
        Ok(v) => v,
        Err(e) => return Err(e),
    };
    let tx = match read_i32(reader, Ghost(toks)) {
        Ok(v) => v,
        Err(e) => return Err(e),
    };
    let ty = match read_i32(reader, Ghost(toks)) {
        Ok(v) => v,
        Err(e) => return Err(e),
    };
    let p = Player {
        name,
        score,
        pos: Point { x, y },
        radius,
        speed: Point { x: vx, y: vy },
        target: Point { x: tx, y: ty },
    };
    assert(p@ == player_at(toks, k));
    Ok(p)
}

/// Reads the three tokens of item `i`.
fn read_item(reader: &mut TokenReader, Ghost(toks): Ghost<Seq<Seq<char>>>, Ghost(i): Ghost<int>) -> (r:
    Result<Item, DecodeError>)
    requires
        reads(*old(reader), toks),
        0 <= i < count_at(toks, items_slot(toks)),
        old(reader).position() == items_slot(toks) + 1 + 3 * i,
    ensures
        match r {
            Ok(it) => {
                &&& reads(*final(reader), toks)
                &&& final(reader).position() == old(reader).position() + 3
                &&& it == item_at(toks, items_slot(toks) + 1 + 3 * i)
            },
            Err(e) => first_failure(toks, e.index as int) && e.kind == error_kind_at(
                toks,
                e.index as int,
            ),
        },
{
    let x = match read_i32(reader, Ghost(toks)) {
        Ok(v) => v,
        Err(e) => return Err(e),
    };
    let y = match read_i32(reader, Ghost(toks)) {
        Ok(v) => v,
        Err(e) => return Err(e),
    };
    let radius = match read_i32(reader, Ghost(toks)) {
        Ok(v) => v,
        Err(e) => return Err(e),
    };
    Ok(Item { pos: Point { x, y }, radius })
}

impl GameState {
    /// Reads a snapshot written by `to_string`. Tokens may be separated by any ASCII
    /// whitespace; tokens after `END_STATE` are ignored. Fails at the first token that is
    /// missing, is not a number of the field's type, or is not the expected keyword.
    #[verifier::rlimit(40)]
    pub fn from_string(s: &str) -> (r: Result<GameState, DecodeError>)
        ensures
            match r {
                Ok(st) => decodes(tokens(s@)) && st@ == decoded(tokens(s@)),
                Err(e) => first_failure(tokens(s@), e.index as int) && e.kind == error_kind_at(
                    tokens(s@),
                    e.index as int,
                ),
            },
    {
        let ghost toks = tokens(s@);
        let mut reader = TokenReader::new(s);
        assert(toks.skip(0) =~= toks);
        let turn_kw = keyword_turn();
        match read_keyword(&mut reader, &turn_kw, Ghost(toks)) {
            Ok(_) => {},
            Err(e) => return Err(e),
        }
        let turn = match read_number(&mut reader, 0, usize::MAX as i128, Ghost(toks)) {
            Ok(v) => v as usize,
            Err(e) => return Err(e),
        };
        let max_turns = match read_number(&mut reader, 0, usize::MAX as i128, Ghost(toks)) {
            Ok(v) => v as usize,
            Err(e) => return Err(e),
        };
        let width = match read_i32(&mut reader, Ghost(toks)) {
            Ok(v) => v,
            Err(e) => return Err(e),
        };
        let height = match read_i32(&mut reader, Ghost(toks)) {
            Ok(v) => v,
            Err(e) => return Err(e),
        };
        let game_id = match read_word(&mut reader, Ghost(toks)) {
            Ok(w) => w,
            Err(e) => return Err(e),
        };
        let num_players = match read_number(&mut reader, 0, usize::MAX as i128, Ghost(toks)) {
            Ok(v) => v as usize,
            Err(e) => return Err(e),
        };
        assert(count_at(toks, 6) == num_players);
        let mut res = GameState {
            width,
            height,
            turn,
            max_turns,
            players: Vec::new(),
            items: Vec::new(),
            game_id,
        };
        let mut i: usize = 0;
        while i < num_players
            invariant
                i <= num_players,
                toks == tokens(s@),
                num_players == count_at(toks, 6),
                reads(reader, toks),
                reader.position() == 7 + 9 * i,
                player_views(res.players@) == Seq::new(i as nat, |j: int| player_at(toks, 7 + 9 * j)),
                res.items@.len() == 0,
                res.turn == count_at(toks, 1),
                res.max_turns == count_at(toks, 2),
                res.width == i32_at(toks, 3),
                res.height == i32_at(toks, 4),
                res.game_id@ == toks[5],
            decreases num_players - i,
        {
            let p = match read_player(&mut reader, Ghost(toks), Ghost(i as int)) {
                Ok(p) => p,
                Err(e) => return Err(e),
            };
            let ghost old_players = res.players@;
            res.players.push(p);
            assert(player_views(res.players@) =~= player_views(old_players).push(p@));
            assert(player_views(res.players@) =~= Seq::new(
                (i + 1) as nat,
                |j: int| player_at(toks, 7 + 9 * j),
            ));
            i = i + 1;
        }
        let ghost at = items_slot(toks);
        assert(reader.position() == at);
        let num_items = match read_number(&mut reader, 0, usize::MAX as i128, Ghost(toks)) {
            Ok(v) => v as usize,
            Err(e) => return Err(e),
        };
        assert(count_at(toks, at) == num_items);
        let mut j: usize = 0;
        while j < num_items
            invariant
                j <= num_items,
                toks == tokens(s@),
                num_items == count_at(toks, at),
                at == items_slot(toks),
                reads(reader, toks),
                reader.position() == at + 1 + 3 * j,
                res.items@ == Seq::new(j as nat, |q: int| item_at(toks, at + 1 + 3 * q)),
                player_views(res.players@) == Seq::new(
                    count_at(toks, 6) as nat,
                    |q: int| player_at(toks, 7 + 9 * q),
                ),
                res.turn == count_at(toks, 1),
                res.max_turns == count_at(toks, 2),
                res.width == i32_at(toks, 3),
                res.height == i32_at(toks, 4),
                res.game_id@ == toks[5],
            decreases num_items - j,
        {
            let it = match read_item(&mut reader, Ghost(toks), Ghost(j as int)) {
                Ok(it) => it,
                Err(e) => return Err(e),
            };
            res.items.push(it);
            assert(res.items@ =~= Seq::new((j + 1) as nat, |q: int| item_at(toks, at + 1 + 3 * q)));
            j = j + 1;
        }
        let end_kw = keyword_end();
        match read_keyword(&mut reader, &end_kw, Ghost(toks)) {
            Ok(_) => {},
            Err(e) => return Err(e),
        }
        assert(res@ =~= decoded(toks));
        Ok(res)
    }
}

/// A state the wire format can carry: the game id and every player name are non-empty and free
/// of whitespace, and both counts fit a `usize`.
pub open spec fn encodable(v: GameStateView) -> bool {
    &&& v.players.len() <= usize::MAX
    &&& v.items.len() <= usize::MAX
    &&& is_word(v.game_id)
    &&& forall|i: int| 0 <= i < v.players.len() ==> is_word(#[trigger] v.players[i].name)
}

/// Every word is a word and every separator is whitespace.
pub open spec fn well_separated(pcs: Seq<Piece>) -> bool {
    forall|i: int| 0 <= i < pcs.len() ==> is_word(#[trigger] pcs[i].0) && is_ws(pcs[i].1)
}

proof fn lemma_scan_word(prefix: Seq<char>, w: Seq<char>, k: int)
    requires
        scan(prefix).1.len() == 0,
        is_word(w),
        0 <= k <= w.len(),
    ensures
        scan(prefix + w.take(k)) == (scan(prefix).0, w.take(k)),
    decreases k,
{
    if k == 0 {
        assert(prefix + w.take(0) =~= prefix);
        assert(w.take(0) =~= Seq::<char>::empty());
    } else {
        lemma_scan_word(prefix, w, k - 1);
        assert((prefix + w.take(k)).drop_last() =~= prefix + w.take(k - 1));
        assert((prefix + w.take(k)).last() == w[k - 1]);
        assert(!is_ws(w[k - 1]));
        assert(w.take(k - 1).push(w[k - 1]) =~= w.take(k));
    }
}

proof fn lemma_tokens_of_joined(pcs: Seq<Piece>)
    requires
        well_separated(pcs),
    ensures
        scan(joined(pcs)) == (words(pcs), Seq::<char>::empty()),
    decreases pcs.len(),
{
    if pcs.len() == 0 {
        assert(words(pcs) =~= Seq::<Seq<char>>::empty());
    } else {
        let init = pcs.drop_last();
        let (w, sep) = pcs.last();
        assert(well_separated(init)) by {
            assert forall|i: int| 0 <= i < init.len() implies is_word(#[trigger] init[i].0)
                && is_ws(init[i].1) by {
                assert(init[i] == pcs[i]);
            }
        }
        lemma_tokens_of_joined(init);
        assert(is_word(pcs[pcs.len() - 1].0));
        assert(is_ws(pcs[pcs.len() - 1].1));
        lemma_scan_word(joined(init), w, w.len() as int);
        assert(w.take(w.len() as int) =~= w);
        let t = joined(init) + w;
        assert(joined(pcs) =~= t.push(sep));
        assert(t.push(sep).drop_last() =~= t);
        assert(words(pcs) =~= words(init).push(w));
    }
}

proof fn lemma_players_pieces(ps: Seq<PlayerView>)
    ensures
        players_pieces(ps).len() == 9 * ps.len(),
        forall|j: int, f: int|
            0 <= j < ps.len() && 0 <= f < 9 ==> #[trigger] players_pieces(ps)[9 * j + f]
                == player_pieces(ps[j])[f],
    decreases ps.len(),
{
    if ps.len() > 0 {
        let init = ps.drop_last();
        lemma_players_pieces(init);
        assert forall|j: int, f: int| 0 <= j < ps.len() && 0 <= f < 9 implies #[trigger] players_pieces(
            ps,
        )[9 * j + f] == player_pieces(ps[j])[f] by {
            if j < ps.len() - 1 {
                assert(init[j] == ps[j]);
                assert(players_pieces(init)[9 * j + f] == player_pieces(init[j])[f]);
            }
        }
    }
}

proof fn lemma_items_pieces(its: Seq<Item>)
    ensures
        items_pieces(its).len() == 3 * its.len(),
        forall|j: int, f: int|
            0 <= j < its.len() && 0 <= f < 3 ==> #[trigger] items_pieces(its)[3 * j + f]
                == item_pieces(its[j])[f],
    decreases its.len(),
{
    if its.len() > 0 {
        let init = its.drop_last();
        lemma_items_pieces(init);
        assert forall|j: int, f: int| 0 <= j < its.len() && 0 <= f < 3 implies #[trigger] items_pieces(
            its,
        )[3 * j + f] == item_pieces(its[j])[f] by {
            if j < its.len() - 1 {
                assert(init[j] == its[j]);
                assert(items_pieces(init)[3 * j + f] == item_pieces(init[j])[f]);
            }
        }
    }
}

proof fn lemma_i32_text(v: i32)
    ensures
        i32_of(int_text(v as int)) == Some(v as int),
        i32_at(seq![int_text(v as int)], 0) == v,
        is_word(int_text(v as int)),
{
    lemma_int_text_round_trip(v as int, i32::MIN as int, i32::MAX as int);
}

/// The pieces of an encodable state are words separated by whitespace.
#[verifier::rlimit(40)]
proof fn lemma_state_pieces_separated(v: GameStateView)
    requires
        encodable(v),
    ensures
        well_separated(state_pieces(v)),
        state_pieces(v).len() == 9 + 9 * v.players.len() + 3 * v.items.len(),
{
    let pcs = state_pieces(v);
    let pp = players_pieces(v.players);
    let ip = items_pieces(v.items);
    lemma_players_pieces(v.players);
    lemma_items_pieces(v.items);
    let np = v.players.len() as int;
    let ni = v.items.len() as int;
    lemma_int_text_round_trip(v.turn as int, 0, usize::MAX as int);
    lemma_int_text_round_trip(v.max_turns as int, 0, usize::MAX as int);
    lemma_int_text_round_trip(np, 0, usize::MAX as int);
    lemma_int_text_round_trip(ni, 0, usize::MAX as int);
    lemma_i32_text(v.width);
    lemma_i32_text(v.height);
    assert(is_word(turn_keyword())) by {
        assert forall|i: int| 0 <= i < turn_keyword().len() implies !is_ws(
            #[trigger] turn_keyword()[i],
        ) by {}
    }
    assert(is_word(end_keyword())) by {
        assert forall|i: int| 0 <= i < end_keyword().len() implies !is_ws(
            #[trigger] end_keyword()[i],
        ) by {}
    }
    assert forall|i: int| 0 <= i < pcs.len() implies is_word(#[trigger] pcs[i].0) && is_ws(
        pcs[i].1,
    ) by {
        if 7 <= i < 7 + 9 * np {
            let j = (i - 7) / 9;
            let f = (i - 7) % 9;
            assert(i - 7 == 9 * j + f);
            assert(pcs[i] == pp[9 * j + f]);
            lemma_player_pieces_separated(v.players[j]);
            assert(player_pieces(v.players[j])[f] == pcs[i]);
        } else if 8 + 9 * np <= i < 8 + 9 * np + 3 * ni {
            let j = (i - 8 - 9 * np) / 3;
            let f = (i - 8 - 9 * np) % 3;
            assert(i - 8 - 9 * np == 3 * j + f);
            assert(pcs[i] == ip[3 * j + f]);
            lemma_item_pieces_separated(v.items[j]);
            assert(item_pieces(v.items[j])[f] == pcs[i]);
        }
    }
}

proof fn lemma_player_pieces_separated(p: PlayerView)
    requires
        is_word(p.name),
    ensures
        well_separated(player_pieces(p)),
{
    lemma_int_text_round_trip(p.score as int, i64::MIN as int, i64::MAX as int);
    lemma_i32_text(p.pos.x);
    lemma_i32_text(p.pos.y);
    lemma_i32_text(p.radius);
    lemma_i32_text(p.speed.x);
    lemma_i32_text(p.speed.y);
    lemma_i32_text(p.target.x);
    lemma_i32_text(p.target.y);
}

proof fn lemma_item_pieces_separated(it: Item)
    ensures
        well_separated(item_pieces(it)),
{
    lemma_i32_text(it.pos.x);
    lemma_i32_text(it.pos.y);
    lemma_i32_text(it.radius);
}

/// The tokens of an encodable state's text, word by word.
proof fn lemma_encoded_tokens(v: GameStateView)
    requires
        encodable(v),
    ensures
        tokens(encode_text(v)) == words(state_pieces(v)),
        words(state_pieces(v)).len() == 9 + 9 * v.players.len() + 3 * v.items.len(),
{
    let pcs = state_pieces(v);
    lemma_state_pieces_separated(v);
    lemma_tokens_of_joined(pcs);
}

proof fn lemma_player_tokens(v: GameStateView, toks: Seq<Seq<char>>, j: int)
    requires
        encodable(v),
        toks == words(state_pieces(v)),
        0 <= j < v.players.len(),
    ensures
        forall|f: int| 0 <= f < 9 ==> #[trigger] toks[7 + 9 * j + f] == player_pieces(v.players[j])[f].0,
{
    let np = v.players.len() as int;
    lemma_players_pieces(v.players);
    lemma_state_pieces_separated(v);
    let pcs = state_pieces(v);
    assert forall|f: int| 0 <= f < 9 implies #[trigger] toks[7 + 9 * j + f] == player_pieces(
        v.players[j],
    )[f].0 by {
        assert(pcs[7 + 9 * j + f] == players_pieces(v.players)[9 * j + f]);
    }
}

proof fn lemma_item_tokens(v: GameStateView, toks: Seq<Seq<char>>, j: int, base: int)
    requires
        encodable(v),
        toks == words(state_pieces(v)),
        0 <= j < v.items.len(),
        base == 8 + 9 * v.players.len() + 3 * j,
    ensures
        forall|f: int| 0 <= f < 3 ==> #[trigger] toks[base + f] == item_pieces(v.items[j])[f].0,
{
    let np = v.players.len() as int;
    lemma_players_pieces(v.players);
    lemma_items_pieces(v.items);
    lemma_state_pieces_separated(v);
    let pcs = state_pieces(v);
    assert forall|f: int| 0 <= f < 3 implies #[trigger] toks[base + f] == item_pieces(
        v.items[j],
    )[f].0 by {
        assert(pcs[8 + 9 * np + 3 * j + f] == items_pieces(v.items)[3 * j + f]);
    }
}

/// Where the counts and keywords of an encodable state's tokens stand.
#[verifier::rlimit(40)]
proof fn lemma_layout(v: GameStateView)
    requires
        encodable(v),
    ensures
        ({
            let toks = tokens(encode_text(v));
            let np = v.players.len() as int;
            let ni = v.items.len() as int;
            &&& toks == words(state_pieces(v))
            &&& toks.len() == 9 + 9 * np + 3 * ni
            &&& toks[0] == turn_keyword()
            &&& toks[1] == int_text(v.turn as int)
            &&& toks[2] == int_text(v.max_turns as int)
            &&& toks[3] == int_text(v.width as int)
            &&& toks[4] == int_text(v.height as int)
            &&& toks[5] == v.game_id
            &&& toks[6] == int_text(np)
            &&& count_at(toks, 6) == np
            &&& items_slot(toks) == 7 + 9 * np
            &&& toks[7 + 9 * np] == int_text(ni)
            &&& count_at(toks, items_slot(toks)) == ni
            &&& end_slot(toks) == 8 + 9 * np + 3 * ni
            &&& toks[8 + 9 * np + 3 * ni] == end_keyword()
        }),
{
    let pcs = state_pieces(v);
    let toks = tokens(encode_text(v));
    lemma_encoded_tokens(v);
    lemma_players_pieces(v.players);
    lemma_items_pieces(v.items);
    let np = v.players.len() as int;
    let ni = v.items.len() as int;
    lemma_int_text_round_trip(np, 0, usize::MAX as int);
    lemma_int_text_round_trip(ni, 0, usize::MAX as int);
    assert(toks[6] == int_text(np));
    assert(pcs[7 + 9 * np] == (int_text(ni), '\n'));
    assert(pcs[8 + 9 * np + 3 * ni] == (end_keyword(), '\n'));
}

proof fn lemma_player_slots(v: GameStateView, j: int, f: int)
    requires
        encodable(v),
        0 <= j < v.players.len(),
        0 <= f < 9,
    ensures
        slot_ok(tokens(encode_text(v)), 7 + 9 * j + f),
{
    let toks = tokens(encode_text(v));
    lemma_layout(v);
    lemma_player_slot(toks, j, f);
    lemma_player_tokens(v, toks, j);
    let p = v.players[j];
    assert(toks[7 + 9 * j + f] == player_pieces(p)[f].0);
    lemma_int_text_round_trip(p.score as int, i64::MIN as int, i64::MAX as int);
    lemma_i32_text(p.pos.x);
    lemma_i32_text(p.pos.y);
    lemma_i32_text(p.radius);
    lemma_i32_text(p.speed.x);
    lemma_i32_text(p.speed.y);
    lemma_i32_text(p.target.x);
    lemma_i32_text(p.target.y);
}

proof fn lemma_item_slots(v: GameStateView, j: int, f: int)
    requires
        encodable(v),
        0 <= j < v.items.len(),
        0 <= f < 3,
    ensures
        slot_ok(tokens(encode_text(v)), 8 + 9 * v.players.len() + 3 * j + f),
{
    let toks = tokens(encode_text(v));
    lemma_layout(v);
    let base = 8 + 9 * v.players.len() + 3 * j;
    lemma_item_tokens(v, toks, j, base);
    let it = v.items[j];
    assert(toks[base + f] == item_pieces(it)[f].0);
    lemma_i32_text(it.pos.x);
    lemma_i32_text(it.pos.y);
    lemma_i32_text(it.radius);
}

proof fn lemma_decoded_player(v: GameStateView, j: int)
    requires
        encodable(v),
        0 <= j < v.players.len(),
    ensures
        player_at(tokens(encode_text(v)), 7 + 9 * j) == v.players[j],
{
    let toks = tokens(encode_text(v));
    lemma_layout(v);
    lemma_player_tokens(v, toks, j);
    let p = v.players[j];
    lemma_int_text_round_trip(p.score as int, i64::MIN as int, i64::MAX as int);
    lemma_i32_text(p.pos.x);
    lemma_i32_text(p.pos.y);
    lemma_i32_text(p.radius);
    lemma_i32_text(p.speed.x);
    lemma_i32_text(p.speed.y);
    lemma_i32_text(p.target.x);
    lemma_i32_text(p.target.y);
    assert(toks[7 + 9 * j + 0] == p.name);
    assert(toks[7 + 9 * j + 1] == int_text(p.score as int));
    assert(toks[7 + 9 * j + 2] == int_text(p.pos.x as int));
    assert(toks[7 + 9 * j + 3] == int_text(p.pos.y as int));
    assert(toks[7 + 9 * j + 4] == int_text(p.radius as int));
    assert(toks[7 + 9 * j + 5] == int_text(p.speed.x as int));
    assert(toks[7 + 9 * j + 6] == int_text(p.speed.y as int));
    assert(toks[7 + 9 * j + 7] == int_text(p.target.x as int));
    assert(toks[7 + 9 * j + 8] == int_text(p.target.y as int));
}

proof fn lemma_decoded_item(v: GameStateView, j: int)
    requires
        encodable(v),
        0 <= j < v.items.len(),
    ensures
        item_at(tokens(encode_text(v)), 8 + 9 * v.players.len() + 3 * j) == v.items[j],
{
    let toks = tokens(encode_text(v));
    let np = v.players.len() as int;
    lemma_layout(v);
    let base = 8 + 9 * np + 3 * j;
    lemma_item_tokens(v, toks, j, base);
    let it = v.items[j];
    lemma_i32_text(it.pos.x);
    lemma_i32_text(it.pos.y);
    lemma_i32_text(it.radius);
    assert(toks[base + 0] == int_text(it.pos.x as int));
    assert(toks[base + 1] == int_text(it.pos.y as int));
    assert(toks[base + 2] == int_text(it.radius as int));
}

/// Decoding the text of an encodable state gives that state back.
#[verifier::rlimit(40)]
pub proof fn lemma_round_trip(v: GameStateView)
    requires
        encodable(v),
    ensures
        decodes(tokens(encode_text(v))),
        decoded(tokens(encode_text(v))) == v,
{
    let toks = tokens(encode_text(v));
    lemma_layout(v);
    let np = v.players.len() as int;
    let ni = v.items.len() as int;
    lemma_int_text_round_trip(v.turn as int, 0, usize::MAX as int);
    lemma_int_text_round_trip(v.max_turns as int, 0, usize::MAX as int);
    lemma_int_text_round_trip(np, 0, usize::MAX as int);
    lemma_int_text_round_trip(ni, 0, usize::MAX as int);
    lemma_i32_text(v.width);
    lemma_i32_text(v.height);
    assert forall|k: int| 0 <= k <= end_slot(toks) implies slot_ok(toks, k) by {
        if 7 <= k < 7 + 9 * np {
            let j = (k - 7) / 9;
            let f = (k - 7) % 9;
            assert(k == 7 + 9 * j + f && 0 <= f < 9 && 0 <= j < np) by (nonlinear_arith)
                requires
                    j == (k - 7) / 9,
                    f == (k - 7) % 9,
                    7 <= k < 7 + 9 * np,
            ;
            lemma_player_slots(v, j, f);
        } else if 8 + 9 * np <= k < 8 + 9 * np + 3 * ni {
            let j = (k - 8 - 9 * np) / 3;
            let f = (k - 8 - 9 * np) % 3;
            assert(k == 8 + 9 * np + 3 * j + f && 0 <= f < 3 && 0 <= j < ni) by (nonlinear_arith)
                requires
                    j == (k - 8 - 9 * np) / 3,
                    f == (k - 8 - 9 * np) % 3,
                    8 + 9 * np <= k < 8 + 9 * np + 3 * ni,
            ;
            lemma_item_slots(v, j, f);
        } else if k <= 6 {
            assert(slot_ok(toks, k));
        } else if k == 7 + 9 * np {
            assert(slot_ok(toks, k));
        }
    }
    let d = decoded(toks);
    assert forall|j: int| 0 <= j < np implies #[trigger] d.players[j] == v.players[j] by {
        lemma_decoded_player(v, j);
    }
    assert forall|j: int| 0 <= j < ni implies #[trigger] d.items[j] == v.items[j] by {
        lemma_decoded_item(v, j);
    }
    assert(d.players =~= v.players);
    assert(d.items =~= v.items);
}

} // verus!
