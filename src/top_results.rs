use vstd::prelude::*;

use crate::codec::{
    i64_of, joined, lemma_joined_append, lemma_joined_one, push_piece_int, push_piece_str, string_of, value_or_zero,
    DecodeError, DecodeErrorKind, Piece, TokenReader,
};
use crate::game_state::{player_views, GameResults, PlayerView};
use crate::text::{int_text, tokens};

verus! {

/// One row of the leaderboard: a user's best result.
#[derive(Clone, Debug)]
pub struct UserResult {
    pub score: i64,
    pub game_id: String,
    pub user: String,
}

pub struct ResultView {
    pub score: i64,
    pub game_id: Seq<char>,
    pub user: Seq<char>,
}

impl View for UserResult {
    type V = ResultView;

    open spec fn view(&self) -> ResultView {
        ResultView { score: self.score, game_id: self.game_id@, user: self.user@ }
    }
}

pub open spec fn result_views(s: Seq<UserResult>) -> Seq<ResultView> {
    s.map_values(|r: UserResult| r@)
}

/// `a` comes before `b` in lexicographic order of character codes.
pub open spec fn lex_lt(a: Seq<char>, b: Seq<char>) -> bool
    decreases a.len(),
{
    if a.len() == 0 {
        b.len() > 0
    } else if b.len() == 0 {
        false
    } else if a[0] != b[0] {
        a[0] < b[0]
    } else {
        lex_lt(a.skip(1), b.skip(1))
    }
}

/// For one user: `a` is a better result than `b` (higher score; on equal scores, the later
/// game id in lexicographic order).
pub open spec fn beats(a: ResultView, b: ResultView) -> bool {
    a.score > b.score || (a.score == b.score && lex_lt(b.game_id, a.game_id))
}

/// `a` is listed above `b`: descending by score, then game id, then user name.
pub open spec fn ranks_above(a: ResultView, b: ResultView) -> bool {
    beats(a, b) || (a.score == b.score && a.game_id == b.game_id && lex_lt(b.user, a.user))
}

/// A leaderboard: one row per user, sorted strictly from the top.
pub open spec fn is_table(s: Seq<ResultView>) -> bool {
    &&& forall|i: int, j: int| 0 <= i < j < s.len() ==> ranks_above(s[i], s[j])
    &&& forall|i: int, j: int| 0 <= i < j < s.len() ==> s[i].user != s[j].user
}

/// The rows of `rows` once `r` is taken in: `r` replaces the row of its user if it beats it,
/// joins if its user has no row, and is dropped otherwise.
pub open spec fn merged(rows: Set<ResultView>, r: ResultView) -> Set<ResultView> {
    if exists|e: ResultView| rows.contains(e) && e.user == r.user {
        let e = choose|e: ResultView| rows.contains(e) && e.user == r.user;
        if beats(r, e) {
            rows.remove(e).insert(r)
        } else {
            rows
        }
    } else {
        rows.insert(r)
    }
}

/// The rows once every result of `rs` is taken in, first to last.
pub open spec fn merged_all(rows: Set<ResultView>, rs: Seq<ResultView>) -> Set<ResultView>
    decreases rs.len(),
{
    if rs.len() == 0 {
        rows
    } else {
        merged(merged_all(rows, rs.drop_last()), rs.last())
    }
}

/// `after` is the leaderboard `before` with `r` taken in.
pub open spec fn adds(before: Seq<ResultView>, r: ResultView, after: Seq<ResultView>) -> bool {
    &&& is_table(after)
    &&& after.to_set() == merged(before.to_set(), r)
}

proof fn lemma_lex_total(a: Seq<char>, b: Seq<char>)
    ensures
        a == b || lex_lt(a, b) || lex_lt(b, a),
        !(lex_lt(a, b) && lex_lt(b, a)),
        !lex_lt(a, a),
    decreases a.len(),
{
    if a.len() > 0 && b.len() > 0 {
        if a[0] == b[0] {
            lemma_lex_total(a.skip(1), b.skip(1));
            if a.skip(1) == b.skip(1) {
                assert(a =~= seq![a[0]] + a.skip(1));
                assert(b =~= seq![b[0]] + b.skip(1));
            }
        }
    } else if a.len() == 0 && b.len() == 0 {
        assert(a =~= b);
    }
    lemma_lex_irreflexive(a);
}

proof fn lemma_lex_irreflexive(a: Seq<char>)
    ensures
        !lex_lt(a, a),
    decreases a.len(),
{
    if a.len() > 0 {
        lemma_lex_irreflexive(a.skip(1));
    }
}

proof fn lemma_lex_trans(a: Seq<char>, b: Seq<char>, c: Seq<char>)
    requires
        lex_lt(a, b),
        lex_lt(b, c),
    ensures
        lex_lt(a, c),
    decreases a.len(),
{
    if a.len() > 0 && b.len() > 0 && c.len() > 0 {
        if a[0] == b[0] && b[0] == c[0] {
            lemma_lex_trans(a.skip(1), b.skip(1), c.skip(1));
        }
    }
}

proof fn lemma_ranks_trans(a: ResultView, b: ResultView, c: ResultView)
    requires
        ranks_above(a, b),
        ranks_above(b, c),
    ensures
        ranks_above(a, c),
{
    if a.score == b.score && b.score == c.score {
        if lex_lt(b.game_id, a.game_id) && lex_lt(c.game_id, b.game_id) {
            lemma_lex_trans(c.game_id, b.game_id, a.game_id);
        } else if a.game_id == b.game_id && lex_lt(c.game_id, b.game_id) {
        } else if lex_lt(b.game_id, a.game_id) && b.game_id == c.game_id {
        } else if a.game_id == b.game_id && b.game_id == c.game_id {
            lemma_lex_trans(c.user, b.user, a.user);
        }
    }
}

/// Of two rows of different users, or of two different rows, one ranks above the other.
proof fn lemma_ranks_total(a: ResultView, b: ResultView)
    requires
        a != b,
    ensures
        ranks_above(a, b) || ranks_above(b, a),
        !(ranks_above(a, b) && ranks_above(b, a)),
{
    lemma_lex_total(a.game_id, b.game_id);
    lemma_lex_total(a.user, b.user);
}

proof fn lemma_ranks_irreflexive(a: ResultView)
    ensures
        !ranks_above(a, a),
{
    lemma_lex_total(a.game_id, a.game_id);
    lemma_lex_total(a.user, a.user);
}

/// Whether `a` comes before `b` in lexicographic order.
fn lex_less(a: &str, b: &str) -> (r: bool)
    ensures
        r == lex_lt(a@, b@),
{
    let n = a.unicode_len();
    let m = b.unicode_len();
    let mut i: usize = 0;
    assert(a@.skip(0) =~= a@ && b@.skip(0) =~= b@);
    while i < n && i < m
        invariant
            i <= n == a@.len(),
            i <= m == b@.len(),
            lex_lt(a@, b@) == lex_lt(a@.skip(i as int), b@.skip(i as int)),
        decreases n - i,
    {
        let ca = a.get_char(i);
        let cb = b.get_char(i);
        assert(a@.skip(i as int)[0] == ca && b@.skip(i as int)[0] == cb);
        if ca != cb {
            return ca < cb;
        }
        assert(a@.skip(i as int).skip(1) =~= a@.skip(i + 1));
        assert(b@.skip(i as int).skip(1) =~= b@.skip(i + 1));
        i = i + 1;
    }
    proof {
        if i == n {
            assert(a@.skip(i as int).len() == 0);
        } else {
            assert(b@.skip(i as int).len() == 0);
        }
    }
    i == n && i < m
}

fn same_str(a: &str, b: &str) -> (r: bool)
    ensures
        r == (a@ == b@),
{
    proof {
        lemma_lex_total(a@, b@);
    }
    !lex_less(a, b) && !lex_less(b, a)
}

fn beats_exec(a: &UserResult, b: &UserResult) -> (r: bool)
    ensures
        r == beats(a@, b@),
{
    a.score > b.score || (a.score == b.score && lex_less(b.game_id.as_str(), a.game_id.as_str()))
}

fn ranks_above_exec(a: &UserResult, b: &UserResult) -> (r: bool)
    ensures
        r == ranks_above(a@, b@),
{
    beats_exec(a, b) || (a.score == b.score && same_str(a.game_id.as_str(), b.game_id.as_str())
        && lex_less(b.user.as_str(), a.user.as_str()))
}

/// The best result of every user, ranked from the top.
pub struct TopResults {
    results: Vec<UserResult>,
}

impl View for TopResults {
    type V = Seq<ResultView>;

    closed spec fn view(&self) -> Seq<ResultView> {
        result_views(self.results@)
    }
}

impl TopResults {
    /// An empty leaderboard.
    pub fn new() -> (r: TopResults)
        ensures
            r@.len() == 0,
            is_table(r@),
    {
        let r = TopResults { results: Vec::new() };
        assert(r@ =~= Seq::<ResultView>::empty());
        r
    }

    /// The rows, from the top.
    pub fn results(&self) -> (r: &Vec<UserResult>)
        ensures
            result_views(r@) == self@,
    {
        &self.results
    }

    /// Takes in one result: it becomes the user's row unless the user's row is at least as
    /// good; rows stay sorted from the top.
    #[verifier::rlimit(40)]
    pub fn add_result(&mut self, r: UserResult)
        requires
            is_table(old(self)@),
        ensures
            adds(old(self)@, r@, final(self)@),
    {
        let ghost before = self@;
        let mut i: usize = 0;
        while i < self.results.len()
            invariant
                i <= self.results.len(),
                self@ == before,
                forall|j: int| 0 <= j < i ==> (#[trigger] self@[j]).user != r@.user,
            ensures
                i <= self.results.len(),
                self@ == before,
                forall|j: int| 0 <= j < i ==> (#[trigger] self@[j]).user != r@.user,
                i < self.results.len() ==> self@[i as int].user == r@.user,
            decreases self.results.len() - i,
        {
            assert(self@[i as int] == self.results@[i as int]@);
            if same_str(self.results[i].user.as_str(), r.user.as_str()) {
                break;
            }
            i = i + 1;
        }
        let found = i < self.results.len();
        if found {
            assert(self@[i as int] == self.results@[i as int]@);
            let ghost e = before[i as int];
            proof {
                assert(before[i as int].user == r@.user);
                assert(before.to_set().contains(before[i as int]));
                let c = choose|c: ResultView| before.to_set().contains(c) && c.user == r@.user;
                let q = choose|q: int| 0 <= q < before.len() && before[q] == c;
                if q != i {
                    assert(before[q].user != before[i as int].user);
                }
            }
            if !beats_exec(&r, &self.results[i]) {
                return;
            }
            let ghost old_results = self.results@;
            self.results.remove(i);
            assert(self@ =~= before.remove(i as int));
        }
        let ghost mid = self@;
        proof {
            if found {
                lemma_remove_row(before, i as int);
            } else {
                assert forall|e: ResultView| before.to_set().contains(e) implies e.user != r@.user by {
                    let q = choose|q: int| 0 <= q < before.len() && before[q] == e;
                }
            }
            assert forall|j: int| 0 <= j < mid.len() implies (#[trigger] mid[j]).user != r@.user by {
                if found {
                    let j0 = if j < i { j } else { j + 1 };
                    assert(mid[j] == before[j0]);
                }
            }
        }
        let mut k: usize = 0;
        while k < self.results.len() && ranks_above_exec(&self.results[k], &r)
            invariant
                k <= self.results.len(),
                self@ == mid,
                forall|j: int| 0 <= j < k ==> ranks_above(#[trigger] mid[j], r@),
            decreases self.results.len() - k,
        {
            assert(self@[k as int] == self.results@[k as int]@);
            k = k + 1;
        }
        proof {
            if k < mid.len() {
                assert(self@[k as int] == self.results@[k as int]@);
                assert(mid[k as int] != r@);
                lemma_ranks_total(mid[k as int], r@);
            }
            lemma_insert_row(mid, r@, k as int);
        }
        self.results.insert(k, r);
        assert(self@ =~= mid.insert(k as int, r@));
    }

    /// Takes in the final score of every player of a finished game.
    pub fn add_results(&mut self, game_result: &GameResults)
        requires
            is_table(old(self)@),
        ensures
            is_table(final(self)@),
            final(self)@.to_set() == merged_all(
                old(self)@.to_set(),
                game_rows(player_views(game_result.players@), game_result.game_id@),
            ),
    {
        let ghost rows = game_rows(player_views(game_result.players@), game_result.game_id@);
        let mut k: usize = 0;
        while k < game_result.players.len()
            invariant
                k <= game_result.players.len(),
                rows == game_rows(player_views(game_result.players@), game_result.game_id@),
                is_table(self@),
                self@.to_set() == merged_all(old(self)@.to_set(), rows.take(k as int)),
            decreases game_result.players.len() - k,
        {
            let p = &game_result.players[k];
            let r = UserResult { score: p.score, game_id: game_result.game_id.clone(), user: p.name.clone() };
            assert(r@ == rows[k as int]);
            self.add_result(r);
            assert(rows.take(k + 1).drop_last() =~= rows.take(k as int));
            k = k + 1;
        }
        assert(rows.take(game_result.players.len() as int) =~= rows);
    }
}

/// The rows that a finished game contributes: each player's score under the game's id.
pub open spec fn game_rows(players: Seq<PlayerView>, game_id: Seq<char>) -> Seq<ResultView> {
    players.map_values(|p: PlayerView| ResultView { score: p.score, game_id, user: p.name })
}

/// Taking a row out of a leaderboard leaves a leaderboard without that row.
#[verifier::rlimit(40)]
proof fn lemma_remove_row(s: Seq<ResultView>, i: int)
    requires
        is_table(s),
        0 <= i < s.len(),
    ensures
        is_table(s.remove(i)),
        s.remove(i).to_set() == s.to_set().remove(s[i]),
{
    let m = s.remove(i);
    assert forall|a: int, b: int| 0 <= a < b < m.len() implies ranks_above(m[a], m[b]) && m[a].user
        != m[b].user by {
        let a0 = if a < i { a } else { a + 1 };
        let b0 = if b < i { b } else { b + 1 };
        assert(m[a] == s[a0] && m[b] == s[b0]);
    }
    assert(m.to_set() =~= s.to_set().remove(s[i])) by {
        assert forall|x: ResultView| m.to_set().contains(x) implies s.to_set().remove(s[i]).contains(x) by {
            let q = choose|q: int| 0 <= q < m.len() && m[q] == x;
            let q0 = if q < i { q } else { q + 1 };
            assert(s[q0] == x);
            assert(q0 != i);
            if x == s[i] {
                lemma_ranks_irreflexive(x);
                if q0 < i {
                    assert(ranks_above(s[q0], s[i]));
                } else {
                    assert(ranks_above(s[i], s[q0]));
                }
            }
        }
        assert forall|x: ResultView| s.to_set().remove(s[i]).contains(x) implies m.to_set().contains(x) by {
            let q0 = choose|q: int| 0 <= q < s.len() && s[q] == x;
            assert(q0 != i);
            let q = if q0 < i { q0 } else { q0 - 1 };
            assert(m[q] == x);
        }
    }
}

/// Inserting a row of a new user where it ranks keeps a leaderboard.
#[verifier::rlimit(40)]
proof fn lemma_insert_row(s: Seq<ResultView>, r: ResultView, k: int)
    requires
        is_table(s),
        0 <= k <= s.len(),
        forall|j: int| 0 <= j < s.len() ==> (#[trigger] s[j]).user != r.user,
        forall|j: int| 0 <= j < k ==> ranks_above(#[trigger] s[j], r),
        k < s.len() ==> ranks_above(r, s[k]),
    ensures
        is_table(s.insert(k, r)),
        s.insert(k, r).to_set() == s.to_set().insert(r),
{
    let t = s.insert(k, r);
    assert forall|a: int, b: int| 0 <= a < b < t.len() implies ranks_above(t[a], t[b]) && t[a].user
        != t[b].user by {
        if b < k {
        } else if b == k {
            assert(t[a] == s[a]);
        } else if a < k {
            assert(t[b] == s[b - 1]);
            if b - 1 > k {
                lemma_ranks_trans(r, s[k], s[b - 1]);
            }
            lemma_ranks_trans(s[a], r, s[b - 1]);
        } else if a == k {
            assert(t[b] == s[b - 1]);
            if b - 1 > k {
                lemma_ranks_trans(r, s[k], s[b - 1]);
            }
        } else {
            assert(t[a] == s[a - 1] && t[b] == s[b - 1]);
        }
    }
    assert(t.to_set() =~= s.to_set().insert(r)) by {
        assert forall|x: ResultView| t.to_set().contains(x) implies s.to_set().insert(r).contains(x) by {
            let q = choose|q: int| 0 <= q < t.len() && t[q] == x;
            if q != k {
                let q1 = if q < k { q } else { q - 1 };
                assert(s[q1] == x);
            }
        }
        assert forall|x: ResultView| s.to_set().insert(r).contains(x) implies t.to_set().contains(x) by {
            if x == r {
                assert(t[k] == x);
            } else {
                let q1 = choose|q: int| 0 <= q < s.len() && s[q] == x;
                let q = if q1 < k { q1 } else { q1 + 1 };
                assert(t[q] == x);
            }
        }
    }
}

/// No two rows of a set share a user.
pub open spec fn users_unique(rows: Set<ResultView>) -> bool {
    forall|a: ResultView, b: ResultView|
        rows.contains(a) && rows.contains(b) && a.user == b.user ==> a == b
}

proof fn lemma_table_users_unique(t: Seq<ResultView>)
    requires
        is_table(t),
    ensures
        users_unique(t.to_set()),
{
    assert forall|a: ResultView, b: ResultView|
        t.to_set().contains(a) && t.to_set().contains(b) && a.user == b.user implies a == b by {
        let i = choose|i: int| 0 <= i < t.len() && t[i] == a;
        let j = choose|j: int| 0 <= j < t.len() && t[j] == b;
        if i != j {
            if i < j {
                assert(t[i].user != t[j].user);
            } else {
                assert(t[j].user != t[i].user);
            }
        }
    }
}

/// After taking in `r`, the rows of `r`'s user score at least as much as `r` and as every row
/// of that user before; there is such a row; and it is `r` or a row from before.
proof fn lemma_merged_user(rows: Set<ResultView>, r: ResultView)
    requires
        users_unique(rows),
    ensures
        exists|x: ResultView| merged(rows, r).contains(x) && x.user == r.user,
        forall|x: ResultView|
            #![trigger merged(rows, r).contains(x)]
            merged(rows, r).contains(x) && x.user == r.user ==> {
                &&& x.score >= r.score
                &&& (x == r || rows.contains(x))
                &&& forall|y: ResultView| rows.contains(y) && y.user == r.user ==> x.score >= y.score
            },
{
    let m = merged(rows, r);
    if exists|e: ResultView| rows.contains(e) && e.user == r.user {
        let e = choose|e: ResultView| rows.contains(e) && e.user == r.user;
        if beats(r, e) {
            assert(m.contains(r));
        } else {
            assert(m.contains(e));
        }
    } else {
        assert(m.contains(r));
    }
}

/// Two results of one user from different games: afterwards the leaderboard is still sorted
/// from the top and holds exactly one row for that user, scoring at least as much as both
/// results, which is one of them or the user's earlier row.
pub proof fn lemma_best_result_kept(
    t: Seq<ResultView>,
    r1: ResultView,
    r2: ResultView,
    t1: Seq<ResultView>,
    t2: Seq<ResultView>,
)
    requires
        is_table(t),
        adds(t, r1, t1),
        adds(t1, r2, t2),
        r1.user == r2.user,
        r1.game_id != r2.game_id,
    ensures
        is_table(t2),
        exists|i: int|
            0 <= i < t2.len() && t2[i].user == r1.user && t2[i].score >= r1.score && t2[i].score
                >= r2.score && (t2[i] == r1 || t2[i] == r2 || t.contains(t2[i])),
        forall|i: int, j: int|
            0 <= i < t2.len() && 0 <= j < t2.len() && t2[i].user == r1.user && t2[j].user
                == r1.user ==> i == j,
{
    lemma_table_users_unique(t);
    lemma_table_users_unique(t1);
    lemma_merged_user(t.to_set(), r1);
    lemma_merged_user(t1.to_set(), r2);
    let x2 = choose|x: ResultView| merged(t1.to_set(), r2).contains(x) && x.user == r2.user;
    let x1 = choose|x: ResultView| merged(t.to_set(), r1).contains(x) && x.user == r1.user;
    assert(t2.to_set().contains(x2));
    assert(t1.to_set().contains(x1));
    assert(x2.score >= x1.score);
    if x2 != r2 {
        assert(t1.to_set().contains(x2));
        assert(x2 == x1);
    }
    let i = choose|i: int| 0 <= i < t2.len() && t2[i] == x2;
    assert(t2[i].user == r1.user);
}

/// `<user> <game_id> <score>` and a newline.
pub open spec fn row_pieces(r: ResultView) -> Seq<Piece> {
    seq![(r.user, ' '), (r.game_id, ' '), (int_text(r.score as int), '\n')]
}

pub open spec fn rows_pieces(rows: Seq<ResultView>) -> Seq<Piece>
    decreases rows.len(),
{
    if rows.len() == 0 {
        Seq::empty()
    } else {
        rows_pieces(rows.drop_last()) + row_pieces(rows.last())
    }
}

/// The rows that a leaderboard file's tokens spell, three tokens per row.
pub open spec fn rows_of(toks: Seq<Seq<char>>) -> Seq<ResultView> {
    Seq::new(
        (toks.len() / 3) as nat,
        |i: int|
            ResultView {
                user: toks[3 * i],
                game_id: toks[3 * i + 1],
                score: value_or_zero(i64_of(toks[3 * i + 2])) as i64,
            },
    )
}

/// Every third token, from the third on, is a score.
pub open spec fn scores_ok_before(toks: Seq<Seq<char>>, k: int) -> bool {
    forall|j: int| 0 <= j < k && j % 3 == 2 ==> i64_of(#[trigger] toks[j]) is Some
}

impl TopResults {
    /// The leaderboard file: one `<user> <game_id> <score>` line per row, from the top.
    pub fn to_text(&self) -> (r: String)
        ensures
            r@ == joined(rows_pieces(self@)),
    {
        let mut out = String::new();
        let mut i: usize = 0;
        while i < self.results.len()
            invariant
                i <= self.results.len(),
                out@ == joined(rows_pieces(self@.take(i as int))),
            decreases self.results.len() - i,
        {
            let row = &self.results[i];
            let ghost before = out@;
            push_piece_str(&mut out, row.user.as_str(), ' ');
            push_piece_str(&mut out, row.game_id.as_str(), ' ');
            push_piece_int(&mut out, row.score as i128, '\n');
            proof {
                let rs = self@.take(i + 1);
                assert(rs.drop_last() =~= self@.take(i as int));
                assert(rs.last() == row@);
                lemma_joined_append(rows_pieces(self@.take(i as int)), row_pieces(row@));
                let ps = row_pieces(row@);
                lemma_joined_one(Seq::<Piece>::empty(), ps[0]);
                lemma_joined_one(seq![ps[0]], ps[1]);
                lemma_joined_one(seq![ps[0], ps[1]], ps[2]);
                assert(Seq::<Piece>::empty().push(ps[0]) =~= seq![ps[0]]);
                assert(seq![ps[0]].push(ps[1]) =~= seq![ps[0], ps[1]]);
                assert(seq![ps[0], ps[1]].push(ps[2]) =~= ps);
                assert(joined(Seq::<Piece>::empty()) =~= Seq::<char>::empty());
                assert(out@ =~= before + joined(ps));
            }
            i = i + 1;
        }
        assert(self@.take(self.results.len() as int) =~= self@);
        out
    }

    /// Reads a leaderboard file: three tokens per row, the third an `i64`; rows go in as
    /// `add_result` takes them.
    #[verifier::rlimit(40)]
    pub fn from_text(text: &str) -> (r: Result<TopResults, DecodeError>)
        ensures
            ({
                let toks = tokens(text@);
                match r {
                    Ok(t) => {
                        &&& toks.len() % 3 == 0
                        &&& scores_ok_before(toks, toks.len() as int)
                        &&& is_table(t@)
                        &&& t@.to_set() == merged_all(Set::empty(), rows_of(toks))
                    },
                    Err(e) => {
                        &&& scores_ok_before(toks, e.index as int)
                        &&& (e.kind == DecodeErrorKind::MissingToken && e.index == toks.len()
                            && toks.len() % 3 != 0) || (e.kind == DecodeErrorKind::InvalidNumber
                            && e.index < toks.len() && e.index % 3 == 2 && i64_of(toks[e.index as int]) is None)
                    },
                }
            }),
    {
        let ghost toks = tokens(text@);
        let mut reader = TokenReader::new(text);
        let mut table = TopResults::new();
        assert(toks.skip(0) =~= toks);
        assert(Set::<ResultView>::empty() =~= table@.to_set());
        let mut k: usize = 0;
        loop
            invariant
                toks == tokens(text@),
                reader.wf(),
                reader.position() == 3 * k,
                3 * k <= toks.len(),
                reader.remaining() == toks.skip(3 * k),
                scores_ok_before(toks, 3 * k),
                is_table(table@),
                table@.to_set() == merged_all(Set::empty(), rows_of(toks).take(k as int)),
            decreases toks.len() - 3 * k,
        {
            let index = reader.tokens_read();
            proof {
                if 3 * k + 1 <= toks.len() {
                    assert(toks.skip(3 * k).drop_first() =~= toks.skip(3 * k + 1));
                }
                if 3 * k + 2 <= toks.len() {
                    assert(toks.skip(3 * k + 1).drop_first() =~= toks.skip(3 * k + 2));
                }
                if 3 * k + 3 <= toks.len() {
                    assert(toks.skip(3 * k + 2).drop_first() =~= toks.skip(3 * k + 3));
                }
            }
            let user = match reader.next() {
                Some(t) => t,
                None => {
                    assert(toks.len() == 3 * k);
                    assert((3 * k) % 3 == 0 && (3 * k) / 3 == k) by (nonlinear_arith);
                    assert(rows_of(toks).take(k as int) =~= rows_of(toks));
                    return Ok(table);
                },
            };
            let game_id = match reader.next() {
                Some(t) => t,
                None => {
                    assert((3 * k + 1) % 3 == 1) by (nonlinear_arith);
                    assert(scores_ok_before(toks, 3 * k + 1));
                    return Err(
                        DecodeError { index: reader.tokens_read(), kind: DecodeErrorKind::MissingToken },
                    );
                },
            };
            proof {
                assert((3 * k + 2) % 3 == 2) by (nonlinear_arith);
                assert(scores_ok_before(toks, 3 * k + 2));
            }
            let score = match reader.next_integer(i64::MIN as i128, i64::MAX as i128) {
                Ok(v) => v as i64,
                Err(e) => {
                    proof {
                        if 3 * k + 2 < toks.len() {
                            assert(toks.skip(3 * k + 2)[0] == toks[3 * k + 2]);
                        }
                    }
                    return Err(e);
                },
            };
            proof {
                assert(toks.skip(3 * k)[0] == toks[3 * k as int]);
                assert(toks.skip(3 * k + 1)[0] == toks[3 * k + 1]);
                assert(toks.skip(3 * k + 2)[0] == toks[3 * k + 2]);
                assert forall|j: int| 0 <= j < 3 * k + 3 && j % 3 == 2 implies i64_of(
                    #[trigger] toks[j],
                ) is Some by {
                    if j >= 3 * k {
                        assert(j == 3 * k + 2) by (nonlinear_arith)
                            requires 3 * k <= j < 3 * k + 3, j % 3 == 2;
                    }
                }
            }
            let row = UserResult { score, game_id: string_of(&game_id), user: string_of(&user) };
            assert(row@ == rows_of(toks)[k as int]);
            table.add_result(row);
            assert(rows_of(toks).take(k + 1).drop_last() =~= rows_of(toks).take(k as int));
            k = k + 1;
        }
    }
}

proof fn lemma_merged_unique(rows: Set<ResultView>, r: ResultView)
    requires
        users_unique(rows),
    ensures
        users_unique(merged(rows, r)),
        forall|x: ResultView| #[trigger] merged(rows, r).contains(x) ==> rows.contains(x) || x == r,
        forall|x: ResultView|
            rows.contains(x) && x.user != r.user ==> #[trigger] merged(rows, r).contains(x),
{
}

/// Taking in a list of results: every user with a row before or a result in the list has
/// exactly one row afterwards; that row is one of the user's rows or results, and scores at
/// least as much as each of them; no other user has a row.
pub proof fn lemma_best_rows(rows: Set<ResultView>, rs: Seq<ResultView>)
    requires
        users_unique(rows),
    ensures
        users_unique(merged_all(rows, rs)),
        forall|x: ResultView|
            #[trigger] merged_all(rows, rs).contains(x) ==> rows.contains(x) || rs.contains(x),
        forall|y: ResultView|
            rows.contains(y) || rs.contains(y) ==> exists|x: ResultView|
                #[trigger] merged_all(rows, rs).contains(x) && x.user == y.user && x.score
                    >= y.score,
    decreases rs.len(),
{
    if rs.len() > 0 {
        let init = rs.drop_last();
        let r = rs.last();
        lemma_best_rows(rows, init);
        let m = merged_all(rows, init);
        lemma_merged_unique(m, r);
        lemma_merged_user(m, r);
        let m2 = merged(m, r);
        assert(merged_all(rows, rs) == m2);
        assert forall|x: ResultView| #[trigger] m2.contains(x) implies rows.contains(x) || rs.contains(x) by {
            if x == r {
                assert(rs[rs.len() - 1] == r);
            } else {
                assert(m.contains(x));
                if init.contains(x) {
                    let k = choose|k: int| 0 <= k < init.len() && init[k] == x;
                    assert(rs[k] == x);
                }
            }
        }
        assert forall|y: ResultView| rows.contains(y) || rs.contains(y) implies exists|x: ResultView|
            #[trigger] m2.contains(x) && x.user == y.user && x.score >= y.score by {
            if y == r {
                let x = choose|x: ResultView| m2.contains(x) && x.user == r.user;
                assert(x.score >= r.score);
            } else {
                if rs.contains(y) {
                    let k = choose|k: int| 0 <= k < rs.len() && rs[k] == y;
                    assert(k < rs.len() - 1);
                    assert(init[k] == y);
                }
                let x0 = choose|x: ResultView| #[trigger] m.contains(x) && x.user == y.user && x.score >= y.score;
                if x0.user != r.user {
                    assert(m2.contains(x0));
                } else {
                    let x = choose|x: ResultView| m2.contains(x) && x.user == r.user;
                    assert(x.score >= x0.score);
                }
            }
        }
    }
}

} // verus!
