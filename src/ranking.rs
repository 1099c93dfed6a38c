use vstd::prelude::*;

use crate::game_state::Player;
use crate::text::{nat_text, push_char, push_nat};

verus! {

/// Where the run of equal scores that holds position `i` starts.
pub open spec fn run_start(s: Seq<i64>, i: int) -> int
    decreases i,
{
    if i <= 0 || s[i - 1] != s[i] {
        i
    } else {
        run_start(s, i - 1)
    }
}

/// Where the run of equal scores that holds position `i` ends (exclusive).
pub open spec fn run_end(s: Seq<i64>, i: int) -> int
    decreases s.len() - i,
{
    if i + 1 >= s.len() || s[i + 1] != s[i] {
        i + 1
    } else {
        run_end(s, i + 1)
    }
}

/// The place of position `i` in a standings list: `"3"` when its score is its own, `"2-4"`
/// for the places that a run of equal scores shares.
pub open spec fn place_label(s: Seq<i64>, i: int) -> Seq<char> {
    let a = run_start(s, i);
    let b = run_end(s, i);
    if a + 1 == b {
        nat_text(b as nat)
    } else {
        nat_text((a + 1) as nat) + seq!['-'] + nat_text(b as nat)
    }
}

pub open spec fn scores_of(ps: Seq<Player>) -> Seq<i64> {
    ps.map_values(|p: Player| p.score)
}

proof fn lemma_run_start(s: Seq<i64>, i: int, k: int)
    requires
        0 <= i <= k < s.len(),
        i == 0 || s[i - 1] != s[i],
        forall|q: int| i <= q <= k ==> #[trigger] s[q] == s[i],
    ensures
        run_start(s, k) == i,
    decreases k - i,
{
    if k > i {
        lemma_run_start(s, i, k - 1);
    }
}

proof fn lemma_run_end(s: Seq<i64>, k: int, j: int)
    requires
        0 <= k < j <= s.len(),
        j == s.len() || s[j] != s[k],
        forall|q: int| k <= q < j ==> #[trigger] s[q] == s[k],
    ensures
        run_end(s, k) == j,
    decreases j - k,
{
    if k + 1 < j {
        assert(s[k + 1] == s[k]);
        assert forall|q: int| k + 1 <= q < j implies #[trigger] s[q] == s[k + 1] by {}
        lemma_run_end(s, k + 1, j);
    }
}

/// The place label of every player of standings sorted by descending score.
pub fn calc_places(players: &Vec<Player>) -> (r: Vec<String>)
    ensures
        r.len() == players.len(),
        forall|i: int| 0 <= i < r.len() ==> #[trigger] r[i]@ == place_label(scores_of(players@), i),
{
    let ghost s = scores_of(players@);
    let n = players.len();
    let mut res: Vec<String> = Vec::new();
    let mut i: usize = 0;
    while i < n
        invariant
            i <= n == players.len(),
            s == scores_of(players@),
            res.len() == i,
            i == n || i == 0 || s[i - 1] != s[i as int],
            forall|q: int| 0 <= q < i ==> #[trigger] res[q]@ == place_label(s, q),
        decreases n - i,
    {
        let mut j = i;
        while j < n && players[j].score == players[i].score
            invariant
                i <= j <= n == players.len(),
                s == scores_of(players@),
                forall|q: int| i <= q < j ==> #[trigger] s[q] == s[i as int],
            decreases n - j,
        {
            j = j + 1;
        }
        assert(j > i) by {
            assert(s[i as int] == players@[i as int].score);
        }
        let mut label = String::new();
        if i + 1 == j {
            push_nat(&mut label, j as u128);
        } else {
            push_nat(&mut label, (i + 1) as u128);
            push_char(&mut label, '-');
            push_nat(&mut label, j as u128);
        }
        let ghost text = label@;
        proof {
            assert(j == n || s[j as int] != s[i as int]);
            assert forall|k: int| i <= k < j implies place_label(s, k) == text by {
                lemma_run_start(s, i as int, k);
                lemma_run_end(s, k, j as int);
                if i + 1 != j {
                    assert(text =~= nat_text((i + 1) as nat) + seq!['-'] + nat_text(j as nat));
                }
            }
        }
        while i < j
            invariant
                i <= j <= n == players.len(),
                res.len() == i,
                label@ == text,
                forall|q: int| 0 <= q < i ==> #[trigger] res[q]@ == place_label(s, q),
                forall|k: int| i <= k < j ==> place_label(s, k) == text,
            decreases j - i,
        {
            res.push(label.clone());
            i = i + 1;
        }
    }
    res
}

} // verus!
