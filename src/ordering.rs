use vstd::prelude::*;

use crate::game_state::{player_views, Player, PlayerView};

verus! {

/// `p` placed after the leading players with a higher score, and before the rest.
pub open spec fn insert_by_score(sorted: Seq<PlayerView>, p: PlayerView) -> Seq<PlayerView>
    decreases sorted.len(),
{
    if sorted.len() == 0 {
        seq![p]
    } else if sorted[0].score > p.score {
        seq![sorted[0]] + insert_by_score(sorted.skip(1), p)
    } else {
        seq![p] + sorted
    }
}

/// The players ordered by descending score; players with equal scores keep their order.
pub open spec fn sorted_by_score(s: Seq<PlayerView>) -> Seq<PlayerView>
    decreases s.len(),
{
    if s.len() == 0 {
        Seq::empty()
    } else {
        insert_by_score(sorted_by_score(s.skip(1)), s[0])
    }
}

pub open spec fn is_descending(s: Seq<PlayerView>) -> bool {
    forall|i: int, j: int| 0 <= i < j < s.len() ==> s[i].score >= s[j].score
}

proof fn lemma_insert_shape(sorted: Seq<PlayerView>, p: PlayerView, k: int)
    requires
        0 <= k <= sorted.len(),
        forall|i: int| 0 <= i < k ==> #[trigger] sorted[i].score > p.score,
        k < sorted.len() ==> sorted[k].score <= p.score,
    ensures
        insert_by_score(sorted, p) == sorted.take(k).push(p) + sorted.skip(k),
    decreases k,
{
    if k == 0 {
        assert(sorted.take(0).push(p) + sorted.skip(0) =~= seq![p] + sorted);
    } else {
        let rest = sorted.skip(1);
        assert forall|i: int| 0 <= i < k - 1 implies #[trigger] rest[i].score > p.score by {
            assert(rest[i] == sorted[i + 1]);
        }
        lemma_insert_shape(rest, p, k - 1);
        assert(seq![sorted[0]] + (rest.take(k - 1).push(p) + rest.skip(k - 1)) =~= sorted.take(
            k,
        ).push(p) + sorted.skip(k));
    }
}

proof fn lemma_insert_descending(sorted: Seq<PlayerView>, p: PlayerView)
    requires
        is_descending(sorted),
    ensures
        is_descending(insert_by_score(sorted, p)),
        insert_by_score(sorted, p).len() == sorted.len() + 1,
        forall|i: int|
            0 <= i < insert_by_score(sorted, p).len() ==> #[trigger] insert_by_score(sorted, p)[i]
                == p || sorted.contains(insert_by_score(sorted, p)[i]),
    decreases sorted.len(),
{
    if sorted.len() > 0 {
        let rest = sorted.skip(1);
        assert(is_descending(rest)) by {
            assert forall|i: int, j: int| 0 <= i < j < rest.len() implies rest[i].score
                >= rest[j].score by {
                assert(rest[i] == sorted[i + 1] && rest[j] == sorted[j + 1]);
            }
        }
        lemma_insert_descending(rest, p);
        let ins = insert_by_score(sorted, p);
        if sorted[0].score > p.score {
            let tail = insert_by_score(rest, p);
            assert forall|i: int| 0 <= i < tail.len() implies #[trigger] tail[i] == p
                || sorted.contains(tail[i]) by {
                if tail[i] != p {
                    let q = choose|q: int| 0 <= q < rest.len() && rest[q] == tail[i];
                    assert(sorted[q + 1] == tail[i]);
                }
            }
            assert forall|i: int| 0 <= i < tail.len() implies sorted[0].score >= (
            #[trigger] tail[i]).score by {
                if tail[i] != p {
                    let q = choose|q: int| 0 <= q < sorted.len() && sorted[q] == tail[i];
                    assert(q == 0 || sorted[0].score >= sorted[q].score);
                }
            }
            assert forall|i: int| 0 <= i < ins.len() implies #[trigger] ins[i] == p
                || sorted.contains(ins[i]) by {
                if i > 0 {
                    assert(ins[i] == tail[i - 1]);
                } else {
                    assert(sorted[0] == ins[0]);
                }
            }
            assert forall|i: int, j: int| 0 <= i < j < ins.len() implies ins[i].score
                >= ins[j].score by {
                assert(ins[j] == tail[j - 1]);
                if i > 0 {
                    assert(ins[i] == tail[i - 1]);
                }
            }
        } else {
            assert forall|i: int| 0 <= i < ins.len() implies #[trigger] ins[i] == p
                || sorted.contains(ins[i]) by {
                if i > 0 {
                    assert(ins[i] == sorted[i - 1]);
                }
            }
        }
    }
}

/// Orders the players by descending score; equal scores keep their order.
pub proof fn lemma_sorted_is_descending(s: Seq<PlayerView>)
    ensures
        is_descending(sorted_by_score(s)),
        sorted_by_score(s).len() == s.len(),
    decreases s.len(),
{
    if s.len() > 0 {
        lemma_sorted_is_descending(s.skip(1));
        lemma_insert_descending(sorted_by_score(s.skip(1)), s[0]);
    }
}

/// Sorting only rearranges: every player of the sorted list is one of the input.
pub proof fn lemma_sorted_members(s: Seq<PlayerView>)
    ensures
        forall|i: int|
            0 <= i < sorted_by_score(s).len() ==> s.contains(#[trigger] sorted_by_score(s)[i]),
    decreases s.len(),
{
    if s.len() > 0 {
        let rest = s.skip(1);
        lemma_sorted_members(rest);
        lemma_sorted_is_descending(rest);
        lemma_insert_descending(sorted_by_score(rest), s[0]);
        let t = sorted_by_score(s);
        assert forall|i: int| 0 <= i < t.len() implies s.contains(#[trigger] t[i]) by {
            if t[i] == s[0] {
                assert(s[0] == t[i]);
            } else {
                let r = sorted_by_score(rest);
                assert(r.contains(t[i]));
                let k = choose|k: int| 0 <= k < r.len() && r[k] == t[i];
                assert(rest.contains(t[i]));
                let q = choose|q: int| 0 <= q < rest.len() && rest[q] == t[i];
                assert(s[q + 1] == t[i]);
            }
        }
    }
}

/// Sorts the players by descending score, keeping the order of players with equal scores.
pub fn sort_by_score(players: Vec<Player>) -> (r: Vec<Player>)
    ensures
        player_views(r@) == sorted_by_score(player_views(players@)),
{
    let ghost all = player_views(players@);
    let mut rest = players;
    let mut sorted: Vec<Player> = Vec::new();
    while rest.len() > 0
        invariant
            rest.len() <= all.len(),
            player_views(rest@) == all.take(rest.len() as int),
            player_views(sorted@) == sorted_by_score(all.skip(rest.len() as int)),
            is_descending(player_views(sorted@)),
            sorted.len() + rest.len() == all.len(),
        decreases rest.len(),
    {
        let ghost n = rest.len() as int;
        let ghost before = player_views(sorted@);
        let ghost old_rest = rest@;
        assert(player_views(old_rest)[n - 1] == old_rest[n - 1]@);
        let p = rest.pop().unwrap();
        assert(p@ == all[n - 1]);
        assert(player_views(rest@) =~= all.take(n - 1));
        let mut k: usize = 0;
        while k < sorted.len() && sorted[k].score > p.score
            invariant
                k <= sorted.len(),
                forall|i: int| 0 <= i < k ==> #[trigger] player_views(sorted@)[i].score > p.score,
            decreases sorted.len() - k,
        {
            k = k + 1;
        }
        proof {
            lemma_insert_shape(before, p@, k as int);
            assert(all.skip(n - 1).skip(1) =~= all.skip(n));
            assert(all.skip(n - 1)[0] == p@);
            lemma_insert_descending(before, p@);
        }
        sorted.insert(k, p);
        assert(player_views(sorted@) =~= before.take(k as int).push(p@) + before.skip(k as int));
    }
    assert(all.skip(0) =~= all);
    sorted
}

} // verus!
