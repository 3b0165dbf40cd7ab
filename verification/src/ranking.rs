//! The order of an answer: plays by falling score, those of equal score as
//! they came, and the same plays sorted into groups of one score each.

use crate::play::Play;
use vstd::prelude::*;

verus! {

/// The plays of `plays` that have this score, in the order in which `plays`
/// holds them.
pub open spec fn with_score(plays: Seq<Play>, score: usize) -> Seq<Play> {
    plays.filter(|play: Play| play.score == score)
}

/// No play is followed by one of a higher score.
pub open spec fn descending(plays: Seq<Play>) -> bool {
    forall|i: int, j: int| 0 <= i <= j < plays.len() ==> plays[i].score >= plays[j].score
}

/// `ranked` is `plays` put in order: the scores fall, and the plays of one
/// score stand as they stood in `plays`, none lost and none added.
pub open spec fn ranks(ranked: Seq<Play>, plays: Seq<Play>) -> bool {
    &&& descending(ranked)
    &&& forall|score: usize| #[trigger] with_score(ranked, score) == with_score(plays, score)
}

/// Among plays that all have another score, none has this one.
pub proof fn lemma_none_with_score(plays: Seq<Play>, score: usize)
    requires
        forall|i: int| 0 <= i < plays.len() ==> plays[i].score != score,
    ensures
        with_score(plays, score) == Seq::<Play>::empty(),
    decreases plays.len(),
{
    reveal(Seq::filter);
    if plays.len() > 0 {
        lemma_none_with_score(plays.drop_last(), score);
    }
}

/// One more play at the end is one more among those of its score, and
/// changes nothing for any other score.
pub proof fn lemma_with_score_push(plays: Seq<Play>, play: Play, score: usize)
    ensures
        with_score(plays.push(play), score) == if play.score == score {
            with_score(plays, score).push(play)
        } else {
            with_score(plays, score)
        },
{
    reveal(Seq::filter);
    assert(plays.push(play).drop_last() == plays);
}

/// A play put in at `at` shows among those of its score between the ones
/// before `at` and the ones from `at` on.
pub proof fn lemma_with_score_insert(plays: Seq<Play>, at: int, play: Play, score: usize)
    requires
        0 <= at <= plays.len(),
    ensures
        with_score(plays.insert(at, play), score) == with_score(plays.take(at), score)
            + with_score(seq![play], score) + with_score(plays.skip(at), score),
        with_score(plays, score) == with_score(plays.take(at), score) + with_score(
            plays.skip(at),
            score,
        ),
        with_score(seq![play], score) == if play.score == score {
            seq![play]
        } else {
            Seq::<Play>::empty()
        },
{
    let has = |play: Play| play.score == score;
    let before = plays.take(at);
    let after = plays.skip(at);
    assert(plays.insert(at, play) == before + seq![play] + after);
    assert(plays == before + after);
    Seq::filter_distributes_over_add(before + seq![play], after, has);
    Seq::filter_distributes_over_add(before, seq![play], has);
    Seq::filter_distributes_over_add(before, after, has);
    lemma_with_score_push(Seq::<Play>::empty(), play, score);
    lemma_none_with_score(Seq::<Play>::empty(), score);
    assert(Seq::<Play>::empty().push(play) == seq![play]);
}

/// What the plays of `plays` look like through `see`, one after the other.
pub open spec fn seen<V>(plays: Seq<Play>, see: spec_fn(Play) -> V) -> Seq<V> {
    Seq::new(plays.len(), |i: int| see(plays[i]))
}

/// Two lists with falling scores that look the same through `see` score by
/// score, in the plays of that score and in their order, look the same
/// through `see` as a whole, and have the same scores place by place.
pub proof fn lemma_same_order<V>(first: Seq<Play>, second: Seq<Play>, see: spec_fn(Play) -> V)
    requires
        descending(first),
        descending(second),
        forall|score: usize| #[trigger]
            seen(with_score(first, score), see) == seen(with_score(second, score), see),
    ensures
        seen(first, see) == seen(second, see),
        first.len() == second.len(),
        forall|i: int| 0 <= i < first.len() ==> (#[trigger] first[i]).score == second[i].score,
    decreases first.len(),
{
    reveal(Seq::filter);
    if first.len() == 0 {
        if second.len() > 0 {
            let score = second.last().score;
            assert(seen(with_score(first, score), see) == seen(with_score(second, score), see));
            assert(seen(with_score(second, score), see).len() > 0);
        }
        assert(seen(first, see) =~= seen(second, see));
    } else if second.len() == 0 {
        let score = first.last().score;
        assert(seen(with_score(first, score), see) == seen(with_score(second, score), see));
        assert(seen(with_score(first, score), see).len() > 0);
    } else {
        let low = first.last().score;
        let other = second.last().score;
        let a = first.drop_last();
        let b = second.drop_last();
        assert(with_score(first, low) == with_score(a, low).push(first.last()));
        assert(with_score(second, other) == with_score(b, other).push(second.last()));
        assert(seen(with_score(first, low), see) == seen(with_score(second, low), see));
        assert(seen(with_score(first, other), see) == seen(with_score(second, other), see));
        if low < other {
            // `second` holds a play of the score `low`, below the score of its last.
            assert(seen(with_score(second, low), see).len() > 0);
            if forall|i: int| 0 <= i < second.len() ==> second[i].score != low {
                lemma_none_with_score(second, low);
                assert(false);
            }
            let i = choose|i: int| 0 <= i < second.len() && second[i].score == low;
            assert(second[i].score >= second[second.len() - 1].score);
            assert(false);
        } else if other < low {
            assert(seen(with_score(first, other), see).len() > 0);
            if forall|i: int| 0 <= i < first.len() ==> first[i].score != other {
                lemma_none_with_score(first, other);
                assert(false);
            }
            let i = choose|i: int| 0 <= i < first.len() && first[i].score == other;
            assert(first[i].score >= first[first.len() - 1].score);
            assert(false);
        }
        assert(low == other);
        let left = seen(with_score(first, low), see);
        let right = seen(with_score(second, low), see);
        assert(left == seen(with_score(a, low), see).push(see(first.last())));
        assert(right == seen(with_score(b, low), see).push(see(second.last())));
        assert(left.last() == see(first.last()));
        assert(right.last() == see(second.last()));
        assert forall|score: usize| #[trigger]
            seen(with_score(a, score), see) == seen(with_score(b, score), see) by {
            assert(seen(with_score(first, score), see) == seen(with_score(second, score), see));
            if score == low {
                assert(left.drop_last() == seen(with_score(a, low), see));
                assert(right.drop_last() == seen(with_score(b, low), see));
            }
        }
        lemma_same_order(a, b, see);
        assert(seen(first, see) =~= seen(a, see).push(see(first.last())));
        assert(seen(second, see) =~= seen(b, see).push(see(second.last())));
        assert(first.len() == second.len()) by {
            assert(seen(a, see).len() == seen(b, see).len());
        }
        assert forall|i: int| 0 <= i < first.len() implies (#[trigger] first[i]).score
            == second[i].score by {
            if i < a.len() {
                assert(first[i] == a[i]);
                assert(second[i] == b[i]);
            }
        }
    }
}

/// There is one way only to put plays in order: two lists that both rank
/// `plays` are the same list.
pub proof fn lemma_ranking_is_unique(first: Seq<Play>, second: Seq<Play>, plays: Seq<Play>)
    requires
        ranks(first, plays),
        ranks(second, plays),
    ensures
        first == second,
{
    let itself = |play: Play| play;
    assert forall|score: usize| #[trigger]
        seen(with_score(first, score), itself) == seen(with_score(second, score), itself) by {
        assert(with_score(first, score) == with_score(plays, score));
        assert(with_score(second, score) == with_score(plays, score));
    }
    lemma_same_order(first, second, itself);
    assert forall|i: int| 0 <= i < first.len() implies first[i] == second[i] by {
        assert(seen(first, itself)[i] == seen(second, itself)[i]);
    }
    assert(first =~= second);
}

/// Puts plays in order of falling score. Plays of equal score keep the order
/// in which they came.
pub fn rank(plays: Vec<Play>) -> (ranked: Vec<Play>)
    ensures
        ranks(ranked@, plays@),
        ranked@.len() == plays@.len(),
        forall|i: int| 0 <= i < ranked@.len() ==> plays@.contains(#[trigger] ranked@[i]),
{
    let ghost all = plays@;
    let mut ranked: Vec<Play> = Vec::new();
    assert(all.take(0) == ranked@);
    for play in it: plays
        invariant
            it.seq() == all,
            ranked@.len() == it.index(),
            ranks(ranked@, all.take(it.index())),
            forall|i: int| 0 <= i < ranked@.len() ==> all.contains(#[trigger] ranked@[i]),
    {
        let ghost placed = ranked@;
        let ghost seen = all.take(it.index());
        let mut at: usize = ranked.len();
        while at > 0 && ranked[at - 1].score < play.score
            invariant
                at <= ranked.len(),
                forall|j: int| at <= j < ranked.len() ==> ranked@[j].score < play.score,
            decreases at,
        {
            at = at - 1;
        }
        ranked.insert(at, play);
        proof {
            assert(all[it.index()] == play);
            assert forall|i: int| 0 <= i < ranked@.len() implies all.contains(
                #[trigger] ranked@[i],
            ) by {
                if i < at {
                    assert(ranked@[i] == placed[i]);
                } else if i > at {
                    assert(ranked@[i] == placed[i - 1]);
                }
            }
            assert(all.take(it.index() + 1) == seen.push(play));
            assert forall|score: usize| #[trigger]
                with_score(ranked@, score) == with_score(seen.push(play), score) by {
                lemma_with_score_insert(placed, at as int, play, score);
                lemma_with_score_push(seen, play, score);
                assert(with_score(placed, score) == with_score(seen, score));
                if play.score == score {
                    lemma_none_with_score(placed.skip(at as int), score);
                }
            }
        }
    }
    assert(all.take(all.len() as int) == all);
    ranked
}

/// The plays of one score.
#[derive(Debug)]
pub struct ScoreGroup {
    pub score: usize,
    pub plays: Vec<Play>,
}

/// One of the groups has this score.
pub open spec fn has_group(groups: Seq<ScoreGroup>, score: usize) -> bool {
    exists|g: int| 0 <= g < groups.len() && (#[trigger] groups[g]).score == score
}

/// Whether `groups` sorts `plays` by score: each group holds all the plays of
/// its score, in the order in which `plays` holds them, and no group is
/// empty; the groups' scores fall from each group to the next; and every play
/// has its group.
pub open spec fn groups_of(groups: Seq<ScoreGroup>, plays: Seq<Play>) -> bool {
    &&& forall|g: int|
        0 <= g < groups.len() ==> {
            &&& (#[trigger] groups[g]).plays@ == with_score(plays, groups[g].score)
            &&& groups[g].plays@.len() > 0
        }
    &&& forall|a: int, b: int|
        0 <= a < b < groups.len() ==> (#[trigger] groups[a]).score > (#[trigger] groups[b]).score
    &&& forall|i: int| 0 <= i < plays.len() ==> has_group(groups, (#[trigger] plays[i]).score)
}

/// Sorts plays into groups of equal score, the highest score first. Inside a
/// group the plays keep the order in which they came.
pub fn group_by_score(plays: Vec<Play>) -> (groups: Vec<ScoreGroup>)
    ensures
        groups_of(groups@, plays@),
{
    let ghost all = plays@;
    let mut groups: Vec<ScoreGroup> = Vec::new();
    assert(all.take(0) == Seq::<Play>::empty());
    for play in it: plays
        invariant
            it.seq() == all,
            groups_of(groups@, all.take(it.index())),
    {
        let ghost seen = all.take(it.index());
        let ghost grown = seen.push(play);
        let ghost before = groups@;
        let score: usize = play.score;
        let mut at: usize = groups.len();
        while at > 0 && groups[at - 1].score < score
            invariant
                at <= groups.len(),
                forall|g: int| at <= g < groups.len() ==> groups@[g].score < score,
            decreases at,
        {
            at = at - 1;
        }
        assert(all.take(it.index() + 1) == grown);
        if at > 0 && groups[at - 1].score == score {
            groups[at - 1].plays.push(play);
            proof {
                let now = groups@;
                assert(now.len() == before.len());
                assert(now[at - 1].score == score);
                assert(now[at - 1].plays@ == before[at - 1].plays@.push(play));
                assert forall|g: int| 0 <= g < now.len() && g != at - 1 implies now[g]
                    == before[g] by {}
                lemma_group_joined(before, now, seen, play, at - 1);
            }
        } else {
            let mut first: Vec<Play> = Vec::new();
            first.push(play);
            let group = ScoreGroup { score, plays: first };
            groups.insert(at, group);
            proof {
                assert(group.plays@ == seq![play]);
                if at > 0 {
                    assert(before[at - 1].score > score);
                }
                lemma_group_opened(before, groups@, seen, play, at as int, group);
            }
        }
    }
    assert(all.take(all.len() as int) == all);
    groups
}

/// A play that joins the group of its score leaves the groups in order.
proof fn lemma_group_joined(
    before: Seq<ScoreGroup>,
    now: Seq<ScoreGroup>,
    seen: Seq<Play>,
    play: Play,
    at: int,
)
    requires
        groups_of(before, seen),
        0 <= at < before.len(),
        now.len() == before.len(),
        before[at].score == play.score,
        now[at].score == play.score,
        now[at].plays@ == before[at].plays@.push(play),
        forall|g: int| 0 <= g < now.len() && g != at ==> now[g] == before[g],
    ensures
        groups_of(now, seen.push(play)),
{
    let grown = seen.push(play);
    assert forall|g: int| 0 <= g < now.len() implies {
        &&& (#[trigger] now[g]).plays@ == with_score(grown, now[g].score)
        &&& now[g].plays@.len() > 0
    } by {
        lemma_with_score_push(seen, play, now[g].score);
        assert(now[g].score == before[g].score);
        if g != at {
            assert(before[g].score != before[at].score) by {
                if g < at {
                    assert(before[g].score > before[at].score);
                } else {
                    assert(before[at].score > before[g].score);
                }
            }
        }
    }
    assert forall|a: int, b: int| 0 <= a < b < now.len() implies (#[trigger] now[a]).score > (
    #[trigger] now[b]).score by {
        assert(now[a].score == before[a].score);
        assert(now[b].score == before[b].score);
    }
    assert forall|i: int| 0 <= i < grown.len() implies has_group(
        now,
        (#[trigger] grown[i]).score,
    ) by {
        if i < seen.len() {
            assert(has_group(before, seen[i].score));
            let g = choose|g: int|
                0 <= g < before.len() && (#[trigger] before[g]).score == seen[i].score;
            assert(now[g].score == before[g].score);
        } else {
            assert(now[at].score == grown[i].score);
        }
    }
}

/// A play whose score has no group yet opens one, at the place that keeps
/// the scores falling.
proof fn lemma_group_opened(
    before: Seq<ScoreGroup>,
    now: Seq<ScoreGroup>,
    seen: Seq<Play>,
    play: Play,
    at: int,
    group: ScoreGroup,
)
    requires
        groups_of(before, seen),
        0 <= at <= before.len(),
        now == before.insert(at, group),
        group.score == play.score,
        group.plays@ == seq![play],
        forall|g: int| 0 <= g < at ==> (#[trigger] before[g]).score > play.score,
        forall|g: int| at <= g < before.len() ==> (#[trigger] before[g]).score < play.score,
    ensures
        groups_of(now, seen.push(play)),
{
    let grown = seen.push(play);
    assert forall|i: int| 0 <= i < seen.len() implies seen[i].score != play.score by {
        assert(has_group(before, seen[i].score));
    }
    lemma_none_with_score(seen, play.score);
    assert(Seq::<Play>::empty().push(play) == seq![play]);
    assert forall|g: int| 0 <= g < now.len() implies {
        &&& (#[trigger] now[g]).plays@ == with_score(grown, now[g].score)
        &&& now[g].plays@.len() > 0
    } by {
        lemma_with_score_push(seen, play, now[g].score);
        if g < at {
            assert(now[g] == before[g]);
        } else if g > at {
            assert(now[g] == before[g - 1]);
        }
    }
    assert forall|a: int, b: int| 0 <= a < b < now.len() implies (#[trigger] now[a]).score > (
    #[trigger] now[b]).score by {
        let low = if a < at { a } else { a - 1 };
        let high = if b < at { b } else { b - 1 };
        if a != at {
            assert(now[a] == before[low]);
        }
        if b != at {
            assert(now[b] == before[high]);
        }
        if a != at && b != at {
            assert(before[low].score > before[high].score);
        }
    }
    assert forall|i: int| 0 <= i < grown.len() implies has_group(
        now,
        (#[trigger] grown[i]).score,
    ) by {
        if i < seen.len() {
            assert(has_group(before, seen[i].score));
            let g = choose|g: int|
                0 <= g < before.len() && (#[trigger] before[g]).score == seen[i].score;
            if g < at {
                assert(now[g] == before[g]);
            } else {
                assert(now[g + 1] == before[g]);
            }
        } else {
            assert(now[at].score == grown[i].score);
        }
    }
}

} // verus!
