//! The turn scheduler: whose turn it is, and the order in which the
//! enemies act.

use crate::grid::EnemyId;
use vstd::prelude::*;

verus! {

/// Whose turn it is.
#[derive(Debug, Clone, Copy, PartialEq, Eq, Structural)]
pub enum Turn {
    /// The allies act, in any order.
    Ally,
    /// The enemy at this place of the turn order acts. The flag says that
    /// it has begun its move and the scheduler waits for the move to end.
    Enemy(usize, bool),
}

/// What the scheduler is told.
#[derive(Debug, Clone, Copy, PartialEq, Eq, Structural)]
pub enum Signal {
    /// Every ally has acted, or the player skips the rest of the phase.
    AlliesDone,
    /// The enemy whose turn it is has a plan and begins to move.
    MoveStarted,
    /// The action of the enemy whose turn it is has been applied.
    ActionResolved,
    /// The enemy whose turn it is found nothing to do.
    NoAction,
    /// The effects of the round's end have been applied.
    RoundOver,
}

impl Turn {
    /// The state after `signal`, for a turn order of `order_len` enemies.
    /// A signal that does not fit the state leaves it as it is.
    pub open spec fn spec_after(self, signal: Signal, order_len: int) -> Turn {
        match (self, signal) {
            (Turn::Ally, Signal::AlliesDone) => Turn::Enemy(0, false),
            (Turn::Enemy(i, false), Signal::MoveStarted) => if i < order_len {
                Turn::Enemy(i, true)
            } else {
                self
            },
            (Turn::Enemy(i, true), Signal::ActionResolved) => if i < usize::MAX {
                Turn::Enemy((i + 1) as usize, false)
            } else {
                self
            },
            (Turn::Enemy(i, false), Signal::NoAction) => if i < order_len && i < usize::MAX {
                Turn::Enemy((i + 1) as usize, false)
            } else {
                self
            },
            (Turn::Enemy(i, false), Signal::RoundOver) => if i >= order_len {
                Turn::Ally
            } else {
                self
            },
            _ => self,
        }
    }

    /// The state after `signal`.
    pub fn after(self, signal: Signal, order_len: usize) -> (next: Turn)
        ensures
            next == self.spec_after(signal, order_len as int),
    {
        match (self, signal) {
            (Turn::Ally, Signal::AlliesDone) => Turn::Enemy(0, false),
            (Turn::Enemy(i, false), Signal::MoveStarted) => {
                if i < order_len {
                    Turn::Enemy(i, true)
                } else {
                    self
                }
            },
            (Turn::Enemy(i, true), Signal::ActionResolved) => {
                if i < usize::MAX {
                    Turn::Enemy(i + 1, false)
                } else {
                    self
                }
            },
            (Turn::Enemy(i, false), Signal::NoAction) => {
                if i < order_len && i < usize::MAX {
                    Turn::Enemy(i + 1, false)
                } else {
                    self
                }
            },
            (Turn::Enemy(i, false), Signal::RoundOver) => {
                if i >= order_len {
                    Turn::Ally
                } else {
                    self
                }
            },
            _ => self,
        }
    }
}

/// Whether the faster enemy always comes first.
pub open spec fn sorted_by_speed(order: Seq<(EnemyId, u16)>) -> bool {
    forall|i: int, j: int| 0 <= i < j < order.len() ==> order[i].1 >= order[j].1
}

/// The test for an entry of one speed.
pub open spec fn has_speed(speed: u16) -> spec_fn((EnemyId, u16)) -> bool {
    |entry: (EnemyId, u16)| entry.1 == speed
}

/// The entries of one speed, in the order in which they stand.
pub open spec fn with_speed(order: Seq<(EnemyId, u16)>, speed: u16) -> Seq<(EnemyId, u16)> {
    order.filter(has_speed(speed))
}

/// Whether `sorted` is `order` sorted by falling speed, the entries of
/// equal speed in the order that they had.
pub open spec fn is_turn_order_of(sorted: Seq<(EnemyId, u16)>, order: Seq<(EnemyId, u16)>) -> bool {
    &&& sorted.len() == order.len()
    &&& sorted_by_speed(sorted)
    &&& forall|speed: u16| #[trigger] with_speed(sorted, speed) == with_speed(order, speed)
}

/// Putting `entry` behind the entries that are at least as fast, and
/// before the slower ones, keeps the entries of each speed in order.
proof fn lemma_insert_keeps_speeds(
    sorted: Seq<(EnemyId, u16)>,
    k: int,
    entry: (EnemyId, u16),
    speed: u16,
)
    requires
        0 <= k <= sorted.len(),
        forall|j: int| k <= j < sorted.len() ==> (#[trigger] sorted[j]).1 < entry.1,
    ensures
        with_speed(sorted.insert(k, entry), speed) == if speed == entry.1 {
            with_speed(sorted, speed).push(entry)
        } else {
            with_speed(sorted, speed)
        },
{
    let pred = has_speed(speed);
    let head = sorted.subrange(0, k);
    let tail = sorted.subrange(k, sorted.len() as int);
    assert(sorted =~= head + tail);
    assert(sorted.insert(k, entry) =~= head.push(entry) + tail);
    Seq::filter_distributes_over_add(head, tail, pred);
    Seq::filter_distributes_over_add(head.push(entry), tail, pred);
    head.lemma_filter_push(entry, pred);
    if speed == entry.1 {
        assert(tail.all(|x: (EnemyId, u16)| !pred(x))) by {
            assert forall|j: int| 0 <= j < tail.len() implies !pred(#[trigger] tail[j]) by {
                assert(tail[j] == sorted[k + j]);
            }
        }
        tail.lemma_all_neg_filter_empty(pred);
        assert(tail.filter(pred) =~= Seq::empty());
        assert(with_speed(sorted.insert(k, entry), speed) =~= with_speed(sorted, speed).push(
            entry,
        ));
    }
}

/// Sorts the turn order by falling speed. Entries of equal speed keep the
/// order they had.
pub fn sort_turn_order(order: &mut Vec<(EnemyId, u16)>)
    ensures
        is_turn_order_of(final(order)@, old(order)@),
        forall|k: int|
            0 <= k < final(order)@.len() ==> old(order)@.contains(#[trigger] final(order)@[k]),
{
    let mut sorted: Vec<(EnemyId, u16)> = Vec::new();
    let mut i: usize = 0;
    proof {
        assert(order@.take(0) =~= Seq::empty());
    }
    while i < order.len()
        invariant
            i <= order@.len(),
            order@ == old(order)@,
            is_turn_order_of(sorted@, order@.take(i as int)),
            forall|k: int| 0 <= k < sorted@.len() ==> order@.contains(#[trigger] sorted@[k]),
        decreases order@.len() - i,
    {
        let entry = order[i];
        let mut k: usize = 0;
        while k < sorted.len() && sorted[k].1 >= entry.1
            invariant
                k <= sorted@.len(),
                forall|j: int| 0 <= j < k ==> (#[trigger] sorted@[j]).1 >= entry.1,
            decreases sorted@.len() - k,
        {
            k += 1;
        }
        let ghost before = sorted@;
        sorted.insert(k, entry);
        proof {
            assert forall|j: int| 0 <= j < sorted@.len() implies order@.contains(
                #[trigger] sorted@[j],
            ) by {
                if j < k {
                    assert(sorted@[j] == before[j]);
                } else if j == k {
                    assert(order@[i as int] == entry);
                } else {
                    assert(sorted@[j] == before[j - 1]);
                }
            }
            let taken = order@.take(i as int);
            let more = order@.take(i + 1);
            assert(more =~= taken.push(entry));
            assert forall|j: int| k <= j < before.len() implies (#[trigger] before[j]).1
                < entry.1 by {
                if j > k {
                    assert(before[k as int].1 >= before[j].1);
                }
            }
            assert forall|speed: u16| #[trigger]
                with_speed(sorted@, speed) == with_speed(more, speed) by {
                lemma_insert_keeps_speeds(before, k as int, entry, speed);
                taken.lemma_filter_push(entry, has_speed(speed));
                assert(with_speed(before, speed) == with_speed(taken, speed));
            }
            assert forall|a: int, b: int| 0 <= a < b < sorted@.len() implies sorted@[a].1
                >= sorted@[b].1 by {
                let pa = if a < k { a } else { a - 1 };
                let pb = if b < k { b } else { b - 1 };
                if a != k && b != k {
                    assert(before[pa].1 >= before[pb].1);
                } else if a == k {
                    assert(sorted@[b] == before[b - 1]);
                } else {
                    assert(sorted@[a] == before[a]);
                }
            }
        }
        i += 1;
    }
    proof {
        assert(order@.take(order@.len() as int) =~= order@);
    }
    *order = sorted;
}

/// The test for an entry of another enemy than `id`.
pub open spec fn other_than(id: EnemyId) -> spec_fn((EnemyId, u16)) -> bool {
    |entry: (EnemyId, u16)| entry.0 != id
}

/// Takes the enemy `id` out of the turn order. The others keep their
/// places in it.
pub fn remove_from_order(order: &mut Vec<(EnemyId, u16)>, id: EnemyId)
    ensures
        final(order)@ == old(order)@.filter(other_than(id)),
        forall|k: int|
            0 <= k < final(order)@.len() ==> (#[trigger] final(order)@[k]).0 != id && old(
                order,
            )@.contains(final(order)@[k]),
        sorted_by_speed(old(order)@) ==> sorted_by_speed(final(order)@),
{
    let mut kept: Vec<(EnemyId, u16)> = Vec::new();
    let ghost mut origin: Seq<int> = Seq::empty();
    let mut i: usize = 0;
    proof {
        assert(order@.take(0) =~= Seq::empty());
        assert(order@.take(0).filter(other_than(id)) =~= Seq::empty()) by {
            reveal(Seq::filter);
        }
    }
    while i < order.len()
        invariant
            i <= order@.len(),
            order@ == old(order)@,
            kept@ == order@.take(i as int).filter(other_than(id)),
            origin.len() == kept@.len(),
            forall|k: int|
                0 <= k < kept@.len() ==> 0 <= #[trigger] origin[k] < i && kept@[k] == order@[origin[k]]
                    && kept@[k].0 != id,
            forall|j: int, k: int| 0 <= j < k < origin.len() ==> origin[j] < origin[k],
        decreases order@.len() - i,
    {
        let entry = order[i];
        proof {
            assert(order@.take(i + 1) =~= order@.take(i as int).push(entry));
            order@.take(i as int).lemma_filter_push(entry, other_than(id));
        }
        if entry.0 != id {
            kept.push(entry);
            proof {
                origin = origin.push(i as int);
            }
        }
        i += 1;
    }
    proof {
        assert(order@.take(order@.len() as int) =~= order@);
        assert forall|k: int| 0 <= k < kept@.len() implies old(order)@.contains(
            #[trigger] kept@[k],
        ) by {
            assert(old(order)@[origin[k]] == kept@[k]);
        }
        if sorted_by_speed(old(order)@) {
            assert forall|a: int, b: int| 0 <= a < b < kept@.len() implies kept@[a].1
                >= kept@[b].1 by {
                assert(kept@[a] == order@[origin[a]]);
                assert(kept@[b] == order@[origin[b]]);
            }
        }
    }
    *order = kept;
}

/// The test for another id than `id`.
pub open spec fn other_id(id: EnemyId) -> spec_fn(EnemyId) -> bool {
    |queued: EnemyId| queued != id
}

/// Takes the enemy `id` out of a queue of ids.
pub fn remove_from_queue(queue: &mut Vec<EnemyId>, id: EnemyId)
    ensures
        final(queue)@ == old(queue)@.filter(other_id(id)),
        forall|k: int|
            0 <= k < final(queue)@.len() ==> (#[trigger] final(queue)@[k]) != id && old(
                queue,
            )@.contains(final(queue)@[k]),
{
    let mut kept: Vec<EnemyId> = Vec::new();
    let mut i: usize = 0;
    proof {
        assert(queue@.take(0) =~= Seq::empty());
        assert(queue@.take(0).filter(other_id(id)) =~= Seq::empty()) by {
            reveal(Seq::filter);
        }
    }
    while i < queue.len()
        invariant
            i <= queue@.len(),
            queue@ == old(queue)@,
            kept@ == queue@.take(i as int).filter(other_id(id)),
            forall|k: int|
                0 <= k < kept@.len() ==> (#[trigger] kept@[k]) != id && queue@.contains(kept@[k]),
        decreases queue@.len() - i,
    {
        let queued = queue[i];
        proof {
            assert(queue@.take(i + 1) =~= queue@.take(i as int).push(queued));
            queue@.take(i as int).lemma_filter_push(queued, other_id(id));
            assert(queue@[i as int] == queued);
        }
        if queued != id {
            kept.push(queued);
        }
        i += 1;
    }
    proof {
        assert(queue@.take(queue@.len() as int) =~= queue@);
    }
    *queue = kept;
}

} // verus!
