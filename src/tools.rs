use vstd::prelude::*;

use crate::location::Location;

verus! {

/// The predecessor recorded for `key`: the value of the first entry whose key it is.
pub open spec fn lookup(came_from: Seq<(Location, Location)>, key: Location) -> Option<Location>
    decreases came_from.len(),
{
    if came_from.len() == 0 {
        None
    } else if came_from[0].0 == key {
        Some(came_from[0].1)
    } else {
        lookup(came_from.drop_first(), key)
    }
}

/// The cells met walking predecessors from `current` back to `start`, `start`
/// excluded, most recent first; `None` when the walk breaks off or takes more
/// than `fuel` steps.
pub open spec fn chain_back(
    came_from: Seq<(Location, Location)>,
    start: Location,
    current: Location,
    fuel: nat,
) -> Option<Seq<Location>>
    decreases fuel,
{
    if current == start {
        Some(seq![])
    } else if fuel == 0 {
        None
    } else {
        match lookup(came_from, current) {
            None => None,
            Some(prev) => match chain_back(came_from, start, prev, (fuel - 1) as nat) {
                None => None,
                Some(rest) => Some(seq![current] + rest),
            },
        }
    }
}

/// The path from the step after `start` through `goal`, or empty when no
/// chain of predecessors leads from `goal` back to `start`. A walk longer than
/// the number of entries goes round a cycle and also counts as no chain.
pub open spec fn path_spec(start: Location, goal: Location, came_from: Seq<(Location, Location)>) -> Seq<
    Location,
> {
    match chain_back(came_from, start, goal, came_from.len()) {
        Some(back) => back.reverse(),
        None => seq![],
    }
}

/// The predecessor of `key` in `came_from`, if it has one.
pub fn find_predecessor(came_from: &Vec<(Location, Location)>, key: &Location) -> (r: Option<
    Location,
>)
    ensures
        r == lookup(came_from@, *key),
{
    let mut i: usize = 0;
    assert(came_from@.subrange(0, came_from@.len() as int) =~= came_from@);
    while i < came_from.len()
        invariant
            0 <= i <= came_from@.len(),
            lookup(came_from@, *key) == lookup(came_from@.subrange(i as int, came_from@.len() as int), *key),
        decreases came_from@.len() - i,
    {
        let ghost tail = came_from@.subrange(i as int, came_from@.len() as int);
        assert(tail.drop_first() =~= came_from@.subrange(i + 1, came_from@.len() as int));
        if came_from[i].0 == *key {
            return Some(came_from[i].1);
        }
        i += 1;
    }
    None
}

/// Walks the predecessors from `goal` back to `start` and returns the cells
/// from the step after `start` through `goal`; empty when there is no such chain.
pub fn reconstruct_path(start: &Location, goal: &Location, came_from: &Vec<(Location, Location)>) -> (r:
    Vec<Location>)
    ensures
        r@ == path_spec(*start, *goal, came_from@),
{
    let mut back: Vec<Location> = Vec::new();
    let mut current = *goal;
    let mut fuel: usize = came_from.len();
    while current != *start
        invariant
            fuel <= came_from@.len(),
            chain_back(came_from@, *start, *goal, came_from@.len() as nat) == match chain_back(
                came_from@,
                *start,
                current,
                fuel as nat,
            ) {
                Some(rest) => Some(back@ + rest),
                None => None,
            },
        decreases fuel,
    {
        if fuel == 0 {
            return Vec::new();
        }
        match find_predecessor(came_from, &current) {
            Some(prev) => {
                proof {
                    let ghost b = back@;
                    match chain_back(came_from@, *start, prev, (fuel - 1) as nat) {
                        Some(rest) => {
                            assert(b + (seq![current] + rest) =~= b.push(current) + rest);
                        },
                        None => {},
                    }
                }
                back.push(current);
                current = prev;
                fuel -= 1;
            },
            None => {
                return Vec::new();
            },
        }
    }
    assert(back@ + seq![] =~= back@);
    let mut path: Vec<Location> = Vec::new();
    let mut k: usize = back.len();
    while k > 0
        invariant
            k <= back@.len(),
            path@ =~= back@.reverse().take(back@.len() - k),
        decreases k,
    {
        k -= 1;
        path.push(back[k]);
        assert(path@ =~= back@.reverse().take(back@.len() - k));
    }
    assert(back@.reverse().take(back@.len() as int) =~= back@.reverse());
    path
}

/// When the goal is the start, the path is empty.
pub proof fn lemma_goal_is_start(start: Location, came_from: Seq<(Location, Location)>)
    ensures
        path_spec(start, start, came_from) == Seq::<Location>::empty(),
{
    assert(Seq::<Location>::empty().reverse() =~= Seq::<Location>::empty());
}

/// A goal other than the start that has no recorded predecessor gives an empty path.
pub proof fn lemma_unrecorded_goal(
    start: Location,
    goal: Location,
    came_from: Seq<(Location, Location)>,
)
    requires
        goal != start,
        lookup(came_from, goal) is None,
    ensures
        path_spec(start, goal, came_from) == Seq::<Location>::empty(),
{
}

/// No entry records `key`, so it has no predecessor.
pub proof fn lemma_lookup_absent(came_from: Seq<(Location, Location)>, key: Location)
    requires
        forall|j: int| 0 <= j < came_from.len() ==> (#[trigger] came_from[j]).0 != key,
    ensures
        lookup(came_from, key) is None,
    decreases came_from.len(),
{
    if came_from.len() > 0 {
        let rest = came_from.drop_first();
        assert forall|j: int| 0 <= j < rest.len() implies (#[trigger] rest[j]).0 != key by {
            assert(rest[j] == came_from[j + 1]);
        }
        lemma_lookup_absent(rest, key);
    }
}

/// A recorded predecessor comes from an entry of the list.
pub proof fn lemma_lookup_found(came_from: Seq<(Location, Location)>, key: Location)
    requires
        lookup(came_from, key) is Some,
    ensures
        exists|i: int|
            0 <= i < came_from.len() && #[trigger] came_from[i] == (key, lookup(came_from, key)->0),
    decreases came_from.len(),
{
    if came_from[0].0 == key {
        assert(came_from[0] == (key, lookup(came_from, key)->0));
    } else {
        let rest = came_from.drop_first();
        lemma_lookup_found(rest, key);
        let i = choose|i: int| 0 <= i < rest.len() && #[trigger] rest[i] == (key, lookup(rest, key)->0);
        assert(came_from[i + 1] == rest[i]);
    }
}

} // verus!
