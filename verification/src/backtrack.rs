//! The state of the backtracking search as mathematics: a stack of candidate
//! lists, one for each depth reached, what it still owes, and how much work
//! it has left.
//!
//! The list at depth 0 holds the start. In every list below the top the last
//! candidate is the one the search is inside of; the others still wait. In
//! the top list all wait.

use vstd::prelude::*;
use crate::pathes::{PathView, is_path_between, links, lists};
use crate::relation::{Recipe, connected};

verus! {

/// The start, the steps and the end in one run.
pub open spec fn whole(from: Seq<char>, steps: Seq<Seq<char>>, to: Seq<char>) -> Seq<Seq<char>> {
    seq![from] + steps + seq![to]
}

/// Below `depth`, `chain` goes through the candidates that the search is
/// inside of.
pub open spec fn follows(frames: Seq<Seq<Seq<char>>>, chain: Seq<Seq<char>>, depth: int) -> bool {
    forall|j: int| 0 <= j < depth ==> (#[trigger] frames[j]).len() > 0 && chain[j] == frames[j].last()
}

/// `chain` leaves the way of the search at `depth`, through a candidate that
/// still waits there.
pub open spec fn pending_at(frames: Seq<Seq<Seq<char>>>, chain: Seq<Seq<char>>, depth: int) -> bool {
    &&& 0 <= depth < frames.len()
    &&& follows(frames, chain, depth)
    &&& if depth == frames.len() - 1 {
        frames[depth].contains(chain[depth])
    } else {
        frames[depth].drop_last().contains(chain[depth])
    }
}

/// The search has yet to come to `chain`.
pub open spec fn pending(frames: Seq<Seq<Seq<char>>>, chain: Seq<Seq<char>>) -> bool {
    exists|depth: int| #[trigger] pending_at(frames, chain, depth)
}

/// The stack is in order: no deeper than the steps asked for, no candidate
/// twice in a list, every list below the top with a candidate in turn, and
/// every candidate one step away from the one in turn a level below.
pub open spec fn frames_ok(
    recipes: Seq<Recipe>,
    from: Seq<char>,
    steps_n: int,
    bound: int,
    frames: Seq<Seq<Seq<char>>>,
) -> bool {
    &&& frames.len() <= steps_n + 1
    &&& forall|d: int|
        0 <= d < frames.len() ==> (#[trigger] frames[d]).no_duplicates() && frames[d].len() <= bound
    &&& forall|d: int| 0 <= d < frames.len() - 1 ==> (#[trigger] frames[d]).len() > 0
    &&& forall|k: int| frames.len() > 0 && 0 <= k < frames[0].len() ==> #[trigger] frames[0][k] == from
    &&& forall|d: int, k: int|
        1 <= d < frames.len() && 0 <= k < frames[d].len() ==> connected(
            recipes,
            frames[d - 1].last(),
            #[trigger] frames[d][k],
        )
}

/// What holds between the stack and the paths found so far: every path found
/// is a way between the two ends that the search is done with, none was found
/// twice, and every way there is was found or is yet to come.
#[verifier::opaque]
pub open spec fn search_inv(
    recipes: Seq<Recipe>,
    from: Seq<char>,
    to: Seq<char>,
    steps_n: int,
    bound: int,
    frames: Seq<Seq<Seq<char>>>,
    found: Seq<PathView>,
) -> bool {
    &&& 0 <= steps_n
    &&& 1 <= bound
    &&& frames_ok(recipes, from, steps_n, bound, frames)
    &&& forall|i: int|
        0 <= i < found.len() ==> is_path_between(
            recipes,
            from,
            to,
            steps_n as nat,
            #[trigger] found[i],
        )
    &&& forall|i: int, j: int|
        0 <= i < j < found.len() ==> (#[trigger] found[i]).path != (#[trigger] found[j]).path
    &&& forall|i: int| 0 <= i < found.len() ==> !pending(frames, (#[trigger] found[i]).chain())
    &&& forall|steps: Seq<Seq<char>>|
        steps.len() == steps_n && #[trigger] links(recipes, from, steps, to) ==> lists(found, steps)
            || pending(frames, whole(from, steps, to))
}

/// The elements that the search is inside of, from depth 1 on: the steps of
/// the way it is on.
pub open spec fn on_stack(frames: Seq<Seq<Seq<char>>>) -> Seq<Seq<char>> {
    Seq::new((frames.len() - 1) as nat, |k: int| frames[k + 1].last())
}

/// With the start alone on the stack and nothing found, everything is yet to
/// come.
pub proof fn lemma_search_begins(
    recipes: Seq<Recipe>,
    from: Seq<char>,
    to: Seq<char>,
    steps_n: int,
    bound: int,
)
    requires
        0 <= steps_n,
        1 <= bound,
    ensures
        search_inv(recipes, from, to, steps_n, bound, seq![seq![from]], Seq::empty()),
{
    reveal(search_inv);
    let frames = seq![seq![from]];
    assert forall|steps: Seq<Seq<char>>|
        steps.len() == steps_n && #[trigger] links(recipes, from, steps, to) implies pending(
        frames,
        whole(from, steps, to),
    ) by {
        let chain = whole(from, steps, to);
        assert(chain[0] == from);
        assert(frames[0][0] == chain[0]);
        assert(pending_at(frames, chain, 0));
    }
}

/// With the stack empty, what was found is what the search owes.
pub proof fn lemma_search_ends(
    recipes: Seq<Recipe>,
    from: Seq<char>,
    to: Seq<char>,
    steps_n: int,
    bound: int,
    found: Seq<PathView>,
)
    requires
        search_inv(recipes, from, to, steps_n, bound, Seq::empty(), found),
    ensures
        crate::pathes::is_search_result(recipes, from, to, steps_n as nat, found),
{
    reveal(search_inv);
    let frames = Seq::<Seq<Seq<char>>>::empty();
    assert forall|steps: Seq<Seq<char>>|
        steps.len() == steps_n && #[trigger] links(recipes, from, steps, to) implies lists(
        found,
        steps,
    ) by {
        if pending(frames, whole(from, steps, to)) {
            let d = choose|d: int| #[trigger] pending_at(frames, whole(from, steps, to), d);
        }
    }
}

/// Below the top of both stacks, and where the stacks agree up to there, a
/// chain leaves the way in the one exactly where it does in the other.
proof fn lemma_pending_below(
    frames: Seq<Seq<Seq<char>>>,
    after: Seq<Seq<Seq<char>>>,
    chain: Seq<Seq<char>>,
    depth: int,
)
    requires
        0 <= depth < frames.len() - 1,
        depth < after.len() - 1,
        forall|j: int| 0 <= j <= depth ==> (#[trigger] after[j]) == frames[j],
    ensures
        pending_at(frames, chain, depth) == pending_at(after, chain, depth),
{
    if follows(frames, chain, depth) {
        assert forall|j: int| 0 <= j < depth implies (#[trigger] after[j]).len() > 0 && chain[j]
            == after[j].last() by {
            assert(after[j] == frames[j]);
            assert(frames[j].len() > 0 && chain[j] == frames[j].last());
        }
    }
    if follows(after, chain, depth) {
        assert forall|j: int| 0 <= j < depth implies (#[trigger] frames[j]).len() > 0 && chain[j]
            == frames[j].last() by {
            assert(after[j] == frames[j]);
        }
    }
}

/// Where the stacks agree below `depth`, a chain goes the way of the one as
/// far as it goes the way of the other.
proof fn lemma_follows_same(
    frames: Seq<Seq<Seq<char>>>,
    after: Seq<Seq<Seq<char>>>,
    chain: Seq<Seq<char>>,
    depth: int,
)
    requires
        depth <= frames.len(),
        depth <= after.len(),
        forall|j: int| 0 <= j < depth ==> (#[trigger] after[j]) == frames[j],
    ensures
        follows(frames, chain, depth) == follows(after, chain, depth),
{
    if follows(frames, chain, depth) {
        assert forall|j: int| 0 <= j < depth implies (#[trigger] after[j]).len() > 0 && chain[j]
            == after[j].last() by {
            assert(after[j] == frames[j]);
            assert(frames[j].len() > 0 && chain[j] == frames[j].last());
        }
    }
    if follows(after, chain, depth) {
        assert forall|j: int| 0 <= j < depth implies (#[trigger] frames[j]).len() > 0 && chain[j]
            == frames[j].last() by {
            assert(after[j] == frames[j]);
        }
    }
}

/// A list without repeats does not hold its last item among the others.
proof fn lemma_last_is_not_before(items: Seq<Seq<char>>)
    requires
        items.no_duplicates(),
        items.len() > 0,
    ensures
        !items.drop_last().contains(items.last()),
{
    if items.drop_last().contains(items.last()) {
        let k = choose|k: int| 0 <= k < items.len() - 1 && items.drop_last()[k] == items.last();
        assert(items[k] == items[items.len() - 1]);
    }
}

/// What a list holds is its last item or is among the others.
proof fn lemma_last_or_before(items: Seq<Seq<char>>, x: Seq<char>)
    requires
        items.len() > 0,
    ensures
        items.contains(x) <==> items.drop_last().contains(x) || items.last() == x,
{
    if items.contains(x) {
        let k = choose|k: int| 0 <= k < items.len() && items[k] == x;
        if k < items.len() - 1 {
            assert(items.drop_last()[k] == x);
        }
    }
    if items.drop_last().contains(x) {
        let k = choose|k: int| 0 <= k < items.len() - 1 && items.drop_last()[k] == x;
        assert(items[k] == x);
    }
    if items.last() == x {
        assert(items[items.len() - 1] == x);
    }
}

/// Going one level deeper keeps what holds: the candidates of the new level
/// are all the elements one step away from the candidate in turn.
pub proof fn lemma_expand(
    recipes: Seq<Recipe>,
    from: Seq<char>,
    to: Seq<char>,
    steps_n: int,
    bound: int,
    frames: Seq<Seq<Seq<char>>>,
    found: Seq<PathView>,
    next: Seq<Seq<char>>,
)
    requires
        search_inv(recipes, from, to, steps_n, bound, frames, found),
        0 < frames.len() <= steps_n,
        frames.last().len() > 0,
        next.no_duplicates(),
        next.len() <= bound,
        forall|name: Seq<char>| #[trigger]
            next.contains(name) <==> connected(recipes, frames.last().last(), name),
    ensures
        search_inv(recipes, from, to, steps_n, bound, frames.push(next), found),
{
    reveal(search_inv);
    let after = frames.push(next);
    let d = frames.len() - 1;
    assert(frames_ok(recipes, from, steps_n, bound, after)) by {
        assert forall|e: int, k: int| 1 <= e < after.len() && 0 <= k < after[e].len() implies connected(
            recipes,
            after[e - 1].last(),
            #[trigger] after[e][k],
        ) by {
            if e == d + 1 {
                assert(next.contains(next[k]));
            } else {
                assert(after[e][k] == frames[e][k]);
            }
        }
    }
    assert forall|chain: Seq<Seq<char>>, e: int| #[trigger]
        pending_at(after, chain, e) implies pending(frames, chain) by {
        if e < d {
            lemma_pending_below(frames, after, chain, e);
            assert(pending_at(frames, chain, e));
        } else if e == d {
            lemma_follows_same(frames, after, chain, d);
            lemma_last_or_before(frames[d], chain[d]);
            assert(pending_at(frames, chain, d));
        } else {
            lemma_follows_same(frames, after, chain, d);
            assert(chain[d] == after[d].last());
            lemma_last_or_before(frames[d], chain[d]);
            assert(pending_at(frames, chain, d));
        }
    }
    assert forall|i: int| 0 <= i < found.len() implies !pending(
        after,
        (#[trigger] found[i]).chain(),
    ) by {
        if pending(after, found[i].chain()) {
            let e = choose|e: int| #[trigger] pending_at(after, found[i].chain(), e);
            assert(pending(frames, found[i].chain()));
        }
    }
    assert forall|steps: Seq<Seq<char>>|
        steps.len() == steps_n && #[trigger] links(recipes, from, steps, to) implies lists(
        found,
        steps,
    ) || pending(after, whole(from, steps, to)) by {
        let chain = whole(from, steps, to);
        if !lists(found, steps) {
            let e = choose|e: int| #[trigger] pending_at(frames, chain, e);
            if e < d {
                lemma_pending_below(frames, after, chain, e);
                assert(pending_at(after, chain, e));
            } else {
                lemma_follows_same(frames, after, chain, d);
                lemma_last_or_before(frames[d], chain[d]);
                if frames[d].drop_last().contains(chain[d]) {
                    assert(pending_at(after, chain, d));
                } else {
                    assert(chain.len() == steps_n + 2);
                    assert(connected(recipes, chain[d], chain[d + 1]));
                    assert(next.contains(chain[d + 1]));
                    assert forall|j: int| 0 <= j < d + 1 implies (#[trigger] after[j]).len() > 0
                        && chain[j] == after[j].last() by {
                        assert(after[j] == frames[j]);
                    }
                    assert(pending_at(after, chain, d + 1));
                }
            }
        }
    }
}

/// Leaving a level that has no candidate left keeps what holds: the
/// candidate in turn a level below is done with.
pub proof fn lemma_retire(
    recipes: Seq<Recipe>,
    from: Seq<char>,
    to: Seq<char>,
    steps_n: int,
    bound: int,
    frames: Seq<Seq<Seq<char>>>,
    found: Seq<PathView>,
    after: Seq<Seq<Seq<char>>>,
)
    requires
        search_inv(recipes, from, to, steps_n, bound, frames, found),
        frames.len() > 0,
        frames.last().len() == 0,
        after.len() == frames.len() - 1,
        forall|j: int| 0 <= j < after.len() - 1 ==> (#[trigger] after[j]) == frames[j],
        after.len() > 0 ==> after.last() == frames[after.len() - 1].drop_last(),
    ensures
        search_inv(recipes, from, to, steps_n, bound, after, found),
{
    reveal(search_inv);
    let d = frames.len() - 1;
    assert(frames_ok(recipes, from, steps_n, bound, after)) by {
        assert forall|e: int| 0 <= e < after.len() implies (#[trigger] after[e]).no_duplicates()
            && after[e].len() <= bound by {
            if e == d - 1 {
                assert(frames[e].no_duplicates());
                assert forall|a: int, b: int|
                    0 <= a < after[e].len() && 0 <= b < after[e].len() && a != b implies after[e][a]
                    != after[e][b] by {
                    assert(frames[e][a] != frames[e][b]);
                }
            } else {
                assert(after[e] == frames[e]);
            }
        }
        assert forall|k: int| after.len() > 0 && 0 <= k < after[0].len() implies #[trigger] after[0][k]
            == from by {
            assert(after[0][k] == frames[0][k]);
        }
        assert forall|e: int, k: int| 1 <= e < after.len() && 0 <= k < after[e].len() implies connected(
            recipes,
            after[e - 1].last(),
            #[trigger] after[e][k],
        ) by {
            assert(after[e][k] == frames[e][k]);
            assert(after[e - 1] == frames[e - 1]);
        }
    }
    assert forall|chain: Seq<Seq<char>>, e: int| #[trigger]
        pending_at(after, chain, e) implies pending(frames, chain) by {
        if e < d - 1 {
            lemma_pending_below(frames, after, chain, e);
            assert(pending_at(frames, chain, e));
        } else {
            lemma_follows_same(frames, after, chain, d - 1);
            assert(pending_at(frames, chain, d - 1));
        }
    }
    assert forall|i: int| 0 <= i < found.len() implies !pending(
        after,
        (#[trigger] found[i]).chain(),
    ) by {
        if pending(after, found[i].chain()) {
            let e = choose|e: int| #[trigger] pending_at(after, found[i].chain(), e);
            assert(pending(frames, found[i].chain()));
        }
    }
    assert forall|steps: Seq<Seq<char>>|
        steps.len() == steps_n && #[trigger] links(recipes, from, steps, to) implies lists(
        found,
        steps,
    ) || pending(after, whole(from, steps, to)) by {
        let chain = whole(from, steps, to);
        if !lists(found, steps) {
            let e = choose|e: int| #[trigger] pending_at(frames, chain, e);
            if e == d {
                let k = choose|k: int| 0 <= k < frames[d].len() && frames[d][k] == chain[d];
            } else if e == d - 1 {
                lemma_follows_same(frames, after, chain, d - 1);
                assert(pending_at(after, chain, d - 1));
            } else {
                lemma_pending_below(frames, after, chain, e);
                assert(pending_at(after, chain, e));
            }
        }
    }
}

/// Trying the last candidate at full depth keeps what holds: where it is one
/// step away from the end, the way the search is on is found; either way the
/// candidate is done with.
pub proof fn lemma_try_last(
    recipes: Seq<Recipe>,
    from: Seq<char>,
    to: Seq<char>,
    steps_n: int,
    bound: int,
    frames: Seq<Seq<Seq<char>>>,
    found: Seq<PathView>,
    after: Seq<Seq<Seq<char>>>,
)
    requires
        search_inv(recipes, from, to, steps_n, bound, frames, found),
        frames.len() == steps_n + 1,
        frames.last().len() > 0,
        after.len() == frames.len(),
        forall|j: int| 0 <= j < steps_n ==> (#[trigger] after[j]) == frames[j],
        after[steps_n] == frames[steps_n].drop_last(),
    ensures
        connected(recipes, frames.last().last(), to) ==> !lists(found, on_stack(frames))
            && search_inv(
            recipes,
            from,
            to,
            steps_n,
            bound,
            after,
            found.push(
                PathView { start: from, end: to, path: on_stack(frames), weight: None },
            ),
        ),
        !connected(recipes, frames.last().last(), to) ==> search_inv(
            recipes,
            from,
            to,
            steps_n,
            bound,
            after,
            found,
        ),
{
    reveal(search_inv);
    let n = steps_n;
    let steps = on_stack(frames);
    let path = PathView { start: from, end: to, path: steps, weight: None };
    let way = whole(from, steps, to);
    let last = frames[n].last();
    assert(way == path.chain());
    assert(way.len() == n + 2);
    assert(frames[0][frames[0].len() - 1] == from);
    assert forall|j: int| 0 <= j <= n implies (#[trigger] frames[j]).len() > 0 && way[j]
        == frames[j].last() by {
        if j > 0 {
            assert(way[j] == steps[j - 1]);
        }
    }
    assert(way[n + 1] == to);
    assert(follows(frames, way, n));
    assert(frames[n].contains(way[n])) by {
        assert(frames[n][frames[n].len() - 1] == way[n]);
    }
    assert(pending_at(frames, way, n));
    assert(frames_ok(recipes, from, steps_n, bound, after)) by {
        assert forall|e: int| 0 <= e < after.len() implies (#[trigger] after[e]).no_duplicates()
            && after[e].len() <= bound by {
            if e == n {
                assert(frames[e].no_duplicates());
                assert forall|a: int, b: int|
                    0 <= a < after[e].len() && 0 <= b < after[e].len() && a != b implies after[e][a]
                    != after[e][b] by {
                    assert(frames[e][a] != frames[e][b]);
                }
            } else {
                assert(after[e] == frames[e]);
            }
        }
        assert forall|k: int| after.len() > 0 && 0 <= k < after[0].len() implies #[trigger] after[0][k]
            == from by {
            assert(after[0][k] == frames[0][k]);
        }
        assert forall|e: int, k: int| 1 <= e < after.len() && 0 <= k < after[e].len() implies connected(
            recipes,
            after[e - 1].last(),
            #[trigger] after[e][k],
        ) by {
            assert(after[e][k] == frames[e][k]);
            assert(after[e - 1] == frames[e - 1]);
        }
    }
    // Nothing comes to wait that did not wait before.
    assert forall|chain: Seq<Seq<char>>, e: int| #[trigger]
        pending_at(after, chain, e) implies pending_at(frames, chain, e) && chain != way by {
        if e < n {
            lemma_pending_below(frames, after, chain, e);
            lemma_last_is_not_before(frames[e]);
        } else {
            lemma_follows_same(frames, after, chain, n);
            lemma_last_or_before(frames[n], chain[n]);
            lemma_last_is_not_before(frames[n]);
        }
    }
    assert forall|i: int| 0 <= i < found.len() implies !pending(
        after,
        (#[trigger] found[i]).chain(),
    ) by {
        if pending(after, found[i].chain()) {
            let e = choose|e: int| #[trigger] pending_at(after, found[i].chain(), e);
            assert(pending_at(frames, found[i].chain(), e));
        }
    }
    // A chain that waited and waits no more is the way the search is on.
    assert forall|other: Seq<Seq<char>>|
        other.len() == steps_n && #[trigger] links(recipes, from, other, to) && pending(
            frames,
            whole(from, other, to),
        ) && !pending(after, whole(from, other, to)) implies other == steps && connected(
        recipes,
        last,
        to,
    ) by {
        let chain = whole(from, other, to);
        let e = choose|e: int| #[trigger] pending_at(frames, chain, e);
        if e < n {
            lemma_pending_below(frames, after, chain, e);
            assert(pending_at(after, chain, e));
        } else {
            lemma_follows_same(frames, after, chain, n);
            lemma_last_or_before(frames[n], chain[n]);
            if frames[n].drop_last().contains(chain[n]) {
                assert(pending_at(after, chain, n));
            }
            assert(chain[n] == last);
            assert(chain.len() == n + 2);
            assert(connected(recipes, chain[n], chain[n + 1]));
            assert(chain[n + 1] == to);
            assert forall|k: int| 0 <= k < n implies other[k] == steps[k] by {
                assert(other[k] == chain[k + 1]);
                if k + 1 < n {
                    assert(chain[k + 1] == frames[k + 1].last());
                }
            }
            assert(other =~= steps);
        }
    }
    if connected(recipes, last, to) {
        let more = found.push(path);
        if lists(found, steps) {
            let i = choose|i: int| 0 <= i < found.len() && (#[trigger] found[i]).path == steps;
            assert(is_path_between(recipes, from, to, steps_n as nat, found[i]));
            assert(found[i].chain() =~= way);
            assert(pending(frames, found[i].chain()));
        }
        assert(links(recipes, from, steps, to)) by {
            assert forall|i: int| 0 <= i < way.len() - 1 implies connected(
                recipes,
                #[trigger] way[i],
                way[i + 1],
            ) by {
                if i < n {
                    assert(way[i] == frames[i].last());
                    assert(way[i + 1] == frames[i + 1][frames[i + 1].len() - 1]);
                }
            }
        }
        assert forall|i: int| 0 <= i < more.len() implies is_path_between(
            recipes,
            from,
            to,
            steps_n as nat,
            #[trigger] more[i],
        ) by {
            if i < found.len() {
                assert(more[i] == found[i]);
            }
        }
        assert forall|i: int, j: int| 0 <= i < j < more.len() implies (#[trigger] more[i]).path != (
        #[trigger] more[j]).path by {
            if j < found.len() {
                assert(more[i] == found[i] && more[j] == found[j]);
            } else {
                assert(more[i] == found[i]);
            }
        }
        assert forall|i: int| 0 <= i < more.len() implies !pending(
            after,
            (#[trigger] more[i]).chain(),
        ) by {
            if i < found.len() {
                assert(more[i] == found[i]);
            } else {
                if pending(after, way) {
                    let e = choose|e: int| #[trigger] pending_at(after, way, e);
                }
            }
        }
        assert forall|other: Seq<Seq<char>>|
            other.len() == steps_n && #[trigger] links(recipes, from, other, to) implies lists(
            more,
            other,
        ) || pending(after, whole(from, other, to)) by {
            if lists(found, other) {
                let i = choose|i: int| 0 <= i < found.len() && (#[trigger] found[i]).path == other;
                assert(more[i].path == other);
            } else if !pending(after, whole(from, other, to)) {
                assert(other == steps);
                assert(more[found.len() as int].path == other);
            }
        }
    }
}

/// What one candidate at a level `height` above full depth can cost, where
/// no list holds more than `bound` candidates.
pub open spec fn unit(bound: int, height: int) -> int
    decreases height,
{
    if height <= 0 {
        1
    } else {
        3 + bound * unit(bound, height - 1)
    }
}

/// What the lists below `depth` can still cost: in each the candidate in turn
/// has only to be left, and the others wait.
pub open spec fn below(frames: Seq<Seq<Seq<char>>>, steps_n: int, bound: int, depth: int) -> int
    decreases depth,
{
    if depth <= 0 {
        0
    } else {
        below(frames, steps_n, bound, depth - 1) + (frames[depth - 1].len() - 1) * unit(
            bound,
            steps_n - (depth - 1),
        ) + 1
    }
}

/// How much the search has left to do.
pub open spec fn work(frames: Seq<Seq<Seq<char>>>, steps_n: int, bound: int) -> int {
    if frames.len() == 0 {
        0
    } else {
        frames.len() + below(frames, steps_n, bound, frames.len() - 1) + frames.last().len() * unit(
            bound,
            steps_n - (frames.len() - 1),
        )
    }
}

proof fn lemma_unit_positive(bound: int, height: int)
    requires
        0 <= bound,
    ensures
        unit(bound, height) >= 1,
    decreases height,
{
    if height > 0 {
        lemma_unit_positive(bound, height - 1);
        assert(bound * unit(bound, height - 1) >= 0) by (nonlinear_arith)
            requires
                bound >= 0,
                unit(bound, height - 1) >= 1,
        ;
    }
}

proof fn lemma_below_same(
    frames: Seq<Seq<Seq<char>>>,
    after: Seq<Seq<Seq<char>>>,
    steps_n: int,
    bound: int,
    depth: int,
)
    requires
        forall|j: int| 0 <= j < depth ==> (#[trigger] after[j]).len() == frames[j].len(),
    ensures
        below(frames, steps_n, bound, depth) == below(after, steps_n, bound, depth),
    decreases depth,
{
    if depth > 0 {
        lemma_below_same(frames, after, steps_n, bound, depth - 1);
    }
}

proof fn lemma_below_positive(frames: Seq<Seq<Seq<char>>>, steps_n: int, bound: int, depth: int)
    requires
        0 <= bound,
        depth <= frames.len(),
        forall|j: int| 0 <= j < depth ==> (#[trigger] frames[j]).len() > 0,
    ensures
        below(frames, steps_n, bound, depth) >= 0,
    decreases depth,
{
    if depth > 0 {
        lemma_below_positive(frames, steps_n, bound, depth - 1);
        lemma_unit_positive(bound, steps_n - (depth - 1));
        let a = frames[depth - 1].len() - 1;
        let u = unit(bound, steps_n - (depth - 1));
        assert(a * u >= 0) by (nonlinear_arith)
            requires
                a >= 0,
                u >= 1,
        ;
    }
}

/// The shape of the stack while the search runs, and that the work left is
/// never negative.
pub proof fn lemma_stack_shape(
    recipes: Seq<Recipe>,
    from: Seq<char>,
    to: Seq<char>,
    steps_n: int,
    bound: int,
    frames: Seq<Seq<Seq<char>>>,
    found: Seq<PathView>,
)
    requires
        search_inv(recipes, from, to, steps_n, bound, frames, found),
    ensures
        frames.len() <= steps_n + 1,
        forall|d: int| 0 <= d < frames.len() - 1 ==> (#[trigger] frames[d]).len() > 0,
        work(frames, steps_n, bound) >= 0,
{
    reveal(search_inv);
    if frames.len() > 0 {
        lemma_below_positive(frames, steps_n, bound, frames.len() - 1);
        lemma_unit_positive(bound, steps_n - (frames.len() - 1));
        let a = frames.last().len() as int;
        let u = unit(bound, steps_n - (frames.len() - 1));
        assert(a * u >= 0) by (nonlinear_arith)
            requires
                a >= 0,
                u >= 1,
        ;
    }
}

/// Going one level deeper leaves less to do.
pub proof fn lemma_work_expand(
    frames: Seq<Seq<Seq<char>>>,
    steps_n: int,
    bound: int,
    next: Seq<Seq<char>>,
)
    requires
        0 <= bound,
        0 < frames.len() <= steps_n,
        frames.last().len() > 0,
        next.len() <= bound,
    ensures
        work(frames.push(next), steps_n, bound) < work(frames, steps_n, bound),
{
    let after = frames.push(next);
    let d = frames.len() - 1;
    lemma_below_same(frames, after, steps_n, bound, d);
    let height = steps_n - d;
    let upper = unit(bound, height);
    let lower = unit(bound, height - 1);
    lemma_unit_positive(bound, height - 1);
    assert(upper == 3 + bound * lower);
    let len = frames[d].len() as int;
    let width = next.len() as int;
    assert(below(after, steps_n, bound, d + 1) == below(after, steps_n, bound, d) + (len - 1)
        * upper + 1);
    assert(len * upper == (len - 1) * upper + upper) by (nonlinear_arith);
    assert(width * lower <= bound * lower) by (nonlinear_arith)
        requires
            width <= bound,
            lower >= 1,
    ;
    assert(work(after, steps_n, bound) == (d + 2) + below(after, steps_n, bound, d + 1) + width
        * lower);
    assert(work(frames, steps_n, bound) == (d + 1) + below(frames, steps_n, bound, d) + len
        * upper);
}

/// Leaving a level that has no candidate left leaves less to do.
pub proof fn lemma_work_retire(
    frames: Seq<Seq<Seq<char>>>,
    steps_n: int,
    bound: int,
    after: Seq<Seq<Seq<char>>>,
)
    requires
        frames.len() > 0,
        frames.last().len() == 0,
        after.len() == frames.len() - 1,
        forall|j: int| 0 <= j < after.len() - 1 ==> (#[trigger] after[j]) == frames[j],
        after.len() > 0 ==> frames[after.len() - 1].len() > 0 && after.last() == frames[after.len()
            - 1].drop_last(),
    ensures
        work(after, steps_n, bound) < work(frames, steps_n, bound),
{
    let d = frames.len() - 1;
    if d > 0 {
        lemma_below_same(frames, after, steps_n, bound, d - 1);
        let u = unit(bound, steps_n - (d - 1));
        assert(work(frames, steps_n, bound) == (d + 1) + below(frames, steps_n, bound, d) + 0 * unit(
            bound,
            steps_n - d,
        ));
        assert(0 * unit(bound, steps_n - d) == 0) by (nonlinear_arith);
        assert(below(frames, steps_n, bound, d) == below(frames, steps_n, bound, d - 1) + (
        frames[d - 1].len() - 1) * u + 1);
        assert(after.last().len() == frames[d - 1].len() - 1);
        assert(work(after, steps_n, bound) == d + below(after, steps_n, bound, d - 1) + (frames[d
            - 1].len() - 1) * u);
    } else {
        assert(0 * unit(bound, steps_n - d) == 0) by (nonlinear_arith);
    }
}

/// Trying one candidate at full depth leaves less to do.
pub proof fn lemma_work_try_last(
    frames: Seq<Seq<Seq<char>>>,
    steps_n: int,
    bound: int,
    after: Seq<Seq<Seq<char>>>,
)
    requires
        0 <= steps_n,
        frames.len() == steps_n + 1,
        frames.last().len() > 0,
        after.len() == frames.len(),
        forall|j: int| 0 <= j < steps_n ==> (#[trigger] after[j]) == frames[j],
        after[steps_n] == frames[steps_n].drop_last(),
    ensures
        work(after, steps_n, bound) < work(frames, steps_n, bound),
{
    lemma_below_same(frames, after, steps_n, bound, steps_n);
    let u = unit(bound, steps_n - (frames.len() - 1));
    assert(u == 1);
    let len = frames[steps_n].len() as int;
    assert(len * u == len && (len - 1) * u == len - 1) by (nonlinear_arith)
        requires
            u == 1,
    ;
    assert(after.last().len() == len - 1);
    assert(frames.last().len() == len);
}

} // verus!
