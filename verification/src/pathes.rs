//! Paths between elements, and the search for them.

use vstd::prelude::*;
use vstd::std_specs::cmp::PartialEqSpecImpl;
use crate::backtrack::{on_stack, search_inv, work, lemma_expand, lemma_retire, lemma_search_begins, lemma_search_ends, lemma_try_last, lemma_work_expand, lemma_stack_shape, lemma_work_retire, lemma_work_try_last};
use crate::dao::{Components, DAO};
use crate::recipes::{ElementHandle, names_view, lemma_push_fresh};
use crate::relation::{Recipe, components, products_using, connected, is_chain, relatives, unique_names, lemma_connected_symmetric, lemma_take_step};

verus! {

/// A path as names.
pub struct PathView {
    pub start: Seq<char>,
    pub end: Seq<char>,
    /// The elements passed on the way, in order; neither end is among them.
    pub path: Seq<Seq<char>>,
    /// The score the ranking has given the path, if it was ranked.
    pub weight: Option<u64>,
}

impl PathView {
    /// The whole way: the start, the elements passed, the end.
    pub open spec fn chain(self) -> Seq<Seq<char>> {
        seq![self.start] + self.path + seq![self.end]
    }
}

/// A way from one element to another through elements in between.
///
/// The weight is kept as an integer score: of two paths the one with the
/// higher score is the more recommended.
#[derive(Debug, Eq)]
pub struct Path {
    start: ElementHandle,
    end: ElementHandle,
    path: Vec<ElementHandle>,
    cached_weight: Option<u64>,
}

impl View for Path {
    type V = PathView;

    closed spec fn view(&self) -> PathView {
        PathView {
            start: self.start@,
            end: self.end@,
            path: names_view(self.path@),
            weight: self.cached_weight,
        }
    }
}

/// `steps` lead from `from` to `to`: each element on the way is one step away
/// from the next.
pub open spec fn links(
    recipes: Seq<Recipe>,
    from: Seq<char>,
    steps: Seq<Seq<char>>,
    to: Seq<char>,
) -> bool {
    is_chain(recipes, seq![from] + steps + seq![to])
}

/// `path` is an unranked way from `from` to `to` through exactly `steps_n`
/// elements.
pub open spec fn is_path_between(
    recipes: Seq<Recipe>,
    from: Seq<char>,
    to: Seq<char>,
    steps_n: nat,
    path: PathView,
) -> bool {
    &&& path.start == from
    &&& path.end == to
    &&& path.path.len() == steps_n
    &&& path.weight is None
    &&& links(recipes, from, path.path, to)
}

/// Some path of `found` passes exactly `steps`.
pub open spec fn lists(found: Seq<PathView>, steps: Seq<Seq<char>>) -> bool {
    exists|i: int| 0 <= i < found.len() && (#[trigger] found[i]).path == steps
}

/// `found` is what a search from `from` to `to` through `steps_n` elements
/// owes: ways between the two and nothing else, none of them twice, and none
/// that exists left out.
pub open spec fn is_search_result(
    recipes: Seq<Recipe>,
    from: Seq<char>,
    to: Seq<char>,
    steps_n: nat,
    found: Seq<PathView>,
) -> bool {
    &&& forall|i: int|
        0 <= i < found.len() ==> is_path_between(recipes, from, to, steps_n, #[trigger] found[i])
    &&& forall|i: int, j: int|
        0 <= i < j < found.len() ==> (#[trigger] found[i]).path != (#[trigger] found[j]).path
    &&& forall|steps: Seq<Seq<char>>|
        steps.len() == steps_n && #[trigger] links(recipes, from, steps, to) ==> lists(
            found,
            steps,
        )
}

/// What `links` asks, said of the steps themselves.
pub proof fn lemma_links_unfold(
    recipes: Seq<Recipe>,
    from: Seq<char>,
    steps: Seq<Seq<char>>,
    to: Seq<char>,
)
    ensures
        steps.len() == 0 ==> (links(recipes, from, steps, to) <==> connected(recipes, from, to)),
        steps.len() > 0 ==> (links(recipes, from, steps, to) <==> connected(
            recipes,
            from,
            steps[0],
        ) && connected(recipes, steps.last(), to) && is_chain(recipes, steps)),
{
    let chain = seq![from] + steps + seq![to];
    assert(chain.len() == steps.len() + 2);
    assert(chain[0] == from);
    assert(chain[steps.len() as int + 1] == to);
    assert forall|k: int| 0 <= k < steps.len() implies chain[k + 1] == steps[k] by {}
    if steps.len() == 0 {
        if connected(recipes, from, to) {
            assert forall|i: int| 0 <= i < chain.len() - 1 implies connected(
                recipes,
                #[trigger] chain[i],
                chain[i + 1],
            ) by {}
        }
        if is_chain(recipes, chain) {
            assert(connected(recipes, chain[0], chain[1]));
        }
    } else {
        if is_chain(recipes, chain) {
            assert(connected(recipes, chain[0], chain[1]));
            assert(connected(recipes, chain[steps.len() as int], chain[steps.len() as int + 1]));
            assert forall|i: int| 0 <= i < steps.len() - 1 implies connected(
                recipes,
                #[trigger] steps[i],
                steps[i + 1],
            ) by {
                assert(connected(recipes, chain[i + 1], chain[i + 2]));
            }
        }
        if connected(recipes, from, steps[0]) && connected(recipes, steps.last(), to) && is_chain(
            recipes,
            steps,
        ) {
            assert forall|i: int| 0 <= i < chain.len() - 1 implies connected(
                recipes,
                #[trigger] chain[i],
                chain[i + 1],
            ) by {
                if 0 < i < steps.len() {
                    assert(connected(recipes, steps[i - 1], steps[i]));
                }
            }
        }
    }
}

/// A search with nothing in between finds a way exactly where the two
/// elements are one step apart.
pub proof fn lemma_direct_search(
    recipes: Seq<Recipe>,
    from: Seq<char>,
    to: Seq<char>,
    found: Seq<PathView>,
)
    requires
        is_search_result(recipes, from, to, 0, found),
    ensures
        found.len() > 0 <==> connected(recipes, from, to),
        found.len() <= 1,
{
    let none = Seq::<Seq<char>>::empty();
    lemma_links_unfold(recipes, from, none, to);
    if found.len() > 0 {
        lemma_links_unfold(recipes, from, found[0].path, to);
        assert(is_path_between(recipes, from, to, 0, found[0]));
    }
    if connected(recipes, from, to) {
        assert(links(recipes, from, none, to));
        assert(lists(found, none));
    }
    if found.len() > 1 {
        assert(is_path_between(recipes, from, to, 0, found[0]));
        assert(is_path_between(recipes, from, to, 0, found[1]));
        assert(found[0].path =~= found[1].path);
    }
}

/// Every path that a search hands back is a way that holds: each element on
/// it, the two ends included, is one step away from the next.
pub proof fn lemma_found_paths_viable(
    recipes: Seq<Recipe>,
    from: Seq<char>,
    to: Seq<char>,
    steps_n: nat,
    found: Seq<PathView>,
    i: int,
)
    requires
        is_search_result(recipes, from, to, steps_n, found),
        0 <= i < found.len(),
    ensures
        is_chain(recipes, found[i].chain()),
{
    assert(is_path_between(recipes, from, to, steps_n, found[i]));
}

/// A run of paths as names.
pub open spec fn paths_view(paths: Seq<Path>) -> Seq<PathView> {
    Seq::new(paths.len(), |i: int| paths[i]@)
}

/// A copy of a run of handles, name for name.
fn clone_handles(handles: &Vec<ElementHandle>) -> (copy: Vec<ElementHandle>)
    ensures
        names_view(copy@) == names_view(handles@),
{
    let mut copy: Vec<ElementHandle> = Vec::new();
    let mut i: usize = 0;
    while i < handles.len()
        invariant
            i <= handles.len(),
            copy.len() == i,
            forall|k: int| 0 <= k < i ==> copy[k]@ == handles[k]@,
        decreases handles.len() - i,
    {
        copy.push(handles[i].clone());
        i += 1;
    }
    assert(names_view(copy@) =~= names_view(handles@));
    copy
}

/// Whether `handles` holds `handle`.
fn holds(handles: &Vec<ElementHandle>, handle: &ElementHandle) -> (found: bool)
    ensures
        found == names_view(handles@).contains(handle@),
{
    let mut i: usize = 0;
    while i < handles.len()
        invariant
            i <= handles.len(),
            forall|k: int| 0 <= k < i ==> handles[k]@ != handle@,
        decreases handles.len() - i,
    {
        if handles[i] == *handle {
            assert(names_view(handles@)[i as int] == handle@);
            return true;
        }
        i += 1;
    }
    false
}

impl Path {
    /// The direct way from `start` to `end`, with nothing in between and no weight.
    pub fn new(start: ElementHandle, end: ElementHandle) -> (path: Self)
        ensures
            path@ == (PathView { start: start@, end: end@, path: Seq::empty(), weight: None }),
    {
        let path = Path { start, end, path: Vec::new(), cached_weight: None };
        assert(names_view(path.path@) =~= Seq::empty());
        path
    }

    /// Puts `ele` behind the elements passed so far.
    pub fn push(&mut self, ele: ElementHandle)
        ensures
            final(self)@ == (PathView {
                start: old(self)@.start,
                end: old(self)@.end,
                path: old(self)@.path.push(ele@),
                weight: old(self)@.weight,
            }),
    {
        self.path.push(ele);
        assert(names_view(self.path@) =~= names_view(old(self).path@).push(ele@));
    }

    /// Takes the last of the elements passed off again, if there is one.
    pub fn pop(&mut self) -> (last: Option<ElementHandle>)
        ensures
            old(self)@.path.len() == 0 ==> last is None && final(self)@ == old(self)@,
            old(self)@.path.len() > 0 ==> (last matches Some(handle) && handle@ == old(
                self,
            )@.path.last()) && final(self)@ == (PathView {
                start: old(self)@.start,
                end: old(self)@.end,
                path: old(self)@.path.drop_last(),
                weight: old(self)@.weight,
            }),
    {
        let last = self.path.pop();
        assert(old(self)@.path.len() > 0 ==> names_view(self.path@) =~= names_view(
            old(self).path@,
        ).drop_last());
        last
    }

    /// Where the path starts.
    pub fn start(&self) -> (handle: ElementHandle)
        ensures
            handle@ == self@.start,
    {
        self.start.clone()
    }

    /// Where the path ends.
    pub fn end(&self) -> (handle: ElementHandle)
        ensures
            handle@ == self@.end,
    {
        self.end.clone()
    }

    /// The elements passed on the way, in order.
    pub fn steps(&self) -> (handles: Vec<ElementHandle>)
        ensures
            names_view(handles@) == self@.path,
    {
        clone_handles(&self.path)
    }

    /// The score the ranking has given the path, if it was ranked.
    pub fn weight(&self) -> (score: Option<u64>)
        ensures
            score == self@.weight,
    {
        self.cached_weight
    }

    /// Gives the path its score.
    pub fn set_weight(&mut self, score: u64)
        ensures
            final(self)@ == (PathView {
                start: old(self)@.start,
                end: old(self)@.end,
                path: old(self)@.path,
                weight: Some(score),
            }),
    {
        self.cached_weight = Some(score);
    }
}

impl Clone for Path {
    fn clone(&self) -> (copy: Self)
        ensures
            copy@ == self@,
    {
        Path {
            start: self.start.clone(),
            end: self.end.clone(),
            path: clone_handles(&self.path),
            cached_weight: self.cached_weight,
        }
    }
}

impl PartialEq for Path {
    /// Two paths are equal when they lead the same way, whatever their weights.
    fn eq(&self, other: &Self) -> (same: bool) {
        if !(self.start == other.start && self.end == other.end && self.path.len()
            == other.path.len()) {
            assert(self@.path.len() == self.path.len());
            assert(other@.path.len() == other.path.len());
            return false;
        }
        let mut i: usize = 0;
        while i < self.path.len()
            invariant
                i <= self.path.len(),
                self.path.len() == other.path.len(),
                forall|k: int| 0 <= k < i ==> self.path[k]@ == other.path[k]@,
            decreases self.path.len() - i,
        {
            if !(self.path[i] == other.path[i]) {
                assert(self@.path[i as int] != other@.path[i as int]);
                return false;
            }
            i += 1;
        }
        assert(self@.path =~= other@.path);
        true
    }
}

impl PartialEqSpecImpl for Path {
    open spec fn obeys_eq_spec() -> bool {
        true
    }

    open spec fn eq_spec(&self, other: &Self) -> bool {
        self@.start == other@.start && self@.end == other@.end && self@.path == other@.path
    }
}

/// Puts `handle` behind `found` unless `found` holds it already.
fn push_new(found: &mut Vec<ElementHandle>, handle: ElementHandle)
    requires
        names_view(old(found)@).no_duplicates(),
    ensures
        names_view(final(found)@).no_duplicates(),
        forall|name: Seq<char>|
            #[trigger] names_view(final(found)@).contains(name) <==> names_view(old(found)@).contains(name)
                || name == handle@,
        old(found).len() <= final(found).len() <= old(found).len() + 1,
{
    let ghost before = found@;
    if !holds(found, &handle) {
        proof {
            assert forall|k: int| 0 <= k < before.len() implies before[k]@ != handle@ by {
                assert(names_view(before)[k] == before[k]@);
            }
            lemma_push_fresh(before, handle);
        }
        found.push(handle);
        proof {
            assert(names_view(found@) =~= names_view(before).push(handle@));
            assert(names_view(before) =~= names_view(found@).take(before.len() as int));
            lemma_take_step(names_view(found@), before.len() as int);
            assert(names_view(found@).take(before.len() as int + 1) =~= names_view(found@));
        }
    }
}

/// The elements one step away from `ele`: what it is made of and what is
/// made of it, each once, in no order that is promised.
pub fn get_relatives(dao: &DAO, ele: &ElementHandle) -> (found: Vec<ElementHandle>)
    ensures
        unique_names(dao.recipe_rows()),
        names_view(found@).no_duplicates(),
        forall|name: Seq<char>|
            #![trigger names_view(found@).contains(name)]
            #![trigger relatives(dao.recipe_rows(), ele@).contains(name)]
            names_view(found@).contains(name) <==> relatives(dao.recipe_rows(), ele@).contains(
                name,
            ),
        found.len() <= dao.recipe_rows().len() + 2,
{
    let ghost rows = dao.recipe_rows();
    let mut found: Vec<ElementHandle> = Vec::new();
    assert(names_view(found@) =~= Seq::empty());
    match dao.get_element_components(ele) {
        Components::Decomposed { a, b } => {
            push_new(&mut found, a);
            push_new(&mut found, b);
        },
        Components::Primitive => {},
    }
    assert(forall|name: Seq<char>|
        #[trigger] names_view(found@).contains(name) <==> components(rows, ele@).contains(name));
    let ghost made_of = names_view(found@);
    let products = dao.get_what_component_can_build(ele);
    let ghost made = names_view(products@);
    let mut i: usize = 0;
    assert(made.take(0) =~= Seq::empty());
    while i < products.len()
        invariant
            i <= products.len(),
            made == names_view(products@),
            found.len() <= made_of.len() + i,
            names_view(found@).no_duplicates(),
            forall|name: Seq<char>|
                #[trigger] names_view(found@).contains(name) <==> made_of.contains(name) || made.take(
                    i as int,
                ).contains(name),
        decreases products.len() - i,
    {
        proof {
            lemma_take_step(made, i as int);
            assert(made[i as int] == products[i as int]@);
        }
        let ghost before = names_view(found@);
        push_new(&mut found, products[i].clone());
        assert forall|name: Seq<char>|
            #[trigger] names_view(found@).contains(name) <==> made_of.contains(name) || made.take(
                i + 1,
            ).contains(name) by {
            assert(names_view(found@).contains(name) <==> before.contains(name) || name
                == made[i as int]);
            assert(before.contains(name) <==> made_of.contains(name) || made.take(
                i as int,
            ).contains(name));
            assert(made.take(i + 1).contains(name) <==> made.take(i as int).contains(name)
                || made[i as int] == name);
        }
        i += 1;
    }
    assert(made.take(i as int) =~= made);
    assert forall|name: Seq<char>|
        #[trigger] names_view(found@).contains(name) <==> relatives(rows, ele@).contains(name) by {
        assert(made_of.contains(name) <==> components(rows, ele@).contains(name));
        assert(made.contains(name) <==> products_using(rows, ele@).contains(name));
    }
    found
}

/// Whether `b` is one step away from `a`.
pub fn is_two_eles_connected(dao: &DAO, a: &ElementHandle, b: &ElementHandle) -> (linked: bool)
    ensures
        unique_names(dao.recipe_rows()),
        linked == connected(dao.recipe_rows(), a@, b@),
{
    let around = get_relatives(dao, a);
    holds(&around, b)
}

/// Whether the path holds: each element on it, the two ends included, is one
/// step away from the next.
pub fn is_path_viable(dao: &DAO, path: &Path) -> (viable: bool)
    ensures
        viable == is_chain(dao.recipe_rows(), path@.chain()),
{
    let ghost rows = dao.recipe_rows();
    let mut way: Vec<ElementHandle> = Vec::new();
    way.push(path.start.clone());
    let mut k: usize = 0;
    while k < path.path.len()
        invariant
            k <= path.path.len(),
            way.len() == k + 1,
            way[0]@ == path.start@,
            forall|j: int| 0 <= j < k ==> way[j + 1]@ == path.path[j]@,
        decreases path.path.len() - k,
    {
        way.push(path.path[k].clone());
        k += 1;
    }
    way.push(path.end.clone());
    let ghost chain = path@.chain();
    assert(names_view(way@) =~= chain);
    let mut i: usize = 0;
    while i + 1 < way.len()
        invariant
            i + 1 <= way.len(),
            rows == dao.recipe_rows(),
            names_view(way@) == chain,
            chain == path@.chain(),
            forall|j: int| 0 <= j < i ==> connected(rows, #[trigger] chain[j], chain[j + 1]),
        decreases way.len() - i,
    {
        if !is_two_eles_connected(dao, &way[i], &way[i + 1]) {
            assert(chain.len() == way.len());
            assert(chain[i as int] == way[i as int]@ && chain[i + 1] == way[i + 1]@);
            return false;
        }
        assert(chain[i as int] == way[i as int]@ && chain[i + 1] == way[i + 1]@);
        i += 1;
    }
    true
}

/// What is said of a run of paths holds on when a path that keeps it is put
/// behind them.
proof fn lemma_one_more_found(
    rows: Seq<Recipe>,
    from: Seq<char>,
    to: Seq<char>,
    steps_n: nat,
    before: Seq<Path>,
    path: Path,
)
    requires
        forall|i: int|
            0 <= i < before.len() ==> is_path_between(rows, from, to, steps_n, #[trigger] before[i]@),
        forall|i: int, j: int|
            0 <= i < j < before.len() ==> (#[trigger] before[i])@.path != (#[trigger] before[j])@.path,
        is_path_between(rows, from, to, steps_n, path@),
        !lists(paths_view(before), path@.path),
    ensures
        forall|i: int|
            0 <= i < before.len() + 1 ==> is_path_between(
                rows,
                from,
                to,
                steps_n,
                #[trigger] before.push(path)[i]@,
            ),
        forall|i: int, j: int|
            0 <= i < j < before.len() + 1 ==> (#[trigger] before.push(path)[i])@.path != (
            #[trigger] before.push(path)[j])@.path,
        lists(paths_view(before.push(path)), path@.path),
        forall|steps: Seq<Seq<char>>|
            lists(paths_view(before), steps) ==> lists(paths_view(before.push(path)), steps),
{
    let after = before.push(path);
    assert forall|i: int, j: int| 0 <= i < j < before.len() + 1 implies (#[trigger] after[i])@.path
        != (#[trigger] after[j])@.path by {
        if j == before.len() {
            assert(paths_view(before)[i].path == before[i]@.path);
        } else {
            assert(after[i] == before[i] && after[j] == before[j]);
        }
    }
    assert(paths_view(after)[before.len() as int].path == path@.path);
    assert forall|steps: Seq<Seq<char>>| lists(paths_view(before), steps) implies lists(
        paths_view(after),
        steps,
    ) by {
        let i = choose|i: int| 0 <= i < before.len() && (#[trigger] paths_view(before)[i]).path == steps;
        assert(paths_view(after)[i].path == steps);
    }
}

/// The ways from `from` to `to` through one element: one for each element
/// that is one step away from both.
pub fn calc_path_steps_1(dao: &DAO, from: &ElementHandle, to: &ElementHandle) -> (found: Vec<Path>)
    ensures
        is_search_result(dao.recipe_rows(), from@, to@, 1, paths_view(found@)),
{
    let ghost rows = dao.recipe_rows();
    let a_rel = get_relatives(dao, from);
    let b_rel = get_relatives(dao, to);
    let ghost near = names_view(a_rel@);
    let ghost far = names_view(b_rel@);
    let mut found: Vec<Path> = Vec::new();
    let mut i: usize = 0;
    while i < a_rel.len()
        invariant
            i <= a_rel.len(),
            rows == dao.recipe_rows(),
            near == names_view(a_rel@),
            far == names_view(b_rel@),
            near.no_duplicates(),
            forall|name: Seq<char>| #[trigger] near.contains(name) <==> connected(rows, from@, name),
            forall|name: Seq<char>| #[trigger] far.contains(name) <==> connected(rows, to@, name),
            forall|k: int|
                0 <= k < found.len() ==> is_path_between(rows, from@, to@, 1, #[trigger] found[k]@),
            forall|k: int, l: int|
                0 <= k < l < found.len() ==> (#[trigger] found[k])@.path != (#[trigger] found[l])@.path,
            forall|k: int|
                0 <= k < found.len() ==> near.take(i as int).contains((#[trigger] found[k])@.path[0]),
            forall|x: Seq<char>|
                #[trigger] near.take(i as int).contains(x) && far.contains(x) ==> lists(
                    paths_view(found@),
                    seq![x],
                ),
        decreases a_rel.len() - i,
    {
        let ghost x = near[i as int];
        let ghost before = found@;
        proof {
            lemma_take_step(near, i as int);
            assert(x == a_rel[i as int]@);
        }
        if holds(&b_rel, &a_rel[i]) {
            let mut p = Path::new(from.clone(), to.clone());
            p.push(a_rel[i].clone());
            proof {
                assert(p@.path =~= seq![x]);
                assert(near.contains(x));
                lemma_connected_symmetric(rows, to@, x);
                lemma_links_unfold(rows, from@, seq![x], to@);
                assert(is_chain(rows, seq![x]));
                if lists(paths_view(before), seq![x]) {
                    let k = choose|k: int|
                        0 <= k < before.len() && (#[trigger] paths_view(before)[k]).path == seq![x];
                    assert(near.take(i as int).contains(before[k]@.path[0]));
                    let at = choose|at: int|
                        0 <= at < i && near.take(i as int)[at] == before[k]@.path[0];
                    assert(near[at] == near[i as int]);
                }
                lemma_one_more_found(rows, from@, to@, 1, before, p);
            }
            found.push(p);
            assert(found@ == before.push(p));
        }
        proof {
            assert forall|k: int| 0 <= k < found.len() implies near.take(i + 1).contains(
                (#[trigger] found[k])@.path[0],
            ) by {
                if k < before.len() {
                    assert(near.take(i as int).contains(before[k]@.path[0]));
                } else {
                    assert(found[k]@.path[0] == x);
                }
            }
            assert forall|y: Seq<char>| #[trigger]
                near.take(i + 1).contains(y) && far.contains(y) implies lists(
                paths_view(found@),
                seq![y],
            ) by {
                if near.take(i as int).contains(y) {
                    assert(lists(paths_view(before), seq![y]));
                }
            }
        }
        i += 1;
    }
    proof {
        assert(near.take(i as int) =~= near);
        assert forall|steps: Seq<Seq<char>>|
            steps.len() == 1 && #[trigger] links(rows, from@, steps, to@) implies lists(
            paths_view(found@),
            steps,
        ) by {
            lemma_links_unfold(rows, from@, steps, to@);
            lemma_connected_symmetric(rows, to@, steps[0]);
            assert(near.contains(steps[0]));
            assert(far.contains(steps[0]));
            assert(steps =~= seq![steps[0]]);
        }
        assert forall|k: int, l: int| 0 <= k < l < found.len() implies (#[trigger] paths_view(
            found@,
        )[k]).path != (#[trigger] paths_view(found@)[l]).path by {
            assert(found[k]@.path != found[l]@.path);
        }
    }
    found
}

/// `x` is among `near` and `y` among `far`, and `y` is one step away from `x`.
spec fn pair_due(
    rows: Seq<Recipe>,
    near: Seq<Seq<char>>,
    far: Seq<Seq<char>>,
    x: Seq<char>,
    y: Seq<char>,
) -> bool {
    near.contains(x) && far.contains(y) && connected(rows, x, y)
}

/// The first step of `path` is among `near`, or it is `x` and the second is
/// among `far`.
spec fn pair_seen(
    near: Seq<Seq<char>>,
    x: Seq<char>,
    far: Seq<Seq<char>>,
    path: PathView,
) -> bool {
    near.contains(path.path[0]) || (path.path[0] == x && far.contains(path.path[1]))
}

/// The ways from `from` to `to` through two elements: one for each element
/// one step away from `from` and each element one step away from `to` that
/// are one step apart. Every such pair is tried.
pub fn calc_path_steps_2(dao: &DAO, from: &ElementHandle, to: &ElementHandle) -> (found: Vec<Path>)
    ensures
        is_search_result(dao.recipe_rows(), from@, to@, 2, paths_view(found@)),
{
    let ghost rows = dao.recipe_rows();
    let a_rel = get_relatives(dao, from);
    let b_rel = get_relatives(dao, to);
    let ghost near = names_view(a_rel@);
    let ghost far = names_view(b_rel@);
    let mut found: Vec<Path> = Vec::new();
    let mut i: usize = 0;
    while i < a_rel.len()
        invariant
            i <= a_rel.len(),
            rows == dao.recipe_rows(),
            near == names_view(a_rel@),
            far == names_view(b_rel@),
            near.no_duplicates(),
            far.no_duplicates(),
            forall|name: Seq<char>| #[trigger] near.contains(name) <==> connected(rows, from@, name),
            forall|name: Seq<char>| #[trigger] far.contains(name) <==> connected(rows, to@, name),
            forall|k: int|
                0 <= k < found.len() ==> is_path_between(rows, from@, to@, 2, #[trigger] found[k]@),
            forall|k: int, l: int|
                0 <= k < l < found.len() ==> (#[trigger] found[k])@.path != (#[trigger] found[l])@.path,
            forall|k: int|
                0 <= k < found.len() ==> near.take(i as int).contains((#[trigger] found[k])@.path[0]),
            forall|x: Seq<char>, y: Seq<char>| #[trigger]
                pair_due(rows, near.take(i as int), far, x, y) ==> lists(
                    paths_view(found@),
                    seq![x, y],
                ),
        decreases a_rel.len() - i,
    {
        let ghost x = near[i as int];
        let ghost done = near.take(i as int);
        proof {
            lemma_take_step(near, i as int);
            assert(x == a_rel[i as int]@);
            assert(near.contains(x));
            assert(far.take(0) =~= Seq::empty());
            assert forall|k: int| 0 <= k < found.len() implies pair_seen(
                done,
                x,
                far.take(0),
                #[trigger] found[k]@,
            ) by {
                assert(done.contains(found[k]@.path[0]));
            }
        }
        let mut j: usize = 0;
        while j < b_rel.len()
            invariant
                i < a_rel.len(),
                j <= b_rel.len(),
                rows == dao.recipe_rows(),
                near == names_view(a_rel@),
                far == names_view(b_rel@),
                x == near[i as int],
                done == near.take(i as int),
                near.no_duplicates(),
                far.no_duplicates(),
                connected(rows, from@, x),
                forall|name: Seq<char>| #[trigger] far.contains(name) <==> connected(rows, to@, name),
                forall|k: int|
                    0 <= k < found.len() ==> is_path_between(
                        rows,
                        from@,
                        to@,
                        2,
                        #[trigger] found[k]@,
                    ),
                forall|k: int, l: int|
                    0 <= k < l < found.len() ==> (#[trigger] found[k])@.path != (
                    #[trigger] found[l])@.path,
                forall|k: int|
                    0 <= k < found.len() ==> pair_seen(
                        done,
                        x,
                        far.take(j as int),
                        #[trigger] found[k]@,
                    ),
                forall|u: Seq<char>, v: Seq<char>| #[trigger]
                    pair_due(rows, done, far, u, v) ==> lists(paths_view(found@), seq![u, v]),
                forall|v: Seq<char>|
                    #[trigger] far.take(j as int).contains(v) && connected(rows, x, v) ==> lists(
                        paths_view(found@),
                        seq![x, v],
                    ),
            decreases b_rel.len() - j,
        {
            let ghost y = far[j as int];
            let ghost before = found@;
            proof {
                lemma_take_step(far, j as int);
                assert(y == b_rel[j as int]@);
                assert(far.contains(y));
            }
            if is_two_eles_connected(dao, &a_rel[i], &b_rel[j]) {
                let mut p = Path::new(from.clone(), to.clone());
                p.push(a_rel[i].clone());
                p.push(b_rel[j].clone());
                proof {
                    assert(p@.path =~= seq![x, y]);
                    lemma_connected_symmetric(rows, to@, y);
                    lemma_links_unfold(rows, from@, seq![x, y], to@);
                    assert(is_chain(rows, seq![x, y]));
                    if lists(paths_view(before), seq![x, y]) {
                        let k = choose|k: int|
                            0 <= k < before.len() && (#[trigger] paths_view(before)[k]).path
                                == seq![x, y];
                        assert(pair_seen(done, x, far.take(j as int), before[k]@));
                        if done.contains(x) {
                            let at = choose|at: int| 0 <= at < done.len() && done[at] == x;
                            assert(near[at] == near[i as int]);
                        } else {
                            let at = choose|at: int|
                                0 <= at < j && far.take(j as int)[at] == y;
                            assert(far[at] == far[j as int]);
                        }
                    }
                    lemma_one_more_found(rows, from@, to@, 2, before, p);
                }
                found.push(p);
                assert(found@ == before.push(p));
            }
            proof {
                assert forall|k: int| 0 <= k < found.len() implies pair_seen(
                    done,
                    x,
                    far.take(j + 1),
                    #[trigger] found[k]@,
                ) by {
                    if k < before.len() {
                        assert(pair_seen(done, x, far.take(j as int), before[k]@));
                    } else {
                        assert(found[k]@.path[0] == x && found[k]@.path[1] == y);
                    }
                }
                assert forall|u: Seq<char>, v: Seq<char>| #[trigger]
                    pair_due(rows, done, far, u, v) implies lists(
                    paths_view(found@),
                    seq![u, v],
                ) by {
                    assert(lists(paths_view(before), seq![u, v]));
                }
                assert forall|v: Seq<char>|
                    #[trigger] far.take(j + 1).contains(v) && connected(rows, x, v) implies lists(
                    paths_view(found@),
                    seq![x, v],
                ) by {
                    if far.take(j as int).contains(v) {
                        assert(lists(paths_view(before), seq![x, v]));
                    }
                }
            }
            j += 1;
        }
        proof {
            assert(far.take(j as int) =~= far);
            assert forall|k: int| 0 <= k < found.len() implies near.take(i + 1).contains(
                (#[trigger] found[k])@.path[0],
            ) by {
                assert(pair_seen(done, x, far, found[k]@));
            }
            assert forall|u: Seq<char>, v: Seq<char>| #[trigger]
                pair_due(rows, near.take(i + 1), far, u, v) implies lists(
                paths_view(found@),
                seq![u, v],
            ) by {
                if done.contains(u) {
                    assert(pair_due(rows, done, far, u, v));
                }
            }
        }
        i += 1;
    }
    proof {
        assert(near.take(i as int) =~= near);
        assert forall|steps: Seq<Seq<char>>|
            steps.len() == 2 && #[trigger] links(rows, from@, steps, to@) implies lists(
            paths_view(found@),
            steps,
        ) by {
            lemma_links_unfold(rows, from@, steps, to@);
            lemma_connected_symmetric(rows, to@, steps[1]);
            assert(connected(rows, steps[0], steps[1]));
            assert(pair_due(rows, near, far, steps[0], steps[1]));
            assert(steps =~= seq![steps[0], steps[1]]);
        }
        assert forall|k: int, l: int| 0 <= k < l < found.len() implies (#[trigger] paths_view(
            found@,
        )[k]).path != (#[trigger] paths_view(found@)[l]).path by {
            assert(found[k]@.path != found[l]@.path);
        }
    }
    found
}

/// The ways from `from` to `to` through exactly `steps_n` elements, in no
/// order that is promised.
///
/// With nothing in between there is one way where the two are one step
/// apart and none where they are not.
pub fn calc_path(dao: &DAO, from: &ElementHandle, to: &ElementHandle, steps_n: usize) -> (found: Vec<
    Path,
>)
    ensures
        is_search_result(dao.recipe_rows(), from@, to@, steps_n as nat, paths_view(found@)),
        steps_n == 0 ==> (found.len() > 0 <==> connected(dao.recipe_rows(), from@, to@)),
{
    let ghost rows = dao.recipe_rows();
    let found = if steps_n == 0 {
        let mut direct: Vec<Path> = Vec::new();
        if is_two_eles_connected(dao, from, to) {
            let p = Path::new(from.clone(), to.clone());
            direct.push(p);
            proof {
                lemma_links_unfold(rows, from@, Seq::empty(), to@);
                assert(paths_view(direct@)[0] == p@);
            }
        }
        proof {
            assert forall|steps: Seq<Seq<char>>|
                steps.len() == 0 && #[trigger] links(rows, from@, steps, to@) implies lists(
                paths_view(direct@),
                steps,
            ) by {
                lemma_links_unfold(rows, from@, steps, to@);
                assert(steps =~= Seq::empty());
                assert(paths_view(direct@)[0].path == steps);
            }
        }
        direct
    } else if steps_n == 1 {
        calc_path_steps_1(dao, from, to)
    } else if steps_n == 2 {
        calc_path_steps_2(dao, from, to)
    } else {
        calc_path_steps_n(dao, from, to, steps_n)
    };
    proof {
        if steps_n == 0 {
            lemma_direct_search(rows, from@, to@, paths_view(found@));
        }
    }
    found
}

/// The score of a ranked path.
pub open spec fn score(path: PathView) -> u64 {
    path.weight->0
}

/// No path of the run has a lower score than one behind it.
pub open spec fn best_first(ranked: Seq<PathView>) -> bool {
    forall|i: int, j: int|
        0 <= i < j < ranked.len() ==> score(#[trigger] ranked[i]) >= score(#[trigger] ranked[j])
}

/// The paths of the run that have the score `weight`, in the order of the run.
pub open spec fn scored_as(paths: Seq<PathView>, weight: u64) -> Seq<PathView>
    decreases paths.len(),
{
    if paths.len() == 0 {
        paths
    } else if score(paths.last()) == weight {
        scored_as(paths.drop_last(), weight).push(paths.last())
    } else {
        scored_as(paths.drop_last(), weight)
    }
}

/// A path put into a run in front of paths with other scores only comes last
/// among the paths with its score; the paths with other scores stay as they
/// were.
proof fn lemma_scored_as_insert(paths: Seq<PathView>, at: int, path: PathView, weight: u64)
    requires
        0 <= at <= paths.len(),
        forall|k: int| at <= k < paths.len() ==> score(#[trigger] paths[k]) != score(path),
    ensures
        scored_as(paths.insert(at, path), weight) == (if score(path) == weight {
            scored_as(paths, weight).push(path)
        } else {
            scored_as(paths, weight)
        }),
    decreases paths.len() - at,
{
    let longer = paths.insert(at, path);
    if at == paths.len() {
        assert(longer.drop_last() =~= paths);
        assert(longer.last() == path);
    } else {
        let last = paths.last();
        assert(longer.drop_last() =~= paths.drop_last().insert(at, path));
        assert(longer.last() == last);
        assert(score(last) != score(path));
        assert forall|k: int| at <= k < paths.drop_last().len() implies score(
            #[trigger] paths.drop_last()[k],
        ) != score(path) by {
            assert(paths.drop_last()[k] == paths[k]);
        }
        lemma_scored_as_insert(paths.drop_last(), at, path, weight);
    }
}

/// Orders ranked paths by their scores, the highest first.
///
/// The paths come back as they went in, each as often as it went in; no path
/// stands before one with a higher score, and paths with equal scores keep
/// the order in which they came. Every path has to have its score.
pub fn calc_path_order_by_weight(pathes: Vec<Path>) -> (ranked: Vec<Path>)
    requires
        forall|i: int| 0 <= i < pathes.len() ==> (#[trigger] pathes[i])@.weight is Some,
    ensures
        paths_view(ranked@).to_multiset() == paths_view(pathes@).to_multiset(),
        best_first(paths_view(ranked@)),
        forall|weight: u64|
            #![trigger scored_as(paths_view(ranked@), weight)]
            #![trigger scored_as(paths_view(pathes@), weight)]
            scored_as(paths_view(ranked@), weight) == scored_as(paths_view(pathes@), weight),
{
    let ghost all = paths_view(pathes@);
    let mut ranked: Vec<Path> = Vec::new();
    let mut i: usize = 0;
    assert(paths_view(ranked@) =~= all.take(0));
    while i < pathes.len()
        invariant
            i <= pathes.len(),
            all == paths_view(pathes@),
            forall|k: int| 0 <= k < pathes.len() ==> (#[trigger] pathes[k])@.weight is Some,
            forall|k: int| 0 <= k < ranked.len() ==> (#[trigger] ranked[k])@.weight is Some,
            paths_view(ranked@).to_multiset() == all.take(i as int).to_multiset(),
            best_first(paths_view(ranked@)),
            forall|weight: u64| #[trigger]
                scored_as(paths_view(ranked@), weight) == scored_as(all.take(i as int), weight),
        decreases pathes.len() - i,
    {
        let path = pathes[i].clone();
        let weight = path.cached_weight.unwrap();
        let ghost before = ranked@;
        let mut at: usize = 0;
        while at < ranked.len() && ranked[at].cached_weight.unwrap() >= weight
            invariant
                at <= ranked.len(),
                ranked@ == before,
                forall|k: int| 0 <= k < ranked.len() ==> (#[trigger] ranked[k])@.weight is Some,
                forall|k: int| 0 <= k < at ==> score((#[trigger] ranked[k])@) >= weight,
            decreases ranked.len() - at,
        {
            at += 1;
        }
        ranked.insert(at, path);
        proof {
            let lower = paths_view(before);
            let upper = paths_view(ranked@);
            assert(upper =~= lower.insert(at as int, path@));
            vstd::seq_lib::to_multiset_insert(lower, at as int, path@);
            assert(all.take(i + 1) =~= all.take(i as int).push(path@));
            vstd::seq_lib::to_multiset_build(all.take(i as int), path@);
            assert forall|k: int| at <= k < lower.len() implies score(#[trigger] lower[k]) < weight by {
                assert(score(lower[at as int]) < weight);
                if k > at {
                    assert(score(lower[at as int]) >= score(lower[k]));
                }
            }
            assert forall|a: int, b: int| 0 <= a < b < upper.len() implies score(
                #[trigger] upper[a],
            ) >= score(#[trigger] upper[b]) by {
                let from_a = if a < at { a } else { a - 1 };
                let from_b = if b < at { b } else { b - 1 };
                if a != at {
                    assert(upper[a] == lower[from_a]);
                }
                if b != at {
                    assert(upper[b] == lower[from_b]);
                }
                if a != at && b != at {
                    assert(score(lower[from_a]) >= score(lower[from_b]));
                } else if a == at {
                    assert(score(lower[from_b]) < weight);
                } else {
                    assert(score(before[a]@) >= weight);
                }
            }
            assert forall|k: int| 0 <= k < ranked.len() implies (#[trigger] ranked[k])@.weight is Some by {
                if k < at {
                    assert(ranked[k] == before[k]);
                } else if k > at {
                    assert(ranked[k] == before[k - 1]);
                }
            }
            assert forall|other: u64| #[trigger]
                scored_as(upper, other) == scored_as(all.take(i + 1), other) by {
                lemma_scored_as_insert(lower, at as int, path@, other);
                assert(all.take(i + 1).drop_last() =~= all.take(i as int));
                assert(scored_as(lower, other) == scored_as(all.take(i as int), other));
            }
        }
        i += 1;
    }
    assert(all.take(i as int) =~= all);
    ranked
}

/// What stands between two elements of a path in writing.
pub open spec fn arrow() -> Seq<char> {
    seq!['-', '>']
}

/// The steps in writing, each with an arrow behind it.
pub open spec fn steps_written(steps: Seq<Seq<char>>) -> Seq<char>
    decreases steps.len(),
{
    if steps.len() == 0 {
        Seq::empty()
    } else {
        steps_written(steps.drop_last()) + steps.last() + arrow()
    }
}

/// The path in writing: the start, the steps and the end, with arrows
/// between them.
pub open spec fn path_written(path: PathView) -> Seq<char> {
    path.start + arrow() + steps_written(path.path) + path.end
}

impl Path {
    /// The path in writing, as in `Aer->Lux->Ignis`. The weight is not part
    /// of it.
    pub fn render(&self) -> (text: String)
        ensures
            text@ == path_written(self@),
    {
        proof {
            reveal_strlit("->");
            assert("->"@ =~= arrow());
        }
        let mut text = self.start.get_name();
        text.append("->");
        let mut i: usize = 0;
        assert(names_view(self.path@).take(0) =~= Seq::empty());
        while i < self.path.len()
            invariant
                i <= self.path.len(),
                "->"@ == arrow(),
                text@ == self@.start + arrow() + steps_written(names_view(self.path@).take(i as int)),
            decreases self.path.len() - i,
        {
            let name = self.path[i].get_name();
            proof {
                let steps = names_view(self.path@);
                assert(steps.take(i + 1).drop_last() =~= steps.take(i as int));
                assert(steps.take(i + 1).last() == name@);
            }
            text.append(name.as_str());
            text.append("->");
            i += 1;
        }
        assert(names_view(self.path@).take(i as int) =~= names_view(self.path@));
        let end = self.end.get_name();
        text.append(end.as_str());
        text
    }
}

/// The candidate lists of a search as names, depth by depth.
spec fn frames_view(stack: Seq<Vec<ElementHandle>>) -> Seq<Seq<Seq<char>>> {
    Seq::new(stack.len(), |d: int| names_view(stack[d]@))
}

/// The ways from `from` to `to` through exactly `steps_n` elements, by
/// backtracking.
///
/// A stack holds one list of candidates for each depth reached; the list at
/// depth 0 holds `from`. Below the full depth the search goes into the last
/// candidate of the top list: the elements one step away from it become the
/// next list. At full depth each candidate that is one step away from `to`
/// gives a path. A candidate that is done with leaves its list, and a list
/// that is empty leaves the stack. An element may come up on a way more than
/// once.
pub fn calc_path_steps_n(
    dao: &DAO,
    from: &ElementHandle,
    to: &ElementHandle,
    steps_n: usize,
) -> (found: Vec<Path>)
    ensures
        is_search_result(dao.recipe_rows(), from@, to@, steps_n as nat, paths_view(found@)),
{
    let ghost rows = dao.recipe_rows();
    let ghost bound = rows.len() as int + 2;
    let ghost n = steps_n as int;
    let end_relatives = get_relatives(dao, to);
    let ghost far = names_view(end_relatives@);
    let mut found: Vec<Path> = Vec::new();
    let mut first: Vec<ElementHandle> = Vec::new();
    first.push(from.clone());
    let mut stack: Vec<Vec<ElementHandle>> = Vec::new();
    stack.push(first);
    proof {
        lemma_search_begins(rows, from@, to@, n, bound);
        assert(names_view(stack[0]@) =~= seq![from@]);
        assert(frames_view(stack@) =~= seq![seq![from@]]);
        assert(paths_view(found@) =~= Seq::empty());
    }
    while stack.len() > 0
        invariant
            rows == dao.recipe_rows(),
            bound == rows.len() + 2,
            n == steps_n,
            far == names_view(end_relatives@),
            forall|name: Seq<char>| #[trigger] far.contains(name) <==> connected(rows, to@, name),
            search_inv(rows, from@, to@, n, bound, frames_view(stack@), paths_view(found@)),
        decreases work(frames_view(stack@), n, bound),
    {
        let ghost frames = frames_view(stack@);
        let ghost before = paths_view(found@);
        let depth = stack.len() - 1;
        proof {
            assert(frames[depth as int] == names_view(stack[depth as int]@));
            lemma_stack_shape(rows, from@, to@, n, bound, frames, before);
        }
        if stack[depth].len() == 0 {
            stack.pop();
            if stack.len() > 0 {
                let mut parent = stack.pop().unwrap();
                let ghost whole_parent = parent@;
                assert(names_view(whole_parent) == frames[depth - 1]);
                parent.pop();
                assert(names_view(parent@) =~= names_view(whole_parent).drop_last());
                stack.push(parent);
            }
            proof {
                let after = frames_view(stack@);
                assert forall|j: int| 0 <= j < after.len() - 1 implies (#[trigger] after[j])
                    == frames[j] by {}
                lemma_retire(rows, from@, to@, n, bound, frames, before, after);
                lemma_work_retire(frames, n, bound, after);
                lemma_stack_shape(rows, from@, to@, n, bound, after, before);
            }
        } else if depth < steps_n {
            let top = &stack[depth];
            let next = get_relatives(dao, &top[top.len() - 1]);
            proof {
                assert(frames.last().last() == top[top.len() - 1]@);
                lemma_expand(rows, from@, to@, n, bound, frames, before, names_view(next@));
                lemma_work_expand(frames, n, bound, names_view(next@));
            }
            stack.push(next);
            proof {
                assert(frames_view(stack@) =~= frames.push(names_view(next@)));
                lemma_stack_shape(rows, from@, to@, n, bound, frames_view(stack@), before);
            }
        } else {
            let mut top = stack.pop().unwrap();
            let ghost whole_top = top@;
            let candidate = top.pop().unwrap();
            proof {
                assert(names_view(whole_top) == frames[n]);
                assert(names_view(top@) =~= frames[n].drop_last());
                assert(candidate@ == frames[n].last());
                lemma_connected_symmetric(rows, to@, candidate@);
                assert forall|j: int| 0 <= j < stack.len() implies names_view(
                    (#[trigger] stack[j])@,
                ) == frames[j] by {}
            }
            if holds(&end_relatives, &candidate) {
                let mut p = Path::new(from.clone(), to.clone());
                let mut d: usize = 1;
                while d < stack.len()
                    invariant
                        1 <= d,
                        stack.len() == n,
                        n > 0 ==> d <= n,
                        n == 0 ==> d == 1,
                        frames.len() == n + 1,
                        forall|j: int|
                            0 <= j < stack.len() ==> names_view((#[trigger] stack[j])@)
                                == frames[j],
                        forall|j: int| 0 <= j < n ==> (#[trigger] frames[j]).len() > 0,
                        p@.start == from@,
                        p@.end == to@,
                        p@.weight is None,
                        p@.path.len() == d - 1,
                        forall|k: int| 0 <= k < d - 1 ==> p@.path[k] == frames[k + 1].last(),
                    decreases stack.len() - d,
                {
                    let frame = &stack[d];
                    assert(names_view(frame@) == frames[d as int]);
                    assert(frame.len() == frames[d as int].len());
                    p.push(frame[frame.len() - 1].clone());
                    d += 1;
                }
                let ghost inner = p@.path;
                if depth > 0 {
                    p.push(candidate);
                }
                proof {
                    let steps = on_stack(frames);
                    assert(steps.len() == n);
                    assert(p@.path.len() == n);
                    assert forall|k: int| 0 <= k < n implies p@.path[k] == steps[k] by {
                        if k < n - 1 {
                            assert(p@.path[k] == inner[k]);
                        }
                    }
                    assert(p@.path =~= steps);
                }
                found.push(p);
                assert(paths_view(found@) =~= before.push(
                    PathView { start: from@, end: to@, path: on_stack(frames), weight: None },
                ));
            }
            stack.push(top);
            proof {
                let after = frames_view(stack@);
                assert forall|j: int| 0 <= j < n implies (#[trigger] after[j]) == frames[j] by {}
                assert(after[n] == frames[n].drop_last());
                lemma_try_last(rows, from@, to@, n, bound, frames, before, after);
                lemma_work_try_last(frames, n, bound, after);
                lemma_stack_shape(rows, from@, to@, n, bound, after, paths_view(found@));
            }
        }
    }
    proof {
        assert(frames_view(stack@) =~= Seq::empty());
        lemma_search_ends(rows, from@, to@, n, bound, paths_view(found@));
    }
    found
}

} // verus!
