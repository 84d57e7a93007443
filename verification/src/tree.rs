//! Breaking an element down: the tree of what it is made of, down to the
//! primary elements, and how many of each it comes to.

use vstd::prelude::*;
use ego_tree::Tree;
use crate::dao::{Components, Errors, DAO};
use crate::recipes::ElementHandle;
use crate::relation::{Recipe, has_recipe, recipe_of};

verus! {

/// `ego_tree::Tree`: a tree that keeps its nodes in the order in which they
/// were put in. Nothing of its inside is known here.
#[verifier::external_type_specification]
#[verifier::external_body]
#[verifier::reject_recursive_types(T)]
pub struct ExTree<T>(ego_tree::Tree<T>);

/// The names that the nodes of the tree hold, in the order in which the
/// nodes were put in; the root comes first.
pub uninterp spec fn tree_values(tree: ego_tree::Tree<ElementHandle>) -> Seq<Seq<char>>;

/// For each node, in the same order, the place of its parent in that order;
/// -1 for a node that has none.
pub uninterp spec fn tree_parents(tree: ego_tree::Tree<ElementHandle>) -> Seq<int>;

/// `ego_tree::Tree::new`: a tree of one node, the root, which holds `root`
/// and has no parent.
#[verifier::external_body]
fn tree_new(root: ElementHandle) -> (tree: Tree<ElementHandle>)
    ensures
        tree_values(tree) == seq![root@],
        tree_parents(tree) == seq![-1int],
{
    Tree::new(root)
}

/// `ego_tree::Tree::nodes`, then the iterator's `len`: how many nodes the
/// tree has.
#[verifier::external_body]
pub(crate) fn tree_len(tree: &Tree<ElementHandle>) -> (len: usize)
    ensures
        len == tree_values(*tree).len(),
{
    tree.nodes().len()
}

/// `ego_tree::Tree::nodes`, which goes through the nodes in the order in
/// which they were put in, as far as the node at `at`; then
/// `NodeRef::value`: what that node holds. The tree has to have that many
/// nodes.
#[verifier::external_body]
pub(crate) fn node_value(tree: &Tree<ElementHandle>, at: usize) -> (value: &ElementHandle)
    requires
        at < tree_values(*tree).len(),
    ensures
        value@ == tree_values(*tree)[at as int],
{
    tree.nodes().nth(at).unwrap().value()
}

/// `ego_tree::Tree::nodes` as far as the node at `at`, then
/// `NodeRef::has_children`: whether some node has that one for its parent.
/// The tree has to have that many nodes.
#[verifier::external_body]
pub(crate) fn node_has_children(tree: &Tree<ElementHandle>, at: usize) -> (has: bool)
    requires
        at < tree_values(*tree).len(),
    ensures
        has == tree_parents(*tree).contains(at as int),
{
    tree.nodes().nth(at).unwrap().has_children()
}

/// `ego_tree::Tree::nodes` as far as the node at `parent`, then
/// `Tree::get_mut` and `NodeMut::append`: a new node that holds `value` comes
/// last in the order, with the node at `parent` for its parent; the nodes
/// that were there stay as they were. The tree has to have that many nodes.
#[verifier::external_body]
fn node_append(tree: &mut Tree<ElementHandle>, parent: usize, value: ElementHandle)
    requires
        parent < tree_values(*old(tree)).len(),
    ensures
        tree_values(*final(tree)) == tree_values(*old(tree)).push(value@),
        tree_parents(*final(tree)) == tree_parents(*old(tree)).push(parent as int),
{
    let id = tree.nodes().nth(parent).unwrap().id();
    tree.get_mut(id).unwrap().append(value);
}

/// The breakdown of `element` is done after at most `levels` levels of
/// recipes.
pub open spec fn closes_within(recipes: Seq<Recipe>, element: Seq<char>, levels: nat) -> bool
    decreases levels,
{
    !has_recipe(recipes, element) || (levels > 0 && closes_within(
        recipes,
        recipe_of(recipes, element).component_a,
        (levels - 1) as nat,
    ) && closes_within(recipes, recipe_of(recipes, element).component_b, (levels - 1) as nat))
}

/// The node at `at` is broken down as far as it goes: a primary element has
/// no children, and any other has exactly two, side by side, which hold the
/// two components of its recipe in the recipe's order.
pub open spec fn node_settled(
    recipes: Seq<Recipe>,
    values: Seq<Seq<char>>,
    parents: Seq<int>,
    at: int,
) -> bool {
    if has_recipe(recipes, values[at]) {
        exists|child: int|
            {
                &&& at < child
                &&& child + 1 < values.len()
                &&& #[trigger] parents[child] == at
                &&& parents[child + 1] == at
                &&& values[child] == recipe_of(recipes, values[at]).component_a
                &&& values[child + 1] == recipe_of(recipes, values[at]).component_b
                &&& forall|j: int|
                    0 <= j < parents.len() && #[trigger] parents[j] == at ==> j == child || j
                        == child + 1
            }
    } else {
        forall|j: int| 0 <= j < parents.len() ==> #[trigger] parents[j] != at
    }
}

/// The nodes are the whole breakdown of `root`, level by level: the first
/// node holds `root`, every other node comes after its parent and after the
/// children of the nodes before its parent, and every node is broken down as
/// far as it goes.
pub open spec fn is_decomposition(
    recipes: Seq<Recipe>,
    root: Seq<char>,
    values: Seq<Seq<char>>,
    parents: Seq<int>,
) -> bool {
    &&& values.len() == parents.len()
    &&& values.len() >= 1
    &&& values[0] == root
    &&& parents[0] == -1
    &&& forall|j: int| 1 <= j < parents.len() ==> 0 <= #[trigger] parents[j] < j
    &&& forall|i: int, j: int|
        0 <= i < j < parents.len() ==> #[trigger] parents[i] <= #[trigger] parents[j]
    &&& forall|i: int| 0 <= i < values.len() ==> #[trigger] node_settled(recipes, values, parents, i)
}

/// The breakdown of a primary element is that element alone.
pub proof fn lemma_primary_breakdown(
    recipes: Seq<Recipe>,
    root: Seq<char>,
    values: Seq<Seq<char>>,
    parents: Seq<int>,
)
    requires
        is_decomposition(recipes, root, values, parents),
        !has_recipe(recipes, root),
    ensures
        values == seq![root],
        parents == seq![-1int],
        closes_within(recipes, root, 0),
{
    assert(node_settled(recipes, values, parents, 0));
    if values.len() > 1 {
        lemma_parent_chain(parents, 1);
    }
    assert(values =~= seq![root]);
    assert(parents =~= seq![-1int]);
}

/// Where every node but the first comes after its parent, every node but the
/// first has the first node above it: some node has the first for its parent.
proof fn lemma_parent_chain(parents: Seq<int>, at: int)
    requires
        1 <= at < parents.len(),
        forall|j: int| 1 <= j < parents.len() ==> 0 <= #[trigger] parents[j] < j,
    ensures
        exists|j: int| 0 <= j < parents.len() && #[trigger] parents[j] == 0,
    decreases at,
{
    if parents[at] != 0 {
        lemma_parent_chain(parents, parents[at]);
    }
}

/// A node that is broken down as far as it goes stays so when a child is
/// given to another node.
proof fn lemma_settled_stays(
    recipes: Seq<Recipe>,
    values: Seq<Seq<char>>,
    parents: Seq<int>,
    at: int,
    value: Seq<char>,
    parent: int,
)
    requires
        values.len() == parents.len(),
        0 <= at < values.len(),
        node_settled(recipes, values, parents, at),
        parent != at,
    ensures
        node_settled(recipes, values.push(value), parents.push(parent), at),
{
    let more_values = values.push(value);
    let more_parents = parents.push(parent);
    if has_recipe(recipes, values[at]) {
        let child = choose|child: int|
            {
                &&& at < child
                &&& child + 1 < values.len()
                &&& #[trigger] parents[child] == at
                &&& parents[child + 1] == at
                &&& values[child] == recipe_of(recipes, values[at]).component_a
                &&& values[child + 1] == recipe_of(recipes, values[at]).component_b
                &&& forall|j: int|
                    0 <= j < parents.len() && #[trigger] parents[j] == at ==> j == child || j
                        == child + 1
            };
        assert(more_parents[child] == at);
        assert(more_parents[child + 1] == at);
        assert forall|j: int| 0 <= j < more_parents.len() && #[trigger] more_parents[j]
            == at implies j == child || j == child + 1 by {
            if j < parents.len() {
                assert(parents[j] == at);
            }
        }
    } else {
        assert forall|j: int| 0 <= j < more_parents.len() implies #[trigger] more_parents[j]
            != at by {
            if j < parents.len() {
                assert(parents[j] != at);
            }
        }
    }
}

/// How many primary elements named `name` the breakdown of `element` comes
/// to, where it is done after at most `levels` levels of recipes.
pub open spec fn leaf_count(
    recipes: Seq<Recipe>,
    element: Seq<char>,
    name: Seq<char>,
    levels: nat,
) -> nat
    decreases levels,
{
    if !has_recipe(recipes, element) {
        if element == name {
            1
        } else {
            0
        }
    } else if levels == 0 {
        0
    } else {
        leaf_count(recipes, recipe_of(recipes, element).component_a, name, (levels - 1) as nat)
            + leaf_count(
            recipes,
            recipe_of(recipes, element).component_b,
            name,
            (levels - 1) as nat,
        )
    }
}

/// How many of the first `upto` nodes hold the primary element `name`.
pub open spec fn primary_nodes(
    recipes: Seq<Recipe>,
    values: Seq<Seq<char>>,
    upto: int,
    name: Seq<char>,
) -> nat
    decreases upto,
{
    if upto <= 0 {
        0
    } else {
        primary_nodes(recipes, values, upto - 1, name) + if !has_recipe(recipes, values[upto - 1])
            && values[upto - 1] == name {
            1nat
        } else {
            0nat
        }
    }
}

/// What the nodes from `lo` up to `hi` have yet to come to.
spec fn due(
    recipes: Seq<Recipe>,
    values: Seq<Seq<char>>,
    lo: int,
    hi: int,
    name: Seq<char>,
    levels: nat,
) -> nat
    decreases hi - lo,
{
    if hi <= lo {
        0
    } else {
        due(recipes, values, lo, hi - 1, name, levels) + leaf_count(
            recipes,
            values[hi - 1],
            name,
            levels,
        )
    }
}

/// The count while a level is worked through: what the nodes before `done`
/// have come to, what the rest of the level has yet to come to, and what the
/// next level, from `hi` on, has yet to come to.
spec fn tally(
    recipes: Seq<Recipe>,
    values: Seq<Seq<char>>,
    done: int,
    hi: int,
    name: Seq<char>,
    levels: nat,
) -> nat {
    primary_nodes(recipes, values, done, name) + due(recipes, values, done, hi, name, levels) + due(
        recipes,
        values,
        hi,
        values.len() as int,
        name,
        if levels > 0 {
            (levels - 1) as nat
        } else {
            0
        },
    )
}

proof fn lemma_due_front(
    recipes: Seq<Recipe>,
    values: Seq<Seq<char>>,
    lo: int,
    hi: int,
    name: Seq<char>,
    levels: nat,
)
    requires
        lo < hi,
    ensures
        due(recipes, values, lo, hi, name, levels) == leaf_count(recipes, values[lo], name, levels)
            + due(recipes, values, lo + 1, hi, name, levels),
    decreases hi - lo,
{
    if lo + 1 < hi {
        lemma_due_front(recipes, values, lo, hi - 1, name, levels);
    } else {
        assert(due(recipes, values, lo, lo, name, levels) == 0);
        assert(due(recipes, values, lo + 1, hi, name, levels) == 0);
    }
}

proof fn lemma_due_same(
    recipes: Seq<Recipe>,
    values: Seq<Seq<char>>,
    other: Seq<Seq<char>>,
    lo: int,
    hi: int,
    name: Seq<char>,
    levels: nat,
)
    requires
        forall|x: int| lo <= x < hi ==> #[trigger] values[x] == other[x],
    ensures
        due(recipes, values, lo, hi, name, levels) == due(recipes, other, lo, hi, name, levels),
    decreases hi - lo,
{
    if lo < hi {
        lemma_due_same(recipes, values, other, lo, hi - 1, name, levels);
        assert(values[hi - 1] == other[hi - 1]);
    }
}

proof fn lemma_primary_nodes_same(
    recipes: Seq<Recipe>,
    values: Seq<Seq<char>>,
    other: Seq<Seq<char>>,
    upto: int,
    name: Seq<char>,
)
    requires
        forall|x: int| 0 <= x < upto ==> #[trigger] values[x] == other[x],
    ensures
        primary_nodes(recipes, values, upto, name) == primary_nodes(recipes, other, upto, name),
    decreases upto,
{
    if upto > 0 {
        lemma_primary_nodes_same(recipes, values, other, upto - 1, name);
        assert(values[upto - 1] == other[upto - 1]);
    }
}

/// A primary node of the level is done with: the count stays.
proof fn lemma_tally_primary(
    recipes: Seq<Recipe>,
    values: Seq<Seq<char>>,
    at: int,
    hi: int,
    name: Seq<char>,
    levels: nat,
)
    requires
        0 <= at < hi <= values.len(),
        !has_recipe(recipes, values[at]),
    ensures
        tally(recipes, values, at + 1, hi, name, levels) == tally(
            recipes,
            values,
            at,
            hi,
            name,
            levels,
        ),
{
    lemma_due_front(recipes, values, at, hi, name, levels);
}

/// A node of the level is split in two that go to the next level: the count
/// stays.
proof fn lemma_tally_split(
    recipes: Seq<Recipe>,
    values: Seq<Seq<char>>,
    first: Seq<char>,
    second: Seq<char>,
    at: int,
    hi: int,
    name: Seq<char>,
    levels: nat,
)
    requires
        0 <= at < hi <= values.len(),
        levels > 0,
        has_recipe(recipes, values[at]),
        first == recipe_of(recipes, values[at]).component_a,
        second == recipe_of(recipes, values[at]).component_b,
    ensures
        tally(recipes, values.push(first).push(second), at + 1, hi, name, levels) == tally(
            recipes,
            values,
            at,
            hi,
            name,
            levels,
        ),
{
    let grown = values.push(first).push(second);
    let n = values.len() as int;
    let lower = (levels - 1) as nat;
    lemma_due_front(recipes, values, at, hi, name, levels);
    lemma_primary_nodes_same(recipes, values, grown, at + 1, name);
    lemma_due_same(recipes, values, grown, at + 1, hi, name, levels);
    lemma_due_same(recipes, values, grown, hi, n, name, lower);
    assert(grown[n] == first && grown[n + 1] == second);
    assert(due(recipes, grown, hi, n + 2, name, lower) == due(recipes, grown, hi, n + 1, name, lower)
        + leaf_count(recipes, second, name, lower));
    assert(due(recipes, grown, hi, n + 1, name, lower) == due(recipes, grown, hi, n, name, lower)
        + leaf_count(recipes, first, name, lower));
    assert(primary_nodes(recipes, values, at + 1, name) == primary_nodes(
        recipes,
        values,
        at,
        name,
    ));
}

/// The ranking puts every element that has a recipe above both of its
/// components: the recipes lead nowhere back.
pub open spec fn ranks_down(recipes: Seq<Recipe>, rank: spec_fn(Seq<char>) -> nat) -> bool {
    forall|i: int|
        0 <= i < recipes.len() ==> rank((#[trigger] recipes[i]).component_a) < rank(
            recipes[i].name,
        ) && rank(recipes[i].component_b) < rank(recipes[i].name)
}

/// How many of the first `upto` recipes are for elements ranked below `limit`.
spec fn ranked_below(
    recipes: Seq<Recipe>,
    rank: spec_fn(Seq<char>) -> nat,
    limit: nat,
    upto: int,
) -> nat
    decreases upto,
{
    if upto <= 0 {
        0
    } else {
        ranked_below(recipes, rank, limit, upto - 1) + if rank(recipes[upto - 1].name) < limit {
            1nat
        } else {
            0nat
        }
    }
}

proof fn lemma_ranked_below_grows(
    recipes: Seq<Recipe>,
    rank: spec_fn(Seq<char>) -> nat,
    lower: nat,
    higher: nat,
    upto: int,
)
    requires
        lower <= higher,
        0 <= upto,
    ensures
        ranked_below(recipes, rank, lower, upto) <= ranked_below(recipes, rank, higher, upto) <= upto,
    decreases upto,
{
    if upto > 0 {
        lemma_ranked_below_grows(recipes, rank, lower, higher, upto - 1);
    }
}

proof fn lemma_ranked_below_strict(
    recipes: Seq<Recipe>,
    rank: spec_fn(Seq<char>) -> nat,
    limit: nat,
    upto: int,
    at: int,
)
    requires
        0 <= at < upto,
        rank(recipes[at].name) == limit,
    ensures
        ranked_below(recipes, rank, limit, upto) < ranked_below(
            recipes,
            rank,
            (limit + 1) as nat,
            upto,
        ),
    decreases upto,
{
    if at < upto - 1 {
        lemma_ranked_below_strict(recipes, rank, limit, upto - 1, at);
    } else {
        lemma_ranked_below_grows(recipes, rank, limit, (limit + 1) as nat, upto - 1);
    }
}

/// A breakdown that is done after some levels is done after more.
pub proof fn lemma_closes_within_more(
    recipes: Seq<Recipe>,
    element: Seq<char>,
    levels: nat,
    more: nat,
)
    requires
        closes_within(recipes, element, levels),
        levels <= more,
    ensures
        closes_within(recipes, element, more),
    decreases levels,
{
    if has_recipe(recipes, element) {
        let row = recipe_of(recipes, element);
        lemma_closes_within_more(
            recipes,
            row.component_a,
            (levels - 1) as nat,
            (more - 1) as nat,
        );
        lemma_closes_within_more(
            recipes,
            row.component_b,
            (levels - 1) as nat,
            (more - 1) as nat,
        );
    }
}

proof fn lemma_closes_by_rank(
    recipes: Seq<Recipe>,
    rank: spec_fn(Seq<char>) -> nat,
    element: Seq<char>,
)
    requires
        ranks_down(recipes, rank),
    ensures
        closes_within(
            recipes,
            element,
            ranked_below(recipes, rank, (rank(element) + 1) as nat, recipes.len() as int),
        ),
    decreases rank(element),
{
    if has_recipe(recipes, element) {
        let at = choose|i: int| 0 <= i < recipes.len() && (#[trigger] recipes[i]).name == element;
        let row = recipes[at];
        assert(row == recipe_of(recipes, element));
        let end = recipes.len() as int;
        let here = ranked_below(recipes, rank, (rank(element) + 1) as nat, end);
        lemma_ranked_below_strict(recipes, rank, rank(element), end, at);
        lemma_closes_by_rank(recipes, rank, row.component_a);
        lemma_closes_by_rank(recipes, rank, row.component_b);
        lemma_ranked_below_grows(
            recipes,
            rank,
            (rank(row.component_a) + 1) as nat,
            rank(element),
            end,
        );
        lemma_ranked_below_grows(
            recipes,
            rank,
            (rank(row.component_b) + 1) as nat,
            rank(element),
            end,
        );
        lemma_closes_within_more(
            recipes,
            row.component_a,
            ranked_below(recipes, rank, (rank(row.component_a) + 1) as nat, end),
            (here - 1) as nat,
        );
        lemma_closes_within_more(
            recipes,
            row.component_b,
            ranked_below(recipes, rank, (rank(row.component_b) + 1) as nat, end),
            (here - 1) as nat,
        );
    }
}

/// Where the recipes lead nowhere back, the breakdown of every element is
/// done within as many levels as there are recipes: it is never given up.
pub proof fn lemma_no_loops_closes(
    recipes: Seq<Recipe>,
    rank: spec_fn(Seq<char>) -> nat,
    element: Seq<char>,
)
    requires
        ranks_down(recipes, rank),
    ensures
        closes_within(recipes, element, recipes.len()),
{
    lemma_closes_by_rank(recipes, rank, element);
    lemma_ranked_below_grows(
        recipes,
        rank,
        (rank(element) + 1) as nat,
        (rank(element) + 1) as nat,
        recipes.len() as int,
    );
    lemma_closes_within_more(
        recipes,
        element,
        ranked_below(recipes, rank, (rank(element) + 1) as nat, recipes.len() as int),
        recipes.len(),
    );
}

/// A primary element breaks down to itself, once, and to nothing else.
pub proof fn lemma_primary_cracks_to_itself(
    recipes: Seq<Recipe>,
    element: Seq<char>,
    name: Seq<char>,
    levels: nat,
)
    requires
        !has_recipe(recipes, element),
    ensures
        closes_within(recipes, element, levels),
        leaf_count(recipes, element, name, levels) == (if name == element {
            1nat
        } else {
            0nat
        }),
{
}

/// The tree of what `ele` is made of, down to the primary elements.
///
/// The tree grows level by level: each node of the last level that has a
/// recipe gets its two components as children, and they form the next
/// level. No breakdown without a loop in it goes deeper than the book has
/// recipes; one that does is given up.
pub fn constructing_tree(dao: &DAO, ele: &ElementHandle) -> (grown: Result<
    Tree<ElementHandle>,
    Errors,
>)
    ensures
        grown is Ok <==> closes_within(dao.recipe_rows(), ele@, dao.recipe_rows().len()),
        !has_recipe(dao.recipe_rows(), ele@) ==> grown is Ok,
        grown matches Ok(tree) ==> is_decomposition(
            dao.recipe_rows(),
            ele@,
            tree_values(tree),
            tree_parents(tree),
        ),
        grown matches Ok(tree) ==> forall|name: Seq<char>|
            #![trigger primary_nodes(dao.recipe_rows(), tree_values(tree), tree_values(tree).len() as int, name)]
            #![trigger leaf_count(dao.recipe_rows(), ele@, name, dao.recipe_rows().len())]
            primary_nodes(
                dao.recipe_rows(),
                tree_values(tree),
                tree_values(tree).len() as int,
                name,
            ) == leaf_count(dao.recipe_rows(), ele@, name, dao.recipe_rows().len()),
        grown matches Err(e) ==> (e matches Errors::RecipeCycle(name) && name@ == ele@),
{
    let ghost rows = dao.recipe_rows();
    let cap = dao.count_recipes();
    let mut tree = tree_new(ele.clone());
    let mut lo: usize = 0;
    let mut depth: usize = 0;
    let mut growing = true;
    proof {
        let values = tree_values(tree);
        assert(values[0] == ele@);
        assert forall|name: Seq<char>|
            tally(rows, values, 0, 1, name, cap as nat) == #[trigger] leaf_count(
                rows,
                ele@,
                name,
                cap as nat,
            ) by {
            assert(due(rows, values, 0, 1, name, cap as nat) == due(
                rows,
                values,
                0,
                0,
                name,
                cap as nat,
            ) + leaf_count(rows, values[0], name, cap as nat));
        }
    }
    while growing
        invariant
            rows == dao.recipe_rows(),
            cap == rows.len(),
            depth <= cap,
            tree_values(tree).len() == tree_parents(tree).len(),
            tree_values(tree).len() >= 1,
            tree_values(tree)[0] == ele@,
            tree_parents(tree)[0] == -1,
            forall|j: int|
                1 <= j < tree_parents(tree).len() ==> 0 <= #[trigger] tree_parents(tree)[j] < j,
            forall|i: int, j: int|
                0 <= i < j < tree_parents(tree).len() ==> #[trigger] tree_parents(tree)[i]
                    <= #[trigger] tree_parents(tree)[j],
            growing ==> lo < tree_values(tree).len(),
            growing ==> forall|i: int|
                0 <= i < lo ==> #[trigger] node_settled(
                    rows,
                    tree_values(tree),
                    tree_parents(tree),
                    i,
                ),
            growing ==> forall|j: int|
                0 <= j < tree_parents(tree).len() ==> #[trigger] tree_parents(tree)[j] < lo,
            growing ==> (closes_within(rows, ele@, cap as nat) <==> forall|x: int|
                lo <= x < tree_values(tree).len() ==> closes_within(
                    rows,
                    #[trigger] tree_values(tree)[x],
                    (cap - depth) as nat,
                )),
            growing ==> forall|name: Seq<char>|
                tally(
                    rows,
                    tree_values(tree),
                    lo as int,
                    tree_values(tree).len() as int,
                    name,
                    (cap - depth) as nat,
                ) == #[trigger] leaf_count(rows, ele@, name, cap as nat),
            !growing ==> closes_within(rows, ele@, cap as nat) && is_decomposition(
                rows,
                ele@,
                tree_values(tree),
                tree_parents(tree),
            ),
            !growing ==> forall|name: Seq<char>|
                primary_nodes(rows, tree_values(tree), tree_values(tree).len() as int, name)
                    == #[trigger] leaf_count(rows, ele@, name, cap as nat),
        decreases cap - depth, growing as int,
    {
        let hi = tree_len(&tree);
        let mut at: usize = lo;
        while at < hi
            invariant
                lo <= at <= hi,
                rows == dao.recipe_rows(),
                cap == rows.len(),
                depth <= cap,
                hi <= tree_values(tree).len(),
                tree_values(tree).len() == tree_parents(tree).len(),
                tree_values(tree)[0] == ele@,
                tree_parents(tree)[0] == -1,
                forall|j: int|
                    1 <= j < tree_parents(tree).len() ==> 0 <= #[trigger] tree_parents(tree)[j]
                        < j,
                forall|i: int, j: int|
                    0 <= i < j < tree_parents(tree).len() ==> #[trigger] tree_parents(tree)[i]
                        <= #[trigger] tree_parents(tree)[j],
                forall|i: int|
                    0 <= i < at ==> #[trigger] node_settled(
                        rows,
                        tree_values(tree),
                        tree_parents(tree),
                        i,
                    ),
                forall|j: int|
                    0 <= j < tree_parents(tree).len() ==> #[trigger] tree_parents(tree)[j] < at,
                tree_values(tree).len() > hi ==> depth < cap,
                forall|name: Seq<char>|
                    tally(rows, tree_values(tree), at as int, hi as int, name, (cap - depth) as nat)
                        == #[trigger] leaf_count(rows, ele@, name, cap as nat),
                closes_within(rows, ele@, cap as nat) <==> (forall|x: int|
                    at <= x < hi ==> closes_within(
                        rows,
                        #[trigger] tree_values(tree)[x],
                        (cap - depth) as nat,
                    )) && (forall|x: int|
                    hi <= x < tree_values(tree).len() ==> closes_within(
                        rows,
                        #[trigger] tree_values(tree)[x],
                        (cap - depth - 1) as nat,
                    )),
            decreases hi - at,
        {
            let ghost values = tree_values(tree);
            let ghost parents = tree_parents(tree);
            match dao.get_element_components(node_value(&tree, at)) {
                Components::Decomposed { a, b } => {
                    if depth == cap {
                        assert(!closes_within(rows, values[at as int], 0));
                        return Err(Errors::RecipeCycle(ele.get_name()));
                    }
                    let ghost first = a@;
                    let ghost second = b@;
                    node_append(&mut tree, at, a);
                    node_append(&mut tree, at, b);
                    proof {
                        let mid_values = values.push(first);
                        let mid_parents = parents.push(at as int);
                        let child = values.len() as int;
                        assert(tree_values(tree) == mid_values.push(second));
                        assert(tree_parents(tree) == mid_parents.push(at as int));
                        assert forall|i: int| 0 <= i < at implies #[trigger] node_settled(
                            rows,
                            tree_values(tree),
                            tree_parents(tree),
                            i,
                        ) by {
                            assert(node_settled(rows, values, parents, i));
                            lemma_settled_stays(rows, values, parents, i, first, at as int);
                            lemma_settled_stays(
                                rows,
                                mid_values,
                                mid_parents,
                                i,
                                second,
                                at as int,
                            );
                        }
                        assert(node_settled(
                            rows,
                            tree_values(tree),
                            tree_parents(tree),
                            at as int,
                        )) by {
                            assert(tree_parents(tree)[child] == at);
                            assert(tree_parents(tree)[child + 1] == at);
                            assert forall|j: int|
                                0 <= j < tree_parents(tree).len() && #[trigger] tree_parents(
                                    tree,
                                )[j] == at implies j == child || j == child + 1 by {
                                if j < parents.len() {
                                    assert(parents[j] < at);
                                }
                            }
                        }
                        assert forall|j: int| 0 <= j < tree_parents(tree).len() implies #[trigger] tree_parents(
                            tree,
                        )[j] < at + 1 by {
                            if j < parents.len() {
                                assert(parents[j] < at);
                            }
                        }
                        assert forall|j: int| 1 <= j < tree_parents(tree).len() implies 0
                            <= #[trigger] tree_parents(tree)[j] < j by {
                            if j < parents.len() {
                                assert(0 <= parents[j] < j);
                            }
                        }
                        assert forall|i: int, j: int|
                            0 <= i < j < tree_parents(tree).len() implies #[trigger] tree_parents(
                            tree,
                        )[i] <= #[trigger] tree_parents(tree)[j] by {
                            if j < parents.len() {
                                assert(parents[i] <= parents[j]);
                            } else if i < parents.len() {
                                assert(parents[i] < at);
                            }
                        }
                        lemma_level_closes_after_split(
                            rows,
                            values,
                            first,
                            second,
                            at as int,
                            hi as int,
                            (cap - depth) as nat,
                        );
                        assert forall|name: Seq<char>|
                            tally(
                                rows,
                                tree_values(tree),
                                at + 1,
                                hi as int,
                                name,
                                (cap - depth) as nat,
                            ) == #[trigger] leaf_count(rows, ele@, name, cap as nat) by {
                            lemma_tally_split(
                                rows,
                                values,
                                first,
                                second,
                                at as int,
                                hi as int,
                                name,
                                (cap - depth) as nat,
                            );
                        }
                    }
                },
                Components::Primitive => {
                    proof {
                        assert(node_settled(rows, values, parents, at as int)) by {
                            assert forall|j: int| 0 <= j < parents.len() implies #[trigger] parents[j]
                                != at by {
                                assert(parents[j] < at);
                            }
                        }
                        assert(closes_within(rows, values[at as int], (cap - depth) as nat));
                        assert forall|name: Seq<char>|
                            tally(rows, values, at + 1, hi as int, name, (cap - depth) as nat)
                                == #[trigger] leaf_count(rows, ele@, name, cap as nat) by {
                            lemma_tally_primary(
                                rows,
                                values,
                                at as int,
                                hi as int,
                                name,
                                (cap - depth) as nat,
                            );
                        }
                    }
                },
            }
            at += 1;
        }
        proof {
            let values = tree_values(tree);
            let end = values.len() as int;
            assert forall|name: Seq<char>|
                primary_nodes(rows, values, hi as int, name) + due(
                    rows,
                    values,
                    hi as int,
                    end,
                    name,
                    if cap - depth > 0 {
                        (cap - depth - 1) as nat
                    } else {
                        0
                    },
                ) == #[trigger] leaf_count(rows, ele@, name, cap as nat) by {
                assert(tally(rows, values, hi as int, hi as int, name, (cap - depth) as nat)
                    == leaf_count(rows, ele@, name, cap as nat));
            }
        }
        if tree_len(&tree) != hi {
            lo = hi;
            depth += 1;
        } else {
            growing = false;
        }
    }
    Ok(tree)
}

/// One node of a level is split in two: the level closes in time exactly
/// where the rest of it and the two new nodes do.
proof fn lemma_level_closes_after_split(
    rows: Seq<Recipe>,
    values: Seq<Seq<char>>,
    first: Seq<char>,
    second: Seq<char>,
    at: int,
    hi: int,
    levels: nat,
)
    requires
        0 <= at < hi <= values.len(),
        levels > 0,
        has_recipe(rows, values[at]),
        first == recipe_of(rows, values[at]).component_a,
        second == recipe_of(rows, values[at]).component_b,
    ensures
        ({
            let grown = values.push(first).push(second);
            ((forall|x: int|
                at <= x < hi ==> closes_within(rows, #[trigger] values[x], levels)) && (forall|
                x: int,
            |
                hi <= x < values.len() ==> closes_within(
                    rows,
                    #[trigger] values[x],
                    (levels - 1) as nat,
                ))) <==> ((forall|x: int|
                at + 1 <= x < hi ==> closes_within(rows, #[trigger] grown[x], levels)) && (forall|
                x: int,
            |
                hi <= x < grown.len() ==> closes_within(
                    rows,
                    #[trigger] grown[x],
                    (levels - 1) as nat,
                )))
        }),
{
    let grown = values.push(first).push(second);
    let before = (forall|x: int| at <= x < hi ==> closes_within(rows, #[trigger] values[x], levels))
        && (forall|x: int|
        hi <= x < values.len() ==> closes_within(rows, #[trigger] values[x], (levels - 1) as nat));
    let after = (forall|x: int|
        at + 1 <= x < hi ==> closes_within(rows, #[trigger] grown[x], levels)) && (forall|x: int|
        hi <= x < grown.len() ==> closes_within(rows, #[trigger] grown[x], (levels - 1) as nat));
    let n = values.len() as int;
    assert(grown[n] == first && grown[n + 1] == second);
    if before {
        assert(closes_within(rows, values[at], levels));
        assert forall|x: int| at + 1 <= x < hi implies closes_within(
            rows,
            #[trigger] grown[x],
            levels,
        ) by {
            assert(grown[x] == values[x]);
        }
        assert forall|x: int| hi <= x < grown.len() implies closes_within(
            rows,
            #[trigger] grown[x],
            (levels - 1) as nat,
        ) by {
            if x < n {
                assert(grown[x] == values[x]);
            }
        }
    }
    if after {
        assert(closes_within(rows, grown[n], (levels - 1) as nat));
        assert(closes_within(rows, grown[n + 1], (levels - 1) as nat));
        assert(closes_within(rows, values[at], levels));
        assert forall|x: int| at <= x < hi implies closes_within(
            rows,
            #[trigger] values[x],
            levels,
        ) by {
            if x > at {
                assert(grown[x] == values[x]);
            }
        }
        assert forall|x: int| hi <= x < values.len() implies closes_within(
            rows,
            #[trigger] values[x],
            (levels - 1) as nat,
        ) by {
            assert(grown[x] == values[x]);
        }
    }
}

} // verus!
