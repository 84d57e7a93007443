//! Cracking elements: which primary elements they break down to, and how
//! many of each.

use vstd::prelude::*;
use crate::dao::{Errors, DAO};
use crate::recipes::ElementHandle;
use crate::relation::{Recipe, has_recipe, lemma_take_step};
use crate::tree::{closes_within, constructing_tree, is_decomposition, leaf_count, node_has_children, node_settled, node_value, primary_nodes, tree_len, tree_parents, tree_values};

verus! {

/// The elements that a list of counts names, entry by entry.
pub open spec fn counted(counts: Seq<(ElementHandle, usize)>) -> Seq<Seq<char>> {
    Seq::new(counts.len(), |i: int| counts[i].0@)
}

/// A list of counts is in order: no element is named twice, and no entry
/// counts nothing.
pub open spec fn well_counted(counts: Seq<(ElementHandle, usize)>) -> bool {
    &&& counted(counts).no_duplicates()
    &&& forall|i: int| 0 <= i < counts.len() ==> (#[trigger] counts[i]).1 > 0
}

/// How many of `name` the list counts: nothing where it does not name it.
pub open spec fn amount(counts: Seq<(ElementHandle, usize)>, name: Seq<char>) -> nat {
    if counted(counts).contains(name) {
        counts[counted(counts).index_of(name)].1 as nat
    } else {
        0
    }
}

/// In a list in order, the entry that names an element says how many of it
/// the list counts.
pub proof fn lemma_amount_at(counts: Seq<(ElementHandle, usize)>, at: int)
    requires
        counted(counts).no_duplicates(),
        0 <= at < counts.len(),
    ensures
        amount(counts, counts[at].0@) == counts[at].1,
{
    let names = counted(counts);
    let name = counts[at].0@;
    assert(names[at] == name);
    let found = names.index_of(name);
    assert(0 <= found < names.len() && names[found] == name);
}

/// How many of the first `upto` nodes hold a given primary element is at most
/// `upto`.
proof fn lemma_primary_nodes_bound(
    recipes: Seq<Recipe>,
    values: Seq<Seq<char>>,
    upto: int,
    name: Seq<char>,
)
    requires
        0 <= upto,
    ensures
        primary_nodes(recipes, values, upto, name) <= upto,
    decreases upto,
{
    if upto > 0 {
        lemma_primary_nodes_bound(recipes, values, upto - 1, name);
    }
}

/// Counts `more` of `handle` into the list, where the count still fits.
///
/// Says whether it fits; where it does not, the list stays as it was.
fn add_count(counts: &mut Vec<(ElementHandle, usize)>, handle: &ElementHandle, more: usize) -> (fits:
    bool)
    requires
        well_counted(old(counts)@),
        more > 0,
    ensures
        well_counted(final(counts)@),
        fits <==> amount(old(counts)@, handle@) + more <= usize::MAX,
        !fits ==> final(counts)@ == old(counts)@,
        fits ==> forall|name: Seq<char>| #[trigger]
            amount(final(counts)@, name) == amount(old(counts)@, name) + (if name == handle@ {
                more as nat
            } else {
                0
            }),
{
    let ghost before = counts@;
    let ghost names = counted(before);
    let mut at: usize = 0;
    while at < counts.len()
        invariant
            at <= counts.len(),
            counts@ == before,
            before == old(counts)@,
            names == counted(before),
            well_counted(before),
            more > 0,
            forall|k: int| 0 <= k < at ==> before[k].0@ != handle@,
        decreases counts.len() - at,
    {
        if counts[at].0 == *handle {
            proof {
                lemma_amount_at(before, at as int);
            }
            match counts[at].1.checked_add(more) {
                None => {
                    return false;
                },
                Some(sum) => {
                    counts.set(at, (handle.clone(), sum));
                    proof {
                        let after = counts@;
                        assert(counted(after) =~= names);
                        lemma_amount_at(after, at as int);
                        assert forall|name: Seq<char>| #[trigger]
                            amount(after, name) == amount(before, name) + (if name == handle@ {
                                more as nat
                            } else {
                                0
                            }) by {
                            if name != handle@ && names.contains(name) {
                                let k = names.index_of(name);
                                assert(0 <= k < names.len() && names[k] == name);
                                assert(after[k] == before[k]);
                            }
                        }
                        assert forall|i: int| 0 <= i < after.len() implies (#[trigger] after[i]).1
                            > 0 by {
                            if i != at {
                                assert(after[i] == before[i]);
                            }
                        }
                    }
                    return true;
                },
            }
        }
        at += 1;
    }
    proof {
        assert(!names.contains(handle@)) by {
            if names.contains(handle@) {
                let k = choose|k: int| 0 <= k < names.len() && names[k] == handle@;
                assert(before[k].0@ != handle@);
            }
        }
    }
    counts.push((handle.clone(), more));
    proof {
        let after = counts@;
        let end = before.len() as int;
        assert(counted(after) =~= names.push(handle@));
        assert(counted(after).no_duplicates()) by {
            assert forall|a: int, b: int|
                0 <= a < after.len() && 0 <= b < after.len() && a != b implies counted(after)[a]
                != counted(after)[b] by {
                if a < end && b < end {
                    assert(names[a] != names[b]);
                } else if a < end {
                    assert(names[a] == before[a].0@);
                } else {
                    assert(names[b] == before[b].0@);
                }
            }
        }
        lemma_amount_at(after, end);
        assert forall|i: int| 0 <= i < after.len() implies (#[trigger] after[i]).1 > 0 by {
            if i < end {
                assert(after[i] == before[i]);
            }
        }
        assert forall|name: Seq<char>| #[trigger]
            amount(after, name) == amount(before, name) + (if name == handle@ {
                more as nat
            } else {
                0
            }) by {
            if name != handle@ {
                if names.contains(name) {
                    let k = names.index_of(name);
                    assert(0 <= k < names.len() && names[k] == name);
                    assert(counted(after)[k] == name);
                    lemma_amount_at(after, k);
                    assert(after[k] == before[k]);
                } else if counted(after).contains(name) {
                    let k = choose|k: int| 0 <= k < after.len() && counted(after)[k] == name;
                    if k < end {
                        assert(names[k] == name);
                    }
                }
            }
        }
    }
    true
}

/// The primary elements that `ele` breaks down to, and how many of each.
///
/// Fails where the breakdown does not come to an end within as many levels
/// as the book has recipes.
pub fn crack_element_until_primary(dao: &DAO, ele: &ElementHandle) -> (cracked: Result<
    Vec<(ElementHandle, usize)>,
    Errors,
>)
    ensures
        cracked is Ok <==> closes_within(dao.recipe_rows(), ele@, dao.recipe_rows().len()),
        cracked matches Ok(counts) ==> well_counted(counts@) && forall|name: Seq<char>|
            #![trigger amount(counts@, name)]
            #![trigger leaf_count(dao.recipe_rows(), ele@, name, dao.recipe_rows().len())]
            amount(counts@, name) == leaf_count(
                dao.recipe_rows(),
                ele@,
                name,
                dao.recipe_rows().len(),
            ),
        cracked matches Err(e) ==> (e matches Errors::RecipeCycle(name) && name@ == ele@),
{
    let ghost rows = dao.recipe_rows();
    let tree = match constructing_tree(dao, ele) {
        Ok(tree) => tree,
        Err(e) => {
            return Err(e);
        },
    };
    let ghost values = tree_values(tree);
    let ghost parents = tree_parents(tree);
    let nodes = tree_len(&tree);
    let mut counts: Vec<(ElementHandle, usize)> = Vec::new();
    let mut i: usize = 0;
    assert(counted(counts@) =~= Seq::empty());
    while i < nodes
        invariant
            i <= nodes,
            values == tree_values(tree),
            parents == tree_parents(tree),
            nodes == values.len(),
            is_decomposition(rows, ele@, values, parents),
            well_counted(counts@),
            forall|name: Seq<char>| #[trigger]
                amount(counts@, name) == primary_nodes(rows, values, i as int, name),
        decreases nodes - i,
    {
        proof {
            assert(node_settled(rows, values, parents, i as int));
        }
        if !node_has_children(&tree, i) {
            let leaf = node_value(&tree, i);
            proof {
                if has_recipe(rows, values[i as int]) {
                    let child = choose|child: int|
                        {
                            &&& i < child
                            &&& child + 1 < values.len()
                            &&& #[trigger] parents[child] == i
                            &&& parents[child + 1] == i
                        };
                    assert(parents[child] == i);
                }
                lemma_primary_nodes_bound(rows, values, i as int, leaf@);
            }
            let fits = add_count(&mut counts, leaf, 1);
            assert(fits);
        } else {
            proof {
                if !has_recipe(rows, values[i as int]) {
                    let j = choose|j: int| 0 <= j < parents.len() && parents[j] == i;
                    assert(parents[j] != i);
                }
            }
        }
        i += 1;
    }
    Ok(counts)
}

/// How many of `name` the requested elements break down to together, each
/// as often as it is asked for.
pub open spec fn demand(
    recipes: Seq<Recipe>,
    requested: Seq<(ElementHandle, usize)>,
    name: Seq<char>,
) -> int
    decreases requested.len(),
{
    if requested.len() == 0 {
        0
    } else {
        demand(recipes, requested.drop_last(), name) + requested.last().1 * leaf_count(
            recipes,
            requested.last().0@,
            name,
            recipes.len(),
        )
    }
}

/// The first requested element that the book does not list is at `at`.
pub open spec fn first_missing(
    elements: Seq<Seq<char>>,
    requested: Seq<(ElementHandle, usize)>,
    at: int,
) -> bool {
    &&& 0 <= at < requested.len()
    &&& !elements.contains(requested[at].0@)
    &&& forall|j: int| 0 <= j < at ==> elements.contains((#[trigger] requested[j]).0@)
}

/// The first requested element whose breakdown does not come to an end is at
/// `at`.
pub open spec fn first_endless(
    recipes: Seq<Recipe>,
    requested: Seq<(ElementHandle, usize)>,
    at: int,
) -> bool {
    &&& 0 <= at < requested.len()
    &&& !closes_within(recipes, requested[at].0@, recipes.len())
    &&& forall|j: int|
        0 <= j < at ==> closes_within(recipes, (#[trigger] requested[j]).0@, recipes.len())
}

/// What is asked for up to some entry is no more than what is asked for in
/// all, and the entry's own part is no more than that.
proof fn lemma_demand_grows(
    recipes: Seq<Recipe>,
    requested: Seq<(ElementHandle, usize)>,
    upto: int,
    name: Seq<char>,
)
    requires
        0 <= upto <= requested.len(),
    ensures
        0 <= demand(recipes, requested.take(upto), name) <= demand(recipes, requested, name),
    decreases requested.len() - upto,
{
    lemma_demand_positive(recipes, requested.take(upto), name);
    if upto < requested.len() {
        lemma_demand_grows(recipes, requested, upto + 1, name);
        let longer = requested.take(upto + 1);
        assert(longer.drop_last() =~= requested.take(upto));
        let q = longer.last().1 as int;
        let c = leaf_count(recipes, longer.last().0@, name, recipes.len()) as int;
        assert(q * c >= 0) by (nonlinear_arith)
            requires
                q >= 0,
                c >= 0,
        ;
    } else {
        assert(requested.take(upto) =~= requested);
    }
}

proof fn lemma_demand_positive(
    recipes: Seq<Recipe>,
    requested: Seq<(ElementHandle, usize)>,
    name: Seq<char>,
)
    ensures
        0 <= demand(recipes, requested, name),
    decreases requested.len(),
{
    if requested.len() > 0 {
        lemma_demand_positive(recipes, requested.drop_last(), name);
        let q = requested.last().1 as int;
        let c = leaf_count(recipes, requested.last().0@, name, recipes.len()) as int;
        assert(q * c >= 0) by (nonlinear_arith)
            requires
                q >= 0,
                c >= 0,
        ;
    }
}

/// The primary elements that the requested elements break down to together,
/// each requested element taken as often as its entry says, and how many of
/// each.
///
/// Fails where the book does not list a requested element; else where the
/// breakdown of one does not come to an end; else where there are more of
/// some primary element than can be counted.
pub fn crack_elements_until_primary(dao: &DAO, requested: &Vec<(ElementHandle, usize)>) -> (cracked:
    Result<Vec<(ElementHandle, usize)>, Errors>)
    ensures
        cracked is Ok <==> (forall|j: int|
            0 <= j < requested.len() ==> dao.element_names().contains((#[trigger] requested[j]).0@)
                && closes_within(dao.recipe_rows(), requested[j].0@, dao.recipe_rows().len()))
            && (forall|name: Seq<char>|
            #[trigger] demand(dao.recipe_rows(), requested@, name) <= usize::MAX),
        cracked matches Ok(counts) ==> {
            &&& well_counted(counts@)
            &&& forall|name: Seq<char>|
                #![trigger amount(counts@, name)]
                #![trigger demand(dao.recipe_rows(), requested@, name)]
                amount(counts@, name) == demand(dao.recipe_rows(), requested@, name)
            &&& forall|j: int|
                0 <= j < requested.len() ==> dao.element_names().contains(
                    (#[trigger] requested[j]).0@,
                ) && closes_within(dao.recipe_rows(), requested[j].0@, dao.recipe_rows().len())
        },
        cracked matches Err(e) ==> match e {
            Errors::ElementNotFound(name) => exists|at: int|
                first_missing(dao.element_names(), requested@, at) && (#[trigger] requested[at]).0@
                    == name@,
            Errors::RecipeCycle(name) => (forall|j: int|
                0 <= j < requested.len() ==> dao.element_names().contains(
                    (#[trigger] requested[j]).0@,
                )) && exists|at: int|
                first_endless(dao.recipe_rows(), requested@, at) && (#[trigger] requested[at]).0@
                    == name@,
            Errors::CountOverflow(name) => (forall|j: int|
                0 <= j < requested.len() ==> dao.element_names().contains(
                    (#[trigger] requested[j]).0@,
                ) && closes_within(dao.recipe_rows(), requested[j].0@, dao.recipe_rows().len()))
                && demand(dao.recipe_rows(), requested@, name@) > usize::MAX,
            Errors::ExpectOneResult { .. } => false,
        },
{
    let ghost rows = dao.recipe_rows();
    let ghost cap = rows.len();
    let mut i: usize = 0;
    while i < requested.len()
        invariant
            i <= requested.len(),
            forall|j: int|
                0 <= j < i ==> dao.element_names().contains((#[trigger] requested[j]).0@),
        decreases requested.len() - i,
    {
        if !dao.does_element_exists(&requested[i].0) {
            assert(first_missing(dao.element_names(), requested@, i as int));
            return Err(Errors::ElementNotFound(requested[i].0.get_name()));
        }
        i += 1;
    }
    let mut parts: Vec<Vec<(ElementHandle, usize)>> = Vec::new();
    let mut i: usize = 0;
    while i < requested.len()
        invariant
            i <= requested.len(),
            rows == dao.recipe_rows(),
            cap == rows.len(),
            parts.len() == i,
            forall|j: int|
                0 <= j < requested.len() ==> dao.element_names().contains(
                    (#[trigger] requested[j]).0@,
                ),
            forall|j: int| 0 <= j < i ==> closes_within(rows, (#[trigger] requested[j]).0@, cap),
            forall|j: int| 0 <= j < i ==> well_counted((#[trigger] parts[j])@),
            forall|j: int, name: Seq<char>|
                0 <= j < i ==> amount(parts[j]@, name) == #[trigger] leaf_count(
                    rows,
                    requested[j].0@,
                    name,
                    cap,
                ),
        decreases requested.len() - i,
    {
        match crack_element_until_primary(dao, &requested[i].0) {
            Ok(part) => {
                parts.push(part);
            },
            Err(e) => {
                assert(first_endless(rows, requested@, i as int));
                return Err(Errors::RecipeCycle(requested[i].0.get_name()));
            },
        }
        i += 1;
    }
    let mut total: Vec<(ElementHandle, usize)> = Vec::new();
    let mut i: usize = 0;
    proof {
        assert(counted(total@) =~= Seq::empty());
        assert(requested@.take(0) =~= Seq::empty());
    }
    while i < requested.len()
        invariant
            i <= requested.len(),
            rows == dao.recipe_rows(),
            cap == rows.len(),
            parts.len() == requested.len(),
            forall|j: int|
                0 <= j < requested.len() ==> dao.element_names().contains(
                    (#[trigger] requested[j]).0@,
                ) && closes_within(rows, requested[j].0@, cap),
            forall|j: int| 0 <= j < parts.len() ==> well_counted((#[trigger] parts[j])@),
            forall|j: int, name: Seq<char>|
                0 <= j < parts.len() ==> amount(parts[j]@, name) == #[trigger] leaf_count(
                    rows,
                    requested[j].0@,
                    name,
                    cap,
                ),
            well_counted(total@),
            forall|name: Seq<char>| #[trigger]
                amount(total@, name) == demand(rows, requested@.take(i as int), name),
        decreases requested.len() - i,
    {
        let times = requested[i].1;
        let part = &parts[i];
        let ghost element = requested[i as int].0@;
        let ghost so_far = requested@.take(i as int);
        let ghost with_this = requested@.take(i + 1);
        proof {
            assert(with_this.drop_last() =~= so_far);
            assert(with_this.last() == requested[i as int]);
            assert(well_counted(part@));
        }
        if times > 0 {
            let mut j: usize = 0;
            proof {
                assert(counted(part@).take(0) =~= Seq::empty());
            }
            while j < part.len()
                invariant
                    j <= part.len(),
                    i < requested.len(),
                    rows == dao.recipe_rows(),
                    cap == rows.len(),
                    times == requested[i as int].1,
                    times > 0,
                    element == requested[i as int].0@,
                    so_far == requested@.take(i as int),
                    well_counted(part@),
                    forall|name: Seq<char>|
                        amount(part@, name) == #[trigger] leaf_count(rows, element, name, cap),
                    forall|j: int|
                        0 <= j < requested.len() ==> dao.element_names().contains(
                            (#[trigger] requested[j]).0@,
                        ) && closes_within(rows, requested[j].0@, cap),
                    well_counted(total@),
                    forall|name: Seq<char>| #[trigger]
                        amount(total@, name) == demand(rows, so_far, name) + (if counted(
                            part@,
                        ).take(j as int).contains(name) {
                            times * amount(part@, name)
                        } else {
                            0
                        }),
                decreases part.len() - j,
            {
                let leaf = &part[j].0;
                let each = part[j].1;
                let ghost name = leaf@;
                let ghost before = total@;
                proof {
                    lemma_take_step(counted(part@), j as int);
                    assert(counted(part@)[j as int] == name);
                    lemma_amount_at(part@, j as int);
                    assert(!counted(part@).take(j as int).contains(name)) by {
                        if counted(part@).take(j as int).contains(name) {
                            let k = choose|k: int|
                                0 <= k < j && counted(part@).take(j as int)[k] == name;
                            assert(counted(part@)[k] == counted(part@)[j as int]);
                        }
                    }
                    assert(amount(before, name) == demand(rows, so_far, name));
                    assert(each == leaf_count(rows, element, name, cap));
                    lemma_demand_grows(rows, requested@, i + 1, name);
                    lemma_demand_positive(rows, so_far, name);
                    assert(demand(rows, requested@.take(i + 1), name) == demand(rows, so_far, name)
                        + times * leaf_count(rows, element, name, cap)) by {
                        assert(requested@.take(i + 1).drop_last() =~= so_far);
                    }
                    assert(each * times == times * each) by (nonlinear_arith);
                }
                let fits = match each.checked_mul(times) {
                    None => false,
                    Some(more) => {
                        assert(more > 0) by (nonlinear_arith)
                            requires
                                more == each * times,
                                each > 0,
                                times > 0,
                        ;
                        add_count(&mut total, leaf, more)
                    },
                };
                if !fits {
                    assert(demand(rows, requested@, name) > usize::MAX);
                    return Err(Errors::CountOverflow(leaf.get_name()));
                }
                proof {
                    assert forall|other: Seq<char>| #[trigger]
                        amount(total@, other) == demand(rows, so_far, other) + (if counted(
                            part@,
                        ).take(j + 1).contains(other) {
                            times * amount(part@, other)
                        } else {
                            0
                        }) by {
                        assert(amount(before, other) == demand(rows, so_far, other) + (if counted(
                            part@,
                        ).take(j as int).contains(other) {
                            times * amount(part@, other)
                        } else {
                            0
                        }));
                    }
                }
                j += 1;
            }
            proof {
                assert(counted(part@).take(j as int) =~= counted(part@));
                assert forall|name: Seq<char>| #[trigger]
                    amount(total@, name) == demand(rows, with_this, name) by {
                    assert(amount(part@, name) == leaf_count(rows, element, name, cap));
                    if !counted(part@).contains(name) {
                        assert(amount(part@, name) == 0);
                        assert(times * 0 == 0) by (nonlinear_arith);
                    }
                }
            }
        } else {
            proof {
                assert forall|name: Seq<char>| #[trigger]
                    amount(total@, name) == demand(rows, with_this, name) by {
                    let c = leaf_count(rows, element, name, cap) as int;
                    assert(0 * c == 0) by (nonlinear_arith);
                }
            }
        }
        i += 1;
    }
    proof {
        assert(requested@.take(i as int) =~= requested@);
        assert forall|name: Seq<char>| #[trigger] demand(rows, requested@, name) <= usize::MAX by {
            assert(amount(total@, name) == demand(rows, requested@, name));
        }
    }
    Ok(total)
}

} // verus!
