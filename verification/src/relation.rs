//! The recipe relation as mathematics: rows of names, and what they say
//! about which elements are made of which.

use vstd::prelude::*;

verus! {

/// One recipe: `name` is made of `component_a` and `component_b`.
pub struct Recipe {
    pub name: Seq<char>,
    pub component_a: Seq<char>,
    pub component_b: Seq<char>,
}

/// The names the recipes are for, row by row.
pub open spec fn recipe_names(recipes: Seq<Recipe>) -> Seq<Seq<char>> {
    Seq::new(recipes.len(), |i: int| recipes[i].name)
}

/// No element has more than one recipe.
pub open spec fn unique_names(recipes: Seq<Recipe>) -> bool {
    recipe_names(recipes).no_duplicates()
}

/// Some row is the recipe of `element`.
pub open spec fn has_recipe(recipes: Seq<Recipe>, element: Seq<char>) -> bool {
    exists|i: int| 0 <= i < recipes.len() && (#[trigger] recipes[i]).name == element
}

/// A row that is the recipe of `element`; the only one where names are unique.
pub open spec fn recipe_of(recipes: Seq<Recipe>, element: Seq<char>) -> Recipe {
    recipes[choose|i: int| 0 <= i < recipes.len() && (#[trigger] recipes[i]).name == element]
}

/// `part` is one of the two components in a recipe of `product`.
pub open spec fn is_component(recipes: Seq<Recipe>, part: Seq<char>, product: Seq<char>) -> bool {
    exists|i: int|
        0 <= i < recipes.len() && (#[trigger] recipes[i]).name == product && (recipes[i].component_a
            == part || recipes[i].component_b == part)
}

/// What `element` is made of: empty for a primary element.
pub open spec fn components(recipes: Seq<Recipe>, element: Seq<char>) -> Set<Seq<char>> {
    Set::new(|part: Seq<char>| is_component(recipes, part, element))
}

/// Every element whose recipe names `element` as a component.
pub open spec fn products_using(recipes: Seq<Recipe>, element: Seq<char>) -> Set<Seq<char>> {
    Set::new(|product: Seq<char>| is_component(recipes, element, product))
}

/// The elements one step away from `element`: its components and whatever is
/// made of it.
pub open spec fn relatives(recipes: Seq<Recipe>, element: Seq<char>) -> Set<Seq<char>> {
    components(recipes, element).union(products_using(recipes, element))
}

/// `b` is one step away from `a`.
pub open spec fn connected(recipes: Seq<Recipe>, a: Seq<char>, b: Seq<char>) -> bool {
    relatives(recipes, a).contains(b)
}

/// Each element of `chain` is one step away from the next.
pub open spec fn is_chain(recipes: Seq<Recipe>, chain: Seq<Seq<char>>) -> bool {
    forall|i: int| 0 <= i < chain.len() - 1 ==> connected(recipes, #[trigger] chain[i], chain[i + 1])
}

/// Being one step away does not depend on the side one starts from.
pub proof fn lemma_connected_symmetric(recipes: Seq<Recipe>, a: Seq<char>, b: Seq<char>)
    ensures
        connected(recipes, a, b) <==> connected(recipes, b, a),
{
}

/// Where names are unique, any row named `element` is its recipe.
pub proof fn lemma_recipe_of_row(recipes: Seq<Recipe>, i: int)
    requires
        unique_names(recipes),
        0 <= i < recipes.len(),
    ensures
        has_recipe(recipes, recipes[i].name),
        recipe_of(recipes, recipes[i].name) == recipes[i],
{
    let element = recipes[i].name;
    let j = choose|j: int| 0 <= j < recipes.len() && (#[trigger] recipes[j]).name == element;
    assert(recipe_names(recipes)[i] == recipe_names(recipes)[j]);
}

/// What the recipe of an element names, and nothing else, is what it is made of.
pub proof fn lemma_components_are_the_pair(recipes: Seq<Recipe>, element: Seq<char>)
    requires
        unique_names(recipes),
    ensures
        !has_recipe(recipes, element) ==> components(recipes, element) == Set::<Seq<char>>::empty(),
        has_recipe(recipes, element) ==> components(recipes, element) == set![
            recipe_of(recipes, element).component_a,
            recipe_of(recipes, element).component_b,
        ],
{
    if has_recipe(recipes, element) {
        let i = choose|i: int| 0 <= i < recipes.len() && (#[trigger] recipes[i]).name == element;
        lemma_recipe_of_row(recipes, i);
        let pair = set![recipes[i].component_a, recipes[i].component_b];
        assert forall|part: Seq<char>| components(recipes, element).contains(part) <==> pair.contains(
            part,
        ) by {
            if is_component(recipes, part, element) {
                let j = choose|j: int|
                    0 <= j < recipes.len() && (#[trigger] recipes[j]).name == element && (
                    recipes[j].component_a == part || recipes[j].component_b == part);
                lemma_recipe_of_row(recipes, j);
            }
            if part == recipes[i].component_a || part == recipes[i].component_b {
                assert(recipes[i].name == element);
            }
        }
        assert(components(recipes, element) =~= pair);
    } else {
        assert(components(recipes, element) =~= Set::<Seq<char>>::empty());
    }
}

/// One more item of a run is either among those before it or is that item.
pub proof fn lemma_take_step<A>(items: Seq<A>, i: int)
    requires
        0 <= i < items.len(),
    ensures
        forall|x: A| #[trigger] items.take(i + 1).contains(x) <==> items.take(i).contains(x) || items[i] == x,
{
    let shorter = items.take(i);
    let longer = items.take(i + 1);
    assert forall|x: A| #[trigger] longer.contains(x) <==> shorter.contains(x) || items[i] == x by {
        if longer.contains(x) {
            let k = choose|k: int| 0 <= k < longer.len() && longer[k] == x;
            if k < i {
                assert(shorter[k] == x);
            }
        }
        if shorter.contains(x) {
            let k = choose|k: int| 0 <= k < shorter.len() && shorter[k] == x;
            assert(longer[k] == x);
        }
        if items[i] == x {
            assert(longer[i] == x);
        }
    }
}

} // verus!
