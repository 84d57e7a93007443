//! The recipe book held in memory: the element table and the recipe table,
//! checked once when they are taken in, and the questions the search asks of
//! them.

use vstd::prelude::*;
use crate::recipes::{ElementHandle, names_view, lemma_push_fresh};
use crate::relation::{Recipe, components, has_recipe, is_component, recipe_names, recipe_of, unique_names, lemma_components_are_the_pair, lemma_recipe_of_row};

verus! {

/// What can be wrong with the tables, or with a question put to them.
#[derive(Debug)]
pub enum Errors {
    /// A table holds several rows where one was expected.
    ExpectOneResult { table_name: String },
    /// The element table has no such element.
    ElementNotFound(String),
    /// The recipes of this element lead back into themselves.
    RecipeCycle(String),
    /// There are more of this element than can be counted.
    CountOverflow(String),
}

/// What is wrong, in words.
pub open spec fn message_of(error: Errors) -> Seq<char> {
    match error {
        Errors::ExpectOneResult { table_name } => "Problematic table: "@ + table_name@,
        Errors::ElementNotFound(name) => "Element: "@ + name@,
        Errors::RecipeCycle(name) => "Recipes lead back to: "@ + name@,
        Errors::CountOverflow(name) => "Too many of: "@ + name@,
    }
}

impl Errors {
    /// What is wrong, in words.
    pub fn message(&self) -> (text: String)
        ensures
            text@ == message_of(*self),
    {
        match self {
            Errors::ExpectOneResult { table_name } => String::from_str("Problematic table: ").concat(
                table_name.as_str(),
            ),
            Errors::ElementNotFound(name) => String::from_str("Element: ").concat(name.as_str()),
            Errors::RecipeCycle(name) => String::from_str("Recipes lead back to: ").concat(
                name.as_str(),
            ),
            Errors::CountOverflow(name) => String::from_str("Too many of: ").concat(name.as_str()),
        }
    }
}

/// What an element is made of.
#[derive(Debug)]
pub enum Components {
    /// Nothing: the element has no recipe.
    Primitive,
    /// The two components of its recipe, in the recipe's order.
    Decomposed { a: ElementHandle, b: ElementHandle },
}

/// A recipe row as names.
pub open spec fn row_view(row: (ElementHandle, ElementHandle, ElementHandle)) -> Recipe {
    Recipe { name: row.0@, component_a: row.1@, component_b: row.2@ }
}

/// A recipe table as names.
pub open spec fn rows_view(rows: Seq<(ElementHandle, ElementHandle, ElementHandle)>) -> Seq<Recipe> {
    Seq::new(rows.len(), |i: int| row_view(rows[i]))
}

/// Whether some name occurs twice among `names`.
fn has_duplicates(names: &Vec<ElementHandle>) -> (twice: bool)
    ensures
        twice == !names_view(names@).no_duplicates(),
{
    let mut i: usize = 0;
    while i < names.len()
        invariant
            i <= names.len(),
            forall|a: int, b: int| 0 <= a < i && a < b < names.len() ==> names[a]@ != names[b]@,
        decreases names.len() - i,
    {
        let mut j: usize = i + 1;
        while j < names.len()
            invariant
                i < j <= names.len(),
                forall|b: int| i < b < j ==> names[i as int]@ != names[b]@,
            decreases names.len() - j,
        {
            if names[i] == names[j] {
                assert(names_view(names@)[i as int] == names_view(names@)[j as int]);
                return true;
            }
            j += 1;
        }
        i += 1;
    }
    assert forall|a: int, b: int|
        0 <= a < names.len() && 0 <= b < names.len() && a != b implies names_view(names@)[a]
        != names_view(names@)[b] by {
        if a < b {
            assert(names[a]@ != names[b]@);
        } else {
            assert(names[b]@ != names[a]@);
        }
    }
    false
}

/// The recipe book.
///
/// Holds the names of the elements and the recipe rows. No element is listed
/// twice and none has two recipes: `new` refuses tables where that fails.
#[derive(Debug)]
pub struct DAO {
    elements: Vec<ElementHandle>,
    recipes: Vec<(ElementHandle, ElementHandle, ElementHandle)>,
}

impl DAO {
    /// The names in the element table, in its order.
    pub closed spec fn element_names(&self) -> Seq<Seq<char>> {
        names_view(self.elements@)
    }

    /// The recipe table, in its order.
    pub closed spec fn recipe_rows(&self) -> Seq<Recipe> {
        rows_view(self.recipes@)
    }

    #[verifier::type_invariant]
    spec fn well_formed(&self) -> bool {
        &&& self.element_names().no_duplicates()
        &&& unique_names(self.recipe_rows())
    }

    /// Takes the two tables in.
    ///
    /// Fails where the element table names an element twice, and otherwise
    /// where the recipe table holds two recipes for one element.
    pub fn new(
        elements: Vec<ElementHandle>,
        recipes: Vec<(ElementHandle, ElementHandle, ElementHandle)>,
    ) -> (book: Result<DAO, Errors>)
        ensures
            book is Ok <==> names_view(elements@).no_duplicates() && unique_names(
                rows_view(recipes@),
            ),
            book matches Ok(dao) ==> dao.element_names() == names_view(elements@)
                && dao.recipe_rows() == rows_view(recipes@),
            book matches Err(e) ==> e matches Errors::ExpectOneResult { table_name }
                && table_name@ == (if names_view(elements@).no_duplicates() {
                "recipes"@
            } else {
                "elements"@
            }),
    {
        if has_duplicates(&elements) {
            return Err(Errors::ExpectOneResult { table_name: String::from_str("elements") });
        }
        let mut names: Vec<ElementHandle> = Vec::new();
        let mut i: usize = 0;
        while i < recipes.len()
            invariant
                i <= recipes.len(),
                names.len() == i,
                forall|k: int| 0 <= k < i ==> names[k]@ == recipes[k].0@,
            decreases recipes.len() - i,
        {
            names.push(recipes[i].0.clone());
            i += 1;
        }
        assert(names_view(names@) =~= recipe_names(rows_view(recipes@)));
        if has_duplicates(&names) {
            return Err(Errors::ExpectOneResult { table_name: String::from_str("recipes") });
        }
        Ok(DAO { elements, recipes })
    }

    /// The names of the recipe book are unique, as `new` saw to.
    pub fn list_recipes(&self) -> (rows: Vec<(ElementHandle, ElementHandle, ElementHandle)>)
        ensures
            rows_view(rows@) == self.recipe_rows(),
            unique_names(self.recipe_rows()),
    {
        proof {
            use_type_invariant(self);
        }
        let mut rows: Vec<(ElementHandle, ElementHandle, ElementHandle)> = Vec::new();
        let mut i: usize = 0;
        while i < self.recipes.len()
            invariant
                i <= self.recipes.len(),
                rows.len() == i,
                forall|k: int| 0 <= k < i ==> row_view(rows[k]) == row_view(self.recipes[k]),
            decreases self.recipes.len() - i,
        {
            let row = &self.recipes[i];
            rows.push((row.0.clone(), row.1.clone(), row.2.clone()));
            i += 1;
        }
        assert(rows_view(rows@) =~= self.recipe_rows());
        rows
    }

    /// The elements of the book, in the table's order.
    pub fn list_elements(&self) -> (names: Vec<ElementHandle>)
        ensures
            names_view(names@) == self.element_names(),
            self.element_names().no_duplicates(),
    {
        proof {
            use_type_invariant(self);
        }
        let mut names: Vec<ElementHandle> = Vec::new();
        let mut i: usize = 0;
        while i < self.elements.len()
            invariant
                i <= self.elements.len(),
                names.len() == i,
                forall|k: int| 0 <= k < i ==> names[k]@ == self.elements[k]@,
            decreases self.elements.len() - i,
        {
            names.push(self.elements[i].clone());
            i += 1;
        }
        assert(names_view(names@) =~= self.element_names());
        names
    }

    /// How many recipes the book holds.
    pub fn count_recipes(&self) -> (rows: usize)
        ensures
            rows == self.recipe_rows().len(),
    {
        self.recipes.len()
    }

    /// Whether the element table lists `ele`.
    pub fn does_element_exists(&self, ele: &ElementHandle) -> (listed: bool)
        ensures
            listed == self.element_names().contains(ele@),
    {
        let mut i: usize = 0;
        while i < self.elements.len()
            invariant
                i <= self.elements.len(),
                forall|k: int| 0 <= k < i ==> self.elements[k]@ != ele@,
            decreases self.elements.len() - i,
        {
            if self.elements[i] == *ele {
                assert(self.element_names()[i as int] == ele@);
                return true;
            }
            i += 1;
        }
        false
    }

    /// The row that holds the recipe of `handle`, if it has one.
    fn find_recipe(&self, handle: &ElementHandle) -> (at: Option<usize>)
        ensures
            unique_names(self.recipe_rows()),
            self.recipe_rows().len() == self.recipes.len(),
            at is None <==> !has_recipe(self.recipe_rows(), handle@),
            at matches Some(i) ==> i < self.recipes.len() && recipe_of(
                self.recipe_rows(),
                handle@,
            ) == row_view(self.recipes[i as int]) && self.recipes[i as int].0@ == handle@,
    {
        proof {
            use_type_invariant(self);
        }
        let mut i: usize = 0;
        while i < self.recipes.len()
            invariant
                i <= self.recipes.len(),
                unique_names(self.recipe_rows()),
                forall|k: int| 0 <= k < i ==> self.recipes[k].0@ != handle@,
            decreases self.recipes.len() - i,
        {
            if self.recipes[i].0 == *handle {
                proof {
                    assert(self.recipe_rows()[i as int].name == handle@);
                    lemma_recipe_of_row(self.recipe_rows(), i as int);
                }
                return Some(i);
            }
            i += 1;
        }
        assert forall|k: int| 0 <= k < self.recipe_rows().len() implies (
        #[trigger] self.recipe_rows()[k]).name != handle@ by {
            assert(self.recipes[k].0@ != handle@);
        }
        None
    }

    /// Whether `handle` has no recipe.
    pub fn is_primary_element(&self, handle: &ElementHandle) -> (primary: bool)
        ensures
            unique_names(self.recipe_rows()),
            primary == !has_recipe(self.recipe_rows(), handle@),
    {
        self.find_recipe(handle).is_none()
    }

    /// What `handle` is made of. Having no recipe is an answer, not a failure.
    pub fn get_element_components(&self, handle: &ElementHandle) -> (made_of: Components)
        ensures
            unique_names(self.recipe_rows()),
            made_of is Primitive <==> !has_recipe(self.recipe_rows(), handle@),
            made_of is Primitive ==> components(self.recipe_rows(), handle@) == Set::<
                Seq<char>,
            >::empty(),
            made_of matches Components::Decomposed { a, b } ==> a@ == recipe_of(
                self.recipe_rows(),
                handle@,
            ).component_a && b@ == recipe_of(self.recipe_rows(), handle@).component_b
                && components(self.recipe_rows(), handle@) == set![a@, b@],
    {
        proof {
            use_type_invariant(self);
            lemma_components_are_the_pair(self.recipe_rows(), handle@);
        }
        match self.find_recipe(handle) {
            None => Components::Primitive,
            Some(i) => {
                let row = &self.recipes[i];
                Components::Decomposed { a: row.1.clone(), b: row.2.clone() }
            },
        }
    }

    /// The elements of the table that have no recipe, each once.
    pub fn get_primary_elements(&self) -> (primary: Vec<ElementHandle>)
        ensures
            names_view(primary@).no_duplicates(),
            forall|name: Seq<char>|
                #![trigger names_view(primary@).contains(name)]
                #![trigger self.element_names().contains(name)]
                names_view(primary@).contains(name) <==> self.element_names().contains(name)
                    && !has_recipe(self.recipe_rows(), name),
    {
        proof {
            use_type_invariant(self);
        }
        let mut primary: Vec<ElementHandle> = Vec::new();
        let mut i: usize = 0;
        while i < self.elements.len()
            invariant
                i <= self.elements.len(),
                self.element_names().no_duplicates(),
                forall|k: int|
                    0 <= k < primary.len() ==> exists|e: int|
                        0 <= e < i && self.elements[e]@ == #[trigger] primary[k]@ && !has_recipe(
                            self.recipe_rows(),
                            primary[k]@,
                        ),
                forall|e: int|
                    0 <= e < i && !has_recipe(self.recipe_rows(), #[trigger] self.elements[e]@)
                        ==> names_view(primary@).contains(self.elements[e]@),
                names_view(primary@).no_duplicates(),
            decreases self.elements.len() - i,
        {
            if self.is_primary_element(&self.elements[i]) {
                let ghost before = primary@;
                primary.push(self.elements[i].clone());
                proof {
                    let name = self.elements[i as int]@;
                    assert forall|k: int| 0 <= k < before.len() implies before[k]@ != name by {
                        let e = choose|e: int|
                            0 <= e < i && self.elements[e]@ == before[k]@ && !has_recipe(
                                self.recipe_rows(),
                                before[k]@,
                            );
                        assert(self.element_names()[e] != self.element_names()[i as int]);
                    }
                    lemma_push_fresh(before, primary[before.len() as int]);
                    assert(primary@ =~= before.push(primary[before.len() as int]));
                    assert forall|e: int|
                        0 <= e < i + 1 && !has_recipe(
                            self.recipe_rows(),
                            #[trigger] self.elements[e]@,
                        ) implies names_view(primary@).contains(self.elements[e]@) by {
                        if e < i {
                            let k = choose|k: int|
                                0 <= k < before.len() && names_view(before)[k]
                                    == self.elements[e]@;
                            assert(names_view(primary@)[k] == self.elements[e]@);
                        } else {
                            assert(names_view(primary@)[before.len() as int] == name);
                        }
                    }
                }
            }
            i += 1;
        }
        proof {
            assert forall|name: Seq<char>|
                #[trigger] names_view(primary@).contains(name) <==> self.element_names().contains(name)
                    && !has_recipe(self.recipe_rows(), name) by {
                if names_view(primary@).contains(name) {
                    let k = choose|k: int|
                        0 <= k < primary.len() && names_view(primary@)[k] == name;
                    let e = choose|e: int|
                        0 <= e < i && self.elements[e]@ == primary[k]@ && !has_recipe(
                            self.recipe_rows(),
                            primary[k]@,
                        );
                    assert(self.element_names()[e] == name);
                }
                if self.element_names().contains(name) && !has_recipe(self.recipe_rows(), name) {
                    let e = choose|e: int|
                        0 <= e < self.elements.len() && self.element_names()[e] == name;
                    assert(self.elements[e]@ == name);
                }
            }
        }
        primary
    }

    /// Every element whose recipe names `component`, each once.
    pub fn get_what_component_can_build(&self, component: &ElementHandle) -> (products: Vec<
        ElementHandle,
    >)
        ensures
            unique_names(self.recipe_rows()),
            names_view(products@).no_duplicates(),
            forall|name: Seq<char>|
                #![trigger names_view(products@).contains(name)]
                #![trigger is_component(self.recipe_rows(), component@, name)]
                names_view(products@).contains(name) <==> is_component(
                    self.recipe_rows(),
                    component@,
                    name,
                ),
            products.len() <= self.recipe_rows().len(),
    {
        proof {
            use_type_invariant(self);
        }
        let ghost rows = self.recipe_rows();
        let mut products: Vec<ElementHandle> = Vec::new();
        let mut i: usize = 0;
        while i < self.recipes.len()
            invariant
                i <= self.recipes.len(),
                rows == self.recipe_rows(),
                rows.len() == self.recipes.len(),
                unique_names(rows),
                products.len() <= i,
                names_view(products@).no_duplicates(),
                forall|k: int|
                    0 <= k < products.len() ==> made_below(rows, i as int, component@, #[trigger] products[k]@),
                forall|r: int|
                    0 <= r < i && ((#[trigger] rows[r]).component_a == component@
                        || rows[r].component_b == component@) ==> names_view(products@).contains(
                        rows[r].name,
                    ),
            decreases self.recipes.len() - i,
        {
            let row = &self.recipes[i];
            let ghost before = products@;
            if row.1 == *component || row.2 == *component {
                products.push(row.0.clone());
                proof {
                    let name = rows[i as int].name;
                    assert(name == row.0@);
                    assert forall|k: int| 0 <= k < before.len() implies before[k]@ != name by {
                        assert(made_below(rows, i as int, component@, before[k]@));
                        let r = choose|r: int|
                            0 <= r < i && (#[trigger] rows[r]).name == before[k]@ && (
                            rows[r].component_a == component@ || rows[r].component_b
                                == component@);
                        assert(recipe_names(rows)[r] != recipe_names(rows)[i as int]);
                    }
                    lemma_push_fresh(before, products[before.len() as int]);
                    assert(products@ =~= before.push(products[before.len() as int]));
                    assert(rows[i as int].component_a == row.1@);
                    assert(rows[i as int].component_b == row.2@);
                    assert(made_below(rows, i + 1, component@, name));
                    assert forall|r: int|
                        0 <= r < i + 1 && ((#[trigger] rows[r]).component_a == component@
                            || rows[r].component_b == component@) implies names_view(
                        products@,
                    ).contains(rows[r].name) by {
                        if r < i {
                            let k = choose|k: int|
                                0 <= k < before.len() && names_view(before)[k] == rows[r].name;
                            assert(names_view(products@)[k] == rows[r].name);
                        } else {
                            assert(names_view(products@)[before.len() as int] == name);
                        }
                    }
                }
            } else {
                proof {
                    assert(rows[i as int].component_a == row.1@);
                    assert(rows[i as int].component_b == row.2@);
                }
            }
            proof {
                assert forall|k: int| 0 <= k < before.len() implies made_below(
                    rows,
                    i + 1,
                    component@,
                    #[trigger] before[k]@,
                ) by {
                    assert(made_below(rows, i as int, component@, before[k]@));
                    let r = choose|r: int|
                        0 <= r < i && (#[trigger] rows[r]).name == before[k]@ && (
                        rows[r].component_a == component@ || rows[r].component_b == component@);
                    assert(0 <= r < i + 1);
                }
            }
            i += 1;
        }
        proof {
            assert forall|name: Seq<char>|
                #[trigger] names_view(products@).contains(name) <==> is_component(
                    rows,
                    component@,
                    name,
                ) by {
                if names_view(products@).contains(name) {
                    let k = choose|k: int|
                        0 <= k < products.len() && names_view(products@)[k] == name;
                    assert(made_below(rows, i as int, component@, products[k]@));
                }
                if is_component(rows, component@, name) {
                    let r = choose|r: int|
                        0 <= r < rows.len() && (#[trigger] rows[r]).name == name && (
                        rows[r].component_a == component@ || rows[r].component_b == component@);
                    assert(names_view(products@).contains(rows[r].name));
                }
            }
        }
        products
    }
}

/// A row before `upto` is a recipe of `product` that names `part`.
spec fn made_below(rows: Seq<Recipe>, upto: int, part: Seq<char>, product: Seq<char>) -> bool {
    exists|r: int|
        0 <= r < upto && r < rows.len() && (#[trigger] rows[r]).name == product && (
        rows[r].component_a == part || rows[r].component_b == part)
}

} // verus!
