use t4ach::dao::{Components, Errors, DAO};
use t4ach::recipes::ElementHandle;
use t4ach::crack::{crack_element_until_primary, crack_elements_until_primary};
use t4ach::tree::constructing_tree;

fn eh(name: &str) -> ElementHandle {
    ElementHandle::from(name)
}

fn book(rows: &[(&str, &str, &str)]) -> DAO {
    let mut elements: Vec<ElementHandle> = Vec::new();
    for row in rows {
        for name in [row.0, row.1, row.2] {
            if !elements.contains(&eh(name)) {
                elements.push(eh(name));
            }
        }
    }
    let recipes = rows.iter().map(|row| (eh(row.0), eh(row.1), eh(row.2))).collect();
    DAO::new(elements, recipes).expect("the book is in order")
}

fn humanus() -> DAO {
    book(&[
        ("Motus", "Aer", "Ordo"),
        ("Victus", "Aqua", "Terra"),
        ("Mortuus", "Victus", "Perditio"),
        ("Spiritus", "Victus", "Mortuus"),
        ("Bestia", "Motus", "Victus"),
        ("Cognitio", "Ignis", "Spiritus"),
        ("Humanus", "Bestia", "Cognitio"),
    ])
}

fn sorted(counts: Vec<(ElementHandle, usize)>) -> Vec<(String, usize)> {
    let mut counts: Vec<(String, usize)> = counts.into_iter().map(|(h, n)| (h.get_name(), n)).collect();
    counts.sort();
    counts
}

fn pairs(counts: &[(&str, usize)]) -> Vec<(String, usize)> {
    counts.iter().map(|(name, n)| (name.to_string(), *n)).collect()
}

#[test]
fn handles_go_by_their_names() {
    let a = eh("Aer");
    assert_eq!(a.get_name(), "Aer");
    assert!(a == ElementHandle::from(String::from("Aer")));
    assert!(a != eh("Aqua"));
    assert!(a.clone() == a);
    assert!(eh("Aer") < eh("Aqua"));
}

#[test]
fn a_book_with_an_element_twice_is_refused() {
    let twice = DAO::new(vec![eh("Aer"), eh("Aqua"), eh("Aer")], vec![]).unwrap_err();
    match twice {
        Errors::ExpectOneResult { table_name } => assert_eq!(table_name, "elements"),
        other => panic!("{other:?}"),
    }
}

#[test]
fn a_book_with_two_recipes_for_one_element_is_refused() {
    let recipes = vec![(eh("Lux"), eh("Aer"), eh("Ignis")), (eh("Lux"), eh("Aqua"), eh("Ignis"))];
    match DAO::new(vec![eh("Lux")], recipes).unwrap_err() {
        Errors::ExpectOneResult { table_name } => assert_eq!(table_name, "recipes"),
        other => panic!("{other:?}"),
    }
    let recipes = vec![(eh("Lux"), eh("Aer"), eh("Ignis")), (eh("Lux"), eh("Aqua"), eh("Ignis"))];
    match DAO::new(vec![eh("Lux"), eh("Lux")], recipes).unwrap_err() {
        Errors::ExpectOneResult { table_name } => assert_eq!(table_name, "elements"),
        other => panic!("{other:?}"),
    }
}

#[test]
fn the_book_answers_for_its_tables() {
    let dao = humanus();
    assert_eq!(dao.count_recipes(), 7);
    assert_eq!(dao.list_recipes().len(), 7);
    assert_eq!(dao.list_recipes()[2].0.get_name(), "Mortuus");
    assert_eq!(dao.list_recipes()[2].1.get_name(), "Victus");
    assert_eq!(dao.list_recipes()[2].2.get_name(), "Perditio");
    assert_eq!(dao.list_elements().len(), 13);
    assert!(dao.does_element_exists(&eh("Humanus")));
    assert!(dao.does_element_exists(&eh("Aer")));
    assert!(!dao.does_element_exists(&eh("Lux")));
    assert!(dao.is_primary_element(&eh("Aer")));
    assert!(dao.is_primary_element(&eh("Lux")));
    assert!(!dao.is_primary_element(&eh("Victus")));
    let mut primary: Vec<String> = dao.get_primary_elements().iter().map(|h| h.get_name()).collect();
    primary.sort();
    assert_eq!(primary, vec!["Aer", "Aqua", "Ignis", "Ordo", "Perditio", "Terra"]);
}

#[test]
fn components_of_an_element() {
    let dao = humanus();
    match dao.get_element_components(&eh("Cognitio")) {
        Components::Decomposed { a, b } => {
            assert_eq!(a.get_name(), "Ignis");
            assert_eq!(b.get_name(), "Spiritus");
        },
        Components::Primitive => panic!("Cognitio has a recipe"),
    }
    assert!(matches!(dao.get_element_components(&eh("Ignis")), Components::Primitive));
    assert!(matches!(dao.get_element_components(&eh("Nihil")), Components::Primitive));
}

#[test]
fn what_a_component_can_build() {
    let dao = humanus();
    let mut built: Vec<String> = dao.get_what_component_can_build(&eh("Victus")).iter().map(|h| h.get_name()).collect();
    built.sort();
    assert_eq!(built, vec!["Bestia", "Mortuus", "Spiritus"]);
    assert!(dao.get_what_component_can_build(&eh("Humanus")).is_empty());
    let twin = book(&[("Twin", "Seed", "Seed")]);
    assert_eq!(twin.get_what_component_can_build(&eh("Seed")).len(), 1);
}

#[test]
fn the_tree_of_a_primary_element_is_that_element() {
    let dao = humanus();
    let tree = constructing_tree(&dao, &eh("Aqua")).unwrap();
    assert_eq!(tree.nodes().count(), 1);
    assert_eq!(tree.root().value().get_name(), "Aqua");
    assert!(!tree.root().has_children());
}

#[test]
fn the_tree_grows_level_by_level() {
    let dao = humanus();
    let tree = constructing_tree(&dao, &eh("Spiritus")).unwrap();
    let values: Vec<String> = tree.values().map(|h| h.get_name()).collect();
    assert_eq!(values, vec!["Spiritus", "Victus", "Mortuus", "Aqua", "Terra", "Victus", "Perditio", "Aqua", "Terra"]);
    let root = tree.root();
    let children: Vec<String> = root.children().map(|n| n.value().get_name()).collect();
    assert_eq!(children, vec!["Victus", "Mortuus"]);
    let mortuus = root.last_child().unwrap();
    let below: Vec<String> = mortuus.children().map(|n| n.value().get_name()).collect();
    assert_eq!(below, vec!["Victus", "Perditio"]);
    for node in tree.nodes() {
        assert_eq!(node.has_children(), !dao.is_primary_element(node.value()));
        assert!(node.children().count() == 0 || node.children().count() == 2);
    }
}

#[test]
fn cracking_counts_the_primary_elements() {
    let dao = humanus();
    assert_eq!(
        sorted(crack_element_until_primary(&dao, &eh("Humanus")).unwrap()),
        pairs(&[("Aer", 1), ("Aqua", 3), ("Ignis", 1), ("Ordo", 1), ("Perditio", 1), ("Terra", 3)])
    );
    assert_eq!(sorted(crack_element_until_primary(&dao, &eh("Victus")).unwrap()), pairs(&[("Aqua", 1), ("Terra", 1)]));
    assert_eq!(sorted(crack_element_until_primary(&dao, &eh("Aer")).unwrap()), pairs(&[("Aer", 1)]));
    assert_eq!(sorted(crack_element_until_primary(&dao, &eh("Nihil")).unwrap()), pairs(&[("Nihil", 1)]));
}

#[test]
fn cracking_a_request() {
    let dao = humanus();
    assert_eq!(sorted(crack_elements_until_primary(&dao, &vec![(eh("Aer"), 1)]).unwrap()), pairs(&[("Aer", 1)]));
    let request = vec![(eh("Victus"), 2), (eh("Aer"), 48), (eh("Mortuus"), 11), (eh("Victus"), 1), (eh("Ordo"), 0)];
    assert_eq!(
        sorted(crack_elements_until_primary(&dao, &request).unwrap()),
        pairs(&[("Aer", 48), ("Aqua", 14), ("Perditio", 11), ("Terra", 14)])
    );
    assert!(crack_elements_until_primary(&dao, &vec![]).unwrap().is_empty());
}

#[test]
fn cracking_what_the_book_does_not_list() {
    let dao = humanus();
    let request = vec![(eh("Victus"), 2), (eh("Lux"), 1), (eh("Nihil"), 1)];
    match crack_elements_until_primary(&dao, &request).unwrap_err() {
        Errors::ElementNotFound(name) => assert_eq!(name, "Lux"),
        other => panic!("{other:?}"),
    }
}

#[test]
fn recipes_that_lead_back_are_given_up() {
    let dao = book(&[("Ovum", "Gallus", "Nidus"), ("Gallus", "Ovum", "Granum")]);
    match constructing_tree(&dao, &eh("Ovum")).unwrap_err() {
        Errors::RecipeCycle(name) => assert_eq!(name, "Ovum"),
        other => panic!("{other:?}"),
    }
    match crack_element_until_primary(&dao, &eh("Gallus")).unwrap_err() {
        Errors::RecipeCycle(name) => assert_eq!(name, "Gallus"),
        other => panic!("{other:?}"),
    }
    match crack_elements_until_primary(&dao, &vec![(eh("Nidus"), 1), (eh("Gallus"), 1), (eh("Ovum"), 1)]).unwrap_err() {
        Errors::RecipeCycle(name) => assert_eq!(name, "Gallus"),
        other => panic!("{other:?}"),
    }
    assert_eq!(sorted(crack_element_until_primary(&dao, &eh("Nidus")).unwrap()), pairs(&[("Nidus", 1)]));
}

#[test]
fn the_deepest_breakdown_without_a_loop_is_taken() {
    let dao = book(&[("D", "C", "x"), ("C", "B", "x"), ("B", "A", "x")]);
    assert_eq!(sorted(crack_element_until_primary(&dao, &eh("D")).unwrap()), pairs(&[("A", 1), ("x", 3)]));
}

#[test]
fn more_than_can_be_counted() {
    let dao = book(&[("Twin", "Seed", "Seed")]);
    assert_eq!(sorted(crack_element_until_primary(&dao, &eh("Twin")).unwrap()), pairs(&[("Seed", 2)]));
    match crack_elements_until_primary(&dao, &vec![(eh("Twin"), usize::MAX)]).unwrap_err() {
        Errors::CountOverflow(name) => assert_eq!(name, "Seed"),
        other => panic!("{other:?}"),
    }
    match crack_elements_until_primary(&dao, &vec![(eh("Seed"), usize::MAX), (eh("Twin"), 1)]).unwrap_err() {
        Errors::CountOverflow(name) => assert_eq!(name, "Seed"),
        other => panic!("{other:?}"),
    }
    assert_eq!(
        sorted(crack_elements_until_primary(&dao, &vec![(eh("Seed"), usize::MAX - 2), (eh("Twin"), 1)]).unwrap()),
        pairs(&[("Seed", usize::MAX)])
    );
}

#[test]
fn what_is_wrong_in_words() {
    assert_eq!(Errors::ExpectOneResult { table_name: "recipes".to_string() }.message(), "Problematic table: recipes");
    assert_eq!(Errors::ElementNotFound("Lux".to_string()).message(), "Element: Lux");
    assert_eq!(Errors::RecipeCycle("Ovum".to_string()).message(), "Recipes lead back to: Ovum");
    assert_eq!(Errors::CountOverflow("Seed".to_string()).message(), "Too many of: Seed");
}
