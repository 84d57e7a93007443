use t4ach::dao::DAO;
use t4ach::pathes::{
    calc_path, calc_path_order_by_weight, calc_path_steps_1, calc_path_steps_2, calc_path_steps_n,
    get_relatives, is_path_viable, is_two_eles_connected, Path,
};
use t4ach::recipes::ElementHandle;

fn eh(name: &str) -> ElementHandle {
    ElementHandle::from(name)
}

const RECIPES: [(&str, &str, &str); 42] = [
    ("Vacuos", "Aer", "Perditio"),
    ("Lux", "Aer", "Ignis"),
    ("Tempestas", "Aer", "Aqua"),
    ("Motus", "Aer", "Ordo"),
    ("Gelum", "Ignis", "Perditio"),
    ("Vitreus", "Terra", "Ordo"),
    ("Victus", "Aqua", "Terra"),
    ("Venenum", "Aqua", "Perditio"),
    ("Potentia", "Ordo", "Ignis"),
    ("Permutatio", "Perditio", "Ordo"),
    ("Metallum", "Terra", "Vitreus"),
    ("Mortuus", "Victus", "Perditio"),
    ("Volatus", "Aer", "Motus"),
    ("Tenebrae", "Vacuos", "Lux"),
    ("Spiritus", "Victus", "Mortuus"),
    ("Sano", "Victus", "Ordo"),
    ("Iter", "Motus", "Terra"),
    ("Alienis", "Vacuos", "Tenebrae"),
    ("Praecantatio", "Vacuos", "Potentia"),
    ("Auram", "Praecantatio", "Aer"),
    ("Vitium", "Praecantatio", "Perditio"),
    ("Limus", "Victus", "Aqua"),
    ("Herba", "Victus", "Terra"),
    ("Arbor", "Aer", "Herba"),
    ("Bestia", "Motus", "Victus"),
    ("Corpus", "Mortuus", "Bestia"),
    ("Exanimis", "Motus", "Mortuus"),
    ("Cognitio", "Ignis", "Spiritus"),
    ("Sensus", "Aer", "Spiritus"),
    ("Humanus", "Bestia", "Cognitio"),
    ("Messis", "Herba", "Humanus"),
    ("Perfodio", "Humanus", "Terra"),
    ("Instrumentum", "Humanus", "Ordo"),
    ("Meto", "Messis", "Instrumentum"),
    ("Telum", "Instrumentum", "Ignis"),
    ("Tutamen", "Instrumentum", "Terra"),
    ("Fames", "Victus", "Vacuos"),
    ("Lucrum", "Humanus", "Fames"),
    ("Fabrico", "Humanus", "Instrumentum"),
    ("Pannus", "Instrumentum", "Bestia"),
    ("Machina", "Motus", "Instrumentum"),
    ("Vinculum", "Motus", "Perditio"),
];

const PRIMALS: [&str; 6] = ["Aer", "Terra", "Ignis", "Aqua", "Ordo", "Perditio"];

fn aspects() -> DAO {
    let mut elements: Vec<ElementHandle> = PRIMALS.iter().map(|name| eh(name)).collect();
    elements.extend(RECIPES.iter().map(|row| eh(row.0)));
    let recipes = RECIPES.iter().map(|row| (eh(row.0), eh(row.1), eh(row.2))).collect();
    DAO::new(elements, recipes).expect("the aspects are in order")
}

fn names(handles: &[ElementHandle]) -> Vec<String> {
    let mut names: Vec<String> = handles.iter().map(|h| h.get_name()).collect();
    names.sort();
    names
}

fn rendered(paths: &[Path]) -> Vec<String> {
    let mut texts: Vec<String> = paths.iter().map(|p| p.render()).collect();
    texts.sort();
    texts
}

#[test]
fn test_calc_path1() {
    let dao = aspects();
    {
        let pathes = calc_path(&dao, &eh("Aer"), &eh("Ignis"), 1);
        assert_eq!(pathes.len(), 1usize);
        let p = pathes.get(0).unwrap();
        assert_eq!(p.steps().get(0).unwrap().get_name(), "Lux")
    }
    {
        let pathes = calc_path(&dao, &eh("Instrumentum"), &eh("Ignis"), 1);
        assert_eq!(pathes.len(), 1usize);
        let p = pathes.get(0).unwrap();
        assert_eq!(p.steps().get(0).unwrap().get_name(), "Telum")
    }
}

#[test]
fn test_calc_path2() {
    let dao = aspects();
    {
        let pathes = calc_path(&dao, &eh("Aer"), &eh("Ignis"), 2);
        assert_eq!(pathes.len(), 0);
    }
    {
        let pathes = calc_path(&dao, &eh("Humanus"), &eh("Ignis"), 2);
        assert_eq!(rendered(&pathes), vec!["Humanus->Instrumentum->Telum->Ignis"]);
    }
    {
        let pathes = calc_path(&dao, &eh("Machina"), &eh("Cognitio"), 2);
        assert_eq!(rendered(&pathes), vec!["Machina->Instrumentum->Humanus->Cognitio"]);
    }
    {
        let pathes = calc_path(&dao, &eh("Bestia"), &eh("Spiritus"), 2);
        let right = [
            "Bestia->Humanus->Cognitio->Spiritus",
            "Bestia->Victus->Mortuus->Spiritus",
            "Bestia->Corpus->Mortuus->Spiritus",
        ];
        for text in rendered(&pathes) {
            assert!(right.contains(&text.as_str()), "{text}");
        }
    }
}

#[test]
fn test_calc_path3() {
    let dao = aspects();
    {
        let pathes = calc_path(&dao, &eh("Motus"), &eh("Mortuus"), 3);
        for x in &pathes {
            assert!(is_path_viable(&dao, x), "{} can't viable.", x.render());
        }
    }
    {
        let pathes = calc_path(&dao, &eh("Perditio"), &eh("Motus"), 3);
        for x in &pathes {
            assert!(is_path_viable(&dao, x), "{} can't viable.", x.render());
        }
    }
}

fn scored(mut pathes: Vec<Path>) -> Vec<Path> {
    for (i, path) in pathes.iter_mut().enumerate() {
        let score = (i as u64 * 7) % 5;
        path.set_weight(score);
    }
    pathes
}

#[test]
fn test_calc_path3_with_weight() {
    let dao = aspects();
    {
        let pathes = calc_path_order_by_weight(scored(calc_path(&dao, &eh("Motus"), &eh("Mortuus"), 3)));
        println!("finds {} ways", pathes.len());
        for x in &pathes {
            assert!(is_path_viable(&dao, x), "{} can't viable.", x.render());
        }
    }
    {
        let pathes = calc_path_order_by_weight(scored(calc_path(&dao, &eh("Perditio"), &eh("Motus"), 3)));
        println!("finds {} ways", pathes.len());
        for x in &pathes {
            assert!(is_path_viable(&dao, x), "{} can't viable.", x.render());
        }
    }
}

#[test]
fn relatives_are_components_and_products() {
    let dao = aspects();
    assert_eq!(
        names(&get_relatives(&dao, &eh("Aer"))),
        vec!["Arbor", "Auram", "Lux", "Motus", "Sensus", "Tempestas", "Vacuos", "Volatus"]
    );
    assert_eq!(names(&get_relatives(&dao, &eh("Lux"))), vec!["Aer", "Ignis", "Tenebrae"]);
    assert_eq!(names(&get_relatives(&dao, &eh("Vinculum"))), vec!["Motus", "Perditio"]);
    assert!(get_relatives(&dao, &eh("Nihil")).is_empty());
}

#[test]
fn relatives_come_once_each() {
    let recipes = vec![(eh("Twin"), eh("Seed"), eh("Seed")), (eh("Seed"), eh("Twin"), eh("Dust"))];
    let dao = DAO::new(vec![eh("Twin"), eh("Seed"), eh("Dust")], recipes).unwrap();
    assert_eq!(names(&get_relatives(&dao, &eh("Twin"))), vec!["Seed"]);
    assert_eq!(names(&get_relatives(&dao, &eh("Seed"))), vec!["Dust", "Twin"]);
}

#[test]
fn connected_is_symmetric() {
    let dao = aspects();
    let mut all: Vec<ElementHandle> = dao.list_elements();
    all.push(eh("Nihil"));
    for a in &all {
        for b in &all {
            assert_eq!(is_two_eles_connected(&dao, a, b), is_two_eles_connected(&dao, b, a));
        }
    }
    assert!(is_two_eles_connected(&dao, &eh("Lux"), &eh("Aer")));
    assert!(is_two_eles_connected(&dao, &eh("Aer"), &eh("Lux")));
    assert!(!is_two_eles_connected(&dao, &eh("Aer"), &eh("Ignis")));
    assert!(!is_two_eles_connected(&dao, &eh("Aer"), &eh("Aer")));
}

#[test]
fn no_steps_means_connected() {
    let dao = aspects();
    let all = dao.list_elements();
    for a in &all {
        for b in &all {
            let found = calc_path(&dao, a, b, 0);
            assert_eq!(!found.is_empty(), is_two_eles_connected(&dao, a, b));
            assert!(found.len() <= 1);
            for p in &found {
                assert!(p.steps().is_empty());
                assert_eq!(p.weight(), None);
            }
        }
    }
    let direct = calc_path(&dao, &eh("Aer"), &eh("Lux"), 0);
    assert_eq!(rendered(&direct), vec!["Aer->Lux"]);
}

#[test]
fn found_paths_are_viable() {
    let dao = aspects();
    for (from, to) in [("Aer", "Ignis"), ("Humanus", "Ignis"), ("Bestia", "Spiritus"), ("Motus", "Mortuus")] {
        for steps_n in 0..5usize {
            for p in calc_path(&dao, &eh(from), &eh(to), steps_n) {
                assert!(is_path_viable(&dao, &p), "{}", p.render());
                assert_eq!(p.steps().len(), steps_n);
                assert_eq!(p.start().get_name(), from);
                assert_eq!(p.end().get_name(), to);
            }
        }
    }
}

#[test]
fn backtracking_agrees_with_the_short_ways() {
    let dao = aspects();
    for (from, to) in [("Aer", "Ignis"), ("Humanus", "Ignis"), ("Bestia", "Spiritus"), ("Machina", "Cognitio")] {
        let a = eh(from);
        let b = eh(to);
        assert_eq!(rendered(&calc_path_steps_n(&dao, &a, &b, 0)), rendered(&calc_path(&dao, &a, &b, 0)));
        assert_eq!(rendered(&calc_path_steps_n(&dao, &a, &b, 1)), rendered(&calc_path_steps_1(&dao, &a, &b)));
        assert_eq!(rendered(&calc_path_steps_n(&dao, &a, &b, 2)), rendered(&calc_path_steps_2(&dao, &a, &b)));
    }
}

#[test]
fn two_steps_between_bestia_and_spiritus() {
    let dao = aspects();
    assert_eq!(
        rendered(&calc_path_steps_2(&dao, &eh("Bestia"), &eh("Spiritus"))),
        vec![
            "Bestia->Corpus->Mortuus->Spiritus",
            "Bestia->Humanus->Cognitio->Spiritus",
            "Bestia->Victus->Mortuus->Spiritus",
        ]
    );
}

#[test]
fn more_steps_in_a_small_book() {
    // Rod = Tip + Grip, Tip = Ore + Fire: the only neighbours are along these.
    let recipes = vec![(eh("Rod"), eh("Tip"), eh("Grip")), (eh("Tip"), eh("Ore"), eh("Fire"))];
    let dao = DAO::new(vec![], recipes).unwrap();
    assert_eq!(
        rendered(&calc_path(&dao, &eh("Ore"), &eh("Grip"), 4)),
        vec!["Ore->Tip->Fire->Tip->Rod->Grip", "Ore->Tip->Ore->Tip->Rod->Grip", "Ore->Tip->Rod->Grip->Rod->Grip", "Ore->Tip->Rod->Tip->Rod->Grip"],
    );
    assert_eq!(rendered(&calc_path(&dao, &eh("Ore"), &eh("Grip"), 2)), vec!["Ore->Tip->Rod->Grip"]);
    assert!(calc_path(&dao, &eh("Ore"), &eh("Grip"), 3).is_empty());
    assert_eq!(
        rendered(&calc_path(&dao, &eh("Ore"), &eh("Fire"), 3)),
        vec!["Ore->Tip->Fire->Tip->Fire", "Ore->Tip->Ore->Tip->Fire", "Ore->Tip->Rod->Tip->Fire"],
    );
    assert!(calc_path(&dao, &eh("Lone"), &eh("Grip"), 3).is_empty());
    assert!(calc_path(&dao, &eh("Ore"), &eh("Lone"), 3).is_empty());
}

#[test]
fn a_path_that_breaks_is_not_viable() {
    let dao = aspects();
    let mut p = Path::new(eh("Aer"), eh("Ignis"));
    assert!(!is_path_viable(&dao, &p));
    p.push(eh("Lux"));
    assert!(is_path_viable(&dao, &p));
    p.push(eh("Motus"));
    assert!(!is_path_viable(&dao, &p));
    assert_eq!(p.pop().map(|h| h.get_name()), Some("Motus".to_string()));
    assert!(is_path_viable(&dao, &p));
    assert_eq!(p.pop().map(|h| h.get_name()), Some("Lux".to_string()));
    assert!(p.pop().is_none());
}

#[test]
fn paths_are_equal_by_their_way() {
    let mut a = Path::new(eh("Aer"), eh("Ignis"));
    let mut b = Path::new(eh("Aer"), eh("Ignis"));
    assert!(a == b);
    a.push(eh("Lux"));
    assert!(a != b);
    b.push(eh("Lux"));
    b.set_weight(9);
    assert!(a == b);
    assert!(a.clone() == a);
    assert!(Path::new(eh("Aer"), eh("Aqua")) != Path::new(eh("Aer"), eh("Ignis")));
    assert_eq!(b.weight(), Some(9));
    assert_eq!(b.clone().weight(), Some(9));
}

#[test]
fn ranking_puts_the_highest_score_first() {
    let mut paths = Vec::new();
    for (step, score) in [("a", 3u64), ("b", 9), ("c", 3), ("d", 0), ("e", u64::MAX), ("f", 9)] {
        let mut p = Path::new(eh("from"), eh("to"));
        p.push(eh(step));
        p.set_weight(score);
        paths.push(p);
    }
    let ranked = calc_path_order_by_weight(paths.clone());
    let scores: Vec<u64> = ranked.iter().map(|p| p.weight().unwrap()).collect();
    assert_eq!(scores, vec![u64::MAX, 9, 9, 3, 3, 0]);
    let order: Vec<String> = ranked.iter().map(|p| p.steps()[0].get_name()).collect();
    assert_eq!(order, vec!["e", "b", "f", "a", "c", "d"]);
    assert_eq!(rendered(&ranked), rendered(&paths));
    for pair in ranked.windows(2) {
        assert!(pair[0].weight() >= pair[1].weight());
    }
    assert!(calc_path_order_by_weight(Vec::new()).is_empty());
}

#[test]
fn writing_of_a_path() {
    let mut p = Path::new(eh("Humanus"), eh("Ignis"));
    assert_eq!(p.render(), "Humanus->Ignis");
    p.push(eh("Instrumentum"));
    p.push(eh("Telum"));
    assert_eq!(p.render(), "Humanus->Instrumentum->Telum->Ignis");
    p.set_weight(4);
    assert_eq!(p.render(), "Humanus->Instrumentum->Telum->Ignis");
}
