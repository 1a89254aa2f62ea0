use day_skies::cities::{
    add_preset, defaults, locate_outcome, may_locate, move_city, position_of, preset_id,
    preset_index, remove, save, seed, slug, title, unique_id, upsert, City, LocationOutcome,
    Status, Stored, Title, DEFAULT_COUNT, MY_LOCATION, PRESET_COUNT,
};

type Pos = (i32, i32);

fn city(id: &str, name: &str, p: Pos) -> City<Pos> {
    City { id: id.to_string(), name: name.to_string(), position: p }
}

fn ids(v: &[City<Pos>]) -> Vec<String> {
    v.iter().map(|c| c.id.clone()).collect()
}

fn catalog() -> Vec<Pos> {
    (0..PRESET_COUNT as i32).map(|i| (i, -i)).collect()
}

#[test]
fn catalog_and_defaults() {
    assert_eq!(preset_id(0), "san-francisco");
    assert_eq!(preset_id(9), "toronto");
    assert_eq!(preset_index("cairo"), Some(7));
    assert_eq!(preset_index("atlantis"), None);
    let d = defaults(&catalog());
    assert_eq!(d.len(), DEFAULT_COUNT);
    assert_eq!(ids(&d), vec!["san-francisco", "new-york", "london", "tokyo", "sydney"]);
    assert!(d.iter().all(|c| c.name.is_empty()));
    assert_eq!(d[3].position, (3, -3));
}

#[test]
fn seeding_from_the_store() {
    assert_eq!(seed(Stored::Missing, &catalog()).len(), DEFAULT_COUNT);
    assert_eq!(seed(Stored::Unreadable, &catalog()).len(), DEFAULT_COUNT);
    assert_eq!(seed(Stored::List(vec![]), &catalog()).len(), 0);
    let one = seed(Stored::List(vec![city("x", "X", (1, 1))]), &catalog());
    assert_eq!(ids(&one), vec!["x"]);
}

#[test]
fn display_names() {
    assert!(matches!(title(&city("tokyo", "Home", (0, 0))), Title::Custom(s) if s == "Home"));
    assert!(matches!(title(&city(MY_LOCATION, "", (0, 0))), Title::MyLocation));
    assert!(matches!(title(&city("paris", "", (0, 0))), Title::Preset(5)));
    assert!(matches!(title(&city("odd-one", "", (0, 0))), Title::Custom(s) if s == "odd-one"));
}

#[test]
fn reordering() {
    let mut v = vec![city("a", "", (0, 0)), city("b", "", (0, 0)), city("c", "", (0, 0))];
    move_city(&mut v, 0, 2);
    assert_eq!(ids(&v), vec!["b", "c", "a"]);
    move_city(&mut v, 2, 0);
    assert_eq!(ids(&v), vec!["a", "b", "c"]);
    move_city(&mut v, 1, 5);
    assert_eq!(ids(&v), vec!["a", "b", "c"]);
}

#[test]
fn insert_or_replace_and_remove() {
    let mut v = vec![city("a", "", (0, 0)), city("b", "", (0, 0))];
    upsert(&mut v, city("b", "Bee", (2, 2)));
    assert_eq!(ids(&v), vec!["a", "b"]);
    assert_eq!(v[1].name, "Bee");
    upsert(&mut v, city("c", "", (3, 3)));
    assert_eq!(ids(&v), vec!["a", "b", "c"]);
    assert_eq!(position_of(&v, "c"), Some(2));
    remove(&mut v, "b");
    assert_eq!(ids(&v), vec!["a", "c"]);
    remove(&mut v, "zzz");
    assert_eq!(ids(&v), vec!["a", "c"]);
    // Insert-or-replace then remove of the same id is removal alone.
    let mut w = vec![city("a", "", (0, 0)), city("c", "", (0, 0))];
    upsert(&mut w, city("a", "A", (9, 9)));
    remove(&mut w, "a");
    assert_eq!(ids(&w), vec!["c"]);
}

#[test]
fn route_keys() {
    assert_eq!(slug("San Francisco"), "san-francisco");
    assert_eq!(slug("  New   York!! "), "new-york");
    assert_eq!(slug("Zürich"), "z-rich");
    assert_eq!(slug("東京"), "city");
    assert_eq!(slug("--A--B--"), "a-b");
    assert_eq!(slug(""), "city");
}

#[test]
fn unique_route_keys() {
    let v = vec![city("lisbon", "", (0, 0)), city("lisbon-2", "", (0, 0))];
    assert_eq!(unique_id("Porto", &v), "porto");
    assert_eq!(unique_id("Lisbon", &v), "lisbon-3");
    assert_eq!(unique_id("Settings", &v), "settings-2");
    assert_eq!(unique_id("cities", &Vec::<City<Pos>>::new()), "cities-2");
    assert_eq!(unique_id("東京", &Vec::<City<Pos>>::new()), "city");
}

#[test]
fn adding_from_the_catalog() {
    let cat = catalog();
    let mut v = defaults(&cat);
    assert!(matches!(add_preset(&mut v, 0, &cat), Err(Status::Exists)));
    assert_eq!(v.len(), 5);
    assert_eq!(add_preset(&mut v, 5, &cat).ok().as_deref(), Some("paris"));
    assert_eq!(v.len(), 6);
    assert_eq!(v[5].position, (5, -5));
    assert_eq!(add_preset(&mut v, 99, &cat).ok().as_deref(), Some("toronto"));
}

#[test]
fn saving_the_form() {
    let mut v = vec![city("oslo", "Oslo", (1, 1))];
    assert!(matches!(save(&mut v, None, "Oslo", None), Err(Status::BadCoords)));
    assert!(matches!(save(&mut v, None, "   ", Some((2, 2))), Err(Status::NeedName)));
    assert_eq!(save(&mut v, None, " Oslo ", Some((2, 2))).ok().as_deref(), Some("oslo-2"));
    assert_eq!(v[1].name, "Oslo");
    assert_eq!(v[1].position, (2, 2));
    assert_eq!(save(&mut v, Some(String::from("oslo")), "Old Oslo", Some((3, 3))).ok().as_deref(), Some("oslo"));
    assert_eq!(ids(&v), vec!["oslo", "oslo-2"]);
    assert_eq!(v[0].name, "Old Oslo");
    assert_eq!(v[0].position, (3, 3));
    // Editing with an empty name keeps the id and clears the custom name.
    assert!(save(&mut v, Some(String::from("oslo")), "", Some((3, 3))).is_ok());
    assert_eq!(v[0].name, "");
}

#[test]
fn current_location() {
    assert!(may_locate(false, false));
    assert!(may_locate(true, true));
    assert!(!may_locate(true, false));
    let mut v = vec![city("a", "", (0, 0))];
    assert!(matches!(locate_outcome(&mut v, LocationOutcome::Fix((5, 5))), Status::Located));
    assert!(matches!(locate_outcome(&mut v, LocationOutcome::Fix((6, 6))), Status::Located));
    assert_eq!(ids(&v), vec!["a", MY_LOCATION]);
    assert_eq!(v[1].position, (6, 6));
    assert!(matches!(locate_outcome(&mut v, LocationOutcome::PermissionDenied), Status::PermissionDenied));
    assert!(matches!(locate_outcome(&mut v, LocationOutcome::Failed(String::from("no fix"))), Status::LocationFailed(m) if m == "no fix"));
    assert_eq!(v.len(), 2);
}

#[test]
fn route_keys_are_stable_and_well_formed() {
    for name in ["San Francisco", "  New   York!! ", "Zürich", "東京", "--A--B--", "Rio 2016", ""] {
        let k = slug(name);
        assert_eq!(slug(&k), k);
        assert!(!k.is_empty());
        assert!(k.chars().all(|c| c.is_ascii_lowercase() || c.is_ascii_digit() || c == '-'));
        assert!(!k.starts_with('-') && !k.ends_with('-') && !k.contains("--"));
    }
    let v = vec![city("rio", "", (0, 0)), city("rio-2", "", (0, 0))];
    let id = unique_id("Rio", &v);
    assert_eq!(id, "rio-3");
    assert!(!v.iter().any(|c| c.id == id));
}

#[test]
fn form_actions_keep_ids_distinct() {
    let cat = catalog();
    let mut v = defaults(&cat);
    let _ = add_preset(&mut v, 6, &cat);
    let _ = save(&mut v, None, "Berlin", Some((1, 1)));
    let _ = save(&mut v, None, "Berlin", Some((2, 2)));
    let _ = locate_outcome(&mut v, LocationOutcome::Fix((3, 3)));
    let _ = locate_outcome(&mut v, LocationOutcome::Fix((4, 4)));
    let all = ids(&v);
    let mut sorted = all.clone();
    sorted.sort();
    sorted.dedup();
    assert_eq!(sorted.len(), all.len());
    assert_eq!(&all[5..], &["berlin", "berlin-2", "berlin-3", "my-location"]);
}
