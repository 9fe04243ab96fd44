use differs::{
    diff_changes, Atom, Change, Changed, FieldPair, HasChanges, MapChanged, Record, Value,
};
use std::collections::{HashMap, HashSet};

#[derive(Clone, Debug, PartialEq)]
struct SimpleStruct {
    name: String,
    age: u32,
    active: bool,
}

#[derive(Clone, Debug, PartialEq)]
struct Address {
    street: String,
    city: String,
    zip: String,
}

#[derive(Clone, Debug, PartialEq)]
struct Person {
    id: u32,
    name: String,
    address: Address,
    tags: Vec<String>,
    roles: HashSet<String>,
    metadata: HashMap<String, String>,
}

#[derive(Clone, Debug, PartialEq)]
struct WithSkippedField {
    included: String,
    skipped: String,
}

#[derive(Clone, Debug, PartialEq, Eq)]
struct Leaf {
    value: i32,
}

#[derive(Clone, Debug, PartialEq, Eq)]
struct Container {
    scalar: i32,
    leaf: Leaf,
}

#[derive(Clone, Debug, PartialEq)]
struct Bag {
    items: Vec<char>,
}

#[derive(Clone, Debug, PartialEq)]
struct Roles {
    roles: HashSet<&'static str>,
}

#[derive(Clone, Debug, PartialEq)]
struct Prefs {
    prefs: HashMap<&'static str, &'static str>,
}

fn text(s: &str) -> Atom {
    Atom::Text(s.to_string())
}

fn texts(v: &[String]) -> Vec<Atom> {
    v.iter().map(|s| text(s)).collect()
}

fn text_set<S: AsRef<str>>(s: &HashSet<S>) -> Vec<Atom> {
    s.iter().map(|x| text(x.as_ref())).collect()
}

fn text_map<S: AsRef<str>>(m: &HashMap<S, S>) -> Vec<(Atom, Atom)> {
    m.iter()
        .map(|(k, v)| (text(k.as_ref()), text(v.as_ref())))
        .collect()
}

impl HasChanges for SimpleStruct {
    fn describe(old: &Self, new: &Self) -> Vec<FieldPair> {
        vec![
            FieldPair::scalar("name", text(&old.name), text(&new.name)),
            FieldPair::scalar("age", Atom::UInt(old.age as u64), Atom::UInt(new.age as u64)),
            FieldPair::scalar("active", Atom::Bool(old.active), Atom::Bool(new.active)),
        ]
    }
}

impl HasChanges for Address {
    fn describe(old: &Self, new: &Self) -> Vec<FieldPair> {
        vec![
            FieldPair::scalar("street", text(&old.street), text(&new.street)),
            FieldPair::scalar("city", text(&old.city), text(&new.city)),
            FieldPair::scalar("zip", text(&old.zip), text(&new.zip)),
        ]
    }
}

impl HasChanges for Person {
    fn describe(old: &Self, new: &Self) -> Vec<FieldPair> {
        vec![
            FieldPair::scalar("id", Atom::UInt(old.id as u64), Atom::UInt(new.id as u64)),
            FieldPair::scalar("name", text(&old.name), text(&new.name)),
            FieldPair::nested("address", Address::describe(&old.address, &new.address)),
            FieldPair::sequence("tags", texts(&old.tags), texts(&new.tags)),
            FieldPair::members("roles", text_set(&old.roles), text_set(&new.roles)),
            FieldPair::entries("metadata", text_map(&old.metadata), text_map(&new.metadata)),
        ]
    }
}

impl HasChanges for WithSkippedField {
    fn describe(old: &Self, new: &Self) -> Vec<FieldPair> {
        vec![
            FieldPair::scalar("included", text(&old.included), text(&new.included)),
            FieldPair::scalar("skipped", text(&old.skipped), text(&new.skipped)).skipped(),
        ]
    }
}

impl HasChanges for Leaf {
    fn describe(old: &Self, new: &Self) -> Vec<FieldPair> {
        vec![FieldPair::scalar(
            "value",
            Atom::Int(old.value as i64),
            Atom::Int(new.value as i64),
        )]
    }
}

impl HasChanges for Container {
    fn describe(old: &Self, new: &Self) -> Vec<FieldPair> {
        vec![
            FieldPair::scalar(
                "scalar",
                Atom::Int(old.scalar as i64),
                Atom::Int(new.scalar as i64),
            ),
            FieldPair::nested("leaf", Leaf::describe(&old.leaf, &new.leaf)),
        ]
    }
}

impl HasChanges for Bag {
    fn describe(old: &Self, new: &Self) -> Vec<FieldPair> {
        vec![FieldPair::sequence(
            "items",
            old.items.iter().map(|c| Atom::Char(*c)).collect(),
            new.items.iter().map(|c| Atom::Char(*c)).collect(),
        )]
    }
}

impl HasChanges for Roles {
    fn describe(old: &Self, new: &Self) -> Vec<FieldPair> {
        vec![FieldPair::members(
            "roles",
            text_set(&old.roles),
            text_set(&new.roles),
        )]
    }
}

impl HasChanges for Prefs {
    fn describe(old: &Self, new: &Self) -> Vec<FieldPair> {
        vec![FieldPair::entries(
            "prefs",
            text_map(&old.prefs),
            text_map(&new.prefs),
        )]
    }
}

/// The scalar atom of field `name` in a snapshot.
fn scalar<'a>(r: &'a Record, name: &str) -> &'a Atom {
    match r.get(name) {
        Some(Value::Scalar(a)) => a,
        other => panic!("no scalar field {name}: {other:?}"),
    }
}

fn person() -> Person {
    Person {
        id: 1,
        name: "Alice".to_string(),
        address: Address {
            street: "123 Main St".to_string(),
            city: "New York".to_string(),
            zip: "10001".to_string(),
        },
        tags: vec![],
        roles: HashSet::new(),
        metadata: HashMap::new(),
    }
}

#[test]
fn test_no_changes() {
    let old = SimpleStruct {
        name: "John".to_string(),
        age: 30,
        active: true,
    };
    let new = old.clone();

    let changes = diff_changes(&old, &new);
    assert!(changes.is_empty());
}

#[test]
fn test_scalar_changes() {
    let old = SimpleStruct {
        name: "John".to_string(),
        age: 30,
        active: true,
    };
    let mut new = old.clone();
    new.name = "Jane".to_string();
    new.age = 31;

    let changes = diff_changes(&old, &new);
    println!("{changes:?}");
    assert_eq!(changes.len(), 3);

    let mut found_name = false;
    let mut found_age = false;
    let mut found_self = false;

    for change in &changes {
        match change {
            Change::Snapshot(changed) => {
                assert_eq!(*scalar(changed, "name"), text("Jane"));
                assert_eq!(*scalar(changed, "age"), Atom::UInt(31));
                assert_eq!(*scalar(changed, "active"), Atom::Bool(true));
                found_self = true;
            }
            Change::Scalar(field, name) if field == "name" => {
                assert_eq!(*name, text("Jane"));
                found_name = true;
            }
            Change::Scalar(field, age) if field == "age" => {
                assert_eq!(*age, Atom::UInt(31));
                found_age = true;
            }
            _ => {}
        }
    }

    assert!(found_self);
    assert!(found_name);
    assert!(found_age);
}

#[test]
fn test_whole_struct_change() {
    let old = SimpleStruct {
        name: "John".to_string(),
        age: 30,
        active: true,
    };
    let new = SimpleStruct {
        name: "Jane".to_string(),
        age: 25,
        active: false,
    };

    let changes = diff_changes(&old, &new);

    // A snapshot plus the individual field changes.
    let has_self_change = changes.iter().any(|c| matches!(c, Change::Snapshot(_)));
    assert!(has_self_change);
}

#[test]
fn test_nested_struct_changes() {
    let old = person();

    let mut new = old.clone();
    new.name = "Alicia".to_string();
    new.address.city = "Boston".to_string();
    new.address.zip = "02101".to_string();

    let changes = diff_changes(&old, &new);

    let mut found_name = false;
    let mut found_city = false;
    let mut found_zip = false;

    for change in &changes {
        match change {
            Change::Scalar(field, name) if field == "name" => {
                assert_eq!(*name, text("Alicia"));
                found_name = true;
            }
            Change::Nested(field, subs) if field == "address" => {
                for sub in subs {
                    match sub {
                        Change::Scalar(f, city) if f == "city" => {
                            assert_eq!(*city, text("Boston"));
                            found_city = true;
                        }
                        Change::Scalar(f, zip) if f == "zip" => {
                            assert_eq!(*zip, text("02101"));
                            found_zip = true;
                        }
                        _ => {}
                    }
                }
            }
            _ => {}
        }
    }

    assert!(found_name);
    assert!(found_city);
    assert!(found_zip);
}

#[test]
fn test_vec_additions_and_removals() {
    let mut old = person();
    old.tags = vec!["developer".to_string(), "rust".to_string()];

    let mut new = old.clone();
    new.tags = vec![
        "developer".to_string(),
        "senior".to_string(),
        "backend".to_string(),
    ];

    let changes = diff_changes(&old, &new);

    let mut found_removed_rust = false;
    let mut found_added_senior = false;
    let mut found_added_backend = false;

    for change in &changes {
        if let Change::Element(field, tag_change) = change {
            if field != "tags" {
                continue;
            }
            match tag_change {
                Changed::RemovedAt(_, tag, _) if *tag == text("rust") => {
                    found_removed_rust = true;
                }
                Changed::AddedAt(_, tag, _) if *tag == text("senior") => {
                    found_added_senior = true;
                }
                Changed::AddedAt(_, tag, _) if *tag == text("backend") => {
                    found_added_backend = true;
                }
                _ => {}
            }
        }
    }

    assert!(found_removed_rust);
    assert!(found_added_senior);
    assert!(found_added_backend);
}

#[test]
fn test_vec_moves() {
    let mut old = person();
    old.tags = vec!["a".to_string(), "b".to_string(), "c".to_string()];

    let mut new = old.clone();
    new.tags = vec!["c".to_string(), "a".to_string(), "b".to_string()]; // moved c to front

    let changes = diff_changes(&old, &new);

    let mut found_move = false;

    for change in &changes {
        if let Change::Element(field, Changed::Moved(tag, from, to)) = change {
            if field == "tags" && *tag == text("c") && *from == 2 && *to == 0 {
                found_move = true;
            }
        }
    }

    assert!(found_move);
}

#[test]
fn test_hashset_changes() {
    let mut old = person();
    old.roles = HashSet::from(["admin".to_string(), "user".to_string()]);

    let mut new = old.clone();
    new.roles.remove("user");
    new.roles.insert("moderator".to_string());

    let changes = diff_changes(&old, &new);

    let mut found_removed_user = false;
    let mut found_added_moderator = false;

    for change in &changes {
        if let Change::Element(field, role_change) = change {
            if field != "roles" {
                continue;
            }
            match role_change {
                Changed::Removed(role) if *role == text("user") => {
                    found_removed_user = true;
                }
                Changed::Added(role) if *role == text("moderator") => {
                    found_added_moderator = true;
                }
                _ => {}
            }
        }
    }

    assert!(found_removed_user);
    assert!(found_added_moderator);
}

#[test]
fn test_hashmap_changes() {
    let mut old = person();
    old.metadata = HashMap::from([
        ("theme".to_string(), "dark".to_string()),
        ("lang".to_string(), "en".to_string()),
    ]);

    let mut new = old.clone();
    new.metadata.remove("lang");
    new.metadata
        .insert("timezone".to_string(), "UTC".to_string());
    new.metadata
        .insert("theme".to_string(), "light".to_string());

    let changes = diff_changes(&old, &new);

    let mut found_removed_lang = false;
    let mut found_added_timezone = false;
    let mut found_changed_theme = false;

    for change in &changes {
        if let Change::Entry(field, map_change) = change {
            if field != "metadata" {
                continue;
            }
            match map_change {
                MapChanged::RemovedEntry(key, value)
                    if *key == text("lang") && *value == text("en") =>
                {
                    assert!(!found_removed_lang);
                    found_removed_lang = true;
                }
                MapChanged::AddedEntry(key, value)
                    if *key == text("timezone") && *value == text("UTC") =>
                {
                    assert!(!found_added_timezone);
                    found_added_timezone = true;
                }
                MapChanged::ChangedEntry(key) if *key == text("theme") => {
                    assert!(!found_changed_theme);
                    found_changed_theme = true;
                }
                _ => {}
            }
        }
    }

    assert!(found_removed_lang);
    assert!(found_added_timezone);
    assert!(found_changed_theme);
}

#[test]
fn test_diff_derive_test_skipped_fields() {
    let old = WithSkippedField {
        included: "old".to_string(),
        skipped: "old_skipped".to_string(),
    };

    let new = WithSkippedField {
        included: "new".to_string(),
        skipped: "new_skipped".to_string(),
    };

    let changes = diff_changes(&old, &new);

    // Only the 'included' field is reported, not 'skipped'.
    assert_eq!(changes.len(), 2);

    let mut found_self = false;
    let mut found_value = false;

    println!("{changes:?}");
    for ch in changes {
        match &ch {
            Change::Snapshot(changed) => {
                assert_eq!(*scalar(changed, "included"), text("new"));
                assert_eq!(*scalar(changed, "skipped"), text("new_skipped"));

                assert!(!found_self);
                found_self = true;
            }
            Change::Scalar(field, value) if field == "included" => {
                assert_eq!(*value, text("new"));
                assert!(!found_value);
                found_value = true;
            }
            other => panic!("unexpected change {other:?}"),
        }
    }
    assert!(found_self);
    assert!(found_value);
}

#[test]
fn test_changed_macro() {
    let mut old = person();
    old.tags = vec!["rust".to_string()];

    let mut new = old.clone();
    new.name = "Alicia".to_string();
    new.address.city = "Boston".to_string();
    new.tags.push("backend".to_string());

    let changes = diff_changes(&old, &new);

    let mut name_changed = false;
    let mut city_changed = false;
    let mut tag_added = false;

    for change in &changes {
        match change {
            Change::Scalar(field, name) if field == "name" => {
                assert_eq!(*name, text("Alicia"));
                name_changed = true;
            }
            Change::Nested(field, subs) if field == "address" => {
                for sub in subs {
                    if let Change::Scalar(f, city) = sub {
                        if f == "city" {
                            assert_eq!(*city, text("Boston"));
                            city_changed = true;
                        }
                    }
                }
            }
            Change::Element(field, Changed::AddedAt(_, tag, _)) if field == "tags" => {
                if *tag == text("backend") {
                    tag_added = true;
                }
            }
            _ => {}
        }
    }

    assert!(name_changed);
    assert!(city_changed);
    assert!(tag_added);
}

#[test]
fn test_changed_macro_with_snapshot() {
    let old = person();

    let mut new = old.clone();
    new.address = Address {
        street: "456 Oak Ave".to_string(),
        city: "Boston".to_string(),
        zip: "02101".to_string(),
    };

    let changes = diff_changes(&old, &new);

    let mut snapshot_found = false;

    for change in &changes {
        if let Change::Nested(field, subs) = change {
            if field != "address" {
                continue;
            }
            for sub in subs {
                if let Change::Snapshot(snapshot) = sub {
                    snapshot_found = true;
                    assert_eq!(*scalar(snapshot, "street"), text("456 Oak Ave"));
                    assert_eq!(*scalar(snapshot, "city"), text("Boston"));
                    assert_eq!(*scalar(snapshot, "zip"), text("02101"));
                }
            }
        }
    }

    assert!(snapshot_found);
}

#[test]
fn test_empty_vec_to_populated() {
    let old = person();

    let mut new = old.clone();
    new.tags = vec!["rust".to_string(), "developer".to_string()];

    let changes = diff_changes(&old, &new);

    let mut additions = 0;

    for change in &changes {
        if let Change::Element(field, Changed::AddedAt(_, _, _)) = change {
            if field == "tags" {
                additions += 1;
            }
        }
    }

    assert_eq!(additions, 2);
}

#[test]
fn test_populated_vec_to_empty() {
    let mut old = person();
    old.tags = vec!["rust".to_string(), "developer".to_string()];

    let mut new = old.clone();
    new.tags = vec![];

    let changes = diff_changes(&old, &new);

    let mut removals = 0;

    for change in &changes {
        if let Change::Element(field, Changed::RemovedAt(_, _, _)) = change {
            if field == "tags" {
                removals += 1;
            }
        }
    }

    assert_eq!(removals, 2);
}

#[test]
fn scalar_change_yields_variant() {
    let old = Leaf { value: 1 };
    let new = Leaf { value: 2 };

    let diff = diff_changes(&old, &new);

    println!("{diff:?}");

    match diff.as_slice() {
        [Change::Snapshot(snapshot), Change::Scalar(field, value)] => {
            assert_eq!(*scalar(snapshot, "value"), Atom::Int(2));
            assert_eq!(field, "value");
            assert_eq!(*value, Atom::Int(2));
        }
        other => panic!("unexpected changes {other:?}"),
    }
}

#[test]
fn nested_change_is_propagated() {
    let old = Container {
        scalar: 123,
        leaf: Leaf { value: 1 },
    };
    let new = Container {
        scalar: 123,
        leaf: Leaf { value: 42 },
    };

    let diff = diff_changes(&old, &new);

    assert!(diff.iter().any(|ch| match ch {
        Change::Nested(field, subs) if field == "leaf" => subs.iter().any(|sub| matches!(
            sub,
            Change::Scalar(f, Atom::Int(42)) if f == "value"
        )),
        _ => false,
    }));
}

#[test]
fn vec_move_and_removal() {
    //    0   1   2   3
    // old: A   B   A   A
    // new:     B   A   A
    // B moves 1 -> 0. Each new 'A' takes the earliest old 'A' still free
    // (0, then 2), so the old 'A' at index 3 is the one removed.
    let old = Bag {
        items: vec!['A', 'B', 'A', 'A'],
    };
    let new = Bag {
        items: vec!['B', 'A', 'A'],
    };

    let diff = diff_changes(&old, &new);

    let mut moved = false;
    let mut removed = false;

    for ch in diff {
        match ch {
            Change::Element(_, Changed::Moved(Atom::Char('B'), 1, 0)) => moved = true,
            Change::Element(_, Changed::RemovedAt(3, Atom::Char('A'), _)) => removed = true,
            _ => {}
        }
    }

    assert!(moved && removed);
}

#[test]
fn vec_added_at_and_added() {
    let old = Bag {
        items: vec!['X', 'Y'],
    };
    let new = Bag {
        items: vec!['X', 'A', 'Y', 'A'],
    };

    let diff = diff_changes(&old, &new);

    assert!(diff.iter().any(|ch| matches!(
        ch,
        Change::Element(_, Changed::AddedAt(1, Atom::Char('A'), _))
    )));
    assert!(diff.iter().any(|ch| matches!(
        ch,
        Change::Element(_, Changed::AddedAt(3, Atom::Char('A'), _))
    )));
}

#[test]
fn hashset_added_and_removed() {
    let old = Roles {
        roles: HashSet::from(["admin", "user"]),
    };
    let new = Roles {
        roles: HashSet::from(["admin", "devops"]),
    };

    let diff = diff_changes(&old, &new);

    assert!(diff.iter().any(|ch| matches!(
        ch,
        Change::Element(_, Changed::Removed(a)) if *a == text("user")
    )));
    assert!(diff.iter().any(|ch| matches!(
        ch,
        Change::Element(_, Changed::Added(a)) if *a == text("devops")
    )));
}

#[test]
fn hashmap_add_remove_entry() {
    let old = Prefs {
        prefs: HashMap::from([("theme", "dark"), ("layout", "grid")]),
    };
    let new = Prefs {
        prefs: HashMap::from([("theme", "dark"), ("notifications", "email")]),
    };

    let diff = diff_changes(&old, &new);

    assert!(diff.iter().any(|ch| matches!(
        ch,
        Change::Entry(_, MapChanged::RemovedEntry(k, v)) if *k == text("layout") && *v == text("grid")
    )));
    assert!(diff.iter().any(|ch| matches!(
        ch,
        Change::Entry(_, MapChanged::AddedEntry(k, v))
            if *k == text("notifications") && *v == text("email")
    )));
}

#[test]
fn self_snapshot_emitted_when_anything_changed() {
    let old = Leaf { value: 1 };
    let new = Leaf { value: 2 };

    let diff = diff_changes(&old, &new);
    assert!(matches!(diff.first(), Some(Change::Snapshot(_))));
}
