use scope_store::bindings::Bindings;
use scope_store::{PScope, Scope, ScopeArena};

#[test]
fn bindings_start_empty() {
    let table: Bindings<i32> = Bindings::new();
    assert!(!table.contains("a"));
    assert_eq!(table.get("a"), None);
}

#[test]
fn bindings_insert_then_get() {
    let mut table = Bindings::new();
    table.insert("a".to_string(), 1);
    table.insert("b".to_string(), 2);
    assert!(table.contains("a"));
    assert!(table.contains("b"));
    assert!(!table.contains("c"));
    assert_eq!(table.get("a"), Some(&1));
    assert_eq!(table.get("b"), Some(&2));
    assert_eq!(table.get("c"), None);
}

#[test]
fn bindings_insert_overwrites() {
    let mut table = Bindings::new();
    table.insert("a".to_string(), 1);
    table.insert("b".to_string(), 2);
    table.insert("a".to_string(), 3);
    assert_eq!(table.get("a"), Some(&3));
    assert_eq!(table.get("b"), Some(&2));
}

#[test]
fn bindings_replace_needs_a_binding() {
    let mut table = Bindings::new();
    assert_eq!(table.replace("a", 1), Some(1));
    assert!(!table.contains("a"));
    table.insert("a".to_string(), 2);
    assert_eq!(table.replace("a", 3), None);
    assert_eq!(table.get("a"), Some(&3));
}

#[test]
fn bindings_update_in_place() {
    let mut table = Bindings::new();
    table.insert("a".to_string(), vec![1, 2]);
    table.insert("b".to_string(), vec![]);
    let out = table.update("a", |v| {
        v.push(3);
        v.len()
    });
    assert_eq!(out, Some(3));
    assert_eq!(table.get("a"), Some(&vec![1, 2, 3]));
    assert_eq!(table.get("b"), Some(&vec![]));
    assert_eq!(table.update("c", |v| v.len()), None);
    assert!(!table.contains("c"));
}

#[test]
fn scope_functions_work_by_position() {
    let mut arena = ScopeArena::new();
    let root = PScope::new(&mut arena);
    let mid = root.child(&mut arena);
    let leaf = mid.child(&mut arena);
    let side = root.child(&mut arena);

    Scope::set_local(&mut arena, mid.index(), "m".to_string(), 1);
    assert_eq!(Scope::get(&arena, leaf.index(), "m"), Some(1));
    assert_eq!(Scope::get(&arena, root.index(), "m"), None);
    assert_eq!(Scope::get(&arena, side.index(), "m"), None);

    Scope::set_global(&mut arena, leaf.index(), "g".to_string(), 2);
    assert_eq!(Scope::get(&arena, root.index(), "g"), Some(2));
    assert_eq!(Scope::get(&arena, side.index(), "g"), Some(2));

    Scope::set(&mut arena, leaf.index(), "m".to_string(), 3);
    assert_eq!(Scope::get(&arena, mid.index(), "m"), Some(3));
    Scope::set(&mut arena, leaf.index(), "l".to_string(), 4);
    assert_eq!(Scope::get(&arena, leaf.index(), "l"), Some(4));
    assert_eq!(Scope::get(&arena, mid.index(), "l"), None);

    assert_eq!(Scope::try_replace(&mut arena, side.index(), "m", 5), Some(5));
    assert_eq!(Scope::try_replace(&mut arena, side.index(), "g", 6), None);
    assert_eq!(Scope::get(&arena, leaf.index(), "g"), Some(6));

    assert_eq!(Scope::update(&mut arena, leaf.index(), "g", |n| { *n += 1; *n }), Some(7));
    assert_eq!(Scope::update(&mut arena, side.index(), "l", |n| { *n += 1; *n }), None);
    assert_eq!(Scope::get(&arena, root.index(), "g"), Some(7));
    assert_eq!(Scope::get(&arena, leaf.index(), "l"), Some(4));
}

#[test]
fn handle_and_position_name_the_same_scope() {
    let mut arena = ScopeArena::new();
    let root = PScope::new(&mut arena);
    let kid = root.child(&mut arena);

    kid.set_local(&mut arena, "v".to_string(), 1);
    assert_eq!(Scope::get(&arena, kid.index(), "v"), Some(1));
    Scope::set_local(&mut arena, root.index(), "w".to_string(), 2);
    assert_eq!(kid.get(&arena, "w"), Some(2));
}
