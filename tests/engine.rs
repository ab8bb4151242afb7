use pico::{
    execute_memoized_function, get_param, init_param_vec, intern_borrowed_param,
    intern_owned_param, Combine, Database, Dependency, DerivedNode, DerivedNodeId,
    DidRecalculate, EngineError, Epoch, Key, NodeKind, ParamId, ParamValue, Recipe,
};

fn key(id: u64) -> Key {
    Key { id }
}

fn node(k: u64) -> DerivedNodeId {
    DerivedNodeId::new(key(k), ParamId { index: 0 })
}

/// A database whose argument 0 is interned, so that `node(k)` can be resolved.
fn with_unit() -> Database {
    let mut db = Database::new();
    assert_eq!(db.intern(ParamValue::Unit), ParamId { index: 0 });
    db
}

fn sum(constant: i64, inputs: Vec<NodeKind>) -> Recipe {
    Recipe { combine: Combine::Sum, constant, with_arg: false, inputs }
}

fn product(constant: i64, inputs: Vec<NodeKind>) -> Recipe {
    Recipe { combine: Combine::Product, constant, with_arg: false, inputs }
}

/// Source A = 1, D1 = A + 1 (key 10), D2 = D1 * 0 (key 20).
fn chain() -> Database {
    let mut db = with_unit();
    db.write_source(key(1), 1);
    assert_eq!(db.register_derived(key(10), sum(1, vec![NodeKind::Source(key(1))])), Ok(()));
    assert_eq!(
        db.register_derived(key(20), product(0, vec![NodeKind::Derived(node(10))])),
        Ok(())
    );
    db
}

#[test]
fn example_scenario_cutoff_after_write() {
    let mut db = chain();
    assert_eq!(db.resolve(node(10)), Ok((2, DidRecalculate::Recalculated)));
    assert_eq!(db.resolve(node(20)), Ok((0, DidRecalculate::Recalculated)));
    db.write_source(key(1), 2);
    assert_eq!(db.resolve(node(20)), Ok((0, DidRecalculate::NotRecalculated)));
    // D1 was recomputed on the way and is now current at 3
    assert_eq!(db.resolve(node(10)), Ok((3, DidRecalculate::NotRecalculated)));
}

#[test]
fn example_scenario_d1_recalculates() {
    let mut db = chain();
    assert_eq!(db.resolve(node(20)), Ok((0, DidRecalculate::Recalculated)));
    db.write_source(key(1), 2);
    assert_eq!(db.resolve(node(10)), Ok((3, DidRecalculate::Recalculated)));
    assert_eq!(db.resolve(node(20)), Ok((0, DidRecalculate::NotRecalculated)));
}

#[test]
fn fast_path_repeats_value() {
    let mut db = chain();
    assert_eq!(db.resolve(node(10)), Ok((2, DidRecalculate::Recalculated)));
    for _ in 0..5 {
        assert_eq!(db.resolve(node(10)), Ok((2, DidRecalculate::NotRecalculated)));
    }
    assert_eq!(db.current_epoch(), Epoch { value: 1 });
}

#[test]
fn no_spurious_staleness_with_other_resolves() {
    let mut db = chain();
    assert_eq!(db.resolve(node(10)), Ok((2, DidRecalculate::Recalculated)));
    assert_eq!(db.resolve(node(20)), Ok((0, DidRecalculate::Recalculated)));
    assert_eq!(db.resolve(node(10)), Ok((2, DidRecalculate::NotRecalculated)));
}

#[test]
fn change_propagates_transitively() {
    let mut db = with_unit();
    db.write_source(key(1), 5);
    db.register_derived(key(10), sum(0, vec![NodeKind::Source(key(1))])).unwrap();
    db.register_derived(key(20), sum(100, vec![NodeKind::Derived(node(10))])).unwrap();
    assert_eq!(db.resolve(node(20)), Ok((105, DidRecalculate::Recalculated)));
    db.write_source(key(1), 7);
    assert_eq!(db.resolve(node(20)), Ok((107, DidRecalculate::Recalculated)));
}

#[test]
fn rewriting_equal_source_value_recomputes_without_change() {
    let mut db = chain();
    assert_eq!(db.resolve(node(10)), Ok((2, DidRecalculate::Recalculated)));
    db.write_source(key(1), 1);
    assert_eq!(db.current_epoch(), Epoch { value: 2 });
    assert_eq!(db.resolve(node(10)), Ok((2, DidRecalculate::NotRecalculated)));
}

#[test]
fn unrelated_source_write_keeps_value() {
    let mut db = chain();
    assert_eq!(db.resolve(node(20)), Ok((0, DidRecalculate::Recalculated)));
    db.write_source(key(2), 9);
    assert_eq!(db.resolve(node(20)), Ok((0, DidRecalculate::NotRecalculated)));
    assert_eq!(db.resolve(node(10)), Ok((2, DidRecalculate::NotRecalculated)));
}

#[test]
fn unwritten_source_reads_as_zero() {
    let mut db = with_unit();
    db.register_derived(key(10), sum(4, vec![NodeKind::Source(key(3))])).unwrap();
    assert_eq!(db.read_source(key(3)), None);
    assert_eq!(db.resolve(node(10)), Ok((4, DidRecalculate::Recalculated)));
    db.write_source(key(3), 6);
    assert_eq!(db.read_source(key(3)), Some(6));
    assert_eq!(db.resolve(node(10)), Ok((10, DidRecalculate::Recalculated)));
}

#[test]
fn several_inputs_fold_in_order() {
    let mut db = with_unit();
    db.write_source(key(1), 2);
    db.write_source(key(2), 3);
    db.write_source(key(3), 4);
    let inputs = vec![
        NodeKind::Source(key(1)),
        NodeKind::Source(key(2)),
        NodeKind::Source(key(3)),
    ];
    db.register_derived(key(10), product(5, inputs.clone())).unwrap();
    db.register_derived(key(11), sum(5, inputs)).unwrap();
    assert_eq!(db.resolve(node(10)), Ok((120, DidRecalculate::Recalculated)));
    assert_eq!(db.resolve(node(11)), Ok((14, DidRecalculate::Recalculated)));
}

#[test]
fn sum_wraps_on_overflow() {
    let mut db = with_unit();
    db.write_source(key(1), i64::MAX);
    db.register_derived(key(10), sum(1, vec![NodeKind::Source(key(1))])).unwrap();
    assert_eq!(db.resolve(node(10)), Ok((i64::MIN, DidRecalculate::Recalculated)));
}

#[test]
fn params_give_separate_nodes() {
    let mut db = with_unit();
    db.write_source(key(1), 1);
    db.register_derived(key(10), sum(1, vec![NodeKind::Source(key(1))])).unwrap();
    let p = db.intern(ParamValue::Int(7));
    let q = db.intern(ParamValue::Int(8));
    let a = DerivedNodeId::new(key(10), p);
    let b = DerivedNodeId::new(key(10), q);
    assert_eq!(db.resolve(a), Ok((2, DidRecalculate::Recalculated)));
    assert_eq!(db.resolve(b), Ok((2, DidRecalculate::Recalculated)));
    assert_eq!(db.resolve(a), Ok((2, DidRecalculate::NotRecalculated)));
}

#[test]
fn duplicate_key_is_refused() {
    let mut db = with_unit();
    assert_eq!(db.register_derived(key(10), sum(0, vec![])), Ok(()));
    assert_eq!(db.register_derived(key(10), sum(1, vec![])), Err(EngineError::DuplicateKey));
    assert_eq!(db.resolve(node(10)), Ok((0, DidRecalculate::Recalculated)));
}

#[test]
fn unknown_dependency_is_refused() {
    let mut db = with_unit();
    assert_eq!(
        db.register_derived(key(10), sum(0, vec![NodeKind::Derived(node(11))])),
        Err(EngineError::UnknownDependency)
    );
    // a function cannot read itself
    assert_eq!(
        db.register_derived(key(12), sum(0, vec![NodeKind::Derived(node(12))])),
        Err(EngineError::UnknownDependency)
    );
    assert_eq!(db.resolve(node(10)), Err(EngineError::UnknownFunction));
}

#[test]
fn unknown_function_is_refused() {
    let mut db = with_unit();
    assert_eq!(db.resolve(node(99)), Err(EngineError::UnknownFunction));
    assert_eq!(execute_memoized_function(&mut db, node(99)), Err(EngineError::UnknownFunction));
}

#[test]
fn execute_memoized_function_reports_change() {
    let mut db = chain();
    assert_eq!(execute_memoized_function(&mut db, node(10)), Ok(DidRecalculate::Recalculated));
    assert_eq!(execute_memoized_function(&mut db, node(10)), Ok(DidRecalculate::NotRecalculated));
    db.write_source(key(1), 4);
    assert_eq!(execute_memoized_function(&mut db, node(10)), Ok(DidRecalculate::Recalculated));
}

#[test]
fn interning_dedups_equal_values() {
    let mut db = with_unit();
    let a = intern_owned_param(&mut db, ParamValue::Int(1));
    let b = intern_borrowed_param(&mut db, &ParamValue::Int(1));
    let c = intern_owned_param(&mut db, ParamValue::Int(2));
    assert_eq!(a, b);
    assert_ne!(a, c);
    assert_eq!(get_param(&db, a), Some(ParamValue::Int(1)));
    assert_eq!(get_param(&db, c), Some(ParamValue::Int(2)));
}

#[test]
fn interning_keeps_variants_apart() {
    let mut db = with_unit();
    let a = intern_owned_param(&mut db, ParamValue::Int(1));
    let b = intern_owned_param(&mut db, ParamValue::Bool(true));
    let c = intern_owned_param(&mut db, ParamValue::Unit);
    let d = intern_owned_param(&mut db, ParamValue::Int(0));
    assert_ne!(a, b);
    assert_ne!(b, c);
    assert_ne!(c, d);
    assert_ne!(a, d);
    assert_eq!(get_param(&db, b), Some(ParamValue::Bool(true)));
}

#[test]
fn get_param_of_unknown_id_is_none() {
    let db = Database::new();
    assert_eq!(get_param(&db, ParamId { index: 0 }), None);
    assert_eq!(db.get_param(ParamId { index: 3 }), None);
}

#[test]
fn init_param_vec_is_empty() {
    let v = init_param_vec();
    assert!(v.is_empty());
    assert_eq!(v.capacity(), 8);
}

#[test]
fn derived_node_id_new_keeps_fields() {
    let id = DerivedNodeId::new(key(4), ParamId { index: 9 });
    assert_eq!(id.key, key(4));
    assert_eq!(id.param_id, ParamId { index: 9 });
}

#[test]
fn update_with_equal_value_keeps_update_time() {
    let mut n = DerivedNode {
        time_verified: Epoch { value: 1 },
        time_updated: Epoch { value: 1 },
        dependencies: vec![],
        value: 5,
    };
    let dep = Dependency { node_to: NodeKind::Source(key(1)), time_verified_or_updated: Epoch { value: 3 } };
    let changed = n.update(DerivedNode {
        time_verified: Epoch { value: 3 },
        time_updated: Epoch { value: 3 },
        dependencies: vec![dep],
        value: 5,
    });
    assert!(!changed);
    assert_eq!(n.time_verified, Epoch { value: 3 });
    assert_eq!(n.time_updated, Epoch { value: 1 });
    assert_eq!(n.dependencies, vec![dep]);
}

#[test]
fn update_with_new_value_takes_it() {
    let mut n = DerivedNode {
        time_verified: Epoch { value: 1 },
        time_updated: Epoch { value: 1 },
        dependencies: vec![],
        value: 5,
    };
    let changed = n.update(DerivedNode {
        time_verified: Epoch { value: 2 },
        time_updated: Epoch { value: 2 },
        dependencies: vec![],
        value: 6,
    });
    assert!(changed);
    assert_eq!(n.value, 6);
    assert_eq!(n.time_updated, Epoch { value: 2 });
}

#[test]
fn source_write_advances_epoch() {
    let mut db = with_unit();
    assert_eq!(db.current_epoch(), Epoch { value: 0 });
    db.write_source(key(1), 3);
    db.write_source(key(1), 4);
    assert_eq!(db.current_epoch(), Epoch { value: 2 });
    assert_eq!(db.read_source(key(1)), Some(4));
}

#[test]
fn argument_enters_the_value() {
    let mut db = Database::new();
    db.write_source(key(1), 1);
    let recipe = Recipe {
        combine: Combine::Sum,
        constant: 1,
        with_arg: true,
        inputs: vec![NodeKind::Source(key(1))],
    };
    db.register_derived(key(10), recipe).unwrap();
    let p = db.intern(ParamValue::Int(7));
    let q = db.intern(ParamValue::Int(8));
    let t = db.intern(ParamValue::Bool(true));
    let a = DerivedNodeId::new(key(10), p);
    let b = DerivedNodeId::new(key(10), q);
    let c = DerivedNodeId::new(key(10), t);
    assert_eq!(db.resolve(a), Ok((9, DidRecalculate::Recalculated)));
    assert_eq!(db.resolve(b), Ok((10, DidRecalculate::Recalculated)));
    assert_eq!(db.resolve(c), Ok((3, DidRecalculate::Recalculated)));
    assert_eq!(db.resolve(a), Ok((9, DidRecalculate::NotRecalculated)));
    db.write_source(key(1), 5);
    assert_eq!(db.resolve(b), Ok((14, DidRecalculate::Recalculated)));
}

#[test]
fn argument_in_a_product() {
    let mut db = Database::new();
    db.write_source(key(1), 3);
    let p = db.intern(ParamValue::Int(4));
    let recipe = Recipe {
        combine: Combine::Product,
        constant: 2,
        with_arg: true,
        inputs: vec![NodeKind::Source(key(1))],
    };
    db.register_derived(key(10), recipe).unwrap();
    db.register_derived(key(20), sum(0, vec![NodeKind::Derived(DerivedNodeId::new(key(10), p))]))
        .unwrap();
    let u = db.intern(ParamValue::Unit);
    assert_eq!(
        db.resolve(DerivedNodeId::new(key(20), u)),
        Ok((24, DidRecalculate::Recalculated))
    );
    assert_eq!(
        db.resolve(DerivedNodeId::new(key(10), p)),
        Ok((24, DidRecalculate::NotRecalculated))
    );
}

#[test]
fn uninterned_argument_is_refused() {
    let mut db = Database::new();
    db.register_derived(key(10), sum(0, vec![])).unwrap();
    assert_eq!(db.resolve(node(10)), Err(EngineError::UnknownParam));
    assert_eq!(
        db.register_derived(key(11), sum(0, vec![NodeKind::Derived(node(10))])),
        Err(EngineError::UnknownParam)
    );
    assert_eq!(execute_memoized_function(&mut db, node(10)), Err(EngineError::UnknownParam));
    db.intern(ParamValue::Unit);
    assert_eq!(db.resolve(node(10)), Ok((0, DidRecalculate::Recalculated)));
}

#[test]
fn resolving_a_dependent_leaves_it_to_its_first_resolve() {
    let mut db = chain();
    assert_eq!(db.resolve(node(10)), Ok((2, DidRecalculate::Recalculated)));
    assert_eq!(db.resolve(node(20)), Ok((0, DidRecalculate::Recalculated)));
}
