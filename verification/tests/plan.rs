use ioc::{
    BeanDefinition, BeanLayout, BeanQuery, ContainerError, ContainerInfo, ContainerSpec,
    ContainerSpecBuilder,
};

fn layout(size: usize, align: usize) -> BeanLayout {
    BeanLayout::new(size, align).expect("layout accepted")
}

fn def(key: u64, name: &str, size: usize, align: usize, deps: Vec<BeanQuery>) -> BeanDefinition {
    BeanDefinition::new(key, format!("Type{}", key), name.to_string(), layout(size, align), deps)
}

fn by_type(key: u64) -> BeanQuery {
    BeanQuery::of(key, format!("Type{}", key))
}

fn by_name(key: u64, name: &str) -> BeanQuery {
    BeanQuery::named(key, format!("Type{}", key), name.to_string())
}

#[test]
fn lib_it_works() {}

#[test]
fn acyclic_set_builds_with_dependencies_first() {
    // C depends on A and B; registered first, so its slot id is 0.
    let mut builder = ContainerSpec::builder();
    let c = builder
        .append(def(3, "c", 8, 8, vec![by_type(1), by_name(2, "b")]))
        .expect("append c");
    let a = builder.append(def(1, "a", 8, 8, vec![])).expect("append a");
    let b = builder.append(def(2, "b", 8, 8, vec![])).expect("append b");
    let spec = builder.build().expect("acyclic set must build");

    let pos = |id: &ioc::BeanId| spec.order_pos[id.index()];
    assert!(pos(&a) < pos(&c));
    assert!(pos(&b) < pos(&c));
    // A and B share level 0, C sits alone on level 1; ties break by
    // registration order.
    let order: Vec<usize> = spec.build_order.iter().map(|id| id.index()).collect();
    assert_eq!(order, vec![a.index(), b.index(), c.index()]);
    assert_eq!(spec.bean_infos[a.index()].level, 0);
    assert_eq!(spec.bean_infos[b.index()].level, 0);
    assert_eq!(spec.bean_infos[c.index()].level, 1);
}

#[test]
fn duplicate_name_fails_at_second_append_either_order() {
    // Same name under two different types, in both registration orders.
    for flip in [false, true] {
        let mut builder = ContainerSpec::builder();
        let (first, second) = if flip { (5u64, 4u64) } else { (4u64, 5u64) };
        builder.append(def(first, "shared", 8, 8, vec![])).expect("first append passes");
        match builder.append(def(second, "shared", 8, 8, vec![])) {
            Err(ContainerError::DuplicateBeanName { name, .. }) => {
                assert_eq!(name, "shared");
            }
            other => panic!("expected a duplicate-name error, got {:?}", other),
        }
    }
    // The same (type, name) pair twice is a duplicate definition.
    let mut builder = ContainerSpec::builder();
    builder.append(def(4, "shared", 8, 8, vec![])).expect("first append passes");
    match builder.append(def(4, "shared", 8, 8, vec![])) {
        Err(ContainerError::DuplicateBeanDefinition { name, .. }) => {
            assert_eq!(name, "shared");
        }
        other => panic!("expected a duplicate-definition error, got {:?}", other),
    }
}

#[test]
fn unresolved_type_yields_no_bean() {
    let mut builder = ContainerSpec::builder();
    builder.append(def(1, "a", 8, 8, vec![by_type(99)])).expect("append");
    match builder.build() {
        Err(ContainerError::NoBean { type_label }) => {
            assert_eq!(type_label, "Type99");
        }
        other => panic!("expected a missing-bean error, got {:?}", other),
    }
}

#[test]
fn ambiguous_type_lists_every_candidate() {
    let mut builder = ContainerSpec::builder();
    builder.append(def(7, "x", 8, 8, vec![])).expect("append x");
    builder.append(def(7, "y", 8, 8, vec![])).expect("append y");
    builder.append(def(1, "asks", 8, 8, vec![by_type(7)])).expect("append asks");
    match builder.build() {
        Err(ContainerError::TooManyCandidates { type_label, candidates }) => {
            assert_eq!(type_label, "Type7");
            assert_eq!(candidates, vec!["x".to_string(), "y".to_string()]);
        }
        other => panic!("expected an ambiguity error, got {:?}", other),
    }
}

#[test]
fn wrong_name_under_type_yields_no_bean_with_name() {
    let mut builder = ContainerSpec::builder();
    builder.append(def(7, "x", 8, 8, vec![])).expect("append x");
    builder.append(def(1, "asks", 8, 8, vec![by_name(7, "z")])).expect("append asks");
    match builder.build() {
        Err(ContainerError::NoBeanWithName { type_label, target_name }) => {
            assert_eq!(type_label, "Type7");
            assert_eq!(target_name, "z");
        }
        other => panic!("expected a missing-named-bean error, got {:?}", other),
    }
}

#[test]
fn named_query_with_no_beans_of_the_type_yields_no_bean_with_name() {
    let mut builder = ContainerSpec::builder();
    builder.append(def(1, "asks", 8, 8, vec![by_name(7, "z")])).expect("append asks");
    match builder.build() {
        Err(ContainerError::NoBeanWithName { type_label, target_name }) => {
            assert_eq!(type_label, "Type7");
            assert_eq!(target_name, "z");
        }
        other => panic!("expected a missing-named-bean error, got {:?}", other),
    }
}

#[test]
fn three_bean_cycle_yields_loop_dependency_and_no_plan() {
    let mut builder = ContainerSpec::builder();
    builder.append(def(1, "a", 8, 8, vec![by_type(2)])).expect("append a");
    builder.append(def(2, "b", 8, 8, vec![by_type(3)])).expect("append b");
    builder.append(def(3, "c", 8, 8, vec![by_type(1)])).expect("append c");
    // `build` consumes the builder; on an error no plan value exists at
    // all, so nothing partially-ready can be observed afterwards.
    match builder.build() {
        Err(ContainerError::LoopDependency) => {}
        other => panic!("expected a loop-dependency error, got {:?}", other),
    }
}

#[test]
fn bump_packing_respects_alignment_exactly() {
    let mut builder = ContainerSpecBuilder::new();
    let a = builder.append(def(1, "one", 1, 1, vec![])).expect("append");
    let b = builder.append(def(2, "four", 4, 4, vec![])).expect("append");
    let c = builder.append(def(3, "two", 2, 2, vec![])).expect("append");
    let spec = builder.build().expect("build");
    // 1 byte at 0; the 4-byte slot is rounded up to 4; the 2-byte slot
    // follows at 8.
    assert_eq!(spec.offset(&a), 0);
    assert_eq!(spec.offset(&b), 4);
    assert_eq!(spec.offset(&c), 8);
    assert_eq!(spec.size(), 10);
}

#[test]
fn zero_alignment_is_a_layout_error() {
    assert!(BeanLayout::new(8, 0).is_none());
    let mut builder = ContainerSpecBuilder::new();
    let bad = BeanDefinition::new(
        1,
        "Type1".to_string(),
        "a".to_string(),
        BeanLayout { size: 8, align: 0 },
        vec![],
    );
    match builder.append(bad) {
        Err(ContainerError::LayoutError) => {}
        other => panic!("expected a layout error, got {:?}", other),
    }
}

#[test]
fn oversized_arena_is_a_layout_error() {
    let mut builder = ContainerSpecBuilder::new();
    builder
        .append(def(1, "big", ioc::ARENA_LIMIT, 1, vec![]))
        .expect("one slot of the limit size still fits");
    match builder.append(def(2, "straw", 1, 1, vec![])) {
        Err(ContainerError::LayoutError) => {}
        other => panic!("expected a layout error, got {:?}", other),
    }
}

#[test]
fn empty_plan_builds() {
    let builder = ContainerSpec::builder();
    let spec = builder.build().expect("empty set builds");
    assert_eq!(spec.len(), 0);
    assert_eq!(spec.size(), 0);
    assert!(spec.build_order.is_empty());
}

#[test]
fn frozen_plan_answers_queries_without_ambiguity() {
    let mut builder = ContainerSpec::builder();
    let a = builder.append(def(1, "a", 8, 8, vec![])).expect("append a");
    let b = builder.append(def(2, "b", 8, 8, vec![])).expect("append b");
    let spec = builder.build().expect("build");
    assert_eq!(spec.query(&by_type(1)).expect("unique type resolves"), a);
    assert_eq!(spec.query(&by_name(2, "b")).expect("named bean resolves"), b);
    assert!(matches!(
        spec.query(&by_type(9)),
        Err(ContainerError::NoBean { .. })
    ));
    assert!(matches!(
        spec.query(&by_name(1, "b")),
        Err(ContainerError::NoBeanWithName { .. })
    ));
}

#[test]
fn container_info_finds_by_type_and_name() {
    let info = ContainerInfo::new(vec![
        def(1, "a", 8, 8, vec![]),
        def(2, "b", 16, 8, vec![]),
    ])
    .expect("build info");
    let a = info.find(1, "Type1".to_string()).expect("find a");
    let b = info
        .find_by_name(2, "Type2".to_string(), "b".to_string())
        .expect("find b");
    assert_eq!(a.index(), 0);
    assert_eq!(b.index(), 1);
    assert_eq!(info.offset_between(a, b), 8);
    assert_eq!(info.offset_between(b, a), -8);
}
