use ioc::{
    BeanContainer, BeanDefinition, BeanFactory, BeanId, BeanLayout, BeanQuery, BeanRetriever,
    ContainerInfo, ContainerSpec, SpecRetriever,
};

fn layout(size: usize, align: usize) -> BeanLayout {
    BeanLayout::new(size, align).expect("layout accepted")
}

fn def(key: u64, name: &str, size: usize, align: usize, deps: Vec<BeanQuery>) -> BeanDefinition {
    BeanDefinition::new(key, format!("Type{}", key), name.to_string(), layout(size, align), deps)
}

fn by_type(key: u64) -> BeanQuery {
    BeanQuery::of(key, format!("Type{}", key))
}

fn by_name(key: u64, name: &str) -> BeanQuery {
    BeanQuery::named(key, format!("Type{}", key), name.to_string())
}

/// A factory that fills each slot with a per-slot byte pattern, records
/// every construct and destroy call, and can be told to fail at one
/// slot.
struct RecordingFactory {
    sizes: Vec<usize>,
    fail_at: Option<usize>,
    constructed: Vec<usize>,
    destroyed: Vec<usize>,
}

impl RecordingFactory {
    fn new(sizes: Vec<usize>) -> Self {
        RecordingFactory { sizes, fail_at: None, constructed: Vec::new(), destroyed: Vec::new() }
    }
}

impl BeanFactory for RecordingFactory {
    // The ghost ledger below exists only for verification; nothing calls
    // these at run time.
    fn constructed_bytes(&self, _id: BeanId) -> vstd::seq::Seq<u8> {
        unreachable!()
    }

    fn construct_log(&self) -> vstd::seq::Seq<BeanId> {
        unreachable!()
    }

    fn destroy_log(&self) -> vstd::seq::Seq<BeanId> {
        unreachable!()
    }

    fn construct(&mut self, id: BeanId, _retriever: &SpecRetriever<'_>) -> Result<Vec<u8>, String> {
        let ix = id.index();
        self.constructed.push(ix);
        if self.fail_at == Some(ix) {
            return Err("constructor failed".to_string());
        }
        Ok(vec![(ix as u8) + 1; self.sizes[ix]])
    }

    fn destroy(&mut self, id: BeanId) {
        self.destroyed.push(id.index());
    }
}

fn three_bean_spec() -> ContainerSpec {
    // A and B carry no dependencies; C depends on A by type and on B by
    // the name "b".
    let mut builder = ContainerSpec::builder();
    builder.append(def(1, "a", 8, 8, vec![])).expect("append a");
    builder.append(def(2, "b", 8, 8, vec![])).expect("append b");
    builder
        .append(def(3, "c", 24, 8, vec![by_type(1), by_name(2, "b")]))
        .expect("append c");
    builder.build().expect("build")
}

#[test]
fn construction_fills_every_slot_in_order() {
    let spec = three_bean_spec();
    let mut factory = RecordingFactory::new(vec![8, 8, 24]);
    let container = BeanContainer::build(spec, &mut factory).expect("assembly succeeds");
    assert_eq!(factory.constructed, vec![0, 1, 2]);
    assert!(factory.destroyed.is_empty());
    assert_eq!(container.bean_bytes(&BeanId::new(0)), vec![1u8; 8]);
    assert_eq!(container.bean_bytes(&BeanId::new(1)), vec![2u8; 8]);
    assert_eq!(container.bean_bytes(&BeanId::new(2)), vec![3u8; 24]);
}

#[test]
fn ref_dereference_yields_the_target_slots_address() {
    let spec = three_bean_spec();
    let a = spec.query(&by_type(1)).expect("find a");
    let b = spec.query(&by_name(2, "b")).expect("find b");
    let c = spec.query(&by_type(3)).expect("find c");
    // C is built after both A and B.
    assert!(spec.order_pos[a.index()] < spec.order_pos[c.index()]);
    assert!(spec.order_pos[b.index()] < spec.order_pos[c.index()]);

    // A Ref living 8 bytes into C's slot, pointing at A.
    let retriever = SpecRetriever { spec: &spec };
    let pos = spec.offset(&c) + 8;
    let ra = retriever.make_ref(&by_type(1), pos).expect("ref to a");
    let base: usize = 0x1000;
    assert_eq!(ra.deref_addr(base + pos), base + spec.offset(&a));
}

#[test]
fn rebuilding_at_another_base_preserves_relative_references() {
    // Two containers over identical descriptor lists, at different base
    // addresses.
    let spec1 = three_bean_spec();
    let spec2 = three_bean_spec();
    let mut f1 = RecordingFactory::new(vec![8, 8, 24]);
    let mut f2 = RecordingFactory::new(vec![8, 8, 24]);
    let c1 = BeanContainer::build(spec1, &mut f1).expect("first assembly");
    let c2 = BeanContainer::build(spec2, &mut f2).expect("second assembly");

    let a = c1.spec.query(&by_type(1)).expect("find a");
    let c = c1.spec.query(&by_type(3)).expect("find c");
    assert_eq!(c1.spec.offset(&a), c2.spec.offset(&a));
    assert_eq!(c1.spec.size(), c2.spec.size());
    // The whole plan is deterministic: same levels, same order.
    assert_eq!(c1.spec.build_order, c2.spec.build_order);
    for i in 0..c1.spec.bean_infos.len() {
        assert_eq!(c1.spec.bean_infos[i].level, c2.spec.bean_infos[i].level);
    }

    let pos = c1.spec.offset(&c) + 8;
    let r1 = SpecRetriever { spec: &c1.spec }.make_ref(&by_type(1), pos).expect("ref one");
    let r2 = SpecRetriever { spec: &c2.spec }.make_ref(&by_type(1), pos).expect("ref two");
    let base1: usize = 0x10_000;
    let base2: usize = 0x900_000;
    // Absolute addresses differ, the relative relationship does not.
    let t1 = r1.deref_addr(base1 + pos);
    let t2 = r2.deref_addr(base2 + pos);
    assert_ne!(t1, t2);
    assert_eq!(t1 - base1, t2 - base2);
    // Field values read through the reference equal those read through
    // the direct accessor of the referenced slot.
    assert_eq!(c1.bean_bytes(&a), c2.bean_bytes(&a));
}

#[test]
fn teardown_runs_destructors_in_reverse_construction_order() {
    let spec = three_bean_spec();
    let a = spec.query(&by_type(1)).expect("find a");
    let b = spec.query(&by_name(2, "b")).expect("find b");
    let c = spec.query(&by_type(3)).expect("find c");
    let mut factory = RecordingFactory::new(vec![8, 8, 24]);
    let container = BeanContainer::build(spec, &mut factory).expect("assembly");
    let order = container.close(&mut factory);
    assert_eq!(factory.destroyed, vec![c.index(), b.index(), a.index()]);
    assert_eq!(
        order.iter().map(|id| id.index()).collect::<Vec<_>>(),
        vec![c.index(), b.index(), a.index()]
    );
    // C's destructor ran strictly before both A's and B's.
    let at = |ix: usize| factory.destroyed.iter().position(|d| *d == ix).expect("destroyed");
    assert!(at(c.index()) < at(a.index()));
    assert!(at(c.index()) < at(b.index()));
}

#[test]
fn failed_constructor_rolls_back_the_built_prefix_once() {
    let spec = three_bean_spec();
    let mut factory = RecordingFactory::new(vec![8, 8, 24]);
    // The second slot in construction order fails.
    let second = spec.build_order[1];
    factory.fail_at = Some(second.index());
    let failure = match BeanContainer::build(spec, &mut factory) {
        Err(failure) => failure,
        Ok(_) => panic!("assembly must fail"),
    };
    let first = factory.constructed[0];
    assert_eq!(failure.failed, second);
    assert_eq!(failure.message, "constructor failed");
    // The first slot's destructor ran exactly once; the third slot was
    // never built, so no destructor ran for it.
    assert_eq!(factory.destroyed, vec![first]);
    assert_eq!(factory.constructed.len(), 2);
    assert_eq!(
        failure.rolled_back.iter().map(|id| id.index()).collect::<Vec<_>>(),
        vec![first]
    );
}

#[test]
fn wrong_sized_bean_aborts_and_rolls_back() {
    let spec = three_bean_spec();
    struct ShortFactory {
        destroyed: Vec<usize>,
    }
    impl BeanFactory for ShortFactory {
        // The ghost ledger below exists only for verification; nothing
        // calls these at run time.
        fn constructed_bytes(&self, _id: BeanId) -> vstd::seq::Seq<u8> {
            unreachable!()
        }

        fn construct_log(&self) -> vstd::seq::Seq<BeanId> {
            unreachable!()
        }

        fn destroy_log(&self) -> vstd::seq::Seq<BeanId> {
            unreachable!()
        }

        fn construct(
            &mut self,
            id: BeanId,
            _retriever: &SpecRetriever<'_>,
        ) -> Result<Vec<u8>, String> {
            // The third slot wants 24 bytes; hand back too few.
            if id.index() == 2 {
                Ok(vec![0u8; 4])
            } else {
                Ok(vec![0u8; 8])
            }
        }

        fn destroy(&mut self, id: BeanId) {
            self.destroyed.push(id.index());
        }
    }
    let mut factory = ShortFactory { destroyed: Vec::new() };
    let failure = match BeanContainer::build(spec, &mut factory) {
        Err(failure) => failure,
        Ok(_) => panic!("assembly must fail"),
    };
    assert_eq!(failure.failed.index(), 2);
    assert_eq!(factory.destroyed, vec![1, 0]);
}

#[test]
fn container2_it_works() {
    // Three beans mirroring a tuple (A, B, C): A holds one word, B holds
    // a 128-byte buffer, C holds two small fields and two
    // cross-references.
    let info = ContainerInfo::new(vec![
        def(1, "a", 8, 8, vec![]),
        def(2, "haha_b", 128, 8, vec![]),
        def(3, "c", 40, 8, vec![by_type(1), by_name(2, "haha_b")]),
    ])
    .expect("haha");

    let a = info.find(1, "Type1".to_string()).expect("find a");
    let b = info
        .find_by_name(2, "Type2".to_string(), "haha_b".to_string())
        .expect("find b");
    let c = info.find(3, "Type3".to_string()).expect("find c");

    let offset_c_a = info.offset_between(c, a);
    let offset_c_b = info.offset_between(c, b);

    let mut factory = RecordingFactory::new(vec![8, 128, 40]);
    let container = BeanContainer::build(info.spec, &mut factory).expect("haha");
    let _ = container.bean_bytes(&a);
    let _ = container.bean_bytes(&b);
    let _ = (offset_c_a, offset_c_b);
}
