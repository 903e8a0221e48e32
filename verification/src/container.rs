//! The runtime container: one packed arena of bytes, slots constructed
//! strictly in the plan's order, rolled back on failure and torn down in
//! exact reverse construction order.
//!
//! A constructor receives a retriever bound to the frozen plan and hands
//! back the packed bytes of its bean; it may obtain a [`Ref`] to any
//! already-built slot.  Because construction follows the topological
//! order, a reference to a declared dependency always lands on a slot
//! built earlier (see
//! [`lemma_dependencies_built_first`](crate::container_spec::lemma_dependencies_built_first)).

use vstd::prelude::*;

use crate::bean::{BeanDefinition, BeanId, BeanQuery, QueryModel};
use crate::container_spec::{
    acyclic, all_queries_resolve, append_error_at, lemma_packed_end_monotone,
    lemma_packed_end_take, lemma_resolved_in_range, packed_end, packed_offset, resolved_id,
    ContainerSpec, ContainerSpecBuilder,
};
use crate::errors::{ContainerError, ErrModel};
use crate::layout::ARENA_LIMIT;
use crate::resolve::resolve_query;

verus! {

/// A non-owning cross-bean reference: the signed byte distance between
/// the place the reference lives at and its target slot, plus the
/// target's type tag.  It stays valid under any arena base address, as
/// long as the arena never moves.
#[derive(PartialEq, Eq, Structural, Debug, Clone, Copy)]
pub struct Ref {
    pub relative: isize,
    pub type_key: u64,
}

impl Ref {
    /// Recomputes the target's address from the reference's own address
    /// at call time: the dereference never stores an absolute address.
    pub fn deref_addr(&self, self_addr: usize) -> (r: usize)
        requires
            0 <= self_addr + self.relative <= usize::MAX,
        ensures
            r == self_addr + self.relative,
    {
        let rel: i128 = self.relative as i128;
        let addr: i128 = self_addr as i128 + rel;
        addr as usize
    }
}

/// An address computed through a [`Ref`] planted at byte position `pos`
/// of an arena based at `base` lands exactly on the target slot's own
/// address, whatever `base` is.
pub proof fn lemma_ref_yields_target_address(cs: &ContainerSpec, rf: Ref, t: int, pos: int, base: int)
    requires
        rf.relative == packed_offset(cs.defs(), t) - pos,
    ensures
        (base + pos) + rf.relative == base + packed_offset(cs.defs(), t),
{
}

/// Rebasing the arena moves every address computed through a [`Ref`] by
/// exactly the difference of the bases: all relative relationships are
/// preserved even though absolute addresses differ.
pub proof fn lemma_rebase_preserves_target(rf: Ref, pos: int, base1: int, base2: int)
    ensures
        ((base1 + pos) + rf.relative) - base1 == ((base2 + pos) + rf.relative) - base2,
{
}

/// Resolves queries and slot positions against a frozen plan on behalf
/// of a constructor.
pub trait BeanRetriever {
    /// The plan the retriever is bound to.
    spec fn plan(&self) -> ContainerSpec;

    /// Resolves a dependency query to its slot.
    fn retrieve(&self, query: &BeanQuery) -> (r: Result<BeanId, ContainerError>)
        ensures
            r matches Ok(id) ==> resolve_query(self.plan().defs(), query@) == Result::<
                int,
                ErrModel,
            >::Ok(id.spec_index()),
            r matches Err(e) ==> resolve_query(self.plan().defs(), query@) == Result::<
                int,
                ErrModel,
            >::Err(e@),
    ;

    /// The byte offset of a slot inside the arena.
    fn retrieve_offset(&self, id: &BeanId) -> (r: usize)
        requires
            self.plan().wf(),
            0 <= id.spec_index() < self.plan().n(),
        ensures
            r == packed_offset(self.plan().defs(), id.spec_index()),
    ;

    /// Builds a [`Ref`] for a reference value that will live at byte
    /// position `pos` of the arena, pointing at whatever slot the query
    /// resolves to.
    fn make_ref(&self, query: &BeanQuery, pos: usize) -> (r: Result<Ref, ContainerError>)
        requires
            self.plan().wf(),
            pos <= ARENA_LIMIT,
        ensures
            r matches Ok(rf) ==> {
                let t = resolved_id(self.plan().defs(), query@);
                &&& resolve_query(self.plan().defs(), query@) == Result::<int, ErrModel>::Ok(t)
                &&& rf.relative == packed_offset(self.plan().defs(), t) - pos
                &&& rf.type_key == query@.type_key()
            },
            r matches Err(e) ==> resolve_query(self.plan().defs(), query@) == Result::<
                int,
                ErrModel,
            >::Err(e@),
    ;
}

/// The retriever handed to constructors while the arena is assembled.
pub struct SpecRetriever<'a> {
    pub spec: &'a ContainerSpec,
}

impl<'a> BeanRetriever for SpecRetriever<'a> {
    open spec fn plan(&self) -> ContainerSpec {
        *self.spec
    }

    fn retrieve(&self, query: &BeanQuery) -> (r: Result<BeanId, ContainerError>) {
        self.spec.query(query)
    }

    fn retrieve_offset(&self, id: &BeanId) -> (r: usize) {
        self.spec.offset(id)
    }

    fn make_ref(&self, query: &BeanQuery, pos: usize) -> (r: Result<Ref, ContainerError>) {
        let target = match self.spec.query(query) {
            Ok(id) => id,
            Err(e) => {
                return Err(e);
            },
        };
        proof {
            lemma_resolved_in_range(self.spec.defs(), query@);
            lemma_offset_in_arena(self.spec.defs(), target.spec_index(), self.spec.n());
        }
        let target_offset = self.spec.offset(&target);
        let relative = (target_offset as i128) - (pos as i128);
        let type_key = match query {
            BeanQuery::OnlyType { type_key, .. } => *type_key,
            BeanQuery::NameAndType { type_key, .. } => *type_key,
        };
        Ok(Ref { relative: relative as isize, type_key })
    }
}

/// Every slot's offset, and its end, lie inside the packed arena.
pub proof fn lemma_offset_in_arena(defs: Seq<crate::bean::DefModel>, i: int, n: int)
    requires
        n == defs.len(),
        0 <= i < n,
        forall|k: int| 0 <= k < n ==> crate::container_spec::def_wf(#[trigger] defs[k]),
    ensures
        0 <= packed_offset(defs, i),
        packed_offset(defs, i) + defs[i].size <= packed_end(defs, n),
{
    crate::container_spec::lemma_packed_end_nonneg(defs, i);
    crate::layout::lemma_align_up_bounds(packed_end(defs, i), defs[i].align as int);
    assert(packed_offset(defs, i) + defs[i].size == packed_end(defs, i + 1));
    lemma_packed_end_monotone(defs, i + 1, n);
}

/// Supplies the container with each bean's construction and teardown.
/// The container calls `construct` once per slot, strictly in the
/// plan's construction order, and `destroy` in exact reverse
/// construction order — on teardown for every built slot, on a
/// construction failure for the already-built prefix.
///
/// The three spec functions are the factory's ghost ledger, and the
/// `ensures` clauses below are obligations on every implementation: the
/// bytes a successful `construct` hands back are the slot's planned
/// value, fixed over the factory's life, and the two logs record every
/// constructor and destructor invocation in order.  The container's own
/// contracts are proved from these obligations alone.
pub trait BeanFactory {
    /// The packed bytes `construct` hands back for slot `id` where it
    /// succeeds.
    spec fn constructed_bytes(&self, id: BeanId) -> Seq<u8>;

    /// The slots whose constructors have been invoked, in invocation
    /// order.
    spec fn construct_log(&self) -> Seq<BeanId>;

    /// The slots whose destructors have run, in the order they ran.
    spec fn destroy_log(&self) -> Seq<BeanId>;

    /// Builds the bean of slot `id`, returning the packed bytes of its
    /// value; the bytes must fill the slot exactly.  An error aborts
    /// assembly.
    fn construct(&mut self, id: BeanId, retriever: &SpecRetriever<'_>) -> (r: Result<
        Vec<u8>,
        String,
    >)
        ensures
            final(self).construct_log() == old(self).construct_log().push(id),
            final(self).destroy_log() == old(self).destroy_log(),
            forall|other: BeanId| #[trigger]
                final(self).constructed_bytes(other) == old(self).constructed_bytes(other),
            r matches Ok(bytes) ==> bytes@ == old(self).constructed_bytes(id),
    ;

    /// Tears down the bean of slot `id`.
    fn destroy(&mut self, id: BeanId)
        ensures
            final(self).destroy_log() == old(self).destroy_log().push(id),
            final(self).construct_log() == old(self).construct_log(),
            forall|other: BeanId| #[trigger]
                final(self).constructed_bytes(other) == old(self).constructed_bytes(other),
    ;
}

/// Byte position `p` lies inside slot `i`'s packed range.
pub open spec fn in_slot(defs: Seq<crate::bean::DefModel>, i: int, p: int) -> bool {
    packed_offset(defs, i) <= p < packed_offset(defs, i) + defs[i].size
}

/// Byte position `p` lies inside some slot's packed range: everything
/// else is padding.
pub open spec fn in_some_slot(defs: Seq<crate::bean::DefModel>, p: int) -> bool {
    exists|i: int| 0 <= i < defs.len() && #[trigger] in_slot(defs, i, p)
}

/// Byte position `p` lies inside the packed range of one of the first
/// `k` slots of the construction order.
pub open spec fn in_built_slot(
    defs: Seq<crate::bean::DefModel>,
    order: Seq<BeanId>,
    k: int,
    p: int,
) -> bool {
    exists|k2: int| 0 <= k2 < k && #[trigger] in_slot(defs, order[k2].spec_index(), p)
}

/// Two distinct slots occupy disjoint byte ranges of the arena.
pub proof fn lemma_distinct_slots_disjoint(defs: Seq<crate::bean::DefModel>, a: int, b: int, p: int)
    requires
        forall|k: int| 0 <= k < defs.len() ==> crate::container_spec::def_wf(#[trigger] defs[k]),
        0 <= a < defs.len(),
        0 <= b < defs.len(),
        a != b,
        in_slot(defs, a, p),
    ensures
        !in_slot(defs, b, p),
{
    if a < b {
        crate::container_spec::lemma_slots_disjoint(defs, a, b);
    } else {
        crate::container_spec::lemma_slots_disjoint(defs, b, a);
    }
}

/// Why assembly stopped: the slot whose constructor failed, the
/// already-built slots that were rolled back (in the order their
/// destructors ran, reverse of construction), and the constructor's own
/// message.
#[derive(Debug)]
pub struct BuildFailure {
    pub failed: BeanId,
    pub rolled_back: Vec<BeanId>,
    pub message: String,
}

/// Destroys the given slots in reverse of the order they appear in,
/// returning the exact order the destructors ran in; the factory's
/// destruction log grows by exactly that order.
fn roll_back<F: BeanFactory>(factory: &mut F, built: Vec<BeanId>) -> (r: Vec<BeanId>)
    ensures
        r@ == built@.reverse(),
        final(factory).destroy_log() == old(factory).destroy_log() + built@.reverse(),
        final(factory).construct_log() == old(factory).construct_log(),
        forall|other: BeanId| #[trigger]
            final(factory).constructed_bytes(other) == old(factory).constructed_bytes(other),
{
    let ghost orig = built@;
    let ghost log0 = factory.destroy_log();
    let mut rest = built;
    let mut rolled: Vec<BeanId> = Vec::new();
    proof {
        assert(factory.destroy_log() =~= log0 + rolled@);
    }
    while rest.len() > 0
        invariant
            rest@ == orig.subrange(0, rest@.len() as int),
            rolled@.len() + rest@.len() == orig.len(),
            forall|p: int|
                0 <= p < rolled@.len() ==> rolled@[p] == orig[orig.len() - 1 - p],
            factory.destroy_log() == log0 + rolled@,
            factory.construct_log() == old(factory).construct_log(),
            forall|other: BeanId| #[trigger]
                factory.constructed_bytes(other) == old(factory).constructed_bytes(other),
        decreases rest@.len(),
    {
        let id = match rest.pop() {
            Some(id) => id,
            None => {
                proof {
                    assert(false);
                }
                BeanId::new(0)
            },
        };
        factory.destroy(id);
        rolled.push(id);
        proof {
            assert(factory.destroy_log() =~= log0 + rolled@);
        }
    }
    proof {
        assert(rolled@ =~= orig.reverse());
    }
    rolled
}

/// The assembled container: the frozen plan and the one fully-built
/// arena.  It owns every bean; teardown happens exactly once, by
/// consuming the container in [`BeanContainer::close`].
#[derive(Debug)]
pub struct BeanContainer {
    pub spec: ContainerSpec,
    pub data: Vec<u8>,
}

impl BeanContainer {
    /// A sound container: a well-formed plan and an arena of exactly the
    /// packed size.
    pub open spec fn wf(&self) -> bool {
        &&& self.spec.wf()
        &&& self.data@.len() == self.spec.total_size
    }

    /// A fresh plan builder.
    pub fn builder() -> (r: ContainerSpecBuilder)
        ensures
            r.wf(),
            r.defs().len() == 0,
    {
        ContainerSpecBuilder::new()
    }

    /// Assembles the container from a frozen plan.
    ///
    /// Every slot's constructor is invoked exactly once, strictly in the
    /// plan's construction order, and its packed bytes land at the
    /// slot's reserved range of the arena; the padding between slots
    /// stays zero.  If any constructor fails (or hands back bytes that
    /// do not fill its slot), assembly stops: no later constructor runs,
    /// the already-built prefix is destroyed in reverse construction
    /// order, and the failure names the slot and that exact rollback
    /// order.
    pub fn build<F: BeanFactory>(spec: ContainerSpec, factory: &mut F) -> (r: Result<
        BeanContainer,
        BuildFailure,
    >)
        requires
            spec.wf(),
        ensures
            forall|other: BeanId| #[trigger]
                final(factory).constructed_bytes(other) == old(factory).constructed_bytes(other),
            r matches Ok(c) ==> {
                &&& c.spec == spec
                &&& c.wf()
                &&& final(factory).construct_log() == old(factory).construct_log()
                    + spec.build_order@
                &&& final(factory).destroy_log() == old(factory).destroy_log()
                &&& forall|k: int|
                    0 <= k < spec.build_order@.len() ==> {
                        let i = (#[trigger] spec.build_order@[k]).spec_index();
                        c.data@.subrange(
                            packed_offset(spec.defs(), i),
                            packed_offset(spec.defs(), i) + spec.defs()[i].size,
                        ) == old(factory).constructed_bytes(spec.build_order@[k])
                    }
                &&& forall|p: int|
                    0 <= p < spec.total_size && !in_some_slot(spec.defs(), p)
                        ==> c.data@[p] == 0
            },
            r matches Err(f) ==> exists|k: int|
                {
                    &&& 0 <= k < spec.build_order@.len()
                    &&& f.failed == spec.build_order@[k]
                    &&& f.rolled_back@ == spec.build_order@.subrange(0, k).reverse()
                    &&& final(factory).construct_log() == old(factory).construct_log()
                        + spec.build_order@.subrange(0, k + 1)
                    &&& final(factory).destroy_log() == old(factory).destroy_log()
                        + f.rolled_back@
                },
    {
        let ghost defs = spec.defs();
        let ghost f0 = *factory;
        let total = spec.size();
        let mut data: Vec<u8> = Vec::new();
        while data.len() < total
            invariant
                data@.len() <= total,
                forall|p: int| 0 <= p < data@.len() ==> data@[p] == 0,
            decreases total - data@.len(),
        {
            data.push(0);
        }

        let n = spec.len();
        let mut built: Vec<BeanId> = Vec::new();
        proof {
            assert(factory.construct_log() =~= f0.construct_log() + built@);
        }
        for k in 0..n
            invariant
                built@ == spec.build_order@.subrange(0, k as int),
                data@.len() == spec.total_size,
                factory.construct_log() == f0.construct_log() + built@,
                factory.destroy_log() == f0.destroy_log(),
                forall|other: BeanId| #[trigger]
                    factory.constructed_bytes(other) == f0.constructed_bytes(other),
                forall|k2: int|
                    0 <= k2 < k ==> {
                        let i = (#[trigger] spec.build_order@[k2]).spec_index();
                        data@.subrange(
                            packed_offset(defs, i),
                            packed_offset(defs, i) + defs[i].size,
                        ) == f0.constructed_bytes(spec.build_order@[k2])
                    },
                forall|p: int|
                    0 <= p < spec.total_size && !in_built_slot(defs, spec.build_order@, k as int, p)
                        ==> data@[p] == 0,
        {
            let id = spec.build_order[k];
            proof {
                assert(spec.order_at(k as int) == id.spec_index());
                assert(0 <= id.spec_index() < spec.n());
            }
            let retriever = SpecRetriever { spec: &spec };
            let outcome = factory.construct(id, &retriever);
            proof {
                assert(factory.construct_log() =~= f0.construct_log() + built@.push(id));
                assert(built@.push(id) =~= spec.build_order@.subrange(0, k as int + 1));
            }
            let idx = id.index();
            let size = spec.definitions[idx].layout.size;
            let offset = spec.offset(&id);
            proof {
                lemma_offset_in_arena(spec.defs(), id.spec_index(), spec.n());
                assert(spec.defs()[id.spec_index()].size == size);
            }
            match outcome {
                Ok(bytes) => {
                    if bytes.len() == size {
                        let ghost data0 = data@;
                        let mut b: usize = 0;
                        while b < size
                            invariant
                                b <= size,
                                data@.len() == spec.total_size,
                                bytes@.len() == size,
                                offset + size <= data@.len(),
                                forall|p: int|
                                    0 <= p < data@.len() && !(offset <= p < offset + b)
                                        ==> data@[p] == data0[p],
                                forall|p: int|
                                    offset <= p < offset + b ==> data@[p] == bytes@[p - offset],
                            decreases size - b,
                        {
                            let value = bytes[b];
                            data.set(offset + b, value);
                            b = b + 1;
                        }
                        built.push(id);
                        proof {
                            assert(built@ =~= spec.build_order@.subrange(0, k as int + 1));
                            let i = id.spec_index();
                            assert(bytes@ == f0.constructed_bytes(id));
                            assert forall|k2: int|
                                0 <= k2 < k + 1 implies ({
                                let i2 = (#[trigger] spec.build_order@[k2]).spec_index();
                                data@.subrange(
                                    packed_offset(defs, i2),
                                    packed_offset(defs, i2) + defs[i2].size,
                                ) == f0.constructed_bytes(spec.build_order@[k2])
                            }) by {
                                let i2 = spec.build_order@[k2].spec_index();
                                assert(0 <= spec.order_at(k2) < spec.n());
                                lemma_offset_in_arena(defs, i2, spec.n());
                                if k2 == k as int {
                                    assert(data@.subrange(offset as int, offset + size)
                                        =~= bytes@);
                                } else {
                                    assert(spec.order_at(k2) != spec.order_at(k as int));
                                    assert forall|p: int|
                                        packed_offset(defs, i2) <= p < packed_offset(defs, i2)
                                            + defs[i2].size implies data@[p] == data0[p] by {
                                        assert(in_slot(defs, i2, p));
                                        lemma_distinct_slots_disjoint(defs, i2, i, p);
                                        assert(!(offset <= p < offset + size));
                                    }
                                    assert(data@.subrange(
                                        packed_offset(defs, i2),
                                        packed_offset(defs, i2) + defs[i2].size,
                                    ) =~= data0.subrange(
                                        packed_offset(defs, i2),
                                        packed_offset(defs, i2) + defs[i2].size,
                                    ));
                                }
                            }
                            assert forall|p: int|
                                0 <= p < spec.total_size && !in_built_slot(
                                    defs,
                                    spec.build_order@,
                                    k as int + 1,
                                    p,
                                ) implies data@[p] == 0 by {
                                assert(!in_slot(defs, i, p));
                                if in_built_slot(defs, spec.build_order@, k as int, p) {
                                    let k2 = choose|k2: int|
                                        0 <= k2 < k && #[trigger] in_slot(
                                            defs,
                                            spec.build_order@[k2].spec_index(),
                                            p,
                                        );
                                    assert(in_built_slot(
                                        defs,
                                        spec.build_order@,
                                        k as int + 1,
                                        p,
                                    ));
                                }
                                assert(data@[p] == data0[p]);
                            }
                        }
                    } else {
                        let rolled_back = roll_back(factory, built);
                        return Err(BuildFailure {
                            failed: id,
                            rolled_back,
                            message: String::new(),
                        });
                    }
                },
                Err(message) => {
                    let rolled_back = roll_back(factory, built);
                    return Err(BuildFailure { failed: id, rolled_back, message });
                },
            }
        }
        proof {
            assert(built@ =~= spec.build_order@);
            assert forall|p: int|
                0 <= p < spec.total_size && !in_some_slot(defs, p) implies data@[p] == 0 by {
                if in_built_slot(defs, spec.build_order@, n as int, p) {
                    let k2 = choose|k2: int|
                        0 <= k2 < n && #[trigger] in_slot(
                            defs,
                            spec.build_order@[k2].spec_index(),
                            p,
                        );
                    assert(0 <= spec.order_at(k2) < spec.n());
                    assert(in_some_slot(defs, p));
                }
            }
        }
        Ok(BeanContainer { spec, data })
    }

    /// The packed bytes of one slot, copied out of the arena.
    pub fn bean_bytes(&self, id: &BeanId) -> (r: Vec<u8>)
        requires
            self.wf(),
            0 <= id.spec_index() < self.spec.n(),
        ensures
            r@ == self.data@.subrange(
                packed_offset(self.spec.defs(), id.spec_index()),
                packed_offset(self.spec.defs(), id.spec_index()) + self.spec.defs()[
                    id.spec_index()
                ].size,
            ),
    {
        proof {
            lemma_offset_in_arena(self.spec.defs(), id.spec_index(), self.spec.n());
        }
        let offset = self.spec.offset(id);
        let idx = id.index();
        let size = self.spec.definitions[idx].layout.size;
        let mut out: Vec<u8> = Vec::new();
        let mut b: usize = 0;
        while b < size
            invariant
                b <= size,
                offset + size <= self.data@.len(),
                out@ == self.data@.subrange(offset as int, offset + b),
            decreases size - b,
        {
            let value = self.data[offset + b];
            out.push(value);
            proof {
                assert(out@ =~= self.data@.subrange(offset as int, offset + b + 1));
            }
            b = b + 1;
        }
        out
    }

    /// Tears the container down, exactly once: every slot's destructor
    /// runs, in exact reverse of the construction order; the returned
    /// list is that order, and the factory's destruction log grows by
    /// exactly it.
    pub fn close<F: BeanFactory>(self, factory: &mut F) -> (r: Vec<BeanId>)
        requires
            self.wf(),
        ensures
            r@ == self.spec.build_order@.reverse(),
            final(factory).destroy_log() == old(factory).destroy_log()
                + self.spec.build_order@.reverse(),
            final(factory).construct_log() == old(factory).construct_log(),
    {
        let BeanContainer { spec, data: _ } = self;
        let n = spec.len();
        let mut all: Vec<BeanId> = Vec::new();
        let mut k: usize = 0;
        while k < n
            invariant
                k <= n,
                n == spec.build_order@.len(),
                all@ == spec.build_order@.subrange(0, k as int),
            decreases n - k,
        {
            let id = spec.build_order[k];
            all.push(id);
            proof {
                assert(all@ =~= spec.build_order@.subrange(0, k as int + 1));
            }
            k = k + 1;
        }
        proof {
            assert(all@ =~= spec.build_order@);
        }
        roll_back(factory, all)
    }
}

/// A frozen plan built in one step from a full descriptor list, with
/// per-type and per-name lookup.
pub struct ContainerInfo {
    pub spec: ContainerSpec,
}

impl ContainerInfo {
    /// Registers every descriptor in order and freezes the plan.
    ///
    /// The first descriptor whose registration fails (a duplicate name,
    /// or a layout past the arithmetic's range) yields exactly the
    /// error `append` gives there; with every descriptor registered, the
    /// result is exactly what freezing the builder gives: the frozen
    /// plan, the first failing query's error, or a loop dependency.
    pub fn new(bean_definitions: Vec<BeanDefinition>) -> (r: Result<ContainerInfo, ContainerError>)
        ensures
            ({
                let defs = crate::resolve::defs_view(bean_definitions@);
                match r {
                    Ok(info) => {
                        &&& info.spec.wf()
                        &&& info.spec.definitions@ == bean_definitions@
                        &&& forall|i: int|
                            0 <= i < defs.len() ==> (#[trigger] append_error_at(defs, i)) is None
                        &&& all_queries_resolve(defs)
                        &&& acyclic(defs)
                    },
                    Err(e) => {
                        ||| (exists|i: int|
                            {
                                &&& 0 <= i < defs.len()
                                &&& #[trigger] append_error_at(defs, i) == Some(e@)
                                &&& forall|i2: int|
                                    0 <= i2 < i ==> (#[trigger] append_error_at(defs, i2)) is None
                            })
                        ||| {
                            &&& forall|i: int|
                                0 <= i < defs.len() ==> (#[trigger] append_error_at(defs, i))
                                    is None
                            &&& (e@ == ErrModel::LoopDependency <==> all_queries_resolve(defs))
                            &&& (e@ == ErrModel::LoopDependency ==> !acyclic(defs))
                            &&& (e@ != ErrModel::LoopDependency ==> exists|i: int, j: int|
                                {
                                    &&& 0 <= i < defs.len()
                                    &&& 0 <= j < defs[i].deps.len()
                                    &&& resolve_query(defs, #[trigger] defs[i].deps[j])
                                        == Result::<int, ErrModel>::Err(e@)
                                    &&& forall|i2: int, j2: int|
                                        0 <= i2 < defs.len() && 0 <= j2 < defs[i2].deps.len()
                                            && (i2 < i || (i2 == i && j2 < j))
                                            ==> crate::resolve::query_resolves(
                                            defs,
                                            #[trigger] defs[i2].deps[j2],
                                        )
                                })
                        }
                    },
                }
            }),
    {
        let ghost orig = bean_definitions@;
        let ghost defs = crate::resolve::defs_view(orig);
        let mut rest = bean_definitions;
        let mut builder = ContainerSpecBuilder::new();
        let ghost n = orig.len() as int;
        while rest.len() > 0
            invariant
                builder.wf(),
                builder.definitions@.len() + rest@.len() == orig.len(),
                builder.definitions@ == orig.subrange(0, builder.definitions@.len() as int),
                rest@ == orig.subrange(builder.definitions@.len() as int, orig.len() as int),
                forall|i2: int|
                    0 <= i2 < builder.definitions@.len() ==> (#[trigger] append_error_at(
                        defs,
                        i2,
                    )) is None,
            decreases rest@.len(),
        {
            let ghost i = builder.definitions@.len() as int;
            let d = rest.remove(0);
            proof {
                assert(d == orig[i]);
                assert(builder.defs() =~= defs.take(i));
                assert(defs[i] == orig[i]@);
                lemma_packed_end_take(defs.take(i).push(orig[i]@), i + 1, i);
                assert(defs.take(i).push(orig[i]@) =~= defs.take(i + 1));
                lemma_packed_end_take(defs, i + 1, i);
                assert(packed_offset(defs.take(i).push(orig[i]@), i) == packed_offset(defs, i));
            }
            match builder.append(d) {
                Ok(_) => {
                    proof {
                        assert(append_error_at(defs, i) is None);
                        assert(rest@ =~= orig.subrange(
                            builder.definitions@.len() as int,
                            orig.len() as int,
                        ));
                    }
                },
                Err(e) => {
                    proof {
                        crate::resolve::lemma_first_name(defs.take(i), defs[i].name, 0);
                        assert(append_error_at(defs, i) == Some(e@));
                    }
                    return Err(e);
                },
            }
        }
        proof {
            assert(builder.definitions@ =~= orig);
            assert(builder.defs() =~= defs);
        }
        match builder.build() {
            Ok(spec) => Ok(ContainerInfo { spec }),
            Err(e) => Err(e),
        }
    }

    /// Looks the unique bean of a type up, exactly as a by-type query
    /// resolves: zero beans of the type is a missing bean, two or more
    /// list every colliding candidate name.
    pub fn find(&self, type_key: u64, type_label: String) -> (r: Result<BeanId, ContainerError>)
        ensures
            ({
                let q = QueryModel::ByType { type_key, type_label: type_label@ };
                match r {
                    Ok(id) => resolve_query(self.spec.defs(), q) == Result::<int, ErrModel>::Ok(
                        id.spec_index(),
                    ),
                    Err(e) => resolve_query(self.spec.defs(), q) == Result::<int, ErrModel>::Err(
                        e@,
                    ),
                }
            }),
    {
        let q = BeanQuery::of(type_key, type_label);
        crate::resolve::find(&self.spec.definitions, &q)
    }

    /// Looks a bean up by name under a required type, exactly as a
    /// by-type-and-name query resolves.
    pub fn find_by_name(&self, type_key: u64, type_label: String, name: String) -> (r: Result<
        BeanId,
        ContainerError,
    >)
        ensures
            ({
                let q = QueryModel::ByName { type_key, type_label: type_label@, name: name@ };
                match r {
                    Ok(id) => resolve_query(self.spec.defs(), q) == Result::<int, ErrModel>::Ok(
                        id.spec_index(),
                    ),
                    Err(e) => resolve_query(self.spec.defs(), q) == Result::<int, ErrModel>::Err(
                        e@,
                    ),
                }
            }),
    {
        let q = BeanQuery::named(type_key, type_label, name);
        crate::resolve::find(&self.spec.definitions, &q)
    }

    /// The signed byte distance from slot `from` to slot `to` inside the
    /// packed arena: what a cross-reference planted at `from`'s own
    /// offset stores.
    pub fn offset_between(&self, from: BeanId, to: BeanId) -> (r: isize)
        requires
            self.spec.wf(),
            0 <= from.spec_index() < self.spec.n(),
            0 <= to.spec_index() < self.spec.n(),
        ensures
            r == packed_offset(self.spec.defs(), to.spec_index()) - packed_offset(
                self.spec.defs(),
                from.spec_index(),
            ),
    {
        proof {
            lemma_offset_in_arena(self.spec.defs(), from.spec_index(), self.spec.n());
            lemma_offset_in_arena(self.spec.defs(), to.spec_index(), self.spec.n());
        }
        let from_offset = self.spec.offset(&from);
        let to_offset = self.spec.offset(&to);
        let diff = (to_offset as i128) - (from_offset as i128);
        diff as isize
    }
}

} // verus!
