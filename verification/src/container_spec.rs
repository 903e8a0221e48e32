//! The frozen container plan and the builder that accumulates it.
//!
//! [`ContainerSpecBuilder::append`] registers one descriptor at a time,
//! enforcing global name uniqueness and extending the packed arena
//! layout.  [`ContainerSpecBuilder::build`] freezes the plan: it
//! resolves every dependency query to a slot, runs a leveled
//! topological sort, and orders construction by (level, registration
//! order).  A cyclic graph aborts the build with no plan at all.

use vstd::prelude::*;

use crate::bean::{BeanDefinition, BeanId, BeanInfo, BeanQuery, DefModel, QueryModel};
use crate::errors::{ContainerError, ErrModel};
use crate::layout::{align_up, spec_align_up, ARENA_LIMIT};
use crate::resolve::{
    defs_view, find, first_name_from, lemma_first_name, query_resolves, resolve_query,
};

verus! {

/// A descriptor the packing arithmetic accepts.
pub open spec fn def_wf(d: DefModel) -> bool {
    &&& 1 <= d.align <= ARENA_LIMIT
    &&& d.size <= ARENA_LIMIT
}

/// No two descriptors share a name, whatever their types.
pub open spec fn names_unique(defs: Seq<DefModel>) -> bool {
    forall|i: int, j: int|
        0 <= i < j < defs.len() ==> defs[i].name != defs[j].name
}

/// The arena end after packing the first `i` descriptors: each slot
/// starts at the previous end rounded up to its alignment and extends by
/// its size.
pub open spec fn packed_end(defs: Seq<DefModel>, i: int) -> int
    decreases i,
{
    if i <= 0 {
        0
    } else {
        spec_align_up(packed_end(defs, i - 1), defs[i - 1].align as int) + defs[i - 1].size
    }
}

/// The byte offset of slot `i` under bump packing.
pub open spec fn packed_offset(defs: Seq<DefModel>, i: int) -> int {
    spec_align_up(packed_end(defs, i), defs[i].align as int)
}

/// Packing never looks at descriptors past `i`, so a longer list packs
/// its prefix identically.
pub proof fn lemma_packed_end_push(defs: Seq<DefModel>, d: DefModel, i: int)
    requires
        0 <= i <= defs.len(),
    ensures
        packed_end(defs.push(d), i) == packed_end(defs, i),
    decreases i,
{
    if i > 0 {
        lemma_packed_end_push(defs, d, i - 1);
    }
}

/// Slot offsets never decrease: each slot begins at or after the end of
/// the one before it.
pub proof fn lemma_slots_disjoint(defs: Seq<DefModel>, i: int, j: int)
    requires
        forall|k: int| 0 <= k < defs.len() ==> def_wf(#[trigger] defs[k]),
        0 <= i < j < defs.len(),
    ensures
        packed_offset(defs, i) + defs[i].size <= packed_offset(defs, j),
    decreases j - i,
{
    lemma_packed_end_nonneg(defs, j);
    crate::layout::lemma_align_up_bounds(packed_end(defs, j), defs[j].align as int);
    if j == i + 1 {
        lemma_packed_end_nonneg(defs, i);
        crate::layout::lemma_align_up_bounds(packed_end(defs, i), defs[i].align as int);
    } else {
        lemma_slots_disjoint(defs, i, j - 1);
        lemma_packed_end_nonneg(defs, j - 1);
        crate::layout::lemma_align_up_bounds(packed_end(defs, j - 1), defs[j - 1].align as int);
    }
}

/// A packed arena never has a negative end.
pub proof fn lemma_packed_end_nonneg(defs: Seq<DefModel>, i: int)
    requires
        forall|k: int| 0 <= k < defs.len() ==> def_wf(#[trigger] defs[k]),
        i <= defs.len(),
    ensures
        packed_end(defs, i) >= 0,
    decreases i,
{
    if i > 0 {
        lemma_packed_end_nonneg(defs, i - 1);
        crate::layout::lemma_align_up_bounds(packed_end(defs, i - 1), defs[i - 1].align as int);
    }
}

/// Monotonicity of the packed end.
pub proof fn lemma_packed_end_monotone(defs: Seq<DefModel>, i: int, j: int)
    requires
        forall|k: int| 0 <= k < defs.len() ==> def_wf(#[trigger] defs[k]),
        0 <= i <= j <= defs.len(),
    ensures
        packed_end(defs, i) <= packed_end(defs, j),
    decreases j - i,
{
    if i < j {
        lemma_packed_end_monotone(defs, i, j - 1);
        lemma_packed_end_nonneg(defs, j - 1);
        crate::layout::lemma_align_up_bounds(packed_end(defs, j - 1), defs[j - 1].align as int);
    }
}

/// The slot a query resolves to, where it resolves at all.
pub open spec fn resolved_id(defs: Seq<DefModel>, q: QueryModel) -> int {
    match resolve_query(defs, q) {
        Ok(i) => i,
        Err(_) => -1,
    }
}

/// The slot that dependency `j` of descriptor `i` resolves to.
pub open spec fn dep_id(defs: Seq<DefModel>, i: int, j: int) -> int {
    resolved_id(defs, defs[i].deps[j])
}

/// Every dependency query of every descriptor resolves.
pub open spec fn all_queries_resolve(defs: Seq<DefModel>) -> bool {
    forall|i: int, j: int|
        0 <= i < defs.len() && 0 <= j < defs[i].deps.len() ==> query_resolves(
            defs,
            #[trigger] defs[i].deps[j],
        )
}

/// A query that resolves lands on a slot of the list.
pub proof fn lemma_resolved_in_range(defs: Seq<DefModel>, q: QueryModel)
    requires
        query_resolves(defs, q),
    ensures
        0 <= resolved_id(defs, q) < defs.len(),
{
    match q {
        QueryModel::ByType { type_key, .. } => {
            crate::resolve::lemma_first_type_in_range(defs, type_key, 0);
        },
        QueryModel::ByName { type_key, name, .. } => {
            crate::resolve::lemma_first_named(defs, type_key, name, 0);
        },
    }
}

/// `lev` is a topological level assignment: every dependency sits on a
/// strictly smaller level than its dependent.
pub open spec fn respects_levels(defs: Seq<DefModel>, lev: Seq<nat>) -> bool {
    &&& lev.len() == defs.len()
    &&& forall|i: int, j: int|
        0 <= i < defs.len() && 0 <= j < defs[i].deps.len() ==> lev[#[trigger] dep_id(
            defs,
            i,
            j,
        )] < lev[i]
}

/// The resolved dependency graph is acyclic: some level assignment
/// respects it.
pub open spec fn acyclic(defs: Seq<DefModel>) -> bool {
    exists|lev: Seq<nat>| respects_levels(defs, lev)
}

/// Slot `i`'s level (under `levels`) is its exact dependency depth:
/// 0 without dependencies, else one above some dependency's level.
pub open spec fn exact_level_at(defs: Seq<DefModel>, levels: Seq<usize>, i: int) -> bool {
    &&& (defs[i].deps.len() == 0 ==> levels[i] == 0)
    &&& (defs[i].deps.len() > 0 ==> exists|j: int|
        0 <= j < defs[i].deps.len() && (levels[#[trigger] dep_id(defs, i, j)] as int) == (levels[
            i
        ] as int) - 1)
}

/// Slot `i` is ready once every slot it depends on is leveled.
pub open spec fn ready(defs: Seq<DefModel>, leveled: Seq<bool>, i: int) -> bool {
    forall|j: int| 0 <= j < defs[i].deps.len() ==> leveled[#[trigger] dep_id(defs, i, j)]
}

/// How many slots at or after `i` are not yet leveled.
pub open spec fn unleveled_count(s: Seq<bool>, i: int) -> nat
    decreases s.len() - i,
{
    if i < 0 || i >= s.len() {
        0
    } else {
        (if s[i] {
            0nat
        } else {
            1nat
        }) + unleveled_count(s, i + 1)
    }
}

/// A zero unleveled count means everything at or after `i` is leveled.
pub proof fn lemma_unleveled_zero(s: Seq<bool>, i: int)
    requires
        0 <= i,
    ensures
        unleveled_count(s, i) == 0 <==> forall|j: int| i <= j < s.len() ==> s[j],
    decreases s.len() - i,
{
    if i < s.len() {
        lemma_unleveled_zero(s, i + 1);
    }
}

/// Leveling one slot lowers the count at every position before it by
/// exactly one.
pub proof fn lemma_unleveled_set(s: Seq<bool>, k: int, i: int)
    requires
        0 <= i,
        0 <= k < s.len(),
        !s[k],
    ensures
        unleveled_count(s.update(k, true), i) as int == if i <= k {
            unleveled_count(s, i) as int - 1
        } else {
            unleveled_count(s, i) as int
        },
    decreases s.len() - i,
{
    if i < s.len() {
        lemma_unleveled_set(s, k, i + 1);
    }
}

/// `u` is an unleveled slot of minimal level (under `lev`) among the
/// first `m` slots.
pub open spec fn min_unleveled_at(lev: Seq<nat>, leveled: Seq<bool>, m: int, u: int) -> bool {
    &&& 0 <= u < m
    &&& !leveled[u]
    &&& forall|v: int| 0 <= v < m && !(#[trigger] leveled[v]) ==> lev[u] <= lev[v]
}

/// Among the unleveled slots there is one whose level under `lev` is
/// minimal.
pub proof fn lemma_min_unleveled(lev: Seq<nat>, leveled: Seq<bool>, m: int)
    requires
        0 <= m <= leveled.len(),
        lev.len() == leveled.len(),
        exists|i: int| 0 <= i < m && !(#[trigger] leveled[i]),
    ensures
        exists|u: int| #[trigger] min_unleveled_at(lev, leveled, m, u),
    decreases m,
{
    if m == 1 {
        assert(min_unleveled_at(lev, leveled, m, 0));
    } else {
        if exists|i: int| 0 <= i < m - 1 && !(#[trigger] leveled[i]) {
            lemma_min_unleveled(lev, leveled, m - 1);
            let u0 = choose|u: int| #[trigger] min_unleveled_at(lev, leveled, m - 1, u);
            if !leveled[m - 1] && lev[m - 1] < lev[u0] {
                assert(min_unleveled_at(lev, leveled, m, m - 1));
            } else {
                assert(min_unleveled_at(lev, leveled, m, u0));
            }
        } else {
            let w = choose|i: int| 0 <= i < m && !(#[trigger] leveled[i]);
            assert(w == m - 1);
            assert(min_unleveled_at(lev, leveled, m, m - 1));
        }
    }
}

/// When no unleveled slot is ready, the graph has a genuine cycle.
pub proof fn lemma_stuck_means_cycle(defs: Seq<DefModel>, leveled: Seq<bool>)
    requires
        all_queries_resolve(defs),
        leveled.len() == defs.len(),
        exists|i: int| 0 <= i < defs.len() && !(#[trigger] leveled[i]),
        forall|i: int|
            0 <= i < defs.len() && !(#[trigger] leveled[i]) ==> !ready(defs, leveled, i),
    ensures
        !acyclic(defs),
{
    if acyclic(defs) {
        let lev = choose|lev: Seq<nat>| respects_levels(defs, lev);
        lemma_min_unleveled(lev, leveled, defs.len() as int);
        let u = choose|u: int| #[trigger] min_unleveled_at(lev, leveled, defs.len() as int, u);
        assert(!ready(defs, leveled, u));
        let j = choose|j: int| 0 <= j < defs[u].deps.len() && !leveled[#[trigger] dep_id(defs, u, j)];
        lemma_resolved_in_range(defs, defs[u].deps[j]);
        let d = dep_id(defs, u, j);
        assert(lev[d] < lev[u]);
        assert(lev[u] <= lev[d]);
        assert(false);
    }
}

/// Accumulates descriptors before the plan is frozen: registration
/// order, packed offsets so far, and the running arena end.
pub struct ContainerSpecBuilder {
    pub definitions: Vec<BeanDefinition>,
    pub bean_offsets: Vec<usize>,
    pub total_size: usize,
}

impl ContainerSpecBuilder {
    /// The ghost image of the registered descriptors, in registration
    /// order.
    pub open spec fn defs(&self) -> Seq<DefModel> {
        defs_view(self.definitions@)
    }

    /// The builder's running state is exactly what bump packing over the
    /// registered descriptors gives, with globally unique names.
    pub open spec fn wf(&self) -> bool {
        let defs = self.defs();
        &&& self.bean_offsets@.len() == defs.len()
        &&& forall|i: int|
            0 <= i < defs.len() ==> self.bean_offsets@[i] == packed_offset(defs, i)
        &&& self.total_size == packed_end(defs, defs.len() as int)
        &&& self.total_size <= ARENA_LIMIT
        &&& forall|i: int| 0 <= i < defs.len() ==> def_wf(#[trigger] defs[i])
        &&& names_unique(defs)
    }

    /// An empty builder: no descriptors, an empty arena.
    pub fn new() -> (r: Self)
        ensures
            r.wf(),
            r.defs().len() == 0,
    {
        Self { definitions: Vec::new(), bean_offsets: Vec::new(), total_size: 0 }
    }

    /// Registers one descriptor.
    ///
    /// A name held by an earlier descriptor of the same type is a
    /// duplicate definition; one held by an earlier descriptor of
    /// another type is a duplicate name: either way the builder is left
    /// unchanged.  With a fresh name, the slot's offset is the running
    /// arena end rounded up to the descriptor's alignment; a layout the
    /// arithmetic cannot take (or an arena past [`ARENA_LIMIT`]) is a
    /// layout error, again leaving the builder unchanged.
    pub fn append(&mut self, definition: BeanDefinition) -> (r: Result<BeanId, ContainerError>)
        requires
            old(self).wf(),
        ensures
            final(self).wf(),
            ({
                let defs = old(self).defs();
                let d = definition@;
                let clash = first_name_from(defs, d.name, 0);
                match r {
                    Ok(id) => {
                        &&& clash < 0
                        &&& def_wf(d)
                        &&& packed_offset(defs.push(d), defs.len() as int) + d.size <= ARENA_LIMIT
                        &&& id.spec_index() == defs.len()
                        &&& final(self).defs() == defs.push(d)
                        &&& final(self).definitions@ == old(self).definitions@.push(definition)
                    },
                    Err(e) => {
                        &&& *final(self) == *old(self)
                        &&& match e@ {
                            ErrModel::DuplicateBeanDefinition { type_label, name } => {
                                &&& clash >= 0
                                &&& defs[clash].type_key == d.type_key
                                &&& type_label == d.type_label
                                &&& name == d.name
                            },
                            ErrModel::DuplicateBeanName { name, type_label, duplicate_type_label } => {
                                &&& clash >= 0
                                &&& defs[clash].type_key != d.type_key
                                &&& name == d.name
                                &&& type_label == d.type_label
                                &&& duplicate_type_label == defs[clash].type_label
                            },
                            ErrModel::LayoutError => {
                                &&& clash < 0
                                &&& !(def_wf(d) && packed_offset(defs.push(d), defs.len() as int)
                                    + d.size <= ARENA_LIMIT)
                            },
                            _ => false,
                        }
                    },
                }
            }),
    {
        let ghost defs = self.defs();
        let ghost d = definition@;
        let ghost old_offsets = self.bean_offsets@;
        let ghost old_total = self.total_size;
        let n = self.definitions.len();

        // Global name uniqueness, across all types.
        let mut clash: Option<usize> = None;
        for i in 0..n
            invariant
                n == self.definitions.len(),
                defs == self.defs(),
                forall|j: int| 0 <= j < n ==> defs[j] == self.definitions@[j]@,
                match clash {
                    Some(c) => c < i && defs[c as int].name == d.name && first_name_from(
                        defs,
                        d.name,
                        0,
                    ) == c,
                    None => first_name_from(defs, d.name, 0) == first_name_from(
                        defs,
                        d.name,
                        i as int,
                    ),
                },
        {
            if clash.is_none() && self.definitions[i].name == definition.name {
                clash = Some(i);
            }
        }

        if let Some(c) = clash {
            if self.definitions[c].type_key == definition.type_key {
                return Err(ContainerError::DuplicateBeanDefinition {
                    type_label: definition.type_label,
                    name: definition.name,
                });
            } else {
                let duplicate_type_label = self.definitions[c].type_label.clone();
                return Err(ContainerError::DuplicateBeanName {
                    name: definition.name,
                    type_label: definition.type_label,
                    duplicate_type_label,
                });
            }
        }

        // Extend the packed layout.
        if !(1 <= definition.layout.align && definition.layout.align <= ARENA_LIMIT
            && definition.layout.size <= ARENA_LIMIT) {
            return Err(ContainerError::LayoutError);
        }
        let offset = align_up(self.total_size, definition.layout.align);
        if offset > ARENA_LIMIT - definition.layout.size {
            proof {
                lemma_packed_end_push(defs, d, n as int);
            }
            return Err(ContainerError::LayoutError);
        }

        proof {
            lemma_packed_end_push(defs, d, n as int);
            assert(self.defs().push(d) =~= defs_view(self.definitions@.push(definition)));
        }
        let id = BeanId::new(n);
        self.definitions.push(definition);
        self.bean_offsets.push(offset);
        self.total_size = offset + self.definitions[n].layout.size;

        proof {
            let defs2 = self.defs();
            assert(defs2 =~= defs.push(d));
            assert forall|i: int| 0 <= i < defs2.len() implies self.bean_offsets@[i]
                == packed_offset(defs2, i) by {
                lemma_packed_end_push(defs, d, i);
                if i < defs.len() {
                    assert(defs2[i] == defs[i]);
                    assert(self.bean_offsets@[i] == old_offsets[i]);
                    assert(old_offsets[i] == packed_offset(defs, i));
                    assert(packed_offset(defs2, i) == packed_offset(defs, i));
                } else {
                    assert(i == defs.len());
                    assert(defs2[i] == d);
                    assert(packed_end(defs2, i) == old_total);
                    assert(self.bean_offsets@[i] == offset);
                    assert(offset == spec_align_up(old_total as int, d.align as int));
                }
            }
            assert(packed_end(defs2, defs2.len() as int) == offset + d.size);
            assert forall|i: int, j: int| 0 <= i < j < defs2.len() implies defs2[i].name
                != defs2[j].name by {
                if j == defs.len() {
                    lemma_first_name(defs, d.name, 0);
                }
            }
        }
        Ok(id)
    }
}

/// Membership of `i` among the first `k` entries of `s`.
pub open spec fn among(s: Seq<usize>, k: int, i: int) -> bool {
    exists|k2: int| 0 <= k2 < k && (#[trigger] s[k2]) as int == i
}

/// A query error is always one of the three resolution errors, never a
/// cycle or registration error.
pub proof fn lemma_resolve_err_kind(defs: Seq<DefModel>, q: QueryModel)
    ensures
        resolve_query(defs, q) matches Err(e) ==> (e is NoBean || e is TooManyCandidates
            || e is NoBeanWithName),
{
    match q {
        QueryModel::ByType { .. } => {},
        QueryModel::ByName { .. } => {},
    }
}

/// A fully unleveled vector has as many unleveled slots as entries.
pub proof fn lemma_unleveled_full(s: Seq<bool>, i: int)
    requires
        0 <= i <= s.len(),
        forall|j: int| 0 <= j < s.len() ==> !(#[trigger] s[j]),
    ensures
        unleveled_count(s, i) == s.len() - i,
    decreases s.len() - i,
{
    if i < s.len() {
        lemma_unleveled_full(s, i + 1);
    }
}


/// After one pass of the leveled sort — `newly` collected against the
/// pass-start state and then assigned level `lvl` — every slot that is
/// still unleveled has a dependency that is unleveled or was leveled in
/// this very pass.
proof fn lemma_pass_frontier(
    defs: Seq<DefModel>,
    leveled0: Seq<bool>,
    levels0: Seq<usize>,
    leveled: Seq<bool>,
    levels: Seq<usize>,
    newly: Seq<usize>,
    lvl: int,
)
    requires
        leveled0.len() == defs.len(),
        leveled.len() == defs.len(),
        levels.len() == defs.len(),
        forall|i2: int, j2: int|
            0 <= i2 < defs.len() && 0 <= j2 < defs[i2].deps.len() ==> 0 <= #[trigger] dep_id(
                defs,
                i2,
                j2,
            ) < defs.len(),
        forall|i: int|
            0 <= i < defs.len() ==> ((#[trigger] leveled[i]) <==> (leveled0[i] || among(
                newly,
                newly.len() as int,
                i,
            ))),
        forall|i: int|
            0 <= i < defs.len() ==> (#[trigger] levels[i]) as int == (if among(
                newly,
                newly.len() as int,
                i,
            ) {
                lvl
            } else {
                levels0[i] as int
            }),
        forall|i: int|
            0 <= i < defs.len() && !(#[trigger] leveled0[i]) && ready(defs, leveled0, i)
                ==> among(newly, newly.len() as int, i),
    ensures
        forall|i: int|
            0 <= i < defs.len() && !(#[trigger] leveled[i]) ==> exists|j: int|
                0 <= j < defs[i].deps.len() && (!leveled[#[trigger] dep_id(defs, i, j)] || (
                levels[dep_id(defs, i, j)] as int) == lvl),
{
    assert forall|i: int|
        0 <= i < defs.len() && !(#[trigger] leveled[i]) implies exists|j: int|
            0 <= j < defs[i].deps.len() && (!leveled[#[trigger] dep_id(defs, i, j)] || (levels[
                dep_id(defs, i, j)
            ] as int) == lvl) by {
        assert(!leveled0[i]);
        assert(!ready(defs, leveled0, i));
        let j = choose|j: int|
            0 <= j < defs[i].deps.len() && !leveled0[#[trigger] dep_id(defs, i, j)];
        let d = dep_id(defs, i, j);
        if leveled[d] {
            assert(among(newly, newly.len() as int, d));
            assert((levels[d] as int) == lvl);
        }
    }
}

/// After one pass of the leveled sort, every leveled slot's level is its
/// exact dependency depth: 0 without dependencies, else one above some
/// dependency's level.
proof fn lemma_pass_exact(
    defs: Seq<DefModel>,
    leveled0: Seq<bool>,
    levels0: Seq<usize>,
    leveled: Seq<bool>,
    levels: Seq<usize>,
    newly: Seq<usize>,
    lvl: int,
)
    requires
        leveled0.len() == defs.len(),
        levels0.len() == defs.len(),
        leveled.len() == defs.len(),
        levels.len() == defs.len(),
        forall|i2: int, j2: int|
            0 <= i2 < defs.len() && 0 <= j2 < defs[i2].deps.len() ==> 0 <= #[trigger] dep_id(
                defs,
                i2,
                j2,
            ) < defs.len(),
        forall|i: int|
            0 <= i < defs.len() ==> ((#[trigger] leveled[i]) <==> (leveled0[i] || among(
                newly,
                newly.len() as int,
                i,
            ))),
        forall|i: int|
            0 <= i < defs.len() ==> (#[trigger] levels[i]) as int == (if among(
                newly,
                newly.len() as int,
                i,
            ) {
                lvl
            } else {
                levels0[i] as int
            }),
        forall|k: int|
            0 <= k < newly.len() ==> !leveled0[(#[trigger] newly[k]) as int] && ready(
                defs,
                leveled0,
                newly[k] as int,
            ) && (newly[k] as int) < defs.len(),
        forall|i: int|
            0 <= i < defs.len() && #[trigger] leveled0[i] ==> (levels0[i] as int) < lvl,
        forall|i: int, j: int|
            0 <= i < defs.len() && leveled0[i] && 0 <= j < defs[i].deps.len()
                ==> leveled0[#[trigger] dep_id(defs, i, j)],
        lvl > 0 ==> forall|i: int|
            0 <= i < defs.len() && !(#[trigger] leveled0[i]) ==> exists|j: int|
                0 <= j < defs[i].deps.len() && (!leveled0[#[trigger] dep_id(defs, i, j)] || (
                levels0[dep_id(defs, i, j)] as int) == lvl - 1),
        forall|i: int|
            0 <= i < defs.len() && leveled0[i] ==> #[trigger] exact_level_at(defs, levels0, i),
    ensures
        forall|i: int|
            0 <= i < defs.len() && leveled[i] ==> #[trigger] exact_level_at(defs, levels, i),
{
    assert forall|i: int|
        0 <= i < defs.len() && leveled[i] implies #[trigger] exact_level_at(
        defs,
        levels,
        i,
    ) by {
        if leveled0[i] {
            // An earlier pass leveled this slot; nothing about it or its
            // dependencies changed in this one.
            if among(newly, newly.len() as int, i) {
                let k2 = choose|k2: int|
                    0 <= k2 < newly.len() && (#[trigger] newly[k2]) as int == i;
                assert(false);
            }
            assert(exact_level_at(defs, levels0, i));
            if defs[i].deps.len() > 0 {
                let j = choose|j: int|
                    0 <= j < defs[i].deps.len() && (levels0[#[trigger] dep_id(defs, i, j)]
                        as int) == (levels0[i] as int) - 1;
                let d = dep_id(defs, i, j);
                assert(leveled0[d]);
                if among(newly, newly.len() as int, d) {
                    let k2 = choose|k2: int|
                        0 <= k2 < newly.len() && (#[trigger] newly[k2]) as int == d;
                    assert(false);
                }
                assert((levels[d] as int) == (levels[i] as int) - 1);
            }
        } else {
            // This pass leveled it, at level `lvl`; it was ready now and
            // (unless this is the very first pass) not ready one pass
            // earlier, so some dependency sits exactly one level below.
            assert(among(newly, newly.len() as int, i));
            assert(ready(defs, leveled0, i));
            assert((levels[i] as int) == lvl);
            if defs[i].deps.len() == 0 {
                if lvl > 0 {
                    let j = choose|j: int|
                        0 <= j < defs[i].deps.len() && (!leveled0[#[trigger] dep_id(
                            defs,
                            i,
                            j,
                        )] || (levels0[dep_id(defs, i, j)] as int) == lvl - 1);
                    assert(false);
                }
            } else {
                let d0 = dep_id(defs, i, 0);
                assert(leveled0[d0]);
                if lvl == 0 {
                    assert((levels0[d0] as int) < 0);
                    assert(false);
                }
                let j = choose|j: int|
                    0 <= j < defs[i].deps.len() && (!leveled0[#[trigger] dep_id(defs, i, j)] || (
                    levels0[dep_id(defs, i, j)] as int) == lvl - 1);
                let d = dep_id(defs, i, j);
                assert(leveled0[d]);
                assert((levels0[d] as int) == lvl - 1);
                if among(newly, newly.len() as int, d) {
                    let k2 = choose|k2: int|
                        0 <= k2 < newly.len() && (#[trigger] newly[k2]) as int == d;
                    assert(false);
                }
                assert((levels[d] as int) == lvl - 1);
            }
        }
    }
}

/// The frozen, immutable plan: descriptors with their packed offsets,
/// the resolved dependency ids and level of every slot, and the
/// construction order, sorted by (level, registration order).
#[derive(Debug)]
pub struct ContainerSpec {
    pub definitions: Vec<BeanDefinition>,
    pub bean_offsets: Vec<usize>,
    pub total_size: usize,
    pub bean_infos: Vec<BeanInfo>,
    pub build_order: Vec<BeanId>,
    pub order_pos: Vec<usize>,
}

impl ContainerSpec {
    /// The ghost image of the plan's descriptors, in registration order.
    pub open spec fn defs(&self) -> Seq<DefModel> {
        defs_view(self.definitions@)
    }

    /// The number of slots.
    pub open spec fn n(&self) -> int {
        self.definitions@.len() as int
    }

    /// The topological level of slot `i`.
    pub open spec fn level_of(&self, i: int) -> int {
        self.bean_infos@[i].level as int
    }

    /// The slot built at position `a` of the construction order.
    pub open spec fn order_at(&self, a: int) -> int {
        self.build_order@[a].spec_index()
    }

    /// The offsets are exactly what bump packing gives, the arena stays
    /// under [`ARENA_LIMIT`], and names are globally unique.
    pub open spec fn layout_wf(&self) -> bool {
        let defs = self.defs();
        &&& self.bean_offsets@.len() == self.n()
        &&& forall|i: int|
            0 <= i < self.n() ==> self.bean_offsets@[i] == packed_offset(defs, i)
        &&& self.total_size == packed_end(defs, self.n())
        &&& self.total_size <= ARENA_LIMIT
        &&& forall|i: int| 0 <= i < self.n() ==> def_wf(#[trigger] defs[i])
        &&& names_unique(defs)
    }

    /// Every slot's entry carries its own id and exactly the slots its
    /// queries resolve to.
    pub open spec fn resolution_wf(&self) -> bool {
        let defs = self.defs();
        &&& self.bean_infos@.len() == self.n()
        &&& all_queries_resolve(defs)
        &&& forall|i: int|
            0 <= i < self.n() ==> (#[trigger] self.bean_infos@[i]).id.spec_index() == i
        &&& forall|i: int|
            0 <= i < self.n() ==> (#[trigger] self.bean_infos@[i]).dependencies@.len()
                == defs[i].deps.len()
        &&& forall|i: int, j: int|
            0 <= i < self.n() && 0 <= j < defs[i].deps.len()
                ==> (#[trigger] self.bean_infos@[i].dependencies@[j]).spec_index() == dep_id(
                defs,
                i,
                j,
            )
    }

    /// Every dependency sits on a strictly smaller level than its
    /// dependent.
    pub open spec fn levels_wf(&self) -> bool {
        forall|i: int, j: int|
            0 <= i < self.n() && 0 <= j < self.defs()[i].deps.len() ==> self.level_of(
                #[trigger] dep_id(self.defs(), i, j),
            ) < self.level_of(i)
    }

    /// The construction order is a permutation of the slots sorted by
    /// (level, registration order), with `order_pos` its inverse.
    pub open spec fn order_wf(&self) -> bool {
        &&& self.build_order@.len() == self.n()
        &&& self.order_pos@.len() == self.n()
        &&& forall|a: int| 0 <= a < self.n() ==> 0 <= (#[trigger] self.order_at(a)) < self.n()
        &&& forall|a: int, b: int|
            0 <= a < b < self.n() ==> (self.level_of(#[trigger] self.order_at(a)) < self.level_of(
                #[trigger] self.order_at(b),
            ) || (self.level_of(self.order_at(a)) == self.level_of(self.order_at(b))
                && self.order_at(a) < self.order_at(b)))
        &&& forall|i: int|
            0 <= i < self.n() ==> 0 <= (#[trigger] self.order_pos@[i]) < self.n()
                && self.order_at(self.order_pos@[i] as int) == i
    }

    /// The level of every slot, by slot id.
    pub open spec fn spec_levels(&self) -> Seq<usize> {
        self.bean_infos@.map_values(|b: BeanInfo| b.level)
    }

    /// Levels are exactly the dependency depth: a slot with no
    /// dependencies sits on level 0; any other slot sits one level above
    /// the greatest level among its dependencies (together with
    /// [`ContainerSpec::levels_wf`], which puts every dependency strictly
    /// lower).
    pub open spec fn levels_exact(&self) -> bool {
        forall|i: int|
            0 <= i < self.n() ==> #[trigger] exact_level_at(self.defs(), self.spec_levels(), i)
    }

    /// A frozen plan is sound in every part.
    pub open spec fn wf(&self) -> bool {
        &&& self.layout_wf()
        &&& self.resolution_wf()
        &&& self.levels_wf()
        &&& self.levels_exact()
        &&& self.order_wf()
    }

    /// A fresh builder.
    pub fn builder() -> (r: ContainerSpecBuilder)
        ensures
            r.wf(),
            r.defs().len() == 0,
    {
        ContainerSpecBuilder::new()
    }

    /// The byte offset of a slot inside the arena.
    pub fn offset(&self, id: &BeanId) -> (r: usize)
        requires
            self.wf(),
            0 <= id.spec_index() < self.n(),
        ensures
            r == packed_offset(self.defs(), id.spec_index()),
    {
        self.bean_offsets[id.index()]
    }

    /// The size in bytes of the whole arena.
    pub fn size(&self) -> (r: usize)
        ensures
            r == self.total_size,
    {
        self.total_size
    }

    /// The number of slots in the plan.
    pub fn len(&self) -> (r: usize)
        ensures
            r == self.n(),
    {
        self.definitions.len()
    }

    /// Resolves a query against the frozen plan, with the same exact
    /// semantics as [`find`]: a finished plan has no further lookup
    /// ambiguity.
    pub fn query(&self, query: &BeanQuery) -> (r: Result<BeanId, ContainerError>)
        ensures
            r matches Ok(id) ==> resolve_query(self.defs(), query@) == Result::<
                int,
                ErrModel,
            >::Ok(id.spec_index()),
            r matches Err(e) ==> resolve_query(self.defs(), query@) == Result::<
                int,
                ErrModel,
            >::Err(e@),
    {
        find(&self.definitions, query)
    }
}


/// Resolves every dependency query of every descriptor, in registration
/// order, returning each slot's resolved dependency ids; the first
/// failing query aborts with its exact resolution error.
fn resolve_all(definitions: &Vec<BeanDefinition>) -> (r: Result<Vec<Vec<BeanId>>, ContainerError>)
    ensures
        ({
            let defs = defs_view(definitions@);
            match r {
                Ok(deps_ids) => {
                    &&& deps_ids@.len() == defs.len()
                    &&& forall|i: int|
                        0 <= i < defs.len() ==> (#[trigger] deps_ids@[i])@.len()
                            == defs[i].deps.len()
                    &&& forall|i: int, j: int|
                        0 <= i < defs.len() && 0 <= j < defs[i].deps.len()
                            ==> (#[trigger] deps_ids@[i]@[j]).spec_index() == dep_id(defs, i, j)
                    &&& all_queries_resolve(defs)
                },
                Err(e) => {
                    &&& e@ != ErrModel::LoopDependency
                    &&& !all_queries_resolve(defs)
                    &&& exists|i: int, j: int|
                        {
                            &&& 0 <= i < defs.len()
                            &&& 0 <= j < defs[i].deps.len()
                            &&& resolve_query(defs, #[trigger] defs[i].deps[j]) == Result::<
                                int,
                                ErrModel,
                            >::Err(e@)
                            &&& forall|i2: int, j2: int|
                                0 <= i2 < defs.len() && 0 <= j2 < defs[i2].deps.len() && (i2 < i
                                    || (i2 == i && j2 < j)) ==> query_resolves(
                                    defs,
                                    #[trigger] defs[i2].deps[j2],
                                )
                        }
                },
            }
        }),
{
    let ghost defs = defs_view(definitions@);
    let n = definitions.len();
    let mut deps_ids: Vec<Vec<BeanId>> = Vec::new();
    for i in 0..n
        invariant
            deps_ids@.len() == i,
            forall|i2: int|
                0 <= i2 < i ==> (#[trigger] deps_ids@[i2])@.len() == defs[i2].deps.len(),
            forall|i2: int, j2: int|
                0 <= i2 < i && 0 <= j2 < defs[i2].deps.len() ==> (#[trigger] deps_ids@[i2]@[
                    j2
                ]).spec_index() == dep_id(defs, i2, j2),
            forall|i2: int, j2: int|
                0 <= i2 < i && 0 <= j2 < defs[i2].deps.len() ==> query_resolves(
                    defs,
                    #[trigger] defs[i2].deps[j2],
                ),
    {
        proof {
            assert(defs[i as int] == definitions@[i as int]@);
        }
        let m = definitions[i].dependencies.len();
        let mut ids: Vec<BeanId> = Vec::new();
        for j in 0..m
            invariant
                m == defs[i as int].deps.len(),
                ids@.len() == j,
                forall|j2: int|
                    0 <= j2 < j ==> (#[trigger] ids@[j2]).spec_index() == dep_id(
                        defs,
                        i as int,
                        j2,
                    ),
                forall|j2: int|
                    0 <= j2 < j ==> query_resolves(defs, #[trigger] defs[i as int].deps[j2]),
        {
            let q = &definitions[i].dependencies[j];
            proof {
                assert(defs[i as int].deps[j as int] == definitions@[i as int].dependencies@[
                    j as int
                ]@);
            }
            match find(definitions, q) {
                Ok(id) => {
                    ids.push(id);
                },
                Err(e) => {
                    proof {
                        lemma_resolve_err_kind(defs, defs[i as int].deps[j as int]);
                        assert(!all_queries_resolve(defs));
                    }
                    return Err(e);
                },
            }
        }
        deps_ids.push(ids);
    }
    Ok(deps_ids)
}


/// The facts the leveled sort leaves behind, assembled into the frozen
/// plan's well-formedness: the level function is exact, the order is a
/// lex-sorted permutation, and the levels witness acyclicity.
proof fn lemma_plan_assembled(
    cs: &ContainerSpec,
    defs: Seq<DefModel>,
    levels: Seq<usize>,
    order: Seq<BeanId>,
    n: int,
)
    requires
        defs == cs.defs(),
        n == cs.n(),
        cs.layout_wf(),
        cs.resolution_wf(),
        levels.len() == n,
        cs.build_order@ == order,
        order.len() == n,
        cs.order_pos@.len() == n,
        cs.bean_infos@.len() == n,
        forall|i: int| 0 <= i < n ==> (#[trigger] cs.bean_infos@[i]).level == levels[i],
        forall|i: int, j: int|
            0 <= i < n && 0 <= j < defs[i].deps.len() ==> 0 <= #[trigger] dep_id(defs, i, j) < n,
        forall|i: int, j: int|
            0 <= i < n && 0 <= j < defs[i].deps.len() ==> (levels[#[trigger] dep_id(
                defs,
                i,
                j,
            )] as int) < (levels[i] as int),
        forall|i: int| 0 <= i < n ==> #[trigger] exact_level_at(defs, levels, i),
        forall|i: int| 0 <= i < n ==> (#[trigger] levels[i]) == cs.bean_infos@[i].level,
        forall|a: int| 0 <= a < n ==> 0 <= (#[trigger] order[a]).spec_index() < n,
        forall|a: int, b: int|
            0 <= a < b < n ==> ((levels[(#[trigger] order[a]).spec_index()] as int) < (levels[(
            #[trigger] order[b]).spec_index()] as int) || ((levels[order[a].spec_index()] as int)
                == (levels[order[b].spec_index()] as int) && order[a].spec_index()
                < order[b].spec_index())),
        forall|i: int|
            0 <= i < n ==> (#[trigger] cs.order_pos@[i] as int) < n && order[cs.order_pos@[
                i
            ] as int].spec_index() == i,
    ensures
        cs.wf(),
        acyclic(defs),
{
    let lev = Seq::new(n as nat, |i: int| levels[i] as nat);
    assert(respects_levels(defs, lev));
    assert(acyclic(defs));
    assert(cs.levels_wf());
    assert(cs.spec_levels() =~= levels);
    assert forall|i: int|
        0 <= i < cs.n() implies #[trigger] exact_level_at(cs.defs(), cs.spec_levels(), i) by {
        assert(exact_level_at(defs, levels, i));
    }
    assert(cs.levels_exact());
    assert forall|a: int| 0 <= a < n implies 0 <= (#[trigger] cs.order_at(a)) < n by {
        assert(cs.order_at(a) == order[a].spec_index());
    }
    assert forall|a: int, b: int|
        0 <= a < b < n implies (cs.level_of(#[trigger] cs.order_at(a)) < cs.level_of(
        #[trigger] cs.order_at(b),
    ) || (cs.level_of(cs.order_at(a)) == cs.level_of(cs.order_at(b)) && cs.order_at(a)
        < cs.order_at(b))) by {
        assert(0 <= order[a].spec_index() < n);
        assert(0 <= order[b].spec_index() < n);
        assert(cs.level_of(cs.order_at(a)) == levels[order[a].spec_index()] as int);
        assert(cs.level_of(cs.order_at(b)) == levels[order[b].spec_index()] as int);
    }
    assert forall|i: int|
        0 <= i < n implies 0 <= (#[trigger] cs.order_pos@[i]) < n && cs.order_at(
        cs.order_pos@[i] as int,
    ) == i by {
        assert(order[cs.order_pos@[i] as int].spec_index() == i);
    }
    assert(cs.order_wf());
}

impl ContainerSpecBuilder {
    /// Freezes the plan.
    ///
    /// Every dependency query of every descriptor is resolved, in
    /// registration order; the first failing query aborts the build
    /// with its exact resolution error.  With everything resolved, a
    /// leveled topological sort assigns each slot a level; a graph that
    /// admits no level assignment is a loop dependency and produces no
    /// plan at all.  On success the plan is well-formed and the
    /// construction order is sorted by (level, registration order).
    #[verifier::rlimit(100)]
    pub fn build(self) -> (r: Result<ContainerSpec, ContainerError>)
        requires
            self.wf(),
        ensures
            ({
                let defs = self.defs();
                match r {
                    Ok(cs) => {
                        &&& cs.wf()
                        &&& cs.definitions@ == self.definitions@
                        &&& cs.bean_offsets@ == self.bean_offsets@
                        &&& cs.total_size == self.total_size
                        &&& all_queries_resolve(defs)
                        &&& acyclic(defs)
                    },
                    Err(e) => {
                        &&& (e@ == ErrModel::LoopDependency <==> all_queries_resolve(defs))
                        &&& (e@ == ErrModel::LoopDependency ==> !acyclic(defs))
                        &&& (e@ != ErrModel::LoopDependency ==> exists|i: int, j: int|
                            {
                                &&& 0 <= i < defs.len()
                                &&& 0 <= j < defs[i].deps.len()
                                &&& resolve_query(defs, #[trigger] defs[i].deps[j]) == Result::<
                                    int,
                                    ErrModel,
                                >::Err(e@)
                                &&& forall|i2: int, j2: int|
                                    0 <= i2 < defs.len() && 0 <= j2 < defs[i2].deps.len() && (i2
                                        < i || (i2 == i && j2 < j)) ==> query_resolves(
                                        defs,
                                        #[trigger] defs[i2].deps[j2],
                                    )
                            })
                    },
                }
            }),
    {
        let ContainerSpecBuilder { definitions, bean_offsets, total_size } = self;
        let ghost defs = defs_view(definitions@);
        let n = definitions.len();

        // Resolve every dependency query, in registration order.
        let deps_ids = match resolve_all(&definitions) {
            Ok(deps_ids) => deps_ids,
            Err(e) => {
                return Err(e);
            },
        };

        proof {
            assert(all_queries_resolve(defs));
            assert forall|i: int, j: int|
                0 <= i < n && 0 <= j < defs[i].deps.len() implies 0 <= #[trigger] dep_id(
                defs,
                i,
                j,
            ) < n by {
                lemma_resolved_in_range(defs, defs[i].deps[j]);
            }
        }

        // Leveled topological sort.
        let mut leveled: Vec<bool> = Vec::new();
        let mut levels: Vec<usize> = Vec::new();
        let mut order_pos: Vec<usize> = Vec::new();
        for i in 0..n
            invariant
                leveled@.len() == i,
                levels@.len() == i,
                order_pos@.len() == i,
                forall|k: int| 0 <= k < i ==> !(#[trigger] leveled@[k]),
        {
            leveled.push(false);
            levels.push(0);
            order_pos.push(0);
        }
        proof {
            lemma_unleveled_full(leveled@, 0);
        }

        let mut order: Vec<BeanId> = Vec::new();
        let mut remaining: usize = n;
        let mut current_level: usize = 0;

        while remaining > 0
            invariant
                leveled@.len() == n,
                levels@.len() == n,
                order_pos@.len() == n,
                remaining == unleveled_count(leveled@, 0),
                remaining <= n,
                order@.len() == n - remaining,
                current_level <= n - remaining,
                forall|a: int|
                    0 <= a < order@.len() ==> 0 <= (#[trigger] order@[a]).spec_index() < n,
                forall|a: int|
                    0 <= a < order@.len() ==> leveled@[(#[trigger] order@[a]).spec_index()],
                forall|i: int|
                    0 <= i < n && #[trigger] leveled@[i] ==> (order_pos@[i] as int) < order@.len()
                        && order@[order_pos@[i] as int].spec_index() == i,
                forall|a: int, b: int|
                    0 <= a < b < order@.len() ==> ((levels@[(#[trigger] order@[a]).spec_index()]
                        as int) < (levels@[(#[trigger] order@[b]).spec_index()] as int) || ((
                    levels@[order@[a].spec_index()] as int) == (levels@[order@[b].spec_index()]
                        as int) && order@[a].spec_index() < order@[b].spec_index())),
                forall|i: int|
                    0 <= i < n && #[trigger] leveled@[i] ==> (levels@[i] as int) < (
                    current_level as int),
                forall|i: int, j: int|
                    0 <= i < n && leveled@[i] && 0 <= j < defs[i].deps.len()
                        ==> leveled@[#[trigger] dep_id(defs, i, j)] && (levels@[dep_id(
                        defs,
                        i,
                        j,
                    )] as int) < (levels@[i] as int),
                // A slot still unleveled was not ready one pass ago: some
                // dependency is unleveled, or was leveled in the last pass.
                current_level > 0 ==> forall|i: int|
                    0 <= i < n && !(#[trigger] leveled@[i]) ==> exists|j: int|
                        0 <= j < defs[i].deps.len() && (!leveled@[#[trigger] dep_id(defs, i, j)]
                            || (levels@[dep_id(defs, i, j)] as int) == current_level as int - 1),
                // Levels are exact dependency depths so far.
                forall|i: int|
                    0 <= i < n && leveled@[i] ==> #[trigger] exact_level_at(defs, levels@, i),
            decreases remaining,
        {
            // One pass: gather every unleveled slot whose dependencies
            // are all leveled, in registration order.
            let mut newly: Vec<usize> = Vec::new();
            for i in 0..n
                invariant
                    forall|k: int| 0 <= k < newly@.len() ==> ((#[trigger] newly@[k]) as int) < i,
                    forall|k: int|
                        0 <= k < newly@.len() ==> !leveled@[(#[trigger] newly@[k]) as int]
                            && ready(defs, leveled@, newly@[k] as int),
                    forall|k1: int, k2: int|
                        0 <= k1 < k2 < newly@.len() ==> newly@[k1] < newly@[k2],
                    forall|i2: int|
                        0 <= i2 < i && !(#[trigger] leveled@[i2]) && ready(defs, leveled@, i2)
                            ==> among(newly@, newly@.len() as int, i2),
            {
                if !leveled[i] {
                    let dn = deps_ids[i].len();
                    let mut is_ready = true;
                    for j in 0..dn
                        invariant
                            dn == defs[i as int].deps.len(),
                            is_ready <==> (forall|j2: int|
                                0 <= j2 < j ==> leveled@[#[trigger] dep_id(defs, i as int, j2)]),
                    {
                        let did = deps_ids[i][j].index();
                        proof {
                            assert(did as int == dep_id(defs, i as int, j as int));
                        }
                        if !leveled[did] {
                            is_ready = false;
                        }
                    }
                    if is_ready {
                        let ghost prev = newly@;
                        newly.push(i);
                        proof {
                            assert((newly@[prev.len() as int]) as int == i as int);
                            assert(among(newly@, newly@.len() as int, i as int));
                            assert forall|i2: int|
                                0 <= i2 < i && !(#[trigger] leveled@[i2]) && ready(
                                    defs,
                                    leveled@,
                                    i2,
                                ) implies among(newly@, newly@.len() as int, i2) by {
                                assert(among(prev, prev.len() as int, i2));
                                let k2 = choose|k2: int|
                                    0 <= k2 < prev.len() && (#[trigger] prev[k2]) as int == i2;
                                assert((newly@[k2]) as int == i2);
                            }
                        }
                    }
                }
            }
            if newly.len() == 0 {
                proof {
                    lemma_unleveled_zero(leveled@, 0);
                    assert(exists|i: int| 0 <= i < n && !(#[trigger] leveled@[i]));
                    assert forall|i: int|
                        0 <= i < n && !(#[trigger] leveled@[i]) implies !ready(
                        defs,
                        leveled@,
                        i,
                    ) by {
                        if ready(defs, leveled@, i) {
                            assert(among(newly@, newly@.len() as int, i));
                        }
                    }
                    lemma_stuck_means_cycle(defs, leveled@);
                }
                return Err(ContainerError::LoopDependency);
            }

            // Assign the current level to every slot gathered and extend
            // the construction order.
            let ghost leveled0 = leveled@;
            let ghost levels0 = levels@;
            let ghost order0 = order@;
            let ghost pos0 = order_pos@;
            let nn = newly.len();
            for k in 0..nn
                invariant
                    nn == newly@.len(),
                    k <= remaining,
                    leveled@.len() == n,
                    levels@.len() == n,
                    order_pos@.len() == n,
                    order@.len() == order0.len() + k,
                    unleveled_count(leveled@, 0) == remaining - k,
                    forall|i2: int|
                        0 <= i2 < n ==> ((#[trigger] leveled@[i2]) <==> (leveled0[i2] || among(
                            newly@,
                            k as int,
                            i2,
                        ))),
                    forall|i2: int|
                        0 <= i2 < n ==> (#[trigger] levels@[i2]) == (if among(
                            newly@,
                            k as int,
                            i2,
                        ) {
                            current_level
                        } else {
                            levels0[i2]
                        }),
                    forall|i2: int|
                        0 <= i2 < n && !among(newly@, k as int, i2) ==> (#[trigger] order_pos@[i2]) == pos0[i2],
                    forall|k2: int|
                        0 <= k2 < k ==> (#[trigger] order_pos@[newly@[k2] as int]) as int
                            == order0.len() + k2,
                    forall|a: int| 0 <= a < order0.len() ==> (#[trigger] order@[a]) == order0[a],
                    forall|k2: int|
                        0 <= k2 < k ==> ((#[trigger] order@[order0.len() + k2]).spec_index()
                            == newly@[k2] as int),
            {
                let i = newly[k];
                let ghost lbefore = leveled@;
                proof {
                    if among(newly@, k as int, i as int) {
                        let k2 = choose|k2: int|
                            0 <= k2 < k && (#[trigger] newly@[k2]) as int == i as int;
                        assert(newly@[k2] < newly@[k as int]);
                        assert(false);
                    }
                    assert(!leveled@[i as int]);
                }
                order_pos.set(i, order.len());
                order.push(BeanId::new(i));
                leveled.set(i, true);
                levels.set(i, current_level);
                proof {
                    lemma_unleveled_set(lbefore, i as int, 0);
                    assert forall|i2: int| 0 <= i2 < n implies ((#[trigger] leveled@[i2]) <==> (
                    leveled0[i2] || among(newly@, k as int + 1, i2))) by {
                        if i2 == i as int {
                            assert((newly@[k as int]) as int == i2);
                            assert(among(newly@, k as int + 1, i2));
                        } else {
                            if among(newly@, k as int, i2) {
                                let k2 = choose|k2: int|
                                    0 <= k2 < k && (#[trigger] newly@[k2]) as int == i2;
                                assert(among(newly@, k as int + 1, i2));
                            } else {
                                if among(newly@, k as int + 1, i2) {
                                    let k2 = choose|k2: int|
                                        0 <= k2 < k + 1 && (#[trigger] newly@[k2]) as int == i2;
                                    assert(k2 == k as int);
                                    assert(false);
                                }
                            }
                        }
                    }
                    assert forall|i2: int| 0 <= i2 < n implies (#[trigger] levels@[i2]) == (
                    if among(newly@, k as int + 1, i2) {
                        current_level
                    } else {
                        levels0[i2]
                    }) by {
                        if i2 == i as int {
                            assert((newly@[k as int]) as int == i2);
                            assert(among(newly@, k as int + 1, i2));
                        } else {
                            if among(newly@, k as int, i2) {
                                let k2 = choose|k2: int|
                                    0 <= k2 < k && (#[trigger] newly@[k2]) as int == i2;
                                assert(among(newly@, k as int + 1, i2));
                            } else {
                                if among(newly@, k as int + 1, i2) {
                                    let k2 = choose|k2: int|
                                        0 <= k2 < k + 1 && (#[trigger] newly@[k2]) as int == i2;
                                    assert(k2 == k as int);
                                    assert(false);
                                }
                            }
                        }
                    }
                    assert forall|i2: int|
                        0 <= i2 < n && !among(newly@, k as int + 1, i2) implies (
                    #[trigger] order_pos@[i2]) == pos0[i2] by {
                        if among(newly@, k as int, i2) {
                            let k2 = choose|k2: int|
                                0 <= k2 < k && (#[trigger] newly@[k2]) as int == i2;
                            assert(among(newly@, k as int + 1, i2));
                        }
                    }
                }
            }
            proof {
                // Restore the outer invariants for the next pass: a slot
                // leveled in this pass saw all of its dependencies
                // leveled before the pass, on strictly smaller levels.
                assert forall|i2: int, j2: int|
                    0 <= i2 < n && leveled@[i2] && 0 <= j2 < defs[i2].deps.len()
                        implies leveled@[#[trigger] dep_id(defs, i2, j2)] && (levels@[dep_id(
                    defs,
                    i2,
                    j2,
                )] as int) < (levels@[i2] as int) by {
                    let d = dep_id(defs, i2, j2);
                    if leveled0[i2] {
                        assert(leveled0[d]);
                        if among(newly@, nn as int, d) {
                            let k2 = choose|k2: int|
                                0 <= k2 < nn && (#[trigger] newly@[k2]) as int == d;
                            assert(!leveled0[newly@[k2] as int]);
                            assert(false);
                        }
                        if among(newly@, nn as int, i2) {
                            let k2 = choose|k2: int|
                                0 <= k2 < nn && (#[trigger] newly@[k2]) as int == i2;
                            assert(!leveled0[newly@[k2] as int]);
                            assert(false);
                        }
                    } else {
                        assert(among(newly@, nn as int, i2));
                        let k2 = choose|k2: int|
                            0 <= k2 < nn && (#[trigger] newly@[k2]) as int == i2;
                        assert(ready(defs, leveled0, i2));
                        assert(leveled0[d]);
                        if among(newly@, nn as int, d) {
                            let k3 = choose|k3: int|
                                0 <= k3 < nn && (#[trigger] newly@[k3]) as int == d;
                            assert(!leveled0[newly@[k3] as int]);
                            assert(false);
                        }
                    }
                }
            }
            proof {
                assert forall|a: int| 0 <= a < order@.len() implies 0 <= (#[trigger] order@[a]).spec_index() < n && leveled@[order@[a].spec_index()] by {
                    if a < order0.len() {
                        assert(order@[a] == order0[a]);
                        assert(leveled0[order0[a].spec_index()]);
                    } else {
                        let k2 = a - order0.len();
                        assert(order@[order0.len() + k2].spec_index() == newly@[k2] as int);
                        assert(among(newly@, nn as int, newly@[k2] as int));
                    }
                }
                assert forall|a: int, b: int| 0 <= a < b < order@.len() implies ((levels@[(
                #[trigger] order@[a]).spec_index()] as int) < (levels@[(#[trigger] order@[b]).spec_index()] as int) || ((levels@[order@[a].spec_index()] as int) == (levels@[order@[b].spec_index()] as int) && order@[a].spec_index() < order@[b].spec_index())) by {
                    if b < order0.len() {
                        assert(order@[a] == order0[a]);
                        assert(order@[b] == order0[b]);
                        let ia = order0[a].spec_index();
                        let ib = order0[b].spec_index();
                        assert(leveled0[ia] && leveled0[ib]);
                        if among(newly@, nn as int, ia) {
                            let k2 = choose|k2: int|
                                0 <= k2 < nn && (#[trigger] newly@[k2]) as int == ia;
                            assert(false);
                        }
                        if among(newly@, nn as int, ib) {
                            let k2 = choose|k2: int|
                                0 <= k2 < nn && (#[trigger] newly@[k2]) as int == ib;
                            assert(false);
                        }
                    } else if a < order0.len() {
                        assert(order@[a] == order0[a]);
                        let ia = order0[a].spec_index();
                        assert(leveled0[ia]);
                        if among(newly@, nn as int, ia) {
                            let k2 = choose|k2: int|
                                0 <= k2 < nn && (#[trigger] newly@[k2]) as int == ia;
                            assert(false);
                        }
                        let kb = b - order0.len();
                        assert(order@[order0.len() + kb].spec_index() == newly@[kb] as int);
                        assert(among(newly@, nn as int, newly@[kb] as int));
                        assert((levels@[order@[b].spec_index()] as int) == current_level as int);
                        assert((levels@[ia] as int) == (levels0[ia] as int));
                    } else {
                        let ka = a - order0.len();
                        let kb = b - order0.len();
                        assert(order@[order0.len() + ka].spec_index() == newly@[ka] as int);
                        assert(order@[order0.len() + kb].spec_index() == newly@[kb] as int);
                        assert(among(newly@, nn as int, newly@[ka] as int));
                        assert(among(newly@, nn as int, newly@[kb] as int));
                        assert(newly@[ka] < newly@[kb]);
                    }
                }
            }
            remaining = remaining - nn;
            current_level = current_level + 1;
            proof {
                let lvl = current_level as int - 1;
                lemma_pass_frontier(defs, leveled0, levels0, leveled@, levels@, newly@, lvl);
                lemma_pass_exact(defs, leveled0, levels0, leveled@, levels@, newly@, lvl);
            }
        }

        proof {
            lemma_unleveled_zero(leveled@, 0);
        }

        // Assemble the frozen plan.
        let mut bean_infos: Vec<BeanInfo> = Vec::new();
        for i in 0..n
            invariant
                bean_infos@.len() == i,
                forall|i2: int|
                    0 <= i2 < i ==> (#[trigger] bean_infos@[i2]).id.spec_index() == i2,
                forall|i2: int| 0 <= i2 < i ==> (#[trigger] bean_infos@[i2]).level == levels@[i2],
                forall|i2: int|
                    0 <= i2 < i ==> (#[trigger] bean_infos@[i2]).dependencies@ == deps_ids@[i2]@,
        {
            let dependencies = deps_ids[i].clone();
            proof {
                assert forall|k: int|
                    0 <= k < dependencies@.len() implies dependencies@[k] == deps_ids@[i as int]@[k] by {
                    assert(cloned(deps_ids@[i as int]@[k], dependencies@[k]));
                }
                assert(dependencies@ =~= deps_ids@[i as int]@);
            }
            bean_infos.push(BeanInfo { id: BeanId::new(i), dependencies, level: levels[i] });
        }

        let cs = ContainerSpec {
            definitions,
            bean_offsets,
            total_size,
            bean_infos,
            build_order: order,
            order_pos,
        };
        proof {
            assert forall|i: int| 0 <= i < n implies #[trigger] leveled@[i] by {}
            assert(cs.defs() == defs);
            assert(cs.layout_wf());
            assert(cs.resolution_wf());
            assert forall|i: int, j: int|
                0 <= i < n && 0 <= j < defs[i].deps.len() implies (levels@[#[trigger] dep_id(
                defs,
                i,
                j,
            )] as int) < (levels@[i] as int) by {
                assert(leveled@[i]);
            }
            assert forall|i: int|
                0 <= i < n implies #[trigger] exact_level_at(defs, levels@, i) by {
                assert(leveled@[i]);
            }
            assert forall|i: int|
                0 <= i < n implies (#[trigger] cs.order_pos@[i] as int) < n && order@[
                cs.order_pos@[i] as int
            ].spec_index() == i by {
                assert(leveled@[i]);
            }
            lemma_plan_assembled(&cs, defs, levels@, order@, n as int);
        }
        Ok(cs)
    }
}

/// Construction-order soundness: in a well-formed plan, every slot a
/// descriptor depends on stands strictly earlier in the construction
/// order than the descriptor's own slot, so a cross-reference obtained
/// while a slot is built always points at an already-built slot.
pub proof fn lemma_dependencies_built_first(cs: &ContainerSpec, i: int, j: int)
    requires
        cs.wf(),
        0 <= i < cs.n(),
        0 <= j < cs.defs()[i].deps.len(),
    ensures
        0 <= dep_id(cs.defs(), i, j) < cs.n(),
        cs.order_pos@[dep_id(cs.defs(), i, j)] < cs.order_pos@[i],
{
    let d = dep_id(cs.defs(), i, j);
    lemma_resolved_in_range(cs.defs(), cs.defs()[i].deps[j]);
    assert(cs.level_of(d) < cs.level_of(i));
    let a = cs.order_pos@[d] as int;
    let b = cs.order_pos@[i] as int;
    assert(cs.order_at(a) == d && cs.order_at(b) == i);
    if a == b {
        assert(false);
    }
    if a > b {
        assert(cs.level_of(cs.order_at(b)) < cs.level_of(cs.order_at(a)) || (cs.level_of(
            cs.order_at(b),
        ) == cs.level_of(cs.order_at(a)) && cs.order_at(b) < cs.order_at(a)));
        assert(false);
    }
}

/// Two well-formed plans over identical descriptor lists lay their
/// arenas out identically: every slot offset and the total size agree,
/// whatever base address each arena later lives at.
pub proof fn lemma_identical_defs_identical_layout(a: &ContainerSpec, b: &ContainerSpec)
    requires
        a.wf(),
        b.wf(),
        a.defs() == b.defs(),
    ensures
        a.bean_offsets@ == b.bean_offsets@,
        a.total_size == b.total_size,
{
    assert(a.defs().len() == a.definitions@.len());
    assert(b.defs().len() == b.definitions@.len());
    assert(a.n() == b.n());
    assert forall|i: int| 0 <= i < a.n() implies a.bean_offsets@[i] == b.bean_offsets@[i] by {
        assert(a.bean_offsets@[i] == packed_offset(a.defs(), i));
        assert(b.bean_offsets@[i] == packed_offset(b.defs(), i));
    }
    assert(a.bean_offsets@ =~= b.bean_offsets@);
}


/// Two well-formed plans over identical descriptor lists agree on every
/// level up to `k`: the exact level function is unique.
proof fn lemma_levels_agree_upto(a: &ContainerSpec, b: &ContainerSpec, k: int)
    requires
        a.wf(),
        b.wf(),
        a.defs() == b.defs(),
        k >= 0,
    ensures
        forall|i: int|
            0 <= i < a.n() && #[trigger] a.level_of(i) <= k ==> a.level_of(i) == b.level_of(i),
    decreases k,
{
    if k > 0 {
        lemma_levels_agree_upto(a, b, k - 1);
    }
    let defs = a.defs();
    assert forall|i: int|
        0 <= i < a.n() && #[trigger] a.level_of(i) <= k implies a.level_of(i) == b.level_of(
        i,
    ) by {
        assert(exact_level_at(defs, a.spec_levels(), i));
        assert(exact_level_at(defs, b.spec_levels(), i));
        assert(a.spec_levels()[i] as int == a.level_of(i));
        assert(b.spec_levels()[i] as int == b.level_of(i));
        if defs[i].deps.len() > 0 {
            lemma_resolved_in_range(defs, defs[i].deps[0]);
            let d0 = dep_id(defs, i, 0);
            // Levels sit strictly above their dependencies' levels, so a
            // slot with dependencies never sits on level 0, and the
            // recursion below stays within `k - 1`.
            assert(a.level_of(d0) < a.level_of(i));
            assert(a.level_of(i) > 0);
            let ja = choose|j: int|
                0 <= j < defs[i].deps.len() && (a.spec_levels()[#[trigger] dep_id(defs, i, j)]
                    as int) == (a.spec_levels()[i] as int) - 1;
            let da = dep_id(defs, i, ja);
            lemma_resolved_in_range(defs, defs[i].deps[ja]);
            assert(a.spec_levels()[da] as int == a.level_of(da));
            assert(a.level_of(da) <= k - 1);
            assert(b.level_of(da) == a.level_of(da));
            assert(b.level_of(i) > b.level_of(da));
            let jb = choose|j: int|
                0 <= j < defs[i].deps.len() && (b.spec_levels()[#[trigger] dep_id(defs, i, j)]
                    as int) == (b.spec_levels()[i] as int) - 1;
            let db = dep_id(defs, i, jb);
            lemma_resolved_in_range(defs, defs[i].deps[jb]);
            assert(b.spec_levels()[db] as int == b.level_of(db));
            assert(a.level_of(db) < a.level_of(i));
            assert(a.level_of(db) <= k - 1);
            assert(b.level_of(db) == a.level_of(db));
            assert(b.level_of(i) - 1 <= a.level_of(i) - 1);
        }
    }
}

/// With levels already known equal, the two construction orders agree on
/// every position before `p`.
proof fn lemma_order_prefix(a: &ContainerSpec, b: &ContainerSpec, p: int)
    requires
        a.wf(),
        b.wf(),
        a.defs() == b.defs(),
        forall|i: int| 0 <= i < a.n() ==> #[trigger] a.level_of(i) == b.level_of(i),
        0 <= p <= a.n(),
    ensures
        forall|q: int| 0 <= q < p ==> #[trigger] a.order_at(q) == b.order_at(q),
    decreases p,
{
    if p > 0 {
        lemma_order_prefix(a, b, p - 1);
        let n = a.n();
        assert(a.defs().len() == a.definitions@.len());
        assert(b.defs().len() == b.definitions@.len());
        assert(b.n() == n);
        let q = p - 1;
        let x = a.order_at(q);
        let y = b.order_at(q);
        assert(0 <= x < n && 0 <= y < n);
        if x != y {
            let qb = b.order_pos@[x] as int;
            assert(b.order_at(qb) == x);
            if qb < q {
                assert(a.order_at(qb) == x);
                assert(false);
            }
            if qb == q {
                assert(false);
            }
            let qa = a.order_pos@[y] as int;
            assert(a.order_at(qa) == y);
            if qa < q {
                assert(b.order_at(qa) == y);
                assert(false);
            }
            if qa == q {
                assert(false);
            }
            // x and y each come strictly later in the other plan's order,
            // so each key is lexicographically below the other.
            assert(a.level_of(x) < a.level_of(y) || (a.level_of(x) == a.level_of(y) && x < y));
            assert(b.level_of(y) < b.level_of(x) || (b.level_of(y) == b.level_of(x) && y < x));
            assert(false);
        }
    }
}

/// Two well-formed plans over identical descriptor lists are identical
/// in every derived part: the same slot offsets and total size, the same
/// level for every slot, and the same construction order.  Rebuilding an
/// identical descriptor set — at whatever base address — reproduces the
/// plan exactly.
pub proof fn lemma_identical_defs_identical_plan(a: &ContainerSpec, b: &ContainerSpec)
    requires
        a.wf(),
        b.wf(),
        a.defs() == b.defs(),
    ensures
        a.bean_offsets@ == b.bean_offsets@,
        a.total_size == b.total_size,
        forall|i: int| 0 <= i < a.n() ==> #[trigger] a.level_of(i) == b.level_of(i),
        a.build_order@ == b.build_order@,
{
    lemma_identical_defs_identical_layout(a, b);
    assert forall|i: int|
        0 <= i < a.n() implies #[trigger] a.level_of(i) == b.level_of(i) by {
        assert(a.level_of(i) >= 0);
        lemma_levels_agree_upto(a, b, a.level_of(i));
    }
    lemma_order_prefix(a, b, a.n());
    assert forall|q: int|
        0 <= q < a.n() implies a.build_order@[q] == b.build_order@[q] by {
        assert(a.order_at(q) == b.order_at(q));
        assert(a.build_order@[q].id == b.build_order@[q].id);
    }
    assert(a.build_order@ =~= b.build_order@);
}

/// Packing reads only the descriptors before `i`, so a prefix of the
/// list packs identically to the whole.
pub proof fn lemma_packed_end_take(defs: Seq<DefModel>, m: int, i: int)
    requires
        0 <= i <= m <= defs.len(),
    ensures
        packed_end(defs.take(m), i) == packed_end(defs, i),
    decreases i,
{
    if i > 0 {
        lemma_packed_end_take(defs, m, i - 1);
    }
}

/// What registration yields at step `i` of a descriptor list, after the
/// first `i` descriptors went in: the exact registration error, or
/// nothing.
pub open spec fn append_error_at(defs: Seq<DefModel>, i: int) -> Option<ErrModel> {
    let d = defs[i];
    let clash = first_name_from(defs.take(i), d.name, 0);
    if clash >= 0 {
        if defs[clash].type_key == d.type_key {
            Some(ErrModel::DuplicateBeanDefinition { type_label: d.type_label, name: d.name })
        } else {
            Some(
                ErrModel::DuplicateBeanName {
                    name: d.name,
                    type_label: d.type_label,
                    duplicate_type_label: defs[clash].type_label,
                },
            )
        }
    } else if !(def_wf(d) && packed_offset(defs, i) + d.size <= ARENA_LIMIT) {
        Some(ErrModel::LayoutError)
    } else {
        None
    }
}

} // verus!