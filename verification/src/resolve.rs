//! Resolution of dependency queries against a descriptor list.
//!
//! All lookups are stated against `Seq<DefModel>`, the ghost image of
//! the registered descriptors, in registration order.  A by-type query
//! resolves iff exactly one descriptor of that type exists; a
//! by-type-and-name query resolves iff a descriptor with exactly that
//! name exists under that type; when it does not — whether the name is
//! absent or held by a bean of another type — the failure names the
//! missing named bean.

use vstd::prelude::*;

use crate::bean::{BeanDefinition, BeanId, BeanQuery, DefModel, QueryModel};
use crate::errors::{ContainerError, ErrModel};

verus! {

/// Ghost image of a descriptor list.
pub open spec fn defs_view(definitions: Seq<BeanDefinition>) -> Seq<DefModel> {
    definitions.map_values(|d: BeanDefinition| d@)
}

/// How many descriptors at or after position `i` have type `k`.
pub open spec fn type_count_from(defs: Seq<DefModel>, k: u64, i: int) -> nat
    decreases defs.len() - i,
{
    if i < 0 || i >= defs.len() {
        0
    } else {
        (if defs[i].type_key == k {
            1nat
        } else {
            0nat
        }) + type_count_from(defs, k, i + 1)
    }
}

/// How many descriptors have type `k`.
pub open spec fn type_count(defs: Seq<DefModel>, k: u64) -> nat {
    type_count_from(defs, k, 0)
}

/// The names of every descriptor of type `k` at or after position `i`,
/// in registration order.
pub open spec fn candidate_names_from(defs: Seq<DefModel>, k: u64, i: int) -> Seq<Seq<char>>
    decreases defs.len() - i,
{
    if i < 0 || i >= defs.len() {
        Seq::empty()
    } else {
        (if defs[i].type_key == k {
            seq![defs[i].name]
        } else {
            Seq::empty()
        }) + candidate_names_from(defs, k, i + 1)
    }
}

/// The names of every descriptor of type `k`, in registration order.
pub open spec fn candidate_names(defs: Seq<DefModel>, k: u64) -> Seq<Seq<char>> {
    candidate_names_from(defs, k, 0)
}

/// The first position at or after `i` holding type `k`, or -1.
pub open spec fn first_type_from(defs: Seq<DefModel>, k: u64, i: int) -> int
    decreases defs.len() - i,
{
    if i < 0 || i >= defs.len() {
        -1
    } else if defs[i].type_key == k {
        i
    } else {
        first_type_from(defs, k, i + 1)
    }
}

/// The first position at or after `i` holding type `k` under name `nm`,
/// or -1.
pub open spec fn first_named_from(defs: Seq<DefModel>, k: u64, nm: Seq<char>, i: int) -> int
    decreases defs.len() - i,
{
    if i < 0 || i >= defs.len() {
        -1
    } else if defs[i].type_key == k && defs[i].name == nm {
        i
    } else {
        first_named_from(defs, k, nm, i + 1)
    }
}

/// The first position at or after `i` whose descriptor is named `nm`
/// (any type), or -1.
pub open spec fn first_name_from(defs: Seq<DefModel>, nm: Seq<char>, i: int) -> int
    decreases defs.len() - i,
{
    if i < 0 || i >= defs.len() {
        -1
    } else if defs[i].name == nm {
        i
    } else {
        first_name_from(defs, nm, i + 1)
    }
}

/// What a query yields against a descriptor list: the resolved slot
/// index, or the exact error.
pub open spec fn resolve_query(defs: Seq<DefModel>, q: QueryModel) -> Result<int, ErrModel> {
    match q {
        QueryModel::ByType { type_key, type_label } => {
            if type_count(defs, type_key) == 0 {
                Err(ErrModel::NoBean { type_label })
            } else if type_count(defs, type_key) > 1 {
                Err(ErrModel::TooManyCandidates {
                    type_label,
                    candidates: candidate_names(defs, type_key),
                })
            } else {
                Ok(first_type_from(defs, type_key, 0))
            }
        },
        QueryModel::ByName { type_key, type_label, name } => {
            if first_named_from(defs, type_key, name, 0) >= 0 {
                Ok(first_named_from(defs, type_key, name, 0))
            } else {
                Err(ErrModel::NoBeanWithName { type_label, target_name: name })
            }
        },
    }
}

/// A query resolves iff `resolve_query` yields a slot index.
pub open spec fn query_resolves(defs: Seq<DefModel>, q: QueryModel) -> bool {
    resolve_query(defs, q) is Ok
}

/// A zero count at or after `i` means no descriptor there has type `k`.
pub proof fn lemma_count_zero(defs: Seq<DefModel>, k: u64, i: int)
    requires
        0 <= i,
    ensures
        type_count_from(defs, k, i) == 0 <==> forall|j: int|
            i <= j < defs.len() ==> defs[j].type_key != k,
    decreases defs.len() - i,
{
    if 0 <= i < defs.len() {
        lemma_count_zero(defs, k, i + 1);
    }
}

/// A positive count at or after `i` puts the first match in range, on a
/// descriptor of type `k`.
pub proof fn lemma_first_type_in_range(defs: Seq<DefModel>, k: u64, i: int)
    requires
        0 <= i,
        type_count_from(defs, k, i) > 0,
    ensures
        i <= first_type_from(defs, k, i) < defs.len(),
        defs[first_type_from(defs, k, i)].type_key == k,
    decreases defs.len() - i,
{
    if i < defs.len() && defs[i].type_key != k {
        lemma_first_type_in_range(defs, k, i + 1);
    }
}

/// A non-negative first named match lies in range and matches both the
/// type and the name; a negative one means nothing there matches.
pub proof fn lemma_first_named(defs: Seq<DefModel>, k: u64, nm: Seq<char>, i: int)
    requires
        0 <= i,
    ensures
        first_named_from(defs, k, nm, i) >= 0 ==> {
            let m = first_named_from(defs, k, nm, i);
            &&& i <= m < defs.len()
            &&& defs[m].type_key == k
            &&& defs[m].name == nm
        },
        first_named_from(defs, k, nm, i) < 0 ==> forall|j: int|
            i <= j < defs.len() ==> !(defs[j].type_key == k && defs[j].name == nm),
    decreases defs.len() - i,
{
    if i < defs.len() && !(defs[i].type_key == k && defs[i].name == nm) {
        lemma_first_named(defs, k, nm, i + 1);
    }
}

/// A non-negative first name match lies in range and carries the name;
/// a negative one means no descriptor there is named `nm`.
pub proof fn lemma_first_name(defs: Seq<DefModel>, nm: Seq<char>, i: int)
    requires
        0 <= i,
    ensures
        first_name_from(defs, nm, i) >= 0 ==> {
            let m = first_name_from(defs, nm, i);
            &&& i <= m < defs.len()
            &&& defs[m].name == nm
        },
        first_name_from(defs, nm, i) < 0 ==> forall|j: int|
            i <= j < defs.len() ==> defs[j].name != nm,
    decreases defs.len() - i,
{
    if i < defs.len() && defs[i].name != nm {
        lemma_first_name(defs, nm, i + 1);
    }
}

/// Resolves one query against the registered descriptors.
///
/// The result is exactly what [`resolve_query`] states: the unique slot
/// of a by-type query, the named slot of a by-name query, or the error
/// naming the type (and, for an ambiguous by-type query, every colliding
/// candidate name in registration order).
pub fn find(definitions: &Vec<BeanDefinition>, query: &BeanQuery) -> (r: Result<
    BeanId,
    ContainerError,
>)
    ensures
        r matches Ok(id) ==> resolve_query(defs_view(definitions@), query@) == Result::<
            int,
            ErrModel,
        >::Ok(id.spec_index()),
        r matches Err(e) ==> resolve_query(defs_view(definitions@), query@) == Result::<
            int,
            ErrModel,
        >::Err(e@),
{
    let ghost defs = defs_view(definitions@);
    match query {
        BeanQuery::OnlyType { type_key, type_label } => {
            let mut count: usize = 0;
            let mut first: usize = 0;
            let n = definitions.len();
            for i in 0..n
                invariant
                    n == definitions.len(),
                    defs == defs_view(definitions@),
                    forall|j: int| 0 <= j < n ==> defs[j] == definitions@[j]@,
                    count + type_count_from(defs, *type_key, i as int) == type_count(
                        defs,
                        *type_key,
                    ),
                    count <= i,
                    count > 0 ==> first == first_type_from(defs, *type_key, 0),
                    count > 0 ==> first < i && defs[first as int].type_key == *type_key,
                    count == 0 ==> first_type_from(defs, *type_key, 0) == first_type_from(
                        defs,
                        *type_key,
                        i as int,
                    ),
            {
                if definitions[i].type_key == *type_key {
                    if count == 0 {
                        first = i;
                    }
                    count = count + 1;
                }
            }
            if count == 0 {
                proof {
                    lemma_count_zero(defs, *type_key, 0);
                }
                Err(ContainerError::NoBean { type_label: type_label.clone() })
            } else if count == 1 {
                Ok(BeanId::new(first))
            } else {
                let mut candidates: Vec<String> = Vec::new();
                for i in 0..n
                    invariant
                        n == definitions.len(),
                        defs == defs_view(definitions@),
                        candidates@.map_values(|c: String| c@) + candidate_names_from(
                            defs,
                            *type_key,
                            i as int,
                        ) == candidate_names(defs, *type_key),
                {
                    if definitions[i].type_key == *type_key {
                        let nm = definitions[i].name.clone();
                        candidates.push(nm);
                        assert(candidates@.map_values(|c: String| c@) =~= candidates@.map_values(
                            |c: String| c@,
                        ).subrange(0, candidates@.len() - 1).push(defs[i as int].name));
                    }
                }
                assert(candidates@.map_values(|c: String| c@) =~= candidate_names(
                    defs,
                    *type_key,
                ));
                Err(ContainerError::TooManyCandidates {
                    type_label: type_label.clone(),
                    candidates,
                })
            }
        },
        BeanQuery::NameAndType { type_key, type_label, name } => {
            let n = definitions.len();
            for i in 0..n
                invariant
                    n == definitions.len(),
                    defs == defs_view(definitions@),
                    forall|j: int| 0 <= j < n ==> defs[j] == definitions@[j]@,
                    first_named_from(defs, *type_key, name@, 0) == first_named_from(
                        defs,
                        *type_key,
                        name@,
                        i as int,
                    ),
            {
                if definitions[i].type_key == *type_key && definitions[i].name == *name {
                    proof {
                        assert(defs[i as int].type_key == *type_key && defs[i as int].name
                            == name@);
                    }
                    return Ok(BeanId::new(i));
                }
            }
            Err(ContainerError::NoBeanWithName {
                type_label: type_label.clone(),
                target_name: name.clone(),
            })
        },
    }
}

} // verus!
