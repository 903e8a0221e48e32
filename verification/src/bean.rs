//! Bean descriptors and the queries that bind them together.
//!
//! A bean is identified inside one container by a [`BeanId`], a slot
//! index handed out in registration order.  A [`BeanDefinition`]
//! describes one bean before anything is built: a process-unique type
//! key, a globally unique display name, its memory layout and the
//! dependency queries its constructor will make.

use vstd::prelude::*;

use crate::layout::BeanLayout;

verus! {

/// A slot index, unique within one container; never stable across
/// rebuilds.
#[derive(PartialEq, Eq, Structural, Hash, Debug, Clone, Copy)]
pub struct BeanId {
    pub id: usize,
}

impl BeanId {
    /// Wraps a raw slot index.
    pub fn new(value: usize) -> (r: Self)
        ensures
            r.spec_index() == value,
    {
        Self { id: value }
    }

    /// The raw slot index.
    pub fn index(&self) -> (r: usize)
        ensures
            r == self.spec_index(),
    {
        self.id
    }

    /// The slot index this id stands for.
    pub open spec fn spec_index(self) -> int {
        self.id as int
    }
}

/// Ghost image of a dependency query.
pub enum QueryModel {
    /// Resolves iff exactly one bean of the type exists.
    ByType { type_key: u64, type_label: Seq<char> },
    /// Resolves iff a bean with exactly this name exists and its type
    /// matches.
    ByName { type_key: u64, type_label: Seq<char>, name: Seq<char> },
}

impl QueryModel {
    /// The type key the query asks for.
    pub open spec fn type_key(self) -> u64 {
        match self {
            QueryModel::ByType { type_key, .. } => type_key,
            QueryModel::ByName { type_key, .. } => type_key,
        }
    }
}

/// A dependency query: either any bean of a type, or the bean of a type
/// under an exact name.
#[derive(Debug, Clone)]
pub enum BeanQuery {
    /// Resolves iff exactly one bean of this type exists.
    OnlyType { type_key: u64, type_label: String },
    /// Resolves iff a bean with exactly this name exists and its type
    /// matches.
    NameAndType { type_key: u64, type_label: String, name: String },
}

impl View for BeanQuery {
    type V = QueryModel;

    open spec fn view(&self) -> QueryModel {
        match self {
            BeanQuery::OnlyType { type_key, type_label } => QueryModel::ByType {
                type_key: *type_key,
                type_label: type_label@,
            },
            BeanQuery::NameAndType { type_key, type_label, name } => QueryModel::ByName {
                type_key: *type_key,
                type_label: type_label@,
                name: name@,
            },
        }
    }
}

impl BeanQuery {
    /// A by-type query.
    pub fn of(type_key: u64, type_label: String) -> (r: BeanQuery)
        ensures
            r@ == (QueryModel::ByType { type_key, type_label: type_label@ }),
    {
        BeanQuery::OnlyType { type_key, type_label }
    }

    /// A by-type-and-name query.
    pub fn named(type_key: u64, type_label: String, name: String) -> (r: BeanQuery)
        ensures
            r@ == (QueryModel::ByName { type_key, type_label: type_label@, name: name@ }),
    {
        BeanQuery::NameAndType { type_key, type_label, name }
    }
}

/// Ghost image of a bean definition.
pub struct DefModel {
    pub type_key: u64,
    pub type_label: Seq<char>,
    pub name: Seq<char>,
    pub size: nat,
    pub align: nat,
    pub deps: Seq<QueryModel>,
}

/// Everything the container needs to know about one bean before any
/// construction: type identity, unique name, memory layout and the
/// dependency queries to resolve.
#[derive(Debug, Clone)]
pub struct BeanDefinition {
    pub type_key: u64,
    pub type_label: String,
    pub name: String,
    pub layout: BeanLayout,
    pub dependencies: Vec<BeanQuery>,
}

impl View for BeanDefinition {
    type V = DefModel;

    open spec fn view(&self) -> DefModel {
        DefModel {
            type_key: self.type_key,
            type_label: self.type_label@,
            name: self.name@,
            size: self.layout.size as nat,
            align: self.layout.align as nat,
            deps: self.dependencies@.map_values(|q: BeanQuery| q@),
        }
    }
}

impl BeanDefinition {
    /// Packs the raw parts of a definition.
    pub fn new(
        type_key: u64,
        type_label: String,
        name: String,
        layout: BeanLayout,
        dependencies: Vec<BeanQuery>,
    ) -> (r: BeanDefinition)
        ensures
            r@.type_key == type_key,
            r@.type_label == type_label@,
            r@.name == name@,
            r@.size == layout.size,
            r@.align == layout.align,
            r@.deps == dependencies@.map_values(|q: BeanQuery| q@),
            r.layout == layout,
    {
        BeanDefinition { type_key, type_label, name, layout, dependencies }
    }
}

/// The resolved, leveled form of one bean inside a frozen plan: its
/// slot id, the slots it depends on, and its topological level.
#[derive(Debug, Clone)]
pub struct BeanInfo {
    pub id: BeanId,
    pub dependencies: Vec<BeanId>,
    pub level: usize,
}

} // verus!
