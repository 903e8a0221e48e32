//! The error taxonomy of the container.
//!
//! Registration-time errors abort one `append`; plan-time errors abort
//! `build` with no plan produced; a per-slot construction failure aborts
//! assembly after rolling the already-built prefix back.

use vstd::prelude::*;

verus! {

/// Ghost image of a [`ContainerError`].
pub enum ErrModel {
    /// A by-type query matched zero beans of the required type.
    NoBean { type_label: Seq<char> },
    /// A by-type-and-name query found no bean of that name under the
    /// required type.
    NoBeanWithName { type_label: Seq<char>, target_name: Seq<char> },
    /// A by-type query matched more than one bean; every colliding name
    /// is listed.
    TooManyCandidates { type_label: Seq<char>, candidates: Seq<Seq<char>> },
    /// A second descriptor arrived with the same type and the same name.
    DuplicateBeanDefinition { type_label: Seq<char>, name: Seq<char> },
    /// A second descriptor arrived with a name an earlier one of another
    /// type already holds.
    DuplicateBeanName {
        name: Seq<char>,
        type_label: Seq<char>,
        duplicate_type_label: Seq<char>,
    },
    /// The packed arena would outgrow what the layout arithmetic accepts.
    LayoutError,
    /// The dependency graph holds a cycle; no plan is produced.
    LoopDependency,
}

/// Everything that can go wrong while descriptors are registered and the
/// plan is frozen.
#[derive(Debug, Clone)]
pub enum ContainerError {
    /// A by-type query matched zero beans of the required type.
    NoBean { type_label: String },
    /// A by-type-and-name query found no bean of that name under the
    /// required type: the name is absent, or held by a bean of another
    /// type, or no bean of the type exists at all.
    NoBeanWithName { type_label: String, target_name: String },
    /// A by-type query matched more than one bean; every colliding name
    /// is listed.
    TooManyCandidates { type_label: String, candidates: Vec<String> },
    /// A second descriptor arrived with the same type and the same name.
    DuplicateBeanDefinition { type_label: String, name: String },
    /// A second descriptor arrived with a name an earlier one of another
    /// type already holds.
    DuplicateBeanName {
        name: String,
        type_label: String,
        duplicate_type_label: String,
    },
    /// The packed arena would outgrow what the layout arithmetic accepts.
    LayoutError,
    /// The dependency graph holds a cycle; no plan is produced.
    LoopDependency,
}

impl View for ContainerError {
    type V = ErrModel;

    open spec fn view(&self) -> ErrModel {
        match self {
            ContainerError::NoBean { type_label } => ErrModel::NoBean {
                type_label: type_label@,
            },
            ContainerError::NoBeanWithName { type_label, target_name } => {
                ErrModel::NoBeanWithName {
                    type_label: type_label@,
                    target_name: target_name@,
                }
            },
            ContainerError::TooManyCandidates { type_label, candidates } => {
                ErrModel::TooManyCandidates {
                    type_label: type_label@,
                    candidates: candidates@.map_values(|c: String| c@),
                }
            },
            ContainerError::DuplicateBeanDefinition { type_label, name } => {
                ErrModel::DuplicateBeanDefinition {
                    type_label: type_label@,
                    name: name@,
                }
            },
            ContainerError::DuplicateBeanName { name, type_label, duplicate_type_label } => {
                ErrModel::DuplicateBeanName {
                    name: name@,
                    type_label: type_label@,
                    duplicate_type_label: duplicate_type_label@,
                }
            },
            ContainerError::LayoutError => ErrModel::LayoutError,
            ContainerError::LoopDependency => ErrModel::LoopDependency,
        }
    }
}

/// Errors of the surrounding application context: configuration lookups
/// and bean initialisation outside the packed container.
#[derive(Debug, Clone)]
pub enum IocError {
    /// A configuration key could not be fetched; the message is the
    /// underlying lookup error.
    ConfigError(String),
    /// A bean was requested before it was initialised.
    DependNotReady { type_label: String },
    /// Initialisation re-entered a bean that was still being built.
    CircularDependency,
}

} // verus!
