//! A dependency container that assembles a fixed set of interdependent
//! components ("beans") into one packed arena.
//!
//! Descriptors are accumulated by a builder, which validates name and
//! type uniqueness and computes an alignment-respecting packed layout.
//! Freezing the builder resolves every dependency query to a concrete
//! slot and orders construction by a leveled topological sort, so that a
//! dependency is always built before its dependents.  The container then
//! drives construction in that order, rolls the already-built prefix back
//! on failure, and tears slots down in exact reverse construction order.

#![verifier::loop_isolation(false)]

pub mod bean;
pub mod config;
pub mod container;
pub mod container_spec;
pub mod errors;
pub mod init;
pub mod layout;
pub mod resolve;

pub use bean::BeanDefinition;
pub use bean::BeanId;
pub use bean::BeanInfo;
pub use bean::BeanQuery;
pub use config::AppConfigLoader;
pub use container::BeanContainer;
pub use container::BeanFactory;
pub use container::BeanRetriever;
pub use container::BuildFailure;
pub use container::ContainerInfo;
pub use container::Ref;
pub use container::SpecRetriever;
pub use container_spec::ContainerSpec;
pub use container_spec::ContainerSpecBuilder;
pub use errors::ContainerError;
pub use errors::IocError;
pub use init::DropGuard;
pub use init::InitCtx;
pub use init::InitStep;
pub use layout::BeanLayout;
pub use layout::ARENA_LIMIT;
pub use resolve::find;
