//! A plugin host: loaded plugins are ordered by their declared dependencies
//! into stages, and the stages are run in order.

pub mod dispatch;
pub mod graph;
pub mod index;
pub mod manager;
pub mod plan;
pub mod plugin;
pub mod resolve;

pub use dispatch::Dispatcher;
pub use manager::PluginManager;
pub use plan::plan_stages;
pub use plan::PlanError;
pub use plan::PluginDecl;
pub use plugin::Hello;
pub use plugin::Loader;
pub use plugin::Plugin;
pub use plugin::PluginLoadError;
