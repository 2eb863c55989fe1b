//! Resolution of filename suffixes to content-type identifiers, querying and
//! assignment of default handler applications against an eventually-consistent
//! OS handler registry, and the bidirectional map that correlates suffixes
//! with the identifiers they resolve to.
//!
//! The registry is updated asynchronously by the OS, so a single native read
//! or write is not authoritative; callers run a bounded retry loop and feed
//! each native result to this crate, which accumulates handler unions,
//! intersects per-identifier handler lists, validates inputs before any
//! native call, and classifies outcomes.  The native calls, the waiting, and
//! the terminal interaction live outside the library.

pub mod apps;
pub mod bimap;
pub mod config;
pub mod groups;
pub mod names;
pub mod order;
pub mod platform;
pub mod registry;
pub mod resolver;
pub mod text;

pub use apps::{AppScanner, PlistParser};
pub use bimap::BiMap;
pub use config::Config;
pub use groups::{get_suffix_group, list_available_groups, GroupTable};
pub use names::{get_common_suffix, get_friendly_name};
pub use platform::{GenericPlatform, PlatformSpecific};
pub use registry::{get_common_role_handlers, HandlerQuery, RegistryError};
pub use resolver::{build_group_map, resolve, Suffix};
