//! Resolves a slash-delimited location against a tree of route patterns.
//!
//! [`Path`] and [`Route`] are read from text by one grammar ([`Parser`]);
//! paths compose by [`Path::concat`]; a route matches a path by
//! [`Route::matches`]; and a [`Router`] decides, on every location change,
//! which route's view to show, without building the same view twice in a row.

use vstd::prelude::*;

pub mod params;
pub mod parser;
pub mod path;
pub mod route;
pub mod router;
pub mod segment;

pub use params::Params;
pub use parser::{GrammarError, Parser};
pub use path::{Path, PathModel};
pub use route::{Route, RouteMatch};
pub use router::{Context, Navigation, NavigationKind, Outcome, RootRegistry, Router, UsageError};
pub use segment::{Segment, SegmentModel, WildcardKind};
