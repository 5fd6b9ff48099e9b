//! Verified core of a thesaurus lookup tool.
//!
//! The library covers the three pieces of the pipeline that carry logic:
//! parsing the service's `|`-delimited synonym strings into word/description
//! pairs (`domain`), classifying a decoded response payload into either a
//! list of category groups or a typed service error (`request_handling`),
//! and laying the groups out as a terminal-width-aware grid (`layout`).
//! Fetching, configuration and the interactive shell are unverified callers.

pub mod configuration;
pub mod domain;
pub mod layout;
pub mod request_handling;
pub mod text;
