//! Keeps a declarative map of connections applied to a JACK graph.
//!
//! This is the verified part: everything that decides. Files are read, and the server is spoken
//! to, by the program around it.
//!
//!   * [`config`] loads a map from TOML files, with [`paths`] for the files that it pulls in,
//!     [`document`] and [`value`] for what stands in them, and [`merge`] to put them together;
//!   * [`ports`] finds the current ports that a port spec stands for, and [`plan`] the edges that a
//!     map declares between them;
//!   * [`pass`] turns these into requests to the server, one pass at a time;
//!   * [`reconciler`] keeps the loaded map and the compiled patterns across passes, and [`watch`]
//!     says when a pass is due;
//!   * [`settings`] says where all of this is configured, and [`text`] takes strings apart;
//!   * [`laws`] states what holds of the whole.
pub mod config;
pub mod document;
pub mod laws;
pub mod merge;
pub mod pass;
pub mod paths;
pub mod plan;
pub mod ports;
pub mod reconciler;
pub mod settings;
pub mod text;
pub mod value;
pub mod watch;
