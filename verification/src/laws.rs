//! What holds of the library as a whole.
pub mod applying;
pub mod configuring;
pub mod gathering;
pub mod loading;
pub mod locating;
pub mod ordering;
pub mod outcomes;
pub mod persisting;
pub mod planning;
pub mod resolving;
pub mod viewing;
pub mod watching;
