//! Workbench building blocks for egui applications: an activity registry,
//! a pure-data context-menu model with its renderer, side-bar placement,
//! and the tab-group normalisation that keeps a tiled editor area free of
//! nested tab strips.
use vstd::prelude::*;

pub mod activity;
pub mod internal;
pub mod menu;
pub mod search;
pub mod side_bar;
pub mod text;
pub mod tiles;
pub mod workspace;

verus! {

/// The egui widget surface that menus and views draw into. Opaque here:
/// the library only hands it on to egui.
#[verifier::external_type_specification]
#[verifier::external_body]
pub struct ExUi(egui::Ui);

} // verus!

