//! Side-bar placement defaults.

use egui_workbench::side_bar::{Location, Side};

#[test]
fn defaults_are_left() {
    assert_eq!(Side::default(), Side::Left);
    assert_eq!(Location::default(), Location::LeftBar);
    assert_ne!(Side::Left, Side::Right);
    assert_ne!(Location::LeftBar, Location::RightBar);
}
