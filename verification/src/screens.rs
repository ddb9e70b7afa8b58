//! State types for the screens and HUD overlays the application can show.
//!
//! Drawing needs the windowing layer and lives in the application crate,
//! which implements its rendering traits over these types; the library owns
//! the types themselves so that screen state can be built and handed around
//! by verified code.

use vstd::prelude::*;

verus! {

/// HUD shown over the title screen: camera position and orientation read-out.
pub struct TitleHud;

impl TitleHud {
    pub fn new() -> (r: TitleHud) {
        TitleHud
    }
}

/// HUD shown during play: camera position read-out.
pub struct GameHud;

impl GameHud {
    pub fn new() -> (r: GameHud) {
        GameHud
    }
}

/// The title screen; it draws nothing of its own yet.
pub struct TitleScreen;

impl TitleScreen {
    pub fn new() -> (r: TitleScreen) {
        TitleScreen
    }
}

} // verus!
