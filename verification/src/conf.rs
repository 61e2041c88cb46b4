//! The engine's window configuration.
use vstd::prelude::*;

verus! {

/// The title and size of the window.
#[derive(Debug, Clone)]
pub struct Conf {
    pub window_title: String,
    pub window_width: u32,
    pub window_height: u32,
}

impl Default for Conf {
    fn default() -> (r: Self)
        ensures
            r.window_title@ == "SLUDGE \\m/"@,
            r.window_width == 800,
            r.window_height == 680,
    {
        Self { window_title: "SLUDGE \\m/".to_owned(), window_width: 800, window_height: 680 }
    }
}

} // verus!
