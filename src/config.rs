//! Settings that the launcher reads from its configuration.
use vstd::prelude::*;

verus! {

/// A colour as red, green, blue and alpha channels.
#[derive(Clone, Copy, Debug, PartialEq, Eq)]
pub struct Color(pub u8, pub u8, pub u8, pub u8);

/// The colours of the launcher's parts.
#[derive(Clone, Copy, Debug, PartialEq, Eq)]
pub struct ColorConfig {
    pub background: Color,
    pub text: Color,
    pub text_query: Color,
    pub text_selected: Color,
    pub prompt: Color,
}

impl Default for ColorConfig {
    fn default() -> (r: ColorConfig)
        ensures
            r.background == Color(40, 44, 52, 170),
            r.prompt == Color(171, 178, 191, 255),
            r.text == Color(255, 255, 255, 255),
            r.text_query == Color(229, 192, 123, 255),
            r.text_selected == Color(97, 175, 239, 255),
    {
        ColorConfig {
            background: Color(40, 44, 52, 170),
            prompt: Color(171, 178, 191, 255),
            text: Color(255, 255, 255, 255),
            text_query: Color(229, 192, 123, 255),
            text_selected: Color(97, 175, 239, 255),
        }
    }
}

/// The length of a decay window, in hours; zero turns decay off.
#[derive(Clone, Copy, Debug, PartialEq, Eq)]
pub struct HistoryConfig {
    pub decrease_interval: u64,
}

impl Default for HistoryConfig {
    fn default() -> (r: HistoryConfig)
        ensures
            r.decrease_interval == 48,
    {
        HistoryConfig { decrease_interval: 48 }
    }
}

} // verus!
