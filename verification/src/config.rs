use vstd::prelude::*;
use crate::path::{TreePath, PathAndText, joined, whole};

verus! {

/// A 24-bit color.
#[derive(Debug, Clone, Copy, PartialEq, Eq, Structural)]
pub struct RgbColor {
    pub r: u8,
    pub g: u8,
    pub b: u8,
}

impl From<(u8, u8, u8)> for RgbColor {
    fn from(c: (u8, u8, u8)) -> (rgb: Self) {
        RgbColor { r: c.0, g: c.1, b: c.2 }
    }
}

impl vstd::std_specs::convert::FromSpecImpl<(u8, u8, u8)> for RgbColor {
    open spec fn obeys_from_spec() -> bool {
        true
    }

    open spec fn from_spec(v: (u8, u8, u8)) -> Self {
        RgbColor { r: v.0, g: v.1, b: v.2 }
    }
}

/// The colors of the interface.
#[derive(Debug, Clone, Copy, PartialEq, Eq, Structural)]
pub struct Theme {
    pub border_fg: RgbColor,
    pub border_style: RgbColor,
    pub border_style_soft: RgbColor,
    pub key_highlight: RgbColor,
    pub branch_color: RgbColor,
}

/// The built-in theme: lime borders, a softer lime, orange highlights and a
/// rust-colored tree branch.
pub open spec fn default_theme() -> Theme {
    Theme {
        border_fg: RgbColor { r: 120, g: 230, b: 80 },
        border_style: RgbColor { r: 120, g: 230, b: 80 },
        border_style_soft: RgbColor { r: 90, g: 190, b: 70 },
        key_highlight: RgbColor { r: 255, g: 160, b: 0 },
        branch_color: RgbColor { r: 202, g: 93, b: 42 },
    }
}

impl Default for Theme {
    fn default() -> (t: Self)
        ensures
            t == default_theme(),
    {
        Theme {
            border_fg: RgbColor::from((120, 230, 80)),
            border_style: RgbColor::from((120, 230, 80)),
            border_style_soft: RgbColor::from((90, 190, 70)),
            key_highlight: RgbColor::from((255, 160, 0)),
            branch_color: RgbColor::from((202, 93, 42)),
        }
    }
}

/// Persisted settings: the theme and the two visibility switches.
#[derive(Debug, Clone, Copy, PartialEq, Eq, Structural)]
pub struct Config {
    pub theme: Theme,
    pub show_files: bool,
    pub show_hidden: bool,
}

/// The settings used when none are saved: default theme, files and hidden
/// entries not shown.
pub open spec fn default_config() -> Config {
    Config { theme: default_theme(), show_files: false, show_hidden: false }
}

impl Default for Config {
    fn default() -> (c: Self)
        ensures
            c == default_config(),
    {
        Config { theme: Theme::default(), show_files: false, show_hidden: false }
    }
}

/// `home/.config/cdtree`, the directory of the saved files.
pub open spec fn settings_dir(home: PathAndText) -> PathAndText {
    joined(joined(home, ".config"@), "cdtree"@)
}

/// `home/.config/cdtree/config.json`.
pub open spec fn config_file(home: PathAndText) -> PathAndText {
    joined(settings_dir(home), "config.json"@)
}

/// Where the settings are saved under the home directory `home`.
pub fn config_path(home: &TreePath) -> (p: TreePath)
    ensures
        whole(p) == config_file(whole(*home)),
{
    home.child(".config").child("cdtree").child("config.json")
}

} // verus!
