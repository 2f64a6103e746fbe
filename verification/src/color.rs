//! Conversions between the three color models in use: the one `LS_COLORS`
//! parses to, the one of classic-mode terminal output, and the one of the
//! interactive view. All cross-model mapping lives here so the models
//! cannot drift apart.

use vstd::prelude::*;

verus! {

/// A color as `LS_COLORS` describes it.
#[derive(Clone, Copy, PartialEq, Eq, Debug, Structural)]
pub enum LsColor {
    Black,
    Red,
    Green,
    Yellow,
    Blue,
    Magenta,
    Cyan,
    White,
    BrightBlack,
    BrightRed,
    BrightGreen,
    BrightYellow,
    BrightBlue,
    BrightMagenta,
    BrightCyan,
    BrightWhite,
    /// One of the 256 indexed colors.
    Fixed(u8),
    /// A 24-bit color.
    RGB(u8, u8, u8),
}

/// A color of classic-mode terminal output.
#[derive(Clone, Copy, PartialEq, Eq, Debug, Structural)]
pub enum TermColor {
    Black,
    Red,
    Green,
    Yellow,
    Blue,
    Magenta,
    Cyan,
    White,
    BrightBlack,
    BrightRed,
    BrightGreen,
    BrightYellow,
    BrightBlue,
    BrightMagenta,
    BrightCyan,
    BrightWhite,
    /// One of the 256 indexed colors.
    AnsiColor(u8),
    /// A 24-bit color.
    TrueColor { r: u8, g: u8, b: u8 },
}

/// A color of the interactive view.
#[derive(Clone, Copy, PartialEq, Eq, Debug, Structural)]
pub enum TuiColor {
    /// The terminal's default color.
    Reset,
    Black,
    Red,
    Green,
    Yellow,
    Blue,
    Magenta,
    Cyan,
    Gray,
    DarkGray,
    LightRed,
    LightGreen,
    LightYellow,
    LightBlue,
    LightMagenta,
    LightCyan,
    White,
    /// A 24-bit color.
    Rgb(u8, u8, u8),
    /// One of the 256 indexed colors.
    Indexed(u8),
}

/// What `LS_COLORS` says of how a path is drawn: its foreground color
/// and font attributes.
#[derive(Clone, Copy, PartialEq, Eq, Debug, Structural)]
pub struct LsStyle {
    pub foreground: Option<LsColor>,
    pub bold: bool,
    pub italic: bool,
    pub underline: bool,
}

/// How the interactive view draws a name: an optional foreground color
/// and the modifiers added to the default style.
#[derive(Clone, Copy, PartialEq, Eq, Debug, Structural)]
pub struct TuiStyle {
    pub fg: Option<TuiColor>,
    pub bold: bool,
    pub italic: bool,
    pub underlined: bool,
}

/// The classic-mode color for an `LS_COLORS` color: the same named color;
/// the same 24-bit color; and, having no indexed colors on that side, the
/// default white for an indexed one.
pub open spec fn term_of_ls(c: LsColor) -> TermColor {
    match c {
        LsColor::Black => TermColor::Black,
        LsColor::Red => TermColor::Red,
        LsColor::Green => TermColor::Green,
        LsColor::Yellow => TermColor::Yellow,
        LsColor::Blue => TermColor::Blue,
        LsColor::Magenta => TermColor::Magenta,
        LsColor::Cyan => TermColor::Cyan,
        LsColor::White => TermColor::White,
        LsColor::BrightBlack => TermColor::BrightBlack,
        LsColor::BrightRed => TermColor::BrightRed,
        LsColor::BrightGreen => TermColor::BrightGreen,
        LsColor::BrightYellow => TermColor::BrightYellow,
        LsColor::BrightBlue => TermColor::BrightBlue,
        LsColor::BrightMagenta => TermColor::BrightMagenta,
        LsColor::BrightCyan => TermColor::BrightCyan,
        LsColor::BrightWhite => TermColor::BrightWhite,
        LsColor::Fixed(_) => TermColor::White,
        LsColor::RGB(r, g, b) => TermColor::TrueColor { r, g, b },
    }
}

/// The interactive-view color for an `LS_COLORS` color: bright black is
/// gray, the other bright colors are the light ones, bright white and
/// white are both white; indexed and 24-bit colors carry over.
pub open spec fn tui_of_ls(c: LsColor) -> TuiColor {
    match c {
        LsColor::Black => TuiColor::Black,
        LsColor::Red => TuiColor::Red,
        LsColor::Green => TuiColor::Green,
        LsColor::Yellow => TuiColor::Yellow,
        LsColor::Blue => TuiColor::Blue,
        LsColor::Magenta => TuiColor::Magenta,
        LsColor::Cyan => TuiColor::Cyan,
        LsColor::White => TuiColor::White,
        LsColor::BrightBlack => TuiColor::Gray,
        LsColor::BrightRed => TuiColor::LightRed,
        LsColor::BrightGreen => TuiColor::LightGreen,
        LsColor::BrightYellow => TuiColor::LightYellow,
        LsColor::BrightBlue => TuiColor::LightBlue,
        LsColor::BrightMagenta => TuiColor::LightMagenta,
        LsColor::BrightCyan => TuiColor::LightCyan,
        LsColor::BrightWhite => TuiColor::White,
        LsColor::Fixed(n) => TuiColor::Indexed(n),
        LsColor::RGB(r, g, b) => TuiColor::Rgb(r, g, b),
    }
}

/// The interactive-view color for a classic-mode color, drawn as classic
/// mode draws it: bright black is gray, the other bright colors are the
/// light ones, bright white and white are both white; indexed and 24-bit
/// colors carry over.
pub open spec fn tui_of_term(c: TermColor) -> TuiColor {
    match c {
        TermColor::Black => TuiColor::Black,
        TermColor::Red => TuiColor::Red,
        TermColor::Green => TuiColor::Green,
        TermColor::Yellow => TuiColor::Yellow,
        TermColor::Blue => TuiColor::Blue,
        TermColor::Magenta => TuiColor::Magenta,
        TermColor::Cyan => TuiColor::Cyan,
        TermColor::White => TuiColor::White,
        TermColor::BrightBlack => TuiColor::Gray,
        TermColor::BrightRed => TuiColor::LightRed,
        TermColor::BrightGreen => TuiColor::LightGreen,
        TermColor::BrightYellow => TuiColor::LightYellow,
        TermColor::BrightBlue => TuiColor::LightBlue,
        TermColor::BrightMagenta => TuiColor::LightMagenta,
        TermColor::BrightCyan => TuiColor::LightCyan,
        TermColor::BrightWhite => TuiColor::White,
        TermColor::AnsiColor(n) => TuiColor::Indexed(n),
        TermColor::TrueColor { r, g, b } => TuiColor::Rgb(r, g, b),
    }
}

/// Converts an `LS_COLORS` color to a classic-mode color.
pub fn ls_to_colored(color: LsColor) -> (r: TermColor)
    ensures r == term_of_ls(color),
{
    match color {
        LsColor::Black => TermColor::Black,
        LsColor::Red => TermColor::Red,
        LsColor::Green => TermColor::Green,
        LsColor::Yellow => TermColor::Yellow,
        LsColor::Blue => TermColor::Blue,
        LsColor::Magenta => TermColor::Magenta,
        LsColor::Cyan => TermColor::Cyan,
        LsColor::White => TermColor::White,
        LsColor::BrightBlack => TermColor::BrightBlack,
        LsColor::BrightRed => TermColor::BrightRed,
        LsColor::BrightGreen => TermColor::BrightGreen,
        LsColor::BrightYellow => TermColor::BrightYellow,
        LsColor::BrightBlue => TermColor::BrightBlue,
        LsColor::BrightMagenta => TermColor::BrightMagenta,
        LsColor::BrightCyan => TermColor::BrightCyan,
        LsColor::BrightWhite => TermColor::BrightWhite,
        // No indexed colors on the classic side: fall back to the default.
        LsColor::Fixed(_) => TermColor::White,
        LsColor::RGB(r, g, b) => TermColor::TrueColor { r, g, b },
    }
}

fn ls_to_tui_color(color: LsColor) -> (r: TuiColor)
    ensures r == tui_of_ls(color),
{
    match color {
        LsColor::Black => TuiColor::Black,
        LsColor::Red => TuiColor::Red,
        LsColor::Green => TuiColor::Green,
        LsColor::Yellow => TuiColor::Yellow,
        LsColor::Blue => TuiColor::Blue,
        LsColor::Magenta => TuiColor::Magenta,
        LsColor::Cyan => TuiColor::Cyan,
        LsColor::White => TuiColor::White,
        LsColor::BrightBlack => TuiColor::Gray,
        LsColor::BrightRed => TuiColor::LightRed,
        LsColor::BrightGreen => TuiColor::LightGreen,
        LsColor::BrightYellow => TuiColor::LightYellow,
        LsColor::BrightBlue => TuiColor::LightBlue,
        LsColor::BrightMagenta => TuiColor::LightMagenta,
        LsColor::BrightCyan => TuiColor::LightCyan,
        LsColor::BrightWhite => TuiColor::White,
        LsColor::Fixed(n) => TuiColor::Indexed(n),
        LsColor::RGB(r, g, b) => TuiColor::Rgb(r, g, b),
    }
}

/// The interactive-view style for an `LS_COLORS` style: its foreground
/// color converted, and bold, italic and underline carried over as
/// modifiers.
pub open spec fn tui_style_of(s: LsStyle) -> TuiStyle {
    TuiStyle {
        fg: match s.foreground {
            Some(c) => Some(tui_of_ls(c)),
            None => None,
        },
        bold: s.bold,
        italic: s.italic,
        underlined: s.underline,
    }
}

/// Converts an `LS_COLORS` style (color and font attributes) to the
/// interactive view's style.
pub fn ls_to_ratatui_style(ls_style: LsStyle) -> (r: TuiStyle)
    ensures r == tui_style_of(ls_style),
{
    let mut style = TuiStyle { fg: None, bold: false, italic: false, underlined: false };
    match ls_style.foreground {
        Some(fg) => {
            style.fg = Some(ls_to_tui_color(fg));
        }
        None => {}
    }
    if ls_style.bold {
        style.bold = true;
    }
    if ls_style.italic {
        style.italic = true;
    }
    if ls_style.underline {
        style.underlined = true;
    }
    style
}

/// Converts a classic-mode color (as the icon table uses) to an
/// interactive-view color, so both modes draw icons alike.
pub fn colored_to_ratatui(color: TermColor) -> (r: TuiColor)
    ensures r == tui_of_term(color),
{
    match color {
        TermColor::Black => TuiColor::Black,
        TermColor::Red => TuiColor::Red,
        TermColor::Green => TuiColor::Green,
        TermColor::Yellow => TuiColor::Yellow,
        TermColor::Blue => TuiColor::Blue,
        TermColor::Magenta => TuiColor::Magenta,
        TermColor::Cyan => TuiColor::Cyan,
        TermColor::White => TuiColor::White,
        TermColor::BrightBlack => TuiColor::Gray,
        TermColor::BrightRed => TuiColor::LightRed,
        TermColor::BrightGreen => TuiColor::LightGreen,
        TermColor::BrightYellow => TuiColor::LightYellow,
        TermColor::BrightBlue => TuiColor::LightBlue,
        TermColor::BrightMagenta => TuiColor::LightMagenta,
        TermColor::BrightCyan => TuiColor::LightCyan,
        TermColor::BrightWhite => TuiColor::White,
        TermColor::AnsiColor(n) => TuiColor::Indexed(n),
        TermColor::TrueColor { r, g, b } => TuiColor::Rgb(r, g, b),
    }
}

/// The two ways from an `LS_COLORS` color to the interactive view agree:
/// going through the classic-mode color gives the same color as
/// converting directly, for every color but the indexed ones (the classic
/// side has no indexed colors and turns them into white).
pub proof fn lemma_conversions_agree(c: LsColor)
    requires
        !(c is Fixed),
    ensures
        tui_of_term(term_of_ls(c)) == tui_of_ls(c),
{
}

/// The interactive view draws every classic-mode color as a color of its
/// own: none falls back to the terminal's default.
pub proof fn lemma_no_fallback_reset(c: TermColor)
    ensures
        tui_of_term(c) != TuiColor::Reset,
{
}

/// The SGR foreground code by which `LS_COLORS` writes a named color
/// (30 to 37, then 90 to 97 for the bright ones); none for indexed and
/// 24-bit colors.
pub open spec fn ls_sgr(c: LsColor) -> Option<int> {
    match c {
        LsColor::Black => Some(30),
        LsColor::Red => Some(31),
        LsColor::Green => Some(32),
        LsColor::Yellow => Some(33),
        LsColor::Blue => Some(34),
        LsColor::Magenta => Some(35),
        LsColor::Cyan => Some(36),
        LsColor::White => Some(37),
        LsColor::BrightBlack => Some(90),
        LsColor::BrightRed => Some(91),
        LsColor::BrightGreen => Some(92),
        LsColor::BrightYellow => Some(93),
        LsColor::BrightBlue => Some(94),
        LsColor::BrightMagenta => Some(95),
        LsColor::BrightCyan => Some(96),
        LsColor::BrightWhite => Some(97),
        _ => None,
    }
}

/// The SGR foreground code classic-mode output writes for a named color.
pub open spec fn term_sgr(c: TermColor) -> Option<int> {
    match c {
        TermColor::Black => Some(30),
        TermColor::Red => Some(31),
        TermColor::Green => Some(32),
        TermColor::Yellow => Some(33),
        TermColor::Blue => Some(34),
        TermColor::Magenta => Some(35),
        TermColor::Cyan => Some(36),
        TermColor::White => Some(37),
        TermColor::BrightBlack => Some(90),
        TermColor::BrightRed => Some(91),
        TermColor::BrightGreen => Some(92),
        TermColor::BrightYellow => Some(93),
        TermColor::BrightBlue => Some(94),
        TermColor::BrightMagenta => Some(95),
        TermColor::BrightCyan => Some(96),
        TermColor::BrightWhite => Some(97),
        _ => None,
    }
}

/// The SGR foreground code of a named color of the interactive view
/// (gray is 37, dark gray 90, white 97).
pub open spec fn tui_sgr(c: TuiColor) -> Option<int> {
    match c {
        TuiColor::Black => Some(30),
        TuiColor::Red => Some(31),
        TuiColor::Green => Some(32),
        TuiColor::Yellow => Some(33),
        TuiColor::Blue => Some(34),
        TuiColor::Magenta => Some(35),
        TuiColor::Cyan => Some(36),
        TuiColor::Gray => Some(37),
        TuiColor::DarkGray => Some(90),
        TuiColor::LightRed => Some(91),
        TuiColor::LightGreen => Some(92),
        TuiColor::LightYellow => Some(93),
        TuiColor::LightBlue => Some(94),
        TuiColor::LightMagenta => Some(95),
        TuiColor::LightCyan => Some(96),
        TuiColor::White => Some(97),
        _ => None,
    }
}

/// Classic mode draws an `LS_COLORS` color as written: a named color with
/// the same SGR code, a 24-bit color with the same components; having no
/// indexed colors, it draws an indexed one in the default white.
pub proof fn lemma_classic_keeps_color(c: LsColor)
    ensures
        ls_sgr(c) is Some ==> term_sgr(term_of_ls(c)) == ls_sgr(c),
        c matches LsColor::RGB(r, g, b) ==> term_of_ls(c) == (TermColor::TrueColor { r, g, b }),
        c is Fixed ==> term_of_ls(c) == TermColor::White,
{
}

/// The interactive view draws an `LS_COLORS` color as written: a named
/// color with the same SGR code (except that white is drawn as bright
/// white and bright black as gray), an indexed color with the same index,
/// a 24-bit color with the same components.
pub proof fn lemma_tui_keeps_color(c: LsColor)
    ensures
        ls_sgr(c) is Some && ls_sgr(c) != Some(37int) && ls_sgr(c) != Some(90int) ==> tui_sgr(tui_of_ls(c)) == ls_sgr(c),
        ls_sgr(c) == Some(37int) ==> tui_sgr(tui_of_ls(c)) == Some(97int),
        ls_sgr(c) == Some(90int) ==> tui_sgr(tui_of_ls(c)) == Some(37int),
        c matches LsColor::Fixed(n) ==> tui_of_ls(c) == TuiColor::Indexed(n),
        c matches LsColor::RGB(r, g, b) ==> tui_of_ls(c) == TuiColor::Rgb(r, g, b),
{
}

/// The interactive view draws a classic-mode (icon) color as classic mode
/// does: a named color with the same SGR code (except that white is drawn
/// as bright white and bright black as gray), an indexed color with the
/// same index, a 24-bit color with the same components.
pub proof fn lemma_icon_colors_kept(c: TermColor)
    ensures
        term_sgr(c) is Some && term_sgr(c) != Some(37int) && term_sgr(c) != Some(90int) ==> tui_sgr(tui_of_term(c)) == term_sgr(c),
        term_sgr(c) == Some(37int) ==> tui_sgr(tui_of_term(c)) == Some(97int),
        term_sgr(c) == Some(90int) ==> tui_sgr(tui_of_term(c)) == Some(37int),
        c matches TermColor::AnsiColor(n) ==> tui_of_term(c) == TuiColor::Indexed(n),
        c matches TermColor::TrueColor { r, g, b } ==> tui_of_term(c) == TuiColor::Rgb(r, g, b),
{
}

} // verus!
