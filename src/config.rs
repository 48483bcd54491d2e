//! Editor settings.
use vstd::prelude::*;

verus! {

/// How indentation is written.
#[derive(Debug, Clone, Copy, PartialEq, Eq, Structural)]
pub enum IndentStyle {
    Tabs,
    Spaces,
}

/// Settings of the editor itself.
#[derive(Debug, Clone, Copy, PartialEq, Eq, Structural)]
pub struct EditorConfig {
    /// Number of spaces for a tab.
    pub tab_width: usize,
    pub indent_style: IndentStyle,
    pub line_numbers: bool,
    pub relative_line_numbers: bool,
    pub mouse: bool,
    /// Lines kept visible above and below the cursor.
    pub scrolloff: usize,
    pub auto_save: bool,
    /// Auto-save delay in milliseconds.
    pub auto_save_delay: u64,
    pub soft_wrap: bool,
    pub show_whitespace: bool,
    /// Cursor blink period in milliseconds, `0` for none.
    pub cursor_blink: u64,
}

/// The defaults: four-space indents, line numbers, mouse, a scroll margin of
/// five lines, a blinking cursor.
pub open spec fn default_editor_config() -> EditorConfig {
    EditorConfig {
        tab_width: 4,
        indent_style: IndentStyle::Spaces,
        line_numbers: true,
        relative_line_numbers: false,
        mouse: true,
        scrolloff: 5,
        auto_save: false,
        auto_save_delay: 1000,
        soft_wrap: false,
        show_whitespace: false,
        cursor_blink: 530,
    }
}

impl Default for EditorConfig {
    fn default() -> (r: EditorConfig)
        ensures
            r == default_editor_config(),
    {
        EditorConfig {
            tab_width: 4,
            indent_style: IndentStyle::Spaces,
            line_numbers: true,
            relative_line_numbers: false,
            mouse: true,
            scrolloff: 5,
            auto_save: false,
            auto_save_delay: 1000,
            soft_wrap: false,
            show_whitespace: false,
            cursor_blink: 530,
        }
    }
}

/// All settings.
#[derive(Debug, Clone, Copy, PartialEq, Eq, Structural)]
pub struct Config {
    pub editor: EditorConfig,
}

impl Default for Config {
    fn default() -> (r: Config)
        ensures
            r.editor == default_editor_config(),
    {
        Config { editor: EditorConfig::default() }
    }
}

} // verus!
