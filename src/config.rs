use vstd::prelude::*;

verus! {

/// What separates siblings in the output.
#[derive(Debug, Clone, Copy, PartialEq, Eq, Structural)]
pub enum DelimiterType {
    Newline,
    Whitespace,
    Colon,
}

/// The pretty-printing policy: the delimiter, and the number of spaces per
/// level of nesting of keyed containers (used with `Newline` only).
#[derive(Debug, Clone, Copy, PartialEq, Eq, Structural)]
pub struct PrettyConfig {
    pub delimiter: DelimiterType,
    pub indent_width: u8,
}

impl Default for PrettyConfig {
    /// Colon delimiter, no indentation.
    fn default() -> (r: PrettyConfig)
        ensures
            r == (PrettyConfig { delimiter: DelimiterType::Colon, indent_width: 0 }),
    {
        PrettyConfig { delimiter: DelimiterType::Colon, indent_width: 0 }
    }
}

impl PrettyConfig {
    /// One key per line, four spaces per level.
    pub fn hierarchy() -> (r: PrettyConfig)
        ensures
            r == (PrettyConfig { delimiter: DelimiterType::Newline, indent_width: 4 }),
    {
        PrettyConfig { delimiter: DelimiterType::Newline, indent_width: 4 }
    }
}

} // verus!
