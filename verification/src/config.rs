//! Limits that a parse is held to.
use vstd::prelude::*;

verus! {

/// The limits that a document is parsed under. A document keeps them for
/// every later parse of its source.
#[derive(Clone, Copy, PartialEq, Eq, Structural, Debug)]
pub struct ParserConfig {
    /// How deep collections may be nested.
    pub max_depth: usize,
    /// How many aliases may be expanded.
    pub max_alias_expansions: usize,
    /// How many aliases there may be for each anchor; no limit when `None`.
    pub alias_anchor_ratio: Option<usize>,
    /// How deep inclusions may be nested.
    pub max_include_depth: usize,
}

impl ParserConfig {
    /// The default limits.
    pub open spec fn defaults() -> ParserConfig {
        ParserConfig {
            max_depth: 128,
            max_alias_expansions: 1024,
            alias_anchor_ratio: Some(10),
            max_include_depth: 24,
        }
    }

    /// The default limits.
    pub fn new() -> (r: ParserConfig)
        ensures
            r == ParserConfig::defaults(),
    {
        ParserConfig {
            max_depth: 128,
            max_alias_expansions: 1024,
            alias_anchor_ratio: Some(10),
            max_include_depth: 24,
        }
    }

    /// The same limits with another nesting depth.
    pub fn max_depth(self, depth: usize) -> (r: ParserConfig)
        ensures
            r == (ParserConfig { max_depth: depth, ..self }),
    {
        ParserConfig { max_depth: depth, ..self }
    }

    /// The same limits with another number of alias expansions.
    pub fn max_alias_expansions(self, count: usize) -> (r: ParserConfig)
        ensures
            r == (ParserConfig { max_alias_expansions: count, ..self }),
    {
        ParserConfig { max_alias_expansions: count, ..self }
    }

    /// The same limits with another number of aliases for each anchor.
    pub fn alias_anchor_ratio(self, ratio: Option<usize>) -> (r: ParserConfig)
        ensures
            r == (ParserConfig { alias_anchor_ratio: ratio, ..self }),
    {
        ParserConfig { alias_anchor_ratio: ratio, ..self }
    }

    /// The same limits with another nesting depth of inclusions.
    pub fn max_include_depth(self, depth: usize) -> (r: ParserConfig)
        ensures
            r == (ParserConfig { max_include_depth: depth, ..self }),
    {
        ParserConfig { max_include_depth: depth, ..self }
    }
}

impl Default for ParserConfig {
    fn default() -> (r: ParserConfig)
        ensures
            r == ParserConfig::defaults(),
    {
        ParserConfig::new()
    }
}

} // verus!
