//! Parser options: a set of extension flags.

use vstd::prelude::*;

verus! {

#[derive(Clone, Copy, Debug, PartialEq, Eq, Structural)]
pub struct Options {
    pub bits: u32,
}

impl Options {
    pub const ENABLE_TABLES: u32 = 0x2u32;

    pub const ENABLE_FOOTNOTES: u32 = 0x4u32;

    pub const ENABLE_STRIKETHROUGH: u32 = 0x8u32;

    pub const ENABLE_TASKLISTS: u32 = 0x10u32;

    /// Curly quotes, dashes and ellipses together.
    pub const ENABLE_SMART_PUNCTUATION: u32 = 0xe00000u32;

    pub const ENABLE_HEADING_ATTRIBUTES: u32 = 0x40u32;

    pub const ENABLE_YAML_STYLE_METADATA_BLOCKS: u32 = 0x80u32;

    pub const ENABLE_PLUSES_DELIMITED_METADATA_BLOCKS: u32 = 0x100u32;

    /// `$...$` and `$$...$$` math together.
    pub const ENABLE_MATH: u32 = 0x3000000u32;

    pub const ENABLE_GFM: u32 = 0x800u32;

    pub const ENABLE_DEFINITION_LIST: u32 = 0x1000u32;

    pub const ENABLE_SUPERSCRIPT: u32 = 0x2000u32;

    pub const ENABLE_SUBSCRIPT: u32 = 0x4000u32;

    pub const ENABLE_WIKILINKS: u32 = 0x8000u32;

    pub const ENABLE_CONTAINER_EXTENSIONS: u32 = 0x10000u32;

    pub const ENABLE_MDX: u32 = 0x20000u32;

    pub const ENABLE_DIRECTIVE: u32 = 0x40000u32;

    pub const ENABLE_GITHUB_ALERTS: u32 = 0x80000u32;

    pub const ENABLE_SMART_QUOTES: u32 = 0x200000u32;

    pub const ENABLE_SMART_DASHES: u32 = 0x400000u32;

    pub const ENABLE_SMART_ELLIPSES: u32 = 0x800000u32;

    pub const ENABLE_MATH_SINGLE_DOLLAR: u32 = 0x1000000u32;

    pub const ENABLE_MATH_MULTI_DOLLAR: u32 = 0x2000000u32;

    pub open spec fn spec_contains(self, flags: u32) -> bool {
        self.bits & flags == flags
    }

    pub open spec fn spec_intersects(self, flags: u32) -> bool {
        self.bits & flags != 0
    }

    pub fn empty() -> (o: Options)
        ensures
            o.bits == 0,
    {
        Options { bits: 0 }
    }

    pub fn bits(&self) -> (b: u32)
        ensures
            b == self.bits,
    {
        self.bits
    }

    pub fn from_bits_truncate(bits: u32) -> (o: Options)
        ensures
            o.bits == bits,
    {
        Options { bits }
    }

    /// Every one of `flags` is set.
    pub fn contains(&self, flags: u32) -> (b: bool)
        ensures
            b == self.spec_contains(flags),
    {
        self.bits & flags == flags
    }

    /// Some one of `flags` is set.
    pub fn intersects(&self, flags: u32) -> (b: bool)
        ensures
            b == self.spec_intersects(flags),
    {
        self.bits & flags != 0
    }

    pub fn insert(&mut self, flags: u32)
        ensures
            final(self).bits == old(self).bits | flags,
    {
        self.bits = self.bits | flags;
    }

    pub open spec fn spec_has_math(self) -> bool {
        self.spec_intersects(Self::ENABLE_MATH)
    }

    pub open spec fn spec_has_smart_quotes(self) -> bool {
        self.spec_intersects(Self::ENABLE_SMART_QUOTES)
    }

    pub open spec fn spec_has_smart_dashes(self) -> bool {
        self.spec_intersects(Self::ENABLE_SMART_DASHES)
    }

    pub open spec fn spec_has_smart_ellipses(self) -> bool {
        self.spec_intersects(Self::ENABLE_SMART_ELLIPSES)
    }

    /// Either kind of `$` math is enabled.
    pub fn has_math(&self) -> (b: bool)
        ensures
            b == self.spec_has_math(),
    {
        self.intersects(Self::ENABLE_MATH)
    }

    pub fn has_smart_quotes(&self) -> (b: bool)
        ensures
            b == self.spec_has_smart_quotes(),
    {
        self.intersects(Self::ENABLE_SMART_QUOTES)
    }

    pub fn has_smart_dashes(&self) -> (b: bool)
        ensures
            b == self.spec_has_smart_dashes(),
    {
        self.intersects(Self::ENABLE_SMART_DASHES)
    }

    pub fn has_smart_ellipses(&self) -> (b: bool)
        ensures
            b == self.spec_has_smart_ellipses(),
    {
        self.intersects(Self::ENABLE_SMART_ELLIPSES)
    }
}

} // verus!
