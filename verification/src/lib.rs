use vstd::prelude::*;

pub mod aho_corasick;
pub mod common;
pub mod trie;

verus! {

/// Exclusive upper bound on the byte values a pattern may contain.
pub const CHAR_MAX: usize = 128;

/// Sentinel value of `NodeId`: refers to no node.
pub const NODE_EMPTY: u32 = 0xffff_ffff;

/// Sentinel value of `PatId`: refers to no pattern.
pub const PAT_EMPTY: u32 = 0xffff_ffff;

/// Sentinel value of `ByteOrd`: the byte has no compact code.
pub const ORD_EMPTY: u8 = 0xff;

/// Node index of trie/ac-automaton.
#[derive(Copy, Clone, Debug, Eq, PartialEq, Structural)]
pub struct NodeId(pub u32);

impl NodeId {
    /// Get usize for slice indexing.
    #[inline(always)]
    pub fn idx(self) -> (r: usize)
        ensures
            r == self.0 as usize,
    {
        self.0 as usize
    }

    /// Whether this index refers to no node.
    #[inline(always)]
    pub fn is_empty(self) -> (r: bool)
        ensures
            r == (self.0 == NODE_EMPTY),
    {
        self.0 == NODE_EMPTY
    }
}

/// Pattern index of trie/ac-automaton.
#[derive(Copy, Clone, Debug, Eq, PartialEq, Structural)]
pub struct PatId(pub u32);

impl PatId {
    /// Get usize for slice indexing.
    #[inline(always)]
    pub fn idx(self) -> (r: usize)
        ensures
            r == self.0 as usize,
    {
        self.0 as usize
    }

    /// Whether this index refers to no pattern.
    #[inline(always)]
    pub fn is_empty(self) -> (r: bool)
        ensures
            r == (self.0 == PAT_EMPTY),
    {
        self.0 == PAT_EMPTY
    }
}

/// Represents compressed order of ASCII bytes.
#[derive(Copy, Clone, Debug, Eq, PartialEq, Ord, PartialOrd, Structural)]
pub struct ByteOrd(pub u8);

impl ByteOrd {
    /// Get usize for slice indexing.
    #[inline(always)]
    pub fn idx(self) -> (r: usize)
        ensures
            r == self.0 as usize,
    {
        self.0 as usize
    }

    /// Whether this byte has no code in the compressed alphabet.
    #[inline(always)]
    pub fn is_empty(self) -> (r: bool)
        ensures
            r == (self.0 == ORD_EMPTY),
    {
        self.0 == ORD_EMPTY
    }
}

/// Reported when the given word set contains a byte outside the alphabet bound.
#[derive(Clone, Copy, Debug, Eq, PartialEq, Structural)]
pub struct InvalidByteError(pub u8);

impl InvalidByteError {
    /// The offending byte value.
    pub fn byte(self) -> (r: u8)
        ensures
            r == self.0,
    {
        self.0
    }
}

} // verus!
