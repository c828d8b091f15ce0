//! Construction of `ar` static-library archives from a mixture of members of
//! existing archives and standalone object files.
//!
//! The crate has three layers. [`reader`] parses the member directory of an
//! existing archive, yielding each member's name and the byte range of its
//! content. [`builder`] holds the ordered list of pending entries — insertion
//! order is preserved exactly, because linkers care where members stand — and
//! resolves every entry to concrete bytes when the archive is finalized.
//! [`writer`] serializes a finalized member list, together with a symbol
//! lookup table, into a GNU- or Darwin-style archive.
//!
//! [`sandbox`] is a small side component: it states which filesystem paths the
//! surrounding build process is allowed to touch while fetching and building.

pub mod bytes;
pub mod reader;
pub mod writer;
pub mod builder;
pub mod roundtrip;
pub mod sandbox;

use vstd::prelude::*;

verus! {

/// The two archive container layouts the writer can produce and the reader
/// understands: the GNU layout (string table `//`, symbol table `/`) and the
/// Darwin layout (BSD `#1/<len>` member names, `__.SYMDEF` symbol table).
#[derive(Clone, Copy, PartialEq, Eq, Structural, Debug)]
pub enum ArchiveKind {
    Gnu,
    Darwin,
}

} // verus!
