use vstd::prelude::*;

verus! {

/// The number of a fixed-size section of a pooled buffer.
#[derive(Clone, Copy, Debug, PartialEq, Eq, Hash, Structural)]
pub struct Bucket(pub usize);

/// The handle of one entry of an indirect buffer. It stays the same while
/// the entry moves.
#[derive(Clone, Copy, Debug, Hash, PartialEq, Eq, Structural)]
pub struct Indirect(pub usize);

/// What the renderer holds of a mesh: the sections of its vertices and of
/// its indices, and its draw entries.
pub struct Mesh {
    pub vertices: Vec<Bucket>,
    pub indices: Vec<Bucket>,
    pub indirect: Vec<Indirect>,
}

} // verus!
