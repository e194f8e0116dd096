//! Buffers that are bound to a shader.

use vstd::prelude::*;

verus! {

/// How a shader uses a bound buffer.
#[derive(Clone, Copy, Debug, PartialEq, Eq, Structural)]
pub enum BufferUsage {
    UNIFORM,
    STORAGE,
}

impl BufferUsage {
    /// The label under which a buffer of this usage is created.
    pub open spec fn label_text(self) -> Seq<char> {
        match self {
            BufferUsage::UNIFORM => "Uniform buffer"@,
            BufferUsage::STORAGE => "Storage buffer"@,
        }
    }

    /// The label under which a buffer of this usage is created.
    pub fn label(self) -> (text: &'static str)
        ensures
            text@ == self.label_text(),
    {
        match self {
            BufferUsage::UNIFORM => "Uniform buffer",
            BufferUsage::STORAGE => "Storage buffer",
        }
    }

    /// Whether a shader may write to a buffer of this usage.
    pub fn writable(self) -> (yes: bool)
        ensures
            yes == (self == BufferUsage::STORAGE),
    {
        match self {
            BufferUsage::UNIFORM => false,
            BufferUsage::STORAGE => true,
        }
    }
}

} // verus!
