//! A model of the fixed block-object layout the Objective-C runtime expects:
//! the header record, its flags, and the descriptor holding the object's size
//! and whether copy/dispose helpers are present.
//!
//! Only the layout decisions are computed here; the raw pointers, trampolines
//! and runtime calls that realize them cannot be verified and live outside
//! the library.

use vstd::prelude::*;

verus! {

/// The flag bit recording that the block's descriptor carries copy and
/// dispose helper functions.
pub const BLOCK_HAS_COPY_DISPOSE: u32 = 0x0200_0000;

/// The descriptor record a block header points at: the object's exact byte
/// size, and whether a copy helper and a dispose helper are present.
#[derive(Clone)]
pub struct BlockDescriptor {
    pub reserved: u64,
    pub size: u64,
    pub has_copy: bool,
    pub has_dispose: bool,
}

/// The fixed block header: the stack-block class identity, the flags word,
/// reserved padding, whether an invocation trampoline is stored, and the
/// descriptor.
#[derive(Clone)]
pub struct BlockHeader {
    pub is_stack_class: bool,
    pub flags: u32,
    pub reserved: u32,
    pub has_invoke: bool,
    pub descriptor: BlockDescriptor,
}

/// The header a freshly built stack block of `size` bytes must carry, given
/// whether its closure needs a destructor: the flags word has the
/// copy/dispose bit exactly then, the descriptor helpers are present exactly
/// then, reserved fields are zero, and a trampoline is stored.
pub open spec fn header_for(closure_needs_drop: bool, size: u64) -> BlockHeader {
    BlockHeader {
        is_stack_class: true,
        flags: if closure_needs_drop {
            BLOCK_HAS_COPY_DISPOSE
        } else {
            0
        },
        reserved: 0,
        has_invoke: true,
        descriptor: BlockDescriptor {
            reserved: 0,
            size: size,
            has_copy: closure_needs_drop,
            has_dispose: closure_needs_drop,
        },
    }
}

/// Marker for callables that can back a block; the runtime glue seals it so
/// that only closures of the supported arities qualify.
pub trait Sealed<A> {}

/// A block object of known size: the header followed by the stored closure.
#[derive(Clone)]
pub struct ConcreteBlock<F> {
    pub header: BlockHeader,
    pub closure: F,
}

impl<F> ConcreteBlock<F> {
    /// Build the block eagerly around `closure`: the stack-block class, the
    /// copy/dispose flag exactly when the closure needs dropping, zeroed
    /// reserved fields, a stored trampoline, and a descriptor with the
    /// object's exact size and helpers exactly when the closure needs
    /// dropping.
    pub fn with_invoke(closure: F, closure_needs_drop: bool, size: u64) -> (b: Self)
        ensures
            b.header == header_for(closure_needs_drop, size),
            b.closure == closure,
    {
        let header = BlockHeader {
            is_stack_class: true,
            flags: if closure_needs_drop {
                BLOCK_HAS_COPY_DISPOSE
            } else {
                0
            },
            reserved: 0,
            has_invoke: true,
            descriptor: BlockDescriptor {
                reserved: 0,
                size: size,
                has_copy: closure_needs_drop,
                has_dispose: closure_needs_drop,
            },
        };
        ConcreteBlock { header, closure }
    }

    /// Construct a block with the given closure; `closure_needs_drop` and
    /// `size` say whether the closure type has a nontrivial destructor and
    /// how many bytes the whole object takes.
    pub fn new(closure: F, closure_needs_drop: bool, size: u64) -> (b: Self)
        ensures
            b.header == header_for(closure_needs_drop, size),
            b.closure == closure,
    {
        Self::with_invoke(closure, closure_needs_drop, size)
    }
}

} // verus!
