use vstd::prelude::*;

verus! {

/// How a resource is accessed by the GPU, as a set of bits.
#[derive(Copy, Clone, Debug, PartialEq, Eq, Structural, Hash)]
pub struct AccessFlags {
    bits: u32,
}

/// The bits of [`AccessFlags`] that write to a resource.
pub open spec fn write_mask() -> u32 {
    (1u32 << 1u32) | (1u32 << 3u32) | (1u32 << 7u32) | (1u32 << 10u32) | (1u32 << 12u32) | (1u32
        << 14u32) | (1u32 << 16u32)
}

/// The bits of [`AccessFlags`] that only a graphics queue may use.
pub open spec fn graphics_mask() -> u32 {
    0x1ffecu32
}

/// The bits of [`AccessFlags`] for transfer operations.
pub open spec fn transfer_mask() -> u32 {
    0x3u32
}

impl AccessFlags {
    /// Resource can be used as a source for transfer operations.
    pub fn transfer_read() -> (r: AccessFlags)
        ensures
            r.value() == 0x1,
    {
        AccessFlags { bits: 0x1 }
    }
    /// Resource can be used as a destination for transfer operations.
    pub fn transfer_write() -> (r: AccessFlags)
        ensures
            r.value() == 0x2,
    {
        AccessFlags { bits: 0x2 }
    }
    pub fn color_attachment_read() -> (r: AccessFlags)
        ensures
            r.value() == 0x4,
    {
        AccessFlags { bits: 0x4 }
    }
    /// Resource can be bound as a writable color attachment.
    pub fn color_attachment_write() -> (r: AccessFlags)
        ensures
            r.value() == 0x8,
    {
        AccessFlags { bits: 0x8 }
    }
    /// Resource can be used to present to the swapchain.
    pub fn present() -> (r: AccessFlags)
        ensures
            r.value() == 0x10,
    {
        AccessFlags { bits: 0x10 }
    }
    /// Resources can be bound as a read-only index buffer.
    pub fn index() -> (r: AccessFlags)
        ensures
            r.value() == 0x20,
    {
        AccessFlags { bits: 0x20 }
    }
    /// Resource can be used as the source of an indirect command.
    pub fn indirect() -> (r: AccessFlags)
        ensures
            r.value() == 0x40,
    {
        AccessFlags { bits: 0x40 }
    }
    pub fn depth_attachment_write() -> (r: AccessFlags)
        ensures
            r.value() == 0x80,
    {
        AccessFlags { bits: 0x80 }
    }
    pub fn depth_attachment_read() -> (r: AccessFlags)
        ensures
            r.value() == 0x100,
    {
        AccessFlags { bits: 0x100 }
    }
    /// Resource can be bound and accessed readable in a vertex shader.
    pub fn vertex_shader_read() -> (r: AccessFlags)
        ensures
            r.value() == 0x200,
    {
        AccessFlags { bits: 0x200 }
    }
    /// Resource can be bound and accessed writable in a vertex shader.
    pub fn vertex_shader_write() -> (r: AccessFlags)
        ensures
            r.value() == 0x400,
    {
        AccessFlags { bits: 0x400 }
    }
    /// Resource can be bound and accessed readable in a fragment shader.
    pub fn fragment_shader_read() -> (r: AccessFlags)
        ensures
            r.value() == 0x800,
    {
        AccessFlags { bits: 0x800 }
    }
    /// Resource can be bound and accessed writable in a fragment shader.
    pub fn fragment_shader_write() -> (r: AccessFlags)
        ensures
            r.value() == 0x1000,
    {
        AccessFlags { bits: 0x1000 }
    }
    /// Resource can be bound and accessed readable in a task shader.
    pub fn task_shader_read() -> (r: AccessFlags)
        ensures
            r.value() == 0x2000,
    {
        AccessFlags { bits: 0x2000 }
    }
    /// Resource can be bound and accessed writable in a task shader.
    pub fn task_shader_write() -> (r: AccessFlags)
        ensures
            r.value() == 0x4000,
    {
        AccessFlags { bits: 0x4000 }
    }
    /// Resource can be read from in a mesh shader.
    pub fn mesh_shader_read() -> (r: AccessFlags)
        ensures
            r.value() == 0x8000,
    {
        AccessFlags { bits: 0x8000 }
    }
    /// Resource can be written to in a mesh shader.
    pub fn mesh_shader_write() -> (r: AccessFlags)
        ensures
            r.value() == 0x10000,
    {
        AccessFlags { bits: 0x10000 }
    }
    /// Resource can be bound and accessed readable in any shader.
    pub fn shader_read() -> (r: AccessFlags)
        ensures
            r.value() == 0xa00,
    {
        AccessFlags { bits: 0xa00 }
    }
    /// Resource can be bound and accessed writable in any shader.
    pub fn shader_write() -> (r: AccessFlags)
        ensures
            r.value() == 0x1400,
    {
        AccessFlags { bits: 0x1400 }
    }

    /// The raw bits.
    pub closed spec fn value(self) -> u32 {
        self.bits
    }

    /// The flags with exactly the given bits.
    pub fn from_bits_retain(bits: u32) -> (r: Self)
        ensures
            r.value() == bits,
    {
        Self { bits }
    }

    /// The raw bits.
    pub fn bits(&self) -> (r: u32)
        ensures
            r == self.value(),
    {
        self.bits
    }

    /// No access at all.
    pub fn empty() -> (r: Self)
        ensures
            r.value() == 0,
    {
        Self { bits: 0 }
    }

    /// Returns `true` if no flag is set.
    pub fn is_empty(&self) -> (r: bool)
        ensures
            r == (self.value() == 0),
    {
        self.bits == 0
    }

    /// The union of both sets of flags.
    pub fn union(self, other: Self) -> (r: Self)
        ensures
            r.value() == self.value() | other.value(),
    {
        Self { bits: self.bits | other.bits }
    }

    /// Returns `true` if every flag of `other` is set in `self`.
    pub fn contains(&self, other: Self) -> (r: bool)
        ensures
            r == (self.value() & other.value() == other.value()),
    {
        self.bits & other.bits == other.bits
    }

    /// Returns `true` if `self` and `other` have a flag in common.
    pub fn intersects(&self, other: Self) -> (r: bool)
        ensures
            r == (self.value() & other.value() != 0),
    {
        self.bits & other.bits != 0
    }

    /// Returns `true` if the flags specify only read-only operations.
    ///
    /// An empty set of flags is also classified as read-only.
    pub fn is_read_only(&self) -> (r: bool)
        ensures
            r == (self.value() & write_mask() == 0),
    {
        !self.is_writable()
    }

    /// Returns `true` if any of the flags writes to the resource.
    pub fn is_writable(&self) -> (r: bool)
        ensures
            r == (self.value() & write_mask() != 0),
    {
        let mask: u32 = 2u32 | 8u32 | 0x80u32 | 0x400u32 | 0x1000u32 | 0x10000u32 | 0x4000u32;
        assert(mask == write_mask()) by (bit_vector)
            requires
                mask == 2u32 | 8u32 | 0x80u32 | 0x400u32 | 0x1000u32 | 0x10000u32 | 0x4000u32,
        ;
        self.bits & mask != 0
    }

    /// Returns `true` if all access flags are allowed to be used in a queue with the given
    /// capabilities.
    ///
    /// `PRESENT` only describes an image transition and is allowed on every queue; graphics
    /// queues allow attachment, index, indirect and shader accesses; transfer queues allow
    /// transfer accesses; compute queues add nothing.
    pub fn is_allowed_for_queue(&self, caps: &QueueCapabilities) -> (r: bool)
        ensures
            r == ({
                let rest = self.value() & !0x10u32;
                let rest = if caps.value() & 1 != 0 {
                    rest & !graphics_mask()
                } else {
                    rest
                };
                let rest = if caps.value() & 4 != 0 {
                    rest & !transfer_mask()
                } else {
                    rest
                };
                rest == 0
            }),
    {
        let graphics_flags: u32 = 4u32 | 8u32 | 0x20u32 | 0x40u32 | 0x100u32 | 0x80u32 | 0x200u32
            | 0x400u32 | 0x800u32 | 0x1000u32 | 0x2000u32 | 0x4000u32 | 0x8000u32 | 0x10000u32;
        assert(graphics_flags == graphics_mask()) by (bit_vector)
            requires
                graphics_flags == 4u32 | 8u32 | 0x20u32 | 0x40u32 | 0x100u32 | 0x80u32 | 0x200u32
                    | 0x400u32 | 0x800u32 | 0x1000u32 | 0x2000u32 | 0x4000u32 | 0x8000u32
                    | 0x10000u32,
        ;
        let compute_flags: u32 = 0;
        let transfer_flags: u32 = 1u32 | 2u32;
        assert(transfer_flags == transfer_mask()) by (bit_vector)
            requires
                transfer_flags == 1u32 | 2u32,
        ;
        let mut flags = self.bits;
        flags = flags & !0x10u32;
        if caps.bits & 1 != 0 {
            flags = flags & !graphics_flags;
        }
        if caps.bits & 2 != 0 {
            let ghost before = flags;
            flags = flags & !compute_flags;
            assert(flags == before) by (bit_vector)
                requires
                    flags == before & !0u32,
            ;
        }
        if caps.bits & 4 != 0 {
            flags = flags & !transfer_flags;
        }
        flags == 0
    }
}

/// What kind of work a queue can run, as a set of bits.
#[derive(Copy, Clone, Debug, PartialEq, Eq, Structural, Hash)]
pub struct QueueCapabilities {
    bits: u32,
}

impl QueueCapabilities {
    pub fn graphics() -> (r: QueueCapabilities)
        ensures
            r.value() == 1,
    {
        QueueCapabilities { bits: 1 }
    }
    pub fn compute() -> (r: QueueCapabilities)
        ensures
            r.value() == 2,
    {
        QueueCapabilities { bits: 2 }
    }
    pub fn transfer() -> (r: QueueCapabilities)
        ensures
            r.value() == 4,
    {
        QueueCapabilities { bits: 4 }
    }

    /// The raw bits.
    pub closed spec fn value(self) -> u32 {
        self.bits
    }

    /// The capabilities with exactly the given bits.
    pub fn from_bits_retain(bits: u32) -> (r: Self)
        ensures
            r.value() == bits,
    {
        Self { bits }
    }

    /// The union of both sets of capabilities.
    pub fn union(self, other: Self) -> (r: Self)
        ensures
            r.value() == self.value() | other.value(),
    {
        Self { bits: self.bits | other.bits }
    }
}

} // verus!
