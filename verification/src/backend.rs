use vstd::prelude::*;

use crate::access::QueueCapabilities;

verus! {

/// The kind of a physical device.
#[derive(Copy, Clone, Debug, PartialEq, Eq, Structural, Hash)]
pub enum AdapterKind {
    DiscreteGpu,
    IntegratedGpu,
    /// Software rasterizer
    Cpu,
    Other,
}

/// Memory heaps and types exposed by a device.
#[derive(Clone, Debug)]
pub struct AdapterMemoryProperties {
    pub heaps: Vec<MemoryHeap>,
    pub types: Vec<MemoryType>,
    /// Maximum size of a single allocation; never zero.
    pub max_allocation_size: u64,
}

/// A memory heap of a device.
#[derive(Copy, Clone, Debug)]
pub struct MemoryHeap {
    pub id: u32,
    pub size: u64,
    /// Bit 0: the heap is local to the device.
    pub flags: u8,
}

/// A memory type of a device.
#[derive(Copy, Clone, Debug)]
pub struct MemoryType {
    pub id: u32,
    pub heap: u32,
    /// Bit 0: device local, bit 1: host visible, bit 2: host coherent, bit 3: protected.
    pub flags: u32,
}

/// A family of queues with common capabilities.
#[derive(Copy, Clone, Debug)]
pub struct QueueFamily {
    pub id: QueueFamilyId,
    pub count: u32,
    pub capabilities: QueueCapabilities,
}

/// Identifies a queue family of a device.
#[derive(Copy, Clone, Debug, PartialEq, Eq, Structural, Hash)]
pub struct QueueFamilyId(pub u32);

/// How images are handed to the presentation engine.
#[derive(Copy, Clone, Debug, PartialEq, Eq, Structural, Hash)]
pub enum PresentMode {
    Fifo,
    Immediate,
    FifoRelaxed,
    Mailbox,
}

/// The pixel formats that textures can have.
#[derive(Copy, Clone, Debug, PartialEq, Eq, Structural, Hash)]
pub enum TextureFormat {
    Rgba8Unorm,
    Rgba8UnormSrgb,
    Bgra8Unorm,
    Bgra8UnormSrgb,
    Depth32Float,
    Rgba16Float,
    Bc1RgbaUnorm,
    Bc1RgbaUnormSrgb,
    Bc2RgbaUnorm,
    Bc2RgbaUnormSrgb,
    Bc3RgbaUnorm,
    Bc3RgbaUnormSrgb,
    Bc4RUnorm,
    Bc4RSnorm,
    Bc5RgUnorm,
    Bc5RgSnorm,
    Bc6HRgbUFloat,
    Bc6HRgbSFloat,
    Bc7RgbaUnorm,
    Bc7RgbaUnormSrgb,
}

/// The sRGB formats.
pub open spec fn is_srgb_format(f: TextureFormat) -> bool {
    f == TextureFormat::Rgba8UnormSrgb || f == TextureFormat::Bgra8UnormSrgb || f
        == TextureFormat::Bc1RgbaUnormSrgb || f == TextureFormat::Bc2RgbaUnormSrgb || f
        == TextureFormat::Bc3RgbaUnormSrgb || f == TextureFormat::Bc7RgbaUnormSrgb
}

/// The number of bytes of one 4x4 block of texels.
pub open spec fn block_bytes(f: TextureFormat) -> u32 {
    match f {
        TextureFormat::Rgba8Unorm | TextureFormat::Rgba8UnormSrgb | TextureFormat::Bgra8Unorm
        | TextureFormat::Bgra8UnormSrgb | TextureFormat::Depth32Float => 64,
        TextureFormat::Rgba16Float => 128,
        TextureFormat::Bc1RgbaUnorm | TextureFormat::Bc1RgbaUnormSrgb | TextureFormat::Bc4RUnorm
        | TextureFormat::Bc4RSnorm => 8,
        _ => 16,
    }
}

impl TextureFormat {
    /// Returns `true` for formats whose color channels are sRGB encoded.
    pub fn is_srgb(&self) -> (r: bool)
        ensures
            r == is_srgb_format(*self),
    {
        match self {
            Self::Rgba8UnormSrgb => true,
            Self::Bgra8UnormSrgb => true,
            Self::Bc1RgbaUnormSrgb => true,
            Self::Bc2RgbaUnormSrgb => true,
            Self::Bc3RgbaUnormSrgb => true,
            Self::Bc7RgbaUnormSrgb => true,
            _ => false,
        }
    }

    /// Returns `true` for depth formats.
    pub fn is_depth(&self) -> (r: bool)
        ensures
            r == (*self == TextureFormat::Depth32Float),
    {
        matches!(self, Self::Depth32Float)
    }

    /// Returns the number of bytes per 4x4 block.
    pub fn bytes_per_block(&self) -> (r: u32)
        ensures
            r == block_bytes(*self),
    {
        match self {
            TextureFormat::Rgba8Unorm => 64,
            TextureFormat::Rgba8UnormSrgb => 64,
            TextureFormat::Bgra8Unorm => 64,
            TextureFormat::Bgra8UnormSrgb => 64,
            TextureFormat::Rgba16Float => 128,
            TextureFormat::Depth32Float => 64,
            TextureFormat::Bc1RgbaUnorm => 8,
            TextureFormat::Bc1RgbaUnormSrgb => 8,
            TextureFormat::Bc2RgbaUnorm => 16,
            TextureFormat::Bc2RgbaUnormSrgb => 16,
            TextureFormat::Bc3RgbaUnorm => 16,
            TextureFormat::Bc3RgbaUnormSrgb => 16,
            TextureFormat::Bc4RUnorm => 8,
            TextureFormat::Bc4RSnorm => 8,
            TextureFormat::Bc5RgSnorm => 16,
            TextureFormat::Bc5RgUnorm => 16,
            TextureFormat::Bc6HRgbUFloat => 16,
            TextureFormat::Bc6HRgbSFloat => 16,
            TextureFormat::Bc7RgbaUnorm => 16,
            TextureFormat::Bc7RgbaUnormSrgb => 16,
        }
    }

    /// The formats that the renderer supports, in order.
    pub open spec fn all_spec() -> Seq<TextureFormat> {
        seq![
            TextureFormat::Rgba8Unorm,
            TextureFormat::Rgba8UnormSrgb,
            TextureFormat::Bgra8Unorm,
            TextureFormat::Bgra8UnormSrgb,
            TextureFormat::Depth32Float,
            TextureFormat::Rgba16Float,
            TextureFormat::Bc1RgbaUnorm,
            TextureFormat::Bc1RgbaUnormSrgb,
            TextureFormat::Bc2RgbaUnorm,
            TextureFormat::Bc2RgbaUnormSrgb,
            TextureFormat::Bc3RgbaUnorm,
            TextureFormat::Bc3RgbaUnormSrgb,
            TextureFormat::Bc5RgUnorm,
            TextureFormat::Bc5RgSnorm,
        ]
    }

    /// Returns the formats that the renderer supports.
    pub fn all() -> (r: Vec<Self>)
        ensures
            r@ == Self::all_spec(),
    {
        let r = vec![
            Self::Rgba8Unorm,
            Self::Rgba8UnormSrgb,
            Self::Bgra8Unorm,
            Self::Bgra8UnormSrgb,
            Self::Depth32Float,
            Self::Rgba16Float,
            Self::Bc1RgbaUnorm,
            Self::Bc1RgbaUnormSrgb,
            Self::Bc2RgbaUnorm,
            Self::Bc2RgbaUnormSrgb,
            Self::Bc3RgbaUnorm,
            Self::Bc3RgbaUnormSrgb,
            Self::Bc5RgUnorm,
            Self::Bc5RgSnorm,
        ];
        proof {
            assert(r@ =~= Self::all_spec());
        }
        r
    }
}

/// Depth testing of a pipeline.
#[derive(Copy, Clone, Debug)]
pub struct DepthStencilState {
    pub format: TextureFormat,
    pub depth_write_enabled: bool,
    pub depth_compare_op: CompareOp,
}

/// A range of push constants visible to some shader stages.
#[derive(Clone, Debug)]
pub struct PushConstantRange {
    pub start: u32,
    pub end: u32,
    pub stages: ShaderStages,
}

/// How vertices are assembled into primitives.
#[derive(Copy, Clone, Debug, PartialEq, Eq, Structural, Hash)]
pub enum PrimitiveTopology {
    TriangleList,
    LineList,
    PointList,
    LineStrip,
    TriangleStrip,
}

/// The winding order of front faces.
#[derive(Copy, Clone, Debug, PartialEq, Eq, Structural, Hash)]
pub enum FrontFace {
    Cw,
    Ccw,
}

/// A face of a primitive.
#[derive(Copy, Clone, Debug, PartialEq, Eq, Structural, Hash)]
pub enum Face {
    Front,
    Back,
}

/// A color attachment of a pipeline.
#[derive(Clone, Debug)]
pub struct ColorTargetState {
    pub format: TextureFormat,
    pub blend: Option<BlendState>,
}

/// How new colors are blended with the attachment.
#[derive(Copy, Clone, Debug)]
pub struct BlendState {
    pub color_src_factor: BlendFactor,
    pub color_dst_factor: BlendFactor,
    pub color_op: BlendOp,
    pub alpha_src_factor: BlendFactor,
    pub alpha_dst_factor: BlendFactor,
    pub alpha_op: BlendOp,
}

impl BlendState {
    /// Blending for colors that are already multiplied by their alpha.
    pub fn premultiplied_alpha() -> (r: Self)
        ensures
            r.color_src_factor == BlendFactor::One,
            r.color_dst_factor == BlendFactor::OneMinusSrcAlpha,
            r.color_op == BlendOp::Add,
            r.alpha_src_factor == BlendFactor::One,
            r.alpha_dst_factor == BlendFactor::OneMinusSrcAlpha,
            r.alpha_op == BlendOp::Add,
    {
        Self {
            color_src_factor: BlendFactor::One,
            color_dst_factor: BlendFactor::OneMinusSrcAlpha,
            color_op: BlendOp::Add,
            alpha_src_factor: BlendFactor::One,
            alpha_dst_factor: BlendFactor::OneMinusSrcAlpha,
            alpha_op: BlendOp::Add,
        }
    }

    /// Blending for colors that are not multiplied by their alpha.
    pub fn non_premultiplied_alpha() -> (r: Self)
        ensures
            r.color_src_factor == BlendFactor::SrcAlpha,
            r.color_dst_factor == BlendFactor::OneMinusSrcAlpha,
            r.color_op == BlendOp::Add,
            r.alpha_src_factor == BlendFactor::One,
            r.alpha_dst_factor == BlendFactor::OneMinusSrcAlpha,
            r.alpha_op == BlendOp::Add,
    {
        Self {
            color_src_factor: BlendFactor::SrcAlpha,
            color_dst_factor: BlendFactor::OneMinusSrcAlpha,
            color_op: BlendOp::Add,
            alpha_src_factor: BlendFactor::One,
            alpha_dst_factor: BlendFactor::OneMinusSrcAlpha,
            alpha_op: BlendOp::Add,
        }
    }
}

/// A factor of a blend equation.
#[derive(Copy, Clone, Debug, PartialEq, Eq, Structural, Hash)]
pub enum BlendFactor {
    Zero,
    One,
    Src,
    OneMinusSrc,
    SrcAlpha,
    OneMinusSrcAlpha,
    Dst,
    OneMinusDst,
    DstAlpha,
    OneMinusDstAlpha,
}

/// The operation of a blend equation.
#[derive(Copy, Clone, Debug, PartialEq, Eq, Structural, Hash)]
pub enum BlendOp {
    Add,
}

/// A comparison for depth tests.
#[derive(Copy, Clone, Debug, PartialEq, Eq, Structural)]
pub enum CompareOp {
    Never,
    Less,
    Equal,
    LessEqual,
    Greater,
    NotEqual,
    GreaterEqual,
    Always,
}

/// What happens to an attachment at the start of a render pass.
#[derive(Copy, Clone, Debug)]
pub enum LoadOp<T> {
    Clear(T),
    Load,
}

/// What happens to an attachment at the end of a render pass.
#[derive(Copy, Clone, Debug, PartialEq, Eq, Structural, Hash)]
pub enum StoreOp {
    Discard,
    Store,
}

/// A binding of a descriptor set layout.
#[derive(Copy, Clone, Debug)]
pub struct DescriptorBinding {
    pub binding: u32,
    pub visibility: ShaderStages,
    pub kind: DescriptorType,
    /// Number of descriptors in the binding; never zero.
    pub count: u32,
}

/// A programmable stage of a pipeline.
#[derive(Copy, Clone, Debug, PartialEq, Eq, Structural, Hash)]
pub enum ShaderStage {
    Vertex,
    Fragment,
    Task,
    Mesh,
}

impl ShaderStage {
    /// The one-element set of stages holding this stage.
    pub fn stages(self) -> (r: ShaderStages)
        ensures
            r.bits == match self {
                ShaderStage::Vertex => 1u32,
                ShaderStage::Fragment => 2u32,
                ShaderStage::Task => 4u32,
                ShaderStage::Mesh => 8u32,
            },
    {
        match self {
            Self::Vertex => ShaderStages { bits: 1 },
            Self::Fragment => ShaderStages { bits: 2 },
            Self::Task => ShaderStages { bits: 4 },
            Self::Mesh => ShaderStages { bits: 8 },
        }
    }
}

/// A set of shader stages: bit 0 vertex, bit 1 fragment, bit 2 task, bit 3 mesh.
#[derive(Copy, Clone, Debug, PartialEq, Eq, Structural, Hash)]
pub struct ShaderStages {
    pub bits: u32,
}

/// The kind of resource a descriptor binds.
#[derive(Copy, Clone, Debug, PartialEq, Eq, Structural, Hash)]
pub enum DescriptorType {
    Uniform,
    Storage,
    Sampler,
    Texture,
}

/// Size, alignment and allowed memory types of a resource's memory.
#[derive(Clone, Debug)]
pub struct MemoryRequirements {
    /// Never zero.
    pub size: u64,
    /// Never zero.
    pub align: u64,
    pub memory_types: Vec<u32>,
}

impl MemoryRequirements {
    /// The number of bytes needed after `size` to reach the next multiple of `align`.
    pub fn padding_needed(&self) -> (r: u64)
        requires
            self.align > 0,
        ensures
            r == if self.size % self.align == 0 {
                0
            } else {
                self.align - self.size % self.align
            },
            (self.size + r) % (self.align as int) == 0,
            r < self.align,
    {
        let size = self.size;
        let align = self.align;
        if size % align == 0 {
            0
        } else {
            proof {
                let q = size / align;
                let m = size % align;
                assert(size == q * align + m) by (nonlinear_arith)
                    requires
                        q == size / align,
                        m == size % align,
                        align > 0,
                ;
                assert((size + (align - m)) % (align as int) == 0) by (nonlinear_arith)
                    requires
                        size == q * align + m,
                        align > 0,
                {
                    assert(size + (align - m) == (q + 1) * align);
                    vstd::arithmetic::div_mod::lemma_mod_multiples_basic(q + 1, align as int);
                }
            }
            align - (size % align)
        }
    }
}

/// Limits of a descriptor pool.
#[derive(Clone, Debug)]
pub struct DescriptorPoolDescriptor {
    /// The maximum number of descriptor set that can be allocated from the pool; never zero.
    pub max_sets: u32,
    pub max_uniform_buffers: u32,
    pub max_storage_buffers: u32,
    pub max_samplers: u32,
    pub max_sampled_images: u32,
}

/// The layout of a texture in memory.
#[derive(Copy, Clone, Debug, PartialEq, Eq, Structural, Hash)]
pub enum TextureLayout {
    Undefined,
    Present,
    ColorAttachment,
    TransferDst,
    ShaderRead,
}

/// The layout of image data in a buffer.
#[derive(Copy, Clone, Debug)]
pub struct ImageDataLayout {
    pub bytes_per_row: u32,
    pub rows_per_image: u32,
}

/// Filtering and addressing of a sampler.
pub struct SamplerDescriptor {
    pub min_filter: FilterMode,
    pub mag_filter: FilterMode,
    pub address_mode_u: AddressMode,
    pub address_mode_v: AddressMode,
    pub address_mode_w: AddressMode,
    pub mipmap_filter: FilterMode,
}

/// How texels are filtered.
#[derive(Copy, Clone, Debug, PartialEq, Eq, Structural, Hash)]
pub enum FilterMode {
    Nearest,
    Linear,
}

/// How coordinates outside a texture are handled.
#[derive(Copy, Clone, Debug, PartialEq, Eq, Structural, Hash)]
pub enum AddressMode {
    Repeat,
    MirrorRepeat,
    ClampToEdge,
    ClampToBorder,
}

/// The integer type of an index buffer.
#[derive(Copy, Clone, Debug, PartialEq, Eq, Structural, Hash)]
pub enum IndexFormat {
    U16,
    U32,
}

impl IndexFormat {
    /// Returns the number of bytes needed to represent an index.
    pub fn size(&self) -> (r: u8)
        ensures
            r == match *self {
                IndexFormat::U16 => 2u8,
                IndexFormat::U32 => 4u8,
            },
    {
        match self {
            Self::U16 => 2,
            Self::U32 => 4,
        }
    }
}

/// Describes a shader module; carries no options.
pub struct ShaderModuleDescriptor {}

/// The arguments of an indirect draw call, as laid out in GPU memory.
#[derive(Copy, Clone, Debug)]
pub struct DrawIndirectArgs {
    pub vertex_count: u32,
    pub instance_count: u32,
    pub first_vertex: u32,
    pub first_instance: u32,
}

/// A stage of the pipeline that a barrier waits for or blocks.
#[derive(Copy, Clone, Debug, PartialEq, Eq, Structural)]
pub enum BarrierPipelineStage {
    /// ALL
    Top,
    /// TRANSFR/COMPUTE/GRAPHICS
    DrawIndirect,
    /// TRANSFER
    Transfer,
    /// COMPUTE
    Compute,
    /// GRAPHICS
    VertexInput,
    /// GRAPHICS
    VertexShader,
    /// GRAPHICS
    TessellationControlShader,
    /// GRAPHICS
    TesselationEvaluationShader,
    /// GRAPHICS
    GeometryShader,
    /// GRAPHICS
    EarlyFragmentTests,
    /// GRAPHICS
    FragmentShader,
    /// GRAPHICS
    LateFragmentTests,
    /// GRAPHICS
    ColorAttachmentOutput,
    /// ALL
    Bottom,
}

/// The mip levels a texture view covers.
#[derive(Clone, Debug)]
pub struct TextureViewDescriptor {
    pub base_mip_level: u32,
    pub mip_levels: u32,
}

/// A format and color space that a surface supports.
#[derive(Copy, Clone, Debug, PartialEq, Eq, Structural, Hash)]
pub struct SurfaceFormat {
    pub format: TextureFormat,
    pub color_space: ColorSpace,
}

/// The color space of a surface.
#[derive(Copy, Clone, Debug, PartialEq, Eq, Structural, Hash)]
pub enum ColorSpace {
    SrgbNonLinear,
}

/// Packs a Vulkan API version number.
pub fn make_api_version(major: u32, minor: u32, patch: u32) -> (r: u32)
    ensures
        r == (((major << 22u32) as u32) | ((minor << 12u32) as u32) | patch),
{
    (major << 22) | (minor << 12) | patch
}

/// Returns the number of mip levels of a full mip chain for a texture of the given size.
pub fn max_mips_2d(width: u32, height: u32) -> (r: u32)
    ensures
        r == crate::backend::bit_length(if width >= height {
            width
        } else {
            height
        } as nat),
{
    let max_dim = if width >= height {
        width
    } else {
        height
    };
    let mut n: u32 = 0;
    let mut v = max_dim;
    proof {
        lemma_bit_length_bound(max_dim as nat);
    }
    while v > 0
        invariant
            n + bit_length(v as nat) == bit_length(max_dim as nat),
            bit_length(max_dim as nat) <= 32,
            v <= max_dim,
        decreases v,
    {
        v = v / 2;
        n = n + 1;
    }
    n
}

/// The number of binary digits of `v`, i.e. `32 - v.leading_zeros()` for a `u32`.
pub open spec fn bit_length(v: nat) -> nat
    decreases v,
{
    if v == 0 {
        0
    } else {
        1 + bit_length(v / 2)
    }
}

proof fn lemma_bit_length_bound(v: nat)
    requires
        v <= u32::MAX,
    ensures
        bit_length(v) <= 32,
    decreases v,
{
    if v > 0 {
        vstd::arithmetic::power2::lemma2_to64();
        lemma_bit_length_halves(v, 32);
    }
}

proof fn lemma_bit_length_halves(v: nat, k: nat)
    requires
        v < vstd::arithmetic::power2::pow2(k),
    ensures
        bit_length(v) <= k,
    decreases v,
{
    if v > 0 {
        if k == 0 {
            vstd::arithmetic::power2::lemma2_to64();
        } else {
            vstd::arithmetic::power2::lemma_pow2_unfold(k);
            lemma_bit_length_halves(v / 2, (k - 1) as nat);
        }
    }
}

} // verus!
