//! Plain data vocabulary handed to the rendering backend: formats, handles,
//! pass and pipeline descriptions, and access classifications. The backend
//! itself (device, swapchain, command recording) is an external collaborator;
//! only the data it is driven with, and the small pure selection policies,
//! live here.

use vstd::prelude::*;

verus! {

/// Handle of a buffer owned by the rendering backend.
#[derive(Clone, Copy, Debug, PartialEq, Eq, Structural)]
pub struct Buffer(pub usize);

/// Handle of an image owned by the rendering backend.
#[derive(Clone, Copy, Debug, PartialEq, Eq, Structural)]
pub struct Image(pub usize);

/// Handle of a compiled pipeline.
#[derive(Clone, Copy, Debug, PartialEq, Eq, Structural)]
pub struct Pipeline(pub usize);

/// Texel and attachment formats the renderer understands.
#[derive(Clone, Copy, Debug, PartialEq, Eq, Structural)]
pub enum Format {
    Undefined,
    R32Uint,
    Rgba8Uint,
    Rgb32Uint,
    Rgba8Unorm,
    Rgba8Srgb,
    Bgra8Unorm,
    Bgra8Srgb,
    D32Sfloat,
}

impl Default for Format {
    fn default() -> (r: Self)
        ensures
            r == Format::Undefined,
    {
        Format::Undefined
    }
}

/// Preference score of a surface format; higher is better.
pub open spec fn format_priority(format: Format) -> int {
    match format {
        Format::Rgba8Srgb => 90,
        Format::Rgba8Unorm => 80,
        Format::Bgra8Srgb => 70,
        Format::Bgra8Unorm => 60,
        _ => 0,
    }
}

/// Default policy for picking a swapchain surface format: plain color
/// formats ranked by fidelity, everything else rejected with score 0.
pub fn default_surface_format_selector(format: Format) -> (r: usize)
    ensures
        r == format_priority(format),
{
    match format {
        Format::Rgba8Srgb => 90,
        Format::Rgba8Unorm => 80,
        Format::Bgra8Srgb => 70,
        Format::Bgra8Unorm => 60,
        _ => 0,
    }
}

/// What happens to an attachment at the start of a render pass.
#[derive(Clone, Copy, Debug, PartialEq, Eq, Structural)]
pub enum LoadOp {
    Load,
    Clear,
    DontCare,
}

impl Default for LoadOp {
    fn default() -> (r: Self)
        ensures
            r == LoadOp::Load,
    {
        LoadOp::Load
    }
}

/// The window rectangle a render pass draws into.
#[derive(Clone, Copy, Debug, PartialEq, Eq, Structural)]
pub struct RenderArea {
    pub x: u32,
    pub y: u32,
    pub width: u32,
    pub height: u32,
}

impl Default for RenderArea {
    fn default() -> (r: Self)
        ensures
            r == (RenderArea { x: 0, y: 0, width: 0, height: 0 }),
    {
        RenderArea { x: 0, y: 0, width: 0, height: 0 }
    }
}

/// An indexed draw: how many indices to consume.
#[derive(Clone, Copy, Debug, PartialEq, Eq, Structural)]
pub struct DrawIndexed {
    pub index_count: usize,
}

/// Lifecycle states of an image as the backend sees them.
#[derive(Clone, Copy, Debug, PartialEq, Eq, Structural)]
pub enum ImageLayout {
    Undefined,
    General,
    ColorAttachmentOptimal,
    DepthStencilAttachmentOptimal,
    Present,
}

/// Errors of the rendering backend surfaced to the caller.
#[derive(Debug)]
pub enum Error {
    Creation,
    ShaderCompilerNotFound,
    ShaderCompilationError { message: String },
}

/// Source language a shader is written in.
#[derive(Clone, Copy, Debug, PartialEq, Eq, Structural)]
pub enum ShaderLanguage {
    Glsl,
    Hlsl,
}

impl Default for ShaderLanguage {
    fn default() -> (r: Self)
        ensures
            r == ShaderLanguage::Glsl,
    {
        ShaderLanguage::Glsl
    }
}

/// Pipeline stage a shader runs in.
#[derive(Clone, Copy, Debug, PartialEq, Eq, Structural)]
pub enum ShaderType {
    Vertex,
    Fragment,
    Compute,
}

/// Options a shader compiler is constructed with.
#[derive(Clone, Copy, Debug, PartialEq, Eq, Structural)]
pub struct ShaderCompilerInfo {
    pub language: ShaderLanguage,
}

impl Default for ShaderCompilerInfo {
    fn default() -> (r: Self)
        ensures
            r == (ShaderCompilerInfo { language: ShaderLanguage::Glsl }),
    {
        ShaderCompilerInfo { language: ShaderLanguage::Glsl }
    }
}

/// Which external shader compiler to drive, and in which language mode;
/// `Prebuilt` reads already-compiled output instead of driving a compiler.
#[derive(Clone, Copy, Debug, PartialEq, Eq, Structural)]
pub enum ShaderCompiler {
    Prebuilt,
    Glslc { language: ShaderLanguage },
    Dxc { language: ShaderLanguage },
}

impl Default for ShaderCompiler {
    fn default() -> (r: Self)
        ensures
            r == ShaderCompiler::Prebuilt,
    {
        ShaderCompiler::Prebuilt
    }
}

impl ShaderCompiler {
    /// A glslc driver in the given language mode.
    pub fn glslc(info: ShaderCompilerInfo) -> (r: Self)
        ensures
            r == (ShaderCompiler::Glslc { language: info.language }),
    {
        ShaderCompiler::Glslc { language: info.language }
    }

    /// A dxc driver in the given language mode.
    pub fn dxc(info: ShaderCompilerInfo) -> (r: Self)
        ensures
            r == (ShaderCompiler::Dxc { language: info.language }),
    {
        ShaderCompiler::Dxc { language: info.language }
    }
}

/// How the swapchain paces presentation against the display.
#[derive(Clone, Copy, Debug, PartialEq, Eq, Structural)]
pub enum PresentMode {
    DoNotWaitForVBlank,
    TripleBufferWaitForVBlank,
    DoubleBufferWaitForVBlank,
    DoubleBufferWaitForVBlankRelaxed,
}

/// Physical device classes.
#[derive(Clone, Copy, Debug, PartialEq, Eq, Structural)]
pub enum DeviceType {
    Other,
    Integrated,
    Virtual,
    Discrete,
}

/// Device feature set; currently no optional features are surfaced.
#[derive(Clone, Copy, Debug, PartialEq, Eq, Structural)]
pub struct Features {}

/// Ordering constraint between recorded tasks.
#[derive(Clone, Copy, Debug, PartialEq, Eq, Structural)]
pub enum Dependency {
    Implicit,
    Explicit(usize, usize),
}

/// How a task accesses an image.
#[derive(Clone, Copy, Debug, PartialEq, Eq, Structural)]
pub enum ImageAccess {
    NoAccess,
    ShaderReadOnly,
    VertexShaderReadOnly,
    FragmentShaderReadOnly,
    ComputeShaderReadOnly,
    ShaderWriteOnly,
    VertexShaderWriteOnly,
    FragmentShaderWriteOnly,
    ComputeShaderWriteOnly,
    ShaderReadWrite,
    VertexShaderReadWrite,
    FragmentShaderReadWrite,
    ComputeShaderReadWrite,
    TransferRead,
    TransferWrite,
    ColorAttachment,
    DepthAttachment,
    StencilAttachment,
    DepthStencilAttachment,
    DepthAttachmentReadOnly,
    StencilAttachmentReadOnly,
    DepthStencilAttachmentReadOnly,
    ResolveWrite,
    Present,
}

/// How a task accesses a buffer.
#[derive(Clone, Copy, Debug, PartialEq, Eq, Structural)]
pub enum BufferAccess {
    NoAccess,
    ShaderReadOnly,
    VertexShaderReadOnly,
    FragmentShaderReadOnly,
    ComputeShaderReadOnly,
    ShaderWriteOnly,
    VertexShaderWriteOnly,
    FragmentShaderWriteOnly,
    ComputeShaderWriteOnly,
    ShaderReadWrite,
    VertexShaderReadWrite,
    FragmentShaderReadWrite,
    ComputeShaderReadWrite,
    TransferRead,
    TransferWrite,
    HostTransferRead,
    HostTransferWrite,
}

/// Which side of a triangle counts as its front.
#[derive(Clone, Copy, Debug, PartialEq, Eq, Structural)]
pub enum FrontFace {
    Clockwise,
    CounterClockwise,
}

impl Default for FrontFace {
    fn default() -> (r: Self)
        ensures
            r == FrontFace::CounterClockwise,
    {
        FrontFace::CounterClockwise
    }
}

/// How polygons are rasterized.
#[derive(Clone, Copy, Debug, PartialEq, Eq, Structural)]
pub enum PolygonMode {
    Fill,
    Line,
    Point,
}

impl Default for PolygonMode {
    fn default() -> (r: Self)
        ensures
            r == PolygonMode::Fill,
    {
        PolygonMode::Fill
    }
}

/// Blend weight applied to a source or destination color.
#[derive(Clone, Copy, Debug, PartialEq, Eq, Structural)]
pub enum BlendFactor {
    Zero,
    One,
    SrcColor,
    OneMinusSrcColor,
    DstColor,
    OneMinusDstColor,
    SrcAlpha,
    OneMinusSrcAlpha,
    DstAlpha,
    OneMinusDstAlpha,
    ConstantColor,
    OneMinusConstantColor,
    ConstantAlpha,
    OneMinusConstantAlpha,
    SrcAlphaSaturate,
}

/// Operator combining weighted source and destination colors.
#[derive(Clone, Copy, Debug, PartialEq, Eq, Structural)]
pub enum BlendOp {
    Add,
    Subtract,
    ReverseSubtract,
    Min,
    Max,
}

/// Mask of color channels a blend writes; one bit per channel, low to high:
/// red, green, blue, alpha.
#[derive(Clone, Copy, Debug, PartialEq, Eq, Structural)]
pub struct ColorComponent(pub u32);

/// All four color channels.
pub const COLOR_COMPONENT_ALL: u32 = 0xF;

/// Per-attachment blend state.
#[derive(Clone, Copy, Debug, PartialEq, Eq, Structural)]
pub struct Blend {
    pub src_color: BlendFactor,
    pub dst_color: BlendFactor,
    pub color_blend: BlendOp,
    pub src_alpha: BlendFactor,
    pub dst_alpha: BlendFactor,
    pub alpha_blend: BlendOp,
    pub color_write: ColorComponent,
}

impl Default for Blend {
    /// Pass the source through untouched, writing every channel.
    fn default() -> (r: Self)
        ensures
            r == (Blend {
                src_color: BlendFactor::One,
                dst_color: BlendFactor::Zero,
                color_blend: BlendOp::Add,
                src_alpha: BlendFactor::One,
                dst_alpha: BlendFactor::Zero,
                alpha_blend: BlendOp::Add,
                color_write: ColorComponent(COLOR_COMPONENT_ALL),
            }),
    {
        Blend {
            src_color: BlendFactor::One,
            dst_color: BlendFactor::Zero,
            color_blend: BlendOp::Add,
            src_alpha: BlendFactor::One,
            dst_alpha: BlendFactor::Zero,
            alpha_blend: BlendOp::Add,
            color_write: ColorComponent(COLOR_COMPONENT_ALL),
        }
    }
}

/// Depth-test comparison operator.
#[derive(Clone, Copy, Debug, PartialEq, Eq, Structural)]
pub enum CompareOp {
    Never,
    Less,
    Equal,
    LessOrEqual,
    Greater,
    NotEqual,
    GreaterOrEqual,
    Always,
}

impl Default for CompareOp {
    fn default() -> (r: Self)
        ensures
            r == CompareOp::Never,
    {
        CompareOp::Never
    }
}

/// Construction options for a binary semaphore.
#[derive(Clone, Copy, Debug)]
pub struct BinarySemaphoreInfo<'a> {
    pub debug_name: &'a str,
}

/// Construction options for a timeline semaphore.
#[derive(Clone, Copy, Debug)]
pub struct TimelineSemaphoreInfo<'a> {
    pub initial_value: u64,
    pub debug_name: &'a str,
}

} // verus!
