use crate::buffer::BufferSlice;
use std::ops::Range;
use vstd::prelude::*;

verus! {

#[derive(Debug, Clone, Copy, PartialEq, Eq, Structural)]
pub struct WindowHandle {
    pub id: u32,
}

#[derive(Debug, Clone, Copy)]
pub struct PipelineHandle {
    pub id: u32,
}

pub struct Surface {}

#[derive(Debug, Clone, Copy, PartialEq, Eq, Structural)]
pub struct BufferHandle {
    pub id: u32,
    pub size: u64,
}

#[derive(Debug)]
pub struct Pipeline {}

#[derive(Debug, Clone, Copy)]
pub struct TextureHandle {
    pub id: u32,
}

/// The device behind the renderer. Every method has a default that does nothing
/// and hands back the handle numbered 0, so that an implementor writes only
/// what it needs.
pub trait Hardware {
    /// Creates a device buffer of `size` bytes. The number of the handle is the
    /// device's choice; the size it carries is the size that was asked for.
    fn create_buffer(&mut self, name: &str, size: u64) -> (handle: BufferHandle)
        ensures
            handle.size == size,
    {
        BufferHandle { id: 0, size }
    }

    fn destroy_buffer(&mut self, handle: BufferHandle) {
    }

    fn create_texture(&mut self, name: &str, data: &[u8], width: u32, height: u32) -> TextureHandle {
        TextureHandle { id: 0 }
    }

    fn create_pipeline(&mut self, name: &str, window: WindowHandle) -> PipelineHandle {
        PipelineHandle { id: 0 }
    }

    fn render(&mut self, encoder: RenderEncoder, window: WindowHandle) {
    }

    fn destroy_window(&mut self, handle: WindowHandle) {
    }

    fn write_buffer(&mut self, buffer: BufferHandle, data: &[u8]) {
    }

    fn save_screenshot(&mut self, window: WindowHandle, path: &str) {
    }
}

/// How often progress is reported in a run of at most `max` iterations: at
/// every iteration in a run of up to ten, at every tenth in a run of up to a
/// hundred, and so on up to every ten thousandth.
pub open spec fn log_interval(max: u64) -> u64 {
    if max <= 10 {
        1
    } else if max <= 100 {
        10
    } else if max <= 1000 {
        100
    } else if max <= 10000 {
        1000
    } else {
        10000
    }
}

/// The number of iterations between two reports of progress in a run of at
/// most `max` iterations.
pub fn iteration_log_interval(max: u64) -> (r: u64)
    ensures
        r == log_interval(max),
{
    if max <= 10 {
        1
    } else if max <= 100 {
        10
    } else if max <= 1000 {
        100
    } else if max <= 10000 {
        1000
    } else {
        10000
    }
}

/// One draw call: the bindings of its render pass at the moment of the call.
#[derive(Debug)]
pub struct Subpass {
    pub vertex_buffers: Vec<(u32, BufferSlice)>,
    pub index_buffer: Option<BufferSlice>,
    pub pipeline: Option<PipelineHandle>,
    pub buffers: Vec<(u32, BufferHandle)>,
    pub indices: Option<Range<u32>>,
    pub instances: Option<Range<u32>>,
    pub textures: Vec<(u32, TextureHandle)>,
}

impl Default for Subpass {
    fn default() -> (subpass: Self)
        ensures
            subpass.vertex_buffers@.len() == 0,
            subpass.index_buffer is None,
            subpass.pipeline is None,
            subpass.buffers@.len() == 0,
            subpass.indices is None,
            subpass.instances is None,
            subpass.textures@.len() == 0,
    {
        Subpass {
            vertex_buffers: Vec::new(),
            index_buffer: None,
            pipeline: None,
            buffers: Vec::new(),
            indices: None,
            instances: None,
            textures: Vec::new(),
        }
    }
}

/// The bindings that the next draw call will use, and the draw calls recorded so far.
#[derive(Debug)]
pub struct RenderPass {
    pub subpasses: Vec<Subpass>,
    pub vertex_buffers: Vec<(u32, BufferSlice)>,
    pub index_buffer: Option<BufferSlice>,
    pub pipeline: Option<PipelineHandle>,
    pub buffers: Vec<(u32, BufferHandle)>,
    pub textures: Vec<(u32, TextureHandle)>,
    pub indices: Option<Range<u32>>,
    pub instances: Option<Range<u32>>,
}

impl RenderPass {
    /// A pass with nothing bound and nothing drawn.
    pub open spec fn is_blank(&self) -> bool {
        &&& self.subpasses@.len() == 0
        &&& self.vertex_buffers@.len() == 0
        &&& self.index_buffer is None
        &&& self.pipeline is None
        &&& self.buffers@.len() == 0
        &&& self.textures@.len() == 0
        &&& self.indices is None
        &&& self.instances is None
    }

    /// Whether `subpass` holds exactly the bindings of this pass.
    pub open spec fn recorded_in(&self, subpass: &Subpass) -> bool {
        &&& subpass.vertex_buffers@ == self.vertex_buffers@
        &&& subpass.index_buffer == self.index_buffer
        &&& subpass.pipeline == self.pipeline
        &&& subpass.buffers@ == self.buffers@
        &&& subpass.indices == self.indices
        &&& subpass.instances == self.instances
        &&& subpass.textures@ == self.textures@
    }

    /// Binds a buffer to a slot, after the buffers bound before.
    pub fn bind_buffer(&mut self, slot: u32, handle: BufferHandle)
        ensures
            final(self).buffers@ == old(self).buffers@.push((slot, handle)),
            final(self).subpasses@ == old(self).subpasses@,
            final(self).vertex_buffers@ == old(self).vertex_buffers@,
            final(self).index_buffer == old(self).index_buffer,
            final(self).pipeline == old(self).pipeline,
            final(self).textures@ == old(self).textures@,
            final(self).indices == old(self).indices,
            final(self).instances == old(self).instances,
    {
        self.buffers.push((slot, handle));
    }

    /// Binds a texture to a slot, after the textures bound before.
    pub fn bind_texture(&mut self, slot: u32, texture: TextureHandle)
        ensures
            final(self).textures@ == old(self).textures@.push((slot, texture)),
            final(self).subpasses@ == old(self).subpasses@,
            final(self).vertex_buffers@ == old(self).vertex_buffers@,
            final(self).index_buffer == old(self).index_buffer,
            final(self).pipeline == old(self).pipeline,
            final(self).buffers@ == old(self).buffers@,
            final(self).indices == old(self).indices,
            final(self).instances == old(self).instances,
    {
        self.textures.push((slot, texture));
    }

    /// Binds a vertex buffer to a slot, after the vertex buffers bound before.
    pub fn set_vertex_buffer(&mut self, slot: u32, buffer: BufferSlice)
        ensures
            final(self).vertex_buffers@ == old(self).vertex_buffers@.push((slot, buffer)),
            final(self).subpasses@ == old(self).subpasses@,
            final(self).index_buffer == old(self).index_buffer,
            final(self).pipeline == old(self).pipeline,
            final(self).buffers@ == old(self).buffers@,
            final(self).textures@ == old(self).textures@,
            final(self).indices == old(self).indices,
            final(self).instances == old(self).instances,
    {
        self.vertex_buffers.push((slot, buffer));
    }

    /// Replaces the index buffer.
    pub fn set_index_buffer(&mut self, buffer: BufferSlice)
        ensures
            final(self).index_buffer == Some(buffer),
            final(self).subpasses@ == old(self).subpasses@,
            final(self).vertex_buffers@ == old(self).vertex_buffers@,
            final(self).pipeline == old(self).pipeline,
            final(self).buffers@ == old(self).buffers@,
            final(self).textures@ == old(self).textures@,
            final(self).indices == old(self).indices,
            final(self).instances == old(self).instances,
    {
        self.index_buffer = Some(buffer);
    }

    /// Replaces the pipeline.
    pub fn set_pipeline(&mut self, pipeline: PipelineHandle)
        ensures
            final(self).pipeline == Some(pipeline),
            final(self).subpasses@ == old(self).subpasses@,
            final(self).vertex_buffers@ == old(self).vertex_buffers@,
            final(self).index_buffer == old(self).index_buffer,
            final(self).buffers@ == old(self).buffers@,
            final(self).textures@ == old(self).textures@,
            final(self).indices == old(self).indices,
            final(self).instances == old(self).instances,
    {
        self.pipeline = Some(pipeline);
    }

    /// Sets the index and instance ranges and records a draw call with the
    /// bindings as they then stand.
    pub fn draw_indexed(&mut self, indices: Range<u32>, instances: Range<u32>)
        ensures
            final(self).indices == Some(indices),
            final(self).instances == Some(instances),
            final(self).vertex_buffers@ == old(self).vertex_buffers@,
            final(self).index_buffer == old(self).index_buffer,
            final(self).pipeline == old(self).pipeline,
            final(self).buffers@ == old(self).buffers@,
            final(self).textures@ == old(self).textures@,
            final(self).subpasses@.len() == old(self).subpasses@.len() + 1,
            final(self).subpasses@.drop_last() == old(self).subpasses@,
            final(self).recorded_in(&final(self).subpasses@.last()),
    {
        self.indices = Some(indices.start..indices.end);
        self.instances = Some(instances.start..instances.end);
        let subpass = Subpass {
            vertex_buffers: copy_slices(&self.vertex_buffers),
            index_buffer: match &self.index_buffer {
                Some(buffer) => Some(buffer.clone()),
                None => None,
            },
            pipeline: self.pipeline,
            buffers: copy_pairs(&self.buffers),
            indices: Some(indices.start..indices.end),
            instances: Some(instances),
            textures: copy_pairs(&self.textures),
        };
        self.subpasses.push(subpass);
        assert(self.subpasses@.drop_last() == old(self).subpasses@);
    }
}

/// A copy of a list of slot bindings.
fn copy_pairs<H: Copy>(list: &Vec<(u32, H)>) -> (out: Vec<(u32, H)>)
    ensures
        out@ == list@,
{
    let mut out: Vec<(u32, H)> = Vec::new();
    let mut i: usize = 0;
    while i < list.len()
        invariant
            i <= list@.len(),
            out@ == list@.take(i as int),
        decreases list@.len() - i,
    {
        out.push((list[i].0, list[i].1));
        i += 1;
        assert(list@.take(i as int) == list@.take(i - 1).push(list@[i - 1]));
    }
    assert(list@.take(i as int) == list@);
    out
}

/// A copy of a list of vertex buffer bindings.
fn copy_slices(list: &Vec<(u32, BufferSlice)>) -> (out: Vec<(u32, BufferSlice)>)
    ensures
        out@ == list@,
{
    let mut out: Vec<(u32, BufferSlice)> = Vec::new();
    let mut i: usize = 0;
    while i < list.len()
        invariant
            i <= list@.len(),
            out@ == list@.take(i as int),
        decreases list@.len() - i,
    {
        out.push((list[i].0, list[i].1.clone()));
        i += 1;
        assert(list@.take(i as int) == list@.take(i - 1).push(list@[i - 1]));
    }
    assert(list@.take(i as int) == list@);
    out
}

impl Default for RenderPass {
    fn default() -> (pass: Self)
        ensures
            pass.is_blank(),
    {
        RenderPass {
            subpasses: Vec::new(),
            vertex_buffers: Vec::new(),
            index_buffer: None,
            pipeline: None,
            buffers: Vec::new(),
            textures: Vec::new(),
            indices: None,
            instances: None,
        }
    }
}

/// The render passes of one frame, in the order they were begun.
pub struct RenderEncoder {
    pub passes: Vec<RenderPass>,
}

impl RenderEncoder {
    pub fn new() -> (encoder: Self)
        ensures
            encoder.passes@.len() == 0,
    {
        Self { passes: Vec::new() }
    }

    /// Appends a blank pass and hands it out for recording.
    pub fn begin_render_pass(&mut self) -> (pass: &mut RenderPass)
        ensures
            pass.is_blank(),
            final(self).passes@ == old(self).passes@.push(*final(pass)),
    {
        let render_pass = RenderPass::default();
        self.passes.push(render_pass);
        let last: usize = self.passes.len() - 1;
        &mut self.passes[last]
    }
}

} // verus!
