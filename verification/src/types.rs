use vstd::prelude::*;

verus! {

#[derive(Debug, Clone)]
pub enum MouseButton {
    Left,
    Right,
    Middle,
}

#[derive(Debug, Clone)]
pub enum KeyboardKey {
    Up,
    Down,
    Left,
    Right,
    W,
    A,
    S,
    D,
    F,
    G,
    R,
    Z,
    E,
    ControlLeft,
    Space,
    ShiftLeft,
    Digit1,
    Digit2,
    Digit3,
    Digit4,
    Digit5,
    Digit6,
    Unknow,
}

#[derive(Debug, Clone)]
pub enum KeyAction {
    Pressed,
    Released,
}

#[derive(Debug, Clone)]
pub struct KeyboardEvent {
    pub key: KeyboardKey,
    pub action: KeyAction,
}

pub enum PhycicsEvent {
    Collision { id: usize },
}

pub enum PhysicsType {
    Static,
    Dynamic,
}

/// How a body takes part in the simulation: a `Static` body never moves, a
/// `Dynamic` one is integrated and pushed, and `Neither` marks a body that the
/// simulation neither moves nor treats as fixed.
#[derive(Debug, Clone, Copy, PartialEq, Eq, Structural)]
pub enum PhycisObjectType {
    Static,
    Dynamic,
    Neither,
}

impl Default for PhycisObjectType {
    fn default() -> (kind: Self)
        ensures
            kind is Neither,
    {
        Self::Neither
    }
}

/// The ways a mesh file can say how its vertices form primitives.
#[derive(Debug, Clone, Copy, PartialEq, Eq, Structural)]
pub enum Mode {
    Points,
    Lines,
    LineLoop,
    LineStrip,
    Triangles,
    TriangleStrip,
    TriangleFan,
}

#[derive(Debug, Clone, Copy, PartialEq, Eq, Structural)]
pub enum PrimitiveTopology {
    PointList,
    LineList,
    LineStrip,
    TriangleList,
    TriangleStrip,
}

impl PrimitiveTopology {
    /// Whether the renderer can draw primitives given in `mode`: loops and
    /// fans it cannot.
    pub open spec fn supports(mode: Mode) -> bool {
        !(mode is LineLoop) && !(mode is TriangleFan)
    }

    /// The topology that draws primitives given in `mode`.
    pub fn from_mode(mode: Mode) -> (topology: Self)
        requires
            Self::supports(mode),
        ensures
            topology == (match mode {
                Mode::Points => PrimitiveTopology::PointList,
                Mode::Lines => PrimitiveTopology::LineList,
                Mode::LineStrip => PrimitiveTopology::LineStrip,
                Mode::Triangles => PrimitiveTopology::TriangleList,
                _ => PrimitiveTopology::TriangleStrip,
            }),
    {
        match mode {
            Mode::Points => PrimitiveTopology::PointList,
            Mode::Lines => PrimitiveTopology::LineList,
            Mode::LineStrip => PrimitiveTopology::LineStrip,
            Mode::Triangles => PrimitiveTopology::TriangleList,
            _ => PrimitiveTopology::TriangleStrip,
        }
    }
}

#[derive(Debug, Clone)]
pub struct MeshId;

#[derive(Debug, Clone)]
pub enum AnimationTargetPath {
    Translation,
    Rotation,
    Scale,
    Weights,
}

#[derive(Debug, Clone)]
pub enum Interpolation {
    Linear,
    Stepm,
    Cubicspline,
}

#[derive(Debug, Clone)]
pub enum TextureSource {
    Missing,
    File(String),
    Buffer { data: Vec<u8>, width: u32, height: u32 },
}

impl Default for TextureSource {
    fn default() -> (source: Self)
        ensures
            source is Missing,
    {
        Self::Missing
    }
}

#[derive(Debug, Clone)]
pub struct Texture {
    pub name: String,
    pub source: TextureSource,
}

impl Texture {
    /// A texture without a name that is read from the file at `path`.
    pub fn new(path: &str) -> (texture: Self)
        ensures
            texture.name@ == Seq::<char>::empty(),
            texture.source matches TextureSource::File(file) && file@ == path@,
    {
        Self { name: String::new(), source: TextureSource::File(path.to_owned()) }
    }
}

impl Default for Texture {
    fn default() -> (texture: Self)
        ensures
            texture.name@ == Seq::<char>::empty(),
            texture.source is Missing,
    {
        Self { name: String::new(), source: TextureSource::Missing }
    }
}

#[derive(Debug, Clone)]
pub struct FontHandle {
    pub id: usize,
}

impl FontHandle {
    pub fn new(id: usize) -> (font: Self)
        ensures
            font.id == id,
    {
        Self { id }
    }
}

#[derive(Debug, Clone)]
pub struct Keyboard {
    pub pressed: Vec<KeyboardKey>,
}

impl Default for Keyboard {
    fn default() -> (keyboard: Self)
        ensures
            keyboard.pressed@.len() == 0,
    {
        Self { pressed: Vec::new() }
    }
}

} // verus!
