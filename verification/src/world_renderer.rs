//! The plain-data side of drawing a world: the draw lists handed to a
//! graphics driver, and the colour each particle is drawn in.
use vstd::prelude::*;

verus! {

/// An RGBA colour, one byte per channel.
#[derive(Clone, Copy, Default, PartialEq, Eq, Structural, Debug)]
pub struct GLColor {
    pub r: u8,
    pub g: u8,
    pub b: u8,
    pub a: u8,
}

impl GLColor {
    /// The colour whose channels are the first four bytes, in RGBA order.
    pub fn from_bytes(bytes: &[u8]) -> (c: GLColor)
        requires
            bytes@.len() >= 4,
        ensures
            c == (GLColor { r: bytes@[0], g: bytes@[1], b: bytes@[2], a: bytes@[3] }),
    {
        GLColor { r: bytes[0], g: bytes[1], b: bytes[2], a: bytes[3] }
    }
}

/// Translucent blue: the colour of a particle held by one leaf.
pub open spec fn blue() -> GLColor {
    GLColor { r: 0x00, g: 0x00, b: 0xff, a: 0x88 }
}

/// Translucent red: the colour of a particle spread over several leaves.
pub open spec fn red() -> GLColor {
    GLColor { r: 0xff, g: 0x00, b: 0x00, a: 0x88 }
}

/// Translucent yellow: every hundredth particle held by one leaf.
pub open spec fn yellow() -> GLColor {
    GLColor { r: 0xff, g: 0xff, b: 0x00, a: 0x88 }
}

/// Translucent orange: every hundredth particle spread over several leaves.
pub open spec fn orange() -> GLColor {
    GLColor { r: 0xff, g: 0x88, b: 0x00, a: 0x88 }
}

/// Translucent white: the colour of triggers.
pub open spec fn white() -> GLColor {
    GLColor { r: 0xff, g: 0xff, b: 0xff, a: 0x88 }
}

/// The colour particle number `index` is drawn in.
pub open spec fn spec_particle_color(is_trigger: bool, uncontained: bool, index: usize) -> GLColor {
    if is_trigger {
        white()
    } else if uncontained {
        if index % 100 == 0 {
            orange()
        } else {
            red()
        }
    } else {
        if index % 100 == 0 {
            yellow()
        } else {
            blue()
        }
    }
}

/// Kinds of per-draw properties.
#[derive(Clone, Copy, PartialEq, Eq, Structural, Debug)]
pub enum RenderPropertyType {
    Matrix,
}

impl RenderPropertyType {
    /// The property's slot in a program's list of property locations.
    pub fn as_usize(&self) -> (r: usize)
        ensures
            r == 0,
    {
        match self {
            RenderPropertyType::Matrix => 0,
        }
    }
}

/// A per-draw property: its kind and its value as raw bytes.
pub struct RenderProperty {
    pub property_type: RenderPropertyType,
    pub values: Vec<u8>,
}

/// Kinds of per-vertex properties.
#[derive(Clone, Copy, PartialEq, Eq, Structural, Debug)]
pub enum MeshPropertyType {
    Vertex,
    Color,
}

impl MeshPropertyType {
    /// The property's slot in a program's list of attribute locations.
    pub fn as_usize(&self) -> (r: usize)
        ensures
            r == (match *self {
                MeshPropertyType::Vertex => 0usize,
                MeshPropertyType::Color => 1usize,
            }),
    {
        match self {
            MeshPropertyType::Vertex => 0,
            MeshPropertyType::Color => 1,
        }
    }
}

/// A per-vertex property: its kind and its layout as raw bytes.
pub struct MeshProperty {
    pub property_type: MeshPropertyType,
    pub values: Vec<u8>,
}

/// The shader programs a draw may use.
#[derive(Clone, Copy, PartialEq, Eq, Structural, Debug)]
pub enum RenderProgram {
    VertexColor,
}

impl RenderProgram {
    /// The program's slot in a driver's list of programs.
    pub fn as_usize(&self) -> (r: usize)
        ensures
            r == 0,
    {
        match self {
            RenderProgram::VertexColor => 0,
        }
    }
}

/// One draw call: a program, its properties, and a mesh of triangles.
pub struct RenderDraw {
    pub program: RenderProgram,
    pub properties: Vec<RenderProperty>,
    pub mesh_properties: Vec<MeshProperty>,
    pub mesh_triangles: usize,
    pub mesh: Vec<u8>,
}

/// Draws made one after the other.
pub struct RenderPass {
    pub draws: Vec<RenderDraw>,
}

/// Everything a driver draws for one frame.
pub struct RenderData {
    pub passes: Vec<RenderPass>,
}

/// Whether `data` is the empty frame a renderer starts with: one pass of
/// one vertex-colour draw with no properties and an empty mesh.
pub open spec fn is_initial_render_data(data: RenderData) -> bool {
    &&& data.passes@.len() == 1
    &&& data.passes@[0].draws@.len() == 1
    &&& data.passes@[0].draws@[0].program == RenderProgram::VertexColor
    &&& data.passes@[0].draws@[0].properties@.len() == 0
    &&& data.passes@[0].draws@[0].mesh_properties@.len() == 0
    &&& data.passes@[0].draws@[0].mesh_triangles == 0
    &&& data.passes@[0].draws@[0].mesh@.len() == 0
}

/// Something that can put a frame on screen.
pub trait Driver {
    /// Whether this driver keeps account of the frames handed to it.
    open spec fn records_frames(&self) -> bool {
        false
    }

    /// The frames handed to this driver so far, oldest first; meaningful
    /// where `records_frames` holds.
    open spec fn drawn(&self) -> Seq<RenderData> {
        Seq::empty()
    }

    fn draw(&mut self, data: &RenderData)
        ensures
            final(self).records_frames() == old(self).records_frames(),
            old(self).records_frames() ==> final(self).drawn() == old(self).drawn().push(*data),
    ;
}

/// A driver that draws nothing and only keeps account of the frames it is
/// handed.
pub struct HeadlessDriver {
    drawn: Ghost<Seq<RenderData>>,
}

impl HeadlessDriver {
    pub fn new() -> (r: HeadlessDriver)
        ensures
            r.records_frames(),
            r.drawn() == Seq::<RenderData>::empty(),
    {
        HeadlessDriver { drawn: Ghost(Seq::empty()) }
    }
}

impl Driver for HeadlessDriver {
    open spec fn records_frames(&self) -> bool {
        true
    }

    closed spec fn drawn(&self) -> Seq<RenderData> {
        self.drawn@
    }

    fn draw(&mut self, data: &RenderData) {
        proof {
            self.drawn@ = self.drawn@.push(*data);
        }
    }
}

/// Keeps the draw lists of a world and hands them to a driver.
pub struct WorldRenderer {
    pub render_data: RenderData,
    pub driver: Box<dyn Driver>,
}

impl WorldRenderer {
    /// The empty frame a renderer starts with.
    pub fn render_data() -> (r: RenderData)
        ensures
            is_initial_render_data(r),
    {
        let mut draws: Vec<RenderDraw> = Vec::new();
        draws.push(
            RenderDraw {
                program: RenderProgram::VertexColor,
                properties: Vec::<RenderProperty>::new(),
                mesh_properties: Vec::<MeshProperty>::new(),
                mesh_triangles: 0,
                mesh: Vec::<u8>::new(),
            },
        );
        let mut passes: Vec<RenderPass> = Vec::new();
        passes.push(RenderPass { draws: draws });
        RenderData { passes: passes }
    }

    /// A renderer that draws nothing, with the empty frame.
    pub fn new_headless() -> (r: WorldRenderer)
        ensures
            is_initial_render_data(r.render_data),
            r.driver.records_frames(),
            r.driver.drawn() == Seq::<RenderData>::empty(),
    {
        WorldRenderer {
            render_data: WorldRenderer::render_data(),
            driver: Box::new(HeadlessDriver::new()),
        }
    }

    /// Hands the current frame to the driver. The frame is left as it is.
    pub fn draw(&mut self)
        ensures
            final(self).render_data == old(self).render_data,
            final(self).driver.records_frames() == old(self).driver.records_frames(),
            old(self).driver.records_frames() ==> final(self).driver.drawn()
                == old(self).driver.drawn().push(old(self).render_data),
    {
        self.driver.draw(&self.render_data);
    }

    /// The colour particle number `index` is drawn in: white for a trigger;
    /// red for a particle spread over several leaves, orange for every
    /// hundredth of those; blue otherwise, yellow for every hundredth.
    pub fn particle_color(is_trigger: bool, uncontained: bool, index: usize) -> (c: GLColor)
        ensures
            c == spec_particle_color(is_trigger, uncontained, index),
    {
        if is_trigger {
            GLColor { r: 0xff, g: 0xff, b: 0xff, a: 0x88 }
        } else if uncontained {
            if index % 100 == 0 {
                GLColor { r: 0xff, g: 0x88, b: 0x00, a: 0x88 }
            } else {
                GLColor { r: 0xff, g: 0x00, b: 0x00, a: 0x88 }
            }
        } else {
            if index % 100 == 0 {
                GLColor { r: 0xff, g: 0xff, b: 0x00, a: 0x88 }
            } else {
                GLColor { r: 0x00, g: 0x00, b: 0xff, a: 0x88 }
            }
        }
    }
}

/// The colour table: triggers are white; a particle spread over several
/// leaves is orange when its index is a multiple of 100 and red otherwise; a
/// particle held by one leaf is yellow when its index is a multiple of 100
/// and blue otherwise.
pub proof fn lemma_particle_color_table(is_trigger: bool, uncontained: bool, index: usize)
    ensures
        is_trigger ==> spec_particle_color(is_trigger, uncontained, index) == (GLColor {
            r: 0xff,
            g: 0xff,
            b: 0xff,
            a: 0x88,
        }),
        !is_trigger && uncontained && index % 100 == 0 ==> spec_particle_color(
            is_trigger,
            uncontained,
            index,
        ) == (GLColor { r: 0xff, g: 0x88, b: 0x00, a: 0x88 }),
        !is_trigger && uncontained && index % 100 != 0 ==> spec_particle_color(
            is_trigger,
            uncontained,
            index,
        ) == (GLColor { r: 0xff, g: 0x00, b: 0x00, a: 0x88 }),
        !is_trigger && !uncontained && index % 100 == 0 ==> spec_particle_color(
            is_trigger,
            uncontained,
            index,
        ) == (GLColor { r: 0xff, g: 0xff, b: 0x00, a: 0x88 }),
        !is_trigger && !uncontained && index % 100 != 0 ==> spec_particle_color(
            is_trigger,
            uncontained,
            index,
        ) == (GLColor { r: 0x00, g: 0x00, b: 0xff, a: 0x88 }),
{
}

} // verus!
