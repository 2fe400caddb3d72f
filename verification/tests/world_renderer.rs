use ph::world_renderer::{
    GLColor, MeshPropertyType, RenderProgram, RenderPropertyType, WorldRenderer,
};

#[test]
fn from_bytes_reads_rgba() {
    let c = GLColor::from_bytes(&[1, 2, 3, 4, 5]);
    assert_eq!(c, GLColor { r: 1, g: 2, b: 3, a: 4 });
}

#[test]
fn property_slots() {
    assert_eq!(RenderPropertyType::Matrix.as_usize(), 0);
    assert_eq!(MeshPropertyType::Vertex.as_usize(), 0);
    assert_eq!(MeshPropertyType::Color.as_usize(), 1);
    assert_eq!(RenderProgram::VertexColor.as_usize(), 0);
}

#[test]
fn headless_renderer_starts_with_an_empty_frame() {
    let mut renderer = WorldRenderer::new_headless();
    assert_eq!(renderer.render_data.passes.len(), 1);
    assert_eq!(renderer.render_data.passes[0].draws.len(), 1);
    let draw = &renderer.render_data.passes[0].draws[0];
    assert_eq!(draw.program, RenderProgram::VertexColor);
    assert_eq!(draw.mesh_triangles, 0);
    assert!(draw.mesh.is_empty());
    assert!(draw.properties.is_empty());
    assert!(draw.mesh_properties.is_empty());
    renderer.draw();
    assert_eq!(renderer.render_data.passes.len(), 1);
}

#[test]
fn particle_colors() {
    let white = GLColor { r: 0xff, g: 0xff, b: 0xff, a: 0x88 };
    let orange = GLColor { r: 0xff, g: 0x88, b: 0x00, a: 0x88 };
    let red = GLColor { r: 0xff, g: 0x00, b: 0x00, a: 0x88 };
    let yellow = GLColor { r: 0xff, g: 0xff, b: 0x00, a: 0x88 };
    let blue = GLColor { r: 0x00, g: 0x00, b: 0xff, a: 0x88 };
    assert_eq!(WorldRenderer::particle_color(true, true, 0), white);
    assert_eq!(WorldRenderer::particle_color(true, false, 7), white);
    assert_eq!(WorldRenderer::particle_color(false, true, 200), orange);
    assert_eq!(WorldRenderer::particle_color(false, true, 201), red);
    assert_eq!(WorldRenderer::particle_color(false, false, 0), yellow);
    assert_eq!(WorldRenderer::particle_color(false, false, 99), blue);
}

#[test]
fn headless_draw_keeps_the_frame() {
    let mut renderer = WorldRenderer::new_headless();
    renderer.draw();
    renderer.draw();
    assert_eq!(renderer.render_data.passes.len(), 1);
    assert_eq!(renderer.render_data.passes[0].draws.len(), 1);
    assert_eq!(renderer.render_data.passes[0].draws[0].mesh_triangles, 0);
}
