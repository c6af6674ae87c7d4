use gpui_ohos::atlas::{AtlasUpload, TextureKind};
use gpui_ohos::draw::{plan_draw_list, scissor_for, should_report, DrawBatch, DrawList, DrawPipeline, ScenePrimitive, Scissor, UndrawnKind};
use gpui_ohos::gpu::{
    choose_present_mode, choose_surface_format, clear_region, describe_gpu, find_memory_type, find_queue_family,
    plan_frame_copies, plan_swapchain, SurfaceFormat, GLYPH_VERTEX_BUFFER_BYTES, PRESENT_MODE_FIFO, PRESENT_MODE_MAILBOX,
    QUAD_VERTEX_BUFFER_BYTES,
};
use gpui_ohos::keyboard::MouseButton;
use gpui_ohos::window::{edge_name, fullscreen_toggle, FramePlan, ResizeEdge, WindowState};

fn fmt(format: u32, color_space: u32) -> SurfaceFormat {
    SurfaceFormat { format, color_space }
}

#[test]
fn linear_rgba_is_preferred() {
    let chosen = choose_surface_format(&[fmt(44, 0), fmt(50, 0), fmt(37, 1)]);
    assert_eq!(chosen, fmt(37, 1));
}

#[test]
fn srgb_bgra_comes_next_then_the_first() {
    assert_eq!(choose_surface_format(&[fmt(44, 0), fmt(50, 3), fmt(50, 4)]), fmt(50, 3));
    assert_eq!(choose_surface_format(&[fmt(44, 2), fmt(45, 0)]), fmt(44, 2));
    assert_eq!(choose_surface_format(&[]), fmt(37, 0));
}

#[test]
fn mailbox_is_used_when_offered() {
    assert_eq!(choose_present_mode(&[2, 0, 1]), PRESENT_MODE_MAILBOX);
    assert_eq!(choose_present_mode(&[2, 3]), PRESENT_MODE_FIFO);
    assert_eq!(choose_present_mode(&[]), PRESENT_MODE_FIFO);
}

#[test]
fn swapchain_follows_the_surface_extent() {
    let plan = plan_swapchain(&[fmt(37, 0)], &[2], 1, (1200, 800), (10, 10));
    assert_eq!((plan.width, plan.height, plan.min_image_count), (1200, 800, 2));
    let plan = plan_swapchain(&[fmt(37, 0)], &[2], 3, (0, 5), (640, 480));
    assert_eq!((plan.width, plan.height, plan.min_image_count), (640, 480, 3));
}

#[test]
fn memory_type_is_the_first_that_suits() {
    // Types 0 and 2 are allowed; type 0 lacks the coherent bit.
    assert_eq!(find_memory_type(0b101, &[0x2, 0x6, 0x6], 0x6), Some(2));
    assert_eq!(find_memory_type(0b010, &[0x6, 0x6], 0x6), Some(1));
    assert_eq!(find_memory_type(0b001, &[0x2], 0x6), None);
}

#[test]
fn queue_family_draws_and_presents() {
    assert_eq!(find_queue_family(&[(1, false), (2, true), (3, true)]), Some(2));
    assert_eq!(find_queue_family(&[(2, true)]), None);
}

#[test]
fn clears_are_held_to_the_surface() {
    assert_eq!(clear_region(-10, 5, 50, 20, 100, 100), Some((0, 5, 40, 20)));
    assert_eq!(clear_region(90, 90, 50, 50, 100, 100), Some((90, 90, 10, 10)));
    assert_eq!(clear_region(100, 0, 5, 5, 100, 100), None);
    assert_eq!(clear_region(i32::MAX - 1, 0, 10, 10, i32::MAX as u32, 100), Some((i32::MAX - 1, 0, 1, 10)));
    // Sizes are taken as `i32`: a surface wider than that wraps and covers nothing.
    assert_eq!(clear_region(0, 0, 10, 10, u32::MAX, 100), None);
}

#[test]
fn gpu_is_described_from_its_properties() {
    let mut name = b"Maleoon 910".to_vec();
    name.resize(256, 0);
    let d = describe_gpu((1 << 22) | (3 << 12) | 250, 0xabcd, 0x13b5, 0x92020010, 1, &name);
    assert!(!d.software);
    assert_eq!(d.device_name, "Maleoon 910");
    assert_eq!(d.driver_name, "Vulkan 1.3.250");
    assert_eq!(d.driver_info, "vendor=0x13b5 device=0x92020010 driver=0x0000abcd");
    let d = describe_gpu(0, 0, 0, 0, 4, b"cpu");
    assert!(d.software);
    assert_eq!(d.device_name, "cpu");
    assert_eq!(d.driver_name, "Vulkan 0.0.0");
    assert_eq!(d.driver_info, "vendor=0x0000 device=0x0000 driver=0x00000000");
}

fn upload(x: u32, width: u32, height: u32) -> AtlasUpload {
    AtlasUpload { kind: TextureKind::Monochrome, x, y: 0, width, height, data: vec![7; (width * height) as usize] }
}

#[test]
fn uploads_are_laid_out_back_to_back() {
    let uploads = [upload(0, 2, 3), upload(4, 1, 1), upload(8, 5, 2)];
    let plan = plan_frame_copies(10, 100, 0, 0, &uploads).unwrap().unwrap();
    assert_eq!(plan.size, 17);
    assert_eq!(plan.offsets, vec![0, 6, 7]);
    let tiny = plan_frame_copies(0, 0, 0, 0, &[upload(0, 1, 1)]).unwrap().unwrap();
    assert_eq!(tiny.size, 4);
    assert!(plan_frame_copies(0, 0, 0, 0, &[]).unwrap().is_none());
}

#[test]
fn the_staging_buffer_holds_every_byte() {
    let colour = |width: u32, height: u32| AtlasUpload {
        kind: TextureKind::Polychrome,
        x: 0,
        y: 0,
        width,
        height,
        data: vec![1; (width * height * 4) as usize],
    };
    let plan = plan_frame_copies(0, 0, 0, 0, &[colour(2, 1), colour(1, 1)]).unwrap().unwrap();
    assert_eq!(plan.offsets, vec![0, 8]);
    assert_eq!(plan.size, 12);
}

#[test]
fn oversized_vertices_are_refused() {
    assert_eq!(plan_frame_copies(101, 100, 0, 0, &[]).err().unwrap(), "quad vertex buffer too small");
    assert_eq!(plan_frame_copies(0, 0, 9, 8, &[]).err().unwrap(), "glyph vertex buffer too small");
    let (quads, glyphs) = (QUAD_VERTEX_BUFFER_BYTES, GLYPH_VERTEX_BUFFER_BYTES);
    assert_eq!((quads, glyphs), (4 * 1024 * 1024, 2 * 1024 * 1024));
    assert!(plan_frame_copies(quads, quads, glyphs, glyphs, &[]).unwrap().is_none());
    assert_eq!(plan_frame_copies(quads + 1, quads, glyphs + 1, glyphs, &[]).err().unwrap(), "quad vertex buffer too small");
    assert_eq!(plan_frame_copies(quads, quads, glyphs + 1, glyphs, &[]).err().unwrap(), "glyph vertex buffer too small");
}

#[test]
fn scissors_are_clamped_to_the_surface() {
    assert_eq!(scissor_for(-3, 10, 50, 40, 100, 100), Some(Scissor { x: 0, y: 10, width: 50, height: 30 }));
    assert_eq!(scissor_for(90, 90, 150, 150, 100, 100), Some(Scissor { x: 90, y: 90, width: 10, height: 10 }));
    assert_eq!(scissor_for(120, 0, 130, 10, 100, 100), None);
    assert_eq!(scissor_for(10, 10, 10, 20, 100, 100), None);
}

#[test]
fn scenes_are_drawn_in_painters_order() {
    let quad = |left: i64, vertices: usize| ScenePrimitive::Drawable {
        pipeline: DrawPipeline::Quads, left, top: 0, right: left + 10, bottom: 10, vertices,
    };
    let glyph = ScenePrimitive::Drawable {
        pipeline: DrawPipeline::Glyphs, left: -5, top: 5, right: 20, bottom: 300, vertices: 12,
    };
    let scene = [
        quad(0, 6),
        glyph,
        ScenePrimitive::Undrawn { kind: UndrawnKind::Shadows, count: 2 },
        quad(500, 6),
        quad(20, 6),
        quad(40, 0),
        ScenePrimitive::Undrawn { kind: UndrawnKind::Surfaces, count: 1 },
    ];
    let list = plan_draw_list(&scene, 100, 100);
    assert_eq!(
        list.batches,
        vec![
            DrawBatch { pipeline: DrawPipeline::Quads, first_vertex: 0, vertex_count: 6, scissor: Scissor { x: 0, y: 0, width: 10, height: 10 } },
            DrawBatch { pipeline: DrawPipeline::Glyphs, first_vertex: 0, vertex_count: 12, scissor: Scissor { x: 0, y: 5, width: 20, height: 95 } },
            DrawBatch { pipeline: DrawPipeline::Quads, first_vertex: 6, vertex_count: 6, scissor: Scissor { x: 20, y: 0, width: 10, height: 10 } },
        ]
    );
    assert_eq!((list.skipped, list.unhandled, list.shadows, list.surfaces), (1, 3, 2, 1));
    assert_eq!((list.subpixel, list.polychrome), (0, 0));
    for batch in &list.batches {
        assert!(batch.vertex_count > 0);
        let s = batch.scissor;
        assert!(s.x >= 0 && s.y >= 0 && s.width > 0 && s.height > 0);
        assert!(s.x as u32 + s.width <= 100 && s.y as u32 + s.height <= 100);
    }
    for (i, earlier) in list.batches.iter().enumerate() {
        for later in &list.batches[i + 1..] {
            if later.pipeline == earlier.pipeline {
                assert!(earlier.first_vertex + earlier.vertex_count <= later.first_vertex);
            }
        }
    }
    assert!(list.is_anomalous(4, 12));
    let empty = plan_draw_list(&[], 100, 100);
    assert!(empty.batches.is_empty());
    assert_eq!((empty.skipped, empty.unhandled), (0, 0));
}

#[test]
fn draw_list_counts_what_it_leaves_out() {
    let mut list = DrawList::new();
    let s = Scissor { x: 0, y: 0, width: 10, height: 10 };
    list.drawn(DrawPipeline::Quads, 0, 6, s);
    list.clipped();
    list.drawn(DrawPipeline::Glyphs, 0, 12, s);
    list.not_drawn(UndrawnKind::Shadows, 3);
    list.not_drawn(UndrawnKind::PolychromeSprites, 2);
    assert_eq!(
        list.batches,
        vec![
            DrawBatch { pipeline: DrawPipeline::Quads, first_vertex: 0, vertex_count: 6, scissor: s },
            DrawBatch { pipeline: DrawPipeline::Glyphs, first_vertex: 0, vertex_count: 12, scissor: s },
        ]
    );
    assert_eq!((list.skipped, list.unhandled, list.shadows, list.polychrome), (1, 5, 3, 2));
    assert!(list.is_anomalous(1, 6));
    let mut shadows_only = DrawList::new();
    shadows_only.not_drawn(UndrawnKind::Shadows, 4);
    assert!(!shadows_only.is_anomalous(2, 6));
    assert!(shadows_only.is_anomalous(2, 0));
    assert!(should_report(false, 240));
    assert!(!should_report(false, 241));
    assert!(should_report(true, 241));
}

#[test]
fn unchanged_scenes_are_skipped() {
    let mut w = WindowState::new();
    assert!(!w.has_rendered());
    assert!(w.can_draw(true));
    assert!(!w.can_draw(false));
    assert_eq!(w.plan_frame(42, false), FramePlan::Draw { frame: 1, log: true });
    assert_eq!(w.plan_frame(42, false), FramePlan::Skip);
    assert_eq!(w.plan_frame(42, true), FramePlan::Draw { frame: 2, log: false });
    assert_eq!(w.plan_frame(43, false), FramePlan::Draw { frame: 3, log: false });
    assert!(w.has_rendered());
    w.mark_closed();
    assert!(w.is_closed());
    assert!(!w.can_draw(true));
}

#[test]
fn every_hundred_and_twentieth_frame_is_logged() {
    let mut w = WindowState::new();
    for scene in 0..121u64 {
        let plan = w.plan_frame(scene, false);
        let expected_log = scene == 0 || scene == 120;
        assert_eq!(plan, FramePlan::Draw { frame: scene + 1, log: expected_log });
    }
}

#[test]
fn pointer_and_keyboard_state() {
    let mut w = WindowState::new();
    assert_eq!(w.pressed_button(), None);
    w.press(MouseButton::Right);
    assert_eq!(w.pressed_button(), Some(MouseButton::Right));
    w.release();
    assert_eq!(w.pressed_button(), None);
    assert!(w.request_keyboard(true));
    assert!(!w.request_keyboard(true));
    assert!(w.request_keyboard(false));
    assert!(w.renderer_failed());
    assert!(!w.renderer_failed());
}

#[test]
fn resize_edges_and_fullscreen() {
    assert_eq!(edge_name(ResizeEdge::TopRight), "top-right");
    assert_eq!(edge_name(ResizeEdge::Left), "left");
    assert_eq!(edge_name(ResizeEdge::BottomLeft), "bottom-left");
    assert_eq!(fullscreen_toggle(true), "0");
    assert_eq!(fullscreen_toggle(false), "1");
}
