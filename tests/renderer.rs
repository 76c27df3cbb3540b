use ray_tracer::render::{MultiRenderer, PresetLevel, RenderError};

#[test]
fn presets_by_number() {
    assert_eq!(PresetLevel::from(0), Some(PresetLevel::Low));
    assert_eq!(PresetLevel::from(1), Some(PresetLevel::Medium));
    assert_eq!(PresetLevel::from(2), Some(PresetLevel::High));
    assert_eq!(PresetLevel::from(3), Some(PresetLevel::Ultra));
    assert_eq!(PresetLevel::from(4), None);
    assert_eq!(PresetLevel::from(usize::MAX), None);
}

#[test]
fn preset_quality() {
    let all = [PresetLevel::Low, PresetLevel::Medium, PresetLevel::High, PresetLevel::Ultra];
    let samples: Vec<usize> = all.iter().map(|p| p.sample_count()).collect();
    let heights: Vec<usize> = all.iter().map(|p| p.height()).collect();
    assert_eq!(samples, vec![128, 512, 1024, 8192]);
    assert_eq!(heights, vec![128, 256, 512, 1024]);
}

#[test]
fn new_renderer_defaults() {
    let r: MultiRenderer<u8, u8> = MultiRenderer::new();
    assert_eq!((r.width, r.height, r.sample_per_unit, r.recursion_depth), (128, 128, 128, 16));
    assert!(r.thread_count >= 1);
    assert!(r.use_gamma_correction);
    assert!(r.camera.is_none() && r.world.is_none());
}

#[test]
fn render_needs_world_then_camera() {
    let mut r: MultiRenderer<u8, u8> = MultiRenderer::new();
    assert_eq!(r.check_ready(), Err(RenderError::WorldNotSet));
    r.set_camera(1);
    assert_eq!(r.check_ready(), Err(RenderError::WorldNotSet));
    let mut r2: MultiRenderer<u8, u8> = MultiRenderer::new();
    r2.set_world(2);
    assert_eq!(r2.check_ready(), Err(RenderError::CameraNotSet));
    r.set_world(2);
    assert_eq!(r.check_ready(), Ok(()));
}

#[test]
fn preset_sets_size_and_samples() {
    let mut r: MultiRenderer<u8, u8> = MultiRenderer::new();
    r.set_camera(0);
    r.set_render_preset(PresetLevel::Medium, 16, 9);
    assert_eq!((r.sample_per_unit, r.height, r.width), (512, 256, 455));
    r.set_render_preset(PresetLevel::Ultra, 1, 1);
    assert_eq!((r.sample_per_unit, r.height, r.width), (8192, 1024, 1024));
}

#[test]
fn samples_split_among_workers() {
    let mut r: MultiRenderer<u8, u8> = MultiRenderer::new();
    r.set_pixel_sample(128);
    r.set_thread_count(4);
    assert_eq!(r.samples_per_worker(), 32);
    r.set_thread_count(3);
    assert_eq!(r.samples_per_worker(), 43);
    r.set_pixel_sample(0);
    assert_eq!(r.samples_per_worker(), 0);
    r.set_pixel_sample(1);
    r.set_thread_count(8);
    assert_eq!(r.samples_per_worker(), 1);
    r.set_recursion_depth(3);
    assert_eq!(r.recursion_depth, 3);
}
