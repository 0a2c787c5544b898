use plutonium_engine::font_raster::{
    choose_loaded_raster_entry, dedupe_quantized_sizes, glyphs_from_set, plan_warm_sizes,
    raster_variant_key, warm_atlas_key, PendingRasterWarmRequest, RasterFamilyStatus,
    RasterWarmQueue, RasterWarmStep, DEFAULT_RUNTIME_GLYPH_BUDGET_PER_FRAME,
};
use plutonium_engine::{GlyphSet, WarmStats};
use plutonium_engine::font_raster::{
    resolve_font_key_for_measure, resolve_font_key_for_render, AtlasChoice, FontKeyResolution,
};
use plutonium_engine::font_raster::normalize_prewarm_sizes;

fn req(family: &str, size_q: u32, dpi_q: u32) -> PendingRasterWarmRequest {
    PendingRasterWarmRequest {
        family_key: family.to_string(),
        size_q,
        dpi_q,
    }
}

fn status(loaded: bool, glyphs: usize, budget: usize) -> Option<RasterFamilyStatus> {
    Some(RasterFamilyStatus {
        variant_loaded: loaded,
        runtime_glyph_count: glyphs,
        runtime_budget_glyphs_per_frame: budget,
    })
}

fn load_cost(step: Option<RasterWarmStep>) -> Option<(String, u32, usize)> {
    match step {
        Some(RasterWarmStep::Load {
            request,
            glyph_cost,
        }) => Some((request.family_key, request.size_q, glyph_cost)),
        _ => None,
    }
}

#[test]
fn ascii_core_glyphs_are_printable_ascii() {
    let g = glyphs_from_set(&GlyphSet::AsciiCore);
    let expected: Vec<char> = (32u8..=126u8).map(|c| c as char).collect();
    assert_eq!(g, expected);
}

#[test]
fn custom_glyphs_are_filtered_sorted_and_completed() {
    let g = glyphs_from_set(&GlyphSet::Custom(vec!['b', 'a', '\n', 'b', 'é', '\u{7f}']));
    assert_eq!(g, vec![' ', '?', 'a', 'b', 'é']);
    let empty = glyphs_from_set(&GlyphSet::Custom(vec![]));
    assert_eq!(empty, vec![' ', '?']);
}

#[test]
fn exact_loaded_entry_is_preferred() {
    let loaded = vec![(100, 10), (160, 10), (120, 20)];
    assert_eq!(choose_loaded_raster_entry(&loaded, (160, 10)), Some((1, true)));
}

#[test]
fn nearest_entry_by_size_then_dpi() {
    let loaded = vec![(100, 10), (150, 20), (150, 12), (200, 10)];
    assert_eq!(choose_loaded_raster_entry(&loaded, (140, 10)), Some((2, false)));
    assert_eq!(choose_loaded_raster_entry(&loaded, (190, 10)), Some((3, false)));
    assert_eq!(choose_loaded_raster_entry(&vec![], (140, 10)), None);
}

#[test]
fn variant_keys() {
    assert_eq!(raster_variant_key("roboto", 320, 10), "roboto::raster@320@10");
    assert_eq!(raster_variant_key("", 0, 25), "::raster@0@25");
    assert_eq!(warm_atlas_key("roboto", 160, 10, 160), "roboto");
    assert_eq!(warm_atlas_key("roboto", 160, 20, 160), "roboto::raster@160@20");
    assert_eq!(warm_atlas_key("roboto", 200, 10, 160), "roboto::raster@200@10");
}

#[test]
fn dedupe_keeps_first_occurrences_in_order() {
    assert_eq!(dedupe_quantized_sizes(&vec![160, 120, 160, 240, 120]), vec![160, 120, 240]);
    assert_eq!(dedupe_quantized_sizes(&vec![]), Vec::<u32>::new());
}

#[test]
fn warm_plan_skips_loaded_variants() {
    let loaded = vec![(160, 10), (120, 20)];
    let (to_load, stats) = plan_warm_sizes(&vec![160, 120, 160, 240], &loaded, 10);
    assert_eq!(to_load, vec![120, 240]);
    assert_eq!(stats.requested_sizes, 3);
    assert_eq!(stats.already_loaded_sizes, 1);
    assert_eq!(stats.warmed_sizes, 0);
    assert_eq!(stats.glyphs_rasterized, 0);
}

#[test]
fn warm_stats_record() {
    let mut stats = WarmStats::default();
    stats.record_warmed(95);
    stats.record_warmed(5);
    assert_eq!(stats.warmed_sizes, 2);
    assert_eq!(stats.glyphs_rasterized, 100);
    assert_eq!(stats.requested_sizes, 0);
}

#[test]
fn queue_rejects_loaded_missing_and_duplicate_requests() {
    let mut q = RasterWarmQueue::new();
    assert!(!q.queue_raster_warm_request(req("a", 160, 10), None));
    assert!(!q.queue_raster_warm_request(req("a", 160, 10), Some(true)));
    assert!(q.queue_raster_warm_request(req("a", 160, 10), Some(false)));
    assert!(!q.queue_raster_warm_request(req("a", 160, 10), Some(false)));
    assert!(q.queue_raster_warm_request(req("a", 160, 20), Some(false)));
    assert!(q.queue_raster_warm_request(req("b", 160, 10), Some(false)));
    assert_eq!(q.len(), 3);
    assert_eq!(q.front().unwrap().family_key, "a");
}

#[test]
fn warm_pass_drops_loads_and_defers_under_budget() {
    let mut q = RasterWarmQueue::new();
    q.queue_raster_warm_request(req("gone", 100, 10), Some(false));
    q.queue_raster_warm_request(req("a", 160, 10), Some(false));
    q.queue_raster_warm_request(req("a", 200, 10), Some(false));
    q.queue_raster_warm_request(req("a", 240, 10), Some(false));

    assert!(q.begin_pass());
    assert!(matches!(q.step(None), Some(RasterWarmStep::Drop)));

    let first = load_cost(q.step(status(false, 60, 100)));
    assert_eq!(first, Some(("a".to_string(), 160, 60)));
    q.record_load(&"a".to_string(), 60, true);

    assert!(matches!(q.step(status(false, 60, 100)), Some(RasterWarmStep::Defer)));
    assert!(matches!(q.step(status(true, 60, 100)), Some(RasterWarmStep::Drop)));
    assert!(q.step(None).is_none());
    assert_eq!(q.len(), 0);

    q.finish_pass();
    assert_eq!(q.len(), 1);
    assert_eq!(q.front().unwrap().size_q, 200);
    assert!(!q.queue_raster_warm_request(req("a", 200, 10), Some(false)));

    assert!(q.begin_pass());
    let again = load_cost(q.step(status(false, 60, 100)));
    assert_eq!(again, Some(("a".to_string(), 200, 60)));
}

#[test]
fn failed_load_charges_nothing() {
    let mut q = RasterWarmQueue::new();
    q.queue_raster_warm_request(req("a", 160, 10), Some(false));
    q.queue_raster_warm_request(req("a", 200, 10), Some(false));
    q.begin_pass();
    assert!(load_cost(q.step(status(false, 60, 100))).is_some());
    q.record_load(&"a".to_string(), 60, false);
    assert!(load_cost(q.step(status(false, 60, 100))).is_some());
}

#[test]
fn empty_runtime_glyph_set_costs_one_glyph() {
    let mut q = RasterWarmQueue::new();
    q.queue_raster_warm_request(req("a", 160, 10), Some(false));
    q.queue_raster_warm_request(req("a", 200, 10), Some(false));
    q.begin_pass();
    assert_eq!(
        load_cost(q.step(status(false, 0, 1))),
        Some(("a".to_string(), 160, 1))
    );
    q.record_load(&"a".to_string(), 1, true);
    assert!(matches!(q.step(status(false, 0, 1)), Some(RasterWarmStep::Defer)));
}

#[test]
fn budgets_are_per_family() {
    let mut q = RasterWarmQueue::new();
    q.queue_raster_warm_request(req("a", 160, 10), Some(false));
    q.queue_raster_warm_request(req("b", 160, 10), Some(false));
    q.begin_pass();
    assert!(load_cost(q.step(status(false, 80, 100))).is_some());
    q.record_load(&"a".to_string(), 80, true);
    assert!(load_cost(q.step(status(false, 80, 100))).is_some());
    assert_eq!(DEFAULT_RUNTIME_GLYPH_BUDGET_PER_FRAME, 128);
}

#[test]
fn budget_oversized_family_is_always_deferred() {
    let mut q = RasterWarmQueue::new();
    q.queue_raster_warm_request(req("a", 160, 10), Some(false));
    for _ in 0..3 {
        assert!(q.begin_pass());
        assert!(matches!(q.step(status(false, 500, 128)), Some(RasterWarmStep::Defer)));
        q.finish_pass();
        assert_eq!(q.len(), 1);
    }
}

fn res(atlas: AtlasChoice, use_target_size: bool, queue_warm: bool) -> FontKeyResolution {
    FontKeyResolution {
        atlas,
        use_target_size,
        queue_warm,
    }
}

#[test]
fn render_resolution() {
    let loaded = vec![(1600, 100), (2400, 100)];
    assert_eq!(
        resolve_font_key_for_render(false, &loaded, (1600, 100), true),
        res(AtlasChoice::FontKey, false, false)
    );
    assert_eq!(
        resolve_font_key_for_render(true, &loaded, (1600, 100), false),
        res(AtlasChoice::Entry(0), false, false)
    );
    assert_eq!(
        resolve_font_key_for_render(true, &loaded, (1600, 100), true),
        res(AtlasChoice::Entry(0), true, false)
    );
    assert_eq!(
        resolve_font_key_for_render(true, &loaded, (2300, 100), false),
        res(AtlasChoice::Entry(1), true, true)
    );
    assert_eq!(
        resolve_font_key_for_render(true, &vec![], (2300, 100), false),
        res(AtlasChoice::FontKey, false, true)
    );
}

#[test]
fn measure_resolution() {
    let loaded = vec![(1600, 100), (2400, 100)];
    assert_eq!(
        resolve_font_key_for_measure(true, &loaded, (2300, 100), false),
        res(AtlasChoice::Entry(1), false, false)
    );
    assert_eq!(
        resolve_font_key_for_measure(true, &loaded, (2300, 100), true),
        res(AtlasChoice::Entry(1), true, false)
    );
    assert_eq!(
        resolve_font_key_for_measure(true, &vec![], (2300, 100), true),
        res(AtlasChoice::FontKey, false, false)
    );
    assert_eq!(
        resolve_font_key_for_measure(false, &loaded, (1600, 100), true),
        res(AtlasChoice::FontKey, false, false)
    );
}

#[test]
fn prewarm_sizes_are_sorted_and_distinct() {
    assert_eq!(
        normalize_prewarm_sizes(&vec![1600, 1200, 1400, 1600, 3200, 1200]),
        vec![1200, 1400, 1600, 3200]
    );
    assert_eq!(normalize_prewarm_sizes(&vec![]), Vec::<u32>::new());
    assert_eq!(normalize_prewarm_sizes(&vec![7]), vec![7]);
}
