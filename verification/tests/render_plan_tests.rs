use plutonium_engine::render_plan::{plan_frame, DrawCmd, DrawItem, DrawKind};

fn item(z: i32, kind: DrawKind, clip: u64) -> DrawItem {
    DrawItem { z, kind, clip }
}

#[test]
fn plan_sorts_by_z_and_batches_runs() {
    let items = vec![
        item(1, DrawKind::Sprite { texture: 7 }, 0),
        item(0, DrawKind::Sprite { texture: 7 }, 0),
        item(1, DrawKind::Sprite { texture: 7 }, 0),
        item(1, DrawKind::Glyph { atlas: 3, msdf: false }, 0),
        item(1, DrawKind::AtlasTile { atlas: 3 }, 0),
        item(1, DrawKind::Glyph { atlas: 3, msdf: true }, 0),
        item(2, DrawKind::Rect, 0),
        item(2, DrawKind::Rect, 1),
        item(2, DrawKind::Glow, 1),
    ];
    assert_eq!(
        plan_frame(&items),
        vec![
            DrawCmd::SetClip(0),
            DrawCmd::Sprites { texture: 7, items: vec![1, 0, 2] },
            DrawCmd::Atlas { atlas: 3, msdf: false, items: vec![3, 4] },
            DrawCmd::Atlas { atlas: 3, msdf: true, items: vec![5] },
            DrawCmd::Rects(vec![6]),
            DrawCmd::SetClip(1),
            DrawCmd::Rects(vec![7]),
            DrawCmd::Glows(vec![8]),
        ]
    );
}

#[test]
fn plan_splits_batches_on_texture_and_kind_changes() {
    let items = vec![
        item(0, DrawKind::Sprite { texture: 1 }, 5),
        item(0, DrawKind::Sprite { texture: 2 }, 5),
        item(0, DrawKind::Sprite { texture: 1 }, 5),
        item(0, DrawKind::Rect, 5),
        item(0, DrawKind::Glow, 5),
        item(0, DrawKind::Rect, 5),
    ];
    assert_eq!(
        plan_frame(&items),
        vec![
            DrawCmd::SetClip(5),
            DrawCmd::Sprites { texture: 1, items: vec![0] },
            DrawCmd::Sprites { texture: 2, items: vec![1] },
            DrawCmd::Sprites { texture: 1, items: vec![2] },
            DrawCmd::Rects(vec![3]),
            DrawCmd::Glows(vec![4]),
            DrawCmd::Rects(vec![5]),
        ]
    );
}

#[test]
fn empty_queue_plans_nothing_and_clip_returns_reset_scissor() {
    assert!(plan_frame(&vec![]).is_empty());
    let items = vec![
        item(0, DrawKind::Rect, 0),
        item(1, DrawKind::Rect, 1),
        item(2, DrawKind::Rect, 0),
    ];
    assert_eq!(
        plan_frame(&items),
        vec![
            DrawCmd::SetClip(0),
            DrawCmd::Rects(vec![0]),
            DrawCmd::SetClip(1),
            DrawCmd::Rects(vec![1]),
            DrawCmd::SetClip(0),
            DrawCmd::Rects(vec![2]),
        ]
    );
}

#[test]
fn negative_layers_draw_first_and_ties_keep_submission_order() {
    let items = vec![
        item(3, DrawKind::Glow, 0),
        item(-2, DrawKind::Glow, 0),
        item(3, DrawKind::Glow, 0),
        item(-2, DrawKind::Glow, 0),
    ];
    assert_eq!(
        plan_frame(&items),
        vec![DrawCmd::SetClip(0), DrawCmd::Glows(vec![1, 3, 0, 2])]
    );
}
