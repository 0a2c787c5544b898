//! The draw plan of a frame: the render queue is drawn in z order (ties in submission order),
//! consecutive items that share a texture, an atlas and shader, or a primitive pipeline are
//! drawn as one instanced batch, and the scissor is set again whenever the effective clip of
//! the next item changes.
use vstd::prelude::*;

verus! {

/// What a queued item draws. Textures and atlases are identified by their ids.
#[derive(Debug, Clone, Copy, PartialEq, Eq, Structural)]
pub enum DrawKind {
    /// A whole texture.
    Sprite { texture: u128 },
    /// One tile of a texture atlas.
    AtlasTile { atlas: u128 },
    /// One glyph of a font atlas, drawn with the MSDF shader when `msdf`.
    Glyph { atlas: u128, msdf: bool },
    /// A rounded rectangle.
    Rect,
    /// A glow.
    Glow,
}

/// A queued item: its layer, what it draws and the id of its effective clip (equal ids for
/// equal clips).
#[derive(Debug, Clone, Copy, PartialEq, Eq, Structural)]
pub struct DrawItem {
    pub z: i32,
    pub kind: DrawKind,
    pub clip: u64,
}

/// The batch an item joins: items with the same key drawn one after another share a draw.
#[derive(Debug, Clone, Copy, PartialEq, Eq, Structural)]
pub enum BatchKey {
    Sprites { texture: u128 },
    Atlas { atlas: u128, msdf: bool },
    Rects,
    Glows,
}

/// One step of the frame's draw plan; item lists hold indices into the queue.
#[derive(Debug, Clone, PartialEq, Eq)]
pub enum DrawCmd {
    /// Set the scissor for the clip with this id.
    SetClip(u64),
    /// One instanced draw of sprites of a texture.
    Sprites { texture: u128, items: Vec<usize> },
    /// One instanced draw of tiles or glyphs of an atlas.
    Atlas { atlas: u128, msdf: bool, items: Vec<usize> },
    /// One instanced draw of rectangles.
    Rects(Vec<usize>),
    /// One instanced draw of glows.
    Glows(Vec<usize>),
}

/// Abstract plan step.
pub enum PlanCmd {
    SetClip(u64),
    Batch(BatchKey, Seq<usize>),
}

/// The batch key of an item kind: atlas tiles are drawn with the plain (non-MSDF) shader.
pub open spec fn batch_key(kind: DrawKind) -> BatchKey {
    match kind {
        DrawKind::Sprite { texture } => BatchKey::Sprites { texture },
        DrawKind::AtlasTile { atlas } => BatchKey::Atlas { atlas, msdf: false },
        DrawKind::Glyph { atlas, msdf } => BatchKey::Atlas { atlas, msdf },
        DrawKind::Rect => BatchKey::Rects,
        DrawKind::Glow => BatchKey::Glows,
    }
}

/// The abstract step of a command.
pub open spec fn cmd_view(c: DrawCmd) -> PlanCmd {
    match c {
        DrawCmd::SetClip(id) => PlanCmd::SetClip(id),
        DrawCmd::Sprites { texture, items } => PlanCmd::Batch(BatchKey::Sprites { texture }, items@),
        DrawCmd::Atlas { atlas, msdf, items } => PlanCmd::Batch(BatchKey::Atlas { atlas, msdf }, items@),
        DrawCmd::Rects(items) => PlanCmd::Batch(BatchKey::Rects, items@),
        DrawCmd::Glows(items) => PlanCmd::Batch(BatchKey::Glows, items@),
    }
}

/// The abstract steps of `cmds`.
pub open spec fn cmds_view(cmds: Seq<DrawCmd>) -> Seq<PlanCmd> {
    cmds.map_values(|c: DrawCmd| cmd_view(c))
}

/// Position at which an item of layer `z` goes into `order`: after every item of a layer no
/// higher.
pub open spec fn z_insert_pos(items: Seq<DrawItem>, order: Seq<usize>, z: i32) -> int
    decreases order.len(),
{
    if order.len() == 0 {
        0
    } else if items[order[0] as int].z > z {
        0
    } else {
        1 + z_insert_pos(items, order.drop_first(), z)
    }
}

/// The first `n` queue indices stably sorted by layer.
pub open spec fn sorted_prefix(items: Seq<DrawItem>, n: nat) -> Seq<usize>
    decreases n,
{
    if n == 0 {
        Seq::empty()
    } else {
        let p = sorted_prefix(items, (n - 1) as nat);
        p.insert(z_insert_pos(items, p, items[n - 1].z), (n - 1) as usize)
    }
}

/// The queue indices stably sorted by layer: the order in which items are drawn.
pub open spec fn stable_sort_by_z(items: Seq<DrawItem>) -> Seq<usize> {
    sorted_prefix(items, items.len())
}

/// The plan for drawing the items at `order`, in that order.
pub open spec fn plan_for(items: Seq<DrawItem>, order: Seq<usize>) -> Seq<PlanCmd>
    decreases order.len(),
{
    if order.len() == 0 {
        Seq::empty()
    } else {
        let p = plan_for(items, order.drop_last());
        let i = order.last();
        let it = items[i as int];
        let k = batch_key(it.kind);
        if order.len() == 1 || items[order[order.len() - 2] as int].clip != it.clip {
            p + seq![PlanCmd::SetClip(it.clip), PlanCmd::Batch(k, seq![i])]
        } else if p.len() > 0 && (p.last() matches PlanCmd::Batch(k2, s) && k2 == k) {
            p.update(p.len() - 1, PlanCmd::Batch(k, p.last()->Batch_1.push(i)))
        } else {
            p.push(PlanCmd::Batch(k, seq![i]))
        }
    }
}

/// The plan of a frame with render queue `items`.
pub open spec fn spec_plan_frame(items: Seq<DrawItem>) -> Seq<PlanCmd> {
    plan_for(items, stable_sort_by_z(items))
}

/// The queue indices drawn by `plan`, in drawing order.
pub open spec fn drawn_order(plan: Seq<PlanCmd>) -> Seq<usize>
    decreases plan.len(),
{
    if plan.len() == 0 {
        Seq::empty()
    } else {
        drawn_order(plan.drop_last()) + match plan.last() {
            PlanCmd::SetClip(_) => Seq::empty(),
            PlanCmd::Batch(_, s) => s,
        }
    }
}

/// `order` lists queue indices of `items` by increasing (layer, index).
pub open spec fn z_ordered(items: Seq<DrawItem>, order: Seq<usize>) -> bool {
    &&& forall|p: int| 0 <= p < order.len() ==> (#[trigger] order[p]) < items.len()
    &&& forall|p: int, q: int|
        #![trigger order[p], order[q]]
        0 <= p < q < order.len() ==> {
            let a = items[order[p] as int].z;
            let b = items[order[q] as int].z;
            a < b || (a == b && order[p] < order[q])
        }
}

proof fn lemma_drawn_order_push(plan: Seq<PlanCmd>, c: PlanCmd)
    ensures
        drawn_order(plan.push(c)) == drawn_order(plan) + match c {
            PlanCmd::SetClip(_) => Seq::<usize>::empty(),
            PlanCmd::Batch(_, s) => s,
        },
{
    assert(plan.push(c).drop_last() =~= plan);
}

/// Every item is drawn once, in the order given: the batches of a plan list `order`.
pub proof fn lemma_plan_draws_in_order(items: Seq<DrawItem>, order: Seq<usize>)
    requires
        forall|p: int| 0 <= p < order.len() ==> (#[trigger] order[p]) < items.len(),
    ensures
        drawn_order(plan_for(items, order)) == order,
    decreases order.len(),
{
    if order.len() > 0 {
        let d = order.drop_last();
        assert forall|p: int| 0 <= p < d.len() implies (#[trigger] d[p]) < items.len() by {
            assert(d[p] == order[p]);
        }
        lemma_plan_draws_in_order(items, d);
        let p = plan_for(items, d);
        let i = order.last();
        let it = items[i as int];
        let k = batch_key(it.kind);
        if order.len() == 1 || items[order[order.len() - 2] as int].clip != it.clip {
            lemma_drawn_order_push(p, PlanCmd::SetClip(it.clip));
            lemma_drawn_order_push(p.push(PlanCmd::SetClip(it.clip)), PlanCmd::Batch(k, seq![i]));
            assert(p + seq![PlanCmd::SetClip(it.clip), PlanCmd::Batch(k, seq![i])] =~= p.push(
                PlanCmd::SetClip(it.clip),
            ).push(PlanCmd::Batch(k, seq![i])));
        } else if p.len() > 0 && (p.last() matches PlanCmd::Batch(k2, s) && k2 == k) {
            let s = p.last()->Batch_1;
            let q = p.drop_last();
            assert(p =~= q.push(p.last()));
            lemma_drawn_order_push(q, p.last());
            lemma_drawn_order_push(q, PlanCmd::Batch(k, s.push(i)));
            assert(p.update(p.len() - 1, PlanCmd::Batch(k, s.push(i))) =~= q.push(
                PlanCmd::Batch(k, s.push(i)),
            ));
        } else {
            lemma_drawn_order_push(p, PlanCmd::Batch(k, seq![i]));
        }
        assert(d.push(i) =~= order);
    }
}

proof fn lemma_z_insert_pos(items: Seq<DrawItem>, order: Seq<usize>, z: i32)
    ensures
        0 <= z_insert_pos(items, order, z) <= order.len(),
        forall|p: int|
            0 <= p < z_insert_pos(items, order, z) ==> items[(#[trigger] order[p]) as int].z <= z,
        z_insert_pos(items, order, z) < order.len() ==> items[order[z_insert_pos(
            items,
            order,
            z,
        )] as int].z > z,
    decreases order.len(),
{
    if order.len() > 0 && items[order[0] as int].z <= z {
        let t = order.drop_first();
        lemma_z_insert_pos(items, t, z);
        assert forall|p: int| 0 <= p < z_insert_pos(items, order, z) implies items[(
        #[trigger] order[p]) as int].z <= z by {
            if p > 0 {
                assert(order[p] == t[p - 1]);
            }
        }
    }
}

/// The drawing order lists every queue index once, by increasing (layer, index): a stable sort
/// by layer.
pub proof fn lemma_sorted_prefix(items: Seq<DrawItem>, n: nat)
    requires
        n <= items.len(),
        items.len() <= usize::MAX,
    ensures
        sorted_prefix(items, n).len() == n,
        z_ordered(items, sorted_prefix(items, n)),
        forall|p: int| 0 <= p < n ==> (#[trigger] sorted_prefix(items, n)[p]) < n,
    decreases n,
{
    if n > 0 {
        let m = (n - 1) as nat;
        lemma_sorted_prefix(items, m);
        let p = sorted_prefix(items, m);
        let z = items[m as int].z;
        lemma_z_insert_pos(items, p, z);
        let pos = z_insert_pos(items, p, z);
        let r = p.insert(pos, m as usize);
        assert(r == sorted_prefix(items, n));
        assert forall|a: int| 0 <= a < r.len() implies (#[trigger] r[a]) < n by {
            if a < pos {
                assert(r[a] == p[a]);
            } else if a > pos {
                assert(r[a] == p[a - 1]);
            }
        }
        assert forall|a: int, b: int| #![trigger r[a], r[b]] 0 <= a < b < r.len() implies {
            let x = items[r[a] as int].z;
            let y = items[r[b] as int].z;
            x < y || (x == y && r[a] < r[b])
        } by {
            assert(r[pos] == m as usize);
            if b < pos {
                assert(r[a] == p[a] && r[b] == p[b]);
            } else if b == pos {
                assert(r[a] == p[a]);
                assert(items[p[a] as int].z <= z);
                assert(p[a] < m);
            } else if a < pos {
                assert(r[a] == p[a] && r[b] == p[b - 1]);
            } else if a == pos {
                assert(r[b] == p[b - 1]);
                assert(items[p[pos] as int].z > z);
                if b - 1 > pos {
                    let u = items[p[pos] as int].z;
                    let w = items[p[b - 1] as int].z;
                    assert(u < w || u == w);
                }
            } else {
                assert(r[a] == p[a - 1] && r[b] == p[b - 1]);
            }
        }
    }
}

/// The items of a frame are drawn each once, in z order with ties in submission order.
pub proof fn lemma_plan_frame_draw_order(items: Seq<DrawItem>)
    requires
        items.len() <= usize::MAX,
    ensures
        drawn_order(spec_plan_frame(items)) == stable_sort_by_z(items),
        stable_sort_by_z(items).len() == items.len(),
        z_ordered(items, stable_sort_by_z(items)),
{
    lemma_sorted_prefix(items, items.len());
    lemma_plan_draws_in_order(items, stable_sort_by_z(items));
}

/// The clip set by the last scissor command of `plan` (0 when there is none).
pub open spec fn last_clip(plan: Seq<PlanCmd>) -> u64
    decreases plan.len(),
{
    if plan.len() == 0 {
        0
    } else {
        match plan.last() {
            PlanCmd::SetClip(c) => c,
            PlanCmd::Batch(_, _) => last_clip(plan.drop_last()),
        }
    }
}

/// Step `p` of `plan` is in order: a batch is nonempty and holds queue items of its key whose
/// clip is the one last set; a scissor command is followed by a batch and sets a clip other
/// than the one already set.
pub open spec fn step_ok(items: Seq<DrawItem>, plan: Seq<PlanCmd>, p: int) -> bool {
    match plan[p] {
        PlanCmd::Batch(k, s) => {
            &&& s.len() > 0
            &&& forall|j: int|
                0 <= j < s.len() ==> {
                    &&& (#[trigger] s[j]) < items.len()
                    &&& batch_key(items[s[j] as int].kind) == k
                    &&& items[s[j] as int].clip == last_clip(plan.take(p))
                }
        },
        PlanCmd::SetClip(c) => {
            &&& p + 1 < plan.len()
            &&& plan[p + 1] is Batch
            &&& p > 0 ==> last_clip(plan.take(p)) != c
        },
    }
}

/// Steps `p` and `p + 1` of `plan` are not two batches of the same key.
pub open spec fn neighbours_differ(plan: Seq<PlanCmd>, p: int) -> bool {
    (plan[p] is Batch && plan[p + 1] is Batch) ==> plan[p]->Batch_0 != plan[p + 1]->Batch_0
}

/// `plan` starts by setting the scissor, and every step is in order; no two batches in a row
/// could have been one.
pub open spec fn plan_batched(items: Seq<DrawItem>, plan: Seq<PlanCmd>) -> bool {
    &&& plan.len() > 0 ==> plan[0] is SetClip
    &&& forall|p: int| 0 <= p < plan.len() ==> #[trigger] step_ok(items, plan, p)
    &&& forall|p: int| 0 <= p < plan.len() - 1 ==> #[trigger] neighbours_differ(plan, p)
}

proof fn lemma_plan_for_batched(items: Seq<DrawItem>, order: Seq<usize>)
    requires
        forall|p: int| 0 <= p < order.len() ==> (#[trigger] order[p]) < items.len(),
    ensures
        plan_batched(items, plan_for(items, order)),
        order.len() == 0 ==> plan_for(items, order).len() == 0,
        order.len() > 0 ==> {
            let plan = plan_for(items, order);
            &&& plan.len() > 0
            &&& plan.last() is Batch
            &&& plan.last()->Batch_0 == batch_key(items[order.last() as int].kind)
            &&& last_clip(plan) == items[order.last() as int].clip
        },
    decreases order.len(),
{
    if order.len() > 0 {
        let d = order.drop_last();
        assert forall|p: int| 0 <= p < d.len() implies (#[trigger] d[p]) < items.len() by {
            assert(d[p] == order[p]);
        }
        lemma_plan_for_batched(items, d);
        let p = plan_for(items, d);
        let i = order.last();
        let it = items[i as int];
        let k = batch_key(it.kind);
        let plan = plan_for(items, order);
        if order.len() == 1 || items[order[order.len() - 2] as int].clip != it.clip {
            let n = p.len();
            assert(plan == p + seq![PlanCmd::SetClip(it.clip), PlanCmd::Batch(k, seq![i])]);
            assert(plan.drop_last() =~= p.push(PlanCmd::SetClip(it.clip)));
            assert(p.push(PlanCmd::SetClip(it.clip)).drop_last() =~= p);
            assert(plan.take((n + 1) as int) =~= p.push(PlanCmd::SetClip(it.clip)));
            assert(plan.take(n as int) =~= p);
            if order.len() > 1 {
                assert(d.last() == order[order.len() - 2]);
            }
            assert(plan.last() == PlanCmd::Batch(k, seq![i]));
            assert(last_clip(plan) == last_clip(plan.drop_last()));
            assert(last_clip(plan) == it.clip);
            assert forall|q: int| 0 <= q < plan.len() implies #[trigger] step_ok(items, plan, q) by {
                if q < n {
                    assert(plan[q] == p[q]);
                    assert(plan.take(q) =~= p.take(q));
                    assert(step_ok(items, p, q));
                    if q + 1 < n {
                        assert(plan[q + 1] == p[q + 1]);
                    } else if p[q] is SetClip {
                        assert(false);
                    }
                } else if q == n + 1 {
                    let s = seq![i];
                    assert(plan[q] == PlanCmd::Batch(k, s));
                    assert forall|j: int| 0 <= j < s.len() implies {
                        &&& (#[trigger] s[j]) < items.len()
                        &&& batch_key(items[s[j] as int].kind) == k
                        &&& items[s[j] as int].clip == last_clip(plan.take(q))
                    } by {
                        assert(s[j] == i);
                    }
                }
            }
            assert forall|q: int| 0 <= q < plan.len() - 1 implies #[trigger] neighbours_differ(
                plan,
                q,
            ) by {
                if q < n - 1 {
                    assert(plan[q] == p[q] && plan[q + 1] == p[q + 1]);
                    assert(neighbours_differ(p, q));
                }
            }
        } else {
            let n = p.len();
            assert(d.last() == order[order.len() - 2]);
            assert(p.drop_last() =~= p.take(n - 1));
            if p.len() > 0 && (p.last() matches PlanCmd::Batch(k2, s0) && k2 == k) {
                let s0 = p.last()->Batch_1;
                let s = s0.push(i);
                assert(plan == p.update(n - 1, PlanCmd::Batch(k, s)));
                assert(plan.take(n - 1) =~= p.take(n - 1));
                assert(plan.drop_last() =~= p.drop_last());
                assert(plan.last() == PlanCmd::Batch(k, s));
                assert(last_clip(plan) == last_clip(plan.drop_last()));
                assert(last_clip(p) == last_clip(p.drop_last()));
                assert(last_clip(plan) == it.clip);
                assert forall|q: int| 0 <= q < plan.len() implies #[trigger] step_ok(items, plan, q) by {
                    if q < n - 1 {
                        assert(plan[q] == p[q]);
                        assert(plan.take(q) =~= p.take(q));
                        assert(step_ok(items, p, q));
                        assert(plan[q + 1] is Batch == p[q + 1] is Batch);
                    } else {
                        assert(step_ok(items, p, n - 1));
                        assert forall|j: int| 0 <= j < s.len() implies {
                            &&& (#[trigger] s[j]) < items.len()
                            &&& batch_key(items[s[j] as int].kind) == k
                            &&& items[s[j] as int].clip == last_clip(plan.take(q))
                        } by {
                            if j < s0.len() {
                                assert(s[j] == s0[j]);
                            } else {
                                assert(s[j] == i);
                            }
                        }
                    }
                }
                assert forall|q: int| 0 <= q < plan.len() - 1 implies #[trigger] neighbours_differ(
                    plan,
                    q,
                ) by {
                    assert(neighbours_differ(p, q));
                    assert(plan[q] == p[q]);
                    if q + 1 < n - 1 {
                        assert(plan[q + 1] == p[q + 1]);
                    }
                }
            } else {
                let b = PlanCmd::Batch(k, seq![i]);
                assert(plan == p.push(b));
                assert(plan.drop_last() =~= p);
                assert(plan.take(n as int) =~= p);
                assert(plan.last() == b);
                assert(last_clip(plan) == last_clip(plan.drop_last()));
                assert(last_clip(plan) == it.clip);
                assert forall|q: int| 0 <= q < plan.len() implies #[trigger] step_ok(items, plan, q) by {
                    if q < n {
                        assert(plan[q] == p[q]);
                        assert(plan.take(q) =~= p.take(q));
                        assert(step_ok(items, p, q));
                        if q + 1 < n {
                            assert(plan[q + 1] == p[q + 1]);
                        }
                    } else {
                        let s = seq![i];
                        assert forall|j: int| 0 <= j < s.len() implies {
                            &&& (#[trigger] s[j]) < items.len()
                            &&& batch_key(items[s[j] as int].kind) == k
                            &&& items[s[j] as int].clip == last_clip(plan.take(q))
                        } by {
                            assert(s[j] == i);
                        }
                    }
                }
                assert forall|q: int| 0 <= q < plan.len() - 1 implies #[trigger] neighbours_differ(
                    plan,
                    q,
                ) by {
                    assert(plan[q] == p[q]);
                    if q < n - 1 {
                        assert(plan[q + 1] == p[q + 1]);
                        assert(neighbours_differ(p, q));
                    }
                }
            }
        }
    }
}

/// The plan of a frame batches as the engine does: it starts by setting the scissor; each batch
/// draws items of one texture, atlas and shader, or primitive, all under the clip last set; the
/// scissor is set again only when the clip changes; and no two batches in a row share a key,
/// so consecutive items that could share a draw do.
pub proof fn lemma_plan_frame_batched(items: Seq<DrawItem>)
    requires
        items.len() <= usize::MAX,
    ensures
        plan_batched(items, spec_plan_frame(items)),
{
    lemma_sorted_prefix(items, items.len());
    lemma_plan_for_batched(items, stable_sort_by_z(items));
}

fn stable_sort_indices_by_z(items: &Vec<DrawItem>) -> (r: Vec<usize>)
    ensures
        r@ == stable_sort_by_z(items@),
{
    let mut order: Vec<usize> = Vec::new();
    let mut i: usize = 0;
    while i < items.len()
        invariant
            i <= items@.len(),
            order@ == sorted_prefix(items@, i as nat),
        decreases items@.len() - i,
    {
        proof {
            lemma_sorted_prefix(items@, i as nat);
        }
        let z = items[i].z;
        let mut pos: usize = 0;
        while pos < order.len() && items[order[pos]].z <= z
            invariant
                i < items@.len(),
                order@ == sorted_prefix(items@, i as nat),
                forall|p: int| 0 <= p < order@.len() ==> (#[trigger] order@[p]) < i,
                pos <= order@.len(),
                forall|p: int| 0 <= p < pos ==> items@[(#[trigger] order@[p]) as int].z <= z,
            decreases order@.len() - pos,
        {
            pos = pos + 1;
        }
        proof {
            lemma_z_insert_pos(items@, order@, z);
            let zp = z_insert_pos(items@, order@, z);
            if zp < pos {
                assert(items@[order@[zp] as int].z <= z);
            }
            if pos < zp {
                assert(items@[order@[pos as int] as int].z <= z);
            }
        }
        order.insert(pos, i);
        i = i + 1;
    }
    order
}

/// The plan made so far, with the open batch, if any, at its end.
pub open spec fn with_open(cmds: Seq<DrawCmd>, open: Option<(BatchKey, Vec<usize>)>) -> Seq<PlanCmd> {
    match open {
        None => cmds_view(cmds),
        Some((k, v)) => cmds_view(cmds).push(PlanCmd::Batch(k, v@)),
    }
}

/// Adds the open batch, if any, to the plan.
fn close_batch(cmds: &mut Vec<DrawCmd>, open: Option<(BatchKey, Vec<usize>)>)
    ensures
        cmds_view(final(cmds)@) == with_open(old(cmds)@, open),
{
    let ghost pre = cmds@;
    match open {
        None => {},
        Some((k, v)) => {
            let ghost vv = v@;
            let c = match k {
                BatchKey::Sprites { texture } => DrawCmd::Sprites { texture, items: v },
                BatchKey::Atlas { atlas, msdf } => DrawCmd::Atlas { atlas, msdf, items: v },
                BatchKey::Rects => DrawCmd::Rects(v),
                BatchKey::Glows => DrawCmd::Glows(v),
            };
            assert(cmd_view(c) == PlanCmd::Batch(k, vv));
            cmds.push(c);
            assert(cmds_view(cmds@) =~= cmds_view(pre).push(PlanCmd::Batch(k, vv)));
        },
    }
}

fn batch_key_of(kind: DrawKind) -> (r: BatchKey)
    ensures
        r == batch_key(kind),
{
    match kind {
        DrawKind::Sprite { texture } => BatchKey::Sprites { texture },
        DrawKind::AtlasTile { atlas } => BatchKey::Atlas { atlas, msdf: false },
        DrawKind::Glyph { atlas, msdf } => BatchKey::Atlas { atlas, msdf },
        DrawKind::Rect => BatchKey::Rects,
        DrawKind::Glow => BatchKey::Glows,
    }
}

/// The draw plan of a frame: the queue in z order (ties in submission order), consecutive items
/// with the same batch key and clip drawn as one batch, and a scissor change before the first
/// item and whenever the clip changes.
pub fn plan_frame(items: &Vec<DrawItem>) -> (r: Vec<DrawCmd>)
    ensures
        cmds_view(r@) == spec_plan_frame(items@),
        drawn_order(cmds_view(r@)) == stable_sort_by_z(items@),
{
    let order = stable_sort_indices_by_z(items);
    let n = items.len();
    proof {
        assert(items@.len() == n);
        lemma_plan_frame_draw_order(items@);
    }
    let ghost ord = order@;
    let mut cmds: Vec<DrawCmd> = Vec::new();
    let mut open: Option<(BatchKey, Vec<usize>)> = None;
    let mut active_clip: u64 = 0;
    let mut k: usize = 0;
    assert(cmds_view(cmds@) =~= Seq::<PlanCmd>::empty());
    while k < order.len()
        invariant
            ord == order@,
            ord == stable_sort_by_z(items@),
            forall|p: int| 0 <= p < ord.len() ==> (#[trigger] ord[p]) < items@.len(),
            k <= ord.len(),
            k == 0 ==> open is None,
            k > 0 ==> open is Some && active_clip == items@[ord[k - 1] as int].clip,
            with_open(cmds@, open) == plan_for(items@, ord.take(k as int)),
        decreases ord.len() - k,
    {
        let i = order[k];
        let it = items[i];
        let key = batch_key_of(it.kind);
        proof {
            let t = ord.take(k + 1);
            assert(t.drop_last() =~= ord.take(k as int));
            assert(t.last() == i);
            if k > 0 {
                assert(t[t.len() - 2] == ord[k - 1]);
            }
        }
        let ghost before = with_open(cmds@, open);
        if k == 0 || active_clip != it.clip {
            let taken = open;
            open = None;
            close_batch(&mut cmds, taken);
            let ghost mid = cmds@;
            cmds.push(DrawCmd::SetClip(it.clip));
            proof {
                assert(cmds_view(cmds@) =~= cmds_view(mid).push(PlanCmd::SetClip(it.clip)));
            }
            let mut v: Vec<usize> = Vec::new();
            v.push(i);
            open = Some((key, v));
            active_clip = it.clip;
            proof {
                assert(v@ =~= seq![i]);
                assert(cmds_view(cmds@).push(PlanCmd::Batch(key, v@)) =~= before + seq![
                    PlanCmd::SetClip(it.clip),
                    PlanCmd::Batch(key, seq![i]),
                ]);
            }
        } else {
            let taken = open;
            open = None;
            match taken {
                Some((bk, v0)) => {
                    if bk == key {
                        let mut v = v0;
                        let ghost s = v@;
                        v.push(i);
                        open = Some((bk, v));
                        proof {
                            assert(before.last() == PlanCmd::Batch(bk, s));
                            assert(cmds_view(cmds@).push(PlanCmd::Batch(bk, v@)) =~= before.update(
                                before.len() - 1,
                                PlanCmd::Batch(key, s.push(i)),
                            ));
                        }
                    } else {
                        close_batch(&mut cmds, Some((bk, v0)));
                        let mut v: Vec<usize> = Vec::new();
                        v.push(i);
                        open = Some((key, v));
                        proof {
                            assert(v@ =~= seq![i]);
                            assert(before.last() == PlanCmd::Batch(bk, v0@));
                        }
                    }
                },
                None => {},
            }
        }
        k = k + 1;
    }
    close_batch(&mut cmds, open);
    assert(ord.take(ord.len() as int) =~= ord);
    cmds
}

} // verus!
