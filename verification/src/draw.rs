//! How a scene becomes draw calls: each primitive is clipped to the part of
//! the surface its content mask leaves, drawn in one batch with the vertices
//! it produced, or counted as skipped; the kinds not drawn yet are counted.
//! The geometry itself, in floating point, is computed by the embedding.

use vstd::prelude::*;

verus! {

/// The pipeline a batch is drawn with.
#[derive(Clone, Copy, Debug, PartialEq, Eq, Structural)]
pub enum DrawPipeline {
    Quads,
    Paths,
    Glyphs,
}

/// A rectangle of the surface in device pixels.
#[derive(Clone, Copy, Debug, PartialEq, Eq, Structural)]
pub struct Scissor {
    pub x: i32,
    pub y: i32,
    pub width: u32,
    pub height: u32,
}

/// One draw call: `vertex_count` vertices from `first_vertex` of the
/// pipeline's vertex list, clipped to `scissor`.
#[derive(Clone, Copy, Debug, PartialEq, Eq, Structural)]
pub struct DrawBatch {
    pub pipeline: DrawPipeline,
    pub first_vertex: u32,
    pub vertex_count: u32,
    pub scissor: Scissor,
}

/// The kinds of primitive the renderer does not draw yet.
#[derive(Clone, Copy, Debug, PartialEq, Eq, Structural)]
pub enum UndrawnKind {
    Shadows,
    SubpixelSprites,
    PolychromeSprites,
    Surfaces,
}

/// `n` as an `i32`, held to its range.
pub open spec fn clamp_i32(n: int) -> i32 {
    if n > i32::MAX { i32::MAX } else if n < i32::MIN { i32::MIN } else { n as i32 }
}

/// The scissor for a content mask whose edges, rounded outwards to whole
/// device pixels, are `left`, `top`, `right` and `bottom`, on a `width` x
/// `height` surface: the mask clamped to the surface, or `None` when nothing
/// of it is left.
pub open spec fn spec_scissor(left: i64, top: i64, right: i64, bottom: i64, width: u32, height: u32) -> Option<Scissor> {
    let l: int = if left < 0 { 0 } else { left as int };
    let t: int = if top < 0 { 0 } else { top as int };
    let r: int = if right < width { right as int } else { width as int };
    let b: int = if bottom < height { bottom as int } else { height as int };
    let extent_x: int = if r - l < 0 { 0 } else { r - l };
    let extent_y: int = if b - t < 0 { 0 } else { b - t };
    if extent_x == 0 || extent_y == 0 {
        None
    } else {
        Some(Scissor { x: clamp_i32(l), y: clamp_i32(t), width: extent_x as u32, height: extent_y as u32 })
    }
}

/// Clip a primitive's content mask to the surface; see `spec_scissor`.
pub fn scissor_for(left: i64, top: i64, right: i64, bottom: i64, width: u32, height: u32) -> (scissor: Option<Scissor>)
    ensures
        scissor == spec_scissor(left, top, right, bottom, width, height),
{
    let l: i64 = if left < 0 { 0 } else { left };
    let t: i64 = if top < 0 { 0 } else { top };
    let r: i64 = if right < width as i64 { right } else { width as i64 };
    let b: i64 = if bottom < height as i64 { bottom } else { height as i64 };
    let extent_x: i64 = if r < l { 0 } else { r - l };
    let extent_y: i64 = if b < t { 0 } else { b - t };
    if extent_x == 0 || extent_y == 0 {
        None
    } else {
        let x: i32 = if l > i32::MAX as i64 { i32::MAX } else { l as i32 };
        let y: i32 = if t > i32::MAX as i64 { i32::MAX } else { t as i32 };
        Some(Scissor { x, y, width: extent_x as u32, height: extent_y as u32 })
    }
}

/// The draw calls of a scene so far, and what was left out of them.
pub struct DrawList {
    pub batches: Vec<DrawBatch>,
    /// Primitives clipped away entirely.
    pub skipped: usize,
    /// Primitives of kinds not drawn yet, all kinds together.
    pub unhandled: usize,
    pub shadows: usize,
    pub subpixel: usize,
    pub polychrome: usize,
    pub surfaces: usize,
}

impl DrawList {
    /// Nothing drawn or left out yet.
    pub fn new() -> (list: Self)
        ensures
            list.batches@.len() == 0,
            list.skipped == 0,
            list.unhandled == 0,
            list.shadows == 0,
            list.subpixel == 0,
            list.polychrome == 0,
            list.surfaces == 0,
    {
        DrawList { batches: Vec::new(), skipped: 0, unhandled: 0, shadows: 0, subpixel: 0, polychrome: 0, surfaces: 0 }
    }

    /// A primitive was drawn into the pipeline's vertex list, which held
    /// `first` vertices before it and `after` after it: one batch for those
    /// vertices, clipped to `scissor`. The counts are the list's, cut to 32
    /// bits as the driver takes them.
    pub fn drawn(&mut self, pipeline: DrawPipeline, first: usize, after: usize, scissor: Scissor)
        requires
            first <= after,
        ensures
            final(self).batches@ == old(self).batches@.push(DrawBatch {
                pipeline,
                first_vertex: first as u32,
                vertex_count: (after - first) as u32,
                scissor,
            }),
            final(self).skipped == old(self).skipped,
            final(self).unhandled == old(self).unhandled,
            final(self).shadows == old(self).shadows,
            final(self).subpixel == old(self).subpixel,
            final(self).polychrome == old(self).polychrome,
            final(self).surfaces == old(self).surfaces,
    {
        self.batches.push(DrawBatch {
            pipeline,
            first_vertex: first as u32,
            vertex_count: (after - first) as u32,
            scissor,
        });
    }

    /// A primitive was clipped away entirely: it is counted and not drawn.
    pub fn clipped(&mut self)
        requires
            old(self).skipped < usize::MAX,
        ensures
            final(self).batches@ == old(self).batches@,
            final(self).skipped == old(self).skipped + 1,
            final(self).unhandled == old(self).unhandled,
            final(self).shadows == old(self).shadows,
            final(self).subpixel == old(self).subpixel,
            final(self).polychrome == old(self).polychrome,
            final(self).surfaces == old(self).surfaces,
    {
        self.skipped = self.skipped + 1;
    }

    /// `count` primitives of a kind not drawn yet: counted under their kind
    /// and as unhandled, leaving the batches as they are so the painter's
    /// order of the rest is kept.
    pub fn not_drawn(&mut self, kind: UndrawnKind, count: usize)
        requires
            old(self).unhandled + count <= usize::MAX,
            old(self).shadows + count <= usize::MAX,
            old(self).subpixel + count <= usize::MAX,
            old(self).polychrome + count <= usize::MAX,
            old(self).surfaces + count <= usize::MAX,
        ensures
            final(self).batches@ == old(self).batches@,
            final(self).skipped == old(self).skipped,
            final(self).unhandled == old(self).unhandled + count,
            final(self).shadows == old(self).shadows + if kind == UndrawnKind::Shadows { count } else { 0 },
            final(self).subpixel == old(self).subpixel + if kind == UndrawnKind::SubpixelSprites { count } else { 0 },
            final(self).polychrome == old(self).polychrome + if kind == UndrawnKind::PolychromeSprites { count } else { 0 },
            final(self).surfaces == old(self).surfaces + if kind == UndrawnKind::Surfaces { count } else { 0 },
    {
        self.unhandled = self.unhandled + count;
        match kind {
            UndrawnKind::Shadows => self.shadows = self.shadows + count,
            UndrawnKind::SubpixelSprites => self.subpixel = self.subpixel + count,
            UndrawnKind::PolychromeSprites => self.polychrome = self.polychrome + count,
            UndrawnKind::Surfaces => self.surfaces = self.surfaces + count,
        }
    }

    /// Whether the frame looks wrong: the scene had quads and none was drawn,
    /// or it holds content of a kind that is not drawn yet. Shadows alone do
    /// not count.
    pub fn is_anomalous(&self, scene_quads: usize, drawn_quads: usize) -> (anomalous: bool)
        ensures
            anomalous == ((scene_quads > 0 && drawn_quads == 0) || self.subpixel > 0 || self.polychrome > 0 || self.surfaces > 0),
    {
        (scene_quads > 0 && drawn_quads == 0) || self.subpixel > 0 || self.polychrome > 0 || self.surfaces > 0
    }
}

/// Whether to log a frame's draw summary: always for an anomalous frame,
/// else one frame in 120 by the running `sample` count.
pub fn should_report(anomalous: bool, sample: usize) -> (report: bool)
    ensures
        report == (anomalous || sample % 120 == 0),
{
    anomalous || sample % 120 == 0
}


// ---------------------------------------------------------------------------
// Walking a scene
// ---------------------------------------------------------------------------

/// One primitive of a scene, in painter's order, as drawing sees it.
#[derive(Clone, Copy, Debug, PartialEq, Eq, Structural)]
pub enum ScenePrimitive {
    /// A primitive a pipeline draws: the edges of its content mask rounded
    /// outwards to whole device pixels, and how many vertices drawing it
    /// produces (none when there is nothing of it to draw).
    Drawable { pipeline: DrawPipeline, left: i64, top: i64, right: i64, bottom: i64, vertices: usize },
    /// `count` primitives of a kind not drawn yet.
    Undrawn { kind: UndrawnKind, count: usize },
}

/// The vertices `p` adds to the list of `pipeline`: a primitive of that
/// pipeline that its mask does not clip away entirely adds its vertices.
pub open spec fn added_vertices(p: ScenePrimitive, pipeline: DrawPipeline, width: u32, height: u32) -> int {
    match p {
        ScenePrimitive::Drawable { pipeline: q, left, top, right, bottom, vertices } =>
            if q == pipeline && spec_scissor(left, top, right, bottom, width, height) is Some { vertices as int } else { 0 },
        ScenePrimitive::Undrawn { .. } => 0,
    }
}

/// How many vertices the list of `pipeline` holds after `prims`.
pub open spec fn vertices_after(prims: Seq<ScenePrimitive>, pipeline: DrawPipeline, width: u32, height: u32) -> int
    decreases prims.len(),
{
    if prims.len() == 0 {
        0
    } else {
        vertices_after(prims.drop_last(), pipeline, width, height) + added_vertices(prims.last(), pipeline, width, height)
    }
}

/// The draw calls for `prims`, in painter's order: one per primitive that
/// is not clipped away and produces vertices, covering exactly those
/// vertices of its pipeline's list, clipped to its scissor.
pub open spec fn spec_batches(prims: Seq<ScenePrimitive>, width: u32, height: u32) -> Seq<DrawBatch>
    decreases prims.len(),
{
    if prims.len() == 0 {
        Seq::empty()
    } else {
        let previous = spec_batches(prims.drop_last(), width, height);
        match prims.last() {
            ScenePrimitive::Drawable { pipeline, left, top, right, bottom, vertices } =>
                match spec_scissor(left, top, right, bottom, width, height) {
                    Some(scissor) => if vertices > 0 {
                        previous.push(DrawBatch {
                            pipeline,
                            first_vertex: vertices_after(prims.drop_last(), pipeline, width, height) as u32,
                            vertex_count: vertices as u32,
                            scissor,
                        })
                    } else {
                        previous
                    },
                    None => previous,
                },
            ScenePrimitive::Undrawn { .. } => previous,
        }
    }
}

/// How many primitives of `prims` their masks clip away entirely.
pub open spec fn clipped_count(prims: Seq<ScenePrimitive>, width: u32, height: u32) -> int
    decreases prims.len(),
{
    if prims.len() == 0 {
        0
    } else {
        clipped_count(prims.drop_last(), width, height) + match prims.last() {
            ScenePrimitive::Drawable { left, top, right, bottom, .. } =>
                if spec_scissor(left, top, right, bottom, width, height) is None { 1int } else { 0int },
            ScenePrimitive::Undrawn { .. } => 0int,
        }
    }
}

/// How many primitives of `prims` are of a kind not drawn yet: of `kind`,
/// or of any kind for `None`.
pub open spec fn undrawn_count(prims: Seq<ScenePrimitive>, kind: Option<UndrawnKind>) -> int
    decreases prims.len(),
{
    if prims.len() == 0 {
        0
    } else {
        undrawn_count(prims.drop_last(), kind) + match prims.last() {
            ScenePrimitive::Undrawn { kind: k, count } => if kind is None || kind == Some(k) { count as int } else { 0int },
            ScenePrimitive::Drawable { .. } => 0int,
        }
    }
}

proof fn lemma_vertices_nonnegative(prims: Seq<ScenePrimitive>, pipeline: DrawPipeline, width: u32, height: u32)
    ensures
        0 <= vertices_after(prims, pipeline, width, height),
    decreases prims.len(),
{
    if prims.len() > 0 {
        lemma_vertices_nonnegative(prims.drop_last(), pipeline, width, height);
    }
}

proof fn lemma_vertices_prefix(prims: Seq<ScenePrimitive>, i: int, pipeline: DrawPipeline, width: u32, height: u32)
    requires
        0 <= i <= prims.len(),
    ensures
        0 <= vertices_after(prims.take(i), pipeline, width, height) <= vertices_after(prims, pipeline, width, height),
    decreases prims.len() - i,
{
    lemma_vertices_nonnegative(prims.take(i), pipeline, width, height);
    if i < prims.len() {
        lemma_vertices_prefix(prims, i + 1, pipeline, width, height);
        assert(prims.take(i + 1).drop_last() =~= prims.take(i));
    } else {
        assert(prims.take(i) =~= prims);
    }
}

proof fn lemma_undrawn_bounds(prims: Seq<ScenePrimitive>, kind: UndrawnKind)
    ensures
        0 <= undrawn_count(prims, Some(kind)) <= undrawn_count(prims, None),
    decreases prims.len(),
{
    if prims.len() > 0 {
        lemma_undrawn_bounds(prims.drop_last(), kind);
    }
}

proof fn lemma_undrawn_prefix(prims: Seq<ScenePrimitive>, i: int)
    requires
        0 <= i <= prims.len(),
    ensures
        undrawn_count(prims.take(i), None) <= undrawn_count(prims, None),
    decreases prims.len() - i,
{
    if i < prims.len() {
        lemma_undrawn_prefix(prims, i + 1);
        assert(prims.take(i + 1).drop_last() =~= prims.take(i));
    } else {
        assert(prims.take(i) =~= prims);
    }
}

proof fn lemma_clipped_bound(prims: Seq<ScenePrimitive>, width: u32, height: u32)
    ensures
        0 <= clipped_count(prims, width, height) <= prims.len(),
    decreases prims.len(),
{
    if prims.len() > 0 {
        lemma_clipped_bound(prims.drop_last(), width, height);
    }
}

/// Whether every pipeline's vertex list of `prims` has a length a 32-bit
/// draw call can address.
pub open spec fn counts_fit(prims: Seq<ScenePrimitive>, width: u32, height: u32) -> bool {
    &&& vertices_after(prims, DrawPipeline::Quads, width, height) <= u32::MAX
    &&& vertices_after(prims, DrawPipeline::Paths, width, height) <= u32::MAX
    &&& vertices_after(prims, DrawPipeline::Glyphs, width, height) <= u32::MAX
}

proof fn lemma_counts_fit_drop_last(prims: Seq<ScenePrimitive>, width: u32, height: u32)
    requires
        prims.len() > 0,
        counts_fit(prims, width, height),
    ensures
        counts_fit(prims.drop_last(), width, height),
        forall|p: DrawPipeline| #[trigger] vertices_after(prims.drop_last(), p, width, height) <= vertices_after(prims, p, width, height),
{
    assert forall|p: DrawPipeline| #[trigger] vertices_after(prims.drop_last(), p, width, height) <= vertices_after(prims, p, width, height) by {
        assert(added_vertices(prims.last(), p, width, height) >= 0);
    }
}

/// Each batch ends within its pipeline's vertex list.
proof fn lemma_batch_within(prims: Seq<ScenePrimitive>, k: int, width: u32, height: u32)
    requires
        counts_fit(prims, width, height),
        0 <= k < spec_batches(prims, width, height).len(),
    ensures
        ({
            let b = spec_batches(prims, width, height)[k];
            b.first_vertex + b.vertex_count <= vertices_after(prims, b.pipeline, width, height)
        }),
    decreases prims.len(),
{
    let prev = prims.drop_last();
    lemma_counts_fit_drop_last(prims, width, height);
    let before = spec_batches(prev, width, height);
    let b = spec_batches(prims, width, height)[k];
    if k < before.len() {
        assert(b == before[k]);
        lemma_batch_within(prev, k, width, height);
        assert(vertices_after(prev, b.pipeline, width, height) <= vertices_after(prims, b.pipeline, width, height));
    } else {
        lemma_vertices_nonnegative(prev, b.pipeline, width, height);
    }
}

/// Painter's order within a pipeline: a later batch of the same pipeline
/// starts where an earlier one's vertices have ended, so no two batches
/// draw the same vertices and each pipeline's vertex list is used in the
/// order its primitives came.
pub proof fn batches_follow_each_other(prims: Seq<ScenePrimitive>, i: int, j: int, width: u32, height: u32)
    requires
        counts_fit(prims, width, height),
        0 <= i < j < spec_batches(prims, width, height).len(),
        spec_batches(prims, width, height)[i].pipeline == spec_batches(prims, width, height)[j].pipeline,
    ensures
        spec_batches(prims, width, height)[i].first_vertex + spec_batches(prims, width, height)[i].vertex_count
            <= spec_batches(prims, width, height)[j].first_vertex,
    decreases prims.len(),
{
    let prev = prims.drop_last();
    lemma_counts_fit_drop_last(prims, width, height);
    let before = spec_batches(prev, width, height);
    let all = spec_batches(prims, width, height);
    assert(all[i] == before[i]);
    if j < before.len() {
        assert(all[j] == before[j]);
        batches_follow_each_other(prev, i, j, width, height);
    } else {
        lemma_batch_within(prev, i, width, height);
        lemma_vertices_nonnegative(prev, all[j].pipeline, width, height);
    }
}

proof fn lemma_scissor_inside(left: i64, top: i64, right: i64, bottom: i64, width: u32, height: u32)
    ensures
        spec_scissor(left, top, right, bottom, width, height) matches Some(s) ==> {
            &&& 0 <= s.x && 0 <= s.y
            &&& 0 < s.width && 0 < s.height
            &&& s.x + s.width <= width && s.y + s.height <= height
        },
{
}

/// Every batch draws a non-empty run of vertices inside a scissor that is
/// a non-empty part of the surface, so nothing is drawn with a scissor
/// larger than the surface.
pub proof fn batches_lie_inside_the_surface(prims: Seq<ScenePrimitive>, k: int, width: u32, height: u32)
    requires
        counts_fit(prims, width, height),
        0 <= k < spec_batches(prims, width, height).len(),
    ensures
        ({
            let b = spec_batches(prims, width, height)[k];
            &&& b.vertex_count > 0
            &&& 0 <= b.scissor.x && 0 <= b.scissor.y
            &&& 0 < b.scissor.width && 0 < b.scissor.height
            &&& b.scissor.x + b.scissor.width <= width
            &&& b.scissor.y + b.scissor.height <= height
        }),
    decreases prims.len(),
{
    let prev = prims.drop_last();
    lemma_counts_fit_drop_last(prims, width, height);
    let before = spec_batches(prev, width, height);
    if k < before.len() {
        assert(spec_batches(prims, width, height)[k] == before[k]);
        batches_lie_inside_the_surface(prev, k, width, height);
    } else {
        match prims.last() {
            ScenePrimitive::Drawable { pipeline, left, top, right, bottom, vertices } => {
                lemma_scissor_inside(left, top, right, bottom, width, height);
                lemma_vertices_nonnegative(prev, pipeline, width, height);
                assert(vertices <= vertices_after(prims, pipeline, width, height));
            },
            ScenePrimitive::Undrawn { .. } => {},
        }
    }
}

/// A primitive whose content mask leaves nothing of it on the surface adds
/// no batch and no vertex: it is only counted as skipped.
pub proof fn a_clipped_primitive_draws_nothing(prims: Seq<ScenePrimitive>, p: ScenePrimitive, width: u32, height: u32)
    requires
        p matches ScenePrimitive::Drawable { left, top, right, bottom, .. } && spec_scissor(left, top, right, bottom, width, height) is None,
    ensures
        spec_batches(prims.push(p), width, height) == spec_batches(prims, width, height),
        forall|q: DrawPipeline| #[trigger] vertices_after(prims.push(p), q, width, height) == vertices_after(prims, q, width, height),
        clipped_count(prims.push(p), width, height) == clipped_count(prims, width, height) + 1,
{
    assert(prims.push(p).drop_last() =~= prims);
}

/// The draw list of a scene: each primitive, in painter's order, is clipped
/// to the surface and drawn in a batch of its own, or counted as skipped
/// when nothing of it is left; primitives of the kinds not drawn yet are
/// counted by kind and leave the order of the rest as it is.
pub fn plan_draw_list(primitives: &[ScenePrimitive], width: u32, height: u32) -> (list: DrawList)
    requires
        vertices_after(primitives@, DrawPipeline::Quads, width, height) <= usize::MAX,
        vertices_after(primitives@, DrawPipeline::Paths, width, height) <= usize::MAX,
        vertices_after(primitives@, DrawPipeline::Glyphs, width, height) <= usize::MAX,
        undrawn_count(primitives@, None) <= usize::MAX,
    ensures
        list.batches@ == spec_batches(primitives@, width, height),
        list.skipped == clipped_count(primitives@, width, height),
        list.unhandled == undrawn_count(primitives@, None),
        list.shadows == undrawn_count(primitives@, Some(UndrawnKind::Shadows)),
        list.subpixel == undrawn_count(primitives@, Some(UndrawnKind::SubpixelSprites)),
        list.polychrome == undrawn_count(primitives@, Some(UndrawnKind::PolychromeSprites)),
        list.surfaces == undrawn_count(primitives@, Some(UndrawnKind::Surfaces)),
{
    let ghost prims = primitives@;
    let mut list = DrawList::new();
    let mut quads: usize = 0;
    let mut paths: usize = 0;
    let mut glyphs: usize = 0;
    let mut i: usize = 0;
    proof {
        assert(prims.take(0) =~= Seq::<ScenePrimitive>::empty());
    }
    while i < primitives.len()
        invariant
            prims == primitives@,
            i <= prims.len(),
            vertices_after(prims, DrawPipeline::Quads, width, height) <= usize::MAX,
            vertices_after(prims, DrawPipeline::Paths, width, height) <= usize::MAX,
            vertices_after(prims, DrawPipeline::Glyphs, width, height) <= usize::MAX,
            undrawn_count(prims, None) <= usize::MAX,
            quads == vertices_after(prims.take(i as int), DrawPipeline::Quads, width, height),
            paths == vertices_after(prims.take(i as int), DrawPipeline::Paths, width, height),
            glyphs == vertices_after(prims.take(i as int), DrawPipeline::Glyphs, width, height),
            list.batches@ == spec_batches(prims.take(i as int), width, height),
            list.skipped == clipped_count(prims.take(i as int), width, height),
            list.unhandled == undrawn_count(prims.take(i as int), None),
            list.shadows == undrawn_count(prims.take(i as int), Some(UndrawnKind::Shadows)),
            list.subpixel == undrawn_count(prims.take(i as int), Some(UndrawnKind::SubpixelSprites)),
            list.polychrome == undrawn_count(prims.take(i as int), Some(UndrawnKind::PolychromeSprites)),
            list.surfaces == undrawn_count(prims.take(i as int), Some(UndrawnKind::Surfaces)),
        decreases prims.len() - i,
    {
        let ghost before = prims.take(i as int);
        let ghost after = prims.take(i as int + 1);
        proof {
            assert(after.drop_last() =~= before);
            assert(after.last() == prims[i as int]);
            lemma_vertices_prefix(prims, i as int + 1, DrawPipeline::Quads, width, height);
            lemma_vertices_prefix(prims, i as int + 1, DrawPipeline::Paths, width, height);
            lemma_vertices_prefix(prims, i as int + 1, DrawPipeline::Glyphs, width, height);
            lemma_vertices_nonnegative(before, DrawPipeline::Quads, width, height);
            lemma_vertices_nonnegative(before, DrawPipeline::Paths, width, height);
            lemma_vertices_nonnegative(before, DrawPipeline::Glyphs, width, height);
            lemma_undrawn_prefix(prims, i as int + 1);
            lemma_undrawn_bounds(before, UndrawnKind::Shadows);
            lemma_undrawn_bounds(before, UndrawnKind::SubpixelSprites);
            lemma_undrawn_bounds(before, UndrawnKind::PolychromeSprites);
            lemma_undrawn_bounds(before, UndrawnKind::Surfaces);
            lemma_clipped_bound(before, width, height);
        }
        match primitives[i] {
            ScenePrimitive::Drawable { pipeline, left, top, right, bottom, vertices } => {
                match scissor_for(left, top, right, bottom, width, height) {
                    Some(scissor) => {
                        let first = match pipeline {
                            DrawPipeline::Quads => quads,
                            DrawPipeline::Paths => paths,
                            DrawPipeline::Glyphs => glyphs,
                        };
                        match pipeline {
                            DrawPipeline::Quads => quads = quads + vertices,
                            DrawPipeline::Paths => paths = paths + vertices,
                            DrawPipeline::Glyphs => glyphs = glyphs + vertices,
                        }
                        if vertices > 0 {
                            list.drawn(pipeline, first, first + vertices, scissor);
                        }
                    },
                    None => {
                        list.clipped();
                    },
                }
            },
            ScenePrimitive::Undrawn { kind, count } => {
                proof {
                    assert(undrawn_count(after, Some(kind)) == undrawn_count(before, Some(kind)) + count);
                    assert(undrawn_count(after, None) == undrawn_count(before, None) + count);
                }
                list.not_drawn(kind, count);
            },
        }
        i = i + 1;
    }
    proof {
        assert(prims.take(i as int) =~= prims);
    }
    list
}

} // verus!
