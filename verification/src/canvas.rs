//! The pixel canvas: raster buffer, brush parameters, rasterization,
//! and the stroke-capture undo/redo log.
//!
//! The canvas owns a raster of packed 32-bit colors addressed by
//! `x + y * width`.  While drawing is active it accumulates raw
//! `PixelChange` records in a pending stroke; turning drawing off
//! freezes the pending stroke (sorted by cell, one record per cell)
//! onto the undo stack.  A ghost snapshot of the raster at stroke
//! start ties the pending records to the pre-stroke state, which is
//! what makes undo exact.

use vstd::prelude::*;

use crate::changes::{
    in_bounds, is_freeze_of, lemma_lookup_entry, lemma_lookup_push, lemma_sorted_distinct, lookup,
    replay, stroke_distinct, stroke_sorted, touches, PixelChange,
};
use crate::history::{
    consistent, done_ok, redo_ok, stacks_distinct, undo_model, redo_model, HistModel,
};

verus! {

/// Background color of a cleared canvas: fully transparent.
pub const CLEAR_BG_COLOR: u32 = 0x00000000;

/// Default brush color.
pub const DEFAULT_BRUSH_COLOR: u32 = 0xffffccaa;

/// Default brush size.
pub const BRUSH_SIZE: u32 = 2;

/// Milliseconds that must pass between accepted brush-size changes.
pub const BRUSH_COOLDOWN_MS: u64 = 1000;

pub struct Canvas {
    buffer: Vec<u32>,

    drawing: bool,

    brush_size: u32,
    brush_changed_at: u64,
    brush_color: u32,

    width: u32,
    height: u32,

    action_stack: Vec<Vec<PixelChange>>,
    redo_stack: Vec<Vec<PixelChange>>,
    temp_stack: Vec<PixelChange>,

    snap: Ghost<Seq<u32>>,
}

/// Freeze a raw pending stroke: order the records by cell index and
/// keep only the first record of each cell, whose `before` value is
/// the cell's pre-stroke color.
fn freeze_pending(temp: &Vec<PixelChange>) -> (r: Vec<PixelChange>)
    ensures
        is_freeze_of(r@, temp@),
{
    let mut out: Vec<PixelChange> = Vec::new();
    let n = temp.len();
    let mut j: usize = 0;
    proof {
        assert(temp@.take(0) =~= Seq::<PixelChange>::empty());
    }
    while j < n
        invariant
            n == temp@.len(),
            j <= n,
            stroke_sorted(out@),
            forall|i: int| touches(out@, i) <==> touches(temp@.take(j as int), i),
            forall|k: int|
                0 <= k < out@.len() ==> lookup(temp@, (#[trigger] out@[k]).buf_index as int)
                    == Option::Some(out@[k]),
        decreases n - j,
    {
        let e = temp[j];
        let mut pos: usize = 0;
        while pos < out.len() && out[pos].buf_index < e.buf_index
            invariant
                pos <= out@.len(),
                stroke_sorted(out@),
                forall|k: int| 0 <= k < pos ==> (#[trigger] out@[k]).buf_index < e.buf_index,
            decreases out@.len() - pos,
        {
            pos += 1;
        }
        let duplicate = pos < out.len() && out[pos].buf_index == e.buf_index;
        let ghost prev = out@;
        if !duplicate {
            out.insert(pos, e);
        }
        proof {
            let jj = j as int;
            let pp = pos as int;
            if !duplicate {
                assert forall|k: int| 0 <= k < pp implies out@[k] == prev[k] by {
                    assert(out@ == prev.insert(pp, e));
                }
                assert(out@[pp] == e);
                assert forall|k: int| pp < k < out@.len() implies out@[k] == prev[k - 1] by {
                    assert(out@ == prev.insert(pp, e));
                }
                // the fresh record goes where the order puts it
                assert(pp < prev.len() ==> e.buf_index < prev[pp].buf_index);
                assert(stroke_sorted(out@)) by {
                    assert forall|k1: int, k2: int|
                        0 <= k1 < k2 < out@.len() implies ((#[trigger] out@[k1]).buf_index as int)
                        < ((#[trigger] out@[k2]).buf_index as int) by {
                        if k1 < pp && k2 < pp {
                        } else if k1 < pp && k2 == pp {
                        } else if k1 < pp && k2 > pp {
                            assert(out@[k2] == prev[k2 - 1]);
                            if k2 - 1 < pp {
                            } else {
                                assert(prev[pp].buf_index <= prev[k2 - 1].buf_index);
                            }
                        } else if k1 == pp {
                            assert(out@[k2] == prev[k2 - 1]);
                            assert(prev[pp].buf_index <= prev[k2 - 1].buf_index);
                        } else {
                            assert(out@[k1] == prev[k1 - 1]);
                            assert(out@[k2] == prev[k2 - 1]);
                        }
                    }
                }
                // a record of a cell never seen keeps first-lookup form
                assert(!touches(prev, e.buf_index as int)) by {
                    if touches(prev, e.buf_index as int) {
                        let k = choose|k: int|
                            0 <= k < prev.len() && prev[k].buf_index == e.buf_index;
                        if k >= pp {
                            assert(prev[pp].buf_index <= prev[k].buf_index);
                        }
                    }
                }
                assert(!touches(temp@.take(jj), e.buf_index as int));
                crate::changes::lemma_lookup_first(temp@, jj, e.buf_index as int);
                assert forall|k: int|
                    0 <= k < out@.len() implies lookup(
                    temp@,
                    (#[trigger] out@[k]).buf_index as int,
                ) == Option::Some(out@[k]) by {
                    if k < pp {
                        assert(out@[k] == prev[k]);
                    } else if k > pp {
                        assert(out@[k] == prev[k - 1]);
                    }
                }
            }
            // the covered cells grow by exactly this record's cell
            assert(temp@.take(jj + 1) =~= temp@.take(jj).push(e));
            assert forall|i: int| touches(out@, i) <==> touches(temp@.take(jj + 1), i) by {
                if touches(out@, i) {
                    let k = choose|k: int| 0 <= k < out@.len() && out@[k].buf_index == i;
                    if duplicate {
                        assert(touches(prev, i));
                    } else {
                        if k < pp {
                            assert(out@[k] == prev[k]);
                            assert(touches(prev, i));
                        } else if k == pp {
                            assert(out@[k] == e);
                        } else {
                            assert(out@[k] == prev[k - 1]);
                            assert(touches(prev, i));
                        }
                    }
                    if i == e.buf_index as int {
                        assert(temp@.take(jj + 1)[jj] == e);
                        assert(touches(temp@.take(jj + 1), i));
                    } else {
                        assert(touches(prev, i));
                        assert(touches(temp@.take(jj), i));
                        let k3 = choose|k3: int|
                            0 <= k3 < temp@.take(jj).len() && temp@.take(jj)[k3].buf_index == i;
                        assert(temp@.take(jj + 1)[k3] == temp@.take(jj)[k3]);
                        assert(touches(temp@.take(jj + 1), i));
                    }
                }
                if touches(temp@.take(jj + 1), i) {
                    let k = choose|k: int|
                        0 <= k < temp@.take(jj + 1).len() && (#[trigger] temp@.take(
                            jj + 1,
                        )[k]).buf_index == i;
                    if k < jj {
                        assert(temp@.take(jj)[k] == temp@.take(jj + 1)[k]);
                        assert(touches(temp@.take(jj), i));
                        assert(touches(prev, i));
                        let k2 = choose|k2: int| 0 <= k2 < prev.len() && prev[k2].buf_index == i;
                        if duplicate {
                            assert(touches(out@, i));
                        } else {
                            if k2 < pp {
                                assert(out@[k2] == prev[k2]);
                            } else {
                                assert(out@[k2 + 1] == prev[k2]);
                            }
                            assert(touches(out@, i));
                        }
                    } else {
                        assert(temp@.take(jj + 1)[jj] == e);
                        assert(i == e.buf_index as int);
                        assert(out@[pp].buf_index == i);
                        assert(touches(out@, i));
                    }
                }
            }
        }
        j += 1;
    }
    proof {
        assert(temp@.take(n as int) =~= temp@);
    }
    out
}

impl Canvas {
    /// The raster contents.
    pub closed spec fn buf(self) -> Seq<u32> {
        self.buffer@
    }

    /// Raster width in cells.
    pub closed spec fn spec_width(self) -> int {
        self.width as int
    }

    /// Raster height in cells.
    pub closed spec fn spec_height(self) -> int {
        self.height as int
    }

    /// Total cell count.
    pub open spec fn cells(self) -> int {
        self.spec_width() * self.spec_height()
    }

    /// Whether a stroke is being accumulated.
    pub closed spec fn is_drawing(self) -> bool {
        self.drawing
    }

    /// Completed strokes available to undo, oldest first.
    pub closed spec fn done(self) -> Seq<Seq<PixelChange>> {
        self.action_stack@.map_values(|v: Vec<PixelChange>| v@)
    }

    /// Undone strokes available to redo, oldest first.
    pub closed spec fn undone(self) -> Seq<Seq<PixelChange>> {
        self.redo_stack@.map_values(|v: Vec<PixelChange>| v@)
    }

    /// The raw records of the stroke being accumulated.
    pub closed spec fn pending(self) -> Seq<PixelChange> {
        self.temp_stack@
    }

    /// Current brush size.
    pub closed spec fn spec_brush_size(self) -> u32 {
        self.brush_size
    }

    /// Current brush color.
    pub closed spec fn spec_brush_color(self) -> u32 {
        self.brush_color
    }

    /// Monotonic time of the last accepted brush-size change.
    pub closed spec fn spec_brush_changed_at(self) -> u64 {
        self.brush_changed_at
    }

    /// The raster as it was when the current stroke started; only
    /// meaningful while drawing.
    pub closed spec fn snapshot(self) -> Seq<u32> {
        self.snap@
    }

    /// The canvas as an abstract history: raster plus the two stacks.
    pub open spec fn hist(self) -> HistModel {
        HistModel { buf: self.buf(), done: self.done(), undone: self.undone() }
    }

    /// Structural well-formedness: positive dimensions whose product
    /// fits an index, a raster of exactly that size, a brush in range,
    /// every stored stroke sorted with one in-range record per cell,
    /// pending records in range, and no pending records unless a
    /// stroke is open.
    pub open spec fn wf(self) -> bool {
        &&& 1 <= self.spec_width()
        &&& 1 <= self.spec_height()
        &&& self.cells() <= u32::MAX
        &&& self.buf().len() == self.cells()
        &&& 1 <= self.spec_brush_size() <= 10
        &&& (forall|j: int|
            0 <= j < self.done().len() ==> stroke_sorted(#[trigger] self.done()[j]) && in_bounds(
                self.done()[j],
                self.cells(),
            ))
        &&& (forall|j: int|
            0 <= j < self.undone().len() ==> stroke_sorted(#[trigger] self.undone()[j])
                && in_bounds(self.undone()[j], self.cells()))
        &&& in_bounds(self.pending(), self.cells())
        &&& (!self.is_drawing() ==> self.pending().len() == 0)
    }

    /// The open-stroke session facts: the snapshot is the pre-stroke
    /// raster, cells untouched by the pending stroke still hold it,
    /// touched cells hold the brush color, every pending record wrote
    /// the brush color, and the first pending record of each cell
    /// holds that cell's pre-stroke color.
    pub open spec fn session_ok(self) -> bool {
        &&& self.snapshot().len() == self.buf().len()
        &&& (forall|i: int|
            0 <= i < self.buf().len() && !touches(self.pending(), i) ==> self.buf()[i]
                == self.snapshot()[i])
        &&& (forall|i: int|
            0 <= i < self.buf().len() && touches(self.pending(), i) ==> self.buf()[i]
                == self.spec_brush_color())
        &&& (forall|k: int|
            0 <= k < self.pending().len() ==> (#[trigger] self.pending()[k]).after_data
                == self.spec_brush_color())
        &&& (forall|i: int|
            lookup(self.pending(), i) is Some ==> lookup(self.pending(), i)->Some_0.before_data
                == self.snapshot()[i])
    }

    /// History consistency: closed strokes chain exactly against the
    /// raster.  While a stroke is open the chain is anchored at the
    /// snapshot instead, the redo stack is empty, and the session
    /// facts hold.
    pub open spec fn synced(self) -> bool {
        if self.is_drawing() {
            &&& done_ok(self.snapshot(), self.done())
            &&& self.undone().len() == 0
            &&& self.session_ok()
        } else {
            consistent(self.hist())
        }
    }

    /// A well-formed canvas has distinct, in-range strokes on both
    /// stacks in the sense of the abstract history.
    pub proof fn lemma_wf_stacks(self)
        requires
            self.wf(),
        ensures
            stacks_distinct(self.hist()),
    {
        assert forall|j: int| 0 <= j < self.done().len() implies stroke_distinct(
            #[trigger] self.hist().done[j],
        ) by {
            lemma_sorted_distinct(self.done()[j]);
        }
        assert forall|j: int| 0 <= j < self.undone().len() implies stroke_distinct(
            #[trigger] self.hist().undone[j],
        ) by {
            lemma_sorted_distinct(self.undone()[j]);
        }
    }

    /// Well-formedness carries over to a canvas with the same stacks,
    /// dimensions and brush, whatever happened to the raster contents.
    pub proof fn lemma_same_stacks_wf(pre: Canvas, post: Canvas)
        requires
            pre.wf(),
            post.done() == pre.done(),
            post.undone() == pre.undone(),
            post.pending() == pre.pending(),
            post.spec_width() == pre.spec_width(),
            post.spec_height() == pre.spec_height(),
            post.buf().len() == post.cells(),
            1 <= post.spec_brush_size() <= 10,
            !post.is_drawing() ==> post.pending().len() == 0,
        ensures
            post.wf(),
    {
        assert forall|j: int| 0 <= j < post.done().len() implies stroke_sorted(
            #[trigger] post.done()[j],
        ) && in_bounds(post.done()[j], post.cells()) by {
            assert(post.done()[j] == pre.done()[j]);
        }
        assert forall|j: int| 0 <= j < post.undone().len() implies stroke_sorted(
            #[trigger] post.undone()[j],
        ) && in_bounds(post.undone()[j], post.cells()) by {
            assert(post.undone()[j] == pre.undone()[j]);
        }
    }

    /// A fresh canvas: transparent raster of the given size, default
    /// brush, drawing off, empty history.
    pub fn new(width: u32, height: u32) -> (r: Canvas)
        requires
            1 <= width,
            1 <= height,
            width as int * height as int <= u32::MAX,
        ensures
            r.wf(),
            r.synced(),
            r.spec_width() == width,
            r.spec_height() == height,
            r.buf() == Seq::new((width as int * height as int) as nat, |i: int| CLEAR_BG_COLOR),
            !r.is_drawing(),
            r.spec_brush_size() == BRUSH_SIZE,
            r.spec_brush_color() == DEFAULT_BRUSH_COLOR,
            r.spec_brush_changed_at() == 0,
            r.done().len() == 0,
            r.undone().len() == 0,
            r.pending().len() == 0,
    {
        let cells = (width as u64 * height as u64) as usize;
        let buffer = vec![CLEAR_BG_COLOR; cells];
        let r = Canvas {
            buffer,
            drawing: false,
            brush_size: BRUSH_SIZE,
            brush_changed_at: 0,
            brush_color: DEFAULT_BRUSH_COLOR,
            width,
            height,
            action_stack: Vec::new(),
            redo_stack: Vec::new(),
            temp_stack: Vec::new(),
            snap: Ghost(Seq::empty()),
        };
        proof {
            assert(r.buf() =~= Seq::new((width as int * height as int) as nat, |i: int| CLEAR_BG_COLOR));
        }
        r
    }

    /// Raster width.
    pub fn width(&self) -> (r: u32)
        ensures
            r == self.spec_width(),
    {
        self.width
    }

    /// Raster height.
    pub fn height(&self) -> (r: u32)
        ensures
            r == self.spec_height(),
    {
        self.height
    }

    /// Current brush size.
    pub fn brush_size(&self) -> (r: u32)
        ensures
            r == self.spec_brush_size(),
    {
        self.brush_size
    }

    /// Current brush color.
    pub fn brush_color(&self) -> (r: u32)
        ensures
            r == self.spec_brush_color(),
    {
        self.brush_color
    }

    /// Whether a stroke is being accumulated.
    pub fn drawing(&self) -> (r: bool)
        ensures
            r == self.is_drawing(),
    {
        self.drawing
    }

    /// Strokes available to undo.
    pub fn undo_depth(&self) -> (r: usize)
        ensures
            r == self.done().len(),
    {
        self.action_stack.len()
    }

    /// Strokes available to redo.
    pub fn redo_depth(&self) -> (r: usize)
        ensures
            r == self.undone().len(),
    {
        self.redo_stack.len()
    }

    /// Records accumulated in the pending stroke.
    pub fn pending_len(&self) -> (r: usize)
        ensures
            r == self.pending().len(),
    {
        self.temp_stack.len()
    }

    /// One raster cell.
    pub fn pixel(&self, i: u32) -> (r: u32)
        requires
            self.wf(),
            i < self.cells(),
        ensures
            r == self.buf()[i as int],
    {
        self.buffer[i as usize]
    }

    /// The whole raster, for the host to push to its surface.
    pub fn buffer(&self) -> (r: &Vec<u32>)
        ensures
            r@ == self.buf(),
    {
        &self.buffer
    }

    /// Set every cell to `color`, or to the transparent background
    /// when `None`.  The history is not touched, so this is for whole-
    /// canvas resets, not for strokes.
    pub fn fill(&mut self, color: Option<u32>)
        requires
            old(self).wf(),
        ensures
            final(self).wf(),
            final(self).buf() == Seq::new(
                old(self).buf().len(),
                |i: int|
                    match color {
                        Option::Some(c) => c,
                        Option::None => CLEAR_BG_COLOR,
                    },
            ),
            final(self).spec_width() == old(self).spec_width(),
            final(self).spec_height() == old(self).spec_height(),
            final(self).done() == old(self).done(),
            final(self).undone() == old(self).undone(),
            final(self).pending() == old(self).pending(),
            final(self).is_drawing() == old(self).is_drawing(),
            final(self).spec_brush_size() == old(self).spec_brush_size(),
            final(self).spec_brush_color() == old(self).spec_brush_color(),
            final(self).spec_brush_changed_at() == old(self).spec_brush_changed_at(),
    {
        let c = match color {
            Option::Some(c) => c,
            Option::None => CLEAR_BG_COLOR,
        };
        let n = self.buffer.len();
        let mut i: usize = 0;
        while i < n
            invariant
                n == self.buffer.len(),
                i <= n,
                forall|j: int| 0 <= j < i ==> self.buffer@[j] == c,
                (c == match color {
                    Option::Some(c0) => c0,
                    Option::None => CLEAR_BG_COLOR,
                }),
                self.width == old(self).width,
                self.height == old(self).height,
                self.action_stack@ == old(self).action_stack@,
                self.redo_stack@ == old(self).redo_stack@,
                self.temp_stack@ == old(self).temp_stack@,
                self.drawing == old(self).drawing,
                self.snap@ == old(self).snap@,
                self.brush_size == old(self).brush_size,
                self.brush_color == old(self).brush_color,
                self.brush_changed_at == old(self).brush_changed_at,
                old(self).wf(),
            decreases n - i,
        {
            self.buffer.set(i, c);
            i += 1;
        }
        proof {
            assert(self.buffer@ =~= Seq::new(
                old(self).buf().len(),
                |i: int|
                    match color {
                        Option::Some(c) => c,
                        Option::None => CLEAR_BG_COLOR,
                    },
            ));
            assert(self.done() =~~= old(self).done());
            assert(self.undone() =~~= old(self).undone());
            Canvas::lemma_same_stacks_wf(*old(self), *self);
        }
    }

    /// Drop the whole history: both stacks and the pending stroke.
    /// The snapshot is re-anchored at the current raster, so an open
    /// stroke restarts from here.
    pub fn clear_action_stack(&mut self)
        requires
            old(self).wf(),
        ensures
            final(self).wf(),
            final(self).synced(),
            final(self).done().len() == 0,
            final(self).undone().len() == 0,
            final(self).pending().len() == 0,
            final(self).buf() == old(self).buf(),
            final(self).snapshot() == old(self).buf(),
            final(self).spec_width() == old(self).spec_width(),
            final(self).spec_height() == old(self).spec_height(),
            final(self).is_drawing() == old(self).is_drawing(),
            final(self).spec_brush_size() == old(self).spec_brush_size(),
            final(self).spec_brush_color() == old(self).spec_brush_color(),
            final(self).spec_brush_changed_at() == old(self).spec_brush_changed_at(),
    {
        self.action_stack.clear();
        self.redo_stack.clear();
        self.temp_stack.clear();
        proof {
            self.snap@ = self.buffer@;
        }
        proof {
            assert(self.done() =~= Seq::<Seq<PixelChange>>::empty());
            assert(self.undone() =~= Seq::<Seq<PixelChange>>::empty());
        }
    }

    /// Write one stroke's records back into the raster: the `after`
    /// values when `t` is true (redo), the `before` values when `t`
    /// is false (undo).  The stroke must hold at most one in-range
    /// record per cell, which is the invariant of every stored stroke.
    pub fn apply_changes(&mut self, v: &Vec<PixelChange>, t: bool)
        requires
            old(self).wf(),
            stroke_distinct(v@),
            in_bounds(v@, old(self).cells()),
        ensures
            final(self).wf(),
            final(self).buf() == replay(old(self).buf(), v@, t),
            final(self).spec_width() == old(self).spec_width(),
            final(self).spec_height() == old(self).spec_height(),
            final(self).done() == old(self).done(),
            final(self).undone() == old(self).undone(),
            final(self).pending() == old(self).pending(),
            final(self).is_drawing() == old(self).is_drawing(),
            final(self).snapshot() == old(self).snapshot(),
            final(self).spec_brush_size() == old(self).spec_brush_size(),
            final(self).spec_brush_color() == old(self).spec_brush_color(),
            final(self).spec_brush_changed_at() == old(self).spec_brush_changed_at(),
    {
        let n = v.len();
        let mut j: usize = 0;
        while j < n
            invariant
                n == v@.len(),
                j <= n,
                old(self).wf(),
                stroke_distinct(v@),
                in_bounds(v@, old(self).cells()),
                self.buffer@.len() == old(self).buf().len(),
                self.buffer@ == replay(old(self).buf(), v@.take(j as int), t),
                self.width == old(self).width,
                self.height == old(self).height,
                self.action_stack@ == old(self).action_stack@,
                self.redo_stack@ == old(self).redo_stack@,
                self.temp_stack@ == old(self).temp_stack@,
                self.drawing == old(self).drawing,
                self.snap@ == old(self).snap@,
                self.brush_size == old(self).brush_size,
                self.brush_color == old(self).brush_color,
                self.brush_changed_at == old(self).brush_changed_at,
            decreases n - j,
        {
            let change = v[j];
            let idx = change.buf_index as usize;
            let val = if t {
                change.after_data
            } else {
                change.before_data
            };
            let ghost prev = self.buffer@;
            self.buffer.set(idx, val);
            proof {
                assert(!touches(v@.take(j as int), v@[j as int].buf_index as int)) by {
                    if touches(v@.take(j as int), v@[j as int].buf_index as int) {
                        let k = choose|k: int|
                            0 <= k < v@.take(j as int).len() && v@.take(j as int)[k].buf_index
                                == v@[j as int].buf_index;
                        assert(v@[k] == v@.take(j as int)[k]);
                    }
                }
                assert(self.buffer@ =~= replay(old(self).buf(), v@.take(j as int + 1), t)) by {
                    assert(v@.take(j as int + 1) =~= v@.take(j as int).push(v@[j as int]));
                    assert forall|i: int| 0 <= i < prev.len() implies self.buffer@[i] == replay(
                        old(self).buf(),
                        v@.take(j as int).push(v@[j as int]),
                        t,
                    )[i] by {
                        lemma_lookup_push(v@.take(j as int), v@[j as int], i);
                        lemma_lookup_entry(v@.take(j as int), i);
                    }
                }
            }
            j += 1;
        }
        proof {
            assert(v@.take(n as int) =~= v@);
            assert(self.done() =~~= old(self).done());
            assert(self.undone() =~~= old(self).undone());
            Canvas::lemma_same_stacks_wf(*old(self), *self);
        }
    }

    /// Reallocate the raster for a new surface size and clear it to
    /// the transparent background.  The whole history is dropped: old
    /// cell indices would not address the new raster.  A degenerate
    /// size, or one whose cell count cannot be indexed, is rejected
    /// and nothing changes.
    pub fn resize_canvas(&mut self, width: u32, height: u32)
        requires
            old(self).wf(),
        ensures
            final(self).wf(),
            (width == 0 || height == 0 || width as int * height as int > u32::MAX)
                ==> *final(self) == *old(self),
            (width != 0 && height != 0 && width as int * height as int <= u32::MAX) ==> {
                &&& final(self).spec_width() == width
                &&& final(self).spec_height() == height
                &&& final(self).buf() == Seq::new(
                    (width as int * height as int) as nat,
                    |i: int| CLEAR_BG_COLOR,
                )
                &&& final(self).done().len() == 0
                &&& final(self).undone().len() == 0
                &&& final(self).pending().len() == 0
                &&& final(self).synced()
                &&& final(self).is_drawing() == old(self).is_drawing()
                &&& final(self).spec_brush_size() == old(self).spec_brush_size()
                &&& final(self).spec_brush_color() == old(self).spec_brush_color()
                &&& final(self).spec_brush_changed_at() == old(self).spec_brush_changed_at()
            },
    {
        if width == 0 || height == 0 {
            return;
        }
        proof {
            assert(width as int * height as int <= 0xfffffffe00000001) by (nonlinear_arith)
                requires
                    width <= u32::MAX,
                    height <= u32::MAX,
            ;
        }
        let cells64 = width as u64 * height as u64;
        if cells64 > u32::MAX as u64 {
            return;
        }
        self.width = width;
        self.height = height;
        self.buffer = vec![CLEAR_BG_COLOR; cells64 as usize];
        self.action_stack.clear();
        self.redo_stack.clear();
        self.temp_stack.clear();
        proof {
            self.snap@ = self.buffer@;
        }
        proof {
            assert(self.done() =~= Seq::<Seq<PixelChange>>::empty());
            assert(self.undone() =~= Seq::<Seq<PixelChange>>::empty());
            assert(self.buf() =~= Seq::new(
                (width as int * height as int) as nat,
                |i: int| CLEAR_BG_COLOR,
            ));
        }
    }

    /// Flip the drawing flag.  Turning drawing on opens a fresh
    /// stroke: the pending records and the redo stack are cleared and
    /// the snapshot is taken.  Turning it off freezes the pending
    /// records (sorted by cell, first write per cell) into one stroke
    /// on the undo stack.
    pub fn invert_drawing(&mut self)
        requires
            old(self).wf(),
        ensures
            final(self).wf(),
            final(self).is_drawing() == !old(self).is_drawing(),
            final(self).buf() == old(self).buf(),
            final(self).pending().len() == 0,
            final(self).spec_width() == old(self).spec_width(),
            final(self).spec_height() == old(self).spec_height(),
            final(self).spec_brush_size() == old(self).spec_brush_size(),
            final(self).spec_brush_color() == old(self).spec_brush_color(),
            final(self).spec_brush_changed_at() == old(self).spec_brush_changed_at(),
            !old(self).is_drawing() ==> {
                &&& final(self).done() == old(self).done()
                &&& final(self).undone().len() == 0
                &&& final(self).snapshot() == old(self).buf()
            },
            !old(self).is_drawing() && old(self).synced() ==> final(self).synced(),
            old(self).is_drawing() ==> {
                &&& final(self).done().len() == old(self).done().len() + 1
                &&& final(self).done().drop_last() == old(self).done()
                &&& is_freeze_of(final(self).done().last(), old(self).pending())
                &&& final(self).undone() == old(self).undone()
                &&& final(self).snapshot() == old(self).snapshot()
            },
            old(self).is_drawing() && old(self).synced() ==> final(self).synced(),
    {
        if !self.drawing {
            self.drawing = true;
            self.temp_stack.clear();
            self.redo_stack.clear();
            proof {
                self.snap@ = self.buffer@;
            }
            proof {
                assert(self.undone() =~= Seq::<Seq<PixelChange>>::empty());
                assert(self.done() =~~= old(self).done());
                assert forall|j: int| 0 <= j < self.done().len() implies stroke_sorted(
                    #[trigger] self.done()[j],
                ) && in_bounds(self.done()[j], self.cells()) by {
                    assert(self.done()[j] == old(self).done()[j]);
                }
                if old(self).synced() {
                    assert(done_ok(self.snapshot(), self.done()));
                }
            }
        } else {
            self.drawing = false;
            let frozen = freeze_pending(&self.temp_stack);
            proof {
                lemma_sorted_distinct(frozen@);
                crate::changes::lemma_freeze_in_bounds(
                    frozen@,
                    self.temp_stack@,
                    old(self).cells(),
                );
            }
            self.action_stack.push(frozen);
            self.temp_stack.clear();
            proof {
                assert(self.done() =~= old(self).done().push(frozen@));
                assert(self.undone() =~~= old(self).undone());
                assert(self.done().drop_last() =~= old(self).done());
                assert(self.done().last() == frozen@);
                assert forall|j: int| 0 <= j < self.done().len() implies stroke_sorted(
                    #[trigger] self.done()[j],
                ) && in_bounds(self.done()[j], self.cells()) by {
                    if j < old(self).done().len() {
                        assert(self.done()[j] == old(self).done()[j]);
                    }
                }
                assert forall|j: int| 0 <= j < self.undone().len() implies stroke_sorted(
                    #[trigger] self.undone()[j],
                ) && in_bounds(self.undone()[j], self.cells()) by {
                    assert(self.undone()[j] == old(self).undone()[j]);
                }
                if old(self).synced() {
                    crate::changes::lemma_freeze_agrees_after(
                        old(self).pending(),
                        old(self).buf(),
                        frozen@,
                        old(self).spec_brush_color(),
                    );
                    crate::changes::lemma_freeze_restores(
                        old(self).snapshot(),
                        old(self).pending(),
                        old(self).buf(),
                        frozen@,
                    );
                    assert(replay(self.buf(), frozen@, false) =~= old(self).snapshot());
                    assert(done_ok(self.buf(), self.done()));
                    assert(self.undone().len() == 0);
                    assert(redo_ok(self.buf(), self.undone()));
                }
            }
        }
    }

    /// Undo the most recent completed stroke by restoring its `before`
    /// values, and move it to the redo stack; a no-op when there is
    /// nothing to undo.
    pub fn undo(&mut self)
        requires
            old(self).wf(),
        ensures
            final(self).wf(),
            final(self).hist() == undo_model(old(self).hist()),
            final(self).pending() == old(self).pending(),
            final(self).is_drawing() == old(self).is_drawing(),
            final(self).snapshot() == old(self).snapshot(),
            final(self).spec_width() == old(self).spec_width(),
            final(self).spec_height() == old(self).spec_height(),
            final(self).spec_brush_size() == old(self).spec_brush_size(),
            final(self).spec_brush_color() == old(self).spec_brush_color(),
            final(self).spec_brush_changed_at() == old(self).spec_brush_changed_at(),
            old(self).synced() && !old(self).is_drawing() ==> final(self).synced(),
    {
        proof {
            old(self).lemma_wf_stacks();
        }
        match self.action_stack.pop() {
            Option::None => {
                proof {
                    assert(self.hist() =~~= undo_model(old(self).hist()));
                }
            },
            Option::Some(action) => {
                proof {
                    assert(old(self).done().last() == action@);
                    lemma_sorted_distinct(action@);
                    assert(self.done() =~= old(self).done().drop_last());
                    assert forall|j: int| 0 <= j < self.done().len() implies stroke_sorted(
                        #[trigger] self.done()[j],
                    ) && in_bounds(self.done()[j], self.cells()) by {
                        assert(self.done()[j] == old(self).done()[j]);
                    }
                }
                self.apply_changes(&action, false);
                self.redo_stack.push(action);
                proof {
                    assert(self.done() =~= old(self).done().drop_last());
                    assert(self.undone() =~= old(self).undone().push(action@));
                    assert(self.hist() =~~= undo_model(old(self).hist()));
                    if old(self).synced() && !old(self).is_drawing() {
                        crate::history::lemma_undo_preserves(old(self).hist());
                    }
                }
            },
        }
    }

    /// Redo the most recently undone stroke by restoring its `after`
    /// values, and move it back to the undo stack; a no-op when there
    /// is nothing to redo.
    pub fn redo(&mut self)
        requires
            old(self).wf(),
        ensures
            final(self).wf(),
            final(self).hist() == redo_model(old(self).hist()),
            final(self).pending() == old(self).pending(),
            final(self).is_drawing() == old(self).is_drawing(),
            final(self).snapshot() == old(self).snapshot(),
            final(self).spec_width() == old(self).spec_width(),
            final(self).spec_height() == old(self).spec_height(),
            final(self).spec_brush_size() == old(self).spec_brush_size(),
            final(self).spec_brush_color() == old(self).spec_brush_color(),
            final(self).spec_brush_changed_at() == old(self).spec_brush_changed_at(),
            old(self).synced() && !old(self).is_drawing() ==> final(self).synced(),
    {
        proof {
            old(self).lemma_wf_stacks();
        }
        match self.redo_stack.pop() {
            Option::None => {
                proof {
                    assert(self.hist() =~~= redo_model(old(self).hist()));
                }
            },
            Option::Some(action) => {
                proof {
                    assert(old(self).undone().last() == action@);
                    lemma_sorted_distinct(action@);
                    assert(self.undone() =~= old(self).undone().drop_last());
                    assert forall|j: int| 0 <= j < self.undone().len() implies stroke_sorted(
                        #[trigger] self.undone()[j],
                    ) && in_bounds(self.undone()[j], self.cells()) by {
                        assert(self.undone()[j] == old(self).undone()[j]);
                    }
                }
                self.apply_changes(&action, true);
                self.action_stack.push(action);
                proof {
                    assert(self.undone() =~= old(self).undone().drop_last());
                    assert(self.done() =~= old(self).done().push(action@));
                    assert(self.hist() =~~= redo_model(old(self).hist()));
                    if old(self).synced() && !old(self).is_drawing() {
                        crate::history::lemma_redo_preserves(old(self).hist());
                    }
                }
            },
        }
    }
}

/// A coordinate clamped into `[0, hi]`.
pub open spec fn clamp_coord(v: int, hi: int) -> int {
    if v < 0 {
        0
    } else if v > hi {
        hi
    } else {
        v
    }
}

/// The linear cell index of a point, after clamping it onto the
/// raster: off-canvas strokes still paint at the nearest edge.
pub open spec fn pix_index(x: int, y: int, w: int, h: int) -> int {
    clamp_coord(x, w - 1) + clamp_coord(y, h - 1) * w
}

/// A clamped index always addresses a raster cell.
pub proof fn lemma_pix_index_bounds(x: int, y: int, w: int, h: int)
    requires
        w >= 1,
        h >= 1,
    ensures
        0 <= pix_index(x, y, w, h) < w * h,
{
    let cx = clamp_coord(x, w - 1);
    let cy = clamp_coord(y, h - 1);
    assert(0 <= cx + cy * w < w * h) by (nonlinear_arith)
        requires
            0 <= cx <= w - 1,
            0 <= cy <= h - 1,
            w >= 1,
            h >= 1,
    ;
}

/// Each point clamped and linearized.
pub open spec fn convert_spec(pts: Seq<(i32, i32)>, w: int, h: int) -> Seq<u32> {
    pts.map_values(|p: (i32, i32)| pix_index(p.0 as int, p.1 as int, w, h) as u32)
}

/// The cell indices a stroke segment paints: for each line point, the
/// brush footprint around it, clamped onto the raster and linearized,
/// in order.
pub open spec fn segment_pixels(pts: Seq<(i32, i32)>, size: int, w: int, h: int) -> Seq<u32>
    decreases pts.len(),
{
    if pts.len() == 0 {
        Seq::empty()
    } else {
        convert_spec(
            crate::geometry::footprint_spec(pts[0].0 as int, pts[0].1 as int, size),
            w,
            h,
        ) + segment_pixels(pts.drop_first(), size, w, h)
    }
}

/// The cell indices painted when the brush moves from `(px, py)` to
/// `(qx, qy)`.
pub open spec fn segment_spec(
    px: int,
    py: int,
    qx: int,
    qy: int,
    size: int,
    w: int,
    h: int,
) -> Seq<u32> {
    segment_pixels(crate::geometry::line_seq(px, py, qx, qy), size, w, h)
}

impl Canvas {
    /// Clamp a point onto the raster and linearize it to a cell
    /// index.
    pub fn to_pixel_pos(&self, x: i32, y: i32) -> (r: u32)
        requires
            self.wf(),
        ensures
            r == pix_index(x as int, y as int, self.spec_width(), self.spec_height()),
            r < self.cells(),
    {
        let w = self.width;
        let h = self.height;
        let cx: u32 = if x < 0 {
            0
        } else if (x as u32) > w - 1 {
            w - 1
        } else {
            x as u32
        };
        let cy: u32 = if y < 0 {
            0
        } else if (y as u32) > h - 1 {
            h - 1
        } else {
            y as u32
        };
        proof {
            lemma_pix_index_bounds(x as int, y as int, w as int, h as int);
            assert((cx as int + cy as int * w as int) < (w as int * h as int)) by (nonlinear_arith)
                requires
                    0 <= cx as int <= w as int - 1,
                    0 <= cy as int <= h as int - 1,
                    1 <= w,
                    1 <= h,
            ;
        }
        cx + cy * w
    }

    /// Clamp and linearize a whole list of points.
    pub fn bulk_pixel_convert(&self, v: Vec<(i32, i32)>) -> (r: Vec<u32>)
        requires
            self.wf(),
        ensures
            r@ == convert_spec(v@, self.spec_width(), self.spec_height()),
            forall|k: int| 0 <= k < r@.len() ==> (#[trigger] r@[k]) < self.cells(),
    {
        let mut out: Vec<u32> = Vec::new();
        let n = v.len();
        let mut i: usize = 0;
        while i < n
            invariant
                self.wf(),
                n == v@.len(),
                i <= n,
                out@ == convert_spec(v@.take(i as int), self.spec_width(), self.spec_height()),
                forall|k: int| 0 <= k < out@.len() ==> (#[trigger] out@[k]) < self.cells(),
            decreases n - i,
        {
            let p = v[i];
            let px = self.to_pixel_pos(p.0, p.1);
            out.push(px);
            proof {
                assert(v@.take(i as int + 1) =~= v@.take(i as int).push(v@[i as int]));
                assert(out@ =~= convert_spec(
                    v@.take(i as int + 1),
                    self.spec_width(),
                    self.spec_height(),
                ));
            }
            i += 1;
        }
        proof {
            assert(v@.take(n as int) =~= v@);
        }
        out
    }

    /// The rasterized line between two cursor positions, both
    /// endpoints included.
    pub fn get_line_points(&self, prev: (i32, i32), curr: (i32, i32)) -> (r: Vec<(i32, i32)>)
        requires
            -crate::geometry::COORD_LIMIT <= prev.0 <= crate::geometry::COORD_LIMIT,
            -crate::geometry::COORD_LIMIT <= prev.1 <= crate::geometry::COORD_LIMIT,
            -crate::geometry::COORD_LIMIT <= curr.0 <= crate::geometry::COORD_LIMIT,
            -crate::geometry::COORD_LIMIT <= curr.1 <= crate::geometry::COORD_LIMIT,
        ensures
            r@ == crate::geometry::line_seq(
                prev.0 as int,
                prev.1 as int,
                curr.0 as int,
                curr.1 as int,
            ),
    {
        crate::geometry::line_points(prev.0, prev.1, curr.0, curr.1)
    }

    /// The brush footprint around a point for the current brush size.
    pub fn get_circle_points(&self, location: (i32, i32)) -> (r: Vec<(i32, i32)>)
        requires
            self.wf(),
            -4 * crate::geometry::COORD_LIMIT <= location.0 <= 4 * crate::geometry::COORD_LIMIT,
            -4 * crate::geometry::COORD_LIMIT <= location.1 <= 4 * crate::geometry::COORD_LIMIT,
        ensures
            r@ == crate::geometry::footprint_spec(
                location.0 as int,
                location.1 as int,
                self.spec_brush_size() as int,
            ),
    {
        crate::geometry::circle_points(location.0, location.1, self.brush_size)
    }

    /// Every cell the brush paints when it moves from `prev` to
    /// `curr`: line points, footprints, clamped and linearized.
    pub fn stroke_segment(&self, prev: (i32, i32), curr: (i32, i32)) -> (r: Vec<u32>)
        requires
            self.wf(),
            -crate::geometry::COORD_LIMIT <= prev.0 <= crate::geometry::COORD_LIMIT,
            -crate::geometry::COORD_LIMIT <= prev.1 <= crate::geometry::COORD_LIMIT,
            -crate::geometry::COORD_LIMIT <= curr.0 <= crate::geometry::COORD_LIMIT,
            -crate::geometry::COORD_LIMIT <= curr.1 <= crate::geometry::COORD_LIMIT,
        ensures
            r@ == segment_spec(
                prev.0 as int,
                prev.1 as int,
                curr.0 as int,
                curr.1 as int,
                self.spec_brush_size() as int,
                self.spec_width(),
                self.spec_height(),
            ),
            forall|k: int| 0 <= k < r@.len() ==> (#[trigger] r@[k]) < self.cells(),
    {
        let line = self.get_line_points(prev, curr);
        let ghost full = segment_spec(
            prev.0 as int,
            prev.1 as int,
            curr.0 as int,
            curr.1 as int,
            self.spec_brush_size() as int,
            self.spec_width(),
            self.spec_height(),
        );
        proof {
            crate::geometry::lemma_line_seq_ok(
                prev.0 as int,
                prev.1 as int,
                curr.0 as int,
                curr.1 as int,
            );
            crate::geometry::lemma_line_rec_box(
                prev.0 as int,
                prev.1 as int,
                (vstd::math::abs(curr.0 as int - prev.0 as int) as int) - (vstd::math::abs(
                    curr.1 as int - prev.1 as int,
                ) as int),
                curr.0 as int,
                curr.1 as int,
                (vstd::math::abs(curr.0 as int - prev.0 as int) as int),
                (vstd::math::abs(curr.1 as int - prev.1 as int) as int),
                crate::geometry::step_sign(prev.0 as int, curr.0 as int),
                crate::geometry::step_sign(prev.1 as int, curr.1 as int),
            );
            assert(line@.skip(0) =~= line@);
        }
        let mut out: Vec<u32> = Vec::new();
        let n = line.len();
        let mut i: usize = 0;
        while i < n
            invariant
                self.wf(),
                n == line@.len(),
                i <= n,
                forall|k: int|
                    0 <= k < line@.len() ==> {
                        let p = #[trigger] line@[k];
                        -3 * crate::geometry::COORD_LIMIT <= p.0 as int <= 3
                            * crate::geometry::COORD_LIMIT && -3 * crate::geometry::COORD_LIMIT
                            <= p.1 as int <= 3 * crate::geometry::COORD_LIMIT
                    },
                full == out@ + segment_pixels(
                    line@.skip(i as int),
                    self.spec_brush_size() as int,
                    self.spec_width(),
                    self.spec_height(),
                ),
                forall|k: int| 0 <= k < out@.len() ==> (#[trigger] out@[k]) < self.cells(),
            decreases n - i,
        {
            let p = line[i];
            let fp = self.get_circle_points(p);
            proof {
                assert(line@.skip(i as int)[0] == line@[i as int]);
                assert(line@.skip(i as int).drop_first() =~= line@.skip(i as int + 1));
                assert(fp@.skip(0) =~= fp@);
            }
            let m = fp.len();
            let mut jj: usize = 0;
            while jj < m
                invariant
                    self.wf(),
                    m == fp@.len(),
                    jj <= m,
                    i < n,
                    n == line@.len(),
                    fp@ == crate::geometry::footprint_spec(
                        line@[i as int].0 as int,
                        line@[i as int].1 as int,
                        self.spec_brush_size() as int,
                    ),
                    full == out@ + convert_spec(
                        fp@.skip(jj as int),
                        self.spec_width(),
                        self.spec_height(),
                    ) + segment_pixels(
                        line@.skip(i as int + 1),
                        self.spec_brush_size() as int,
                        self.spec_width(),
                        self.spec_height(),
                    ),
                    forall|k: int| 0 <= k < out@.len() ==> (#[trigger] out@[k]) < self.cells(),
                decreases m - jj,
            {
                let q = fp[jj];
                let px = self.to_pixel_pos(q.0, q.1);
                out.push(px);
                proof {
                    assert(fp@.skip(jj as int)[0] == fp@[jj as int]);
                    assert(fp@.skip(jj as int).drop_first() =~= fp@.skip(jj as int + 1));
                    assert(convert_spec(
                        fp@.skip(jj as int),
                        self.spec_width(),
                        self.spec_height(),
                    ) =~= seq![px] + convert_spec(
                        fp@.skip(jj as int + 1),
                        self.spec_width(),
                        self.spec_height(),
                    ));
                    assert(full =~= out@ + convert_spec(
                        fp@.skip(jj as int + 1),
                        self.spec_width(),
                        self.spec_height(),
                    ) + segment_pixels(
                        line@.skip(i as int + 1),
                        self.spec_brush_size() as int,
                        self.spec_width(),
                        self.spec_height(),
                    ));
                }
                jj += 1;
            }
            proof {
                assert(fp@.skip(m as int) =~= Seq::<(i32, i32)>::empty());
                assert(convert_spec(fp@.skip(m as int), self.spec_width(), self.spec_height())
                    =~= Seq::<u32>::empty());
                assert(full =~= out@ + segment_pixels(
                    line@.skip(i as int + 1),
                    self.spec_brush_size() as int,
                    self.spec_width(),
                    self.spec_height(),
                ));
            }
            i += 1;
        }
        proof {
            assert(line@.skip(n as int) =~= Seq::<(i32, i32)>::empty());
            assert(full =~= out@);
        }
        out
    }

    /// Paint a brush segment from `prev_location` to `location`:
    /// record each painted cell's previous color into the pending
    /// stroke, in paint order, and overwrite the cell with the brush
    /// color.
    pub fn draw(&mut self, location: (i32, i32), prev_location: (i32, i32))
        requires
            old(self).wf(),
            old(self).is_drawing(),
            -crate::geometry::COORD_LIMIT <= location.0 <= crate::geometry::COORD_LIMIT,
            -crate::geometry::COORD_LIMIT <= location.1 <= crate::geometry::COORD_LIMIT,
            -crate::geometry::COORD_LIMIT <= prev_location.0 <= crate::geometry::COORD_LIMIT,
            -crate::geometry::COORD_LIMIT <= prev_location.1 <= crate::geometry::COORD_LIMIT,
        ensures
            final(self).wf(),
            final(self).pending() == old(self).pending() + crate::changes::record_all(
                old(self).buf(),
                segment_spec(
                    prev_location.0 as int,
                    prev_location.1 as int,
                    location.0 as int,
                    location.1 as int,
                    old(self).spec_brush_size() as int,
                    old(self).spec_width(),
                    old(self).spec_height(),
                ),
                old(self).spec_brush_color(),
            ).0,
            final(self).buf() == crate::changes::record_all(
                old(self).buf(),
                segment_spec(
                    prev_location.0 as int,
                    prev_location.1 as int,
                    location.0 as int,
                    location.1 as int,
                    old(self).spec_brush_size() as int,
                    old(self).spec_width(),
                    old(self).spec_height(),
                ),
                old(self).spec_brush_color(),
            ).1,
            final(self).done() == old(self).done(),
            final(self).undone() == old(self).undone(),
            final(self).is_drawing() == old(self).is_drawing(),
            final(self).snapshot() == old(self).snapshot(),
            final(self).spec_width() == old(self).spec_width(),
            final(self).spec_height() == old(self).spec_height(),
            final(self).spec_brush_size() == old(self).spec_brush_size(),
            final(self).spec_brush_color() == old(self).spec_brush_color(),
            final(self).spec_brush_changed_at() == old(self).spec_brush_changed_at(),
            old(self).synced() ==> final(self).synced(),
    {
        let seg = self.stroke_segment(prev_location, location);
        let color = self.brush_color;
        let ghost gseg = seg@;
        let ghost full = crate::changes::record_all(old(self).buf(), gseg, color);
        let ghost old_temp = old(self).temp_stack@;
        proof {
            crate::changes::lemma_record_shape(old(self).buf(), gseg, color);
            assert(gseg.skip(0) =~= gseg);
            assert(self.temp_stack@.skip(old_temp.len() as int) =~= Seq::<PixelChange>::empty());
        }
        let n = seg.len();
        let mut j: usize = 0;
        while j < n
            invariant
                n == gseg.len(),
                j <= n,
                seg@ == gseg,
                old(self).wf(),
                forall|k: int| 0 <= k < gseg.len() ==> (#[trigger] gseg[k]) < old(self).cells(),
                full == crate::changes::record_all(old(self).buf(), gseg, color),
                color == old(self).spec_brush_color(),
                old_temp == old(self).temp_stack@,
                self.buffer@.len() == old(self).buf().len(),
                self.temp_stack@.len() >= old_temp.len(),
                self.temp_stack@.take(old_temp.len() as int) == old_temp,
                full.0 == self.temp_stack@.skip(old_temp.len() as int)
                    + crate::changes::record_all(self.buffer@, gseg.skip(j as int), color).0,
                full.1 == crate::changes::record_all(self.buffer@, gseg.skip(j as int), color).1,
                self.width == old(self).width,
                self.height == old(self).height,
                self.action_stack@ == old(self).action_stack@,
                self.redo_stack@ == old(self).redo_stack@,
                self.drawing == old(self).drawing,
                self.snap@ == old(self).snap@,
                self.brush_size == old(self).brush_size,
                self.brush_color == old(self).brush_color,
                self.brush_changed_at == old(self).brush_changed_at,
            decreases n - j,
        {
            let idx = seg[j];
            let before = self.buffer[idx as usize];
            let ghost prev_buf = self.buffer@;
            let ghost prev_temp = self.temp_stack@;
            self.temp_stack.push(
                PixelChange { buf_index: idx, before_data: before, after_data: color },
            );
            self.buffer.set(idx as usize, color);
            proof {
                let jj = j as int;
                let e = PixelChange { buf_index: gseg[jj], before_data: prev_buf[gseg[jj] as int], after_data: color };
                assert(gseg.skip(jj)[0] == gseg[jj]);
                assert(gseg.skip(jj).drop_first() =~= gseg.skip(jj + 1));
                assert(self.buffer@ =~= prev_buf.update(gseg[jj] as int, color));
                assert(crate::changes::record_all(prev_buf, gseg.skip(jj), color).0 == seq![e]
                    + crate::changes::record_all(self.buffer@, gseg.skip(jj + 1), color).0);
                assert(crate::changes::record_all(prev_buf, gseg.skip(jj), color).1
                    == crate::changes::record_all(self.buffer@, gseg.skip(jj + 1), color).1);
                assert(self.temp_stack@.take(old_temp.len() as int) =~= prev_temp.take(
                    old_temp.len() as int,
                ));
                assert(self.temp_stack@.skip(old_temp.len() as int) =~= prev_temp.skip(
                    old_temp.len() as int,
                ).push(e));
                assert(full.0 =~= self.temp_stack@.skip(old_temp.len() as int)
                    + crate::changes::record_all(self.buffer@, gseg.skip(jj + 1), color).0);
            }
            j += 1;
        }
        proof {
            assert(gseg.skip(n as int) =~= Seq::<u32>::empty());
            assert(crate::changes::record_all(self.buffer@, gseg.skip(n as int), color).0
                =~= Seq::<PixelChange>::empty());
            assert(self.temp_stack@ =~= old_temp + full.0);
            assert(full.1 == self.buffer@);
            // well-formedness: the new pending records all address cells
            crate::changes::lemma_record_shape(old(self).buf(), gseg, color);
            assert forall|k: int|
                0 <= k < self.temp_stack@.len() implies (#[trigger] self.temp_stack@[k]).buf_index
                < self.cells() by {
                if k < old_temp.len() {
                    assert(self.temp_stack@[k] == old_temp[k]);
                } else {
                    assert(self.temp_stack@[k] == full.0[k - old_temp.len()]);
                    assert(full.0[k - old_temp.len()].buf_index == gseg[k - old_temp.len()]);
                }
            }
            assert(self.done() =~~= old(self).done());
            assert(self.undone() =~~= old(self).undone());
            assert forall|jx: int| 0 <= jx < self.done().len() implies stroke_sorted(
                #[trigger] self.done()[jx],
            ) && in_bounds(self.done()[jx], self.cells()) by {
                assert(self.done()[jx] == old(self).done()[jx]);
            }
            assert forall|jx: int| 0 <= jx < self.undone().len() implies stroke_sorted(
                #[trigger] self.undone()[jx],
            ) && in_bounds(self.undone()[jx], self.cells()) by {
                assert(self.undone()[jx] == old(self).undone()[jx]);
            }
            if old(self).synced() {
                crate::changes::lemma_record_session(
                    old(self).snapshot(),
                    old(self).pending(),
                    old(self).buf(),
                    gseg,
                    color,
                );
            }
        }
    }
}

/// The cell `i` lies under the 16x16 glyph box anchored at
/// `(xs, ys)` on a raster `w` wide, at a lit glyph cell.
pub open spec fn glyph_covers(n: int, w: int, xs: int, ys: int, i: int) -> bool {
    exists|gx: int, gy: int|
        0 <= gx < 16 && 0 <= gy < 16 && #[trigger] crate::glyphs::glyph_on(n, gx, gy) && i == xs
            + gx + (ys + gy) * w
}

/// As `glyph_covers`, restricted to the glyph cells already visited
/// by a row-major walk that stands at row `cy`, column `cx`.
pub open spec fn glyph_covers_upto(
    n: int,
    w: int,
    xs: int,
    ys: int,
    i: int,
    cy: int,
    cx: int,
) -> bool {
    exists|gx: int, gy: int|
        0 <= gx < 16 && 0 <= gy < 16 && (gy < cy || (gy == cy && gx < cx))
            && #[trigger] crate::glyphs::glyph_on(n, gx, gy) && i == xs + gx + (ys + gy) * w
}

impl Canvas {
    /// Stamp the numeric glyph for `n` near the corner given by
    /// `offset` (border distances; 20 by 100 when `None`), directly
    /// into the raster in the brush color.  The stamp is visual
    /// feedback only and is not recorded in the history.  If the
    /// raster is too small for the glyph box nothing changes.
    pub fn draw_number_in_corner(&mut self, n: u32, offset: Option<(u32, u32)>)
        requires
            old(self).wf(),
            1 <= n <= 10,
        ensures
            final(self).wf(),
            final(self).spec_width() == old(self).spec_width(),
            final(self).spec_height() == old(self).spec_height(),
            final(self).done() == old(self).done(),
            final(self).undone() == old(self).undone(),
            final(self).pending() == old(self).pending(),
            final(self).is_drawing() == old(self).is_drawing(),
            final(self).snapshot() == old(self).snapshot(),
            final(self).spec_brush_size() == old(self).spec_brush_size(),
            final(self).spec_brush_color() == old(self).spec_brush_color(),
            final(self).spec_brush_changed_at() == old(self).spec_brush_changed_at(),
            ({
                let off = match offset {
                    Option::Some(o) => o,
                    Option::None => (20u32, 100u32),
                };
                let xs = old(self).spec_width() - off.0 - 16;
                let ys = old(self).spec_height() - off.1 - 16;
                if old(self).spec_width() >= off.0 + 16 && old(self).spec_height() >= off.1
                    + 16 {
                    final(self).buf() == Seq::new(
                        old(self).buf().len(),
                        |i: int|
                            if glyph_covers(n as int, old(self).spec_width(), xs, ys, i) {
                                old(self).spec_brush_color()
                            } else {
                                old(self).buf()[i]
                            },
                    )
                } else {
                    final(self).buf() == old(self).buf()
                }
            }),
    {
        let (ox, oy) = match offset {
            Option::Some(o) => o,
            Option::None => (20u32, 100u32),
        };
        if !(self.width >= ox && self.width - ox >= 16) {
            return;
        }
        if !(self.height >= oy && self.height - oy >= 16) {
            return;
        }
        let xs = self.width - ox - 16;
        let ys = self.height - oy - 16;
        let w = self.width;
        let color = self.brush_color;
        let ghost gn = n as int;
        let ghost gw = self.spec_width();
        let ghost gxs = xs as int;
        let ghost gys = ys as int;
        let mut gy: u32 = 0;
        while gy < 16
            invariant
                old(self).wf(),
                gy <= 16,
                w == old(self).width,
                xs as int == gxs,
                ys as int == gys,
                gxs + 16 <= gw,
                gys + 16 <= old(self).spec_height(),
                gw == old(self).spec_width(),
                gn == n as int,
                color == old(self).spec_brush_color(),
                self.buffer@.len() == old(self).buf().len(),
                forall|i: int|
                    0 <= i < self.buffer@.len() && glyph_covers_upto(
                        gn,
                        gw,
                        gxs,
                        gys,
                        i,
                        gy as int,
                        0,
                    ) ==> self.buffer@[i] == color,
                forall|i: int|
                    0 <= i < self.buffer@.len() && !glyph_covers_upto(
                        gn,
                        gw,
                        gxs,
                        gys,
                        i,
                        gy as int,
                        0,
                    ) ==> self.buffer@[i] == old(self).buf()[i],
                self.width == old(self).width,
                self.height == old(self).height,
                self.action_stack@ == old(self).action_stack@,
                self.redo_stack@ == old(self).redo_stack@,
                self.temp_stack@ == old(self).temp_stack@,
                self.drawing == old(self).drawing,
                self.snap@ == old(self).snap@,
                self.brush_size == old(self).brush_size,
                self.brush_color == old(self).brush_color,
                self.brush_changed_at == old(self).brush_changed_at,
            decreases 16 - gy,
        {
            let mut gx: u32 = 0;
            while gx < 16
                invariant
                    old(self).wf(),
                    gx <= 16,
                    gy < 16,
                    w == old(self).width,
                    xs as int == gxs,
                    ys as int == gys,
                    gxs + 16 <= gw,
                    gys + 16 <= old(self).spec_height(),
                    gw == old(self).spec_width(),
                    gn == n as int,
                    color == old(self).spec_brush_color(),
                    self.buffer@.len() == old(self).buf().len(),
                    forall|i: int|
                        0 <= i < self.buffer@.len() && glyph_covers_upto(
                            gn,
                            gw,
                            gxs,
                            gys,
                            i,
                            gy as int,
                            gx as int,
                        ) ==> self.buffer@[i] == color,
                    forall|i: int|
                        0 <= i < self.buffer@.len() && !glyph_covers_upto(
                            gn,
                            gw,
                            gxs,
                            gys,
                            i,
                            gy as int,
                            gx as int,
                        ) ==> self.buffer@[i] == old(self).buf()[i],
                    self.width == old(self).width,
                    self.height == old(self).height,
                    self.action_stack@ == old(self).action_stack@,
                    self.redo_stack@ == old(self).redo_stack@,
                    self.temp_stack@ == old(self).temp_stack@,
                    self.drawing == old(self).drawing,
                    self.snap@ == old(self).snap@,
                    self.brush_size == old(self).brush_size,
                    self.brush_color == old(self).brush_color,
                    self.brush_changed_at == old(self).brush_changed_at,
                decreases 16 - gx,
            {
                let ghost prev = self.buffer@;
                if crate::glyphs::glyph_pixel(n, gx, gy) {
                    proof {
                        let gh = old(self).spec_height();
                        assert(((gys + gy as int) * gw + (gxs + gx as int)) < (gw * gh))
                            by (nonlinear_arith)
                            requires
                                0 <= gys + gy as int <= gh - 1,
                                0 <= gxs + gx as int <= gw - 1,
                                1 <= gw,
                                1 <= gh,
                        ;
                    }
                    let idx = (ys + gy) * w + (xs + gx);
                    self.buffer.set(idx as usize, color);
                }
                proof {
                    let cy = gy as int;
                    let cx = gx as int;
                    let on = crate::glyphs::glyph_on(gn, cx, cy);
                    let idx = gxs + cx + (gys + cy) * gw;
                    assert forall|i: int|
                        0 <= i < self.buffer@.len() && glyph_covers_upto(
                            gn,
                            gw,
                            gxs,
                            gys,
                            i,
                            cy,
                            cx + 1,
                        ) implies self.buffer@[i] == color by {
                        let (wx, wy) = choose|wx: int, wy: int|
                            0 <= wx < 16 && 0 <= wy < 16 && (wy < cy || (wy == cy && wx < cx + 1))
                                && #[trigger] crate::glyphs::glyph_on(gn, wx, wy) && i == gxs + wx
                                + (gys + wy) * gw;
                        if wy == cy && wx == cx {
                            assert(i == idx);
                            assert(self.buffer@[i] == color);
                        } else {
                            assert(glyph_covers_upto(gn, gw, gxs, gys, i, cy, cx));
                            assert(prev[i] == color);
                            if on && i == idx {
                                assert(self.buffer@[i] == color);
                            } else {
                                assert(self.buffer@[i] == prev[i]);
                            }
                        }
                    }
                    assert forall|i: int|
                        0 <= i < self.buffer@.len() && !glyph_covers_upto(
                            gn,
                            gw,
                            gxs,
                            gys,
                            i,
                            cy,
                            cx + 1,
                        ) implies self.buffer@[i] == old(self).buf()[i] by {
                        assert(!glyph_covers_upto(gn, gw, gxs, gys, i, cy, cx)) by {
                            if glyph_covers_upto(gn, gw, gxs, gys, i, cy, cx) {
                                let (wx, wy) = choose|wx: int, wy: int|
                                    0 <= wx < 16 && 0 <= wy < 16 && (wy < cy || (wy == cy && wx
                                        < cx)) && #[trigger] crate::glyphs::glyph_on(gn, wx, wy)
                                        && i == gxs + wx + (gys + wy) * gw;
                                assert(glyph_covers_upto(gn, gw, gxs, gys, i, cy, cx + 1));
                            }
                        }
                        assert(prev[i] == old(self).buf()[i]);
                        if on {
                            assert(i != idx) by {
                                if i == idx {
                                    assert(glyph_covers_upto(gn, gw, gxs, gys, i, cy, cx + 1));
                                }
                            }
                            assert(self.buffer@[i] == prev[i]);
                        } else {
                            assert(self.buffer@[i] == prev[i]);
                        }
                    }
                }
                gx = gx + 1;
            }
            proof {
                let cy = gy as int;
                assert forall|i: int|
                    glyph_covers_upto(gn, gw, gxs, gys, i, cy + 1, 0) implies glyph_covers_upto(
                    gn,
                    gw,
                    gxs,
                    gys,
                    i,
                    cy,
                    16,
                ) by {
                    let (wx, wy) = choose|wx: int, wy: int|
                        0 <= wx < 16 && 0 <= wy < 16 && (wy < cy + 1 || (wy == cy + 1 && wx < 0))
                            && #[trigger] crate::glyphs::glyph_on(gn, wx, wy) && i == gxs + wx + (
                        gys + wy) * gw;
                    assert(wy < cy || (wy == cy && wx < 16));
                }
                assert forall|i: int|
                    glyph_covers_upto(gn, gw, gxs, gys, i, cy, 16) implies glyph_covers_upto(
                    gn,
                    gw,
                    gxs,
                    gys,
                    i,
                    cy + 1,
                    0,
                ) by {
                    let (wx, wy) = choose|wx: int, wy: int|
                        0 <= wx < 16 && 0 <= wy < 16 && (wy < cy || (wy == cy && wx < 16))
                            && #[trigger] crate::glyphs::glyph_on(gn, wx, wy) && i == gxs + wx + (
                        gys + wy) * gw;
                    assert(wy < cy + 1);
                }
            }
            gy = gy + 1;
        }
        proof {
            assert forall|i: int|
                glyph_covers(gn, gw, gxs, gys, i) implies glyph_covers_upto(
                gn,
                gw,
                gxs,
                gys,
                i,
                16,
                0,
            ) by {
                let (wx, wy) = choose|wx: int, wy: int|
                    0 <= wx < 16 && 0 <= wy < 16 && #[trigger] crate::glyphs::glyph_on(gn, wx, wy)
                        && i == gxs + wx + (gys + wy) * gw;
                assert(wy < 16);
            }
            assert forall|i: int|
                glyph_covers_upto(gn, gw, gxs, gys, i, 16, 0) implies glyph_covers(
                gn,
                gw,
                gxs,
                gys,
                i,
            ) by {
                let (wx, wy) = choose|wx: int, wy: int|
                    0 <= wx < 16 && 0 <= wy < 16 && (wy < 16 || (wy == 16 && wx < 0))
                        && #[trigger] crate::glyphs::glyph_on(gn, wx, wy) && i == gxs + wx + (gys
                        + wy) * gw;
            }
            assert(self.buffer@ =~= Seq::new(
                old(self).buf().len(),
                |i: int|
                    if glyph_covers(gn, gw, gxs, gys, i) {
                        old(self).spec_brush_color()
                    } else {
                        old(self).buf()[i]
                    },
            ));
            assert(self.done() =~~= old(self).done());
            assert(self.undone() =~~= old(self).undone());
            Canvas::lemma_same_stacks_wf(*old(self), *self);
        }
    }

    /// Adjust the brush size by `delta`, clamped into `[1, 10]`.
    /// The change is rate limited by a monotonic-clock comparison: a
    /// call within the cooldown window of the previous accepted
    /// change, or one whose clamped size equals the current size, is
    /// ignored and does not reset the cooldown.  An accepted change
    /// stamps the new size as a glyph near the corner of the raster.
    pub fn change_brush_size(&mut self, d: i32, now_ms: u64)
        requires
            old(self).wf(),
        ensures
            final(self).wf(),
            final(self).spec_width() == old(self).spec_width(),
            final(self).spec_height() == old(self).spec_height(),
            final(self).done() == old(self).done(),
            final(self).undone() == old(self).undone(),
            final(self).pending() == old(self).pending(),
            final(self).is_drawing() == old(self).is_drawing(),
            final(self).snapshot() == old(self).snapshot(),
            final(self).spec_brush_color() == old(self).spec_brush_color(),
            ({
                let cur = old(self).spec_brush_size() as int;
                let clamped = if cur + d < 1 {
                    1int
                } else if cur + d > 10 {
                    10int
                } else {
                    cur + d
                };
                let accepted = now_ms >= old(self).spec_brush_changed_at() as int
                    + BRUSH_COOLDOWN_MS && clamped != cur;
                if accepted {
                    &&& final(self).spec_brush_size() == clamped
                    &&& final(self).spec_brush_changed_at() == now_ms
                    &&& ({
                        let xs = old(self).spec_width() - 36;
                        let ys = old(self).spec_height() - 116;
                        if old(self).spec_width() >= 36 && old(self).spec_height() >= 116 {
                            final(self).buf() == Seq::new(
                                old(self).buf().len(),
                                |i: int|
                                    if glyph_covers(clamped, old(self).spec_width(), xs, ys, i) {
                                        old(self).spec_brush_color()
                                    } else {
                                        old(self).buf()[i]
                                    },
                            )
                        } else {
                            final(self).buf() == old(self).buf()
                        }
                    })
                } else {
                    &&& final(self).spec_brush_size() == old(self).spec_brush_size()
                    &&& final(self).spec_brush_changed_at() == old(self).spec_brush_changed_at()
                    &&& final(self).buf() == old(self).buf()
                }
            }),
    {
        let cur = self.brush_size;
        let wide: i64 = cur as i64 + d as i64;
        let n: u32 = if wide < 1 {
            1
        } else if wide > 10 {
            10
        } else {
            wide as u32
        };
        let elapsed_ok = now_ms >= BRUSH_COOLDOWN_MS && now_ms - BRUSH_COOLDOWN_MS
            >= self.brush_changed_at;
        if !elapsed_ok || n == cur {
            return;
        }
        self.brush_size = n;
        self.brush_changed_at = now_ms;
        proof {
            assert(self.done() =~~= old(self).done());
            assert(self.undone() =~~= old(self).undone());
            Canvas::lemma_same_stacks_wf(*old(self), *self);
        }
        self.draw_number_in_corner(n, Option::None);
    }
}

/// Undoing then immediately redoing restores the canvas exactly:
/// raster and both stacks return to their state prior to the undo,
/// for any completed stroke on a consistent history.  `mid` and
/// `post` are the histories that `undo` and then `redo` produce.
pub proof fn lemma_undo_redo_restores(pre: Canvas, mid: HistModel, post: HistModel)
    requires
        pre.wf(),
        pre.synced(),
        !pre.is_drawing(),
        pre.done().len() > 0,
        mid == undo_model(pre.hist()),
        post == redo_model(mid),
    ensures
        post == pre.hist(),
        post.buf == pre.buf(),
{
    pre.lemma_wf_stacks();
    crate::history::lemma_redo_undo_inverse(pre.hist());
}

/// Drawing a stroke and undoing it immediately restores every cell,
/// touched or not, to its pre-stroke color: freezing the pending
/// stroke and replaying its `before` values lands exactly on the
/// snapshot taken when the stroke started.
pub proof fn lemma_stroke_undo_roundtrip(pre: Canvas, frozen: Canvas, post: HistModel)
    requires
        pre.wf(),
        pre.synced(),
        pre.is_drawing(),
        frozen.buf() == pre.buf(),
        frozen.done().len() == pre.done().len() + 1,
        frozen.done().drop_last() == pre.done(),
        is_freeze_of(frozen.done().last(), pre.pending()),
        frozen.undone() == pre.undone(),
        post == undo_model(frozen.hist()),
    ensures
        post.buf == pre.snapshot(),
{
    crate::changes::lemma_freeze_restores(
        pre.snapshot(),
        pre.pending(),
        pre.buf(),
        frozen.done().last(),
    );
}

/// After `N` completed strokes, `k <= N` undos followed by `k` redos
/// restore the raster and both stacks of any well-formed, consistent
/// canvas exactly.
pub proof fn lemma_history_cycle(c: Canvas, k: nat)
    requires
        c.wf(),
        c.synced(),
        !c.is_drawing(),
        k <= c.done().len(),
    ensures
        crate::history::redo_model_k(crate::history::undo_model_k(c.hist(), k), k) == c.hist(),
{
    c.lemma_wf_stacks();
    crate::history::lemma_undo_redo_cycle(c.hist(), k);
}

/// Starting a new stroke clears the redo stack, so a redo right
/// after it is a no-op.
pub proof fn lemma_redo_after_new_stroke_noop(c: Canvas)
    requires
        c.undone().len() == 0,
    ensures
        redo_model(c.hist()) == c.hist(),
{
}

/// Every cell index a stroke segment produces addresses the raster:
/// clamping happens before linearization, so even a brush hanging off
/// the edge stays in range.
pub proof fn lemma_segment_in_range(pts: Seq<(i32, i32)>, size: int, w: int, h: int)
    requires
        1 <= w,
        1 <= h,
        w * h <= u32::MAX,
    ensures
        forall|k: int|
            0 <= k < segment_pixels(pts, size, w, h).len() ==> (#[trigger] segment_pixels(
                pts,
                size,
                w,
                h,
            )[k]) < w * h,
    decreases pts.len(),
{
    if pts.len() > 0 {
        lemma_segment_in_range(pts.drop_first(), size, w, h);
        let head = convert_spec(
            crate::geometry::footprint_spec(pts[0].0 as int, pts[0].1 as int, size),
            w,
            h,
        );
        let rest = segment_pixels(pts.drop_first(), size, w, h);
        assert forall|k: int| 0 <= k < head.len() implies (#[trigger] head[k]) < w * h by {
            let fp = crate::geometry::footprint_spec(pts[0].0 as int, pts[0].1 as int, size);
            lemma_pix_index_bounds(fp[k].0 as int, fp[k].1 as int, w, h);
        }
        assert forall|k: int|
            0 <= k < segment_pixels(pts, size, w, h).len() implies (#[trigger] segment_pixels(
            pts,
            size,
            w,
            h,
        )[k]) < w * h by {
            if k < head.len() {
                assert(segment_pixels(pts, size, w, h)[k] == head[k]);
            } else {
                assert(segment_pixels(pts, size, w, h)[k] == rest[k - head.len()]);
            }
        }
    }
}

} // verus!
