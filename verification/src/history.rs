//! The abstract undo/redo history and its laws.
//!
//! A history is the raster together with two stacks of frozen strokes:
//! `done` (available to undo) and `undone` (available to redo).  The
//! consistency invariant chains each stack against the raster; under it
//! undo and redo are exact inverses, and `k` undos followed by `k`
//! redos restore the raster and both stacks.

use vstd::prelude::*;

use crate::changes::{
    agrees_after, agrees_before, in_bounds, lemma_redo_then_undo, lemma_undo_then_redo, replay,
    stroke_distinct, PixelChange,
};

verus! {

/// The mathematical state of the canvas history.
#[verifier::ext_equal]
pub ghost struct HistModel {
    pub buf: Seq<u32>,
    pub done: Seq<Seq<PixelChange>>,
    pub undone: Seq<Seq<PixelChange>>,
}

/// Every stroke on either stack holds one record per cell, all of
/// whose indices lie inside the raster.
pub open spec fn stacks_distinct(m: HistModel) -> bool {
    &&& (forall|j: int| 0 <= j < m.done.len() ==> stroke_distinct(#[trigger] m.done[j]))
    &&& (forall|j: int| 0 <= j < m.undone.len() ==> stroke_distinct(#[trigger] m.undone[j]))
    &&& (forall|j: int| 0 <= j < m.done.len() ==> in_bounds(#[trigger] m.done[j], m.buf.len() as int))
    &&& (forall|j: int|
        0 <= j < m.undone.len() ==> in_bounds(#[trigger] m.undone[j], m.buf.len() as int))
}

/// The `done` stack chains against the raster: the top stroke's
/// `after` values agree with it, and below that the chain continues on
/// the raster with the top stroke undone.
pub open spec fn done_ok(buf: Seq<u32>, done: Seq<Seq<PixelChange>>) -> bool
    decreases done.len(),
{
    done.len() == 0 || {
        &&& agrees_after(buf, done.last())
        &&& done_ok(replay(buf, done.last(), false), done.drop_last())
    }
}

/// The `undone` stack chains forward: the top stroke's `before` values
/// agree with the raster, and the chain continues on the raster with
/// the top stroke redone.
pub open spec fn redo_ok(buf: Seq<u32>, undone: Seq<Seq<PixelChange>>) -> bool
    decreases undone.len(),
{
    undone.len() == 0 || {
        &&& agrees_before(buf, undone.last())
        &&& redo_ok(replay(buf, undone.last(), true), undone.drop_last())
    }
}

/// Both stacks chain against the current raster.
pub open spec fn consistent(m: HistModel) -> bool {
    done_ok(m.buf, m.done) && redo_ok(m.buf, m.undone)
}

/// What one undo does: pop `done`, replay with `before` values, push
/// the stroke onto `undone`; a no-op when `done` is empty.
pub open spec fn undo_model(m: HistModel) -> HistModel {
    if m.done.len() == 0 {
        m
    } else {
        HistModel {
            buf: replay(m.buf, m.done.last(), false),
            done: m.done.drop_last(),
            undone: m.undone.push(m.done.last()),
        }
    }
}

/// What one redo does: pop `undone`, replay with `after` values, push
/// the stroke back onto `done`; a no-op when `undone` is empty.
pub open spec fn redo_model(m: HistModel) -> HistModel {
    if m.undone.len() == 0 {
        m
    } else {
        HistModel {
            buf: replay(m.buf, m.undone.last(), true),
            done: m.done.push(m.undone.last()),
            undone: m.undone.drop_last(),
        }
    }
}

/// `k` undos in sequence.
pub open spec fn undo_model_k(m: HistModel, k: nat) -> HistModel
    decreases k,
{
    if k == 0 {
        m
    } else {
        undo_model_k(undo_model(m), (k - 1) as nat)
    }
}

/// `k` redos in sequence.
pub open spec fn redo_model_k(m: HistModel, k: nat) -> HistModel
    decreases k,
{
    if k == 0 {
        m
    } else {
        redo_model(redo_model_k(m, (k - 1) as nat))
    }
}

/// An undo leaves the history consistent, and pushing the undone
/// stroke onto `undone` keeps that stack's chain.
pub proof fn lemma_undo_preserves(m: HistModel)
    requires
        consistent(m),
        stacks_distinct(m),
    ensures
        consistent(undo_model(m)),
        stacks_distinct(undo_model(m)),
{
    if m.done.len() > 0 {
        let s = m.done.last();
        let buf1 = replay(m.buf, s, false);
        lemma_undo_then_redo(m.buf, s);
        assert(agrees_before(buf1, s)) by {
            assert forall|k: int| 0 <= k < s.len() implies buf1[#[trigger] s[k].buf_index as int]
                == s[k].before_data by {
                crate::changes::lemma_lookup_first_of_entry(s, k);
            }
        }
        assert(replay(buf1, s, true) =~= m.buf);
        assert(m.undone.push(s).last() == s);
        assert(m.undone.push(s).drop_last() =~= m.undone);
        assert(redo_ok(buf1, m.undone.push(s)));
        assert forall|j: int| 0 <= j < undo_model(m).undone.len() implies stroke_distinct(
            #[trigger] undo_model(m).undone[j],
        ) by {
            if j < m.undone.len() {
                assert(undo_model(m).undone[j] == m.undone[j]);
            } else {
                assert(undo_model(m).undone[j] == s);
                assert(stroke_distinct(m.done[m.done.len() - 1]));
            }
        }
        assert forall|j: int| 0 <= j < undo_model(m).done.len() implies stroke_distinct(
            #[trigger] undo_model(m).done[j],
        ) by {
            assert(undo_model(m).done[j] == m.done[j]);
        }
    }
}

/// A redo leaves the history consistent, and pushing the redone stroke
/// back onto `done` keeps that stack's chain.
pub proof fn lemma_redo_preserves(m: HistModel)
    requires
        consistent(m),
        stacks_distinct(m),
    ensures
        consistent(redo_model(m)),
        stacks_distinct(redo_model(m)),
{
    if m.undone.len() > 0 {
        let s = m.undone.last();
        let buf1 = replay(m.buf, s, true);
        lemma_redo_then_undo(m.buf, s);
        assert(agrees_after(buf1, s)) by {
            assert forall|k: int| 0 <= k < s.len() implies buf1[#[trigger] s[k].buf_index as int]
                == s[k].after_data by {
                crate::changes::lemma_lookup_first_of_entry(s, k);
            }
        }
        assert(replay(buf1, s, false) =~= m.buf);
        assert(m.done.push(s).last() == s);
        assert(m.done.push(s).drop_last() =~= m.done);
        assert(done_ok(buf1, m.done.push(s)));
        assert forall|j: int| 0 <= j < redo_model(m).done.len() implies stroke_distinct(
            #[trigger] redo_model(m).done[j],
        ) by {
            if j < m.done.len() {
                assert(redo_model(m).done[j] == m.done[j]);
            } else {
                assert(redo_model(m).done[j] == s);
                assert(stroke_distinct(m.undone[m.undone.len() - 1]));
            }
        }
        assert forall|j: int| 0 <= j < redo_model(m).undone.len() implies stroke_distinct(
            #[trigger] redo_model(m).undone[j],
        ) by {
            assert(redo_model(m).undone[j] == m.undone[j]);
        }
    }
}

/// Redo exactly inverts undo: on a consistent history with at least
/// one completed stroke, `redo(undo(m)) == m`.
pub proof fn lemma_redo_undo_inverse(m: HistModel)
    requires
        consistent(m),
        stacks_distinct(m),
        m.done.len() > 0,
    ensures
        redo_model(undo_model(m)) == m,
{
    let s = m.done.last();
    let u = undo_model(m);
    lemma_undo_then_redo(m.buf, s);
    assert(u.undone.last() == s);
    assert(redo_model(u).buf =~= m.buf);
    assert(redo_model(u).done =~= m.done);
    assert(redo_model(u).undone =~= m.undone);
    assert(redo_model(u) =~~= m);
}

/// After `N` completed strokes, `k <= N` undos followed by `k` redos
/// restore the raster and both stacks exactly.
pub proof fn lemma_undo_redo_cycle(m: HistModel, k: nat)
    requires
        consistent(m),
        stacks_distinct(m),
        k <= m.done.len(),
    ensures
        redo_model_k(undo_model_k(m, k), k) == m,
    decreases k,
{
    if k > 0 {
        lemma_undo_preserves(m);
        lemma_undo_redo_cycle(undo_model(m), (k - 1) as nat);
        lemma_redo_undo_inverse(m);
    }
}

} // verus!
