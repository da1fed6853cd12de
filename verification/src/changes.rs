//! Per-pixel change records and the algebra of replaying them.
//!
//! A stroke is a sequence of `PixelChange` records, deduplicated so it
//! holds at most one record per cell.  Undo replays a stroke with the
//! `before` values, redo with the `after` values.  The lemmas here show
//! that on a consistent history the two replays are exact inverses,
//! which is what makes undo/redo bitwise exact.

use vstd::prelude::*;

verus! {

/// One historized mutation of a single cell of the raster.
#[derive(Debug, Clone, Copy, PartialEq, Eq, Structural)]
pub struct PixelChange {
    pub buf_index: u32,
    pub before_data: u32,
    pub after_data: u32,
}

/// Does some record of `s` touch cell `i`?
pub open spec fn touches(s: Seq<PixelChange>, i: int) -> bool {
    exists|k: int| 0 <= k < s.len() && s[k].buf_index == i
}

/// At most one record per cell.
pub open spec fn stroke_distinct(s: Seq<PixelChange>) -> bool {
    forall|k1: int, k2: int|
        0 <= k1 < k2 < s.len() ==> s[k1].buf_index != s[k2].buf_index
}

/// Records ordered by strictly increasing cell index.
pub open spec fn stroke_sorted(s: Seq<PixelChange>) -> bool {
    forall|k1: int, k2: int|
        0 <= k1 < k2 < s.len() ==> s[k1].buf_index < s[k2].buf_index
}

/// Every record's cell index lies below `n`.
pub open spec fn in_bounds(s: Seq<PixelChange>, n: int) -> bool {
    forall|k: int| 0 <= k < s.len() ==> s[k].buf_index < n
}

/// The first record of `s` for cell `i`, if any.
pub open spec fn lookup(s: Seq<PixelChange>, i: int) -> Option<PixelChange>
    decreases s.len(),
{
    if s.len() == 0 {
        Option::None
    } else if s[0].buf_index == i {
        Option::Some(s[0])
    } else {
        lookup(s.drop_first(), i)
    }
}

/// The value cell `i` holds after replaying `s` over `buf`:
/// the record's stored value where a record touches `i`, the old value
/// elsewhere.
pub open spec fn replay_at(buf: Seq<u32>, s: Seq<PixelChange>, use_after: bool, i: int) -> u32 {
    match lookup(s, i) {
        Option::Some(c) => if use_after {
            c.after_data
        } else {
            c.before_data
        },
        Option::None => buf[i],
    }
}

/// The whole raster after replaying `s` over `buf`.
pub open spec fn replay(buf: Seq<u32>, s: Seq<PixelChange>, use_after: bool) -> Seq<u32> {
    Seq::new(buf.len(), |i: int| replay_at(buf, s, use_after, i))
}

/// Every record's `after` value is what the raster holds now: `s` was
/// the most recent mutation of `buf`.
pub open spec fn agrees_after(buf: Seq<u32>, s: Seq<PixelChange>) -> bool {
    forall|k: int| 0 <= k < s.len() ==> buf[#[trigger] s[k].buf_index as int] == s[k].after_data
}

/// Every record's `before` value is what the raster holds now: `s` is
/// the next mutation to reapply over `buf`.
pub open spec fn agrees_before(buf: Seq<u32>, s: Seq<PixelChange>) -> bool {
    forall|k: int| 0 <= k < s.len() ==> buf[#[trigger] s[k].buf_index as int] == s[k].before_data
}

/// A found record belongs to the stroke and names the looked-up cell.
pub proof fn lemma_lookup_entry(s: Seq<PixelChange>, i: int)
    ensures
        lookup(s, i) is Some ==> exists|k: int|
            0 <= k < s.len() && s[k] == lookup(s, i)->Some_0 && s[k].buf_index == i,
        lookup(s, i) is Some <==> touches(s, i),
    decreases s.len(),
{
    if s.len() > 0 && s[0].buf_index != i {
        lemma_lookup_entry(s.drop_first(), i);
        if lookup(s.drop_first(), i) is Some {
            let k = choose|k: int|
                0 <= k < s.drop_first().len() && s.drop_first()[k] == lookup(s.drop_first(), i)->Some_0
                    && s.drop_first()[k].buf_index == i;
            assert(s[k + 1] == s.drop_first()[k]);
        }
        if touches(s, i) {
            let k = choose|k: int| 0 <= k < s.len() && s[k].buf_index == i;
            assert(s.drop_first()[k - 1] == s[k]);
        }
    }
}

/// If no record among the first `j` touches `i` and record `j` does,
/// the lookup finds record `j`.
pub proof fn lemma_lookup_first(s: Seq<PixelChange>, j: int, i: int)
    requires
        0 <= j < s.len(),
        s[j].buf_index == i,
        !touches(s.take(j), i),
    ensures
        lookup(s, i) == Option::Some(s[j]),
    decreases j,
{
    if j == 0 {
    } else {
        assert(s.take(j)[0] == s[0]);
        assert(s[0].buf_index != i);
        assert(s.drop_first()[j - 1] == s[j]);
        assert forall|k: int| 0 <= k < j - 1 implies (#[trigger] s.drop_first().take(j - 1)[k]).buf_index != i by {
            assert(s.drop_first().take(j - 1)[k] == s.take(j)[k + 1]);
        }
        lemma_lookup_first(s.drop_first(), j - 1, i);
    }
}

/// Appending a record changes the lookup only for its own cell, and
/// only where that cell was still untouched.
pub proof fn lemma_lookup_push(s: Seq<PixelChange>, e: PixelChange, i: int)
    ensures
        lookup(s.push(e), i) == (if lookup(s, i) is Some {
            lookup(s, i)
        } else if e.buf_index == i {
            Option::Some(e)
        } else {
            Option::<PixelChange>::None
        }),
    decreases s.len(),
{
    if s.len() == 0 {
        assert(s.push(e)[0] == e);
        if e.buf_index != i {
            assert(s.push(e).drop_first() =~= Seq::<PixelChange>::empty());
        }
    } else {
        assert(s.push(e)[0] == s[0]);
        assert(s.push(e).drop_first() =~= s.drop_first().push(e));
        lemma_lookup_push(s.drop_first(), e, i);
    }
}

/// Undoing a stroke and redoing it restores the raster exactly,
/// provided the stroke's `after` values agree with the raster and the
/// stroke holds one record per cell.
pub proof fn lemma_undo_then_redo(buf: Seq<u32>, s: Seq<PixelChange>)
    requires
        stroke_distinct(s),
        agrees_after(buf, s),
    ensures
        replay(replay(buf, s, false), s, true) =~= buf,
{
    let undone = replay(buf, s, false);
    assert forall|i: int| 0 <= i < buf.len() implies replay(undone, s, true)[i] == buf[i] by {
        lemma_lookup_entry(s, i);
        if lookup(s, i) is Some {
            let c = lookup(s, i)->Some_0;
            let k = choose|k: int| 0 <= k < s.len() && s[k] == c && s[k].buf_index == i;
            assert(buf[s[k].buf_index as int] == s[k].after_data);
        }
    }
}

/// Redoing a stroke and undoing it restores the raster exactly,
/// provided the stroke's `before` values agree with the raster.
pub proof fn lemma_redo_then_undo(buf: Seq<u32>, s: Seq<PixelChange>)
    requires
        stroke_distinct(s),
        agrees_before(buf, s),
    ensures
        replay(replay(buf, s, true), s, false) =~= buf,
{
    let redone = replay(buf, s, true);
    assert forall|i: int| 0 <= i < buf.len() implies replay(redone, s, false)[i] == buf[i] by {
        lemma_lookup_entry(s, i);
        if lookup(s, i) is Some {
            let c = lookup(s, i)->Some_0;
            let k = choose|k: int| 0 <= k < s.len() && s[k] == c && s[k].buf_index == i;
            assert(buf[s[k].buf_index as int] == s[k].before_data);
        }
    }
}

/// `f` is the frozen form of a raw pending stroke `temp`: sorted, one
/// record per cell, covering exactly the cells `temp` touched, each
/// with the first record `temp` holds for that cell (whose `before`
/// value is the cell's pre-stroke color).
pub open spec fn is_freeze_of(f: Seq<PixelChange>, temp: Seq<PixelChange>) -> bool {
    &&& stroke_sorted(f)
    &&& (forall|i: int| touches(f, i) <==> touches(temp, i))
    &&& (forall|k: int| 0 <= k < f.len() ==> lookup(temp, #[trigger] f[k].buf_index as int)
        == Option::Some(f[k]))
}

/// In a stroke with one record per cell, looking a record's own cell
/// up finds that record.
pub proof fn lemma_lookup_first_of_entry(s: Seq<PixelChange>, k: int)
    requires
        stroke_distinct(s),
        0 <= k < s.len(),
    ensures
        lookup(s, s[k].buf_index as int) == Option::Some(s[k]),
{
    assert forall|j: int| 0 <= j < k implies (#[trigger] s.take(k)[j]).buf_index
        != s[k].buf_index by {
        assert(s.take(k)[j] == s[j]);
    }
    lemma_lookup_first(s, k, s[k].buf_index as int);
}

/// Sorted strokes hold one record per cell.
pub proof fn lemma_sorted_distinct(s: Seq<PixelChange>)
    requires
        stroke_sorted(s),
    ensures
        stroke_distinct(s),
{
}

/// What drawing over `buf` at the cells `idxs`, in order, records and
/// leaves behind: one record per visited cell capturing the cell's
/// value at visit time, and the raster with `color` written at every
/// visited cell.
pub open spec fn record_all(buf: Seq<u32>, idxs: Seq<u32>, color: u32) -> (Seq<PixelChange>, Seq<
    u32,
>)
    decreases idxs.len(),
{
    if idxs.len() == 0 {
        (Seq::empty(), buf)
    } else {
        let e = PixelChange {
            buf_index: idxs[0],
            before_data: buf[idxs[0] as int],
            after_data: color,
        };
        let rest = record_all(buf.update(idxs[0] as int, color), idxs.drop_first(), color);
        (seq![e] + rest.0, rest.1)
    }
}

/// The records of a draw visit the given cells in order and all write
/// the brush color, and the raster keeps its size.
pub proof fn lemma_record_shape(buf: Seq<u32>, idxs: Seq<u32>, color: u32)
    requires
        forall|k: int| 0 <= k < idxs.len() ==> (#[trigger] idxs[k]) < buf.len(),
    ensures
        record_all(buf, idxs, color).0.len() == idxs.len(),
        forall|k: int|
            0 <= k < idxs.len() ==> (#[trigger] record_all(buf, idxs, color).0[k]).buf_index
                == idxs[k] && record_all(buf, idxs, color).0[k].after_data == color,
        record_all(buf, idxs, color).1.len() == buf.len(),
    decreases idxs.len(),
{
    if idxs.len() > 0 {
        let e = PixelChange {
            buf_index: idxs[0],
            before_data: buf[idxs[0] as int],
            after_data: color,
        };
        let buf1 = buf.update(idxs[0] as int, color);
        lemma_record_shape(buf1, idxs.drop_first(), color);
        let rest = record_all(buf1, idxs.drop_first(), color);
        assert(record_all(buf, idxs, color).1 == rest.1);
        assert(buf1.len() == buf.len());
        assert forall|k: int|
            0 <= k < idxs.len() implies (#[trigger] record_all(buf, idxs, color).0[k]).buf_index
            == idxs[k] && record_all(buf, idxs, color).0[k].after_data == color by {
            if k == 0 {
                assert(record_all(buf, idxs, color).0[0] == e);
            } else {
                assert(record_all(buf, idxs, color).0[k] == rest.0[k - 1]);
                assert(idxs.drop_first()[k - 1] == idxs[k]);
            }
        }
    }
}

/// Drawing over a raster that satisfies the open-stroke session facts
/// leaves them satisfied: untouched cells keep the snapshot value,
/// touched cells hold the brush color, and the first record of each
/// cell still holds its pre-stroke color.
pub proof fn lemma_record_session(
    snap: Seq<u32>,
    temp: Seq<PixelChange>,
    buf: Seq<u32>,
    idxs: Seq<u32>,
    color: u32,
)
    requires
        buf.len() == snap.len(),
        forall|k: int| 0 <= k < idxs.len() ==> (#[trigger] idxs[k]) < buf.len(),
        forall|i: int| 0 <= i < buf.len() && !touches(temp, i) ==> buf[i] == snap[i],
        forall|i: int| 0 <= i < buf.len() && touches(temp, i) ==> buf[i] == color,
        forall|k: int| 0 <= k < temp.len() ==> (#[trigger] temp[k]).after_data == color,
        forall|i: int| lookup(temp, i) is Some ==> lookup(temp, i)->Some_0.before_data == snap[i],
    ensures
        record_all(buf, idxs, color).1.len() == snap.len(),
        forall|i: int|
            0 <= i < snap.len() && !touches(temp + record_all(buf, idxs, color).0, i) ==> record_all(
                buf,
                idxs,
                color,
            ).1[i] == snap[i],
        forall|i: int|
            0 <= i < snap.len() && touches(temp + record_all(buf, idxs, color).0, i) ==> record_all(
                buf,
                idxs,
                color,
            ).1[i] == color,
        forall|k: int|
            0 <= k < (temp + record_all(buf, idxs, color).0).len() ==> (#[trigger] (temp
                + record_all(buf, idxs, color).0)[k]).after_data == color,
        forall|i: int|
            lookup(temp + record_all(buf, idxs, color).0, i) is Some ==> lookup(
                temp + record_all(buf, idxs, color).0,
                i,
            )->Some_0.before_data == snap[i],
    decreases idxs.len(),
{
    lemma_record_shape(buf, idxs, color);
    if idxs.len() == 0 {
        assert(temp + record_all(buf, idxs, color).0 =~= temp);
    } else {
        let i0 = idxs[0] as int;
        let e = PixelChange { buf_index: idxs[0], before_data: buf[i0], after_data: color };
        let buf1 = buf.update(i0, color);
        let temp1 = temp.push(e);
        // the pushed record keeps the session facts
        assert forall|i: int| 0 <= i < buf1.len() && !touches(temp1, i) implies buf1[i]
            == snap[i] by {
            assert(!touches(temp, i)) by {
                if touches(temp, i) {
                    let k = choose|k: int| 0 <= k < temp.len() && temp[k].buf_index == i;
                    assert(temp1[k] == temp[k]);
                }
            }
            assert(i != i0) by {
                assert(temp1.last() == e);
            }
        }
        assert forall|i: int| 0 <= i < buf1.len() && touches(temp1, i) implies buf1[i] == color by {
            let k = choose|k: int| 0 <= k < temp1.len() && temp1[k].buf_index == i;
            if k < temp.len() {
                assert(temp1[k] == temp[k]);
                assert(touches(temp, i));
            } else {
                assert(temp1[k] == e);
            }
        }
        assert forall|i: int|
            lookup(temp1, i) is Some implies lookup(temp1, i)->Some_0.before_data == snap[i] by {
            lemma_lookup_push(temp, e, i);
            if lookup(temp, i) is None && i == i0 {
                lemma_lookup_entry(temp, i);
                assert(!touches(temp, i));
                assert(e.before_data == buf[i0]);
            }
        }
        lemma_record_session(snap, temp1, buf1, idxs.drop_first(), color);
        let rest = record_all(buf1, idxs.drop_first(), color);
        assert(temp + record_all(buf, idxs, color).0 =~= temp1 + rest.0);
    }
}

/// Every record of a frozen stroke is a record of the raw stroke, so
/// bounds carry over.
pub proof fn lemma_freeze_in_bounds(f: Seq<PixelChange>, temp: Seq<PixelChange>, n: int)
    requires
        is_freeze_of(f, temp),
        in_bounds(temp, n),
    ensures
        in_bounds(f, n),
{
    assert forall|k: int| 0 <= k < f.len() implies (#[trigger] f[k]).buf_index < n by {
        lemma_lookup_entry(temp, f[k].buf_index as int);
    }
}

/// Undoing a freshly frozen stroke restores the pre-stroke raster
/// exactly: each frozen record's `before` value is the snapshot value
/// of its cell, and untouched cells never left the snapshot.
pub proof fn lemma_freeze_restores(
    snap: Seq<u32>,
    temp: Seq<PixelChange>,
    buf: Seq<u32>,
    f: Seq<PixelChange>,
)
    requires
        is_freeze_of(f, temp),
        buf.len() == snap.len(),
        forall|i: int| 0 <= i < buf.len() && !touches(temp, i) ==> buf[i] == snap[i],
        forall|i: int|
            lookup(temp, i) is Some ==> lookup(temp, i)->Some_0.before_data == snap[i],
    ensures
        replay(buf, f, false) =~= snap,
{
    assert forall|i: int| 0 <= i < buf.len() implies replay(buf, f, false)[i] == snap[i] by {
        lemma_lookup_entry(f, i);
        if lookup(f, i) is Some {
            let c = lookup(f, i)->Some_0;
            let k = choose|k: int| 0 <= k < f.len() && f[k] == c && f[k].buf_index == i;
            assert(lookup(temp, f[k].buf_index as int) == Option::Some(f[k]));
        } else {
            assert(!touches(f, i));
            if touches(temp, i) {
                lemma_lookup_entry(temp, i);
            }
        }
    }
}

/// A freshly frozen stroke's `after` values agree with the raster it
/// was frozen over: every touched cell holds the brush color, and
/// every record wrote it.
pub proof fn lemma_freeze_agrees_after(
    temp: Seq<PixelChange>,
    buf: Seq<u32>,
    f: Seq<PixelChange>,
    color: u32,
)
    requires
        is_freeze_of(f, temp),
        forall|i: int| 0 <= i < buf.len() && touches(temp, i) ==> buf[i] == color,
        forall|k: int| 0 <= k < temp.len() ==> (#[trigger] temp[k]).after_data == color,
        in_bounds(temp, buf.len() as int),
    ensures
        agrees_after(buf, f),
{
    assert forall|k: int| 0 <= k < f.len() implies buf[#[trigger] f[k].buf_index as int]
        == f[k].after_data by {
        lemma_lookup_entry(temp, f[k].buf_index as int);
        let c = lookup(temp, f[k].buf_index as int)->Some_0;
        let k2 = choose|k2: int|
            0 <= k2 < temp.len() && temp[k2] == c && temp[k2].buf_index == f[k].buf_index as int;
        assert(temp[k2].after_data == color);
    }
}

} // verus!
