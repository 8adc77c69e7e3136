//! The widths of the glyphs in use, kept by glyph id, and their grouping into
//! runs of glyph ids that follow each other.

use vstd::prelude::*;

verus! {

/// The width of one glyph.
#[derive(Debug, Clone, Copy)]
pub struct GlyphWidth {
    pub cid: u16,
    pub width: i64,
}

/// The widths of glyphs, at most one for each glyph id, ordered by glyph id.
#[derive(Debug)]
pub struct WidthMap {
    entries: Vec<GlyphWidth>,
}

/// The widths of the glyphs `start_cid`, `start_cid + 1`, and so on.
#[derive(Debug)]
pub struct WidthRun {
    pub start_cid: u16,
    pub widths: Vec<i64>,
}

/// True when the glyph ids of `entries` grow from each entry to the next.
pub open spec fn ascending(entries: Seq<GlyphWidth>) -> bool {
    forall|i: int, j: int|
        0 <= i < j < entries.len() ==> (#[trigger] entries[i]).cid < (#[trigger] entries[j]).cid
}

/// Number of entries at the start of `entries` whose glyph id is below
/// `cid`.
pub open spec fn count_below(entries: Seq<GlyphWidth>, cid: int) -> int
    decreases entries.len(),
{
    if entries.len() > 0 && entries[0].cid < cid {
        1 + count_below(entries.drop_first(), cid)
    } else {
        0
    }
}

/// `entries` with the width `width` for the glyph `cid`, in the place of the
/// width it had for that glyph, if any.
pub open spec fn with_width(entries: Seq<GlyphWidth>, cid: u16, width: i64) -> Seq<GlyphWidth> {
    let p = count_below(entries, cid as int);
    let q = if p < entries.len() && entries[p].cid == cid {
        p + 1
    } else {
        p
    };
    entries.take(p).push(GlyphWidth { cid, width }) + entries.skip(q)
}

/// The entries that a run stands for.
pub open spec fn run_entries(run: WidthRun) -> Seq<GlyphWidth> {
    Seq::new(
        run.widths@.len(),
        |k: int| GlyphWidth { cid: (run.start_cid + k) as u16, width: run.widths@[k] },
    )
}

/// The entries that the runs stand for, run after run.
pub open spec fn all_run_entries(runs: Seq<WidthRun>) -> Seq<GlyphWidth>
    decreases runs.len(),
{
    if runs.len() == 0 {
        Seq::empty()
    } else {
        all_run_entries(runs.drop_last()) + run_entries(runs.last())
    }
}

/// True when no run is empty, no run reaches past the last glyph id, and no
/// run goes on where the run before it ends.
pub open spec fn maximal_runs(runs: Seq<WidthRun>) -> bool {
    &&& forall|r: int|
        0 <= r < runs.len() ==> (#[trigger] runs[r]).widths@.len() > 0 && runs[r].start_cid
            + runs[r].widths@.len() <= 65536
    &&& forall|r: int|
        0 <= r < runs.len() - 1 ==> (#[trigger] runs[r]).start_cid + runs[r].widths@.len()
            < runs[r + 1].start_cid
}

/// The entries below `cid` are the first `count_below` entries, and no
/// other.
pub proof fn lemma_count_below(entries: Seq<GlyphWidth>, cid: int)
    requires
        ascending(entries),
    ensures
        0 <= count_below(entries, cid) <= entries.len(),
        forall|i: int| 0 <= i < count_below(entries, cid) ==> (#[trigger] entries[i]).cid < cid,
        forall|i: int|
            count_below(entries, cid) <= i < entries.len() ==> (#[trigger] entries[i]).cid >= cid,
    decreases entries.len(),
{
    if entries.len() > 0 && entries[0].cid < cid {
        let rest = entries.drop_first();
        assert forall|i: int, j: int| 0 <= i < j < rest.len() implies (#[trigger] rest[i]).cid < (
        #[trigger] rest[j]).cid by {
            assert(rest[i] == entries[i + 1] && rest[j] == entries[j + 1]);
        }
        lemma_count_below(rest, cid);
        let p = count_below(entries, cid);
        assert forall|i: int| 0 <= i < p implies (#[trigger] entries[i]).cid < cid by {
            if i > 0 {
                assert(rest[i - 1] == entries[i]);
            }
        }
        assert forall|i: int| p <= i < entries.len() implies (#[trigger] entries[i]).cid
            >= cid by {
            assert(rest[i - 1] == entries[i]);
        }
    } else if entries.len() > 0 {
        assert forall|i: int| 0 <= i < entries.len() implies (#[trigger] entries[i]).cid
            >= cid by {
            if i > 0 {
                assert(entries[0].cid < entries[i].cid);
            }
        }
    }
}

/// Setting a width keeps the glyph ids in order.
pub proof fn lemma_with_width_ascending(entries: Seq<GlyphWidth>, cid: u16, width: i64)
    requires
        ascending(entries),
    ensures
        ascending(with_width(entries, cid, width)),
{
    lemma_count_below(entries, cid as int);
    let p = count_below(entries, cid as int);
    let q = if p < entries.len() && entries[p].cid == cid {
        p + 1
    } else {
        p
    };
    let out = with_width(entries, cid, width);
    assert forall|i: int, j: int| 0 <= i < j < out.len() implies (#[trigger] out[i]).cid < (
    #[trigger] out[j]).cid by {
        if j < p {
            assert(out[i] == entries[i] && out[j] == entries[j]);
        } else if j == p {
            assert(out[i] == entries[i]);
        } else {
            assert(out[j] == entries[j - p - 1 + q]);
            if q > p {
                assert(entries[p].cid < entries[j - p - 1 + q].cid);
            }
            if i < p {
                assert(out[i] == entries[i]);
            } else if i > p {
                assert(out[i] == entries[i - p - 1 + q]);
            }
        }
    }
}

impl WidthMap {
    /// The widths, ordered by glyph id.
    pub closed spec fn entries(&self) -> Seq<GlyphWidth> {
        self.entries@
    }

    /// True when the map holds at most one width for each glyph id, ordered
    /// by glyph id.
    pub open spec fn wf(&self) -> bool {
        ascending(self.entries())
    }

    /// A map without widths.
    pub fn new() -> (map: Self)
        ensures
            map.wf(),
            map.entries() == Seq::<GlyphWidth>::empty(),
    {
        WidthMap { entries: Vec::new() }
    }

    /// Number of glyphs that have a width.
    pub fn len(&self) -> (len: usize)
        ensures
            len == self.entries().len(),
    {
        self.entries.len()
    }

    /// The widths, ordered by glyph id.
    pub fn as_slice(&self) -> (entries: &[GlyphWidth])
        ensures
            entries@ == self.entries(),
    {
        self.entries.as_slice()
    }

    /// Sets the width of the glyph `cid` to `width`.
    pub fn insert(&mut self, cid: u16, width: i64)
        requires
            old(self).wf(),
        ensures
            final(self).wf(),
            final(self).entries() == with_width(old(self).entries(), cid, width),
    {
        let ghost before = self.entries@;
        proof {
            lemma_count_below(before, cid as int);
            lemma_with_width_ascending(before, cid, width);
        }
        let n = self.entries.len();
        let mut p: usize = 0;
        while p < n && self.entries[p].cid < cid
            invariant
                p <= n,
                n == self.entries@.len(),
                self.entries@ == before,
                ascending(before),
                forall|i: int| 0 <= i < p ==> (#[trigger] before[i]).cid < cid,
            decreases n - p,
        {
            p += 1;
        }
        proof {
            let c = count_below(before, cid as int);
            if c < p {
                assert(before[c].cid < cid);
            }
            if p < c {
                assert(before[p as int].cid < cid);
            }
            assert(c == p);
        }
        if p < n && self.entries[p].cid == cid {
            self.entries.set(p, GlyphWidth { cid, width });
            assert(self.entries@ =~= with_width(before, cid, width));
        } else {
            self.entries.insert(p, GlyphWidth { cid, width });
            assert(self.entries@ =~= with_width(before, cid, width));
        }
    }
}

/// Groups the widths into runs of glyph ids that follow each other: each
/// run holds the widths of as many glyphs in a row as the map has.
pub fn build_w_array(widths_map: &WidthMap) -> (runs: Vec<WidthRun>)
    requires
        widths_map.wf(),
    ensures
        all_run_entries(runs@) == widths_map.entries(),
        maximal_runs(runs@),
{
    let entries = widths_map.as_slice();
    let n = entries.len();
    let mut runs: Vec<WidthRun> = Vec::new();
    let mut i: usize = 0;
    proof {
        assert(entries@.take(0) =~= Seq::<GlyphWidth>::empty());
    }
    while i < n
        invariant
            i <= n,
            n == entries@.len(),
            ascending(entries@),
            all_run_entries(runs@) == entries@.take(i as int),
            maximal_runs(runs@),
            runs@.len() > 0 ==> i > 0 && runs@.last().start_cid + runs@.last().widths@.len()
                == entries@[i - 1].cid + 1,
            runs@.len() > 0 && i < n ==> runs@.last().start_cid + runs@.last().widths@.len()
                < entries@[i as int].cid,
        decreases n - i,
    {
        let start_cid = entries[i].cid;
        let mut run: Vec<i64> = Vec::new();
        run.push(entries[i].width);
        let first = i;
        i += 1;
        while i < n && entries[i].cid as usize == start_cid as usize + (i - first)
            invariant
                first < i <= n,
                n == entries@.len(),
                ascending(entries@),
                start_cid == entries@[first as int].cid,
                run@.len() == i - first,
                start_cid + (i - first) <= 65536,
                forall|k: int|
                    0 <= k < i - first ==> (#[trigger] entries@[first + k]).cid == start_cid + k
                        && entries@[first + k].width == run@[k],
            decreases n - i,
        {
            run.push(entries[i].width);
            i += 1;
        }
        let ghost before = runs@;
        let new_run = WidthRun { start_cid, widths: run };
        proof {
            assert(entries@[first as int + (i - first - 1)].cid == start_cid + (i - first - 1));
            assert(run_entries(new_run) =~= entries@.subrange(first as int, i as int)) by {
                assert forall|k: int| 0 <= k < i - first implies run_entries(new_run)[k]
                    == entries@.subrange(first as int, i as int)[k] by {
                    assert(entries@[first + k].cid == start_cid + k);
                }
            }
            assert(entries@.take(first as int) + entries@.subrange(first as int, i as int)
                =~= entries@.take(i as int));
            if i < n {
                assert(entries@[i - 1].cid < entries@[i as int].cid);
            }
        }
        runs.push(new_run);
        proof {
            assert(runs@.drop_last() =~= before);
            assert forall|r: int| 0 <= r < runs@.len() implies (#[trigger] runs@[r]).widths@.len()
                > 0 && runs@[r].start_cid + runs@[r].widths@.len() <= 65536 by {
                if r < before.len() {
                    assert(runs@[r] == before[r]);
                }
            }
            assert forall|r: int| 0 <= r < runs@.len() - 1 implies (#[trigger] runs@[r]).start_cid
                + runs@[r].widths@.len() < runs@[r + 1].start_cid by {
                assert(runs@[r] == before[r]);
                if r + 1 < before.len() {
                    assert(runs@[r + 1] == before[r + 1]);
                }
            }
        }
    }
    proof {
        assert(entries@.take(n as int) =~= entries@);
    }
    runs
}

} // verus!
