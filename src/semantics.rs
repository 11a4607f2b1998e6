use vstd::prelude::*;

use crate::model::{CommitView, FileChangeView};
use crate::pipeline::{coupling_filter, coupling_seen_with, GroupKey, StageView};

verus! {

/// A row that a query stage sees: a stored commit, and after the unwind one of its file
/// changes.
pub struct Row {
    pub commit: CommitView,
    pub file: Option<FileChangeView>,
}

/// The stored commits, one row each, as the first stage sees them.
pub open spec fn commit_rows(cs: Seq<CommitView>) -> Seq<Row> {
    cs.map_values(|c: CommitView| Row { commit: c, file: None })
}

/// The commit changed the path.
pub open spec fn touches(c: CommitView, p: Seq<char>) -> bool {
    exists|i: int| 0 <= i < c.files.len() && #[trigger] c.files[i].filename == p
}

pub open spec fn row_path(r: Row) -> Option<Seq<char>> {
    match r.file {
        Some(f) => Some(f.filename),
        None => None,
    }
}

/// Whether a filtering stage keeps the row.
pub open spec fn keeps(s: StageView, r: Row) -> bool {
    match s {
        StageView::DateCutoff(t) => r.commit.date > t,
        StageView::TouchesPath(p) => touches(r.commit, p),
        StageView::PrefixMatch(p) => row_path(r) is Some && p.is_prefix_of(row_path(r)->0),
        StageView::PathIs(p) => row_path(r) == Some(p),
        StageView::PathIsNot(p) => row_path(r) != Some(p),
        _ => true,
    }
}

/// The rows that a filtering stage keeps, in order.
pub open spec fn keep_rows(s: StageView, rows: Seq<Row>) -> Seq<Row>
    decreases rows.len(),
{
    if rows.len() == 0 {
        seq![]
    } else if keeps(s, rows.last()) {
        keep_rows(s, rows.drop_last()).push(rows.last())
    } else {
        keep_rows(s, rows.drop_last())
    }
}

/// One row per file change of the commit.
pub open spec fn file_rows(c: CommitView) -> Seq<Row> {
    c.files.map_values(|f: FileChangeView| Row { commit: c, file: Some(f) })
}

/// The unwind: each row becomes one row per file change of its commit.
pub open spec fn unwind_rows(rows: Seq<Row>) -> Seq<Row>
    decreases rows.len(),
{
    if rows.len() == 0 {
        seq![]
    } else {
        unwind_rows(rows.drop_last()) + file_rows(rows.last().commit)
    }
}

/// The rows after one stage; an aggregating stage passes its input on to be aggregated.
pub open spec fn apply_stage(s: StageView, rows: Seq<Row>) -> Seq<Row> {
    match s {
        StageView::Unwind => unwind_rows(rows),
        StageView::Count => rows,
        StageView::GroupByCount(_) => rows,
        StageView::AverageFilesByAuthor => rows,
        _ => keep_rows(s, rows),
    }
}

/// The rows after a sequence of stages.
pub open spec fn apply_stages(stages: Seq<StageView>, rows: Seq<Row>) -> Seq<Row>
    decreases stages.len(),
{
    if stages.len() == 0 {
        rows
    } else {
        apply_stages(stages.drop_first(), apply_stage(stages[0], rows))
    }
}

pub open spec fn group_key(k: GroupKey, r: Row) -> Option<Seq<char>> {
    match k {
        GroupKey::Author => Some(r.commit.author),
        GroupKey::Path => row_path(r),
    }
}

/// The number of rows whose key is `key`.
pub open spec fn count_with_key(rows: Seq<Row>, k: GroupKey, key: Seq<char>) -> nat
    decreases rows.len(),
{
    if rows.len() == 0 {
        0
    } else {
        count_with_key(rows.drop_last(), k, key) + if group_key(k, rows.last()) == Some(key) {
            1nat
        } else {
            0nat
        }
    }
}

/// The counts that a group-and-count stage ranks: each key that occurs, with its rows.
pub open spec fn group_counts(rows: Seq<Row>, k: GroupKey) -> Map<Seq<char>, nat> {
    Map::new(
        |key: Seq<char>| exists|i: int| 0 <= i < rows.len() && group_key(k, rows[i]) == Some(key),
        |key: Seq<char>| count_with_key(rows, k, key),
    )
}

/// The coupling query's count: the commits that touched `f` after the bound.
pub open spec fn coupling_total(cs: Seq<CommitView>, f: Seq<char>, since: Option<i64>) -> nat {
    apply_stages(coupling_filter(f, since), commit_rows(cs)).len()
}

/// The coupling query's ranking: every other file of those commits, with its count.
pub open spec fn coupling_counts(cs: Seq<CommitView>, f: Seq<char>, since: Option<i64>) -> Map<
    Seq<char>,
    nat,
> {
    group_counts(
        apply_stages(coupling_seen_with(f), apply_stages(coupling_filter(f, since), commit_rows(cs))),
        GroupKey::Path,
    )
}

proof fn lemma_keep_preserves_untouched(s: StageView, rows: Seq<Row>, f: Seq<char>)
    requires
        forall|i: int| 0 <= i < rows.len() && keeps(s, rows[i]) ==> !touches(#[trigger] rows[i].commit, f),
    ensures
        forall|i: int|
            0 <= i < keep_rows(s, rows).len() ==> !touches(#[trigger] keep_rows(s, rows)[i].commit, f),
    decreases rows.len(),
{
    if rows.len() > 0 {
        let front = rows.drop_last();
        assert forall|i: int| 0 <= i < front.len() && keeps(s, front[i]) implies !touches(#[trigger] front[i].commit, f) by {
            assert(front[i] == rows[i]);
        }
        lemma_keep_preserves_untouched(s, front, f);
        if keeps(s, rows.last()) {
            assert(!touches(rows[rows.len() - 1].commit, f));
        }
    }
}

proof fn lemma_keep_touching_none(rows: Seq<Row>, f: Seq<char>)
    requires
        forall|i: int| 0 <= i < rows.len() ==> !touches(#[trigger] rows[i].commit, f),
    ensures
        keep_rows(StageView::TouchesPath(f), rows).len() == 0,
    decreases rows.len(),
{
    if rows.len() > 0 {
        let front = rows.drop_last();
        assert forall|i: int| 0 <= i < front.len() implies !touches(#[trigger] front[i].commit, f) by {
            assert(front[i] == rows[i]);
        }
        lemma_keep_touching_none(front, f);
        assert(!touches(rows[rows.len() - 1].commit, f));
    }
}

proof fn lemma_stages_on_no_rows(stages: Seq<StageView>)
    ensures
        apply_stages(stages, seq![]).len() == 0,
    decreases stages.len(),
{
    if stages.len() > 0 {
        let s = stages[0];
        assert(apply_stage(s, seq![]) =~= Seq::<Row>::empty()) by {
            assert(unwind_rows(Seq::<Row>::empty()) =~= Seq::<Row>::empty());
            assert(keep_rows(s, Seq::<Row>::empty()) =~= Seq::<Row>::empty());
        }
        lemma_stages_on_no_rows(stages.drop_first());
    }
}

/// The commit lies inside the date window: any commit without a bound, else those dated
/// strictly after it.
pub open spec fn in_window(c: CommitView, since: Option<i64>) -> bool {
    match since {
        Some(t) => c.date > t,
        None => true,
    }
}

/// Coupling of a file that no stored commit inside the date window changed: a count of zero
/// and nothing ranked.
pub proof fn lemma_coupling_of_absent_path(cs: Seq<CommitView>, f: Seq<char>, since: Option<i64>)
    requires
        forall|i: int| 0 <= i < cs.len() && in_window(cs[i], since) ==> !touches(#[trigger] cs[i], f),
    ensures
        coupling_total(cs, f, since) == 0,
        coupling_counts(cs, f, since) == Map::<Seq<char>, nat>::empty(),
{
    let rows = commit_rows(cs);
    assert forall|i: int| 0 <= i < rows.len() && in_window(rows[i].commit, since) implies !touches(
        #[trigger] rows[i].commit,
        f,
    ) by {
        assert(rows[i].commit == cs[i]);
    }
    let stages = coupling_filter(f, since);
    let touch = StageView::TouchesPath(f);
    let filtered = match since {
        Some(t) => {
            let cut = StageView::DateCutoff(t);
            assert(stages =~= seq![cut, touch]);
            assert(stages.drop_first() =~= seq![touch]);
            assert(seq![touch].drop_first() =~= Seq::<StageView>::empty());
            let kept = keep_rows(cut, rows);
            assert forall|i: int| 0 <= i < rows.len() && keeps(cut, rows[i]) implies !touches(
                #[trigger] rows[i].commit,
                f,
            ) by {
                assert(in_window(rows[i].commit, since));
            }
            lemma_keep_preserves_untouched(cut, rows, f);
            lemma_keep_touching_none(kept, f);
            assert(stages[0] == cut);
            assert(apply_stages(stages, rows) == apply_stages(stages.drop_first(), kept));
            assert(seq![touch][0] == touch);
            assert(apply_stages(seq![touch], kept) == apply_stages(
                Seq::<StageView>::empty(),
                keep_rows(touch, kept),
            ));
            assert(apply_stages(Seq::<StageView>::empty(), keep_rows(touch, kept)) == keep_rows(touch, kept));
            keep_rows(touch, kept)
        },
        None => {
            assert(stages =~= seq![touch]);
            assert(stages.drop_first() =~= Seq::<StageView>::empty());
            lemma_keep_touching_none(rows, f);
            assert(stages[0] == touch);
            assert(apply_stages(stages, rows) == apply_stages(
                Seq::<StageView>::empty(),
                keep_rows(touch, rows),
            ));
            assert(apply_stages(Seq::<StageView>::empty(), keep_rows(touch, rows)) == keep_rows(touch, rows));
            keep_rows(touch, rows)
        },
    };
    assert(apply_stages(stages, rows) == filtered);
    assert(filtered =~= Seq::<Row>::empty());
    lemma_stages_on_no_rows(coupling_seen_with(f));
    let seen = apply_stages(coupling_seen_with(f), filtered);
    assert(seen =~= Seq::<Row>::empty());
    assert(group_counts(seen, GroupKey::Path) =~= Map::<Seq<char>, nat>::empty());
}

} // verus!
