use vstd::prelude::*;

verus! {

/// What rows are grouped by.
#[derive(Debug, PartialEq, Eq, Structural, Clone, Copy)]
pub enum GroupKey {
    Author,
    Path,
}

/// One stage of a query over stored commits.
#[derive(Debug)]
pub enum Stage {
    /// Keeps the commits dated strictly after the bound (seconds since the epoch).
    DateCutoff(i64),
    /// Keeps the commits that changed the path.
    TouchesPath(String),
    /// Turns each commit into one row per file change.
    Unwind,
    /// Keeps the rows whose path starts with the prefix.
    PrefixMatch(String),
    /// Keeps the rows whose path is the given one.
    PathIs(String),
    /// Drops the rows whose path is the given one.
    PathIsNot(String),
    /// Counts the rows.
    Count,
    /// Groups the rows by the key, counts each group, and ranks the groups by count,
    /// largest first.
    GroupByCount(GroupKey),
    /// Groups the commits by author, with each author's commit count and mean number of
    /// file changes, ranked by that mean, largest first.
    AverageFilesByAuthor,
}

pub enum StageView {
    DateCutoff(i64),
    TouchesPath(Seq<char>),
    Unwind,
    PrefixMatch(Seq<char>),
    PathIs(Seq<char>),
    PathIsNot(Seq<char>),
    Count,
    GroupByCount(GroupKey),
    AverageFilesByAuthor,
}

impl View for Stage {
    type V = StageView;

    open spec fn view(&self) -> StageView {
        match self {
            Stage::DateCutoff(t) => StageView::DateCutoff(*t),
            Stage::TouchesPath(p) => StageView::TouchesPath(p@),
            Stage::Unwind => StageView::Unwind,
            Stage::PrefixMatch(p) => StageView::PrefixMatch(p@),
            Stage::PathIs(p) => StageView::PathIs(p@),
            Stage::PathIsNot(p) => StageView::PathIsNot(p@),
            Stage::Count => StageView::Count,
            Stage::GroupByCount(k) => StageView::GroupByCount(*k),
            Stage::AverageFilesByAuthor => StageView::AverageFilesByAuthor,
        }
    }
}

pub open spec fn stages_view(v: Seq<Stage>) -> Seq<StageView> {
    v.map_values(|s: Stage| s@)
}

pub open spec fn opt_str_view(o: Option<&str>) -> Option<Seq<char>> {
    match o {
        Some(s) => Some(s@),
        None => None,
    }
}

/// The date-cutoff stage: present exactly when a bound is given.
pub open spec fn cutoff_stages(since: Option<i64>) -> Seq<StageView> {
    match since {
        Some(t) => seq![StageView::DateCutoff(t)],
        None => seq![],
    }
}

/// The prefix stage: present exactly when a prefix is given.
pub open spec fn prefix_stages(prefix: Option<Seq<char>>) -> Seq<StageView> {
    match prefix {
        Some(p) => seq![StageView::PrefixMatch(p)],
        None => seq![],
    }
}

/// The shared filter: the date cutoff, the unwind into file rows, the prefix match.
pub open spec fn filter_stages(since: Option<i64>, prefix: Option<Seq<char>>) -> Seq<StageView> {
    cutoff_stages(since) + seq![StageView::Unwind] + prefix_stages(prefix)
}

fn push_stage(v: &mut Vec<Stage>, s: Stage)
    ensures
        stages_view(final(v)@) == stages_view(old(v)@).push(s@),
{
    let ghost before = v@;
    v.push(s);
    assert(stages_view(v@) =~= stages_view(before).push(s@));
}

/// The date-cutoff stage for an optional bound: no stage at all when the bound is absent.
pub fn date_cutoff(since: Option<i64>) -> (r: Vec<Stage>)
    ensures
        stages_view(r@) == cutoff_stages(since),
{
    let mut v: Vec<Stage> = Vec::new();
    assert(stages_view(v@) =~= Seq::<StageView>::empty());
    if let Some(t) = since {
        push_stage(&mut v, Stage::DateCutoff(t));
        assert(stages_view(v@) =~= cutoff_stages(since));
    }
    v
}

/// The shared filter stages: date cutoff when a bound is given, the unwind into one row
/// per file change, then the prefix match when a prefix is given.
pub fn create_filter(since_date: Option<i64>, file_prefix: Option<&str>) -> (r: Vec<Stage>)
    ensures
        stages_view(r@) == filter_stages(since_date, opt_str_view(file_prefix)),
{
    let mut v = date_cutoff(since_date);
    push_stage(&mut v, Stage::Unwind);
    if let Some(p) = file_prefix {
        push_stage(&mut v, Stage::PrefixMatch(String::from_str(p)));
    }
    assert(stages_view(v@) =~= filter_stages(since_date, opt_str_view(file_prefix)));
    v
}

/// The per-author average of files changed per commit.
pub fn file_per_commit_pipeline() -> (r: Vec<Stage>)
    ensures
        stages_view(r@) == seq![StageView::AverageFilesByAuthor],
{
    let mut v: Vec<Stage> = Vec::new();
    push_stage(&mut v, Stage::AverageFilesByAuthor);
    assert(stages_view(v@) =~= seq![StageView::AverageFilesByAuthor]);
    v
}

/// The file-coupling query: a shared filter on the commits that touched the file, then two
/// branches run on its output, one counting those commits, one ranking the other files.
pub struct CouplingPipeline {
    pub filter: Vec<Stage>,
    pub total_commits: Vec<Stage>,
    pub seen_with: Vec<Stage>,
}

pub open spec fn coupling_filter(filename: Seq<char>, since: Option<i64>) -> Seq<StageView> {
    cutoff_stages(since) + seq![StageView::TouchesPath(filename)]
}

pub open spec fn coupling_seen_with(filename: Seq<char>) -> Seq<StageView> {
    seq![StageView::Unwind, StageView::PathIsNot(filename), StageView::GroupByCount(GroupKey::Path)]
}

/// The coupling query of `filename`, with an optional lower date bound.
pub fn file_coupling_pipeline(filename: &str, since_date: Option<i64>) -> (r: CouplingPipeline)
    ensures
        stages_view(r.filter@) == coupling_filter(filename@, since_date),
        stages_view(r.total_commits@) == seq![StageView::Count],
        stages_view(r.seen_with@) == coupling_seen_with(filename@),
{
    let mut filter = date_cutoff(since_date);
    push_stage(&mut filter, Stage::TouchesPath(String::from_str(filename)));
    assert(stages_view(filter@) =~= coupling_filter(filename@, since_date));
    let mut total_commits: Vec<Stage> = Vec::new();
    push_stage(&mut total_commits, Stage::Count);
    assert(stages_view(total_commits@) =~= seq![StageView::Count]);
    let mut seen_with: Vec<Stage> = Vec::new();
    push_stage(&mut seen_with, Stage::Unwind);
    push_stage(&mut seen_with, Stage::PathIsNot(String::from_str(filename)));
    push_stage(&mut seen_with, Stage::GroupByCount(GroupKey::Path));
    assert(stages_view(seen_with@) =~= coupling_seen_with(filename@));
    CouplingPipeline { filter, total_commits, seen_with }
}

pub open spec fn ownership_stages(filename: Seq<char>, since: Option<i64>) -> Seq<StageView> {
    cutoff_stages(since) + seq![
        StageView::Unwind,
        StageView::PathIs(filename),
        StageView::GroupByCount(GroupKey::Author),
    ]
}

/// The ownership query of `filename`: its changes per author, ranked.
pub fn file_ownership_pipeline(filename: &str, since_date: Option<i64>) -> (r: Vec<Stage>)
    ensures
        stages_view(r@) == ownership_stages(filename@, since_date),
{
    let mut v = date_cutoff(since_date);
    push_stage(&mut v, Stage::Unwind);
    push_stage(&mut v, Stage::PathIs(String::from_str(filename)));
    push_stage(&mut v, Stage::GroupByCount(GroupKey::Author));
    assert(stages_view(v@) =~= ownership_stages(filename@, since_date));
    v
}

pub open spec fn activity_stages(since: Option<i64>, prefix: Option<Seq<char>>) -> Seq<StageView> {
    filter_stages(since, prefix) + seq![StageView::GroupByCount(GroupKey::Path)]
}

/// The activity query: changes per file, ranked, with an optional date bound and path
/// prefix.
pub fn file_activity_pipeline(since_date: Option<i64>, file_prefix: Option<&str>) -> (r: Vec<Stage>)
    ensures
        stages_view(r@) == activity_stages(since_date, opt_str_view(file_prefix)),
{
    let mut v = create_filter(since_date, file_prefix);
    push_stage(&mut v, Stage::GroupByCount(GroupKey::Path));
    assert(stages_view(v@) =~= activity_stages(since_date, opt_str_view(file_prefix)));
    v
}

/// Without a bound, the date cutoff adds no stage: every query is, stage for stage, the
/// same pipeline with the cutoff left out; with a bound it adds exactly one stage, first.
pub proof fn lemma_absent_cutoff_is_omitted(rest: Seq<StageView>, t: i64)
    ensures
        cutoff_stages(None) + rest == rest,
        cutoff_stages(Some(t)) + rest == seq![StageView::DateCutoff(t)] + rest,
        filter_stages(None, None) == seq![StageView::Unwind],
        forall|f: Seq<char>| #[trigger]
            coupling_filter(f, None) == seq![StageView::TouchesPath(f)],
        forall|f: Seq<char>| #[trigger]
            ownership_stages(f, None) == seq![
                StageView::Unwind,
                StageView::PathIs(f),
                StageView::GroupByCount(GroupKey::Author),
            ],
        forall|p: Option<Seq<char>>| #[trigger]
            activity_stages(None, p) == seq![StageView::Unwind] + prefix_stages(p) + seq![
                StageView::GroupByCount(GroupKey::Path),
            ],
{
    assert(cutoff_stages(None) + rest =~= rest);
    assert forall|f: Seq<char>| #[trigger]
        coupling_filter(f, None) == seq![StageView::TouchesPath(f)] by {
        assert(coupling_filter(f, None) =~= seq![StageView::TouchesPath(f)]);
    }
    assert forall|f: Seq<char>| #[trigger]
        ownership_stages(f, None) == seq![
            StageView::Unwind,
            StageView::PathIs(f),
            StageView::GroupByCount(GroupKey::Author),
        ] by {
        assert(ownership_stages(f, None) =~= seq![
            StageView::Unwind,
            StageView::PathIs(f),
            StageView::GroupByCount(GroupKey::Author),
        ]);
    }
    assert forall|p: Option<Seq<char>>| #[trigger]
        activity_stages(None, p) == seq![StageView::Unwind] + prefix_stages(p) + seq![
            StageView::GroupByCount(GroupKey::Path),
        ] by {
        assert(activity_stages(None, p) =~= seq![StageView::Unwind] + prefix_stages(p) + seq![
            StageView::GroupByCount(GroupKey::Path),
        ]);
    }
    assert(filter_stages(None, None) =~= seq![StageView::Unwind]);
}

} // verus!
