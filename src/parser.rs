use vstd::prelude::*;

use crate::model::{
    commits_view, files_view, opt_commit_view, CommitView, FileChange, FileChangeView, GitCommit,
};
use crate::text::{
    blank, chars_of, count_of, decimal_text, digits_of, find_marker, find_non_ws, find_ws,
    is_ascii_ws, is_blank, next_marker, parse_count, skip_token, skip_ws, starts_with_marker,
};
use crate::timestamp::{format_rfc3339, parse_rfc3339_seconds, rfc3339_seconds, rfc3339_text};

verus! {

/// Why a log could not be read.
#[derive(Debug, PartialEq, Eq, Structural, Clone, Copy)]
pub enum ParseError {
    /// A line that opens with `--` holds fewer than four `--`-separated fields.
    MalformedHeader,
    /// A header's date is no RFC 3339 timestamp.
    BadDate,
    /// A stat line holds fewer than three whitespace-separated tokens.
    MalformedStatLine,
}

/// The four fields of a header line `--<hash>--<date>--<author>--<summary>`; text after a
/// fifth marker is dropped.
pub open spec fn header_fields(s: Seq<char>) -> Option<(Seq<char>, Seq<char>, Seq<char>, Seq<char>)> {
    let m1 = next_marker(s, 2);
    let m2 = next_marker(s, m1 + 2);
    let m3 = next_marker(s, m2 + 2);
    let m4 = next_marker(s, m3 + 2);
    if m3 >= s.len() {
        None
    } else {
        Some(
            (
                s.subrange(2, m1),
                s.subrange(m1 + 2, m2),
                s.subrange(m2 + 2, m3),
                s.subrange(m3 + 2, m4),
            ),
        )
    }
}

/// The file change of a stat line `<added> <deleted> <path>`: the first two tokens are read
/// as counts, the path is the rest of the line from the third token on.
pub open spec fn stat_change(s: Seq<char>) -> Option<FileChangeView> {
    let a0 = skip_ws(s, 0);
    let a1 = skip_token(s, a0);
    let d0 = skip_ws(s, a1);
    let d1 = skip_token(s, d0);
    let p0 = skip_ws(s, d1);
    if p0 >= s.len() {
        None
    } else {
        Some(
            FileChangeView {
                added: count_of(s.subrange(a0, a1)),
                deleted: count_of(s.subrange(d0, d1)),
                filename: s.subrange(p0, s.len() as int),
            },
        )
    }
}

/// One line read with `cur` in progress: the record it completes, if any, and the record
/// in progress after it.
pub open spec fn step(cur: Option<CommitView>, line: Seq<char>) -> Result<
    (Option<CommitView>, Option<CommitView>),
    ParseError,
> {
    if is_blank(line) {
        Ok((None, cur))
    } else if starts_with_marker(line) {
        match header_fields(line) {
            None => Err(ParseError::MalformedHeader),
            Some((h, d, a, s)) => match rfc3339_seconds(d) {
                None => Err(ParseError::BadDate),
                Some(t) => Ok(
                    (cur, Some(CommitView { commit: h, date: t, author: a, summary: s, files: seq![] })),
                ),
            },
        }
    } else {
        match cur {
            None => Ok((None, None)),
            Some(c) => match stat_change(line) {
                None => Err(ParseError::MalformedStatLine),
                Some(f) => Ok(
                    (
                        None,
                        Some(
                            CommitView {
                                commit: c.commit,
                                date: c.date,
                                author: c.author,
                                summary: c.summary,
                                files: c.files.push(f),
                            },
                        ),
                    ),
                ),
            },
        }
    }
}

pub open spec fn opt_seq(c: Option<CommitView>) -> Seq<CommitView> {
    match c {
        Some(c) => seq![c],
        None => seq![],
    }
}

/// The records completed and the record in progress after reading `lines`.
pub open spec fn run(done: Seq<CommitView>, cur: Option<CommitView>, lines: Seq<Seq<char>>) -> Result<
    (Seq<CommitView>, Option<CommitView>),
    ParseError,
>
    decreases lines.len(),
{
    if lines.len() == 0 {
        Ok((done, cur))
    } else {
        match step(cur, lines[0]) {
            Err(e) => Err(e),
            Ok((em, c2)) => run(done + opt_seq(em), c2, lines.drop_first()),
        }
    }
}

/// The records of a whole log: every completed one, then the one still in progress.
pub open spec fn parse_lines(lines: Seq<Seq<char>>) -> Result<Seq<CommitView>, ParseError> {
    match run(seq![], None, lines) {
        Ok((done, cur)) => Ok(done + opt_seq(cur)),
        Err(e) => Err(e),
    }
}

pub open spec fn lines_view(ls: Seq<String>) -> Seq<Seq<char>> {
    ls.map_values(|l: String| l@)
}

fn split_header(line: &str, cs: &Vec<char>) -> (r: Option<(String, String, String, String)>)
    requires
        cs@ == line@,
    ensures
        match r {
            Some((h, d, a, m)) => header_fields(line@) == Some((h@, d@, a@, m@)),
            None => header_fields(line@) is None,
        },
{
    let ghost s = cs@;
    if cs.len() < 2 {
        return None;
    }
    let m1 = find_marker(cs, 2);
    if m1 == cs.len() {
        assert(next_marker(s, m1 + 2) == s.len());
        assert(next_marker(s, s.len() as int + 2) == s.len());
        return None;
    }
    let m2 = find_marker(cs, m1 + 2);
    if m2 == cs.len() {
        assert(next_marker(s, s.len() as int + 2) == s.len());
        return None;
    }
    let m3 = find_marker(cs, m2 + 2);
    if m3 == cs.len() {
        return None;
    }
    let m4 = find_marker(cs, m3 + 2);
    Some(
        (
            String::from_str(line.substring_char(2, m1)),
            String::from_str(line.substring_char(m1 + 2, m2)),
            String::from_str(line.substring_char(m2 + 2, m3)),
            String::from_str(line.substring_char(m3 + 2, m4)),
        ),
    )
}

fn split_stat(line: &str, cs: &Vec<char>) -> (r: Option<FileChange>)
    requires
        cs@ == line@,
    ensures
        stat_change(line@) is None <==> r is None,
        r is Some ==> stat_change(line@) == Some(r->0@),
{
    let a0 = find_non_ws(cs, 0);
    let a1 = find_ws(cs, a0);
    let d0 = find_non_ws(cs, a1);
    let d1 = find_ws(cs, d0);
    let p0 = find_non_ws(cs, d1);
    if p0 == cs.len() {
        return None;
    }
    let added = parse_count(cs, a0, a1);
    let deleted = parse_count(cs, d0, d1);
    let filename = String::from_str(line.substring_char(p0, cs.len()));
    Some(FileChange { added, deleted, filename })
}

/// Assembles commit records from log lines one line at a time, holding only the record in
/// progress.
pub struct CommitParser {
    current: Option<GitCommit>,
}

impl CommitParser {
    /// The record in progress.
    pub closed spec fn in_progress(&self) -> Option<CommitView> {
        opt_commit_view(self.current)
    }

    pub fn new() -> (r: Self)
        ensures
            r.in_progress() is None,
    {
        CommitParser { current: None }
    }

    /// Reads one line. A header completes the record in progress, which is handed back,
    /// and opens a new one; a stat line adds a file change to the record in progress; a
    /// blank line, or a stat line before any header, changes nothing.
    pub fn feed(&mut self, line: &str) -> (r: Result<Option<GitCommit>, ParseError>)
        ensures
            match step(old(self).in_progress(), line@) {
                Ok((em, c)) => r is Ok && opt_commit_view(r->Ok_0) == em
                    && final(self).in_progress() == c,
                Err(e) => r == Err::<Option<GitCommit>, ParseError>(e),
            },
    {
        let cs = chars_of(line);
        if blank(&cs) {
            return Ok(None);
        }
        if cs.len() >= 2 && cs[0] == '-' && cs[1] == '-' {
            match split_header(line, &cs) {
                None => Err(ParseError::MalformedHeader),
                Some((commit, date_text, author, summary)) => {
                    match parse_rfc3339_seconds(date_text.as_str()) {
                        None => Err(ParseError::BadDate),
                        Some(date) => {
                            let files: Vec<FileChange> = Vec::new();
                            let fresh = GitCommit { commit, date, author, summary, files };
                            assert(files_view(fresh.files@) =~= Seq::<FileChangeView>::empty());
                            let prev = self.current.take();
                            self.current = Some(fresh);
                            Ok(prev)
                        },
                    }
                },
            }
        } else {
            match self.current.take() {
                None => Ok(None),
                Some(c) => match split_stat(line, &cs) {
                    None => {
                        self.current = Some(c);
                        Err(ParseError::MalformedStatLine)
                    },
                    Some(f) => {
                        let mut c = c;
                        let ghost before = c.files@;
                        c.files.push(f);
                        assert(files_view(c.files@) =~= files_view(before).push(f@));
                        self.current = Some(c);
                        Ok(None)
                    },
                },
            }
        }
    }

    /// Ends the log: the record in progress, if any, is complete.
    pub fn finish(self) -> (r: Option<GitCommit>)
        ensures
            opt_commit_view(r) == self.in_progress(),
    {
        self.current
    }
}

/// Parses a whole log into its commit records, in log order.
pub fn parse_log(lines: &Vec<String>) -> (r: Result<Vec<GitCommit>, ParseError>)
    ensures
        match parse_lines(lines_view(lines@)) {
            Ok(cs) => r is Ok && commits_view(r->Ok_0@) == cs,
            Err(e) => r == Err::<Vec<GitCommit>, ParseError>(e),
        },
{
    let ghost lv = lines_view(lines@);
    let mut parser = CommitParser::new();
    let mut out: Vec<GitCommit> = Vec::new();
    let mut i: usize = 0;
    assert(lv.subrange(0, lv.len() as int) =~= lv);
    assert(commits_view(out@) =~= Seq::<CommitView>::empty());
    while i < lines.len()
        invariant
            i <= lines.len(),
            lv == lines_view(lines@),
            run(commits_view(out@), parser.in_progress(), lv.subrange(i as int, lv.len() as int))
                == run(seq![], None, lv),
        decreases lines.len() - i,
    {
        let ghost rest = lv.subrange(i as int, lv.len() as int);
        let ghost before = out@;
        assert(rest[0] == lines@[i as int]@);
        assert(rest.drop_first() =~= lv.subrange(i + 1, lv.len() as int));
        match parser.feed(lines[i].as_str()) {
            Err(e) => {
                return Err(e);
            },
            Ok(Some(c)) => {
                out.push(c);
                assert(commits_view(out@) =~= commits_view(before) + seq![c@]);
            },
            Ok(None) => {
                assert(commits_view(out@) =~= commits_view(before) + Seq::<CommitView>::empty());
            },
        }
        i += 1;
    }
    assert(lv.subrange(i as int, lv.len() as int) =~= Seq::<Seq<char>>::empty());
    let ghost before = out@;
    match parser.finish() {
        Some(c) => {
            out.push(c);
            assert(commits_view(out@) =~= commits_view(before) + seq![c@]);
        },
        None => {
            assert(commits_view(out@) =~= commits_view(before) + Seq::<CommitView>::empty());
        },
    }
    Ok(out)
}


/// The marker `--`.
pub open spec fn marker() -> Seq<char> {
    seq!['-', '-']
}

/// The header line of a commit whose date is written as `date_text`.
pub open spec fn header_line(c: CommitView, date_text: Seq<char>) -> Seq<char> {
    marker() + c.commit + marker() + date_text + marker() + c.author + marker() + c.summary
}

/// The stat line of a file change: added, tab, deleted, tab, path.
pub open spec fn stat_line(f: FileChangeView) -> Seq<char> {
    digits_of(f.added as nat) + seq!['\t'] + digits_of(f.deleted as nat) + seq!['\t'] + f.filename
}

/// The lines of one commit: its header, then one stat line per file change.
pub open spec fn commit_lines(c: CommitView) -> Seq<Seq<char>> {
    seq![header_line(c, rfc3339_text(c.date)->0)] + c.files.map_values(|f: FileChangeView| stat_line(f))
}

/// The lines of a sequence of commits, in order.
pub open spec fn serialize_spec(cs: Seq<CommitView>) -> Seq<Seq<char>>
    decreases cs.len(),
{
    if cs.len() == 0 {
        seq![]
    } else {
        serialize_spec(cs.drop_last()) + commit_lines(cs.last())
    }
}

/// Every commit's date can be written as text.
pub open spec fn dates_printable(cs: Seq<CommitView>) -> bool {
    forall|i: int| 0 <= i < cs.len() ==> (#[trigger] rfc3339_text(cs[i].date)) is Some
}

fn header_text(c: &GitCommit, date_text: &String) -> (r: String)
    ensures
        r@ == header_line(c@, date_text@),
{
    proof {
        reveal_strlit("--");
    }
    let mut h = String::from_str("--");
    h.append(c.commit.as_str());
    h.append("--");
    h.append(date_text.as_str());
    h.append("--");
    h.append(c.author.as_str());
    h.append("--");
    h.append(c.summary.as_str());
    h
}

fn stat_text(f: &FileChange) -> (r: String)
    ensures
        r@ == stat_line(f@),
{
    proof {
        reveal_strlit("\t");
    }
    let mut l = decimal_text(f.added);
    l.append("\t");
    let d = decimal_text(f.deleted);
    l.append(d.as_str());
    l.append("\t");
    l.append(f.filename.as_str());
    l
}

/// Writes commits back as log lines: per commit a header line, then its stat lines.
/// `None` when some commit's date cannot be written as text.
pub fn serialize_commits(commits: &Vec<GitCommit>) -> (r: Option<Vec<String>>)
    ensures
        r is Some <==> dates_printable(commits_view(commits@)),
        r is Some ==> lines_view(r->0@) == serialize_spec(commits_view(commits@)),
{
    let ghost cv = commits_view(commits@);
    let mut out: Vec<String> = Vec::new();
    let mut i: usize = 0;
    assert(cv.take(0).len() == 0);
    assert(lines_view(out@) =~= serialize_spec(cv.take(0)));
    while i < commits.len()
        invariant
            i <= commits.len(),
            cv == commits_view(commits@),
            lines_view(out@) == serialize_spec(cv.take(i as int)),
            forall|k: int| 0 <= k < i ==> (#[trigger] rfc3339_text(cv[k].date)) is Some,
        decreases commits.len() - i,
    {
        let c = &commits[i];
        let date_text = match format_rfc3339(c.date) {
            Some(t) => t,
            None => {
                assert(rfc3339_text(cv[i as int].date) is None);
                return None;
            },
        };
        let ghost base = lines_view(out@);
        out.push(header_text(c, &date_text));
        let ghost fv = files_view(c.files@);
        let mut j: usize = 0;
        assert(lines_view(out@) =~= base + seq![header_line(c@, date_text@)] + fv.take(0).map_values(
            |f: FileChangeView| stat_line(f),
        ));
        while j < c.files.len()
            invariant
                j <= c.files.len(),
                fv == files_view(c.files@),
                lines_view(out@) == base + seq![header_line(c@, date_text@)] + fv.take(
                    j as int,
                ).map_values(|f: FileChangeView| stat_line(f)),
            decreases c.files.len() - j,
        {
            let ghost before = lines_view(out@);
            out.push(stat_text(&c.files[j]));
            assert(fv.take(j + 1).map_values(|f: FileChangeView| stat_line(f)) =~= fv.take(
                j as int,
            ).map_values(|f: FileChangeView| stat_line(f)).push(stat_line(fv[j as int])));
            assert(lines_view(out@) =~= before.push(stat_line(fv[j as int])));
            j += 1;
        }
        assert(fv.take(j as int) =~= fv);
        assert(cv.take(i + 1).drop_last() =~= cv.take(i as int));
        assert(cv[i as int] == c@);
        assert(lines_view(out@) =~= serialize_spec(cv.take(i + 1)));
        i += 1;
    }
    assert(cv.take(i as int) =~= cv);
    Some(out)
}

/// A header field that reads back unchanged: it holds no marker and does not end in `-`.
pub open spec fn field_ok(f: Seq<char>) -> bool {
    &&& forall|k: int| 0 <= k < f.len() - 1 ==> !(#[trigger] f[k] == '-' && f[k + 1] == '-')
    &&& f.len() > 0 ==> f.last() != '-'
}

/// The last header field reads back unchanged: it holds no marker.
pub open spec fn last_field_ok(f: Seq<char>) -> bool {
    forall|k: int| 0 <= k < f.len() - 1 ==> !(#[trigger] f[k] == '-' && f[k + 1] == '-')
}

/// A path that reads back unchanged: not empty, and not opening with whitespace.
pub open spec fn path_ok(p: Seq<char>) -> bool {
    p.len() > 0 && !is_ascii_ws(p[0])
}

/// The date is written as a header field that reads back as the same instant.
pub open spec fn date_round_trips(t: i64) -> bool {
    &&& rfc3339_text(t) is Some
    &&& field_ok(rfc3339_text(t)->0)
    &&& rfc3339_seconds(rfc3339_text(t)->0) == Some(t)
}

/// A commit whose lines read back as the same commit.
pub open spec fn commit_well_formed(c: CommitView) -> bool {
    &&& field_ok(c.commit)
    &&& field_ok(c.author)
    &&& last_field_ok(c.summary)
    &&& date_round_trips(c.date)
    &&& forall|i: int| 0 <= i < c.files.len() ==> path_ok(#[trigger] c.files[i].filename)
}

pub open spec fn all_well_formed(cs: Seq<CommitView>) -> bool {
    forall|i: int| 0 <= i < cs.len() ==> commit_well_formed(#[trigger] cs[i])
}

proof fn lemma_field_scan(s: Seq<char>, start: int, f: Seq<char>)
    requires
        0 <= start,
        start + f.len() + 1 < s.len(),
        s.subrange(start, start + f.len()) == f,
        field_ok(f),
        s[start + f.len()] == '-',
        s[start + f.len() + 1] == '-',
    ensures
        next_marker(s, start) == start + f.len(),
{
    let end = start + f.len();
    assert forall|k: int| start <= k < end implies !crate::text::marker_at(s, k) by {
        assert(s[k] == f[k - start]);
        if k + 1 < end {
            assert(s[k + 1] == f[k + 1 - start]);
        }
    }
    crate::text::lemma_next_marker_at(s, start, end);
}

proof fn lemma_last_field_scan(s: Seq<char>, start: int, f: Seq<char>)
    requires
        0 <= start,
        start + f.len() == s.len(),
        s.subrange(start, s.len() as int) == f,
        last_field_ok(f),
    ensures
        next_marker(s, start) == s.len(),
{
    assert forall|k: int| start <= k < s.len() implies !crate::text::marker_at(s, k) by {
        assert(s[k] == f[k - start]);
        if k + 1 < s.len() {
            assert(s[k + 1] == f[k + 1 - start]);
        }
    }
    crate::text::lemma_next_marker_none(s, start);
}

/// A header line reads back as its four fields.
proof fn lemma_header_reads_back(c: CommitView, dt: Seq<char>)
    requires
        field_ok(c.commit),
        field_ok(dt),
        field_ok(c.author),
        last_field_ok(c.summary),
    ensures
        header_fields(header_line(c, dt)) == Some((c.commit, dt, c.author, c.summary)),
        starts_with_marker(header_line(c, dt)),
        !is_blank(header_line(c, dt)),
{
    let s = header_line(c, dt);
    let p1: int = c.commit.len() as int + 2;
    let p2: int = p1 + 2 + dt.len() as int;
    let p3: int = p2 + 2 + c.author.len() as int;
    assert(s.len() == p3 + 2 + c.summary.len());
    assert(s.subrange(2, p1) =~= c.commit);
    assert(s.subrange(p1 + 2, p2) =~= dt);
    assert(s.subrange(p2 + 2, p3) =~= c.author);
    assert(s.subrange(p3 + 2, s.len() as int) =~= c.summary);
    assert(s[p1] == '-' && s[p1 + 1] == '-');
    assert(s[p2] == '-' && s[p2 + 1] == '-');
    assert(s[p3] == '-' && s[p3 + 1] == '-');
    lemma_field_scan(s, 2, c.commit);
    lemma_field_scan(s, p1 + 2, dt);
    lemma_field_scan(s, p2 + 2, c.author);
    lemma_last_field_scan(s, p3 + 2, c.summary);
    assert(s[0] == '-');
}

/// A stat line reads back as its file change.
proof fn lemma_stat_reads_back(f: FileChangeView)
    requires
        path_ok(f.filename),
    ensures
        stat_change(stat_line(f)) == Some(f),
        !starts_with_marker(stat_line(f)),
        !is_blank(stat_line(f)),
{
    let s = stat_line(f);
    let a = digits_of(f.added as nat);
    let d = digits_of(f.deleted as nat);
    let p = f.filename;
    crate::text::lemma_digits_of(f.added as nat);
    crate::text::lemma_digits_of(f.deleted as nat);
    crate::text::lemma_count_of_digits(f.added);
    crate::text::lemma_count_of_digits(f.deleted);
    let la = a.len() as int;
    let ld = d.len() as int;
    assert(s.len() == la + ld + 2 + p.len());
    assert forall|k: int| 0 <= k < la implies s[k] == a[k] && !is_ascii_ws(#[trigger] s[k]) by {
        assert(crate::text::is_digit(a[k]));
    }
    assert(s[la] == '\t');
    assert forall|k: int| la + 1 <= k < la + 1 + ld implies s[k] == d[k - la - 1] && !is_ascii_ws(
        #[trigger] s[k],
    ) by {
        assert(crate::text::is_digit(d[k - la - 1]));
    }
    assert(s[la + 1 + ld] == '\t');
    assert(s[la + 2 + ld] == p[0]);
    assert(!is_ascii_ws(s[0]));
    crate::text::lemma_skip_ws_to(s, 0, 0);
    crate::text::lemma_skip_token_to(s, 0, la);
    crate::text::lemma_skip_ws_to(s, la, la + 1);
    crate::text::lemma_skip_token_to(s, la + 1, la + 1 + ld);
    crate::text::lemma_skip_ws_to(s, la + 1 + ld, la + 2 + ld);
    assert(s.subrange(0, la) =~= a);
    assert(s.subrange(la + 1, la + 1 + ld) =~= d);
    assert(s.subrange(la + 2 + ld, s.len() as int) =~= p);
    assert(s[0] == a[0]);
    assert(crate::text::is_digit(a[0]));
}

/// Reading `a + b` is reading `a`, then reading `b` from where `a` left off.
proof fn lemma_run_append(
    done: Seq<CommitView>,
    cur: Option<CommitView>,
    a: Seq<Seq<char>>,
    b: Seq<Seq<char>>,
)
    ensures
        run(done, cur, a + b) == match run(done, cur, a) {
            Ok((d2, c2)) => run(d2, c2, b),
            Err(e) => Err(e),
        },
    decreases a.len(),
{
    if a.len() == 0 {
        assert(a + b =~= b);
    } else {
        assert((a + b)[0] == a[0]);
        assert((a + b).drop_first() =~= a.drop_first() + b);
        match step(cur, a[0]) {
            Err(e) => {},
            Ok((em, c2)) => {
                lemma_run_append(done + opt_seq(em), c2, a.drop_first(), b);
            },
        }
    }
}

/// Stat lines read after a header add their file changes to the record in progress.
proof fn lemma_stats_read_back(done: Seq<CommitView>, c: CommitView, g: Seq<FileChangeView>)
    requires
        forall|i: int| 0 <= i < g.len() ==> path_ok(#[trigger] g[i].filename),
    ensures
        run(done, Some(c), g.map_values(|f: FileChangeView| stat_line(f))) == Ok::<
            (Seq<CommitView>, Option<CommitView>),
            ParseError,
        >(
            (
                done,
                Some(
                    CommitView {
                        commit: c.commit,
                        date: c.date,
                        author: c.author,
                        summary: c.summary,
                        files: c.files + g,
                    },
                ),
            ),
        ),
    decreases g.len(),
{
    let lines = g.map_values(|f: FileChangeView| stat_line(f));
    if g.len() == 0 {
        assert(c.files + g =~= c.files);
    } else {
        let g0 = g.drop_last();
        let x = g.last();
        assert forall|i: int| 0 <= i < g0.len() implies path_ok(#[trigger] g0[i].filename) by {
            assert(g0[i] == g[i]);
        }
        assert(path_ok(g[g.len() - 1].filename));
        lemma_stats_read_back(done, c, g0);
        let mid = CommitView {
            commit: c.commit,
            date: c.date,
            author: c.author,
            summary: c.summary,
            files: c.files + g0,
        };
        let next = CommitView {
            commit: c.commit,
            date: c.date,
            author: c.author,
            summary: c.summary,
            files: mid.files.push(x),
        };
        let last_line = seq![stat_line(x)];
        assert(lines =~= g0.map_values(|f: FileChangeView| stat_line(f)) + last_line);
        lemma_run_append(done, Some(c), g0.map_values(|f: FileChangeView| stat_line(f)), last_line);
        lemma_stat_reads_back(x);
        assert(step(Some(mid), stat_line(x)) == Ok::<(Option<CommitView>, Option<CommitView>), ParseError>(
            (None, Some(next)),
        ));
        assert(last_line[0] == stat_line(x));
        assert(last_line.drop_first() =~= Seq::<Seq<char>>::empty());
        assert(done + opt_seq(None) =~= done);
        assert(run(done, Some(mid), last_line) == run(done + opt_seq(None), Some(next), last_line.drop_first()));
        assert(run(done, Some(mid), last_line) == Ok::<(Seq<CommitView>, Option<CommitView>), ParseError>(
            (done, Some(next)),
        ));
        assert(mid.files.push(x) =~= c.files + g);
    }
}

proof fn lemma_header_step(cur: Option<CommitView>, c: CommitView)
    requires
        commit_well_formed(c),
    ensures
        step(cur, header_line(c, rfc3339_text(c.date)->0)) == Ok::<
            (Option<CommitView>, Option<CommitView>),
            ParseError,
        >(
            (
                cur,
                Some(
                    CommitView {
                        commit: c.commit,
                        date: c.date,
                        author: c.author,
                        summary: c.summary,
                        files: seq![],
                    },
                ),
            ),
        ),
{
    let dt = rfc3339_text(c.date)->0;
    lemma_header_reads_back(c, dt);
    assert(rfc3339_seconds(dt) == Some(c.date));
}

/// The lines of one well-formed commit complete the record in progress and leave the
/// commit itself in progress.
proof fn lemma_commit_reads_back(done: Seq<CommitView>, cur: Option<CommitView>, c: CommitView)
    requires
        commit_well_formed(c),
    ensures
        run(done, cur, commit_lines(c)) == Ok::<(Seq<CommitView>, Option<CommitView>), ParseError>(
            (done + opt_seq(cur), Some(c)),
        ),
{
    let dt = rfc3339_text(c.date)->0;
    let hl = header_line(c, dt);
    let stats = c.files.map_values(|f: FileChangeView| stat_line(f));
    let c0 = CommitView {
        commit: c.commit,
        date: c.date,
        author: c.author,
        summary: c.summary,
        files: seq![],
    };
    lemma_header_step(cur, c);
    lemma_run_append(done, cur, seq![hl], stats);
    assert(seq![hl][0] == hl);
    assert(seq![hl].drop_first() =~= Seq::<Seq<char>>::empty());
    assert(run(done, cur, seq![hl]) == run(done + opt_seq(cur), Some(c0), seq![hl].drop_first()));
    lemma_stats_read_back(done + opt_seq(cur), c0, c.files);
    assert(c0.files + c.files =~= c.files);
}

proof fn lemma_serialized_reads_back(done: Seq<CommitView>, cur: Option<CommitView>, cs: Seq<CommitView>)
    requires
        cs.len() > 0,
        all_well_formed(cs),
    ensures
        run(done, cur, serialize_spec(cs)) == Ok::<(Seq<CommitView>, Option<CommitView>), ParseError>(
            (done + opt_seq(cur) + cs.drop_last(), Some(cs.last())),
        ),
    decreases cs.len(),
{
    let last = cs.last();
    assert(commit_well_formed(cs[cs.len() - 1]));
    if cs.len() == 1 {
        assert(serialize_spec(cs.drop_last()) =~= Seq::<Seq<char>>::empty());
        assert(serialize_spec(cs) =~= commit_lines(last));
        lemma_commit_reads_back(done, cur, last);
        assert(done + opt_seq(cur) + cs.drop_last() =~= done + opt_seq(cur));
    } else {
        let front = cs.drop_last();
        assert forall|i: int| 0 <= i < front.len() implies commit_well_formed(#[trigger] front[i]) by {
            assert(front[i] == cs[i]);
        }
        lemma_serialized_reads_back(done, cur, front);
        lemma_run_append(done, cur, serialize_spec(front), commit_lines(last));
        let d2 = done + opt_seq(cur) + front.drop_last();
        lemma_commit_reads_back(d2, Some(front.last()), last);
        assert(d2 + opt_seq(Some(front.last())) =~= done + opt_seq(cur) + cs.drop_last());
    }
}

/// Writing well-formed commits as log lines and reading them back gives the same commits.
pub proof fn lemma_round_trip(cs: Seq<CommitView>)
    requires
        all_well_formed(cs),
    ensures
        parse_lines(serialize_spec(cs)) == Ok::<Seq<CommitView>, ParseError>(cs),
{
    if cs.len() == 0 {
        assert(serialize_spec(cs) =~= Seq::<Seq<char>>::empty());
        assert(Seq::<CommitView>::empty() + opt_seq(None) =~= cs);
    } else {
        lemma_serialized_reads_back(seq![], None, cs);
        assert(Seq::<CommitView>::empty() + opt_seq(None) + cs.drop_last() + opt_seq(Some(cs.last())) =~= cs);
    }
}

/// The fields of a record that read back unchanged once written as lines: every condition
/// of `commit_well_formed` but the date's.
pub open spec fn fields_read_back(c: CommitView) -> bool {
    &&& field_ok(c.commit)
    &&& field_ok(c.author)
    &&& last_field_ok(c.summary)
    &&& forall|i: int| 0 <= i < c.files.len() ==> path_ok(#[trigger] c.files[i].filename)
}

pub open spec fn opt_fields_read_back(c: Option<CommitView>) -> bool {
    c is Some ==> fields_read_back(c->0)
}

pub open spec fn all_fields_read_back(cs: Seq<CommitView>) -> bool {
    forall|i: int| 0 <= i < cs.len() ==> fields_read_back(#[trigger] cs[i])
}

/// The field between position `i` and the marker that ends it holds no marker, and does not
/// end in `-` where a marker follows it.
proof fn lemma_field_between(s: Seq<char>, i: int)
    requires
        0 <= i <= s.len(),
    ensures
        last_field_ok(s.subrange(i, next_marker(s, i))),
        next_marker(s, i) < s.len() ==> field_ok(s.subrange(i, next_marker(s, i))),
{
    crate::text::lemma_next_marker_scan(s, i);
    let m = next_marker(s, i);
    let f = s.subrange(i, m);
    assert forall|k: int| 0 <= k < f.len() - 1 implies !(#[trigger] f[k] == '-' && f[k + 1] == '-') by {
        assert(!crate::text::marker_at(s, i + k));
    }
    if m < s.len() && f.len() > 0 {
        assert(!crate::text::marker_at(s, m - 1));
    }
}

/// The fields of a header line read back unchanged.
proof fn lemma_header_fields_read_back(s: Seq<char>)
    requires
        header_fields(s) is Some,
    ensures
        match header_fields(s) {
            Some((h, d, a, m)) => field_ok(h) && field_ok(a) && last_field_ok(m),
            None => true,
        },
{
    let m1 = next_marker(s, 2);
    let m2 = next_marker(s, m1 + 2);
    let m3 = next_marker(s, m2 + 2);
    if s.len() < 2 {
        assert(m1 == s.len());
        assert(m2 == s.len());
        assert(m3 == s.len());
    }
    crate::text::lemma_next_marker_scan(s, 2);
    lemma_field_between(s, 2);
    assert(m1 < s.len()) by {
        if m1 == s.len() {
            assert(m2 == s.len());
            assert(m3 == s.len());
        }
    }
    crate::text::lemma_next_marker_scan(s, m1 + 2);
    lemma_field_between(s, m1 + 2);
    assert(m2 < s.len()) by {
        if m2 == s.len() {
            assert(m3 == s.len());
        }
    }
    crate::text::lemma_next_marker_scan(s, m2 + 2);
    lemma_field_between(s, m2 + 2);
    crate::text::lemma_next_marker_scan(s, m3 + 2);
    lemma_field_between(s, m3 + 2);
}

/// The path of a stat line reads back unchanged.
proof fn lemma_stat_path_reads_back(s: Seq<char>)
    requires
        stat_change(s) is Some,
    ensures
        path_ok(stat_change(s)->0.filename),
{
    let a0 = skip_ws(s, 0);
    crate::text::lemma_skip_ws_stops(s, 0);
    crate::text::lemma_skip_token_nonneg(s, a0);
    let a1 = skip_token(s, a0);
    crate::text::lemma_skip_ws_stops(s, a1);
    let d0 = skip_ws(s, a1);
    crate::text::lemma_skip_token_nonneg(s, d0);
    let d1 = skip_token(s, d0);
    crate::text::lemma_skip_ws_stops(s, d1);
    let p0 = skip_ws(s, d1);
    assert(s.subrange(p0, s.len() as int)[0] == s[p0]);
}

/// One line keeps every record that it completes or leaves in progress readable back.
proof fn lemma_step_fields(cur: Option<CommitView>, line: Seq<char>)
    requires
        opt_fields_read_back(cur),
        step(cur, line) is Ok,
    ensures
        opt_fields_read_back(step(cur, line)->Ok_0.0),
        opt_fields_read_back(step(cur, line)->Ok_0.1),
{
    if !is_blank(line) {
        if starts_with_marker(line) {
            lemma_header_fields_read_back(line);
        } else if cur is Some {
            lemma_stat_path_reads_back(line);
            let c = cur->0;
            let f = stat_change(line)->0;
            let files = c.files.push(f);
            assert forall|i: int| 0 <= i < files.len() implies path_ok(#[trigger] files[i].filename) by {
                if i < c.files.len() {
                    assert(files[i] == c.files[i]);
                }
            }
        }
    }
}

/// Reading lines keeps every record readable back, and completes or opens one record per
/// header line.
proof fn lemma_run_invariants(done: Seq<CommitView>, cur: Option<CommitView>, lines: Seq<Seq<char>>)
    requires
        all_fields_read_back(done),
        opt_fields_read_back(cur),
        run(done, cur, lines) is Ok,
    ensures
        all_fields_read_back(run(done, cur, lines)->Ok_0.0),
        opt_fields_read_back(run(done, cur, lines)->Ok_0.1),
        run(done, cur, lines)->Ok_0.0.len() + opt_seq(run(done, cur, lines)->Ok_0.1).len() == done.len()
            + opt_seq(cur).len() + count_headers(lines),
    decreases lines.len(),
{
    if lines.len() > 0 {
        let (em, c2) = step(cur, lines[0])->Ok_0;
        lemma_step_fields(cur, lines[0]);
        let d2 = done + opt_seq(em);
        assert forall|i: int| 0 <= i < d2.len() implies fields_read_back(#[trigger] d2[i]) by {
            if i < done.len() {
                assert(d2[i] == done[i]);
            } else {
                assert(d2[i] == em->0);
            }
        }
        lemma_run_invariants(d2, c2, lines.drop_first());
    }
}

/// The lines that open a record: not blank, and opening with the marker.
pub open spec fn is_header_line(l: Seq<char>) -> bool {
    !is_blank(l) && starts_with_marker(l)
}

/// The number of header lines.
pub open spec fn count_headers(lines: Seq<Seq<char>>) -> nat
    decreases lines.len(),
{
    if lines.len() == 0 {
        0
    } else {
        (if is_header_line(lines[0]) {
            1nat
        } else {
            0nat
        }) + count_headers(lines.drop_first())
    }
}

/// Every record that a log yields reads back unchanged once written as lines, but for its
/// date, which rests on the date text.
pub proof fn lemma_parsed_fields_read_back(lines: Seq<Seq<char>>)
    requires
        parse_lines(lines) is Ok,
    ensures
        all_fields_read_back(parse_lines(lines)->Ok_0),
{
    lemma_run_invariants(seq![], None, lines);
    let (done, cur) = run(seq![], None, lines)->Ok_0;
    let out = done + opt_seq(cur);
    assert forall|i: int| 0 <= i < out.len() implies fields_read_back(#[trigger] out[i]) by {
        if i < done.len() {
            assert(out[i] == done[i]);
        } else {
            assert(out[i] == cur->0);
        }
    }
}

/// A log yields exactly one record per header line: none is dropped, the last included.
pub proof fn lemma_one_record_per_header(lines: Seq<Seq<char>>)
    requires
        parse_lines(lines) is Ok,
    ensures
        parse_lines(lines)->Ok_0.len() == count_headers(lines),
{
    lemma_run_invariants(seq![], None, lines);
}

/// Parsing a log, writing its records back as lines and parsing those gives the same
/// records, wherever each record's date is written as text that reads back as the same
/// instant.
pub proof fn lemma_reparse(lines: Seq<Seq<char>>)
    requires
        parse_lines(lines) is Ok,
        forall|i: int|
            0 <= i < parse_lines(lines)->Ok_0.len() ==> date_round_trips(
                #[trigger] parse_lines(lines)->Ok_0[i].date,
            ),
    ensures
        parse_lines(serialize_spec(parse_lines(lines)->Ok_0)) == parse_lines(lines),
{
    let cs = parse_lines(lines)->Ok_0;
    lemma_parsed_fields_read_back(lines);
    assert forall|i: int| 0 <= i < cs.len() implies commit_well_formed(#[trigger] cs[i]) by {
        assert(fields_read_back(cs[i]));
        assert(date_round_trips(cs[i].date));
    }
    lemma_round_trip(cs);
}

/// Blank lines change nothing.
proof fn lemma_blanks_skipped(done: Seq<CommitView>, cur: Option<CommitView>, blanks: Seq<Seq<char>>)
    requires
        forall|i: int| 0 <= i < blanks.len() ==> is_blank(#[trigger] blanks[i]),
    ensures
        run(done, cur, blanks) == Ok::<(Seq<CommitView>, Option<CommitView>), ParseError>((done, cur)),
    decreases blanks.len(),
{
    if blanks.len() > 0 {
        assert(is_blank(blanks[0]));
        assert(done + opt_seq(None) =~= done);
        let rest = blanks.drop_first();
        assert forall|i: int| 0 <= i < rest.len() implies is_blank(#[trigger] rest[i]) by {
            assert(rest[i] == blanks[i + 1]);
        }
        lemma_blanks_skipped(done, cur, rest);
    }
}

/// A header followed, past any blank lines, by another header completes a record with no
/// file changes, which is kept.
pub proof fn lemma_empty_commit_kept(
    done: Seq<CommitView>,
    cur: Option<CommitView>,
    h: Seq<char>,
    blanks: Seq<Seq<char>>,
    h2: Seq<char>,
    rest: Seq<Seq<char>>,
)
    requires
        is_header_line(h),
        step(cur, h) is Ok,
        forall|i: int| 0 <= i < blanks.len() ==> is_blank(#[trigger] blanks[i]),
        is_header_line(h2),
        step(step(cur, h)->Ok_0.1, h2) is Ok,
    ensures
        step(cur, h)->Ok_0.1->0.files.len() == 0,
        run(done, cur, seq![h] + (blanks + (seq![h2] + rest))) == run(
            done + opt_seq(step(cur, h)->Ok_0.0) + seq![step(cur, h)->Ok_0.1->0],
            step(step(cur, h)->Ok_0.1, h2)->Ok_0.1,
            rest,
        ),
{
    let (em, c) = step(cur, h)->Ok_0;
    let d1 = done + opt_seq(em);
    let tail = blanks + (seq![h2] + rest);
    assert((seq![h] + tail)[0] == h);
    assert((seq![h] + tail).drop_first() =~= tail);
    lemma_run_append(d1, c, blanks, seq![h2] + rest);
    lemma_blanks_skipped(d1, c, blanks);
    assert((seq![h2] + rest)[0] == h2);
    assert((seq![h2] + rest).drop_first() =~= rest);
    assert(opt_seq(c) == seq![c->0]);
}

/// A header followed only by blank lines at the end of the log yields its record, with no
/// file changes, last.
pub proof fn lemma_empty_commit_kept_at_end(
    prefix: Seq<Seq<char>>,
    h: Seq<char>,
    blanks: Seq<Seq<char>>,
)
    requires
        run(seq![], None, prefix) is Ok,
        is_header_line(h),
        step(run(seq![], None, prefix)->Ok_0.1, h) is Ok,
        forall|i: int| 0 <= i < blanks.len() ==> is_blank(#[trigger] blanks[i]),
    ensures
        ({
            let (d, cur) = run(seq![], None, prefix)->Ok_0;
            let (em, c) = step(cur, h)->Ok_0;
            &&& c->0.files.len() == 0
            &&& parse_lines(prefix + (seq![h] + blanks)) == Ok::<Seq<CommitView>, ParseError>(
                d + opt_seq(em) + seq![c->0],
            )
        }),
{
    let (d, cur) = run(seq![], None, prefix)->Ok_0;
    let (em, c) = step(cur, h)->Ok_0;
    lemma_run_append(seq![], None, prefix, seq![h] + blanks);
    assert((seq![h] + blanks)[0] == h);
    assert((seq![h] + blanks).drop_first() =~= blanks);
    lemma_blanks_skipped(d + opt_seq(em), c, blanks);
    assert(opt_seq(c) == seq![c->0]);
}

/// At the end of the log the record in progress is emitted, after every completed one.
pub proof fn lemma_last_record_emitted(lines: Seq<Seq<char>>)
    requires
        run(seq![], None, lines) is Ok,
        run(seq![], None, lines)->Ok_0.1 is Some,
    ensures
        parse_lines(lines) == Ok::<Seq<CommitView>, ParseError>(
            run(seq![], None, lines)->Ok_0.0.push(run(seq![], None, lines)->Ok_0.1->0),
        ),
{
    let (done, cur) = run(seq![], None, lines)->Ok_0;
    assert(done + opt_seq(cur) =~= done.push(cur->0));
}

/// A trailing blank line changes nothing: the log reads the same with it or without it.
pub proof fn lemma_trailing_blank_ignored(lines: Seq<Seq<char>>, b: Seq<char>)
    requires
        is_blank(b),
    ensures
        parse_lines(lines.push(b)) == parse_lines(lines),
{
    lemma_run_append(seq![], None, lines, seq![b]);
    assert(lines.push(b) =~= lines + seq![b]);
    assert(seq![b][0] == b);
    assert(seq![b].drop_first() =~= Seq::<Seq<char>>::empty());
    match run(seq![], None, lines) {
        Ok((done, cur)) => {
            assert(done + opt_seq(None) =~= done);
            assert(step(cur, b) == Ok::<(Option<CommitView>, Option<CommitView>), ParseError>((None, cur)));
            assert(run(done, cur, seq![b]) == run(done + opt_seq(None), cur, seq![b].drop_first()));
            assert(run(done, cur, Seq::<Seq<char>>::empty()) == Ok::<
                (Seq<CommitView>, Option<CommitView>),
                ParseError,
            >((done, cur)));
        },
        Err(e) => {},
    }
}

/// The token holds no whitespace.
pub open spec fn token_ok(t: Seq<char>) -> bool {
    t.len() > 0 && forall|i: int| 0 <= i < t.len() ==> !is_ascii_ws(#[trigger] t[i])
}

/// A stat line `<a> <d> <path>` reads as the counts of its two tokens and its path, whatever
/// the tokens hold.
pub proof fn lemma_stat_tokens(a: Seq<char>, d: Seq<char>, p: Seq<char>)
    requires
        token_ok(a),
        token_ok(d),
        path_ok(p),
    ensures
        stat_change(a + seq!['\t'] + d + seq!['\t'] + p) == Some(
            FileChangeView { added: count_of(a), deleted: count_of(d), filename: p },
        ),
{
    let s = a + seq!['\t'] + d + seq!['\t'] + p;
    let la = a.len() as int;
    let ld = d.len() as int;
    assert forall|k: int| 0 <= k < la implies !is_ascii_ws(#[trigger] s[k]) by {
        assert(s[k] == a[k]);
    }
    assert forall|k: int| la + 1 <= k < la + 1 + ld implies !is_ascii_ws(#[trigger] s[k]) by {
        assert(s[k] == d[k - la - 1]);
    }
    assert(s[la] == '\t');
    assert(s[la + 1 + ld] == '\t');
    assert(s[la + 2 + ld] == p[0]);
    assert(s[0] == a[0]);
    crate::text::lemma_skip_ws_to(s, 0, 0);
    crate::text::lemma_skip_token_to(s, 0, la);
    crate::text::lemma_skip_ws_to(s, la, la + 1);
    crate::text::lemma_skip_token_to(s, la + 1, la + 1 + ld);
    crate::text::lemma_skip_ws_to(s, la + 1 + ld, la + 2 + ld);
    assert(s.subrange(0, la) =~= a);
    assert(s.subrange(la + 1, la + 1 + ld) =~= d);
    assert(s.subrange(la + 2 + ld, s.len() as int) =~= p);
}

/// A stat line whose count token is no number (the `-` of a binary file) reads that count as
/// zero, and the line is still added to the record in progress: the run goes on.
pub proof fn lemma_non_numeric_counts_read_as_zero(
    c: CommitView,
    a: Seq<char>,
    d: Seq<char>,
    p: Seq<char>,
)
    requires
        token_ok(a),
        token_ok(d),
        path_ok(p),
        !is_blank(a + seq!['\t'] + d + seq!['\t'] + p),
        !starts_with_marker(a + seq!['\t'] + d + seq!['\t'] + p),
    ensures
        !crate::text::numeric_token(a) ==> count_of(a) == 0,
        !crate::text::numeric_token(d) ==> count_of(d) == 0,
        step(Some(c), a + seq!['\t'] + d + seq!['\t'] + p) == Ok::<
            (Option<CommitView>, Option<CommitView>),
            ParseError,
        >(
            (
                None,
                Some(
                    CommitView {
                        commit: c.commit,
                        date: c.date,
                        author: c.author,
                        summary: c.summary,
                        files: c.files.push(
                            FileChangeView { added: count_of(a), deleted: count_of(d), filename: p },
                        ),
                    },
                ),
            ),
        ),
{
    lemma_stat_tokens(a, d, p);
    if !crate::text::numeric_token(a) {
        crate::text::lemma_non_numeric_counts_zero(a);
    }
    if !crate::text::numeric_token(d) {
        crate::text::lemma_non_numeric_counts_zero(d);
    }
}

/// A stat line whose counts are both `-` reads as zero added and zero deleted lines.
pub proof fn lemma_dash_counts_as_zero(p: Seq<char>)
    requires
        path_ok(p),
    ensures
        stat_change(seq!['-'] + seq!['\t'] + seq!['-'] + seq!['\t'] + p) == Some(
            FileChangeView { added: 0, deleted: 0, filename: p },
        ),
{
    let dash = seq!['-'];
    assert(token_ok(dash));
    lemma_stat_tokens(dash, dash, p);
    assert(!crate::text::numeric_token(dash));
    crate::text::lemma_non_numeric_counts_zero(dash);
}

} // verus!
