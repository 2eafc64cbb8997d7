//! Which sessions are summed up together when time is shown by project or by category.
use vstd::prelude::*;

use crate::models::{SessionView, WorkSession};
use crate::text;

verus! {

/// What a sum of time is shown under.
#[derive(Clone, Copy, Debug, PartialEq, Eq, Structural)]
pub enum TrendKind {
    /// Work by project and category.
    Project,
    /// All time by category.
    Category,
}

/// At most so many sums are shown by project.
pub const SHOWN_PROJECT_TRENDS: usize = 12;

/// Time away is no work, nor is idle time that nobody confirmed.
pub open spec fn counts_as_work(session: SessionView) -> bool {
    &&& session.category != "离开"@
    &&& session.source != "collector-idle"@ || session.user_confirmed
}

/// Whether the session is part of a sum of this kind.
pub open spec fn is_summed(kind: TrendKind, session: SessionView) -> bool {
    kind is Project ==> counts_as_work(session)
}

/// The name that the session's time is shown under.
pub open spec fn trend_label(kind: TrendKind, session: SessionView) -> Seq<char> {
    match kind {
        TrendKind::Project => match session.project_name {
            Some(name) => name,
            None => "未归类"@,
        },
        TrendKind::Category => session.category,
    }
}

/// Whether the two sessions are parts of one sum.
pub open spec fn summed_together(kind: TrendKind, left: SessionView, right: SessionView) -> bool {
    &&& is_summed(kind, left)
    &&& is_summed(kind, right)
    &&& trend_label(kind, left) == trend_label(kind, right)
    &&& left.category == right.category
}

/// The session at `first` is the first one of the sum that the session at `i` is part of.
pub open spec fn opens_sum(kind: TrendKind, rows: Seq<WorkSession>, i: int, first: int) -> bool {
    &&& 0 <= first <= i
    &&& summed_together(kind, rows[first]@, rows[i]@)
    &&& forall|q: int| 0 <= q < first ==> !summed_together(kind, (#[trigger] rows[q])@, rows[i]@)
}

/// Whether the session is part of a sum of this kind.
pub fn is_part_of_trend(kind: TrendKind, session: &WorkSession) -> (result: bool)
    ensures
        result == is_summed(kind, session@),
{
    match kind {
        TrendKind::Category => true,
        TrendKind::Project => !text::same(session.category.as_str(), "离开") && (!text::same(
            session.source.as_str(),
            "collector-idle",
        ) || session.user_confirmed),
    }
}

/// The name that the session's time is shown under.
pub fn label_of_trend(kind: TrendKind, session: &WorkSession) -> (result: String)
    ensures
        result@ == trend_label(kind, session@),
{
    match kind {
        TrendKind::Category => session.category.as_str().to_owned(),
        TrendKind::Project => match &session.project_name {
            Some(name) => name.as_str().to_owned(),
            None => "未归类".to_owned(),
        },
    }
}

fn is_summed_with(kind: TrendKind, left: &WorkSession, right: &WorkSession) -> (result: bool)
    ensures
        result == summed_together(kind, left@, right@),
{
    is_part_of_trend(kind, left) && is_part_of_trend(kind, right) && text::same(
        label_of_trend(kind, left).as_str(),
        label_of_trend(kind, right).as_str(),
    ) && text::same(left.category.as_str(), right.category.as_str())
}

/// For each session the first one of the sum that it is part of, or nothing where it is part of
/// none.
pub fn trend_groups(kind: TrendKind, sessions: &Vec<WorkSession>) -> (result: Vec<Option<usize>>)
    ensures
        result.len() == sessions.len(),
        forall|i: int|
            0 <= i < sessions.len() ==> match #[trigger] result@[i] {
                Some(first) => opens_sum(kind, sessions@, i, first as int),
                None => !is_summed(kind, sessions@[i]@),
            },
{
    let mut result: Vec<Option<usize>> = Vec::new();
    let mut i: usize = 0;
    while i < sessions.len()
        invariant
            i <= sessions.len(),
            result.len() == i,
            forall|k: int|
                0 <= k < i ==> match #[trigger] result@[k] {
                    Some(first) => opens_sum(kind, sessions@, k, first as int),
                    None => !is_summed(kind, sessions@[k]@),
                },
        decreases sessions.len() - i,
    {
        if is_part_of_trend(kind, &sessions[i]) {
            let mut q: usize = 0;
            while q < i && !is_summed_with(kind, &sessions[q], &sessions[i])
                invariant
                    q <= i < sessions.len(),
                    forall|k: int|
                        0 <= k < q ==> !summed_together(
                            kind,
                            (#[trigger] sessions@[k])@,
                            sessions@[i as int]@,
                        ),
                decreases i - q,
            {
                q += 1;
            }
            result.push(Some(q));
        } else {
            result.push(None);
        }
        i += 1;
    }
    result
}

/// Every session is part of at most one sum, and two sessions are in the same sum exactly when they
/// are shown under one name and one category.
pub proof fn sums_do_not_share_time(
    kind: TrendKind,
    rows: Seq<WorkSession>,
    i: int,
    j: int,
    first: int,
    other: int,
)
    requires
        0 <= i < rows.len(),
        0 <= j < rows.len(),
        opens_sum(kind, rows, i, first),
        opens_sum(kind, rows, j, other),
    ensures
        first == other <==> summed_together(kind, rows[i]@, rows[j]@),
        i == j ==> first == other,
{
    if summed_together(kind, rows[i]@, rows[j]@) {
        assert(summed_together(kind, rows[first]@, rows[j]@));
        assert(summed_together(kind, rows[other]@, rows[i]@));
        assert(!(first < other) && !(other < first));
    }
}

} // verus!
