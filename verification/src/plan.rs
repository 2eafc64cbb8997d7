//! Matching sessions to the entries of plans.
use vstd::prelude::*;
use vstd::string::*;

use crate::labels;
use crate::models::{PlanItem, PlanItemView, SessionView, WorkSession};
use crate::sessions;
use crate::text;
use crate::timeline;
use crate::timeline::Join;

verus! {

broadcast use vstd::seq_lib::group_seq_properties;

pub open spec fn plan_views(items: Seq<PlanItem>) -> Seq<PlanItemView> {
    items.map_values(|item: PlanItem| item@)
}

/// Everything that a session says, in lower case.
pub open spec fn session_words(session: SessionView) -> Seq<char> {
    text::lowercase(
        session.summary + " "@ + session.category + " "@ + labels::or_empty(session.project_name)
            + " "@ + labels::or_empty(session.task_title),
    )
}

fn write_session_words(session: &WorkSession) -> (result: String)
    ensures
        result@ == session_words(session@),
{
    let mut all = session.summary.clone();
    all = text::joined(all.as_str(), " ");
    all = text::joined(all.as_str(), session.category.as_str());
    all = text::joined(all.as_str(), " ");
    let project = labels::text_or_empty(&session.project_name);
    all = text::joined(all.as_str(), project.as_str());
    all = text::joined(all.as_str(), " ");
    let task = labels::text_or_empty(&session.task_title);
    all = text::joined(all.as_str(), task.as_str());
    all.as_str().to_lowercase()
}

/// Everything that an entry says, in lower case.
pub open spec fn item_words(item: PlanItemView) -> Seq<char> {
    text::lowercase(item.title + " "@ + labels::or_empty(item.note))
}

/// The word is at least three bytes long and occurs in the text.
pub open spec fn telling(hay: Seq<char>, word: Seq<char>) -> bool {
    vstd::utf8::encode_utf8(word).len() >= 3 && text::occurs(hay, word)
}

/// The entry occurs in what the session says, as a whole or by one of its words.
pub open spec fn fits(hay: Seq<char>, needle: Seq<char>) -> bool {
    &&& needle.len() > 0
    &&& text::occurs(hay, needle) || exists|i: int|
        0 <= i < text::word_list(needle).len() && telling(hay, #[trigger] text::word_list(needle)[i])
}

fn is_fitting(hay: &str, needle: &str) -> (result: bool)
    ensures
        result == fits(hay@, needle@),
{
    if needle.is_empty() {
        return false;
    }
    if text::contains(hay, needle) {
        return true;
    }
    let words = text::words(needle);
    let ghost list = text::word_list(needle@);
    let mut i: usize = 0;
    while i < words.len()
        invariant
            i <= words.len(),
            list == text::word_list(needle@),
            list == text::texts(words@),
            needle@.len() > 0,
            forall|k: int| 0 <= k < i ==> !telling(hay@, #[trigger] list[k]),
        decreases words.len() - i,
    {
        let word = words[i].as_str();
        assert(list[i as int] == word@);
        if word.as_bytes().len() >= 3 && text::contains(hay, word) {
            assert(telling(hay@, list[i as int]));
            return true;
        }
        i += 1;
    }
    false
}

/// The entry with the session noted, where it fits and is not noted yet.
pub open spec fn noted(item: PlanItemView, hay: Seq<char>, session_id: Seq<char>) -> PlanItemView {
    if fits(hay, item_words(item)) && !item.matched_session_ids.contains(session_id) {
        PlanItemView {
            matched_session_ids: item.matched_session_ids.push(session_id),
            ..item
        }
    } else {
        item
    }
}

fn note(item: PlanItem, hay: &str, session_id: &str) -> (result: PlanItem)
    ensures
        result@ == noted(item@, hay@, session_id@),
{
    let mut after = item;
    let head = text::joined(after.title.as_str(), " ");
    let note = labels::text_or_empty(&after.note);
    let whole = text::joined(head.as_str(), note.as_str());
    let needle = whole.as_str().to_lowercase();
    if is_fitting(hay, needle.as_str()) && !text::listed(&after.matched_session_ids, session_id) {
        let ghost before = text::texts(after.matched_session_ids@);
        after.matched_session_ids.push(session_id.to_owned());
        assert(text::texts(after.matched_session_ids@) =~= before.push(session_id@));
    }
    after
}

/// Notes a session with every entry that it fits.
pub fn match_plan_items_for_session(items: Vec<PlanItem>, session: &WorkSession) -> (result: Vec<
    PlanItem,
>)
    ensures
        plan_views(result@) == plan_views(items@).map_values(
            |item: PlanItemView| noted(item, session_words(session@), session@.id),
        ),
{
    let hay = write_session_words(session);
    let ghost views = plan_views(items@);
    let ghost change = |item: PlanItemView| noted(item, session_words(session@), session@.id);
    let mut result: Vec<PlanItem> = Vec::new();
    assert(plan_views(result@) =~= views.take(0).map_values(change));
    for item in it: items
        invariant
            views == plan_views(it.seq()),
            hay@ == session_words(session@),
            change == (|item: PlanItemView| noted(item, session_words(session@), session@.id)),
            plan_views(result@) == views.take(it.index()).map_values(change),
    {
        let ghost i = it.index();
        let ghost view = item@;
        let ghost before = plan_views(result@);
        assert(views[i] == view);
        let after = note(item, hay.as_str(), session.id.as_str());
        assert(after@ == change(view));
        result.push(after);
        assert(plan_views(result@) =~= before.push(change(view)));
        assert(views.take(i + 1).map_values(change) =~= views.take(i).map_values(change).push(
            change(view),
        ));
    }
    assert(views.take(views.len() as int) =~= views);
    result
}

/// Noting a session again changes nothing.
pub proof fn sessions_are_noted_once(item: PlanItemView, hay: Seq<char>, session_id: Seq<char>)
    ensures
        noted(noted(item, hay, session_id), hay, session_id) == noted(item, hay, session_id),
{
    let once = noted(item, hay, session_id);
    if fits(hay, item_words(item)) && !item.matched_session_ids.contains(session_id) {
        assert(once.matched_session_ids[item.matched_session_ids.len() as int] == session_id);
    }
}

/// At most so many sessions stay noted with an entry.
pub const MAX_PLAN_SESSION_LINKS: usize = 256;

/// The latest of the noted sessions.
pub open spec fn latest_links(ids: Seq<Seq<char>>) -> Seq<Seq<char>> {
    if ids.len() <= MAX_PLAN_SESSION_LINKS {
        ids
    } else {
        ids.skip(ids.len() - MAX_PLAN_SESSION_LINKS)
    }
}

/// Keeps the latest of the noted sessions; none where all of them stay.
pub fn prune_plan_session_links(ids: &Vec<String>) -> (result: Option<Vec<String>>)
    ensures
        match result {
            Some(kept) => ids@.len() > MAX_PLAN_SESSION_LINKS && text::texts(kept@)
                == latest_links(text::texts(ids@)),
            None => ids@.len() <= MAX_PLAN_SESSION_LINKS,
        },
{
    if ids.len() <= MAX_PLAN_SESSION_LINKS {
        return None;
    }
    let ghost all = text::texts(ids@);
    let from: usize = ids.len() - MAX_PLAN_SESSION_LINKS;
    let mut kept: Vec<String> = Vec::new();
    let mut i: usize = from;
    assert(text::texts(kept@) =~= all.subrange(from as int, from as int));
    while i < ids.len()
        invariant
            from <= i <= ids.len(),
            all == text::texts(ids@),
            text::texts(kept@) == all.subrange(from as int, i as int),
        decreases ids.len() - i,
    {
        let ghost before = text::texts(kept@);
        kept.push(ids[i].clone());
        assert(text::texts(kept@) =~= before.push(all[i as int]));
        assert(all.subrange(from as int, i + 1) =~= all.subrange(from as int, i as int).push(
            all[i as int],
        ));
        i += 1;
    }
    assert(all.subrange(from as int, ids.len() as int) =~= all.skip(from as int));
    Some(kept)
}

/// The entry came from a tool that is no longer read.
pub open spec fn of_removed_tool(item: PlanItemView) -> bool {
    item.source == "DDL-Manager"@ || text::has_prefix(text::ascii_lower(item.id), "ddl-task:"@)
        || text::has_prefix(text::ascii_lower(item.id), "ddl-day:"@)
}

/// Whether an entry came from a tool that is no longer read.
pub fn is_of_removed_tool(item: &PlanItem) -> (result: bool)
    ensures
        result == of_removed_tool(item@),
{
    let id = text::to_ascii_lower(item.id.as_str());
    text::same(item.source.as_str(), "DDL-Manager") || text::starts_with(id.as_str(), "ddl-task:")
        || text::starts_with(id.as_str(), "ddl-day:")
}

/// The noted sessions once one of them went into another.
pub open spec fn relinked(
    list: Seq<Seq<char>>,
    absorbed: Seq<char>,
    anchor: Seq<char>,
) -> Seq<Seq<char>> {
    if list.contains(absorbed) {
        text::sorted_distinct(
            list.map_values(|id: Seq<char>| renamed(id, absorbed, anchor)),
        )
    } else {
        list
    }
}

/// The session that a noted one went into, or itself.
pub open spec fn renamed(id: Seq<char>, absorbed: Seq<char>, anchor: Seq<char>) -> Seq<char> {
    if id == absorbed {
        anchor
    } else {
        id
    }
}

/// The noted sessions once these went into another, in turn.
pub open spec fn relinked_all(
    list: Seq<Seq<char>>,
    following: Seq<SessionView>,
    anchor: Seq<char>,
) -> Seq<Seq<char>>
    decreases following.len(),
{
    if following.len() == 0 {
        list
    } else {
        relinked(relinked_all(list, following.drop_last(), anchor), following.last().id, anchor)
    }
}

/// The noted sessions once the joins were carried out, in turn.
pub open spec fn following_joins(
    list: Seq<Seq<char>>,
    joins: Seq<(SessionView, Seq<SessionView>)>,
) -> Seq<Seq<char>>
    decreases joins.len(),
{
    if joins.len() == 0 {
        list
    } else {
        relinked_all(
            following_joins(list, joins.drop_last()),
            joins.last().1,
            joins.last().0.id,
        )
    }
}

fn relink(matched: Vec<String>, absorbed: &str, anchor: &str) -> (result: Vec<String>)
    ensures
        text::texts(result@) == relinked(text::texts(matched@), absorbed@, anchor@),
{
    if text::listed(&matched, absorbed) {
        let result = sessions::replace_absorbed(&matched, absorbed, anchor);
        proof {
            let replaced = text::texts(matched@).map_values(
                |id: Seq<char>| if id == absorbed@ { anchor@ } else { id },
            );
            let followed = text::texts(matched@).map_values(
                |id: Seq<char>| renamed(id, absorbed@, anchor@),
            );
            assert(replaced =~= followed);
            text::lemma_sorted_distinct(followed, text::texts(result@));
        }
        result
    } else {
        matched
    }
}

fn relink_all(matched: Vec<String>, following: &Vec<WorkSession>, anchor: &str) -> (result: Vec<
    String,
>)
    ensures
        text::texts(result@) == relinked_all(
            text::texts(matched@),
            sessions::session_views(following@),
            anchor@,
        ),
{
    let ghost first = text::texts(matched@);
    let ghost views = sessions::session_views(following@);
    let mut result = matched;
    let mut i: usize = 0;
    assert(views.take(0) =~= Seq::empty());
    while i < following.len()
        invariant
            i <= following.len(),
            views == sessions::session_views(following@),
            text::texts(result@) == relinked_all(first, views.take(i as int), anchor@),
        decreases following.len() - i,
    {
        assert(views.take(i + 1).drop_last() =~= views.take(i as int));
        assert(views.take(i + 1).last() == following@[i as int]@);
        result = relink(result, following[i].id.as_str(), anchor);
        i += 1;
    }
    assert(views.take(following.len() as int) =~= views);
    result
}

fn follow(matched: Vec<String>, joins: &Vec<Join>) -> (result: Vec<String>)
    ensures
        text::texts(result@) == following_joins(
            text::texts(matched@),
            timeline::join_views(joins@),
        ),
{
    let ghost first = text::texts(matched@);
    let ghost views = timeline::join_views(joins@);
    let mut result = matched;
    let mut i: usize = 0;
    assert(views.take(0) =~= Seq::empty());
    while i < joins.len()
        invariant
            i <= joins.len(),
            views == timeline::join_views(joins@),
            text::texts(result@) == following_joins(first, views.take(i as int)),
        decreases joins.len() - i,
    {
        assert(views.take(i + 1).drop_last() =~= views.take(i as int));
        assert(views.take(i + 1).last() == (
            joins@[i as int].anchor@,
            sessions::session_views(joins@[i as int].following@),
        ));
        result = relink_all(result, &joins[i].following, joins[i].anchor.id.as_str());
        i += 1;
    }
    assert(views.take(joins.len() as int) =~= views);
    result
}

/// Notes the sessions that others went into in their place.
pub fn follow_joins(items: Vec<PlanItem>, joins: &Vec<Join>) -> (result: Vec<PlanItem>)
    ensures
        plan_views(result@) == plan_views(items@).map_values(
            |item: PlanItemView|
                PlanItemView {
                    matched_session_ids: following_joins(
                        item.matched_session_ids,
                        timeline::join_views(joins@),
                    ),
                    ..item
                },
        ),
{
    let ghost views = plan_views(items@);
    let ghost steps = timeline::join_views(joins@);
    let ghost change = |item: PlanItemView|
        PlanItemView {
            matched_session_ids: following_joins(item.matched_session_ids, steps),
            ..item
        };
    let mut result: Vec<PlanItem> = Vec::new();
    assert(plan_views(result@) =~= views.take(0).map_values(change));
    for item in it: items
        invariant
            views == plan_views(it.seq()),
            steps == timeline::join_views(joins@),
            change == (|item: PlanItemView|
                PlanItemView {
                    matched_session_ids: following_joins(item.matched_session_ids, steps),
                    ..item
                }),
            plan_views(result@) == views.take(it.index()).map_values(change),
    {
        let ghost i = it.index();
        let ghost view = item@;
        let ghost before = plan_views(result@);
        assert(views[i] == view);
        let mut after = item;
        after.matched_session_ids = follow(after.matched_session_ids, joins);
        assert(after@ =~= change(view));
        result.push(after);
        assert(plan_views(result@) =~= before.push(change(view)));
        assert(views.take(i + 1).map_values(change) =~= views.take(i).map_values(change).push(
            change(view),
        ));
    }
    assert(views.take(views.len() as int) =~= views);
    result
}

} // verus!
