//! Promises of what comes in: reports of browsers and editors, calendars, and nights.
use vstd::prelude::*;

use crate::ics;
use crate::ics::EventView;
use crate::ingest;
use crate::ingest::{IngestError, ReportView};
use crate::json::JsonView;
use crate::lists;
use crate::sleep;
use crate::sleep::{FirstLayerDebt, Night, SecondLayerDebt, SleepStep};
use crate::text;

verus! {

broadcast use vstd::seq_lib::group_seq_properties;

/// The text is the given one, as far as so many characters.
pub open spec fn is_cut(given: Seq<char>, count: nat, result: Seq<char>) -> bool {
    &&& given.len() <= count ==> result == given
    &&& given.len() > count ==> result == given.subrange(0, count as int)
}

/// The text, where one is given, is that one as far as so many characters; none otherwise.
pub open spec fn is_cut_option(
    given: Option<Seq<char>>,
    count: nat,
    result: Option<Seq<char>>,
) -> bool {
    match given {
        Some(inner) => result is Some && is_cut(inner, count, result.unwrap()),
        None => result is None,
    }
}

/// Reports of a browser and of an editor are told by their path; anything else is refused.
pub proof fn reports_are_told_by_their_path(path: Seq<char>, value: JsonView)
    ensures
        text::occurs(path, "/browser/tabs"@) ==> ingest::routed(path, value) == Ok::<
            ReportView,
            IngestError,
        >(ReportView::Browser(ingest::browser_report(value))),
        !text::occurs(path, "/browser/tabs"@) && text::occurs(path, "/vscode/activity"@)
            ==> ingest::routed(path, value) == Ok::<ReportView, IngestError>(
            ReportView::Editor(ingest::editor_report(value)),
        ),
        !text::occurs(path, "/browser/tabs"@) && !text::occurs(path, "/vscode/activity"@)
            ==> ingest::routed(path, value) == Err::<ReportView, IngestError>(
            IngestError::UnknownEndpoint,
        ),
{
}

/// A page that a browser reports about itself is taken as reported: its address, its tab and window,
/// and whether it can be heard or plays; its title is the title of the context where one is given.
pub proof fn reported_pages_are_taken(value: JsonView)
    requires
        value.member_text("url"@) is Some,
    ensures
        ({
            let report = ingest::browser_report(value);
            &&& is_cut_option(value.member_text("url"@), 1200, report.url)
            &&& report.tab_id == value.member_integer("tabId"@)
            &&& report.window_id == value.member_integer("windowId"@)
            &&& report.audible == value.member_flag("audible"@)
            &&& report.video_playing == value.member_flag("videoPlaying"@)
            &&& value.member_text("contextTitle"@) matches Some(title) ==> {
                &&& text::trimmed(title).len() > 0 ==> is_cut_option(
                    Some(title),
                    320,
                    report.title,
                ) && is_cut_option(Some(title), 320, report.context_title)
                &&& text::trimmed(title).len() == 0 ==> is_cut_option(
                    value.member_text("title"@),
                    320,
                    report.title,
                ) && report.context_title is None
            }
            &&& value.member_text("contextTitle"@) is None ==> is_cut_option(
                value.member_text("title"@),
                320,
                report.title,
            ) && report.context_title is None
            &&& value.member_text("eventId"@) matches Some(id) ==> is_cut(id, 200, report.event_id)
            &&& value.member_text("browser"@) matches Some(name) ==> is_cut(
                name,
                80,
                report.browser,
            )
            &&& value.member_text("browser"@) is None ==> report.browser == "Chromium"@
        }),
{
    reveal_strlit("Chromium");
}

/// A browser that reports only its windows is taken to show the active tab of the focused one, or of
/// the first where none is focused.
pub proof fn the_active_tab_is_reported(value: JsonView, window: JsonView, tab: JsonView)
    requires
        value.member_text("contextTitle"@) is None,
        value.member_text("title"@) is None,
        value.member_text("url"@) is None,
        ingest::first_marked(value.member_items("windows"@), "focused"@) == Some(window) || (
        ingest::first_marked(value.member_items("windows"@), "focused"@) is None
            && value.member_items("windows"@).len() > 0 && value.member_items("windows"@)[0]
            == window),
        ingest::first_marked(window.member_items("tabs"@), "active"@) == Some(tab),
    ensures
        ({
            let report = ingest::browser_report(value);
            &&& is_cut_option(tab.member_text("title"@), 320, report.title)
            &&& is_cut_option(tab.member_text("url"@), 1200, report.url)
            &&& report.tab_id == tab.member_integer("id"@)
            &&& report.window_id == window.member_integer("id"@)
            &&& report.audible == tab.member_flag("audible"@)
            &&& report.video_playing == tab.member_flag("videoPlaying"@)
        }),
{
}

/// The first marked item is marked, and none before it is; there is none only where none is marked.
pub proof fn the_first_marked_is_found(items: Seq<JsonView>, key: Seq<char>)
    ensures
        match ingest::first_marked(items, key) {
            Some(found) => exists|k: int|
                0 <= k < items.len() && #[trigger] items[k] == found && found.member_flag(key) && (
                forall|j: int| 0 <= j < k ==> !(#[trigger] items[j]).member_flag(key)),
            None => forall|k: int|
                0 <= k < items.len() ==> !(#[trigger] items[k]).member_flag(key),
        },
    decreases items.len(),
{
    if items.len() > 0 {
        if items[0].member_flag(key) {
            assert(items[0] == ingest::first_marked(items, key).unwrap());
        } else {
            let rest = items.drop_first();
            the_first_marked_is_found(rest, key);
            match ingest::first_marked(rest, key) {
                Some(found) => {
                    let k = choose|k: int|
                        0 <= k < rest.len() && #[trigger] rest[k] == found && found.member_flag(key)
                            && (forall|j: int|
                            0 <= j < k ==> !(#[trigger] rest[j]).member_flag(key));
                    assert(items[k + 1] == found);
                    assert forall|j: int| 0 <= j < k + 1 implies !(
                    #[trigger] items[j]).member_flag(key) by {
                        if j > 0 {
                            assert(rest[j - 1] == items[j]);
                        }
                    }
                },
                None => {
                    assert forall|j: int| 0 <= j < items.len() implies !(
                    #[trigger] items[j]).member_flag(key) by {
                        if j > 0 {
                            assert(rest[j - 1] == items[j]);
                        }
                    }
                },
            }
        }
    }
}

/// What an editor reports is taken as reported, each text as far as it may go. A report without an id
/// is known by its workspace and its file.
pub proof fn reported_work_is_taken(value: JsonView)
    ensures
        ({
            let report = ingest::editor_report(value);
            let folders = value.member_items("workspace"@);
            &&& is_cut_option(value.member_text("activeFile"@), 900, report.active_file)
            &&& is_cut_option(value.member_text("languageId"@), 80, report.language_id)
            &&& is_cut_option(value.member_text("gitBranch"@), 160, report.git_branch)
            &&& is_cut_option(value.member_text("eventKind"@), 80, report.event_kind)
            &&& is_cut_option(value.member_text("debugActive"@), 160, report.debug_active)
            &&& folders.len() == 0 ==> report.workspace is None
            &&& folders.len() > 0 && folders[0].member("path"@) is Some ==> is_cut_option(
                folders[0].member("path"@).unwrap().as_text(),
                900,
                report.workspace,
            )
            &&& folders.len() > 0 && folders[0].member("path"@) is None ==> is_cut_option(
                folders[0].member_text("name"@),
                900,
                report.workspace,
            )
            &&& value.member_text("eventId"@) matches Some(id) ==> is_cut(id, 200, report.event_id)
            &&& value.member_text("eventId"@) is None && report.workspace is Some
                && report.active_file is Some ==> is_cut(
                report.workspace.unwrap() + ":"@ + report.active_file.unwrap(),
                200,
                report.event_id,
            )
            &&& value.member_natural("terminalCount"@) is None ==> report.terminal_count == 0
            &&& value.member_natural("terminalCount"@) matches Some(count) ==> {
                &&& count <= u32::MAX ==> report.terminal_count == count
                &&& count > u32::MAX ==> report.terminal_count == u32::MAX
            }
        }),
{
}

/// A calendar entry is what its event says: its title, note and status, its start, and as due its end
/// or, without one, its start.
pub proof fn entries_are_what_the_event_says(event: EventView)
    ensures
        ({
            let item = ics::event_entry(event);
            &&& item.title == event.title
            &&& item.note == event.note
            &&& item.status == event.status
            &&& item.start_at == event.start
            &&& event.end is Some ==> item.due_at == event.end
            &&& event.end is None ==> item.due_at == event.start
            &&& item.source == "ICS"@
            &&& item.matched_session_ids.len() == 0
            &&& event.uid.len() > 0 ==> item.id == "ics:"@ + event.uid
        }),
{
}

/// Only what stands between the marks of an event counts. At its end an event with a title becomes one
/// entry, behind those before it; one without becomes none.
pub proof fn events_become_entries_at_their_end(event: EventView, line: Seq<char>)
    ensures
        line == "BEGIN:VEVENT"@ ==> (ics::with_line(event, line) matches Some(after) && after.open
            && after.items == event.items && after.title.len() == 0 && after.uid.len() == 0
            && after.start is None && after.end is None && after.note is None && after.status
            == "planned"@),
        line == "END:VEVENT"@ && event.open && event.title.len() > 0 ==> (ics::with_line(
            event,
            line,
        ) matches Some(after) && !after.open && after.items == event.items.push(
            ics::event_entry(event),
        )),
        line == "END:VEVENT"@ && event.open && event.title.len() == 0 ==> (ics::with_line(
            event,
            line,
        ) matches Some(after) && !after.open && after.items == event.items),
        line != "BEGIN:VEVENT"@ && !event.open ==> ics::with_line(event, line) == Some(event),
        line != "BEGIN:VEVENT"@ && line != "END:VEVENT"@ && event.open ==> (ics::with_line(
            event,
            line,
        ) matches Some(after) ==> after.open && after.items == event.items),
{
    reveal_strlit("BEGIN:VEVENT");
    reveal_strlit("END:VEVENT");
    assert("BEGIN:VEVENT"@.len() == 12 && "END:VEVENT"@.len() == 10);
}

/// A line that begins with a space or a tab continues the one before; any other is a line of its own,
/// without the marks that end it.
pub proof fn folded_lines_are_joined(lines: Seq<Seq<char>>, line: Seq<char>)
    ensures
        line.len() > 0 && (line[0] == ' ' || line[0] == '\t') && ics::unfolded(lines).len() > 0
            ==> ics::unfolded(lines.push(line)) == ics::unfolded(lines).update(
            ics::unfolded(lines).len() - 1,
            ics::unfolded(lines).last() + text::skip_while(line, |c: char| text::white(c)),
        ),
        line.len() > 0 && (line[0] == ' ' || line[0] == '\t') && ics::unfolded(lines).len() == 0
            ==> ics::unfolded(lines.push(line)).len() == 0,
        line.len() == 0 || (line[0] != ' ' && line[0] != '\t') ==> ics::unfolded(lines.push(line))
            == ics::unfolded(lines).push(text::drop_tail_while(line, |c: char| c == '\r')),
{
    let all = lines.push(line);
    assert(all.drop_last() =~= lines);
    assert(all.last() == line);
    let before = ics::unfolded(lines);
    if ics::continues(line) && before.len() > 0 {
        let joined = before.last() + ics::left_trimmed(line);
        assert(before.drop_last().push(joined) =~= before.update(before.len() - 1, joined));
    }
}

proof fn lemma_ascii(s: Seq<char>)
    requires
        forall|i: int| 0 <= i < s.len() ==> (#[trigger] s[i] as u32) < 0x80,
    ensures
        ics::byte_len(s) == s.len(),
    decreases s.len(),
{
    if s.len() > 0 {
        let rest = s.drop_last();
        assert forall|i: int| 0 <= i < rest.len() implies (#[trigger] rest[i] as u32) < 0x80 by {
            assert(rest[i] == s[i]);
        }
        lemma_ascii(rest);
        assert((s[s.len() - 1] as u32) < 0x80);
    }
}

proof fn lemma_ascii_cut(s: Seq<char>, bytes: nat)
    requires
        forall|i: int| 0 <= i < s.len() ==> (#[trigger] s[i] as u32) < 0x80,
        bytes <= s.len(),
    ensures
        ics::chars_in(s, bytes) == Some(bytes),
    decreases s.len(),
{
    lemma_ascii(s);
    if s.len() > bytes {
        let rest = s.drop_last();
        assert forall|i: int| 0 <= i < rest.len() implies (#[trigger] rest[i] as u32) < 0x80 by {
            assert(rest[i] == s[i]);
        }
        lemma_ascii_cut(rest, bytes);
    }
}

/// A calendar date of eight characters is the start of that day, and a time of fifteen is that time,
/// written with its parts set apart.
pub proof fn calendar_times_are_set_apart(value: Seq<char>)
    requires
        forall|i: int| 0 <= i < value.len() ==> (#[trigger] value[i] as u32) < 0x80,
        value.len() > 0,
        value.last() != 'Z',
    ensures
        value.len() == 8 ==> ics::normal_time(value) == Some(
            value.subrange(0, 4) + "-"@ + value.subrange(4, 6) + "-"@ + value.subrange(6, 8)
                + "T00:00:00Z"@,
        ),
        value.len() == 15 ==> ics::normal_time(value) == Some(
            value.subrange(0, 4) + "-"@ + value.subrange(4, 6) + "-"@ + value.subrange(6, 8)
                + "T"@ + (value.subrange(9, 11) + ":"@ + value.subrange(11, 13) + ":"@
                + value.subrange(13, 15)) + "Z"@,
        ),
        value.len() < 8 ==> ics::normal_time(value) == Some(value),
{
    assert(ics::unmarked(value) == value);
    lemma_ascii(value);
    if value.len() >= 8 {
        lemma_ascii_cut(value, 0);
        lemma_ascii_cut(value, 4);
        lemma_ascii_cut(value, 6);
        lemma_ascii_cut(value, 8);
    }
    if value.len() >= 15 {
        lemma_ascii_cut(value, 9);
        lemma_ascii_cut(value, 11);
        lemma_ascii_cut(value, 13);
        lemma_ascii_cut(value, 15);
    }
}

/// A mark for universal time at the end of a calendar time makes no difference.
pub proof fn marks_of_universal_time_are_dropped(value: Seq<char>)
    ensures
        ics::normal_time(value.push('Z')) == ics::normal_time(value),
{
    assert(value.push('Z').drop_last() =~= value);
}

proof fn lemma_behind_first_colon(head: Seq<char>, rest: Seq<char>)
    requires
        forall|i: int| 0 <= i < head.len() ==> #[trigger] head[i] != ':',
    ensures
        ics::behind_colon(head + ":"@ + rest) == Some(rest),
{
    reveal_strlit(":");
    let line = head + ":"@ + rest;
    let at = head.len() as int;
    assert(line[at] == ':');
    assert(line.subrange(at, at + 1) =~= ":"@);
    assert(text::occurs_at(line, ":"@, at));
    assert forall|k: int| 0 <= k < at implies !text::occurs_at(line, ":"@, k) by {
        if text::occurs_at(line, ":"@, k) {
            assert(line.subrange(k, k + 1)[0] == line[k]);
            assert(line[k] == head[k]);
        }
    }
    text::lemma_first_at(line, ":"@, at);
    assert(line.skip(at + 1) =~= rest);
}

/// The properties of an event are read from the lines that begin with their names, and hold what
/// follows the colon.
pub proof fn properties_are_read_by_name(event: EventView, rest: Seq<char>)
    ensures
        ics::with_property(event, "SUMMARY"@ + ":"@ + rest) == Some(
            EventView { title: ics::unescaped(rest), ..event },
        ),
        ics::with_property(event, "DESCRIPTION"@ + ":"@ + rest) == Some(
            EventView { note: Some(ics::unescaped(rest)), ..event },
        ),
        ics::with_property(event, "STATUS"@ + ":"@ + rest) == Some(
            EventView { status: text::lowercase(rest), ..event },
        ),
        ics::with_property(event, "UID"@ + ":"@ + rest) == Some(
            EventView { uid: rest.map_values(|c: char| ics::id_char(c)), ..event },
        ),
{
    lemma_uid_line(rest);
    lemma_summary_line(rest);
    lemma_description_line(rest);
    lemma_status_line(rest);
}

proof fn lemma_uid_line(rest: Seq<char>)
    ensures
        ics::value_of("UID"@ + ":"@ + rest, "UID"@) == Some(rest),
{
    reveal_strlit("UID");
    lemma_behind_first_colon("UID"@, rest);
    lemma_named("UID"@, rest);
}

proof fn lemma_summary_line(rest: Seq<char>)
    ensures
        ics::value_of("SUMMARY"@ + ":"@ + rest, "SUMMARY"@) == Some(rest),
        ics::value_of("SUMMARY"@ + ":"@ + rest, "UID"@) is None,
{
    reveal_strlit("SUMMARY");
    reveal_strlit("UID");
    lemma_behind_first_colon("SUMMARY"@, rest);
    lemma_named("SUMMARY"@, rest);
    let line = "SUMMARY"@ + ":"@ + rest;
    assert(line[0] == "SUMMARY"@[0] && line[1] == "SUMMARY"@[1]);
    lemma_not_named(line, "UID"@, 0);
}

proof fn lemma_description_line(rest: Seq<char>)
    ensures
        ics::value_of("DESCRIPTION"@ + ":"@ + rest, "DESCRIPTION"@) == Some(rest),
        ics::value_of("DESCRIPTION"@ + ":"@ + rest, "UID"@) is None,
        ics::value_of("DESCRIPTION"@ + ":"@ + rest, "SUMMARY"@) is None,
{
    reveal_strlit("DESCRIPTION");
    reveal_strlit("UID");
    reveal_strlit("SUMMARY");
    lemma_behind_first_colon("DESCRIPTION"@, rest);
    lemma_named("DESCRIPTION"@, rest);
    let line = "DESCRIPTION"@ + ":"@ + rest;
    assert(line[0] == "DESCRIPTION"@[0] && line[1] == "DESCRIPTION"@[1]);
    lemma_not_named(line, "UID"@, 0);
    lemma_not_named(line, "SUMMARY"@, 0);
}

proof fn lemma_status_line(rest: Seq<char>)
    ensures
        ics::value_of("STATUS"@ + ":"@ + rest, "STATUS"@) == Some(rest),
        ics::value_of("STATUS"@ + ":"@ + rest, "UID"@) is None,
        ics::value_of("STATUS"@ + ":"@ + rest, "SUMMARY"@) is None,
        ics::value_of("STATUS"@ + ":"@ + rest, "DESCRIPTION"@) is None,
{
    reveal_strlit("STATUS");
    reveal_strlit("UID");
    reveal_strlit("SUMMARY");
    reveal_strlit("DESCRIPTION");
    lemma_behind_first_colon("STATUS"@, rest);
    lemma_named("STATUS"@, rest);
    let line = "STATUS"@ + ":"@ + rest;
    assert(line[0] == "STATUS"@[0] && line[1] == "STATUS"@[1]);
    lemma_not_named(line, "UID"@, 0);
    lemma_not_named(line, "SUMMARY"@, 1);
    lemma_not_named(line, "DESCRIPTION"@, 0);
}

proof fn lemma_named(name: Seq<char>, rest: Seq<char>)
    ensures
        text::has_prefix(name + ":"@ + rest, name + ":"@),
{
    let line = name + ":"@ + rest;
    assert(line.take((name + ":"@).len() as int) =~= name + ":"@);
}

proof fn lemma_not_named(line: Seq<char>, name: Seq<char>, at: int)
    requires
        0 <= at < name.len(),
        at < line.len(),
        line[at] != name[at],
    ensures
        ics::value_of(line, name) is None,
{
    if text::has_prefix(line, name + ":"@) {
        assert(line.take((name + ":"@).len() as int)[at] == line[at]);
        assert((name + ":"@)[at] == name[at]);
    }
    if text::has_prefix(line, name + ";"@) {
        assert(line.take((name + ";"@).len() as int)[at] == line[at]);
        assert((name + ";"@)[at] == name[at]);
    }
}

/// A night shorter than eight hours falls short of them, a longer one passes them, by as many seconds.
pub proof fn nights_are_measured_against_eight_hours(slept: u64)
    ensures
        slept < 28_800 ==> sleep::night(slept) is Short && sleep::night(slept)->Short_seconds
            + slept == 28_800,
        slept > 28_800 ==> sleep::night(slept) is Long && 28_800 + sleep::night(
            slept,
        )->Long_seconds == slept,
        slept == 28_800 ==> sleep::night(slept) is Even,
{
}

/// A week's demand comes on Mondays, and on no other day.
pub proof fn weekly_debts_come_on_mondays(first: Seq<FirstLayerDebt>, day: i32, slot: usize)
    ensures
        sleep::monday(1),
        sleep::monday(day as int) <==> sleep::monday(day + 7),
        sleep::monday(day as int) ==> !sleep::monday(day + 1) && !sleep::monday(day + 2)
            && !sleep::monday(day + 3) && !sleep::monday(day + 4) && !sleep::monday(day + 5)
            && !sleep::monday(day + 6),
        !sleep::monday(day as int) ==> sleep::with_monday(first, day, slot) == first,
        sleep::monday(day as int) ==> sleep::with_monday(first, day, slot) == first.push(
            FirstLayerDebt { origin: day, compounds_daily: false, slot },
        ),
{
}

/// Every debt of the first layer stays there or moves on: seven days after it arose it moves to the
/// second, entering it that day, and no debt is lost or made up.
pub proof fn debts_stay_or_move_on(
    first: Seq<FirstLayerDebt>,
    second: Seq<SecondLayerDebt>,
    day: i32,
    debt: FirstLayerDebt,
)
    requires
        first.contains(debt),
    ensures
        day - debt.origin < 7 ==> sleep::staying(first, day as int).contains(debt)
            && !sleep::leaving(first, day as int).contains(debt),
        day - debt.origin >= 7 ==> !sleep::staying(first, day as int).contains(debt)
            && sleep::extended(first, second, day).contains(
            SecondLayerDebt { entered: day, slot: debt.slot },
        ),
        forall|known: SecondLayerDebt| #[trigger]
            second.contains(known) ==> sleep::extended(first, second, day).contains(known),
{
    let stays = |debt: FirstLayerDebt| !sleep::overdue(debt, day as int);
    let leaves = |debt: FirstLayerDebt| sleep::overdue(debt, day as int);
    lists::lemma_filtered(first, stays);
    lists::lemma_filtered(first, leaves);
    assert(first.filter(stays).contains(debt) <==> first.contains(debt) && stays(debt));
    assert(first.filter(leaves).contains(debt) <==> first.contains(debt) && leaves(debt));
    let gone = sleep::leaving(first, day as int);
    let moved = gone.map_values(|debt: FirstLayerDebt| sleep::demoted(debt, day));
    let all = sleep::extended(first, second, day);
    if day - debt.origin >= 7 {
        let k = choose|k: int| 0 <= k < gone.len() && gone[k] == debt;
        assert(all[second.len() + k] == moved[k]);
        assert(all.contains(SecondLayerDebt { entered: day, slot: debt.slot }));
    }
    assert forall|known: SecondLayerDebt| #[trigger] second.contains(known) implies all.contains(
        known,
    ) by {
        let k = choose|k: int| 0 <= k < second.len() && second[k] == known;
        assert(all[k] == known);
    }
}

/// A debt of the second layer doubles whenever whole weeks have passed since it entered, and a debt of
/// the first grows daily where it is one that does.
pub proof fn debts_grow_when_due(
    first: Seq<FirstLayerDebt>,
    second: Seq<SecondLayerDebt>,
    day: int,
)
    ensures
        forall|debt: SecondLayerDebt| #[trigger]
            sleep::doubling(second, day).contains(debt) <==> second.contains(debt) && day
                > debt.entered && (day - debt.entered) % 7 == 0,
        forall|debt: FirstLayerDebt| #[trigger]
            sleep::growing(first).contains(debt) <==> first.contains(debt) && debt.compounds_daily,
{
    let doubles = |debt: SecondLayerDebt| sleep::week_over(debt, day);
    let grows = |debt: FirstLayerDebt| debt.compounds_daily;
    lists::lemma_filtered(second, doubles);
    lists::lemma_filtered(first, grows);
    assert forall|debt: SecondLayerDebt| #[trigger]
        sleep::doubling(second, day).contains(debt) <==> second.contains(debt) && day
            > debt.entered && (day - debt.entered) % 7 == 0 by {
        assert(second.filter(doubles).contains(debt) <==> second.contains(debt) && doubles(debt));
    }
    assert forall|debt: FirstLayerDebt| #[trigger]
        sleep::growing(first).contains(debt) <==> first.contains(debt) && debt.compounds_daily by {
        assert(first.filter(grows).contains(debt) <==> first.contains(debt) && grows(debt));
    }
}

/// A debt that was paid is dropped, and no other.
pub proof fn only_paid_debts_are_dropped(
    first: Seq<FirstLayerDebt>,
    second: Seq<SecondLayerDebt>,
    spent: Seq<usize>,
)
    ensures
        forall|debt: FirstLayerDebt| #[trigger]
            sleep::unpaid_first(first, spent).contains(debt) <==> first.contains(debt)
                && !spent.contains(debt.slot),
        forall|debt: SecondLayerDebt| #[trigger]
            sleep::unpaid_second(second, spent).contains(debt) <==> second.contains(debt)
                && !spent.contains(debt.slot),
{
    let open = |debt: FirstLayerDebt| !spent.contains(debt.slot);
    let later = |debt: SecondLayerDebt| !spent.contains(debt.slot);
    lists::lemma_filtered(first, open);
    lists::lemma_filtered(second, later);
    assert forall|debt: FirstLayerDebt| #[trigger]
        sleep::unpaid_first(first, spent).contains(debt) <==> first.contains(debt)
            && !spent.contains(debt.slot) by {
        assert(first.filter(open).contains(debt) <==> first.contains(debt) && open(debt));
    }
    assert forall|debt: SecondLayerDebt| #[trigger]
        sleep::unpaid_second(second, spent).contains(debt) <==> second.contains(debt)
            && !spent.contains(debt.slot) by {
        assert(second.filter(later).contains(debt) <==> second.contains(debt) && later(debt));
    }
}

/// Only a long night repays, the second layer only once the first is empty and something is left; every
/// day is settled and noted.
pub proof fn only_long_nights_repay(
    night: Night,
    first_layer_empty: bool,
    surplus_left: bool,
    more_days: bool,
)
    ensures
        sleep::following_step(SleepStep::Count, night, first_layer_empty, surplus_left, more_days)
            is RepayFirst <==> night is Long,
        !(night is Long) ==> sleep::following_step(
            SleepStep::Count,
            night,
            first_layer_empty,
            surplus_left,
            more_days,
        ) is Settle,
        sleep::following_step(
            SleepStep::RepayFirst,
            night,
            first_layer_empty,
            surplus_left,
            more_days,
        ) is RepaySecond <==> first_layer_empty && surplus_left,
        !(first_layer_empty && surplus_left) ==> sleep::following_step(
            SleepStep::RepayFirst,
            night,
            first_layer_empty,
            surplus_left,
            more_days,
        ) is Settle,
        sleep::following_step(SleepStep::Settle, night, first_layer_empty, surplus_left, more_days)
            is Note,
        sleep::following_step(SleepStep::Note, night, first_layer_empty, surplus_left, more_days)
            is Begin <==> more_days,
        !more_days ==> sleep::following_step(
            SleepStep::Note,
            night,
            first_layer_empty,
            surplus_left,
            more_days,
        ) is Finish,
{
}

/// Debts are repaid in the order in which they arose, and on one day those that grow come first.
pub proof fn older_debts_come_first(debts: Seq<FirstLayerDebt>, i: int, j: int)
    requires
        0 <= i < j < sleep::in_due_order(debts).len(),
    ensures
        ({
            let order = sleep::in_due_order(debts);
            &&& order[i].origin <= order[j].origin
            &&& order[i].origin == order[j].origin && order[j].compounds_daily
                ==> order[i].compounds_daily
        }),
{
    sleep::oldest_debts_are_repaid_first(debts);
    let order = sleep::in_due_order(debts);
    assert(!sleep::first_due(order[j], order[i]));
}

proof fn lemma_entered(debts: Seq<SecondLayerDebt>, debt: SecondLayerDebt)
    requires
        forall|i: int, j: int|
            0 <= i < j < debts.len() ==> (#[trigger] debts[i]).entered <= (
            #[trigger] debts[j]).entered,
    ensures
        ({
            let after = sleep::insert_entered(debts, debt);
            &&& after.len() == debts.len() + 1
            &&& forall|i: int, j: int|
                0 <= i < j < after.len() ==> (#[trigger] after[i]).entered <= (
                #[trigger] after[j]).entered
            &&& forall|k: int|
                0 <= k < after.len() ==> (#[trigger] after[k]).entered == debt.entered
                    || debts.contains(after[k])
            &&& forall|other: SecondLayerDebt| #[trigger]
                debts.contains(other) ==> after.contains(other)
            &&& after.contains(debt)
        }),
    decreases debts.len(),
{
    let after = sleep::insert_entered(debts, debt);
    if debts.len() == 0 || !(debt.entered < debts.last().entered) {
        assert(after[debts.len() as int] == debt);
        assert forall|i: int, j: int| 0 <= i < j < after.len() implies (
        #[trigger] after[i]).entered <= (#[trigger] after[j]).entered by {
            if j == debts.len() && i < debts.len() - 1 {
                assert(debts[i].entered <= debts[debts.len() - 1].entered);
            } else if j < debts.len() {
                assert(debts[i].entered <= debts[j].entered);
            }
        }
        assert forall|other: SecondLayerDebt| #[trigger] debts.contains(other) implies after.contains(
            other,
        ) by {
            let k = choose|k: int| 0 <= k < debts.len() && debts[k] == other;
            assert(after[k] == other);
        }
        assert forall|k: int| 0 <= k < after.len() implies (#[trigger] after[k]).entered
            == debt.entered || debts.contains(after[k]) by {
            if k < debts.len() {
                assert(after[k] == debts[k]);
            }
        }
    } else {
        let rest = debts.drop_last();
        assert forall|i: int, j: int| 0 <= i < j < rest.len() implies (#[trigger] rest[i]).entered
            <= (#[trigger] rest[j]).entered by {
            assert(debts[i].entered <= debts[j].entered);
        }
        lemma_entered(rest, debt);
        let before = sleep::insert_entered(rest, debt);
        assert forall|k: int| 0 <= k < before.len() implies (#[trigger] before[k]).entered
            == debt.entered || debts.contains(before[k]) by {
            if rest.contains(before[k]) {
                let m = choose|m: int| 0 <= m < rest.len() && rest[m] == before[k];
                assert(debts[m] == before[k]);
            }
        }
        assert forall|i: int, j: int| 0 <= i < j < after.len() implies (
        #[trigger] after[i]).entered <= (#[trigger] after[j]).entered by {
            if j == before.len() {
                assert(after[i] == before[i]);
                if rest.contains(before[i]) {
                    let m = choose|m: int| 0 <= m < rest.len() && rest[m] == before[i];
                    assert(debts[m].entered <= debts[debts.len() - 1].entered);
                }
            } else {
                assert(before[i].entered <= before[j].entered);
            }
        }
        assert forall|other: SecondLayerDebt| #[trigger] debts.contains(other) implies after.contains(
            other,
        ) by {
            let k = choose|k: int| 0 <= k < debts.len() && debts[k] == other;
            if k < rest.len() {
                assert(rest[k] == other);
                assert(rest.contains(other));
                let m = choose|m: int| 0 <= m < before.len() && before[m] == other;
                assert(after[m] == other);
            } else {
                assert(after[before.len() as int] == other);
            }
        }
        let m = choose|m: int| 0 <= m < before.len() && before[m] == debt;
        assert(after[m] == debt);
        assert forall|k: int| 0 <= k < after.len() implies (#[trigger] after[k]).entered
            == debt.entered || debts.contains(after[k]) by {
            if k < before.len() {
                assert(after[k] == before[k]);
            } else {
                assert(debts[debts.len() - 1] == after[k]);
            }
        }
    }
}

/// The second layer is repaid in the order in which its debts entered it, and none is forgotten.
pub proof fn earlier_entered_debts_come_first(debts: Seq<SecondLayerDebt>)
    ensures
        ({
            let order = sleep::in_entry_order(debts);
            &&& order.len() == debts.len()
            &&& forall|i: int, j: int|
                0 <= i < j < order.len() ==> (#[trigger] order[i]).entered <= (
                #[trigger] order[j]).entered
            &&& forall|debt: SecondLayerDebt| #[trigger]
                debts.contains(debt) ==> order.contains(debt)
        }),
    decreases debts.len(),
{
    if debts.len() > 0 {
        let rest = debts.drop_last();
        earlier_entered_debts_come_first(rest);
        lemma_entered(sleep::in_entry_order(rest), debts.last());
        let order = sleep::in_entry_order(debts);
        assert forall|debt: SecondLayerDebt| #[trigger] debts.contains(debt) implies order.contains(
            debt,
        ) by {
            let k = choose|k: int| 0 <= k < debts.len() && debts[k] == debt;
            if k < rest.len() {
                assert(rest[k] == debt);
                assert(rest.contains(debt));
                assert(sleep::in_entry_order(rest).contains(debt));
            }
        }
    }
}

} // verus!
