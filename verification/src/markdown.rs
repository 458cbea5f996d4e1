//! The note on a session.

use vstd::prelude::*;

use crate::clock::date_at;
use crate::clock::format_date_at;
use crate::clock::format_time_at;
use crate::clock::is_offset;
use crate::clock::machine_offset;
use crate::clock::present_time;
use crate::clock::time_at;
use crate::clock::LAST_INSTANT;
use crate::entry::chars_of;
use crate::entry::display_of;
use crate::entry::timestamp_millis;
use crate::entry::SessionLogEntry;
use crate::order::ascending;
use crate::order::insert_text;
use crate::order::sorted_distinct;
use crate::project::first_cwd;
use crate::project::get_first_cwd;
use crate::project::get_session_project;
use crate::project::session_project;
use crate::select::kept;
use crate::select::lemma_first_kept;
use crate::select::lemma_kept_before;
use crate::select::select_entries;
use crate::summary::get_summary;
use crate::summary::summary_of;
use crate::text::join;
use crate::text::joined;
use crate::text::same_text;
use crate::text::views;

verus! {

/// The date and the time of day under which an entry is shown.
#[derive(Debug)]
pub struct Stamp {
    pub date: String,
    pub time: String,
}

/// The text, or an empty one where there is none.
pub open spec fn or_empty(text: Option<Seq<char>>) -> Seq<char> {
    match text {
        Some(t) => t,
        None => Seq::empty(),
    }
}

/// The text, or `unknown` where there is none.
pub open spec fn or_unknown(text: Option<Seq<char>>) -> Seq<char> {
    match text {
        Some(t) => t,
        None => "unknown"@,
    }
}

/// The properties of the note.
pub open spec fn front_matter(
    date: Seq<char>,
    time: Seq<char>,
    project: Seq<char>,
    cwd: Seq<char>,
    summary: Seq<char>,
) -> Seq<char> {
    "---\ndate: "@ + date + "\ntime: "@ + time + "\ndatetime: "@ + date + " "@ + time
        + "\nproject: "@ + project + "\ncwd: "@ + cwd + "\nsummary: "@ + summary + "\n---\n\n"@
}

/// The identifiers of the agents of the first `n` entries, those that are not empty.
pub open spec fn agent_ids_before(entries: Seq<SessionLogEntry>, n: nat) -> Seq<Seq<char>>
    decreases n,
{
    if n == 0 {
        Seq::empty()
    } else {
        let before = agent_ids_before(entries, (n - 1) as nat);
        match chars_of(entries[n - 1].agent_id) {
            Some(id) => if id.len() > 0 {
                before.push(id)
            } else {
                before
            },
            None => before,
        }
    }
}

/// The agents of a session, each once, in order.
pub open spec fn agent_ids(entries: Seq<SessionLogEntry>) -> Seq<Seq<char>> {
    sorted_distinct(agent_ids_before(entries, entries.len()))
}

/// The line that lists the agents of a session, where there is any.
pub open spec fn agents_line(entries: Seq<SessionLogEntry>) -> Seq<char> {
    if agent_ids(entries).len() > 0 {
        "**Subagents:** "@ + joined(agent_ids(entries), ", "@) + "\n"@
    } else {
        Seq::empty()
    }
}

/// The heading of the note, and what it says of the session as a whole.
pub open spec fn heading(
    entries: Seq<SessionLogEntry>,
    project: Seq<char>,
    generated: Seq<char>,
) -> Seq<char> {
    "# Session: "@ + or_unknown(chars_of(entries[0].session_id)) + "\n\n**Project:** "@ + project
        + "\n"@ + agents_line(entries) + "**Generated:** "@ + generated + "\n\n"@
}

/// Who says what an entry shows.
pub open spec fn role(entry: SessionLogEntry) -> Seq<char> {
    if chars_of(entry.entry_type) == Some("user"@) {
        "**User:** "@
    } else if chars_of(entry.entry_type) == Some("assistant"@) {
        "**Assistant:** "@
    } else if chars_of(entry.entry_type) == Some("progress"@) {
        "**Output:** "@
    } else {
        Seq::empty()
    }
}

/// What the note says of one entry: nothing where nothing is shown of it.
pub open spec fn entry_section(entry: SessionLogEntry, time: Seq<char>) -> Seq<char> {
    match display_of(entry) {
        Some(shown) => "### "@ + time + "\n"@ + role(entry) + shown + "\n\n"@,
        None => Seq::empty(),
    }
}

/// What the note says of the first `n` of the chosen entries, as far as they are of one date.
pub open spec fn day_entries(
    entries: Seq<SessionLogEntry>,
    places: Seq<usize>,
    stamps: Seq<Stamp>,
    date: Seq<char>,
    n: nat,
) -> Seq<char>
    decreases n,
{
    if n == 0 {
        Seq::empty()
    } else {
        let before = day_entries(entries, places, stamps, date, (n - 1) as nat);
        if stamps[n - 1].date@ == date {
            before + entry_section(entries[places[n - 1] as int], stamps[n - 1].time@)
        } else {
            before
        }
    }
}

/// What the note says of one day.
pub open spec fn day_section(
    entries: Seq<SessionLogEntry>,
    places: Seq<usize>,
    stamps: Seq<Stamp>,
    date: Seq<char>,
) -> Seq<char> {
    "## "@ + date + "\n\n"@ + day_entries(entries, places, stamps, date, places.len())
}

/// What the note says of the days, one after the other.
pub open spec fn day_sections(
    entries: Seq<SessionLogEntry>,
    places: Seq<usize>,
    stamps: Seq<Stamp>,
    dates: Seq<Seq<char>>,
) -> Seq<char>
    decreases dates.len(),
{
    if dates.len() == 0 {
        Seq::empty()
    } else {
        day_sections(entries, places, stamps, dates.drop_last()) + day_section(
            entries,
            places,
            stamps,
            dates.last(),
        )
    }
}

/// The dates of the stamps.
pub open spec fn stamp_dates(stamps: Seq<Stamp>) -> Seq<Seq<char>> {
    Seq::new(stamps.len(), |i: int| stamps[i].date@)
}

/// The note on a session: the entries at the given places, each under the date and the time of
/// its stamp, the dates in order.
pub open spec fn note(
    entries: Seq<SessionLogEntry>,
    places: Seq<usize>,
    stamps: Seq<Stamp>,
    project: Option<Seq<char>>,
    generated: Seq<char>,
) -> Seq<char> {
    if entries.len() == 0 {
        Seq::empty()
    } else {
        front_matter(
            stamps[0].date@,
            stamps[0].time@,
            or_unknown(project),
            or_empty(first_cwd(entries)),
            or_empty(summary_of(entries)),
        ) + heading(entries, or_unknown(project), generated) + day_sections(
            entries,
            places,
            stamps,
            sorted_distinct(stamp_dates(stamps)),
        )
    }
}

/// Writes the properties of the note.
fn write_front_matter(
    stamp: &Stamp,
    project: &str,
    cwd: &str,
    summary: &str,
) -> (text: String)
    ensures
        text@ == front_matter(stamp.date@, stamp.time@, project@, cwd@, summary@),
{
    let mut text = "---\ndate: ".to_owned();
    text.append(stamp.date.as_str());
    text.append("\ntime: ");
    text.append(stamp.time.as_str());
    text.append("\ndatetime: ");
    text.append(stamp.date.as_str());
    text.append(" ");
    text.append(stamp.time.as_str());
    text.append("\nproject: ");
    text.append(project);
    text.append("\ncwd: ");
    text.append(cwd);
    text.append("\nsummary: ");
    text.append(summary);
    text.append("\n---\n\n");
    text
}

/// Lists the agents of a session, each once, in order.
pub fn get_agent_ids(entries: &[SessionLogEntry]) -> (ids: Vec<String>)
    ensures
        views(ids@) == agent_ids(entries@),
{
    let mut ids: Vec<String> = Vec::new();
    let mut i: usize = 0;
    assert(views(ids@) =~= Seq::empty());
    while i < entries.len()
        invariant
            i <= entries@.len(),
            ascending(views(ids@)),
            views(ids@) == sorted_distinct(agent_ids_before(entries@, i as nat)),
        decreases entries@.len() - i,
    {
        if let Some(id) = &entries[i].agent_id {
            if !id.as_str().is_empty() {
                insert_text(&mut ids, id.as_str());
                proof {
                    let before = agent_ids_before(entries@, i as nat);
                    assert(before.push(id@).drop_last() =~= before);
                }
            }
        }
        i = i + 1;
    }
    ids
}

/// Writes the heading of the note.
fn write_heading(entries: &[SessionLogEntry], project: &str, generated: &str) -> (text: String)
    requires
        entries@.len() > 0,
    ensures
        text@ == heading(entries@, project@, generated@),
{
    let mut text = "# Session: ".to_owned();
    match &entries[0].session_id {
        Some(id) => text.append(id.as_str()),
        None => text.append("unknown"),
    }
    text.append("\n\n**Project:** ");
    text.append(project);
    text.append("\n");
    let ghost start = text@;
    let ids = get_agent_ids(entries);
    if ids.len() > 0 {
        let mut line = "**Subagents:** ".to_owned();
        line.append(join(&ids, ", ").as_str());
        line.append("\n");
        text.append(line.as_str());
    }
    assert(text@ =~= start + agents_line(entries@));
    text.append("**Generated:** ");
    text.append(generated);
    text.append("\n\n");
    text
}

/// Writes what the note says of one entry.
fn write_entry(entry: &SessionLogEntry, time: &str) -> (text: String)
    ensures
        text@ == entry_section(*entry, time@),
{
    match entry.get_display() {
        Some(shown) => {
            let mut text = "### ".to_owned();
            text.append(time);
            text.append("\n");
            let ghost start = text@;
            if entry.has_type("user") {
                text.append("**User:** ");
            } else if entry.has_type("assistant") {
                text.append("**Assistant:** ");
            } else if entry.has_type("progress") {
                text.append("**Output:** ");
            }
            assert(text@ =~= start + role(*entry));
            text.append(shown.as_str());
            text.append("\n\n");
            text
        },
        None => String::new(),
    }
}

/// Writes what the note says of one day.
fn write_day(
    entries: &[SessionLogEntry],
    places: &Vec<usize>,
    stamps: &Vec<Stamp>,
    date: &str,
) -> (text: String)
    requires
        places@.len() == stamps@.len(),
        forall|k: int| 0 <= k < places@.len() ==> #[trigger] places@[k] < entries@.len(),
    ensures
        text@ == day_section(entries@, places@, stamps@, date@),
{
    let mut text = "## ".to_owned();
    text.append(date);
    text.append("\n\n");
    let ghost start = text@;
    let mut k: usize = 0;
    assert(start + Seq::<char>::empty() =~= start);
    while k < places.len()
        invariant
            k <= places@.len(),
            places@.len() == stamps@.len(),
            forall|k: int| 0 <= k < places@.len() ==> #[trigger] places@[k] < entries@.len(),
            text@ == start + day_entries(entries@, places@, stamps@, date@, k as nat),
        decreases places@.len() - k,
    {
        let ghost before = day_entries(entries@, places@, stamps@, date@, k as nat);
        if same_text(stamps[k].date.as_str(), date) {
            let section = write_entry(&entries[places[k]], stamps[k].time.as_str());
            text.append(section.as_str());
            assert(start + before + section@ =~= start + (before + section@));
        }
        k = k + 1;
    }
    text
}

/// Lists the dates of the stamps, each once, in order.
fn list_dates(stamps: &Vec<Stamp>) -> (dates: Vec<String>)
    ensures
        views(dates@) == sorted_distinct(stamp_dates(stamps@)),
{
    let mut dates: Vec<String> = Vec::new();
    let ghost all = stamp_dates(stamps@);
    let mut k: usize = 0;
    assert(views(dates@) =~= sorted_distinct(all.take(0)));
    while k < stamps.len()
        invariant
            k <= stamps@.len(),
            all == stamp_dates(stamps@),
            ascending(views(dates@)),
            views(dates@) == sorted_distinct(all.take(k as int)),
        decreases stamps@.len() - k,
    {
        insert_text(&mut dates, stamps[k].date.as_str());
        proof {
            assert(all.take(k + 1).drop_last() =~= all.take(k as int));
            assert(all.take(k + 1).last() == stamps@[k as int].date@);
        }
        k = k + 1;
    }
    assert(all.take(stamps@.len() as int) =~= all);
    dates
}

/// Writes the note on a session: the entries at the given places, each under the date and the
/// time of its stamp, the dates in order.
pub fn render_session(
    entries: &[SessionLogEntry],
    places: &Vec<usize>,
    stamps: &Vec<Stamp>,
    project: Option<&str>,
    generated: &str,
) -> (text: String)
    requires
        places@.len() == stamps@.len(),
        entries@.len() > 0 ==> stamps@.len() > 0,
        forall|k: int| 0 <= k < places@.len() ==> #[trigger] places@[k] < entries@.len(),
    ensures
        text@ == note(
            entries@,
            places@,
            stamps@,
            match project {
                Some(p) => Some(p@),
                None => None,
            },
            generated@,
        ),
{
    if entries.len() == 0 {
        return String::new();
    }
    let name = match project {
        Some(p) => p,
        None => "unknown",
    };
    let cwd = match get_first_cwd(entries) {
        Some(p) => p.to_owned(),
        None => String::new(),
    };
    let summary = match get_summary(entries) {
        Some(s) => s,
        None => String::new(),
    };
    let mut text = write_front_matter(&stamps[0], name, cwd.as_str(), summary.as_str());
    text.append(write_heading(entries, name, generated).as_str());
    let ghost start = text@;
    let dates = list_dates(stamps);
    let ghost all = views(dates@);
    let mut d: usize = 0;
    assert(start + day_sections(entries@, places@, stamps@, all.take(0)) =~= start);
    while d < dates.len()
        invariant
            d <= dates@.len(),
            all == views(dates@),
            places@.len() == stamps@.len(),
            forall|k: int| 0 <= k < places@.len() ==> #[trigger] places@[k] < entries@.len(),
            text@ == start + day_sections(entries@, places@, stamps@, all.take(d as int)),
        decreases dates@.len() - d,
    {
        let section = write_day(entries, places, stamps, dates[d].as_str());
        text.append(section.as_str());
        proof {
            let before = day_sections(entries@, places@, stamps@, all.take(d as int));
            assert(all.take(d + 1).drop_last() =~= all.take(d as int));
            assert(all.take(d + 1).last() == dates@[d as int]@);
            assert(start + before + section@ =~= start + (before + section@));
        }
        d = d + 1;
    }
    assert(all.take(dates@.len() as int) =~= all);
    text
}

/// Whether `chrono` can hold the time of every entry that is kept.
pub open spec fn times_fit(entries: Seq<SessionLogEntry>) -> bool {
    forall|k: int|
        0 <= k < kept(entries).len() ==> timestamp_millis(
            entries[#[trigger] kept(entries)[k] as int],
        ) <= LAST_INSTANT
}

/// Whether a stamp is the date and the time of day of an instant on a clock that is `offset`
/// seconds ahead of UTC.
pub open spec fn is_stamp_at(stamp: Stamp, millis: u64, offset: int) -> bool {
    stamp.date@ == date_at(millis, offset) && stamp.time@ == time_at(millis, offset)
}

/// Whether a stamp is the date and the time of day of an instant at some distance from UTC, the
/// same one for both.
pub open spec fn is_stamp_of(stamp: Stamp, millis: u64) -> bool {
    exists|offset: int| is_offset(offset) && #[trigger] is_stamp_at(stamp, millis, offset)
}

/// Whether the stamps are those of the kept entries.
pub open spec fn are_stamps(entries: Seq<SessionLogEntry>, stamps: Seq<Stamp>) -> bool {
    &&& stamps.len() == kept(entries).len()
    &&& forall|k: int|
        0 <= k < stamps.len() ==> is_stamp_of(
            #[trigger] stamps[k],
            timestamp_millis(entries[kept(entries)[k] as int]),
        )
}

/// Whether a text is the note on a session with the given stamps, for some time at which it was
/// made.
pub open spec fn is_stamped_note(
    text: Seq<char>,
    entries: Seq<SessionLogEntry>,
    stamps: Seq<Stamp>,
    project: Option<Seq<char>>,
) -> bool {
    exists|generated: Seq<char>|
        text == #[trigger] note(entries, kept(entries), stamps, project, generated)
}

/// Whether a text is the note on a session, for some clock and some time at which it was made.
pub open spec fn is_note(
    text: Seq<char>,
    entries: Seq<SessionLogEntry>,
    project: Option<Seq<char>>,
) -> bool {
    exists|stamps: Seq<Stamp>|
        are_stamps(entries, stamps) && #[trigger] is_stamped_note(text, entries, stamps, project)
}

/// Tells whether `chrono` can hold the time of every entry at the places that are kept.
pub(crate) fn can_stamp(entries: &[SessionLogEntry], places: &Vec<usize>) -> (fit: bool)
    requires
        places@ == kept(entries@),
    ensures
        fit == times_fit(entries@),
{
    proof {
        assert(entries@.len() == entries.len());
        lemma_kept_before(entries@, entries@.len());
    }
    let mut k: usize = 0;
    while k < places.len()
        invariant
            k <= places@.len(),
            places@ == kept(entries@),
            forall|j: int| 0 <= j < places@.len() ==> #[trigger] places@[j] < entries@.len(),
            forall|j: int|
                0 <= j < k ==> timestamp_millis(entries@[#[trigger] kept(entries@)[j] as int])
                    <= LAST_INSTANT,
        decreases places@.len() - k,
    {
        if entries[places[k]].get_timestamp_millis() > LAST_INSTANT {
            assert(!times_fit(entries@)) by {
                let j = k as int;
                assert(timestamp_millis(entries@[kept(entries@)[j] as int]) > LAST_INSTANT);
            }
            return false;
        }
        k = k + 1;
    }
    true
}

/// Stamps the entries at the places that are kept, each with the clock of this machine.
pub(crate) fn stamp_entries(entries: &[SessionLogEntry], places: &Vec<usize>) -> (stamps: Vec<Stamp>)
    requires
        places@ == kept(entries@),
        times_fit(entries@),
    ensures
        are_stamps(entries@, stamps@),
{
    let mut stamps: Vec<Stamp> = Vec::new();
    proof {
        assert(entries@.len() == entries.len());
        lemma_kept_before(entries@, entries@.len());
    }
    let mut k: usize = 0;
    while k < places.len()
        invariant
            k <= places@.len(),
            stamps@.len() == k,
            places@ == kept(entries@),
            times_fit(entries@),
            forall|j: int| 0 <= j < places@.len() ==> #[trigger] places@[j] < entries@.len(),
            forall|j: int|
                0 <= j < stamps@.len() ==> is_stamp_of(
                    #[trigger] stamps@[j],
                    timestamp_millis(entries@[kept(entries@)[j] as int]),
                ),
        decreases places@.len() - k,
    {
        let millis: u64 = entries[places[k]].get_timestamp_millis();
        let offset: i32 = machine_offset(millis);
        let stamp = Stamp {
            date: format_date_at(millis, offset),
            time: format_time_at(millis, offset),
        };
        assert(is_stamp_at(stamp, millis, offset as int));
        stamps.push(stamp);
        k = k + 1;
    }
    stamps
}

/// Writes the note on a session with the given stamps, and the time at which it is written.
pub(crate) fn write_note(
    entries: &[SessionLogEntry],
    places: &Vec<usize>,
    stamps: &Vec<Stamp>,
    project: &Option<String>,
) -> (text: String)
    requires
        places@ == kept(entries@),
        are_stamps(entries@, stamps@),
    ensures
        is_stamped_note(text@, entries@, stamps@, chars_of(*project)),
        text@.len() == 0 <==> entries@.len() == 0,
{
    proof {
        assert(entries@.len() == entries.len());
        lemma_kept_before(entries@, entries@.len());
        if entries@.len() > 0 {
            lemma_first_kept(entries@);
        }
        reveal_strlit("---\ndate: ");
    }
    let generated = present_time();
    match project {
        Some(p) => render_session(entries, places, stamps, Some(p.as_str()), generated.as_str()),
        None => render_session(entries, places, stamps, None, generated.as_str()),
    }
}

/// Writes the note on a session, with the dates and times of the clock of this machine and the
/// time at which it is written.
pub fn convert_session_to_markdown(
    entries: &[SessionLogEntry],
    log_paths: &Vec<String>,
    projects_dir: &str,
) -> (text: String)
    requires
        times_fit(entries@),
    ensures
        is_note(text@, entries@, session_project(entries@, log_paths@, projects_dir@)),
        text@.len() == 0 <==> entries@.len() == 0,
{
    let places = select_entries(entries);
    let stamps = stamp_entries(entries, &places);
    let project = get_session_project(entries, log_paths, projects_dir);
    write_note(entries, &places, &stamps, &project)
}

/// Writes the note on a session; nothing where an entry that is kept has a time that `chrono`
/// cannot hold.
pub fn try_convert_session(
    entries: &[SessionLogEntry],
    log_paths: &Vec<String>,
    projects_dir: &str,
) -> (text: Option<String>)
    ensures
        text is Some <==> times_fit(entries@),
        text matches Some(t) ==> is_note(
            t@,
            entries@,
            session_project(entries@, log_paths@, projects_dir@),
        ) && (t@.len() == 0 <==> entries@.len() == 0),
{
    let places = select_entries(entries);
    if can_stamp(entries, &places) {
        Some(convert_session_to_markdown(entries, log_paths, projects_dir))
    } else {
        None
    }
}

} // verus!
