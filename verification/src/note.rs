//! A session from its entries to its note.

use vstd::prelude::*;

use crate::entry::chars_of;
use crate::entry::SessionLogEntry;
use crate::markdown::are_stamps;
use crate::markdown::can_stamp;
use crate::markdown::is_stamped_note;
use crate::markdown::stamp_entries;
use crate::markdown::times_fit;
use crate::markdown::write_note;
use crate::markdown::Stamp;
use crate::merge::collect_session;
use crate::merge::session_entries;
use crate::paths::note_file_name;
use crate::paths::note_path;
use crate::paths::safe_id;
use crate::project::get_session_project;
use crate::project::session_project;
use crate::select::lemma_first_kept;
use crate::select::select_entries;
use crate::summary::get_summary;
use crate::summary::summary_of;

verus! {

/// The note on a session, and what is recorded of it.
#[derive(Debug)]
pub struct SessionNote {
    pub file_name: String,
    pub output_path: String,
    pub markdown: String,
    pub project: Option<String>,
    pub entry_count: usize,
    pub summary: Option<String>,
    pub datetime: Option<String>,
}

/// The date and the time of the first stamp.
pub open spec fn first_moment(stamps: Seq<Stamp>) -> Seq<char> {
    stamps[0].date@ + " "@ + stamps[0].time@
}

/// Whether a note is the one on the given session with the given entries, and its time is the
/// one that the note itself begins with.
pub open spec fn is_note_on(
    note: SessionNote,
    session_id: Seq<char>,
    entries: Seq<SessionLogEntry>,
    project: Option<Seq<char>>,
) -> bool {
    &&& note.file_name@ == safe_id(session_id) + ".md"@
    &&& note.output_path@ == "sessions/"@ + safe_id(session_id) + ".md"@
    &&& chars_of(note.project) == project
    &&& note.entry_count == entries.len()
    &&& chars_of(note.summary) == summary_of(entries)
    &&& exists|stamps: Seq<Stamp>|
        {
            &&& are_stamps(entries, stamps)
            &&& #[trigger] is_stamped_note(note.markdown@, entries, stamps, project)
            &&& match note.datetime {
                Some(d) => entries.len() > 0 && d@ == first_moment(stamps),
                None => entries.len() == 0,
            }
        }
}

/// Makes the note on a session from all entries of the logs that hold it; nothing where an
/// entry that is kept has a time that `chrono` cannot hold.
pub fn build_note(
    session_id: &str,
    entries: Vec<SessionLogEntry>,
    log_paths: &Vec<String>,
    projects_dir: &str,
) -> (note: Option<SessionNote>)
    ensures
        note is Some <==> times_fit(session_entries(entries@, session_id@)),
        note matches Some(n) ==> is_note_on(
            n,
            session_id@,
            session_entries(entries@, session_id@),
            session_project(
                session_entries(entries@, session_id@),
                log_paths@,
                projects_dir@,
            ),
        ),
{
    let collected = collect_session(session_id, entries);
    let places = select_entries(collected.as_slice());
    if !can_stamp(collected.as_slice(), &places) {
        return None;
    }
    let stamps = stamp_entries(collected.as_slice(), &places);
    let project = get_session_project(collected.as_slice(), log_paths, projects_dir);
    let markdown = write_note(collected.as_slice(), &places, &stamps, &project);
    let datetime = if collected.len() > 0 {
        proof {
            lemma_first_kept(collected@);
        }
        let mut moment = stamps[0].date.as_str().to_owned();
        moment.append(" ");
        moment.append(stamps[0].time.as_str());
        Some(moment)
    } else {
        None
    };
    let note = SessionNote {
        file_name: note_file_name(session_id),
        output_path: note_path(session_id),
        markdown,
        project,
        entry_count: collected.len(),
        summary: get_summary(collected.as_slice()),
        datetime,
    };
    assert(is_stamped_note(note.markdown@, collected@, stamps@, chars_of(note.project)));
    Some(note)
}

} // verus!
