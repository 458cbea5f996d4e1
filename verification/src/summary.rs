//! What a session is about.

use vstd::prelude::*;

use crate::entry::chars_of;
use crate::entry::display_of;
use crate::entry::SessionLogEntry;
use crate::project::first_told;
use crate::text::from_chars;
use crate::text::lines;
use crate::text::lines_of;
use crate::text::starts_with;
use crate::text::to_chars;
use crate::text::trim;
use crate::text::trimmed;
use crate::text::views;

verus! {

/// How many characters a summary has at most.
pub const SUMMARY_LEN: usize = 100;

/// Whether a text starts with a tag.
pub open spec fn is_tagged(text: Seq<char>) -> bool {
    text.len() > 0 && text[0] == '<' && text.contains('>')
}

/// Whether a message was not written by the user: a command or its output, a quotation, a
/// prompt of the system, a row of a table, or tagged content.
pub open spec fn is_noise(text: Seq<char>) -> bool {
    ||| "<command"@.is_prefix_of(text)
    ||| "<local-command"@.is_prefix_of(text)
    ||| "<bash-"@.is_prefix_of(text)
    ||| ">"@.is_prefix_of(text)
    ||| "/"@.is_prefix_of(text)
    ||| "You are"@.is_prefix_of(text)
    ||| "Base directory"@.is_prefix_of(text)
    ||| "Warmup"@.is_prefix_of(text)
    ||| "요약할 텍스트:"@.is_prefix_of(text)
    ||| "|"@.is_prefix_of(text)
    ||| is_tagged(text)
}

/// The first characters of a text, at most `n`.
pub open spec fn truncated(text: Seq<char>, n: nat) -> Seq<char> {
    if text.len() <= n {
        text
    } else {
        text.take(n as int)
    }
}

/// The summary that a message gives: its first line, cut short, unless it is empty or noise.
pub open spec fn summary_of_message(message: Seq<char>) -> Option<Seq<char>> {
    let text = trimmed(message);
    if text.len() == 0 || is_noise(text) {
        None
    } else {
        Some(truncated(lines_of(text)[0], SUMMARY_LEN as nat))
    }
}

/// The summary that an entry gives, where it is a message of the user.
pub open spec fn summary_of_entry(entry: SessionLogEntry) -> Option<Seq<char>> {
    if chars_of(entry.entry_type) == Some("user"@) {
        match display_of(entry) {
            Some(shown) => summary_of_message(shown),
            None => None,
        }
    } else {
        None
    }
}

/// The summary that the first entry that gives one gives.
pub open spec fn summary_of(entries: Seq<SessionLogEntry>) -> Option<Seq<char>> {
    first_told(entries, |entry: SessionLogEntry| summary_of_entry(entry))
}

/// Tells whether a text starts with a tag.
fn tagged(text: &str) -> (is: bool)
    ensures
        is == is_tagged(text@),
{
    let chars = to_chars(text);
    if chars.len() == 0 || chars[0] != '<' {
        return false;
    }
    let mut i: usize = 0;
    while i < chars.len()
        invariant
            i <= chars@.len(),
            chars@ == text@,
            chars@.len() > 0,
            chars@[0] == '<',
            forall|k: int| 0 <= k < i ==> chars@[k] != '>',
        decreases chars@.len() - i,
    {
        if chars[i] == '>' {
            return true;
        }
        i = i + 1;
    }
    false
}

/// Tells whether a message was not written by the user.
pub fn noise(text: &str) -> (is: bool)
    ensures
        is == is_noise(text@),
{
    starts_with(text, "<command") || starts_with(text, "<local-command") || starts_with(
        text,
        "<bash-",
    ) || starts_with(text, ">") || starts_with(text, "/") || starts_with(text, "You are")
        || starts_with(text, "Base directory") || starts_with(text, "Warmup") || starts_with(
        text,
        "요약할 텍스트:",
    ) || starts_with(text, "|") || tagged(text)
}

/// The summary that a message gives.
pub fn get_summary_of_message(message: &str) -> (summary: Option<String>)
    ensures
        chars_of(summary) == summary_of_message(message@),
{
    let text = trim(message);
    if text.as_str().is_empty() || noise(text.as_str()) {
        return None;
    }
    let all = lines(text.as_str());
    assert(lines_of(text@).len() > 0);
    assert(views(all@)[0] == all@[0]@);
    let chars = to_chars(all[0].as_str());
    let end: usize = if chars.len() <= SUMMARY_LEN {
        chars.len()
    } else {
        SUMMARY_LEN
    };
    assert(chars@.subrange(0, end as int) =~= truncated(lines_of(text@)[0], SUMMARY_LEN as nat));
    Some(from_chars(chars.as_slice(), 0, end))
}

/// The summary of a session: the first line of the first message that the user wrote, cut
/// short.
pub fn get_summary(entries: &[SessionLogEntry]) -> (summary: Option<String>)
    ensures
        chars_of(summary) == summary_of(entries@),
{
    let mut i: usize = 0;
    assert(entries@.skip(0) =~= entries@);
    while i < entries.len()
        invariant
            i <= entries@.len(),
            summary_of(entries@) == summary_of(entries@.skip(i as int)),
        decreases entries@.len() - i,
    {
        if entries[i].has_type("user") {
            if let Some(shown) = entries[i].get_display() {
                let summary = get_summary_of_message(shown.as_str());
                if summary.is_some() {
                    return summary;
                }
            }
        }
        assert(entries@.skip(i as int).drop_first() =~= entries@.skip(i + 1));
        i = i + 1;
    }
    None
}

} // verus!
