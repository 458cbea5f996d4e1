//! The entries of a session log.

use vstd::prelude::*;

use crate::clock::parse_rfc3339;
use crate::clock::rfc3339_millis;
use crate::json::member;
use crate::json::text_member;
use crate::json::Json;
use crate::json_text::compact_text;
use crate::json_text::to_compact_text;
use crate::text::join;
use crate::text::joined;
use crate::text::lines;
use crate::text::lines_of;
use crate::text::same_text;
use crate::text::views;

verus! {

/// One line of a session log.
#[derive(Debug)]
pub struct SessionLogEntry {
    pub display: Option<String>,
    pub pasted_contents: Json,
    pub message: Option<Json>,
    pub timestamp: Option<Json>,
    pub project: Option<String>,
    pub cwd: Option<String>,
    pub session_id: Option<String>,
    pub agent_id: Option<String>,
    pub entry_type: Option<String>,
    pub data: Option<Json>,
    pub uuid: Option<String>,
    pub parent_tool_use_id: Option<String>,
    pub is_sidechain: bool,
    pub tool_use_result: Option<Json>,
}

/// The characters of an optional text.
pub open spec fn chars_of(text: Option<String>) -> Option<Seq<char>> {
    match text {
        Some(t) => Some(t@),
        None => None,
    }
}

/// A text as a Markdown quotation: every line of it after a `> `.
pub open spec fn quoted(text: Seq<char>) -> Seq<char> {
    "> "@ + joined(lines_of(text), "\n> "@)
}

/// The quotation of a text that is there and not empty.
pub open spec fn quoted_part(text: Option<Seq<char>>) -> Seq<Seq<char>> {
    match text {
        Some(t) => if t.len() > 0 {
            seq![quoted(t)]
        } else {
            Seq::empty()
        },
        None => Seq::empty(),
    }
}

/// The quotations of the texts of the items of a tool result.
pub open spec fn result_parts(items: Seq<Json>) -> Seq<Seq<char>>
    decreases items.len(),
{
    if items.len() == 0 {
        Seq::empty()
    } else {
        result_parts(items.drop_last()) + quoted_part(text_member(items.last(), "text"@))
    }
}

/// What is shown of a text block: its text, unless it is empty.
pub open spec fn text_block_parts(block: Json) -> Seq<Seq<char>> {
    match text_member(block, "text"@) {
        Some(t) => if t.len() > 0 {
            seq![t]
        } else {
            Seq::empty()
        },
        None => Seq::empty(),
    }
}

/// The line that shows the use of a tool with the given name and input.
pub open spec fn tool_line(name: Seq<char>, input: Seq<char>) -> Seq<char> {
    "> **Tool: "@ + name + "** `"@ + input + "`"@
}

/// What is shown of a use of a tool: the tool's name and its input as compact JSON.
pub open spec fn tool_use_line(block: Json) -> Seq<char> {
    let name = match text_member(block, "name"@) {
        Some(n) => n,
        None => "unknown"@,
    };
    let input = match member(block, "input"@) {
        Some(i) => compact_text(i@),
        None => Seq::empty(),
    };
    tool_line(name, input)
}

/// What is shown of the result of a tool, in full.
pub open spec fn tool_result_parts(block: Json) -> Seq<Seq<char>> {
    match member(block, "content"@) {
        Some(Json::Text(t)) => quoted_part(Some(t@)),
        Some(Json::Array(items)) => result_parts(items@),
        _ => Seq::empty(),
    }
}

/// What is shown of one block of a message.
pub open spec fn block_parts(block: Json) -> Seq<Seq<char>> {
    let kind = text_member(block, "type"@);
    if kind == Some("text"@) {
        text_block_parts(block)
    } else if kind == Some("tool_use"@) {
        seq![tool_use_line(block)]
    } else if kind == Some("tool_result"@) {
        tool_result_parts(block)
    } else {
        Seq::empty()
    }
}

/// What is shown of the blocks of a message.
pub open spec fn message_parts(blocks: Seq<Json>) -> Seq<Seq<char>>
    decreases blocks.len(),
{
    if blocks.len() == 0 {
        Seq::empty()
    } else {
        message_parts(blocks.drop_last()) + block_parts(blocks.last())
    }
}

/// The parts with an empty line between every two of them, if there is any part.
pub open spec fn paragraphs(parts: Seq<Seq<char>>) -> Option<Seq<char>> {
    if parts.len() > 0 {
        Some(joined(parts, "\n\n"@))
    } else {
        None
    }
}

/// What is shown of a message: its content where that is a text, else the content's blocks.
pub open spec fn message_display(message: Option<Json>) -> Option<Seq<char>> {
    match message {
        Some(m) => match member(m, "content"@) {
            Some(Json::Text(t)) => Some(t@),
            Some(Json::Array(blocks)) => paragraphs(message_parts(blocks@)),
            _ => None,
        },
        None => None,
    }
}

/// The error output of a tool as a quotation that says so.
pub open spec fn stderr_part(text: Option<Seq<char>>) -> Seq<Seq<char>> {
    match text {
        Some(t) => if t.len() > 0 {
            seq!["> [stderr] "@ + joined(lines_of(t), "\n> "@)]
        } else {
            Seq::empty()
        },
        None => Seq::empty(),
    }
}

/// What is shown of the recorded result of a tool: the error that it is, or its outputs.
pub open spec fn tool_use_result_display(result: Option<Json>) -> Option<Seq<char>> {
    match result {
        Some(Json::Text(t)) => if t@.len() > 0 {
            Some("> [Error] "@ + joined(lines_of(t@), "\n> "@))
        } else {
            None
        },
        Some(Json::Object(members)) => paragraphs(
            quoted_part(text_member(Json::Object(members), "stdout"@)) + stderr_part(
                text_member(Json::Object(members), "stderr"@),
            ),
        ),
        _ => None,
    }
}

/// Whether the entry reports the progress of a shell command.
pub open spec fn is_bash_progress(entry: SessionLogEntry) -> bool {
    &&& chars_of(entry.entry_type) == Some("progress"@)
    &&& entry.data is Some
    &&& text_member(entry.data->0, "type"@) == Some("bash_progress"@)
}

/// The output that a progress entry reports: the full one where it is there.
pub open spec fn progress_output(data: Json) -> Option<Seq<char>> {
    match member(data, "fullOutput"@) {
        Some(full) => crate::json::text_of(full),
        None => text_member(data, "output"@),
    }
}

/// What is shown of an entry.
pub open spec fn display_of(entry: SessionLogEntry) -> Option<Seq<char>> {
    if entry.display is Some {
        chars_of(entry.display)
    } else if chars_of(entry.entry_type) == Some("progress"@) {
        if is_bash_progress(entry) {
            match progress_output(entry.data->0) {
                Some(t) => if t.len() > 0 {
                    Some(t)
                } else {
                    None
                },
                None => None,
            }
        } else {
            None
        }
    } else {
        match message_display(entry.message) {
            Some(t) => Some(t),
            None => tool_use_result_display(entry.tool_use_result),
        }
    }
}

/// The milliseconds as an unsigned number; those before the epoch wrap around.
pub open spec fn wrapped_millis(parsed: Option<i64>) -> u64 {
    match parsed {
        Some(m) => if m >= 0 {
            m as u64
        } else {
            (m + 0x1_0000_0000_0000_0000) as u64
        },
        None => 0,
    }
}

/// The time of an entry in milliseconds since the Unix epoch; zero where it gives none.
pub open spec fn timestamp_millis(entry: SessionLogEntry) -> u64 {
    match entry.timestamp {
        Some(Json::Unsigned(n)) => n,
        Some(Json::Text(t)) => wrapped_millis(rfc3339_millis(t@)),
        _ => 0,
    }
}

/// The milliseconds of a parsed time as an unsigned number.
pub fn unsigned_millis(parsed: Option<i64>) -> (millis: u64)
    ensures
        millis == wrapped_millis(parsed),
{
    match parsed {
        Some(m) => {
            assert(m < 0 ==> (m as u64) == m + 0x1_0000_0000_0000_0000) by (bit_vector);
            m as u64
        },
        None => 0,
    }
}

/// A text as a Markdown quotation after the given start of its first line.
fn quote(start: &str, text: &str) -> (out: String)
    ensures
        out@ == start@ + joined(lines_of(text@), "\n> "@),
{
    let mut out = start.to_owned();
    out.append(join(&lines(text), "\n> ").as_str());
    out
}

/// Adds the quotation of a text that is there and not empty.
fn push_quoted(parts: &mut Vec<String>, text: Option<&str>)
    ensures
        views(final(parts)@) == views(old(parts)@) + quoted_part(
            match text {
                Some(t) => Some(t@),
                None => None,
            },
        ),
{
    if let Some(t) = text {
        if !t.is_empty() {
            parts.push(quote("> ", t));
        }
    }
    proof {
        let added = quoted_part(
            match text {
                Some(t) => Some(t@),
                None => None,
            },
        );
        assert(views(parts@) =~= views(old(parts)@) + added);
    }
}

/// Writes the line that shows the use of a tool with the given name and input.
pub fn format_tool_use(name: &str, input: &str) -> (line: String)
    ensures
        line@ == tool_line(name@, input@),
{
    let mut line = "> **Tool: ".to_owned();
    line.append(name);
    line.append("** `");
    line.append(input);
    line.append("`");
    line
}

/// Writes the line that shows a use of a tool.
fn show_tool_use(block: &Json) -> (line: String)
    ensures
        line@ == tool_use_line(*block),
{
    let name = match block.get_str("name") {
        Some(name) => name,
        None => "unknown",
    };
    let input = match block.get("input") {
        Some(value) => to_compact_text(value),
        None => String::new(),
    };
    format_tool_use(name, input.as_str())
}

/// Adds what is shown of the result of a tool.
fn push_tool_result(parts: &mut Vec<String>, block: &Json)
    ensures
        views(final(parts)@) == views(old(parts)@) + tool_result_parts(*block),
{
    let ghost start = views(parts@);
    match block.get("content") {
        Some(Json::Text(text)) => push_quoted(parts, Some(text.as_str())),
        Some(Json::Array(items)) => {
            let mut i: usize = 0;
            assert(start + result_parts(items@.take(0)) =~= start);
            while i < items.len()
                invariant
                    i <= items@.len(),
                    views(parts@) == start + result_parts(items@.take(i as int)),
                decreases items@.len() - i,
            {
                push_quoted(parts, items[i].get_str("text"));
                proof {
                    assert(items@.take(i + 1).drop_last() =~= items@.take(i as int));
                    let added = quoted_part(text_member(items@[i as int], "text"@));
                    assert(start + result_parts(items@.take(i as int)) + added =~= start + (
                    result_parts(items@.take(i as int)) + added));
                }
                i = i + 1;
            }
            assert(items@.take(items@.len() as int) =~= items@);
        },
        _ => {
            assert(start + Seq::<Seq<char>>::empty() =~= start);
        },
    }
}

/// Adds what is shown of one block of a message.
fn push_block(parts: &mut Vec<String>, block: &Json)
    ensures
        views(final(parts)@) == views(old(parts)@) + block_parts(*block),
{
    let ghost start = views(parts@);
    assert(start + Seq::<Seq<char>>::empty() =~= start);
    if let Some(kind) = block.get_str("type") {
        if same_text(kind, "text") {
            if let Some(text) = block.get_str("text") {
                if !text.is_empty() {
                    parts.push(text.to_owned());
                }
            }
            assert(views(parts@) =~= start + text_block_parts(*block));
        } else if same_text(kind, "tool_use") {
            parts.push(show_tool_use(block));
            assert(views(parts@) =~= start + seq![tool_use_line(*block)]);
        } else if same_text(kind, "tool_result") {
            push_tool_result(parts, block);
        }
    }
}

/// Joins the parts with empty lines between them, if there is any part.
fn show_parts(parts: &Vec<String>) -> (shown: Option<String>)
    ensures
        chars_of(shown) == paragraphs(views(parts@)),
{
    if parts.len() > 0 {
        Some(join(parts, "\n\n"))
    } else {
        None
    }
}

/// What is shown of a message.
fn show_message(message: &Option<Json>) -> (shown: Option<String>)
    ensures
        chars_of(shown) == message_display(*message),
{
    match message {
        Some(m) => match m.get("content") {
            Some(Json::Text(text)) => Some(text.clone()),
            Some(Json::Array(blocks)) => {
                let mut parts: Vec<String> = Vec::new();
                let mut i: usize = 0;
                assert(views(parts@) =~= message_parts(blocks@.take(0)));
                while i < blocks.len()
                    invariant
                        i <= blocks@.len(),
                        views(parts@) == message_parts(blocks@.take(i as int)),
                    decreases blocks@.len() - i,
                {
                    push_block(&mut parts, &blocks[i]);
                    assert(blocks@.take(i + 1).drop_last() =~= blocks@.take(i as int));
                    i = i + 1;
                }
                assert(blocks@.take(blocks@.len() as int) =~= blocks@);
                show_parts(&parts)
            },
            _ => None,
        },
        None => None,
    }
}

/// What is shown of the recorded result of a tool.
fn show_tool_use_result(result: &Option<Json>) -> (shown: Option<String>)
    ensures
        chars_of(shown) == tool_use_result_display(*result),
{
    match result {
        Some(value) => match value {
            Json::Text(text) => {
                if text.as_str().is_empty() {
                    None
                } else {
                    Some(quote("> [Error] ", text.as_str()))
                }
            },
            Json::Object(_) => {
                let mut parts: Vec<String> = Vec::new();
                push_quoted(&mut parts, value.get_str("stdout"));
                let ghost first = views(parts@);
                if let Some(text) = value.get_str("stderr") {
                    if !text.is_empty() {
                        parts.push(quote("> [stderr] ", text));
                    }
                }
                proof {
                    let out = quoted_part(text_member(*value, "stdout"@));
                    assert(first =~= out);
                    assert(views(parts@) =~= out + stderr_part(text_member(*value, "stderr"@)));
                }
                show_parts(&parts)
            },
            _ => None,
        },
        None => None,
    }
}

impl SessionLogEntry {
    /// Whether the entry is of the given type.
    pub fn has_type(&self, name: &str) -> (has: bool)
        ensures
            has == (chars_of(self.entry_type) == Some(name@)),
    {
        match &self.entry_type {
            Some(t) => same_text(t.as_str(), name),
            None => false,
        }
    }

    /// Whether the entry reports the progress of a shell command.
    pub fn is_bash_progress(&self) -> (is: bool)
        ensures
            is == is_bash_progress(*self),
    {
        if !self.has_type("progress") {
            return false;
        }
        match &self.data {
            Some(data) => match data.get_str("type") {
                Some(kind) => same_text(kind, "bash_progress"),
                None => false,
            },
            None => false,
        }
    }

    /// What is shown of the entry: the text that it gives for display, else the output that it
    /// reports, its message, or the recorded result of a tool.
    pub fn get_display(&self) -> (shown: Option<String>)
        ensures
            chars_of(shown) == display_of(*self),
    {
        if let Some(display) = &self.display {
            return Some(display.clone());
        }
        if self.has_type("progress") {
            if !self.is_bash_progress() {
                return None;
            }
            if let Some(data) = &self.data {
                let output = match data.get("fullOutput") {
                    Some(full) => full.as_str(),
                    None => data.get_str("output"),
                };
                if let Some(text) = output {
                    if !text.is_empty() {
                        return Some(text.to_owned());
                    }
                }
            }
            return None;
        }
        match show_message(&self.message) {
            Some(shown) => Some(shown),
            None => show_tool_use_result(&self.tool_use_result),
        }
    }

    /// The time of the entry in milliseconds since the Unix epoch: a number as it is, a text
    /// in the format of RFC 3339 as it is read; zero where the entry gives none.
    pub fn get_timestamp_millis(&self) -> (millis: u64)
        ensures
            millis == timestamp_millis(*self),
    {
        match &self.timestamp {
            Some(Json::Unsigned(n)) => *n,
            Some(Json::Text(text)) => unsigned_millis(parse_rfc3339(text.as_str())),
            _ => 0,
        }
    }
}

} // verus!
