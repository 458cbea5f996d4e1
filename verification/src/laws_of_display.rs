//! What holds of what is shown of an entry, and of its time.

use vstd::prelude::*;

use crate::clock::rfc3339_millis;
use crate::entry::block_parts;
use crate::entry::display_of;
use crate::entry::is_bash_progress;
use crate::entry::message_parts;
use crate::entry::paragraphs;
use crate::entry::quoted;
use crate::entry::quoted_part;
use crate::entry::result_parts;
use crate::entry::stderr_part;
use crate::entry::timestamp_millis;
use crate::entry::tool_result_parts;
use crate::entry::tool_use_line;
use crate::entry::SessionLogEntry;
use crate::json::last_member;
use crate::json::member;
use crate::json::text_member;
use crate::json::Json;
use crate::json_text::compact_text;
use crate::json_text::lemma_item_views;
use crate::json_text::member_views;
use crate::json_text::number_from;
use crate::json_text::JsonView;
use crate::laws_of_text::law_message_in_full;
use crate::laws_of_text::law_quotation_in_full;
use crate::laws_of_text::marked;
use crate::laws_of_text::pieces;
use crate::laws_of_text::stands_in;
use crate::text::concatenation;
use crate::text::joined;
use crate::text::lines_of;

verus! {

/// Whether a value is an object, and the last of its members with the given name is `found`.
pub open spec fn holds(value: Json, name: Seq<char>, found: Json) -> bool {
    value matches Json::Object(members) && exists|i: int|
        {
            &&& 0 <= i < members@.len()
            &&& (#[trigger] members@[i]).0@ == name
            &&& members@[i].1 == found
            &&& forall|j: int| i < j < members@.len() ==> (#[trigger] members@[j]).0@ != name
        }
}

/// Whether a value is no object, or one without a member of the given name.
pub open spec fn lacks(value: Json, name: Seq<char>) -> bool {
    value matches Json::Object(members) ==> forall|i: int|
        0 <= i < members@.len() ==> (#[trigger] members@[i]).0@ != name
}

/// The last member of a name is one of the members, and none of the name comes after it.
proof fn lemma_last_member(members: Seq<(String, Json)>, name: Seq<char>)
    ensures
        match last_member(members, name) {
            Some(found) => exists|i: int|
                {
                    &&& 0 <= i < members.len()
                    &&& (#[trigger] members[i]).0@ == name
                    &&& members[i].1 == found
                    &&& forall|j: int| i < j < members.len() ==> (#[trigger] members[j]).0@ != name
                },
            None => forall|i: int| 0 <= i < members.len() ==> (#[trigger] members[i]).0@ != name,
        },
    decreases members.len(),
{
    if members.len() > 0 {
        let rest = members.drop_last();
        let last = members.len() - 1;
        if members.last().0@ == name {
            assert(members[last].0@ == name);
        } else {
            lemma_last_member(rest, name);
            match last_member(rest, name) {
                Some(found) => {
                    let i = choose|i: int|
                        {
                            &&& 0 <= i < rest.len()
                            &&& (#[trigger] rest[i]).0@ == name
                            &&& rest[i].1 == found
                            &&& forall|j: int|
                                i < j < rest.len() ==> (#[trigger] rest[j]).0@ != name
                        };
                    assert(members[i] == rest[i]);
                    assert forall|j: int| i < j < members.len() implies (
                    #[trigger] members[j]).0@ != name by {
                        if j < last {
                            assert(rest[j].0@ != name);
                        }
                    }
                },
                None => {
                    assert forall|j: int| 0 <= j < members.len() implies (
                    #[trigger] members[j]).0@ != name by {
                        if j < last {
                            assert(rest[j].0@ != name);
                        }
                    }
                },
            }
        }
    }
}

/// Looking up a name finds the last member of that name, and nothing where there is none or the
/// value is no object; its text is found where it is a JSON string.
pub proof fn law_member(value: Json, name: Seq<char>)
    ensures
        forall|found: Json| #[trigger]
            holds(value, name, found) <==> member(value, name) == Some(found),
        lacks(value, name) <==> member(value, name) is None,
        forall|text: String| #[trigger]
            holds(value, name, Json::Text(text)) ==> text_member(value, name) == Some(text@),
        forall|found: Json| #[trigger]
            holds(value, name, found) && !(found is Text) ==> text_member(value, name) is None,
        lacks(value, name) ==> text_member(value, name) is None,
{
    if let Json::Object(members) = value {
        lemma_last_member(members@, name);
        let last = last_member(members@, name);
        assert forall|found: Json| #[trigger] holds(value, name, found) implies last == Some(
            found,
        ) by {
            let i = choose|i: int|
                {
                    &&& 0 <= i < members@.len()
                    &&& (#[trigger] members@[i]).0@ == name
                    &&& members@[i].1 == found
                    &&& forall|j: int|
                        i < j < members@.len() ==> (#[trigger] members@[j]).0@ != name
                };
            assert(members@[i].0@ == name);
            assert(last is Some);
            let k = choose|k: int|
                {
                    &&& 0 <= k < members@.len()
                    &&& (#[trigger] members@[k]).0@ == name
                    &&& members@[k].1 == last->0
                    &&& forall|j: int|
                        k < j < members@.len() ==> (#[trigger] members@[j]).0@ != name
                };
            assert(members@[k].0@ == name);
            assert(i == k);
        }
        assert forall|found: Json| last == Some(found) implies #[trigger] holds(
            value,
            name,
            found,
        ) by {}
    }
}

/// What the members of an object say: each of its name what the last one says, and no other.
proof fn lemma_member_views(members: Seq<(String, Json)>, name: Seq<char>)
    ensures
        match last_member(members, name) {
            Some(found) => member_views(members).contains_key(name) && member_views(members)[name]
                == found@,
            None => !member_views(members).contains_key(name),
        },
    decreases members.len(),
{
    if members.len() > 0 {
        lemma_member_views(members.drop_last(), name);
    }
}

/// A value says what it holds: an array what its items say, in their order, and an object under
/// each name what the last member of that name says.
pub proof fn law_value_said(value: Json)
    ensures
        match value {
            Json::Null => value@ == JsonView::Null,
            Json::Bool(b) => value@ == JsonView::Bool(b),
            Json::Unsigned(n) => value@ == JsonView::Number(number_from(n)),
            Json::OtherNumber(n) => value@ == JsonView::Number(n),
            Json::Text(text) => value@ == JsonView::Text(text@),
            Json::Array(items) => value@ == JsonView::Array(
                Seq::new(items@.len(), |i: int| items@[i]@),
            ),
            Json::Object(_) => value@ is Object && forall|name: Seq<char>|
                {
                    &&& #[trigger] value@->Object_0.contains_key(name) <==> !lacks(value, name)
                    &&& forall|found: Json| #[trigger]
                        holds(value, name, found) ==> value@->Object_0[name] == found@
                },
        },
{
    match value {
        Json::Array(items) => {
            lemma_item_views(items@);
            assert(value@->Array_0 =~= Seq::new(items@.len(), |i: int| items@[i]@));
        },
        Json::Object(members) => {
            assert forall|name: Seq<char>|
                {
                    &&& #[trigger] value@->Object_0.contains_key(name) <==> !lacks(value, name)
                    &&& forall|found: Json| #[trigger]
                        holds(value, name, found) ==> value@->Object_0[name] == found@
                } by {
                law_member(value, name);
                lemma_member_views(members@, name);
            }
        },
        _ => {},
    }
}

/// Whether a value has no text under the given name.
pub open spec fn has_no_string(value: Json, name: Seq<char>) -> bool {
    forall|text: String| !#[trigger] holds(value, name, Json::Text(text))
}

/// No text is found where there is none.
proof fn lemma_no_string(value: Json, name: Seq<char>)
    requires
        has_no_string(value, name),
    ensures
        text_member(value, name) is None,
{
    law_member(value, name);
    if let Some(Json::Text(text)) = member(value, name) {
        assert(holds(value, name, Json::Text(text)));
    }
}

/// Whether an entry is of the given type.
pub open spec fn is_of_type(entry: SessionLogEntry, name: Seq<char>) -> bool {
    entry.entry_type matches Some(t) && t@ == name
}

/// Whether what an entry shows is what its message with the given content says: it gives no
/// text for display and reports no progress.
pub open spec fn speaks(entry: SessionLogEntry, content: Json) -> bool {
    &&& entry.display is None
    &&& !is_of_type(entry, "progress"@)
    &&& entry.message matches Some(m) && holds(m, "content"@, content)
}

/// Whether an entry has no message that could say anything, no text for display, and reports no
/// progress.
pub open spec fn is_mute(entry: SessionLogEntry) -> bool {
    &&& entry.display is None
    &&& !is_of_type(entry, "progress"@)
    &&& entry.message matches Some(m) ==> lacks(m, "content"@)
}

/// Two texts with an empty line between them, as far as they are there.
pub open spec fn with_gap(a: Option<Seq<char>>, b: Option<Seq<char>>) -> Option<Seq<char>> {
    match (a, b) {
        (Some(x), Some(y)) => Some(x + "\n\n"@ + y),
        (Some(x), None) => Some(x),
        (None, _) => b,
    }
}

/// The text that an entry gives for display is what is shown of it, whatever else it holds.
pub proof fn law_display_given(entry: SessionLogEntry, display: String)
    requires
        entry.display == Some(display),
    ensures
        display_of(entry) == Some(display@),
{
}

/// A message whose content is a text is shown as it is.
pub proof fn law_message_of_text(entry: SessionLogEntry, text: String)
    requires
        speaks(entry, Json::Text(text)),
    ensures
        display_of(entry) == Some(text@),
{
    law_member(entry.message->0, "content"@);
}

/// Joined parts of two lists are joined with the separator.
proof fn lemma_joined_two(a: Seq<Seq<char>>, b: Seq<Seq<char>>, separator: Seq<char>)
    requires
        a.len() > 0,
        b.len() > 0,
    ensures
        joined(a + b, separator) == joined(a, separator) + separator + joined(b, separator),
    decreases b.len(),
{
    reveal_with_fuel(concatenation, 2);
    let rest = b.drop_last();
    assert((a + b).drop_last() =~= a + rest);
    assert((a + b).last() == b.last());
    if b.len() == 1 {
        assert(rest =~= Seq::empty());
        assert(a + rest =~= a);
        assert(concatenation(b) =~= b.last());
    } else {
        lemma_joined_two(a, rest, separator);
        assert(joined(a, separator) + separator + joined(rest, separator) + separator + b.last()
            =~= joined(a, separator) + separator + (joined(rest, separator) + separator
            + b.last()));
    }
}

/// The parts of two lists of blocks are the parts of both.
proof fn lemma_message_parts(a: Seq<Json>, b: Seq<Json>)
    ensures
        message_parts(a + b) == message_parts(a) + message_parts(b),
    decreases b.len(),
{
    if b.len() == 0 {
        assert(a + b =~= a);
        assert(message_parts(a) + message_parts(b) =~= message_parts(a));
    } else {
        let rest = b.drop_last();
        lemma_message_parts(a, rest);
        assert((a + b).drop_last() =~= a + rest);
        assert(message_parts(a) + message_parts(rest) + block_parts(b.last()) =~= message_parts(a)
            + (message_parts(rest) + block_parts(b.last())));
    }
}

/// The parts of two lists of items of a tool result are the parts of both.
proof fn lemma_result_parts(a: Seq<Json>, b: Seq<Json>)
    ensures
        result_parts(a + b) == result_parts(a) + result_parts(b),
    decreases b.len(),
{
    if b.len() == 0 {
        assert(a + b =~= a);
        assert(result_parts(a) + result_parts(b) =~= result_parts(a));
    } else {
        let rest = b.drop_last();
        lemma_result_parts(a, rest);
        assert((a + b).drop_last() =~= a + rest);
        let last = quoted_part(text_member(b.last(), "text"@));
        assert(result_parts(a) + result_parts(rest) + last =~= result_parts(a) + (result_parts(rest)
            + last));
    }
}

/// The parts of two lists, as paragraphs.
proof fn lemma_paragraphs(a: Seq<Seq<char>>, b: Seq<Seq<char>>)
    ensures
        paragraphs(a + b) == with_gap(
            paragraphs(a),
            paragraphs(b),
        ),
{
    if a.len() > 0 && b.len() > 0 {
        lemma_joined_two(a, b, "\n\n"@);
    } else if b.len() == 0 {
        assert(a + b =~= a);
    } else {
        assert(a + b =~= b);
    }
}

/// The blocks of a message are shown one after the other: a message whose blocks are those of
/// two messages shows what the two show, with an empty line between them.
pub proof fn law_blocks_in_turn(
    entry: SessionLogEntry,
    first: SessionLogEntry,
    second: SessionLogEntry,
    all: Vec<Json>,
    a: Vec<Json>,
    b: Vec<Json>,
)
    requires
        speaks(entry, Json::Array(all)),
        speaks(first, Json::Array(a)),
        speaks(second, Json::Array(b)),
        all@ == a@ + b@,
        entry.tool_use_result is None,
        first.tool_use_result is None,
        second.tool_use_result is None,
    ensures
        display_of(entry) == with_gap(display_of(first), display_of(second)),
{
    law_member(entry.message->0, "content"@);
    law_member(first.message->0, "content"@);
    law_member(second.message->0, "content"@);
    lemma_message_parts(a@, b@);
    lemma_paragraphs(message_parts(a@), message_parts(b@));
}

/// What a message with one block shows is what the block shows.
proof fn lemma_one_block(entry: SessionLogEntry, blocks: Vec<Json>)
    requires
        speaks(entry, Json::Array(blocks)),
        entry.tool_use_result is None,
        blocks@.len() == 1,
    ensures
        display_of(entry) == paragraphs(block_parts(blocks@[0])),
{
    law_member(entry.message->0, "content"@);
    law_member(blocks@[0], "type"@);
    assert(blocks@.drop_last() =~= Seq::empty());
    assert(message_parts(blocks@.drop_last()) =~= Seq::empty());
    assert(message_parts(blocks@) =~= block_parts(blocks@[0]));
}

/// A message without blocks shows nothing.
pub proof fn law_no_blocks(entry: SessionLogEntry, blocks: Vec<Json>)
    requires
        speaks(entry, Json::Array(blocks)),
        entry.tool_use_result is None,
        blocks@.len() == 0,
    ensures
        display_of(entry) is None,
{
    law_member(entry.message->0, "content"@);
}

/// A block of text is shown as its text, whole; nothing is shown of an empty one.
pub proof fn law_text_block(entry: SessionLogEntry, blocks: Vec<Json>, kind: String)
    requires
        speaks(entry, Json::Array(blocks)),
        entry.tool_use_result is None,
        blocks@.len() == 1,
        holds(blocks@[0], "type"@, Json::Text(kind)),
        kind@ == "text"@,
    ensures
        forall|text: String|
            text@.len() > 0 && #[trigger] holds(blocks@[0], "text"@, Json::Text(text))
                ==> display_of(entry) == Some(text@),
        forall|text: String|
            text@.len() == 0 && #[trigger] holds(blocks@[0], "text"@, Json::Text(text))
                ==> display_of(entry) is None,
        has_no_string(blocks@[0], "text"@) ==> display_of(entry) is None,
{
    reveal_with_fuel(concatenation, 2);
    if has_no_string(blocks@[0], "text"@) {
        lemma_no_string(blocks@[0], "text"@);
    }
    lemma_one_block(entry, blocks);
    law_member(blocks@[0], "type"@);
    law_member(blocks@[0], "text"@);
    assert forall|text: String|
        text@.len() > 0 && #[trigger] holds(blocks@[0], "text"@, Json::Text(text)) implies display_of(
        entry,
    ) == Some(text@) by {
        let parts = seq![text@];
        assert(block_parts(blocks@[0]) == parts);
        assert(parts.drop_last() =~= Seq::empty());
        assert(concatenation(parts) =~= text@);
    }
}

/// A use of a tool is shown as the name of the tool and its input as compact JSON. A tool
/// without a name is unknown, and an input that is not there is empty.
pub proof fn law_tool_use_block(entry: SessionLogEntry, blocks: Vec<Json>, kind: String)
    requires
        speaks(entry, Json::Array(blocks)),
        entry.tool_use_result is None,
        blocks@.len() == 1,
        holds(blocks@[0], "type"@, Json::Text(kind)),
        kind@ == "tool_use"@,
    ensures
        forall|name: String, input: Json|
            #![trigger holds(blocks@[0], "name"@, Json::Text(name)), holds(
                blocks@[0],
                "input"@,
                input,
            )]
            holds(blocks@[0], "name"@, Json::Text(name)) && holds(blocks@[0], "input"@, input)
                ==> display_of(entry) == Some(
                "> **Tool: "@ + name@ + "** `"@ + compact_text(input@) + "`"@,
            ),
        forall|name: String| #[trigger]
            holds(blocks@[0], "name"@, Json::Text(name)) && lacks(blocks@[0], "input"@)
                ==> display_of(entry) == Some("> **Tool: "@ + name@ + "** ``"@),
        forall|input: Json| #[trigger]
            holds(blocks@[0], "input"@, input) && has_no_string(blocks@[0], "name"@) ==> display_of(entry)
                == Some("> **Tool: unknown** `"@ + compact_text(input@) + "`"@),
        has_no_string(blocks@[0], "name"@) && lacks(blocks@[0], "input"@) ==> display_of(entry) == Some(
            "> **Tool: unknown** ``"@,
        ),
{
    reveal_with_fuel(concatenation, 2);
    reveal_strlit("text");
    reveal_strlit("tool_use");
    reveal_strlit("> **Tool: ");
    reveal_strlit("unknown");
    reveal_strlit("> **Tool: unknown** `");
    reveal_strlit("> **Tool: unknown** ``");
    reveal_strlit("** `");
    reveal_strlit("** ``");
    reveal_strlit("`");
    lemma_one_block(entry, blocks);
    law_member(blocks@[0], "type"@);
    law_member(blocks@[0], "name"@);
    law_member(blocks@[0], "input"@);
    if has_no_string(blocks@[0], "name"@) {
        lemma_no_string(blocks@[0], "name"@);
    }
    assert("text"@.len() != "tool_use"@.len());
    let line = tool_use_line(blocks@[0]);
    let parts = seq![line];
    assert(block_parts(blocks@[0]) == parts);
    assert(parts.drop_last() =~= Seq::empty());
    assert(concatenation(parts) =~= line);
    assert(display_of(entry) == Some(line));
    assert forall|name: String, input: Json|
        #![trigger holds(blocks@[0], "name"@, Json::Text(name)), holds(blocks@[0], "input"@, input)]
        holds(blocks@[0], "name"@, Json::Text(name)) && holds(
            blocks@[0],
            "input"@,
            input,
        ) implies display_of(entry) == Some(
        "> **Tool: "@ + name@ + "** `"@ + compact_text(input@) + "`"@,
    ) by {
        assert(member(blocks@[0], "input"@) == Some(input));
    }
    assert forall|name: String| #[trigger]
        holds(blocks@[0], "name"@, Json::Text(name)) && lacks(
            blocks@[0],
            "input"@,
        ) implies display_of(entry) == Some("> **Tool: "@ + name@ + "** ``"@) by {
        assert(line =~= "> **Tool: "@ + name@ + "** ``"@);
    }
    assert forall|input: Json| #[trigger]
        holds(blocks@[0], "input"@, input) && has_no_string(
            blocks@[0],
            "name"@,
        ) implies display_of(entry) == Some(
        "> **Tool: unknown** `"@ + compact_text(input@) + "`"@,
    ) by {
        assert(line =~= "> **Tool: unknown** `"@ + compact_text(input@) + "`"@);
    }
    if has_no_string(blocks@[0], "name"@) && lacks(blocks@[0], "input"@) {
        assert(line =~= "> **Tool: unknown** ``"@);
    }
}

/// The result of a tool is shown as a quotation of all of its lines; nothing is shown of an
/// empty one.
pub proof fn law_tool_result_block(
    entry: SessionLogEntry,
    blocks: Vec<Json>,
    kind: String,
    text: String,
)
    requires
        speaks(entry, Json::Array(blocks)),
        entry.tool_use_result is None,
        blocks@.len() == 1,
        holds(blocks@[0], "type"@, Json::Text(kind)),
        kind@ == "tool_result"@,
        holds(blocks@[0], "content"@, Json::Text(text)),
    ensures
        text@.len() > 0 ==> display_of(entry) is Some && pieces(display_of(entry)->0) == marked(
            "> "@,
            lines_of(text@),
        ),
        text@.len() == 0 ==> display_of(entry) is None,
{
    lemma_result_block(entry, blocks, kind);
    law_member(blocks@[0], "content"@);
    if text@.len() > 0 {
        lemma_one_quotation(text@);
    }
}

/// A quotation that is the only part is shown with every line.
proof fn lemma_one_quotation(text: Seq<char>)
    requires
        text.len() > 0,
    ensures
        paragraphs(seq![quoted(text)]) == Some(quoted(text)),
        pieces(quoted(text)) == marked("> "@, lines_of(text)),
{
    reveal_with_fuel(concatenation, 2);
    reveal_strlit("> ");
    let parts = seq![quoted(text)];
    assert(parts.drop_last() =~= Seq::empty());
    assert(concatenation(parts) =~= quoted(text));
    law_quotation_in_full("> "@, text);
}

/// What a message with the result of a tool as its only block shows.
proof fn lemma_result_block(entry: SessionLogEntry, blocks: Vec<Json>, kind: String)
    requires
        speaks(entry, Json::Array(blocks)),
        entry.tool_use_result is None,
        blocks@.len() == 1,
        holds(blocks@[0], "type"@, Json::Text(kind)),
        kind@ == "tool_result"@,
    ensures
        display_of(entry) == paragraphs(tool_result_parts(blocks@[0])),
{
    reveal_strlit("text");
    reveal_strlit("tool_use");
    reveal_strlit("tool_result");
    lemma_one_block(entry, blocks);
    law_member(blocks@[0], "type"@);
    assert("text"@.len() != "tool_result"@.len());
    assert("tool_use"@.len() != "tool_result"@.len());
}

/// The items of a tool result are shown one after the other.
pub proof fn law_result_items_in_turn(
    entry: SessionLogEntry,
    first: SessionLogEntry,
    second: SessionLogEntry,
    blocks: Vec<Json>,
    first_blocks: Vec<Json>,
    second_blocks: Vec<Json>,
    kind: String,
    all: Vec<Json>,
    a: Vec<Json>,
    b: Vec<Json>,
)
    requires
        speaks(entry, Json::Array(blocks)),
        speaks(first, Json::Array(first_blocks)),
        speaks(second, Json::Array(second_blocks)),
        entry.tool_use_result is None,
        first.tool_use_result is None,
        second.tool_use_result is None,
        blocks@.len() == 1,
        first_blocks@.len() == 1,
        second_blocks@.len() == 1,
        kind@ == "tool_result"@,
        holds(blocks@[0], "type"@, Json::Text(kind)),
        holds(first_blocks@[0], "type"@, Json::Text(kind)),
        holds(second_blocks@[0], "type"@, Json::Text(kind)),
        holds(blocks@[0], "content"@, Json::Array(all)),
        holds(first_blocks@[0], "content"@, Json::Array(a)),
        holds(second_blocks@[0], "content"@, Json::Array(b)),
        all@ == a@ + b@,
    ensures
        display_of(entry) == with_gap(display_of(first), display_of(second)),
{
    lemma_result_block(entry, blocks, kind);
    lemma_result_block(first, first_blocks, kind);
    lemma_result_block(second, second_blocks, kind);
    law_member(blocks@[0], "content"@);
    law_member(first_blocks@[0], "content"@);
    law_member(second_blocks@[0], "content"@);
    lemma_result_parts(a@, b@);
    lemma_paragraphs(result_parts(a@), result_parts(b@));
}

/// An item of a tool result is shown as a quotation of all lines of its text; nothing is shown
/// of an empty text, or of an item without one.
pub proof fn law_result_item(
    entry: SessionLogEntry,
    blocks: Vec<Json>,
    kind: String,
    items: Vec<Json>,
)
    requires
        speaks(entry, Json::Array(blocks)),
        entry.tool_use_result is None,
        blocks@.len() == 1,
        holds(blocks@[0], "type"@, Json::Text(kind)),
        kind@ == "tool_result"@,
        holds(blocks@[0], "content"@, Json::Array(items)),
        items@.len() == 1,
    ensures
        forall|text: String|
            text@.len() > 0 && #[trigger] holds(items@[0], "text"@, Json::Text(text))
                ==> display_of(entry) is Some && pieces(display_of(entry)->0) == marked(
                "> "@,
                lines_of(text@),
            ),
        forall|text: String|
            text@.len() == 0 && #[trigger] holds(items@[0], "text"@, Json::Text(text))
                ==> display_of(entry) is None,
        has_no_string(items@[0], "text"@) ==> display_of(entry) is None,
{
    if has_no_string(items@[0], "text"@) {
        lemma_no_string(items@[0], "text"@);
    }
    lemma_result_block(entry, blocks, kind);
    law_member(blocks@[0], "content"@);
    law_member(items@[0], "text"@);
    assert(items@.drop_last() =~= Seq::empty());
    assert(result_parts(items@.drop_last()) =~= Seq::empty());
    assert(result_parts(items@) =~= quoted_part(text_member(items@[0], "text"@)));
    assert forall|text: String|
        text@.len() > 0 && #[trigger] holds(items@[0], "text"@, Json::Text(text)) implies display_of(
        entry,
    ) is Some && pieces(display_of(entry)->0) == marked("> "@, lines_of(text@)) by {
        lemma_one_quotation(text@);
    }
}

/// Nothing is shown of the result of a tool that is neither a text nor a list of items, nor of
/// an empty list.
pub proof fn law_other_result(entry: SessionLogEntry, blocks: Vec<Json>, kind: String)
    requires
        speaks(entry, Json::Array(blocks)),
        entry.tool_use_result is None,
        blocks@.len() == 1,
        holds(blocks@[0], "type"@, Json::Text(kind)),
        kind@ == "tool_result"@,
        has_no_string(blocks@[0], "content"@),
        forall|items: Vec<Json>| #[trigger]
            holds(blocks@[0], "content"@, Json::Array(items)) ==> items@.len() == 0,
    ensures
        display_of(entry) is None,
{
    lemma_result_block(entry, blocks, kind);
    law_member(blocks@[0], "content"@);
    if let Some(Json::Text(text)) = member(blocks@[0], "content"@) {
        assert(holds(blocks@[0], "content"@, Json::Text(text)));
    }
    if let Some(Json::Array(items)) = member(blocks@[0], "content"@) {
        assert(holds(blocks@[0], "content"@, Json::Array(items)));
    }
}

/// Nothing is shown of a message whose content is neither a text nor a list of blocks.
pub proof fn law_other_content(entry: SessionLogEntry, content: Json)
    requires
        speaks(entry, content),
        !(content is Text) && !(content is Array),
        entry.tool_use_result is None,
    ensures
        display_of(entry) is None,
{
    law_member(entry.message->0, "content"@);
}

/// Nothing is shown of a block of another kind, or of none.
pub proof fn law_other_block(entry: SessionLogEntry, blocks: Vec<Json>)
    requires
        speaks(entry, Json::Array(blocks)),
        entry.tool_use_result is None,
        blocks@.len() == 1,
        forall|kind: String| #[trigger]
            holds(blocks@[0], "type"@, Json::Text(kind)) ==> kind@ != "text"@ && kind@
                != "tool_use"@ && kind@ != "tool_result"@,
    ensures
        display_of(entry) is None,
{
    lemma_one_block(entry, blocks);
    law_member(blocks@[0], "type"@);
    if let Some(Json::Text(kind)) = member(blocks@[0], "type"@) {
        assert(holds(blocks@[0], "type"@, Json::Text(kind)));
    }
}

/// Every text of a block of text stands in what the message shows, whole, whatever the other
/// blocks are.
pub proof fn law_text_in_full(
    entry: SessionLogEntry,
    blocks: Vec<Json>,
    b: int,
    kind: String,
    text: String,
)
    requires
        speaks(entry, Json::Array(blocks)),
        0 <= b < blocks@.len(),
        holds(blocks@[b], "type"@, Json::Text(kind)),
        kind@ == "text"@,
        holds(blocks@[b], "text"@, Json::Text(text)),
        text@.len() > 0,
    ensures
        display_of(entry) is Some,
        stands_in(text@, display_of(entry)->0),
{
    law_member(entry.message->0, "content"@);
    law_member(blocks@[b], "type"@);
    law_member(blocks@[b], "text"@);
    assert(block_parts(blocks@[b])[0] == text@);
    law_message_in_full(entry, blocks, b, 0);
}

/// What a message says is shown whether or not a result of a tool is recorded besides; where it
/// says nothing, the recorded result is shown as if there were no message.
pub proof fn law_message_before_result(
    entry: SessionLogEntry,
    alone: SessionLogEntry,
    mute: SessionLogEntry,
)
    requires
        entry.display is None,
        alone.display is None,
        !is_of_type(entry, "progress"@),
        !is_of_type(alone, "progress"@),
        alone.message == entry.message,
        alone.tool_use_result is None,
        is_mute(mute),
        mute.tool_use_result == entry.tool_use_result,
    ensures
        display_of(entry) == (if display_of(alone) is Some {
            display_of(alone)
        } else {
            display_of(mute)
        }),
{
    if mute.message is Some {
        law_member(mute.message->0, "content"@);
    }
}

/// A recorded result that is a text is an error, of which every line is shown.
pub proof fn law_recorded_error(entry: SessionLogEntry, text: String)
    requires
        is_mute(entry),
        entry.tool_use_result == Some(Json::Text(text)),
    ensures
        text@.len() > 0 ==> display_of(entry) is Some && pieces(display_of(entry)->0) == marked(
            "> [Error] "@,
            lines_of(text@),
        ),
        text@.len() == 0 ==> display_of(entry) is None,
{
    reveal_strlit("> [Error] ");
    if entry.message is Some {
        law_member(entry.message->0, "content"@);
    }
    if text@.len() > 0 {
        law_quotation_in_full("> [Error] "@, text@);
    }
}

/// Whether a value has no text that is not empty under the given name.
pub open spec fn has_no_text(value: Json, name: Seq<char>) -> bool {
    forall|text: String| #[trigger] holds(value, name, Json::Text(text)) ==> text@.len() == 0
}

/// A recorded result with outputs shows them, the standard output first, then the error output
/// with a mark that says so, each with every line.
pub proof fn law_recorded_outputs(entry: SessionLogEntry, result: Json)
    requires
        is_mute(entry),
        entry.tool_use_result == Some(result),
        result is Object,
    ensures
        has_no_text(result, "stdout"@) && has_no_text(result, "stderr"@) ==> display_of(
            entry,
        ) is None,
        forall|out: String|
            out@.len() > 0 && #[trigger] holds(result, "stdout"@, Json::Text(out)) && has_no_text(
                result,
                "stderr"@,
            ) ==> display_of(entry) is Some && pieces(display_of(entry)->0) == marked(
                "> "@,
                lines_of(out@),
            ),
        forall|err: String|
            err@.len() > 0 && #[trigger] holds(result, "stderr"@, Json::Text(err)) && has_no_text(
                result,
                "stdout"@,
            ) ==> display_of(entry) is Some && pieces(display_of(entry)->0) == marked(
                "> [stderr] "@,
                lines_of(err@),
            ),
        forall|out: String, err: String|
            #![trigger holds(result, "stdout"@, Json::Text(out)), holds(
                result,
                "stderr"@,
                Json::Text(err),
            )]
            out@.len() > 0 && err@.len() > 0 && holds(result, "stdout"@, Json::Text(out)) && holds(
                result,
                "stderr"@,
                Json::Text(err),
            ) ==> exists|a: Seq<char>, b: Seq<char>|
                {
                    &&& display_of(entry) == Some(#[trigger] (a + "\n\n"@ + b))
                    &&& pieces(a) == marked("> "@, lines_of(out@))
                    &&& pieces(b) == marked("> [stderr] "@, lines_of(err@))
                },
{
    reveal_with_fuel(concatenation, 2);
    reveal_strlit("> [stderr] ");
    reveal_strlit("> ");
    if entry.message is Some {
        law_member(entry.message->0, "content"@);
    }
    law_member(result, "stdout"@);
    law_member(result, "stderr"@);
    let out_part = quoted_part(text_member(result, "stdout"@));
    let err_part = stderr_part(text_member(result, "stderr"@));
    assert(display_of(entry) == paragraphs(out_part + err_part));
    lemma_paragraphs(out_part, err_part);
    if let Some(Json::Text(out)) = member(result, "stdout"@) {
        assert(holds(result, "stdout"@, Json::Text(out)));
        if out@.len() > 0 {
            lemma_one_quotation(out@);
        }
    }
    if let Some(Json::Text(err)) = member(result, "stderr"@) {
        assert(holds(result, "stderr"@, Json::Text(err)));
        if err@.len() > 0 {
            let parts = err_part;
            assert(parts.drop_last() =~= Seq::empty());
            assert(concatenation(parts) =~= parts[0]);
            law_quotation_in_full("> [stderr] "@, err@);
        }
    }
    assert forall|out: String, err: String|
        #![trigger holds(result, "stdout"@, Json::Text(out)), holds(
            result,
            "stderr"@,
            Json::Text(err),
        )]
        out@.len() > 0 && err@.len() > 0 && holds(result, "stdout"@, Json::Text(out)) && holds(
            result,
            "stderr"@,
            Json::Text(err),
        ) implies exists|a: Seq<char>, b: Seq<char>|
        {
            &&& display_of(entry) == Some(#[trigger] (a + "\n\n"@ + b))
            &&& pieces(a) == marked("> "@, lines_of(out@))
            &&& pieces(b) == marked("> [stderr] "@, lines_of(err@))
        } by {
        let a = quoted(out@);
        let b = err_part[0];
        assert(display_of(entry) == Some(a + "\n\n"@ + b));
    }
}

/// Nothing is shown of an entry without a text for display, a message or a recorded result.
pub proof fn law_nothing_to_show(entry: SessionLogEntry)
    requires
        is_mute(entry),
        entry.tool_use_result matches Some(result) ==> !(result is Text) && !(result is Object),
    ensures
        display_of(entry) is None,
{
    if entry.message is Some {
        law_member(entry.message->0, "content"@);
    }
}

/// Whether an entry reports the progress of a shell command, with the given data.
pub open spec fn reports(entry: SessionLogEntry, data: Json) -> bool {
    &&& is_of_type(entry, "progress"@)
    &&& entry.data == Some(data)
    &&& exists|kind: String|
        kind@ == "bash_progress"@ && #[trigger] holds(data, "type"@, Json::Text(kind))
}

/// An entry is a report of progress by its fields.
pub(crate) proof fn lemma_reports(entry: SessionLogEntry)
    ensures
        is_bash_progress(entry) <==> entry.data is Some && reports(
            entry,
            entry.data->0,
        ),
{
    if entry.data is Some {
        law_member(entry.data->0, "type"@);
        if let Some(Json::Text(kind)) = member(entry.data->0, "type"@) {
            assert(holds(entry.data->0, "type"@, Json::Text(kind)));
        }
    }
}

/// Of a report of progress the whole output is shown: the full one where it is there, else the
/// other one.
pub proof fn law_report_in_full(entry: SessionLogEntry, data: Json)
    requires
        entry.display is None,
        reports(entry, data),
    ensures
        forall|text: String|
            text@.len() > 0 && #[trigger] holds(data, "fullOutput"@, Json::Text(text))
                ==> display_of(entry) == Some(text@),
        forall|text: String|
            text@.len() > 0 && #[trigger] holds(data, "output"@, Json::Text(text)) && lacks(
                data,
                "fullOutput"@,
            ) ==> display_of(entry) == Some(text@),
        !lacks(data, "fullOutput"@) && has_no_text(data, "fullOutput"@) ==> display_of(
            entry,
        ) is None,
        lacks(data, "fullOutput"@) && has_no_text(data, "output"@) ==> display_of(entry) is None,
{
    lemma_reports(entry);
    law_member(data, "fullOutput"@);
    law_member(data, "output"@);
    if let Some(Json::Text(text)) = member(data, "fullOutput"@) {
        assert(holds(data, "fullOutput"@, Json::Text(text)));
    }
    if let Some(Json::Text(text)) = member(data, "output"@) {
        assert(holds(data, "output"@, Json::Text(text)));
    }
}

/// Of any other progress entry nothing is shown, unless it gives a text for display.
pub proof fn law_other_progress(entry: SessionLogEntry)
    requires
        entry.display is None,
        is_of_type(entry, "progress"@),
        entry.data matches Some(data) ==> !reports(entry, data),
    ensures
        display_of(entry) is None,
{
    lemma_reports(entry);
}

/// The time of an entry: a number as it is, a text as `chrono` reads it, with times before the
/// epoch wrapped around, and zero where there is no time or it cannot be read.
pub proof fn law_time_of_entry(entry: SessionLogEntry)
    ensures
        entry.timestamp matches Some(Json::Unsigned(n)) ==> timestamp_millis(entry) == n,
        entry.timestamp matches Some(Json::Text(text)) ==> match rfc3339_millis(text@) {
            Some(m) => timestamp_millis(entry) == (if m >= 0 {
                m as int
            } else {
                m + u64::MAX + 1
            }),
            None => timestamp_millis(entry) == 0,
        },
        (entry.timestamp matches Some(value) ==> !(value is Unsigned) && !(value is Text))
            ==> timestamp_millis(entry) == 0,
{
}

} // verus!
