//! The index of all sessions.

use vstd::prelude::*;

use crate::entry::chars_of;
use crate::text::join;
use crate::text::joined;
use crate::text::views;

verus! {

/// What the index says of one session.
#[derive(Debug)]
pub struct IndexRow {
    pub session_id: String,
    pub project: Option<String>,
    pub output_path: Option<String>,
}

/// The line of the index on one session.
pub open spec fn index_line(row: IndexRow) -> Seq<char> {
    let path = match chars_of(row.output_path) {
        Some(p) => p,
        None => Seq::empty(),
    };
    let project = match chars_of(row.project) {
        Some(p) => p,
        None => "unknown"@,
    };
    "- ["@ + row.session_id@ + "]("@ + path + ") - "@ + project
}

/// The lines that the index starts with.
pub open spec fn index_head(title: Seq<char>, generated: Seq<char>) -> Seq<Seq<char>> {
    seq![
        "# "@ + title,
        Seq::empty(),
        "Generated: "@ + generated,
        Seq::empty(),
        "## Sessions"@,
        Seq::empty(),
    ]
}

/// The lines of the index on the sessions.
pub open spec fn index_lines(rows: Seq<IndexRow>) -> Seq<Seq<char>> {
    Seq::new(rows.len(), |i: int| index_line(rows[i]))
}

/// Writes the line of the index on one session.
fn write_line(row: &IndexRow) -> (line: String)
    ensures
        line@ == index_line(*row),
{
    let mut line = "- [".to_owned();
    line.append(row.session_id.as_str());
    line.append("](");
    match &row.output_path {
        Some(path) => line.append(path.as_str()),
        None => {
            assert(line@ + Seq::<char>::empty() =~= line@);
        },
    }
    line.append(") - ");
    match &row.project {
        Some(project) => line.append(project.as_str()),
        None => line.append("unknown"),
    }
    line
}

/// Writes the index: the title, and the sessions in the given order, one line each.
pub fn index_content(rows: &Vec<IndexRow>, title: &str, generated: &str) -> (text: String)
    ensures
        text@ == joined(index_head(title@, generated@) + index_lines(rows@), "\n"@),
{
    let mut head = "# ".to_owned();
    head.append(title);
    let mut stamp = "Generated: ".to_owned();
    stamp.append(generated);
    let mut lines: Vec<String> = Vec::new();
    lines.push(head);
    lines.push(String::new());
    lines.push(stamp);
    lines.push(String::new());
    lines.push("## Sessions".to_owned());
    lines.push(String::new());
    assert(views(lines@) =~= index_head(title@, generated@) + index_lines(rows@).take(0));
    let mut i: usize = 0;
    while i < rows.len()
        invariant
            i <= rows@.len(),
            views(lines@) == index_head(title@, generated@) + index_lines(rows@).take(i as int),
        decreases rows@.len() - i,
    {
        let ghost before = lines@;
        let line = write_line(&rows[i]);
        lines.push(line);
        proof {
            assert(views(lines@) =~= views(before).push(line@));
            assert(index_head(title@, generated@) + index_lines(rows@).take(i + 1) =~= (index_head(
                title@,
                generated@,
            ) + index_lines(rows@).take(i as int)).push(line@));
        }
        i = i + 1;
    }
    assert(index_lines(rows@).take(rows@.len() as int) =~= index_lines(rows@));
    join(&lines, "\n")
}

} // verus!
