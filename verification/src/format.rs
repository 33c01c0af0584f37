//! The text form of a database, as functions on sequences of characters.
//!
//! A text is a run of lines, each closed by a line feed; the last line may
//! lack its line feed. A line that begins with a tab is a *file line* and
//! names a file; any other line is a *tag line*, must end with a colon, and
//! opens a tag whose label is the line without that colon. A file line puts
//! its file under the tag opened last.

use vstd::prelude::*;
use crate::database::TagView;
use crate::error::{Fault, SyntaxReason};

verus! {

/// How many characters stand before the first line feed of `text`; all of
/// them where it has none.
pub open spec fn first_line_len(text: Seq<char>) -> nat
    decreases text.len(),
{
    if text.len() == 0 || text[0] == '\n' {
        0
    } else {
        1 + first_line_len(text.skip(1))
    }
}

/// The lines of `text`, without their line feeds. The empty text has no
/// line, and a line feed at the very end opens no further line.
pub open spec fn lines(text: Seq<char>) -> Seq<Seq<char>>
    decreases text.len(),
{
    let n = first_line_len(text) as int;
    if text.len() == 0 {
        Seq::empty()
    } else if n < text.len() {
        seq![text.take(n)] + lines(text.skip(n + 1))
    } else {
        seq![text]
    }
}

/// What one line says.
pub enum Line {
    /// A file line, with the name that follows its tab.
    Name(Seq<char>),
    /// A tag line, with the label that precedes its colon.
    Label(Seq<char>),
    /// Neither: the line begins with no tab and ends with no colon.
    Malformed,
}

/// Reads one line. The tab is looked for first, so a line that begins with a
/// tab is a file line whatever it ends with.
pub open spec fn read_line(line: Seq<char>) -> Line {
    if line.len() > 0 && line[0] == '\t' {
        Line::Name(line.skip(1))
    } else if line.len() > 0 && line.last() == ':' {
        Line::Label(line.drop_last())
    } else {
        Line::Malformed
    }
}

/// `db` after one more line, or the reason why the line cannot follow.
pub open spec fn take_line(db: Seq<TagView>, line: Seq<char>) -> Result<Seq<TagView>, SyntaxReason> {
    match read_line(line) {
        Line::Label(label) => Ok(db.push(TagView { tag: label, files: Seq::empty() })),
        Line::Name(name) => if db.len() == 0 {
            Err(SyntaxReason::FileBeforeTag)
        } else {
            Ok(db.update(db.len() - 1, TagView { tag: db.last().tag, files: db.last().files.push(name) }))
        },
        Line::Malformed => Err(SyntaxReason::MissingColon),
    }
}

/// The database that `ls` spell out, read from the first line on; or the
/// first line that breaks the grammar, lines being counted from 1.
pub open spec fn decode_lines(ls: Seq<Seq<char>>) -> Result<Seq<TagView>, Fault>
    decreases ls.len(),
{
    if ls.len() == 0 {
        Ok(Seq::empty())
    } else {
        match decode_lines(ls.drop_last()) {
            Err(fault) => Err(fault),
            Ok(db) => match take_line(db, ls.last()) {
                Ok(next) => Ok(next),
                Err(reason) => Err(Fault { line: ls.len(), reason }),
            },
        }
    }
}

/// The database that `text` holds, or its first fault.
pub open spec fn decode(text: Seq<char>) -> Result<Seq<TagView>, Fault> {
    decode_lines(lines(text))
}

/// Some line of `ls` before line `i` is a tag line.
pub open spec fn tag_opened_before(ls: Seq<Seq<char>>, i: int) -> bool {
    exists|j: int| 0 <= j < i && read_line(#[trigger] ls[j]) is Label
}

/// What is wrong with line `i` of `ls` where it stands, if anything: it is
/// malformed, or it is a file line with no tag line before it.
pub open spec fn fault_at(ls: Seq<Seq<char>>, i: int) -> Option<SyntaxReason> {
    match read_line(ls[i]) {
        Line::Malformed => Some(SyntaxReason::MissingColon),
        Line::Name(_) => if tag_opened_before(ls, i) {
            None
        } else {
            Some(SyntaxReason::FileBeforeTag)
        },
        Line::Label(_) => None,
    }
}

/// The lines that spell out one tag: its label with a colon, then each of its
/// files behind a tab.
pub open spec fn tag_lines(tag: TagView) -> Seq<Seq<char>> {
    seq![tag.tag.push(':')] + tag.files.map_values(|name: Seq<char>| seq!['\t'] + name)
}

/// The lines that spell out `db`: those of its tags, one tag after the other.
pub open spec fn to_lines(db: Seq<TagView>) -> Seq<Seq<char>>
    decreases db.len(),
{
    if db.len() == 0 {
        Seq::empty()
    } else {
        to_lines(db.drop_last()) + tag_lines(db.last())
    }
}

/// The text made of `ls`, each line closed by a line feed.
pub open spec fn join_lines(ls: Seq<Seq<char>>) -> Seq<char>
    decreases ls.len(),
{
    if ls.len() == 0 {
        Seq::empty()
    } else {
        join_lines(ls.drop_last()) + ls.last().push('\n')
    }
}

/// The text form of `db`.
pub open spec fn encode(db: Seq<TagView>) -> Seq<char> {
    join_lines(to_lines(db))
}

/// `s` holds no line feed, so it fits on one line.
pub open spec fn one_line(s: Seq<char>) -> bool {
    forall|i: int| 0 <= i < s.len() ==> s[i] != '\n'
}

/// `label` does not begin with a tab, so a line that begins with it is no
/// file line.
pub open spec fn no_leading_tab(label: Seq<char>) -> bool {
    label.len() > 0 ==> label[0] != '\t'
}

/// The text form of `tag` reads back as `tag`: its label and its file names
/// each fit on one line, and the label does not begin with a tab.
pub open spec fn storable_tag(tag: TagView) -> bool {
    &&& one_line(tag.tag)
    &&& no_leading_tab(tag.tag)
    &&& forall|j: int| 0 <= j < tag.files.len() ==> one_line(#[trigger] tag.files[j])
}

/// Every tag of `db` is storable.
pub open spec fn storable(db: Seq<TagView>) -> bool {
    forall|i: int| 0 <= i < db.len() ==> storable_tag(#[trigger] db[i])
}

} // verus!
