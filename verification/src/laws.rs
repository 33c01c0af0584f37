//! What holds of the text form: reading back what was written, and where a
//! text that breaks the grammar is found out.

use vstd::prelude::*;
use crate::database::TagView;
use crate::error::{Fault, SyntaxReason};
use crate::format::{
    decode, decode_lines, encode, fault_at, first_line_len, join_lines, lines, no_leading_tab, one_line,
    read_line, storable, storable_tag, tag_lines, tag_opened_before, take_line, to_lines, Line,
};

verus! {

/// A run of `n` characters without a line feed, with a line feed or the end
/// of the text behind it, is the first line.
pub(crate) proof fn lemma_first_line(text: Seq<char>, n: int)
    requires
        0 <= n <= text.len(),
        forall|j: int| 0 <= j < n ==> text[j] != '\n',
        n < text.len() ==> text[n] == '\n',
    ensures
        first_line_len(text) == n,
    decreases n,
{
    if n > 0 {
        lemma_first_line(text.skip(1), n - 1);
    }
}

/// Once a line has broken the grammar, the lines behind it change nothing.
pub(crate) proof fn lemma_fault_stays(ls: Seq<Seq<char>>, more: Seq<Seq<char>>)
    requires
        decode_lines(ls) is Err,
    ensures
        decode_lines(ls + more) == decode_lines(ls),
    decreases more.len(),
{
    if more.len() > 0 {
        lemma_fault_stays(ls, more.drop_last());
        assert((ls + more).drop_last() =~= ls + more.drop_last());
    }
}

/// One more line adds that line and its line feed to the text.
pub(crate) proof fn lemma_join_push(ls: Seq<Seq<char>>, line: Seq<char>)
    ensures
        join_lines(ls.push(line)) == join_lines(ls) + line.push('\n'),
{
    assert(ls.push(line).drop_last() =~= ls);
}

/// One more file under a tag adds one file line to the lines of the tag.
pub(crate) proof fn lemma_tag_lines_push(tag: TagView, name: Seq<char>)
    ensures
        tag_lines(TagView { tag: tag.tag, files: tag.files.push(name) }) == tag_lines(tag).push(
            seq!['\t'] + name,
        ),
{
}

/// The text of some lines begins with the first of them and its line feed.
proof fn lemma_join_front(ls: Seq<Seq<char>>)
    requires
        ls.len() > 0,
    ensures
        join_lines(ls) == ls[0].push('\n') + join_lines(ls.skip(1)),
    decreases ls.len(),
{
    if ls.len() == 1 {
        assert(ls.drop_last() =~= Seq::<Seq<char>>::empty());
        assert(ls.skip(1) =~= Seq::<Seq<char>>::empty());
    } else {
        lemma_join_front(ls.drop_last());
        assert(ls.skip(1).drop_last() =~= ls.drop_last().skip(1));
    }
}

/// Lines without a line feed in them are the lines of their text.
pub proof fn lemma_lines_of_joined(ls: Seq<Seq<char>>)
    requires
        forall|i: int| 0 <= i < ls.len() ==> one_line(#[trigger] ls[i]),
    ensures
        lines(join_lines(ls)) == ls,
    decreases ls.len(),
{
    if ls.len() > 0 {
        let text = join_lines(ls);
        let rest = join_lines(ls.skip(1));
        let n = ls[0].len() as int;
        lemma_join_front(ls);
        lemma_first_line(text, n);
        assert(text.take(n) =~= ls[0]);
        assert(text.skip(n + 1) =~= rest);
        lemma_lines_of_joined(ls.skip(1));
    }
}

/// No line of a text holds a line feed.
pub proof fn lemma_lines_are_single(text: Seq<char>)
    ensures
        forall|i: int| 0 <= i < lines(text).len() ==> one_line(#[trigger] lines(text)[i]),
    decreases text.len(),
{
    if text.len() > 0 {
        let n = first_line_len(text) as int;
        lemma_first_line_is_single(text);
        if n < text.len() {
            lemma_lines_are_single(text.skip(n + 1));
            assert forall|i: int| 0 <= i < lines(text).len() implies one_line(#[trigger] lines(text)[i]) by {
                if i > 0 {
                    assert(lines(text)[i] == lines(text.skip(n + 1))[i - 1]);
                }
            }
        } else {
            assert(text.take(n) =~= text);
        }
    }
}

/// The first line stops at the first line feed: it is no longer than the
/// text, holds no line feed, and a line feed follows it unless the text ends.
proof fn lemma_first_line_is_single(text: Seq<char>)
    ensures
        first_line_len(text) <= text.len(),
        one_line(text.take(first_line_len(text) as int)),
        first_line_len(text) < text.len() ==> text[first_line_len(text) as int] == '\n',
    decreases text.len(),
{
    if !(text.len() == 0 || text[0] == '\n') {
        let tail = text.skip(1);
        lemma_first_line_is_single(tail);
        let n = first_line_len(text) as int;
        assert forall|j: int| 0 <= j < n implies text.take(n)[j] != '\n' by {
            if j > 0 {
                assert(tail.take(n - 1)[j - 1] == text[j]);
            }
        }
    }
}

/// Behind lines that spell out `db`, the lines of one more tag spell out `db`
/// with that tag at its end, provided the label does not begin with a tab.
proof fn lemma_decode_one_more_tag(ls: Seq<Seq<char>>, db: Seq<TagView>, tag: TagView)
    requires
        decode_lines(ls) == Ok::<Seq<TagView>, Fault>(db),
        no_leading_tab(tag.tag),
    ensures
        decode_lines(ls + tag_lines(tag)) == Ok::<Seq<TagView>, Fault>(db.push(tag)),
    decreases tag.files.len(),
{
    if tag.files.len() == 0 {
        let line = tag.tag.push(':');
        assert(ls + tag_lines(tag) =~= ls.push(line));
        assert(ls.push(line).drop_last() =~= ls);
        assert(line.drop_last() =~= tag.tag);
        assert(tag.files =~= Seq::<Seq<char>>::empty());
    } else {
        let name = tag.files.last();
        let part = TagView { tag: tag.tag, files: tag.files.drop_last() };
        let line = seq!['\t'] + name;
        lemma_decode_one_more_tag(ls, db, part);
        lemma_tag_lines_push(part, name);
        assert(part.files.push(name) =~= tag.files);
        assert((ls + tag_lines(part)).push(line).drop_last() =~= ls + tag_lines(part));
        assert(line.skip(1) =~= name);
        assert(db.push(part).update(
            db.len() as int,
            TagView { tag: part.tag, files: part.files.push(name) },
        ) =~= db.push(tag));
    }
}

/// The lines that spell out a database read back as that database, provided
/// no label begins with a tab.
proof fn lemma_decode_to_lines(db: Seq<TagView>)
    requires
        forall|i: int| 0 <= i < db.len() ==> no_leading_tab((#[trigger] db[i]).tag),
    ensures
        decode_lines(to_lines(db)) == Ok::<Seq<TagView>, Fault>(db),
    decreases db.len(),
{
    if db.len() > 0 {
        lemma_decode_to_lines(db.drop_last());
        lemma_decode_one_more_tag(to_lines(db.drop_last()), db.drop_last(), db.last());
        assert(db.drop_last().push(db.last()) =~= db);
    } else {
        assert(db =~= Seq::<TagView>::empty());
    }
}

/// Each line that spells out a storable database fits on one line.
proof fn lemma_to_lines_are_single(db: Seq<TagView>)
    requires
        storable(db),
    ensures
        forall|i: int| 0 <= i < to_lines(db).len() ==> one_line(#[trigger] to_lines(db)[i]),
    decreases db.len(),
{
    if db.len() > 0 {
        let front = db.drop_last();
        let tag = db.last();
        lemma_to_lines_are_single(front);
        assert forall|i: int| 0 <= i < to_lines(db).len() implies one_line(#[trigger] to_lines(db)[i]) by {
            let k = i - to_lines(front).len();
            if k == 0 {
                assert(to_lines(db)[i] == tag.tag.push(':'));
            } else if k > 0 {
                assert(to_lines(db)[i] == seq!['\t'] + tag.files[k - 1]);
            }
        }
    }
}

/// Lines without a line feed in them spell out a storable database, if they
/// spell out one at all.
proof fn lemma_decoded_lines_are_storable(ls: Seq<Seq<char>>)
    requires
        forall|i: int| 0 <= i < ls.len() ==> one_line(#[trigger] ls[i]),
    ensures
        decode_lines(ls) matches Ok(db) ==> storable(db),
    decreases ls.len(),
{
    if ls.len() > 0 {
        let front = ls.drop_last();
        let line = ls.last();
        lemma_decoded_lines_are_storable(front);
        if let Ok(db) = decode_lines(front) {
            if let Ok(next) = take_line(db, line) {
                match read_line(line) {
                    Line::Label(label) => {
                        assert(storable_tag(TagView { tag: label, files: Seq::empty() }));
                    },
                    Line::Name(name) => {
                        assert(one_line(name));
                    },
                    Line::Malformed => {},
                }
            }
        }
    }
}

/// Whatever a text holds can be written and read back: a database that was
/// read from a text is storable.
pub proof fn lemma_decoded_is_storable(text: Seq<char>)
    ensures
        decode(text) matches Ok(db) ==> storable(db),
{
    lemma_lines_are_single(text);
    lemma_decoded_lines_are_storable(lines(text));
}

/// Reading back what was written gives the database that was written: its
/// tags in their order, and under each tag its files in their order.
///
/// This holds of every storable database: no label and no file name holds a
/// line feed, and no label begins with a tab. Whether two tags bear the same
/// label does not matter.
pub proof fn lemma_round_trip(db: Seq<TagView>)
    requires
        storable(db),
    ensures
        decode(encode(db)) == Ok::<Seq<TagView>, Fault>(db),
{
    lemma_to_lines_are_single(db);
    lemma_lines_of_joined(to_lines(db));
    lemma_decode_to_lines(db);
}

/// Only a storable database reads back as itself: where the text form of a
/// database reads back as that database, no label and no file name of it
/// holds a line feed, and no label begins with a tab.
pub proof fn lemma_round_trip_needs_storable(db: Seq<TagView>)
    requires
        decode(encode(db)) == Ok::<Seq<TagView>, Fault>(db),
    ensures
        storable(db),
{
    lemma_decoded_is_storable(encode(db));
}

/// What reading lines ends in, told by the lines one by one: it succeeds
/// where nothing is wrong with any line, and it fails at the first line with
/// which something is wrong, for the reason that is wrong with that line.
pub proof fn lemma_decode_lines_faults(ls: Seq<Seq<char>>)
    ensures
        match decode_lines(ls) {
            Ok(db) => {
                &&& forall|j: int| 0 <= j < ls.len() ==> fault_at(ls, j) is None
                &&& db.len() > 0 <==> tag_opened_before(ls, ls.len() as int)
            },
            Err(fault) => {
                &&& 1 <= fault.line <= ls.len()
                &&& fault_at(ls, fault.line - 1) == Some(fault.reason)
                &&& forall|j: int| 0 <= j < fault.line - 1 ==> fault_at(ls, j) is None
            },
        },
    decreases ls.len(),
{
    if ls.len() > 0 {
        let front = ls.drop_last();
        lemma_decode_lines_faults(front);
        assert forall|j: int| 0 <= j <= front.len() implies tag_opened_before(front, j) == tag_opened_before(
            ls,
            j,
        ) by {
            if tag_opened_before(ls, j) {
                let k = choose|k: int| 0 <= k < j && read_line(#[trigger] ls[k]) is Label;
                assert(read_line(front[k]) is Label);
            }
        }
        assert forall|j: int| 0 <= j < front.len() implies fault_at(front, j) == fault_at(ls, j) by {}
    }
}

/// A text that breaks the grammar is refused at the first line that breaks
/// it, and the error names that line, counted from 1, and what is wrong with
/// it: the line begins with no tab and ends with no colon, or it is a file
/// line before any tag line.
pub proof fn lemma_first_fault(text: Seq<char>, i: int)
    requires
        0 <= i < lines(text).len(),
        fault_at(lines(text), i) is Some,
        forall|j: int| 0 <= j < i ==> fault_at(lines(text), j) is None,
    ensures
        decode(text) == Err::<Seq<TagView>, Fault>(
            Fault { line: (i + 1) as nat, reason: fault_at(lines(text), i)->Some_0 },
        ),
{
    lemma_decode_lines_faults(lines(text));
}

/// A text is accepted exactly when nothing is wrong with any of its lines.
pub proof fn lemma_accepted(text: Seq<char>)
    ensures
        decode(text) is Ok <==> forall|j: int| 0 <= j < lines(text).len() ==> fault_at(lines(text), j) is None,
{
    lemma_decode_lines_faults(lines(text));
}

} // verus!
