//! The entry loaders: a line-oriented text grammar and plain tabular rows.
//!
//! A line of the text source reads `TRADITIONAL SIMPLIFIED [PRONUNCIATION]
//! /sense/sense/.../`; lines beginning with `#` are comments, and empty
//! lines carry nothing. Every line is parsed independently; one malformed
//! line (or one tabular row without both head forms) fails the whole load,
//! so no partial dictionary is ever handed out.

use vstd::prelude::*;

use crate::entry::{
    parts_entry, row_entry, row_valid, views, Entry, EntryV, LoadError, RawRow,
};
use crate::text::{find_char, find_from, lemma_find_from, slice_range, split_chars, split_from, str_chars};

verus! {

/// Whether a line of the text source carries no entry: empty, or a comment.
pub open spec fn line_skipped(line: Seq<char>) -> bool {
    line.len() == 0 || line[0] == '#'
}

/// The entry a line of the text source denotes, or `None` when the line
/// does not match the grammar `TRADITIONAL SIMPLIFIED [PRONUNCIATION]
/// /sense/sense/.../` (with nothing after the closing slash).
pub open spec fn line_entry(line: Seq<char>) -> Option<EntryV> {
    match find_from(line, 0, ' ') {
        None => None,
        Some(sp1) => if sp1 == 0 {
            None
        } else {
            match find_from(line, sp1 + 1, ' ') {
                None => None,
                Some(sp2) => if sp2 == sp1 + 1 || sp2 + 1 >= line.len() || line[sp2 + 1] != '[' {
                    None
                } else {
                    match find_from(line, sp2 + 2, ']') {
                        None => None,
                        Some(rb) => if line.len() - rb <= 3 || line[rb + 1] != ' ' || line[rb + 2]
                            != '/' || line[line.len() - 1] != '/' {
                            None
                        } else {
                            Some(
                                parts_entry(
                                    line.subrange(sp1 + 1, sp2),
                                    line.subrange(0, sp1),
                                    line.subrange(sp2 + 2, rb),
                                    line.subrange(rb + 3, line.len() - 1),
                                    None,
                                ),
                            )
                        },
                    }
                },
            }
        },
    }
}

/// The lines of `text`, split at every newline.
pub open spec fn split_lines(text: Seq<char>) -> Seq<Seq<char>> {
    split_chars(text, '\n')
}

/// What loading a sequence of lines yields: the entries of all non-skipped
/// lines in order, or the index of the first malformed line.
pub open spec fn load_result(ls: Seq<Seq<char>>) -> Result<Seq<EntryV>, int>
    decreases ls.len(),
{
    if ls.len() == 0 {
        Ok(Seq::empty())
    } else {
        let rest = load_result(ls.drop_first());
        if line_skipped(ls[0]) {
            match rest {
                Ok(es) => Ok(es),
                Err(i) => Err(i + 1),
            }
        } else {
            match line_entry(ls[0]) {
                None => Err(0),
                Some(e) => match rest {
                    Ok(es) => Ok(seq![e] + es),
                    Err(i) => Err(i + 1),
                },
            }
        }
    }
}

/// How `load_result` grows when one more line is appended.
proof fn lemma_load_result_push(ls: Seq<Seq<char>>, l: Seq<char>)
    ensures
        load_result(ls.push(l)) == (match load_result(ls) {
            Err(i) => Err::<Seq<EntryV>, int>(i),
            Ok(es) => if line_skipped(l) {
                Ok::<Seq<EntryV>, int>(es)
            } else {
                match line_entry(l) {
                    Some(e) => Ok::<Seq<EntryV>, int>(es.push(e)),
                    None => Err::<Seq<EntryV>, int>(ls.len() as int),
                }
            },
        }),
    decreases ls.len(),
{
    if ls.len() == 0 {
        assert(ls.push(l).drop_first() =~= ls);
        if !line_skipped(l) {
            match line_entry(l) {
                Some(e) => {
                    assert(seq![e] + Seq::<EntryV>::empty() =~= Seq::empty().push(e));
                },
                None => {},
            }
        }
    } else {
        assert(ls.push(l).drop_first() =~= ls.drop_first().push(l));
        assert(ls.push(l)[0] == ls[0]);
        lemma_load_result_push(ls.drop_first(), l);
        match load_result(ls.drop_first()) {
            Err(_) => {},
            Ok(es) => {
                if !line_skipped(l) && line_entry(l) is Some {
                    if !line_skipped(ls[0]) {
                        match line_entry(ls[0]) {
                            Some(e0) => {
                                assert(seq![e0] + es.push(line_entry(l)->Some_0) =~= (seq![e0]
                                    + es).push(line_entry(l)->Some_0));
                            },
                            None => {},
                        }
                    }
                }
            },
        }
    }
}

/// A failed prefix fails the whole sequence of lines, at the same index.
proof fn lemma_load_result_err_concat(a: Seq<Seq<char>>, b: Seq<Seq<char>>)
    requires
        load_result(a) is Err,
    ensures
        load_result(a + b) == load_result(a),
    decreases a.len(),
{
    assert(a.len() > 0);
    assert((a + b)[0] == a[0]);
    assert((a + b).drop_first() =~= a.drop_first() + b);
    if load_result(a.drop_first()) is Err {
        lemma_load_result_err_concat(a.drop_first(), b);
    } else {
        assert(!line_skipped(a[0]) && line_entry(a[0]) is None);
    }
}

/// Parses one line of the text source; `None` when it does not match the
/// grammar. Comment handling is the caller's business.
pub fn parse_line(line: &Vec<char>) -> (res: Option<Entry>)
    ensures
        match res {
            Some(e) => line_entry(line@) == Some(e@) && e@.wf(),
            None => line_entry(line@) is None,
        },
{
    let n = line.len();
    let sp1 = match find_char(line, 0, ' ') {
        Some(i) => i,
        None => {
            return None;
        },
    };
    if sp1 == 0 {
        return None;
    }
    let sp2 = match find_char(line, sp1 + 1, ' ') {
        Some(i) => i,
        None => {
            return None;
        },
    };
    if sp2 == sp1 + 1 || sp2 + 1 >= n || line[sp2 + 1] != '[' {
        return None;
    }
    let rb = match find_char(line, sp2 + 2, ']') {
        Some(i) => i,
        None => {
            return None;
        },
    };
    if n - rb <= 3 || line[rb + 1] != ' ' || line[rb + 2] != '/' || line[n - 1] != '/' {
        return None;
    }
    Entry::from_parts(
        slice_range(line, sp1 + 1, sp2),
        slice_range(line, 0, sp1),
        slice_range(line, sp2 + 2, rb),
        slice_range(line, rb + 3, n - 1),
        None,
    )
}

/// Loads the whole line-oriented text source. All lines are parsed; the
/// first malformed one fails the load and is named in the error.
pub fn load(source: &str) -> (res: Result<Vec<Entry>, LoadError>)
    ensures
        match res {
            Ok(es) => load_result(split_lines(source@)) == Ok::<Seq<EntryV>, int>(views(es@))
                && forall|i: int| 0 <= i < es@.len() ==> (#[trigger] es@[i]@).wf(),
            Err(e) => {
                &&& e matches LoadError::MalformedLine { line }
                &&& load_result(split_lines(source@)) == Err::<Seq<EntryV>, int>(line as int)
            },
        },
{
    let chars = str_chars(source);
    let ghost lines = split_lines(source@);
    let mut entries: Vec<Entry> = Vec::new();
    let mut start: usize = 0;
    let mut lineno: usize = 0;
    proof {
        assert(chars@.len() == chars.len());
        assert(lines.take(0) =~= Seq::empty());
        assert(views(entries@) =~= Seq::empty());
        assert(lines.skip(0) =~= lines);
        assert(lines.len() >= 1);
    }
    loop
        invariant
            chars@ == source@,
            chars@.len() <= usize::MAX,
            lines == split_lines(source@),
            start <= chars@.len(),
            lineno <= start,
            split_from(chars@, start as int, '\n') == lines.skip(lineno as int),
            lineno < lines.len(),
            load_result(lines.take(lineno as int)) == Ok::<Seq<EntryV>, int>(views(entries@)),
            forall|i: int| 0 <= i < entries@.len() ==> (#[trigger] entries@[i]@).wf(),
        decreases chars@.len() - start,
    {
        let stop = match find_char(&chars, start, '\n') {
            Some(i) => i,
            None => chars.len(),
        };
        let line = slice_range(&chars, start, stop);
        proof {
            lemma_find_from(chars@, start as int, '\n');
            assert(lines.skip(lineno as int)[0] == line@);
            assert(lines[lineno as int] == line@);
        }
        let skipped = line.len() == 0 || line[0] == '#';
        if skipped {
            proof {
                lemma_load_result_push(lines.take(lineno as int), line@);
                assert(lines.take(lineno as int + 1) =~= lines.take(lineno as int).push(line@));
            }
        } else {
            match parse_line(&line) {
                Some(e) => {
                    proof {
                        lemma_load_result_push(lines.take(lineno as int), line@);
                        assert(lines.take(lineno as int + 1) =~= lines.take(lineno as int).push(
                            line@,
                        ));
                        assert(views(entries@.push(e)) =~= views(entries@).push(e@));
                    }
                    entries.push(e);
                },
                None => {
                    proof {
                        lemma_load_result_push(lines.take(lineno as int), line@);
                        assert(lines.take(lineno as int + 1) =~= lines.take(lineno as int).push(
                            line@,
                        ));
                        assert(lines =~= lines.take(lineno as int + 1) + lines.skip(
                            lineno as int + 1,
                        ));
                        lemma_load_result_err_concat(
                            lines.take(lineno as int + 1),
                            lines.skip(lineno as int + 1),
                        );
                        assert(lines.take(lineno as int).len() == lineno as int);
                    }
                    return Err(LoadError::MalformedLine { line: lineno });
                },
            }
        }
        if stop == chars.len() {
            proof {
                assert(lines.skip(lineno as int).len() == 1);
                assert(lineno as int + 1 == lines.len());
                assert(lines.take(lineno as int + 1) =~= lines);
            }
            return Ok(entries);
        }
        proof {
            assert(lines.skip(lineno as int + 1) =~= lines.skip(lineno as int).drop_first());
            assert(split_from(chars@, stop as int + 1, '\n') =~= lines.skip(lineno as int + 1));
            assert(split_from(chars@, stop as int + 1, '\n').len() >= 1);
        }
        start = stop + 1;
        lineno = lineno + 1;
    }
}

/// The entries a sequence of tabular rows denotes.
pub open spec fn row_entries(rows: Seq<RawRow>) -> Seq<EntryV> {
    rows.map_values(|r: RawRow| row_entry(r))
}

/// Loads the whole tabular source. Every row must carry both head forms;
/// the first row that does not fails the load and is named in the error.
pub fn load_rows(rows: &Vec<RawRow>) -> (res: Result<Vec<Entry>, LoadError>)
    ensures
        match res {
            Ok(es) => (forall|i: int| 0 <= i < rows@.len() ==> row_valid(#[trigger] rows@[i]))
                && views(es@) == row_entries(rows@) && forall|i: int|
                0 <= i < es@.len() ==> (#[trigger] es@[i]@).wf(),
            Err(e) => {
                &&& e matches LoadError::MalformedRow { row }
                &&& row < rows@.len()
                &&& !row_valid(rows@[row as int])
                &&& forall|i: int| 0 <= i < row ==> row_valid(#[trigger] rows@[i])
            },
        },
{
    let mut entries: Vec<Entry> = Vec::new();
    let mut i: usize = 0;
    while i < rows.len()
        invariant
            i <= rows@.len(),
            forall|j: int| 0 <= j < i ==> row_valid(#[trigger] rows@[j]),
            views(entries@) == row_entries(rows@.take(i as int)),
            forall|j: int| 0 <= j < entries@.len() ==> (#[trigger] entries@[j]@).wf(),
        decreases rows@.len() - i,
    {
        match Entry::from_row(&rows[i]) {
            Some(e) => {
                proof {
                    assert(views(entries@.push(e)) =~= views(entries@).push(e@));
                    assert(row_entries(rows@.take(i as int + 1)) =~= row_entries(
                        rows@.take(i as int),
                    ).push(row_entry(rows@[i as int])));
                }
                entries.push(e);
            },
            None => {
                return Err(LoadError::MalformedRow { row: i });
            },
        }
        i = i + 1;
    }
    proof {
        assert(rows@.take(rows@.len() as int) =~= rows@);
    }
    Ok(entries)
}

} // verus!
