//! The record type for one lexicon entry, its mathematical model, and the
//! error type of the loaders.

use vstd::prelude::*;
use vstd::string::StringExecFns;

use crate::text::{
    chars_string, dec_digits, find_char, lemma_find_from, push_all, push_digits, slice_range,
    split_chars, split_from,
};

verus! {

/// Mathematical model of one lexicon entry.
///
/// `is_single_char` and `index_key` are derived from `head_simplified`;
/// `wf` ties them down.
#[verifier::ext_equal]
pub ghost struct EntryV {
    pub head_simplified: Seq<char>,
    pub head_traditional: Seq<char>,
    pub pronunciation: Seq<char>,
    pub definition: Seq<char>,
    pub level: Option<u32>,
    pub is_single_char: bool,
    pub index_key: char,
}

impl EntryV {
    /// Both head forms are non-empty and the derived fields agree with
    /// `head_simplified`.
    pub open spec fn wf(self) -> bool {
        &&& self.head_simplified.len() > 0
        &&& self.head_traditional.len() > 0
        &&& self.is_single_char == (self.head_simplified.len() == 1)
        &&& self.index_key == self.head_simplified[0]
    }
}

/// One lexicon entry: the simplified and traditional head forms, the
/// pronunciation, the definition (senses separated by `/`), and an optional
/// proficiency tier.
#[derive(Debug)]
pub struct Entry {
    head_simplified: Vec<char>,
    head_traditional: Vec<char>,
    pronunciation: Vec<char>,
    definition: Vec<char>,
    level: Option<u32>,
    is_single_char: bool,
    index_key: char,
}

impl View for Entry {
    type V = EntryV;

    closed spec fn view(&self) -> EntryV {
        EntryV {
            head_simplified: self.head_simplified@,
            head_traditional: self.head_traditional@,
            pronunciation: self.pronunciation@,
            definition: self.definition@,
            level: self.level,
            is_single_char: self.is_single_char,
            index_key: self.index_key,
        }
    }
}

impl Clone for Entry {
    /// The copy models the same entry.
    fn clone(&self) -> (res: Self)
        ensures
            res@ == self@,
    {
        let res = Entry {
            head_simplified: self.head_simplified.clone(),
            head_traditional: self.head_traditional.clone(),
            pronunciation: self.pronunciation.clone(),
            definition: self.definition.clone(),
            level: self.level,
            is_single_char: self.is_single_char,
            index_key: self.index_key,
        };
        proof {
            assert(res.head_simplified@ =~= self.head_simplified@);
            assert(res.head_traditional@ =~= self.head_traditional@);
            assert(res.pronunciation@ =~= self.pronunciation@);
            assert(res.definition@ =~= self.definition@);
        }
        res
    }
}

/// The views of a sequence of entries.
pub open spec fn views(s: Seq<Entry>) -> Seq<EntryV> {
    s.map_values(|e: Entry| e@)
}

/// The views of a sequence of borrowed entries.
pub open spec fn ref_views(s: Seq<&Entry>) -> Seq<EntryV> {
    s.map_values(|e: &Entry| e@)
}

/// One plain tabular row of the lexicon source, before validation.
pub struct RawRow {
    pub simplified: String,
    pub traditional: String,
    pub pronunciation: String,
    pub definition: String,
    pub level: Option<u32>,
}

/// Whether a tabular row carries both head forms.
pub open spec fn row_valid(r: RawRow) -> bool {
    r.simplified@.len() > 0 && r.traditional@.len() > 0
}

/// The entry a valid tabular row denotes.
pub open spec fn row_entry(r: RawRow) -> EntryV {
    EntryV {
        head_simplified: r.simplified@,
        head_traditional: r.traditional@,
        pronunciation: r.pronunciation@,
        definition: r.definition@,
        level: r.level,
        is_single_char: r.simplified@.len() == 1,
        index_key: r.simplified@[0],
    }
}

/// Why a load failed. Queries never fail; only loading does.
#[derive(Debug, PartialEq, Eq, Structural, Clone, Copy)]
pub enum LoadError {
    /// A line of the text source does not match the grammar. The field is
    /// the index of the first offending line, counting from zero.
    MalformedLine { line: usize },
    /// A tabular row lacks one of the head forms. The field is the index of
    /// the first offending row, counting from zero.
    MalformedRow { row: usize },
    /// The source could not be opened or read at all.
    SourceUnreadable,
}

/// The entry that `Entry::from_parts` builds from the given fields.
pub open spec fn parts_entry(
    head_simplified: Seq<char>,
    head_traditional: Seq<char>,
    pronunciation: Seq<char>,
    definition: Seq<char>,
    level: Option<u32>,
) -> EntryV {
    EntryV {
        head_simplified,
        head_traditional,
        pronunciation,
        definition,
        level,
        is_single_char: head_simplified.len() == 1,
        index_key: head_simplified[0],
    }
}

impl Entry {
    /// Builds an entry from its fields, deriving `is_single_char` and the
    /// index key; `None` when a head form is empty.
    pub fn from_parts(
        head_simplified: Vec<char>,
        head_traditional: Vec<char>,
        pronunciation: Vec<char>,
        definition: Vec<char>,
        level: Option<u32>,
    ) -> (res: Option<Entry>)
        ensures
            res is Some <==> head_simplified@.len() > 0 && head_traditional@.len() > 0,
            res matches Some(e) ==> e@ == parts_entry(
                head_simplified@,
                head_traditional@,
                pronunciation@,
                definition@,
                level,
            ) && e@.wf(),
    {
        if head_simplified.len() == 0 || head_traditional.len() == 0 {
            return None;
        }
        let is_single_char = head_simplified.len() == 1;
        let index_key = head_simplified[0];
        Some(
            Entry {
                head_simplified,
                head_traditional,
                pronunciation,
                definition,
                level,
                is_single_char,
                index_key,
            },
        )
    }

    /// Builds an entry from one tabular row; `None` when a head form is
    /// missing, which fails the whole load.
    pub fn from_row(r: &RawRow) -> (res: Option<Entry>)
        ensures
            res is Some <==> row_valid(*r),
            res matches Some(e) ==> e@ == row_entry(*r) && e@.wf(),
    {
        Entry::from_parts(
            crate::text::str_chars(r.simplified.as_str()),
            crate::text::str_chars(r.traditional.as_str()),
            crate::text::str_chars(r.pronunciation.as_str()),
            crate::text::str_chars(r.definition.as_str()),
            r.level,
        )
    }

    /// The simplified head form.
    pub fn head_simplified(&self) -> (r: &Vec<char>)
        ensures
            r@ == self@.head_simplified,
    {
        &self.head_simplified
    }

    /// The traditional head form.
    pub fn head_traditional(&self) -> (r: &Vec<char>)
        ensures
            r@ == self@.head_traditional,
    {
        &self.head_traditional
    }

    /// The pronunciation, as it stood between the brackets of the source.
    pub fn pronunciation(&self) -> (r: &Vec<char>)
        ensures
            r@ == self@.pronunciation,
    {
        &self.pronunciation
    }

    /// The definition: all senses, separated by `/`.
    pub fn definition(&self) -> (r: &Vec<char>)
        ensures
            r@ == self@.definition,
    {
        &self.definition
    }

    /// The proficiency tier, where the source carried one.
    pub fn level(&self) -> (r: Option<u32>)
        ensures
            r == self@.level,
    {
        self.level
    }

    /// Whether the simplified head form is exactly one character long.
    pub fn is_single_char(&self) -> (r: bool)
        ensures
            r == self@.is_single_char,
    {
        self.is_single_char
    }

    /// The first character of the simplified head form: the key this entry
    /// is indexed under.
    pub fn index(&self) -> (r: char)
        ensures
            r == self@.index_key,
    {
        self.index_key
    }
}

/// The views of a sequence of strings.
pub open spec fn string_views(s: Seq<String>) -> Seq<Seq<char>> {
    s.map_values(|x: String| x@)
}

/// The definition with each separator replaced by a line break and a
/// bullet, so that every sense renders on a line of its own.
pub open spec fn def_lines(d: Seq<char>) -> Seq<char>
    decreases d.len(),
{
    if d.len() == 0 {
        Seq::empty()
    } else {
        def_lines(d.drop_last()) + (if d.last() == '/' {
            seq!['\n', '-', ' ']
        } else {
            seq![d.last()]
        })
    }
}

/// The proficiency tag of a rendered entry: empty where no tier is set.
pub open spec fn level_tag(level: Option<u32>) -> Seq<char> {
    match level {
        None => Seq::empty(),
        Some(n) => seq!['H', 'S', 'K'] + dec_digits(n as int),
    }
}

/// How an entry renders: both head forms, the pronunciation in brackets,
/// the optional tier tag, then one bulleted line per definition sense.
pub open spec fn render_spec(e: EntryV) -> Seq<char> {
    seq!['-', ' '] + e.head_simplified + seq![' ', '|', ' '] + e.head_traditional + seq![' ', '[']
        + e.pronunciation + seq![']', ' '] + level_tag(e.level) + seq!['\n', '-', ' '] + def_lines(
        e.definition,
    )
}

/// Appends the definition to `out`, one bulleted line per sense.
fn push_def_lines(out: &mut String, d: &Vec<char>)
    ensures
        final(out)@ == old(out)@ + def_lines(d@),
{
    let mut i: usize = 0;
    proof {
        assert(d@.take(0) =~= Seq::<char>::empty());
        assert(old(out)@ + def_lines(d@.take(0)) =~= old(out)@);
    }
    while i < d.len()
        invariant
            i <= d@.len(),
            out@ == old(out)@ + def_lines(d@.take(i as int)),
        decreases d@.len() - i,
    {
        let c = d[i];
        proof {
            assert(d@.take(i as int + 1).drop_last() =~= d@.take(i as int));
            assert(d@.take(i as int + 1).last() == d@[i as int]);
        }
        if c == '/' {
            out.push('\n');
            out.push('-');
            out.push(' ');
            proof {
                assert(out@ =~= old(out)@ + def_lines(d@.take(i as int + 1)));
            }
        } else {
            out.push(c);
            proof {
                assert(out@ =~= old(out)@ + def_lines(d@.take(i as int + 1)));
            }
        }
        i = i + 1;
    }
    proof {
        assert(d@.take(d@.len() as int) =~= d@);
    }
}

impl Entry {
    /// Renders the entry for display, as `- SIMPLIFIED | TRADITIONAL
    /// [PRONUNCIATION] TAG`, followed by one bulleted line per sense.
    pub fn render(&self) -> (r: String)
        ensures
            r@ == render_spec(self@),
    {
        let ghost e = self@;
        let ghost g1 = seq!['-', ' '] + e.head_simplified;
        let ghost g2 = g1 + seq![' ', '|', ' '] + e.head_traditional;
        let ghost g3 = g2 + seq![' ', '['] + e.pronunciation;
        let ghost g4 = g3 + seq![']', ' '] + level_tag(e.level);
        let ghost g5 = g4 + seq!['\n', '-', ' '];
        let mut out = String::new();
        out.push('-');
        out.push(' ');
        push_all(&mut out, &self.head_simplified);
        proof {
            assert(out@ =~= g1);
        }
        out.push(' ');
        out.push('|');
        out.push(' ');
        push_all(&mut out, &self.head_traditional);
        proof {
            assert(out@ =~= g2);
        }
        out.push(' ');
        out.push('[');
        push_all(&mut out, &self.pronunciation);
        proof {
            assert(out@ =~= g3);
        }
        out.push(']');
        out.push(' ');
        match self.level {
            None => {
                proof {
                    assert(out@ =~= g4);
                }
            },
            Some(n) => {
                out.push('H');
                out.push('S');
                out.push('K');
                push_digits(&mut out, n as u64);
                proof {
                    assert(dec_digits((n as u64) as int) == dec_digits(n as int));
                }
                proof {
                    assert(out@ =~= g4);
                }
            },
        }
        out.push('\n');
        out.push('-');
        out.push(' ');
        proof {
            assert(out@ =~= g5);
        }
        push_def_lines(&mut out, &self.definition);
        proof {
            assert(out@ =~= render_spec(e));
        }
        out
    }

    /// The senses of the definition, one string each, split at every
    /// separator.
    pub fn senses(&self) -> (r: Vec<String>)
        ensures
            string_views(r@) == split_chars(self@.definition, '/'),
    {
        let d = &self.definition;
        let ghost segs = split_chars(d@, '/');
        let mut out: Vec<String> = Vec::new();
        let mut start: usize = 0;
        let mut k: usize = 0;
        proof {
            assert(d@.len() == d.len());
            assert(segs.skip(0) =~= segs);
            assert(string_views(out@) =~= segs.take(0));
            assert(segs.len() >= 1);
        }
        loop
            invariant
                d@.len() <= usize::MAX,
                segs == split_chars(d@, '/'),
                segs == split_chars(self@.definition, '/'),
                start <= d@.len(),
                k <= start,
                split_from(d@, start as int, '/') == segs.skip(k as int),
                k < segs.len(),
                string_views(out@) == segs.take(k as int),
            decreases d@.len() - start,
        {
            let stop = match find_char(d, start, '/') {
                Some(i) => i,
                None => d.len(),
            };
            let seg = slice_range(d, start, stop);
            let s = chars_string(&seg);
            proof {
                lemma_find_from(d@, start as int, '/');
                assert(segs.skip(k as int)[0] == seg@);
                assert(segs.take(k as int + 1) =~= segs.take(k as int).push(segs[k as int]));
                assert(string_views(out@.push(s)) =~= string_views(out@).push(s@));
            }
            out.push(s);
            if stop == d.len() {
                proof {
                    assert(segs.skip(k as int).len() == 1);
                    assert(segs.take(k as int + 1) =~= segs);
                }
                return out;
            }
            proof {
                assert(segs.skip(k as int + 1) =~= segs.skip(k as int).drop_first());
                assert(split_from(d@, stop as int + 1, '/') =~= segs.skip(k as int + 1));
                assert(split_from(d@, stop as int + 1, '/').len() >= 1);
            }
            start = stop + 1;
            k = k + 1;
        }
    }
}

impl LoadError {
    /// What the error says of itself.
    pub open spec fn message_spec(self) -> Seq<char> {
        match self {
            LoadError::MalformedLine { line } => "malformed line "@ + dec_digits(line as int),
            LoadError::MalformedRow { row } => "malformed row "@ + dec_digits(row as int),
            LoadError::SourceUnreadable => "source unreadable"@,
        }
    }

    /// A human-readable description of the failure, naming the offending
    /// line or row where there is one.
    pub fn message(&self) -> (r: String)
        ensures
            r@ == self.message_spec(),
    {
        match self {
            LoadError::MalformedLine { line } => {
                let mut out = String::from_str("malformed line ");
                push_digits(&mut out, *line as u64);
                proof {
                    assert(dec_digits(*line as int) == dec_digits((*line as u64) as int));
                }
                out
            },
            LoadError::MalformedRow { row } => {
                let mut out = String::from_str("malformed row ");
                push_digits(&mut out, *row as u64);
                proof {
                    assert(dec_digits(*row as int) == dec_digits((*row as u64) as int));
                }
                out
            },
            LoadError::SourceUnreadable => String::from_str("source unreadable"),
        }
    }
}

} // verus!
