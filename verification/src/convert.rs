//! Traditional-to-simplified script conversion: a pure, character-for-
//! character transform over the dictionary's single-character entries.
//!
//! Conversion first gathers a candidate set — every single-character entry
//! whose traditional head form occurs in the input — and then maps each
//! input character independently: the first candidate whose traditional
//! head is exactly that character supplies the replacement, and characters
//! the dictionary does not track pass through unchanged.

use vstd::prelude::*;

use crate::dict::Cedict;
use crate::entry::{ref_views, Entry, EntryV};
use crate::text::str_chars;

verus! {

/// Whether the single-character entry `e` converts the character `c`: its
/// traditional head form is exactly `c`.
pub open spec fn converts(e: EntryV, c: char) -> bool {
    e.is_single_char && e.head_traditional == seq![c]
}

/// The candidate pre-filter: single-character entries whose one-character
/// traditional head occurs somewhere in the text `t`.
pub open spec fn tra_occurring(t: Seq<char>) -> spec_fn(EntryV) -> bool {
    |e: EntryV|
        e.is_single_char && e.head_traditional.len() == 1 && t.contains(e.head_traditional[0])
}

/// The first entry of `es` that converts `c`, if any.
pub open spec fn first_conversion(es: Seq<EntryV>, c: char) -> Option<EntryV>
    decreases es.len(),
{
    if es.len() == 0 {
        None
    } else if converts(es[0], c) {
        Some(es[0])
    } else {
        first_conversion(es.drop_first(), c)
    }
}

/// What one character becomes under conversion: the first character of the
/// simplified head of the first entry that converts it, or the character
/// itself where no entry does.
pub open spec fn simp_char(es: Seq<EntryV>, c: char) -> char {
    match first_conversion(es, c) {
        Some(e) => e.head_simplified[0],
        None => c,
    }
}

/// Character-for-character conversion of a whole text: position `i` of the
/// result is what position `i` of `t` becomes.
pub open spec fn simp_text(es: Seq<EntryV>, t: Seq<char>) -> Seq<char> {
    Seq::new(t.len(), |i: int| simp_char(es, t[i]))
}

/// How `first_conversion` behaves when one entry is appended.
proof fn lemma_first_conversion_push(es: Seq<EntryV>, e: EntryV, c: char)
    ensures
        first_conversion(es.push(e), c) == (match first_conversion(es, c) {
            Some(m) => Some(m),
            None => if converts(e, c) {
                Some(e)
            } else {
                None
            },
        }),
    decreases es.len(),
{
    if es.len() == 0 {
        assert(es.push(e)[0] == e);
        assert(es.push(e).drop_first() =~= es);
    } else {
        assert(es.push(e)[0] == es[0]);
        assert(es.push(e).drop_first() =~= es.drop_first().push(e));
        lemma_first_conversion_push(es.drop_first(), e, c);
    }
}

/// The first match among filtered candidates is the first match overall,
/// as long as the filter keeps every entry that can match.
proof fn lemma_first_conversion_filter(es: Seq<EntryV>, p: spec_fn(EntryV) -> bool, c: char)
    requires
        forall|e: EntryV| #[trigger] converts(e, c) ==> p(e),
    ensures
        first_conversion(es.filter(p), c) == first_conversion(es, c),
    decreases es.len(),
{
    reveal(Seq::filter);
    if es.len() == 0 {
    } else {
        let d = es.drop_last();
        let l = es.last();
        lemma_first_conversion_filter(d, p, c);
        assert(es =~= d.push(l));
        lemma_first_conversion_push(d, l, c);
        if p(l) {
            assert(es.filter(p) == d.filter(p).push(l));
            lemma_first_conversion_push(d.filter(p), l, c);
        } else {
            assert(!converts(l, c));
            assert(es.filter(p) == d.filter(p));
        }
    }
}

/// What a result of `first_conversion` is: an entry of `es` that converts
/// `c`; and when there is none, no entry of `es` converts `c`.
proof fn lemma_first_conversion_witness(es: Seq<EntryV>, c: char)
    ensures
        match first_conversion(es, c) {
            Some(m) => converts(m, c) && exists|i: int| 0 <= i < es.len() && es[i] == m,
            None => forall|i: int| 0 <= i < es.len() ==> !converts(#[trigger] es[i], c),
        },
    decreases es.len(),
{
    if es.len() > 0 && !converts(es[0], c) {
        lemma_first_conversion_witness(es.drop_first(), c);
        match first_conversion(es.drop_first(), c) {
            Some(m) => {
                let i = choose|i: int| 0 <= i < es.drop_first().len() && es.drop_first()[i] == m;
                assert(es[i + 1] == m);
            },
            None => {
                assert forall|i: int| 0 <= i < es.len() implies !converts(
                    #[trigger] es[i],
                    c,
                ) by {
                    if i > 0 {
                        assert(es.drop_first()[i - 1] == es[i]);
                    }
                }
            },
        }
    }
}

/// Converts one character against the candidate set: the first candidate
/// whose traditional head is exactly `c` decides, else `c` passes through.
fn convert_char(cands: &Vec<&Entry>, c: char) -> (r: char)
    requires
        forall|i: int| 0 <= i < cands@.len() ==> (#[trigger] cands@[i]@).wf(),
    ensures
        r == simp_char(ref_views(cands@), c),
{
    let ghost all = ref_views(cands@);
    proof {
        assert(all.skip(0) =~= all);
    }
    let mut i: usize = 0;
    while i < cands.len()
        invariant
            forall|k: int| 0 <= k < cands@.len() ==> (#[trigger] cands@[k]@).wf(),
            all == ref_views(cands@),
            i <= cands@.len(),
            first_conversion(all, c) == first_conversion(all.skip(i as int), c),
        decreases cands@.len() - i,
    {
        let e = cands[i];
        let ghost rest = all.skip(i as int);
        proof {
            assert(rest[0] == e@);
            assert(rest.drop_first() =~= all.skip(i as int + 1));
        }
        let mut matched = false;
        if e.is_single_char() {
            let tra = e.head_traditional();
            if tra.len() == 1 && tra[0] == c {
                matched = true;
            }
        }
        proof {
            if matched {
                assert(e@.head_traditional =~= seq![c]);
                assert(converts(e@, c));
            } else {
                assert(!converts(e@, c)) by {
                    if converts(e@, c) {
                        assert(e@.head_traditional[0] == c);
                    }
                }
            }
        }
        if matched {
            proof {
                assert(first_conversion(rest, c) == Some(e@));
                assert(e@.head_simplified.len() == 1);
            }
            return e.head_simplified()[0];
        }
        i = i + 1;
    }
    proof {
        assert(all.skip(all.len() as int) =~= Seq::<EntryV>::empty());
    }
    c
}

impl Cedict {
    /// Converts `text` character by character against this dictionary's
    /// single-character entries; characters the dictionary does not track,
    /// simplified ones among them, pass through unchanged. The result has
    /// exactly as many characters as `text`.
    pub fn to_simplified(&self, text: &str) -> (r: String)
        requires
            self.wf(),
        ensures
            r@ == simp_text(self.all_entries(), text@),
            r@.len() == text@.len(),
    {
        let tc = str_chars(text);
        let cands = self.single_char_candidates(&tc);
        let ghost all = self.all_entries();
        let mut out = String::new();
        proof {
            assert(out@ =~= simp_text(all, tc@).take(0));
        }
        let mut i: usize = 0;
        while i < tc.len()
            invariant
                self.wf(),
                tc@ == text@,
                all == self.all_entries(),
                ref_views(cands@) == all.filter(tra_occurring(tc@)),
                forall|k: int| 0 <= k < cands@.len() ==> (#[trigger] cands@[k]@).wf(),
                i <= tc@.len(),
                out@ == simp_text(all, tc@).take(i as int),
            decreases tc@.len() - i,
        {
            let c = tc[i];
            let s = convert_char(&cands, c);
            proof {
                assert forall|e: EntryV| #[trigger] converts(e, c) implies tra_occurring(tc@)(
                    e,
                ) by {
                    assert(e.head_traditional[0] == c);
                    assert(tc@[i as int] == c);
                }
                lemma_first_conversion_filter(all, tra_occurring(tc@), c);
                assert(s == simp_char(all, c));
                assert(out@.push(s) =~= simp_text(all, tc@).take(i as int + 1));
            }
            out.push(s);
            i = i + 1;
        }
        proof {
            assert(simp_text(all, tc@).take(tc@.len() as int) =~= simp_text(all, tc@));
        }
        out
    }
}

/// Whether every simplified character the dictionary can produce is itself
/// left alone by conversion. Dictionaries without this can convert a
/// character to one that converts further.
pub open spec fn conversion_stable(es: Seq<EntryV>) -> bool {
    forall|i: int|
        0 <= i < es.len() && (#[trigger] es[i]).is_single_char ==> simp_char(
            es,
            es[i].head_simplified[0],
        ) == es[i].head_simplified[0]
}

/// One character converts to a character that converts no further, in a
/// stable dictionary.
proof fn lemma_simp_char_idempotent(es: Seq<EntryV>, c: char)
    requires
        conversion_stable(es),
    ensures
        simp_char(es, simp_char(es, c)) == simp_char(es, c),
{
    lemma_first_conversion_witness(es, c);
    match first_conversion(es, c) {
        None => {},
        Some(m) => {
            let i = choose|i: int| 0 <= i < es.len() && es[i] == m;
            assert(es[i].is_single_char);
        },
    }
}

/// Converting twice is converting once, for every text, in a dictionary
/// whose simplified forms are stable under conversion.
pub proof fn lemma_to_simplified_idempotent(es: Seq<EntryV>, t: Seq<char>)
    requires
        conversion_stable(es),
    ensures
        simp_text(es, simp_text(es, t)) == simp_text(es, t),
{
    let once = simp_text(es, t);
    assert forall|i: int| 0 <= i < once.len() implies simp_char(es, #[trigger] once[i])
        == once[i] by {
        lemma_simp_char_idempotent(es, t[i]);
    }
    assert(simp_text(es, once) =~= once);
}

/// A text none of whose characters the dictionary converts passes through
/// conversion unchanged.
pub proof fn lemma_to_simplified_unchanged(es: Seq<EntryV>, t: Seq<char>)
    requires
        forall|i: int| 0 <= i < t.len() ==> first_conversion(es, #[trigger] t[i]) is None,
    ensures
        simp_text(es, t) == t,
{
    assert(simp_text(es, t) =~= t);
}

} // verus!
