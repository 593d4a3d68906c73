//! The leading-character index and the queries answered over it.
//!
//! Entries are grouped into buckets by the first character of the
//! simplified head form; the buckets are kept sorted by key, so a lookup
//! binary-searches the keys and then scans one bucket. The structure is
//! built once and never changed afterwards.

use vstd::prelude::*;
use vstd::seq_lib::group_filter_ensures;

use crate::entry::{ref_views, views, Entry, EntryV};
use crate::text::{chars_eq, contains_char, contains_sub, is_substring, str_chars};

verus! {

broadcast use group_filter_ensures;

/// All entries whose index key is one and the same character.
struct Bucket {
    key: char,
    entries: Vec<Entry>,
}

/// The dictionary: an ordered map from leading character to the entries
/// indexed under it.
pub struct Cedict {
    buckets: Vec<Bucket>,
}

/// Every entry of the bucket is well-formed and indexed under the bucket's
/// key, and the bucket holds at least one entry.
spec fn bucket_wf(b: Bucket) -> bool {
    &&& b.entries@.len() > 0
    &&& forall|j: int|
        0 <= j < b.entries@.len() ==> (#[trigger] b.entries@[j]@).wf() && b.entries@[j]@.index_key
            == b.key
}

/// The bucket keys are strictly increasing.
spec fn sorted_keys(bs: Seq<Bucket>) -> bool {
    forall|i: int, j: int|
        #![trigger bs[i], bs[j]]
        0 <= i < j < bs.len() ==> (bs[i].key as u32) < (bs[j].key as u32)
}

/// The entries of every bucket keyed by `c`, in order. Under `sorted_keys`
/// at most one bucket is, so this is that bucket's contents or empty.
spec fn entries_of_key(bs: Seq<Bucket>, c: char) -> Seq<EntryV>
    decreases bs.len(),
{
    if bs.len() == 0 {
        Seq::empty()
    } else {
        entries_of_key(bs.drop_last(), c) + (if bs.last().key == c {
            views(bs.last().entries@)
        } else {
            Seq::empty()
        })
    }
}

/// The entries of all buckets, in bucket order.
spec fn entries_of(bs: Seq<Bucket>) -> Seq<EntryV>
    decreases bs.len(),
{
    if bs.len() == 0 {
        Seq::empty()
    } else {
        entries_of(bs.drop_last()) + views(bs.last().entries@)
    }
}

proof fn lemma_entries_of_key_concat(a: Seq<Bucket>, b: Seq<Bucket>, c: char)
    ensures
        entries_of_key(a + b, c) == entries_of_key(a, c) + entries_of_key(b, c),
    decreases b.len(),
{
    if b.len() == 0 {
        assert(a + b =~= a);
        assert(entries_of_key(a, c) + entries_of_key(b, c) =~= entries_of_key(a, c));
    } else {
        assert((a + b).drop_last() =~= a + b.drop_last());
        assert((a + b).last() == b.last());
        lemma_entries_of_key_concat(a, b.drop_last(), c);
        assert(entries_of_key(a, c) + entries_of_key(b.drop_last(), c) + (if b.last().key == c {
            views(b.last().entries@)
        } else {
            Seq::empty()
        }) =~= entries_of_key(a, c) + entries_of_key(b, c));
    }
}

proof fn lemma_entries_of_key_absent(bs: Seq<Bucket>, c: char)
    requires
        forall|j: int| 0 <= j < bs.len() ==> (#[trigger] bs[j]).key != c,
    ensures
        entries_of_key(bs, c) == Seq::<EntryV>::empty(),
    decreases bs.len(),
{
    if bs.len() > 0 {
        lemma_entries_of_key_absent(bs.drop_last(), c);
        assert(Seq::<EntryV>::empty() + Seq::<EntryV>::empty() =~= Seq::<EntryV>::empty());
    }
}

/// Under unique keys, the entries keyed by `c` are exactly the contents of
/// the one bucket whose key is `c`.
proof fn lemma_entries_of_key_at(bs: Seq<Bucket>, pos: int, c: char)
    requires
        0 <= pos < bs.len(),
        bs[pos].key == c,
        forall|j: int| 0 <= j < bs.len() && j != pos ==> (#[trigger] bs[j]).key != c,
    ensures
        entries_of_key(bs, c) == views(bs[pos].entries@),
{
    let a = bs.take(pos);
    let m = seq![bs[pos]];
    let z = bs.skip(pos + 1);
    assert(bs =~= a + m + z);
    lemma_entries_of_key_concat(a + m, z, c);
    lemma_entries_of_key_concat(a, m, c);
    lemma_entries_of_key_absent(a, c);
    lemma_entries_of_key_absent(z, c);
    assert(m.drop_last() =~= Seq::<Bucket>::empty());
    assert(entries_of_key(Seq::<Bucket>::empty(), c) == Seq::<EntryV>::empty());
    assert(entries_of_key(m, c) =~= views(bs[pos].entries@));
    assert(Seq::<EntryV>::empty() + views(bs[pos].entries@) + Seq::<EntryV>::empty() =~= views(
        bs[pos].entries@,
    ));
}

/// The predicate an entry meets when it is indexed under `c`.
pub open spec fn keyed(c: char) -> spec_fn(EntryV) -> bool {
    |e: EntryV| e.index_key == c
}

/// How a filtered sequence grows when one element is appended.
pub(crate) proof fn lemma_filter_push<A>(s: Seq<A>, p: spec_fn(A) -> bool, x: A)
    ensures
        s.push(x).filter(p) == (if p(x) {
            s.filter(p).push(x)
        } else {
            s.filter(p)
        }),
{
    reveal(Seq::filter);
    assert(s.push(x).drop_last() =~= s);
}

/// A non-empty filtered sequence has a witness in the original.
pub(crate) proof fn lemma_filter_nonempty_witness<A>(s: Seq<A>, p: spec_fn(A) -> bool)
    requires
        s.filter(p).len() > 0,
    ensures
        exists|i: int| 0 <= i < s.len() && p(#[trigger] s[i]),
    decreases s.len(),
{
    reveal(Seq::filter);
    if p(s.last()) {
        assert(0 <= s.len() - 1 < s.len() && p(s[s.len() - 1]));
    } else {
        lemma_filter_nonempty_witness(s.drop_last(), p);
        let i = choose|i: int| 0 <= i < s.drop_last().len() && p(#[trigger] s.drop_last()[i]);
        assert(s.drop_last()[i] == s[i]);
    }
}

impl Cedict {
    /// The bucket keys, in order.
    pub closed spec fn keys(self) -> Seq<char> {
        self.buckets@.map_values(|b: Bucket| b.key)
    }

    /// The dictionary is well-formed: keys strictly increasing, every
    /// bucket non-empty, every entry well-formed and in the right bucket.
    pub closed spec fn wf(self) -> bool {
        &&& sorted_keys(self.buckets@)
        &&& forall|i: int| 0 <= i < self.buckets@.len() ==> bucket_wf(#[trigger] self.buckets@[i])
    }

    /// The entries indexed under `c`, in insertion order; empty when no
    /// bucket is keyed by `c`.
    pub closed spec fn bucket_view(self, c: char) -> Seq<EntryV> {
        entries_of_key(self.buckets@, c)
    }

    /// All entries of the dictionary, in bucket order.
    pub closed spec fn all_entries(self) -> Seq<EntryV> {
        entries_of(self.buckets@)
    }

    /// The dictionary groups exactly the entries `es`: each bucket holds,
    /// in order, the entries of `es` whose index key is the bucket's key.
    pub open spec fn built_from(self, es: Seq<EntryV>) -> bool {
        forall|c: char| #[trigger] self.bucket_view(c) == es.filter(|e: EntryV| e.index_key == c)
    }

    /// Binary search among the bucket keys: the position of the bucket
    /// keyed by `c`, or the position where such a bucket would be inserted.
    fn locate(&self, c: char) -> (r: Result<usize, usize>)
        requires
            self.wf(),
        ensures
            match r {
                Ok(i) => i < self.buckets@.len() && self.buckets@[i as int].key == c,
                Err(i) => {
                    &&& i <= self.buckets@.len()
                    &&& forall|j: int|
                        0 <= j < i ==> ((#[trigger] self.buckets@[j]).key as u32) < (c as u32)
                    &&& forall|j: int|
                        i <= j < self.buckets@.len() ==> (c as u32) < ((
                        #[trigger] self.buckets@[j]).key as u32)
                },
            },
    {
        locate_in(&self.buckets, c)
    }
}

/// Binary search for `c` among the keys of a sorted bucket vector.
fn locate_in(buckets: &Vec<Bucket>, c: char) -> (r: Result<usize, usize>)
    requires
        sorted_keys(buckets@),
    ensures
        match r {
            Ok(i) => i < buckets@.len() && buckets@[i as int].key == c,
            Err(i) => {
                &&& i <= buckets@.len()
                &&& forall|j: int|
                    0 <= j < i ==> ((#[trigger] buckets@[j]).key as u32) < (c as u32)
                &&& forall|j: int|
                    i <= j < buckets@.len() ==> (c as u32) < ((#[trigger] buckets@[j]).key as u32)
            },
        },
{
    let mut lo: usize = 0;
    let mut hi: usize = buckets.len();
    while lo < hi
        invariant
            sorted_keys(buckets@),
            lo <= hi <= buckets@.len(),
            forall|j: int| 0 <= j < lo ==> ((#[trigger] buckets@[j]).key as u32) < (c as u32),
            forall|j: int|
                hi <= j < buckets@.len() ==> (c as u32) < ((#[trigger] buckets@[j]).key as u32),
        decreases hi - lo,
    {
        let mid = lo + (hi - lo) / 2;
        let k = buckets[mid].key;
        if k == c {
            return Ok(mid);
        } else if (k as u32) < (c as u32) {
            lo = mid + 1;
        } else {
            proof {
                assert((c as u32) != (k as u32));
            }
            hi = mid;
        }
    }
    Err(lo)
}

impl Cedict {
    /// Groups the given entries into a fresh dictionary: one bucket per
    /// distinct leading character, keys sorted, and within a bucket the
    /// original relative order of the entries kept.
    pub fn build(entries: Vec<Entry>) -> (d: Cedict)
        requires
            forall|i: int| 0 <= i < entries@.len() ==> (#[trigger] entries@[i]@).wf(),
        ensures
            d.wf(),
            d.built_from(views(entries@)),
    {
        let mut buckets: Vec<Bucket> = Vec::new();
        proof {
            assert forall|c: char| #[trigger] entries_of_key(buckets@, c) == views(
                entries@.take(0),
            ).filter(keyed(c)) by {
                assert(entries@.take(0) =~= Seq::<Entry>::empty());
                assert(views(Seq::<Entry>::empty()) =~= Seq::<EntryV>::empty());
                assert(Seq::<EntryV>::empty().filter(keyed(c)) == Seq::<EntryV>::empty());
            }
        }
        for e in it: entries.into_iter()
            invariant
                it.seq() == entries@,
                forall|i: int| 0 <= i < entries@.len() ==> (#[trigger] entries@[i]@).wf(),
                sorted_keys(buckets@),
                forall|i: int| 0 <= i < buckets@.len() ==> bucket_wf(#[trigger] buckets@[i]),
                forall|c: char| #[trigger] entries_of_key(buckets@, c) == views(
                    entries@.take(it.index() as int),
                ).filter(keyed(c)),
        {
            let ghost idx = it.index() as int;
            let ghost old_bs = buckets@;
            let ghost old_es = views(entries@.take(idx));
            proof {
                assert(e == entries@[idx]);
                assert(e@.wf());
                assert(views(entries@.take(idx + 1)) =~= old_es.push(e@));
            }
            let k = e.index();
            match locate_in(&buckets, k) {
                Ok(pos) => {
                    let ghost ob = old_bs[pos as int];
                    let mut b = buckets.remove(pos);
                    b.entries.push(e);
                    let ghost nb = b;
                    buckets.insert(pos, b);
                    proof {
                        let a = old_bs.take(pos as int);
                        let z = old_bs.skip(pos as int + 1);
                        assert(old_bs =~= (a + seq![ob]) + z);
                        assert(buckets@ =~= (a + seq![nb]) + z);
                        assert(nb.key == k && nb.entries@ == ob.entries@.push(e));
                        assert(bucket_wf(nb)) by {
                            assert(bucket_wf(ob));
                            assert forall|j: int| 0 <= j < nb.entries@.len() implies (
                            #[trigger] nb.entries@[j]@).wf() && nb.entries@[j]@.index_key
                                == nb.key by {
                                if j < ob.entries@.len() {
                                    assert(nb.entries@[j] == ob.entries@[j]);
                                } else {
                                    assert(nb.entries@[j] == e);
                                }
                            }
                        }
                        assert forall|i: int| 0 <= i < buckets@.len() implies bucket_wf(
                            #[trigger] buckets@[i],
                        ) && buckets@[i].key == old_bs[i].key by {
                            if i != pos {
                                assert(buckets@[i] == old_bs[i]);
                            }
                        }
                        assert(sorted_keys(buckets@)) by {
                            assert forall|i: int, j: int|
                                #![trigger buckets@[i], buckets@[j]]
                                0 <= i < j < buckets@.len() implies (buckets@[i].key as u32) < (
                            buckets@[j].key as u32) by {
                                assert((old_bs[i].key as u32) < (old_bs[j].key as u32));
                            }
                        }
                        assert forall|c: char| #[trigger] entries_of_key(buckets@, c) == views(
                            entries@.take(idx + 1),
                        ).filter(keyed(c)) by {
                            lemma_entries_of_key_concat(a + seq![nb], z, c);
                            lemma_entries_of_key_concat(a, seq![nb], c);
                            lemma_entries_of_key_concat(a + seq![ob], z, c);
                            lemma_entries_of_key_concat(a, seq![ob], c);
                            assert(seq![nb].drop_last() =~= Seq::<Bucket>::empty());
                            assert(seq![ob].drop_last() =~= Seq::<Bucket>::empty());
                            assert(entries_of_key(Seq::<Bucket>::empty(), c)
                                == Seq::<EntryV>::empty());
                            lemma_filter_push(old_es, keyed(c), e@);
                            if c == k {
                                assert(views(nb.entries@) =~= views(ob.entries@).push(e@));
                                assert(entries_of_key(seq![nb], c) =~= views(ob.entries@).push(
                                    e@,
                                ));
                                assert(entries_of_key(seq![ob], c) =~= views(ob.entries@));
                                assert(keyed(c)(e@));
                                assert forall|j: int| 0 <= j < a.len() implies (
                                #[trigger] a[j]).key != c by {
                                    assert(a[j] == old_bs[j]);
                                    assert((old_bs[j].key as u32) < (old_bs[pos as int].key
                                        as u32));
                                }
                                assert forall|j: int| 0 <= j < z.len() implies (
                                #[trigger] z[j]).key != c by {
                                    assert(z[j] == old_bs[j + pos + 1]);
                                    assert((old_bs[pos as int].key as u32) < (old_bs[j + pos
                                        + 1].key as u32));
                                }
                                lemma_entries_of_key_absent(a, c);
                                lemma_entries_of_key_absent(z, c);
                                assert(entries_of_key(buckets@, c) =~= entries_of_key(
                                    old_bs,
                                    c,
                                ).push(e@));
                            } else {
                                assert(entries_of_key(seq![nb], c) =~= Seq::<EntryV>::empty());
                                assert(entries_of_key(seq![ob], c) =~= Seq::<EntryV>::empty());
                                assert(!keyed(c)(e@));
                                assert(entries_of_key(buckets@, c) =~= entries_of_key(old_bs, c));
                            }
                        }
                    }
                },
                Err(pos) => {
                    let mut v: Vec<Entry> = Vec::new();
                    v.push(e);
                    let b = Bucket { key: k, entries: v };
                    let ghost nb = b;
                    buckets.insert(pos, b);
                    proof {
                        let a = old_bs.take(pos as int);
                        let z = old_bs.skip(pos as int);
                        assert(old_bs =~= a + z);
                        assert(buckets@ =~= (a + seq![nb]) + z);
                        assert(nb.entries@ =~= Seq::<Entry>::empty().push(e));
                        assert(bucket_wf(nb)) by {
                            assert(nb.entries@[0] == e);
                        }
                        assert forall|i: int| 0 <= i < buckets@.len() implies bucket_wf(
                            #[trigger] buckets@[i],
                        ) by {
                            if i < pos {
                                assert(buckets@[i] == old_bs[i]);
                            } else if i > pos {
                                assert(buckets@[i] == old_bs[i - 1]);
                            }
                        }
                        assert(sorted_keys(buckets@)) by {
                            assert forall|i: int, j: int|
                                #![trigger buckets@[i], buckets@[j]]
                                0 <= i < j < buckets@.len() implies (buckets@[i].key as u32) < (
                            buckets@[j].key as u32) by {
                                if i < pos {
                                    assert(buckets@[i] == old_bs[i]);
                                } else if i > pos {
                                    assert(buckets@[i] == old_bs[i - 1]);
                                }
                                if j < pos {
                                    assert(buckets@[j] == old_bs[j]);
                                } else if j > pos {
                                    assert(buckets@[j] == old_bs[j - 1]);
                                }
                            }
                        }
                        assert forall|c: char| #[trigger] entries_of_key(buckets@, c) == views(
                            entries@.take(idx + 1),
                        ).filter(keyed(c)) by {
                            lemma_entries_of_key_concat(a + seq![nb], z, c);
                            lemma_entries_of_key_concat(a, seq![nb], c);
                            lemma_entries_of_key_concat(a, z, c);
                            assert(seq![nb].drop_last() =~= Seq::<Bucket>::empty());
                            assert(entries_of_key(Seq::<Bucket>::empty(), c)
                                == Seq::<EntryV>::empty());
                            lemma_filter_push(old_es, keyed(c), e@);
                            if c == k {
                                assert forall|j: int| 0 <= j < a.len() implies (
                                #[trigger] a[j]).key != c by {
                                    assert(a[j] == old_bs[j]);
                                    assert((old_bs[j].key as u32) < (c as u32));
                                }
                                assert forall|j: int| 0 <= j < z.len() implies (
                                #[trigger] z[j]).key != c by {
                                    assert(z[j] == old_bs[j + pos]);
                                    assert((c as u32) < (old_bs[j + pos].key as u32));
                                }
                                lemma_entries_of_key_absent(a, c);
                                lemma_entries_of_key_absent(z, c);
                                assert(entries_of_key(old_bs, c) =~= Seq::<EntryV>::empty());
                                assert(old_es.filter(keyed(c)) == Seq::<EntryV>::empty());
                                assert(views(nb.entries@) =~= seq![e@]);
                                assert(entries_of_key(seq![nb], c) =~= seq![e@]);
                                assert(keyed(c)(e@));
                                assert(entries_of_key(buckets@, c) =~= seq![e@]);
                                assert(views(entries@.take(idx + 1)).filter(keyed(c)) =~= seq![
                                    e@,
                                ]);
                            } else {
                                assert(entries_of_key(seq![nb], c) =~= Seq::<EntryV>::empty());
                                assert(!keyed(c)(e@));
                                assert(entries_of_key(buckets@, c) =~= entries_of_key(old_bs, c));
                            }
                        }
                    }
                },
            }
        }
        proof {
            assert(entries@.take(entries@.len() as int) =~= entries@);
        }
        Cedict { buckets }
    }
}

/// The predicate an entry meets when its simplified head form is `w`.
pub open spec fn sim_is(w: Seq<char>) -> spec_fn(EntryV) -> bool {
    |e: EntryV| e.head_simplified == w
}

/// The predicate an entry meets when either head form contains `f` as a
/// contiguous run of characters.
pub open spec fn mentions(f: Seq<char>) -> spec_fn(EntryV) -> bool {
    |e: EntryV| is_substring(f, e.head_simplified) || is_substring(f, e.head_traditional)
}

/// The predicate an entry meets when its simplified head form is a single
/// character.
pub open spec fn single_char() -> spec_fn(EntryV) -> bool {
    |e: EntryV| e.is_single_char
}

/// How `entries_of` grows by one bucket.
proof fn lemma_entries_of_step(bs: Seq<Bucket>, i: int)
    requires
        0 <= i < bs.len(),
    ensures
        entries_of(bs.take(i + 1)) == entries_of(bs.take(i)) + views(bs[i].entries@),
{
    assert(bs.take(i + 1).drop_last() =~= bs.take(i));
    assert(bs.take(i + 1).last() == bs[i]);
}

impl Cedict {
    /// The number of buckets: how many distinct leading characters occur.
    pub fn len(&self) -> (r: usize)
        ensures
            r == self.keys().len(),
    {
        self.buckets.len()
    }

    /// The entries indexed under `c`, in insertion order; empty when no
    /// bucket is keyed by `c` — never an error.
    pub fn bucket_for(&self, c: char) -> (r: Vec<&Entry>)
        requires
            self.wf(),
        ensures
            ref_views(r@) == self.bucket_view(c),
            forall|i: int| 0 <= i < r@.len() ==> (#[trigger] r@[i]@).wf(),
    {
        let mut out: Vec<&Entry> = Vec::new();
        match self.locate(c) {
            Ok(pos) => {
                proof {
                    assert forall|j: int|
                        0 <= j < self.buckets@.len() && j != pos implies (
                    #[trigger] self.buckets@[j]).key != c by {
                        if j < pos as int {
                            assert((self.buckets@[j].key as u32) < (self.buckets@[
                            pos as int].key as u32));
                        } else {
                            assert((self.buckets@[pos as int].key as u32) < (self.buckets@[
                            j].key as u32));
                        }
                    }
                    lemma_entries_of_key_at(self.buckets@, pos as int, c);
                }
                let b = &self.buckets[pos];
                let mut j: usize = 0;
                while j < b.entries.len()
                    invariant
                        self.wf(),
                        pos < self.buckets@.len(),
                        b == &self.buckets@[pos as int],
                        j <= b.entries@.len(),
                        ref_views(out@) == views(b.entries@.take(j as int)),
                        forall|i: int| 0 <= i < out@.len() ==> (#[trigger] out@[i]@).wf(),
                    decreases b.entries@.len() - j,
                {
                    let e = &b.entries[j];
                    proof {
                        assert(bucket_wf(self.buckets@[pos as int]));
                        assert(ref_views(out@.push(e)) =~= ref_views(out@).push(e@));
                        assert(views(b.entries@.take(j as int + 1)) =~= views(
                            b.entries@.take(j as int),
                        ).push(b.entries@[j as int]@));
                    }
                    out.push(e);
                    j = j + 1;
                }
                proof {
                    assert(b.entries@.take(b.entries@.len() as int) =~= b.entries@);
                }
            },
            Err(_) => {
                proof {
                    assert forall|j: int| 0 <= j < self.buckets@.len() implies (
                    #[trigger] self.buckets@[j]).key != c by {}
                    lemma_entries_of_key_absent(self.buckets@, c);
                    assert(ref_views(out@) =~= Seq::<EntryV>::empty());
                }
            },
        }
        out
    }

    /// The entries of a lookup of `w` among the simplified head forms:
    /// the bucket keyed by the first character of `w`, kept to the entries
    /// whose simplified head form is exactly `w`.
    pub open spec fn find_exact_spec(self, w: Seq<char>) -> Seq<EntryV> {
        if w.len() == 0 {
            Seq::empty()
        } else {
            self.bucket_view(w[0]).filter(sim_is(w))
        }
    }

    /// Exact lookup of `word` among the simplified head forms. Absent
    /// buckets and absent matches give an empty result, never an error.
    pub fn find_exact(&self, word: &str) -> (r: Vec<&Entry>)
        requires
            self.wf(),
        ensures
            ref_views(r@) == self.find_exact_spec(word@),
            forall|i: int| 0 <= i < r@.len() ==> (#[trigger] r@[i]@).wf(),
    {
        let wc = str_chars(word);
        let mut out: Vec<&Entry> = Vec::new();
        if wc.len() == 0 {
            proof {
                assert(ref_views(out@) =~= Seq::<EntryV>::empty());
            }
            return out;
        }
        let c = wc[0];
        let bucket = self.bucket_for(c);
        let mut j: usize = 0;
        while j < bucket.len()
            invariant
                j <= bucket@.len(),
                ref_views(bucket@) == self.bucket_view(wc@[0]),
                wc@ == word@,
                wc@.len() > 0,
                forall|i: int| 0 <= i < bucket@.len() ==> (#[trigger] bucket@[i]@).wf(),
                ref_views(out@) == ref_views(bucket@.take(j as int)).filter(sim_is(wc@)),
                forall|i: int| 0 <= i < out@.len() ==> (#[trigger] out@[i]@).wf(),
            decreases bucket@.len() - j,
        {
            let e = bucket[j];
            proof {
                assert(ref_views(bucket@.take(j as int + 1)) =~= ref_views(
                    bucket@.take(j as int),
                ).push(e@));
                lemma_filter_push(ref_views(bucket@.take(j as int)), sim_is(wc@), e@);
            }
            if chars_eq(e.head_simplified(), &wc) {
                proof {
                    assert(ref_views(out@.push(e)) =~= ref_views(out@).push(e@));
                    assert(sim_is(wc@)(e@));
                }
                out.push(e);
            } else {
                proof {
                    assert(!sim_is(wc@)(e@));
                }
            }
            j = j + 1;
        }
        proof {
            assert(bucket@.take(bucket@.len() as int) =~= bucket@);
        }
        out
    }

    /// Whether an exact lookup of `word` finds anything.
    pub fn contains(&self, word: &str) -> (r: bool)
        requires
            self.wf(),
        ensures
            r == (self.find_exact_spec(word@).len() > 0),
    {
        let found = self.find_exact(word);
        found.len() > 0
    }

    /// All entries either of whose head forms contains `fragment` as a
    /// contiguous run of characters. A substring can begin anywhere, so
    /// this scans every bucket.
    pub fn search_substring(&self, fragment: &str) -> (r: Vec<&Entry>)
        requires
            self.wf(),
        ensures
            ref_views(r@) == self.all_entries().filter(mentions(fragment@)),
            forall|i: int| 0 <= i < r@.len() ==> (#[trigger] r@[i]@).wf(),
    {
        let fc = str_chars(fragment);
        let mut out: Vec<&Entry> = Vec::new();
        proof {
            assert(self.buckets@.take(0) =~= Seq::<Bucket>::empty());
            assert(ref_views(out@) =~= Seq::<EntryV>::empty());
            assert(Seq::<EntryV>::empty().filter(mentions(fc@)) == Seq::<EntryV>::empty());
        }
        let mut i: usize = 0;
        while i < self.buckets.len()
            invariant
                self.wf(),
                fc@ == fragment@,
                i <= self.buckets@.len(),
                ref_views(out@) == entries_of(self.buckets@.take(i as int)).filter(mentions(fc@)),
                forall|k: int| 0 <= k < out@.len() ==> (#[trigger] out@[k]@).wf(),
            decreases self.buckets@.len() - i,
        {
            let b = &self.buckets[i];
            let ghost done = entries_of(self.buckets@.take(i as int));
            let mut j: usize = 0;
            while j < b.entries.len()
                invariant
                    self.wf(),
                    fc@ == fragment@,
                    i < self.buckets@.len(),
                    b == &self.buckets@[i as int],
                    done == entries_of(self.buckets@.take(i as int)),
                    j <= b.entries@.len(),
                    ref_views(out@) == done.filter(mentions(fc@)) + views(
                        b.entries@.take(j as int),
                    ).filter(mentions(fc@)),
                    forall|k: int| 0 <= k < out@.len() ==> (#[trigger] out@[k]@).wf(),
                decreases b.entries@.len() - j,
            {
                let e = &b.entries[j];
                proof {
                    assert(bucket_wf(self.buckets@[i as int]));
                    assert(views(b.entries@.take(j as int + 1)) =~= views(
                        b.entries@.take(j as int),
                    ).push(e@));
                    lemma_filter_push(views(b.entries@.take(j as int)), mentions(fc@), e@);
                }
                if contains_sub(e.head_simplified(), &fc) || contains_sub(
                    e.head_traditional(),
                    &fc,
                ) {
                    proof {
                        assert(mentions(fc@)(e@));
                        assert(ref_views(out@.push(e)) =~= ref_views(out@).push(e@));
                    }
                    out.push(e);
                } else {
                    proof {
                        assert(!mentions(fc@)(e@));
                    }
                }
                j = j + 1;
            }
            proof {
                assert(b.entries@.take(b.entries@.len() as int) =~= b.entries@);
                lemma_entries_of_step(self.buckets@, i as int);
                Seq::filter_distributes_over_add(done, views(b.entries@), mentions(fc@));
            }
            i = i + 1;
        }
        proof {
            assert(self.buckets@.take(self.buckets@.len() as int) =~= self.buckets@);
        }
        out
    }

    /// All entries whose simplified head form is a single character: the
    /// substitution units of script conversion. Every returned entry has a
    /// one-character simplified head form.
    pub fn all_single_character_entries(&self) -> (r: Vec<&Entry>)
        requires
            self.wf(),
        ensures
            ref_views(r@) == self.all_entries().filter(single_char()),
            forall|i: int|
                0 <= i < r@.len() ==> (#[trigger] r@[i]@).wf() && r@[i]@.is_single_char && r@[
                i]@.head_simplified.len() == 1,
    {
        let mut out: Vec<&Entry> = Vec::new();
        proof {
            assert(self.buckets@.take(0) =~= Seq::<Bucket>::empty());
            assert(ref_views(out@) =~= Seq::<EntryV>::empty());
            assert(Seq::<EntryV>::empty().filter(single_char()) == Seq::<EntryV>::empty());
        }
        let mut i: usize = 0;
        while i < self.buckets.len()
            invariant
                self.wf(),
                i <= self.buckets@.len(),
                ref_views(out@) == entries_of(self.buckets@.take(i as int)).filter(single_char()),
                forall|k: int|
                    0 <= k < out@.len() ==> (#[trigger] out@[k]@).wf() && out@[k]@.is_single_char,
            decreases self.buckets@.len() - i,
        {
            let b = &self.buckets[i];
            let ghost done = entries_of(self.buckets@.take(i as int));
            let mut j: usize = 0;
            while j < b.entries.len()
                invariant
                    self.wf(),
                    i < self.buckets@.len(),
                    b == &self.buckets@[i as int],
                    done == entries_of(self.buckets@.take(i as int)),
                    j <= b.entries@.len(),
                    ref_views(out@) == done.filter(single_char()) + views(
                        b.entries@.take(j as int),
                    ).filter(single_char()),
                    forall|k: int|
                        0 <= k < out@.len() ==> (#[trigger] out@[k]@).wf()
                            && out@[k]@.is_single_char,
                decreases b.entries@.len() - j,
            {
                let e = &b.entries[j];
                proof {
                    assert(bucket_wf(self.buckets@[i as int]));
                    assert(views(b.entries@.take(j as int + 1)) =~= views(
                        b.entries@.take(j as int),
                    ).push(e@));
                    lemma_filter_push(views(b.entries@.take(j as int)), single_char(), e@);
                }
                if e.is_single_char() {
                    proof {
                        assert(single_char()(e@));
                        assert(ref_views(out@.push(e)) =~= ref_views(out@).push(e@));
                    }
                    out.push(e);
                } else {
                    proof {
                        assert(!single_char()(e@));
                    }
                }
                j = j + 1;
            }
            proof {
                assert(b.entries@.take(b.entries@.len() as int) =~= b.entries@);
                lemma_entries_of_step(self.buckets@, i as int);
                Seq::filter_distributes_over_add(done, views(b.entries@), single_char());
            }
            i = i + 1;
        }
        proof {
            assert(self.buckets@.take(self.buckets@.len() as int) =~= self.buckets@);
        }
        out
    }
}

impl Cedict {
    /// The candidate set of script conversion: every single-character entry
    /// whose traditional head form occurs as a character of `text`.
    pub(crate) fn single_char_candidates<'a>(&'a self, text: &Vec<char>) -> (r: Vec<&'a Entry>)
        requires
            self.wf(),
        ensures
            ref_views(r@) == self.all_entries().filter(crate::convert::tra_occurring(text@)),
            forall|i: int| 0 <= i < r@.len() ==> (#[trigger] r@[i]@).wf(),
    {
        let ghost p = crate::convert::tra_occurring(text@);
        let mut out: Vec<&Entry> = Vec::new();
        proof {
            assert(self.buckets@.take(0) =~= Seq::<Bucket>::empty());
            assert(ref_views(out@) =~= Seq::<EntryV>::empty());
            assert(Seq::<EntryV>::empty().filter(p) == Seq::<EntryV>::empty());
        }
        let mut i: usize = 0;
        while i < self.buckets.len()
            invariant
                self.wf(),
                p == crate::convert::tra_occurring(text@),
                i <= self.buckets@.len(),
                ref_views(out@) == entries_of(self.buckets@.take(i as int)).filter(p),
                forall|k: int| 0 <= k < out@.len() ==> (#[trigger] out@[k]@).wf(),
            decreases self.buckets@.len() - i,
        {
            let b = &self.buckets[i];
            let ghost done = entries_of(self.buckets@.take(i as int));
            let mut j: usize = 0;
            while j < b.entries.len()
                invariant
                    self.wf(),
                    p == crate::convert::tra_occurring(text@),
                    i < self.buckets@.len(),
                    b == &self.buckets@[i as int],
                    done == entries_of(self.buckets@.take(i as int)),
                    j <= b.entries@.len(),
                    ref_views(out@) == done.filter(p) + views(b.entries@.take(j as int)).filter(p),
                    forall|k: int| 0 <= k < out@.len() ==> (#[trigger] out@[k]@).wf(),
                decreases b.entries@.len() - j,
            {
                let e = &b.entries[j];
                proof {
                    assert(bucket_wf(self.buckets@[i as int]));
                    assert(views(b.entries@.take(j as int + 1)) =~= views(
                        b.entries@.take(j as int),
                    ).push(e@));
                    lemma_filter_push(views(b.entries@.take(j as int)), p, e@);
                }
                let mut keep = false;
                if e.is_single_char() {
                    let tra = e.head_traditional();
                    if tra.len() == 1 && contains_char(text, tra[0]) {
                        keep = true;
                    }
                }
                proof {
                    assert(keep == p(e@));
                }
                if keep {
                    proof {
                        assert(ref_views(out@.push(e)) =~= ref_views(out@).push(e@));
                    }
                    out.push(e);
                }
                j = j + 1;
            }
            proof {
                assert(b.entries@.take(b.entries@.len() as int) =~= b.entries@);
                lemma_entries_of_step(self.buckets@, i as int);
                Seq::filter_distributes_over_add(done, views(b.entries@), p);
            }
            i = i + 1;
        }
        proof {
            assert(self.buckets@.take(self.buckets@.len() as int) =~= self.buckets@);
        }
        out
    }
}

/// An element of a filtered sequence is an element of the sequence.
proof fn lemma_filter_subset<A>(s: Seq<A>, p: spec_fn(A) -> bool, x: A)
    requires
        s.filter(p).contains(x),
    ensures
        s.contains(x),
    decreases s.len(),
{
    reveal(Seq::filter);
    assert(s.len() > 0);
    let d = s.drop_last();
    if p(s.last()) && x == s.last() {
        assert(s[s.len() - 1] == x);
    } else {
        if p(s.last()) {
            let i = choose|i: int| 0 <= i < s.filter(p).len() && s.filter(p)[i] == x;
            assert(d.filter(p)[i] == x);
        }
        lemma_filter_subset(d, p, x);
        let i = choose|i: int| 0 <= i < d.len() && d[i] == x;
        assert(s[i] == x);
    }
}

/// An entry of some bucket keyed `c` is an entry of the whole index.
proof fn lemma_entries_of_key_subset(bs: Seq<Bucket>, c: char, x: EntryV)
    requires
        entries_of_key(bs, c).contains(x),
    ensures
        entries_of(bs).contains(x),
    decreases bs.len(),
{
    assert(bs.len() > 0);
    let head = entries_of_key(bs.drop_last(), c);
    if exists|i: int| 0 <= i < head.len() && head[i] == x {
        lemma_entries_of_key_subset(bs.drop_last(), c, x);
        let i = choose|i: int| 0 <= i < entries_of(bs.drop_last()).len() && entries_of(
            bs.drop_last(),
        )[i] == x;
        assert(entries_of(bs)[i] == x);
    } else {
        let i = choose|i: int| 0 <= i < entries_of_key(bs, c).len() && entries_of_key(bs, c)[i]
            == x;
        assert(bs.last().key == c);
        assert(views(bs.last().entries@)[i - head.len()] == x);
        assert(entries_of(bs)[entries_of(bs.drop_last()).len() + (i - head.len())] == x);
    }
}

/// An entry of the whole index is an entry of the bucket it is keyed
/// under, in a well-formed dictionary.
proof fn lemma_entries_of_keyed(bs: Seq<Bucket>, x: EntryV)
    requires
        entries_of(bs).contains(x),
        forall|i: int| 0 <= i < bs.len() ==> bucket_wf(#[trigger] bs[i]),
    ensures
        entries_of_key(bs, x.index_key).contains(x),
    decreases bs.len(),
{
    assert(bs.len() > 0);
    let head = entries_of(bs.drop_last());
    let i = choose|i: int| 0 <= i < entries_of(bs).len() && entries_of(bs)[i] == x;
    if i < head.len() {
        assert(head[i] == x);
        lemma_entries_of_keyed(bs.drop_last(), x);
        let j = choose|j: int|
            0 <= j < entries_of_key(bs.drop_last(), x.index_key).len() && entries_of_key(
                bs.drop_last(),
                x.index_key,
            )[j] == x;
        assert(entries_of_key(bs, x.index_key)[j] == x);
    } else {
        assert(views(bs.last().entries@)[i - head.len()] == x);
        assert(bs.last().entries@[i - head.len()]@ == x);
        assert(bucket_wf(bs[bs.len() - 1]));
        assert(x.index_key == bs.last().key);
        let off = entries_of_key(bs.drop_last(), x.index_key).len();
        assert(entries_of_key(bs, x.index_key)[off + (i - head.len())] == x);
    }
}

/// The dictionary holds exactly the entries it was built from: an entry
/// stands in some bucket if and only if it was among the given entries.
pub proof fn lemma_all_entries_built(d: Cedict, es: Seq<EntryV>)
    requires
        d.wf(),
        d.built_from(es),
    ensures
        forall|e: EntryV| d.all_entries().contains(e) <==> es.contains(e),
{
    assert forall|e: EntryV| d.all_entries().contains(e) <==> es.contains(e) by {
        if d.all_entries().contains(e) {
            lemma_entries_of_keyed(d.buckets@, e);
            assert(d.bucket_view(e.index_key).contains(e));
            assert(es.filter(keyed(e.index_key)).contains(e));
            lemma_filter_subset(es, keyed(e.index_key), e);
        }
        if es.contains(e) {
            let i = choose|i: int| 0 <= i < es.len() && es[i] == e;
            assert(keyed(e.index_key)(es[i]));
            Seq::lemma_filter_contains(es, keyed(e.index_key), i);
            assert(d.bucket_view(e.index_key).contains(e));
            lemma_entries_of_key_subset(d.buckets@, e.index_key, e);
        }
    }
}

/// The distinct index keys among a set of entries.
pub open spec fn index_keys(es: Seq<EntryV>) -> Set<char> {
    es.map_values(|e: EntryV| e.index_key).to_set()
}

/// Round trip: every entry a dictionary was built from is found again by an
/// exact lookup of its simplified head form.
pub proof fn lemma_find_exact_round_trip(d: Cedict, es: Seq<EntryV>, i: int)
    requires
        d.wf(),
        d.built_from(es),
        0 <= i < es.len(),
        es[i].wf(),
    ensures
        d.find_exact_spec(es[i].head_simplified).contains(es[i]),
{
    let e = es[i];
    let w = e.head_simplified;
    assert(w[0] == e.index_key);
    let bv = d.bucket_view(e.index_key);
    assert(bv == es.filter(keyed(e.index_key)));
    assert(keyed(e.index_key)(es[i]));
    Seq::lemma_filter_contains(es, keyed(e.index_key), i);
    let j = choose|j: int| 0 <= j < bv.len() && bv[j] == e;
    assert(sim_is(w)(bv[j]));
    Seq::lemma_filter_contains(bv, sim_is(w), j);
}

/// The number of buckets equals the number of distinct index keys among
/// the entries the dictionary was built from.
pub proof fn lemma_bucket_count(d: Cedict, es: Seq<EntryV>)
    requires
        d.wf(),
        d.built_from(es),
    ensures
        d.keys().to_set() == index_keys(es),
        d.keys().len() == index_keys(es).len(),
{
    let ks = d.keys();
    let m = es.map_values(|e: EntryV| e.index_key);
    assert forall|c: char| ks.to_set().contains(c) implies index_keys(es).contains(c) by {
        assert(ks.contains(c));
        let i = choose|i: int| 0 <= i < ks.len() && ks[i] == c;
        assert(d.buckets@[i].key == c);
        assert forall|j: int| 0 <= j < d.buckets@.len() && j != i implies (
        #[trigger] d.buckets@[j]).key != c by {
            if j < i {
                assert((d.buckets@[j].key as u32) < (d.buckets@[i].key as u32));
            } else {
                assert((d.buckets@[i].key as u32) < (d.buckets@[j].key as u32));
            }
        }
        lemma_entries_of_key_at(d.buckets@, i, c);
        assert(bucket_wf(d.buckets@[i]));
        assert(d.bucket_view(c).len() > 0);
        assert(es.filter(keyed(c)).len() > 0);
        lemma_filter_nonempty_witness(es, keyed(c));
        let w = choose|w: int| 0 <= w < es.len() && keyed(c)(#[trigger] es[w]);
        assert(m[w] == c);
        assert(m.contains(c));
    }
    assert forall|c: char| index_keys(es).contains(c) implies ks.to_set().contains(c) by {
        assert(m.contains(c));
        let w = choose|w: int| 0 <= w < m.len() && m[w] == c;
        assert(keyed(c)(es[w]));
        Seq::lemma_filter_contains(es, keyed(c), w);
        assert(es.filter(keyed(c)).contains(es[w]));
        assert(d.bucket_view(c).len() > 0);
        assert(exists|j: int| 0 <= j < d.buckets@.len() && (#[trigger] d.buckets@[j]).key == c) by {
            if forall|j: int| 0 <= j < d.buckets@.len() ==> (#[trigger] d.buckets@[j]).key != c {
                lemma_entries_of_key_absent(d.buckets@, c);
                assert(false);
            }
        }
        let j = choose|j: int| 0 <= j < d.buckets@.len() && (#[trigger] d.buckets@[j]).key == c;
        assert(ks[j] == c);
        assert(ks.contains(c));
    }
    assert(ks.to_set() =~= index_keys(es));
    assert(ks.no_duplicates()) by {
        assert forall|i: int, j: int|
            0 <= i < ks.len() && 0 <= j < ks.len() && i != j implies ks[i] != ks[j] by {
            if i < j {
                assert((d.buckets@[i].key as u32) < (d.buckets@[j].key as u32));
            } else {
                assert((d.buckets@[j].key as u32) < (d.buckets@[i].key as u32));
            }
        }
    }
    ks.unique_seq_to_set();
}

} // verus!
