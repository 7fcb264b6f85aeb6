//! The shared work-in-progress document buffer and its edit ledger.
//!
//! Every operation's byte span is expressed in the coordinates of the
//! *original* document and is never recomputed.  Each applied edit records,
//! at the span's start, by how much the text grew or shrank.  Translating an
//! original index `i` to its current buffer position adds the deltas of all
//! edits that start before `i`.  Because entries are keyed by original
//! coordinates, applying non-overlapping edits in any order yields the same
//! final buffer.
use core::ops::Range;
use vstd::prelude::*;

verus! {

/// One recorded edit: at the moment it was applied, the text starting at
/// `original_index` grew or shrank by `edit_length` bytes.
pub struct DocEdit {
    original_index: usize,
    edit_length: i64,
}

/// The mathematical record of one applied replacement: the original span
/// `[start, start + old_len)` was replaced by `bytes`.
pub ghost struct AppliedEdit {
    pub start: int,
    pub old_len: int,
    pub bytes: Seq<u8>,
}

/// How much an edit changes the buffer's length.
pub open spec fn delta(e: AppliedEdit) -> int {
    e.bytes.len() - e.old_len
}

/// The total length change of a sequence of edits.
pub open spec fn delta_sum(es: Seq<AppliedEdit>) -> int
    decreases es.len(),
{
    if es.len() == 0 {
        0
    } else {
        delta(es[0]) + delta_sum(es.drop_first())
    }
}

/// The edits all lie within an original document of length `orig_len`, start
/// at or after `from`, are strictly ordered by start, and do not overlap.
pub open spec fn spans_wf(orig_len: int, es: Seq<AppliedEdit>, from: int) -> bool {
    &&& forall|i: int|
        0 <= i < es.len() ==> {
            &&& from <= (#[trigger] es[i]).start
            &&& 0 <= es[i].old_len
            &&& es[i].start + es[i].old_len <= orig_len
        }
    &&& forall|i: int, j: int|
        0 <= i < j < es.len() ==> {
            &&& (#[trigger] es[i]).start < (#[trigger] es[j]).start
            &&& es[i].start + es[i].old_len <= es[j].start
        }
}

/// The buffer that results from replaying sorted, disjoint edits over the
/// original document's suffix that begins at `from`.
pub open spec fn render_from(orig: Seq<u8>, es: Seq<AppliedEdit>, from: int) -> Seq<u8>
    decreases es.len(),
{
    if es.len() == 0 {
        orig.subrange(from, orig.len() as int)
    } else {
        orig.subrange(from, es[0].start) + es[0].bytes + render_from(
            orig,
            es.drop_first(),
            es[0].start + es[0].old_len,
        )
    }
}

/// The buffer that results from replaying sorted, disjoint edits over the
/// whole original document.
pub open spec fn render(orig: Seq<u8>, es: Seq<AppliedEdit>) -> Seq<u8> {
    render_from(orig, es, 0)
}

/// Where an edit with the given start belongs in a ledger sorted by start.
pub open spec fn insert_pos(es: Seq<AppliedEdit>, start: int) -> int
    decreases es.len(),
{
    if es.len() == 0 {
        0
    } else if start < es[0].start {
        0
    } else {
        1 + insert_pos(es.drop_first(), start)
    }
}

/// A ledger with one more edit, placed at its sorted position.
pub open spec fn ledger_insert(es: Seq<AppliedEdit>, e: AppliedEdit) -> Seq<AppliedEdit> {
    es.insert(insert_pos(es, e.start), e)
}

/// The new edit starts at or after `from`, lies within the original
/// document, and overlaps no edit of the ledger, nor shares a start with
/// one.
pub open spec fn edit_fits(orig_len: int, es: Seq<AppliedEdit>, e: AppliedEdit, from: int) -> bool {
    &&& from <= e.start
    &&& 0 <= e.old_len
    &&& e.start + e.old_len <= orig_len
    &&& forall|i: int|
        0 <= i < es.len() ==> {
            ||| e.start + e.old_len <= (#[trigger] es[i]).start && e.start < es[i].start
            ||| es[i].start + es[i].old_len <= e.start && es[i].start < e.start
        }
}

proof fn lemma_delta_sum_push(es: Seq<AppliedEdit>, e: AppliedEdit)
    ensures
        delta_sum(es.push(e)) == delta_sum(es) + delta(e),
    decreases es.len(),
{
    reveal_with_fuel(delta_sum, 3);
    if es.len() == 0 {
        assert(es.push(e)[0] == e);
        assert(es.push(e).drop_first() =~= Seq::<AppliedEdit>::empty());
    } else {
        assert(es.push(e)[0] == es[0]);
        assert(es.push(e).drop_first() =~= es.drop_first().push(e));
        lemma_delta_sum_push(es.drop_first(), e);
    }
}

proof fn lemma_delta_sum_take_step(es: Seq<AppliedEdit>, i: int)
    requires
        0 <= i < es.len(),
    ensures
        delta_sum(es.take(i + 1)) == delta_sum(es.take(i)) + delta(es[i]),
{
    assert(es.take(i + 1) =~= es.take(i).push(es[i]));
    lemma_delta_sum_push(es.take(i), es[i]);
}

proof fn lemma_spans_wf_tail(orig_len: int, es: Seq<AppliedEdit>, from: int)
    requires
        spans_wf(orig_len, es, from),
        es.len() > 0,
    ensures
        spans_wf(orig_len, es.drop_first(), es[0].start + es[0].old_len),
{
    let tail = es.drop_first();
    assert forall|i: int| 0 <= i < tail.len() implies {
        &&& es[0].start + es[0].old_len <= (#[trigger] tail[i]).start
        &&& 0 <= tail[i].old_len
        &&& tail[i].start + tail[i].old_len <= orig_len
    } by {
        assert(tail[i] == es[i + 1]);
    }
    assert forall|i: int, j: int| 0 <= i < j < tail.len() implies {
        &&& (#[trigger] tail[i]).start < (#[trigger] tail[j]).start
        &&& tail[i].start + tail[i].old_len <= tail[j].start
    } by {
        assert(tail[i] == es[i + 1]);
        assert(tail[j] == es[j + 1]);
    }
}

proof fn lemma_render_len(orig: Seq<u8>, es: Seq<AppliedEdit>, from: int)
    requires
        0 <= from <= orig.len(),
        spans_wf(orig.len() as int, es, from),
    ensures
        render_from(orig, es, from).len() == orig.len() - from + delta_sum(es),
    decreases es.len(),
{
    if es.len() > 0 {
        lemma_spans_wf_tail(orig.len() as int, es, from);
        lemma_render_len(orig, es.drop_first(), es[0].start + es[0].old_len);
    }
}

/// Rendering from `from` splits at any point `c` that lies before the first
/// edit (or anywhere in the document when there is none).
proof fn lemma_render_split(orig: Seq<u8>, es: Seq<AppliedEdit>, from: int, c: int)
    requires
        0 <= from <= c <= orig.len(),
        es.len() > 0 ==> c <= es[0].start,
        spans_wf(orig.len() as int, es, from),
    ensures
        render_from(orig, es, from) == orig.subrange(from, c) + render_from(orig, es, c),
        spans_wf(orig.len() as int, es, c),
{
    if es.len() == 0 {
        assert(render_from(orig, es, from) =~= orig.subrange(from, c) + render_from(orig, es, c));
    } else {
        assert(orig.subrange(from, es[0].start) =~= orig.subrange(from, c) + orig.subrange(
            c,
            es[0].start,
        ));
        assert(render_from(orig, es, from) =~= orig.subrange(from, c) + render_from(orig, es, c));
    }
}

/// Where the sorted position of a fitting edit falls: everything before it
/// starts strictly earlier, everything after it strictly later.
proof fn lemma_insert_pos(orig_len: int, es: Seq<AppliedEdit>, e: AppliedEdit, from: int)
    requires
        spans_wf(orig_len, es, from),
        edit_fits(orig_len, es, e, from),
    ensures
        0 <= insert_pos(es, e.start) <= es.len(),
        forall|i: int|
            0 <= i < insert_pos(es, e.start) ==> (#[trigger] es[i]).start < e.start && es[i].start
                + es[i].old_len <= e.start,
        forall|i: int|
            insert_pos(es, e.start) <= i < es.len() ==> e.start < (#[trigger] es[i]).start
                && e.start + e.old_len <= es[i].start,
    decreases es.len(),
{
    if es.len() > 0 {
        let tail = es.drop_first();
        if e.start < es[0].start {
        } else {
            assert(es[0].start + es[0].old_len <= e.start && es[0].start < e.start);
            lemma_spans_wf_tail(orig_len, es, from);
            assert forall|i: int| 0 <= i < tail.len() implies {
                ||| e.start + e.old_len <= (#[trigger] tail[i]).start && e.start < tail[i].start
                ||| tail[i].start + tail[i].old_len <= e.start && tail[i].start < e.start
            } by {
                assert(tail[i] == es[i + 1]);
            }
            lemma_insert_pos(orig_len, tail, e, es[0].start + es[0].old_len);
            assert forall|i: int| 0 <= i < insert_pos(es, e.start) implies (
            #[trigger] es[i]).start < e.start && es[i].start + es[i].old_len <= e.start by {
                if i > 0 {
                    assert(tail[i - 1] == es[i]);
                }
            }
            assert forall|i: int| insert_pos(es, e.start) <= i < es.len() implies e.start < (
            #[trigger] es[i]).start && e.start + e.old_len <= es[i].start by {
                assert(tail[i - 1] == es[i]);
            }
        }
    }
}

/// A fitting edit can be placed at its sorted position and the ledger stays
/// well formed.
proof fn lemma_spans_wf_insert(orig_len: int, es: Seq<AppliedEdit>, e: AppliedEdit, from: int)
    requires
        spans_wf(orig_len, es, from),
        edit_fits(orig_len, es, e, from),
    ensures
        spans_wf(orig_len, es.insert(insert_pos(es, e.start), e), from),
{
    let k = insert_pos(es, e.start);
    lemma_insert_pos(orig_len, es, e, from);
    es.insert_ensures(k, e);
    let es2 = es.insert(k, e);
    assert forall|i: int| 0 <= i < es2.len() implies {
        &&& from <= (#[trigger] es2[i]).start
        &&& 0 <= es2[i].old_len
        &&& es2[i].start + es2[i].old_len <= orig_len
    } by {
        if i < k {
            assert(es2[i] == es[i]);
        } else if i > k {
            assert(es2[i] == es[i - 1]);
        }
    }
    assert forall|i: int, j: int| 0 <= i < j < es2.len() implies {
        &&& (#[trigger] es2[i]).start < (#[trigger] es2[j]).start
        &&& es2[i].start + es2[i].old_len <= es2[j].start
    } by {
        if j < k {
            assert(es2[i] == es[i]);
            assert(es2[j] == es[j]);
        } else if j == k {
            if i < k {
                assert(es2[i] == es[i]);
            }
        } else {
            assert(es2[j] == es[j - 1]);
            if i < k {
                assert(es2[i] == es[i]);
            } else if i > k {
                assert(es2[i] == es[i - 1]);
            }
        }
    }
}

/// The central ledger lemma: splicing a fitting edit into the ledger splices
/// its bytes into the rendered buffer at the position given by the edit's
/// start plus the deltas of the edits placed before it.
proof fn lemma_render_insert(orig: Seq<u8>, es: Seq<AppliedEdit>, e: AppliedEdit, from: int)
    requires
        0 <= from <= orig.len(),
        spans_wf(orig.len() as int, es, from),
        edit_fits(orig.len() as int, es, e, from),
    ensures
        ({
            let k = insert_pos(es, e.start);
            let s = render_from(orig, es, from);
            let p = e.start - from + delta_sum(es.take(k));
            &&& 0 <= p
            &&& p + e.old_len <= s.len()
            &&& render_from(orig, es.insert(k, e), from) == s.take(p) + e.bytes + s.skip(
                p + e.old_len,
            )
        }),
    decreases es.len(),
{
    reveal_with_fuel(delta_sum, 2);
    let k = insert_pos(es, e.start);
    let s = render_from(orig, es, from);
    let p = e.start - from + delta_sum(es.take(k));
    lemma_insert_pos(orig.len() as int, es, e, from);
    es.insert_ensures(k, e);
    let es2 = es.insert(k, e);
    if k == 0 {
        assert(es.take(0) =~= Seq::<AppliedEdit>::empty());
        let c = e.start + e.old_len;
        lemma_render_split(orig, es, from, c);
        assert(es2[0] == e);
        assert(es2.drop_first() =~= es);
        assert(render_from(orig, es2, from) == orig.subrange(from, e.start) + e.bytes
            + render_from(orig, es, c));
        assert(orig.subrange(from, c) =~= orig.subrange(from, e.start) + orig.subrange(e.start, c));
        assert(s == orig.subrange(from, c) + render_from(orig, es, c));
        assert(s.take(p) =~= orig.subrange(from, e.start));
        assert(s.skip(p + e.old_len) =~= render_from(orig, es, c));
    } else {
        let tail = es.drop_first();
        let from2 = es[0].start + es[0].old_len;
        lemma_spans_wf_tail(orig.len() as int, es, from);
        assert forall|i: int| 0 <= i < tail.len() implies {
            ||| e.start + e.old_len <= (#[trigger] tail[i]).start && e.start < tail[i].start
            ||| tail[i].start + tail[i].old_len <= e.start && tail[i].start < e.start
        } by {
            assert(tail[i] == es[i + 1]);
        }
        assert(from2 <= e.start);
        lemma_render_insert(orig, tail, e, from2);
        let k2 = insert_pos(tail, e.start);
        assert(k == 1 + k2);
        let s2 = render_from(orig, tail, from2);
        let p2 = e.start - from2 + delta_sum(tail.take(k2));
        tail.insert_ensures(k2, e);
        assert(es2[0] == es[0]);
        assert(es2.drop_first() =~= tail.insert(k2, e)) by {
            let t2 = tail.insert(k2, e);
            assert forall|i: int| 0 <= i < t2.len() implies es2.drop_first()[i] == t2[i] by {
                if i < k2 {
                    assert(es2[i + 1] == es[i + 1]);
                    assert(t2[i] == tail[i]);
                } else if i == k2 {
                    assert(es2[k] == e);
                } else {
                    assert(es2[i + 1] == es[i]);
                    assert(t2[i] == tail[i - 1]);
                }
            }
        }
        assert(render_from(orig, es2, from) == orig.subrange(from, es[0].start) + es[0].bytes
            + render_from(orig, tail.insert(k2, e), from2));
        assert(es.take(k)[0] == es[0]);
        assert(es.take(k).drop_first() =~= tail.take(k2));
        assert(delta_sum(es.take(k)) == delta(es[0]) + delta_sum(tail.take(k2)));
        let a = orig.subrange(from, es[0].start);
        let b = es[0].bytes;
        assert(s == a + b + s2);
        assert(p == a.len() + b.len() + p2);
        assert(s.take(p) =~= a + b + s2.take(p2));
        assert(s.skip(p + e.old_len) =~= s2.skip(p2 + e.old_len));
        assert(render_from(orig, es2, from) =~= s.take(p) + e.bytes + s.skip(p + e.old_len));
    }
}

/// The total number of original bytes the edits replace.
pub open spec fn old_len_sum(es: Seq<AppliedEdit>) -> int
    decreases es.len(),
{
    if es.len() == 0 {
        0
    } else {
        es[0].old_len + old_len_sum(es.drop_first())
    }
}

proof fn lemma_old_len_sum_bound(orig_len: int, es: Seq<AppliedEdit>, from: int)
    requires
        0 <= from <= orig_len,
        spans_wf(orig_len, es, from),
    ensures
        0 <= old_len_sum(es) <= orig_len - from,
    decreases es.len(),
{
    if es.len() > 0 {
        lemma_spans_wf_tail(orig_len, es, from);
        lemma_old_len_sum_bound(orig_len, es.drop_first(), es[0].start + es[0].old_len);
    }
}

proof fn lemma_delta_sum_ge(es: Seq<AppliedEdit>)
    ensures
        delta_sum(es) >= -old_len_sum(es),
    decreases es.len(),
{
    if es.len() > 0 {
        lemma_delta_sum_ge(es.drop_first());
    }
}

proof fn lemma_delta_sum_split(es: Seq<AppliedEdit>, i: int)
    requires
        0 <= i <= es.len(),
    ensures
        delta_sum(es) == delta_sum(es.take(i)) + delta_sum(es.skip(i)),
    decreases i,
{
    if i == 0 {
        assert(es.take(0) =~= Seq::<AppliedEdit>::empty());
        assert(es.skip(0) =~= es);
    } else {
        lemma_delta_sum_take_step(es, i - 1);
        lemma_delta_sum_split(es, i - 1);
        assert(es.skip(i - 1)[0] == es[i - 1]);
        assert(es.skip(i - 1).drop_first() =~= es.skip(i));
    }
}

proof fn lemma_spans_wf_sub(orig_len: int, es: Seq<AppliedEdit>, from: int, i: int, j: int)
    requires
        spans_wf(orig_len, es, from),
        0 <= i <= j <= es.len(),
    ensures
        spans_wf(orig_len, es.subrange(i, j), from),
{
    let sub = es.subrange(i, j);
    assert forall|a: int| 0 <= a < sub.len() implies {
        &&& from <= (#[trigger] sub[a]).start
        &&& 0 <= sub[a].old_len
        &&& sub[a].start + sub[a].old_len <= orig_len
    } by {
        assert(sub[a] == es[i + a]);
    }
    assert forall|a: int, b: int| 0 <= a < b < sub.len() implies {
        &&& (#[trigger] sub[a]).start < (#[trigger] sub[b]).start
        &&& sub[a].start + sub[a].old_len <= sub[b].start
    } by {
        assert(sub[a] == es[i + a]);
        assert(sub[b] == es[i + b]);
    }
}

/// Every prefix of a well-formed ledger changes the length by at least the
/// loss of the whole original and at most the length of the final buffer.
proof fn lemma_delta_prefix_bounds(orig: Seq<u8>, es: Seq<AppliedEdit>, from: int, i: int)
    requires
        0 <= from <= orig.len(),
        spans_wf(orig.len() as int, es, from),
        0 <= i <= es.len(),
    ensures
        -(orig.len() as int) <= delta_sum(es.take(i)) <= render_from(orig, es, from).len(),
{
    let l = orig.len() as int;
    lemma_spans_wf_sub(l, es, from, 0, i);
    assert(es.take(i) == es.subrange(0, i));
    lemma_render_len(orig, es.take(i), from);
    lemma_render_len(orig, es, from);
    lemma_delta_sum_split(es, i);
    assert(es.skip(i) =~= es.subrange(i, es.len() as int));
    lemma_spans_wf_sub(l, es, from, i, es.len() as int);
    lemma_old_len_sum_bound(l, es.skip(i), from);
    lemma_delta_sum_ge(es.skip(i));
}

/// The position in the current buffer at which the original index `pos`
/// now stands: `pos` plus the deltas of all recorded edits that start
/// before it.
pub open spec fn translated(es: Seq<AppliedEdit>, pos: int) -> int {
    pos + delta_sum(es.take(insert_pos(es, pos)))
}

/// A finished document: the assembled output bytes.
#[derive(Debug)]
pub struct Document {
    pub contents: Vec<u8>,
}

/// The single shared, mutable work-in-progress buffer, together with the
/// sorted ledger of edits already applied to it.
pub struct WipDocument {
    contents: Vec<u8>,
    edits: Vec<DocEdit>,  // sorted by original_index
    original: Ghost<Seq<u8>>,
    applied: Ghost<Seq<AppliedEdit>>,
}

impl View for WipDocument {
    type V = Seq<u8>;

    closed spec fn view(&self) -> Seq<u8> {
        self.contents@
    }
}

impl WipDocument {
    /// The immutable original document this buffer started from.
    pub closed spec fn original(&self) -> Seq<u8> {
        self.original@
    }

    /// The ledger of applied edits, sorted by original start index.
    pub closed spec fn applied(&self) -> Seq<AppliedEdit> {
        self.applied@
    }

    /// The buffer's invariant: the ledger is sorted and disjoint in original
    /// coordinates, and the current contents are exactly the original with
    /// every recorded replacement spliced in.
    pub closed spec fn wf(&self) -> bool {
        &&& self.original@.len() <= usize::MAX
        &&& spans_wf(self.original@.len() as int, self.applied@, 0)
        &&& self.contents@ == render(self.original@, self.applied@)
        &&& self.edits@.len() == self.applied@.len()
        &&& forall|i: int|
            0 <= i < self.applied@.len() ==> {
                &&& (#[trigger] self.edits@[i]).original_index as int == self.applied@[i].start
                &&& self.edits@[i].edit_length as int == delta(self.applied@[i])
            }
    }

    /// What the invariant gives every caller: the contents are the rendering
    /// of the ledger over the original, and their length differs from the
    /// original's by the sum of all deltas.
    pub proof fn lemma_wf_facts(&self)
        requires
            self.wf(),
        ensures
            spans_wf(self.original().len() as int, self.applied(), 0),
            self@ == render(self.original(), self.applied()),
            self@.len() == self.original().len() + delta_sum(self.applied()),
    {
        lemma_render_len(self.original@, self.applied@, 0);
    }

    /// A replacement of the original span `[start, end)` by `new_len` bytes
    /// is admissible: the span lies inside the original document, overlaps
    /// no recorded edit, and no recorded edit starts where it starts.
    pub open spec fn can_insert(&self, start: int, end: int, new_len: int) -> bool {
        &&& 0 <= start <= end <= self.original().len()
        &&& end <= i64::MAX as int
        &&& new_len <= i64::MAX as int
        &&& forall|i: int|
            0 <= i < self.applied().len() ==> {
                &&& (end <= (#[trigger] self.applied()[i]).start || self.applied()[i].start
                    + self.applied()[i].old_len <= start)
                &&& self.applied()[i].start != start
            }
    }

    /// A new buffer over a fresh copy of the document, with an empty ledger.
    pub fn new(doc: Vec<u8>) -> (r: Self)
        ensures
            r.wf(),
            r.original() == doc@,
            r.applied() == Seq::<AppliedEdit>::empty(),
            r@ == doc@,
    {
        let ghost o = doc@;
        let doc_len = doc.len();
        let r = WipDocument {
            contents: doc,
            edits: Vec::new(),
            original: Ghost(o),
            applied: Ghost(Seq::empty()),
        };
        proof {
            assert(o.len() == doc_len as int);
            assert(render(o, Seq::<AppliedEdit>::empty()) =~= o);
        }
        r
    }

    /// Hands the assembled bytes out once every operation has been applied.
    pub fn into_document(self) -> (r: Document)
        ensures
            r.contents@ == self@,
    {
        Document { contents: self.contents }
    }

    /// The number of bytes currently in the buffer.
    pub fn len(&self) -> (r: usize)
        ensures
            r == self@.len(),
    {
        self.contents.len()
    }

    /// A copy of the current buffer.
    pub fn current_bytes(&self) -> (r: Vec<u8>)
        ensures
            r@ == self@,
    {
        let mut r: Vec<u8> = Vec::new();
        let mut i: usize = 0;
        while i < self.contents.len()
            invariant
                i <= self.contents@.len(),
                r@ == self.contents@.take(i as int),
            decreases self.contents@.len() - i,
        {
            r.push(self.contents[i]);
            proof {
                assert(self.contents@.take(i + 1) =~= self.contents@.take(i as int).push(
                    self.contents@[i as int],
                ));
            }
            i = i + 1;
        }
        proof {
            assert(self.contents@.take(self.contents@.len() as int) =~= self.contents@);
        }
        r
    }

    /// The index of the first ledger entry whose start is at or after
    /// `target`; all earlier entries start strictly before it.
    fn find_index(&self, target: usize) -> (k: usize)
        requires
            self.wf(),
        ensures
            k <= self.applied().len(),
            forall|i: int| 0 <= i < k ==> (#[trigger] self.applied()[i]).start < target as int,
            forall|i: int|
                k <= i < self.applied().len() ==> target as int <= (
                #[trigger] self.applied()[i]).start,
    {
        let ghost es = self.applied@;
        let mut lo: usize = 0;
        let mut hi: usize = self.edits.len();
        while lo < hi
            invariant
                self.wf(),
                es == self.applied@,
                lo <= hi <= self.applied().len(),
                forall|i: int| 0 <= i < lo ==> (#[trigger] es[i]).start < target as int,
                forall|i: int| hi <= i < es.len() ==> target as int <= (#[trigger] es[i]).start,
            decreases hi - lo,
        {
            let mid = lo + (hi - lo) / 2;
            if self.edits[mid].original_index < target {
                proof {
                    assert forall|i: int| 0 <= i < mid + 1 implies (#[trigger] es[i]).start
                        < target as int by {
                        if i < mid {
                            assert(es[i].start < es[mid as int].start);
                        }
                    }
                }
                lo = mid + 1;
            } else {
                proof {
                    assert forall|i: int| mid <= i < es.len() implies target as int <= (
                    #[trigger] es[i]).start by {
                        if i > mid {
                            assert(es[mid as int].start < es[i].start);
                        }
                    }
                }
                hi = mid;
            }
        }
        lo
    }
}

/// Where `insert_pos` splits a sorted ledger: entries before it start at or
/// before `t`, entries after it start strictly after `t`.
pub proof fn lemma_insert_pos_char(orig_len: int, es: Seq<AppliedEdit>, from: int, t: int)
    requires
        spans_wf(orig_len, es, from),
    ensures
        0 <= insert_pos(es, t) <= es.len(),
        forall|i: int| 0 <= i < insert_pos(es, t) ==> (#[trigger] es[i]).start <= t,
        forall|i: int| insert_pos(es, t) <= i < es.len() ==> t < (#[trigger] es[i]).start,
    decreases es.len(),
{
    if es.len() > 0 {
        let tail = es.drop_first();
        let k = insert_pos(es, t);
        if t < es[0].start {
        } else {
            lemma_spans_wf_tail(orig_len, es, from);
            lemma_insert_pos_char(orig_len, tail, es[0].start + es[0].old_len, t);
            assert forall|i: int| 0 <= i < k implies (#[trigger] es[i]).start <= t by {
                if i > 0 {
                    assert(tail[i - 1] == es[i]);
                }
            }
            assert forall|i: int| k <= i < es.len() implies t < (#[trigger] es[i]).start by {
                assert(tail[i - 1] == es[i]);
            }
        }
    }
}

/// The spliced copy of a byte buffer: `remove` bytes at `at` replaced by
/// `repl`.
fn splice_bytes(v: &Vec<u8>, at: usize, remove: usize, repl: &Vec<u8>) -> (r: Vec<u8>)
    requires
        at + remove <= v@.len(),
    ensures
        r@ == v@.take(at as int) + repl@ + v@.skip((at + remove) as int),
{
    let n = v.len();
    let mut r: Vec<u8> = Vec::new();
    let mut i: usize = 0;
    while i < at
        invariant
            i <= at,
            at + remove <= v@.len(),
            r@ == v@.take(i as int),
        decreases at - i,
    {
        r.push(v[i]);
        proof {
            assert(v@.take(i + 1) =~= v@.take(i as int).push(v@[i as int]));
        }
        i = i + 1;
    }
    let mut j: usize = 0;
    while j < repl.len()
        invariant
            j <= repl@.len(),
            at + remove <= v@.len(),
            r@ == v@.take(at as int) + repl@.take(j as int),
        decreases repl@.len() - j,
    {
        r.push(repl[j]);
        proof {
            assert(repl@.take(j + 1) =~= repl@.take(j as int).push(repl@[j as int]));
            assert((v@.take(at as int) + repl@.take(j as int)).push(repl@[j as int]) =~= v@.take(
                at as int,
            ) + repl@.take(j + 1));
        }
        j = j + 1;
    }
    proof {
        assert(repl@.take(repl@.len() as int) =~= repl@);
    }
    proof {
        assert(at + remove <= n as int);
    }
    let mut m: usize = at + remove;
    while m < v.len()
        invariant
            at + remove <= m <= v@.len(),
            r@ == v@.take(at as int) + repl@ + v@.subrange((at + remove) as int, m as int),
        decreases v@.len() - m,
    {
        r.push(v[m]);
        proof {
            assert((v@.take(at as int) + repl@ + v@.subrange((at + remove) as int, m as int)).push(
                v@[m as int],
            ) =~= v@.take(at as int) + repl@ + v@.subrange((at + remove) as int, m + 1));
        }
        m = m + 1;
    }
    proof {
        assert(v@.subrange((at + remove) as int, v@.len() as int) =~= v@.skip((at + remove) as int));
    }
    r
}

impl WipDocument {
    /// Every conjunct of the invariant except that the contents equal the
    /// rendering; holds between recording an edit and splicing the buffer.
    spec fn ledger_wf(&self) -> bool {
        &&& spans_wf(self.original@.len() as int, self.applied@, 0)
        &&& self.edits@.len() == self.applied@.len()
        &&& forall|i: int|
            0 <= i < self.applied@.len() ==> {
                &&& (#[trigger] self.edits@[i]).original_index as int == self.applied@[i].start
                &&& self.edits@[i].edit_length as int == delta(self.applied@[i])
            }
    }

    /// Translates an original index to its current buffer position by
    /// summing the deltas of all ledger entries that precede it.
    fn get_wip_index(&self, original_index: usize) -> (r: usize)
        requires
            self.wf(),
            forall|i: int|
                0 <= i < self.applied().len() ==> (#[trigger] self.applied()[i]).start
                    != original_index as int,
            0 <= translated(self.applied(), original_index as int) <= self@.len(),
        ensures
            r as int == translated(self.applied(), original_index as int),
    {
        let ghost es = self.applied@;
        let ghost orig = self.original@;
        let k = self.find_index(original_index);
        proof {
            lemma_insert_pos_char(orig.len() as int, es, 0, original_index as int);
            let ip = insert_pos(es, original_index as int);
            if (k as int) < ip {
                assert(original_index as int <= es[k as int].start);
                assert(es[k as int].start <= original_index as int);
                assert(false);
            }
            if (k as int) > ip {
                assert(es[ip].start < original_index as int);
                assert((original_index as int) < es[ip].start);
                assert(false);
            }
        }
        let clen = self.contents.len();
        let mut sum: i128 = 0;
        let mut i: usize = 0;
        while i < k
            invariant
                self.wf(),
                es == self.applied@,
                orig == self.original@,
                clen as int == self@.len(),
                i <= k <= es.len(),
                sum == delta_sum(es.take(i as int)),
                -(orig.len() as int) <= sum <= clen as int,
            decreases k - i,
        {
            proof {
                lemma_delta_sum_take_step(es, i as int);
                lemma_delta_prefix_bounds(orig, es, 0, i as int + 1);
                lemma_render_len(orig, es, 0);
                assert(self.edits@[i as int].edit_length as int == delta(es[i as int]));
            }
            sum = sum + (self.edits[i].edit_length as i128);
            i = i + 1;
        }
        proof {
            assert(sum == delta_sum(es.take(insert_pos(es, original_index as int))));
        }
        (original_index as i128 + sum) as usize
    }

    /// Records one edit in the ledger at its sorted position.  The buffer
    /// itself is spliced separately by the caller.
    fn add_edit(&mut self, original_index: usize, edit_size: i64, e: Ghost<AppliedEdit>)
        requires
            old(self).wf(),
            e@.start == original_index as int,
            delta(e@) == edit_size as int,
            edit_fits(old(self).original@.len() as int, old(self).applied@, e@, 0),
        ensures
            final(self).ledger_wf(),
            final(self).contents@ == old(self).contents@,
            final(self).original@ == old(self).original@,
            final(self).applied@ == ledger_insert(old(self).applied@, e@),
    {
        let ghost es = self.applied@;
        let ghost orig = self.original@;
        let k = self.find_index(original_index);
        proof {
            lemma_insert_pos_char(orig.len() as int, es, 0, original_index as int);
            let ip = insert_pos(es, original_index as int);
            assert forall|i: int| 0 <= i < es.len() implies (#[trigger] es[i]).start
                != original_index as int by {}
            if (k as int) < ip {
                assert(es[k as int].start <= original_index as int);
                assert(original_index as int <= es[k as int].start);
                assert(false);
            }
            if (k as int) > ip {
                assert(es[ip].start < original_index as int);
                assert((original_index as int) < es[ip].start);
                assert(false);
            }
            lemma_spans_wf_insert(orig.len() as int, es, e@, 0);
        }
        let edit = DocEdit { original_index, edit_length: edit_size };
        self.edits.insert(k, edit);
        proof {
            self.applied@ = ledger_insert(es, e@);
        }
        proof {
            let k2 = insert_pos(es, e@.start);
            assert(k as int == k2);
            es.insert_ensures(k2, e@);
            old(self).edits@.insert_ensures(k2, edit);
            assert forall|i: int| 0 <= i < self.applied@.len() implies {
                &&& (#[trigger] self.edits@[i]).original_index as int == self.applied@[i].start
                &&& self.edits@[i].edit_length as int == delta(self.applied@[i])
            } by {
                if i < k2 {
                    assert(self.edits@[i] == old(self).edits@[i]);
                    assert(self.applied@[i] == es[i]);
                } else if i > k2 {
                    assert(self.edits@[i] == old(self).edits@[i - 1]);
                    assert(self.applied@[i] == es[i - 1]);
                }
            }
        }
    }

    /// Replaces the bytes that currently occupy the original span `range`
    /// with `resource`, and records the edit in the ledger.  The splice
    /// lands at the span's translated position; entries recorded later for
    /// earlier spans will shift it implicitly through their deltas.
    pub fn insert(&mut self, resource: Vec<u8>, range: Range<usize>)
        requires
            old(self).wf(),
            old(self).can_insert(
                range.start as int,
                range.end as int,
                resource@.len() as int,
            ),
        ensures
            final(self).wf(),
            final(self).original() == old(self).original(),
            final(self).applied() == ledger_insert(
                old(self).applied(),
                AppliedEdit {
                    start: range.start as int,
                    old_len: range.end - range.start,
                    bytes: resource@,
                },
            ),
            final(self).applied().to_multiset() == old(self).applied().to_multiset().insert(
                AppliedEdit {
                    start: range.start as int,
                    old_len: range.end - range.start,
                    bytes: resource@,
                },
            ),
            0 <= translated(old(self).applied(), range.start as int),
            translated(old(self).applied(), range.start as int) + (range.end - range.start) <= old(
                self,
            )@.len(),
            final(self)@ == old(self)@.take(translated(old(self).applied(), range.start as int))
                + resource@ + old(self)@.skip(
                translated(old(self).applied(), range.start as int) + (range.end - range.start),
            ),
            final(self)@.len() == old(self)@.len() + resource@.len() - (range.end - range.start),
    {
        let ghost orig = self.original@;
        let ghost es = self.applied@;
        let ghost e = AppliedEdit {
            start: range.start as int,
            old_len: (range.end - range.start) as int,
            bytes: resource@,
        };
        proof {
            assert forall|i: int| 0 <= i < es.len() implies {
                ||| e.start + e.old_len <= (#[trigger] es[i]).start && e.start < es[i].start
                ||| es[i].start + es[i].old_len <= e.start && es[i].start < e.start
            } by {
                let a = old(self).applied()[i];
                assert(es[i] == a);
                assert(range.end as int <= a.start || a.start + a.old_len
                    <= range.start as int);
                assert(a.start != range.start as int);
                assert(0 <= a.old_len);
                if range.end as int <= a.start {
                    assert(e.start <= e.start + e.old_len <= a.start);
                } else {
                    assert(a.start <= a.start + a.old_len <= e.start);
                }
            }
            lemma_render_insert(orig, es, e, 0);
            lemma_render_len(orig, es, 0);
        }
        let wip_index = self.get_wip_index(range.start);
        let removed = range.end - range.start;
        let edit_size: i64 = (resource.len() as i64) - (removed as i64);
        self.add_edit(range.start, edit_size, Ghost(e));
        let spliced = splice_bytes(&self.contents, wip_index, removed, &resource);
        self.contents = spliced;
        proof {
            lemma_insert_pos(orig.len() as int, es, e, 0);
            let k = insert_pos(es, e.start);
            assert(self.applied@ == es.insert(k, e));
            lemma_spans_wf_insert(orig.len() as int, es, e, 0);
            lemma_render_len(orig, self.applied@, 0);
            lemma_ledger_insert_multiset(es, e);
        }
    }

    /// Deletes the bytes that currently occupy the original span `range`:
    /// a replacement by the empty byte string.
    pub fn remove(&mut self, range: Range<usize>)
        requires
            old(self).wf(),
            old(self).can_insert(range.start as int, range.end as int, 0),
        ensures
            final(self).wf(),
            final(self).original() == old(self).original(),
            final(self).applied() == ledger_insert(
                old(self).applied(),
                AppliedEdit {
                    start: range.start as int,
                    old_len: range.end - range.start,
                    bytes: Seq::empty(),
                },
            ),
            final(self)@ == old(self)@.take(translated(old(self).applied(), range.start as int))
                + old(self)@.skip(
                translated(old(self).applied(), range.start as int) + (range.end - range.start),
            ),
            final(self)@.len() == old(self)@.len() - (range.end - range.start),
    {
        let empty: Vec<u8> = Vec::new();
        self.insert(empty, range);
        proof {
            assert(final(self)@ == old(self)@.take(
                translated(old(self).applied(), range.start as int),
            ) + Seq::<u8>::empty() + old(self)@.skip(
                translated(old(self).applied(), range.start as int) + (range.end - range.start),
            ));
            assert(old(self)@.take(translated(old(self).applied(), range.start as int))
                + Seq::<u8>::empty() + old(self)@.skip(
                translated(old(self).applied(), range.start as int) + (range.end - range.start),
            ) =~= old(self)@.take(translated(old(self).applied(), range.start as int)) + old(
                self,
            )@.skip(
                translated(old(self).applied(), range.start as int) + (range.end - range.start),
            ));
        }
    }
}

/// Where an applied edit's bytes begin in the rendered buffer: its original
/// start plus the deltas of the ledger entries before it.
pub open spec fn edit_position(es: Seq<AppliedEdit>, k: int) -> int {
    es[k].start + delta_sum(es.take(k))
}

proof fn lemma_read_back_from(orig: Seq<u8>, es: Seq<AppliedEdit>, from: int, k: int)
    requires
        0 <= from <= orig.len(),
        spans_wf(orig.len() as int, es, from),
        0 <= k < es.len(),
    ensures
        ({
            let p = es[k].start - from + delta_sum(es.take(k));
            let s = render_from(orig, es, from);
            &&& 0 <= p
            &&& p + es[k].bytes.len() <= s.len()
            &&& s.subrange(p, p + es[k].bytes.len()) == es[k].bytes
        }),
    decreases es.len(),
{
    let p = es[k].start - from + delta_sum(es.take(k));
    let s = render_from(orig, es, from);
    if k == 0 {
        assert(es.take(0) =~= Seq::<AppliedEdit>::empty());
        assert(s.subrange(p, p + es[0].bytes.len()) =~= es[0].bytes);
    } else {
        let tail = es.drop_first();
        let from2 = es[0].start + es[0].old_len;
        lemma_spans_wf_tail(orig.len() as int, es, from);
        lemma_read_back_from(orig, tail, from2, k - 1);
        assert(tail[k - 1] == es[k]);
        assert(es.take(k)[0] == es[0]);
        assert(es.take(k).drop_first() =~= tail.take(k - 1));
        let p2 = tail[k - 1].start - from2 + delta_sum(tail.take(k - 1));
        let s2 = render_from(orig, tail, from2);
        let a = orig.subrange(from, es[0].start);
        let b = es[0].bytes;
        assert(s == a + b + s2);
        assert(p == a.len() + b.len() + p2);
        assert(s.subrange(p, p + es[k].bytes.len()) =~= s2.subrange(p2, p2 + es[k].bytes.len()));
    }
}

impl WipDocument {
    /// Every recorded replacement can be read back intact: the span of the
    /// ledger's `k`-th edit, translated through the entries before it, holds
    /// exactly the bytes that were inserted, no matter how many other edits
    /// landed elsewhere before or after it.
    pub proof fn lemma_read_back(&self, k: int)
        requires
            self.wf(),
            0 <= k < self.applied().len(),
        ensures
            0 <= edit_position(self.applied(), k),
            edit_position(self.applied(), k) + self.applied()[k].bytes.len() <= self@.len(),
            self@.subrange(
                edit_position(self.applied(), k),
                edit_position(self.applied(), k) + self.applied()[k].bytes.len(),
            ) == self.applied()[k].bytes,
    {
        lemma_read_back_from(self.original@, self.applied@, 0, k);
    }
}

/// The ledger's entries in a sequence, each starting strictly after the one
/// before it.
pub open spec fn strictly_sorted(es: Seq<AppliedEdit>) -> bool {
    forall|i: int, j: int|
        0 <= i < j < es.len() ==> (#[trigger] es[i]).start < (#[trigger] es[j]).start
}

/// Two strictly sorted ledgers carrying the same collection of edits are
/// the same sequence; with `lemma_order_independent`, the assembled bytes
/// are therefore determined by the collection alone.
pub proof fn lemma_sorted_multiset_unique(s: Seq<AppliedEdit>, t: Seq<AppliedEdit>)
    requires
        strictly_sorted(s),
        strictly_sorted(t),
        s.to_multiset() == t.to_multiset(),
    ensures
        s == t,
    decreases s.len(),
{
    broadcast use vstd::seq_lib::group_to_multiset_ensures;

    if s.len() == 0 {
        assert(t.to_multiset().len() == 0);
        assert(s =~= t);
    } else {
        assert(s.to_multiset().len() == s.len());
        assert(t.to_multiset().len() == t.len());
        assert(t.len() == s.len());
        assert(s.contains(s[0]));
        assert(t.to_multiset().count(s[0]) > 0);
        assert(t.contains(s[0]));
        let j = choose|j: int| 0 <= j < t.len() && t[j] == s[0];
        if j > 0 {
            assert(t[0].start < t[j].start);
            assert(t.contains(t[0]));
            assert(s.to_multiset().count(t[0]) > 0);
            assert(s.contains(t[0]));
            let i = choose|i: int| 0 <= i < s.len() && s[i] == t[0];
            if i > 0 {
                assert(s[0].start < s[i].start);
            }
            assert(false);
        }
        assert(t[0] == s[0]);
        assert(s.remove(0) =~= s.drop_first());
        assert(t.remove(0) =~= t.drop_first());
        assert(s.drop_first().to_multiset() =~= s.to_multiset().remove(s[0]));
        assert(t.drop_first().to_multiset() =~= t.to_multiset().remove(t[0]));
        assert forall|i: int, j2: int| 0 <= i < j2 < s.drop_first().len() implies (
        #[trigger] s.drop_first()[i]).start < (#[trigger] s.drop_first()[j2]).start by {
            assert(s.drop_first()[i] == s[i + 1]);
            assert(s.drop_first()[j2] == s[j2 + 1]);
        }
        assert forall|i: int, j2: int| 0 <= i < j2 < t.drop_first().len() implies (
        #[trigger] t.drop_first()[i]).start < (#[trigger] t.drop_first()[j2]).start by {
            assert(t.drop_first()[i] == t[i + 1]);
            assert(t.drop_first()[j2] == t[j2 + 1]);
        }
        assert(s.drop_first().to_multiset() =~= t.drop_first().to_multiset());
        lemma_sorted_multiset_unique(s.drop_first(), t.drop_first());
        assert forall|i: int| 0 <= i < s.len() implies s[i] == t[i] by {
            if i > 0 {
                assert(s.drop_first()[i - 1] == s[i]);
                assert(t.drop_first()[i - 1] == t[i]);
            }
        }
        assert(s =~= t);
    }
}

/// The assembly's order-independence: two buffers that started from the same
/// original document and carry the same collection of applied edits hold the
/// same bytes, no matter in which order those edits were applied.
pub proof fn lemma_order_independent(a: &WipDocument, b: &WipDocument)
    requires
        a.wf(),
        b.wf(),
        a.original() == b.original(),
        a.applied().to_multiset() == b.applied().to_multiset(),
    ensures
        a@ == b@,
{
    a.lemma_wf_facts();
    b.lemma_wf_facts();
    lemma_sorted_multiset_unique(a.applied(), b.applied());
}

/// Placing an edit at its sorted position adds exactly that edit to the
/// ledger's collection.
pub proof fn lemma_ledger_insert_multiset(es: Seq<AppliedEdit>, e: AppliedEdit)
    requires
        0 <= insert_pos(es, e.start) <= es.len(),
    ensures
        ledger_insert(es, e).to_multiset() == es.to_multiset().insert(e),
{
    broadcast use vstd::seq_lib::group_to_multiset_ensures;

    let k = insert_pos(es, e.start);
    let es2 = es.insert(k, e);
    es.insert_ensures(k, e);
    assert(es2.remove(k) =~= es);
    assert(es2.remove(k).to_multiset() =~= es2.to_multiset().remove(es2[k]));
    assert(es2[k] == e);
    assert(es2.contains(e));
    assert(es2.to_multiset().count(e) > 0);
    assert(es2.to_multiset().remove(e).insert(e) =~= es2.to_multiset());
    assert(es.to_multiset().insert(e) =~= es2.to_multiset());
}

} // verus!
