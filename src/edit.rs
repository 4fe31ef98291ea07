//! Edit records, the LCS differ that produces them, and the running offsets
//! that give every record both coordinates.
use vstd::prelude::*;

verus! {

/// Which side(s) of the comparison an edit record advances.
#[derive(Clone, Copy, PartialEq, Eq, Debug, Structural)]
pub enum EditKind {
    /// Present in the new sequence only.
    Added,
    /// Present in the old sequence only.
    Removed,
    /// Present in both.
    Common,
}

/// A record as the LCS differ produces it: the index on a side that the
/// record does not advance is absent.
#[derive(Clone, Copy, PartialEq, Eq, Debug, Structural)]
pub struct DiffRecord {
    pub kind: EditKind,
    pub old_index: Option<usize>,
    pub new_index: Option<usize>,
}

/// An edit record with both coordinates: for `Added` the old index is the
/// number of old items before it, and symmetrically for `Removed`.
#[derive(Clone, Copy, PartialEq, Eq, Debug, Structural)]
pub struct Edit {
    pub kind: EditKind,
    pub old_index: usize,
    pub new_index: usize,
}

/// Records that take an item of the old side: removals and commons.
pub open spec fn advances_old(k: EditKind) -> bool {
    k != EditKind::Added
}

/// Records that take an item of the new side: additions and commons.
pub open spec fn advances_new(k: EditKind) -> bool {
    k != EditKind::Removed
}

/// Number of records that advance the old side.
pub open spec fn rec_old_count(r: Seq<DiffRecord>) -> nat
    decreases r.len(),
{
    if r.len() == 0 {
        0
    } else {
        rec_old_count(r.drop_last()) + if advances_old(r.last().kind) { 1nat } else { 0nat }
    }
}

/// Number of records that advance the new side.
pub open spec fn rec_new_count(r: Seq<DiffRecord>) -> nat
    decreases r.len(),
{
    if r.len() == 0 {
        0
    } else {
        rec_new_count(r.drop_last()) + if advances_new(r.last().kind) { 1nat } else { 0nat }
    }
}

/// Number of edits that advance the old side.
pub open spec fn old_count(e: Seq<Edit>) -> nat
    decreases e.len(),
{
    if e.len() == 0 {
        0
    } else {
        old_count(e.drop_last()) + if advances_old(e.last().kind) { 1nat } else { 0nat }
    }
}

/// Number of edits that advance the new side.
pub open spec fn new_count(e: Seq<Edit>) -> nat
    decreases e.len(),
{
    if e.len() == 0 {
        0
    } else {
        new_count(e.drop_last()) + if advances_new(e.last().kind) { 1nat } else { 0nat }
    }
}

/// The record carries the indices that a walk at offsets `(o, n)` gives it.
pub open spec fn placed_at(d: DiffRecord, o: nat, n: nat) -> bool {
    match d.kind {
        EditKind::Added => d.old_index.is_none() && d.new_index == Some(n as usize),
        EditKind::Removed => d.old_index == Some(o as usize) && d.new_index.is_none(),
        EditKind::Common => d.old_index == Some(o as usize) && d.new_index == Some(n as usize),
    }
}

/// `r` is an edit script from a sequence of `old_len` items to one of
/// `new_len` items: walking it from the start, each record takes the next
/// item of the side(s) it advances, and both sides are used up at the end.
pub open spec fn is_script(r: Seq<DiffRecord>, old_len: nat, new_len: nat) -> bool {
    &&& forall|i: int|
        0 <= i < r.len() ==> #[trigger] placed_at(
            r[i],
            rec_old_count(r.take(i)),
            rec_new_count(r.take(i)),
        )
    &&& rec_old_count(r) == old_len
    &&& rec_new_count(r) == new_len
}

/// The records of `r` with the missing side filled in from the running offsets.
pub open spec fn backfill(r: Seq<DiffRecord>) -> Seq<Edit> {
    Seq::new(
        r.len(),
        |i: int|
            Edit {
                kind: r[i].kind,
                old_index: rec_old_count(r.take(i)) as usize,
                new_index: rec_new_count(r.take(i)) as usize,
            },
    )
}

/// The contents of a vector of byte strings.
pub open spec fn seqs_view(s: Seq<Vec<u8>>) -> Seq<Seq<u8>> {
    s.map_values(|v: Vec<u8>| v@)
}

/// The edit script that the LCS differ gives for two sequences of byte strings.
pub uninterp spec fn lcs_of(old: Seq<Seq<u8>>, new: Seq<Seq<u8>>) -> Seq<DiffRecord>;

/// A common record pairs equal items.
pub open spec fn commons_pair_equal(r: Seq<DiffRecord>, old: Seq<Seq<u8>>, new: Seq<Seq<u8>>) -> bool {
    forall|i: int|
        0 <= i < r.len() && (#[trigger] r[i]).kind == EditKind::Common ==> old[r[i].old_index.unwrap() as int]
            == new[r[i].new_index.unwrap() as int]
}

/// Relies on `lcs_diff::diff`: the script depends on the two inputs alone,
/// and the differ walks both from the start, each record taking the next
/// old item (`Removed`, old index only), the next new item (`Added`, new
/// index only) or both (`Common`, both indices, only where the two items
/// compare equal), until both are used up. Equal inputs are one common
/// prefix, so their script holds no change.
#[verifier::external_body]
pub(crate) fn lcs(old: &[Vec<u8>], new: &[Vec<u8>]) -> (r: Vec<DiffRecord>)
    ensures
        r@ == lcs_of(seqs_view(old@), seqs_view(new@)),
        is_script(r@, old@.len() as nat, new@.len() as nat),
        commons_pair_equal(r@, seqs_view(old@), seqs_view(new@)),
        seqs_view(old@) == seqs_view(new@) ==> !has_change(r@),
{
    lcs_diff::diff(old, new).into_iter().map(|d| match d {
        lcs_diff::DiffResult::Added(e) =>
            DiffRecord { kind: EditKind::Added, old_index: e.old_index, new_index: e.new_index },
        lcs_diff::DiffResult::Removed(e) =>
            DiffRecord { kind: EditKind::Removed, old_index: e.old_index, new_index: e.new_index },
        lcs_diff::DiffResult::Common(e) =>
            DiffRecord { kind: EditKind::Common, old_index: e.old_index, new_index: e.new_index },
    }).collect()
}

/// The running offsets into both sides while a script is walked.
pub struct FileOffsets {
    pub old_off: usize,
    pub new_off: usize,
}

impl FileOffsets {
    /// Advances the offsets past one record.
    pub fn observe(&mut self, k: EditKind)
        requires
            advances_old(k) ==> old(self).old_off < usize::MAX,
            advances_new(k) ==> old(self).new_off < usize::MAX,
        ensures
            final(self).old_off == old(self).old_off + if advances_old(k) { 1int } else { 0int },
            final(self).new_off == old(self).new_off + if advances_new(k) { 1int } else { 0int },
    {
        match k {
            EditKind::Common => {
                self.old_off = self.old_off + 1;
                self.new_off = self.new_off + 1;
            },
            EditKind::Added => {
                self.new_off = self.new_off + 1;
            },
            EditKind::Removed => {
                self.old_off = self.old_off + 1;
            },
        }
    }
}

/// The record with its missing index taken from the offsets.
pub fn update_indices(d: &DiffRecord, offsets: &FileOffsets) -> (r: Edit)
    requires
        placed_at(*d, offsets.old_off as nat, offsets.new_off as nat),
    ensures
        r == (Edit { kind: d.kind, old_index: offsets.old_off, new_index: offsets.new_off }),
{
    Edit { kind: d.kind, old_index: offsets.old_off, new_index: offsets.new_off }
}

/// Fills in the missing side of every record of a script.
pub fn backfill_indices(diff: &Vec<DiffRecord>, old_len: usize, new_len: usize) -> (r: Vec<Edit>)
    requires
        is_script(diff@, old_len as nat, new_len as nat),
    ensures
        r@ == backfill(diff@),
{
    let mut offsets = FileOffsets { old_off: 0, new_off: 0 };
    let mut r: Vec<Edit> = Vec::new();
    let mut i: usize = 0;
    while i < diff.len()
        invariant
            is_script(diff@, old_len as nat, new_len as nat),
            0 <= i <= diff@.len(),
            offsets.old_off == rec_old_count(diff@.take(i as int)),
            offsets.new_off == rec_new_count(diff@.take(i as int)),
            r@ =~= backfill(diff@).take(i as int),
        decreases diff@.len() - i,
    {
        proof {
            assert(placed_at(diff@[i as int], rec_old_count(diff@.take(i as int)), rec_new_count(diff@.take(i as int))));
            assert(diff@.take(i as int + 1).drop_last() =~= diff@.take(i as int));
            lemma_counts_prefix(diff@, i as int + 1);
        }
        let e = update_indices(&diff[i], &offsets);
        offsets.observe(diff[i].kind);
        r.push(e);
        i = i + 1;
    }
    r
}

/// Counts over a prefix are bounded by those over the whole script.
pub proof fn lemma_counts_prefix(r: Seq<DiffRecord>, i: int)
    requires
        0 <= i <= r.len(),
    ensures
        rec_old_count(r.take(i)) <= rec_old_count(r),
        rec_new_count(r.take(i)) <= rec_new_count(r),
    decreases r.len() - i,
{
    if i < r.len() {
        lemma_counts_prefix(r, i + 1);
        assert(r.take(i + 1).drop_last() =~= r.take(i));
    } else {
        assert(r.take(i) =~= r);
    }
}

/// Whether any record of the script is an addition or a removal.
pub open spec fn has_change(r: Seq<DiffRecord>) -> bool {
    exists|i: int| 0 <= i < r.len() && r[i].kind != EditKind::Common
}

/// Whether the script holds any addition or removal.
pub fn exist_differences(results: &Vec<DiffRecord>) -> (r: bool)
    ensures
        r == has_change(results@),
{
    let mut i: usize = 0;
    while i < results.len()
        invariant
            0 <= i <= results@.len(),
            forall|j: int| 0 <= j < i ==> results@[j].kind == EditKind::Common,
        decreases results@.len() - i,
    {
        if results[i].kind != EditKind::Common {
            return true;
        }
        i = i + 1;
    }
    false
}

} // verus!
