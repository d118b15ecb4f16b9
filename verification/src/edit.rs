//! The edit-script data model and the patch applier.
//!
//! An edit script ([`Difference`]) turns one byte buffer (the base) into
//! another.  All offsets are positions of the unpatched base buffer:
//! applying a script is a single left-to-right pass over the base, never a
//! cumulative re-indexing.

use vstd::prelude::*;

verus! {

/// Half-open range `[start, end)` of base positions whose bytes are dropped.
#[derive(Clone, Copy, Debug, PartialEq, Eq, Structural)]
pub struct Deletion {
    /// First dropped position.
    pub start: usize,
    /// One past the last dropped position.
    pub end: usize,
}

/// Bytes spliced in immediately before the base position `start`.
///
/// An insertion anchored at or past the end of the base is emitted after the
/// last base byte.
#[derive(Clone, Debug)]
pub struct Insertion {
    /// Base position before which the payload is emitted.
    pub start: usize,
    /// The inserted bytes.
    pub data: Vec<u8>,
}

/// An edit script: deletions and insertions, both in base coordinates.
#[derive(Clone, Debug)]
pub struct Difference {
    /// Ranges to drop, sorted by start and pairwise disjoint.
    pub deletions: Vec<Deletion>,
    /// Insertions with strictly increasing anchors.
    pub insertions: Vec<Insertion>,
}

/// Does some deletion of `dels` cover base position `i`?
pub open spec fn deleted_at(dels: Seq<Deletion>, i: int) -> bool {
    exists|k: int| #![trigger dels[k]] 0 <= k < dels.len() && dels[k].start <= i < dels[k].end
}

/// The bytes of every insertion anchored exactly at `i`, in script order.
pub open spec fn insertions_at(inss: Seq<Insertion>, i: int) -> Seq<u8>
    decreases inss.len(),
{
    if inss.len() == 0 {
        Seq::empty()
    } else if inss[0].start == i {
        inss[0].data@ + insertions_at(inss.skip(1), i)
    } else {
        insertions_at(inss.skip(1), i)
    }
}

/// The bytes of every insertion anchored at or past `i`, in script order.
pub open spec fn insertions_from(inss: Seq<Insertion>, i: int) -> Seq<u8>
    decreases inss.len(),
{
    if inss.len() == 0 {
        Seq::empty()
    } else if inss[0].start >= i {
        inss[0].data@ + insertions_from(inss.skip(1), i)
    } else {
        insertions_from(inss.skip(1), i)
    }
}

/// All payload bytes of a script's insertions, concatenated in order.
pub open spec fn concat_data(inss: Seq<Insertion>) -> Seq<u8>
    decreases inss.len(),
{
    if inss.len() == 0 {
        Seq::empty()
    } else {
        inss[0].data@ + concat_data(inss.skip(1))
    }
}

/// The single pass from position `i` on: at each position the insertions
/// anchored there come first, then the base byte unless a deletion covers the
/// position; after the last base byte come the insertions anchored at or past
/// the end.
pub open spec fn patch_from(base: Seq<u8>, dels: Seq<Deletion>, inss: Seq<Insertion>, i: int) -> Seq<u8>
    decreases base.len() - i,
{
    if i >= base.len() {
        insertions_from(inss, i)
    } else {
        insertions_at(inss, i)
            + (if deleted_at(dels, i) { Seq::<u8>::empty() } else { seq![base[i]] })
            + patch_from(base, dels, inss, i + 1)
    }
}

/// The buffer an edit script produces from `base`.
pub open spec fn patch_spec(base: Seq<u8>, dels: Seq<Deletion>, inss: Seq<Insertion>) -> Seq<u8> {
    patch_from(base, dels, inss, 0)
}

/// Deletions are sorted by start and pairwise disjoint.
pub open spec fn deletions_wf(dels: Seq<Deletion>) -> bool {
    &&& forall|k: int| #![trigger dels[k]] 0 <= k < dels.len() ==> dels[k].start <= dels[k].end
    &&& forall|k: int| #![trigger dels[k]] 0 <= k && k + 1 < dels.len() ==> dels[k].end <= dels[k + 1].start
}

/// Insertion anchors are strictly increasing.
pub open spec fn insertions_wf(inss: Seq<Insertion>) -> bool {
    forall|k: int| #![trigger inss[k]] 0 <= k && k + 1 < inss.len() ==> inss[k].start < inss[k + 1].start
}

impl Difference {
    /// A script is well formed when both halves are sorted as stated above.
    pub open spec fn wf(&self) -> bool {
        deletions_wf(self.deletions@) && insertions_wf(self.insertions@)
    }

    /// The buffer this script produces from `base`.
    pub open spec fn apply(&self, base: Seq<u8>) -> Seq<u8> {
        patch_spec(base, self.deletions@, self.insertions@)
    }

    /// A script with no operations at all.
    pub open spec fn is_empty(&self) -> bool {
        self.deletions@.len() == 0 && self.insertions@.len() == 0
    }

    /// Every offset of the script stays within a base of length `n`.
    pub open spec fn bounded(&self, n: int) -> bool {
        &&& forall|k: int| #![trigger self.deletions@[k]] 0 <= k < self.deletions@.len()
            ==> self.deletions@[k].end <= n
        &&& forall|k: int| #![trigger self.insertions@[k]] 0 <= k < self.insertions@.len()
            ==> self.insertions@[k].start <= n
    }

    /// The script that leaves every base unchanged.
    pub fn empty() -> (d: Difference)
        ensures
            d.is_empty(),
            d.wf(),
    {
        Difference { deletions: Vec::new(), insertions: Vec::new() }
    }
}

/// Anchors of a well-formed insertion list are monotone.
pub proof fn lemma_inss_ordered(inss: Seq<Insertion>, a: int, b: int)
    requires
        insertions_wf(inss),
        0 <= a <= b < inss.len(),
    ensures
        inss[a].start <= inss[b].start,
        a < b ==> inss[a].start < inss[b].start,
    decreases b - a,
{
    if a < b {
        lemma_inss_ordered(inss, a + 1, b);
    }
}

/// Ranges of a well-formed deletion list are ordered and disjoint.
pub proof fn lemma_dels_ordered(dels: Seq<Deletion>, a: int, b: int)
    requires
        deletions_wf(dels),
        0 <= a < b < dels.len(),
    ensures
        dels[a].end <= dels[b].start,
    decreases b - a,
{
    if a + 1 < b {
        lemma_dels_ordered(dels, a + 1, b);
    }
}

/// Insertions anchored elsewhere do not contribute at position `i`.
proof fn lemma_insertions_at_skip(inss: Seq<Insertion>, i: int, m: int)
    requires
        0 <= m <= inss.len(),
        forall|k: int| #![trigger inss[k]] 0 <= k < m ==> inss[k].start != i,
    ensures
        insertions_at(inss, i) == insertions_at(inss.skip(m), i),
    decreases m,
{
    if m == 0 {
        assert(inss.skip(0) =~= inss);
    } else {
        assert(forall|k: int| #![trigger inss.skip(1)[k]] 0 <= k < m - 1 ==> inss.skip(1)[k] == inss[k + 1]);
        lemma_insertions_at_skip(inss.skip(1), i, m - 1);
        assert(inss.skip(1).skip(m - 1) =~= inss.skip(m));
    }
}

/// Insertions anchored before `i` do not contribute at or past `i`.
proof fn lemma_insertions_from_skip(inss: Seq<Insertion>, i: int, m: int)
    requires
        0 <= m <= inss.len(),
        forall|k: int| #![trigger inss[k]] 0 <= k < m ==> inss[k].start < i,
    ensures
        insertions_from(inss, i) == insertions_from(inss.skip(m), i),
    decreases m,
{
    if m == 0 {
        assert(inss.skip(0) =~= inss);
    } else {
        assert(forall|k: int| #![trigger inss.skip(1)[k]] 0 <= k < m - 1 ==> inss.skip(1)[k] == inss[k + 1]);
        lemma_insertions_from_skip(inss.skip(1), i, m - 1);
        assert(inss.skip(1).skip(m - 1) =~= inss.skip(m));
    }
}

/// When every anchor is at or past `i`, everything is inserted.
proof fn lemma_insertions_from_all(inss: Seq<Insertion>, i: int)
    requires
        forall|k: int| #![trigger inss[k]] 0 <= k < inss.len() ==> inss[k].start >= i,
    ensures
        insertions_from(inss, i) == concat_data(inss),
    decreases inss.len(),
{
    if inss.len() > 0 {
        assert(forall|k: int| #![trigger inss.skip(1)[k]] 0 <= k < inss.len() - 1 ==> inss.skip(1)[k] == inss[k + 1]);
        lemma_insertions_from_all(inss.skip(1), i);
    }
}

/// With the scan positioned at `di`, coverage of `i` is decided by `dels[di]`.
proof fn lemma_deleted_at_pointer(dels: Seq<Deletion>, i: int, di: int)
    requires
        deletions_wf(dels),
        0 <= di <= dels.len(),
        forall|k: int| #![trigger dels[k]] 0 <= k < di ==> dels[k].end <= i,
        di < dels.len() ==> dels[di].end > i,
    ensures
        deleted_at(dels, i) <==> (di < dels.len() && dels[di].start <= i),
{
    if di < dels.len() && dels[di].start <= i {
        assert(dels[di].start <= i < dels[di].end);
    }
    if deleted_at(dels, i) {
        let k = choose|k: int| #![trigger dels[k]] 0 <= k < dels.len() && dels[k].start <= i < dels[k].end;
        if k < di {
            assert(dels[k].end <= i);
        } else if k > di {
            lemma_dels_ordered(dels, di, k);
        }
    }
}

impl Difference {
    /// Applies the script to `base` in one left-to-right pass.
    pub fn patched(&self, base: &[u8]) -> (result: Vec<u8>)
        requires
            self.wf(),
        ensures
            result@ == self.apply(base@),
    {
        let ghost dels = self.deletions@;
        let ghost inss = self.insertions@;
        let n = base.len();
        let mut out: Vec<u8> = Vec::new();
        let mut di: usize = 0;
        let mut ii: usize = 0;
        let mut i: usize = 0;
        while i < n
            invariant
                n == base@.len(),
                dels == self.deletions@,
                inss == self.insertions@,
                self.wf(),
                0 <= i <= n,
                ii <= inss.len(),
                di <= dels.len(),
                forall|k: int| #![trigger inss[k]] 0 <= k < ii ==> inss[k].start < i,
                ii < inss.len() ==> inss[ii as int].start >= i,
                forall|k: int| #![trigger dels[k]] 0 <= k < di ==> dels[k].end <= i,
                patch_spec(base@, dels, inss) == out@ + patch_from(base@, dels, inss, i as int),
            decreases n - i,
        {
            let ghost out0 = out@;
            let ghost mid = patch_from(base@, dels, inss, i as int);
            // what this position inserts
            if ii < self.insertions.len() && self.insertions[ii].start == i {
                out.extend_from_slice(self.insertions[ii].data.as_slice());
                proof {
                    lemma_insertions_at_skip(inss, i as int, ii as int);
                    assert(inss.skip(ii as int)[0] == inss[ii as int]);
                    assert(forall|k: int| #![trigger inss[k]] ii < k < inss.len() ==> inss[k].start > i) by {
                        assert forall|k: int| ii < k < inss.len() implies #[trigger] inss[k].start > i by {
                            lemma_inss_ordered(inss, ii as int, k);
                        }
                    }
                    assert(forall|k: int| #![trigger inss.skip(ii + 1)[k]] 0 <= k < inss.len() - ii - 1 ==> inss.skip(ii + 1)[k] == inss[k + ii + 1]);
                    lemma_insertions_at_skip(inss.skip(ii + 1), i as int, inss.len() - ii - 1);
                    assert(inss.skip(ii as int).skip(1) =~= inss.skip(ii + 1));
                    assert(insertions_at(inss, i as int) == inss[ii as int].data@);
                }
                ii += 1;
            } else {
                proof {
                    assert(forall|k: int| #![trigger inss[k]] 0 <= k < inss.len() ==> inss[k].start != i) by {
                        assert forall|k: int| 0 <= k < inss.len() implies #[trigger] inss[k].start != i by {
                            if k >= ii {
                                lemma_inss_ordered(inss, ii as int, k);
                            }
                        }
                    }
                    lemma_insertions_at_skip(inss, i as int, inss.len() as int);
                    assert(insertions_at(inss, i as int) == insertions_at(inss.skip(inss.len() as int), i as int));
                    assert(insertions_at(inss, i as int) =~= Seq::<u8>::empty());
                }
            }
            // skip deletions that end at or before this position
            while di < self.deletions.len() && self.deletions[di].end <= i
                invariant
                    dels == self.deletions@,
                    self.wf(),
                    i <= n,
                    di <= dels.len(),
                    forall|k: int| #![trigger dels[k]] 0 <= k < di ==> dels[k].end <= i,
                decreases dels.len() - di,
            {
                di += 1;
            }
            proof {
                lemma_deleted_at_pointer(dels, i as int, di as int);
            }
            let keep = !(di < self.deletions.len() && self.deletions[di].start <= i);
            if keep {
                out.push(base[i]);
            }
            proof {
                let ins_here = insertions_at(inss, i as int);
                let kept: Seq<u8> = if deleted_at(dels, i as int) { Seq::empty() } else { seq![base@[i as int]] };
                assert(out@ =~= out0 + ins_here + kept);
                assert(mid == ins_here + kept + patch_from(base@, dels, inss, i + 1));
                assert(out0 + mid =~= (out0 + ins_here + kept) + patch_from(base@, dels, inss, i + 1));
                assert(forall|k: int| #![trigger inss[k]] 0 <= k < ii ==> inss[k].start < i + 1);
                if ii < inss.len() {
                    assert(inss[ii as int].start >= i + 1);
                }
                assert(forall|k: int| #![trigger dels[k]] 0 <= k < di ==> dels[k].end <= i + 1);
            }
            i += 1;
        }
        proof {
            lemma_insertions_from_skip(inss, n as int, ii as int);
            assert(forall|k: int| #![trigger inss.skip(ii as int)[k]] 0 <= k < inss.len() - ii ==> inss.skip(ii as int)[k] == inss[k + ii]);
            assert(forall|k: int| #![trigger inss.skip(ii as int)[k]] 0 <= k < inss.len() - ii ==> inss.skip(ii as int)[k].start >= n) by {
                assert forall|k: int| 0 <= k < inss.len() - ii implies #[trigger] inss.skip(ii as int)[k].start >= n by {
                    if k > 0 {
                        lemma_inss_ordered(inss, ii as int, k + ii);
                    }
                }
            }
            lemma_insertions_from_all(inss.skip(ii as int), n as int);
            assert(patch_spec(base@, dels, inss) == out@ + concat_data(inss.skip(ii as int)));
        }
        while ii < self.insertions.len()
            invariant
                inss == self.insertions@,
                ii <= inss.len(),
                patch_spec(base@, dels, inss) == out@ + concat_data(inss.skip(ii as int)),
            decreases inss.len() - ii,
        {
            let ghost out0 = out@;
            out.extend_from_slice(self.insertions[ii].data.as_slice());
            proof {
                assert(inss.skip(ii as int)[0] == inss[ii as int]);
                assert(inss.skip(ii as int).skip(1) =~= inss.skip(ii + 1));
                assert(out0 + concat_data(inss.skip(ii as int)) =~= out@ + concat_data(inss.skip(ii + 1)));
            }
            ii += 1;
        }
        proof {
            assert(inss.skip(inss.len() as int) =~= Seq::<Insertion>::empty());
            assert(patch_spec(base@, dels, inss) =~= out@);
        }
        out
    }
}

/// Byte-wise equality of two buffers.
pub(crate) fn bytes_eq(a: &[u8], b: &[u8]) -> (r: bool)
    ensures
        r == (a@ == b@),
{
    if a.len() != b.len() {
        return false;
    }
    let n = a.len();
    let mut i: usize = 0;
    while i < n
        invariant
            n == a@.len(),
            n == b@.len(),
            i <= n,
            forall|j: int| 0 <= j < i ==> a@[j] == b@[j],
        decreases n - i,
    {
        if a[i] != b[i] {
            return false;
        }
        i += 1;
    }
    proof {
        assert(a@ =~= b@);
    }
    true
}

/// An empty script reproduces the base.
pub proof fn lemma_patch_empty_from(base: Seq<u8>, i: int)
    requires
        0 <= i <= base.len(),
    ensures
        patch_from(base, Seq::<Deletion>::empty(), Seq::<Insertion>::empty(), i) == base.skip(i),
    decreases base.len() - i,
{
    if i >= base.len() {
        assert(base.skip(i) =~= Seq::<u8>::empty());
    } else {
        lemma_patch_empty_from(base, i + 1);
        assert(base.skip(i) =~= seq![base[i]] + base.skip(i + 1));
    }
}

/// The empty edit script is the identity on every buffer.
pub proof fn lemma_patch_empty(base: Seq<u8>)
    ensures
        patch_spec(base, Seq::<Deletion>::empty(), Seq::<Insertion>::empty(), ) == base,
{
    lemma_patch_empty_from(base, 0);
    assert(base.skip(0) =~= base);
}

} // verus!
