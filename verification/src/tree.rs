//! The version tree and its mutation protocol.
//!
//! The tree is a vector of [`Version`] records.  The root sits at index 0
//! and is its own parent; every other record names an earlier record as its
//! parent.  Content is reconstructed on demand by composing edit scripts
//! from the root down; nothing is cached, so repeated access recomputes.

use vstd::prelude::*;

use crate::edit::patch_spec;
use crate::error::SbvcError;
use crate::error::SbvcResult;
use crate::version::Version;

verus! {

/// First index in `vs` of a version with identifier `id`, or `-1`.
pub open spec fn find_id(vs: Seq<Version>, id: u32) -> int
    decreases vs.len(),
{
    if vs.len() == 0 {
        -1
    } else if vs[0].id == id {
        0
    } else if find_id(vs.skip(1), id) == -1 {
        -1
    } else {
        find_id(vs.skip(1), id) + 1
    }
}

/// `find_id` returns the first matching index, or `-1` when there is none.
pub proof fn lemma_find_id(vs: Seq<Version>, id: u32)
    ensures
        find_id(vs, id) == -1 ==> forall|k: int| #![trigger vs[k]] 0 <= k < vs.len() ==> vs[k].id != id,
        find_id(vs, id) != -1 ==> {
            &&& 0 <= find_id(vs, id) < vs.len()
            &&& vs[find_id(vs, id)].id == id
            &&& forall|k: int| #![trigger vs[k]] 0 <= k < find_id(vs, id) ==> vs[k].id != id
        },
    decreases vs.len(),
{
    if vs.len() > 0 {
        lemma_find_id(vs.skip(1), id);
        assert forall|k: int| 1 <= k < vs.len() implies #[trigger] vs[k] == vs.skip(1)[k - 1] by {
            assert(vs.skip(1)[k - 1] == vs[k]);
        }
    }
}

/// The index `find_id` settles on, given a witness and the absence of
/// earlier matches.
pub proof fn lemma_find_id_is(vs: Seq<Version>, id: u32, i: int)
    requires
        0 <= i < vs.len(),
        vs[i].id == id,
        forall|k: int| #![trigger vs[k]] 0 <= k < i ==> vs[k].id != id,
    ensures
        find_id(vs, id) == i,
{
    lemma_find_id(vs, id);
    let f = find_id(vs, id);
    if f == -1 {
        assert(vs[i].id != id);
    } else if f < i {
        assert(vs[f].id != id);
    } else if f > i {
        assert(vs[i].id != id);
    }
}

/// Appending a version does not move any earlier match of `find_id`.
pub proof fn lemma_find_id_push(vs: Seq<Version>, v: Version, id: u32)
    ensures
        find_id(vs.push(v), id) == (if find_id(vs, id) != -1 {
            find_id(vs, id)
        } else if v.id == id {
            vs.len() as int
        } else {
            -1
        }),
{
    lemma_find_id(vs, id);
    let vs1 = vs.push(v);
    let f = find_id(vs, id);
    if f != -1 {
        assert(vs1[f] == vs[f]);
        assert forall|k: int| 0 <= k < f implies (#[trigger] vs1[k]).id != id by {
            assert(vs1[k] == vs[k]);
        }
        lemma_find_id_is(vs1, id, f);
    } else if v.id == id {
        assert(vs1[vs.len() as int] == v);
        assert forall|k: int| 0 <= k < vs.len() implies (#[trigger] vs1[k]).id != id by {
            assert(vs1[k] == vs[k]);
        }
        lemma_find_id_is(vs1, id, vs.len() as int);
    } else {
        lemma_find_id(vs1, id);
        if find_id(vs1, id) != -1 {
            let g = find_id(vs1, id);
            assert(vs1[g].id == id);
            if g < vs.len() {
                assert(vs1[g] == vs[g]);
            } else {
                assert(vs1[g] == v);
            }
        }
    }
}

/// `find_id` looks only at identifiers.
pub proof fn lemma_find_id_same_ids(vs1: Seq<Version>, vs2: Seq<Version>, id: u32)
    requires
        vs1.len() == vs2.len(),
        forall|i: int| #![trigger vs1[i]] 0 <= i < vs1.len() ==> vs1[i].id == vs2[i].id,
    ensures
        find_id(vs1, id) == find_id(vs2, id),
    decreases vs1.len(),
{
    if vs1.len() > 0 {
        assert(vs2[0].id == vs1[0].id);
        assert forall|i: int| 0 <= i < vs1.len() - 1 implies #[trigger] vs1.skip(1)[i].id == vs2.skip(1)[i].id by {
            assert(vs1.skip(1)[i] == vs1[i + 1]);
            assert(vs2.skip(1)[i] == vs2[i + 1]);
        }
        lemma_find_id_same_ids(vs1.skip(1), vs2.skip(1), id);
    }
}

/// Content depends only on identifiers, parent links and scripts.
pub proof fn lemma_content_at_same_links(vs1: Seq<Version>, vs2: Seq<Version>, i: int)
    requires
        vs1.len() == vs2.len(),
        forall|k: int| #![trigger vs1[k]] 0 <= k < vs1.len()
            ==> vs1[k].id == vs2[k].id && vs1[k].base == vs2[k].base
                && vs1[k].difference == vs2[k].difference,
    ensures
        content_at(vs1, i) == content_at(vs2, i),
    decreases i,
{
    if 0 <= i < vs1.len() && vs1[i].base != vs1[i].id {
        lemma_find_id_same_ids(vs1, vs2, vs1[i].base);
        let p = find_id(vs1, vs1[i].base);
        if 0 <= p < i {
            lemma_content_at_same_links(vs1, vs2, p);
        }
    }
}

/// Appending a fresh version leaves every existing content unchanged.
pub proof fn lemma_content_at_push(vs: Seq<Version>, v: Version, next: u32, i: int)
    requires
        versions_wf(vs, next),
        0 <= i < vs.len(),
    ensures
        content_at(vs.push(v), i) == content_at(vs, i),
    decreases i,
{
    let vs2 = vs.push(v);
    assert(vs2[i] == vs[i]);
    if vs[i].base != vs[i].id {
        let p = find_id(vs, vs[i].base);
        lemma_find_id_push(vs, v, vs[i].base);
        if 0 <= p < i {
            lemma_content_at_push(vs, v, next, p);
        }
    }
}

/// Appending a fresh leaf with parent at index `c` keeps the tree shape,
/// keeps every existing content, and gives the leaf the patched content of
/// its parent.
#[verifier::rlimit(100)]
pub proof fn lemma_append_leaf(vs: Seq<Version>, v: Version, next: u32, c: int)
    requires
        versions_wf(vs, next),
        next < u32::MAX,
        0 <= c < vs.len(),
        v.id == next,
        v.base == vs[c].id,
        v.difference.wf(),
    ensures
        versions_wf(vs.push(v), (next + 1) as u32),
        forall|i: int| 0 <= i < vs.len() ==> #[trigger] content_at(vs.push(v), i) == content_at(vs, i),
        content_at(vs.push(v), vs.len() as int) == patch_spec(
            content_at(vs, c),
            v.difference.deletions@,
            v.difference.insertions@,
        ),
{
    let vs1 = vs.push(v);
    let n = vs.len() as int;
    assert(vs1[n] == v);
    assert(vs1[0] == vs[0]);
    // the fresh identifier is not in use yet
    lemma_find_id(vs, next);
    if find_id(vs, next) != -1 {
        assert(vs[find_id(vs, next)].id < next);
    }
    lemma_find_id_push(vs, v, next);
    assert(find_id(vs1, next) == n);
    // first occurrences do not move
    assert forall|i: int| 0 <= i < vs1.len() implies #[trigger] find_id(vs1, vs1[i].id) == i by {
        if i < n {
            assert(vs1[i] == vs[i]);
            lemma_find_id_push(vs, v, vs[i].id);
        }
    }
    // every parent still sits before its child
    assert(find_id(vs, vs[c].id) == c);
    lemma_find_id_push(vs, v, v.base);
    assert(find_id(vs1, v.base) == c);
    assert forall|i: int| 1 <= i < vs1.len() implies 0 <= #[trigger] find_id(vs1, vs1[i].base) < i by {
        if i < n {
            assert(vs1[i] == vs[i]);
            lemma_find_id_push(vs, v, vs[i].base);
        }
    }
    assert forall|i: int| 0 <= i < vs1.len() implies #[trigger] vs1[i].id < next + 1 by {
        if i < n {
            assert(vs1[i] == vs[i]);
        }
    }
    assert(versions_wf(vs1, (next + 1) as u32));
    // existing contents are untouched
    assert forall|i: int| 0 <= i < n implies #[trigger] content_at(vs1, i) == content_at(vs, i) by {
        lemma_content_at_push(vs, v, next, i);
    }
    // the new leaf reconstructs from its parent's content
    assert(vs[c].id < next);
    assert(vs1[n].base != vs1[n].id);
    assert(content_at(vs1, n) == patch_spec(
        content_at(vs1, c),
        v.difference.deletions@,
        v.difference.insertions@,
    ));
}

/// Replacing the record at `c` by one with the same identifier, parent and
/// script keeps the tree shape and every content.
#[verifier::rlimit(60)]
pub proof fn lemma_update_same_links(vs: Seq<Version>, c: int, nv: Version, next: u32)
    requires
        versions_wf(vs, next),
        0 <= c < vs.len(),
        nv.id == vs[c].id,
        nv.base == vs[c].base,
        nv.difference == vs[c].difference,
    ensures
        versions_wf(vs.update(c, nv), next),
        forall|i: int| 0 <= i < vs.len() ==> #[trigger] content_at(vs.update(c, nv), i)
            == content_at(vs, i),
{
    let vs1 = vs.update(c, nv);
    assert(vs1[c] == nv);
    assert(forall|i: int| #![trigger vs1[i]] 0 <= i < vs1.len() && i != c ==> vs1[i] == vs[i]);
    assert forall|id: u32| true implies #[trigger] find_id(vs1, id) == find_id(vs, id) by {
        lemma_find_id_same_ids(vs1, vs, id);
    }
    assert forall|i: int| 0 <= i < vs1.len() implies #[trigger] find_id(vs1, vs1[i].id) == i by {
        assert(vs1[i].id == vs[i].id);
    }
    assert forall|i: int| 1 <= i < vs1.len() implies 0 <= #[trigger] find_id(vs1, vs1[i].base) < i by {
        assert(vs1[i].base == vs[i].base);
    }
    assert(vs1[0].base == vs1[0].id);
    assert(vs1[0].difference.is_empty());
    assert(versions_wf(vs1, next));
    assert forall|i: int| 0 <= i < vs.len() implies #[trigger] content_at(vs1, i) == content_at(vs, i) by {
        lemma_content_at_same_links(vs1, vs, i);
    }
}

/// Is the version at index `i` inside the subtree rooted at index `r`
/// (including `r` itself)?  Membership follows parent links upward.
pub open spec fn in_subtree(vs: Seq<Version>, i: int, r: int) -> bool
    decreases i,
{
    if i == r {
        true
    } else if i <= 0 || i >= vs.len() || vs[i].base == vs[i].id {
        false
    } else {
        let p = find_id(vs, vs[i].base);
        if 0 <= p < i {
            in_subtree(vs, p, r)
        } else {
            false
        }
    }
}

/// The versions at indices `k` and beyond that are outside the subtree
/// rooted at `r`, in their original order.
pub open spec fn surviving_from(vs: Seq<Version>, r: int, k: int) -> Seq<Version>
    decreases vs.len() - k,
{
    if k < 0 || k >= vs.len() {
        Seq::empty()
    } else if in_subtree(vs, k, r) {
        surviving_from(vs, r, k + 1)
    } else {
        seq![vs[k]] + surviving_from(vs, r, k + 1)
    }
}

/// Ancestor chains only descend in index, so nothing before `r` lies in the
/// subtree rooted at `r`.
pub proof fn lemma_not_in_subtree_below(vs: Seq<Version>, r: int, j: int)
    requires
        0 <= j < r,
    ensures
        !in_subtree(vs, j, r),
    decreases j,
{
    if 1 <= j < vs.len() && vs[j].base != vs[j].id {
        let p = find_id(vs, vs[j].base);
        if 0 <= p < j {
            lemma_not_in_subtree_below(vs, r, p);
        }
    }
}

/// Below the subtree root every version survives, so the survivors from 0
/// are the prefix before `r` followed by the survivors from `r`.
pub proof fn lemma_surviving_prefix(vs: Seq<Version>, r: int, k: int)
    requires
        0 <= k <= r,
        r < vs.len(),
    ensures
        surviving_from(vs, r, k) == vs.subrange(k, r) + surviving_from(vs, r, r),
    decreases r - k,
{
    if k == r {
        assert(vs.subrange(r, r) =~= Seq::<Version>::empty());
        assert(vs.subrange(r, r) + surviving_from(vs, r, r) =~= surviving_from(vs, r, r));
    } else {
        lemma_not_in_subtree_below(vs, r, k);
        lemma_surviving_prefix(vs, r, k + 1);
        assert(vs.subrange(k, r) =~= seq![vs[k]] + vs.subrange(k + 1, r));
        assert(seq![vs[k]] + (vs.subrange(k + 1, r) + surviving_from(vs, r, r))
            =~= vs.subrange(k, r) + surviving_from(vs, r, r));
    }
}

/// Every survivor is one of the original versions, from outside the subtree.
pub proof fn lemma_surviving_membership(vs: Seq<Version>, r: int, k: int)
    requires
        0 <= k <= vs.len(),
    ensures
        forall|a: int| #![trigger surviving_from(vs, r, k)[a]] 0 <= a < surviving_from(vs, r, k).len()
            ==> exists|j: int| #![trigger vs[j]] k <= j < vs.len()
                && surviving_from(vs, r, k)[a] == vs[j] && !in_subtree(vs, j, r),
    decreases vs.len() - k,
{
    if k < vs.len() {
        lemma_surviving_membership(vs, r, k + 1);
        let tail = surviving_from(vs, r, k + 1);
        if !in_subtree(vs, k, r) {
            assert forall|a: int| 0 <= a < surviving_from(vs, r, k).len() implies
                exists|j: int| #![trigger vs[j]] k <= j < vs.len()
                    && #[trigger] surviving_from(vs, r, k)[a] == vs[j] && !in_subtree(vs, j, r) by {
                if a == 0 {
                    assert(surviving_from(vs, r, k)[0] == vs[k]);
                } else {
                    assert(surviving_from(vs, r, k)[a] == tail[a - 1]);
                }
            }
        }
    }
}

/// What `find_id` returns after one removal, when identifiers are unique.
pub proof fn lemma_find_id_remove(vs: Seq<Version>, i: int, id: u32)
    requires
        0 <= i < vs.len(),
        forall|j: int| #![trigger vs[j]] 0 <= j < vs.len() ==> find_id(vs, vs[j].id) == j,
    ensures
        find_id(vs.remove(i), id) == (if find_id(vs, id) == -1 || find_id(vs, id) == i {
            -1
        } else if find_id(vs, id) < i {
            find_id(vs, id)
        } else {
            find_id(vs, id) - 1
        }),
{
    let vs1 = vs.remove(i);
    let f = find_id(vs, id);
    lemma_find_id(vs, id);
    assert(forall|k: int| #![trigger vs1[k]] 0 <= k < i ==> vs1[k] == vs[k]);
    assert(forall|k: int| #![trigger vs1[k]] i <= k < vs1.len() ==> vs1[k] == vs[k + 1]);
    if f == -1 || f == i {
        // no other version carries `id`, so none is left
        lemma_find_id(vs1, id);
        if find_id(vs1, id) != -1 {
            let g = find_id(vs1, id);
            assert(vs1[g].id == id);
            if f == i {
                if g < i {
                    assert(find_id(vs, vs[g].id) == g);
                    assert(find_id(vs, id) == i);
                } else {
                    assert(find_id(vs, vs[g + 1].id) == g + 1);
                    assert(find_id(vs, id) == i);
                }
            }
        }
    } else if f < i {
        assert(vs1[f] == vs[f]);
        assert forall|k: int| 0 <= k < f implies (#[trigger] vs1[k]).id != id by {
            assert(vs1[k] == vs[k]);
        }
        lemma_find_id_is(vs1, id, f);
    } else {
        assert(vs1[f - 1] == vs[f]);
        assert forall|k: int| 0 <= k < f - 1 implies (#[trigger] vs1[k]).id != id by {
            if k < i {
                assert(vs1[k] == vs[k]);
            } else {
                assert(vs1[k] == vs[k + 1]);
            }
        }
        lemma_find_id_is(vs1, id, f - 1);
    }
}

/// While the subtree rooted at `cur` is being removed from the back, the
/// version at index `i` — itself inside the subtree — is nobody's parent:
/// earlier versions have earlier parents, and later survivors have parents
/// outside the subtree.
#[verifier::rlimit(100)]
pub proof fn lemma_no_parent_at_removed(
    orig: Seq<Version>,
    next0: u32,
    cur: int,
    i: int,
    vsb: Seq<Version>,
)
    requires
        versions_wf(orig, next0),
        1 <= cur <= i < orig.len(),
        versions_wf(vsb, next0),
        vsb == orig.subrange(0, i + 1) + surviving_from(orig, cur, i + 1),
        in_subtree(orig, i, cur),
    ensures
        forall|j: int| #![trigger vsb[j]] 0 <= j < vsb.len() && j != i
            ==> find_id(vsb, vsb[j].base) != i,
{
    let tail = surviving_from(orig, cur, i + 1);
    lemma_surviving_membership(orig, cur, i + 1);
    assert forall|j: int| 0 <= j < vsb.len() && j != i implies
        #[trigger] find_id(vsb, vsb[j].base) != i by {
        if j == 0 {
            assert(find_id(vsb, vsb[0].id) == 0);
        } else if j < i {
            assert(0 <= find_id(vsb, vsb[j].base) < j);
        } else {
            let a = j - (i + 1);
            assert(vsb[j] == tail[a]);
            let jo = choose|jo: int| #![trigger orig[jo]] i + 1 <= jo < orig.len()
                && tail[a] == orig[jo] && !in_subtree(orig, jo, cur);
            assert(jo >= 1);
            assert(orig[jo].base != orig[jo].id) by {
                assert(find_id(orig, orig[jo].id) == jo);
                assert(0 <= find_id(orig, orig[jo].base) < jo);
            }
            let po = find_id(orig, orig[jo].base);
            assert(!in_subtree(orig, po, cur));
            assert(po != i);
            lemma_find_id(orig, orig[jo].base);
            assert(orig[po].id == orig[jo].base);
            if find_id(vsb, vsb[j].base) == i {
                lemma_find_id(vsb, vsb[j].base);
                assert(vsb[i].id == vsb[j].base);
                assert(vsb[i] == orig[i]);
                assert(orig[i].id == orig[po].id);
                assert(find_id(orig, orig[po].id) == po);
                assert(find_id(orig, orig[i].id) == i);
            }
        }
    }
}

/// Removing a version that is nobody's parent keeps the tree shape.
#[verifier::rlimit(100)]
pub proof fn lemma_remove_keeps_shape(vs: Seq<Version>, next: u32, i: int)
    requires
        versions_wf(vs, next),
        1 <= i < vs.len(),
        forall|j: int| #![trigger vs[j]] 0 <= j < vs.len() && j != i
            ==> find_id(vs, vs[j].base) != i,
    ensures
        versions_wf(vs.remove(i), next),
{
    let vs1 = vs.remove(i);
    assert(vs1[0] == vs[0]);
    assert(forall|k: int| #![trigger vs1[k]] 0 <= k < i ==> vs1[k] == vs[k]);
    assert(forall|k: int| #![trigger vs1[k]] i <= k < vs1.len() ==> vs1[k] == vs[k + 1]);
    assert forall|k: int| 0 <= k < vs1.len() implies #[trigger] find_id(vs1, vs1[k].id) == k by {
        let m: int = if k < i { k } else { k + 1 };
        assert(vs1[k] == vs[m]);
        assert(find_id(vs, vs[m].id) == m);
        lemma_find_id_remove(vs, i, vs[m].id);
    }
    assert forall|k: int| 1 <= k < vs1.len() implies 0 <= #[trigger] find_id(vs1, vs1[k].base) < k by {
        let m: int = if k < i { k } else { k + 1 };
        assert(vs1[k] == vs[m]);
        assert(0 <= find_id(vs, vs[m].base) < m);
        let p = find_id(vs, vs[m].base);
        assert(p != i);
        lemma_find_id_remove(vs, i, vs[m].base);
    }
}

/// When every record of one well-formed tree also occurs in another, a
/// version reconstructs to the same content in both: content only follows
/// identifiers, parent links and scripts, all preserved record-wise.
#[verifier::rlimit(100)]
#[verifier::spinoff_prover]
pub proof fn lemma_content_preserved(orig: Seq<Version>, kept: Seq<Version>, next: u32, i: int)
    requires
        versions_wf(orig, next),
        versions_wf(kept, next),
        forall|k: int| #![trigger kept[k]] 0 <= k < kept.len() ==> exists|j: int|
            #![trigger orig[j]]
            0 <= j < orig.len() && kept[k] == orig[j],
        0 <= i < kept.len(),
    ensures
        0 <= find_id(orig, kept[i].id) < orig.len(),
        content_at(kept, i) == content_at(orig, find_id(orig, kept[i].id)),
    decreases i,
{
    let j = choose|j: int| #![trigger orig[j]] 0 <= j < orig.len() && kept[i] == orig[j];
    assert(find_id(orig, orig[j].id) == j);
    let oi = find_id(orig, kept[i].id);
    assert(oi == j);
    if kept[i].base != kept[i].id {
        // walk to the parents on both sides; they carry the same identifier
        let pf = find_id(kept, kept[i].base);
        assert(0 <= pf < i);
        lemma_find_id(kept, kept[i].base);
        assert(kept[pf].id == kept[i].base);
        lemma_content_preserved(orig, kept, next, pf);
        let po = find_id(orig, orig[j].base);
        assert(0 <= po < j);
        assert(find_id(orig, kept[pf].id) == po);
        assert(content_at(kept, pf) == content_at(orig, po));
    }
}

/// The root is immutable: under the tree invariant the version at index 0
/// is its own parent, carries an empty edit script, and reconstructs to the
/// empty buffer.  Together with [`Sbvc::delete`]'s contract — which keeps
/// the version at index 0 and never empties the tree — the root is never
/// removed.
pub proof fn lemma_root_immutable(s: Sbvc)
    requires
        s.wf(),
    ensures
        s.versions@.len() >= 1,
        s.versions@[0].base == s.versions@[0].id,
        s.versions@[0].difference.is_empty(),
        content_at(s.versions@, 0) == Seq::<u8>::empty(),
{
}

/// Returns the first index holding a version with identifier `id`.
pub(crate) fn find_in(versions: &Vec<Version>, id: u32) -> (r: Option<usize>)
    ensures
        r matches Some(idx) ==> 0 <= find_id(versions@, id) == idx as int,
        r is None ==> find_id(versions@, id) == -1,
{
    let ghost vs = versions@;
    let mut k: usize = 0;
    while k < versions.len()
        invariant
            vs == versions@,
            k <= vs.len(),
            forall|j: int| #![trigger vs[j]] 0 <= j < k ==> vs[j].id != id,
        decreases vs.len() - k,
    {
        if versions[k].id == id {
            proof {
                lemma_find_id_is(vs, id, k as int);
            }
            return Some(k);
        }
        k += 1;
    }
    proof {
        lemma_find_id(vs, id);
        if find_id(vs, id) != -1 {
            assert(vs[find_id(vs, id)].id == id);
        }
    }
    None
}

/// Walks parent links upward from index `j` of the original tree, deciding
/// membership in the subtree rooted at index `r`.  Only the prefix of
/// `versions` up to `j` is read, so later entries may already differ from
/// the original.
fn is_descendant(
    versions: &Vec<Version>,
    j: usize,
    r: usize,
    Ghost(orig): Ghost<Seq<Version>>,
    Ghost(next0): Ghost<u32>,
) -> (b: bool)
    requires
        versions_wf(orig, next0),
        1 <= r <= j < orig.len(),
        j < versions@.len(),
        versions@.subrange(0, j + 1) == orig.subrange(0, j + 1),
    ensures
        b == in_subtree(orig, j as int, r as int),
{
    proof {
        assert(forall|q: int| #![trigger versions@[q]] 0 <= q <= j ==> versions@[q]
            == versions@.subrange(0, j + 1)[q]);
        assert(forall|q: int| #![trigger orig[q]] 0 <= q <= j ==> orig[q]
            == orig.subrange(0, j + 1)[q]);
    }
    let mut k: usize = j;
    while k > r
        invariant
            versions_wf(orig, next0),
            1 <= r <= j < orig.len(),
            k <= j,
            j < versions@.len(),
            forall|q: int| #![trigger versions@[q]] 0 <= q <= j ==> versions@[q] == orig[q],
            in_subtree(orig, k as int, r as int) == in_subtree(orig, j as int, r as int),
        decreases k,
    {
        let b = versions[k].base;
        proof {
            assert(versions@[k as int] == orig[k as int]);
            assert(0 <= find_id(orig, orig[k as int].base) < k as int);
            lemma_find_id(orig, b);
        }
        let ghost pf = find_id(orig, b);
        let mut p: usize = 0;
        while p < k && versions[p].id != b
            invariant
                0 <= p <= k,
                k <= j < versions@.len(),
                forall|q: int| #![trigger versions@[q]] 0 <= q <= j ==> versions@[q] == orig[q],
                forall|q: int| #![trigger orig[q]] 0 <= q < p ==> orig[q].id != b,
            decreases k - p,
        {
            p += 1;
        }
        proof {
            assert(orig[pf].id == b);
            assert(0 <= pf < k as int);
            assert(p as int <= pf);
            assert(p < k);
            assert(versions@[p as int] == orig[p as int]);
            assert(p as int == pf);
            // membership passes through the parent
            assert(k as int != r as int);
            assert(orig[k as int].base != orig[k as int].id);
            assert(in_subtree(orig, k as int, r as int) == in_subtree(orig, pf, r as int));
        }
        k = p;
    }
    proof {
        if (k as int) < r as int {
            lemma_not_in_subtree_below(orig, r as int, k as int);
        }
    }
    k == r
}

/// A vector of versions shaped as a rooted tree with identifiers below `next`.
pub open spec fn versions_wf(vs: Seq<Version>, next: u32) -> bool {
    &&& vs.len() >= 1
    &&& vs[0].base == vs[0].id
    &&& vs[0].difference.is_empty()
    &&& forall|i: int| #![trigger vs[i]] 0 <= i < vs.len() ==> find_id(vs, vs[i].id) == i
    &&& forall|i: int| #![trigger vs[i]] 1 <= i < vs.len() ==> 0 <= find_id(vs, vs[i].base) < i
    &&& forall|i: int| #![trigger vs[i]] 0 <= i < vs.len() ==> vs[i].id < next
    &&& forall|i: int| #![trigger vs[i]] 0 <= i < vs.len() ==> vs[i].difference.wf()
}

/// The content of the version at index `i`: empty for the root, and the
/// parent's content patched by the version's own script otherwise.
pub open spec fn content_at(vs: Seq<Version>, i: int) -> Seq<u8>
    decreases i,
{
    if i < 0 || i >= vs.len() {
        Seq::empty()
    } else if vs[i].base == vs[i].id {
        Seq::empty()
    } else {
        let p = find_id(vs, vs[i].base);
        if 0 <= p < i {
            patch_spec(content_at(vs, p), vs[i].difference.deletions@, vs[i].difference.insertions@)
        } else {
            Seq::empty()
        }
    }
}

/// A version tree bound to the paths of its tree file and its tracked file.
///
/// `path` and `file` are kept as raw path bytes; reading and writing those
/// paths is the caller's concern.
#[derive(Debug)]
pub struct Sbvc {
    /// Path of the file holding the stored version tree.
    pub path: Vec<u8>,
    /// Path of the tracked file.
    pub file: Vec<u8>,
    /// Index of the current version in `versions`.
    pub current: usize,
    /// Next free version identifier, larger than every identifier in use.
    pub next: u32,
    /// The versions, root first, every parent before its children.
    pub versions: Vec<Version>,
}

impl Sbvc {
    /// The tree invariant: a rooted version tree and a valid current index.
    pub open spec fn wf(&self) -> bool {
        &&& versions_wf(self.versions@, self.next)
        &&& self.current < self.versions@.len()
    }

    /// Creates a fresh tree: a lone root named `"init"`, created at `now`,
    /// with an empty script and identifier 0.
    pub fn new(path: Vec<u8>, file: Vec<u8>, now: u64) -> (s: Sbvc)
        ensures
            s.wf(),
            s.path@ == path@,
            s.file@ == file@,
            s.current == 0,
            s.next == 1,
            s.versions@.len() == 1,
            s.versions@[0].id == 0,
            s.versions@[0].base == 0,
            s.versions@[0].name@ == crate::version::spec_init_name(),
            s.versions@[0].date == now,
            s.versions@[0].difference.is_empty(),
    {
        let root = Version {
            id: 0,
            base: 0,
            name: crate::version::init_name(),
            date: now,
            difference: crate::edit::Difference::empty(),
        };
        let mut versions: Vec<Version> = Vec::new();
        versions.push(root);
        let s = Sbvc { path, file, current: 0, next: 1, versions };
        proof {
            assert(s.versions@.len() == 1);
            assert(find_id(s.versions@, s.versions@[0].id) == 0);
        }
        s
    }

    /// Snapshots `content` as a new leaf below the current version and checks
    /// the new version out.  The new version's script is computed against the
    /// current content, its identifier is the next free one, its label is the
    /// placeholder `"unnamed"` and its creation time is `now`.  Every other
    /// version, and every other version's content, stays as it was.
    #[verifier::rlimit(100)]
    pub fn commit(&mut self, content: &[u8], now: u64)
        requires
            old(self).wf(),
            old(self).next < u32::MAX,
        ensures
            final(self).wf(),
            final(self).path@ == old(self).path@,
            final(self).file@ == old(self).file@,
            final(self).next == old(self).next + 1,
            final(self).current == old(self).versions@.len(),
            final(self).versions@.len() == old(self).versions@.len() + 1,
            forall|i: int| 0 <= i < old(self).versions@.len()
                ==> final(self).versions@[i] == old(self).versions@[i],
            final(self).versions@.last().id == old(self).next,
            final(self).versions@.last().base == old(self).versions@[old(self).current as int].id,
            final(self).versions@.last().name@ == crate::version::spec_default_name(),
            final(self).versions@.last().date == now,
            content_at(final(self).versions@, old(self).versions@.len() as int) == content@,
            forall|i: int| 0 <= i < old(self).versions@.len()
                ==> content_at(final(self).versions@, i) == content_at(old(self).versions@, i),
    {
        let ghost vs0 = self.versions@;
        let ghost next0 = self.next;
        let old_data = self.data(self.current);
        let d = crate::diff::diff(content, old_data.as_slice());
        let c = self.current;
        let base_id = self.versions[c].id;
        let v = Version {
            id: self.next,
            base: base_id,
            name: crate::version::default_name(),
            date: now,
            difference: d,
        };
        self.versions.push(v);
        self.next = self.next + 1;
        self.current = self.versions.len() - 1;
        proof {
            let vs1 = self.versions@;
            assert(vs1 == vs0.push(v));
            lemma_append_leaf(vs0, v, next0, c as int);
            assert(content_at(vs1, vs0.len() as int)
                == patch_spec(content_at(vs0, c as int), d.deletions@, d.insertions@));
            assert(content_at(vs0, c as int) == old_data@);
            assert(patch_spec(old_data@, d.deletions@, d.insertions@) == content@);
            assert(vs1.last() == v);
        }
    }

    /// Makes the version with identifier `id` current.  Fails with
    /// `VersionNotFound`, leaving the tree untouched, exactly when no version
    /// carries `id`.
    pub fn checkout(&mut self, id: u32) -> (r: SbvcResult<()>)
        requires
            old(self).wf(),
        ensures
            final(self).wf(),
            final(self).versions@ == old(self).versions@,
            final(self).path@ == old(self).path@,
            final(self).file@ == old(self).file@,
            final(self).next == old(self).next,
            find_id(old(self).versions@, id) >= 0 ==> r is Ok
                && final(self).current as int == find_id(old(self).versions@, id),
            find_id(old(self).versions@, id) == -1 ==> r == Err::<(), SbvcError>(
                SbvcError::VersionNotFound(id),
            ) && final(self).current == old(self).current,
    {
        match self.version(id) {
            Some(i) => {
                proof {
                    lemma_find_id(self.versions@, id);
                }
                self.current = i;
                Ok(())
            },
            None => Err(SbvcError::VersionNotFound(id)),
        }
    }

    /// Renames the current version in place; identifiers, scripts and every
    /// reconstructed content stay as they were.
    #[verifier::rlimit(60)]
    pub fn rename(&mut self, name: &[u8])
        requires
            old(self).wf(),
        ensures
            final(self).wf(),
            final(self).path@ == old(self).path@,
            final(self).file@ == old(self).file@,
            final(self).next == old(self).next,
            final(self).current == old(self).current,
            final(self).versions@.len() == old(self).versions@.len(),
            forall|i: int| 0 <= i < old(self).versions@.len() && i != old(self).current as int
                ==> final(self).versions@[i] == old(self).versions@[i],
            final(self).versions@[old(self).current as int].name@ == name@,
            final(self).versions@[old(self).current as int].id
                == old(self).versions@[old(self).current as int].id,
            final(self).versions@[old(self).current as int].base
                == old(self).versions@[old(self).current as int].base,
            final(self).versions@[old(self).current as int].date
                == old(self).versions@[old(self).current as int].date,
            final(self).versions@[old(self).current as int].difference
                == old(self).versions@[old(self).current as int].difference,
            forall|i: int| 0 <= i < old(self).versions@.len()
                ==> content_at(final(self).versions@, i) == content_at(old(self).versions@, i),
    {
        let ghost vs0 = self.versions@;
        let c = self.current;
        let v = vstd::std_specs::vec::vec_index_mut(&mut self.versions, c);
        v.name.clear();
        v.name.extend_from_slice(name);
        proof {
            let vs1 = self.versions@;
            assert(vs1 == vs0.update(c as int, vs1[c as int]));
            lemma_update_same_links(vs0, c as int, vs1[c as int], self.next);
        }
    }

    /// Deletes the current version and its whole subtree, then makes the
    /// deleted version's parent current.  Deleting the root is refused: the
    /// tree is left untouched.  The root itself is never removed.
    #[verifier::rlimit(100)]
    pub fn delete(&mut self)
        requires
            old(self).wf(),
        ensures
            final(self).wf(),
            final(self).path@ == old(self).path@,
            final(self).file@ == old(self).file@,
            final(self).next == old(self).next,
            final(self).versions@[0] == old(self).versions@[0],
            final(self).versions@.len() >= 1,
            old(self).current == 0 ==> final(self).versions@ == old(self).versions@
                && final(self).current == old(self).current,
            old(self).current != 0 ==> {
                &&& final(self).versions@ == surviving_from(
                    old(self).versions@,
                    old(self).current as int,
                    0,
                )
                &&& final(self).current as int == find_id(
                    final(self).versions@,
                    old(self).versions@[old(self).current as int].base,
                )
            },
            forall|id: u32| #![trigger find_id(final(self).versions@, id)]
                find_id(final(self).versions@, id) != -1 ==> find_id(old(self).versions@, id)
                    != -1 && content_at(
                    final(self).versions@,
                    find_id(final(self).versions@, id),
                ) == content_at(old(self).versions@, find_id(old(self).versions@, id)),
    {
        let cur = self.current;
        if cur == 0 {
            return;
        }
        let new_cur_id = self.versions[cur].base;
        let ghost orig = self.versions@;
        let ghost next0 = self.next;
        proof {
            assert(orig[cur as int].base != orig[cur as int].id) by {
                assert(find_id(orig, orig[cur as int].id) == cur as int);
                assert(0 <= find_id(orig, orig[cur as int].base) < cur as int);
            }
        }
        let mut i: usize = self.versions.len();
        while i > cur
            invariant
                versions_wf(orig, next0),
                1 <= cur <= i <= orig.len(),
                cur < orig.len(),
                self.current == cur,
                self.next == next0,
                self.path@ == old(self).path@,
                self.file@ == old(self).file@,
                versions_wf(self.versions@, next0),
                self.versions@ == orig.subrange(0, i as int) + surviving_from(orig, cur as int, i as int),
            decreases i,
        {
            i = i - 1;
            let ghost vs_before = self.versions@;
            proof {
                // the prefix up to and including `i` is still the original
                assert(vs_before.subrange(0, i + 1) =~= orig.subrange(0, i + 1));
                assert(vs_before.len() == i + 1 + surviving_from(orig, cur as int, i + 1).len());
            }
            let desc = is_descendant(&self.versions, i, cur, Ghost(orig), Ghost(next0));
            if desc {
                proof {
                    lemma_no_parent_at_removed(orig, next0, cur as int, i as int, vs_before);
                    lemma_remove_keeps_shape(vs_before, next0, i as int);
                }
                self.versions.remove(i);
                proof {
                    assert(self.versions@ =~= orig.subrange(0, i as int)
                        + surviving_from(orig, cur as int, i as int));
                }
            } else {
                proof {
                    assert(orig.subrange(0, i + 1) =~= orig.subrange(0, i as int)
                        + seq![orig[i as int]]);
                    assert(self.versions@ =~= orig.subrange(0, i as int)
                        + surviving_from(orig, cur as int, i as int));
                }
            }
        }
        proof {
            lemma_surviving_prefix(orig, cur as int, 0);
            assert(orig.subrange(0, cur as int) + surviving_from(orig, cur as int, cur as int)
                =~= surviving_from(orig, cur as int, 0));
            assert(self.versions@ == surviving_from(orig, cur as int, 0));
            // the deleted version's parent survived in place
            let p0 = find_id(orig, new_cur_id);
            assert(0 <= p0 < cur as int);
            assert(self.versions@[p0] == orig[p0]);
            lemma_find_id(orig, new_cur_id);
            assert forall|k: int| 0 <= k < p0 implies (#[trigger] self.versions@[k]).id != new_cur_id by {
                assert(self.versions@[k] == orig[k]);
            }
            lemma_find_id_is(self.versions@, new_cur_id, p0);
        }
        match self.version(new_cur_id) {
            Some(p) => {
                self.current = p;
            },
            None => {
                proof {
                    assert(false);
                }
            },
        }
        proof {
            assert(self.versions@[0] == orig[0]);
            // the survivors keep their contents: every kept record also
            // occurs in the original tree
            let kept = self.versions@;
            lemma_surviving_membership(orig, cur as int, 0);
            assert forall|k: int| 0 <= k < kept.len() implies exists|j: int|
                #![trigger orig[j]]
                0 <= j < orig.len() && (#[trigger] kept[k]) == orig[j] by {
                assert(kept[k] == surviving_from(orig, cur as int, 0)[k]);
            }
            assert forall|id: u32| #![trigger find_id(kept, id)] find_id(kept, id) != -1 implies
                find_id(orig, id) != -1 && content_at(kept, find_id(kept, id)) == content_at(
                orig,
                find_id(orig, id),
            ) by {
                lemma_find_id(kept, id);
                let fi = find_id(kept, id);
                lemma_content_preserved(orig, kept, next0, fi);
                assert(kept[fi].id == id);
            }
        }
    }

    /// Returns whether `content` differs from the current version's content.
    pub fn is_changed(&self, content: &[u8]) -> (r: bool)
        requires
            self.wf(),
        ensures
            r == (content@ != content_at(self.versions@, self.current as int)),
    {
        let d = self.data(self.current);
        !crate::edit::bytes_eq(content, d.as_slice())
    }

    /// Returns the path of the file holding the stored tree.
    pub fn path(&self) -> (r: &Vec<u8>)
        ensures
            r@ == self.path@,
    {
        &self.path
    }

    /// Returns the path of the tracked file.
    pub fn file(&self) -> (r: &Vec<u8>)
        ensures
            r@ == self.file@,
    {
        &self.file
    }

    /// Sets the tracked file for this version tree.
    pub fn set_file(&mut self, file: Vec<u8>)
        requires
            old(self).wf(),
        ensures
            final(self).wf(),
            final(self).file@ == file@,
            final(self).path@ == old(self).path@,
            final(self).current == old(self).current,
            final(self).next == old(self).next,
            final(self).versions@ == old(self).versions@,
    {
        self.file = file;
    }

    /// Returns a reference to the current version.
    pub fn current(&self) -> (r: &Version)
        requires
            self.wf(),
        ensures
            *r == self.versions@[self.current as int],
    {
        &self.versions[self.current]
    }

    /// Returns all versions, root first.
    pub fn versions(&self) -> (r: &Vec<Version>)
        ensures
            r@ == self.versions@,
    {
        &self.versions
    }

    /// Returns the index of the version with identifier `id`.
    pub fn version(&self, id: u32) -> (r: Option<usize>)
        ensures
            r matches Some(idx) ==> 0 <= find_id(self.versions@, id) == idx as int,
            r is None ==> find_id(self.versions@, id) == -1,
    {
        find_in(&self.versions, id)
    }

    /// Reconstructs the content of the version at `index` by composing the
    /// scripts on the path from the root down.  Recomputes on every call:
    /// with no intervening mutation, two calls return the same bytes.
    pub fn data(&self, index: usize) -> (r: Vec<u8>)
        requires
            self.wf(),
            index < self.versions@.len(),
        ensures
            r@ == content_at(self.versions@, index as int),
        decreases index,
    {
        let v = &self.versions[index];
        if v.id != v.base {
            match self.version(v.base) {
                Some(pi) => {
                    proof {
                        assert(self.versions@[index as int] == *v);
                        assert(0 <= find_id(self.versions@, v.base) < index as int);
                    }
                    let parent = self.data(pi);
                    v.difference.patched(parent.as_slice())
                },
                None => {
                    proof {
                        assert(self.versions@[index as int] == *v);
                        assert(false);
                    }
                    Vec::new()
                },
            }
        } else {
            Vec::new()
        }
    }
}

} // verus!
