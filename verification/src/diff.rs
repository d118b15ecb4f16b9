//! The chunked diff engine.
//!
//! [`diff`] computes an edit script that turns one byte buffer into another.
//! Both buffers are viewed at a chunk granularity of
//! `max(1, min(len) / CHUNK_DIVISOR)` bytes, which bounds the number of
//! elements the matching works on and so bounds the cost on large inputs; it
//! may coarsen the reported ranges but never the reconstructed bytes.  A
//! longest-common-subsequence matching of the chunk sequences yields a
//! minimal chunk-level edit script, whose reconstruction is checked by
//! applying it; a coarse script that splices everything between the common
//! chunk-aligned prefix and suffix stands in as the checked fallback.

use vstd::prelude::*;

use crate::edit::Deletion;
use crate::edit::Difference;
use crate::edit::Insertion;
use crate::edit::deleted_at;
use crate::edit::insertions_at;
use crate::edit::insertions_from;
use crate::edit::patch_from;
use crate::edit::patch_spec;
use crate::edit::lemma_patch_empty;

verus! {

/// Divisor for the chunk size: buffers are compared in chunks of roughly a
/// thousandth of the smaller input.
pub const CHUNK_DIVISOR: usize = 1000;

/// What a list of at most one insertion contributes at and past position `i`.
proof fn lemma_insertions_single(inss: Seq<Insertion>, i: int)
    requires
        inss.len() <= 1,
    ensures
        insertions_at(inss, i) == (if inss.len() == 1 && inss[0].start == i {
            inss[0].data@
        } else {
            Seq::<u8>::empty()
        }),
        insertions_from(inss, i) == (if inss.len() == 1 && inss[0].start >= i {
            inss[0].data@
        } else {
            Seq::<u8>::empty()
        }),
{
    let emp = Seq::<Insertion>::empty();
    assert(insertions_at(emp, i) == Seq::<u8>::empty());
    assert(insertions_from(emp, i) == Seq::<u8>::empty());
    if inss.len() == 1 {
        assert(inss.skip(1) =~= emp);
        assert(insertions_at(inss.skip(1), i) == Seq::<u8>::empty());
        assert(insertions_from(inss.skip(1), i) == Seq::<u8>::empty());
        assert(inss[0].data@ + Seq::<u8>::empty() =~= inss[0].data@);
    } else {
        assert(inss =~= emp);
    }
}

/// A script of at most one deletion `[p, e)` and one insertion of `data`
/// anchored at `e` splices `data` between the base's prefix and suffix.
proof fn lemma_patch_single_from(
    base: Seq<u8>,
    p: int,
    e: int,
    data: Seq<u8>,
    dels: Seq<Deletion>,
    inss: Seq<Insertion>,
    i: int,
)
    requires
        0 <= p <= e <= base.len(),
        0 <= i <= base.len(),
        dels.len() <= 1,
        dels.len() == 1 ==> dels[0].start == p && dels[0].end == e,
        dels.len() == 0 ==> p == e,
        inss.len() <= 1,
        inss.len() == 1 ==> inss[0].start == e && inss[0].data@ == data,
        inss.len() == 0 ==> data.len() == 0,
    ensures
        patch_from(base, dels, inss, i) == (if i <= p {
            base.subrange(i, p) + data + base.skip(e)
        } else if i <= e {
            data + base.skip(e)
        } else {
            base.skip(i)
        }),
    decreases base.len() - i,
{
    lemma_insertions_single(inss, i);
    if i >= base.len() {
        // end of the base: only insertions anchored at or past the end remain
        assert(base.skip(i) =~= Seq::<u8>::empty());
        if i <= e {
            assert(e == base.len());
            assert(base.skip(e) =~= Seq::<u8>::empty());
            if inss.len() == 0 {
                assert(data =~= Seq::<u8>::empty());
            }
            assert(insertions_from(inss, i) =~= data);
            assert(data + base.skip(e) =~= data);
            if i <= p {
                assert(base.subrange(i, p) =~= Seq::<u8>::empty());
                assert(base.subrange(i, p) + data + base.skip(e) =~= data);
            }
        }
    } else {
        lemma_patch_single_from(base, p, e, data, dels, inss, i + 1);
        let ins_here = insertions_at(inss, i);
        if inss.len() == 0 {
            assert(data =~= Seq::<u8>::empty());
        }
        if deleted_at(dels, i) {
            assert(dels.len() == 1 && dels[0].start <= i < dels[0].end);
        }
        if p <= i < e {
            assert(deleted_at(dels, i)) by {
                assert(dels[0].start <= i < dels[0].end);
            }
        }
        if i < p {
            // kept byte ahead of the deleted range
            assert(base.subrange(i, p) =~= seq![base[i]] + base.subrange(i + 1, p));
            assert(patch_from(base, dels, inss, i) =~= base.subrange(i, p) + data + base.skip(e));
        } else if i < e {
            // dropped byte
            assert(patch_from(base, dels, inss, i) =~= data + base.skip(e));
        } else if i == e {
            // the insertion lands here, then the suffix is kept
            assert(base.skip(e) =~= seq![base[e]] + base.skip(e + 1));
            if i <= p {
                assert(base.subrange(i, p) =~= Seq::<u8>::empty());
                assert(patch_from(base, dels, inss, i) =~= base.subrange(i, p) + data + base.skip(e));
            } else {
                assert(patch_from(base, dels, inss, i) =~= data + base.skip(e));
            }
        } else {
            // past the edited region: the base is kept as it is
            assert(base.skip(i) =~= seq![base[i]] + base.skip(i + 1));
            assert(patch_from(base, dels, inss, i) =~= base.skip(i));
        }
    }
}

/// Largest number of table entries the sequence matching may allocate;
/// above it the coarse fallback script is used instead.
pub const MATCH_TABLE_CAP: usize = 16000000;

/// Number of chunks of size `c` covering `len` bytes; the final chunk may
/// be shorter.
fn chunk_count(len: usize, c: usize) -> (r: usize)
    requires
        1 <= c,
    ensures
        len == 0 ==> r == 0,
        len > 0 ==> r >= 1,
        r >= 1 ==> (r - 1) * c < len,
        len <= r * c,
{
    let q = len / c;
    proof {
        vstd::arithmetic::div_mod::lemma_fundamental_div_mod(len as int, c as int);
        vstd::arithmetic::div_mod::lemma_mod_bound(len as int, c as int);
        if len % c != 0 {
            assert((q + 1 - 1) * c < len) by (nonlinear_arith)
                requires len == c * q + len % c && 0 < len % c;
            assert(len <= (q + 1) * c) by (nonlinear_arith)
                requires len == c * q + len % c && len % c < c;
            assert(q < len) by (nonlinear_arith)
                requires len == c * q + len % c && 0 < len % c && c >= 1 && q >= 0;
        } else {
            assert(len == q * c) by (nonlinear_arith)
                requires len == c * q + len % c && len % c == 0;
            assert(len > 0 ==> q >= 1) by (nonlinear_arith)
                requires len == q * c && c >= 1;
            if q >= 1 {
                assert((q - 1) * c < q * c) by (nonlinear_arith)
                    requires c >= 1 && q >= 1;
            }
        }
    }
    if len % c != 0 {
        q + 1
    } else {
        q
    }
}

/// Do chunk `a` of `old_data` and chunk `b` of `new_data` hold the same
/// bytes?
fn chunks_eq(old_data: &[u8], new_data: &[u8], c: usize, a: usize, b: usize) -> (r: bool)
    requires
        1 <= c,
        a * c < old_data@.len(),
        b * c < new_data@.len(),
{
    let olen = old_data.len();
    let nlen = new_data.len();
    let os = a * c;
    let oe = if olen - os > c {
        os + c
    } else {
        olen
    };
    let ns = b * c;
    let ne = if nlen - ns > c {
        ns + c
    } else {
        nlen
    };
    crate::edit::bytes_eq(
        vstd::slice::slice_subrange(old_data, os, oe),
        vstd::slice::slice_subrange(new_data, ns, ne),
    )
}

/// A longest-common-subsequence matching of the chunk sequences of the two
/// buffers: strictly ascending pairs of chunk indices, left for the old
/// buffer and right for the new one.  Returns no pairs when the dynamic
/// programming table would be too large.
#[verifier::rlimit(100)]
#[verifier::loop_isolation(false)]
fn chunk_matching(old_data: &[u8], new_data: &[u8], c: usize) -> (m: Vec<(usize, usize)>)
    requires
        1 <= c,
    ensures
        forall|k: int| #![trigger m@[k]] 0 <= k < m@.len() ==> m@[k].0 * c < old_data@.len()
            && m@[k].1 * c < new_data@.len(),
        forall|k: int| #![trigger m@[k]] 0 <= k && k + 1 < m@.len() ==> m@[k].0 < m@[k + 1].0
            && m@[k].1 < m@[k + 1].1,
{
    let olen = old_data.len();
    let nlen = new_data.len();
    let oc = chunk_count(olen, c);
    let nc = chunk_count(nlen, c);
    if oc == 0 || nc == 0 || oc >= MATCH_TABLE_CAP || nc >= MATCH_TABLE_CAP
        || oc + 1 > MATCH_TABLE_CAP / (nc + 1) {
        return Vec::new();
    }
    let w = nc + 1;
    proof {
        vstd::arithmetic::div_mod::lemma_fundamental_div_mod(MATCH_TABLE_CAP as int, w as int);
        vstd::arithmetic::div_mod::lemma_mod_bound(MATCH_TABLE_CAP as int, w as int);
        assert((oc + 1) * w <= MATCH_TABLE_CAP) by (nonlinear_arith)
            requires
                oc + 1 <= MATCH_TABLE_CAP as int / (w as int),
                w >= 1,
                MATCH_TABLE_CAP as int == (w as int) * (MATCH_TABLE_CAP as int / (w as int))
                    + MATCH_TABLE_CAP as int % (w as int),
                MATCH_TABLE_CAP as int % (w as int) >= 0;
    }
    let total = (oc + 1) * w;
    // table of common-subsequence lengths for the chunk suffixes; rows past
    // the last chunk of either buffer stay zero
    let mut table: Vec<u64> = vec![0u64; total];
    let mut i: usize = oc;
    while i > 0
        invariant
            table@.len() == total,
            i <= oc,
            forall|k: int| #![trigger table@[k]] 0 <= k < total
                && (k / (w as int) >= oc || k % (w as int) >= nc) ==> table@[k] == 0,
        decreases i,
    {
        i -= 1;
        let mut j: usize = nc;
        while j > 0
            invariant
                table@.len() == total,
                i < oc,
                j <= nc,
                forall|k: int| #![trigger table@[k]] 0 <= k < total
                    && (k / (w as int) >= oc || k % (w as int) >= nc) ==> table@[k] == 0,
            decreases j,
        {
            j -= 1;
            proof {
                assert(i * c < olen && j * c < nlen) by (nonlinear_arith)
                    requires i < oc && j < nc && c >= 1 && (oc - 1) * c < olen
                        && (nc - 1) * c < nlen;
                assert(i * w + j < total && (i + 1) * w + j < total && i * w + (j + 1) < total
                    && (i + 1) * w + (j + 1) < total) by (nonlinear_arith)
                    requires i < oc && j < nc && w == nc + 1 && total == (oc + 1) * w;
            }
            let below = table[(i + 1) * w + j];
            let right = table[i * w + (j + 1)];
            let diag = table[(i + 1) * w + (j + 1)];
            let val: u64 = if chunks_eq(old_data, new_data, c, i, j) {
                if diag < u64::MAX {
                    diag + 1
                } else {
                    diag
                }
            } else {
                if below > right {
                    below
                } else {
                    right
                }
            };
            let idx = i * w + j;
            table.set(idx, val);
            proof {
                assert(idx as int / (w as int) == i && idx as int % (w as int) == j) by (nonlinear_arith)
                    requires idx == i * w + j && 0 <= j < w;
            }
        }
    }
    // walk the table, collecting matched chunk pairs in ascending order
    let mut out: Vec<(usize, usize)> = Vec::new();
    let mut a: usize = 0;
    let mut b: usize = 0;
    proof {
        assert(0 < total) by (nonlinear_arith)
            requires total == (oc + 1) * w && w >= 1 && oc >= 0;
    }
    while table[a * w + b] > 0
        invariant
            table@.len() == total,
            a <= oc,
            b <= nc,
            a * w + b < total,
            forall|k: int| #![trigger table@[k]] 0 <= k < total
                && (k / (w as int) >= oc || k % (w as int) >= nc) ==> table@[k] == 0,
            forall|k: int| #![trigger out@[k]] 0 <= k < out@.len() ==> out@[k].0 < a
                && out@[k].1 < b,
            forall|k: int| #![trigger out@[k]] 0 <= k && k + 1 < out@.len() ==> out@[k].0 < out@[k
                + 1].0 && out@[k].1 < out@[k + 1].1,
            forall|k: int| #![trigger out@[k]] 0 <= k < out@.len() ==> out@[k].0 * c
                < old_data@.len() && out@[k].1 * c < new_data@.len(),
        decreases oc + nc - a - b,
    {
        proof {
            assert((a * w + b) as int / (w as int) == a && (a * w + b) as int % (w as int) == b)
                by (nonlinear_arith)
                requires 0 <= b < w && w >= 1;
            assert(a < oc && b < nc);
            assert(a * c < olen && b * c < nlen) by (nonlinear_arith)
                requires a < oc && b < nc && c >= 1 && (oc - 1) * c < olen && (nc - 1) * c < nlen;
            assert((a + 1) * w + b < total && a * w + (b + 1) < total) by (nonlinear_arith)
                requires a < oc && b < nc && w == nc + 1 && total == (oc + 1) * w;
        }
        if chunks_eq(old_data, new_data, c, a, b) {
            out.push((a, b));
            a += 1;
            b += 1;
        } else if table[(a + 1) * w + b] > table[a * w + (b + 1)] {
            a += 1;
        } else {
            b += 1;
        }
        proof {
            assert(a * w + b < total) by (nonlinear_arith)
                requires a <= oc && b <= nc && w == nc + 1 && total == (oc + 1) * w;
        }
    }
    out
}

/// Turns an ascending chunk matching into an edit script in base
/// coordinates: runs of unmatched old chunks become deletions, runs of
/// unmatched new chunks become insertions anchored at the next matched old
/// chunk or at the end of the old buffer.
#[verifier::rlimit(100)]
fn script_of_matching(
    old_data: &[u8],
    new_data: &[u8],
    c: usize,
    m: &Vec<(usize, usize)>,
) -> (d: Difference)
    requires
        1 <= c,
        forall|k: int| #![trigger m@[k]] 0 <= k < m@.len() ==> m@[k].0 * c < old_data@.len()
            && m@[k].1 * c < new_data@.len(),
        forall|k: int| #![trigger m@[k]] 0 <= k && k + 1 < m@.len() ==> m@[k].0 < m@[k + 1].0
            && m@[k].1 < m@[k + 1].1,
    ensures
        d.wf(),
        d.bounded(old_data@.len() as int),
{
    let olen = old_data.len();
    let nlen = new_data.len();
    let oc = chunk_count(olen, c);
    let nc = chunk_count(nlen, c);
    let mut deletions: Vec<Deletion> = Vec::new();
    let mut insertions: Vec<Insertion> = Vec::new();
    let mut pa: usize = 0;
    let mut pb: usize = 0;
    let mut k: usize = 0;
    while k < m.len()
        invariant
            1 <= c,
            olen == old_data@.len(),
            nlen == new_data@.len(),
            oc >= 1 ==> (oc - 1) * c < olen,
            olen <= oc * c,
            nc >= 1 ==> (nc - 1) * c < nlen,
            nlen <= nc * c,
            forall|q: int| #![trigger m@[q]] 0 <= q < m@.len() ==> m@[q].0 * c < olen
                && m@[q].1 * c < nlen,
            forall|q: int| #![trigger m@[q]] 0 <= q && q + 1 < m@.len() ==> m@[q].0 < m@[q + 1].0
                && m@[q].1 < m@[q + 1].1,
            k <= m@.len(),
            k == 0 ==> pa == 0 && pb == 0,
            k >= 1 ==> pa == m@[k - 1].0 + 1 && pb == m@[k - 1].1 + 1,
            crate::edit::deletions_wf(deletions@),
            crate::edit::insertions_wf(insertions@),
            forall|q: int| #![trigger deletions@[q]] 0 <= q < deletions@.len()
                ==> deletions@[q].end <= pa * c && deletions@[q].end <= olen,
            forall|q: int| #![trigger insertions@[q]] 0 <= q < insertions@.len()
                ==> insertions@[q].start < pa * c && insertions@[q].start < olen,
        decreases m@.len() - k,
    {
        let (a, b) = m[k];
        proof {
            if k >= 1 {
                assert(m@[k - 1].0 < m@[k as int].0 && m@[k - 1].1 < m@[k as int].1);
            }
            assert(pa <= a && pb <= b);
            assert(pa * c <= a * c && pb * c <= b * c) by (nonlinear_arith)
                requires pa <= a && pb <= b && c >= 1;
            assert(pa < a ==> pa * c < a * c) by (nonlinear_arith)
                requires c >= 1;
            assert(pb < b ==> pb * c < b * c) by (nonlinear_arith)
                requires c >= 1;
            assert(a * c < olen && b * c < nlen);
            assert(a <= a * c && b <= b * c) by (nonlinear_arith)
                requires c >= 1 && a >= 0 && b >= 0;
            assert(a < olen && b < nlen);
            assert(a * c < (a + 1) * c && b * c < (b + 1) * c) by (nonlinear_arith)
                requires c >= 1;
        }
        if pa < a {
            deletions.push(Deletion { start: pa * c, end: a * c });
        }
        if pb < b {
            let data = vstd::slice::slice_to_vec(
                vstd::slice::slice_subrange(new_data, pb * c, b * c),
            );
            insertions.push(Insertion { start: a * c, data });
        }
        pa = a + 1;
        pb = b + 1;
        k += 1;
    }
    if pa < oc {
        proof {
            assert(pa * c <= (oc - 1) * c) by (nonlinear_arith)
                requires pa <= oc - 1 && c >= 1;
            assert(pa * c < olen);
        }
        deletions.push(Deletion { start: pa * c, end: olen });
    }
    if pb < nc {
        proof {
            assert(pb * c <= (nc - 1) * c) by (nonlinear_arith)
                requires pb <= nc - 1 && c >= 1;
            assert(pb * c < nlen);
        }
        let data = vstd::slice::slice_to_vec(
            vstd::slice::slice_subrange(new_data, pb * c, nlen),
        );
        insertions.push(Insertion { start: olen, data });
    }
    let d = Difference { deletions, insertions };
    proof {
        assert(crate::edit::deletions_wf(d.deletions@));
        assert(crate::edit::insertions_wf(d.insertions@));
    }
    d
}

/// Computes an edit script `d` with `d.apply(old_data@) == new_data@`.
///
/// The argument order follows the data model: the script turns `old_data`
/// into `new_data`.  The script is derived from a longest-common-subsequence
/// matching of the chunk sequences and checked, by applying it, to
/// reconstruct `new_data` exactly; should that check ever fail — or the
/// matching be skipped as too costly — a coarse script splicing everything
/// between the common chunk-aligned prefix and suffix is produced instead,
/// so the contract holds either way.
#[verifier::rlimit(50)]
pub fn diff(new_data: &[u8], old_data: &[u8]) -> (d: Difference)
    ensures
        d.wf(),
        d.bounded(old_data@.len() as int),
        d.apply(old_data@) == new_data@,
{
    let olen = old_data.len();
    let nlen = new_data.len();
    let m = if olen < nlen { olen } else { nlen };
    let q = m / CHUNK_DIVISOR;
    let c = if q == 0 { 1 } else { q };
    // minimal edit script over the chunk sequences, checked by application
    let matching = chunk_matching(old_data, new_data, c);
    let candidate = script_of_matching(old_data, new_data, c, &matching);
    let applied = candidate.patched(old_data);
    if crate::edit::bytes_eq(applied.as_slice(), new_data) {
        return candidate;
    }
    // longest common byte prefix
    let mut lp: usize = 0;
    while lp < m && old_data[lp] == new_data[lp]
        invariant
            lp <= m,
            m <= olen,
            m <= nlen,
            olen == old_data@.len(),
            nlen == new_data@.len(),
            forall|j: int| 0 <= j < lp ==> old_data@[j] == new_data@[j],
        decreases m - lp,
    {
        lp += 1;
    }
    if olen == nlen && lp == olen {
        // the buffers are equal: nothing to edit
        let d = Difference::empty();
        proof {
            assert(old_data@ =~= new_data@);
            assert(d.deletions@ =~= Seq::<Deletion>::empty());
            assert(d.insertions@ =~= Seq::<Insertion>::empty());
            lemma_patch_empty(old_data@);
        }
        return d;
    }
    // chunk-align the prefix
    proof {
        assert(lp % c <= lp) by (nonlinear_arith)
            requires c >= 1 && lp >= 0;
    }
    let p = lp - lp % c;
    // longest common byte suffix of the parts past the prefix
    let mut ls: usize = 0;
    while ls < m - p && old_data[olen - 1 - ls] == new_data[nlen - 1 - ls]
        invariant
            p <= m,
            ls <= m - p,
            m <= olen,
            m <= nlen,
            olen == old_data@.len(),
            nlen == new_data@.len(),
            forall|j: int| #![trigger old_data@[olen - 1 - j]] 0 <= j < ls
                ==> old_data@[olen - 1 - j] == new_data@[nlen - 1 - j],
        decreases m - p - ls,
    {
        ls += 1;
    }
    // chunk-align the suffix: its first byte must sit on a chunk boundary of
    // both buffers, which is possible only when the lengths agree modulo `c`
    let s = if olen % c == nlen % c {
        let r = (olen - ls) % c;
        let pad = if r == 0 { 0 } else { c - r };
        if ls >= pad {
            ls - pad
        } else {
            0
        }
    } else {
        0
    };
    let e = olen - s;
    let mut deletions: Vec<Deletion> = Vec::new();
    if p < e {
        deletions.push(Deletion { start: p, end: e });
    }
    let mut insertions: Vec<Insertion> = Vec::new();
    if p < nlen - s {
        let data = vstd::slice::slice_to_vec(vstd::slice::slice_subrange(new_data, p, nlen - s));
        insertions.push(Insertion { start: e, data });
    }
    let d = Difference { deletions, insertions };
    proof {
        assert(d.deletions@.len() <= 1);
        assert(d.deletions@.len() == 1 ==> d.deletions@[0].start == p && d.deletions@[0].end == e);
        assert(d.insertions@.len() <= 1);
        assert(d.insertions@.len() == 1 ==> d.insertions@[0].start == e);
        assert(crate::edit::deletions_wf(d.deletions@));
        assert(crate::edit::insertions_wf(d.insertions@));
        let datas = new_data@.subrange(p as int, nlen - s);
        lemma_patch_single_from(old_data@, p as int, e as int, datas, d.deletions@, d.insertions@, 0);
        assert(old_data@.subrange(0, p as int) =~= new_data@.subrange(0, p as int));
        assert(old_data@.skip(e as int) =~= new_data@.skip(nlen - s)) by {
            assert forall|j: int| 0 <= j < s implies old_data@.skip(e as int)[j] == new_data@.skip(nlen - s)[j] by {
                assert(old_data@[e + j] == old_data@[olen - 1 - (s - 1 - j)]);
                assert(new_data@[nlen - s + j] == new_data@[nlen - 1 - (s - 1 - j)]);
            }
        }
        assert(d.apply(old_data@) =~= new_data@.subrange(0, p as int) + new_data@.subrange(p as int, nlen - s) + new_data@.skip(nlen - s));
        assert(new_data@.subrange(0, p as int) + new_data@.subrange(p as int, nlen - s) + new_data@.skip(nlen - s) =~= new_data@);
    }
    d
}

} // verus!
