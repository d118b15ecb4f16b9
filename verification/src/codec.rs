//! The flat on-disk encoding of a whole version tree.
//!
//! The stored file is a nested list of byte-string cells.  A cell is its
//! content wrapped in delimiter runs: `|…|`, `/…\` or `\…/`, the run made
//! one longer than any run of the closing delimiter inside the content, so
//! the content needs no escaping; the empty cell is `/\`.  Cells at one
//! nesting level are separated by newlines, and a cell's content may itself
//! be such a list.  The top level holds the tracked-file path, the current
//! version's identifier, the next free identifier, and the list of versions;
//! each version holds its identifier, its parent's identifier, a metadata
//! list (name and creation date), its deletions and its insertions; numbers
//! are decimal ASCII.

use vstd::prelude::*;

use crate::edit::Deletion;
use crate::edit::Difference;
use crate::edit::Insertion;
use crate::error::FormatField;
use crate::error::SbvcError;
use crate::error::SbvcResult;
use crate::tree::Sbvc;
use crate::version::Version;

verus! {

/// `|`, the symmetric delimiter.
pub const PIPE: u8 = 124;

/// `/`, which opens a forward cell and closes a backward cell.
pub const FWD: u8 = 47;

/// `\`, which opens a backward cell and closes a forward cell.
pub const BWD: u8 = 92;

/// The newline that separates cells of one list.
pub const NL: u8 = 10;

/// Is `c` one of the three delimiter bytes?
pub open spec fn is_delim(c: u8) -> bool {
    c == PIPE || c == FWD || c == BWD
}

/// The closing delimiter matching an opening one.
pub open spec fn close_of(open: u8) -> u8 {
    if open == PIPE {
        PIPE
    } else if open == FWD {
        BWD
    } else {
        FWD
    }
}

/// Scans the tail of `s` from `i`, carrying the best and the current run of
/// `c`; returns the length of the longest run of `c` in all of `s` when
/// started with the runs seen so far.
pub open spec fn longest_run_from(s: Seq<u8>, c: u8, i: int, best: nat, cur: nat) -> nat
    decreases s.len() - i,
{
    if i < 0 || i >= s.len() {
        best
    } else if s[i] == c {
        longest_run_from(s, c, i + 1, if cur + 1 > best { cur + 1 } else { best }, cur + 1)
    } else {
        longest_run_from(s, c, i + 1, best, 0)
    }
}

/// The length of the longest run of `c` in `s`.
pub open spec fn longest_run(s: Seq<u8>, c: u8) -> nat {
    longest_run_from(s, c, 0, 0, 0)
}

/// `c` repeated `n` times.
pub open spec fn spec_run(n: nat, c: u8) -> Seq<u8> {
    Seq::new(n, |i: int| c)
}

/// The opening delimiter chosen for a non-empty content: the first of
/// `|…|`, `/…\`, `\…/` whose delimiters collide with neither the first nor
/// the last content byte.
pub open spec fn cell_open(s: Seq<u8>) -> u8 {
    if s[0] != PIPE && s[s.len() - 1] != PIPE {
        PIPE
    } else if s[0] != FWD && s[s.len() - 1] != BWD {
        FWD
    } else {
        BWD
    }
}

/// The encoding of one cell: the content in delimiter runs one longer than
/// any internal run of the closing delimiter; `/\` for empty content.
pub open spec fn spec_cell(s: Seq<u8>) -> Seq<u8> {
    if s.len() == 0 {
        seq![FWD, BWD]
    } else {
        let o = cell_open(s);
        let c = close_of(o);
        let n = longest_run(s, c) + 1;
        spec_run(n, o) + s + spec_run(n, c)
    }
}

/// A cell followed by the newline that separates it from the next one.
pub open spec fn spec_entry(s: Seq<u8>) -> Seq<u8> {
    spec_cell(s) + seq![NL]
}

/// The decimal digits of `n`, most significant first.
pub open spec fn spec_digits(n: nat) -> Seq<u8>
    decreases n,
{
    if n < 10 {
        seq![(48 + n) as u8]
    } else {
        spec_digits(n / 10) + seq![(48 + n % 10) as u8]
    }
}

/// Is `s` a non-empty string of decimal digits?
pub open spec fn all_digits(s: Seq<u8>) -> bool {
    s.len() > 0 && forall|i: int| 0 <= i < s.len() ==> 48 <= #[trigger] s[i] <= 57
}

/// The number the digit string `s` denotes.
pub open spec fn digits_val(s: Seq<u8>) -> nat
    decreases s.len(),
{
    if s.len() == 0 {
        0
    } else {
        digits_val(s.take(s.len() - 1)) * 10 + (if s[s.len() - 1] >= 48 {
            (s[s.len() - 1] - 48) as nat
        } else {
            0
        })
    }
}

/// The length of the longest run of `c` in `s`, by one scan.
fn longest_run_exec(s: &[u8], c: u8) -> (r: usize)
    requires
        s@.len() < usize::MAX,
    ensures
        r == longest_run(s@, c),
        r <= s@.len(),
{
    let n = s.len();
    let mut best: usize = 0;
    let mut cur: usize = 0;
    let mut i: usize = 0;
    while i < n
        invariant
            n == s@.len(),
            n < usize::MAX,
            i <= n,
            cur <= i,
            best <= i,
            longest_run(s@, c) == longest_run_from(s@, c, i as int, best as nat, cur as nat),
        decreases n - i,
    {
        if s[i] == c {
            cur = cur + 1;
            if cur > best {
                best = cur;
            }
        } else {
            cur = 0;
        }
        i += 1;
    }
    best
}

/// Appends `n` copies of `c` to `out`.
fn push_run(out: &mut Vec<u8>, n: usize, c: u8)
    ensures
        final(out)@ == old(out)@ + spec_run(n as nat, c),
{
    let ghost out0 = out@;
    let mut k: usize = 0;
    while k < n
        invariant
            k <= n,
            out@ == out0 + spec_run(k as nat, c),
        decreases n - k,
    {
        out.push(c);
        proof {
            assert(out@ =~= out0 + spec_run((k + 1) as nat, c));
        }
        k += 1;
    }
}

/// Appends the encoding of one cell with content `s` to `out`.
fn push_cell(out: &mut Vec<u8>, s: &[u8])
    requires
        s@.len() < usize::MAX - 1,
    ensures
        final(out)@ == old(out)@ + spec_cell(s@),
{
    let ghost out0 = out@;
    if s.len() == 0 {
        out.push(FWD);
        out.push(BWD);
        proof {
            assert(out@ =~= out0 + spec_cell(s@));
        }
        return;
    }
    let first = s[0];
    let last = s[s.len() - 1];
    let o: u8 = if first != PIPE && last != PIPE {
        PIPE
    } else if first != FWD && last != BWD {
        FWD
    } else {
        BWD
    };
    let c: u8 = if o == PIPE {
        PIPE
    } else if o == FWD {
        BWD
    } else {
        FWD
    };
    proof {
        assert(o == cell_open(s@));
        assert(c == close_of(o));
    }
    let n = longest_run_exec(s, c) + 1;
    push_run(out, n, o);
    out.extend_from_slice(s);
    push_run(out, n, c);
    proof {
        assert(out@ =~= out0 + spec_cell(s@));
    }
}

/// Appends one cell and its separating newline to `out`.
fn push_entry(out: &mut Vec<u8>, s: &[u8])
    requires
        s@.len() < usize::MAX - 1,
    ensures
        final(out)@ == old(out)@ + spec_entry(s@),
{
    let ghost out0 = out@;
    push_cell(out, s);
    out.push(NL);
    proof {
        assert(out@ =~= out0 + spec_entry(s@));
    }
}

/// The decimal digits of `n`, most significant first.
fn u64_digits(n: u64) -> (r: Vec<u8>)
    ensures
        r@ == spec_digits(n as nat),
    decreases n,
{
    if n < 10 {
        let mut v: Vec<u8> = Vec::new();
        v.push(48 + (n as u8));
        proof {
            assert(v@ =~= spec_digits(n as nat));
        }
        v
    } else {
        let mut v = u64_digits(n / 10);
        v.push(48 + ((n % 10) as u8));
        proof {
            assert(v@ =~= spec_digits(n as nat));
        }
        v
    }
}

/// The value of `s` as a decimal number: `Some` exactly when `s` is all
/// digits, is not empty, and fits in a `u64`.
fn parse_u64(s: &[u8]) -> (r: Option<u64>)
    ensures
        r is Some <==> all_digits(s@) && digits_val(s@) <= u64::MAX,
        r matches Some(v) ==> v as nat == digits_val(s@),
{
    let n = s.len();
    if n == 0 {
        return None;
    }
    let mut acc: u64 = 0;
    let mut i: usize = 0;
    while i < n
        invariant
            n == s@.len(),
            0 < n,
            i <= n,
            forall|j: int| 0 <= j < i ==> 48 <= #[trigger] s@[j] <= 57,
            acc as nat == digits_val(s@.take(i as int)),
        decreases n - i,
    {
        let ghost pre = s@.take(i as int);
        let b = s[i];
        if b < 48 || b > 57 {
            return None;
        }
        let d = (b - 48) as u64;
        if acc > (u64::MAX - d) / 10 {
            // the value no longer fits: later digits only enlarge it
            proof {
                assert(acc * 10 + d > u64::MAX) by (nonlinear_arith)
                    requires acc > (u64::MAX - d) / 10 && d <= 9 && acc <= u64::MAX;
                assert(s@.take(i + 1).take(i as int) =~= pre);
                assert(digits_val(s@.take(i + 1)) > u64::MAX);
                lemma_digits_val_grows(s@, i + 1);
                assert(s@.take(s@.len() as int) =~= s@);
            }
            return None;
        }
        proof {
            assert(acc * 10 + d <= u64::MAX) by (nonlinear_arith)
                requires acc <= (u64::MAX - d) / 10 && d <= 9;
        }
        acc = acc * 10 + d;
        proof {
            assert(s@.take(i + 1).take(i as int) =~= pre);
            assert(acc as nat == digits_val(s@.take(i + 1)));
        }
        i += 1;
    }
    proof {
        assert(s@.take(n as int) =~= s@);
    }
    Some(acc)
}

/// The content of a deletion's cell: its start entry then its end entry.
pub open spec fn spec_deletion_cell(d: Deletion) -> Seq<u8> {
    spec_entry(spec_digits(d.start as nat)) + spec_entry(spec_digits(d.end as nat))
}

/// The list of deletion cells of one version.
pub open spec fn spec_deletions_blob(dels: Seq<Deletion>) -> Seq<u8>
    decreases dels.len(),
{
    if dels.len() == 0 {
        Seq::empty()
    } else {
        spec_entry(spec_deletion_cell(dels[0])) + spec_deletions_blob(dels.skip(1))
    }
}

/// The content of an insertion's cell: its start entry then its raw payload.
pub open spec fn spec_insertion_cell(ins: Insertion) -> Seq<u8> {
    spec_entry(spec_digits(ins.start as nat)) + spec_entry(ins.data@)
}

/// The list of insertion cells of one version.
pub open spec fn spec_insertions_blob(inss: Seq<Insertion>) -> Seq<u8>
    decreases inss.len(),
{
    if inss.len() == 0 {
        Seq::empty()
    } else {
        spec_entry(spec_insertion_cell(inss[0])) + spec_insertions_blob(inss.skip(1))
    }
}

/// The metadata of one version: its name entry then its date entry.
pub open spec fn spec_meta_blob(v: Version) -> Seq<u8> {
    spec_entry(v.name@) + spec_entry(spec_digits(v.date as nat))
}

/// The content of one version's cell: identifier, parent identifier,
/// metadata, deletions and insertions.
pub open spec fn spec_version_cell(v: Version) -> Seq<u8> {
    spec_entry(spec_digits(v.id as nat)) + spec_entry(spec_digits(v.base as nat)) + spec_entry(
        spec_meta_blob(v),
    ) + spec_entry(spec_deletions_blob(v.difference.deletions@)) + spec_entry(
        spec_insertions_blob(v.difference.insertions@),
    )
}

/// The list of version cells of the whole tree.
pub open spec fn spec_versions_blob(vs: Seq<Version>) -> Seq<u8>
    decreases vs.len(),
{
    if vs.len() == 0 {
        Seq::empty()
    } else {
        spec_entry(spec_version_cell(vs[0])) + spec_versions_blob(vs.skip(1))
    }
}

/// The whole stored file: tracked-file path, current identifier, next free
/// identifier, and the list of versions.
pub open spec fn spec_store(file: Seq<u8>, current_id: u32, next: u32, vs: Seq<Version>) -> Seq<
    u8,
> {
    spec_entry(file) + spec_entry(spec_digits(current_id as nat)) + spec_entry(
        spec_digits(next as nat),
    ) + spec_entry(spec_versions_blob(vs))
}

/// A cell is at least two bytes longer than its content, an entry three.
pub proof fn lemma_entry_len(s: Seq<u8>)
    ensures
        spec_cell(s).len() >= s.len() + 2,
        spec_entry(s).len() >= s.len() + 3,
        spec_entry(s).len() > s.len(),
{
}

/// Every version's entry fits inside the list of version cells.
pub proof fn lemma_versions_blob_len(vs: Seq<Version>, i: int)
    requires
        0 <= i < vs.len(),
    ensures
        spec_entry(spec_version_cell(vs[i])).len() <= spec_versions_blob(vs).len(),
    decreases vs.len(),
{
    if i == 0 {
    } else {
        lemma_versions_blob_len(vs.skip(1), i - 1);
        assert(vs.skip(1)[i - 1] == vs[i]);
    }
}

/// Every deletion's entry fits inside the list of deletion cells.
pub proof fn lemma_deletions_blob_len(dels: Seq<Deletion>, i: int)
    requires
        0 <= i < dels.len(),
    ensures
        spec_entry(spec_deletion_cell(dels[i])).len() <= spec_deletions_blob(dels).len(),
    decreases dels.len(),
{
    if i == 0 {
    } else {
        lemma_deletions_blob_len(dels.skip(1), i - 1);
        assert(dels.skip(1)[i - 1] == dels[i]);
    }
}

/// Every insertion's entry fits inside the list of insertion cells.
pub proof fn lemma_insertions_blob_len(inss: Seq<Insertion>, i: int)
    requires
        0 <= i < inss.len(),
    ensures
        spec_entry(spec_insertion_cell(inss[i])).len() <= spec_insertions_blob(inss).len(),
    decreases inss.len(),
{
    if i == 0 {
    } else {
        lemma_insertions_blob_len(inss.skip(1), i - 1);
        assert(inss.skip(1)[i - 1] == inss[i]);
    }
}

/// Builds the list of deletion cells of one version.
fn deletions_blob(dels: &Vec<Deletion>) -> (r: Vec<u8>)
    requires
        spec_deletions_blob(dels@).len() < usize::MAX,
    ensures
        r@ == spec_deletions_blob(dels@),
{
    let mut out: Vec<u8> = Vec::new();
    proof {
        assert(dels@.skip(0) =~= dels@);
        assert(out@ + spec_deletions_blob(dels@) =~= spec_deletions_blob(dels@));
    }
    let mut i: usize = 0;
    while i < dels.len()
        invariant
            i <= dels@.len(),
            spec_deletions_blob(dels@).len() < usize::MAX,
            out@ + spec_deletions_blob(dels@.skip(i as int)) == spec_deletions_blob(dels@),
        decreases dels@.len() - i,
    {
        let ghost rest = dels@.skip(i as int);
        let d = dels[i];
        let mut cell: Vec<u8> = Vec::new();
        let ds = u64_digits(d.start as u64);
        push_entry(&mut cell, ds.as_slice());
        let de = u64_digits(d.end as u64);
        proof {
            assert(rest[0] == d);
            assert(spec_entry(spec_deletion_cell(d)).len() <= spec_deletions_blob(rest).len()) by {
                lemma_deletions_blob_len(rest, 0);
            }
            assert(spec_deletions_blob(rest).len() <= spec_deletions_blob(dels@).len() - out@.len());
            lemma_entry_len(spec_deletion_cell(d));
            lemma_entry_len(spec_digits(d.end as nat));
        }
        push_entry(&mut cell, de.as_slice());
        proof {
            assert(cell@ =~= spec_deletion_cell(d));
        }
        push_entry(&mut out, cell.as_slice());
        proof {
            assert(rest.skip(1) =~= dels@.skip(i + 1));
            assert(out@ + spec_deletions_blob(dels@.skip(i + 1)) =~= spec_deletions_blob(dels@));
        }
        i += 1;
    }
    proof {
        assert(dels@.skip(dels@.len() as int) =~= Seq::<Deletion>::empty());
        assert(out@ =~= spec_deletions_blob(dels@));
    }
    out
}

/// Builds the list of insertion cells of one version.
fn insertions_blob(inss: &Vec<Insertion>) -> (r: Vec<u8>)
    requires
        spec_insertions_blob(inss@).len() < usize::MAX,
    ensures
        r@ == spec_insertions_blob(inss@),
{
    let mut out: Vec<u8> = Vec::new();
    proof {
        assert(inss@.skip(0) =~= inss@);
        assert(out@ + spec_insertions_blob(inss@) =~= spec_insertions_blob(inss@));
    }
    let mut i: usize = 0;
    while i < inss.len()
        invariant
            i <= inss@.len(),
            spec_insertions_blob(inss@).len() < usize::MAX,
            out@ + spec_insertions_blob(inss@.skip(i as int)) == spec_insertions_blob(inss@),
        decreases inss@.len() - i,
    {
        let ghost rest = inss@.skip(i as int);
        let ins = &inss[i];
        let mut cell: Vec<u8> = Vec::new();
        let ds = u64_digits(ins.start as u64);
        proof {
            assert(rest[0] == *ins);
            assert(spec_entry(spec_insertion_cell(*ins)).len() <= spec_insertions_blob(rest).len())
                by {
                lemma_insertions_blob_len(rest, 0);
            }
            assert(spec_insertions_blob(rest).len() <= spec_insertions_blob(inss@).len()
                - out@.len());
            lemma_entry_len(spec_insertion_cell(*ins));
            lemma_entry_len(ins.data@);
            lemma_entry_len(spec_digits(ins.start as nat));
        }
        push_entry(&mut cell, ds.as_slice());
        push_entry(&mut cell, ins.data.as_slice());
        proof {
            assert(cell@ =~= spec_insertion_cell(*ins));
        }
        push_entry(&mut out, cell.as_slice());
        proof {
            assert(rest.skip(1) =~= inss@.skip(i + 1));
            assert(out@ + spec_insertions_blob(inss@.skip(i + 1)) =~= spec_insertions_blob(inss@));
        }
        i += 1;
    }
    proof {
        assert(inss@.skip(inss@.len() as int) =~= Seq::<Insertion>::empty());
        assert(out@ =~= spec_insertions_blob(inss@));
    }
    out
}

/// Builds the cell content of one version.
fn version_cell(v: &Version) -> (r: Vec<u8>)
    requires
        spec_version_cell(*v).len() < usize::MAX,
    ensures
        r@ == spec_version_cell(*v),
{
    proof {
        lemma_entry_len(spec_digits(v.id as nat));
        lemma_entry_len(spec_digits(v.base as nat));
        lemma_entry_len(spec_meta_blob(*v));
        lemma_entry_len(v.name@);
        lemma_entry_len(spec_digits(v.date as nat));
        lemma_entry_len(spec_deletions_blob(v.difference.deletions@));
        lemma_entry_len(spec_insertions_blob(v.difference.insertions@));
    }
    let mut out: Vec<u8> = Vec::new();
    let ds = u64_digits(v.id as u64);
    push_entry(&mut out, ds.as_slice());
    let ds = u64_digits(v.base as u64);
    push_entry(&mut out, ds.as_slice());
    let mut meta: Vec<u8> = Vec::new();
    push_entry(&mut meta, v.name.as_slice());
    let ds = u64_digits(v.date);
    push_entry(&mut meta, ds.as_slice());
    proof {
        assert(meta@ =~= spec_meta_blob(*v));
    }
    push_entry(&mut out, meta.as_slice());
    let db = deletions_blob(&v.difference.deletions);
    push_entry(&mut out, db.as_slice());
    let ib = insertions_blob(&v.difference.insertions);
    push_entry(&mut out, ib.as_slice());
    proof {
        assert(out@ =~= spec_version_cell(*v));
    }
    out
}

/// Builds the list of version cells of the whole tree.
fn versions_blob(vs: &Vec<Version>) -> (r: Vec<u8>)
    requires
        spec_versions_blob(vs@).len() < usize::MAX,
    ensures
        r@ == spec_versions_blob(vs@),
{
    let mut out: Vec<u8> = Vec::new();
    proof {
        assert(vs@.skip(0) =~= vs@);
        assert(out@ + spec_versions_blob(vs@) =~= spec_versions_blob(vs@));
    }
    let mut i: usize = 0;
    while i < vs.len()
        invariant
            i <= vs@.len(),
            spec_versions_blob(vs@).len() < usize::MAX,
            out@ + spec_versions_blob(vs@.skip(i as int)) == spec_versions_blob(vs@),
        decreases vs@.len() - i,
    {
        let ghost rest = vs@.skip(i as int);
        let v = &vs[i];
        proof {
            assert(rest[0] == *v);
            assert(spec_entry(spec_version_cell(*v)).len() <= spec_versions_blob(rest).len()) by {
                lemma_versions_blob_len(rest, 0);
            }
            assert(spec_versions_blob(rest).len() <= spec_versions_blob(vs@).len() - out@.len());
            lemma_entry_len(spec_version_cell(*v));
        }
        let cell = version_cell(v);
        push_entry(&mut out, cell.as_slice());
        proof {
            assert(rest.skip(1) =~= vs@.skip(i + 1));
            assert(out@ + spec_versions_blob(vs@.skip(i + 1)) =~= spec_versions_blob(vs@));
        }
        i += 1;
    }
    proof {
        assert(vs@.skip(vs@.len() as int) =~= Seq::<Version>::empty());
        assert(out@ =~= spec_versions_blob(vs@));
    }
    out
}

impl Sbvc {
    /// The exact byte encoding this tree stores to disk.
    pub open spec fn spec_encoding(&self) -> Seq<u8> {
        spec_store(
            self.file@,
            self.versions@[self.current as int].id,
            self.next,
            self.versions@,
        )
    }

    /// Serialises the whole tree to the stored byte format.
    pub fn to_bytes(&self) -> (r: Vec<u8>)
        requires
            self.wf(),
            self.spec_encoding().len() < usize::MAX,
        ensures
            r@ == self.spec_encoding(),
    {
        let ghost enc = self.spec_encoding();
        let cur_id = self.versions[self.current].id;
        proof {
            lemma_entry_len(self.file@);
            lemma_entry_len(spec_digits(cur_id as nat));
            lemma_entry_len(spec_digits(self.next as nat));
            lemma_entry_len(spec_versions_blob(self.versions@));
        }
        let mut out: Vec<u8> = Vec::new();
        push_entry(&mut out, self.file.as_slice());
        let ds = u64_digits(cur_id as u64);
        push_entry(&mut out, ds.as_slice());
        let ds = u64_digits(self.next as u64);
        push_entry(&mut out, ds.as_slice());
        let vb = versions_blob(&self.versions);
        push_entry(&mut out, vb.as_slice());
        proof {
            assert(out@ =~= enc);
        }
        out
    }
}

/// The first position at or past `i` holding a delimiter byte, or `-1`.
pub open spec fn find_delim(s: Seq<u8>, i: int) -> int
    decreases s.len() - i,
{
    if i < 0 || i >= s.len() {
        -1
    } else if is_delim(s[i]) {
        i
    } else {
        find_delim(s, i + 1)
    }
}

/// The first position at or past `i` holding a byte other than `c`, or `-1`.
pub open spec fn first_diff(s: Seq<u8>, c: u8, i: int) -> int
    decreases s.len() - i,
{
    if i < 0 || i >= s.len() {
        -1
    } else if s[i] != c {
        i
    } else {
        first_diff(s, c, i + 1)
    }
}

/// Scans from `i` for `l` consecutive bytes `rc`, carrying the run seen so
/// far; the result is the position just past that run, or `-1` if the string
/// ends first.
pub open spec fn scan_close(s: Seq<u8>, rc: u8, l: int, i: int, count: int) -> int
    decreases s.len() - i,
{
    if count == l {
        i
    } else if i < 0 || i >= s.len() {
        -1
    } else if s[i] == rc {
        scan_close(s, rc, l, i + 1, count + 1)
    } else {
        scan_close(s, rc, l, i + 1, 0)
    }
}

/// The next cell of the stream `s` from position `i`: the content bounds and
/// the position after the cell, or `None` when no cell starts any more.  An
/// unterminated cell reaches to the end of the stream.
pub open spec fn spec_next_cell(s: Seq<u8>, i: int) -> Option<(int, int, int)> {
    let d = find_delim(s, i);
    if d == -1 {
        None
    } else {
        let e = first_diff(s, s[d], d);
        if e == -1 {
            None
        } else {
            let l = e - d;
            let rc = close_of(s[d]);
            let fin = scan_close(s, rc, l, e, 0);
            if fin == -1 {
                Some((e, s.len() as int, s.len() as int))
            } else {
                Some((e, fin - l, fin))
            }
        }
    }
}

/// Reads the next cell of `s` from `pos`, returning the content bounds and
/// the position after the cell.
fn next_cell(s: &[u8], pos: usize) -> (r: Option<(usize, usize, usize)>)
    ensures
        r is None <==> spec_next_cell(s@, pos as int) is None,
        r matches Some((cs, ce, np)) ==> {
            &&& spec_next_cell(s@, pos as int) == Some((cs as int, ce as int, np as int))
            &&& pos < np <= s@.len()
            &&& pos <= cs as int
            &&& cs <= ce
            &&& ce <= s@.len()
        },
{
    let n = s.len();
    if pos >= n {
        proof {
            assert(find_delim(s@, pos as int) == -1);
        }
        return None;
    }
    // opening delimiter
    let mut d: usize = pos;
    while d < n && !(s[d] == PIPE || s[d] == FWD || s[d] == BWD)
        invariant
            pos <= d <= n,
            n == s@.len(),
            find_delim(s@, pos as int) == find_delim(s@, d as int),
        decreases n - d,
    {
        d += 1;
    }
    if d >= n {
        return None;
    }
    let lch = s[d];
    proof {
        assert(find_delim(s@, pos as int) == d as int);
    }
    // length of the opening run
    let mut e: usize = d;
    while e < n && s[e] == lch
        invariant
            d <= e <= n,
            n == s@.len(),
            first_diff(s@, lch, d as int) == first_diff(s@, lch, e as int),
            e > d ==> s@[d as int] == lch,
        decreases n - e,
    {
        e += 1;
    }
    if e >= n {
        proof {
            assert(first_diff(s@, lch, d as int) == -1);
        }
        return None;
    }
    let l = e - d;
    proof {
        assert(first_diff(s@, lch, d as int) == e as int);
        assert(l >= 1) by {
            assert(s@[d as int] == lch);
        }
    }
    let rch: u8 = if lch == PIPE {
        PIPE
    } else if lch == FWD {
        BWD
    } else {
        FWD
    };
    proof {
        assert(rch == close_of(lch));
    }
    // seek `l` consecutive closing delimiters
    let mut k: usize = e;
    let mut count: usize = 0;
    while count != l && k < n
        invariant
            e <= k <= n,
            n == s@.len(),
            count <= l,
            count <= k - e,
            l == e - d,
            scan_close(s@, rch, l as int, e as int, 0) == scan_close(
                s@,
                rch,
                l as int,
                k as int,
                count as int,
            ),
        decreases n - k,
    {
        if s[k] == rch {
            count += 1;
        } else {
            count = 0;
        }
        k += 1;
    }
    if count == l {
        proof {
            assert(scan_close(s@, rch, l as int, e as int, 0) == k as int);
        }
        Some((e, k - l, k))
    } else {
        proof {
            assert(scan_close(s@, rch, l as int, e as int, 0) == -1);
        }
        Some((e, n, n))
    }
}

/// A parsed insertion: its anchor and its payload.
pub type AbsInsertion = (usize, Seq<u8>);

/// A parsed version record: identifier, parent identifier, name, creation
/// date, deletions and insertions.
pub type AbsVersion = (u32, u32, Seq<u8>, u64, Seq<Deletion>, Seq<AbsInsertion>);

/// The records of a list of insertions.
pub open spec fn abs_insertions_of(inss: Seq<Insertion>) -> Seq<AbsInsertion> {
    Seq::new(inss.len(), |k: int| (inss[k].start, inss[k].data@))
}

/// The record of one version.
pub open spec fn abs_of_version(v: Version) -> AbsVersion {
    (v.id, v.base, v.name@, v.date, v.difference.deletions@, abs_insertions_of(
        v.difference.insertions@,
    ))
}

/// The records of a list of versions.
pub open spec fn abs_seq(vsx: Seq<Version>) -> Seq<AbsVersion> {
    Seq::new(vsx.len(), |i: int| abs_of_version(vsx[i]))
}

/// The value of a `u32` field, or which field failed to parse.
pub open spec fn spec_u32_field(s: Seq<u8>, f: FormatField) -> Result<u32, SbvcError> {
    if all_digits(s) && digits_val(s) <= u32::MAX {
        Ok(digits_val(s) as u32)
    } else {
        Err(SbvcError::Parse(f))
    }
}

/// The value of a `u64` field, or which field failed to parse.
pub open spec fn spec_u64_field(s: Seq<u8>, f: FormatField) -> Result<u64, SbvcError> {
    if all_digits(s) && digits_val(s) <= u64::MAX {
        Ok(digits_val(s) as u64)
    } else {
        Err(SbvcError::Parse(f))
    }
}

/// The value of a `usize` field, or which field failed to parse.
pub open spec fn spec_usize_field(s: Seq<u8>, f: FormatField) -> Result<usize, SbvcError> {
    if all_digits(s) && digits_val(s) <= usize::MAX {
        Ok(digits_val(s) as usize)
    } else {
        Err(SbvcError::Parse(f))
    }
}

/// Parses the content of one deletion cell: a start entry and an end entry.
pub open spec fn spec_parse_deletion(cell: Seq<u8>) -> Result<Deletion, SbvcError> {
    match spec_next_cell(cell, 0) {
        Option::None => Err(SbvcError::InvalidFormat(FormatField::DeletionStart)),
        Option::Some((cs, ce, np)) => match spec_usize_field(
            cell.subrange(cs, ce),
            FormatField::DeletionStart,
        ) {
            Err(e) => Err(e),
            Ok(st) => match spec_next_cell(cell, np) {
                Option::None => Err(SbvcError::InvalidFormat(FormatField::DeletionEnd)),
                Option::Some((cs2, ce2, _np2)) => match spec_usize_field(
                    cell.subrange(cs2, ce2),
                    FormatField::DeletionEnd,
                ) {
                    Err(e) => Err(e),
                    Ok(en) => Ok(Deletion { start: st, end: en }),
                },
            },
        },
    }
}

/// Parses the list of deletion cells from position `pos` on.
pub open spec fn spec_parse_deletions(blob: Seq<u8>, pos: int) -> Result<Seq<Deletion>, SbvcError>
    decreases blob.len() - pos,
{
    if pos >= blob.len() {
        Ok(Seq::empty())
    } else {
        match spec_next_cell(blob, pos) {
            Option::None => Ok(Seq::empty()),
            Option::Some((cs, ce, np)) => {
                let np2: int = if pos < np <= blob.len() {
                    np
                } else {
                    blob.len() as int
                };
                match spec_parse_deletion(blob.subrange(cs, ce)) {
                    Err(e) => Err(e),
                    Ok(d) => match spec_parse_deletions(blob, np2) {
                        Err(e) => Err(e),
                        Ok(rest) => Ok(seq![d] + rest),
                    },
                }
            },
        }
    }
}

/// Parses the content of one insertion cell: a start entry and the payload.
pub open spec fn spec_parse_insertion(cell: Seq<u8>) -> Result<AbsInsertion, SbvcError> {
    match spec_next_cell(cell, 0) {
        Option::None => Err(SbvcError::InvalidFormat(FormatField::InsertionStart)),
        Option::Some((cs, ce, np)) => match spec_usize_field(
            cell.subrange(cs, ce),
            FormatField::InsertionStart,
        ) {
            Err(e) => Err(e),
            Ok(st) => match spec_next_cell(cell, np) {
                Option::None => Err(SbvcError::InvalidFormat(FormatField::InsertionData)),
                Option::Some((cs2, ce2, _np2)) => Ok((st, cell.subrange(cs2, ce2))),
            },
        },
    }
}

/// Parses the list of insertion cells from position `pos` on.
pub open spec fn spec_parse_insertions(blob: Seq<u8>, pos: int) -> Result<
    Seq<AbsInsertion>,
    SbvcError,
>
    decreases blob.len() - pos,
{
    if pos >= blob.len() {
        Ok(Seq::empty())
    } else {
        match spec_next_cell(blob, pos) {
            Option::None => Ok(Seq::empty()),
            Option::Some((cs, ce, np)) => {
                let np2: int = if pos < np <= blob.len() {
                    np
                } else {
                    blob.len() as int
                };
                match spec_parse_insertion(blob.subrange(cs, ce)) {
                    Err(e) => Err(e),
                    Ok(ins) => match spec_parse_insertions(blob, np2) {
                        Err(e) => Err(e),
                        Ok(rest) => Ok(seq![ins] + rest),
                    },
                }
            },
        }
    }
}

/// Parses the content of one version cell: identifier, parent identifier,
/// metadata (name and date), deletions and insertions, in that order.
pub open spec fn spec_parse_version(cell: Seq<u8>) -> Result<AbsVersion, SbvcError> {
    match spec_next_cell(cell, 0) {
        Option::None => Err(SbvcError::InvalidFormat(FormatField::VersionId)),
        Option::Some((cs1, ce1, p1)) => match spec_u32_field(
            cell.subrange(cs1, ce1),
            FormatField::VersionId,
        ) {
            Err(e) => Err(e),
            Ok(id) => match spec_next_cell(cell, p1) {
                Option::None => Err(SbvcError::InvalidFormat(FormatField::BaseId)),
                Option::Some((cs2, ce2, p2)) => match spec_u32_field(
                    cell.subrange(cs2, ce2),
                    FormatField::BaseId,
                ) {
                    Err(e) => Err(e),
                    Ok(base) => match spec_next_cell(cell, p2) {
                        Option::None => Err(SbvcError::InvalidFormat(FormatField::Meta)),
                        Option::Some((cs3, ce3, p3)) => {
                            let meta = cell.subrange(cs3, ce3);
                            match spec_next_cell(meta, 0) {
                                Option::None => Err(SbvcError::InvalidFormat(FormatField::Name)),
                                Option::Some((mc1, me1, mp1)) => {
                                    let name = meta.subrange(mc1, me1);
                                    match spec_next_cell(meta, mp1) {
                                        Option::None => Err(
                                            SbvcError::InvalidFormat(FormatField::Date),
                                        ),
                                        Option::Some((mc2, me2, _mp2)) => match spec_u64_field(
                                            meta.subrange(mc2, me2),
                                            FormatField::Date,
                                        ) {
                                            Err(e) => Err(e),
                                            Ok(date) => match spec_next_cell(cell, p3) {
                                                Option::None => Err(
                                                    SbvcError::InvalidFormat(
                                                        FormatField::Deletions,
                                                    ),
                                                ),
                                                Option::Some((cs4, ce4, p4)) => match spec_parse_deletions(
                                                    cell.subrange(cs4, ce4),
                                                    0,
                                                ) {
                                                    Err(e) => Err(e),
                                                    Ok(dels) => match spec_next_cell(cell, p4) {
                                                        Option::None => Err(
                                                            SbvcError::InvalidFormat(
                                                                FormatField::Insertions,
                                                            ),
                                                        ),
                                                        Option::Some((cs5, ce5, _p5)) => match spec_parse_insertions(
                                                            cell.subrange(cs5, ce5),
                                                            0,
                                                        ) {
                                                            Err(e) => Err(e),
                                                            Ok(inss) => Ok(
                                                                (id, base, name, date, dels, inss),
                                                            ),
                                                        },
                                                    },
                                                },
                                            },
                                        },
                                    }
                                },
                            }
                        },
                    },
                },
            },
        },
    }
}

/// Parses the list of version cells from position `pos` on.
pub open spec fn spec_parse_versions(blob: Seq<u8>, pos: int) -> Result<Seq<AbsVersion>, SbvcError>
    decreases blob.len() - pos,
{
    if pos >= blob.len() {
        Ok(Seq::empty())
    } else {
        match spec_next_cell(blob, pos) {
            Option::None => Ok(Seq::empty()),
            Option::Some((cs, ce, np)) => {
                let np2: int = if pos < np <= blob.len() {
                    np
                } else {
                    blob.len() as int
                };
                match spec_parse_version(blob.subrange(cs, ce)) {
                    Err(e) => Err(e),
                    Ok(v) => match spec_parse_versions(blob, np2) {
                        Err(e) => Err(e),
                        Ok(rest) => Ok(seq![v] + rest),
                    },
                }
            },
        }
    }
}

/// Parses a whole stored file: the tracked-file path, the current
/// identifier, the next free identifier, and the list of versions.
pub open spec fn spec_parse_store(s: Seq<u8>) -> Result<
    (Seq<u8>, u32, u32, Seq<AbsVersion>),
    SbvcError,
> {
    match spec_next_cell(s, 0) {
        Option::None => Err(SbvcError::InvalidFormat(FormatField::FileName)),
        Option::Some((f1, f2, p1)) => {
            let file = s.subrange(f1, f2);
            match spec_next_cell(s, p1) {
                Option::None => Err(SbvcError::InvalidFormat(FormatField::CurrentId)),
                Option::Some((c1, c2, p2)) => match spec_u32_field(
                    s.subrange(c1, c2),
                    FormatField::CurrentId,
                ) {
                    Err(e) => Err(e),
                    Ok(cur) => match spec_next_cell(s, p2) {
                        Option::None => Err(SbvcError::InvalidFormat(FormatField::NextId)),
                        Option::Some((n1, n2, p3)) => match spec_u32_field(
                            s.subrange(n1, n2),
                            FormatField::NextId,
                        ) {
                            Err(e) => Err(e),
                            Ok(next) => match spec_next_cell(s, p3) {
                                Option::None => Err(
                                    SbvcError::InvalidFormat(FormatField::VersionList),
                                ),
                                Option::Some((v1, v2, _p4)) => match spec_parse_versions(
                                    s.subrange(v1, v2),
                                    0,
                                ) {
                                    Err(e) => Err(e),
                                    Ok(avs) => Ok((file, cur, next, avs)),
                                },
                            },
                        },
                    },
                },
            }
        },
    }
}

/// First index in `avs` of a record with identifier `id`, or `-1`.
pub open spec fn find_abs(avs: Seq<AbsVersion>, id: u32) -> int
    decreases avs.len(),
{
    if avs.len() == 0 {
        -1
    } else if avs[0].0 == id {
        0
    } else if find_abs(avs.skip(1), id) == -1 {
        -1
    } else {
        find_abs(avs.skip(1), id) + 1
    }
}

/// Parsed insertion anchors are strictly increasing.
pub open spec fn abs_insertions_wf(inss: Seq<AbsInsertion>) -> bool {
    forall|k: int| #![trigger inss[k]] 0 <= k && k + 1 < inss.len() ==> inss[k].0 < inss[k + 1].0
}

/// Parsed records shaped as a rooted tree with identifiers below `next`:
/// the first record is its own parent with an empty script, every other
/// record refers to an earlier one, identifiers are unique and below
/// `next`, and every script is sorted.
pub open spec fn abs_tree_wf(avs: Seq<AbsVersion>, next: u32) -> bool {
    &&& avs.len() >= 1
    &&& avs[0].1 == avs[0].0
    &&& avs[0].4.len() == 0
    &&& avs[0].5.len() == 0
    &&& forall|i: int| #![trigger avs[i]] 0 <= i < avs.len() ==> find_abs(avs, avs[i].0) == i
    &&& forall|i: int| #![trigger avs[i]] 1 <= i < avs.len() ==> 0 <= find_abs(avs, avs[i].1) < i
    &&& forall|i: int| #![trigger avs[i]] 0 <= i < avs.len() ==> avs[i].0 < next
    &&& forall|i: int| #![trigger avs[i]] 0 <= i < avs.len() ==> crate::edit::deletions_wf(avs[i].4)
        && abs_insertions_wf(avs[i].5)
}

/// The two `find` functions agree on corresponding sequences.
pub proof fn lemma_find_abs_matches(vsx: Seq<Version>, id: u32)
    ensures
        crate::tree::find_id(vsx, id) == find_abs(abs_seq(vsx), id),
    decreases vsx.len(),
{
    let avs = abs_seq(vsx);
    if vsx.len() > 0 {
        lemma_find_abs_matches(vsx.skip(1), id);
        assert(abs_seq(vsx.skip(1)) =~= avs.skip(1));
        assert(avs[0] == abs_of_version(vsx[0]));
    }
}

/// The tree shapes of a version list and of its records coincide.
#[verifier::rlimit(60)]
pub proof fn lemma_abs_wf_bridge(vsx: Seq<Version>, next: u32)
    ensures
        crate::tree::versions_wf(vsx, next) == abs_tree_wf(abs_seq(vsx), next),
{
    let avs = abs_seq(vsx);
    assert forall|id: u32| true implies #[trigger] crate::tree::find_id(vsx, id) == find_abs(
        avs,
        id,
    ) by {
        lemma_find_abs_matches(vsx, id);
    }
    assert(forall|i: int| #![trigger avs[i]] 0 <= i < vsx.len() ==> avs[i] == abs_of_version(
        vsx[i],
    ));
    assert forall|i: int| 0 <= i < vsx.len() implies (abs_insertions_wf(#[trigger] avs[i].5)
        == crate::edit::insertions_wf(vsx[i].difference.insertions@)) by {
        let inss = vsx[i].difference.insertions@;
        let ainss = avs[i].5;
        assert(forall|k: int| #![trigger ainss[k]] 0 <= k < inss.len() ==> ainss[k] == (
        inss[k].start,
        inss[k].data@,
        ));
        assert forall|k: int| #![trigger inss[k]] 0 <= k && k + 1 < inss.len() && abs_insertions_wf(
            ainss,
        ) implies inss[k].start < inss[k + 1].start by {
            assert(ainss[k].0 == inss[k].start);
            assert(ainss[k + 1].0 == inss[k + 1].start);
        }
        assert forall|k: int| #![trigger ainss[k]] 0 <= k && k + 1 < ainss.len()
            && crate::edit::insertions_wf(inss) implies ainss[k].0 < ainss[k + 1].0 by {
            assert(inss[k].start < inss[k + 1].start);
        }
    }
    assert forall|i: int| 0 <= i < vsx.len() implies {
        &&& (#[trigger] avs[i]).0 == vsx[i].id
        &&& avs[i].1 == vsx[i].base
        &&& avs[i].4 == vsx[i].difference.deletions@
        &&& avs[i].5.len() == vsx[i].difference.insertions@.len()
    } by {
        assert(avs[i] == abs_of_version(vsx[i]));
    }
    if crate::tree::versions_wf(vsx, next) {
        assert forall|i: int| 0 <= i < avs.len() implies #[trigger] find_abs(avs, avs[i].0)
            == i by {
            assert(vsx[i].id == avs[i].0);
        }
        assert forall|i: int| 1 <= i < avs.len() implies 0 <= #[trigger] find_abs(avs, avs[i].1)
            < i by {
            assert(vsx[i].base == avs[i].1);
        }
        assert(abs_tree_wf(avs, next));
    }
    if abs_tree_wf(avs, next) {
        assert forall|i: int| 0 <= i < vsx.len() implies #[trigger] crate::tree::find_id(
            vsx,
            vsx[i].id,
        ) == i by {
            assert(avs[i].0 == vsx[i].id);
        }
        assert forall|i: int| 1 <= i < vsx.len() implies 0 <= #[trigger] crate::tree::find_id(
            vsx,
            vsx[i].base,
        ) < i by {
            assert(avs[i].1 == vsx[i].base);
        }
        assert forall|i: int| 0 <= i < vsx.len() implies (#[trigger] vsx[i]).id < next by {
            assert(avs[i].0 == vsx[i].id);
        }
        assert forall|i: int| 0 <= i < vsx.len() implies (#[trigger] vsx[i]).difference.wf() by {
            assert(crate::edit::deletions_wf(avs[i].4));
            assert(abs_insertions_wf(avs[i].5));
        }
        assert(vsx[0].difference.is_empty());
        assert(crate::tree::versions_wf(vsx, next));
    }
}

/// The decimal digits of `n` denote `n` and are digits.
pub proof fn lemma_digits_round_trip(n: nat)
    ensures
        all_digits(spec_digits(n)),
        digits_val(spec_digits(n)) == n,
    decreases n,
{
    let ds = spec_digits(n);
    if n < 10 {
        assert(ds.take(0) =~= Seq::<u8>::empty());
        assert(digits_val(Seq::<u8>::empty()) == 0);
        assert(ds[0] == (48 + n) as u8);
        assert(ds[0] == 48 + n);
        assert(digits_val(ds) == digits_val(ds.take(0)) * 10 + ((48 + n) - 48));
    } else {
        lemma_digits_round_trip(n / 10);
        assert(ds.take(ds.len() - 1) =~= spec_digits(n / 10));
        assert(digits_val(ds) == digits_val(spec_digits(n / 10)) * 10 + ((48 + n % 10) - 48));
        assert((n / 10) * 10 + n % 10 == n) by (nonlinear_arith);
        assert(forall|i: int| 0 <= i < ds.len() - 1 ==> 48 <= #[trigger] ds[i] <= 57) by {
            assert(forall|i: int| 0 <= i < ds.len() - 1 ==> ds[i] == spec_digits(n / 10)[i]);
        }
    }
}

/// The scan's result bounds `best`, `cur`, and every all-`c` window that
/// starts at or after the run the scan is currently inside.
proof fn lemma_longest_run_from_bound(s: Seq<u8>, c: u8, i: int, best: nat, cur: nat, a: int, b: int)
    requires
        0 <= i <= s.len(),
        cur <= i,
        cur <= best,
        forall|j: int| i - cur <= j < i ==> s[j] == c,
        i - cur <= a <= b <= s.len(),
        forall|j: int| a <= j < b ==> s[j] == c,
    ensures
        best <= longest_run_from(s, c, i, best, cur),
        b - a <= longest_run_from(s, c, i, best, cur),
    decreases s.len() - i,
{
    if i >= s.len() {
        // the window lies inside the current run
        assert(b - a <= cur);
    } else if s[i] == c {
        let best2: nat = if cur + 1 > best {
            cur + 1
        } else {
            best
        };
        lemma_longest_run_from_bound(s, c, i + 1, best2, cur + 1, a, b);
    } else {
        if b <= i {
            // the window lies inside the current run
            assert(b - a <= cur);
            lemma_longest_run_from_bound(s, c, i + 1, best, 0, i + 1, i + 1);
        } else if a <= i {
            // the window would have to cover the mismatch at `i`
            assert(s[i] == c);
        } else {
            lemma_longest_run_from_bound(s, c, i + 1, best, 0, a, b);
        }
    }
}

/// No run of `c` in `s` is longer than `longest_run(s, c)`.
pub proof fn lemma_longest_run_bound(s: Seq<u8>, c: u8, a: int, b: int)
    requires
        0 <= a <= b <= s.len(),
        forall|j: int| a <= j < b ==> s[j] == c,
    ensures
        b - a <= longest_run(s, c),
{
    lemma_longest_run_from_bound(s, c, 0, 0, 0, a, b);
}

/// The length of the delimiter runs wrapping a cell's content.
pub open spec fn cell_run(content: Seq<u8>) -> nat {
    if content.len() == 0 {
        1
    } else {
        longest_run(content, close_of(cell_open(content))) + 1
    }
}

/// The delimiter style chosen for a content collides with neither its first
/// nor its last byte.
proof fn lemma_cell_open_valid(content: Seq<u8>)
    requires
        content.len() > 0,
    ensures
        is_delim(cell_open(content)),
        content[0] != cell_open(content),
        content[content.len() - 1] != close_of(cell_open(content)),
{
}

/// `find_delim` lands on the first delimiter.
proof fn lemma_find_delim_at(s: Seq<u8>, i: int, d: int)
    requires
        0 <= i <= d < s.len(),
        forall|j: int| i <= j < d ==> !is_delim(s[j]),
        is_delim(s[d]),
    ensures
        find_delim(s, i) == d,
    decreases d - i,
{
    if i < d {
        lemma_find_delim_at(s, i + 1, d);
    }
}

/// `first_diff` lands on the first byte that differs.
proof fn lemma_first_diff_at(s: Seq<u8>, c: u8, i: int, j: int)
    requires
        0 <= i <= j < s.len(),
        forall|k: int| i <= k < j ==> s[k] == c,
        s[j] != c,
    ensures
        first_diff(s, c, i) == j,
    decreases j - i,
{
    if i < j {
        lemma_first_diff_at(s, c, i + 1, j);
    }
}

/// Every byte of `s` in `[a, b)` equals `c`.
pub open spec fn all_eq(s: Seq<u8>, c: u8, a: int, b: int) -> bool {
    forall|j: int| #![trigger s[j]] a <= j < b ==> s[j] == c
}

/// The close scan stops exactly at the end of the first genuine closing
/// run: `[end, end + l)` is all `rc`, and no full run of `l` closing bytes
/// can be completed earlier from the scanned region.
proof fn lemma_scan_close_finds(s: Seq<u8>, rc: u8, l: int, i: int, count: int, end: int)
    requires
        1 <= l,
        0 <= count <= l,
        count <= i,
        i <= end + l,
        i > end ==> count >= i - end,
        end + l <= s.len(),
        all_eq(s, rc, i - count, i),
        all_eq(s, rc, end, end + l),
        forall|e: int| i <= e < end + l && e - l >= i - count ==> !#[trigger] all_eq(s, rc, e - l, e),
    ensures
        scan_close(s, rc, l, i, count) == end + l,
    decreases end + l - i,
{
    if count == l {
        if i < end + l {
            assert(all_eq(s, rc, i - l, i));
            assert(false);
        }
    } else {
        assert(i < end + l);
        if s[i] == rc {
            assert(all_eq(s, rc, i + 1 - (count + 1), i + 1));
            lemma_scan_close_finds(s, rc, l, i + 1, count + 1, end);
        } else {
            assert(all_eq(s, rc, i + 1, i + 1));
            assert forall|e: int| i + 1 <= e < end + l && e - l >= i + 1 implies
                !#[trigger] all_eq(s, rc, e - l, e) by {
                assert(e - l >= i - count);
            }
            lemma_scan_close_finds(s, rc, l, i + 1, 0, end);
        }
    }
}

/// Reading a stream at the start of an encoded entry — possibly after some
/// non-delimiter separator bytes — yields exactly the entry's content and
/// stops on the entry's trailing newline.
#[verifier::rlimit(100)]
pub proof fn lemma_next_cell_of_entry(pre: Seq<u8>, content: Seq<u8>, rest: Seq<u8>, pos: int)
    requires
        0 <= pos <= pre.len(),
        forall|j: int| #![trigger (pre + spec_entry(content) + rest)[j]] pos <= j < pre.len()
            ==> !is_delim((pre + spec_entry(content) + rest)[j]),
    ensures
        ({
            let stream = pre + spec_entry(content) + rest;
            let n = cell_run(content) as int;
            let cs = pre.len() + n;
            let ce = cs + content.len();
            &&& spec_next_cell(stream, pos) == Some((cs, ce, ce + n))
            &&& stream.subrange(cs, ce) == content
            &&& ce + n + 1 == pre.len() + spec_entry(content).len()
        }),
{
    let stream = pre + spec_entry(content) + rest;
    let n = cell_run(content) as int;
    let pl = pre.len() as int;
    let cs = pl + n;
    let ce = cs + content.len();
    if content.len() == 0 {
        // the empty cell is a lone `/` – `\` pair
        assert(spec_cell(content) == seq![FWD, BWD]);
        assert(stream[pl] == FWD);
        assert(stream[pl + 1] == BWD);
        lemma_find_delim_at(stream, pos, pl);
        lemma_first_diff_at(stream, FWD, pl, pl + 1);
        assert(stream.len() == pl + 3 + rest.len());
        assert(scan_close(stream, BWD, 1, pl + 2, 1) == pl + 2);
        assert(scan_close(stream, BWD, 1, pl + 1, 0) == pl + 2);
        assert(stream.subrange(cs, ce) =~= content);
    } else {
        let o = cell_open(content);
        let cl = close_of(o);
        lemma_cell_open_valid(content);
        assert(spec_cell(content) == spec_run(n as nat, o) + content + spec_run(n as nat, cl));
        // the layout of the stream around the entry
        assert(forall|j: int| pl <= j < cs ==> #[trigger] stream[j] == o);
        assert(forall|j: int| cs <= j < ce ==> #[trigger] stream[j] == content[j - cs]);
        assert(forall|j: int| ce <= j < ce + n ==> #[trigger] stream[j] == cl);
        assert(stream[ce + n] == NL);
        // the opening run
        lemma_find_delim_at(stream, pos, pl);
        assert(stream[cs] == content[0]);
        lemma_first_diff_at(stream, o, pl, cs);
        // the closing run: nothing completes a run of `n` bytes `cl` before
        // the real one
        assert forall|e: int| cs <= e < ce + n && e - n >= cs implies
            !#[trigger] all_eq(stream, cl, e - n, e) by {
            if e <= ce {
                // a full run inside the content would exceed the longest
                if all_eq(stream, cl, e - n, e) {
                    assert forall|j: int| e - n - cs <= j < e - cs implies #[trigger] content[j]
                        == cl by {
                        assert(stream[j + cs] == content[j]);
                        assert(stream[j + cs] == cl);
                    }
                    lemma_longest_run_bound(content, cl, e - n - cs, e - cs);
                    assert(false);
                }
            } else {
                // the window covers the content's last byte
                assert(e - n <= ce - 1 < e);
                assert(stream[ce - 1] == content[content.len() - 1]);
                assert(stream[ce - 1] != cl);
            }
        }
        lemma_scan_close_finds(stream, cl, n, cs, 0, ce);
        assert(stream.subrange(cs, ce) =~= content);
    }
}

/// With no delimiter left, no cell starts any more.
proof fn lemma_find_delim_none(s: Seq<u8>, i: int)
    requires
        0 <= i,
        forall|j: int| #![trigger s[j]] i <= j < s.len() ==> !is_delim(s[j]),
    ensures
        find_delim(s, i) == -1,
    decreases s.len() - i,
{
    if i < s.len() {
        lemma_find_delim_none(s, i + 1);
    }
}

/// A deletion's cell parses back to the deletion.
#[verifier::rlimit(60)]
proof fn lemma_deletion_cell_round_trip(d: Deletion)
    ensures
        spec_parse_deletion(spec_deletion_cell(d)) == Ok::<Deletion, SbvcError>(d),
{
    let ds = spec_digits(d.start as nat);
    let de = spec_digits(d.end as nat);
    let cell = spec_deletion_cell(d);
    lemma_digits_round_trip(d.start as nat);
    lemma_digits_round_trip(d.end as nat);
    assert(cell == Seq::<u8>::empty() + spec_entry(ds) + spec_entry(de)) by {
        assert(Seq::<u8>::empty() + spec_entry(ds) + spec_entry(de) =~= cell);
    }
    lemma_next_cell_of_entry(Seq::<u8>::empty(), ds, spec_entry(de), 0);
    let n1 = cell_run(ds) as int;
    let np1 = n1 + ds.len() + n1;
    assert(cell.subrange(n1, n1 + ds.len() as int) == ds);
    let pre2 = spec_entry(ds);
    assert(cell == pre2 + spec_entry(de) + Seq::<u8>::empty()) by {
        assert(pre2 + spec_entry(de) + Seq::<u8>::empty() =~= cell);
    }
    assert(np1 == pre2.len() - 1);
    assert(!is_delim(cell[np1]));
    lemma_next_cell_of_entry(pre2, de, Seq::<u8>::empty(), np1);
    let n2 = cell_run(de) as int;
    assert(cell.subrange(pre2.len() + n2, pre2.len() + n2 + de.len() as int) == de);
}

/// An insertion's cell parses back to the insertion's record.
#[verifier::rlimit(60)]
proof fn lemma_insertion_cell_round_trip(ins: Insertion)
    ensures
        spec_parse_insertion(spec_insertion_cell(ins)) == Ok::<AbsInsertion, SbvcError>(
            (ins.start, ins.data@),
        ),
{
    let ds = spec_digits(ins.start as nat);
    let cell = spec_insertion_cell(ins);
    lemma_digits_round_trip(ins.start as nat);
    assert(cell == Seq::<u8>::empty() + spec_entry(ds) + spec_entry(ins.data@)) by {
        assert(Seq::<u8>::empty() + spec_entry(ds) + spec_entry(ins.data@) =~= cell);
    }
    lemma_next_cell_of_entry(Seq::<u8>::empty(), ds, spec_entry(ins.data@), 0);
    let n1 = cell_run(ds) as int;
    let np1 = n1 + ds.len() + n1;
    assert(cell.subrange(n1, n1 + ds.len() as int) == ds);
    let pre2 = spec_entry(ds);
    assert(cell == pre2 + spec_entry(ins.data@) + Seq::<u8>::empty()) by {
        assert(pre2 + spec_entry(ins.data@) + Seq::<u8>::empty() =~= cell);
    }
    assert(np1 == pre2.len() - 1);
    assert(!is_delim(cell[np1]));
    lemma_next_cell_of_entry(pre2, ins.data@, Seq::<u8>::empty(), np1);
    let n2 = cell_run(ins.data@) as int;
    assert(cell.subrange(pre2.len() + n2, pre2.len() + n2 + ins.data@.len() as int) == ins.data@);
}

/// The encoded list of deletions, placed after an already-consumed prefix,
/// parses back to the deletions.
#[verifier::rlimit(100)]
proof fn lemma_parse_deletions_blob(pre: Seq<u8>, dels: Seq<Deletion>, pos: int)
    requires
        0 <= pos <= pre.len(),
        forall|j: int| #![trigger (pre + spec_deletions_blob(dels))[j]] pos <= j < pre.len()
            ==> !is_delim((pre + spec_deletions_blob(dels))[j]),
    ensures
        spec_parse_deletions(pre + spec_deletions_blob(dels), pos) == Ok::<Seq<Deletion>, SbvcError>(
            dels,
        ),
    decreases dels.len(),
{
    let blob = pre + spec_deletions_blob(dels);
    if dels.len() == 0 {
        assert(blob =~= pre);
        lemma_find_delim_none(blob, pos);
        assert(dels =~= Seq::<Deletion>::empty());
    } else {
        let d = dels[0];
        let cell = spec_deletion_cell(d);
        let tail = spec_deletions_blob(dels.skip(1));
        assert(blob == pre + spec_entry(cell) + tail) by {
            assert(pre + spec_entry(cell) + tail =~= blob);
        }
        lemma_next_cell_of_entry(pre, cell, tail, pos);
        let n = cell_run(cell) as int;
        let cs = pre.len() + n;
        let ce = cs + cell.len();
        let np = ce + n;
        lemma_deletion_cell_round_trip(d);
        let pre2 = pre + spec_entry(cell);
        assert(blob == pre2 + spec_deletions_blob(dels.skip(1))) by {
            assert(pre2 + spec_deletions_blob(dels.skip(1)) =~= blob);
        }
        assert(np == pre2.len() - 1);
        assert(!is_delim(blob[np]));
        lemma_parse_deletions_blob(pre2, dels.skip(1), np);
        assert(pos < np <= blob.len());
        assert(seq![d] + dels.skip(1) =~= dels);
    }
}

/// The encoded list of insertions, placed after an already-consumed prefix,
/// parses back to the insertions' records.
#[verifier::rlimit(100)]
proof fn lemma_parse_insertions_blob(pre: Seq<u8>, inss: Seq<Insertion>, pos: int)
    requires
        0 <= pos <= pre.len(),
        forall|j: int| #![trigger (pre + spec_insertions_blob(inss))[j]] pos <= j < pre.len()
            ==> !is_delim((pre + spec_insertions_blob(inss))[j]),
    ensures
        spec_parse_insertions(pre + spec_insertions_blob(inss), pos) == Ok::<
            Seq<AbsInsertion>,
            SbvcError,
        >(abs_insertions_of(inss)),
    decreases inss.len(),
{
    let blob = pre + spec_insertions_blob(inss);
    if inss.len() == 0 {
        assert(blob =~= pre);
        lemma_find_delim_none(blob, pos);
        assert(abs_insertions_of(inss) =~= Seq::<AbsInsertion>::empty());
    } else {
        let ins = inss[0];
        let cell = spec_insertion_cell(ins);
        let tail = spec_insertions_blob(inss.skip(1));
        assert(blob == pre + spec_entry(cell) + tail) by {
            assert(pre + spec_entry(cell) + tail =~= blob);
        }
        lemma_next_cell_of_entry(pre, cell, tail, pos);
        let n = cell_run(cell) as int;
        let cs = pre.len() + n;
        let ce = cs + cell.len();
        let np = ce + n;
        lemma_insertion_cell_round_trip(ins);
        let pre2 = pre + spec_entry(cell);
        assert(blob == pre2 + spec_insertions_blob(inss.skip(1))) by {
            assert(pre2 + spec_insertions_blob(inss.skip(1)) =~= blob);
        }
        assert(np == pre2.len() - 1);
        assert(!is_delim(blob[np]));
        lemma_parse_insertions_blob(pre2, inss.skip(1), np);
        assert(pos < np <= blob.len());
        assert(seq![(ins.start, ins.data@)] + abs_insertions_of(inss.skip(1)) =~= abs_insertions_of(
            inss,
        ));
    }
}

/// The metadata blob parses as its name cell and then its date cell.
#[verifier::rlimit(100)]
proof fn lemma_meta_blob_parse(v: Version)
    ensures
        ({
            let meta = spec_meta_blob(v);
            let dd = spec_digits(v.date as nat);
            let m1 = cell_run(v.name@) as int;
            let q1 = m1 + v.name@.len() + m1;
            let mpre2 = spec_entry(v.name@);
            let m2 = cell_run(dd) as int;
            &&& spec_next_cell(meta, 0) == Some((m1, m1 + v.name@.len() as int, q1))
            &&& meta.subrange(m1, m1 + v.name@.len() as int) == v.name@
            &&& spec_next_cell(meta, q1) == Some(
                (
                    mpre2.len() + m2,
                    mpre2.len() + m2 + dd.len() as int,
                    mpre2.len() + m2 + dd.len() + m2,
                ),
            )
            &&& meta.subrange(mpre2.len() + m2, mpre2.len() + m2 + dd.len() as int) == dd
        }),
{
    let meta = spec_meta_blob(v);
    let dd = spec_digits(v.date as nat);
    assert(meta == Seq::<u8>::empty() + spec_entry(v.name@) + spec_entry(dd)) by {
        assert(Seq::<u8>::empty() + spec_entry(v.name@) + spec_entry(dd) =~= meta);
    }
    lemma_next_cell_of_entry(Seq::<u8>::empty(), v.name@, spec_entry(dd), 0);
    let m1 = cell_run(v.name@) as int;
    let q1 = m1 + v.name@.len() + m1;
    let mpre2 = spec_entry(v.name@);
    assert(meta == mpre2 + spec_entry(dd) + Seq::<u8>::empty()) by {
        assert(mpre2 + spec_entry(dd) + Seq::<u8>::empty() =~= meta);
    }
    assert(q1 == mpre2.len() - 1);
    assert(!is_delim(meta[q1]));
    lemma_next_cell_of_entry(mpre2, dd, Seq::<u8>::empty(), q1);
}

/// Where each field of a version's cell sits.
#[verifier::rlimit(100)]
proof fn lemma_version_cell_layout(v: Version)
    ensures
        ({
            let di = spec_digits(v.id as nat);
            let db = spec_digits(v.base as nat);
            let meta = spec_meta_blob(v);
            let delsb = spec_deletions_blob(v.difference.deletions@);
            let inssb = spec_insertions_blob(v.difference.insertions@);
            let cell = spec_version_cell(v);
            let n1 = cell_run(di) as int;
            let p1 = n1 + di.len() + n1;
            let pre2 = spec_entry(di);
            let n2 = cell_run(db) as int;
            let c2 = pre2.len() + n2;
            let p2 = c2 + db.len() + n2;
            let pre3 = pre2 + spec_entry(db);
            let n3 = cell_run(meta) as int;
            let c3 = pre3.len() + n3;
            let p3 = c3 + meta.len() + n3;
            let pre4 = pre3 + spec_entry(meta);
            let n4 = cell_run(delsb) as int;
            let c4 = pre4.len() + n4;
            let p4 = c4 + delsb.len() + n4;
            let pre5 = pre4 + spec_entry(delsb);
            let n5 = cell_run(inssb) as int;
            let c5 = pre5.len() + n5;
            &&& spec_next_cell(cell, 0) == Some((n1, n1 + di.len() as int, p1))
            &&& cell.subrange(n1, n1 + di.len() as int) == di
            &&& spec_next_cell(cell, p1) == Some((c2, c2 + db.len() as int, p2))
            &&& cell.subrange(c2, c2 + db.len() as int) == db
            &&& spec_next_cell(cell, p2) == Some((c3, c3 + meta.len() as int, p3))
            &&& cell.subrange(c3, c3 + meta.len() as int) == meta
            &&& spec_next_cell(cell, p3) == Some((c4, c4 + delsb.len() as int, p4))
            &&& cell.subrange(c4, c4 + delsb.len() as int) == delsb
            &&& spec_next_cell(cell, p4) == Some((c5, c5 + inssb.len() as int, c5 + inssb.len()
                + n5))
            &&& cell.subrange(c5, c5 + inssb.len() as int) == inssb
        }),
{
    let di = spec_digits(v.id as nat);
    let db = spec_digits(v.base as nat);
    let meta = spec_meta_blob(v);
    let delsb = spec_deletions_blob(v.difference.deletions@);
    let inssb = spec_insertions_blob(v.difference.insertions@);
    let cell = spec_version_cell(v);
    // identifier
    let pre1 = Seq::<u8>::empty();
    assert(cell == pre1 + spec_entry(di) + (spec_entry(db) + spec_entry(meta) + spec_entry(delsb)
        + spec_entry(inssb))) by {
        assert(pre1 + spec_entry(di) + (spec_entry(db) + spec_entry(meta) + spec_entry(delsb)
            + spec_entry(inssb)) =~= cell);
    }
    lemma_next_cell_of_entry(
        pre1,
        di,
        spec_entry(db) + spec_entry(meta) + spec_entry(delsb) + spec_entry(inssb),
        0,
    );
    let n1 = cell_run(di) as int;
    let p1 = n1 + di.len() + n1;
    // parent identifier
    let pre2 = spec_entry(di);
    assert(cell == pre2 + spec_entry(db) + (spec_entry(meta) + spec_entry(delsb) + spec_entry(
        inssb,
    ))) by {
        assert(pre2 + spec_entry(db) + (spec_entry(meta) + spec_entry(delsb) + spec_entry(inssb))
            =~= cell);
    }
    assert(p1 == pre2.len() - 1);
    assert(!is_delim(cell[p1]));
    lemma_next_cell_of_entry(pre2, db, spec_entry(meta) + spec_entry(delsb) + spec_entry(inssb), p1);
    let n2 = cell_run(db) as int;
    let c2 = pre2.len() + n2;
    let p2 = c2 + db.len() + n2;
    // metadata
    let pre3 = pre2 + spec_entry(db);
    assert(cell == pre3 + spec_entry(meta) + (spec_entry(delsb) + spec_entry(inssb))) by {
        assert(pre3 + spec_entry(meta) + (spec_entry(delsb) + spec_entry(inssb)) =~= cell);
    }
    assert(p2 == pre3.len() - 1);
    assert(!is_delim(cell[p2]));
    lemma_next_cell_of_entry(pre3, meta, spec_entry(delsb) + spec_entry(inssb), p2);
    let n3 = cell_run(meta) as int;
    let c3 = pre3.len() + n3;
    let p3 = c3 + meta.len() + n3;
    // deletions
    let pre4 = pre3 + spec_entry(meta);
    assert(cell == pre4 + spec_entry(delsb) + spec_entry(inssb)) by {
        assert(pre4 + spec_entry(delsb) + spec_entry(inssb) =~= cell);
    }
    assert(p3 == pre4.len() - 1);
    assert(!is_delim(cell[p3]));
    lemma_next_cell_of_entry(pre4, delsb, spec_entry(inssb), p3);
    let n4 = cell_run(delsb) as int;
    let c4 = pre4.len() + n4;
    let p4 = c4 + delsb.len() + n4;
    // insertions
    let pre5 = pre4 + spec_entry(delsb);
    assert(cell == pre5 + spec_entry(inssb) + Seq::<u8>::empty()) by {
        assert(pre5 + spec_entry(inssb) + Seq::<u8>::empty() =~= cell);
    }
    assert(p4 == pre5.len() - 1);
    assert(!is_delim(cell[p4]));
    lemma_next_cell_of_entry(pre5, inssb, Seq::<u8>::empty(), p4);
}

/// A version's cell parses back to the version's record.
#[verifier::rlimit(100)]
proof fn lemma_version_cell_round_trip(v: Version)
    ensures
        spec_parse_version(spec_version_cell(v)) == Ok::<AbsVersion, SbvcError>(abs_of_version(v)),
{
    let delsb = spec_deletions_blob(v.difference.deletions@);
    let inssb = spec_insertions_blob(v.difference.insertions@);
    lemma_version_cell_layout(v);
    lemma_digits_round_trip(v.id as nat);
    lemma_digits_round_trip(v.base as nat);
    lemma_digits_round_trip(v.date as nat);
    lemma_meta_blob_parse(v);
    assert(delsb == Seq::<u8>::empty() + delsb) by {
        assert(Seq::<u8>::empty() + delsb =~= delsb);
    }
    lemma_parse_deletions_blob(Seq::<u8>::empty(), v.difference.deletions@, 0);
    assert(inssb == Seq::<u8>::empty() + inssb) by {
        assert(Seq::<u8>::empty() + inssb =~= inssb);
    }
    lemma_parse_insertions_blob(Seq::<u8>::empty(), v.difference.insertions@, 0);
}

/// The encoded list of versions, placed after an already-consumed prefix,
/// parses back to the versions' records.
#[verifier::rlimit(100)]
#[verifier::spinoff_prover]
proof fn lemma_parse_versions_blob(pre: Seq<u8>, vs: Seq<Version>, pos: int)
    requires
        0 <= pos <= pre.len(),
        forall|j: int| #![trigger (pre + spec_versions_blob(vs))[j]] pos <= j < pre.len()
            ==> !is_delim((pre + spec_versions_blob(vs))[j]),
    ensures
        spec_parse_versions(pre + spec_versions_blob(vs), pos) == Ok::<Seq<AbsVersion>, SbvcError>(
            abs_seq(vs),
        ),
    decreases vs.len(),
{
    let blob = pre + spec_versions_blob(vs);
    if vs.len() == 0 {
        assert(blob =~= pre);
        lemma_find_delim_none(blob, pos);
        assert(abs_seq(vs) =~= Seq::<AbsVersion>::empty());
    } else {
        let v = vs[0];
        let cell = spec_version_cell(v);
        let tail = spec_versions_blob(vs.skip(1));
        assert(blob == pre + spec_entry(cell) + tail) by {
            assert(pre + spec_entry(cell) + tail =~= blob);
        }
        lemma_next_cell_of_entry(pre, cell, tail, pos);
        let n = cell_run(cell) as int;
        let cs = pre.len() + n;
        let ce = cs + cell.len();
        let np = ce + n;
        lemma_version_cell_round_trip(v);
        let pre2 = pre + spec_entry(cell);
        assert(blob == pre2 + spec_versions_blob(vs.skip(1))) by {
            assert(pre2 + spec_versions_blob(vs.skip(1)) =~= blob);
        }
        assert(np == pre2.len() - 1);
        assert(!is_delim(blob[np]));
        lemma_parse_versions_blob(pre2, vs.skip(1), np);
        assert(pos < np <= blob.len());
        assert(seq![abs_of_version(v)] + abs_seq(vs.skip(1)) =~= abs_seq(vs));
    }
}

/// A stored tree parses back to exactly the fields it was built from.
#[verifier::rlimit(100)]
pub proof fn lemma_store_parse_round_trip(file: Seq<u8>, cur: u32, next: u32, vs: Seq<Version>)
    ensures
        spec_parse_store(spec_store(file, cur, next, vs)) == Ok::<
            (Seq<u8>, u32, u32, Seq<AbsVersion>),
            SbvcError,
        >((file, cur, next, abs_seq(vs))),
{
    let dc = spec_digits(cur as nat);
    let dn = spec_digits(next as nat);
    let vb = spec_versions_blob(vs);
    let s = spec_store(file, cur, next, vs);
    lemma_digits_round_trip(cur as nat);
    lemma_digits_round_trip(next as nat);
    // the tracked-file path
    let pre1 = Seq::<u8>::empty();
    assert(s == pre1 + spec_entry(file) + (spec_entry(dc) + spec_entry(dn) + spec_entry(vb))) by {
        assert(pre1 + spec_entry(file) + (spec_entry(dc) + spec_entry(dn) + spec_entry(vb)) =~= s);
    }
    lemma_next_cell_of_entry(pre1, file, spec_entry(dc) + spec_entry(dn) + spec_entry(vb), 0);
    let n1 = cell_run(file) as int;
    let p1 = n1 + file.len() + n1;
    assert(s.subrange(n1, n1 + file.len() as int) == file);
    // the current identifier
    let pre2 = spec_entry(file);
    assert(s == pre2 + spec_entry(dc) + (spec_entry(dn) + spec_entry(vb))) by {
        assert(pre2 + spec_entry(dc) + (spec_entry(dn) + spec_entry(vb)) =~= s);
    }
    assert(p1 == pre2.len() - 1);
    assert(!is_delim(s[p1]));
    lemma_next_cell_of_entry(pre2, dc, spec_entry(dn) + spec_entry(vb), p1);
    let n2 = cell_run(dc) as int;
    let c2 = pre2.len() + n2;
    let p2 = c2 + dc.len() + n2;
    assert(s.subrange(c2 as int, c2 + dc.len() as int) == dc);
    // the next free identifier
    let pre3 = pre2 + spec_entry(dc);
    assert(s == pre3 + spec_entry(dn) + spec_entry(vb)) by {
        assert(pre3 + spec_entry(dn) + spec_entry(vb) =~= s);
    }
    assert(p2 == pre3.len() - 1);
    assert(!is_delim(s[p2]));
    lemma_next_cell_of_entry(pre3, dn, spec_entry(vb), p2);
    let n3 = cell_run(dn) as int;
    let c3 = pre3.len() + n3;
    let p3 = c3 + dn.len() + n3;
    assert(s.subrange(c3 as int, c3 + dn.len() as int) == dn);
    // the list of versions
    let pre4 = pre3 + spec_entry(dn);
    assert(s == pre4 + spec_entry(vb) + Seq::<u8>::empty()) by {
        assert(pre4 + spec_entry(vb) + Seq::<u8>::empty() =~= s);
    }
    assert(p3 == pre4.len() - 1);
    assert(!is_delim(s[p3]));
    lemma_next_cell_of_entry(pre4, vb, Seq::<u8>::empty(), p3);
    let n4 = cell_run(vb) as int;
    let c4 = pre4.len() + n4;
    assert(s.subrange(c4 as int, c4 + vb.len() as int) == vb);
    assert(vb == Seq::<u8>::empty() + vb) by {
        assert(Seq::<u8>::empty() + vb =~= vb);
    }
    lemma_parse_versions_blob(Seq::<u8>::empty(), vs, 0);
}

impl Sbvc {
    /// Storing and reloading is lossless: the bytes a well-formed tree
    /// writes parse back to that very tree — same records, same tree shape,
    /// and the same current version.
    pub proof fn lemma_store_round_trip(s: Sbvc)
        requires
            s.wf(),
        ensures
            spec_parse_store(s.spec_encoding()) == Ok::<
                (Seq<u8>, u32, u32, Seq<AbsVersion>),
                SbvcError,
            >(
                (
                    s.file@,
                    s.versions@[s.current as int].id,
                    s.next,
                    abs_seq(s.versions@),
                ),
            ),
            abs_tree_wf(abs_seq(s.versions@), s.next),
            find_abs(abs_seq(s.versions@), s.versions@[s.current as int].id) == s.current as int,
    {
        lemma_store_parse_round_trip(
            s.file@,
            s.versions@[s.current as int].id,
            s.next,
            s.versions@,
        );
        lemma_abs_wf_bridge(s.versions@, s.next);
        lemma_find_abs_matches(s.versions@, s.versions@[s.current as int].id);
        assert(crate::tree::find_id(s.versions@, s.versions@[s.current as int].id)
            == s.current as int);
    }
}

/// Parses a `u32` field.
fn parse_u32_field(s: &[u8], f: FormatField) -> (r: SbvcResult<u32>)
    ensures
        r == spec_u32_field(s@, f),
{
    match parse_u64(s) {
        Option::None => Err(SbvcError::Parse(f)),
        Option::Some(v) => {
            if v <= u32::MAX as u64 {
                Ok(v as u32)
            } else {
                Err(SbvcError::Parse(f))
            }
        },
    }
}

/// Parses a `u64` field.
fn parse_u64_field(s: &[u8], f: FormatField) -> (r: SbvcResult<u64>)
    ensures
        r == spec_u64_field(s@, f),
{
    match parse_u64(s) {
        Option::None => Err(SbvcError::Parse(f)),
        Option::Some(v) => Ok(v),
    }
}

/// Parses a `usize` field.
fn parse_usize_field(s: &[u8], f: FormatField) -> (r: SbvcResult<usize>)
    ensures
        r == spec_usize_field(s@, f),
{
    match parse_u64(s) {
        Option::None => Err(SbvcError::Parse(f)),
        Option::Some(v) => {
            if v <= usize::MAX as u64 {
                Ok(v as usize)
            } else {
                Err(SbvcError::Parse(f))
            }
        },
    }
}

/// Parses one deletion cell.
fn parse_deletion_cell(cell: &[u8]) -> (r: SbvcResult<Deletion>)
    ensures
        r == spec_parse_deletion(cell@),
{
    match next_cell(cell, 0) {
        Option::None => Err(SbvcError::InvalidFormat(FormatField::DeletionStart)),
        Option::Some((cs, ce, np)) => {
            let st = match parse_usize_field(
                vstd::slice::slice_subrange(cell, cs, ce),
                FormatField::DeletionStart,
            ) {
                Ok(v) => v,
                Err(e) => {
                    return Err(e);
                },
            };
            match next_cell(cell, np) {
                Option::None => Err(SbvcError::InvalidFormat(FormatField::DeletionEnd)),
                Option::Some((cs2, ce2, _np2)) => {
                    let en = match parse_usize_field(
                        vstd::slice::slice_subrange(cell, cs2, ce2),
                        FormatField::DeletionEnd,
                    ) {
                        Ok(v) => v,
                        Err(e) => {
                            return Err(e);
                        },
                    };
                    Ok(Deletion { start: st, end: en })
                },
            }
        },
    }
}

/// Parses one insertion cell.
fn parse_insertion_cell(cell: &[u8]) -> (r: SbvcResult<Insertion>)
    ensures
        r matches Ok(ins) ==> spec_parse_insertion(cell@) == Ok::<AbsInsertion, SbvcError>(
            (ins.start, ins.data@),
        ),
        r matches Err(e) ==> spec_parse_insertion(cell@) == Err::<AbsInsertion, SbvcError>(e),
{
    match next_cell(cell, 0) {
        Option::None => Err(SbvcError::InvalidFormat(FormatField::InsertionStart)),
        Option::Some((cs, ce, np)) => {
            let st = match parse_usize_field(
                vstd::slice::slice_subrange(cell, cs, ce),
                FormatField::InsertionStart,
            ) {
                Ok(v) => v,
                Err(e) => {
                    return Err(e);
                },
            };
            match next_cell(cell, np) {
                Option::None => Err(SbvcError::InvalidFormat(FormatField::InsertionData)),
                Option::Some((cs2, ce2, _np2)) => {
                    let data = vstd::slice::slice_to_vec(
                        vstd::slice::slice_subrange(cell, cs2, ce2),
                    );
                    Ok(Insertion { start: st, data })
                },
            }
        },
    }
}

/// The parse of the remaining deletion cells, continued with what was
/// already collected, agrees with the parse of the whole list.
pub open spec fn deletions_acc_ok(blob: Seq<u8>, pos: int, acc: Seq<Deletion>) -> bool {
    match spec_parse_deletions(blob, pos) {
        Ok(rest) => spec_parse_deletions(blob, 0) == Ok::<Seq<Deletion>, SbvcError>(acc + rest),
        Err(e) => spec_parse_deletions(blob, 0) == Err::<Seq<Deletion>, SbvcError>(e),
    }
}

/// Parses the whole list of deletion cells.
fn parse_deletions_list(blob: &[u8]) -> (r: SbvcResult<Vec<Deletion>>)
    ensures
        r matches Ok(ds) ==> spec_parse_deletions(blob@, 0) == Ok::<Seq<Deletion>, SbvcError>(
            ds@,
        ),
        r matches Err(e) ==> spec_parse_deletions(blob@, 0) == Err::<Seq<Deletion>, SbvcError>(
            e,
        ),
{
    let mut out: Vec<Deletion> = Vec::new();
    let mut pos: usize = 0;
    proof {
        if spec_parse_deletions(blob@, 0) is Ok {
            let rest = spec_parse_deletions(blob@, 0)->Ok_0;
            assert(out@ + rest =~= rest);
        }
    }
    loop
        invariant
            pos <= blob@.len(),
            deletions_acc_ok(blob@, pos as int, out@),
        decreases blob@.len() - pos,
    {
        match next_cell(blob, pos) {
            Option::None => {
                proof {
                    assert(spec_parse_deletions(blob@, pos as int) == Ok::<
                        Seq<Deletion>,
                        SbvcError,
                    >(Seq::empty()));
                    assert(out@ + Seq::<Deletion>::empty() =~= out@);
                }
                return Ok(out);
            },
            Option::Some((cs, ce, np)) => {
                let ghost rest0 = spec_parse_deletions(blob@, np as int);
                match parse_deletion_cell(vstd::slice::slice_subrange(blob, cs, ce)) {
                    Err(e) => {
                        return Err(e);
                    },
                    Ok(d) => {
                        let ghost out0 = out@;
                        out.push(d);
                        proof {
                            if rest0 is Ok {
                                let rest = rest0->Ok_0;
                                assert(spec_parse_deletions(blob@, pos as int) == Ok::<
                                    Seq<Deletion>,
                                    SbvcError,
                                >(seq![d] + rest));
                                assert(out0 + (seq![d] + rest) =~= out@ + rest);
                            }
                        }
                        pos = np;
                    },
                }
            },
        }
    }
}

/// The parse of the remaining insertion cells, continued with what was
/// already collected, agrees with the parse of the whole list.
pub open spec fn insertions_acc_ok(blob: Seq<u8>, pos: int, acc: Seq<AbsInsertion>) -> bool {
    match spec_parse_insertions(blob, pos) {
        Ok(rest) => spec_parse_insertions(blob, 0) == Ok::<Seq<AbsInsertion>, SbvcError>(
            acc + rest,
        ),
        Err(e) => spec_parse_insertions(blob, 0) == Err::<Seq<AbsInsertion>, SbvcError>(e),
    }
}

/// Parses the whole list of insertion cells.
fn parse_insertions_list(blob: &[u8]) -> (r: SbvcResult<Vec<Insertion>>)
    ensures
        r matches Ok(is) ==> spec_parse_insertions(blob@, 0) == Ok::<
            Seq<AbsInsertion>,
            SbvcError,
        >(abs_insertions_of(is@)),
        r matches Err(e) ==> spec_parse_insertions(blob@, 0) == Err::<
            Seq<AbsInsertion>,
            SbvcError,
        >(e),
{
    let mut out: Vec<Insertion> = Vec::new();
    let mut pos: usize = 0;
    proof {
        assert(abs_insertions_of(out@) =~= Seq::<AbsInsertion>::empty());
        if spec_parse_insertions(blob@, 0) is Ok {
            let rest = spec_parse_insertions(blob@, 0)->Ok_0;
            assert(abs_insertions_of(out@) + rest =~= rest);
        }
    }
    loop
        invariant
            pos <= blob@.len(),
            insertions_acc_ok(blob@, pos as int, abs_insertions_of(out@)),
        decreases blob@.len() - pos,
    {
        match next_cell(blob, pos) {
            Option::None => {
                proof {
                    assert(spec_parse_insertions(blob@, pos as int) == Ok::<
                        Seq<AbsInsertion>,
                        SbvcError,
                    >(Seq::empty()));
                    assert(abs_insertions_of(out@) + Seq::<AbsInsertion>::empty()
                        =~= abs_insertions_of(out@));
                }
                return Ok(out);
            },
            Option::Some((cs, ce, np)) => {
                let ghost rest0 = spec_parse_insertions(blob@, np as int);
                match parse_insertion_cell(vstd::slice::slice_subrange(blob, cs, ce)) {
                    Err(e) => {
                        return Err(e);
                    },
                    Ok(ins) => {
                        let ghost out0 = out@;
                        let ghost a = (ins.start, ins.data@);
                        out.push(ins);
                        proof {
                            assert(abs_insertions_of(out@) =~= abs_insertions_of(out0).push(a));
                            if rest0 is Ok {
                                let rest = rest0->Ok_0;
                                assert(spec_parse_insertions(blob@, pos as int) == Ok::<
                                    Seq<AbsInsertion>,
                                    SbvcError,
                                >(seq![a] + rest));
                                assert(abs_insertions_of(out0) + (seq![a] + rest)
                                    =~= abs_insertions_of(out@) + rest);
                            }
                        }
                        pos = np;
                    },
                }
            },
        }
    }
}

/// Parses one version cell.
fn parse_version_cell(cell: &[u8]) -> (r: SbvcResult<Version>)
    ensures
        r matches Ok(v) ==> spec_parse_version(cell@) == Ok::<AbsVersion, SbvcError>(
            abs_of_version(v),
        ),
        r matches Err(e) ==> spec_parse_version(cell@) == Err::<AbsVersion, SbvcError>(e),
{
    let (cs1, ce1, p1) = match next_cell(cell, 0) {
        Option::None => {
            return Err(SbvcError::InvalidFormat(FormatField::VersionId));
        },
        Option::Some(t) => t,
    };
    let id = match parse_u32_field(
        vstd::slice::slice_subrange(cell, cs1, ce1),
        FormatField::VersionId,
    ) {
        Ok(v) => v,
        Err(e) => {
            return Err(e);
        },
    };
    let (cs2, ce2, p2) = match next_cell(cell, p1) {
        Option::None => {
            return Err(SbvcError::InvalidFormat(FormatField::BaseId));
        },
        Option::Some(t) => t,
    };
    let base = match parse_u32_field(
        vstd::slice::slice_subrange(cell, cs2, ce2),
        FormatField::BaseId,
    ) {
        Ok(v) => v,
        Err(e) => {
            return Err(e);
        },
    };
    let (cs3, ce3, p3) = match next_cell(cell, p2) {
        Option::None => {
            return Err(SbvcError::InvalidFormat(FormatField::Meta));
        },
        Option::Some(t) => t,
    };
    let meta = vstd::slice::slice_subrange(cell, cs3, ce3);
    let (mc1, me1, mp1) = match next_cell(meta, 0) {
        Option::None => {
            return Err(SbvcError::InvalidFormat(FormatField::Name));
        },
        Option::Some(t) => t,
    };
    let name = vstd::slice::slice_to_vec(vstd::slice::slice_subrange(meta, mc1, me1));
    let (mc2, me2, _mp2) = match next_cell(meta, mp1) {
        Option::None => {
            return Err(SbvcError::InvalidFormat(FormatField::Date));
        },
        Option::Some(t) => t,
    };
    let date = match parse_u64_field(
        vstd::slice::slice_subrange(meta, mc2, me2),
        FormatField::Date,
    ) {
        Ok(v) => v,
        Err(e) => {
            return Err(e);
        },
    };
    let (cs4, ce4, p4) = match next_cell(cell, p3) {
        Option::None => {
            return Err(SbvcError::InvalidFormat(FormatField::Deletions));
        },
        Option::Some(t) => t,
    };
    let deletions = match parse_deletions_list(vstd::slice::slice_subrange(cell, cs4, ce4)) {
        Ok(v) => v,
        Err(e) => {
            return Err(e);
        },
    };
    let (cs5, ce5, _p5) = match next_cell(cell, p4) {
        Option::None => {
            return Err(SbvcError::InvalidFormat(FormatField::Insertions));
        },
        Option::Some(t) => t,
    };
    let insertions = match parse_insertions_list(vstd::slice::slice_subrange(cell, cs5, ce5)) {
        Ok(v) => v,
        Err(e) => {
            return Err(e);
        },
    };
    let v = Version { id, base, name, date, difference: Difference { deletions, insertions } };
    proof {
        assert(abs_of_version(v) == spec_parse_version(cell@)->Ok_0);
    }
    Ok(v)
}

/// The parse of the remaining version cells, continued with what was
/// already collected, agrees with the parse of the whole list.
pub open spec fn versions_acc_ok(blob: Seq<u8>, pos: int, acc: Seq<AbsVersion>) -> bool {
    match spec_parse_versions(blob, pos) {
        Ok(rest) => spec_parse_versions(blob, 0) == Ok::<Seq<AbsVersion>, SbvcError>(acc + rest),
        Err(e) => spec_parse_versions(blob, 0) == Err::<Seq<AbsVersion>, SbvcError>(e),
    }
}

/// Parses the whole list of version cells.
fn parse_versions_list(blob: &[u8]) -> (r: SbvcResult<Vec<Version>>)
    ensures
        r matches Ok(vsx) ==> spec_parse_versions(blob@, 0) == Ok::<Seq<AbsVersion>, SbvcError>(
            abs_seq(vsx@),
        ),
        r matches Err(e) ==> spec_parse_versions(blob@, 0) == Err::<Seq<AbsVersion>, SbvcError>(
            e,
        ),
{
    let mut out: Vec<Version> = Vec::new();
    let mut pos: usize = 0;
    proof {
        assert(abs_seq(out@) =~= Seq::<AbsVersion>::empty());
        if spec_parse_versions(blob@, 0) is Ok {
            let rest = spec_parse_versions(blob@, 0)->Ok_0;
            assert(abs_seq(out@) + rest =~= rest);
        }
    }
    loop
        invariant
            pos <= blob@.len(),
            versions_acc_ok(blob@, pos as int, abs_seq(out@)),
        decreases blob@.len() - pos,
    {
        match next_cell(blob, pos) {
            Option::None => {
                proof {
                    assert(spec_parse_versions(blob@, pos as int) == Ok::<
                        Seq<AbsVersion>,
                        SbvcError,
                    >(Seq::empty()));
                    assert(abs_seq(out@) + Seq::<AbsVersion>::empty() =~= abs_seq(out@));
                }
                return Ok(out);
            },
            Option::Some((cs, ce, np)) => {
                let ghost rest0 = spec_parse_versions(blob@, np as int);
                match parse_version_cell(vstd::slice::slice_subrange(blob, cs, ce)) {
                    Err(e) => {
                        return Err(e);
                    },
                    Ok(v) => {
                        let ghost out0 = out@;
                        let ghost a = abs_of_version(v);
                        out.push(v);
                        proof {
                            assert(abs_seq(out@) =~= abs_seq(out0).push(a));
                            if rest0 is Ok {
                                let rest = rest0->Ok_0;
                                assert(spec_parse_versions(blob@, pos as int) == Ok::<
                                    Seq<AbsVersion>,
                                    SbvcError,
                                >(seq![a] + rest));
                                assert(abs_seq(out0) + (seq![a] + rest) =~= abs_seq(out@) + rest);
                            }
                        }
                        pos = np;
                    },
                }
            },
        }
    }
}

/// Checks that both halves of an edit script are sorted.
#[verifier::rlimit(30)]
fn check_difference_wf(d: &Difference) -> (b: bool)
    ensures
        b == d.wf(),
{
    let n = d.deletions.len();
    let mut k: usize = 0;
    while k < n
        invariant
            n == d.deletions@.len(),
            k <= n,
            forall|j: int| #![trigger d.deletions@[j]] 0 <= j < k ==> d.deletions@[j].start
                <= d.deletions@[j].end,
            forall|j: int| #![trigger d.deletions@[j]] 0 <= j && j + 1 < k ==> d.deletions@[j].end
                <= d.deletions@[j + 1].start,
        decreases n - k,
    {
        let dd = d.deletions[k];
        if dd.start > dd.end {
            proof {
                assert(d.deletions@[k as int].start > d.deletions@[k as int].end);
            }
            return false;
        }
        if k > 0 && d.deletions[k - 1].end > dd.start {
            proof {
                assert(d.deletions@[k - 1].end > d.deletions@[k as int].start);
            }
            return false;
        }
        k += 1;
    }
    let m = d.insertions.len();
    let mut k2: usize = 0;
    while k2 < m
        invariant
            m == d.insertions@.len(),
            crate::edit::deletions_wf(d.deletions@),
            k2 <= m,
            forall|j: int| #![trigger d.insertions@[j]] 0 <= j && j + 1 < k2
                ==> d.insertions@[j].start < d.insertions@[j + 1].start,
        decreases m - k2,
    {
        if k2 > 0 && d.insertions[k2 - 1].start >= d.insertions[k2].start {
            proof {
                assert(d.insertions@[k2 - 1].start >= d.insertions@[k2 as int].start);
            }
            return false;
        }
        k2 += 1;
    }
    true
}

/// Checks that a list of versions forms a rooted tree with identifiers
/// below `next`.
fn check_tree_shape(vs: &Vec<Version>, next: u32) -> (b: bool)
    ensures
        b == crate::tree::versions_wf(vs@, next),
{
    if vs.len() == 0 {
        return false;
    }
    if vs[0].base != vs[0].id {
        return false;
    }
    if vs[0].difference.deletions.len() != 0 || vs[0].difference.insertions.len() != 0 {
        return false;
    }
    let n = vs.len();
    let mut i: usize = 0;
    while i < n
        invariant
            n == vs@.len(),
            n >= 1,
            i <= n,
            vs@[0].base == vs@[0].id,
            vs@[0].difference.is_empty(),
            forall|j: int| #![trigger vs@[j]] 0 <= j < i ==> crate::tree::find_id(vs@, vs@[j].id)
                == j,
            forall|j: int| #![trigger vs@[j]] 1 <= j < i ==> 0 <= crate::tree::find_id(
                vs@,
                vs@[j].base,
            ) < j,
            forall|j: int| #![trigger vs@[j]] 0 <= j < i ==> vs@[j].id < next,
            forall|j: int| #![trigger vs@[j]] 0 <= j < i ==> vs@[j].difference.wf(),
        decreases n - i,
    {
        let vid = vs[i].id;
        match crate::tree::find_in(vs, vid) {
            Option::Some(f) => {
                if f != i {
                    return false;
                }
            },
            Option::None => {
                proof {
                    crate::tree::lemma_find_id(vs@, vid);
                    assert(vs@[i as int].id == vid);
                }
                return false;
            },
        }
        if i >= 1 {
            let vbase = vs[i].base;
            match crate::tree::find_in(vs, vbase) {
                Option::Some(p) => {
                    if p >= i {
                        return false;
                    }
                },
                Option::None => {
                    return false;
                },
            }
        }
        if !(vs[i].id < next) {
            return false;
        }
        if !check_difference_wf(&vs[i].difference) {
            return false;
        }
        i += 1;
    }
    true
}

impl Sbvc {
    /// Reconstructs a tree from the stored byte format.
    ///
    /// Returns exactly the first parse failure; a set of records that parses
    /// but does not form a rooted tree is rejected as malformed, and a
    /// current identifier that no record carries is reported as not found.
    pub fn open(path: Vec<u8>, source: &[u8]) -> (r: SbvcResult<Sbvc>)
        ensures
            match spec_parse_store(source@) {
                Err(e) => r == Err::<Sbvc, SbvcError>(e),
                Ok(t) => {
                    if !abs_tree_wf(t.3, t.2) {
                        r == Err::<Sbvc, SbvcError>(SbvcError::InvalidFormat(FormatField::TreeShape))
                    } else if find_abs(t.3, t.1) == -1 {
                        r == Err::<Sbvc, SbvcError>(SbvcError::VersionNotFound(t.1))
                    } else {
                        &&& r matches Ok(s)
                        &&& r matches Ok(s) ==> {
                            &&& s.wf()
                            &&& s.path@ == path@
                            &&& s.file@ == t.0
                            &&& s.next == t.2
                            &&& abs_seq(s.versions@) == t.3
                            &&& s.current as int == find_abs(t.3, t.1)
                        }
                    }
                },
            },
    {
        let (f1, f2, p1) = match next_cell(source, 0) {
            Option::None => {
                return Err(SbvcError::InvalidFormat(FormatField::FileName));
            },
            Option::Some(t) => t,
        };
        let file = vstd::slice::slice_to_vec(vstd::slice::slice_subrange(source, f1, f2));
        let (c1, c2, p2) = match next_cell(source, p1) {
            Option::None => {
                return Err(SbvcError::InvalidFormat(FormatField::CurrentId));
            },
            Option::Some(t) => t,
        };
        let cur_id = match parse_u32_field(
            vstd::slice::slice_subrange(source, c1, c2),
            FormatField::CurrentId,
        ) {
            Ok(v) => v,
            Err(e) => {
                return Err(e);
            },
        };
        let (n1, n2, p3) = match next_cell(source, p2) {
            Option::None => {
                return Err(SbvcError::InvalidFormat(FormatField::NextId));
            },
            Option::Some(t) => t,
        };
        let next = match parse_u32_field(
            vstd::slice::slice_subrange(source, n1, n2),
            FormatField::NextId,
        ) {
            Ok(v) => v,
            Err(e) => {
                return Err(e);
            },
        };
        let (v1, v2, _p4) = match next_cell(source, p3) {
            Option::None => {
                return Err(SbvcError::InvalidFormat(FormatField::VersionList));
            },
            Option::Some(t) => t,
        };
        let versions = match parse_versions_list(vstd::slice::slice_subrange(source, v1, v2)) {
            Ok(v) => v,
            Err(e) => {
                return Err(e);
            },
        };
        proof {
            assert(spec_parse_store(source@) == Ok::<(Seq<u8>, u32, u32, Seq<AbsVersion>), SbvcError>(
                (file@, cur_id, next, abs_seq(versions@)),
            ));
            lemma_abs_wf_bridge(versions@, next);
        }
        if !check_tree_shape(&versions, next) {
            return Err(SbvcError::InvalidFormat(FormatField::TreeShape));
        }
        proof {
            lemma_find_abs_matches(versions@, cur_id);
        }
        match crate::tree::find_in(&versions, cur_id) {
            Option::None => Err(SbvcError::VersionNotFound(cur_id)),
            Option::Some(ci) => {
                proof {
                    crate::tree::lemma_find_id(versions@, cur_id);
                }
                Ok(Sbvc { path, file, current: ci, next, versions })
            },
        }
    }
}

/// Prefixes of a digit string never denote more than the whole string.
proof fn lemma_digits_val_grows(s: Seq<u8>, m: int)
    requires
        0 <= m <= s.len(),
    ensures
        digits_val(s.take(m)) <= digits_val(s),
    decreases s.len() - m,
{
    if m < s.len() {
        lemma_digits_val_grows(s, m + 1);
        assert(s.take(m + 1).take(m) =~= s.take(m));
        assert(digits_val(s.take(m + 1)) == digits_val(s.take(m)) * 10 + (if s.take(m + 1)[m]
            >= 48 {
            (s.take(m + 1)[m] - 48) as nat
        } else {
            0
        }));
        assert(digits_val(s.take(m)) * 10 >= digits_val(s.take(m))) by (nonlinear_arith);
    } else {
        assert(s.take(m) =~= s);
    }
}

} // verus!
