//! Aggregation of scan results: per-entry outcomes of one directory are
//! merged into a single partial result, and the root's partial result is
//! shaped into the final ranked summary.
use vstd::prelude::*;

use vstd::string::StringExecFns;

use crate::counts::CharCounts;
use crate::counts::CharFreq;
use crate::counts::sum_freqs;

verus! {

/// A frequency list ranked by descending count.
pub open spec fn sorted_desc(s: Seq<CharFreq>) -> bool {
    forall|a: int, b: int|
        0 <= a <= b < s.len() ==> (#[trigger] s[a]).count
            >= (#[trigger] s[b]).count
}

/// The merged partial result of one directory subtree: its character
/// counts, how many files were read successfully, and the errors gathered
/// along the way.
pub struct DirScanData {
    pub char_count: CharCounts,
    pub files_processed: u64,
    pub error_files: Vec<String>,
}

/// The outcome of scanning one directory entry: a file tallied, a subtree
/// merged, or a file that could not be read.
pub enum ScanTaskResult {
    /// A file was read and tallied; it counts as one processed file.
    FileScanned(CharCounts),
    /// A subdirectory was scanned and its results merged.
    DirScanned(DirScanData),
    /// A file could not be read; the entry records `path: reason`.
    FileError(String),
}

/// The contribution of one outcome to the count of the character `c`.
pub open spec fn task_count(t: ScanTaskResult, c: char) -> nat {
    match t {
        ScanTaskResult::FileScanned(counts) => counts.count(c),
        ScanTaskResult::DirScanned(d) => d.char_count.count(c),
        ScanTaskResult::FileError(_) => 0,
    }
}

/// The contribution of one outcome to the total character count.
pub open spec fn task_total(t: ScanTaskResult) -> nat {
    match t {
        ScanTaskResult::FileScanned(counts) => counts.total_count(),
        ScanTaskResult::DirScanned(d) => d.char_count.total_count(),
        ScanTaskResult::FileError(_) => 0,
    }
}

/// The contribution of one outcome to the processed-file count.
pub open spec fn task_files(t: ScanTaskResult) -> nat {
    match t {
        ScanTaskResult::FileScanned(_) => 1,
        ScanTaskResult::DirScanned(d) => d.files_processed as nat,
        ScanTaskResult::FileError(_) => 0,
    }
}

/// The error entries one outcome contributes, in order.
pub open spec fn task_errors(t: ScanTaskResult) -> Seq<Seq<char>> {
    match t {
        ScanTaskResult::FileScanned(_) => Seq::empty(),
        ScanTaskResult::DirScanned(d) => d.error_files.deep_view(),
        ScanTaskResult::FileError(e) => seq![e@],
    }
}

/// The count of the character `c` after merging all outcomes of `s`.
pub open spec fn merged_count(s: Seq<ScanTaskResult>, c: char) -> nat
    decreases s.len(),
{
    if s.len() == 0 {
        0
    } else {
        merged_count(s.drop_last(), c) + task_count(s.last(), c)
    }
}

/// The total character count after merging all outcomes of `s`.
pub open spec fn merged_total(s: Seq<ScanTaskResult>) -> nat
    decreases s.len(),
{
    if s.len() == 0 {
        0
    } else {
        merged_total(s.drop_last()) + task_total(s.last())
    }
}

/// The processed-file count after merging all outcomes of `s`.
pub open spec fn merged_files(s: Seq<ScanTaskResult>) -> nat
    decreases s.len(),
{
    if s.len() == 0 {
        0
    } else {
        merged_files(s.drop_last()) + task_files(s.last())
    }
}

/// The error entries after merging all outcomes of `s`, in order.
pub open spec fn merged_errors(s: Seq<ScanTaskResult>) -> Seq<Seq<char>>
    decreases s.len(),
{
    if s.len() == 0 {
        Seq::empty()
    } else {
        merged_errors(s.drop_last()) + task_errors(s.last())
    }
}

/// Taking one more outcome adds exactly that outcome's contributions.
proof fn lemma_merged_take_succ(s: Seq<ScanTaskResult>, i: int)
    requires
        0 <= i < s.len(),
    ensures
        forall|c: char|
            merged_count(s.take(i + 1), c) == merged_count(s.take(i), c)
                + task_count(s[i], c),
        merged_total(s.take(i + 1)) == merged_total(s.take(i)) + task_total(
            s[i],
        ),
        merged_files(s.take(i + 1)) == merged_files(s.take(i)) + task_files(
            s[i],
        ),
        merged_errors(s.take(i + 1)) == merged_errors(s.take(i)) + task_errors(
            s[i],
        ),
{
    assert(s.take(i + 1).drop_last() =~= s.take(i));
    assert(s.take(i + 1).last() == s[i]);
}

/// Merged totals only grow as more outcomes are taken.
proof fn lemma_merged_take_le(s: Seq<ScanTaskResult>, j: int)
    requires
        0 <= j <= s.len(),
    ensures
        merged_total(s.take(j)) <= merged_total(s),
        merged_files(s.take(j)) <= merged_files(s),
    decreases s.len() - j,
{
    if j == s.len() {
        assert(s.take(j) =~= s);
    } else {
        lemma_merged_take_succ(s, j);
        lemma_merged_take_le(s, j + 1);
    }
}

/// Merge the per-entry outcomes of one directory level into a single
/// partial result: character counts summed key-wise, processed files
/// summed, error entries concatenated in order.
///
/// Returns `None` exactly when the summed totals would not fit in 64 bits.
pub fn merge_task_results(results: &Vec<ScanTaskResult>) -> (r: Option<
    DirScanData,
>)
    ensures
        match r {
            Some(d) => {
                &&& merged_total(results@) <= u64::MAX
                &&& merged_files(results@) <= u64::MAX
                &&& forall|c: char|
                    d.char_count.count(c) == merged_count(results@, c)
                &&& d.char_count.total_count() == merged_total(results@)
                &&& d.files_processed as nat == merged_files(results@)
                &&& d.error_files.deep_view() == merged_errors(results@)
            },
            None => merged_total(results@) > u64::MAX || merged_files(results@)
                > u64::MAX,
        },
{
    let ghost s = results@;
    let mut counts = CharCounts::new();
    let mut files: u64 = 0;
    let mut errors: Vec<String> = Vec::new();
    let mut i: usize = 0;
    proof {
        assert(s.take(0) =~= Seq::<ScanTaskResult>::empty());
        assert(errors.deep_view() =~= merged_errors(s.take(0)));
    }
    while i < results.len()
        invariant
            s == results@,
            i <= s.len(),
            forall|c: char|
                #[trigger] counts.count(c) == merged_count(s.take(i as int), c),
            counts.total_count() == merged_total(s.take(i as int)),
            counts.total_count() <= u64::MAX,
            files as nat == merged_files(s.take(i as int)),
            errors.deep_view() == merged_errors(s.take(i as int)),
        decreases s.len() - i,
    {
        proof {
            lemma_merged_take_succ(s, i as int);
        }
        let task = &results[i];
        match task {
            ScanTaskResult::FileScanned(fc) => {
                let ft = fc.total();
                if u64::MAX - counts.total() < ft {
                    proof {
                        lemma_merged_take_le(s, i as int + 1);
                    }
                    return None;
                }
                counts = counts.merge(fc);
                if files == u64::MAX {
                    proof {
                        lemma_merged_take_le(s, i as int + 1);
                    }
                    return None;
                }
                files = files + 1;
            },
            ScanTaskResult::DirScanned(d) => {
                let dt = d.char_count.total();
                if u64::MAX - counts.total() < dt {
                    proof {
                        lemma_merged_take_le(s, i as int + 1);
                    }
                    return None;
                }
                counts = counts.merge(&d.char_count);
                if u64::MAX - files < d.files_processed {
                    proof {
                        lemma_merged_take_le(s, i as int + 1);
                    }
                    return None;
                }
                files = files + d.files_processed;
                let ghost e0 = errors.deep_view();
                let mut j: usize = 0;
                while j < d.error_files.len()
                    invariant
                        j <= d.error_files@.len(),
                        errors.deep_view() == e0 + d.error_files.deep_view()
                            .take(j as int),
                    decreases d.error_files@.len() - j,
                {
                    let entry = d.error_files[j].clone();
                    let ghost pre = errors.deep_view();
                    proof {
                        assert(entry@ == d.error_files.deep_view()[j as int]);
                    }
                    errors.push(entry);
                    proof {
                        assert forall|t: int| 0 <= t < pre.len() implies
                            errors.deep_view()[t] == pre[t] by {
                        }
                        assert(errors.deep_view()[pre.len() as int] == entry@);
                        assert(errors.deep_view() =~~= pre.push(entry@));
                        assert(e0 + d.error_files.deep_view().take(
                            j as int + 1,
                        ) =~~= (e0 + d.error_files.deep_view().take(
                            j as int,
                        )).push(entry@));
                    }
                    j += 1;
                }
                proof {
                    assert(d.error_files.deep_view().take(
                        d.error_files@.len() as int,
                    ) =~= d.error_files.deep_view());
                    assert(errors.deep_view() =~~= merged_errors(s.take(
                        i as int + 1,
                    )));
                }
            },
            ScanTaskResult::FileError(e) => {
                let entry = e.clone();
                let ghost e0 = errors.deep_view();
                errors.push(entry);
                proof {
                    assert(errors.deep_view() =~~= e0 + task_errors(
                        s[i as int],
                    ));
                }
            },
        }
        i += 1;
    }
    proof {
        assert(s.take(s.len() as int) =~= s);
    }
    Some(DirScanData { char_count: counts, files_processed: files, error_files: errors })
}


/// The final result of one scan: the ranked frequencies and the summary
/// totals, as handed to the output layer.
pub struct FinalOutput {
    /// One entry per distinct character, ranked by descending count.
    pub char_frequencies: Vec<CharFreq>,
    /// Sum of all counts across the tree.
    pub total_chars: u64,
    /// Number of files that were read successfully.
    pub files_processed: u64,
    /// One `path: reason` entry per file that could not be read.
    pub error_files: Vec<String>,
}

/// Hands a frequency entry back unchanged. Reading an entry out of a vector
/// leaves the verifier without the knowledge that its character is a
/// well-formed scalar value; passing it through a parameter restores that.
fn freq_value(cf: CharFreq) -> (r: CharFreq)
    ensures
        r == cf,
{
    cf
}

/// Swapping two positions of a list leaves its multiset of entries as it is.
proof fn lemma_swap_multiset(s: Seq<CharFreq>, i: int, m: int)
    requires
        0 <= i <= m < s.len(),
    ensures
        s.update(i, s[m]).update(m, s[i]).to_multiset() == s.to_multiset(),
{
    if i == m {
        assert(s.update(i, s[m]).update(m, s[i]) =~= s);
    } else {
        broadcast use vstd::multiset::group_multiset_axioms;
        broadcast use vstd::multiset::group_multiset_properties;

        let t1 = s.update(i, s[m]);
        let t2 = t1.update(m, s[i]);
        vstd::seq_lib::to_multiset_update(s, i, s[m]);
        vstd::seq_lib::to_multiset_update(t1, m, s[i]);
        assert(t1[m] == s[m]);
        vstd::seq_lib::to_multiset_contains(s, s[i]);
        assert(s.contains(s[i]));
        assert(s.to_multiset().count(s[i]) >= 1);
        vstd::seq_lib::to_multiset_contains(t1, s[m]);
        assert(t1[m] == s[m] && t1.contains(s[m]));
        assert(t1.to_multiset().count(s[m]) >= 1);
        assert(t2.to_multiset() =~= s.to_multiset());
    }
}

/// Sorts a frequency list by descending count. Only the order changes: the
/// entries form the same multiset before and after.
fn sort_freqs_desc(v: Vec<CharFreq>) -> (r: Vec<CharFreq>)
    ensures
        sorted_desc(r@),
        r@.to_multiset() == v@.to_multiset(),
{
    let mut out = v;
    let n = out.len();
    let mut i: usize = 0;
    while i < n
        invariant
            n == out@.len(),
            i <= n,
            out@.to_multiset() == v@.to_multiset(),
            forall|a: int, b: int|
                0 <= a <= b < i ==> (#[trigger] out@[a]).count
                    >= (#[trigger] out@[b]).count,
            forall|a: int, b: int|
                0 <= a < i <= b < n ==> (#[trigger] out@[a]).count
                    >= (#[trigger] out@[b]).count,
        decreases n - i,
    {
        let mut m = i;
        let mut q = i + 1;
        while q < n
            invariant
                i <= m < q <= n,
                n == out@.len(),
                forall|t: int|
                    i <= t < q ==> (#[trigger] out@[t]).count
                        <= out@[m as int].count,
            decreases n - q,
        {
            if out[q].count > out[m].count {
                m = q;
            }
            q += 1;
        }
        let ghost pre = out@;
        let big = freq_value(out[m]);
        let small = freq_value(out[i]);
        out.set(i, big);
        out.set(m, small);
        proof {
            assert(out@ =~= pre.update(i as int, pre[m as int]).update(
                m as int,
                pre[i as int],
            ));
            lemma_swap_multiset(pre, i as int, m as int);
            assert forall|x: int, y: int| 0 <= x <= y < i + 1 implies
                (#[trigger] out@[x]).count >= (#[trigger] out@[y]).count by {
                if y < i {
                    assert(out@[x] == pre[x]);
                    assert(out@[y] == pre[y]);
                } else if x < i {
                    assert(out@[x] == pre[x]);
                    assert(out@[y] == pre[m as int]);
                }
            }
            assert forall|x: int, y: int| 0 <= x < i + 1 <= y < n implies
                (#[trigger] out@[x]).count >= (#[trigger] out@[y]).count by {
                if y == m as int {
                    assert(out@[y] == pre[i as int]);
                } else {
                    assert(out@[y] == pre[y]);
                }
            }
        }
        i += 1;
    }
    out
}

/// An entry at two positions of a list occurs at least twice in its
/// multiset.
proof fn lemma_two_indexes_count_ge_2(s: Seq<CharFreq>, k1: int, k2: int)
    requires
        0 <= k1 < k2 < s.len(),
        s[k1] == s[k2],
    ensures
        s.to_multiset().count(s[k1]) >= 2,
{
    broadcast use vstd::multiset::group_multiset_axioms;

    vstd::seq_lib::to_multiset_remove(s, k1);
    let t = s.remove(k1);
    assert(t[k2 - 1] == s[k2]);
    vstd::seq_lib::to_multiset_contains(t, s[k2]);
    assert(t.contains(s[k2]));
    vstd::seq_lib::to_multiset_contains(s, s[k1]);
    assert(s.contains(s[k1]));
}

/// Frequency lists with the same multiset of entries have the same sum.
proof fn lemma_sum_freqs_multiset(a: Seq<CharFreq>, b: Seq<CharFreq>)
    requires
        a.to_multiset() == b.to_multiset(),
    ensures
        sum_freqs(a) == sum_freqs(b),
    decreases a.len(),
{
    broadcast use vstd::multiset::group_multiset_axioms;

    vstd::seq_lib::to_multiset_len(a);
    vstd::seq_lib::to_multiset_len(b);
    if a.len() > 0 {
        let x = a.last();
        assert(a.drop_last().push(x) =~= a);
        vstd::seq_lib::to_multiset_build(a.drop_last(), x);
        assert(a.contains(x));
        vstd::seq_lib::to_multiset_contains(a, x);
        vstd::seq_lib::to_multiset_contains(b, x);
        assert(b.contains(x));
        let idx = choose|idx: int| 0 <= idx < b.len() && b[idx] == x;
        vstd::seq_lib::to_multiset_remove(b, idx);
        lemma_sum_freqs_remove(b, idx);
        assert(a.drop_last().to_multiset() =~= b.remove(idx).to_multiset());
        lemma_sum_freqs_multiset(a.drop_last(), b.remove(idx));
    }
}

/// Taking one entry out of a frequency list lowers the sum by its count.
proof fn lemma_sum_freqs_remove(s: Seq<CharFreq>, i: int)
    requires
        0 <= i < s.len(),
    ensures
        sum_freqs(s) == sum_freqs(s.remove(i)) + s[i].count,
    decreases s.len(),
{
    if i == s.len() - 1 {
        assert(s.remove(i) =~= s.drop_last());
    } else {
        lemma_sum_freqs_remove(s.drop_last(), i);
        assert(s.remove(i).drop_last() =~= s.drop_last().remove(i));
        assert(s.remove(i).last() == s.last());
    }
}

/// Shapes the merged result of the root directory into the final summary:
/// the character mapping becomes a list ranked by descending count, the
/// total is the sum of all counts, and the bookkeeping fields are passed
/// through unchanged.
pub fn summarize(data: DirScanData) -> (r: FinalOutput)
    ensures
        r.total_chars as nat == data.char_count.total_count(),
        r.files_processed == data.files_processed,
        r.error_files == data.error_files,
        sorted_desc(r.char_frequencies@),
        forall|k: int|
            0 <= k < r.char_frequencies@.len()
                ==> ((#[trigger] r.char_frequencies@[k]).count as nat
                == data.char_count.count(r.char_frequencies@[k].character)
                && r.char_frequencies@[k].count >= 1),
        forall|c: char|
            data.char_count.count(c) > 0 ==> exists|k: int|
                0 <= k < r.char_frequencies@.len()
                    && (#[trigger] r.char_frequencies@[k]).character == c,
        forall|k1: int, k2: int|
            0 <= k1 < k2 < r.char_frequencies@.len()
                ==> (#[trigger] r.char_frequencies@[k1]).character
                != (#[trigger] r.char_frequencies@[k2]).character,
        sum_freqs(r.char_frequencies@) == r.total_chars as int,
{
    broadcast use vstd::multiset::group_multiset_axioms;

    let freqs = data.char_count.to_freq_vec();
    let sorted = sort_freqs_desc(freqs);
    let total = data.char_count.total();
    proof {
        let fv = freqs@;
        let sv = sorted@;
        assert forall|k: int| 0 <= k < sv.len() implies
            ((#[trigger] sv[k]).count as nat == data.char_count.count(
            sv[k].character,
        ) && sv[k].count >= 1) by {
            assert(sv.contains(sv[k]));
            vstd::seq_lib::to_multiset_contains(sv, sv[k]);
            vstd::seq_lib::to_multiset_contains(fv, sv[k]);
            assert(fv.contains(sv[k]));
            let t = choose|t: int| 0 <= t < fv.len() && fv[t] == sv[k];
            assert(fv[t].count as nat == data.char_count.count(
                fv[t].character,
            ));
        }
        assert forall|c: char| data.char_count.count(c) > 0 implies exists|
            k: int,
        | 0 <= k < sv.len() && (#[trigger] sv[k]).character == c by {
            let t = choose|t: int| 0 <= t < fv.len() && (#[trigger] fv[t])
                .character == c;
            assert(fv.contains(fv[t]));
            vstd::seq_lib::to_multiset_contains(fv, fv[t]);
            vstd::seq_lib::to_multiset_contains(sv, fv[t]);
            assert(sv.contains(fv[t]));
            let k = choose|k: int| 0 <= k < sv.len() && sv[k] == fv[t];
            assert(sv[k].character == c);
        }
        assert forall|k1: int, k2: int| 0 <= k1 < k2 < sv.len() implies
            (#[trigger] sv[k1]).character != (#[trigger] sv[k2]).character by {
            if sv[k1].character == sv[k2].character {
                assert(sv[k1].count as nat == data.char_count.count(
                    sv[k1].character,
                ));
                assert(sv[k2].count as nat == data.char_count.count(
                    sv[k2].character,
                ));
                assert(sv[k1] == sv[k2]);
                lemma_two_indexes_count_ge_2(sv, k1, k2);
                assert(fv.to_multiset().count(sv[k1]) >= 2);
                lemma_distinct_chars_count_le_1(fv, sv[k1]);
            }
        }
        lemma_sum_freqs_multiset(sv, fv);
    }
    FinalOutput {
        char_frequencies: sorted,
        total_chars: total,
        files_processed: data.files_processed,
        error_files: data.error_files,
    }
}

/// In a list whose entries carry pairwise distinct characters, no entry
/// occurs twice.
proof fn lemma_distinct_chars_count_le_1(s: Seq<CharFreq>, x: CharFreq)
    requires
        forall|k1: int, k2: int|
            0 <= k1 < k2 < s.len() ==> (#[trigger] s[k1]).character
                != (#[trigger] s[k2]).character,
    ensures
        s.to_multiset().count(x) <= 1,
    decreases s.len(),
{
    broadcast use vstd::multiset::group_multiset_axioms;

    if s.len() == 0 {
        vstd::seq_lib::to_multiset_len(s);
        assert(s.to_multiset().len() == 0);
    } else {
        let t = s.drop_last();
        assert(t.push(s.last()) =~= s);
        vstd::seq_lib::to_multiset_build(t, s.last());
        lemma_distinct_chars_count_le_1(t, x);
        if x == s.last() {
            if t.to_multiset().count(x) > 0 {
                vstd::seq_lib::to_multiset_contains(t, x);
                let k = choose|k: int| 0 <= k < t.len() && t[k] == x;
                assert(s[k].character == s[s.len() - 1].character);
            }
        }
    }
}

/// The error entry recorded for a file that could not be read:
/// the path, a colon and a space, then the reason.
pub fn file_error_entry(path: &str, reason: &str) -> (r: String)
    ensures
        r@ == path@ + ": "@ + reason@,
{
    let mut s = path.to_owned();
    s.append(": ");
    s.append(reason);
    s
}

/// The message of the one fatal error: the root path does not exist.
pub fn root_missing_error(repo_path: &str) -> (r: String)
    ensures
        r@ == "Path '"@ + repo_path@ + "' does not exist"@,
{
    let mut s = "Path '".to_owned();
    s.append(repo_path);
    s.append("' does not exist");
    s
}


/// Merging is consistent under splitting a directory's outcomes into two
/// groups: the merge of the concatenation equals, key for key and total for
/// total, the sum of the two groups' own merges, with the error entries
/// concatenated. Scanning a tree as two disjoint parts and combining them
/// thus yields the same result as scanning it whole.
pub proof fn lemma_merge_split(a: Seq<ScanTaskResult>, b: Seq<ScanTaskResult>)
    ensures
        forall|c: char|
            merged_count(a + b, c) == merged_count(a, c) + merged_count(b, c),
        merged_total(a + b) == merged_total(a) + merged_total(b),
        merged_files(a + b) == merged_files(a) + merged_files(b),
        merged_errors(a + b) == merged_errors(a) + merged_errors(b),
    decreases b.len(),
{
    if b.len() == 0 {
        assert(a + b =~= a);
        assert(merged_errors(b) =~= Seq::<Seq<char>>::empty());
        assert(merged_errors(a) + merged_errors(b) =~= merged_errors(a));
    } else {
        lemma_merge_split(a, b.drop_last());
        assert((a + b).drop_last() =~= a + b.drop_last());
        assert((a + b).last() == b.last());
        assert forall|c: char| merged_count(a + b, c) == merged_count(a, c)
            + merged_count(b, c) by {
            assert(merged_count(a + b, c) == merged_count(a + b.drop_last(), c)
                + task_count(b.last(), c));
        }
        assert(merged_errors(a) + (merged_errors(b.drop_last()) + task_errors(
            b.last(),
        )) =~= (merged_errors(a) + merged_errors(b.drop_last())) + task_errors(
            b.last(),
        ));
    }
}

/// Removing one outcome takes away exactly its contributions.
proof fn lemma_merged_remove(s: Seq<ScanTaskResult>, i: int)
    requires
        0 <= i < s.len(),
    ensures
        forall|c: char|
            merged_count(s, c) == merged_count(s.remove(i), c) + task_count(
                s[i],
                c,
            ),
        merged_total(s) == merged_total(s.remove(i)) + task_total(s[i]),
        merged_files(s) == merged_files(s.remove(i)) + task_files(s[i]),
    decreases s.len(),
{
    if i == s.len() - 1 {
        assert(s.remove(i) =~= s.drop_last());
    } else {
        lemma_merged_remove(s.drop_last(), i);
        assert(s.remove(i).drop_last() =~= s.drop_last().remove(i));
        assert(s.remove(i).last() == s.last());
        assert forall|c: char| merged_count(s, c) == merged_count(
            s.remove(i),
            c,
        ) + task_count(s[i], c) by {
            assert(merged_count(s.drop_last(), c) == merged_count(
                s.drop_last().remove(i),
                c,
            ) + task_count(s[i], c));
            assert(merged_count(s.remove(i), c) == merged_count(
                s.remove(i).drop_last(),
                c,
            ) + task_count(s.remove(i).last(), c));
        }
    }
}

/// The merged counts, total and processed-file count depend only on which
/// outcomes are merged, not on the order in which they were collected: two
/// collections holding the same outcomes merge to the same numbers. Only
/// the order of the error entries may differ. Scanning the same immutable
/// tree twice thus yields the same totals and the same character counts,
/// however the concurrent collection interleaves.
pub proof fn lemma_merge_order_independent(
    a: Seq<ScanTaskResult>,
    b: Seq<ScanTaskResult>,
)
    requires
        a.to_multiset() == b.to_multiset(),
    ensures
        forall|c: char| merged_count(a, c) == merged_count(b, c),
        merged_total(a) == merged_total(b),
        merged_files(a) == merged_files(b),
    decreases a.len(),
{
    broadcast use vstd::multiset::group_multiset_axioms;

    vstd::seq_lib::to_multiset_len(a);
    vstd::seq_lib::to_multiset_len(b);
    if a.len() > 0 {
        let x = a.last();
        assert(a.drop_last().push(x) =~= a);
        vstd::seq_lib::to_multiset_build(a.drop_last(), x);
        assert(a.contains(x));
        vstd::seq_lib::to_multiset_contains(a, x);
        vstd::seq_lib::to_multiset_contains(b, x);
        assert(b.contains(x));
        let idx = choose|idx: int| 0 <= idx < b.len() && b[idx] == x;
        vstd::seq_lib::to_multiset_remove(b, idx);
        lemma_merged_remove(b, idx);
        assert(a.drop_last().to_multiset() =~= b.remove(idx).to_multiset());
        lemma_merge_order_independent(a.drop_last(), b.remove(idx));
        assert forall|c: char| merged_count(a, c) == merged_count(b, c) by {
            assert(merged_count(a, c) == merged_count(a.drop_last(), c)
                + task_count(x, c));
            assert(merged_count(a.drop_last(), c) == merged_count(
                b.remove(idx),
                c,
            ));
            assert(merged_count(b, c) == merged_count(b.remove(idx), c)
                + task_count(b[idx], c));
        }
    }
}

} // verus!
