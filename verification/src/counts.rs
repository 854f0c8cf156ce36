//! Character-count mappings: the result of tallying one file or one merged
//! subtree, as a map from Unicode scalar value to the number of occurrences.
use vstd::prelude::*;

verus! {

/// One ranked entry of the final output: a character and how often it occurred.
#[derive(Clone, Copy, Debug)]
pub struct CharFreq {
    pub character: char,
    pub count: u64,
}

/// Number of occurrences of the key `c` recorded in the entry list `s`.
/// Entries with other keys contribute nothing; duplicate keys would sum.
pub open spec fn count_in(s: Seq<(char, u64)>, c: char) -> nat
    decreases s.len(),
{
    if s.len() == 0 {
        0
    } else {
        (if s.last().0 == c {
            s.last().1 as nat
        } else {
            0
        }) + count_in(s.drop_last(), c)
    }
}

/// Sum of all counts recorded in the entry list `s`.
pub open spec fn sum_counts(s: Seq<(char, u64)>) -> nat
    decreases s.len(),
{
    if s.len() == 0 {
        0
    } else {
        s.last().1 as nat + sum_counts(s.drop_last())
    }
}

/// Entry lists keep one entry per character and never hold a zero count.
pub open spec fn entries_wf(s: Seq<(char, u64)>) -> bool {
    &&& forall|i: int, j: int|
        0 <= i < j < s.len() ==> (#[trigger] s[i]).0 != (#[trigger] s[j]).0
    &&& forall|i: int| 0 <= i < s.len() ==> (#[trigger] s[i]).1 >= 1
}

/// A character-to-count mapping with its running total.
///
/// Only characters that actually occurred are materialized, each exactly
/// once; the stored total always equals the sum of all stored counts, so no
/// count can exceed the total.
pub struct CharCounts {
    pub(crate) entries: Vec<(char, u64)>,
    pub(crate) total: u64,
}

impl CharCounts {
    #[verifier::type_invariant]
    pub(crate) open spec fn wf(self) -> bool {
        &&& entries_wf(self.entries@)
        &&& self.total as nat == sum_counts(self.entries@)
    }

    /// How many times the character `c` was counted; zero when absent.
    pub closed spec fn count(self, c: char) -> nat {
        count_in(self.entries@, c)
    }

    /// Sum of the counts of all characters.
    pub closed spec fn total_count(self) -> nat {
        self.total as nat
    }

    /// An empty mapping: every character counted zero times.
    pub fn new() -> (r: Self)
        ensures
            forall|c: char| r.count(c) == 0,
            r.total_count() == 0,
    {
        CharCounts { entries: Vec::new(), total: 0 }
    }

    /// Record `n` further occurrences of the character `c`.
    pub fn add(self, c: char, n: u64) -> (r: Self)
        requires
            n >= 1,
            self.total_count() + n <= u64::MAX,
        ensures
            r.count(c) == self.count(c) + n,
            forall|k: char| k != c ==> r.count(k) == self.count(k),
            r.total_count() == self.total_count() + n,
    {
        proof {
            use_type_invariant(&self);
        }
        let CharCounts { mut entries, total } = self;
        let ghost s0 = entries@;
        let new_total = total + n;
        let mut i: usize = 0;
        while i < entries.len()
            invariant
                i <= s0.len(),
                entries@ == s0,
                s0 == self.entries@,
                entries_wf(s0),
                total == self.total,
                new_total == total + n,
                total as nat == sum_counts(s0),
                n >= 1,
                total + n <= u64::MAX,
                forall|j: int| 0 <= j < i ==> (#[trigger] s0[j]).0 != c,
            decreases s0.len() - i,
        {
            if entries[i].0 == c {
                let cur = entries[i].1;
                proof {
                    lemma_count_at_index(s0, i as int);
                    lemma_count_le_sum(s0, c);
                }
                let updated = cur + n;
                proof {
                    lemma_update_same_key(s0, i as int, updated, c);
                    lemma_update_preserves_wf(s0, i as int, updated, c);
                    assert forall|k: char| k != c implies count_in(
                        s0.update(i as int, (c, updated)),
                        k,
                    ) == count_in(s0, k) by {
                        lemma_update_other_key(s0, i as int, updated, c, k);
                    }
                }
                entries.set(i, (c, updated));
                return CharCounts { entries, total: new_total };
            }
            i += 1;
        }
        proof {
            lemma_count_absent(s0, c);
            assert(entries@.push((c, n)).drop_last() =~= s0);
        }
        entries.push((c, n));
        CharCounts { entries, total: new_total }
    }

    /// Add every count of `other` into this mapping, key-wise.
    pub fn merge(self, other: &CharCounts) -> (r: Self)
        requires
            self.total_count() + other.total_count() <= u64::MAX,
        ensures
            forall|k: char| r.count(k) == self.count(k) + other.count(k),
            r.total_count() == self.total_count() + other.total_count(),
    {
        proof {
            use_type_invariant(&self);
            use_type_invariant(other);
        }
        let ghost os = other.entries@;
        let mut acc = self;
        let mut i: usize = 0;
        while i < other.entries.len()
            invariant
                i <= os.len(),
                other.entries@ == os,
                entries_wf(os),
                other.total as nat == sum_counts(os),
                self.total_count() + other.total_count() <= u64::MAX,
                other.total_count() == other.total as nat,
                forall|k: char|
                    #[trigger] acc.count(k) == self.count(k) + count_in(
                        os.take(i as int),
                        k,
                    ),
                acc.total_count() == self.total_count() + sum_counts(
                    os.take(i as int),
                ),
            decreases os.len() - i,
        {
            let (c, n) = other.entries[i];
            proof {
                lemma_take_succ(os, i as int);
                lemma_sum_take_le(os, i as int + 1);
                assert(os[i as int].1 >= 1);
            }
            acc = acc.add(c, n);
            proof {
                assert forall|k: char| acc.count(k) == self.count(k) + count_in(
                    os.take(i as int + 1),
                    k,
                ) by {
                    lemma_take_succ(os, i as int);
                }
            }
            i += 1;
        }
        proof {
            assert(os.take(os.len() as int) =~= os);
        }
        acc
    }

    /// The count recorded for the character `c` (zero when absent).
    pub fn get(&self, c: char) -> (r: u64)
        ensures
            r as nat == self.count(c),
    {
        proof {
            use_type_invariant(self);
        }
        let ghost s0 = self.entries@;
        let mut i: usize = 0;
        while i < self.entries.len()
            invariant
                i <= s0.len(),
                self.entries@ == s0,
                entries_wf(s0),
                forall|j: int| 0 <= j < i ==> (#[trigger] s0[j]).0 != c,
            decreases s0.len() - i,
        {
            if self.entries[i].0 == c {
                proof {
                    lemma_count_at_index(s0, i as int);
                }
                return self.entries[i].1;
            }
            i += 1;
        }
        proof {
            lemma_count_absent(s0, c);
        }
        0
    }

    /// Sum of the counts of all characters.
    pub fn total(&self) -> (r: u64)
        ensures
            r as nat == self.total_count(),
    {
        self.total
    }

    /// The recorded frequencies as a list: one entry per character that was
    /// counted at least once, carrying that character's exact count, and
    /// summing to the total.
    pub fn to_freq_vec(&self) -> (r: Vec<CharFreq>)
        ensures
            forall|k: int|
                0 <= k < r@.len() ==> ((#[trigger] r@[k]).count as nat
                    == self.count(r@[k].character) && r@[k].count >= 1),
            forall|c: char|
                self.count(c) > 0 ==> exists|k: int|
                    0 <= k < r@.len() && (#[trigger] r@[k]).character == c,
            forall|k1: int, k2: int|
                0 <= k1 < k2 < r@.len() ==> (#[trigger] r@[k1]).character
                    != (#[trigger] r@[k2]).character,
            sum_freqs(r@) == self.total_count(),
    {
        proof {
            use_type_invariant(self);
        }
        let ghost s0 = self.entries@;
        let mut freqs: Vec<CharFreq> = Vec::new();
        let mut i: usize = 0;
        while i < self.entries.len()
            invariant
                i <= s0.len(),
                self.entries@ == s0,
                entries_wf(s0),
                self.total as nat == sum_counts(s0),
                self.total_count() == self.total as nat,
                freqs@.len() == i,
                forall|k: int|
                    0 <= k < i ==> (#[trigger] freqs@[k]).character == s0[k].0
                        && freqs@[k].count == s0[k].1,
                sum_freqs(freqs@) == sum_counts(s0.take(i as int)),
            decreases s0.len() - i,
        {
            let c = char_value(self.entries[i].0);
            let n = self.entries[i].1;
            let ghost f0 = freqs@;
            let cf = CharFreq { character: c, count: n };
            freqs.push(cf);
            proof {
                lemma_take_succ(s0, i as int);
                assert(freqs@ == f0.push(cf));
                assert(f0.push(cf).drop_last() =~= f0);
                assert(f0.push(cf).last() == cf);
            }
            i += 1;
        }
        proof {
            assert(s0.take(s0.len() as int) =~= s0);
            assert forall|k: int|
                0 <= k < freqs@.len() implies ((#[trigger] freqs@[k]).count
                as nat == self.count(freqs@[k].character) && freqs@[k].count
                >= 1) by {
                lemma_count_at_index(s0, k);
            }
            assert forall|c: char| self.count(c) > 0 implies exists|k: int|
                0 <= k < freqs@.len() && (#[trigger] freqs@[k]).character == c
                by {
                let k = lemma_count_pos_exists(s0, c);
                assert(freqs@[k].character == c);
            }
        }
        freqs
    }
}

/// Hands a character back unchanged. Reading a `char` out of a tuple held
/// in a vector leaves the verifier without the knowledge that the value is a
/// well-formed scalar value; passing it through a parameter restores that,
/// which the facts about sequences of character-carrying structs need.
fn char_value(c: char) -> (r: char)
    ensures
        r == c,
{
    c
}

/// A key with a positive count stands under some entry.
proof fn lemma_count_pos_exists(s: Seq<(char, u64)>, c: char) -> (k: int)
    requires
        count_in(s, c) > 0,
    ensures
        0 <= k < s.len(),
        s[k].0 == c,
    decreases s.len(),
{
    if s.last().0 == c {
        s.len() - 1
    } else {
        lemma_count_pos_exists(s.drop_last(), c)
    }
}

/// Sum of the counts of a frequency list.
pub open spec fn sum_freqs(s: Seq<CharFreq>) -> int
    decreases s.len(),
{
    if s.len() == 0 {
        0
    } else {
        sum_freqs(s.drop_last()) + s.last().count
    }
}

/// Sum of a table of per-byte tallies.
pub open spec fn sum_usizes(s: Seq<usize>) -> nat
    decreases s.len(),
{
    if s.len() == 0 {
        0
    } else {
        s.last() as nat + sum_usizes(s.drop_last())
    }
}

/// Tally every character of `content`: the resulting mapping counts each
/// Unicode scalar value exactly as often as it occurs, and its total is the
/// character length of `content`.
///
/// Content made only of ASCII characters is tallied through a fixed table of
/// 128 slots indexed by code; anything else falls back to walking the
/// characters one by one. Both paths meet the same contract, so the choice
/// is invisible to callers.
pub fn count_chars(content: &str) -> (r: CharCounts)
    ensures
        forall|c: char| r.count(c) == content@.to_multiset().count(c),
        r.total_count() == content@.len(),
{
    if content.is_ascii() {
        count_chars_ascii(content)
    } else {
        count_chars_general(content)
    }
}

/// Tallies ASCII-only content by indexing a 128-slot table with each byte.
fn count_chars_ascii(content: &str) -> (r: CharCounts)
    requires
        content.is_ascii(),
    ensures
        forall|c: char| r.count(c) == content@.to_multiset().count(c),
        r.total_count() == content@.len(),
{
    broadcast use vstd::string::is_ascii_spec_bytes;
    broadcast use vstd::seq_lib::group_to_multiset_ensures;

    let ghost s = content@;
    let bytes = content.as_bytes();
    let n = bytes.len();
    let mut table: Vec<usize> = Vec::new();
    let mut z: usize = 0;
    while z < 128
        invariant
            z <= 128,
            table@.len() == z,
            sum_usizes(table@) == 0,
            forall|b: int| 0 <= b < z ==> table@[b] == 0,
        decreases 128 - z,
    {
        proof {
            assert(table@.push(0).drop_last() =~= table@);
        }
        table.push(0);
        z += 1;
    }
    proof {
        assert(s.take(0) =~= Seq::<char>::empty());
        assert forall|k: char| (k as u32) < 128 implies table@[k as int]
            == s.take(0).to_multiset().count(k) by {
            lemma_char_code_bounds(k);
            lemma_count_of_missing_char(s.take(0), k);
        }
    }
    let mut i: usize = 0;
    while i < n
        invariant
            s == content@,
            content.is_ascii(),
            bytes@.len() == n,
            n == s.len(),
            forall|j: int| 0 <= j < n ==> bytes@[j] == s[j] as u8,
            i <= n,
            table@.len() == 128,
            sum_usizes(table@) == i,
            forall|k: char|
                (k as u32) < 128 ==> table@[k as int] == s.take(i as int)
                    .to_multiset().count(k),
        decreases n - i,
    {
        let ghost t0 = table@;
        let ghost c = s[i as int];
        let b = bytes[i];
        proof {
            assert('\0' <= c <= '\u{7f}');
            assert(b == c as u8);
            assert(b < 128);
            assert(b as int == c as int);
        }
        let cur = table[b as usize];
        proof {
            lemma_elem_le_sum_usizes(t0, b as int);
            lemma_sum_usizes_update(t0, b as int, (cur + 1) as usize);
            assert(s.take(i as int + 1) =~= s.take(i as int).push(c));
        }
        table.set(b as usize, cur + 1);
        proof {
            let ghost ms0 = s.take(i as int).to_multiset();
            vstd::seq_lib::to_multiset_build(s.take(i as int), c);
            assert forall|k: char| (k as u32) < 128 implies table@[k as int]
                == s.take(i as int + 1).to_multiset().count(k) by {
                lemma_char_code_bounds(k);
                if k == c {
                    assert(ms0.insert(c).count(c) == ms0.count(c) + 1);
                } else {
                    lemma_char_code_eq(k, c);
                    assert(k as int != c as int);
                    assert(table@[k as int] == t0[k as int]);
                    assert(ms0.insert(c).count(k) == ms0.count(k));
                }
            }
        }
        i += 1;
    }
    proof {
        assert(s.take(n as int) =~= s);
    }
    let mut counts = CharCounts::new();
    let mut b: usize = 0;
    while b < 128
        invariant
            s == content@,
            table@.len() == 128,
            sum_usizes(table@) == n,
            n == s.len(),
            b <= 128,
            forall|k: char|
                (k as u32) < 128 ==> table@[k as int] == s.to_multiset().count(
                    k,
                ),
            counts.total_count() == sum_usizes(table@.take(b as int)),
            forall|k: char|
                (k as u32) < b ==> #[trigger] counts.count(k) == s.to_multiset()
                    .count(k),
            forall|k: char| (k as u32) >= b ==> #[trigger] counts.count(k) == 0,
        decreases 128 - b,
    {
        let cnt = table[b];
        proof {
            lemma_sum_usizes_take_succ(table@, b as int);
            lemma_sum_usizes_take_le(table@, b as int + 1);
        }
        let ghost counts0 = counts;
        let ch = (b as u8) as char;
        proof {
            assert(ch as u32 == b);
            assert(table@[ch as int] == s.to_multiset().count(ch));
        }
        if cnt > 0 {
            counts = counts.add(ch, cnt as u64);
        }
        proof {
            assert forall|k: char| (k as u32) < b + 1 implies #[trigger] counts
                .count(k) == s.to_multiset().count(k) by {
                if (k as u32) == b {
                    assert(counts0.count(k) == 0);
                    lemma_char_code_eq(k, ch);
                    assert(k == ch);
                } else {
                    assert(counts.count(k) == counts0.count(k));
                }
            }
            assert forall|k: char| (k as u32) >= b + 1 implies #[trigger] counts
                .count(k) == 0 by {
                assert(counts.count(k) == counts0.count(k));
            }
        }
        b += 1;
    }
    proof {
        assert(table@.take(128) =~= table@);
        assert forall|c: char| (c as u32) >= 128 implies s.to_multiset().count(
            c,
        ) == 0 by {
            lemma_count_of_missing_char(s, c);
        }
    }
    counts
}

/// Tallies arbitrary content by walking its characters one at a time.
fn count_chars_general(content: &str) -> (r: CharCounts)
    ensures
        forall|c: char| r.count(c) == content@.to_multiset().count(c),
        r.total_count() == content@.len(),
{
    broadcast use vstd::seq_lib::group_to_multiset_ensures;

    let ghost s = content@;
    let n = content.unicode_len();
    let mut counts = CharCounts::new();
    proof {
        assert(s.take(0) =~= Seq::<char>::empty());
        assert forall|c: char| counts.count(c) == s.take(0).to_multiset().count(
            c,
        ) by {
            lemma_count_of_missing_char(s.take(0), c);
        }
    }
    let mut i: usize = 0;
    while i < n
        invariant
            s == content@,
            n == s.len(),
            i <= n,
            counts.total_count() == i,
            forall|c: char|
                #[trigger] counts.count(c) == s.take(i as int).to_multiset()
                    .count(c),
        decreases n - i,
    {
        let c = content.get_char(i);
        let ghost counts0 = counts;
        proof {
            assert(s.take(i as int + 1) =~= s.take(i as int).push(c));
            vstd::seq_lib::to_multiset_build(s.take(i as int), c);
        }
        counts = counts.add(c, 1);
        proof {
            let ghost ms0 = s.take(i as int).to_multiset();
            assert forall|k: char| #[trigger] counts.count(k) == s.take(
                i as int + 1,
            ).to_multiset().count(k) by {
                if k == c {
                    assert(ms0.insert(c).count(c) == ms0.count(c) + 1);
                } else {
                    assert(counts.count(k) == counts0.count(k));
                    assert(ms0.insert(c).count(k) == ms0.count(k));
                }
            }
        }
        i += 1;
    }
    proof {
        assert(s.take(n as int) =~= s);
    }
    counts
}

/// Two characters are equal exactly when their code points are equal.
proof fn lemma_char_code_eq(a: char, b: char)
    ensures
        (a as int == b as int) <==> (a == b),
        (a as u32 == b as u32) <==> (a == b),
{
    if a as int == b as int {
        assert(a == b);
    }
    if a as u32 == b as u32 {
        assert(a == b);
    }
}

/// A character's code point is one value, whatever the cast target, and it
/// lies below the Unicode upper bound.
proof fn lemma_char_code_bounds(c: char)
    ensures
        c as int == (c as u32) as int,
        0 <= (c as int),
        (c as int) < 0x110000,
{
}

/// A character that occurs nowhere in a sequence has multiset count zero.
proof fn lemma_count_of_missing_char(s: Seq<char>, c: char)
    requires
        forall|j: int| 0 <= j < s.len() ==> s[j] != c,
    ensures
        s.to_multiset().count(c) == 0,
{
    vstd::seq_lib::to_multiset_contains(s, c);
    if s.to_multiset().count(c) > 0 {
        assert(s.contains(c));
    }
}

/// One slot of a tally table never exceeds the table's sum.
proof fn lemma_elem_le_sum_usizes(s: Seq<usize>, j: int)
    requires
        0 <= j < s.len(),
    ensures
        s[j] <= sum_usizes(s),
    decreases s.len(),
{
    if j < s.len() - 1 {
        lemma_elem_le_sum_usizes(s.drop_last(), j);
    }
}

/// Raising one slot of a tally table raises its sum by the same amount.
proof fn lemma_sum_usizes_update(s: Seq<usize>, j: int, v: usize)
    requires
        0 <= j < s.len(),
    ensures
        sum_usizes(s.update(j, v)) == sum_usizes(s) - s[j] + v,
    decreases s.len(),
{
    let t = s.update(j, v);
    if j == s.len() - 1 {
        assert(t.drop_last() =~= s.drop_last());
    } else {
        lemma_sum_usizes_update(s.drop_last(), j, v);
        assert(t.drop_last() =~= s.drop_last().update(j, v));
    }
}

/// Taking one more slot adds exactly that slot's tally to the prefix sum.
proof fn lemma_sum_usizes_take_succ(s: Seq<usize>, j: int)
    requires
        0 <= j < s.len(),
    ensures
        sum_usizes(s.take(j + 1)) == sum_usizes(s.take(j)) + s[j],
{
    assert(s.take(j + 1).drop_last() =~= s.take(j));
    assert(s.take(j + 1).last() == s[j]);
}

/// The prefix sum of a tally table never exceeds the full sum.
proof fn lemma_sum_usizes_take_le(s: Seq<usize>, j: int)
    requires
        0 <= j <= s.len(),
    ensures
        sum_usizes(s.take(j)) <= sum_usizes(s),
    decreases s.len() - j,
{
    if j == s.len() {
        assert(s.take(j) =~= s);
    } else {
        lemma_sum_usizes_take_succ(s, j);
        lemma_sum_usizes_take_le(s, j + 1);
    }
}

/// With one entry per key, the count of an entry's key is that entry's count.
proof fn lemma_count_at_index(s: Seq<(char, u64)>, i: int)
    requires
        entries_wf(s),
        0 <= i < s.len(),
    ensures
        count_in(s, s[i].0) == s[i].1,
    decreases s.len(),
{
    if i == s.len() - 1 {
        lemma_count_absent(s.drop_last(), s[i].0);
    } else {
        lemma_count_at_index(s.drop_last(), i);
    }
}

/// A key under none of the entries has count zero.
proof fn lemma_count_absent(s: Seq<(char, u64)>, c: char)
    requires
        forall|j: int| 0 <= j < s.len() ==> (#[trigger] s[j]).0 != c,
    ensures
        count_in(s, c) == 0,
    decreases s.len(),
{
    if s.len() > 0 {
        lemma_count_absent(s.drop_last(), c);
    }
}

/// No single count exceeds the sum of all counts.
proof fn lemma_count_le_sum(s: Seq<(char, u64)>, c: char)
    ensures
        count_in(s, c) <= sum_counts(s),
    decreases s.len(),
{
    if s.len() > 0 {
        lemma_count_le_sum(s.drop_last(), c);
    }
}

/// Replacing the count stored at index `i` adjusts the key's total count and
/// the overall sum by the difference.
proof fn lemma_update_same_key(s: Seq<(char, u64)>, i: int, n: u64, c: char)
    requires
        0 <= i < s.len(),
        s[i].0 == c,
    ensures
        count_in(s.update(i, (c, n)), c) == count_in(s, c) - s[i].1 + n,
        sum_counts(s.update(i, (c, n))) == sum_counts(s) - s[i].1 + n,
    decreases s.len(),
{
    let t = s.update(i, (c, n));
    if i == s.len() - 1 {
        assert(t.drop_last() =~= s.drop_last());
    } else {
        lemma_update_same_key(s.drop_last(), i, n, c);
        assert(t.drop_last() =~= s.drop_last().update(i, (c, n)));
    }
}

/// Replacing the count stored under one key leaves every other key's count
/// unchanged.
proof fn lemma_update_other_key(
    s: Seq<(char, u64)>,
    i: int,
    n: u64,
    c: char,
    k: char,
)
    requires
        0 <= i < s.len(),
        s[i].0 == c,
        k != c,
    ensures
        count_in(s.update(i, (c, n)), k) == count_in(s, k),
    decreases s.len(),
{
    let t = s.update(i, (c, n));
    if i == s.len() - 1 {
        assert(t.drop_last() =~= s.drop_last());
    } else {
        lemma_update_other_key(s.drop_last(), i, n, c, k);
        assert(t.drop_last() =~= s.drop_last().update(i, (c, n)));
    }
}

/// Replacing one entry's count with another positive count keeps the entry
/// list well formed: the keys do not change.
proof fn lemma_update_preserves_wf(s: Seq<(char, u64)>, i: int, n: u64, c: char)
    requires
        entries_wf(s),
        0 <= i < s.len(),
        s[i].0 == c,
        n >= 1,
    ensures
        entries_wf(s.update(i, (c, n))),
{
    let t = s.update(i, (c, n));
    assert forall|a: int, b: int|
        0 <= a < b < t.len() implies (#[trigger] t[a]).0 != (#[trigger] t[b]).0 by {
        assert(t[a].0 == s[a].0);
        assert(t[b].0 == s[b].0);
    }
    assert forall|a: int| 0 <= a < t.len() implies (#[trigger] t[a]).1 >= 1 by {
        if a != i {
            assert(t[a] == s[a]);
        }
    }
}

/// Taking one more entry adds exactly that entry's contribution.
proof fn lemma_take_succ(s: Seq<(char, u64)>, i: int)
    requires
        0 <= i < s.len(),
    ensures
        sum_counts(s.take(i + 1)) == sum_counts(s.take(i)) + s[i].1,
        forall|k: char|
            count_in(s.take(i + 1), k) == count_in(s.take(i), k) + (if s[i].0
                == k {
                s[i].1 as nat
            } else {
                0
            }),
{
    assert(s.take(i + 1).drop_last() =~= s.take(i));
    assert(s.take(i + 1).last() == s[i]);
}

/// The sum over a prefix never exceeds the sum over the whole list.
proof fn lemma_sum_take_le(s: Seq<(char, u64)>, j: int)
    requires
        0 <= j <= s.len(),
    ensures
        sum_counts(s.take(j)) <= sum_counts(s),
    decreases s.len() - j,
{
    if j == s.len() {
        assert(s.take(j) =~= s);
    } else {
        lemma_take_succ(s, j);
        lemma_sum_take_le(s, j + 1);
    }
}

} // verus!
