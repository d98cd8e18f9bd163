//! Subsequence containment on character strings.
//!
//! `sub` is a subsequence of `seq` when the characters of `sub` occur in `seq`
//! in order, not necessarily next to each other.

use vstd::prelude::*;

verus! {

/// `idx` places the characters of `sub`, in order, on positions of `seq`.
pub open spec fn is_embedding(idx: Seq<int>, seq: Seq<char>, sub: Seq<char>) -> bool {
    &&& idx.len() == sub.len()
    &&& forall|k: int| 0 <= k < idx.len() ==> 0 <= #[trigger] idx[k] < seq.len() && seq[idx[k]] == sub[k]
    &&& forall|j: int, k: int| 0 <= j < k < idx.len() ==> idx[j] < idx[k]
}

/// `sub` is a subsequence of `seq`: its characters can be placed, in order,
/// on strictly increasing positions of `seq`.
pub open spec fn is_subsequence(seq: Seq<char>, sub: Seq<char>) -> bool {
    exists|idx: Seq<int>| is_embedding(idx, seq, sub)
}

/// Whether one pass over `seq` from the front finds `sub` in it: the first
/// character of `seq` is used for the first character of `sub` whenever the
/// two are equal.
pub open spec fn scan_matches(seq: Seq<char>, sub: Seq<char>) -> bool
    decreases seq.len(),
{
    if sub.len() == 0 {
        true
    } else if seq.len() == 0 {
        false
    } else if seq[0] == sub[0] {
        scan_matches(seq.drop_first(), sub.drop_first())
    } else {
        scan_matches(seq.drop_first(), sub)
    }
}

/// What is left of the query `rest` after one edge labelled `c` has been
/// followed: the first character is used up when the label equals it.
pub open spec fn advance(rest: Seq<char>, c: char) -> Seq<char> {
    if rest.len() > 0 && rest[0] == c {
        rest.drop_first()
    } else {
        rest
    }
}

/// `p` is a prefix of `s`.
pub open spec fn is_prefix(p: Seq<char>, s: Seq<char>) -> bool {
    p.len() <= s.len() && s.take(p.len() as int) == p
}

/// The empty string is a subsequence of every string.
pub proof fn lemma_subsequence_empty(seq: Seq<char>)
    ensures
        is_subsequence(seq, Seq::<char>::empty()),
{
    lemma_subsequence_iff_scan(seq, Seq::<char>::empty());
}

/// A subsequence is never longer than the sequence that holds it.
pub proof fn lemma_subsequence_len(seq: Seq<char>, sub: Seq<char>)
    requires
        is_subsequence(seq, sub),
    ensures
        sub.len() <= seq.len(),
{
    lemma_subsequence_iff_scan(seq, sub);
    lemma_scan_len(seq, sub);
}

proof fn lemma_scan_len(seq: Seq<char>, sub: Seq<char>)
    requires
        scan_matches(seq, sub),
    ensures
        sub.len() <= seq.len(),
    decreases seq.len(),
{
    if sub.len() == 0 {
    } else if seq[0] == sub[0] {
        lemma_scan_len(seq.drop_first(), sub.drop_first());
    } else {
        lemma_scan_len(seq.drop_first(), sub);
    }
}

/// What is a subsequence of a prefix of `seq` is a subsequence of `seq`.
pub proof fn lemma_subsequence_of_prefix(seq: Seq<char>, m: int, sub: Seq<char>)
    requires
        0 <= m <= seq.len(),
        is_subsequence(seq.take(m), sub),
    ensures
        is_subsequence(seq, sub),
{
    let idx = choose|idx: Seq<int>| is_embedding(idx, seq.take(m), sub);
    assert forall|k: int| 0 <= k < idx.len() implies 0 <= #[trigger] idx[k] < seq.len() && seq[idx[k]]
        == sub[k] by {
        assert(0 <= idx[k] < seq.take(m).len());
        assert(seq.take(m)[idx[k]] == sub[k]);
    }
    assert(is_embedding(idx, seq, sub));
}

/// Following the first character of a non-empty `seq` as an edge: `sub` is a
/// subsequence of `seq` exactly when what `advance` leaves of it is a
/// subsequence of the rest of `seq`.
pub proof fn lemma_subsequence_step(seq: Seq<char>, sub: Seq<char>)
    requires
        seq.len() > 0,
        sub.len() > 0,
    ensures
        is_subsequence(seq, sub) == is_subsequence(seq.drop_first(), advance(sub, seq[0])),
{
    lemma_subsequence_iff_scan(seq, sub);
    lemma_subsequence_iff_scan(seq.drop_first(), advance(sub, seq[0]));
}

/// One pass from the front finds a subsequence exactly when there is one.
pub proof fn lemma_subsequence_iff_scan(seq: Seq<char>, sub: Seq<char>)
    ensures
        is_subsequence(seq, sub) == scan_matches(seq, sub),
{
    if scan_matches(seq, sub) {
        let idx = lemma_embedding_from_scan(seq, sub);
    }
    if exists|idx: Seq<int>| is_embedding(idx, seq, sub) {
        let idx = choose|idx: Seq<int>| is_embedding(idx, seq, sub);
        lemma_scan_from_embedding(idx, seq, sub);
    }
}

proof fn lemma_embedding_from_scan(seq: Seq<char>, sub: Seq<char>) -> (idx: Seq<int>)
    requires
        scan_matches(seq, sub),
    ensures
        is_embedding(idx, seq, sub),
    decreases seq.len(),
{
    if sub.len() == 0 {
        Seq::<int>::empty()
    } else if seq[0] == sub[0] {
        let tail = lemma_embedding_from_scan(seq.drop_first(), sub.drop_first());
        let idx = Seq::new(sub.len(), |k: int| if k == 0 { 0 } else { tail[k - 1] + 1 });
        assert forall|k: int| 0 <= k < idx.len() implies 0 <= #[trigger] idx[k] < seq.len()
            && seq[idx[k]] == sub[k] by {
            if k > 0 {
                assert(0 <= tail[k - 1] < seq.drop_first().len());
                assert(seq.drop_first()[tail[k - 1]] == sub.drop_first()[k - 1]);
            }
        }
        assert forall|j: int, k: int| 0 <= j < k < idx.len() implies idx[j] < idx[k] by {
            assert(0 <= tail[k - 1]);
            if j > 0 {
                assert(tail[j - 1] < tail[k - 1]);
            }
        }
        idx
    } else {
        let tail = lemma_embedding_from_scan(seq.drop_first(), sub);
        let idx = Seq::new(sub.len(), |k: int| tail[k] + 1);
        assert forall|k: int| 0 <= k < idx.len() implies 0 <= #[trigger] idx[k] < seq.len()
            && seq[idx[k]] == sub[k] by {
            assert(0 <= tail[k] < seq.drop_first().len());
            assert(seq.drop_first()[tail[k]] == sub[k]);
        }
        assert forall|j: int, k: int| 0 <= j < k < idx.len() implies idx[j] < idx[k] by {
            assert(tail[j] < tail[k]);
        }
        idx
    }
}

proof fn lemma_scan_from_embedding(idx: Seq<int>, seq: Seq<char>, sub: Seq<char>)
    requires
        is_embedding(idx, seq, sub),
    ensures
        scan_matches(seq, sub),
    decreases seq.len(),
{
    if sub.len() == 0 {
    } else {
        assert(0 <= idx[0] < seq.len());
        if seq[0] == sub[0] {
            let tail = Seq::new((sub.len() - 1) as nat, |k: int| idx[k + 1] - 1);
            assert forall|k: int| 0 <= k < tail.len() implies 0 <= #[trigger] tail[k]
                < seq.drop_first().len() && seq.drop_first()[tail[k]] == sub.drop_first()[k] by {
                assert(idx[0] < idx[k + 1]);
                assert(0 <= idx[k + 1] < seq.len());
            }
            assert forall|j: int, k: int| 0 <= j < k < tail.len() implies tail[j] < tail[k] by {
                assert(idx[j + 1] < idx[k + 1]);
            }
            lemma_scan_from_embedding(tail, seq.drop_first(), sub.drop_first());
        } else {
            let tail = Seq::new(sub.len(), |k: int| idx[k] - 1);
            assert forall|k: int| 0 <= k < tail.len() implies 0 <= #[trigger] tail[k]
                < seq.drop_first().len() && seq.drop_first()[tail[k]] == sub[k] by {
                assert(0 <= idx[k] < seq.len());
                if k > 0 {
                    assert(idx[0] < idx[k]);
                }
                assert(seq[idx[k]] == sub[k]);
            }
            assert forall|j: int, k: int| 0 <= j < k < tail.len() implies tail[j] < tail[k] by {
                assert(idx[j] < idx[k]);
            }
            lemma_scan_from_embedding(tail, seq.drop_first(), sub);
        }
    }
}

/// The characters of `s`, in order.
pub fn chars_of(s: &str) -> (v: Vec<char>)
    ensures
        v@ == s@,
{
    let mut v: Vec<char> = Vec::new();
    for c in it: s.chars()
        invariant
            it.seq() == s@,
            v@ =~= s@.take(it.index() as int),
    {
        v.push(c);
    }
    assert(v@ =~= s@);
    v
}

/// Decides by one pass over `sequence` whether `subsequence` is a
/// subsequence of it.
pub fn scan_subsequence(sequence: &Vec<char>, subsequence: &Vec<char>) -> (found: bool)
    ensures
        found == is_subsequence(sequence@, subsequence@),
{
    let mut sub_index: usize = 0;
    let mut i: usize = 0;
    proof {
        lemma_subsequence_iff_scan(sequence@, subsequence@);
    }
    assert(sequence@.skip(0) =~= sequence@);
    assert(subsequence@.skip(0) =~= subsequence@);
    while i < sequence.len()
        invariant
            0 <= i <= sequence.len(),
            0 <= sub_index <= subsequence.len(),
            is_subsequence(sequence@, subsequence@) == scan_matches(sequence@, subsequence@),
            scan_matches(sequence@, subsequence@) == scan_matches(
                sequence@.skip(i as int),
                subsequence@.skip(sub_index as int),
            ),
        decreases sequence.len() - i,
    {
        if sub_index == subsequence.len() {
            return true;
        }
        proof {
            let seq = sequence@.skip(i as int);
            let sub = subsequence@.skip(sub_index as int);
            assert(seq.drop_first() =~= sequence@.skip(i + 1));
            assert(sub.drop_first() =~= subsequence@.skip(sub_index + 1));
            assert(seq[0] == sequence@[i as int]);
            assert(sub[0] == subsequence@[sub_index as int]);
        }
        if sequence[i] == subsequence[sub_index] {
            sub_index += 1;
        }
        i += 1;
    }
    sub_index == subsequence.len()
}

/// Whether `subsequence` is a subsequence of `sequence`.
pub fn match_subsequence(sequence: &str, subsequence: &str) -> (found: bool)
    ensures
        found == is_subsequence(sequence@, subsequence@),
{
    let seq = chars_of(sequence);
    let sub = chars_of(subsequence);
    scan_subsequence(&seq, &sub)
}

} // verus!
