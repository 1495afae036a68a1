//! Term frequencies of a token sequence.
use vstd::prelude::*;

verus! {

/// The most tokens one document may have, so that every score's numerator,
/// at most `2 * n - 1`, fits in a `u64`.
pub const MAX_TOKENS: u64 = 0x8000_0000_0000_0000;

/// A non-negative rational score `num / den`.
#[derive(Clone, Copy, Debug, PartialEq, Eq, Structural)]
pub struct Score {
    pub num: u64,
    pub den: u64,
}

/// One term with its score.
#[derive(Clone, Debug)]
pub struct TermScore {
    pub term: String,
    pub score: Score,
}

/// The scores of the terms of one document, one entry per term.
#[derive(Clone, Debug)]
pub struct TermFreq {
    pub entries: Vec<TermScore>,
}

impl TermFreq {
    /// The entries as terms paired with scores.
    pub open spec fn view_entries(&self) -> Seq<(Seq<char>, Score)> {
        self.entries@.map_values(|e: TermScore| (e.term@, e.score))
    }
}

/// How often `t` occurs in `ts`.
pub open spec fn count_in(ts: Seq<Seq<char>>, t: Seq<char>) -> nat
    decreases ts.len(),
{
    if ts.len() == 0 {
        0
    } else {
        count_in(ts.drop_last(), t) + if ts.last() == t {
            1nat
        } else {
            0nat
        }
    }
}

/// The distinct terms of `ts`, in the order of their first occurrence.
pub open spec fn distinct_terms(ts: Seq<Seq<char>>) -> Seq<Seq<char>>
    decreases ts.len(),
{
    if ts.len() == 0 {
        seq![]
    } else if ts.drop_last().contains(ts.last()) {
        distinct_terms(ts.drop_last())
    } else {
        distinct_terms(ts.drop_last()).push(ts.last())
    }
}

/// The score of a term seen `k` times among `n` tokens: `1 + (k - 1) / n`.
pub open spec fn term_score(n: nat, k: nat) -> Score {
    Score { num: (n + k - 1) as u64, den: n as u64 }
}

/// The term frequencies of `ts`: each distinct term, in order of first
/// occurrence, with the score `1 + (k - 1) / n`.
pub open spec fn term_scores(ts: Seq<Seq<char>>) -> Seq<(Seq<char>, Score)> {
    distinct_terms(ts).map_values(|t: Seq<char>| (t, term_score(ts.len(), count_in(ts, t))))
}

proof fn lemma_distinct_contains(ts: Seq<Seq<char>>, t: Seq<char>)
    ensures
        distinct_terms(ts).contains(t) <==> ts.contains(t),
        ts.contains(t) <==> count_in(ts, t) > 0,
        count_in(ts, t) <= ts.len(),
    decreases ts.len(),
{
    if ts.len() > 0 {
        let p = ts.drop_last();
        lemma_distinct_contains(p, t);
        if ts.contains(t) && ts.last() != t {
            let k = choose|k: int| 0 <= k < ts.len() && ts[k] == t;
            assert(p[k] == t);
        }
        if p.contains(t) {
            let k = choose|k: int| 0 <= k < p.len() && p[k] == t;
            assert(ts[k] == t);
        }
        assert(ts[ts.len() - 1] == ts.last());
        if !p.contains(ts.last()) {
            let d = distinct_terms(p);
            assert(distinct_terms(ts) == d.push(ts.last()));
            if d.contains(t) {
                let k = choose|k: int| 0 <= k < d.len() && d[k] == t;
                assert(d.push(ts.last())[k] == t);
            }
            if d.push(ts.last()).contains(t) && t != ts.last() {
                let k = choose|k: int| 0 <= k < d.len() + 1 && d.push(ts.last())[k] == t;
                assert(d[k] == t);
            }
            assert(d.push(ts.last())[d.len() as int] == ts.last());
        }
    }
}

proof fn lemma_distinct_no_duplicates(ts: Seq<Seq<char>>)
    ensures
        distinct_terms(ts).no_duplicates(),
    decreases ts.len(),
{
    if ts.len() > 0 {
        let p = ts.drop_last();
        lemma_distinct_no_duplicates(p);
        lemma_distinct_contains(p, ts.last());
    }
}

/// For a non-empty token sequence of `n` tokens: each distinct term is the key
/// of exactly one entry; a term seen once scores exactly one (`n / n`); a term
/// seen `k` times scores `(n + k - 1) / n`, that is `1 + (k - 1) / n`.
pub proof fn lemma_term_scores(ts: Seq<Seq<char>>)
    requires
        0 < ts.len() <= MAX_TOKENS,
    ensures
        forall|t: Seq<char>|
            ts.contains(t) <==> exists|i: int|
                0 <= i < term_scores(ts).len() && (#[trigger] term_scores(ts)[i]).0 == t,
        forall|i: int, j: int|
            0 <= i < term_scores(ts).len() && 0 <= j < term_scores(ts).len()
                && (#[trigger] term_scores(ts)[i]).0 == (#[trigger] term_scores(ts)[j]).0 ==> i == j,
        forall|i: int|
            0 <= i < term_scores(ts).len() ==> {
                let (t, s) = #[trigger] term_scores(ts)[i];
                let k = count_in(ts, t);
                &&& k >= 1
                &&& s.den == ts.len()
                &&& s.num == ts.len() + k - 1
                &&& k == 1 ==> s.num == s.den
            },
{
    let d = distinct_terms(ts);
    lemma_distinct_no_duplicates(ts);
    assert forall|t: Seq<char>|
        ts.contains(t) <==> exists|i: int|
            0 <= i < term_scores(ts).len() && (#[trigger] term_scores(ts)[i]).0 == t by {
        lemma_distinct_contains(ts, t);
        if ts.contains(t) {
            let k = choose|k: int| 0 <= k < d.len() && d[k] == t;
            assert(term_scores(ts)[k].0 == t);
        }
        if exists|i: int| 0 <= i < term_scores(ts).len() && (#[trigger] term_scores(ts)[i]).0 == t {
            let i = choose|i: int|
                0 <= i < term_scores(ts).len() && (#[trigger] term_scores(ts)[i]).0 == t;
            assert(d[i] == t);
        }
    }
    assert forall|i: int|
        0 <= i < term_scores(ts).len() implies {
        let (t, s) = #[trigger] term_scores(ts)[i];
        let k = count_in(ts, t);
        &&& k >= 1
        &&& s.den == ts.len()
        &&& s.num == ts.len() + k - 1
        &&& k == 1 ==> s.num == s.den
    } by {
        lemma_distinct_contains(ts, d[i]);
        assert(d.contains(d[i]));
    }
}

/// Computes the term frequencies of `content`: the first occurrence of a term
/// scores one, each further occurrence adds `1 / n`, where `n` is the number
/// of tokens.
pub fn index_data(content: Vec<String>) -> (r: TermFreq)
    requires
        content@.len() <= MAX_TOKENS,
    ensures
        r.view_entries() == term_scores(content@.map_values(|w: String| w@)),
{
    let ghost ts = content@.map_values(|w: String| w@);
    let n = content.len() as u64;
    let mut entries: Vec<TermScore> = Vec::new();
    let mut i: usize = 0;
    while i < content.len()
        invariant
            ts == content@.map_values(|w: String| w@),
            n == content@.len() <= MAX_TOKENS,
            i <= content@.len(),
            entries@.len() == distinct_terms(ts.take(i as int)).len(),
            forall|j: int|
                0 <= j < entries@.len() ==> (#[trigger] entries@[j]).term@ == distinct_terms(
                    ts.take(i as int),
                )[j] && entries@[j].score == term_score(
                    n as nat,
                    count_in(ts.take(i as int), entries@[j].term@),
                ),
        decreases content@.len() - i,
    {
        let ghost pre = ts.take(i as int);
        let ghost post = ts.take(i + 1);
        proof {
            assert(post.drop_last() == pre);
            assert(post.last() == content@[i as int]@);
            lemma_distinct_no_duplicates(pre);
        }
        let term = &content[i];
        let mut j: usize = 0;
        let mut found = false;
        while j < entries.len()
            invariant
                0 <= j <= entries@.len(),
                !found ==> forall|m: int| 0 <= m < j ==> (#[trigger] entries@[m]).term@ != term@,
                found ==> j < entries@.len() && entries@[j as int].term@ == term@,
            ensures
                !found ==> forall|m: int|
                    0 <= m < entries@.len() ==> (#[trigger] entries@[m]).term@ != term@,
                found ==> j < entries@.len() && entries@[j as int].term@ == term@,
            decreases entries@.len() - j,
        {
            if entries[j].term == *term {
                found = true;
                break;
            }
            j = j + 1;
        }
        proof {
            lemma_distinct_contains(pre, term@);
        }
        if found {
            let old_score = entries[j].score;
            proof {
                assert(distinct_terms(pre).contains(term@)) by {
                    assert(distinct_terms(pre)[j as int] == term@);
                }
                assert(distinct_terms(post) == distinct_terms(pre));
                assert(count_in(pre, term@) <= i);
            }
            let e = TermScore {
                term: entries[j].term.clone(),
                score: Score { num: old_score.num + 1, den: n },
            };
            entries.set(j, e);
        } else {
            proof {
                if distinct_terms(pre).contains(term@) {
                    let k = choose|k: int|
                        0 <= k < distinct_terms(pre).len() && distinct_terms(pre)[k] == term@;
                    assert(entries@[k].term@ == term@);
                }
                assert(!pre.contains(term@));
                assert(post.last() == term@);
                assert(!post.drop_last().contains(post.last()));
                assert(distinct_terms(post) == distinct_terms(pre).push(term@));
            }
            entries.push(TermScore { term: term.clone(), score: Score { num: n, den: n } });
        }
        proof {
            assert forall|m: int| 0 <= m < entries@.len() implies (#[trigger] entries@[m]).term@
                == distinct_terms(post)[m] && entries@[m].score == term_score(
                n as nat,
                count_in(post, entries@[m].term@),
            ) by {
                lemma_distinct_contains(pre, entries@[m].term@);
            }
        }
        i = i + 1;
    }
    proof {
        assert(ts.take(content@.len() as int) == ts);
    }
    let r = TermFreq { entries };
    assert(r.view_entries() =~= term_scores(ts));
    r
}

} // verus!
