//! Ranking documents against a single query term.
use vstd::prelude::*;
use crate::document::{documents_well_formed, document_well_formed, scores_well_formed, Document};
use crate::index::Score;

verus! {

/// A non-negative rational `num / den` reported as a document's score.
#[derive(Clone, Copy, Debug, PartialEq, Eq, Structural)]
pub struct Ratio {
    pub num: u128,
    pub den: u128,
}

/// A document's path with its score against the query.
#[derive(Clone, Debug)]
pub struct Idf {
    pub path: String,
    pub tf: Ratio,
}

/// Two results are the same result when they are for the same path, whatever
/// their scores.
impl PartialEq for Idf {
    fn eq(&self, other: &Idf) -> (r: bool) {
        self.path == other.path
    }
}

impl vstd::std_specs::cmp::PartialEqSpecImpl for Idf {
    open spec fn obeys_eq_spec() -> bool {
        true
    }

    open spec fn eq_spec(&self, other: &Idf) -> bool {
        self.path@ == other.path@
    }
}

/// The score of `q` in `tf` (its first entry for `q`), or zero where `q` is
/// absent.
pub open spec fn lookup(tf: Seq<(Seq<char>, Score)>, q: Seq<char>) -> Score
    decreases tf.len(),
{
    if tf.len() == 0 {
        Score { num: 0, den: 1 }
    } else if tf[0].0 == q {
        tf[0].1
    } else {
        lookup(tf.subrange(1, tf.len() as int), q)
    }
}

/// One raw score per term-frequency entry of `d`, each under `d`'s path.
pub open spec fn document_raw_scores(d: Document, q: Seq<char>) -> Seq<(Seq<char>, Score)> {
    d.data.view_entries().map_values(
        |e: (Seq<char>, Seq<(Seq<char>, Score)>)| (d.path@, lookup(e.1, q)),
    )
}

/// The raw scores of all documents, in order.
pub open spec fn raw_scores(docs: Seq<Document>, q: Seq<char>) -> Seq<(Seq<char>, Score)>
    decreases docs.len(),
{
    if docs.len() == 0 {
        seq![]
    } else {
        raw_scores(docs.drop_last(), q) + document_raw_scores(docs.last(), q)
    }
}

/// `s / base`, where a division by zero gives zero.
pub open spec fn ratio(s: Score, base: Score) -> Ratio {
    if base.num == 0 {
        Ratio { num: 0, den: 1 }
    } else {
        Ratio { num: (s.num * base.den) as u128, den: (s.den * base.num) as u128 }
    }
}

/// Each raw score divided by the first one.
pub open spec fn normalized(raw: Seq<(Seq<char>, Score)>) -> Seq<(Seq<char>, Ratio)> {
    raw.map_values(|e: (Seq<char>, Score)| (e.0, ratio(e.1, raw[0].1)))
}

/// `s` has an entry for `path`.
pub open spec fn has_path(s: Seq<(Seq<char>, Ratio)>, path: Seq<char>) -> bool {
    exists|k: int| 0 <= k < s.len() && (#[trigger] s[k]).0 == path
}

/// The first entry of each path, in order.
pub open spec fn first_by_path(s: Seq<(Seq<char>, Ratio)>) -> Seq<(Seq<char>, Ratio)>
    decreases s.len(),
{
    if s.len() == 0 {
        seq![]
    } else {
        let p = first_by_path(s.drop_last());
        if has_path(p, s.last().0) {
            p
        } else {
            p.push(s.last())
        }
    }
}

/// The scored paths that are ranked for `q`: normalized against the first
/// raw score, one per path.
pub open spec fn scored_paths(docs: Seq<Document>, q: Seq<char>) -> Seq<(Seq<char>, Ratio)> {
    first_by_path(normalized(raw_scores(docs, q)))
}

/// `a` is larger than `b`.
pub open spec fn ratio_gt(a: Ratio, b: Ratio) -> bool {
    a.num * b.den > b.num * a.den
}

/// `a` and `b` are equal in value.
pub open spec fn ratio_eq(a: Ratio, b: Ratio) -> bool {
    a.num * b.den == b.num * a.den
}

/// `pos` takes each entry of `out` to where it stands in `src`: `out` is
/// `src` reordered, by score from high to low, equal scores in their order in
/// `src`.
pub open spec fn ranks_with(
    out: Seq<(Seq<char>, Ratio)>,
    src: Seq<(Seq<char>, Ratio)>,
    pos: Seq<int>,
) -> bool {
    &&& out.len() == src.len()
    &&& pos.len() == out.len()
    &&& forall|k: int| 0 <= k < out.len() ==> 0 <= #[trigger] pos[k] < src.len() && out[k] == src[pos[k]]
    &&& forall|k: int, l: int| 0 <= k < l < out.len() ==> #[trigger] pos[k] != #[trigger] pos[l]
    &&& forall|k: int, l: int|
        0 <= k < l < out.len() ==> ratio_gt(#[trigger] out[k].1, #[trigger] out[l].1) || (ratio_eq(
            out[k].1,
            out[l].1,
        ) && pos[k] < pos[l])
}

/// `out` is `src` sorted by score from high to low, stably.
pub open spec fn is_stable_ranking(out: Seq<(Seq<char>, Ratio)>, src: Seq<(Seq<char>, Ratio)>) -> bool {
    exists|pos: Seq<int>| ranks_with(out, src, pos)
}

/// The results as paths paired with scores.
pub open spec fn idf_views(v: Seq<Idf>) -> Seq<(Seq<char>, Ratio)> {
    v.map_values(|i: Idf| (i.path@, i.tf))
}

/// Finds the score of `query` in `tf`.
fn score_in(tf: &crate::index::TermFreq, query: &String) -> (r: Score)
    ensures
        r == lookup(tf.view_entries(), query@),
{
    let ghost s = tf.view_entries();
    let mut j: usize = 0;
    assert(s.subrange(0, s.len() as int) == s);
    while j < tf.entries.len()
        invariant
            s == tf.view_entries(),
            j <= s.len(),
            lookup(s, query@) == lookup(s.subrange(j as int, s.len() as int), query@),
        decreases s.len() - j,
    {
        let ghost rest = s.subrange(j as int, s.len() as int);
        assert(rest[0] == s[j as int]);
        if tf.entries[j].term == *query {
            return tf.entries[j].score;
        }
        assert(rest.subrange(1, rest.len() as int) =~= s.subrange(j + 1, s.len() as int));
        j = j + 1;
    }
    Score { num: 0, den: 1 }
}

/// A raw score under its document's path.
struct RawEntry {
    path: String,
    score: Score,
}

spec fn raw_views(v: Seq<RawEntry>) -> Seq<(Seq<char>, Score)> {
    v.map_values(|e: RawEntry| (e.path@, e.score))
}

/// Every raw score has a positive denominator.
pub open spec fn raw_well_formed(raw: Seq<(Seq<char>, Score)>) -> bool {
    forall|k: int| 0 <= k < raw.len() ==> (#[trigger] raw[k]).1.den > 0
}

proof fn lemma_lookup_well_formed(tf: Seq<(Seq<char>, Score)>, q: Seq<char>)
    requires
        scores_well_formed(tf),
    ensures
        lookup(tf, q).den > 0,
    decreases tf.len(),
{
    if tf.len() > 0 && tf[0].0 != q {
        let rest = tf.subrange(1, tf.len() as int);
        assert forall|j: int| 0 <= j < rest.len() implies (#[trigger] rest[j]).1.den > 0 by {
            assert(rest[j] == tf[j + 1]);
        }
        lemma_lookup_well_formed(rest, q);
    } else if tf.len() > 0 {
        assert(tf[0].1.den > 0);
    }
}

fn collect_raw(docs: &Vec<Document>, query: &String) -> (r: Vec<RawEntry>)
    requires
        documents_well_formed(docs@),
    ensures
        raw_views(r@) == raw_scores(docs@, query@),
        raw_well_formed(raw_views(r@)),
{
    let mut raw: Vec<RawEntry> = Vec::new();
    let mut i: usize = 0;
    while i < docs.len()
        invariant
            i <= docs@.len(),
            documents_well_formed(docs@),
            raw_views(raw@) == raw_scores(docs@.take(i as int), query@),
            raw_well_formed(raw_views(raw@)),
        decreases docs@.len() - i,
    {
        let d = &docs[i];
        let ghost before = raw_views(raw@);
        let ghost dr = document_raw_scores(*d, query@);
        assert(document_well_formed(docs@[i as int]));
        let mut e: usize = 0;
        while e < d.data.entries.len()
            invariant
                i < docs@.len(),
                *d == docs@[i as int],
                document_well_formed(*d),
                dr == document_raw_scores(*d, query@),
                e <= d.data.entries@.len(),
                raw_views(raw@) == before + dr.take(e as int),
                raw_well_formed(raw_views(raw@)),
            decreases d.data.entries@.len() - e,
        {
            let s = score_in(&d.data.entries[e].terms, query);
            proof {
                assert(d.data.view_entries()[e as int].1 == d.data.entries@[e as int].terms.view_entries());
                assert(scores_well_formed(d.data.view_entries()[e as int].1));
                lemma_lookup_well_formed(d.data.view_entries()[e as int].1, query@);
            }
            let ghost prev = raw@;
            raw.push(RawEntry { path: d.path.clone(), score: s });
            proof {
                assert(raw_views(raw@) =~= raw_views(prev).push((d.path@, s)));
                assert(dr.take(e + 1) =~= dr.take(e as int).push(dr[e as int]));
            }
            e = e + 1;
        }
        proof {
            assert(dr.take(d.data.entries@.len() as int) =~= dr);
            let t = docs@.take(i + 1);
            assert(t.drop_last() =~= docs@.take(i as int));
            assert(t.last() == docs@[i as int]);
        }
        i = i + 1;
    }
    assert(docs@.take(docs@.len() as int) =~= docs@);
    raw
}

fn ratio_of(s: Score, base: Score) -> (r: Ratio)
    ensures
        r == ratio(s, base),
{
    if base.num == 0 {
        Ratio { num: 0, den: 1 }
    } else {
        proof {
            vstd::arithmetic::mul::lemma_mul_upper_bound(s.num as int, u64::MAX as int, base.den as int, u64::MAX as int);
            vstd::arithmetic::mul::lemma_mul_upper_bound(s.den as int, u64::MAX as int, base.num as int, u64::MAX as int);
            assert(u64::MAX as int * u64::MAX as int <= u128::MAX) by (nonlinear_arith);
        }
        Ratio { num: s.num as u128 * base.den as u128, den: s.den as u128 * base.num as u128 }
    }
}

fn find_path(out: &Vec<Idf>, path: &String) -> (r: bool)
    ensures
        r == has_path(idf_views(out@), path@),
{
    let mut k: usize = 0;
    while k < out.len()
        invariant
            k <= out@.len(),
            forall|m: int| 0 <= m < k ==> (#[trigger] out@[m]).path@ != path@,
        decreases out@.len() - k,
    {
        if out[k].path == *path {
            assert(idf_views(out@)[k as int].0 == path@);
            return true;
        }
        k = k + 1;
    }
    proof {
        if has_path(idf_views(out@), path@) {
            let m = choose|m: int| 0 <= m < idf_views(out@).len() && (#[trigger] idf_views(out@)[m]).0 == path@;
            assert(out@[m].path@ == path@);
        }
    }
    false
}

/// Normalizes against the first raw score and keeps the first entry of each
/// path; the raw score of each kept entry comes along.
fn normalize_first_by_path(raw: &Vec<RawEntry>) -> (r: (Vec<Idf>, Vec<Score>))
    requires
        raw@.len() > 0,
        raw_well_formed(raw_views(raw@)),
    ensures
        idf_views(r.0@) == first_by_path(normalized(raw_views(raw@))),
        r.1@.len() == r.0@.len(),
        forall|k: int|
            0 <= k < r.1@.len() ==> (#[trigger] r.1@[k]).den > 0 && r.0@[k].tf == ratio(
                r.1@[k],
                raw@[0].score,
            ),
{
    let ghost n = normalized(raw_views(raw@));
    let base = raw[0].score;
    let mut out: Vec<Idf> = Vec::new();
    let mut keys: Vec<Score> = Vec::new();
    let mut i: usize = 0;
    while i < raw.len()
        invariant
            n == normalized(raw_views(raw@)),
            base == raw@[0].score,
            raw_well_formed(raw_views(raw@)),
            i <= raw@.len(),
            idf_views(out@) == first_by_path(n.take(i as int)),
            keys@.len() == out@.len(),
            forall|k: int|
                0 <= k < keys@.len() ==> (#[trigger] keys@[k]).den > 0 && out@[k].tf == ratio(
                    keys@[k],
                    base,
                ),
        decreases raw@.len() - i,
    {
        let e = &raw[i];
        let seen = find_path(&out, &e.path);
        proof {
            let t = n.take(i + 1);
            assert(t.drop_last() =~= n.take(i as int));
            assert(t.last() == n[i as int]);
            assert(raw_views(raw@)[0] == (raw@[0].path@, raw@[0].score));
            assert(n[i as int] == (e.path@, ratio(e.score, base)));
            assert(raw_views(raw@)[i as int].1.den > 0);
        }
        if !seen {
            let tf = ratio_of(e.score, base);
            let ghost prev = out@;
            out.push(Idf { path: e.path.clone(), tf });
            keys.push(e.score);
            assert(idf_views(out@) =~= idf_views(prev).push((e.path@, tf)));
        }
        i = i + 1;
    }
    assert(n.take(raw@.len() as int) =~= n);
    (out, keys)
}

/// `a` is at least `b` in value.
pub open spec fn ratio_ge(a: Ratio, b: Ratio) -> bool {
    ratio_gt(a, b) || ratio_eq(a, b)
}

proof fn lemma_ratio_ge_trans(a: Ratio, b: Ratio, c: Ratio)
    requires
        a.den > 0,
        b.den > 0,
        c.den > 0,
        ratio_ge(a, b),
        ratio_ge(b, c),
    ensures
        ratio_ge(a, c),
{
    let (an, ad, bn, bd, cn, cd) = (a.num as int, a.den as int, b.num as int, b.den as int, c.num as int, c.den as int);
    assert(an * bd >= bn * ad);
    assert(bn * cd >= cn * bd);
    assert(an * bd * cd >= bn * ad * cd) by (nonlinear_arith)
        requires an * bd >= bn * ad, cd > 0;
    assert(bn * cd * ad >= cn * bd * ad) by (nonlinear_arith)
        requires bn * cd >= cn * bd, ad > 0;
    assert(an * cd >= cn * ad) by (nonlinear_arith)
        requires an * bd * cd >= bn * ad * cd, bn * cd * ad >= cn * bd * ad, bd > 0;
}

proof fn lemma_ratio_order(a: Score, b: Score, base: Score)
    requires
        base.num > 0,
        base.den > 0,
        a.den > 0,
        b.den > 0,
    ensures
        ratio_gt(ratio(a, base), ratio(b, base)) == (a.num * b.den > b.num * a.den),
        ratio_eq(ratio(a, base), ratio(b, base)) == (a.num * b.den == b.num * a.den),
        ratio(a, base).den > 0,
        ratio(b, base).den > 0,
{
    let (an, ad, bn, bd, n, d) = (a.num as int, a.den as int, b.num as int, b.den as int, base.num as int, base.den as int);
    assert(u64::MAX as int * u64::MAX as int <= u128::MAX) by (nonlinear_arith);
    assert(an * d <= u64::MAX as int * u64::MAX as int) by (nonlinear_arith)
        requires 0 <= an <= u64::MAX, 0 <= d <= u64::MAX;
    assert(bn * d <= u64::MAX as int * u64::MAX as int) by (nonlinear_arith)
        requires 0 <= bn <= u64::MAX, 0 <= d <= u64::MAX;
    assert(ad * n <= u64::MAX as int * u64::MAX as int) by (nonlinear_arith)
        requires 0 <= ad <= u64::MAX, 0 <= n <= u64::MAX;
    assert(bd * n <= u64::MAX as int * u64::MAX as int) by (nonlinear_arith)
        requires 0 <= bd <= u64::MAX, 0 <= n <= u64::MAX;
    assert(ad * n > 0 && bd * n > 0) by (nonlinear_arith)
        requires ad > 0, bd > 0, n > 0;
    let ra = ratio(a, base);
    let rb = ratio(b, base);
    assert(ra.num == an * d && ra.den == ad * n && rb.num == bn * d && rb.den == bd * n);
    assert(ra.num * rb.den == (an * bd) * (d * n)) by (nonlinear_arith)
        requires ra.num == an * d, rb.den == bd * n;
    assert(rb.num * ra.den == (bn * ad) * (d * n)) by (nonlinear_arith)
        requires rb.num == bn * d, ra.den == ad * n;
    assert(d * n > 0) by (nonlinear_arith)
        requires d > 0, n > 0;
    assert((an * bd) * (d * n) > (bn * ad) * (d * n) <==> an * bd > bn * ad) by (nonlinear_arith)
        requires d * n > 0;
    assert((an * bd) * (d * n) == (bn * ad) * (d * n) <==> an * bd == bn * ad) by (nonlinear_arith)
        requires d * n > 0;
}

fn score_gt(a: Score, b: Score) -> (r: bool)
    ensures
        r == (a.num * b.den > b.num * a.den),
{
    proof {
        assert(u64::MAX as int * u64::MAX as int <= u128::MAX) by (nonlinear_arith);
        vstd::arithmetic::mul::lemma_mul_upper_bound(a.num as int, u64::MAX as int, b.den as int, u64::MAX as int);
        vstd::arithmetic::mul::lemma_mul_upper_bound(b.num as int, u64::MAX as int, a.den as int, u64::MAX as int);
    }
    a.num as u128 * b.den as u128 > b.num as u128 * a.den as u128
}

/// The order in which `items` rank: by score from high to low, equal scores in
/// their given order.
fn ranking_order(items: &Vec<Idf>, keys: &Vec<Score>, Ghost(base): Ghost<Score>) -> (order: Vec<usize>)
    requires
        base.num > 0,
        base.den > 0,
        keys@.len() == items@.len(),
        forall|k: int|
            0 <= k < keys@.len() ==> (#[trigger] keys@[k]).den > 0 && items@[k].tf == ratio(
                keys@[k],
                base,
            ),
    ensures
        ranks_with(
            order@.map_values(|k: usize| idf_views(items@)[k as int]),
            idf_views(items@),
            order@.map_values(|k: usize| k as int),
        ),
{
    let ghost src = idf_views(items@);
    let mut order: Vec<usize> = Vec::new();
    let mut i: usize = 0;
    while i < items.len()
        invariant
            src == idf_views(items@),
            base.num > 0,
            base.den > 0,
            keys@.len() == items@.len(),
            forall|k: int|
                0 <= k < keys@.len() ==> (#[trigger] keys@[k]).den > 0 && items@[k].tf == ratio(
                    keys@[k],
                    base,
                ),
            i <= items@.len(),
            order@.len() == i,
            forall|k: int| 0 <= k < order@.len() ==> (#[trigger] order@[k]) < i,
            forall|k: int, l: int| 0 <= k < l < order@.len() ==> #[trigger] order@[k] != #[trigger] order@[l],
            forall|k: int, l: int|
                0 <= k < l < order@.len() ==> ratio_gt(
                    #[trigger] src[order@[k] as int].1,
                    #[trigger] src[order@[l] as int].1,
                ) || (ratio_eq(src[order@[k] as int].1, src[order@[l] as int].1) && order@[k]
                    < order@[l]),
        decreases items@.len() - i,
    {
        let mut p: usize = order.len();
        while p > 0 && score_gt(keys[i], keys[order[p - 1]])
            invariant
                p <= order@.len(),
                i < keys@.len(),
                forall|k: int| 0 <= k < order@.len() ==> (#[trigger] order@[k]) < i,
                forall|q: int|
                    p <= q < order@.len() ==> keys@[i as int].num * keys@[#[trigger] order@[q] as int].den
                        > keys@[order@[q] as int].num * keys@[i as int].den,
            decreases p,
        {
            p = p - 1;
        }
        let ghost old_order = order@;
        proof {
            assert forall|k: int| 0 <= k < keys@.len() implies src[k].1 == ratio(keys@[k], base) by {
                assert(src[k] == (items@[k].path@, items@[k].tf));
            }
            assert forall|q: int| p <= q < old_order.len() implies ratio_gt(src[i as int].1, src[#[trigger] old_order[q] as int].1) by {
                lemma_ratio_order(keys@[i as int], keys@[old_order[q] as int], base);
            }
            if p > 0 {
                let last = old_order[p - 1] as int;
                lemma_ratio_order(keys@[i as int], keys@[last], base);
                assert(ratio_ge(src[last].1, src[i as int].1));
                assert forall|k: int| 0 <= k < p implies ratio_ge(src[#[trigger] old_order[k] as int].1, src[i as int].1) by {
                    if k < p - 1 {
                        lemma_ratio_order(keys@[old_order[k] as int], keys@[last], base);
                        assert(ratio_ge(src[old_order[k] as int].1, src[last].1));
                        lemma_ratio_ge_trans(src[old_order[k] as int].1, src[last].1, src[i as int].1);
                    }
                }
            }
        }
        order.insert(p, i);
        proof {
            assert(order@ == old_order.insert(p as int, i));
            assert forall|k: int, l: int| 0 <= k < l < order@.len() implies ratio_gt(
                #[trigger] src[order@[k] as int].1,
                #[trigger] src[order@[l] as int].1,
            ) || (ratio_eq(src[order@[k] as int].1, src[order@[l] as int].1) && order@[k]
                < order@[l]) by {
                if l < p {
                } else if l == p {
                    assert(order@[l] == i);
                    assert(order@[k] == old_order[k]);
                } else if k == p {
                    assert(order@[l] == old_order[l - 1]);
                } else if k < p {
                    assert(order@[k] == old_order[k]);
                    assert(order@[l] == old_order[l - 1]);
                } else {
                    assert(order@[k] == old_order[k - 1]);
                    assert(order@[l] == old_order[l - 1]);
                }
            }
            assert forall|k: int, l: int| 0 <= k < l < order@.len() implies #[trigger] order@[k] != #[trigger] order@[l] by {
                if k < p && l > p {
                    assert(order@[l] == old_order[l - 1]);
                } else if k > p {
                    assert(order@[k] == old_order[k - 1]);
                    assert(order@[l] == old_order[l - 1]);
                }
            }
        }
        i = i + 1;
    }
    proof {
        let out = order@.map_values(|k: usize| src[k as int]);
        let pos = order@.map_values(|k: usize| k as int);
        assert forall|k: int, l: int| 0 <= k < l < out.len() implies ratio_gt(#[trigger] out[k].1, #[trigger] out[l].1) || (ratio_eq(
            out[k].1,
            out[l].1,
        ) && pos[k] < pos[l]) by {
            assert(out[k] == src[order@[k] as int]);
            assert(out[l] == src[order@[l] as int]);
        }
        assert forall|k: int, l: int| 0 <= k < l < out.len() implies #[trigger] pos[k] != #[trigger] pos[l] by {
            assert(order@[k] != order@[l]);
        }
    }
    order
}

/// Ranks the documents against `query`: each raw score is the query term's
/// score in one of a document's term frequencies (zero where absent); it is
/// divided by the first raw score (a division by zero gives zero); only the
/// first entry of each path is kept; the entries are sorted by score from high
/// to low, equal scores in document order.
pub fn search_query(docs: &Vec<Document>, query: &String) -> (r: Vec<Idf>)
    requires
        documents_well_formed(docs@),
    ensures
        is_stable_ranking(idf_views(r@), scored_paths(docs@, query@)),
        (forall|k: int|
            0 <= k < raw_scores(docs@, query@).len() ==> (#[trigger] raw_scores(docs@, query@)[k]).1.num
                == 0) ==> idf_views(r@) == scored_paths(docs@, query@) && forall|k: int|
            0 <= k < r@.len() ==> (#[trigger] r@[k]).tf == (Ratio { num: 0, den: 1 }),
{
    let raw = collect_raw(docs, query);
    if raw.len() == 0 {
        let r: Vec<Idf> = Vec::new();
        proof {
            assert(normalized(raw_views(raw@)) =~= seq![]);
            assert(idf_views(r@) =~= scored_paths(docs@, query@));
            assert(ranks_with(idf_views(r@), scored_paths(docs@, query@), seq![]));
        }
        return r;
    }
    let (items, keys) = normalize_first_by_path(&raw);
    let ghost src = idf_views(items@);
    let base = raw[0].score;
    proof {
        assert(raw_views(raw@)[0] == (raw@[0].path@, raw@[0].score));
    }
    if base.num == 0 {
        proof {
            let pos = Seq::new(src.len(), |k: int| k);
            assert forall|k: int, l: int| 0 <= k < l < src.len() implies ratio_gt(#[trigger] src[k].1, #[trigger] src[l].1) || (ratio_eq(
                src[k].1,
                src[l].1,
            ) && pos[k] < pos[l]) by {
                assert(src[k].1 == items@[k].tf);
                assert(src[l].1 == items@[l].tf);
                assert(items@[k].tf == ratio(keys@[k], base));
                assert(items@[l].tf == ratio(keys@[l], base));
                assert(pos[k] == k && pos[l] == l);
            }
            assert(ranks_with(src, src, pos));
            assert forall|k: int| 0 <= k < items@.len() implies (#[trigger] items@[k]).tf == (Ratio { num: 0, den: 1 }) by {
                assert(items@[k].tf == ratio(keys@[k], base));
            }
        }
        return items;
    }
    let order = ranking_order(&items, &keys, Ghost(base));
    proof {
        let pos = order@.map_values(|j: usize| j as int);
        assert forall|m: int| 0 <= m < order@.len() implies (#[trigger] order@[m]) < items@.len() by {
            assert(pos[m] == order@[m] as int);
        }
    }
    let mut out: Vec<Idf> = Vec::new();
    let mut k: usize = 0;
    while k < order.len()
        invariant
            k <= order@.len(),
            src == idf_views(items@),
            forall|m: int| 0 <= m < order@.len() ==> (#[trigger] order@[m]) < items@.len(),
            idf_views(out@) == order@.take(k as int).map_values(|j: usize| src[j as int]),
        decreases order@.len() - k,
    {
        let it = &items[order[k]];
        let ghost prev = out@;
        out.push(Idf { path: it.path.clone(), tf: it.tf });
        proof {
            assert(idf_views(out@) =~= idf_views(prev).push(src[order@[k as int] as int]));
            assert(order@.take(k + 1).map_values(|j: usize| src[j as int]) =~= order@.take(
                k as int,
            ).map_values(|j: usize| src[j as int]).push(src[order@[k as int] as int]));
        }
        k = k + 1;
    }
    proof {
        assert(order@.take(order@.len() as int) =~= order@);
        assert(ranks_with(idf_views(out@), src, order@.map_values(|j: usize| j as int)));
        assert(raw_views(raw@)[0].1.num != 0);
    }
    out
}

/// No term of any document is `q`.
pub open spec fn no_term_is(docs: Seq<Document>, q: Seq<char>) -> bool {
    forall|i: int, e: int, j: int|
        0 <= i < docs.len() && 0 <= e < docs[i].data.view_entries().len() && 0 <= j
            < docs[i].data.view_entries()[e].1.len() ==> (#[trigger] docs[i].data.view_entries()[e].1[j]).0
            != q
}

proof fn lemma_lookup_absent(tf: Seq<(Seq<char>, Score)>, q: Seq<char>)
    requires
        forall|j: int| 0 <= j < tf.len() ==> (#[trigger] tf[j]).0 != q,
    ensures
        lookup(tf, q).num == 0,
    decreases tf.len(),
{
    if tf.len() > 0 {
        assert(tf[0].0 != q);
        let rest = tf.subrange(1, tf.len() as int);
        assert forall|j: int| 0 <= j < rest.len() implies (#[trigger] rest[j]).0 != q by {
            assert(rest[j] == tf[j + 1]);
        }
        lemma_lookup_absent(rest, q);
    }
}

/// Where no term of any document is the query, every raw score is zero; by
/// the contract of `search_query` every result then scores zero and the
/// results keep the documents' order.
pub proof fn lemma_no_match_scores_zero(docs: Seq<Document>, q: Seq<char>)
    requires
        no_term_is(docs, q),
    ensures
        forall|k: int|
            0 <= k < raw_scores(docs, q).len() ==> (#[trigger] raw_scores(docs, q)[k]).1.num == 0,
    decreases docs.len(),
{
    if docs.len() > 0 {
        let p = docs.drop_last();
        assert forall|i: int, e: int, j: int|
            0 <= i < p.len() && 0 <= e < p[i].data.view_entries().len() && 0 <= j
                < p[i].data.view_entries()[e].1.len() implies (#[trigger] p[i].data.view_entries()[e].1[j]).0
                != q by {
            assert(p[i] == docs[i]);
        }
        lemma_no_match_scores_zero(p, q);
        let d = docs.last();
        let dr = document_raw_scores(d, q);
        assert forall|e: int| 0 <= e < dr.len() implies (#[trigger] dr[e]).1.num == 0 by {
            let tf = d.data.view_entries()[e].1;
            assert forall|j: int| 0 <= j < tf.len() implies (#[trigger] tf[j]).0 != q by {
                assert(docs[docs.len() - 1] == d);
                assert(docs[docs.len() - 1].data.view_entries()[e].1[j] == tf[j]);
            }
            lemma_lookup_absent(tf, q);
        }
        let r = raw_scores(docs, q);
        assert(r == raw_scores(p, q) + dr);
        assert forall|k: int| 0 <= k < r.len() implies (#[trigger] r[k]).1.num == 0 by {
            if k >= raw_scores(p, q).len() {
                assert(r[k] == dr[k - raw_scores(p, q).len()]);
            }
        }
    }
}

/// For two documents `a` before `b`, each with one term-frequency entry and
/// with distinct paths: `a` scores its own raw score over itself, and `b`
/// scores its raw score divided by `a`'s (zero where `a`'s is zero).
pub proof fn lemma_first_document_divides(a: Document, b: Document, q: Seq<char>)
    requires
        a.data.entries@.len() == 1,
        b.data.entries@.len() == 1,
        a.path@ != b.path@,
    ensures
        ({
            let sa = lookup(a.data.view_entries()[0].1, q);
            let sb = lookup(b.data.view_entries()[0].1, q);
            scored_paths(seq![a, b], q) == seq![(a.path@, ratio(sa, sa)), (b.path@, ratio(sb, sa))]
        }),
{
    let sa = lookup(a.data.view_entries()[0].1, q);
    let sb = lookup(b.data.view_entries()[0].1, q);
    let docs = seq![a, b];
    assert(docs.drop_last() =~= seq![a]);
    assert(seq![a].drop_last() =~= Seq::<Document>::empty());
    assert(document_raw_scores(a, q) =~= seq![(a.path@, sa)]);
    assert(document_raw_scores(b, q) =~= seq![(b.path@, sb)]);
    assert(raw_scores(Seq::<Document>::empty(), q) == Seq::<(Seq<char>, Score)>::empty());
    assert(seq![a].last() == a);
    assert(raw_scores(seq![a], q) == raw_scores(Seq::<Document>::empty(), q) + document_raw_scores(a, q));
    assert(raw_scores(seq![a], q) =~= seq![(a.path@, sa)]);
    let raw = raw_scores(docs, q);
    assert(raw =~= seq![(a.path@, sa), (b.path@, sb)]);
    let n = normalized(raw);
    assert(n =~= seq![(a.path@, ratio(sa, sa)), (b.path@, ratio(sb, sa))]);
    assert(n.drop_last() =~= seq![(a.path@, ratio(sa, sa))]);
    assert(n.drop_last().drop_last() =~= Seq::<(Seq<char>, Ratio)>::empty());
    let f0 = first_by_path(Seq::<(Seq<char>, Ratio)>::empty());
    assert(f0 == Seq::<(Seq<char>, Ratio)>::empty());
    assert(!has_path(f0, a.path@));
    let f1 = first_by_path(n.drop_last());
    assert(f1 == f0.push(n.drop_last().last()));
    assert(f1 =~= seq![(a.path@, ratio(sa, sa))]);
    assert(!has_path(f1, b.path@));
}

} // verus!
