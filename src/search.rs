//! The ranked-retrieval engine: a search task turns its query strings into
//! query vectors over an index, scores the documents that share a dimension
//! with them, filters, deduplicates and ranks the outputs, and returns one page.
use vstd::prelude::*;
use crate::language::Language;
use crate::vector::{
    dot, dot_product, entries_wf, lemma_similarity_bounds, norm2, score_pct, score_percent,
    sim_above, similarity_above, squared_norm, SparseVector, MAX_ENTRIES, lemma_mul_le, max_dot,
    max_norm_product, lemma_dot_bound, lemma_norm2_bound,
};
use itertools::Itertools;

verus! {

/// A document of an index: its vector and the outputs it stands for.
#[derive(Clone, Debug)]
pub struct Document {
    pub id: u64,
    pub vector: SparseVector,
    pub outputs: Vec<u64>,
}

/// A read-only vector-space index: a vocabulary (term `d` is dimension `d`)
/// and the document vectors.
#[derive(Clone, Debug)]
pub struct Index {
    pub language: Option<Language>,
    pub terms: Vec<String>,
    pub documents: Vec<Document>,
}

impl Index {
    pub open spec fn wf(&self) -> bool {
        &&& self.terms@.len() <= MAX_ENTRIES
        &&& forall|i: int| 0 <= i < self.documents@.len() ==> #[trigger] self.documents@[i].vector.wf()
    }
}

/// One output found by a search.
#[derive(Clone, Copy, Debug, PartialEq, Eq, Structural)]
pub struct ResultItem {
    pub item: u64,
    pub relevance: usize,
    pub language: Option<Language>,
    /// The similarity of the item's document to the query is
    /// `dot / sqrt(norms)`.
    pub dot: u64,
    pub norms: u128,
}

/// One page of a ranking, with the length of the whole ranking.
#[derive(Clone, Debug)]
pub struct SearchResult {
    pub items: Vec<ResultItem>,
    pub total: usize,
}

/// Why a search could not run.
#[derive(Clone, Copy, Debug, PartialEq, Eq, Structural)]
pub enum SearchError {
    /// No index was loaded for a query's language.
    Unexpected,
}

/// The terms in `words`, as views.
pub open spec fn views(words: Seq<String>) -> Seq<Seq<char>> {
    words.map_values(|w: String| w@)
}

/// The query vector of `words` over the vocabulary `terms[..n]`: weight 1 on
/// each dimension whose term is one of the words.
pub open spec fn query_vector(terms: Seq<Seq<char>>, words: Seq<Seq<char>>, n: int) -> Seq<(u32, u16)>
    decreases n,
{
    if n <= 0 {
        Seq::empty()
    } else if words.contains(terms[n - 1]) {
        query_vector(terms, words, n - 1).push(((n - 1) as u32, 1u16))
    } else {
        query_vector(terms, words, n - 1)
    }
}

/// The two vectors have a dimension in common.
pub open spec fn shares_dim(a: Seq<(u32, u16)>, b: Seq<(u32, u16)>) -> bool {
    exists|i: int, j: int| 0 <= i < a.len() && 0 <= j < b.len() && a[i].0 == b[j].0
}

/// How the outputs of a matching document are scored and filtered.
pub open spec fn item_of(
    o: u64,
    d: int,
    n: int,
    language: Option<Language>,
    order: Option<spec_fn(u64, u32) -> usize>,
) -> ResultItem {
    ResultItem {
        item: o,
        relevance: match order {
            Some(f) => f(o, score_pct(d, n) as u32),
            None => score_pct(d, n) as usize,
        },
        language,
        dot: d as u64,
        norms: n as u128,
    }
}

pub open spec fn output_items(
    outs: Seq<u64>,
    rf: spec_fn(u64) -> bool,
    d: int,
    n: int,
    language: Option<Language>,
    order: Option<spec_fn(u64, u32) -> usize>,
) -> Seq<ResultItem>
    decreases outs.len(),
{
    if outs.len() == 0 {
        Seq::empty()
    } else {
        let rest = output_items(outs.drop_first(), rf, d, n, language, order);
        if rf(outs[0]) {
            seq![item_of(outs[0], d, n, language, order)] + rest
        } else {
            rest
        }
    }
}

/// The items of one candidate document: none if the document filter rejects
/// it or its similarity is not above the threshold.
pub open spec fn doc_items(
    doc: Document,
    q: Seq<(u32, u16)>,
    threshold: u32,
    vf: spec_fn(u64) -> bool,
    rf: spec_fn(u64) -> bool,
    language: Option<Language>,
    order: Option<spec_fn(u64, u32) -> usize>,
) -> Seq<ResultItem> {
    let d = dot(doc.vector.entries@, q);
    let n = norm2(doc.vector.entries@) * norm2(q);
    if vf(doc.id) && sim_above(d, n, threshold as int) {
        output_items(doc.outputs@, rf, d, n, language, order)
    } else {
        Seq::empty()
    }
}

/// The items of the first `budget` documents that share a dimension with `q`.
pub open spec fn scan_docs(
    docs: Seq<Document>,
    q: Seq<(u32, u16)>,
    budget: nat,
    threshold: u32,
    vf: spec_fn(u64) -> bool,
    rf: spec_fn(u64) -> bool,
    language: Option<Language>,
    order: Option<spec_fn(u64, u32) -> usize>,
) -> Seq<ResultItem>
    decreases docs.len(),
{
    if docs.len() == 0 || budget == 0 {
        Seq::empty()
    } else if shares_dim(docs[0].vector.entries@, q) {
        doc_items(docs[0], q, threshold, vf, rf, language, order) + scan_docs(
            docs.drop_first(),
            q,
            (budget - 1) as nat,
            threshold,
            vf,
            rf,
            language,
            order,
        )
    } else {
        scan_docs(docs.drop_first(), q, budget, threshold, vf, rf, language, order)
    }
}

/// The first index loaded for `language`, from position `i` on.
pub open spec fn index_for(indexes: Seq<Index>, language: Option<Language>, i: int) -> Option<int>
    decreases indexes.len() - i,
{
    if i < 0 || i >= indexes.len() {
        None
    } else if indexes[i].language == language {
        Some(i)
    } else {
        index_for(indexes, language, i + 1)
    }
}

/// Every query of `queries` has an index for its language.
pub open spec fn all_resolved(queries: Seq<(String, Option<Language>)>, indexes: Seq<Index>) -> bool {
    forall|k: int| 0 <= k < queries.len() ==> (#[trigger] index_for(indexes, queries[k].1, 0)) is Some
}

/// The query vector of `q` and the words `extra` in `index`.
pub open spec fn index_query_vector(index: Index, q: Seq<char>, extra: Seq<Seq<char>>) -> Seq<(u32, u16)> {
    query_vector(views(index.terms@), seq![q] + extra, index.terms@.len() as int)
}

/// The words that query `k` was split into; none if `segments` has no entry for it.
pub open spec fn segments_at(segments: Seq<Vec<String>>, k: int) -> Seq<Seq<char>> {
    if 0 <= k < segments.len() {
        views(segments[k]@)
    } else {
        Seq::empty()
    }
}

/// A custom score for the items of query `q` in `language`.
pub open spec fn order_for(
    order: Option<spec_fn(u64, u32, Seq<char>, Option<Language>) -> usize>,
    q: Seq<char>,
    language: Option<Language>,
) -> Option<spec_fn(u64, u32) -> usize> {
    match order {
        Some(f) => Some(|o: u64, p: u32| f(o, p, q, language)),
        None => None,
    }
}

/// The query string searched for: the aligned form of `q` where alignment
/// is allowed and gives one, `q` otherwise.
pub open spec fn aligned_query(
    q: Seq<char>,
    index: Index,
    language: Option<Language>,
    allow_align: bool,
    align: spec_fn(Seq<char>, Index, Option<Language>) -> Option<Seq<char>>,
) -> Seq<char> {
    if allow_align && align(q, index, language) is Some {
        align(q, index, language)->0
    } else {
        q
    }
}

/// No alignment: every query is searched as written.
pub open spec fn no_align() -> spec_fn(Seq<char>, Index, Option<Language>) -> Option<Seq<char>> {
    |q: Seq<char>, i: Index, l: Option<Language>| None::<Seq<char>>
}

/// The items that one (aligned) query finds in its index.
pub open spec fn query_items(
    index: Index,
    q: Seq<char>,
    extra: Seq<Seq<char>>,
    language: Option<Language>,
    vector_limit: nat,
    threshold: u32,
    vf: spec_fn(u64) -> bool,
    rf: spec_fn(u64) -> bool,
    order: Option<spec_fn(u64, u32, Seq<char>, Option<Language>) -> usize>,
) -> Seq<ResultItem> {
    let qv = index_query_vector(index, q, extra);
    if qv.len() == 0 {
        Seq::empty()
    } else {
        scan_docs(index.documents@, qv, vector_limit, threshold, vf, rf, language, order_for(order, q, language))
    }
}

/// The items that the queries from position `k` on find, in query order.
pub open spec fn task_items(
    queries: Seq<(String, Option<Language>)>,
    segments: Seq<Vec<String>>,
    indexes: Seq<Index>,
    k: int,
    vector_limit: nat,
    threshold: u32,
    vf: spec_fn(u64) -> bool,
    rf: spec_fn(u64) -> bool,
    order: Option<spec_fn(u64, u32, Seq<char>, Option<Language>) -> usize>,
    allow_align: bool,
    align: spec_fn(Seq<char>, Index, Option<Language>) -> Option<Seq<char>>,
) -> Seq<ResultItem>
    decreases queries.len() - k,
{
    if k < 0 || k >= queries.len() {
        Seq::empty()
    } else {
        let here = match index_for(indexes, queries[k].1, 0) {
            Some(i) => query_items(
                indexes[i],
                aligned_query(queries[k].0@, indexes[i], queries[k].1, allow_align, align),
                segments_at(segments, k),
                queries[k].1,
                vector_limit,
                threshold,
                vf,
                rf,
                order,
            ),
            None => Seq::empty(),
        };
        here + task_items(queries, segments, indexes, k + 1, vector_limit, threshold, vf, rf, order, allow_align, align)
    }
}

/// `s` holds an item with the same output as `x`.
pub open spec fn has_output(s: Seq<ResultItem>, o: u64) -> bool {
    exists|j: int| 0 <= j < s.len() && s[j].item == o
}

/// `s` with only the first item of each output kept.
pub open spec fn dedup(s: Seq<ResultItem>) -> Seq<ResultItem>
    decreases s.len(),
{
    if s.len() == 0 {
        Seq::empty()
    } else {
        let p = dedup(s.drop_last());
        if has_output(p, s.last().item) {
            p
        } else {
            p.push(s.last())
        }
    }
}

/// `x` placed into the descending ranking `t` after every item at least as relevant.
pub open spec fn insert_ranked(t: Seq<ResultItem>, x: ResultItem) -> Seq<ResultItem>
    decreases t.len(),
{
    if t.len() == 0 {
        seq![x]
    } else if t[0].relevance < x.relevance {
        seq![x] + t
    } else {
        seq![t[0]] + insert_ranked(t.drop_first(), x)
    }
}

/// `s` ordered by descending relevance; items of equal relevance keep their order.
pub open spec fn ranked(s: Seq<ResultItem>) -> Seq<ResultItem>
    decreases s.len(),
{
    if s.len() == 0 {
        Seq::empty()
    } else {
        insert_ranked(ranked(s.drop_last()), s.last())
    }
}

/// The page of `r` that starts at `offset` and holds at most `limit` items.
pub open spec fn page(r: Seq<ResultItem>, offset: int, limit: int) -> Seq<ResultItem> {
    if offset >= r.len() {
        Seq::empty()
    } else if offset + limit >= r.len() {
        r.subrange(offset, r.len() as int)
    } else {
        r.subrange(offset, offset + limit)
    }
}

fn contains_word(words: &Vec<String>, t: &String) -> (r: bool)
    ensures
        r == views(words@).contains(t@),
{
    let mut i: usize = 0;
    while i < words.len()
        invariant
            i <= words@.len(),
            forall|j: int| 0 <= j < i ==> words@[j]@ != t@,
        decreases words@.len() - i,
    {
        if words[i] == *t {
            assert(views(words@)[i as int] == t@);
            return true;
        }
        i += 1;
    }
    proof {
        if views(words@).contains(t@) {
            let j = choose|j: int| 0 <= j < views(words@).len() && views(words@)[j] == t@;
            assert(words@[j]@ == t@);
        }
    }
    false
}

proof fn lemma_query_vector_wf(terms: Seq<Seq<char>>, words: Seq<Seq<char>>, n: int)
    requires
        0 <= n <= terms.len(),
        n <= MAX_ENTRIES,
    ensures
        entries_wf(query_vector(terms, words, n)),
        query_vector(terms, words, n).len() <= n,
        forall|i: int|
            0 <= i < query_vector(terms, words, n).len() ==> #[trigger] query_vector(terms, words, n)[i].0 < n,
    decreases n,
{
    if n > 0 {
        lemma_query_vector_wf(terms, words, n - 1);
    }
}

/// Builds the query vector of `words` over the vocabulary `terms`.
pub fn build_query_vector(terms: &Vec<String>, words: &Vec<String>) -> (r: SparseVector)
    requires
        terms@.len() <= MAX_ENTRIES,
    ensures
        r.entries@ == query_vector(views(terms@), views(words@), terms@.len() as int),
        r.wf(),
{
    let mut entries: Vec<(u32, u16)> = Vec::new();
    let mut d: usize = 0;
    while d < terms.len()
        invariant
            d <= terms@.len() <= MAX_ENTRIES,
            entries@ == query_vector(views(terms@), views(words@), d as int),
        decreases terms@.len() - d,
    {
        if contains_word(words, &terms[d]) {
            entries.push((d as u32, 1u16));
        }
        d += 1;
    }
    proof {
        lemma_query_vector_wf(views(terms@), views(words@), terms@.len() as int);
    }
    SparseVector { entries }
}

/// Whether two vectors have a dimension in common.
pub fn shares_dimension(a: &SparseVector, b: &SparseVector) -> (r: bool)
    ensures
        r == shares_dim(a.entries@, b.entries@),
{
    let mut i: usize = 0;
    while i < a.entries.len()
        invariant
            i <= a.entries@.len(),
            forall|x: int, y: int|
                0 <= x < i && 0 <= y < b.entries@.len() ==> a.entries@[x].0 != b.entries@[y].0,
        decreases a.entries@.len() - i,
    {
        let mut j: usize = 0;
        while j < b.entries.len()
            invariant
                i < a.entries@.len(),
                j <= b.entries@.len(),
                forall|x: int, y: int|
                    0 <= x < i && 0 <= y < b.entries@.len() ==> a.entries@[x].0 != b.entries@[y].0,
                forall|y: int| 0 <= y < j ==> a.entries@[i as int].0 != b.entries@[y].0,
            decreases b.entries@.len() - j,
        {
            if a.entries[i].0 == b.entries[j].0 {
                return true;
            }
            j += 1;
        }
        i += 1;
    }
    false
}

/// Pushes the items of one output list onto `out`.
fn push_output_items<RF: Fn(u64) -> bool, OF: Fn(u64, u32, &str, Option<Language>) -> usize>(
    outs: &Vec<u64>,
    res_filter: &RF,
    order: &Option<OF>,
    d: u64,
    n: u128,
    query: &str,
    language: Option<Language>,
    out: &mut Vec<ResultItem>,
    Ghost(rf): Ghost<spec_fn(u64) -> bool>,
    Ghost(of): Ghost<Option<spec_fn(u64, u32, Seq<char>, Option<Language>) -> usize>>,
)
    requires
        forall|x: u64| res_filter.requires((x,)),
        forall|x: u64, b: bool| res_filter.ensures((x,), b) ==> b == rf(x),
        order is Some <==> of is Some,
        forall|o: u64, p: u32, q: &str, l: Option<Language>| order is Some ==> order->0.requires((o, p, q, l)),
        forall|o: u64, p: u32, q: &str, l: Option<Language>, r: usize| order is Some && order->0.ensures((o, p, q, l), r) ==> r == of->0(o, p, q@, l),
        d <= crate::vector::max_dot(),
        n <= crate::vector::max_norm_product(),
    ensures
        final(out)@ == old(out)@ + output_items(outs@, rf, d as int, n as int, language, order_for(of, query@, language)),
{
    let score = score_percent(d, n);
    let ghost start = out@;
    let ghost all = output_items(outs@, rf, d as int, n as int, language, order_for(of, query@, language));
    let mut k: usize = 0;
    assert(outs@.subrange(0, outs@.len() as int) =~= outs@);
    while k < outs.len()
        invariant
            k <= outs@.len(),
            score as nat == score_pct(d as int, n as int),
            all == output_items(outs@, rf, d as int, n as int, language, order_for(of, query@, language)),
            forall|x: u64| res_filter.requires((x,)),
            forall|x: u64, b: bool| res_filter.ensures((x,), b) ==> b == rf(x),
            order is Some <==> of is Some,
            forall|o: u64, p: u32, q: &str, l: Option<Language>| order is Some ==> order->0.requires((o, p, q, l)),
            forall|o: u64, p: u32, q: &str, l: Option<Language>, r: usize| order is Some && order->0.ensures((o, p, q, l), r) ==> r == of->0(o, p, q@, l),
            out@ + output_items(outs@.subrange(k as int, outs@.len() as int), rf, d as int, n as int, language, order_for(of, query@, language)) == start + all,
        decreases outs@.len() - k,
    {
        let o = outs[k];
        let ghost sub = outs@.subrange(k as int, outs@.len() as int);
        let ghost rest = output_items(outs@.subrange(k + 1, outs@.len() as int), rf, d as int, n as int, language, order_for(of, query@, language));
        assert(sub.drop_first() =~= outs@.subrange(k + 1, outs@.len() as int));
        let ghost before = out@;
        if res_filter(o) {
            let relevance = match order {
                Some(f) => f(o, score, query, language),
                None => score as usize,
            };
            let it = ResultItem { item: o, relevance, language, dot: d, norms: n };
            assert(it == item_of(o, d as int, n as int, language, order_for(of, query@, language)));
            out.push(it);
            assert(before.push(it) + rest =~= before + (seq![it] + rest));
        }
        k += 1;
    }
    assert(outs@.subrange(k as int, outs@.len() as int) =~= Seq::<u64>::empty());
    assert(out@ + Seq::<ResultItem>::empty() =~= out@);
}

/// Scores the documents of `index` that share a dimension with `q` (at most
/// `vector_limit` of them) and pushes the items they yield onto `out`.
fn scan_index<VF: Fn(u64) -> bool, RF: Fn(u64) -> bool, OF: Fn(u64, u32, &str, Option<Language>) -> usize>(
    index: &Index,
    q: &SparseVector,
    vector_limit: usize,
    threshold: u32,
    vec_filter: &VF,
    res_filter: &RF,
    order: &Option<OF>,
    query: &str,
    language: Option<Language>,
    out: &mut Vec<ResultItem>,
    Ghost(vf): Ghost<spec_fn(u64) -> bool>,
    Ghost(rf): Ghost<spec_fn(u64) -> bool>,
    Ghost(of): Ghost<Option<spec_fn(u64, u32, Seq<char>, Option<Language>) -> usize>>,
)
    requires
        index.wf(),
        q.wf(),
        threshold <= 100,
        forall|x: u64| vec_filter.requires((x,)),
        forall|x: u64, b: bool| vec_filter.ensures((x,), b) ==> b == vf(x),
        forall|x: u64| res_filter.requires((x,)),
        forall|x: u64, b: bool| res_filter.ensures((x,), b) ==> b == rf(x),
        order is Some <==> of is Some,
        forall|o: u64, p: u32, q: &str, l: Option<Language>| order is Some ==> order->0.requires((o, p, q, l)),
        forall|o: u64, p: u32, q: &str, l: Option<Language>, r: usize| order is Some && order->0.ensures((o, p, q, l), r) ==> r == of->0(o, p, q@, l),
    ensures
        final(out)@ == old(out)@ + scan_docs(index.documents@, q.entries@, vector_limit as nat, threshold, vf, rf, language, order_for(of, query@, language)),
{
    let docs = &index.documents;
    let qn = squared_norm(q);
    let ghost start = out@;
    let ghost all = scan_docs(docs@, q.entries@, vector_limit as nat, threshold, vf, rf, language, order_for(of, query@, language));
    let mut i: usize = 0;
    let mut budget: usize = vector_limit;
    assert(docs@.subrange(0, docs@.len() as int) =~= docs@);
    while i < docs.len() && budget > 0
        invariant
            i <= docs@.len(),
            index.wf(),
            q.wf(),
            docs == &index.documents,
            threshold <= 100,
            qn as int == norm2(q.entries@),
            qn <= 4503599627370496,
            all == scan_docs(docs@, q.entries@, vector_limit as nat, threshold, vf, rf, language, order_for(of, query@, language)),
            forall|x: u64| vec_filter.requires((x,)),
            forall|x: u64, b: bool| vec_filter.ensures((x,), b) ==> b == vf(x),
            forall|x: u64| res_filter.requires((x,)),
            forall|x: u64, b: bool| res_filter.ensures((x,), b) ==> b == rf(x),
            order is Some <==> of is Some,
            forall|o: u64, p: u32, q: &str, l: Option<Language>| order is Some ==> order->0.requires((o, p, q, l)),
            forall|o: u64, p: u32, q: &str, l: Option<Language>, r: usize| order is Some && order->0.ensures((o, p, q, l), r) ==> r == of->0(o, p, q@, l),
            out@ + scan_docs(docs@.subrange(i as int, docs@.len() as int), q.entries@, budget as nat, threshold, vf, rf, language, order_for(of, query@, language)) == start + all,
        decreases docs@.len() - i,
    {
        let doc = &docs[i];
        let ghost sub = docs@.subrange(i as int, docs@.len() as int);
        assert(sub.drop_first() =~= docs@.subrange(i + 1, docs@.len() as int));
        assert(sub[0] == docs@[i as int]);
        let ghost before = out@;
        if shares_dimension(&doc.vector, q) {
            let ghost rest = scan_docs(docs@.subrange(i + 1, docs@.len() as int), q.entries@, (budget - 1) as nat, threshold, vf, rf, language, order_for(of, query@, language));
            assert(doc.vector.wf());
            let d = dot_product(&doc.vector, q);
            let dn = squared_norm(&doc.vector);
            proof {
                lemma_mul_le(dn as int, qn as int, 4503599627370496, 4503599627370496);
            }
            let n = (dn as u128) * (qn as u128);
            if vec_filter(doc.id) && similarity_above(d, n, threshold) {
                push_output_items(&doc.outputs, res_filter, order, d, n, query, language, out, Ghost(rf), Ghost(of));
            }
            let ghost here = doc_items(*doc, q.entries@, threshold, vf, rf, language, order_for(of, query@, language));
            assert(out@ == before + here);
            assert(before + here + rest =~= before + (here + rest));
            budget -= 1;
        }
        i += 1;
    }
    assert(scan_docs(docs@.subrange(i as int, docs@.len() as int), q.entries@, budget as nat, threshold, vf, rf, language, order_for(of, query@, language)) == Seq::<ResultItem>::empty());
    assert(out@ + Seq::<ResultItem>::empty() =~= out@);
}

/// Relies on `Itertools::unique_by` keyed by the output: it yields each item
/// whose output was not yielded before, in order.
#[verifier::external_body]
fn unique_by_output(v: Vec<ResultItem>) -> (r: Vec<ResultItem>)
    ensures
        r@ == dedup(v@),
{
    v.into_iter().unique_by(|a| a.item).collect()
}

/// The position at which `x` enters the descending ranking `t`.
proof fn lemma_insert_ranked_at(t: Seq<ResultItem>, x: ResultItem, p: int)
    requires
        0 <= p <= t.len(),
        forall|k: int| 0 <= k < p ==> t[k].relevance >= x.relevance,
        p < t.len() ==> t[p].relevance < x.relevance,
    ensures
        insert_ranked(t, x) == t.subrange(0, p) + seq![x] + t.subrange(p, t.len() as int),
    decreases p,
{
    if t.len() == 0 {
        assert(seq![x] =~= t.subrange(0, p) + seq![x] + t.subrange(p, t.len() as int));
    } else if p == 0 {
        assert(seq![x] + t =~= t.subrange(0, p) + seq![x] + t.subrange(p, t.len() as int));
    } else {
        lemma_insert_ranked_at(t.drop_first(), x, p - 1);
        assert(seq![t[0]] + (t.drop_first().subrange(0, p - 1) + seq![x] + t.drop_first().subrange(
            p - 1,
            t.len() - 1,
        )) =~= t.subrange(0, p) + seq![x] + t.subrange(p, t.len() as int));
    }
}

/// Orders `items` by descending relevance, keeping the order of equal items.
pub fn rank(items: &Vec<ResultItem>) -> (r: Vec<ResultItem>)
    ensures
        r@ == ranked(items@),
{
    let mut out: Vec<ResultItem> = Vec::new();
    let mut i: usize = 0;
    while i < items.len()
        invariant
            i <= items@.len(),
            out@ == ranked(items@.subrange(0, i as int)),
        decreases items@.len() - i,
    {
        let x = items[i];
        let mut p: usize = 0;
        while p < out.len() && out[p].relevance >= x.relevance
            invariant
                p <= out@.len(),
                forall|k: int| 0 <= k < p ==> out@[k].relevance >= x.relevance,
            decreases out@.len() - p,
        {
            p += 1;
        }
        let ghost prev = out@;
        proof {
            lemma_insert_ranked_at(out@, x, p as int);
            assert(items@.subrange(0, i + 1).drop_last() =~= items@.subrange(0, i as int));
        }
        out.insert(p, x);
        assert(out@ =~= prev.subrange(0, p as int) + seq![x] + prev.subrange(p as int, prev.len() as int));
        i += 1;
    }
    assert(items@.subrange(0, items@.len() as int) =~= items@);
    out
}

/// The page of `r` that starts at `offset` and holds at most `limit` items.
pub fn paginate(r: &Vec<ResultItem>, offset: usize, limit: usize) -> (p: Vec<ResultItem>)
    ensures
        p@ == page(r@, offset as int, limit as int),
        p@.len() <= limit,
{
    let mut out: Vec<ResultItem> = Vec::new();
    if offset >= r.len() {
        return out;
    }
    let end = if r.len() - offset <= limit {
        r.len()
    } else {
        offset + limit
    };
    let mut i = offset;
    while i < end
        invariant
            offset <= i <= end <= r@.len(),
            out@ =~= r@.subrange(offset as int, i as int),
        decreases end - i,
    {
        out.push(r[i]);
        i += 1;
    }
    out
}

/// One logical search: query strings with their languages, a similarity
/// threshold in percent, a result limit, a cap on the document vectors
/// examined per query, and a page offset.
#[derive(Clone, Debug)]
pub struct SearchTask {
    pub queries: Vec<(String, Option<Language>)>,
    pub threshold: u32,
    pub limit: usize,
    pub vector_limit: usize,
    pub offset: usize,
    /// A query may be replaced by an aligned (corrected) form before it is
    /// looked up.
    pub allow_align: bool,
    /// `segments[k]` holds the words that a tokenizer split query `k` into;
    /// they are looked up together with the query.
    pub segments: Vec<Vec<String>>,
}

impl SearchTask {
    /// The defaults: threshold 20 percent, result limit 1000, vector limit
    /// 100000, offset 0, alignment allowed.
    pub open spec fn is_default_config(&self) -> bool {
        self.threshold == 20 && self.limit == 1000 && self.vector_limit == 100000 && self.offset == 0
            && self.allow_align
    }

    /// A task for one query with no language.
    pub fn new(query: &str) -> (r: Self)
        ensures
            r.queries@.len() == 1,
            r.queries@[0].0@ == query@,
            r.queries@[0].1 is None,
            r.is_default_config(),
            r.segments@.len() == 0,
    {
        let mut queries: Vec<(String, Option<Language>)> = Vec::new();
        queries.push((query.to_owned(), None));
        SearchTask {
            queries,
            threshold: 20,
            limit: 1000,
            vector_limit: 100000,
            offset: 0,
            allow_align: true,
            segments: Vec::new(),
        }
    }

    /// A task for one query in `language`.
    pub fn with_language(query: &str, language: Language) -> (r: Self)
        ensures
            r.queries@.len() == 1,
            r.queries@[0].0@ == query@,
            r.queries@[0].1 == Some(language),
            r.is_default_config(),
            r.segments@.len() == 0,
    {
        let mut queries: Vec<(String, Option<Language>)> = Vec::new();
        queries.push((query.to_owned(), Some(language)));
        SearchTask {
            queries,
            threshold: 20,
            limit: 1000,
            vector_limit: 100000,
            offset: 0,
            allow_align: true,
            segments: Vec::new(),
        }
    }

    /// Adds a query in `language`.
    pub fn add_language_query(self, query: &str, language: Language) -> (r: Self)
        ensures
            r.queries@.len() == self.queries@.len() + 1,
            forall|k: int| 0 <= k < self.queries@.len() ==> r.queries@[k] == self.queries@[k],
            r.queries@.last().0@ == query@,
            r.queries@.last().1 == Some(language),
            r.threshold == self.threshold && r.limit == self.limit,
            r.vector_limit == self.vector_limit && r.offset == self.offset,
    {
        let mut t = self;
        t.queries.push((query.to_owned(), Some(language)));
        t
    }

    /// Adds a query with no language.
    pub fn add_query(&mut self, query: &str)
        ensures
            final(self).queries@.len() == old(self).queries@.len() + 1,
            forall|k: int| 0 <= k < old(self).queries@.len() ==> final(self).queries@[k] == old(self).queries@[k],
            final(self).queries@.last().0@ == query@,
            final(self).queries@.last().1 is None,
            final(self).threshold == old(self).threshold && final(self).limit == old(self).limit,
            final(self).vector_limit == old(self).vector_limit && final(self).offset == old(self).offset,
    {
        self.queries.push((query.to_owned(), None));
    }

    /// Sets the largest number of items returned.
    pub fn limit(self, total_limit: usize) -> (r: Self)
        ensures
            r == (SearchTask { limit: total_limit, ..self }),
    {
        SearchTask { limit: total_limit, ..self }
    }

    /// Sets the threshold, in percent, that a similarity must exceed.
    pub fn threshold(self, threshold: u32) -> (r: Self)
        requires
            threshold <= 100,
        ensures
            r == (SearchTask { threshold, ..self }),
    {
        SearchTask { threshold, ..self }
    }

    /// Sets the number of ranked items skipped before the page starts.
    pub fn offset(self, offset: usize) -> (r: Self)
        ensures
            r == (SearchTask { offset, ..self }),
    {
        SearchTask { offset, ..self }
    }

    /// Sets the words that each query was split into, by query position.
    pub fn with_segments(self, segments: Vec<Vec<String>>) -> (r: Self)
        ensures
            r == (SearchTask { segments, ..self }),
    {
        SearchTask { segments, ..self }
    }

    /// Allows or forbids query alignment.
    pub fn allow_align(self, allow_align: bool) -> (r: Self)
        ensures
            r == (SearchTask { allow_align, ..self }),
    {
        SearchTask { allow_align, ..self }
    }

    /// The number of queries of the task.
    pub fn query_count(&self) -> (r: usize)
        ensures
            r == self.queries@.len(),
    {
        self.queries.len()
    }
}

/// The position of the first index loaded for `language`.
pub fn resolve_index(indexes: &Vec<Index>, language: Option<Language>) -> (r: Option<usize>)
    ensures
        r matches Some(i) ==> index_for(indexes@, language, 0) == Some(i as int) && i
            < indexes@.len(),
        r is None ==> index_for(indexes@, language, 0) is None,
{
    let mut i: usize = 0;
    while i < indexes.len()
        invariant
            i <= indexes@.len(),
            index_for(indexes@, language, i as int) == index_for(indexes@, language, 0),
        decreases indexes@.len() - i,
    {
        if indexes[i].language == language {
            return Some(i);
        }
        i += 1;
    }
    None
}

/// Accepts every document or output.
pub open spec fn accept_all() -> spec_fn(u64) -> bool {
    |x: u64| true
}

impl SearchTask {
    /// The full ranking of the task: the items of all queries, in query order,
    /// with only the first item of each output, by descending relevance.
    pub open spec fn ranking(
        &self,
        indexes: Seq<Index>,
        vf: spec_fn(u64) -> bool,
        rf: spec_fn(u64) -> bool,
        order: Option<spec_fn(u64, u32, Seq<char>, Option<Language>) -> usize>,
        align: spec_fn(Seq<char>, Index, Option<Language>) -> Option<Seq<char>>,
    ) -> Seq<ResultItem> {
        ranked(
            dedup(
                task_items(
                    self.queries@,
                    self.segments@,
                    indexes,
                    0,
                    self.vector_limit as nat,
                    self.threshold,
                    vf,
                    rf,
                    order,
                    self.allow_align,
                    align,
                ),
            ),
        )
    }

    /// Some query of the task is a term of its index's vocabulary.
    pub open spec fn spec_has_term(&self, indexes: Seq<Index>) -> bool {
        exists|k: int|
            0 <= k < self.queries@.len() && match #[trigger] index_for(indexes, self.queries@[k].1, 0) {
                Some(i) => views(indexes[i].terms@).contains(self.queries@[k].0@),
                None => false,
            }
    }

    /// Returns `true` if one of the queries is a term of its index.
    pub fn has_term(&self, indexes: &Vec<Index>) -> (r: bool)
        ensures
            r == self.spec_has_term(indexes@),
    {
        let mut k: usize = 0;
        while k < self.queries.len()
            invariant
                k <= self.queries@.len(),
                forall|j: int|
                    0 <= j < k ==> match #[trigger] index_for(indexes@, self.queries@[j].1, 0) {
                        Some(i) => !views(indexes@[i].terms@).contains(self.queries@[j].0@),
                        None => true,
                    },
            decreases self.queries@.len() - k,
        {
            match resolve_index(indexes, self.queries[k].1) {
                Some(i) => {
                    if contains_word(&indexes[i].terms, &self.queries[k].0) {
                        return true;
                    }
                },
                None => {},
            }
            k += 1;
        }
        false
    }

    /// Runs the task with a document filter, an output filter, an optional
    /// custom score `order(output, similarity percent, query, language)` and a
    /// query aligner `align(query, index, language)`, used where the task allows
    /// alignment; `vf`, `rf`, `of` and `al` are what the closures compute.
    pub fn find_with<
        VF: Fn(u64) -> bool,
        RF: Fn(u64) -> bool,
        OF: Fn(u64, u32, &str, Option<Language>) -> usize,
        AF: Fn(&str, &Index, Option<Language>) -> Option<String>,
    >(
        &self,
        indexes: &Vec<Index>,
        vec_filter: VF,
        res_filter: RF,
        order: Option<OF>,
        align: AF,
        Ghost(vf): Ghost<spec_fn(u64) -> bool>,
        Ghost(rf): Ghost<spec_fn(u64) -> bool>,
        Ghost(of): Ghost<Option<spec_fn(u64, u32, Seq<char>, Option<Language>) -> usize>>,
        Ghost(al): Ghost<spec_fn(Seq<char>, Index, Option<Language>) -> Option<Seq<char>>>,
    ) -> (r: Result<SearchResult, SearchError>)
        requires
            self.threshold <= 100,
            forall|i: int| 0 <= i < indexes@.len() ==> #[trigger] indexes@[i].wf(),
            forall|x: u64| vec_filter.requires((x,)),
                forall|x: u64, b: bool| vec_filter.ensures((x,), b) ==> b == vf(x),
                forall|x: u64| res_filter.requires((x,)),
                forall|x: u64, b: bool| res_filter.ensures((x,), b) ==> b == rf(x),
                order is Some <==> of is Some,
                forall|o: u64, p: u32, q: &str, l: Option<Language>| order is Some ==> order->0.requires((o, p, q, l)),
                forall|o: u64, p: u32, q: &str, l: Option<Language>, r: usize| order is Some && order->0.ensures((o, p, q, l), r) ==> r == of->0(o, p, q@, l),
                forall|q: &str, i: &Index, l: Option<Language>| align.requires((q, i, l)),
                forall|q: &str, i: &Index, l: Option<Language>, r: Option<String>| align.ensures((q, i, l), r) ==> opt_view(r) == al(q@, *i, l),
        ensures
            all_resolved(self.queries@, indexes@) ==> (r matches Ok(res) && res.items@ == page(
                self.ranking(indexes@, vf, rf, of, al),
                self.offset as int,
                self.limit as int,
            ) && res.total == self.ranking(indexes@, vf, rf, of, al).len()),
            !all_resolved(self.queries@, indexes@) ==> r == Err::<SearchResult, SearchError>(
                SearchError::Unexpected,
            ),
    {
        let mut positions: Vec<usize> = Vec::new();
        let mut k: usize = 0;
        while k < self.queries.len()
            invariant
                k <= self.queries@.len(),
                positions@.len() == k,
                forall|j: int| 0 <= j < k ==> index_for(indexes@, self.queries@[j].1, 0) == Some(#[trigger] positions@[j] as int),
            decreases self.queries@.len() - k,
        {
            match resolve_index(indexes, self.queries[k].1) {
                Some(i) => positions.push(i),
                None => {
                    return Err(SearchError::Unexpected);
                },
            }
            k += 1;
        }
        assert(all_resolved(self.queries@, indexes@)) by {
            assert forall|j: int| 0 <= j < self.queries@.len() implies (#[trigger] index_for(indexes@, self.queries@[j].1, 0)) is Some by {
                assert(index_for(indexes@, self.queries@[j].1, 0) == Some(positions@[j] as int));
            }
        }
        let ghost all = task_items(self.queries@, self.segments@, indexes@, 0, self.vector_limit as nat, self.threshold, vf, rf, of, self.allow_align, al);
        let mut items: Vec<ResultItem> = Vec::new();
        let mut k: usize = 0;
        while k < self.queries.len()
            invariant
                k <= self.queries@.len(),
                positions@.len() == self.queries@.len(),
                forall|j: int| 0 <= j < self.queries@.len() ==> index_for(indexes@, self.queries@[j].1, 0) == Some(#[trigger] positions@[j] as int),
                forall|i: int| 0 <= i < indexes@.len() ==> #[trigger] indexes@[i].wf(),
                self.threshold <= 100,
                all == task_items(self.queries@, self.segments@, indexes@, 0, self.vector_limit as nat, self.threshold, vf, rf, of, self.allow_align, al),
                items@ + task_items(self.queries@, self.segments@, indexes@, k as int, self.vector_limit as nat, self.threshold, vf, rf, of, self.allow_align, al) == all,
                forall|x: u64| vec_filter.requires((x,)),
                forall|x: u64, b: bool| vec_filter.ensures((x,), b) ==> b == vf(x),
                forall|x: u64| res_filter.requires((x,)),
                forall|x: u64, b: bool| res_filter.ensures((x,), b) ==> b == rf(x),
                order is Some <==> of is Some,
                forall|o: u64, p: u32, q: &str, l: Option<Language>| order is Some ==> order->0.requires((o, p, q, l)),
                forall|o: u64, p: u32, q: &str, l: Option<Language>, r: usize| order is Some && order->0.ensures((o, p, q, l), r) ==> r == of->0(o, p, q@, l),
                forall|q: &str, i: &Index, l: Option<Language>| align.requires((q, i, l)),
                forall|q: &str, i: &Index, l: Option<Language>, r: Option<String>| align.ensures((q, i, l), r) ==> opt_view(r) == al(q@, *i, l),
            decreases self.queries@.len() - k,
        {
            let pos = positions[k];
            assert(index_for(indexes@, self.queries@[k as int].1, 0) == Some(pos as int));
            proof {
                lemma_index_for_range(indexes@, self.queries@[k as int].1, 0);
            }
            assert(indexes@[pos as int].wf());
            let index = &indexes[pos];
            let language = self.queries[k].1;
            let aligned = if self.allow_align {
                align(self.queries[k].0.as_str(), index, language)
            } else {
                None
            };
            let q: String = match aligned {
                Some(a) => a,
                None => self.queries[k].0.clone(),
            };
            assert(q@ == aligned_query(self.queries@[k as int].0@, *index, language, self.allow_align, al));
            let mut words: Vec<String> = Vec::new();
            words.push(q.clone());
            if k < self.segments.len() {
                let segs = &self.segments[k];
                let mut j: usize = 0;
                while j < segs.len()
                    invariant
                        j <= segs@.len(),
                        views(words@) =~= seq![q@] + views(segs@).subrange(0, j as int),
                    decreases segs@.len() - j,
                {
                    let ghost before = words@;
                    words.push(segs[j].clone());
                    assert(views(words@) =~= views(before).push(segs@[j as int]@));
                    j += 1;
                }
                assert(views(segs@).subrange(0, segs@.len() as int) =~= views(segs@));
            }
            assert(views(words@) =~= seq![q@] + segments_at(self.segments@, k as int));
            let qv = build_query_vector(&index.terms, &words);
            let ghost before = items@;
            let ghost rest = task_items(self.queries@, self.segments@, indexes@, k + 1, self.vector_limit as nat, self.threshold, vf, rf, of, self.allow_align, al);
            if qv.entries.len() > 0 {
                scan_index(index, &qv, self.vector_limit, self.threshold, &vec_filter, &res_filter, &order, q.as_str(), language, &mut items, Ghost(vf), Ghost(rf), Ghost(of));
            }
            assert(before + query_items(*index, q@, segments_at(self.segments@, k as int), language, self.vector_limit as nat, self.threshold, vf, rf, of) + rest =~= before + (query_items(*index, q@, segments_at(self.segments@, k as int), language, self.vector_limit as nat, self.threshold, vf, rf, of) + rest));
            k += 1;
        }
        assert(items@ + Seq::<ResultItem>::empty() =~= items@);
        let unique = unique_by_output(items);
        let ranking = rank(&unique);
        let total = ranking.len();
        let page_items = paginate(&ranking, self.offset, self.limit);
        Ok(SearchResult { items: page_items, total })
    }

    /// Runs the task with no filters, the default score (the similarity in
    /// percent, rounded) and no alignment.
    pub fn find(&self, indexes: &Vec<Index>) -> (r: Result<SearchResult, SearchError>)
        requires
            self.threshold <= 100,
            forall|i: int| 0 <= i < indexes@.len() ==> #[trigger] indexes@[i].wf(),
        ensures
            all_resolved(self.queries@, indexes@) ==> (r matches Ok(res) && res.items@ == page(
                self.ranking(indexes@, accept_all(), accept_all(), default_order(), no_align()),
                self.offset as int,
                self.limit as int,
            ) && res.total == self.ranking(indexes@, accept_all(), accept_all(), default_order(), no_align()).len()),
            !all_resolved(self.queries@, indexes@) ==> r == Err::<SearchResult, SearchError>(
                SearchError::Unexpected,
            ),
    {
        let keep = |x: u64| -> (b: bool)
            ensures
                b == true,
            { true };
        let as_written = |q: &str, i: &Index, l: Option<Language>| -> (r: Option<String>)
            ensures
                r is None,
            { None };
        let by_percent = |o: u64, p: u32, q: &str, l: Option<Language>| -> (r: usize)
            ensures
                r == p as usize,
            { p as usize };
        self.find_with(
            indexes,
            keep,
            keep,
            Some(by_percent),
            as_written,
            Ghost(accept_all()),
            Ghost(accept_all()),
            Ghost(default_order()),
            Ghost(no_align()),
        )
    }
}

/// The default score: the similarity in percent.
pub open spec fn default_order() -> Option<spec_fn(u64, u32, Seq<char>, Option<Language>) -> usize> {
    Some(|o: u64, p: u32, q: Seq<char>, l: Option<Language>| p as usize)
}

/// The view of an optional string.
pub open spec fn opt_view(r: Option<String>) -> Option<Seq<char>> {
    match r {
        Some(s) => Some(s@),
        None => None,
    }
}

proof fn lemma_index_for_range(indexes: Seq<Index>, language: Option<Language>, i: int)
    ensures
        index_for(indexes, language, i) matches Some(p) ==> i <= p < indexes.len(),
    decreases indexes.len() - i,
{
    if 0 <= i < indexes.len() && indexes[i].language != language {
        lemma_index_for_range(indexes, language, i + 1);
    }
}

/// No two items of `s` have the same output.
pub open spec fn unique_outputs(s: Seq<ResultItem>) -> bool {
    forall|i: int, j: int| 0 <= i < j < s.len() ==> s[i].item != s[j].item
}

/// Every item of `s` has a similarity above `pct` percent.
pub open spec fn all_above(s: Seq<ResultItem>, pct: u32) -> bool {
    forall|k: int| 0 <= k < s.len() ==> sim_above((#[trigger] s[k]).dot as int, s[k].norms as int, pct as int)
}

proof fn lemma_dedup(s: Seq<ResultItem>)
    ensures
        unique_outputs(dedup(s)),
        forall|k: int| 0 <= k < dedup(s).len() ==> s.contains(#[trigger] dedup(s)[k]),
        forall|o: u64| has_output(dedup(s), o) <==> has_output(s, o),
    decreases s.len(),
{
    if s.len() > 0 {
        let p = dedup(s.drop_last());
        lemma_dedup(s.drop_last());
        assert forall|k: int| 0 <= k < dedup(s).len() implies s.contains(#[trigger] dedup(s)[k]) by {
            if k < p.len() {
                assert(s.drop_last().contains(p[k]));
                let j = choose|j: int| 0 <= j < s.drop_last().len() && s.drop_last()[j] == p[k];
                assert(s[j] == p[k]);
            } else {
                assert(s[s.len() - 1] == dedup(s)[k]);
            }
        }
        assert forall|o: u64| has_output(dedup(s), o) <==> has_output(s, o) by {
            if has_output(s, o) {
                let j = choose|j: int| 0 <= j < s.len() && s[j].item == o;
                if j < s.len() - 1 {
                    assert(s.drop_last()[j].item == o);
                    assert(has_output(s.drop_last(), o));
                    assert(has_output(p, o));
                    let m = choose|m: int| 0 <= m < p.len() && p[m].item == o;
                    assert(dedup(s)[m].item == o);
                } else if !has_output(p, s.last().item) {
                    assert(dedup(s)[p.len() as int].item == o);
                }
            }
            if has_output(dedup(s), o) {
                let m = choose|m: int| 0 <= m < dedup(s).len() && dedup(s)[m].item == o;
                if m < p.len() {
                    assert(p[m].item == o);
                    assert(has_output(s.drop_last(), o));
                    let j = choose|j: int| 0 <= j < s.drop_last().len() && s.drop_last()[j].item == o;
                    assert(s[j].item == o);
                } else {
                    assert(s[s.len() - 1].item == o);
                }
            }
        }
    }
}

proof fn lemma_insert_ranked(t: Seq<ResultItem>, x: ResultItem)
    ensures
        insert_ranked(t, x).len() == t.len() + 1,
        forall|e: ResultItem| #[trigger] insert_ranked(t, x).contains(e) <==> (t.contains(e) || e == x),
        unique_outputs(t) && !has_output(t, x.item) ==> unique_outputs(insert_ranked(t, x)),
        forall|o: u64| #[trigger] has_output(insert_ranked(t, x), o) <==> (has_output(t, o) || x.item == o),
    decreases t.len(),
{
    let r = insert_ranked(t, x);
    if t.len() == 0 {
        assert(r =~= seq![x]);
        assert forall|o: u64| has_output(r, o) <==> x.item == o by {
            if x.item == o {
                assert(r[0].item == o);
            }
        }
    } else if t[0].relevance < x.relevance {
        assert(r == seq![x] + t);
        assert forall|e: ResultItem| r.contains(e) <==> (t.contains(e) || e == x) by {
            if r.contains(e) {
                let j = choose|j: int| 0 <= j < r.len() && r[j] == e;
                if j > 0 {
                    assert(t[j - 1] == e);
                }
            }
            if t.contains(e) {
                let j = choose|j: int| 0 <= j < t.len() && t[j] == e;
                assert(r[j + 1] == e);
            }
            if e == x {
                assert(r[0] == e);
            }
        }
        assert forall|o: u64| has_output(r, o) <==> (has_output(t, o) || x.item == o) by {
            if has_output(r, o) {
                let j = choose|j: int| 0 <= j < r.len() && r[j].item == o;
                if j > 0 {
                    assert(t[j - 1].item == o);
                }
            }
            if has_output(t, o) {
                let j = choose|j: int| 0 <= j < t.len() && t[j].item == o;
                assert(r[j + 1].item == o);
            }
            if x.item == o {
                assert(r[0].item == o);
            }
        }
        if unique_outputs(t) && !has_output(t, x.item) {
            assert forall|i: int, j: int| 0 <= i < j < r.len() implies r[i].item != r[j].item by {
                if i == 0 {
                    assert(r[j] == t[j - 1]);
                } else {
                    assert(r[i] == t[i - 1] && r[j] == t[j - 1]);
                }
            }
        }
    } else {
        let rest = insert_ranked(t.drop_first(), x);
        lemma_insert_ranked(t.drop_first(), x);
        assert(r == seq![t[0]] + rest);
        assert forall|e: ResultItem| r.contains(e) <==> (t.contains(e) || e == x) by {
            if r.contains(e) {
                let j = choose|j: int| 0 <= j < r.len() && r[j] == e;
                if j > 0 {
                    assert(rest[j - 1] == e);
                    assert(rest.contains(e));
                    if t.drop_first().contains(e) {
                        let m = choose|m: int| 0 <= m < t.drop_first().len() && t.drop_first()[m] == e;
                        assert(t[m + 1] == e);
                    }
                } else {
                    assert(t[0] == e);
                }
            }
            if t.contains(e) {
                let j = choose|j: int| 0 <= j < t.len() && t[j] == e;
                if j > 0 {
                    assert(t.drop_first()[j - 1] == e);
                    assert(t.drop_first().contains(e));
                    assert(rest.contains(e));
                    let m = choose|m: int| 0 <= m < rest.len() && rest[m] == e;
                    assert(r[m + 1] == e);
                } else {
                    assert(r[0] == e);
                }
            }
            if e == x {
                assert(t.drop_first().contains(e) || e == x);
                assert(rest.contains(e));
                let m = choose|m: int| 0 <= m < rest.len() && rest[m] == e;
                assert(r[m + 1] == e);
            }
        }
        assert forall|o: u64| has_output(r, o) <==> (has_output(t, o) || x.item == o) by {
            if has_output(r, o) {
                let j = choose|j: int| 0 <= j < r.len() && r[j].item == o;
                if j > 0 {
                    assert(rest[j - 1].item == o);
                    assert(has_output(rest, o));
                    if has_output(t.drop_first(), o) {
                        let m = choose|m: int| 0 <= m < t.drop_first().len() && t.drop_first()[m].item == o;
                        assert(t[m + 1].item == o);
                    }
                } else {
                    assert(t[0].item == o);
                }
            }
            if has_output(t, o) {
                let j = choose|j: int| 0 <= j < t.len() && t[j].item == o;
                if j > 0 {
                    assert(t.drop_first()[j - 1].item == o);
                    assert(has_output(rest, o));
                    let m = choose|m: int| 0 <= m < rest.len() && rest[m].item == o;
                    assert(r[m + 1].item == o);
                } else {
                    assert(r[0].item == o);
                }
            }
            if x.item == o {
                assert(has_output(rest, o));
                let m = choose|m: int| 0 <= m < rest.len() && rest[m].item == o;
                assert(r[m + 1].item == o);
            }
        }
        if unique_outputs(t) && !has_output(t, x.item) {
            assert(unique_outputs(t.drop_first()));
            assert(!has_output(t.drop_first(), x.item)) by {
                if has_output(t.drop_first(), x.item) {
                    let m = choose|m: int| 0 <= m < t.drop_first().len() && t.drop_first()[m].item == x.item;
                    assert(t[m + 1].item == x.item);
                }
            }
            assert(!has_output(rest, t[0].item)) by {
                if has_output(rest, t[0].item) {
                    if has_output(t.drop_first(), t[0].item) {
                        let m = choose|m: int| 0 <= m < t.drop_first().len() && t.drop_first()[m].item == t[0].item;
                        assert(t[m + 1].item == t[0].item);
                    } else {
                        assert(x.item == t[0].item);
                        assert(has_output(t, x.item));
                    }
                }
            }
            assert forall|i: int, j: int| 0 <= i < j < r.len() implies r[i].item != r[j].item by {
                if i == 0 {
                    assert(r[j] == rest[j - 1]);
                } else {
                    assert(r[i] == rest[i - 1] && r[j] == rest[j - 1]);
                }
            }
        }
    }
}

proof fn lemma_ranked(s: Seq<ResultItem>)
    ensures
        ranked(s).len() == s.len(),
        forall|e: ResultItem| ranked(s).contains(e) <==> s.contains(e),
        forall|o: u64| has_output(ranked(s), o) <==> has_output(s, o),
        unique_outputs(s) ==> unique_outputs(ranked(s)),
    decreases s.len(),
{
    if s.len() > 0 {
        let p = s.drop_last();
        lemma_ranked(p);
        lemma_insert_ranked(ranked(p), s.last());
        assert forall|e: ResultItem| ranked(s).contains(e) <==> s.contains(e) by {
            if s.contains(e) {
                let j = choose|j: int| 0 <= j < s.len() && s[j] == e;
                if j < s.len() - 1 {
                    assert(p[j] == e);
                }
            }
            if p.contains(e) {
                let j = choose|j: int| 0 <= j < p.len() && p[j] == e;
                assert(s[j] == e);
            }
        }
        assert forall|o: u64| has_output(ranked(s), o) <==> has_output(s, o) by {
            if has_output(s, o) {
                let j = choose|j: int| 0 <= j < s.len() && s[j].item == o;
                if j < s.len() - 1 {
                    assert(p[j].item == o);
                }
            }
            if has_output(p, o) {
                let j = choose|j: int| 0 <= j < p.len() && p[j].item == o;
                assert(s[j].item == o);
            }
        }
        if unique_outputs(s) {
            assert(unique_outputs(p));
            assert(!has_output(p, s.last().item)) by {
                if has_output(p, s.last().item) {
                    let j = choose|j: int| 0 <= j < p.len() && p[j].item == s.last().item;
                    assert(s[j].item == s[s.len() - 1].item);
                }
            }
        }
    }
}

/// Pagination is a pure slice of the full ranking: a page holds at most
/// `limit` items, and its `k`-th item is the ranking's item `offset + k`;
/// where the limit does not bind, the page is the ranking without its first
/// `offset` items.
pub proof fn lemma_page_is_slice(r: Seq<ResultItem>, offset: int, limit: int)
    requires
        offset >= 0,
        limit >= 0,
    ensures
        page(r, offset, limit).len() <= limit,
        forall|k: int| 0 <= k < page(r, offset, limit).len() ==> #[trigger] page(r, offset, limit)[k] == r[offset + k],
        offset <= r.len() && offset + limit >= r.len() ==> page(r, offset, limit) == r.skip(offset),
        offset <= r.len() ==> page(r, offset, limit).len() == if offset + limit <= r.len() { limit } else { r.len() - offset },
{
    if offset <= r.len() && offset + limit >= r.len() {
        assert(page(r, offset, limit) =~= r.skip(offset));
    }
}

/// Deduplication: in the ranking of a task every output appears exactly once
/// if any query found it, and not at all otherwise.
pub proof fn lemma_ranking_outputs_once(
    task: SearchTask,
    indexes: Seq<Index>,
    vf: spec_fn(u64) -> bool,
    rf: spec_fn(u64) -> bool,
    order: Option<spec_fn(u64, u32, Seq<char>, Option<Language>) -> usize>,
    align: spec_fn(Seq<char>, Index, Option<Language>) -> Option<Seq<char>>,
)
    ensures
        unique_outputs(task.ranking(indexes, vf, rf, order, align)),
        forall|o: u64|
            has_output(task.ranking(indexes, vf, rf, order, align), o) <==> has_output(
                task_items(task.queries@, task.segments@, indexes, 0, task.vector_limit as nat, task.threshold, vf, rf, order, task.allow_align, align),
                o,
            ),
{
    let all = task_items(task.queries@, task.segments@, indexes, 0, task.vector_limit as nat, task.threshold, vf, rf, order, task.allow_align, align);
    lemma_dedup(all);
    lemma_ranked(dedup(all));
}

proof fn lemma_output_items_above(
    outs: Seq<u64>,
    rf: spec_fn(u64) -> bool,
    d: int,
    n: int,
    language: Option<Language>,
    order: Option<spec_fn(u64, u32) -> usize>,
    pct: u32,
)
    requires
        0 <= d <= max_dot(),
        0 <= n <= max_norm_product(),
        sim_above(d, n, pct as int),
    ensures
        all_above(output_items(outs, rf, d, n, language, order), pct),
    decreases outs.len(),
{
    if outs.len() > 0 {
        lemma_output_items_above(outs.drop_first(), rf, d, n, language, order, pct);
    }
}

proof fn lemma_scan_docs_above(
    docs: Seq<Document>,
    q: Seq<(u32, u16)>,
    budget: nat,
    threshold: u32,
    vf: spec_fn(u64) -> bool,
    rf: spec_fn(u64) -> bool,
    language: Option<Language>,
    order: Option<spec_fn(u64, u32) -> usize>,
)
    requires
        forall|i: int| 0 <= i < docs.len() ==> #[trigger] docs[i].vector.wf(),
        entries_wf(q),
    ensures
        all_above(scan_docs(docs, q, budget, threshold, vf, rf, language, order), threshold),
    decreases docs.len(),
{
    if docs.len() > 0 && budget > 0 {
        let rest_budget = if shares_dim(docs[0].vector.entries@, q) { (budget - 1) as nat } else { budget };
        assert(forall|i: int| 0 <= i < docs.drop_first().len() ==> docs.drop_first()[i] == docs[i + 1]);
        lemma_scan_docs_above(docs.drop_first(), q, rest_budget, threshold, vf, rf, language, order);
        if shares_dim(docs[0].vector.entries@, q) {
            let e = docs[0].vector.entries@;
            assert(docs[0].vector.wf());
            let d = dot(e, q);
            let n = norm2(e) * norm2(q);
            lemma_dot_bound(e, q);
            lemma_norm2_bound(e);
            lemma_norm2_bound(q);
            lemma_mul_le(norm2(e), norm2(q), 4503599627370496, 4503599627370496);
            if vf(docs[0].id) && sim_above(d, n, threshold as int) {
                lemma_output_items_above(docs[0].outputs@, rf, d, n, language, order, threshold);
            }
            let here = doc_items(docs[0], q, threshold, vf, rf, language, order);
            let rest = scan_docs(docs.drop_first(), q, rest_budget, threshold, vf, rf, language, order);
            assert forall|k: int| 0 <= k < (here + rest).len() implies sim_above(
                (#[trigger] (here + rest)[k]).dot as int,
                (here + rest)[k].norms as int,
                threshold as int,
            ) by {
                if k < here.len() {
                    assert((here + rest)[k] == here[k]);
                } else {
                    assert((here + rest)[k] == rest[k - here.len()]);
                }
            }
        }
    }
}

proof fn lemma_task_items_above(
    queries: Seq<(String, Option<Language>)>,
    segments: Seq<Vec<String>>,
    indexes: Seq<Index>,
    k: int,
    vector_limit: nat,
    threshold: u32,
    vf: spec_fn(u64) -> bool,
    rf: spec_fn(u64) -> bool,
    order: Option<spec_fn(u64, u32, Seq<char>, Option<Language>) -> usize>,
    allow_align: bool,
    align: spec_fn(Seq<char>, Index, Option<Language>) -> Option<Seq<char>>,
)
    requires
        forall|i: int| 0 <= i < indexes.len() ==> #[trigger] indexes[i].wf(),
    ensures
        all_above(task_items(queries, segments, indexes, k, vector_limit, threshold, vf, rf, order, allow_align, align), threshold),
    decreases queries.len() - k,
{
    if 0 <= k < queries.len() {
        lemma_task_items_above(queries, segments, indexes, k + 1, vector_limit, threshold, vf, rf, order, allow_align, align);
        let here = match index_for(indexes, queries[k].1, 0) {
            Some(i) => query_items(indexes[i], aligned_query(queries[k].0@, indexes[i], queries[k].1, allow_align, align), segments_at(segments, k), queries[k].1, vector_limit, threshold, vf, rf, order),
            None => Seq::empty(),
        };
        match index_for(indexes, queries[k].1, 0) {
            Some(i) => {
                lemma_index_for_range(indexes, queries[k].1, 0);
                let index = indexes[i];
                assert(index.wf());
                let aq = aligned_query(queries[k].0@, index, queries[k].1, allow_align, align);
                lemma_query_vector_wf(views(index.terms@), seq![aq] + segments_at(segments, k), index.terms@.len() as int);
                lemma_scan_docs_above(index.documents@, index_query_vector(index, aq, segments_at(segments, k)), vector_limit, threshold, vf, rf, queries[k].1, order_for(order, aq, queries[k].1));
            },
            None => {},
        }
        let rest = task_items(queries, segments, indexes, k + 1, vector_limit, threshold, vf, rf, order, allow_align, align);
        assert forall|j: int| 0 <= j < (here + rest).len() implies sim_above(
            (#[trigger] (here + rest)[j]).dot as int,
            (here + rest)[j].norms as int,
            threshold as int,
        ) by {
            if j < here.len() {
                assert((here + rest)[j] == here[j]);
            } else {
                assert((here + rest)[j] == rest[j - here.len()]);
            }
        }
    }
}

/// Threshold exclusivity: every item of a task's ranking, and so of each of
/// its pages, has a similarity strictly above the task's threshold.
pub proof fn lemma_threshold_exclusive(
    task: SearchTask,
    indexes: Seq<Index>,
    vf: spec_fn(u64) -> bool,
    rf: spec_fn(u64) -> bool,
    order: Option<spec_fn(u64, u32, Seq<char>, Option<Language>) -> usize>,
    align: spec_fn(Seq<char>, Index, Option<Language>) -> Option<Seq<char>>,
)
    requires
        forall|i: int| 0 <= i < indexes.len() ==> #[trigger] indexes[i].wf(),
    ensures
        all_above(task.ranking(indexes, vf, rf, order, align), task.threshold),
        all_above(page(task.ranking(indexes, vf, rf, order, align), task.offset as int, task.limit as int), task.threshold),
{
    let all = task_items(task.queries@, task.segments@, indexes, 0, task.vector_limit as nat, task.threshold, vf, rf, order, task.allow_align, align);
    lemma_task_items_above(task.queries@, task.segments@, indexes, 0, task.vector_limit as nat, task.threshold, vf, rf, order, task.allow_align, align);
    lemma_dedup(all);
    lemma_ranked(dedup(all));
    let r = task.ranking(indexes, vf, rf, order, align);
    assert forall|k: int| 0 <= k < r.len() implies sim_above((#[trigger] r[k]).dot as int, r[k].norms as int, task.threshold as int) by {
        assert(r.contains(r[k]));
        assert(dedup(all).contains(r[k]));
        let m = choose|m: int| 0 <= m < dedup(all).len() && dedup(all)[m] == r[k];
        assert(all.contains(dedup(all)[m]));
        let j = choose|j: int| 0 <= j < all.len() && all[j] == r[k];
        assert(sim_above(all[j].dot as int, all[j].norms as int, task.threshold as int));
    }
    lemma_page_is_slice(r, task.offset as int, task.limit as int);
    let p = page(r, task.offset as int, task.limit as int);
    assert forall|k: int| 0 <= k < p.len() implies sim_above((#[trigger] p[k]).dot as int, p[k].norms as int, task.threshold as int) by {
        assert(p[k] == r[task.offset + k]);
    }
}

} // verus!
