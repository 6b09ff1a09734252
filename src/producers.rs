//! Domain adapters that build search tasks from parsed queries.
use vstd::prelude::*;
use crate::language::Language;
use crate::query::{Query, QueryLang};
use crate::search::{
    accept_all, all_resolved, default_order, no_align, ResultItem, dedup, ranked, task_items, build_query_vector, index_for, page, query_vector,
    views, Index, SearchError, SearchResult, SearchTask,
};
use crate::vector::{SparseVector, MAX_ENTRIES};

verus! {

/// The sentence engine for Japanese queries: a query is looked up as a whole
/// and as the words that a tokenizer splits it into.
pub struct Engine {}

impl Engine {
    /// The query vector of `query` and its `segments` in `index`; `None` if
    /// none of them is a term of the index.
    pub fn gen_query_vector(index: &Index, query: &str, segments: &Vec<String>) -> (r: Option<SparseVector>)
        requires
            index.terms@.len() <= MAX_ENTRIES,
        ensures
            ({
                let q = query_vector(views(index.terms@), seq![query@] + views(segments@), index.terms@.len() as int);
                &&& q.len() == 0 ==> r is None
                &&& q.len() > 0 ==> (r matches Some(v) && v.entries@ == q && v.wf())
            }),
    {
        let mut words: Vec<String> = Vec::new();
        words.push(query.to_owned());
        let mut i: usize = 0;
        while i < segments.len()
            invariant
                i <= segments@.len(),
                views(words@) =~= seq![query@] + views(segments@).subrange(0, i as int),
            decreases segments@.len() - i,
        {
            let ghost before = words@;
            words.push(segments[i].clone());
            assert(views(words@) =~= views(before).push(segments@[i as int]@));
            i += 1;
        }
        assert(views(segments@).subrange(0, segments@.len() as int) =~= views(segments@));
        let v = build_query_vector(&index.terms, &words);
        if v.entries.len() == 0 {
            None
        } else {
            Some(v)
        }
    }
}

/// Builds the task for sentences found by foreign keywords.
pub struct ForeignProducer {
    pub query: Query,
    pub language: Language,
}

impl ForeignProducer {
    pub fn new(query: Query, language: Language) -> (r: Self)
        ensures
            r.query == query,
            r.language == language,
    {
        ForeignProducer { query, language }
    }

    /// A task for the query text in the producer's language.
    pub fn task(&self) -> (r: SearchTask)
        ensures
            r.queries@.len() == 1,
            r.queries@[0].0@ == self.query.query@,
            r.queries@[0].1 == Some(self.language),
            r.is_default_config(),
    {
        SearchTask::with_language(self.query.query.as_str(), self.language)
    }

    /// The producer runs for foreign queries.
    pub fn should_run(&self) -> (r: bool)
        ensures
            r == (self.query.language == QueryLang::Foreign),
    {
        self.query.language == QueryLang::Foreign
    }
}

/// Builds the task for words found by a Japanese query.
pub struct NativeSearch {
    pub query: Query,
    pub query_str: String,
}

impl NativeSearch {
    pub fn new(query: Query, query_str: String) -> (r: Self)
        ensures
            r.query == query,
            r.query_str == query_str,
    {
        NativeSearch { query, query_str }
    }

    /// A task for the query string, with no language.
    pub fn task(&self) -> (r: SearchTask)
        ensures
            r.queries@.len() == 1,
            r.queries@[0].0@ == self.query_str@,
            r.queries@[0].1 is None,
            r.is_default_config(),
    {
        SearchTask::new(self.query_str.as_str())
    }

    /// Returns `true` if `term` is a term of the index for queries with no language.
    pub fn has_term(term: &str, indexes: &Vec<Index>) -> (r: bool)
        ensures
            r == match index_for(indexes@, None, 0) {
                Some(i) => views(indexes@[i].terms@).contains(term@),
                None => false,
            },
    {
        let t = SearchTask::new(term);
        let r = t.has_term(indexes);
        proof {
            if match index_for(indexes@, None, 0) {
                Some(i) => views(indexes@[i].terms@).contains(term@),
                None => false,
            } {
                assert(t.spec_has_term(indexes@)) by {
                    assert(t.queries@[0].1 is None);
                }
            }
        }
        r
    }
}

/// A search for words by a foreign query, ranked by similarity alone.
pub struct Find {
    pub limit: usize,
    pub offset: usize,
    pub query: String,
}

impl Find {
    pub fn new(query: &str, limit: usize, offset: usize) -> (r: Self)
        ensures
            r.query@ == query@,
            r.limit == limit,
            r.offset == offset,
    {
        Find { limit, offset, query: query.to_owned() }
    }

    /// The ranking of the search: the query with no language and no
    /// alignment, every document that shares a term and has a similarity
    /// above zero.
    pub open spec fn spec_ranking(&self, indexes: Seq<Index>) -> Seq<ResultItem> {
        ranked(dedup(task_items(seq![(self.query, None::<Language>)], Seq::empty(), indexes, 0, usize::MAX as nat, 0, accept_all(), accept_all(), default_order(), false, no_align())))
    }

    /// Runs the search over the index loaded for queries with no language;
    /// every item found is marked as English.
    pub fn find(&self, indexes: &Vec<Index>) -> (r: Result<SearchResult, SearchError>)
        requires
            forall|i: int| 0 <= i < indexes@.len() ==> #[trigger] indexes@[i].wf(),
        ensures
            index_for(indexes@, None, 0) is None ==> r == Err::<SearchResult, SearchError>(SearchError::Unexpected),
            index_for(indexes@, None, 0) is Some ==> (r matches Ok(res) && res.items@ == in_english(
                page(self.spec_ranking(indexes@), self.offset as int, self.limit as int),
            ) && res.total == self.spec_ranking(indexes@).len()),
    {
        let mut queries: Vec<(String, Option<Language>)> = Vec::new();
        queries.push((self.query.clone(), None));
        let task = SearchTask {
            queries,
            threshold: 0,
            limit: self.limit,
            vector_limit: usize::MAX,
            offset: self.offset,
            allow_align: false,
            segments: Vec::new(),
        };
        assert(task.segments@ =~= Seq::<Vec<String>>::empty());
        assert(task.queries@ =~= seq![(self.query, None::<Language>)]);
        proof {
            if index_for(indexes@, None, 0) is None {
                assert(!all_resolved(task.queries@, indexes@)) by {
                    assert(task.queries@[0].1 is None);
                }
            } else {
                assert(all_resolved(task.queries@, indexes@)) by {
                    assert forall|k: int| 0 <= k < task.queries@.len() implies (#[trigger] index_for(indexes@, task.queries@[k].1, 0)) is Some by {
                        assert(k == 0);
                    }
                }
            }
        }
        match task.find(indexes) {
            Ok(res) => {
                let mut items: Vec<ResultItem> = Vec::new();
                let mut i: usize = 0;
                while i < res.items.len()
                    invariant
                        i <= res.items@.len(),
                        items@ =~= in_english(res.items@.subrange(0, i as int)),
                    decreases res.items@.len() - i,
                {
                    let it = res.items[i];
                    items.push(ResultItem { language: Some(Language::English), ..it });
                    i += 1;
                }
                assert(res.items@.subrange(0, res.items@.len() as int) =~= res.items@);
                Ok(SearchResult { items, total: res.total })
            },
            Err(e) => Err(e),
        }
    }
}

/// The items with their language set to English.
pub open spec fn in_english(s: Seq<ResultItem>) -> Seq<ResultItem> {
    s.map_values(|it: ResultItem| ResultItem { language: Some(Language::English), ..it })
}

} // verus!
