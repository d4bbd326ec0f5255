//! Lexical retrieval over an in-memory tantivy index: documents go in, a
//! query is parsed and run, and a fuzzy query takes over where the parsed one
//! finds nothing.

use vstd::prelude::*;
use vstd::string::*;
use tantivy::collector::TopDocs;
use tantivy::query::{BooleanQuery, FuzzyTermQuery, Occur, Query, QueryParser, QueryParserError};
use tantivy::schema::{Field, Schema, Value, STORED, STRING, TEXT};
use tantivy::{DocAddress, Index, IndexWriter, Searcher, TantivyDocument, TantivyError, Term};
use crate::error::KronroeError;
use crate::search::{kept_ids, query_tokens, SearchDoc};

verus! {

/// The memory budget, in bytes, of the writer that fills an index.
pub const WRITER_BUDGET: usize = 50_000_000;

/// The edit distance within which the fuzzy fallback matches a token.
pub const FUZZY_DISTANCE: u8 = 1;

/// Whether the fuzzy fallback counts a swap of two neighbours as one edit.
pub const FUZZY_TRANSPOSITION: bool = true;

/// The most matches that one search collects. The collector reserves room
/// for the matches it is asked for before it runs, so the number asked for is
/// kept within the number of documents and within this cap.
pub const HIT_CAP: usize = 1_000_000;

/// The name of the stored field that holds a document's fact id.
pub const ID_FIELD: &'static str = "id";

/// The name of the tokenised field that holds a document's text.
pub const CONTENT_FIELD: &'static str = "content";

#[verifier::external_type_specification]
#[verifier::external_body]
pub struct ExTantivyError(TantivyError);

#[verifier::external_type_specification]
#[verifier::external_body]
pub struct ExQueryParserError(QueryParserError);

/// What stopped a parsed search: the parser or the index.
pub enum Fault {
    Parser(QueryParserError),
    Index(TantivyError),
}

/// An in-memory index together with the writer that fills it and its two
/// fields: a `tantivy::Index`, its `tantivy::IndexWriter` and two
/// `tantivy::schema::Field`s. They are held opaquely, since the writer's type
/// is generic over a trait of tantivy, and as one value, so that a document or
/// a query never meets another index.
#[verifier::external_body]
pub struct TextIndex {
    index: Index,
    writer: IndexWriter<TantivyDocument>,
    id: Field,
    content: Field,
}

/// The matches of one search: the `tantivy::Searcher` that found them, their
/// addresses, best first, and the field that stores their ids. They are held
/// as one value, so that an address is only ever read through the searcher
/// that gave it.
#[verifier::external_body]
pub struct Hits {
    searcher: Searcher,
    top: Vec<DocAddress>,
    id: Field,
}

/// A name that tantivy accepts for a field: not empty and not starting with a
/// hyphen.
pub open spec fn field_name_ok(name: Seq<char>) -> bool {
    name.len() > 0 && name[0] != '-'
}

/// An empty index in memory with a stored, untokenised field for ids and a
/// tokenised field for content, under the given names, and a writer with the
/// given memory budget.
///
/// Calls `Schema::builder`, `SchemaBuilder::add_text_field`, which panics on
/// a name that is empty, starts with a hyphen or is already taken,
/// `Index::create_in_ram` and `Index::writer`, which fails on a budget outside
/// tantivy's limits. Nothing is claimed of the index.
#[verifier::external_body]
fn new_text_index(id_field: &str, content_field: &str, budget: usize) -> (r: Result<
    TextIndex,
    TantivyError,
>)
    requires
        field_name_ok(id_field@),
        field_name_ok(content_field@),
        id_field@ != content_field@,
{
    let mut schema = Schema::builder();
    let id = schema.add_text_field(id_field, STRING | STORED);
    let content = schema.add_text_field(content_field, TEXT);
    let index = Index::create_in_ram(schema.build());
    let writer = index.writer(budget)?;
    Ok(TextIndex { index, writer, id, content })
}

/// Queues one document, with its id and content, for the next commit.
///
/// Calls `TantivyDocument::add_text` and `IndexWriter::add_document`.
#[verifier::external_body]
fn add_document(text_index: &TextIndex, doc: &SearchDoc) -> (r: Result<(), TantivyError>) {
    let mut document = TantivyDocument::default();
    document.add_text(text_index.id, &doc.id);
    document.add_text(text_index.content, &doc.content);
    text_index.writer.add_document(document)?;
    Ok(())
}

/// Commits the queued documents, so that a search afterwards sees them.
///
/// Calls `IndexWriter::commit`.
#[verifier::external_body]
fn commit_documents(text_index: &mut TextIndex) -> (r: Result<(), TantivyError>) {
    text_index.writer.commit()?;
    Ok(())
}

/// The best matches of the query, parsed against the content field.
///
/// Calls `QueryParser::for_index`, `QueryParser::parse_query`,
/// `Index::reader` and `Searcher::search` with `TopDocs::with_limit`, which
/// panics on a limit of zero and reserves room for `limit` matches. Nothing
/// is claimed of the matches.
#[verifier::external_body]
fn parsed_hits(text_index: &TextIndex, query: &str, limit: usize) -> (r: Result<Hits, Fault>)
    requires
        0 < limit <= HIT_CAP,
{
    let parser = QueryParser::for_index(&text_index.index, vec![text_index.content]);
    let parsed = parser.parse_query(query).map_err(Fault::Parser)?;
    let searcher = text_index.index.reader().map_err(Fault::Index)?.searcher();
    let collector = TopDocs::with_limit(limit).order_by_score();
    let found = searcher.search(&parsed, &collector).map_err(Fault::Index)?;
    Ok(Hits { top: found.into_iter().map(|hit| hit.1).collect(), searcher, id: text_index.id })
}

/// The best matches of a query that accepts, in the content field, any of the
/// tokens within the edit distance.
///
/// Calls `Term::from_field_text`, `FuzzyTermQuery::new`, `BooleanQuery::new`,
/// `Index::reader` and `Searcher::search` with `TopDocs::with_limit`, which
/// panics on a limit of zero and reserves room for `limit` matches. Nothing
/// is claimed of the matches.
#[verifier::external_body]
fn fuzzy_hits(
    text_index: &TextIndex,
    tokens: &Vec<String>,
    distance: u8,
    transposition: bool,
    limit: usize,
) -> (r: Result<Hits, TantivyError>)
    requires
        0 < limit <= HIT_CAP,
{
    let term = |t: &String| Term::from_field_text(text_index.content, t);
    let fuzzy = |t: &String| Box::new(FuzzyTermQuery::new(term(t), distance, transposition));
    let any = tokens.iter().map(|t| (Occur::Should, fuzzy(t) as Box<dyn Query>)).collect();
    let searcher = text_index.index.reader()?.searcher();
    let found = searcher.search(&BooleanQuery::new(any), &TopDocs::with_limit(limit).order_by_score())?;
    Ok(Hits { top: found.into_iter().map(|hit| hit.1).collect(), searcher, id: text_index.id })
}

/// The stored id of each match, best first; nothing for a match without one.
///
/// Calls `Searcher::doc` on each address that the search gave, and
/// `TantivyDocument::get_first`. Nothing is claimed of the ids.
#[verifier::external_body]
fn stored_ids(hits: &Hits) -> (r: Result<Vec<Option<String>>, TantivyError>) {
    let mut ids = Vec::new();
    for address in &hits.top {
        let document: TantivyDocument = hits.searcher.doc(*address)?;
        ids.push(document.get_first(hits.id).and_then(|v| v.as_str()).map(|s| s.to_string()));
    }
    Ok(ids)
}

/// The message of a tantivy error, as its `Display` gives it.
#[verifier::external_body]
fn fault_text(e: &TantivyError) -> (r: String) {
    e.to_string()
}

/// The message of a query parser's error, as its `Display` gives it.
#[verifier::external_body]
fn parser_fault_text(e: &QueryParserError) -> (r: String) {
    e.to_string()
}

fn search_fault(e: TantivyError) -> (r: KronroeError)
    ensures
        r is Search,
{
    KronroeError::Search(fault_text(&e))
}

/// The number of matches to ask a search for: the smallest of the limit, the
/// number of documents and `HIT_CAP`.
pub open spec fn wanted_of(limit: usize, docs: usize) -> usize {
    let within = if limit < docs {
        limit
    } else {
        docs
    };
    if within < HIT_CAP {
        within
    } else {
        HIT_CAP
    }
}

/// The number of matches to ask a search for. More than there are documents
/// cannot match, and the collector reserves room for what it is asked for.
pub fn matches_wanted(limit: usize, docs: usize) -> (r: usize)
    ensures
        r == wanted_of(limit, docs),
        r <= limit,
        r <= docs,
        r <= HIT_CAP,
        r == limit || r == docs || r == HIT_CAP,
        limit > 0 && docs > 0 ==> r > 0,
{
    let within = if limit < docs {
        limit
    } else {
        docs
    };
    if within < HIT_CAP {
        within
    } else {
        HIT_CAP
    }
}

/// Whether the fuzzy search takes over: it does exactly where the parsed
/// search gave no match at all.
pub fn falls_back(parsed: &Vec<Option<String>>) -> (r: bool)
    ensures
        r == (parsed@.len() == 0),
{
    parsed.len() == 0
}

/// The ids of the documents that match the query, best first and at most
/// `limit` of them.
///
/// The query is parsed and run against the documents' content, asking for
/// `matches_wanted` matches. Where `falls_back` says so, a fuzzy query over
/// the query's white-space separated tokens, within `FUZZY_DISTANCE` and with
/// `FUZZY_TRANSPOSITION`, is run instead. Any failure of the index or the parser is a search error.
/// No more matches are asked for than there are documents, nor more than
/// `HIT_CAP`. With a limit of zero or no documents nothing is searched and
/// nothing is found. Of the matches that come back, the ids that are present
/// among the first asked for are kept, in order.
pub fn lexical_hits(docs: &Vec<SearchDoc>, query: &str, limit: usize) -> (r: Result<
    Vec<String>,
    KronroeError,
>)
    ensures
        limit == 0 || docs@.len() == 0 ==> r is Ok && r->Ok_0@.len() == 0,
        r is Ok ==> r->Ok_0@.len() <= limit,
        r is Ok ==> r->Ok_0@.len() <= docs@.len(),
        r is Ok ==> r->Ok_0@.len() <= HIT_CAP,
        r is Err ==> r->Err_0 is Search,
{
    if limit == 0 || docs.len() == 0 {
        return Ok(Vec::new());
    }
    let wanted = matches_wanted(limit, docs.len());
    proof {
        reveal_strlit("id");
        reveal_strlit("content");
    }
    let mut index = match new_text_index(ID_FIELD, CONTENT_FIELD, WRITER_BUDGET) {
        Err(e) => {
            return Err(search_fault(e));
        },
        Ok(index) => index,
    };
    let mut d: usize = 0;
    while d < docs.len()
        invariant
            d <= docs@.len(),
            limit > 0,
            docs@.len() > 0,
        decreases docs@.len() - d,
    {
        match add_document(&index, &docs[d]) {
            Err(e) => {
                return Err(search_fault(e));
            },
            Ok(()) => {},
        }
        d += 1;
    }
    match commit_documents(&mut index) {
        Err(e) => {
            return Err(search_fault(e));
        },
        Ok(()) => {},
    }
    let parsed = match parsed_hits(&index, query, wanted) {
        Err(Fault::Parser(e)) => {
            return Err(KronroeError::Search(parser_fault_text(&e)));
        },
        Err(Fault::Index(e)) => {
            return Err(search_fault(e));
        },
        Ok(hits) => hits,
    };
    let mut top = match stored_ids(&parsed) {
        Err(e) => {
            return Err(search_fault(e));
        },
        Ok(ids) => ids,
    };
    if falls_back(&top) {
        let tokens = query_tokens(query);
        let fuzzy = match fuzzy_hits(&index, &tokens, FUZZY_DISTANCE, FUZZY_TRANSPOSITION, wanted) {
            Err(e) => {
                return Err(search_fault(e));
            },
            Ok(hits) => hits,
        };
        top = match stored_ids(&fuzzy) {
            Err(e) => {
                return Err(search_fault(e));
            },
            Ok(ids) => ids,
        };
    }
    Ok(kept_ids(&top, wanted))
}

} // verus!
