//! The text side of full-text retrieval: which facts give aliases, what text
//! a fact is indexed under, how a query splits into tokens, and how ranked
//! ids turn back into facts.

use vstd::prelude::*;
use vstd::string::*;
use crate::extract::{is_space, is_whitespace, skip_spaces};
use crate::fact::Fact;
use crate::hybrid::{distinct_prefix, lemma_distinct_prefix};
use crate::keys::same_text;

verus! {

/// One document of the lexical index: a fact id and the text it is found by.
#[derive(Debug, Clone)]
pub struct SearchDoc {
    pub id: String,
    pub content: String,
}

/// The texts of a sequence of strings.
pub open spec fn texts(v: Seq<String>) -> Seq<Seq<char>> {
    Seq::new(v.len(), |i: int| v[i]@)
}

/// The text holds nothing but white space.
pub open spec fn blank(text: Seq<char>) -> bool {
    forall|i: int| 0 <= i < text.len() ==> is_space(#[trigger] text[i])
}

/// The predicate names an alias of its subject.
pub open spec fn is_alias_predicate(p: Seq<char>) -> bool {
    p == "alias"@ || p == "has_alias"@ || p == "aka"@
}

/// The aliases of a subject: the textual objects of its alias facts, in
/// order.
pub open spec fn aliases_for(facts: Seq<Fact>, subject: Seq<char>) -> Seq<Seq<char>>
    decreases facts.len(),
{
    if facts.len() == 0 {
        Seq::empty()
    } else {
        let rest = aliases_for(facts.drop_last(), subject);
        let f = facts.last();
        if f.subject@ == subject && is_alias_predicate(f.predicate@) && f.object.textual() is Some {
            rest.push(f.object.textual()->0)
        } else {
            rest
        }
    }
}

/// The predicate with each underscore turned into a space.
pub open spec fn spaced(p: Seq<char>) -> Seq<char> {
    Seq::new(
        p.len(),
        |i: int|
            if p[i] == '_' {
                ' '
            } else {
                p[i]
            },
    )
}

/// `base` followed by each part, a space before each.
pub open spec fn appended(base: Seq<char>, parts: Seq<Seq<char>>) -> Seq<char>
    decreases parts.len(),
{
    if parts.len() == 0 {
        base
    } else {
        appended(base, parts.drop_last()) + seq![' '] + parts.last()
    }
}

/// The text a fact is indexed under: subject, predicate, the subject's
/// aliases, the object where it is textual, and the predicate with spaces for
/// underscores, separated by single spaces.
pub open spec fn content_of(f: Fact, aliases: Seq<Seq<char>>) -> Seq<char> {
    let head = appended(f.subject@ + seq![' '] + f.predicate@, aliases);
    let body = match f.object.textual() {
        Some(t) => head + seq![' '] + t,
        None => head,
    };
    body + seq![' '] + spaced(f.predicate@)
}

/// The first position at or after `from` that holds white space, or the
/// length of the text.
pub open spec fn token_end(text: Seq<char>, from: int) -> int
    decreases text.len() - from,
{
    if from < 0 || from >= text.len() || is_space(text[from]) {
        from
    } else {
        token_end(text, from + 1)
    }
}

/// The maximal runs without white space in `text` from `from` on, in order.
pub open spec fn tokens_from(text: Seq<char>, from: int) -> Seq<Seq<char>>
    decreases text.len() - from,
{
    let a = skip_spaces(text, from, text.len() as int);
    let b = token_end(text, a);
    if from < 0 || from >= text.len() || a < from || a >= text.len() || b <= a || b > text.len() {
        Seq::empty()
    } else {
        seq![text.subrange(a, b)] + tokens_from(text, b)
    }
}

/// The last fact in the sequence with the id.
pub open spec fn pick(facts: Seq<Fact>, id: Seq<char>) -> Option<Fact>
    decreases facts.len(),
{
    if facts.len() == 0 {
        None
    } else if facts.last().id@ == id {
        Some(facts.last())
    } else {
        pick(facts.drop_last(), id)
    }
}

/// The facts that the first `n` ids stand for, in the order of the ids; an id
/// that no fact has is passed over.
pub open spec fn hydrated(facts: Seq<Fact>, ids: Seq<Seq<char>>, n: int) -> Seq<Fact>
    decreases n,
{
    if n <= 0 {
        Seq::empty()
    } else {
        let rest = hydrated(facts, ids, n - 1);
        match pick(facts, ids[n - 1]) {
            Some(f) => rest.push(f),
            None => rest,
        }
    }
}

/// The facts that the ids stand for, in the order of the ids.
pub open spec fn found_by(facts: Seq<Fact>, ids: Seq<Seq<char>>) -> Seq<Fact> {
    hydrated(facts, ids, ids.len() as int)
}

/// Every hydrated fact is one of the facts.
pub proof fn lemma_hydrated_within(facts: Seq<Fact>, ids: Seq<Seq<char>>, n: int)
    ensures
        forall|i: int|
            0 <= i < hydrated(facts, ids, n).len() ==> facts.contains(
                #[trigger] hydrated(facts, ids, n)[i],
            ),
    decreases n,
{
    if n > 0 {
        lemma_hydrated_within(facts, ids, n - 1);
        lemma_pick_within(facts, ids[n - 1]);
        let rest = hydrated(facts, ids, n - 1);
        let all = hydrated(facts, ids, n);
        assert forall|i: int| 0 <= i < all.len() implies facts.contains(#[trigger] all[i]) by {
            if i < rest.len() {
                assert(all[i] == rest[i]);
            }
        }
    }
}

/// A picked fact is one of the facts and has the id.
pub proof fn lemma_pick_within(facts: Seq<Fact>, id: Seq<char>)
    ensures
        pick(facts, id) matches Some(f) ==> facts.contains(f) && f.id@ == id,
    decreases facts.len(),
{
    if facts.len() > 0 {
        if facts.last().id@ == id {
            assert(facts[facts.len() - 1] == facts.last());
        } else {
            lemma_pick_within(facts.drop_last(), id);
            if pick(facts.drop_last(), id) is Some {
                let f = pick(facts.drop_last(), id)->0;
                let k = choose|k: int| 0 <= k < facts.drop_last().len() && facts.drop_last()[k] == f;
                assert(facts[k] == f);
            }
        }
    }
}

/// Whether the text holds nothing but white space.
pub fn is_blank(text: &str) -> (r: bool)
    ensures
        r == blank(text@),
{
    let n = text.unicode_len();
    let mut i: usize = 0;
    while i < n
        invariant
            i <= n,
            n == text@.len(),
            forall|j: int| 0 <= j < i ==> is_space(#[trigger] text@[j]),
        decreases n - i,
    {
        if !is_whitespace(text.get_char(i)) {
            return false;
        }
        i += 1;
    }
    true
}

/// Whether the predicate names an alias of its subject.
pub fn names_alias(predicate: &str) -> (r: bool)
    ensures
        r == is_alias_predicate(predicate@),
{
    same_text(predicate, "alias") || same_text(predicate, "has_alias") || same_text(
        predicate,
        "aka",
    )
}

/// The aliases of a subject among the facts.
pub fn collect_aliases(facts: &Vec<Fact>, subject: &str) -> (r: Vec<String>)
    ensures
        texts(r@) == aliases_for(facts@, subject@),
{
    let mut out: Vec<String> = Vec::new();
    let mut i: usize = 0;
    assert(facts@.take(0) =~= Seq::empty());
    assert(texts(out@) =~= Seq::empty());
    while i < facts.len()
        invariant
            i <= facts@.len(),
            texts(out@) == aliases_for(facts@.take(i as int), subject@),
        decreases facts@.len() - i,
    {
        assert(facts@.take(i + 1).drop_last() =~= facts@.take(i as int));
        let f = &facts[i];
        if same_text(f.subject.as_str(), subject) && names_alias(f.predicate.as_str()) {
            match f.object.as_text() {
                Some(t) => {
                    let ghost before = texts(out@);
                    out.push(t);
                    assert(texts(out@) =~= before.push(f.object.textual()->0));
                },
                None => {},
            }
        }
        i += 1;
    }
    assert(facts@.take(i as int) =~= facts@);
    out
}

/// The predicate with each underscore turned into a space.
pub fn normalize_predicate(predicate: &str) -> (r: String)
    ensures
        r@ == spaced(predicate@),
{
    proof {
        reveal_strlit(" ");
        assert(" "@ =~= seq![' ']);
    }
    let n = predicate.unicode_len();
    let mut out = String::new();
    let mut i: usize = 0;
    assert(out@ =~= spaced(predicate@).take(0));
    while i < n
        invariant
            i <= n,
            n == predicate@.len(),
            " "@ == seq![' '],
            out@ == spaced(predicate@).take(i as int),
        decreases n - i,
    {
        let ghost before = out@;
        if predicate.get_char(i) == '_' {
            out.append(" ");
        } else {
            out.append(predicate.substring_char(i, i + 1));
        }
        assert(out@ =~= spaced(predicate@).take(i + 1));
        i += 1;
    }
    assert(spaced(predicate@).take(n as int) =~= spaced(predicate@));
    out
}

/// The text a fact is indexed under.
pub fn document_content(fact: &Fact, aliases: &Vec<String>) -> (r: String)
    ensures
        r@ == content_of(*fact, texts(aliases@)),
{
    proof {
        reveal_strlit(" ");
        assert(" "@ =~= seq![' ']);
    }
    let mut out = fact.subject.clone();
    out.append(" ");
    out.append(fact.predicate.as_str());
    let mut i: usize = 0;
    assert(texts(aliases@).take(0) =~= Seq::empty());
    while i < aliases.len()
        invariant
            i <= aliases@.len(),
            " "@ == seq![' '],
            out@ == appended(fact.subject@ + seq![' '] + fact.predicate@, texts(aliases@).take(i as int)),
        decreases aliases@.len() - i,
    {
        assert(texts(aliases@).take(i + 1).drop_last() =~= texts(aliases@).take(i as int));
        out.append(" ");
        out.append(aliases[i].as_str());
        i += 1;
    }
    assert(texts(aliases@).take(i as int) =~= texts(aliases@));
    match fact.object.as_text() {
        Some(t) => {
            out.append(" ");
            out.append(t.as_str());
        },
        None => {},
    }
    out.append(" ");
    let normalized = normalize_predicate(fact.predicate.as_str());
    out.append(normalized.as_str());
    out
}

/// The document of each fact, in order: its id and the text it is indexed
/// under, with the aliases of its subject.
pub fn search_documents(facts: &Vec<Fact>) -> (r: Vec<SearchDoc>)
    ensures
        r@.len() == facts@.len(),
        forall|i: int|
            0 <= i < facts@.len() ==> (#[trigger] r@[i]).id@ == facts@[i].id@ && r@[i].content@
                == content_of(facts@[i], aliases_for(facts@, facts@[i].subject@)),
{
    let mut out: Vec<SearchDoc> = Vec::new();
    let mut i: usize = 0;
    while i < facts.len()
        invariant
            i <= facts@.len(),
            out@.len() == i,
            forall|j: int|
                0 <= j < i ==> (#[trigger] out@[j]).id@ == facts@[j].id@ && out@[j].content@
                    == content_of(facts@[j], aliases_for(facts@, facts@[j].subject@)),
        decreases facts@.len() - i,
    {
        let aliases = collect_aliases(facts, facts[i].subject.as_str());
        let content = document_content(&facts[i], &aliases);
        out.push(SearchDoc { id: facts[i].id.to_text(), content });
        i += 1;
    }
    out
}

/// The white-space separated tokens of a query, in order.
pub fn query_tokens(query: &str) -> (r: Vec<String>)
    ensures
        texts(r@) == tokens_from(query@, 0),
{
    let n = query.unicode_len();
    let mut out: Vec<String> = Vec::new();
    let mut pos: usize = 0;
    assert(texts(out@) =~= Seq::empty());
    loop
        invariant
            pos <= n,
            n == query@.len(),
            tokens_from(query@, 0) == texts(out@) + tokens_from(query@, pos as int),
        decreases n - pos,
    {
        let mut a = pos;
        while a < n && is_whitespace(query.get_char(a))
            invariant
                pos <= a <= n,
                n == query@.len(),
                skip_spaces(query@, pos as int, n as int) == skip_spaces(query@, a as int, n as int),
            decreases n - a,
        {
            a += 1;
        }
        if a >= n {
            assert(tokens_from(query@, pos as int) =~= Seq::empty());
            assert(texts(out@) + Seq::<Seq<char>>::empty() =~= texts(out@));
            return out;
        }
        let mut b = a + 1;
        assert(token_end(query@, a as int) == token_end(query@, a as int + 1));
        while b < n && !is_whitespace(query.get_char(b))
            invariant
                a < b <= n,
                n == query@.len(),
                token_end(query@, a as int) == token_end(query@, b as int),
            decreases n - b,
        {
            b += 1;
        }
        let token = String::from_str(query.substring_char(a, b));
        let ghost before = texts(out@);
        out.push(token);
        proof {
            assert(texts(out@) =~= before.push(query@.subrange(a as int, b as int)));
            assert(tokens_from(query@, pos as int) == seq![query@.subrange(a as int, b as int)]
                + tokens_from(query@, b as int));
            assert(before + (seq![query@.subrange(a as int, b as int)] + tokens_from(
                query@,
                b as int,
            )) =~= before.push(query@.subrange(a as int, b as int)) + tokens_from(query@, b as int));
        }
        pos = b;
    }
}

/// The last fact with the id, if any.
pub fn find_fact(facts: &Vec<Fact>, id: &str) -> (r: Option<Fact>)
    ensures
        r == pick(facts@, id@),
{
    let mut i: usize = facts.len();
    assert(facts@.take(i as int) =~= facts@);
    while i > 0
        invariant
            i <= facts@.len(),
            pick(facts@, id@) == pick(facts@.take(i as int), id@),
        decreases i,
    {
        assert(facts@.take(i as int).drop_last() =~= facts@.take(i - 1));
        if same_text(facts[i - 1].id.0.as_str(), id) {
            return Some(facts[i - 1].duplicate());
        }
        i -= 1;
    }
    None
}

/// Turns ranked ids back into facts, keeping the rank order and passing over
/// an id that no fact has.
pub fn hydrate_hits(facts: &Vec<Fact>, ids: &Vec<String>) -> (r: Vec<Fact>)
    ensures
        r@ == hydrated(facts@, texts(ids@), ids@.len() as int),
        r@.len() <= ids@.len(),
{
    let mut out: Vec<Fact> = Vec::new();
    let mut i: usize = 0;
    while i < ids.len()
        invariant
            i <= ids@.len(),
            out@ == hydrated(facts@, texts(ids@), i as int),
            out@.len() <= i,
        decreases ids@.len() - i,
    {
        match find_fact(facts, ids[i].as_str()) {
            Some(f) => {
                out.push(f);
            },
            None => {},
        }
        i += 1;
    }
    out
}

/// The ids as texts, each where it is present.
pub open spec fn option_texts(top: Seq<Option<String>>) -> Seq<Option<Seq<char>>> {
    Seq::new(
        top.len(),
        |i: int|
            match top[i] {
                Some(s) => Some(s@),
                None => None,
            },
    )
}

/// The ids that are present among the first `n`, in order.
pub open spec fn kept(top: Seq<Option<Seq<char>>>, n: int) -> Seq<Seq<char>>
    decreases n,
{
    if n <= 0 {
        Seq::empty()
    } else {
        match top[n - 1] {
            Some(id) => kept(top, n - 1).push(id),
            None => kept(top, n - 1),
        }
    }
}

/// The ids that are present among the first `wanted` matches, in order.
pub fn kept_ids(top: &Vec<Option<String>>, wanted: usize) -> (r: Vec<String>)
    ensures
        texts(r@) == kept(
            option_texts(top@),
            if wanted <= top@.len() {
                wanted as int
            } else {
                top@.len() as int
            },
        ),
        r@.len() <= wanted,
        r@.len() <= top@.len(),
{
    let mut ids: Vec<String> = Vec::new();
    let mut i: usize = 0;
    assert(texts(ids@) =~= Seq::empty());
    while i < top.len() && i < wanted
        invariant
            i <= top@.len(),
            i <= wanted,
            ids@.len() <= i,
            texts(ids@) == kept(option_texts(top@), i as int),
        decreases top@.len() - i,
    {
        let ghost before = texts(ids@);
        match &top[i] {
            Some(id) => {
                ids.push(id.clone());
                assert(texts(ids@) =~= before.push(id@));
            },
            None => {},
        }
        i += 1;
    }
    ids
}

/// Whether a text is on the list.
pub fn holds_text(list: &Vec<String>, text: &str) -> (r: bool)
    ensures
        r == texts(list@).contains(text@),
{
    let mut i: usize = 0;
    while i < list.len()
        invariant
            i <= list@.len(),
            forall|j: int| 0 <= j < i ==> list@[j]@ != text@,
        decreases list@.len() - i,
    {
        if same_text(list[i].as_str(), text) {
            assert(texts(list@)[i as int] == text@);
            return true;
        }
        i += 1;
    }
    false
}

/// The ids, each once, in order of first occurrence.
pub fn unique_ids(ids: &Vec<String>) -> (r: Vec<String>)
    ensures
        texts(r@) == distinct_prefix(texts(ids@), ids@.len() as int),
        r@.len() <= ids@.len(),
        texts(r@).no_duplicates(),
{
    let mut out: Vec<String> = Vec::new();
    let mut i: usize = 0;
    assert(texts(out@) =~= distinct_prefix(texts(ids@), 0));
    while i < ids.len()
        invariant
            i <= ids@.len(),
            out@.len() <= i,
            texts(out@) == distinct_prefix(texts(ids@), i as int),
        decreases ids@.len() - i,
    {
        if !holds_text(&out, ids[i].as_str()) {
            let ghost before = texts(out@);
            out.push(ids[i].clone());
            assert(texts(out@) =~= before.push(ids@[i as int]@));
        }
        i += 1;
    }
    proof {
        lemma_distinct_prefix(texts(ids@), ids@.len() as int);
    }
    out
}

/// The facts that distinct ids stand for have distinct ids, each one of the
/// ids.
pub proof fn lemma_hydrated_distinct(facts: Seq<Fact>, ids: Seq<Seq<char>>, n: int)
    requires
        ids.no_duplicates(),
        0 <= n <= ids.len(),
    ensures
        hydrated(facts, ids, n).len() <= n,
        forall|i: int|
            0 <= i < hydrated(facts, ids, n).len() ==> exists|j: int|
                0 <= j < n && ids[j] == (#[trigger] hydrated(facts, ids, n)[i]).id@,
        forall|i: int, j: int|
            0 <= i < j < hydrated(facts, ids, n).len() ==> (#[trigger] hydrated(facts, ids, n)[i]).id@
                != (#[trigger] hydrated(facts, ids, n)[j]).id@,
    decreases n,
{
    if n > 0 {
        lemma_hydrated_distinct(facts, ids, n - 1);
        lemma_pick_within(facts, ids[n - 1]);
        let rest = hydrated(facts, ids, n - 1);
        let all = hydrated(facts, ids, n);
        assert forall|i: int| 0 <= i < all.len() implies exists|j: int|
            0 <= j < n && ids[j] == (#[trigger] all[i]).id@ by {
            if i < rest.len() {
                assert(all[i] == rest[i]);
                let j = choose|j: int| 0 <= j < n - 1 && ids[j] == rest[i].id@;
                assert(ids[j] == all[i].id@);
            } else {
                assert(ids[n - 1] == all[i].id@);
            }
        }
        assert forall|i: int, j: int| 0 <= i < j < all.len() implies (#[trigger] all[i]).id@ != (
        #[trigger] all[j]).id@ by {
            assert(all[i] == rest[i]);
            if j < rest.len() {
                assert(all[j] == rest[j]);
            } else {
                let w = choose|w: int| 0 <= w < n - 1 && ids[w] == rest[i].id@;
                assert(ids[w] != ids[n - 1]);
            }
        }
    }
}

} // verus!
