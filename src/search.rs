//! Line search: the lines of a text that contain a query, in the order in which they stand.
use vstd::prelude::*;
use crate::text::{contains_text, has_substring, lines, slice_texts, split_lines};

verus! {

/// What `str::to_lowercase` makes of a text.
pub uninterp spec fn lower_of(s: Seq<char>) -> Seq<char>;

/// Relies on `str::to_lowercase`: the lowercase mapping of the text, which depends on the text
/// alone.
#[verifier::external_body]
fn lowercase(s: &str) -> (r: String)
    ensures
        r@ == lower_of(s@),
{
    s.to_lowercase()
}

/// The lines of `ls` that `keep` accepts, in order.
pub open spec fn kept(ls: Seq<Seq<char>>, keep: spec_fn(Seq<char>) -> bool) -> Seq<Seq<char>>
    decreases ls.len(),
{
    if ls.len() == 0 {
        seq![]
    } else {
        let before = kept(ls.drop_last(), keep);
        if keep(ls.last()) {
            before.push(ls.last())
        } else {
            before
        }
    }
}

/// The lines of `text` that contain `query`, case-sensitively.
pub open spec fn search_spec(query: Seq<char>, text: Seq<char>) -> Seq<Seq<char>> {
    kept(lines(text), |l: Seq<char>| has_substring(l, query))
}

/// The lines of `text` whose lowercase form contains the lowercase form of `query`.
pub open spec fn search_folded_spec(query: Seq<char>, text: Seq<char>) -> Seq<Seq<char>> {
    kept(lines(text), |l: Seq<char>| has_substring(lower_of(l), lower_of(query)))
}

/// The lines of `contents` that contain `query`, case-sensitively, in order.
pub fn search<'a>(query: &str, contents: &'a str) -> (r: Vec<&'a str>)
    ensures
        slice_texts(r@) == search_spec(query@, contents@),
{
    let all = split_lines(contents);
    let mut r: Vec<&'a str> = Vec::new();
    let ghost ls = lines(contents@);
    let ghost keep = |l: Seq<char>| has_substring(l, query@);
    let mut i: usize = 0;
    assert(ls.take(0) =~= Seq::<Seq<char>>::empty());
    assert(slice_texts(r@) =~= Seq::<Seq<char>>::empty());
    while i < all.len()
        invariant
            slice_texts(all@) == ls,
            i <= all.len(),
            keep == (|l: Seq<char>| has_substring(l, query@)),
            slice_texts(r@) == kept(ls.take(i as int), keep),
        decreases all.len() - i,
    {
        let line = all[i];
        assert(ls.take(i + 1).drop_last() =~= ls.take(i as int));
        assert(ls.take(i + 1).last() == line@);
        let ghost before = r@;
        if contains_text(line, query) {
            r.push(line);
            assert(slice_texts(r@) =~= slice_texts(before).push(line@));
        }
        i = i + 1;
    }
    assert(ls.take(all.len() as int) =~= ls);
    r
}

/// The lines of `contents` that contain `query` when both are lowercased, in order; the lines
/// come back as they stand in `contents`.
pub fn search_case_insensitive<'a>(query: &str, contents: &'a str) -> (r: Vec<&'a str>)
    ensures
        slice_texts(r@) == search_folded_spec(query@, contents@),
{
    let folded_query = lowercase(query);
    let all = split_lines(contents);
    let mut r: Vec<&'a str> = Vec::new();
    let ghost ls = lines(contents@);
    let ghost keep = |l: Seq<char>| has_substring(lower_of(l), lower_of(query@));
    let mut i: usize = 0;
    assert(ls.take(0) =~= Seq::<Seq<char>>::empty());
    assert(slice_texts(r@) =~= Seq::<Seq<char>>::empty());
    while i < all.len()
        invariant
            slice_texts(all@) == ls,
            i <= all.len(),
            folded_query@ == lower_of(query@),
            keep == (|l: Seq<char>| has_substring(lower_of(l), lower_of(query@))),
            slice_texts(r@) == kept(ls.take(i as int), keep),
        decreases all.len() - i,
    {
        let line = all[i];
        assert(ls.take(i + 1).drop_last() =~= ls.take(i as int));
        assert(ls.take(i + 1).last() == line@);
        let folded_line = lowercase(line);
        let ghost before = r@;
        if contains_text(folded_line.as_str(), folded_query.as_str()) {
            r.push(line);
            assert(slice_texts(r@) =~= slice_texts(before).push(line@));
        }
        i = i + 1;
    }
    assert(ls.take(all.len() as int) =~= ls);
    r
}

/// The matching lines, with or without regard to case.
pub fn search_lines<'a>(query: &str, contents: &'a str, case_sensitive: bool) -> (r: Vec<&'a str>)
    ensures
        case_sensitive ==> slice_texts(r@) == search_spec(query@, contents@),
        !case_sensitive ==> slice_texts(r@) == search_folded_spec(query@, contents@),
{
    if case_sensitive {
        search(query, contents)
    } else {
        search_case_insensitive(query, contents)
    }
}

/// An empty query is contained in every line, so a case-sensitive search for it returns every
/// line of the text.
pub proof fn lemma_empty_query_keeps_all(text: Seq<char>)
    ensures
        search_spec(seq![], text) == lines(text),
{
    let keep = |l: Seq<char>| has_substring(l, seq![]);
    assert forall|l: Seq<char>| #[trigger] keep(l) by {
        let e: Seq<char> = seq![];
        assert(l.subrange(0, 0 + e.len() as int) =~= e);
    }
    lemma_kept_all(lines(text), keep);
}

proof fn lemma_kept_all(ls: Seq<Seq<char>>, keep: spec_fn(Seq<char>) -> bool)
    requires
        forall|l: Seq<char>| #[trigger] keep(l),
    ensures
        kept(ls, keep) == ls,
    decreases ls.len(),
{
    if ls.len() > 0 {
        lemma_kept_all(ls.drop_last(), keep);
        assert(ls.drop_last().push(ls.last()) =~= ls);
    }
}


/// What a search run is asked to do.
pub struct Config {
    pub query: String,
    pub filename: String,
    pub case_sensitive: bool,
}

impl Config {
    /// Reads the query and the file name from the program's arguments (the program's own name
    /// first). The search ignores case exactly when `case_insensitive_set` says that the
    /// `CASE_INSENSITIVE` variable is present in the environment.
    pub fn new(args: &[String], case_insensitive_set: bool) -> (r: Result<Config, &'static str>)
        ensures
            args@.len() < 3 <==> r is Err,
            r is Err ==> r->Err_0@ == "not enough arguments"@,
            r matches Ok(c) ==> c.query@ == args@[1]@ && c.filename@ == args@[2]@ && c.case_sensitive
                == !case_insensitive_set,
    {
        if args.len() < 3 {
            return Err("not enough arguments");
        }
        let query = args[1].clone();
        let filename = args[2].clone();
        Ok(Config { query, filename, case_sensitive: !case_insensitive_set })
    }
}

} // verus!
