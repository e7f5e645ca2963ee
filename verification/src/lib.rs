//! Small verified data-structure library: graph storage in four layouts with
//! breadth-first traversal, a disjoint-set forest, a bracket matcher, the
//! rules of a guessing game, and line search in a text.

use vstd::prelude::*;

pub mod graph;
pub mod guessing_game;
pub mod stack_application;
pub mod union_find;

verus! {

/// What to search for, where, and how.
pub struct Config {
    /// The text to look for.
    pub query: String,
    /// The path of the file to search.
    pub file_path: String,
    /// Whether upper and lower case count as the same.
    pub ignore_case: bool,
}

/// `needle` occurs in `haystack` as a run of consecutive characters.
pub open spec fn is_substring(needle: Seq<char>, haystack: Seq<char>) -> bool {
    exists|i: int|
        0 <= i <= haystack.len() - needle.len() && #[trigger] haystack.subrange(
            i,
            i + needle.len(),
        ) == needle
}

/// The test "`query` occurs in the line".
pub open spec fn holds(query: Seq<char>) -> spec_fn(Seq<char>) -> bool {
    |line: Seq<char>| is_substring(query, line)
}

/// The test "the lower-case form of the line holds `query`".
pub open spec fn holds_folded(query: Seq<char>) -> spec_fn(Seq<char>) -> bool {
    |line: Seq<char>| is_substring(query, lowercase_of(line))
}

/// The position of the first line feed in `text`, or its length if it has none.
pub open spec fn line_end(text: Seq<char>) -> int
    decreases text.len(),
{
    if text.len() == 0 || text[0] == '\n' {
        0
    } else {
        1 + line_end(text.drop_first())
    }
}

/// The lines of `text`. A line ends at a line feed, which is not part of it,
/// nor is a carriage return just before the line feed. What follows the last
/// line feed is a line too, unless it is empty.
pub open spec fn split_lines(text: Seq<char>) -> Seq<Seq<char>>
    decreases text.len(),
{
    let end = line_end(text);
    if text.len() == 0 {
        Seq::empty()
    } else if !(0 <= end < text.len()) {
        seq![text]
    } else {
        let line = text.subrange(0, end);
        let line = if line.len() > 0 && line.last() == '\r' {
            line.drop_last()
        } else {
            line
        };
        seq![line] + split_lines(text.subrange(end + 1, text.len() as int))
    }
}

/// The lower-case form of a text, as `str::to_lowercase` gives it.
pub uninterp spec fn lowercase_of(text: Seq<char>) -> Seq<char>;

/// `str::lines`, collected: the lines of `contents` as slices of it, split at
/// line feeds, each without its line feed and without a carriage return just
/// before it; no empty line after a final line feed.
#[verifier::external_body]
fn str_lines<'a>(contents: &'a str) -> (lines: Vec<&'a str>)
    ensures
        lines.deep_view() == split_lines(contents@),
{
    contents.lines().collect()
}

/// `str::contains` with a string pattern: whether `needle` occurs in `haystack`.
#[verifier::external_body]
fn str_contains(haystack: &str, needle: &str) -> (found: bool)
    ensures
        found == is_substring(needle@, haystack@),
{
    haystack.contains(needle)
}

/// `str::to_lowercase`: the lower-case form of `text`, a function of `text` alone.
#[verifier::external_body]
fn str_to_lowercase(text: &str) -> (lower: String)
    ensures
        lower@ == lowercase_of(text@),
{
    text.to_lowercase()
}

/// The configuration named by the arguments of a command line: the query
/// comes second, the file path third. Case is ignored.
pub fn parse_config(args: &[String]) -> (config: Config)
    requires
        args@.len() >= 3,
    ensures
        config.query@ == args@[1]@,
        config.file_path@ == args@[2]@,
        config.ignore_case,
{
    let query = args[1].clone();
    let file_path = args[2].clone();
    Config { query, file_path, ignore_case: true }
}

impl Config {
    /// The configuration named by the arguments of a command line: the query
    /// comes second, the file path third. Case is ignored.
    pub fn new(args: &[String]) -> (config: Self)
        requires
            args@.len() >= 3,
        ensures
            config.query@ == args@[1]@,
            config.file_path@ == args@[2]@,
            config.ignore_case,
    {
        Self { query: args[1].clone(), file_path: args[2].clone(), ignore_case: true }
    }

    /// The configuration named by the arguments of a command line, with
    /// `ignore_case` as given; an error if there are fewer than three arguments.
    pub fn build(args: &[String], ignore_case: bool) -> (built: Result<Self, &'static str>)
        ensures
            built is Err <==> args@.len() < 3,
            built matches Err(e) ==> e@ == "no enough arguments"@,
            built matches Ok(config) ==> config.query@ == args@[1]@ && config.file_path@
                == args@[2]@ && config.ignore_case == ignore_case,
    {
        if args.len() < 3 {
            return Err("no enough arguments");
        }
        Ok(Self { query: args[1].clone(), file_path: args[2].clone(), ignore_case })
    }
}

/// The lines of `contents` that the configuration selects: those that hold
/// the query, with or without regard to case.
pub fn run<'a>(config: &Config, contents: &'a str) -> (results: Vec<&'a str>)
    ensures
        results.deep_view() == split_lines(contents@).filter(
            if config.ignore_case {
                holds_folded(lowercase_of(config.query@))
            } else {
                holds(config.query@)
            },
        ),
{
    if config.ignore_case {
        search_case_insensitive(config.query.as_str(), contents)
    } else {
        search(config.query.as_str(), contents)
    }
}

/// The lines of `contents` in which `query` occurs, in their order.
pub fn search<'a>(query: &str, contents: &'a str) -> (results: Vec<&'a str>)
    ensures
        results.deep_view() == split_lines(contents@).filter(holds(query@)),
{
    let lines = str_lines(contents);
    let ghost all = lines.deep_view();
    let mut results: Vec<&'a str> = Vec::new();
    let mut i: usize = 0;
    proof {
        assert(all.take(0) =~= Seq::empty());
        assert(results.deep_view() =~= Seq::empty());
    }
    while i < lines.len()
        invariant
            all == lines.deep_view(),
            all == split_lines(contents@),
            0 <= i <= lines.len(),
            results.deep_view() == all.take(i as int).filter(holds(query@)),
        decreases lines.len() - i,
    {
        let line = lines[i];
        let ghost before = results.deep_view();
        proof {
            let test = holds(query@);
            let next = all.take(i + 1);
            assert(next =~= all.take(i as int).push(line@));
            all.take(i as int).lemma_filter_push(line@, test);
            assert(test(line@) == is_substring(query@, line@));
            assert(next.filter(test) == if test(line@) {
                before.push(line@)
            } else {
                before
            });
        }
        if str_contains(line, query) {
            results.push(line);
            proof {
                assert(results.deep_view() =~= before.push(line@));
            }
        }
        i += 1;
    }
    proof {
        assert(all.take(i as int) =~= all);
    }
    results
}

/// The lines of `contents` whose lower-case form holds the lower-case form
/// of `query`, in their order.
pub fn search_case_insensitive<'a>(query: &str, contents: &'a str) -> (results: Vec<&'a str>)
    ensures
        results.deep_view() == split_lines(contents@).filter(holds_folded(lowercase_of(query@))),
{
    let query = str_to_lowercase(query);
    let lines = str_lines(contents);
    let ghost all = lines.deep_view();
    let ghost test = holds_folded(query@);
    let mut results: Vec<&'a str> = Vec::new();
    let mut i: usize = 0;
    proof {
        assert(all.take(0) =~= Seq::empty());
        assert(results.deep_view() =~= Seq::empty());
    }
    while i < lines.len()
        invariant
            all == lines.deep_view(),
            all == split_lines(contents@),
            test == holds_folded(query@),
            0 <= i <= lines.len(),
            results.deep_view() == all.take(i as int).filter(test),
        decreases lines.len() - i,
    {
        let line = lines[i];
        let ghost before = results.deep_view();
        proof {
            let next = all.take(i + 1);
            assert(next =~= all.take(i as int).push(line@));
            all.take(i as int).lemma_filter_push(line@, test);
            assert(test(line@) == is_substring(query@, lowercase_of(line@)));
            assert(next.filter(test) == if test(line@) {
                before.push(line@)
            } else {
                before
            });
        }
        let folded = str_to_lowercase(line);
        if str_contains(folded.as_str(), query.as_str()) {
            results.push(line);
            proof {
                assert(results.deep_view() =~= before.push(line@));
            }
        }
        i += 1;
    }
    proof {
        assert(all.take(i as int) =~= all);
    }
    results
}

} // verus!
