//! Converts OpenStreetMap data between several file formats, filtering and
//! transforming individual elements on the way through.
//!
//! The crate is organised around a small data model ([`elements`]), two
//! interchangeable filter backends ([`filter`]), decoders for the textual
//! formats ([`readers`]) and encoders ([`writers`]).  Everything that decides
//! or computes lives here with a contract; the thin I/O shell around it lives
//! outside the library.

use vstd::prelude::*;

pub mod elements;
pub mod filter;
pub mod readers;
pub mod text;
pub mod writers;

verus! {

/// Errors surfaced by the library's public entry points.
#[derive(Debug)]
pub enum SkywayError {
    /// The requested input format is not one the library reads.
    UnknownInputFormat,
    /// The requested output format is not one the library writes.
    UnknownOutputFormat,
    /// An input or output channel failed; the message describes how.
    IoError(String),
}

/// The last index at which `c` occurs in `s`, or -1 if it does not occur.
pub open spec fn last_index_of(s: Seq<char>, c: char) -> int
    decreases s.len(),
{
    if s.len() == 0 {
        -1
    } else if s[s.len() - 1] == c {
        s.len() - 1
    } else {
        last_index_of(s.drop_last(), c)
    }
}

/// The length of `path` once trailing `/` are dropped.
pub open spec fn trimmed_len(path: Seq<char>) -> int
    decreases path.len(),
{
    if path.len() > 0 && path[path.len() - 1] == '/' {
        trimmed_len(path.drop_last())
    } else {
        path.len() as int
    }
}

/// The file extension of `path`: trailing `/` dropped, the text after the
/// last `.` of the last `/`-separated component — unless that `.` is the
/// component's first character, the component has none, or the component is
/// the parent directory `..`, which names no file.
pub open spec fn spec_extension_of(path: Seq<char>) -> Option<Seq<char>> {
    let t = path.take(trimmed_len(path));
    let name = t.subrange(last_index_of(t, '/') + 1, t.len() as int);
    if name.len() == 2 && name[0] == '.' && name[1] == '.' {
        Option::None
    } else if last_index_of(name, '.') >= 1 {
        Option::Some(name.subrange(last_index_of(name, '.') + 1, name.len() as int))
    } else {
        Option::None
    }
}

proof fn lemma_last_index_of_range(s: Seq<char>, c: char)
    ensures
        -1 <= last_index_of(s, c) < s.len(),
        last_index_of(s, c) >= 0 ==> s[last_index_of(s, c)] == c,
    decreases s.len(),
{
    if s.len() > 0 && s[s.len() - 1] != c {
        lemma_last_index_of_range(s.drop_last(), c);
    }
}

/// Scan `s` backwards for the last occurrence of `c`.
fn find_last(s: &Vec<char>, c: char) -> (r: Option<usize>)
    ensures
        match r {
            Option::Some(j) => j as int == last_index_of(s@, c),
            Option::None => last_index_of(s@, c) == -1,
        },
{
    proof {
        assert(s@.take(s@.len() as int) =~= s@);
    }
    let mut j: usize = s.len();
    while j > 0
        invariant
            j <= s@.len(),
            last_index_of(s@, c) == last_index_of(s@.take(j as int), c),
        decreases j,
    {
        j = j - 1;
        if s[j] == c {
            proof {
                assert(s@.take(j + 1)[j as int] == s@[j as int]);
                lemma_last_index_of_range(s@.take(j + 1), c);
            }
            return Option::Some(j);
        }
        proof {
            assert(s@.take(j + 1).drop_last() =~= s@.take(j as int));
            assert(s@.take(j + 1)[j as int] == s@[j as int]);
        }
    }
    proof {
        assert(s@.take(0).len() == 0);
    }
    Option::None
}

/// The file extension of `path`, if any, as `spec_extension_of` gives it.
///
/// Mirrors how a path names its format: trailing separators dropped, the
/// component after the last `/`, split at its last `.`, yields the
/// extension, except when that `.` leads the component (a hidden file), the
/// component has none, or the component is the parent directory.
pub fn get_file_extension<'a>(path: &'a Option<String>) -> (r: Option<&'a str>)
    ensures
        match path {
            Option::None => r is None,
            Option::Some(p) => match (r, spec_extension_of(p@)) {
                (Option::Some(e), Option::Some(se)) => e@ == se,
                (Option::None, Option::None) => true,
                _ => false,
            },
        },
{
    match path {
        Option::None => Option::None,
        Option::Some(p) => {
            let cs = text::str_to_chars(p.as_str());
            proof {
                assert(cs@.take(cs@.len() as int) =~= cs@);
            }
            let mut end: usize = cs.len();
            while end > 0 && cs[end - 1] == '/'
                invariant
                    end <= cs@.len(),
                    cs@ == p@,
                    trimmed_len(cs@) == trimmed_len(cs@.take(end as int)),
                decreases end,
            {
                proof {
                    assert(cs@.take(end as int).drop_last() =~= cs@.take(end - 1));
                    assert(cs@.take(end as int)[end - 1] == cs@[end - 1]);
                }
                end = end - 1;
            }
            proof {
                if end > 0 {
                    assert(cs@.take(end as int)[end - 1] == cs@[end - 1]);
                }
                assert(trimmed_len(cs@.take(end as int)) == end as int);
            }
            let tcs = filter::lex::chars_subrange(&cs, 0, end);
            proof {
                assert(tcs@ =~= p@.take(trimmed_len(p@)));
                lemma_last_index_of_range(tcs@, '/');
            }
            let start: usize = match find_last(&tcs, '/') {
                Option::Some(j) => j + 1,
                Option::None => 0,
            };
            extension_of_name(p, start, end)
        },
    }
}

/// The extension within the component `p[start..end]`, where `end` closes
/// the path's trimmed prefix and `start` follows its last separator.
#[verifier::loop_isolation(false)]
fn extension_of_name<'a>(p: &'a String, start: usize, end: usize) -> (r: Option<&'a str>)
    requires
        start <= end <= p@.len(),
        end as int == trimmed_len(p@),
        start as int == last_index_of(p@.take(end as int), '/') + 1,
    ensures
        match (r, spec_extension_of(p@)) {
            (Option::Some(e), Option::Some(se)) => e@ == se,
            (Option::None, Option::None) => true,
            _ => false,
        },
{
    let ghost t = p@.take(end as int);
    let ghost name = t.subrange(start as int, end as int);
    proof {
        assert(name =~= p@.subrange(start as int, end as int));
        assert(name.take(end - start) =~= name);
    }
    if end - start == 2 && p.as_str().get_char(start) == '.' && p.as_str().get_char(start + 1)
        == '.' {
        proof {
            assert(name[0] == p@[start as int] && name[1] == p@[start + 1]);
        }
        return Option::None;
    }
    proof {
        assert(!(name.len() == 2 && name[0] == '.' && name[1] == '.')) by {
            if name.len() == 2 {
                assert(name[0] == p@[start as int] && name[1] == p@[start + 1]);
            }
        }
    }
    let mut j: usize = end;
    while j > start
        invariant
            start <= j <= end,
            last_index_of(name, '.') == last_index_of(name.take(j - start), '.'),
        decreases j,
    {
        j = j - 1;
        if p.as_str().get_char(j) == '.' {
            proof {
                assert(name.take(j - start + 1)[j - start] == p@[j as int]);
                lemma_last_index_of_range(name.take(j - start + 1), '.');
                assert(last_index_of(name, '.') == j - start);
            }
            if j - start >= 1 {
                let e = p.as_str().substring_char(j + 1, end);
                proof {
                    assert(e@ =~= name.subrange(
                        last_index_of(name, '.') + 1,
                        name.len() as int,
                    ));
                }
                return Option::Some(e);
            } else {
                return Option::None;
            }
        }
        proof {
            assert(name.take(j - start + 1).drop_last() =~= name.take(j - start));
            assert(name.take(j - start + 1)[j - start] == p@[j as int]);
        }
    }
    proof {
        assert(name.take(0).len() == 0);
    }
    Option::None
}

/// The name that selects a format: the explicitly given name when there is
/// one, else the input path's extension.
pub open spec fn spec_format_source(cli: Option<Seq<char>>, path: Option<Seq<char>>) -> Option<
    Seq<char>,
> {
    match cli {
        Option::Some(f) => Option::Some(f),
        Option::None => match path {
            Option::Some(p) => spec_extension_of(p),
            Option::None => Option::None,
        },
    }
}

} // verus!
