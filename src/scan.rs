use vstd::prelude::*;
use vstd::string::StringSliceAdditionalSpecFns;
use vstd::utf8::encode_utf8;

use crate::error::LookupError;
use crate::records::{key_at, key_matches};

verus! {

/// `needle` occurs in `hay`, byte for byte.
pub open spec fn contains(hay: Seq<u8>, needle: Seq<u8>) -> bool {
    exists|p: int| key_at(hay, p, needle)
}

/// What a directory entry is.
#[derive(Debug, Clone, Copy, PartialEq, Eq)]
pub enum EntryKind {
    Directory,
    File,
    Other,
}

/// What the walk does with an entry.
#[derive(Debug, Clone, Copy, PartialEq, Eq)]
pub enum Visit {
    /// Walk into the directory.
    Descend,
    /// Look up the versions of the package the file is named after.
    Resolve,
    /// Pass the entry by.
    Skip,
}

/// The decision the walk makes for an entry of kind `kind` named `name`.
pub open spec fn visit_of(kind: EntryKind, name: Seq<u8>, query: Seq<u8>) -> Visit {
    match kind {
        EntryKind::Directory => Visit::Descend,
        EntryKind::File => if contains(name, query) {
            Visit::Resolve
        } else {
            Visit::Skip
        },
        EntryKind::Other => Visit::Skip,
    }
}

/// Whether `needle` occurs in `hay`.
pub fn contains_bytes(hay: &[u8], needle: &[u8]) -> (r: bool)
    ensures
        r == contains(hay@, needle@),
{
    if needle.len() > hay.len() {
        return false;
    }
    if needle.len() == 0 {
        assert(key_at(hay@, 0, needle@)) by {
            assert(hay@.subrange(0, 0) =~= needle@);
        }
        return true;
    }
    let mut p: usize = 0;
    while p <= hay.len() - needle.len()
        invariant
            1 <= needle@.len() <= hay@.len(),
            hay@.len() == hay.len(),
            forall|q: int| 0 <= q < p ==> !key_at(hay@, q, needle@),
        decreases hay.len() - p,
    {
        if key_matches(hay, p, needle) {
            return true;
        }
        p += 1;
    }
    false
}

/// The state of a substring scan over the cache: the query, and the matches
/// found so far, each a package name with its latest live version.
pub struct Scanner {
    query: String,
    found: Vec<(String, String)>,
}

impl Scanner {
    /// The query.
    pub closed spec fn query_view(&self) -> Seq<char> {
        self.query@
    }

    /// The matches found so far, in the order found.
    pub closed spec fn found_view(&self) -> Seq<(Seq<char>, Seq<char>)> {
        self.found@.map_values(|m: (String, String)| (m.0@, m.1@))
    }

    /// A scan for `query`; an empty query is refused.
    pub fn new(query: &str) -> (r: Result<Scanner, LookupError>)
        ensures
            query@.len() == 0 <==> r matches Err(LookupError::InvalidQuery),
            r matches Ok(s) ==> s.query_view() == query@ && s.found_view().len() == 0,
            r is Err ==> r matches Err(LookupError::InvalidQuery),
    {
        if query.is_empty() {
            return Err(LookupError::InvalidQuery);
        }
        let s = Scanner { query: query.to_owned(), found: Vec::new() };
        assert(s.found_view() =~= seq![]);
        Ok(s)
    }

    /// What to do with an entry of kind `kind` named `name`: walk into a
    /// directory, look up a regular file whose name holds the query, pass by
    /// anything else.
    pub fn visit(&self, kind: EntryKind, name: &str) -> (r: Visit)
        ensures
            r == visit_of(kind, name.spec_bytes(), encode_utf8(self.query_view())),
    {
        match kind {
            EntryKind::Directory => Visit::Descend,
            EntryKind::File => {
                if contains_bytes(name.as_bytes(), self.query.as_str().as_bytes()) {
                    Visit::Resolve
                } else {
                    Visit::Skip
                }
            },
            EntryKind::Other => Visit::Skip,
        }
    }

    /// Takes in what the lookup of the package `name` gave: its latest
    /// version joins the matches, a package without versions adds nothing,
    /// and any other failure ends the scan.
    pub fn record(&mut self, name: &str, resolved: Result<Vec<String>, LookupError>) -> (r: Result<
        (),
        LookupError,
    >)
        ensures
            final(self).query_view() == old(self).query_view(),
            match resolved {
                Ok(v) => r is Ok && final(self).found_view() == if v@.len() > 0 {
                    old(self).found_view().push((name@, v@[0]@))
                } else {
                    old(self).found_view()
                },
                Err(e) => final(self).found_view() == old(self).found_view() && if e
                    == LookupError::NotFound {
                    r is Ok
                } else {
                    r == Err::<(), LookupError>(e)
                },
            },
    {
        match resolved {
            Ok(v) => {
                if v.len() > 0 {
                    let latest = v[0].clone();
                    self.found.push((name.to_owned(), latest));
                    assert(self.found_view() =~= old(self).found_view().push((name@, v@[0]@)));
                }
                Ok(())
            },
            Err(e) => match e {
                LookupError::NotFound => Ok(()),
                _ => Err(e),
            },
        }
    }

    /// The matches of the scan, in the order found; `NotFound` when there are
    /// none.
    pub fn finish(self) -> (r: Result<Vec<(String, String)>, LookupError>)
        ensures
            self.found_view().len() == 0 <==> r matches Err(LookupError::NotFound),
            r is Err ==> r matches Err(LookupError::NotFound),
            r matches Ok(v) ==> v@.map_values(|m: (String, String)| (m.0@, m.1@))
                == self.found_view(),
    {
        if self.found.len() == 0 {
            Err(LookupError::NotFound)
        } else {
            Ok(self.found)
        }
    }
}

} // verus!
