use vstd::prelude::*;

use crate::error::LookupError;

verus! {

/// The shard directories of a package name, relative to the cache root:
/// `1`, `2` or `3` for names of that many characters, otherwise the first
/// two characters followed by the next two.
pub open spec fn shard_of(name: Seq<char>) -> Seq<Seq<char>> {
    if name.len() == 1 {
        seq![seq!['1']]
    } else if name.len() == 2 {
        seq![seq!['2']]
    } else if name.len() == 3 {
        seq![seq!['3']]
    } else {
        seq![name.subrange(0, 2), name.subrange(2, 4)]
    }
}

/// The part of a name that decides its shard: the first four characters, or
/// the whole name when it is shorter.
pub open spec fn shard_key(name: Seq<char>) -> Seq<char> {
    if name.len() < 4 {
        name
    } else {
        name.subrange(0, 4)
    }
}

/// The shard of a non-empty name depends on its first four characters alone
/// (on the whole name when it is shorter): two names that agree there lie in
/// the same shard.
pub proof fn shard_depends_on_prefix(a: Seq<char>, b: Seq<char>)
    requires
        a.len() > 0,
        b.len() > 0,
        shard_key(a) == shard_key(b),
    ensures
        shard_of(a) == shard_of(b),
{
    if a.len() < 4 || b.len() < 4 {
        assert(shard_key(a).len() == shard_key(b).len());
        assert(a =~= b);
    } else {
        assert(a.subrange(0, 2) =~= shard_key(a).subrange(0, 2));
        assert(b.subrange(0, 2) =~= shard_key(b).subrange(0, 2));
        assert(a.subrange(2, 4) =~= shard_key(a).subrange(2, 4));
        assert(b.subrange(2, 4) =~= shard_key(b).subrange(2, 4));
    }
}

/// The shard directories under which the cache file of `name` lies.
pub fn shard_dirs(name: &str) -> (r: Result<Vec<String>, LookupError>)
    ensures
        name@.len() == 0 <==> r == Err::<Vec<String>, LookupError>(LookupError::InvalidQuery),
        name@.len() > 0 ==> r is Ok && r->Ok_0@.map_values(|d: String| d@) == shard_of(name@),
{
    let n = name.unicode_len();
    if n == 0 {
        return Err(LookupError::InvalidQuery);
    }
    let mut dirs: Vec<String> = Vec::new();
    if n == 1 {
        proof {
            reveal_strlit("1");
        }
        dirs.push("1".to_owned());
        assert(dirs@[0]@ =~= seq!['1']);
    } else if n == 2 {
        proof {
            reveal_strlit("2");
        }
        dirs.push("2".to_owned());
        assert(dirs@[0]@ =~= seq!['2']);
    } else if n == 3 {
        proof {
            reveal_strlit("3");
        }
        dirs.push("3".to_owned());
        assert(dirs@[0]@ =~= seq!['3']);
    } else {
        dirs.push(name.substring_char(0, 2).to_owned());
        dirs.push(name.substring_char(2, 4).to_owned());
        assert(dirs@[0]@ =~= name@.subrange(0, 2));
    }
    assert(dirs@.map_values(|d: String| d@) =~= shard_of(name@));
    Ok(dirs)
}

} // verus!
