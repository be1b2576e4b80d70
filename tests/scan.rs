use cargo_reg_local::error::LookupError;
use cargo_reg_local::lookup::{pick_entry, versions_in};
use cargo_reg_local::scan::{contains_bytes, EntryKind, Scanner, Visit};
use cargo_reg_local::shard::shard_dirs;

/// A cache held in memory: each regular file with its directories, its name
/// and its content, in the order a depth-first walk meets them.
fn fixture() -> Vec<(Vec<&'static str>, &'static str, &'static str)> {
    vec![
        (vec!["1"], "a", "{\"vers\":\"0.1.0\",\"yanked\":false}\n{\"vers\":\"0.2.0\",\"yanked\":false}"),
        (vec!["2"], "ab", "{\"vers\":\"1.0.0\",\"yanked\":true}\n{\"vers\":\"1.1.0\",\"yanked\":false}"),
        (vec!["3"], "abc", ""),
        (vec!["ab", "cd"], "abcdef", "{\"vers\":\"0.0.1\",\"yanked\":false}"),
        (vec!["ab", "cx"], "abcxyz", "{\"vers\":\"0.9.0\",\"yanked\":false}"),
    ]
}

fn resolve(name: &str) -> Result<Vec<String>, LookupError> {
    let cache = fixture();
    let dirs = shard_dirs(name)?;
    let in_shard: Vec<usize> = (0..cache.len())
        .filter(|&i| cache[i].0.iter().map(|d| d.to_string()).collect::<Vec<String>>() == dirs)
        .collect();
    if in_shard.is_empty() {
        return Err(LookupError::NotFound);
    }
    let entries: Vec<String> = in_shard.iter().map(|&i| cache[i].1.to_string()).collect();
    match pick_entry(&entries, name) {
        Some(k) => versions_in(cache[in_shard[k]].2),
        None => Err(LookupError::NotFound),
    }
}

fn search(query: &str) -> Result<Vec<(String, String)>, LookupError> {
    let mut scanner = Scanner::new(query)?;
    for (_, name, _) in fixture() {
        if scanner.visit(EntryKind::File, name) == Visit::Resolve {
            scanner.record(name, resolve(name))?;
        }
    }
    scanner.finish()
}

fn pairs(items: &[(&str, &str)]) -> Vec<(String, String)> {
    items.iter().map(|(n, v)| (n.to_string(), v.to_string())).collect()
}

#[test]
fn query_a() {
    assert_eq!(resolve("a"), Ok(vec!["0.2.0".to_string(), "0.1.0".to_string()]));
    assert_eq!(
        search("a"),
        Ok(pairs(&[("a", "0.2.0"), ("ab", "1.1.0"), ("abcdef", "0.0.1"), ("abcxyz", "0.9.0")]))
    );
}

#[test]
fn query_ab() {
    assert_eq!(resolve("ab"), Ok(vec!["1.1.0".to_string()]));
    assert_eq!(search("ab"), Ok(pairs(&[("ab", "1.1.0"), ("abcdef", "0.0.1"), ("abcxyz", "0.9.0")])));
}

#[test]
fn query_abc() {
    assert_eq!(resolve("abc"), Err(LookupError::NotFound));
    assert_eq!(search("abc"), Ok(pairs(&[("abcdef", "0.0.1"), ("abcxyz", "0.9.0")])));
}

#[test]
fn query_xyz() {
    assert_eq!(resolve("xyz"), Err(LookupError::NotFound));
    assert_eq!(search("xyz"), Ok(pairs(&[("abcxyz", "0.9.0")])));
}

#[test]
fn query_zzz() {
    assert_eq!(resolve("zzz"), Err(LookupError::NotFound));
    assert_eq!(search("zzz"), Err(LookupError::NotFound));
}

#[test]
fn empty_query() {
    assert_eq!(resolve(""), Err(LookupError::InvalidQuery));
    assert_eq!(search(""), Err(LookupError::InvalidQuery));
}

#[test]
fn scan_reports_what_the_lookup_gave_first() {
    for (_, name, _) in fixture() {
        if let Ok(found) = search(name) {
            for (n, v) in found {
                assert_eq!(Ok(v), resolve(&n).map(|vs| vs[0].clone()));
            }
        }
    }
}

#[test]
fn walk_decisions() {
    let scanner = Scanner::new("ab").unwrap();
    assert_eq!(scanner.visit(EntryKind::Directory, "1"), Visit::Descend);
    assert_eq!(scanner.visit(EntryKind::File, "xabx"), Visit::Resolve);
    assert_eq!(scanner.visit(EntryKind::File, "aXb"), Visit::Skip);
    assert_eq!(scanner.visit(EntryKind::File, "AB"), Visit::Skip);
    assert_eq!(scanner.visit(EntryKind::Other, "ab"), Visit::Skip);
}

#[test]
fn io_error_ends_the_scan() {
    let mut scanner = Scanner::new("a").unwrap();
    assert_eq!(scanner.record("a", Ok(vec!["0.2.0".to_string(), "0.1.0".to_string()])), Ok(()));
    assert_eq!(scanner.record("ab", Err(LookupError::NotFound)), Ok(()));
    let failure = LookupError::Io("R/2/ab: permission denied".to_string());
    assert_eq!(scanner.record("ab", Err(failure.clone())), Err(failure));
    assert_eq!(scanner.finish(), Ok(pairs(&[("a", "0.2.0")])));
}

#[test]
fn substring_test_is_bytewise() {
    assert!(contains_bytes(b"abcxyz", b"cxy"));
    assert!(contains_bytes(b"abc", b""));
    assert!(!contains_bytes(b"abc", b"abcd"));
    assert!(!contains_bytes(b"abc", b"B"));
    assert!(contains_bytes(b"abc", b"abc"));
}
