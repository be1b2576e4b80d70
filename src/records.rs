use vstd::prelude::*;
use vstd::string::StringSliceAdditionalSpecFns;
use vstd::utf8::*;

verus! {

/// The byte `"`.
pub const QUOTE: u8 = 34;

/// The byte that ends a line.
pub const NEWLINE: u8 = 10;

/// The byte `,`.
pub const COMMA: u8 = 44;

/// The byte `{`.
pub const OPEN_BRACE: u8 = 123;

/// The byte `}`.
pub const CLOSE_BRACE: u8 = 125;

/// The key that opens a record: `"vers":"`.
pub open spec fn vers_key() -> Seq<u8> {
    seq![34u8, 118, 101, 114, 115, 34, 58, 34]
}

/// The key in front of the withdrawn flag: `"yanked":`.
pub open spec fn yanked_key() -> Seq<u8> {
    seq![34u8, 121, 97, 110, 107, 101, 100, 34, 58]
}

/// The one flag value that marks a version as live: `false`.
pub open spec fn live_flag() -> Seq<u8> {
    seq![102u8, 97, 108, 115, 101]
}

/// `key` stands in `t` at position `p`.
pub open spec fn key_at(t: Seq<u8>, p: int, key: Seq<u8>) -> bool {
    0 <= p && p + key.len() <= t.len() && t.subrange(p, p + key.len()) == key
}

/// A byte that ends a flag value.
pub open spec fn is_terminator(b: u8) -> bool {
    b == COMMA || b == CLOSE_BRACE
}

/// The distance from `i` to the first byte equal to `b`, where no line break
/// comes first.
pub open spec fn dist_to_byte(t: Seq<u8>, i: int, b: u8) -> Option<nat>
    decreases t.len() - i,
{
    if i < 0 || i >= t.len() {
        None
    } else if t[i] == b {
        Some(0)
    } else if t[i] == NEWLINE {
        None
    } else {
        match dist_to_byte(t, i + 1, b) {
            Some(d) => Some(d + 1),
            None => None,
        }
    }
}

/// The brace depth after the byte `b`, from depth `depth`.
pub open spec fn next_depth(depth: nat, b: u8) -> nat {
    if b == OPEN_BRACE {
        depth + 1
    } else if b == CLOSE_BRACE && depth > 0 {
        (depth - 1) as nat
    } else {
        depth
    }
}

/// The distance from `i` to the first occurrence of `key` at brace depth 0
/// (starting at depth `depth`), where neither a line break nor the `}` that
/// closes the enclosing object comes first.
pub open spec fn dist_to_key(t: Seq<u8>, i: int, key: Seq<u8>, depth: nat) -> Option<nat>
    decreases t.len() - i,
{
    if i < 0 || i >= t.len() {
        None
    } else if depth == 0 && key_at(t, i, key) {
        Some(0)
    } else if t[i] == NEWLINE || (t[i] == CLOSE_BRACE && depth == 0) {
        None
    } else {
        match dist_to_key(t, i + 1, key, next_depth(depth, t[i])) {
            Some(d) => Some(d + 1),
            None => None,
        }
    }
}

/// The distance from `i` to the first `,` or `}`, where no line break comes
/// first.
pub open spec fn dist_to_terminator(t: Seq<u8>, i: int) -> Option<nat>
    decreases t.len() - i,
{
    if i < 0 || i >= t.len() {
        None
    } else if is_terminator(t[i]) {
        Some(0)
    } else if t[i] == NEWLINE {
        None
    } else {
        match dist_to_terminator(t, i + 1) {
            Some(d) => Some(d + 1),
            None => None,
        }
    }
}

/// The lengths of the parts of a record: its version, the text between the
/// version's closing quote and the flag key, and its flag.
pub struct Shape {
    pub vers_len: nat,
    pub gap_len: nat,
    pub flag_len: nat,
}

impl Shape {
    /// Where the version starts, relative to the record's start.
    pub open spec fn vers_start(self) -> int {
        8
    }

    /// Where the flag starts, relative to the record's start.
    pub open spec fn flag_start(self) -> int {
        8 + self.vers_len as int + 1 + self.gap_len as int + 9
    }

    /// The number of bytes of the record, its terminator included.
    pub open spec fn width(self) -> int {
        self.flag_start() + self.flag_len as int + 1
    }
}

/// The record that starts at `p`, if one does: `"vers":"`, a version up to the
/// first quote, the shortest gap up to `"yanked":` that stays inside the
/// enclosing object (nested objects may open and close in it), and a flag up
/// to the first `,` or `}`, all on one line.
pub open spec fn record_at(t: Seq<u8>, p: int) -> Option<Shape> {
    if !key_at(t, p, vers_key()) {
        None
    } else {
        match dist_to_byte(t, p + 8, QUOTE) {
            None => None,
            Some(v) => match dist_to_key(t, p + 8 + v + 1, yanked_key(), 0) {
                None => None,
                Some(g) => match dist_to_terminator(t, p + 8 + v + 1 + g + 9) {
                    None => None,
                    Some(f) => Some(Shape { vers_len: v, gap_len: g, flag_len: f }),
                },
            },
        }
    }
}

/// The records of `t` from position `i` on, each with its start, in the order
/// of the text: the leftmost record, then the leftmost after its end, and so on.
pub open spec fn records_from(t: Seq<u8>, i: int) -> Seq<(int, Shape)>
    decreases t.len() - i,
{
    if i < 0 || i >= t.len() {
        seq![]
    } else {
        match record_at(t, i) {
            Some(s) => {
                let next = i + s.width();
                if next < t.len() {
                    seq![(i, s)] + records_from(t, next)
                } else {
                    seq![(i, s)]
                }
            },
            None => records_from(t, i + 1),
        }
    }
}

/// All records of a cache file, oldest first.
pub open spec fn records(t: Seq<u8>) -> Seq<(int, Shape)> {
    records_from(t, 0)
}

/// The version text of a record.
pub open spec fn version_of(t: Seq<u8>, r: (int, Shape)) -> Seq<u8> {
    t.subrange(r.0 + r.1.vers_start(), r.0 + r.1.vers_start() + r.1.vers_len)
}

/// The flag text of a record.
pub open spec fn flag_of(t: Seq<u8>, r: (int, Shape)) -> Seq<u8> {
    t.subrange(r.0 + r.1.flag_start(), r.0 + r.1.flag_start() + r.1.flag_len)
}

/// A record whose flag is exactly `false`.
pub open spec fn is_live(t: Seq<u8>, r: (int, Shape)) -> bool {
    flag_of(t, r) == live_flag()
}

/// The versions of the live records among `recs`, in the order of `recs`.
pub open spec fn live_versions(t: Seq<u8>, recs: Seq<(int, Shape)>) -> Seq<Seq<u8>>
    decreases recs.len(),
{
    if recs.len() == 0 {
        seq![]
    } else {
        let before = live_versions(t, recs.drop_last());
        if is_live(t, recs.last()) {
            before.push(version_of(t, recs.last()))
        } else {
            before
        }
    }
}

/// The live versions of a cache file, latest first.
pub open spec fn latest_first(t: Seq<u8>) -> Seq<Seq<u8>> {
    live_versions(t, records(t)).reverse()
}

/// `v` is the version of a live record among `recs`.
pub open spec fn from_live_record(t: Seq<u8>, recs: Seq<(int, Shape)>, v: Seq<u8>) -> bool {
    exists|j: int| 0 <= j < recs.len() && is_live(t, recs[j]) && version_of(t, recs[j]) == v
}

/// Every version among the live versions of `recs` is the version of a live
/// record of `recs`.
proof fn lemma_live_versions_come_from_live_records(t: Seq<u8>, recs: Seq<(int, Shape)>)
    ensures
        forall|k: int|
            0 <= k < live_versions(t, recs).len() ==> from_live_record(
                t,
                recs,
                #[trigger] live_versions(t, recs)[k],
            ),
    decreases recs.len(),
{
    if recs.len() > 0 {
        let rest = recs.drop_last();
        lemma_live_versions_come_from_live_records(t, rest);
        let before = live_versions(t, rest);
        let live = live_versions(t, recs);
        assert forall|k: int| 0 <= k < live.len() implies from_live_record(
            t,
            recs,
            #[trigger] live[k],
        ) by {
            if k < before.len() {
                assert(live[k] == before[k]);
                assert(from_live_record(t, rest, before[k]));
                let j = choose|j: int|
                    0 <= j < rest.len() && is_live(t, rest[j]) && version_of(t, rest[j])
                        == before[k];
                assert(rest[j] == recs[j]);
            } else {
                let j = recs.len() - 1;
                assert(recs[j] == recs.last());
            }
        }
    }
}

/// A withdrawn version is never reported: every version that a cache file
/// yields is the version of one of its records whose flag is exactly `false`.
pub proof fn withdrawn_never_reported(t: Seq<u8>)
    ensures
        forall|k: int|
            0 <= k < latest_first(t).len() ==> from_live_record(
                t,
                records(t),
                #[trigger] latest_first(t)[k],
            ),
{
    let live = live_versions(t, records(t));
    lemma_live_versions_come_from_live_records(t, records(t));
    assert forall|k: int| 0 <= k < latest_first(t).len() implies from_live_record(
        t,
        records(t),
        #[trigger] latest_first(t)[k],
    ) by {
        let i = live.len() - 1 - k;
        assert(latest_first(t)[k] == live[i]);
    }
}

/// The first version a cache file yields is the version of its last live
/// record: the one appended most recently.
pub proof fn first_is_latest(t: Seq<u8>)
    requires
        latest_first(t).len() > 0,
    ensures
        live_versions(t, records(t)).len() > 0,
        latest_first(t)[0] == live_versions(t, records(t)).last(),
{
}

/// `t` and `u` hold the same bytes below position `n`.
pub open spec fn agree_below(t: Seq<u8>, u: Seq<u8>, n: int) -> bool {
    &&& n <= t.len()
    &&& n <= u.len()
    &&& forall|k: int| 0 <= k < n ==> t[k] == u[k]
}

proof fn lemma_agree_dist_to_byte(t: Seq<u8>, u: Seq<u8>, i: int, b: u8)
    requires
        dist_to_byte(t, i, b) matches Some(d) && agree_below(t, u, i + d + 1),
    ensures
        dist_to_byte(u, i, b) == dist_to_byte(t, i, b),
    decreases t.len() - i,
{
    if 0 <= i < t.len() && t[i] != b {
        lemma_agree_dist_to_byte(t, u, i + 1, b);
    }
}

proof fn lemma_agree_dist_to_key(t: Seq<u8>, u: Seq<u8>, i: int, key: Seq<u8>, depth: nat)
    requires
        key.len() > 0,
        dist_to_key(t, i, key, depth) matches Some(d) && agree_below(t, u, i + d + key.len()),
    ensures
        dist_to_key(u, i, key, depth) == dist_to_key(t, i, key, depth),
    decreases t.len() - i,
{
    if 0 <= i < t.len() {
        assert(t[i] == u[i]);
        assert(t.subrange(i, i + key.len()) =~= u.subrange(i, i + key.len()));
        if !(depth == 0 && key_at(t, i, key)) {
            lemma_agree_dist_to_key(t, u, i + 1, key, next_depth(depth, t[i]));
        }
    }
}

proof fn lemma_agree_dist_to_terminator(t: Seq<u8>, u: Seq<u8>, i: int)
    requires
        dist_to_terminator(t, i) matches Some(d) && agree_below(t, u, i + d) && i + d < u.len()
            && is_terminator(u[i + d]),
    ensures
        dist_to_terminator(u, i) == dist_to_terminator(t, i),
    decreases t.len() - i,
{
    if 0 <= i < t.len() && !is_terminator(t[i]) {
        lemma_agree_dist_to_terminator(t, u, i + 1);
    }
}

/// A record does not depend on what follows its flag, nor on whether `,` or
/// `}` ends the flag: where `u` holds the bytes of `t` up to the end of the
/// flag of a record of `t`, and then a `,` or `}`, the same record stands in
/// `u`, with the same version and the same flag. So `"yanked":false}` reads as
/// `"yanked":false,"x":1}` does.
pub proof fn record_ignores_what_follows_its_flag(t: Seq<u8>, u: Seq<u8>, p: int)
    requires
        record_at(t, p) matches Some(s) && agree_below(t, u, p + s.flag_start() + s.flag_len)
            && p + s.flag_start() + s.flag_len < u.len() && is_terminator(
            u[p + s.flag_start() + s.flag_len],
        ),
    ensures
        record_at(u, p) == record_at(t, p),
        version_of(u, (p, record_at(t, p)->Some_0)) == version_of(t, (p, record_at(t, p)->Some_0)),
        flag_of(u, (p, record_at(t, p)->Some_0)) == flag_of(t, (p, record_at(t, p)->Some_0)),
{
    let s = record_at(t, p)->Some_0;
    let v = s.vers_len as int;
    let g = s.gap_len as int;
    assert(t.subrange(p, p + 8) =~= u.subrange(p, p + 8));
    lemma_agree_dist_to_byte(t, u, p + 8, QUOTE);
    lemma_agree_dist_to_key(t, u, p + 8 + v + 1, yanked_key(), 0);
    lemma_agree_dist_to_terminator(t, u, p + 8 + v + 1 + g + 9);
    assert(version_of(u, (p, s)) =~= version_of(t, (p, s)));
    assert(flag_of(u, (p, s)) =~= flag_of(t, (p, s)));
}

/// A distance found by an executable scan, as the spec functions give it.
pub open spec fn found(r: Option<usize>) -> Option<nat> {
    match r {
        Some(d) => Some(d as nat),
        None => None,
    }
}

/// A distance measured from `k` bytes further on, measured from here instead.
pub open spec fn shifted(o: Option<nat>, k: int) -> Option<nat> {
    match o {
        Some(d) => Some((d + k) as nat),
        None => None,
    }
}

/// Whether `key` stands in `t` at position `p`.
pub(crate) fn key_matches(t: &[u8], p: usize, key: &[u8]) -> (r: bool)
    ensures
        r == key_at(t@, p as int, key@),
{
    if key.len() > t.len() || p > t.len() - key.len() {
        return false;
    }
    let mut k: usize = 0;
    while k < key.len()
        invariant
            k <= key@.len(),
            p + key@.len() <= t.len(),
            forall|m: int| 0 <= m < k ==> t@[p + m] == key@[m],
        decreases key@.len() - k,
    {
        if t[p + k] != key[k] {
            assert(t@.subrange(p as int, p + key@.len())[k as int] != key@[k as int]);
            return false;
        }
        k += 1;
    }
    assert(t@.subrange(p as int, p + key@.len()) =~= key@);
    true
}

/// The distance from `i` to the first `b` on the line.
fn scan_to_byte(t: &[u8], i: usize, b: u8) -> (r: Option<usize>)
    requires
        i <= t.len(),
    ensures
        found(r) == dist_to_byte(t@, i as int, b),
        r matches Some(d) ==> i + d < t.len() && t@[i + d] == b,
{
    let mut j: usize = i;
    while j < t.len()
        invariant
            i <= j <= t.len(),
            dist_to_byte(t@, i as int, b) == shifted(dist_to_byte(t@, j as int, b), j - i),
        decreases t.len() - j,
    {
        if t[j] == b {
            return Some(j - i);
        }
        if t[j] == NEWLINE {
            return None;
        }
        j += 1;
    }
    None
}

/// The distance from `i` to the first occurrence of `key` on the line that
/// lies in the same object as `i`.
fn scan_to_key(t: &[u8], i: usize, key: &[u8]) -> (r: Option<usize>)
    requires
        i <= t.len(),
    ensures
        found(r) == dist_to_key(t@, i as int, key@, 0),
        r matches Some(d) ==> i + d + key@.len() <= t.len(),
{
    let mut j: usize = i;
    let mut depth: usize = 0;
    while j < t.len()
        invariant
            i <= j <= t.len(),
            depth <= j - i,
            dist_to_key(t@, i as int, key@, 0) == shifted(
                dist_to_key(t@, j as int, key@, depth as nat),
                j - i,
            ),
        decreases t.len() - j,
    {
        if depth == 0 && key_matches(t, j, key) {
            return Some(j - i);
        }
        if t[j] == NEWLINE || (t[j] == CLOSE_BRACE && depth == 0) {
            return None;
        }
        if t[j] == OPEN_BRACE {
            depth = depth + 1;
        } else if t[j] == CLOSE_BRACE {
            depth = depth - 1;
        }
        j += 1;
    }
    None
}

/// The distance from `i` to the first `,` or `}` on the line.
fn scan_to_terminator(t: &[u8], i: usize) -> (r: Option<usize>)
    requires
        i <= t.len(),
    ensures
        found(r) == dist_to_terminator(t@, i as int),
        r matches Some(d) ==> i + d < t.len(),
{
    let mut j: usize = i;
    while j < t.len()
        invariant
            i <= j <= t.len(),
            dist_to_terminator(t@, i as int) == shifted(dist_to_terminator(t@, j as int), j - i),
        decreases t.len() - j,
    {
        if t[j] == COMMA || t[j] == CLOSE_BRACE {
            return Some(j - i);
        }
        if t[j] == NEWLINE {
            return None;
        }
        j += 1;
    }
    None
}

/// The shape of the record that starts at `p`, as lengths of its version, its
/// gap and its flag.
fn find_record(t: &[u8], p: usize) -> (r: Option<(usize, usize, usize)>)
    requires
        p <= t.len(),
    ensures
        r matches Some((v, g, f)) ==> record_at(t@, p as int) == Some(
            Shape { vers_len: v as nat, gap_len: g as nat, flag_len: f as nat },
        ) && p + 8 + v + 1 + g + 9 + f < t.len() && t@[p + 7] == QUOTE && t@[p + 8 + v]
            == QUOTE,
        r is None ==> record_at(t@, p as int) is None,
{
    let vers: [u8; 8] = [34, 118, 101, 114, 115, 34, 58, 34];
    let yanked: [u8; 9] = [34, 121, 97, 110, 107, 101, 100, 34, 58];
    assert(vers@ =~= vers_key());
    assert(yanked@ =~= yanked_key());
    if !key_matches(t, p, vers.as_slice()) {
        return None;
    }
    assert(t@.subrange(p as int, p + 8)[7] == QUOTE);
    let v = match scan_to_byte(t, p + 8, QUOTE) {
        Some(v) => v,
        None => return None,
    };
    let g = match scan_to_key(t, p + 8 + v + 1, yanked.as_slice()) {
        Some(g) => g,
        None => return None,
    };
    let f = match scan_to_terminator(t, p + 8 + v + 1 + g + 9) {
        Some(f) => f,
        None => return None,
    };
    Some((v, g, f))
}

/// Whether the flag of `len` bytes at `start` is exactly `false`.
fn flag_is_live(t: &[u8], start: usize, len: usize) -> (r: bool)
    requires
        start + len <= t.len(),
    ensures
        r == (t@.subrange(start as int, start + len) == live_flag()),
{
    let live: [u8; 5] = [102, 97, 108, 115, 101];
    assert(live@ =~= live_flag());
    len == 5 && key_matches(t, start, live.as_slice())
}

/// In valid UTF-8, the byte after a leading ASCII byte starts a character.
proof fn lemma_boundary_after_ascii(b: Seq<u8>)
    requires
        valid_utf8(b),
        b.len() >= 1,
        b[0] < 128,
    ensures
        is_char_boundary(b, 1),
{
    reveal_with_fuel(is_char_boundary, 2);
}

/// The text of `content` from `a` to `b`, where a quote stands just before `a`
/// and at `b`.
fn quoted_text(content: &str, a: usize, b: usize) -> (r: String)
    requires
        1 <= a <= b < content.spec_bytes().len(),
        content.spec_bytes()[a - 1] == QUOTE,
        content.spec_bytes()[b as int] == QUOTE,
    ensures
        encode_utf8(r@) == content.spec_bytes().subrange(a as int, b as int),
{
    proof {
        encode_utf8_valid_utf8(content@);
        is_char_boundary_iff_not_is_continuation_byte(content.spec_bytes(), a - 1);
    }
    let (_, tail) = content.split_at(a - 1);
    proof {
        encode_utf8_valid_utf8(tail@);
        assert(tail.spec_bytes()[0] == QUOTE);
        lemma_boundary_after_ascii(tail.spec_bytes());
    }
    let (_, rest) = tail.split_at(1);
    proof {
        encode_utf8_valid_utf8(rest@);
        assert(rest.spec_bytes()[b - a] == QUOTE);
        is_char_boundary_iff_not_is_continuation_byte(rest.spec_bytes(), (b - a) as int);
    }
    let (v, _) = rest.split_at(b - a);
    assert(v.spec_bytes() =~= content.spec_bytes().subrange(a as int, b as int));
    v.to_owned()
}

/// The live versions of a cache file, latest first: the version of every
/// record whose flag is exactly `false`, in the reverse of their order in the
/// text.
pub fn extract_versions(content: &str) -> (r: Vec<String>)
    ensures
        r@.map_values(|v: String| encode_utf8(v@)) == latest_first(content.spec_bytes()),
{
    let t = content.as_bytes();
    let mut spans: Vec<(usize, usize)> = Vec::new();
    let mut i: usize = 0;
    let ghost mut seen: Seq<(int, Shape)> = seq![];
    while i < t.len()
        invariant
            t@ == content.spec_bytes(),
            i <= t.len(),
            seen + records_from(t@, i as int) == records(t@),
            spans@.len() == live_versions(t@, seen).len(),
            forall|k: int|
                0 <= k < spans@.len() ==> {
                    let (a, b) = #[trigger] spans@[k];
                    &&& 1 <= a <= b < t.len()
                    &&& t@[a - 1] == QUOTE
                    &&& t@[b as int] == QUOTE
                    &&& t@.subrange(a as int, b as int) == live_versions(t@, seen)[k]
                },
        decreases t.len() - i,
    {
        match find_record(t, i) {
            Some((v, g, f)) => {
                let ghost rec = (i as int, Shape { vers_len: v as nat, gap_len: g as nat, flag_len: f as nat });
                let ghost before = seen;
                let next = i + 8 + v + 1 + g + 9 + f + 1;
                proof {
                    if next >= t.len() {
                        assert(records_from(t@, next as int) =~= seq![]);
                    }
                    assert(records_from(t@, i as int) =~= seq![rec] + records_from(t@, next as int));
                    assert(seen.push(rec) + records_from(t@, next as int) =~= seen + records_from(t@, i as int));
                    seen = seen.push(rec);
                    assert(seen.drop_last() =~= before);
                }
                if flag_is_live(t, i + 8 + v + 1 + g + 9, f) {
                    spans.push((i + 8, i + 8 + v));
                }
                i = next;
            },
            None => {
                i = i + 1;
            },
        }
    }
    assert(seen =~= records(t@));
    let ghost live = live_versions(t@, seen);
    let mut r: Vec<String> = Vec::new();
    let mut k: usize = spans.len();
    while k > 0
        invariant
            t@ == content.spec_bytes(),
            k <= spans@.len(),
            spans@.len() == live.len(),
            r@.len() == spans@.len() - k,
            forall|m: int|
                0 <= m < spans@.len() ==> {
                    let (a, b) = #[trigger] spans@[m];
                    &&& 1 <= a <= b < t.len()
                    &&& t@[a - 1] == QUOTE
                    &&& t@[b as int] == QUOTE
                    &&& t@.subrange(a as int, b as int) == live[m]
                },
            forall|m: int| 0 <= m < r@.len() ==> encode_utf8(#[trigger] r@[m]@) == live[live.len() - 1 - m],
        decreases k,
    {
        k -= 1;
        let (a, b) = spans[k];
        r.push(quoted_text(content, a, b));
    }
    assert(r@.map_values(|v: String| encode_utf8(v@)) =~= live.reverse());
    r
}

} // verus!
