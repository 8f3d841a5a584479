//! Working directories reported through OSC 7 as `file://host/path` URIs.

use vstd::prelude::*;
use vstd::string::StringSliceAdditionalSpecFns;

verus! {

/// An ASCII letter in lower case; other bytes stay.
pub open spec fn ascii_lower(b: u8) -> u8 {
    if 65 <= b <= 90 {
        (b + 32) as u8
    } else {
        b
    }
}

/// Equal bytes, ASCII letters compared without case.
pub open spec fn eq_ignore_case(a: Seq<u8>, b: Seq<u8>) -> bool {
    a.len() == b.len() && forall|i: int| 0 <= i < a.len() ==> ascii_lower(#[trigger] a[i])
        == ascii_lower(b[i])
}

pub open spec fn is_hex_digit(b: u8) -> bool {
    (48 <= b <= 57) || (65 <= b <= 70) || (97 <= b <= 102)
}

pub open spec fn hex_value(b: u8) -> int {
    if 48 <= b <= 57 {
        b - 48
    } else if 65 <= b <= 70 {
        b - 55
    } else {
        b - 87
    }
}

/// Percent-decoding: `%` followed by two hexadecimal digits stands for the byte they encode;
/// every other byte stands for itself.
pub open spec fn percent_decoded(s: Seq<u8>) -> Seq<u8>
    decreases s.len(),
{
    if s.len() == 0 {
        Seq::empty()
    } else if s[0] == 37 && s.len() >= 3 && is_hex_digit(s[1]) && is_hex_digit(s[2]) {
        seq![(hex_value(s[1]) * 16 + hex_value(s[2])) as u8] + percent_decoded(s.skip(3))
    } else {
        seq![s[0]] + percent_decoded(s.skip(1))
    }
}

/// First index at or after `from` where `pattern` occurs in `s`.
pub open spec fn find_from(s: Seq<u8>, pattern: Seq<u8>, from: int) -> Option<int>
    decreases s.len() + 1 - from,
{
    if from < 0 || from + pattern.len() > s.len() {
        None
    } else if s.subrange(from, from + pattern.len()) == pattern {
        Some(from)
    } else {
        find_from(s, pattern, from + 1)
    }
}

/// `://`, between the scheme and the location of a URI.
pub open spec fn scheme_separator() -> Seq<u8> {
    seq![58u8, 47u8, 47u8]
}

pub open spec fn file_scheme() -> Seq<u8> {
    seq![102u8, 105u8, 108u8, 101u8]
}

pub open spec fn localhost() -> Seq<u8> {
    seq![108u8, 111u8, 99u8, 97u8, 108u8, 104u8, 111u8, 115u8, 116u8]
}

/// A byte which cannot stand in a local path of a URI: an ASCII control character, `?` and `#`
/// which start a query or fragment, and a backslash.
pub open spec fn forbidden_in_path(b: u8) -> bool {
    b < 32 || b == 127 || b == 63 || b == 35 || b == 92
}

/// Every `%` in `path` starts an escape of two hexadecimal digits.
pub open spec fn escapes_well_formed(path: Seq<u8>) -> bool {
    forall|j: int|
        0 <= j < path.len() && #[trigger] path[j] == 37 ==> j + 2 < path.len() && is_hex_digit(
            path[j + 1],
        ) && is_hex_digit(path[j + 2])
}

/// The host names that a local path URI may carry: none, `localhost`, or the name of this
/// machine, ASCII letters compared without case.
pub open spec fn local_host(host: Seq<u8>, hostname: Seq<u8>) -> bool {
    host.len() == 0 || eq_ignore_case(host, localhost()) || eq_ignore_case(host, hostname)
}

/// The local path of a path, percent-decoded, or nothing when the path holds a query, a
/// fragment, a backslash, a control character or a malformed escape, or when it decodes to a
/// path with a NUL byte or one that starts with `//`.
pub open spec fn decoded_path(path: Seq<u8>) -> Option<Seq<u8>> {
    if exists|j: int| 0 <= j < path.len() && forbidden_in_path(#[trigger] path[j]) {
        None
    } else if !escapes_well_formed(path) {
        None
    } else {
        let decoded = percent_decoded(path);
        if decoded.contains(0) || (decoded.len() >= 2 && decoded[0] == 47 && decoded[1] == 47) {
            None
        } else if decoded.len() > 0 && decoded[0] == 47 {
            Some(decoded)
        } else {
            None
        }
    }
}

/// The local path of a `file://` URI on the machine named `hostname`.
pub open spec fn local_path_of(uri: Seq<u8>, hostname: Seq<u8>) -> Option<Seq<u8>> {
    match find_from(uri, scheme_separator(), 0) {
        None => None,
        Some(i) => {
            let scheme = uri.subrange(0, i);
            let location = uri.subrange(i + 3, uri.len() as int);
            if !eq_ignore_case(scheme, file_scheme()) {
                None
            } else {
                match find_from(location, seq![47u8], 0) {
                    None => None,
                    Some(p) => {
                        let host = location.subrange(0, p);
                        let path = location.subrange(p, location.len() as int);
                        if !local_host(host, hostname) {
                            None
                        } else {
                            decoded_path(path)
                        }
                    },
                }
            }
        },
    }
}

/// A converted path is absolute, holds no NUL byte and never names a network share: it starts
/// with one `/`, not two.
pub proof fn lemma_local_path_absolute(uri: Seq<u8>, hostname: Seq<u8>)
    ensures
        local_path_of(uri, hostname) matches Some(p) ==> {
            &&& p.len() >= 1
            &&& p[0] == 47
            &&& !(p.len() >= 2 && p[1] == 47)
            &&& forall|j: int| 0 <= j < p.len() ==> #[trigger] p[j] != 0
        },
{
    if let Some(p) = local_path_of(uri, hostname) {
        assert forall|j: int| 0 <= j < p.len() implies #[trigger] p[j] != 0 by {
            if p[j] == 0 {
                assert(p.contains(0));
            }
        }
    }
}

/// A match found by `find_from` is an occurrence of the pattern at or after the start.
proof fn lemma_find_from(s: Seq<u8>, pattern: Seq<u8>, from: int)
    ensures
        find_from(s, pattern, from) matches Some(i) ==> from <= i && i + pattern.len() <= s.len()
            && s.subrange(i, i + pattern.len()) == pattern,
    decreases s.len() + 1 - from,
{
    if !(from < 0 || from + pattern.len() > s.len()) && s.subrange(from, from + pattern.len())
        != pattern {
        lemma_find_from(s, pattern, from + 1);
    }
}

/// Remote hosts are not interpreted as local paths: a URI converts only when its scheme is
/// `file` and the host between `://` and the path is empty, `localhost` or this machine's name.
pub proof fn lemma_local_path_is_local(uri: Seq<u8>, hostname: Seq<u8>)
    ensures
        local_path_of(uri, hostname) is Some ==> exists|i: int, p: int|
            0 <= i && i + 3 <= p < uri.len() && #[trigger] uri.subrange(i, i + 3)
                == scheme_separator() && eq_ignore_case(uri.subrange(0, i), file_scheme())
                && uri[p] == 47 && local_host(#[trigger] uri.subrange(i + 3, p), hostname),
{
    if let Some(i) = find_from(uri, scheme_separator(), 0) {
        lemma_find_from(uri, scheme_separator(), 0);
        let location = uri.subrange(i + 3, uri.len() as int);
        if let Some(p) = find_from(location, seq![47u8], 0) {
            lemma_find_from(location, seq![47u8], 0);
            if local_path_of(uri, hostname) is Some {
                assert(location.subrange(p, p + 1)[0] == location[p]);
                assert(uri.subrange(i + 3, i + 3 + p) == location.subrange(0, p));
                assert(uri[i + 3 + p] == 47);
            }
        }
    }
}

pub open spec fn is_ascii_alphanumeric(b: u8) -> bool {
    (48 <= b <= 57) || is_ascii_alphabetic(b)
}

/// The upper-case hexadecimal digit of a value below 16.
pub open spec fn hex_upper(d: int) -> u8 {
    if d < 10 {
        (48 + d) as u8
    } else {
        (55 + d) as u8
    }
}

/// Percent-encoding of every byte that is not an ASCII letter or digit, as `%` and two
/// upper-case hexadecimal digits.
pub open spec fn percent_encoded(s: Seq<u8>) -> Seq<u8>
    decreases s.len(),
{
    if s.len() == 0 {
        Seq::empty()
    } else if is_ascii_alphanumeric(s[0]) {
        seq![s[0]] + percent_encoded(s.skip(1))
    } else {
        seq![37u8, hex_upper((s[0] / 16) as int), hex_upper((s[0] % 16) as int)]
            + percent_encoded(s.skip(1))
    }
}

/// An encoded path holds no byte that a path may not hold, and each of its `%` starts an escape.
proof fn lemma_percent_encoded_clean(s: Seq<u8>)
    ensures
        forall|j: int|
            0 <= j < percent_encoded(s).len() ==> !forbidden_in_path(#[trigger] percent_encoded(s)[j]),
        escapes_well_formed(percent_encoded(s)),
    decreases s.len(),
{
    if s.len() > 0 {
        let rest = percent_encoded(s.skip(1));
        lemma_percent_encoded_clean(s.skip(1));
        let head = if is_ascii_alphanumeric(s[0]) {
            seq![s[0]]
        } else {
            seq![37u8, hex_upper((s[0] / 16) as int), hex_upper((s[0] % 16) as int)]
        };
        let e = percent_encoded(s);
        assert(e == head + rest);
        assert forall|j: int| 0 <= j < e.len() implies !forbidden_in_path(#[trigger] e[j]) by {
            if j >= head.len() {
                assert(e[j] == rest[j - head.len()]);
            }
        }
        assert forall|j: int| 0 <= j < e.len() && #[trigger] e[j] == 37 implies j + 2 < e.len()
            && is_hex_digit(e[j + 1]) && is_hex_digit(e[j + 2]) by {
            if j >= head.len() {
                assert(e[j] == rest[j - head.len()]);
                assert(rest[j - head.len()] == 37);
                assert(e[j + 1] == rest[j - head.len() + 1]);
                assert(e[j + 2] == rest[j - head.len() + 2]);
            }
        }
    }
}

/// Decoding undoes the encoding.
proof fn lemma_percent_round_trip(s: Seq<u8>)
    ensures
        percent_decoded(percent_encoded(s)) == s,
    decreases s.len(),
{
    if s.len() > 0 {
        let rest = percent_encoded(s.skip(1));
        lemma_percent_round_trip(s.skip(1));
        let e = percent_encoded(s);
        if is_ascii_alphanumeric(s[0]) {
            assert(e.skip(1) =~= rest);
        } else {
            let b = s[0];
            assert(hex_value(hex_upper((b / 16) as int)) == b / 16);
            assert(hex_value(hex_upper((b % 16) as int)) == b % 16);
            assert((b / 16) * 16 + b % 16 == b);
            assert(e.skip(3) =~= rest);
        }
        assert(seq![s[0]] + s.skip(1) =~= s);
    }
}

/// A local absolute path, percent-encoded after its first `/` into a `file:///` URI, converts
/// back to itself on every machine.
pub proof fn lemma_local_path_round_trip(p: Seq<u8>, hostname: Seq<u8>)
    requires
        p.len() >= 1,
        p[0] == 47,
        !(p.len() >= 2 && p[1] == 47),
        !p.contains(0),
    ensures
        local_path_of(
            seq![102u8, 105u8, 108u8, 101u8, 58u8, 47u8, 47u8, 47u8] + percent_encoded(p.skip(1)),
            hostname,
        ) == Some(p),
{
    let enc = percent_encoded(p.skip(1));
    let uri = seq![102u8, 105u8, 108u8, 101u8, 58u8, 47u8, 47u8, 47u8] + enc;
    let sep = scheme_separator();
    assert(uri.subrange(0, 3) != sep) by {
        assert(uri.subrange(0, 3)[0] == 102);
    }
    assert(uri.subrange(1, 4) != sep) by {
        assert(uri.subrange(1, 4)[0] == 105);
    }
    assert(uri.subrange(2, 5) != sep) by {
        assert(uri.subrange(2, 5)[0] == 108);
    }
    assert(uri.subrange(3, 6) != sep) by {
        assert(uri.subrange(3, 6)[0] == 101);
    }
    assert(uri.subrange(4, 7) =~= sep);
    assert(find_from(uri, sep, 4) == Some(4int));
    assert(find_from(uri, sep, 3) == Some(4int));
    assert(find_from(uri, sep, 2) == Some(4int));
    assert(find_from(uri, sep, 1) == Some(4int));
    assert(find_from(uri, sep, 0) == Some(4int));
    assert(uri.subrange(0, 4) =~= file_scheme());
    let location = uri.subrange(7, uri.len() as int);
    let path = seq![47u8] + enc;
    assert(location =~= path);
    assert(location.subrange(0, 1) =~= seq![47u8]);
    assert(find_from(location, seq![47u8], 0) == Some(0int));
    assert(location.subrange(0, 0) =~= Seq::<u8>::empty());
    assert(location.subrange(0, location.len() as int) =~= path);
    lemma_percent_encoded_clean(p.skip(1));
    assert forall|j: int| 0 <= j < path.len() implies !forbidden_in_path(#[trigger] path[j]) by {
        if j > 0 {
            assert(path[j] == enc[j - 1]);
        }
    }
    assert(escapes_well_formed(path)) by {
        assert forall|j: int| 0 <= j < path.len() && #[trigger] path[j] == 37 implies j + 2
            < path.len() && is_hex_digit(path[j + 1]) && is_hex_digit(path[j + 2]) by {
            assert(j > 0);
            assert(path[j] == enc[j - 1]);
            assert(path[j + 1] == enc[j]);
            assert(path[j + 2] == enc[j + 1]);
        }
    }
    lemma_percent_round_trip(p.skip(1));
    assert(path.skip(1) =~= enc);
    assert(percent_decoded(path) == seq![47u8] + percent_decoded(enc));
    assert(seq![47u8] + p.skip(1) =~= p);
}

/// A byte that a URI path may hold as it is: an ASCII letter or digit, `/`, or one of the
/// unreserved `-`, `.`, `_` and `~`.
pub open spec fn is_plain_path_byte(b: u8) -> bool {
    is_ascii_alphanumeric(b) || b == 47 || b == 45 || b == 46 || b == 95 || b == 126
}

/// Decoding a path without `%` gives it back.
proof fn lemma_percent_decoded_plain(s: Seq<u8>)
    requires
        forall|i: int| 0 <= i < s.len() ==> #[trigger] s[i] != 37,
    ensures
        percent_decoded(s) == s,
    decreases s.len(),
{
    if s.len() > 0 {
        lemma_percent_decoded_plain(s.skip(1));
        assert(seq![s[0]] + s.skip(1) =~= s);
    }
}

/// The first `/` at or after `from` is at `k` when none stands before it.
proof fn lemma_find_slash_at(s: Seq<u8>, from: int, k: int)
    requires
        0 <= from <= k < s.len(),
        s[k] == 47,
        forall|i: int| from <= i < k ==> #[trigger] s[i] != 47,
    ensures
        find_from(s, seq![47u8], from) == Some(k),
    decreases k - from,
{
    if from == k {
        assert(s.subrange(k, k + 1) =~= seq![47u8]);
    } else {
        assert(s.subrange(from, from + 1)[0] == s[from]);
        assert(s.subrange(from, from + 1) != seq![47u8]);
        lemma_find_slash_at(s, from + 1, k);
    }
}

/// `file://` (or `file://localhost`) followed by an absolute path of plain bytes names exactly
/// that path, on every machine.
pub proof fn lemma_plain_path_converts(p: Seq<u8>, hostname: Seq<u8>)
    requires
        p.len() >= 1,
        p[0] == 47,
        !(p.len() >= 2 && p[1] == 47),
        forall|i: int| 0 <= i < p.len() ==> is_plain_path_byte(#[trigger] p[i]),
    ensures
        local_path_of(seq![102u8, 105u8, 108u8, 101u8, 58u8, 47u8, 47u8] + p, hostname) == Some(p),
        local_path_of(
            seq![102u8, 105u8, 108u8, 101u8, 58u8, 47u8, 47u8] + localhost() + p,
            hostname,
        ) == Some(p),
{
    let sep = scheme_separator();
    assert forall|j: int| 0 <= j < p.len() implies !forbidden_in_path(#[trigger] p[j]) by {
        assert(is_plain_path_byte(p[j]));
    }
    assert forall|i: int| 0 <= i < p.len() implies #[trigger] p[i] != 37 by {
        assert(is_plain_path_byte(p[i]));
    }
    assert(escapes_well_formed(p));
    lemma_percent_decoded_plain(p);
    assert(!p.contains(0)) by {
        if p.contains(0) {
            let i = choose|i: int| 0 <= i < p.len() && p[i] == 0;
            assert(is_plain_path_byte(p[i]));
        }
    }
    assert(decoded_path(p) == Some(p));
    let prefix = seq![102u8, 105u8, 108u8, 101u8, 58u8, 47u8, 47u8];
    let hosts = seq![Seq::<u8>::empty(), localhost()];
    assert forall|h: int| 0 <= h < 2 implies local_path_of(prefix + hosts[h] + p, hostname) == Some(
        p,
    ) by {
        let host = hosts[h];
        let uri = prefix + host + p;
        assert(uri.subrange(0, 3) != sep) by {
            assert(uri.subrange(0, 3)[0] == 102);
        }
        assert(uri.subrange(1, 4) != sep) by {
            assert(uri.subrange(1, 4)[0] == 105);
        }
        assert(uri.subrange(2, 5) != sep) by {
            assert(uri.subrange(2, 5)[0] == 108);
        }
        assert(uri.subrange(3, 6) != sep) by {
            assert(uri.subrange(3, 6)[0] == 101);
        }
        assert(uri.subrange(4, 7) =~= sep);
        assert(find_from(uri, sep, 4) == Some(4int));
        assert(find_from(uri, sep, 3) == Some(4int));
        assert(find_from(uri, sep, 2) == Some(4int));
        assert(find_from(uri, sep, 1) == Some(4int));
        assert(find_from(uri, sep, 0) == Some(4int));
        assert(uri.subrange(0, 4) =~= file_scheme());
        let location = uri.subrange(7, uri.len() as int);
        assert(location =~= host + p);
        assert(location[host.len() as int] == 47);
        assert forall|i: int| 0 <= i < host.len() implies #[trigger] location[i] != 47 by {
            assert(location[i] == host[i]);
        }
        lemma_find_slash_at(location, 0, host.len() as int);
        assert(location.subrange(0, host.len() as int) =~= host);
        assert(location.subrange(host.len() as int, location.len() as int) =~= p);
        assert(local_host(host, hostname)) by {
            if h == 1 {
                assert(eq_ignore_case(host, localhost()));
            }
        }
    }
    assert(prefix + hosts[0] + p =~= prefix + p);
    assert(prefix + hosts[1] + p =~= prefix + localhost() + p);
}

/// A URI which names a local path whatever the machine is called, because its host is empty or
/// `localhost`, names the same path on every machine.
pub proof fn lemma_local_path_any_machine(uri: Seq<u8>, hostname: Seq<u8>)
    requires
        local_path_of(uri, Seq::empty()) is Some,
    ensures
        local_path_of(uri, hostname) == local_path_of(uri, Seq::empty()),
{
}

/// The bytes of an optional vector.
pub open spec fn bytes_of(v: Option<Vec<u8>>) -> Option<Seq<u8>> {
    match v {
        Some(v) => Some(v@),
        None => None,
    }
}


fn to_lower(b: u8) -> (r: u8)
    ensures
        r == ascii_lower(b),
{
    if 65 <= b && b <= 90 {
        b + 32
    } else {
        b
    }
}

fn hex_digit(b: u8) -> (r: bool)
    ensures
        r == is_hex_digit(b),
{
    (48 <= b && b <= 57) || (65 <= b && b <= 70) || (97 <= b && b <= 102)
}

/// Whether two byte strings are equal, ASCII letters compared without case.
fn equal_ignoring_case(a: &[u8], b: &[u8]) -> (r: bool)
    ensures
        r == eq_ignore_case(a@, b@),
{
    if a.len() != b.len() {
        return false;
    }
    let mut i: usize = 0;
    while i < a.len()
        invariant
            a@.len() == b@.len(),
            i <= a@.len(),
            forall|k: int| 0 <= k < i ==> ascii_lower(#[trigger] a@[k]) == ascii_lower(b@[k]),
        decreases a@.len() - i,
    {
        if to_lower(a[i]) != to_lower(b[i]) {
            return false;
        }
        i = i + 1;
    }
    true
}

fn equal_file(scheme: &[u8]) -> (r: bool)
    ensures
        r == eq_ignore_case(scheme@, file_scheme()),
{
    let file: [u8; 4] = [102u8, 105u8, 108u8, 101u8];
    assert(file@ =~= file_scheme());
    equal_ignoring_case(scheme, file.as_slice())
}


fn equal_localhost(host: &[u8]) -> (r: bool)
    ensures
        r == eq_ignore_case(host@, localhost()),
{
    let name: [u8; 9] = [108u8, 111u8, 99u8, 97u8, 108u8, 104u8, 111u8, 115u8, 116u8];
    assert(name@ =~= localhost());
    equal_ignoring_case(host, name.as_slice())
}

/// Position of the first `://`.
fn find_separator(s: &[u8]) -> (r: Option<usize>)
    ensures
        r matches Some(i) ==> i + 3 <= s@.len(),
        match r {
            Some(i) => find_from(s@, scheme_separator(), 0) == Some(i as int),
            None => find_from(s@, scheme_separator(), 0) is None,
        },
{
    let mut i: usize = 0;
    while i < s.len() && s.len() - i >= 3
        invariant
            find_from(s@, scheme_separator(), 0) == find_from(s@, scheme_separator(), i as int),
        decreases s@.len() - i,
    {
        if s[i] == 58 && s[i + 1] == 47 && s[i + 2] == 47 {
            assert(s@.subrange(i as int, i + 3) =~= scheme_separator());
            return Some(i);
        }
        assert(s@.subrange(i as int, i + 3)[0] == s@[i as int]);
        assert(s@.subrange(i as int, i + 3)[1] == s@[i + 1]);
        assert(s@.subrange(i as int, i + 3)[2] == s@[i + 2]);
        assert(s@.subrange(i as int, i + 3) != scheme_separator());
        i = i + 1;
    }
    None
}

/// Position of the first `/`.
fn find_slash(s: &[u8]) -> (r: Option<usize>)
    ensures
        r matches Some(i) ==> i < s@.len(),
        match r {
            Some(i) => find_from(s@, seq![47u8], 0) == Some(i as int),
            None => find_from(s@, seq![47u8], 0) is None,
        },
{
    let mut i: usize = 0;
    while i < s.len()
        invariant
            find_from(s@, seq![47u8], 0) == find_from(s@, seq![47u8], i as int),
        decreases s@.len() - i,
    {
        if s[i] == 47 {
            assert(s@.subrange(i as int, i + 1) =~= seq![47u8]);
            return Some(i);
        }
        assert(s@.subrange(i as int, i + 1)[0] == s@[i as int]);
        assert(s@.subrange(i as int, i + 1) != seq![47u8]);
        i = i + 1;
    }
    None
}

/// Whether a path holds a byte that cannot stand in a local path.
fn has_forbidden_byte(path: &[u8]) -> (r: bool)
    ensures
        r == exists|j: int| 0 <= j < path@.len() && forbidden_in_path(#[trigger] path@[j]),
{
    let mut i: usize = 0;
    while i < path.len()
        invariant
            i <= path@.len(),
            forall|k: int| 0 <= k < i ==> !forbidden_in_path(#[trigger] path@[k]),
        decreases path@.len() - i,
    {
        let b = path[i];
        if b < 32 || b == 127 || b == 63 || b == 35 || b == 92 {
            return true;
        }
        i = i + 1;
    }
    false
}

/// Whether every `%` of a path starts an escape of two hexadecimal digits.
fn has_well_formed_escapes(path: &[u8]) -> (r: bool)
    ensures
        r == escapes_well_formed(path@),
{
    let mut i: usize = 0;
    while i < path.len()
        invariant
            i <= path@.len(),
            forall|k: int|
                0 <= k < i && #[trigger] path@[k] == 37 ==> k + 2 < path@.len() && is_hex_digit(
                    path@[k + 1],
                ) && is_hex_digit(path@[k + 2]),
        decreases path@.len() - i,
    {
        if path[i] == 37 {
            if path.len() - i <= 2 || !hex_digit(path[i + 1]) || !hex_digit(path[i + 2]) {
                return false;
            }
        }
        i = i + 1;
    }
    true
}

/// Whether a path holds a NUL byte or starts with `//`.
fn unusable_decoded(path: &Vec<u8>) -> (r: bool)
    ensures
        r == (path@.contains(0) || (path@.len() >= 2 && path@[0] == 47 && path@[1] == 47)),
{
    if path.len() >= 2 && path[0] == 47 && path[1] == 47 {
        return true;
    }
    let mut i: usize = 0;
    while i < path.len()
        invariant
            i <= path@.len(),
            forall|k: int| 0 <= k < i ==> #[trigger] path@[k] != 0,
        decreases path@.len() - i,
    {
        if path[i] == 0 {
            return true;
        }
        i = i + 1;
    }
    false
}

/// `percent_encoding::percent_decode`, collected: every `%` followed by two hexadecimal digits
/// becomes the byte they encode, every other byte stays.
#[verifier::external_body]
fn percent_decode(bytes: &[u8]) -> (decoded: Vec<u8>)
    ensures
        decoded@ == percent_decoded(bytes@),
{
    percent_encoding::percent_decode(bytes).collect()
}

/// Convert a local file URI without resolving host aliases or accessing remote filesystems.
///
/// The URI names a local path when its scheme is `file`, its host is empty, `localhost` or
/// `hostname`, and its path is absolute, without a query, fragment, backslash, control character
/// or malformed escape; the path is percent-decoded and must not hold a NUL byte or start with
/// `//`.
pub fn local_path(uri: &str, hostname: &[u8]) -> (path: Option<Vec<u8>>)
    ensures
        bytes_of(path) == local_path_of(uri.spec_bytes(), hostname@),
{
    let bytes = uri.as_bytes();
    let separator = match find_separator(bytes) {
        Some(i) => i,
        None => return None,
    };
    let n = bytes.len();
    assert(separator + 3 <= n);
    let scheme = &bytes[0..separator];
    let location = &bytes[separator + 3..n];
    if !equal_file(scheme) {
        return None;
    }

    let path_start = match find_slash(location) {
        Some(p) => p,
        None => return None,
    };
    let host = &location[0..path_start];
    let path = &location[path_start..location.len()];
    if host.len() != 0 && !equal_localhost(host) && !equal_ignoring_case(host, hostname) {
        return None;
    }

    // Queries, fragments, backslashes, and malformed percent escapes are not file paths.
    if has_forbidden_byte(path) || !has_well_formed_escapes(path) {
        return None;
    }

    let decoded = percent_decode(path);
    if unusable_decoded(&decoded) {
        return None;
    }

    // Only an absolute path is a working directory.
    if decoded.len() > 0 && decoded[0] == 47 {
        Some(decoded)
    } else {
        None
    }
}

/// `std::str::from_utf8`, whose result is `Ok` exactly when the bytes are well-formed UTF-8.
#[verifier::external_body]
fn is_utf8(bytes: &[u8]) -> (r: bool)
    ensures
        r == vstd::utf8::valid_utf8(bytes@),
{
    std::str::from_utf8(bytes).is_ok()
}

/// How a local path is written on the platform: from the root (`/tmp`), or from a drive letter
/// (`C:/Users`).
#[derive(Debug, Clone, Copy, PartialEq, Eq, Structural)]
pub enum PathStyle {
    Unix,
    Windows,
}

pub open spec fn is_ascii_alphabetic(b: u8) -> bool {
    (65 <= b <= 90) || (97 <= b <= 122)
}

/// A decoded path as a drive path: `/`, a drive letter, `:` and `/` start it, and it is UTF-8;
/// the leading `/` is dropped. Anything else, a UNC or device path among them, is no drive
/// path.
pub open spec fn drive_path(decoded: Seq<u8>) -> Option<Seq<u8>> {
    if decoded.len() >= 4 && is_ascii_alphabetic(decoded[1]) && decoded[2] == 58 && decoded[3] == 47
        && vstd::utf8::valid_utf8(decoded) {
        Some(decoded.drop_first())
    } else {
        None
    }
}

/// The local path of a `file://` URI on the machine named `hostname`, written in `style`.
pub open spec fn path_of(uri: Seq<u8>, hostname: Seq<u8>, style: PathStyle) -> Option<Seq<u8>> {
    match style {
        PathStyle::Unix => local_path_of(uri, hostname),
        PathStyle::Windows => match local_path_of(uri, hostname) {
            Some(decoded) => drive_path(decoded),
            None => None,
        },
    }
}

/// Convert a local file URI to a Windows path: only absolute drive paths are accepted, never a
/// UNC or device path, and the path must be UTF-8.
pub fn local_drive_path(uri: &str, hostname: &[u8]) -> (path: Option<Vec<u8>>)
    ensures
        bytes_of(path) == path_of(uri.spec_bytes(), hostname@, PathStyle::Windows),
{
    let mut decoded = match local_path(uri, hostname) {
        Some(decoded) => decoded,
        None => return None,
    };
    if decoded.len() < 4 {
        return None;
    }
    let letter = decoded[1];
    if !((65 <= letter && letter <= 90) || (97 <= letter && letter <= 122)) || decoded[2] != 58
        || decoded[3] != 47 {
        return None;
    }
    if !is_utf8(decoded.as_slice()) {
        return None;
    }
    let ghost whole = decoded@;
    let rest = decoded.split_off(1);
    assert(rest@ =~= whole.drop_first());
    Some(rest)
}

/// Convert a local file URI to a path written in `style`.
pub fn converted_path(uri: &str, hostname: &[u8], style: PathStyle) -> (path: Option<Vec<u8>>)
    ensures
        bytes_of(path) == path_of(uri.spec_bytes(), hostname@, style),
{
    match style {
        PathStyle::Unix => local_path(uri, hostname),
        PathStyle::Windows => local_drive_path(uri, hostname),
    }
}

/// What the OSC 7 report gives on the machine named `hostname`: nothing without a report; else
/// the local path of the URI when the `usable` check accepts it, and nothing otherwise.
pub open spec fn reported_outcome<U: Fn(&Vec<u8>) -> bool>(
    uri: Option<Seq<u8>>,
    hostname: Seq<u8>,
    style: PathStyle,
    usable: U,
    out: Option<Vec<u8>>,
) -> bool {
    match uri {
        None => out is None,
        Some(u) => match path_of(u, hostname, style) {
            None => out is None,
            Some(p) => exists|v: Vec<u8>, ok: bool|
                v@ == p && #[trigger] call_ensures(usable, (&v,), ok) && (if ok {
                    out == Some(v)
                } else {
                    out is None
                }),
        },
    }
}

/// The bytes of an optional string.
pub open spec fn uri_bytes(uri: Option<&str>) -> Option<Seq<u8>> {
    match uri {
        Some(u) => Some(u.spec_bytes()),
        None => None,
    }
}

/// The local directory that an OSC 7 report names, kept only when `usable` accepts it.
fn reported<U: Fn(&Vec<u8>) -> bool>(
    uri: Option<&str>,
    hostname: &[u8],
    style: PathStyle,
    usable: &U,
) -> (out: Option<Vec<u8>>)
    requires
        forall|v: Vec<u8>| call_requires(*usable, (&v,)),
    ensures
        reported_outcome(uri_bytes(uri), hostname@, style, *usable, out),
{
    match uri {
        None => None,
        Some(u) => {
            let path = converted_path(u, hostname, style);
            match path {
                None => None,
                Some(v) => {
                    let ok = usable(&v);
                    assert(path_of(u.spec_bytes(), hostname@, style) == Some(v@));
                    if ok {
                        Some(v)
                    } else {
                        None
                    }
                },
            }
        },
    }
}

/// Resolve OSC 7 metadata only when launching a process, falling back to process inspection.
///
/// The report wins over process inspection. When OSC 133 marks show a running command
/// (`at_prompt` is `Some(false)`), process inspection comes first: the command may have changed
/// directory or be a nested shell without the hook. Without marks (`None`) a stale report cannot
/// be detected. A reported path is used only when it names this machine, `hostname`, or no host,
/// and `usable` accepts it; the second source is consulted only when the first gives nothing.
pub fn resolve<U, F>(
    uri: Option<&str>,
    at_prompt: Option<bool>,
    style: PathStyle,
    hostname: &[u8],
    usable: U,
    fallback: F,
) -> (dir: Option<Vec<u8>>) where U: Fn(&Vec<u8>) -> bool, F: FnOnce() -> Option<Vec<u8>>
    requires
        forall|v: Vec<u8>| call_requires(usable, (&v,)),
        call_requires(fallback, ()),
    ensures
        at_prompt == Some(false) ==> exists|f: Option<Vec<u8>>|
            call_ensures(fallback, (), f) && (f is Some ==> dir == f) && (f is None
                ==> reported_outcome(uri_bytes(uri), hostname@, style, usable, dir)),
        at_prompt != Some(false) ==> exists|rep: Option<Vec<u8>>|
            reported_outcome(uri_bytes(uri), hostname@, style, usable, rep) && (rep is Some ==> dir == rep) && (
            rep is None ==> call_ensures(fallback, (), dir)),
{
    match at_prompt {
        Some(false) => {
            let f = fallback();
            match f {
                Some(d) => Some(d),
                None => reported(uri, hostname, style, &usable),
            }
        },
        _ => {
            let rep = reported(uri, hostname, style, &usable);
            match rep {
                Some(d) => Some(d),
                None => fallback(),
            }
        },
    }
}

} // verus!
