//! Wildcard byte signatures: their text form, what they match, and the
//! regular expression that searches for them.

use vstd::prelude::*;
use vstd::string::StringSliceAdditionalSpecFns;

verus! {

/// ASCII whitespace separates the tokens of a signature.
pub open spec fn is_space(c: u8) -> bool {
    c == 32 || c == 9 || c == 10 || c == 11 || c == 12 || c == 13
}

/// The value of a hexadecimal digit of either case.
pub open spec fn hex_value(c: u8) -> Option<u8> {
    if 48 <= c <= 57 {
        Some((c - 48) as u8)
    } else if 65 <= c <= 70 {
        Some((c - 55) as u8)
    } else if 97 <= c <= 102 {
        Some((c - 87) as u8)
    } else {
        None
    }
}

/// A two-character token: `??` is a wildcard, two hex digits an exact byte.
pub open spec fn pair_matcher(a: u8, b: u8) -> Option<Option<u8>> {
    if a == 63 && b == 63 {
        Some(None)
    } else {
        match (hex_value(a), hex_value(b)) {
            (Some(h), Some(l)) => Some(Some((16 * h + l) as u8)),
            _ => None,
        }
    }
}

/// Puts `m` in front of a parse result.
pub open spec fn cons(m: Option<u8>, rest: Option<Seq<Option<u8>>>) -> Option<Seq<Option<u8>>> {
    match rest {
        Some(r) => Some(seq![m] + r),
        None => None,
    }
}

/// The matchers that the signature text `s` denotes: `None` where a token is
/// neither `?`, `??` nor two hex digits. A matcher `None` is a wildcard.
pub open spec fn parse_spec(s: Seq<u8>) -> Option<Seq<Option<u8>>>
    decreases s.len(),
{
    if s.len() == 0 {
        Some(Seq::empty())
    } else if is_space(s[0]) {
        parse_spec(s.drop_first())
    } else if s.len() == 1 || is_space(s[1]) {
        if s[0] == 63 {
            cons(None, parse_spec(s.drop_first()))
        } else {
            None
        }
    } else if s.len() == 2 || is_space(s[2]) {
        match pair_matcher(s[0], s[1]) {
            Some(m) => cons(m, parse_spec(s.subrange(2, s.len() as int))),
            None => None,
        }
    } else {
        None
    }
}

/// The window of `hay` at offset `i` fits the matchers `pat`.
pub open spec fn matches_at(pat: Seq<Option<u8>>, hay: Seq<u8>, i: int) -> bool {
    0 <= i && i + pat.len() <= hay.len() && forall|k: int|
        0 <= k < pat.len() ==> match #[trigger] pat[k] {
            Some(b) => hay[i + k] == b,
            None => true,
        }
}

/// `found` is the lowest offset at which `pat` matches `hay`, or `None` where
/// it matches nowhere.
pub open spec fn is_first_match(pat: Seq<Option<u8>>, hay: Seq<u8>, found: Option<usize>) -> bool {
    match found {
        Some(i) => matches_at(pat, hay, i as int) && forall|j: int|
            0 <= j < i ==> !#[trigger] matches_at(pat, hay, j),
        None => forall|j: int| !#[trigger] matches_at(pat, hay, j),
    }
}

/// The pattern holds no wildcard.
pub open spec fn is_exact(pat: Seq<Option<u8>>) -> bool {
    forall|k: int| 0 <= k < pat.len() ==> (#[trigger] pat[k]) is Some
}

/// The bytes that an exact pattern stands for.
pub open spec fn exact_bytes(pat: Seq<Option<u8>>) -> Seq<u8> {
    pat.map_values(|m: Option<u8>| m->0)
}

/// `hay` holds the byte sequence `b` at offset `i`.
pub open spec fn occurs_at(b: Seq<u8>, hay: Seq<u8>, i: int) -> bool {
    0 <= i && i + b.len() <= hay.len() && hay.subrange(i, i + b.len()) == b
}

/// Without wildcards, a pattern matches exactly where its bytes occur, so the
/// first match is the lowest offset at which the buffer contains those bytes,
/// and there is none where it does not contain them.
pub proof fn law_exact_pattern_first_occurrence(
    pat: Seq<Option<u8>>,
    hay: Seq<u8>,
    found: Option<usize>,
)
    requires
        is_exact(pat),
        is_first_match(pat, hay, found),
    ensures
        match found {
            Some(i) => occurs_at(exact_bytes(pat), hay, i as int) && forall|j: int|
                0 <= j < i ==> !#[trigger] occurs_at(exact_bytes(pat), hay, j),
            None => forall|j: int| !#[trigger] occurs_at(exact_bytes(pat), hay, j),
        },
{
    assert forall|j: int| #[trigger] occurs_at(exact_bytes(pat), hay, j) <==> matches_at(pat, hay, j) by {
        let b = exact_bytes(pat);
        if occurs_at(b, hay, j) {
            assert forall|k: int| 0 <= k < pat.len() implies match #[trigger] pat[k] {
                Some(x) => hay[j + k] == x,
                None => true,
            } by {
                assert(hay.subrange(j, j + b.len())[k] == hay[j + k]);
                assert(b[k] == pat[k]->0);
            }
        }
        if matches_at(pat, hay, j) {
            assert forall|k: int| 0 <= k < b.len() implies hay.subrange(j, j + b.len())[k] == b[k] by {
                assert(pat[k] is Some);
            }
            assert(hay.subrange(j, j + b.len()) =~= b);
        }
    }
}

/// A wildcard matches every byte value: a window that fits the pattern still
/// fits it whatever bytes stand at its wildcard positions, and a window fits
/// wherever every exact byte agrees.
pub proof fn law_wildcard_matches_any_byte(
    pat: Seq<Option<u8>>,
    hay: Seq<u8>,
    other: Seq<u8>,
    i: int,
)
    requires
        matches_at(pat, hay, i),
        other.len() == hay.len(),
        forall|k: int| 0 <= k < pat.len() && (#[trigger] pat[k]) is Some ==> other[i + k] == hay[i + k],
    ensures
        matches_at(pat, other, i),
        forall|k: int|
            0 <= k < pat.len() ==> (#[trigger] pat[k] matches Some(b) ==> hay[i + k] == b),
{
    assert forall|k: int| 0 <= k < pat.len() implies match #[trigger] pat[k] {
        Some(b) => other[i + k] == b,
        None => true,
    } by {
        if pat[k] is Some {
            assert(other[i + k] == hay[i + k]);
        }
    }
}

/// The upper-case hexadecimal digit of `v < 16`.
pub open spec fn hex_digit(v: u8) -> u8 {
    if v < 10 {
        (48 + v) as u8
    } else {
        (55 + v) as u8
    }
}

/// The regular-expression atom of one matcher: `.` or `\xHH`.
pub open spec fn atom(m: Option<u8>) -> Seq<u8> {
    match m {
        None => seq![46u8],
        Some(b) => seq![92u8, 120u8, hex_digit(b / 16), hex_digit(b % 16)],
    }
}

pub open spec fn regex_body(pat: Seq<Option<u8>>) -> Seq<u8>
    decreases pat.len(),
{
    if pat.len() == 0 {
        Seq::empty()
    } else {
        regex_body(pat.drop_last()) + atom(pat.last())
    }
}

/// The byte-oriented expression for `pat`: the flags `(?s-u)` let `.` match
/// every byte and make `\xHH` the byte `HH`, then one atom per matcher.
pub open spec fn regex_source(pat: Seq<Option<u8>>) -> Seq<u8> {
    seq![40u8, 63u8, 115u8, 45u8, 117u8, 41u8] + regex_body(pat)
}

/// Whether `regex::bytes::Regex::new` compiles the expression `source`
/// (it refuses a malformed one, or one over the default size limit).
pub uninterp spec fn regex_accepts(source: Seq<u8>) -> bool;

/// Relies on `regex::bytes::Regex::new`, which compiles an expression or
/// refuses it (malformed, or over the default size limit), and
/// `regex::bytes::Regex::find`, which reports the leftmost match. An
/// expression `regex_source(pat)` is a run of single-byte atoms, so its
/// leftmost match starts at the lowest offset whose window fits `pat`.
/// `None` is a refused expression; whether it is refused depends on the
/// expression alone.
#[verifier::external_body]
fn regex_find_start(source: &[u8], haystack: &[u8]) -> (r: Option<Option<usize>>)
    ensures
        r is Some <==> regex_accepts(source@),
        match r {
            Some(found) => forall|pat: Seq<Option<u8>>|
                #[trigger] regex_source(pat) == source@ ==> is_first_match(pat, haystack@, found),
            None => true,
        },
{
    let source = std::str::from_utf8(source).ok()?;
    match regex::bytes::Regex::new(source) {
        Ok(re) => Some(re.find(haystack).map(|m| m.start())),
        Err(_) => None,
    }
}

fn hex_value_of(c: u8) -> (r: Option<u8>)
    ensures
        r == hex_value(c),
{
    if 48 <= c && c <= 57 {
        Some(c - 48)
    } else if 65 <= c && c <= 70 {
        Some(c - 55)
    } else if 97 <= c && c <= 102 {
        Some(c - 87)
    } else {
        None
    }
}

fn pair_matcher_of(a: u8, b: u8) -> (r: Option<Option<u8>>)
    ensures
        r == pair_matcher(a, b),
{
    if a == 63 && b == 63 {
        return Some(None);
    }
    match (hex_value_of(a), hex_value_of(b)) {
        (Some(h), Some(l)) => Some(Some(16 * h + l)),
        _ => None,
    }
}

fn is_space_byte(c: u8) -> (r: bool)
    ensures
        r == is_space(c),
{
    c == 32 || c == 9 || c == 10 || c == 11 || c == 12 || c == 13
}

/// Reads a signature written as whitespace-separated tokens, each two hex
/// digits (an exact byte) or `?` / `??` (any byte).
pub fn parse_pattern(pattern: &str) -> (r: Option<Vec<Option<u8>>>)
    ensures
        match r {
            Some(v) => parse_spec(pattern.spec_bytes()) == Some(v@),
            None => parse_spec(pattern.spec_bytes()) is None,
        },
{
    let s = pattern.as_bytes();
    let n: usize = s.len();
    let mut out: Vec<Option<u8>> = Vec::new();
    let mut i: usize = 0;
    proof {
        assert(s@.subrange(0, n as int) =~= s@);
        match parse_spec(s@) {
            Some(r) => assert(out@ + r =~= r),
            None => {},
        }
    }
    while i < n
        invariant
            n == s@.len(),
            s@ == pattern.spec_bytes(),
            i <= n,
            parse_spec(s@) == match parse_spec(s@.subrange(i as int, n as int)) {
                Some(r) => Some(out@ + r),
                None => None,
            },
        decreases n - i,
    {
        let ghost t = s@.subrange(i as int, n as int);
        let ghost old_out = out@;
        if is_space_byte(s[i]) {
            assert(t.drop_first() =~= s@.subrange(i + 1, n as int));
            i = i + 1;
        } else if i + 1 == n || is_space_byte(s[i + 1]) {
            if s[i] != 63 {
                return None;
            }
            assert(t.drop_first() =~= s@.subrange(i + 1, n as int));
            out.push(None);
            proof {
                match parse_spec(s@.subrange(i + 1, n as int)) {
                    Some(r) => assert(old_out + (seq![None] + r) =~= out@ + r),
                    None => {},
                }
            }
            i = i + 1;
        } else if i + 2 == n || is_space_byte(s[i + 2]) {
            match pair_matcher_of(s[i], s[i + 1]) {
                Some(m) => {
                    assert(t.subrange(2, t.len() as int) =~= s@.subrange(i + 2, n as int));
                    out.push(m);
                    proof {
                        match parse_spec(s@.subrange(i + 2, n as int)) {
                            Some(r) => assert(old_out + (seq![m] + r) =~= out@ + r),
                            None => {},
                        }
                    }
                    i = i + 2;
                },
                None => {
                    return None;
                },
            }
        } else {
            return None;
        }
    }
    assert(out@ + Seq::<Option<u8>>::empty() =~= out@);
    Some(out)
}

pub(crate) fn hex_digit_of(v: u8) -> (r: u8)
    requires
        v < 16,
    ensures
        r == hex_digit(v),
{
    if v < 10 {
        48 + v
    } else {
        55 + v
    }
}

/// Writes the regular expression that searches for `pat`.
pub fn regex_source_of(pat: &Vec<Option<u8>>) -> (r: Vec<u8>)
    ensures
        r@ == regex_source(pat@),
{
    let mut out: Vec<u8> = vec![40u8, 63u8, 115u8, 45u8, 117u8, 41u8];
    let mut i: usize = 0;
    while i < pat.len()
        invariant
            i <= pat@.len(),
            out@ == seq![40u8, 63u8, 115u8, 45u8, 117u8, 41u8] + regex_body(pat@.take(i as int)),
        decreases pat@.len() - i,
    {
        let ghost before = out@;
        match pat[i] {
            None => {
                out.push(46u8);
            },
            Some(b) => {
                out.push(92u8);
                out.push(120u8);
                out.push(hex_digit_of(b / 16));
                out.push(hex_digit_of(b % 16));
            },
        }
        proof {
            let p = pat@.take(i + 1);
            assert(p.drop_last() =~= pat@.take(i as int));
            assert(out@ =~= before + atom(pat@[i as int]));
        }
        i = i + 1;
    }
    assert(pat@.take(pat@.len() as int) =~= pat@);
    out
}

/// Finds the first window of `haystack` that fits the matchers `pat`.
/// Where the search expression is refused, `None`.
pub fn first_match(pat: &Vec<Option<u8>>, haystack: &[u8]) -> (r: Option<usize>)
    ensures
        regex_accepts(regex_source(pat@)) ==> is_first_match(pat@, haystack@, r),
        !regex_accepts(regex_source(pat@)) ==> r is None,
        r is Some ==> is_first_match(pat@, haystack@, r),
        (forall|j: int| !#[trigger] matches_at(pat@, haystack@, j)) ==> r is None,
{
    let source = regex_source_of(pat);
    match regex_find_start(source.as_slice(), haystack) {
        Some(found) => {
            assert(regex_source(pat@) == source@);
            found
        },
        None => None,
    }
}

} // verus!
