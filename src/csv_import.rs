//! The import file: a first line `ip,cidr` (or `ip/cidr`), then one host
//! count per line. The lines come in as read; this module reads values from
//! them.
use vstd::prelude::*;
use vstd::string::*;

use crate::ipv4::{decimal_text, digits_value, is_digit, lemma_decimal_text};

verus! {

/// A white-space character: the Unicode `White_Space` property, which
/// `char::is_whitespace` tests.
pub open spec fn is_space(c: char) -> bool {
    ||| '\t' <= c && c <= '\r'
    ||| c == ' '
    ||| c == '\u{85}'
    ||| c == '\u{a0}'
    ||| c == '\u{1680}'
    ||| '\u{2000}' <= c && c <= '\u{200a}'
    ||| c == '\u{2028}'
    ||| c == '\u{2029}'
    ||| c == '\u{202f}'
    ||| c == '\u{205f}'
    ||| c == '\u{3000}'
}

pub open spec fn leading_spaces(s: Seq<char>) -> nat
    decreases s.len(),
{
    if s.len() > 0 && is_space(s[0]) {
        1 + leading_spaces(s.drop_first())
    } else {
        0
    }
}

pub open spec fn trailing_spaces(s: Seq<char>) -> nat
    decreases s.len(),
{
    if s.len() > 0 && is_space(s.last()) {
        1 + trailing_spaces(s.drop_last())
    } else {
        0
    }
}

/// `s` without white space at either end.
pub open spec fn trimmed(s: Seq<char>) -> Seq<char> {
    if leading_spaces(s) == s.len() {
        Seq::empty()
    } else {
        s.subrange(leading_spaces(s) as int, s.len() - trailing_spaces(s))
    }
}

/// `t` without a `+` in front.
pub open spec fn unsigned_part(t: Seq<char>) -> Seq<char> {
    if t.len() > 0 && t[0] == '+' {
        t.drop_first()
    } else {
        t
    }
}

pub open spec fn all_digits(d: Seq<char>) -> bool {
    forall|i: int| 0 <= i < d.len() ==> is_digit(#[trigger] d[i])
}

/// The `u32` that `t` spells in decimal, with an optional `+` in front.
pub open spec fn number_value(t: Seq<char>) -> Option<u32> {
    let d = unsigned_part(t);
    if d.len() > 0 && all_digits(d) && digits_value(d) <= 0xffff_ffff {
        Some(digits_value(d) as u32)
    } else {
        None
    }
}

proof fn lemma_leading_spaces(s: Seq<char>, i: int)
    requires
        0 <= i <= s.len(),
        forall|k: int| 0 <= k < i ==> is_space(#[trigger] s[k]),
        i == s.len() || !is_space(s[i]),
    ensures
        leading_spaces(s) == i,
    decreases i,
{
    if i > 0 {
        let t = s.drop_first();
        assert forall|k: int| 0 <= k < i - 1 implies is_space(#[trigger] t[k]) by {
            assert(t[k] == s[k + 1]);
        }
        if i < s.len() {
            assert(t[i - 1] == s[i]);
        }
        lemma_leading_spaces(t, i - 1);
    }
}

proof fn lemma_trailing_spaces(s: Seq<char>, j: int)
    requires
        0 <= j <= s.len(),
        forall|k: int| s.len() - j <= k < s.len() ==> is_space(#[trigger] s[k]),
        j == s.len() || !is_space(s[s.len() - 1 - j]),
    ensures
        trailing_spaces(s) == j,
    decreases j,
{
    if j > 0 {
        let t = s.drop_last();
        assert forall|k: int| t.len() - (j - 1) <= k < t.len() implies is_space(#[trigger] t[k]) by {
            assert(t[k] == s[k]);
        }
        if j < s.len() {
            assert(t[t.len() - 1 - (j - 1)] == s[s.len() - 1 - j]);
        }
        lemma_trailing_spaces(t, j - 1);
    }
}

fn is_space_char(c: char) -> (r: bool)
    ensures
        r == is_space(c),
{
    ('\t' <= c && c <= '\r') || c == ' ' || c == '\u{85}' || c == '\u{a0}' || c == '\u{1680}' || (
    '\u{2000}' <= c && c <= '\u{200a}') || c == '\u{2028}' || c == '\u{2029}' || c == '\u{202f}'
        || c == '\u{205f}' || c == '\u{3000}'
}

/// `s` without white space at either end.
pub fn trim(s: &str) -> (r: &str)
    ensures
        r@ == trimmed(s@),
{
    let len = s.unicode_len();
    let mut a: usize = 0;
    while a < len && is_space_char(s.get_char(a))
        invariant
            len == s@.len(),
            a <= len,
            forall|k: int| 0 <= k < a ==> is_space(#[trigger] s@[k]),
        decreases len - a,
    {
        a = a + 1;
    }
    proof {
        lemma_leading_spaces(s@, a as int);
    }
    if a == len {
        proof {
            assert(s@.subrange(len as int, len as int) =~= Seq::<char>::empty());
        }
        return s.substring_char(len, len);
    }
    let mut b: usize = len;
    while b > a + 1 && is_space_char(s.get_char(b - 1))
        invariant
            len == s@.len(),
            a < b <= len,
            !is_space(s@[a as int]),
            forall|k: int| b <= k < len ==> is_space(#[trigger] s@[k]),
        decreases b,
    {
        b = b - 1;
    }
    proof {
        lemma_trailing_spaces(s@, (len - b) as int);
    }
    s.substring_char(a, b)
}

/// The `u32` that `s` spells in decimal, with an optional `+` in front: the
/// strings that `u32`'s `FromStr` accepts.
pub fn parse_number(s: &str) -> (r: Option<u32>)
    ensures
        r == number_value(s@),
{
    let len = s.unicode_len();
    let start: usize = if len > 0 && s.get_char(0) == '+' {
        1
    } else {
        0
    };
    let ghost d = unsigned_part(s@);
    proof {
        assert(d =~= s@.subrange(start as int, len as int));
    }
    if start == len {
        return None;
    }
    let mut i: usize = start;
    let mut acc: u64 = 0;
    while i < len
        invariant
            len == s@.len(),
            start < len,
            d == s@.subrange(start as int, len as int),
            d == unsigned_part(s@),
            start <= i <= len,
            forall|k: int| start <= k < i ==> is_digit(#[trigger] s@[k]),
            acc == if digits_value(s@.subrange(start as int, i as int)) < 0x1_0000_0000 {
                digits_value(s@.subrange(start as int, i as int))
            } else {
                0x1_0000_0000
            },
        decreases len - i,
    {
        let c = s.get_char(i);
        if !('0' <= c && c <= '9') {
            proof {
                assert(!is_digit(d[i - start]));
            }
            return None;
        }
        proof {
            let t = s@.subrange(start as int, i + 1);
            assert(t.drop_last() =~= s@.subrange(start as int, i as int));
            assert(t.last() == c);
        }
        let next = acc * 10 + ((c as u32) - ('0' as u32)) as u64;
        acc = if next < 0x1_0000_0000 {
            next
        } else {
            0x1_0000_0000
        };
        i = i + 1;
    }
    proof {
        assert(s@.subrange(start as int, len as int) == d);
        assert forall|k: int| 0 <= k < d.len() implies is_digit(#[trigger] d[k]) by {
            assert(d[k] == s@[start + k]);
        }
    }
    if acc <= 0xffff_ffff {
        Some(acc as u32)
    } else {
        None
    }
}

pub open spec fn is_separator(c: char) -> bool {
    c == ',' || c == '/'
}

/// `line` holds exactly one separator, at `p`.
pub open spec fn single_separator_at(line: Seq<char>, p: int) -> bool {
    &&& 0 <= p < line.len()
    &&& is_separator(line[p])
    &&& forall|k: int| 0 <= k < line.len() && k != p ==> !is_separator(#[trigger] line[k])
}

/// The network text of a first line whose separator is at `p`.
pub open spec fn network_text(line: Seq<char>, p: int) -> Seq<char> {
    trimmed(line.subrange(0, p))
}

/// The prefix length text of a first line whose separator is at `p`.
pub open spec fn cidr_text(line: Seq<char>, p: int) -> Seq<char> {
    trimmed(line.subrange(p + 1, line.len() as int))
}

/// The host count that a later line holds.
pub open spec fn host_value(line: Seq<char>) -> Option<u32> {
    number_value(trimmed(line))
}

/// What can be wrong with an import file.
#[derive(Debug, PartialEq, Eq)]
pub enum ImportError {
    /// The file has no line.
    Empty,
    /// The first line is not two fields split by one `,` or `/`.
    InvalidFirstLine(String),
    /// A prefix length or host count that is not a `u32`.
    InvalidNumber(String),
    /// No host count follows the first line.
    NoHosts,
}

/// The position of the one separator in `line`, if it has exactly one.
pub fn find_single_separator(line: &str) -> (r: Option<usize>)
    ensures
        match r {
            Some(p) => single_separator_at(line@, p as int),
            None => forall|p: int| !single_separator_at(line@, p),
        },
{
    let len = line.unicode_len();
    let mut found: Option<usize> = None;
    let mut i: usize = 0;
    while i < len
        invariant
            len == line@.len(),
            i <= len,
            match found {
                None => forall|k: int| 0 <= k < i ==> !is_separator(#[trigger] line@[k]),
                Some(p) => p < i && is_separator(line@[p as int]) && forall|k: int|
                    0 <= k < i && k != p ==> !is_separator(#[trigger] line@[k]),
            },
        decreases len - i,
    {
        let c = line.get_char(i);
        if c == ',' || c == '/' {
            match found {
                None => {
                    found = Some(i);
                },
                Some(q) => {
                    proof {
                        assert forall|p: int| !single_separator_at(line@, p) by {
                            if single_separator_at(line@, p) {
                                if p != q {
                                    assert(!is_separator(line@[q as int]));
                                } else {
                                    assert(!is_separator(line@[i as int]));
                                }
                            }
                        }
                    }
                    return None;
                },
            }
        }
        i = i + 1;
    }
    match found {
        None => {
            proof {
                assert forall|p: int| !single_separator_at(line@, p) by {
                    if single_separator_at(line@, p) {
                        assert(!is_separator(line@[p]));
                    }
                }
            }
            None
        },
        Some(p) => Some(p),
    }
}

/// Reads the network text, the prefix length and the host counts from the
/// lines of an import file.
pub fn parse_import_lines(lines: &Vec<String>) -> (r: Result<(String, u32, Vec<u32>), ImportError>)
    ensures
        match r {
            Ok((ip, cidr, hosts)) => {
                &&& lines@.len() >= 2
                &&& exists|p: int|
                    single_separator_at(lines@[0]@, p) && ip@ == network_text(lines@[0]@, p)
                        && number_value(cidr_text(lines@[0]@, p)) == Some(cidr)
                &&& hosts@.len() == lines@.len() - 1
                &&& forall|i: int|
                    0 <= i < hosts@.len() ==> host_value(lines@[i + 1]@) == Some(#[trigger] hosts@[i])
            },
            Err(ImportError::Empty) => lines@.len() == 0,
            Err(ImportError::InvalidFirstLine(t)) => lines@.len() > 0 && t@ == lines@[0]@
                && forall|p: int| !single_separator_at(lines@[0]@, p),
            Err(ImportError::InvalidNumber(t)) => lines@.len() > 0 && exists|p: int|
                single_separator_at(lines@[0]@, p) && ((number_value(cidr_text(lines@[0]@, p)) is None
                    && t@ == cidr_text(lines@[0]@, p)) || (number_value(cidr_text(lines@[0]@, p)) is Some
                    && exists|j: int|
                    1 <= j < lines@.len() && host_value(lines@[j]@) is None && t@ == trimmed(
                        lines@[j]@,
                    ) && forall|k: int| 1 <= k < j ==> #[trigger] host_value(lines@[k]@) is Some)),
            Err(ImportError::NoHosts) => lines@.len() == 1 && exists|p: int|
                single_separator_at(lines@[0]@, p) && number_value(cidr_text(lines@[0]@, p)) is Some,
        },
{
    if lines.len() == 0 {
        return Err(ImportError::Empty);
    }
    let first: &str = lines[0].as_str();
    let p = match find_single_separator(first) {
        Some(p) => p,
        None => {
            return Err(ImportError::InvalidFirstLine(first.to_string()));
        },
    };
    let len = first.unicode_len();
    let ip = trim(first.substring_char(0, p));
    let cidr_field = trim(first.substring_char(p + 1, len));
    let cidr = match parse_number(cidr_field) {
        Some(c) => c,
        None => {
            return Err(ImportError::InvalidNumber(cidr_field.to_string()));
        },
    };
    let mut hosts: Vec<u32> = Vec::new();
    let mut i: usize = 1;
    while i < lines.len()
        invariant
            1 <= i <= lines@.len(),
            single_separator_at(lines@[0]@, p as int),
            ip@ == network_text(lines@[0]@, p as int),
            number_value(cidr_text(lines@[0]@, p as int)) == Some(cidr),
            hosts@.len() == i - 1,
            forall|k: int| 0 <= k < hosts@.len() ==> host_value(lines@[k + 1]@) == Some(#[trigger] hosts@[k]),
        decreases lines@.len() - i,
    {
        let t = trim(lines[i].as_str());
        match parse_number(t) {
            Some(h) => {
                hosts.push(h);
            },
            None => {
                proof {
                    assert forall|k: int| 1 <= k < i implies #[trigger] host_value(lines@[k]@) is Some by {
                        assert(host_value(lines@[(k - 1) + 1]@) == Some(hosts@[k - 1]));
                    }
                    assert(host_value(lines@[i as int]@) is None);
                }
                return Err(ImportError::InvalidNumber(t.to_string()));
            },
        }
        i = i + 1;
    }
    if hosts.len() == 0 {
        return Err(ImportError::NoHosts);
    }
    proof {
        assert(single_separator_at(lines@[0]@, p as int) && ip@ == network_text(lines@[0]@, p as int)
            && number_value(cidr_text(lines@[0]@, p as int)) == Some(cidr));
    }
    Ok((ip.to_string(), cidr, hosts))
}

/// A count written in decimal reads back as the same count.
pub proof fn lemma_number_text_round_trip(n: u32)
    ensures
        number_value(decimal_text(n as nat)) == Some(n),
{
    lemma_decimal_text(n as nat);
    let t = decimal_text(n as nat);
    assert(is_digit(t[0]));
    assert(unsigned_part(t) == t);
}

} // verus!
