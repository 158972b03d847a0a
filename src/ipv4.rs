//! Dotted-quad text of IPv4 addresses.
//!
//! An address is held as a `u32`, most significant octet first. Its text is
//! the four octets in decimal, without leading zeros, joined by dots: exactly
//! the strings that the standard library's `Ipv4Addr` parser accepts and that
//! its `Display` impl writes.
use vstd::prelude::*;
use vstd::string::*;

verus! {

pub open spec fn is_digit(c: char) -> bool {
    '0' <= c && c <= '9'
}

pub open spec fn digit_value(c: char) -> nat {
    (c as u32 - '0' as u32) as nat
}

pub open spec fn digit_char(d: nat) -> char {
    (d + 48) as char
}

/// Decimal text of `n`, without leading zeros.
pub open spec fn decimal_text(n: nat) -> Seq<char>
    decreases n,
{
    if n < 10 {
        seq![digit_char(n)]
    } else {
        decimal_text(n / 10).push(digit_char(n % 10))
    }
}

/// Value of a string of decimal digits.
pub open spec fn digits_value(t: Seq<char>) -> nat
    decreases t.len(),
{
    if t.len() == 0 {
        0
    } else {
        digits_value(t.drop_last()) * 10 + digit_value(t.last())
    }
}

/// The octet of `v` that starts `shift` bits from the right.
pub open spec fn octet(v: u32, shift: u32) -> nat {
    ((v >> shift) & 0xffu32) as nat
}

/// Dotted-quad text of the address `v`.
pub open spec fn ipv4_text(v: u32) -> Seq<char> {
    decimal_text(octet(v, 24)) + seq!['.'] + decimal_text(octet(v, 16)) + seq!['.']
        + decimal_text(octet(v, 8)) + seq!['.'] + decimal_text(octet(v, 0))
}

/// `s` holds, from `start` up to `end`, the decimal text of an octet value `n`,
/// and no digit follows it.
pub open spec fn octet_at(s: Seq<char>, start: int, n: nat, end: int) -> bool {
    &&& 0 <= start < end <= s.len()
    &&& n <= 255
    &&& s.subrange(start, end) == decimal_text(n)
    &&& (end == s.len() || !is_digit(s[end]))
}

proof fn lemma_digit_char(d: nat, c: char)
    ensures
        d < 10 ==> is_digit(digit_char(d)) && digit_value(digit_char(d)) == d,
        is_digit(c) ==> digit_value(c) < 10 && digit_char(digit_value(c)) == c,
{
}

pub proof fn lemma_decimal_text(n: nat)
    ensures
        1 <= decimal_text(n).len(),
        n < 10 ==> decimal_text(n).len() == 1,
        n < 100 ==> decimal_text(n).len() <= 2,
        n < 1000 ==> decimal_text(n).len() <= 3,
        decimal_text(n).len() >= 2 ==> n >= 10,
        n >= 10 ==> decimal_text(n)[0] != '0',
        forall|i: int| 0 <= i < decimal_text(n).len() ==> is_digit(#[trigger] decimal_text(n)[i]),
        digits_value(decimal_text(n)) == n,
    decreases n,
{
    lemma_digit_char(n % 10, '0');
    if n >= 10 {
        lemma_decimal_text(n / 10);
        let t = decimal_text(n / 10);
        assert(decimal_text(n).drop_last() =~= t);
        assert(decimal_text(n).last() == digit_char(n % 10));
        assert(n == (n / 10) * 10 + n % 10);
        assert(decimal_text(n)[0] == t[0]);
        if n / 10 < 10 {
            assert(t[0] != '0');
        }
    } else {
        assert(decimal_text(n).drop_last().len() == 0);
        assert(digits_value(decimal_text(n).drop_last()) == 0);
    }
}

proof fn lemma_digits_value_pos(t: Seq<char>)
    requires
        t.len() >= 1,
        forall|i: int| 0 <= i < t.len() ==> is_digit(#[trigger] t[i]),
        t[0] != '0',
    ensures
        digits_value(t) >= 1,
    decreases t.len(),
{
    if t.len() > 1 {
        let u = t.drop_last();
        assert(u[0] == t[0]);
        lemma_digits_value_pos(u);
    }
}

/// A digit string without a leading zero is the decimal text of its value.
proof fn lemma_canonical_digits(t: Seq<char>)
    requires
        t.len() >= 1,
        forall|i: int| 0 <= i < t.len() ==> is_digit(#[trigger] t[i]),
        t.len() == 1 || t[0] != '0',
    ensures
        decimal_text(digits_value(t)) == t,
    decreases t.len(),
{
    lemma_digit_char(0, t.last());
    if t.len() == 1 {
        assert(t.drop_last().len() == 0);
        assert(digits_value(t.drop_last()) == 0);
        assert(digits_value(t) == digit_value(t[0]));
        assert(decimal_text(digits_value(t)) =~= t);
    } else {
        let u = t.drop_last();
        assert(u[0] == t[0]);
        lemma_digits_value_pos(u);
        lemma_canonical_digits(u);
        let n = digits_value(t);
        assert(n / 10 == digits_value(u));
        assert(n % 10 == digit_value(t.last()));
        assert(decimal_text(n) =~= t);
    }
}

/// Two octets read at one position agree.
pub proof fn lemma_octet_at_unique(s: Seq<char>, start: int, n1: nat, e1: int, n2: nat, e2: int)
    requires
        octet_at(s, start, n1, e1),
        octet_at(s, start, n2, e2),
    ensures
        n1 == n2,
        e1 == e2,
{
    lemma_decimal_text(n1);
    lemma_decimal_text(n2);
    if e1 < e2 {
        assert(s[e1] == s.subrange(start, e2)[e1 - start]);
    } else if e2 < e1 {
        assert(s[e2] == s.subrange(start, e1)[e2 - start]);
    }
}

/// The layout of an address's text: four octets with a dot after each of the
/// first three.
pub proof fn lemma_ipv4_text_layout(v: u32)
    ensures
        ({
            let s = ipv4_text(v);
            let e1 = decimal_text(octet(v, 24)).len() as int;
            let e2 = e1 + 1 + decimal_text(octet(v, 16)).len();
            let e3 = e2 + 1 + decimal_text(octet(v, 8)).len();
            &&& octet_at(s, 0, octet(v, 24), e1)
            &&& s[e1] == '.'
            &&& octet_at(s, e1 + 1, octet(v, 16), e2)
            &&& s[e2] == '.'
            &&& octet_at(s, e2 + 1, octet(v, 8), e3)
            &&& s[e3] == '.'
            &&& octet_at(s, e3 + 1, octet(v, 0), s.len() as int)
        }),
{
    let a = octet(v, 24);
    let b = octet(v, 16);
    let c = octet(v, 8);
    let d = octet(v, 0);
    assert(((v >> 24u32) & 0xffu32) <= 255) by (bit_vector);
    assert(((v >> 16u32) & 0xffu32) <= 255) by (bit_vector);
    assert(((v >> 8u32) & 0xffu32) <= 255) by (bit_vector);
    assert(((v >> 0u32) & 0xffu32) <= 255) by (bit_vector);
    lemma_decimal_text(a);
    lemma_decimal_text(b);
    lemma_decimal_text(c);
    lemma_decimal_text(d);
    let s = ipv4_text(v);
    let e1 = decimal_text(a).len() as int;
    let e2 = e1 + 1 + decimal_text(b).len();
    let e3 = e2 + 1 + decimal_text(c).len();
    assert(s.subrange(0, e1) =~= decimal_text(a));
    assert(s.subrange(e1 + 1, e2) =~= decimal_text(b));
    assert(s.subrange(e2 + 1, e3) =~= decimal_text(c));
    assert(s.subrange(e3 + 1, s.len() as int) =~= decimal_text(d));
    assert(s[e1] == '.');
    assert(s[e2] == '.');
    assert(s[e3] == '.');
}

/// An address written as text reads back as the same address: the text is
/// an address's text, and of no other address.
pub proof fn lemma_address_text_round_trip(v: u32)
    ensures
        !no_address_text(ipv4_text(v)),
        forall|w: u32| #[trigger] ipv4_text(w) == ipv4_text(v) ==> w == v,
{
    assert forall|w: u32| #[trigger] ipv4_text(w) == ipv4_text(v) implies w == v by {
        lemma_ipv4_text_injective(w, v);
    }
}

/// Distinct addresses have distinct texts.
pub proof fn lemma_ipv4_text_injective(v: u32, w: u32)
    requires
        ipv4_text(v) == ipv4_text(w),
    ensures
        v == w,
{
    lemma_ipv4_text_layout(v);
    lemma_ipv4_text_layout(w);
    let s = ipv4_text(v);
    let e1 = decimal_text(octet(v, 24)).len() as int;
    let e2 = e1 + 1 + decimal_text(octet(v, 16)).len();
    let e3 = e2 + 1 + decimal_text(octet(v, 8)).len();
    let f1 = decimal_text(octet(w, 24)).len() as int;
    let f2 = f1 + 1 + decimal_text(octet(w, 16)).len();
    let f3 = f2 + 1 + decimal_text(octet(w, 8)).len();
    lemma_octet_at_unique(s, 0, octet(v, 24), e1, octet(w, 24), f1);
    lemma_octet_at_unique(s, e1 + 1, octet(v, 16), e2, octet(w, 16), f2);
    lemma_octet_at_unique(s, e2 + 1, octet(v, 8), e3, octet(w, 8), f3);
    lemma_octet_at_unique(s, e3 + 1, octet(v, 0), s.len() as int, octet(w, 0), s.len() as int);
    assert(v == w) by (bit_vector)
        requires
            ((v >> 24u32) & 0xffu32) == ((w >> 24u32) & 0xffu32),
            ((v >> 16u32) & 0xffu32) == ((w >> 16u32) & 0xffu32),
            ((v >> 8u32) & 0xffu32) == ((w >> 8u32) & 0xffu32),
            ((v >> 0u32) & 0xffu32) == ((w >> 0u32) & 0xffu32),
    ;
}

/// Reads the octet that starts at `start`: its value and the position after it.
fn read_octet(s: &str, len: usize, start: usize) -> (r: Option<(u32, usize)>)
    requires
        len == s@.len(),
        start <= len,
    ensures
        match r {
            Some((n, end)) => octet_at(s@, start as int, n as nat, end as int),
            None => forall|n: nat, end: int| !octet_at(s@, start as int, n, end),
        },
{
    let mut j: usize = start;
    let mut val: u32 = 0;
    loop
        invariant
            len == s@.len(),
            start <= j <= len,
            j - start <= 3,
            forall|i: int| start <= i < j ==> is_digit(#[trigger] s@[i]),
            val == digits_value(s@.subrange(start as int, j as int)),
            j - start <= 1 ==> val < 10,
            j - start <= 2 ==> val < 100,
            val < 1000,
        ensures
            start <= j <= len,
            j == len || !is_digit(s@[j as int]),
        decreases len - j,
    {
        if j == len {
            break;
        }
        let c = s.get_char(j);
        if !('0' <= c && c <= '9') {
            break;
        }
        if j - start == 3 {
            proof {
                assert forall|n: nat, end: int| !octet_at(s@, start as int, n, end) by {
                    if octet_at(s@, start as int, n, end) {
                        lemma_decimal_text(n);
                        assert(end <= j);
                        assert(s@[end] == s@[end]);
                    }
                }
            }
            return None;
        }
        proof {
            let t = s@.subrange(start as int, j as int + 1);
            assert(t.drop_last() =~= s@.subrange(start as int, j as int));
            assert(t.last() == c);
            if j == start {
                assert(s@.subrange(start as int, j as int).len() == 0);
            }
        }
        val = val * 10 + ((c as u32) - ('0' as u32));
        j = j + 1;
    }
    let run = Ghost(s@.subrange(start as int, j as int));
    proof {
        assert forall|n: nat, end: int| octet_at(s@, start as int, n, end) implies end == j
            && decimal_text(n) == run@ by {
            lemma_decimal_text(n);
            if end < j {
                assert(s@[end] == s@[end]);
            } else if end > j {
                assert(s@[j as int] == s@.subrange(start as int, end)[j - start]);
                assert(is_digit(decimal_text(n)[j - start]));
            }
        }
    }
    if j == start {
        proof {
            assert forall|n: nat, end: int| !octet_at(s@, start as int, n, end) by {
                if octet_at(s@, start as int, n, end) {
                    lemma_decimal_text(n);
                }
            }
        }
        return None;
    }
    if j - start > 1 && s.get_char(start) == '0' {
        proof {
            assert forall|n: nat, end: int| !octet_at(s@, start as int, n, end) by {
                if octet_at(s@, start as int, n, end) {
                    lemma_decimal_text(n);
                    assert(decimal_text(n)[0] == s@[start as int]);
                }
            }
        }
        return None;
    }
    if val > 255 {
        proof {
            assert forall|n: nat, end: int| !octet_at(s@, start as int, n, end) by {
                if octet_at(s@, start as int, n, end) {
                    lemma_decimal_text(n);
                }
            }
        }
        return None;
    }
    proof {
        assert forall|i: int| 0 <= i < run@.len() implies is_digit(#[trigger] run@[i]) by {
            assert(run@[i] == s@[start + i]);
        }
        assert(run@[0] == s@[start as int]);
        lemma_canonical_digits(run@);
    }
    Some((val, j))
}

/// Whether `s` is the text of no address.
pub open spec fn no_address_text(s: Seq<char>) -> bool {
    forall|w: u32| s != #[trigger] ipv4_text(w)
}

/// The address whose dotted-quad text is `s`, if there is one.
pub fn parse_ipv4(s: &str) -> (r: Option<u32>)
    ensures
        match r {
            Some(v) => s@ == ipv4_text(v),
            None => no_address_text(s@),
        },
{
    let len = s.unicode_len();
    let ghost t = s@;
    let (a, i1) = match read_octet(s, len, 0) {
        Some(p) => p,
        None => {
            proof {
                assert forall|w: u32| t != #[trigger] ipv4_text(w) by {
                    if t == ipv4_text(w) {
                        lemma_ipv4_text_layout(w);
                    }
                }
            }
            return None;
        },
    };
    if i1 == len || s.get_char(i1) != '.' {
        proof {
            assert forall|w: u32| t != #[trigger] ipv4_text(w) by {
                if t == ipv4_text(w) {
                    lemma_ipv4_text_layout(w);
                    let e1 = decimal_text(octet(w, 24)).len() as int;
                    lemma_octet_at_unique(t, 0, a as nat, i1 as int, octet(w, 24), e1);
                }
            }
        }
        return None;
    }
    let (b, i2) = match read_octet(s, len, i1 + 1) {
        Some(p) => p,
        None => {
            proof {
                assert forall|w: u32| t != #[trigger] ipv4_text(w) by {
                    if t == ipv4_text(w) {
                        lemma_ipv4_text_layout(w);
                        let e1 = decimal_text(octet(w, 24)).len() as int;
                        lemma_octet_at_unique(t, 0, a as nat, i1 as int, octet(w, 24), e1);
                    }
                }
            }
            return None;
        },
    };
    if i2 == len || s.get_char(i2) != '.' {
        proof {
            assert forall|w: u32| t != #[trigger] ipv4_text(w) by {
                if t == ipv4_text(w) {
                    lemma_ipv4_text_layout(w);
                    let e1 = decimal_text(octet(w, 24)).len() as int;
                    let e2 = e1 + 1 + decimal_text(octet(w, 16)).len();
                    lemma_octet_at_unique(t, 0, a as nat, i1 as int, octet(w, 24), e1);
                    lemma_octet_at_unique(t, e1 + 1, b as nat, i2 as int, octet(w, 16), e2);
                }
            }
        }
        return None;
    }
    let (c, i3) = match read_octet(s, len, i2 + 1) {
        Some(p) => p,
        None => {
            proof {
                assert forall|w: u32| t != #[trigger] ipv4_text(w) by {
                    if t == ipv4_text(w) {
                        lemma_ipv4_text_layout(w);
                        let e1 = decimal_text(octet(w, 24)).len() as int;
                        let e2 = e1 + 1 + decimal_text(octet(w, 16)).len();
                        lemma_octet_at_unique(t, 0, a as nat, i1 as int, octet(w, 24), e1);
                        lemma_octet_at_unique(t, e1 + 1, b as nat, i2 as int, octet(w, 16), e2);
                    }
                }
            }
            return None;
        },
    };
    if i3 == len || s.get_char(i3) != '.' {
        proof {
            assert forall|w: u32| t != #[trigger] ipv4_text(w) by {
                if t == ipv4_text(w) {
                    lemma_ipv4_text_layout(w);
                    let e1 = decimal_text(octet(w, 24)).len() as int;
                    let e2 = e1 + 1 + decimal_text(octet(w, 16)).len();
                    let e3 = e2 + 1 + decimal_text(octet(w, 8)).len();
                    lemma_octet_at_unique(t, 0, a as nat, i1 as int, octet(w, 24), e1);
                    lemma_octet_at_unique(t, e1 + 1, b as nat, i2 as int, octet(w, 16), e2);
                    lemma_octet_at_unique(t, e2 + 1, c as nat, i3 as int, octet(w, 8), e3);
                }
            }
        }
        return None;
    }
    let (d, i4) = match read_octet(s, len, i3 + 1) {
        Some(p) => p,
        None => {
            proof {
                assert forall|w: u32| t != #[trigger] ipv4_text(w) by {
                    if t == ipv4_text(w) {
                        lemma_ipv4_text_layout(w);
                        let e1 = decimal_text(octet(w, 24)).len() as int;
                        let e2 = e1 + 1 + decimal_text(octet(w, 16)).len();
                        let e3 = e2 + 1 + decimal_text(octet(w, 8)).len();
                        lemma_octet_at_unique(t, 0, a as nat, i1 as int, octet(w, 24), e1);
                        lemma_octet_at_unique(t, e1 + 1, b as nat, i2 as int, octet(w, 16), e2);
                        lemma_octet_at_unique(t, e2 + 1, c as nat, i3 as int, octet(w, 8), e3);
                    }
                }
            }
            return None;
        },
    };
    if i4 != len {
        proof {
            assert forall|w: u32| t != #[trigger] ipv4_text(w) by {
                if t == ipv4_text(w) {
                    lemma_ipv4_text_layout(w);
                    let e1 = decimal_text(octet(w, 24)).len() as int;
                    let e2 = e1 + 1 + decimal_text(octet(w, 16)).len();
                    let e3 = e2 + 1 + decimal_text(octet(w, 8)).len();
                    lemma_octet_at_unique(t, 0, a as nat, i1 as int, octet(w, 24), e1);
                    lemma_octet_at_unique(t, e1 + 1, b as nat, i2 as int, octet(w, 16), e2);
                    lemma_octet_at_unique(t, e2 + 1, c as nat, i3 as int, octet(w, 8), e3);
                    lemma_octet_at_unique(t, e3 + 1, d as nat, i4 as int, octet(w, 0), t.len() as int);
                }
            }
        }
        return None;
    }
    let v: u32 = (a << 24u32) | (b << 16u32) | (c << 8u32) | d;
    proof {
        assert(((v >> 24u32) & 0xffu32) == a && ((v >> 16u32) & 0xffu32) == b
            && ((v >> 8u32) & 0xffu32) == c && ((v >> 0u32) & 0xffu32) == d) by (bit_vector)
            requires
                a <= 255 && b <= 255 && c <= 255 && d <= 255,
                v == (a << 24u32) | (b << 16u32) | (c << 8u32) | d,
        ;
        assert(t =~= ipv4_text(v)) by {
            assert(t =~= t.subrange(0, i1 as int) + seq!['.'] + t.subrange(i1 + 1, i2 as int)
                + seq!['.'] + t.subrange(i2 + 1, i3 as int) + seq!['.'] + t.subrange(
                i3 + 1,
                i4 as int,
            ));
        }
    }
    Some(v)
}

fn digit_str(d: u64) -> (r: &'static str)
    requires
        d < 10,
    ensures
        r@ == seq![digit_char(d as nat)],
{
    if d == 0 {
        proof {
            reveal_strlit("0");
        }
        "0"
    } else if d == 1 {
        proof {
            reveal_strlit("1");
        }
        "1"
    } else if d == 2 {
        proof {
            reveal_strlit("2");
        }
        "2"
    } else if d == 3 {
        proof {
            reveal_strlit("3");
        }
        "3"
    } else if d == 4 {
        proof {
            reveal_strlit("4");
        }
        "4"
    } else if d == 5 {
        proof {
            reveal_strlit("5");
        }
        "5"
    } else if d == 6 {
        proof {
            reveal_strlit("6");
        }
        "6"
    } else if d == 7 {
        proof {
            reveal_strlit("7");
        }
        "7"
    } else if d == 8 {
        proof {
            reveal_strlit("8");
        }
        "8"
    } else {
        proof {
            reveal_strlit("9");
        }
        "9"
    }
}

/// Appends the decimal text of `n` to `out`.
pub fn push_decimal(out: &mut String, n: u64)
    ensures
        final(out)@ == old(out)@ + decimal_text(n as nat),
    decreases n,
{
    if n >= 10 {
        push_decimal(out, n / 10);
    }
    out.append(digit_str(n % 10));
    proof {
        if n >= 10 {
            assert(decimal_text(n as nat) =~= decimal_text((n / 10) as nat) + seq![digit_char((n % 10) as nat)]);
        }
    }
}

/// Appends the dotted-quad text of `v` to `out`.
pub fn push_ipv4(out: &mut String, v: u32)
    ensures
        final(out)@ == old(out)@ + ipv4_text(v),
{
    proof {
        reveal_strlit(".");
    }
    push_decimal(out, ((v >> 24u32) & 0xffu32) as u64);
    out.append(".");
    push_decimal(out, ((v >> 16u32) & 0xffu32) as u64);
    out.append(".");
    push_decimal(out, ((v >> 8u32) & 0xffu32) as u64);
    out.append(".");
    push_decimal(out, (v & 0xffu32) as u64);
    proof {
        assert(v & 0xffu32 == (v >> 0u32) & 0xffu32) by (bit_vector);
        assert(final(out)@ =~= old(out)@ + ipv4_text(v));
    }
}

/// The dotted-quad text of `v`.
pub fn ipv4_to_string(v: u32) -> (r: String)
    ensures
        r@ == ipv4_text(v),
{
    let mut out = String::new();
    push_ipv4(&mut out, v);
    proof {
        assert(out@ =~= ipv4_text(v));
    }
    out
}

} // verus!
