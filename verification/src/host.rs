//! The host component: registered domain names, IPv4 and IPv6 literals,
//! with their validation grammars, and decimal port digits.

use vstd::prelude::*;
use crate::bytes::{is_digit_byte, is_lower_hex_byte, is_upper_byte};

verus! {

// ---------------------------------------------------------------------------
// Host representation
// ---------------------------------------------------------------------------

/// The host of a URL.
#[derive(Debug)]
pub enum Host {
    /// No authority at all (`a:/x` or an opaque path).
    NoHost,
    /// An authority with an empty host (`file:///x`, `a:///x`).
    EmptyHost,
    /// A registered (domain) name, stored lowercased.
    Domain(Vec<u8>),
    /// An IPv4 literal, stored as canonical dotted-decimal text.
    Ipv4(Vec<u8>),
    /// An IPv6 literal, stored as the lowercased text between the brackets.
    Ipv6(Vec<u8>),
}

/// Specification-level host value.
#[verifier::ext_equal]
pub ghost enum HostView {
    NoHost,
    EmptyHost,
    Domain(Seq<u8>),
    Ipv4(Seq<u8>),
    Ipv6(Seq<u8>),
}

impl View for Host {
    type V = HostView;

    open spec fn view(&self) -> HostView {
        match self {
            Host::NoHost => HostView::NoHost,
            Host::EmptyHost => HostView::EmptyHost,
            Host::Domain(d) => HostView::Domain(d@),
            Host::Ipv4(t) => HostView::Ipv4(t@),
            Host::Ipv6(t) => HostView::Ipv6(t@),
        }
    }
}

impl Clone for Host {
    fn clone(&self) -> (r: Self)
        ensures
            r@ == self@,
    {
        match self {
            Host::NoHost => Host::NoHost,
            Host::EmptyHost => Host::EmptyHost,
            Host::Domain(d) => Host::Domain(d.clone()),
            Host::Ipv4(t) => Host::Ipv4(t.clone()),
            Host::Ipv6(t) => Host::Ipv6(t.clone()),
        }
    }
}

/// A host that names a machine (not absent, not empty).
pub open spec fn host_is_real(h: HostView) -> bool {
    h is Domain || h is Ipv4 || h is Ipv6
}

/// The text of the host inside the serialized authority.
pub open spec fn host_text(h: HostView) -> Seq<u8> {
    match h {
        HostView::NoHost => Seq::empty(),
        HostView::EmptyHost => Seq::empty(),
        HostView::Domain(d) => d,
        HostView::Ipv4(t) => t,
        HostView::Ipv6(t) => seq![0x5bu8] + t + seq![0x5du8],
    }
}

// ---------------------------------------------------------------------------
// Domain names
// ---------------------------------------------------------------------------

/// A byte allowed in a stored (lowercased) domain name: printable ASCII that
/// is neither uppercase nor a forbidden host byte
/// (`# % / : < > ? @ [ \ ] ^ |`).
pub open spec fn valid_domain_byte(b: u8) -> bool {
    &&& 0x21 <= b <= 0x7e
    &&& !is_upper_byte(b)
    &&& b != 0x23 && b != 0x25 && b != 0x2f && b != 0x3a && b != 0x3c && b != 0x3e && b != 0x3f
        && b != 0x40 && b != 0x5b && b != 0x5c && b != 0x5d && b != 0x5e && b != 0x7c
}

/// Text made only of digits and dots is an IPv4 candidate and must parse as
/// an IPv4 address instead of a domain.
pub open spec fn ipv4_candidate(s: Seq<u8>) -> bool {
    s.len() > 0 && forall|i: int| 0 <= i < s.len() ==> is_digit_byte(#[trigger] s[i]) || s[i]
        == 0x2e
}

pub open spec fn valid_domain(s: Seq<u8>) -> bool {
    &&& s.len() > 0
    &&& forall|i: int| 0 <= i < s.len() ==> valid_domain_byte(#[trigger] s[i])
    &&& !ipv4_candidate(s)
}

pub fn is_valid_domain_byte(b: u8) -> (r: bool)
    ensures
        r == valid_domain_byte(b),
{
    0x21 <= b && b <= 0x7e && !(0x41 <= b && b <= 0x5a) && b != 0x23 && b != 0x25 && b != 0x2f
        && b != 0x3a && b != 0x3c && b != 0x3e && b != 0x3f && b != 0x40 && b != 0x5b && b != 0x5c
        && b != 0x5d && b != 0x5e && b != 0x7c
}

/// Checks every byte of `v` with the domain-byte grammar.
pub fn check_domain_bytes(v: &Vec<u8>) -> (r: bool)
    ensures
        r == forall|i: int| 0 <= i < v@.len() ==> valid_domain_byte(#[trigger] v@[i]),
{
    let mut i: usize = 0;
    while i < v.len()
        invariant
            i <= v@.len(),
            forall|j: int| 0 <= j < i ==> valid_domain_byte(#[trigger] v@[j]),
        decreases v@.len() - i,
    {
        if !is_valid_domain_byte(v[i]) {
            return false;
        }
        i = i + 1;
    }
    true
}

/// Decides whether `v` is made only of digits and dots (and is non-empty).
pub fn check_ipv4_candidate(v: &Vec<u8>) -> (r: bool)
    ensures
        r == ipv4_candidate(v@),
{
    if v.len() == 0 {
        return false;
    }
    let mut i: usize = 0;
    while i < v.len()
        invariant
            i <= v@.len(),
            forall|j: int| 0 <= j < i ==> is_digit_byte(#[trigger] v@[j]) || v@[j] == 0x2e,
        decreases v@.len() - i,
    {
        let b = v[i];
        if !((0x30 <= b && b <= 0x39) || b == 0x2e) {
            return false;
        }
        i = i + 1;
    }
    true
}

// ---------------------------------------------------------------------------
// IPv4 literals
// ---------------------------------------------------------------------------

/// State machine over dotted-decimal text: `nlab` labels finished, the
/// current label has `lablen` digits and value `labval`; labels are 1–3
/// digits, no leading zero, value at most 255, exactly four labels.
pub open spec fn ipv4_st(s: Seq<u8>, i: int, nlab: int, lablen: int, labval: int) -> bool
    decreases s.len() - i,
{
    if !(0 <= i < s.len()) {
        lablen >= 1 && labval <= 255 && nlab + 1 == 4
    } else {
        let b = s[i];
        if is_digit_byte(b) {
            &&& lablen + 1 <= 3
            &&& !(lablen == 1 && labval == 0)
            &&& ipv4_st(s, i + 1, nlab, lablen + 1, labval * 10 + (b - 0x30))
        } else if b == 0x2e {
            &&& lablen >= 1
            &&& labval <= 255
            &&& nlab + 1 < 4
            &&& ipv4_st(s, i + 1, nlab + 1, 0, 0)
        } else {
            false
        }
    }
}

/// Canonical dotted-decimal IPv4 text.
pub open spec fn valid_ipv4_text(s: Seq<u8>) -> bool {
    ipv4_st(s, 0, 0, 0, 0)
}

pub proof fn lemma_ipv4_bytes(s: Seq<u8>, i: int, nlab: int, lablen: int, labval: int)
    requires
        0 <= i <= s.len(),
        ipv4_st(s, i, nlab, lablen, labval),
    ensures
        forall|j: int| i <= j < s.len() ==> is_digit_byte(#[trigger] s[j]) || s[j] == 0x2e,
    decreases s.len() - i,
{
    if i < s.len() {
        let b = s[i];
        if is_digit_byte(b) {
            lemma_ipv4_bytes(s, i + 1, nlab, lablen + 1, labval * 10 + (b - 0x30));
        } else {
            lemma_ipv4_bytes(s, i + 1, nlab + 1, 0, 0);
        }
    }
}

/// Validates canonical dotted-decimal IPv4 text.
pub fn check_ipv4(v: &Vec<u8>) -> (r: bool)
    ensures
        r == valid_ipv4_text(v@),
{
    let mut i: usize = 0;
    let mut nlab: u8 = 0;
    let mut lablen: u8 = 0;
    let mut labval: u16 = 0;
    while i < v.len()
        invariant
            i <= v@.len(),
            nlab <= 3,
            lablen <= 3,
            lablen == 0 ==> labval == 0,
            lablen == 1 ==> labval <= 9,
            lablen == 2 ==> labval <= 99,
            lablen == 3 ==> labval <= 999,
            valid_ipv4_text(v@) == ipv4_st(v@, i as int, nlab as int, lablen as int, labval as int),
        decreases v@.len() - i,
    {
        let b = v[i];
        if 0x30 <= b && b <= 0x39 {
            if lablen + 1 > 3 || (lablen == 1 && labval == 0) {
                return false;
            }
            labval = labval * 10 + ((b - 0x30) as u16);
            lablen = lablen + 1;
        } else if b == 0x2e {
            if !(lablen >= 1 && labval <= 255 && nlab + 1 < 4) {
                return false;
            }
            nlab = nlab + 1;
            lablen = 0;
            labval = 0;
        } else {
            return false;
        }
        i = i + 1;
    }
    lablen >= 1 && labval <= 255 && nlab + 1 == 4
}

// ---------------------------------------------------------------------------
// IPv6 literals
// ---------------------------------------------------------------------------

/// State machine over the text between the brackets of an IPv6 literal.
///
/// Modes: 0 at the start, 1 inside a group of `curlen` hexadecimal digits,
/// 2 right after `::`, 3 right after a single `:`, 4 after a leading `:`.
/// `groups` counts finished groups; `dc` records whether `::` was seen.
/// Groups have 1–4 lowercase hexadecimal digits; without `::` there are
/// exactly eight groups, with `::` at most seven.
pub open spec fn ipv6_st(
    s: Seq<u8>,
    i: int,
    mode: int,
    groups: int,
    curlen: int,
    dc: bool,
) -> bool
    decreases s.len() - i,
{
    if !(0 <= i < s.len()) {
        if mode == 1 {
            if dc {
                groups + 1 <= 7
            } else {
                groups + 1 == 8
            }
        } else if mode == 2 {
            groups <= 7
        } else {
            false
        }
    } else {
        let b = s[i];
        if mode == 0 {
            if is_lower_hex_byte(b) {
                ipv6_st(s, i + 1, 1, 0, 1, false)
            } else if b == 0x3a {
                ipv6_st(s, i + 1, 4, 0, 0, false)
            } else {
                false
            }
        } else if mode == 4 {
            if b == 0x3a {
                ipv6_st(s, i + 1, 2, 0, 0, true)
            } else {
                false
            }
        } else if mode == 1 {
            if is_lower_hex_byte(b) {
                curlen + 1 <= 4 && ipv6_st(s, i + 1, 1, groups, curlen + 1, dc)
            } else if b == 0x3a {
                ipv6_st(s, i + 1, 3, groups + 1, 0, dc)
            } else {
                false
            }
        } else if mode == 3 {
            if is_lower_hex_byte(b) {
                ipv6_st(s, i + 1, 1, groups, 1, dc)
            } else if b == 0x3a {
                !dc && ipv6_st(s, i + 1, 2, groups, 0, true)
            } else {
                false
            }
        } else if mode == 2 {
            if is_lower_hex_byte(b) {
                ipv6_st(s, i + 1, 1, groups, 1, dc)
            } else {
                false
            }
        } else {
            false
        }
    }
}

/// Lowercased IPv6 literal text (between the brackets).
pub open spec fn valid_ipv6_text(s: Seq<u8>) -> bool {
    ipv6_st(s, 0, 0, 0, 0, false)
}

pub proof fn lemma_ipv6_bytes(s: Seq<u8>, i: int, mode: int, groups: int, curlen: int, dc: bool)
    requires
        0 <= i <= s.len(),
        ipv6_st(s, i, mode, groups, curlen, dc),
    ensures
        forall|j: int| i <= j < s.len() ==> is_lower_hex_byte(#[trigger] s[j]) || s[j] == 0x3a,
    decreases s.len() - i,
{
    if i < s.len() {
        let b = s[i];
        if mode == 0 {
            if is_lower_hex_byte(b) {
                lemma_ipv6_bytes(s, i + 1, 1, 0, 1, false);
            } else {
                lemma_ipv6_bytes(s, i + 1, 4, 0, 0, false);
            }
        } else if mode == 4 {
            lemma_ipv6_bytes(s, i + 1, 2, 0, 0, true);
        } else if mode == 1 {
            if is_lower_hex_byte(b) {
                lemma_ipv6_bytes(s, i + 1, 1, groups, curlen + 1, dc);
            } else {
                lemma_ipv6_bytes(s, i + 1, 3, groups + 1, 0, dc);
            }
        } else if mode == 3 {
            if is_lower_hex_byte(b) {
                lemma_ipv6_bytes(s, i + 1, 1, groups, 1, dc);
            } else {
                lemma_ipv6_bytes(s, i + 1, 2, groups, 0, true);
            }
        } else {
            lemma_ipv6_bytes(s, i + 1, 1, groups, 1, dc);
        }
    }
}

pub fn is_lower_hex(b: u8) -> (r: bool)
    ensures
        r == is_lower_hex_byte(b),
{
    (0x30 <= b && b <= 0x39) || (0x61 <= b && b <= 0x66)
}

/// Validates lowercased IPv6 literal text.
pub fn check_ipv6(v: &Vec<u8>) -> (r: bool)
    ensures
        r == valid_ipv6_text(v@),
{
    let mut i: usize = 0;
    let mut mode: u8 = 0;
    let mut groups: usize = 0;
    let mut curlen: u8 = 0;
    let mut dc: bool = false;
    while i < v.len()
        invariant
            i <= v@.len(),
            valid_ipv6_text(v@) == ipv6_st(
                v@,
                i as int,
                mode as int,
                groups as int,
                curlen as int,
                dc,
            ),
            groups <= i,
            curlen <= 4,
            mode <= 4,
            mode == 0 ==> groups == 0 && curlen == 0 && !dc,
            mode == 4 ==> groups == 0 && curlen == 0 && !dc,
            mode == 2 ==> curlen == 0,
            mode == 3 ==> curlen == 0,
            mode == 1 ==> curlen >= 1,
        decreases v@.len() - i,
    {
        let b = v[i];
        if mode == 0 {
            if is_lower_hex(b) {
                mode = 1;
                groups = 0;
                curlen = 1;
                dc = false;
            } else if b == 0x3a {
                mode = 4;
            } else {
                return false;
            }
        } else if mode == 4 {
            if b == 0x3a {
                mode = 2;
                dc = true;
            } else {
                return false;
            }
        } else if mode == 1 {
            if is_lower_hex(b) {
                if curlen + 1 > 4 {
                    return false;
                }
                curlen = curlen + 1;
            } else if b == 0x3a {
                mode = 3;
                groups = groups + 1;
                curlen = 0;
            } else {
                return false;
            }
        } else if mode == 3 {
            if is_lower_hex(b) {
                mode = 1;
                curlen = 1;
            } else if b == 0x3a {
                if dc {
                    return false;
                }
                mode = 2;
                dc = true;
            } else {
                return false;
            }
        } else {
            if is_lower_hex(b) {
                mode = 1;
                curlen = 1;
            } else {
                return false;
            }
        }
        i = i + 1;
    }
    if mode == 1 {
        if dc {
            groups <= 6
        } else {
            groups == 7
        }
    } else if mode == 2 {
        groups <= 7
    } else {
        false
    }
}

// ---------------------------------------------------------------------------
// Well-formedness and serialization of hosts
// ---------------------------------------------------------------------------

pub open spec fn host_wf(h: HostView) -> bool {
    match h {
        HostView::NoHost => true,
        HostView::EmptyHost => true,
        HostView::Domain(d) => valid_domain(d),
        HostView::Ipv4(t) => valid_ipv4_text(t),
        HostView::Ipv6(t) => valid_ipv6_text(t),
    }
}

/// Appends the serialized host text to `out`.
pub fn push_host_text(h: &Host, out: &mut Vec<u8>)
    ensures
        final(out)@ == old(out)@ + host_text(h@),
{
    match h {
        Host::NoHost => {
            proof {
                assert(out@ =~= old(out)@ + host_text(h@));
            }
        },
        Host::EmptyHost => {
            proof {
                assert(out@ =~= old(out)@ + host_text(h@));
            }
        },
        Host::Domain(d) => {
            push_all(out, d);
            proof {
                assert(out@ =~= old(out)@ + host_text(h@));
            }
        },
        Host::Ipv4(t) => {
            push_all(out, t);
            proof {
                assert(out@ =~= old(out)@ + host_text(h@));
            }
        },
        Host::Ipv6(t) => {
            out.push(0x5b);
            push_all(out, t);
            out.push(0x5d);
            proof {
                assert(out@ =~= old(out)@ + host_text(h@));
            }
        },
    }
}

/// Appends all bytes of `src` to `out`.
pub fn push_all(out: &mut Vec<u8>, src: &Vec<u8>)
    ensures
        final(out)@ == old(out)@ + src@,
{
    let mut i: usize = 0;
    while i < src.len()
        invariant
            i <= src@.len(),
            out@ == old(out)@ + src@.subrange(0, i as int),
        decreases src@.len() - i,
    {
        out.push(src[i]);
        proof {
            assert(old(out)@ + src@.subrange(0, i + 1 as int)
                =~= (old(out)@ + src@.subrange(0, i as int)).push(src@[i as int]));
        }
        i = i + 1;
    }
    proof {
        assert(src@.subrange(0, src@.len() as int) =~= src@);
    }
}

// ---------------------------------------------------------------------------
// Port digits
// ---------------------------------------------------------------------------

/// The decimal digits of `n` (most significant first).
pub open spec fn dec_digits(n: int) -> Seq<u8>
    recommends
        n >= 0,
    decreases n,
{
    if n < 10 {
        seq![(0x30 + if n >= 0 { n } else { 0 }) as u8]
    } else {
        dec_digits(n / 10).push((0x30 + n % 10) as u8)
    }
}

/// Left fold of decimal digits starting from `acc`.
pub open spec fn digits_value(s: Seq<u8>, i: int, acc: int) -> int
    decreases s.len() - i,
{
    if !(0 <= i < s.len()) {
        acc
    } else {
        digits_value(s, i + 1, acc * 10 + (s[i] - 0x30))
    }
}

pub proof fn lemma_dec_digits_are_digits(n: int)
    requires
        n >= 0,
    ensures
        dec_digits(n).len() >= 1,
        forall|i: int| 0 <= i < dec_digits(n).len() ==> is_digit_byte(#[trigger] dec_digits(n)[i]),
    decreases n,
{
    if n >= 10 {
        lemma_dec_digits_are_digits(n / 10);
    }
}

pub proof fn lemma_digits_value_push(s: Seq<u8>, d: u8, i: int, acc: int)
    requires
        0 <= i <= s.len(),
    ensures
        digits_value(s.push(d), i, acc) == digits_value(s, i, acc) * 10 + (d - 0x30),
    decreases s.len() - i,
{
    if i < s.len() {
        assert(s.push(d)[i] == s[i]);
        lemma_digits_value_push(s, d, i + 1, acc * 10 + (s[i] - 0x30));
    } else {
        assert(s.push(d)[s.len() as int] == d);
        assert(digits_value(s.push(d), i + 1, acc * 10 + (d - 0x30)) == acc * 10 + (d - 0x30));
    }
}

/// Parsing the decimal digits of `n` yields `n` again.
pub proof fn lemma_digits_round_trip(n: int)
    requires
        n >= 0,
    ensures
        digits_value(dec_digits(n), 0, 0) == n,
    decreases n,
{
    if n < 10 {
        let s = dec_digits(n);
        assert(s.len() == 1 && s[0] == 0x30 + n);
        assert(digits_value(s, 1, n) == n);
        assert(digits_value(s, 0, 0) == digits_value(s, 1, 0 * 10 + (s[0] - 0x30)));
    } else {
        lemma_digits_round_trip(n / 10);
        lemma_digits_value_push(dec_digits(n / 10), (0x30 + n % 10) as u8, 0, 0);
    }
}

/// When appending digits, the accumulated value never shrinks.
pub proof fn lemma_digits_value_mono(s: Seq<u8>, i: int, acc: int)
    requires
        0 <= i <= s.len(),
        acc >= 0,
        forall|j: int| i <= j < s.len() ==> is_digit_byte(#[trigger] s[j]),
    ensures
        digits_value(s, i, acc) >= acc,
    decreases s.len() - i,
{
    if i < s.len() {
        lemma_digits_value_mono(s, i + 1, acc * 10 + (s[i] - 0x30));
    }
}

/// Appends the decimal digits of `n` to `out`.
pub fn push_decimal(n: u16, out: &mut Vec<u8>)
    ensures
        final(out)@ == old(out)@ + dec_digits(n as int),
    decreases n,
{
    if n < 10 {
        out.push(0x30 + (n as u8));
        proof {
            assert(out@ =~= old(out)@ + dec_digits(n as int));
        }
    } else {
        push_decimal(n / 10, out);
        out.push(0x30 + ((n % 10) as u8));
        proof {
            assert(out@ =~= old(out)@ + dec_digits(n as int));
        }
    }
}

/// Reads the all-digit byte range `[from, to)` as a port number.
///
/// Returns `None` when the value exceeds 65535.
pub fn parse_port_digits(v: &Vec<u8>, from: usize, to: usize) -> (r: Option<u16>)
    requires
        from <= to <= v@.len(),
        forall|j: int| from <= j < to ==> is_digit_byte(#[trigger] v@[j]),
    ensures
        match r {
            Some(p) => digits_value(v@.subrange(from as int, to as int), 0, 0) == p,
            None => digits_value(v@.subrange(from as int, to as int), 0, 0) > 65535,
        },
{
    let ghost s = v@.subrange(from as int, to as int);
    let mut i: usize = from;
    let mut acc: u32 = 0;
    while i < to
        invariant
            from <= i <= to <= v@.len(),
            s == v@.subrange(from as int, to as int),
            forall|j: int| from <= j < to ==> is_digit_byte(#[trigger] v@[j]),
            acc <= 65535,
            digits_value(s, 0, 0) == digits_value(s, i - from, acc as int),
        decreases to - i,
    {
        let b = v[i];
        let next: u32 = acc * 10 + ((b - 0x30) as u32);
        proof {
            assert(s[i - from] == v@[i as int]);
        }
        if next > 65535 {
            proof {
                assert(digits_value(s, i - from, acc as int) == digits_value(
                    s,
                    i + 1 - from,
                    next as int,
                ));
                assert(forall|j: int| i + 1 - from <= j < s.len() ==> is_digit_byte(
                    #[trigger] s[j],
                ));
                lemma_digits_value_mono(s, i + 1 - from, next as int);
            }
            return None;
        }
        acc = next as u32;
        i = i + 1;
    }
    Some(acc as u16)
}

} // verus!
