//! Byte-level foundations of the URL grammar: ASCII classification,
//! lowercasing, delimiter scanning, percent-encoding and percent-decoding.
//!
//! The whole library works on ASCII byte sequences; strings cross the
//! boundary through [`ascii_to_string`] and [`lossy_string`].

use vstd::prelude::*;

verus! {

// ---------------------------------------------------------------------------
// ASCII classification
// ---------------------------------------------------------------------------

pub open spec fn is_digit_byte(b: u8) -> bool {
    0x30 <= b <= 0x39
}

pub open spec fn is_lower_byte(b: u8) -> bool {
    0x61 <= b <= 0x7a
}

pub open spec fn is_upper_byte(b: u8) -> bool {
    0x41 <= b <= 0x5a
}

pub open spec fn is_alpha_byte(b: u8) -> bool {
    is_lower_byte(b) || is_upper_byte(b)
}

pub open spec fn is_hex_byte(b: u8) -> bool {
    is_digit_byte(b) || (0x41 <= b <= 0x46) || (0x61 <= b <= 0x66)
}

/// Lowercase hexadecimal digit: `0-9`, `a-f`.
pub open spec fn is_lower_hex_byte(b: u8) -> bool {
    is_digit_byte(b) || (0x61 <= b <= 0x66)
}

pub open spec fn spec_lower(b: u8) -> u8 {
    if is_upper_byte(b) {
        (b + 0x20) as u8
    } else {
        b
    }
}

pub open spec fn lower_seq(s: Seq<u8>) -> Seq<u8> {
    s.map_values(|b: u8| spec_lower(b))
}

/// The numeric value of a hexadecimal digit byte.
pub open spec fn hex_val(b: u8) -> u8 {
    if is_digit_byte(b) {
        (b - 0x30) as u8
    } else if 0x41 <= b <= 0x46 {
        (b - 0x41 + 10) as u8
    } else if 0x61 <= b <= 0x66 {
        (b - 0x61 + 10) as u8
    } else {
        0
    }
}

/// Uppercase hexadecimal digit byte for a value below 16.
pub open spec fn spec_hex_upper(n: u8) -> u8 {
    if n < 10 {
        (0x30 + n) as u8
    } else {
        (0x41 + (n - 10)) as u8
    }
}

/// Bytes are interpreted as ASCII characters when building strings.
pub open spec fn ascii_str(s: Seq<u8>) -> Seq<char> {
    s.map_values(|b: u8| b as char)
}

pub fn lower_byte(b: u8) -> (r: u8)
    ensures
        r == spec_lower(b),
{
    if 0x41 <= b && b <= 0x5a {
        b + 0x20
    } else {
        b
    }
}

/// Lowercases a byte range of `v`.
pub fn lower_range(v: &Vec<u8>, from: usize, to: usize) -> (r: Vec<u8>)
    requires
        from <= to <= v@.len(),
    ensures
        r@ == lower_seq(v@.subrange(from as int, to as int)),
{
    let mut out: Vec<u8> = Vec::new();
    let mut i: usize = from;
    while i < to
        invariant
            from <= i <= to <= v@.len(),
            out@ == lower_seq(v@.subrange(from as int, i as int)),
        decreases to - i,
    {
        out.push(lower_byte(v[i]));
        proof {
            assert(v@.subrange(from as int, i + 1 as int)
                =~= v@.subrange(from as int, i as int).push(v@[i as int]));
            assert(lower_seq(v@.subrange(from as int, i + 1 as int))
                =~= lower_seq(v@.subrange(from as int, i as int)).push(spec_lower(v@[i as int])));
        }
        i = i + 1;
    }
    out
}

pub proof fn lemma_lower_seq_fixed(s: Seq<u8>)
    requires
        forall|i: int| 0 <= i < s.len() ==> !is_upper_byte(#[trigger] s[i]),
    ensures
        lower_seq(s) =~= s,
{
}

// ---------------------------------------------------------------------------
// Delimiter scanning
// ---------------------------------------------------------------------------

/// The delimiter classes the parser scans for.
#[derive(Clone, Copy)]
pub enum Delim {
    /// First byte that cannot belong to a scheme (letters, digits, `+`, `-`, `.`).
    NonScheme,
    /// End of an authority section: `/`, `?` or `#`.
    AuthorityEnd,
    /// End of a path: `?` or `#`.
    PathEnd,
    /// Fragment separator `#`.
    HashMark,
    /// `:`.
    Colon,
    /// `]`.
    CloseBracket,
    /// `&`.
    Amp,
    /// `=`.
    EqSign,
    /// First byte that is not a decimal digit.
    NonDigit,
    /// First byte that is not `/`.
    NonSlash,
    /// `@`.
    AtSign,
}

pub open spec fn delim_match(d: Delim, b: u8) -> bool {
    match d {
        Delim::NonScheme => !(is_alpha_byte(b) || is_digit_byte(b) || b == 0x2b || b == 0x2d
            || b == 0x2e),
        Delim::AuthorityEnd => b == 0x2f || b == 0x3f || b == 0x23,
        Delim::PathEnd => b == 0x3f || b == 0x23,
        Delim::HashMark => b == 0x23,
        Delim::Colon => b == 0x3a,
        Delim::CloseBracket => b == 0x5d,
        Delim::Amp => b == 0x26,
        Delim::EqSign => b == 0x3d,
        Delim::NonDigit => !is_digit_byte(b),
        Delim::NonSlash => b != 0x2f,
        Delim::AtSign => b == 0x40,
    }
}

/// Index of the first byte at or after `i` matching `d`, or the length of `s`.
pub open spec fn find_from(s: Seq<u8>, i: int, d: Delim) -> int
    decreases s.len() - i,
{
    if !(0 <= i < s.len()) {
        s.len() as int
    } else if delim_match(d, s[i]) {
        i
    } else {
        find_from(s, i + 1, d)
    }
}

pub proof fn lemma_find_from_props(s: Seq<u8>, i: int, d: Delim)
    requires
        0 <= i <= s.len(),
    ensures
        i <= find_from(s, i, d) <= s.len(),
        forall|j: int| i <= j < find_from(s, i, d) ==> !delim_match(d, s[j]),
        find_from(s, i, d) < s.len() ==> delim_match(d, s[find_from(s, i, d)]),
    decreases s.len() - i,
{
    if i < s.len() && !delim_match(d, s[i]) {
        lemma_find_from_props(s, i + 1, d);
    }
}

pub proof fn lemma_find_from_is(s: Seq<u8>, i: int, k: int, d: Delim)
    requires
        0 <= i <= k <= s.len(),
        forall|j: int| i <= j < k ==> !delim_match(d, #[trigger] s[j]),
        k == s.len() || delim_match(d, s[k]),
    ensures
        find_from(s, i, d) == k,
    decreases k - i,
{
    if i < k {
        lemma_find_from_is(s, i + 1, k, d);
    }
}

pub fn matches_delim(d: Delim, b: u8) -> (r: bool)
    ensures
        r == delim_match(d, b),
{
    match d {
        Delim::NonScheme => !((0x41 <= b && b <= 0x5a) || (0x61 <= b && b <= 0x7a) || (0x30 <= b
            && b <= 0x39) || b == 0x2b || b == 0x2d || b == 0x2e),
        Delim::AuthorityEnd => b == 0x2f || b == 0x3f || b == 0x23,
        Delim::PathEnd => b == 0x3f || b == 0x23,
        Delim::HashMark => b == 0x23,
        Delim::Colon => b == 0x3a,
        Delim::CloseBracket => b == 0x5d,
        Delim::Amp => b == 0x26,
        Delim::EqSign => b == 0x3d,
        Delim::NonDigit => !(0x30 <= b && b <= 0x39),
        Delim::NonSlash => b != 0x2f,
        Delim::AtSign => b == 0x40,
    }
}

/// Scans `v` from `from` for the first byte matching `d`.
pub fn find(v: &Vec<u8>, from: usize, d: Delim) -> (r: usize)
    requires
        from <= v@.len(),
    ensures
        r == find_from(v@, from as int, d),
        from <= r <= v@.len(),
        forall|j: int| from <= j < r ==> !delim_match(d, v@[j]),
        r < v@.len() ==> delim_match(d, v@[r as int]),
{
    let mut i: usize = from;
    while i < v.len()
        invariant
            from <= i <= v@.len(),
            forall|j: int| from <= j < i ==> !delim_match(d, #[trigger] v@[j]),
        decreases v@.len() - i,
    {
        if matches_delim(d, v[i]) {
            proof {
                lemma_find_from_is(v@, from as int, i as int, d);
            }
            return i;
        }
        i = i + 1;
    }
    proof {
        lemma_find_from_is(v@, from as int, v@.len() as int, d);
    }
    v.len()
}

/// Index of the last byte of `s` matching `d`, or `-1` when none does.
pub open spec fn find_last(s: Seq<u8>, d: Delim) -> int
    decreases s.len(),
{
    if s.len() == 0 {
        -1
    } else if delim_match(d, s.last()) {
        s.len() - 1
    } else {
        find_last(s.drop_last(), d)
    }
}

pub proof fn lemma_find_last_at(s: Seq<u8>, k: int, d: Delim)
    requires
        0 <= k < s.len(),
        delim_match(d, s[k]),
        forall|j: int| k < j < s.len() ==> !delim_match(d, #[trigger] s[j]),
    ensures
        find_last(s, d) == k,
    decreases s.len(),
{
    if k < s.len() - 1 {
        assert(forall|j: int| 0 <= j < s.len() - 1 ==> s.drop_last()[j] == s[j]);
        lemma_find_last_at(s.drop_last(), k, d);
    }
}

pub proof fn lemma_find_last_none(s: Seq<u8>, d: Delim)
    requires
        forall|j: int| 0 <= j < s.len() ==> !delim_match(d, #[trigger] s[j]),
    ensures
        find_last(s, d) == -1,
    decreases s.len(),
{
    if s.len() > 0 {
        assert(forall|j: int| 0 <= j < s.len() - 1 ==> s.drop_last()[j] == s[j]);
        lemma_find_last_none(s.drop_last(), d);
    }
}

/// Scans all of `v` for the last byte matching `d`.
pub fn rfind(v: &Vec<u8>, d: Delim) -> (r: Option<usize>)
    ensures
        match r {
            Some(k) => k == find_last(v@, d) && k < v@.len() && delim_match(d, v@[k as int]),
            None => find_last(v@, d) == -1,
        },
{
    let mut i: usize = v.len();
    while i > 0
        invariant
            i <= v@.len(),
            forall|j: int| i <= j < v@.len() ==> !delim_match(d, #[trigger] v@[j]),
        decreases i,
    {
        i = i - 1;
        if matches_delim(d, v[i]) {
            proof {
                lemma_find_last_at(v@, i as int, d);
            }
            return Some(i);
        }
    }
    proof {
        lemma_find_last_none(v@, d);
    }
    None
}

/// Byte-wise equality of two vectors.
pub fn eq_bytes(a: &Vec<u8>, b: &Vec<u8>) -> (r: bool)
    ensures
        r == (a@ == b@),
{
    if a.len() != b.len() {
        return false;
    }
    let mut i: usize = 0;
    while i < a.len()
        invariant
            i <= a@.len(),
            a@.len() == b@.len(),
            forall|j: int| 0 <= j < i ==> a@[j] == b@[j],
        decreases a@.len() - i,
    {
        if a[i] != b[i] {
            return false;
        }
        i = i + 1;
    }
    proof {
        assert(a@ =~= b@);
    }
    true
}

/// Copies the byte range `[from, to)` of `v` into a fresh vector.
pub fn copy_range(v: &Vec<u8>, from: usize, to: usize) -> (r: Vec<u8>)
    requires
        from <= to <= v@.len(),
    ensures
        r@ == v@.subrange(from as int, to as int),
{
    let mut out: Vec<u8> = Vec::new();
    let mut i: usize = from;
    while i < to
        invariant
            from <= i <= to <= v@.len(),
            out@ == v@.subrange(from as int, i as int),
        decreases to - i,
    {
        out.push(v[i]);
        proof {
            assert(v@.subrange(from as int, i + 1 as int)
                =~= v@.subrange(from as int, i as int).push(v@[i as int]));
        }
        i = i + 1;
    }
    out
}

// ---------------------------------------------------------------------------
// Percent-encoding
// ---------------------------------------------------------------------------

/// The percent-encode sets used by the grammar.
#[derive(Clone, Copy)]
pub enum EncSet {
    /// Hierarchical path segments.
    Path,
    /// Opaque (non-hierarchical) paths.
    Opaque,
    /// Query of a URL with a non-special scheme.
    QueryPlain,
    /// Query of a URL with a special scheme (additionally encodes `'`).
    QuerySpecial,
    /// Fragment.
    Fragment,
    /// Username or password inside the authority.
    UserInfo,
    /// `application/x-www-form-urlencoded` bytes (query pairs).
    Form,
}

/// Whether `b` must be percent-encoded (or, for [`EncSet::Form`], replaced)
/// under the set `set`.
pub open spec fn enc_needed(set: EncSet, b: u8) -> bool {
    match set {
        EncSet::Path => b <= 0x20 || b >= 0x7f || b == 0x22 || b == 0x3c || b == 0x3e || b == 0x60
            || b == 0x3f || b == 0x23 || b == 0x7b || b == 0x7d,
        EncSet::Opaque => b < 0x20 || b >= 0x7f,
        EncSet::QueryPlain => b <= 0x20 || b >= 0x7f || b == 0x22 || b == 0x3c || b == 0x3e || b
            == 0x23,
        EncSet::QuerySpecial => b <= 0x20 || b >= 0x7f || b == 0x22 || b == 0x3c || b == 0x3e || b
            == 0x23 || b == 0x27,
        EncSet::Fragment => b <= 0x20 || b >= 0x7f || b == 0x22 || b == 0x3c || b == 0x3e || b
            == 0x60,
        EncSet::UserInfo => b <= 0x20 || b >= 0x7f || b == 0x22 || b == 0x3c || b == 0x3e || b
            == 0x60 || b == 0x3f || b == 0x23 || b == 0x7b || b == 0x7d || b == 0x2f || b == 0x3a
            || b == 0x3b || b == 0x3d || b == 0x40 || b == 0x5b || b == 0x5c || b == 0x5d || b
            == 0x5e || b == 0x7c,
        EncSet::Form => !(is_alpha_byte(b) || is_digit_byte(b) || b == 0x2a || b == 0x2d || b
            == 0x2e || b == 0x5f),
    }
}

/// Encoding of a single byte: itself, `+` (form-encoded space), or `%XX`.
pub open spec fn enc_byte(set: EncSet, b: u8) -> Seq<u8> {
    if (set is Form) && b == 0x20 {
        seq![0x2bu8]
    } else if enc_needed(set, b) {
        seq![0x25u8, spec_hex_upper(b / 16), spec_hex_upper(b % 16)]
    } else {
        seq![b]
    }
}

/// Percent-encoding of a byte sequence under `set`.
pub open spec fn encode(set: EncSet, s: Seq<u8>) -> Seq<u8>
    decreases s.len(),
{
    if s.len() == 0 {
        Seq::empty()
    } else {
        enc_byte(set, s[0]) + encode(set, s.skip(1))
    }
}

pub proof fn lemma_encode_push(set: EncSet, s: Seq<u8>, b: u8)
    ensures
        encode(set, s.push(b)) =~= encode(set, s) + enc_byte(set, b),
    decreases s.len(),
{
    if s.len() == 0 {
        assert(s.push(b)[0] == b);
        assert(s.push(b).skip(1) =~= Seq::<u8>::empty());
        assert(encode(set, s.push(b)) =~= enc_byte(set, b) + encode(set, Seq::<u8>::empty()));
    } else {
        assert(s.push(b).skip(1) =~= s.skip(1).push(b));
        lemma_encode_push(set, s.skip(1), b);
    }
}

pub fn hex_upper(n: u8) -> (r: u8)
    requires
        n < 16,
    ensures
        r == spec_hex_upper(n),
{
    if n < 10 {
        0x30 + n
    } else {
        0x41 + (n - 10)
    }
}

pub fn needs_encoding(set: EncSet, b: u8) -> (r: bool)
    ensures
        r == enc_needed(set, b),
{
    match set {
        EncSet::Path => b <= 0x20 || b >= 0x7f || b == 0x22 || b == 0x3c || b == 0x3e || b == 0x60
            || b == 0x3f || b == 0x23 || b == 0x7b || b == 0x7d,
        EncSet::Opaque => b < 0x20 || b >= 0x7f,
        EncSet::QueryPlain => b <= 0x20 || b >= 0x7f || b == 0x22 || b == 0x3c || b == 0x3e || b
            == 0x23,
        EncSet::QuerySpecial => b <= 0x20 || b >= 0x7f || b == 0x22 || b == 0x3c || b == 0x3e || b
            == 0x23 || b == 0x27,
        EncSet::Fragment => b <= 0x20 || b >= 0x7f || b == 0x22 || b == 0x3c || b == 0x3e || b
            == 0x60,
        EncSet::UserInfo => b <= 0x20 || b >= 0x7f || b == 0x22 || b == 0x3c || b == 0x3e || b
            == 0x60 || b == 0x3f || b == 0x23 || b == 0x7b || b == 0x7d || b == 0x2f || b == 0x3a
            || b == 0x3b || b == 0x3d || b == 0x40 || b == 0x5b || b == 0x5c || b == 0x5d || b
            == 0x5e || b == 0x7c,
        EncSet::Form => !((0x41 <= b && b <= 0x5a) || (0x61 <= b && b <= 0x7a) || (0x30 <= b && b
            <= 0x39) || b == 0x2a || b == 0x2d || b == 0x2e || b == 0x5f),
    }
}

/// Appends the encoding of `b` under `set` to `out`.
pub fn push_encoded(set: EncSet, b: u8, out: &mut Vec<u8>)
    ensures
        final(out)@ == old(out)@ + enc_byte(set, b),
{
    let is_form = match set {
        EncSet::Form => true,
        _ => false,
    };
    if is_form && b == 0x20 {
        out.push(0x2b);
        proof {
            assert(out@ =~= old(out)@ + enc_byte(set, b));
        }
    } else if needs_encoding(set, b) {
        out.push(0x25);
        out.push(hex_upper(b / 16));
        out.push(hex_upper(b % 16));
        proof {
            assert(out@ =~= old(out)@ + enc_byte(set, b));
        }
    } else {
        out.push(b);
        proof {
            assert(out@ =~= old(out)@ + enc_byte(set, b));
        }
    }
}

/// Percent-encodes the byte range `[from, to)` of `v` under `set`.
pub fn encode_range(set: EncSet, v: &Vec<u8>, from: usize, to: usize) -> (r: Vec<u8>)
    requires
        from <= to <= v@.len(),
    ensures
        r@ == encode(set, v@.subrange(from as int, to as int)),
{
    let mut out: Vec<u8> = Vec::new();
    let mut i: usize = from;
    proof {
        assert(v@.subrange(from as int, from as int) =~= Seq::<u8>::empty());
    }
    while i < to
        invariant
            from <= i <= to <= v@.len(),
            out@ == encode(set, v@.subrange(from as int, i as int)),
        decreases to - i,
    {
        push_encoded(set, v[i], &mut out);
        proof {
            assert(v@.subrange(from as int, i + 1 as int)
                =~= v@.subrange(from as int, i as int).push(v@[i as int]));
            lemma_encode_push(set, v@.subrange(from as int, i as int), v@[i as int]);
        }
        i = i + 1;
    }
    out
}

/// Every byte an encoder emits is itself left alone by that encoder.
pub proof fn lemma_enc_byte_safe(set: EncSet, b: u8)
    requires
        !(set is Form),
    ensures
        forall|i: int| 0 <= i < enc_byte(set, b).len() ==> !enc_needed(set, #[trigger] enc_byte(
            set,
            b,
        )[i]),
{
}

pub proof fn lemma_encode_safe(set: EncSet, s: Seq<u8>)
    requires
        !(set is Form),
    ensures
        forall|i: int| 0 <= i < encode(set, s).len() ==> !enc_needed(set, #[trigger] encode(
            set,
            s,
        )[i]),
    decreases s.len(),
{
    if s.len() > 0 {
        lemma_enc_byte_safe(set, s[0]);
        lemma_encode_safe(set, s.skip(1));
        assert forall|i: int| 0 <= i < encode(set, s).len() implies !enc_needed(
            set,
            #[trigger] encode(set, s)[i],
        ) by {
            let head = enc_byte(set, s[0]);
            if i < head.len() {
                assert(encode(set, s)[i] == head[i]);
            } else {
                assert(encode(set, s)[i] == encode(set, s.skip(1))[i - head.len()]);
            }
        }
    }
}

/// Encoding a sequence none of whose bytes need encoding leaves it unchanged.
pub proof fn lemma_encode_of_safe(set: EncSet, s: Seq<u8>)
    requires
        !(set is Form),
        forall|i: int| 0 <= i < s.len() ==> !enc_needed(set, #[trigger] s[i]),
    ensures
        encode(set, s) =~= s,
    decreases s.len(),
{
    if s.len() > 0 {
        lemma_encode_of_safe(set, s.skip(1));
    }
}

/// Encoding never introduces `?` or `#` when the input has none.
pub proof fn lemma_encode_keeps_out(set: EncSet, s: Seq<u8>)
    requires
        forall|i: int| 0 <= i < s.len() ==> s[i] != 0x3f && s[i] != 0x23,
    ensures
        forall|i: int| 0 <= i < encode(set, s).len() ==> #[trigger] encode(set, s)[i] != 0x3f
            && encode(set, s)[i] != 0x23,
    decreases s.len(),
{
    if s.len() > 0 {
        lemma_encode_keeps_out(set, s.skip(1));
        assert forall|i: int| 0 <= i < encode(set, s).len() implies #[trigger] encode(set, s)[i]
            != 0x3f && encode(set, s)[i] != 0x23 by {
            let head = enc_byte(set, s[0]);
            if i < head.len() {
                assert(encode(set, s)[i] == head[i]);
            } else {
                assert(encode(set, s)[i] == encode(set, s.skip(1))[i - head.len()]);
            }
        }
    }
}

/// The first byte of an encoded non-empty sequence: the first input byte
/// when it needs no encoding, `%` when it does (`+` only for the form set).
pub proof fn lemma_encode_first(set: EncSet, s: Seq<u8>)
    requires
        s.len() >= 1,
    ensures
        encode(set, s).len() >= 1,
        encode(set, s)[0] == enc_byte(set, s[0])[0],
        !enc_needed(set, s[0]) ==> encode(set, s)[0] == s[0],
        s[0] != 0x2f ==> encode(set, s)[0] != 0x2f,
{
    assert(encode(set, s) =~= enc_byte(set, s[0]) + encode(set, s.skip(1)));
}

/// The shape of an encoded path whose input starts with a single slash.
pub proof fn lemma_encode_single_slash(s: Seq<u8>)
    requires
        s.len() >= 1,
        s[0] == 0x2f,
        s.len() >= 2 ==> s[1] != 0x2f,
    ensures
        encode(EncSet::Path, s).len() >= 1,
        encode(EncSet::Path, s)[0] == 0x2f,
        encode(EncSet::Path, s).len() >= 2 ==> encode(EncSet::Path, s)[1] != 0x2f,
{
    let e = encode(EncSet::Path, s);
    let t = s.skip(1);
    let e1 = encode(EncSet::Path, t);
    assert(enc_byte(EncSet::Path, 0x2f) =~= seq![0x2fu8]);
    assert(e =~= seq![0x2fu8] + e1);
    if s.len() >= 2 {
        assert(t.len() >= 1 && t[0] == s[1]);
        lemma_encode_first(EncSet::Path, t);
        assert(e[1] == e1[0]);
    } else {
        assert(t.len() == 0);
        assert(e1.len() == 0);
    }
}

// ---------------------------------------------------------------------------
// Percent-decoding (form-urlencoded flavour: `+` decodes to a space)
// ---------------------------------------------------------------------------

/// Decoding of a form-urlencoded byte sequence: `%XX` with two hexadecimal
/// digits becomes one byte, `+` becomes a space, anything else is literal.
pub open spec fn form_decode(s: Seq<u8>) -> Seq<u8>
    decreases s.len(),
{
    if s.len() == 0 {
        Seq::empty()
    } else if s[0] == 0x25 && s.len() >= 3 && is_hex_byte(s[1]) && is_hex_byte(s[2]) {
        seq![(hex_val(s[1]) * 16 + hex_val(s[2])) as u8] + form_decode(s.skip(3))
    } else if s[0] == 0x2b {
        seq![0x20u8] + form_decode(s.skip(1))
    } else {
        seq![s[0]] + form_decode(s.skip(1))
    }
}

pub fn hex_value(b: u8) -> (r: u8)
    ensures
        r == hex_val(b),
{
    if 0x30 <= b && b <= 0x39 {
        b - 0x30
    } else if 0x41 <= b && b <= 0x46 {
        b - 0x41 + 10
    } else if 0x61 <= b && b <= 0x66 {
        b - 0x61 + 10
    } else {
        0
    }
}

pub fn is_hex(b: u8) -> (r: bool)
    ensures
        r == is_hex_byte(b),
{
    (0x30 <= b && b <= 0x39) || (0x41 <= b && b <= 0x46) || (0x61 <= b && b <= 0x66)
}

/// Decodes the form-urlencoded byte range `[from, to)` of `v`.
pub fn decode_range(v: &Vec<u8>, from: usize, to: usize) -> (r: Vec<u8>)
    requires
        from <= to <= v@.len(),
    ensures
        r@ == form_decode(v@.subrange(from as int, to as int)),
{
    let ghost whole = v@.subrange(from as int, to as int);
    let mut out: Vec<u8> = Vec::new();
    let mut i: usize = from;
    while i < to
        invariant
            from <= i <= to <= v@.len(),
            whole == v@.subrange(from as int, to as int),
            form_decode(whole) == out@ + form_decode(v@.subrange(i as int, to as int)),
        decreases to - i,
    {
        let ghost rem = v@.subrange(i as int, to as int);
        if v[i] == 0x25 && to - i > 2 && is_hex(v[i + 1]) && is_hex(v[i + 2]) {
            out.push(hex_value(v[i + 1]) * 16 + hex_value(v[i + 2]));
            proof {
                assert(rem.len() >= 3 && rem[0] == 0x25 && rem[1] == v@[i + 1] && rem[2] == v@[i
                    + 2]);
                assert(rem.skip(3) =~= v@.subrange(i + 3 as int, to as int));
                assert(form_decode(rem) =~= seq![(hex_val(rem[1]) * 16 + hex_val(rem[2])) as u8]
                    + form_decode(rem.skip(3)));
                assert(form_decode(whole) =~= out@ + form_decode(
                    v@.subrange(i + 3 as int, to as int),
                ));
            }
            i = i + 3;
        } else {
            let b = v[i];
            let decoded: u8 = if b == 0x2b {
                0x20
            } else {
                b
            };
            out.push(decoded);
            proof {
                assert(rem[0] == b);
                assert(rem.skip(1) =~= v@.subrange(i + 1 as int, to as int));
                assert(form_decode(rem) =~= seq![decoded] + form_decode(rem.skip(1)));
                assert(form_decode(whole) =~= out@ + form_decode(
                    v@.subrange(i + 1 as int, to as int),
                ));
            }
            i = i + 1;
        }
    }
    proof {
        assert(v@.subrange(to as int, to as int) =~= Seq::<u8>::empty());
        assert(out@ =~= out@ + form_decode(Seq::<u8>::empty()));
    }
    out
}

// ---------------------------------------------------------------------------
// Strings at the boundary
// ---------------------------------------------------------------------------

/// Relies on `String::from_utf8`: a vector of bytes below 0x80 is valid
/// UTF-8, and the resulting string has exactly those bytes as characters.
#[verifier::external_body]
pub fn ascii_to_string(v: Vec<u8>) -> (r: String)
    requires
        forall|i: int| 0 <= i < v@.len() ==> v@[i] < 0x80,
    ensures
        r@ == ascii_str(v@),
{
    match String::from_utf8(v) {
        Ok(s) => s,
        Err(_) => String::new(),
    }
}

/// The characters `String::from_utf8_lossy` yields for a byte sequence.
pub uninterp spec fn lossy_chars(s: Seq<u8>) -> Seq<char>;

/// Relies on `String::from_utf8_lossy`: the result is a function of the bytes
/// alone, and bytes below 0x80 are valid UTF-8 and come through unchanged.
#[verifier::external_body]
pub fn lossy_string(v: &Vec<u8>) -> (r: String)
    ensures
        r@ == lossy_chars(v@),
        (forall|i: int| 0 <= i < v@.len() ==> v@[i] < 0x80) ==> r@ == ascii_str(v@),
{
    String::from_utf8_lossy(v.as_slice()).into_owned()
}

} // verus!
