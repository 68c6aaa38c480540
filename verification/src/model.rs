//! The mathematical model of a URL value: scheme classification, the
//! specification-level view, its well-formedness, canonical serialization,
//! and the scalar mutators.

use vstd::prelude::*;
use crate::bytes::{
    ascii_str, delim_match, enc_needed, encode, find_from, is_alpha_byte, is_digit_byte,
    is_lower_byte, lower_seq, Delim, EncSet,
};
use crate::host::{dec_digits, host_is_real, host_text, host_wf, HostView};

verus! {

// ---------------------------------------------------------------------------
// Schemes
// ---------------------------------------------------------------------------

/// A stored scheme: lowercase letter first, then lowercase letters, digits,
/// `+`, `-` or `.`.
pub open spec fn valid_scheme(s: Seq<u8>) -> bool {
    &&& s.len() >= 1
    &&& is_lower_byte(s[0])
    &&& forall|i: int| 0 <= i < s.len() ==> is_lower_byte(#[trigger] s[i]) || is_digit_byte(s[i])
        || s[i] == 0x2b || s[i] == 0x2d || s[i] == 0x2e
}

/// A scheme argument as a caller may give it, before lowercasing.
pub open spec fn scheme_input_valid(s: Seq<u8>) -> bool {
    &&& s.len() >= 1
    &&& is_alpha_byte(s[0])
    &&& forall|i: int| 0 <= i < s.len() ==> !delim_match(Delim::NonScheme, #[trigger] s[i])
}

pub open spec fn is_http(s: Seq<u8>) -> bool {
    s.len() == 4 && s[0] == 0x68 && s[1] == 0x74 && s[2] == 0x74 && s[3] == 0x70
}

pub open spec fn is_https(s: Seq<u8>) -> bool {
    s.len() == 5 && s[0] == 0x68 && s[1] == 0x74 && s[2] == 0x74 && s[3] == 0x70 && s[4] == 0x73
}

pub open spec fn is_ws(s: Seq<u8>) -> bool {
    s.len() == 2 && s[0] == 0x77 && s[1] == 0x73
}

pub open spec fn is_wss(s: Seq<u8>) -> bool {
    s.len() == 3 && s[0] == 0x77 && s[1] == 0x73 && s[2] == 0x73
}

pub open spec fn is_ftp(s: Seq<u8>) -> bool {
    s.len() == 3 && s[0] == 0x66 && s[1] == 0x74 && s[2] == 0x70
}

pub open spec fn is_file(s: Seq<u8>) -> bool {
    s.len() == 4 && s[0] == 0x66 && s[1] == 0x69 && s[2] == 0x6c && s[3] == 0x65
}

/// The special schemes of the URL standard.
pub open spec fn is_special(s: Seq<u8>) -> bool {
    is_http(s) || is_https(s) || is_ws(s) || is_wss(s) || is_ftp(s) || is_file(s)
}

/// The default port of a scheme, omitted from the serialized form.
pub open spec fn default_port(s: Seq<u8>) -> Option<u16> {
    if is_http(s) || is_ws(s) {
        Some(80u16)
    } else if is_https(s) || is_wss(s) {
        Some(443u16)
    } else if is_ftp(s) {
        Some(21u16)
    } else {
        None
    }
}

/// The percent-encode set for queries under this scheme.
pub open spec fn query_enc_set(scheme: Seq<u8>) -> EncSet {
    if is_special(scheme) {
        EncSet::QuerySpecial
    } else {
        EncSet::QueryPlain
    }
}

pub fn is_special_scheme(v: &Vec<u8>) -> (r: bool)
    ensures
        r == is_special(v@),
{
    let n = v.len();
    (n == 4 && v[0] == 0x68 && v[1] == 0x74 && v[2] == 0x74 && v[3] == 0x70) || (n == 5 && v[0]
        == 0x68 && v[1] == 0x74 && v[2] == 0x74 && v[3] == 0x70 && v[4] == 0x73) || (n == 2 && v[0]
        == 0x77 && v[1] == 0x73) || (n == 3 && v[0] == 0x77 && v[1] == 0x73 && v[2] == 0x73) || (n
        == 3 && v[0] == 0x66 && v[1] == 0x74 && v[2] == 0x70) || (n == 4 && v[0] == 0x66 && v[1]
        == 0x69 && v[2] == 0x6c && v[3] == 0x65)
}

pub fn is_file_scheme(v: &Vec<u8>) -> (r: bool)
    ensures
        r == is_file(v@),
{
    v.len() == 4 && v[0] == 0x66 && v[1] == 0x69 && v[2] == 0x6c && v[3] == 0x65
}

pub fn scheme_default_port(v: &Vec<u8>) -> (r: Option<u16>)
    ensures
        r == default_port(v@),
{
    let n = v.len();
    if (n == 4 && v[0] == 0x68 && v[1] == 0x74 && v[2] == 0x74 && v[3] == 0x70) || (n == 2 && v[0]
        == 0x77 && v[1] == 0x73) {
        Some(80u16)
    } else if (n == 5 && v[0] == 0x68 && v[1] == 0x74 && v[2] == 0x74 && v[3] == 0x70 && v[4]
        == 0x73) || (n == 3 && v[0] == 0x77 && v[1] == 0x73 && v[2] == 0x73) {
        Some(443u16)
    } else if n == 3 && v[0] == 0x66 && v[1] == 0x74 && v[2] == 0x70 {
        Some(21u16)
    } else {
        None
    }
}

// ---------------------------------------------------------------------------
// The URL view
// ---------------------------------------------------------------------------

/// Specification-level URL value. `query` and `fragment` hold the raw
/// (percent-encoded) component without its `?` or `#` separator.
#[verifier::ext_equal]
pub ghost struct UrlView {
    pub scheme: Seq<u8>,
    pub username: Seq<u8>,
    pub password: Seq<u8>,
    pub host: HostView,
    pub port: Option<u16>,
    pub path: Seq<u8>,
    pub query: Option<Seq<u8>>,
    pub fragment: Option<Seq<u8>>,
}

/// Whether the URL carries credentials: an empty username and password
/// together mean none, and serialize without an `@`.
pub open spec fn has_credentials(u: UrlView) -> bool {
    u.username.len() > 0 || u.password.len() > 0
}

/// Bytes allowed to stay in a stored username or password.
pub open spec fn userinfo_bytes_ok(s: Seq<u8>) -> bool {
    forall|i: int| 0 <= i < s.len() ==> !enc_needed(EncSet::UserInfo, #[trigger] s[i])
}

/// A URL with an opaque (cannot-be-a-base) path: no authority and a path
/// that does not start with `/`.
pub open spec fn is_opaque(u: UrlView) -> bool {
    u.host is NoHost && (u.path.len() == 0 || u.path[0] != 0x2f)
}

/// Bytes allowed to stay in a stored hierarchical path.
pub open spec fn path_bytes_ok(p: Seq<u8>) -> bool {
    forall|i: int| 0 <= i < p.len() ==> !enc_needed(EncSet::Path, #[trigger] p[i])
}

/// Bytes allowed to stay in a stored opaque path: besides the opaque encode
/// set, the separators `?` and `#` can never occur in it.
pub open spec fn opaque_bytes_ok(p: Seq<u8>) -> bool {
    forall|i: int| 0 <= i < p.len() ==> !enc_needed(EncSet::Opaque, #[trigger] p[i]) && p[i]
        != 0x3f && p[i] != 0x23
}

pub open spec fn path_wf(u: UrlView) -> bool {
    if u.host is NoHost {
        if u.path.len() == 0 || u.path[0] != 0x2f {
            opaque_bytes_ok(u.path)
        } else {
            &&& path_bytes_ok(u.path)
            &&& (u.path.len() >= 2 ==> u.path[1] != 0x2f)
        }
    } else {
        &&& path_bytes_ok(u.path)
        &&& (u.path.len() > 0 ==> u.path[0] == 0x2f)
        &&& (is_special(u.scheme) ==> u.path.len() >= 1)
    }
}

/// Well-formedness of a URL value: every value parsing yields, and every
/// value the mutators preserve.
pub open spec fn wf(u: UrlView) -> bool {
    &&& valid_scheme(u.scheme)
    &&& host_wf(u.host)
    &&& userinfo_bytes_ok(u.username)
    &&& userinfo_bytes_ok(u.password)
    &&& (has_credentials(u) ==> host_is_real(u.host))
    &&& (is_file(u.scheme) ==> !has_credentials(u))
    &&& (is_special(u.scheme) ==> host_is_real(u.host) || (is_file(u.scheme)
        && u.host is EmptyHost))
    &&& (is_file(u.scheme) ==> u.port is None)
    &&& (u.port is Some ==> host_is_real(u.host))
    &&& (match default_port(u.scheme) {
        Some(d) => u.port != Some(d),
        None => true,
    })
    &&& path_wf(u)
    &&& (match u.query {
        Some(q) => forall|i: int| 0 <= i < q.len() ==> !enc_needed(
            query_enc_set(u.scheme),
            #[trigger] q[i],
        ),
        None => true,
    })
    &&& (match u.fragment {
        Some(f) => forall|i: int| 0 <= i < f.len() ==> !enc_needed(
            EncSet::Fragment,
            #[trigger] f[i],
        ),
        None => true,
    })
}

// ---------------------------------------------------------------------------
// Serialization
// ---------------------------------------------------------------------------

/// The serialized userinfo, including its trailing `@`; empty when the URL
/// carries no credentials, and the `:` appears only with a password.
pub open spec fn userinfo_text(u: UrlView) -> Seq<u8> {
    if has_credentials(u) {
        u.username + (if u.password.len() > 0 {
            seq![0x3au8] + u.password
        } else {
            Seq::<u8>::empty()
        }) + seq![0x40u8]
    } else {
        Seq::empty()
    }
}

/// The serialized authority section, including the leading `//`.
pub open spec fn authority_bytes(u: UrlView) -> Seq<u8> {
    if u.host is NoHost {
        Seq::empty()
    } else {
        seq![0x2fu8, 0x2fu8] + userinfo_text(u) + host_text(u.host) + (match u.port {
            Some(p) => seq![0x3au8] + dec_digits(p as int),
            None => Seq::empty(),
        })
    }
}

/// The canonical serialization (`href`) of a URL value, as bytes.
pub open spec fn spec_href(u: UrlView) -> Seq<u8> {
    u.scheme + seq![0x3au8] + authority_bytes(u) + u.path + (match u.query {
        Some(q) => seq![0x3fu8] + q,
        None => Seq::empty(),
    }) + (match u.fragment {
        Some(f) => seq![0x23u8] + f,
        None => Seq::empty(),
    })
}

/// The characters of the canonical serialization.
pub open spec fn href_chars(u: UrlView) -> Seq<char> {
    ascii_str(spec_href(u))
}

// ---------------------------------------------------------------------------
// Scalar mutators
// ---------------------------------------------------------------------------

/// Scheme replacement. Rejections (the value is returned unchanged):
/// invalid scheme syntax, a change across the special/non-special boundary,
/// `file` with credentials or a port present, and any change away from a
/// `file` URL whose host is empty or absent. On success the port is dropped
/// when it equals the new scheme's default.
pub open spec fn spec_set_scheme(u: UrlView, input: Seq<u8>) -> UrlView {
    let ns = lower_seq(input);
    if !scheme_input_valid(input) {
        u
    } else if is_special(ns) != is_special(u.scheme) {
        u
    } else if is_file(ns) && (u.port is Some || has_credentials(u)) {
        u
    } else if is_file(u.scheme) && !host_is_real(u.host) {
        u
    } else {
        UrlView {
            scheme: ns,
            port: if u.port is Some && default_port(ns) == u.port {
                None
            } else {
                u.port
            },
            ..u
        }
    }
}

/// Path replacement. A no-op on opaque URLs. An empty argument yields `/`
/// for special schemes and an empty path otherwise; a leading `/` is added
/// when missing; with no authority, a run of leading slashes collapses to
/// one; the result is percent-encoded with the path set.
pub open spec fn spec_set_path(u: UrlView, s: Seq<u8>) -> UrlView {
    if is_opaque(u) {
        u
    } else {
        let raw = if s.len() == 0 {
            if is_special(u.scheme) {
                seq![0x2fu8]
            } else {
                Seq::<u8>::empty()
            }
        } else if s[0] == 0x2f {
            s
        } else {
            seq![0x2fu8] + s
        };
        let collapsed = if u.host is NoHost && raw.len() > 0 {
            seq![0x2fu8] + raw.skip(find_from(raw, 0, Delim::NonSlash))
        } else {
            raw
        };
        UrlView { path: encode(EncSet::Path, collapsed), ..u }
    }
}

/// Query replacement: an empty argument removes the component entirely, a
/// non-empty one is installed percent-encoded with the query set.
pub open spec fn spec_set_query(u: UrlView, s: Seq<u8>) -> UrlView {
    if s.len() == 0 {
        UrlView { query: None, ..u }
    } else {
        UrlView { query: Some(encode(query_enc_set(u.scheme), s)), ..u }
    }
}

/// Removal of the whole query component.
pub open spec fn spec_query_clear(u: UrlView) -> UrlView {
    UrlView { query: None, ..u }
}

/// Removal of the whole fragment component.
pub open spec fn spec_fragment_clear(u: UrlView) -> UrlView {
    UrlView { fragment: None, ..u }
}

/// Fragment replacement: same empty-means-absent rule as the query.
pub open spec fn spec_set_fragment(u: UrlView, s: Seq<u8>) -> UrlView {
    if s.len() == 0 {
        UrlView { fragment: None, ..u }
    } else {
        UrlView { fragment: Some(encode(EncSet::Fragment, s)), ..u }
    }
}

} // verus!
