//! Parsing of absolute URL strings: the specification-level grammar
//! [`spec_parse`] and the executable parser proved against it.

use vstd::prelude::*;
use crate::bytes::{
    copy_range, delim_match, encode, encode_range, find, find_from, find_last, is_alpha_byte,
    is_digit_byte, lemma_find_from_props, lower_range, lower_seq, rfind, Delim, EncSet,
};
use crate::host::{
    check_domain_bytes, check_ipv4, check_ipv4_candidate, check_ipv6, digits_value, host_is_real,
    ipv4_candidate, parse_port_digits, valid_domain_byte, valid_ipv4_text, valid_ipv6_text, Host,
    HostView,
};
use crate::model::{
    default_port, is_file, is_special, query_enc_set, UrlView,
};
use crate::url::Url;

verus! {

/// Why an input failed to parse as an absolute URL.
#[derive(Clone, Copy, PartialEq, Eq, Structural, Debug)]
pub enum ParseError {
    /// Missing `:`, or a scheme token that violates the scheme grammar.
    InvalidScheme,
    /// A special scheme other than `file` with an empty host, or a port or
    /// credentials without a real host.
    EmptyHost,
    /// A forbidden byte in a domain name.
    InvalidDomain,
    /// Digits-and-dots host text that is not a canonical IPv4 address.
    InvalidIpv4,
    /// A bracketed host that is not a valid IPv6 literal.
    InvalidIpv6,
    /// A non-digit in the port, a port above 65535, or a port on a `file`
    /// URL.
    InvalidPort,
    /// Credentials on a `file` URL.
    InvalidCredentials,
}

impl ParseError {
    /// The parser's diagnostic message.
    pub fn message(&self) -> (r: String)
        ensures
            r@ == match self {
                ParseError::InvalidScheme => "invalid scheme"@,
                ParseError::EmptyHost => "empty host"@,
                ParseError::InvalidDomain => "invalid domain character"@,
                ParseError::InvalidIpv4 => "invalid IPv4 address"@,
                ParseError::InvalidIpv6 => "invalid IPv6 address"@,
                ParseError::InvalidPort => "invalid port number"@,
                ParseError::InvalidCredentials => "invalid credentials"@,
            },
    {
        match self {
            ParseError::InvalidScheme => "invalid scheme".to_owned(),
            ParseError::EmptyHost => "empty host".to_owned(),
            ParseError::InvalidDomain => "invalid domain character".to_owned(),
            ParseError::InvalidIpv4 => "invalid IPv4 address".to_owned(),
            ParseError::InvalidIpv6 => "invalid IPv6 address".to_owned(),
            ParseError::InvalidPort => "invalid port number".to_owned(),
            ParseError::InvalidCredentials => "invalid credentials".to_owned(),
        }
    }
}

// ---------------------------------------------------------------------------
// The grammar
// ---------------------------------------------------------------------------

/// Classification of lowercased host text between the authority delimiters.
pub open spec fn spec_classify_host(scheme: Seq<u8>, t: Seq<u8>) -> Result<HostView, ParseError> {
    if t.len() == 0 {
        if is_special(scheme) && !is_file(scheme) {
            Err(ParseError::EmptyHost)
        } else {
            Ok(HostView::EmptyHost)
        }
    } else if ipv4_candidate(t) {
        if valid_ipv4_text(t) {
            Ok(HostView::Ipv4(t))
        } else {
            Err(ParseError::InvalidIpv4)
        }
    } else if forall|i: int| 0 <= i < t.len() ==> valid_domain_byte(#[trigger] t[i]) {
        Ok(HostView::Domain(t))
    } else {
        Err(ParseError::InvalidDomain)
    }
}

/// The port section after its `:`; empty means no port, a default port is
/// dropped.
pub open spec fn spec_parse_port(scheme: Seq<u8>, p: Seq<u8>) -> Result<
    Option<u16>,
    ParseError,
> {
    if p.len() == 0 {
        Ok(None)
    } else if find_from(p, 0, Delim::NonDigit) < p.len() {
        Err(ParseError::InvalidPort)
    } else if digits_value(p, 0, 0) > 65535 {
        Err(ParseError::InvalidPort)
    } else {
        let pv = digits_value(p, 0, 0) as u16;
        if default_port(scheme) == Some(pv) {
            Ok(None)
        } else {
            Ok(Some(pv))
        }
    }
}

/// Constraints tying host and port together: a port needs a real host, and
/// `file` URLs take no port.
pub open spec fn spec_host_port_checks(scheme: Seq<u8>, host: HostView, port: Option<u16>) -> Result<
    (HostView, Option<u16>),
    ParseError,
> {
    if port is Some && !host_is_real(host) {
        Err(ParseError::EmptyHost)
    } else if is_file(scheme) && port is Some {
        Err(ParseError::InvalidPort)
    } else {
        Ok((host, port))
    }
}

/// The authority section between `//` and the first `/`, `?` or `#`.
pub open spec fn spec_parse_host_port(scheme: Seq<u8>, auth: Seq<u8>) -> Result<
    (HostView, Option<u16>),
    ParseError,
> {
    if auth.len() > 0 && auth[0] == 0x5b {
        let be = find_from(auth, 1, Delim::CloseBracket);
        if be >= auth.len() {
            Err(ParseError::InvalidIpv6)
        } else {
            let t = lower_seq(auth.subrange(1, be));
            if !valid_ipv6_text(t) {
                Err(ParseError::InvalidIpv6)
            } else {
                let after = auth.skip(be + 1);
                if after.len() == 0 {
                    spec_host_port_checks(scheme, HostView::Ipv6(t), None)
                } else if after[0] == 0x3a {
                    match spec_parse_port(scheme, after.skip(1)) {
                        Err(e) => Err(e),
                        Ok(port) => spec_host_port_checks(scheme, HostView::Ipv6(t), port),
                    }
                } else {
                    Err(ParseError::InvalidIpv6)
                }
            }
        }
    } else {
        let he = find_from(auth, 0, Delim::Colon);
        let t = lower_seq(auth.take(he));
        match spec_classify_host(scheme, t) {
            Err(e) => Err(e),
            Ok(host) => {
                if he < auth.len() {
                    match spec_parse_port(scheme, auth.skip(he + 1)) {
                        Err(e) => Err(e),
                        Ok(port) => spec_host_port_checks(scheme, host, port),
                    }
                } else {
                    spec_host_port_checks(scheme, host, None)
                }
            },
        }
    }
}

/// The query and fragment at the end of the input; `t` is empty or starts
/// with `?` or `#`.
pub open spec fn spec_parse_query_frag(scheme: Seq<u8>, t: Seq<u8>) -> (Option<Seq<u8>>, Option<
    Seq<u8>,
>) {
    if t.len() == 0 {
        (None, None)
    } else if t[0] == 0x3f {
        let fe = find_from(t, 1, Delim::HashMark);
        let q = encode(query_enc_set(scheme), t.subrange(1, fe));
        if fe < t.len() {
            (Some(q), Some(encode(EncSet::Fragment, t.skip(fe + 1))))
        } else {
            (Some(q), None)
        }
    } else {
        (None, Some(encode(EncSet::Fragment, t.skip(1))))
    }
}

/// The hierarchical path, query and fragment; `after` is empty or starts
/// with `/`, `?` or `#`.
pub open spec fn spec_parse_hier_path(
    scheme: Seq<u8>,
    username: Seq<u8>,
    password: Seq<u8>,
    host: HostView,
    port: Option<u16>,
    after: Seq<u8>,
) -> Result<UrlView, ParseError> {
    let pe = find_from(after, 0, Delim::PathEnd);
    let rawpath = after.take(pe);
    let path = if rawpath.len() == 0 && is_special(scheme) {
        seq![0x2fu8]
    } else {
        encode(EncSet::Path, rawpath)
    };
    let qf = spec_parse_query_frag(scheme, after.skip(pe));
    Ok(UrlView { scheme, username, password, host, port, path, query: qf.0, fragment: qf.1 })
}

/// The userinfo before the last `@` of the authority: username before the
/// first `:`, password after it, both stored percent-encoded.
pub open spec fn spec_parse_userinfo(ui: Seq<u8>) -> (Seq<u8>, Seq<u8>) {
    let e = find_from(ui, 0, Delim::Colon);
    (
        encode(EncSet::UserInfo, ui.take(e)),
        if e < ui.len() {
            encode(EncSet::UserInfo, ui.skip(e + 1))
        } else {
            Seq::empty()
        },
    )
}

/// An authority (optionally with userinfo) followed by path, query and
/// fragment.
pub open spec fn spec_parse_with_authority(scheme: Seq<u8>, r: Seq<u8>) -> Result<
    UrlView,
    ParseError,
> {
    let ae = find_from(r, 0, Delim::AuthorityEnd);
    let auth = r.take(ae);
    let la = find_last(auth, Delim::AtSign);
    if la >= 0 {
        if auth.skip(la + 1).len() == 0 {
            Err(ParseError::EmptyHost)
        } else if is_file(scheme) {
            Err(ParseError::InvalidCredentials)
        } else {
            let up = spec_parse_userinfo(auth.take(la));
            match spec_parse_host_port(scheme, auth.skip(la + 1)) {
                Err(e) => Err(e),
                Ok(hp) => if !host_is_real(hp.0) {
                    Err(ParseError::EmptyHost)
                } else {
                    spec_parse_hier_path(scheme, up.0, up.1, hp.0, hp.1, r.skip(ae))
                },
            }
        }
    } else {
        match spec_parse_host_port(scheme, auth) {
            Err(e) => Err(e),
            Ok(hp) => spec_parse_hier_path(
                scheme,
                Seq::empty(),
                Seq::empty(),
                hp.0,
                hp.1,
                r.skip(ae),
            ),
        }
    }
}

/// An opaque (cannot-be-a-base) path, query and fragment.
pub open spec fn spec_parse_opaque(scheme: Seq<u8>, rest: Seq<u8>) -> Result<UrlView, ParseError> {
    let pe = find_from(rest, 0, Delim::PathEnd);
    let path = encode(EncSet::Opaque, rest.take(pe));
    let qf = spec_parse_query_frag(scheme, rest.skip(pe));
    Ok(
        UrlView {
            scheme,
            username: Seq::empty(),
            password: Seq::empty(),
            host: HostView::NoHost,
            port: None,
            path,
            query: qf.0,
            fragment: qf.1,
        },
    )
}

/// The absolute-URL grammar: what [`crate::url::Url::new`] accepts, and the
/// value it yields.
///
/// After the scheme and its `:`, special schemes always take an authority:
/// `file` past one optional `//` (so an empty host keeps its path), the
/// others past any run of slashes. Other schemes take an authority after
/// `//`, a hierarchical path after a single `/`, and an opaque path
/// otherwise.
pub open spec fn spec_parse(s: Seq<u8>) -> Result<UrlView, ParseError> {
    let ce = find_from(s, 0, Delim::NonScheme);
    if ce == 0 || ce >= s.len() || s[ce] != 0x3a || !is_alpha_byte(s[0]) {
        Err(ParseError::InvalidScheme)
    } else {
        let scheme = lower_seq(s.take(ce));
        let rest = s.skip(ce + 1);
        if is_file(scheme) {
            if rest.len() >= 2 && rest[0] == 0x2f && rest[1] == 0x2f {
                spec_parse_with_authority(scheme, rest.skip(2))
            } else {
                spec_parse_with_authority(scheme, rest)
            }
        } else if is_special(scheme) {
            spec_parse_with_authority(scheme, rest.skip(find_from(rest, 0, Delim::NonSlash)))
        } else {
            if rest.len() >= 2 && rest[0] == 0x2f && rest[1] == 0x2f {
                spec_parse_with_authority(scheme, rest.skip(2))
            } else if rest.len() >= 1 && rest[0] == 0x2f {
                spec_parse_hier_path(scheme, Seq::empty(), Seq::empty(), HostView::NoHost, None, rest)
            } else {
                spec_parse_opaque(scheme, rest)
            }
        }
    }
}

// ---------------------------------------------------------------------------
// The executable parser
// ---------------------------------------------------------------------------

fn classify_host(scheme: &Vec<u8>, t: Vec<u8>) -> (r: Result<Host, ParseError>)
    ensures
        match r {
            Ok(h) => spec_classify_host(scheme@, t@) == Ok::<HostView, ParseError>(h@),
            Err(e) => spec_classify_host(scheme@, t@) == Err::<HostView, ParseError>(e),
        },
{
    if t.len() == 0 {
        if crate::model::is_special_scheme(scheme) && !crate::model::is_file_scheme(scheme) {
            Err(ParseError::EmptyHost)
        } else {
            Ok(Host::EmptyHost)
        }
    } else if check_ipv4_candidate(&t) {
        if check_ipv4(&t) {
            Ok(Host::Ipv4(t))
        } else {
            Err(ParseError::InvalidIpv4)
        }
    } else if check_domain_bytes(&t) {
        Ok(Host::Domain(t))
    } else {
        Err(ParseError::InvalidDomain)
    }
}

fn parse_port(scheme: &Vec<u8>, p: &Vec<u8>) -> (r: Result<Option<u16>, ParseError>)
    ensures
        r == spec_parse_port(scheme@, p@),
{
    if p.len() == 0 {
        Ok(None)
    } else {
        let nd = find(p, 0, Delim::NonDigit);
        if nd < p.len() {
            Err(ParseError::InvalidPort)
        } else {
            proof {
                assert(forall|j: int| 0 <= j < p@.len() ==> is_digit_byte(#[trigger] p@[j]));
            }
            match parse_port_digits(p, 0, p.len()) {
                None => {
                    proof {
                        assert(p@.subrange(0, p@.len() as int) =~= p@);
                    }
                    Err(ParseError::InvalidPort)
                },
                Some(pv) => {
                    proof {
                        assert(p@.subrange(0, p@.len() as int) =~= p@);
                    }
                    match crate::model::scheme_default_port(scheme) {
                        Some(d) => {
                            if d == pv {
                                Ok(None)
                            } else {
                                Ok(Some(pv))
                            }
                        },
                        None => Ok(Some(pv)),
                    }
                },
            }
        }
    }
}

fn host_port_checks(scheme: &Vec<u8>, host: Host, port: Option<u16>) -> (r: Result<
    (Host, Option<u16>),
    ParseError,
>)
    ensures
        match r {
            Ok(hp) => spec_host_port_checks(scheme@, host@, port) == Ok::<
                (HostView, Option<u16>),
                ParseError,
            >((hp.0@, hp.1)),
            Err(e) => spec_host_port_checks(scheme@, host@, port) == Err::<
                (HostView, Option<u16>),
                ParseError,
            >(e),
        },
{
    let machine_host = match &host {
        Host::Domain(_) => true,
        Host::Ipv4(_) => true,
        Host::Ipv6(_) => true,
        _ => false,
    };
    if port.is_some() && !machine_host {
        Err(ParseError::EmptyHost)
    } else if crate::model::is_file_scheme(scheme) && port.is_some() {
        Err(ParseError::InvalidPort)
    } else {
        Ok((host, port))
    }
}

fn parse_host_port(scheme: &Vec<u8>, auth: &Vec<u8>) -> (r: Result<
    (Host, Option<u16>),
    ParseError,
>)
    ensures
        match r {
            Ok(hp) => spec_parse_host_port(scheme@, auth@) == Ok::<
                (HostView, Option<u16>),
                ParseError,
            >((hp.0@, hp.1)),
            Err(e) => spec_parse_host_port(scheme@, auth@) == Err::<
                (HostView, Option<u16>),
                ParseError,
            >(e),
        },
{
    if auth.len() > 0 && auth[0] == 0x5b {
        let be = find(auth, 1, Delim::CloseBracket);
        if be >= auth.len() {
            Err(ParseError::InvalidIpv6)
        } else {
            let t = lower_range(auth, 1, be);
            proof {
                assert(t@ =~= lower_seq(auth@.subrange(1, be as int)));
            }
            if !check_ipv6(&t) {
                Err(ParseError::InvalidIpv6)
            } else {
                if be + 1 == auth.len() {
                    proof {
                        assert(auth@.skip(be + 1).len() == 0);
                    }
                    host_port_checks(scheme, Host::Ipv6(t), None)
                } else if auth[be + 1] == 0x3a {
                    let pp = copy_range(auth, be + 2, auth.len());
                    proof {
                        assert(pp@ =~= auth@.skip(be + 1 as int).skip(1));
                        assert(auth@.skip(be + 1 as int)[0] == auth@[be + 1 as int]);
                    }
                    match parse_port(scheme, &pp) {
                        Err(e) => Err(e),
                        Ok(port) => host_port_checks(scheme, Host::Ipv6(t), port),
                    }
                } else {
                    proof {
                        assert(auth@.skip(be + 1 as int)[0] == auth@[be + 1 as int]);
                    }
                    Err(ParseError::InvalidIpv6)
                }
            }
        }
    } else {
        let he = find(auth, 0, Delim::Colon);
        let t = lower_range(auth, 0, he);
        proof {
            assert(t@ =~= lower_seq(auth@.take(he as int)));
        }
        match classify_host(scheme, t) {
            Err(e) => Err(e),
            Ok(host) => {
                if he < auth.len() {
                    let pp = copy_range(auth, he + 1, auth.len());
                    proof {
                        assert(pp@ =~= auth@.skip(he + 1 as int));
                    }
                    match parse_port(scheme, &pp) {
                        Err(e) => Err(e),
                        Ok(port) => host_port_checks(scheme, host, port),
                    }
                } else {
                    host_port_checks(scheme, host, None)
                }
            },
        }
    }
}

fn parse_query_frag(scheme: &Vec<u8>, t: &Vec<u8>) -> (r: (Option<Vec<u8>>, Option<Vec<u8>>))
    ensures
        ({
            let qf = spec_parse_query_frag(scheme@, t@);
            (match r.0 {
                Some(q) => qf.0 == Some(q@),
                None => qf.0 is None,
            }) && (match r.1 {
                Some(f) => qf.1 == Some(f@),
                None => qf.1 is None,
            })
        }),
{
    let qset = if crate::model::is_special_scheme(scheme) {
        EncSet::QuerySpecial
    } else {
        EncSet::QueryPlain
    };
    if t.len() == 0 {
        (None, None)
    } else if t[0] == 0x3f {
        let fe = find(t, 1, Delim::HashMark);
        let q = encode_range(qset, t, 1, fe);
        if fe < t.len() {
            let f = encode_range(EncSet::Fragment, t, fe + 1, t.len());
            proof {
                assert(t@.subrange(fe + 1 as int, t@.len() as int) =~= t@.skip(fe + 1));
            }
            (Some(q), Some(f))
        } else {
            (Some(q), None)
        }
    } else {
        let f = encode_range(EncSet::Fragment, t, 1, t.len());
        proof {
            assert(t@.subrange(1, t@.len() as int) =~= t@.skip(1));
        }
        (None, Some(f))
    }
}

fn parse_hier_path(
    scheme: Vec<u8>,
    username: Vec<u8>,
    password: Vec<u8>,
    host: Host,
    port: Option<u16>,
    after: &Vec<u8>,
) -> (r: Url)
    ensures
        spec_parse_hier_path(scheme@, username@, password@, host@, port, after@) == Ok::<
            UrlView,
            ParseError,
        >(r@),
{
    let pe = find(after, 0, Delim::PathEnd);
    let path = if pe == 0 && crate::model::is_special_scheme(&scheme) {
        let mut p: Vec<u8> = Vec::new();
        p.push(0x2f);
        proof {
            assert(after@.take(0).len() == 0);
            assert(p@ =~= seq![0x2fu8]);
        }
        p
    } else {
        let p = encode_range(EncSet::Path, after, 0, pe);
        proof {
            assert(after@.subrange(0, pe as int) =~= after@.take(pe as int));
            if after@.take(pe as int).len() == 0 && is_special(scheme@) {
                assert(pe == 0);
            }
        }
        p
    };
    let qtail = copy_range(after, pe, after.len());
    proof {
        assert(qtail@ =~= after@.skip(pe as int));
    }
    let qf = parse_query_frag(&scheme, &qtail);
    let u = Url { scheme, username, password, host, port, path, query: qf.0, fragment: qf.1 };
    proof {
        let qfs = spec_parse_query_frag(u.scheme@, after@.skip(pe as int));
        let su = spec_parse_hier_path(
            u.scheme@,
            u.username@,
            u.password@,
            u.host@,
            port,
            after@,
        ).unwrap();
        assert(u@.query == qfs.0);
        assert(u@.fragment == qfs.1);
        assert(su.path == u@.path);
        assert(su =~~= u@);
    }
    u
}

fn parse_with_authority(scheme: Vec<u8>, r: &Vec<u8>) -> (res: Result<Url, ParseError>)
    ensures
        match res {
            Ok(u) => spec_parse_with_authority(scheme@, r@) == Ok::<UrlView, ParseError>(u@),
            Err(e) => spec_parse_with_authority(scheme@, r@) == Err::<UrlView, ParseError>(e),
        },
{
    let ae = find(r, 0, Delim::AuthorityEnd);
    let auth = copy_range(r, 0, ae);
    proof {
        assert(auth@ =~= r@.take(ae as int));
    }
    match rfind(&auth, Delim::AtSign) {
        Some(la) => {
            if la + 1 == auth.len() {
                proof {
                    assert(auth@.skip(la + 1 as int).len() == 0);
                }
                Err(ParseError::EmptyHost)
            } else if crate::model::is_file_scheme(&scheme) {
                Err(ParseError::InvalidCredentials)
            } else {
                let ui = copy_range(&auth, 0, la);
                proof {
                    assert(ui@ =~= auth@.take(la as int));
                }
                let e = find(&ui, 0, Delim::Colon);
                let username = encode_range(EncSet::UserInfo, &ui, 0, e);
                let password = if e < ui.len() {
                    encode_range(EncSet::UserInfo, &ui, e + 1, ui.len())
                } else {
                    Vec::new()
                };
                proof {
                    assert(ui@.subrange(0, e as int) =~= ui@.take(e as int));
                    if e < ui@.len() {
                        assert(ui@.subrange(e + 1 as int, ui@.len() as int) =~= ui@.skip(e + 1));
                    }
                    let up = spec_parse_userinfo(auth@.take(la as int));
                    assert(username@ == up.0 && password@ == up.1);
                }
                let hp_part = copy_range(&auth, la + 1, auth.len());
                proof {
                    assert(hp_part@ =~= auth@.skip(la + 1 as int));
                }
                match parse_host_port(&scheme, &hp_part) {
                    Err(e) => Err(e),
                    Ok(hp) => {
                        let machine_host = match &hp.0 {
                            Host::Domain(_) => true,
                            Host::Ipv4(_) => true,
                            Host::Ipv6(_) => true,
                            _ => false,
                        };
                        if !machine_host {
                            Err(ParseError::EmptyHost)
                        } else {
                            let tail = copy_range(r, ae, r.len());
                            proof {
                                assert(tail@ =~= r@.skip(ae as int));
                            }
                            Ok(parse_hier_path(scheme, username, password, hp.0, hp.1, &tail))
                        }
                    },
                }
            }
        },
        None => {
            match parse_host_port(&scheme, &auth) {
                Err(e) => Err(e),
                Ok(hp) => {
                    let tail = copy_range(r, ae, r.len());
                    proof {
                        assert(tail@ =~= r@.skip(ae as int));
                    }
                    let username: Vec<u8> = Vec::new();
                    let password: Vec<u8> = Vec::new();
                    Ok(parse_hier_path(scheme, username, password, hp.0, hp.1, &tail))
                },
            }
        },
    }
}

fn parse_opaque(scheme: Vec<u8>, rest: &Vec<u8>) -> (r: Url)
    ensures
        spec_parse_opaque(scheme@, rest@) == Ok::<UrlView, ParseError>(r@),
{
    let pe = find(rest, 0, Delim::PathEnd);
    let path = encode_range(EncSet::Opaque, rest, 0, pe);
    proof {
        assert(rest@.subrange(0, pe as int) =~= rest@.take(pe as int));
    }
    let qtail = copy_range(rest, pe, rest.len());
    proof {
        assert(qtail@ =~= rest@.skip(pe as int));
    }
    let qf = parse_query_frag(&scheme, &qtail);
    let u = Url {
        scheme,
        username: Vec::new(),
        password: Vec::new(),
        host: Host::NoHost,
        port: None,
        path,
        query: qf.0,
        fragment: qf.1,
    };
    proof {
        let su = spec_parse_opaque(u.scheme@, rest@).unwrap();
        assert(su =~~= u@);
    }
    u
}

/// Parses the bytes of an absolute URL string.
pub fn parse_bytes(v: &Vec<u8>) -> (r: Result<Url, ParseError>)
    ensures
        match r {
            Ok(u) => spec_parse(v@) == Ok::<UrlView, ParseError>(u@) && crate::model::wf(u@),
            Err(e) => spec_parse(v@) == Err::<UrlView, ParseError>(e),
        },
{
    let ce = find(v, 0, Delim::NonScheme);
    if ce == 0 || ce >= v.len() || v[ce] != 0x3a || !(
    (0x41 <= v[0] && v[0] <= 0x5a) || (0x61 <= v[0] && v[0] <= 0x7a)) {
        return Err(ParseError::InvalidScheme);
    }
    let scheme = lower_range(v, 0, ce);
    proof {
        assert(scheme@ =~= lower_seq(v@.take(ce as int)));
    }
    let rest = copy_range(v, ce + 1, v.len());
    proof {
        assert(rest@ =~= v@.skip(ce + 1 as int));
    }
    let result = if crate::model::is_file_scheme(&scheme) {
        if rest.len() >= 2 && rest[0] == 0x2f && rest[1] == 0x2f {
            let rest2 = copy_range(&rest, 2, rest.len());
            proof {
                assert(rest2@ =~= rest@.skip(2));
            }
            parse_with_authority(scheme, &rest2)
        } else {
            parse_with_authority(scheme, &rest)
        }
    } else if crate::model::is_special_scheme(&scheme) {
        let k = find(&rest, 0, Delim::NonSlash);
        let rest2 = copy_range(&rest, k, rest.len());
        proof {
            assert(rest2@ =~= rest@.skip(find_from(rest@, 0, Delim::NonSlash)));
        }
        parse_with_authority(scheme, &rest2)
    } else {
        if rest.len() >= 2 && rest[0] == 0x2f && rest[1] == 0x2f {
            let rest2 = copy_range(&rest, 2, rest.len());
            proof {
                assert(rest2@ =~= rest@.skip(2));
            }
            parse_with_authority(scheme, &rest2)
        } else if rest.len() >= 1 && rest[0] == 0x2f {
            let username: Vec<u8> = Vec::new();
            let password: Vec<u8> = Vec::new();
            Ok(parse_hier_path(scheme, username, password, Host::NoHost, None, &rest))
        } else {
            Ok(parse_opaque(scheme, &rest))
        }
    };
    proof {
        if result is Ok {
            lemma_spec_parse_wf(v@);
        }
    }
    result
}

// ---------------------------------------------------------------------------
// Well-formedness of parse results
// ---------------------------------------------------------------------------

/// A scheme token accepted by the scanner lowercases to a valid stored
/// scheme.
pub proof fn lemma_scheme_valid(t: Seq<u8>)
    requires
        t.len() >= 1,
        is_alpha_byte(t[0]),
        forall|i: int| 0 <= i < t.len() ==> !delim_match(Delim::NonScheme, #[trigger] t[i]),
    ensures
        crate::model::valid_scheme(lower_seq(t)),
{
    let l = lower_seq(t);
    assert(l.len() == t.len());
    assert forall|i: int| 0 <= i < l.len() implies crate::bytes::is_lower_byte(#[trigger] l[i])
        || is_digit_byte(l[i]) || l[i] == 0x2b || l[i] == 0x2d || l[i] == 0x2e by {
        assert(l[i] == crate::bytes::spec_lower(t[i]));
        assert(!delim_match(Delim::NonScheme, t[i]));
    }
    assert(l[0] == crate::bytes::spec_lower(t[0]));
}

proof fn lemma_query_frag_wf(scheme: Seq<u8>, t: Seq<u8>)
    ensures
        ({
            let qf = spec_parse_query_frag(scheme, t);
            (match qf.0 {
                Some(q) => forall|i: int| 0 <= i < q.len() ==> !crate::bytes::enc_needed(
                    query_enc_set(scheme),
                    #[trigger] q[i],
                ),
                None => true,
            }) && (match qf.1 {
                Some(f) => forall|i: int| 0 <= i < f.len() ==> !crate::bytes::enc_needed(
                    EncSet::Fragment,
                    #[trigger] f[i],
                ),
                None => true,
            })
        }),
{
    if t.len() > 0 {
        if t[0] == 0x3f {
            let fe = find_from(t, 1, Delim::HashMark);
            lemma_find_from_props(t, 1, Delim::HashMark);
            crate::bytes::lemma_encode_safe(query_enc_set(scheme), t.subrange(1, fe));
            if fe < t.len() {
                crate::bytes::lemma_encode_safe(EncSet::Fragment, t.skip(fe + 1));
            }
        } else {
            crate::bytes::lemma_encode_safe(EncSet::Fragment, t.skip(1));
        }
    }
}

proof fn lemma_hier_path_wf(
    scheme: Seq<u8>,
    username: Seq<u8>,
    password: Seq<u8>,
    host: HostView,
    port: Option<u16>,
    after: Seq<u8>,
)
    requires
        crate::model::valid_scheme(scheme),
        crate::host::host_wf(host),
        crate::model::userinfo_bytes_ok(username),
        crate::model::userinfo_bytes_ok(password),
        username.len() > 0 || password.len() > 0 ==> host_is_real(host) && !is_file(scheme),
        is_special(scheme) ==> host_is_real(host) || (is_file(scheme) && host is EmptyHost),
        is_file(scheme) ==> port is None,
        port is Some ==> host_is_real(host),
        match default_port(scheme) {
            Some(d) => port != Some(d),
            None => true,
        },
        after.len() > 0 ==> after[0] == 0x2f || after[0] == 0x3f || after[0] == 0x23,
        host is NoHost ==> !is_special(scheme) && port is None && after.len() >= 1 && after[0]
            == 0x2f && (after.len() >= 2 ==> after[1] != 0x2f),
    ensures
        spec_parse_hier_path(scheme, username, password, host, port, after) is Ok,
        crate::model::wf(spec_parse_hier_path(scheme, username, password, host, port, after).unwrap()),
{
    let pe = find_from(after, 0, Delim::PathEnd);
    lemma_find_from_props(after, 0, Delim::PathEnd);
    let rawpath = after.take(pe);
    let u = spec_parse_hier_path(scheme, username, password, host, port, after).unwrap();
    lemma_query_frag_wf(scheme, after.skip(pe));
    crate::bytes::lemma_encode_safe(EncSet::Path, rawpath);
    if rawpath.len() == 0 && is_special(scheme) {
        assert(u.path =~= seq![0x2fu8]);
        assert(crate::model::path_wf(u));
    } else {
        assert(u.path == crate::bytes::encode(EncSet::Path, rawpath));
        if rawpath.len() > 0 {
            assert(rawpath[0] == after[0]);
            assert(after[0] == 0x2f);
            if host is NoHost {
                assert(rawpath.len() >= 2 ==> rawpath[1] == after[1]);
                crate::bytes::lemma_encode_single_slash(rawpath);
            } else {
                crate::bytes::lemma_encode_first(EncSet::Path, rawpath);
            }
        }
        assert(crate::model::path_wf(u));
    }
}

proof fn lemma_host_port_wf(scheme: Seq<u8>, auth: Seq<u8>)
    requires
        spec_parse_host_port(scheme, auth) is Ok,
    ensures
        ({
            let hp = spec_parse_host_port(scheme, auth).unwrap();
            &&& crate::host::host_wf(hp.0)
            &&& !(hp.0 is NoHost)
            &&& (is_special(scheme) ==> host_is_real(hp.0) || (is_file(scheme)
                && hp.0 is EmptyHost))
            &&& (is_file(scheme) ==> hp.1 is None)
            &&& (hp.1 is Some ==> host_is_real(hp.0))
            &&& (match default_port(scheme) {
                Some(d) => hp.1 != Some(d),
                None => true,
            })
        }),
{
}

/// Every URL value the grammar yields is well-formed.
pub proof fn lemma_spec_parse_wf(s: Seq<u8>)
    requires
        spec_parse(s) is Ok,
    ensures
        crate::model::wf(spec_parse(s).unwrap()),
{
    let ce = find_from(s, 0, Delim::NonScheme);
    lemma_find_from_props(s, 0, Delim::NonScheme);
    let scheme = lower_seq(s.take(ce));
    lemma_scheme_valid(s.take(ce));
    let rest = s.skip(ce + 1);
    if is_file(scheme) {
        if rest.len() >= 2 && rest[0] == 0x2f && rest[1] == 0x2f {
            lemma_with_authority_wf(scheme, rest.skip(2));
        } else {
            lemma_with_authority_wf(scheme, rest);
        }
    } else if is_special(scheme) {
        let k = find_from(rest, 0, Delim::NonSlash);
        lemma_find_from_props(rest, 0, Delim::NonSlash);
        lemma_with_authority_wf(scheme, rest.skip(k));
    } else {
        if rest.len() >= 2 && rest[0] == 0x2f && rest[1] == 0x2f {
            lemma_with_authority_wf(scheme, rest.skip(2));
        } else if rest.len() >= 1 && rest[0] == 0x2f {
            assert(rest.len() >= 2 ==> rest[1] != 0x2f);
            lemma_hier_path_wf(scheme, Seq::empty(), Seq::empty(), HostView::NoHost, None, rest);
        } else {
            lemma_opaque_wf(scheme, rest);
        }
    }
}

proof fn lemma_with_authority_wf(scheme: Seq<u8>, r: Seq<u8>)
    requires
        crate::model::valid_scheme(scheme),
        spec_parse_with_authority(scheme, r) is Ok,
    ensures
        crate::model::wf(spec_parse_with_authority(scheme, r).unwrap()),
{
    let ae = find_from(r, 0, Delim::AuthorityEnd);
    lemma_find_from_props(r, 0, Delim::AuthorityEnd);
    let auth = r.take(ae);
    let la = find_last(auth, Delim::AtSign);
    if la >= 0 {
        let up = spec_parse_userinfo(auth.take(la));
        let e = find_from(auth.take(la), 0, Delim::Colon);
        lemma_find_from_props(auth.take(la), 0, Delim::Colon);
        crate::bytes::lemma_encode_safe(EncSet::UserInfo, auth.take(la).take(e));
        if e < auth.take(la).len() {
            crate::bytes::lemma_encode_safe(EncSet::UserInfo, auth.take(la).skip(e + 1));
        }
        lemma_host_port_wf(scheme, auth.skip(la + 1));
        let hp = spec_parse_host_port(scheme, auth.skip(la + 1)).unwrap();
        lemma_hier_path_wf(scheme, up.0, up.1, hp.0, hp.1, r.skip(ae));
    } else {
        lemma_host_port_wf(scheme, auth);
        let hp = spec_parse_host_port(scheme, auth).unwrap();
        lemma_hier_path_wf(scheme, Seq::empty(), Seq::empty(), hp.0, hp.1, r.skip(ae));
    }
}

proof fn lemma_opaque_wf(scheme: Seq<u8>, rest: Seq<u8>)
    requires
        crate::model::valid_scheme(scheme),
        !is_special(scheme),
        rest.len() > 0 ==> rest[0] != 0x2f,
    ensures
        crate::model::wf(spec_parse_opaque(scheme, rest).unwrap()),
{
    let pe = find_from(rest, 0, Delim::PathEnd);
    lemma_find_from_props(rest, 0, Delim::PathEnd);
    let raw = rest.take(pe);
    let u = spec_parse_opaque(scheme, rest).unwrap();
    lemma_query_frag_wf(scheme, rest.skip(pe));
    crate::bytes::lemma_encode_safe(EncSet::Opaque, raw);
    crate::bytes::lemma_encode_keeps_out(EncSet::Opaque, raw);
    if raw.len() > 0 {
        assert(raw[0] == rest[0]);
        crate::bytes::lemma_encode_first(EncSet::Opaque, raw);
    }
    assert(crate::model::path_wf(u));
}

} // verus!
