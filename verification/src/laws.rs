//! The library's laws: parsing inverts serialization on every well-formed
//! URL value (so serialize-parse round trips are idempotent), and clearing
//! the query or fragment removes its separator from the serialization.

use vstd::prelude::*;
use crate::bytes::{
    delim_match, enc_needed, encode, find_from, lemma_encode_of_safe, lemma_find_from_is,
    lemma_lower_seq_fixed, Delim, EncSet,
};
use crate::host::{
    dec_digits, digits_value, host_is_real, host_text, host_wf, ipv4_candidate,
    lemma_dec_digits_are_digits, lemma_digits_round_trip, lemma_ipv4_bytes, lemma_ipv6_bytes,
    valid_domain_byte, HostView,
};
use crate::model::{
    authority_bytes, default_port, has_credentials, is_file, is_special, query_enc_set, spec_href,
    spec_set_fragment, spec_set_query, userinfo_text, wf, UrlView,
};
use crate::parse::{
    spec_classify_host, spec_parse, spec_parse_hier_path, spec_parse_host_port, spec_parse_opaque,
    spec_parse_port, spec_parse_query_frag, spec_parse_with_authority, lemma_spec_parse_wf,
    ParseError,
};

verus! {

/// The serialized query part, with its `?`.
pub open spec fn query_part(q: Option<Seq<u8>>) -> Seq<u8> {
    match q {
        Some(q) => seq![0x3fu8] + q,
        None => Seq::empty(),
    }
}

/// The serialized fragment part, with its `#`.
pub open spec fn fragment_part(f: Option<Seq<u8>>) -> Seq<u8> {
    match f {
        Some(f) => seq![0x23u8] + f,
        None => Seq::empty(),
    }
}

/// The host text of a well-formed host holds no `/`, `?`, `#`, `@` or
/// upper-case byte; for domains and IPv4 hosts it holds no `:` either.
proof fn lemma_host_text_bytes(h: HostView)
    requires
        host_wf(h),
    ensures
        forall|j: int| 0 <= j < host_text(h).len() ==> host_text(h)[j] != 0x2f && host_text(h)[j]
            != 0x3f && host_text(h)[j] != 0x23 && host_text(h)[j] != 0x40
            && !crate::bytes::is_upper_byte(host_text(h)[j]),
        h is Domain || h is Ipv4 ==> forall|j: int|
            0 <= j < host_text(h).len() ==> host_text(h)[j] != 0x3a,
        h is Ipv6 ==> host_text(h).len() >= 2 && host_text(h)[0] == 0x5b && (forall|j: int|
            1 <= j < host_text(h).len() - 1 ==> host_text(h)[j] != 0x5d) && host_text(h)[host_text(
            h,
        ).len() - 1] == 0x5d,
        host_is_real(h) ==> host_text(h).len() > 0,
{
    match h {
        HostView::Domain(d) => {
        },
        HostView::Ipv4(t) => {
            lemma_ipv4_bytes(t, 0, 0, 0, 0);
            if t.len() == 0 {
                assert(!crate::host::ipv4_st(t, 0, 0, 0, 0));
            }
        },
        HostView::Ipv6(t) => {
            lemma_ipv6_bytes(t, 0, 0, 0, 0, false);
            let ht = host_text(h);
            assert(ht =~= seq![0x5bu8] + t + seq![0x5du8]);
            assert forall|j: int| 0 <= j < ht.len() implies ht[j] != 0x2f && ht[j] != 0x3f
                && ht[j] != 0x23 && ht[j] != 0x40 && !crate::bytes::is_upper_byte(ht[j]) by {
                if 1 <= j < ht.len() - 1 {
                    assert(ht[j] == t[j - 1]);
                }
            }
            assert forall|j: int| 1 <= j < ht.len() - 1 implies ht[j] != 0x5d by {
                assert(ht[j] == t[j - 1]);
            }
        },
        _ => {
        },
    }
}

/// The serialized authority holds no `?` or `#`, and past its leading `//`
/// no further byte until a `/` could end it early.
proof fn lemma_authority_bytes(u: UrlView)
    requires
        wf(u),
    ensures
        forall|j: int| 0 <= j < authority_bytes(u).len() ==> authority_bytes(u)[j] != 0x3f
            && authority_bytes(u)[j] != 0x23,
        forall|j: int| 2 <= j < authority_bytes(u).len() ==> authority_bytes(u)[j] != 0x2f,
{
    let a = authority_bytes(u);
    if !(u.host is NoHost) {
        lemma_host_text_bytes(u.host);
        let ui = userinfo_text(u);
        let ht = host_text(u.host);
        let pstr = match u.port {
            Some(p) => seq![0x3au8] + dec_digits(p as int),
            None => Seq::<u8>::empty(),
        };
        if u.port is Some {
            lemma_dec_digits_are_digits(u.port.unwrap() as int);
        }
        lemma_userinfo_bytes(u);
        assert(a =~= seq![0x2fu8, 0x2fu8] + ui + ht + pstr);
        assert forall|j: int| 0 <= j < a.len() implies a[j] != 0x3f && a[j] != 0x23 && (j >= 2
            ==> a[j] != 0x2f) by {
            if j >= 2 {
                if j - 2 < ui.len() {
                    assert(a[j] == ui[j - 2]);
                } else if j - 2 - ui.len() < ht.len() {
                    assert(a[j] == ht[j - 2 - ui.len()]);
                } else {
                    assert(a[j] == pstr[j - 2 - ui.len() - ht.len()]);
                    if j - 2 - ui.len() - ht.len() > 0 {
                        assert(pstr[j - 2 - ui.len() - ht.len()] == dec_digits(
                            u.port.unwrap() as int,
                        )[j - 3 - ui.len() - ht.len()]);
                    }
                }
            }
        }
    }
}

/// The serialized userinfo holds no `/`, `?` or `#`, and its only `@` is
/// the final one.
proof fn lemma_userinfo_bytes(u: UrlView)
    requires
        wf(u),
    ensures
        forall|j: int| 0 <= j < userinfo_text(u).len() ==> userinfo_text(u)[j] != 0x2f
            && userinfo_text(u)[j] != 0x3f && userinfo_text(u)[j] != 0x23,
        forall|j: int| 0 <= j < userinfo_text(u).len() - 1 ==> userinfo_text(u)[j] != 0x40,
        has_credentials(u) ==> userinfo_text(u).len() >= 1 && userinfo_text(u)[userinfo_text(
            u,
        ).len() - 1] == 0x40,
        !has_credentials(u) ==> userinfo_text(u).len() == 0,
{
    if has_credentials(u) {
        let ui = userinfo_text(u);
        let mid = if u.password.len() > 0 {
            seq![0x3au8] + u.password
        } else {
            Seq::<u8>::empty()
        };
        assert(ui =~= u.username + mid + seq![0x40u8]);
        assert forall|j: int| 0 <= j < ui.len() implies ui[j] != 0x2f && ui[j] != 0x3f && ui[j]
            != 0x23 && (j < ui.len() - 1 ==> ui[j] != 0x40) by {
            if j < u.username.len() {
                assert(ui[j] == u.username[j]);
            } else if j < u.username.len() + mid.len() {
                assert(ui[j] == mid[j - u.username.len()]);
                if j - u.username.len() > 0 {
                    assert(mid[j - u.username.len()] == u.password[j - u.username.len() - 1]);
                }
            } else {
                assert(ui[j] == 0x40);
            }
        }
    }
}

/// Query and fragment recovery: parsing the serialized query/fragment tail
/// yields the components back.
proof fn lemma_qf_round(scheme: Seq<u8>, q: Option<Seq<u8>>, f: Option<Seq<u8>>)
    requires
        match q {
            Some(qq) => forall|i: int| 0 <= i < qq.len() ==> !enc_needed(
                query_enc_set(scheme),
                #[trigger] qq[i],
            ),
            None => true,
        },
        match f {
            Some(ff) => forall|i: int| 0 <= i < ff.len() ==> !enc_needed(
                EncSet::Fragment,
                #[trigger] ff[i],
            ),
            None => true,
        },
    ensures
        spec_parse_query_frag(scheme, query_part(q) + fragment_part(f)) == (q, f),
{
    let t = query_part(q) + fragment_part(f);
    match q {
        Some(qq) => {
            assert(t[0] == 0x3f);
            assert forall|j: int| 1 <= j < 1 + qq.len() implies !delim_match(
                Delim::HashMark,
                t[j],
            ) by {
                assert(t[j] == qq[j - 1]);
            }
            match f {
                Some(ff) => {
                    assert(t[1 + qq.len() as int] == 0x23);
                    lemma_find_from_is(t, 1, 1 + qq.len() as int, Delim::HashMark);
                    assert(t.subrange(1, 1 + qq.len() as int) =~= qq);
                    assert(t.skip(1 + qq.len() + 1 as int) =~= ff);
                    lemma_encode_of_safe(query_enc_set(scheme), qq);
                    lemma_encode_of_safe(EncSet::Fragment, ff);
                },
                None => {
                    lemma_find_from_is(t, 1, t.len() as int, Delim::HashMark);
                    assert(t.subrange(1, t.len() as int) =~= qq);
                    lemma_encode_of_safe(query_enc_set(scheme), qq);
                },
            }
        },
        None => {
            match f {
                Some(ff) => {
                    assert(t[0] == 0x23);
                    assert(t.skip(1) =~= ff);
                    lemma_encode_of_safe(EncSet::Fragment, ff);
                },
                None => {
                    assert(t.len() == 0);
                },
            }
        },
    }
}

/// The hierarchical tail (path, query, fragment) parses back to its
/// components.
proof fn lemma_hier_round(u: UrlView)
    requires
        wf(u),
        !(u.host is NoHost && (u.path.len() == 0 || u.path[0] != 0x2f)),
    ensures
        spec_parse_hier_path(u.scheme, u.username, u.password, u.host, u.port, u.path + query_part(
            u.query,
        ) + fragment_part(u.fragment)) == Ok::<UrlView, ParseError>(u),
{
    let tail = u.path + query_part(u.query) + fragment_part(u.fragment);
    assert forall|j: int| 0 <= j < u.path.len() implies !delim_match(Delim::PathEnd, tail[j]) by {
        assert(tail[j] == u.path[j]);
    }
    if u.path.len() < tail.len() {
        assert(tail[u.path.len() as int] == 0x3f || tail[u.path.len() as int] == 0x23);
    }
    lemma_find_from_is(tail, 0, u.path.len() as int, Delim::PathEnd);
    assert(tail.take(u.path.len() as int) =~= u.path);
    assert(tail.skip(u.path.len() as int) =~= query_part(u.query) + fragment_part(u.fragment));
    if u.path.len() == 0 {
        assert(!is_special(u.scheme));
        assert(encode(EncSet::Path, u.path) =~= u.path);
    } else {
        lemma_encode_of_safe(EncSet::Path, u.path);
    }
    lemma_qf_round(u.scheme, u.query, u.fragment);
    let r = spec_parse_hier_path(u.scheme, u.username, u.password, u.host, u.port, tail);
    assert(r is Ok);
    assert(r.unwrap() =~~= u);
}

/// The serialized authority section and tail parse back to host, port and
/// the rest.
#[verifier::rlimit(100)]
proof fn lemma_auth_round(u: UrlView)
    requires
        wf(u),
        !(u.host is NoHost),
    ensures
        spec_parse_with_authority(u.scheme, userinfo_text(u) + host_text(u.host) + (match u.port {
            Some(p) => seq![0x3au8] + dec_digits(p as int),
            None => Seq::<u8>::empty(),
        }) + (u.path + query_part(u.query) + fragment_part(u.fragment))) == Ok::<
            UrlView,
            ParseError,
        >(u),
{
    let ui = userinfo_text(u);
    let ht = host_text(u.host);
    let pstr = match u.port {
        Some(p) => seq![0x3au8] + dec_digits(p as int),
        None => Seq::<u8>::empty(),
    };
    let tail = u.path + query_part(u.query) + fragment_part(u.fragment);
    let a2 = ui + ht + pstr;
    let r = ui + ht + pstr + tail;
    assert(r =~= a2 + tail);
    lemma_host_text_bytes(u.host);
    lemma_userinfo_bytes(u);
    if u.port is Some {
        lemma_dec_digits_are_digits(u.port.unwrap() as int);
    }
    // the authority ends exactly where the tail begins
    assert forall|j: int| 0 <= j < a2.len() implies !delim_match(Delim::AuthorityEnd, r[j]) by {
        assert(r[j] == a2[j]);
        if j < ui.len() {
            assert(a2[j] == ui[j]);
        } else if j - ui.len() < ht.len() {
            assert(a2[j] == ht[j - ui.len()]);
        } else {
            assert(a2[j] == pstr[j - ui.len() - ht.len()]);
            if j - ui.len() - ht.len() > 0 {
                assert(pstr[j - ui.len() - ht.len()] == dec_digits(u.port.unwrap() as int)[j
                    - ui.len() - ht.len() - 1]);
            }
        }
    }
    if a2.len() < r.len() {
        assert(r[a2.len() as int] == tail[0]);
        if u.path.len() > 0 {
            assert(tail[0] == u.path[0]);
            assert(u.path[0] == 0x2f);
        } else {
            assert(tail =~= query_part(u.query) + fragment_part(u.fragment));
            assert(tail[0] == 0x3f || tail[0] == 0x23);
        }
    }
    lemma_find_from_is(r, 0, a2.len() as int, Delim::AuthorityEnd);
    assert(r.take(a2.len() as int) =~= a2);
    assert(r.skip(a2.len() as int) =~= tail);
    // the only `@` of the authority closes the userinfo
    assert forall|j: int| ui.len() <= j < a2.len() implies !delim_match(
        Delim::AtSign,
        a2[j],
    ) by {
        if j - ui.len() < ht.len() {
            assert(a2[j] == ht[j - ui.len()]);
        } else {
            assert(a2[j] == pstr[j - ui.len() - ht.len()]);
            if j - ui.len() - ht.len() > 0 {
                assert(pstr[j - ui.len() - ht.len()] == dec_digits(u.port.unwrap() as int)[j
                    - ui.len() - ht.len() - 1]);
            }
        }
    }
    lemma_host_port_round(u);
    lemma_hier_round(u);
    if has_credentials(u) {
        let la = ui.len() - 1;
        assert(a2[la] == ui[la]);
        crate::bytes::lemma_find_last_at(a2, la, Delim::AtSign);
        assert(host_is_real(u.host));
        assert(ht.len() > 0);
        assert(a2.skip(la + 1) =~= ht + pstr);
        // userinfo recovery: the username holds no colon
        let uu = a2.take(la);
        let mid = if u.password.len() > 0 {
            seq![0x3au8] + u.password
        } else {
            Seq::<u8>::empty()
        };
        assert(uu =~= u.username + mid);
        assert forall|j: int| 0 <= j < u.username.len() implies !delim_match(
            Delim::Colon,
            uu[j],
        ) by {
            assert(uu[j] == u.username[j]);
        }
        let e = find_from(uu, 0, Delim::Colon);
        lemma_encode_of_safe(EncSet::UserInfo, u.username);
        lemma_encode_of_safe(EncSet::UserInfo, u.password);
        let up = crate::parse::spec_parse_userinfo(uu);
        if u.password.len() > 0 {
            assert(uu[u.username.len() as int] == mid[0]);
            lemma_find_from_is(uu, 0, u.username.len() as int, Delim::Colon);
            assert(e == u.username.len() as int);
            assert(uu.take(e) =~= u.username);
            assert(uu.skip(e + 1) =~= u.password);
            assert(up.0 == encode(EncSet::UserInfo, u.username));
            assert(up.1 == encode(EncSet::UserInfo, u.password));
        } else {
            assert(uu =~= u.username);
            lemma_find_from_is(uu, 0, uu.len() as int, Delim::Colon);
            assert(e == uu.len());
            assert(uu.take(e) =~= u.username);
            assert(up.0 == encode(EncSet::UserInfo, u.username));
            assert(up.1 =~= u.password);
        }
        assert(up.0 =~= u.username);
        assert(up.1 =~= u.password);
        assert(!is_file(u.scheme));
        let res = spec_parse_with_authority(u.scheme, r);
        assert(res == spec_parse_hier_path(
            u.scheme,
            up.0,
            up.1,
            u.host,
            u.port,
            tail,
        ));
        assert(res == Ok::<UrlView, ParseError>(u));
    } else {
        assert(ui.len() == 0);
        crate::bytes::lemma_find_last_none(a2, Delim::AtSign);
        assert(a2 =~= ht + pstr);
        let res = spec_parse_with_authority(u.scheme, r);
        assert(res == spec_parse_hier_path(
            u.scheme,
            Seq::<u8>::empty(),
            Seq::<u8>::empty(),
            u.host,
            u.port,
            tail,
        ));
        assert(u.username =~= Seq::<u8>::empty());
        assert(u.password =~= Seq::<u8>::empty());
        assert(res == Ok::<UrlView, ParseError>(u));
    }
}

/// Host and port recovery from the serialized authority text.
proof fn lemma_host_port_round(u: UrlView)
    requires
        wf(u),
        !(u.host is NoHost),
    ensures
        spec_parse_host_port(u.scheme, host_text(u.host) + (match u.port {
            Some(p) => seq![0x3au8] + dec_digits(p as int),
            None => Seq::<u8>::empty(),
        })) == Ok::<(HostView, Option<u16>), ParseError>((u.host, u.port)),
{
    let ht = host_text(u.host);
    let pstr = match u.port {
        Some(p) => seq![0x3au8] + dec_digits(p as int),
        None => Seq::<u8>::empty(),
    };
    let a2 = ht + pstr;
    lemma_host_text_bytes(u.host);
    if u.port is Some {
        lemma_dec_digits_are_digits(u.port.unwrap() as int);
        lemma_digits_round_trip(u.port.unwrap() as int);
    }
    match u.host {
        HostView::Ipv6(t) => {
            assert(a2[0] == 0x5b);
            lemma_ipv6_bytes(t, 0, 0, 0, 0, false);
            assert forall|j: int| 1 <= j < 1 + t.len() implies !delim_match(
                Delim::CloseBracket,
                a2[j],
            ) by {
                assert(a2[j] == ht[j]);
                assert(ht[j] == t[j - 1]);
            }
            assert(a2[1 + t.len() as int] == ht[1 + t.len() as int]);
            assert(ht[1 + t.len() as int] == 0x5d);
            lemma_find_from_is(a2, 1, 1 + t.len() as int, Delim::CloseBracket);
            let be = 1 + t.len() as int;
            assert(a2.subrange(1, be) =~= t);
            lemma_lower_seq_fixed(t);
            let after = a2.skip(be + 1);
            match u.port {
                Some(p) => {
                    assert(after =~= pstr);
                    assert(after[0] == 0x3a);
                    lemma_port_round(u.scheme, p, after.skip(1));
                },
                None => {
                    assert(after.len() == 0);
                },
            }
        },
        _ => {
            // domain, IPv4 or empty host: no bracket, split at the colon
            if a2.len() > 0 {
                assert(a2[0] != 0x5b) by {
                    if ht.len() > 0 {
                        assert(a2[0] == ht[0]);
                        match u.host {
                            HostView::Domain(d) => {
                                assert(!valid_domain_byte(0x5b));
                            },
                            HostView::Ipv4(t) => {
                                lemma_ipv4_bytes(t, 0, 0, 0, 0);
                            },
                            _ => {
                            },
                        }
                    } else {
                        assert(a2[0] == pstr[0]);
                    }
                }
            }
            assert forall|j: int| 0 <= j < ht.len() implies !delim_match(Delim::Colon, a2[j]) by {
                assert(a2[j] == ht[j]);
            }
            if ht.len() < a2.len() {
                assert(a2[ht.len() as int] == pstr[0]);
                assert(pstr[0] == 0x3a);
            }
            lemma_find_from_is(a2, 0, ht.len() as int, Delim::Colon);
            assert(a2.take(ht.len() as int) =~= ht);
            lemma_lower_seq_fixed(ht);
            // classification gives the stored host back
            match u.host {
                HostView::Domain(d) => {
                    assert(spec_classify_host(u.scheme, d) == Ok::<HostView, ParseError>(
                        HostView::Domain(d),
                    ));
                },
                HostView::Ipv4(t) => {
                    lemma_ipv4_bytes(t, 0, 0, 0, 0);
                    assert(t.len() > 0) by {
                        if t.len() == 0 {
                            assert(!crate::host::ipv4_st(t, 0, 0, 0, 0));
                        }
                    }
                    assert(ipv4_candidate(t));
                },
                HostView::EmptyHost => {
                    assert(!(is_special(u.scheme) && !is_file(u.scheme)));
                },
                _ => {
                },
            }
            match u.port {
                Some(p) => {
                    assert(a2.skip(ht.len() + 1 as int) =~= dec_digits(p as int));
                    lemma_port_round(u.scheme, p, a2.skip(ht.len() + 1 as int));
                },
                None => {
                },
            }
        },
    }
}

/// The decimal digits of a stored (non-default) port parse back to it.
proof fn lemma_port_round(scheme: Seq<u8>, p: u16, digits: Seq<u8>)
    requires
        digits =~= dec_digits(p as int),
        default_port(scheme) != Some(p),
    ensures
        spec_parse_port(scheme, digits) == Ok::<Option<u16>, ParseError>(Some(p)),
{
    lemma_dec_digits_are_digits(p as int);
    lemma_digits_round_trip(p as int);
    assert forall|j: int| 0 <= j < digits.len() implies !delim_match(
        Delim::NonDigit,
        digits[j],
    ) by {
        assert(digits[j] == dec_digits(p as int)[j]);
    }
    lemma_find_from_is(digits, 0, digits.len() as int, Delim::NonDigit);
    assert(digits_value(digits, 0, 0) == p);
}

/// Parsing inverts serialization: the canonical string of any well-formed
/// URL value parses back to exactly that value.
pub proof fn lemma_parse_of_href(u: UrlView)
    requires
        wf(u),
    ensures
        spec_parse(spec_href(u)) == Ok::<UrlView, ParseError>(u),
{
    let h = spec_href(u);
    let sch = u.scheme;
    let n = sch.len() as int;
    let auth = authority_bytes(u);
    let tail = u.path + query_part(u.query) + fragment_part(u.fragment);
    assert(h =~= sch + seq![0x3au8] + auth + tail);
    // the scheme scan stops exactly at the colon
    assert forall|j: int| 0 <= j < n implies !delim_match(Delim::NonScheme, h[j]) by {
        assert(h[j] == sch[j]);
    }
    assert(h[n] == 0x3a);
    lemma_find_from_is(h, 0, n, Delim::NonScheme);
    assert(crate::bytes::is_alpha_byte(h[0])) by {
        assert(h[0] == sch[0]);
    }
    assert(h.take(n) =~= sch);
    lemma_lower_seq_fixed(sch);
    let rest = h.skip(n + 1);
    assert(rest =~= auth + tail);
    if u.host is NoHost {
        assert(auth.len() == 0);
        assert(rest =~= tail);
        assert(!is_special(sch));
        if u.path.len() == 0 || u.path[0] != 0x2f {
            // opaque path
            if rest.len() >= 1 {
                assert(rest[0] != 0x2f) by {
                    if u.path.len() > 0 {
                        assert(rest[0] == u.path[0]);
                    } else {
                        assert(rest[0] == (query_part(u.query) + fragment_part(u.fragment))[0]);
                    }
                }
            }
            lemma_opaque_round(u);
        } else {
            // hierarchical path without authority: a single leading slash
            assert(rest[0] == u.path[0]);
            if rest.len() >= 2 {
                assert(rest[1] != 0x2f) by {
                    if u.path.len() >= 2 {
                        assert(rest[1] == u.path[1]);
                    } else {
                        assert(rest[1] == (query_part(u.query) + fragment_part(u.fragment))[0]);
                    }
                }
            }
            lemma_hier_round(u);
            assert(spec_parse(h) == spec_parse_hier_path(
                sch,
                Seq::<u8>::empty(),
                Seq::<u8>::empty(),
                HostView::NoHost,
                None,
                rest,
            ));
            assert(u.port is None);
            assert(u.username =~= Seq::<u8>::empty());
            assert(u.password =~= Seq::<u8>::empty());
            assert(rest =~= u.path + query_part(u.query) + fragment_part(u.fragment));
        }
    } else {
        let ui = userinfo_text(u);
        let ht = host_text(u.host);
        let pstr = match u.port {
            Some(p) => seq![0x3au8] + dec_digits(p as int),
            None => Seq::<u8>::empty(),
        };
        assert(auth =~= seq![0x2fu8, 0x2fu8] + ui + ht + pstr);
        assert(rest.len() >= 2 && rest[0] == 0x2f && rest[1] == 0x2f);
        assert(rest.skip(2) =~= ui + ht + pstr + tail);
        lemma_auth_round(u);
        if is_file(sch) {
            assert(spec_parse(h) == spec_parse_with_authority(sch, rest.skip(2)));
        } else if is_special(sch) {
            lemma_host_text_bytes(u.host);
            lemma_userinfo_bytes(u);
            assert(host_is_real(u.host));
            assert(ht.len() > 0);
            assert(!delim_match(Delim::NonSlash, rest[0]));
            assert(!delim_match(Delim::NonSlash, rest[1]));
            assert(rest[2] != 0x2f) by {
                if ui.len() > 0 {
                    assert(rest[2] == ui[0]);
                } else {
                    assert(rest[2] == ht[0]);
                }
            }
            assert(delim_match(Delim::NonSlash, rest[2]));
            lemma_find_from_is(rest, 0, 2, Delim::NonSlash);
            assert(spec_parse(h) == spec_parse_with_authority(sch, rest.skip(2)));
        } else {
            assert(spec_parse(h) == spec_parse_with_authority(sch, rest.skip(2)));
        }
    }
}

proof fn lemma_opaque_round(u: UrlView)
    requires
        wf(u),
        u.host is NoHost,
        u.path.len() == 0 || u.path[0] != 0x2f,
    ensures
        spec_parse_opaque(u.scheme, u.path + query_part(u.query) + fragment_part(u.fragment))
            == Ok::<UrlView, ParseError>(u),
{
    let rest = u.path + query_part(u.query) + fragment_part(u.fragment);
    assert forall|j: int| 0 <= j < u.path.len() implies !delim_match(Delim::PathEnd, rest[j]) by {
        assert(rest[j] == u.path[j]);
    }
    if u.path.len() < rest.len() {
        assert(rest[u.path.len() as int] == 0x3f || rest[u.path.len() as int] == 0x23);
    }
    lemma_find_from_is(rest, 0, u.path.len() as int, Delim::PathEnd);
    assert(rest.take(u.path.len() as int) =~= u.path);
    assert(rest.skip(u.path.len() as int) =~= query_part(u.query) + fragment_part(u.fragment));
    lemma_encode_of_safe(EncSet::Opaque, u.path);
    lemma_qf_round(u.scheme, u.query, u.fragment);
    assert(u.port is None);
    let r = spec_parse_opaque(u.scheme, rest);
    assert(r.unwrap() =~~= u);
}

/// Round trips are idempotent: re-parsing a serialization gives a value
/// with the same serialization, byte for byte.
pub proof fn lemma_round_trip_idempotent(s: Seq<u8>)
    requires
        spec_parse(s) is Ok,
    ensures
        spec_parse(spec_href(spec_parse(s).unwrap())) == Ok::<UrlView, ParseError>(
            spec_parse(s).unwrap(),
        ),
        spec_href(spec_parse(spec_href(spec_parse(s).unwrap())).unwrap()) == spec_href(
            spec_parse(s).unwrap(),
        ),
{
    lemma_spec_parse_wf(s);
    lemma_parse_of_href(spec_parse(s).unwrap());
}

/// Setting the query to the empty string removes the `?` from the
/// serialization entirely, provided the fragment holds no `?` of its own
/// (a fragment may legitimately contain one).
pub proof fn lemma_query_empty_removes_question_mark(u: UrlView)
    requires
        wf(u),
        match u.fragment {
            Some(f) => forall|i: int| 0 <= i < f.len() ==> f[i] != 0x3f,
            None => true,
        },
    ensures
        forall|i: int| 0 <= i < spec_href(spec_set_query(u, Seq::empty())).len() ==> spec_href(
            spec_set_query(u, Seq::empty()),
        )[i] != 0x3f,
{
    let v = spec_set_query(u, Seq::<u8>::empty());
    let h = spec_href(v);
    lemma_authority_bytes(v);
    assert forall|i: int| 0 <= i < h.len() implies h[i] != 0x3f by {
        let sch = v.scheme + seq![0x3au8];
        let auth = authority_bytes(v);
        let fpart = fragment_part(v.fragment);
        assert(h =~= sch + auth + v.path + fpart);
        let a = sch.len() as int;
        let b = a + auth.len();
        let c = b + v.path.len();
        if i < a {
            assert(h[i] == sch[i]);
            if i < v.scheme.len() {
                assert(sch[i] == v.scheme[i]);
            }
        } else if i < b {
            assert(h[i] == auth[i - a]);
        } else if i < c {
            assert(h[i] == v.path[i - b]);
        } else {
            assert(h[i] == fpart[i - c]);
            if i - c > 0 {
                assert(fpart[i - c] == v.fragment.unwrap()[i - c - 1]);
            }
        }
    }
}

/// Setting the fragment to the empty string removes the `#` from the
/// serialization entirely: no other component can hold one.
pub proof fn lemma_fragment_empty_removes_hash(u: UrlView)
    requires
        wf(u),
    ensures
        forall|i: int| 0 <= i < spec_href(spec_set_fragment(u, Seq::empty())).len() ==> spec_href(
            spec_set_fragment(u, Seq::empty()),
        )[i] != 0x23,
{
    let v = spec_set_fragment(u, Seq::<u8>::empty());
    let h = spec_href(v);
    lemma_authority_bytes(v);
    assert forall|i: int| 0 <= i < h.len() implies h[i] != 0x23 by {
        let sch = v.scheme + seq![0x3au8];
        let auth = authority_bytes(v);
        let qpart = query_part(v.query);
        assert(h =~= sch + auth + v.path + qpart);
        let a = sch.len() as int;
        let b = a + auth.len();
        let c = b + v.path.len();
        if i < a {
            assert(h[i] == sch[i]);
            if i < v.scheme.len() {
                assert(sch[i] == v.scheme[i]);
            }
        } else if i < b {
            assert(h[i] == auth[i - a]);
        } else if i < c {
            assert(h[i] == v.path[i - b]);
        } else {
            assert(h[i] == qpart[i - c]);
            if i - c > 0 {
                assert(qpart[i - c] == v.query.unwrap()[i - c - 1]);
            }
        }
    }
}

} // verus!
