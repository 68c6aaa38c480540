//! The URL value and its operations.

use vstd::prelude::*;
use vstd::string::StringSliceAdditionalSpecFns;
use crate::bytes::{
    ascii_str, ascii_to_string, copy_range, delim_match, enc_needed, encode_range, find,
    lower_range, Delim, EncSet,
};
use crate::host::{
    host_is_real, host_text, lemma_dec_digits_are_digits, lemma_ipv4_bytes, lemma_ipv6_bytes,
    push_all, push_decimal, push_host_text, Host, HostView,
};
use crate::model::{
    authority_bytes, href_chars, is_special, path_wf, query_enc_set, spec_href, wf, UrlView,
};
use crate::pairs::{
    first_value, form_encode_pairs, form_pair_bytes, lemma_form_pairs_safe, pairs_view,
    encode_pairs, pairs_without_key, query_pairs_bytes, spec_query_append, spec_query_delete, spec_query_get,
    spec_query_gets, spec_query_set, url_query_pairs, values_of_key,
};
use crate::bytes::{eq_bytes, lossy_chars, lossy_string};
use crate::parse::{parse_bytes, spec_parse, ParseError};

verus! {

/// A parsed absolute URL.
///
/// All components are stored as the ASCII bytes of their serialized
/// (percent-encoded) form; `query` and `fragment` are stored without their
/// `?` and `#` separators.
#[derive(Debug)]
pub struct Url {
    pub scheme: Vec<u8>,
    pub username: Vec<u8>,
    pub password: Vec<u8>,
    pub host: Host,
    pub port: Option<u16>,
    pub path: Vec<u8>,
    pub query: Option<Vec<u8>>,
    pub fragment: Option<Vec<u8>>,
}

impl View for Url {
    type V = UrlView;

    open spec fn view(&self) -> UrlView {
        UrlView {
            scheme: self.scheme@,
            username: self.username@,
            password: self.password@,
            host: self.host@,
            port: self.port,
            path: self.path@,
            query: match self.query {
                Some(q) => Some(q@),
                None => None,
            },
            fragment: match self.fragment {
                Some(f) => Some(f@),
                None => None,
            },
        }
    }
}

/// Every byte of a well-formed URL's serialization is ASCII.
pub proof fn lemma_href_ascii(u: UrlView)
    requires
        wf(u),
    ensures
        forall|i: int| 0 <= i < spec_href(u).len() ==> spec_href(u)[i] < 0x80,
{
    let h = spec_href(u);
    assert forall|i: int| 0 <= i < h.len() implies h[i] < 0x80 by {
        let sch = u.scheme + seq![0x3au8];
        let auth = authority_bytes(u);
        let qpart = match u.query {
            Some(q) => seq![0x3fu8] + q,
            None => Seq::<u8>::empty(),
        };
        let fpart = match u.fragment {
            Some(f) => seq![0x23u8] + f,
            None => Seq::<u8>::empty(),
        };
        assert(h =~= sch + auth + u.path + qpart + fpart);
        if u.host is Ipv4 {
            lemma_ipv4_bytes(host_text(u.host), 0, 0, 0, 0);
        }
        if u.host is Ipv6 {
            match u.host {
                HostView::Ipv6(t) => {
                    lemma_ipv6_bytes(t, 0, 0, 0, 0, false);
                },
                _ => {},
            }
        }
        if u.port is Some {
            lemma_dec_digits_are_digits(u.port.unwrap() as int);
        }
        let a = sch.len() as int;
        let b = a + auth.len();
        let c = b + u.path.len();
        let d = c + qpart.len();
        if i < a {
            assert(h[i] == sch[i]);
        } else if i < b {
            assert(h[i] == auth[i - a]);
        } else if i < c {
            assert(h[i] == u.path[i - b]);
        } else if i < d {
            assert(h[i] == qpart[i - c]);
        } else {
            assert(h[i] == fpart[i - d]);
        }
    }
}

impl Clone for Url {
    fn clone(&self) -> (r: Self)
        ensures
            r@ == self@,
    {
        let r = Url {
            scheme: copy_range(&self.scheme, 0, self.scheme.len()),
            username: copy_range(&self.username, 0, self.username.len()),
            password: copy_range(&self.password, 0, self.password.len()),
            host: self.host.clone(),
            port: self.port,
            path: copy_range(&self.path, 0, self.path.len()),
            query: match &self.query {
                Some(q) => Some(copy_range(q, 0, q.len())),
                None => None,
            },
            fragment: match &self.fragment {
                Some(f) => Some(copy_range(f, 0, f.len())),
                None => None,
            },
        };
        proof {
            assert(r@ =~~= self@);
        }
        r
    }
}

impl Url {
    /// Parses an absolute URL string.
    ///
    /// Returns `Ok` exactly when the input satisfies the absolute-URL
    /// grammar [`spec_parse`]; the result is that parse, and well-formed.
    pub fn new(input: &str) -> (r: Result<Url, ParseError>)
        ensures
            match r {
                Ok(u) => spec_parse(input.spec_bytes()) == Ok::<UrlView, ParseError>(u@) && wf(u@),
                Err(e) => spec_parse(input.spec_bytes()) == Err::<UrlView, ParseError>(e),
            },
    {
        let v = input.as_bytes_vec();
        parse_bytes(&v)
    }

    /// The full canonical serialization.
    #[verifier::rlimit(50)]
    pub fn href(&self) -> (r: String)
        requires
            wf(self@),
        ensures
            r@ == href_chars(self@),
    {
        let mut out: Vec<u8> = Vec::new();
        push_all(&mut out, &self.scheme);
        out.push(0x3a);
        let has_authority = match &self.host {
            Host::NoHost => false,
            _ => true,
        };
        if has_authority {
            out.push(0x2f);
            out.push(0x2f);
            if self.username.len() > 0 || self.password.len() > 0 {
                push_all(&mut out, &self.username);
                if self.password.len() > 0 {
                    out.push(0x3a);
                    push_all(&mut out, &self.password);
                }
                out.push(0x40);
            }
            push_host_text(&self.host, &mut out);
            if let Some(p) = self.port {
                out.push(0x3a);
                push_decimal(p, &mut out);
            }
        }
        push_all(&mut out, &self.path);
        if let Some(q) = &self.query {
            out.push(0x3f);
            push_all(&mut out, q);
        }
        if let Some(f) = &self.fragment {
            out.push(0x23);
            push_all(&mut out, f);
        }
        proof {
            assert(out@ =~= spec_href(self@));
            lemma_href_ascii(self@);
        }
        ascii_to_string(out)
    }

    /// Alias of [`Url::href`].
    pub fn to_string(&self) -> (r: String)
        requires
            wf(self@),
        ensures
            r@ == href_chars(self@),
    {
        self.href()
    }

    /// Alias of [`Url::href`], never diverging from [`Url::to_string`].
    pub fn to_debug(&self) -> (r: String)
        requires
            wf(self@),
        ensures
            r@ == href_chars(self@),
    {
        self.href()
    }

    /// The lowercase scheme token.
    pub fn scheme(&self) -> (r: String)
        requires
            wf(self@),
        ensures
            r@ == ascii_str(self@.scheme),
    {
        let v = copy_range(&self.scheme, 0, self.scheme.len());
        proof {
            assert(v@ =~= self@.scheme);
        }
        ascii_to_string(v)
    }

    /// The domain name, or an empty string when the host is absent, empty,
    /// or an IP literal.
    pub fn domain(&self) -> (r: String)
        requires
            wf(self@),
        ensures
            r@ == match self@.host {
                HostView::Domain(d) => ascii_str(d),
                _ => Seq::<char>::empty(),
            },
    {
        match &self.host {
            Host::Domain(d) => {
                let v = copy_range(d, 0, d.len());
                proof {
                    assert(v@ =~= d@);
                }
                ascii_to_string(v)
            },
            _ => String::new(),
        }
    }

    /// The serialized path.
    pub fn path(&self) -> (r: String)
        requires
            wf(self@),
        ensures
            r@ == ascii_str(self@.path),
    {
        proof {
            lemma_component_ascii(self@);
        }
        let v = copy_range(&self.path, 0, self.path.len());
        proof {
            assert(v@ =~= self@.path);
        }
        ascii_to_string(v)
    }

    /// The raw query without its `?`, or an empty string when absent.
    pub fn query(&self) -> (r: String)
        requires
            wf(self@),
        ensures
            r@ == match self@.query {
                Some(q) => ascii_str(q),
                None => Seq::<char>::empty(),
            },
    {
        proof {
            lemma_component_ascii(self@);
        }
        match &self.query {
            Some(q) => {
                let v = copy_range(q, 0, q.len());
                proof {
                    assert(v@ =~= self@.query.unwrap());
                }
                ascii_to_string(v)
            },
            None => String::new(),
        }
    }

    /// The raw fragment without its `#`, or an empty string when absent.
    pub fn fragment(&self) -> (r: String)
        requires
            wf(self@),
        ensures
            r@ == match self@.fragment {
                Some(f) => ascii_str(f),
                None => Seq::<char>::empty(),
            },
    {
        proof {
            lemma_component_ascii(self@);
        }
        match &self.fragment {
            Some(f) => {
                let v = copy_range(f, 0, f.len());
                proof {
                    assert(v@ =~= self@.fragment.unwrap());
                }
                ascii_to_string(v)
            },
            None => String::new(),
        }
    }

    /// Alias of [`Url::fragment`].
    pub fn hash(&self) -> (r: String)
        requires
            wf(self@),
        ensures
            r@ == match self@.fragment {
                Some(f) => ascii_str(f),
                None => Seq::<char>::empty(),
            },
    {
        self.fragment()
    }

    /// Whether this URL has an opaque (cannot-be-a-base) path.
    fn is_opaque_path(&self) -> (r: bool)
        ensures
            r == crate::model::is_opaque(self@),
    {
        match &self.host {
            Host::NoHost => self.path.len() == 0 || self.path[0] != 0x2f,
            _ => false,
        }
    }

    fn has_real_host(&self) -> (r: bool)
        ensures
            r == host_is_real(self@.host),
    {
        match &self.host {
            Host::Domain(_) => true,
            Host::Ipv4(_) => true,
            Host::Ipv6(_) => true,
            _ => false,
        }
    }

    /// Replaces the scheme, silently leaving the value unchanged on any
    /// rejected transition (see [`crate::model::spec_set_scheme`]).
    pub fn set_scheme(&mut self, value: &str)
        requires
            wf(old(self)@),
        ensures
            final(self)@ == crate::model::spec_set_scheme(old(self)@, value.spec_bytes()),
            wf(final(self)@),
    {
        let b = value.as_bytes_vec();
        if b.len() == 0 {
            return;
        }
        let c = b[0];
        if !((0x41 <= c && c <= 0x5a) || (0x61 <= c && c <= 0x7a)) {
            return;
        }
        let nd = find(&b, 0, Delim::NonScheme);
        if nd < b.len() {
            proof {
                assert(delim_match(Delim::NonScheme, b@[nd as int]));
            }
            return;
        }
        proof {
            assert(crate::model::scheme_input_valid(b@));
        }
        let ns = lower_range(&b, 0, b.len());
        proof {
            assert(b@.subrange(0, b@.len() as int) =~= b@);
            crate::parse::lemma_scheme_valid(b@);
        }
        if crate::model::is_special_scheme(&ns) != crate::model::is_special_scheme(&self.scheme) {
            return;
        }
        if crate::model::is_file_scheme(&ns) && (self.port.is_some() || self.username.len() > 0
            || self.password.len() > 0) {
            return;
        }
        if crate::model::is_file_scheme(&self.scheme) && !self.has_real_host() {
            return;
        }
        proof {
            assert(crate::model::query_enc_set(ns@) == crate::model::query_enc_set(
                old(self)@.scheme,
            ));
        }
        self.scheme = ns;
        if let Some(p) = self.port {
            match crate::model::scheme_default_port(&self.scheme) {
                Some(d) => {
                    if p == d {
                        self.port = None;
                    }
                },
                None => {},
            }
        }
    }

    /// Replaces the path (see [`crate::model::spec_set_path`]); a no-op on
    /// opaque URLs.
    pub fn set_path(&mut self, value: &str)
        requires
            wf(old(self)@),
        ensures
            final(self)@ == crate::model::spec_set_path(old(self)@, value.spec_bytes()),
            wf(final(self)@),
    {
        if self.is_opaque_path() {
            return;
        }
        let b = value.as_bytes_vec();
        let mut raw: Vec<u8> = Vec::new();
        if b.len() == 0 {
            if crate::model::is_special_scheme(&self.scheme) {
                raw.push(0x2f);
                proof {
                    assert(raw@ =~= seq![0x2fu8]);
                }
            }
        } else if b[0] == 0x2f {
            raw = b;
        } else {
            raw.push(0x2f);
            push_all(&mut raw, &b);
            proof {
                assert(raw@ =~= seq![0x2fu8] + b@);
            }
        }
        let no_host = match &self.host {
            Host::NoHost => true,
            _ => false,
        };
        let collapsed: Vec<u8> = if no_host && raw.len() > 0 {
            let k = find(&raw, 0, Delim::NonSlash);
            let mut c: Vec<u8> = Vec::new();
            c.push(0x2f);
            let tail = copy_range(&raw, k, raw.len());
            push_all(&mut c, &tail);
            proof {
                assert(tail@ =~= raw@.skip(k as int));
                assert(c@ =~= seq![0x2fu8] + raw@.skip(k as int));
            }
            c
        } else {
            raw
        };
        let p = encode_range(EncSet::Path, &collapsed, 0, collapsed.len());
        proof {
            assert(collapsed@.subrange(0, collapsed@.len() as int) =~= collapsed@);
            crate::bytes::lemma_encode_safe(EncSet::Path, collapsed@);
            if no_host && collapsed@.len() > 0 {
                crate::bytes::lemma_encode_single_slash(collapsed@);
            } else if collapsed@.len() > 0 {
                crate::bytes::lemma_encode_first(EncSet::Path, collapsed@);
            }
        }
        self.path = p;
        proof {
            assert(final(self)@ =~~= crate::model::spec_set_path(
                old(self)@,
                value.spec_bytes(),
            ));
            assert(path_wf(final(self)@));
        }
    }

    /// Replaces the query; an empty argument removes the component, so the
    /// serialization never carries a bare `?`.
    pub fn set_query(&mut self, value: &str)
        requires
            wf(old(self)@),
        ensures
            final(self)@ == crate::model::spec_set_query(old(self)@, value.spec_bytes()),
            wf(final(self)@),
    {
        let b = value.as_bytes_vec();
        if b.len() == 0 {
            self.query = None;
        } else {
            let set = if crate::model::is_special_scheme(&self.scheme) {
                EncSet::QuerySpecial
            } else {
                EncSet::QueryPlain
            };
            let q = encode_range(set, &b, 0, b.len());
            proof {
                assert(b@.subrange(0, b@.len() as int) =~= b@);
                crate::bytes::lemma_encode_safe(set, b@);
            }
            self.query = Some(q);
        }
    }

    /// Replaces or removes the query: `None` and `Some("")` both remove it.
    pub fn set_query_option(&mut self, value: Option<&str>)
        requires
            wf(old(self)@),
        ensures
            final(self)@ == match value {
                Some(s) => crate::model::spec_set_query(old(self)@, s.spec_bytes()),
                None => crate::model::spec_query_clear(old(self)@),
            },
            wf(final(self)@),
    {
        match value {
            Some(s) => self.set_query(s),
            None => {
                self.query = None;
            },
        }
    }

    /// Replaces the fragment; an empty argument removes the component, so
    /// the serialization never carries a bare `#`.
    pub fn set_fragment(&mut self, value: &str)
        requires
            wf(old(self)@),
        ensures
            final(self)@ == crate::model::spec_set_fragment(old(self)@, value.spec_bytes()),
            wf(final(self)@),
    {
        let b = value.as_bytes_vec();
        if b.len() == 0 {
            self.fragment = None;
        } else {
            let f = encode_range(EncSet::Fragment, &b, 0, b.len());
            proof {
                assert(b@.subrange(0, b@.len() as int) =~= b@);
                crate::bytes::lemma_encode_safe(EncSet::Fragment, b@);
            }
            self.fragment = Some(f);
        }
    }

    /// Replaces or removes the fragment: `None` and `Some("")` both remove
    /// it.
    pub fn set_fragment_option(&mut self, value: Option<&str>)
        requires
            wf(old(self)@),
        ensures
            final(self)@ == match value {
                Some(s) => crate::model::spec_set_fragment(old(self)@, s.spec_bytes()),
                None => crate::model::spec_fragment_clear(old(self)@),
            },
            wf(final(self)@),
    {
        match value {
            Some(s) => self.set_fragment(s),
            None => {
                self.fragment = None;
            },
        }
    }

    /// Alias of [`Url::set_fragment`].
    pub fn set_hash(&mut self, value: &str)
        requires
            wf(old(self)@),
        ensures
            final(self)@ == crate::model::spec_set_fragment(old(self)@, value.spec_bytes()),
            wf(final(self)@),
    {
        self.set_fragment(value);
    }

    /// Alias of [`Url::set_fragment_option`].
    pub fn set_hash_option(&mut self, value: Option<&str>)
        requires
            wf(old(self)@),
        ensures
            final(self)@ == match value {
                Some(s) => crate::model::spec_set_fragment(old(self)@, s.spec_bytes()),
                None => crate::model::spec_fragment_clear(old(self)@),
            },
            wf(final(self)@),
    {
        self.set_fragment_option(value);
    }

    /// Removes the query component entirely.
    pub fn query_clear(&mut self)
        requires
            wf(old(self)@),
        ensures
            final(self)@ == crate::model::spec_query_clear(old(self)@),
            wf(final(self)@),
    {
        self.query = None;
    }

    /// The ordered decoded query pairs.
    fn query_pairs(&self) -> (r: Vec<(Vec<u8>, Vec<u8>)>)
        ensures
            pairs_view(r@) == url_query_pairs(self@),
    {
        match &self.query {
            Some(q) => query_pairs_bytes(q),
            None => {
                let r: Vec<(Vec<u8>, Vec<u8>)> = Vec::new();
                proof {
                    assert(pairs_view(r@) =~= url_query_pairs(self@));
                }
                r
            },
        }
    }

    /// Removes every pair whose decoded key equals `key`, keeping the order
    /// of the remaining pairs and re-encoding them; when none remain, the
    /// query component collapses to absent.
    pub fn query_delete(&mut self, key: &str)
        requires
            wf(old(self)@),
        ensures
            final(self)@ == spec_query_delete(old(self)@, key.spec_bytes()),
            wf(final(self)@),
    {
        let kb = key.as_bytes_vec();
        let pairs = self.query_pairs();
        let ghost full = pairs_view(pairs@);
        let mut kept: Vec<(Vec<u8>, Vec<u8>)> = Vec::new();
        let mut j: usize = 0;
        proof {
            assert(pairs_view(kept@) =~= Seq::<(Seq<u8>, Seq<u8>)>::empty());
        }
        while j < pairs.len()
            invariant
                j <= pairs@.len(),
                full == pairs_view(pairs@),
                kb@ == key.spec_bytes(),
                pairs_without_key(full, 0, kb@) == pairs_view(kept@) + pairs_without_key(
                    full,
                    j as int,
                    kb@,
                ),
            decreases pairs@.len() - j,
        {
            let pj = &pairs[j];
            proof {
                assert(full[j as int] == (pj.0@, pj.1@));
            }
            if !eq_bytes(&pj.0, &kb) {
                let ck = copy_range(&pj.0, 0, pj.0.len());
                let cv = copy_range(&pj.1, 0, pj.1.len());
                proof {
                    assert(ck@ =~= pj.0@);
                    assert(cv@ =~= pj.1@);
                }
                let ghost kept_before = kept@;
                kept.push((ck, cv));
                proof {
                    assert(pairs_view(kept@) =~= pairs_view(kept_before) + seq![full[j as int]]);
                    assert(pairs_without_key(full, 0, kb@) == pairs_view(kept@)
                        + pairs_without_key(full, j + 1, kb@));
                }
            }
            j = j + 1;
        }
        if kept.len() == 0 {
            self.query = None;
        } else {
            let q = encode_pairs(&kept);
            proof {
                lemma_form_pairs_safe(pairs_view(kept@));
            }
            self.query = Some(q);
        }
        proof {
            assert(final(self)@ =~~= spec_query_delete(old(self)@, key.spec_bytes()));
        }
    }

    /// Appends one pair at the end of the query, never touching existing
    /// pairs.
    pub fn query_append(&mut self, key: &str, value: &str)
        requires
            wf(old(self)@),
        ensures
            final(self)@ == spec_query_append(
                old(self)@,
                key.spec_bytes(),
                value.spec_bytes(),
            ),
            wf(final(self)@),
    {
        let kb = key.as_bytes_vec();
        let vb = value.as_bytes_vec();
        let mut kv: Vec<u8> = encode_range(EncSet::Form, &kb, 0, kb.len());
        kv.push(0x3d);
        let ev = encode_range(EncSet::Form, &vb, 0, vb.len());
        push_all(&mut kv, &ev);
        proof {
            assert(kb@.subrange(0, kb@.len() as int) =~= kb@);
            assert(vb@.subrange(0, vb@.len() as int) =~= vb@);
            assert(kv@ =~= form_pair_bytes((kb@, vb@)));
            assert(form_encode_pairs(seq![(kb@, vb@)]) =~= form_pair_bytes((kb@, vb@)));
            lemma_form_pairs_safe(seq![(kb@, vb@)]);
        }
        let nq: Vec<u8> = match &self.query {
            Some(q) => {
                if q.len() > 0 {
                    let mut n = copy_range(q, 0, q.len());
                    n.push(0x26);
                    push_all(&mut n, &kv);
                    proof {
                        assert(n@ =~= q@ + seq![0x26u8] + kv@);
                    }
                    n
                } else {
                    kv
                }
            },
            None => kv,
        };
        proof {
            assert forall|i: int| 0 <= i < nq@.len() implies !enc_needed(
                query_enc_set(old(self)@.scheme),
                #[trigger] nq@[i],
            ) by {
                let existing = match old(self)@.query {
                    Some(q) => q,
                    None => Seq::<u8>::empty(),
                };
                if existing.len() > 0 {
                    assert(nq@ =~= existing + seq![0x26u8] + form_pair_bytes((kb@, vb@)));
                    if i < existing.len() {
                        assert(nq@[i] == existing[i]);
                    } else if i == existing.len() {
                        assert(nq@[i] == 0x26);
                    } else {
                        assert(nq@[i] == form_pair_bytes((kb@, vb@))[i - existing.len() - 1]);
                    }
                }
            }
        }
        self.query = Some(nq);
        proof {
            assert(final(self)@ =~~= spec_query_append(
                old(self)@,
                key.spec_bytes(),
                value.spec_bytes(),
            ));
        }
    }

    /// Replaces every pair of `key` by a single pair appended at the end:
    /// exactly [`Url::query_delete`] followed by [`Url::query_append`], so
    /// the key visibly moves to the end of the query string.
    pub fn query_set(&mut self, key: &str, value: &str)
        requires
            wf(old(self)@),
        ensures
            final(self)@ == spec_query_set(old(self)@, key.spec_bytes(), value.spec_bytes()),
            wf(final(self)@),
    {
        self.query_delete(key);
        self.query_append(key, value);
    }

    /// The decoded value of the first pair whose key equals `key`, or an
    /// empty string when no pair matches.
    pub fn query_get(&self, key: &str) -> (r: String)
        requires
            wf(self@),
        ensures
            r@ == match spec_query_get(self@, key.spec_bytes()) {
                Some(v) => lossy_chars(v),
                None => Seq::<char>::empty(),
            },
    {
        let kb = key.as_bytes_vec();
        let pairs = self.query_pairs();
        let ghost full = pairs_view(pairs@);
        let mut j: usize = 0;
        while j < pairs.len()
            invariant
                j <= pairs@.len(),
                full == pairs_view(pairs@),
                full == url_query_pairs(self@),
                kb@ == key.spec_bytes(),
                first_value(full, 0, kb@) == first_value(full, j as int, kb@),
            decreases pairs@.len() - j,
        {
            let pj = &pairs[j];
            proof {
                assert(full[j as int] == (pj.0@, pj.1@));
            }
            if eq_bytes(&pj.0, &kb) {
                proof {
                    assert(first_value(full, j as int, kb@) == Some(pj.1@));
                }
                return lossy_string(&pj.1);
            }
            j = j + 1;
        }
        String::new()
    }

    /// The decoded values of every pair whose key equals `key`, in order.
    pub fn query_gets(&self, key: &str) -> (r: Vec<String>)
        requires
            wf(self@),
        ensures
            r@.len() == spec_query_gets(self@, key.spec_bytes()).len(),
            forall|i: int| 0 <= i < r@.len() ==> #[trigger] r@[i]@ == lossy_chars(
                spec_query_gets(self@, key.spec_bytes())[i],
            ),
    {
        let kb = key.as_bytes_vec();
        let pairs = self.query_pairs();
        let ghost full = pairs_view(pairs@);
        let ghost all = values_of_key(full, 0, kb@);
        let mut out: Vec<String> = Vec::new();
        let mut j: usize = 0;
        while j < pairs.len()
            invariant
                j <= pairs@.len(),
                full == pairs_view(pairs@),
                kb@ == key.spec_bytes(),
                all == values_of_key(full, 0, kb@),
                out@.len() + values_of_key(full, j as int, kb@).len() == all.len(),
                forall|i: int| 0 <= i < out@.len() ==> #[trigger] out@[i]@ == lossy_chars(all[i]),
                all.skip(out@.len() as int) =~= values_of_key(full, j as int, kb@),
            decreases pairs@.len() - j,
        {
            let pj = &pairs[j];
            proof {
                assert(full[j as int] == (pj.0@, pj.1@));
            }
            if eq_bytes(&pj.0, &kb) {
                let s = lossy_string(&pj.1);
                let ghost n = out@.len() as int;
                proof {
                    assert(values_of_key(full, j as int, kb@) =~= seq![pj.1@] + values_of_key(
                        full,
                        j + 1,
                        kb@,
                    ));
                    assert(all.skip(n)[0] == all[n]);
                    assert(all[n] == pj.1@);
                }
                out.push(s);
                proof {
                    assert(all.skip(n + 1) =~= all.skip(n).skip(1));
                    assert((seq![pj.1@] + values_of_key(full, j + 1, kb@)).skip(1)
                        =~= values_of_key(full, j + 1, kb@));
                    assert(all.skip(n + 1) =~= values_of_key(full, j + 1, kb@));
                }
            }
            j = j + 1;
        }
        out
    }
}

/// The stored components of a well-formed URL are ASCII.
pub proof fn lemma_component_ascii(u: UrlView)
    requires
        wf(u),
    ensures
        forall|i: int| 0 <= i < u.path.len() ==> u.path[i] < 0x80,
        u.query is Some ==> forall|i: int|
            0 <= i < u.query.unwrap().len() ==> u.query.unwrap()[i] < 0x80,
        u.fragment is Some ==> forall|i: int|
            0 <= i < u.fragment.unwrap().len() ==> u.fragment.unwrap()[i] < 0x80,
        forall|i: int| 0 <= i < u.scheme.len() ==> u.scheme[i] < 0x80,
{
}

} // verus!
