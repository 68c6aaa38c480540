//! The ordered key/value-pair view of the query component: splitting a raw
//! query into decoded pairs, and re-encoding pairs as
//! `application/x-www-form-urlencoded` bytes.

use vstd::prelude::*;
use crate::bytes::{
    copy_range, decode_range, enc_byte, enc_needed, encode, encode_range, find, find_from,
    form_decode, Delim, EncSet,
};
use crate::host::push_all;
use crate::model::UrlView;

verus! {

// ---------------------------------------------------------------------------
// Decoding a raw query into pairs
// ---------------------------------------------------------------------------

/// The decoded (key, value) pair of one non-empty `&`-separated piece: the
/// key is everything before the first `=`, the value everything after it
/// (empty when there is no `=`), both form-decoded.
pub open spec fn pair_of_piece(piece: Seq<u8>) -> (Seq<u8>, Seq<u8>) {
    let e = find_from(piece, 0, Delim::EqSign);
    (
        form_decode(piece.take(e)),
        if e < piece.len() {
            form_decode(piece.skip(e + 1))
        } else {
            Seq::empty()
        },
    )
}

/// The pairs a single piece contributes: none when it is empty.
pub open spec fn piece_pairs(piece: Seq<u8>) -> Seq<(Seq<u8>, Seq<u8>)> {
    if piece.len() == 0 {
        Seq::empty()
    } else {
        seq![pair_of_piece(piece)]
    }
}

/// Scans `q` from `i` with the current piece `cur` accumulated so far.
pub open spec fn pairs_from(q: Seq<u8>, i: int, cur: Seq<u8>) -> Seq<(Seq<u8>, Seq<u8>)>
    decreases q.len() - i,
{
    if !(0 <= i < q.len()) {
        piece_pairs(cur)
    } else if q[i] == 0x26 {
        piece_pairs(cur) + pairs_from(q, i + 1, Seq::empty())
    } else {
        pairs_from(q, i + 1, cur.push(q[i]))
    }
}

/// The ordered decoded pairs of a raw query.
pub open spec fn query_pairs_of(q: Seq<u8>) -> Seq<(Seq<u8>, Seq<u8>)> {
    pairs_from(q, 0, Seq::empty())
}

/// The ordered decoded pairs of a URL's query component.
pub open spec fn url_query_pairs(u: UrlView) -> Seq<(Seq<u8>, Seq<u8>)> {
    match u.query {
        Some(q) => query_pairs_of(q),
        None => Seq::empty(),
    }
}

// ---------------------------------------------------------------------------
// Re-encoding pairs
// ---------------------------------------------------------------------------

/// One form-urlencoded `key=value` unit.
pub open spec fn form_pair_bytes(p: (Seq<u8>, Seq<u8>)) -> Seq<u8> {
    encode(EncSet::Form, p.0) + seq![0x3du8] + encode(EncSet::Form, p.1)
}

/// Form-urlencoded serialization of a pair sequence, `&`-joined.
pub open spec fn form_encode_pairs(ps: Seq<(Seq<u8>, Seq<u8>)>) -> Seq<u8>
    decreases ps.len(),
{
    if ps.len() == 0 {
        Seq::empty()
    } else if ps.len() == 1 {
        form_pair_bytes(ps[0])
    } else {
        form_pair_bytes(ps[0]) + seq![0x26u8] + form_encode_pairs(ps.skip(1))
    }
}

pub proof fn lemma_form_encode_push(ps: Seq<(Seq<u8>, Seq<u8>)>, p: (Seq<u8>, Seq<u8>))
    ensures
        form_encode_pairs(ps.push(p)) =~= if ps.len() == 0 {
            form_pair_bytes(p)
        } else {
            form_encode_pairs(ps) + seq![0x26u8] + form_pair_bytes(p)
        },
    decreases ps.len(),
{
    if ps.len() == 0 {
        assert(ps.push(p)[0] == p);
    } else {
        assert(ps.push(p)[0] == ps[0]);
        assert(ps.push(p).skip(1) =~= ps.skip(1).push(p));
        lemma_form_encode_push(ps.skip(1), p);
        if ps.len() == 1 {
            assert(ps.skip(1).len() == 0);
        }
    }
}

/// Every byte of a form-urlencoded serialization is acceptable in a stored
/// query under both query encode sets.
pub open spec fn query_safe_byte(b: u8) -> bool {
    !enc_needed(EncSet::QuerySpecial, b) && !enc_needed(EncSet::QueryPlain, b)
}

pub proof fn lemma_form_encode_bytes_safe(x: Seq<u8>)
    ensures
        forall|i: int| 0 <= i < encode(EncSet::Form, x).len() ==> query_safe_byte(
            #[trigger] encode(EncSet::Form, x)[i],
        ),
    decreases x.len(),
{
    if x.len() > 0 {
        lemma_form_encode_bytes_safe(x.skip(1));
        assert forall|i: int| 0 <= i < encode(EncSet::Form, x).len() implies query_safe_byte(
            #[trigger] encode(EncSet::Form, x)[i],
        ) by {
            let head = enc_byte(EncSet::Form, x[0]);
            if i < head.len() {
                assert(encode(EncSet::Form, x)[i] == head[i]);
            } else {
                assert(encode(EncSet::Form, x)[i] == encode(EncSet::Form, x.skip(1))[i
                    - head.len()]);
            }
        }
    }
}

pub proof fn lemma_form_pairs_safe(ps: Seq<(Seq<u8>, Seq<u8>)>)
    ensures
        forall|i: int| 0 <= i < form_encode_pairs(ps).len() ==> query_safe_byte(
            #[trigger] form_encode_pairs(ps)[i],
        ),
    decreases ps.len(),
{
    if ps.len() > 0 {
        lemma_form_encode_bytes_safe(ps[0].0);
        lemma_form_encode_bytes_safe(ps[0].1);
        let head = form_pair_bytes(ps[0]);
        assert forall|i: int| 0 <= i < head.len() implies query_safe_byte(#[trigger] head[i]) by {
            let k = encode(EncSet::Form, ps[0].0);
            let v = encode(EncSet::Form, ps[0].1);
            if i < k.len() {
                assert(head[i] == k[i]);
            } else if i == k.len() {
                assert(head[i] == 0x3d);
            } else {
                assert(head[i] == v[i - k.len() - 1]);
            }
        }
        if ps.len() > 1 {
            lemma_form_pairs_safe(ps.skip(1));
            assert forall|i: int| 0 <= i < form_encode_pairs(ps).len() implies query_safe_byte(
                #[trigger] form_encode_pairs(ps)[i],
            ) by {
                if i < head.len() {
                    assert(form_encode_pairs(ps)[i] == head[i]);
                } else if i == head.len() {
                    assert(form_encode_pairs(ps)[i] == 0x26);
                } else {
                    assert(form_encode_pairs(ps)[i] == form_encode_pairs(ps.skip(1))[i - head.len()
                        - 1]);
                }
            }
        }
    }
}

// ---------------------------------------------------------------------------
// Selection among pairs
// ---------------------------------------------------------------------------

/// The pairs whose key differs from `k`, in order, from index `i`.
pub open spec fn pairs_without_key(ps: Seq<(Seq<u8>, Seq<u8>)>, i: int, k: Seq<u8>) -> Seq<
    (Seq<u8>, Seq<u8>),
>
    decreases ps.len() - i,
{
    if !(0 <= i < ps.len()) {
        Seq::empty()
    } else if ps[i].0 == k {
        pairs_without_key(ps, i + 1, k)
    } else {
        seq![ps[i]] + pairs_without_key(ps, i + 1, k)
    }
}

/// The value of the first pair with key `k` at or after `i`.
pub open spec fn first_value(ps: Seq<(Seq<u8>, Seq<u8>)>, i: int, k: Seq<u8>) -> Option<Seq<u8>>
    decreases ps.len() - i,
{
    if !(0 <= i < ps.len()) {
        None
    } else if ps[i].0 == k {
        Some(ps[i].1)
    } else {
        first_value(ps, i + 1, k)
    }
}

/// The values of every pair with key `k` at or after `i`, in order.
pub open spec fn values_of_key(ps: Seq<(Seq<u8>, Seq<u8>)>, i: int, k: Seq<u8>) -> Seq<Seq<u8>>
    decreases ps.len() - i,
{
    if !(0 <= i < ps.len()) {
        Seq::empty()
    } else if ps[i].0 == k {
        seq![ps[i].1] + values_of_key(ps, i + 1, k)
    } else {
        values_of_key(ps, i + 1, k)
    }
}

// ---------------------------------------------------------------------------
// The query operations at the specification level
// ---------------------------------------------------------------------------

/// Deletes every pair whose key is `k` and re-encodes the remainder; an
/// empty remainder removes the query component entirely.
pub open spec fn spec_query_delete(u: UrlView, k: Seq<u8>) -> UrlView {
    let kept = pairs_without_key(url_query_pairs(u), 0, k);
    if kept.len() == 0 {
        UrlView { query: None, ..u }
    } else {
        UrlView { query: Some(form_encode_pairs(kept)), ..u }
    }
}

/// Appends one encoded pair at the end of the raw query, never touching the
/// existing pairs.
pub open spec fn spec_query_append(u: UrlView, k: Seq<u8>, v: Seq<u8>) -> UrlView {
    let existing = match u.query {
        Some(q) => q,
        None => Seq::<u8>::empty(),
    };
    let kv = form_pair_bytes((k, v));
    UrlView {
        query: Some(
            if existing.len() > 0 {
                existing + seq![0x26u8] + kv
            } else {
                kv
            },
        ),
        ..u
    }
}

/// Delete-then-append: all old pairs of the key go away and the new pair
/// lands at the end.
pub open spec fn spec_query_set(u: UrlView, k: Seq<u8>, v: Seq<u8>) -> UrlView {
    spec_query_append(spec_query_delete(u, k), k, v)
}

/// The decoded value of the first pair with key `k`.
pub open spec fn spec_query_get(u: UrlView, k: Seq<u8>) -> Option<Seq<u8>> {
    first_value(url_query_pairs(u), 0, k)
}

/// The decoded values of all pairs with key `k`, in order.
pub open spec fn spec_query_gets(u: UrlView, k: Seq<u8>) -> Seq<Seq<u8>> {
    values_of_key(url_query_pairs(u), 0, k)
}

// ---------------------------------------------------------------------------
// Executable pair handling
// ---------------------------------------------------------------------------

/// The views of an executable pair vector.
pub open spec fn pairs_view(s: Seq<(Vec<u8>, Vec<u8>)>) -> Seq<(Seq<u8>, Seq<u8>)> {
    s.map_values(|p: (Vec<u8>, Vec<u8>)| (p.0@, p.1@))
}

/// Decodes one non-empty piece and appends its pair.
fn push_piece(out: &mut Vec<(Vec<u8>, Vec<u8>)>, q: &Vec<u8>, ps: usize, i: usize)
    requires
        ps <= i <= q@.len(),
    ensures
        pairs_view(final(out)@) =~= pairs_view(old(out)@) + piece_pairs(
            q@.subrange(ps as int, i as int),
        ),
{
    let ghost piece = q@.subrange(ps as int, i as int);
    if i == ps {
        proof {
            assert(pairs_view(out@) =~= pairs_view(out@) + piece_pairs(piece));
        }
        return;
    }
    let pv = copy_range(q, ps, i);
    let e = find(&pv, 0, Delim::EqSign);
    let key = decode_range(&pv, 0, e);
    let val = if e < pv.len() {
        decode_range(&pv, e + 1, pv.len())
    } else {
        Vec::new()
    };
    proof {
        assert(pv@.subrange(0, e as int) =~= piece.take(find_from(piece, 0, Delim::EqSign)));
        if e < pv.len() {
            assert(pv@.subrange(e + 1 as int, pv@.len() as int) =~= piece.skip(
                find_from(piece, 0, Delim::EqSign) + 1,
            ));
        }
        assert((key@, val@) == pair_of_piece(piece));
    }
    out.push((key, val));
    proof {
        assert(pairs_view(out@) =~= pairs_view(old(out)@) + piece_pairs(piece));
    }
}

/// Splits a raw query into its ordered decoded pairs.
pub fn query_pairs_bytes(q: &Vec<u8>) -> (r: Vec<(Vec<u8>, Vec<u8>)>)
    ensures
        pairs_view(r@) == query_pairs_of(q@),
{
    let mut out: Vec<(Vec<u8>, Vec<u8>)> = Vec::new();
    let mut ps: usize = 0;
    let mut i: usize = 0;
    proof {
        assert(q@.subrange(0, 0) =~= Seq::<u8>::empty());
        assert(pairs_view(out@) =~= Seq::<(Seq<u8>, Seq<u8>)>::empty());
    }
    while i < q.len()
        invariant
            ps <= i <= q@.len(),
            query_pairs_of(q@) == pairs_view(out@) + pairs_from(
                q@,
                i as int,
                q@.subrange(ps as int, i as int),
            ),
        decreases q@.len() - i,
    {
        let ghost cur = q@.subrange(ps as int, i as int);
        if q[i] == 0x26 {
            push_piece(&mut out, q, ps, i);
            proof {
                assert(pairs_from(q@, i as int, cur) =~= piece_pairs(cur) + pairs_from(
                    q@,
                    i + 1,
                    Seq::<u8>::empty(),
                ));
                assert(q@.subrange(i + 1 as int, i + 1 as int) =~= Seq::<u8>::empty());
                assert(query_pairs_of(q@) == pairs_view(out@) + pairs_from(
                    q@,
                    i + 1,
                    Seq::<u8>::empty(),
                ));
            }
            ps = i + 1;
        } else {
            proof {
                assert(q@.subrange(ps as int, i + 1 as int) =~= cur.push(q@[i as int]));
            }
        }
        i = i + 1;
    }
    push_piece(&mut out, q, ps, i);
    proof {
        assert(pairs_from(q@, q@.len() as int, q@.subrange(ps as int, i as int)) =~= piece_pairs(
            q@.subrange(ps as int, i as int),
        ));
        assert(pairs_view(out@) =~= query_pairs_of(q@));
    }
    out
}

/// Serializes pairs as form-urlencoded bytes.
pub fn encode_pairs(ps: &Vec<(Vec<u8>, Vec<u8>)>) -> (r: Vec<u8>)
    ensures
        r@ == form_encode_pairs(pairs_view(ps@)),
{
    let mut out: Vec<u8> = Vec::new();
    let mut j: usize = 0;
    proof {
        assert(pairs_view(ps@.take(0)) =~= Seq::<(Seq<u8>, Seq<u8>)>::empty());
    }
    while j < ps.len()
        invariant
            j <= ps@.len(),
            out@ == form_encode_pairs(pairs_view(ps@.take(j as int))),
        decreases ps@.len() - j,
    {
        if j > 0 {
            out.push(0x26);
        }
        let k = encode_range(EncSet::Form, &ps[j].0, 0, ps[j].0.len());
        push_all(&mut out, &k);
        out.push(0x3d);
        let v = encode_range(EncSet::Form, &ps[j].1, 0, ps[j].1.len());
        push_all(&mut out, &v);
        proof {
            let pj = (ps@[j as int].0@, ps@[j as int].1@);
            assert(ps@[j as int].0@.subrange(0, ps@[j as int].0@.len() as int)
                =~= ps@[j as int].0@);
            assert(ps@[j as int].1@.subrange(0, ps@[j as int].1@.len() as int)
                =~= ps@[j as int].1@);
            assert(pairs_view(ps@.take(j + 1 as int)) =~= pairs_view(ps@.take(j as int)).push(pj));
            lemma_form_encode_push(pairs_view(ps@.take(j as int)), pj);
            assert(out@ =~= form_encode_pairs(pairs_view(ps@.take(j + 1 as int))));
        }
        j = j + 1;
    }
    proof {
        assert(ps@.take(ps@.len() as int) =~= ps@);
    }
    out
}

} // verus!
