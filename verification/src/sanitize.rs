//! Rewriting a request URL's path-and-query so that the path holds no
//! traversal-capable segment while the query comes through untouched.
//!
//! Rewriting is best-effort with a safe fallback: when the rewritten
//! path-and-query would not parse as a valid one, the original, unsanitized
//! path is kept in place rather than an error raised. That fail-open choice
//! is deliberate and security-relevant: a downstream component that joins
//! paths beneath a root must not rely on normalization having happened when
//! the incoming path held bytes that only an escape may carry.

use vstd::prelude::*;

use crate::decode::decoded;
use crate::decode::lemma_decoded_keeps_first;
use crate::decode::PERCENT;
use crate::normalize::lemma_norm_clean_identity;
use crate::normalize::lemma_norm_idempotent;
use crate::normalize::lemma_norm_no_traversal;
use crate::normalize::lemma_norm_rooted;
use crate::normalize::no_traversal;
use crate::normalize::norm_from;
use crate::normalize::norm_path;
use crate::normalize::normalize_path;
use crate::normalize::segments_clean;
use crate::segments::SLASH;

verus! {

/// `?` in ASCII.
pub const QUERY_SEP: u8 = 63;

/// The path and optional query of a request URL, held as plain bytes.
pub struct UriPathQuery {
    /// The path bytes, percent-encoded as they arrived.
    pub path: Vec<u8>,
    /// The query bytes without their leading `?`, if the URL has a query.
    pub query: Option<Vec<u8>>,
}

/// The bytes of an optional query.
pub open spec fn query_view(q: Option<Vec<u8>>) -> Option<Seq<u8>> {
    match q {
        Some(v) => Some(v@),
        None => None,
    }
}

/// A path-and-query string: the path, then `?` and the query when one is
/// present.
pub open spec fn combined_pq(path: Seq<u8>, query: Option<Seq<u8>>) -> Seq<u8> {
    match query {
        Some(q) => path + seq![QUERY_SEP] + q,
        None => path,
    }
}

/// Whether these bytes form a valid path-and-query, by the deterministic
/// scan that the `http` crate applies when parsing one.
pub uninterp spec fn pq_valid(s: Seq<u8>) -> bool;

/// Relies on `http::uri::PathAndQuery`'s `TryFrom<&[u8]>`: a pure scan of
/// the bytes that returns `Ok` exactly when they form a valid
/// path-and-query.
#[verifier::external_body]
fn path_and_query_valid(s: &Vec<u8>) -> (r: bool)
    ensures
        r == pq_valid(s@),
{
    http::uri::PathAndQuery::try_from(s.as_slice()).is_ok()
}

/// The path that sanitizing leaves in place: the normal form when it
/// differs from the input and recombines with the query into a valid
/// path-and-query; otherwise the input path, byte for byte.
pub open spec fn sanitized_path(path: Seq<u8>, query: Option<Seq<u8>>) -> Seq<u8> {
    let np = norm_path(path);
    if np == path {
        path
    } else if pq_valid(combined_pq(np, query)) {
        np
    } else {
        path
    }
}

/// Byte-for-byte equality of two buffers.
fn bytes_eq(a: &Vec<u8>, b: &Vec<u8>) -> (r: bool)
    ensures
        r == (a@ == b@),
{
    if a.len() != b.len() {
        proof {
            assert(a@ != b@) by {
                if a@ == b@ {
                    assert(a@.len() == b@.len());
                }
            }
        }
        return false;
    }
    let mut i: usize = 0;
    while i < a.len()
        invariant
            i <= a@.len(),
            a@.len() == b@.len(),
            forall|j: int| 0 <= j < i ==> a@[j] == b@[j],
        decreases a@.len() - i,
    {
        if a[i] != b[i] {
            proof {
                assert(a@ != b@) by {
                    if a@ == b@ {
                        assert(a@[i as int] == b@[i as int]);
                    }
                }
            }
            return false;
        }
        i = i + 1;
    }
    proof {
        assert(a@ =~= b@);
    }
    true
}

/// Build the path-and-query bytes for `path` and `query`.
fn combine_path_query(path: &Vec<u8>, query: &Option<Vec<u8>>) -> (out: Vec<u8>)
    ensures
        out@ == combined_pq(path@, query_view(*query)),
{
    let mut out: Vec<u8> = Vec::new();
    let mut i: usize = 0;
    proof {
        assert(out@ =~= path@.take(0));
    }
    while i < path.len()
        invariant
            i <= path@.len(),
            out@ == path@.take(i as int),
        decreases path@.len() - i,
    {
        out.push(path[i]);
        proof {
            assert(path@.take(i as int).push(path@[i as int]) =~= path@.take(i as int + 1));
        }
        i = i + 1;
    }
    proof {
        assert(path@.take(path@.len() as int) =~= path@);
    }
    match query {
        Some(q) => {
            out.push(QUERY_SEP);
            let mut j: usize = 0;
            proof {
                assert(out@ =~= path@ + seq![QUERY_SEP] + q@.take(0));
            }
            while j < q.len()
                invariant
                    j <= q@.len(),
                    out@ == path@ + seq![QUERY_SEP] + q@.take(j as int),
                decreases q@.len() - j,
            {
                out.push(q[j]);
                proof {
                    assert((path@ + seq![QUERY_SEP] + q@.take(j as int)).push(q@[j as int])
                        =~= path@ + seq![QUERY_SEP] + q@.take(j as int + 1));
                }
                j = j + 1;
            }
            proof {
                assert(path@ + seq![QUERY_SEP] + q@.take(q@.len() as int) =~= path@ + seq![
                    QUERY_SEP,
                ] + q@);
            }
        },
        None => {},
    }
    out
}

/// Rewrite the path of `pq` into its normal form, traversal segments
/// dropped, keeping the query untouched; when the rewritten path-and-query
/// would be invalid, or the path is already normal, leave everything as it
/// was. Returns whether the path changed.
pub fn sanitize_path(pq: &mut UriPathQuery) -> (changed: bool)
    ensures
        final(pq).path@ == sanitized_path(old(pq).path@, query_view(old(pq).query)),
        query_view(final(pq).query) == query_view(old(pq).query),
        changed == (final(pq).path@ != old(pq).path@),
{
    let np = normalize_path(&pq.path);
    if bytes_eq(&np, &pq.path) {
        return false;
    }
    let combined = combine_path_query(&np, &pq.query);
    if path_and_query_valid(&combined) {
        pq.path = np;
        true
    } else {
        false
    }
}

/// Idempotence: sanitizing a second time changes nothing, provided the
/// first pass's normal form decodes to itself. (A path that still holds a
/// decodable escape after one pass — a doubly encoded traversal, say — is
/// decoded once more by a second pass, so the law cannot cover it.)
pub proof fn lemma_sanitize_idempotent(path: Seq<u8>, query: Option<Seq<u8>>)
    requires
        decoded(norm_path(path)) == norm_path(path),
    ensures
        sanitized_path(sanitized_path(path, query), query) == sanitized_path(path, query),
{
    let np = norm_path(path);
    if np == path {
    } else if pq_valid(combined_pq(np, query)) {
        lemma_norm_idempotent(decoded(path));
        assert(norm_path(np) == norm_from(np));
        assert(norm_from(np) == np);
    }
}

/// No-op on clean input: a path that decodes to itself and whose segments
/// are already clean comes back byte-identical, whatever the query.
pub proof fn lemma_noop_on_clean(path: Seq<u8>, query: Option<Seq<u8>>)
    requires
        decoded(path) == path,
        segments_clean(path),
    ensures
        sanitized_path(path, query) == path,
{
    lemma_norm_clean_identity(path);
}

/// Traversal removal: the normal form of any path holds no `.` or `..`
/// segment; so whenever the output is the normal form — always, except when
/// an invalid recombination hands the input back — the output holds none.
pub proof fn lemma_traversal_removed(path: Seq<u8>, query: Option<Seq<u8>>)
    ensures
        no_traversal(norm_path(path)),
        (norm_path(path) == path || pq_valid(combined_pq(norm_path(path), query)))
            ==> no_traversal(sanitized_path(path, query)),
{
    lemma_norm_no_traversal(decoded(path));
}

/// Rootedness preservation: a path that begins with `/` still does after
/// sanitizing, whichever branch the sanitizer takes.
pub proof fn lemma_rootedness_preserved(path: Seq<u8>, query: Option<Seq<u8>>)
    requires
        path.len() > 0,
        path[0] == SLASH,
    ensures
        sanitized_path(path, query).len() > 0,
        sanitized_path(path, query)[0] == SLASH,
{
    assert(SLASH != PERCENT);
    lemma_decoded_keeps_first(path);
    lemma_norm_rooted(decoded(path));
}

} // verus!
