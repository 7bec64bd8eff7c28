//! The path normalizer: percent-decode, split at `/`, drop the traversal
//! segments `.` and `..`, and re-join, keeping a leading `/` exactly when
//! the decoded path had one.
//!
//! A `..` is dropped, not resolved against the segment before it: the
//! normal form of a path holding `a/../b` keeps `a` and `b` both. That is a
//! deliberately conservative choice — no retained segment can ever be
//! removed again by a later traversal marker — and not the ascent
//! resolution a filesystem would perform.

use vstd::prelude::*;

use crate::decode::decoded;
use crate::decode::percent_decode;
use crate::segments::join_kept;
use crate::segments::joined;
use crate::segments::joined_rooted;
use crate::segments::kept_of;
use crate::segments::kept_seg;
use crate::segments::lemma_joined_first;
use crate::segments::lemma_joined_of_split;
use crate::segments::lemma_joined_skip_first;
use crate::segments::lemma_kept_of_identity;
use crate::segments::lemma_kept_of_kept_all;
use crate::segments::lemma_kept_of_none;
use crate::segments::lemma_kept_of_slash_free;
use crate::segments::lemma_kept_of_tail_kept;
use crate::segments::lemma_split_first;
use crate::segments::lemma_split_len;
use crate::segments::lemma_split_of_joined;
use crate::segments::lemma_split_of_joined_rooted;
use crate::segments::lemma_split_slash_free;
use crate::segments::slash_free;
use crate::segments::split_path;
use crate::segments::split_segs;
use crate::segments::DOT;
use crate::segments::SLASH;

verus! {

/// The normal form of already-decoded path bytes: the kept segments of `s`,
/// re-joined, rooted exactly when `s` begins with `/`.
pub open spec fn norm_from(s: Seq<u8>) -> Seq<u8> {
    joined_rooted(kept_of(split_segs(s)), s.len() > 0 && s[0] == SLASH)
}

/// The normal form of raw path bytes: decode, then normalize.
pub open spec fn norm_path(raw: Seq<u8>) -> Seq<u8> {
    norm_from(decoded(raw))
}

/// Compute the normal form of the raw path bytes `path`.
pub fn normalize_path(path: &Vec<u8>) -> (out: Vec<u8>)
    ensures
        out@ == norm_path(path@),
{
    let d = percent_decode(path);
    let rooted = if d.len() > 0 {
        d[0] == SLASH
    } else {
        false
    };
    let segs = split_path(&d);
    join_kept(&segs, rooted)
}

/// No split segment of `s`'s normal form is `.` or `..`.
pub open spec fn no_traversal(s: Seq<u8>) -> bool {
    forall|i: int|
        0 <= i < split_segs(s).len() ==> #[trigger] split_segs(s)[i] != seq![DOT] && split_segs(
            s,
        )[i] != seq![DOT, DOT]
}

/// The normal form of any decoded path contains no traversal segment.
pub proof fn lemma_norm_no_traversal(s: Seq<u8>)
    ensures
        no_traversal(norm_from(s)),
{
    let k = kept_of(split_segs(s));
    let rooted = s.len() > 0 && s[0] == SLASH;
    lemma_split_slash_free(s);
    lemma_kept_of_slash_free(split_segs(s));
    lemma_kept_of_kept_all(split_segs(s));
    assert(forall|i: int| 0 <= i < k.len() ==> (#[trigger] k[i]).len() > 0);
    if k.len() == 0 {
        if rooted {
            assert(norm_from(s) =~= seq![SLASH]);
            let one = seq![SLASH];
            assert(one.last() == SLASH);
            assert(one.drop_last() =~= Seq::<u8>::empty());
            assert(split_segs(one) == split_segs(Seq::<u8>::empty()).push(Seq::empty()));
            assert(split_segs(Seq::<u8>::empty()) =~= seq![Seq::<u8>::empty()]);
            assert(forall|i: int|
                0 <= i < split_segs(norm_from(s)).len() ==> (#[trigger] split_segs(
                    norm_from(s),
                )[i]).len() == 0);
        } else {
            assert(norm_from(s) =~= Seq::<u8>::empty());
            assert(split_segs(norm_from(s)) =~= seq![Seq::<u8>::empty()]);
        }
    } else {
        if rooted {
            lemma_split_of_joined_rooted(k);
            assert(split_segs(norm_from(s)) == seq![Seq::<u8>::empty()] + k);
            assert forall|i: int| 0 <= i < split_segs(norm_from(s)).len() implies #[trigger]
            split_segs(norm_from(s))[i] != seq![DOT] && split_segs(norm_from(s))[i] != seq![
                DOT,
                DOT,
            ] by {
                if i == 0 {
                    assert(split_segs(norm_from(s))[0] == Seq::<u8>::empty());
                } else {
                    assert(split_segs(norm_from(s))[i] == k[i - 1]);
                    assert(kept_seg(k[i - 1]));
                }
            }
        } else {
            lemma_split_of_joined(k);
            assert(split_segs(norm_from(s)) == k);
        }
    }
}

/// Normalizing is idempotent on decoded paths.
pub proof fn lemma_norm_idempotent(s: Seq<u8>)
    ensures
        norm_from(norm_from(s)) == norm_from(s),
{
    let k = kept_of(split_segs(s));
    let rooted = s.len() > 0 && s[0] == SLASH;
    let n = norm_from(s);
    lemma_split_slash_free(s);
    lemma_kept_of_slash_free(split_segs(s));
    lemma_kept_of_kept_all(split_segs(s));
    if k.len() == 0 {
        if rooted {
            assert(n =~= seq![SLASH]);
            assert(n.last() == SLASH);
            assert(n.drop_last() =~= Seq::<u8>::empty());
            assert(split_segs(n) == split_segs(Seq::<u8>::empty()).push(Seq::empty()));
            assert(split_segs(Seq::<u8>::empty()) =~= seq![Seq::<u8>::empty()]);
            assert(split_segs(n) =~= seq![Seq::<u8>::empty(), Seq::<u8>::empty()]);
            lemma_kept_of_none(split_segs(n));
            assert(norm_from(n) =~= seq![SLASH]);
        } else {
            assert(n =~= Seq::<u8>::empty());
            assert(split_segs(n) =~= seq![Seq::<u8>::empty()]);
            lemma_kept_of_none(split_segs(n));
            assert(norm_from(n) =~= Seq::<u8>::empty());
        }
    } else {
        assert(kept_seg(k[0]));
        assert(slash_free(k[0]));
        if rooted {
            assert(n == seq![SLASH] + joined(k));
            assert(n.len() > 0 && n[0] == SLASH);
            lemma_split_of_joined_rooted(k);
            assert(split_segs(n) == seq![Seq::<u8>::empty()] + k);
            let e = seq![Seq::<u8>::empty()] + k;
            assert(!kept_seg(e[0]));
            assert(forall|i: int| 1 <= i < e.len() ==> e[i] == k[i - 1]);
            lemma_kept_of_tail_kept(e);
            assert(e.skip(1) =~= k);
            assert(norm_from(n) == seq![SLASH] + joined(k));
        } else {
            assert(n == joined(k));
            lemma_joined_first(k);
            assert(n[0] == k[0][0]);
            assert(k[0][0] != SLASH);
            lemma_split_of_joined(k);
            assert(split_segs(n) == k);
            lemma_kept_of_identity(k);
            assert(norm_from(n) == joined(k));
        }
    }
}

/// The normal form of a rooted decoded path is rooted.
pub proof fn lemma_norm_rooted(s: Seq<u8>)
    requires
        s.len() > 0,
        s[0] == SLASH,
    ensures
        norm_from(s).len() > 0,
        norm_from(s)[0] == SLASH,
{
    assert(norm_from(s) == seq![SLASH] + joined(kept_of(split_segs(s))));
    assert((seq![SLASH] + joined(kept_of(split_segs(s))))[0] == SLASH);
}

/// A decoded path already in normal form: when rooted, everything after the
/// root marker is a kept segment; when relative, every segment is kept.
pub open spec fn segments_clean(s: Seq<u8>) -> bool {
    if s.len() > 0 && s[0] == SLASH {
        forall|i: int| 1 <= i < split_segs(s).len() ==> kept_seg(#[trigger] split_segs(s)[i])
    } else {
        forall|i: int| 0 <= i < split_segs(s).len() ==> kept_seg(#[trigger] split_segs(s)[i])
    }
}

/// A decoded path whose segments are already clean is its own normal form.
pub proof fn lemma_norm_clean_identity(s: Seq<u8>)
    requires
        segments_clean(s),
    ensures
        norm_from(s) == s,
{
    let p = split_segs(s);
    lemma_split_len(s);
    lemma_joined_of_split(s);
    if s.len() > 0 && s[0] == SLASH {
        lemma_split_first(s);
        assert(!kept_seg(p[0]));
        lemma_kept_of_tail_kept(p);
        assert(kept_of(p) == p.skip(1));
        lemma_joined_skip_first(p);
        assert(s == p[0] + seq![SLASH] + joined(p.skip(1)));
        assert(p[0] + seq![SLASH] + joined(p.skip(1)) =~= seq![SLASH] + joined(p.skip(1)));
        assert(norm_from(s) == seq![SLASH] + joined(kept_of(p)));
    } else {
        lemma_kept_of_identity(p);
        assert(norm_from(s) == joined(p));
    }
}

} // verus!
