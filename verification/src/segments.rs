//! Splitting a decoded path into `/`-separated segments, dropping the
//! traversal-capable segments `.` and `..`, and re-joining what is kept.

use vstd::prelude::*;

verus! {

/// `/` in ASCII.
pub const SLASH: u8 = 47;

/// `.` in ASCII.
pub const DOT: u8 = 46;

/// The `/`-separated segments of `s`, empty segments included: a separator
/// at either end of `s`, or doubled inside it, yields an empty segment.
/// Splitting always yields at least one segment.
pub open spec fn split_segs(s: Seq<u8>) -> Seq<Seq<u8>>
    decreases s.len(),
{
    if s.len() == 0 {
        seq![Seq::empty()]
    } else if s.last() == SLASH {
        split_segs(s.drop_last()).push(Seq::empty())
    } else {
        let p = split_segs(s.drop_last());
        p.update(p.len() - 1, p.last().push(s.last()))
    }
}

/// Splitting yields at least one segment.
pub proof fn lemma_split_len(s: Seq<u8>)
    ensures
        split_segs(s).len() >= 1,
    decreases s.len(),
{
    if s.len() > 0 {
        lemma_split_len(s.drop_last());
    }
}

/// A segment that names a real resource step: non-empty and neither the
/// current-reference `.` nor the parent-traversal `..`.
pub open spec fn kept_seg(seg: Seq<u8>) -> bool {
    seg.len() > 0 && seg != seq![DOT] && seg != seq![DOT, DOT]
}

/// The kept segments of `segs`, in their original order.
pub open spec fn kept_of(segs: Seq<Seq<u8>>) -> Seq<Seq<u8>>
    decreases segs.len(),
{
    if segs.len() == 0 {
        Seq::empty()
    } else if kept_seg(segs.last()) {
        kept_of(segs.drop_last()).push(segs.last())
    } else {
        kept_of(segs.drop_last())
    }
}

/// The segments re-joined, with one `/` between each neighbouring pair.
pub open spec fn joined(segs: Seq<Seq<u8>>) -> Seq<u8>
    decreases segs.len(),
{
    if segs.len() == 0 {
        Seq::empty()
    } else if segs.len() == 1 {
        segs[0]
    } else {
        joined(segs.drop_last()) + seq![SLASH] + segs.last()
    }
}

/// The re-joined segments, with a leading `/` when the path is rooted.
pub open spec fn joined_rooted(segs: Seq<Seq<u8>>, rooted: bool) -> Seq<u8> {
    if rooted {
        seq![SLASH] + joined(segs)
    } else {
        joined(segs)
    }
}

/// The views of a vector of byte buffers.
pub open spec fn seg_views(segs: Seq<Vec<u8>>) -> Seq<Seq<u8>> {
    segs.map_values(|v: Vec<u8>| v@)
}

/// True of a segment that contains no `/`.
pub open spec fn slash_free(seg: Seq<u8>) -> bool {
    forall|j: int| 0 <= j < seg.len() ==> seg[j] != SLASH
}

/// No segment that splitting yields contains a `/`.
pub proof fn lemma_split_slash_free(s: Seq<u8>)
    ensures
        forall|i: int| 0 <= i < split_segs(s).len() ==> slash_free(#[trigger] split_segs(s)[i]),
    decreases s.len(),
{
    if s.len() == 0 {
        assert(slash_free(Seq::empty()));
    } else if s.last() == SLASH {
        lemma_split_slash_free(s.drop_last());
        let p = split_segs(s.drop_last());
        assert forall|i: int| 0 <= i < p.push(Seq::empty()).len() implies slash_free(
            #[trigger] p.push(Seq::empty())[i],
        ) by {
            if i < p.len() {
                assert(p.push(Seq::empty())[i] == p[i]);
            } else {
                assert(p.push(Seq::empty())[i] =~= Seq::<u8>::empty());
            }
        }
    } else {
        lemma_split_slash_free(s.drop_last());
        lemma_split_len(s.drop_last());
        let p = split_segs(s.drop_last());
        let q = p.update(p.len() - 1, p.last().push(s.last()));
        assert forall|i: int| 0 <= i < q.len() implies slash_free(#[trigger] q[i]) by {
            if i == p.len() - 1 {
                assert(q[i] == p.last().push(s.last()));
                assert(slash_free(p[p.len() - 1]));
                assert forall|j: int| 0 <= j < q[i].len() implies q[i][j] != SLASH by {
                    if j < p.last().len() {
                        assert(q[i][j] == p.last()[j]);
                    } else {
                        assert(q[i][j] == s.last());
                    }
                }
            } else {
                assert(q[i] == p[i]);
            }
        }
    }
}

/// Re-joining the split of `s` gives `s` back.
pub proof fn lemma_joined_of_split(s: Seq<u8>)
    ensures
        joined(split_segs(s)) == s,
    decreases s.len(),
{
    if s.len() == 0 {
        assert(joined(seq![Seq::<u8>::empty()]) =~= s);
    } else if s.last() == SLASH {
        lemma_joined_of_split(s.drop_last());
        lemma_split_len(s.drop_last());
        let p = split_segs(s.drop_last());
        let q = p.push(Seq::<u8>::empty());
        assert(q.drop_last() =~= p);
        assert(q.last() =~= Seq::<u8>::empty());
        assert(joined(q) == joined(p) + seq![SLASH] + q.last());
        assert(s.drop_last() + seq![SLASH] + Seq::<u8>::empty() =~= s);
    } else {
        lemma_joined_of_split(s.drop_last());
        lemma_split_len(s.drop_last());
        let p = split_segs(s.drop_last());
        let q = p.update(p.len() - 1, p.last().push(s.last()));
        if p.len() == 1 {
            assert(q.len() == 1);
            assert(joined(q) == q[0]);
            assert(q[0] == p.last().push(s.last()));
            assert(p[0] == p.last());
            assert(joined(p) == p[0]);
            assert(p.last().push(s.last()) =~= s);
        } else {
            assert(q.drop_last() =~= p.drop_last());
            assert(q.last() == p.last().push(s.last()));
            assert(joined(q) == joined(p.drop_last()) + seq![SLASH] + p.last().push(s.last()));
            assert(joined(p) == joined(p.drop_last()) + seq![SLASH] + p.last());
            assert(joined(p.drop_last()) + seq![SLASH] + p.last().push(s.last()) =~= (joined(
                p.drop_last(),
            ) + seq![SLASH] + p.last()).push(s.last()));
            assert(joined(p).push(s.last()) =~= s);
        }
    }
}

/// Appending slash-free bytes to `a` extends the last segment of its split.
pub proof fn lemma_split_extend(a: Seq<u8>, t: Seq<u8>)
    requires
        slash_free(t),
    ensures
        split_segs(a + t) == split_segs(a).update(
            split_segs(a).len() - 1,
            split_segs(a).last() + t,
        ),
    decreases t.len(),
{
    lemma_split_len(a);
    let p = split_segs(a);
    if t.len() == 0 {
        assert(a + t =~= a);
        assert(p.update(p.len() - 1, p.last() + t) =~= p) by {
            assert(p.last() + t =~= p.last());
        }
    } else {
        let t0 = t.drop_last();
        assert(slash_free(t0)) by {
            assert(forall|j: int| 0 <= j < t0.len() ==> t0[j] == t[j]);
        }
        lemma_split_extend(a, t0);
        let c = t.last();
        assert(c != SLASH);
        let u = a + t;
        assert(u.len() > 0);
        assert(u.last() == c);
        assert(u.drop_last() =~= a + t0);
        let w = split_segs(a + t0);
        assert(split_segs(u) == w.update(w.len() - 1, w.last().push(c)));
        assert(w == p.update(p.len() - 1, p.last() + t0));
        assert(w.len() == p.len());
        assert(w.last() == p.last() + t0);
        assert(w.update(w.len() - 1, w.last().push(c)) =~= p.update(p.len() - 1, p.last() + t)) by {
            assert((p.last() + t0).push(c) =~= p.last() + t);
        }
    }
}

/// A `/` and then slash-free bytes add one segment to the split.
pub proof fn lemma_split_append_seg(a: Seq<u8>, t: Seq<u8>)
    requires
        slash_free(t),
    ensures
        split_segs(a + seq![SLASH] + t) == split_segs(a).push(t),
{
    lemma_split_len(a);
    let p = split_segs(a);
    let b = a + seq![SLASH];
    assert(b.len() > 0);
    assert(b.last() == SLASH);
    assert(b.drop_last() =~= a);
    assert(split_segs(b) == p.push(Seq::empty()));
    lemma_split_extend(b, t);
    let w = split_segs(b);
    assert(split_segs(b + t) == w.update(w.len() - 1, w.last() + t));
    assert(b + t =~= a + seq![SLASH] + t);
    assert(w.update(w.len() - 1, w.last() + t) =~= p.push(t)) by {
        assert(w.last() + t =~= t);
    }
}

/// Splitting the join of non-empty, slash-free segments gives them back.
pub proof fn lemma_split_of_joined(segs: Seq<Seq<u8>>)
    requires
        segs.len() >= 1,
        forall|i: int| 0 <= i < segs.len() ==> slash_free(#[trigger] segs[i]),
    ensures
        split_segs(joined(segs)) == segs,
    decreases segs.len(),
{
    if segs.len() == 1 {
        assert(joined(segs) == segs[0]);
        lemma_split_extend(Seq::empty(), segs[0]);
        assert(Seq::<u8>::empty() + segs[0] =~= segs[0]);
        let p = split_segs(Seq::<u8>::empty());
        assert(p =~= seq![Seq::<u8>::empty()]);
        assert(p.update(0, p.last() + segs[0]) =~= segs) by {
            assert(p.last() + segs[0] =~= segs[0]);
        }
    } else {
        let d = segs.drop_last();
        assert(forall|i: int| 0 <= i < d.len() ==> d[i] == segs[i]);
        lemma_split_of_joined(d);
        lemma_split_append_seg(joined(d), segs.last());
        assert(joined(segs) == joined(d) + seq![SLASH] + segs.last());
        assert(split_segs(joined(segs)) == d.push(segs.last()));
        assert(d.push(segs.last()) =~= segs);
    }
}

/// Splitting a rooted join: the root marker's empty segment, then the
/// segments themselves.
pub proof fn lemma_split_of_joined_rooted(segs: Seq<Seq<u8>>)
    requires
        segs.len() >= 1,
        forall|i: int| 0 <= i < segs.len() ==> slash_free(#[trigger] segs[i]),
    ensures
        split_segs(seq![SLASH] + joined(segs)) == seq![Seq::<u8>::empty()] + segs,
    decreases segs.len(),
{
    if segs.len() == 1 {
        lemma_split_append_seg(Seq::empty(), segs[0]);
        assert(Seq::<u8>::empty() + seq![SLASH] + segs[0] =~= seq![SLASH] + joined(segs));
        assert(split_segs(Seq::<u8>::empty()).push(segs[0]) =~= seq![Seq::<u8>::empty()] + segs);
    } else {
        let d = segs.drop_last();
        assert(forall|i: int| 0 <= i < d.len() ==> d[i] == segs[i]);
        lemma_split_of_joined_rooted(d);
        lemma_split_append_seg(seq![SLASH] + joined(d), segs.last());
        assert(joined(segs) == joined(d) + seq![SLASH] + segs.last());
        assert(seq![SLASH] + joined(segs) =~= (seq![SLASH] + joined(d)) + seq![SLASH]
            + segs.last());
        assert((seq![Seq::<u8>::empty()] + d).push(segs.last()) =~= seq![Seq::<u8>::empty()]
            + segs);
    }
}

/// Every segment the filter keeps satisfies `kept_seg`.
pub proof fn lemma_kept_of_kept_all(segs: Seq<Seq<u8>>)
    ensures
        forall|i: int| 0 <= i < kept_of(segs).len() ==> kept_seg(#[trigger] kept_of(segs)[i]),
    decreases segs.len(),
{
    if segs.len() > 0 {
        lemma_kept_of_kept_all(segs.drop_last());
        if kept_seg(segs.last()) {
            let k = kept_of(segs.drop_last());
            assert(forall|i: int|
                0 <= i < k.push(segs.last()).len() ==> kept_seg(
                    #[trigger] k.push(segs.last())[i],
                ));
        }
    }
}

/// Filtering keeps segments slash-free.
pub proof fn lemma_kept_of_slash_free(segs: Seq<Seq<u8>>)
    requires
        forall|i: int| 0 <= i < segs.len() ==> slash_free(#[trigger] segs[i]),
    ensures
        forall|i: int| 0 <= i < kept_of(segs).len() ==> slash_free(#[trigger] kept_of(segs)[i]),
    decreases segs.len(),
{
    if segs.len() > 0 {
        let d = segs.drop_last();
        assert(forall|i: int| 0 <= i < d.len() ==> d[i] == segs[i]);
        lemma_kept_of_slash_free(d);
        if kept_seg(segs.last()) {
            let k = kept_of(d);
            assert(forall|i: int|
                0 <= i < k.push(segs.last()).len() ==> slash_free(
                    #[trigger] k.push(segs.last())[i],
                ));
        }
    }
}

/// Filtering a sequence of kept segments changes nothing.
pub proof fn lemma_kept_of_identity(segs: Seq<Seq<u8>>)
    requires
        forall|i: int| 0 <= i < segs.len() ==> kept_seg(#[trigger] segs[i]),
    ensures
        kept_of(segs) == segs,
    decreases segs.len(),
{
    if segs.len() == 0 {
        assert(kept_of(segs) =~= segs);
    } else {
        let d = segs.drop_last();
        assert(forall|i: int| 0 <= i < d.len() ==> d[i] == segs[i]);
        lemma_kept_of_identity(d);
        assert(kept_seg(segs.last()));
        assert(d.push(segs.last()) =~= segs);
    }
}

/// Filtering a sequence without kept segments leaves nothing.
pub proof fn lemma_kept_of_none(segs: Seq<Seq<u8>>)
    requires
        forall|i: int| 0 <= i < segs.len() ==> !kept_seg(#[trigger] segs[i]),
    ensures
        kept_of(segs) == Seq::<Seq<u8>>::empty(),
    decreases segs.len(),
{
    if segs.len() > 0 {
        let d = segs.drop_last();
        assert(forall|i: int| 0 <= i < d.len() ==> d[i] == segs[i]);
        lemma_kept_of_none(d);
        assert(!kept_seg(segs.last()));
    }
}

/// When only the first segment is dropped, filtering is `skip(1)`.
pub proof fn lemma_kept_of_tail_kept(segs: Seq<Seq<u8>>)
    requires
        segs.len() >= 1,
        !kept_seg(segs[0]),
        forall|i: int| 1 <= i < segs.len() ==> kept_seg(#[trigger] segs[i]),
    ensures
        kept_of(segs) == segs.skip(1),
    decreases segs.len(),
{
    if segs.len() == 1 {
        assert(segs.last() == segs[0]);
        assert(segs.drop_last() =~= Seq::<Seq<u8>>::empty());
        assert(kept_of(Seq::<Seq<u8>>::empty()) =~= Seq::<Seq<u8>>::empty());
        assert(kept_of(segs) == kept_of(segs.drop_last()));
        assert(kept_of(segs) =~= segs.skip(1));
    } else {
        let d = segs.drop_last();
        assert(d[0] == segs[0]);
        assert(forall|i: int| 1 <= i < d.len() ==> d[i] == segs[i]);
        lemma_kept_of_tail_kept(d);
        assert(kept_seg(segs.last()));
        assert(d.skip(1).push(segs.last()) =~= segs.skip(1));
    }
}

/// The first byte of a join is the first byte of its first segment.
pub proof fn lemma_joined_first(segs: Seq<Seq<u8>>)
    requires
        segs.len() > 0,
        segs[0].len() > 0,
    ensures
        joined(segs).len() > 0,
        joined(segs)[0] == segs[0][0],
    decreases segs.len(),
{
    if segs.len() == 1 {
        assert(joined(segs) == segs[0]);
    } else {
        let d = segs.drop_last();
        assert(d[0] == segs[0]);
        lemma_joined_first(d);
        assert(joined(segs) == joined(d) + seq![SLASH] + segs.last());
        assert((joined(d) + seq![SLASH] + segs.last())[0] == joined(d)[0]);
    }
}

/// A rooted path splits into an empty root-marker segment and the rest.
pub proof fn lemma_split_first(s: Seq<u8>)
    requires
        s.len() > 0,
        s[0] == SLASH,
    ensures
        split_segs(s).len() >= 2,
        split_segs(s)[0] == Seq::<u8>::empty(),
    decreases s.len(),
{
    if s.len() == 1 {
        assert(s.last() == SLASH);
        assert(s.drop_last() =~= Seq::<u8>::empty());
        assert(split_segs(s) == split_segs(Seq::<u8>::empty()).push(Seq::empty()));
        assert(split_segs(Seq::<u8>::empty()) =~= seq![Seq::<u8>::empty()]);
    } else {
        let d = s.drop_last();
        assert(d[0] == SLASH);
        lemma_split_first(d);
        if s.last() == SLASH {
            assert(split_segs(s)[0] == split_segs(d)[0]);
        } else {
            let p = split_segs(d);
            assert(split_segs(s) == p.update(p.len() - 1, p.last().push(s.last())));
            assert(split_segs(s)[0] == p[0]);
        }
    }
}

/// Peeling the first segment off a join of two or more segments.
pub proof fn lemma_joined_skip_first(segs: Seq<Seq<u8>>)
    requires
        segs.len() >= 2,
    ensures
        joined(segs) == segs[0] + seq![SLASH] + joined(segs.skip(1)),
    decreases segs.len(),
{
    if segs.len() == 2 {
        assert(segs.drop_last() =~= seq![segs[0]]);
        assert(joined(seq![segs[0]]) == segs[0]);
        assert(segs.skip(1) =~= seq![segs[1]]);
        assert(joined(seq![segs[1]]) == segs[1]);
        assert(joined(segs) == segs[0] + seq![SLASH] + segs[1]);
    } else {
        let d = segs.drop_last();
        assert(d[0] == segs[0]);
        lemma_joined_skip_first(d);
        let t = segs.skip(1);
        assert(t.len() >= 2);
        assert(t.drop_last() =~= d.skip(1));
        assert(t.last() == segs.last());
        assert(joined(t) == joined(d.skip(1)) + seq![SLASH] + segs.last());
        assert(joined(segs) == joined(d) + seq![SLASH] + segs.last());
        assert(joined(d) == segs[0] + seq![SLASH] + joined(d.skip(1)));
        assert((segs[0] + seq![SLASH] + joined(d.skip(1))) + seq![SLASH] + segs.last() =~= segs[0]
            + seq![SLASH] + (joined(d.skip(1)) + seq![SLASH] + segs.last()));
    }
}

/// Split `s` at every `/`.
pub fn split_path(s: &Vec<u8>) -> (segs: Vec<Vec<u8>>)
    ensures
        seg_views(segs@) == split_segs(s@),
{
    let mut done: Vec<Vec<u8>> = Vec::new();
    let mut cur: Vec<u8> = Vec::new();
    let mut i: usize = 0;
    proof {
        assert(s@.take(0) =~= Seq::<u8>::empty());
        assert(seg_views(done@).push(cur@) =~= split_segs(s@.take(0)));
    }
    while i < s.len()
        invariant
            i <= s@.len(),
            seg_views(done@).push(cur@) == split_segs(s@.take(i as int)),
        decreases s@.len() - i,
    {
        let ghost done0 = done@;
        let ghost cur0 = cur@;
        proof {
            assert(s@.take(i as int + 1).drop_last() =~= s@.take(i as int));
            assert(s@.take(i as int + 1).last() == s@[i as int]);
        }
        if s[i] == SLASH {
            done.push(cur);
            cur = Vec::new();
            proof {
                assert(seg_views(done@) =~= seg_views(done0).push(cur0));
                assert(split_segs(s@.take(i as int + 1)) == split_segs(s@.take(i as int)).push(
                    Seq::empty()));
                assert(seg_views(done@).push(cur@) =~= (seg_views(done0).push(cur0)).push(
                    Seq::empty()));
            }
        } else {
            let b = s[i];
            cur.push(b);
            proof {
                let p = split_segs(s@.take(i as int));
                assert(split_segs(s@.take(i as int + 1)) == p.update(p.len() - 1, p.last().push(
                    b)));
                assert(p.last() == cur0);
                assert(seg_views(done@).push(cur@) =~= p.update(p.len() - 1, cur0.push(b)));
            }
        }
        i = i + 1;
    }
    let ghost done0 = done@;
    let ghost cur0 = cur@;
    done.push(cur);
    proof {
        assert(seg_views(done@) =~= seg_views(done0).push(cur0));
        assert(s@.take(s@.len() as int) =~= s@);
    }
    done
}

/// Decide whether the normalizer keeps this segment.
pub fn keep_segment(seg: &Vec<u8>) -> (r: bool)
    ensures
        r == kept_seg(seg@),
{
    if seg.len() == 0 {
        false
    } else if seg.len() == 1 && seg[0] == DOT {
        proof {
            assert(seg@ =~= seq![DOT]);
        }
        false
    } else if seg.len() == 2 && seg[0] == DOT && seg[1] == DOT {
        proof {
            assert(seg@ =~= seq![DOT, DOT]);
        }
        false
    } else {
        proof {
            assert(seg@ != seq![DOT] && seg@ != seq![DOT, DOT]) by {
                if seg@ == seq![DOT] {
                    assert(seg@.len() == 1 && seg@[0] == DOT);
                }
                if seg@ == seq![DOT, DOT] {
                    assert(seg@.len() == 2 && seg@[0] == DOT && seg@[1] == DOT);
                }
            }
        }
        true
    }
}

/// Join the kept segments of `segs` with `/`, with a leading `/` when
/// `rooted`.
pub fn join_kept(segs: &Vec<Vec<u8>>, rooted: bool) -> (out: Vec<u8>)
    ensures
        out@ == joined_rooted(kept_of(seg_views(segs@)), rooted),
{
    let mut out: Vec<u8> = Vec::new();
    if rooted {
        out.push(SLASH);
    }
    let mut n_kept: usize = 0;
    let mut i: usize = 0;
    proof {
        assert(segs@.take(0) =~= Seq::<Vec<u8>>::empty());
        assert(seg_views(Seq::<Vec<u8>>::empty()) =~= Seq::<Seq<u8>>::empty());
        if rooted {
            assert(out@ =~= seq![SLASH] + joined(kept_of(seg_views(segs@.take(0)))));
        } else {
            assert(out@ =~= joined(kept_of(seg_views(segs@.take(0)))));
        }
    }
    while i < segs.len()
        invariant
            i <= segs@.len(),
            n_kept <= i,
            n_kept as nat == kept_of(seg_views(segs@.take(i as int))).len(),
            out@ == joined_rooted(kept_of(seg_views(segs@.take(i as int))), rooted),
        decreases segs@.len() - i,
    {
        let seg = &segs[i];
        let ghost prefix = kept_of(seg_views(segs@.take(i as int)));
        proof {
            assert(seg_views(segs@.take(i as int + 1)).drop_last() =~= seg_views(segs@.take(
                i as int)));
            assert(seg_views(segs@.take(i as int + 1)).last() == seg@);
        }
        if keep_segment(seg) {
            proof {
                assert(kept_of(seg_views(segs@.take(i as int + 1))) == prefix.push(seg@));
            }
            if n_kept > 0 {
                out.push(SLASH);
                proof {
                    assert(prefix.push(seg@).drop_last() =~= prefix);
                    assert(joined(prefix.push(seg@)) == joined(prefix) + seq![SLASH] + seg@);
                }
            } else {
                proof {
                    assert(prefix =~= Seq::<Seq<u8>>::empty());
                    assert(joined(prefix.push(seg@)) == seg@);
                }
            }
            let ghost out0 = out@;
            let mut j: usize = 0;
            proof {
                assert(out0 + seg@.take(0) =~= out0);
            }
            while j < seg.len()
                invariant
                    j <= seg@.len(),
                    out@ == out0 + seg@.take(j as int),
                decreases seg@.len() - j,
            {
                out.push(seg[j]);
                proof {
                    assert((out0 + seg@.take(j as int)).push(seg@[j as int]) =~= out0 + seg@.take(
                        j as int + 1));
                }
                j = j + 1;
            }
            proof {
                assert(out0 + seg@.take(seg@.len() as int) =~= out0 + seg@);
                if n_kept > 0 {
                    assert(out@ =~= joined_rooted(prefix, rooted) + seq![SLASH] + seg@);
                    if rooted {
                        assert(out@ =~= seq![SLASH] + (joined(prefix) + seq![SLASH] + seg@));
                    }
                } else {
                    if rooted {
                        assert(out@ =~= seq![SLASH] + seg@);
                    } else {
                        assert(out@ =~= seg@);
                    }
                }
            }
            n_kept = n_kept + 1;
        } else {
            proof {
                assert(kept_of(seg_views(segs@.take(i as int + 1))) == prefix);
            }
        }
        i = i + 1;
    }
    proof {
        assert(segs@.take(segs@.len() as int) =~= segs@);
    }
    out
}

} // verus!
