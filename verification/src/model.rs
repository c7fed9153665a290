//! Mathematical model of path sanitization.
//!
//! A path is modeled as its sequence of characters, with `/` separating
//! segments. Sanitization strips NUL characters, splits the path into
//! segments, cleans the segment sequence with a depth-tracking stack, and
//! joins the surviving segments back together. A leading `/` (the root
//! anchor) yields an empty first segment, which is discarded as a no-op, so
//! absolute inputs lose their absolute meaning. A `..` segment removes the
//! most recent named segment when one is available and is silently dropped
//! when it would ascend above the virtual root.

use vstd::prelude::*;

verus! {

/// True when the path holds a NUL character anywhere.
pub open spec fn has_nul(s: Seq<char>) -> bool {
    exists|i: int| 0 <= i < s.len() && s[i] == '\0'
}

/// The path with every NUL character removed. This is the relaxed-mode
/// policy for embedded NUL bytes: they are stripped before any other
/// processing, so a segment made only of NULs collapses to an empty
/// segment and disappears.
pub open spec fn strip_nul(s: Seq<char>) -> Seq<char>
    decreases s.len(),
{
    if s.len() == 0 {
        Seq::empty()
    } else if s.last() == '\0' {
        strip_nul(s.drop_last())
    } else {
        strip_nul(s.drop_last()).push(s.last())
    }
}

/// Split a path on `/`. The result always holds at least one segment;
/// repeated separators and a leading or trailing separator produce empty
/// segments.
pub open spec fn split_path(s: Seq<char>) -> Seq<Seq<char>>
    decreases s.len(),
{
    if s.len() == 0 {
        seq![Seq::<char>::empty()]
    } else if s.last() == '/' {
        split_path(s.drop_last()).push(Seq::<char>::empty())
    } else {
        let prev = split_path(s.drop_last());
        prev.update(prev.len() - 1, prev.last().push(s.last()))
    }
}

/// A segment that contributes nothing: an empty segment (from the root
/// anchor or a repeated separator) or the current-directory marker `.`.
pub open spec fn is_skip_seg(seg: Seq<char>) -> bool {
    seg.len() == 0 || seg == seq!['.']
}

/// The parent-directory marker `..`.
pub open spec fn is_parent_seg(seg: Seq<char>) -> bool {
    seg == seq!['.', '.']
}

/// A named segment: anything that is neither a no-op nor a parent marker.
pub open spec fn is_normal_seg(seg: Seq<char>) -> bool {
    !is_skip_seg(seg) && !is_parent_seg(seg)
}

/// Clean a segment sequence with a stack. The stack length is the virtual
/// depth: a named segment descends one level, a parent marker ascends one
/// level when the depth is positive and is dropped when the depth is zero,
/// and a no-op segment leaves the stack unchanged. The depth can therefore
/// never go negative.
pub open spec fn clean_segs(segs: Seq<Seq<char>>) -> Seq<Seq<char>>
    decreases segs.len(),
{
    if segs.len() == 0 {
        Seq::empty()
    } else {
        let prev = clean_segs(segs.drop_last());
        let last = segs.last();
        if is_skip_seg(last) {
            prev
        } else if is_parent_seg(last) {
            if prev.len() > 0 {
                prev.drop_last()
            } else {
                prev
            }
        } else {
            prev.push(last)
        }
    }
}

/// Join segments back into a path with `/` between them.
pub open spec fn join_segs(segs: Seq<Seq<char>>) -> Seq<char>
    decreases segs.len(),
{
    if segs.len() == 0 {
        Seq::empty()
    } else if segs.len() == 1 {
        segs[0]
    } else {
        join_segs(segs.drop_last()) + seq!['/'] + segs.last()
    }
}

/// The cleaned segments of a raw path.
pub open spec fn cleaned_segs_of(s: Seq<char>) -> Seq<Seq<char>> {
    clean_segs(split_path(strip_nul(s)))
}

/// The sanitized form of a raw path: strip NULs, split, clean, join.
pub open spec fn sanitize_spec(s: Seq<char>) -> Seq<char> {
    join_segs(cleaned_segs_of(s))
}

/// Joining a cleaned path under a base directory. An empty cleaned path
/// leaves the base unchanged; an empty base leaves the cleaned path bare;
/// otherwise a single separator stands between them, none added when the
/// base already ends with one.
pub open spec fn joined_with_base(base: Seq<char>, cleaned: Seq<char>) -> Seq<char> {
    if cleaned.len() == 0 {
        base
    } else if base.len() == 0 {
        cleaned
    } else if base.last() == '/' {
        base + cleaned
    } else {
        base + seq!['/'] + cleaned
    }
}

/// Splitting always yields at least one segment.
pub proof fn lemma_split_path_len(s: Seq<char>)
    ensures
        split_path(s).len() >= 1,
    decreases s.len(),
{
    if s.len() > 0 {
        lemma_split_path_len(s.drop_last());
    }
}

/// Every segment that survives cleaning is a named segment: no `..`, no
/// `.`, no empty segment remains.
pub proof fn lemma_clean_all_normal(segs: Seq<Seq<char>>)
    ensures
        forall|i: int|
            0 <= i < clean_segs(segs).len() ==> is_normal_seg(#[trigger] clean_segs(segs)[i]),
    decreases segs.len(),
{
    if segs.len() > 0 {
        lemma_clean_all_normal(segs.drop_last());
        let prev = clean_segs(segs.drop_last());
        let last = segs.last();
        assert forall|i: int| 0 <= i < clean_segs(segs).len() implies is_normal_seg(
            clean_segs(segs)[i],
        ) by {
            if is_skip_seg(last) {
                assert(clean_segs(segs)[i] == prev[i]);
            } else if is_parent_seg(last) {
                assert(clean_segs(segs)[i] == prev[i]);
            } else {
                if i < prev.len() {
                    assert(clean_segs(segs)[i] == prev[i]);
                } else {
                    assert(clean_segs(segs)[i] == last);
                }
            }
        }
    }
}

/// Cleaning distributes over a suffix of named segments: none of them is
/// skipped or popped, and none pops into what came before.
pub proof fn lemma_clean_append_normal(a: Seq<Seq<char>>, b: Seq<Seq<char>>)
    requires
        forall|i: int| 0 <= i < b.len() ==> is_normal_seg(#[trigger] b[i]),
    ensures
        clean_segs(a + b) == clean_segs(a) + b,
    decreases b.len(),
{
    if b.len() == 0 {
        assert(a + b =~= a);
        assert(clean_segs(a) + b =~= clean_segs(a));
    } else {
        lemma_clean_append_normal(a, b.drop_last());
        assert((a + b).drop_last() =~= a + b.drop_last());
        assert((a + b).last() == b.last());
        assert(is_normal_seg(b.last()));
        assert(clean_segs(a + b) =~= clean_segs(a) + b);
    }
}

/// No-escape law: however many parent markers the raw path held, its
/// cleaned segments are all named segments; splitting the emitted string
/// gives back exactly those segments (an empty string when none survive);
/// and resolving them under any base yields exactly the resolved base
/// extended by those segments — never a location above the base.
pub proof fn lemma_no_escape(base_segs: Seq<Seq<char>>, s: Seq<char>)
    ensures
        forall|i: int|
            0 <= i < cleaned_segs_of(s).len() ==> is_normal_seg(
                #[trigger] cleaned_segs_of(s)[i],
            ),
        cleaned_segs_of(s).len() > 0 ==> split_path(sanitize_spec(s)) == cleaned_segs_of(
            s,
        ),
        cleaned_segs_of(s).len() == 0 ==> sanitize_spec(s) == Seq::<char>::empty(),
        clean_segs(base_segs + cleaned_segs_of(s)) == clean_segs(base_segs)
            + cleaned_segs_of(s),
{
    lemma_clean_all_normal(split_path(strip_nul(s)));
    lemma_clean_append_normal(base_segs, cleaned_segs_of(s));
    lemma_strip_no_nul(s);
    lemma_split_segs_wf(strip_nul(s));
    lemma_clean_segs_wf(split_path(strip_nul(s)));
    if cleaned_segs_of(s).len() > 0 {
        lemma_split_join(cleaned_segs_of(s));
    }
}

/// Stripping leaves no NUL behind.
pub proof fn lemma_strip_no_nul(s: Seq<char>)
    ensures
        !has_nul(strip_nul(s)),
    decreases s.len(),
{
    if s.len() > 0 {
        lemma_strip_no_nul(s.drop_last());
        if s.last() != '\0' {
            let t = strip_nul(s.drop_last());
            assert forall|i: int| 0 <= i < t.push(s.last()).len() implies t.push(
                s.last(),
            )[i] != '\0' by {
                if i < t.len() {
                    assert(!has_nul(t));
                }
            }
        }
    }
}

/// A NUL-free path is unchanged by stripping.
pub proof fn lemma_strip_id(s: Seq<char>)
    requires
        !has_nul(s),
    ensures
        strip_nul(s) == s,
    decreases s.len(),
{
    if s.len() == 0 {
        assert(strip_nul(s) =~= s);
    } else {
        assert(!has_nul(s.drop_last())) by {
            assert(forall|i: int| 0 <= i < s.len() ==> s[i] != '\0');
        }
        lemma_strip_id(s.drop_last());
        assert(s[s.len() - 1] != '\0');
        assert(strip_nul(s) =~= s);
    }
}

/// A segment as produced by splitting a NUL-free path: it holds no
/// separator and no NUL.
pub open spec fn seg_wf(seg: Seq<char>) -> bool {
    forall|j: int| 0 <= j < seg.len() ==> seg[j] != '/' && seg[j] != '\0'
}

/// Splitting a NUL-free path yields only well-formed segments.
pub proof fn lemma_split_segs_wf(s: Seq<char>)
    requires
        !has_nul(s),
    ensures
        forall|i: int| 0 <= i < split_path(s).len() ==> seg_wf(#[trigger] split_path(s)[i]),
    decreases s.len(),
{
    if s.len() > 0 {
        assert(!has_nul(s.drop_last())) by {
            assert(forall|i: int| 0 <= i < s.len() ==> s[i] != '\0');
        }
        lemma_split_segs_wf(s.drop_last());
        let prev = split_path(s.drop_last());
        assert forall|i: int| 0 <= i < split_path(s).len() implies seg_wf(
            split_path(s)[i],
        ) by {
            if s.last() == '/' {
                if i < prev.len() {
                    assert(split_path(s)[i] == prev[i]);
                } else {
                    assert(split_path(s)[i] == Seq::<char>::empty());
                }
            } else {
                lemma_split_path_len(s.drop_last());
                assert(s.last() != '\0');
                if i < prev.len() - 1 {
                    assert(split_path(s)[i] == prev[i]);
                } else {
                    assert(split_path(s)[i] == prev.last().push(s.last()));
                    assert(seg_wf(prev.last()));
                    assert forall|j: int|
                        0 <= j < prev.last().push(s.last()).len() implies prev.last().push(
                        s.last(),
                    )[j] != '/' && prev.last().push(s.last())[j] != '\0' by {
                        if j < prev.last().len() {
                            assert(prev.last().push(s.last())[j] == prev.last()[j]);
                        }
                    }
                }
            }
        }
    }
}

/// Cleaning keeps only segments that were already present, so segment
/// well-formedness survives it.
pub proof fn lemma_clean_segs_wf(segs: Seq<Seq<char>>)
    requires
        forall|i: int| 0 <= i < segs.len() ==> seg_wf(#[trigger] segs[i]),
    ensures
        forall|i: int| 0 <= i < clean_segs(segs).len() ==> seg_wf(#[trigger] clean_segs(segs)[i]),
    decreases segs.len(),
{
    if segs.len() > 0 {
        assert(forall|i: int| 0 <= i < segs.drop_last().len() ==> seg_wf(
            #[trigger] segs.drop_last()[i],
        ));
        lemma_clean_segs_wf(segs.drop_last());
        let prev = clean_segs(segs.drop_last());
        let last = segs.last();
        assert(seg_wf(last));
        assert forall|i: int| 0 <= i < clean_segs(segs).len() implies seg_wf(
            clean_segs(segs)[i],
        ) by {
            if is_skip_seg(last) || is_parent_seg(last) {
                assert(clean_segs(segs)[i] == prev[i]);
            } else {
                if i < prev.len() {
                    assert(clean_segs(segs)[i] == prev[i]);
                } else {
                    assert(clean_segs(segs)[i] == last);
                }
            }
        }
    }
}

/// Joining well-formed segments yields a NUL-free path.
pub proof fn lemma_join_no_nul(segs: Seq<Seq<char>>)
    requires
        forall|i: int| 0 <= i < segs.len() ==> seg_wf(#[trigger] segs[i]),
    ensures
        !has_nul(join_segs(segs)),
    decreases segs.len(),
{
    if segs.len() == 0 {
    } else if segs.len() == 1 {
        assert(seg_wf(segs[0]));
    } else {
        assert(forall|i: int| 0 <= i < segs.drop_last().len() ==> seg_wf(
            #[trigger] segs.drop_last()[i],
        ));
        lemma_join_no_nul(segs.drop_last());
        let a = join_segs(segs.drop_last());
        let whole = a + seq!['/'] + segs.last();
        assert(seg_wf(segs.last()));
        assert forall|i: int| 0 <= i < whole.len() implies whole[i] != '\0' by {
            if i < a.len() {
                assert(whole[i] == a[i]);
                assert(!has_nul(a));
            } else if i == a.len() {
                assert(whole[i] == '/');
            } else {
                assert(whole[i] == segs.last()[i - a.len() - 1]);
            }
        }
    }
}

/// Splitting a separator-free path yields that path as its one segment.
pub proof fn lemma_split_no_sep(s: Seq<char>)
    requires
        forall|j: int| 0 <= j < s.len() ==> s[j] != '/',
    ensures
        split_path(s) == seq![s],
    decreases s.len(),
{
    if s.len() == 0 {
        assert(split_path(s) =~~= seq![s]);
    } else {
        assert(forall|j: int| 0 <= j < s.drop_last().len() ==> s.drop_last()[j] != '/');
        lemma_split_no_sep(s.drop_last());
        assert(s.last() != '/');
        assert(seq![s.drop_last()].update(0, s.drop_last().push(s.last())) =~~= seq![
            s.drop_last().push(s.last()),
        ]);
        assert(s.drop_last().push(s.last()) =~= s);
        assert(split_path(s) =~~= seq![s]);
    }
}

/// Appending `/` and a separator-free segment appends one segment to the
/// split.
pub proof fn lemma_split_append_seg(t: Seq<char>, u: Seq<char>)
    requires
        forall|j: int| 0 <= j < u.len() ==> u[j] != '/',
    ensures
        split_path(t + seq!['/'] + u) == split_path(t).push(u),
    decreases u.len(),
{
    if u.len() == 0 {
        let s = t + seq!['/'] + u;
        assert(s =~= t.push('/'));
        assert(s.drop_last() =~= t);
        assert(s.last() == '/');
        assert(split_path(s) =~~= split_path(t).push(u));
    } else {
        assert(forall|j: int| 0 <= j < u.drop_last().len() ==> u.drop_last()[j] != '/');
        lemma_split_append_seg(t, u.drop_last());
        let s = t + seq!['/'] + u;
        assert(s.drop_last() =~= t + seq!['/'] + u.drop_last());
        assert(s.last() == u.last());
        assert(u.last() != '/');
        let prev = split_path(s.drop_last());
        assert(prev == split_path(t).push(u.drop_last()));
        lemma_split_path_len(t);
        assert(prev.last() == u.drop_last());
        assert(prev.update(prev.len() - 1, prev.last().push(u.last())) =~~= split_path(
            t,
        ).push(u.drop_last().push(u.last())));
        assert(u.drop_last().push(u.last()) =~= u);
        assert(split_path(s) =~~= split_path(t).push(u));
    }
}

/// Splitting undoes joining, for at least one segment with no separator
/// inside any of them.
pub proof fn lemma_split_join(segs: Seq<Seq<char>>)
    requires
        segs.len() >= 1,
        forall|i: int| 0 <= i < segs.len() ==> seg_wf(#[trigger] segs[i]),
    ensures
        split_path(join_segs(segs)) == segs,
    decreases segs.len(),
{
    if segs.len() == 1 {
        assert(seg_wf(segs[0]));
        lemma_split_no_sep(segs[0]);
        assert(seq![segs[0]] =~~= segs);
    } else {
        assert(forall|i: int| 0 <= i < segs.drop_last().len() ==> seg_wf(
            #[trigger] segs.drop_last()[i],
        ));
        lemma_split_join(segs.drop_last());
        assert(seg_wf(segs.last()));
        lemma_split_append_seg(join_segs(segs.drop_last()), segs.last());
        assert(split_path(join_segs(segs)) =~~= segs.drop_last().push(segs.last()));
        assert(segs.drop_last().push(segs.last()) =~~= segs);
    }
}

/// Idempotence law: sanitizing an already-sanitized path changes nothing.
pub proof fn lemma_sanitize_idempotent(s: Seq<char>)
    ensures
        sanitize_spec(sanitize_spec(s)) == sanitize_spec(s),
{
    let t = strip_nul(s);
    lemma_strip_no_nul(s);
    lemma_split_segs_wf(t);
    lemma_clean_segs_wf(split_path(t));
    lemma_clean_all_normal(split_path(t));
    let c = cleaned_segs_of(s);
    let p = sanitize_spec(s);
    if c.len() == 0 {
        assert(p =~= Seq::<char>::empty());
        assert(strip_nul(p) =~= Seq::<char>::empty());
        assert(split_path(p) =~~= seq![Seq::<char>::empty()]);
        assert(is_skip_seg(Seq::<char>::empty()));
        let one = seq![Seq::<char>::empty()];
        assert(one.drop_last().len() == 0);
        assert(clean_segs(one.drop_last()) =~~= Seq::<Seq<char>>::empty());
        assert(one.last() =~= Seq::<char>::empty());
        assert(clean_segs(one) =~~= Seq::<Seq<char>>::empty());
        assert(sanitize_spec(p) =~= Seq::<char>::empty());
    } else {
        lemma_join_no_nul(c);
        lemma_strip_id(p);
        lemma_split_join(c);
        lemma_clean_append_normal(Seq::<Seq<char>>::empty(), c);
        assert(Seq::<Seq<char>>::empty() + c =~~= c);
        assert(clean_segs(Seq::<Seq<char>>::empty()) + c =~~= c);
        assert(cleaned_segs_of(p) == c);
    }
}

/// Stripping commutes with prepending a non-NUL character.
pub proof fn lemma_strip_prepend(c: char, s: Seq<char>)
    requires
        c != '\0',
    ensures
        strip_nul(seq![c] + s) == seq![c] + strip_nul(s),
    decreases s.len(),
{
    if s.len() == 0 {
        assert(seq![c] + s =~= seq![c]);
        assert(seq![c].drop_last() =~= Seq::<char>::empty());
        assert(strip_nul(seq![c].drop_last()) =~= Seq::<char>::empty());
        assert(strip_nul(seq![c]) =~= seq![c] + strip_nul(s));
    } else {
        lemma_strip_prepend(c, s.drop_last());
        let w = seq![c] + s;
        assert(w.drop_last() =~= seq![c] + s.drop_last());
        assert(w.last() == s.last());
        if s.last() == '\0' {
            assert(strip_nul(w) =~= seq![c] + strip_nul(s));
        } else {
            assert(strip_nul(w) =~= seq![c] + strip_nul(s));
        }
    }
}

/// A leading separator contributes exactly one leading empty segment.
pub proof fn lemma_split_prepend_sep(s: Seq<char>)
    ensures
        split_path(seq!['/'] + s) == seq![Seq::<char>::empty()] + split_path(s),
    decreases s.len(),
{
    if s.len() == 0 {
        let w = seq!['/'] + s;
        assert(w =~= seq!['/']);
        assert(w.drop_last() =~= Seq::<char>::empty());
        assert(split_path(w.drop_last()) =~~= seq![Seq::<char>::empty()]);
        assert(w.last() == '/');
        assert(split_path(w) =~~= seq![Seq::<char>::empty()] + split_path(s));
    } else {
        lemma_split_prepend_sep(s.drop_last());
        let w = seq!['/'] + s;
        assert(w.drop_last() =~= seq!['/'] + s.drop_last());
        assert(w.last() == s.last());
        let prev_w = split_path(w.drop_last());
        let prev_s = split_path(s.drop_last());
        assert(prev_w == seq![Seq::<char>::empty()] + prev_s);
        lemma_split_path_len(s.drop_last());
        if s.last() == '/' {
            assert(split_path(w) =~~= seq![Seq::<char>::empty()] + split_path(s));
        } else {
            assert(prev_w.last() == prev_s.last());
            assert(prev_w.update(
                prev_w.len() - 1,
                prev_w.last().push(s.last()),
            ) =~~= seq![Seq::<char>::empty()] + prev_s.update(
                prev_s.len() - 1,
                prev_s.last().push(s.last()),
            ));
            assert(split_path(w) =~~= seq![Seq::<char>::empty()] + split_path(s));
        }
    }
}

/// A leading no-op segment does not change the cleaned result.
pub proof fn lemma_clean_prepend_skip(e: Seq<char>, segs: Seq<Seq<char>>)
    requires
        is_skip_seg(e),
    ensures
        clean_segs(seq![e] + segs) == clean_segs(segs),
    decreases segs.len(),
{
    if segs.len() == 0 {
        let w = seq![e] + segs;
        assert(w =~~= seq![e]);
        assert(w.drop_last() =~~= Seq::<Seq<char>>::empty());
        assert(clean_segs(w.drop_last()) =~~= Seq::<Seq<char>>::empty());
        assert(w.last() == e);
        assert(clean_segs(w) =~~= clean_segs(segs));
    } else {
        lemma_clean_prepend_skip(e, segs.drop_last());
        let w = seq![e] + segs;
        assert(w.drop_last() =~~= seq![e] + segs.drop_last());
        assert(w.last() == segs.last());
        assert(clean_segs(w) =~~= clean_segs(segs));
    }
}

/// Root-stripping law: an absolute input sanitizes to the same path as the
/// same input with its leading root anchor removed.
pub proof fn lemma_root_stripped(s: Seq<char>)
    ensures
        sanitize_spec(seq!['/'] + s) == sanitize_spec(s),
{
    lemma_strip_prepend('/', s);
    lemma_split_prepend_sep(strip_nul(s));
    assert(is_skip_seg(Seq::<char>::empty()));
    lemma_clean_prepend_skip(Seq::<char>::empty(), split_path(strip_nul(s)));
    assert(cleaned_segs_of(seq!['/'] + s) == cleaned_segs_of(s));
}

} // verus!
