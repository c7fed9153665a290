//! Sanitization of untrusted relative file paths.
//!
//! Untrusted path strings — archive entry names, upload names, protocol
//! fields — can try to escape the directory they will be written under by
//! way of `..` segments or absolute anchors ("zip-slip"). [`SanitizedPath`]
//! is a typed wrapper around a path that has been normalized so that no
//! combination of its components can reference a location above the
//! caller's base directory. The only way to obtain one is
//! [`SanitizedPath::sanitize`], so every value of the type carries the
//! guarantee.

use vstd::prelude::*;

pub mod model;

use crate::model::{
    cleaned_segs_of, clean_segs, has_nul, is_parent_seg, is_skip_seg, joined_with_base,
    join_segs, lemma_clean_segs_wf, lemma_join_no_nul, lemma_sanitize_idempotent,
    lemma_split_segs_wf, lemma_strip_no_nul, sanitize_spec, split_path, strip_nul,
};

verus! {

/// Error returned by sanitization.
#[derive(Debug, Clone, Copy, PartialEq, Eq)]
pub enum SanitizeError {
    /// The input held a NUL byte and hardened NUL rejection was enabled.
    InvalidInput,
}

/// True when the path holds a NUL character.
pub fn any_nul_bytes(path: &str) -> (r: bool)
    ensures
        r == has_nul(path@),
{
    let n = path.unicode_len();
    let mut i: usize = 0;
    while i < n
        invariant
            n == path@.len(),
            0 <= i <= n,
            forall|j: int| 0 <= j < i ==> path@[j] != '\0',
        decreases n - i,
    {
        let c = path.get_char(i);
        if c == '\0' {
            return true;
        }
        i += 1;
    }
    false
}

/// The characters of the path with every NUL removed.
fn stripped_chars(path: &str) -> (r: Vec<char>)
    ensures
        r@ == strip_nul(path@),
{
    let n = path.unicode_len();
    let mut out: Vec<char> = Vec::new();
    let mut i: usize = 0;
    while i < n
        invariant
            n == path@.len(),
            0 <= i <= n,
            out@ == strip_nul(path@.take(i as int)),
        decreases n - i,
    {
        let c = path.get_char(i);
        proof {
            assert(path@.take(i + 1).drop_last() =~= path@.take(i as int));
            assert(path@.take(i + 1).last() == path@[i as int]);
        }
        if c != '\0' {
            out.push(c);
        }
        i += 1;
    }
    proof {
        assert(path@.take(n as int) =~= path@);
    }
    out
}

/// Split the characters of a path into its `/`-separated segments.
fn split_chars(chars: &Vec<char>) -> (r: Vec<Vec<char>>)
    ensures
        r.deep_view() == split_path(chars@),
{
    let n = chars.len();
    let mut segs: Vec<Vec<char>> = Vec::new();
    let mut cur: Vec<char> = Vec::new();
    let mut i: usize = 0;
    while i < n
        invariant
            n == chars@.len(),
            0 <= i <= n,
            split_path(chars@.take(i as int)) =~= segs.deep_view().push(cur@),
        decreases n - i,
    {
        let c = chars[i];
        proof {
            assert(chars@.take(i + 1).drop_last() =~= chars@.take(i as int));
            assert(chars@.take(i + 1).last() == chars@[i as int]);
        }
        if c == '/' {
            let ghost old_segs = segs.deep_view();
            let ghost cur_snap = cur;
            segs.push(cur);
            proof {
                assert(segs.deep_view() =~~= old_segs.push(cur_snap@));
                assert(split_path(chars@.take(i + 1)) =~= segs.deep_view().push(
                    Seq::<char>::empty(),
                ));
            }
            cur = Vec::new();
        } else {
            let ghost prev = split_path(chars@.take(i as int));
            cur.push(c);
            proof {
                assert(prev.len() == segs.deep_view().len() + 1);
                assert(prev.last() =~= cur@.drop_last());
                assert(split_path(chars@.take(i + 1)) =~= prev.update(
                    prev.len() - 1,
                    prev.last().push(c),
                ));
                assert(split_path(chars@.take(i + 1)) =~= segs.deep_view().push(cur@));
            }
        }
        i += 1;
    }
    proof {
        assert(chars@.take(n as int) =~= chars@);
    }
    let ghost old_segs = segs.deep_view();
    let ghost cur_snap = cur;
    segs.push(cur);
    proof {
        assert(segs.deep_view() =~~= old_segs.push(cur_snap@));
    }
    segs
}

/// True when the segment is a no-op: empty or the `.` marker.
fn seg_is_skip(seg: &Vec<char>) -> (r: bool)
    ensures
        r == is_skip_seg(seg@),
{
    if seg.len() == 0 {
        true
    } else if seg.len() == 1 {
        let r = seg[0] == '.';
        proof {
            if seg@[0] == '.' {
                assert(seg@ =~= seq!['.']);
            } else {
                assert(seg@ != seq!['.']) by {
                    assert(seq!['.'][0] == '.');
                }
            }
        }
        r
    } else {
        proof {
            assert(seg@.len() != seq!['.'].len());
        }
        false
    }
}

/// True when the segment is the parent-directory marker `..`.
fn seg_is_parent(seg: &Vec<char>) -> (r: bool)
    ensures
        r == is_parent_seg(seg@),
{
    if seg.len() == 2 {
        let r = seg[0] == '.' && seg[1] == '.';
        proof {
            if seg@[0] == '.' && seg@[1] == '.' {
                assert(seg@ =~= seq!['.', '.']);
            } else {
                assert(seg@ != seq!['.', '.']) by {
                    assert(seq!['.', '.'][0] == '.');
                    assert(seq!['.', '.'][1] == '.');
                }
            }
        }
        r
    } else {
        proof {
            assert(seg@.len() != seq!['.', '.'].len());
        }
        false
    }
}

/// Clean a segment sequence with the depth-tracking stack.
fn clean_stack(segs: Vec<Vec<char>>) -> (r: Vec<Vec<char>>)
    ensures
        r.deep_view() == clean_segs(segs.deep_view()),
{
    let n = segs.len();
    let mut stack: Vec<Vec<char>> = Vec::new();
    let mut i: usize = 0;
    while i < n
        invariant
            n == segs@.len(),
            0 <= i <= n,
            stack.deep_view() =~= clean_segs(segs.deep_view().take(i as int)),
        decreases n - i,
    {
        let seg = &segs[i];
        proof {
            assert(segs.deep_view().take(i + 1).drop_last() =~= segs.deep_view().take(
                i as int,
            ));
            assert(segs.deep_view().take(i + 1).last() == seg@);
        }
        if seg_is_skip(seg) {
            // no-op marker: depth unchanged
        } else if seg_is_parent(seg) {
            if stack.len() > 0 {
                let ghost old_stack = stack.deep_view();
                let _ = stack.pop();
                proof {
                    assert(stack.deep_view() =~~= old_stack.drop_last());
                }
            }
        } else {
            let ghost old_stack = stack.deep_view();
            let owned = seg.clone();
            proof {
                assert(owned@ =~= seg@);
            }
            stack.push(owned);
            proof {
                assert(stack.deep_view() =~~= old_stack.push(seg@));
            }
        }
        i += 1;
    }
    proof {
        assert(segs.deep_view().take(n as int) =~= segs.deep_view());
    }
    stack
}

/// Relies on String::push: appends the one character to the end of the
/// string.
#[verifier::external_body]
fn push_char(s: &mut String, c: char)
    ensures
        final(s)@ == old(s)@.push(c),
{
    s.push(c)
}

/// Join cleaned segments back into a path string, `/` between segments.
fn join_stack(segs: &Vec<Vec<char>>) -> (r: String)
    ensures
        r@ == join_segs(segs.deep_view()),
{
    let n = segs.len();
    let mut out = String::new();
    let mut i: usize = 0;
    while i < n
        invariant
            n == segs@.len(),
            0 <= i <= n,
            out@ == join_segs(segs.deep_view().take(i as int)),
        decreases n - i,
    {
        proof {
            assert(segs.deep_view().take(i + 1).drop_last() =~= segs.deep_view().take(
                i as int,
            ));
            assert(segs.deep_view().take(i + 1).last() == segs@[i as int]@);
        }
        if i > 0 {
            push_char(&mut out, '/');
        }
        let seg = &segs[i];
        let m = seg.len();
        let ghost sep_done = out@;
        let mut j: usize = 0;
        while j < m
            invariant
                m == seg@.len(),
                0 <= j <= m,
                out@ == sep_done + seg@.take(j as int),
            decreases m - j,
        {
            let c = seg[j];
            push_char(&mut out, c);
            proof {
                assert(seg@.take(j + 1) =~= seg@.take(j as int).push(c));
            }
            j += 1;
        }
        proof {
            assert(seg@.take(m as int) =~= seg@);
            if i == 0 {
                assert(out@ =~= join_segs(segs.deep_view().take(1)));
            } else {
                assert(out@ =~= join_segs(segs.deep_view().take(i as int)) + seq!['/']
                    + seg@);
            }
        }
        i += 1;
    }
    proof {
        assert(segs.deep_view().take(n as int) =~= segs.deep_view());
    }
    out
}

/// Join a cleaned relative path under a base directory.
fn join_base(base: &str, cleaned: String) -> (r: String)
    ensures
        r@ == joined_with_base(base@, cleaned@),
{
    if cleaned.as_str().is_empty() {
        let r = String::from_str(base);
        r
    } else if base.is_empty() {
        cleaned
    } else {
        let n = base.unicode_len();
        let last = base.get_char(n - 1);
        let mut out = String::from_str(base);
        if last != '/' {
            push_char(&mut out, '/');
        }
        out.append(cleaned.as_str());
        proof {
            if base@.last() == '/' {
                assert(out@ =~= base@ + cleaned@);
            } else {
                assert(out@ =~= base@ + seq!['/'] + cleaned@);
            }
        }
        out
    }
}

/// A path that has been normalized so that no arrangement of its
/// components can reference a location above the virtual root — or above
/// the base directory it was rooted under. The only constructors are
/// [`SanitizedPath::sanitize`] and [`SanitizedPath::try_from`], so every
/// value of this type satisfies [`SanitizedPath::wf`].
pub struct SanitizedPath {
    path: String,
    base: Ghost<Seq<char>>,
    rel: Ghost<Seq<char>>,
}

impl View for SanitizedPath {
    type V = Seq<char>;

    closed spec fn view(&self) -> Seq<char> {
        self.path@
    }
}

impl SanitizedPath {
    /// The base directory the path was rooted under; empty when none was
    /// given.
    pub closed spec fn base_part(&self) -> Seq<char> {
        self.base@
    }

    /// The cleaned relative part of the path, below the base.
    pub closed spec fn rel_part(&self) -> Seq<char> {
        self.rel@
    }

    /// The invariant every value of this type carries: the held path is
    /// the base joined with a cleaned relative part that is NUL-free and a
    /// fixed point of sanitization — re-sanitizing it would change
    /// nothing, so it holds no root anchor and no escaping `..`.
    pub open spec fn wf(&self) -> bool {
        &&& self.rel_part() == sanitize_spec(self.rel_part())
        &&& !has_nul(self.rel_part())
        &&& self@ == joined_with_base(self.base_part(), self.rel_part())
    }

    /// Sanitize an untrusted path: strip NUL characters, drop root anchors
    /// and `.` markers, resolve each `..` against the depth already
    /// descended and discard the ones that would ascend above the virtual
    /// root, then root the result under `base_path` when one is given.
    ///
    /// With `reject_nul_bytes` set (hardened mode), an input holding a NUL
    /// character is rejected with [`SanitizeError::InvalidInput`] instead;
    /// that is the only error.
    pub fn sanitize(path: &str, base_path: Option<&str>, reject_nul_bytes: bool) -> (r:
        Result<SanitizedPath, SanitizeError>)
        ensures
            match r {
                Ok(sp) => {
                    &&& !(reject_nul_bytes && has_nul(path@))
                    &&& sp.rel_part() == sanitize_spec(path@)
                    &&& sp.base_part() == match base_path {
                        Some(b) => b@,
                        None => Seq::<char>::empty(),
                    }
                    &&& sp@ == joined_with_base(sp.base_part(), sanitize_spec(path@))
                    &&& sp.wf()
                },
                Err(e) => {
                    &&& reject_nul_bytes && has_nul(path@)
                    &&& e == SanitizeError::InvalidInput
                },
            },
    {
        if reject_nul_bytes && any_nul_bytes(path) {
            return Err(SanitizeError::InvalidInput);
        }
        let chars = stripped_chars(path);
        let segs = split_chars(&chars);
        let stack = clean_stack(segs);
        let cleaned = join_stack(&stack);
        proof {
            assert(cleaned@ == sanitize_spec(path@));
            lemma_sanitize_idempotent(path@);
            lemma_strip_no_nul(path@);
            lemma_split_segs_wf(strip_nul(path@));
            lemma_clean_segs_wf(split_path(strip_nul(path@)));
            lemma_join_no_nul(cleaned_segs_of(path@));
        }
        let ghost rel = sanitize_spec(path@);
        match base_path {
            Some(base) => {
                let joined = join_base(base, cleaned);
                Ok(SanitizedPath { path: joined, base: Ghost(base@), rel: Ghost(rel) })
            },
            None => {
                proof {
                    assert(joined_with_base(Seq::<char>::empty(), rel) == rel);
                }
                Ok(
                    SanitizedPath {
                        path: cleaned,
                        base: Ghost(Seq::<char>::empty()),
                        rel: Ghost(rel),
                    },
                )
            },
        }
    }

    /// Consume the wrapper and hand back the underlying path, discarding
    /// the typed guarantee.
    pub fn into_inner(self) -> (r: String)
        ensures
            r@ == self@,
    {
        self.path
    }

    /// Borrow the underlying path.
    pub fn as_str(&self) -> (r: &str)
        ensures
            r@ == self@,
    {
        self.path.as_str()
    }

    /// Convenience form of [`SanitizedPath::sanitize`] with no base path
    /// and relaxed NUL handling; it cannot fail.
    pub fn try_from(path: &str) -> (r: Result<SanitizedPath, SanitizeError>)
        ensures
            r is Ok,
            match r {
                Ok(sp) => {
                    &&& sp.rel_part() == sanitize_spec(path@)
                    &&& sp.base_part() == Seq::<char>::empty()
                    &&& sp@ == sanitize_spec(path@)
                    &&& sp.wf()
                },
                Err(_) => false,
            },
    {
        let r = SanitizedPath::sanitize(path, None, false);
        proof {
            assert(joined_with_base(Seq::<char>::empty(), sanitize_spec(path@))
                == sanitize_spec(path@));
        }
        r
    }
}

} // verus!

