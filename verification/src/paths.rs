//! Slash-separated paths as text: segments, extensions, joining and the
//! lexical removal of `.` and `..` segments.
use crate::text::{chars_of, joined, str_eq, string_of};
use vstd::prelude::*;

verus! {

/// The slash-separated fields of a text (one empty field for no text).
pub open spec fn slash_fields(s: Seq<char>) -> Seq<Seq<char>>
    decreases s.len(),
{
    if s.len() == 0 {
        seq![Seq::empty()]
    } else {
        let f = slash_fields(s.drop_last());
        if s.last() == '/' {
            f.push(Seq::empty())
        } else {
            f.update(f.len() - 1, f.last().push(s.last()))
        }
    }
}

/// A field that counts as a segment: neither empty nor `.`.
pub open spec fn kept_segment(f: Seq<char>) -> bool {
    f.len() > 0 && f != seq!['.']
}

/// The segments of a path: its fields, without empty and `.` ones.
pub open spec fn segments(s: Seq<char>) -> Seq<Seq<char>> {
    slash_fields(s).filter(|f: Seq<char>| kept_segment(f))
}

pub open spec fn views(v: Seq<String>) -> Seq<Seq<char>> {
    v.map_values(|x: String| x@)
}

proof fn lemma_slash_fields_nonempty(s: Seq<char>)
    ensures
        slash_fields(s).len() >= 1,
    decreases s.len(),
{
    if s.len() > 0 {
        lemma_slash_fields_nonempty(s.drop_last());
    }
}

/// The segments of a path: the text between slashes, without empty and
/// `.` segments.
pub fn split_segments(s: &str) -> (r: Vec<String>)
    ensures
        views(r@) == segments(s@),
{
    let cs = chars_of(s);
    let mut out: Vec<String> = Vec::new();
    let mut current: Vec<char> = Vec::new();
    let mut k: usize = 0;
    proof {
        reveal(Seq::filter);
        assert(cs@.take(0) =~= Seq::<char>::empty());
        assert(slash_fields(cs@.take(0)).drop_last() =~= Seq::<Seq<char>>::empty());
        assert(views(out@) =~= Seq::<Seq<char>>::empty());
    }
    while k < cs.len()
        invariant
            k <= cs@.len(),
            cs@ == s@,
            views(out@) == slash_fields(cs@.take(k as int)).drop_last().filter(|f: Seq<char>| kept_segment(f)),
            current@ == slash_fields(cs@.take(k as int)).last(),
        decreases cs@.len() - k,
    {
        proof {
            reveal(Seq::filter);
            assert(cs@.take(k + 1).drop_last() =~= cs@.take(k as int));
            lemma_slash_fields_nonempty(cs@.take(k as int));
        }
        let ghost before = out@;
        let ghost fs = slash_fields(cs@.take(k as int));
        if cs[k] == '/' {
            push_segment(&mut out, &current);
            proof {
                assert(slash_fields(cs@.take(k + 1)).drop_last() =~= fs);
                assert(fs =~= fs.drop_last().push(fs.last()));
            }
            current = Vec::new();
        } else {
            current.push(cs[k]);
            proof {
                assert(slash_fields(cs@.take(k + 1)).drop_last() =~= fs.drop_last());
            }
        }
        k = k + 1;
    }
    proof {
        reveal(Seq::filter);
        assert(cs@.take(k as int) =~= cs@);
        lemma_slash_fields_nonempty(cs@);
        let fs = slash_fields(cs@);
        assert(fs =~= fs.drop_last().push(fs.last()));
    }
    push_segment(&mut out, &current);
    out
}

/// Add a segment unless it is empty or `.`.
fn push_segment(out: &mut Vec<String>, current: &Vec<char>)
    ensures
        views(final(out)@) == if kept_segment(current@) { views(old(out)@).push(current@) } else { views(old(out)@) },
{
    let dot = current.len() == 1 && current[0] == '.';
    proof {
        if current@ == seq!['.'] {
            assert(current@[0] == '.');
        }
        if dot {
            assert(current@ =~= seq!['.']);
        }
    }
    if current.len() > 0 && !dot {
        let segment = string_of(current.as_slice());
        out.push(segment);
        proof {
            assert(views(out@) =~= views(old(out)@).push(current@));
        }
    }
}

/// Whether a path starts at the root.
pub fn is_absolute(s: &str) -> (r: bool)
    ensures
        r == (s@.len() > 0 && s@[0] == '/'),
{
    crate::text::starts_with_char(s, '/')
}

/// `relative` inside `directory`, or `relative` itself when it is absolute.
pub fn join(directory: &str, relative: &str) -> (r: String)
    ensures
        r@ == (if is_absolute_spec(relative@) || directory@.len() == 0 {
            relative@
        } else if directory@.last() == '/' {
            directory@ + relative@
        } else {
            directory@ + seq!['/'] + relative@
        }),
{
    if is_absolute(relative) || directory.is_empty() {
        relative.to_owned()
    } else {
        let d = chars_of(directory);
        if d[d.len() - 1] == '/' {
            crate::text::concat(directory, relative)
        } else {
            joined(directory, '/', relative)
        }
    }
}

pub open spec fn is_absolute_spec(s: Seq<char>) -> bool {
    s.len() > 0 && s[0] == '/'
}

/// Segments joined by single slashes.
pub open spec fn slash_join(parts: Seq<Seq<char>>) -> Seq<char>
    decreases parts.len(),
{
    if parts.len() == 0 {
        Seq::empty()
    } else if parts.len() == 1 {
        parts[0]
    } else {
        slash_join(parts.drop_last()) + seq!['/'] + parts.last()
    }
}

/// Segments joined by single slashes.
pub fn join_segments(parts: &Vec<String>) -> (r: String)
    ensures
        r@ == slash_join(views(parts@)),
{
    let mut out = String::new();
    let mut k: usize = 0;
    while k < parts.len()
        invariant
            k <= parts@.len(),
            out@ == slash_join(views(parts@.take(k as int))),
        decreases parts@.len() - k,
    {
        proof {
            assert(views(parts@.take(k + 1)).drop_last() =~= views(parts@.take(k as int)));
        }
        out = if k == 0 {
            parts[k].clone()
        } else {
            joined(out.as_str(), '/', parts[k].as_str())
        };
        k = k + 1;
    }
    proof {
        assert(parts@.take(k as int) =~= parts@);
    }
    out
}

/// The position of the last `.` in a text, or -1.
pub open spec fn last_dot(f: Seq<char>) -> int
    decreases f.len(),
{
    if f.len() == 0 {
        -1
    } else if f.last() == '.' {
        f.len() - 1
    } else {
        last_dot(f.drop_last())
    }
}

/// The extension of a path: the text after the last `.` of its last
/// segment, where that dot is not the segment's first character.
pub open spec fn spec_extension(path: Seq<char>) -> Option<Seq<char>> {
    let segs = segments(path);
    if segs.len() == 0 || segs.last() == seq!['.', '.'] {
        None
    } else {
        let f = segs.last();
        let d = last_dot(f);
        if d <= 0 {
            None
        } else {
            Some(f.subrange(d + 1, f.len() as int))
        }
    }
}

proof fn lemma_last_dot(f: Seq<char>, k: int)
    requires
        0 <= k <= f.len(),
        forall|j: int| k <= j < f.len() ==> f[j] != '.',
    ensures
        last_dot(f) == last_dot(f.take(k)),
    decreases f.len() - k,
{
    if k < f.len() {
        assert(f.drop_last().take(k) =~= f.take(k));
        lemma_last_dot(f.drop_last(), k);
    } else {
        assert(f.take(k) =~= f);
    }
}

/// The extension of the last segment: the text after its last `.`, where
/// that dot is not its first character; none for `..`.
pub fn extension(path: &str) -> (r: Option<String>)
    ensures
        match r {
            Some(e) => spec_extension(path@) == Some(e@),
            None => spec_extension(path@) is None,
        },
{
    let parts = split_segments(path);
    proof {
        reveal_strlit("..");
        assert(".."@ =~= seq!['.', '.']);
    }
    if parts.len() == 0 {
        return None;
    }
    let file = &parts[parts.len() - 1];
    proof {
        assert(views(parts@).last() == file@);
    }
    if str_eq(file.as_str(), "..") {
        return None;
    }
    let cs = chars_of(file.as_str());
    let mut k: usize = cs.len();
    while k > 0
        invariant
            k <= cs@.len(),
            cs@ == file@,
            views(parts@) == segments(path@),
            parts@.len() > 0,
            views(parts@).last() == file@,
            file@ != seq!['.', '.'],
            forall|j: int| k <= j < cs@.len() ==> cs@[j] != '.',
        decreases k,
    {
        if cs[k - 1] == '.' {
            proof {
                lemma_last_dot(cs@, k as int);
                assert(cs@.take(k as int).last() == '.');
            }
            if k - 1 == 0 {
                return None;
            }
            let after = crate::text::chars_between(&cs, k, cs.len());
            let e = string_of(after.as_slice());
            return Some(e);
        }
        k = k - 1;
    }
    proof {
        lemma_last_dot(cs@, 0);
        assert(cs@.take(0) =~= Seq::<char>::empty());
    }
    None
}

/// Segments with each `..` cancelling the ordinary segment before it; a
/// `..` with nothing to cancel stays.
pub open spec fn cancelled(parts: Seq<Seq<char>>) -> Seq<Seq<char>>
    decreases parts.len(),
{
    if parts.len() == 0 {
        Seq::empty()
    } else {
        let c = cancelled(parts.drop_last());
        if parts.last() == seq!['.', '.'] {
            if c.len() > 0 && c.last() != seq!['.', '.'] {
                c.drop_last()
            } else {
                c.push(parts.last())
            }
        } else {
            c.push(parts.last())
        }
    }
}

/// The segments of a path after `..` cancelling.
fn cancel_segments(path: &str) -> (r: Vec<String>)
    ensures
        views(r@) == cancelled(segments(path@)),
{
    let parts = split_segments(path);
    let mut out: Vec<String> = Vec::new();
    let mut k: usize = 0;
    proof {
        reveal_strlit("..");
        assert(views(parts@.take(0)) =~= Seq::<Seq<char>>::empty());
        assert(views(out@) =~= Seq::<Seq<char>>::empty());
    }
    while k < parts.len()
        invariant
            k <= parts@.len(),
            views(parts@) == segments(path@),
            views(out@) == cancelled(views(parts@.take(k as int))),
            ".."@ == seq!['.', '.'],
        decreases parts@.len() - k,
    {
        proof {
            assert(views(parts@.take(k + 1)).drop_last() =~= views(parts@.take(k as int)));
            assert(views(parts@.take(k + 1)).last() == parts@[k as int]@);
        }
        let ghost before = views(out@);
        if str_eq(parts[k].as_str(), "..") {
            let cancels = out.len() > 0 && !str_eq(out[out.len() - 1].as_str(), "..");
            proof {
                if out@.len() > 0 {
                    assert(before.last() == out@[out@.len() - 1]@);
                }
            }
            if cancels {
                out.pop();
                proof {
                    assert(views(out@) =~= before.drop_last());
                }
            } else {
                out.push(parts[k].clone());
                proof {
                    assert(views(out@) =~= before.push(parts@[k as int]@));
                }
            }
        } else {
            out.push(parts[k].clone());
            proof {
                assert(views(out@) =~= before.push(parts@[k as int]@));
            }
        }
        k = k + 1;
    }
    proof {
        assert(parts@.take(k as int) =~= parts@);
    }
    out
}

/// A path with its `.` segments dropped and each `..` cancelling the
/// ordinary segment before it; a leading slash is kept.
pub fn lexical_path(path: &str) -> (r: String)
    ensures
        r@ == (if is_absolute_spec(path@) { seq!['/'] } else { Seq::empty() }) + slash_join(cancelled(segments(path@))),
{
    let out = cancel_segments(path);
    let body = join_segments(&out);
    if is_absolute(path) {
        proof {
            reveal_strlit("/");
        }
        crate::text::concat("/", body.as_str())
    } else {
        proof {
            assert(Seq::<char>::empty() + body@ =~= body@);
        }
        body
    }
}

/// The namespace of a module path: its segments without a leading slash,
/// with `..` cancelling the segment before it where there is one.
pub fn normalize_namespace(path: &str) -> (r: String)
    ensures
        r@ == slash_join(cancelled(segments(path@))),
{
    let out = cancel_segments(path);
    join_segments(&out)
}

} // verus!
