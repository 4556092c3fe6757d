//! A route specification for a method and a path pattern of literal
//! segments and labels.

use crate::request_spec::Match;
use crate::request_spec::RequestSpec;
use vstd::prelude::*;
use vstd::string::StringSliceAdditionalSpecFns;

verus! {

/// One segment of a path pattern.
#[derive(Clone, Debug)]
pub enum PathSegment {
    /// Matches a path segment with exactly this text.
    Literal(String),
    /// Matches any path segment that is not empty.
    Label,
}

/// What a [`PathSpec`] reads of a request: its method and its path.
#[derive(Clone, Debug)]
pub struct RequestLine {
    /// The request method, such as `GET`.
    pub method: String,
    /// The path of the request target, such as `/users/42`.
    pub path: String,
}

/// A route: a method, a path pattern and the rank that orders it among
/// overlapping routes.
///
/// The path of a request is read as bytes. It fits a pattern of `n > 0`
/// segments when it consists of `n` stretches, each a `/` followed by text
/// without `/` that the segment in its place accepts. The pattern without
/// segments fits the path `/` alone.
#[derive(Clone, Debug)]
pub struct PathSpec {
    /// The method that the route serves.
    pub method: String,
    /// The path pattern, segment by segment.
    pub segments: Vec<PathSegment>,
    /// The specificity score of the route.
    pub rank: usize,
}

/// The byte that separates path segments, `/`.
pub const SLASH: u8 = 0x2f;

/// The bytes of a text.
pub open spec fn bytes_of(text: Seq<char>) -> Seq<u8> {
    vstd::utf8::encode_utf8(text)
}

/// Length of the stretch at the start of `path` that holds no `/`.
pub open spec fn segment_len(path: Seq<u8>) -> nat
    decreases path.len(),
{
    if path.len() == 0 || path[0] == SLASH {
        0
    } else {
        1 + segment_len(path.skip(1))
    }
}

/// Whether a pattern segment accepts the text of a path segment.
pub open spec fn segment_accepts(segment: PathSegment, text: Seq<u8>) -> bool {
    match segment {
        PathSegment::Literal(literal) => text == bytes_of(literal@),
        PathSegment::Label => text.len() > 0,
    }
}

/// Whether `path` consists of one accepted stretch for each segment of
/// `pattern`, and nothing more.
pub open spec fn segments_accept(pattern: Seq<PathSegment>, path: Seq<u8>) -> bool
    decreases pattern.len(),
{
    if pattern.len() == 0 {
        path.len() == 0
    } else {
        &&& path.len() > 0
        &&& path[0] == SLASH
        &&& segment_accepts(pattern[0], path.skip(1).take(segment_len(path.skip(1)) as int))
        &&& segments_accept(pattern.skip(1), path.skip(1).skip(segment_len(path.skip(1)) as int))
    }
}

/// Whether a path fits a pattern.
pub open spec fn path_accepts(pattern: Seq<PathSegment>, path: Seq<u8>) -> bool {
    if pattern.len() == 0 {
        path == seq![SLASH]
    } else {
        segments_accept(pattern, path)
    }
}

/// A stretch without `/` that ends at the end of the path or before a `/` is
/// a whole segment.
proof fn lemma_segment_len(path: Seq<u8>, start: int, end: int)
    requires
        0 <= start <= end <= path.len(),
        forall|i: int| start <= i < end ==> path[i] != SLASH,
        end == path.len() || path[end] == SLASH,
    ensures
        segment_len(path.skip(start)) == end - start,
    decreases end - start,
{
    if start < end {
        assert(path.skip(start)[0] == path[start]);
        assert(path.skip(start).skip(1) =~= path.skip(start + 1));
        lemma_segment_len(path, start + 1, end);
    } else if end < path.len() {
        assert(path.skip(start)[0] == path[end]);
    }
}

/// Finds where the segment that starts at `start` ends.
fn segment_end(path: &[u8], start: usize) -> (end: usize)
    requires
        start <= path.len(),
    ensures
        start <= end <= path.len(),
        end - start == segment_len(path@.skip(start as int)),
{
    let mut end = start;
    while end < path.len() && path[end] != SLASH
        invariant
            start <= end <= path.len(),
            forall|i: int| start <= i < end ==> path[i] != SLASH,
        decreases path.len() - end,
    {
        end += 1;
    }
    proof {
        lemma_segment_len(path@, start as int, end as int);
    }
    end
}

/// Compares the bytes of `path` from `start` to `end` with `text`.
fn stretch_equals(path: &[u8], start: usize, end: usize, text: &[u8]) -> (same: bool)
    requires
        start <= end <= path.len(),
    ensures
        same == (path@.subrange(start as int, end as int) == text@),
{
    if end - start != text.len() {
        return false;
    }
    let mut i: usize = 0;
    while i < text.len()
        invariant
            start <= end <= path.len(),
            end - start == text.len(),
            i <= text.len(),
            forall|j: int| 0 <= j < i ==> path[start + j] == text[j],
        decreases text.len() - i,
    {
        if path[start + i] != text[i] {
            assert(path@.subrange(start as int, end as int)[i as int] != text@[i as int]);
            return false;
        }
        i += 1;
    }
    assert(path@.subrange(start as int, end as int) =~= text@);
    true
}

impl PathSpec {
    /// A route for `method` on the paths that fit `segments`, with the given
    /// rank.
    pub fn new(method: String, segments: Vec<PathSegment>, rank: usize) -> (spec: Self)
        ensures
            spec.method == method,
            spec.segments == segments,
            spec.rank == rank,
    {
        PathSpec { method, segments, rank }
    }

    /// Decides whether the path fits the pattern.
    pub fn accepts_path(&self, path: &[u8]) -> (fits: bool)
        ensures
            fits == path_accepts(self.segments@, path@),
    {
        let count = self.segments.len();
        if count == 0 {
            let fits = path.len() == 1 && path[0] == SLASH;
            assert(fits == (path@ =~= seq![SLASH]));
            return fits;
        }
        let ghost pattern = self.segments@;
        let mut pos: usize = 0;
        let mut k: usize = 0;
        assert(pattern.skip(0) =~= pattern);
        assert(path@.skip(0) =~= path@);
        while k < count
            invariant
                count == self.segments.len(),
                pattern == self.segments@,
                k <= count,
                pos <= path.len(),
                segments_accept(pattern, path@) == segments_accept(pattern.skip(k as int), path@.skip(pos as int)),
            decreases count - k,
        {
            let ghost here = path@.skip(pos as int);
            let ghost ahead = pattern.skip(k as int);
            assert(ahead.len() > 0 && ahead[0] == pattern[k as int]);
            if pos >= path.len() || path[pos] != SLASH {
                return false;
            }
            let start = pos + 1;
            let end = segment_end(path, start);
            let accepted = match &self.segments[k] {
                PathSegment::Literal(literal) => stretch_equals(path, start, end, literal.as_str().as_bytes()),
                PathSegment::Label => end > start,
            };
            proof {
                assert(here.skip(1) =~= path@.skip(start as int));
                assert(here.skip(1).take(end - start) =~= path@.subrange(start as int, end as int));
                assert(here.skip(1).skip(end - start) =~= path@.skip(end as int));
                assert(ahead.skip(1) =~= pattern.skip(k + 1));
                assert(accepted == segment_accepts(pattern[k as int], path@.subrange(start as int, end as int)));
            }
            if !accepted {
                return false;
            }
            pos = end;
            k += 1;
        }
        pos == path.len()
    }
}

impl RequestSpec for PathSpec {
    type Request = RequestLine;

    open spec fn rank_of(&self) -> usize {
        self.rank
    }

    open spec fn outcome(&self, request: &RequestLine) -> Match {
        if !path_accepts(self.segments@, bytes_of(request.path@)) {
            Match::No
        } else if self.method@ != request.method@ {
            Match::MethodNotAllowed
        } else {
            Match::Yes
        }
    }

    fn rank(&self) -> usize {
        self.rank
    }

    fn matches(&self, request: &RequestLine) -> Match {
        if !self.accepts_path(request.path.as_str().as_bytes()) {
            Match::No
        } else if self.method != request.method {
            Match::MethodNotAllowed
        } else {
            Match::Yes
        }
    }
}

} // verus!
