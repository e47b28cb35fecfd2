use vstd::prelude::*;

use crate::live_watch::settings::TextMode;
use crate::eframe_tools::ModalMachine;
use crate::live_watch::watcher_keep::WatcherUpdate;
use crate::windows::generic_windows::Loglet;

verus! {

/// Why a candidate path could not be turned into a cache key.
#[derive(Debug, PartialEq, Eq, Structural, Clone, Copy)]
pub enum PathError {
    /// The watch root could not be resolved on disk.
    RootUnresolvable,
    /// The candidate path could not be resolved on disk.
    CandidateUnresolvable,
    /// The watch root has no parent directory to rebase against.
    NoParent,
    /// The candidate does not live under the watch root's parent.
    NotUnderRoot,
}

/// The character sequences of a run of components.
pub open spec fn views_of(s: Seq<String>) -> Seq<Seq<char>> {
    Seq::new(s.len(), |i: int| s[i]@)
}

pub proof fn lemma_views_of_push(s: Seq<String>, x: String)
    ensures
        views_of(s.push(x)) == views_of(s).push(x@),
{
    assert(views_of(s.push(x)) =~= views_of(s).push(x@));
}

/// A filesystem path modeled as the sequence of its components.
///
/// Cache keys are paths relative to the watch root's parent; the watch
/// root and the paths the watcher reports are absolute. Both are carried
/// as component lists, so rebasing is plain sequence arithmetic.
#[derive(Debug)]
pub struct PathSteps {
    steps: Vec<String>,
}

impl View for PathSteps {
    type V = Seq<Seq<char>>;

    closed spec fn view(&self) -> Seq<Seq<char>> {
        views_of(self.steps@)
    }
}

/// `pre` is an initial run of `full`.
pub open spec fn is_prefix_of(pre: Seq<Seq<char>>, full: Seq<Seq<char>>) -> bool {
    pre.len() <= full.len() && pre == full.take(pre.len() as int)
}

/// What rebasing a candidate path against a root's parent yields:
/// the root must have a parent, and the candidate must continue that
/// parent; the key is the remainder of the candidate.
pub open spec fn normalize_spec(root: Seq<Seq<char>>, cand: Seq<Seq<char>>) -> Result<
    Seq<Seq<char>>,
    PathError,
> {
    if root.len() == 0 {
        Err(PathError::NoParent)
    } else {
        let parent = root.drop_last();
        if is_prefix_of(parent, cand) {
            Ok(cand.skip(parent.len() as int))
        } else {
            Err(PathError::NotUnderRoot)
        }
    }
}

impl PathSteps {
    pub fn new(steps: Vec<String>) -> (r: PathSteps)
        ensures
            r@ == views_of(steps@),
    {
        PathSteps { steps }
    }

    pub fn empty() -> (r: PathSteps)
        ensures
            r@ == Seq::<Seq<char>>::empty(),
    {
        let r = PathSteps { steps: Vec::new() };
        proof {
            assert(r@ =~= Seq::<Seq<char>>::empty());
        }
        r
    }

    pub fn steps_ref(&self) -> (r: &Vec<String>)
        ensures
            views_of(r@) == self@,
    {
        &self.steps
    }

    pub fn len(&self) -> (r: usize)
        ensures
            r == self@.len(),
    {
        self.steps.len()
    }

    pub fn push_step(&mut self, step: String)
        ensures
            final(self)@ == old(self)@.push(step@),
    {
        proof {
            lemma_views_of_push(self.steps@, step);
        }
        self.steps.push(step);
    }

    /// A fresh path with the same components.
    pub fn duplicate(&self) -> (r: PathSteps)
        ensures
            r@ == self@,
    {
        let mut steps: Vec<String> = Vec::new();
        let mut i: usize = 0;
        while i < self.steps.len()
            invariant
                i <= self.steps.len(),
                views_of(steps@) == self@.take(i as int),
            decreases self.steps.len() - i,
        {
            let step = self.steps[i].clone();
            proof {
                lemma_views_of_push(steps@, step);
                assert(self@.take(i as int).push(step@) =~= self@.take(i + 1 as int));
            }
            steps.push(step);
            i = i + 1;
        }
        proof {
            assert(self@.take(self.steps.len() as int) =~= self@);
        }
        PathSteps { steps }
    }

    /// Component-wise equality.
    pub fn same_path(&self, other: &PathSteps) -> (r: bool)
        ensures
            r == (self@ == other@),
    {
        if self.steps.len() != other.steps.len() {
            proof {
                assert(self@.len() != other@.len());
            }
            return false;
        }
        let mut i: usize = 0;
        while i < self.steps.len()
            invariant
                i <= self.steps.len(),
                self.steps.len() == other.steps.len(),
                self.steps.len() == self@.len(),
                other.steps.len() == other@.len(),
                forall|j: int| 0 <= j < i ==> self@[j] == other@[j],
            decreases self.steps.len() - i,
        {
            if !string_eq(&self.steps[i], &other.steps[i]) {
                proof {
                    assert(self@[i as int] != other@[i as int]);
                }
                return false;
            }
            i = i + 1;
        }
        proof {
            assert(self@ =~= other@);
        }
        true
    }

    /// Appends `suffix`'s components to a copy of `self`; the exec
    /// counterpart of sequence concatenation, used to undo a rebase.
    pub fn join(&self, suffix: &PathSteps) -> (r: PathSteps)
        ensures
            r@ == self@ + suffix@,
    {
        let mut r = self.duplicate();
        let mut i: usize = 0;
        while i < suffix.steps.len()
            invariant
                i <= suffix.steps.len(),
                suffix.steps.len() == suffix@.len(),
                r@ == self@ + suffix@.take(i as int),
            decreases suffix.steps.len() - i,
        {
            let step = suffix.steps[i].clone();
            proof {
                assert((self@ + suffix@.take(i as int)).push(step@) =~= self@ + suffix@.take(
                    i + 1 as int,
                ));
            }
            r.push_step(step);
            i = i + 1;
        }
        proof {
            assert(self@ + suffix@.take(suffix.steps.len() as int) =~= self@ + suffix@);
        }
        r
    }

    /// The path with the last component removed, if there is one.
    pub fn parent(&self) -> (r: Option<PathSteps>)
        ensures
            match r {
                Some(p) => self@.len() > 0 && p@ == self@.drop_last(),
                None => self@.len() == 0,
            },
    {
        if self.steps.len() == 0 {
            return None;
        }
        let mut steps: Vec<String> = Vec::new();
        let mut i: usize = 0;
        while i < self.steps.len() - 1
            invariant
                self.steps.len() > 0,
                self.steps.len() == self@.len(),
                i <= self.steps.len() - 1,
                views_of(steps@) == self@.take(i as int),
            decreases self.steps.len() - 1 - i,
        {
            let step = self.steps[i].clone();
            proof {
                lemma_views_of_push(steps@, step);
                assert(self@.take(i as int).push(step@) =~= self@.take(i + 1 as int));
            }
            steps.push(step);
            i = i + 1;
        }
        proof {
            assert(self@.take(self.steps.len() - 1) =~= self@.drop_last());
        }
        Some(PathSteps { steps })
    }
}

fn string_eq(a: &String, b: &String) -> (r: bool)
    ensures
        r == (a@ == b@),
{
    a.eq(b)
}

/// Rebases `strip` against the parent directory of `base`: the resulting
/// key is `strip` with `base`'s parent removed from the front. Fails with
/// `NoParent` when `base` has no parent, and with `NotUnderRoot` when
/// `strip` does not descend from that parent.
pub fn get_directory_specific_path(base: &PathSteps, strip: &PathSteps) -> (r: Result<
    PathSteps,
    PathError,
>)
    ensures
        match r {
            Ok(key) => normalize_spec(base@, strip@) == Ok::<Seq<Seq<char>>, PathError>(key@),
            Err(e) => normalize_spec(base@, strip@) == Err::<Seq<Seq<char>>, PathError>(e),
        },
{
    let n = base.steps.len();
    if n == 0 {
        return Err(PathError::NoParent);
    }
    let parent_len = n - 1;
    if strip.steps.len() < parent_len {
        proof {
            assert(!is_prefix_of(base@.drop_last(), strip@));
        }
        return Err(PathError::NotUnderRoot);
    }
    let mut i: usize = 0;
    while i < parent_len
        invariant
            n == base.steps.len(),
            n == base@.len(),
            1 <= n,
            parent_len == n - 1,
            parent_len <= strip@.len(),
            strip.steps.len() == strip@.len(),
            i <= parent_len,
            forall|j: int| 0 <= j < i ==> base@[j] == strip@[j],
        decreases parent_len - i,
    {
        if !string_eq(&base.steps[i], &strip.steps[i]) {
            proof {
                assert(base@.drop_last()[i as int] != strip@.take(parent_len as int)[i as int]);
                assert(!is_prefix_of(base@.drop_last(), strip@));
            }
            return Err(PathError::NotUnderRoot);
        }
        i = i + 1;
    }
    proof {
        assert(base@.drop_last() =~= strip@.take(parent_len as int));
    }
    let mut key: Vec<String> = Vec::new();
    let mut k: usize = parent_len;
    while k < strip.steps.len()
        invariant
            strip.steps.len() == strip@.len(),
            parent_len <= k <= strip@.len(),
            views_of(key@) == strip@.subrange(parent_len as int, k as int),
        decreases strip.steps.len() - k,
    {
        let step = strip.steps[k].clone();
        proof {
            lemma_views_of_push(key@, step);
            assert(strip@.subrange(parent_len as int, k as int).push(step@) =~= strip@.subrange(
                parent_len as int,
                k + 1 as int,
            ));
        }
        key.push(step);
        k = k + 1;
    }
    proof {
        assert(views_of(key@) =~= strip@.skip(parent_len as int));
    }
    Ok(PathSteps { steps: key })
}


/// Rebases a candidate whose resolution on disk may have failed: a root
/// that did not resolve is `RootUnresolvable`, a candidate that did not
/// resolve is `CandidateUnresolvable`; with both resolved, the rebase
/// itself decides.
pub fn normalize_resolved(base: &Option<PathSteps>, strip: &Option<PathSteps>) -> (r: Result<
    PathSteps,
    PathError,
>)
    ensures
        match (base, strip) {
            (None, _) => r matches Err(e) && e == PathError::RootUnresolvable,
            (Some(_), None) => r matches Err(e) && e == PathError::CandidateUnresolvable,
            (Some(b), Some(c)) => match r {
                Ok(key) => normalize_spec(b@, c@) == Ok::<Seq<Seq<char>>, PathError>(key@),
                Err(e) => normalize_spec(b@, c@) == Err::<Seq<Seq<char>>, PathError>(e),
            },
        },
{
    match (base, strip) {
        (None, _) => Err(PathError::RootUnresolvable),
        (Some(_), None) => Err(PathError::CandidateUnresolvable),
        (Some(b), Some(c)) => get_directory_specific_path(b, c),
    }
}

/// Rebasing is invertible: a key obtained from a candidate under a root,
/// re-joined onto the root's parent, gives back the candidate.
pub proof fn lemma_normalize_round_trip(root: Seq<Seq<char>>, cand: Seq<Seq<char>>)
    requires
        normalize_spec(root, cand) is Ok,
    ensures
        root.drop_last() + normalize_spec(root, cand)->Ok_0 == cand,
{
    let parent = root.drop_last();
    assert(parent + cand.skip(parent.len() as int) =~= cand);
}


/// Length of the leading line segment of `s`: up to and including the
/// first newline, or all of `s` when it holds none.
pub open spec fn first_seg_len(s: Seq<char>) -> int
    decreases s.len(),
{
    if s.len() == 0 {
        0
    } else if s[0] == '\n' {
        1
    } else {
        1 + first_seg_len(s.drop_first())
    }
}

pub proof fn lemma_first_seg_len_bounds(s: Seq<char>)
    ensures
        0 <= first_seg_len(s) <= s.len(),
        s.len() > 0 ==> 1 <= first_seg_len(s),
    decreases s.len(),
{
    if s.len() > 0 && s[0] != '\n' {
        lemma_first_seg_len_bounds(s.drop_first());
    }
}

/// The leading segment ends exactly at the first newline.
pub proof fn lemma_first_seg_len_at(s: Seq<char>, k: int)
    requires
        0 <= k < s.len(),
        s[k] == '\n',
        forall|t: int| 0 <= t < k ==> s[t] != '\n',
    ensures
        first_seg_len(s) == k + 1,
    decreases k,
{
    if k > 0 {
        assert(forall|t: int| 0 <= t < k - 1 ==> s.drop_first()[t] != '\n');
        lemma_first_seg_len_at(s.drop_first(), k - 1);
    }
}

/// A text without newlines is one whole segment.
pub proof fn lemma_first_seg_len_whole(s: Seq<char>)
    requires
        forall|t: int| 0 <= t < s.len() ==> s[t] != '\n',
    ensures
        first_seg_len(s) == s.len(),
    decreases s.len(),
{
    if s.len() > 0 {
        assert(forall|t: int| 0 <= t < s.drop_first().len() ==> s.drop_first()[t] != '\n');
        lemma_first_seg_len_whole(s.drop_first());
    }
}

/// The line segments of `s`: each segment carries its trailing newline,
/// except possibly the final one.
pub open spec fn all_segments(s: Seq<char>) -> Seq<Seq<char>>
    decreases s.len(),
{
    if s.len() == 0 {
        Seq::empty()
    } else {
        proof {
            lemma_first_seg_len_bounds(s);
        }
        seq![s.take(first_seg_len(s))] + all_segments(s.skip(first_seg_len(s)))
    }
}

/// Segmentation loses nothing: the segments of `s`, concatenated back
/// together, are `s`.
pub proof fn lemma_segments_lossless(s: Seq<char>)
    ensures
        all_segments(s).flatten() == s,
    decreases s.len(),
{
    if s.len() == 0 {
        assert(all_segments(s).flatten() =~= s);
    } else {
        lemma_first_seg_len_bounds(s);
        let f = first_seg_len(s);
        lemma_segments_lossless(s.skip(f));
        let cons = seq![s.take(f)] + all_segments(s.skip(f));
        assert(cons.drop_first() =~= all_segments(s.skip(f)));
        assert(cons[0] == s.take(f));
        assert(cons.flatten() == s.take(f) + all_segments(s.skip(f)).flatten());
        assert(s.take(f) + s.skip(f) =~= s);
    }
}

/// A segment with nothing but newlines in it.
pub open spec fn seg_blank(seg: Seq<char>) -> bool {
    forall|i: int| 0 <= i < seg.len() ==> seg[i] == '\n'
}

/// The segments of a run that are not blank, in order.
pub open spec fn nonblank_of(segs: Seq<Seq<char>>) -> Seq<Seq<char>>
    decreases segs.len(),
{
    if segs.len() == 0 {
        Seq::empty()
    } else {
        let rest = nonblank_of(segs.drop_last());
        if !seg_blank(segs.last()) {
            rest.push(segs.last())
        } else {
            rest
        }
    }
}

/// The segments of `s` that the blank-skipping view keeps: blank-only
/// segments are dropped, except that the final segment always stays.
pub open spec fn kept_segments(s: Seq<char>) -> Seq<Seq<char>> {
    let segs = all_segments(s);
    if segs.len() == 0 {
        segs
    } else {
        nonblank_of(segs.drop_last()) + seq![segs.last()]
    }
}

/// Collects a character buffer back into a string.
pub fn do_seperation(buffer: Vec<char>) -> (r: String)
    ensures
        r@ == buffer@,
{
    let mut s = String::new();
    let mut i: usize = 0;
    while i < buffer.len()
        invariant
            i <= buffer@.len(),
            s@ == buffer@.take(i as int),
        decreases buffer.len() - i,
    {
        crate::string_tools::push_char(&mut s, buffer[i]);
        proof {
            assert(buffer@.take(i as int).push(buffer@[i as int]) =~= buffer@.take(i + 1 as int));
        }
        i = i + 1;
    }
    proof {
        assert(buffer@.take(buffer@.len() as int) =~= buffer@);
    }
    s
}

/// Splits `chars` into its line segments.
fn segment_chars(chars: &Vec<char>) -> (r: Vec<String>)
    ensures
        views_of(r@) == all_segments(chars@),
{
    let n = chars.len();
    let mut segs: Vec<String> = Vec::new();
    let mut buffer = String::new();
    let ghost mut j: int = 0;
    let mut i: usize = 0;
    proof {
        assert(views_of(segs@) =~= Seq::<Seq<char>>::empty());
        assert(chars@.skip(0) =~= chars@);
        assert(views_of(segs@) + all_segments(chars@) =~= all_segments(chars@));
        assert(buffer@ =~= chars@.subrange(0, 0));
    }
    while i < n
        invariant
            n == chars@.len(),
            0 <= j <= i <= n,
            buffer@ == chars@.subrange(j, i as int),
            forall|t: int| j <= t < i ==> chars@[t] != '\n',
            all_segments(chars@) == views_of(segs@) + all_segments(chars@.skip(j)),
            i < n || j == i,
        decreases n - i,
    {
        let c = chars[i];
        crate::string_tools::push_char(&mut buffer, c);
        proof {
            assert(chars@.subrange(j, i as int).push(chars@[i as int]) =~= chars@.subrange(
                j,
                i + 1 as int,
            ));
        }
        if c == '\n' || i == n - 1 {
            proof {
                let rest = chars@.skip(j);
                if c == '\n' {
                    assert(rest[i - j] == '\n');
                    assert(forall|t: int| 0 <= t < i - j ==> rest[t] != '\n');
                    lemma_first_seg_len_at(rest, i - j);
                } else {
                    assert(forall|t: int| 0 <= t < rest.len() ==> rest[t] != '\n');
                    lemma_first_seg_len_whole(rest);
                }
                assert(first_seg_len(rest) == i + 1 - j);
                assert(rest.take(i + 1 - j) =~= buffer@);
                assert(rest.skip(i + 1 - j) =~= chars@.skip(i + 1));
                assert(all_segments(rest) == seq![buffer@] + all_segments(chars@.skip(i + 1)));
                lemma_views_of_push(segs@, buffer);
                assert(views_of(segs@) + (seq![buffer@] + all_segments(chars@.skip(i + 1))) =~= (
                views_of(segs@).push(buffer@) + all_segments(chars@.skip(i + 1))));
            }
            segs.push(buffer);
            buffer = String::new();
            proof {
                j = i + 1;
                assert(buffer@ =~= chars@.subrange(j, i + 1 as int));
            }
        }
        i = i + 1;
    }
    proof {
        if j == n {
            assert(chars@.skip(j).len() == 0);
            assert(all_segments(chars@.skip(j)) =~= Seq::<Seq<char>>::empty());
            assert(views_of(segs@) + Seq::<Seq<char>>::empty() =~= views_of(segs@));
        }
    }
    segs
}

fn seg_is_blank(s: &String) -> (r: bool)
    ensures
        r == seg_blank(s@),
{
    let chars = crate::string_tools::chars_vec(s.as_str());
    let mut i: usize = 0;
    while i < chars.len()
        invariant
            chars@ == s@,
            i <= chars@.len(),
            forall|t: int| 0 <= t < i ==> s@[t] == '\n',
        decreases chars.len() - i,
    {
        if chars[i] != '\n' {
            return false;
        }
        i = i + 1;
    }
    true
}

/// Why loading a file's content failed.
#[derive(Debug)]
pub enum LoadError {
    /// The bytes could not be read; the message says why.
    Io(String),
    /// The bytes are not valid UTF-8; binary files are unsupported.
    NotUtf8,
}

/// Relies on String::from_utf8: succeeds exactly on valid UTF-8 input
/// and decodes the bytes.
#[verifier::external_body]
fn utf8_to_string(bytes: Vec<u8>) -> (r: Option<String>)
    ensures
        r is Some <==> vstd::utf8::valid_utf8(bytes@),
        r matches Some(s) ==> s@ == vstd::utf8::decode_utf8(bytes@),
{
    String::from_utf8(bytes).ok()
}

/// The precomputed renderings of one file's text, each present only when
/// requested at load time.
#[derive(Debug)]
pub struct FileForm {
    standard: Option<Vec<String>>,
    line_separation: Option<Vec<String>>,
    all_line_separation: Option<Vec<String>>,
}

impl FileForm {
    pub closed spec fn standard_spec(&self) -> Option<Seq<Seq<char>>> {
        match self.standard {
            Some(v) => Some(views_of(v@)),
            None => None,
        }
    }

    pub closed spec fn line_separation_spec(&self) -> Option<Seq<Seq<char>>> {
        match self.line_separation {
            Some(v) => Some(views_of(v@)),
            None => None,
        }
    }

    pub closed spec fn all_line_separation_spec(&self) -> Option<Seq<Seq<char>>> {
        match self.all_line_separation {
            Some(v) => Some(views_of(v@)),
            None => None,
        }
    }

    /// Which view a text mode selects.
    pub open spec fn text_for_mode_spec(&self, text_mode: TextMode) -> Option<Seq<Seq<char>>> {
        match text_mode {
            TextMode::Newline => self.line_separation_spec(),
            TextMode::AllNewline => self.all_line_separation_spec(),
            TextMode::Selectable => self.standard_spec(),
            TextMode::Standard => self.standard_spec(),
        }
    }

    pub fn line_separation_ref(&self) -> (r: &Option<Vec<String>>)
        ensures
            match r {
                Some(v) => self.line_separation_spec() == Some(views_of(v@)),
                None => self.line_separation_spec() is None,
            },
    {
        &self.line_separation
    }

    /// The rendering for the given display mode, if it was computed.
    pub fn get_file_text(&self, text_mode: &TextMode) -> (r: Option<&Vec<String>>)
        ensures
            match r {
                Some(v) => self.text_for_mode_spec(*text_mode) == Some(views_of(v@)),
                None => self.text_for_mode_spec(*text_mode) is None,
            },
    {
        match text_mode {
            TextMode::Newline => self.line_separation.as_ref(),
            TextMode::AllNewline => self.all_line_separation.as_ref(),
            TextMode::Selectable => self.standard.as_ref(),
            TextMode::Standard => self.standard.as_ref(),
        }
    }

    /// Computes the requested views of `file_string`, each derived once,
    /// deterministically, from the text.
    pub fn new(standard: bool, line_separation: bool, all_line_separation: bool, file_string: String) -> (r:
        FileForm)
        ensures
            r.standard_spec() == if standard {
                Some(seq![file_string@])
            } else {
                None::<Seq<Seq<char>>>
            },
            r.line_separation_spec() == if line_separation {
                Some(kept_segments(file_string@))
            } else {
                None::<Seq<Seq<char>>>
            },
            r.all_line_separation_spec() == if all_line_separation {
                Some(all_segments(file_string@))
            } else {
                None::<Seq<Seq<char>>>
            },
    {
        let need_segments = line_separation || all_line_separation;
        let standard_view: Option<Vec<String>> = if standard {
            let mut v: Vec<String> = Vec::new();
            let whole = file_string.clone();
            v.push(whole);
            proof {
                lemma_views_of_push(Seq::empty(), file_string);
                assert(views_of(v@) =~= seq![file_string@]);
            }
            Some(v)
        } else {
            None
        };
        let mut line_view: Option<Vec<String>> = None;
        let mut all_view: Option<Vec<String>> = None;
        if need_segments {
            let chars = crate::string_tools::chars_vec(file_string.as_str());
            let segs = segment_chars(&chars);
            if line_separation {
                line_view = Some(keep_nonblank_segments(&segs));
            }
            if all_line_separation {
                all_view = Some(segs);
            }
        }
        FileForm { standard: standard_view, line_separation: line_view, all_line_separation: all_view }
    }
}

impl Default for FileForm {
    /// A form with no views computed.
    fn default() -> (r: FileForm)
        ensures
            r.standard_spec() is None,
            r.line_separation_spec() is None,
            r.all_line_separation_spec() is None,
    {
        FileForm { standard: None, line_separation: None, all_line_separation: None }
    }
}

/// Keeps the segments the blank-skipping view shows: every non-blank
/// segment, and the final segment whatever it holds.
fn keep_nonblank_segments(segs: &Vec<String>) -> (r: Vec<String>)
    ensures
        ({
            let sv = views_of(segs@);
            views_of(r@) == if sv.len() == 0 {
                sv
            } else {
                nonblank_of(sv.drop_last()) + seq![sv.last()]
            }
        }),
{
    let n = segs.len();
    let mut r: Vec<String> = Vec::new();
    if n == 0 {
        proof {
            assert(views_of(r@) =~= views_of(segs@));
        }
        return r;
    }
    let mut i: usize = 0;
    proof {
        assert(views_of(r@) =~= Seq::<Seq<char>>::empty());
        assert(views_of(segs@).take(0).len() == 0);
    }
    while i < n - 1
        invariant
            n == segs@.len(),
            1 <= n,
            i <= n - 1,
            views_of(r@) == nonblank_of(views_of(segs@).take(i as int)),
        decreases n - 1 - i,
    {
        let ghost sv = views_of(segs@);
        proof {
            assert(sv.take(i + 1 as int).drop_last() =~= sv.take(i as int));
            assert(sv.take(i + 1 as int).last() == sv[i as int]);
        }
        if !seg_is_blank(&segs[i]) {
            let kept = segs[i].clone();
            proof {
                lemma_views_of_push(r@, kept);
            }
            r.push(kept);
        }
        i = i + 1;
    }
    let last = segs[n - 1].clone();
    proof {
        lemma_views_of_push(r@, last);
        assert(views_of(segs@).take(n - 1) =~= views_of(segs@).drop_last());
        assert(views_of(r@).push(last@) =~= nonblank_of(views_of(segs@).drop_last()) + seq![
            views_of(segs@).last()
        ]);
    }
    r.push(last);
    r
}

/// One loaded file: its computed renderings and the absolute path it was
/// read from.
#[derive(Debug)]
pub struct File {
    file: FileForm,
    path: PathSteps,
}

impl File {
    pub closed spec fn form_spec(&self) -> FileForm {
        self.file
    }

    pub closed spec fn path_spec(&self) -> Seq<Seq<char>> {
        self.path@
    }

    fn get_path_ref(&self) -> (r: &PathSteps)
        ensures
            r@ == self.path_spec(),
    {
        &self.path
    }

    fn get_file_ref(&self) -> (r: &FileForm)
        ensures
            *r == self.form_spec(),
    {
        &self.file
    }

    fn file_ref(&self) -> (r: &FileForm)
        ensures
            *r == self.form_spec(),
    {
        self.get_file_ref()
    }

    /// Builds the in-memory representation of one file from the bytes
    /// read from `path`: the bytes must decode as UTF-8, and every view
    /// is computed. Fails exactly on bytes that are not UTF-8.
    pub fn load_file(path: &PathSteps, bytes: Vec<u8>) -> (r: Result<File, LoadError>)
        ensures
            match r {
                Ok(f) => {
                    &&& vstd::utf8::valid_utf8(bytes@)
                    &&& f.path_spec() == path@
                    &&& ({
                        let text = vstd::utf8::decode_utf8(bytes@);
                        &&& f.form_spec().standard_spec() == Some(seq![text])
                        &&& f.form_spec().line_separation_spec() == Some(kept_segments(text))
                        &&& f.form_spec().all_line_separation_spec() == Some(all_segments(text))
                    })
                },
                Err(e) => !vstd::utf8::valid_utf8(bytes@) && (e matches LoadError::NotUtf8),
            },
    {
        let file_string = match utf8_to_string(bytes) {
            Some(s) => s,
            None => {
                return Err(LoadError::NotUtf8);
            },
        };
        let file_form = FileForm::new(true, true, true, file_string);
        Ok(File { file: file_form, path: path.duplicate() })
    }
}


/// No two entries carry the same key.
pub open spec fn unique_keys(entries: Seq<(PathSteps, Option<File>)>) -> bool {
    forall|a: int, b: int| 0 <= a < b < entries.len() ==> entries[a].0@ != entries[b].0@
}

/// Some entry carries key `k`.
pub open spec fn has_key(entries: Seq<(PathSteps, Option<File>)>, k: Seq<Seq<char>>) -> bool {
    exists|i: int| 0 <= i < entries.len() && entries[i].0@ == k
}

/// The mapping an entry run represents.
pub open spec fn entries_map(entries: Seq<(PathSteps, Option<File>)>) -> Map<
    Seq<Seq<char>>,
    Option<File>,
> {
    Map::new(
        |k: Seq<Seq<char>>| has_key(entries, k),
        |k: Seq<Seq<char>>|
            entries[choose|i: int| 0 <= i < entries.len() && entries[i].0@ == k].1,
    )
}

/// The mapping that inserting an entry run into an empty map, in order,
/// leaves behind: a later entry for a key overrides an earlier one.
pub open spec fn map_of_list(entries: Seq<(PathSteps, Option<File>)>) -> Map<
    Seq<Seq<char>>,
    Option<File>,
>
    decreases entries.len(),
{
    if entries.len() == 0 {
        Map::empty()
    } else {
        map_of_list(entries.drop_last()).insert(entries.last().0@, entries.last().1)
    }
}

proof fn lemma_entries_map_at(entries: Seq<(PathSteps, Option<File>)>, i: int)
    requires
        unique_keys(entries),
        0 <= i < entries.len(),
    ensures
        entries_map(entries).contains_key(entries[i].0@),
        entries_map(entries)[entries[i].0@] == entries[i].1,
{
    let k = entries[i].0@;
    assert(has_key(entries, k));
    let j = choose|j: int| 0 <= j < entries.len() && entries[j].0@ == k;
    if j < i {
        assert(entries[j].0@ != entries[i].0@);
    } else if i < j {
        assert(entries[i].0@ != entries[j].0@);
    }
}

proof fn lemma_entries_map_absent(entries: Seq<(PathSteps, Option<File>)>, k: Seq<Seq<char>>)
    requires
        forall|i: int| 0 <= i < entries.len() ==> entries[i].0@ != k,
    ensures
        !entries_map(entries).contains_key(k),
{
}

proof fn lemma_entries_map_update(
    entries: Seq<(PathSteps, Option<File>)>,
    i: int,
    p: (PathSteps, Option<File>),
)
    requires
        unique_keys(entries),
        0 <= i < entries.len(),
        p.0@ == entries[i].0@,
    ensures
        unique_keys(entries.update(i, p)),
        entries_map(entries.update(i, p)) == entries_map(entries).insert(p.0@, p.1),
{
    let e2 = entries.update(i, p);
    assert forall|a: int, b: int| 0 <= a < b < e2.len() implies e2[a].0@ != e2[b].0@ by {
        assert(entries[a].0@ != entries[b].0@);
    }
    let target = entries_map(entries).insert(p.0@, p.1);
    assert forall|k: Seq<Seq<char>>| #[trigger] has_key(e2, k) implies target.contains_key(k) by {
        let j = choose|j: int| 0 <= j < e2.len() && e2[j].0@ == k;
        if j != i {
            assert(entries[j].0@ == k);
            assert(has_key(entries, k));
        }
    }
    assert forall|k: Seq<Seq<char>>| target.contains_key(k) implies #[trigger] has_key(e2, k) by {
        if k == p.0@ {
            assert(e2[i].0@ == k);
        } else {
            let j = choose|j: int| 0 <= j < entries.len() && entries[j].0@ == k;
            assert(e2[j].0@ == k);
        }
    }
    assert forall|k: Seq<Seq<char>>| #[trigger] has_key(e2, k) implies entries_map(e2)[k]
        == target[k] by {
        lemma_unique_pick(e2, k);
        let j = choose|j: int| 0 <= j < e2.len() && e2[j].0@ == k;
        if k == p.0@ {
            if j != i {
                assert(e2[j].0@ != e2[i].0@ || j == i);
                assert(false);
            }
            assert(entries_map(e2)[k] == p.1);
        } else {
            assert(j != i);
            lemma_entries_map_at(entries, j);
        }
    }
    assert(entries_map(e2) =~= target);
}

/// With unique keys, the chosen witness for a key is the only entry
/// carrying it.
proof fn lemma_unique_pick(entries: Seq<(PathSteps, Option<File>)>, k: Seq<Seq<char>>)
    requires
        unique_keys(entries),
        has_key(entries, k),
    ensures
        ({
            let j = choose|j: int| 0 <= j < entries.len() && entries[j].0@ == k;
            &&& 0 <= j < entries.len()
            &&& entries[j].0@ == k
            &&& entries_map(entries)[k] == entries[j].1
            &&& forall|t: int| 0 <= t < entries.len() && entries[t].0@ == k ==> t == j
        }),
{
    let j = choose|j: int| 0 <= j < entries.len() && entries[j].0@ == k;
    assert forall|t: int| 0 <= t < entries.len() && entries[t].0@ == k implies t == j by {
        if t < j {
            assert(entries[t].0@ != entries[j].0@);
        } else if j < t {
            assert(entries[j].0@ != entries[t].0@);
        }
    }
}

proof fn lemma_entries_map_insert_at(
    entries: Seq<(PathSteps, Option<File>)>,
    pos: int,
    p: (PathSteps, Option<File>),
)
    requires
        unique_keys(entries),
        0 <= pos <= entries.len(),
        !has_key(entries, p.0@),
    ensures
        unique_keys(entries.insert(pos, p)),
        entries_map(entries.insert(pos, p)) == entries_map(entries).insert(p.0@, p.1),
{
    let e2 = entries.insert(pos, p);
    entries.insert_ensures(pos, p);
    assert forall|a: int, b: int| 0 <= a < b < e2.len() implies e2[a].0@ != e2[b].0@ by {
        if a == pos {
            assert(e2[b] == entries[b - 1]);
            assert(entries[b - 1].0@ != p.0@);
        } else if b == pos {
            assert(e2[a] == entries[a]);
            assert(entries[a].0@ != p.0@);
        } else {
            let a0 = if a < pos { a } else { a - 1 };
            let b0 = if b < pos { b } else { b - 1 };
            assert(e2[a] == entries[a0]);
            assert(e2[b] == entries[b0]);
            assert(entries[a0].0@ != entries[b0].0@);
        }
    }
    let target = entries_map(entries).insert(p.0@, p.1);
    assert forall|k: Seq<Seq<char>>| #[trigger] has_key(e2, k) implies target.contains_key(k) by {
        let j = choose|j: int| 0 <= j < e2.len() && e2[j].0@ == k;
        if j < pos {
            assert(entries[j].0@ == k);
        } else if j > pos {
            assert(entries[j - 1].0@ == k);
        }
    }
    assert forall|k: Seq<Seq<char>>| target.contains_key(k) implies #[trigger] has_key(e2, k) by {
        if k == p.0@ {
            assert(e2[pos].0@ == k);
        } else {
            let j = choose|j: int| 0 <= j < entries.len() && entries[j].0@ == k;
            if j < pos {
                assert(e2[j].0@ == k);
            } else {
                assert(e2[j + 1].0@ == k);
            }
        }
    }
    assert forall|k: Seq<Seq<char>>| #[trigger] has_key(e2, k) implies entries_map(e2)[k]
        == target[k] by {
        lemma_unique_pick(e2, k);
        let j = choose|j: int| 0 <= j < e2.len() && e2[j].0@ == k;
        if k == p.0@ {
            assert(e2[pos].0@ == k);
            assert(j == pos);
            assert(entries_map(e2)[k] == p.1);
        } else {
            assert(j != pos);
            let j0 = if j < pos { j } else { j - 1 };
            assert(e2[j] == entries[j0]);
            lemma_entries_map_at(entries, j0);
        }
    }
    assert(entries_map(e2) =~= target);
}

proof fn lemma_entries_map_push(entries: Seq<(PathSteps, Option<File>)>, p: (PathSteps, Option<File>))
    requires
        unique_keys(entries),
        !has_key(entries, p.0@),
    ensures
        unique_keys(entries.push(p)),
        entries_map(entries.push(p)) == entries_map(entries).insert(p.0@, p.1),
{
    lemma_entries_map_insert_at(entries, entries.len() as int, p);
    assert(entries.insert(entries.len() as int, p) =~= entries.push(p));
}

proof fn lemma_entries_map_remove(entries: Seq<(PathSteps, Option<File>)>, i: int)
    requires
        unique_keys(entries),
        0 <= i < entries.len(),
    ensures
        unique_keys(entries.remove(i)),
        entries_map(entries.remove(i)) == entries_map(entries).remove(entries[i].0@),
{
    let e2 = entries.remove(i);
    entries.remove_ensures(i);
    let ki = entries[i].0@;
    assert forall|a: int, b: int| 0 <= a < b < e2.len() implies e2[a].0@ != e2[b].0@ by {
        let a0 = if a < i { a } else { a + 1 };
        let b0 = if b < i { b } else { b + 1 };
        assert(e2[a] == entries[a0]);
        assert(e2[b] == entries[b0]);
        assert(entries[a0].0@ != entries[b0].0@);
    }
    let target = entries_map(entries).remove(ki);
    assert forall|k: Seq<Seq<char>>| #[trigger] has_key(e2, k) implies target.contains_key(k) by {
        let j = choose|j: int| 0 <= j < e2.len() && e2[j].0@ == k;
        let j0 = if j < i { j } else { j + 1 };
        assert(e2[j] == entries[j0]);
        assert(has_key(entries, k));
        if k == ki {
            lemma_unique_pick(entries, ki);
            assert(j0 == i);
            assert(false);
        }
    }
    assert forall|k: Seq<Seq<char>>| target.contains_key(k) implies #[trigger] has_key(e2, k) by {
        let j = choose|j: int| 0 <= j < entries.len() && entries[j].0@ == k;
        lemma_unique_pick(entries, k);
        assert(j != i);
        if j < i {
            assert(e2[j].0@ == k);
        } else {
            assert(e2[j - 1].0@ == k);
        }
    }
    assert forall|k: Seq<Seq<char>>| #[trigger] has_key(e2, k) implies entries_map(e2)[k]
        == target[k] by {
        lemma_unique_pick(e2, k);
        let j = choose|j: int| 0 <= j < e2.len() && e2[j].0@ == k;
        let j0 = if j < i { j } else { j + 1 };
        assert(e2[j] == entries[j0]);
        lemma_entries_map_at(entries, j0);
    }
    assert(entries_map(e2) =~= target);
}

/// The keyed store behind the viewer: for every path of the last
/// snapshot, the loaded content, or nothing for a directory; plus the
/// key the consumer currently has selected.
pub struct FileCache {
    current_file: PathSteps,
    cached_files: Vec<(PathSteps, Option<File>)>,
    allow_caching: bool,
}

impl FileCache {
    pub closed spec fn entries_spec(&self) -> Seq<(PathSteps, Option<File>)> {
        self.cached_files@
    }

    pub closed spec fn current_spec(&self) -> Seq<Seq<char>> {
        self.current_file@
    }

    /// The cache's keys never repeat.
    pub open spec fn wf(&self) -> bool {
        unique_keys(self.entries_spec())
    }

    /// The mapping the cache holds.
    pub open spec fn contents(&self) -> Map<Seq<Seq<char>>, Option<File>> {
        entries_map(self.entries_spec())
    }

    /// Index of the entry carrying `key`, if one does.
    fn find_key(&self, key: &PathSteps) -> (r: Option<usize>)
        ensures
            match r {
                Some(i) => i < self.entries_spec().len() && self.entries_spec()[i as int].0@
                    == key@,
                None => forall|i: int|
                    0 <= i < self.entries_spec().len() ==> self.entries_spec()[i].0@ != key@,
            },
    {
        let n = self.cached_files.len();
        let mut i: usize = 0;
        while i < n
            invariant
                n == self.entries_spec().len(),
                i <= n,
                forall|j: int| 0 <= j < i ==> self.entries_spec()[j].0@ != key@,
            decreases n - i,
        {
            if self.cached_files[i].0.same_path(key) {
                return Some(i);
            }
            i = i + 1;
        }
        None
    }

    /// Replaces the selected key; no check that the cache knows it, since
    /// selecting an unknown key is a valid state.
    pub fn current_file_set(&mut self, new_current_file: PathSteps)
        ensures
            final(self).current_spec() == new_current_file@,
            final(self).entries_spec() == old(self).entries_spec(),
    {
        self.current_file = new_current_file;
    }

    pub fn current_file_ref(&self) -> (r: &PathSteps)
        ensures
            r@ == self.current_spec(),
    {
        &self.current_file
    }

    pub fn current_file_mut(&mut self) -> (r: &mut PathSteps)
        ensures
            (*r)@ == old(self).current_spec(),
            final(self).current_spec() == final(r)@,
            final(self).entries_spec() == old(self).entries_spec(),
    {
        &mut self.current_file
    }

    /// The content of the selected entry: nothing when the key is absent
    /// or names a directory; never an error.
    pub fn full_file(&self) -> (r: Option<&FileForm>)
        requires
            self.wf(),
        ensures
            match r {
                Some(form) => {
                    &&& self.contents().contains_key(self.current_spec())
                    &&& self.contents()[self.current_spec()] matches Some(f) && *form
                        == f.form_spec()
                },
                None => !self.contents().contains_key(self.current_spec()) || self.contents()[
                    self.current_spec()
                ] is None,
            },
    {
        match self.find_key(&self.current_file) {
            Some(i) => {
                proof {
                    lemma_entries_map_at(self.entries_spec(), i as int);
                }
                match &self.cached_files[i].1 {
                    Some(file) => Some(file.file_ref()),
                    None => None,
                }
            },
            None => {
                proof {
                    lemma_entries_map_absent(self.entries_spec(), self.current_spec());
                }
                None
            },
        }
    }

    /// Seeds the cache: one entry per snapshot pair, a later pair for the
    /// same key overriding an earlier one; the selection starts on
    /// `first_filepath`.
    pub fn new(current_path: PathSteps, first_filepath: PathSteps, dir_list: Vec<(PathSteps, Option<File>)>) -> (r:
        FileCache)
        ensures
            r.wf(),
            r.current_spec() == first_filepath@,
            r.contents() == map_of_list(dir_list@),
    {
        let _ = current_path;
        let mut cache = FileCache {
            current_file: first_filepath,
            cached_files: Vec::new(),
            allow_caching: true,
        };
        let mut i: usize = 0;
        let mut dir_list = dir_list;
        let ghost orig = dir_list@;
        proof {
            assert(orig.take(0) =~= Seq::<(PathSteps, Option<File>)>::empty());
            assert(orig.skip(0) =~= orig);
            assert(cache.contents() =~= Map::<Seq<Seq<char>>, Option<File>>::empty());
            assert(cache.contents() == map_of_list(orig.take(0)));
        }
        let n = dir_list.len();
        while i < n
            invariant
                n == orig.len(),
                i <= n,
                dir_list@ == orig.skip(i as int),
                cache.wf(),
                cache.current_spec() == first_filepath@,
                cache.contents() == map_of_list(orig.take(i as int)),
            decreases n - i,
        {
            let pair = dir_list.remove(0);
            proof {
                assert(orig.skip(i as int).remove(0) =~= orig.skip(i + 1 as int));
                assert(orig.skip(i as int)[0] == orig[i as int]);
            }
            cache.insert_pair(pair);
            proof {
                assert(orig.take(i + 1 as int).drop_last() =~= orig.take(i as int));
                assert(orig.take(i + 1 as int).last() == orig[i as int]);
                assert(map_of_list(orig.take(i + 1 as int)) == map_of_list(orig.take(i as int)).insert(
                    orig[i as int].0@,
                    orig[i as int].1,
                ));
            }
            i = i + 1;
        }
        proof {
            assert(orig.take(n as int) =~= orig);
        }
        cache
    }

    /// Binds `pair`'s key to its value, replacing any entry with that key.
    fn insert_pair(&mut self, pair: (PathSteps, Option<File>))
        requires
            old(self).wf(),
        ensures
            final(self).wf(),
            final(self).current_spec() == old(self).current_spec(),
            final(self).contents() == old(self).contents().insert(pair.0@, pair.1),
    {
        match self.find_key(&pair.0) {
            Some(i) => {
                proof {
                    lemma_entries_map_update(self.entries_spec(), i as int, pair);
                }
                self.cached_files.set(i, pair);
            },
            None => {
                proof {
                    lemma_entries_map_push(self.entries_spec(), pair);
                }
                self.cached_files.push(pair);
            },
        }
    }

    /// Replaces the content held for `key`. A key the cache does not
    /// track is left exactly as it was: the update is dropped.
    pub fn apply_content_update(&mut self, key: &PathSteps, content: File) -> (updated: bool)
        requires
            old(self).wf(),
        ensures
            final(self).wf(),
            final(self).current_spec() == old(self).current_spec(),
            updated == old(self).contents().contains_key(key@),
            final(self).contents() == if old(self).contents().contains_key(key@) {
                old(self).contents().insert(key@, Some(content))
            } else {
                old(self).contents()
            },
    {
        match self.find_key(key) {
            Some(i) => {
                let pair = (key.duplicate(), Some(content));
                proof {
                    lemma_entries_map_at(self.entries_spec(), i as int);
                    lemma_entries_map_update(self.entries_spec(), i as int, pair);
                }
                self.cached_files.set(i, pair);
                true
            },
            None => {
                proof {
                    lemma_entries_map_absent(self.entries_spec(), key@);
                }
                false
            },
        }
    }

    /// Moves the entry under `from` to `to`, carrying its content. When
    /// `from` is untracked nothing changes: in particular no entry for
    /// `to` appears.
    pub fn apply_rename(&mut self, from: &PathSteps, to: &PathSteps) -> (renamed: bool)
        requires
            old(self).wf(),
        ensures
            final(self).wf(),
            final(self).current_spec() == old(self).current_spec(),
            renamed == old(self).contents().contains_key(from@),
            final(self).contents() == if old(self).contents().contains_key(from@) {
                old(self).contents().remove(from@).insert(to@, old(self).contents()[from@])
            } else {
                old(self).contents()
            },
    {
        match self.find_key(from) {
            Some(i) => {
                proof {
                    lemma_entries_map_at(self.entries_spec(), i as int);
                    lemma_entries_map_remove(self.entries_spec(), i as int);
                }
                let pair = self.cached_files.remove(i);
                let value = pair.1;
                self.insert_pair((to.duplicate(), value));
                true
            },
            None => {
                proof {
                    lemma_entries_map_absent(self.entries_spec(), from@);
                }
                false
            },
        }
    }

    /// Drops the entry under `key`, if the cache tracks it.
    pub fn remove_entry(&mut self, key: &PathSteps) -> (removed: bool)
        requires
            old(self).wf(),
        ensures
            final(self).wf(),
            final(self).current_spec() == old(self).current_spec(),
            removed == old(self).contents().contains_key(key@),
            final(self).contents() == old(self).contents().remove(key@),
    {
        match self.find_key(key) {
            Some(i) => {
                proof {
                    lemma_entries_map_at(self.entries_spec(), i as int);
                    lemma_entries_map_remove(self.entries_spec(), i as int);
                }
                let _ = self.cached_files.remove(i);
                true
            },
            None => {
                proof {
                    lemma_entries_map_absent(self.entries_spec(), key@);
                    assert(old(self).contents().remove(key@) =~= old(self).contents());
                }
                false
            },
        }
    }

    /// The keys of every tracked entry, in the cache's own order.
    pub fn keys(&self) -> (r: Vec<PathSteps>)
        ensures
            r@.len() == self.entries_spec().len(),
            forall|i: int| 0 <= i < r@.len() ==> r@[i]@ == self.entries_spec()[i].0@,
    {
        let n = self.cached_files.len();
        let mut r: Vec<PathSteps> = Vec::new();
        let mut i: usize = 0;
        while i < n
            invariant
                n == self.entries_spec().len(),
                i <= n,
                r@.len() == i,
                forall|j: int| 0 <= j < i ==> r@[j]@ == self.entries_spec()[j].0@,
            decreases n - i,
        {
            let key = self.cached_files[i].0.duplicate();
            r.push(key);
            i = i + 1;
        }
        r
    }
}


/// Lexicographic order on character runs.
pub open spec fn chars_le(a: Seq<char>, b: Seq<char>) -> bool
    decreases a.len(),
{
    if a.len() == 0 {
        true
    } else if b.len() == 0 {
        false
    } else if (a[0] as int) < (b[0] as int) {
        true
    } else if (b[0] as int) < (a[0] as int) {
        false
    } else {
        chars_le(a.drop_first(), b.drop_first())
    }
}

/// Lexicographic order on paths, component by component.
pub open spec fn path_le(a: Seq<Seq<char>>, b: Seq<Seq<char>>) -> bool
    decreases a.len(),
{
    if a.len() == 0 {
        true
    } else if b.len() == 0 {
        false
    } else if a[0] == b[0] {
        path_le(a.drop_first(), b.drop_first())
    } else if chars_le(a[0], b[0]) {
        true
    } else {
        false
    }
}

proof fn lemma_chars_le_total(a: Seq<char>, b: Seq<char>)
    ensures
        chars_le(a, b) || chars_le(b, a),
    decreases a.len(),
{
    if a.len() > 0 && b.len() > 0 && !((a[0] as int) < (b[0] as int)) && !((b[0] as int) < (
    a[0] as int)) {
        lemma_chars_le_total(a.drop_first(), b.drop_first());
    }
}

proof fn lemma_chars_le_antisym(a: Seq<char>, b: Seq<char>)
    requires
        chars_le(a, b),
        chars_le(b, a),
    ensures
        a == b,
    decreases a.len(),
{
    if a.len() == 0 {
        assert(a =~= b);
    } else {
        assert((a[0] as int) == (b[0] as int));
        assert(a[0] == b[0]);
        lemma_chars_le_antisym(a.drop_first(), b.drop_first());
        assert(a =~= seq![a[0]] + a.drop_first());
        assert(b =~= seq![b[0]] + b.drop_first());
    }
}

proof fn lemma_chars_le_trans(a: Seq<char>, b: Seq<char>, c: Seq<char>)
    requires
        chars_le(a, b),
        chars_le(b, c),
    ensures
        chars_le(a, c),
    decreases a.len(),
{
    if a.len() > 0 && b.len() > 0 && c.len() > 0 && !((a[0] as int) < (c[0] as int)) && !((
    c[0] as int) < (a[0] as int)) {
        lemma_chars_le_trans(a.drop_first(), b.drop_first(), c.drop_first());
    }
}

proof fn lemma_path_le_refl(a: Seq<Seq<char>>)
    ensures
        path_le(a, a),
    decreases a.len(),
{
    if a.len() > 0 {
        lemma_path_le_refl(a.drop_first());
    }
}

proof fn lemma_path_le_total(a: Seq<Seq<char>>, b: Seq<Seq<char>>)
    ensures
        path_le(a, b) || path_le(b, a),
    decreases a.len(),
{
    if a.len() > 0 && b.len() > 0 {
        if a[0] == b[0] {
            lemma_path_le_total(a.drop_first(), b.drop_first());
        } else {
            lemma_chars_le_total(a[0], b[0]);
            if chars_le(a[0], b[0]) && chars_le(b[0], a[0]) {
                lemma_chars_le_antisym(a[0], b[0]);
            }
        }
    }
}

proof fn lemma_path_le_antisym(a: Seq<Seq<char>>, b: Seq<Seq<char>>)
    requires
        path_le(a, b),
        path_le(b, a),
    ensures
        a == b,
    decreases a.len(),
{
    if a.len() == 0 {
        assert(a =~= b);
    } else {
        if a[0] == b[0] {
            lemma_path_le_antisym(a.drop_first(), b.drop_first());
            assert(a =~= seq![a[0]] + a.drop_first());
            assert(b =~= seq![b[0]] + b.drop_first());
        } else {
            if chars_le(a[0], b[0]) && chars_le(b[0], a[0]) {
                lemma_chars_le_antisym(a[0], b[0]);
            }
        }
    }
}

proof fn lemma_path_le_trans(a: Seq<Seq<char>>, b: Seq<Seq<char>>, c: Seq<Seq<char>>)
    requires
        path_le(a, b),
        path_le(b, c),
    ensures
        path_le(a, c),
    decreases a.len(),
{
    if a.len() > 0 && b.len() > 0 && c.len() > 0 {
        if a[0] == b[0] && b[0] == c[0] {
            lemma_path_le_trans(a.drop_first(), b.drop_first(), c.drop_first());
        } else if a[0] == b[0] {
            // a[0] == b[0] < c[0] strictly
            if !chars_le(a[0], c[0]) {
                lemma_chars_le_total(a[0], c[0]);
                lemma_chars_le_antisym(c[0], a[0]);
            }
            if a[0] == c[0] {
                lemma_chars_le_total(b[0], c[0]);
                lemma_chars_le_antisym(b[0], c[0]);
            }
        } else if b[0] == c[0] {
            if !chars_le(a[0], c[0]) {
                assert(false);
            }
            if a[0] == c[0] {
                assert(false);
            }
        } else {
            // a[0] < b[0] < c[0] strictly
            lemma_chars_le_trans(a[0], b[0], c[0]);
            if a[0] == c[0] {
                lemma_chars_le_antisym(b[0], c[0]);
            }
        }
    }
}

/// The order agrees after dropping an equal prefix.
proof fn lemma_chars_le_skip(a: Seq<char>, b: Seq<char>, i: int)
    requires
        0 <= i <= a.len(),
        i <= b.len(),
        forall|t: int| 0 <= t < i ==> a[t] == b[t],
    ensures
        chars_le(a, b) == chars_le(a.skip(i), b.skip(i)),
    decreases i,
{
    if i > 0 {
        assert((a[0] as int) == (b[0] as int));
        assert(forall|t: int|
            0 <= t < i - 1 ==> a.drop_first()[t] == b.drop_first()[t]);
        lemma_chars_le_skip(a.drop_first(), b.drop_first(), i - 1);
        assert(a.drop_first().skip(i - 1) =~= a.skip(i));
        assert(b.drop_first().skip(i - 1) =~= b.skip(i));
    } else {
        assert(a.skip(0) =~= a);
        assert(b.skip(0) =~= b);
    }
}

proof fn lemma_path_le_skip(a: Seq<Seq<char>>, b: Seq<Seq<char>>, i: int)
    requires
        0 <= i <= a.len(),
        i <= b.len(),
        forall|t: int| 0 <= t < i ==> a[t] == b[t],
    ensures
        path_le(a, b) == path_le(a.skip(i), b.skip(i)),
    decreases i,
{
    if i > 0 {
        assert(forall|t: int|
            0 <= t < i - 1 ==> a.drop_first()[t] == b.drop_first()[t]);
        lemma_path_le_skip(a.drop_first(), b.drop_first(), i - 1);
        assert(a.drop_first().skip(i - 1) =~= a.skip(i));
        assert(b.drop_first().skip(i - 1) =~= b.skip(i));
    } else {
        assert(a.skip(0) =~= a);
        assert(b.skip(0) =~= b);
    }
}

fn string_le(a: &String, b: &String) -> (r: bool)
    ensures
        r == chars_le(a@, b@),
{
    let av = crate::string_tools::chars_vec(a.as_str());
    let bv = crate::string_tools::chars_vec(b.as_str());
    let mut i: usize = 0;
    while i < av.len() && i < bv.len()
        invariant
            av@ == a@,
            bv@ == b@,
            i <= av@.len(),
            i <= bv@.len(),
            forall|t: int| 0 <= t < i ==> a@[t] == b@[t],
        decreases av.len() - i,
    {
        let ca = av[i];
        let cb = bv[i];
        if ca < cb {
            proof {
                lemma_chars_le_skip(a@, b@, i as int);
                assert(a@.skip(i as int)[0] == a@[i as int]);
                assert(b@.skip(i as int)[0] == b@[i as int]);
            }
            return true;
        }
        if cb < ca {
            proof {
                lemma_chars_le_skip(a@, b@, i as int);
                assert(a@.skip(i as int)[0] == a@[i as int]);
                assert(b@.skip(i as int)[0] == b@[i as int]);
            }
            return false;
        }
        proof {
            assert(ca == cb);
            assert(a@[i as int] == b@[i as int]);
        }
        i = i + 1;
    }
    proof {
        lemma_chars_le_skip(a@, b@, i as int);
    }
    av.len() <= bv.len()
}

/// Whether `a` orders at or before `b`.
pub fn path_le_exec(a: &PathSteps, b: &PathSteps) -> (r: bool)
    ensures
        r == path_le(a@, b@),
{
    let av = a.steps_ref();
    let bv = b.steps_ref();
    let mut i: usize = 0;
    while i < av.len() && i < bv.len()
        invariant
            views_of(av@) == a@,
            views_of(bv@) == b@,
            i <= a@.len(),
            i <= b@.len(),
            av@.len() == a@.len(),
            bv@.len() == b@.len(),
            forall|t: int| 0 <= t < i ==> a@[t] == b@[t],
        decreases av.len() - i,
    {
        let le_ab = string_le(&av[i], &bv[i]);
        let le_ba = string_le(&bv[i], &av[i]);
        if le_ab && le_ba {
            proof {
                lemma_chars_le_antisym(a@[i as int], b@[i as int]);
            }
            i = i + 1;
        } else {
            proof {
                lemma_path_le_skip(a@, b@, i as int);
                assert(a@.skip(i as int)[0] == a@[i as int]);
                assert(b@.skip(i as int)[0] == b@[i as int]);
                lemma_chars_le_total(a@[i as int], b@[i as int]);
            }
            return le_ab;
        }
    }
    proof {
        lemma_path_le_skip(a@, b@, i as int);
    }
    av.len() <= bv.len()
}

/// Keys strictly ascend through the run.
pub open spec fn entries_sorted(entries: Seq<(PathSteps, Option<File>)>) -> bool {
    forall|a: int, b: int|
        0 <= a < b < entries.len() ==> path_le(entries[a].0@, entries[b].0@)
}

/// Binds a key in a sorted run, keeping it sorted: an entry with the
/// same key is replaced in place, a new key is spliced where it belongs.
fn insert_sorted(entries: &mut Vec<(PathSteps, Option<File>)>, pair: (PathSteps, Option<File>))
    requires
        unique_keys(old(entries)@),
        entries_sorted(old(entries)@),
    ensures
        unique_keys(final(entries)@),
        entries_sorted(final(entries)@),
        entries_map(final(entries)@) == entries_map(old(entries)@).insert(pair.0@, pair.1),
{
    let n = entries.len();
    let mut j: usize = 0;
    while j < n
        invariant
            n == entries@.len(),
            j <= n,
            entries@ == old(entries)@,
            unique_keys(entries@),
            entries_sorted(entries@),
            forall|t: int|
                0 <= t < j ==> path_le(entries@[t].0@, pair.0@) && entries@[t].0@ != pair.0@,
        decreases n - j,
    {
        let le_ep = path_le_exec(&entries[j].0, &pair.0);
        let le_pe = path_le_exec(&pair.0, &entries[j].0);
        if le_ep && le_pe {
            proof {
                lemma_path_le_antisym(entries@[j as int].0@, pair.0@);
                lemma_entries_map_update(entries@, j as int, pair);
            }
            entries.set(j, pair);
            return;
        }
        if !le_ep {
            proof {
                lemma_path_le_total(entries@[j as int].0@, pair.0@);
                let e = entries@;
                let jj = j as int;
                assert forall|t: int| 0 <= t < e.len() implies e[t].0@ != pair.0@ by {
                    if t < jj {
                    } else {
                        if e[t].0@ == pair.0@ {
                            assert(path_le(e[jj].0@, e[t].0@) || t == jj);
                            assert(path_le(pair.0@, e[jj].0@));
                            if t == jj {
                            } else {
                                lemma_path_le_trans(e[jj].0@, e[t].0@, pair.0@);
                            }
                            assert(path_le(e[jj].0@, pair.0@));
                            assert(false);
                        }
                    }
                }
                lemma_entries_map_insert_at(e, jj, pair);
                e.insert_ensures(jj, pair);
                assert forall|a: int, b: int|
                    0 <= a < b < e.insert(jj, pair).len() implies path_le(
                    e.insert(jj, pair)[a].0@,
                    e.insert(jj, pair)[b].0@,
                ) by {
                    let e2 = e.insert(jj, pair);
                    if a == jj {
                        assert(e2[b] == e[b - 1]);
                        assert(path_le(e[jj].0@, e[b - 1].0@) || b - 1 == jj);
                        lemma_path_le_total(pair.0@, e[jj].0@);
                        if b - 1 == jj {
                        } else {
                            lemma_path_le_trans(pair.0@, e[jj].0@, e[b - 1].0@);
                        }
                    } else if b == jj {
                        assert(e2[a] == e[a]);
                        assert(path_le(e[a].0@, pair.0@));
                    } else if a < jj && b > jj {
                        assert(e2[a] == e[a]);
                        assert(e2[b] == e[b - 1]);
                        lemma_path_le_total(pair.0@, e[jj].0@);
                        if b - 1 == jj {
                            lemma_path_le_trans(e[a].0@, pair.0@, e[jj].0@);
                        } else {
                            assert(path_le(e[a].0@, e[b - 1].0@));
                        }
                    } else {
                        let a0 = if a < jj { a } else { a - 1 };
                        let b0 = if b < jj { b } else { b - 1 };
                        assert(e2[a] == e[a0]);
                        assert(e2[b] == e[b0]);
                        assert(path_le(e[a0].0@, e[b0].0@));
                    }
                }
            }
            entries.insert(j, pair);
            return;
        }
        proof {
            assert(path_le(entries@[j as int].0@, pair.0@));
            if entries@[j as int].0@ == pair.0@ {
                lemma_path_le_refl(pair.0@);
                assert(false);
            }
        }
        j = j + 1;
    }
    proof {
        lemma_entries_map_push(entries@, pair);
        let e = entries@;
        assert forall|a: int, b: int|
            0 <= a < b < e.push(pair).len() implies path_le(e.push(pair)[a].0@, e.push(pair)[b].0@) by {
            if b == e.len() {
                assert(e.push(pair)[a] == e[a]);
            }
        }
    }
    entries.push(pair);
}

/// Orders a snapshot's entries lexicographically by key, a later entry
/// for a repeated key overriding an earlier one.
pub fn order_dir_list(list: Vec<(PathSteps, Option<File>)>) -> (r: Vec<(PathSteps, Option<File>)>)
    ensures
        unique_keys(r@),
        entries_sorted(r@),
        entries_map(r@) == map_of_list(list@),
{
    let mut list = list;
    let ghost orig = list@;
    let mut r: Vec<(PathSteps, Option<File>)> = Vec::new();
    let n = list.len();
    let mut i: usize = 0;
    proof {
        assert(orig.skip(0) =~= orig);
        assert(orig.take(0).len() == 0);
        assert(entries_map(r@) =~= map_of_list(orig.take(0)));
    }
    while i < n
        invariant
            n == orig.len(),
            i <= n,
            list@ == orig.skip(i as int),
            unique_keys(r@),
            entries_sorted(r@),
            entries_map(r@) == map_of_list(orig.take(i as int)),
        decreases n - i,
    {
        let pair = list.remove(0);
        proof {
            assert(orig.skip(i as int).remove(0) =~= orig.skip(i + 1 as int));
            assert(orig.skip(i as int)[0] == orig[i as int]);
        }
        insert_sorted(&mut r, pair);
        proof {
            assert(orig.take(i + 1 as int).drop_last() =~= orig.take(i as int));
            assert(orig.take(i + 1 as int).last() == orig[i as int]);
        }
        i = i + 1;
    }
    proof {
        assert(orig.take(n as int) =~= orig);
    }
    r
}


/// The directory currently watched: its absolute path, when one has
/// been selected, and the channel that tells the watch pipeline about a
/// new root.
pub struct MasterPath {
    path_buf: Option<PathSteps>,
    pub path_tx: tokio::sync::mpsc::Sender<PathSteps>,
}

impl MasterPath {
    pub closed spec fn path_spec(&self) -> Option<PathSteps> {
        self.path_buf
    }

    pub fn get_path_buf_ref(&self) -> (r: &Option<PathSteps>)
        ensures
            *r == self.path_spec(),
    {
        &self.path_buf
    }

    pub fn path_ref(&self) -> (r: &Option<PathSteps>)
        ensures
            *r == self.path_spec(),
    {
        self.get_path_buf_ref()
    }

    pub fn path_clone(&self) -> (r: Option<PathSteps>)
        ensures
            match r {
                Some(p) => self.path_spec() matches Some(q) && p@ == q@,
                None => self.path_spec() is None,
            },
    {
        match &self.path_buf {
            Some(p) => Some(p.duplicate()),
            None => None,
        }
    }

    pub fn new(path_buf: Option<PathSteps>, path_tx: tokio::sync::mpsc::Sender<PathSteps>) -> (r:
        MasterPath)
        ensures
            r.path_spec() == path_buf,
    {
        MasterPath { path_buf, path_tx }
    }
}

proof fn lemma_map_of_list_dom(l: Seq<(PathSteps, Option<File>)>, k: Seq<Seq<char>>)
    ensures
        map_of_list(l).contains_key(k) == has_key(l, k),
    decreases l.len(),
{
    if l.len() == 0 {
        assert(!has_key(l, k));
    } else {
        lemma_map_of_list_dom(l.drop_last(), k);
        if k == l.last().0@ {
            assert(l[l.len() - 1].0@ == k);
            assert(has_key(l, k));
        } else {
            if has_key(l, k) {
                let i = choose|i: int| 0 <= i < l.len() && l[i].0@ == k;
                assert(i < l.len() - 1);
                assert(l.drop_last()[i].0@ == k);
                assert(has_key(l.drop_last(), k));
            }
            if has_key(l.drop_last(), k) {
                let i = choose|i: int| 0 <= i < l.drop_last().len() && l.drop_last()[i].0@ == k;
                assert(l[i].0@ == k);
                assert(has_key(l, k));
            }
        }
    }
}

proof fn lemma_map_of_list_value(l: Seq<(PathSteps, Option<File>)>, k: Seq<Seq<char>>)
    requires
        map_of_list(l).contains_key(k),
    ensures
        exists|i: int|
            0 <= i < l.len() && l[i].0@ == k && map_of_list(l)[k] == l[i].1,
    decreases l.len(),
{
    if l.len() == 0 {
        assert(false);
    } else if k == l.last().0@ {
        assert(l[l.len() - 1].0@ == k && map_of_list(l)[k] == l[l.len() - 1].1);
    } else {
        lemma_map_of_list_value(l.drop_last(), k);
        let i = choose|i: int|
            0 <= i < l.drop_last().len() && l.drop_last()[i].0@ == k && map_of_list(l.drop_last())[k]
                == l.drop_last()[i].1;
        assert(l[i].0@ == k && map_of_list(l)[k] == l[i].1);
    }
}

/// A run of unique entries stands for the same mapping however it came.
proof fn lemma_unique_map_of_list(l: Seq<(PathSteps, Option<File>)>)
    requires
        unique_keys(l),
    ensures
        map_of_list(l) == entries_map(l),
{
    assert forall|k: Seq<Seq<char>>| #[trigger] map_of_list(l).contains_key(k) implies entries_map(
        l,
    ).contains_key(k) && map_of_list(l)[k] == entries_map(l)[k] by {
        lemma_map_of_list_dom(l, k);
        lemma_map_of_list_value(l, k);
        let i = choose|i: int| 0 <= i < l.len() && l[i].0@ == k && map_of_list(l)[k] == l[i].1;
        lemma_entries_map_at(l, i);
    }
    assert forall|k: Seq<Seq<char>>| #[trigger] entries_map(l).contains_key(k) implies map_of_list(
        l,
    ).contains_key(k) by {
        lemma_map_of_list_dom(l, k);
    }
    assert(map_of_list(l) =~= entries_map(l));
}

/// Keys strictly ascend through the option run.
pub open spec fn options_sorted(opts: Seq<PathSteps>) -> bool {
    forall|a: int, b: int|
        0 <= a < b < opts.len() ==> path_le(opts[a]@, opts[b]@) && opts[a]@ != opts[b]@
}

/// The option run offers exactly the keys the mapping holds.
pub open spec fn options_match(opts: Seq<PathSteps>, m: Map<Seq<Seq<char>>, Option<File>>) -> bool {
    &&& forall|i: int| 0 <= i < opts.len() ==> m.contains_key(#[trigger] opts[i]@)
    &&& forall|k: Seq<Seq<char>>|
        #[trigger] m.contains_key(k) ==> exists|i: int| 0 <= i < opts.len() && opts[i]@ == k
}

/// Orders a run of keys lexicographically, dropping repeats.
pub fn sort_keys(keys: Vec<PathSteps>) -> (r: Vec<PathSteps>)
    ensures
        options_sorted(r@),
        forall|i: int|
            0 <= i < r@.len() ==> exists|j: int| 0 <= j < keys@.len() && keys@[j]@ == #[trigger] r@[i]@,
        forall|j: int|
            0 <= j < keys@.len() ==> exists|i: int| 0 <= i < r@.len() && r@[i]@ == #[trigger] keys@[j]@,
{
    let mut keys = keys;
    let ghost orig = keys@;
    let mut pairs: Vec<(PathSteps, Option<File>)> = Vec::new();
    proof {
        assert(orig.skip(0) =~= orig);
    }
    while keys.len() > 0
        invariant
            pairs@.len() + keys@.len() == orig.len(),
            keys@ == orig.skip(pairs@.len() as int),
            forall|i: int| 0 <= i < pairs@.len() ==> #[trigger] pairs@[i].0 == orig[i],
        decreases keys.len(),
    {
        let ghost before = pairs@.len() as int;
        let k = keys.remove(0);
        proof {
            assert(orig.skip(before)[0] == orig[before]);
            assert(orig.skip(before).remove(0) =~= orig.skip(before + 1));
        }
        pairs.push((k, None));
    }
    let ghost pairs_seq = pairs@;
    let sorted = order_dir_list(pairs);
    let ghost sorted_seq = sorted@;
    let mut sorted = sorted;
    let mut r: Vec<PathSteps> = Vec::new();
    proof {
        assert(sorted_seq.skip(0) =~= sorted_seq);
    }
    while sorted.len() > 0
        invariant
            r@.len() + sorted@.len() == sorted_seq.len(),
            sorted@ == sorted_seq.skip(r@.len() as int),
            forall|i: int| 0 <= i < r@.len() ==> #[trigger] r@[i] == sorted_seq[i].0,
        decreases sorted.len(),
    {
        let ghost before = r@.len() as int;
        let p = sorted.remove(0);
        proof {
            assert(sorted_seq.skip(before)[0] == sorted_seq[before]);
            assert(sorted_seq.skip(before).remove(0) =~= sorted_seq.skip(before + 1));
        }
        r.push(p.0);
    }
    proof {
        assert forall|a: int, b: int| 0 <= a < b < r@.len() implies path_le(r@[a]@, r@[b]@) && r@[a]@
            != r@[b]@ by {
            assert(r@[a] == sorted_seq[a].0);
            assert(r@[b] == sorted_seq[b].0);
        }
        assert forall|i: int| 0 <= i < r@.len() implies exists|j: int|
            0 <= j < orig.len() && orig[j]@ == #[trigger] r@[i]@ by {
            assert(r@[i] == sorted_seq[i].0);
            assert(has_key(sorted_seq, sorted_seq[i].0@));
            lemma_map_of_list_dom(pairs_seq, sorted_seq[i].0@);
            lemma_entries_map_at(sorted_seq, i);
            assert(map_of_list(pairs_seq).contains_key(sorted_seq[i].0@));
            assert(has_key(pairs_seq, sorted_seq[i].0@));
            let j = choose|j: int| 0 <= j < pairs_seq.len() && pairs_seq[j].0@ == sorted_seq[i].0@;
            assert(pairs_seq[j].0 == orig[j]);
            assert(orig[j]@ == r@[i]@);
        }
        assert forall|j: int| 0 <= j < orig.len() implies exists|i: int|
            0 <= i < r@.len() && r@[i]@ == #[trigger] orig[j]@ by {
            assert(pairs_seq[j].0 == orig[j]);
            assert(has_key(pairs_seq, orig[j]@));
            lemma_map_of_list_dom(pairs_seq, orig[j]@);
            assert(entries_map(sorted_seq).contains_key(orig[j]@));
            let i = choose|i: int| 0 <= i < sorted_seq.len() && sorted_seq[i].0@ == orig[j]@;
            assert(r@[i] == sorted_seq[i].0);
            assert(r@[i]@ == orig[j]@);
        }
    }
    r
}

/// What the loader leaves for one snapshot path: nothing for a
/// directory or unreadable entry, nothing for bytes that are not UTF-8,
/// and the computed views otherwise.
pub open spec fn entry_content_ok(v: Option<File>, src_path: Seq<Seq<char>>, ob: Option<Vec<u8>>) -> bool {
    match ob {
        None => v is None,
        Some(b) => if vstd::utf8::valid_utf8(b@) {
            let text = vstd::utf8::decode_utf8(b@);
            &&& v matches Some(f)
            &&& v->0.path_spec() == src_path
            &&& v->0.form_spec().standard_spec() == Some(seq![text])
            &&& v->0.form_spec().line_separation_spec() == Some(kept_segments(text))
            &&& v->0.form_spec().all_line_separation_spec() == Some(all_segments(text))
        } else {
            v is None
        },
    }
}

/// Every loaded entry's key and content come from some snapshot pair.
pub open spec fn loaded_entries_ok(
    entries: Seq<(PathSteps, Option<File>)>,
    master: Seq<Seq<char>>,
    file_list: Seq<(PathSteps, Option<Vec<u8>>)>,
) -> bool {
    forall|i: int|
        #![trigger entries[i]]
        0 <= i < entries.len() ==> exists|j: int|
            {
                &&& 0 <= j < file_list.len()
                &&& normalize_spec(master, #[trigger] file_list[j].0@) == Ok::<
                    Seq<Seq<char>>,
                    PathError,
                >(entries[i].0@)
                &&& entry_content_ok(entries[i].1, file_list[j].0@, file_list[j].1)
            }
}

/// Every snapshot pair before `upto` whose path has a key landed in the
/// loaded entries.
pub open spec fn loaded_covers_upto(
    entries: Seq<(PathSteps, Option<File>)>,
    master: Seq<Seq<char>>,
    file_list: Seq<(PathSteps, Option<Vec<u8>>)>,
    upto: int,
) -> bool {
    forall|j: int|
        0 <= j < upto && normalize_spec(master, #[trigger] file_list[j].0@) is Ok ==> has_key(
            entries,
            normalize_spec(master, file_list[j].0@)->Ok_0,
        )
}

/// Rebases every snapshot path to its cache key and decodes its bytes
/// into views. A path that cannot be rebased is dropped with a warning;
/// a file whose bytes are not UTF-8 keeps its entry with no content,
/// also with a warning.
pub fn load_dir_files(master: &PathSteps, file_list: Vec<(PathSteps, Option<Vec<u8>>)>) -> (r: (
    Vec<(PathSteps, Option<File>)>,
    Vec<Loglet>,
))
    ensures
        loaded_entries_ok(r.0@, master@, file_list@),
        loaded_covers_upto(r.0@, master@, file_list@, file_list@.len() as int),
{
    let mut work = file_list;
    let mut entries: Vec<(PathSteps, Option<File>)> = Vec::new();
    let mut logs: Vec<Loglet> = Vec::new();
    let mut processed: usize = 0;
    let n = work.len();
    proof {
        assert(file_list@.skip(0) =~= file_list@);
    }
    while processed < n
        invariant
            n == file_list@.len(),
            processed <= n,
            work@ == file_list@.skip(processed as int),
            loaded_entries_ok(entries@, master@, file_list@),
            loaded_covers_upto(entries@, master@, file_list@, processed as int),
        decreases n - processed,
    {
        let ghost pre_entries = entries@;
        let (path, bytes) = work.remove(0);
        proof {
            assert(file_list@.skip(processed as int)[0] == file_list@[processed as int]);
            assert(file_list@.skip(processed as int).remove(0) =~= file_list@.skip(
                processed + 1 as int,
            ));
        }
        match get_directory_specific_path(master, &path) {
            Err(_) => {
                logs.push(
                    Loglet::err_s(
                        String::from_str("snapshot entry dropped: its path has no key under the root"),
                    ),
                );
            },
            Ok(key) => {
                let entry: Option<File> = match bytes {
                    None => None,
                    Some(b) => match File::load_file(&path, b) {
                        Ok(f) => Some(f),
                        Err(_) => {
                            logs.push(
                                Loglet::err_s(
                                    String::from_str("file kept with no content: its bytes are not UTF-8"),
                                ),
                            );
                            None
                        },
                    },
                };
                entries.push((key, entry));
                proof {
                    let i_new = pre_entries.len() as int;
                    let jp = processed as int;
                    assert(entries@[i_new].0@ == normalize_spec(master@, file_list@[jp].0@)->Ok_0);
                    assert(entry_content_ok(entries@[i_new].1, file_list@[jp].0@, file_list@[jp].1));
                    assert(forall|i: int|
                        0 <= i < pre_entries.len() ==> entries@[i] == pre_entries[i]);
                    assert forall|i: int|
                        #![trigger entries@[i]]
                        0 <= i < entries@.len() implies exists|j: int|
                        {
                            &&& 0 <= j < file_list@.len()
                            &&& normalize_spec(master@, #[trigger] file_list@[j].0@) == Ok::<
                                Seq<Seq<char>>,
                                PathError,
                            >(entries@[i].0@)
                            &&& entry_content_ok(entries@[i].1, file_list@[j].0@, file_list@[j].1)
                        } by {
                        if i < i_new {
                            assert(pre_entries[i] == entries@[i]);
                            let j = choose|j: int|
                                {
                                    &&& 0 <= j < file_list@.len()
                                    &&& normalize_spec(master@, #[trigger] file_list@[j].0@) == Ok::<
                                        Seq<Seq<char>>,
                                        PathError,
                                    >(pre_entries[i].0@)
                                    &&& entry_content_ok(
                                        pre_entries[i].1,
                                        file_list@[j].0@,
                                        file_list@[j].1,
                                    )
                                };
                            assert(normalize_spec(master@, file_list@[j].0@) == Ok::<
                                Seq<Seq<char>>,
                                PathError,
                            >(entries@[i].0@));
                        } else {
                            assert(normalize_spec(master@, file_list@[jp].0@) == Ok::<
                                Seq<Seq<char>>,
                                PathError,
                            >(entries@[i].0@));
                        }
                    }
                    assert forall|j: int|
                        0 <= j < processed + 1 && normalize_spec(
                            master@,
                            #[trigger] file_list@[j].0@,
                        ) is Ok implies has_key(
                        entries@,
                        normalize_spec(master@, file_list@[j].0@)->Ok_0,
                    ) by {
                        if j < jp {
                            let t = choose|t: int|
                                0 <= t < pre_entries.len() && pre_entries[t].0@ == normalize_spec(
                                    master@,
                                    file_list@[j].0@,
                                )->Ok_0;
                            assert(entries@[t].0@ == normalize_spec(master@, file_list@[j].0@)->Ok_0);
                        } else {
                            assert(entries@[i_new].0@ == normalize_spec(
                                master@,
                                file_list@[j].0@,
                            )->Ok_0);
                        }
                    }
                }
            },
        }
        processed = processed + 1;
    }
    (entries, logs)
}


/// The selected key is the greatest key holding content, or the empty
/// path when no entry holds content.
pub open spec fn selection_is_greatest_file(
    m: Map<Seq<Seq<char>>, Option<File>>,
    sel: Seq<Seq<char>>,
) -> bool {
    if exists|k: Seq<Seq<char>>| #[trigger] m.contains_key(k) && m[k] is Some {
        &&& m.contains_key(sel)
        &&& m[sel] is Some
        &&& forall|k: Seq<Seq<char>>| #[trigger] m.contains_key(k) && m[k] is Some ==> path_le(k, sel)
    } else {
        sel == Seq::<Seq<char>>::empty()
    }
}

/// Every cached key traces back to a snapshot pair with the right
/// content, and every snapshot pair with a key under the root is cached.
pub open spec fn snapshot_contents_ok(
    m: Map<Seq<Seq<char>>, Option<File>>,
    master: Seq<Seq<char>>,
    file_list: Seq<(PathSteps, Option<Vec<u8>>)>,
) -> bool {
    &&& forall|k: Seq<Seq<char>>|
        #[trigger] m.contains_key(k) ==> exists|j: int|
            {
                &&& 0 <= j < file_list.len()
                &&& normalize_spec(master, #[trigger] file_list[j].0@) == Ok::<
                    Seq<Seq<char>>,
                    PathError,
                >(k)
                &&& entry_content_ok(m[k], file_list[j].0@, file_list[j].1)
            }
    &&& forall|j: int|
        0 <= j < file_list.len() && normalize_spec(master, #[trigger] file_list[j].0@) is Ok
            ==> m.contains_key(normalize_spec(master, file_list[j].0@)->Ok_0)
}

/// The consumer's side of the watch pipeline: the selection list, the
/// keyed cache, and the receiving end of the update channel.
pub struct WatchList {
    mm: ModalMachine,
    file_cache: FileCache,
    file_update_rx: tokio::sync::mpsc::Receiver<WatcherUpdate>,
}

impl WatchList {
    pub closed spec fn mm_spec(&self) -> ModalMachine {
        self.mm
    }

    pub closed spec fn cache_spec(&self) -> FileCache {
        self.file_cache
    }

    pub open spec fn wf(&self) -> bool {
        self.cache_spec().wf()
    }

    pub fn modal_machine_mut(&mut self) -> (r: &mut ModalMachine)
        ensures
            *r == old(self).mm_spec(),
            final(self).mm_spec() == *final(r),
            final(self).cache_spec() == old(self).cache_spec(),
    {
        &mut self.mm
    }

    pub fn modal_machine_ref(&self) -> (r: &ModalMachine)
        ensures
            *r == self.mm_spec(),
    {
        &self.mm
    }

    pub fn file_cache_ref(&self) -> (r: &FileCache)
        ensures
            *r == self.cache_spec(),
    {
        &self.file_cache
    }

    pub fn file_cache_mut(&mut self) -> (r: &mut FileCache)
        ensures
            *r == old(self).cache_spec(),
            final(self).cache_spec() == *final(r),
            final(self).mm_spec() == old(self).mm_spec(),
    {
        &mut self.file_cache
    }

    pub fn file_update_tx_ref(&self) -> &tokio::sync::mpsc::Receiver<WatcherUpdate> {
        &self.file_update_rx
    }

    /// Builds the watch list from one directory snapshot: the entries
    /// are keyed under the root, ordered, and seeded into the cache; the
    /// selection starts on the greatest key that holds content.
    pub fn new(
        current_dir: &PathSteps,
        name: String,
        file_list: Vec<(PathSteps, Option<Vec<u8>>)>,
        file_update_rx: tokio::sync::mpsc::Receiver<WatcherUpdate>,
    ) -> (r: (WatchList, Vec<Loglet>))
        ensures
            r.0.wf(),
            r.0.mm_spec().name_spec() == name@,
            !r.0.mm_spec().event_spec(),
            options_sorted(r.0.mm_spec().options_spec()),
            options_match(r.0.mm_spec().options_spec(), r.0.cache_spec().contents()),
            r.0.cache_spec().current_spec() == r.0.mm_spec().selected_spec(),
            selection_is_greatest_file(r.0.cache_spec().contents(), r.0.cache_spec().current_spec()),
            snapshot_contents_ok(r.0.cache_spec().contents(), current_dir@, file_list@),
    {
        let (entries, logs) = load_dir_files(current_dir, file_list);
        let ghost entries0 = entries@;
        let sorted = order_dir_list(entries);
        let ghost sorted_seq = sorted@;
        let n = sorted.len();
        let mut first = PathSteps::empty();
        let ghost mut found: Option<int> = None;
        let mut i: usize = 0;
        while i < n
            invariant
                n == sorted_seq.len(),
                sorted@ == sorted_seq,
                i <= n,
                match found {
                    None => (forall|t: int| 0 <= t < i ==> sorted_seq[t].1 is None) && first@
                        == Seq::<Seq<char>>::empty(),
                    Some(idx) => 0 <= idx < i && sorted_seq[idx].1 is Some && first@
                        == sorted_seq[idx].0@ && (forall|t: int|
                        idx < t < i ==> sorted_seq[t].1 is None),
                },
            decreases n - i,
        {
            if sorted[i].1.is_some() {
                first = sorted[i].0.duplicate();
                proof {
                    found = Some(i as int);
                }
            }
            i = i + 1;
        }
        let mut options: Vec<PathSteps> = Vec::new();
        let mut k: usize = 0;
        while k < n
            invariant
                n == sorted_seq.len(),
                sorted@ == sorted_seq,
                k <= n,
                options@.len() == k,
                forall|t: int| 0 <= t < k ==> #[trigger] options@[t]@ == sorted_seq[t].0@,
            decreases n - k,
        {
            let key = sorted[k].0.duplicate();
            options.push(key);
            k = k + 1;
        }
        let mm = ModalMachine::new(first.duplicate(), options, name);
        let file_cache = FileCache::new(current_dir.duplicate(), first, sorted);
        proof {
            lemma_unique_map_of_list(sorted_seq);
            let m = file_cache.contents();
            assert(m == entries_map(sorted_seq));
            // the selection is the greatest key with content
            match found {
                None => {
                    assert forall|key: Seq<Seq<char>>| #[trigger] m.contains_key(key) implies m[key] is None by {
                        lemma_unique_pick(sorted_seq, key);
                    }
                },
                Some(idx) => {
                    lemma_entries_map_at(sorted_seq, idx);
                    assert forall|key: Seq<Seq<char>>|
                        #[trigger] m.contains_key(key) && m[key] is Some implies path_le(
                        key,
                        first@,
                    ) by {
                        lemma_unique_pick(sorted_seq, key);
                        let t = choose|t: int|
                            0 <= t < sorted_seq.len() && sorted_seq[t].0@ == key;
                        assert(sorted_seq[t].1 is Some);
                        assert(t <= idx);
                        if t == idx {
                            lemma_path_le_refl(key);
                        }
                    }
                },
            }
            // the options offer exactly the cached keys
            assert forall|t: int| 0 <= t < mm.options_spec().len() implies m.contains_key(
                #[trigger] mm.options_spec()[t]@,
            ) by {
                assert(mm.options_spec()[t]@ == sorted_seq[t].0@);
                assert(has_key(sorted_seq, sorted_seq[t].0@));
            }
            assert forall|key: Seq<Seq<char>>| #[trigger] m.contains_key(key) implies exists|t: int|
                0 <= t < mm.options_spec().len() && mm.options_spec()[t]@ == key by {
                let t = choose|t: int| 0 <= t < sorted_seq.len() && sorted_seq[t].0@ == key;
                assert(mm.options_spec()[t]@ == key);
            }
            // the cache holds exactly what the snapshot gave
            assert forall|key: Seq<Seq<char>>| #[trigger] m.contains_key(key) implies exists|j: int|
                {
                    &&& 0 <= j < file_list@.len()
                    &&& normalize_spec(current_dir@, #[trigger] file_list@[j].0@) == Ok::<
                        Seq<Seq<char>>,
                        PathError,
                    >(key)
                    &&& entry_content_ok(m[key], file_list@[j].0@, file_list@[j].1)
                } by {
                lemma_map_of_list_dom(entries0, key);
                lemma_map_of_list_value(entries0, key);
                let i0 = choose|i0: int|
                    0 <= i0 < entries0.len() && entries0[i0].0@ == key && map_of_list(entries0)[key]
                        == entries0[i0].1;
                assert(entries0[i0] == entries0[i0]);
                let j = choose|j: int|
                    {
                        &&& 0 <= j < file_list@.len()
                        &&& normalize_spec(current_dir@, #[trigger] file_list@[j].0@) == Ok::<
                            Seq<Seq<char>>,
                            PathError,
                        >(entries0[i0].0@)
                        &&& entry_content_ok(entries0[i0].1, file_list@[j].0@, file_list@[j].1)
                    };
                assert(m[key] == entries0[i0].1);
            }
            assert forall|j: int|
                0 <= j < file_list@.len() && normalize_spec(
                    current_dir@,
                    #[trigger] file_list@[j].0@,
                ) is Ok implies m.contains_key(normalize_spec(current_dir@, file_list@[j].0@)->Ok_0) by {
                lemma_map_of_list_dom(entries0, normalize_spec(current_dir@, file_list@[j].0@)->Ok_0);
            }
        }
        (WatchList { mm, file_cache, file_update_rx }, logs)
    }

    /// Rebuilds the selection list from the cache's current key set.
    fn refresh_options(&mut self)
        requires
            old(self).wf(),
        ensures
            final(self).wf(),
            final(self).cache_spec() == old(self).cache_spec(),
            final(self).mm_spec().selected_spec() == old(self).mm_spec().selected_spec(),
            final(self).mm_spec().name_spec() == old(self).mm_spec().name_spec(),
            final(self).mm_spec().event_spec() == old(self).mm_spec().event_spec(),
            options_sorted(final(self).mm_spec().options_spec()),
            options_match(final(self).mm_spec().options_spec(), final(self).cache_spec().contents()),
    {
        let keys = self.file_cache.keys();
        let ghost keys_seq = keys@;
        let ghost entries = self.file_cache.entries_spec();
        let opts = sort_keys(keys);
        proof {
            let m = self.file_cache.contents();
            assert forall|t: int| 0 <= t < opts@.len() implies m.contains_key(
                #[trigger] opts@[t]@,
            ) by {
                let j = choose|j: int| 0 <= j < keys_seq.len() && keys_seq[j]@ == opts@[t]@;
                assert(keys_seq[j]@ == entries[j].0@);
                assert(has_key(entries, opts@[t]@));
            }
            assert forall|key: Seq<Seq<char>>| #[trigger] m.contains_key(key) implies exists|t: int|
                0 <= t < opts@.len() && opts@[t]@ == key by {
                let j = choose|j: int| 0 <= j < entries.len() && entries[j].0@ == key;
                assert(keys_seq[j]@ == key);
                let t = choose|t: int| 0 <= t < opts@.len() && opts@[t]@ == keys_seq[j]@;
                assert(opts@[t]@ == key);
            }
        }
        self.mm.replace_options(opts);
    }

    /// Applies one update message to the cache. A message whose paths
    /// cannot be rebased under the current root is dropped and reported:
    /// a late message for a replaced root changes nothing. A rename or
    /// removal that touches the cache also rebuilds the selection list;
    /// the selected key is never rebound by a rename.
    pub fn apply_update(&mut self, watcher_update: WatcherUpdate, master_path_pb: &PathSteps) -> (r:
        Option<Loglet>)
        requires
            old(self).wf(),
        ensures
            final(self).wf(),
            final(self).mm_spec().name_spec() == old(self).mm_spec().name_spec(),
            final(self).mm_spec().selected_spec() == old(self).mm_spec().selected_spec(),
            final(self).mm_spec().event_spec() == old(self).mm_spec().event_spec(),
            final(self).cache_spec().current_spec() == old(self).cache_spec().current_spec(),
            r matches Some(l) ==> l.kind_spec() == "Error"@,
            match watcher_update {
                WatcherUpdate::FileContent(file) => match normalize_spec(
                    master_path_pb@,
                    file.path_spec(),
                ) {
                    Ok(key) => {
                        &&& r is None
                        &&& final(self).cache_spec().contents() == if old(
                            self,
                        ).cache_spec().contents().contains_key(key) {
                            old(self).cache_spec().contents().insert(key, Some(file))
                        } else {
                            old(self).cache_spec().contents()
                        }
                        &&& final(self).mm_spec().options_spec() == old(
                            self,
                        ).mm_spec().options_spec()
                    },
                    Err(_) => {
                        &&& r is Some
                        &&& final(self).cache_spec() == old(self).cache_spec()
                        &&& final(self).mm_spec() == old(self).mm_spec()
                    },
                },
                WatcherUpdate::FileRename(ev) => {
                    if normalize_spec(master_path_pb@, ev.from_spec()) is Ok && normalize_spec(
                        master_path_pb@,
                        ev.to_spec(),
                    ) is Ok {
                        let from = normalize_spec(master_path_pb@, ev.from_spec())->Ok_0;
                        let to = normalize_spec(master_path_pb@, ev.to_spec())->Ok_0;
                        &&& r is None
                        &&& if old(self).cache_spec().contents().contains_key(from) {
                            &&& final(self).cache_spec().contents() == old(
                                self,
                            ).cache_spec().contents().remove(from).insert(
                                to,
                                old(self).cache_spec().contents()[from],
                            )
                            &&& options_sorted(final(self).mm_spec().options_spec())
                            &&& options_match(
                                final(self).mm_spec().options_spec(),
                                final(self).cache_spec().contents(),
                            )
                        } else {
                            &&& final(self).cache_spec().contents() == old(
                                self,
                            ).cache_spec().contents()
                            &&& final(self).mm_spec().options_spec() == old(
                                self,
                            ).mm_spec().options_spec()
                        }
                    } else {
                        &&& r is Some
                        &&& final(self).cache_spec() == old(self).cache_spec()
                        &&& final(self).mm_spec() == old(self).mm_spec()
                    }
                },
                WatcherUpdate::FileDelete(deleted_path) => match normalize_spec(
                    master_path_pb@,
                    deleted_path@,
                ) {
                    Ok(key) => {
                        &&& r is None
                        &&& final(self).cache_spec().contents() == old(
                            self,
                        ).cache_spec().contents().remove(key)
                        &&& if old(self).cache_spec().contents().contains_key(key) {
                            options_sorted(final(self).mm_spec().options_spec()) && options_match(
                                final(self).mm_spec().options_spec(),
                                final(self).cache_spec().contents(),
                            )
                        } else {
                            final(self).mm_spec().options_spec() == old(
                                self,
                            ).mm_spec().options_spec()
                        }
                    },
                    Err(_) => {
                        &&& r is Some
                        &&& final(self).cache_spec() == old(self).cache_spec()
                        &&& final(self).mm_spec() == old(self).mm_spec()
                    },
                },
            },
    {
        match watcher_update {
            WatcherUpdate::FileContent(file) => {
                let path = file.get_path_ref().duplicate();
                match get_directory_specific_path(master_path_pb, &path) {
                    Ok(key) => {
                        let _ = self.file_cache.apply_content_update(&key, file);
                        None
                    },
                    Err(_) => Some(
                        Loglet::err_s(
                            String::from_str("content update dropped: path not under the watch root"),
                        ),
                    ),
                }
            },
            WatcherUpdate::FileRename(ev) => {
                let (from_abs, to_abs) = ev.from_and_to_ref();
                let from_res = get_directory_specific_path(master_path_pb, from_abs);
                let to_res = get_directory_specific_path(master_path_pb, to_abs);
                match (from_res, to_res) {
                    (Ok(from_key), Ok(to_key)) => {
                        let renamed = self.file_cache.apply_rename(&from_key, &to_key);
                        if renamed {
                            self.refresh_options();
                        }
                        None
                    },
                    _ => Some(
                        Loglet::err_s(
                            String::from_str("rename dropped: a path is not under the watch root"),
                        ),
                    ),
                }
            },
            WatcherUpdate::FileDelete(deleted_path) => {
                match get_directory_specific_path(master_path_pb, &deleted_path) {
                    Ok(key) => {
                        let removed = self.file_cache.remove_entry(&key);
                        if removed {
                            self.refresh_options();
                        }
                        None
                    },
                    Err(_) => Some(
                        Loglet::err_s(
                            String::from_str("removal dropped: path not under the watch root"),
                        ),
                    ),
                }
            },
        }
    }

    /// Drains the update channel without blocking: every queued message
    /// is applied in arrival order, and what each dropped message left
    /// behind is returned for the log. The counter only bounds the loop
    /// formally; the drain stops when the channel reports empty.
    pub fn handle_updates(&mut self, master_path_pb: &PathSteps) -> (r: Vec<Loglet>)
        requires
            old(self).wf(),
        ensures
            final(self).wf(),
            final(self).mm_spec().name_spec() == old(self).mm_spec().name_spec(),
            final(self).mm_spec().selected_spec() == old(self).mm_spec().selected_spec(),
            final(self).cache_spec().current_spec() == old(self).cache_spec().current_spec(),
    {
        let mut logs: Vec<Loglet> = Vec::new();
        let mut fuel: usize = usize::MAX;
        while fuel > 0
            invariant
                self.wf(),
                self.mm_spec().name_spec() == old(self).mm_spec().name_spec(),
                self.mm_spec().selected_spec() == old(self).mm_spec().selected_spec(),
                self.cache_spec().current_spec() == old(self).cache_spec().current_spec(),
            decreases fuel,
        {
            match crate::live_watch::watcher_keep::try_recv_update(&mut self.file_update_rx) {
                crate::live_watch::watcher_keep::RecvOutcome::Update(u) => {
                    match self.apply_update(u, master_path_pb) {
                        Some(l) => logs.push(l),
                        None => {},
                    }
                },
                crate::live_watch::watcher_keep::RecvOutcome::Empty => {
                    return logs;
                },
                crate::live_watch::watcher_keep::RecvOutcome::Closed => {
                    logs.push(Loglet::err_s(String::from_str("update channel closed")));
                    return logs;
                },
            }
            fuel = fuel - 1;
        }
        logs
    }
}

} // verus!
