//! Grouping per-frame pitch estimates into notes, by pitch changes or
//! between detected onsets, and recognizing slides in the pitch contour.

use vstd::prelude::*;

verus! {

/// A run of consecutive analysis frames `start..end` that all carry `pitch`.
#[derive(Debug, Clone, Copy, PartialEq, Eq, Structural)]
pub struct NoteSegment {
    pub pitch: u8,
    pub start: usize,
    pub end: usize,
}

/// `seg` is a maximal run of frames with the same pitch: nonempty, every
/// frame in it has its pitch, and the frames just outside it do not.
pub open spec fn maximal_run(frames: Seq<Option<u8>>, seg: NoteSegment) -> bool {
    &&& seg.start < seg.end <= frames.len()
    &&& forall|q: int| seg.start <= q < seg.end ==> #[trigger] frames[q] == Some(seg.pitch)
    &&& seg.start == 0 || frames[seg.start - 1] != Some(seg.pitch)
    &&& seg.end == frames.len() || frames[seg.end as int] != Some(seg.pitch)
}

/// Whether frame `q` lies in one of the segments.
pub open spec fn covered(segs: Seq<NoteSegment>, q: int) -> bool {
    exists|i: int| 0 <= i < segs.len() && (#[trigger] segs[i]).start <= q < segs[i].end
}

/// Splits the frame sequence into its maximal runs of equal detected pitch,
/// in order: a note starts where a pitch appears and ends where the pitch
/// changes or disappears. Unpitched frames belong to no note.
pub fn segment_frames(frames: &[Option<u8>]) -> (segs: Vec<NoteSegment>)
    ensures
        forall|i: int| 0 <= i < segs.len() ==> maximal_run(frames@, #[trigger] segs@[i]),
        forall|i: int, j: int| 0 <= i < j < segs.len() ==> segs@[i].end <= segs@[j].start,
        forall|q: int| 0 <= q < frames.len() && (#[trigger] frames@[q]) is Some ==> covered(segs@, q),
{
    let n = frames.len();
    let mut segs: Vec<NoteSegment> = Vec::new();
    let mut current: Option<(u8, usize)> = None;
    let mut k: usize = 0;
    while k < n
        invariant
            n == frames.len(),
            k <= n,
            forall|i: int|
                0 <= i < segs.len() ==> maximal_run(frames@, #[trigger] segs@[i]) && segs@[i].end < k,
            forall|i: int, j: int| 0 <= i < j < segs.len() ==> segs@[i].end <= segs@[j].start,
            match current {
                Some((p, s)) => {
                    &&& s < k
                    &&& (forall|q: int| s <= q < k ==> #[trigger] frames@[q] == Some(p))
                    &&& (s == 0 || frames@[s - 1] != Some(p))
                    &&& (forall|i: int| 0 <= i < segs.len() ==> (#[trigger] segs@[i]).end <= s)
                    &&& (forall|q: int|
                        0 <= q < s && (#[trigger] frames@[q]) is Some ==> covered(segs@, q))
                },
                None => {
                    &&& (k == 0 || frames@[k - 1] is None)
                    &&& (forall|q: int| 0 <= q < k && (#[trigger] frames@[q]) is Some ==> covered(segs@, q))
                },
            },
        decreases n - k,
    {
        let frame = frames[k];
        match current {
            Some((p, s)) => {
                match frame {
                    Some(m) => {
                        if m == p {
                        } else {
                            let ghost old_segs = segs@;
                            segs.push(NoteSegment { pitch: p, start: s, end: k });
                            proof {
                                assert forall|q: int| 0 <= q < k && (#[trigger] frames@[q]) is Some implies covered(segs@, q) by {
                                    if q < s {
                                        let i = choose|i: int| 0 <= i < old_segs.len() && (#[trigger] old_segs[i]).start <= q < old_segs[i].end;
                                        assert(segs@[i] == old_segs[i]);
                                    } else {
                                        assert(segs@[old_segs.len() as int].start <= q < segs@[old_segs.len() as int].end);
                                    }
                                }
                            }
                            current = Some((m, k));
                        }
                    },
                    None => {
                        let ghost old_segs = segs@;
                        segs.push(NoteSegment { pitch: p, start: s, end: k });
                        proof {
                            assert forall|q: int| 0 <= q < k + 1 && (#[trigger] frames@[q]) is Some implies covered(segs@, q) by {
                                if q < s {
                                    let i = choose|i: int| 0 <= i < old_segs.len() && (#[trigger] old_segs[i]).start <= q < old_segs[i].end;
                                    assert(segs@[i] == old_segs[i]);
                                } else {
                                    assert(segs@[old_segs.len() as int].start <= q < segs@[old_segs.len() as int].end);
                                }
                            }
                        }
                        current = None;
                    },
                }
            },
            None => {
                match frame {
                    Some(m) => {
                        current = Some((m, k));
                    },
                    None => {},
                }
            },
        }
        k = k + 1;
    }
    match current {
        Some((p, s)) => {
            let ghost old_segs = segs@;
            segs.push(NoteSegment { pitch: p, start: s, end: n });
            proof {
                assert forall|q: int| 0 <= q < n && (#[trigger] frames@[q]) is Some implies covered(segs@, q) by {
                    if q < s {
                        let i = choose|i: int| 0 <= i < old_segs.len() && (#[trigger] old_segs[i]).start <= q < old_segs[i].end;
                        assert(segs@[i] == old_segs[i]);
                    } else {
                        assert(segs@[old_segs.len() as int].start <= q < segs@[old_segs.len() as int].end);
                    }
                }
            }
        },
        None => {},
    }
    segs
}


// ---------------------------------------------------------------------------
// Segmentation at onsets.
// ---------------------------------------------------------------------------

/// Number of occurrences of `p` in `s`.
pub open spec fn pitch_count(s: Seq<u8>, p: u8) -> nat
    decreases s.len(),
{
    if s.len() == 0 {
        0
    } else {
        pitch_count(s.drop_last(), p) + if s.last() == p {
            1nat
        } else {
            0nat
        }
    }
}

/// `p` is the predominant pitch of `s`: it occurs, no pitch occurs more
/// often, and every lower pitch occurs less often (a tie goes to the lowest).
pub open spec fn is_predominant(s: Seq<u8>, p: u8) -> bool {
    &&& pitch_count(s, p) > 0
    &&& forall|q: u8| #[trigger] pitch_count(s, q) <= pitch_count(s, p)
    &&& forall|q: u8| q < p ==> #[trigger] pitch_count(s, q) < pitch_count(s, p)
}

/// The detected pitches of a run of frames, in order, unpitched frames left out.
pub open spec fn pitched_values(frames: Seq<Option<u8>>) -> Seq<u8>
    decreases frames.len(),
{
    if frames.len() == 0 {
        Seq::empty()
    } else {
        let rest = pitched_values(frames.drop_last());
        match frames.last() {
            Some(p) => rest.push(p),
            None => rest,
        }
    }
}

proof fn lemma_count_step(s: Seq<u8>, i: int, p: u8)
    requires
        0 <= i < s.len(),
    ensures
        pitch_count(s.subrange(0, i + 1), p) == pitch_count(s.subrange(0, i), p) + if s[i] == p {
            1nat
        } else {
            0nat
        },
{
    assert(s.subrange(0, i + 1).drop_last() =~= s.subrange(0, i));
}

proof fn lemma_count_positive(s: Seq<u8>, k: int)
    requires
        0 <= k < s.len(),
    ensures
        pitch_count(s, s[k]) > 0,
    decreases s.len(),
{
    if k < s.len() - 1 {
        lemma_count_positive(s.drop_last(), k);
    }
}

/// The most frequent pitch among `pitched`, the lowest one on a tie.
pub fn predominant_pitch(pitched: &[u8]) -> (p: u8)
    requires
        pitched.len() > 0,
    ensures
        is_predominant(pitched@, p),
{
    let n = pitched.len();
    let mut counts: Vec<usize> = Vec::new();
    let mut v: usize = 0;
    while v < 256
        invariant
            v <= 256,
            counts.len() == v,
            forall|w: int| 0 <= w < v ==> counts@[w] == 0,
        decreases 256 - v,
    {
        counts.push(0);
        v = v + 1;
    }
    let mut i: usize = 0;
    while i < n
        invariant
            n == pitched.len(),
            i <= n,
            counts.len() == 256,
            forall|w: u8| counts@[w as int] == pitch_count(pitched@.subrange(0, i as int), w),
            forall|w: int| 0 <= w < 256 ==> counts@[w] <= i,
        decreases n - i,
    {
        let x = pitched[i];
        let c = counts[x as usize];
        counts.set(x as usize, c + 1);
        proof {
            assert forall|w: u8| counts@[w as int] == pitch_count(pitched@.subrange(0, i + 1), w) by {
                lemma_count_step(pitched@, i as int, w);
            }
        }
        i = i + 1;
    }
    assert(pitched@.subrange(0, n as int) =~= pitched@);
    let mut best: u8 = 0;
    let mut best_count: usize = counts[0];
    let mut v: usize = 1;
    while v < 256
        invariant
            1 <= v <= 256,
            counts.len() == 256,
            forall|w: u8| counts@[w as int] == pitch_count(pitched@, w),
            (best as int) < v,
            best_count == counts@[best as int],
            forall|w: u8| (w as int) < v ==> #[trigger] pitch_count(pitched@, w) <= best_count,
            forall|w: u8| w < best ==> #[trigger] pitch_count(pitched@, w) < best_count,
        decreases 256 - v,
    {
        let c = counts[v];
        if c > best_count {
            best = v as u8;
            best_count = c;
        }
        proof {
            assert(counts@[(v as u8) as int] == pitch_count(pitched@, v as u8));
        }
        v = v + 1;
    }
    proof {
        lemma_count_positive(pitched@, 0);
        assert(pitch_count(pitched@, pitched@[0]) <= best_count);
    }
    best
}

/// The pitch of the note between two onsets: the predominant pitch of the
/// frames `start..end`, or `None` when none of them is pitched.
pub fn window_pitch(frames: &[Option<u8>], start: usize, end: usize) -> (p: Option<u8>)
    requires
        start <= end <= frames.len(),
    ensures
        match p {
            None => pitched_values(frames@.subrange(start as int, end as int)).len() == 0,
            Some(q) => is_predominant(pitched_values(frames@.subrange(start as int, end as int)), q),
        },
{
    let mut vals: Vec<u8> = Vec::new();
    let mut k: usize = start;
    while k < end
        invariant
            start <= k <= end <= frames.len(),
            vals@ == pitched_values(frames@.subrange(start as int, k as int)),
        decreases end - k,
    {
        proof {
            assert(frames@.subrange(start as int, k + 1).drop_last() =~= frames@.subrange(start as int, k as int));
        }
        match frames[k] {
            Some(m) => vals.push(m),
            None => {},
        }
        k = k + 1;
    }
    if vals.len() == 0 {
        None
    } else {
        Some(predominant_pitch(vals.as_slice()))
    }
}

// ---------------------------------------------------------------------------
// Slides.
// ---------------------------------------------------------------------------

/// Each step of `t` moves toward the target: never down when ascending,
/// never up when descending.
pub open spec fn steps_toward(t: Seq<u8>, ascending: bool) -> bool {
    forall|a: int, b: int|
        #![trigger t[a], t[b]]
        0 <= a && b == a + 1 && b < t.len() ==> if ascending {
            t[a] <= t[b]
        } else {
            t[a] >= t[b]
        }
}

/// The pitch frames `t` between a note of pitch `prev` and the next note of
/// pitch `curr` show a slide: the pitches differ, at least three frames
/// were pitched, the contour moves monotonically from `prev` toward `curr`,
/// and passes through some pitch other than the two.
pub open spec fn slide_contour(prev: u8, curr: u8, t: Seq<u8>) -> bool {
    &&& prev != curr
    &&& t.len() >= 3
    &&& steps_toward(t, prev < curr)
    &&& exists|k: int| 0 <= k < t.len() && #[trigger] t[k] != prev && t[k] != curr
}

/// Whether the pitch contour `transition` between a note of pitch `prev` and
/// a note of pitch `curr` makes the second note a slide.
pub fn is_slide_transition(prev: u8, curr: u8, transition: &[u8]) -> (b: bool)
    ensures
        b == slide_contour(prev, curr, transition@),
        prev == curr ==> !b,
        transition.len() < 3 ==> !b,
{
    let n = transition.len();
    if prev == curr || n < 3 {
        return false;
    }
    let ascending = prev < curr;
    let mut i: usize = 1;
    while i < n
        invariant
            n == transition.len(),
            1 <= i <= n,
            ascending == (prev < curr),
            forall|a: int, b: int|
                #![trigger transition@[a], transition@[b]]
                0 <= a && b == a + 1 && b < i ==> if ascending {
                    transition@[a] <= transition@[b]
                } else {
                    transition@[a] >= transition@[b]
                },
        decreases n - i,
    {
        let x = transition[i - 1];
        let y = transition[i];
        if (ascending && y < x) || (!ascending && y > x) {
            assert(!steps_toward(transition@, ascending)) by {
                assert(transition@[i - 1] == x && transition@[i as int] == y);
            }
            return false;
        }
        i = i + 1;
    }
    assert(steps_toward(transition@, ascending));
    let mut k: usize = 0;
    while k < n
        invariant
            n == transition.len(),
            n >= 3,
            prev != curr,
            ascending == (prev < curr),
            steps_toward(transition@, ascending),
            k <= n,
            forall|j: int| 0 <= j < k ==> #[trigger] transition@[j] == prev || transition@[j] == curr,
        decreases n - k,
    {
        let p = transition[k];
        if p != prev && p != curr {
            assert(transition@[k as int] != prev && transition@[k as int] != curr);
            return true;
        }
        k = k + 1;
    }
    false
}

/// Two consecutive notes of the same pitch are never a slide, whatever the
/// contour between them; nor is a contour of fewer than three pitched frames.
pub proof fn lemma_slide_needs_pitch_change(p: u8, q: u8, t: Seq<u8>)
    ensures
        !slide_contour(p, p, t),
        t.len() < 3 ==> !slide_contour(p, q, t),
{
}

/// A slide's contour runs from its first frame to its last in the direction
/// of the pitch change, passing a pitch other than the two notes'.
pub proof fn lemma_slide_direction(prev: u8, curr: u8, t: Seq<u8>)
    requires
        slide_contour(prev, curr, t),
    ensures
        prev < curr ==> t[0] <= t[t.len() - 1],
        prev > curr ==> t[0] >= t[t.len() - 1],
        exists|k: int| 0 <= k < t.len() && #[trigger] t[k] != prev && t[k] != curr,
{
    lemma_steps_reach(t, prev < curr, t.len() - 1);
}

proof fn lemma_steps_reach(t: Seq<u8>, ascending: bool, j: int)
    requires
        steps_toward(t, ascending),
        0 <= j < t.len(),
    ensures
        ascending ==> t[0] <= t[j],
        !ascending ==> t[0] >= t[j],
    decreases j,
{
    if j > 0 {
        lemma_steps_reach(t, ascending, j - 1);
        assert(ascending ==> t[j - 1] <= t[j]);
        assert(!ascending ==> t[j - 1] >= t[j]);
    }
}

/// Read backwards, a slide from `prev` to `curr` is a slide from `curr` to
/// `prev`: the test does not depend on the direction of the slide.
pub proof fn lemma_slide_reversal(prev: u8, curr: u8, t: Seq<u8>)
    ensures
        slide_contour(prev, curr, t) == slide_contour(curr, prev, t.reverse()),
{
    let r = t.reverse();
    let n = t.len() as int;
    if prev != curr {
        let asc = prev < curr;
        assert(steps_toward(t, asc) == steps_toward(r, !asc)) by {
            if steps_toward(t, asc) {
                assert forall|a: int, b: int| 0 <= a && b == a + 1 && b < r.len() implies (if !asc {
                    r[a] <= r[b]
                } else {
                    r[a] >= r[b]
                }) by {
                    assert(r[a] == t[n - 1 - a] && r[b] == t[n - 1 - b]);
                    assert(t[n - 1 - b] == t[n - 2 - a]);
                }
            }
            if steps_toward(r, !asc) {
                assert forall|a: int, b: int| 0 <= a && b == a + 1 && b < t.len() implies (if asc {
                    t[a] <= t[b]
                } else {
                    t[a] >= t[b]
                }) by {
                    assert(r[n - 1 - b] == t[b] && r[n - 1 - a] == t[a]);
                }
            }
        }
        if exists|k: int| 0 <= k < t.len() && #[trigger] t[k] != prev && t[k] != curr {
            let k = choose|k: int| 0 <= k < t.len() && #[trigger] t[k] != prev && t[k] != curr;
            assert(r[n - 1 - k] == t[k]);
        }
        if exists|k: int| 0 <= k < r.len() && #[trigger] r[k] != curr && r[k] != prev {
            let k = choose|k: int| 0 <= k < r.len() && #[trigger] r[k] != curr && r[k] != prev;
            assert(t[n - 1 - k] == r[k]);
        }
        assert((curr < prev) == !asc);
    }
}

} // verus!
