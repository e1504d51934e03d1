//! Start-of-marker search. The first input line is read as a stream of
//! atomic text units (grapheme clusters); the answer is the 1-based
//! position of the unit at which the last `w` units are pairwise
//! distinct for the first time, with `w` 4 in part one and 14 in part
//! two, or 0 when no such window exists.

use vstd::prelude::*;

use unicode_segmentation::UnicodeSegmentation;

use crate::errors::PuzzleError;
use crate::text;

verus! {

/// The grapheme clusters of a sequence of characters, each given as
/// its own character sequence, in order.
pub uninterp spec fn grapheme_split(s: Seq<char>) -> Seq<Seq<char>>;

/// The views of a sequence of strings.
pub open spec fn strs_view(v: Seq<String>) -> Seq<Seq<char>> {
    v.map_values(|x: String| x@)
}

/// Relies on unicode_segmentation's graphemes: the extended grapheme
/// clusters of the string built from exactly these characters, in
/// order; a function of the characters alone.
#[verifier::external_body]
fn graphemes_of(chars: &Vec<char>) -> (r: Vec<String>)
    ensures
        strs_view(r@) == grapheme_split(chars@),
{
    let s: String = chars.iter().collect();
    s.graphemes(true).map(|g| g.to_string()).collect()
}

/// Whether the units are pairwise distinct.
pub open spec fn distinct_units(u: Seq<Seq<char>>) -> bool {
    forall|i: int, j: int| 0 <= i < j < u.len() ==> u[i] != u[j]
}

/// Whether position `p` (1-based, counted in units) closes a window of
/// `w` pairwise distinct units.
pub open spec fn marker_at(u: Seq<Seq<char>>, w: int, p: int) -> bool {
    w <= p <= u.len() && distinct_units(u.subrange(p - w, p))
}

/// The least marker position at or after `p`, or 0 if there is none.
pub open spec fn first_marker_pos(u: Seq<Seq<char>>, w: int, p: int) -> int
    decreases u.len() - p + 1,
        when p >= 0
{
    if p > u.len() {
        0
    } else if marker_at(u, w, p) {
        p
    } else {
        first_marker_pos(u, w, p + 1)
    }
}

/// What a nonzero search result means: the least marker position in
/// the searched range.
pub proof fn lemma_first_marker_pos_sound(u: Seq<Seq<char>>, w: int, q: int)
    requires
        0 <= q,
    ensures
        ({
            let p = first_marker_pos(u, w, q);
            p != 0 ==> q <= p && marker_at(u, w, p) && (forall|r: int|
                q <= r < p ==> !marker_at(u, w, r))
        }),
    decreases u.len() - q + 1,
{
    if q > u.len() {
    } else if marker_at(u, w, q) {
    } else {
        lemma_first_marker_pos_sound(u, w, q + 1);
    }
}

/// If `p` is a marker position and nothing before it (from `q` on) is,
/// the search from `q` finds exactly `p`.
proof fn lemma_first_marker_pos_eq(u: Seq<Seq<char>>, w: int, q: int, p: int)
    requires
        0 <= q <= p,
        marker_at(u, w, p),
        p != 0,
        forall|r: int| q <= r < p ==> !marker_at(u, w, r),
    ensures
        first_marker_pos(u, w, q) == p,
    decreases p - q,
{
    if q < p {
        lemma_first_marker_pos_eq(u, w, q + 1, p);
    }
}

/// If no marker position exists at all, the search reports 0.
proof fn lemma_first_marker_pos_none(u: Seq<Seq<char>>, w: int, q: int)
    requires
        0 <= q,
        forall|r: int| !marker_at(u, w, r),
    ensures
        first_marker_pos(u, w, q) == 0,
    decreases u.len() - q + 1,
{
    if q <= u.len() {
        lemma_first_marker_pos_none(u, w, q + 1);
    }
}

/// A found marker is never earlier than the window size, and the `w`
/// units ending at it are pairwise distinct.
pub proof fn lemma_marker_window_distinct(u: Seq<Seq<char>>, w: int)
    requires
        w >= 1,
        first_marker_pos(u, w, w) > 0,
    ensures
        first_marker_pos(u, w, w) >= w,
        distinct_units(
            u.subrange(first_marker_pos(u, w, w) - w, first_marker_pos(u, w, w)),
        ),
{
    lemma_first_marker_pos_sound(u, w, w);
}

/// Index of the first unit of `window` equal to `x`, if any.
fn find_in_window(window: &Vec<String>, x: &String) -> (r: Option<usize>)
    ensures
        match r {
            Some(k) => k < window@.len() && window@[k as int]@ == x@ && (forall|l: int|
                0 <= l < k ==> window@[l]@ != x@),
            None => forall|l: int| 0 <= l < window@.len() ==> window@[l]@ != x@,
        },
{
    let mut j: usize = 0;
    while j < window.len()
        invariant
            j <= window.len(),
            forall|l: int| 0 <= l < j ==> window@[l]@ != x@,
        decreases window.len() - j,
    {
        if window[j].eq(x) {
            return Some(j);
        }
        j += 1;
    }
    None
}

/// The position at which the last `w` units first become pairwise
/// distinct, scanning left to right with a window that evicts through
/// the first occurrence of a repeated unit.
pub fn find_marker(units: &Vec<String>, w: usize) -> (r: Option<usize>)
    requires
        w >= 1,
    ensures
        match r {
            Some(p) => 1 <= p && first_marker_pos(strs_view(units@), w as int, w as int)
                == p as int,
            None => first_marker_pos(strs_view(units@), w as int, w as int) == 0,
        },
{
    let ghost us = strs_view(units@);
    let mut window: Vec<String> = Vec::new();
    let mut i: usize = 0;
    let ghost mut start: int = 0;
    proof {
        assert(strs_view(window@) =~= us.subrange(0, 0));
    }
    while i < units.len()
        invariant
            i <= units.len(),
            us == strs_view(units@),
            w >= 1,
            0 <= start <= i,
            window@.len() == i - start,
            window@.len() < w,
            strs_view(window@) == us.subrange(start, i as int),
            distinct_units(us.subrange(start, i as int)),
            start > 0 ==> us.subrange(start, i as int).contains(us[start - 1]),
            forall|q: int| q <= i ==> !marker_at(us, w as int, q),
        decreases units.len() - i,
    {
        let x = &units[i];
        proof {
            assert(us[i as int] == units@[i as int]@);
        }
        let hit = find_in_window(&window, x);
        match hit {
            None => {
                window.push(x.clone());
                proof {
                    assert(strs_view(window@) =~= us.subrange(start, i as int + 1)) by {
                        let wv = strs_view(window@);
                        let sv = us.subrange(start, i as int + 1);
                        assert(wv.len() == sv.len());
                        assert forall|k: int| 0 <= k < wv.len() implies wv[k] == sv[k] by {
                            if k < wv.len() - 1 {
                                assert(wv[k] == strs_view(window@.drop_last())[k]);
                            }
                        }
                    }
                    assert forall|a: int, b: int|
                        start <= a < b < i + 1 implies us[a] != us[b] by {
                        if b < i {
                            assert(us.subrange(start, i as int)[a - start] == us[a]);
                            assert(us.subrange(start, i as int)[b - start] == us[b]);
                        } else {
                            // the new unit differs from every window unit
                            assert(us.subrange(start, i as int)[a - start] == us[a]);
                            let k = a - start;
                            assert(window@[k]@ != units@[i as int]@);
                        }
                    }
                    assert(distinct_units(us.subrange(start, i as int + 1)));
                }
                if window.len() == w {
                    proof {
                        assert(us.subrange(start, i as int + 1) =~= us.subrange(
                            i as int + 1 - w,
                            i as int + 1,
                        ));
                        assert(marker_at(us, w as int, i as int + 1));
                        lemma_first_marker_pos_eq(us, w as int, w as int, i as int + 1);
                    }
                    return Some(i + 1);
                }
                proof {
                    if start > 0 {
                        let old_win = us.subrange(start, i as int);
                        let new_win = us.subrange(start, i as int + 1);
                        let k = choose|k: int|
                            0 <= k < old_win.len() && old_win[k] == us[start - 1];
                        assert(new_win[k] == old_win[k]);
                        assert(new_win.contains(us[start - 1]));
                    }
                    assert forall|q: int| q <= i + 1 implies !marker_at(
                        us,
                        w as int,
                        q,
                    ) by {
                        if q == i + 1 && w <= q <= us.len() {
                            // the window is shorter than w, so the unit just
                            // before it repeats inside the w-unit window
                            assert(start > 0);
                            let win = us.subrange(start, i as int + 1);
                            let k = choose|k: int|
                                0 <= k < win.len() && win[k] == us[start - 1];
                            let sub = us.subrange(q - w, q);
                            assert(sub[start - 1 - (q - w)] == us[start - 1]);
                            assert(sub[start + k - (q - w)] == win[k]);
                            assert(!distinct_units(sub));
                        }
                    }
                }
                i += 1;
            },
            Some(k) => {
                // evict the units up to and including the first occurrence
                let ghost old_win = window@;
                let mut t: usize = 0;
                while t < k + 1
                    invariant
                        t <= k + 1,
                        k < old_win.len(),
                        k < w,
                        window@ == old_win.skip(t as int),
                    decreases k + 1 - t,
                {
                    window.remove(0);
                    proof {
                        assert(old_win.skip(t as int).remove(0) =~= old_win.skip(t as int + 1));
                    }
                    t += 1;
                }
                window.push(x.clone());
                proof {
                    let ghost start2 = start + k + 1;
                    assert(strs_view(window@) =~= us.subrange(start2, i as int + 1)) by {
                        let wv = strs_view(window@);
                        let sv = us.subrange(start2, i as int + 1);
                        assert(wv.len() == sv.len());
                        assert forall|l: int| 0 <= l < wv.len() implies wv[l] == sv[l] by {
                            if l < wv.len() - 1 {
                                assert(window@[l] == old_win[l + k + 1]);
                                assert(strs_view(old_win)[l + k + 1] == old_win[l + k + 1]@);
                                assert(us.subrange(start, i as int)[l + k + 1] == us[start + l + k
                                    + 1]);
                            }
                        }
                    }
                    // the evicted head element equals the new unit
                    assert(strs_view(old_win)[k as int] == old_win[k as int]@);
                    assert(us.subrange(start, i as int)[k as int] == us[start + k]);
                    assert(us[start + k] == us[i as int]);
                    // distinctness of the new window
                    assert forall|a: int, b: int|
                        start2 <= a < b < i + 1 implies us[a] != us[b] by {
                        if b < i {
                            assert(us.subrange(start, i as int)[a - start] == us[a]);
                            assert(us.subrange(start, i as int)[b - start] == us[b]);
                        } else {
                            // a repeat of the new unit before position i would
                            // have been an earlier occurrence in the window
                            assert(us.subrange(start, i as int)[a - start] == us[a]);
                            assert(us.subrange(start, i as int)[k as int] == us[start + k]);
                            if us[a] == us[i as int] {
                                assert(old_win[a - start]@ == us[a]);
                                assert(old_win[a - start]@ == units@[i as int]@);
                            }
                        }
                    }
                    assert(distinct_units(us.subrange(start2, i as int + 1)));
                    assert(us.subrange(start2, i as int + 1)[i - start2] == us[i as int]);
                    assert(us.subrange(start2, i as int + 1).contains(us[start2 - 1]));
                    start = start2;
                    assert forall|q: int| q <= i + 1 implies !marker_at(
                        us,
                        w as int,
                        q,
                    ) by {
                        if q == i + 1 && w <= q <= us.len() {
                            let sub = us.subrange(q - w, q);
                            assert(start - 1 >= q - w);
                            assert(sub[start - 1 - (q - w)] == us[start - 1]);
                            assert(sub[i - (q - w)] == us[i as int]);
                            assert(us[start - 1] == us[i as int]);
                            assert(!distinct_units(sub));
                        }
                    }
                }
                i += 1;
            },
        }
    }
    proof {
        assert forall|r: int| !marker_at(us, w as int, r) by {
            if w <= r <= us.len() {
                assert(r <= i);
            }
        }
        lemma_first_marker_pos_none(us, w as int, w as int);
    }
    None
}

/// What either part must return for window size `w`: the first marker
/// position in the grapheme units of the first line, 0 if none exists.
pub open spec fn part_spec(s: Seq<char>, w: int) -> Result<int, PuzzleError> {
    let lines = text::split_lines_spec(s);
    if lines.len() == 0 {
        Err(PuzzleError::EmptyInput)
    } else {
        let p = first_marker_pos(grapheme_split(lines[0]), w, w);
        if p <= i32::MAX {
            Ok(p)
        } else {
            Err(PuzzleError::AnswerOverflow)
        }
    }
}

pub open spec fn part_one_spec(s: Seq<char>) -> Result<int, PuzzleError> {
    part_spec(s, 4)
}

pub open spec fn part_two_spec(s: Seq<char>) -> Result<int, PuzzleError> {
    part_spec(s, 14)
}

/// Run the marker search on the first line with window size `w`.
fn solve_with_window(input: &str, w: usize) -> (r: Result<i32, PuzzleError>)
    requires
        w >= 1,
    ensures
        match r {
            Ok(v) => part_spec(input@, w as int) == Ok::<int, PuzzleError>(v as int),
            Err(e) => part_spec(input@, w as int) == Err::<int, PuzzleError>(e),
        },
{
    let chars = text::chars_of(input);
    let lines = text::split_lines(&chars);
    if lines.len() == 0 {
        return Err(PuzzleError::EmptyInput);
    }
    proof {
        assert(text::lines_view(lines@)[0] == lines@[0]@);
    }
    let units = graphemes_of(&lines[0]);
    match find_marker(&units, w) {
        Some(p) => {
            if p <= i32::MAX as usize {
                Ok(p as i32)
            } else {
                Err(PuzzleError::AnswerOverflow)
            }
        },
        None => Ok(0),
    }
}

/// Position of the first window of 4 pairwise distinct units.
pub fn solve_part_one(input: &str) -> (r: Result<i32, PuzzleError>)
    ensures
        match r {
            Ok(v) => part_one_spec(input@) == Ok::<int, PuzzleError>(v as int),
            Err(e) => part_one_spec(input@) == Err::<int, PuzzleError>(e),
        },
{
    solve_with_window(input, 4)
}

/// Position of the first window of 14 pairwise distinct units.
pub fn solve_part_two(input: &str) -> (r: Result<i32, PuzzleError>)
    ensures
        match r {
            Ok(v) => part_two_spec(input@) == Ok::<int, PuzzleError>(v as int),
            Err(e) => part_two_spec(input@) == Err::<int, PuzzleError>(e),
        },
{
    solve_with_window(input, 14)
}

} // verus!
