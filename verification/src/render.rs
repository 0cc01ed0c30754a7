use vstd::prelude::*;
use crate::text::{chars_of, parse_u32, parse_i32, parse_unsigned, parse_signed, slice_vec};

verus! {

/// `s` split around its first `c`, as `str::split_once` does.
pub open spec fn split_first(s: Seq<char>, c: char) -> Option<(Seq<char>, Seq<char>)> {
    if exists|i: int| 0 <= i < s.len() && s[i] == c {
        let i = choose|i: int|
            0 <= i < s.len() && s[i] == c && forall|j: int| 0 <= j < i ==> s[j] != c;
        Some((s.take(i), s.skip(i + 1)))
    } else {
        None
    }
}

/// A resolution `WxH` (or `WXH` when there is no `x`), both parts `u32`.
pub open spec fn resolution_of(s: Seq<char>) -> Option<(nat, nat)> {
    let parts = match split_first(s, 'x') {
        Some(p) => Some(p),
        None => split_first(s, 'X'),
    };
    match parts {
        Some((w, h)) => match (parse_unsigned(w, u32::MAX as nat), parse_unsigned(h, u32::MAX as nat)) {
            (Some(a), Some(b)) => Some((a, b)),
            _ => None,
        },
        None => None,
    }
}

/// The settings a render is started with, when the texts of the dialog read as
/// such: a resolution of even, nonzero sides, 1 to 240 frames per second and a
/// quality (CRF) from 0 to 51.
pub open spec fn render_settings(res: Seq<char>, fps: Seq<char>, crf: Seq<char>) -> Option<
    ((nat, nat), nat, int),
> {
    match (resolution_of(res), parse_unsigned(fps, u32::MAX as nat), parse_signed(crf, 0x8000_0000, i32::MAX as nat)) {
        (Some((w, h)), Some(f), Some(c)) => if w > 0 && h > 0 && w % 2 == 0 && h % 2 == 0 && 1
            <= f <= 240 && 0 <= c <= 51 {
            Some(((w, h), f, c))
        } else {
            None
        },
        _ => None,
    }
}

fn find_char(s: &Vec<char>, c: char) -> (r: Option<usize>)
    ensures
        match r {
            Some(i) => i < s@.len() && s@[i as int] == c && forall|j: int| 0 <= j < i ==> s@[j] != c,
            None => forall|j: int| 0 <= j < s@.len() ==> s@[j] != c,
        },
{
    let n = s.len();
    for i in 0..n
        invariant
            n == s@.len(),
            forall|j: int| 0 <= j < i ==> s@[j] != c,
    {
        if s[i] == c {
            return Some(i);
        }
    }
    None
}

proof fn lemma_split_first(s: Seq<char>, c: char, i: int)
    requires
        0 <= i < s.len(),
        s[i] == c,
        forall|j: int| 0 <= j < i ==> s[j] != c,
    ensures
        split_first(s, c) == Some((s.take(i), s.skip(i + 1))),
{
    let k = choose|k: int|
        0 <= k < s.len() && s[k] == c && forall|j: int| 0 <= j < k ==> s[j] != c;
    assert(0 <= k < s.len() && s[k] == c && forall|j: int| 0 <= j < k ==> s[j] != c);
    if k < i {
        assert(s[k] != c);
    } else if k > i {
        assert(s[i] != c);
    }
}

fn dims_at(s: &Vec<char>, i: usize) -> (r: Option<(u32, u32)>)
    requires
        i < s@.len(),
    ensures
        match r {
            Some((a, b)) => parse_unsigned(s@.take(i as int), u32::MAX as nat) == Some(a as nat)
                && parse_unsigned(s@.skip(i + 1), u32::MAX as nat) == Some(b as nat),
            None => parse_unsigned(s@.take(i as int), u32::MAX as nat) is None || parse_unsigned(
                s@.skip(i + 1),
                u32::MAX as nat,
            ) is None,
        },
{
    let n = s.len();
    let w = slice_vec(s.as_slice(), 0, i);
    let h = slice_vec(s.as_slice(), i + 1, n);
    proof {
        assert(w@ =~= s@.take(i as int));
        assert(h@ =~= s@.skip(i + 1));
    }
    match (parse_u32(w.as_slice()), parse_u32(h.as_slice())) {
        (Some(a), Some(b)) => Some((a, b)),
        _ => None,
    }
}

/// Reads the render dialog's resolution, frame rate and quality; `None` when one
/// of them does not read or is out of range.
pub fn parse_render_settings(res: &str, fps: &str, crf: &str) -> (r: Option<((u32, u32), u32, i32)>)
    ensures
        match r {
            Some(((w, h), f, c)) => render_settings(res@, fps@, crf@) == Some(
                ((w as nat, h as nat), f as nat, c as int),
            ),
            None => render_settings(res@, fps@, crf@) is None,
        },
{
    let s = chars_of(res);
    let wh = match find_char(&s, 'x') {
        Some(i) => {
            proof {
                lemma_split_first(s@, 'x', i as int);
            }
            dims_at(&s, i)
        },
        None => match find_char(&s, 'X') {
            Some(i) => {
                proof {
                    lemma_split_first(s@, 'X', i as int);
                }
                dims_at(&s, i)
            },
            None => None,
        },
    };
    let f = parse_u32(chars_of(fps).as_slice());
    let c = parse_i32(chars_of(crf).as_slice());
    match (wh, f, c) {
        (Some((w, h)), Some(f), Some(c)) => {
            if w > 0 && h > 0 && w % 2 == 0 && h % 2 == 0 && 1 <= f && f <= 240 && 0 <= c && c <= 51 {
                Some(((w, h), f, c))
            } else {
                None
            }
        },
        _ => None,
    }
}

/// Where the audio written with video frame `frame` ends: the samples (at 48 kHz)
/// up to the end of that frame, never past the audio.
pub open spec fn chunk_end(frame: nat, fps: nat, audio_len: nat) -> nat {
    let e = (frame + 1) * 48000 / fps;
    if e < audio_len {
        e
    } else {
        audio_len
    }
}

pub fn audio_chunk_end(frame: u64, fps: u32, audio_len: usize) -> (r: usize)
    requires
        fps > 0,
        (frame + 1) * 48000 <= usize::MAX,
    ensures
        r == chunk_end(frame as nat, fps as nat, audio_len as nat),
{
    let e = (frame as usize + 1) * 48000 / fps as usize;
    if e < audio_len {
        e
    } else {
        audio_len
    }
}

/// The audio written with successive frames never goes back: each frame's chunk
/// starts where the previous one ended.
pub proof fn law_chunks_advance(frame: nat, fps: nat, audio_len: nat)
    requires
        fps > 0,
    ensures
        chunk_end(frame, fps, audio_len) <= chunk_end(frame + 1, fps, audio_len),
        chunk_end(frame, fps, audio_len) <= audio_len,
{
    assert((frame + 1) * 48000 / fps <= (frame + 2) * 48000 / fps) by (nonlinear_arith)
        requires
            fps > 0,
    {
        vstd::arithmetic::div_mod::lemma_div_is_ordered(
            ((frame + 1) * 48000) as int,
            ((frame + 2) * 48000) as int,
            fps as int,
        );
    }
}

} // verus!
