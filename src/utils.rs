//! Clamping to a range, and breaking text into lines at white space.

use vstd::prelude::*;

use vstd::std_specs::cmp::PartialOrdSpec;
use vstd::utf8::encode_utf8;

verus! {

/// `a` is ordered before `b` by `partial_cmp`.
pub open spec fn before<N: PartialOrd>(a: &N, b: &N) -> bool {
    a.partial_cmp_spec(b) == Some(core::cmp::Ordering::Less)
}

/// `a` is ordered after `b` by `partial_cmp`.
pub open spec fn after<N: PartialOrd>(a: &N, b: &N) -> bool {
    a.partial_cmp_spec(b) == Some(core::cmp::Ordering::Greater)
}

/// `a` limited to the range from `min` to `max`: `min` where `a` is below it, `max` where `a` is
/// above it, `a` itself otherwise.
pub fn clamp<N: PartialOrd>(a: N, min: N, max: N) -> (r: N)
    requires
        N::obeys_partial_cmp_spec(),
        min.partial_cmp_spec(&max) matches Some(core::cmp::Ordering::Less | core::cmp::Ordering::Equal),
    ensures
        before(&a, &min) ==> r == min,
        !before(&a, &min) && after(&a, &max) ==> r == max,
        !before(&a, &min) && !after(&a, &max) ==> r == a,
{
    if a < min {
        min
    } else if a > max {
        max
    } else {
        a
    }
}

/// The number of bytes of the UTF-8 encoding of `w`, as `str::len` reports it.
pub open spec fn byte_len(w: Seq<char>) -> int {
    encode_utf8(w).len() as usize as int
}

/// The words joined by single spaces.
pub open spec fn joined(ws: Seq<Seq<char>>) -> Seq<char>
    decreases ws.len(),
{
    if ws.len() == 0 {
        Seq::empty()
    } else if ws.len() == 1 {
        ws[0]
    } else {
        joined(ws.drop_last()) + seq![' '] + ws.last()
    }
}

/// Where filling lines of at most `max` bytes stands after the words `ws`: the finished lines,
/// the words of the current line, and the length that the current line counts.
///
/// A word joins the current line while the counted length plus the word's length stays below
/// `max`, and then adds its length and one for the space; otherwise the current line is
/// finished and the word starts the next one, counting its own length.
pub open spec fn wrap_state(max: int, ws: Seq<Seq<char>>) -> (Seq<Seq<char>>, Seq<Seq<char>>, int)
    decreases ws.len(),
{
    if ws.len() == 0 {
        (Seq::empty(), Seq::empty(), 0)
    } else {
        let (lines, line, length) = wrap_state(max, ws.drop_last());
        let w = ws.last();
        if length + byte_len(w) < max {
            (lines, line.push(w), length + byte_len(w) + 1)
        } else {
            (lines.push(joined(line)), seq![w], byte_len(w))
        }
    }
}

/// The lines that the words `ws` fill: the finished ones and then the current one.
pub open spec fn wrapped(max: int, ws: Seq<Seq<char>>) -> Seq<Seq<char>> {
    wrap_state(max, ws).0.push(joined(wrap_state(max, ws).1))
}

/// The words of `s`, in order, as cutting it at white space gives them.
pub uninterp spec fn words_of(s: Seq<char>) -> Seq<Seq<char>>;

/// Relies on `str::split_whitespace`: the words of `s`, in order, without the white space
/// around them. Each is turned into an owned `String`.
#[verifier::external_body]
fn split_words(s: &str) -> (r: Vec<String>)
    ensures
        r@.len() == words_of(s@).len(),
        forall|i: int| 0 <= i < r@.len() ==> #[trigger] r@[i]@ == words_of(s@)[i],
{
    s.split_whitespace().map(String::from).collect()
}

/// The views of a vector of strings.
pub open spec fn views(v: Seq<String>) -> Seq<Seq<char>> {
    Seq::new(v.len(), |i: int| v[i]@)
}

/// Words `start` to `end` (exclusive) joined by single spaces.
fn join_words(words: &Vec<String>, start: usize, end: usize) -> (r: String)
    requires
        start <= end <= words@.len(),
    ensures
        r@ == joined(views(words@).subrange(start as int, end as int)),
{
    let ghost ws = views(words@);
    let mut line = String::new();
    let mut k: usize = start;
    while k < end
        invariant
            start <= k <= end <= words@.len(),
            ws == views(words@),
            line@ == joined(ws.subrange(start as int, k as int)),
        decreases end - k,
    {
        let ghost before = ws.subrange(start as int, k as int);
        let ghost after = ws.subrange(start as int, (k + 1) as int);
        proof {
            assert(after.drop_last() =~= before);
            assert(after.last() == words@[k as int]@);
        }
        if k > start {
            line.append(" ");
            proof {
                reveal_strlit(" ");
            }
        }
        line.append(words[k].as_str());
        proof {
            if k > start {
                assert(line@ =~= joined(before) + seq![' '] + after.last());
            } else {
                assert(after.len() == 1);
                assert(line@ =~= after[0]);
            }
        }
        k = k + 1;
    }
    line
}

/// Fills lines of at most about `max_length` bytes with the words, in order, joining the words
/// of a line by single spaces; see `wrapped` for the rule.
pub fn wrap_words(max_length: usize, words: &Vec<String>) -> (r: Vec<String>)
    ensures
        views(r@) == wrapped(max_length as int, views(words@)),
{
    let ghost ws = views(words@);
    let ghost max = max_length as int;
    let mut lines: Vec<String> = Vec::new();
    let mut length: usize = 0;
    let mut start: usize = 0;
    let mut k: usize = 0;
    while k < words.len()
        invariant
            ws == views(words@),
            max == max_length as int,
            start <= k <= words@.len(),
            views(lines@) == wrap_state(max, ws.subrange(0, k as int)).0,
            ws.subrange(start as int, k as int) == wrap_state(max, ws.subrange(0, k as int)).1,
            length as int == wrap_state(max, ws.subrange(0, k as int)).2,
        decreases words@.len() - k,
    {
        let ghost prefix = ws.subrange(0, k as int);
        let ghost next = ws.subrange(0, (k + 1) as int);
        proof {
            assert(next.drop_last() =~= prefix);
            assert(next.last() == words@[k as int]@);
        }
        let l = words[k].as_str().len();
        proof {
            assert(l as int == byte_len(ws[k as int]));
            assert(wrap_state(max, next) == {
                let (lines0, line0, length0) = wrap_state(max, prefix);
                let w = ws[k as int];
                if length0 + byte_len(w) < max {
                    (lines0, line0.push(w), length0 + byte_len(w) + 1)
                } else {
                    (lines0.push(joined(line0)), seq![w], byte_len(w))
                }
            });
        }
        if l < max_length && length < max_length - l {
            length = length + l + 1;
            proof {
                assert(ws.subrange(start as int, (k + 1) as int) =~= ws.subrange(start as int, k as int).push(ws[k as int]));
            }
        } else {
            let line = join_words(words, start, k);
            let ghost old_lines = lines@;
            lines.push(line);
            proof {
                assert(views(lines@) =~= views(old_lines).push(line@));
                assert(ws.subrange(k as int, (k + 1) as int) =~= seq![ws[k as int]]);
            }
            length = l;
            start = k;
        }
        k = k + 1;
    }
    let line = join_words(words, start, words.len());
    let ghost old_lines = lines@;
    lines.push(line);
    proof {
        assert(ws.subrange(0, words@.len() as int) =~= ws);
        assert(views(lines@) =~= views(old_lines).push(line@));
    }
    lines
}

/// Breaks `s` into lines of at most about `max_length` bytes, only at white space; see
/// `wrapped` for the rule.
pub fn split_long_lines(max_length: usize, s: &str) -> (r: Vec<String>)
    ensures
        views(r@) == wrapped(max_length as int, words_of(s@)),
{
    let words = split_words(s);
    proof {
        assert(views(words@) =~= words_of(s@));
    }
    wrap_words(max_length, &words)
}

} // verus!
