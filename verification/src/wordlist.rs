//! Turning a block of text into the list of candidate words: the text is
//! split into lines, and a word is kept when its character count lies
//! within the requested bounds.

use vstd::prelude::*;
use vstd::string::StrSliceExecFns;
use vstd::string::StringExecFns;

verus! {

/// The pieces of `s` obtained by cutting it at every occurrence of `c`;
/// the cut character belongs to no piece.  The empty sequence yields one
/// empty piece, and a trailing `c` yields a trailing empty piece.
pub open spec fn split_on_char(s: Seq<char>, c: char) -> Seq<Seq<char>>
    decreases s.len(),
{
    if s.len() == 0 {
        seq![Seq::<char>::empty()]
    } else if s.last() == c {
        split_on_char(s.drop_last(), c).push(Seq::<char>::empty())
    } else {
        let p = split_on_char(s.drop_last(), c);
        p.update(p.len() - 1, p.last().push(s.last()))
    }
}

pub proof fn lemma_split_on_char_nonempty(s: Seq<char>, c: char)
    ensures
        split_on_char(s, c).len() >= 1,
    decreases s.len(),
{
    if s.len() > 0 {
        lemma_split_on_char_nonempty(s.drop_last(), c);
    }
}

/// A piece with one final carriage return removed, as line splitting does
/// just before a line feed.
pub open spec fn strip_cr(p: Seq<char>) -> Seq<char> {
    if p.len() > 0 && p.last() == '\r' {
        p.drop_last()
    } else {
        p
    }
}

/// Every piece with its final carriage return removed.
pub open spec fn strip_all_cr(ps: Seq<Seq<char>>) -> Seq<Seq<char>> {
    ps.map_values(|p: Seq<char>| strip_cr(p))
}

/// The non-empty pieces, in order.
pub open spec fn keep_nonempty(ps: Seq<Seq<char>>) -> Seq<Seq<char>> {
    ps.filter(|w: Seq<char>| w.len() > 0)
}

/// The candidate words of a text: its lines in order, where lines end at a
/// line feed (a carriage return just before the line feed belongs to no
/// line), and empty lines are no candidates.
pub open spec fn candidate_words(s: Seq<char>) -> Seq<Seq<char>> {
    let ps = split_on_char(s, '\n');
    keep_nonempty(strip_all_cr(ps.drop_last()) + seq![ps.last()])
}

/// The completed lines of a prefix of the text: all pieces but the still
/// open last one, carriage returns stripped, empty lines dropped.
pub(crate) open spec fn completed_lines(prefix: Seq<char>) -> Seq<Seq<char>> {
    keep_nonempty(strip_all_cr(split_on_char(prefix, '\n').drop_last()))
}

/// The piece after the last line feed of a prefix of the text.
pub(crate) open spec fn open_piece(prefix: Seq<char>) -> Seq<char> {
    split_on_char(prefix, '\n').last()
}

/// Whether a word's character count lies within `[min_len, max_len]`.
pub open spec fn within_bounds(w: Seq<char>, min_len: int, max_len: int) -> bool {
    min_len <= w.len() && w.len() <= max_len
}

/// The words of `ws` whose character count lies within `[min_len, max_len]`,
/// in their original order.
pub open spec fn words_within_bounds(ws: Seq<Seq<char>>, min_len: int, max_len: int) -> Seq<
    Seq<char>,
> {
    ws.filter(|w: Seq<char>| within_bounds(w, min_len, max_len))
}

/// How a filter behaves on one more element at the end.
pub(crate) proof fn lemma_filter_push<A>(s: Seq<A>, x: A, pred: spec_fn(A) -> bool)
    ensures
        (s.push(x)).filter(pred) == (if pred(x) {
            s.filter(pred).push(x)
        } else {
            s.filter(pred)
        }),
{
    reveal(Seq::filter);
    assert(s.push(x).drop_last() =~= s);
}

/// Keep exactly the words whose character count lies within
/// `[min_len, max_len]`; order and duplicates are preserved.
pub fn filter_words(words: &Vec<String>, min_len: usize, max_len: usize) -> (kept: Vec<String>)
    ensures
        kept.deep_view() == words_within_bounds(words.deep_view(), min_len as int, max_len as int),
{
    let mut kept: Vec<String> = Vec::new();
    let mut i: usize = 0;
    proof {
        assert(kept.deep_view() =~= Seq::<Seq<char>>::empty());
        reveal(Seq::filter);
        assert(words.deep_view().take(0).filter(
            |w: Seq<char>| within_bounds(w, min_len as int, max_len as int),
        ) =~= Seq::<Seq<char>>::empty());
    }
    while i < words.len()
        invariant
            i <= words.len(),
            kept.deep_view() == words.deep_view().take(i as int).filter(
                |w: Seq<char>| within_bounds(w, min_len as int, max_len as int),
            ),
        decreases words.len() - i,
    {
        let n = words[i].as_str().unicode_len();
        let ghost prev = kept.deep_view();
        if min_len <= n && n <= max_len {
            kept.push(words[i].clone());
        }
        proof {
            let pred = |w: Seq<char>| within_bounds(w, min_len as int, max_len as int);
            assert(words.deep_view().take(i + 1).drop_last() =~= words.deep_view().take(i as int));
            assert(words.deep_view().take(i + 1) =~= words.deep_view().take(i as int).push(
                words.deep_view()[i as int],
            ));
            lemma_filter_push(words.deep_view().take(i as int), words.deep_view()[i as int], pred);
            if pred(words.deep_view()[i as int]) {
                assert(kept.deep_view() =~= prev.push(words.deep_view()[i as int]));
            }
        }
        i += 1;
    }
    proof {
        assert(words.deep_view().take(words@.len() as int) =~= words.deep_view());
    }
    kept
}

/// Split a text into its candidate words: the non-empty lines, in input
/// order, with no line terminator inside a word.
pub fn split_words(text: &str) -> (words: Vec<String>)
    ensures
        words.deep_view() == candidate_words(text@),
{
    let n = text.unicode_len();
    let mut words: Vec<String> = Vec::new();
    let mut start: usize = 0;
    let mut i: usize = 0;
    proof {
        reveal(Seq::filter);
        assert(text@.take(0) =~= Seq::<char>::empty());
        assert(split_on_char(text@.take(0), '\n') =~= seq![Seq::<char>::empty()]);
        assert(open_piece(text@.take(0)) =~= text@.subrange(0, 0));
        assert(split_on_char(text@.take(0), '\n').drop_last() =~= Seq::<Seq<char>>::empty());
        assert(strip_all_cr(Seq::<Seq<char>>::empty()) =~= Seq::<Seq<char>>::empty());
        assert(completed_lines(text@.take(0)) =~= Seq::<Seq<char>>::empty());
        assert(words.deep_view() =~= Seq::<Seq<char>>::empty());
    }
    while i < n
        invariant
            n == text@.len(),
            start <= i <= n,
            open_piece(text@.take(i as int)) == text@.subrange(start as int, i as int),
            words.deep_view() == completed_lines(text@.take(i as int)),
        decreases n - i,
    {
        let c = text.get_char(i);
        let ghost pre = text@.take(i as int);
        let ghost pre1 = text@.take(i + 1);
        let ghost ps = split_on_char(pre, '\n');
        proof {
            lemma_split_on_char_nonempty(pre, '\n');
            assert(pre1.drop_last() =~= pre);
            assert(pre1.last() == c);
        }
        if c == '\n' {
            proof {
                assert(split_on_char(pre1, '\n') =~= ps.push(Seq::<char>::empty()));
            }
            let end = if i > start && text.get_char(i - 1) == '\r' {
                i - 1
            } else {
                i
            };
            proof {
                assert(strip_cr(ps.last()) =~= text@.subrange(start as int, end as int));
            }
            let ghost prev = words.deep_view();
            if end > start {
                let piece = text.substring_char(start, end);
                words.push(String::from_str(piece));
                proof {
                    assert(words.deep_view() =~= prev.push(strip_cr(ps.last())));
                }
            }
            proof {
                assert(ps =~= ps.drop_last().push(ps.last()));
                assert(strip_all_cr(ps) =~= strip_all_cr(ps.drop_last()).push(strip_cr(ps.last())));
                lemma_filter_push(
                    strip_all_cr(ps.drop_last()),
                    strip_cr(ps.last()),
                    |w: Seq<char>| w.len() > 0,
                );
                assert(split_on_char(pre1, '\n').drop_last() =~= ps);
                assert(words.deep_view() == completed_lines(pre1));
                assert(open_piece(pre1) =~= text@.subrange(i + 1, i + 1));
            }
            start = i + 1;
        } else {
            proof {
                let ps1 = split_on_char(pre1, '\n');
                assert(ps1 == ps.update(ps.len() - 1, ps.last().push(c)));
                assert(ps1.drop_last() =~= ps.drop_last());
                assert(completed_lines(pre1) == completed_lines(pre)) by {
                    assert(strip_all_cr(ps1.drop_last()) =~= strip_all_cr(ps.drop_last()));
                }
                assert(ps1.last() == ps.last().push(c));
                assert(text@.subrange(start as int, i as int).push(text@[i as int]) =~= text@
                    .subrange(start as int, i + 1));
                assert(open_piece(pre1) == text@.subrange(start as int, i + 1));
            }
        }
        i += 1;
    }
    let ghost full = text@;
    let ghost ps = split_on_char(full, '\n');
    proof {
        assert(text@.take(n as int) =~= full);
        lemma_split_on_char_nonempty(full, '\n');
        Seq::<Seq<char>>::filter_distributes_over_add(
            strip_all_cr(ps.drop_last()),
            seq![ps.last()],
            |w: Seq<char>| w.len() > 0,
        );
        reveal(Seq::filter);
        assert(seq![ps.last()].drop_last() =~= Seq::<Seq<char>>::empty());
    }
    if start < n {
        let piece = text.substring_char(start, n);
        let ghost prev = words.deep_view();
        words.push(String::from_str(piece));
        proof {
            assert(keep_nonempty(seq![ps.last()]) =~= seq![ps.last()]);
            assert(words.deep_view() =~= prev.push(ps.last()));
            assert(words.deep_view() =~= completed_lines(full) + seq![ps.last()]);
        }
    } else {
        proof {
            assert(ps.last() =~= Seq::<char>::empty());
            assert(keep_nonempty(seq![ps.last()]) =~= Seq::<Seq<char>>::empty());
            assert(candidate_words(full) =~= completed_lines(full));
        }
    }
    words
}

/// Load the candidate words of a text and keep those whose character count
/// lies within `[min_len, max_len]`.
pub fn load_words(text: &str, min_len: usize, max_len: usize) -> (words: Vec<String>)
    ensures
        words.deep_view() == words_within_bounds(
            candidate_words(text@),
            min_len as int,
            max_len as int,
        ),
{
    let lines = split_words(text);
    filter_words(&lines, min_len, max_len)
}

} // verus!
