//! Splitting a path into its `/`-separated segments.
//!
//! The matching unit of the index is a raw path component: no normalization,
//! no case folding. Empty segments (from leading, trailing or doubled
//! slashes) are kept; the empty string is a term like any other.

use vstd::prelude::*;

verus! {

/// The `/`-separated segments of `s`. A path always has at least one
/// segment; the empty path has exactly one, the empty segment.
///
/// The recursion peels the last character, so that a forward scan over the
/// path unfolds it one character at a time.
pub open spec fn segments(s: Seq<char>) -> Seq<Seq<char>>
    decreases s.len(),
{
    if s.len() == 0 {
        seq![Seq::<char>::empty()]
    } else if s.last() == '/' {
        segments(s.drop_last()).push(Seq::<char>::empty())
    } else {
        let r = segments(s.drop_last());
        r.update(r.len() - 1, r.last().push(s.last()))
    }
}

pub proof fn lemma_segments_nonempty(s: Seq<char>)
    ensures
        segments(s).len() >= 1,
    decreases s.len(),
{
    if s.len() != 0 {
        lemma_segments_nonempty(s.drop_last());
    }
}

/// The character sequences of a sequence of owned strings.
pub open spec fn string_views(ss: Seq<String>) -> Seq<Seq<char>> {
    ss.map_values(|s: String| s@)
}

/// Splits `path` on `/` into owned segment strings, exactly as [`segments`]
/// describes.
pub fn tokenize(path: &str) -> (toks: Vec<String>)
    ensures
        string_views(toks@) == segments(path@),
{
    let n = path.unicode_len();
    let mut toks: Vec<String> = Vec::new();
    let mut start: usize = 0;
    let mut i: usize = 0;
    while i < n
        invariant
            0 <= start <= i <= n,
            n == path@.len(),
            segments(path@.subrange(0, i as int)).drop_last() =~= string_views(toks@),
            segments(path@.subrange(0, i as int)).last() =~= path@.subrange(
                start as int,
                i as int,
            ),
        decreases n - i,
    {
        let ghost prefix = path@.subrange(0, i as int);
        let ghost next_prefix = path@.subrange(0, i as int + 1);
        proof {
            lemma_segments_nonempty(prefix);
            assert(next_prefix.drop_last() =~= prefix);
            assert(next_prefix.last() == path@[i as int]);
        }
        let c = path.get_char(i);
        if c == '/' {
            let seg = path.substring_char(start, i).to_owned();
            let ghost old_toks = toks@;
            toks.push(seg);
            start = i + 1;
            proof {
                assert(seg@ =~= segments(prefix).last());
                assert(string_views(toks@) =~= string_views(old_toks).push(seg@));
                assert(string_views(old_toks).push(seg@) =~= segments(prefix));
                assert(segments(next_prefix) =~= segments(prefix).push(Seq::<char>::empty()));
                assert(segments(next_prefix).drop_last() =~= segments(prefix));
                assert(path@.subrange(i as int + 1, i as int + 1) =~= Seq::<char>::empty());
            }
        } else {
            proof {
                let r = segments(prefix);
                assert(segments(next_prefix) == r.update(r.len() - 1, r.last().push(path@[i as int])));
                assert(segments(next_prefix).drop_last() =~= r.drop_last());
                assert(path@.subrange(start as int, i as int + 1) =~= path@.subrange(
                    start as int,
                    i as int,
                ).push(path@[i as int]));
                assert(segments(next_prefix).last() =~= path@.subrange(start as int, i as int + 1));
            }
        }
        i = i + 1;
    }
    let seg = path.substring_char(start, n).to_owned();
    toks.push(seg);
    proof {
        lemma_segments_nonempty(path@.subrange(0, n as int));
        assert(path@.subrange(0, n as int) =~= path@);
        assert(string_views(toks@) =~= segments(path@).drop_last().push(segments(path@).last()));
        assert(segments(path@).drop_last().push(segments(path@).last()) =~= segments(path@));
    }
    toks
}

} // verus!
