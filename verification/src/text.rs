//! Character-level text helpers: first occurrence of a character, line
//! splitting, and stripping of surrounding double quotes.

use vstd::prelude::*;
use vstd::string::StrSliceExecFns;

verus! {

/// Index of the first occurrence of `c` in `s`, if any.
pub open spec fn find_char(s: Seq<char>, c: char) -> Option<int>
    decreases s.len(),
{
    if s.len() == 0 {
        None
    } else if s[0] == c {
        Some(0int)
    } else {
        match find_char(s.skip(1), c) {
            None => None,
            Some(i) => Some(i + 1),
        }
    }
}

/// A sequence without `c` has no first occurrence of it.
pub proof fn lemma_find_char_none(s: Seq<char>, c: char)
    requires
        forall|j: int| 0 <= j < s.len() ==> s[j] != c,
    ensures
        find_char(s, c) is None,
    decreases s.len(),
{
    if s.len() > 0 {
        lemma_find_char_none(s.skip(1), c);
    }
}

/// An occurrence of `c` with nothing but other characters before it is
/// the first occurrence.
pub proof fn lemma_find_char_some(s: Seq<char>, c: char, i: int)
    requires
        0 <= i < s.len(),
        s[i] == c,
        forall|j: int| 0 <= j < i ==> s[j] != c,
    ensures
        find_char(s, c) == Some(i),
    decreases s.len(),
{
    if i > 0 {
        lemma_find_char_some(s.skip(1), c, i - 1);
    }
}

/// Wherever `find_char` points, the character is there, it is the first
/// such character, and a `None` answer means the character is absent.
pub proof fn lemma_find_char_props(s: Seq<char>, c: char)
    ensures
        match find_char(s, c) {
            None => forall|j: int| 0 <= j < s.len() ==> s[j] != c,
            Some(i) => 0 <= i < s.len() && s[i] == c && (forall|j: int| 0 <= j < i ==> s[j] != c),
        },
    decreases s.len(),
{
    if s.len() > 0 && s[0] != c {
        lemma_find_char_props(s.skip(1), c);
        if find_char(s.skip(1), c) is Some {
            let i = find_char(s.skip(1), c)->Some_0;
            assert(forall|j: int| 1 <= j < i + 1 ==> s[j] == s.skip(1)[j - 1]);
        } else {
            assert(forall|j: int| 1 <= j < s.len() ==> s[j] == s.skip(1)[j - 1]);
        }
    }
}

/// Index of the first occurrence of `c` in `s`, or `None` when `s` does
/// not contain `c`.
pub fn find_first(s: &str, c: char) -> (r: Option<usize>)
    ensures
        match r {
            None => find_char(s@, c) is None,
            Some(i) => i < s@.len() && s@[i as int] == c && find_char(s@, c) == Some(i as int),
        },
{
    let n = s.unicode_len();
    let mut i: usize = 0;
    while i < n
        invariant
            n == s@.len(),
            0 <= i <= n,
            forall|j: int| 0 <= j < i ==> s@[j] != c,
        decreases n - i,
    {
        if s.get_char(i) == c {
            proof {
                lemma_find_char_some(s@, c, i as int);
            }
            return Some(i);
        }
        i += 1;
    }
    proof {
        lemma_find_char_none(s@, c);
    }
    None
}

/// A line with its terminating `"\r\n"` already cut down to a trailing
/// `'\r'`: that carriage return is removed as part of the line ending.
pub open spec fn strip_cr(line: Seq<char>) -> Seq<char> {
    if line.len() > 0 && line[line.len() - 1] == '\r' {
        line.take(line.len() - 1)
    } else {
        line
    }
}

/// The lines of `s`: maximal runs between `'\n'` terminators, with a
/// `'\r'` that stood directly before a `'\n'` removed, and no empty
/// final line produced by a trailing `'\n'`.
pub open spec fn line_seq(s: Seq<char>) -> Seq<Seq<char>>
    decreases s.len(),
    via line_seq_decreases
{
    if s.len() == 0 {
        seq![]
    } else {
        match find_char(s, '\n') {
            None => seq![s],
            Some(i) => seq![strip_cr(s.take(i))] + line_seq(s.skip(i + 1)),
        }
    }
}

#[via_fn]
proof fn line_seq_decreases(s: Seq<char>) {
    lemma_find_char_props(s, '\n');
}

/// Splits `s` into its lines, as `line_seq` describes them.
pub fn split_lines(s: &str) -> (lines: Vec<String>)
    ensures
        lines@.map_values(|l: String| l@) == line_seq(s@),
{
    let n = s.unicode_len();
    let mut lines: Vec<String> = Vec::new();
    let mut start: usize = 0;
    let mut i: usize = 0;
    proof {
        assert(s@.skip(0) =~= s@);
        assert(lines@.map_values(|l: String| l@) + line_seq(s@) =~= line_seq(s@));
    }
    while i < n
        invariant
            n == s@.len(),
            0 <= start <= i <= n,
            forall|j: int| start <= j < i ==> s@[j] != '\n',
            line_seq(s@) == lines@.map_values(|l: String| l@) + line_seq(s@.skip(start as int)),
        decreases n - i,
    {
        if s.get_char(i) == '\n' {
            let line_end: usize = if i > start && s.get_char(i - 1) == '\r' {
                i - 1
            } else {
                i
            };
            let piece = s.substring_char(start, line_end).to_owned();
            proof {
                let tail = s@.skip(start as int);
                assert(forall|j: int| 0 <= j < i - start ==> tail[j] == s@[j + start]);
                lemma_find_char_some(tail, '\n', i - start);
                assert(tail.take(i - start) =~= s@.subrange(start as int, i as int));
                assert(tail.skip(i - start + 1) =~= s@.skip(i + 1));
                assert(strip_cr(s@.subrange(start as int, i as int)) == piece@) by {
                    if i > start && s@[i - 1] == '\r' {
                        assert(s@.subrange(start as int, i as int).take(i - 1 - start)
                            =~= s@.subrange(start as int, i as int - 1));
                    }
                }
                assert(lines@.push(piece).map_values(|l: String| l@)
                    =~= lines@.map_values(|l: String| l@) + seq![piece@]);
                assert(line_seq(tail) == seq![piece@] + line_seq(s@.skip(i + 1)));
                assert(lines@.map_values(|l: String| l@) + line_seq(tail)
                    =~= lines@.push(piece).map_values(|l: String| l@) + line_seq(s@.skip(i + 1)));
            }
            lines.push(piece);
            start = i + 1;
        }
        i += 1;
    }
    if start < n {
        let piece = s.substring_char(start, n).to_owned();
        proof {
            let tail = s@.skip(start as int);
            assert(forall|j: int| 0 <= j < tail.len() ==> tail[j] == s@[j + start]);
            lemma_find_char_none(tail, '\n');
            assert(tail.len() > 0);
            assert(line_seq(tail) == seq![tail]);
            assert(piece@ =~= tail);
            assert(lines@.push(piece).map_values(|l: String| l@)
                =~= lines@.map_values(|l: String| l@) + seq![piece@]);
        }
        lines.push(piece);
        proof {
            assert(line_seq(s@) =~= lines@.map_values(|l: String| l@));
        }
    } else {
        proof {
            assert(s@.skip(start as int) =~= Seq::<char>::empty());
            assert(line_seq(s@.skip(start as int)) == Seq::<Seq<char>>::empty());
            assert(line_seq(s@) =~= lines@.map_values(|l: String| l@));
        }
    }
    lines
}

/// `s` with every leading and every trailing double-quote character
/// removed.
pub open spec fn strip_quotes_spec(s: Seq<char>) -> Seq<char>
    decreases s.len(),
{
    if s.len() > 0 && s[0] == '"' {
        strip_quotes_spec(s.skip(1))
    } else if s.len() > 0 && s[s.len() - 1] == '"' {
        strip_quotes_spec(s.take(s.len() - 1))
    } else {
        s
    }
}

/// Where quote stripping lands inside `s`: the result is the contiguous
/// piece of `s` from `i` to `j`, everything removed on either side of it
/// is a double quote, and the piece itself, unless empty, neither starts
/// nor ends with one.
pub open spec fn strip_shape(s: Seq<char>, i: int, j: int) -> bool {
    &&& 0 <= i <= j <= s.len()
    &&& strip_quotes_spec(s) == s.subrange(i, j)
    &&& forall|k: int| 0 <= k < i ==> s[k] == '"'
    &&& forall|k: int| j <= k < s.len() ==> s[k] == '"'
    &&& i == j || (s[i] != '"' && s[j - 1] != '"')
}

/// Quote stripping is symmetric and minimal: it removes exactly the run
/// of double quotes at each end of `s`, and nothing in between.
pub proof fn lemma_strip_quotes_shape(s: Seq<char>)
    ensures
        exists|i: int, j: int| strip_shape(s, i, j),
    decreases s.len(),
{
    if s.len() > 0 && s[0] == '"' {
        let t = s.skip(1);
        lemma_strip_quotes_shape(t);
        let (i, j) = choose|i: int, j: int| strip_shape(t, i, j);
        assert(t.subrange(i, j) =~= s.subrange(i + 1, j + 1));
        assert forall|k: int| 0 <= k < i + 1 implies s[k] == '"' by {
            if k > 0 {
                assert(t[k - 1] == s[k]);
            }
        }
        assert forall|k: int| j + 1 <= k < s.len() implies s[k] == '"' by {
            assert(t[k - 1] == s[k]);
        }
        if i < j {
            assert(s[i + 1] == t[i]);
            assert(s[j] == t[j - 1]);
        }
        assert(strip_shape(s, i + 1, j + 1));
    } else if s.len() > 0 && s[s.len() - 1] == '"' {
        let t = s.take(s.len() - 1);
        lemma_strip_quotes_shape(t);
        let (i, j) = choose|i: int, j: int| strip_shape(t, i, j);
        assert(t.subrange(i, j) =~= s.subrange(i, j));
        assert forall|k: int| 0 <= k < i implies s[k] == '"' by {
            assert(t[k] == s[k]);
        }
        assert forall|k: int| j <= k < s.len() implies s[k] == '"' by {
            if k < s.len() - 1 {
                assert(t[k] == s[k]);
            }
        }
        if i < j {
            assert(s[i] == t[i]);
            assert(s[j - 1] == t[j - 1]);
        }
        assert(strip_shape(s, i, j));
    } else {
        assert(s.subrange(0, s.len() as int) =~= s);
        assert(strip_shape(s, 0, s.len() as int));
    }
}

/// Removes the surrounding double quotes from `s`: every quote at the
/// start and every quote at the end goes, nothing else does.
pub fn strip_quotes(s: &str) -> (r: String)
    ensures
        r@ == strip_quotes_spec(s@),
{
    let n = s.unicode_len();
    let mut lo: usize = 0;
    let mut hi: usize = n;
    proof {
        assert(s@.subrange(0, n as int) =~= s@);
    }
    while lo < hi && s.get_char(lo) == '"'
        invariant
            n == s@.len(),
            0 <= lo <= hi <= n,
            strip_quotes_spec(s@) == strip_quotes_spec(s@.subrange(lo as int, hi as int)),
        decreases hi - lo,
    {
        proof {
            assert(s@.subrange(lo as int, hi as int).skip(1)
                =~= s@.subrange(lo as int + 1, hi as int));
        }
        lo += 1;
    }
    while lo < hi && s.get_char(hi - 1) == '"'
        invariant
            n == s@.len(),
            0 <= lo <= hi <= n,
            strip_quotes_spec(s@) == strip_quotes_spec(s@.subrange(lo as int, hi as int)),
            lo == hi || s@[lo as int] != '"',
        decreases hi - lo,
    {
        proof {
            let part = s@.subrange(lo as int, hi as int);
            assert(part.take(part.len() - 1) =~= s@.subrange(lo as int, hi as int - 1));
        }
        hi -= 1;
    }
    let r = s.substring_char(lo, hi).to_owned();
    proof {
        let part = s@.subrange(lo as int, hi as int);
        assert(strip_quotes_spec(part) == part);
    }
    r
}

} // verus!
