//! Splitting decoded text: a post's body is split on the ASCII space alone,
//! and a decoded file is split into lines the way `str::lines` does it.

use vstd::prelude::*;
use vstd::string::StrSliceExecFns;

verus! {

/// Index of the first occurrence of `sep` in `s`, or `s.len()` when absent.
pub open spec fn first_at(s: Seq<char>, sep: char) -> int
    decreases s.len(),
{
    if s.len() == 0 {
        0
    } else if s[0] == sep {
        0
    } else {
        1 + first_at(s.drop_first(), sep)
    }
}

proof fn lemma_first_at_of(s: Seq<char>, sep: char, f: int)
    requires
        0 <= f <= s.len(),
        forall|j: int| 0 <= j < f ==> #[trigger] s[j] != sep,
        f < s.len() ==> s[f] == sep,
    ensures
        first_at(s, sep) == f,
    decreases f,
{
    if f > 0 {
        assert(s[0] != sep);
        assert(forall|j: int| 0 <= j < s.len() - 1 ==> #[trigger] s.drop_first()[j] == s[j + 1]);
        lemma_first_at_of(s.drop_first(), sep, f - 1);
    } else {
        if s.len() > 0 {
            assert(s[0] == sep);
        }
    }
}

/// The pieces of `s` split on `sep` alone; empty pieces are kept, and the
/// empty text yields one empty piece, as `str::split` does.
pub open spec fn split_at_spec(s: Seq<char>, sep: char) -> Seq<Seq<char>>
    decreases s.len(),
{
    let f = first_at(s, sep);
    if 0 <= f < s.len() {
        seq![s.take(f)] + split_at_spec(s.skip(f + 1), sep)
    } else {
        seq![s]
    }
}

/// A line with one trailing carriage return removed.
pub open spec fn strip_cr(l: Seq<char>) -> Seq<char> {
    if l.len() > 0 && l[l.len() - 1] == '\r' {
        l.drop_last()
    } else {
        l
    }
}

/// The lines of `s`, the way `str::lines` yields them: pieces split on line
/// feeds lose one trailing carriage return, a final piece without a line feed
/// is kept as it stands, and a trailing line feed opens no empty last line.
pub open spec fn lines_spec(s: Seq<char>) -> Seq<Seq<char>>
    decreases s.len(),
{
    if s.len() == 0 {
        Seq::empty()
    } else {
        let f = first_at(s, '\n');
        if 0 <= f < s.len() {
            seq![strip_cr(s.take(f))] + lines_spec(s.skip(f + 1))
        } else {
            seq![s]
        }
    }
}

/// Splits a post's text on the ASCII space character only.
pub fn split_words(s: &str) -> (r: Vec<String>)
    ensures
        r.deep_view() == split_at_spec(s@, ' '),
{
    let n = s.unicode_len();
    let mut r: Vec<String> = Vec::new();
    let mut start: usize = 0;
    let mut i: usize = 0;
    proof {
        assert(s@.skip(0) =~= s@);
    }
    while i < n
        invariant
            start <= i <= n == s@.len(),
            forall|j: int| start <= j < i ==> #[trigger] s@[j] != ' ',
            split_at_spec(s@, ' ') == r.deep_view() + split_at_spec(s@.skip(start as int), ' '),
        decreases n - i,
    {
        if s.get_char(i) == ' ' {
            let ghost r0 = r.deep_view();
            let piece = s.substring_char(start, i).to_owned();
            r.push(piece);
            proof {
                let u = s@.skip(start as int);
                assert(forall|j: int| 0 <= j < u.len() ==> #[trigger] u[j] == s@[start + j]);
                lemma_first_at_of(u, ' ', i - start);
                assert(u.take(i - start) =~= s@.subrange(start as int, i as int));
                assert(u.skip(i - start + 1) =~= s@.skip(i + 1));
                assert(r.deep_view() =~= r0.push(s@.subrange(start as int, i as int)));
                assert(r.deep_view() + split_at_spec(s@.skip(i + 1), ' ') =~= r0 + split_at_spec(
                    u,
                    ' ',
                ));
            }
            start = i + 1;
        }
        i += 1;
    }
    let ghost r0 = r.deep_view();
    let piece = s.substring_char(start, n).to_owned();
    r.push(piece);
    proof {
        let u = s@.skip(start as int);
        assert(forall|j: int| 0 <= j < u.len() ==> #[trigger] u[j] == s@[start + j]);
        lemma_first_at_of(u, ' ', n - start);
        assert(u =~= s@.subrange(start as int, n as int));
        assert(split_at_spec(u, ' ') =~= seq![u]);
        assert(r.deep_view() =~= r0.push(u));
        assert(r.deep_view() =~= split_at_spec(s@, ' '));
    }
    r
}

/// Splits decoded file contents into lines, as `str::lines` does.
pub fn split_lines(s: &str) -> (r: Vec<String>)
    ensures
        r.deep_view() == lines_spec(s@),
{
    let n = s.unicode_len();
    let mut r: Vec<String> = Vec::new();
    let mut start: usize = 0;
    let mut i: usize = 0;
    proof {
        assert(s@.skip(0) =~= s@);
    }
    while i < n
        invariant
            start <= i <= n == s@.len(),
            forall|j: int| start <= j < i ==> #[trigger] s@[j] != '\n',
            lines_spec(s@) == r.deep_view() + lines_spec(s@.skip(start as int)),
        decreases n - i,
    {
        if s.get_char(i) == '\n' {
            let ghost r0 = r.deep_view();
            let end = if i > start && s.get_char(i - 1) == '\r' {
                i - 1
            } else {
                i
            };
            let piece = s.substring_char(start, end).to_owned();
            r.push(piece);
            proof {
                let u = s@.skip(start as int);
                assert(forall|j: int| 0 <= j < u.len() ==> #[trigger] u[j] == s@[start + j]);
                lemma_first_at_of(u, '\n', i - start);
                assert(u.len() > 0);
                assert(u.take(i - start) =~= s@.subrange(start as int, i as int));
                assert(strip_cr(u.take(i - start)) =~= s@.subrange(start as int, end as int));
                assert(u.skip(i - start + 1) =~= s@.skip(i + 1));
                assert(r.deep_view() =~= r0.push(s@.subrange(start as int, end as int)));
                assert(r.deep_view() + lines_spec(s@.skip(i + 1)) =~= r0 + lines_spec(u));
            }
            start = i + 1;
        }
        i += 1;
    }
    if start < n {
        let ghost r0 = r.deep_view();
        let piece = s.substring_char(start, n).to_owned();
        r.push(piece);
        proof {
            let u = s@.skip(start as int);
            assert(forall|j: int| 0 <= j < u.len() ==> #[trigger] u[j] == s@[start + j]);
            lemma_first_at_of(u, '\n', n - start);
            assert(u =~= s@.subrange(start as int, n as int));
            assert(u.len() > 0);
            assert(lines_spec(u) =~= seq![u]);
            assert(r.deep_view() =~= r0.push(u));
            assert(r.deep_view() =~= lines_spec(s@));
        }
    } else {
        proof {
            assert(s@.skip(start as int) =~= Seq::<char>::empty());
            assert(lines_spec(s@.skip(start as int)) =~= Seq::<Seq<char>>::empty());
            assert(r.deep_view() =~= lines_spec(s@));
        }
    }
    r
}

} // verus!
