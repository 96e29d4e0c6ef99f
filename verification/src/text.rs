//! Character-level helpers shared by the line codec: white space, trimming and
//! searching, each as a mathematical definition with the executable routine
//! that computes it.
use vstd::prelude::*;

verus! {

/// Whether `c` carries the Unicode `White_Space` property.
pub open spec fn is_whitespace(c: char) -> bool {
    ||| c == ' '
    ||| ('\u{9}' <= c && c <= '\u{d}')
    ||| c == '\u{85}'
    ||| c == '\u{a0}'
    ||| c == '\u{1680}'
    ||| ('\u{2000}' <= c && c <= '\u{200a}')
    ||| c == '\u{2028}'
    ||| c == '\u{2029}'
    ||| c == '\u{202f}'
    ||| c == '\u{205f}'
    ||| c == '\u{3000}'
}

/// The texts of some strings.
pub open spec fn texts(strings: Seq<String>) -> Seq<Seq<char>> {
    strings.map_values(|s: String| s@)
}

/// `s` without its leading white space.
pub open spec fn trim_start(s: Seq<char>) -> Seq<char>
    decreases s.len(),
{
    if s.len() > 0 && is_whitespace(s.first()) {
        trim_start(s.drop_first())
    } else {
        s
    }
}

/// `s` without its trailing white space.
pub open spec fn trim_end(s: Seq<char>) -> Seq<char>
    decreases s.len(),
{
    if s.len() > 0 && is_whitespace(s.last()) {
        trim_end(s.drop_last())
    } else {
        s
    }
}

/// `s` without leading and trailing white space.
pub open spec fn trim(s: Seq<char>) -> Seq<char> {
    trim_end(trim_start(s))
}

/// The number of white-space characters at the start of `s`.
pub open spec fn leading_space(s: Seq<char>) -> int {
    s.len() - trim_start(s).len()
}

/// `s` neither starts nor ends with white space.
pub open spec fn is_trimmed(s: Seq<char>) -> bool {
    s.len() > 0 ==> !is_whitespace(s.first()) && !is_whitespace(s.last())
}

/// The position of the first `x` in `s`, or `s.len()` when there is none.
pub open spec fn index_of<T>(s: Seq<T>, x: T) -> int
    decreases s.len(),
{
    if s.len() == 0 || s.first() == x {
        0
    } else {
        1 + index_of(s.drop_first(), x)
    }
}

/// What `index_of` finds: a position in range, with no `x` before it and `x`
/// at it unless it is the length.
pub proof fn lemma_index_of<T>(s: Seq<T>, x: T)
    ensures
        0 <= index_of(s, x) <= s.len(),
        forall|j: int| 0 <= j < index_of(s, x) ==> s[j] != x,
        index_of(s, x) < s.len() ==> s[index_of(s, x)] == x,
        index_of(s, x) < s.len() <==> s.contains(x),
    decreases s.len(),
{
    if s.len() == 0 || s.first() == x {
        if s.len() > 0 {
            assert(s[0] == x);
        }
    } else {
        let rest = s.drop_first();
        lemma_index_of(rest, x);
        let k = index_of(rest, x);
        assert forall|j: int| 0 <= j < k + 1 implies s[j] != x by {
            if j > 0 {
                assert(s[j] == rest[j - 1]);
            }
        }
        if k < rest.len() {
            assert(s[k + 1] == rest[k]);
        }
        if s.contains(x) {
            let i = choose|i: int| 0 <= i < s.len() && s[i] == x;
            assert(rest[i - 1] == x);
        }
    }
}

/// A position with no `x` before it, holding `x` unless it is the length, is
/// the one that `index_of` finds.
pub proof fn lemma_index_of_is<T>(s: Seq<T>, x: T, i: int)
    requires
        0 <= i <= s.len(),
        forall|j: int| 0 <= j < i ==> s[j] != x,
        i < s.len() ==> s[i] == x,
    ensures
        index_of(s, x) == i,
{
    lemma_index_of(s, x);
}

/// Trimming at the front leaves a tail of the input that does not start with
/// white space.
pub proof fn lemma_trim_start(s: Seq<char>)
    ensures
        trim_start(s).len() <= s.len(),
        trim_start(s) == s.skip(s.len() - trim_start(s).len()),
        trim_start(s).len() > 0 ==> !is_whitespace(trim_start(s).first()),
        forall|j: int| 0 <= j < s.len() - trim_start(s).len() ==> is_whitespace(s[j]),
    decreases s.len(),
{
    if s.len() > 0 && is_whitespace(s.first()) {
        let rest = s.drop_first();
        lemma_trim_start(rest);
        let t = trim_start(rest);
        assert(t =~= s.skip(s.len() - t.len()));
        assert forall|j: int| 0 <= j < s.len() - t.len() implies is_whitespace(s[j]) by {
            if j > 0 {
                assert(s[j] == rest[j - 1]);
            }
        }
    } else {
        assert(s =~= s.skip(0));
    }
}

/// Trimming at the back leaves a head of the input that does not end with
/// white space.
pub proof fn lemma_trim_end(s: Seq<char>)
    ensures
        trim_end(s).len() <= s.len(),
        trim_end(s) == s.take(trim_end(s).len() as int),
        trim_end(s).len() > 0 ==> !is_whitespace(trim_end(s).last()),
        forall|j: int| trim_end(s).len() <= j < s.len() ==> is_whitespace(s[j]),
    decreases s.len(),
{
    if s.len() > 0 && is_whitespace(s.last()) {
        let rest = s.drop_last();
        lemma_trim_end(rest);
        let t = trim_end(rest);
        assert(t =~= s.take(t.len() as int));
        assert forall|j: int| t.len() <= j < s.len() implies is_whitespace(s[j]) by {
            if j < s.len() - 1 {
                assert(s[j] == rest[j]);
            }
        }
    } else {
        assert(s =~= s.take(s.len() as int));
    }
}

/// The result of `trim` is trimmed.
pub proof fn lemma_trim_is_trimmed(s: Seq<char>)
    ensures
        is_trimmed(trim(s)),
        trim(s).len() <= s.len(),
{
    let t = trim_start(s);
    lemma_trim_start(s);
    lemma_trim_end(t);
    if trim(s).len() > 0 {
        assert(trim(s).first() == t.first());
    }
}

/// White space added at the end changes the front of a sequence only where
/// the sequence is white space throughout.
proof fn lemma_trim_start_push(s: Seq<char>, w: char)
    requires
        is_whitespace(w),
    ensures
        trim_start(s.push(w)) == if trim_start(s).len() == 0 {
            Seq::<char>::empty()
        } else {
            trim_start(s).push(w)
        },
    decreases s.len(),
{
    let t = s.push(w);
    if s.len() == 0 {
        assert(t.first() == w);
        assert(t.drop_first() =~= Seq::<char>::empty());
        assert(trim_start(t.drop_first()) =~= Seq::<char>::empty());
    } else if is_whitespace(s.first()) {
        assert(t.first() == s.first());
        assert(t.drop_first() =~= s.drop_first().push(w));
        lemma_trim_start_push(s.drop_first(), w);
    } else {
        assert(t.first() == s.first());
    }
}

/// White space added at the end is trimmed away again.
pub proof fn lemma_trim_push(s: Seq<char>, w: char)
    requires
        is_whitespace(w),
    ensures
        trim(s.push(w)) == trim(s),
{
    lemma_trim_start_push(s, w);
    let t = trim_start(s);
    if t.len() > 0 {
        assert(t.push(w).last() == w);
        assert(t.push(w).drop_last() =~= t);
    }
}

/// A trimmed window of `s` from `a` to `b`, with only white space between `lo`
/// and `a` and between `b` and `hi`, is the trim of the window from `lo` to `hi`.
pub proof fn lemma_trim_window(s: Seq<char>, lo: int, a: int, b: int, hi: int)
    requires
        0 <= lo <= a <= b <= hi <= s.len(),
        forall|j: int| lo <= j < a ==> is_whitespace(s[j]),
        forall|j: int| b <= j < hi ==> is_whitespace(s[j]),
        is_trimmed(s.subrange(a, b)),
        a == b ==> a == hi,
    ensures
        trim(s.subrange(lo, hi)) == s.subrange(a, b),
    decreases hi - lo,
{
    let w = s.subrange(lo, hi);
    if lo < a {
        assert(w.first() == s[lo]);
        assert(w.drop_first() =~= s.subrange(lo + 1, hi));
        lemma_trim_window(s, lo + 1, a, b, hi);
    } else if b < hi {
        // lo == a < b: the front is settled, the back still holds white space
        assert(a < b);
        assert(w.first() == s.subrange(a, b).first());
        assert(trim_start(w) == w);
        assert(w.last() == s[hi - 1]);
        assert(w.drop_last() =~= s.subrange(lo, hi - 1));
        lemma_trim_window(s, lo, a, b, hi - 1);
        assert(trim_start(s.subrange(lo, hi - 1)) == s.subrange(lo, hi - 1)) by {
            assert(s.subrange(lo, hi - 1).first() == s.subrange(a, b).first());
        }
    } else {
        if w.len() > 0 {
            assert(w =~= s.subrange(a, b));
        }
    }
}

/// Whether `c` is white space.
pub fn is_whitespace_char(c: char) -> (r: bool)
    ensures
        r == is_whitespace(c),
{
    c == ' ' || ('\u{9}' <= c && c <= '\u{d}') || c == '\u{85}' || c == '\u{a0}' || c == '\u{1680}'
        || ('\u{2000}' <= c && c <= '\u{200a}') || c == '\u{2028}' || c == '\u{2029}' || c
        == '\u{202f}' || c == '\u{205f}' || c == '\u{3000}'
}

/// The characters of `s`, one element each.
pub fn to_chars(s: &str) -> (v: Vec<char>)
    ensures
        v@ == s@,
{
    let mut v: Vec<char> = Vec::new();
    for c in it: s.chars()
        invariant
            v@ == it.seq().take(it.index() as int),
            it.seq() == s@,
    {
        v.push(c);
    }
    v
}

/// The bounds of the trim of the window of `v` from `lo` to `hi`.
pub fn trim_window(v: &Vec<char>, lo: usize, hi: usize) -> (r: (usize, usize))
    requires
        lo <= hi <= v.len(),
    ensures
        lo <= r.0 <= r.1 <= hi,
        v@.subrange(r.0 as int, r.1 as int) == trim(v@.subrange(lo as int, hi as int)),
{
    let mut a: usize = lo;
    while a < hi && is_whitespace_char(v[a])
        invariant
            lo <= a <= hi <= v.len(),
            forall|j: int| lo <= j < a ==> is_whitespace(v@[j]),
        decreases hi - a,
    {
        a = a + 1;
    }
    let mut b: usize = hi;
    while b > a && is_whitespace_char(v[b - 1])
        invariant
            a <= b <= hi <= v.len(),
            forall|j: int| b <= j < hi ==> is_whitespace(v@[j]),
        decreases b,
    {
        b = b - 1;
    }
    proof {
        if a < b {
            assert(v@.subrange(a as int, b as int).first() == v@[a as int]);
            assert(v@.subrange(a as int, b as int).last() == v@[b - 1]);
        }
        lemma_trim_window(v@, lo as int, a as int, b as int, hi as int);
    }
    (a, b)
}

/// The position of the first `c` in the window of `v` from `lo` to `hi`, or
/// `hi` when the window holds none.
pub fn find_char(v: &Vec<char>, lo: usize, hi: usize, c: char) -> (r: usize)
    requires
        lo <= hi <= v.len(),
    ensures
        lo <= r <= hi,
        r - lo == index_of(v@.subrange(lo as int, hi as int), c),
{
    let mut i: usize = lo;
    while i < hi && v[i] != c
        invariant
            lo <= i <= hi <= v.len(),
            forall|j: int| lo <= j < i ==> v@[j] != c,
        decreases hi - i,
    {
        i = i + 1;
    }
    proof {
        lemma_index_of_is(v@.subrange(lo as int, hi as int), c, i - lo);
    }
    i
}

/// Whether the window of `v` from `lo` to `hi` spells exactly `text`.
pub fn window_is(v: &Vec<char>, lo: usize, hi: usize, text: &str) -> (r: bool)
    requires
        lo <= hi <= v.len(),
    ensures
        r == (v@.subrange(lo as int, hi as int) == text@),
{
    let mut i: usize = lo;
    let mut same: bool = true;
    for c in it: text.chars()
        invariant
            it.seq() == text@,
            lo <= i <= hi <= v.len(),
            same ==> i == lo + it.index(),
            same ==> forall|j: int| 0 <= j < it.index() ==> v@[lo + j] == text@[j],
            !same ==> v@.subrange(lo as int, hi as int) != text@,
    {
        if same {
            if i < hi && v[i] == c {
                i = i + 1;
            } else {
                same = false;
                proof {
                    let k = it.index() as int;
                    let w = v@.subrange(lo as int, hi as int);
                    if i < hi {
                        assert(w[k] == v@[lo + k]);
                    }
                }
            }
        }
    }
    proof {
        let w = v@.subrange(lo as int, hi as int);
        if same && i == hi {
            assert(w =~= text@);
        }
    }
    same && i == hi
}

} // verus!
