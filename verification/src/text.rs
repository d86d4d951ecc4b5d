//! Character-level helpers shared by the parsers of this crate.
//!
//! Texts are modelled as `Seq<char>`, the view of `str` and `String`.

use vstd::prelude::*;
use vstd::std_specs::iter::IteratorSpec;

verus! {

/// Whether `c` has the Unicode property `White_Space`.
pub open spec fn is_space(c: char) -> bool {
    let n = c as u32;
    ||| 0x09 <= n <= 0x0D
    ||| n == 0x20
    ||| n == 0x85
    ||| n == 0xA0
    ||| n == 0x1680
    ||| 0x2000 <= n <= 0x200A
    ||| n == 0x2028
    ||| n == 0x2029
    ||| n == 0x202F
    ||| n == 0x205F
    ||| n == 0x3000
}

/// `s` without its leading white space.
pub open spec fn trim_front(s: Seq<char>) -> Seq<char>
    decreases s.len(),
{
    if s.len() > 0 && is_space(s[0]) {
        trim_front(s.drop_first())
    } else {
        s
    }
}

/// `s` without its trailing white space.
pub open spec fn trim_back(s: Seq<char>) -> Seq<char>
    decreases s.len(),
{
    if s.len() > 0 && is_space(s.last()) {
        trim_back(s.drop_last())
    } else {
        s
    }
}

/// `s` without leading and trailing white space.
pub open spec fn trimmed(s: Seq<char>) -> Seq<char> {
    trim_back(trim_front(s))
}

/// Whether `pat` occurs in `s` starting at index `at`.
pub open spec fn infix_at(s: Seq<char>, pat: Seq<char>, at: int) -> bool {
    &&& 0 <= at
    &&& at + pat.len() <= s.len()
    &&& s.subrange(at, at + pat.len()) == pat
}

/// Whether `pat` occurs somewhere in `s` as a contiguous run.
pub open spec fn has_infix(s: Seq<char>, pat: Seq<char>) -> bool {
    exists|at: int| infix_at(s, pat, at)
}

/// `key`, an equals sign, then `value`.
pub open spec fn key_value(key: Seq<char>, value: Seq<char>) -> Seq<char> {
    key.push('=') + value
}

/// Skipping `a` white-space characters, the first of the rest not being one,
/// is trimming the front.
pub proof fn lemma_trim_front(s: Seq<char>, a: int)
    requires
        0 <= a <= s.len(),
        forall|i: int| 0 <= i < a ==> is_space(#[trigger] s[i]),
        a == s.len() || !is_space(s[a]),
    ensures
        trim_front(s) == s.skip(a),
    decreases a,
{
    if a == 0 {
        assert(s.skip(0) == s);
    } else {
        assert(is_space(s[0]));
        let rest = s.drop_first();
        assert forall|i: int| 0 <= i < a - 1 implies is_space(#[trigger] rest[i]) by {
            assert(rest[i] == s[i + 1]);
        }
        lemma_trim_front(rest, a - 1);
        assert(rest.skip(a - 1) == s.skip(a));
    }
}

/// Keeping the first `b` characters, the last of them not white space and
/// all behind them white space, is trimming the back.
pub proof fn lemma_trim_back(s: Seq<char>, b: int)
    requires
        0 <= b <= s.len(),
        forall|i: int| b <= i < s.len() ==> is_space(#[trigger] s[i]),
        b == 0 || !is_space(s[b - 1]),
    ensures
        trim_back(s) == s.take(b),
    decreases s.len() - b,
{
    if b == s.len() {
        assert(s.take(b) == s);
    } else {
        assert(is_space(s.last()));
        let rest = s.drop_last();
        assert forall|i: int| b <= i < rest.len() implies is_space(#[trigger] rest[i]) by {
            assert(rest[i] == s[i]);
        }
        lemma_trim_back(rest, b);
        assert(rest.take(b) == s.take(b));
    }
}

/// A trimmed text neither starts nor ends with white space.
pub proof fn lemma_trimmed_edges(s: Seq<char>)
    ensures
        trimmed(s).len() <= s.len(),
        trimmed(s).len() > 0 ==> !is_space(trimmed(s)[0]) && !is_space(trimmed(s).last()),
        trimmed(trimmed(s)) == trimmed(s),
{
    lemma_trim_front_shape(s);
    lemma_trim_back_shape(trim_front(s));
    let t = trimmed(s);
    if t.len() > 0 {
        let f = trim_front(s);
        // the back trim keeps a prefix of `f`, so the first character stays
        assert(t[0] == f[0]);
        lemma_trim_front(t, 0);
        lemma_trim_back(t, t.len() as int);
        assert(t.skip(0) == t);
        assert(t.take(t.len() as int) == t);
    }
}

/// The front trim is a suffix that does not start with white space.
pub proof fn lemma_trim_front_shape(s: Seq<char>)
    ensures
        trim_front(s).len() <= s.len(),
        trim_front(s) == s.skip(s.len() - trim_front(s).len()),
        trim_front(s).len() > 0 ==> !is_space(trim_front(s)[0]),
    decreases s.len(),
{
    if s.len() > 0 && is_space(s[0]) {
        let rest = s.drop_first();
        lemma_trim_front_shape(rest);
        assert(rest.skip(rest.len() - trim_front(rest).len()) == s.skip(
            s.len() - trim_front(rest).len(),
        ));
    } else {
        assert(s.skip(0) == s);
    }
}

/// The back trim is a prefix that does not end with white space.
pub proof fn lemma_trim_back_shape(s: Seq<char>)
    ensures
        trim_back(s).len() <= s.len(),
        trim_back(s) == s.take(trim_back(s).len() as int),
        trim_back(s).len() > 0 ==> !is_space(trim_back(s).last()),
    decreases s.len(),
{
    if s.len() > 0 && is_space(s.last()) {
        let rest = s.drop_last();
        lemma_trim_back_shape(rest);
        assert(rest.take(trim_back(rest).len() as int) == s.take(trim_back(rest).len() as int));
    } else {
        assert(s.take(s.len() as int) == s);
    }
}

/// Whether `c` is white space.
pub fn is_whitespace(c: char) -> (space: bool)
    ensures
        space == is_space(c),
{
    ('\u{9}' <= c && c <= '\u{d}') || c == ' ' || c == '\u{85}' || c == '\u{a0}' || c == '\u{1680}'
        || ('\u{2000}' <= c && c <= '\u{200a}') || c == '\u{2028}' || c == '\u{2029}' || c
        == '\u{202f}' || c == '\u{205f}' || c == '\u{3000}'
}

/// The characters of `s`, in order.
pub fn chars_of(s: &str) -> (out: Vec<char>)
    ensures
        out@ == s@,
{
    let mut out: Vec<char> = Vec::new();
    for c in it: s.chars()
        invariant
            out@ == it.seq().take(it.index()),
            it.seq() == s@,
    {
        out.push(c);
    }
    out
}

/// Whether two texts hold the same characters.
pub fn text_eq(a: &str, b: &str) -> (same: bool)
    ensures
        same == (a@ == b@),
{
    broadcast use vstd::string::group_string_axioms;

    let mut left = a.chars();
    let mut right = b.chars();
    let ghost mut done: int = 0;
    loop
        invariant
            0 <= done <= a@.len(),
            done <= b@.len(),
            left.remaining() == a@.skip(done),
            right.remaining() == b@.skip(done),
            a@.take(done) == b@.take(done),
            left.obeys_prophetic_iter_laws(),
            right.obeys_prophetic_iter_laws(),
        decreases a@.len() - done,
    {
        let x = left.next();
        let y = right.next();
        match (x, y) {
            (Some(p), Some(q)) => {
                if p != q {
                    assert(a@[done] != b@[done]);
                    return false;
                }
                proof {
                    assert(a@.take(done + 1) == a@.take(done).push(a@[done]));
                    assert(b@.take(done + 1) == b@.take(done).push(b@[done]));
                    assert(a@.skip(done).drop_first() == a@.skip(done + 1));
                    assert(b@.skip(done).drop_first() == b@.skip(done + 1));
                    done = done + 1;
                }
            },
            (None, None) => {
                assert(a@.take(done) == a@);
                assert(b@.take(done) == b@);
                return true;
            },
            _ => {
                assert(a@.len() != b@.len());
                return false;
            },
        }
    }
}

/// The bounds of `chars[from..to]` once its white space at both ends is
/// left out.
pub(crate) fn trim_bounds(chars: &Vec<char>, from: usize, to: usize) -> (cut: (usize, usize))
    requires
        from <= to <= chars.len(),
    ensures
        from <= cut.0 <= cut.1 <= to,
        chars@.subrange(cut.0 as int, cut.1 as int) == trimmed(
            chars@.subrange(from as int, to as int),
        ),
{
    let ghost piece = chars@.subrange(from as int, to as int);
    let mut a: usize = from;
    while a < to && is_whitespace(chars[a])
        invariant
            from <= a <= to <= chars.len(),
            forall|i: int| from <= i < a ==> is_space(#[trigger] chars@[i]),
        decreases to - a,
    {
        a += 1;
    }
    let mut b: usize = to;
    while b > a && is_whitespace(chars[b - 1])
        invariant
            a <= b <= to <= chars.len(),
            forall|i: int| b <= i < to ==> is_space(#[trigger] chars@[i]),
        decreases b,
    {
        b -= 1;
    }
    proof {
        assert forall|i: int| 0 <= i < a - from implies is_space(#[trigger] piece[i]) by {
            assert(piece[i] == chars@[from + i]);
        }
        lemma_trim_front(piece, a - from);
        let front = piece.skip(a - from);
        assert forall|i: int| b - a <= i < front.len() implies is_space(#[trigger] front[i]) by {
            assert(front[i] == chars@[a + i]);
        }
        lemma_trim_back(front, b - a);
        assert(front.take(b - a) == chars@.subrange(a as int, b as int));
    }
    (a, b)
}

/// Whether `pat` occurs in `hay`.
pub fn contains_text(hay: &Vec<char>, pat: &Vec<char>) -> (found: bool)
    ensures
        found == has_infix(hay@, pat@),
{
    if pat.len() > hay.len() {
        assert(!has_infix(hay@, pat@)) by {
            assert forall|at: int| !infix_at(hay@, pat@, at) by {}
        }
        return false;
    }
    let last: usize = hay.len() - pat.len();
    let mut at: usize = 0;
    while at <= last
        invariant
            last == hay.len() - pat.len(),
            at <= last + 1,
            forall|k: int| 0 <= k < at ==> !infix_at(hay@, pat@, k),
        decreases last + 1 - at,
    {
        let mut j: usize = 0;
        while j < pat.len() && hay[at + j] == pat[j]
            invariant
                at + pat.len() <= hay.len(),
                j <= pat.len(),
                forall|k: int| 0 <= k < j ==> hay@[at + k] == pat@[k],
            decreases pat.len() - j,
        {
            j += 1;
        }
        if j == pat.len() {
            assert(hay@.subrange(at as int, at + pat.len()) == pat@);
            assert(infix_at(hay@, pat@, at as int));
            return true;
        }
        assert(!infix_at(hay@, pat@, at as int)) by {
            if infix_at(hay@, pat@, at as int) {
                assert(hay@.subrange(at as int, at + pat.len())[j as int] == pat@[j as int]);
            }
        }
        at += 1;
    }
    assert(!has_infix(hay@, pat@)) by {
        assert forall|k: int| !infix_at(hay@, pat@, k) by {}
    }
    false
}

/// `key`, an equals sign, then `value`, as one text.
pub fn join_key_value(key: &str, value: &str) -> (out: String)
    ensures
        out@ == key_value(key@, value@),
{
    let mut out = key.to_owned();
    proof {
        reveal_strlit("=");
    }
    out.append("=");
    assert(out@ == key@.push('=')) by {
        assert("="@ == seq!['=']);
    }
    out.append(value);
    out
}

} // verus!
