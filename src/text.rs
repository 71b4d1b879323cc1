//! Character-level text model: whitespace, trimming, prefixes and line splitting,
//! with executable counterparts that work on a line's characters.
use vstd::prelude::*;

verus! {

/// The characters that carry the Unicode `White_Space` property.
pub open spec fn is_ws(c: char) -> bool {
    let u = c as u32;
    (0x09 <= u && u <= 0x0D) || u == 0x20 || u == 0x85 || u == 0xA0 || u == 0x1680 || (0x2000
        <= u && u <= 0x200A) || u == 0x2028 || u == 0x2029 || u == 0x202F || u == 0x205F || u
        == 0x3000
}

/// `s` with its leading whitespace removed.
pub open spec fn trim_start(s: Seq<char>) -> Seq<char>
    decreases s.len(),
{
    if s.len() > 0 && is_ws(s[0]) {
        trim_start(s.drop_first())
    } else {
        s
    }
}

/// `s` with its trailing whitespace removed.
pub open spec fn trim_end(s: Seq<char>) -> Seq<char>
    decreases s.len(),
{
    if s.len() > 0 && is_ws(s.last()) {
        trim_end(s.drop_last())
    } else {
        s
    }
}

/// `s` with whitespace removed at both ends.
pub open spec fn trim(s: Seq<char>) -> Seq<char> {
    trim_end(trim_start(s))
}

/// Whether `s` holds a whitespace character anywhere.
pub open spec fn has_ws(s: Seq<char>) -> bool {
    exists|i: int| 0 <= i < s.len() && is_ws(#[trigger] s[i])
}

/// Index of the first `'\n'` of `s`, or `s.len()` when there is none.
pub open spec fn newline_index(s: Seq<char>) -> nat
    decreases s.len(),
{
    if s.len() == 0 || s[0] == '\n' {
        0
    } else {
        1 + newline_index(s.drop_first())
    }
}

/// A line that ended in `"\r\n"` loses its `'\r'`.
pub open spec fn drop_cr(l: Seq<char>) -> Seq<char> {
    if l.len() > 0 && l.last() == '\r' {
        l.drop_last()
    } else {
        l
    }
}

/// The lines of `s`: split at `'\n'` or `"\r\n"`; the final line ending is optional,
/// and a final line without one keeps its characters as they are.
pub open spec fn lines(s: Seq<char>) -> Seq<Seq<char>>
    decreases s.len(),
{
    if s.len() == 0 {
        seq![]
    } else if newline_index(s) < s.len() {
        seq![drop_cr(s.take(newline_index(s) as int))] + lines(
            s.skip(newline_index(s) as int + 1),
        )
    } else {
        seq![s]
    }
}

/// Number of bytes that UTF-8 takes for `c`.
pub open spec fn utf8_width(c: char) -> nat {
    let u = c as u32;
    if u < 0x80 {
        1
    } else if u < 0x800 {
        2
    } else if u < 0x10000 {
        3
    } else {
        4
    }
}

/// Number of bytes of the UTF-8 encoding of `s`.
pub open spec fn utf8_len(s: Seq<char>) -> nat
    decreases s.len(),
{
    if s.len() == 0 {
        0
    } else {
        utf8_len(s.drop_last()) + utf8_width(s.last())
    }
}

/// The view of each string of a sequence.
pub open spec fn views_of(v: Seq<&str>) -> Seq<Seq<char>> {
    v.map_values(|l: &str| l@)
}

pub proof fn lemma_trim_start_skip(s: Seq<char>, k: int)
    requires
        0 <= k <= s.len(),
        forall|i: int| 0 <= i < k ==> is_ws(#[trigger] s[i]),
        k == s.len() || !is_ws(s[k]),
    ensures
        trim_start(s) == s.skip(k),
    decreases k,
{
    if k == 0 {
        assert(s.skip(0) =~= s);
    } else {
        let t = s.drop_first();
        assert forall|i: int| 0 <= i < k - 1 implies is_ws(#[trigger] t[i]) by {
            assert(t[i] == s[i + 1]);
        }
        lemma_trim_start_skip(t, k - 1);
        assert(t.skip(k - 1) =~= s.skip(k));
    }
}

pub proof fn lemma_trim_end_take(s: Seq<char>, k: int)
    requires
        0 <= k <= s.len(),
        forall|i: int| k <= i < s.len() ==> is_ws(#[trigger] s[i]),
        k == 0 || !is_ws(s[k - 1]),
    ensures
        trim_end(s) == s.take(k),
    decreases s.len() - k,
{
    if k == s.len() {
        assert(s.take(k) =~= s);
    } else {
        let t = s.drop_last();
        assert forall|i: int| k <= i < t.len() implies is_ws(#[trigger] t[i]) by {
            assert(t[i] == s[i]);
        }
        lemma_trim_end_take(t, k);
        assert(t.take(k) =~= s.take(k));
    }
}

/// Trimming leaves nothing exactly when every character is whitespace.
pub proof fn lemma_trim_empty(s: Seq<char>)
    ensures
        (trim(s).len() == 0) <==> (forall|i: int| 0 <= i < s.len() ==> is_ws(#[trigger] s[i])),
    decreases s.len(),
{
    lemma_trim_start_all(s);
    let t = trim_start(s);
    if t.len() > 0 {
        lemma_trim_end_nonempty(t);
    }
}

proof fn lemma_trim_start_all(s: Seq<char>)
    ensures
        (trim_start(s).len() == 0) <==> (forall|i: int|
            0 <= i < s.len() ==> is_ws(#[trigger] s[i])),
        trim_start(s).len() > 0 ==> !is_ws(trim_start(s)[0]),
        trim_start(s).len() <= s.len(),
    decreases s.len(),
{
    if s.len() > 0 && is_ws(s[0]) {
        let t = s.drop_first();
        lemma_trim_start_all(t);
        if trim_start(t).len() == 0 {
            assert forall|i: int| 0 <= i < s.len() implies is_ws(#[trigger] s[i]) by {
                if i > 0 {
                    assert(s[i] == t[i - 1]);
                }
            }
        } else {
            assert(!(forall|i: int| 0 <= i < s.len() ==> is_ws(#[trigger] s[i]))) by {
                let j = choose|j: int| 0 <= j < t.len() && !is_ws(#[trigger] t[j]);
                assert(s[j + 1] == t[j]);
            }
        }
    }
}

proof fn lemma_trim_end_nonempty(s: Seq<char>)
    requires
        s.len() > 0,
        !is_ws(s[0]),
    ensures
        trim_end(s).len() > 0,
    decreases s.len(),
{
    if is_ws(s.last()) {
        lemma_trim_end_nonempty(s.drop_last());
    }
}

pub proof fn lemma_newline_index_bound(s: Seq<char>)
    ensures
        newline_index(s) <= s.len(),
        newline_index(s) < s.len() ==> s[newline_index(s) as int] == '\n',
        forall|j: int| 0 <= j < newline_index(s) ==> s[j] != '\n',
    decreases s.len(),
{
    if s.len() > 0 && s[0] != '\n' {
        let t = s.drop_first();
        lemma_newline_index_bound(t);
        assert forall|j: int| 0 <= j < newline_index(s) implies s[j] != '\n' by {
            if j > 0 {
                assert(s[j] == t[j - 1]);
            }
        }
    }
}

/// The first line break of `s` is also the first of `s + t`.
pub proof fn lemma_newline_index_concat(s: Seq<char>, t: Seq<char>)
    requires
        newline_index(s) < s.len(),
    ensures
        newline_index(s + t) == newline_index(s),
    decreases s.len(),
{
    if s[0] != '\n' {
        assert((s + t).drop_first() =~= s.drop_first() + t);
        lemma_newline_index_concat(s.drop_first(), t);
    }
}

/// A line without a break, followed by one.
pub proof fn lemma_newline_index_first(x: Seq<char>, t: Seq<char>)
    requires
        !x.contains('\n'),
    ensures
        newline_index(x + seq!['\n'] + t) == x.len(),
    decreases x.len(),
{
    let s = x + seq!['\n'] + t;
    if x.len() > 0 {
        assert(s[0] == x[0]);
        assert(s.drop_first() =~= x.drop_first() + seq!['\n'] + t);
        assert(!x.drop_first().contains('\n')) by {
            if x.drop_first().contains('\n') {
                let j = choose|j: int| 0 <= j < x.drop_first().len() && x.drop_first()[j] == '\n';
                assert(x[j + 1] == '\n');
            }
        }
        lemma_newline_index_first(x.drop_first(), t);
    } else {
        assert(s[0] == '\n');
    }
}

/// The lines of a text that ends in a line break, followed by more text.
pub proof fn lemma_lines_append(s: Seq<char>, t: Seq<char>)
    requires
        s.len() > 0,
        s.last() == '\n',
    ensures
        lines(s + t) == lines(s) + lines(t),
    decreases s.len(),
{
    lemma_newline_index_bound(s);
    if newline_index(s) == s.len() {
        assert(s[s.len() - 1] != '\n');
    }
    let i = newline_index(s) as int;
    lemma_newline_index_concat(s, t);
    assert((s + t).take(i) =~= s.take(i));
    assert((s + t).skip(i + 1) =~= s.skip(i + 1) + t);
    if i + 1 == s.len() {
        assert(s.skip(i + 1) =~= seq![]);
        assert(s.skip(i + 1) + t =~= t);
        assert(lines(s.skip(i + 1)) =~= seq![]);
        assert(lines(s + t) =~= seq![drop_cr(s.take(i))] + lines(t));
        assert(lines(s) =~= seq![drop_cr(s.take(i))] + seq![]);
    } else {
        let r = s.skip(i + 1);
        assert(r.last() == s.last());
        lemma_lines_append(r, t);
        assert(lines(s + t) =~= seq![drop_cr(s.take(i))] + (lines(r) + lines(t)));
        assert(lines(s) =~= seq![drop_cr(s.take(i))] + lines(r));
    }
}

/// One line without a break and not ending in `'\r'`, then a break.
pub proof fn lemma_lines_single(x: Seq<char>)
    requires
        !x.contains('\n'),
        x.len() == 0 || x.last() != '\r',
    ensures
        lines(x + seq!['\n']) == seq![x],
{
    let s = x + seq!['\n'];
    lemma_newline_index_first(x, seq![]);
    assert(x + seq!['\n'] + seq![] =~= s);
    assert(s.take(x.len() as int) =~= x);
    assert(s.skip(x.len() as int + 1) =~= seq![]);
    assert(lines(s.skip(x.len() as int + 1)) =~= seq![]);
    assert(lines(s) =~= seq![x]);
}

/// No `'\r'` stands directly before a `'\n'` in `s`.
pub open spec fn no_crlf(s: Seq<char>) -> bool {
    forall|i: int| 0 < i < s.len() && #[trigger] s[i] == '\n' ==> s[i - 1] != '\r'
}

/// A final line break adds no line to a text whose last line is not empty.
pub proof fn lemma_lines_trailing(c: Seq<char>)
    requires
        c.len() > 0,
        c.last() != '\n',
        c.last() != '\r',
    ensures
        lines(c + seq!['\n']) == lines(c),
    decreases c.len(),
{
    lemma_newline_index_bound(c);
    let i = newline_index(c) as int;
    if i == c.len() {
        assert(!c.contains('\n'));
        lemma_lines_single(c);
    } else {
        let s = c + seq!['\n'];
        lemma_newline_index_concat(c, seq!['\n']);
        assert(s.take(i) =~= c.take(i));
        let r = c.skip(i + 1);
        assert(s.skip(i + 1) =~= r + seq!['\n']);
        assert(r.len() > 0);
        assert(r.last() == c.last());
        lemma_lines_trailing(r);
    }
}

/// Executable test for [`is_ws`].
pub fn is_whitespace_char(c: char) -> (r: bool)
    ensures
        r == is_ws(c),
{
    let u = c as u32;
    (0x09 <= u && u <= 0x0D) || u == 0x20 || u == 0x85 || u == 0xA0 || u == 0x1680 || (0x2000
        <= u && u <= 0x200A) || u == 0x2028 || u == 0x2029 || u == 0x202F || u == 0x205F || u
        == 0x3000
}

/// The characters of `s`, in order.
pub fn chars_of(s: &str) -> (r: Vec<char>)
    ensures
        r@ == s@,
{
    let mut r: Vec<char> = Vec::new();
    for c in it: s.chars()
        invariant
            r@ == it.seq().take(it.index() as int),
            it.seq() == s@,
    {
        r.push(c);
    }
    r
}

/// First index in `lo..hi` that is not whitespace (or `hi`): the start of the
/// trimmed range.
pub fn skip_ws_forward(v: &Vec<char>, lo: usize, hi: usize) -> (k: usize)
    requires
        lo <= hi <= v@.len(),
    ensures
        lo <= k <= hi,
        trim_start(v@.subrange(lo as int, hi as int)) == v@.subrange(k as int, hi as int),
{
    let mut k = lo;
    while k < hi && is_whitespace_char(v[k])
        invariant
            lo <= k <= hi <= v@.len(),
            forall|i: int| lo <= i < k ==> is_ws(#[trigger] v@[i]),
        decreases hi - k,
    {
        k = k + 1;
    }
    proof {
        let s = v@.subrange(lo as int, hi as int);
        assert forall|i: int| 0 <= i < k - lo implies is_ws(#[trigger] s[i]) by {
            assert(s[i] == v@[lo + i]);
        }
        lemma_trim_start_skip(s, k - lo);
        assert(s.skip(k - lo) =~= v@.subrange(k as int, hi as int));
    }
    k
}

/// One past the last index in `lo..hi` that is not whitespace (or `lo`): the end
/// of the trimmed range.
pub fn skip_ws_backward(v: &Vec<char>, lo: usize, hi: usize) -> (k: usize)
    requires
        lo <= hi <= v@.len(),
    ensures
        lo <= k <= hi,
        trim_end(v@.subrange(lo as int, hi as int)) == v@.subrange(lo as int, k as int),
{
    let mut k = hi;
    while k > lo && is_whitespace_char(v[k - 1])
        invariant
            lo <= k <= hi <= v@.len(),
            forall|i: int| k <= i < hi ==> is_ws(#[trigger] v@[i]),
        decreases k - lo,
    {
        k = k - 1;
    }
    proof {
        let s = v@.subrange(lo as int, hi as int);
        assert forall|i: int| k - lo <= i < s.len() implies is_ws(#[trigger] s[i]) by {
            assert(s[i] == v@[lo + i]);
        }
        lemma_trim_end_take(s, k - lo);
        assert(s.take(k - lo) =~= v@.subrange(lo as int, k as int));
    }
    k
}

/// Bounds `(a, b)` of the trimmed part of `v@.subrange(lo, hi)`.
pub fn trim_bounds(v: &Vec<char>, lo: usize, hi: usize) -> (r: (usize, usize))
    requires
        lo <= hi <= v@.len(),
    ensures
        lo <= r.0 <= r.1 <= hi,
        trim(v@.subrange(lo as int, hi as int)) == v@.subrange(r.0 as int, r.1 as int),
        trim_start(v@.subrange(lo as int, hi as int)) == v@.subrange(r.0 as int, hi as int),
{
    let a = skip_ws_forward(v, lo, hi);
    let b = skip_ws_backward(v, a, hi);
    (a, b)
}

/// Whether `p` is a prefix of `v@.subrange(lo, hi)`.
pub fn has_prefix_at(v: &Vec<char>, lo: usize, hi: usize, p: &Vec<char>) -> (r: bool)
    requires
        lo <= hi <= v@.len(),
    ensures
        r == p@.is_prefix_of(v@.subrange(lo as int, hi as int)),
{
    if p.len() > hi - lo {
        return false;
    }
    let mut i: usize = 0;
    while i < p.len()
        invariant
            p@.len() <= hi - lo,
            lo <= hi <= v@.len(),
            i <= p@.len(),
            forall|j: int| 0 <= j < i ==> p@[j] == v@[lo + j],
        decreases p@.len() - i,
    {
        if p[i] != v[lo + i] {
            proof {
                let s = v@.subrange(lo as int, hi as int);
                assert(s.subrange(0, p@.len() as int)[i as int] == v@[lo + i]);
            }
            return false;
        }
        i = i + 1;
    }
    assert(p@ =~= v@.subrange(lo as int, hi as int).subrange(0, p@.len() as int));
    true
}

/// Whether `p` is a suffix of `v@.subrange(lo, hi)`.
pub fn has_suffix_at(v: &Vec<char>, lo: usize, hi: usize, p: &Vec<char>) -> (r: bool)
    requires
        lo <= hi <= v@.len(),
    ensures
        r == p@.is_suffix_of(v@.subrange(lo as int, hi as int)),
{
    if p.len() > hi - lo {
        return false;
    }
    let start = hi - p.len();
    let mut i: usize = 0;
    while i < p.len()
        invariant
            p@.len() <= hi - lo,
            start == hi - p@.len(),
            lo <= hi <= v@.len(),
            i <= p@.len(),
            forall|j: int| 0 <= j < i ==> p@[j] == v@[start + j],
        decreases p@.len() - i,
    {
        if p[i] != v[start + i] {
            proof {
                let s = v@.subrange(lo as int, hi as int);
                assert(s.subrange(s.len() - p@.len(), s.len() as int)[i as int] == v@[start + i]);
            }
            return false;
        }
        i = i + 1;
    }
    proof {
        let s = v@.subrange(lo as int, hi as int);
        assert(p@ =~= s.subrange(s.len() - p@.len(), s.len() as int));
    }
    true
}

/// Whether `c` occurs in `v@.subrange(lo, hi)`.
pub fn contains_at(v: &Vec<char>, lo: usize, hi: usize, c: char) -> (r: bool)
    requires
        lo <= hi <= v@.len(),
    ensures
        r == v@.subrange(lo as int, hi as int).contains(c),
{
    let mut i = lo;
    while i < hi
        invariant
            lo <= i <= hi <= v@.len(),
            forall|j: int| lo <= j < i ==> v@[j] != c,
        decreases hi - i,
    {
        if v[i] == c {
            assert(v@.subrange(lo as int, hi as int)[i - lo] == c);
            return true;
        }
        i = i + 1;
    }
    assert forall|j: int| 0 <= j < hi - lo implies v@.subrange(lo as int, hi as int)[j] != c by {
        assert(v@.subrange(lo as int, hi as int)[j] == v@[lo + j]);
    }
    false
}

/// Whether `v@.subrange(lo, hi)` holds a whitespace character.
pub fn has_ws_at(v: &Vec<char>, lo: usize, hi: usize) -> (r: bool)
    requires
        lo <= hi <= v@.len(),
    ensures
        r == has_ws(v@.subrange(lo as int, hi as int)),
{
    let ghost s = v@.subrange(lo as int, hi as int);
    let mut i = lo;
    while i < hi
        invariant
            lo <= i <= hi <= v@.len(),
            s == v@.subrange(lo as int, hi as int),
            forall|j: int| lo <= j < i ==> !is_ws(#[trigger] v@[j]),
        decreases hi - i,
    {
        if is_whitespace_char(v[i]) {
            assert(is_ws(s[i - lo]));
            return true;
        }
        i = i + 1;
    }
    assert forall|j: int| 0 <= j < s.len() implies !is_ws(#[trigger] s[j]) by {
        assert(s[j] == v@[lo + j]);
    }
    false
}

/// Whether the UTF-8 encoding of `v@` is longer than `bound` bytes.
pub fn utf8_len_exceeds(v: &Vec<char>, bound: usize) -> (r: bool)
    requires
        bound < usize::MAX - 4,
    ensures
        r == (utf8_len(v@) > bound),
{
    let mut sum: usize = 0;
    let mut i: usize = 0;
    while i < v.len()
        invariant
            i <= v@.len(),
            bound < usize::MAX - 4,
            sum == utf8_len(v@.take(i as int)),
            sum <= bound,
        decreases v@.len() - i,
    {
        let u = v[i] as u32;
        let w: usize = if u < 0x80 {
            1
        } else if u < 0x800 {
            2
        } else if u < 0x10000 {
            3
        } else {
            4
        };
        assert(v@.take(i + 1).drop_last() =~= v@.take(i as int));
        sum = sum + w;
        i = i + 1;
        if sum > bound {
            proof {
                lemma_utf8_len_prefix(v@, i as int);
            }
            return true;
        }
    }
    assert(v@.take(i as int) =~= v@);
    false
}

/// A prefix takes no more bytes than the whole.
pub proof fn lemma_utf8_len_prefix(s: Seq<char>, i: int)
    requires
        0 <= i <= s.len(),
    ensures
        utf8_len(s.take(i)) <= utf8_len(s),
    decreases s.len() - i,
{
    if i < s.len() {
        assert(s.take(i + 1).drop_last() =~= s.take(i));
        lemma_utf8_len_prefix(s, i + 1);
    } else {
        assert(s.take(i) =~= s);
    }
}

/// Whether `a` and `b` hold the same characters.
pub fn same_text(a: &str, b: &str) -> (r: bool)
    ensures
        r == (a@ == b@),
{
    let av = chars_of(a);
    let bv = chars_of(b);
    if av.len() != bv.len() {
        return false;
    }
    let mut i: usize = 0;
    while i < av.len()
        invariant
            i <= av@.len(),
            av@.len() == bv@.len(),
            av@ == a@,
            bv@ == b@,
            forall|j: int| 0 <= j < i ==> av@[j] == bv@[j],
        decreases av@.len() - i,
    {
        if av[i] != bv[i] {
            assert(av@[i as int] != bv@[i as int]);
            return false;
        }
        i = i + 1;
    }
    assert(av@ =~= bv@);
    true
}

/// Relies on `String::push`: the character is appended at the end.
#[verifier::external_body]
pub(crate) fn push_char(s: &mut String, c: char)
    ensures
        final(s)@ == old(s)@.push(c),
{
    s.push(c)
}

/// The views of a sequence of strings.
pub open spec fn string_views(v: Seq<String>) -> Seq<Seq<char>> {
    v.map_values(|l: String| l@)
}

/// The lines of `s`, as [`lines`] describes them.
pub fn lines_of(s: &str) -> (r: Vec<String>)
    ensures
        string_views(r@) == lines(s@),
{
    let v = chars_of(s);
    let n = v.len();
    let mut r: Vec<String> = Vec::new();
    let mut start: usize = 0;
    let mut i: usize = 0;
    assert(v@.skip(0) =~= v@);
    assert(string_views(r@) + lines(v@) =~= lines(v@));
    while i < n
        invariant
            start <= i <= n == v@.len(),
            v@ == s@,
            forall|j: int| start <= j < i ==> v@[j] != '\n',
            string_views(r@) + lines(v@.skip(start as int)) == lines(v@),
        decreases n - i,
    {
        if v[i] == '\n' {
            let end = if i > start && v[i - 1] == '\r' {
                i - 1
            } else {
                i
            };
            let line = string_of_range(&v, start, end);
            proof {
                let t = v@.skip(start as int);
                let x = v@.subrange(start as int, i as int);
                let rest = v@.skip(i + 1);
                assert(!x.contains('\n')) by {
                    if x.contains('\n') {
                        let j = choose|j: int| 0 <= j < x.len() && x[j] == '\n';
                        assert(v@[start + j] == '\n');
                    }
                }
                assert(t =~= x + seq!['\n'] + rest);
                lemma_newline_index_first(x, rest);
                assert(t.take(x.len() as int) =~= x);
                assert(t.skip(x.len() as int + 1) =~= rest);
                assert(drop_cr(x) =~= v@.subrange(start as int, end as int));
                assert(lines(t) == seq![drop_cr(x)] + lines(rest));
            }
            let ghost before = string_views(r@);
            r.push(line);
            assert(string_views(r@) =~= before.push(v@.subrange(start as int, end as int)));
            assert(string_views(r@) + lines(v@.skip(i + 1)) =~= before + lines(
                v@.skip(start as int),
            ));
            start = i + 1;
        }
        i = i + 1;
    }
    let ghost t = v@.skip(start as int);
    if start < n {
        let line = string_of_range(&v, start, n);
        proof {
            lemma_newline_index_bound(t);
            if newline_index(t) < t.len() {
                assert(v@[start + newline_index(t)] == '\n');
            }
            assert(t =~= v@.subrange(start as int, n as int));
        }
        let ghost before = string_views(r@);
        r.push(line);
        assert(string_views(r@) =~= before + lines(t));
    } else {
        assert(t =~= Seq::<char>::empty());
        assert(string_views(r@) + lines(t) =~= string_views(r@));
    }
    r
}

/// A `String` holding the characters `v@.subrange(lo, hi)`.
pub fn string_of_range(v: &Vec<char>, lo: usize, hi: usize) -> (r: String)
    requires
        lo <= hi <= v@.len(),
    ensures
        r@ == v@.subrange(lo as int, hi as int),
{
    let mut r = String::new();
    let mut i = lo;
    while i < hi
        invariant
            lo <= i <= hi <= v@.len(),
            r@ == v@.subrange(lo as int, i as int),
        decreases hi - i,
    {
        push_char(&mut r, v[i]);
        assert(v@.subrange(lo as int, i + 1) =~= v@.subrange(lo as int, i as int).push(v@[i as int]));
        i = i + 1;
    }
    r
}

} // verus!
