//! Character-level text primitives: the mathematical meaning of trimming,
//! splitting, word-splitting and joining, and executable versions proved to
//! compute exactly that.

use vstd::prelude::*;

verus! {

/// The Unicode `White_Space` property, which `char::is_whitespace`, `str::trim`
/// and `str::split_whitespace` go by.
pub open spec fn is_ws(c: char) -> bool {
    ||| ('\u{9}' <= c && c <= '\u{d}')
    ||| c == ' '
    ||| c == '\u{85}'
    ||| c == '\u{a0}'
    ||| c == '\u{1680}'
    ||| ('\u{2000}' <= c && c <= '\u{200a}')
    ||| c == '\u{2028}'
    ||| c == '\u{2029}'
    ||| c == '\u{202f}'
    ||| c == '\u{205f}'
    ||| c == '\u{3000}'
}

pub open spec fn is_ascii_digit(c: char) -> bool {
    '0' <= c && c <= '9'
}

/// Every character is ASCII.
pub open spec fn is_ascii_text(s: Seq<char>) -> bool {
    forall|i: int| 0 <= i < s.len() ==> (#[trigger] s[i] as u32) < 128
}

/// `char::to_ascii_uppercase`.
pub open spec fn ascii_upper_char(c: char) -> char {
    if 'a' <= c && c <= 'z' {
        ((c as u32) - 32) as char
    } else {
        c
    }
}

/// No character is an ASCII lower-case letter.
pub open spec fn has_no_ascii_lower(s: Seq<char>) -> bool {
    forall|i: int| 0 <= i < s.len() ==> !('a' <= #[trigger] s[i] && s[i] <= 'z')
}

/// `str::to_ascii_uppercase`.
pub open spec fn ascii_upper(s: Seq<char>) -> Seq<char> {
    s.map_values(|c: char| ascii_upper_char(c))
}

/// The views of a sequence of character vectors.
pub open spec fn views(v: Seq<Vec<char>>) -> Seq<Seq<char>> {
    v.map_values(|x: Vec<char>| x@)
}

/// First index at or after `i` that does not hold whitespace (or the length).
pub open spec fn skip_ws_fwd(s: Seq<char>, i: int) -> int
    decreases s.len() - i,
{
    if 0 <= i < s.len() && is_ws(s[i]) {
        skip_ws_fwd(s, i + 1)
    } else {
        i
    }
}

/// Moving back from `j`, never below `lo`, the end of the last non-whitespace run.
pub open spec fn skip_ws_back(s: Seq<char>, lo: int, j: int) -> int
    decreases j - lo,
{
    if lo < j <= s.len() && is_ws(s[j - 1]) {
        skip_ws_back(s, lo, j - 1)
    } else {
        j
    }
}

/// `s` without leading and trailing whitespace (`str::trim`).
pub open spec fn trim(s: Seq<char>) -> Seq<char> {
    let a = skip_ws_fwd(s, 0);
    s.subrange(a, skip_ws_back(s, a, s.len() as int))
}

/// The pieces of `s` between occurrences of `sep` (`str::split` on a char):
/// always at least one piece.
pub open spec fn split(s: Seq<char>, sep: char) -> Seq<Seq<char>>
    decreases s.len(),
{
    if s.len() == 0 {
        seq![Seq::<char>::empty()]
    } else {
        let r = split(s.drop_last(), sep);
        if s.last() == sep {
            r.push(Seq::<char>::empty())
        } else {
            r.update(r.len() - 1, r.last().push(s.last()))
        }
    }
}

/// The maximal runs of non-whitespace characters of `s`, in order
/// (`str::split_whitespace`).
pub open spec fn words(s: Seq<char>) -> Seq<Seq<char>>
    decreases s.len(),
{
    if s.len() == 0 {
        Seq::<Seq<char>>::empty()
    } else {
        let w = words(s.drop_last());
        if is_ws(s.last()) {
            w
        } else if s.len() >= 2 && !is_ws(s[s.len() - 2]) {
            w.update(w.len() - 1, w.last().push(s.last()))
        } else {
            w.push(seq![s.last()])
        }
    }
}

/// The pieces of `parts` with `sep` between each two (`[T]::join`).
pub open spec fn join(parts: Seq<Seq<char>>, sep: Seq<char>) -> Seq<char>
    decreases parts.len(),
{
    if parts.len() == 0 {
        Seq::<char>::empty()
    } else if parts.len() == 1 {
        parts[0]
    } else {
        join(parts.drop_last(), sep) + sep + parts.last()
    }
}

/// The first index at or after `i` that holds `c`.
pub open spec fn find_from(s: Seq<char>, c: char, i: int) -> Option<int>
    decreases s.len() - i,
{
    if i < 0 || i >= s.len() {
        None
    } else if s[i] == c {
        Some(i)
    } else {
        find_from(s, c, i + 1)
    }
}

/// The last index below `j` that holds `c`.
pub open spec fn rfind_below(s: Seq<char>, c: char, j: int) -> Option<int>
    decreases j,
{
    if j <= 0 || j > s.len() {
        None
    } else if s[j - 1] == c {
        Some(j - 1)
    } else {
        rfind_below(s, c, j - 1)
    }
}

/// `s` without any trailing run of `c` (`str::trim_end_matches` on a char).
pub open spec fn trim_end_char(s: Seq<char>, c: char) -> Seq<char>
    decreases s.len(),
{
    if s.len() > 0 && s.last() == c {
        trim_end_char(s.drop_last(), c)
    } else {
        s
    }
}

/// `s` with every occurrence of `c` removed.
pub open spec fn remove_char(s: Seq<char>, c: char) -> Seq<char>
    decreases s.len(),
{
    if s.len() == 0 {
        s
    } else if s.last() == c {
        remove_char(s.drop_last(), c)
    } else {
        remove_char(s.drop_last(), c).push(s.last())
    }
}

/// A character code with ASCII upper-case letters folded to lower case.
pub open spec fn fold_ascii(c: char) -> u32 {
    let x = c as u32;
    if 65 <= x <= 90 {
        (x + 32) as u32
    } else {
        x
    }
}

/// `str::eq_ignore_ascii_case`.
pub open spec fn eq_ignore_ascii_case(a: Seq<char>, b: Seq<char>) -> bool {
    &&& a.len() == b.len()
    &&& forall|i: int| 0 <= i < a.len() ==> fold_ascii(#[trigger] a[i]) == fold_ascii(b[i])
}

/// `n` ASCII digits, nothing else.
pub open spec fn is_digits(s: Seq<char>, n: nat) -> bool {
    &&& s.len() == n
    &&& forall|i: int| 0 <= i < s.len() ==> is_ascii_digit(#[trigger] s[i])
}

pub fn is_whitespace_char(c: char) -> (r: bool)
    ensures
        r == is_ws(c),
{
    ('\u{9}' <= c && c <= '\u{d}') || c == ' ' || c == '\u{85}' || c == '\u{a0}' || c == '\u{1680}'
        || ('\u{2000}' <= c && c <= '\u{200a}') || c == '\u{2028}' || c == '\u{2029}' || c
        == '\u{202f}' || c == '\u{205f}' || c == '\u{3000}'
}

/// The characters of `s`.
pub fn chars_of(s: &str) -> (v: Vec<char>)
    ensures
        v@ == s@,
{
    let mut v: Vec<char> = Vec::new();
    for c in it: s.chars()
        invariant
            v@ == it.seq().take(it.index() as int),
            it.seq() == s@,
    {
        v.push(c);
    }
    v
}

/// `String::push` appends one character.
pub assume_specification[ String::push ](s: &mut String, ch: char)
    ensures
        final(s)@ == old(s)@.push(ch),
;

/// A `String` holding the characters of `v`.
pub fn string_of(v: &Vec<char>) -> (s: String)
    ensures
        s@ == v@,
{
    let mut s = String::new();
    for i in 0..v.len()
        invariant
            s@ == v@.take(i as int),
    {
        s.push(v[i]);
        assert(v@.take(i + 1) == v@.take(i as int).push(v@[i as int]));
    }
    assert(v@.take(v.len() as int) == v@);
    s
}

/// The characters of `v` from `a` up to `b`.
pub fn slice_chars(v: &Vec<char>, a: usize, b: usize) -> (r: Vec<char>)
    requires
        a <= b <= v.len(),
    ensures
        r@ == v@.subrange(a as int, b as int),
{
    let mut r: Vec<char> = Vec::new();
    let mut i = a;
    while i < b
        invariant
            a <= i <= b <= v.len(),
            r@ == v@.subrange(a as int, i as int),
        decreases b - i,
    {
        r.push(v[i]);
        i += 1;
    }
    r
}

/// Appends the characters of `b` to `a`.
pub fn extend(a: &mut Vec<char>, b: &Vec<char>)
    ensures
        final(a)@ == old(a)@ + b@,
{
    let ghost a0 = a@;
    for i in 0..b.len()
        invariant
            a@ == a0 + b@.take(i as int),
    {
        a.push(b[i]);
        assert(b@.take(i + 1) == b@.take(i as int).push(b@[i as int]));
    }
    assert(b@.take(b.len() as int) == b@);
}

pub fn chars_eq(a: &Vec<char>, b: &Vec<char>) -> (r: bool)
    ensures
        r == (a@ == b@),
{
    if a.len() != b.len() {
        return false;
    }
    for i in 0..a.len()
        invariant
            a.len() == b.len(),
            forall|j: int| 0 <= j < i ==> a@[j] == b@[j],
    {
        if a[i] != b[i] {
            return false;
        }
    }
    assert(a@ =~= b@);
    true
}

pub fn fold_ascii_char(c: char) -> (r: u32)
    ensures
        r == fold_ascii(c),
{
    let x = c as u32;
    if 65 <= x && x <= 90 {
        x + 32
    } else {
        x
    }
}

pub fn chars_eq_ignore_ascii_case(a: &Vec<char>, b: &Vec<char>) -> (r: bool)
    ensures
        r == eq_ignore_ascii_case(a@, b@),
{
    if a.len() != b.len() {
        return false;
    }
    for i in 0..a.len()
        invariant
            a.len() == b.len(),
            forall|j: int| 0 <= j < i ==> fold_ascii(#[trigger] a@[j]) == fold_ascii(b@[j]),
    {
        if fold_ascii_char(a[i]) != fold_ascii_char(b[i]) {
            return false;
        }
    }
    true
}

pub fn chars_are_digits(s: &Vec<char>, n: usize) -> (r: bool)
    ensures
        r == is_digits(s@, n as nat),
{
    if s.len() != n {
        return false;
    }
    for i in 0..s.len()
        invariant
            forall|j: int| 0 <= j < i ==> is_ascii_digit(#[trigger] s@[j]),
    {
        if !('0' <= s[i] && s[i] <= '9') {
            return false;
        }
    }
    true
}

/// `trim` of the characters of `v`.
pub fn trim_chars(v: &Vec<char>) -> (r: Vec<char>)
    ensures
        r@ == trim(v@),
{
    let mut a: usize = 0;
    while a < v.len() && is_whitespace_char(v[a])
        invariant
            a <= v.len(),
            skip_ws_fwd(v@, 0) == skip_ws_fwd(v@, a as int),
        decreases v.len() - a,
    {
        a += 1;
    }
    let mut b: usize = v.len();
    while a < b && is_whitespace_char(v[b - 1])
        invariant
            a <= b <= v.len(),
            skip_ws_fwd(v@, 0) == a,
            skip_ws_back(v@, a as int, v.len() as int) == skip_ws_back(v@, a as int, b as int),
        decreases b,
    {
        b -= 1;
    }
    slice_chars(v, a, b)
}

pub proof fn lemma_split_len(s: Seq<char>, sep: char)
    ensures
        split(s, sep).len() >= 1,
    decreases s.len(),
{
    if s.len() > 0 {
        lemma_split_len(s.drop_last(), sep);
    }
}

/// `split` of the characters of `v` on `sep`.
pub fn split_chars(v: &Vec<char>, sep: char) -> (r: Vec<Vec<char>>)
    ensures
        views(r@) == split(v@, sep),
{
    let mut r: Vec<Vec<char>> = Vec::new();
    let mut cur: Vec<char> = Vec::new();
    for i in 0..v.len()
        invariant
            views(r@).push(cur@) == split(v@.take(i as int), sep),
    {
        let ghost pre = v@.take(i as int);
        let ghost now = v@.take(i + 1);
        assert(now.drop_last() == pre);
        proof {
            lemma_split_len(pre, sep);
        }
        if v[i] == sep {
            r.push(cur);
            cur = Vec::new();
            assert(views(r@).push(cur@) =~= split(now, sep));
        } else {
            cur.push(v[i]);
            assert(views(r@).push(cur@) =~= split(now, sep));
        }
    }
    assert(v@.take(v.len() as int) == v@);
    r.push(cur);
    r
}

/// `words` of the characters of `v`.
pub fn words_chars(v: &Vec<char>) -> (r: Vec<Vec<char>>)
    ensures
        views(r@) == words(v@),
{
    let mut r: Vec<Vec<char>> = Vec::new();
    let mut cur: Vec<char> = Vec::new();
    for i in 0..v.len()
        invariant
            i > 0 && !is_ws(v@[i - 1]) ==> cur@.len() > 0 && views(r@).push(cur@) == words(
                v@.take(i as int),
            ),
            !(i > 0 && !is_ws(v@[i - 1])) ==> cur@.len() == 0 && views(r@) == words(
                v@.take(i as int),
            ),
    {
        let ghost pre = v@.take(i as int);
        let ghost now = v@.take(i + 1);
        assert(now.drop_last() == pre);
        if is_whitespace_char(v[i]) {
            if cur.len() > 0 {
                r.push(cur);
                cur = Vec::new();
            }
            assert(views(r@) =~= words(now));
        } else {
            assert(now.last() == v@[i as int]);
            if i > 0 {
                assert(now[i - 1] == v@[i - 1]);
            }
            let ghost old_cur = cur@;
            cur.push(v[i]);
            if i > 0 && !is_whitespace_char(v[i - 1]) {
                assert(views(r@).push(cur@) =~= words(now));
            } else {
                assert(cur@ =~= seq![v@[i as int]]);
                assert(views(r@).push(cur@) =~= words(now));
            }
        }
    }
    assert(v@.take(v.len() as int) == v@);
    if cur.len() > 0 {
        r.push(cur);
        assert(views(r@) =~= words(v@));
    }
    r
}

/// `join` of the pieces `lo..hi` of `parts`, with `sep` between them.
pub fn join_chars(parts: &Vec<Vec<char>>, lo: usize, hi: usize, sep: &Vec<char>) -> (r: Vec<char>)
    requires
        lo <= hi <= parts.len(),
    ensures
        r@ == join(views(parts@).subrange(lo as int, hi as int), sep@),
{
    let mut r: Vec<char> = Vec::new();
    let mut i = lo;
    while i < hi
        invariant
            lo <= i <= hi <= parts.len(),
            r@ == join(views(parts@).subrange(lo as int, i as int), sep@),
        decreases hi - i,
    {
        let ghost pre = views(parts@).subrange(lo as int, i as int);
        let ghost now = views(parts@).subrange(lo as int, i + 1);
        assert(now.drop_last() =~= pre);
        if i > lo {
            extend(&mut r, sep);
        }
        extend(&mut r, &parts[i]);
        i += 1;
    }
    r
}

/// `find_from(v@, c, 0)`.
pub fn find_char(v: &Vec<char>, c: char) -> (r: Option<usize>)
    ensures
        match r {
            Some(k) => find_from(v@, c, 0) == Some(k as int) && k < v@.len(),
            None => find_from(v@, c, 0) is None,
        },
{
    let mut i: usize = 0;
    while i < v.len()
        invariant
            i <= v.len(),
            find_from(v@, c, 0) == find_from(v@, c, i as int),
        decreases v.len() - i,
    {
        if v[i] == c {
            return Some(i);
        }
        i += 1;
    }
    None
}

/// `rfind_below(v@, c, v@.len())`.
pub fn rfind_char(v: &Vec<char>, c: char) -> (r: Option<usize>)
    ensures
        match r {
            Some(k) => rfind_below(v@, c, v@.len() as int) == Some(k as int) && k < v@.len(),
            None => rfind_below(v@, c, v@.len() as int) is None,
        },
{
    let mut j: usize = v.len();
    while j > 0
        invariant
            j <= v.len(),
            rfind_below(v@, c, v@.len() as int) == rfind_below(v@, c, j as int),
        decreases j,
    {
        if v[j - 1] == c {
            return Some(j - 1);
        }
        j -= 1;
    }
    None
}

/// `trim_end_char` of the characters of `v`.
pub fn trim_end_char_chars(v: &Vec<char>, c: char) -> (r: Vec<char>)
    ensures
        r@ == trim_end_char(v@, c),
{
    let mut j: usize = v.len();
    assert(v@.take(v.len() as int) == v@);
    while j > 0 && v[j - 1] == c
        invariant
            j <= v.len(),
            trim_end_char(v@, c) == trim_end_char(v@.take(j as int), c),
        decreases j,
    {
        assert(v@.take(j as int).drop_last() == v@.take(j - 1));
        j -= 1;
    }
    slice_chars(v, 0, j)
}

/// `remove_char` of the characters of `v`.
pub fn remove_char_chars(v: &Vec<char>, c: char) -> (r: Vec<char>)
    ensures
        r@ == remove_char(v@, c),
{
    let mut r: Vec<char> = Vec::new();
    for i in 0..v.len()
        invariant
            r@ == remove_char(v@.take(i as int), c),
    {
        assert(v@.take(i + 1).drop_last() == v@.take(i as int));
        if v[i] != c {
            r.push(v[i]);
        }
    }
    assert(v@.take(v.len() as int) == v@);
    r
}

/// Appends copies of the vectors of `e` to `dst`.
pub fn append_all(dst: &mut Vec<Vec<char>>, e: &Vec<Vec<char>>)
    ensures
        views(final(dst)@) == views(old(dst)@) + views(e@),
{
    let ghost start = views(dst@);
    for i in 0..e.len()
        invariant
            views(dst@) == start + views(e@).take(i as int),
    {
        let x = slice_chars(&e[i], 0, e[i].len());
        assert(e@[i as int]@.subrange(0, e@[i as int]@.len() as int) == e@[i as int]@);
        let ghost before = dst@;
        dst.push(x);
        assert(views(dst@) == views(before).push(x@));
        assert(views(e@).take(i + 1) =~= views(e@).take(i as int).push(e@[i as int]@));
    }
    assert(views(e@).take(e.len() as int) == views(e@));
}
// ---------------------------------------------------------------------------
// Facts about the text functions

pub proof fn lemma_skip_ws_fwd_bounds(s: Seq<char>, i: int)
    requires
        0 <= i <= s.len(),
    ensures
        i <= skip_ws_fwd(s, i) <= s.len(),
        skip_ws_fwd(s, i) < s.len() ==> !is_ws(s[skip_ws_fwd(s, i)]),
        forall|k: int| i <= k < skip_ws_fwd(s, i) ==> is_ws(#[trigger] s[k]),
    decreases s.len() - i,
{
    if i < s.len() && is_ws(s[i]) {
        lemma_skip_ws_fwd_bounds(s, i + 1);
    }
}

pub proof fn lemma_skip_ws_back_bounds(s: Seq<char>, lo: int, j: int)
    requires
        0 <= lo <= j <= s.len(),
    ensures
        lo <= skip_ws_back(s, lo, j) <= j,
        skip_ws_back(s, lo, j) > lo ==> !is_ws(s[skip_ws_back(s, lo, j) - 1]),
        forall|k: int| skip_ws_back(s, lo, j) <= k < j ==> is_ws(#[trigger] s[k]),
    decreases j - lo,
{
    if lo < j && is_ws(s[j - 1]) {
        lemma_skip_ws_back_bounds(s, lo, j - 1);
    }
}

/// A non-empty trimmed string starts and ends with non-whitespace, and
/// trimming it again changes nothing.
pub proof fn lemma_trim_shape(s: Seq<char>)
    ensures
        trim(s).len() > 0 ==> !is_ws(trim(s)[0]) && !is_ws(trim(s).last()),
        trim(trim(s)) == trim(s),
{
    lemma_skip_ws_fwd_bounds(s, 0);
    let a = skip_ws_fwd(s, 0);
    lemma_skip_ws_back_bounds(s, a, s.len() as int);
    let t = trim(s);
    if t.len() > 0 {
        lemma_trim_of_clean(t);
    } else {
        assert(trim(t) =~= t);
    }
}

/// A string that starts and ends with non-whitespace is its own trim.
pub proof fn lemma_trim_of_clean(s: Seq<char>)
    requires
        s.len() > 0,
        !is_ws(s[0]),
        !is_ws(s.last()),
    ensures
        trim(s) == s,
{
    assert(skip_ws_fwd(s, 0) == 0);
    assert(skip_ws_back(s, 0, s.len() as int) == s.len());
    assert(s.subrange(0, s.len() as int) =~= s);
}

/// A leading space does not change the trim of a clean string.
pub proof fn lemma_trim_space_clean(s: Seq<char>)
    requires
        s.len() > 0,
        !is_ws(s[0]),
        !is_ws(s.last()),
    ensures
        trim(seq![' '] + s) == s,
{
    let t = seq![' '] + s;
    assert(t[0] == ' ');
    assert(t[1] == s[0]);
    assert(skip_ws_fwd(t, 1) == 1);
    assert(skip_ws_fwd(t, 0) == 1);
    assert(t.last() == s.last());
    assert(skip_ws_back(t, 1, t.len() as int) == t.len());
    assert(t.subrange(1, t.len() as int) =~= s);
}

pub proof fn lemma_split_concat(a: Seq<char>, b: Seq<char>, sep: char)
    ensures
        split(a + seq![sep] + b, sep) == split(a, sep) + split(b, sep),
    decreases b.len(),
{
    let s = a + seq![sep] + b;
    lemma_split_len(a, sep);
    if b.len() == 0 {
        assert(s.drop_last() =~= a);
        assert(split(s, sep) =~= split(a, sep) + split(b, sep));
    } else {
        let b1 = b.drop_last();
        assert(s.drop_last() =~= a + seq![sep] + b1);
        lemma_split_concat(a, b1, sep);
        lemma_split_len(b1, sep);
        assert(s.last() == b.last());
        assert(split(s, sep) =~= split(a, sep) + split(b, sep));
    }
}

pub proof fn lemma_split_no_sep(a: Seq<char>, sep: char)
    requires
        !a.contains(sep),
    ensures
        split(a, sep) == seq![a],
    decreases a.len(),
{
    if a.len() == 0 {
        assert(a =~= Seq::<char>::empty());
        assert(split(a, sep) =~= seq![a]);
    } else {
        let a1 = a.drop_last();
        assert(!a1.contains(sep)) by {
            if a1.contains(sep) {
                let k = choose|k: int| 0 <= k < a1.len() && a1[k] == sep;
                assert(a[k] == sep);
            }
        }
        lemma_split_no_sep(a1, sep);
        assert(a[a.len() - 1] == a.last());
        assert(a1.push(a.last()) =~= a);
        assert(split(a, sep) =~= seq![a]);
    }
}

pub proof fn lemma_words_nonempty(s: Seq<char>)
    requires
        s.len() > 0,
        !is_ws(s.last()),
    ensures
        words(s).len() > 0,
    decreases s.len(),
{
    if s.len() >= 2 && !is_ws(s[s.len() - 2]) {
        let s1 = s.drop_last();
        assert(s1.last() == s[s.len() - 2]);
        lemma_words_nonempty(s1);
    }
}

/// A non-empty run without whitespace is one word.
pub proof fn lemma_words_single(a: Seq<char>)
    requires
        a.len() > 0,
        forall|i: int| 0 <= i < a.len() ==> !is_ws(#[trigger] a[i]),
    ensures
        words(a) == seq![a],
    decreases a.len(),
{
    if a.len() == 1 {
        assert(a.drop_last().len() == 0);
        assert(words(a.drop_last()) =~= Seq::<Seq<char>>::empty());
        assert(a.last() == a[0]);
        assert(!is_ws(a.last()));
        assert(seq![a.last()] =~= a);
        assert(words(a) =~= seq![a]);
    } else {
        let a1 = a.drop_last();
        lemma_words_single(a1);
        assert(!is_ws(a[a.len() - 2]));
        assert(a1.push(a.last()) =~= a);
        assert(words(a) =~= seq![a]);
    }
}

/// Whitespace separates words.
pub proof fn lemma_words_concat(a: Seq<char>, c: char, b: Seq<char>)
    requires
        is_ws(c),
    ensures
        words(a + seq![c] + b) == words(a) + words(b),
    decreases b.len(),
{
    let s = a + seq![c] + b;
    if b.len() == 0 {
        assert(s.drop_last() =~= a);
        assert(words(s) =~= words(a) + words(b));
    } else {
        let b1 = b.drop_last();
        assert(s.drop_last() =~= a + seq![c] + b1);
        lemma_words_concat(a, c, b1);
        assert(s.last() == b.last());
        if !is_ws(b.last()) {
            if b.len() >= 2 {
                assert(s[s.len() - 2] == b[b.len() - 2]);
                if !is_ws(b[b.len() - 2]) {
                    assert(b1.last() == b[b.len() - 2]);
                    lemma_words_nonempty(b1);
                }
            } else {
                assert(s[s.len() - 2] == c);
                assert(b1.len() == 0);
            }
        }
        assert(words(s) =~= words(a) + words(b));
    }
}

pub proof fn lemma_find_from_absent(u: Seq<char>, c: char, i: int)
    requires
        0 <= i,
        !u.contains(c),
    ensures
        find_from(u, c, i) is None,
    decreases u.len() - i,
{
    if i < u.len() {
        assert(u[i] != c) by {
            if u[i] == c {
                assert(u.contains(c));
            }
        }
        lemma_find_from_absent(u, c, i + 1);
    }
}

pub proof fn lemma_find_from_first(u: Seq<char>, c: char, v: Seq<char>, i: int)
    requires
        0 <= i <= u.len(),
        !u.contains(c),
    ensures
        find_from(u + seq![c] + v, c, i) == Some(u.len() as int),
    decreases u.len() - i,
{
    let s = u + seq![c] + v;
    if i < u.len() {
        assert(s[i] == u[i]);
        assert(u[i] != c) by {
            if u[i] == c {
                assert(u.contains(c));
            }
        }
        lemma_find_from_first(u, c, v, i + 1);
    } else {
        assert(s[i] == c);
    }
}

pub proof fn lemma_rfind_below_last(u: Seq<char>, c: char, v: Seq<char>, j: int)
    requires
        u.len() < j <= u.len() + 1 + v.len(),
        !v.contains(c),
    ensures
        rfind_below(u + seq![c] + v, c, j) == Some(u.len() as int),
    decreases j,
{
    let s = u + seq![c] + v;
    if j == u.len() + 1 {
        assert(s[j - 1] == c);
    } else {
        assert(s[j - 1] == v[j - 2 - u.len()]);
        assert(s[j - 1] != c) by {
            if s[j - 1] == c {
                assert(v.contains(c));
            }
        }
        lemma_rfind_below_last(u, c, v, j - 1);
    }
}

pub proof fn lemma_skip_ws_fwd_concat(x: Seq<char>, y: Seq<char>, i: int)
    requires
        0 <= i <= x.len(),
        y.len() > 0,
        !is_ws(y[0]),
    ensures
        skip_ws_fwd(x + y, i) == skip_ws_fwd(x, i),
    decreases x.len() - i,
{
    let s = x + y;
    if i < x.len() {
        assert(s[i] == x[i]);
        if is_ws(x[i]) {
            lemma_skip_ws_fwd_concat(x, y, i + 1);
        }
    } else {
        assert(s[i] == y[0]);
    }
}

pub proof fn lemma_skip_ws_back_shift(x: Seq<char>, a: int, j: int)
    requires
        0 <= a <= j <= x.len(),
    ensures
        skip_ws_back(x.subrange(a, x.len() as int), 0, j - a) == skip_ws_back(x, a, j) - a,
    decreases j - a,
{
    let u = x.subrange(a, x.len() as int);
    if a < j {
        assert(u[j - a - 1] == x[j - 1]);
        if is_ws(x[j - 1]) {
            lemma_skip_ws_back_shift(x, a, j - 1);
        }
    }
}

/// Dropping leading whitespace does not change the trim.
pub proof fn lemma_trim_after_leading(x: Seq<char>)
    ensures
        trim(x.subrange(skip_ws_fwd(x, 0), x.len() as int)) == trim(x),
{
    lemma_skip_ws_fwd_bounds(x, 0);
    let a = skip_ws_fwd(x, 0);
    let u = x.subrange(a, x.len() as int);
    if u.len() > 0 {
        assert(u[0] == x[a]);
    }
    assert(skip_ws_fwd(u, 0) == 0);
    lemma_skip_ws_back_shift(x, a, x.len() as int);
    lemma_skip_ws_back_bounds(x, a, x.len() as int);
    assert(trim(u) =~= trim(x));
}

/// A join starts with the first character of its first piece.
pub proof fn lemma_join_first(parts: Seq<Seq<char>>, sep: Seq<char>)
    requires
        parts.len() > 0,
        parts[0].len() > 0,
    ensures
        join(parts, sep).len() > 0,
        join(parts, sep)[0] == parts[0][0],
    decreases parts.len(),
{
    if parts.len() > 1 {
        let p1 = parts.drop_last();
        assert(p1[0] == parts[0]);
        lemma_join_first(p1, sep);
    }
}

/// A join ends with the last character of its last piece.
pub proof fn lemma_join_last(parts: Seq<Seq<char>>, sep: Seq<char>)
    requires
        parts.len() > 0,
        parts.last().len() > 0,
    ensures
        join(parts, sep).len() > 0,
        join(parts, sep).last() == parts.last().last(),
{
}

/// A join holds a character only if a piece or the separator does.
pub proof fn lemma_join_absent(parts: Seq<Seq<char>>, sep: Seq<char>, c: char)
    requires
        !sep.contains(c),
        forall|i: int| 0 <= i < parts.len() ==> !(#[trigger] parts[i]).contains(c),
    ensures
        !join(parts, sep).contains(c),
    decreases parts.len(),
{
    if parts.len() > 1 {
        let p1 = parts.drop_last();
        assert forall|i: int| 0 <= i < p1.len() implies !(#[trigger] p1[i]).contains(c) by {
            assert(p1[i] == parts[i]);
        }
        lemma_join_absent(p1, sep, c);
        let j = join(parts, sep);
        let a = join(p1, sep);
        assert(j == a + sep + parts.last());
        assert(!parts.last().contains(c)) by {
            assert(parts.last() == parts[parts.len() - 1]);
        }
        if j.contains(c) {
            let k = choose|k: int| 0 <= k < j.len() && j[k] == c;
            if k < a.len() {
                assert(a[k] == c);
                assert(a.contains(c));
            } else if k < a.len() + sep.len() {
                assert(sep[k - a.len()] == c);
                assert(sep.contains(c));
            } else {
                assert(parts.last()[k - a.len() - sep.len()] == c);
                assert(parts.last().contains(c));
            }
        }
    } else if parts.len() == 1 {
        assert(!parts[0].contains(c));
    }
}

/// Every word is non-empty, holds no whitespace, and holds only characters
/// of the text it came from.
pub proof fn lemma_words_elems(s: Seq<char>, c: char)
    ensures
        forall|i: int| 0 <= i < words(s).len() ==> (#[trigger] words(s)[i]).len() > 0,
        forall|i: int, j: int|
            0 <= i < words(s).len() && 0 <= j < words(s)[i].len() ==> !is_ws(
                #[trigger] words(s)[i][j],
            ),
        !s.contains(c) ==> forall|i: int| 0 <= i < words(s).len() ==> !(
        #[trigger] words(s)[i]).contains(c),
    decreases s.len(),
{
    if s.len() > 0 {
        let s1 = s.drop_last();
        lemma_words_elems(s1, c);
        let w = words(s1);
        if !s.contains(c) {
            assert(!s1.contains(c)) by {
                if s1.contains(c) {
                    let k = choose|k: int| 0 <= k < s1.len() && s1[k] == c;
                    assert(s[k] == c);
                }
            }
            assert(s.last() != c) by {
                if s.last() == c {
                    assert(s[s.len() - 1] == c);
                }
            }
        }
        if !is_ws(s.last()) {
            if s.len() >= 2 && !is_ws(s[s.len() - 2]) {
                assert(s1.last() == s[s.len() - 2]);
                lemma_words_nonempty(s1);
                let nw = w.last().push(s.last());
                assert(w.last() == w[w.len() - 1]);
                assert forall|j: int| 0 <= j < nw.len() implies !is_ws(#[trigger] nw[j]) by {
                    if j < w.last().len() {
                        assert(nw[j] == w[w.len() - 1][j]);
                    }
                }
                if !s.contains(c) {
                    assert(!nw.contains(c)) by {
                        if nw.contains(c) {
                            let k = choose|k: int| 0 <= k < nw.len() && nw[k] == c;
                            if k < w.last().len() {
                                assert(w[w.len() - 1][k] == c);
                                assert(w[w.len() - 1].contains(c));
                            }
                        }
                    }
                }
            } else {
                let nw = seq![s.last()];
                if !s.contains(c) {
                    assert(!nw.contains(c)) by {
                        if nw.contains(c) {
                            assert(nw[0] == c);
                        }
                    }
                }
            }
        }
    }
}

pub proof fn lemma_rfind_below_absent(s: Seq<char>, c: char, j: int)
    requires
        0 <= j <= s.len(),
        !s.contains(c),
    ensures
        rfind_below(s, c, j) is None,
    decreases j,
{
    if j > 0 {
        assert(s[j - 1] != c) by {
            if s[j - 1] == c {
                assert(s.contains(c));
            }
        }
        lemma_rfind_below_absent(s, c, j - 1);
    }
}

/// No piece of a split holds the separator.
pub proof fn lemma_split_pieces_no_sep(s: Seq<char>, sep: char)
    ensures
        forall|i: int| 0 <= i < split(s, sep).len() ==> !(#[trigger] split(s, sep)[i]).contains(sep),
    decreases s.len(),
{
    if s.len() > 0 {
        let s1 = s.drop_last();
        lemma_split_pieces_no_sep(s1, sep);
        lemma_split_len(s1, sep);
        let r = split(s1, sep);
        if s.last() != sep {
            let nl = r.last().push(s.last());
            assert(r.last() == r[r.len() - 1]);
            assert(!nl.contains(sep)) by {
                if nl.contains(sep) {
                    let k = choose|k: int| 0 <= k < nl.len() && nl[k] == sep;
                    if k < r.last().len() {
                        assert(r[r.len() - 1][k] == sep);
                        assert(r[r.len() - 1].contains(sep));
                    }
                }
            }
        } else {
            assert(!Seq::<char>::empty().contains(sep));
        }
        assert forall|i: int| 0 <= i < split(s, sep).len() implies !(#[trigger] split(
            s,
            sep,
        )[i]).contains(sep) by {
            if s.last() == sep {
                if i < r.len() {
                    assert(split(s, sep)[i] == r[i]);
                }
            } else {
                if i < r.len() - 1 {
                    assert(split(s, sep)[i] == r[i]);
                }
            }
        }
    }
}

/// Trimming removes characters, never adds them.
pub proof fn lemma_trim_absent(x: Seq<char>, c: char)
    requires
        !x.contains(c),
    ensures
        !trim(x).contains(c),
{
    lemma_skip_ws_fwd_bounds(x, 0);
    let a = skip_ws_fwd(x, 0);
    lemma_skip_ws_back_bounds(x, a, x.len() as int);
    let t = trim(x);
    if t.contains(c) {
        let k = choose|k: int| 0 <= k < t.len() && t[k] == c;
        assert(x[a + k] == c);
        assert(x.contains(c));
    }
}

} // verus!
