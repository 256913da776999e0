//! Character-sequence helpers shared by the text-processing modules.
//!
//! Strings are modelled by their `Seq<char>` view; the helpers here move
//! between `&str`/`String` and `Vec<char>` and define the classic string
//! predicates (whitespace, trimming, splitting) over sequences.
use vstd::prelude::*;

verus! {

broadcast use vstd::string::group_string_axioms;

/// Appends one character to a string.
#[verifier::external_body]
pub fn push_char(s: &mut String, c: char)
    ensures
        final(s)@ == old(s)@.push(c),
{
    s.push(c);
}

/// The characters of `s`, in order.
pub fn chars_of(s: &str) -> (v: Vec<char>)
    ensures
        v@ == s@,
{
    let mut v: Vec<char> = Vec::new();
    for c in it: s.chars()
        invariant
            v@ == it.seq().take(it.index() as int),
            it.seq() == s@,
    {
        v.push(c);
    }
    v
}

/// A string holding exactly the characters of `v`.
pub fn string_of(v: &[char]) -> (s: String)
    ensures
        s@ == v@,
{
    let mut s = String::new();
    let mut i: usize = 0;
    while i < v.len()
        invariant
            i <= v.len(),
            s@ == v@.take(i as int),
        decreases v.len() - i,
    {
        push_char(&mut s, v[i]);
        i += 1;
        assert(v@.take(i as int) == v@.take(i - 1).push(v@[i - 1]));
    }
    assert(v@.take(v.len() as int) == v@);
    s
}


/// `char::is_whitespace`: the Unicode `White_Space` property.
pub open spec fn is_ws(c: char) -> bool {
    let u = c as u32;
    ||| 0x9 <= u <= 0xd
    ||| u == 0x20
    ||| u == 0x85
    ||| u == 0xa0
    ||| u == 0x1680
    ||| 0x2000 <= u <= 0x200a
    ||| u == 0x2028
    ||| u == 0x2029
    ||| u == 0x202f
    ||| u == 0x205f
    ||| u == 0x3000
}

/// `char::is_control`: the Unicode general category `Cc`.
pub open spec fn is_ctrl(c: char) -> bool {
    let u = c as u32;
    u <= 0x1f || (0x7f <= u <= 0x9f)
}

pub open spec fn is_ascii_alpha(c: char) -> bool {
    ('a' <= c && c <= 'z') || ('A' <= c && c <= 'Z')
}

pub open spec fn is_ascii_digit(c: char) -> bool {
    '0' <= c && c <= '9'
}

pub open spec fn is_ascii_alnum(c: char) -> bool {
    is_ascii_alpha(c) || is_ascii_digit(c)
}

/// `char::to_ascii_lowercase`.
pub open spec fn ascii_lower(c: char) -> char {
    if 'A' <= c && c <= 'Z' {
        ((c as u32) + 32) as char
    } else {
        c
    }
}

pub fn is_whitespace(c: char) -> (b: bool)
    ensures
        b == is_ws(c),
{
    let u = c as u32;
    (0x9 <= u && u <= 0xd) || u == 0x20 || u == 0x85 || u == 0xa0 || u == 0x1680 || (0x2000 <= u
        && u <= 0x200a) || u == 0x2028 || u == 0x2029 || u == 0x202f || u == 0x205f || u == 0x3000
}

pub fn is_control(c: char) -> (b: bool)
    ensures
        b == is_ctrl(c),
{
    let u = c as u32;
    u <= 0x1f || (0x7f <= u && u <= 0x9f)
}

pub fn is_alnum(c: char) -> (b: bool)
    ensures
        b == is_ascii_alnum(c),
{
    ('a' <= c && c <= 'z') || ('A' <= c && c <= 'Z') || ('0' <= c && c <= '9')
}

pub fn to_ascii_lower(c: char) -> (r: char)
    ensures
        r == ascii_lower(c),
{
    if 'A' <= c && c <= 'Z' {
        let u = c as u32 + 32;
        assert(0x61 <= u <= 0x7a);
        char_from_ascii(u)
    } else {
        c
    }
}

/// The character with an ASCII code point.
fn char_from_ascii(u: u32) -> (c: char)
    requires
        u < 0x80,
    ensures
        c as u32 == u,
{
    (u as u8) as char
}

/// A class of characters that trimming strips.
#[derive(Clone, Copy, PartialEq, Eq, Structural)]
pub enum Strip {
    /// Unicode whitespace (`str::trim`).
    Whitespace,
    /// One given character (`str::trim_matches(c)`).
    Exactly(char),
}

pub open spec fn strips(k: Strip, c: char) -> bool {
    match k {
        Strip::Whitespace => is_ws(c),
        Strip::Exactly(x) => c == x,
    }
}

pub fn strips_char(k: Strip, c: char) -> (b: bool)
    ensures
        b == strips(k, c),
{
    match k {
        Strip::Whitespace => is_whitespace(c),
        Strip::Exactly(x) => c == x,
    }
}

/// `s` without its leading characters of class `k`.
pub open spec fn trim_start_by(s: Seq<char>, k: Strip) -> Seq<char>
    decreases s.len(),
{
    if s.len() > 0 && strips(k, s[0]) {
        trim_start_by(s.drop_first(), k)
    } else {
        s
    }
}

/// `s` without its trailing characters of class `k`.
pub open spec fn trim_end_by(s: Seq<char>, k: Strip) -> Seq<char>
    decreases s.len(),
{
    if s.len() > 0 && strips(k, s.last()) {
        trim_end_by(s.drop_last(), k)
    } else {
        s
    }
}

/// `s` without leading and trailing characters of class `k`.
pub open spec fn trim_by(s: Seq<char>, k: Strip) -> Seq<char> {
    trim_end_by(trim_start_by(s, k), k)
}

/// `str::trim`.
pub open spec fn trim(s: Seq<char>) -> Seq<char> {
    trim_by(s, Strip::Whitespace)
}

/// Index of the first character of `v[from..]` not of class `k`
/// (or `v.len()`); everything before it from `from` on is stripped.
pub fn skip_class(v: &[char], from: usize, k: Strip) -> (i: usize)
    requires
        from <= v.len(),
    ensures
        from <= i <= v.len(),
        trim_start_by(v@.skip(from as int), k) == v@.skip(i as int),
        forall|j: int| from <= j < i ==> strips(k, #[trigger] v@[j]),
        i < v.len() ==> !strips(k, v@[i as int]),
{
    let mut i = from;
    while i < v.len() && strips_char(k, v[i])
        invariant
            from <= i <= v.len(),
            trim_start_by(v@.skip(from as int), k) == trim_start_by(v@.skip(i as int), k),
            forall|j: int| from <= j < i ==> strips(k, #[trigger] v@[j]),
        decreases v.len() - i,
    {
        assert(v@.skip(i as int).drop_first() == v@.skip(i + 1));
        i += 1;
    }
    i
}

/// The bounds `(a, b)` of `trim_by(v[from..to], k)` inside `v`.
pub fn trim_bounds(v: &[char], from: usize, to: usize, k: Strip) -> (r: (usize, usize))
    requires
        from <= to <= v.len(),
    ensures
        from <= r.0 <= r.1 <= to,
        v@.subrange(r.0 as int, r.1 as int) == trim_by(v@.subrange(from as int, to as int), k),
{
    let mut a = from;
    while a < to && strips_char(k, v[a])
        invariant
            from <= a <= to <= v.len(),
            trim_start_by(v@.subrange(from as int, to as int), k) == trim_start_by(
                v@.subrange(a as int, to as int),
                k,
            ),
        decreases to - a,
    {
        assert(v@.subrange(a as int, to as int).drop_first() == v@.subrange(a + 1, to as int));
        a += 1;
    }
    assert(trim_start_by(v@.subrange(a as int, to as int), k) == v@.subrange(a as int, to as int));
    let mut b = to;
    while b > a && strips_char(k, v[b - 1])
        invariant
            from <= a <= b <= to <= v.len(),
            trim_by(v@.subrange(from as int, to as int), k) == trim_end_by(
                v@.subrange(a as int, b as int),
                k,
            ),
        decreases b - a,
    {
        assert(v@.subrange(a as int, b as int).drop_last() == v@.subrange(a as int, b - 1));
        b -= 1;
    }
    (a, b)
}

/// A copy of `v[from..to]`.
pub fn slice_vec(v: &[char], from: usize, to: usize) -> (r: Vec<char>)
    requires
        from <= to <= v.len(),
    ensures
        r@ == v@.subrange(from as int, to as int),
{
    let mut r: Vec<char> = Vec::new();
    let mut i = from;
    while i < to
        invariant
            from <= i <= to <= v.len(),
            r@ == v@.subrange(from as int, i as int),
        decreases to - i,
    {
        r.push(v[i]);
        i += 1;
        assert(r@ == v@.subrange(from as int, i as int));
    }
    r
}

/// `trim_by` on a whole vector, as a new vector.
pub fn trimmed(v: &[char], k: Strip) -> (r: Vec<char>)
    ensures
        r@ == trim_by(v@, k),
{
    let (a, b) = trim_bounds(v, 0, v.len(), k);
    assert(v@.subrange(0, v.len() as int) == v@);
    slice_vec(v, a, b)
}

/// Appends all of `w` to `v`.
pub fn extend(v: &mut Vec<char>, w: &[char])
    ensures
        final(v)@ == old(v)@ + w@,
{
    let mut i: usize = 0;
    while i < w.len()
        invariant
            i <= w.len(),
            v@ == old(v)@ + w@.take(i as int),
        decreases w.len() - i,
    {
        v.push(w[i]);
        i += 1;
        assert(w@.take(i as int) == w@.take(i - 1).push(w@[i - 1]));
    }
    assert(w@.take(w.len() as int) == w@);
}

/// The character sequences held by a vector of character vectors.
pub open spec fn views(v: Seq<Vec<char>>) -> Seq<Seq<char>> {
    v.map_values(|x: Vec<char>| x@)
}

/// `s` split at every `sep` (`str::split(sep)`): never empty.
pub open spec fn split(s: Seq<char>, sep: char) -> Seq<Seq<char>>
    decreases s.len(),
{
    if s.len() == 0 {
        seq![Seq::<char>::empty()]
    } else {
        let head = split(s.drop_last(), sep);
        if s.last() == sep {
            head.push(Seq::<char>::empty())
        } else {
            head.update(head.len() - 1, head.last().push(s.last()))
        }
    }
}

pub proof fn lemma_split_nonempty(s: Seq<char>, sep: char)
    ensures
        split(s, sep).len() >= 1,
    decreases s.len(),
{
    if s.len() > 0 {
        lemma_split_nonempty(s.drop_last(), sep);
    }
}

/// `str::split(sep)`, collected.
pub fn split_on(v: &[char], sep: char) -> (r: Vec<Vec<char>>)
    ensures
        views(r@) == split(v@, sep),
        r.len() >= 1,
{
    let mut lines: Vec<Vec<char>> = Vec::new();
    let mut cur: Vec<char> = Vec::new();
    let mut i: usize = 0;
    assert(v@.take(0) == Seq::<char>::empty());
    while i < v.len()
        invariant
            i <= v.len(),
            split(v@.take(i as int), sep) == views(lines@).push(cur@),
        decreases v.len() - i,
    {
        let c = v[i];
        let ghost before = v@.take(i as int);
        let ghost old_lines = views(lines@);
        let ghost old_cur = cur@;
        assert(v@.take(i + 1).drop_last() == before);
        assert(v@.take(i + 1).last() == c);
        if c == sep {
            lines.push(cur);
            cur = Vec::new();
            assert(views(lines@) =~= old_lines.push(old_cur));
        } else {
            cur.push(c);
            assert(old_lines.push(old_cur).update(old_lines.len() as int, old_cur.push(c))
                =~= old_lines.push(cur@));
        }
        i += 1;
    }
    assert(v@.take(v.len() as int) == v@);
    let ghost old_lines = views(lines@);
    let ghost old_cur = cur@;
    lines.push(cur);
    assert(views(lines@) =~= old_lines.push(old_cur));
    proof {
        lemma_split_nonempty(v@, sep);
    }
    lines
}


/// `parts` joined with `sep` between neighbours (`[T]::join`).
pub open spec fn join(parts: Seq<Seq<char>>, sep: Seq<char>) -> Seq<char>
    decreases parts.len(),
{
    if parts.len() == 0 {
        Seq::<char>::empty()
    } else if parts.len() == 1 {
        parts[0]
    } else {
        join(parts.drop_last(), sep) + sep + parts.last()
    }
}

/// `lines[from..to]` joined with `sep`.
pub fn join_range(lines: &Vec<Vec<char>>, from: usize, to: usize, sep: &[char]) -> (r: Vec<char>)
    requires
        from <= to <= lines.len(),
    ensures
        r@ == join(views(lines@).subrange(from as int, to as int), sep@),
{
    let mut r: Vec<char> = Vec::new();
    let mut i = from;
    assert(views(lines@).subrange(from as int, from as int) =~= Seq::<Seq<char>>::empty());
    while i < to
        invariant
            from <= i <= to <= lines.len(),
            r@ == join(views(lines@).subrange(from as int, i as int), sep@),
        decreases to - i,
    {
        let ghost prev = views(lines@).subrange(from as int, i as int);
        let ghost next = views(lines@).subrange(from as int, i + 1);
        assert(next.drop_last() =~= prev);
        assert(next.last() == lines@[i as int]@);
        if i > from {
            extend(&mut r, sep);
        } else {
            assert(next =~= seq![lines@[i as int]@]);
        }
        extend(&mut r, &lines[i]);
        i += 1;
    }
    r
}

/// Bytes that `char::len_utf8` reports for `c`.
pub open spec fn char_utf8_len(c: char) -> nat {
    let u = c as u32;
    if u < 0x80 {
        1
    } else if u < 0x800 {
        2
    } else if u < 0x10000 {
        3
    } else {
        4
    }
}

/// Length in bytes of the UTF-8 encoding of `s` (`str::len`).
pub open spec fn utf8_len(s: Seq<char>) -> nat
    decreases s.len(),
{
    if s.len() == 0 {
        0
    } else {
        utf8_len(s.drop_last()) + char_utf8_len(s.last())
    }
}

pub fn char_len_utf8(c: char) -> (n: usize)
    ensures
        n == char_utf8_len(c),
{
    let u = c as u32;
    if u < 0x80 {
        1
    } else if u < 0x800 {
        2
    } else if u < 0x10000 {
        3
    } else {
        4
    }
}

pub proof fn lemma_utf8_len_prefix(s: Seq<char>, i: int)
    requires
        0 <= i <= s.len(),
    ensures
        utf8_len(s.take(i)) <= utf8_len(s),
    decreases s.len() - i,
{
    if i < s.len() {
        lemma_utf8_len_prefix(s, i + 1);
        assert(s.take(i + 1).drop_last() == s.take(i));
    } else {
        assert(s.take(i) == s);
    }
}

/// Whether the UTF-8 encoding of `v` is longer than `limit` bytes.
pub fn utf8_len_exceeds(v: &[char], limit: usize) -> (b: bool)
    ensures
        b == (utf8_len(v@) > limit),
{
    let mut total: usize = 0;
    let mut i: usize = 0;
    assert(v@.take(0) =~= Seq::<char>::empty());
    while i < v.len()
        invariant
            i <= v.len(),
            total == utf8_len(v@.take(i as int)),
            total <= limit,
        decreases v.len() - i,
    {
        assert(v@.take(i + 1).drop_last() == v@.take(i as int));
        let n = char_len_utf8(v[i]);
        if n > limit - total {
            proof {
                lemma_utf8_len_prefix(v@, i + 1);
            }
            return true;
        }
        total = total + n;
        i += 1;
    }
    assert(v@.take(v.len() as int) == v@);
    false
}

/// Exact copy of a character vector.
pub fn copy_chars(v: &[char]) -> (r: Vec<char>)
    ensures
        r@ == v@,
{
    let r = slice_vec(v, 0, v.len());
    assert(v@.subrange(0, v.len() as int) == v@);
    r
}

/// Trimming keeps a sequence whose first character is not stripped non-empty.
pub proof fn lemma_trim_end_keeps(s: Seq<char>, k: Strip)
    requires
        s.len() > 0,
        !strips(k, s[0]),
    ensures
        trim_end_by(s, k).len() > 0,
    decreases s.len(),
{
    if strips(k, s.last()) {
        assert(s.len() > 1);
        assert(s.drop_last()[0] == s[0]);
        lemma_trim_end_keeps(s.drop_last(), k);
    }
}


/// Whether two character slices hold the same sequence.
pub fn chars_eq(a: &[char], b: &[char]) -> (r: bool)
    ensures
        r == (a@ == b@),
{
    if a.len() != b.len() {
        return false;
    }
    let mut i: usize = 0;
    while i < a.len()
        invariant
            i <= a.len() == b.len(),
            forall|j: int| 0 <= j < i ==> a@[j] == b@[j],
        decreases a.len() - i,
    {
        if a[i] != b[i] {
            return false;
        }
        i += 1;
    }
    assert(a@ =~= b@);
    true
}

/// Whether a string holds exactly the characters of `b`.
pub fn str_is(a: &str, b: &[char]) -> (r: bool)
    ensures
        r == (a@ == b@),
{
    let cs = chars_of(a);
    chars_eq(&cs, b)
}

/// `p` is a prefix of `s` (`str::starts_with`).
pub open spec fn has_prefix(s: Seq<char>, p: Seq<char>) -> bool {
    p.len() <= s.len() && s.take(p.len() as int) == p
}

/// `p` occurs in `s` at position `i`.
pub open spec fn occurs_at(s: Seq<char>, p: Seq<char>, i: int) -> bool {
    0 <= i && i + p.len() <= s.len() && s.subrange(i, i + p.len()) == p
}

/// `p` occurs somewhere in `s` (`str::contains`).
pub open spec fn contains_seq(s: Seq<char>, p: Seq<char>) -> bool {
    exists|i: int| #[trigger] occurs_at(s, p, i)
}

/// Whether `p` occurs in `s` at position `at`.
pub fn matches_at(s: &[char], p: &[char], at: usize) -> (r: bool)
    ensures
        r == occurs_at(s@, p@, at as int),
{
    if at > s.len() || p.len() > s.len() - at {
        return false;
    }
    let mut j: usize = 0;
    while j < p.len()
        invariant
            at + p.len() <= s.len(),
            j <= p.len(),
            forall|k: int| 0 <= k < j ==> s@[at + k] == p@[k],
        decreases p.len() - j,
    {
        if s[at + j] != p[j] {
            assert(s@.subrange(at as int, at + p.len())[j as int] != p@[j as int]);
            return false;
        }
        j += 1;
    }
    assert(s@.subrange(at as int, at + p.len()) =~= p@);
    true
}

/// Whether `s` starts with `p`.
pub fn starts_with(s: &[char], p: &[char]) -> (r: bool)
    ensures
        r == has_prefix(s@, p@),
{
    let r = matches_at(s, p, 0);
    assert(s@.subrange(0, p@.len() as int) == s@.take(p@.len() as int));
    r
}

/// Whether `p` occurs anywhere in `s`.
pub fn contains(s: &[char], p: &[char]) -> (r: bool)
    ensures
        r == contains_seq(s@, p@),
{
    let mut i: usize = 0;
    while i < s.len()
        invariant
            i <= s.len(),
            forall|k: int| 0 <= k < i ==> !#[trigger] occurs_at(s@, p@, k),
        decreases s.len() - i,
    {
        if matches_at(s, p, i) {
            return true;
        }
        i += 1;
    }
    if matches_at(s, p, i) {
        return true;
    }
    assert forall|k: int| !#[trigger] occurs_at(s@, p@, k) by {
        if k > s@.len() {
            assert(!occurs_at(s@, p@, k));
        }
    }
    false
}

/// Nothing but whitespace.
pub open spec fn blank_in(s: Seq<char>) -> bool {
    forall|i: int| 0 <= i < s.len() ==> is_ws(#[trigger] s[i])
}

/// `trim_start_by` drops a stripped prefix and stops at the first kept character.
pub proof fn lemma_trim_start(s: Seq<char>, k: Strip) -> (j: int)
    ensures
        0 <= j <= s.len(),
        trim_start_by(s, k) == s.skip(j),
        forall|i: int| 0 <= i < j ==> strips(k, #[trigger] s[i]),
    decreases s.len(),
{
    if s.len() > 0 && strips(k, s[0]) {
        let j1 = lemma_trim_start(s.drop_first(), k);
        assert(s.drop_first().skip(j1) == s.skip(j1 + 1));
        assert forall|i: int| 0 <= i < j1 + 1 implies strips(k, #[trigger] s[i]) by {
            if i > 0 {
                assert(s[i] == s.drop_first()[i - 1]);
            }
        }
        j1 + 1
    } else {
        assert(s.skip(0) == s);
        0
    }
}

/// `trim_end_by` drops a stripped suffix.
pub proof fn lemma_trim_end(s: Seq<char>, k: Strip) -> (m: int)
    ensures
        0 <= m <= s.len(),
        trim_end_by(s, k) == s.take(m),
        forall|i: int| m <= i < s.len() ==> strips(k, #[trigger] s[i]),
        m > 0 ==> !strips(k, s[m - 1]),
    decreases s.len(),
{
    if s.len() > 0 && strips(k, s.last()) {
        let m1 = lemma_trim_end(s.drop_last(), k);
        assert(s.drop_last().take(m1) == s.take(m1));
        assert forall|i: int| m1 <= i < s.len() implies strips(k, #[trigger] s[i]) by {
            if i < s.len() - 1 {
                assert(s[i] == s.drop_last()[i]);
            }
        }
        if m1 > 0 {
            assert(s[m1 - 1] == s.drop_last()[m1 - 1]);
        }
        m1
    } else {
        assert(s.take(s.len() as int) == s);
        s.len() as int
    }
}

/// Trimming never lengthens, and leaves nothing exactly when every character
/// is stripped.
pub proof fn lemma_trim_bounds(s: Seq<char>, k: Strip)
    ensures
        trim_by(s, k).len() <= s.len(),
        trim_by(s, k).len() == 0 <==> forall|i: int| 0 <= i < s.len() ==> strips(k, #[trigger] s[i]),
        k == Strip::Whitespace ==> (trim_by(s, k).len() == 0 <==> blank_in(s)),
{
    let j = lemma_trim_start(s, k);
    let t = s.skip(j);
    let m = lemma_trim_end(t, k);
    if trim_by(s, k).len() == 0 {
        assert(m == 0);
        assert forall|i: int| 0 <= i < s.len() implies strips(k, #[trigger] s[i]) by {
            if i >= j {
                assert(s[i] == t[i - j]);
            }
        }
    }
    if forall|i: int| 0 <= i < s.len() ==> strips(k, #[trigger] s[i]) {
        if m > 0 {
            assert(t[m - 1] == s[j + m - 1]);
        }
    }
    if k == Strip::Whitespace {
        if blank_in(s) {
            assert forall|i: int| 0 <= i < s.len() implies strips(k, #[trigger] s[i]) by {
                assert(is_ws(s[i]));
            }
        }
        if forall|i: int| 0 <= i < s.len() ==> strips(k, #[trigger] s[i]) {
            assert forall|i: int| 0 <= i < s.len() implies is_ws(#[trigger] s[i]) by {
                assert(strips(k, s[i]));
            }
        }
    }
}

/// A line without one trailing carriage return.
pub open spec fn strip_cr(l: Seq<char>) -> Seq<char> {
    if l.len() > 0 && l.last() == '\r' {
        l.drop_last()
    } else {
        l
    }
}

/// `str::lines`: split at `\n`, no empty line after a final newline, one
/// trailing `\r` removed from each line.
pub open spec fn lines(s: Seq<char>) -> Seq<Seq<char>> {
    let parts = split(s, '\n');
    let kept = if s.len() == 0 || s.last() == '\n' {
        parts.drop_last()
    } else {
        parts
    };
    kept.map_values(|l: Seq<char>| strip_cr(l))
}

/// The lines of `v`, as `str::lines` yields them.
pub fn lines_of(v: &[char]) -> (r: Vec<Vec<char>>)
    ensures
        views(r@) == lines(v@),
{
    let parts = split_on(v, '\n');
    let drop_last = v.len() == 0 || v[v.len() - 1] == '\n';
    let n = if drop_last {
        parts.len() - 1
    } else {
        parts.len()
    };
    let ghost kept = if v@.len() == 0 || v@.last() == '\n' {
        split(v@, '\n').drop_last()
    } else {
        split(v@, '\n')
    };
    assert(kept == views(parts@).take(n as int));
    let mut out: Vec<Vec<char>> = Vec::new();
    let mut i: usize = 0;
    while i < n
        invariant
            n <= parts.len(),
            i <= n,
            kept == views(parts@).take(n as int),
            views(out@) == kept.take(i as int).map_values(|l: Seq<char>| strip_cr(l)),
        decreases n - i,
    {
        let line = &parts[i];
        let l = if line.len() > 0 && line[line.len() - 1] == '\r' {
            slice_vec(line.as_slice(), 0, line.len() - 1)
        } else {
            copy_chars(line.as_slice())
        };
        proof {
            if line@.len() > 0 && line@.last() == '\r' {
                assert(line@.subrange(0, line@.len() - 1) == line@.drop_last());
            }
        }
        let ghost before = views(out@);
        out.push(l);
        assert(kept.take(i + 1).map_values(|l: Seq<char>| strip_cr(l)) =~= kept.take(
            i as int,
        ).map_values(|l: Seq<char>| strip_cr(l)).push(strip_cr(kept[i as int])));
        assert(views(out@) =~= before.push(l@));
        i += 1;
    }
    assert(kept.take(n as int) == kept);
    out
}

/// `v` without its trailing `c` characters (`str::trim_end_matches(c)`).
pub fn trim_end_chars(v: &[char], c: char) -> (r: Vec<char>)
    ensures
        r@ == trim_end_by(v@, Strip::Exactly(c)),
{
    let mut b = v.len();
    assert(v@.subrange(0, b as int) == v@);
    while b > 0 && v[b - 1] == c
        invariant
            b <= v.len(),
            trim_end_by(v@, Strip::Exactly(c)) == trim_end_by(v@.subrange(0, b as int), Strip::Exactly(c)),
        decreases b,
    {
        assert(v@.subrange(0, b as int).drop_last() == v@.subrange(0, b - 1));
        b -= 1;
    }
    slice_vec(v, 0, b)
}

/// The first character's bytes come first.
pub proof fn lemma_utf8_len_first(s: Seq<char>)
    requires
        s.len() > 0,
    ensures
        utf8_len(s) == char_utf8_len(s[0]) + utf8_len(s.drop_first()),
    decreases s.len(),
{
    if s.len() > 1 {
        lemma_utf8_len_first(s.drop_last());
        assert(s.drop_last().drop_first() =~= s.drop_first().drop_last());
        assert(s.drop_last()[0] == s[0]);
        assert(s.drop_first().last() == s.last());
        assert(utf8_len(s.drop_first()) == utf8_len(s.drop_first().drop_last()) + char_utf8_len(
            s.drop_first().last(),
        ));
    } else {
        assert(s.drop_first().len() == 0);
        assert(s.drop_last().len() == 0);
        assert(utf8_len(s.drop_first()) == 0);
        assert(utf8_len(s.drop_last()) == 0);
        assert(s.last() == s[0]);
        assert(utf8_len(s) == utf8_len(s.drop_last()) + char_utf8_len(s.last()));
    }
}

/// `utf8_len` is the length of vstd's UTF-8 encoding, hence of `str::len`.
pub proof fn lemma_utf8_len_encoding(s: Seq<char>)
    ensures
        vstd::utf8::encode_utf8(s).len() == utf8_len(s),
    decreases s.len(),
{
    broadcast use vstd::utf8::char_is_scalar;

    if s.len() > 0 {
        lemma_utf8_len_encoding(s.drop_first());
        lemma_utf8_len_first(s);
        let c = s[0];
        vstd::utf8::char_is_scalar(c);
        assert(vstd::utf8::encode_scalar(c as u32).len() == char_utf8_len(c));
    }
}

/// Byte length of a string, as `utf8_len` of its characters.
pub fn byte_len(s: &str) -> (n: usize)
    ensures
        n == utf8_len(s@),
{
    proof {
        lemma_utf8_len_encoding(s@);
    }
    s.as_bytes().len()
}

/// Lexicographic order on characters (`str`'s `Ord`, which compares UTF-8
/// bytes and so code points).
pub open spec fn lex_lt(a: Seq<char>, b: Seq<char>) -> bool
    decreases a.len(),
{
    if a.len() == 0 {
        b.len() > 0
    } else if b.len() == 0 {
        false
    } else if a[0] != b[0] {
        (a[0] as u32) < (b[0] as u32)
    } else {
        lex_lt(a.drop_first(), b.drop_first())
    }
}

pub proof fn lemma_lex_irreflexive(a: Seq<char>)
    ensures
        !lex_lt(a, a),
    decreases a.len(),
{
    if a.len() > 0 {
        lemma_lex_irreflexive(a.drop_first());
    }
}

pub proof fn lemma_lex_total(a: Seq<char>, b: Seq<char>)
    ensures
        a == b || lex_lt(a, b) || lex_lt(b, a),
        !(lex_lt(a, b) && lex_lt(b, a)),
    decreases a.len(),
{
    if a.len() > 0 && b.len() > 0 {
        if a[0] == b[0] {
            lemma_lex_total(a.drop_first(), b.drop_first());
            if a.drop_first() == b.drop_first() {
                assert(a =~= seq![a[0]] + a.drop_first());
                assert(b =~= seq![b[0]] + b.drop_first());
            }
        } else {
            vstd::utf8::char_u32_cast(a[0], a[0] as u32);
            vstd::utf8::char_u32_cast(b[0], b[0] as u32);
            assert((a[0] as u32) != (b[0] as u32));
        }
    } else if a.len() == 0 && b.len() == 0 {
        assert(a =~= b);
    }
}

pub proof fn lemma_lex_transitive(a: Seq<char>, b: Seq<char>, c: Seq<char>)
    requires
        lex_lt(a, b),
        lex_lt(b, c),
    ensures
        lex_lt(a, c),
    decreases a.len(),
{
    if a.len() > 0 && b.len() > 0 && c.len() > 0 {
        if a[0] == b[0] && b[0] == c[0] {
            lemma_lex_transitive(a.drop_first(), b.drop_first(), c.drop_first());
        }
    }
}

/// Whether `a` sorts before `b`.
pub fn chars_lt(a: &[char], b: &[char]) -> (r: bool)
    ensures
        r == lex_lt(a@, b@),
{
    let mut i: usize = 0;
    assert(a@.skip(0) == a@ && b@.skip(0) == b@);
    while i < a.len() && i < b.len() && a[i] == b[i]
        invariant
            i <= a.len(),
            i <= b.len(),
            lex_lt(a@, b@) == lex_lt(a@.skip(i as int), b@.skip(i as int)),
        decreases a.len() - i,
    {
        assert(a@.skip(i as int).drop_first() == a@.skip(i + 1));
        assert(b@.skip(i as int).drop_first() == b@.skip(i + 1));
        i += 1;
    }
    if i == a.len() {
        i < b.len()
    } else if i == b.len() {
        false
    } else {
        assert(a@.skip(i as int)[0] == a@[i as int]);
        assert(b@.skip(i as int)[0] == b@[i as int]);
        (a[i] as u32) < (b[i] as u32)
    }
}

} // verus!
