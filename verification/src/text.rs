//! Character-level text handling shared by the world model and the planner.
//!
//! Text is handled as sequences of `char`. Every operation here is stated
//! over `Seq<char>`: trimming, splitting on whitespace and on line breaks,
//! joining, and the FNV-1a digest used for hash suffixes.
use vstd::prelude::*;

verus! {

// ---------------------------------------------------------------------------
// Character classes
// ---------------------------------------------------------------------------

/// The Unicode `White_Space` property, the class `char::is_whitespace` tests.
pub open spec fn is_ws(c: char) -> bool {
    let u = c as u32;
    (0x9 <= u && u <= 0xd) || u == 0x20 || u == 0x85 || u == 0xa0 || u == 0x1680 || (0x2000 <= u
        && u <= 0x200a) || u == 0x2028 || u == 0x2029 || u == 0x202f || u == 0x205f || u == 0x3000
}

pub open spec fn is_ascii_upper(c: char) -> bool {
    'A' <= c && c <= 'Z'
}

pub open spec fn is_ascii_digit(c: char) -> bool {
    '0' <= c && c <= '9'
}

pub open spec fn is_ascii_alnum(c: char) -> bool {
    is_ascii_digit(c) || is_ascii_upper(c) || ('a' <= c && c <= 'z')
}

pub fn char_is_ws(c: char) -> (b: bool)
    ensures
        b == is_ws(c),
{
    let u = c as u32;
    (0x9 <= u && u <= 0xd) || u == 0x20 || u == 0x85 || u == 0xa0 || u == 0x1680 || (0x2000 <= u
        && u <= 0x200a) || u == 0x2028 || u == 0x2029 || u == 0x202f || u == 0x205f || u == 0x3000
}

pub fn char_is_ascii_upper(c: char) -> (b: bool)
    ensures
        b == is_ascii_upper(c),
{
    'A' <= c && c <= 'Z'
}

pub fn char_is_ascii_alnum(c: char) -> (b: bool)
    ensures
        b == is_ascii_alnum(c),
{
    ('0' <= c && c <= '9') || ('A' <= c && c <= 'Z') || ('a' <= c && c <= 'z')
}

// ---------------------------------------------------------------------------
// Conversions between `String` and `Vec<char>`
// ---------------------------------------------------------------------------

/// The characters of a string slice, in order.
pub fn chars_of(s: &str) -> (v: Vec<char>)
    ensures
        v@ == s@,
{
    broadcast use vstd::string::group_string_axioms;

    let mut v: Vec<char> = Vec::new();
    for c in it: s.chars()
        invariant
            v@ == it.seq().take(it.index() as int),
            it.seq() == s@,
    {
        v.push(c);
        assert(v@ == it.seq().take(it.index() as int + 1));
    }
    assert(v@ == s@);
    v
}

/// `String::from_iter` over characters: the result holds exactly the given
/// characters, in order.
#[verifier::external_body]
pub(crate) fn string_of(v: &[char]) -> (s: String)
    ensures
        s@ == v@,
{
    String::from_iter(v.iter())
}


// ---------------------------------------------------------------------------
// Trimming
// ---------------------------------------------------------------------------

/// `s` without its leading whitespace.
pub open spec fn trim_start(s: Seq<char>) -> Seq<char>
    decreases s.len(),
{
    if s.len() > 0 && is_ws(s[0]) {
        trim_start(s.drop_first())
    } else {
        s
    }
}

/// `s` without its trailing whitespace.
pub open spec fn trim_end(s: Seq<char>) -> Seq<char>
    decreases s.len(),
{
    if s.len() > 0 && is_ws(s.last()) {
        trim_end(s.drop_last())
    } else {
        s
    }
}

/// `s` without leading and trailing whitespace (`str::trim`).
pub open spec fn trim(s: Seq<char>) -> Seq<char> {
    trim_end(trim_start(s))
}

/// `s` without leading and trailing characters that are not ASCII letters or digits.
pub open spec fn trim_non_alnum(s: Seq<char>) -> Seq<char> {
    trim_end_non_alnum(trim_start_non_alnum(s))
}

pub open spec fn trim_start_non_alnum(s: Seq<char>) -> Seq<char>
    decreases s.len(),
{
    if s.len() > 0 && !is_ascii_alnum(s[0]) {
        trim_start_non_alnum(s.drop_first())
    } else {
        s
    }
}

pub open spec fn trim_end_non_alnum(s: Seq<char>) -> Seq<char>
    decreases s.len(),
{
    if s.len() > 0 && !is_ascii_alnum(s.last()) {
        trim_end_non_alnum(s.drop_last())
    } else {
        s
    }
}

proof fn lemma_trim_start_skip(s: Seq<char>, i: int)
    requires
        0 <= i <= s.len(),
        forall|k: int| 0 <= k < i ==> is_ws(#[trigger] s[k]),
    ensures
        trim_start(s) == trim_start(s.subrange(i, s.len() as int)),
    decreases i,
{
    if i > 0 {
        assert(s.drop_first().subrange(i - 1, s.drop_first().len() as int) =~= s.subrange(
            i,
            s.len() as int,
        ));
        lemma_trim_start_skip(s.drop_first(), i - 1);
    } else {
        assert(s.subrange(0, s.len() as int) =~= s);
    }
}

proof fn lemma_trim_end_cut(s: Seq<char>, j: int)
    requires
        0 <= j <= s.len(),
        forall|k: int| j <= k < s.len() ==> is_ws(#[trigger] s[k]),
    ensures
        trim_end(s) == trim_end(s.subrange(0, j)),
    decreases s.len() - j,
{
    if j < s.len() {
        assert(s.drop_last().subrange(0, j) =~= s.subrange(0, j));
        lemma_trim_end_cut(s.drop_last(), j);
    } else {
        assert(s.subrange(0, j) =~= s);
    }
}

proof fn lemma_trim_start_non_alnum_skip(s: Seq<char>, i: int)
    requires
        0 <= i <= s.len(),
        forall|k: int| 0 <= k < i ==> !is_ascii_alnum(#[trigger] s[k]),
    ensures
        trim_start_non_alnum(s) == trim_start_non_alnum(s.subrange(i, s.len() as int)),
    decreases i,
{
    if i > 0 {
        assert(s.drop_first().subrange(i - 1, s.drop_first().len() as int) =~= s.subrange(
            i,
            s.len() as int,
        ));
        lemma_trim_start_non_alnum_skip(s.drop_first(), i - 1);
    } else {
        assert(s.subrange(0, s.len() as int) =~= s);
    }
}

proof fn lemma_trim_end_non_alnum_cut(s: Seq<char>, j: int)
    requires
        0 <= j <= s.len(),
        forall|k: int| j <= k < s.len() ==> !is_ascii_alnum(#[trigger] s[k]),
    ensures
        trim_end_non_alnum(s) == trim_end_non_alnum(s.subrange(0, j)),
    decreases s.len() - j,
{
    if j < s.len() {
        assert(s.drop_last().subrange(0, j) =~= s.subrange(0, j));
        lemma_trim_end_non_alnum_cut(s.drop_last(), j);
    } else {
        assert(s.subrange(0, j) =~= s);
    }
}

/// Copies `v[from..to]`.
pub fn slice_chars(v: &[char], from: usize, to: usize) -> (r: Vec<char>)
    requires
        from <= to <= v@.len(),
    ensures
        r@ == v@.subrange(from as int, to as int),
{
    let mut r: Vec<char> = Vec::new();
    let mut i = from;
    while i < to
        invariant
            from <= i <= to <= v@.len(),
            r@ == v@.subrange(from as int, i as int),
        decreases to - i,
    {
        r.push(v[i]);
        i += 1;
        assert(r@ =~= v@.subrange(from as int, i as int));
    }
    r
}

/// `str::trim` on characters.
pub fn trim_chars(v: &[char]) -> (r: Vec<char>)
    ensures
        r@ == trim(v@),
{
    let n = v.len();
    let mut i: usize = 0;
    while i < n && char_is_ws(v[i])
        invariant
            0 <= i <= n == v@.len(),
            forall|k: int| 0 <= k < i ==> is_ws(#[trigger] v@[k]),
        decreases n - i,
    {
        i += 1;
    }
    proof {
        lemma_trim_start_skip(v@, i as int);
    }
    let mut j: usize = n;
    while j > i && char_is_ws(v[j - 1])
        invariant
            0 <= i <= j <= n == v@.len(),
            forall|k: int| j <= k < n ==> is_ws(#[trigger] v@[k]),
        decreases j,
    {
        j -= 1;
    }
    let ghost rest = v@.subrange(i as int, n as int);
    proof {
        assert(trim_start(rest) == rest);
        assert forall|k: int| (j - i) <= k < rest.len() implies is_ws(#[trigger] rest[k]) by {
            assert(rest[k] == v@[k + i]);
        }
        lemma_trim_end_cut(rest, j - i);
        assert(rest.subrange(0, j - i) =~= v@.subrange(i as int, j as int));
    }
    slice_chars(v, i, j)
}

/// `trim_matches(|c| !c.is_ascii_alphanumeric())` on characters.
pub fn trim_non_alnum_chars(v: &[char]) -> (r: Vec<char>)
    ensures
        r@ == trim_non_alnum(v@),
{
    let n = v.len();
    let mut i: usize = 0;
    while i < n && !char_is_ascii_alnum(v[i])
        invariant
            0 <= i <= n == v@.len(),
            forall|k: int| 0 <= k < i ==> !is_ascii_alnum(#[trigger] v@[k]),
        decreases n - i,
    {
        i += 1;
    }
    proof {
        lemma_trim_start_non_alnum_skip(v@, i as int);
    }
    let mut j: usize = n;
    while j > i && !char_is_ascii_alnum(v[j - 1])
        invariant
            0 <= i <= j <= n == v@.len(),
            forall|k: int| j <= k < n ==> !is_ascii_alnum(#[trigger] v@[k]),
        decreases j,
    {
        j -= 1;
    }
    let ghost rest = v@.subrange(i as int, n as int);
    proof {
        assert(trim_start_non_alnum(rest) == rest);
        assert forall|k: int| (j - i) <= k < rest.len() implies !is_ascii_alnum(
            #[trigger] rest[k],
        ) by {
            assert(rest[k] == v@[k + i]);
        }
        lemma_trim_end_non_alnum_cut(rest, j - i);
        assert(rest.subrange(0, j - i) =~= v@.subrange(i as int, j as int));
    }
    slice_chars(v, i, j)
}

/// `str::trim_start` on characters.
pub fn trim_start_chars(v: &[char]) -> (r: Vec<char>)
    ensures
        r@ == trim_start(v@),
{
    let n = v.len();
    let mut i: usize = 0;
    while i < n && char_is_ws(v[i])
        invariant
            0 <= i <= n == v@.len(),
            forall|k: int| 0 <= k < i ==> is_ws(#[trigger] v@[k]),
        decreases n - i,
    {
        i += 1;
    }
    proof {
        lemma_trim_start_skip(v@, i as int);
    }
    slice_chars(v, i, n)
}

/// `str::trim_end` on characters.
pub fn trim_end_chars(v: &[char]) -> (r: Vec<char>)
    ensures
        r@ == trim_end(v@),
{
    let n = v.len();
    let mut j: usize = n;
    while j > 0 && char_is_ws(v[j - 1])
        invariant
            0 <= j <= n == v@.len(),
            forall|k: int| j <= k < n ==> is_ws(#[trigger] v@[k]),
        decreases j,
    {
        j -= 1;
    }
    proof {
        lemma_trim_end_cut(v@, j as int);
    }
    slice_chars(v, 0, j)
}

/// Trimming never lengthens a text.
pub proof fn lemma_trim_lengths(s: Seq<char>)
    ensures
        trim_start(s).len() <= s.len(),
        trim_end(s).len() <= s.len(),
    decreases s.len(),
{
    if s.len() > 0 {
        lemma_trim_lengths(s.drop_first());
        lemma_trim_lengths(s.drop_last());
    }
}

proof fn lemma_trim_start_shape(s: Seq<char>)
    ensures
        trim_start(s).len() == 0 || !is_ws(trim_start(s)[0]),
    decreases s.len(),
{
    if s.len() > 0 && is_ws(s[0]) {
        lemma_trim_start_shape(s.drop_first());
    }
}

proof fn lemma_trim_end_shape(s: Seq<char>)
    ensures
        trim_end(s).len() <= s.len(),
        trim_end(s) == s.take(trim_end(s).len() as int),
        trim_end(s).len() == 0 || !is_ws(trim_end(s).last()),
    decreases s.len(),
{
    if s.len() > 0 && is_ws(s.last()) {
        lemma_trim_end_shape(s.drop_last());
        assert(s.drop_last().take(trim_end(s).len() as int) =~= s.take(trim_end(s).len() as int));
    } else {
        assert(s.take(s.len() as int) =~= s);
    }
}

/// Trimming a trimmed text changes nothing.
pub proof fn lemma_trim_idempotent(s: Seq<char>)
    ensures
        trim(trim(s)) == trim(s),
{
    let r = trim_start(s);
    let e = trim_end(r);
    lemma_trim_start_shape(s);
    lemma_trim_end_shape(r);
    if e.len() > 0 {
        assert(e[0] == r[0]);
    }
    assert(trim_start(e) == e);
    assert(trim_end(e) == e);
}

/// `str::trim` on a string slice.
pub fn trim_str(s: &str) -> (r: String)
    ensures
        r@ == trim(s@),
{
    let v = chars_of(s);
    let t = trim_chars(v.as_slice());
    string_of(t.as_slice())
}


// ---------------------------------------------------------------------------
// Splitting on whitespace and on line breaks
// ---------------------------------------------------------------------------

/// The pieces of `s` between runs of whitespace, given that `cur` holds the
/// characters of a word already begun.
pub open spec fn words_from(s: Seq<char>, cur: Seq<char>) -> Seq<Seq<char>>
    decreases s.len(),
{
    if s.len() == 0 {
        if cur.len() > 0 {
            seq![cur]
        } else {
            seq![]
        }
    } else if is_ws(s[0]) {
        (if cur.len() > 0 {
            seq![cur]
        } else {
            seq![]
        }) + words_from(s.drop_first(), seq![])
    } else {
        words_from(s.drop_first(), cur.push(s[0]))
    }
}

/// `str::split_whitespace`: the maximal runs of non-whitespace characters.
pub open spec fn words(s: Seq<char>) -> Seq<Seq<char>> {
    words_from(s, seq![])
}

/// `cur` without one trailing carriage return.
pub open spec fn strip_cr(cur: Seq<char>) -> Seq<char> {
    if cur.len() > 0 && cur.last() == '\r' {
        cur.drop_last()
    } else {
        cur
    }
}

/// The lines of `s`, given that `cur` holds the characters of a line already begun.
pub open spec fn lines_from(s: Seq<char>, cur: Seq<char>) -> Seq<Seq<char>>
    decreases s.len(),
{
    if s.len() == 0 {
        if cur.len() > 0 {
            seq![cur]
        } else {
            seq![]
        }
    } else if s[0] == '\n' {
        seq![strip_cr(cur)] + lines_from(s.drop_first(), seq![])
    } else {
        lines_from(s.drop_first(), cur.push(s[0]))
    }
}

/// `str::lines`: pieces between `\n`, each without a `\r` before its `\n`;
/// no empty piece after a final `\n`.
pub open spec fn lines(s: Seq<char>) -> Seq<Seq<char>> {
    lines_from(s, seq![])
}

/// The words of a character sequence (`split_whitespace`).
pub fn split_words(v: &[char]) -> (r: Vec<Vec<char>>)
    ensures
        r@.map_values(|w: Vec<char>| w@) == words(v@),
{
    let n = v.len();
    let mut r: Vec<Vec<char>> = Vec::new();
    let mut cur: Vec<char> = Vec::new();
    let mut i: usize = 0;
    assert(v@.subrange(0, n as int) =~= v@);
    assert(r@.map_values(|w: Vec<char>| w@) + words_from(v@, cur@) =~= words_from(v@, seq![]));
    while i < n
        invariant
            0 <= i <= n == v@.len(),
            words(v@) == r@.map_values(|w: Vec<char>| w@) + words_from(
                v@.subrange(i as int, n as int),
                cur@,
            ),
        decreases n - i,
    {
        let ghost rest = v@.subrange(i as int, n as int);
        let ghost old_r = r@.map_values(|w: Vec<char>| w@);
        let ghost old_cur = cur@;
        assert(rest.drop_first() =~= v@.subrange(i + 1, n as int));
        let c = v[i];
        if char_is_ws(c) {
            if cur.len() > 0 {
                let w = cur;
                r.push(w);
                cur = Vec::new();
                assert(r@.map_values(|w: Vec<char>| w@) =~= old_r + seq![old_cur]);
            } else {
                assert(old_cur =~= seq![]);
                cur = Vec::new();
                assert(r@.map_values(|w: Vec<char>| w@) =~= old_r + seq![]);
            }
            assert(cur@ =~= Seq::<char>::empty());
        } else {
            cur.push(c);
            assert(words_from(rest, old_cur) == words_from(rest.drop_first(), cur@));
        }
        i += 1;
    }
    if cur.len() > 0 {
        r.push(cur);
    }
    proof {
        assert(r@.map_values(|w: Vec<char>| w@) =~= words(v@));
    }
    r
}


/// The lines of a character sequence (`str::lines`).
pub fn split_lines(v: &[char]) -> (r: Vec<Vec<char>>)
    ensures
        r@.map_values(|w: Vec<char>| w@) == lines(v@),
{
    let n = v.len();
    let mut r: Vec<Vec<char>> = Vec::new();
    let mut cur: Vec<char> = Vec::new();
    let mut i: usize = 0;
    assert(v@.subrange(0, n as int) =~= v@);
    assert(r@.map_values(|w: Vec<char>| w@) + lines_from(v@, cur@) =~= lines_from(v@, seq![]));
    while i < n
        invariant
            0 <= i <= n == v@.len(),
            lines(v@) == r@.map_values(|w: Vec<char>| w@) + lines_from(
                v@.subrange(i as int, n as int),
                cur@,
            ),
        decreases n - i,
    {
        let ghost rest = v@.subrange(i as int, n as int);
        let ghost old_r = r@.map_values(|w: Vec<char>| w@);
        let ghost old_cur = cur@;
        assert(rest.drop_first() =~= v@.subrange(i + 1, n as int));
        let c = v[i];
        if c == '\n' {
            let m = cur.len();
            let line = if m > 0 && cur[m - 1] == '\r' {
                slice_chars(cur.as_slice(), 0, m - 1)
            } else {
                cur
            };
            assert(line@ =~= strip_cr(old_cur));
            r.push(line);
            cur = Vec::new();
            assert(r@.map_values(|w: Vec<char>| w@) =~= old_r + seq![strip_cr(old_cur)]);
            assert(cur@ =~= Seq::<char>::empty());
        } else {
            cur.push(c);
            assert(lines_from(rest, old_cur) == lines_from(rest.drop_first(), cur@));
        }
        i += 1;
    }
    if cur.len() > 0 {
        r.push(cur);
    }
    proof {
        assert(r@.map_values(|w: Vec<char>| w@) =~= lines(v@));
    }
    r
}

// ---------------------------------------------------------------------------
// Joining, comparing, searching
// ---------------------------------------------------------------------------

/// The parts joined with `sep` between neighbours (`[T]::join`).
pub open spec fn join(parts: Seq<Seq<char>>, sep: Seq<char>) -> Seq<char>
    decreases parts.len(),
{
    if parts.len() == 0 {
        seq![]
    } else if parts.len() == 1 {
        parts[0]
    } else {
        join(parts.drop_last(), sep) + sep + parts.last()
    }
}

/// Appends `src` to `dst`.
pub fn append_chars(dst: &mut Vec<char>, src: &[char])
    ensures
        final(dst)@ == old(dst)@ + src@,
{
    let mut i: usize = 0;
    let ghost start = dst@;
    while i < src.len()
        invariant
            0 <= i <= src@.len(),
            dst@ == start + src@.subrange(0, i as int),
        decreases src@.len() - i,
    {
        dst.push(src[i]);
        i += 1;
        assert(dst@ =~= start + src@.subrange(0, i as int));
    }
    assert(src@.subrange(0, src@.len() as int) =~= src@);
}

/// Joins the parts with `sep` between neighbours.
pub fn join_chars(parts: &Vec<Vec<char>>, sep: &[char]) -> (r: Vec<char>)
    ensures
        r@ == join(parts@.map_values(|w: Vec<char>| w@), sep@),
{
    let ghost ps = parts@.map_values(|w: Vec<char>| w@);
    let mut r: Vec<char> = Vec::new();
    let mut i: usize = 0;
    while i < parts.len()
        invariant
            0 <= i <= parts@.len(),
            ps == parts@.map_values(|w: Vec<char>| w@),
            r@ == join(ps.take(i as int), sep@),
        decreases parts@.len() - i,
    {
        assert(ps.take(i + 1).drop_last() =~= ps.take(i as int));
        if i > 0 {
            append_chars(&mut r, sep);
        }
        append_chars(&mut r, parts[i].as_slice());
        i += 1;
        proof {
            if i == 1 {
                assert(r@ =~= ps.take(1)[0]);
            }
        }
    }
    assert(ps.take(parts@.len() as int) =~= ps);
    r
}

/// Whether two character sequences are equal.
pub fn chars_eq(a: &[char], b: &[char]) -> (r: bool)
    ensures
        r == (a@ == b@),
{
    if a.len() != b.len() {
        return false;
    }
    let mut i: usize = 0;
    while i < a.len()
        invariant
            0 <= i <= a@.len() == b@.len(),
            forall|k: int| 0 <= k < i ==> a@[k] == b@[k],
        decreases a@.len() - i,
    {
        if a[i] != b[i] {
            return false;
        }
        i += 1;
    }
    assert(a@ =~= b@);
    true
}

/// Whether `s` begins with `prefix`.
pub open spec fn starts_with(s: Seq<char>, prefix: Seq<char>) -> bool {
    prefix.len() <= s.len() && s.subrange(0, prefix.len() as int) == prefix
}

/// Whether `needle` occurs in `s` as a contiguous piece.
pub open spec fn contains(s: Seq<char>, needle: Seq<char>) -> bool {
    exists|i: int|
        0 <= i && i + needle.len() <= s.len() && #[trigger] s.subrange(i, i + needle.len())
            == needle
}

/// Whether `s` begins with `prefix`.
pub fn chars_starts_with(s: &[char], prefix: &[char]) -> (r: bool)
    ensures
        r == starts_with(s@, prefix@),
{
    if prefix.len() > s.len() {
        return false;
    }
    let mut i: usize = 0;
    while i < prefix.len()
        invariant
            0 <= i <= prefix@.len() <= s@.len(),
            forall|k: int| 0 <= k < i ==> s@[k] == prefix@[k],
        decreases prefix@.len() - i,
    {
        if s[i] != prefix[i] {
            assert(s@.subrange(0, prefix@.len() as int)[i as int] != prefix@[i as int]);
            return false;
        }
        i += 1;
    }
    assert(s@.subrange(0, prefix@.len() as int) =~= prefix@);
    true
}

/// Whether `needle` occurs in `s`.
pub fn chars_contains(s: &[char], needle: &[char]) -> (r: bool)
    ensures
        r == contains(s@, needle@),
{
    let sl = s.len();
    let nl = needle.len();
    if nl > sl {
        return false;
    }
    let last = sl - nl;
    let mut i: usize = 0;
    loop
        invariant
            0 <= i <= last,
            last + nl == sl == s@.len(),
            nl == needle@.len(),
            forall|k: int| 0 <= k < i ==> #[trigger] s@.subrange(k, k + nl) != needle@,
        ensures
            forall|k: int| 0 <= k <= last ==> #[trigger] s@.subrange(k, k + nl) != needle@,
        decreases last - i,
    {
        let mut j: usize = 0;
        let mut matched = true;
        while j < nl
            invariant
                0 <= j <= nl == needle@.len(),
                i + nl <= sl == s@.len(),
                matched == (forall|k: int| 0 <= k < j ==> s@[i + k] == needle@[k]),
            decreases nl - j,
        {
            if s[i + j] != needle[j] {
                matched = false;
            }
            j += 1;
        }
        if matched {
            assert(s@.subrange(i as int, i + nl) =~= needle@);
            return true;
        }
        assert(s@.subrange(i as int, i + nl) != needle@) by {
            let k = choose|k: int| 0 <= k < nl && s@[i + k] != needle@[k];
            assert(s@.subrange(i as int, i + nl)[k] == s@[i + k]);
        }
        if i == last {
            break;
        }
        i += 1;
    }
    assert forall|k: int| 0 <= k && k + nl <= s@.len() implies #[trigger] s@.subrange(k, k + nl)
        != needle@ by {
        assert(k <= last);
    }
    false
}


// ---------------------------------------------------------------------------
// Lowercasing
// ---------------------------------------------------------------------------

/// Names what `str::to_lowercase` returns for a text: its Unicode lowercase
/// mapping (which for a final sigma depends on the characters around it).
pub uninterp spec fn lowercase_of(s: Seq<char>) -> Seq<char>;

/// Whether every character of a text is ASCII.
pub open spec fn all_ascii(s: Seq<char>) -> bool {
    forall|i: int| 0 <= i < s.len() ==> (#[trigger] s[i] as u32) < 128
}

/// A text with its ASCII capitals turned into small letters.
pub open spec fn ascii_lowercase(s: Seq<char>) -> Seq<char> {
    s.map_values(|c: char| if is_ascii_upper(c) { ((c as u32) + 32) as char } else { c })
}

/// `str::to_lowercase`. The contract names the result; of the Unicode
/// case tables it states only what std documents for ASCII text (capitals
/// become small letters, every other ASCII character is kept), not the
/// rest.
#[verifier::external_body]
fn lowercase_string(s: &str) -> (r: String)
    ensures
        r@ == lowercase_of(s@),
        all_ascii(s@) ==> r@ == ascii_lowercase(s@),
{
    s.to_lowercase()
}

/// The given characters, lower-cased as `str::to_lowercase` does.
pub fn lowercase_chars(v: &[char]) -> (r: Vec<char>)
    ensures
        r@ == lowercase_of(v@),
        all_ascii(v@) ==> r@ == ascii_lowercase(v@),
{
    let s = string_of(v);
    let lowered = lowercase_string(s.as_str());
    chars_of(lowered.as_str())
}

// ---------------------------------------------------------------------------
// Number formatting
// ---------------------------------------------------------------------------

/// The character for a digit value below 16 (lower-case hexadecimal).
pub open spec fn digit_char(d: nat) -> char {
    if d < 10 {
        (('0' as u32) + d) as char
    } else {
        (('a' as u32) + (d - 10)) as char
    }
}

/// Decimal notation of `n`, without leading zeros.
pub open spec fn decimal(n: nat) -> Seq<char>
    decreases n,
{
    if n < 10 {
        seq![digit_char(n)]
    } else {
        decimal(n / 10).push(digit_char(n % 10))
    }
}

/// `s` padded on the left with `'0'` to at least `width` characters.
pub open spec fn zero_pad(s: Seq<char>, width: nat) -> Seq<char> {
    if s.len() < width {
        Seq::new((width - s.len()) as nat, |i: int| '0') + s
    } else {
        s
    }
}

/// The last `k` hexadecimal digits of `n`, most significant first.
pub open spec fn hex_digits(n: nat, k: nat) -> Seq<char>
    decreases k,
{
    if k == 0 {
        seq![]
    } else {
        hex_digits(n / 16, (k - 1) as nat).push(digit_char(n % 16))
    }
}

fn digit_of(d: u64) -> (c: char)
    requires
        d < 16,
    ensures
        c == digit_char(d as nat),
{
    if d < 10 {
        let u: u32 = 48 + d as u32;
        assert(u == ('0' as u32) + d);
        char_from_u32(u)
    } else {
        let u: u32 = 97 + (d as u32 - 10);
        assert(u == ('a' as u32) + (d - 10));
        char_from_u32(u)
    }
}

/// Converts a code point known to be a character (here an ASCII digit or letter).
fn char_from_u32(u: u32) -> (c: char)
    requires
        48 <= u <= 57 || 97 <= u <= 102,
    ensures
        c == u as char,
{
    let mut c = '0';
    let mut k: u32 = 48;
    if u >= 97 {
        c = 'a';
        k = 97;
    }
    while k < u
        invariant
            48 <= k <= u <= 57 || 97 <= k <= u <= 102,
            c == k as char,
        decreases u - k,
    {
        c = next_char(c);
        k += 1;
    }
    c
}

fn next_char(c: char) -> (r: char)
    requires
        '0' <= c < '9' || 'a' <= c < 'f',
    ensures
        r == ((c as u32) + 1) as char,
{
    match c {
        '0' => '1',
        '1' => '2',
        '2' => '3',
        '3' => '4',
        '4' => '5',
        '5' => '6',
        '6' => '7',
        '7' => '8',
        '8' => '9',
        'a' => 'b',
        'b' => 'c',
        'c' => 'd',
        'd' => 'e',
        _ => 'f',
    }
}

/// Decimal notation of `n` (`format!("{n}")`).
pub fn decimal_chars(n: usize) -> (r: Vec<char>)
    ensures
        r@ == decimal(n as nat),
    decreases n,
{
    if n < 10 {
        let mut v = Vec::new();
        v.push(digit_of(n as u64));
        assert(v@ =~= seq![digit_char(n as nat)]);
        v
    } else {
        let mut v = decimal_chars(n / 10);
        v.push(digit_of((n % 10) as u64));
        v
    }
}

/// Decimal notation of a 64-bit `n` (`format!("{n}")`).
pub fn decimal_chars_u64(n: u64) -> (r: Vec<char>)
    ensures
        r@ == decimal(n as nat),
    decreases n,
{
    if n < 10 {
        let mut v = Vec::new();
        v.push(digit_of(n));
        assert(v@ =~= seq![digit_char(n as nat)]);
        v
    } else {
        let mut v = decimal_chars_u64(n / 10);
        v.push(digit_of(n % 10));
        v
    }
}

/// Decimal notation of `n` padded with zeros to `width` characters (`format!("{n:0width$}")`).
pub fn zero_padded_decimal(n: usize, width: usize) -> (r: Vec<char>)
    ensures
        r@ == zero_pad(decimal(n as nat), width as nat),
{
    let d = decimal_chars(n);
    if d.len() < width {
        let mut r: Vec<char> = Vec::new();
        let pad = width - d.len();
        let mut i: usize = 0;
        while i < pad
            invariant
                0 <= i <= pad,
                r@ =~= Seq::new(i as nat, |k: int| '0'),
            decreases pad - i,
        {
            r.push('0');
            i += 1;
        }
        append_chars(&mut r, d.as_slice());
        r
    } else {
        d
    }
}

/// The last `k` hexadecimal digits of `n` (`format!("{n:0k$x}")` when `n < 16^k`).
pub fn hex_chars(n: u64, k: usize) -> (r: Vec<char>)
    ensures
        r@ == hex_digits(n as nat, k as nat),
        r@.len() == k,
    decreases k,
{
    if k == 0 {
        Vec::new()
    } else {
        let mut v = hex_chars(n / 16, k - 1);
        v.push(digit_of(n % 16));
        v
    }
}

// ---------------------------------------------------------------------------
// FNV-1a digest
// ---------------------------------------------------------------------------

pub open spec fn fnv_offset() -> u64 {
    0xcbf29ce484222325u64
}

pub open spec fn fnv_prime() -> u64 {
    0x100000001b3u64
}

/// The 64-bit FNV-1a digest of a byte sequence.
pub open spec fn fnv1a(bytes: Seq<u8>) -> u64
    decreases bytes.len(),
{
    if bytes.len() == 0 {
        fnv_offset()
    } else {
        vstd::wrapping::u64_specs::wrapping_mul(
            fnv1a(bytes.drop_last()) ^ (bytes.last() as u64),
            fnv_prime(),
        )
    }
}

/// The FNV-1a digest of the UTF-8 encoding of a text, as 16 lower-case hex digits.
pub open spec fn digest_hex(text: Seq<char>) -> Seq<char> {
    hex_digits(fnv1a(vstd::utf8::encode_utf8(text)) as nat, 16)
}

/// The FNV-1a digest of a text's UTF-8 bytes, as 16 lower-case hex digits
/// (`format!("{hash:016x}")`).
pub fn digest_hex_chars(text: &str) -> (r: Vec<char>)
    ensures
        r@ == digest_hex(text@),
        r@.len() == 16,
{
    let bytes = text.as_bytes();
    let ghost bs = bytes@;
    assert(bs == vstd::utf8::encode_utf8(text@));
    let mut hash: u64 = 0xcbf29ce484222325u64;
    let mut i: usize = 0;
    assert(bs.take(0) =~= Seq::<u8>::empty());
    while i < bytes.len()
        invariant
            0 <= i <= bs.len(),
            bs == bytes@,
            hash == fnv1a(bs.take(i as int)),
        decreases bs.len() - i,
    {
        assert(bs.take(i + 1).drop_last() =~= bs.take(i as int));
        hash = hash ^ (bytes[i] as u64);
        hash = hash.wrapping_mul(0x100000001b3u64);
        i += 1;
    }
    assert(bs.take(bs.len() as int) =~= bs);
    hex_chars(hash, 16)
}


// ---------------------------------------------------------------------------
// Small helpers
// ---------------------------------------------------------------------------

/// The characters of an optional string.
pub open spec fn opt_view(o: Option<String>) -> Option<Seq<char>> {
    match o {
        Some(s) => Some(s@),
        None => None,
    }
}

/// Whether the characters are exactly those of the literal `s`.
pub fn eq_lit(v: &[char], s: &str) -> (r: bool)
    ensures
        r == (v@ == s@),
{
    let l = chars_of(s);
    chars_eq(v, l.as_slice())
}

/// Whether the characters begin with the literal `s`.
pub fn starts_with_lit(v: &[char], s: &str) -> (r: bool)
    ensures
        r == starts_with(v@, s@),
{
    let l = chars_of(s);
    chars_starts_with(v, l.as_slice())
}

/// Whether the literal `s` occurs in the characters.
pub fn contains_lit(v: &[char], s: &str) -> (r: bool)
    ensures
        r == contains(v@, s@),
{
    let l = chars_of(s);
    chars_contains(v, l.as_slice())
}

/// Whether the character occurs in the characters.
pub fn contains_char(v: &[char], c: char) -> (r: bool)
    ensures
        r == v@.contains(c),
{
    let mut i: usize = 0;
    while i < v.len()
        invariant
            0 <= i <= v@.len(),
            forall|k: int| 0 <= k < i ==> v@[k] != c,
        decreases v@.len() - i,
    {
        if v[i] == c {
            assert(v@[i as int] == c);
            return true;
        }
        i += 1;
    }
    false
}

} // verus!
