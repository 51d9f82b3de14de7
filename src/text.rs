//! Text primitives over `Seq<char>`: trimming, searching, splitting and joining.
use vstd::prelude::*;

verus! {

// ---------------------------------------------------------------------------
// Specifications
// ---------------------------------------------------------------------------

/// Characters with the Unicode `White_Space` property.
pub open spec fn is_space(c: char) -> bool {
    ||| ('\u{9}' <= c && c <= '\u{d}')
    ||| c == ' '
    ||| c == '\u{85}'
    ||| c == '\u{a0}'
    ||| c == '\u{1680}'
    ||| ('\u{2000}' <= c && c <= '\u{200a}')
    ||| c == '\u{2028}'
    ||| c == '\u{2029}'
    ||| c == '\u{202f}'
    ||| c == '\u{205f}'
    ||| c == '\u{3000}'
}

/// The characters removed by a trim: white space, or the path separator `/`.
pub open spec fn trimmed_char(c: char, slashes: bool) -> bool {
    if slashes {
        c == '/'
    } else {
        is_space(c)
    }
}

/// `s` without its leading trimmed characters.
pub open spec fn trim_start(s: Seq<char>, slashes: bool) -> Seq<char>
    decreases s.len(),
{
    if s.len() > 0 && trimmed_char(s[0], slashes) {
        trim_start(s.drop_first(), slashes)
    } else {
        s
    }
}

/// `s` without its trailing trimmed characters.
pub open spec fn trim_end(s: Seq<char>, slashes: bool) -> Seq<char>
    decreases s.len(),
{
    if s.len() > 0 && trimmed_char(s.last(), slashes) {
        trim_end(s.drop_last(), slashes)
    } else {
        s
    }
}

/// `s` without leading and trailing white space (`str::trim`).
pub open spec fn trim(s: Seq<char>) -> Seq<char> {
    trim_end(trim_start(s, false), false)
}

/// `s` without leading and trailing `/` (`str::trim_matches('/')`).
pub open spec fn trim_slashes(s: Seq<char>) -> Seq<char> {
    trim_end(trim_start(s, true), true)
}

/// `s` without one `/` at its start and one at its end, where they stand.
pub open spec fn strip_one_slash(s: Seq<char>) -> Seq<char> {
    let a = if s.len() > 0 && s[0] == '/' {
        s.drop_first()
    } else {
        s
    };
    if a.len() > 0 && a.last() == '/' {
        a.drop_last()
    } else {
        a
    }
}

/// `pat` occurs in `s` starting at position `i`.
pub open spec fn occurs_at(s: Seq<char>, pat: Seq<char>, i: int) -> bool {
    0 <= i && i + pat.len() <= s.len() && s.subrange(i, i + pat.len()) == pat
}

/// `s` contains `pat`.
pub open spec fn contains(s: Seq<char>, pat: Seq<char>) -> bool {
    exists|i: int| occurs_at(s, pat, i)
}

/// `s` begins with `p`.
pub open spec fn starts_with(s: Seq<char>, p: Seq<char>) -> bool {
    p.len() <= s.len() && s.subrange(0, p.len() as int) == p
}

/// The first position at or after `i` where the non-empty `pat` occurs in `s`.
pub open spec fn find_from(s: Seq<char>, pat: Seq<char>, i: int) -> Option<int>
    decreases s.len() - i,
{
    if pat.len() == 0 || i < 0 || i + pat.len() > s.len() {
        None
    } else if occurs_at(s, pat, i) {
        Some(i)
    } else {
        find_from(s, pat, i + 1)
    }
}

/// The first position of `pat` in `s`.
pub open spec fn find(s: Seq<char>, pat: Seq<char>) -> Option<int> {
    find_from(s, pat, 0)
}

/// The pieces of `s[start..]` between the occurrences of `pat`, left to right (`str::split`).
pub open spec fn split_from(s: Seq<char>, pat: Seq<char>, start: int) -> Seq<Seq<char>>
    decreases s.len() - start,
{
    if start < 0 || start > s.len() {
        Seq::empty()
    } else {
        match find_from(s, pat, start) {
            Some(k) => {
                proof {
                    lemma_find_from_bounds(s, pat, start);
                }
                seq![s.subrange(start, k)] + split_from(s, pat, k + pat.len())
            },
            None => seq![s.subrange(start, s.len() as int)],
        }
    }
}

/// The pieces of `s` between the occurrences of the non-empty `pat`.
pub open spec fn split(s: Seq<char>, pat: Seq<char>) -> Seq<Seq<char>> {
    split_from(s, pat, 0)
}

/// The last position of `c` in `s`.
pub open spec fn last_index_of(s: Seq<char>, c: char) -> Option<int>
    decreases s.len(),
{
    if s.len() == 0 {
        None
    } else if s.last() == c {
        Some(s.len() - 1)
    } else {
        last_index_of(s.drop_last(), c)
    }
}

/// The last segment of a `/`-separated path.
pub open spec fn file_name(p: Seq<char>) -> Seq<char> {
    match last_index_of(p, '/') {
        Some(i) => p.subrange(i + 1, p.len() as int),
        None => p,
    }
}

/// A `/`-separated path without its last segment and the `/` before it; empty for a path of one
/// segment.
pub open spec fn parent_path(p: Seq<char>) -> Seq<char> {
    match last_index_of(p, '/') {
        Some(i) => p.subrange(0, i),
        None => Seq::empty(),
    }
}

/// `p` lies inside the directory `dir`.
pub open spec fn is_within(p: Seq<char>, dir: Seq<char>) -> bool {
    starts_with(p, dir + seq!['/'])
}

/// How often `c` occurs in `s`.
pub open spec fn count_char(s: Seq<char>, c: char) -> nat
    decreases s.len(),
{
    if s.len() == 0 {
        0
    } else {
        count_char(s.drop_last(), c) + if s.last() == c {
            1nat
        } else {
            0nat
        }
    }
}

/// The pieces joined into one sequence, with `sep` between each two.
pub open spec fn join(pieces: Seq<Seq<char>>, sep: Seq<char>) -> Seq<char>
    decreases pieces.len(),
{
    if pieces.len() == 0 {
        Seq::empty()
    } else if pieces.len() == 1 {
        pieces[0]
    } else {
        join(pieces.drop_last(), sep) + sep + pieces.last()
    }
}

/// The views of a sequence of strings.
pub open spec fn views(v: Seq<String>) -> Seq<Seq<char>> {
    v.map_values(|s: String| s@)
}

/// A `usize` position as an integer position.
pub open spec fn as_int(o: Option<usize>) -> Option<int> {
    match o {
        Some(k) => Some(k as int),
        None => None,
    }
}

/// Whether every character of `s` is an ASCII decimal digit.
pub open spec fn all_digits(s: Seq<char>) -> bool {
    forall|i: int| 0 <= i < s.len() ==> '0' <= #[trigger] s[i] && s[i] <= '9'
}

/// The number that the decimal digits `s` spell.
pub open spec fn digits_value(s: Seq<char>) -> int
    decreases s.len(),
{
    if s.len() == 0 {
        0
    } else {
        digits_value(s.drop_last()) * 10 + (s.last() as int - '0' as int)
    }
}

/// What `str::parse` yields for an integer type whose values run from `lo` to `hi`: an optional
/// sign (`-` only where `lo` is negative) followed by at least one decimal digit, and a value in
/// range.
pub open spec fn parse_integer(s: Seq<char>, lo: int, hi: int) -> Option<int> {
    let negative = s.len() > 0 && s[0] == '-' && lo < 0;
    let body = if s.len() > 0 && (s[0] == '+' || negative) {
        s.drop_first()
    } else {
        s
    };
    let v = if negative {
        -digits_value(body)
    } else {
        digits_value(body)
    };
    if body.len() > 0 && all_digits(body) && lo <= v && v <= hi {
        Some(v)
    } else {
        None
    }
}

/// What `str::parse::<bool>` yields.
pub open spec fn parse_bool(s: Seq<char>) -> Option<bool> {
    if s == seq!['t', 'r', 'u', 'e'] {
        Some(true)
    } else if s == seq!['f', 'a', 'l', 's', 'e'] {
        Some(false)
    } else {
        None
    }
}

/// The lower-case form of a string, as `str::to_lowercase` computes it.
pub uninterp spec fn lower_of(s: Seq<char>) -> Seq<char>;

// ---------------------------------------------------------------------------
// Lemmas
// ---------------------------------------------------------------------------

/// A position found by `find_from` lies at or after `i` and holds an occurrence.
pub proof fn lemma_find_from_bounds(s: Seq<char>, pat: Seq<char>, i: int)
    ensures
        match find_from(s, pat, i) {
            Some(k) => i <= k && pat.len() > 0 && k + pat.len() <= s.len() && occurs_at(s, pat, k),
            None => true,
        },
    decreases s.len() - i,
{
    if pat.len() == 0 || i < 0 || i + pat.len() > s.len() {
    } else if occurs_at(s, pat, i) {
    } else {
        lemma_find_from_bounds(s, pat, i + 1);
    }
}

/// A one-character pattern occurs exactly where that character stands.
pub proof fn lemma_occurs_char(s: Seq<char>, c: char, i: int)
    ensures
        occurs_at(s, seq![c], i) <==> (0 <= i < s.len() && s[i] == c),
{
    if 0 <= i < s.len() && s[i] == c {
        assert(s.subrange(i, i + 1) =~= seq![c]);
    }
    if occurs_at(s, seq![c], i) {
        assert(s.subrange(i, i + 1)[0] == s[i]);
    }
}

/// `find_from` finds no occurrence before the one it returns, and none at all when it returns
/// nothing.
pub proof fn lemma_find_from_first(s: Seq<char>, pat: Seq<char>, i: int, j: int)
    requires
        pat.len() > 0,
        0 <= i <= j,
        match find_from(s, pat, i) {
            Some(k) => j < k,
            None => true,
        },
    ensures
        !occurs_at(s, pat, j),
    decreases s.len() - i,
{
    if i + pat.len() > s.len() {
    } else if occurs_at(s, pat, i) {
    } else if i < j {
        lemma_find_from_first(s, pat, i + 1, j);
    }
}

/// Joining a piece in front of at least one other puts the separator between them.
proof fn lemma_join_prepend(x: Seq<char>, r: Seq<Seq<char>>, sep: Seq<char>)
    requires
        r.len() >= 1,
    ensures
        join(seq![x] + r, sep) == x + sep + join(r, sep),
    decreases r.len(),
{
    let all = seq![x] + r;
    if r.len() == 1 {
        assert(all.drop_last() =~= seq![x]);
        assert(seq![x][0] == x);
        assert(join(seq![x], sep) == x);
        assert(all.last() == r[0]);
        assert(join(r, sep) == r[0]);
        assert(join(all, sep) =~= x + sep + join(r, sep));
    } else {
        assert(all.drop_last() =~= seq![x] + r.drop_last());
        lemma_join_prepend(x, r.drop_last(), sep);
        assert(all.last() == r.last());
        assert(join(all, sep) =~= x + sep + join(r, sep));
    }
}

/// Splitting yields at least one piece.
proof fn lemma_split_from_nonempty(s: Seq<char>, pat: Seq<char>, start: int)
    requires
        0 <= start <= s.len(),
    ensures
        split_from(s, pat, start).len() >= 1,
    decreases s.len() - start,
{
    lemma_find_from_bounds(s, pat, start);
    match find_from(s, pat, start) {
        Some(k) => {
            lemma_split_from_nonempty(s, pat, k + pat.len());
        },
        None => {},
    }
}

/// Joining the pieces of a split with the pattern gives back the text.
pub proof fn lemma_split_join(s: Seq<char>, pat: Seq<char>, start: int)
    requires
        pat.len() > 0,
        0 <= start <= s.len(),
    ensures
        join(split_from(s, pat, start), pat) == s.subrange(start, s.len() as int),
    decreases s.len() - start,
{
    lemma_find_from_bounds(s, pat, start);
    match find_from(s, pat, start) {
        Some(k) => {
            let next = k + pat.len();
            lemma_split_join(s, pat, next);
            lemma_split_from_nonempty(s, pat, next);
            lemma_join_prepend(s.subrange(start, k), split_from(s, pat, next), pat);
            assert(s.subrange(start, k) + pat + s.subrange(next, s.len() as int) =~= s.subrange(
                start,
                s.len() as int,
            ));
        },
        None => {},
    }
}

/// No piece of a split by one character holds that character.
pub proof fn lemma_split_pieces_free(s: Seq<char>, c: char, start: int)
    requires
        0 <= start <= s.len(),
    ensures
        forall|m: int, q: int|
            0 <= m < split_from(s, seq![c], start).len() && 0 <= q < split_from(
                s,
                seq![c],
                start,
            )[m].len() ==> #[trigger] split_from(s, seq![c], start)[m][q] != c,
    decreases s.len() - start,
{
    let pat = seq![c];
    lemma_find_from_bounds(s, pat, start);
    let pieces = split_from(s, pat, start);
    match find_from(s, pat, start) {
        Some(k) => {
            lemma_split_pieces_free(s, c, k + 1);
            assert forall|m: int, q: int|
                0 <= m < pieces.len() && 0 <= q < pieces[m].len() implies #[trigger] pieces[m][q]
                != c by {
                if m == 0 {
                    lemma_find_from_first(s, pat, start, start + q);
                    lemma_occurs_char(s, c, start + q);
                } else {
                    assert(pieces[m] == split_from(s, pat, k + 1)[m - 1]);
                }
            }
        },
        None => {
            assert forall|m: int, q: int|
                0 <= m < pieces.len() && 0 <= q < pieces[m].len() implies #[trigger] pieces[m][q]
                != c by {
                lemma_find_from_first(s, pat, start, start + q);
                lemma_occurs_char(s, c, start + q);
            }
        },
    }
}

/// Counting over two parts adds up.
proof fn lemma_count_concat(a: Seq<char>, b: Seq<char>, c: char)
    ensures
        count_char(a + b, c) == count_char(a, c) + count_char(b, c),
    decreases b.len(),
{
    if b.len() == 0 {
        assert(a + b =~= a);
    } else {
        lemma_count_concat(a, b.drop_last(), c);
        assert((a + b).drop_last() =~= a + b.drop_last());
        assert((a + b).last() == b.last());
    }
}

/// A sequence without `c` counts none of it.
proof fn lemma_count_none(a: Seq<char>, c: char)
    requires
        forall|q: int| 0 <= q < a.len() ==> a[q] != c,
    ensures
        count_char(a, c) == 0,
    decreases a.len(),
{
    if a.len() > 0 {
        lemma_count_none(a.drop_last(), c);
    }
}

/// A split by one character has one piece more than the text has of that character.
pub proof fn lemma_split_count(s: Seq<char>, c: char, start: int)
    requires
        0 <= start <= s.len(),
    ensures
        split_from(s, seq![c], start).len() == count_char(s.subrange(start, s.len() as int), c)
            + 1,
    decreases s.len() - start,
{
    let pat = seq![c];
    lemma_find_from_bounds(s, pat, start);
    match find_from(s, pat, start) {
        Some(k) => {
            lemma_split_count(s, c, k + 1);
            let before = s.subrange(start, k);
            assert forall|q: int| 0 <= q < before.len() implies before[q] != c by {
                lemma_find_from_first(s, pat, start, start + q);
                lemma_occurs_char(s, c, start + q);
            }
            lemma_count_none(before, c);
            lemma_occurs_char(s, c, k);
            let mid = before.push(c);
            assert(mid.drop_last() =~= before);
            lemma_count_concat(mid, s.subrange(k + 1, s.len() as int), c);
            assert(mid + s.subrange(k + 1, s.len() as int) =~= s.subrange(start, s.len() as int));
        },
        None => {
            let rest = s.subrange(start, s.len() as int);
            assert forall|q: int| 0 <= q < rest.len() implies rest[q] != c by {
                lemma_find_from_first(s, pat, start, start + q);
                lemma_occurs_char(s, c, start + q);
            }
            lemma_count_none(rest, c);
        },
    }
}

/// A digit string is worth at least as much as each of its prefixes.
proof fn lemma_digits_prefix(s: Seq<char>, j: int)
    requires
        0 <= j <= s.len(),
        all_digits(s),
    ensures
        digits_value(s.subrange(0, j)) <= digits_value(s),
        0 <= digits_value(s.subrange(0, j)),
    decreases s.len() - j,
{
    lemma_digits_nonneg(s.subrange(0, j));
    if j < s.len() {
        lemma_digits_prefix(s, j + 1);
        let t = s.subrange(0, j + 1);
        assert(t.drop_last() =~= s.subrange(0, j));
    } else {
        assert(s.subrange(0, j) =~= s);
    }
}

/// Digit strings are worth zero or more.
proof fn lemma_digits_nonneg(s: Seq<char>)
    requires
        all_digits(s),
    ensures
        0 <= digits_value(s),
    decreases s.len(),
{
    if s.len() > 0 {
        lemma_digits_nonneg(s.drop_last());
    }
}

/// Dropping leading trimmed characters one at a time keeps `trim_start` unchanged.
proof fn lemma_trim_start_step(s: Seq<char>, i: int, slashes: bool)
    requires
        0 <= i < s.len(),
        trimmed_char(s[i], slashes),
    ensures
        trim_start(s.subrange(i, s.len() as int), slashes) == trim_start(
            s.subrange(i + 1, s.len() as int),
            slashes,
        ),
{
    let t = s.subrange(i, s.len() as int);
    assert(t.drop_first() =~= s.subrange(i + 1, s.len() as int));
}

/// Dropping trailing trimmed characters one at a time keeps `trim_end` unchanged.
proof fn lemma_trim_end_step(s: Seq<char>, j: int, slashes: bool)
    requires
        0 < j <= s.len(),
        trimmed_char(s[j - 1], slashes),
    ensures
        trim_end(s.subrange(0, j), slashes) == trim_end(s.subrange(0, j - 1), slashes),
{
    let t = s.subrange(0, j);
    assert(t.drop_last() =~= s.subrange(0, j - 1));
}

// ---------------------------------------------------------------------------
// Executable functions
// ---------------------------------------------------------------------------

/// The characters of `s`, in order.
pub fn chars_of(s: &str) -> (r: Vec<char>)
    ensures
        r@ == s@,
{
    let mut r: Vec<char> = Vec::new();
    for c in it: s.chars()
        invariant
            r@ == it.seq().subrange(0, it.index() as int),
            it.seq() == s@,
    {
        r.push(c);
    }
    r
}

/// An owned copy of the characters `from..to` of `s`.
pub fn slice(s: &str, from: usize, to: usize) -> (r: String)
    requires
        from <= to <= s@.len(),
    ensures
        r@ == s@.subrange(from as int, to as int),
{
    s.substring_char(from, to).to_owned()
}

/// Whether `c` is white space, as `char::is_whitespace` decides it.
pub fn is_space_char(c: char) -> (r: bool)
    ensures
        r == is_space(c),
{
    ('\u{9}' <= c && c <= '\u{d}') || c == ' ' || c == '\u{85}' || c == '\u{a0}' || c
        == '\u{1680}' || ('\u{2000}' <= c && c <= '\u{200a}') || c == '\u{2028}' || c
        == '\u{2029}' || c == '\u{202f}' || c == '\u{205f}' || c == '\u{3000}'
}

fn is_trimmed_char(c: char, slashes: bool) -> (r: bool)
    ensures
        r == trimmed_char(c, slashes),
{
    if slashes {
        c == '/'
    } else {
        is_space_char(c)
    }
}

fn trim_with(s: &str, slashes: bool) -> (r: String)
    ensures
        r@ == trim_end(trim_start(s@, slashes), slashes),
{
    let cs = chars_of(s);
    let n = cs.len();
    let mut a: usize = 0;
    assert(s@.subrange(0, n as int) =~= s@);
    while a < n && is_trimmed_char(cs[a], slashes)
        invariant
            a <= n,
            n == s@.len(),
            cs@ == s@,
            trim_start(s@, slashes) == trim_start(s@.subrange(a as int, n as int), slashes),
        decreases n - a,
    {
        proof {
            lemma_trim_start_step(s@, a as int, slashes);
        }
        a = a + 1;
    }
    let ghost rest = s@.subrange(a as int, n as int);
    assert(trim_start(rest, slashes) == rest);
    let mut b: usize = n;
    while b > a && is_trimmed_char(cs[b - 1], slashes)
        invariant
            a <= b <= n,
            n == s@.len(),
            cs@ == s@,
            trim_end(rest, slashes) == trim_end(s@.subrange(a as int, b as int), slashes),
        decreases b,
    {
        proof {
            let t = s@.subrange(a as int, n as int);
            assert(s@.subrange(a as int, b as int) =~= t.subrange(0, b - a));
            assert(s@.subrange(a as int, b - 1) =~= t.subrange(0, b - 1 - a));
            lemma_trim_end_step(t, b - a, slashes);
        }
        b = b - 1;
    }
    assert(trim_end(s@.subrange(a as int, b as int), slashes) == s@.subrange(a as int, b as int));
    slice(s, a, b)
}

/// `s` without leading and trailing white space.
pub fn trim_str(s: &str) -> (r: String)
    ensures
        r@ == trim(s@),
{
    trim_with(s, false)
}

/// `s` without leading and trailing `/`.
pub fn trim_slashes_str(s: &str) -> (r: String)
    ensures
        r@ == trim_slashes(s@),
{
    trim_with(s, true)
}

/// `s` without one `/` at its start and one at its end, where they stand.
pub fn strip_one_slash_str(s: &str) -> (r: String)
    ensures
        r@ == strip_one_slash(s@),
{
    let cs = chars_of(s);
    let n = cs.len();
    let from: usize = if n > 0 && cs[0] == '/' {
        1
    } else {
        0
    };
    let to: usize = if n > from && cs[n - 1] == '/' {
        n - 1
    } else {
        n
    };
    let ghost a = if s@.len() > 0 && s@[0] == '/' {
        s@.drop_first()
    } else {
        s@
    };
    assert(a =~= s@.subrange(from as int, n as int));
    assert(a.len() > 0 && a.last() == '/' ==> a.drop_last() =~= s@.subrange(
        from as int,
        to as int,
    ));
    slice(s, from, to)
}

/// Whether `pat` occurs in `s` at position `i`.
pub fn occurs_at_exec(s: &Vec<char>, pat: &Vec<char>, i: usize) -> (r: bool)
    ensures
        r == occurs_at(s@, pat@, i as int),
{
    if i > s.len() || pat.len() > s.len() - i {
        return false;
    }
    let mut j: usize = 0;
    while j < pat.len()
        invariant
            j <= pat.len(),
            i + pat.len() <= s.len(),
            forall|k: int| 0 <= k < j ==> s@[i + k] == pat@[k],
        decreases pat.len() - j,
    {
        if s[i + j] != pat[j] {
            assert(s@.subrange(i as int, i + pat.len())[j as int] != pat@[j as int]);
            return false;
        }
        j = j + 1;
    }
    assert(s@.subrange(i as int, i + pat.len()) =~= pat@);
    true
}

/// The first position at or after `start` where `pat` occurs in `s`.
pub fn find_from_exec(s: &Vec<char>, pat: &Vec<char>, start: usize) -> (r: Option<usize>)
    ensures
        as_int(r) == find_from(s@, pat@, start as int),
{
    if pat.len() == 0 || pat.len() > s.len() {
        return None;
    }
    let last = s.len() - pat.len();
    let mut i = start;
    while i <= last
        invariant
            start <= i,
            last + pat.len() == s.len(),
            pat.len() > 0,
            find_from(s@, pat@, start as int) == find_from(s@, pat@, i as int),
        decreases last + 1 - i,
    {
        if occurs_at_exec(s, pat, i) {
            return Some(i);
        }
        i = i + 1;
    }
    None
}

/// Whether `s` contains `pat`.
pub fn contains_str(s: &str, pat: &str) -> (r: bool)
    ensures
        r == contains(s@, pat@),
{
    let cs = chars_of(s);
    let ps = chars_of(pat);
    let n = cs.len();
    let mut i: usize = 0;
    while i < n
        invariant
            i <= n,
            cs@ == s@,
            ps@ == pat@,
            n == s@.len(),
            forall|k: int| 0 <= k < i ==> !occurs_at(s@, pat@, k),
        decreases n - i,
    {
        if occurs_at_exec(&cs, &ps, i) {
            return true;
        }
        i = i + 1;
    }
    if occurs_at_exec(&cs, &ps, n) {
        return true;
    }
    assert forall|k: int| !occurs_at(s@, pat@, k) by {
        if 0 <= k <= n {
        }
    }
    false
}

/// Whether `s` begins with `p`.
pub fn starts_with_str(s: &str, p: &str) -> (r: bool)
    ensures
        r == starts_with(s@, p@),
{
    let cs = chars_of(s);
    let ps = chars_of(p);
    occurs_at_exec(&cs, &ps, 0)
}

/// The pieces of `s` between the occurrences of the non-empty `pat`.
pub fn split_str(s: &str, pat: &str) -> (r: Vec<String>)
    requires
        pat@.len() > 0,
    ensures
        views(r@) == split(s@, pat@),
{
    let cs = chars_of(s);
    let ps = chars_of(pat);
    let mut out: Vec<String> = Vec::new();
    let mut start: usize = 0;
    loop
        invariant
            cs@ == s@,
            ps@ == pat@,
            pat@.len() > 0,
            start <= s@.len(),
            views(out@) + split_from(s@, pat@, start as int) == split(s@, pat@),
        decreases s@.len() - start,
    {
        let found = find_from_exec(&cs, &ps, start);
        proof {
            lemma_find_from_bounds(s@, pat@, start as int);
        }
        match found {
            Some(k) => {
                assert(start <= k && k + pat@.len() <= s@.len());
                assert(ps.len() == pat@.len());
                assert(cs.len() == s@.len());
                let piece = slice(s, start, k);
                let ghost before = views(out@);
                out.push(piece);
                assert(views(out@) =~= before + seq![piece@]);
                assert(views(out@) + split_from(s@, pat@, k + pat@.len()) =~= before
                    + split_from(s@, pat@, start as int));
                start = k + ps.len();
            },
            None => {
                let piece = slice(s, start, cs.len());
                let ghost before = views(out@);
                out.push(piece);
                assert(views(out@) =~= before + split_from(s@, pat@, start as int));
                return out;
            },
        }
    }
}

/// The last position of `c` in `s`.
pub fn last_index_of_exec(s: &Vec<char>, c: char) -> (r: Option<usize>)
    ensures
        as_int(r) == last_index_of(s@, c),
{
    let mut j: usize = s.len();
    assert(s@.subrange(0, j as int) =~= s@);
    while j > 0
        invariant
            j <= s.len(),
            last_index_of(s@, c) == last_index_of(s@.subrange(0, j as int), c),
        decreases j,
    {
        if s[j - 1] == c {
            return Some(j - 1);
        }
        assert(s@.subrange(0, j as int).drop_last() =~= s@.subrange(0, j - 1));
        j = j - 1;
    }
    None
}

/// The pieces joined into one string, with `sep` between each two.
pub fn join_str(pieces: &Vec<String>, sep: &str) -> (r: String)
    ensures
        r@ == join(views(pieces@), sep@),
{
    let mut out = String::new();
    let mut i: usize = 0;
    while i < pieces.len()
        invariant
            i <= pieces.len(),
            out@ == join(views(pieces@.subrange(0, i as int)), sep@),
        decreases pieces.len() - i,
    {
        let ghost prev = views(pieces@.subrange(0, i as int));
        if i > 0 {
            out.append(sep);
        }
        out.append(pieces[i].as_str());
        proof {
            let next = views(pieces@.subrange(0, i + 1));
            assert(next.drop_last() =~= prev);
            assert(next.last() == pieces@[i as int]@);
            if i == 0 {
                assert(prev.len() == 0);
                assert(out@ =~= next[0]);
            }
        }
        i = i + 1;
    }
    assert(pieces@.subrange(0, pieces.len() as int) =~= pieces@);
    out
}

/// The value of the decimal digits `s[from..]` when they are all digits, at least one, and the
/// value is at most `limit`.
fn digits_upto(s: &Vec<char>, from: usize, limit: u64) -> (r: Option<u64>)
    requires
        from <= s.len(),
    ensures
        ({
            let body = s@.subrange(from as int, s@.len() as int);
            match r {
                Some(v) => body.len() > 0 && all_digits(body) && v == digits_value(body) && v
                    <= limit,
                None => !(body.len() > 0 && all_digits(body) && digits_value(body) <= limit),
            }
        }),
{
    let ghost body = s@.subrange(from as int, s@.len() as int);
    if from == s.len() {
        return None;
    }
    let mut acc: u64 = 0;
    let mut i: usize = from;
    while i < s.len()
        invariant
            from <= i <= s.len(),
            body == s@.subrange(from as int, s@.len() as int),
            all_digits(body.subrange(0, i - from)),
            acc == digits_value(body.subrange(0, i - from)),
            acc <= limit,
        decreases s.len() - i,
    {
        let c = s[i];
        if !('0' <= c && c <= '9') {
            assert(body[i - from] == c);
            return None;
        }
        let d = (c as u32 - '0' as u32) as u64;
        let next: u128 = acc as u128 * 10 + d as u128;
        proof {
            let p = body.subrange(0, i + 1 - from);
            assert(p.drop_last() =~= body.subrange(0, i - from));
            assert(p.last() == c);
            assert(all_digits(p));
        }
        if next > limit as u128 {
            proof {
                let p = body.subrange(0, i + 1 - from);
                if all_digits(body) {
                    lemma_digits_prefix(body, i + 1 - from);
                }
            }
            return None;
        }
        acc = next as u64;
        i = i + 1;
    }
    assert(body.subrange(0, s@.len() - from) =~= body);
    Some(acc)
}

/// What `str::parse` yields for an integer type whose values run from `-neg_limit` (zero for
/// unsigned types) to `pos_limit`.
pub fn parse_integer_exec(s: &str, neg_limit: u64, pos_limit: u64) -> (r: Option<i128>)
    ensures
        match r {
            Some(v) => parse_integer(s@, -(neg_limit as int), pos_limit as int) == Some(v as int),
            None => parse_integer(s@, -(neg_limit as int), pos_limit as int) is None,
        },
{
    let cs = chars_of(s);
    let negative = cs.len() > 0 && cs[0] == '-' && neg_limit > 0;
    let signed = cs.len() > 0 && (cs[0] == '+' || negative);
    let from: usize = if signed {
        1
    } else {
        0
    };
    assert(from == 1 ==> s@.drop_first() =~= s@.subrange(1, s@.len() as int));
    assert(from == 0 ==> s@ =~= s@.subrange(0, s@.len() as int));
    let limit = if negative {
        neg_limit
    } else {
        pos_limit
    };
    match digits_upto(&cs, from, limit) {
        Some(v) => {
            if negative {
                Some(-(v as i128))
            } else {
                Some(v as i128)
            }
        },
        None => None,
    }
}

/// Whether `a` and `b` hold the same characters.
pub fn same_str(a: &str, b: &str) -> (r: bool)
    ensures
        r == (a@ == b@),
{
    let ac = chars_of(a);
    let bc = chars_of(b);
    if ac.len() != bc.len() {
        return false;
    }
    let r = occurs_at_exec(&ac, &bc, 0);
    assert(a@.subrange(0, b@.len() as int) =~= a@);
    r
}

/// Proves that `last_index_of` finds a position that holds `c`.
pub proof fn lemma_last_index_bounds(s: Seq<char>, c: char)
    ensures
        last_index_of(s, c) is Some ==> {
            let i = last_index_of(s, c)->0;
            0 <= i < s.len() && s[i] == c
        },
    decreases s.len(),
{
    if s.len() > 0 && s.last() != c {
        lemma_last_index_bounds(s.drop_last(), c);
    }
}

/// The last segment of the `/`-separated path `p`.
pub fn file_name_str(p: &str) -> (r: String)
    ensures
        r@ == file_name(p@),
{
    let cs = chars_of(p);
    proof {
        lemma_last_index_bounds(p@, '/');
    }
    match last_index_of_exec(&cs, '/') {
        Some(i) => {
            assert(last_index_of(p@, '/') == Some(i as int));
            assert(i < p@.len());
            assert(p@.len() == cs.len());
            slice(p, i + 1, cs.len())
        },
        None => p.to_owned(),
    }
}

/// The path `p` without its last segment.
pub fn parent_path_str(p: &str) -> (r: String)
    ensures
        r@ == parent_path(p@),
{
    let cs = chars_of(p);
    proof {
        lemma_last_index_bounds(p@, '/');
    }
    match last_index_of_exec(&cs, '/') {
        Some(i) => {
            assert(last_index_of(p@, '/') == Some(i as int));
            slice(p, 0, i)
        },
        None => String::new(),
    }
}

/// Whether `p` lies inside the directory `dir`.
pub fn is_within_str(p: &str, dir: &str) -> (r: bool)
    ensures
        r == is_within(p@, dir@),
{
    let mut prefix = dir.to_owned();
    proof {
        reveal_strlit("/");
    }
    prefix.append("/");
    assert(prefix@ =~= dir@ + seq!['/']);
    starts_with_str(p, prefix.as_str())
}

/// Relies on `str::to_lowercase`: its result depends on the characters alone, and an empty
/// string stays empty.
#[verifier::external_body]
pub(crate) fn to_lower(s: &str) -> (r: String)
    ensures
        r@ == lower_of(s@),
        s@.len() == 0 ==> r@.len() == 0,
{
    s.to_lowercase()
}

} // verus!
