//! Character-level text operations.
//!
//! Strings are read as sequences of characters. Each executable function
//! here states its result over the mathematical functions at the top of
//! the file, which the rest of the library uses in its own contracts.

use vstd::prelude::*;
use vstd::slice::slice_subrange;
use vstd::string::*;

verus! {

// --- what the operations compute -------------------------------------------

/// The pieces of `s` between occurrences of `sep`. There is always at least
/// one piece, and pieces may be empty.
pub open spec fn split(s: Seq<char>, sep: char) -> Seq<Seq<char>>
    decreases s.len(),
{
    if s.len() == 0 {
        seq![Seq::<char>::empty()]
    } else {
        let before = split(s.drop_last(), sep);
        if s.last() == sep {
            before.push(Seq::empty())
        } else {
            before.drop_last().push(before.last().push(s.last()))
        }
    }
}

/// `parts` written one after the other with `sep` between neighbours.
pub open spec fn join(parts: Seq<Seq<char>>, sep: Seq<char>) -> Seq<char>
    decreases parts.len(),
{
    if parts.len() == 0 {
        Seq::empty()
    } else if parts.len() == 1 {
        parts[0]
    } else {
        join(parts.drop_last(), sep) + sep + parts.last()
    }
}

/// `needle` stands in `s` at position `i`.
pub open spec fn occurs_at(s: Seq<char>, needle: Seq<char>, i: int) -> bool {
    &&& 0 <= i
    &&& i + needle.len() <= s.len()
    &&& s.subrange(i, i + needle.len()) == needle
}

/// `needle` stands somewhere in `s`.
pub open spec fn has_text(s: Seq<char>, needle: Seq<char>) -> bool {
    exists|i: int| occurs_at(s, needle, i)
}

/// `s` begins with `prefix`.
pub open spec fn starts_with(s: Seq<char>, prefix: Seq<char>) -> bool {
    occurs_at(s, prefix, 0)
}

/// `s` ends with `suffix`.
pub open spec fn ends_with(s: Seq<char>, suffix: Seq<char>) -> bool {
    occurs_at(s, suffix, s.len() - suffix.len())
}

/// The last position of `c` in `s`, or -1.
pub open spec fn last_position(s: Seq<char>, c: char) -> int
    decreases s.len(),
{
    if s.len() == 0 {
        -1
    } else if s.last() == c {
        s.len() - 1
    } else {
        last_position(s.drop_last(), c)
    }
}

/// The first position of `c` in `s`, or the length of `s`.
pub open spec fn first_position(s: Seq<char>, c: char) -> int
    decreases s.len(),
{
    if s.len() == 0 || s[0] == c {
        0
    } else {
        1 + first_position(s.drop_first(), c)
    }
}

/// `s` without its leading characters in `set`.
pub open spec fn trim_start(s: Seq<char>, set: spec_fn(char) -> bool) -> Seq<char>
    decreases s.len(),
{
    if s.len() > 0 && set(s[0]) {
        trim_start(s.drop_first(), set)
    } else {
        s
    }
}

/// `s` without its trailing characters in `set`.
pub open spec fn trim_end(s: Seq<char>, set: spec_fn(char) -> bool) -> Seq<char>
    decreases s.len(),
{
    if s.len() > 0 && set(s.last()) {
        trim_end(s.drop_last(), set)
    } else {
        s
    }
}

/// `s` without its leading and trailing characters in `set`.
pub open spec fn trim(s: Seq<char>, set: spec_fn(char) -> bool) -> Seq<char> {
    trim_end(trim_start(s, set), set)
}

/// The characters with Unicode's White_Space property.
pub open spec fn is_whitespace(c: char) -> bool {
    ||| '\u{9}' <= c <= '\u{d}'
    ||| c == '\u{20}'
    ||| c == '\u{85}'
    ||| c == '\u{a0}'
    ||| c == '\u{1680}'
    ||| '\u{2000}' <= c <= '\u{200a}'
    ||| c == '\u{2028}'
    ||| c == '\u{2029}'
    ||| c == '\u{202f}'
    ||| c == '\u{205f}'
    ||| c == '\u{3000}'
}

/// `s` without leading and trailing white space.
pub open spec fn trimmed(s: Seq<char>) -> Seq<char> {
    trim(s, |c: char| is_whitespace(c))
}

/// `s` without leading and trailing occurrences of `c`.
pub open spec fn trimmed_of(s: Seq<char>, c: char) -> Seq<char> {
    trim(s, only(c))
}

/// The set of characters that holds `c` alone.
pub open spec fn only(c: char) -> spec_fn(char) -> bool {
    |x: char| x == c
}

/// `s` with every `from` replaced by `to`.
pub open spec fn replaced(s: Seq<char>, from: char, to: char) -> Seq<char> {
    s.map_values(
        |c: char|
            if c == from {
                to
            } else {
                c
            },
    )
}

/// One line without the carriage return that precedes its line feed.
pub open spec fn without_return(s: Seq<char>) -> Seq<char> {
    if s.len() > 0 && s.last() == '\r' {
        s.drop_last()
    } else {
        s
    }
}

/// The lines of `s`: the pieces between line feeds, where a carriage return
/// before a line feed belongs to the line ending, and what follows the last
/// line feed is a line only if it is not empty.
pub open spec fn lines(s: Seq<char>) -> Seq<Seq<char>> {
    let pieces = split(s, '\n');
    let ended = pieces.drop_last().map_values(|p: Seq<char>| without_return(p));
    if pieces.last().len() == 0 {
        ended
    } else {
        ended.push(pieces.last())
    }
}

/// The decimal digits of `n`, without leading zeros.
pub open spec fn decimal(n: nat) -> Seq<char>
    decreases n,
{
    if n < 10 {
        seq![digit(n as int)]
    } else {
        decimal(n / 10).push(digit((n % 10) as int))
    }
}

/// The decimal digit of value `d`.
pub open spec fn digit(d: int) -> char {
    ('0' as int + d) as char
}

/// `c` is one of `0` to `9`.
pub open spec fn is_digit(c: char) -> bool {
    '0' <= c <= '9'
}

/// The number that the digits `s` write in base ten.
pub open spec fn digits_value(s: Seq<char>) -> nat
    decreases s.len(),
{
    if s.len() == 0 {
        0
    } else {
        10 * digits_value(s.drop_last()) + (s.last() as nat - '0' as nat) as nat
    }
}

/// `s` without a leading plus sign.
pub open spec fn unsigned(s: Seq<char>) -> Seq<char> {
    if s.len() > 0 && s[0] == '+' {
        s.drop_first()
    } else {
        s
    }
}

/// The number that `s` writes: an optional plus sign, then at least one
/// digit, with a value of at most `max`. Nothing else writes a number.
pub open spec fn number(s: Seq<char>, max: nat) -> Option<nat> {
    let body = unsigned(s);
    if body.len() > 0 && (forall|i: int| 0 <= i < body.len() ==> is_digit(#[trigger] body[i]))
        && digits_value(body) <= max {
        Some(digits_value(body))
    } else {
        None
    }
}

/// `c` with `A` to `Z` made lower case, anything else unchanged.
pub open spec fn ascii_lower(c: char) -> char {
    if 'A' <= c <= 'Z' {
        (c as int + 32) as char
    } else {
        c
    }
}

/// `a` and `b` are the same up to the case of ASCII letters.
pub open spec fn same_ignoring_ascii_case(a: Seq<char>, b: Seq<char>) -> bool {
    &&& a.len() == b.len()
    &&& forall|i: int| 0 <= i < a.len() ==> ascii_lower(#[trigger] a[i]) == ascii_lower(b[i])
}

/// `c` repeated `n` times.
pub open spec fn repeated(c: char, n: nat) -> Seq<char> {
    Seq::new(n, |i: int| c)
}

/// The texts of a sequence of strings.
pub open spec fn texts(v: Seq<String>) -> Seq<Seq<char>> {
    v.map_values(|s: String| s@)
}

/// The text of an optional string.
pub open spec fn opt_text(s: Option<String>) -> Option<Seq<char>> {
    match s {
        Some(t) => Some(t@),
        None => None,
    }
}

/// The text of an optional string slice.
pub open spec fn opt_str(s: Option<&str>) -> Option<Seq<char>> {
    match s {
        Some(t) => Some(t@),
        None => None,
    }
}

/// The text of an output or of an error message.
pub open spec fn result_text(r: Result<String, String>) -> Result<Seq<char>, Seq<char>> {
    match r {
        Ok(t) => Ok(t@),
        Err(t) => Err(t@),
    }
}

// --- facts -----------------------------------------------------------------

/// There is always at least one piece.
pub proof fn lemma_split_nonempty(s: Seq<char>, sep: char)
    ensures
        split(s, sep).len() >= 1,
    decreases s.len(),
{
    if s.len() > 0 {
        lemma_split_nonempty(s.drop_last(), sep);
    }
}

/// Writing the pieces back with the separator between them gives the text.
pub proof fn lemma_split_join(s: Seq<char>, sep: char)
    ensures
        join(split(s, sep), seq![sep]) == s,
    decreases s.len(),
{
    if s.len() > 0 {
        let before = split(s.drop_last(), sep);
        lemma_split_nonempty(s.drop_last(), sep);
        lemma_split_join(s.drop_last(), sep);
        let after = split(s, sep);
        if s.last() == sep {
            assert(after.drop_last() =~= before);
            assert(join(after, seq![sep]) =~= s);
        } else {
            assert(after.drop_last() =~= before.drop_last());
            if before.len() == 1 {
                assert(join(before, seq![sep]) == before[0]);
            }
            assert(join(after, seq![sep]) =~= s.drop_last().push(s.last()));
        }
    } else {
        assert(join(split(s, sep), seq![sep]) =~= s);
    }
}

/// No piece holds the separator.
pub proof fn lemma_split_pieces(s: Seq<char>, sep: char)
    ensures
        forall|i: int| 0 <= i < split(s, sep).len() ==> !(#[trigger] split(s, sep)[i]).contains(sep),
    decreases s.len(),
{
    if s.len() > 0 {
        lemma_split_pieces(s.drop_last(), sep);
        lemma_split_nonempty(s.drop_last(), sep);
        let before = split(s.drop_last(), sep);
        let after = split(s, sep);
        assert forall|i: int| 0 <= i < after.len() implies !(#[trigger] after[i]).contains(sep) by {
            if i < before.len() - 1 || s.last() == sep {
                if i < before.len() {
                    assert(after[i] == before[i]);
                }
            } else {
                let old_piece = before.last();
                assert(!before[before.len() - 1].contains(sep));
                assert(after[i] == old_piece.push(s.last()));
                assert forall|k: int| 0 <= k < after[i].len() implies after[i][k] != sep by {
                    if k < old_piece.len() {
                        assert(old_piece.contains(old_piece[k]));
                    }
                }
            }
        }
    }
}

/// A text without the separator is its only piece.
pub proof fn lemma_split_plain(s: Seq<char>, sep: char)
    requires
        !s.contains(sep),
    ensures
        split(s, sep) == seq![s],
    decreases s.len(),
{
    if s.len() == 0 {
        assert(s =~= Seq::empty());
    } else {
        let front = s.drop_last();
        if front.contains(sep) {
            let i = choose|i: int| 0 <= i < front.len() && front[i] == sep;
            assert(s[i] == sep);
        }
        lemma_split_plain(front, sep);
        assert(s[s.len() - 1] != sep);
        assert(front.push(s.last()) =~= s);
        assert(split(s, sep) =~= seq![s]);
    }
}

/// The pieces of two texts with the separator between them are the pieces of the
/// one and then those of the other.
pub proof fn lemma_split_add(a: Seq<char>, b: Seq<char>, sep: char)
    ensures
        split(a + seq![sep] + b, sep) == split(a, sep) + split(b, sep),
    decreases b.len(),
{
    let s = a + seq![sep] + b;
    if b.len() == 0 {
        assert(s.drop_last() =~= a);
        assert(split(s, sep) =~= split(a, sep) + split(b, sep));
    } else {
        lemma_split_add(a, b.drop_last(), sep);
        lemma_split_nonempty(b.drop_last(), sep);
        assert(s.drop_last() =~= a + seq![sep] + b.drop_last());
        assert(split(s, sep) =~= split(a, sep) + split(b, sep));
    }
}

/// Texts without the separator are the pieces of what they make up.
pub proof fn lemma_join_split(parts: Seq<Seq<char>>, sep: char)
    requires
        parts.len() > 0,
        forall|i: int| 0 <= i < parts.len() ==> !(#[trigger] parts[i]).contains(sep),
    ensures
        split(join(parts, seq![sep]), sep) == parts,
    decreases parts.len(),
{
    if parts.len() == 1 {
        lemma_split_plain(parts[0], sep);
        assert(seq![parts[0]] =~= parts);
    } else {
        let front = parts.drop_last();
        assert forall|i: int| 0 <= i < front.len() implies !(#[trigger] front[i]).contains(
            sep,
        ) by {
            assert(front[i] == parts[i]);
        }
        lemma_join_split(front, sep);
        lemma_split_plain(parts[parts.len() - 1], sep);
        lemma_split_add(join(front, seq![sep]), parts.last(), sep);
        assert(front + seq![parts.last()] =~= parts);
    }
}

pub proof fn lemma_last_position(s: Seq<char>, c: char)
    ensures
        -1 <= last_position(s, c) < s.len(),
        last_position(s, c) >= 0 ==> s[last_position(s, c)] == c,
        forall|k: int| last_position(s, c) < k < s.len() ==> s[k] != c,
    decreases s.len(),
{
    if s.len() > 0 && s.last() != c {
        lemma_last_position(s.drop_last(), c);
        let p = last_position(s.drop_last(), c);
        assert forall|k: int| p < k < s.len() implies s[k] != c by {
            if k < s.len() - 1 {
                assert(s.drop_last()[k] == s[k]);
            }
        }
    }
}

pub proof fn lemma_first_position(s: Seq<char>, c: char)
    ensures
        0 <= first_position(s, c) <= s.len(),
        first_position(s, c) < s.len() ==> s[first_position(s, c)] == c,
        forall|k: int| 0 <= k < first_position(s, c) ==> s[k] != c,
    decreases s.len(),
{
    if s.len() > 0 && s[0] != c {
        lemma_first_position(s.drop_first(), c);
        let p = first_position(s.drop_first(), c);
        assert forall|k: int| 0 <= k < 1 + p implies s[k] != c by {
            if k > 0 {
                assert(s.drop_first()[k - 1] == s[k]);
            }
        }
    }
}

/// The first position of `c` is the place where it stands first.
pub proof fn lemma_first_position_is(s: Seq<char>, c: char, p: int)
    requires
        0 <= p <= s.len(),
        p < s.len() ==> s[p] == c,
        forall|k: int| 0 <= k < p ==> s[k] != c,
    ensures
        first_position(s, c) == p,
{
    lemma_first_position(s, c);
}

/// The last position of `c` is the place where it stands last.
pub proof fn lemma_last_position_is(s: Seq<char>, c: char, p: int)
    requires
        -1 <= p < s.len(),
        p >= 0 ==> s[p] == c,
        forall|k: int| p < k < s.len() ==> s[k] != c,
    ensures
        last_position(s, c) == p,
{
    lemma_last_position(s, c);
}

pub proof fn lemma_trim_start(s: Seq<char>, set: spec_fn(char) -> bool, k: int)
    requires
        0 <= k <= s.len(),
        forall|i: int| 0 <= i < k ==> set(#[trigger] s[i]),
        k < s.len() ==> !set(s[k]),
    ensures
        trim_start(s, set) == s.skip(k),
    decreases k,
{
    if k > 0 {
        assert(set(s[0]));
        let t = s.drop_first();
        assert forall|i: int| 0 <= i < k - 1 implies set(#[trigger] t[i]) by {
            assert(t[i] == s[i + 1]);
        }
        lemma_trim_start(t, set, k - 1);
        assert(t.skip(k - 1) =~= s.skip(k));
    } else {
        assert(s.skip(0) =~= s);
    }
}

pub proof fn lemma_trim_end(s: Seq<char>, set: spec_fn(char) -> bool, k: int)
    requires
        0 <= k <= s.len(),
        forall|i: int| k <= i < s.len() ==> set(#[trigger] s[i]),
        k > 0 ==> !set(s[k - 1]),
    ensures
        trim_end(s, set) == s.take(k),
    decreases s.len() - k,
{
    if k < s.len() {
        let t = s.drop_last();
        assert forall|i: int| k <= i < t.len() implies set(#[trigger] t[i]) by {
            assert(t[i] == s[i]);
        }
        lemma_trim_end(t, set, k);
        assert(t.take(k) =~= s.take(k));
    } else {
        assert(s.take(k) =~= s);
    }
}

// --- the operations --------------------------------------------------------

/// `String::push`: appends one character to the string.
pub assume_specification[ String::push ](s: &mut String, c: char)
    ensures
        final(s)@ == old(s)@.push(c),
;

/// The characters of `s`.
pub fn to_chars(s: &str) -> (r: Vec<char>)
    ensures
        r@ == s@,
{
    let mut r: Vec<char> = Vec::new();
    for c in it: s.chars()
        invariant
            it.seq() == s@,
            r@ == s@.take(it.index()),
    {
        r.push(c);
    }
    proof {
        assert(s@.take(s@.len() as int) == s@);
    }
    r
}

/// The string made of the characters in `chars`.
pub fn from_chars(chars: &[char]) -> (r: String)
    ensures
        r@ == chars@,
{
    let mut r = String::new();
    for i in 0..chars.len()
        invariant
            r@ == chars@.take(i as int),
    {
        r.push(chars[i]);
    }
    proof {
        assert(chars@.take(chars@.len() as int) == chars@);
    }
    r
}

/// Whether `a` and `b` hold the same characters.
pub fn same_chars(a: &[char], b: &[char]) -> (r: bool)
    ensures
        r == (a@ == b@),
{
    if a.len() != b.len() {
        return false;
    }
    for i in 0..a.len()
        invariant
            a.len() == b.len(),
            forall|k: int| 0 <= k < i ==> a@[k] == b@[k],
    {
        if a[i] != b[i] {
            return false;
        }
    }
    proof {
        assert(a@ =~= b@);
    }
    true
}

/// Whether `a` and `b` hold the same text.
pub fn same_text(a: &str, b: &str) -> (r: bool)
    ensures
        r == (a@ == b@),
{
    let mut x = a.chars();
    let mut y = b.chars();
    let ghost mut k: int = 0;
    proof {
        assert(a@.skip(0) =~= a@);
        assert(b@.skip(0) =~= b@);
    }
    loop
        invariant
            0 <= k <= a@.len(),
            k <= b@.len(),
            vstd::std_specs::iter::IteratorSpec::obeys_prophetic_iter_laws(&x),
            vstd::std_specs::iter::IteratorSpec::obeys_prophetic_iter_laws(&y),
            vstd::std_specs::iter::IteratorSpec::remaining(&x) == a@.skip(k),
            vstd::std_specs::iter::IteratorSpec::remaining(&y) == b@.skip(k),
            a@.take(k) == b@.take(k),
        decreases a@.len() - k,
    {
        let p = x.next();
        let q = y.next();
        match (p, q) {
            (Some(c), Some(d)) => {
                if c != d {
                    proof {
                        assert(a@[k] == c && b@[k] == d);
                    }
                    return false;
                }
                proof {
                    assert(a@.skip(k).drop_first() =~= a@.skip(k + 1));
                    assert(b@.skip(k).drop_first() =~= b@.skip(k + 1));
                    assert(a@.take(k + 1) =~= a@.take(k).push(a@[k]));
                    assert(b@.take(k + 1) =~= b@.take(k).push(b@[k]));
                    k = k + 1;
                }
            },
            (None, None) => {
                proof {
                    assert(a@.take(k) =~= a@);
                    assert(b@.take(k) =~= b@);
                }
                return true;
            },
            _ => {
                proof {
                    assert(a@.len() != b@.len());
                }
                return false;
            },
        }
    }
}

/// The pieces of `s` between occurrences of `sep`.
pub fn split_chars(s: &[char], sep: char) -> (r: Vec<Vec<char>>)
    ensures
        r@.map_values(|v: Vec<char>| v@) == split(s@, sep),
{
    let ghost f = |v: Vec<char>| v@;
    let mut r: Vec<Vec<char>> = Vec::new();
    let mut cur: Vec<char> = Vec::new();
    proof {
        assert(r@.map_values(f).push(cur@) =~= split(s@.take(0), sep));
    }
    for i in 0..s.len()
        invariant
            f == (|v: Vec<char>| v@),
            r@.map_values(f).push(cur@) == split(s@.take(i as int), sep),
    {
        proof {
            assert(s@.take(i + 1).drop_last() =~= s@.take(i as int));
            assert(r@.map_values(f).push(cur@).drop_last() =~= r@.map_values(f));
        }
        if s[i] == sep {
            let ghost before = r@;
            r.push(cur);
            cur = Vec::new();
            proof {
                assert(r@.map_values(f) =~= before.map_values(f).push(before.push(r@.last()).last()@));
            }
        } else {
            cur.push(s[i]);
        }
    }
    let ghost before = r@;
    let ghost last = cur@;
    r.push(cur);
    proof {
        assert(s@.take(s@.len() as int) =~= s@);
        assert(r@.map_values(f) =~= before.map_values(f).push(last));
    }
    r
}

/// Whether `needle` stands in `s` at position `i`.
pub fn occurs(s: &[char], needle: &[char], i: usize) -> (r: bool)
    ensures
        r == occurs_at(s@, needle@, i as int),
{
    if i > s.len() || s.len() - i < needle.len() {
        return false;
    }
    let part = slice_subrange(s, i, i + needle.len());
    same_chars(part, needle)
}

/// Whether `s` begins with `prefix`.
pub fn begins(s: &[char], prefix: &[char]) -> (r: bool)
    ensures
        r == starts_with(s@, prefix@),
{
    occurs(s, prefix, 0)
}

/// Whether `s` ends with `suffix`.
pub fn ends(s: &[char], suffix: &[char]) -> (r: bool)
    ensures
        r == ends_with(s@, suffix@),
{
    if s.len() < suffix.len() {
        return false;
    }
    occurs(s, suffix, s.len() - suffix.len())
}

/// Whether the text `s` begins with `prefix`.
pub fn text_begins(s: &str, prefix: &str) -> (r: bool)
    ensures
        r == starts_with(s@, prefix@),
{
    begins(to_chars(s).as_slice(), to_chars(prefix).as_slice())
}

/// Whether the text `s` ends with `suffix`.
pub fn text_ends(s: &str, suffix: &str) -> (r: bool)
    ensures
        r == ends_with(s@, suffix@),
{
    ends(to_chars(s).as_slice(), to_chars(suffix).as_slice())
}

/// Whether `needle` stands somewhere in `s`.
pub fn holds(s: &[char], needle: &[char]) -> (r: bool)
    ensures
        r == has_text(s@, needle@),
{
    if s.len() < needle.len() {
        return false;
    }
    let last: usize = s.len() - needle.len();
    let mut i: usize = 0;
    while i <= last
        invariant
            last == s.len() - needle.len(),
            i <= last + 1,
            forall|k: int| 0 <= k < i ==> !occurs_at(s@, needle@, k),
        decreases last + 1 - i,
    {
        if occurs(s, needle, i) {
            return true;
        }
        if i == last {
            return false;
        }
        i = i + 1;
    }
    false
}

/// The last position of `c` in `s`.
pub fn rposition(s: &[char], c: char) -> (r: Option<usize>)
    ensures
        match r {
            Some(i) => last_position(s@, c) == i,
            None => last_position(s@, c) == -1,
        },
{
    let mut i: usize = s.len();
    while i > 0
        invariant
            i <= s.len(),
            forall|k: int| i <= k < s.len() ==> s@[k] != c,
        decreases i,
    {
        i = i - 1;
        if s[i] == c {
            proof {
                lemma_last_position_is(s@, c, i as int);
            }
            return Some(i);
        }
    }
    proof {
        lemma_last_position_is(s@, c, -1);
    }
    None
}

/// The first position of `c` in `s`.
pub fn position(s: &[char], c: char) -> (r: Option<usize>)
    ensures
        match r {
            Some(i) => i < s@.len() && first_position(s@, c) == i,
            None => first_position(s@, c) == s@.len(),
        },
{
    for i in 0..s.len()
        invariant
            forall|k: int| 0 <= k < i ==> s@[k] != c,
    {
        if s[i] == c {
            proof {
                lemma_first_position_is(s@, c, i as int);
            }
            return Some(i);
        }
    }
    proof {
        lemma_first_position_is(s@, c, s@.len() as int);
    }
    None
}

/// Whether `c` is white space.
pub fn white(c: char) -> (r: bool)
    ensures
        r == is_whitespace(c),
{
    ('\u{9}' <= c && c <= '\u{d}') || c == '\u{20}' || c == '\u{85}' || c == '\u{a0}' || c
        == '\u{1680}' || ('\u{2000}' <= c && c <= '\u{200a}') || c == '\u{2028}' || c == '\u{2029}'
        || c == '\u{202f}' || c == '\u{205f}' || c == '\u{3000}'
}

/// `s` without leading and trailing white space.
pub fn trim_white(s: &[char]) -> (r: &[char])
    ensures
        r@ == trimmed(s@),
{
    let ghost set = |c: char| is_whitespace(c);
    let mut i: usize = 0;
    while i < s.len() && white(s[i])
        invariant
            i <= s.len(),
            set == (|c: char| is_whitespace(c)),
            forall|k: int| 0 <= k < i ==> set(#[trigger] s@[k]),
        decreases s.len() - i,
    {
        i = i + 1;
    }
    let t = slice_subrange(s, i, s.len());
    proof {
        lemma_trim_start(s@, set, i as int);
        assert(t@ =~= s@.skip(i as int));
    }
    let mut j: usize = t.len();
    while j > 0 && white(t[j - 1])
        invariant
            j <= t.len(),
            set == (|c: char| is_whitespace(c)),
            forall|k: int| j <= k < t.len() ==> set(#[trigger] t@[k]),
        decreases j,
    {
        j = j - 1;
    }
    proof {
        lemma_trim_end(t@, set, j as int);
    }
    slice_subrange(t, 0, j)
}

/// `s` without trailing occurrences of `c`.
pub fn trim_end_of(s: &[char], c: char) -> (r: &[char])
    ensures
        r@ == trim_end(s@, only(c)),
{
    let ghost set = only(c);
    let mut j: usize = s.len();
    while j > 0 && s[j - 1] == c
        invariant
            j <= s.len(),
            set == only(c),
            forall|k: int| j <= k < s.len() ==> set(#[trigger] s@[k]),
        decreases j,
    {
        j = j - 1;
    }
    proof {
        lemma_trim_end(s@, set, j as int);
    }
    slice_subrange(s, 0, j)
}

/// `s` without leading and trailing occurrences of `c`.
pub fn trim_of(s: &[char], c: char) -> (r: &[char])
    ensures
        r@ == trimmed_of(s@, c),
{
    let ghost set = only(c);
    let mut i: usize = 0;
    while i < s.len() && s[i] == c
        invariant
            i <= s.len(),
            set == only(c),
            forall|k: int| 0 <= k < i ==> set(#[trigger] s@[k]),
        decreases s.len() - i,
    {
        i = i + 1;
    }
    let t = slice_subrange(s, i, s.len());
    proof {
        lemma_trim_start(s@, set, i as int);
        assert(t@ =~= s@.skip(i as int));
    }
    trim_end_of(t, c)
}

/// `s` with every `from` replaced by `to`.
pub fn replace_char(s: &str, from: char, to: char) -> (r: String)
    ensures
        r@ == replaced(s@, from, to),
{
    let v = to_chars(s);
    let mut r = String::new();
    for i in 0..v.len()
        invariant
            v@ == s@,
            r@ == replaced(s@.take(i as int), from, to),
    {
        let c = v[i];
        if c == from {
            r.push(to);
        } else {
            r.push(c);
        }
        proof {
            assert(replaced(s@.take(i + 1), from, to) =~= replaced(s@.take(i as int), from, to).push(
                if c == from {
                    to
                } else {
                    c
                },
            ));
        }
    }
    proof {
        assert(s@.take(s@.len() as int) =~= s@);
    }
    r
}

/// The lines of `s`.
pub fn lines_of(s: &str) -> (r: Vec<String>)
    ensures
        texts(r@) == lines(s@),
{
    let v = to_chars(s);
    let pieces = split_chars(v.as_slice(), '\n');
    let ghost f = |p: Vec<char>| p@;
    let ghost ps = split(s@, '\n');
    let ghost g = |p: Seq<char>| without_return(p);
    proof {
        lemma_split_nonempty(s@, '\n');
        assert(pieces@.map_values(f).len() == pieces.len());
    }
    let last: usize = pieces.len() - 1;
    let mut r: Vec<String> = Vec::new();
    for i in 0..last
        invariant
            pieces.len() == last + 1,
            ps == pieces@.map_values(|p: Vec<char>| p@),
            g == (|p: Seq<char>| without_return(p)),
            texts(r@) == ps.drop_last().take(i as int).map_values(g),
    {
        let p = &pieces[i];
        proof {
            assert(ps[i as int] == p@);
        }
        let t = if p.len() > 0 && p[p.len() - 1] == '\r' {
            let q = slice_subrange(p.as_slice(), 0, p.len() - 1);
            proof {
                assert(q@ =~= p@.drop_last());
            }
            from_chars(q)
        } else {
            from_chars(p.as_slice())
        };
        proof {
            assert(t@ == without_return(p@));
            assert(ps.drop_last().take(i + 1).map_values(g) =~= ps.drop_last().take(
                i as int,
            ).map_values(g).push(t@));
            assert(texts(r@.push(t)) =~= texts(r@).push(t@));
        }
        r.push(t);
    }
    proof {
        assert(ps.drop_last().take(last as int) =~= ps.drop_last());
        assert(ps.last() == pieces@[last as int]@);
    }
    if pieces[last].len() > 0 {
        let t = from_chars(pieces[last].as_slice());
        proof {
            assert(texts(r@.push(t)) =~= texts(r@).push(t@));
        }
        r.push(t);
    }
    r
}

/// `parts` written one after the other with `sep` between neighbours.
pub fn join_strings(parts: &Vec<String>, sep: &str) -> (r: String)
    ensures
        r@ == join(texts(parts@), sep@),
{
    let mut r = String::new();
    let ghost all = texts(parts@);
    proof {
        assert(all.take(0) =~= Seq::empty());
    }
    for i in 0..parts.len()
        invariant
            all == texts(parts@),
            r@ == join(all.take(i as int), sep@),
    {
        if i > 0 {
            r.append(sep);
        }
        r.append(parts[i].as_str());
        proof {
            assert(all.take(i + 1).drop_last() =~= all.take(i as int));
            assert(all.take(i + 1).last() == parts@[i as int]@);
            if i == 0 {
                assert(r@ =~= all[0]);
            }
        }
    }
    proof {
        assert(all.take(all.len() as int) =~= all);
    }
    r
}

/// The decimal digits of `n`.
pub fn decimal_of(n: usize) -> (r: String)
    ensures
        r@ == decimal(n as nat),
    decreases n,
{
    if n < 10 {
        let mut r = String::new();
        r.push(digit_char(n));
        proof {
            assert(r@ =~= seq![digit(n as int)]);
        }
        r
    } else {
        let mut r = decimal_of(n / 10);
        r.push(digit_char(n % 10));
        r
    }
}

fn digit_char(d: usize) -> (r: char)
    requires
        d < 10,
    ensures
        r == digit(d as int),
{
    (('0' as u8) + (d as u8)) as char
}

proof fn lemma_digits_value_prefix(s: Seq<char>, k: int)
    requires
        0 <= k <= s.len(),
    ensures
        digits_value(s.take(k)) <= digits_value(s),
    decreases s.len(),
{
    if k < s.len() {
        lemma_digits_value_prefix(s.drop_last(), k);
        assert(s.drop_last().take(k) =~= s.take(k));
    } else {
        assert(s.take(k) =~= s);
    }
}

/// The number that `s` writes, if it writes one of at most `max`.
pub fn parse_number(s: &[char], max: u64) -> (r: Option<u64>)
    ensures
        match r {
            Some(n) => number(s@, max as nat) == Some(n as nat),
            None => number(s@, max as nat) is None,
        },
{
    let body = if s.len() > 0 && s[0] == '+' {
        slice_subrange(s, 1, s.len())
    } else {
        s
    };
    proof {
        if s@.len() > 0 && s@[0] == '+' {
            assert(body@ =~= s@.drop_first());
        }
    }
    if body.len() == 0 {
        return None;
    }
    let mut n: u64 = 0;
    for i in 0..body.len()
        invariant
            n == digits_value(body@.take(i as int)),
            n <= max,
            forall|k: int| 0 <= k < i ==> is_digit(#[trigger] body@[k]),
            body@ == unsigned(s@),
    {
        let c = body[i];
        if !('0' <= c && c <= '9') {
            proof {
                assert(!is_digit(body@[i as int]));
            }
            return None;
        }
        let d: u64 = (c as u64) - ('0' as u64);
        proof {
            assert(body@.take(i + 1).drop_last() =~= body@.take(i as int));
            assert(digits_value(body@.take(i + 1)) == 10 * n + d);
            lemma_digits_value_prefix(body@, i + 1);
        }
        proof {
            if (forall|k: int| 0 <= k < body@.len() ==> is_digit(#[trigger] body@[k])) {
                assert(digits_value(body@) >= 10 * n + d);
            }
        }
        if n > u64::MAX / 10 || n * 10 > u64::MAX - d || n * 10 + d > max {
            return None;
        }
        n = n * 10 + d;
    }
    proof {
        assert(body@.take(body@.len() as int) =~= body@);
    }
    Some(n)
}

fn lower_ascii(c: char) -> (r: char)
    ensures
        r == ascii_lower(c),
{
    if 'A' <= c && c <= 'Z' {
        ((c as u8) + 32) as char
    } else {
        c
    }
}

/// Whether `a` and `b` are the same up to the case of ASCII letters.
pub fn same_ascii_case(a: &[char], b: &[char]) -> (r: bool)
    ensures
        r == same_ignoring_ascii_case(a@, b@),
{
    if a.len() != b.len() {
        return false;
    }
    for i in 0..a.len()
        invariant
            a.len() == b.len(),
            forall|k: int| 0 <= k < i ==> ascii_lower(#[trigger] a@[k]) == ascii_lower(b@[k]),
    {
        if lower_ascii(a[i]) != lower_ascii(b[i]) {
            return false;
        }
    }
    true
}

/// Whether `s` is one of `list`.
pub fn is_among(list: &Vec<String>, s: &str) -> (r: bool)
    ensures
        r == texts(list@).contains(s@),
{
    for k in 0..list.len()
        invariant
            forall|j: int| 0 <= j < k ==> texts(list@)[j] != s@,
    {
        if same_text(list[k].as_str(), s) {
            proof {
                assert(texts(list@)[k as int] == s@);
            }
            return true;
        }
    }
    false
}

/// The text in an option, borrowed.
pub fn as_opt_str(s: &Option<String>) -> (r: Option<&str>)
    ensures
        opt_str(r) == opt_text(*s),
{
    match s {
        Some(s) => Some(s.as_str()),
        None => None,
    }
}

/// A copy of `list`.
pub fn copied(list: &Vec<String>) -> (r: Vec<String>)
    ensures
        texts(r@) == texts(list@),
{
    let mut r: Vec<String> = Vec::new();
    for k in 0..list.len()
        invariant
            texts(r@) == texts(list@).take(k as int),
    {
        let ghost before = r@;
        r.push(list[k].clone());
        proof {
            assert(texts(r@) =~= texts(before).push(texts(list@)[k as int]));
        }
    }
    proof {
        assert(texts(list@).take(list@.len() as int) =~= texts(list@));
    }
    r
}

/// `list` with `s` at its end.
pub fn extended(list: &Vec<String>, s: &str) -> (r: Vec<String>)
    ensures
        texts(r@) == texts(list@).push(s@),
{
    let mut r = copied(list);
    let ghost before = r@;
    r.push(s.to_owned());
    proof {
        assert(texts(r@) =~= texts(before).push(s@));
    }
    r
}

/// A text stands in a longer one wherever it stands in a part of it.
pub proof fn lemma_has_text_in(front: Seq<char>, part: Seq<char>, back: Seq<char>, x: Seq<char>)
    requires
        has_text(part, x),
    ensures
        has_text(front + part + back, x),
{
    let i = choose|i: int| occurs_at(part, x, i);
    let whole = front + part + back;
    assert(whole.subrange(front.len() + i, front.len() + i + x.len()) =~= part.subrange(
        i,
        i + x.len(),
    ));
    assert(occurs_at(whole, x, front.len() + i));
}

/// A text stands in itself.
pub proof fn lemma_has_text_self(x: Seq<char>)
    ensures
        has_text(x, x),
{
    assert(x.subrange(0, x.len() as int) =~= x);
    assert(occurs_at(x, x, 0));
}

/// Each part stands in the joined text.
pub proof fn lemma_has_text_join(parts: Seq<Seq<char>>, sep: Seq<char>, k: int)
    requires
        0 <= k < parts.len(),
    ensures
        has_text(join(parts, sep), parts[k]),
    decreases parts.len(),
{
    lemma_has_text_self(parts[k]);
    if parts.len() > 1 {
        let before = join(parts.drop_last(), sep);
        let none = Seq::<char>::empty();
        if k < parts.len() - 1 {
            lemma_has_text_join(parts.drop_last(), sep, k);
            lemma_has_text_in(none, before, sep + parts.last(), parts[k]);
            assert(none + before + (sep + parts.last()) =~= join(parts, sep));
        } else {
            lemma_has_text_in(before + sep, parts[k], none, parts[k]);
            assert(before + sep + parts[k] + none =~= join(parts, sep));
        }
    }
}

/// What two sequences hold one after the other.
pub proof fn lemma_add_contains<A>(a: Seq<A>, b: Seq<A>, x: A)
    ensures
        (a + b).contains(x) <==> (a.contains(x) || b.contains(x)),
{
    let t = a + b;
    if a.contains(x) {
        let k = choose|k: int| 0 <= k < a.len() && a[k] == x;
        assert(t[k] == x);
    }
    if b.contains(x) {
        let k = choose|k: int| 0 <= k < b.len() && b[k] == x;
        assert(t[a.len() + k] == x);
    }
    if t.contains(x) {
        let k = choose|k: int| 0 <= k < t.len() && t[k] == x;
        if k < a.len() {
            assert(a[k] == x);
        } else {
            assert(b[k - a.len()] == x);
        }
    }
}

/// What a sequence holds with an element in front of it.
pub proof fn lemma_front_contains<A>(a: A, s: Seq<A>, x: A)
    ensures
        (seq![a] + s).contains(x) <==> (s.contains(x) || x == a),
{
    lemma_add_contains(seq![a], s, x);
    assert(seq![a][0] == a);
}

/// What a sequence holds after a push.
pub proof fn lemma_push_contains<A>(s: Seq<A>, a: A, x: A)
    ensures
        s.push(a).contains(x) <==> (s.contains(x) || x == a),
{
    let t = s.push(a);
    if s.contains(x) {
        let k = choose|k: int| 0 <= k < s.len() && s[k] == x;
        assert(t[k] == x);
    }
    if x == a {
        assert(t[s.len() as int] == x);
    }
    if t.contains(x) {
        let k = choose|k: int| 0 <= k < t.len() && t[k] == x;
        if k < s.len() {
            assert(s[k] == x);
        }
    }
}

/// Pushing an element adds it to the set of elements.
pub proof fn lemma_push_set<A>(s: Seq<A>, a: A)
    ensures
        s.push(a).to_set() == s.to_set().insert(a),
{
    assert forall|x: A| s.push(a).to_set().contains(x) <==> s.to_set().insert(a).contains(x) by {
        lemma_push_contains(s, a, x);
    }
    assert(s.push(a).to_set() =~= s.to_set().insert(a));
}

// --- reading back ----------------------------------------------------------------------------

proof fn lemma_decimal(n: nat)
    ensures
        decimal(n).len() > 0,
        digits_value(decimal(n)) == n,
        forall|i: int| 0 <= i < decimal(n).len() ==> is_digit(#[trigger] decimal(n)[i]),
    decreases n,
{
    let s = decimal(n);
    if n < 10 {
        reveal_with_fuel(digits_value, 2);
        assert(s.drop_last() =~= Seq::empty());
    } else {
        lemma_decimal(n / 10);
        assert(s.drop_last() =~= decimal(n / 10));
        assert forall|i: int| 0 <= i < s.len() implies is_digit(#[trigger] s[i]) by {
            if i < s.len() - 1 {
                assert(s[i] == decimal(n / 10)[i]);
            }
        }
    }
}

/// A number that is written in decimal digits is read back, unless it is too large.
pub proof fn law_numbers_are_read_back(n: nat, max: nat)
    ensures
        number(decimal(n), max) == if n <= max {
            Some(n)
        } else {
            None
        },
        n < 10 ==> decimal(n) == seq![('0' as int + n as int) as char],
        n >= 10 ==> decimal(n) == decimal(n / 10) + decimal(n % 10),
{
    lemma_decimal(n);
    assert(is_digit(decimal(n)[0]));
    assert(unsigned(decimal(n)) == decimal(n));
    if n >= 10 {
        assert(decimal(n) =~= decimal(n / 10) + decimal(n % 10));
    }
}

/// Trimming takes away what is in the set from both ends, and nothing else.
pub proof fn law_trimming(
    a: Seq<char>,
    s: Seq<char>,
    b: Seq<char>,
    set: spec_fn(char) -> bool,
)
    requires
        forall|i: int| 0 <= i < a.len() ==> set(#[trigger] a[i]),
        forall|i: int| 0 <= i < b.len() ==> set(#[trigger] b[i]),
        s.len() > 0,
        !set(s[0]),
        !set(s.last()),
    ensures
        trim(a + s + b, set) == s,
        trim_start(a + s + b, set) == s + b,
        trim_end(a + s + b, set) == a + s,
        trim(a, set) == Seq::<char>::empty(),
{
    let t = a + s + b;
    let n = a.len() as int;
    assert forall|i: int| 0 <= i < n implies set(#[trigger] t[i]) by {
        assert(t[i] == a[i]);
    }
    assert(t[n] == s[0]);
    lemma_trim_start(t, set, n);
    assert(t.skip(n) =~= s + b);
    let m = n + s.len();
    assert forall|i: int| m <= i < t.len() implies set(#[trigger] t[i]) by {
        assert(t[i] == b[i - m]);
    }
    assert(t[m - 1] == s.last());
    lemma_trim_end(t, set, m);
    assert(t.take(m) =~= a + s);
    let u = s + b;
    let k = s.len() as int;
    assert forall|i: int| k <= i < u.len() implies set(#[trigger] u[i]) by {
        assert(u[i] == b[i - k]);
    }
    assert(u[k - 1] == s.last());
    lemma_trim_end(u, set, k);
    assert(u.take(k) =~= s);
    lemma_trim_start(a, set, n);
    assert(a.skip(n) =~= Seq::empty());
}

/// A line with its end, which may be a carriage return and a line feed.
pub open spec fn ended(line: (Seq<char>, bool)) -> Seq<char> {
    line.0 + if line.1 {
        seq!['\r', '\n']
    } else {
        seq!['\n']
    }
}

/// Lines one after the other, each with its end.
pub open spec fn all_ended(lines: Seq<(Seq<char>, bool)>) -> Seq<char>
    decreases lines.len(),
{
    if lines.len() == 0 {
        Seq::empty()
    } else {
        ended(lines[0]) + all_ended(lines.drop_first())
    }
}

proof fn lemma_pieces(ls: Seq<(Seq<char>, bool)>, rest: Seq<char>)
    requires
        forall|i: int| 0 <= i < ls.len() ==> !(#[trigger] ls[i]).0.contains('\n'),
        !rest.contains('\n'),
    ensures
        split(all_ended(ls) + rest, '\n') == ls.map_values(
            |l: (Seq<char>, bool)|
                if l.1 {
                    l.0.push('\r')
                } else {
                    l.0
                },
        ).push(rest),
    decreases ls.len(),
{
    let raw = |l: (Seq<char>, bool)|
        if l.1 {
            l.0.push('\r')
        } else {
            l.0
        };
    let s = all_ended(ls) + rest;
    if ls.len() == 0 {
        assert(s =~= rest);
        lemma_split_plain(rest, '\n');
        assert(ls.map_values(raw).push(rest) =~= seq![rest]);
    } else {
        let more = ls.drop_first();
        assert forall|i: int| 0 <= i < more.len() implies !(#[trigger] more[i]).0.contains(
            '\n',
        ) by {
            assert(more[i] == ls[i + 1]);
        }
        lemma_pieces(more, rest);
        let first = raw(ls[0]);
        assert(!ls[0].0.contains('\n'));
        assert(!first.contains('\n')) by {
            lemma_push_contains(ls[0].0, '\r', '\n');
        }
        let tail = all_ended(more) + rest;
        assert(s =~= first + seq!['\n'] + tail);
        lemma_split_add(first, tail, '\n');
        lemma_split_plain(first, '\n');
        assert(ls.map_values(raw) =~= seq![first] + more.map_values(raw));
        assert(ls.map_values(raw).push(rest) =~= seq![first] + more.map_values(raw).push(rest));
    }
}

/// The lines of a text are what stands before each line feed, without a carriage
/// return before it, and what follows the last line feed, if anything does.
pub proof fn law_lines_are_read(ls: Seq<(Seq<char>, bool)>, rest: Seq<char>)
    requires
        forall|i: int|
            0 <= i < ls.len() ==> !(#[trigger] ls[i]).0.contains('\n') && (ls[i].1 || ls[i].0.len()
                == 0 || ls[i].0.last() != '\r'),
        !rest.contains('\n'),
    ensures
        lines(all_ended(ls) + rest) == ls.map_values(|l: (Seq<char>, bool)| l.0) + if rest.len()
            == 0 {
            Seq::empty()
        } else {
            seq![rest]
        },
{
    let raw = |l: (Seq<char>, bool)|
        if l.1 {
            l.0.push('\r')
        } else {
            l.0
        };
    lemma_pieces(ls, rest);
    let pieces = split(all_ended(ls) + rest, '\n');
    assert(pieces.drop_last() =~= ls.map_values(raw));
    let own = pieces.drop_last().map_values(|p: Seq<char>| without_return(p));
    assert forall|i: int| 0 <= i < ls.len() implies #[trigger] own[i] == ls[i].0 by {
        assert(pieces.drop_last()[i] == raw(ls[i]));
        assert(ls[i].0.push('\r').drop_last() =~= ls[i].0);
    }
    assert(own =~= ls.map_values(|l: (Seq<char>, bool)| l.0));
    assert(lines(all_ended(ls) + rest) =~= own + if rest.len() == 0 {
        Seq::empty()
    } else {
        seq![rest]
    });
}

} // verus!
