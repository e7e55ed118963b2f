//! How alike two identifiers are, and which of many are likely meant by a
//! misspelt one.

use vstd::prelude::*;
use vstd::utf8::*;

use crate::names::NameSet;
use crate::{order, text};

verus! {

// --- letter case -----------------------------------------------------------------

/// The lower case of a text.
pub uninterp spec fn lowered(s: Seq<char>) -> Seq<char>;

/// Whether a character is a lower case letter.
pub uninterp spec fn is_lower(c: char) -> bool;

/// Whether a character is an upper case letter.
pub uninterp spec fn is_upper(c: char) -> bool;

/// `str::to_lowercase`: the lower case of the text, as Unicode defines it. In
/// a text of ASCII characters the letters from `A` to `Z` alone change. Each
/// character becomes one or more characters, so nothing is lost of a text; `_`
/// is the lower case of itself alone, so none appears where there was none.
#[verifier::external_body]
fn lowercase(s: &str) -> (r: String)
    ensures
        r@ == lowered(s@),
        is_ascii_chars(s@) ==> r@ == s@.map_values(|c: char| text::ascii_lower(c)),
        s@.len() > 0 ==> r@.len() > 0,
        !s@.contains('_') ==> !r@.contains('_'),
{
    s.to_lowercase()
}

/// `char::is_lowercase`: whether Unicode counts the character as lower case.
/// Among the ASCII characters these are the letters from `a` to `z`.
#[verifier::external_body]
fn is_lowercase(c: char) -> (r: bool)
    ensures
        r == is_lower(c),
        (c as u32) < 128 ==> r == ('a' <= c && c <= 'z'),
{
    c.is_lowercase()
}

/// `char::is_uppercase`: whether Unicode counts the character as upper case.
/// Among the ASCII characters these are the letters from `A` to `Z`.
#[verifier::external_body]
fn is_uppercase(c: char) -> (r: bool)
    ensures
        r == is_upper(c),
        (c as u32) < 128 ==> r == ('A' <= c && c <= 'Z'),
{
    c.is_uppercase()
}

// --- words -------------------------------------------------------------------------

/// Whether a new word begins at position `i` of a name without `_`: a capital
/// after a small letter, or the last capital of a run before a small letter.
pub open spec fn word_begins(part: Seq<char>, i: int) -> bool {
    &&& i > 0
    &&& is_upper(part[i])
    &&& {
        ||| is_lower(part[i - 1])
        ||| is_upper(part[i - 1]) && i + 1 < part.len() && is_lower(part[i + 1])
    }
}

/// The words of the first `n` characters of a name without `_`.
pub open spec fn words(part: Seq<char>, n: int) -> Seq<Seq<char>>
    decreases n,
{
    if n <= 0 {
        Seq::empty()
    } else {
        let rest = words(part, n - 1);
        if n == 1 || word_begins(part, n - 1) {
            rest.push(seq![part[n - 1]])
        } else {
            rest.drop_last().push(rest.last().push(part[n - 1]))
        }
    }
}

/// The words of the parts of a name, in lower case.
pub open spec fn part_tokens(parts: Seq<Seq<char>>) -> Seq<Seq<char>>
    decreases parts.len(),
{
    if parts.len() == 0 {
        Seq::empty()
    } else {
        part_tokens(parts.drop_last()) + words(
            parts.last(),
            parts.last().len() as int,
        ).map_values(|w: Seq<char>| lowered(w))
    }
}

/// The words of a name, in lower case: it is cut at each `_` and where a new
/// word begins in camel case.
pub open spec fn tokens(s: Seq<char>) -> Seq<Seq<char>> {
    part_tokens(text::split(s, '_'))
}

/// Whether `c` is an ASCII capital.
pub open spec fn is_ascii_capital(c: char) -> bool {
    'A' <= c && c <= 'Z'
}

/// Whether `c` is an ASCII small letter.
pub open spec fn is_ascii_small(c: char) -> bool {
    'a' <= c && c <= 'z'
}

/// Whether a new word begins at position `i` of an ASCII name without `_`.
pub open spec fn ascii_word_begins(part: Seq<char>, i: int) -> bool {
    &&& i > 0
    &&& is_ascii_capital(part[i])
    &&& {
        ||| is_ascii_small(part[i - 1])
        ||| is_ascii_capital(part[i - 1]) && i + 1 < part.len() && is_ascii_small(part[i + 1])
    }
}

/// The words of the first `n` characters of an ASCII name without `_`.
pub open spec fn ascii_words(part: Seq<char>, n: int) -> Seq<Seq<char>>
    decreases n,
{
    if n <= 0 {
        Seq::empty()
    } else {
        let rest = ascii_words(part, n - 1);
        if n == 1 || ascii_word_begins(part, n - 1) {
            rest.push(seq![part[n - 1]])
        } else {
            rest.drop_last().push(rest.last().push(part[n - 1]))
        }
    }
}

/// The words of the parts of an ASCII name, in small letters.
pub open spec fn ascii_part_tokens(parts: Seq<Seq<char>>) -> Seq<Seq<char>>
    decreases parts.len(),
{
    if parts.len() == 0 {
        Seq::empty()
    } else {
        ascii_part_tokens(parts.drop_last()) + ascii_words(
            parts.last(),
            parts.last().len() as int,
        ).map_values(|w: Seq<char>| ascii_lowered(w))
    }
}

/// The words of an ASCII name, in small letters.
pub open spec fn ascii_tokens(s: Seq<char>) -> Seq<Seq<char>> {
    ascii_part_tokens(text::split(s, '_'))
}

/// `parts` written one after the other.
pub open spec fn glued(parts: Seq<Seq<char>>) -> Seq<char>
    decreases parts.len(),
{
    if parts.len() == 0 {
        Seq::empty()
    } else {
        glued(parts.drop_last()) + parts.last()
    }
}

/// The text without its `_`.
pub open spec fn unmarked(s: Seq<char>) -> Seq<char>
    decreases s.len(),
{
    if s.len() == 0 {
        Seq::empty()
    } else if s.last() == '_' {
        unmarked(s.drop_last())
    } else {
        unmarked(s.drop_last()).push(s.last())
    }
}

/// The words of the parts of a name, as they are written.
pub open spec fn part_words(parts: Seq<Seq<char>>) -> Seq<Seq<char>>
    decreases parts.len(),
{
    if parts.len() == 0 {
        Seq::empty()
    } else {
        part_words(parts.drop_last()) + words(parts.last(), parts.last().len() as int)
    }
}

/// The words of a name, as they are written.
pub open spec fn words_of(s: Seq<char>) -> Seq<Seq<char>> {
    part_words(text::split(s, '_'))
}

/// The text with a small letter for each ASCII capital.
pub open spec fn ascii_lowered(s: Seq<char>) -> Seq<char> {
    s.map_values(|c: char| text::ascii_lower(c))
}

proof fn lemma_glued_add(a: Seq<Seq<char>>, b: Seq<Seq<char>>)
    ensures
        glued(a + b) == glued(a) + glued(b),
    decreases b.len(),
{
    if b.len() == 0 {
        assert(a + b =~= a);
        assert(glued(a) + glued(b) =~= glued(a));
    } else {
        lemma_glued_add(a, b.drop_last());
        assert((a + b).drop_last() =~= a + b.drop_last());
        assert(glued(a) + glued(b.drop_last()) + b.last() =~= glued(a) + (glued(b.drop_last())
            + b.last()));
    }
}

/// What stands in one of the parts stands in what they make up.
proof fn lemma_glued_contains(parts: Seq<Seq<char>>, k: int, c: char)
    requires
        0 <= k < parts.len(),
        parts[k].contains(c),
    ensures
        glued(parts).contains(c),
    decreases parts.len(),
{
    let front = glued(parts.drop_last());
    text::lemma_add_contains(front, parts.last(), c);
    if k < parts.len() - 1 {
        assert(parts.drop_last()[k] == parts[k]);
        lemma_glued_contains(parts.drop_last(), k, c);
    }
}

/// The words of a part are not empty and make it up.
proof fn lemma_words(part: Seq<char>, n: int)
    requires
        0 <= n <= part.len(),
    ensures
        glued(words(part, n)) == part.take(n),
        forall|k: int| 0 <= k < words(part, n).len() ==> (#[trigger] words(part, n)[k]).len() > 0,
    decreases n,
{
    let all = words(part, n);
    if n == 0 {
        assert(part.take(0) =~= Seq::empty());
    } else {
        let rest = words(part, n - 1);
        let c = part[n - 1];
        lemma_words(part, n - 1);
        assert(part.take(n) =~= part.take(n - 1).push(c));
        if n == 1 || word_begins(part, n - 1) {
            assert(all.drop_last() =~= rest);
            assert(glued(all) =~= glued(rest).push(c));
        } else {
            lemma_words_nonempty(part, n - 1);
            assert(all.drop_last() =~= rest.drop_last());
            assert(glued(all) =~= glued(rest).push(c));
        }
    }
}

proof fn lemma_part_words(parts: Seq<Seq<char>>)
    ensures
        glued(part_words(parts)) == glued(parts),
        forall|k: int|
            0 <= k < part_words(parts).len() ==> (#[trigger] part_words(parts)[k]).len() > 0,
        part_tokens(parts) == part_words(parts).map_values(|w: Seq<char>| lowered(w)),
    decreases parts.len(),
{
    let low = |w: Seq<char>| lowered(w);
    if parts.len() > 0 {
        let front = parts.drop_last();
        let last = parts.last();
        let more = words(last, last.len() as int);
        lemma_part_words(front);
        lemma_words(last, last.len() as int);
        lemma_glued_add(part_words(front), more);
        assert(last.take(last.len() as int) =~= last);
        assert((part_words(front) + more).map_values(low) =~= part_words(front).map_values(low)
            + more.map_values(low));
        assert forall|k: int| 0 <= k < part_words(parts).len() implies (#[trigger] part_words(
            parts,
        )[k]).len() > 0 by {
            if k < part_words(front).len() {
                assert(part_words(parts)[k] == part_words(front)[k]);
            } else {
                assert(part_words(parts)[k] == more[k - part_words(front).len()]);
            }
        }
    } else {
        assert(part_tokens(parts) =~= part_words(parts).map_values(low));
    }
}

/// The pieces between the `_` make up the text without them.
proof fn lemma_unmarked(s: Seq<char>)
    ensures
        glued(text::split(s, '_')) == unmarked(s),
        !unmarked(s).contains('_'),
        forall|c: char| #[trigger] unmarked(s).contains(c) ==> s.contains(c),
    decreases s.len(),
{
    let all = text::split(s, '_');
    if s.len() == 0 {
        assert(all.drop_last() =~= Seq::empty());
        assert(glued(all.drop_last()) =~= Seq::empty());
        assert(all.last() =~= Seq::empty());
        assert(glued(all) =~= Seq::empty());
    } else {
        let front = s.drop_last();
        let before = text::split(front, '_');
        lemma_unmarked(front);
        text::lemma_split_nonempty(front, '_');
        assert(front.push(s.last()) =~= s);
        assert forall|c: char| #[trigger] unmarked(s).contains(c) implies s.contains(c) && c
            != '_' by {
            text::lemma_push_contains(front, s.last(), c);
            text::lemma_push_contains(unmarked(front), s.last(), c);
        }
        if s.last() == '_' {
            assert(all.drop_last() =~= before);
            assert(glued(all) =~= glued(before));
        } else {
            assert(all.drop_last() =~= before.drop_last());
            assert(glued(all) =~= glued(before).push(s.last()));
        }
    }
}

/// The words of a name are not empty, hold no `_`, and make up the name without
/// its `_`. Its tokens are their lower case, one for each.
pub proof fn law_words_make_up_a_name(s: Seq<char>, k: int)
    ensures
        glued(words_of(s)) == unmarked(s),
        0 <= k < words_of(s).len() ==> words_of(s)[k].len() > 0 && !words_of(s)[k].contains('_'),
        tokens(s) == words_of(s).map_values(|w: Seq<char>| lowered(w)),
{
    lemma_part_words(text::split(s, '_'));
    lemma_unmarked(s);
    if 0 <= k < words_of(s).len() && words_of(s)[k].contains('_') {
        lemma_glued_contains(words_of(s), k, '_');
    }
}

proof fn lemma_part_tokens_add(a: Seq<Seq<char>>, b: Seq<Seq<char>>)
    ensures
        part_tokens(a + b) == part_tokens(a) + part_tokens(b),
    decreases b.len(),
{
    if b.len() == 0 {
        assert(a + b =~= a);
        assert(part_tokens(a) + part_tokens(b) =~= part_tokens(a));
    } else {
        lemma_part_tokens_add(a, b.drop_last());
        assert((a + b).drop_last() =~= a + b.drop_last());
        assert(part_tokens(a + b) =~= part_tokens(a) + part_tokens(b));
    }
}

/// The tokens of two names with `_` between are those of the one and then those
/// of the other.
pub proof fn law_tokens_join(a: Seq<char>, b: Seq<char>)
    ensures
        tokens(a + "_"@ + b) == tokens(a) + tokens(b),
{
    assert("_"@ =~= seq!['_']) by {
        reveal_strlit("_");
    }
    text::lemma_split_add(a, b, '_');
    lemma_part_tokens_add(text::split(a, '_'), text::split(b, '_'));
}

/// The pieces of an ASCII text are ASCII.
proof fn lemma_split_ascii(s: Seq<char>, k: int)
    requires
        is_ascii_chars(s),
        0 <= k < text::split(s, '_').len(),
    ensures
        is_ascii_chars(text::split(s, '_')[k]),
{
    let piece = text::split(s, '_')[k];
    lemma_unmarked(s);
    assert forall|i: int| 0 <= i < piece.len() implies '\0' <= #[trigger] piece[i] <= '\u{7f}' by {
        assert(piece.contains(piece[i]));
        lemma_glued_contains(text::split(s, '_'), k, piece[i]);
        assert(unmarked(s).contains(piece[i]));
        assert(s.contains(piece[i]));
    }
}

/// The words of an ASCII text are ASCII.
proof fn lemma_words_ascii(part: Seq<char>, n: int, k: int)
    requires
        is_ascii_chars(part),
        0 <= n <= part.len(),
        0 <= k < words(part, n).len(),
    ensures
        is_ascii_chars(words(part, n)[k]),
{
    let word = words(part, n)[k];
    lemma_words(part, n);
    assert forall|i: int| 0 <= i < word.len() implies '\0' <= #[trigger] word[i] <= '\u{7f}' by {
        assert(word.contains(word[i]));
        lemma_glued_contains(words(part, n), k, word[i]);
        let j = choose|j: int| 0 <= j < n && part.take(n)[j] == word[i];
        assert(part[j] == word[i]);
    }
}

/// Lowering each of some ASCII texts lowers what they make up.
proof fn lemma_glued_lowered(parts: Seq<Seq<char>>)
    ensures
        glued(parts.map_values(|w: Seq<char>| ascii_lowered(w))) == ascii_lowered(glued(parts)),
    decreases parts.len(),
{
    let low = |w: Seq<char>| ascii_lowered(w);
    let all = parts.map_values(low);
    if parts.len() == 0 {
        assert(glued(all) =~= ascii_lowered(glued(parts)));
    } else {
        lemma_glued_lowered(parts.drop_last());
        assert(all.drop_last() =~= parts.drop_last().map_values(low));
        assert(glued(all) =~= ascii_lowered(glued(parts)));
    }
}

proof fn lemma_words_nonempty(part: Seq<char>, n: int)
    requires
        0 < n,
    ensures
        words(part, n).len() > 0,
    decreases n,
{
    if n > 1 {
        lemma_words_nonempty(part, n - 1);
    }
}

/// Whether a new word begins at position `i`.
fn boundary(part: &[char], i: usize) -> (r: bool)
    requires
        i < part.len(),
    ensures
        r == word_begins(part@, i as int),
        is_ascii_chars(part@) ==> r == ascii_word_begins(part@, i as int),
{
    if i == 0 || !is_uppercase(part[i]) {
        return false;
    }
    is_lowercase(part[i - 1]) || (is_uppercase(part[i - 1]) && part.len() - i > 1
        && is_lowercase(part[i + 1]))
}

/// Appends the words of `part`, in lower case.
fn push_words(part: &[char], out: &mut Vec<String>)
    ensures
        text::texts(final(out)@) == text::texts(old(out)@) + words(
            part@,
            part@.len() as int,
        ).map_values(|w: Seq<char>| lowered(w)),
        is_ascii_chars(part@) ==> words(part@, part@.len() as int) == ascii_words(
            part@,
            part@.len() as int,
        ),
        is_ascii_chars(part@) ==> text::texts(final(out)@) == text::texts(old(out)@) + words(
            part@,
            part@.len() as int,
        ).map_values(|w: Seq<char>| ascii_lowered(w)),
        !part@.contains('_') && all_tokens(text::texts(old(out)@)) ==> all_tokens(
            text::texts(final(out)@),
        ),
{
    let ghost before = text::texts(out@);
    let ghost low = |w: Seq<char>| lowered(w);
    let ghost plain = |w: Seq<char>| ascii_lowered(w);
    let mut cur: Vec<char> = Vec::new();
    if part.len() == 0 {
        proof {
            assert(before + words(part@, 0).map_values(low) =~= before);
            assert(before + words(part@, 0).map_values(plain) =~= before);
        }
        return;
    }
    let mut i: usize = 0;
    while i < part.len()
        invariant
            i <= part.len(),
            part.len() > 0,
            low == (|w: Seq<char>| lowered(w)),
            plain == (|w: Seq<char>| ascii_lowered(w)),
            i == 0 ==> text::texts(out@) == before && cur@.len() == 0,
            i > 0 ==> words(part@, i as int).len() > 0,
            i > 0 ==> cur@ == words(part@, i as int).last(),
            i > 0 ==> text::texts(out@) == before + words(
                part@,
                i as int,
            ).drop_last().map_values(low),
            is_ascii_chars(part@) ==> words(part@, i as int) == ascii_words(part@, i as int),
            i > 0 && is_ascii_chars(part@) ==> text::texts(out@) == before + words(
                part@,
                i as int,
            ).drop_last().map_values(plain),
            !part@.contains('_') && all_tokens(before) ==> all_tokens(text::texts(out@)),
        decreases part.len() - i,
    {
        let ghost old_words = words(part@, i as int);
        let ghost prev = out@;
        if boundary(part, i) {
            let word = lowercase(text::from_chars(cur.as_slice()).as_str());
            out.push(word);
            proof {
                lemma_word_kept(part@, i as int, old_words.len() - 1);
                assert(text::texts(out@) =~= text::texts(prev).push(word@));
                lemma_mapped_last(old_words, low);
                lemma_mapped_last(old_words, plain);
                assert(words(part@, i + 1).drop_last() =~= old_words);
            }
            cur = Vec::new();
        } else {
            proof {
                if i > 0 {
                    assert(words(part@, i + 1).drop_last() =~= old_words.drop_last());
                } else {
                    assert(words(part@, 1).drop_last() =~= Seq::empty());
                    assert(before + words(part@, 1).drop_last().map_values(low) =~= before);
                    assert(before + words(part@, 1).drop_last().map_values(plain) =~= before);
                }
            }
        }
        cur.push(part[i]);
        proof {
            lemma_words_nonempty(part@, i + 1);
            assert(cur@ =~= words(part@, i + 1).last());
        }
        i = i + 1;
    }
    let ghost prev = out@;
    let ghost all = words(part@, part@.len() as int);
    let word = lowercase(text::from_chars(cur.as_slice()).as_str());
    out.push(word);
    proof {
        lemma_word_kept(part@, part@.len() as int, all.len() - 1);
        assert(text::texts(out@) =~= text::texts(prev).push(word@));
        lemma_mapped_last(all, low);
        lemma_mapped_last(all, plain);
    }
}

/// Whether none of the texts is empty or holds `_`.
pub open spec fn all_tokens(ts: Seq<Seq<char>>) -> bool {
    forall|k: int| 0 <= k < ts.len() ==> (#[trigger] ts[k]).len() > 0 && !ts[k].contains('_')
}

/// A word is not empty, and is as plain as the part that it stands in.
proof fn lemma_word_kept(part: Seq<char>, n: int, k: int)
    requires
        0 <= n <= part.len(),
        0 <= k < words(part, n).len(),
    ensures
        words(part, n)[k].len() > 0,
        is_ascii_chars(part) ==> is_ascii_chars(words(part, n)[k]),
        !part.contains('_') ==> !words(part, n)[k].contains('_'),
{
    let word = words(part, n)[k];
    lemma_words(part, n);
    if is_ascii_chars(part) {
        lemma_words_ascii(part, n, k);
    }
    if word.contains('_') {
        lemma_glued_contains(words(part, n), k, '_');
        let j = choose|j: int| 0 <= j < n && part.take(n)[j] == '_';
        assert(part[j] == '_');
    }
}

proof fn lemma_mapped_last(all: Seq<Seq<char>>, f: spec_fn(Seq<char>) -> Seq<char>)
    requires
        all.len() > 0,
    ensures
        all.map_values(f) == all.drop_last().map_values(f).push(f(all.last())),
{
    assert(all.map_values(f) =~= all.drop_last().map_values(f).push(f(all.last())));
}

/// Splits an identifier into lowercased words at `_` and at camel case
/// boundaries: `render_HUDBar` into `render`, `hud`, `bar`. No word is empty or
/// holds `_`. Those of an ASCII name make up the name in small letters without
/// its `_`.
pub fn tokenize(s: &str) -> (r: Vec<String>)
    ensures
        text::texts(r@) == tokens(s@),
        all_tokens(tokens(s@)),
        is_ascii_chars(s@) ==> text::texts(r@) == ascii_tokens(s@),
        is_ascii_chars(s@) ==> glued(text::texts(r@)) == ascii_lowered(unmarked(s@)),
{
    let parts = text::split_chars(text::to_chars(s).as_slice(), '_');
    let ghost ps = text::split(s@, '_');
    let ghost plain = |w: Seq<char>| ascii_lowered(w);
    let mut r: Vec<String> = Vec::new();
    proof {
        assert(text::texts(r@) =~= Seq::empty());
        assert(ps.take(0) =~= Seq::empty());
        assert(part_words(ps.take(0)).map_values(plain) =~= Seq::empty());
    }
    for k in 0..parts.len()
        invariant
            parts@.map_values(|v: Vec<char>| v@) == ps,
            ps == text::split(s@, '_'),
            plain == (|w: Seq<char>| ascii_lowered(w)),
            text::texts(r@) == part_tokens(ps.take(k as int)),
            all_tokens(text::texts(r@)),
            is_ascii_chars(s@) ==> text::texts(r@) == part_words(ps.take(k as int)).map_values(
                plain,
            ),
            is_ascii_chars(s@) ==> text::texts(r@) == ascii_part_tokens(ps.take(k as int)),
    {
        proof {
            assert(ps.take(k + 1).drop_last() =~= ps.take(k as int));
            assert(ps[k as int] == parts@[k as int]@);
            text::lemma_split_pieces(s@, '_');
            if is_ascii_chars(s@) {
                lemma_split_ascii(s@, k as int);
            }
            let more = words(ps[k as int], ps[k as int].len() as int);
            let had = part_words(ps.take(k as int));
            assert((had + more).map_values(plain) =~= had.map_values(plain) + more.map_values(
                plain,
            ));
        }
        push_words(parts[k].as_slice(), &mut r);
    }
    proof {
        assert(ps.take(ps.len() as int) =~= ps);
        if is_ascii_chars(s@) {
            law_words_make_up_a_name(s@, 0);
            lemma_glued_lowered(words_of(s@));
        }
    }
    r
}

// --- edit distance -------------------------------------------------------------

pub open spec fn least(a: nat, b: nat) -> nat {
    if a <= b {
        a
    } else {
        b
    }
}

/// The number of insertions, deletions and replacements of single characters
/// that turn `a` into `b`, at the least.
pub open spec fn distance(a: Seq<char>, b: Seq<char>) -> nat
    decreases a.len() + b.len(),
{
    if a.len() == 0 {
        b.len()
    } else if b.len() == 0 {
        a.len()
    } else {
        let last: nat = if a.last() == b.last() {
            0
        } else {
            1
        };
        least(
            least(distance(a.drop_last(), b) + 1, distance(a, b.drop_last()) + 1),
            distance(a.drop_last(), b.drop_last()) + last,
        )
    }
}

/// The distance is at least the difference of the lengths, and at most the
/// length of the longer text.
pub proof fn law_distance_bounds(a: Seq<char>, b: Seq<char>)
    ensures
        a.len() - b.len() <= distance(a, b),
        b.len() - a.len() <= distance(a, b),
        distance(a, b) <= if a.len() > b.len() {
            a.len()
        } else {
            b.len()
        },
    decreases a.len() + b.len(),
{
    if a.len() > 0 && b.len() > 0 {
        law_distance_bounds(a.drop_last(), b);
        law_distance_bounds(a, b.drop_last());
        law_distance_bounds(a.drop_last(), b.drop_last());
    }
}

/// No detour is shorter: the distance of two texts is at most the sum of their
/// distances to a third one.
pub proof fn law_distance_triangle(a: Seq<char>, b: Seq<char>, c: Seq<char>)
    ensures
        distance(a, c) <= distance(a, b) + distance(b, c),
    decreases a.len() + b.len() + c.len(),
{
    if a.len() == 0 || b.len() == 0 || c.len() == 0 {
        law_distance_bounds(a, b);
        law_distance_bounds(b, c);
        law_distance_bounds(a, c);
    } else {
        let a1 = a.drop_last();
        let b1 = b.drop_last();
        let c1 = c.drop_last();
        law_distance_triangle(a1, b, c);
        law_distance_triangle(a, b, c1);
        law_distance_triangle(a, b1, c);
        law_distance_triangle(a, b1, c1);
        law_distance_triangle(a1, b1, c);
        law_distance_triangle(a1, b1, c1);
    }
}

/// The distance is the same both ways.
pub proof fn law_distance_symmetric(a: Seq<char>, b: Seq<char>)
    ensures
        distance(a, b) == distance(b, a),
    decreases a.len() + b.len(),
{
    if a.len() > 0 && b.len() > 0 {
        law_distance_symmetric(a.drop_last(), b);
        law_distance_symmetric(a, b.drop_last());
        law_distance_symmetric(a.drop_last(), b.drop_last());
    }
}

/// The distance is zero exactly between equal texts.
pub proof fn law_distance_zero(a: Seq<char>, b: Seq<char>)
    ensures
        distance(a, b) == 0 <==> a == b,
    decreases a.len() + b.len(),
{
    if a.len() > 0 && b.len() > 0 {
        law_distance_zero(a.drop_last(), b.drop_last());
        if distance(a, b) == 0 {
            assert(a =~= a.drop_last().push(a.last()));
            assert(b =~= b.drop_last().push(b.last()));
        }
    } else if distance(a, b) == 0 {
        assert(a =~= b);
    }
}

/// The edit distance of two texts.
pub fn levenshtein(a: &[char], b: &[char]) -> (r: usize)
    ensures
        r == distance(a@, b@),
{
    let n: usize = a.len();
    let m: usize = b.len();
    if n == 0 {
        return m;
    }
    if m == 0 {
        return n;
    }
    let mut prev: Vec<usize> = Vec::new();
    for j in 0..m
        invariant
            prev.len() == j,
            forall|k: int| 0 <= k < j ==> #[trigger] prev@[k] == k,
    {
        prev.push(j);
    }
    prev.push(m);
    let ghost (x, y) = (a@, b@);
    proof {
        assert forall|k: int| 0 <= k <= m implies #[trigger] prev@[k] == distance(
            x.take(0),
            y.take(k),
        ) by {}
    }
    for i in 0..n
        invariant
            n == a.len(),
            m == b.len(),
            x == a@,
            y == b@,
            prev.len() == m + 1,
            forall|k: int|
                0 <= k <= m ==> #[trigger] prev@[k] == distance(x.take(i as int), y.take(k)),
    {
        let ghost xi = x.take(i as int);
        let ghost xn = x.take(i + 1);
        let mut cur: Vec<usize> = Vec::new();
        cur.push(i + 1);
        proof {
            assert(xn.drop_last() =~= xi);
            assert(xn.last() == x[i as int]);
            assert(distance(xn, y.take(0)) == i + 1);
        }
        for j in 0..m
            invariant
                i < n,
                n == a.len(),
                m == b.len(),
                x == a@,
                y == b@,
                xi == x.take(i as int),
                xn == x.take(i + 1),
                xn.drop_last() == xi,
                xn.last() == x[i as int],
                prev.len() == m + 1,
                forall|k: int| 0 <= k <= m ==> #[trigger] prev@[k] == distance(xi, y.take(k)),
                cur.len() == j + 1,
                forall|k: int| 0 <= k <= j ==> #[trigger] cur@[k] == distance(xn, y.take(k)),
        {
            let cost: usize = if a[i] == b[j] {
                0
            } else {
                1
            };
            proof {
                let yn = y.take(j + 1);
                assert(yn.drop_last() =~= y.take(j as int));
                assert(yn.last() == y[j as int]);
                assert(prev@[j + 1] == distance(xi, yn));
                assert(prev@[j as int] == distance(xi, y.take(j as int)));
                assert(cur@[j as int] == distance(xn, y.take(j as int)));
                law_distance_bounds(xi, yn);
                law_distance_bounds(xn, y.take(j as int));
                law_distance_bounds(xi, y.take(j as int));
            }
            let up: usize = prev[j + 1] + 1;
            let left: usize = cur[j].saturating_add(1);
            let diagonal: usize = prev[j] + cost;
            let mut best: usize = if up <= left {
                up
            } else {
                left
            };
            if diagonal < best {
                best = diagonal;
            }
            cur.push(best);
        }
        prev = cur;
    }
    proof {
        assert(x.take(n as int) =~= x);
        assert(y.take(m as int) =~= y);
    }
    prev[m]
}

// --- pairs of neighbours -----------------------------------------------------------

/// The pairs of neighbouring characters of a text, in their order.
pub open spec fn pairs(s: Seq<char>) -> Seq<(char, char)> {
    Seq::new((s.len() - 1) as nat, |i: int| (s[i], s[i + 1]))
}

/// The set of pairs of neighbouring characters of a text.
pub open spec fn pair_set(s: Seq<char>) -> Set<(char, char)> {
    if s.len() == 0 {
        Set::empty()
    } else {
        pairs(s).to_set()
    }
}

/// Whether `p` is in `v`.
fn has_pair(v: &Vec<(char, char)>, p: (char, char)) -> (r: bool)
    ensures
        r == v@.contains(p),
{
    for k in 0..v.len()
        invariant
            forall|j: int| 0 <= j < k ==> v@[j] != p,
    {
        if v[k].0 == p.0 && v[k].1 == p.1 {
            proof {
                assert(v@[k as int] == p);
            }
            return true;
        }
    }
    false
}

/// The pairs of neighbouring characters of a text, each once.
pub fn bigrams(s: &[char]) -> (r: Vec<(char, char)>)
    ensures
        r@.no_duplicates(),
        r@.to_set() == pair_set(s@),
{
    let mut r: Vec<(char, char)> = Vec::new();
    if s.len() == 0 {
        proof {
            assert(r@.to_set() =~= Set::empty());
        }
        return r;
    }
    let ghost ps = pairs(s@);
    proof {
        assert(r@.to_set() =~= ps.take(0).to_set());
    }
    for i in 0..s.len() - 1
        invariant
            s.len() > 0,
            ps == pairs(s@),
            r@.no_duplicates(),
            r@.to_set() == ps.take(i as int).to_set(),
    {
        let p = (s[i], s[i + 1]);
        proof {
            assert(ps.take(i + 1) =~= ps.take(i as int).push(p));
            assert(ps.take(i + 1).to_set() =~= ps.take(i as int).to_set().insert(p)) by {
                text::lemma_push_set(ps.take(i as int), p);
            }
        }
        let ghost before = r@;
        if !has_pair(&r, p) {
            r.push(p);
            proof {
                text::lemma_push_set(before, p);
            }
        } else {
            proof {
                assert(before.to_set().contains(p));
                assert(before.to_set().insert(p) =~= before.to_set());
            }
        }
    }
    proof {
        assert(ps.take(ps.len() as int) =~= ps);
    }
    r
}

/// The number of pairs that are in both of two lists without repetitions.
fn count_shared(a: &Vec<(char, char)>, b: &Vec<(char, char)>) -> (r: usize)
    requires
        a@.no_duplicates(),
    ensures
        r == a@.to_set().intersect(b@.to_set()).len(),
        r <= a.len(),
{
    let mut r: usize = 0;
    let ghost mut found: Seq<(char, char)> = Seq::empty();
    for k in 0..a.len()
        invariant
            a@.no_duplicates(),
            r == found.len(),
            r <= k,
            found.no_duplicates(),
            forall|x: (char, char)| #[trigger]
                found.contains(x) <==> a@.take(k as int).contains(x) && b@.contains(x),
    {
        proof {
            assert(a@.take(k + 1) =~= a@.take(k as int).push(a@[k as int]));
            lemma_push_contains(a@.take(k as int), a@[k as int]);
            if a@.take(k as int).contains(a@[k as int]) {
                let j = choose|j: int| 0 <= j < k && a@.take(k as int)[j] == a@[k as int];
                assert(a@[j] == a@[k as int]);
            }
            assert(!found.contains(a@[k as int]));
        }
        if has_pair(b, a[k]) {
            r = r + 1;
            proof {
                lemma_push_contains(found, a@[k as int]);
                found = found.push(a@[k as int]);
            }
        }
    }
    proof {
        assert(a@.take(a@.len() as int) =~= a@);
        assert(found.to_set() =~= a@.to_set().intersect(b@.to_set())) by {
            assert forall|x: (char, char)| found.to_set().contains(x) <==> a@.to_set().intersect(
                b@.to_set(),
            ).contains(x) by {
                assert(found.contains(x) <==> a@.contains(x) && b@.contains(x));
            }
        }
        found.unique_seq_to_set();
    }
    r
}

proof fn lemma_push_contains<A>(s: Seq<A>, a: A)
    ensures
        forall|x: A| #[trigger] s.push(a).contains(x) <==> s.contains(x) || x == a,
{
    text::lemma_push_set(s, a);
    assert forall|x: A| #[trigger] s.push(a).contains(x) <==> s.contains(x) || x == a by {
        assert(s.push(a).to_set().contains(x) <==> s.to_set().insert(a).contains(x));
    }
}

// --- a quotient in double precision --------------------------------------------------

/// `n / d` rounded to the nearest integer, and to the even one of two.
pub open spec fn nearest(n: nat, d: nat) -> nat {
    let q = n / d;
    let twice = 2 * (n % d);
    if twice < d || (twice == d && q % 2 == 0) {
        q
    } else {
        q + 1
    }
}

/// The power of two by which `part` has to be multiplied to reach `whole`.
pub open spec fn lift(part: nat, whole: nat) -> nat
    decreases (if part < whole { whole - part } else { 0 }),
{
    if part == 0 || part >= whole {
        1
    } else {
        2 * lift(2 * part, whole)
    }
}

/// `2^52`: a double holds 53 binary digits.
pub const DIGITS: u128 = 4503599627370496;

/// `part / whole * 200`, rounded down, where the quotient and the product are
/// each rounded to a double. `part` is at most `whole`.
pub open spec fn overlap_points(part: nat, whole: nat) -> nat {
    if part == 0 {
        0
    } else {
        let power = lift(part, whole);
        let quotient = nearest(part * power * DIGITS as nat, whole);
        let product = quotient * 200;
        let unit: nat = if product < 256 * DIGITS {
            128
        } else {
            256
        };
        (nearest(product, unit) * unit) / (DIGITS as nat * power)
    }
}

fn round_quotient(n: u128, d: u128) -> (r: u128)
    requires
        0 < d < 0x8000_0000_0000_0000_0000_0000_0000_0000,
        n < 0x8000_0000_0000_0000_0000_0000_0000_0000,
    ensures
        r == nearest(n as nat, d as nat),
        r <= n / d + 1,
{
    let q: u128 = n / d;
    let twice: u128 = 2 * (n % d);
    proof {
        assert(q <= n) by (nonlinear_arith)
            requires
                q == n / d,
                d > 0,
        ;
    }
    if twice < d || (twice == d && q % 2 == 0) {
        q
    } else {
        q + 1
    }
}

fn points(part: u128, whole: u128) -> (r: u128)
    requires
        part <= whole < 0x4_0000_0000_0000_0000,
    ensures
        r == overlap_points(part as nat, whole as nat),
        r <= 0x200,
{
    if part == 0 {
        return 0;
    }
    let mut n: u128 = part;
    let mut power: u128 = 1;
    while n < whole
        invariant
            0 < part <= whole < 0x4_0000_0000_0000_0000,
            n == part * power,
            0 < n,
            0 < power <= n,
            n < 2 * whole,
            lift(part as nat, whole as nat) == power * lift(n as nat, whole as nat),
        decreases 2 * whole - n,
    {
        proof {
            let rest = lift((2 * n) as nat, whole as nat);
            assert(power * (2 * rest) == (2 * power) * rest) by (nonlinear_arith);
            assert(part * (2 * power) == 2 * (part * power)) by (nonlinear_arith);
        }
        n = 2 * n;
        power = 2 * power;
    }
    proof {
        assert(n * DIGITS < 0x8_0000_0000_0000_0000 * DIGITS) by (nonlinear_arith)
            requires
                n < 0x8_0000_0000_0000_0000,
                DIGITS == 4503599627370496,
        ;
        assert(part * power * DIGITS == n * DIGITS) by (nonlinear_arith)
            requires
                n == part * power,
        ;
    }
    let quotient = round_quotient(n * DIGITS, whole);
    proof {
        assert((n * DIGITS) / (whole as int) <= 2 * DIGITS) by (nonlinear_arith)
            requires
                0 < whole,
                n < 2 * whole,
                DIGITS == 4503599627370496,
        ;
    }
    let product: u128 = quotient * 200;
    let unit: u128 = if product < 256 * DIGITS {
        128
    } else {
        256
    };
    let rounded = round_quotient(product, unit);
    let scale: u128 = DIGITS * power;
    proof {
        assert(rounded * unit <= 512 * DIGITS);
        let total = rounded * unit;
        assert(total / (scale as int) <= 512) by (nonlinear_arith)
            requires
                0 <= total <= 512 * DIGITS,
                scale == DIGITS * power,
                power >= 1,
                DIGITS == 4503599627370496,
        ;
        assert(lift(n as nat, whole as nat) == 1);
        assert(power * 1 == power) by (nonlinear_arith);
        assert(quotient == nearest(part as nat * power as nat * DIGITS as nat, whole as nat));
    }
    (rounded * unit) / scale
}

// --- scores ------------------------------------------------------------------------

/// The length of the longest common beginning.
pub open spec fn shared_prefix(a: Seq<char>, b: Seq<char>) -> nat
    decreases a.len(),
{
    if a.len() > 0 && b.len() > 0 && a[0] == b[0] {
        1 + shared_prefix(a.drop_first(), b.drop_first())
    } else {
        0
    }
}

/// How many of `a` are among `b`.
pub open spec fn shared_words(a: Seq<Seq<char>>, b: Seq<Seq<char>>) -> nat
    decreases a.len(),
{
    if a.len() == 0 {
        0
    } else {
        shared_words(a.drop_last(), b) + if b.contains(a.last()) {
            1nat
        } else {
            0nat
        }
    }
}

/// The number of bytes of a text.
pub open spec fn bytes(s: Seq<char>) -> nat {
    encode_utf8(s).len()
}

pub open spec fn longer(q: Seq<char>, c: Seq<char>) -> nat {
    if bytes(q) >= bytes(c) {
        bytes(q)
    } else {
        bytes(c)
    }
}

/// One holds the other, and both are more than two bytes long.
pub open spec fn one_holds_other(q: Seq<char>, c: Seq<char>) -> bool {
    bytes(q) >= 3 && bytes(c) >= 3 && (text::has_text(c, q) || text::has_text(q, c))
}

/// At most 34 edits for each 100 bytes of the longer one, which has at least four.
pub open spec fn close_typo(q: Seq<char>, c: Seq<char>) -> bool {
    longer(q, c) >= 4 && 50 * distance(q, c) <= 17 * longer(q, c)
}

/// The number of pairs of neighbours that are in both texts, and in any.
pub open spec fn pairs_in_both(q: Seq<char>, c: Seq<char>) -> nat {
    pair_set(q).intersect(pair_set(c)).len()
}

pub open spec fn pairs_in_any(q: Seq<char>, c: Seq<char>) -> nat {
    (pair_set(q) + pair_set(c)).len()
}

/// Whether a candidate has anything to do with the query. `q` and `c` are their
/// lower cases, `qt` and `ct` their words.
pub open spec fn alike(
    q: Seq<char>,
    c: Seq<char>,
    qt: Seq<Seq<char>>,
    ct: Seq<Seq<char>>,
) -> bool {
    ||| one_holds_other(q, c)
    ||| shared_words(qt, ct) > 0
    ||| pairs_in_any(q, c) > 0 && 2 * pairs_in_both(q, c) >= pairs_in_any(q, c)
    ||| close_typo(q, c) && shared_prefix(q, c) >= 2
}

/// The points for one text holding the other.
pub open spec fn holding_points(q: Seq<char>, c: Seq<char>) -> nat {
    if one_holds_other(q, c) {
        (if text::has_text(c, q) {
            200nat
        } else {
            0nat
        }) + (if text::has_text(q, c) {
            100nat
        } else {
            0nat
        })
    } else {
        0
    }
}

/// The points for edits: four for each byte of the longer text over the
/// distance, and sixty for at most two edits where it has at least four bytes.
pub open spec fn edit_points(q: Seq<char>, c: Seq<char>) -> nat {
    (longer(q, c) - distance(q, c)) as nat * 4 + if longer(q, c) >= 4 && distance(q, c) <= 2 {
        60nat
    } else {
        0nat
    }
}

/// How well a candidate matches a query: 10000 where they differ in letter
/// case alone, 0 where they have nothing to do with each other.
pub open spec fn points_of(
    q: Seq<char>,
    c: Seq<char>,
    qt: Seq<Seq<char>>,
    ct: Seq<Seq<char>>,
) -> nat {
    if q == c {
        10000
    } else if !alike(q, c, qt, ct) {
        0
    } else {
        holding_points(q, c) + shared_words(qt, ct) * 100 + overlap_points(
            pairs_in_both(q, c),
            pairs_in_any(q, c),
        ) + shared_prefix(q, c) * 25 + edit_points(q, c)
    }
}

/// How well `cand` matches `query`.
pub open spec fn score_of(query: Seq<char>, cand: Seq<char>) -> nat {
    points_of(lowered(query), lowered(cand), tokens(query), tokens(cand))
}

/// How well one ASCII identifier matches another.
pub open spec fn ascii_score_of(query: Seq<char>, cand: Seq<char>) -> nat {
    points_of(
        ascii_lowered(query),
        ascii_lowered(cand),
        ascii_tokens(query),
        ascii_tokens(cand),
    )
}

/// A text has at least as many bytes as characters.
proof fn lemma_bytes(s: Seq<char>)
    ensures
        s.len() <= bytes(s),
    decreases s.len(),
{
    if s.len() > 0 {
        lemma_bytes(s.drop_first());
    }
}

fn common_prefix(a: &[char], b: &[char]) -> (r: usize)
    ensures
        r == shared_prefix(a@, b@),
{
    let mut k: usize = 0;
    proof {
        assert(a@.skip(0) =~= a@);
        assert(b@.skip(0) =~= b@);
    }
    while k < a.len() && k < b.len()
        invariant
            k <= a.len(),
            k <= b.len(),
            shared_prefix(a@, b@) == k + shared_prefix(a@.skip(k as int), b@.skip(k as int)),
        decreases a.len() - k,
    {
        proof {
            assert(a@.skip(k as int).drop_first() =~= a@.skip(k + 1));
            assert(b@.skip(k as int).drop_first() =~= b@.skip(k + 1));
        }
        if a[k] != b[k] {
            return k;
        }
        k = k + 1;
    }
    k
}

fn count_words(a: &Vec<String>, b: &Vec<String>) -> (r: usize)
    ensures
        r == shared_words(text::texts(a@), text::texts(b@)),
        r <= a.len(),
{
    let ghost x = text::texts(a@);
    let ghost y = text::texts(b@);
    let mut r: usize = 0;
    proof {
        assert(x.take(0) =~= Seq::empty());
    }
    for k in 0..a.len()
        invariant
            x == text::texts(a@),
            y == text::texts(b@),
            r <= k,
            r == shared_words(x.take(k as int), y),
    {
        proof {
            assert(x.take(k + 1).drop_last() =~= x.take(k as int));
            assert(x[k as int] == a@[k as int]@);
        }
        if text::is_among(b, a[k].as_str()) {
            r = r + 1;
        }
    }
    proof {
        assert(x.take(x.len() as int) =~= x);
    }
    r
}

/// The number of pairs of neighbours that are in both texts, and in any.
fn count_pairs(q: &[char], c: &[char]) -> (r: (u128, u128))
    ensures
        r.0 == pairs_in_both(q@, c@),
        r.1 == pairs_in_any(q@, c@),
        r.0 <= r.1 < 0x4_0000_0000_0000_0000,
{
    let qb = bigrams(q);
    let cb = bigrams(c);
    let both: usize = count_shared(&qb, &cb);
    proof {
        let (x, y) = (pair_set(q@), pair_set(c@));
        qb@.unique_seq_to_set();
        cb@.unique_seq_to_set();
        vstd::set_lib::lemma_set_intersect_union_lens(x, y);
        vstd::set_lib::lemma_len_intersect(y, x);
        assert(x.intersect(y) =~= y.intersect(x));
    }
    (both as u128, qb.len() as u128 + cb.len() as u128 - both as u128)
}

proof fn lemma_prefix_bound(a: Seq<char>, b: Seq<char>)
    ensures
        shared_prefix(a, b) <= a.len(),
    decreases a.len(),
{
    if a.len() > 0 && b.len() > 0 && a[0] == b[0] {
        lemma_prefix_bound(a.drop_first(), b.drop_first());
    }
}

/// How well a candidate matches a query: `q` and `c` are their lower cases,
/// `qt` and `ct` their words.
pub fn score_parts(q: &str, c: &str, qt: &Vec<String>, ct: &Vec<String>) -> (r: u128)
    ensures
        r == points_of(q@, c@, text::texts(qt@), text::texts(ct@)),
{
    if text::same_text(q, c) {
        return 10000;
    }
    let qv = text::to_chars(q);
    let cv = text::to_chars(c);
    let ql: usize = q.as_bytes().len();
    let cl: usize = c.as_bytes().len();
    let maxlen: usize = if ql >= cl {
        ql
    } else {
        cl
    };
    proof {
        assert(qv@ == q@ && cv@ == c@);
        assert(ql == bytes(q@) && cl == bytes(c@));
        lemma_bytes(q@);
        lemma_bytes(c@);
        law_distance_bounds(q@, c@);
        lemma_prefix_bound(q@, c@);
    }
    let (both, any) = count_pairs(qv.as_slice(), cv.as_slice());
    let shared: usize = count_words(qt, ct);
    let lcp: usize = common_prefix(qv.as_slice(), cv.as_slice());
    let lev: usize = levenshtein(qv.as_slice(), cv.as_slice());
    let c_holds = text::holds(cv.as_slice(), qv.as_slice());
    let q_holds = text::holds(qv.as_slice(), cv.as_slice());
    let substring_hit = ql >= 3 && cl >= 3 && (c_holds || q_holds);
    let typo = maxlen >= 4 && 50 * (lev as u128) <= 17 * (maxlen as u128);
    let overlap = any > 0 && 2 * both >= any;
    if !(substring_hit || shared > 0 || overlap || (typo && lcp >= 2)) {
        return 0;
    }
    let mut s: u128 = 0;
    if substring_hit {
        if c_holds {
            s = s + 200;
        }
        if q_holds {
            s = s + 100;
        }
    }
    s = s + shared as u128 * 100;
    s = s + points(both, any);
    s = s + lcp as u128 * 25;
    s = s + (maxlen - lev) as u128 * 4;
    if maxlen >= 4 && lev <= 2 {
        s = s + 60;
    }
    s
}

/// Scores how well `cand` matches `query`. Returns 0 when there is no real
/// signal; otherwise a composite of substring, word overlap, overlap of
/// neighbouring characters, longest common prefix, and edit distance.
pub fn score(query: &str, cand: &str) -> (r: u128)
    ensures
        r == score_of(query@, cand@),
        is_ascii_chars(query@) && is_ascii_chars(cand@) ==> r == ascii_score_of(query@, cand@),
{
    score_parts(
        lowercase(query).as_str(),
        lowercase(cand).as_str(),
        &tokenize(query),
        &tokenize(cand),
    )
}

// --- suggestions ---------------------------------------------------------------------

/// The score below which a candidate is not suggested.
pub const FLOOR: u128 = 60;

/// The candidates for a query among identifiers, with their scores: the
/// identifiers of more than one byte that differ from the query and reach the
/// floor.
pub open spec fn candidates(query: Seq<char>, idents: Seq<Seq<char>>) -> Seq<(nat, Seq<char>)>
    decreases idents.len(),
{
    if idents.len() == 0 {
        Seq::empty()
    } else {
        let rest = candidates(query, idents.drop_last());
        let name = idents.last();
        if name != query && bytes(name) > 1 && score_of(query, name) >= FLOOR {
            rest.push((score_of(query, name), name))
        } else {
            rest
        }
    }
}

/// Whether `a` is listed before `b`: by falling score, then alphabetically.
pub open spec fn ranks(a: (nat, Seq<char>), b: (nat, Seq<char>)) -> bool {
    a.0 > b.0 || (a.0 == b.0 && order::not_after(a.1, b.1))
}

pub open spec fn rank_order() -> spec_fn((nat, Seq<char>), (nat, Seq<char>)) -> bool {
    |a: (nat, Seq<char>), b: (nat, Seq<char>)| ranks(a, b)
}

/// The candidates as they are listed.
pub open spec fn ranked(query: Seq<char>, idents: Seq<Seq<char>>) -> Seq<(nat, Seq<char>)> {
    candidates(query, idents).sort_by(rank_order())
}

/// At most `n` suggestions for a query.
pub open spec fn suggestions(query: Seq<char>, idents: Seq<Seq<char>>, n: nat) -> Seq<Seq<char>> {
    let all = ranked(query, idents);
    all.take(
        if n < all.len() {
            n as int
        } else {
            all.len() as int
        },
    ).map_values(|e: (nat, Seq<char>)| e.1)
}

proof fn lemma_ranks_total()
    ensures
        vstd::relations::total_ordering(rank_order()),
{
    let r = rank_order();
    let q = |a: Seq<char>, b: Seq<char>| order::not_after(a, b);
    order::lemma_total_order();
    assert(forall|x: Seq<char>| #[trigger] q(x, x));
    assert forall|x: (nat, Seq<char>)| #[trigger] r(x, x) by {
        assert(q(x.1, x.1));
    }
    assert forall|x: (nat, Seq<char>), y: (nat, Seq<char>)|
        #[trigger] r(x, y) && #[trigger] r(y, x) implies x == y by {
        assert(q(x.1, y.1) && q(y.1, x.1));
    }
    assert forall|x: (nat, Seq<char>), y: (nat, Seq<char>)|
        #[trigger] r(x, y) || #[trigger] r(y, x) by {
        assert(q(x.1, y.1) || q(y.1, x.1));
    }
    assert forall|x: (nat, Seq<char>), y: (nat, Seq<char>), z: (nat, Seq<char>)|
        #[trigger] r(x, y) && #[trigger] r(y, z) implies r(x, z) by {
        if x.0 == y.0 && y.0 == z.0 {
            assert(q(x.1, y.1) && q(y.1, z.1));
            assert(q(x.1, z.1));
        }
    }
}

spec fn entries_view(v: Seq<(u128, String)>) -> Seq<(nat, Seq<char>)> {
    v.map_values(|e: (u128, String)| (e.0 as nat, e.1@))
}

/// Every candidate is one of the identifiers.
proof fn lemma_candidates_from(query: Seq<char>, idents: Seq<Seq<char>>)
    ensures
        forall|e: (nat, Seq<char>)| #[trigger]
            candidates(query, idents).contains(e) ==> {
                &&& idents.contains(e.1)
                &&& e.1 != query
                &&& bytes(e.1) > 1
                &&& e.0 == score_of(query, e.1)
                &&& e.0 >= FLOOR
            },
    decreases idents.len(),
{
    if idents.len() > 0 {
        let rest = idents.drop_last();
        lemma_candidates_from(query, rest);
        let all = candidates(query, idents);
        assert forall|e: (nat, Seq<char>)| #[trigger] all.contains(e) implies {
            &&& idents.contains(e.1)
            &&& e.1 != query
            &&& bytes(e.1) > 1
            &&& e.0 == score_of(query, e.1)
            &&& e.0 >= FLOOR
        } by {
            let k = choose|k: int| 0 <= k < all.len() && all[k] == e;
            if k < candidates(query, rest).len() {
                assert(candidates(query, rest)[k] == e);
                assert(candidates(query, rest).contains(e));
                let j = choose|j: int| 0 <= j < rest.len() && rest[j] == e.1;
                assert(idents[j] == e.1);
            } else {
                assert(idents[idents.len() - 1] == e.1);
            }
        }
    }
}

/// The candidates among the first identifiers are alphabetically before the next
/// one.
proof fn lemma_candidates_before(
    query: Seq<char>,
    idents: Seq<Seq<char>>,
    k: int,
    listed: Seq<(nat, Seq<char>)>,
)
    requires
        order::ascending(idents),
        0 <= k < idents.len(),
        listed.to_multiset() == candidates(query, idents.take(k)).to_multiset(),
    ensures
        forall|i: int| 0 <= i < listed.len() ==> order::before((#[trigger] listed[i]).1, idents[k]),
{
    assert forall|i: int| 0 <= i < listed.len() implies order::before(
        (#[trigger] listed[i]).1,
        idents[k],
    ) by {
        lemma_candidates_from(query, idents.take(k));
        vstd::seq_lib::to_multiset_contains(listed, listed[i]);
        vstd::seq_lib::to_multiset_contains(candidates(query, idents.take(k)), listed[i]);
        assert(listed.contains(listed[i]));
        let j = choose|j: int| 0 <= j < k && idents.take(k)[j] == listed[i].1;
        assert(order::before(idents[j], idents[k]));
    }
}

/// The place of a candidate with the score `s` that is alphabetically after all
/// that are listed.
fn rank_slot(v: &Vec<(u128, String)>, s: u128) -> (r: usize)
    requires
        forall|i: int, j: int| 0 <= i < j < v.len() ==> (#[trigger] v@[i]).0 >= (#[trigger] v@[j]).0,
    ensures
        r <= v.len(),
        forall|k: int| 0 <= k < r ==> (#[trigger] v@[k]).0 >= s,
        forall|k: int| r <= k < v.len() ==> (#[trigger] v@[k]).0 < s,
{
    let mut k: usize = 0;
    while k < v.len() && v[k].0 >= s
        invariant
            k <= v.len(),
            forall|j: int| 0 <= j < k ==> (#[trigger] v@[j]).0 >= s,
        decreases v.len() - k,
    {
        k = k + 1;
    }
    k
}

/// Lists a candidate that is alphabetically after all that are listed.
fn put_ranked(found: &mut Vec<(u128, String)>, s: u128, name: &String)
    requires
        vstd::relations::sorted_by(entries_view(old(found)@), rank_order()),
        forall|i: int|
            0 <= i < old(found)@.len() ==> order::before(
                (#[trigger] entries_view(old(found)@)[i]).1,
                name@,
            ),
    ensures
        vstd::relations::sorted_by(entries_view(final(found)@), rank_order()),
        entries_view(final(found)@).to_multiset() == entries_view(
            old(found)@,
        ).to_multiset().insert((s as nat, name@)),
{
    let ghost leq = rank_order();
    let ghost before = entries_view(found@);
    let ghost e = (s as nat, name@);
    proof {
        assert forall|i: int, j: int| 0 <= i < j < found.len() implies (
        #[trigger] found@[i]).0 >= (#[trigger] found@[j]).0 by {
            assert(leq(before[i], before[j]));
        }
    }
    let slot = rank_slot(found, s);
    proof {
        assert forall|i: int| 0 <= i < slot implies #[trigger] leq(before[i], e) by {
            assert(found@[i].0 >= s);
            assert(order::before(before[i].1, name@));
            order::lemma_not_both_before(before[i].1, name@);
        }
        assert forall|i: int| slot <= i < before.len() implies #[trigger] leq(e, before[i]) by {
            assert(found@[i].0 < s);
        }
        order::lemma_insert_sorted(before, slot as int, e, leq);
    }
    found.insert(slot, (s, name.clone()));
    proof {
        assert(entries_view(found@) =~= before.insert(slot as int, e));
    }
}

/// Lists the identifier at position `k` if it is a candidate.
fn consider(query: &str, idents: &NameSet, k: usize, found: &mut Vec<(u128, String)>)
    requires
        k < idents@.len(),
        order::ascending(idents@),
        vstd::relations::sorted_by(entries_view(old(found)@), rank_order()),
        entries_view(old(found)@).to_multiset() == candidates(
            query@,
            idents@.take(k as int),
        ).to_multiset(),
    ensures
        vstd::relations::sorted_by(entries_view(final(found)@), rank_order()),
        entries_view(final(found)@).to_multiset() == candidates(
            query@,
            idents@.take(k + 1),
        ).to_multiset(),
{
    let ghost ids = idents@;
    let name = idents.at(k);
    proof {
        assert(ids.take(k + 1).drop_last() =~= ids.take(k as int));
        assert(ids.take(k + 1).last() == name@);
    }
    if text::same_text(name.as_str(), query) || name.as_str().as_bytes().len() <= 1 {
        return;
    }
    let s = score(query, name.as_str());
    if s < FLOOR {
        return;
    }
    proof {
        lemma_candidates_before(query@, ids, k as int, entries_view(found@));
        vstd::seq_lib::to_multiset_build(
            candidates(query@, ids.take(k as int)),
            (s as nat, name@),
        );
    }
    put_ranked(found, s, name);
}

/// Ranks `idents` by similarity to `query`. Returns up to `n` candidates above
/// the floor; empty if nothing crosses the bar.
pub fn suggest(query: &str, idents: &NameSet, n: usize) -> (r: Vec<String>)
    ensures
        text::texts(r@) == suggestions(query@, idents@, n as nat),
{
    let ghost ids = idents@;
    let len: usize = idents.len();
    let mut found: Vec<(u128, String)> = Vec::new();
    proof {
        assert(entries_view(found@) =~= Seq::empty());
        assert(ids.take(0) =~= Seq::empty());
    }
    for k in 0..len
        invariant
            len == ids.len(),
            ids == idents@,
            order::ascending(ids),
            vstd::relations::sorted_by(entries_view(found@), rank_order()),
            entries_view(found@).to_multiset() == candidates(
                query@,
                ids.take(k as int),
            ).to_multiset(),
    {
        consider(query, idents, k, &mut found);
    }
    proof {
        assert(ids.take(ids.len() as int) =~= ids);
        lemma_ranks_total();
        order::lemma_is_sort(candidates(query@, ids), entries_view(found@), rank_order());
    }
    let ghost all = ranked(query@, ids);
    let mut r: Vec<String> = Vec::new();
    let m: usize = if n < found.len() {
        n
    } else {
        found.len()
    };
    for k in 0..m
        invariant
            m <= found.len(),
            all == entries_view(found@),
            text::texts(r@) == all.take(k as int).map_values(|e: (nat, Seq<char>)| e.1),
    {
        let ghost old = r@;
        r.push(found[k].1.clone());
        proof {
            assert(text::texts(r@) =~= text::texts(old).push(all[k as int].1));
        }
    }
    r
}

/// A suggestion is one of the identifiers, is not the query itself, and
/// reaches the floor. It differs from the query in letter case alone or gives a
/// real signal: it shares a substring, a word, half of the neighbours, or is a
/// close typo.
pub proof fn law_suggestions_sound(
    query: Seq<char>,
    idents: Seq<Seq<char>>,
    n: nat,
    name: Seq<char>,
)
    requires
        suggestions(query, idents, n).contains(name),
    ensures
        idents.contains(name),
        name != query,
        bytes(name) > 1,
        score_of(query, name) >= FLOOR,
        lowered(query) == lowered(name) || alike(
            lowered(query),
            lowered(name),
            tokens(query),
            tokens(name),
        ),
{
    let leq = rank_order();
    let all = ranked(query, idents);
    let list = suggestions(query, idents, n);
    let k = choose|k: int| 0 <= k < list.len() && list[k] == name;
    lemma_ranks_total();
    candidates(query, idents).lemma_sort_by_ensures(leq);
    assert(all.contains(all[k]));
    vstd::seq_lib::to_multiset_contains(all, all[k]);
    vstd::seq_lib::to_multiset_contains(candidates(query, idents), all[k]);
    lemma_candidates_from(query, idents);
}

/// There are at most `n` suggestions, listed by falling score and then
/// alphabetically.
pub proof fn law_suggestions_ranked(query: Seq<char>, idents: Seq<Seq<char>>, n: nat)
    ensures
        suggestions(query, idents, n).len() <= n,
        forall|i: int, j: int|
            0 <= i < j < suggestions(query, idents, n).len() ==> ranks(
                (
                    score_of(query, #[trigger] suggestions(query, idents, n)[i]),
                    suggestions(query, idents, n)[i],
                ),
                (
                    score_of(query, #[trigger] suggestions(query, idents, n)[j]),
                    suggestions(query, idents, n)[j],
                ),
            ),
{
    let leq = rank_order();
    let all = ranked(query, idents);
    let list = suggestions(query, idents, n);
    lemma_ranks_total();
    candidates(query, idents).lemma_sort_by_ensures(leq);
    lemma_candidates_from(query, idents);
    assert forall|i: int| 0 <= i < list.len() implies all[i] == (
        score_of(query, #[trigger] list[i]),
        list[i],
    ) by {
        assert(all.contains(all[i]));
        vstd::seq_lib::to_multiset_contains(all, all[i]);
        vstd::seq_lib::to_multiset_contains(candidates(query, idents), all[i]);
    }
    assert forall|i: int, j: int| 0 <= i < j < list.len() implies ranks(
        (score_of(query, #[trigger] list[i]), list[i]),
        (score_of(query, #[trigger] list[j]), list[j]),
    ) by {
        assert(leq(all[i], all[j]));
    }
}

/// Every eligible identifier is a candidate.
proof fn lemma_candidates_all(query: Seq<char>, idents: Seq<Seq<char>>, name: Seq<char>)
    requires
        idents.contains(name),
        name != query,
        bytes(name) > 1,
        score_of(query, name) >= FLOOR,
    ensures
        candidates(query, idents).contains((score_of(query, name), name)),
    decreases idents.len(),
{
    let e = (score_of(query, name), name);
    let rest = idents.drop_last();
    assert(idents =~= rest.push(idents.last()));
    text::lemma_push_contains(rest, idents.last(), name);
    if rest.contains(name) {
        lemma_candidates_all(query, rest, name);
    }
    let last = (score_of(query, idents.last()), idents.last());
    text::lemma_push_contains(candidates(query, rest), last, e);
}

/// No better identifier is left out: one that could be suggested and is not has
/// `n` suggestions that rank before it.
pub proof fn law_suggestions_best(
    query: Seq<char>,
    idents: Seq<Seq<char>>,
    n: nat,
    name: Seq<char>,
)
    requires
        idents.contains(name),
        name != query,
        bytes(name) > 1,
        score_of(query, name) >= FLOOR,
        !suggestions(query, idents, n).contains(name),
    ensures
        suggestions(query, idents, n).len() == n,
        forall|i: int|
            0 <= i < n ==> ranks(
                (
                    score_of(query, #[trigger] suggestions(query, idents, n)[i]),
                    suggestions(query, idents, n)[i],
                ),
                (score_of(query, name), name),
            ),
{
    let leq = rank_order();
    let all = ranked(query, idents);
    let list = suggestions(query, idents, n);
    let e = (score_of(query, name), name);
    lemma_ranks_total();
    candidates(query, idents).lemma_sort_by_ensures(leq);
    lemma_candidates_from(query, idents);
    lemma_candidates_all(query, idents, name);
    vstd::seq_lib::to_multiset_contains(all, e);
    vstd::seq_lib::to_multiset_contains(candidates(query, idents), e);
    let k = choose|k: int| 0 <= k < all.len() && all[k] == e;
    if k < list.len() {
        assert(list[k] == name);
    }
    assert forall|i: int| 0 <= i < n implies ranks(
        (score_of(query, #[trigger] list[i]), list[i]),
        e,
    ) by {
        assert(all.contains(all[i]));
        vstd::seq_lib::to_multiset_contains(all, all[i]);
        vstd::seq_lib::to_multiset_contains(candidates(query, idents), all[i]);
        assert(leq(all[i], all[k]));
    }
}

// --- what makes a suggestion ---------------------------------------------------------------

/// Whether `b` is `a` with the character at position `k` deleted, inserted or
/// replaced.
pub open spec fn edit_at(a: Seq<char>, b: Seq<char>, k: int) -> bool {
    ||| 0 <= k < a.len() && b == a.remove(k)
    ||| 0 <= k < b.len() && a == b.remove(k)
    ||| 0 <= k < a.len() && k < b.len() && b == a.update(k, b[k])
}

/// Whether one edit turns `a` into `b`.
pub open spec fn one_edit(a: Seq<char>, b: Seq<char>) -> bool {
    exists|k: int| edit_at(a, b, k)
}

/// Whether there is one edit between the text at position `i` of `chain` and the
/// next.
pub open spec fn edited(chain: Seq<Seq<char>>, i: int) -> bool {
    one_edit(chain[i], chain[i + 1])
}

/// Whether `chain` leads from one text to another by single edits.
pub open spec fn edit_chain(chain: Seq<Seq<char>>) -> bool {
    chain.len() > 0 && forall|i: int| 0 <= i < chain.len() - 1 ==> #[trigger] edited(chain, i)
}

proof fn lemma_one_deleted(a: Seq<char>, k: int)
    requires
        0 <= k < a.len(),
    ensures
        distance(a, a.remove(k)) <= 1,
    decreases a.len(),
{
    let b = a.remove(k);
    if b.len() > 0 {
        if k == a.len() - 1 {
            assert(b =~= a.drop_last());
            law_distance_zero(a.drop_last(), b);
        } else {
            lemma_one_deleted(a.drop_last(), k);
            assert(b.drop_last() =~= a.drop_last().remove(k));
            assert(b.last() == a.last());
        }
    }
}

proof fn lemma_one_replaced(a: Seq<char>, k: int, c: char)
    requires
        0 <= k < a.len(),
    ensures
        distance(a, a.update(k, c)) <= 1,
    decreases a.len(),
{
    let b = a.update(k, c);
    if k == a.len() - 1 {
        assert(b.drop_last() =~= a.drop_last());
        law_distance_zero(a.drop_last(), b.drop_last());
    } else {
        lemma_one_replaced(a.drop_last(), k, c);
        assert(b.drop_last() =~= a.drop_last().update(k, c));
        assert(b.last() == a.last());
    }
}

proof fn lemma_one_edit(chain: Seq<Seq<char>>, i: int)
    requires
        edited(chain, i),
    ensures
        distance(chain[i], chain[i + 1]) <= 1,
{
    let a = chain[i];
    let b = chain[i + 1];
    let k = choose|k: int| edit_at(a, b, k);
    if 0 <= k < a.len() && b == a.remove(k) {
        lemma_one_deleted(a, k);
    } else if 0 <= k < b.len() && a == b.remove(k) {
        lemma_one_deleted(b, k);
        law_distance_symmetric(a, b);
    } else {
        lemma_one_replaced(a, k, b[k]);
    }
}

proof fn lemma_chain_bound(chain: Seq<Seq<char>>)
    requires
        edit_chain(chain),
    ensures
        distance(chain[0], chain.last()) <= chain.len() - 1,
    decreases chain.len(),
{
    let n = chain.len() as int;
    if n == 1 {
        law_distance_zero(chain[0], chain[0]);
    } else {
        let front = chain.drop_last();
        assert forall|i: int| 0 <= i < front.len() - 1 implies #[trigger] edited(front, i) by {
            assert(edited(chain, i));
            assert(front[i] == chain[i] && front[i + 1] == chain[i + 1]);
        }
        lemma_chain_bound(front);
        assert(edited(chain, n - 2));
        lemma_one_edit(chain, n - 2);
        law_distance_triangle(chain[0], chain[n - 2], chain[n - 1]);
        assert(front.last() == chain[n - 2]);
    }
}

proof fn lemma_chain_more(chain: Seq<Seq<char>>, b: Seq<char>)
    requires
        edit_chain(chain),
        edited(seq![chain.last(), b], 0),
    ensures
        edit_chain(chain.push(b)),
{
    let t = chain.push(b);
    assert forall|i: int| 0 <= i < t.len() - 1 implies #[trigger] edited(t, i) by {
        if i < chain.len() - 1 {
            assert(edited(chain, i));
            assert(t[i] == chain[i] && t[i + 1] == chain[i + 1]);
        } else {
            let p = seq![chain.last(), b];
            assert(t[i] == p[0] && t[i + 1] == p[1]);
        }
    }
}

proof fn lemma_chain_front(a: Seq<char>, chain: Seq<Seq<char>>)
    requires
        edit_chain(chain),
        edited(seq![a, chain[0]], 0),
    ensures
        edit_chain(seq![a] + chain),
{
    let t = seq![a] + chain;
    assert forall|i: int| 0 <= i < t.len() - 1 implies #[trigger] edited(t, i) by {
        if i == 0 {
            let p = seq![a, chain[0]];
            assert(t[0] == p[0] && t[1] == p[1]);
        } else {
            assert(edited(chain, i - 1));
            assert(t[i] == chain[i - 1] && t[i + 1] == chain[i]);
        }
    }
}

/// The same edits, with a character behind.
proof fn lemma_chain_pushed(chain: Seq<Seq<char>>, c: char)
    requires
        edit_chain(chain),
    ensures
        edit_chain(chain.map_values(|x: Seq<char>| x.push(c))),
{
    let t = chain.map_values(|x: Seq<char>| x.push(c));
    assert forall|i: int| 0 <= i < t.len() - 1 implies #[trigger] edited(t, i) by {
        assert(edited(chain, i));
        let a = chain[i];
        let b = chain[i + 1];
        let k = choose|k: int| edit_at(a, b, k);
        let x = t[i];
        let y = t[i + 1];
        assert(x == a.push(c) && y == b.push(c));
        if 0 <= k < a.len() && b == a.remove(k) {
            assert(y =~= x.remove(k));
        } else if 0 <= k < b.len() && a == b.remove(k) {
            assert(x =~= y.remove(k));
        } else {
            assert(y =~= x.update(k, y[k]));
        }
        assert(edit_at(x, y, k));
    }
}

proof fn lemma_chain_exists(a: Seq<char>, b: Seq<char>) -> (chain: Seq<Seq<char>>)
    ensures
        edit_chain(chain),
        chain[0] == a,
        chain.last() == b,
        chain.len() == distance(a, b) + 1,
    decreases a.len() + b.len(),
{
    if a.len() == 0 && b.len() == 0 {
        assert(a =~= b);
        seq![a]
    } else if a.len() == 0 || (b.len() > 0 && distance(a, b) == distance(a, b.drop_last()) + 1) {
        let b1 = b.drop_last();
        let chain = lemma_chain_exists(a, b1);
        let p = seq![b1, b];
        assert(b1 =~= b.remove(b.len() - 1));
        assert(edit_at(p[0], p[1], b.len() - 1));
        assert(edited(p, 0));
        lemma_chain_more(chain, b);
        chain.push(b)
    } else if b.len() == 0 || distance(a, b) == distance(a.drop_last(), b) + 1 {
        let a1 = a.drop_last();
        let chain = lemma_chain_exists(a1, b);
        let p = seq![a, a1];
        assert(a1 =~= a.remove(a.len() - 1));
        assert(edit_at(p[0], p[1], a.len() - 1));
        assert(edited(p, 0));
        lemma_chain_front(a, chain);
        seq![a] + chain
    } else {
        let c = a.last();
        let front = lemma_chain_exists(a.drop_last(), b.drop_last());
        let chain = front.map_values(|x: Seq<char>| x.push(c));
        lemma_chain_pushed(front, c);
        assert(a.drop_last().push(c) =~= a);
        assert(chain[0] == a);
        let end = b.drop_last().push(c);
        assert(chain.last() == end);
        if b.last() == c {
            assert(end =~= b);
            chain
        } else {
            let p = seq![end, b];
            let k = b.len() - 1;
            assert(b =~= end.update(k, b[k]));
            assert(edit_at(p[0], p[1], k));
            assert(edited(p, 0));
            lemma_chain_more(chain, b);
            chain.push(b)
        }
    }
}

/// The distance of two texts is the least number of characters to delete, insert
/// and replace on the way from one to the other: some way takes as many, and none
/// takes fewer.
pub proof fn law_distance_counts_edits(a: Seq<char>, b: Seq<char>)
    ensures
        exists|chain: Seq<Seq<char>>| #[trigger]
            edit_chain(chain) && chain[0] == a && chain.last() == b && chain.len() == distance(a, b)
                + 1,
        forall|chain: Seq<Seq<char>>| #[trigger]
            edit_chain(chain) && chain[0] == a && chain.last() == b ==> distance(a, b)
                <= chain.len() - 1,
{
    let chain = lemma_chain_exists(a, b);
    assert(edit_chain(chain));
    assert forall|chain: Seq<Seq<char>>| #[trigger]
        edit_chain(chain) && chain[0] == a && chain.last() == b implies distance(a, b)
        <= chain.len() - 1 by {
        lemma_chain_bound(chain);
    }
}

proof fn lemma_prefix_is(a: Seq<char>, b: Seq<char>, p: int)
    requires
        0 <= p <= a.len(),
        p <= b.len(),
        a.take(p) == b.take(p),
        p == a.len() || p == b.len() || a[p] != b[p],
    ensures
        shared_prefix(a, b) == p,
    decreases p,
{
    if p > 0 {
        assert(a.take(p)[0] == a[0]);
        assert(b.take(p)[0] == b[0]);
        let x = a.drop_first();
        let y = b.drop_first();
        assert(x.take(p - 1) =~= a.take(p).drop_first());
        assert(y.take(p - 1) =~= b.take(p).drop_first());
        lemma_prefix_is(x, y, p - 1);
    }
}

proof fn lemma_shared_words(a: Seq<Seq<char>>, b: Seq<Seq<char>>)
    ensures
        shared_words(a, b) == a.filter(|w: Seq<char>| b.contains(w)).len(),
    decreases a.len(),
{
    reveal(Seq::filter);
    if a.len() > 0 {
        lemma_shared_words(a.drop_last(), b);
    }
}

proof fn lemma_pairs(s: Seq<char>)
    ensures
        pair_set(s) == Set::new(
            |p: (char, char)| exists|i: int| 0 <= i < s.len() - 1 && #[trigger] s[i] == p.0 && s[i
                + 1] == p.1,
        ),
{
    let all = Set::new(
        |p: (char, char)| exists|i: int| 0 <= i < s.len() - 1 && #[trigger] s[i] == p.0 && s[i + 1]
            == p.1,
    );
    assert forall|p: (char, char)| pair_set(s).contains(p) <==> all.contains(p) by {
        if s.len() > 0 {
            let ps = pairs(s);
            if pair_set(s).contains(p) {
                let i = choose|i: int| 0 <= i < ps.len() && ps[i] == p;
                assert(s[i] == p.0);
            }
            if all.contains(p) {
                let i = choose|i: int| 0 <= i < s.len() - 1 && #[trigger] s[i] == p.0 && s[i + 1]
                    == p.1;
                assert(ps[i] == p);
            }
        }
    }
    assert(pair_set(s) =~= all);
}

/// What a score is made of. Texts that differ in letter case alone score 10000.
/// Texts score nothing if none holds the other, they share no word, fewer than
/// half of their pairs of neighbours are in both, and they are no close typo with
/// the same two first letters. Otherwise there are points for holding the other
/// (200 for the candidate, 100 for the query), 100 for each shared word, up to 200
/// for the share of the pairs, 25 for each letter of the common beginning, 4 for
/// each byte over the distance, and 60 for at most two edits.
pub proof fn law_score(query: Seq<char>, cand: Seq<char>, p: int)
    requires
        0 <= p <= lowered(query).len(),
        p <= lowered(cand).len(),
        lowered(query).take(p) == lowered(cand).take(p),
        p == lowered(query).len() || p == lowered(cand).len() || lowered(query)[p] != lowered(
            cand,
        )[p],
    ensures
        ({
            let q = lowered(query);
            let c = lowered(cand);
            let words = tokens(query).filter(|w: Seq<char>| tokens(cand).contains(w)).len();
            let qs = Set::new(
                |p: (char, char)|
                    exists|i: int| 0 <= i < q.len() - 1 && #[trigger] q[i] == p.0 && q[i + 1] == p.1,
            );
            let cs = Set::new(
                |p: (char, char)|
                    exists|i: int| 0 <= i < c.len() - 1 && #[trigger] c[i] == p.0 && c[i + 1] == p.1,
            );
            let both = qs.intersect(cs).len();
            let any = qs.union(cs).len();
            let x = encode_utf8(q).len() as int;
            let y = encode_utf8(c).len() as int;
            let most = if x >= y {
                x
            } else {
                y
            };
            let edits = distance(q, c) as int;
            let inside = x >= 3 && y >= 3 && text::has_text(c, q);
            let outside = x >= 3 && y >= 3 && text::has_text(q, c);
            let halves = any > 0 && 2 * both >= any;
            let typo = most >= 4 && 100 * edits <= 34 * most && p >= 2;
            let score = score_of(query, cand) as int;
            &&& q == c ==> score == 10000
            &&& q != c && !inside && !outside && words == 0 && !halves && !typo ==> score == 0
            &&& q != c && (inside || outside || words > 0 || halves || typo) ==> score == (
            if inside {
                200int
            } else {
                0
            }) + (if outside {
                100int
            } else {
                0
            }) + 100 * words + overlap_points(both, any) + 25 * p + 4 * (most - edits) + (if most
                >= 4 && edits <= 2 {
                60int
            } else {
                0
            })
        }),
{
    let q = lowered(query);
    let c = lowered(cand);
    lemma_prefix_is(q, c, p);
    lemma_shared_words(tokens(query), tokens(cand));
    lemma_pairs(q);
    lemma_pairs(c);
    lemma_bytes(q);
    lemma_bytes(c);
    law_distance_bounds(q, c);
}

/// What is suggested: identifiers of more than one byte that are not the query and
/// score at least 60, the best ones first, and of those that score the same the
/// alphabetically first ones.
pub proof fn law_suggested(query: Seq<char>, idents: Seq<Seq<char>>, n: nat, i: int, name: Seq<char>)
    requires
        0 <= i < suggestions(query, idents, n).len(),
    ensures
        ({
            let list = suggestions(query, idents, n);
            &&& list.len() <= n
            &&& idents.contains(list[i])
            &&& list[i] != query
            &&& encode_utf8(list[i]).len() > 1
            &&& score_of(query, list[i]) >= 60
            &&& idents.contains(name) && name != query && encode_utf8(name).len() > 1 && score_of(
                query,
                name,
            ) >= 60 && !list.contains(name) ==> list.len() == n && (score_of(query, list[i])
                > score_of(query, name) || (score_of(query, list[i]) == score_of(query, name)
                && !order::before(name, list[i])))
            &&& i + 1 < list.len() ==> score_of(query, list[i]) > score_of(query, list[i + 1]) || (
            score_of(query, list[i]) == score_of(query, list[i + 1]) && !order::before(
                list[i + 1],
                list[i],
            ))
        }),
{
    let list = suggestions(query, idents, n);
    assert(list.contains(list[i]));
    law_suggestions_sound(query, idents, n, list[i]);
    law_suggestions_ranked(query, idents, n);
    if idents.contains(name) && name != query && bytes(name) > 1 && score_of(query, name) >= FLOOR
        && !list.contains(name) {
        law_suggestions_best(query, idents, n, name);
        assert(ranks((score_of(query, list[i]), list[i]), (score_of(query, name), name)));
    }
    if i + 1 < list.len() {
        assert(ranks(
            (score_of(query, list[i]), list[i]),
            (score_of(query, list[i + 1]), list[i + 1]),
        ));
    }
}

proof fn lemma_cuts(part: Seq<char>, n: int)
    requires
        0 <= n <= part.len(),
    ensures
        forall|k: int|
            0 < k < words(part, n).len() ==> word_begins(
                part,
                (#[trigger] glued(words(part, n).take(k))).len() as int,
            ),
        forall|i: int|
            0 < i < n && #[trigger] word_begins(part, i) ==> exists|k: int|
                0 < k < words(part, n).len() && (#[trigger] glued(words(part, n).take(k))).len()
                    == i,
    decreases n,
{
    if n > 0 {
        let all = words(part, n);
        let rest = words(part, n - 1);
        lemma_cuts(part, n - 1);
        lemma_words(part, n - 1);
        let m = rest.len() as int;
        if n == 1 || word_begins(part, n - 1) {
            assert(all.take(m) =~= rest);
            assert(glued(all.take(m)).len() == n - 1);
            assert forall|k: int| 0 < k < all.len() implies word_begins(
                part,
                (#[trigger] glued(all.take(k))).len() as int,
            ) by {
                if k < m {
                    assert(all.take(k) =~= rest.take(k));
                }
            }
            assert forall|i: int| 0 < i < n && #[trigger] word_begins(part, i) implies exists|
                k: int,
            | 0 < k < all.len() && (#[trigger] glued(all.take(k))).len() == i by {
                if i < n - 1 {
                    let k = choose|k: int|
                        0 < k < m && (#[trigger] glued(rest.take(k))).len() == i;
                    assert(all.take(k) =~= rest.take(k));
                    assert(glued(all.take(k)).len() == i);
                } else {
                    if m == 0 {
                        assert(glued(rest).len() == 0);
                    }
                    assert(glued(all.take(m)).len() == i);
                }
            }
        } else {
            lemma_words_nonempty(part, n - 1);
            assert(all.len() == m);
            assert forall|k: int| 0 < k < all.len() implies all.take(k) == rest.take(k) by {
                assert(all.take(k) =~= rest.take(k));
            }
            assert forall|k: int| 0 < k < all.len() implies word_begins(
                part,
                (#[trigger] glued(all.take(k))).len() as int,
            ) by {
                assert(all.take(k) == rest.take(k));
            }
            assert forall|i: int| 0 < i < n && #[trigger] word_begins(part, i) implies exists|
                k: int,
            | 0 < k < all.len() && (#[trigger] glued(all.take(k))).len() == i by {
                let k = choose|k: int| 0 < k < m && (#[trigger] glued(rest.take(k))).len() == i;
                assert(all.take(k) == rest.take(k));
                assert(glued(all.take(k)).len() == i);
            }
        }
    }
}

/// A name without `_` is cut into words before each capital that follows a small
/// letter, and before the last capital of a run of capitals that a small letter
/// follows; and nowhere else.
pub proof fn law_words_are_cut(part: Seq<char>, k: int, i: int)
    ensures
        ({
            let all = words(part, part.len() as int);
            &&& 0 < k < all.len() ==> {
                let at = glued(all.take(k)).len() as int;
                &&& is_upper(part[at])
                &&& is_lower(part[at - 1]) || (is_upper(part[at - 1]) && at + 1 < part.len()
                    && is_lower(part[at + 1]))
            }
            &&& 0 < i < part.len() && is_upper(part[i]) && (is_lower(part[i - 1]) || (is_upper(
                part[i - 1],
            ) && i + 1 < part.len() && is_lower(part[i + 1]))) ==> exists|m: int|
                0 < m < all.len() && (#[trigger] glued(all.take(m))).len() == i
        }),
{
    let n = part.len() as int;
    let all = words(part, n);
    lemma_cuts(part, n);
    if 0 < k < all.len() {
        assert(word_begins(part, glued(all.take(k)).len() as int));
    }
    if 0 < i < n && is_upper(part[i]) && (is_lower(part[i - 1]) || (is_upper(part[i - 1]) && i + 1
        < n && is_lower(part[i + 1]))) {
        assert(word_begins(part, i));
    }
}

/// The share of the pairs gives no points where none is shared, and all 200 where
/// all are.
pub proof fn law_overlap_ends(n: nat)
    requires
        n > 0,
    ensures
        overlap_points(0, n) == 0,
        overlap_points(n, n) == 200,
{
    let d = DIGITS as nat;
    assert(n * 1 * d == n * d) by (nonlinear_arith);
    assert((n * d) / n == d && (n * d) % n == 0) by (nonlinear_arith)
        requires
            n > 0,
    ;
    assert(lift(n, n) == 1);
    assert(nearest(n * lift(n, n) * d, n) == d);
    let product = d * 200;
    assert(product == 900719925474099200);
    assert(product < 256 * DIGITS);
    assert(nearest(product, 128) == 7036874417766400);
    assert(nearest(product, 128) * 128 == product);
    assert(d * lift(n, n) == d) by (nonlinear_arith)
        requires
            lift(n, n) == 1,
    ;
    assert(900719925474099200nat / 4503599627370496nat == 200);
    assert(d == 4503599627370496);
}

} // verus!
