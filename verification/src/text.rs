//! Text normalization for track names and queries.
//!
//! A track's search key and a query are both normalized the same way:
//! surrounding Unicode whitespace is trimmed and the rest is folded to
//! lower case by the Unicode case mapping, so that matching is
//! case-insensitive and ignores stray spaces. The case fold itself is
//! std's `str::to_lowercase`, named here by the uninterpreted `lower_of`;
//! the trimming is this module's own, verified character scan.
//!
//! A separate ASCII-only fold (`lower_char`, `lower`) serves the file
//! extension comparison, which is ASCII case-insensitive by design.

use vstd::prelude::*;

verus! {

/// The Unicode White_Space characters: what normalization trims from
/// either end of a name.
pub open spec fn is_space(c: char) -> bool {
    ||| c == '\u{9}'
    ||| c == '\u{a}'
    ||| c == '\u{b}'
    ||| c == '\u{c}'
    ||| c == '\u{d}'
    ||| c == ' '
    ||| c == '\u{85}'
    ||| c == '\u{a0}'
    ||| c == '\u{1680}'
    ||| ('\u{2000}' <= c && c <= '\u{200a}')
    ||| c == '\u{2028}'
    ||| c == '\u{2029}'
    ||| c == '\u{202f}'
    ||| c == '\u{205f}'
    ||| c == '\u{3000}'
}

/// ASCII lower-case folding of one character; everything else is unchanged.
/// Used only for the extension comparison, which is ASCII case-insensitive.
pub open spec fn lower_char(c: char) -> char {
    match c {
        'A' => 'a',
        'B' => 'b',
        'C' => 'c',
        'D' => 'd',
        'E' => 'e',
        'F' => 'f',
        'G' => 'g',
        'H' => 'h',
        'I' => 'i',
        'J' => 'j',
        'K' => 'k',
        'L' => 'l',
        'M' => 'm',
        'N' => 'n',
        'O' => 'o',
        'P' => 'p',
        'Q' => 'q',
        'R' => 'r',
        'S' => 's',
        'T' => 't',
        'U' => 'u',
        'V' => 'v',
        'W' => 'w',
        'X' => 'x',
        'Y' => 'y',
        'Z' => 'z',
        _ => c,
    }
}

/// Pointwise ASCII lower-case folding of a whole character sequence.
pub open spec fn lower(s: Seq<char>) -> Seq<char> {
    Seq::new(s.len(), |i: int| lower_char(s[i]))
}

/// What `str::to_lowercase` returns for a given character sequence: its
/// Unicode lowercase equivalent. A function of the characters alone.
pub uninterp spec fn lower_of(s: Seq<char>) -> Seq<char>;

/// Drops leading whitespace.
pub open spec fn trim_start(s: Seq<char>) -> Seq<char>
    decreases s.len(),
{
    if s.len() == 0 {
        s
    } else if is_space(s[0]) {
        trim_start(s.drop_first())
    } else {
        s
    }
}

/// Drops trailing whitespace.
pub open spec fn trim_end(s: Seq<char>) -> Seq<char>
    decreases s.len(),
{
    if s.len() == 0 {
        s
    } else if is_space(s.last()) {
        trim_end(s.drop_last())
    } else {
        s
    }
}

/// Drops whitespace from both ends.
pub open spec fn trim(s: Seq<char>) -> Seq<char> {
    trim_end(trim_start(s))
}

/// What `normalize_name` computes: trim both ends, then fold to lower case
/// by the Unicode case mapping.
pub open spec fn normalize(s: Seq<char>) -> Seq<char> {
    lower_of(trim(s))
}

fn is_space_char(c: char) -> (r: bool)
    ensures
        r == is_space(c),
{
    c == '\u{9}' || c == '\u{a}' || c == '\u{b}' || c == '\u{c}' || c == '\u{d}' || c == ' '
        || c == '\u{85}' || c == '\u{a0}' || c == '\u{1680}' || ('\u{2000}' <= c && c
        <= '\u{200a}') || c == '\u{2028}' || c == '\u{2029}' || c == '\u{202f}' || c == '\u{205f}'
        || c == '\u{3000}'
}

pub fn lower_char_exec(c: char) -> (r: char)
    ensures
        r == lower_char(c),
{
    match c {
        'A' => 'a',
        'B' => 'b',
        'C' => 'c',
        'D' => 'd',
        'E' => 'e',
        'F' => 'f',
        'G' => 'g',
        'H' => 'h',
        'I' => 'i',
        'J' => 'j',
        'K' => 'k',
        'L' => 'l',
        'M' => 'm',
        'N' => 'n',
        'O' => 'o',
        'P' => 'p',
        'Q' => 'q',
        'R' => 'r',
        'S' => 's',
        'T' => 't',
        'U' => 'u',
        'V' => 'v',
        'W' => 'w',
        'X' => 'x',
        'Y' => 'y',
        'Z' => 'z',
        _ => c,
    }
}

/// Relies on str::to_lowercase: the Unicode lowercase equivalent of the
/// string, per Unicode's Default Case Conversion. The mapping is a fixed
/// table of the characters alone, so the result gets a name, `lower_of`.
/// The further clauses hold of that conversion: an empty string stays
/// empty; the result is already lowercase, so converting it again changes
/// nothing; and no character maps to or from whitespace, so a string with
/// no surrounding whitespace keeps none.
#[verifier::external_body]
fn to_lowercase(s: &str) -> (r: String)
    ensures
        r@ == lower_of(s@),
        s@.len() == 0 ==> r@.len() == 0,
        lower_of(r@) == r@,
        trim(s@) == s@ ==> trim(r@) == r@,
{
    s.to_lowercase()
}

/// If the first `k` characters are whitespace and the character at `k` (if
/// any) is not, `trim_start` keeps exactly the tail from `k` on.
proof fn lemma_trim_start_subrange(s: Seq<char>, k: int)
    requires
        0 <= k <= s.len(),
        forall|j: int| 0 <= j < k ==> is_space(s[j]),
        k == s.len() || !is_space(s[k]),
    ensures
        trim_start(s) == s.subrange(k, s.len() as int),
    decreases s.len(),
{
    if k == 0 {
        assert(trim_start(s) =~= s.subrange(0, s.len() as int));
    } else {
        assert(is_space(s[0]));
        lemma_trim_start_subrange(s.drop_first(), k - 1);
        assert(s.drop_first().subrange(k - 1, s.drop_first().len() as int) =~= s.subrange(
            k,
            s.len() as int,
        ));
    }
}

/// If the characters from `k` on are whitespace and the character before `k`
/// (if any) is not, `trim_end` keeps exactly the first `k` characters.
proof fn lemma_trim_end_subrange(s: Seq<char>, k: int)
    requires
        0 <= k <= s.len(),
        forall|j: int| k <= j < s.len() ==> is_space(s[j]),
        k == 0 || !is_space(s[k - 1]),
    ensures
        trim_end(s) == s.subrange(0, k),
    decreases s.len(),
{
    if k == s.len() {
        assert(trim_end(s) =~= s.subrange(0, k));
    } else {
        assert(is_space(s.last()));
        lemma_trim_end_subrange(s.drop_last(), k);
        assert(s.drop_last().subrange(0, k) =~= s.subrange(0, k));
    }
}

/// A nonempty trimmed-from-the-left sequence does not start with whitespace.
proof fn lemma_trim_start_no_lead(s: Seq<char>)
    requires
        trim_start(s).len() > 0,
    ensures
        !is_space(trim_start(s)[0]),
    decreases s.len(),
{
    if s.len() > 0 && is_space(s[0]) {
        lemma_trim_start_no_lead(s.drop_first());
    }
}

/// A nonempty trimmed-from-the-right sequence does not end with whitespace.
proof fn lemma_trim_end_no_trail(s: Seq<char>)
    requires
        trim_end(s).len() > 0,
    ensures
        !is_space(trim_end(s).last()),
    decreases s.len(),
{
    if s.len() > 0 && is_space(s.last()) {
        lemma_trim_end_no_trail(s.drop_last());
    }
}

/// `trim_end` keeps a prefix of its input.
proof fn lemma_trim_end_prefix(s: Seq<char>)
    ensures
        trim_end(s).len() <= s.len(),
        trim_end(s) == s.subrange(0, trim_end(s).len() as int),
    decreases s.len(),
{
    if s.len() > 0 && is_space(s.last()) {
        lemma_trim_end_prefix(s.drop_last());
        assert(s.drop_last().subrange(0, trim_end(s).len() as int) =~= s.subrange(
            0,
            trim_end(s).len() as int,
        ));
    } else {
        assert(trim_end(s) =~= s.subrange(0, trim_end(s).len() as int));
    }
}

/// Trimming a sequence with no surrounding whitespace changes nothing.
proof fn lemma_trim_of_clean(s: Seq<char>)
    requires
        s.len() == 0 || (!is_space(s[0]) && !is_space(s.last())),
    ensures
        trim(s) == s,
{
    assert(trim_start(s) == s);
    assert(trim_end(s) == s);
}

/// The result of a full trim has no surrounding whitespace.
proof fn lemma_trim_clean(s: Seq<char>)
    ensures
        trim(s).len() == 0 || (!is_space(trim(s)[0]) && !is_space(trim(s).last())),
{
    let t = trim_start(s);
    let r = trim_end(t);
    if r.len() > 0 {
        lemma_trim_end_no_trail(t);
        lemma_trim_end_prefix(t);
        assert(r[0] == t[0]);
        lemma_trim_start_no_lead(s);
    }
}

/// Trimming is idempotent: a trimmed sequence trims to itself.
proof fn lemma_trim_idempotent(s: Seq<char>)
    ensures
        trim(trim(s)) == trim(s),
{
    lemma_trim_clean(s);
    lemma_trim_of_clean(trim(s));
}

/// Normalizes a name: trim surrounding Unicode whitespace, then fold to
/// lower case by the Unicode case mapping. Idempotent: normalizing an
/// already-normalized name changes nothing.
pub fn normalize_name(s: &str) -> (r: String)
    ensures
        r@ == normalize(s@),
        normalize(r@) == r@,
{
    let n: usize = s.unicode_len();
    let mut start: usize = 0;
    while start < n && is_space_char(s.get_char(start))
        invariant
            n == s@.len(),
            0 <= start <= n,
            forall|j: int| 0 <= j < start ==> is_space(s@[j]),
        decreases n - start,
    {
        start += 1;
    }
    let mut end: usize = n;
    while end > start && is_space_char(s.get_char(end - 1))
        invariant
            n == s@.len(),
            0 <= start <= end <= n,
            forall|j: int| end <= j < n ==> is_space(s@[j]),
        decreases end,
    {
        end -= 1;
    }
    proof {
        lemma_trim_start_subrange(s@, start as int);
        let t = s@.subrange(start as int, n as int);
        lemma_trim_end_subrange(t, end - start);
        assert(t.subrange(0, end - start) =~= s@.subrange(start as int, end as int));
    }
    let trimmed = s.substring_char(start, end);
    let r = to_lowercase(trimmed);
    proof {
        lemma_trim_idempotent(s@);
        assert(trim(trimmed@) == trimmed@);
        assert(trim(r@) == r@);
        assert(normalize(r@) == lower_of(r@));
    }
    r
}

/// The characters of a name, one by one.
fn chars_of(s: &String) -> (r: Vec<char>)
    ensures
        r@ == s@,
{
    let st = s.as_str();
    let n: usize = st.unicode_len();
    let mut out: Vec<char> = Vec::new();
    let mut i: usize = 0;
    while i < n
        invariant
            n == st@.len(),
            st@ == s@,
            0 <= i <= n,
            out@ == s@.take(i as int),
        decreases n - i,
    {
        out.push(st.get_char(i));
        proof {
            assert(out@ =~= s@.take(i + 1));
        }
        i += 1;
    }
    proof {
        assert(s@.take(n as int) == s@);
    }
    out
}

/// Normalizes a name into its character sequence, for use as a search key.
pub fn normalize_chars(s: &str) -> (r: Vec<char>)
    ensures
        r@ == normalize(s@),
{
    let nm = normalize_name(s);
    chars_of(&nm)
}

} // verus!
