//! Character-level text primitives: the whitespace predicate, line splitting,
//! word splitting, trimming and lexicographic ordering, each with a spec-level
//! definition and a verified executable counterpart.
use vstd::prelude::*;

verus! {

/// A whitespace character: the Unicode `White_Space` set, as used by
/// `str::split_whitespace` and `str::trim`.
pub open spec fn is_space(c: char) -> bool {
    let u = c as u32;
    u == 0x20 || (0x09 <= u && u <= 0x0d) || u == 0x85 || u == 0xa0 || u == 0x1680 || (0x2000
        <= u && u <= 0x200a) || u == 0x2028 || u == 0x2029 || u == 0x202f || u == 0x205f || u
        == 0x3000
}

/// Runtime test for `is_space`.
pub fn char_is_space(c: char) -> (r: bool)
    ensures
        r == is_space(c),
{
    let u = c as u32;
    u == 0x20 || (0x09 <= u && u <= 0x0d) || u == 0x85 || u == 0xa0 || u == 0x1680 || (0x2000
        <= u && u <= 0x200a) || u == 0x2028 || u == 0x2029 || u == 0x202f || u == 0x205f || u
        == 0x3000
}

/// The characters of a string slice as a vector, for index-based scanning.
pub fn chars_of(s: &str) -> (r: Vec<char>)
    ensures
        r@ == s@,
{
    let n = s.unicode_len();
    let mut r: Vec<char> = Vec::new();
    let mut i: usize = 0;
    while i < n
        invariant
            i <= n,
            n == s@.len(),
            r@ == s@.take(i as int),
        decreases n - i,
    {
        r.push(s.get_char(i));
        i = i + 1;
        assert(s@.take(i as int) =~= s@.take(i - 1 as int).push(s@[i - 1]));
    }
    assert(s@.take(n as int) =~= s@);
    r
}

/// Index of the first `'\n'` in `s`, or `s.len()` if there is none.
pub open spec fn first_nl(s: Seq<char>) -> nat
    decreases s.len(),
{
    if s.len() == 0 {
        0
    } else if s[0] == '\n' {
        0
    } else {
        (1 + first_nl(s.drop_first())) as nat
    }
}

pub proof fn lemma_first_nl_le(s: Seq<char>)
    ensures
        first_nl(s) <= s.len(),
        forall|k: int| 0 <= k < first_nl(s) ==> s[k] != '\n',
        first_nl(s) < s.len() ==> s[first_nl(s) as int] == '\n',
    decreases s.len(),
{
    if s.len() > 0 && s[0] != '\n' {
        lemma_first_nl_le(s.drop_first());
        assert forall|k: int| 0 <= k < first_nl(s) implies s[k] != '\n' by {
            if k > 0 {
                assert(s.drop_first()[k - 1] == s[k]);
            }
        };
    }
}

/// If the first `n` characters are not `'\n'` and position `n` is the end or a
/// `'\n'`, then `n` is the first newline position.
pub proof fn lemma_first_nl_is(s: Seq<char>, n: int)
    requires
        0 <= n <= s.len(),
        forall|k: int| 0 <= k < n ==> s[k] != '\n',
        n == s.len() || s[n] == '\n',
    ensures
        first_nl(s) == n,
    decreases s.len(),
{
    if n > 0 {
        assert(s[0] != '\n');
        assert(forall|k: int| 0 <= k < n - 1 ==> s.drop_first()[k] == s[k + 1]);
        lemma_first_nl_is(s.drop_first(), n - 1);
    }
}

/// A line with a trailing carriage return removed, as `str::lines` does for
/// `"\r\n"` line endings.
pub open spec fn strip_cr(l: Seq<char>) -> Seq<char> {
    if l.len() > 0 && l.last() == '\r' {
        l.drop_last()
    } else {
        l
    }
}

/// The lines of a text, following `str::lines`: split at `'\n'`, remove a
/// carriage return that precedes a `'\n'`, and produce no phantom empty line
/// after a trailing newline.
pub open spec fn lines_of(s: Seq<char>) -> Seq<Seq<char>>
    decreases s.len(),
    via lines_of_decreases
{
    if s.len() == 0 {
        seq![]
    } else {
        let j = first_nl(s) as int;
        if j == s.len() {
            seq![s]
        } else {
            seq![strip_cr(s.take(j))] + lines_of(s.skip(j + 1))
        }
    }
}

#[via_fn]
proof fn lines_of_decreases(s: Seq<char>) {
    lemma_first_nl_le(s);
}

/// Length of the leading run of non-whitespace characters.
pub open spec fn first_word_len(l: Seq<char>) -> nat
    decreases l.len(),
{
    if l.len() == 0 || is_space(l[0]) {
        0
    } else {
        (1 + first_word_len(l.drop_first())) as nat
    }
}

pub proof fn lemma_first_word_len_le(l: Seq<char>)
    ensures
        first_word_len(l) <= l.len(),
        forall|k: int| 0 <= k < first_word_len(l) ==> !is_space(l[k]),
        first_word_len(l) < l.len() ==> is_space(l[first_word_len(l) as int]),
    decreases l.len(),
{
    if l.len() > 0 && !is_space(l[0]) {
        lemma_first_word_len_le(l.drop_first());
        assert forall|k: int| 0 <= k < first_word_len(l) implies !is_space(l[k]) by {
            if k > 0 {
                assert(l.drop_first()[k - 1] == l[k]);
            }
        };
    }
}

/// If the first `n` characters are non-space and position `n` is the end or a
/// space, then the leading word has length `n`.
pub proof fn lemma_first_word_len_is(l: Seq<char>, n: int)
    requires
        0 <= n <= l.len(),
        forall|k: int| 0 <= k < n ==> !is_space(l[k]),
        n == l.len() || is_space(l[n]),
    ensures
        first_word_len(l) == n,
    decreases l.len(),
{
    if n > 0 {
        assert(!is_space(l[0]));
        assert(forall|k: int| 0 <= k < n - 1 ==> l.drop_first()[k] == l[k + 1]);
        lemma_first_word_len_is(l.drop_first(), n - 1);
    }
}

/// The words of a line: its maximal runs of non-whitespace characters, in
/// order, as `str::split_whitespace` yields them.
pub open spec fn words_of(l: Seq<char>) -> Seq<Seq<char>>
    decreases l.len(),
    via words_of_decreases
{
    if l.len() == 0 {
        seq![]
    } else if is_space(l[0]) {
        words_of(l.drop_first())
    } else {
        seq![l.take(first_word_len(l) as int)] + words_of(l.skip(first_word_len(l) as int))
    }
}

#[via_fn]
proof fn words_of_decreases(l: Seq<char>) {
    lemma_first_word_len_le(l);
}

/// A word as the tokenizer produces it: non-empty and free of whitespace.
pub open spec fn good_word(w: Seq<char>) -> bool {
    w.len() > 0 && forall|k: int| 0 <= k < w.len() ==> !is_space(w[k])
}

pub open spec fn good_words(ws: Seq<Seq<char>>) -> bool {
    forall|i: int| 0 <= i < ws.len() ==> good_word(#[trigger] ws[i])
}

pub proof fn lemma_words_of_good(l: Seq<char>)
    ensures
        good_words(words_of(l)),
    decreases l.len(),
{
    lemma_first_word_len_le(l);
    if l.len() == 0 {
    } else if is_space(l[0]) {
        lemma_words_of_good(l.drop_first());
    } else {
        let n = first_word_len(l) as int;
        lemma_words_of_good(l.skip(n));
        assert(good_word(l.take(n)));
        assert forall|i: int| 0 <= i < words_of(l).len() implies good_word(
            #[trigger] words_of(l)[i],
        ) by {
            if 1 <= i < words_of(l).len() {
                assert(words_of(l)[i] == words_of(l.skip(n))[i - 1]);
            }
        };
    }
}

/// Splits a character vector into lines, mirroring `lines_of`.
pub fn split_lines_chars(cs: &Vec<char>) -> (r: Vec<Vec<char>>)
    ensures
        r.deep_view() == lines_of(cs@),
{
    let n = cs.len();
    let mut r: Vec<Vec<char>> = Vec::new();
    let mut pos: usize = 0;
    proof {
        assert(cs@.skip(0) =~= cs@);
        assert(r.deep_view() + lines_of(cs@.skip(0)) =~= lines_of(cs@));
    }
    while pos < n
        invariant
            pos <= n,
            n == cs@.len(),
            lines_of(cs@) == r.deep_view() + lines_of(cs@.skip(pos as int)),
        decreases n - pos,
    {
        let ghost rest = cs@.skip(pos as int);
        let mut j: usize = pos;
        while j < n && *vstd::slice::slice_index_get(cs.as_slice(), j) != '\n'
            invariant
                pos <= j <= n,
                n == cs@.len(),
                forall|k: int| pos <= k < j ==> cs@[k] != '\n',
            decreases n - j,
        {
            j = j + 1;
        }
        proof {
            assert(forall|k: int| 0 <= k < j - pos ==> rest[k] == cs@[pos + k]);
            assert(j < n ==> rest[j - pos] == cs@[j as int]);
            lemma_first_nl_is(rest, j - pos);
        }
        let mut line: Vec<char> = vstd::slice::slice_to_vec(
            vstd::slice::slice_subrange(cs.as_slice(), pos, j),
        );
        if j < n {
            // the line is terminated by '\n': drop a '\r' just before it
            if line.len() > 0 && *vstd::slice::slice_index_get(line.as_slice(), line.len() - 1)
                == '\r' {
                line.pop();
            }
            assert(line@ =~= strip_cr(rest.take(j - pos))) by {
                assert(rest.take(j - pos) =~= cs@.subrange(pos as int, j as int));
            }
            let ghost old_r = r.deep_view();
            r.push(line);
            proof {
                assert(r.deep_view() =~~= old_r.push(strip_cr(rest.take(j - pos))));
                assert(lines_of(rest) == seq![strip_cr(rest.take(j - pos))] + lines_of(
                    rest.skip(j - pos + 1),
                ));
                assert(rest.skip(j - pos + 1) =~= cs@.skip(j + 1));
                assert(old_r + lines_of(rest) =~~= r.deep_view() + lines_of(cs@.skip(j + 1)));
            }
            pos = j + 1;
        } else {
            // no further newline: the remainder is the last line, kept as is
            let ghost old_r = r.deep_view();
            r.push(line);
            proof {
                assert(rest =~= cs@.subrange(pos as int, j as int));
                assert(r.deep_view() =~~= old_r.push(rest));
                assert(lines_of(rest) == seq![rest]);
                assert(cs@.skip(n as int) =~= Seq::<char>::empty());
                assert(old_r + lines_of(rest) =~~= r.deep_view() + lines_of(cs@.skip(n as int)));
            }
            pos = n;
        }
    }
    proof {
        assert(cs@.skip(pos as int) =~= Seq::<char>::empty());
        assert(r.deep_view() + lines_of(cs@.skip(pos as int)) =~= r.deep_view());
    }
    r
}

/// Splits a line into its whitespace-separated words, mirroring `words_of`.
pub fn words_in_line(l: &Vec<char>) -> (r: Vec<Vec<char>>)
    ensures
        r.deep_view() == words_of(l@),
{
    let n = l.len();
    let mut r: Vec<Vec<char>> = Vec::new();
    let mut pos: usize = 0;
    proof {
        assert(l@.skip(0) =~= l@);
        assert(r.deep_view() + words_of(l@.skip(0)) =~= words_of(l@));
    }
    while pos < n
        invariant
            pos <= n,
            n == l@.len(),
            words_of(l@) == r.deep_view() + words_of(l@.skip(pos as int)),
        decreases n - pos,
    {
        let ghost rest = l@.skip(pos as int);
        if char_is_space(*vstd::slice::slice_index_get(l.as_slice(), pos)) {
            proof {
                assert(rest[0] == l@[pos as int]);
                assert(rest.drop_first() =~= l@.skip(pos + 1));
            }
            pos = pos + 1;
        } else {
            let mut j: usize = pos + 1;
            while j < n && !char_is_space(*vstd::slice::slice_index_get(l.as_slice(), j))
                invariant
                    pos < j <= n,
                    n == l@.len(),
                    forall|k: int| pos <= k < j ==> !is_space(l@[k]),
                decreases n - j,
            {
                j = j + 1;
            }
            proof {
                assert(forall|k: int| 0 <= k < j - pos ==> rest[k] == l@[pos + k]);
                assert(j < n ==> rest[j - pos] == l@[j as int]);
                lemma_first_word_len_is(rest, j - pos);
            }
            let word: Vec<char> = vstd::slice::slice_to_vec(
                vstd::slice::slice_subrange(l.as_slice(), pos, j),
            );
            let ghost old_r = r.deep_view();
            r.push(word);
            proof {
                assert(rest.take(j - pos) =~= l@.subrange(pos as int, j as int));
                assert(r.deep_view() =~~= old_r.push(rest.take(j - pos)));
                assert(words_of(rest) == seq![rest.take(j - pos)] + words_of(
                    rest.skip(j - pos),
                ));
                assert(rest.skip(j - pos) =~= l@.skip(j as int));
                assert(old_r + words_of(rest) =~~= r.deep_view() + words_of(l@.skip(j as int)));
            }
            pos = j;
        }
    }
    proof {
        assert(l@.skip(pos as int) =~= Seq::<char>::empty());
        assert(r.deep_view() + words_of(l@.skip(pos as int)) =~= r.deep_view());
    }
    r
}

/// A line with its leading whitespace removed.
pub open spec fn trim_start_of(l: Seq<char>) -> Seq<char>
    decreases l.len(),
{
    if l.len() > 0 && is_space(l[0]) {
        trim_start_of(l.drop_first())
    } else {
        l
    }
}

/// A line with its trailing whitespace removed.
pub open spec fn trim_end_of(l: Seq<char>) -> Seq<char>
    decreases l.len(),
{
    if l.len() > 0 && is_space(l.last()) {
        trim_end_of(l.drop_last())
    } else {
        l
    }
}

/// A line with whitespace removed from both ends, as `str::trim` leaves it.
pub open spec fn trim_of(l: Seq<char>) -> Seq<char> {
    trim_end_of(trim_start_of(l))
}

pub proof fn lemma_trim_start_is(l: Seq<char>, a: int)
    requires
        0 <= a <= l.len(),
        forall|k: int| 0 <= k < a ==> is_space(l[k]),
        a == l.len() || !is_space(l[a]),
    ensures
        trim_start_of(l) == l.skip(a),
    decreases l.len(),
{
    if a == 0 {
        assert(l.skip(0) =~= l);
    } else {
        assert(is_space(l[0]));
        assert(forall|k: int| 0 <= k < a - 1 ==> l.drop_first()[k] == l[k + 1]);
        assert(a - 1 < l.drop_first().len() ==> l.drop_first()[a - 1] == l[a]);
        lemma_trim_start_is(l.drop_first(), a - 1);
        assert(l.drop_first().skip(a - 1) =~= l.skip(a));
    }
}

pub proof fn lemma_trim_end_is(l: Seq<char>, b: int)
    requires
        0 <= b <= l.len(),
        forall|k: int| b <= k < l.len() ==> is_space(l[k]),
        b == 0 || !is_space(l[b - 1]),
    ensures
        trim_end_of(l) == l.take(b),
    decreases l.len(),
{
    if b == l.len() {
        assert(l.take(b) =~= l);
    } else {
        assert(is_space(l.last()));
        assert(forall|k: int| 0 <= k < l.len() - 1 ==> l.drop_last()[k] == l[k]);
        lemma_trim_end_is(l.drop_last(), b);
        assert(l.drop_last().take(b) =~= l.take(b));
    }
}

/// Removes whitespace from both ends of a character vector.
pub fn trim_chars(l: &Vec<char>) -> (r: Vec<char>)
    ensures
        r@ == trim_of(l@),
{
    let n = l.len();
    let mut a: usize = 0;
    while a < n && char_is_space(*vstd::slice::slice_index_get(l.as_slice(), a))
        invariant
            a <= n,
            n == l@.len(),
            forall|k: int| 0 <= k < a ==> is_space(l@[k]),
        decreases n - a,
    {
        a = a + 1;
    }
    proof {
        lemma_trim_start_is(l@, a as int);
    }
    if a == n {
        let r: Vec<char> = Vec::new();
        proof {
            assert(l@.skip(a as int) =~= Seq::<char>::empty());
            assert(trim_end_of(Seq::<char>::empty()) == Seq::<char>::empty());
        }
        return r;
    }
    let mut b: usize = n;
    while b > a + 1 && char_is_space(*vstd::slice::slice_index_get(l.as_slice(), b - 1))
        invariant
            a < b <= n,
            n == l@.len(),
            forall|k: int| b <= k < n ==> is_space(l@[k]),
        decreases b,
    {
        b = b - 1;
    }
    let r: Vec<char> = vstd::slice::slice_to_vec(vstd::slice::slice_subrange(l.as_slice(), a, b));
    proof {
        let rest = l@.skip(a as int);
        if b == a + 1 && is_space(l@[b - 1]) {
            // the only remaining character is l[a], which is not a space
            assert(!is_space(l@[a as int]));
            assert(false);
        }
        assert(forall|k: int| b - a <= k < rest.len() ==> is_space(#[trigger] rest[k]));
        assert(!is_space(rest[b - a - 1]));
        lemma_trim_end_is(rest, b - a);
        assert(rest.take(b - a) =~= l@.subrange(a as int, b as int));
    }
    r
}

/// Lexicographic order on character sequences by code point, matching the
/// standard ordering of Rust strings.
pub open spec fn lex_le(a: Seq<char>, b: Seq<char>) -> bool
    decreases a.len(),
{
    if a.len() == 0 {
        true
    } else if b.len() == 0 {
        false
    } else if (a[0] as u32) < (b[0] as u32) {
        true
    } else if (a[0] as u32) > (b[0] as u32) {
        false
    } else {
        lex_le(a.drop_first(), b.drop_first())
    }
}

pub proof fn lemma_lex_le_total(a: Seq<char>, b: Seq<char>)
    ensures
        lex_le(a, b) || lex_le(b, a),
    decreases a.len(),
{
    if a.len() > 0 && b.len() > 0 && (a[0] as u32) == (b[0] as u32) {
        lemma_lex_le_total(a.drop_first(), b.drop_first());
    }
}

pub proof fn lemma_lex_le_trans(a: Seq<char>, b: Seq<char>, c: Seq<char>)
    requires
        lex_le(a, b),
        lex_le(b, c),
    ensures
        lex_le(a, c),
    decreases a.len(),
{
    if a.len() > 0 && b.len() > 0 && c.len() > 0 && (a[0] as u32) == (b[0] as u32) && (b[0]
        as u32) == (c[0] as u32) {
        lemma_lex_le_trans(a.drop_first(), b.drop_first(), c.drop_first());
    }
}

/// Equal prefixes do not affect the order of the remainders.
pub proof fn lemma_lex_le_skip(a: Seq<char>, b: Seq<char>, i: int)
    requires
        0 <= i <= a.len(),
        i <= b.len(),
        forall|k: int| 0 <= k < i ==> (a[k] as u32) == (b[k] as u32),
    ensures
        lex_le(a, b) == lex_le(a.skip(i), b.skip(i)),
    decreases i,
{
    if i == 0 {
        assert(a.skip(0) =~= a);
        assert(b.skip(0) =~= b);
    } else {
        assert((a[0] as u32) == (b[0] as u32));
        assert(forall|k: int|
            0 <= k < i - 1 ==> (a.drop_first()[k] as u32) == (b.drop_first()[k] as u32));
        lemma_lex_le_skip(a.drop_first(), b.drop_first(), i - 1);
        assert(a.drop_first().skip(i - 1) =~= a.skip(i));
        assert(b.drop_first().skip(i - 1) =~= b.skip(i));
    }
}

/// Decides `lex_le` on string slices.
pub fn lex_le_str(a: &str, b: &str) -> (r: bool)
    ensures
        r == lex_le(a@, b@),
{
    let la = a.unicode_len();
    let lb = b.unicode_len();
    let mut i: usize = 0;
    while i < la && i < lb
        invariant
            i <= la,
            i <= lb,
            la == a@.len(),
            lb == b@.len(),
            forall|k: int| 0 <= k < i ==> (a@[k] as u32) == (b@[k] as u32),
        decreases la - i,
    {
        let ca = a.get_char(i) as u32;
        let cb = b.get_char(i) as u32;
        if ca < cb {
            proof {
                lemma_lex_le_skip(a@, b@, i as int);
                assert(a@.skip(i as int)[0] == a@[i as int]);
                assert(b@.skip(i as int)[0] == b@[i as int]);
            }
            return true;
        }
        if ca > cb {
            proof {
                lemma_lex_le_skip(a@, b@, i as int);
                assert(a@.skip(i as int)[0] == a@[i as int]);
                assert(b@.skip(i as int)[0] == b@[i as int]);
            }
            return false;
        }
        i = i + 1;
    }
    proof {
        lemma_lex_le_skip(a@, b@, i as int);
        if la <= lb {
            assert(a@.skip(i as int) =~= Seq::<char>::empty());
        } else {
            assert(b@.skip(i as int) =~= Seq::<char>::empty());
            assert(a@.skip(i as int).len() > 0);
        }
    }
    la <= lb
}

/// Whether `s` ends with `suf`.
pub open spec fn ends_with(s: Seq<char>, suf: Seq<char>) -> bool {
    s.len() >= suf.len() && s.skip(s.len() - suf.len()) == suf
}

/// `s` with one trailing `suf` removed; meaningful when `ends_with(s, suf)`.
pub open spec fn strip_suffix(s: Seq<char>, suf: Seq<char>) -> Seq<char> {
    s.take(s.len() - suf.len())
}

/// Decides `ends_with` on string slices.
pub fn str_ends_with(s: &str, suf: &str) -> (r: bool)
    ensures
        r == ends_with(s@, suf@),
{
    let n = s.unicode_len();
    let m = suf.unicode_len();
    if n < m {
        return false;
    }
    let off = n - m;
    let mut t: usize = 0;
    while t < m
        invariant
            t <= m,
            m <= n,
            off == n - m,
            n == s@.len(),
            m == suf@.len(),
            forall|k: int| 0 <= k < t ==> s@[off + k] == suf@[k],
        decreases m - t,
    {
        if s.get_char(off + t) != suf.get_char(t) {
            proof {
                assert(s@.skip(off as int)[t as int] == s@[off + t]);
            }
            return false;
        }
        t = t + 1;
    }
    proof {
        assert(s@.skip(off as int) =~= suf@);
    }
    true
}

/// Removes one trailing `suf` from `s`.
pub fn strip_suffix_str(s: &str, suf: &str) -> (r: String)
    requires
        ends_with(s@, suf@),
    ensures
        r@ == strip_suffix(s@, suf@),
{
    let n = s.unicode_len();
    let m = suf.unicode_len();
    let r = s.substring_char(0, n - m);
    proof {
        assert(r@ =~= s@.take(n - m));
    }
    String::from_str(r)
}

} // verus!
