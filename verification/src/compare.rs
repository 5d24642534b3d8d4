//! The comparator: aligns actual output against the shape of the expected
//! output, classifies the run, and renders a line diff.
//!
//! The comparison is deliberately asymmetric: the expected token stream
//! dictates the line structure and the number of words per line, while the
//! actual stream only supplies words, pulled positionally in order. Internal
//! spacing and the actual output's own line breaks are thus ignored; words
//! beyond what the expected stream requires are silently dropped.
use vstd::prelude::*;

use crate::model::{ResultModel, TecoCase, TecoExecution, TecoResult};
use crate::text::{chars_of, lines_of, split_lines_chars, trim_chars, trim_of};
use crate::token::{
    chars_to_string, construct_string, drop_trailing_nl, lemma_render_push_nl,
    lemma_render_push_word, lemma_tokenize_render, lemma_tokens_of_canonical, line_open, render,
    tokens_of, Tok, Token,
};

verus! {

/// The texts of the word tokens of a sequence, in order, line breaks skipped.
pub open spec fn words_seq(ts: Seq<Tok>) -> Seq<Seq<char>>
    decreases ts.len(),
{
    if ts.len() == 0 {
        seq![]
    } else {
        match ts[0] {
            Tok::Word(w) => seq![w] + words_seq(ts.drop_first()),
            Tok::Newline => words_seq(ts.drop_first()),
        }
    }
}

/// How many word tokens a sequence holds.
pub open spec fn word_count(ts: Seq<Tok>) -> nat {
    words_seq(ts).len()
}

/// The token sequence with the same shape as `ts` (same line breaks, same
/// word positions), whose words are drawn positionally from `ws`.
pub open spec fn replace_words(ts: Seq<Tok>, ws: Seq<Seq<char>>) -> Seq<Tok>
    decreases ts.len(),
{
    if ts.len() == 0 {
        seq![]
    } else {
        match ts[0] {
            Tok::Newline => seq![Tok::Newline] + replace_words(ts.drop_first(), ws),
            Tok::Word(w) => seq![Tok::Word(ws[0])] + replace_words(
                ts.drop_first(),
                ws.drop_first(),
            ),
        }
    }
}

pub proof fn lemma_words_seq_push(ts: Seq<Tok>, t: Tok)
    ensures
        words_seq(ts.push(t)) == match t {
            Tok::Word(w) => words_seq(ts).push(w),
            Tok::Newline => words_seq(ts),
        },
    decreases ts.len(),
{
    let p = ts.push(t);
    if ts.len() == 0 {
        assert(p.drop_first() =~= Seq::<Tok>::empty());
        assert(words_seq(Seq::<Tok>::empty()) == Seq::<Seq<char>>::empty());
        match t {
            Tok::Word(w) => {
                assert(words_seq(p) =~~= words_seq(ts).push(w));
            },
            Tok::Newline => {
                assert(words_seq(p) =~~= words_seq(ts));
            },
        }
    } else {
        assert(p.drop_first() =~= ts.drop_first().push(t));
        lemma_words_seq_push(ts.drop_first(), t);
        match t {
            Tok::Word(w) => {
                match ts[0] {
                    Tok::Word(v) => {
                        assert(words_seq(p) =~~= words_seq(ts).push(w));
                    },
                    Tok::Newline => {
                        assert(words_seq(p) =~~= words_seq(ts).push(w));
                    },
                }
            },
            Tok::Newline => {
                match ts[0] {
                    Tok::Word(v) => {
                        assert(words_seq(p) =~~= words_seq(ts));
                    },
                    Tok::Newline => {
                        assert(words_seq(p) =~~= words_seq(ts));
                    },
                }
            },
        }
    }
}

pub proof fn lemma_word_count_take_le(ts: Seq<Tok>, i: int)
    requires
        0 <= i <= ts.len(),
    ensures
        word_count(ts.take(i)) <= word_count(ts),
    decreases ts.len() - i,
{
    if i == ts.len() {
        assert(ts.take(i) =~= ts);
    } else {
        assert(ts.take(i + 1) =~= ts.take(i).push(ts[i]));
        lemma_words_seq_push(ts.take(i), ts[i]);
        lemma_word_count_take_le(ts, i + 1);
    }
}

pub proof fn lemma_replace_words_push(ts: Seq<Tok>, t: Tok, ws: Seq<Seq<char>>)
    requires
        t is Word ==> word_count(ts) < ws.len(),
    ensures
        replace_words(ts.push(t), ws) == match t {
            Tok::Newline => replace_words(ts, ws).push(Tok::Newline),
            Tok::Word(w) => replace_words(ts, ws).push(Tok::Word(ws[word_count(ts) as int])),
        },
    decreases ts.len(),
{
    let p = ts.push(t);
    if ts.len() == 0 {
        assert(p.drop_first() =~= Seq::<Tok>::empty());
        assert(p[0] == t);
        assert(words_seq(Seq::<Tok>::empty()) == Seq::<Seq<char>>::empty());
        match t {
            Tok::Word(w) => {
                assert(replace_words(Seq::<Tok>::empty(), ws.drop_first())
                    == Seq::<Tok>::empty());
                assert(replace_words(p, ws) == seq![Tok::Word(ws[0])] + replace_words(
                    Seq::<Tok>::empty(),
                    ws.drop_first(),
                ));
                assert(replace_words(p, ws) =~~= replace_words(ts, ws).push(
                    Tok::Word(ws[word_count(ts) as int]),
                ));
            },
            Tok::Newline => {
                assert(replace_words(Seq::<Tok>::empty(), ws) == Seq::<Tok>::empty());
                assert(replace_words(p, ws) == seq![Tok::Newline] + replace_words(
                    Seq::<Tok>::empty(),
                    ws,
                ));
                assert(replace_words(p, ws) =~~= replace_words(ts, ws).push(Tok::Newline));
            },
        }
    } else {
        assert(p.drop_first() =~= ts.drop_first().push(t));
        match ts[0] {
            Tok::Newline => {
                lemma_replace_words_push(ts.drop_first(), t, ws);
                match t {
                    Tok::Word(w) => {
                        assert(word_count(ts.drop_first()) == word_count(ts));
                        assert(replace_words(p, ws) =~~= replace_words(ts, ws).push(
                            Tok::Word(ws[word_count(ts) as int]),
                        ));
                    },
                    Tok::Newline => {
                        assert(replace_words(p, ws) =~~= replace_words(ts, ws).push(
                            Tok::Newline,
                        ));
                    },
                }
            },
            Tok::Word(v) => {
                lemma_replace_words_push(ts.drop_first(), t, ws.drop_first());
                match t {
                    Tok::Word(w) => {
                        assert(word_count(ts) == 1 + word_count(ts.drop_first()));
                        assert(ws.drop_first()[word_count(ts.drop_first()) as int] == ws[
                            word_count(ts) as int]);
                        assert(replace_words(p, ws) =~~= replace_words(ts, ws).push(
                            Tok::Word(ws[word_count(ts) as int]),
                        ));
                    },
                    Tok::Newline => {
                        assert(replace_words(p, ws) =~~= replace_words(ts, ws).push(
                            Tok::Newline,
                        ));
                    },
                }
            },
        }
    }
}

/// The word texts of a token vector, in order.
pub fn words_of_tokens(tokens: &Vec<Token>) -> (r: Vec<String>)
    ensures
        r.deep_view() == words_seq(tokens.deep_view()),
{
    let n = tokens.len();
    let ghost ts = tokens.deep_view();
    let mut r: Vec<String> = Vec::new();
    let mut i: usize = 0;
    proof {
        assert(ts.take(0) =~= Seq::<Tok>::empty());
        assert(r.deep_view() =~= words_seq(ts.take(0)));
    }
    while i < n
        invariant
            i <= n,
            n == tokens@.len(),
            ts == tokens.deep_view(),
            r.deep_view() == words_seq(ts.take(i as int)),
        decreases n - i,
    {
        proof {
            assert(ts.take(i + 1) =~= ts.take(i as int).push(ts[i as int]));
            assert(ts[i as int] == tokens@[i as int]@);
            lemma_words_seq_push(ts.take(i as int), ts[i as int]);
        }
        match vstd::slice::slice_index_get(tokens.as_slice(), i) {
            Token::Word(w) => {
                let ghost old_r = r.deep_view();
                r.push(w.clone());
                proof {
                    assert(r.deep_view() =~~= old_r.push(w@));
                }
            },
            Token::Newline => {},
        }
        i = i + 1;
    }
    proof {
        assert(ts.take(n as int) =~= ts);
    }
    r
}

/// How many word tokens the vector holds.
pub fn count_words(tokens: &Vec<Token>) -> (n: usize)
    ensures
        n == word_count(tokens.deep_view()),
{
    let len = tokens.len();
    let ghost ts = tokens.deep_view();
    let mut c: usize = 0;
    let mut i: usize = 0;
    proof {
        assert(ts.take(0) =~= Seq::<Tok>::empty());
    }
    while i < len
        invariant
            i <= len,
            len == tokens@.len(),
            ts == tokens.deep_view(),
            c <= i,
            c == word_count(ts.take(i as int)),
        decreases len - i,
    {
        proof {
            assert(ts.take(i + 1) =~= ts.take(i as int).push(ts[i as int]));
            assert(ts[i as int] == tokens@[i as int]@);
            lemma_words_seq_push(ts.take(i as int), ts[i as int]);
        }
        match vstd::slice::slice_index_get(tokens.as_slice(), i) {
            Token::Word(_) => {
                c = c + 1;
            },
            Token::Newline => {},
        }
        i = i + 1;
    }
    proof {
        assert(ts.take(len as int) =~= ts);
    }
    c
}

/// Classifies one executed case from its tokenized standard output.
///
/// With expected tokens present, the expected stream dictates the shape: its
/// words and line breaks are replayed, while each expected word pulls the
/// next actual word positionally. The two normalized renderings are then
/// compared for exact equality; extra actual words are dropped. Without
/// expected tokens the verdict is always `Unknown`, never `Pass` or `Fail`,
/// whatever the actual output holds, and the actual tokens are only rendered
/// for display.
///
/// The caller must supply at least as many actual words as the expected
/// stream pulls; `count_words` decides that.
pub fn classify(case: TecoCase, stdout_tokens: Vec<Token>, stderr_content: String) -> (ex:
    TecoExecution)
    requires
        case.expected_tokens matches Some(e) ==> word_count(e.deep_view()) <= word_count(
            stdout_tokens.deep_view(),
        ),
    ensures
        ex.case == case,
        ex.stderr_content == stderr_content,
        ex.result@ is Unknown <==> case@.expected_tokens is None,
        match case@.expected_tokens {
            Some(e) => {
                let ec = render(e);
                let ac = render(replace_words(e, words_seq(stdout_tokens.deep_view())));
                &&& ex.stdout_content@ == ac
                &&& (ac == ec ==> ex.result@ == ResultModel::Pass)
                &&& (ac != ec ==> ex.result@ == (ResultModel::Fail { expected_content: ec }))
            },
            None => {
                &&& ex.result@ == ResultModel::Unknown
                &&& ex.stdout_content@ == render(stdout_tokens.deep_view())
            },
        },
{
    if case.expected_tokens.is_some() {
        let expected = case.expected_tokens.as_ref().unwrap();
        let words = words_of_tokens(&stdout_tokens);
        let wl = words.len();
        let ghost e = expected.deep_view();
        let ghost ws = words_seq(stdout_tokens.deep_view());
        let n = expected.len();
        let mut exp_out: Vec<char> = Vec::new();
        let mut act_out: Vec<char> = Vec::new();
        let mut has_word: bool = false;
        let mut k: usize = 0;
        let mut i: usize = 0;
        proof {
            assert(e.take(0) =~= Seq::<Tok>::empty());
            assert(replace_words(Seq::<Tok>::empty(), ws) == Seq::<Tok>::empty());
            assert(words_seq(Seq::<Tok>::empty()) == Seq::<Seq<char>>::empty());
            assert(crate::token::token_lines(Seq::<Tok>::empty())
                == seq![Seq::<Seq<char>>::empty()]);
            assert(crate::token::token_lines(Seq::<Tok>::empty()).map_values(
                |g: Seq<Seq<char>>| crate::token::join_words(g),
            ) =~~= seq![Seq::<char>::empty()]);
            assert(render(Seq::<Tok>::empty()) =~= Seq::<char>::empty());
        }
        while i < n
            invariant
                i <= n,
                n == expected@.len(),
                e == expected.deep_view(),
                ws == words_seq(stdout_tokens.deep_view()),
                words.deep_view() == ws,
                wl == ws.len(),
                word_count(e) <= ws.len(),
                k == word_count(e.take(i as int)),
                k <= ws.len(),
                exp_out@ == render(e.take(i as int)),
                act_out@ == render(replace_words(e.take(i as int), ws)),
                has_word == line_open(e.take(i as int)),
                has_word == line_open(replace_words(e.take(i as int), ws)),
            decreases n - i,
        {
            let ghost pre = e.take(i as int);
            let ghost rpre = replace_words(pre, ws);
            proof {
                assert(e.take(i + 1) =~= pre.push(e[i as int]));
                assert(e[i as int] == expected@[i as int]@);
                lemma_words_seq_push(pre, e[i as int]);
                lemma_word_count_take_le(e, i + 1);
            }
            match vstd::slice::slice_index_get(expected.as_slice(), i) {
                Token::Newline => {
                    proof {
                        lemma_replace_words_push(pre, Tok::Newline, ws);
                        lemma_render_push_nl(pre);
                        lemma_render_push_nl(rpre);
                    }
                    exp_out.push('\n');
                    act_out.push('\n');
                    has_word = false;
                },
                Token::Word(w) => {
                    proof {
                        assert(word_count(e.take(i + 1)) == k + 1);
                        lemma_replace_words_push(pre, Tok::Word(w@), ws);
                        lemma_render_push_word(pre, w@);
                        lemma_render_push_word(rpre, ws[k as int]);
                    }
                    if has_word {
                        exp_out.push(' ');
                        act_out.push(' ');
                    }
                    let wc = chars_of(w.as_str());
                    exp_out.extend_from_slice(wc.as_slice());
                    let aw = vstd::slice::slice_index_get(words.as_slice(), k);
                    let awc = chars_of(aw.as_str());
                    act_out.extend_from_slice(awc.as_slice());
                    proof {
                        assert(aw@ == words.deep_view()[k as int]);
                        if line_open(pre) {
                            assert(exp_out@ =~= render(pre) + (seq![' '] + w@));
                            assert(act_out@ =~= render(rpre) + (seq![' '] + ws[k as int]));
                        } else {
                            assert(exp_out@ =~= render(pre) + w@);
                            assert(act_out@ =~= render(rpre) + ws[k as int]);
                        }
                    }
                    k = k + 1;
                    has_word = true;
                },
            }
            i = i + 1;
        }
        proof {
            assert(e.take(n as int) =~= e);
        }
        let expected_content = chars_to_string(exp_out);
        let stdout_content = chars_to_string(act_out);
        if stdout_content == expected_content {
            TecoExecution { case, stdout_content, stderr_content, result: TecoResult::Pass }
        } else {
            TecoExecution {
                case,
                stdout_content,
                stderr_content,
                result: TecoResult::Fail { expected_content },
            }
        }
    } else {
        let stdout_content = construct_string(stdout_tokens);
        TecoExecution { case, stdout_content, stderr_content, result: TecoResult::Unknown }
    }
}

/// One line of a rendered diff: either the shared trimmed text of a matched
/// pair of lines, or the trimmed expected and actual texts of a mismatch.
#[derive(Debug, Clone, PartialEq)]
pub enum DiffLine {
    Same(String),
    Mismatch { expected: String, actual: String },
}

/// Mathematical model of a [`DiffLine`].
pub enum DiffLineModel {
    Same(Seq<char>),
    Mismatch { expected: Seq<char>, actual: Seq<char> },
}

impl View for DiffLine {
    type V = DiffLineModel;

    open spec fn view(&self) -> DiffLineModel {
        match self {
            DiffLine::Same(t) => DiffLineModel::Same(t@),
            DiffLine::Mismatch { ref expected, ref actual } => DiffLineModel::Mismatch {
                expected: expected@,
                actual: actual@,
            },
        }
    }
}

impl DeepView for DiffLine {
    type V = DiffLineModel;

    open spec fn deep_view(&self) -> DiffLineModel {
        self.view()
    }
}

/// The line diff of two texts: their lines zipped up to the shorter line
/// count, each pair trimmed and compared; trailing unmatched lines of the
/// longer text are omitted.
pub open spec fn spec_diff(e: Seq<char>, a: Seq<char>) -> Seq<DiffLineModel> {
    let el = lines_of(e);
    let al = lines_of(a);
    let n = if el.len() <= al.len() {
        el.len()
    } else {
        al.len()
    };
    Seq::new(
        n,
        |i: int|
            {
                let x = trim_of(el[i]);
                let y = trim_of(al[i]);
                if x == y {
                    DiffLineModel::Same(x)
                } else {
                    DiffLineModel::Mismatch { expected: x, actual: y }
                }
            },
    )
}

/// Whether two character vectors hold the same characters.
fn chars_eq(a: &Vec<char>, b: &Vec<char>) -> (r: bool)
    ensures
        r == (a@ == b@),
{
    let n = a.len();
    if n != b.len() {
        return false;
    }
    let mut i: usize = 0;
    while i < n
        invariant
            i <= n,
            n == a@.len(),
            n == b@.len(),
            forall|k: int| 0 <= k < i ==> a@[k] == b@[k],
        decreases n - i,
    {
        if *vstd::slice::slice_index_get(a.as_slice(), i) != *vstd::slice::slice_index_get(
            b.as_slice(),
            i,
        ) {
            return false;
        }
        i = i + 1;
    }
    proof {
        assert(a@ =~= b@);
    }
    true
}

/// Renders the line diff of the normalized expected and actual texts: matched
/// pairs of trimmed lines pass through unmarked, mismatched pairs carry both
/// texts, and lines past the shorter text are omitted.
pub fn diff(expected_content: &str, actual_content: &str) -> (r: Vec<DiffLine>)
    ensures
        r.deep_view() == spec_diff(expected_content@, actual_content@),
{
    let ec = chars_of(expected_content);
    let el = split_lines_chars(&ec);
    let ac = chars_of(actual_content);
    let al = split_lines_chars(&ac);
    let n = if el.len() <= al.len() {
        el.len()
    } else {
        al.len()
    };
    let ghost d = spec_diff(expected_content@, actual_content@);
    let mut r: Vec<DiffLine> = Vec::new();
    let mut i: usize = 0;
    proof {
        assert(d.len() == n);
        assert(r.deep_view() =~= d.take(0));
    }
    while i < n
        invariant
            i <= n,
            n <= el@.len(),
            n <= al@.len(),
            el.deep_view() == lines_of(expected_content@),
            al.deep_view() == lines_of(actual_content@),
            d == spec_diff(expected_content@, actual_content@),
            d.len() == n,
            r.deep_view() == d.take(i as int),
        decreases n - i,
    {
        let et = trim_chars(vstd::slice::slice_index_get(el.as_slice(), i));
        let at = trim_chars(vstd::slice::slice_index_get(al.as_slice(), i));
        proof {
            assert(el@[i as int]@ == el.deep_view()[i as int]);
            assert(al@[i as int]@ == al.deep_view()[i as int]);
        }
        let ghost old_r = r.deep_view();
        if chars_eq(&et, &at) {
            r.push(DiffLine::Same(chars_to_string(et)));
        } else {
            r.push(DiffLine::Mismatch {
                expected: chars_to_string(et),
                actual: chars_to_string(at),
            });
        }
        proof {
            assert(r.deep_view() =~~= old_r.push(d[i as int]));
            assert(d.take(i + 1) =~= d.take(i as int).push(d[i as int]));
        }
        i = i + 1;
    }
    proof {
        assert(d.take(n as int) =~= d);
    }
    r
}

/// Replacing the words of a token sequence with its own words is a no-op.
proof fn lemma_replace_self(ts: Seq<Tok>)
    ensures
        replace_words(ts, words_seq(ts)) == ts,
    decreases ts.len(),
{
    if ts.len() == 0 {
        assert(replace_words(ts, words_seq(ts)) =~= ts);
    } else {
        lemma_replace_self(ts.drop_first());
        match ts[0] {
            Tok::Newline => {
                assert(words_seq(ts) == words_seq(ts.drop_first()));
                assert(replace_words(ts, words_seq(ts)) == seq![Tok::Newline] + replace_words(
                    ts.drop_first(),
                    words_seq(ts.drop_first()),
                ));
                assert(replace_words(ts, words_seq(ts)) =~= ts);
            },
            Tok::Word(w) => {
                let ws = words_seq(ts);
                assert(ws == seq![w] + words_seq(ts.drop_first()));
                assert(ws[0] == w);
                assert(ws.drop_first() =~= words_seq(ts.drop_first()));
                assert(replace_words(ts, ws) == seq![Tok::Word(w)] + replace_words(
                    ts.drop_first(),
                    ws.drop_first(),
                ));
                assert(replace_words(ts, ws) =~= ts);
            },
        }
    }
}

/// Classification is reflexive on exact matches: when the normalized
/// rendering of the actual text is character-identical to the normalized
/// rendering of the expected text, the actual stream supplies enough words,
/// and the comparator's actual-derived rendering equals its expected-derived
/// rendering — so `classify` returns `Pass`.
pub proof fn lemma_exact_match_passes(a: Seq<char>, e: Seq<char>)
    requires
        render(tokens_of(a)) == render(tokens_of(e)),
    ensures
        word_count(tokens_of(e)) <= word_count(tokens_of(a)),
        render(replace_words(tokens_of(e), words_seq(tokens_of(a)))) == render(tokens_of(e)),
{
    let ta = tokens_of(a);
    let te = tokens_of(e);
    lemma_tokens_of_canonical(a);
    lemma_tokens_of_canonical(e);
    lemma_tokenize_render(ta);
    lemma_tokenize_render(te);
    assert(drop_trailing_nl(ta) == drop_trailing_nl(te));
    if ta.len() > 0 && ta.last() is Newline {
        assert(ta =~= ta.drop_last().push(Tok::Newline));
        lemma_words_seq_push(ta.drop_last(), Tok::Newline);
        assert(words_seq(drop_trailing_nl(ta)) == words_seq(ta));
    }
    if te.len() > 0 && te.last() is Newline {
        assert(te =~= te.drop_last().push(Tok::Newline));
        lemma_words_seq_push(te.drop_last(), Tok::Newline);
        assert(words_seq(drop_trailing_nl(te)) == words_seq(te));
    }
    assert(words_seq(ta) == words_seq(te));
    lemma_replace_self(te);
    assert(replace_words(te, words_seq(ta)) == te);
}

} // verus!
