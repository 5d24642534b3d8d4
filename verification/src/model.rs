//! Test cases, verdicts, and execution records, and the case repository that
//! builds an ordered collection of cases from a directory listing.
use vstd::prelude::*;

use crate::text::{
    ends_with, lemma_lex_le_total, lemma_lex_le_trans, lex_le, lex_le_str, str_ends_with,
    strip_suffix, strip_suffix_str,
};
use crate::token::{tokens_of, Tok, Token};

verus! {

/// One test case: a name (the input file's base name), the input text fed to
/// the subject program, and the tokenized expected output, absent when no
/// matching expected-output file exists.
#[derive(Debug, Clone)]
pub struct TecoCase {
    pub name: String,
    pub input_content: String,
    pub expected_tokens: Option<Vec<Token>>,
}

/// Mathematical model of a [`TecoCase`].
pub struct CaseModel {
    pub name: Seq<char>,
    pub input_content: Seq<char>,
    pub expected_tokens: Option<Seq<Tok>>,
}

impl View for TecoCase {
    type V = CaseModel;

    open spec fn view(&self) -> CaseModel {
        CaseModel {
            name: self.name@,
            input_content: self.input_content@,
            expected_tokens: match self.expected_tokens {
                Option::Some(ref v) => Option::Some(v.deep_view()),
                Option::None => Option::None,
            },
        }
    }
}

impl DeepView for TecoCase {
    type V = CaseModel;

    open spec fn deep_view(&self) -> CaseModel {
        self.view()
    }
}

/// The verdict for one executed case: the tokens matched, they differed (with
/// the normalized expected text kept for diffing), or no expected output
/// existed so no comparison was possible.
#[derive(Debug, Clone)]
pub enum TecoResult {
    Pass,
    Fail { expected_content: String },
    Unknown,
}

/// Mathematical model of a [`TecoResult`].
pub enum ResultModel {
    Pass,
    Fail { expected_content: Seq<char> },
    Unknown,
}

impl View for TecoResult {
    type V = ResultModel;

    open spec fn view(&self) -> ResultModel {
        match self {
            TecoResult::Pass => ResultModel::Pass,
            TecoResult::Fail { ref expected_content } => ResultModel::Fail {
                expected_content: expected_content@,
            },
            TecoResult::Unknown => ResultModel::Unknown,
        }
    }
}

/// The outcome of running one case: the originating case, the normalized
/// captured standard output, the raw captured standard error, and the verdict.
#[derive(Debug, Clone)]
pub struct TecoExecution {
    pub case: TecoCase,
    pub stdout_content: String,
    pub stderr_content: String,
    pub result: TecoResult,
}

/// One regular file of the case directory: its file name and full contents.
#[derive(Debug, Clone)]
pub struct CaseFile {
    pub name: String,
    pub content: String,
}

/// Mathematical model of a [`CaseFile`].
pub struct FileModel {
    pub name: Seq<char>,
    pub content: Seq<char>,
}

impl View for CaseFile {
    type V = FileModel;

    open spec fn view(&self) -> FileModel {
        FileModel { name: self.name@, content: self.content@ }
    }
}

impl DeepView for CaseFile {
    type V = FileModel;

    open spec fn deep_view(&self) -> FileModel {
        self.view()
    }
}

/// An extension as a file-name suffix: a dot followed by the extension.
pub open spec fn dot_ext(ext: Seq<char>) -> Seq<char> {
    seq!['.'] + ext
}

/// The tokenized contents of the first file named `target`, if one exists.
pub open spec fn lookup_tokens(files: Seq<FileModel>, target: Seq<char>) -> Option<Seq<Tok>>
    decreases files.len(),
{
    if files.len() == 0 {
        Option::None
    } else if files[0].name == target {
        Option::Some(tokens_of(files[0].content))
    } else {
        lookup_tokens(files.drop_first(), target)
    }
}

/// The cases of a directory listing, in listing order: every file whose name
/// ends in `.{iext}` becomes one case, named by stripping that one suffix;
/// its expected tokens come from the sibling file `{name}.{oext}` when one
/// exists.
pub open spec fn spec_cases(
    files: Seq<FileModel>,
    all: Seq<FileModel>,
    iext: Seq<char>,
    oext: Seq<char>,
) -> Seq<CaseModel>
    decreases files.len(),
{
    if files.len() == 0 {
        seq![]
    } else {
        let rest = spec_cases(files.drop_first(), all, iext, oext);
        if ends_with(files[0].name, dot_ext(iext)) {
            let nm = strip_suffix(files[0].name, dot_ext(iext));
            seq![
                CaseModel {
                    name: nm,
                    input_content: files[0].content,
                    expected_tokens: lookup_tokens(all, nm + dot_ext(oext)),
                },
            ] + rest
        } else {
            rest
        }
    }
}

/// `c` inserted behind every case whose name is at most `c`'s.
pub open spec fn insert_sorted(c: CaseModel, s: Seq<CaseModel>) -> Seq<CaseModel>
    decreases s.len(),
{
    if s.len() == 0 {
        seq![c]
    } else if lex_le(s[0].name, c.name) {
        seq![s[0]] + insert_sorted(c, s.drop_first())
    } else {
        seq![c] + s
    }
}

/// The cases in ascending order of name; cases of equal name keep their
/// relative order.
pub open spec fn sort_cases(s: Seq<CaseModel>) -> Seq<CaseModel>
    decreases s.len(),
{
    if s.len() == 0 {
        seq![]
    } else {
        insert_sorted(s.last(), sort_cases(s.drop_last()))
    }
}

pub open spec fn sorted_by_name(s: Seq<CaseModel>) -> bool {
    forall|i: int, j: int| 0 <= i < j < s.len() ==> lex_le(s[i].name, s[j].name)
}

pub proof fn lemma_spec_cases_push(
    fs: Seq<FileModel>,
    f: FileModel,
    all: Seq<FileModel>,
    iext: Seq<char>,
    oext: Seq<char>,
)
    ensures
        spec_cases(fs.push(f), all, iext, oext) == spec_cases(fs, all, iext, oext) + (
        if ends_with(f.name, dot_ext(iext)) {
            seq![
                CaseModel {
                    name: strip_suffix(f.name, dot_ext(iext)),
                    input_content: f.content,
                    expected_tokens: lookup_tokens(
                        all,
                        strip_suffix(f.name, dot_ext(iext)) + dot_ext(oext),
                    ),
                },
            ]
        } else {
            seq![]
        }),
    decreases fs.len(),
{
    let p = fs.push(f);
    if fs.len() == 0 {
        assert(p.drop_first() =~= Seq::<FileModel>::empty());
        assert(p[0] == f);
        assert(spec_cases(Seq::<FileModel>::empty(), all, iext, oext) == Seq::<CaseModel>::empty());
        if ends_with(f.name, dot_ext(iext)) {
            assert(spec_cases(p, all, iext, oext) =~= spec_cases(fs, all, iext, oext) + seq![
                CaseModel {
                    name: strip_suffix(f.name, dot_ext(iext)),
                    input_content: f.content,
                    expected_tokens: lookup_tokens(
                        all,
                        strip_suffix(f.name, dot_ext(iext)) + dot_ext(oext),
                    ),
                },
            ]);
        } else {
            assert(spec_cases(p, all, iext, oext) =~= spec_cases(fs, all, iext, oext));
        }
    } else {
        assert(p.drop_first() =~= fs.drop_first().push(f));
        lemma_spec_cases_push(fs.drop_first(), f, all, iext, oext);
        assert(p[0] == fs[0]);
        let tail = if ends_with(f.name, dot_ext(iext)) {
            seq![
                CaseModel {
                    name: strip_suffix(f.name, dot_ext(iext)),
                    input_content: f.content,
                    expected_tokens: lookup_tokens(
                        all,
                        strip_suffix(f.name, dot_ext(iext)) + dot_ext(oext),
                    ),
                },
            ]
        } else {
            Seq::<CaseModel>::empty()
        };
        let rest = spec_cases(fs.drop_first(), all, iext, oext);
        if ends_with(fs[0].name, dot_ext(iext)) {
            let c0 = CaseModel {
                name: strip_suffix(fs[0].name, dot_ext(iext)),
                input_content: fs[0].content,
                expected_tokens: lookup_tokens(
                    all,
                    strip_suffix(fs[0].name, dot_ext(iext)) + dot_ext(oext),
                ),
            };
            assert(spec_cases(p, all, iext, oext) == seq![c0] + (rest + tail));
            assert(seq![c0] + (rest + tail) =~= (seq![c0] + rest) + tail);
        } else {
            assert(spec_cases(p, all, iext, oext) == rest + tail);
        }
    }
}

/// Inserting at the first position whose case name does not lie at or below
/// `c`'s name is what `insert_sorted` does.
pub proof fn lemma_insert_sorted_at(c: CaseModel, s: Seq<CaseModel>, p: int)
    requires
        0 <= p <= s.len(),
        forall|q: int| 0 <= q < p ==> lex_le(s[q].name, c.name),
        p == s.len() || !lex_le(s[p].name, c.name),
    ensures
        insert_sorted(c, s) == s.insert(p, c),
    decreases s.len(),
{
    if p == 0 {
        if s.len() == 0 {
            assert(insert_sorted(c, s) =~= s.insert(0, c));
        } else {
            assert(!lex_le(s[0].name, c.name));
            assert(seq![c] + s =~= s.insert(0, c));
        }
    } else {
        assert(lex_le(s[0].name, c.name));
        assert forall|q: int| 0 <= q < p - 1 implies lex_le(
            s.drop_first()[q].name,
            c.name,
        ) by {
            assert(s.drop_first()[q] == s[q + 1]);
        };
        assert(p - 1 == s.drop_first().len() || !lex_le(s.drop_first()[p - 1].name, c.name));
        lemma_insert_sorted_at(c, s.drop_first(), p - 1);
        assert(seq![s[0]] + s.drop_first().insert(p - 1, c) =~= s.insert(p, c));
    }
}

/// Inserting between the cases at or below `c` and those above it keeps the
/// collection sorted.
pub proof fn lemma_sorted_insert(s: Seq<CaseModel>, c: CaseModel, p: int)
    requires
        sorted_by_name(s),
        0 <= p <= s.len(),
        forall|q: int| 0 <= q < p ==> lex_le(s[q].name, c.name),
        forall|q: int| p <= q < s.len() ==> lex_le(c.name, s[q].name),
    ensures
        sorted_by_name(s.insert(p, c)),
{
    let t = s.insert(p, c);
    assert forall|i: int, j: int| 0 <= i < j < t.len() implies lex_le(t[i].name, t[j].name) by {
        if i < p {
            assert(t[i] == s[i]);
        } else if i == p {
            assert(t[i] == c);
        } else {
            assert(t[i] == s[i - 1]);
        }
        if j < p {
            assert(t[j] == s[j]);
        } else if j == p {
            assert(t[j] == c);
        } else {
            assert(t[j] == s[j - 1]);
        }
    };
}

/// The tokenized contents of the first file named `target`, if one exists.
fn lookup_expected(files: &Vec<CaseFile>, target: &String) -> (r: Option<Vec<Token>>)
    ensures
        r.deep_view() == lookup_tokens(files.deep_view(), target@),
{
    let n = files.len();
    let ghost fm = files.deep_view();
    let mut j: usize = 0;
    proof {
        assert(fm.skip(0) =~= fm);
    }
    while j < n
        invariant
            j <= n,
            n == files@.len(),
            fm == files.deep_view(),
            lookup_tokens(fm, target@) == lookup_tokens(fm.skip(j as int), target@),
        decreases n - j,
    {
        let f = vstd::slice::slice_index_get(files.as_slice(), j);
        proof {
            assert(fm.skip(j as int)[0] == fm[j as int]);
            assert(fm[j as int] == files@[j as int]@);
            assert(fm.skip(j as int).drop_first() =~= fm.skip(j + 1));
        }
        if f.name.eq(target) {
            let toks = crate::token::tokenize(f.content.clone());
            return Some(toks);
        }
        j = j + 1;
    }
    proof {
        assert(fm.skip(n as int) =~= Seq::<FileModel>::empty());
    }
    None
}

impl TecoCase {
    /// Builds the ordered collection of test cases from a directory listing.
    ///
    /// Every file whose name ends in `.{input_ext}` becomes one case, named
    /// by stripping that one suffix; its input is the file's contents, and its
    /// expected tokens are the tokenized contents of the sibling file
    /// `{name}.{output_ext}` when that file exists. Cases come back sorted by
    /// name in ascending order.
    pub fn from_listing(files: &Vec<CaseFile>, input_ext: &str, output_ext: &str) -> (r: Vec<
        TecoCase,
    >)
        ensures
            r.deep_view() == sort_cases(
                spec_cases(files.deep_view(), files.deep_view(), input_ext@, output_ext@),
            ),
            sorted_by_name(r.deep_view()),
    {
        let ghost fm = files.deep_view();
        let ghost iext = input_ext@;
        let ghost oext = output_ext@;
        let mut in_suffix = String::from_str(".");
        in_suffix.append(input_ext);
        let mut out_suffix = String::from_str(".");
        out_suffix.append(output_ext);
        proof {
            reveal_strlit(".");
            assert(in_suffix@ =~= dot_ext(iext));
            assert(out_suffix@ =~= dot_ext(oext));
        }
        let n = files.len();
        let mut r: Vec<TecoCase> = Vec::new();
        let mut i: usize = 0;
        proof {
            assert(fm.take(0) =~= Seq::<FileModel>::empty());
            assert(spec_cases(Seq::<FileModel>::empty(), fm, iext, oext)
                == Seq::<CaseModel>::empty());
            assert(r.deep_view() =~= sort_cases(spec_cases(fm.take(0), fm, iext, oext)));
        }
        while i < n
            invariant
                i <= n,
                n == files@.len(),
                fm == files.deep_view(),
                iext == input_ext@,
                oext == output_ext@,
                in_suffix@ == dot_ext(iext),
                out_suffix@ == dot_ext(oext),
                r.deep_view() == sort_cases(spec_cases(fm.take(i as int), fm, iext, oext)),
                sorted_by_name(r.deep_view()),
            decreases n - i,
        {
            let f = vstd::slice::slice_index_get(files.as_slice(), i);
            let ghost cs = spec_cases(fm.take(i as int), fm, iext, oext);
            proof {
                assert(fm.take(i + 1) =~= fm.take(i as int).push(fm[i as int]));
                assert(fm[i as int] == files@[i as int]@);
                lemma_spec_cases_push(fm.take(i as int), fm[i as int], fm, iext, oext);
            }
            if str_ends_with(f.name.as_str(), in_suffix.as_str()) {
                let nm = strip_suffix_str(f.name.as_str(), in_suffix.as_str());
                let mut target = nm.clone();
                target.append(out_suffix.as_str());
                let expected = lookup_expected(files, &target);
                let ghost cm = CaseModel {
                    name: strip_suffix(fm[i as int].name, dot_ext(iext)),
                    input_content: fm[i as int].content,
                    expected_tokens: lookup_tokens(
                        fm,
                        strip_suffix(fm[i as int].name, dot_ext(iext)) + dot_ext(oext),
                    ),
                };
                let case = TecoCase {
                    name: nm,
                    input_content: f.content.clone(),
                    expected_tokens: expected,
                };
                proof {
                    assert(target@ =~= cm.name + dot_ext(oext));
                    assert(case@ == cm);
                }
                let rl = r.len();
                let mut pos: usize = 0;
                while pos < rl && lex_le_str(
                    vstd::slice::slice_index_get(r.as_slice(), pos).name.as_str(),
                    case.name.as_str(),
                )
                    invariant
                        pos <= rl,
                        rl == r@.len(),
                        case@ == cm,
                        forall|q: int|
                            0 <= q < pos ==> lex_le(#[trigger] r.deep_view()[q].name, cm.name),
                    decreases rl - pos,
                {
                    proof {
                        assert(r.deep_view()[pos as int].name == r@[pos as int]@.name);
                    }
                    pos = pos + 1;
                }
                let ghost old_dv = r.deep_view();
                proof {
                    assert(pos < rl ==> !lex_le(r@[pos as int]@.name, cm.name));
                    assert(pos < rl ==> old_dv[pos as int].name == r@[pos as int]@.name);
                    lemma_insert_sorted_at(cm, old_dv, pos as int);
                    assert forall|q: int| pos <= q < old_dv.len() implies lex_le(
                        cm.name,
                        #[trigger] old_dv[q].name,
                    ) by {
                        lemma_lex_le_total(old_dv[pos as int].name, cm.name);
                        if q > pos {
                            lemma_lex_le_trans(
                                cm.name,
                                old_dv[pos as int].name,
                                old_dv[q].name,
                            );
                        }
                    };
                    lemma_sorted_insert(old_dv, cm, pos as int);
                }
                r.insert(pos, case);
                proof {
                    assert(r.deep_view() =~~= old_dv.insert(pos as int, cm));
                    let pushed = cs.push(cm);
                    assert(pushed.drop_last() =~= cs);
                    assert(pushed.last() == cm);
                    assert(sort_cases(pushed) == insert_sorted(cm, old_dv));
                    assert(spec_cases(fm.take(i + 1), fm, iext, oext) =~= pushed);
                }
            } else {
                proof {
                    assert(spec_cases(fm.take(i + 1), fm, iext, oext) =~= cs);
                }
            }
            i = i + 1;
        }
        proof {
            assert(fm.take(n as int) =~= fm);
        }
        r
    }
}

impl PartialEq for TecoCase {
    /// Case identity is the name alone, the one field that defines order.
    fn eq(&self, other: &Self) -> (r: bool) {
        self.name.eq(&other.name)
    }
}

impl vstd::std_specs::cmp::PartialEqSpecImpl for TecoCase {
    open spec fn obeys_eq_spec() -> bool {
        true
    }

    open spec fn eq_spec(&self, other: &Self) -> bool {
        self.name@ == other.name@
    }
}

impl Eq for TecoCase {

}

impl PartialOrd for TecoCase {
    /// Cases are ordered by name, ascending.
    fn partial_cmp(&self, other: &Self) -> (r: Option<core::cmp::Ordering>) {
        if self.name.eq(&other.name) {
            Some(core::cmp::Ordering::Equal)
        } else if lex_le_str(self.name.as_str(), other.name.as_str()) {
            Some(core::cmp::Ordering::Less)
        } else {
            Some(core::cmp::Ordering::Greater)
        }
    }
}

impl vstd::std_specs::cmp::PartialOrdSpecImpl for TecoCase {
    open spec fn obeys_partial_cmp_spec() -> bool {
        true
    }

    open spec fn partial_cmp_spec(&self, other: &Self) -> Option<core::cmp::Ordering> {
        if self.name@ == other.name@ {
            Some(core::cmp::Ordering::Equal)
        } else if lex_le(self.name@, other.name@) {
            Some(core::cmp::Ordering::Less)
        } else {
            Some(core::cmp::Ordering::Greater)
        }
    }
}

} // verus!
