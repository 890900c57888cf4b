//! Reflowing hard-wrapped text: merge lines into logical paragraphs, then
//! rewrap paragraphs that outgrow a configured width.
use crate::model::{
    Ratio, cat_from, cat_lines, display_width_of, is_break_spec, is_space, is_terminator,
    lemma_total_trimmed_concat, lemma_total_trimmed_lines_le, lemma_trim_end_at,
    lemma_trim_start_at, lines_of, lines_rec, merge_from, reflow_spec, rewrap_from, rewrap_para,
    total_trimmed, trim_spec, wrap_of,
};
use unicode_width::UnicodeWidthStr;
use vstd::arithmetic::div_mod::{lemma_fundamental_div_mod, lemma_mod_bound};
use vstd::prelude::*;
use vstd::string::StrSliceExecFns;

verus! {

/// Configuration for [`reflow_text`]: how eagerly a short line closes a
/// paragraph, and how wide a merged paragraph may grow before it is wrapped
/// again (`None` disables rewrapping).
#[derive(Clone, Copy)]
pub struct ReflowOptions {
    pub threshold_ratio: Ratio,
    pub para_chars_limit: Option<usize>,
}

impl ReflowOptions {
    /// The options callers must supply: a threshold in (0, 1] and, when
    /// bounded, a positive paragraph width.
    pub open spec fn wf(self) -> bool {
        &&& 0 < self.threshold_ratio.num <= self.threshold_ratio.den
        &&& match self.para_chars_limit {
            Option::Some(l) => l >= 1,
            Option::None => true,
        }
    }
}

/// The defaults: a line is short below nine tenths of the average width, and
/// paragraphs are never rewrapped.
pub open spec fn default_options() -> ReflowOptions {
    ReflowOptions { threshold_ratio: Ratio { num: 9, den: 10 }, para_chars_limit: Option::None }
}

impl Default for ReflowOptions {
    fn default() -> (r: Self)
        ensures
            r == default_options(),
            r.wf(),
    {
        ReflowOptions { threshold_ratio: Ratio { num: 9, den: 10 }, para_chars_limit: None }
    }
}

/// The options a call to [`reflow_text`] works with: the given ones, or the
/// defaults when none were given.
pub open spec fn chosen_options(options: Option<ReflowOptions>) -> ReflowOptions {
    match options {
        Option::Some(o) => o,
        Option::None => default_options(),
    }
}

/// Relies on `String`'s `FromIterator<&char>` impl: collecting characters
/// builds the string of exactly those characters.
#[verifier::external_body]
fn chars_to_string(v: &Vec<char>) -> (s: String)
    ensures
        s@ == v@,
{
    v.iter().collect()
}

/// Relies on `unicode_width::UnicodeWidthStr::width`: the displayed column
/// count of a string is a pure function of its characters, here named
/// `display_width_of`.
#[verifier::external_body]
fn display_width(v: &Vec<char>) -> (w: usize)
    ensures
        w == display_width_of(v@),
{
    let s: String = v.iter().collect();
    UnicodeWidthStr::width(s.as_str())
}

/// Relies on `textwrap::wrap`: wrapping a paragraph at a width is a pure
/// function of the characters and the width, here named `wrap_of`.
#[verifier::external_body]
fn wrap_chars(v: &Vec<char>, width: usize) -> (out: Vec<Vec<char>>)
    ensures
        out.deep_view() == wrap_of(v@, width),
{
    let s: String = v.iter().collect();
    textwrap::wrap(&s, width).into_iter().map(|line| line.chars().collect()).collect()
}

/// Whether `c` has the Unicode `White_Space` property.
fn is_space_char(c: char) -> (b: bool)
    ensures
        b == is_space(c),
{
    c == '\u{0009}' || c == '\u{000A}' || c == '\u{000B}' || c == '\u{000C}' || c == '\u{000D}'
        || c == '\u{0020}' || c == '\u{0085}' || c == '\u{00A0}' || c == '\u{1680}' || c
        == '\u{2000}' || c == '\u{2001}' || c == '\u{2002}' || c == '\u{2003}' || c == '\u{2004}'
        || c == '\u{2005}' || c == '\u{2006}' || c == '\u{2007}' || c == '\u{2008}' || c
        == '\u{2009}' || c == '\u{200A}' || c == '\u{2028}' || c == '\u{2029}' || c == '\u{202F}'
        || c == '\u{205F}' || c == '\u{3000}'
}

/// Whether `c` is one of the sentence-terminating punctuation marks.
fn is_terminator_char(c: char) -> (b: bool)
    ensures
        b == is_terminator(c),
{
    c == '.' || c == '܂' || c == '。' || c == '։' || c == ':' || c == '፡' || c == '：' || c == '!'
        || c == '！' || c == '?' || c == '？' || c == '”' || c == '᠉' || c == '᠃' || c == '᠁' || c
        == '…' || c == ';' || c == '；' || c == '؟' || c == '।' || c == '۔' || c == '܀' || c == '܁'
        || c == '።' || c == '፧' || c == '፨' || c == '᙮' || c == 'ክ' || c == 'ዼ'
}

/// The line with whitespace removed at both ends.
fn trim_line(line: &Vec<char>) -> (t: Vec<char>)
    ensures
        t@ == trim_spec(line@),
{
    let n = line.len();
    let mut a: usize = 0;
    while a < n && is_space_char(line[a])
        invariant
            a <= n,
            n == line@.len(),
            forall|k: int| 0 <= k < a ==> is_space(line@[k]),
        decreases n - a,
    {
        a = a + 1;
    }
    let mut b: usize = n;
    while b > a && is_space_char(line[b - 1])
        invariant
            a <= b <= n,
            n == line@.len(),
            forall|k: int| b <= k < n ==> is_space(line@[k]),
        decreases b,
    {
        b = b - 1;
    }
    let mut t: Vec<char> = Vec::new();
    let mut i: usize = a;
    while i < b
        invariant
            a <= i <= b <= n,
            n == line@.len(),
            t@ == line@.subrange(a as int, i as int),
        decreases b - i,
    {
        let c = line[i];
        t.push(c);
        proof {
            assert(line@.subrange(a as int, i + 1) =~= line@.subrange(a as int, i as int).push(
                line@[i as int],
            ));
        }
        i = i + 1;
    }
    proof {
        lemma_trim_start_at(line@, a as int);
        let s = line@.skip(a as int);
        assert(forall|k: int|
            b - a <= k < s.len() ==> s[k] == line@[k + a] && is_space(line@[k + a]));
        assert(b - a > 0 ==> !is_space(s[b - a - 1]));
        lemma_trim_end_at(s, b - a);
        assert(s.take(b - a) =~= line@.subrange(a as int, b as int));
    }
    t
}

/// The characters of `text`, in order, as a vector.
fn str_to_chars(text: &str) -> (v: Vec<char>)
    ensures
        v@ == text@,
{
    let n = text.unicode_len();
    let mut v: Vec<char> = Vec::new();
    let mut i: usize = 0;
    while i < n
        invariant
            i <= n,
            n == text@.len(),
            v@ == text@.take(i as int),
        decreases n - i,
    {
        let c = text.get_char(i);
        v.push(c);
        proof {
            assert(text@.take(i + 1) =~= text@.take(i as int).push(text@[i as int]));
        }
        i = i + 1;
    }
    proof {
        assert(text@.take(n as int) =~= text@);
    }
    v
}

/// The lines of `text`, split at `'\n'`, without the line breaks; a final
/// segment after a trailing newline is not a line.
fn split_lines(text: &Vec<char>) -> (out: Vec<Vec<char>>)
    ensures
        out.deep_view() == lines_of(text@),
{
    let mut out: Vec<Vec<char>> = Vec::new();
    let mut cur: Vec<char> = Vec::new();
    let mut i: usize = 0;
    proof {
        assert(text@.skip(0) =~= text@);
        assert(out.deep_view() =~~= Seq::<Seq<char>>::empty());
        assert(Seq::<Seq<char>>::empty() + lines_rec(text@, cur@) =~~= lines_rec(text@, cur@));
    }
    while i < text.len()
        invariant
            i <= text@.len(),
            lines_of(text@) == out.deep_view() + lines_rec(text@.skip(i as int), cur@),
        decreases text@.len() - i,
    {
        let ghost pre_out = out.deep_view();
        let ghost pre_cur = cur@;
        let ghost rest = text@.skip(i as int);
        proof {
            assert(rest[0] == text@[i as int]);
            assert(rest.drop_first() =~= text@.skip(i + 1));
        }
        let c = text[i];
        if c == '\n' {
            out.push(cur);
            cur = Vec::new();
            proof {
                assert(out.deep_view() =~~= pre_out.push(pre_cur));
                assert(lines_rec(rest, pre_cur) == seq![pre_cur] + lines_rec(
                    text@.skip(i + 1),
                    Seq::empty(),
                ));
                assert(pre_out + (seq![pre_cur] + lines_rec(text@.skip(i + 1), Seq::empty()))
                    =~~= pre_out.push(pre_cur) + lines_rec(text@.skip(i + 1), Seq::empty()));
            }
        } else {
            cur.push(c);
            proof {
                assert(lines_rec(rest, pre_cur) == lines_rec(text@.skip(i + 1), pre_cur.push(c)));
            }
        }
        i = i + 1;
    }
    proof {
        assert(text@.skip(text@.len() as int) =~= Seq::<char>::empty());
    }
    if cur.len() > 0 {
        let ghost pre_out = out.deep_view();
        let ghost pre_cur = cur@;
        out.push(cur);
        proof {
            assert(out.deep_view() =~~= pre_out.push(pre_cur));
            assert(lines_rec(Seq::empty(), pre_cur) =~~= seq![pre_cur]);
            assert(pre_out + seq![pre_cur] =~~= pre_out.push(pre_cur));
        }
    } else {
        proof {
            assert(lines_rec(Seq::<char>::empty(), cur@) =~~= Seq::<Seq<char>>::empty());
            assert(out.deep_view() + Seq::<Seq<char>>::empty() =~~= out.deep_view());
        }
    }
    out
}

/// Appends all characters of `p` to `buf`.
fn push_all(buf: &mut Vec<char>, p: &Vec<char>)
    ensures
        final(buf)@ == old(buf)@ + p@,
{
    let mut j: usize = 0;
    proof {
        assert(old(buf)@ + p@.take(0) =~= old(buf)@);
    }
    while j < p.len()
        invariant
            j <= p@.len(),
            buf@ == old(buf)@ + p@.take(j as int),
        decreases p@.len() - j,
    {
        let c = p[j];
        buf.push(c);
        proof {
            assert(old(buf)@ + p@.take(j + 1) =~= (old(buf)@ + p@.take(j as int)).push(
                p@[j as int],
            ));
        }
        j = j + 1;
    }
    proof {
        assert(p@.take(p@.len() as int) =~= p@);
    }
}

/// The Width Estimator: the baseline width of the text is the exact mean
/// `total / count` of the trimmed lengths of its lines, returned here as the
/// pair `(total, count)` so that nothing is rounded away; an empty text
/// gives `(0, 0)`, which the classifier treats as "no line is short".
pub fn calculate_average_line_length(lines: &Vec<Vec<char>>) -> (r: (usize, usize))
    requires
        total_trimmed(lines.deep_view()) <= usize::MAX,
    ensures
        r.0 == total_trimmed(lines.deep_view()),
        r.1 == lines@.len(),
{
    let ghost dv = lines.deep_view();
    let mut total: usize = 0;
    let mut i: usize = 0;
    proof {
        assert(dv.take(0) =~= Seq::<Seq<char>>::empty());
    }
    while i < lines.len()
        invariant
            i <= lines@.len(),
            dv == lines.deep_view(),
            dv.len() == lines@.len(),
            total == total_trimmed(dv.take(i as int)),
            total_trimmed(dv) <= usize::MAX,
        decreases lines@.len() - i,
    {
        let t = trim_line(&lines[i]);
        proof {
            assert(dv[i as int] =~= lines@[i as int]@);
            assert(dv.take(i + 1).drop_last() =~= dv.take(i as int));
            assert(dv.take(i + 1).last() == dv[i as int]);
            assert(dv =~= dv.take(i + 1) + dv.skip(i + 1));
            lemma_total_trimmed_concat(dv.take(i + 1), dv.skip(i + 1));
        }
        total = total + t.len();
        i = i + 1;
    }
    proof {
        assert(dv.take(dv.len() as int) =~= dv);
    }
    (total, lines.len())
}

/// The Paragraph-Break Classifier: a line naturally closes its paragraph
/// iff its trimmed visual width is under `num/den` of the baseline
/// `total/count` (never when the baseline is zero) and its last
/// non-whitespace character is a sentence terminator. The comparison is
/// done by cross-multiplication, so it is exact.
pub fn is_natural_paragraph_break(
    line: &Vec<char>,
    total_width: usize,
    line_count: usize,
    threshold_ratio: Ratio,
) -> (b: bool)
    requires
        0 < threshold_ratio.num <= threshold_ratio.den,
    ensures
        b == is_break_spec(line@, total_width as nat, line_count as nat, threshold_ratio),
{
    let t = trim_line(line);
    let tl = t.len();
    if tl == 0 {
        return false;
    }
    let last_c = t[tl - 1];
    if !is_terminator_char(last_c) {
        return false;
    }
    if total_width == 0 {
        return false;
    }
    let w = display_width(&t);
    proof {
        assert((w as int) * (line_count as int) <= (usize::MAX as int) * (usize::MAX as int))
            by (nonlinear_arith)
            requires
                0 <= w as int <= usize::MAX as int,
                0 <= line_count as int <= usize::MAX as int,
        ;
        assert((total_width as int) * (threshold_ratio.num as int) <= (usize::MAX as int) * (
        u32::MAX as int)) by (nonlinear_arith)
            requires
                0 <= total_width as int <= usize::MAX as int,
                0 <= threshold_ratio.num as int <= u32::MAX as int,
        ;
    }
    let a128: u128 = (w as u128) * (line_count as u128);
    let e128: u128 = (total_width as u128) * (threshold_ratio.num as u128);
    let den: u128 = threshold_ratio.den as u128;
    let q: u128 = e128 / den;
    let rm: u128 = e128 % den;
    let short = a128 < q || (a128 == q && rm > 0);
    proof {
        lemma_fundamental_div_mod(e128 as int, den as int);
        lemma_mod_bound(e128 as int, den as int);
        assert(((a128 as int) * (den as int) < e128 as int) <==> (a128 < q || (a128 == q && rm
            > 0))) by (nonlinear_arith)
            requires
                e128 as int == (den as int) * (q as int) + (rm as int),
                0 <= rm as int,
                (rm as int) < (den as int),
                1 <= den as int,
                0 <= a128 as int,
        ;
        assert((a128 as int) * (den as int) == (w as int) * (line_count as int) * (
        threshold_ratio.den as int));
        assert(e128 as int == (total_width as int) * (threshold_ratio.num as int));
    }
    short
}

/// The Merger: walks the lines in order into one buffer; a breaking line is
/// followed by a newline, any other line by a single joining space, except
/// the last line overall.
fn merge_lines(lines: &Vec<Vec<char>>, total: usize, count: usize, r: Ratio) -> (buf: Vec<char>)
    requires
        0 < r.num <= r.den,
    ensures
        buf@ == merge_from(lines.deep_view(), 0, total as nat, count as nat, r),
{
    let ghost dv = lines.deep_view();
    let ghost whole = merge_from(dv, 0, total as nat, count as nat, r);
    let mut buf: Vec<char> = Vec::new();
    let mut i: usize = 0;
    proof {
        assert(Seq::<char>::empty() + whole =~= whole);
    }
    while i < lines.len()
        invariant
            0 < r.num <= r.den,
            i <= lines@.len(),
            dv == lines.deep_view(),
            dv.len() == lines@.len(),
            whole == merge_from(dv, 0, total as nat, count as nat, r),
            buf@ + merge_from(dv, i as int, total as nat, count as nat, r) == whole,
        decreases lines@.len() - i,
    {
        let ghost pre = buf@;
        let ghost rest = merge_from(dv, i + 1, total as nat, count as nat, r);
        proof {
            assert(dv[i as int] =~= lines@[i as int]@);
        }
        let is_br = is_natural_paragraph_break(&lines[i], total, count, r);
        push_all(&mut buf, &lines[i]);
        if is_br {
            buf.push('\n');
            proof {
                assert(merge_from(dv, i as int, total as nat, count as nat, r) == dv[i as int]
                    + seq!['\n'] + rest);
                assert(buf@ =~= pre + (dv[i as int] + seq!['\n']));
                assert(pre + (dv[i as int] + seq!['\n']) + rest =~= pre + (dv[i as int]
                    + seq!['\n'] + rest));
            }
        } else if i + 1 != lines.len() {
            buf.push(' ');
            proof {
                assert(merge_from(dv, i as int, total as nat, count as nat, r) == dv[i as int]
                    + seq![' '] + rest);
                assert(buf@ =~= pre + (dv[i as int] + seq![' ']));
                assert(pre + (dv[i as int] + seq![' ']) + rest =~= pre + (dv[i as int] + seq![' ']
                    + rest));
            }
        } else {
            proof {
                assert(merge_from(dv, i as int, total as nat, count as nat, r) == dv[i as int]
                    + rest);
                assert(buf@ =~= pre + dv[i as int]);
                assert(pre + dv[i as int] + rest =~= pre + (dv[i as int] + rest));
            }
        }
        i = i + 1;
    }
    proof {
        assert(merge_from(dv, lines@.len() as int, total as nat, count as nat, r)
            =~= Seq::<char>::empty());
        assert(buf@ + Seq::<char>::empty() =~= buf@);
    }
    buf
}

/// The Rewrapper: paragraphs within the limit (or all of them, when no
/// limit is set) pass through unchanged; a wider paragraph is replaced by
/// the lines `textwrap` wraps it into; every emitted line ends in a
/// newline.
fn rewrap_paragraphs(paras: &Vec<Vec<char>>, limit: Option<usize>) -> (out: Vec<char>)
    ensures
        out@ == rewrap_from(paras.deep_view(), 0, limit),
{
    let ghost dv = paras.deep_view();
    let ghost whole = rewrap_from(dv, 0, limit);
    let mut out: Vec<char> = Vec::new();
    let mut i: usize = 0;
    proof {
        assert(Seq::<char>::empty() + whole =~= whole);
    }
    while i < paras.len()
        invariant
            i <= paras@.len(),
            dv == paras.deep_view(),
            dv.len() == paras@.len(),
            whole == rewrap_from(dv, 0, limit),
            out@ + rewrap_from(dv, i as int, limit) == whole,
        decreases paras@.len() - i,
    {
        let ghost pre = out@;
        let ghost rest = rewrap_from(dv, i + 1, limit);
        proof {
            assert(dv[i as int] =~= paras@[i as int]@);
            assert(rewrap_from(dv, i as int, limit) == rewrap_para(dv[i as int], limit) + rest);
        }
        let p = &paras[i];
        let needs_wrap = match limit {
            Option::Some(l) => p.len() > l,
            Option::None => false,
        };
        if !needs_wrap {
            push_all(&mut out, p);
            out.push('\n');
            proof {
                assert(rewrap_para(dv[i as int], limit) =~= dv[i as int].push('\n'));
                assert(out@ =~= pre + rewrap_para(dv[i as int], limit));
            }
        } else {
            let l = match limit {
                Option::Some(l) => l,
                Option::None => 0,
            };
            let wrapped = wrap_chars(p, l);
            let ghost wdv = wrapped.deep_view();
            proof {
                assert(wdv == wrap_of(dv[i as int], l));
                assert(rewrap_para(dv[i as int], limit) == cat_lines(wdv));
                assert(pre + cat_from(wdv, 0) =~= pre + cat_lines(wdv));
            }
            let mut j: usize = 0;
            while j < wrapped.len()
                invariant
                    j <= wdv.len(),
                    wdv == wrapped.deep_view(),
                    wdv.len() == wrapped@.len(),
                    out@ + cat_from(wdv, j as int) == pre + cat_lines(wdv),
                decreases wdv.len() - j,
            {
                let ghost pre_j = out@;
                let ghost rest_j = cat_from(wdv, j + 1);
                proof {
                    assert(wdv[j as int] =~= wrapped@[j as int]@);
                    assert(cat_from(wdv, j as int) == wdv[j as int].push('\n') + rest_j);
                }
                push_all(&mut out, &wrapped[j]);
                out.push('\n');
                proof {
                    assert(out@ =~= pre_j + wdv[j as int].push('\n'));
                    assert(pre_j + wdv[j as int].push('\n') + rest_j =~= pre_j + (wdv[j as int].push(
                        '\n',
                    ) + rest_j));
                }
                j = j + 1;
            }
            proof {
                assert(cat_from(wdv, wdv.len() as int) =~= Seq::<char>::empty());
                assert(out@ + Seq::<char>::empty() =~= out@);
            }
        }
        proof {
            assert(out@ + rest =~= (pre + rewrap_para(dv[i as int], limit)) + rest);
            assert((pre + rewrap_para(dv[i as int], limit)) + rest =~= pre + (rewrap_para(
                dv[i as int],
                limit,
            ) + rest));
        }
        i = i + 1;
    }
    proof {
        assert(rewrap_from(dv, paras@.len() as int, limit) =~= Seq::<char>::empty());
        assert(out@ + Seq::<char>::empty() =~= out@);
    }
    out
}

/// Reflows `text`: lines are merged into logical paragraphs wherever a
/// short line ends in terminating punctuation, and paragraphs wider than
/// the configured limit are wrapped again; the result carries no trailing
/// line terminator. With no options the defaults apply.
pub fn reflow_text(text: &str, options: Option<ReflowOptions>) -> (out: String)
    requires
        chosen_options(options).wf(),
    ensures
        out@ == reflow_spec(
            text@,
            chosen_options(options).threshold_ratio,
            chosen_options(options).para_chars_limit,
        ),
{
    let opts = match options {
        Option::Some(o) => o,
        Option::None => ReflowOptions::default(),
    };
    let chars = str_to_chars(text);
    let n_chars = chars.len();
    let lines = split_lines(&chars);
    proof {
        lemma_total_trimmed_lines_le(text@);
        assert(text@.len() == n_chars <= usize::MAX);
    }
    let (total, count) = calculate_average_line_length(&lines);
    let buffer = merge_lines(&lines, total, count, opts.threshold_ratio);
    let paras = split_lines(&buffer);
    let mut body = rewrap_paragraphs(&paras, opts.para_chars_limit);
    let ghost full_body = body@;
    body.pop();
    proof {
        if full_body.len() > 0 {
            assert(body@ =~= full_body.drop_last());
        } else {
            assert(body@ =~= full_body);
        }
    }
    chars_to_string(&body)
}

} // verus!
