//! The mathematical model of reflowing: how a text splits into lines, how
//! lines are trimmed and measured, when a line closes a paragraph, and what
//! the merged and rewrapped output looks like, all as functions on
//! sequences of characters.
use vstd::prelude::*;

verus! {

/// An exact fraction `num / den`, used for the short-line threshold so that
/// the classifier can compare widths without any rounding.
#[derive(Clone, Copy, Debug, PartialEq, Eq, Structural)]
pub struct Ratio {
    pub num: u32,
    pub den: u32,
}

/// The characters with the Unicode `White_Space` property, the set that
/// trimming removes at either end of a line.
pub open spec fn is_space(c: char) -> bool {
    ||| c == '\u{0009}'
    ||| c == '\u{000A}'
    ||| c == '\u{000B}'
    ||| c == '\u{000C}'
    ||| c == '\u{000D}'
    ||| c == '\u{0020}'
    ||| c == '\u{0085}'
    ||| c == '\u{00A0}'
    ||| c == '\u{1680}'
    ||| c == '\u{2000}'
    ||| c == '\u{2001}'
    ||| c == '\u{2002}'
    ||| c == '\u{2003}'
    ||| c == '\u{2004}'
    ||| c == '\u{2005}'
    ||| c == '\u{2006}'
    ||| c == '\u{2007}'
    ||| c == '\u{2008}'
    ||| c == '\u{2009}'
    ||| c == '\u{200A}'
    ||| c == '\u{2028}'
    ||| c == '\u{2029}'
    ||| c == '\u{202F}'
    ||| c == '\u{205F}'
    ||| c == '\u{3000}'
}

/// The sentence-terminating punctuation marks that can close a paragraph:
/// periods, colons, exclamation and question marks, semicolons, ellipses and
/// closing quotation marks across Latin, CJK, Armenian, Ethiopic, Mongolian,
/// Devanagari, Arabic and Syriac scripts.
pub open spec fn is_terminator(c: char) -> bool {
    ||| c == '.'
    ||| c == '܂'
    ||| c == '。'
    ||| c == '։'
    ||| c == ':'
    ||| c == '፡'
    ||| c == '：'
    ||| c == '!'
    ||| c == '！'
    ||| c == '?'
    ||| c == '？'
    ||| c == '”'
    ||| c == '᠉'
    ||| c == '᠃'
    ||| c == '᠁'
    ||| c == '…'
    ||| c == ';'
    ||| c == '；'
    ||| c == '؟'
    ||| c == '।'
    ||| c == '۔'
    ||| c == '܀'
    ||| c == '܁'
    ||| c == '።'
    ||| c == '፧'
    ||| c == '፨'
    ||| c == '᙮'
    ||| c == 'ክ'
    ||| c == 'ዼ'
}

/// `s` with its leading whitespace removed.
pub open spec fn trim_start(s: Seq<char>) -> Seq<char>
    decreases s.len(),
{
    if s.len() > 0 && is_space(s[0]) {
        trim_start(s.drop_first())
    } else {
        s
    }
}

/// `s` with its trailing whitespace removed.
pub open spec fn trim_end(s: Seq<char>) -> Seq<char>
    decreases s.len(),
{
    if s.len() > 0 && is_space(s.last()) {
        trim_end(s.drop_last())
    } else {
        s
    }
}

/// `s` with whitespace removed at both ends.
pub open spec fn trim_spec(s: Seq<char>) -> Seq<char> {
    trim_end(trim_start(s))
}

/// The lines of `t`, walked from the front: `cur` is the part of the current
/// line already passed. A `'\n'` closes the current line; a final segment is
/// a line only if something stands in it, so a trailing newline does not
/// yield an extra empty line.
pub open spec fn lines_rec(t: Seq<char>, cur: Seq<char>) -> Seq<Seq<char>>
    decreases t.len(),
{
    if t.len() == 0 {
        if cur.len() == 0 {
            Seq::empty()
        } else {
            seq![cur]
        }
    } else if t[0] == '\n' {
        seq![cur] + lines_rec(t.drop_first(), Seq::empty())
    } else {
        lines_rec(t.drop_first(), cur.push(t[0]))
    }
}

/// The lines of a text, split at `'\n'`; the empty text has no lines.
pub open spec fn lines_of(t: Seq<char>) -> Seq<Seq<char>> {
    lines_rec(t, Seq::empty())
}

/// The summed trimmed length of all lines: the numerator of the baseline
/// width, whose denominator is the number of lines.
pub open spec fn total_trimmed(lines: Seq<Seq<char>>) -> nat
    decreases lines.len(),
{
    if lines.len() == 0 {
        0
    } else {
        total_trimmed(lines.drop_last()) + trim_spec(lines.last()).len()
    }
}

/// What `unicode_width` reports as the displayed column count of a string;
/// a pure function of its characters.
pub uninterp spec fn display_width_of(s: Seq<char>) -> nat;

/// What `textwrap` produces when it wraps one paragraph at a given width;
/// a pure function of the paragraph's characters and the width.
pub uninterp spec fn wrap_of(s: Seq<char>, width: usize) -> Seq<Seq<char>>;

/// Whether a line naturally closes its paragraph: its trimmed visual width
/// is under `num/den` of the baseline `total/count` (never so when the
/// baseline is zero), and its last non-whitespace character is a
/// sentence terminator. The width test cross-multiplies, so it is exact:
/// `w / (total/count) < num/den  <==>  w * count * den < total * num`.
pub open spec fn is_break_spec(line: Seq<char>, total: nat, count: nat, r: Ratio) -> bool {
    let t = trim_spec(line);
    &&& total > 0
    &&& display_width_of(t) * count * r.den < total * r.num
    &&& t.len() > 0
    &&& is_terminator(t.last())
}

/// The merged buffer built from `lines[i..]`: each line is appended as it
/// stands; a breaking line is followed by a newline, any other line by a
/// single joining space, except the last line overall, which nothing
/// follows.
pub open spec fn merge_from(lines: Seq<Seq<char>>, i: int, total: nat, count: nat, r: Ratio) -> Seq<
    char,
>
    decreases lines.len() - i,
{
    if i < 0 || i >= lines.len() {
        Seq::empty()
    } else {
        let rest = merge_from(lines, i + 1, total, count, r);
        if is_break_spec(lines[i], total, count, r) {
            lines[i] + seq!['\n'] + rest
        } else if i == lines.len() - 1 {
            lines[i] + rest
        } else {
            lines[i] + seq![' '] + rest
        }
    }
}

/// The lines `ls[i..]`, each followed by one newline.
pub open spec fn cat_from(ls: Seq<Seq<char>>, i: int) -> Seq<char>
    decreases ls.len() - i,
{
    if i < 0 || i >= ls.len() {
        Seq::empty()
    } else {
        ls[i].push('\n') + cat_from(ls, i + 1)
    }
}

/// The given lines, each followed by one newline.
pub open spec fn cat_lines(ls: Seq<Seq<char>>) -> Seq<char> {
    cat_from(ls, 0)
}

/// One rewrapped paragraph: unchanged (plus its newline) when no limit is
/// set or when its character count stays within the limit, otherwise the
/// lines `textwrap` wraps it into, each with its newline.
pub open spec fn rewrap_para(p: Seq<char>, limit: Option<usize>) -> Seq<char> {
    match limit {
        Option::None => p.push('\n'),
        Option::Some(l) => if p.len() <= l {
            p.push('\n')
        } else {
            cat_lines(wrap_of(p, l))
        },
    }
}

/// The rewrapped output built from `paras[i..]`.
pub open spec fn rewrap_from(paras: Seq<Seq<char>>, i: int, limit: Option<usize>) -> Seq<char>
    decreases paras.len() - i,
{
    if i < 0 || i >= paras.len() {
        Seq::empty()
    } else {
        rewrap_para(paras[i], limit) + rewrap_from(paras, i + 1, limit)
    }
}

/// The non-whitespace characters of `s`, in order.
pub open spec fn visible(s: Seq<char>) -> Seq<char>
    decreases s.len(),
{
    if s.len() == 0 {
        Seq::empty()
    } else if is_space(s[0]) {
        visible(s.drop_first())
    } else {
        seq![s[0]] + visible(s.drop_first())
    }
}

/// The paragraphs the Merger produces for a text: its lines, merged into
/// one buffer against the baseline width, split again at the newlines that
/// closed each paragraph.
pub open spec fn merged_paragraphs(text: Seq<char>, r: Ratio) -> Seq<Seq<char>> {
    let lines = lines_of(text);
    lines_of(merge_from(lines, 0, total_trimmed(lines), lines.len(), r))
}

/// Trimming the front of `s` keeps exactly the suffix from the first
/// non-whitespace character on.
pub proof fn lemma_trim_start_at(s: Seq<char>, a: int)
    requires
        0 <= a <= s.len(),
        forall|k: int| 0 <= k < a ==> is_space(s[k]),
        a < s.len() ==> !is_space(s[a]),
    ensures
        trim_start(s) == s.skip(a),
    decreases a,
{
    if a == 0 {
        assert(s.skip(0) =~= s);
    } else {
        assert(is_space(s[0]));
        assert(forall|k: int| 0 <= k < a - 1 ==> is_space(s.drop_first()[k]));
        lemma_trim_start_at(s.drop_first(), a - 1);
        assert(s.drop_first().skip(a - 1) =~= s.skip(a));
    }
}

/// Trimming the back of `s` keeps exactly the prefix up to the last
/// non-whitespace character.
pub proof fn lemma_trim_end_at(s: Seq<char>, b: int)
    requires
        0 <= b <= s.len(),
        forall|k: int| b <= k < s.len() ==> is_space(s[k]),
        b > 0 ==> !is_space(s[b - 1]),
    ensures
        trim_end(s) == s.take(b),
    decreases s.len() - b,
{
    if b == s.len() {
        assert(s.take(b) =~= s);
    } else {
        assert(is_space(s.last()));
        assert(forall|k: int| b <= k < s.drop_last().len() ==> is_space(s.drop_last()[k]));
        lemma_trim_end_at(s.drop_last(), b);
        assert(s.drop_last().take(b) =~= s.take(b));
    }
}

/// A trimmed sequence is never longer than the sequence it came from.
pub proof fn lemma_trim_le(s: Seq<char>)
    ensures
        trim_spec(s).len() <= s.len(),
{
    lemma_trim_start_le(s);
    lemma_trim_end_le(trim_start(s));
}

proof fn lemma_trim_start_le(s: Seq<char>)
    ensures
        trim_start(s).len() <= s.len(),
    decreases s.len(),
{
    if s.len() > 0 && is_space(s[0]) {
        lemma_trim_start_le(s.drop_first());
    }
}

proof fn lemma_trim_end_le(s: Seq<char>)
    ensures
        trim_end(s).len() <= s.len(),
    decreases s.len(),
{
    if s.len() > 0 && is_space(s.last()) {
        lemma_trim_end_le(s.drop_last());
    }
}

/// The summed trimmed length distributes over concatenation of line lists.
pub proof fn lemma_total_trimmed_concat(x: Seq<Seq<char>>, y: Seq<Seq<char>>)
    ensures
        total_trimmed(x + y) == total_trimmed(x) + total_trimmed(y),
    decreases y.len(),
{
    if y.len() == 0 {
        assert(x + y =~= x);
    } else {
        assert((x + y).drop_last() =~= x + y.drop_last());
        assert((x + y).last() == y.last());
        lemma_total_trimmed_concat(x, y.drop_last());
    }
}

/// A one-line list holds just that line's trimmed length.
pub proof fn lemma_total_trimmed_single(cur: Seq<char>)
    ensures
        total_trimmed(seq![cur]) == trim_spec(cur).len(),
{
    assert(seq![cur].drop_last() =~= Seq::<Seq<char>>::empty());
    assert(seq![cur].last() == cur);
    assert(total_trimmed(Seq::<Seq<char>>::empty()) == 0);
    assert(total_trimmed(seq![cur]) == total_trimmed(seq![cur].drop_last()) + trim_spec(
        seq![cur].last(),
    ).len());
}

/// The lines of a text cannot together hold more trimmed characters than
/// the text and the pending partial line hold.
pub proof fn lemma_total_trimmed_lines_rec(t: Seq<char>, cur: Seq<char>)
    ensures
        total_trimmed(lines_rec(t, cur)) <= t.len() + cur.len(),
    decreases t.len(),
{
    if t.len() == 0 {
        if cur.len() > 0 {
            assert(lines_rec(t, cur) =~= seq![cur]);
            lemma_total_trimmed_single(cur);
            lemma_trim_le(cur);
        }
    } else if t[0] == '\n' {
        lemma_total_trimmed_lines_rec(t.drop_first(), Seq::empty());
        lemma_total_trimmed_concat(seq![cur], lines_rec(t.drop_first(), Seq::empty()));
        lemma_total_trimmed_single(cur);
        lemma_trim_le(cur);
    } else {
        lemma_total_trimmed_lines_rec(t.drop_first(), cur.push(t[0]));
    }
}

/// The summed trimmed length of a text's lines is bounded by the text's
/// own length.
pub proof fn lemma_total_trimmed_lines_le(t: Seq<char>)
    ensures
        total_trimmed(lines_of(t)) <= t.len(),
{
    lemma_total_trimmed_lines_rec(t, Seq::empty());
}

/// The whole transform: split into lines, take the baseline as the exact
/// mean `total/count` of the trimmed line lengths, merge lines into
/// paragraphs, rewrap each paragraph against the limit, and drop the final
/// line terminator.
pub open spec fn reflow_spec(text: Seq<char>, r: Ratio, limit: Option<usize>) -> Seq<char> {
    let lines = lines_of(text);
    let total = total_trimmed(lines);
    let count = lines.len();
    let buffer = merge_from(lines, 0, total, count, r);
    let paras = lines_of(buffer);
    let body = rewrap_from(paras, 0, limit);
    if body.len() == 0 {
        body
    } else {
        body.drop_last()
    }
}

} // verus!
