//! The laws of reflowing: rewrapping is the identity on texts whose
//! paragraphs already fit, no non-whitespace character is lost, duplicated
//! or reordered, and the empty text reflows to itself.
use crate::model::{
    Ratio, is_space, lines_of, lines_rec, merge_from, merged_paragraphs, reflow_spec, rewrap_from,
    rewrap_para, total_trimmed, visible,
};
use vstd::prelude::*;

verus! {

/// The non-whitespace characters of each line, in order, concatenated.
spec fn visible_cat(ls: Seq<Seq<char>>) -> Seq<char>
    decreases ls.len(),
{
    if ls.len() == 0 {
        Seq::empty()
    } else {
        visible(ls[0]) + visible_cat(ls.drop_first())
    }
}

/// `visible` distributes over concatenation.
proof fn lemma_visible_concat(x: Seq<char>, y: Seq<char>)
    ensures
        visible(x + y) == visible(x) + visible(y),
    decreases x.len(),
{
    if x.len() == 0 {
        assert(x + y =~= y);
        assert(Seq::<char>::empty() + visible(y) =~= visible(y));
    } else {
        assert((x + y)[0] == x[0]);
        assert((x + y).len() > 0);
        assert((x + y).drop_first() =~= x.drop_first() + y);
        lemma_visible_concat(x.drop_first(), y);
        if is_space(x[0]) {
        } else {
            assert(seq![x[0]] + (visible(x.drop_first()) + visible(y)) =~= (seq![x[0]] + visible(
                x.drop_first(),
            )) + visible(y));
        }
    }
}

/// A one-character sequence is visible exactly when the character is not
/// whitespace.
proof fn lemma_visible_single(c: char)
    ensures
        visible(seq![c]) == if is_space(c) {
            Seq::<char>::empty()
        } else {
            seq![c]
        },
{
    assert(seq![c].drop_first() =~= Seq::<char>::empty());
    assert(visible(Seq::<char>::empty()) == Seq::<char>::empty());
    if !is_space(c) {
        assert(seq![c] + Seq::<char>::empty() =~= seq![c]);
    }
}

/// A one-line list is visible exactly as that line is.
proof fn lemma_visible_cat_single(x: Seq<char>)
    ensures
        visible_cat(seq![x]) == visible(x),
{
    assert(seq![x].drop_first() =~= Seq::<Seq<char>>::empty());
    assert(visible_cat(Seq::<Seq<char>>::empty()) == Seq::<char>::empty());
    assert(visible(x) + Seq::<char>::empty() =~= visible(x));
}

/// Appending a whitespace character leaves the visible characters alone.
proof fn lemma_visible_push_space(x: Seq<char>, c: char)
    requires
        is_space(c),
    ensures
        visible(x.push(c)) == visible(x),
{
    assert(x.push(c) =~= x + seq![c]);
    lemma_visible_concat(x, seq![c]);
    lemma_visible_single(c);
    assert(visible(x) + Seq::<char>::empty() =~= visible(x));
}

/// `visible_cat` distributes over concatenation of line lists.
proof fn lemma_visible_cat_concat(a: Seq<Seq<char>>, b: Seq<Seq<char>>)
    ensures
        visible_cat(a + b) == visible_cat(a) + visible_cat(b),
    decreases a.len(),
{
    if a.len() == 0 {
        assert(a + b =~= b);
        assert(Seq::<char>::empty() + visible_cat(b) =~= visible_cat(b));
    } else {
        assert((a + b)[0] == a[0]);
        assert((a + b).len() > 0);
        assert((a + b).drop_first() =~= a.drop_first() + b);
        lemma_visible_cat_concat(a.drop_first(), b);
        assert(visible(a[0]) + (visible_cat(a.drop_first()) + visible_cat(b)) =~= (visible(a[0])
            + visible_cat(a.drop_first())) + visible_cat(b));
    }
}

/// Splitting a text into lines preserves its visible characters: the line
/// breaks themselves are whitespace, and nothing else is touched.
proof fn lemma_visible_lines_rec(t: Seq<char>, cur: Seq<char>)
    ensures
        visible_cat(lines_rec(t, cur)) == visible(cur) + visible(t),
    decreases t.len(),
{
    if t.len() == 0 {
        if cur.len() == 0 {
            assert(lines_rec(t, cur) =~= Seq::<Seq<char>>::empty());
            assert(visible(cur) =~= Seq::<char>::empty());
            assert(visible(cur) + visible(t) =~= Seq::<char>::empty());
        } else {
            assert(lines_rec(t, cur) =~= seq![cur]);
            lemma_visible_cat_single(cur);
            assert(visible(t) == Seq::<char>::empty());
            assert(visible(cur) + Seq::<char>::empty() =~= visible(cur));
        }
    } else if t[0] == '\n' {
        let rest = lines_rec(t.drop_first(), Seq::empty());
        lemma_visible_lines_rec(t.drop_first(), Seq::empty());
        lemma_visible_cat_concat(seq![cur], rest);
        lemma_visible_cat_single(cur);
        assert(visible(Seq::<char>::empty()) =~= Seq::<char>::empty());
        assert(Seq::<char>::empty() + visible(t.drop_first()) =~= visible(t.drop_first()));
        assert(is_space('\n'));
        assert(visible(t) == visible(t.drop_first()));
    } else {
        let c = t[0];
        lemma_visible_lines_rec(t.drop_first(), cur.push(c));
        assert(cur.push(c) =~= cur + seq![c]);
        lemma_visible_concat(cur, seq![c]);
        lemma_visible_single(c);
        if is_space(c) {
            assert(visible(cur) + Seq::<char>::empty() =~= visible(cur));
            assert(visible(t) == visible(t.drop_first()));
        } else {
            assert(visible(t) == seq![c] + visible(t.drop_first()));
            assert((visible(cur) + seq![c]) + visible(t.drop_first()) =~= visible(cur) + (seq![c]
                + visible(t.drop_first())));
        }
    }
}

/// Merging lines into a buffer preserves their visible characters: the
/// separators it inserts are a space or a newline, nothing more.
proof fn lemma_visible_merge_from(lines: Seq<Seq<char>>, i: int, total: nat, count: nat, r: Ratio)
    requires
        0 <= i <= lines.len(),
    ensures
        visible(merge_from(lines, i, total, count, r)) == visible_cat(lines.skip(i)),
    decreases lines.len() - i,
{
    if i >= lines.len() {
        assert(lines.skip(i) =~= Seq::<Seq<char>>::empty());
    } else {
        let rest = merge_from(lines, i + 1, total, count, r);
        lemma_visible_merge_from(lines, i + 1, total, count, r);
        assert(lines.skip(i)[0] == lines[i]);
        assert(lines.skip(i).len() > 0);
        assert(lines.skip(i).drop_first() =~= lines.skip(i + 1));
        let sep_nl = seq!['\n'];
        let sep_sp = seq![' '];
        lemma_visible_single('\n');
        lemma_visible_single(' ');
        if crate::model::is_break_spec(lines[i], total, count, r) {
            lemma_visible_concat(lines[i] + sep_nl, rest);
            lemma_visible_concat(lines[i], sep_nl);
            assert((visible(lines[i]) + Seq::<char>::empty()) + visible(rest) =~= visible(lines[i])
                + visible(rest));
        } else if i == lines.len() - 1 {
            lemma_visible_concat(lines[i], rest);
        } else {
            lemma_visible_concat(lines[i] + sep_sp, rest);
            lemma_visible_concat(lines[i], sep_sp);
            assert((visible(lines[i]) + Seq::<char>::empty()) + visible(rest) =~= visible(lines[i])
                + visible(rest));
        }
    }
}

/// Emitting paragraphs untouched, each closed by a newline, preserves
/// their visible characters.
proof fn lemma_visible_rewrap_from_unbounded(paras: Seq<Seq<char>>, i: int)
    requires
        0 <= i <= paras.len(),
    ensures
        visible(rewrap_from(paras, i, Option::None)) == visible_cat(paras.skip(i)),
    decreases paras.len() - i,
{
    if i >= paras.len() {
        assert(paras.skip(i) =~= Seq::<Seq<char>>::empty());
    } else {
        let rest = rewrap_from(paras, i + 1, Option::None);
        lemma_visible_rewrap_from_unbounded(paras, i + 1);
        assert(paras.skip(i)[0] == paras[i]);
        assert(paras.skip(i).len() > 0);
        assert(paras.skip(i).drop_first() =~= paras.skip(i + 1));
        lemma_visible_concat(paras[i].push('\n'), rest);
        lemma_visible_push_space(paras[i], '\n');
    }
}

/// With no limit, the emitted text is empty or ends in the newline that
/// closed its last paragraph.
proof fn lemma_rewrap_from_unbounded_ends_newline(paras: Seq<Seq<char>>, i: int)
    requires
        0 <= i,
    ensures
        rewrap_from(paras, i, Option::None).len() > 0 ==> rewrap_from(
            paras,
            i,
            Option::None,
        ).last() == '\n',
    decreases paras.len() - i,
{
    if i >= paras.len() {
    } else {
        let piece = paras[i].push('\n');
        let rest = rewrap_from(paras, i + 1, Option::None);
        lemma_rewrap_from_unbounded_ends_newline(paras, i + 1);
        if rest.len() > 0 {
            assert((piece + rest).last() == rest.last());
        } else {
            assert(piece + rest =~= piece);
            assert(piece.last() == '\n');
        }
    }
}

/// Idempotence of rewrapping under the limit: when every paragraph the
/// Merger produces already holds at most `limit` characters, rewrapping
/// with that limit changes nothing, and the output equals the one produced
/// with no limit at all.
pub proof fn lemma_rewrap_under_limit_identity(text: Seq<char>, r: Ratio, limit: usize)
    requires
        forall|j: int|
            0 <= j < merged_paragraphs(text, r).len() ==> #[trigger] merged_paragraphs(text, r)[j].len()
                <= limit,
    ensures
        reflow_spec(text, r, Option::Some(limit)) == reflow_spec(text, r, Option::None),
{
    let lines = lines_of(text);
    let buffer = merge_from(lines, 0, total_trimmed(lines), lines.len(), r);
    let paras = lines_of(buffer);
    assert(paras == merged_paragraphs(text, r));
    lemma_rewrap_from_limit_eq(paras, 0, limit);
}

proof fn lemma_rewrap_from_limit_eq(paras: Seq<Seq<char>>, i: int, limit: usize)
    requires
        forall|j: int| 0 <= j < paras.len() ==> #[trigger] paras[j].len() <= limit,
    ensures
        rewrap_from(paras, i, Option::Some(limit)) == rewrap_from(paras, i, Option::None),
    decreases paras.len() - i,
{
    if i < 0 || i >= paras.len() {
    } else {
        assert(rewrap_para(paras[i], Option::Some(limit)) == paras[i].push('\n'));
        lemma_rewrap_from_limit_eq(paras, i + 1, limit);
    }
}

/// Line coverage: with no paragraph limit, reflowing neither drops,
/// duplicates nor reorders any non-whitespace character. The visible
/// characters of the output are exactly those of the input, in order, so
/// in particular their multisets agree; only the inserted joining spaces
/// and the removed or kept line breaks differ, and those are whitespace.
pub proof fn lemma_reflow_preserves_visible(text: Seq<char>, r: Ratio)
    ensures
        visible(reflow_spec(text, r, Option::None)) == visible(text),
        visible(reflow_spec(text, r, Option::None)).to_multiset() == visible(text).to_multiset(),
{
    let lines = lines_of(text);
    let total = total_trimmed(lines);
    let count = lines.len();
    let buffer = merge_from(lines, 0, total, count, r);
    let paras = lines_of(buffer);
    let body = rewrap_from(paras, 0, Option::None);

    lemma_visible_lines_rec(text, Seq::empty());
    assert(visible(Seq::<char>::empty()) =~= Seq::<char>::empty());
    assert(Seq::<char>::empty() + visible(text) =~= visible(text));
    assert(visible_cat(lines) == visible(text));

    lemma_visible_merge_from(lines, 0, total, count, r);
    assert(lines.skip(0) =~= lines);
    assert(visible(buffer) == visible(text));

    lemma_visible_lines_rec(buffer, Seq::empty());
    assert(Seq::<char>::empty() + visible(buffer) =~= visible(buffer));
    assert(visible_cat(paras) == visible(buffer));

    lemma_visible_rewrap_from_unbounded(paras, 0);
    assert(paras.skip(0) =~= paras);
    assert(visible(body) == visible(text));

    if body.len() > 0 {
        lemma_rewrap_from_unbounded_ends_newline(paras, 0);
        assert(body =~= body.drop_last().push(body.last()));
        lemma_visible_push_space(body.drop_last(), body.last());
        assert(visible(body.drop_last()) == visible(body));
    }
}

/// Whether `s` holds no newline, as every line and every paragraph does.
spec fn newline_free(s: Seq<char>) -> bool {
    forall|k: int| 0 <= k < s.len() ==> s[k] != '\n'
}

/// The given lines joined by single newlines, with none after the last.
spec fn joined(ps: Seq<Seq<char>>, i: int) -> Seq<char>
    decreases ps.len() - i,
{
    if i < 0 || i >= ps.len() {
        Seq::empty()
    } else if i == ps.len() - 1 {
        ps[i]
    } else {
        ps[i] + seq!['\n'] + joined(ps, i + 1)
    }
}

/// Every line the splitter yields is newline-free, as is the partial line
/// it still carries.
proof fn lemma_lines_rec_newline_free(t: Seq<char>, cur: Seq<char>)
    requires
        newline_free(cur),
    ensures
        forall|j: int|
            0 <= j < lines_rec(t, cur).len() ==> newline_free(#[trigger] lines_rec(t, cur)[j]),
    decreases t.len(),
{
    if t.len() == 0 {
        if cur.len() > 0 {
            assert(lines_rec(t, cur) =~= seq![cur]);
            assert forall|j: int| 0 <= j < lines_rec(t, cur).len() implies newline_free(
                #[trigger] lines_rec(t, cur)[j],
            ) by {
                assert(lines_rec(t, cur)[j] == cur);
            }
        }
    } else if t[0] == '\n' {
        let rest = lines_rec(t.drop_first(), Seq::empty());
        lemma_lines_rec_newline_free(t.drop_first(), Seq::empty());
        assert(lines_rec(t, cur) == seq![cur] + rest);
        assert forall|j: int| 0 <= j < lines_rec(t, cur).len() implies newline_free(
            #[trigger] lines_rec(t, cur)[j],
        ) by {
            if j == 0 {
                assert(lines_rec(t, cur)[j] == cur);
            } else {
                assert(lines_rec(t, cur)[j] == rest[j - 1]);
                assert(newline_free(rest[j - 1]));
            }
        }
    } else {
        let c = t[0];
        assert(newline_free(cur.push(c)));
        lemma_lines_rec_newline_free(t.drop_first(), cur.push(c));
        let rest = lines_rec(t.drop_first(), cur.push(c));
        assert forall|j: int| 0 <= j < lines_rec(t, cur).len() implies newline_free(
            #[trigger] lines_rec(t, cur)[j],
        ) by {
            assert(lines_rec(t, cur)[j] == rest[j]);
            assert(newline_free(rest[j]));
        }
    }
}

/// Emitting the tail of the paragraphs, each closed by a newline, is the
/// same as joining them with newlines and appending one final newline.
proof fn lemma_rewrap_unbounded_is_joined(ps: Seq<Seq<char>>, i: int)
    requires
        0 <= i < ps.len(),
    ensures
        rewrap_from(ps, i, Option::None) == joined(ps, i) + seq!['\n'],
    decreases ps.len() - i,
{
    if i == ps.len() - 1 {
        assert(rewrap_from(ps, i + 1, Option::None) =~= Seq::<char>::empty());
        assert(ps[i].push('\n') + Seq::<char>::empty() =~= ps[i] + seq!['\n']);
    } else {
        lemma_rewrap_unbounded_is_joined(ps, i + 1);
        assert(ps[i].push('\n') + (joined(ps, i + 1) + seq!['\n']) =~= (ps[i] + seq!['\n'] + joined(
            ps,
            i + 1,
        )) + seq!['\n']);
    }
}

/// Splitting a text that starts with a newline-free piece, a newline and a
/// remainder yields that piece (after the carried prefix) as the first
/// line, then the lines of the remainder.
proof fn lemma_lines_rec_step(p: Seq<char>, t: Seq<char>, cur: Seq<char>)
    requires
        newline_free(p),
    ensures
        lines_rec(p + seq!['\n'] + t, cur) == seq![cur + p] + lines_rec(t, Seq::empty()),
    decreases p.len(),
{
    let whole = p + seq!['\n'] + t;
    if p.len() == 0 {
        assert(whole[0] == '\n');
        assert(whole.drop_first() =~= t);
        assert(cur + p =~= cur);
    } else {
        let c = p[0];
        assert(whole[0] == c);
        assert(c != '\n');
        assert(whole.drop_first() =~= p.drop_first() + seq!['\n'] + t);
        assert(newline_free(p.drop_first()));
        lemma_lines_rec_step(p.drop_first(), t, cur.push(c));
        assert(cur.push(c) + p.drop_first() =~= cur + p);
    }
}

/// Splitting a newline-free text yields that text (after the carried
/// prefix) as the only line, or nothing when both are empty.
proof fn lemma_lines_rec_flat(p: Seq<char>, cur: Seq<char>)
    requires
        newline_free(p),
    ensures
        lines_rec(p, cur) == if (cur + p).len() == 0 {
            Seq::<Seq<char>>::empty()
        } else {
            seq![cur + p]
        },
    decreases p.len(),
{
    if p.len() == 0 {
        assert(cur + p =~= cur);
    } else {
        let c = p[0];
        assert(c != '\n');
        assert(newline_free(p.drop_first()));
        lemma_lines_rec_flat(p.drop_first(), cur.push(c));
        assert(cur.push(c) + p.drop_first() =~= cur + p);
    }
}

/// Every line of newline-joined paragraphs is one of those paragraphs.
proof fn lemma_lines_of_joined(ps: Seq<Seq<char>>, i: int)
    requires
        0 <= i < ps.len(),
        forall|k: int| 0 <= k < ps.len() ==> newline_free(#[trigger] ps[k]),
    ensures
        forall|j: int|
            0 <= j < lines_of(joined(ps, i)).len() ==> exists|k: int|
                i <= k < ps.len() && #[trigger] lines_of(joined(ps, i))[j] == ps[k],
    decreases ps.len() - i,
{
    if i == ps.len() - 1 {
        lemma_lines_rec_flat(ps[i], Seq::empty());
        assert(Seq::<char>::empty() + ps[i] =~= ps[i]);
        assert forall|j: int| 0 <= j < lines_of(joined(ps, i)).len() implies exists|k: int|
            i <= k < ps.len() && #[trigger] lines_of(joined(ps, i))[j] == ps[k] by {
            assert(lines_of(joined(ps, i))[j] == ps[i]);
        }
    } else {
        lemma_lines_rec_step(ps[i], joined(ps, i + 1), Seq::empty());
        assert(Seq::<char>::empty() + ps[i] =~= ps[i]);
        lemma_lines_of_joined(ps, i + 1);
        let ls = lines_of(joined(ps, i));
        let tail = lines_of(joined(ps, i + 1));
        assert(ls == seq![ps[i]] + tail);
        assert forall|j: int| 0 <= j < ls.len() implies exists|k: int|
            i <= k < ps.len() && #[trigger] ls[j] == ps[k] by {
            if j == 0 {
                assert(ls[0] == ps[i]);
            } else {
                assert(ls[j] == tail[j - 1]);
                let k = choose|k: int| i + 1 <= k < ps.len() && #[trigger] tail[j - 1] == ps[k];
                assert(ls[j] == ps[k]);
            }
        }
    }
}

/// Monotonic width bound, for the texts rewrapping leaves alone: when
/// every paragraph the Merger produces already holds at most `limit`
/// characters, every line of the output holds at most `limit` characters.
/// (When a paragraph exceeds the limit, the widths of the wrapped lines are
/// whatever `textwrap` makes them.)
pub proof fn lemma_width_bound_under_limit(text: Seq<char>, r: Ratio, limit: usize)
    requires
        forall|j: int|
            0 <= j < merged_paragraphs(text, r).len() ==> #[trigger] merged_paragraphs(text, r)[j].len()
                <= limit,
    ensures
        forall|j: int|
            0 <= j < lines_of(reflow_spec(text, r, Option::Some(limit))).len() ==> (
            #[trigger] lines_of(reflow_spec(text, r, Option::Some(limit)))[j]).len() <= limit,
{
    lemma_rewrap_under_limit_identity(text, r, limit);
    let lines = lines_of(text);
    let buffer = merge_from(lines, 0, total_trimmed(lines), lines.len(), r);
    let paras = lines_of(buffer);
    assert(paras == merged_paragraphs(text, r));
    let body = rewrap_from(paras, 0, Option::None);
    let out = reflow_spec(text, r, Option::Some(limit));
    if paras.len() == 0 {
        assert(body =~= Seq::<char>::empty());
        assert(out =~= Seq::<char>::empty());
        assert(lines_of(out) =~= Seq::<Seq<char>>::empty());
    } else {
        lemma_rewrap_unbounded_is_joined(paras, 0);
        assert(body.len() > 0);
        assert(out =~= joined(paras, 0));
        lemma_lines_rec_newline_free(buffer, Seq::empty());
        lemma_lines_of_joined(paras, 0);
        assert forall|j: int| 0 <= j < lines_of(out).len() implies (#[trigger] lines_of(out)[j]).len()
            <= limit by {
            let k = choose|k: int|
                0 <= k < paras.len() && #[trigger] lines_of(joined(paras, 0))[j] == paras[k];
            assert(lines_of(out)[j] == paras[k]);
        }
    }
}

/// The empty text reflows to the empty text, whatever the options.
pub proof fn lemma_reflow_empty(r: Ratio, limit: Option<usize>)
    ensures
        reflow_spec(Seq::empty(), r, limit) == Seq::<char>::empty(),
{
    let lines = lines_of(Seq::empty());
    assert(lines =~= Seq::<Seq<char>>::empty());
    let buffer = merge_from(lines, 0, total_trimmed(lines), lines.len(), r);
    assert(buffer =~= Seq::<char>::empty());
    let paras = lines_of(buffer);
    assert(paras =~= Seq::<Seq<char>>::empty());
    assert(rewrap_from(paras, 0, limit) =~= Seq::<char>::empty());
}

} // verus!
