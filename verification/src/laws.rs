//! Properties of the library that hold across its operations.
use vstd::prelude::*;

use crate::frame::{
    firsts, rev_f, select_f, flatten_toks, AssertionView, FrameView, frame_wf, frames_wf, keys_distinct, pairs_wf, set_top, add_d_all, add_d_row, all_d, all_e, e_label, empty_frame, f_label,
    insert_pair, is_const, is_disjoint, is_mand, is_var, key_index, lemma_key_index, map_get,
    map_put, select_dvs, spec_add_c, spec_add_d, spec_add_e, spec_add_f, spec_add_v,
    spec_make_assertion,
};
use crate::mm::{
    LabelsView, all_ints_below, close_paren, dec_step, e_hyp_labels, f_hyp_labels,
    first_index, flatten_ints, ints_below, join_chars, parse_ints, run_dec,
    open_paren, spec_apply_subst, spec_decompress, spec_find_vars, spec_verify, SubstView,
    LabelDataView, check_hyps, dv_check, float_subst, proof_step, MMView, Step, spec_step,
    with_label, DecState, dv_ok, run_steps, add_all_c, add_all_v, ReadOutcome, spec_read_block,
    spec_read_loop, spec_read_next,
};
use crate::text::{Tok, flat_words, flush, norm_pair, spec_is_whitespace, tok_le, words, words_from};
use crate::error::MmError;
use crate::stream::{StreamState, spec_read_comment as stream_read, spec_readstat, spec_stat_from};
use crate::tokens::{
    FileStepView, TokState, comment_close, comment_open, include_close, include_open, lemma_next_tok_shrinks,
    next_tok, size, spec_read_comment, spec_read_file, spec_scan, spec_skip_comment, stmt_end,
};

verus! {

/// Whether `t` is a non-empty run of non-white-space characters.
pub open spec fn is_word(t: Tok) -> bool {
    t.len() > 0 && forall|j: int| 0 <= j < t.len() ==> !spec_is_whitespace(#[trigger] t[j])
}

proof fn lemma_words_from_are_words(s: Seq<char>, i: int, cur: Seq<char>)
    requires
        0 <= i,
        forall|j: int| 0 <= j < cur.len() ==> !spec_is_whitespace(#[trigger] cur[j]),
    ensures
        forall|k: int|
            0 <= k < words_from(s, i, cur).len() ==> is_word(#[trigger] words_from(s, i, cur)[k]),
    decreases s.len() - i,
{
    if cur.len() > 0 {
        assert(flush(cur)[0] == cur);
        assert(is_word(cur));
    }
    if i >= s.len() {
        assert(words_from(s, i, cur) == flush(cur));
    } else if spec_is_whitespace(s[i]) {
        lemma_words_from_are_words(s, i + 1, seq![]);
        let w = words_from(s, i + 1, seq![]);
        assert(words_from(s, i, cur) == flush(cur) + w);
        assert forall|k: int| 0 <= k < (flush(cur) + w).len() implies is_word(
            #[trigger] (flush(cur) + w)[k],
        ) by {
            if k >= flush(cur).len() {
                assert((flush(cur) + w)[k] == w[k - flush(cur).len()]);
            } else {
                assert((flush(cur) + w)[k] == cur);
            }
        }
    } else {
        let c2 = cur.push(s[i]);
        assert forall|j: int| 0 <= j < c2.len() implies !spec_is_whitespace(#[trigger] c2[j]) by {
            if j < cur.len() {
                assert(c2[j] == cur[j]);
            }
        }
        lemma_words_from_are_words(s, i + 1, c2);
        assert(words_from(s, i, cur) == words_from(s, i + 1, c2));
    }
}

/// Splitting a line gives tokens that are non-empty and hold no white space.
pub proof fn law_words_are_words(s: Seq<char>)
    ensures
        forall|k: int| 0 <= k < words(s).len() ==> is_word(#[trigger] words(s)[k]),
{
    lemma_words_from_are_words(s, 0, seq![]);
}

/// A token read past comments is never `$(` nor `$[`.
pub proof fn law_read_comment_skips(ts: TokState)
    ensures
        spec_read_comment(ts).0 matches Ok(FileStepView::Token(Some(t))) ==> t != comment_open()
            && t != include_open(),
    decreases size(ts),
{
    law_read_file_skips(ts);
    let (r, ts1) = spec_read_file(ts);
    if let Ok(FileStepView::Token(Some(t))) = r {
        if t == comment_open() {
            let (r2, ts2) = spec_skip_comment(ts1);
            if r2 is Ok && size(ts2) < size(ts) {
                law_read_comment_skips(ts2);
            }
        }
    }
}

/// A token read at the file level is never `$[`.
pub proof fn law_read_file_skips(ts: TokState)
    ensures
        spec_read_file(ts).0 matches Ok(FileStepView::Token(Some(t))) ==> t != include_open(),
    decreases size(ts),
{
    let (r, ts1) = next_tok(ts);
    if let Ok(Some(t)) = r {
        if t == include_open() {
            let (f, ts2) = next_tok(ts1);
            let (b, ts3) = next_tok(ts2);
            if size(ts3) < size(ts) {
                law_read_file_skips(ts3);
            }
        }
    }
}

/// Reading at the file level never includes a file twice: where the names
/// of the included files are distinct, they stay distinct, and a name handed
/// back is one not included before, now recorded.
pub proof fn law_include_once(ts: TokState)
    requires
        ts.imported.no_duplicates(),
    ensures
        spec_read_file(ts).1.imported.no_duplicates(),
        spec_read_file(ts).0 matches Ok(FileStepView::Include(f)) ==> !ts.imported.contains(f)
            && spec_read_file(ts).1.imported == ts.imported.push(f),
        !(spec_read_file(ts).0 is Ok && spec_read_file(ts).0->Ok_0 is Include)
            ==> spec_read_file(ts).1.imported == ts.imported,
    decreases size(ts),
{
    lemma_next_tok_shrinks(ts);
    let (r, ts1) = next_tok(ts);
    if let Ok(Some(t)) = r {
        if t == include_open() {
            lemma_next_tok_shrinks(ts1);
            let (f, ts2) = next_tok(ts1);
            lemma_next_tok_shrinks(ts2);
            let (b, ts3) = next_tok(ts2);
            if let (Ok(Some(name)), Ok(Some(b))) = (f, b) {
                if b == include_close() {
                    if !ts3.imported.contains(name) {
                        let im = ts3.imported.push(name);
                        assert forall|i: int, j: int|
                            0 <= i < im.len() && 0 <= j < im.len() && i != j implies im[i]
                            != im[j] by {
                            if i == im.len() - 1 {
                                assert(ts3.imported[j] == im[j]);
                            } else if j == im.len() - 1 {
                                assert(ts3.imported[i] == im[i]);
                            }
                        }
                    } else if size(ts3) < size(ts) {
                        law_include_once(ts3);
                    }
                }
            }
        }
    }
}

/// Including a file that was included before is the same as not including
/// it: where the next three raw tokens, on one line or spread over several,
/// are `$[`, the name of such a file and `$]`, reading at the file level
/// goes on after them.
pub proof fn law_include_repeat(ts: TokState, f: Tok)
    requires
        ts.imported.contains(f),
        next_tok(ts).0 == Ok::<Option<Tok>, MmError>(Some(include_open())),
        next_tok(next_tok(ts).1).0 == Ok::<Option<Tok>, MmError>(Some(f)),
        next_tok(next_tok(next_tok(ts).1).1).0 == Ok::<Option<Tok>, MmError>(Some(include_close())),
    ensures
        spec_read_file(ts) == spec_read_file(next_tok(next_tok(next_tok(ts).1).1).1),
{
    let ts1 = next_tok(ts).1;
    let ts2 = next_tok(ts1).1;
    lemma_next_tok_shrinks(ts);
    lemma_next_tok_shrinks(ts1);
    lemma_next_tok_shrinks(ts2);
}

/// Whether no token of `s` is `$.`, `$(` or `$[`.
pub open spec fn plain_stmt(s: Seq<Tok>) -> bool {
    forall|i: int|
        0 <= i < s.len() ==> #[trigger] s[i] != stmt_end() && s[i] != comment_open() && s[i]
            != include_open()
}

/// Whether no token of `s` is `$(` or `$[`.
pub open spec fn no_openers(s: Seq<Tok>) -> bool {
    forall|i: int| 0 <= i < s.len() ==> #[trigger] s[i] != comment_open() && s[i] != include_open()
}

/// The tokens that a scan gives hold no comment or inclusion opener.
pub proof fn law_scan_plain(ts: TokState)
    ensures
        no_openers(spec_scan(ts).1),
    decreases size(ts),
{
    law_read_comment_skips(ts);
    let (r, ts1) = spec_read_comment(ts);
    if let Ok(FileStepView::Token(Some(t))) = r {
        if size(ts1) < size(ts) {
            law_scan_plain(ts1);
            let w = spec_scan(ts1).1;
            let all = seq![t] + w;
            assert forall|i: int| 0 <= i < all.len() implies #[trigger] all[i] != comment_open()
                && all[i] != include_open() by {
                if i > 0 {
                    assert(all[i] == w[i - 1]);
                }
            }
        }
    }
}

proof fn lemma_stat_from_plain(tok: Tok, ss: StreamState, acc: Seq<Tok>)
    requires
        plain_stmt(acc),
        no_openers(ss.rest),
        tok != comment_open(),
        tok != include_open(),
    ensures
        spec_stat_from(tok, ss, acc).0 matches Ok(s) ==> plain_stmt(s),
    decreases ss.rest.len(),
{
    if tok != stmt_end() {
        let (r, ss1) = stream_read(ss);
        if let Ok(Some(t)) = r {
            if ss1.rest.len() < ss.rest.len() {
                let acc2 = acc.push(tok);
                assert(plain_stmt(acc2)) by {
                    assert forall|i: int| 0 <= i < acc2.len() implies #[trigger] acc2[i]
                        != stmt_end() && acc2[i] != comment_open() && acc2[i] != include_open() by {
                        if i < acc.len() {
                            assert(acc2[i] == acc[i]);
                        }
                    }
                }
                assert(t == ss.rest[0]);
                assert(no_openers(ss1.rest)) by {
                    assert forall|i: int| 0 <= i < ss1.rest.len() implies #[trigger] ss1.rest[i]
                        != comment_open() && ss1.rest[i] != include_open() by {
                        assert(ss1.rest[i] == ss.rest[i + 1]);
                    }
                }
                lemma_stat_from_plain(t, ss1, acc2);
            }
        }
    }
}

/// A statement read from scanned tokens never holds its end marker `$.`, nor
/// a comment or inclusion opener.
pub proof fn law_readstat_plain(ss: StreamState)
    requires
        no_openers(ss.rest),
    ensures
        spec_readstat(ss).0 matches Ok(s) ==> plain_stmt(s),
{
    let (r, ss1) = stream_read(ss);
    if let Ok(Some(t)) = r {
        assert(t == ss.rest[0]);
        assert(plain_stmt(Seq::<Tok>::empty()));
        assert(no_openers(ss1.rest)) by {
            assert forall|i: int| 0 <= i < ss1.rest.len() implies #[trigger] ss1.rest[i]
                != comment_open() && ss1.rest[i] != include_open() by {
                assert(ss1.rest[i] == ss.rest[i + 1]);
            }
        }
        lemma_stat_from_plain(t, ss1, seq![]);
    }
}

/// The order on tokens is antisymmetric and total.
pub proof fn law_tok_le_order(a: Tok, b: Tok)
    ensures
        tok_le(a, b) || tok_le(b, a),
        tok_le(a, b) && tok_le(b, a) ==> a == b,
    decreases a.len(),
{
    if a.len() > 0 && b.len() > 0 && a[0] == b[0] {
        law_tok_le_order(a.drop_first(), b.drop_first());
        if tok_le(a, b) && tok_le(b, a) {
            assert(a =~= seq![a[0]] + a.drop_first());
            assert(b =~= seq![b[0]] + b.drop_first());
        }
    } else if a.len() == 0 && b.len() == 0 {
        assert(a =~= b);
    } else if a.len() > 0 && b.len() > 0 {
        assert(a[0] < b[0] || b[0] < a[0]);
    }
}

/// The pair of two tokens does not depend on their order.
pub proof fn law_norm_pair_symmetric(x: Tok, y: Tok)
    ensures
        norm_pair(x, y) == norm_pair(y, x),
{
    law_tok_le_order(x, y);
}

/// Whether two tokens are declared disjoint does not depend on their order.
pub proof fn law_lookup_d_symmetric(fs: Seq<FrameView>, x: Tok, y: Tok)
    ensures
        is_disjoint(fs, x, y) == is_disjoint(fs, y, x),
{
    law_norm_pair_symmetric(x, y);
}

/// Opening a scope changes no lookup, and closing it gives back the stack.
pub proof fn law_push_pop(fs: Seq<FrameView>, t: Tok, x: Tok, y: Tok)
    ensures
        fs.push(empty_frame()).drop_last() == fs,
        is_const(fs.push(empty_frame()), t) == is_const(fs, t),
        is_var(fs.push(empty_frame()), t) == is_var(fs, t),
        is_disjoint(fs.push(empty_frame()), x, y) == is_disjoint(fs, x, y),
{
    let fs2 = fs.push(empty_frame());
    assert(fs2.drop_last() =~= fs);
    assert(!fs2[fs.len() as int].c.contains(t));
    assert(!fs2[fs.len() as int].v.contains(t));
    assert(!fs2[fs.len() as int].d.contains(norm_pair(x, y)));
    if is_const(fs, t) {
        let i = choose|i: int| 0 <= i < fs.len() && #[trigger] fs[i].c.contains(t);
        assert(fs2[i] == fs[i]);
    }
    if is_var(fs, t) {
        let i = choose|i: int| 0 <= i < fs.len() && #[trigger] fs[i].v.contains(t);
        assert(fs2[i] == fs[i]);
    }
    if is_disjoint(fs, x, y) {
        let i = choose|i: int| 0 <= i < fs.len() && #[trigger] fs[i].d.contains(norm_pair(x, y));
        assert(fs2[i] == fs[i]);
        assert(fs2[i].d.contains(norm_pair(x, y)));
    }
    if is_const(fs2, t) {
        let i = choose|i: int| 0 <= i < fs2.len() && #[trigger] fs2[i].c.contains(t);
        assert(fs2[i] == fs[i]);
    }
    if is_var(fs2, t) {
        let i = choose|i: int| 0 <= i < fs2.len() && #[trigger] fs2[i].v.contains(t);
        assert(fs2[i] == fs[i]);
    }
    if is_disjoint(fs2, x, y) {
        let i = choose|i: int| 0 <= i < fs2.len() && #[trigger] fs2[i].d.contains(norm_pair(x, y));
        assert(fs2[i] == fs[i]);
        assert(fs[i].d.contains(norm_pair(x, y)));
    }
}

/// A constant once declared is a constant, and so stays every other one.
pub proof fn law_add_c_lookup(fs: Seq<FrameView>, t: Tok, u: Tok)
    requires
        fs.len() > 0,
        spec_add_c(fs, t) is Ok,
    ensures
        is_const(spec_add_c(fs, t).unwrap(), t),
        is_const(fs, u) ==> is_const(spec_add_c(fs, t).unwrap(), u),
        is_var(spec_add_c(fs, t).unwrap(), u) == is_var(fs, u),
{
    let fs2 = spec_add_c(fs, t).unwrap();
    let n = fs.len() - 1;
    assert(fs2[n].c.last() == t);
    assert(fs2[n].c.contains(t));
    if is_const(fs, u) {
        let i = choose|i: int| 0 <= i < fs.len() && #[trigger] fs[i].c.contains(u);
        if i == n {
            let j = choose|j: int| 0 <= j < fs[n].c.len() && fs[n].c[j] == u;
            assert(fs2[n].c[j] == u);
            assert(fs2[n].c.contains(u));
        } else {
            assert(fs2[i] == fs[i]);
            assert(fs2[i].c.contains(u));
        }
    }
    if is_var(fs, u) {
        let i = choose|i: int| 0 <= i < fs.len() && #[trigger] fs[i].v.contains(u);
        assert(fs2[i].v == fs[i].v);
    }
    if is_var(fs2, u) {
        let i = choose|i: int| 0 <= i < fs2.len() && #[trigger] fs2[i].v.contains(u);
        assert(fs2[i].v == fs[i].v);
    }
}

/// A variable once declared is a variable, and so stays every other one.
pub proof fn law_add_v_lookup(fs: Seq<FrameView>, t: Tok, u: Tok)
    requires
        fs.len() > 0,
        spec_add_v(fs, t) is Ok,
    ensures
        is_var(spec_add_v(fs, t).unwrap(), t),
        is_var(fs, u) ==> is_var(spec_add_v(fs, t).unwrap(), u),
        is_const(spec_add_v(fs, t).unwrap(), u) == is_const(fs, u),
{
    let fs2 = spec_add_v(fs, t).unwrap();
    let n = fs.len() - 1;
    assert(fs2[n].v.last() == t);
    assert(fs2[n].v.contains(t));
    if is_var(fs, u) {
        let i = choose|i: int| 0 <= i < fs.len() && #[trigger] fs[i].v.contains(u);
        if i == n {
            let j = choose|j: int| 0 <= j < fs[n].v.len() && fs[n].v[j] == u;
            assert(fs2[n].v[j] == u);
            assert(fs2[n].v.contains(u));
        } else {
            assert(fs2[i] == fs[i]);
            assert(fs2[i].v.contains(u));
        }
    }
    if is_const(fs, u) {
        let i = choose|i: int| 0 <= i < fs.len() && #[trigger] fs[i].c.contains(u);
        assert(fs2[i].c == fs[i].c);
    }
    if is_const(fs2, u) {
        let i = choose|i: int| 0 <= i < fs2.len() && #[trigger] fs2[i].c.contains(u);
        assert(fs2[i].c == fs[i].c);
    }
}

proof fn lemma_insert_pair_keeps(d: Seq<(Tok, Tok)>, x: Tok, y: Tok, p: (Tok, Tok))
    ensures
        d.contains(p) ==> insert_pair(d, x, y).contains(p),
        insert_pair(d, x, y).contains(norm_pair(x, y)),
{
    if d.contains(p) && !d.contains(norm_pair(x, y)) {
        let i = choose|i: int| 0 <= i < d.len() && d[i] == p;
        assert(insert_pair(d, x, y)[i] == p);
    }
    if !d.contains(norm_pair(x, y)) {
        assert(insert_pair(d, x, y)[d.len() as int] == norm_pair(x, y));
    }
}

proof fn lemma_add_d_row(d: Seq<(Tok, Tok)>, x: Tok, ys: Seq<Tok>, p: (Tok, Tok), y: Tok)
    ensures
        d.contains(p) ==> add_d_row(d, x, ys).contains(p),
        ys.contains(y) && x != y ==> add_d_row(d, x, ys).contains(norm_pair(x, y)),
    decreases ys.len(),
{
    if ys.len() > 0 {
        let d1 = add_d_row(d, x, ys.drop_last());
        lemma_add_d_row(d, x, ys.drop_last(), p, y);
        lemma_add_d_row(d, x, ys.drop_last(), norm_pair(x, y), y);
        if x != ys.last() {
            lemma_insert_pair_keeps(d1, x, ys.last(), p);
            lemma_insert_pair_keeps(d1, x, ys.last(), norm_pair(x, y));
        }
        if ys.contains(y) && x != y && !ys.drop_last().contains(y) {
            let i = choose|i: int| 0 <= i < ys.len() && ys[i] == y;
            if i < ys.len() - 1 {
                assert(ys.drop_last()[i] == y);
            }
        }
    }
}

proof fn lemma_add_d_all(d: Seq<(Tok, Tok)>, xs: Seq<Tok>, ys: Seq<Tok>, p: (Tok, Tok), x: Tok, y: Tok)
    ensures
        d.contains(p) ==> add_d_all(d, xs, ys).contains(p),
        xs.contains(x) && ys.contains(y) && x != y ==> add_d_all(d, xs, ys).contains(norm_pair(x, y)),
    decreases xs.len(),
{
    if xs.len() > 0 {
        let d1 = add_d_all(d, xs.drop_last(), ys);
        lemma_add_d_all(d, xs.drop_last(), ys, p, x, y);
        lemma_add_d_row(d1, xs.last(), ys, p, y);
        lemma_add_d_row(d1, xs.last(), ys, norm_pair(x, y), y);
        if xs.contains(x) && !xs.drop_last().contains(x) {
            let i = choose|i: int| 0 <= i < xs.len() && xs[i] == x;
            if i < xs.len() - 1 {
                assert(xs.drop_last()[i] == x);
            }
        }
    }
}

/// After `$d`, any two different tokens of it are disjoint, and pairs
/// declared disjoint before stay so.
pub proof fn law_add_d_lookup(fs: Seq<FrameView>, stat: Seq<Tok>, x: Tok, y: Tok, u: Tok, w: Tok)
    requires
        fs.len() > 0,
    ensures
        stat.contains(x) && stat.contains(y) && x != y ==> is_disjoint(spec_add_d(fs, stat), x, y),
        is_disjoint(fs, u, w) ==> is_disjoint(spec_add_d(fs, stat), u, w),
{
    let fs2 = spec_add_d(fs, stat);
    let n = fs.len() - 1;
    lemma_add_d_all(fs[n].d, stat, stat, norm_pair(u, w), x, y);
    if stat.contains(x) && stat.contains(y) && x != y {
        assert(fs2[n].d.contains(norm_pair(x, y)));
    }
    if is_disjoint(fs, u, w) {
        let i = choose|i: int| 0 <= i < fs.len() && #[trigger] fs[i].d.contains(norm_pair(u, w));
        if i != n {
            assert(fs2[i] == fs[i]);
            assert(fs2[i].d.contains(norm_pair(u, w)));
        } else {
            assert(fs2[n].d.contains(norm_pair(u, w)));
        }
    }
}

/// Substituting nothing leaves a statement as it is.
pub proof fn law_apply_subst_empty(stat: Seq<Tok>)
    ensures
        spec_apply_subst(stat, seq![]) == stat,
    decreases stat.len(),
{
    if stat.len() > 0 {
        law_apply_subst_empty(stat.drop_last());
        assert(stat.drop_last().push(stat.last()) =~= stat);
    }
}

/// Substitution works token by token: it commutes with concatenation.
pub proof fn law_apply_subst_concat(s1: Seq<Tok>, s2: Seq<Tok>, subst: SubstView)
    ensures
        spec_apply_subst(s1 + s2, subst) == spec_apply_subst(s1, subst) + spec_apply_subst(
            s2,
            subst,
        ),
    decreases s2.len(),
{
    if s2.len() == 0 {
        assert(s1 + s2 =~= s1);
        assert(spec_apply_subst(s1, subst) + spec_apply_subst(s2, subst) =~= spec_apply_subst(
            s1,
            subst,
        ));
    } else {
        law_apply_subst_concat(s1, s2.drop_last(), subst);
        assert((s1 + s2).drop_last() =~= s1 + s2.drop_last());
        assert((s1 + s2).last() == s2.last());
        let a = spec_apply_subst(s1, subst);
        let b = spec_apply_subst(s2.drop_last(), subst);
        match crate::frame::map_get(subst, s2.last()) {
            Some(r) => {
                assert(a + b + r =~= a + (b + r));
            },
            None => {
                assert((a + b).push(s2.last()) =~= a + b.push(s2.last()));
            },
        }
    }
}

/// The variables found in a statement are each found once, each is an
/// active variable of the statement, and every active variable of it is found.
pub proof fn law_find_vars(fs: Seq<FrameView>, stat: Seq<Tok>, t: Tok)
    ensures
        spec_find_vars(fs, stat).no_duplicates(),
        spec_find_vars(fs, stat).contains(t) <==> stat.contains(t) && is_var(fs, t),
    decreases stat.len(),
{
    if stat.len() > 0 {
        let dl = stat.drop_last();
        let p = spec_find_vars(fs, dl);
        let x = stat.last();
        law_find_vars(fs, dl, t);
        law_find_vars(fs, dl, x);
        assert(stat.contains(t) <==> (dl.contains(t) || x == t)) by {
            if stat.contains(t) && x != t {
                let i = choose|i: int| 0 <= i < stat.len() && stat[i] == t;
                assert(dl[i] == t);
            }
            if dl.contains(t) {
                let i = choose|i: int| 0 <= i < dl.len() && dl[i] == t;
                assert(stat[i] == t);
            }
            if x == t {
                assert(stat[stat.len() - 1] == t);
            }
        }
        if !p.contains(x) && is_var(fs, x) {
            let q = p.push(x);
            assert(q.contains(t) <==> (p.contains(t) || x == t)) by {
                if q.contains(t) && x != t {
                    let i = choose|i: int| 0 <= i < q.len() && q[i] == t;
                    assert(p[i] == t);
                }
                if p.contains(t) {
                    let i = choose|i: int| 0 <= i < p.len() && p[i] == t;
                    assert(q[i] == t);
                }
                if x == t {
                    assert(q[p.len() as int] == t);
                }
            }
            assert forall|i: int, j: int| 0 <= i < q.len() && 0 <= j < q.len() && i != j implies q[i]
                != q[j] by {
                if i < p.len() && j < p.len() {
                } else if i < p.len() {
                    assert(p.contains(q[i]));
                } else {
                    assert(p.contains(q[j]));
                }
            }
        }
    }
}

/// A position that holds the key, with no earlier one, is the key's position.
proof fn lemma_key_index_unique<K, V>(s: Seq<(K, V)>, k: K, j: int)
    requires
        0 <= j < s.len(),
        s[j].0 == k,
        forall|i: int| 0 <= i < j ==> s[i].0 != k,
    ensures
        key_index(s, k) == j,
    decreases s.len(),
{
    lemma_key_index(s, k);
    if j < s.len() - 1 {
        lemma_key_index_unique(s.drop_last(), k, j);
    } else {
        lemma_key_index(s.drop_last(), k);
        if key_index(s.drop_last(), k) >= 0 {
            assert(s[key_index(s.drop_last(), k)].0 == k);
        }
    }
}

/// A missing key stays missing in a shorter or updated list with other keys.
proof fn lemma_key_index_none<K, V>(s: Seq<(K, V)>, k: K)
    requires
        forall|i: int| 0 <= i < s.len() ==> s[i].0 != k,
    ensures
        key_index(s, k) == -1,
    decreases s.len(),
{
    if s.len() > 0 {
        lemma_key_index_none(s.drop_last(), k);
    }
}

/// Reading a key after setting it gives the value set; other keys keep their values.
pub proof fn law_map_put_get<K, V>(s: Seq<(K, V)>, k: K, v: V, k2: K)
    ensures
        map_get(map_put(s, k, v), k) == Some(v),
        k2 != k ==> map_get(map_put(s, k, v), k2) == map_get(s, k2),
{
    lemma_key_index(s, k);
    lemma_key_index(s, k2);
    let j = key_index(s, k);
    let t = map_put(s, k, v);
    if j >= 0 {
        lemma_key_index_unique(t, k, j);
    } else {
        lemma_key_index_unique(t, k, s.len() as int);
    }
    if k2 != k {
        let j2 = key_index(s, k2);
        if j2 >= 0 {
            lemma_key_index_unique(t, k2, j2);
        } else {
            lemma_key_index_none(t, k2);
        }
    }
}

/// The label of a floating hypothesis just declared is found for its variable.
pub proof fn law_add_f_lookup(fs: Seq<FrameView>, var: Tok, kind: Tok, label: Tok)
    requires
        fs.len() > 0,
        spec_add_f(fs, var, kind, label) is Ok,
    ensures
        f_label(spec_add_f(fs, var, kind, label).unwrap(), var) == Some(label),
{
    let fs2 = spec_add_f(fs, var, kind, label).unwrap();
    let l0 = fs.last().f_labels;
    lemma_key_index(l0, var);
    assert(fs2.last().f_labels == l0.push((var, label)));
    lemma_key_index_unique(l0.push((var, label)), var, l0.len() as int);
}

/// The label of an essential hypothesis just declared is found for its statement.
pub proof fn law_add_e_lookup(fs: Seq<FrameView>, stat: Seq<Tok>, label: Tok)
    requires
        fs.len() > 0,
    ensures
        e_label(spec_add_e(fs, stat, label), stat) == Some(label),
{
    let fs2 = spec_add_e(fs, stat, label);
    law_map_put_get(fs.last().e_labels, stat, label, stat);
    assert(fs2.last().e_labels == map_put(fs.last().e_labels, stat, label));
}

proof fn lemma_select_dvs(fs: Seq<FrameView>, toks: Seq<Tok>, ds: Seq<(Tok, Tok)>, p: (Tok, Tok))
    ensures
        select_dvs(fs, toks, ds).contains(p) ==> ds.contains(p) && is_mand(fs, toks, p.0)
            && is_mand(fs, toks, p.1),
        select_dvs(fs, toks, ds).no_duplicates(),
    decreases ds.len(),
{
    if ds.len() > 0 {
        let s = select_dvs(fs, toks, ds.drop_last());
        let q = ds.last();
        lemma_select_dvs(fs, toks, ds.drop_last(), p);
        if s.contains(p) {
            let i = choose|i: int| 0 <= i < ds.len() - 1 && ds.drop_last()[i] == p;
            assert(ds[i] == p);
        }
        if is_mand(fs, toks, q.0) && is_mand(fs, toks, q.1) && !s.contains(q) {
            let s2 = s.push(q);
            if s2.contains(p) && !s.contains(p) {
                let i = choose|i: int| 0 <= i < s2.len() && s2[i] == p;
                if i < s.len() {
                    assert(s[i] == p);
                }
                assert(p == q);
                assert(ds[ds.len() - 1] == p);
            }
            assert forall|i: int, j: int| 0 <= i < s2.len() && 0 <= j < s2.len() && i != j implies s2[i]
                != s2[j] by {
                if i < s.len() && j < s.len() {
                } else if i < s.len() {
                    assert(s.contains(s2[i]));
                } else {
                    assert(s.contains(s2[j]));
                }
            }
        }
    }
}

proof fn lemma_all_d_contains(fs: Seq<FrameView>, p: (Tok, Tok))
    ensures
        all_d(fs).contains(p) ==> exists|i: int| 0 <= i < fs.len() && #[trigger] fs[i].d.contains(p),
    decreases fs.len(),
{
    if fs.len() > 0 {
        lemma_all_d_contains(fs.drop_last(), p);
        let a = all_d(fs.drop_last());
        let b = fs.last().d;
        if all_d(fs).contains(p) {
            let k = choose|k: int| 0 <= k < (a + b).len() && (a + b)[k] == p;
            if k < a.len() {
                assert(a[k] == p);
                let i = choose|i: int| 0 <= i < fs.len() - 1 && #[trigger] fs.drop_last()[i].d.contains(p);
                assert(fs[i] == fs.drop_last()[i]);
            } else {
                assert(b[k - a.len()] == p);
                assert(fs[fs.len() - 1].d.contains(p));
            }
        }
    }
}

/// The disjoint-variable conditions of an assertion are pairs declared in
/// an active scope whose tokens are both mandatory variables of it, each once.
pub proof fn law_make_assertion_dvs(fs: Seq<FrameView>, stat: Seq<Tok>, p: (Tok, Tok))
    ensures
        spec_make_assertion(fs, stat).dvs.no_duplicates(),
        spec_make_assertion(fs, stat).dvs.contains(p) ==> (exists|i: int|
            0 <= i < fs.len() && #[trigger] fs[i].d.contains(p)) && is_var(fs, p.0) && is_var(
            fs,
            p.1,
        ),
        spec_make_assertion(fs, stat).e_hyps == all_e(fs),
        spec_make_assertion(fs, stat).stat == stat,
{
    let toks = crate::frame::assertion_toks(fs, stat);
    lemma_select_dvs(fs, toks, all_d(fs), p);
    lemma_all_d_contains(fs, p);
}

proof fn lemma_parse_ints_range(cs: Seq<char>)
    ensures
        parse_ints(cs) matches Ok((ints, cur)) ==> cur >= 0 && forall|k: int|
            0 <= k < ints.len() ==> ints[k] >= -1,
    decreases cs.len(),
{
    if cs.len() > 0 {
        lemma_parse_ints_range(cs.drop_last());
    }
}

proof fn lemma_run_dec_range(labels: LabelsView, labs: Seq<Tok>, hyp_end: int, ints: Seq<i32>)
    requires
        0 <= hyp_end <= labs.len(),
        forall|k: int| 0 <= k < ints.len() ==> ints[k] >= -1,
    ensures
        run_dec(labels, labs, hyp_end, ints) matches Ok(st) ==> ints_below(st.ints, labs.len() as int)
            && all_ints_below(st.subs, labs.len() as int) && all_ints_below(
            st.prev,
            labs.len() as int,
        ),
    decreases ints.len(),
{
    if ints.len() > 0 {
        lemma_run_dec_range(labels, labs, hyp_end, ints.drop_last());
        let n = labs.len() as int;
        if let Ok(st) = run_dec(labels, labs, hyp_end, ints.drop_last()) {
            let pf = ints.last();
            assert(pf >= -1);
            if let Ok(st2) = dec_step(labels, labs, hyp_end, st, pf) {
                if pf == -1 {
                    assert(ints_below(st.prev[st.prev.len() - 1], n));
                    assert(st2.subs == st.subs.push(st.prev.last()));
                } else if 0 <= pf && pf < hyp_end {
                    assert(ints_below(seq![pf], n));
                    assert(ints_below(st.ints.push(pf), n));
                    assert(st2.prev == st.prev.push(seq![pf]));
                } else if hyp_end <= pf && pf < n {
                    assert(ints_below(seq![pf], n));
                    assert(ints_below(st.ints.push(pf), n));
                    if st2.prev != st.prev.push(seq![pf]) {
                        let ni = st2.prev.len() - 1;
                        assert(st2.prev == st.prev.take(ni).push(
                            flatten_ints(st.prev.skip(ni)).push(pf),
                        ));
                        assert(all_ints_below(st.prev.skip(ni), n)) by {
                            assert forall|q: int| 0 <= q < st.prev.skip(ni).len() implies ints_below(
                                #[trigger] st.prev.skip(ni)[q],
                                n,
                            ) by {
                                assert(st.prev.skip(ni)[q] == st.prev[ni + q]);
                            }
                        }
                        crate::mm::lemma_flatten_ints_below(st.prev.skip(ni), n);
                        assert(ints_below(flatten_ints(st.prev.skip(ni)).push(pf), n));
                    }
                } else if n <= pf {
                    let j = pf - n;
                    assert(ints_below(st.subs[j], n));
                    assert(st2.ints == st.ints + st.subs[j]);
                }
            }
        }
    }
}

/// A decompressed proof uses only the labels it numbers: those of the
/// mandatory hypotheses and those listed between `(` and `)`.
pub proof fn law_decompress_labels(fs: Seq<FrameView>, labels: LabelsView, stat: Seq<Tok>, proof: Seq<Tok>)
    requires
        proof.len() > 0,
        proof[0] != close_paren(),
    ensures
        spec_decompress(fs, labels, stat, proof) matches Ok(steps) ==> {
            let a = spec_make_assertion(fs, stat);
            let hl = f_hyp_labels(fs, a.f_hyps).unwrap() + e_hyp_labels(fs, a.e_hyps).unwrap();
            let listed = proof.subrange(1, first_index(proof, close_paren()));
            forall|i: int| 0 <= i < steps.len() ==> (hl + listed).contains(#[trigger] steps[i])
        },
{
    let a = spec_make_assertion(fs, stat);
    if let (Some(lf), Some(le)) = (f_hyp_labels(fs, a.f_hyps), e_hyp_labels(fs, a.e_hyps)) {
        let hl = lf + le;
        let ep = first_index(proof, close_paren());
        if ep >= 0 {
            crate::mm::lemma_first_index(proof, close_paren());
            if ep == 0 {
                assert(proof[0] == close_paren());
            }
            let labs = hl + proof.subrange(1, ep);
            let cs = join_chars(proof.skip(ep + 1));
            lemma_parse_ints_range(cs);
            if let Ok((ints, _)) = parse_ints(cs) {
                lemma_run_dec_range(labels, labs, hl.len() as int, ints);
                if let Ok(st) = run_dec(labels, labs, hl.len() as int, ints) {
                    let steps = st.ints.map_values(|x: i32| labs[x as int]);
                    assert forall|i: int| 0 <= i < steps.len() implies labs.contains(
                        #[trigger] steps[i],
                    ) by {
                        assert(0 <= st.ints[i] < labs.len());
                        assert(labs[st.ints[i] as int] == steps[i]);
                    }
                }
            }
        }
    }
}

/// Checking a compressed proof is checking the steps it decompresses to,
/// when these are not themselves read as a compressed proof.
pub proof fn law_verify_compressed(fs: Seq<FrameView>, labels: LabelsView, stat: Seq<Tok>, proof: Seq<Tok>)
    requires
        stat.len() > 0,
        proof.len() > 0,
        proof[0] == open_paren(),
    ensures
        spec_decompress(fs, labels, stat, proof) matches Ok(steps) ==> (steps.len() > 0
            && steps[0] != open_paren() ==> spec_verify(fs, labels, stat, proof) == spec_verify(
            fs,
            labels,
            stat,
            steps,
        )),
        spec_decompress(fs, labels, stat, proof) matches Err(e) ==> spec_verify(
            fs,
            labels,
            stat,
            proof,
        ) == Err::<(), crate::error::MmError>(e),
{
}

/// Setting a key of an association list keeps its keys distinct.
pub proof fn law_map_put_keys<K, V>(s: Seq<(K, V)>, k: K, v: V)
    requires
        keys_distinct(s),
    ensures
        keys_distinct(map_put(s, k, v)),
{
    lemma_key_index(s, k);
    let t = map_put(s, k, v);
    if key_index(s, k) < 0 {
        assert forall|i: int, j: int|
            0 <= i < t.len() && 0 <= j < t.len() && i != j implies t[i].0 != t[j].0 by {
            if i < s.len() && j < s.len() {
                assert(t[i] == s[i] && t[j] == s[j]);
            } else if i < s.len() {
                assert(t[i] == s[i]);
            } else {
                assert(t[j] == s[j]);
            }
        }
    }
}

/// A pair added to well-formed disjoint-variable pairs, of two distinct
/// tokens, keeps them well formed.
proof fn lemma_insert_pair_wf(d: Seq<(Tok, Tok)>, x: Tok, y: Tok)
    requires
        pairs_wf(d),
        x != y,
    ensures
        pairs_wf(insert_pair(d, x, y)),
{
    law_tok_le_order(x, y);
    let p = norm_pair(x, y);
    if !d.contains(p) {
        let e = d.push(p);
        assert forall|i: int, j: int|
            0 <= i < e.len() && 0 <= j < e.len() && i != j implies e[i] != e[j] by {
            if i < d.len() && j < d.len() {
                assert(e[i] == d[i] && e[j] == d[j]);
            } else if i < d.len() {
                assert(e[i] == d[i]);
            } else {
                assert(e[j] == d[j]);
            }
        }
        assert forall|i: int| 0 <= i < e.len() implies #[trigger] e[i].0 != e[i].1 && tok_le(
            e[i].0,
            e[i].1,
        ) by {
            if i < d.len() {
                assert(e[i] == d[i]);
            }
        }
    }
}

proof fn lemma_add_d_row_wf(d: Seq<(Tok, Tok)>, x: Tok, ys: Seq<Tok>)
    requires
        pairs_wf(d),
    ensures
        pairs_wf(add_d_row(d, x, ys)),
    decreases ys.len(),
{
    if ys.len() > 0 {
        lemma_add_d_row_wf(d, x, ys.drop_last());
        if x != ys.last() {
            lemma_insert_pair_wf(add_d_row(d, x, ys.drop_last()), x, ys.last());
        }
    }
}

proof fn lemma_add_d_all_wf(d: Seq<(Tok, Tok)>, xs: Seq<Tok>, ys: Seq<Tok>)
    requires
        pairs_wf(d),
    ensures
        pairs_wf(add_d_all(d, xs, ys)),
    decreases xs.len(),
{
    if xs.len() > 0 {
        lemma_add_d_all_wf(d, xs.drop_last(), ys);
        lemma_add_d_row_wf(add_d_all(d, xs.drop_last(), ys), xs.last(), ys);
    }
}

/// Replacing the innermost scope by a well-formed one keeps the stack well
/// formed.
proof fn lemma_set_top_wf(fs: Seq<FrameView>, fr: FrameView)
    requires
        fs.len() > 0,
        frames_wf(fs),
        frame_wf(fr),
    ensures
        frames_wf(set_top(fs, fr)),
{
    assert forall|i: int| 0 <= i < set_top(fs, fr).len() implies frame_wf(
        #[trigger] set_top(fs, fr)[i],
    ) by {
        if i < fs.len() - 1 {
            assert(set_top(fs, fr)[i] == fs[i]);
        }
    }
}

/// Opening a scope keeps the stack well formed.
pub proof fn law_push_wf(fs: Seq<FrameView>)
    requires
        frames_wf(fs),
    ensures
        frames_wf(fs.push(empty_frame())),
{
    let e = empty_frame();
    assert(e.c.no_duplicates() && e.v.no_duplicates());
    assert(pairs_wf(e.d));
    assert forall|i: int| 0 <= i < fs.push(e).len() implies frame_wf(#[trigger] fs.push(e)[i]) by {
        if i < fs.len() {
            assert(fs.push(e)[i] == fs[i]);
        }
    }
}

/// Each declaration keeps the stack of scopes well formed: no constant,
/// variable or disjoint-variable pair twice in a scope, no token both a
/// constant and a variable there, one floating hypothesis per variable.
pub proof fn law_declarations_wf(fs: Seq<FrameView>, t: Tok, kind: Tok, label: Tok, stat: Seq<Tok>)
    requires
        fs.len() > 0,
        frames_wf(fs),
    ensures
        spec_add_c(fs, t) matches Ok(f) ==> frames_wf(f),
        spec_add_v(fs, t) matches Ok(f) ==> frames_wf(f),
        spec_add_f(fs, t, kind, label) matches Ok(f) ==> frames_wf(f),
        frames_wf(spec_add_e(fs, stat, label)),
        frames_wf(spec_add_d(fs, stat)),
{
    let top = fs.last();
    assert(frame_wf(top));
    if !top.c.contains(t) && !top.v.contains(t) {
        let fc = FrameView { c: top.c.push(t), ..top };
        assert(fc.c.no_duplicates()) by {
            assert forall|i: int, j: int|
                0 <= i < fc.c.len() && 0 <= j < fc.c.len() && i != j implies fc.c[i] != fc.c[j] by {
                if i < top.c.len() && j < top.c.len() {
                } else if i < top.c.len() {
                    assert(top.c.contains(fc.c[i]));
                } else {
                    assert(top.c.contains(fc.c[j]));
                }
            }
        }
        assert forall|u: Tok| fc.c.contains(u) implies !fc.v.contains(u) by {
            if u != t {
                let k = choose|k: int| 0 <= k < fc.c.len() && fc.c[k] == u;
                assert(top.c[k] == u);
            }
        }
        lemma_set_top_wf(fs, fc);
        let fv = FrameView { v: top.v.push(t), ..top };
        assert(fv.v.no_duplicates()) by {
            assert forall|i: int, j: int|
                0 <= i < fv.v.len() && 0 <= j < fv.v.len() && i != j implies fv.v[i] != fv.v[j] by {
                if i < top.v.len() && j < top.v.len() {
                } else if i < top.v.len() {
                    assert(top.v.contains(fv.v[i]));
                } else {
                    assert(top.v.contains(fv.v[j]));
                }
            }
        }
        assert forall|u: Tok| fv.c.contains(u) implies !fv.v.contains(u) by {
            if fv.v.contains(u) && u != t {
                let k = choose|k: int| 0 <= k < fv.v.len() && fv.v[k] == u;
                assert(top.v[k] == u);
            }
        }
        lemma_set_top_wf(fs, fv);
    }
    if map_get(top.f_labels, t) is None {
        lemma_key_index(top.f_labels, t);
        let ff = FrameView { f: top.f.push((t, kind)), f_labels: top.f_labels.push((t, label)), ..top };
        assert(map_put(top.f_labels, t, label) == ff.f_labels);
        law_map_put_keys(top.f_labels, t, label);
        assert forall|i: int| 0 <= i < ff.f.len() implies #[trigger] ff.f[i].0 == ff.f_labels[i].0 by {
            if i < top.f.len() {
                assert(ff.f[i] == top.f[i] && ff.f_labels[i] == top.f_labels[i]);
            }
        }
        lemma_set_top_wf(fs, ff);
    }
    law_map_put_keys(top.e_labels, stat, label);
    lemma_set_top_wf(
        fs,
        FrameView { e: top.e.push(stat), e_labels: map_put(top.e_labels, stat, label), ..top },
    );
    lemma_add_d_all_wf(top.d, stat, stat);
    lemma_set_top_wf(fs, FrameView { d: add_d_all(top.d, stat, stat), ..top });
}

/// Declaring tokens disjoint keeps the pairs of the innermost scope well
/// formed: each of two distinct tokens, the smaller first, none twice.
pub proof fn law_add_d_pairs(fs: Seq<FrameView>, stat: Seq<Tok>)
    requires
        fs.len() > 0,
        pairs_wf(fs.last().d),
    ensures
        pairs_wf(spec_add_d(fs, stat).last().d),
{
    lemma_add_d_all_wf(fs.last().d, stat, stat);
}

/// No token is ever disjoint from itself where the pairs of every scope are
/// well formed.
pub proof fn law_not_disjoint_from_itself(fs: Seq<FrameView>, x: Tok)
    requires
        forall|i: int| 0 <= i < fs.len() ==> pairs_wf(#[trigger] fs[i].d),
    ensures
        !is_disjoint(fs, x, x),
{
    if is_disjoint(fs, x, x) {
        let i = choose|i: int| 0 <= i < fs.len() && #[trigger] fs[i].d.contains(norm_pair(x, x));
        assert(pairs_wf(fs[i].d));
        let k = choose|k: int| 0 <= k < fs[i].d.len() && fs[i].d[k] == norm_pair(x, x);
        assert(fs[i].d[k].0 != fs[i].d[k].1);
    }
}

/// Matching essential hypotheses succeeds exactly when each of them, after
/// substitution, equals its stack entry.
proof fn lemma_check_hyps_ok(hyps: Seq<Seq<Tok>>, stack: Seq<Seq<Tok>>, sp: int, subst: SubstView)
    requires
        0 <= sp,
        sp + hyps.len() <= stack.len(),
    ensures
        check_hyps(hyps, stack, sp, subst) is Ok <==> forall|j: int|
            0 <= j < hyps.len() ==> stack[sp + j] == spec_apply_subst(#[trigger] hyps[j], subst),
    decreases hyps.len(),
{
    if hyps.len() > 0 {
        lemma_check_hyps_ok(hyps.drop_first(), stack, sp + 1, subst);
        if check_hyps(hyps, stack, sp, subst) is Ok {
            assert forall|j: int| 0 <= j < hyps.len() implies stack[sp + j] == spec_apply_subst(
                #[trigger] hyps[j],
                subst,
            ) by {
                if j > 0 {
                    assert(hyps[j] == hyps.drop_first()[j - 1]);
                }
            }
        } else if stack[sp] == spec_apply_subst(hyps[0], subst) {
            let j = choose|j: int|
                0 <= j < hyps.len() - 1 && stack[sp + 1 + j] != spec_apply_subst(
                    #[trigger] hyps.drop_first()[j],
                    subst,
                );
            assert(hyps.drop_first()[j] == hyps[j + 1]);
        }
    }
}

/// Whether each stack entry from position `sp` on starts with the type code
/// of its floating hypothesis in `fh`.
pub open spec fn heads_ok(fh: Seq<(Tok, Tok)>, stack: Seq<Seq<Tok>>, sp: int) -> bool {
    forall|i: int| 0 <= i < fh.len() ==> #[trigger] head_ok(fh[i], stack[sp + i])
}

/// Whether the stack entry `entry` starts with the type code of the floating
/// hypothesis `f`.
pub open spec fn head_ok(f: (Tok, Tok), entry: Seq<Tok>) -> bool {
    entry.len() > 0 && entry[0] == f.0
}

/// Reading the substitution off the stack succeeds exactly when each entry
/// starts with the type code of its floating hypothesis; where the variables
/// are distinct, each is then given the rest of its entry.
proof fn lemma_float_subst_ok(fh: Seq<(Tok, Tok)>, stack: Seq<Seq<Tok>>, sp: int)
    requires
        0 <= sp,
        sp + fh.len() <= stack.len(),
    ensures
        float_subst(fh, stack, sp) is Ok <==> heads_ok(fh, stack, sp),
        float_subst(fh, stack, sp) matches Ok(s) ==> (keys_distinct(
            fh.map_values(|p: (Tok, Tok)| (p.1, p.0)),
        ) ==> forall|i: int|
            0 <= i < fh.len() ==> map_get(s, (#[trigger] fh[i]).1) == Some(
                stack[sp + i].drop_first(),
            )),
    decreases fh.len(),
{
    if fh.len() > 0 {
        let fd = fh.drop_last();
        lemma_float_subst_ok(fd, stack, sp);
        assert forall|i: int| 0 <= i < fd.len() implies fd[i] == fh[i] by {}
        let n = fh.len() - 1;
        if heads_ok(fh, stack, sp) {
            assert forall|i: int| 0 <= i < fd.len() implies #[trigger] head_ok(fd[i], stack[sp + i]) by {
                assert(fd[i] == fh[i]);
                assert(head_ok(fh[i], stack[sp + i]));
            }
            assert(head_ok(fh[n], stack[sp + n]));
        }
        if float_subst(fh, stack, sp) is Ok {
            assert(heads_ok(fd, stack, sp));
            assert forall|i: int| 0 <= i < fh.len() implies #[trigger] head_ok(fh[i], stack[sp + i]) by {
                if i < n {
                    assert(fd[i] == fh[i]);
                    assert(head_ok(fd[i], stack[sp + i]));
                }
            }
        }
        if let Ok(s) = float_subst(fh, stack, sp) {
            let s0 = float_subst(fd, stack, sp)->Ok_0;
            let n = fh.len() - 1;
            let (k, v) = fh.last();
            assert(s == map_put(s0, v, stack[sp + n].drop_first()));
            let sw = fh.map_values(|p: (Tok, Tok)| (p.1, p.0));
            if keys_distinct(sw) {
                let sd = fd.map_values(|p: (Tok, Tok)| (p.1, p.0));
                assert(keys_distinct(sd)) by {
                    assert forall|i: int, j: int|
                        0 <= i < sd.len() && 0 <= j < sd.len() && i != j implies sd[i].0
                        != sd[j].0 by {
                        assert(sd[i] == sw[i] && sd[j] == sw[j]);
                    }
                }
                assert forall|i: int| 0 <= i < fh.len() implies map_get(s, (#[trigger] fh[i]).1)
                    == Some(stack[sp + i].drop_first()) by {
                    law_map_put_get(s0, v, stack[sp + n].drop_first(), fh[i].1);
                    if i < n {
                        assert(sw[i].0 != sw[n].0);
                        assert(fd[i] == fh[i]);
                    }
                }
            }
        }
    }
}

/// A proof step of an assertion: it takes the entries for its floating and
/// essential hypotheses off the top of the stack; each floating entry starts
/// with its type code, and the substitution gives each variable the rest of
/// its entry (where the variables are distinct, as in an assertion that the
/// library builds); each essential entry equals its hypothesis under the
/// substitution, the disjoint-variable conditions hold under it, and the
/// conclusion under it takes the entries' place. Conversely, when all of
/// this holds the step succeeds.
pub proof fn law_assertion_step(
    fs: Seq<FrameView>,
    labels: LabelsView,
    l: Tok,
    stack: Seq<Seq<Tok>>,
    kind: Tok,
    a: AssertionView,
)
    requires
        map_get(labels, l) == Some((kind, LabelDataView::Ap(a))),
    ensures
        ({
            let nf = a.f_hyps.len() as int;
            let sp = stack.len() - nf - a.e_hyps.len();
            proof_step(fs, labels, l, stack) is Ok <==> sp >= 0 && heads_ok(a.f_hyps, stack, sp) && ({
                let s = float_subst(a.f_hyps, stack, sp)->Ok_0;
                &&& forall|k: int| 0 <= k < a.dvs.len() ==> dv_pair_ok(fs, #[trigger] a.dvs[k], s)
                &&& forall|j: int|
                    0 <= j < a.e_hyps.len() ==> stack[sp + nf + j] == spec_apply_subst(
                        #[trigger] a.e_hyps[j],
                        s,
                    )
            })
        }),
        proof_step(fs, labels, l, stack) matches Ok(st) ==> {
            let nf = a.f_hyps.len() as int;
            let sp = stack.len() - nf - a.e_hyps.len();
            let s = float_subst(a.f_hyps, stack, sp)->Ok_0;
            &&& st == stack.take(sp).push(spec_apply_subst(a.stat, s))
            &&& keys_distinct(a.f_hyps.map_values(|p: (Tok, Tok)| (p.1, p.0))) ==> forall|i: int|
                0 <= i < nf ==> map_get(s, (#[trigger] a.f_hyps[i]).1) == Some(
                    stack[sp + i].drop_first(),
                )
        },
{
    let nf = a.f_hyps.len() as int;
    let sp = stack.len() - nf - a.e_hyps.len();
    if sp >= 0 {
        lemma_float_subst_ok(a.f_hyps, stack, sp);
        if let Ok(s) = float_subst(a.f_hyps, stack, sp) {
            lemma_check_hyps_ok(a.e_hyps, stack, sp + nf, s);
            law_dv_check(fs, a.dvs, s);
            assert(proof_step(fs, labels, l, stack) == match dv_check(fs, a.dvs, s) {
                Err(e) => Err(e),
                Ok(_) => match check_hyps(a.e_hyps, stack, sp + nf, s) {
                    Err(e) => Err(e),
                    Ok(_) => Ok(stack.take(sp).push(spec_apply_subst(a.stat, s))),
                },
            });
        } else {
            assert(proof_step(fs, labels, l, stack) is Err);
        }
    } else {
        assert(proof_step(fs, labels, l, stack) is Err);
    }
}

/// An `$a` statement with a label other than the stop label records, under
/// that label, the assertion of its statement made in the active scopes,
/// and uses up the label.
pub proof fn law_read_axiom(mm: MMView, l: Tok, ts: StreamState)
    requires
        mm.stop != Some(l),
        spec_readstat(ts).0 is Ok,
    ensures
        spec_step(mm, Some(l), seq!['$', 'a'], ts) == Step::Next(
            with_label(
                mm,
                l,
                seq!['$', 'a'],
                LabelDataView::Ap(spec_make_assertion(mm.fs, spec_readstat(ts).0->Ok_0)),
            ),
            None,
            spec_readstat(ts).1,
        ),
{
}

/// A `$p` statement `stat $= proof` with a label other than the stop label:
/// where its proof is checked (no begin label is pending, or it is this
/// one), reading fails exactly when checking the proof fails, with the same
/// error; otherwise the assertion of `stat` is recorded under the label,
/// and the label is used up.
pub proof fn law_read_theorem(mm: MMView, l: Tok, ts: StreamState)
    requires
        mm.stop != Some(l),
        spec_readstat(ts).0 is Ok,
        first_index(spec_readstat(ts).0->Ok_0, seq!['$', '=']) >= 0,
    ensures
        ({
            let stat = spec_readstat(ts).0->Ok_0;
            let i = first_index(stat, seq!['$', '=']);
            let begin = if mm.begin == Some(l) {
                None
            } else {
                mm.begin
            };
            let checked = begin is None;
            let res = spec_verify(mm.fs, mm.labels, stat.take(i), stat.skip(i + 1));
            &&& checked && res is Err ==> spec_step(mm, Some(l), seq!['$', 'p'], ts) == Step::Stop(
                Err(res->Err_0),
                mm,
                spec_readstat(ts).1,
            )
            &&& !(checked && res is Err) ==> spec_step(mm, Some(l), seq!['$', 'p'], ts)
                == Step::Next(
                with_label(
                    MMView { begin, ..mm },
                    l,
                    seq!['$', 'p'],
                    LabelDataView::Ap(spec_make_assertion(mm.fs, stat.take(i))),
                ),
                None,
                spec_readstat(ts).1,
            )
        }),
{
}

/// What one number of a compressed proof adds to the proof steps: nothing
/// for `Z` (-1), which saves the last subproof and fails where there is none;
/// the number itself where it numbers a label; and the saved subproof it
/// refers to otherwise, failing where there is no such subproof. A
/// hypothesis number never fails.
pub proof fn law_decompress_step(
    labels: LabelsView,
    labs: Seq<Tok>,
    hyp_end: int,
    st: DecState,
    pf: i32,
)
    requires
        0 <= hyp_end <= labs.len(),
        pf >= -1,
    ensures
        pf == -1 ==> (dec_step(labels, labs, hyp_end, st, pf) is Err <==> st.prev.len() == 0),
        0 <= pf < hyp_end ==> dec_step(labels, labs, hyp_end, st, pf) is Ok,
        pf >= labs.len() ==> (dec_step(labels, labs, hyp_end, st, pf) == Err::<DecState, MmError>(
            MmError::CompressedBadReference,
        ) <==> pf - labs.len() >= st.subs.len()),
        dec_step(labels, labs, hyp_end, st, pf) matches Ok(st2) ==> {
            &&& st2.ints == st.ints + (if pf == -1 {
                seq![]
            } else if pf < labs.len() {
                seq![pf]
            } else {
                st.subs[pf - labs.len()]
            })
            &&& st2.subs == (if pf == -1 {
                st.subs.push(st.prev.last())
            } else {
                st.subs
            })
        },
{
    if pf == -1 {
        assert(st.ints + Seq::<i32>::empty() =~= st.ints);
    }
}

/// Whether the disjoint-variable condition `p` holds under `subst`: both of
/// its variables are substituted, and every active variable occurring
/// anywhere in the expression for the one is distinct from, and declared
/// disjoint from, every active variable occurring anywhere in the expression
/// for the other.
pub open spec fn dv_pair_ok(fs: Seq<FrameView>, p: (Tok, Tok), subst: SubstView) -> bool {
    &&& map_get(subst, p.0) is Some
    &&& map_get(subst, p.1) is Some
    &&& forall|u: Tok, w: Tok|
        #[trigger] map_get(subst, p.0)->Some_0.contains(u) && is_var(fs, u)
            && #[trigger] map_get(subst, p.1)->Some_0.contains(w) && is_var(fs, w) ==> u != w
            && is_disjoint(fs, u, w)
}

/// The disjoint-variable check passes exactly when every condition holds in
/// the sense of `dv_pair_ok`: all pairs of variables of the two expressions
/// are compared, whatever their positions.
pub proof fn law_dv_check(fs: Seq<FrameView>, dvs: Seq<(Tok, Tok)>, subst: SubstView)
    ensures
        dv_check(fs, dvs, subst) is Ok <==> forall|k: int|
            0 <= k < dvs.len() ==> dv_pair_ok(fs, #[trigger] dvs[k], subst),
    decreases dvs.len(),
{
    if dvs.len() > 0 {
        let rest = dvs.drop_first();
        law_dv_check(fs, rest, subst);
        let p = dvs[0];
        lemma_dv_pair(fs, p, subst);
        if dv_check(fs, dvs, subst) is Ok {
            assert forall|k: int| 0 <= k < dvs.len() implies dv_pair_ok(fs, #[trigger] dvs[k], subst) by {
                if k > 0 {
                    assert(dvs[k] == rest[k - 1]);
                }
            }
        } else if dv_pair_ok(fs, p, subst) {
            assert(dv_check(fs, rest, subst) is Err);
            let k = choose|k: int| 0 <= k < rest.len() && !dv_pair_ok(fs, #[trigger] rest[k], subst);
            assert(rest[k] == dvs[k + 1]);
        }
    }
}

/// The check of one condition compares the whole of both lists of variables.
proof fn lemma_dv_pair(fs: Seq<FrameView>, p: (Tok, Tok), subst: SubstView)
    ensures
        dv_pair_ok(fs, p, subst) <==> (map_get(subst, p.0) is Some && map_get(subst, p.1) is Some
            && dv_ok(
            fs,
            spec_find_vars(fs, map_get(subst, p.0)->Some_0),
            spec_find_vars(fs, map_get(subst, p.1)->Some_0),
        )),
{
    if map_get(subst, p.0) is Some && map_get(subst, p.1) is Some {
        let sx = map_get(subst, p.0)->Some_0;
        let sy = map_get(subst, p.1)->Some_0;
        let xs = spec_find_vars(fs, sx);
        let ys = spec_find_vars(fs, sy);
        if dv_ok(fs, xs, ys) {
            assert forall|u: Tok, w: Tok|
                #[trigger] sx.contains(u) && is_var(fs, u) && #[trigger] sy.contains(w) && is_var(fs, w)
                    implies u != w && is_disjoint(fs, u, w) by {
                law_find_vars(fs, sx, u);
                law_find_vars(fs, sy, w);
                let i = choose|i: int| 0 <= i < xs.len() && xs[i] == u;
                let j = choose|j: int| 0 <= j < ys.len() && ys[j] == w;
                assert(xs[i] != ys[j] && is_disjoint(fs, xs[i], ys[j]));
            }
        }
        if dv_pair_ok(fs, p, subst) {
            assert forall|i: int, j: int|
                0 <= i < xs.len() && 0 <= j < ys.len() implies #[trigger] xs[i] != #[trigger] ys[j]
                    && is_disjoint(fs, xs[i], ys[j]) by {
                law_find_vars(fs, sx, xs[i]);
                law_find_vars(fs, sy, ys[j]);
                assert(xs.contains(xs[i]));
                assert(ys.contains(ys[j]));
            }
        }
    }
}

proof fn lemma_flatten_ints_concat(a: Seq<Seq<i32>>, b: Seq<Seq<i32>>)
    ensures
        flatten_ints(a + b) == flatten_ints(a) + flatten_ints(b),
    decreases b.len(),
{
    if b.len() == 0 {
        assert(a + b =~= a);
        assert(flatten_ints(a) + Seq::<i32>::empty() =~= flatten_ints(a));
    } else {
        lemma_flatten_ints_concat(a, b.drop_last());
        assert((a + b).drop_last() =~= a + b.drop_last());
        assert((a + b).last() == b.last());
        assert(flatten_ints(a) + flatten_ints(b.drop_last()) + b.last() =~= flatten_ints(a) + (
        flatten_ints(b.drop_last()) + b.last()));
    }
}

/// Whether `sub` occurs as a contiguous run of `s`.
pub open spec fn is_segment(sub: Seq<i32>, s: Seq<i32>) -> bool {
    exists|i: int| 0 <= i && i + sub.len() <= s.len() && #[trigger] s.subrange(i, i + sub.len()) == sub
}

proof fn lemma_segment_extend(sub: Seq<i32>, s: Seq<i32>, t: Seq<i32>)
    requires
        is_segment(sub, s),
    ensures
        is_segment(sub, s + t),
{
    let i = choose|i: int| 0 <= i && i + sub.len() <= s.len() && #[trigger] s.subrange(i, i + sub.len()) == sub;
    assert((s + t).subrange(i, i + sub.len()) =~= s.subrange(i, i + sub.len()));
}

/// Decompression is faithful: the entries of the subproof stack, one after
/// the other, are exactly the proof steps produced so far, so that each
/// entry holds all the steps that produced it (a reference to a saved
/// subproof pushes that whole subproof), and each saved subproof is a run of
/// consecutive steps of the proof.
pub proof fn law_decompress_faithful(labels: LabelsView, labs: Seq<Tok>, hyp_end: int, ints: Seq<i32>)
    ensures
        run_dec(labels, labs, hyp_end, ints) matches Ok(st) ==> {
            &&& flatten_ints(st.prev) == st.ints
            &&& forall|k: int| 0 <= k < st.subs.len() ==> is_segment(#[trigger] st.subs[k], st.ints)
        },
    decreases ints.len(),
{
    if ints.len() > 0 {
        law_decompress_faithful(labels, labs, hyp_end, ints.drop_last());
        if let Ok(st) = run_dec(labels, labs, hyp_end, ints.drop_last()) {
            let pf = ints.last();
            if let Ok(st2) = dec_step(labels, labs, hyp_end, st, pf) {
                let n = labs.len() as int;
                if pf == -1 {
                    let last = st.prev.last();
                    lemma_flatten_ints_concat(st.prev.drop_last(), seq![last]);
                    assert(st.prev.drop_last() + seq![last] =~= st.prev);
                    assert(flatten_ints(seq![last]) == flatten_ints(Seq::<Seq<i32>>::empty()) + last);
                    assert(Seq::<i32>::empty() + last =~= last);
                    let i = flatten_ints(st.prev.drop_last()).len() as int;
                    assert(st.ints.subrange(i, i + last.len()) =~= last);
                    assert forall|k: int| 0 <= k < st2.subs.len() implies is_segment(#[trigger] st2.subs[k], st2.ints) by {
                        if k < st.subs.len() {
                            assert(st2.subs[k] == st.subs[k]);
                        }
                    }
                } else {
                    let added = st2.ints.subrange(st.ints.len() as int, st2.ints.len() as int);
                    if 0 <= pf && pf < hyp_end {
                        assert(st2.ints =~= st.ints + seq![pf]);
                        assert(st2.prev.drop_last() =~= st.prev);
                        assert(flatten_ints(st2.prev) =~= flatten_ints(st.prev) + seq![pf]);
                    } else if hyp_end <= pf && pf < n {
                        if st2.prev == st.prev.push(seq![pf]) {
                            assert(st2.prev.drop_last() =~= st.prev);
                            assert(flatten_ints(st2.prev) =~= flatten_ints(st.prev) + seq![pf]);
                        } else {
                            let ni = st2.prev.len() - 1;
                            assert(st2.prev == st.prev.take(ni).push(flatten_ints(st.prev.skip(ni)).push(pf)));
                            lemma_flatten_ints_concat(st.prev.take(ni), st.prev.skip(ni));
                            assert(st.prev.take(ni) + st.prev.skip(ni) =~= st.prev);
                            assert(st2.prev.drop_last() =~= st.prev.take(ni));
                            assert(flatten_ints(st2.prev) == flatten_ints(st.prev.take(ni)) + flatten_ints(
                                st.prev.skip(ni),
                            ).push(pf));
                            assert(flatten_ints(st2.prev) =~= flatten_ints(st.prev) + seq![pf]);
                        }
                        assert(st2.ints =~= st.ints + seq![pf]);
                    } else if n <= pf {
                        let j = pf - n;
                        assert(st2.prev == st.prev.push(st.subs[j]));
                        assert(st2.prev.drop_last() =~= st.prev);
                        assert(flatten_ints(st2.prev) == flatten_ints(st.prev) + st.subs[j]);
                        assert(st2.ints == st.ints + st.subs[j]);
                    }
                    assert forall|k: int| 0 <= k < st2.subs.len() implies is_segment(#[trigger] st2.subs[k], st2.ints) by {
                        assert(st2.subs[k] == st.subs[k]);
                        assert(is_segment(st.subs[k], st.ints));
                        if st2.ints != st.ints {
                            lemma_segment_extend(st.subs[k], st.ints, st2.ints.subrange(st.ints.len() as int, st2.ints.len() as int));
                            assert(st.ints + st2.ints.subrange(st.ints.len() as int, st2.ints.len() as int) =~= st2.ints);
                        }
                    }
                }
            }
        }
    }
}

/// Whether `t` is a mandatory variable of the assertion `stat` made in the
/// scopes `fs`: an active variable that occurs in `stat` or in one of the
/// essential hypotheses in scope.
pub open spec fn mandatory_var(fs: Seq<FrameView>, stat: Seq<Tok>, t: Tok) -> bool {
    &&& is_var(fs, t)
    &&& (stat.contains(t) || exists|k: int| 0 <= k < all_e(fs).len() && #[trigger] all_e(fs)[k].contains(t))
}

proof fn lemma_flatten_toks_contains(ss: Seq<Seq<Tok>>, k: int, t: Tok)
    requires
        0 <= k < ss.len(),
        ss[k].contains(t),
    ensures
        flatten_toks(ss).contains(t),
    decreases ss.len(),
{
    let a = flatten_toks(ss.drop_last());
    let b = ss.last();
    if k == ss.len() - 1 {
        let j = choose|j: int| 0 <= j < b.len() && b[j] == t;
        assert((a + b)[a.len() + j] == t);
    } else {
        assert(ss.drop_last()[k] == ss[k]);
        lemma_flatten_toks_contains(ss.drop_last(), k, t);
        let j = choose|j: int| 0 <= j < a.len() && a[j] == t;
        assert((a + b)[j] == t);
    }
}

proof fn lemma_all_d_has(fs: Seq<FrameView>, i: int, p: (Tok, Tok))
    requires
        0 <= i < fs.len(),
        fs[i].d.contains(p),
    ensures
        all_d(fs).contains(p),
    decreases fs.len(),
{
    let a = all_d(fs.drop_last());
    let b = fs.last().d;
    if i == fs.len() - 1 {
        let j = choose|j: int| 0 <= j < b.len() && b[j] == p;
        assert((a + b)[a.len() + j] == p);
    } else {
        assert(fs.drop_last()[i] == fs[i]);
        lemma_all_d_has(fs.drop_last(), i, p);
        let j = choose|j: int| 0 <= j < a.len() && a[j] == p;
        assert((a + b)[j] == p);
    }
}

proof fn lemma_select_dvs_complete(fs: Seq<FrameView>, toks: Seq<Tok>, ds: Seq<(Tok, Tok)>, p: (Tok, Tok))
    requires
        ds.contains(p),
        is_mand(fs, toks, p.0),
        is_mand(fs, toks, p.1),
    ensures
        select_dvs(fs, toks, ds).contains(p),
    decreases ds.len(),
{
    let s = select_dvs(fs, toks, ds.drop_last());
    if ds.last() == p {
        if !s.contains(p) {
            assert(s.push(p)[s.len() as int] == p);
        }
    } else {
        let j = choose|j: int| 0 <= j < ds.len() && ds[j] == p;
        assert(ds.drop_last()[j] == p);
        lemma_select_dvs_complete(fs, toks, ds.drop_last(), p);
        let q = ds.last();
        if is_mand(fs, toks, q.0) && is_mand(fs, toks, q.1) && !s.contains(q) {
            let k = choose|k: int| 0 <= k < s.len() && s[k] == p;
            assert(s.push(q)[k] == p);
        }
    }
}

/// The disjoint-variable conditions of an assertion are complete: every
/// pair declared in an active scope whose two tokens are both mandatory
/// variables of it is among them; and each of them is such a pair.
pub proof fn law_make_assertion_dvs_complete(fs: Seq<FrameView>, stat: Seq<Tok>, p: (Tok, Tok))
    ensures
        (exists|i: int| 0 <= i < fs.len() && #[trigger] fs[i].d.contains(p)) && mandatory_var(
            fs,
            stat,
            p.0,
        ) && mandatory_var(fs, stat, p.1) <==> spec_make_assertion(fs, stat).dvs.contains(p),
{
    let toks = crate::frame::assertion_toks(fs, stat);
    let fl = flatten_toks(all_e(fs));
    assert forall|t: Tok| mandatory_var(fs, stat, t) implies is_mand(fs, toks, t) by {
        if stat.contains(t) {
            let j = choose|j: int| 0 <= j < stat.len() && stat[j] == t;
            assert(toks[fl.len() + j] == t);
        } else {
            let k = choose|k: int| 0 <= k < all_e(fs).len() && #[trigger] all_e(fs)[k].contains(t);
            lemma_flatten_toks_contains(all_e(fs), k, t);
            let j = choose|j: int| 0 <= j < fl.len() && fl[j] == t;
            assert(toks[j] == t);
        }
    }
    if exists|i: int| 0 <= i < fs.len() && #[trigger] fs[i].d.contains(p) {
        let i = choose|i: int| 0 <= i < fs.len() && #[trigger] fs[i].d.contains(p);
        if mandatory_var(fs, stat, p.0) && mandatory_var(fs, stat, p.1) {
            lemma_all_d_has(fs, i, p);
            lemma_select_dvs_complete(fs, toks, all_d(fs), p);
        }
    }
    lemma_select_dvs(fs, toks, all_d(fs), p);
    lemma_all_d_contains(fs, p);
    if spec_make_assertion(fs, stat).dvs.contains(p) {
        assert forall|t: Tok| is_mand(fs, toks, t) implies mandatory_var(fs, stat, t) by {
            lemma_flatten_toks_member(all_e(fs), t);
            let j = choose|j: int| 0 <= j < toks.len() && toks[j] == t;
            if j >= fl.len() {
                assert(stat[j - fl.len()] == t);
            } else {
                assert(fl.contains(t));
            }
        }
    }
}

proof fn lemma_flatten_toks_member(ss: Seq<Seq<Tok>>, t: Tok)
    ensures
        flatten_toks(ss).contains(t) ==> exists|k: int| 0 <= k < ss.len() && #[trigger] ss[k].contains(t),
    decreases ss.len(),
{
    if ss.len() > 0 {
        lemma_flatten_toks_member(ss.drop_last(), t);
        let a = flatten_toks(ss.drop_last());
        let b = ss.last();
        if flatten_toks(ss).contains(t) {
            let j = choose|j: int| 0 <= j < (a + b).len() && (a + b)[j] == t;
            if j < a.len() {
                assert(a[j] == t);
                let k = choose|k: int| 0 <= k < ss.len() - 1 && #[trigger] ss.drop_last()[k].contains(t);
                assert(ss[k] == ss.drop_last()[k]);
            } else {
                assert(b[j - a.len()] == t);
                assert(ss[ss.len() - 1].contains(t));
            }
        }
    }
}

proof fn lemma_add_d_row_has(d: Seq<(Tok, Tok)>, x: Tok, ys: Seq<Tok>, q: (Tok, Tok))
    ensures
        d.contains(q) ==> add_d_row(d, x, ys).contains(q),
        forall|j: int| 0 <= j < ys.len() && x != ys[j] ==> add_d_row(d, x, ys).contains(
            #[trigger] norm_pair(x, ys[j]),
        ),
    decreases ys.len(),
{
    if ys.len() > 0 {
        let d1 = add_d_row(d, x, ys.drop_last());
        lemma_add_d_row_has(d, x, ys.drop_last(), q);
        let y = ys.last();
        assert forall|p: (Tok, Tok)| d1.contains(p) implies add_d_row(d, x, ys).contains(p) by {
            if x != y && !d1.contains(norm_pair(x, y)) {
                let k = choose|k: int| 0 <= k < d1.len() && d1[k] == p;
                assert(d1.push(norm_pair(x, y))[k] == p);
            }
        }
        if x != y && !d1.contains(norm_pair(x, y)) {
            assert(d1.push(norm_pair(x, y))[d1.len() as int] == norm_pair(x, y));
        }
        assert forall|j: int| 0 <= j < ys.len() && x != ys[j] implies add_d_row(d, x, ys).contains(
            #[trigger] norm_pair(x, ys[j]),
        ) by {
            if j < ys.len() - 1 {
                assert(ys.drop_last()[j] == ys[j]);
                lemma_add_d_row_has(d, x, ys.drop_last(), norm_pair(x, ys[j]));
            }
        }
    }
}

proof fn lemma_add_d_all_has(d: Seq<(Tok, Tok)>, xs: Seq<Tok>, ys: Seq<Tok>, q: (Tok, Tok))
    ensures
        d.contains(q) ==> add_d_all(d, xs, ys).contains(q),
        forall|i: int, j: int|
            0 <= i < xs.len() && 0 <= j < ys.len() && xs[i] != ys[j] ==> add_d_all(d, xs, ys).contains(
                #[trigger] norm_pair(xs[i], ys[j]),
            ),
    decreases xs.len(),
{
    if xs.len() > 0 {
        let d1 = add_d_all(d, xs.drop_last(), ys);
        lemma_add_d_all_has(d, xs.drop_last(), ys, q);
        lemma_add_d_row_has(d1, xs.last(), ys, q);
        assert forall|i: int, j: int|
            0 <= i < xs.len() && 0 <= j < ys.len() && xs[i] != ys[j] implies add_d_all(d, xs, ys).contains(
                #[trigger] norm_pair(xs[i], ys[j]),
            ) by {
            if i < xs.len() - 1 {
                assert(xs.drop_last()[i] == xs[i]);
                lemma_add_d_all_has(d, xs.drop_last(), ys, norm_pair(xs[i], ys[j]));
                lemma_add_d_row_has(d1, xs.last(), ys, norm_pair(xs[i], ys[j]));
            }
        }
    }
}

/// Reading `$d v1 ... vn $.`, of any length, declares every two distinct
/// tokens of it disjoint in the current scope, keeps every earlier
/// declaration, and changes nothing else.
pub proof fn law_read_disjoint(mm: MMView, label: Option<Tok>, ts: StreamState)
    requires
        mm.fs.len() > 0,
        spec_readstat(ts).0 is Ok,
    ensures
        spec_step(mm, label, seq!['$', 'd'], ts) is Next,
        spec_step(mm, label, seq!['$', 'd'], ts) matches Step::Next(m, l, s) ==> {
            let stat = spec_readstat(ts).0->Ok_0;
            &&& l == label
            &&& s == spec_readstat(ts).1
            &&& m.labels == mm.labels && m.begin == mm.begin && m.stop == mm.stop
            &&& m.fs.len() == mm.fs.len()
            &&& forall|i: int, j: int|
                0 <= i < stat.len() && 0 <= j < stat.len() && stat[i] != stat[j] ==> is_disjoint(
                    m.fs,
                    #[trigger] stat[i],
                    #[trigger] stat[j],
                )
            &&& forall|u: Tok, w: Tok| #[trigger] is_disjoint(mm.fs, u, w) ==> is_disjoint(m.fs, u, w)
        },
{
    let stat = spec_readstat(ts).0->Ok_0;
    let fs = mm.fs;
    let top = fs.last();
    let nd = add_d_all(top.d, stat, stat);
    let fs2 = spec_add_d(fs, stat);
    let last = fs.len() - 1;
    assert(fs2[last].d == nd);
    assert forall|i: int, j: int|
        0 <= i < stat.len() && 0 <= j < stat.len() && stat[i] != stat[j] implies is_disjoint(
            fs2,
            #[trigger] stat[i],
            #[trigger] stat[j],
        ) by {
        lemma_add_d_all_has(top.d, stat, stat, norm_pair(stat[i], stat[j]));
        assert(fs2[last].d.contains(norm_pair(stat[i], stat[j])));
    }
    assert forall|u: Tok, w: Tok| #[trigger] is_disjoint(fs, u, w) implies is_disjoint(fs2, u, w) by {
        let i = choose|i: int| 0 <= i < fs.len() && #[trigger] fs[i].d.contains(norm_pair(u, w));
        if i == last {
            lemma_add_d_all_has(top.d, stat, stat, norm_pair(u, w));
            assert(fs2[last].d.contains(norm_pair(u, w)));
        } else {
            assert(fs2[i] == fs[i]);
        }
    }
}

/// The code points that Unicode gives the property `White_Space`, listed one
/// by one.
pub open spec fn white_space_points() -> Seq<u32> {
    seq![
        0x09u32, 0x0A, 0x0B, 0x0C, 0x0D, 0x20, 0x85, 0xA0, 0x1680, 0x2000, 0x2001, 0x2002,
        0x2003, 0x2004, 0x2005, 0x2006, 0x2007, 0x2008, 0x2009, 0x200A, 0x2028, 0x2029, 0x202F,
        0x205F, 0x3000,
    ]
}

/// White space is exactly the Unicode `White_Space` characters: tab, line
/// feed, vertical tab, form feed, carriage return, space, next line,
/// no-break space and the others of the list.
pub proof fn law_white_space(c: char)
    ensures
        spec_is_whitespace(c) <==> white_space_points().contains(c as u32),
{
    let n = c as u32;
    let w = white_space_points();
    if spec_is_whitespace(c) {
        if 9 <= n <= 13 {
            assert(w[n - 9] == n);
        } else if n == 32 {
            assert(w[5] == n);
        } else if n == 0x85 {
            assert(w[6] == n);
        } else if n == 0xA0 {
            assert(w[7] == n);
        } else if n == 0x1680 {
            assert(w[8] == n);
        } else if 0x2000 <= n <= 0x200A {
            assert(w[9 + (n - 0x2000)] == n);
        } else if n == 0x2028 {
            assert(w[20] == n);
        } else if n == 0x2029 {
            assert(w[21] == n);
        } else if n == 0x202F {
            assert(w[22] == n);
        } else if n == 0x205F {
            assert(w[23] == n);
        } else {
            assert(w[24] == n);
        }
    }
    if w.contains(n) {
        let k = choose|k: int| 0 <= k < w.len() && w[k] == n;
        assert(0 <= k < 25);
    }
}

/// No token of a line holds a `White_Space` character (in particular a
/// carriage return or a line feed): these only separate tokens.
pub proof fn law_tokens_hold_no_white_space(s: Seq<char>)
    ensures
        forall|k: int, j: int|
            0 <= k < words(s).len() && 0 <= j < words(s)[k].len() ==> !white_space_points().contains(
                #[trigger] words(s)[k][j] as u32,
            ),
{
    law_words_are_words(s);
    assert forall|k: int, j: int|
        0 <= k < words(s).len() && 0 <= j < words(s)[k].len() implies !white_space_points().contains(
            #[trigger] words(s)[k][j] as u32,
        ) by {
        assert(is_word(words(s)[k]));
        law_white_space(words(s)[k][j]);
    }
}

/// Whether `c` is one of the letters `A` to `T`, which end a number of a
/// compressed proof.
pub open spec fn is_final_letter(c: char) -> bool {
    'A' <= c && c <= 'T'
}

/// A run of the letters `A` to `T` reads as one number per letter: `A` is
/// the first label (0), `B` the second, and so on up to `T` (19).
pub proof fn law_parse_letters(cs: Seq<char>)
    requires
        forall|i: int| 0 <= i < cs.len() ==> is_final_letter(#[trigger] cs[i]),
    ensures
        parse_ints(cs) is Ok,
        parse_ints(cs)->Ok_0.1 == 0,
        parse_ints(cs)->Ok_0.0.len() == cs.len(),
        forall|i: int| 0 <= i < cs.len() ==> #[trigger] parse_ints(cs)->Ok_0.0[i] == (cs[i] as u32) - 65,
    decreases cs.len(),
{
    if cs.len() > 0 {
        let d = cs.drop_last();
        assert forall|i: int| 0 <= i < d.len() implies is_final_letter(#[trigger] d[i]) by {
            assert(d[i] == cs[i]);
        }
        law_parse_letters(d);
        let c = cs.last();
        assert(is_final_letter(cs[cs.len() - 1]));
        assert(65 <= (c as u32) <= 84);
        assert forall|i: int| 0 <= i < cs.len() implies #[trigger] parse_ints(cs)->Ok_0.0[i] == (
        cs[i] as u32) - 65 by {
            if i < d.len() {
                assert(d[i] == cs[i]);
            }
        }
    }
}

/// A letter `U` to `Y` (1 to 5) followed by a letter `A` to `T` (1 to 20)
/// reads as the number 20 times the first plus the second, less one.
pub proof fn law_parse_two_letters(u: char, f: char)
    requires
        'U' <= u && u <= 'Y',
        is_final_letter(f),
    ensures
        parse_ints(seq![u, f]) == Ok::<(Seq<i32>, int), MmError>(
            (seq![(20 * ((u as u32) - 84) + ((f as u32) - 64) - 1) as i32], 0),
        ),
{
    let cs = seq![u, f];
    assert(cs.drop_last() =~= seq![u]);
    assert(seq![u].drop_last() =~= Seq::<char>::empty());
    assert(85 <= (u as u32) <= 89);
    assert(u != 'Z');
    assert(parse_ints(Seq::<char>::empty()) == Ok::<(Seq<i32>, int), MmError>((Seq::<i32>::empty(), 0)));
    assert(seq![u].last() == u);
    assert(parse_ints(seq![u]) == Ok::<(Seq<i32>, int), MmError>((Seq::<i32>::empty(), (u as u32) - 84)));
    assert(Seq::<i32>::empty().push((20 * ((u as u32) - 84) + ((f as u32) - 64) - 1) as i32) =~= seq![
        (20 * ((u as u32) - 84) + ((f as u32) - 64) - 1) as i32,
    ]);
}

proof fn lemma_first_index_at(s: Seq<Tok>, t: Tok, k: int)
    requires
        0 <= k < s.len(),
        s[k] == t,
        forall|i: int| 0 <= i < k ==> s[i] != t,
    ensures
        first_index(s, t) == k,
    decreases s.len(),
{
    if k < s.len() - 1 {
        lemma_first_index_at(s.drop_last(), t, k);
    } else {
        lemma_first_index_absent(s.drop_last(), t);
    }
}

proof fn lemma_first_index_absent(s: Seq<Tok>, t: Tok)
    requires
        forall|i: int| 0 <= i < s.len() ==> s[i] != t,
    ensures
        first_index(s, t) == -1,
    decreases s.len(),
{
    if s.len() > 0 {
        lemma_first_index_absent(s.drop_last(), t);
    }
}

proof fn lemma_run_dec_hyps(labels: LabelsView, labs: Seq<Tok>, hyp_end: int, ints: Seq<i32>)
    requires
        hyp_end <= labs.len(),
        forall|i: int| 0 <= i < ints.len() ==> 0 <= #[trigger] ints[i] < hyp_end,
    ensures
        run_dec(labels, labs, hyp_end, ints) matches Ok(st) && st.ints == ints,
    decreases ints.len(),
{
    if ints.len() > 0 {
        let d = ints.drop_last();
        assert forall|i: int| 0 <= i < d.len() implies 0 <= #[trigger] d[i] < hyp_end by {
            assert(d[i] == ints[i]);
        }
        lemma_run_dec_hyps(labels, labs, hyp_end, d);
        assert(0 <= ints[ints.len() - 1] < hyp_end);
        assert(d.push(ints.last()) =~= ints);
    }
}

/// A compressed proof `( L ) W` whose letters `W` are all single-letter
/// numbers of mandatory hypotheses decompresses to those hypotheses'
/// labels, in the order of the letters: `A` is the label of the first
/// floating hypothesis, and the labels of the essential hypotheses follow
/// those of the floating ones.
pub proof fn law_decompress_hypotheses(
    fs: Seq<FrameView>,
    labels: LabelsView,
    stat: Seq<Tok>,
    listed: Seq<Tok>,
    letters: Seq<char>,
)
    requires
        f_hyp_labels(fs, spec_make_assertion(fs, stat).f_hyps) is Some,
        e_hyp_labels(fs, spec_make_assertion(fs, stat).e_hyps) is Some,
        forall|i: int| 0 <= i < listed.len() ==> #[trigger] listed[i] != close_paren(),
        forall|i: int|
            0 <= i < letters.len() ==> is_final_letter(#[trigger] letters[i]) && (letters[i] as u32)
                - 65 < f_hyp_labels(fs, spec_make_assertion(fs, stat).f_hyps)->Some_0.len()
                + e_hyp_labels(fs, spec_make_assertion(fs, stat).e_hyps)->Some_0.len(),
    ensures
        ({
            let a = spec_make_assertion(fs, stat);
            let hl = f_hyp_labels(fs, a.f_hyps)->Some_0 + e_hyp_labels(fs, a.e_hyps)->Some_0;
            let proof = seq![open_paren()] + listed + seq![close_paren(), letters];
            spec_decompress(fs, labels, stat, proof) == Ok::<Seq<Tok>, MmError>(
                Seq::new(letters.len(), |i: int| hl[(letters[i] as u32) - 65]),
            )
        }),
{
    let a = spec_make_assertion(fs, stat);
    let hl = f_hyp_labels(fs, a.f_hyps)->Some_0 + e_hyp_labels(fs, a.e_hyps)->Some_0;
    let proof = seq![open_paren()] + listed + seq![close_paren(), letters];
    let ep: int = listed.len() as int + 1;
    assert(proof[ep] == close_paren());
    assert forall|i: int| 0 <= i < ep implies proof[i] != close_paren() by {
        if i == 0 {
            assert(proof[0] == open_paren());
            assert(open_paren()[0] != close_paren()[0]);
        } else {
            assert(proof[i] == listed[i - 1]);
        }
    }
    lemma_first_index_at(proof, close_paren(), ep);
    assert(proof.subrange(1, ep) =~= listed);
    assert(proof.skip(ep + 1) =~= seq![letters]);
    assert(seq![letters].drop_last() =~= Seq::<Tok>::empty());
    assert(join_chars(Seq::<Tok>::empty()) == Seq::<char>::empty());
    assert(seq![letters].last() == letters);
    assert(join_chars(seq![letters]) == join_chars(Seq::<Tok>::empty()) + letters);
    assert(join_chars(seq![letters]) =~= letters);
    law_parse_letters(letters);
    let ints = parse_ints(letters)->Ok_0.0;
    let labs = hl + listed;
    assert forall|i: int| 0 <= i < ints.len() implies 0 <= #[trigger] ints[i] < hl.len() by {
        assert(is_final_letter(letters[i]));
    }
    lemma_run_dec_hyps(labels, labs, hl.len() as int, ints);
    let st = run_dec(labels, labs, hl.len() as int, ints)->Ok_0;
    assert(st.ints.map_values(|i: i32| labs[i as int]) =~= Seq::new(
        letters.len(),
        |i: int| hl[(letters[i] as u32) - 65],
    ));
}

/// A proof step with a label that stands for a hypothesis statement pushes
/// that statement; a label that stands for nothing fails.
pub proof fn law_hypothesis_step(fs: Seq<FrameView>, labels: LabelsView, l: Tok, stack: Seq<Seq<Tok>>)
    ensures
        map_get(labels, l) is None ==> proof_step(fs, labels, l, stack) == Err::<Seq<Seq<Tok>>, MmError>(
            MmError::UnknownLabel,
        ),
        map_get(labels, l) matches Some((_, LabelDataView::Ef(x))) ==> proof_step(fs, labels, l, stack)
            == Ok::<Seq<Seq<Tok>>, MmError>(stack.push(x)),
{
}

/// Running two runs of steps one after the other is running them joined.
pub proof fn law_run_steps_concat(
    fs: Seq<FrameView>,
    labels: LabelsView,
    s1: Seq<Tok>,
    s2: Seq<Tok>,
    stack: Seq<Seq<Tok>>,
)
    ensures
        run_steps(fs, labels, s1 + s2, stack) == match run_steps(fs, labels, s1, stack) {
            Ok(st) => run_steps(fs, labels, s2, st),
            Err(e) => Err(e),
        },
    decreases s1.len(),
{
    if s1.len() == 0 {
        assert(s1 + s2 =~= s2);
    } else {
        assert((s1 + s2)[0] == s1[0]);
        assert((s1 + s2).drop_first() =~= s1.drop_first() + s2);
        if let Ok(st) = proof_step(fs, labels, s1[0], stack) {
            law_run_steps_concat(fs, labels, s1.drop_first(), s2, st);
        }
    }
}

/// A proof that is not compressed is valid exactly when the statement and
/// the proof are not empty and running its steps from an empty stack leaves
/// exactly the statement on the stack.
pub proof fn law_verify_plain(fs: Seq<FrameView>, labels: LabelsView, stat: Seq<Tok>, proof: Seq<Tok>)
    requires
        proof.len() == 0 || proof[0] != open_paren(),
    ensures
        spec_verify(fs, labels, stat, proof) is Ok <==> stat.len() > 0 && proof.len() > 0 && run_steps(
            fs,
            labels,
            proof,
            seq![],
        ) == Ok::<Seq<Seq<Tok>>, MmError>(seq![stat]),
{
    if stat.len() > 0 && proof.len() > 0 {
        if let Ok(st) = run_steps(fs, labels, proof, seq![]) {
            if st.len() == 1 && st[0] == stat {
                assert(st =~= seq![stat]);
            }
        }
    }
}

/// Being a mandatory variable is occurring, as an active variable, in the
/// tokens of the essential hypotheses in scope or of the statement.
proof fn lemma_mandatory(fs: Seq<FrameView>, stat: Seq<Tok>, t: Tok)
    ensures
        is_mand(fs, crate::frame::assertion_toks(fs, stat), t) <==> mandatory_var(fs, stat, t),
{
    let toks = crate::frame::assertion_toks(fs, stat);
    let fl = flatten_toks(all_e(fs));
    if mandatory_var(fs, stat, t) {
        if stat.contains(t) {
            let j = choose|j: int| 0 <= j < stat.len() && stat[j] == t;
            assert(toks[fl.len() + j] == t);
        } else {
            let k = choose|k: int| 0 <= k < all_e(fs).len() && #[trigger] all_e(fs)[k].contains(t);
            lemma_flatten_toks_contains(all_e(fs), k, t);
            let j = choose|j: int| 0 <= j < fl.len() && fl[j] == t;
            assert(toks[j] == t);
        }
    }
    if is_mand(fs, toks, t) {
        lemma_flatten_toks_member(all_e(fs), t);
        let j = choose|j: int| 0 <= j < toks.len() && toks[j] == t;
        if j >= fl.len() {
            assert(stat[j - fl.len()] == t);
        } else {
            assert(fl[j] == t);
            assert(fl.contains(t));
        }
    }
}

proof fn lemma_rev_f_contains(fs: Seq<FrameView>, p: (Tok, Tok))
    ensures
        rev_f(fs).contains(p) <==> exists|i: int| 0 <= i < fs.len() && #[trigger] fs[i].f.contains(p),
    decreases fs.len(),
{
    if fs.len() > 0 {
        lemma_rev_f_contains(fs.drop_last(), p);
        let a = fs.last().f.reverse();
        let b = rev_f(fs.drop_last());
        let f = fs.last().f;
        if rev_f(fs).contains(p) {
            let j = choose|j: int| 0 <= j < (a + b).len() && (a + b)[j] == p;
            if j < a.len() {
                assert(a[j] == f[f.len() - 1 - j]);
                assert(fs[fs.len() - 1].f.contains(p));
            } else {
                assert(b[j - a.len()] == p);
                let i = choose|i: int| 0 <= i < fs.len() - 1 && #[trigger] fs.drop_last()[i].f.contains(p);
                assert(fs[i] == fs.drop_last()[i]);
            }
        }
        if exists|i: int| 0 <= i < fs.len() && #[trigger] fs[i].f.contains(p) {
            let i = choose|i: int| 0 <= i < fs.len() && #[trigger] fs[i].f.contains(p);
            if i == fs.len() - 1 {
                let j = choose|j: int| 0 <= j < f.len() && f[j] == p;
                assert(a[f.len() - 1 - j] == p);
                assert((a + b)[f.len() - 1 - j] == p);
            } else {
                assert(fs.drop_last()[i] == fs[i]);
                let j = choose|j: int| 0 <= j < b.len() && b[j] == p;
                assert((a + b)[a.len() + j] == p);
            }
        }
    }
}

proof fn lemma_select_f(fs: Seq<FrameView>, toks: Seq<Tok>, es: Seq<(Tok, Tok)>, p: (Tok, Tok))
    ensures
        select_f(fs, toks, es).contains(p) ==> es.contains(p) && is_mand(fs, toks, p.0),
        es.contains(p) && is_mand(fs, toks, p.0) ==> exists|k: int|
            0 <= k < select_f(fs, toks, es).len() && (#[trigger] select_f(fs, toks, es)[k]).0 == p.0,
        forall|i: int, j: int|
            0 <= i < select_f(fs, toks, es).len() && 0 <= j < select_f(fs, toks, es).len() && i != j
                ==> (#[trigger] select_f(fs, toks, es)[i]).0 != (#[trigger] select_f(fs, toks, es)[j]).0,
    decreases es.len(),
{
    if es.len() > 0 {
        let d = es.drop_last();
        let s = select_f(fs, toks, d);
        let q = es.last();
        lemma_select_f(fs, toks, d, p);
        if s.contains(p) {
            let j = choose|j: int| 0 <= j < d.len() && d[j] == p;
            assert(es[j] == p);
        }
        if d.contains(p) {
            let j = choose|j: int| 0 <= j < d.len() && d[j] == p;
            assert(es[j] == p);
        }
        let added = is_mand(fs, toks, q.0) && !firsts(s).contains(q.0);
        if added {
            let s2 = s.push(q);
            if s2.contains(p) && !s.contains(p) {
                let k = choose|k: int| 0 <= k < s2.len() && s2[k] == p;
                if k < s.len() {
                    assert(s[k] == p);
                }
                assert(es[es.len() - 1] == p);
            }
            assert forall|i: int, j: int|
                0 <= i < s2.len() && 0 <= j < s2.len() && i != j implies (#[trigger] s2[i]).0
                    != (#[trigger] s2[j]).0 by {
                if i < s.len() && j < s.len() {
                    assert(s2[i] == s[i] && s2[j] == s[j]);
                } else if i < s.len() {
                    assert(firsts(s)[i] == s[i].0);
                    assert(s2[i] == s[i]);
                } else {
                    assert(firsts(s)[j] == s[j].0);
                    assert(s2[j] == s[j]);
                }
            }
            assert(select_f(fs, toks, es) == s2);
            if es.contains(p) && is_mand(fs, toks, p.0) {
                if d.contains(p) {
                    let k = choose|k: int| 0 <= k < s.len() && (#[trigger] s[k]).0 == p.0;
                    assert(s2[k] == s[k]);
                    assert((select_f(fs, toks, es)[k]).0 == p.0);
                } else {
                    let j = choose|j: int| 0 <= j < es.len() && es[j] == p;
                    if j < d.len() {
                        assert(d[j] == p);
                    }
                    assert(p == q);
                    assert(s2[s.len() as int] == q);
                    assert((s2[s.len() as int]).0 == p.0);
                }
            }
        } else {
            if es.contains(p) && is_mand(fs, toks, p.0) && d.contains(p) {
                let k = choose|k: int| 0 <= k < s.len() && (#[trigger] s[k]).0 == p.0;
                assert(select_f(fs, toks, es)[k] == s[k]);
            }
            if es.contains(p) && is_mand(fs, toks, p.0) && !d.contains(p) {
                let j = choose|j: int| 0 <= j < es.len() && es[j] == p;
                if j < d.len() {
                    assert(d[j] == p);
                }
                assert(p == q);
                let k = choose|k: int| 0 <= k < firsts(s).len() && firsts(s)[k] == q.0;
                assert((s[k]).0 == p.0);
                assert(select_f(fs, toks, es)[k] == s[k]);
            }
        }
    }
}

/// The floating hypotheses of an assertion are, as (type code, variable),
/// floating hypotheses in scope of its mandatory variables, one for each
/// mandatory variable that has one in scope, and no variable twice.
pub proof fn law_make_assertion_floats(fs: Seq<FrameView>, stat: Seq<Tok>, k: Tok, v: Tok)
    ensures
        spec_make_assertion(fs, stat).f_hyps.contains((k, v)) ==> mandatory_var(fs, stat, v) && exists|
            i: int,
        | 0 <= i < fs.len() && #[trigger] fs[i].f.contains((v, k)),
        mandatory_var(fs, stat, v) && (exists|i: int| 0 <= i < fs.len() && #[trigger] fs[i].f.contains((v, k)))
            ==> exists|j: int|
            0 <= j < spec_make_assertion(fs, stat).f_hyps.len() && (
            #[trigger] spec_make_assertion(fs, stat).f_hyps[j]).1 == v,
        forall|i: int, j: int|
            0 <= i < spec_make_assertion(fs, stat).f_hyps.len() && 0 <= j < spec_make_assertion(
                fs,
                stat,
            ).f_hyps.len() && i != j ==> (#[trigger] spec_make_assertion(fs, stat).f_hyps[i]).1 != (
            #[trigger] spec_make_assertion(fs, stat).f_hyps[j]).1,
{
    let toks = crate::frame::assertion_toks(fs, stat);
    let es = rev_f(fs);
    let sel = select_f(fs, toks, es);
    let r = sel.reverse();
    let fh = spec_make_assertion(fs, stat).f_hyps;
    let n = sel.len();
    assert(fh.len() == n);
    assert forall|i: int| 0 <= i < n implies #[trigger] fh[i] == (sel[n - 1 - i].1, sel[n - 1 - i].0) by {
        assert(r[i] == sel[n - 1 - i]);
    }
    lemma_select_f(fs, toks, es, (v, k));
    lemma_rev_f_contains(fs, (v, k));
    lemma_mandatory(fs, stat, v);
    if fh.contains((k, v)) {
        let i = choose|i: int| 0 <= i < fh.len() && fh[i] == (k, v);
        assert(sel[n - 1 - i] == (v, k));
        assert(sel.contains((v, k)));
    }
    if mandatory_var(fs, stat, v) && (exists|i: int| 0 <= i < fs.len() && #[trigger] fs[i].f.contains((v, k))) {
        let m = choose|m: int| 0 <= m < sel.len() && (#[trigger] sel[m]).0 == v;
        assert(fh[n - 1 - m].1 == v);
    }
    assert forall|i: int, j: int| 0 <= i < n && 0 <= j < n && i != j implies (#[trigger] fh[i]).1
        != (#[trigger] fh[j]).1 by {
        lemma_select_f(fs, toks, es, (v, k));
        assert(sel[n - 1 - i].0 != sel[n - 1 - j].0);
    }
}

/// The characters of `s` that are not white space, in order.
pub open spec fn non_white(s: Seq<char>) -> Seq<char>
    decreases s.len(),
{
    if s.len() == 0 {
        seq![]
    } else if spec_is_whitespace(s[0]) {
        non_white(s.drop_first())
    } else {
        seq![s[0]] + non_white(s.drop_first())
    }
}

proof fn lemma_join_chars_concat(a: Seq<Tok>, b: Seq<Tok>)
    ensures
        join_chars(a + b) == join_chars(a) + join_chars(b),
    decreases b.len(),
{
    if b.len() == 0 {
        assert(a + b =~= a);
        assert(join_chars(b) == Seq::<char>::empty());
        assert(join_chars(a) + Seq::<char>::empty() =~= join_chars(a));
    } else {
        lemma_join_chars_concat(a, b.drop_last());
        assert((a + b).drop_last() =~= a + b.drop_last());
        assert((a + b).last() == b.last());
        assert(join_chars(a) + join_chars(b.drop_last()) + b.last() =~= join_chars(a) + (join_chars(
            b.drop_last(),
        ) + b.last()));
    }
}

proof fn lemma_join_words_from(s: Seq<char>, i: int, cur: Seq<char>)
    requires
        0 <= i <= s.len(),
    ensures
        join_chars(words_from(s, i, cur)) == cur + non_white(s.skip(i)),
    decreases s.len() - i,
{
    let fl = flush(cur);
    assert(join_chars(fl) =~= cur) by {
        if cur.len() > 0 {
            assert(fl.drop_last() =~= Seq::<Tok>::empty());
            assert(join_chars(Seq::<Tok>::empty()) == Seq::<char>::empty());
        }
    }
    if i >= s.len() {
        assert(s.skip(i) =~= Seq::<char>::empty());
        assert(cur + Seq::<char>::empty() =~= cur);
    } else {
        assert(s.skip(i)[0] == s[i]);
        assert(s.skip(i).drop_first() =~= s.skip(i + 1));
        if spec_is_whitespace(s[i]) {
            lemma_join_words_from(s, i + 1, seq![]);
            lemma_join_chars_concat(fl, words_from(s, i + 1, seq![]));
            assert(Seq::<char>::empty() + non_white(s.skip(i + 1)) =~= non_white(s.skip(i + 1)));
        } else {
            lemma_join_words_from(s, i + 1, cur.push(s[i]));
            assert(cur.push(s[i]) + non_white(s.skip(i + 1)) =~= cur + (seq![s[i]] + non_white(
                s.skip(i + 1),
            )));
        }
    }
}

/// Nothing of a line but its white space is lost in splitting it: its
/// tokens, joined, are its characters that are not white space.
pub proof fn law_words_join(s: Seq<char>)
    ensures
        join_chars(words(s)) == non_white(s),
{
    lemma_join_words_from(s, 0, seq![]);
    assert(s.skip(0) =~= s);
    assert(Seq::<char>::empty() + non_white(s) =~= non_white(s));
}

/// A single token is replaced by the expression substituted for it, and
/// stays as it is where nothing is substituted for it; with
/// `law_apply_subst_concat` this fixes substitution on every statement.
pub proof fn law_apply_subst_token(t: Tok, subst: SubstView)
    ensures
        spec_apply_subst(seq![t], subst) == match map_get(subst, t) {
            Some(e) => e,
            None => seq![t],
        },
{
    assert(seq![t].drop_last() =~= Seq::<Tok>::empty());
    assert(seq![t].last() == t);
    assert(spec_apply_subst(Seq::<Tok>::empty(), subst) == Seq::<Tok>::empty());
    assert(Seq::<Tok>::empty().push(t) =~= seq![t]);
    if let Some(e) = map_get(subst, t) {
        assert(Seq::<Tok>::empty() + e =~= e);
    }
}

proof fn lemma_add_all_c_consts(fs: Seq<FrameView>, toks: Seq<Tok>)
    requires
        fs.len() > 0,
    ensures
        add_all_c(fs, toks) matches Ok(f) ==> f.len() == fs.len() && (forall|i: int|
            0 <= i < toks.len() ==> is_const(f, #[trigger] toks[i])) && (forall|u: Tok|
            #[trigger] is_const(fs, u) ==> is_const(f, u)),
    decreases toks.len(),
{
    if toks.len() > 0 {
        let d = toks.drop_last();
        lemma_add_all_c_consts(fs, d);
        if let Ok(f0) = add_all_c(fs, d) {
            if spec_add_c(f0, toks.last()) is Ok {
                let f = spec_add_c(f0, toks.last()).unwrap();
                law_add_c_lookup(f0, toks.last(), toks.last());
                assert forall|u: Tok| #[trigger] is_const(f0, u) implies is_const(f, u) by {
                    law_add_c_lookup(f0, toks.last(), u);
                }
                assert forall|i: int| 0 <= i < toks.len() implies is_const(f, #[trigger] toks[i]) by {
                    if i < d.len() {
                        assert(d[i] == toks[i]);
                    }
                }
            }
        }
    }
}

proof fn lemma_add_all_v_vars(fs: Seq<FrameView>, toks: Seq<Tok>)
    requires
        fs.len() > 0,
    ensures
        add_all_v(fs, toks) matches Ok(f) ==> f.len() == fs.len() && (forall|i: int|
            0 <= i < toks.len() ==> is_var(f, #[trigger] toks[i])) && (forall|u: Tok|
            #[trigger] is_var(fs, u) ==> is_var(f, u)),
    decreases toks.len(),
{
    if toks.len() > 0 {
        let d = toks.drop_last();
        lemma_add_all_v_vars(fs, d);
        if let Ok(f0) = add_all_v(fs, d) {
            if spec_add_v(f0, toks.last()) is Ok {
                let f = spec_add_v(f0, toks.last()).unwrap();
                law_add_v_lookup(f0, toks.last(), toks.last());
                assert forall|u: Tok| #[trigger] is_var(f0, u) implies is_var(f, u) by {
                    law_add_v_lookup(f0, toks.last(), u);
                }
                assert forall|i: int| 0 <= i < toks.len() implies is_var(f, #[trigger] toks[i]) by {
                    if i < d.len() {
                        assert(d[i] == toks[i]);
                    }
                }
            }
        }
    }
}

/// A `$c` statement read without error makes each of its tokens an active
/// constant, keeps the earlier ones, and keeps the pending label; a `$v`
/// statement does the same for variables.
pub proof fn law_read_declarations(mm: MMView, label: Option<Tok>, ts: StreamState)
    requires
        mm.fs.len() > 0,
        spec_readstat(ts).0 is Ok,
    ensures
        spec_step(mm, label, seq!['$', 'c'], ts) matches Step::Next(m, l, _) ==> {
            let stat = spec_readstat(ts).0->Ok_0;
            &&& l == label
            &&& m.labels == mm.labels
            &&& forall|i: int| 0 <= i < stat.len() ==> is_const(m.fs, #[trigger] stat[i])
            &&& forall|u: Tok| #[trigger] is_const(mm.fs, u) ==> is_const(m.fs, u)
        },
        spec_step(mm, label, seq!['$', 'v'], ts) matches Step::Next(m, l, _) ==> {
            let stat = spec_readstat(ts).0->Ok_0;
            &&& l == label
            &&& m.labels == mm.labels
            &&& forall|i: int| 0 <= i < stat.len() ==> is_var(m.fs, #[trigger] stat[i])
            &&& forall|u: Tok| #[trigger] is_var(mm.fs, u) ==> is_var(m.fs, u)
        },
{
    lemma_add_all_c_consts(mm.fs, spec_readstat(ts).0->Ok_0);
    lemma_add_all_v_vars(mm.fs, spec_readstat(ts).0->Ok_0);
}

/// A `$f` statement `type var` read without error, with a pending label,
/// makes that label the floating hypothesis of `var` in scope, records the
/// label for the statement `type var`, and uses the label up.
pub proof fn law_read_float(mm: MMView, l: Tok, ts: StreamState)
    requires
        mm.fs.len() > 0,
        spec_readstat(ts).0 is Ok,
    ensures
        spec_step(mm, Some(l), seq!['$', 'f'], ts) matches Step::Next(m, nl, _) ==> {
            let stat = spec_readstat(ts).0->Ok_0;
            &&& nl is None
            &&& stat.len() == 2
            &&& f_label(m.fs, stat[1]) == Some(l)
            &&& map_get(m.labels, l) == Some((seq!['$', 'f'], LabelDataView::Ef(stat)))
        },
{
    let stat = spec_readstat(ts).0->Ok_0;
    if stat.len() == 2 && spec_add_f(mm.fs, stat[1], stat[0], l) is Ok {
        law_add_f_lookup(mm.fs, stat[1], stat[0], l);
        law_map_put_get(mm.labels, l, (seq!['$', 'f'], LabelDataView::Ef(seq![stat[0], stat[1]])), l);
        assert(seq![stat[0], stat[1]] =~= stat);
    }
}

/// An `$e` statement read without error, with a pending label, makes that
/// label the label of the statement as an essential hypothesis in scope,
/// adds the statement to the hypotheses of the innermost scope, records the
/// label with kind `$e`, and uses the label up.
pub proof fn law_read_hypothesis(mm: MMView, l: Tok, ts: StreamState)
    requires
        mm.fs.len() > 0,
        spec_readstat(ts).0 is Ok,
    ensures
        spec_step(mm, Some(l), seq!['$', 'e'], ts) matches Step::Next(m, nl, _) ==> {
            let stat = spec_readstat(ts).0->Ok_0;
            &&& nl is None
            &&& e_label(m.fs, stat) == Some(l)
            &&& m.fs.len() == mm.fs.len()
            &&& m.fs.last().e == mm.fs.last().e.push(stat)
            &&& map_get(m.labels, l) == Some((seq!['$', 'e'], LabelDataView::Ef(stat)))
        },
{
    let stat = spec_readstat(ts).0->Ok_0;
    law_add_e_lookup(mm.fs, stat, l);
    law_map_put_get(mm.labels, l, (seq!['$', 'e'], LabelDataView::Ef(stat)), l);
}

/// The raw tokens still to be read: those left on the current line, then
/// those of the lines still to be read.
pub open spec fn raw_rest(ts: TokState) -> Seq<Tok> {
    ts.buf + flat_words(ts.lines)
}

/// Reading a raw token gives the first raw token still to be read, or `None`
/// when there is none.
pub proof fn law_next_tok(ts: TokState)
    requires
        !ts.done,
    ensures
        raw_rest(ts).len() > 0 ==> next_tok(ts).0 == Ok::<Option<Tok>, MmError>(Some(raw_rest(ts)[0]))
            && raw_rest(next_tok(ts).1) == raw_rest(ts).drop_first() && !next_tok(ts).1.done
            && next_tok(ts).1.imported == ts.imported,
        raw_rest(ts).len() == 0 ==> next_tok(ts).0 == Ok::<Option<Tok>, MmError>(None),
    decreases ts.lines.len(),
{
    if ts.buf.len() > 0 {
        assert(raw_rest(ts)[0] == ts.buf[0]);
        assert(raw_rest(next_tok(ts).1) =~= raw_rest(ts).drop_first());
    } else if ts.lines.len() == 0 {
        assert(flat_words(ts.lines) == Seq::<Tok>::empty());
        assert(raw_rest(ts) =~= Seq::<Tok>::empty());
    } else {
        let t2 = TokState { buf: words(ts.lines[0]), lines: ts.lines.drop_first(), ..ts };
        assert(raw_rest(t2) =~= raw_rest(ts));
        law_next_tok(t2);
    }
}

/// Where the raw tokens still to be read hold no comment and no inclusion,
/// a scan gives them all, and ends at the end of the input.
pub proof fn law_scan_plain_input(ts: TokState)
    requires
        !ts.done,
        forall|i: int| 0 <= i < raw_rest(ts).len() ==> #[trigger] raw_rest(ts)[i] != comment_open()
            && raw_rest(ts)[i] != include_open(),
    ensures
        spec_scan(ts).0 == Ok::<Option<Tok>, MmError>(None),
        spec_scan(ts).1 == raw_rest(ts),
    decreases size(ts),
{
    law_next_tok(ts);
    lemma_next_tok_shrinks(ts);
    let (r, ts1) = next_tok(ts);
    if raw_rest(ts).len() > 0 {
        let t = raw_rest(ts)[0];
        assert(spec_read_file(ts) == (Ok::<FileStepView, MmError>(FileStepView::Token(Some(t))), ts1));
        assert(spec_read_comment(ts) == (Ok::<FileStepView, MmError>(FileStepView::Token(Some(t))), ts1));
        assert forall|i: int| 0 <= i < raw_rest(ts1).len() implies #[trigger] raw_rest(ts1)[i]
            != comment_open() && raw_rest(ts1)[i] != include_open() by {
            assert(raw_rest(ts1)[i] == raw_rest(ts)[i + 1]);
        }
        law_scan_plain_input(ts1);
        assert(seq![t] + raw_rest(ts1) =~= raw_rest(ts));
    } else {
        assert(spec_read_file(ts) == (Ok::<FileStepView, MmError>(FileStepView::Token(None)), ts1));
    }
}

/// Whether the first `$)` of `rr` stands at position `k`.
pub open spec fn first_close_at(rr: Seq<Tok>, k: int) -> bool {
    &&& 0 <= k < rr.len()
    &&& rr[k] == comment_close()
    &&& forall|j: int| 0 <= j < k ==> #[trigger] rr[j] != comment_close()
}

/// Skipping the rest of a comment consumes the raw tokens up to and
/// including the first `$)`.
pub proof fn law_skip_comment(ts: TokState, k: int)
    requires
        !ts.done,
        first_close_at(raw_rest(ts), k),
    ensures
        spec_skip_comment(ts).0 is Ok,
        raw_rest(spec_skip_comment(ts).1) == raw_rest(ts).skip(k + 1),
    decreases size(ts),
{
    law_next_tok(ts);
    lemma_next_tok_shrinks(ts);
    let (r, ts1) = next_tok(ts);
    let rr = raw_rest(ts);
    if k == 0 {
        assert(rr.drop_first() =~= rr.skip(1));
    } else {
        assert(rr[0] != comment_close());
        let r1 = raw_rest(ts1);
        assert(r1[k - 1] == rr[k]);
        assert forall|j: int| 0 <= j < k - 1 implies #[trigger] r1[j] != comment_close() by {
            assert(r1[j] == rr[j + 1]);
        }
        law_skip_comment(ts1, k - 1);
        assert(r1.skip(k) =~= rr.skip(k + 1));
    }
}

/// A comment that is never closed makes skipping it fail.
pub proof fn law_skip_comment_unclosed(ts: TokState)
    requires
        !ts.done,
        forall|j: int| 0 <= j < raw_rest(ts).len() ==> #[trigger] raw_rest(ts)[j] != comment_close(),
    ensures
        spec_skip_comment(ts).0 is Err,
    decreases size(ts),
{
    law_next_tok(ts);
    lemma_next_tok_shrinks(ts);
    let (r, ts1) = next_tok(ts);
    let rr = raw_rest(ts);
    if rr.len() > 0 {
        assert(rr[0] != comment_close());
        let r1 = raw_rest(ts1);
        assert forall|j: int| 0 <= j < r1.len() implies #[trigger] r1[j] != comment_close() by {
            assert(r1[j] == rr[j + 1]);
        }
        if size(ts1) < size(ts) {
            law_skip_comment_unclosed(ts1);
        }
    }
}

proof fn lemma_stat_from_closed(tok: Tok, ss: StreamState, acc: Seq<Tok>, k: int)
    requires
        !ss.done,
        tok != stmt_end(),
        0 <= k < ss.rest.len(),
        ss.rest[k] == stmt_end(),
        forall|j: int| 0 <= j < k ==> #[trigger] ss.rest[j] != stmt_end(),
    ensures
        spec_stat_from(tok, ss, acc) == (
            Ok::<Seq<Tok>, MmError>(acc.push(tok) + ss.rest.take(k)),
            StreamState { rest: ss.rest.skip(k + 1), ..ss },
        ),
    decreases k,
{
    let ss1 = StreamState { rest: ss.rest.drop_first(), ..ss };
    let t = ss.rest[0];
    assert(stream_read(ss) == (Ok::<Option<Tok>, MmError>(Some(t)), ss1));
    assert(ss1.rest.len() < ss.rest.len());
    assert(spec_stat_from(tok, ss, acc) == spec_stat_from(t, ss1, acc.push(tok)));
    if k == 0 {
        assert(ss.rest.take(0) =~= Seq::<Tok>::empty());
        assert(acc.push(tok) + Seq::<Tok>::empty() =~= acc.push(tok));
        assert(ss.rest.drop_first() =~= ss.rest.skip(1));
        assert(spec_stat_from(t, ss1, acc.push(tok)) == (Ok::<Seq<Tok>, MmError>(acc.push(tok)), ss1));
    } else {
        assert forall|j: int| 0 <= j < k - 1 implies #[trigger] ss1.rest[j] != stmt_end() by {
            assert(ss1.rest[j] == ss.rest[j + 1]);
        }
        assert(ss1.rest[k - 1] == ss.rest[k]);
        assert(ss.rest[0] != stmt_end());
        lemma_stat_from_closed(t, ss1, acc.push(tok), k - 1);
        assert(acc.push(tok).push(t) + ss1.rest.take(k - 1) =~= acc.push(tok) + ss.rest.take(k));
        assert(ss1.rest.skip(k) =~= ss.rest.skip(k + 1));
    }
}

/// Reading a statement from scanned tokens gives the tokens before the
/// first `$.` and goes on after it.
pub proof fn law_readstat_closed(ss: StreamState, k: int)
    requires
        !ss.done,
        0 <= k < ss.rest.len(),
        ss.rest[k] == stmt_end(),
        forall|j: int| 0 <= j < k ==> #[trigger] ss.rest[j] != stmt_end(),
    ensures
        spec_readstat(ss) == (
            Ok::<Seq<Tok>, MmError>(ss.rest.take(k)),
            StreamState { rest: ss.rest.skip(k + 1), ..ss },
        ),
{
    let ss1 = StreamState { rest: ss.rest.drop_first(), ..ss };
    let t = ss.rest[0];
    if k == 0 {
        assert(ss.rest.take(0) =~= Seq::<Tok>::empty());
        assert(ss.rest.drop_first() =~= ss.rest.skip(1));
    } else {
        assert forall|j: int| 0 <= j < k - 1 implies #[trigger] ss1.rest[j] != stmt_end() by {
            assert(ss1.rest[j] == ss.rest[j + 1]);
        }
        assert(ss1.rest[k - 1] == ss.rest[k]);
        lemma_stat_from_closed(t, ss1, seq![], k - 1);
        assert(Seq::<Tok>::empty().push(t) + ss1.rest.take(k - 1) =~= ss.rest.take(k));
        assert(ss1.rest.skip(k) =~= ss.rest.skip(k + 1));
    }
}

/// Reading stops, with nothing changed and nothing consumed, at the `$a` or
/// `$p` labelled with the stop label.
pub proof fn law_read_stop(mm: MMView, l: Tok, ts: StreamState)
    requires
        mm.stop == Some(l),
    ensures
        spec_step(mm, Some(l), seq!['$', 'a'], ts) == Step::Stop(Ok(ReadOutcome::Stopped), mm, ts),
        spec_step(mm, Some(l), seq!['$', 'p'], ts) == Step::Stop(Ok(ReadOutcome::Stopped), mm, ts),
{
}

/// A `$f`, `$e`, `$a` or `$p` statement with no pending label is refused.
pub proof fn law_read_label_missing(mm: MMView, t: Tok, ts: StreamState)
    requires
        t == seq!['$', 'f'] || t == seq!['$', 'e'] || t == seq!['$', 'a'] || t == seq!['$', 'p'],
        t == seq!['$', 'f'] ==> spec_readstat(ts).0 is Ok,
    ensures
        spec_step(mm, None, t, ts) matches Step::Stop(r, _, _) && r == Err::<ReadOutcome, MmError>(
            MmError::LabelMissing,
        ),
{
}

/// A token that does not start with `$` becomes the pending label, with
/// nothing else changed; any other token that is no keyword is passed over.
pub proof fn law_read_label(mm: MMView, label: Option<Tok>, t: Tok, ts: StreamState)
    requires
        t != seq!['$', 'c'] && t != seq!['$', 'v'] && t != seq!['$', 'f'] && t != seq!['$', 'e'] && t
            != seq!['$', 'a'] && t != seq!['$', 'p'] && t != seq!['$', 'd'],
    ensures
        !(t.len() > 0 && t[0] == '$') ==> spec_step(mm, label, t, ts) == Step::Next(mm, Some(t), ts),
        t.len() > 0 && t[0] == '$' ==> spec_step(mm, label, t, ts) == Step::Next(mm, label, ts),
{
}

/// A block that reads to its end leaves the scopes as they were before it
/// (what it declared is forgotten), and no block changes the stop label.
pub proof fn law_read_block_scopes(mm: MMView, ts: StreamState)
    ensures
        spec_read_block(mm, ts).0 == Ok::<ReadOutcome, MmError>(ReadOutcome::Finished) ==> spec_read_block(
            mm,
            ts,
        ).1.fs == mm.fs,
        spec_read_block(mm, ts).0 is Ok ==> spec_read_block(mm, ts).1.stop == mm.stop,
    decreases ts.rest.len(), 1nat,
{
    let mm1 = MMView { fs: mm.fs.push(empty_frame()), ..mm };
    let (r, ts1) = stream_read(ts);
    assert(mm1.fs.drop_last() =~= mm.fs);
    if let Ok(Some(t)) = r {
        if ts1.rest.len() < ts.rest.len() {
            lemma_read_loop_scopes(mm1, None, t, ts1);
        }
    }
}

proof fn lemma_read_loop_scopes(mm: MMView, label: Option<Tok>, t: Tok, ts: StreamState)
    requires
        mm.fs.len() > 0,
    ensures
        spec_read_loop(mm, label, t, ts).0 == Ok::<ReadOutcome, MmError>(ReadOutcome::Finished)
            ==> spec_read_loop(mm, label, t, ts).1.fs == mm.fs.drop_last(),
        spec_read_loop(mm, label, t, ts).0 is Ok ==> spec_read_loop(mm, label, t, ts).1.stop
            == mm.stop,
    decreases ts.rest.len(), 2nat,
{
    if t == seq!['$', '}'] {
    } else if t == seq!['$', '{'] {
        law_read_block_scopes(mm, ts);
        let (r, m, s) = spec_read_block(mm, ts);
        if r == Ok::<ReadOutcome, MmError>(ReadOutcome::Finished) {
            lemma_read_next_scopes(m, label, s, ts.rest.len());
        }
    } else {
        crate::mm::lemma_step_outer(mm, label, t, ts);
        if let Step::Next(m, l, s) = spec_step(mm, label, t, ts) {
            lemma_read_next_scopes(m, l, s, ts.rest.len());
        }
    }
}

proof fn lemma_read_next_scopes(mm: MMView, label: Option<Tok>, ts: StreamState, bound: nat)
    requires
        mm.fs.len() > 0,
    ensures
        spec_read_next(mm, label, ts, bound).0 == Ok::<ReadOutcome, MmError>(ReadOutcome::Finished)
            ==> spec_read_next(mm, label, ts, bound).1.fs == mm.fs.drop_last(),
        spec_read_next(mm, label, ts, bound).0 is Ok ==> spec_read_next(mm, label, ts, bound).1.stop
            == mm.stop,
    decreases bound, 1nat,
{
    let (r, ts1) = stream_read(ts);
    if let Ok(Some(t)) = r {
        if ts1.rest.len() < bound {
            lemma_read_loop_scopes(mm, label, t, ts1);
        }
    }
}

/// Where the next three raw tokens are `$[`, the name of a file not
/// included before and `$]`, reading at the file level hands back that name
/// and records it, after those tokens.
pub proof fn law_include_new(ts: TokState, f: Tok)
    requires
        !ts.imported.contains(f),
        next_tok(ts).0 == Ok::<Option<Tok>, MmError>(Some(include_open())),
        next_tok(next_tok(ts).1).0 == Ok::<Option<Tok>, MmError>(Some(f)),
        next_tok(next_tok(next_tok(ts).1).1).0 == Ok::<Option<Tok>, MmError>(Some(include_close())),
    ensures
        spec_read_file(ts) == (
            Ok::<FileStepView, MmError>(FileStepView::Include(f)),
            TokState {
                imported: ts.imported.push(f),
                ..next_tok(next_tok(next_tok(ts).1).1).1
            },
        ),
{
    let ts1 = next_tok(ts).1;
    let ts2 = next_tok(ts1).1;
    lemma_next_tok_shrinks(ts);
    lemma_next_tok_shrinks(ts1);
    lemma_next_tok_shrinks(ts2);
}

/// The floating hypotheses of all active scopes in order of declaration:
/// outermost scope first, each scope's in its own order.
pub open spec fn decl_f(fs: Seq<FrameView>) -> Seq<(Tok, Tok)>
    decreases fs.len(),
{
    if fs.len() == 0 {
        seq![]
    } else {
        decl_f(fs.drop_last()) + fs.last().f
    }
}

proof fn lemma_rev_f_decl(fs: Seq<FrameView>)
    ensures
        rev_f(fs) == decl_f(fs).reverse(),
    decreases fs.len(),
{
    if fs.len() > 0 {
        lemma_rev_f_decl(fs.drop_last());
        let a = decl_f(fs.drop_last());
        let f = fs.last().f;
        assert((a + f).reverse() =~= f.reverse() + a.reverse());
    }
}

/// Selection keeps entries of `es` in their order, each the first entry of
/// its variable in `es`.
proof fn lemma_select_f_order(fs: Seq<FrameView>, toks: Seq<Tok>, es: Seq<(Tok, Tok)>) -> (idx: Seq<int>)
    ensures
        idx.len() == select_f(fs, toks, es).len(),
        forall|m: int| 0 <= m < idx.len() ==> 0 <= #[trigger] idx[m] < es.len() && es[idx[m]]
            == select_f(fs, toks, es)[m] && forall|q: int|
            0 <= q < idx[m] ==> (#[trigger] es[q]).0 != es[idx[m]].0,
        forall|m1: int, m2: int| 0 <= m1 < m2 < idx.len() ==> #[trigger] idx[m1] < #[trigger] idx[m2],
    decreases es.len(),
{
    if es.len() == 0 {
        seq![]
    } else {
        let d = es.drop_last();
        let s = select_f(fs, toks, d);
        let q = es.last();
        let idx0 = lemma_select_f_order(fs, toks, d);
        assert forall|m: int| 0 <= m < idx0.len() implies es[idx0[m]] == d[idx0[m]] by {}
        if is_mand(fs, toks, q.0) && !firsts(s).contains(q.0) {
            let idx = idx0.push(es.len() - 1);
            assert forall|m: int| 0 <= m < idx.len() implies 0 <= #[trigger] idx[m] < es.len() && es[idx[m]]
                == select_f(fs, toks, es)[m] && forall|r: int|
                0 <= r < idx[m] ==> (#[trigger] es[r]).0 != es[idx[m]].0 by {
                if m < idx0.len() {
                    assert(idx[m] == idx0[m]);
                    assert forall|r: int| 0 <= r < idx[m] implies (#[trigger] es[r]).0 != es[idx[m]].0 by {
                        assert(es[r] == d[r]);
                    }
                } else {
                    assert(idx[m] == es.len() - 1);
                    assert forall|r: int| 0 <= r < idx[m] implies (#[trigger] es[r]).0 != es[idx[m]].0 by {
                        assert(es[r] == d[r]);
                        if d[r].0 == q.0 {
                            lemma_select_f(fs, toks, d, d[r]);
                            assert(d.contains(d[r]));
                            let k = choose|k: int| 0 <= k < s.len() && (#[trigger] s[k]).0 == d[r].0;
                            assert(firsts(s)[k] == q.0);
                        }
                    }
                }
            }
            idx
        } else {
            assert(select_f(fs, toks, es) == s);
            assert forall|m: int| 0 <= m < idx0.len() implies 0 <= #[trigger] idx0[m] < es.len() && es[idx0[m]]
                == select_f(fs, toks, es)[m] && forall|r: int|
                0 <= r < idx0[m] ==> (#[trigger] es[r]).0 != es[idx0[m]].0 by {
                assert forall|r: int| 0 <= r < idx0[m] implies (#[trigger] es[r]).0 != es[idx0[m]].0 by {
                    assert(es[r] == d[r]);
                }
            }
            idx0
        }
    }
}

/// Whether `pos` gives, for each floating hypothesis of the assertion `stat`,
/// the position in `decl_f(fs)` of its declaration: positions increase, and
/// no later declaration is of the same variable.
pub open spec fn float_positions(fs: Seq<FrameView>, stat: Seq<Tok>, pos: Seq<int>) -> bool {
    let fh = spec_make_assertion(fs, stat).f_hyps;
    let dl = decl_f(fs);
    &&& pos.len() == fh.len()
    &&& forall|m: int| 0 <= m < pos.len() ==> 0 <= #[trigger] pos[m] < dl.len() && dl[pos[m]] == (
        fh[m].1,
        fh[m].0,
    ) && forall|q: int| pos[m] < q < dl.len() ==> (#[trigger] dl[q]).0 != fh[m].1
    &&& forall|m1: int, m2: int| 0 <= m1 < m2 < pos.len() ==> #[trigger] pos[m1] < #[trigger] pos[m2]
}

/// The floating hypotheses of an assertion come in order of declaration,
/// and each is the last one declared, in the active scopes, for its
/// variable (so an inner scope's wins over an outer one's).
pub proof fn law_make_assertion_float_order(fs: Seq<FrameView>, stat: Seq<Tok>)
    ensures
        exists|pos: Seq<int>| #[trigger] float_positions(fs, stat, pos),
{
    let toks = crate::frame::assertion_toks(fs, stat);
    let es = rev_f(fs);
    lemma_rev_f_decl(fs);
    let dl = decl_f(fs);
    let len = dl.len() as int;
    let sel = select_f(fs, toks, es);
    let n = sel.len() as int;
    let idx = lemma_select_f_order(fs, toks, es);
    let fh = spec_make_assertion(fs, stat).f_hyps;
    assert forall|i: int| 0 <= i < n implies #[trigger] fh[i] == (sel[n - 1 - i].1, sel[n - 1 - i].0) by {
        assert(sel.reverse()[i] == sel[n - 1 - i]);
    }
    let pos = Seq::new(n as nat, |m: int| len - 1 - idx[n - 1 - m]);
    assert forall|m: int| 0 <= m < pos.len() implies 0 <= #[trigger] pos[m] < dl.len() && dl[pos[m]]
        == (fh[m].1, fh[m].0) && forall|q: int| pos[m] < q < dl.len() ==> (#[trigger] dl[q]).0 != fh[m].1 by {
        let e = idx[n - 1 - m];
        assert(es[e] == dl[len - 1 - e]);
        assert(fh[m] == (sel[n - 1 - m].1, sel[n - 1 - m].0));
        assert forall|q: int| pos[m] < q < dl.len() implies (#[trigger] dl[q]).0 != fh[m].1 by {
            let r = len - 1 - q;
            assert(es[r] == dl[q]);
            assert(0 <= r < e);
        }
    }
    assert forall|m1: int, m2: int| 0 <= m1 < m2 < pos.len() implies #[trigger] pos[m1] < #[trigger] pos[m2] by {
        assert(idx[n - 1 - m2] < idx[n - 1 - m1]);
    }
    assert(float_positions(fs, stat, pos));
}

} // verus!
