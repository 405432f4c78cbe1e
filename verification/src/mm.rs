//! The database reader and the proof checker: labelled statements, the
//! substitution of variables, and the stack machine that replays a proof.
use vstd::prelude::*;

use crate::error::MmError;
use crate::frame::{
    Assertion, AssertionView, FrameStack, FrameView, e_label, f_label, find_tok_key, is_disjoint,
    is_var, lemma_key_index, map_get, spec_make_assertion,
};
use crate::frame::{
    empty_frame, frames_wf, keys_distinct, map_put, spec_add_c, spec_add_d, spec_add_e, spec_add_f, spec_add_v,
};
use crate::text::{
    Tok, chars_of, clone_stmt, is_token1, is_token2, starts_with_dollar, stmt_eq, stmt_tail, token2,
};
use crate::stream::{StreamState, TokenStream, lemma_read_comment_shrinks, spec_read_comment, spec_readstat};
use crate::tokens::opt_tok;

verus! {

/// What a label stands for: an assertion (`$a`, `$p`) or a hypothesis
/// statement (`$f`, `$e`).
pub enum LabelDataView {
    Ap(AssertionView),
    Ef(Seq<Tok>),
}

/// What a label stands for: an assertion (`$a`, `$p`) or a hypothesis
/// statement (`$f`, `$e`).
pub enum LabelData {
    Ap(Assertion),
    Ef(Vec<String>),
}

impl DeepView for LabelData {
    type V = LabelDataView;

    open spec fn deep_view(&self) -> LabelDataView {
        match self {
            LabelData::Ap(a) => LabelDataView::Ap(a.deep_view()),
            LabelData::Ef(s) => LabelDataView::Ef(s.deep_view()),
        }
    }
}

/// The labels of a database, each with its keyword and what it stands for.
pub type LabelsView = Seq<(Tok, (Tok, LabelDataView))>;

/// A substitution of statements for variables.
pub type SubstView = Seq<(Tok, Seq<Tok>)>;

/// The state of the reader: scopes, labels, and the labels that start and stop it.
pub struct MMView {
    pub fs: Seq<FrameView>,
    pub labels: LabelsView,
    pub begin: Option<Tok>,
    pub stop: Option<Tok>,
}

/// `stat` with each token that `subst` maps replaced by its statement.
pub open spec fn spec_apply_subst(stat: Seq<Tok>, subst: SubstView) -> Seq<Tok>
    decreases stat.len(),
{
    if stat.len() == 0 {
        seq![]
    } else {
        let prev = spec_apply_subst(stat.drop_last(), subst);
        match map_get(subst, stat.last()) {
            Some(r) => prev + r,
            None => prev.push(stat.last()),
        }
    }
}

/// The active variables of `stat`, each once, in order of first occurrence.
pub open spec fn spec_find_vars(fs: Seq<FrameView>, stat: Seq<Tok>) -> Seq<Tok>
    decreases stat.len(),
{
    if stat.len() == 0 {
        seq![]
    } else {
        let p = spec_find_vars(fs, stat.drop_last());
        let x = stat.last();
        if !p.contains(x) && is_var(fs, x) {
            p.push(x)
        } else {
            p
        }
    }
}

/// The substitution read off the stack for the floating hypotheses `fh`,
/// whose entries start at position `sp`: each stack entry must start with the
/// first component, and its remaining tokens are substituted for the second.
pub open spec fn float_subst(fh: Seq<(Tok, Tok)>, stack: Seq<Seq<Tok>>, sp: int) -> Result<
    SubstView,
    MmError,
>
    decreases fh.len(),
{
    if fh.len() == 0 {
        Ok(seq![])
    } else {
        match float_subst(fh.drop_last(), stack, sp) {
            Err(e) => Err(e),
            Ok(s) => {
                let entry = stack[sp + fh.len() - 1];
                let (k, v) = fh.last();
                if entry.len() == 0 || entry[0] != k {
                    Err(MmError::FloatMismatch)
                } else {
                    Ok(map_put(s, v, entry.drop_first()))
                }
            },
        }
    }
}

/// Whether each variable of `xs` is distinct from, and declared disjoint
/// from, each variable of `ys`.
pub open spec fn dv_ok(fs: Seq<FrameView>, xs: Seq<Tok>, ys: Seq<Tok>) -> bool {
    forall|i: int, j: int|
        0 <= i < xs.len() && 0 <= j < ys.len() ==> #[trigger] xs[i] != #[trigger] ys[j]
            && is_disjoint(fs, xs[i], ys[j])
}

/// Matching the essential hypotheses `hyps`, after substitution, against the
/// stack entries from position `sp` on.
pub open spec fn check_hyps(hyps: Seq<Seq<Tok>>, stack: Seq<Seq<Tok>>, sp: int, subst: SubstView) -> Result<
    (),
    MmError,
>
    decreases hyps.len(),
{
    if hyps.len() == 0 {
        Ok(())
    } else if sp >= stack.len() {
        Err(MmError::StackUnderflow)
    } else if stack[sp] != spec_apply_subst(hyps[0], subst) {
        Err(MmError::HypothesisMismatch)
    } else {
        check_hyps(hyps.drop_first(), stack, sp + 1, subst)
    }
}

/// Checking the disjoint-variable conditions `dvs` of an assertion under the
/// substitution `subst`: both variables of each pair must be substituted, and
/// each variable of the one substitution must be distinct from, and declared
/// disjoint from, each variable of the other.
pub open spec fn dv_check(fs: Seq<FrameView>, dvs: Seq<(Tok, Tok)>, subst: SubstView) -> Result<
    (),
    MmError,
>
    decreases dvs.len(),
{
    if dvs.len() == 0 {
        Ok(())
    } else {
        let (x, y) = dvs[0];
        match (map_get(subst, x), map_get(subst, y)) {
            (Some(sx), Some(sy)) => if !dv_ok(fs, spec_find_vars(fs, sx), spec_find_vars(fs, sy)) {
                Err(MmError::DisjointViolation)
            } else {
                dv_check(fs, dvs.drop_first(), subst)
            },
            _ => Err(MmError::SubstitutionMissing),
        }
    }
}

/// One step of a proof: a hypothesis's statement is pushed. An assertion
/// takes the entries for its mandatory hypotheses off the top of the stack:
/// the floating ones give the substitution, under which its disjoint-variable
/// conditions must hold and its essential hypotheses must equal their
/// entries; its conclusion, substituted, is pushed in their place.
pub open spec fn proof_step(fs: Seq<FrameView>, labels: LabelsView, label: Tok, stack: Seq<Seq<Tok>>) -> Result<
    Seq<Seq<Tok>>,
    MmError,
> {
    match map_get(labels, label) {
        None => Err(MmError::UnknownLabel),
        Some((_, data)) => match data {
            LabelDataView::Ef(x) => Ok(stack.push(x)),
            LabelDataView::Ap(a) => {
                let npop = (a.f_hyps.len() + a.e_hyps.len()) as int;
                if stack.len() < npop {
                    Err(MmError::StackUnderflow)
                } else {
                    let sp = stack.len() - npop;
                    match float_subst(a.f_hyps, stack, sp) {
                        Err(e) => Err(e),
                        Ok(subst) => match dv_check(fs, a.dvs, subst) {
                            Err(e) => Err(e),
                            Ok(_) => match check_hyps(a.e_hyps, stack, sp + a.f_hyps.len(), subst) {
                                Err(e) => Err(e),
                                Ok(_) => Ok(stack.take(sp).push(spec_apply_subst(a.stat, subst))),
                            },
                        },
                    }
                }
            },
        },
    }
}

/// Running the proof steps `steps` from the stack `stack`.
pub open spec fn run_steps(fs: Seq<FrameView>, labels: LabelsView, steps: Seq<Tok>, stack: Seq<Seq<Tok>>) -> Result<
    Seq<Seq<Tok>>,
    MmError,
>
    decreases steps.len(),
{
    if steps.len() == 0 {
        Ok(stack)
    } else {
        match proof_step(fs, labels, steps[0], stack) {
            Err(e) => Err(e),
            Ok(st) => run_steps(fs, labels, steps.drop_first(), st),
        }
    }
}

/// The labels of the floating hypotheses `fh`, each (type code, variable)
/// looked up by its variable; `None` if one has no label.
pub open spec fn f_hyp_labels(fs: Seq<FrameView>, fh: Seq<(Tok, Tok)>) -> Option<Seq<Tok>>
    decreases fh.len(),
{
    if fh.len() == 0 {
        Some(seq![])
    } else {
        match (f_hyp_labels(fs, fh.drop_last()), f_label(fs, fh.last().1)) {
            (Some(s), Some(l)) => Some(s.push(l)),
            _ => None,
        }
    }
}

/// The labels of the essential hypotheses `es`; `None` if one has no label.
pub open spec fn e_hyp_labels(fs: Seq<FrameView>, es: Seq<Seq<Tok>>) -> Option<Seq<Tok>>
    decreases es.len(),
{
    if es.len() == 0 {
        Some(seq![])
    } else {
        match (e_hyp_labels(fs, es.drop_last()), e_label(fs, es.last())) {
            (Some(s), Some(l)) => Some(s.push(l)),
            _ => None,
        }
    }
}

/// The first position of the token `t` in `s`, or -1.
pub open spec fn first_index(s: Seq<Tok>, t: Tok) -> int
    decreases s.len(),
{
    if s.len() == 0 {
        -1
    } else {
        let j = first_index(s.drop_last(), t);
        if j >= 0 {
            j
        } else if s.last() == t {
            s.len() - 1
        } else {
            -1
        }
    }
}

/// The characters of the tokens `ts`, joined without separator.
pub open spec fn join_chars(ts: Seq<Tok>) -> Seq<char>
    decreases ts.len(),
{
    if ts.len() == 0 {
        seq![]
    } else {
        join_chars(ts.drop_last()) + ts.last()
    }
}

/// One character of a compressed proof, from the numbers read so far and the
/// pending number `cur`: `Z` marks a step to save (-1); `U`..`Y` are base-5
/// digits and `A`..`T` base-20 final digits of a number, which is pushed less
/// one; other characters are ignored. Numbers must fit in 32 bits.
pub open spec fn parse_char(st: (Seq<i32>, int), ch: char) -> Result<(Seq<i32>, int), MmError> {
    let (ints, cur) = st;
    let n = ch as u32;
    if ch == 'Z' {
        Ok((ints.push(-1i32), cur))
    } else if 65 <= n <= 84 {
        let v = 20 * cur + (n - 65 + 1);
        if v > i32::MAX {
            Err(MmError::CompressedOverflow)
        } else {
            Ok((ints.push((v - 1) as i32), 0))
        }
    } else if 85 <= n <= 89 {
        let v = 5 * cur + (n - 85 + 1);
        if v > i32::MAX {
            Err(MmError::CompressedOverflow)
        } else {
            Ok((ints, v))
        }
    } else {
        Ok((ints, cur))
    }
}

/// The numbers of a compressed proof's characters, with the pending number.
pub open spec fn parse_ints(cs: Seq<char>) -> Result<(Seq<i32>, int), MmError>
    decreases cs.len(),
{
    if cs.len() == 0 {
        Ok((seq![], 0))
    } else {
        match parse_ints(cs.drop_last()) {
            Err(e) => Err(e),
            Ok(st) => parse_char(st, cs.last()),
        }
    }
}

/// The state of decompression: the steps so far, the saved subproofs, and
/// the subproofs of the entries of the proof stack.
pub struct DecState {
    pub ints: Seq<i32>,
    pub subs: Seq<Seq<i32>>,
    pub prev: Seq<Seq<i32>>,
}

/// The numbers of the sequences `ss`, one after the other.
pub open spec fn flatten_ints(ss: Seq<Seq<i32>>) -> Seq<i32>
    decreases ss.len(),
{
    if ss.len() == 0 {
        seq![]
    } else {
        flatten_ints(ss.drop_last()) + ss.last()
    }
}

/// One number of a compressed proof, with the labels `labs`, of which the
/// first `hyp_end` are the mandatory hypotheses.
pub open spec fn dec_step(labels: LabelsView, labs: Seq<Tok>, hyp_end: int, st: DecState, pf: i32) -> Result<
    DecState,
    MmError,
> {
    let label_end = labs.len() as int;
    if pf == -1 {
        if st.prev.len() == 0 {
            Err(MmError::CompressedNoStep)
        } else {
            Ok(DecState { subs: st.subs.push(st.prev.last()), ..st })
        }
    } else if 0 <= pf && pf < hyp_end {
        Ok(DecState { ints: st.ints.push(pf), prev: st.prev.push(seq![pf]), ..st })
    } else if hyp_end <= pf && pf < label_end {
        let ints = st.ints.push(pf);
        match map_get(labels, labs[pf as int]) {
            None => Err(MmError::UnknownLabel),
            Some((_, data)) => match data {
                LabelDataView::Ap(a) => {
                    let nh = a.e_hyps.len() + a.f_hyps.len();
                    if nh != 0 {
                        if st.prev.len() < nh {
                            Err(MmError::StackUnderflow)
                        } else {
                            let ni = st.prev.len() - nh;
                            Ok(
                                DecState {
                                    ints,
                                    subs: st.subs,
                                    prev: st.prev.take(ni).push(
                                        flatten_ints(st.prev.skip(ni)).push(pf),
                                    ),
                                },
                            )
                        }
                    } else {
                        Ok(DecState { ints, subs: st.subs, prev: st.prev.push(seq![pf]) })
                    }
                },
                LabelDataView::Ef(_) => Ok(
                    DecState { ints, subs: st.subs, prev: st.prev.push(seq![pf]) },
                ),
            },
        }
    } else if label_end <= pf {
        let j = pf - label_end;
        if j >= st.subs.len() {
            Err(MmError::CompressedBadReference)
        } else {
            Ok(DecState { ints: st.ints + st.subs[j], subs: st.subs, prev: st.prev.push(st.subs[j]) })
        }
    } else {
        Ok(st)
    }
}

/// Decompressing the numbers `ints` from the empty state.
pub open spec fn run_dec(labels: LabelsView, labs: Seq<Tok>, hyp_end: int, ints: Seq<i32>) -> Result<
    DecState,
    MmError,
>
    decreases ints.len(),
{
    if ints.len() == 0 {
        Ok(DecState { ints: seq![], subs: seq![], prev: seq![] })
    } else {
        match run_dec(labels, labs, hyp_end, ints.drop_last()) {
            Err(e) => Err(e),
            Ok(st) => dec_step(labels, labs, hyp_end, st, ints.last()),
        }
    }
}

/// The token `)`.
pub open spec fn close_paren() -> Tok {
    seq![')']
}

/// The proof steps of the compressed proof `proof` of `stat`: the mandatory
/// hypotheses' labels and the labels listed up to `)` are numbered in order,
/// and the letters after `)` are read as numbers that refer to them, to saved
/// subproofs, or save the last subproof.
pub open spec fn spec_decompress(fs: Seq<FrameView>, labels: LabelsView, stat: Seq<Tok>, proof: Seq<Tok>) -> Result<
    Seq<Tok>,
    MmError,
> {
    let a = spec_make_assertion(fs, stat);
    match (f_hyp_labels(fs, a.f_hyps), e_hyp_labels(fs, a.e_hyps)) {
        (Some(lf), Some(le)) => {
            let hl = lf + le;
            let ep = first_index(proof, close_paren());
            if ep < 0 {
                Err(MmError::CompressedNoParen)
            } else {
                let labs = hl + proof.subrange(1, ep);
                match parse_ints(join_chars(proof.skip(ep + 1))) {
                    Err(e) => Err(e),
                    Ok((ints, _)) => match run_dec(labels, labs, hl.len() as int, ints) {
                        Err(e) => Err(e),
                        Ok(st) => Ok(st.ints.map_values(|i: i32| labs[i as int])),
                    },
                }
            }
        },
        _ => Err(MmError::HypothesisLabel),
    }
}

/// The token `(`.
pub open spec fn open_paren() -> Tok {
    seq!['(']
}

/// Checking the proof `proof` of `stat`: a compressed proof (starting with
/// `(`) is decompressed first; the steps are run from an empty stack, which
/// must end holding exactly `stat`.
pub open spec fn spec_verify(fs: Seq<FrameView>, labels: LabelsView, stat: Seq<Tok>, proof: Seq<Tok>) -> Result<
    (),
    MmError,
> {
    if stat.len() == 0 || proof.len() == 0 {
        Err(MmError::EmptyStatement)
    } else {
        let steps = if proof[0] == open_paren() {
            spec_decompress(fs, labels, stat, proof)
        } else {
            Ok(proof)
        };
        match steps {
            Err(e) => Err(e),
            Ok(steps) => match run_steps(fs, labels, steps, seq![]) {
                Err(e) => Err(e),
                Ok(stack) => if stack.len() != 1 {
                    Err(MmError::StackSize)
                } else if stack[0] != stat {
                    Err(MmError::WrongConclusion)
                } else {
                    Ok(())
                },
            },
        }
    }
}

/// A Metamath database reader and proof checker.
pub struct MM {
    fs: FrameStack,
    labels: Vec<(String, (String, LabelData))>,
    begin_label: Option<String>,
    stop_label: Option<String>,
}

impl View for MM {
    type V = MMView;

    closed spec fn view(&self) -> MMView {
        MMView {
            fs: self.fs@,
            labels: self.labels.deep_view(),
            begin: opt_tok(self.begin_label),
            stop: opt_tok(self.stop_label),
        }
    }
}

impl MM {
    /// A reader with no scopes and no labels, which starts checking proofs at
    /// the `$p` labelled `begin_label` (at once if `None`) and stops at the
    /// `$a` or `$p` labelled `stop_label`.
    pub fn new(begin_label: Option<String>, stop_label: Option<String>) -> (mm: MM)
        ensures
            mm@ == (MMView {
                fs: Seq::<FrameView>::empty(),
                labels: seq![],
                begin: opt_tok(begin_label),
                stop: opt_tok(stop_label),
            }),
    {
        let mm = MM { fs: FrameStack::new(), labels: Vec::new(), begin_label, stop_label };
        assert(mm.labels.deep_view() =~= seq![]);
        mm
    }

    /// The active scopes.
    pub fn frames(&self) -> (r: &FrameStack)
        ensures
            r@ == self@.fs,
    {
        &self.fs
    }

    /// Whether `label` stands for a statement.
    pub fn has_label(&self, label: &String) -> (r: bool)
        ensures
            r == (map_get(self@.labels, label@) is Some),
    {
        let k = find_tok_key(&self.labels, label);
        proof {
            lemma_key_index(self@.labels, label@);
        }
        k.is_some()
    }

    /// The keyword with which `label` was defined (`$f`, `$e`, `$a` or `$p`),
    /// if it stands for a statement.
    pub fn label_kind(&self, label: &String) -> (r: Option<String>)
        ensures
            opt_tok(r) == match map_get(self@.labels, label@) {
                Some((k, _)) => Some(k),
                None => None::<Tok>,
            },
    {
        let k = find_tok_key(&self.labels, label);
        proof {
            lemma_key_index(self@.labels, label@);
        }
        match k {
            Some(i) => Some(self.labels[i].1.0.clone()),
            None => None,
        }
    }

    /// `stat` with each token that `subst` maps replaced by its statement.
    pub fn apply_subst(&self, stat: &Vec<String>, subst: &Vec<(String, Vec<String>)>) -> (r: Vec<
        String,
    >)
        ensures
            r.deep_view() == spec_apply_subst(stat.deep_view(), subst.deep_view()),
    {
        let mut result: Vec<String> = Vec::new();
        let mut i: usize = 0;
        let ghost sv = stat.deep_view();
        assert(result.deep_view() =~= spec_apply_subst(sv.take(0), subst.deep_view()));
        while i < stat.len()
            invariant
                0 <= i <= stat.len(),
                sv == stat.deep_view(),
                result.deep_view() == spec_apply_subst(sv.take(i as int), subst.deep_view()),
            decreases stat.len() - i,
        {
            assert(sv.take(i + 1).drop_last() =~= sv.take(i as int));
            assert(sv.take(i + 1).last() == sv[i as int]);
            let ghost before = result.deep_view();
            match find_tok_key(subst, &stat[i]) {
                Some(k) => {
                    proof {
                        lemma_key_index(subst.deep_view(), sv[i as int]);
                    }
                    let rep = &subst[k].1;
                    let mut j: usize = 0;
                    while j < rep.len()
                        invariant
                            0 <= j <= rep.len(),
                            result.deep_view() == before + rep.deep_view().take(j as int),
                        decreases rep.len() - j,
                    {
                        let ghost b2 = result.deep_view();
                        let t = rep[j].clone();
                        result.push(t);
                        assert(result.deep_view() =~= b2.push(t@));
                        assert(rep.deep_view().take(j + 1) =~= rep.deep_view().take(j as int).push(
                            t@,
                        ));
                        j = j + 1;
                    }
                    assert(rep.deep_view().take(j as int) =~= rep.deep_view());
                },
                None => {
                    let t = stat[i].clone();
                    result.push(t);
                    assert(result.deep_view() =~= before.push(t@));
                },
            }
            i = i + 1;
        }
        assert(sv.take(i as int) =~= sv);
        result
    }

    /// The active variables of `stat`, each once, in order of first occurrence.
    pub fn find_vars(&self, stat: &Vec<String>) -> (r: Vec<String>)
        ensures
            r.deep_view() == spec_find_vars(self@.fs, stat.deep_view()),
    {
        let mut vars: Vec<String> = Vec::new();
        let mut i: usize = 0;
        let ghost sv = stat.deep_view();
        assert(vars.deep_view() =~= spec_find_vars(self@.fs, sv.take(0)));
        while i < stat.len()
            invariant
                0 <= i <= stat.len(),
                sv == stat.deep_view(),
                vars.deep_view() == spec_find_vars(self@.fs, sv.take(i as int)),
            decreases stat.len() - i,
        {
            assert(sv.take(i + 1).drop_last() =~= sv.take(i as int));
            assert(sv.take(i + 1).last() == sv[i as int]);
            if !crate::text::stmt_contains(&vars, &stat[i]) && self.fs.lookup_v(&stat[i]) {
                let ghost before = vars.deep_view();
                let t = stat[i].clone();
                vars.push(t);
                assert(vars.deep_view() =~= before.push(t@));
            }
            i = i + 1;
        }
        assert(sv.take(i as int) =~= sv);
        vars
    }

    /// The substitution read off `stack` for the floating hypotheses `fh`,
    /// whose entries start at position `sp`.
    fn take_float_subst(&self, fh: &Vec<(String, String)>, stack: &Vec<Vec<String>>, sp: usize) -> (r:
        Result<Vec<(String, Vec<String>)>, MmError>)
        requires
            sp + fh.len() <= stack.len(),
        ensures
            match r {
                Ok(s) => float_subst(fh.deep_view(), stack.deep_view(), sp as int) == Ok::<
                    SubstView,
                    MmError,
                >(s.deep_view()),
                Err(e) => float_subst(fh.deep_view(), stack.deep_view(), sp as int) == Err::<
                    SubstView,
                    MmError,
                >(e),
            },
    {
        let ghost fv = fh.deep_view();
        let ghost sv = stack.deep_view();
        let mut subst: Vec<(String, Vec<String>)> = Vec::new();
        let mut i: usize = 0;
        assert(fv.take(0) =~= Seq::<(Tok, Tok)>::empty());
        assert(subst.deep_view() =~= seq![]);
        while i < fh.len()
            invariant
                0 <= i <= fh.len(),
                sp + fh.len() <= stack.len(),
                fv == fh.deep_view(),
                sv == stack.deep_view(),
                float_subst(fv.take(i as int), sv, sp as int) == Ok::<SubstView, MmError>(
                    subst.deep_view(),
                ),
            decreases fh.len() - i,
        {
            assert(fv.take(i + 1).drop_last() =~= fv.take(i as int));
            assert(fv.take(i + 1).last() == fv[i as int]);
            let entry = &stack[sp + i];
            if entry.len() == 0 || !(entry[0] == fh[i].0) {
                proof {
                    lemma_float_subst_err(fv, sv, sp as int, i + 1);
                }
                return Err(MmError::FloatMismatch);
            }
            let tail = stmt_tail(entry);
            let ghost s0 = subst.deep_view();
            match find_tok_key(&subst, &fh[i].1) {
                Some(k) => {
                    proof {
                        lemma_key_index(s0, fv[i as int].1);
                    }
                    subst.set(k, (fh[i].1.clone(), tail));
                    assert(subst.deep_view() =~= s0.update(
                        k as int,
                        (fv[i as int].1, sv[sp + i].drop_first()),
                    ));
                },
                None => {
                    subst.push((fh[i].1.clone(), tail));
                    assert(subst.deep_view() =~= s0.push((fv[i as int].1, sv[sp + i].drop_first())));
                },
            }
            i = i + 1;
        }
        assert(fv.take(i as int) =~= fv);
        Ok(subst)
    }

    /// Whether each variable of `xs` is distinct from, and declared disjoint
    /// from, each variable of `ys`.
    fn disjoint_ok(&self, xs: &Vec<String>, ys: &Vec<String>) -> (r: bool)
        ensures
            r == dv_ok(self@.fs, xs.deep_view(), ys.deep_view()),
    {
        let ghost xv = xs.deep_view();
        let ghost yv = ys.deep_view();
        let mut i: usize = 0;
        while i < xs.len()
            invariant
                0 <= i <= xs.len(),
                xv == xs.deep_view(),
                yv == ys.deep_view(),
                forall|a: int, b: int|
                    0 <= a < i && 0 <= b < yv.len() ==> #[trigger] xv[a] != #[trigger] yv[b]
                        && is_disjoint(self@.fs, xv[a], yv[b]),
            decreases xs.len() - i,
        {
            let mut j: usize = 0;
            while j < ys.len()
                invariant
                    0 <= i < xs.len(),
                    0 <= j <= ys.len(),
                    xv == xs.deep_view(),
                    yv == ys.deep_view(),
                    forall|a: int, b: int|
                        0 <= a < i && 0 <= b < yv.len() ==> #[trigger] xv[a] != #[trigger] yv[b]
                            && is_disjoint(self@.fs, xv[a], yv[b]),
                    forall|b: int|
                        0 <= b < j ==> xv[i as int] != #[trigger] yv[b] && is_disjoint(
                            self@.fs,
                            xv[i as int],
                            yv[b],
                        ),
                decreases ys.len() - j,
            {
                if xs[i] == ys[j] || !self.fs.lookup_d(&xs[i], &ys[j]) {
                    assert(!(xv[i as int] != yv[j as int] && is_disjoint(
                        self@.fs,
                        xv[i as int],
                        yv[j as int],
                    )));
                    return false;
                }
                j = j + 1;
            }
            i = i + 1;
        }
        true
    }

    /// Matches the essential hypotheses `hyps`, after substitution, against
    /// the stack entries from position `sp` on.
    fn match_hyps(
        &self,
        hyps: &Vec<Vec<String>>,
        stack: &Vec<Vec<String>>,
        sp: usize,
        subst: &Vec<(String, Vec<String>)>,
    ) -> (r: Result<(), MmError>)
        ensures
            r == check_hyps(hyps.deep_view(), stack.deep_view(), sp as int, subst.deep_view()),
            r is Ok && hyps.len() > 0 ==> sp + hyps.len() <= stack.len(),
    {
        let ghost hv = hyps.deep_view();
        let ghost sv = stack.deep_view();
        let mut k: usize = 0;
        assert(hv.skip(0) =~= hv);
        while k < hyps.len()
            invariant
                0 <= k <= hyps.len(),
                hv == hyps.deep_view(),
                sv == stack.deep_view(),
                k > 0 ==> sp + k <= stack.len(),
                check_hyps(hv, sv, sp as int, subst.deep_view()) == check_hyps(
                    hv.skip(k as int),
                    sv,
                    sp + k,
                    subst.deep_view(),
                ),
            decreases hyps.len() - k,
        {
            assert(hv.skip(k as int)[0] == hv[k as int]);
            assert(hv.skip(k as int).drop_first() =~= hv.skip(k + 1));
            if sp >= stack.len() || k >= stack.len() - sp {
                return Err(MmError::StackUnderflow);
            }
            let h = self.apply_subst(&hyps[k], subst);
            if !stmt_eq(&stack[sp + k], &h) {
                return Err(MmError::HypothesisMismatch);
            }
            k = k + 1;
        }
        assert(hv.skip(k as int) =~= Seq::<Seq<Tok>>::empty());
        Ok(())
    }

    /// Runs one proof step on `stack`.
    fn step(&self, label: &String, stack: &mut Vec<Vec<String>>) -> (r: Result<(), MmError>)
        ensures
            match proof_step(self@.fs, self@.labels, label@, old(stack).deep_view()) {
                Ok(st) => r is Ok && final(stack).deep_view() == st,
                Err(e) => r == Err::<(), MmError>(e),
            },
    {
        let idx = match find_tok_key(&self.labels, label) {
            None => {
                return Err(MmError::UnknownLabel);
            },
            Some(i) => i,
        };
        proof {
            lemma_key_index(self.labels.deep_view(), label@);
        }
        match &self.labels[idx].1.1 {
            LabelData::Ef(x) => {
                let ghost before = stack.deep_view();
                let t = clone_stmt(x);
                stack.push(t);
                assert(stack.deep_view() =~= before.push(x.deep_view()));
                Ok(())
            },
            LabelData::Ap(a) => {
                let ghost av = a.deep_view();
                let ghost fs = self@.fs;
                let nf = a.f_hyps.len();
                let ne = a.e_hyps.len();
                if stack.len() < nf || stack.len() - nf < ne {
                    return Err(MmError::StackUnderflow);
                }
                let npop = nf + ne;
                let sp = stack.len() - npop;
                let subst = match self.take_float_subst(&a.f_hyps, stack, sp) {
                    Err(e) => {
                        return Err(e);
                    },
                    Ok(s) => s,
                };
                let ghost sb = subst.deep_view();
                let ghost st0 = stack.deep_view();
                let ghost rest = match dv_check(fs, av.dvs, sb) {
                    Err(e) => Err(e),
                    Ok(_) => match check_hyps(av.e_hyps, st0, sp + nf, sb) {
                        Err(e) => Err(e),
                        Ok(_) => Ok(st0.take(sp as int).push(spec_apply_subst(av.stat, sb))),
                    },
                };
                assert(proof_step(fs, self@.labels, label@, st0) == rest);
                let mut di: usize = 0;
                assert(av.dvs.skip(0) =~= av.dvs);
                while di < a.dvs.len()
                    invariant
                        0 <= di <= a.dvs.len(),
                        av == a.deep_view(),
                        fs == self@.fs,
                        sb == subst.deep_view(),
                        st0 == stack.deep_view(),
                        st0 == old(stack).deep_view(),
                        sp + nf + ne == st0.len(),
                        float_subst(av.f_hyps, st0, sp as int) == Ok::<SubstView, MmError>(sb),
                        proof_step(fs, self@.labels, label@, st0) == rest,
                        rest == match dv_check(fs, av.dvs, sb) {
                            Err(e) => Err(e),
                            Ok(_) => match check_hyps(av.e_hyps, st0, sp + nf, sb) {
                                Err(e) => Err(e),
                                Ok(_) => Ok(st0.take(sp as int).push(spec_apply_subst(av.stat, sb))),
                            },
                        },
                        dv_check(fs, av.dvs, sb) == dv_check(fs, av.dvs.skip(di as int), sb),
                    decreases a.dvs.len() - di,
                {
                    assert(av.dvs.skip(di as int)[0] == av.dvs[di as int]);
                    assert(av.dvs.skip(di as int).drop_first() =~= av.dvs.skip(di + 1));
                    let kx = find_tok_key(&subst, &a.dvs[di].0);
                    let ky = find_tok_key(&subst, &a.dvs[di].1);
                    if kx.is_none() || ky.is_none() {
                        assert(map_get(sb, av.dvs[di as int].0) is None || map_get(
                            sb,
                            av.dvs[di as int].1,
                        ) is None);
                        return Err(MmError::SubstitutionMissing);
                    }
                    let ix = kx.unwrap();
                    let iy = ky.unwrap();
                    proof {
                        lemma_key_index(sb, av.dvs[di as int].0);
                        lemma_key_index(sb, av.dvs[di as int].1);
                    }
                    let xv = self.find_vars(&subst[ix].1);
                    let yv = self.find_vars(&subst[iy].1);
                    assert(map_get(sb, av.dvs[di as int].0) == Some(subst[ix as int].1.deep_view()));
                    assert(map_get(sb, av.dvs[di as int].1) == Some(subst[iy as int].1.deep_view()));
                    if !self.disjoint_ok(&xv, &yv) {
                        return Err(MmError::DisjointViolation);
                    }
                    di = di + 1;
                }
                assert(av.dvs.skip(di as int) =~= Seq::<(Tok, Tok)>::empty());
                match self.match_hyps(&a.e_hyps, stack, sp + nf, &subst) {
                    Err(e) => {
                        return Err(e);
                    },
                    Ok(()) => {},
                }
                let ghost before = stack.deep_view();
                stack.truncate(sp);
                let res = self.apply_subst(&a.stat, &subst);
                stack.push(res);
                assert(stack.deep_view() =~= before.take(sp as int).push(spec_apply_subst(av.stat, sb)));
                Ok(())
            },
        }
    }

    /// Runs the proof steps `steps` from an empty stack.
    fn run_proof(&self, steps: &Vec<String>) -> (r: Result<Vec<Vec<String>>, MmError>)
        ensures
            match r {
                Ok(st) => run_steps(self@.fs, self@.labels, steps.deep_view(), seq![]) == Ok::<
                    Seq<Seq<Tok>>,
                    MmError,
                >(st.deep_view()),
                Err(e) => run_steps(self@.fs, self@.labels, steps.deep_view(), seq![]) == Err::<
                    Seq<Seq<Tok>>,
                    MmError,
                >(e),
            },
    {
        let ghost pv = steps.deep_view();
        let mut stack: Vec<Vec<String>> = Vec::new();
        let mut i: usize = 0;
        assert(pv.skip(0) =~= pv);
        assert(stack.deep_view() =~= Seq::<Seq<Tok>>::empty());
        while i < steps.len()
            invariant
                0 <= i <= steps.len(),
                pv == steps.deep_view(),
                run_steps(self@.fs, self@.labels, pv, seq![]) == run_steps(
                    self@.fs,
                    self@.labels,
                    pv.skip(i as int),
                    stack.deep_view(),
                ),
            decreases steps.len() - i,
        {
            assert(pv.skip(i as int)[0] == pv[i as int]);
            assert(pv.skip(i as int).drop_first() =~= pv.skip(i + 1));
            match self.step(&steps[i], &mut stack) {
                Err(e) => {
                    return Err(e);
                },
                Ok(()) => {},
            }
            i = i + 1;
        }
        assert(pv.skip(i as int) =~= Seq::<Tok>::empty());
        Ok(stack)
    }
}

/// Once a prefix of the floating hypotheses fails, the whole list fails the same way.
proof fn lemma_float_subst_err(fh: Seq<(Tok, Tok)>, stack: Seq<Seq<Tok>>, sp: int, m: int)
    requires
        0 <= m <= fh.len(),
        float_subst(fh.take(m), stack, sp) is Err,
    ensures
        float_subst(fh, stack, sp) == float_subst(fh.take(m), stack, sp),
    decreases fh.len(),
{
    if m < fh.len() {
        assert(fh.drop_last().take(m) =~= fh.take(m));
        lemma_float_subst_err(fh.drop_last(), stack, sp, m);
    } else {
        assert(fh.take(m) =~= fh);
    }
}

/// A missing floating-hypothesis label in a prefix makes the whole list fail.
proof fn lemma_f_hyp_labels_none(fs: Seq<FrameView>, fh: Seq<(Tok, Tok)>, m: int)
    requires
        0 <= m <= fh.len(),
        f_hyp_labels(fs, fh.take(m)) is None,
    ensures
        f_hyp_labels(fs, fh) is None,
    decreases fh.len(),
{
    if m < fh.len() {
        assert(fh.drop_last().take(m) =~= fh.take(m));
        lemma_f_hyp_labels_none(fs, fh.drop_last(), m);
    } else {
        assert(fh.take(m) =~= fh);
    }
}

/// A missing essential-hypothesis label in a prefix makes the whole list fail.
proof fn lemma_e_hyp_labels_none(fs: Seq<FrameView>, es: Seq<Seq<Tok>>, m: int)
    requires
        0 <= m <= es.len(),
        e_hyp_labels(fs, es.take(m)) is None,
    ensures
        e_hyp_labels(fs, es) is None,
    decreases es.len(),
{
    if m < es.len() {
        assert(es.drop_last().take(m) =~= es.take(m));
        lemma_e_hyp_labels_none(fs, es.drop_last(), m);
    } else {
        assert(es.take(m) =~= es);
    }
}

/// A found position is in range and holds the token; no earlier one does.
pub proof fn lemma_first_index(s: Seq<Tok>, t: Tok)
    ensures
        -1 <= first_index(s, t) < s.len(),
        first_index(s, t) >= 0 ==> s[first_index(s, t)] == t,
    decreases s.len(),
{
    if s.len() > 0 {
        lemma_first_index(s.drop_last(), t);
    }
}

/// A token found in a prefix is found at the same place in the whole sequence.
proof fn lemma_first_index_prefix(s: Seq<Tok>, m: int, t: Tok)
    requires
        0 <= m <= s.len(),
        first_index(s.take(m), t) >= 0,
    ensures
        first_index(s, t) == first_index(s.take(m), t),
    decreases s.len(),
{
    if m < s.len() {
        assert(s.drop_last().take(m) =~= s.take(m));
        lemma_first_index_prefix(s.drop_last(), m, t);
    } else {
        assert(s.take(m) =~= s);
    }
}

/// A failure while reading a prefix of a compressed proof is the failure of the whole.
proof fn lemma_parse_ints_err(cs: Seq<char>, m: int)
    requires
        0 <= m <= cs.len(),
        parse_ints(cs.take(m)) is Err,
    ensures
        parse_ints(cs) == parse_ints(cs.take(m)),
    decreases cs.len(),
{
    if m < cs.len() {
        assert(cs.drop_last().take(m) =~= cs.take(m));
        lemma_parse_ints_err(cs.drop_last(), m);
    } else {
        assert(cs.take(m) =~= cs);
    }
}

/// A failure while decompressing a prefix is the failure of the whole.
proof fn lemma_run_dec_err(labels: LabelsView, labs: Seq<Tok>, hyp_end: int, ints: Seq<i32>, m: int)
    requires
        0 <= m <= ints.len(),
        run_dec(labels, labs, hyp_end, ints.take(m)) is Err,
    ensures
        run_dec(labels, labs, hyp_end, ints) == run_dec(labels, labs, hyp_end, ints.take(m)),
    decreases ints.len(),
{
    if m < ints.len() {
        assert(ints.drop_last().take(m) =~= ints.take(m));
        lemma_run_dec_err(labels, labs, hyp_end, ints.drop_last(), m);
    } else {
        assert(ints.take(m) =~= ints);
    }
}

/// The view of a vector of number sequences.
pub open spec fn ints_view(v: Vec<Vec<i32>>) -> Seq<Seq<i32>> {
    v@.map_values(|x: Vec<i32>| x@)
}

/// Whether all numbers of `s` are positions below `n`.
pub open spec fn ints_below(s: Seq<i32>, n: int) -> bool {
    forall|k: int| 0 <= k < s.len() ==> 0 <= #[trigger] s[k] < n
}

/// Whether all numbers of all sequences of `ss` are positions below `n`.
pub open spec fn all_ints_below(ss: Seq<Seq<i32>>, n: int) -> bool {
    forall|k: int| 0 <= k < ss.len() ==> ints_below(#[trigger] ss[k], n)
}

/// Joining sequences of positions below `n` gives positions below `n`.
pub proof fn lemma_flatten_ints_below(ss: Seq<Seq<i32>>, n: int)
    requires
        all_ints_below(ss, n),
    ensures
        ints_below(flatten_ints(ss), n),
    decreases ss.len(),
{
    if ss.len() > 0 {
        assert(all_ints_below(ss.drop_last(), n)) by {
            assert forall|k: int| 0 <= k < ss.drop_last().len() implies ints_below(
                #[trigger] ss.drop_last()[k],
                n,
            ) by {
                assert(ss.drop_last()[k] == ss[k]);
            }
        }
        lemma_flatten_ints_below(ss.drop_last(), n);
        assert(ints_below(ss[ss.len() - 1], n));
    }
}

/// A copy of a sequence of numbers.
fn clone_ints(v: &Vec<i32>) -> (r: Vec<i32>)
    ensures
        r@ == v@,
{
    let mut r: Vec<i32> = Vec::new();
    let mut i: usize = 0;
    while i < v.len()
        invariant
            0 <= i <= v.len(),
            r@ =~= v@.take(i as int),
        decreases v.len() - i,
    {
        r.push(v[i]);
        i = i + 1;
    }
    assert(v@.take(i as int) =~= v@);
    r
}

/// The one-number sequence of `x`.
fn single_int(x: i32) -> (r: Vec<i32>)
    ensures
        r@ == seq![x],
{
    let mut r: Vec<i32> = Vec::new();
    r.push(x);
    assert(r@ =~= seq![x]);
    r
}

/// The first position of the token `t` in `stmt`.
fn find_token(stmt: &Vec<String>, t: &String) -> (r: Option<usize>)
    ensures
        match r {
            Some(i) => first_index(stmt.deep_view(), t@) == i as int,
            None => first_index(stmt.deep_view(), t@) == -1,
        },
{
    let ghost pv = stmt.deep_view();
    let mut i: usize = 0;
    while i < stmt.len()
        invariant
            0 <= i <= stmt.len(),
            pv == stmt.deep_view(),
            first_index(pv.take(i as int), t@) == -1,
        decreases stmt.len() - i,
    {
        assert(pv.take(i + 1).drop_last() =~= pv.take(i as int));
        if stmt[i] == *t {
            proof {
                lemma_first_index_prefix(pv, i + 1, t@);
            }
            return Some(i);
        }
        i = i + 1;
    }
    assert(pv.take(i as int) =~= pv);
    None
}

/// The characters of the tokens of `proof` from position `from` on, joined.
fn join_from(proof: &Vec<String>, from: usize) -> (r: Vec<char>)
    requires
        from <= proof.len(),
    ensures
        r@ == join_chars(proof.deep_view().skip(from as int)),
{
    let ghost pv = proof.deep_view();
    let mut r: Vec<char> = Vec::new();
    let mut i: usize = from;
    assert(pv.subrange(from as int, from as int) =~= Seq::<Tok>::empty());
    while i < proof.len()
        invariant
            from <= i <= proof.len(),
            pv == proof.deep_view(),
            r@ == join_chars(pv.subrange(from as int, i as int)),
        decreases proof.len() - i,
    {
        let cs = chars_of(&proof[i]);
        let ghost r0 = r@;
        let mut j: usize = 0;
        assert(r0 + cs@.take(0) =~= r0);
        while j < cs.len()
            invariant
                0 <= j <= cs.len(),
                r@ == r0 + cs@.take(j as int),
            decreases cs.len() - j,
        {
            r.push(cs[j]);
            assert(cs@.take(j + 1) =~= cs@.take(j as int).push(cs@[j as int]));
            assert(r@ =~= r0 + cs@.take(j + 1));
            j = j + 1;
        }
        assert(cs@.take(j as int) =~= cs@);
        assert(pv.subrange(from as int, i + 1).drop_last() =~= pv.subrange(from as int, i as int));
        assert(pv.subrange(from as int, i + 1).last() == pv[i as int]);
        i = i + 1;
    }
    assert(pv.subrange(from as int, i as int) =~= pv.skip(from as int));
    r
}

/// Reads the letters of a compressed proof as numbers.
fn parse_compressed(cs: &Vec<char>) -> (r: Result<Vec<i32>, MmError>)
    ensures
        match r {
            Ok(v) => parse_ints(cs@) is Ok && parse_ints(cs@).unwrap().0 == v@ && forall|k: int|
                0 <= k < v@.len() ==> v@[k] >= -1,
            Err(e) => parse_ints(cs@) == Err::<(Seq<i32>, int), MmError>(e),
        },
{
    let mut ints: Vec<i32> = Vec::new();
    let mut cur: i32 = 0;
    let mut i: usize = 0;
    assert(cs@.take(0) =~= Seq::<char>::empty());
    assert(ints@ =~= Seq::<i32>::empty());
    while i < cs.len()
        invariant
            0 <= i <= cs.len(),
            0 <= cur,
            parse_ints(cs@.take(i as int)) == Ok::<(Seq<i32>, int), MmError>((ints@, cur as int)),
            forall|k: int| 0 <= k < ints@.len() ==> ints@[k] >= -1,
        decreases cs.len() - i,
    {
        assert(cs@.take(i + 1).drop_last() =~= cs@.take(i as int));
        assert(cs@.take(i + 1).last() == cs@[i as int]);
        let ch = cs[i];
        let n = ch as u32;
        if ch == 'Z' {
            ints.push(-1);
        } else if 65 <= n && n <= 84 {
            let v: i64 = 20 * (cur as i64) + ((n - 65 + 1) as i64);
            if v > 0x7fff_ffff {
                proof {
                    lemma_parse_ints_err(cs@, i + 1);
                }
                return Err(MmError::CompressedOverflow);
            }
            ints.push((v - 1) as i32);
            cur = 0;
        } else if 85 <= n && n <= 89 {
            let v: i64 = 5 * (cur as i64) + ((n - 85 + 1) as i64);
            if v > 0x7fff_ffff {
                proof {
                    lemma_parse_ints_err(cs@, i + 1);
                }
                return Err(MmError::CompressedOverflow);
            }
            cur = v as i32;
        }
        i = i + 1;
    }
    assert(cs@.take(i as int) =~= cs@);
    Ok(ints)
}

impl MM {
    /// The labels of the mandatory hypotheses of `a`: those of its floating
    /// hypotheses, then those of its essential ones.
    fn hyp_labels(&self, a: &Assertion) -> (r: Option<Vec<String>>)
        ensures
            match (
                f_hyp_labels(self@.fs, a.deep_view().f_hyps),
                e_hyp_labels(self@.fs, a.deep_view().e_hyps),
            ) {
                (Some(lf), Some(le)) => r is Some && r.unwrap().deep_view() == lf + le,
                _ => r is None,
            },
    {
        let ghost fs = self@.fs;
        let ghost fh = a.f_hyps.deep_view();
        let ghost eh = a.e_hyps.deep_view();
        let mut out: Vec<String> = Vec::new();
        let mut i: usize = 0;
        assert(fh.take(0) =~= Seq::<(Tok, Tok)>::empty());
        assert(out.deep_view() =~= Seq::<Tok>::empty());
        while i < a.f_hyps.len()
            invariant
                0 <= i <= a.f_hyps.len(),
                fs == self@.fs,
                fh == a.f_hyps.deep_view(),
                f_hyp_labels(fs, fh.take(i as int)) == Some(out.deep_view()),
            decreases a.f_hyps.len() - i,
        {
            assert(fh.take(i + 1).drop_last() =~= fh.take(i as int));
            assert(fh.take(i + 1).last() == fh[i as int]);
            match self.fs.find_f(&a.f_hyps[i].1) {
                None => {
                    proof {
                        lemma_f_hyp_labels_none(fs, fh, i + 1);
                    }
                    return None;
                },
                Some(l) => {
                    let ghost before = out.deep_view();
                    out.push(l);
                    assert(out.deep_view() =~= before.push(l@));
                },
            }
            i = i + 1;
        }
        assert(fh.take(i as int) =~= fh);
        let ghost lf = out.deep_view();
        let mut j: usize = 0;
        assert(eh.take(0) =~= Seq::<Seq<Tok>>::empty());
        assert(lf + Seq::<Tok>::empty() =~= lf);
        while j < a.e_hyps.len()
            invariant
                0 <= j <= a.e_hyps.len(),
                fs == self@.fs,
                eh == a.e_hyps.deep_view(),
                e_hyp_labels(fs, eh.take(j as int)) is Some,
                out.deep_view() == lf + e_hyp_labels(fs, eh.take(j as int)).unwrap(),
            decreases a.e_hyps.len() - j,
        {
            assert(eh.take(j + 1).drop_last() =~= eh.take(j as int));
            assert(eh.take(j + 1).last() == eh[j as int]);
            match self.fs.find_e(&a.e_hyps[j]) {
                None => {
                    proof {
                        lemma_e_hyp_labels_none(fs, eh, j + 1);
                    }
                    return None;
                },
                Some(l) => {
                    let ghost before = out.deep_view();
                    out.push(l);
                    assert(out.deep_view() =~= before.push(l@));
                    assert(lf + e_hyp_labels(fs, eh.take(j + 1)).unwrap() =~= before.push(l@));
                },
            }
            j = j + 1;
        }
        assert(eh.take(j as int) =~= eh);
        Some(out)
    }

    /// Decompresses the numbers `ints` with the labels `labs`, of which the
    /// first `hyp_end` are the mandatory hypotheses.
    fn run_decompress(&self, labs: &Vec<String>, hyp_end: usize, ints: &Vec<i32>) -> (r: Result<
        Vec<i32>,
        MmError,
    >)
        requires
            hyp_end <= labs.len(),
            forall|k: int| 0 <= k < ints@.len() ==> ints@[k] >= -1,
        ensures
            match r {
                Ok(v) => run_dec(self@.labels, labs.deep_view(), hyp_end as int, ints@) is Ok
                    && run_dec(self@.labels, labs.deep_view(), hyp_end as int, ints@).unwrap().ints
                    == v@ && ints_below(v@, labs.len() as int),
                Err(e) => run_dec(self@.labels, labs.deep_view(), hyp_end as int, ints@) == Err::<
                    DecState,
                    MmError,
                >(e),
            },
    {
        let ghost lv = labs.deep_view();
        let ghost n = labs.len() as int;
        let label_end = labs.len();
        let mut out: Vec<i32> = Vec::new();
        let mut subs: Vec<Vec<i32>> = Vec::new();
        let mut prev: Vec<Vec<i32>> = Vec::new();
        let mut i: usize = 0;
        assert(ints@.take(0) =~= Seq::<i32>::empty());
        assert(ints_view(subs) =~= Seq::<Seq<i32>>::empty());
        assert(ints_view(prev) =~= Seq::<Seq<i32>>::empty());
        while i < ints.len()
            invariant
                0 <= i <= ints.len(),
                hyp_end <= labs.len(),
                label_end == labs.len(),
                lv == labs.deep_view(),
                n == labs.len(),
                forall|k: int| 0 <= k < ints@.len() ==> ints@[k] >= -1,
                run_dec(self@.labels, lv, hyp_end as int, ints@.take(i as int)) == Ok::<
                    DecState,
                    MmError,
                >(DecState { ints: out@, subs: ints_view(subs), prev: ints_view(prev) }),
                ints_below(out@, n),
                all_ints_below(ints_view(subs), n),
                all_ints_below(ints_view(prev), n),
            decreases ints.len() - i,
        {
            assert(ints@.take(i + 1).drop_last() =~= ints@.take(i as int));
            assert(ints@.take(i + 1).last() == ints@[i as int]);
            let pf = ints[i];
            let ghost st = DecState { ints: out@, subs: ints_view(subs), prev: ints_view(prev) };
            if pf == -1 {
                if prev.len() == 0 {
                    proof {
                        lemma_run_dec_err(self@.labels, lv, hyp_end as int, ints@, i + 1);
                    }
                    return Err(MmError::CompressedNoStep);
                }
                let last = clone_ints(&prev[prev.len() - 1]);
                let ghost s0 = ints_view(subs);
                subs.push(last);
                assert(ints_view(subs) =~= s0.push(st.prev.last()));
                assert(ints_below(st.prev[st.prev.len() - 1], n));
            } else if 0 <= pf && (pf as usize) < hyp_end {
                let ghost o0 = out@;
                out.push(pf);
                let ghost p0 = ints_view(prev);
                prev.push(single_int(pf));
                assert(ints_view(prev) =~= p0.push(seq![pf]));
                assert(ints_below(seq![pf], n));
                assert(ints_below(o0.push(pf), n));
            } else if hyp_end <= pf as usize && (pf as usize) < label_end {
                let ghost o0 = out@;
                out.push(pf);
                let lab = &labs[pf as usize];
                let idx = match find_tok_key(&self.labels, lab) {
                    None => {
                        proof {
                            lemma_run_dec_err(self@.labels, lv, hyp_end as int, ints@, i + 1);
                        }
                        return Err(MmError::UnknownLabel);
                    },
                    Some(k) => k,
                };
                proof {
                    lemma_key_index(self.labels.deep_view(), lv[pf as int]);
                }
                let ghost p0 = ints_view(prev);
                match &self.labels[idx].1.1 {
                    LabelData::Ap(a) => {
                        let ne = a.e_hyps.len();
                        let nf = a.f_hyps.len();
                        if ne != 0 || nf != 0 {
                            if prev.len() < ne || prev.len() - ne < nf {
                                proof {
                                    lemma_run_dec_err(self@.labels, lv, hyp_end as int, ints@, i + 1);
                                }
                                return Err(MmError::StackUnderflow);
                            }
                            let ni = prev.len() - ne - nf;
                            let mut np: Vec<i32> = Vec::new();
                            let mut k: usize = ni;
                            assert(p0.subrange(ni as int, ni as int) =~= Seq::<Seq<i32>>::empty());
                            while k < prev.len()
                                invariant
                                    ni <= k <= prev.len(),
                                    p0 == ints_view(prev),
                                    np@ == flatten_ints(p0.subrange(ni as int, k as int)),
                                decreases prev.len() - k,
                            {
                                let ghost q0 = np@;
                                let mut m: usize = 0;
                                assert(q0 + prev[k as int]@.take(0) =~= q0);
                                while m < prev[k].len()
                                    invariant
                                        ni <= k < prev.len(),
                                        0 <= m <= prev[k as int].len(),
                                        np@ == q0 + prev[k as int]@.take(m as int),
                                    decreases prev[k as int].len() - m,
                                {
                                    np.push(prev[k][m]);
                                    assert(prev[k as int]@.take(m + 1) =~= prev[k as int]@.take(
                                        m as int,
                                    ).push(prev[k as int]@[m as int]));
                                    assert(np@ =~= q0 + prev[k as int]@.take(m + 1));
                                    m = m + 1;
                                }
                                assert(prev[k as int]@.take(m as int) =~= prev[k as int]@);
                                assert(p0.subrange(ni as int, k + 1).drop_last() =~= p0.subrange(
                                    ni as int,
                                    k as int,
                                ));
                                assert(p0.subrange(ni as int, k + 1).last() == p0[k as int]);
                                k = k + 1;
                            }
                            assert(p0.subrange(ni as int, k as int) =~= p0.skip(ni as int));
                            proof {
                                assert(all_ints_below(p0.skip(ni as int), n)) by {
                                    assert forall|q: int| 0 <= q < p0.skip(ni as int).len() implies ints_below(
                                        #[trigger] p0.skip(ni as int)[q],
                                        n,
                                    ) by {
                                        assert(p0.skip(ni as int)[q] == p0[ni + q]);
                                    }
                                }
                                lemma_flatten_ints_below(p0.skip(ni as int), n);
                            }
                            let ghost flat = np@;
                            np.push(pf);
                            prev.truncate(ni);
                            let ghost p1 = ints_view(prev);
                            assert(p1 =~= p0.take(ni as int));
                            prev.push(np);
                            assert(ints_view(prev) =~= p0.take(ni as int).push(flat.push(pf)));
                            assert(ints_below(flat.push(pf), n));
                        } else {
                            prev.push(single_int(pf));
                            assert(ints_view(prev) =~= p0.push(seq![pf]));
                            assert(ints_below(seq![pf], n));
                        }
                    },
                    LabelData::Ef(_) => {
                        prev.push(single_int(pf));
                        assert(ints_view(prev) =~= p0.push(seq![pf]));
                        assert(ints_below(seq![pf], n));
                    },
                }
                assert(out@ =~= o0.push(pf));
            } else if label_end <= pf as usize {
                let j = pf as usize - label_end;
                if j >= subs.len() {
                    proof {
                        lemma_run_dec_err(self@.labels, lv, hyp_end as int, ints@, i + 1);
                    }
                    return Err(MmError::CompressedBadReference);
                }
                let sp = clone_ints(&subs[j]);
                let ghost o0 = out@;
                let mut m: usize = 0;
                assert(o0 + sp@.take(0) =~= o0);
                assert(ints_below(sp@, n));
                while m < sp.len()
                    invariant
                        0 <= m <= sp.len(),
                        out@ == o0 + sp@.take(m as int),
                        ints_below(o0, n),
                        ints_below(sp@, n),
                        ints_below(out@, n),
                    decreases sp.len() - m,
                {
                    out.push(sp[m]);
                    assert(sp@.take(m + 1) =~= sp@.take(m as int).push(sp@[m as int]));
                    assert(out@ =~= o0 + sp@.take(m + 1));
                    m = m + 1;
                }
                assert(sp@.take(m as int) =~= sp@);
                let ghost p0 = ints_view(prev);
                prev.push(sp);
                assert(ints_view(prev) =~= p0.push(st.subs[j as int]));
            }
            i = i + 1;
        }
        assert(ints@.take(i as int) =~= ints@);
        Ok(out)
    }

    /// The proof steps of the compressed proof `proof` of `stat`, which must
    /// be well formed (see `try_decompress_proof`).
    pub fn decompress_proof(&self, stat: Vec<String>, proof: Vec<String>) -> (r: Vec<String>)
        requires
            self@.fs.len() > 0,
            !(proof.len() > 0 && proof.deep_view()[0] == close_paren()),
            spec_decompress(self@.fs, self@.labels, stat.deep_view(), proof.deep_view()) is Ok,
        ensures
            spec_decompress(self@.fs, self@.labels, stat.deep_view(), proof.deep_view()) == Ok::<
                Seq<Tok>,
                MmError,
            >(r.deep_view()),
    {
        match self.try_decompress_proof(stat, proof) {
            Ok(v) => v,
            Err(_) => Vec::new(),
        }
    }

    /// The proof steps of the compressed proof `proof` of `stat`. A malformed
    /// compressed proof is not decoded: the error says what is wrong with it.
    pub fn try_decompress_proof(&self, stat: Vec<String>, proof: Vec<String>) -> (r: Result<
        Vec<String>,
        MmError,
    >)
        requires
            self@.fs.len() > 0,
            !(proof.len() > 0 && proof.deep_view()[0] == close_paren()),
        ensures
            match r {
                Ok(v) => spec_decompress(self@.fs, self@.labels, stat.deep_view(), proof.deep_view())
                    == Ok::<Seq<Tok>, MmError>(v.deep_view()),
                Err(e) => spec_decompress(self@.fs, self@.labels, stat.deep_view(), proof.deep_view())
                    == Err::<Seq<Tok>, MmError>(e),
            },
    {
        let ghost pv = proof.deep_view();
        let a = self.fs.make_assertion(stat);
        let mut labs = match self.hyp_labels(&a) {
            None => {
                return Err(MmError::HypothesisLabel);
            },
            Some(l) => l,
        };
        let hyp_end = labs.len();
        let ghost hl = labs.deep_view();
        let ep = match find_token(&proof, &crate::text::token1(')')) {
            None => {
                return Err(MmError::CompressedNoParen);
            },
            Some(e) => e,
        };
        proof {
            lemma_first_index(pv, close_paren());
            if ep == 0 {
                assert(pv[0] == close_paren());
            }
        }
        let mut i: usize = 1;
        assert(hl + pv.subrange(1, 1) =~= hl);
        while i < ep
            invariant
                1 <= i <= ep,
                ep < proof.len(),
                pv == proof.deep_view(),
                labs.deep_view() == hl + pv.subrange(1, i as int),
            decreases ep - i,
        {
            let t = proof[i].clone();
            assert(t@ == pv[i as int]);
            let ghost before = labs.deep_view();
            labs.push(t);
            assert(labs.deep_view() =~= before.push(pv[i as int]));
            assert(pv.subrange(1, i + 1) =~= pv.subrange(1, i as int).push(pv[i as int]));
            assert(labs.deep_view() =~= hl + pv.subrange(1, i + 1));
            i = i + 1;
        }
        let cs = join_from(&proof, ep + 1);
        let ints = match parse_compressed(&cs) {
            Err(e) => {
                return Err(e);
            },
            Ok(v) => v,
        };
        let steps = match self.run_decompress(&labs, hyp_end, &ints) {
            Err(e) => {
                return Err(e);
            },
            Ok(v) => v,
        };
        let ghost lv = labs.deep_view();
        let mut out: Vec<String> = Vec::new();
        let mut k: usize = 0;
        assert(out.deep_view() =~= steps@.take(0).map_values(|x: i32| lv[x as int]));
        while k < steps.len()
            invariant
                0 <= k <= steps.len(),
                lv == labs.deep_view(),
                ints_below(steps@, labs.len() as int),
                out.deep_view() == steps@.take(k as int).map_values(|x: i32| lv[x as int]),
            decreases steps.len() - k,
        {
            assert(0 <= steps@[k as int] < labs.len());
            let t = labs[steps[k] as usize].clone();
            assert(t@ == lv[steps@[k as int] as int]);
            let ghost before = out.deep_view();
            out.push(t);
            assert(out.deep_view() =~= before.push(t@));
            assert(steps@.take(k + 1) =~= steps@.take(k as int).push(steps@[k as int]));
            assert(out.deep_view() =~= steps@.take(k + 1).map_values(|x: i32| lv[x as int]));
            k = k + 1;
        }
        assert(steps@.take(k as int) =~= steps@);
        Ok(out)
    }

    /// Checks the proof `proof` of the statement `stat`, labelled
    /// `stat_label`, which must be valid: `try_verify` is for a proof that may
    /// not be.
    pub fn verify(&self, stat_label: String, stat: Vec<String>, proof: Vec<String>)
        requires
            stat.len() > 0 && proof.len() > 0 && proof.deep_view()[0] == open_paren() ==> self@.fs.len()
                > 0,
            spec_verify(self@.fs, self@.labels, stat.deep_view(), proof.deep_view()) is Ok,
    {
        let _ = self.try_verify(stat_label, stat, proof);
    }

    /// Checks the proof `proof` of the statement `stat`, labelled `stat_label`.
    /// `Ok` exactly when the proof is valid; otherwise the error names the
    /// first check that fails, as `spec_verify` states.
    pub fn try_verify(&self, stat_label: String, stat: Vec<String>, proof: Vec<String>) -> (r: Result<
        (),
        MmError,
    >)
        requires
            stat.len() > 0 && proof.len() > 0 && proof.deep_view()[0] == open_paren() ==> self@.fs.len()
                > 0,
        ensures
            r == spec_verify(self@.fs, self@.labels, stat.deep_view(), proof.deep_view()),
    {
        if stat.len() == 0 || proof.len() == 0 {
            return Err(MmError::EmptyStatement);
        }
        let ghost sv = stat.deep_view();
        let steps = if is_token1(&proof[0], '(') {
            assert(proof.deep_view()[0] == open_paren());
            assert(open_paren()[0] != close_paren()[0]);
            match self.try_decompress_proof(clone_stmt(&stat), proof) {
                Err(e) => {
                    return Err(e);
                },
                Ok(s) => s,
            }
        } else {
            proof
        };
        let stack = match self.run_proof(&steps) {
            Err(e) => {
                return Err(e);
            },
            Ok(s) => s,
        };
        if stack.len() != 1 {
            return Err(MmError::StackSize);
        }
        if !stmt_eq(&stack[0], &stat) {
            return Err(MmError::WrongConclusion);
        }
        Ok(())
    }
}

/// Whether every label that `a` defines is defined in `b`.
pub open spec fn labels_kept(a: LabelsView, b: LabelsView) -> bool {
    forall|k: Tok| #[trigger] map_get(a, k) is Some ==> map_get(b, k) is Some
}

/// How reading a database ended, when nothing went wrong.
#[derive(Debug, Clone, Copy, PartialEq, Eq, Structural)]
pub enum ReadOutcome {
    /// The input, or the current block, ended.
    Finished,
    /// The statement labelled with the stop label was reached.
    Stopped,
}

/// The outcome of reading one statement: go on with the next token, with
/// the reader's state, pending label and stream; or stop with a result.
pub enum Step {
    Next(MMView, Option<Tok>, StreamState),
    Stop(Result<ReadOutcome, MmError>, MMView, StreamState),
}

/// The reader's state with other scopes.
pub open spec fn with_fs(mm: MMView, fs: Seq<FrameView>) -> MMView {
    MMView { fs, ..mm }
}

/// The reader's state with its innermost scope closed.
pub open spec fn pop_frame(mm: MMView) -> MMView {
    MMView { fs: mm.fs.drop_last(), ..mm }
}

/// Declaring the constants `toks` one after the other.
pub open spec fn add_all_c(fs: Seq<FrameView>, toks: Seq<Tok>) -> Result<Seq<FrameView>, MmError>
    decreases toks.len(),
{
    if toks.len() == 0 {
        Ok(fs)
    } else {
        match add_all_c(fs, toks.drop_last()) {
            Err(e) => Err(e),
            Ok(f) => spec_add_c(f, toks.last()),
        }
    }
}

/// Declaring the variables `toks` one after the other.
pub open spec fn add_all_v(fs: Seq<FrameView>, toks: Seq<Tok>) -> Result<Seq<FrameView>, MmError>
    decreases toks.len(),
{
    if toks.len() == 0 {
        Ok(fs)
    } else {
        match add_all_v(fs, toks.drop_last()) {
            Err(e) => Err(e),
            Ok(f) => spec_add_v(f, toks.last()),
        }
    }
}

/// The reader's state with `label` standing for `kind` and `data`.
pub open spec fn with_label(mm: MMView, label: Tok, kind: Tok, data: LabelDataView) -> MMView {
    MMView { labels: map_put(mm.labels, label, (kind, data)), ..mm }
}

/// Reading the statement that starts with the keyword or label `t`, with the
/// pending label `label`; `${` and `$}` are handled by the block reader.
pub open spec fn spec_step(mm: MMView, label: Option<Tok>, t: Tok, ts: StreamState) -> Step {
    if t == seq!['$', 'c'] {
        let (r, s) = spec_readstat(ts);
        match r {
            Err(e) => Step::Stop(Err(e), mm, s),
            Ok(stat) => match add_all_c(mm.fs, stat) {
                Err(e) => Step::Stop(Err(e), mm, s),
                Ok(fs) => Step::Next(with_fs(mm, fs), label, s),
            },
        }
    } else if t == seq!['$', 'v'] {
        let (r, s) = spec_readstat(ts);
        match r {
            Err(e) => Step::Stop(Err(e), mm, s),
            Ok(stat) => match add_all_v(mm.fs, stat) {
                Err(e) => Step::Stop(Err(e), mm, s),
                Ok(fs) => Step::Next(with_fs(mm, fs), label, s),
            },
        }
    } else if t == seq!['$', 'f'] {
        let (r, s) = spec_readstat(ts);
        match r {
            Err(e) => Step::Stop(Err(e), mm, s),
            Ok(stat) => match label {
                None => Step::Stop(Err(MmError::LabelMissing), mm, s),
                Some(l) => if stat.len() != 2 {
                    Step::Stop(Err(MmError::FloatLength), mm, s)
                } else {
                    match spec_add_f(mm.fs, stat[1], stat[0], l) {
                        Err(e) => Step::Stop(Err(e), mm, s),
                        Ok(fs) => Step::Next(
                            with_label(
                                with_fs(mm, fs),
                                l,
                                seq!['$', 'f'],
                                LabelDataView::Ef(seq![stat[0], stat[1]]),
                            ),
                            None,
                            s,
                        ),
                    }
                },
            },
        }
    } else if t == seq!['$', 'a'] {
        match label {
            None => Step::Stop(Err(MmError::LabelMissing), mm, ts),
            Some(l) => if mm.stop == Some(l) {
                Step::Stop(Ok(ReadOutcome::Stopped), mm, ts)
            } else {
                let (r, s) = spec_readstat(ts);
                match r {
                    Err(e) => Step::Stop(Err(e), mm, s),
                    Ok(stat) => Step::Next(
                        with_label(
                            mm,
                            l,
                            seq!['$', 'a'],
                            LabelDataView::Ap(spec_make_assertion(mm.fs, stat)),
                        ),
                        None,
                        s,
                    ),
                }
            },
        }
    } else if t == seq!['$', 'e'] {
        match label {
            None => Step::Stop(Err(MmError::LabelMissing), mm, ts),
            Some(l) => {
                let (r, s) = spec_readstat(ts);
                match r {
                    Err(e) => Step::Stop(Err(e), mm, s),
                    Ok(stat) => Step::Next(
                        with_label(
                            with_fs(mm, spec_add_e(mm.fs, stat, l)),
                            l,
                            seq!['$', 'e'],
                            LabelDataView::Ef(stat),
                        ),
                        None,
                        s,
                    ),
                }
            },
        }
    } else if t == seq!['$', 'p'] {
        match label {
            None => Step::Stop(Err(MmError::LabelMissing), mm, ts),
            Some(l) => if mm.stop == Some(l) {
                Step::Stop(Ok(ReadOutcome::Stopped), mm, ts)
            } else {
                let (r, s) = spec_readstat(ts);
                match r {
                    Err(e) => Step::Stop(Err(e), mm, s),
                    Ok(stat) => {
                        let i = first_index(stat, seq!['$', '=']);
                        if i < 0 {
                            Step::Stop(Err(MmError::ProofMissing), mm, s)
                        } else {
                            let proof = stat.skip(i + 1);
                            let st = stat.take(i);
                            let begin = if mm.begin == Some(l) {
                                None
                            } else {
                                mm.begin
                            };
                            let checked = if begin is None {
                                spec_verify(mm.fs, mm.labels, st, proof)
                            } else {
                                Ok(())
                            };
                            match checked {
                                Err(e) => Step::Stop(Err(e), mm, s),
                                Ok(_) => Step::Next(
                                    with_label(
                                        MMView { begin, ..mm },
                                        l,
                                        seq!['$', 'p'],
                                        LabelDataView::Ap(spec_make_assertion(mm.fs, st)),
                                    ),
                                    None,
                                    s,
                                ),
                            }
                        }
                    },
                }
            },
        }
    } else if t == seq!['$', 'd'] {
        let (r, s) = spec_readstat(ts);
        match r {
            Err(e) => Step::Stop(Err(e), mm, s),
            Ok(stat) => Step::Next(with_fs(mm, spec_add_d(mm.fs, stat)), label, s),
        }
    } else if t.len() > 0 && t[0] == '$' {
        Step::Next(mm, label, ts)
    } else {
        Step::Next(mm, Some(t), ts)
    }
}

/// Reading a block: a new scope is opened, statements are read up to the
/// matching `$}` or the end of the input, and the scope is closed. (Reading
/// never makes the stream longer, so the branches that fail with
/// `ReadPastEnd` for a stream that did not get shorter are never taken.)
pub open spec fn spec_read_block(mm: MMView, ts: StreamState) -> (
    Result<ReadOutcome, MmError>,
    MMView,
    StreamState,
)
    decreases ts.rest.len(), 1nat,
{
    let mm1 = with_fs(mm, mm.fs.push(empty_frame()));
    let (r, ts1) = spec_read_comment(ts);
    match r {
        Err(e) => (Err(e), mm1, ts1),
        Ok(None) => (Ok(ReadOutcome::Finished), pop_frame(mm1), ts1),
        Ok(Some(t)) => if ts1.rest.len() < ts.rest.len() {
            spec_read_loop(mm1, None, t, ts1)
        } else {
            (Err(MmError::ReadPastEnd), mm1, ts1)
        },
    }
}

/// Reading a block from its token `t`, with the pending label `label`.
pub open spec fn spec_read_loop(mm: MMView, label: Option<Tok>, t: Tok, ts: StreamState) -> (
    Result<ReadOutcome, MmError>,
    MMView,
    StreamState,
)
    decreases ts.rest.len(), 2nat,
{
    if t == seq!['$', '}'] {
        (Ok(ReadOutcome::Finished), pop_frame(mm), ts)
    } else if t == seq!['$', '{'] {
        let (r, m, s) = spec_read_block(mm, ts);
        if r == Ok::<ReadOutcome, MmError>(ReadOutcome::Finished) {
            spec_read_next(m, label, s, ts.rest.len())
        } else {
            (r, m, s)
        }
    } else {
        match spec_step(mm, label, t, ts) {
            Step::Stop(r, m, s) => (r, m, s),
            Step::Next(m, l, s) => spec_read_next(m, l, s, ts.rest.len()),
        }
    }
}

/// Reading a block on from its next token; `bound` is the length of the
/// stream when the last token was read.
pub open spec fn spec_read_next(mm: MMView, label: Option<Tok>, ts: StreamState, bound: nat) -> (
    Result<ReadOutcome, MmError>,
    MMView,
    StreamState,
)
    decreases bound, 1nat,
{
    let (r, ts1) = spec_read_comment(ts);
    match r {
        Err(e) => (Err(e), mm, ts1),
        Ok(None) => (Ok(ReadOutcome::Finished), pop_frame(mm), ts1),
        Ok(Some(t)) => if ts1.rest.len() < bound {
            spec_read_loop(mm, label, t, ts1)
        } else {
            (Err(MmError::ReadPastEnd), mm, ts1)
        },
    }
}

/// A failure while declaring a prefix of the constants is the failure of the whole.
proof fn lemma_add_all_c_err(fs: Seq<FrameView>, toks: Seq<Tok>, m: int)
    requires
        0 <= m <= toks.len(),
        add_all_c(fs, toks.take(m)) is Err,
    ensures
        add_all_c(fs, toks) == add_all_c(fs, toks.take(m)),
    decreases toks.len(),
{
    if m < toks.len() {
        assert(toks.drop_last().take(m) =~= toks.take(m));
        lemma_add_all_c_err(fs, toks.drop_last(), m);
    } else {
        assert(toks.take(m) =~= toks);
    }
}

/// A failure while declaring a prefix of the variables is the failure of the whole.
proof fn lemma_add_all_v_err(fs: Seq<FrameView>, toks: Seq<Tok>, m: int)
    requires
        0 <= m <= toks.len(),
        add_all_v(fs, toks.take(m)) is Err,
    ensures
        add_all_v(fs, toks) == add_all_v(fs, toks.take(m)),
    decreases toks.len(),
{
    if m < toks.len() {
        assert(toks.drop_last().take(m) =~= toks.take(m));
        lemma_add_all_v_err(fs, toks.drop_last(), m);
    } else {
        assert(toks.take(m) =~= toks);
    }
}

/// Declaring constants changes only the innermost scope.
proof fn lemma_add_all_c_outer(fs: Seq<FrameView>, toks: Seq<Tok>)
    requires
        fs.len() > 0,
    ensures
        add_all_c(fs, toks) matches Ok(f) ==> f.len() == fs.len() && f.drop_last() =~= fs.drop_last(),
    decreases toks.len(),
{
    if toks.len() > 0 {
        lemma_add_all_c_outer(fs, toks.drop_last());
    }
}

/// Declaring variables changes only the innermost scope.
proof fn lemma_add_all_v_outer(fs: Seq<FrameView>, toks: Seq<Tok>)
    requires
        fs.len() > 0,
    ensures
        add_all_v(fs, toks) matches Ok(f) ==> f.len() == fs.len() && f.drop_last() =~= fs.drop_last(),
    decreases toks.len(),
{
    if toks.len() > 0 {
        lemma_add_all_v_outer(fs, toks.drop_last());
    }
}

/// A statement changes only the innermost scope, and never the stop label.
pub proof fn lemma_step_outer(mm: MMView, label: Option<Tok>, t: Tok, ts: StreamState)
    requires
        mm.fs.len() > 0,
    ensures
        spec_step(mm, label, t, ts) matches Step::Next(m, _, _) ==> m.fs.len() == mm.fs.len()
            && m.fs.drop_last() =~= mm.fs.drop_last() && m.stop == mm.stop,
{
    lemma_add_all_c_outer(mm.fs, spec_readstat(ts).0->Ok_0);
    lemma_add_all_v_outer(mm.fs, spec_readstat(ts).0->Ok_0);
}

/// Declaring constants or variables keeps the scopes well formed.
proof fn lemma_add_all_wf(fs: Seq<FrameView>, toks: Seq<Tok>)
    requires
        fs.len() > 0,
        frames_wf(fs),
    ensures
        add_all_c(fs, toks) matches Ok(f) ==> frames_wf(f),
        add_all_v(fs, toks) matches Ok(f) ==> frames_wf(f),
    decreases toks.len(),
{
    if toks.len() > 0 {
        lemma_add_all_wf(fs, toks.drop_last());
        lemma_add_all_c_outer(fs, toks.drop_last());
        lemma_add_all_v_outer(fs, toks.drop_last());
        if let Ok(f) = add_all_c(fs, toks.drop_last()) {
            crate::laws::law_declarations_wf(f, toks.last(), toks.last(), toks.last(), toks);
        }
        if let Ok(f) = add_all_v(fs, toks.drop_last()) {
            crate::laws::law_declarations_wf(f, toks.last(), toks.last(), toks.last(), toks);
        }
    }
}

/// A statement keeps the scopes well formed and the labels distinct.
proof fn lemma_step_wf(mm: MMView, label: Option<Tok>, t: Tok, ts: StreamState)
    requires
        mm.fs.len() > 0,
        frames_wf(mm.fs),
        keys_distinct(mm.labels),
    ensures
        spec_step(mm, label, t, ts) matches Step::Next(m, _, _) ==> frames_wf(m.fs) && keys_distinct(
            m.labels,
        ),
{
    let stat = spec_readstat(ts).0->Ok_0;
    lemma_add_all_wf(mm.fs, stat);
    if stat.len() == 2 {
        crate::laws::law_declarations_wf(mm.fs, stat[1], stat[0], label->Some_0, stat);
        if let Ok(f) = spec_add_f(mm.fs, stat[1], stat[0], label->Some_0) {
            crate::laws::law_map_put_keys(
                mm.labels,
                label->Some_0,
                (seq!['$', 'f'], LabelDataView::Ef(seq![stat[0], stat[1]])),
            );
        }
    }
    crate::laws::law_declarations_wf(mm.fs, t, t, label->Some_0, stat);
    crate::laws::law_map_put_keys(
        mm.labels,
        label->Some_0,
        (seq!['$', 'a'], LabelDataView::Ap(spec_make_assertion(mm.fs, stat))),
    );
    crate::laws::law_map_put_keys(mm.labels, label->Some_0, (seq!['$', 'e'], LabelDataView::Ef(stat)));
    let i = first_index(stat, seq!['$', '=']);
    crate::laws::law_map_put_keys(
        mm.labels,
        label->Some_0,
        (seq!['$', 'p'], LabelDataView::Ap(spec_make_assertion(mm.fs, stat.take(i)))),
    );
}

/// The first `n` tokens of a statement.
fn stmt_take(s: &Vec<String>, n: usize) -> (r: Vec<String>)
    requires
        n <= s.len(),
    ensures
        r.deep_view() == s.deep_view().take(n as int),
{
    let mut r: Vec<String> = Vec::new();
    let mut i: usize = 0;
    while i < n
        invariant
            0 <= i <= n,
            n <= s.len(),
            r.deep_view() =~= s.deep_view().take(i as int),
        decreases n - i,
    {
        let t = s[i].clone();
        let ghost before = r.deep_view();
        r.push(t);
        assert(r.deep_view() =~= before.push(t@));
        i = i + 1;
    }
    r
}

/// The tokens of a statement from position `n` on.
fn stmt_skip(s: &Vec<String>, n: usize) -> (r: Vec<String>)
    requires
        n <= s.len(),
    ensures
        r.deep_view() == s.deep_view().skip(n as int),
{
    let mut r: Vec<String> = Vec::new();
    let mut i: usize = n;
    while i < s.len()
        invariant
            n <= i <= s.len(),
            r.deep_view() =~= s.deep_view().subrange(n as int, i as int),
        decreases s.len() - i,
    {
        let t = s[i].clone();
        let ghost before = r.deep_view();
        r.push(t);
        assert(r.deep_view() =~= before.push(t@));
        i = i + 1;
    }
    r
}

/// The outcome of reading one statement.
pub enum StepResult {
    /// Go on, with this pending label.
    Next(Option<String>),
    /// Stop with this result.
    Stop(Result<ReadOutcome, MmError>),
}

impl MM {
    /// Makes `label` stand for `kind` and `data`.
    fn put_label(&mut self, label: String, kind: String, data: LabelData)
        ensures
            final(self)@ == with_label(old(self)@, label@, kind@, data.deep_view()),
            labels_kept(old(self)@.labels, final(self)@.labels),
    {
        proof {
            assert forall|k: Tok| #[trigger] map_get(self@.labels, k) is Some implies map_get(
                map_put(self@.labels, label@, (kind@, data.deep_view())),
                k,
            ) is Some by {
                crate::laws::law_map_put_get(self@.labels, label@, (kind@, data.deep_view()), k);
            }
        }
        let ghost l0 = self.labels.deep_view();
        let ghost entry = (label@, (kind@, data.deep_view()));
        match find_tok_key(&self.labels, &label) {
            Some(k) => {
                proof {
                    lemma_key_index(l0, label@);
                }
                self.labels.set(k, (label, (kind, data)));
                assert(self.labels.deep_view() =~= l0.update(k as int, entry));
            },
            None => {
                self.labels.push((label, (kind, data)));
                assert(self.labels.deep_view() =~= l0.push(entry));
            },
        }
    }

    /// Whether `l` is the label at which reading stops.
    fn is_stop_label(&self, l: &String) -> (r: bool)
        ensures
            r == (self@.stop == Some(l@)),
    {
        match &self.stop_label {
            Some(s) => *s == *l,
            None => false,
        }
    }

    /// Reads the statement that starts with `tok`, with the pending label `label`.
    #[verifier::loop_isolation(false)]
    fn read_statement(&mut self, label: Option<String>, tok: &String, toks: &mut TokenStream) -> (r:
        StepResult)
        requires
            old(self)@.fs.len() > 0,
            tok@ != seq!['$', '}'],
            tok@ != seq!['$', '{'],
        ensures
            match (r, spec_step(old(self)@, opt_tok(label), tok@, old(toks)@)) {
                (StepResult::Next(l), Step::Next(m, sl, st)) => opt_tok(l) == sl && final(self)@ == m
                    && final(toks)@ == st,
                (StepResult::Stop(res), Step::Stop(sr, m, st)) => res == sr && (res is Ok
                    ==> final(self)@ == m && final(toks)@ == st),
                _ => false,
            },
            final(toks)@.rest.len() <= old(toks)@.rest.len(),
            r is Next ==> final(self)@.fs.len() == old(self)@.fs.len(),
            r is Next ==> labels_kept(old(self)@.labels, final(self)@.labels),
    {
        let ghost mm0 = self@;
        if is_token2(tok, '$', 'c') || is_token2(tok, '$', 'v') {
            let is_c = is_token2(tok, '$', 'c');
            let stat = match toks.try_readstat() {
                Err(e) => {
                    return StepResult::Stop(Err(e));
                },
                Ok(s) => s,
            };
            let ghost sv = stat.deep_view();
            let mut i: usize = 0;
            assert(sv.take(0) =~= Seq::<Tok>::empty());
            while i < stat.len()
                invariant
                    0 <= i <= stat.len(),
                    sv == stat.deep_view(),
                    is_c == (tok@ == seq!['$', 'c']),
                    is_c ==> add_all_c(mm0.fs, sv.take(i as int)) == Ok::<
                        Seq<FrameView>,
                        MmError,
                    >(self@.fs),
                    !is_c ==> add_all_v(mm0.fs, sv.take(i as int)) == Ok::<
                        Seq<FrameView>,
                        MmError,
                    >(self@.fs),
                    self@ == with_fs(mm0, self@.fs),
                    self@.fs.len() == mm0.fs.len(),
                    mm0.fs.len() > 0,
                decreases stat.len() - i,
            {
                assert(sv.take(i + 1).drop_last() =~= sv.take(i as int));
                assert(sv.take(i + 1).last() == sv[i as int]);
                let res = if is_c {
                    self.fs.try_add_c(stat[i].clone())
                } else {
                    self.fs.try_add_v(stat[i].clone())
                };
                match res {
                    Err(e) => {
                        proof {
                            if is_c {
                                lemma_add_all_c_err(mm0.fs, sv, i + 1);
                            } else {
                                lemma_add_all_v_err(mm0.fs, sv, i + 1);
                            }
                        }
                        return StepResult::Stop(Err(e));
                    },
                    Ok(()) => {},
                }
                i = i + 1;
            }
            assert(sv.take(i as int) =~= sv);
            return StepResult::Next(label);
        }
        if is_token2(tok, '$', 'f') {
            let stat = match toks.try_readstat() {
                Err(e) => {
                    return StepResult::Stop(Err(e));
                },
                Ok(s) => s,
            };
            let l = match label {
                None => {
                    return StepResult::Stop(Err(MmError::LabelMissing));
                },
                Some(l) => l,
            };
            if stat.len() != 2 {
                return StepResult::Stop(Err(MmError::FloatLength));
            }
            match self.fs.try_add_f(stat[1].clone(), stat[0].clone(), l.clone()) {
                Err(e) => {
                    return StepResult::Stop(Err(e));
                },
                Ok(()) => {},
            }
            let mut data: Vec<String> = Vec::new();
            data.push(stat[0].clone());
            data.push(stat[1].clone());
            assert(data.deep_view() =~= seq![stat.deep_view()[0], stat.deep_view()[1]]);
            self.put_label(l, token2('$', 'f'), LabelData::Ef(data));
            return StepResult::Next(None);
        }
        if is_token2(tok, '$', 'a') {
            let l = match label {
                None => {
                    return StepResult::Stop(Err(MmError::LabelMissing));
                },
                Some(l) => l,
            };
            if self.is_stop_label(&l) {
                return StepResult::Stop(Ok(ReadOutcome::Stopped));
            }
            let stat = match toks.try_readstat() {
                Err(e) => {
                    return StepResult::Stop(Err(e));
                },
                Ok(s) => s,
            };
            let a = self.fs.make_assertion(stat);
            self.put_label(l, token2('$', 'a'), LabelData::Ap(a));
            return StepResult::Next(None);
        }
        if is_token2(tok, '$', 'e') {
            let l = match &label {
                None => {
                    return StepResult::Stop(Err(MmError::LabelMissing));
                },
                Some(l) => l.clone(),
            };
            let stat = match toks.try_readstat() {
                Err(e) => {
                    return StepResult::Stop(Err(e));
                },
                Ok(s) => s,
            };
            self.fs.add_e(clone_stmt(&stat), l.clone());
            self.put_label(l, token2('$', 'e'), LabelData::Ef(stat));
            return StepResult::Next(None);
        }
        if is_token2(tok, '$', 'p') {
            let l = match label {
                None => {
                    return StepResult::Stop(Err(MmError::LabelMissing));
                },
                Some(l) => l,
            };
            if self.is_stop_label(&l) {
                return StepResult::Stop(Ok(ReadOutcome::Stopped));
            }
            let stat = match toks.try_readstat() {
                Err(e) => {
                    return StepResult::Stop(Err(e));
                },
                Ok(s) => s,
            };
            let i = match find_token(&stat, &token2('$', '=')) {
                None => {
                    return StepResult::Stop(Err(MmError::ProofMissing));
                },
                Some(i) => i,
            };
            proof {
                lemma_first_index(stat.deep_view(), seq!['$', '=']);
            }
            let proof_steps = stmt_skip(&stat, i + 1);
            let st = stmt_take(&stat, i);
            let at_begin = match &self.begin_label {
                Some(b) => *b == l,
                None => false,
            };
            if at_begin {
                self.begin_label = None;
            }
            if self.begin_label.is_none() {
                match self.try_verify(l.clone(), clone_stmt(&st), proof_steps) {
                    Err(e) => {
                        return StepResult::Stop(Err(e));
                    },
                    Ok(()) => {},
                }
            }
            let a = self.fs.make_assertion(st);
            self.put_label(l, token2('$', 'p'), LabelData::Ap(a));
            return StepResult::Next(None);
        }
        if is_token2(tok, '$', 'd') {
            let stat = match toks.try_readstat() {
                Err(e) => {
                    return StepResult::Stop(Err(e));
                },
                Ok(s) => s,
            };
            self.fs.add_d(stat);
            return StepResult::Next(label);
        }
        if starts_with_dollar(tok) {
            StepResult::Next(label)
        } else {
            StepResult::Next(Some(tok.clone()))
        }
    }
}

impl MM {
    /// Reads a block of a database that is accepted from `toks` on (see
    /// `try_read` for one that may not be): a new scope is opened, the
    /// statements are read and their proofs checked up to the matching `$}`
    /// or the end of the input, and the scope is closed. `Stopped` when the
    /// `$a` or `$p` with the stop label is reached.
    pub fn read(&mut self, toks: &mut TokenStream) -> (r: ReadOutcome)
        requires
            spec_read_block(old(self)@, old(toks)@).0 is Ok,
        ensures
            Ok::<ReadOutcome, MmError>(r) == spec_read_block(old(self)@, old(toks)@).0,
            final(self)@ == spec_read_block(old(self)@, old(toks)@).1,
            final(toks)@ == spec_read_block(old(self)@, old(toks)@).2,
            r == ReadOutcome::Finished ==> final(self)@.fs == old(self)@.fs,
            final(self)@.stop == old(self)@.stop,
            frames_wf(old(self)@.fs) && keys_distinct(old(self)@.labels) ==> frames_wf(
                final(self)@.fs,
            ) && keys_distinct(final(self)@.labels),
            labels_kept(old(self)@.labels, final(self)@.labels),
    {
        match self.try_read(toks) {
            Ok(o) => o,
            Err(_) => ReadOutcome::Finished,
        }
    }

    /// Reads a block of the database from `toks`: a new scope is opened, the
    /// statements are read and their proofs checked up to the matching `$}`
    /// or the end of the input, and the scope is closed. `Stopped` when the
    /// `$a` or `$p` with the stop label is reached. A database that a
    /// Metamath checker rejects (a malformed statement, a refused
    /// declaration, an invalid proof, an input that ends too early) is
    /// answered with the error of the first such fault, and reading stops
    /// there.
    pub fn try_read(&mut self, toks: &mut TokenStream) -> (r: Result<ReadOutcome, MmError>)
        ensures
            r == spec_read_block(old(self)@, old(toks)@).0,
            r is Ok ==> final(self)@ == spec_read_block(old(self)@, old(toks)@).1 && final(toks)@
                == spec_read_block(old(self)@, old(toks)@).2,
            final(toks)@.rest.len() <= old(toks)@.rest.len(),
            r == Ok::<ReadOutcome, MmError>(ReadOutcome::Finished) ==> final(self)@.fs == old(
                self,
            )@.fs,
            r is Ok ==> final(self)@.stop == old(self)@.stop,
            r is Ok && frames_wf(old(self)@.fs) && keys_distinct(old(self)@.labels) ==> frames_wf(
                final(self)@.fs,
            ) && keys_distinct(final(self)@.labels),
            r is Ok ==> labels_kept(old(self)@.labels, final(self)@.labels),
        decreases old(toks)@.rest.len(),
    {
        let ghost mm0 = self@;
        let ghost ts0 = toks@;
        self.fs.push();
        assert(self@ == with_fs(mm0, mm0.fs.push(empty_frame())));
        assert(self@.fs.drop_last() =~= mm0.fs);
        proof {
            if frames_wf(mm0.fs) {
                crate::laws::law_push_wf(mm0.fs);
            }
        }
        proof {
            lemma_read_comment_shrinks(toks@);
        }
        let first = toks.try_read_comment();
        let mut tok = match first {
            Err(e) => {
                return Err(e);
            },
            Ok(None) => {
                self.fs.pop();
                assert(self@.fs =~= mm0.fs);
                return Ok(ReadOutcome::Finished);
            },
            Ok(Some(t)) => t,
        };
        let mut label: Option<String> = None;
        loop
            invariant
                mm0 == old(self)@,
                ts0 == old(toks)@,
                spec_read_block(mm0, ts0) == spec_read_loop(self@, opt_tok(label), tok@, toks@),
                toks@.rest.len() < ts0.rest.len(),
                self@.fs.len() == mm0.fs.len() + 1,
                self@.fs.drop_last() == mm0.fs,
                self@.stop == mm0.stop,
                labels_kept(mm0.labels, self@.labels),
                frames_wf(mm0.fs) && keys_distinct(mm0.labels) ==> frames_wf(self@.fs)
                    && keys_distinct(self@.labels),
            decreases toks@.rest.len(),
        {
            let ghost ts_before = toks@;
            let ghost mm_before = self@;
            if is_token2(&tok, '$', '}') {
                self.fs.pop();
                return Ok(ReadOutcome::Finished);
            }
            if is_token2(&tok, '$', '{') {
                match self.try_read(toks) {
                    Err(e) => {
                        return Err(e);
                    },
                    Ok(ReadOutcome::Stopped) => {
                        return Ok(ReadOutcome::Stopped);
                    },
                    Ok(ReadOutcome::Finished) => {},
                }
            } else {
                proof {
                    lemma_step_outer(mm_before, opt_tok(label), tok@, ts_before);
                    if frames_wf(mm0.fs) && keys_distinct(mm0.labels) {
                        lemma_step_wf(mm_before, opt_tok(label), tok@, ts_before);
                    }
                }
                match self.read_statement(label, &tok, toks) {
                    StepResult::Stop(res) => {
                        return res;
                    },
                    StepResult::Next(l) => {
                        label = l;
                    },
                }
            }
            proof {
                lemma_read_comment_shrinks(toks@);
            }
            let next = toks.try_read_comment();
            match next {
                Err(e) => {
                    return Err(e);
                },
                Ok(None) => {
                    self.fs.pop();
                    return Ok(ReadOutcome::Finished);
                },
                Ok(Some(t)) => {
                    tok = t;
                },
            }
        }
    }
}

} // verus!
