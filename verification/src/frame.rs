//! Scopes of declarations: the stack of frames that `${ ... $}` blocks open,
//! with the constants, variables, disjoint-variable pairs and hypotheses
//! declared in each, and the assertions built from them.
use vstd::prelude::*;

use crate::error::MmError;
use crate::text::{Tok, clone_stmt, norm_pair, ordered_pair, stmt_contains, stmt_eq, tok_le};
use crate::tokens::opt_tok;

verus! {

/// The declarations of one scope.
pub struct FrameView {
    /// Constants, in the order of declaration.
    pub c: Seq<Tok>,
    /// Variables, in the order of declaration.
    pub v: Seq<Tok>,
    /// Disjoint-variable pairs, each with its smaller token first, no pair twice.
    pub d: Seq<(Tok, Tok)>,
    /// Floating hypotheses as (variable, type code), in order.
    pub f: Seq<(Tok, Tok)>,
    /// The label of the floating hypothesis of each variable.
    pub f_labels: Seq<(Tok, Tok)>,
    /// Essential hypotheses, in order.
    pub e: Seq<Seq<Tok>>,
    /// The label of each essential hypothesis.
    pub e_labels: Seq<(Seq<Tok>, Tok)>,
}

/// A scope with no declarations.
pub open spec fn empty_frame() -> FrameView {
    FrameView {
        c: seq![],
        v: seq![],
        d: seq![],
        f: seq![],
        f_labels: seq![],
        e: seq![],
        e_labels: seq![],
    }
}

/// Whether no key occurs twice in the association list `s`.
pub open spec fn keys_distinct<K, V>(s: Seq<(K, V)>) -> bool {
    forall|i: int, j: int| 0 <= i < s.len() && 0 <= j < s.len() && i != j ==> s[i].0 != s[j].0
}

/// Whether `d` holds pairs of two distinct tokens, the smaller first, no
/// pair twice.
pub open spec fn pairs_wf(d: Seq<(Tok, Tok)>) -> bool {
    &&& d.no_duplicates()
    &&& forall|i: int| 0 <= i < d.len() ==> #[trigger] d[i].0 != d[i].1 && tok_le(d[i].0, d[i].1)
}

/// Whether a scope is well formed: no constant or variable declared twice,
/// no token both, disjoint-variable pairs as `pairs_wf` says, at most one
/// floating hypothesis for each variable, each with its label, and one
/// label for each essential hypothesis.
pub open spec fn frame_wf(fr: FrameView) -> bool {
    &&& fr.c.no_duplicates()
    &&& fr.v.no_duplicates()
    &&& forall|t: Tok| fr.c.contains(t) ==> !fr.v.contains(t)
    &&& pairs_wf(fr.d)
    &&& fr.f.len() == fr.f_labels.len()
    &&& forall|i: int| 0 <= i < fr.f.len() ==> #[trigger] fr.f[i].0 == fr.f_labels[i].0
    &&& keys_distinct(fr.f_labels)
    &&& keys_distinct(fr.e_labels)
}

/// Whether every scope of the stack is well formed.
pub open spec fn frames_wf(fs: Seq<FrameView>) -> bool {
    forall|i: int| 0 <= i < fs.len() ==> frame_wf(#[trigger] fs[i])
}

/// The first position of key `k` in the association list `s`, or -1.
pub open spec fn key_index<K, V>(s: Seq<(K, V)>, k: K) -> int
    decreases s.len(),
{
    if s.len() == 0 {
        -1
    } else {
        let j = key_index(s.drop_last(), k);
        if j >= 0 {
            j
        } else if s.last().0 == k {
            s.len() - 1
        } else {
            -1
        }
    }
}

/// The value of key `k` in the association list `s`.
pub open spec fn map_get<K, V>(s: Seq<(K, V)>, k: K) -> Option<V> {
    let j = key_index(s, k);
    if j >= 0 {
        Some(s[j].1)
    } else {
        None
    }
}

/// The association list `s` with key `k` set to `v`.
pub open spec fn map_put<K, V>(s: Seq<(K, V)>, k: K, v: V) -> Seq<(K, V)> {
    let j = key_index(s, k);
    if j >= 0 {
        s.update(j, (k, v))
    } else {
        s.push((k, v))
    }
}

/// A found position is in range and holds the key; no earlier one does.
pub proof fn lemma_key_index<K, V>(s: Seq<(K, V)>, k: K)
    ensures
        -1 <= key_index(s, k) < s.len(),
        key_index(s, k) >= 0 ==> s[key_index(s, k)].0 == k,
        forall|i: int| 0 <= i < s.len() && (key_index(s, k) < 0 || i < key_index(s, k)) ==> s[i].0
            != k,
    decreases s.len(),
{
    if s.len() > 0 {
        lemma_key_index(s.drop_last(), k);
        assert forall|i: int| 0 <= i < s.len() - 1 implies s.drop_last()[i] == s[i] by {}
    }
}

/// A key found in a prefix is found at the same place in the whole list.
pub proof fn lemma_key_index_prefix<K, V>(s: Seq<(K, V)>, m: int, k: K)
    requires
        0 <= m <= s.len(),
        key_index(s.take(m), k) >= 0,
    ensures
        key_index(s, k) == key_index(s.take(m), k),
    decreases s.len(),
{
    if m < s.len() {
        assert(s.drop_last().take(m) =~= s.take(m));
        lemma_key_index_prefix(s.drop_last(), m, k);
    } else {
        assert(s.take(m) =~= s);
    }
}

/// Whether `t` is a constant of some active scope.
pub open spec fn is_const(fs: Seq<FrameView>, t: Tok) -> bool {
    exists|i: int| 0 <= i < fs.len() && #[trigger] fs[i].c.contains(t)
}

/// Whether `t` is a variable of some active scope.
pub open spec fn is_var(fs: Seq<FrameView>, t: Tok) -> bool {
    exists|i: int| 0 <= i < fs.len() && #[trigger] fs[i].v.contains(t)
}

/// Whether some active scope declares `x` and `y` disjoint.
pub open spec fn is_disjoint(fs: Seq<FrameView>, x: Tok, y: Tok) -> bool {
    exists|i: int| 0 <= i < fs.len() && #[trigger] fs[i].d.contains(norm_pair(x, y))
}

/// The label of the floating hypothesis of `var` in the innermost scope that has one.
pub open spec fn f_label(fs: Seq<FrameView>, var: Tok) -> Option<Tok>
    decreases fs.len(),
{
    if fs.len() == 0 {
        None
    } else {
        match map_get(fs.last().f_labels, var) {
            Some(l) => Some(l),
            None => f_label(fs.drop_last(), var),
        }
    }
}

/// The label of the essential hypothesis `s` in the innermost scope that has one.
pub open spec fn e_label(fs: Seq<FrameView>, s: Seq<Tok>) -> Option<Tok>
    decreases fs.len(),
{
    if fs.len() == 0 {
        None
    } else {
        match map_get(fs.last().e_labels, s) {
            Some(l) => Some(l),
            None => e_label(fs.drop_last(), s),
        }
    }
}

/// The stack with its innermost scope replaced by `fr`.
pub open spec fn set_top(fs: Seq<FrameView>, fr: FrameView) -> Seq<FrameView> {
    fs.update(fs.len() - 1, fr)
}

/// Declaring the constant `t` in the innermost scope.
pub open spec fn spec_add_c(fs: Seq<FrameView>, t: Tok) -> Result<Seq<FrameView>, MmError> {
    let top = fs.last();
    if top.c.contains(t) {
        Err(MmError::ConstRedeclared)
    } else if top.v.contains(t) {
        Err(MmError::ConstIsVariable)
    } else {
        Ok(set_top(fs, FrameView { c: top.c.push(t), ..top }))
    }
}

/// Declaring the variable `t` in the innermost scope.
pub open spec fn spec_add_v(fs: Seq<FrameView>, t: Tok) -> Result<Seq<FrameView>, MmError> {
    let top = fs.last();
    if top.c.contains(t) {
        Err(MmError::VariableIsConst)
    } else if top.v.contains(t) {
        Err(MmError::VariableRedeclared)
    } else {
        Ok(set_top(fs, FrameView { v: top.v.push(t), ..top }))
    }
}

/// Declaring the floating hypothesis `label: kind var` in the innermost scope.
pub open spec fn spec_add_f(fs: Seq<FrameView>, var: Tok, kind: Tok, label: Tok) -> Result<
    Seq<FrameView>,
    MmError,
> {
    let top = fs.last();
    if !is_var(fs, var) {
        Err(MmError::FloatVarUndeclared)
    } else if !is_const(fs, kind) {
        Err(MmError::FloatTypeUndeclared)
    } else if map_get(top.f_labels, var) is Some {
        Err(MmError::FloatRedeclared)
    } else {
        Ok(
            set_top(
                fs,
                FrameView { f: top.f.push((var, kind)), f_labels: top.f_labels.push((var, label)), ..top },
            ),
        )
    }
}

/// Declaring the essential hypothesis `label: stat` in the innermost scope.
pub open spec fn spec_add_e(fs: Seq<FrameView>, stat: Seq<Tok>, label: Tok) -> Seq<FrameView> {
    let top = fs.last();
    set_top(
        fs,
        FrameView { e: top.e.push(stat), e_labels: map_put(top.e_labels, stat, label), ..top },
    )
}

/// `d` with the pair of `x` and `y` added unless it is there.
pub open spec fn insert_pair(d: Seq<(Tok, Tok)>, x: Tok, y: Tok) -> Seq<(Tok, Tok)> {
    if d.contains(norm_pair(x, y)) {
        d
    } else {
        d.push(norm_pair(x, y))
    }
}

/// `d` with the pairs of `x` and each token of `ys` other than `x` added, in order.
pub open spec fn add_d_row(d: Seq<(Tok, Tok)>, x: Tok, ys: Seq<Tok>) -> Seq<(Tok, Tok)>
    decreases ys.len(),
{
    if ys.len() == 0 {
        d
    } else {
        let d1 = add_d_row(d, x, ys.drop_last());
        if x != ys.last() {
            insert_pair(d1, x, ys.last())
        } else {
            d1
        }
    }
}

/// `d` with the pairs of each token of `xs` and each other token of `ys` added, in order.
pub open spec fn add_d_all(d: Seq<(Tok, Tok)>, xs: Seq<Tok>, ys: Seq<Tok>) -> Seq<(Tok, Tok)>
    decreases xs.len(),
{
    if xs.len() == 0 {
        d
    } else {
        add_d_row(add_d_all(d, xs.drop_last(), ys), xs.last(), ys)
    }
}

/// Declaring the tokens of `stat` pairwise disjoint in the innermost scope.
pub open spec fn spec_add_d(fs: Seq<FrameView>, stat: Seq<Tok>) -> Seq<FrameView> {
    let top = fs.last();
    set_top(fs, FrameView { d: add_d_all(top.d, stat, stat), ..top })
}

/// The essential hypotheses of all active scopes, outermost first.
pub open spec fn all_e(fs: Seq<FrameView>) -> Seq<Seq<Tok>>
    decreases fs.len(),
{
    if fs.len() == 0 {
        seq![]
    } else {
        all_e(fs.drop_last()) + fs.last().e
    }
}

/// The disjoint-variable pairs of all active scopes, outermost first.
pub open spec fn all_d(fs: Seq<FrameView>) -> Seq<(Tok, Tok)>
    decreases fs.len(),
{
    if fs.len() == 0 {
        seq![]
    } else {
        all_d(fs.drop_last()) + fs.last().d
    }
}

/// The floating hypotheses of all active scopes, last declared first:
/// innermost scope first, each scope's in reverse order of declaration.
pub open spec fn rev_f(fs: Seq<FrameView>) -> Seq<(Tok, Tok)>
    decreases fs.len(),
{
    if fs.len() == 0 {
        seq![]
    } else {
        fs.last().f.reverse() + rev_f(fs.drop_last())
    }
}

/// The tokens of the statements `ss`, one after the other.
pub open spec fn flatten_toks(ss: Seq<Seq<Tok>>) -> Seq<Tok>
    decreases ss.len(),
{
    if ss.len() == 0 {
        seq![]
    } else {
        flatten_toks(ss.drop_last()) + ss.last()
    }
}

/// Whether `t` is a mandatory variable: an active variable among `toks`.
pub open spec fn is_mand(fs: Seq<FrameView>, toks: Seq<Tok>, t: Tok) -> bool {
    toks.contains(t) && is_var(fs, t)
}

/// The pairs of `ds` whose tokens are both mandatory variables, each once.
pub open spec fn select_dvs(fs: Seq<FrameView>, toks: Seq<Tok>, ds: Seq<(Tok, Tok)>) -> Seq<
    (Tok, Tok),
>
    decreases ds.len(),
{
    if ds.len() == 0 {
        seq![]
    } else {
        let s = select_dvs(fs, toks, ds.drop_last());
        let p = ds.last();
        if is_mand(fs, toks, p.0) && is_mand(fs, toks, p.1) && !s.contains(p) {
            s.push(p)
        } else {
            s
        }
    }
}

/// The first components of a sequence of pairs.
pub open spec fn firsts(s: Seq<(Tok, Tok)>) -> Seq<Tok> {
    s.map_values(|p: (Tok, Tok)| p.0)
}

/// Each pair with its components exchanged.
pub open spec fn swap_pairs(s: Seq<(Tok, Tok)>) -> Seq<(Tok, Tok)> {
    s.map_values(|p: (Tok, Tok)| (p.1, p.0))
}

/// The entries (variable, type code) of `es` whose variable is mandatory and
/// has no earlier selected entry.
pub open spec fn select_f(fs: Seq<FrameView>, toks: Seq<Tok>, es: Seq<(Tok, Tok)>) -> Seq<
    (Tok, Tok),
>
    decreases es.len(),
{
    if es.len() == 0 {
        seq![]
    } else {
        let s = select_f(fs, toks, es.drop_last());
        let p = es.last();
        if is_mand(fs, toks, p.0) && !firsts(s).contains(p.0) {
            s.push(p)
        } else {
            s
        }
    }
}

/// An assertion with its mandatory hypotheses.
pub struct AssertionView {
    pub dvs: Seq<(Tok, Tok)>,
    pub f_hyps: Seq<(Tok, Tok)>,
    pub e_hyps: Seq<Seq<Tok>>,
    pub stat: Seq<Tok>,
}

/// The tokens of the essential hypotheses in scope followed by those of `stat`.
pub open spec fn assertion_toks(fs: Seq<FrameView>, stat: Seq<Tok>) -> Seq<Tok> {
    flatten_toks(all_e(fs)) + stat
}

/// The assertion `stat` made in the scopes `fs`: all essential hypotheses in
/// scope; the disjoint pairs of its mandatory variables; and, as (type code,
/// variable), the floating hypothesis of each mandatory variable, the last
/// declared one in scope, in order of declaration.
pub open spec fn spec_make_assertion(fs: Seq<FrameView>, stat: Seq<Tok>) -> AssertionView {
    let toks = assertion_toks(fs, stat);
    AssertionView {
        dvs: select_dvs(fs, toks, all_d(fs)),
        f_hyps: swap_pairs(select_f(fs, toks, rev_f(fs)).reverse()),
        e_hyps: all_e(fs),
        stat: stat,
    }
}

/// The declarations of one scope.
pub struct Frame {
    c: Vec<String>,
    v: Vec<String>,
    d: Vec<(String, String)>,
    f: Vec<(String, String)>,
    f_labels: Vec<(String, String)>,
    e: Vec<Vec<String>>,
    e_labels: Vec<(Vec<String>, String)>,
}

impl View for Frame {
    type V = FrameView;

    closed spec fn view(&self) -> FrameView {
        FrameView {
            c: self.c.deep_view(),
            v: self.v.deep_view(),
            d: self.d.deep_view(),
            f: self.f.deep_view(),
            f_labels: self.f_labels.deep_view(),
            e: self.e.deep_view(),
            e_labels: self.e_labels.deep_view(),
        }
    }
}

impl Frame {
    /// A scope with no declarations.
    fn new() -> (fr: Frame)
        ensures
            fr@ == empty_frame(),
    {
        let fr = Frame {
            c: Vec::new(),
            v: Vec::new(),
            d: Vec::new(),
            f: Vec::new(),
            f_labels: Vec::new(),
            e: Vec::new(),
            e_labels: Vec::new(),
        };
        assert(fr@.c =~= seq![]);
        assert(fr@.v =~= seq![]);
        assert(fr@.d =~= seq![]);
        assert(fr@.f =~= seq![]);
        assert(fr@.f_labels =~= seq![]);
        assert(fr@.e =~= seq![]);
        assert(fr@.e_labels =~= seq![]);
        fr
    }
}

/// The position of the token key `k` in an association list.
pub fn find_tok_key<V: DeepView>(s: &Vec<(String, V)>, k: &String) -> (r: Option<usize>)
    ensures
        match r {
            Some(i) => key_index(s.deep_view(), k@) == i as int,
            None => key_index(s.deep_view(), k@) == -1,
        },
{
    let mut i: usize = 0;
    while i < s.len()
        invariant
            0 <= i <= s.len(),
            key_index(s.deep_view().take(i as int), k@) == -1,
        decreases s.len() - i,
    {
        assert(s.deep_view().take(i + 1).drop_last() =~= s.deep_view().take(i as int));
        if s[i].0 == *k {
            proof {
                lemma_key_index_prefix(s.deep_view(), i + 1, k@);
            }
            return Some(i);
        }
        i = i + 1;
    }
    assert(s.deep_view().take(i as int) =~= s.deep_view());
    None
}

/// The position of key `k` in a list of (statement, label) pairs.
fn find_stmt_key(s: &Vec<(Vec<String>, String)>, k: &Vec<String>) -> (r: Option<usize>)
    ensures
        match r {
            Some(i) => key_index(s.deep_view(), k.deep_view()) == i as int,
            None => key_index(s.deep_view(), k.deep_view()) == -1,
        },
{
    let mut i: usize = 0;
    while i < s.len()
        invariant
            0 <= i <= s.len(),
            key_index(s.deep_view().take(i as int), k.deep_view()) == -1,
        decreases s.len() - i,
    {
        assert(s.deep_view().take(i + 1).drop_last() =~= s.deep_view().take(i as int));
        if stmt_eq(&s[i].0, k) {
            proof {
                lemma_key_index_prefix(s.deep_view(), i + 1, k.deep_view());
            }
            return Some(i);
        }
        i = i + 1;
    }
    assert(s.deep_view().take(i as int) =~= s.deep_view());
    None
}

/// Whether a list of pairs holds the pair `p`.
fn pairs_contain(s: &Vec<(String, String)>, p: &(String, String)) -> (r: bool)
    ensures
        r == s.deep_view().contains(p.deep_view()),
{
    let mut i: usize = 0;
    while i < s.len()
        invariant
            0 <= i <= s.len(),
            forall|j: int| 0 <= j < i ==> s.deep_view()[j] != p.deep_view(),
        decreases s.len() - i,
    {
        if s[i].0 == p.0 && s[i].1 == p.1 {
            assert(s.deep_view()[i as int] == p.deep_view());
            return true;
        }
        i = i + 1;
    }
    false
}

/// Whether a list of pairs has the first component `t`.
fn firsts_contain(s: &Vec<(String, String)>, t: &String) -> (r: bool)
    ensures
        r == firsts(s.deep_view()).contains(t@),
{
    let mut i: usize = 0;
    while i < s.len()
        invariant
            0 <= i <= s.len(),
            forall|j: int| 0 <= j < i ==> s.deep_view()[j].0 != t@,
        decreases s.len() - i,
    {
        if s[i].0 == *t {
            assert(firsts(s.deep_view())[i as int] == t@);
            return true;
        }
        i = i + 1;
    }
    proof {
        if firsts(s.deep_view()).contains(t@) {
            let j = choose|j: int| 0 <= j < firsts(s.deep_view()).len() && firsts(s.deep_view())[j] == t@;
            assert(s.deep_view()[j].0 == t@);
        }
    }
    false
}

/// A copy of a pair of tokens.
fn clone_pair(p: &(String, String)) -> (r: (String, String))
    ensures
        r.deep_view() == p.deep_view(),
{
    (p.0.clone(), p.1.clone())
}

/// An assertion with its mandatory hypotheses.
pub struct Assertion {
    pub dvs: Vec<(String, String)>,
    pub f_hyps: Vec<(String, String)>,
    pub e_hyps: Vec<Vec<String>>,
    pub stat: Vec<String>,
}

impl DeepView for Assertion {
    type V = AssertionView;

    open spec fn deep_view(&self) -> AssertionView {
        AssertionView {
            dvs: self.dvs.deep_view(),
            f_hyps: self.f_hyps.deep_view(),
            e_hyps: self.e_hyps.deep_view(),
            stat: self.stat.deep_view(),
        }
    }
}

/// The stack of active scopes, outermost first.
pub struct FrameStack {
    list: Vec<Frame>,
}

impl View for FrameStack {
    type V = Seq<FrameView>;

    closed spec fn view(&self) -> Seq<FrameView> {
        self.list@.map_values(|fr: Frame| fr@)
    }
}


/// The outcome of a declaration that may be refused: on success the stack
/// becomes what `expected` gives, and on refusal it stays as it was.
pub open spec fn declared(
    r: Result<(), MmError>,
    expected: Result<Seq<FrameView>, MmError>,
    before: Seq<FrameView>,
    after: Seq<FrameView>,
) -> bool {
    match expected {
        Ok(fs) => r is Ok && after == fs,
        Err(e) => r == Err::<(), MmError>(e) && after == before,
    }
}

impl FrameStack {
    /// A stack with no scope.
    pub fn new() -> (fs: FrameStack)
        ensures
            fs@ == Seq::<FrameView>::empty(),
    {
        let fs = FrameStack { list: Vec::new() };
        assert(fs@ =~= Seq::<FrameView>::empty());
        fs
    }

    /// The number of active scopes.
    pub fn depth(&self) -> (n: usize)
        ensures
            n == self@.len(),
    {
        self.list.len()
    }

    /// Opens a new, empty innermost scope.
    pub fn push(&mut self)
        ensures
            final(self)@ == old(self)@.push(empty_frame()),
    {
        self.list.push(Frame::new());
        assert(self@ =~= old(self)@.push(empty_frame()));
    }

    /// Closes the innermost scope.
    pub fn pop(&mut self)
        requires
            old(self)@.len() > 0,
        ensures
            final(self)@ == old(self)@.drop_last(),
    {
        let _ = self.list.pop();
        assert(self@ =~= old(self)@.drop_last());
    }

    /// Takes the innermost scope out of the stack.
    fn take_top(&mut self) -> (fr: Frame)
        requires
            old(self)@.len() > 0,
        ensures
            fr@ == old(self)@.last(),
            final(self)@ == old(self)@.drop_last(),
    {
        let fr = self.list.pop().unwrap();
        assert(self@ =~= old(self)@.drop_last());
        fr
    }

    /// Puts a scope back as the innermost one.
    fn put_top(&mut self, fr: Frame)
        ensures
            final(self)@ == old(self)@.push(fr@),
    {
        self.list.push(fr);
        assert(self@ =~= old(self)@.push(fr@));
    }

    /// Declares the constant `token` in the innermost scope, which must not
    /// declare it yet as a constant or a variable.
    pub fn add_c(&mut self, token: String)
        requires
            old(self)@.len() > 0,
            spec_add_c(old(self)@, token@) is Ok,
        ensures
            final(self)@ == spec_add_c(old(self)@, token@)->Ok_0,
    {
        let _ = self.try_add_c(token);
    }

    /// Declares the constant `token` in the innermost scope where that is
    /// allowed; refused, with the error that says why and nothing changed,
    /// if that scope already declares it as a constant or a variable.
    pub fn try_add_c(&mut self, token: String) -> (r: Result<(), MmError>)
        requires
            old(self)@.len() > 0,
        ensures
            declared(r, spec_add_c(old(self)@, token@), old(self)@, final(self)@),
    {
        let n = self.list.len();
        if stmt_contains(&self.list[n - 1].c, &token) {
            return Err(MmError::ConstRedeclared);
        }
        if stmt_contains(&self.list[n - 1].v, &token) {
            return Err(MmError::ConstIsVariable);
        }
        let ghost fs0 = self@;
        let mut top = self.take_top();
        let ghost c0 = top.c.deep_view();
        top.c.push(token);
        assert(top.c.deep_view() =~= c0.push(token@));
        self.put_top(top);
        assert(self@ =~= set_top(fs0, FrameView { c: fs0.last().c.push(token@), ..fs0.last() }));
        Ok(())
    }

    /// Declares the variable `token` in the innermost scope, which must not
    /// declare it yet as a constant or a variable.
    pub fn add_v(&mut self, token: String)
        requires
            old(self)@.len() > 0,
            spec_add_v(old(self)@, token@) is Ok,
        ensures
            final(self)@ == spec_add_v(old(self)@, token@)->Ok_0,
    {
        let _ = self.try_add_v(token);
    }

    /// Declares the variable `token` in the innermost scope where that is
    /// allowed; refused, with the error that says why and nothing changed,
    /// if that scope already declares it as a constant or a variable.
    pub fn try_add_v(&mut self, token: String) -> (r: Result<(), MmError>)
        requires
            old(self)@.len() > 0,
        ensures
            declared(r, spec_add_v(old(self)@, token@), old(self)@, final(self)@),
    {
        let n = self.list.len();
        if stmt_contains(&self.list[n - 1].c, &token) {
            return Err(MmError::VariableIsConst);
        }
        if stmt_contains(&self.list[n - 1].v, &token) {
            return Err(MmError::VariableRedeclared);
        }
        let ghost fs0 = self@;
        let mut top = self.take_top();
        let ghost v0 = top.v.deep_view();
        top.v.push(token);
        assert(top.v.deep_view() =~= v0.push(token@));
        self.put_top(top);
        assert(self@ =~= set_top(fs0, FrameView { v: fs0.last().v.push(token@), ..fs0.last() }));
        Ok(())
    }

    /// Whether `token` is a constant of some active scope.
    pub fn lookup_c(&self, token: &String) -> (r: bool)
        ensures
            r == is_const(self@, token@),
    {
        let mut i: usize = 0;
        while i < self.list.len()
            invariant
                0 <= i <= self.list.len(),
                forall|j: int| 0 <= j < i ==> !(#[trigger] self@[j]).c.contains(token@),
            decreases self.list.len() - i,
        {
            if stmt_contains(&self.list[i].c, token) {
                assert(self@[i as int].c.contains(token@));
                return true;
            }
            i = i + 1;
        }
        false
    }

    /// Whether `token` is a variable of some active scope.
    pub fn lookup_v(&self, token: &String) -> (r: bool)
        ensures
            r == is_var(self@, token@),
    {
        let mut i: usize = 0;
        while i < self.list.len()
            invariant
                0 <= i <= self.list.len(),
                forall|j: int| 0 <= j < i ==> !(#[trigger] self@[j]).v.contains(token@),
            decreases self.list.len() - i,
        {
            if stmt_contains(&self.list[i].v, token) {
                assert(self@[i as int].v.contains(token@));
                return true;
            }
            i = i + 1;
        }
        false
    }

    /// Declares the floating hypothesis `label: kind var` in the innermost
    /// scope, where `var` is an active variable, `kind` an active constant,
    /// and that scope has none for `var` yet.
    pub fn add_f(&mut self, var: String, kind: String, label: String)
        requires
            old(self)@.len() > 0,
            spec_add_f(old(self)@, var@, kind@, label@) is Ok,
        ensures
            final(self)@ == spec_add_f(old(self)@, var@, kind@, label@)->Ok_0,
    {
        let _ = self.try_add_f(var, kind, label);
    }

    /// Declares the floating hypothesis `label: kind var` in the innermost
    /// scope where that is allowed; refused, with the error that says why and
    /// nothing changed, unless `var` is an active variable and `kind` an
    /// active constant, and if that scope already has one for `var`.
    pub fn try_add_f(&mut self, var: String, kind: String, label: String) -> (r: Result<(), MmError>)
        requires
            old(self)@.len() > 0,
        ensures
            declared(r, spec_add_f(old(self)@, var@, kind@, label@), old(self)@, final(self)@),
    {
        if !self.lookup_v(&var) {
            return Err(MmError::FloatVarUndeclared);
        }
        if !self.lookup_c(&kind) {
            return Err(MmError::FloatTypeUndeclared);
        }
        let n = self.list.len();
        if find_tok_key(&self.list[n - 1].f_labels, &var).is_some() {
            return Err(MmError::FloatRedeclared);
        }
        let ghost fs0 = self@;
        let mut top = self.take_top();
        let ghost f0 = top.f.deep_view();
        let ghost l0 = top.f_labels.deep_view();
        top.f.push((var.clone(), kind));
        top.f_labels.push((var, label));
        assert(top.f.deep_view() =~= f0.push((var@, kind@)));
        assert(top.f_labels.deep_view() =~= l0.push((var@, label@)));
        self.put_top(top);
        assert(self@ =~= set_top(
            fs0,
            FrameView {
                f: fs0.last().f.push((var@, kind@)),
                f_labels: fs0.last().f_labels.push((var@, label@)),
                ..fs0.last()
            },
        ));
        Ok(())
    }

    /// Declares the essential hypothesis `label: stat` in the innermost scope.
    pub fn add_e(&mut self, stat: Vec<String>, label: String)
        requires
            old(self)@.len() > 0,
        ensures
            final(self)@ == spec_add_e(old(self)@, stat.deep_view(), label@),
    {
        let ghost fs0 = self@;
        let ghost sv = stat.deep_view();
        let mut top = self.take_top();
        let ghost e0 = top.e.deep_view();
        let ghost l0 = top.e_labels.deep_view();
        top.e.push(clone_stmt(&stat));
        assert(top.e.deep_view() =~= e0.push(sv));
        match find_stmt_key(&top.e_labels, &stat) {
            Some(i) => {
                proof {
                    lemma_key_index(l0, sv);
                }
                top.e_labels.set(i, (stat, label));
                assert(top.e_labels.deep_view() =~= l0.update(i as int, (sv, label@)));
            },
            None => {
                top.e_labels.push((stat, label));
                assert(top.e_labels.deep_view() =~= l0.push((sv, label@)));
            },
        }
        self.put_top(top);
        assert(self@ =~= spec_add_e(fs0, sv, label@));
    }

    /// Declares the tokens of `stat` pairwise disjoint in the innermost scope.
    pub fn add_d(&mut self, stat: Vec<String>)
        requires
            old(self)@.len() > 0,
        ensures
            final(self)@ == spec_add_d(old(self)@, stat.deep_view()),
    {
        let ghost fs0 = self@;
        let ghost sv = stat.deep_view();
        let mut top = self.take_top();
        let ghost d0 = top.d.deep_view();
        let mut i: usize = 0;
        while i < stat.len()
            invariant
                0 <= i <= stat.len(),
                sv == stat.deep_view(),
                top.d.deep_view() == add_d_all(d0, sv.take(i as int), sv),
                top@.c == fs0.last().c,
                top@.v == fs0.last().v,
                top@.f == fs0.last().f,
                top@.f_labels == fs0.last().f_labels,
                top@.e == fs0.last().e,
                top@.e_labels == fs0.last().e_labels,
            decreases stat.len() - i,
        {
            let ghost row0 = top.d.deep_view();
            let mut j: usize = 0;
            while j < stat.len()
                invariant
                    0 <= i < stat.len(),
                    0 <= j <= stat.len(),
                    sv == stat.deep_view(),
                    top.d.deep_view() == add_d_row(row0, sv[i as int], sv.take(j as int)),
                    top@.c == fs0.last().c,
                    top@.v == fs0.last().v,
                    top@.f == fs0.last().f,
                    top@.f_labels == fs0.last().f_labels,
                    top@.e == fs0.last().e,
                    top@.e_labels == fs0.last().e_labels,
                decreases stat.len() - j,
            {
                assert(sv.take(j + 1).drop_last() =~= sv.take(j as int));
                assert(sv.take(j + 1).last() == sv[j as int]);
                if !(stat[i] == stat[j]) {
                    let p = ordered_pair(&stat[i], &stat[j]);
                    if !pairs_contain(&top.d, &p) {
                        let ghost dd = top.d.deep_view();
                        top.d.push(p);
                        assert(top.d.deep_view() =~= dd.push(norm_pair(sv[i as int], sv[j as int])));
                    }
                }
                j = j + 1;
            }
            assert(sv.take(i + 1).drop_last() =~= sv.take(i as int));
            assert(sv.take(i + 1).last() == sv[i as int]);
            assert(sv.take(stat.len() as int) =~= sv);
            i = i + 1;
        }
        assert(sv.take(stat.len() as int) =~= sv);
        self.put_top(top);
        assert(self@ =~= spec_add_d(fs0, sv));
    }

    /// Whether some active scope declares `x` and `y` disjoint.
    pub fn lookup_d(&self, x: &String, y: &String) -> (r: bool)
        ensures
            r == is_disjoint(self@, x@, y@),
    {
        let p = ordered_pair(x, y);
        assert(p.deep_view() == norm_pair(x@, y@));
        let mut i: usize = 0;
        while i < self.list.len()
            invariant
                0 <= i <= self.list.len(),
                p.deep_view() == norm_pair(x@, y@),
                forall|j: int| 0 <= j < i ==> !(#[trigger] self@[j]).d.contains(norm_pair(x@, y@)),
            decreases self.list.len() - i,
        {
            if pairs_contain(&self.list[i].d, &p) {
                assert(self@[i as int].d.contains(norm_pair(x@, y@)));
                return true;
            }
            i = i + 1;
        }
        false
    }

    /// The label of the floating hypothesis of `var` in the innermost scope
    /// that has one; some scope must have one.
    pub fn lookup_f(&self, var: &String) -> (r: String)
        requires
            f_label(self@, var@) is Some,
        ensures
            Some(r@) == f_label(self@, var@),
    {
        match self.find_f(var) {
            Some(l) => l,
            None => String::new(),
        }
    }

    /// The label of the floating hypothesis of `var` in the innermost scope
    /// that has one; `None` if no scope has one.
    pub fn find_f(&self, var: &String) -> (r: Option<String>)
        ensures
            opt_tok(r) == f_label(self@, var@),
    {
        let mut i: usize = self.list.len();
        assert(self@.take(i as int) =~= self@);
        while i > 0
            invariant
                0 <= i <= self.list.len(),
                f_label(self@, var@) == f_label(self@.take(i as int), var@),
            decreases i,
        {
            let ghost t = self@.take(i as int);
            assert(t.drop_last() =~= self@.take(i - 1));
            assert(t.last() == self@[i - 1]);
            match find_tok_key(&self.list[i - 1].f_labels, var) {
                Some(k) => {
                    proof {
                        lemma_key_index(self@[i - 1].f_labels, var@);
                    }
                    return Some(self.list[i - 1].f_labels[k].1.clone());
                },
                None => {},
            }
            i = i - 1;
        }
        None
    }

    /// The label of the essential hypothesis `stmt` in the innermost scope
    /// that has one; some scope must have one.
    pub fn lookup_e(&self, stmt: &Vec<String>) -> (r: String)
        requires
            e_label(self@, stmt.deep_view()) is Some,
        ensures
            Some(r@) == e_label(self@, stmt.deep_view()),
    {
        match self.find_e(stmt) {
            Some(l) => l,
            None => String::new(),
        }
    }

    /// The label of the essential hypothesis `stmt` in the innermost scope
    /// that has one; `None` if no scope has one.
    pub fn find_e(&self, stmt: &Vec<String>) -> (r: Option<String>)
        ensures
            opt_tok(r) == e_label(self@, stmt.deep_view()),
    {
        let mut i: usize = self.list.len();
        assert(self@.take(i as int) =~= self@);
        while i > 0
            invariant
                0 <= i <= self.list.len(),
                e_label(self@, stmt.deep_view()) == e_label(self@.take(i as int), stmt.deep_view()),
            decreases i,
        {
            let ghost t = self@.take(i as int);
            assert(t.drop_last() =~= self@.take(i - 1));
            assert(t.last() == self@[i - 1]);
            match find_stmt_key(&self.list[i - 1].e_labels, stmt) {
                Some(k) => {
                    proof {
                        lemma_key_index(self@[i - 1].e_labels, stmt.deep_view());
                    }
                    return Some(self.list[i - 1].e_labels[k].1.clone());
                },
                None => {},
            }
            i = i - 1;
        }
        None
    }

    /// The essential hypotheses of all active scopes, outermost first.
    fn collect_e(&self) -> (r: Vec<Vec<String>>)
        ensures
            r.deep_view() == all_e(self@),
    {
        let mut r: Vec<Vec<String>> = Vec::new();
        let mut i: usize = 0;
        assert(r.deep_view() =~= all_e(self@.take(0)));
        while i < self.list.len()
            invariant
                0 <= i <= self.list.len(),
                r.deep_view() == all_e(self@.take(i as int)),
            decreases self.list.len() - i,
        {
            let ghost r0 = r.deep_view();
            let mut j: usize = 0;
            assert(self@[i as int].e.take(0) =~= Seq::<Seq<Tok>>::empty());
            assert(r0 + self@[i as int].e.take(0) =~= r0);
            while j < self.list[i].e.len()
                invariant
                    0 <= i < self.list.len(),
                    0 <= j <= self.list[i as int].e.len(),
                    r.deep_view() == r0 + self@[i as int].e.take(j as int),
                decreases self.list[i as int].e.len() - j,
            {
                let t = clone_stmt(&self.list[i].e[j]);
                let ghost before = r.deep_view();
                r.push(t);
                assert(r.deep_view() =~= before.push(t.deep_view()));
                assert(self@[i as int].e.take(j + 1) =~= self@[i as int].e.take(j as int).push(
                    t.deep_view(),
                ));
                j = j + 1;
            }
            assert(self@[i as int].e.take(j as int) =~= self@[i as int].e);
            assert(self@.take(i + 1).drop_last() =~= self@.take(i as int));
            assert(self@.take(i + 1).last() == self@[i as int]);
            i = i + 1;
        }
        assert(self@.take(i as int) =~= self@);
        r
    }

    /// The disjoint-variable pairs of all active scopes, outermost first.
    fn collect_d(&self) -> (r: Vec<(String, String)>)
        ensures
            r.deep_view() == all_d(self@),
    {
        let mut r: Vec<(String, String)> = Vec::new();
        let mut i: usize = 0;
        assert(r.deep_view() =~= all_d(self@.take(0)));
        while i < self.list.len()
            invariant
                0 <= i <= self.list.len(),
                r.deep_view() == all_d(self@.take(i as int)),
            decreases self.list.len() - i,
        {
            let ghost r0 = r.deep_view();
            let mut j: usize = 0;
            assert(r0 + self@[i as int].d.take(0) =~= r0);
            while j < self.list[i].d.len()
                invariant
                    0 <= i < self.list.len(),
                    0 <= j <= self.list[i as int].d.len(),
                    r.deep_view() == r0 + self@[i as int].d.take(j as int),
                decreases self.list[i as int].d.len() - j,
            {
                let t = clone_pair(&self.list[i].d[j]);
                let ghost before = r.deep_view();
                r.push(t);
                assert(r.deep_view() =~= before.push(t.deep_view()));
                assert(self@[i as int].d.take(j + 1) =~= self@[i as int].d.take(j as int).push(
                    t.deep_view(),
                ));
                j = j + 1;
            }
            assert(self@[i as int].d.take(j as int) =~= self@[i as int].d);
            assert(self@.take(i + 1).drop_last() =~= self@.take(i as int));
            assert(self@.take(i + 1).last() == self@[i as int]);
            i = i + 1;
        }
        assert(self@.take(i as int) =~= self@);
        r
    }

    /// The floating hypotheses of all active scopes, innermost scope first.
    fn collect_rev_f(&self) -> (r: Vec<(String, String)>)
        ensures
            r.deep_view() == rev_f(self@),
    {
        let mut r: Vec<(String, String)> = Vec::new();
        let mut k: usize = self.list.len();
        assert(self@.take(k as int) =~= self@);
        assert(r.deep_view() + rev_f(self@.take(k as int)) =~= rev_f(self@));
        while k > 0
            invariant
                0 <= k <= self.list.len(),
                r.deep_view() + rev_f(self@.take(k as int)) == rev_f(self@),
            decreases k,
        {
            let ghost r0 = r.deep_view();
            let i = k - 1;
            let ghost fr = self@[i as int].f.reverse();
            let n = self.list[i].f.len();
            let mut j: usize = n;
            assert(r0 + fr.take(0) =~= r0);
            while j > 0
                invariant
                    i < self.list.len(),
                    n == self.list[i as int].f.len(),
                    fr == self@[i as int].f.reverse(),
                    0 <= j <= n,
                    r.deep_view() == r0 + fr.take(n - j),
                decreases j,
            {
                j = j - 1;
                let t = clone_pair(&self.list[i].f[j]);
                let ghost before = r.deep_view();
                r.push(t);
                assert(r.deep_view() =~= before.push(t.deep_view()));
                assert(fr[n - 1 - j] == t.deep_view());
                assert(fr.take(n - j) =~= fr.take(n - j - 1).push(t.deep_view()));
            }
            assert(fr.take(n as int) =~= fr);
            assert(self@.take(k as int).drop_last() =~= self@.take(i as int));
            assert(self@.take(k as int).last() == self@[i as int]);
            assert(r0 + rev_f(self@.take(k as int)) =~= r.deep_view() + rev_f(self@.take(i as int)));
            k = i;
        }
        assert(rev_f(self@.take(0)) =~= Seq::<(Tok, Tok)>::empty());
        assert(r.deep_view() + rev_f(self@.take(0)) =~= r.deep_view());
        r
    }

    /// Whether `t` is an active variable among `toks`.
    fn is_mand_tok(&self, toks: &Vec<String>, t: &String) -> (r: bool)
        ensures
            r == is_mand(self@, toks.deep_view(), t@),
    {
        stmt_contains(toks, t) && self.lookup_v(t)
    }

    /// The assertion `stat` in the active scopes, with its mandatory
    /// hypotheses and disjoint-variable conditions.
    pub fn make_assertion(&self, stat: Vec<String>) -> (a: Assertion)
        requires
            self@.len() > 0,
        ensures
            a.deep_view() == spec_make_assertion(self@, stat.deep_view()),
    {
        let e_hyps = self.collect_e();
        let toks = flatten_with(&e_hyps, &stat);
        let ghost tv = toks.deep_view();
        let ds = self.collect_d();
        let mut dvs: Vec<(String, String)> = Vec::new();
        let mut i: usize = 0;
        assert(ds.deep_view().take(0) =~= Seq::<(Tok, Tok)>::empty());
        assert(dvs.deep_view() =~= Seq::<(Tok, Tok)>::empty());
        while i < ds.len()
            invariant
                0 <= i <= ds.len(),
                tv == toks.deep_view(),
                dvs.deep_view() == select_dvs(self@, tv, ds.deep_view().take(i as int)),
            decreases ds.len() - i,
        {
            assert(ds.deep_view().take(i + 1).drop_last() =~= ds.deep_view().take(i as int));
            assert(ds.deep_view().take(i + 1).last() == ds.deep_view()[i as int]);
            if self.is_mand_tok(&toks, &ds[i].0) && self.is_mand_tok(&toks, &ds[i].1)
                && !pairs_contain(&dvs, &ds[i]) {
                let ghost before = dvs.deep_view();
                dvs.push(clone_pair(&ds[i]));
                assert(dvs.deep_view() =~= before.push(ds.deep_view()[i as int]));
            }
            i = i + 1;
        }
        assert(ds.deep_view().take(i as int) =~= ds.deep_view());
        let fe = self.collect_rev_f();
        let mut sel: Vec<(String, String)> = Vec::new();
        let mut i: usize = 0;
        assert(fe.deep_view().take(0) =~= Seq::<(Tok, Tok)>::empty());
        assert(sel.deep_view() =~= Seq::<(Tok, Tok)>::empty());
        while i < fe.len()
            invariant
                0 <= i <= fe.len(),
                tv == toks.deep_view(),
                sel.deep_view() == select_f(self@, tv, fe.deep_view().take(i as int)),
            decreases fe.len() - i,
        {
            assert(fe.deep_view().take(i + 1).drop_last() =~= fe.deep_view().take(i as int));
            assert(fe.deep_view().take(i + 1).last() == fe.deep_view()[i as int]);
            if self.is_mand_tok(&toks, &fe[i].0) && !firsts_contain(&sel, &fe[i].0) {
                let ghost before = sel.deep_view();
                sel.push(clone_pair(&fe[i]));
                assert(sel.deep_view() =~= before.push(fe.deep_view()[i as int]));
            }
            i = i + 1;
        }
        assert(fe.deep_view().take(i as int) =~= fe.deep_view());
        let mut f_hyps: Vec<(String, String)> = Vec::new();
        let mut k: usize = sel.len();
        while k > 0
            invariant
                0 <= k <= sel.len(),
                f_hyps.len() == sel.len() - k,
                forall|j: int|
                    0 <= j < f_hyps.len() ==> #[trigger] f_hyps.deep_view()[j] == (
                        sel.deep_view()[sel.len() - 1 - j].1,
                        sel.deep_view()[sel.len() - 1 - j].0,
                    ),
            decreases k,
        {
            k = k - 1;
            let ghost before = f_hyps.deep_view();
            let ghost q = sel.deep_view()[k as int];
            f_hyps.push((sel[k].1.clone(), sel[k].0.clone()));
            assert(f_hyps.deep_view() =~= before.push((q.1, q.0)));
        }
        assert(f_hyps.deep_view() =~= swap_pairs(sel.deep_view().reverse()));
        Assertion { dvs, f_hyps, e_hyps, stat }
    }
}

/// The tokens of the statements `ss` followed by those of `stat`.
fn flatten_with(ss: &Vec<Vec<String>>, stat: &Vec<String>) -> (r: Vec<String>)
    ensures
        r.deep_view() == flatten_toks(ss.deep_view()) + stat.deep_view(),
{
    let mut r: Vec<String> = Vec::new();
    let mut i: usize = 0;
    assert(r.deep_view() =~= flatten_toks(ss.deep_view().take(0)));
    while i < ss.len()
        invariant
            0 <= i <= ss.len(),
            r.deep_view() == flatten_toks(ss.deep_view().take(i as int)),
        decreases ss.len() - i,
    {
        let ghost r0 = r.deep_view();
        let mut j: usize = 0;
        assert(r0 + ss.deep_view()[i as int].take(0) =~= r0);
        while j < ss[i].len()
            invariant
                0 <= i < ss.len(),
                0 <= j <= ss[i as int].len(),
                r.deep_view() == r0 + ss.deep_view()[i as int].take(j as int),
            decreases ss[i as int].len() - j,
        {
            let t = ss[i][j].clone();
            let ghost before = r.deep_view();
            r.push(t);
            assert(r.deep_view() =~= before.push(t@));
            assert(ss.deep_view()[i as int].take(j + 1) =~= ss.deep_view()[i as int].take(
                j as int,
            ).push(t@));
            j = j + 1;
        }
        assert(ss.deep_view()[i as int].take(j as int) =~= ss.deep_view()[i as int]);
        assert(ss.deep_view().take(i + 1).drop_last() =~= ss.deep_view().take(i as int));
        assert(ss.deep_view().take(i + 1).last() == ss.deep_view()[i as int]);
        i = i + 1;
    }
    assert(ss.deep_view().take(i as int) =~= ss.deep_view());
    let ghost r0 = r.deep_view();
    let mut j: usize = 0;
    assert(r0 + stat.deep_view().take(0) =~= r0);
    while j < stat.len()
        invariant
            0 <= j <= stat.len(),
            r.deep_view() == r0 + stat.deep_view().take(j as int),
        decreases stat.len() - j,
    {
        let t = stat[j].clone();
        let ghost before = r.deep_view();
        r.push(t);
        assert(r.deep_view() =~= before.push(t@));
        assert(stat.deep_view().take(j + 1) =~= stat.deep_view().take(j as int).push(t@));
        j = j + 1;
    }
    assert(stat.deep_view().take(j as int) =~= stat.deep_view());
    r
}

} // verus!
