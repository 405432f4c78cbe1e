use lib::error::MmError;
use lib::frame::FrameStack;
use lib::mm::{ReadOutcome, MM};
use lib::stream::TokenStream;
use lib::text::{ordered_pair, split_whitespace, token_le};
use lib::tokens::{FileStep, ScanEnd, Tokens};

fn s(t: &str) -> String {
    t.to_string()
}

fn stmt(t: &str) -> Vec<String> {
    t.split_whitespace().map(|x| x.to_string()).collect()
}

fn lines(text: &str) -> Vec<String> {
    text.lines().map(|l| format!("{}\n", l)).collect()
}

fn toks(text: &str) -> Tokens {
    Tokens::new(lines(text))
}

/// Scans `text`, reading each included file from `files`; a file that is
/// not there cannot be read.
fn stream_with(text: &str, files: &[(&str, &str)]) -> TokenStream {
    let mut t = toks(text);
    let mut out = Vec::new();
    let end = loop {
        match t.scan(&mut out) {
            Ok(ScanEnd::Finished) => break Ok(()),
            Ok(ScanEnd::Include(name)) => match files.iter().find(|(n, _)| *n == name) {
                Some((_, body)) => t.push_lines(lines(body)),
                None => break Err(MmError::Include),
            },
            Err(e) => break Err(e),
        }
    };
    TokenStream::new(out, end)
}

fn stream(text: &str) -> TokenStream {
    stream_with(text, &[])
}

fn run(text: &str) -> (Result<ReadOutcome, MmError>, MM) {
    run_with(text, None, None)
}

fn run_with(text: &str, begin: Option<&str>, stop: Option<&str>) -> (Result<ReadOutcome, MmError>, MM) {
    let mut mm = MM::new(begin.map(s), stop.map(s));
    let mut t = stream(text);
    let r = mm.try_read(&mut t);
    (r, mm)
}

fn run_files(text: &str, files: &[(&str, &str)]) -> Result<ReadOutcome, MmError> {
    let mut mm = MM::new(None, None);
    let mut t = stream_with(text, files);
    mm.try_read(&mut t)
}

const PROP: &str = "$c ( ) -> wff |- $.\n$v p q $.\nwp $f wff p $.\nwq $f wff q $.\nw2 $a wff ( p -> q ) $.\n${ min $e |- p $. maj $e |- ( p -> q ) $. mp $a |- q $. $}\n";

const DV: &str = "$c wff |- $.\n$v x y $.\nwx $f wff x $.\nwy $f wff y $.\n${ $d x y $. ax $a |- x y $. $}\n";

// ---- raw tokens and inclusions ----

#[test]
fn split_whitespace_words() {
    let v = split_whitespace(&s("  a\tbc  $.\n"));
    assert_eq!(v, vec![s("a"), s("bc"), s("$.")]);
    assert_eq!(split_whitespace(&s("   \n")), Vec::<String>::new());
    assert_eq!(split_whitespace(&s("x\u{3000}y")), vec![s("x"), s("y")]);
}

#[test]
fn read_tokens_across_lines() {
    let mut t = toks("a b\n\n  c\n");
    assert_eq!(t.read(), Some(s("a")));
    assert_eq!(t.read(), Some(s("b")));
    assert_eq!(t.read(), Some(s("c")));
    assert_eq!(t.read(), None);
    assert!(t.is_done());
}

#[test]
fn read_comment_skips_comments() {
    let mut t = toks("$( a comment $) x $( another\n one $) y");
    assert_eq!(t.try_read_comment(), Ok(FileStep::Token(Some(s("x")))));
    assert_eq!(t.try_read_comment(), Ok(FileStep::Token(Some(s("y")))));
    assert_eq!(t.try_read_comment(), Ok(FileStep::Token(None)));
    assert_eq!(t.try_read_comment(), Err(MmError::ReadPastEnd));
}

#[test]
fn unterminated_comment_fails() {
    let mut t = toks("$( never closed");
    assert_eq!(t.try_read_comment(), Err(MmError::ReadPastEnd));
}

#[test]
fn included_file_is_read_in_place() {
    let mut t = toks("$[ a.mm $]\nw");
    assert_eq!(t.try_read_file(), Ok(FileStep::Include(s("a.mm"))));
    t.push_lines(lines("y z"));
    assert_eq!(t.read(), Some(s("y")));
    assert_eq!(t.read(), Some(s("z")));
    assert_eq!(t.read(), Some(s("w")));
    assert_eq!(t.read(), None);
}

#[test]
fn rest_of_line_comes_before_included_file() {
    let mut t = toks("$[ a.mm $] v\nw");
    assert_eq!(t.try_read_file(), Ok(FileStep::Include(s("a.mm"))));
    t.push_lines(lines("y"));
    assert_eq!(t.try_read_file(), Ok(FileStep::Token(Some(s("v")))));
    assert_eq!(t.try_read_file(), Ok(FileStep::Token(Some(s("y")))));
    assert_eq!(t.try_read_file(), Ok(FileStep::Token(Some(s("w")))));
    assert_eq!(t.try_read_file(), Ok(FileStep::Token(None)));
}

#[test]
fn repeated_inclusion_is_skipped() {
    let mut t = toks("$[ a.mm $] $[ a.mm $] t");
    assert_eq!(t.try_read_file(), Ok(FileStep::Include(s("a.mm"))));
    t.push_lines(lines("y"));
    assert_eq!(t.try_read_file(), Ok(FileStep::Token(Some(s("t")))));
    assert_eq!(t.try_read_file(), Ok(FileStep::Token(Some(s("y")))));
    assert_eq!(t.try_read_file(), Ok(FileStep::Token(None)));
}

#[test]
fn malformed_inclusions() {
    assert_eq!(toks("$[").try_read_file(), Err(MmError::IncludeNameMissing));
    assert_eq!(toks("$[ f").try_read_file(), Err(MmError::IncludeEndMissing));
    assert_eq!(toks("$[ f g").try_read_file(), Err(MmError::IncludeEndBracket));
    assert_eq!(toks("x $[").try_read_file(), Ok(FileStep::Token(Some(s("x")))));
}

#[test]
fn scan_collects_tokens_outside_comments() {
    let mut t = toks("a $( $[ f.mm $] $) b\n$[ g.mm $] c");
    let mut out = Vec::new();
    assert_eq!(t.scan(&mut out), Ok(ScanEnd::Include(s("g.mm"))));
    assert_eq!(out, vec![s("a"), s("b")]);
    t.push_lines(lines("$( in g $) d"));
    assert_eq!(t.scan(&mut out), Ok(ScanEnd::Finished));
    assert_eq!(out, vec![s("a"), s("b"), s("c"), s("d")]);
}

#[test]
fn scan_stops_at_an_error() {
    let mut t = toks("a $( open");
    let mut out = Vec::new();
    assert_eq!(t.scan(&mut out), Err(MmError::ReadPastEnd));
    assert_eq!(out, vec![s("a")]);
}

// ---- scanned streams ----

#[test]
fn readstat_stops_at_dot() {
    let mut t = stream("a $( c $) b\n c $. d $.");
    assert_eq!(t.try_readstat(), Ok(vec![s("a"), s("b"), s("c")]));
    assert_eq!(t.try_readstat(), Ok(vec![s("d")]));
    assert_eq!(t.try_readstat(), Err(MmError::StatementEof));
}

#[test]
fn readstat_eof() {
    let mut t = stream("a b");
    assert_eq!(t.try_readstat(), Err(MmError::StatementEof));
}

#[test]
fn stream_ends_with_the_scan_error() {
    let mut t = TokenStream::new(vec![s("a")], Err(MmError::IncludeEndBracket));
    assert_eq!(t.try_read_comment(), Ok(Some(s("a"))));
    assert_eq!(t.try_read_comment(), Err(MmError::IncludeEndBracket));
    let mut u = TokenStream::new(vec![], Ok(()));
    assert_eq!(u.try_read_comment(), Ok(None));
    assert!(u.is_done());
    assert_eq!(u.try_read_comment(), Err(MmError::ReadPastEnd));
}

// ---- order of tokens ----

#[test]
fn token_order() {
    assert!(token_le(&s("a"), &s("b")));
    assert!(!token_le(&s("b"), &s("a")));
    assert!(token_le(&s("ab"), &s("abc")));
    assert!(token_le(&s("a"), &s("a")));
    assert!(token_le(&s("B"), &s("a")));
    assert_eq!(ordered_pair(&s("q"), &s("p")), (s("p"), s("q")));
    assert_eq!(ordered_pair(&s("p"), &s("q")), (s("p"), s("q")));
}

// ---- frame stack ----

#[test]
fn frames_constants_and_variables() {
    let mut fs = FrameStack::new();
    fs.push();
    assert_eq!(fs.try_add_c(s("wff")), Ok(()));
    assert_eq!(fs.try_add_v(s("p")), Ok(()));
    assert!(fs.lookup_c(&s("wff")));
    assert!(!fs.lookup_c(&s("p")));
    assert!(fs.lookup_v(&s("p")));
    assert_eq!(fs.try_add_c(s("wff")), Err(MmError::ConstRedeclared));
    assert_eq!(fs.try_add_c(s("p")), Err(MmError::ConstIsVariable));
    assert_eq!(fs.try_add_v(s("wff")), Err(MmError::VariableIsConst));
    assert_eq!(fs.try_add_v(s("p")), Err(MmError::VariableRedeclared));
    fs.push();
    assert!(fs.lookup_c(&s("wff")));
    assert_eq!(fs.try_add_v(s("wff")), Ok(()));
    assert!(fs.lookup_v(&s("wff")));
    fs.pop();
    assert!(!fs.lookup_v(&s("wff")));
    assert_eq!(fs.depth(), 1);
}

#[test]
fn frames_floating_hypotheses() {
    let mut fs = FrameStack::new();
    fs.push();
    fs.try_add_c(s("wff")).unwrap();
    fs.try_add_v(s("p")).unwrap();
    assert_eq!(fs.try_add_f(s("q"), s("wff"), s("wq")), Err(MmError::FloatVarUndeclared));
    assert_eq!(fs.try_add_f(s("p"), s("set"), s("wp")), Err(MmError::FloatTypeUndeclared));
    assert_eq!(fs.try_add_f(s("p"), s("wff"), s("wp")), Ok(()));
    assert_eq!(fs.try_add_f(s("p"), s("wff"), s("wp2")), Err(MmError::FloatRedeclared));
    assert_eq!(fs.find_f(&s("p")), Some(s("wp")));
    assert_eq!(fs.find_f(&s("q")), None);
    fs.push();
    assert_eq!(fs.try_add_f(s("p"), s("wff"), s("wp3")), Ok(()));
    assert_eq!(fs.find_f(&s("p")), Some(s("wp3")));
    fs.pop();
    assert_eq!(fs.find_f(&s("p")), Some(s("wp")));
}

#[test]
fn frames_essential_hypotheses() {
    let mut fs = FrameStack::new();
    fs.push();
    fs.add_e(stmt("|- p"), s("h1"));
    assert_eq!(fs.find_e(&stmt("|- p")), Some(s("h1")));
    fs.add_e(stmt("|- p"), s("h2"));
    assert_eq!(fs.find_e(&stmt("|- p")), Some(s("h2")));
    assert_eq!(fs.find_e(&stmt("|- q")), None);
    fs.push();
    fs.add_e(stmt("|- p"), s("h3"));
    assert_eq!(fs.find_e(&stmt("|- p")), Some(s("h3")));
    fs.pop();
    assert_eq!(fs.find_e(&stmt("|- p")), Some(s("h2")));
}

#[test]
fn frames_disjoint_pairs_symmetric() {
    let mut fs = FrameStack::new();
    fs.push();
    fs.add_d(stmt("x y z"));
    assert!(fs.lookup_d(&s("x"), &s("y")));
    assert!(fs.lookup_d(&s("y"), &s("x")));
    assert!(fs.lookup_d(&s("z"), &s("x")));
    assert!(!fs.lookup_d(&s("x"), &s("x")));
    assert!(!fs.lookup_d(&s("x"), &s("w")));
    fs.push();
    assert!(fs.lookup_d(&s("z"), &s("y")));
    fs.add_d(stmt("w x x"));
    assert!(fs.lookup_d(&s("x"), &s("w")));
    assert!(!fs.lookup_d(&s("x"), &s("x")));
    fs.pop();
    assert!(!fs.lookup_d(&s("x"), &s("w")));
}

#[test]
fn make_assertion_floats_in_declaration_order() {
    let mut fs = FrameStack::new();
    fs.push();
    fs.try_add_c(s("wff")).unwrap();
    fs.try_add_c(s("|-")).unwrap();
    fs.try_add_v(s("ph")).unwrap();
    fs.try_add_v(s("ps")).unwrap();
    fs.try_add_f(s("ph"), s("wff"), s("wph")).unwrap();
    fs.try_add_f(s("ps"), s("wff"), s("wps")).unwrap();
    fs.add_d(stmt("ph ps"));
    let a = fs.make_assertion(stmt("|- ps ph"));
    assert_eq!(a.dvs, vec![(s("ph"), s("ps"))]);
    assert_eq!(a.f_hyps, vec![(s("wff"), s("ph")), (s("wff"), s("ps"))]);
    assert_eq!(a.e_hyps, Vec::<Vec<String>>::new());
    assert_eq!(a.stat, stmt("|- ps ph"));
}

#[test]
fn make_assertion_collects_hypotheses() {
    let mut fs = FrameStack::new();
    fs.push();
    fs.try_add_c(s("|-")).unwrap();
    fs.try_add_c(s("wff")).unwrap();
    fs.try_add_v(s("p")).unwrap();
    fs.try_add_v(s("q")).unwrap();
    fs.try_add_v(s("r")).unwrap();
    fs.try_add_f(s("p"), s("wff"), s("wp")).unwrap();
    fs.try_add_f(s("r"), s("wff"), s("wr")).unwrap();
    fs.add_d(stmt("p q r"));
    fs.push();
    fs.add_e(stmt("|- p"), s("h"));
    let a = fs.make_assertion(stmt("|- q"));
    assert_eq!(a.e_hyps, vec![stmt("|- p")]);
    assert_eq!(a.stat, stmt("|- q"));
    assert_eq!(a.dvs, vec![(s("p"), s("q"))]);
    // r is not mandatory, and q has no floating hypothesis.
    assert_eq!(a.f_hyps, vec![(s("wff"), s("p"))]);
}

#[test]
fn make_assertion_innermost_float_wins() {
    let mut fs = FrameStack::new();
    fs.push();
    fs.try_add_c(s("wff")).unwrap();
    fs.try_add_c(s("set")).unwrap();
    fs.try_add_v(s("x")).unwrap();
    fs.try_add_f(s("x"), s("wff"), s("wx")).unwrap();
    fs.push();
    fs.try_add_f(s("x"), s("set"), s("sx")).unwrap();
    let a = fs.make_assertion(stmt("wff x"));
    assert_eq!(a.f_hyps, vec![(s("set"), s("x"))]);
    fs.pop();
    let b = fs.make_assertion(stmt("wff x"));
    assert_eq!(b.f_hyps, vec![(s("wff"), s("x"))]);
}

// ---- substitution and variables ----

#[test]
fn apply_subst_replaces_tokens() {
    let mm = MM::new(None, None);
    let subst = vec![(s("p"), stmt("( a -> b )")), (s("q"), stmt(""))];
    assert_eq!(mm.apply_subst(&stmt("|- p q p x"), &subst), stmt("|- ( a -> b ) ( a -> b ) x"));
    assert_eq!(mm.apply_subst(&stmt("|- p"), &vec![]), stmt("|- p"));
    assert_eq!(mm.apply_subst(&vec![], &subst), Vec::<String>::new());
}

#[test]
fn apply_subst_concat() {
    let mm = MM::new(None, None);
    let subst = vec![(s("p"), stmt("a b"))];
    let left = mm.apply_subst(&stmt("x p"), &subst);
    let right = mm.apply_subst(&stmt("p y"), &subst);
    let whole = mm.apply_subst(&stmt("x p p y"), &subst);
    let mut joined = left.clone();
    joined.extend(right);
    assert_eq!(whole, joined);
}

#[test]
fn find_vars_in_order_once() {
    let (r, mm) = run("$c wff $.\n$v p q $.\n");
    assert_eq!(r, Ok(ReadOutcome::Finished));
    // The scope is closed after reading: no variable is active.
    assert_eq!(mm.find_vars(&stmt("q p q")), Vec::<String>::new());
}

#[test]
fn find_vars_active_scope() {
    let text = format!("{}stop $a wff p $.\n", PROP);
    let (r, mm) = run_with(&text, None, Some("stop"));
    assert_eq!(r, Ok(ReadOutcome::Stopped));
    assert_eq!(mm.frames().depth(), 1);
    assert_eq!(mm.find_vars(&stmt("wff q ( p -> q )")), vec![s("q"), s("p")]);
    assert_eq!(mm.find_vars(&stmt("wff ( )")), Vec::<String>::new());
}

// ---- reading databases ----

#[test]
fn read_declarations_and_labels() {
    let (r, mm) = run(PROP);
    assert_eq!(r, Ok(ReadOutcome::Finished));
    assert!(mm.has_label(&s("wp")));
    assert!(mm.has_label(&s("w2")));
    assert!(mm.has_label(&s("mp")));
    assert!(!mm.has_label(&s("x")));
    assert_eq!(mm.label_kind(&s("wp")), Some(s("$f")));
    assert_eq!(mm.label_kind(&s("w2")), Some(s("$a")));
    assert_eq!(mm.label_kind(&s("min")), Some(s("$e")));
    assert_eq!(mm.frames().depth(), 0);
}

#[test]
fn essential_hypothesis_label_kind() {
    let (r, mm) = run("$c |- $. $v x $. e1 $e |- x $.");
    assert_eq!(r, Ok(ReadOutcome::Finished));
    assert_eq!(mm.label_kind(&s("e1")), Some(s("$e")));
}

#[test]
fn label_is_used_up_by_essential_hypothesis() {
    assert_eq!(run("$c |- $. $v x $. e1 $e |- x $. $a |- x $.").0, Err(MmError::LabelMissing));
}

#[test]
fn hypothesis_proof_is_accepted() {
    let text = format!("{}th $p wff p $= wp $.\n", PROP);
    let (r, mm) = run(&text);
    assert_eq!(r, Ok(ReadOutcome::Finished));
    assert_eq!(mm.label_kind(&s("th")), Some(s("$p")));
}

#[test]
fn assertion_step_pops_and_pushes() {
    let text = format!("{}th $p wff ( p -> q ) $= wp wq w2 $.\n", PROP);
    assert_eq!(run(&text).0, Ok(ReadOutcome::Finished));
    let text = format!("{}th $p wff ( p -> ( p -> q ) ) $= wp wp wq w2 w2 $.\n", PROP);
    assert_eq!(run(&text).0, Ok(ReadOutcome::Finished));
}

#[test]
fn modus_ponens_proof() {
    let text = format!("{}${{ h1 $e |- p $. h2 $e |- ( p -> q ) $. th $p |- q $= wp wq h1 h2 mp $. $}}\n", PROP);
    assert_eq!(run(&text).0, Ok(ReadOutcome::Finished));
}

#[test]
fn stack_underflow() {
    let text = format!("{}th $p wff p $= wp w2 $.\n", PROP);
    assert_eq!(run(&text).0, Err(MmError::StackUnderflow));
    let text = format!("{}th $p wff ( p -> q ) $= w2 $.\n", PROP);
    assert_eq!(run(&text).0, Err(MmError::StackUnderflow));
}

#[test]
fn stack_size() {
    let text = format!("{}th $p wff p $= wp wp $.\n", PROP);
    assert_eq!(run(&text).0, Err(MmError::StackSize));
}

#[test]
fn hypothesis_mismatch() {
    let text = format!("{}${{ h1 $e |- p $. h2 $e |- ( p -> q ) $. th $p |- q $= wp wq h2 h1 mp $. $}}\n", PROP);
    assert_eq!(run(&text).0, Err(MmError::HypothesisMismatch));
}

#[test]
fn float_mismatch() {
    let text = format!("{}${{ h1 $e |- p $. h2 $e |- ( p -> q ) $. th $p |- q $= h1 wq h1 h2 mp $. $}}\n", PROP);
    assert_eq!(run(&text).0, Err(MmError::FloatMismatch));
}

#[test]
fn disjoint_violation() {
    let text = format!("{}th $p |- x x $= wx wx ax $.\n", DV);
    assert_eq!(run(&text).0, Err(MmError::DisjointViolation));
    let text = format!("{}th $p |- x y $= wx wy ax $.\n", DV);
    assert_eq!(run(&text).0, Err(MmError::DisjointViolation));
}

#[test]
fn disjoint_condition_met() {
    let text = format!("{}${{ $d x y $. th $p |- x y $= wx wy ax $. $}}\n", DV);
    assert_eq!(run(&text).0, Ok(ReadOutcome::Finished));
}

#[test]
fn substitution_missing() {
    let text = "$c wff |- $.\n$v x y $.\nwx $f wff x $.\n${ $d x y $. ax $a |- x y $. $}\nth $p |- x $= wx ax $.\n";
    assert_eq!(run(text).0, Err(MmError::SubstitutionMissing));
}

#[test]
fn wrong_conclusion() {
    let text = format!("{}th $p wff q $= wp $.\n", PROP);
    assert_eq!(run(&text).0, Err(MmError::WrongConclusion));
}

#[test]
fn unknown_step() {
    let text = format!("{}th $p wff q $= nope $.\n", PROP);
    assert_eq!(run(&text).0, Err(MmError::UnknownLabel));
}

#[test]
fn empty_statement_or_proof() {
    let text = format!("{}th $p $= wp $.\n", PROP);
    assert_eq!(run(&text).0, Err(MmError::EmptyStatement));
    let text = format!("{}th $p wff p $= $.\n", PROP);
    assert_eq!(run(&text).0, Err(MmError::EmptyStatement));
}

#[test]
fn proof_missing() {
    let text = format!("{}th $p wff p $.\n", PROP);
    assert_eq!(run(&text).0, Err(MmError::ProofMissing));
}

#[test]
fn label_missing() {
    assert_eq!(run("$c wff $. $v p $. $f wff p $.").0, Err(MmError::LabelMissing));
    assert_eq!(run("$c wff $. $a wff $.").0, Err(MmError::LabelMissing));
    assert_eq!(run("$c wff $. $e wff $.").0, Err(MmError::LabelMissing));
    assert_eq!(run("$c wff $. $p wff $= $.").0, Err(MmError::LabelMissing));
}

#[test]
fn float_errors() {
    assert_eq!(run("$c wff $. $v p $. wp $f wff p p $.").0, Err(MmError::FloatLength));
    assert_eq!(run("$c wff $. wp $f wff p $.").0, Err(MmError::FloatVarUndeclared));
    assert_eq!(run("$v p $. wp $f wff p $.").0, Err(MmError::FloatTypeUndeclared));
    assert_eq!(
        run("$c wff $. $v p $. wp $f wff p $. wq $f wff p $.").0,
        Err(MmError::FloatRedeclared)
    );
}

#[test]
fn declaration_errors() {
    assert_eq!(run("$c a a $.").0, Err(MmError::ConstRedeclared));
    assert_eq!(run("$v a $. $c a $.").0, Err(MmError::ConstIsVariable));
    assert_eq!(run("$c a $. $v a $.").0, Err(MmError::VariableIsConst));
    assert_eq!(run("$v a a $.").0, Err(MmError::VariableRedeclared));
    assert_eq!(run("$c a").0, Err(MmError::StatementEof));
}

#[test]
fn blocks_scope_declarations() {
    let (r, mm) = run("$c a $. ${ $v x $. $} $v x $.");
    assert_eq!(r, Ok(ReadOutcome::Finished));
    assert_eq!(mm.frames().depth(), 0);
    assert_eq!(run("$c a $. ${ $c a $. $}").0, Ok(ReadOutcome::Finished));
}

#[test]
fn unclosed_block_reads_past_end() {
    assert_eq!(run("${ $c a $.").0, Err(MmError::ReadPastEnd));
    assert_eq!(run("$c a $. $}").0, Ok(ReadOutcome::Finished));
}

#[test]
fn other_dollar_tokens_are_ignored() {
    assert_eq!(run("$c a $. $. $= $)").0, Ok(ReadOutcome::Finished));
}

#[test]
fn stop_label_stops() {
    let text = format!("{}th $p wff q $= nope $.\n", PROP);
    assert_eq!(run_with(&text, None, Some("th")).0, Ok(ReadOutcome::Stopped));
    assert_eq!(run_with(PROP, None, Some("w2")).0, Ok(ReadOutcome::Stopped));
    assert_eq!(run_with(PROP, None, Some("wp")).0, Ok(ReadOutcome::Finished));
}

#[test]
fn begin_label_skips_earlier_proofs() {
    let text = format!("{}t1 $p wff q $= nope $.\nt2 $p wff p $= wp $.\nt3 $p wff p $= wq $.\n", PROP);
    assert_eq!(run_with(&text, Some("t2"), None).0, Err(MmError::WrongConclusion));
    assert_eq!(run_with(&text, Some("t9"), None).0, Ok(ReadOutcome::Finished));
    assert_eq!(run_with(&text, None, None).0, Err(MmError::UnknownLabel));
}

#[test]
fn redefined_label_is_kept() {
    let (r, mm) = run("$c wff $. $v p $. w $f wff p $. w $a wff $.");
    assert_eq!(r, Ok(ReadOutcome::Finished));
    assert_eq!(mm.label_kind(&s("w")), Some(s("$a")));
}

#[test]
fn database_with_inclusions() {
    let text = "$[ prop.mm $]\n$[ prop.mm $] th $p wff ( p -> q ) $= wp wq w2 $.\n";
    assert_eq!(run_files(text, &[("prop.mm", PROP)]), Ok(ReadOutcome::Finished));
    assert_eq!(run_files(text, &[]), Err(MmError::Include));
    assert_eq!(run("$( $[ set.mm $] $) $c a $.").0, Ok(ReadOutcome::Finished));
    assert_eq!(run("$c a $. $[ x.mm").0, Err(MmError::IncludeEndMissing));
}

// ---- compressed proofs ----

#[test]
fn compressed_proof_accepted() {
    let text = format!("{}th $p wff p $= ( ) A $.\n", PROP);
    assert_eq!(run(&text).0, Ok(ReadOutcome::Finished));
    let text = format!("{}th $p wff ( p -> q ) $= ( w2 ) ABC $.\n", PROP);
    assert_eq!(run(&text).0, Ok(ReadOutcome::Finished));
}

#[test]
fn compressed_proof_saved_step() {
    // A Z B: step 0 (wp), save it, then subproof 0 again: two entries.
    let text = format!("{}th $p wff p $= ( ) AZB $.\n", PROP);
    assert_eq!(run(&text).0, Err(MmError::StackSize));
}

#[test]
fn compressed_errors() {
    let text = format!("{}th $p wff p $= ( ) B $.\n", PROP);
    assert_eq!(run(&text).0, Err(MmError::CompressedBadReference));
    let text = format!("{}th $p wff p $= ( wp A $.\n", PROP);
    assert_eq!(run(&text).0, Err(MmError::CompressedNoParen));
    let text = format!("{}th $p wff p $= ( wp ) Z $.\n", PROP);
    assert_eq!(run(&text).0, Err(MmError::CompressedNoStep));
    let text = format!("{}th $p wff p $= ( wp ) UUUUUUUUUUUUUUUA $.\n", PROP);
    assert_eq!(run(&text).0, Err(MmError::CompressedOverflow));
    let text = format!("{}th $p wff p $= ( nope ) B $.\n", PROP);
    assert_eq!(run(&text).0, Err(MmError::UnknownLabel));
}

#[test]
fn compressed_large_number() {
    // U A = 20 * 1 + 1 - 1 = 20: past the two labels.
    let text = format!("{}th $p wff p $= ( wp ) UA $.\n", PROP);
    assert_eq!(run(&text).0, Err(MmError::CompressedBadReference));
}

#[test]
fn decompress_hypothesis_references() {
    let text = "$c |- A B $.\nh1 $e |- A $.\nax1 $a |- B $.\nstop $a |- A $.\n";
    let (r, mm) = run_with(text, None, Some("stop"));
    assert_eq!(r, Ok(ReadOutcome::Stopped));
    assert_eq!(mm.try_decompress_proof(stmt("|- A"), stmt("( ) A")), Ok(vec![s("h1")]));
    assert_eq!(
        mm.try_decompress_proof(stmt("|- B"), stmt("( ax1 ) ABZC")),
        Ok(vec![s("h1"), s("ax1"), s("h1"), s("ax1")])
    );
    assert_eq!(mm.try_verify(s("t"), stmt("|- B"), stmt("( ax1 ) AB")), Ok(()));
    assert_eq!(mm.try_verify(s("t"), stmt("|- B"), stmt("( ax1 ) ABZC")), Err(MmError::StackSize));
}

#[test]
fn decompress_and_verify_directly() {
    let text = format!("{}stop $a wff p $.\n", PROP);
    let (_, mm) = run_with(&text, None, Some("stop"));
    assert_eq!(
        mm.try_decompress_proof(stmt("wff ( p -> q )"), stmt("( w2 ) ABC")),
        Ok(vec![s("wp"), s("wq"), s("w2")])
    );
    assert_eq!(
        mm.try_decompress_proof(stmt("wff ( p -> q )"), stmt("( w2 ) ABCZD")),
        Ok(vec![s("wp"), s("wq"), s("w2"), s("wp"), s("wq"), s("w2")])
    );
    assert_eq!(mm.try_verify(s("t"), stmt("wff p"), stmt("wp")), Ok(()));
    assert_eq!(mm.try_verify(s("t"), stmt("wff ( p -> q )"), stmt("( w2 ) ABC")), Ok(()));
    assert_eq!(mm.try_verify(s("t"), stmt("wff p"), stmt("wq")), Err(MmError::WrongConclusion));
    assert_eq!(mm.try_verify(s("t"), stmt("wff p"), stmt("wp w2")), Err(MmError::StackUnderflow));
}

#[test]
fn verify_negation() {
    let text = "$c wff -. $.\n$v ph $.\nwph $f wff ph $.\nwn $a wff -. ph $.\nth $p wff -. ph $= wph wn $.\n";
    assert_eq!(run(text).0, Ok(ReadOutcome::Finished));
}

// ---- the forms that require an accepted input ----

#[test]
fn accepted_inputs_without_errors() {
    let mut fs = FrameStack::new();
    fs.push();
    fs.add_c(s("wff"));
    fs.add_v(s("p"));
    fs.add_f(s("p"), s("wff"), s("wp"));
    fs.add_e(stmt("wff p"), s("h"));
    assert_eq!(fs.lookup_f(&s("p")), s("wp"));
    assert_eq!(fs.lookup_e(&stmt("wff p")), s("h"));

    let mut t = toks("$( c $) a $[ f.mm $] b");
    assert_eq!(t.read_comment(), FileStep::Token(Some(s("a"))));
    assert_eq!(t.read_file(), FileStep::Include(s("f.mm")));
    assert_eq!(t.read_file(), FileStep::Token(Some(s("b"))));

    let mut st = stream("x y $. z");
    assert_eq!(st.readstat(), vec![s("x"), s("y")]);
    assert_eq!(st.read_comment(), Some(s("z")));
    assert_eq!(st.read_comment(), None);

    let mut mm = MM::new(None, Some(s("stop")));
    let text = format!("{}stop $a wff p $.\n", PROP);
    assert_eq!(mm.read(&mut stream(&text)), ReadOutcome::Stopped);
    assert_eq!(
        mm.decompress_proof(stmt("wff ( p -> q )"), stmt("( w2 ) ABC")),
        vec![s("wp"), s("wq"), s("w2")]
    );
    mm.verify(s("t"), stmt("wff ( p -> q )"), stmt("( w2 ) ABC"));
    mm.verify(s("t"), stmt("wff ( p -> q )"), stmt("wp wq w2"));
}
