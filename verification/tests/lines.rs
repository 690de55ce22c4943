use smt_log_parser::z3::{
    line_kind, read_line, same_text, split_ascii_whitespace, LineKind, LineOutcome, LogParser,
    VersionInfo, Z3LogParser,
};

#[derive(Default)]
struct Recorder {
    calls: Vec<String>,
    ended: bool,
}

impl Recorder {
    fn note(&mut self, name: &str, l: &Vec<&str>) -> Option<()> {
        self.calls.push(format!("{name}:{}", l.join("|")));
        Some(())
    }
}

impl Z3LogParser for Recorder {
    fn version_info(&mut self, l: &Vec<&str>) -> Option<()> {
        self.note("version_info", l)
    }
    fn mk_quant(&mut self, l: &Vec<&str>) -> Option<()> {
        self.note("mk_quant", l)
    }
    fn mk_var(&mut self, l: &Vec<&str>) -> Option<()> {
        self.note("mk_var", l)
    }
    fn mk_proof_app(&mut self, l: &Vec<&str>, is_proof: bool) -> Option<()> {
        self.note(if is_proof { "mk_proof" } else { "mk_app" }, l)
    }
    fn attach_meaning(&mut self, l: &Vec<&str>) -> Option<()> {
        self.note("attach_meaning", l)
    }
    fn attach_var_names(&mut self, l: &Vec<&str>) -> Option<()> {
        self.note("attach_var_names", l)
    }
    fn attach_enode(&mut self, l: &Vec<&str>) -> Option<()> {
        self.note("attach_enode", l)
    }
    fn eq_expl(&mut self, l: &Vec<&str>) -> Option<()> {
        self.note("eq_expl", l)
    }
    fn new_match(&mut self, l: &Vec<&str>, line_no: usize) -> Option<()> {
        self.note(&format!("new_match@{line_no}"), l)
    }
    fn inst_discovered(&mut self, l: &Vec<&str>, line_no: usize) -> Option<()> {
        self.note(&format!("inst_discovered@{line_no}"), l)
    }
    fn instance(&mut self, l: &Vec<&str>, line_no: usize) -> Option<()> {
        self.note(&format!("instance@{line_no}"), l)
    }
    fn end_of_instance(&mut self, l: &Vec<&str>) -> Option<()> {
        self.note("end_of_instance", l)
    }
    fn eof(&mut self) {
        self.ended = true;
    }
    fn push(&mut self, l: &Vec<&str>) -> Option<()> {
        self.note("push", l)
    }
}

#[test]
fn words_are_the_runs_between_the_spaces() {
    assert_eq!(split_ascii_whitespace("[mk-app] #12 f #3 #4"), vec!["[mk-app]", "#12", "f", "#3", "#4"]);
    assert_eq!(split_ascii_whitespace("  a\t\tb \r\n"), vec!["a", "b"]);
    assert_eq!(split_ascii_whitespace(""), Vec::<&str>::new());
    assert_eq!(split_ascii_whitespace(" \t "), Vec::<&str>::new());
    assert_eq!(split_ascii_whitespace("one"), vec!["one"]);
    assert_eq!(split_ascii_whitespace("a\x0Cb"), vec!["a", "b"]);
    // A space that is not one of the five separators does not cut.
    assert_eq!(split_ascii_whitespace("é\u{a0}ü x"), vec!["é\u{a0}ü", "x"]);
    let line = "[new-match] 0x1 #2 #3 ; #4";
    let std_words: Vec<&str> = line.split_ascii_whitespace().collect();
    assert_eq!(split_ascii_whitespace(line), std_words);
}

#[test]
fn first_words_name_the_cases() {
    assert_eq!(line_kind("[tool-version]"), LineKind::ToolVersion);
    assert_eq!(line_kind("[mk-quant]"), LineKind::MkQuant);
    assert_eq!(line_kind("[mk-lambda]"), LineKind::MkQuant);
    assert_eq!(line_kind("[mk-var]"), LineKind::MkVar);
    assert_eq!(line_kind("[mk-proof]"), LineKind::MkProof);
    assert_eq!(line_kind("[mk-app]"), LineKind::MkApp);
    assert_eq!(line_kind("[attach-meaning]"), LineKind::AttachMeaning);
    assert_eq!(line_kind("[attach-var-names]"), LineKind::AttachVarNames);
    assert_eq!(line_kind("[attach-enode]"), LineKind::AttachEnode);
    assert_eq!(line_kind("[eq-expl]"), LineKind::EqExpl);
    assert_eq!(line_kind("[new-match]"), LineKind::NewMatch);
    assert_eq!(line_kind("[inst-discovered]"), LineKind::InstDiscovered);
    assert_eq!(line_kind("[instance]"), LineKind::Instance);
    assert_eq!(line_kind("[end-of-instance]"), LineKind::EndOfInstance);
    assert_eq!(line_kind("[decide-and-or]"), LineKind::DecideAndOr);
    assert_eq!(line_kind("[decide]"), LineKind::Decide);
    assert_eq!(line_kind("[assign]"), LineKind::Assign);
    assert_eq!(line_kind("[push]"), LineKind::Push);
    assert_eq!(line_kind("[pop]"), LineKind::Pop);
    assert_eq!(line_kind("[begin-check]"), LineKind::BeginCheck);
    assert_eq!(line_kind("[query-done]"), LineKind::QueryDone);
    assert_eq!(line_kind("[eof]"), LineKind::Eof);
    assert_eq!(line_kind("[resolve-process]"), LineKind::ResolveProcess);
    assert_eq!(line_kind("[resolve-lit]"), LineKind::ResolveLit);
    assert_eq!(line_kind("[conflict]"), LineKind::Conflict);
    assert_eq!(line_kind("[unheard-of]"), LineKind::Unknown);
    assert_eq!(line_kind("eof"), LineKind::Unknown);
    assert_eq!(line_kind("[EOF]"), LineKind::Unknown);
    assert!(same_text("abc", "abc"));
    assert!(!same_text("abc", "abd"));
    assert!(!same_text("abc", "ab"));
}

#[test]
fn lines_go_to_the_handler_of_their_case() {
    let mut r = Recorder::default();
    assert!(r.process_line("[mk-quant] #1 name 2", 1));
    assert!(r.process_line("[mk-proof] #2 mp #1", 2));
    assert!(r.process_line("[mk-app]  #3   f", 3));
    assert!(r.process_line("[new-match] 0x1f #1", 4));
    assert!(r.process_line("[instance] 0x1f", 5));
    assert!(r.process_line("[end-of-instance]", 6));
    assert!(r.process_line("[push] 1", 7));
    // A case with a handler that passes over the line, and an unknown case.
    assert!(r.process_line("[pop] 1", 8));
    assert!(r.process_line("[what] ever", 9));
    assert!(!r.process_line("[eof]", 10));
    assert_eq!(
        r.calls,
        vec![
            "mk_quant:#1|name|2",
            "mk_proof:#2|mp|#1",
            "mk_app:#3|f",
            "new_match@4:0x1f|#1",
            "instance@5:0x1f",
            "end_of_instance:",
            "push:1",
        ]
    );
    assert!(!r.ended);
    r.end_of_file();
    assert!(r.ended);
}

#[test]
fn version_info_keeps_solver_and_version() {
    let v = VersionInfo::new("Z3".to_string(), semver::Version::new(4, 12, 1));
    assert_eq!(v.solver(), "Z3");
    assert_eq!(v.version(), &semver::Version::new(4, 12, 1));
}

#[test]
fn a_case_without_a_handler_of_its_own_is_read_and_changes_nothing() {
    let mut r = Recorder::default();
    let l = vec!["1", "2"];
    assert_eq!(r.decide_and_or(&l), Some(()));
    assert_eq!(r.decide(&l), Some(()));
    assert_eq!(r.assign(&l), Some(()));
    assert_eq!(r.pop(&l), Some(()));
    assert_eq!(r.begin_check(&l), Some(()));
    assert_eq!(r.query_done(&l), Some(()));
    assert_eq!(r.resolve_process(&l), Some(()));
    assert_eq!(r.resolve_lit(&l), Some(()));
    assert_eq!(r.conflict(&l), Some(()));
    assert!(r.calls.is_empty());
    assert!(!r.ended);
    // A handler of the parser's own takes the place of the one that passes over.
    assert_eq!(r.push(&l), Some(()));
    assert_eq!(r.calls, vec!["push:1|2"]);
}

/// A parser that reads no version line.
#[derive(Default)]
struct Picky {
    inner: Recorder,
}

impl Z3LogParser for Picky {
    fn version_info(&mut self, _l: &Vec<&str>) -> Option<()> {
        None
    }
    fn mk_quant(&mut self, l: &Vec<&str>) -> Option<()> {
        self.inner.mk_quant(l)
    }
    fn mk_var(&mut self, l: &Vec<&str>) -> Option<()> {
        self.inner.mk_var(l)
    }
    fn mk_proof_app(&mut self, l: &Vec<&str>, is_proof: bool) -> Option<()> {
        self.inner.mk_proof_app(l, is_proof)
    }
    fn attach_meaning(&mut self, l: &Vec<&str>) -> Option<()> {
        self.inner.attach_meaning(l)
    }
    fn attach_var_names(&mut self, l: &Vec<&str>) -> Option<()> {
        self.inner.attach_var_names(l)
    }
    fn attach_enode(&mut self, l: &Vec<&str>) -> Option<()> {
        self.inner.attach_enode(l)
    }
    fn eq_expl(&mut self, l: &Vec<&str>) -> Option<()> {
        self.inner.eq_expl(l)
    }
    fn new_match(&mut self, l: &Vec<&str>, line_no: usize) -> Option<()> {
        self.inner.new_match(l, line_no)
    }
    fn inst_discovered(&mut self, l: &Vec<&str>, line_no: usize) -> Option<()> {
        self.inner.inst_discovered(l, line_no)
    }
    fn instance(&mut self, l: &Vec<&str>, line_no: usize) -> Option<()> {
        self.inner.instance(l, line_no)
    }
    fn end_of_instance(&mut self, l: &Vec<&str>) -> Option<()> {
        self.inner.end_of_instance(l)
    }
    fn eof(&mut self) {
        self.inner.eof();
    }
}

#[test]
fn a_line_is_read_or_fails_or_ends_the_trace() {
    let mut p = Picky::default();
    assert_eq!(read_line(&mut p, "[mk-app] #1 f", 0), LineOutcome::Read);
    assert_eq!(p.inner.calls, vec!["mk_app:#1|f"]);
    // The handler tells that it could not read the line.
    assert_eq!(read_line(&mut p, "[tool-version] Z3 4.12.1", 1), LineOutcome::Failed);
    // No case has this first word, and no handler is asked.
    assert_eq!(read_line(&mut p, "[what] ever", 2), LineOutcome::Failed);
    // A case that the parser passes over is read.
    assert_eq!(read_line(&mut p, "[decide] 1", 3), LineOutcome::Read);
    assert_eq!(read_line(&mut p, "[eof]", 4), LineOutcome::End);
    assert_eq!(p.inner.calls, vec!["mk_app:#1|f"]);
    assert!(!p.inner.ended);
    // Lines that fail do not end the trace.
    assert!(p.process_line("[tool-version] Z3 4.12.1", 5));
    assert!(p.process_line("[what] ever", 6));
    assert!(!p.process_line("[eof]", 7));
}
