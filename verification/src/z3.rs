//! The line cases of a solver trace, and the dispatch of a line to the
//! parser that handles its case.

use vstd::prelude::*;
use vstd::string::StrSliceExecFns;

verus! {

/// The cases of a line, by its first word.
#[derive(Clone, Copy, Debug, PartialEq, Eq, Structural)]
pub enum LineKind {
    ToolVersion,
    MkQuant,
    MkVar,
    MkProof,
    MkApp,
    AttachMeaning,
    AttachVarNames,
    AttachEnode,
    EqExpl,
    NewMatch,
    InstDiscovered,
    Instance,
    EndOfInstance,
    DecideAndOr,
    Decide,
    Assign,
    Push,
    Pop,
    BeginCheck,
    QueryDone,
    Eof,
    ResolveProcess,
    ResolveLit,
    Conflict,
    /// A first word that names no case.
    Unknown,
}

/// Whether a character separates words: space, tab, line feed, form feed or
/// carriage return.
pub open spec fn is_space(c: char) -> bool {
    c == ' ' || c == '\t' || c == '\n' || c == '\x0C' || c == '\r'
}

/// The words of a text: its longest runs of characters that do not
/// separate, in their order.
pub open spec fn words_of(s: Seq<char>) -> Seq<Seq<char>>
    decreases s.len(),
{
    if s.len() == 0 {
        Seq::empty()
    } else {
        let before = words_of(s.drop_last());
        let c = s.last();
        if is_space(c) {
            before
        } else if s.len() >= 2 && !is_space(s[s.len() - 2]) && before.len() > 0 {
            before.update(before.len() - 1, before.last().push(c))
        } else {
            before.push(seq![c])
        }
    }
}

/// The views of a list of texts.
pub open spec fn views_of(l: Seq<&str>) -> Seq<Seq<char>> {
    Seq::new(l.len(), |i: int| l[i]@)
}

/// The case that a first word names.
pub open spec fn kind_of(header: Seq<char>) -> LineKind {
    if header == "[tool-version]"@ {
        LineKind::ToolVersion
    } else if header == "[mk-quant]"@ || header == "[mk-lambda]"@ {
        LineKind::MkQuant
    } else if header == "[mk-var]"@ {
        LineKind::MkVar
    } else if header == "[mk-proof]"@ {
        LineKind::MkProof
    } else if header == "[mk-app]"@ {
        LineKind::MkApp
    } else if header == "[attach-meaning]"@ {
        LineKind::AttachMeaning
    } else if header == "[attach-var-names]"@ {
        LineKind::AttachVarNames
    } else if header == "[attach-enode]"@ {
        LineKind::AttachEnode
    } else if header == "[eq-expl]"@ {
        LineKind::EqExpl
    } else if header == "[new-match]"@ {
        LineKind::NewMatch
    } else if header == "[inst-discovered]"@ {
        LineKind::InstDiscovered
    } else if header == "[instance]"@ {
        LineKind::Instance
    } else if header == "[end-of-instance]"@ {
        LineKind::EndOfInstance
    } else if header == "[decide-and-or]"@ {
        LineKind::DecideAndOr
    } else if header == "[decide]"@ {
        LineKind::Decide
    } else if header == "[assign]"@ {
        LineKind::Assign
    } else if header == "[push]"@ {
        LineKind::Push
    } else if header == "[pop]"@ {
        LineKind::Pop
    } else if header == "[begin-check]"@ {
        LineKind::BeginCheck
    } else if header == "[query-done]"@ {
        LineKind::QueryDone
    } else if header == "[eof]"@ {
        LineKind::Eof
    } else if header == "[resolve-process]"@ {
        LineKind::ResolveProcess
    } else if header == "[resolve-lit]"@ {
        LineKind::ResolveLit
    } else if header == "[conflict]"@ {
        LineKind::Conflict
    } else {
        LineKind::Unknown
    }
}

/// Whether two texts are the same.
pub fn same_text(a: &str, b: &str) -> (r: bool)
    ensures
        r == (a@ == b@),
{
    let n = a.unicode_len();
    if n != b.unicode_len() {
        return false;
    }
    let mut i: usize = 0;
    while i < n
        invariant
            0 <= i <= n,
            n == a@.len(),
            n == b@.len(),
            forall|j: int| 0 <= j < i ==> a@[j] == b@[j],
        decreases n - i,
    {
        if a.get_char(i) != b.get_char(i) {
            return false;
        }
        i += 1;
    }
    assert(a@ =~= b@);
    true
}

/// The case that a first word names.
pub fn line_kind(header: &str) -> (r: LineKind)
    ensures
        r == kind_of(header@),
{
    if same_text(header, "[tool-version]") {
        LineKind::ToolVersion
    } else if same_text(header, "[mk-quant]") || same_text(header, "[mk-lambda]") {
        LineKind::MkQuant
    } else if same_text(header, "[mk-var]") {
        LineKind::MkVar
    } else if same_text(header, "[mk-proof]") {
        LineKind::MkProof
    } else if same_text(header, "[mk-app]") {
        LineKind::MkApp
    } else if same_text(header, "[attach-meaning]") {
        LineKind::AttachMeaning
    } else if same_text(header, "[attach-var-names]") {
        LineKind::AttachVarNames
    } else if same_text(header, "[attach-enode]") {
        LineKind::AttachEnode
    } else if same_text(header, "[eq-expl]") {
        LineKind::EqExpl
    } else if same_text(header, "[new-match]") {
        LineKind::NewMatch
    } else if same_text(header, "[inst-discovered]") {
        LineKind::InstDiscovered
    } else if same_text(header, "[instance]") {
        LineKind::Instance
    } else if same_text(header, "[end-of-instance]") {
        LineKind::EndOfInstance
    } else if same_text(header, "[decide-and-or]") {
        LineKind::DecideAndOr
    } else if same_text(header, "[decide]") {
        LineKind::Decide
    } else if same_text(header, "[assign]") {
        LineKind::Assign
    } else if same_text(header, "[push]") {
        LineKind::Push
    } else if same_text(header, "[pop]") {
        LineKind::Pop
    } else if same_text(header, "[begin-check]") {
        LineKind::BeginCheck
    } else if same_text(header, "[query-done]") {
        LineKind::QueryDone
    } else if same_text(header, "[eof]") {
        LineKind::Eof
    } else if same_text(header, "[resolve-process]") {
        LineKind::ResolveProcess
    } else if same_text(header, "[resolve-lit]") {
        LineKind::ResolveLit
    } else if same_text(header, "[conflict]") {
        LineKind::Conflict
    } else {
        LineKind::Unknown
    }
}

fn space(c: char) -> (r: bool)
    ensures
        r == is_space(c),
{
    c == ' ' || c == '\t' || c == '\n' || c == '\x0C' || c == '\r'
}

/// The words of a line.
pub fn split_ascii_whitespace<'a>(line: &'a str) -> (r: Vec<&'a str>)
    ensures
        views_of(r@) == words_of(line@),
{
    let n = line.unicode_len();
    let mut out: Vec<&'a str> = Vec::new();
    let mut start: usize = 0;
    let mut inside = false;
    let mut i: usize = 0;
    assert(line@.subrange(0, 0) =~= Seq::<char>::empty());
    assert(views_of(out@) =~= Seq::<Seq<char>>::empty());
    while i < n
        invariant
            0 <= start <= i <= n,
            n == line@.len(),
            inside ==> start < i && !is_space(line@[i - 1]),
            !inside ==> i == 0 || is_space(line@[i - 1]),
            words_of(line@.subrange(0, i as int)) == if inside {
                views_of(out@).push(line@.subrange(start as int, i as int))
            } else {
                views_of(out@)
            },
        decreases n - i,
    {
        let c = line.get_char(i);
        proof {
            let s = line@.subrange(0, i as int + 1);
            assert(s.drop_last() =~= line@.subrange(0, i as int));
            assert(s.last() == c);
            if i > 0 {
                assert(s[s.len() - 2] == line@[i - 1]);
            }
        }
        if space(c) {
            if inside {
                let word = line.substring_char(start, i);
                let ghost before = views_of(out@);
                out.push(word);
                assert(views_of(out@) =~= before.push(word@));
                inside = false;
            }
        } else {
            if !inside {
                start = i;
                inside = true;
                proof {
                    assert(line@.subrange(i as int, i as int + 1) =~= seq![c]);
                }
            } else {
                proof {
                    let before = views_of(out@).push(line@.subrange(start as int, i as int));
                    assert(before.last().push(c) =~= line@.subrange(start as int, i as int + 1));
                    assert(before.update(before.len() - 1, before.last().push(c)) =~= views_of(
                        out@,
                    ).push(line@.subrange(start as int, i as int + 1)));
                }
            }
        }
        i += 1;
    }
    assert(line@.subrange(0, n as int) =~= line@);
    if inside {
        let word = line.substring_char(start, n);
        let ghost before = views_of(out@);
        out.push(word);
        assert(views_of(out@) =~= before.push(word@));
    }
    out
}

/// A parser that reads a trace line by line.
pub trait LogParser {
    /// Reads one line; the result tells whether more lines are wanted.
    fn process_line(&mut self, line: &str, line_no: usize) -> (more: bool)
        requires
            words_of(line@).len() > 0,
        ensures
            more == !(kind_of(words_of(line@)[0]) is Eof),
    ;

    /// Told that the trace has ended.
    fn end_of_file(&mut self);
}

/// The handlers of the line cases of a solver trace. Each gets the words of
/// the line after the first, and tells whether it could read them. The
/// handlers of the cases that a parser may pass over come last: a parser
/// that has none of its own for such a case reads the line with success and
/// stays as it was.
pub trait Z3LogParser {
    /// What the handler of a case makes of a parser that gets the words of a
    /// line and, in the cases that take it, the number of the line, and
    /// whether it tells that it could read them. A parser that does not say
    /// leaves it open.
    open spec fn reads(
        &self,
        kind: LineKind,
        words: Seq<Seq<char>>,
        line_no: Option<usize>,
        after: &Self,
        read: bool,
    ) -> bool {
        true
    }

    /// What `eof` makes of a parser. A parser that does not say leaves it open.
    open spec fn at_end(&self, after: &Self) -> bool {
        true
    }

    fn version_info(&mut self, l: &Vec<&str>) -> (r: Option<()>)
        ensures
            old(self).reads(LineKind::ToolVersion, views_of(l@), None, final(self), r is Some),
    ;

    fn mk_quant(&mut self, l: &Vec<&str>) -> (r: Option<()>)
        ensures
            old(self).reads(LineKind::MkQuant, views_of(l@), None, final(self), r is Some),
    ;

    fn mk_var(&mut self, l: &Vec<&str>) -> (r: Option<()>)
        ensures
            old(self).reads(LineKind::MkVar, views_of(l@), None, final(self), r is Some),
    ;

    /// Reads a proof step (`is_proof`) or an application.
    fn mk_proof_app(&mut self, l: &Vec<&str>, is_proof: bool) -> (r: Option<()>)
        ensures
            old(self).reads(
                if is_proof {
                    LineKind::MkProof
                } else {
                    LineKind::MkApp
                },
                views_of(l@),
                None,
                final(self),
                r is Some,
            ),
    ;

    fn attach_meaning(&mut self, l: &Vec<&str>) -> (r: Option<()>)
        ensures
            old(self).reads(LineKind::AttachMeaning, views_of(l@), None, final(self), r is Some),
    ;

    fn attach_var_names(&mut self, l: &Vec<&str>) -> (r: Option<()>)
        ensures
            old(self).reads(LineKind::AttachVarNames, views_of(l@), None, final(self), r is Some),
    ;

    fn attach_enode(&mut self, l: &Vec<&str>) -> (r: Option<()>)
        ensures
            old(self).reads(LineKind::AttachEnode, views_of(l@), None, final(self), r is Some),
    ;

    fn eq_expl(&mut self, l: &Vec<&str>) -> (r: Option<()>)
        ensures
            old(self).reads(LineKind::EqExpl, views_of(l@), None, final(self), r is Some),
    ;

    fn new_match(&mut self, l: &Vec<&str>, line_no: usize) -> (r: Option<()>)
        ensures
            old(self).reads(LineKind::NewMatch, views_of(l@), Some(line_no), final(self), r is Some),
    ;

    fn inst_discovered(&mut self, l: &Vec<&str>, line_no: usize) -> (r: Option<()>)
        ensures
            old(self).reads(LineKind::InstDiscovered, views_of(l@), Some(line_no), final(self), r is Some),
    ;

    fn instance(&mut self, l: &Vec<&str>, line_no: usize) -> (r: Option<()>)
        ensures
            old(self).reads(LineKind::Instance, views_of(l@), Some(line_no), final(self), r is Some),
    ;

    fn end_of_instance(&mut self, l: &Vec<&str>) -> (r: Option<()>)
        ensures
            old(self).reads(LineKind::EndOfInstance, views_of(l@), None, final(self), r is Some),
    ;

    /// Told that the trace has ended.
    fn eof(&mut self)
        ensures
            old(self).at_end(final(self)),
    ;

    fn decide_and_or(&mut self, _l: &Vec<&str>) -> (r: Option<()>)
        ensures
            old(self).reads(LineKind::DecideAndOr, views_of(_l@), None, final(self), r is Some) || (&*final(self) == &*old(self)
                && r is Some),
        default_ensures
            r == Some(()),
            &*final(self) == &*old(self),
    {
        Some(())
    }

    fn decide(&mut self, _l: &Vec<&str>) -> (r: Option<()>)
        ensures
            old(self).reads(LineKind::Decide, views_of(_l@), None, final(self), r is Some) || (&*final(self) == &*old(self)
                && r is Some),
        default_ensures
            r == Some(()),
            &*final(self) == &*old(self),
    {
        Some(())
    }

    fn assign(&mut self, _l: &Vec<&str>) -> (r: Option<()>)
        ensures
            old(self).reads(LineKind::Assign, views_of(_l@), None, final(self), r is Some) || (&*final(self) == &*old(self)
                && r is Some),
        default_ensures
            r == Some(()),
            &*final(self) == &*old(self),
    {
        Some(())
    }

    fn push(&mut self, _l: &Vec<&str>) -> (r: Option<()>)
        ensures
            old(self).reads(LineKind::Push, views_of(_l@), None, final(self), r is Some) || (&*final(self) == &*old(self)
                && r is Some),
        default_ensures
            r == Some(()),
            &*final(self) == &*old(self),
    {
        Some(())
    }

    fn pop(&mut self, _l: &Vec<&str>) -> (r: Option<()>)
        ensures
            old(self).reads(LineKind::Pop, views_of(_l@), None, final(self), r is Some) || (&*final(self) == &*old(self)
                && r is Some),
        default_ensures
            r == Some(()),
            &*final(self) == &*old(self),
    {
        Some(())
    }

    fn begin_check(&mut self, _l: &Vec<&str>) -> (r: Option<()>)
        ensures
            old(self).reads(LineKind::BeginCheck, views_of(_l@), None, final(self), r is Some) || (&*final(self) == &*old(self)
                && r is Some),
        default_ensures
            r == Some(()),
            &*final(self) == &*old(self),
    {
        Some(())
    }

    fn query_done(&mut self, _l: &Vec<&str>) -> (r: Option<()>)
        ensures
            old(self).reads(LineKind::QueryDone, views_of(_l@), None, final(self), r is Some) || (&*final(self) == &*old(self)
                && r is Some),
        default_ensures
            r == Some(()),
            &*final(self) == &*old(self),
    {
        Some(())
    }

    fn resolve_process(&mut self, _l: &Vec<&str>) -> (r: Option<()>)
        ensures
            old(self).reads(LineKind::ResolveProcess, views_of(_l@), None, final(self), r is Some) || (&*final(self) == &*old(self)
                && r is Some),
        default_ensures
            r == Some(()),
            &*final(self) == &*old(self),
    {
        Some(())
    }

    fn resolve_lit(&mut self, _l: &Vec<&str>) -> (r: Option<()>)
        ensures
            old(self).reads(LineKind::ResolveLit, views_of(_l@), None, final(self), r is Some) || (&*final(self) == &*old(self)
                && r is Some),
        default_ensures
            r == Some(()),
            &*final(self) == &*old(self),
    {
        Some(())
    }

    fn conflict(&mut self, _l: &Vec<&str>) -> (r: Option<()>)
        ensures
            old(self).reads(LineKind::Conflict, views_of(_l@), None, final(self), r is Some) || (&*final(self) == &*old(self)
                && r is Some),
        default_ensures
            r == Some(()),
            &*final(self) == &*old(self),
    {
        Some(())
    }
}

/// Whether a parser may pass over the lines of a case.
pub open spec fn may_pass_over(kind: LineKind) -> bool {
    kind is DecideAndOr || kind is Decide || kind is Assign || kind is Push || kind is Pop
        || kind is BeginCheck || kind is QueryDone || kind is ResolveProcess || kind is ResolveLit
        || kind is Conflict
}

/// Whether the handler of a case is told the number of the line.
pub open spec fn takes_line_no(kind: LineKind) -> bool {
    kind is NewMatch || kind is InstDiscovered || kind is Instance
}

/// What became of a line.
#[derive(Clone, Copy, Debug, PartialEq, Eq, Structural)]
pub enum LineOutcome {
    /// The handler of its case could read it.
    Read,
    /// The handler of its case could not read it, or its first word names
    /// no case.
    Failed,
    /// It ends the trace.
    End,
}

/// What a line of a case, with the words after its first, makes of a
/// parser, and what becomes of the line. The line that ends the trace and a
/// line of an unknown case leave the parser as it was; the one ends the
/// trace, the other fails. Every other line goes to the handler of its
/// case, once, and is read or fails as the handler tells; a parser may pass
/// over some cases, and then reads the line and is left as it was.
pub open spec fn dispatched<T: Z3LogParser>(
    before: &T,
    kind: LineKind,
    words: Seq<Seq<char>>,
    line_no: usize,
    after: &T,
    outcome: LineOutcome,
) -> bool {
    if kind is Eof {
        after == before && outcome is End
    } else if kind is Unknown {
        after == before && outcome is Failed
    } else if takes_line_no(kind) {
        !(outcome is End) && before.reads(kind, words, Some(line_no), after, outcome is Read)
    } else if may_pass_over(kind) {
        !(outcome is End) && (before.reads(kind, words, None, after, outcome is Read) || (after
            == before && outcome is Read))
    } else {
        !(outcome is End) && before.reads(kind, words, None, after, outcome is Read)
    }
}

/// All words but the first.
fn rest_of<'a>(words: &Vec<&'a str>) -> (r: Vec<&'a str>)
    requires
        words@.len() > 0,
    ensures
        r@ == words@.subrange(1, words@.len() as int),
{
    let mut r: Vec<&'a str> = Vec::new();
    let mut i: usize = 1;
    while i < words.len()
        invariant
            1 <= i <= words@.len(),
            r@ == words@.subrange(1, i as int),
        decreases words@.len() - i,
    {
        r.push(words[i]);
        assert(r@ =~= words@.subrange(1, i as int + 1));
        i += 1;
    }
    r
}

/// Hands the words of the line to the handler of its case, and tells what
/// became of the line. A line of an unknown case fails without a handler.
pub fn read_line<T: Z3LogParser>(parser: &mut T, line: &str, line_no: usize) -> (outcome: LineOutcome)
    requires
        words_of(line@).len() > 0,
    ensures
        dispatched(
            &*old(parser),
            kind_of(words_of(line@)[0]),
            words_of(line@).subrange(1, words_of(line@).len() as int),
            line_no,
            &*final(parser),
            outcome,
        ),
{
    let words = split_ascii_whitespace(line);
    assert(words@[0]@ == views_of(words@)[0]);
    let kind = line_kind(words[0]);
    let l = rest_of(&words);
    assert(views_of(l@) =~= words_of(line@).subrange(1, words_of(line@).len() as int));
    let parsed = match kind {
        LineKind::ToolVersion => parser.version_info(&l),
        LineKind::MkQuant => parser.mk_quant(&l),
        LineKind::MkVar => parser.mk_var(&l),
        LineKind::MkProof => parser.mk_proof_app(&l, true),
        LineKind::MkApp => parser.mk_proof_app(&l, false),
        LineKind::AttachMeaning => parser.attach_meaning(&l),
        LineKind::AttachVarNames => parser.attach_var_names(&l),
        LineKind::AttachEnode => parser.attach_enode(&l),
        LineKind::EqExpl => parser.eq_expl(&l),
        LineKind::NewMatch => parser.new_match(&l, line_no),
        LineKind::InstDiscovered => parser.inst_discovered(&l, line_no),
        LineKind::Instance => parser.instance(&l, line_no),
        LineKind::EndOfInstance => parser.end_of_instance(&l),
        LineKind::DecideAndOr => parser.decide_and_or(&l),
        LineKind::Decide => parser.decide(&l),
        LineKind::Assign => parser.assign(&l),
        LineKind::Push => parser.push(&l),
        LineKind::Pop => parser.pop(&l),
        LineKind::BeginCheck => parser.begin_check(&l),
        LineKind::QueryDone => parser.query_done(&l),
        LineKind::Eof => {
            return LineOutcome::End;
        },
        LineKind::ResolveProcess => parser.resolve_process(&l),
        LineKind::ResolveLit => parser.resolve_lit(&l),
        LineKind::Conflict => parser.conflict(&l),
        LineKind::Unknown => None,
    };
    match parsed {
        Some(_) => LineOutcome::Read,
        None => LineOutcome::Failed,
    }
}

/// Some outcome of the line is what became of it.
pub open spec fn line_dispatched<T: Z3LogParser>(
    before: &T,
    kind: LineKind,
    words: Seq<Seq<char>>,
    line_no: usize,
    after: &T,
) -> bool {
    ||| dispatched(before, kind, words, line_no, after, LineOutcome::Read)
    ||| dispatched(before, kind, words, line_no, after, LineOutcome::Failed)
    ||| dispatched(before, kind, words, line_no, after, LineOutcome::End)
}

impl<T: Z3LogParser> LogParser for T {
    /// Hands the words of the line to the handler of its case. A line of an
    /// unknown case is passed over. After the line that ends the trace no
    /// more lines are wanted. What became of the line is not told here:
    /// `read_line` tells it.
    fn process_line(&mut self, line: &str, line_no: usize) -> (more: bool)
        ensures
            line_dispatched(
                &*old(self),
                kind_of(words_of(line@)[0]),
                words_of(line@).subrange(1, words_of(line@).len() as int),
                line_no,
                &*final(self),
            ),
    {
        match read_line(self, line, line_no) {
            LineOutcome::End => false,
            _ => true,
        }
    }

    /// Tells the parser of the end, as `eof` does.
    fn end_of_file(&mut self)
        ensures
            old(self).at_end(final(self)),
    {
        self.eof();
    }
}

/// `semver::Version`: a version number.
#[verifier::external_type_specification]
#[verifier::external_body]
pub struct ExVersion(semver::Version);

/// The solver that wrote a trace, and its version.
pub struct VersionInfo {
    solver: String,
    version: semver::Version,
}

impl VersionInfo {
    pub fn new(solver: String, version: semver::Version) -> (r: VersionInfo)
        ensures
            r.spec_solver() == solver@,
            *r.spec_version() == version,
    {
        VersionInfo { solver, version }
    }

    /// The name of the solver.
    pub closed spec fn spec_solver(&self) -> Seq<char> {
        self.solver@
    }

    /// The version of the solver.
    pub closed spec fn spec_version(&self) -> &semver::Version {
        &self.version
    }

    pub fn solver(&self) -> (r: &str)
        ensures
            r@ == self.spec_solver(),
    {
        self.solver.as_str()
    }

    pub fn version(&self) -> (r: &semver::Version)
        ensures
            r == self.spec_version(),
    {
        &self.version
    }
}

} // verus!
