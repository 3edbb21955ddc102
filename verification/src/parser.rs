//! Statement parser: recognizes `import` and re-export `export ... from`
//! statements in a token stream and produces records carrying the exact
//! character span of each module specifier.
//!
//! The parser is a single pass over the tokens with one statement open
//! at a time.  Its behaviour is specified by the state machine
//! [`step`] folded over the token sequence by [`parse_toks`]; the
//! executable [`Parser::parse_module`] returns exactly that fold's
//! result.
//!
//! Statements without a `from` clause (`export { e };`,
//! `export default C;`) introduce no graph edge: the pending statement
//! is discarded and no record is produced.  In a named list, an entry
//! spelled `default as x` or `x as default` is normalized to the single
//! binding `x` (the distinction between the two directions is
//! deliberately collapsed).  An `import` statement names at least one
//! binding before `from`; an `export` additionally accepts the
//! wildcard `*` and, like `import`, a default binding followed by a
//! named list (`export A, { b } from ...`).  A completed statement is
//! committed only at a statement terminator (`;`, newline, or carriage
//! return); one still open at the end of the input yields no record.
//! A character that does not fit the open statement's grammar is a
//! syntax error carrying that character and its offset.
//!
//! All offsets count characters from the start of the source; on an
//! ASCII source they coincide with byte offsets.

use vstd::prelude::*;

use crate::lexer::{Token, TokenKind, spec_tokenize, token_at, is_quote_char, specifier_end,
    name_run_end, lemma_tokenize_chain, lemma_tokens_facts, lemma_token_at_bounds};

verus! {

/// A default binding of an import statement (`import A from ...`).
/// `variable_name` and `binding_name` are both the written name.
#[derive(Debug, PartialEq)]
pub struct DefaultImport {
    pub variable_name: String,
    pub binding_name: String,
}

/// One entry of a named-import list (`import { a, b as c } from ...`).
/// `variable_name` is the name on the left of `as`, `binding_name` the
/// name on the right; without an alias the two are equal.
#[derive(Debug, PartialEq)]
pub struct NamedImport {
    pub variable_name: String,
    pub binding_name: String,
}

/// The bare binding of a re-export statement (`export A from ...`).
#[derive(Debug, PartialEq)]
pub struct DefaultExport {
    pub variable_name: String,
    pub binding_name: String,
}

/// One entry of a named re-export list (`export { d, E } from ...`).
#[derive(Debug, PartialEq)]
pub struct NamedExport {
    pub variable_name: String,
    pub binding_name: String,
}

/// One parsed `import ... from '<specifier>'` statement.
///
/// `specifier` is the specifier text without its quotes.  The span
/// excludes the quote characters: `specifier_start` is the character
/// offset of the specifier's first character in the raw source and
/// `specifier_end` the offset of its last character, so
/// `raw_source[specifier_start ..= specifier_end]` is exactly the
/// specifier text, with the opening quote at `specifier_start - 1` and
/// the closing quote at `specifier_end + 1`.
#[derive(Debug, PartialEq)]
pub struct JavascriptImport {
    pub default_import: Option<DefaultImport>,
    pub named_imports: Vec<NamedImport>,
    pub specifier: String,
    pub specifier_start: usize,
    pub specifier_end: usize,
}

/// One parsed re-export statement (`export X from`,
/// `export { ... } from`, or `export * from`).  Span fields are as in
/// [`JavascriptImport`].
#[derive(Debug, PartialEq)]
pub struct JavascriptExport {
    pub default_export: Option<DefaultExport>,
    pub named_exports: Vec<NamedExport>,
    pub is_wildcard: bool,
    pub specifier: String,
    pub specifier_start: usize,
    pub specifier_end: usize,
}

/// A parsed module: the untouched source text together with its
/// import and re-export records, each list in source order.
#[derive(Debug)]
pub struct JavascriptModule {
    pub imports: Vec<JavascriptImport>,
    pub exports: Vec<JavascriptExport>,
    pub raw_source: String,
}

/// A character that does not fit the grammar of the statement being
/// parsed: carries the character and its offset in the source.
#[derive(Debug, PartialEq)]
pub struct SyntaxError {
    pub offset: usize,
    pub ch: char,
}

/// Mathematical model of one binding.
#[verifier::ext_equal]
pub struct BindingV {
    pub variable_name: Seq<char>,
    pub binding_name: Seq<char>,
}

/// Mathematical model of one import or re-export record.
#[verifier::ext_equal]
pub struct RecordV {
    pub default_binding: Option<BindingV>,
    pub named_bindings: Seq<BindingV>,
    pub is_wildcard: bool,
    pub specifier: Seq<char>,
    pub start: int,
    pub end: int,
}

/// Mathematical model of a parsed module.
#[verifier::ext_equal]
pub struct ModuleV {
    pub imports: Seq<RecordV>,
    pub exports: Seq<RecordV>,
    pub raw: Seq<char>,
}

/// Mathematical model of a syntax error.
pub struct SyntaxErrorV {
    pub offset: int,
    pub ch: char,
}

impl View for DefaultImport {
    type V = BindingV;

    open spec fn view(&self) -> BindingV {
        BindingV { variable_name: self.variable_name@, binding_name: self.binding_name@ }
    }
}

impl View for NamedImport {
    type V = BindingV;

    open spec fn view(&self) -> BindingV {
        BindingV { variable_name: self.variable_name@, binding_name: self.binding_name@ }
    }
}

impl View for DefaultExport {
    type V = BindingV;

    open spec fn view(&self) -> BindingV {
        BindingV { variable_name: self.variable_name@, binding_name: self.binding_name@ }
    }
}

impl View for NamedExport {
    type V = BindingV;

    open spec fn view(&self) -> BindingV {
        BindingV { variable_name: self.variable_name@, binding_name: self.binding_name@ }
    }
}

impl View for JavascriptImport {
    type V = RecordV;

    open spec fn view(&self) -> RecordV {
        RecordV {
            default_binding: match self.default_import {
                Some(ref d) => Some(d@),
                None => None,
            },
            named_bindings: named_imports_v(self.named_imports@),
            is_wildcard: false,
            specifier: self.specifier@,
            start: self.specifier_start as int,
            end: self.specifier_end as int,
        }
    }
}

impl View for JavascriptExport {
    type V = RecordV;

    open spec fn view(&self) -> RecordV {
        RecordV {
            default_binding: match self.default_export {
                Some(ref d) => Some(d@),
                None => None,
            },
            named_bindings: named_exports_v(self.named_exports@),
            is_wildcard: self.is_wildcard,
            specifier: self.specifier@,
            start: self.specifier_start as int,
            end: self.specifier_end as int,
        }
    }
}

impl View for JavascriptModule {
    type V = ModuleV;

    open spec fn view(&self) -> ModuleV {
        ModuleV {
            imports: imports_v(self.imports@),
            exports: exports_v(self.exports@),
            raw: self.raw_source@,
        }
    }
}

impl View for SyntaxError {
    type V = SyntaxErrorV;

    open spec fn view(&self) -> SyntaxErrorV {
        SyntaxErrorV { offset: self.offset as int, ch: self.ch }
    }
}

/// Where the statement machine stands inside the open statement.
#[verifier::ext_equal]
pub enum PhaseV {
    /// No statement open: scanning for `import` or `export`.
    Scan,
    /// Just after the opening keyword.
    Vars,
    /// After a default binding identifier.
    AfterDefault,
    /// After the `,` that follows a default import binding.
    NamedOpen,
    /// Inside `{ }`, expecting an entry or the closing brace.
    NamedEntry,
    /// After an entry's first identifier.
    NamedAfterName(Seq<char>),
    /// After an entry that began with the keyword `default`.
    NamedAfterDefault,
    /// After `as`; `Some(first)` holds the entry's first name, `None`
    /// means the entry began with the keyword `default`.
    NamedAlias(Option<Seq<char>>),
    /// After a completed aliased entry.
    NamedDone,
    /// Expecting the keyword `from`.
    ExpectFrom,
    /// Expecting the quoted specifier.
    ExpectSpecifier,
    /// Specifier recorded; expecting the statement terminator.
    StatementEnd,
}

/// The record being built while a statement is open.
#[verifier::ext_equal]
pub struct PendingV {
    pub is_import: bool,
    pub default_binding: Option<Seq<char>>,
    pub named: Seq<BindingV>,
    pub wildcard: bool,
    pub specifier: Seq<char>,
    pub start: int,
    pub end: int,
}

/// The whole parser state: machine phase, pending record, and the
/// records committed so far.
#[verifier::ext_equal]
pub struct StateV {
    pub phase: PhaseV,
    pub pending: PendingV,
    pub imports: Seq<RecordV>,
    pub exports: Seq<RecordV>,
}

/// A fresh pending record.
pub open spec fn empty_pending(is_import: bool) -> PendingV {
    PendingV {
        is_import,
        default_binding: None,
        named: Seq::empty(),
        wildcard: false,
        specifier: Seq::empty(),
        start: 0,
        end: 0,
    }
}

/// The parser's initial state.
pub open spec fn init_state() -> StateV {
    StateV {
        phase: PhaseV::Scan,
        pending: empty_pending(true),
        imports: Seq::empty(),
        exports: Seq::empty(),
    }
}

/// The record a completed pending statement commits.
pub open spec fn commit_record(p: PendingV) -> RecordV {
    RecordV {
        default_binding: match p.default_binding {
            Some(n) => Some(BindingV { variable_name: n, binding_name: n }),
            None => None,
        },
        named_bindings: p.named,
        is_wildcard: p.wildcard,
        specifier: p.specifier,
        start: p.start,
        end: p.end,
    }
}

/// The state after committing the pending record.
pub open spec fn commit_state(st: StateV) -> StateV {
    if st.pending.is_import {
        StateV {
            phase: PhaseV::Scan,
            pending: empty_pending(true),
            imports: st.imports.push(commit_record(st.pending)),
            exports: st.exports,
        }
    } else {
        StateV {
            phase: PhaseV::Scan,
            pending: empty_pending(true),
            imports: st.imports,
            exports: st.exports.push(commit_record(st.pending)),
        }
    }
}

/// The text of a token.
pub open spec fn token_text(s: Seq<char>, t: Token) -> Seq<char> {
    s.subrange(t.start as int, t.end as int)
}

/// Whether the range `[a, b)` of the source holds a statement
/// terminator: a newline or a carriage return.
pub open spec fn has_terminator(s: Seq<char>, a: int, b: int) -> bool {
    exists|k: int| a <= k < b && (s[k] == '\n' || s[k] == '\r')
}

/// One transition of the statement machine on one token.
pub open spec fn step(s: Seq<char>, st: StateV, t: Token) -> Result<StateV, SyntaxErrorV> {
    let k = t.kind;
    let err = SyntaxErrorV { offset: t.start as int, ch: s[t.start as int] };
    let p = st.pending;
    match st.phase {
        PhaseV::Scan => {
            if k == TokenKind::Import {
                Ok(StateV { phase: PhaseV::Vars, pending: empty_pending(true), ..st })
            } else if k == TokenKind::Export {
                Ok(StateV { phase: PhaseV::Vars, pending: empty_pending(false), ..st })
            } else {
                Ok(st)
            }
        },
        PhaseV::Vars => {
            if k == TokenKind::Whitespace {
                Ok(st)
            } else if k == TokenKind::LBrace {
                Ok(StateV { phase: PhaseV::NamedEntry, ..st })
            } else if k == TokenKind::Ident {
                Ok(StateV {
                    phase: PhaseV::AfterDefault,
                    pending: PendingV { default_binding: Some(token_text(s, t)), ..p },
                    ..st
                })
            } else if !p.is_import && k == TokenKind::Star {
                Ok(StateV {
                    phase: PhaseV::ExpectFrom,
                    pending: PendingV { wildcard: true, ..p },
                    ..st
                })
            } else if !p.is_import && k == TokenKind::Default {
                Ok(StateV { phase: PhaseV::Scan, pending: empty_pending(true), ..st })
            } else {
                Err(err)
            }
        },
        PhaseV::AfterDefault => {
            if k == TokenKind::Whitespace {
                Ok(st)
            } else if k == TokenKind::Comma {
                Ok(StateV { phase: PhaseV::NamedOpen, ..st })
            } else if k == TokenKind::From {
                Ok(StateV { phase: PhaseV::ExpectSpecifier, ..st })
            } else if !p.is_import && k == TokenKind::Semicolon {
                Ok(StateV { phase: PhaseV::Scan, pending: empty_pending(true), ..st })
            } else {
                Err(err)
            }
        },
        PhaseV::NamedOpen => {
            if k == TokenKind::Whitespace {
                Ok(st)
            } else if k == TokenKind::LBrace {
                Ok(StateV { phase: PhaseV::NamedEntry, ..st })
            } else {
                Err(err)
            }
        },
        PhaseV::NamedEntry => {
            if k == TokenKind::Whitespace {
                Ok(st)
            } else if k == TokenKind::Ident {
                Ok(StateV { phase: PhaseV::NamedAfterName(token_text(s, t)), ..st })
            } else if k == TokenKind::Default {
                Ok(StateV { phase: PhaseV::NamedAfterDefault, ..st })
            } else if k == TokenKind::RBrace {
                Ok(StateV { phase: PhaseV::ExpectFrom, ..st })
            } else {
                Err(err)
            }
        },
        PhaseV::NamedAfterName(first) => {
            if k == TokenKind::Whitespace {
                Ok(st)
            } else if k == TokenKind::As {
                Ok(StateV { phase: PhaseV::NamedAlias(Some(first)), ..st })
            } else if k == TokenKind::Comma {
                Ok(StateV {
                    phase: PhaseV::NamedEntry,
                    pending: PendingV {
                        named: p.named.push(
                            BindingV { variable_name: first, binding_name: first },
                        ),
                        ..p
                    },
                    ..st
                })
            } else if k == TokenKind::RBrace {
                Ok(StateV {
                    phase: PhaseV::ExpectFrom,
                    pending: PendingV {
                        named: p.named.push(
                            BindingV { variable_name: first, binding_name: first },
                        ),
                        ..p
                    },
                    ..st
                })
            } else {
                Err(err)
            }
        },
        PhaseV::NamedAfterDefault => {
            if k == TokenKind::Whitespace {
                Ok(st)
            } else if k == TokenKind::As {
                Ok(StateV { phase: PhaseV::NamedAlias(None), ..st })
            } else if k == TokenKind::Comma {
                Ok(StateV { phase: PhaseV::NamedEntry, ..st })
            } else if k == TokenKind::RBrace {
                Ok(StateV { phase: PhaseV::ExpectFrom, ..st })
            } else {
                Err(err)
            }
        },
        PhaseV::NamedAlias(first_opt) => {
            if k == TokenKind::Whitespace {
                Ok(st)
            } else if k == TokenKind::Ident {
                let b = match first_opt {
                    Some(f) => BindingV { variable_name: f, binding_name: token_text(s, t) },
                    None => BindingV {
                        variable_name: token_text(s, t),
                        binding_name: token_text(s, t),
                    },
                };
                Ok(StateV {
                    phase: PhaseV::NamedDone,
                    pending: PendingV { named: p.named.push(b), ..p },
                    ..st
                })
            } else if k == TokenKind::Default {
                match first_opt {
                    Some(f) => Ok(StateV {
                        phase: PhaseV::NamedDone,
                        pending: PendingV {
                            named: p.named.push(
                                BindingV { variable_name: f, binding_name: f },
                            ),
                            ..p
                        },
                        ..st
                    }),
                    None => Ok(StateV { phase: PhaseV::NamedDone, ..st }),
                }
            } else {
                Err(err)
            }
        },
        PhaseV::NamedDone => {
            if k == TokenKind::Whitespace {
                Ok(st)
            } else if k == TokenKind::Comma {
                Ok(StateV { phase: PhaseV::NamedEntry, ..st })
            } else if k == TokenKind::RBrace {
                Ok(StateV { phase: PhaseV::ExpectFrom, ..st })
            } else {
                Err(err)
            }
        },
        PhaseV::ExpectFrom => {
            if k == TokenKind::Whitespace {
                Ok(st)
            } else if k == TokenKind::From {
                Ok(StateV { phase: PhaseV::ExpectSpecifier, ..st })
            } else if !p.is_import && k == TokenKind::Semicolon {
                Ok(StateV { phase: PhaseV::Scan, pending: empty_pending(true), ..st })
            } else {
                Err(err)
            }
        },
        PhaseV::ExpectSpecifier => {
            if k == TokenKind::Whitespace {
                Ok(st)
            } else if k == TokenKind::Specifier {
                Ok(StateV {
                    phase: PhaseV::StatementEnd,
                    pending: PendingV {
                        specifier: s.subrange(t.start + 1, t.end - 1),
                        start: t.start + 1,
                        end: t.end - 2,
                        ..p
                    },
                    ..st
                })
            } else {
                Err(err)
            }
        },
        PhaseV::StatementEnd => {
            if k == TokenKind::Semicolon
                || (k == TokenKind::Whitespace && has_terminator(s, t.start as int, t.end as int)) {
                Ok(commit_state(st))
            } else if k == TokenKind::Whitespace {
                Ok(st)
            } else {
                Err(err)
            }
        },
    }
}

/// The machine folded over the tokens from index `i` on.  A statement
/// still open at the end of the input — even one only missing its
/// terminator — yields no record.
pub open spec fn parse_toks(s: Seq<char>, toks: Seq<Token>, i: int, st: StateV) -> Result<
    StateV,
    SyntaxErrorV,
>
    decreases toks.len() - i when 0 <= i <= toks.len()
{
    if i >= toks.len() {
        Ok(st)
    } else {
        match step(s, st, toks[i]) {
            Ok(st2) => parse_toks(s, toks, i + 1, st2),
            Err(e) => Err(e),
        }
    }
}

/// What parsing a whole source text yields: the records of its
/// import and re-export statements, or the first syntax error.
pub open spec fn parse_source(s: Seq<char>) -> Result<StateV, SyntaxErrorV> {
    parse_toks(s, spec_tokenize(s, 0), 0, init_state())
}

impl JavascriptImport {
    /// An import record with no bindings, an empty specifier and a
    /// zero span.
    pub fn new() -> (r: Self)
        ensures r@ == commit_record(empty_pending(true)),
    {
        let r = JavascriptImport {
            named_imports: Vec::new(),
            default_import: None,
            specifier: String::new(),
            specifier_start: 0,
            specifier_end: 0,
        };
        proof {
            assert(r@ =~= commit_record(empty_pending(true)));
        }
        r
    }
}

impl JavascriptExport {
    /// A re-export record with no bindings, an empty specifier and a
    /// zero span.
    pub fn new() -> (r: Self)
        ensures r@ == commit_record(empty_pending(false)),
    {
        let r = JavascriptExport {
            named_exports: Vec::new(),
            default_export: None,
            is_wildcard: false,
            specifier: String::new(),
            specifier_start: 0,
            specifier_end: 0,
        };
        proof {
            assert(r@ =~= commit_record(empty_pending(false)));
        }
        r
    }
}

/// The executable machine phase.  The two name-carrying phases of
/// [`PhaseV`] keep their name in a separate variable, so the phase
/// itself stays a plain tag.
#[derive(Debug, Clone, Copy, PartialEq, Eq, Structural)]
enum Phase {
    Scan,
    Vars,
    AfterDefault,
    NamedOpen,
    NamedEntry,
    NamedAfterName,
    NamedAfterDefault,
    NamedAliasNamed,
    NamedAliasDefault,
    NamedDone,
    ExpectFrom,
    ExpectSpecifier,
    StatementEnd,
}

/// The model phase an executable phase tag stands for, given the
/// entry name the parser holds aside.
spec fn phase_v(ph: Phase, first: Seq<char>) -> PhaseV {
    match ph {
        Phase::Scan => PhaseV::Scan,
        Phase::Vars => PhaseV::Vars,
        Phase::AfterDefault => PhaseV::AfterDefault,
        Phase::NamedOpen => PhaseV::NamedOpen,
        Phase::NamedEntry => PhaseV::NamedEntry,
        Phase::NamedAfterName => PhaseV::NamedAfterName(first),
        Phase::NamedAfterDefault => PhaseV::NamedAfterDefault,
        Phase::NamedAliasNamed => PhaseV::NamedAlias(Some(first)),
        Phase::NamedAliasDefault => PhaseV::NamedAlias(None),
        Phase::NamedDone => PhaseV::NamedDone,
        Phase::ExpectFrom => PhaseV::ExpectFrom,
        Phase::ExpectSpecifier => PhaseV::ExpectSpecifier,
        Phase::StatementEnd => PhaseV::StatementEnd,
    }
}

/// The model of an optional binding name.
spec fn opt_name_v(o: Option<String>) -> Option<Seq<char>> {
    match o {
        Some(n) => Some(n@),
        None => None,
    }
}

/// The model of a list of name pairs.
spec fn named_v(v: Seq<(String, String)>) -> Seq<BindingV> {
    v.map_values(|pr: (String, String)| BindingV { variable_name: pr.0@, binding_name: pr.1@ })
}

/// The models of a list of named-import entries.
pub open spec fn named_imports_v(v: Seq<NamedImport>) -> Seq<BindingV> {
    v.map_values(|b: NamedImport| b@)
}

/// The models of a list of named-export entries.
pub open spec fn named_exports_v(v: Seq<NamedExport>) -> Seq<BindingV> {
    v.map_values(|b: NamedExport| b@)
}

/// The models of a list of import records.
pub open spec fn imports_v(v: Seq<JavascriptImport>) -> Seq<RecordV> {
    v.map_values(|r: JavascriptImport| r@)
}

/// The models of a list of re-export records.
pub open spec fn exports_v(v: Seq<JavascriptExport>) -> Seq<RecordV> {
    v.map_values(|r: JavascriptExport| r@)
}

/// The model state assembled from the parser's executable pieces.
spec fn cur_state(
    ph: Phase,
    first: String,
    is_import: bool,
    dflt: Option<String>,
    named: Seq<(String, String)>,
    wc: bool,
    specifier: String,
    sstart: usize,
    send: usize,
    imps: Seq<JavascriptImport>,
    exps: Seq<JavascriptExport>,
) -> StateV {
    StateV {
        phase: phase_v(ph, first@),
        pending: PendingV {
            is_import,
            default_binding: opt_name_v(dflt),
            named: named_v(named),
            wildcard: wc,
            specifier: specifier@,
            start: sstart as int,
            end: send as int,
        },
        imports: imports_v(imps),
        exports: exports_v(exps),
    }
}

/// Mapping a pushed import list is pushing the mapped record.
proof fn lemma_imports_v_push(v: Seq<JavascriptImport>, x: JavascriptImport)
    ensures imports_v(v.push(x)) =~= imports_v(v).push(x@),
{
}

/// Mapping a pushed re-export list is pushing the mapped record.
proof fn lemma_exports_v_push(v: Seq<JavascriptExport>, x: JavascriptExport)
    ensures exports_v(v.push(x)) =~= exports_v(v).push(x@),
{
}

/// Mapping a pushed name-pair list is pushing the mapped binding.
proof fn lemma_named_v_push(v: Seq<(String, String)>, pr: (String, String))
    ensures
        named_v(v.push(pr)) =~= named_v(v).push(
            BindingV { variable_name: pr.0@, binding_name: pr.1@ },
        ),
{
}

/// Build the import record a committed pending statement yields.
fn build_import(
    dflt: Option<String>,
    named: Vec<(String, String)>,
    specifier: String,
    sstart: usize,
    send: usize,
) -> (r: JavascriptImport)
    ensures
        r@ == commit_record(
            PendingV {
                is_import: true,
                default_binding: opt_name_v(dflt),
                named: named_v(named@),
                wildcard: false,
                specifier: specifier@,
                start: sstart as int,
                end: send as int,
            },
        ),
{
    let mut named_rec: Vec<NamedImport> = Vec::new();
    let mut j: usize = 0;
    while j < named.len()
        invariant
            j <= named.len(),
            named_rec@.len() == j,
            forall|k: int| 0 <= k < j ==> #[trigger] named_rec@[k]@ == (BindingV {
                variable_name: named@[k].0@,
                binding_name: named@[k].1@,
            }),
        decreases named.len() - j,
    {
        named_rec.push(
            NamedImport {
                variable_name: named[j].0.clone(),
                binding_name: named[j].1.clone(),
            },
        );
        j = j + 1;
    }
    let default_import = match dflt {
        Some(nm) => Some(DefaultImport { variable_name: nm.clone(), binding_name: nm }),
        None => None,
    };
    let r = JavascriptImport {
        default_import,
        named_imports: named_rec,
        specifier,
        specifier_start: sstart,
        specifier_end: send,
    };
    proof {
        assert(named_imports_v(r.named_imports@) =~= named_v(named@));
        assert(r@ =~= commit_record(
            PendingV {
                is_import: true,
                default_binding: opt_name_v(dflt),
                named: named_v(named@),
                wildcard: false,
                specifier: specifier@,
                start: sstart as int,
                end: send as int,
            },
        ));
    }
    r
}

/// Build the re-export record a committed pending statement yields.
fn build_export(
    dflt: Option<String>,
    named: Vec<(String, String)>,
    wildcard: bool,
    specifier: String,
    sstart: usize,
    send: usize,
) -> (r: JavascriptExport)
    ensures
        r@ == commit_record(
            PendingV {
                is_import: false,
                default_binding: opt_name_v(dflt),
                named: named_v(named@),
                wildcard,
                specifier: specifier@,
                start: sstart as int,
                end: send as int,
            },
        ),
{
    let mut named_rec: Vec<NamedExport> = Vec::new();
    let mut j: usize = 0;
    while j < named.len()
        invariant
            j <= named.len(),
            named_rec@.len() == j,
            forall|k: int| 0 <= k < j ==> #[trigger] named_rec@[k]@ == (BindingV {
                variable_name: named@[k].0@,
                binding_name: named@[k].1@,
            }),
        decreases named.len() - j,
    {
        named_rec.push(
            NamedExport {
                variable_name: named[j].0.clone(),
                binding_name: named[j].1.clone(),
            },
        );
        j = j + 1;
    }
    let default_export = match dflt {
        Some(nm) => Some(DefaultExport { variable_name: nm.clone(), binding_name: nm }),
        None => None,
    };
    let r = JavascriptExport {
        default_export,
        named_exports: named_rec,
        is_wildcard: wildcard,
        specifier,
        specifier_start: sstart,
        specifier_end: send,
    };
    proof {
        assert(named_exports_v(r.named_exports@) =~= named_v(named@));
        assert(r@ =~= commit_record(
            PendingV {
                is_import: false,
                default_binding: opt_name_v(dflt),
                named: named_v(named@),
                wildcard,
                specifier: specifier@,
                start: sstart as int,
                end: send as int,
            },
        ));
    }
    r
}

/// The parser's executable state: the machine phase, the pending
/// record's pieces, and the records committed so far.  The name an
/// open named-list entry began with is kept in `entry_first`.
struct PState {
    phase: Phase,
    entry_first: String,
    is_import: bool,
    default_name: Option<String>,
    named: Vec<(String, String)>,
    wildcard: bool,
    specifier: String,
    spec_start: usize,
    spec_end: usize,
    imports: Vec<JavascriptImport>,
    exports: Vec<JavascriptExport>,
}

/// The model state an executable state stands for.
spec fn pstate_v(ps: PState) -> StateV {
    cur_state(
        ps.phase, ps.entry_first, ps.is_import, ps.default_name, ps.named@, ps.wildcard,
        ps.specifier, ps.spec_start, ps.spec_end, ps.imports@, ps.exports@,
    )
}

/// A state holding no partial statement, carrying the given committed
/// records.
fn fresh_state(imports: Vec<JavascriptImport>, exports: Vec<JavascriptExport>) -> (r: PState)
    ensures
        pstate_v(r) == (StateV {
            phase: PhaseV::Scan,
            pending: empty_pending(true),
            imports: imports_v(imports@),
            exports: exports_v(exports@),
        }),
        r.phase == Phase::Scan,
        r.is_import,
        !r.wildcard,
{
    let r = PState {
        phase: Phase::Scan,
        entry_first: String::new(),
        is_import: true,
        default_name: None,
        named: Vec::new(),
        wildcard: false,
        specifier: String::new(),
        spec_start: 0,
        spec_end: 0,
        imports,
        exports,
    };
    proof {
        assert(pstate_v(r) =~= (StateV {
            phase: PhaseV::Scan,
            pending: empty_pending(true),
            imports: imports_v(r.imports@),
            exports: exports_v(r.exports@),
        }));
    }
    r
}

/// Commit the pending record of a state standing at the end of a
/// statement.
fn commit_exec(ps: PState) -> (r: PState)
    requires ps.is_import ==> !ps.wildcard,
    ensures
        pstate_v(r) == commit_state(pstate_v(ps)),
        r.phase == Phase::Scan,
        r.is_import,
        !r.wildcard,
{
    let PState {
        phase: _,
        entry_first: _,
        is_import,
        default_name,
        named,
        wildcard,
        specifier,
        spec_start,
        spec_end,
        mut imports,
        mut exports,
    } = ps;
    if is_import {
        let rec = build_import(default_name, named, specifier, spec_start, spec_end);
        proof {
            assert(rec@ == commit_record(pstate_v(ps).pending));
            lemma_imports_v_push(imports@, rec);
        }
        imports.push(rec);
    } else {
        let rec = build_export(default_name, named, wildcard, specifier, spec_start, spec_end);
        proof {
            assert(rec@ == commit_record(pstate_v(ps).pending));
            lemma_exports_v_push(exports@, rec);
        }
        exports.push(rec);
    }
    let r = fresh_state(imports, exports);
    proof {
        assert(pstate_v(r) =~= commit_state(pstate_v(ps)));
    }
    r
}

/// Whether the range `[a, b)` of the source holds a newline or a
/// carriage return: the executable counterpart of [`has_terminator`].
fn range_has_terminator(s: &str, a: usize, b: usize) -> (r: bool)
    requires a <= b <= s@.len(),
    ensures r == has_terminator(s@, a as int, b as int),
{
    let mut i = a;
    while i < b
        invariant
            a <= i <= b <= s@.len(),
            forall|k: int| a <= k < i ==> !(s@[k] == '\n' || s@[k] == '\r'),
        decreases b - i,
    {
        let c = s.get_char(i);
        if c == '\n' || c == '\r' {
            return true;
        }
        i = i + 1;
    }
    false
}

/// Run one token through the statement machine: the executable
/// counterpart of [`step`].
#[verifier::rlimit(100)]
#[verifier::spinoff_prover]
fn do_step(ps: PState, raw_source: &str, t: Token) -> (r: Result<PState, SyntaxError>)
    requires
        t.start < t.end <= raw_source@.len() <= usize::MAX,
        t == token_at(raw_source@, t.start as int),
        ps.is_import ==> !ps.wildcard,
    ensures ({
        let s = raw_source@;
        match r {
            Ok(ps2) => step(s, pstate_v(ps), t) == Ok::<StateV, SyntaxErrorV>(pstate_v(ps2))
                && (ps2.is_import ==> !ps2.wildcard),
            Err(e) => step(s, pstate_v(ps), t) == Err::<StateV, SyntaxErrorV>(e@),
        }
    }),
{
    let ghost s = raw_source@;
    let ghost st0 = pstate_v(ps);
    let ghost err0 = SyntaxErrorV { offset: t.start as int, ch: s[t.start as int] };
    let kind = t.kind;
    let mut q = ps;
    let mut failed: bool = false;

    match q.phase {
        Phase::Scan => {
            if kind == TokenKind::Import {
                let imps = q.imports;
                let exps = q.exports;
                q = fresh_state(imps, exps);
                q.phase = Phase::Vars;
            } else if kind == TokenKind::Export {
                let imps = q.imports;
                let exps = q.exports;
                q = fresh_state(imps, exps);
                q.phase = Phase::Vars;
                q.is_import = false;
            }
        },
        Phase::Vars => {
            if kind == TokenKind::Whitespace {
            } else if kind == TokenKind::LBrace {
                q.phase = Phase::NamedEntry;
            } else if kind == TokenKind::Ident {
                let txt = raw_source.substring_char(t.start, t.end).to_owned();
                q.default_name = Some(txt);
                q.phase = Phase::AfterDefault;
            } else if !q.is_import && kind == TokenKind::Star {
                q.wildcard = true;
                q.phase = Phase::ExpectFrom;
            } else if !q.is_import && kind == TokenKind::Default {
                let imps = q.imports;
                let exps = q.exports;
                q = fresh_state(imps, exps);
            } else {
                failed = true;
            }
        },
        Phase::AfterDefault => {
            if kind == TokenKind::Whitespace {
            } else if kind == TokenKind::Comma {
                q.phase = Phase::NamedOpen;
            } else if kind == TokenKind::From {
                q.phase = Phase::ExpectSpecifier;
            } else if !q.is_import && kind == TokenKind::Semicolon {
                let imps = q.imports;
                let exps = q.exports;
                q = fresh_state(imps, exps);
            } else {
                failed = true;
            }
        },
        Phase::NamedOpen => {
            if kind == TokenKind::Whitespace {
            } else if kind == TokenKind::LBrace {
                q.phase = Phase::NamedEntry;
            } else {
                failed = true;
            }
        },
        Phase::NamedEntry => {
            if kind == TokenKind::Whitespace {
            } else if kind == TokenKind::Ident {
                q.entry_first = raw_source.substring_char(t.start, t.end).to_owned();
                q.phase = Phase::NamedAfterName;
            } else if kind == TokenKind::Default {
                q.phase = Phase::NamedAfterDefault;
            } else if kind == TokenKind::RBrace {
                q.phase = Phase::ExpectFrom;
            } else {
                failed = true;
            }
        },
        Phase::NamedAfterName => {
            if kind == TokenKind::Whitespace {
            } else if kind == TokenKind::As {
                q.phase = Phase::NamedAliasNamed;
            } else if kind == TokenKind::Comma || kind == TokenKind::RBrace {
                proof {
                    lemma_named_v_push(q.named@, (q.entry_first, q.entry_first));
                }
                let nm = q.entry_first.clone();
                q.named.push((nm.clone(), nm));
                q.entry_first = String::new();
                q.phase = if kind == TokenKind::Comma {
                    Phase::NamedEntry
                } else {
                    Phase::ExpectFrom
                };
            } else {
                failed = true;
            }
        },
        Phase::NamedAfterDefault => {
            if kind == TokenKind::Whitespace {
            } else if kind == TokenKind::As {
                q.phase = Phase::NamedAliasDefault;
            } else if kind == TokenKind::Comma {
                q.phase = Phase::NamedEntry;
            } else if kind == TokenKind::RBrace {
                q.phase = Phase::ExpectFrom;
            } else {
                failed = true;
            }
        },
        Phase::NamedAliasNamed => {
            if kind == TokenKind::Whitespace {
            } else if kind == TokenKind::Ident {
                let txt = raw_source.substring_char(t.start, t.end).to_owned();
                proof {
                    lemma_named_v_push(q.named@, (q.entry_first, txt));
                }
                let nm = q.entry_first.clone();
                q.named.push((nm, txt));
                q.entry_first = String::new();
                q.phase = Phase::NamedDone;
            } else if kind == TokenKind::Default {
                proof {
                    lemma_named_v_push(q.named@, (q.entry_first, q.entry_first));
                }
                let nm = q.entry_first.clone();
                q.named.push((nm.clone(), nm));
                q.entry_first = String::new();
                q.phase = Phase::NamedDone;
            } else {
                failed = true;
            }
        },
        Phase::NamedAliasDefault => {
            if kind == TokenKind::Whitespace {
            } else if kind == TokenKind::Ident {
                let txt = raw_source.substring_char(t.start, t.end).to_owned();
                proof {
                    lemma_named_v_push(q.named@, (txt, txt));
                }
                q.named.push((txt.clone(), txt));
                q.phase = Phase::NamedDone;
            } else if kind == TokenKind::Default {
                q.phase = Phase::NamedDone;
            } else {
                failed = true;
            }
        },
        Phase::NamedDone => {
            if kind == TokenKind::Whitespace {
            } else if kind == TokenKind::Comma {
                q.phase = Phase::NamedEntry;
            } else if kind == TokenKind::RBrace {
                q.phase = Phase::ExpectFrom;
            } else {
                failed = true;
            }
        },
        Phase::ExpectFrom => {
            if kind == TokenKind::Whitespace {
            } else if kind == TokenKind::From {
                q.phase = Phase::ExpectSpecifier;
            } else if !q.is_import && kind == TokenKind::Semicolon {
                let imps = q.imports;
                let exps = q.exports;
                q = fresh_state(imps, exps);
            } else {
                failed = true;
            }
        },
        Phase::ExpectSpecifier => {
            if kind == TokenKind::Whitespace {
            } else if kind == TokenKind::Specifier {
                proof {
                    crate::lexer::lemma_specifier_token_shape(s, t.start as int);
                }
                q.specifier = raw_source.substring_char(t.start + 1, t.end - 1).to_owned();
                q.spec_start = t.start + 1;
                q.spec_end = t.end - 2;
                q.phase = Phase::StatementEnd;
            } else {
                failed = true;
            }
        },
        Phase::StatementEnd => {
            if kind == TokenKind::Semicolon {
                q = commit_exec(q);
            } else if kind == TokenKind::Whitespace {
                if range_has_terminator(raw_source, t.start, t.end) {
                    q = commit_exec(q);
                }
            } else {
                failed = true;
            }
        },
    }

    if failed {
        let e = SyntaxError {
            offset: t.start,
            ch: raw_source.get_char(t.start),
        };
        proof {
            assert(e@ == err0);
            assert(step(s, st0, t) == Err::<StateV, SyntaxErrorV>(err0));
        }
        Err(e)
    } else {
        proof {
            assert(step(s, st0, t) is Ok);
            assert(pstate_v(q) =~= step(s, st0, t)->Ok_0);
        }
        Ok(q)
    }
}

/// The statement parser over a token stream.
pub struct Parser<'l> {
    pub tokens: &'l [Token],
}

impl<'l> Parser<'l> {
    /// A parser over the given tokens.
    pub fn new(tokens: &'l [Token]) -> (r: Parser<'l>)
        ensures r.tokens@ == tokens@,
    {
        Parser { tokens }
    }

    /// Parse the module whose source produced the tokens: fold the
    /// statement machine over the token stream and return the parsed
    /// module, or the first syntax error.
    #[verifier::rlimit(100)]
    #[verifier::spinoff_prover]
    pub fn parse_module(self, raw_source: String) -> (r: Result<JavascriptModule, SyntaxError>)
        requires
            self.tokens@ == spec_tokenize(raw_source@, 0),
        ensures ({
            let res = parse_source(raw_source@);
            &&& (r is Ok <==> res is Ok)
            &&& (r is Ok ==> r->Ok_0@ == (ModuleV {
                imports: res->Ok_0.imports,
                exports: res->Ok_0.exports,
                raw: raw_source@,
            }))
            &&& (r is Err ==> r->Err_0@ == res->Err_0)
        }),
    {
        let ghost s = raw_source@;
        let n = raw_source.as_str().unicode_len();
        let toks = self.tokens;
        let m = toks.len();
        proof {
            lemma_tokens_facts(s, toks@);
        }

        let mut ps = fresh_state(Vec::new(), Vec::new());
        proof {
            assert(pstate_v(ps) =~= init_state());
        }

        let mut idx: usize = 0;
        while idx < m
            invariant
                toks@ == spec_tokenize(s, 0),
                s == raw_source@,
                n == s.len(),
                m == toks@.len(),
                idx <= m,
                ps.is_import ==> !ps.wildcard,
                forall|k: int| 0 <= k < toks@.len() ==> {
                    &&& (#[trigger] toks@[k]).start < toks@[k].end <= s.len()
                    &&& toks@[k] == token_at(s, toks@[k].start as int)
                },
                parse_toks(s, toks@, 0, init_state())
                    == parse_toks(s, toks@, idx as int, pstate_v(ps)),
            decreases m - idx,
        {
            let t = toks[idx];
            proof {
                assert(toks@[idx as int] == t);
                assert(t.start < t.end <= s.len());
                assert(t == token_at(s, t.start as int));
            }
            let ghost st0 = pstate_v(ps);
            match do_step(ps, raw_source.as_str(), t) {
                Ok(ps2) => {
                    proof {
                        assert(parse_toks(s, toks@, idx as int, st0)
                            == parse_toks(s, toks@, idx as int + 1, pstate_v(ps2)));
                    }
                    ps = ps2;
                },
                Err(e) => {
                    proof {
                        assert(parse_toks(s, toks@, idx as int, st0)
                            == Err::<StateV, SyntaxErrorV>(e@));
                    }
                    return Err(e);
                },
            }
            idx = idx + 1;
        }

        let ghost stf = pstate_v(ps);
        proof {
            assert(parse_toks(s, toks@, m as int, stf) == parse_source(s));
        }
        let PState { imports, exports, .. } = ps;
        let module = JavascriptModule { imports, exports, raw_source };
        proof {
            assert(parse_source(s) is Ok);
            assert(module@ =~= (ModuleV {
                imports: parse_source(s)->Ok_0.imports,
                exports: parse_source(s)->Ok_0.exports,
                raw: s,
            }));
        }
        Ok(module)
    }
}

/// A record's span is exact with respect to its source text: the
/// specifier text is precisely `s[start ..= end]`, at least six
/// characters long, and one repeated quote character stands
/// immediately before and immediately after the span.
pub open spec fn wf_record(s: Seq<char>, r: RecordV) -> bool {
    &&& 1 <= r.start
    &&& r.start + 5 <= r.end
    &&& r.end + 2 <= s.len()
    &&& is_quote_char(s[r.start - 1])
    &&& s[r.end + 1] == s[r.start - 1]
    &&& r.specifier == s.subrange(r.start, r.end + 1)
}

/// Every record of the list is well formed and the spans appear in
/// source order without overlap, each closing quote standing before
/// the next span's opening quote.
pub open spec fn wf_sorted(s: Seq<char>, rs: Seq<RecordV>) -> bool {
    &&& forall|k: int| 0 <= k < rs.len() ==> wf_record(s, #[trigger] rs[k])
    &&& forall|k: int| 0 <= k < rs.len() - 1 ==> (#[trigger] rs[k]).end + 2 <= rs[k + 1].start
}

/// The spans of the two lists never overlap each other, quotes
/// included.
pub open spec fn wf_disjoint(a: Seq<RecordV>, b: Seq<RecordV>) -> bool {
    forall|i: int, j: int| 0 <= i < a.len() && 0 <= j < b.len() ==>
        (#[trigger] a[i]).end + 2 <= (#[trigger] b[j]).start || b[j].end + 2 <= a[i].start
}

/// Every span of the list, its closing quote included, ends before
/// `bound`.
spec fn ends_before(rs: Seq<RecordV>, bound: int) -> bool {
    forall|k: int| 0 <= k < rs.len() ==> (#[trigger] rs[k]).end + 2 <= bound
}

/// The pending record's span fields are exact, like a committed
/// record's.
spec fn wf_pending(s: Seq<char>, p: PendingV) -> bool {
    &&& 1 <= p.start
    &&& p.start + 5 <= p.end
    &&& p.end + 2 <= s.len()
    &&& is_quote_char(s[p.start - 1])
    &&& s[p.end + 1] == s[p.start - 1]
    &&& p.specifier == s.subrange(p.start, p.end + 1)
}

/// The position every committed span must end at or before, while the
/// parser stands at token `i`.
spec fn span_upper(s: Seq<char>, toks: Seq<Token>, i: int) -> int {
    if i < toks.len() {
        toks[i].start as int
    } else {
        s.len() as int
    }
}

/// The tokens tile the text: each is non-empty and in bounds, each
/// starts where its predecessor ended, and the last ends at the end of
/// the text.
spec fn toks_tiling(s: Seq<char>, toks: Seq<Token>) -> bool {
    &&& forall|k: int| 0 <= k < toks.len() ==> {
        &&& (#[trigger] toks[k]).start < toks[k].end <= s.len()
        &&& toks[k].start as int == (if k == 0 { 0int } else { toks[k - 1].end as int })
    }
    &&& toks.len() > 0 ==> toks[toks.len() - 1].end == s.len()
}

/// Every specifier token of the list spans at least eight characters
/// and is delimited by one repeated quote character.
spec fn toks_spec_shape(s: Seq<char>, toks: Seq<Token>) -> bool {
    forall|k: int| 0 <= k < toks.len() && (#[trigger] toks[k]).kind == TokenKind::Specifier ==> {
        &&& toks[k].start + 8 <= toks[k].end as int
        &&& is_quote_char(s[toks[k].start as int])
        &&& s[toks[k].end - 1] == s[toks[k].start as int]
    }
}

/// The mid-parse invariant of the well-formedness induction.
spec fn wf_mid(s: Seq<char>, toks: Seq<Token>, i: int, st: StateV) -> bool {
    &&& wf_sorted(s, st.imports)
    &&& wf_sorted(s, st.exports)
    &&& wf_disjoint(st.imports, st.exports)
    &&& (if st.phase is StatementEnd {
        &&& wf_pending(s, st.pending)
        &&& st.pending.end + 2 <= span_upper(s, toks, i)
        &&& ends_before(st.imports, st.pending.start)
        &&& ends_before(st.exports, st.pending.start)
    } else {
        &&& ends_before(st.imports, span_upper(s, toks, i))
        &&& ends_before(st.exports, span_upper(s, toks, i))
    })
}

/// The last token of a tokenization ends at the end of the text.
#[verifier::rlimit(100)]
#[verifier::spinoff_prover]
proof fn lemma_toks_last_end(s: Seq<char>, i: int, toks: Seq<Token>)
    requires
        s.len() <= usize::MAX,
        0 <= i <= s.len(),
        toks == spec_tokenize(s, i),
        toks.len() > 0,
    ensures toks[toks.len() - 1].end == s.len(),
    decreases toks.len(),
{
    let t = token_at(s, i);
    lemma_token_at_bounds(s, i);
    let rest = spec_tokenize(s, t.end as int);
    if rest.len() == 0 {
        lemma_tokenize_chain(s, t.end as int);
        assert(toks[0] == t);
    } else {
        lemma_toks_last_end(s, t.end as int, rest);
        assert(toks[toks.len() - 1] == rest[rest.len() - 1]);
    }
}

/// A tokenization tiles its text.
proof fn lemma_toks_tiling(s: Seq<char>, toks: Seq<Token>)
    requires
        s.len() <= usize::MAX,
        toks == spec_tokenize(s, 0),
    ensures toks_tiling(s, toks),
{
    lemma_tokenize_chain(s, 0);
    assert forall|k: int| 0 <= k < toks.len() implies {
        &&& (#[trigger] toks[k]).start < toks[k].end <= s.len()
        &&& toks[k].start as int == (if k == 0 { 0int } else { toks[k - 1].end as int })
    } by {
        assert(spec_tokenize(s, 0)[k] == toks[k]);
        if k > 0 {
            assert(spec_tokenize(s, 0)[k - 1] == toks[k - 1]);
        }
    }
    if toks.len() > 0 {
        lemma_toks_last_end(s, 0, toks);
    }
}

/// Every specifier token of a tokenization has the quoted shape.
proof fn lemma_toks_spec_shape(s: Seq<char>, toks: Seq<Token>)
    requires
        s.len() <= usize::MAX,
        toks == spec_tokenize(s, 0),
    ensures toks_spec_shape(s, toks),
{
    lemma_tokenize_chain(s, 0);
    assert forall|k: int|
        0 <= k < toks.len() && (#[trigger] toks[k]).kind == TokenKind::Specifier implies {
        &&& toks[k].start + 8 <= toks[k].end as int
        &&& is_quote_char(s[toks[k].start as int])
        &&& s[toks[k].end - 1] == s[toks[k].start as int]
    } by {
        assert(spec_tokenize(s, 0)[k] == toks[k]);
        crate::lexer::lemma_specifier_token_shape(s, toks[k].start as int);
    }
}

/// A step that neither commits nor records a specifier leaves the
/// record lists unchanged and does not reach the end of a statement.
#[verifier::rlimit(100)]
#[verifier::spinoff_prover]
proof fn lemma_step_plain(s: Seq<char>, st: StateV, t: Token)
    requires
        step(s, st, t) is Ok,
        !(st.phase is StatementEnd),
        !(st.phase is ExpectSpecifier && t.kind == TokenKind::Specifier),
    ensures ({
        let st2 = step(s, st, t)->Ok_0;
        &&& st2.imports == st.imports
        &&& st2.exports == st.exports
        &&& !(st2.phase is StatementEnd)
    }),
{
}

/// A step that records a specifier span sets the pending record's
/// span to the characters strictly between the token's quotes, and
/// leaves the record lists unchanged.
#[verifier::rlimit(100)]
#[verifier::spinoff_prover]
proof fn lemma_step_specifier(s: Seq<char>, st: StateV, t: Token)
    requires
        step(s, st, t) is Ok,
        st.phase is ExpectSpecifier && t.kind == TokenKind::Specifier,
    ensures ({
        let st2 = step(s, st, t)->Ok_0;
        &&& st2.imports == st.imports
        &&& st2.exports == st.exports
        &&& st2.phase is StatementEnd
        &&& st2.pending.start == t.start + 1
        &&& st2.pending.end == t.end - 2
        &&& st2.pending.specifier == s.subrange(t.start + 1, t.end - 1)
    }),
{
}

/// A step from the end of a statement either commits the pending
/// record, at a terminator, or skips terminator-free whitespace.
#[verifier::rlimit(100)]
#[verifier::spinoff_prover]
proof fn lemma_step_commit(s: Seq<char>, st: StateV, t: Token)
    requires
        step(s, st, t) is Ok,
        st.phase is StatementEnd,
    ensures
        t.kind == TokenKind::Semicolon
            || (t.kind == TokenKind::Whitespace
                && has_terminator(s, t.start as int, t.end as int))
            ==> step(s, st, t)->Ok_0 == commit_state(st),
        !(t.kind == TokenKind::Semicolon
            || (t.kind == TokenKind::Whitespace
                && has_terminator(s, t.start as int, t.end as int)))
            ==> step(s, st, t)->Ok_0 == st,
{
}

/// Appending a well-formed record past the end of a sorted list keeps
/// it sorted.
proof fn lemma_wf_push_sorted(s: Seq<char>, rs: Seq<RecordV>, r: RecordV)
    requires
        wf_sorted(s, rs),
        ends_before(rs, r.start),
        wf_record(s, r),
    ensures
        wf_sorted(s, rs.push(r)),
        ends_before(rs.push(r), r.end + 2),
{
    let rs2 = rs.push(r);
    assert forall|k: int| 0 <= k < rs2.len() implies wf_record(s, #[trigger] rs2[k]) by {
        if k < rs.len() {
            assert(rs2[k] == rs[k]);
        }
    }
    assert forall|k: int| 0 <= k < rs2.len() - 1 implies (#[trigger] rs2[k]).end + 2
        <= rs2[k + 1].start by {
        assert(rs2[k] == rs[k]);
        if k + 1 < rs.len() {
            assert(rs2[k + 1] == rs[k + 1]);
        }
    }
    assert forall|k: int| 0 <= k < rs2.len() implies (#[trigger] rs2[k]).end + 2
        <= r.end + 2 by {
        if k < rs.len() {
            assert(rs2[k] == rs[k]);
        }
    }
}

/// Appending a record lying past both lists keeps the lists disjoint.
proof fn lemma_wf_push_disjoint(a: Seq<RecordV>, b: Seq<RecordV>, r: RecordV)
    requires
        wf_disjoint(a, b),
        ends_before(b, r.start),
    ensures wf_disjoint(a.push(r), b),
{
    let a2 = a.push(r);
    assert forall|i: int, j: int| 0 <= i < a2.len() && 0 <= j < b.len() implies
        (#[trigger] a2[i]).end + 2 <= (#[trigger] b[j]).start
        || b[j].end + 2 <= a2[i].start by {
        if i < a.len() {
            assert(a2[i] == a[i]);
        }
    }
}

/// Appending a record lying past both lists keeps the lists disjoint.
proof fn lemma_wf_push_disjoint_right(a: Seq<RecordV>, b: Seq<RecordV>, r: RecordV)
    requires
        wf_disjoint(a, b),
        ends_before(a, r.start),
    ensures wf_disjoint(a, b.push(r)),
{
    let b2 = b.push(r);
    assert forall|i: int, j: int| 0 <= i < a.len() && 0 <= j < b2.len() implies
        (#[trigger] a[i]).end + 2 <= (#[trigger] b2[j]).start
        || b2[j].end + 2 <= a[i].start by {
        if j < b.len() {
            assert(b2[j] == b[j]);
        }
    }
}

/// The commit of a well-formed pending record keeps the mid-parse
/// record invariants, with the committed span as the new bound.
proof fn lemma_commit_wf(s: Seq<char>, st: StateV)
    requires
        wf_sorted(s, st.imports),
        wf_sorted(s, st.exports),
        wf_disjoint(st.imports, st.exports),
        wf_pending(s, st.pending),
        ends_before(st.imports, st.pending.start),
        ends_before(st.exports, st.pending.start),
    ensures ({
        let st2 = commit_state(st);
        &&& wf_sorted(s, st2.imports)
        &&& wf_sorted(s, st2.exports)
        &&& wf_disjoint(st2.imports, st2.exports)
        &&& ends_before(st2.imports, st.pending.end + 2)
        &&& ends_before(st2.exports, st.pending.end + 2)
        &&& !(st2.phase is StatementEnd)
    }),
{
    let r = commit_record(st.pending);
    assert(wf_record(s, r));
    if st.pending.is_import {
        lemma_wf_push_sorted(s, st.imports, r);
        lemma_wf_push_disjoint(st.imports, st.exports, r);
        assert forall|k: int| 0 <= k < st.exports.len() implies
            (#[trigger] st.exports[k]).end + 2 <= st.pending.end + 2 by {}
    } else {
        lemma_wf_push_sorted(s, st.exports, r);
        lemma_wf_push_disjoint_right(st.imports, st.exports, r);
        assert forall|k: int| 0 <= k < st.imports.len() implies
            (#[trigger] st.imports[k]).end + 2 <= st.pending.end + 2 by {}
    }
}

/// The well-formedness induction: folding the machine from a
/// well-formed mid-state yields well-formed, ordered, disjoint record
/// lists.
#[verifier::rlimit(100)]
#[verifier::spinoff_prover]
proof fn lemma_parse_toks_wf(s: Seq<char>, toks: Seq<Token>, i: int, st: StateV)
    requires
        s.len() <= usize::MAX,
        toks_tiling(s, toks),
        toks_spec_shape(s, toks),
        0 <= i <= toks.len(),
        wf_mid(s, toks, i, st),
        parse_toks(s, toks, i, st) is Ok,
    ensures ({
        let stf = parse_toks(s, toks, i, st)->Ok_0;
        &&& wf_sorted(s, stf.imports)
        &&& wf_sorted(s, stf.exports)
        &&& wf_disjoint(stf.imports, stf.exports)
    }),
    decreases toks.len() - i,
{
    if i >= toks.len() {
    } else {
        let t = toks[i];
        let st2 = step(s, st, t)->Ok_0;
        assert(span_upper(s, toks, i) == t.start as int);
        assert(span_upper(s, toks, i + 1) == t.end as int);
        if st.phase is StatementEnd {
            lemma_step_commit(s, st, t);
            if t.kind == TokenKind::Semicolon
                || (t.kind == TokenKind::Whitespace
                    && has_terminator(s, t.start as int, t.end as int)) {
                lemma_commit_wf(s, st);
                assert(wf_mid(s, toks, i + 1, st2));
            } else {
                assert(st2 == st);
                assert(wf_mid(s, toks, i + 1, st2));
            }
        } else if st.phase is ExpectSpecifier && t.kind == TokenKind::Specifier {
            lemma_step_specifier(s, st, t);
            assert(wf_pending(s, st2.pending));
            assert(wf_mid(s, toks, i + 1, st2));
        } else {
            lemma_step_plain(s, st, t);
            assert(wf_mid(s, toks, i + 1, st2));
        }
        lemma_parse_toks_wf(s, toks, i + 1, st2);
    }
}

/// Spans are exact and ordered (the offset-exactness guarantee): when
/// a source parses, every import and re-export record's specifier text
/// equals `raw[start ..= end]`, one repeated quote character stands
/// immediately before and after each span, the spans of each list
/// appear in source order without overlap, and no import span overlaps
/// an export span.
#[verifier::rlimit(100)]
#[verifier::spinoff_prover]
pub proof fn lemma_parse_source_wf(s: Seq<char>)
    requires
        s.len() <= usize::MAX,
        parse_source(s) is Ok,
    ensures ({
        let stf = parse_source(s)->Ok_0;
        &&& wf_sorted(s, stf.imports)
        &&& wf_sorted(s, stf.exports)
        &&& wf_disjoint(stf.imports, stf.exports)
    }),
{
    let toks = spec_tokenize(s, 0);
    lemma_toks_tiling(s, toks);
    lemma_toks_spec_shape(s, toks);
    assert(wf_mid(s, toks, 0, init_state()));
    lemma_parse_toks_wf(s, toks, 0, init_state());
}

} // verus!
