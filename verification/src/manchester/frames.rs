//! The Manchester document layer: prefixes, frames, sections.
//!
//! A line-structured scanner: frame headers at column 0, sections inline or indented, and
//! section bodies that may continue across indented lines (bodies accumulate as text and
//! parse through the expression grammar). An unparseable section becomes a [`ParseIssue`]
//! and the rest of the document proceeds; nothing is skipped silently.
use vstd::prelude::*;
use crate::manchester::{
    Document, Frame, FrameKind, Section, DisjointBlock, ParseIssue, Expr, ExprV, ev, keyword_of,
    error_text, ManchesterError,
};
use crate::manchester::expr::{list_spec, MErrV, merr, evs};
use crate::manchester::lexer::{TokenV, describe, lex_from, boff, byte_len};
use crate::text::{trim, tokens, strip_angles_spec, word_end, decimal, is_ws, drop_trailing, trim_end};
use crate::fragment::{split_ws, line_end, line_text};
use crate::text::{chars_of, eq_str, string_of, trim_range, is_whitespace};
use crate::manchester::lexer::{Token, tokenize};
use crate::manchester::expr::kinds;

verus! {

/// Sections whose bodies parse as expression lists.
pub open spec fn expr_section(w: Seq<char>) -> bool {
    w == "SubClassOf"@ || w == "EquivalentTo"@ || w == "DisjointWith"@ || w == "Domain"@ || w == "Range"@
        || w == "Types"@
}

/// Sections recognized (so the inline scanner splits on them) but only recorded by keyword.
pub open spec fn other_section(w: Seq<char>) -> bool {
    w == "Annotations"@ || w == "SubPropertyOf"@ || w == "Characteristics"@ || w == "InverseOf"@
        || w == "HasKey"@ || w == "Facts"@ || w == "SameAs"@ || w == "DifferentFrom"@
        || w == "EquivalentProperties"@ || w == "DisjointProperties"@ || w == "DisjointUnionOf"@
        || w == "SubPropertyChain"@
}

/// A section keyword.
pub open spec fn section_keyword(w: Seq<char>) -> bool {
    expr_section(w) || other_section(w)
}

/// The section keyword a word marks (`Keyword:`), if any.
pub open spec fn marker(w: Seq<char>) -> Option<Seq<char>> {
    if w.len() > 0 && w.last() == ':' && section_keyword(w.drop_last()) {
        Some(w.drop_last())
    } else {
        None
    }
}

/// The inline-split state: the lead, the finished segments, the open keyword and its body.
pub type SplitState = (Seq<char>, Seq<(Seq<char>, Seq<char>)>, Option<Seq<char>>, Seq<char>);

/// Fold the words from `i` on into the split state.
pub open spec fn split_from(ws: Seq<Seq<char>>, i: int, st: SplitState) -> SplitState
    decreases ws.len() - i,
{
    if i < 0 || i >= ws.len() {
        st
    } else {
        let (lead, segs, kw, body) = st;
        let next = match marker(ws[i]) {
            Some(k) => match kw {
                Some(prev) => (lead, segs.push((prev, trim(body))), Some(k), Seq::empty()),
                None => (trim(body), segs, Some(k), Seq::empty()),
            },
            None => (lead, segs, kw, body + " "@ + ws[i]),
        };
        split_from(ws, i + 1, next)
    }
}

/// Split `text` into `(keyword, body)` segments on `Keyword:` markers; the text before the
/// first marker is the lead.
pub open spec fn split_inline(text: Seq<char>) -> (Seq<char>, Seq<(Seq<char>, Seq<char>)>) {
    let (lead, segs, kw, body) = split_from(tokens(text), 0, (Seq::empty(), Seq::empty(), None, Seq::empty()));
    match kw {
        Some(k) => (lead, segs.push((k, trim(body)))),
        None => (trim(body), segs),
    }
}

/// A section, viewed.
pub struct SectionV {
    pub keyword: Seq<char>,
    pub line: nat,
    pub items: Seq<ExprV>,
}

/// A frame, viewed.
pub struct FrameV {
    pub kind: FrameKind,
    pub subject: Seq<char>,
    pub line: nat,
    pub sections: Seq<SectionV>,
    pub annotations: Seq<(Seq<char>, Seq<char>)>,
}

/// A disjointness block, viewed.
pub struct BlockV {
    pub line: nat,
    pub atoms: Seq<Seq<char>>,
}

/// A document, viewed.
pub struct DocV {
    pub prefixes: Seq<(Seq<char>, Seq<char>)>,
    pub frames: Seq<FrameV>,
    pub blocks: Seq<BlockV>,
}

/// An issue, viewed.
pub struct IssueV {
    pub line: nat,
    pub context: Seq<char>,
    pub message: Seq<char>,
}

/// A pending section body, viewed.
pub struct PendingV {
    pub keyword: Seq<char>,
    pub line: nat,
    pub body: Seq<char>,
}

/// The scanner's state, viewed.
pub struct ScanV {
    pub doc: DocV,
    pub issues: Seq<IssueV>,
    pub frame: Option<FrameV>,
    pub pending: Option<PendingV>,
}

/// An issue.
pub open spec fn issue(line: nat, context: Seq<char>, message: Seq<char>) -> IssueV {
    IssueV { line, context, message }
}

/// The annotation pairs and issues of an `Annotations:` token stream from `i` on.
pub open spec fn ann_from(ts: Seq<TokenV>, i: int, line: nat, ctx: Seq<char>, pairs: Seq<(Seq<char>, Seq<char>)>, issues: Seq<IssueV>) -> (Seq<(Seq<char>, Seq<char>)>, Seq<IssueV>)
    decreases ts.len() - i,
{
    if i < 0 || i >= ts.len() {
        (pairs, issues)
    } else {
        let t = ts[i];
        let n = if i + 1 < ts.len() { Some(ts[i + 1]) } else { None };
        if (t is Ident || t is Iri) && (n matches Some(TokenV::Str(_))) {
            let p = match t { TokenV::Ident(x) => x, TokenV::Iri(x) => x, _ => Seq::empty() };
            let s = match n { Some(TokenV::Str(x)) => x, _ => Seq::empty() };
            ann_from(ts, i + 2, line, ctx, pairs.push((p, s)), issues)
        } else if t is Comma {
            ann_from(ts, i + 1, line, ctx, pairs, issues)
        } else if t is Eof {
            (pairs, issues)
        } else {
            let j = resync(ts, i);
            if j <= i || j > ts.len() {
                (pairs, issues)
            } else {
                ann_from(ts, j, line, ctx, pairs, issues.push(issue(line, ctx, "non-string annotation value near "@ + describe(t) + " (skipped)"@)))
            }
        }
    }
}

/// The next comma or end marker at or after `i`, else the end of the stream.
pub open spec fn resync(ts: Seq<TokenV>, i: int) -> int
    decreases ts.len() - i,
{
    if i < 0 || i >= ts.len() || ts[i] is Comma || ts[i] is Eof { i } else { resync(ts, i + 1) }
}

/// The annotations an `Annotations:` body adds to a frame, and the issues it raises.
pub open spec fn annotations_spec(body: Seq<char>, line: nat, subject: Seq<char>) -> (Seq<(Seq<char>, Seq<char>)>, Seq<IssueV>) {
    let ctx = subject + ": Annotations"@;
    match lex_from(body, 0) {
        Err((p, m)) => (Seq::empty(), seq![issue(line, ctx, error_text_v(MErrV::Lex(p, m)))]),
        Ok(toks) => ann_from(toks.map_values(|t: (TokenV, nat)| t.0), 0, line, ctx, Seq::empty(), Seq::empty()),
    }
}

/// How an error reads.
pub open spec fn error_text_v(e: MErrV) -> Seq<char> {
    match e {
        MErrV::Lex(p, m) => "lex error at byte "@ + decimal(p) + ": "@ + m,
        MErrV::Parse(p, m) => "parse error at token "@ + decimal(p) + ": "@ + m,
    }
}

/// Close the pending section into the open frame.
pub open spec fn flush_pending(s: ScanV) -> ScanV {
    match s.pending {
        None => s,
        Some(p) => {
            let s1 = ScanV { pending: None, ..s };
            match s1.frame {
                None => ScanV { issues: s1.issues.push(issue(p.line, p.keyword, "section outside any frame"@)), ..s1 },
                Some(f) => if p.keyword == "Annotations"@ {
                    let (pairs, iss) = annotations_spec(p.body, p.line, f.subject);
                    ScanV { frame: Some(FrameV { annotations: f.annotations + pairs, ..f }), issues: s1.issues + iss, ..s1 }
                } else if expr_section(p.keyword) {
                    match list_spec(p.body) {
                        Ok(items) => ScanV {
                            frame: Some(FrameV { sections: f.sections.push(SectionV { keyword: p.keyword, line: p.line, items }), ..f }),
                            ..s1
                        },
                        Err(e) => ScanV {
                            issues: s1.issues.push(issue(p.line, f.subject + ": "@ + p.keyword, error_text_v(e))),
                            ..s1
                        },
                    }
                } else {
                    ScanV {
                        frame: Some(FrameV { sections: f.sections.push(SectionV { keyword: p.keyword, line: p.line, items: Seq::empty() }), ..f }),
                        ..s1
                    }
                },
            }
        },
    }
}

/// Close the open frame into the document.
pub open spec fn flush_frame(s: ScanV) -> ScanV {
    let s1 = flush_pending(s);
    match s1.frame {
        None => s1,
        Some(f) => ScanV { doc: DocV { frames: s1.doc.frames.push(f), ..s1.doc }, frame: None, ..s1 },
    }
}

/// Open one pending section per segment, each closing the one before.
pub open spec fn begin_sections(s: ScanV, segs: Seq<(Seq<char>, Seq<char>)>, line: nat) -> ScanV
    decreases segs.len(),
{
    if segs.len() == 0 {
        s
    } else {
        let s0 = begin_sections(s, segs.drop_last(), line);
        let s1 = flush_pending(s0);
        ScanV { pending: Some(PendingV { keyword: segs.last().0, line, body: segs.last().1 }), ..s1 }
    }
}

/// The frame kind a header keyword names.
pub open spec fn frame_kind_of(t: Seq<char>) -> Option<FrameKind> {
    if starts(t, "Class:"@) {
        Some(FrameKind::Class)
    } else if starts(t, "ObjectProperty:"@) {
        Some(FrameKind::ObjectProperty)
    } else if starts(t, "DataProperty:"@) {
        Some(FrameKind::DataProperty)
    } else if starts(t, "AnnotationProperty:"@) {
        Some(FrameKind::AnnotationProperty)
    } else if starts(t, "Datatype:"@) {
        Some(FrameKind::Datatype)
    } else if starts(t, "Individual:"@) {
        Some(FrameKind::Individual)
    } else {
        None
    }
}

/// A line opened by a frame kind's keyword and a colon is a frame of that kind, whatever
/// follows.
pub proof fn lemma_frame_keyword(k: FrameKind, t: Seq<char>)
    ensures
        frame_kind_of(keyword_of(k) + ":"@ + t) == Some(k),
{
    reveal_strlit(":");
    reveal_strlit("Class");
    reveal_strlit("ObjectProperty");
    reveal_strlit("DataProperty");
    reveal_strlit("AnnotationProperty");
    reveal_strlit("Datatype");
    reveal_strlit("Individual");
    assert(keyword_of(k) + ":"@ + t =~= match k {
        FrameKind::Class => "Class:"@ + t,
        FrameKind::ObjectProperty => "ObjectProperty:"@ + t,
        FrameKind::DataProperty => "DataProperty:"@ + t,
        FrameKind::AnnotationProperty => "AnnotationProperty:"@ + t,
        FrameKind::Datatype => "Datatype:"@ + t,
        FrameKind::Individual => "Individual:"@ + t,
    }) by {
        reveal_strlit("Class:");
        reveal_strlit("ObjectProperty:");
        reveal_strlit("DataProperty:");
        reveal_strlit("AnnotationProperty:");
        reveal_strlit("Datatype:");
        reveal_strlit("Individual:");
    }
    match k {
        FrameKind::Class => {
            let s = "Class:"@ + t;
            reveal_strlit("Class:");
            assert(s.take("Class:"@.len() as int) =~= "Class:"@);
        },
        FrameKind::ObjectProperty => {
            let s = "ObjectProperty:"@ + t;
            reveal_strlit("ObjectProperty:");
            reveal_strlit("Class:");
            if "Class:"@.len() <= s.len() { assert(s.take("Class:"@.len() as int)[0] != "Class:"@[0]); }
            assert(s.take("ObjectProperty:"@.len() as int) =~= "ObjectProperty:"@);
        },
        FrameKind::DataProperty => {
            let s = "DataProperty:"@ + t;
            reveal_strlit("DataProperty:");
            reveal_strlit("Class:");
            if "Class:"@.len() <= s.len() { assert(s.take("Class:"@.len() as int)[0] != "Class:"@[0]); }
            reveal_strlit("ObjectProperty:");
            if "ObjectProperty:"@.len() <= s.len() { assert(s.take("ObjectProperty:"@.len() as int)[0] != "ObjectProperty:"@[0]); }
            assert(s.take("DataProperty:"@.len() as int) =~= "DataProperty:"@);
        },
        FrameKind::AnnotationProperty => {
            let s = "AnnotationProperty:"@ + t;
            reveal_strlit("AnnotationProperty:");
            reveal_strlit("Class:");
            if "Class:"@.len() <= s.len() { assert(s.take("Class:"@.len() as int)[0] != "Class:"@[0]); }
            reveal_strlit("ObjectProperty:");
            if "ObjectProperty:"@.len() <= s.len() { assert(s.take("ObjectProperty:"@.len() as int)[0] != "ObjectProperty:"@[0]); }
            reveal_strlit("DataProperty:");
            if "DataProperty:"@.len() <= s.len() { assert(s.take("DataProperty:"@.len() as int)[0] != "DataProperty:"@[0]); }
            assert(s.take("AnnotationProperty:"@.len() as int) =~= "AnnotationProperty:"@);
        },
        FrameKind::Datatype => {
            let s = "Datatype:"@ + t;
            reveal_strlit("Datatype:");
            reveal_strlit("Class:");
            if "Class:"@.len() <= s.len() { assert(s.take("Class:"@.len() as int)[0] != "Class:"@[0]); }
            reveal_strlit("ObjectProperty:");
            if "ObjectProperty:"@.len() <= s.len() { assert(s.take("ObjectProperty:"@.len() as int)[0] != "ObjectProperty:"@[0]); }
            reveal_strlit("DataProperty:");
            if "DataProperty:"@.len() <= s.len() { assert(s.take("DataProperty:"@.len() as int)[4] != "DataProperty:"@[4]); }
            reveal_strlit("AnnotationProperty:");
            if "AnnotationProperty:"@.len() <= s.len() { assert(s.take("AnnotationProperty:"@.len() as int)[0] != "AnnotationProperty:"@[0]); }
            assert(s.take("Datatype:"@.len() as int) =~= "Datatype:"@);
        },
        FrameKind::Individual => {
            let s = "Individual:"@ + t;
            reveal_strlit("Individual:");
            reveal_strlit("Class:");
            if "Class:"@.len() <= s.len() { assert(s.take("Class:"@.len() as int)[0] != "Class:"@[0]); }
            reveal_strlit("ObjectProperty:");
            if "ObjectProperty:"@.len() <= s.len() { assert(s.take("ObjectProperty:"@.len() as int)[0] != "ObjectProperty:"@[0]); }
            reveal_strlit("DataProperty:");
            if "DataProperty:"@.len() <= s.len() { assert(s.take("DataProperty:"@.len() as int)[0] != "DataProperty:"@[0]); }
            reveal_strlit("AnnotationProperty:");
            if "AnnotationProperty:"@.len() <= s.len() { assert(s.take("AnnotationProperty:"@.len() as int)[0] != "AnnotationProperty:"@[0]); }
            reveal_strlit("Datatype:");
            if "Datatype:"@.len() <= s.len() { assert(s.take("Datatype:"@.len() as int)[0] != "Datatype:"@[0]); }
            assert(s.take("Individual:"@.len() as int) =~= "Individual:"@);
        },
    }
}


/// `p` starts `t`.
pub open spec fn starts(t: Seq<char>, p: Seq<char>) -> bool {
    p.len() <= t.len() && t.take(p.len() as int) == p
}

/// The first index of `c` in `s`, if any.
pub open spec fn index_of(s: Seq<char>, c: char) -> int {
    crate::manchester::lexer::find_char(s, 0, c)
}

/// A `Prefix:` line.
pub open spec fn prefix_line(s: ScanV, n: nat, t: Seq<char>) -> ScanV {
    let s1 = flush_frame(s);
    let rest = trim(t.skip(7));
    let j = index_of(rest, '<');
    if j < rest.len() {
        let prefix = trim(rest.take(j));
        let uri = drop_trailing(trim_end(rest.skip(j + 1)), '>');
        if prefix.len() > 0 {
            ScanV { doc: DocV { prefixes: s1.doc.prefixes.push((prefix, uri)), ..s1.doc }, ..s1 }
        } else {
            s1
        }
    } else {
        ScanV { issues: s1.issues.push(issue(n, "Prefix"@, "malformed prefix declaration"@)), ..s1 }
    }
}

/// The atoms of a `DisjointClasses:` list and the issues for its non-atomic members.
pub open spec fn atoms_of(items: Seq<ExprV>, n: nat) -> (Seq<Seq<char>>, Seq<IssueV>)
    decreases items.len(),
{
    if items.len() == 0 {
        (Seq::empty(), Seq::empty())
    } else {
        let (atoms, iss) = atoms_of(items.drop_last(), n);
        match items.last() {
            ExprV::Named(x) => (atoms.push(x), iss),
            _ => (atoms, iss.push(issue(n, "DisjointClasses"@, "non-atomic member (skipped)"@))),
        }
    }
}

/// A `DisjointClasses:` line.
pub open spec fn disjoint_line(s: ScanV, n: nat, t: Seq<char>) -> ScanV {
    let s1 = flush_frame(s);
    match list_spec(t.skip(16)) {
        Ok(items) => {
            let (atoms, iss) = atoms_of(items, n);
            ScanV { doc: DocV { blocks: s1.doc.blocks.push(BlockV { line: n, atoms }), ..s1.doc }, issues: s1.issues + iss, ..s1 }
        },
        Err(e) => ScanV { issues: s1.issues.push(issue(n, "DisjointClasses"@, error_text_v(e))), ..s1 },
    }
}

/// A frame header line of kind `k`.
pub open spec fn frame_line(s: ScanV, n: nat, t: Seq<char>, k: FrameKind) -> ScanV {
    let s1 = flush_frame(s);
    let rest = trim(t.skip(keyword_of(k).len() as int + 1));
    if rest.len() == 0 {
        ScanV { issues: s1.issues.push(issue(n, keyword_of(k), "frame header without a subject"@)), ..s1 }
    } else {
        let (subject, remainder) = split_ws(rest);
        let s2 = ScanV {
            frame: Some(FrameV { kind: k, subject: strip_angles_spec(subject), line: n, sections: Seq::empty(), annotations: Seq::empty() }),
            ..s1
        };
        let (lead, segs) = split_inline(remainder);
        let s3 = if lead.len() > 0 {
            ScanV { issues: s2.issues.push(issue(n, keyword_of(k), "unexpected text after subject: "@ + lead)), ..s2 }
        } else {
            s2
        };
        begin_sections(s3, segs, n)
    }
}

/// The first `min(byte length, 60)` bytes of `t`, as characters.
pub open spec fn head60(t: Seq<char>) -> Seq<char> {
    t.take(cut60(t, 0))
}

/// The index of the first character at or after `i` at which 60 bytes have been passed.
pub open spec fn cut60(t: Seq<char>, i: int) -> int
    decreases t.len() - i,
{
    if i < 0 || i >= t.len() || boff(t, i) >= 60 { i } else { cut60(t, i + 1) }
}

/// Slicing the first 60 bytes of `t` lands on a character boundary.
pub open spec fn cut_ok(t: Seq<char>) -> bool {
    byte_len(t) <= 60 || boff(t, cut60(t, 0)) == 60
}

/// A column-0 line that names no construct.
pub open spec fn unrecognized(t: Seq<char>) -> bool {
    !starts(t, "Prefix:"@) && !starts(t, "Ontology:"@) && !starts(t, "Import:"@)
        && !starts(t, "DisjointClasses:"@) && frame_kind_of(t) is None
}

/// At column 0: the line does not start with a space or a tab.
pub open spec fn at_col0(raw: Seq<char>) -> bool {
    raw.len() > 0 && raw[0] != ' ' && raw[0] != '\t'
}

/// One line of the document.
pub open spec fn line_step(s: ScanV, n: nat, raw: Seq<char>) -> ScanV {
    let t = trim(raw);
    if t.len() == 0 {
        s
    } else if at_col0(raw) {
        if starts(t, "Prefix:"@) {
            prefix_line(s, n, t)
        } else if starts(t, "Ontology:"@) || starts(t, "Import:"@) {
            flush_frame(s)
        } else if starts(t, "DisjointClasses:"@) {
            disjoint_line(s, n, t)
        } else {
            match frame_kind_of(t) {
                Some(k) => frame_line(s, n, t, k),
                None => {
                    let s1 = flush_frame(s);
                    ScanV { issues: s1.issues.push(issue(n, "document"@, "unrecognized top-level line: "@ + head60(t))), ..s1 }
                },
            }
        }
    } else {
        let (lead, segs) = split_inline(t);
        if segs.len() == 0 {
            match s.pending {
                Some(p) => ScanV { pending: Some(PendingV { body: p.body + " "@ + t, ..p }), ..s },
                None => ScanV { issues: s.issues.push(issue(n, "document"@, "indented content with no active section"@)), ..s },
            }
        } else {
            let s1 = if lead.len() > 0 {
                match s.pending {
                    Some(p) => ScanV { pending: Some(PendingV { body: p.body + " "@ + lead, ..p }), ..s },
                    None => s,
                }
            } else {
                s
            };
            begin_sections(s1, segs, n)
        }
    }
}

/// The scanner state after the lines of `text` from index `i` on, the first being line `n`.
pub open spec fn scan_from(text: Seq<char>, i: int, n: nat, s: ScanV) -> ScanV
    decreases text.len() - i,
{
    if i < 0 || i >= text.len() {
        s
    } else {
        let j = line_end(text, i);
        if j < i || j > text.len() {
            s
        } else {
            let s1 = line_step(s, n, line_text(text, i, j));
            if j >= text.len() { s1 } else { scan_from(text, j + 1, n + 1, s1) }
        }
    }
}

/// Every line whose first 60 bytes an unrecognized-line message quotes can be cut there.
pub open spec fn lines_cut_ok(text: Seq<char>, i: int) -> bool
    decreases text.len() - i,
{
    if i < 0 || i >= text.len() {
        true
    } else {
        let j = line_end(text, i);
        if j < i || j > text.len() {
            true
        } else {
            let raw = line_text(text, i, j);
            let t = trim(raw);
            (t.len() > 0 && at_col0(raw) && unrecognized(t) ==> cut_ok(t))
                && (j >= text.len() || lines_cut_ok(text, j + 1))
        }
    }
}

/// The empty scanner state.
pub open spec fn scan0() -> ScanV {
    ScanV { doc: DocV { prefixes: Seq::empty(), frames: Seq::empty(), blocks: Seq::empty() }, issues: Seq::empty(), frame: None, pending: None }
}

/// The document and issues of a whole text.
pub open spec fn document_spec(text: Seq<char>) -> ScanV {
    flush_frame(scan_from(text, 0, 1, scan0()))
}

impl View for Section {
    type V = SectionV;

    open spec fn view(&self) -> SectionV {
        SectionV { keyword: self.keyword@, line: self.line as nat, items: evs(self.items@) }
    }
}

/// The views of the sections.
pub open spec fn sections_view(v: Seq<Section>) -> Seq<SectionV> {
    v.map_values(|x: Section| x@)
}

/// The views of string pairs.
pub open spec fn pairs_view(v: Seq<(String, String)>) -> Seq<(Seq<char>, Seq<char>)> {
    v.map_values(|p: (String, String)| (p.0@, p.1@))
}

impl View for Frame {
    type V = FrameV;

    open spec fn view(&self) -> FrameV {
        FrameV {
            kind: self.kind,
            subject: self.subject@,
            line: self.line as nat,
            sections: sections_view(self.sections@),
            annotations: pairs_view(self.annotations@),
        }
    }
}

impl View for DisjointBlock {
    type V = BlockV;

    open spec fn view(&self) -> BlockV {
        BlockV { line: self.line as nat, atoms: crate::fragment::names_view(self.atoms@) }
    }
}

impl View for Document {
    type V = DocV;

    open spec fn view(&self) -> DocV {
        DocV {
            prefixes: pairs_view(self.prefixes@),
            frames: self.frames@.map_values(|f: Frame| f@),
            blocks: self.disjoint_blocks@.map_values(|b: DisjointBlock| b@),
        }
    }
}

impl View for ParseIssue {
    type V = IssueV;

    open spec fn view(&self) -> IssueV {
        IssueV { line: self.line as nat, context: self.context@, message: self.message@ }
    }
}

/// The views of the issues.
pub open spec fn issues_view(v: Seq<ParseIssue>) -> Seq<IssueV> {
    v.map_values(|x: ParseIssue| x@)
}

/// Whether `w` marks a section keyword (`Keyword:`); the keyword if so.
fn marker_of(w: &String) -> (r: Option<String>)
    ensures
        match marker(w@) {
            Some(k) => r matches Some(x) && x@ == k,
            None => r is None,
        },
{
    let v = chars_of(w.as_str());
    if v.len() == 0 || v[v.len() - 1] != ':' {
        return None;
    }
    let k = crate::text::string_of(&v, 0, v.len() - 1);
    proof { assert(w@.drop_last() =~= k@); }
    let ks = k.as_str();
    let known = eq_str(ks, "SubClassOf") || eq_str(ks, "EquivalentTo") || eq_str(ks, "DisjointWith")
        || eq_str(ks, "Domain") || eq_str(ks, "Range") || eq_str(ks, "Types") || eq_str(ks, "Annotations")
        || eq_str(ks, "SubPropertyOf") || eq_str(ks, "Characteristics") || eq_str(ks, "InverseOf")
        || eq_str(ks, "HasKey") || eq_str(ks, "Facts") || eq_str(ks, "SameAs") || eq_str(ks, "DifferentFrom")
        || eq_str(ks, "EquivalentProperties") || eq_str(ks, "DisjointProperties")
        || eq_str(ks, "DisjointUnionOf") || eq_str(ks, "SubPropertyChain");
    if known { Some(k) } else { None }
}

/// `s` trimmed.
fn trimmed(s: &String) -> (r: String)
    ensures
        r@ == trim(s@),
{
    let v = chars_of(s.as_str());
    let (a, b) = crate::text::trim_range(&v, 0, v.len());
    proof { assert(v@.subrange(0, v@.len() as int) =~= s@); }
    crate::text::string_of(&v, a, b)
}

/// Split `v[a..b]` into its lead and `(keyword, body)` segments.
fn split_inline_exec(v: &Vec<char>, a: usize, b: usize) -> (r: (String, Vec<(String, String)>))
    requires
        a <= b <= v@.len(),
    ensures
        (r.0@, pairs_view(r.1@)) == split_inline(v@.subrange(a as int, b as int)),
{
    let words = crate::text::split_words(v, a, b);
    let ghost ws = crate::fragment::names_view(words@);
    let mut lead = String::new();
    let mut segs: Vec<(String, String)> = Vec::new();
    let mut kw: Option<String> = None;
    let mut body = String::new();
    let ghost init: SplitState = (Seq::empty(), Seq::empty(), None, Seq::empty());
    proof { assert(pairs_view(segs@) =~= Seq::<(Seq<char>, Seq<char>)>::empty()); }
    let mut i: usize = 0;
    while i < words.len()
        invariant
            ws == crate::fragment::names_view(words@),
            ws == tokens(v@.subrange(a as int, b as int)),
            i <= ws.len(),
            split_from(ws, 0, init) == split_from(ws, i as int, (lead@, pairs_view(segs@), match kw { Some(k) => Some(k@), None => None }, body@)),
            init == (Seq::<char>::empty(), Seq::<(Seq<char>, Seq<char>)>::empty(), None::<Seq<char>>, Seq::<char>::empty()),
        decreases ws.len() - i,
    {
        let w = &words[i];
        match marker_of(w) {
            Some(k) => {
                match kw {
                    Some(prev) => {
                        let ghost before = pairs_view(segs@);
                        let tb = trimmed(&body);
                        let ghost pv = prev@;
                        let ghost tv = tb@;
                        segs.push((prev, tb));
                        assert(pairs_view(segs@) =~= before.push((pv, tv)));
                    },
                    None => {
                        lead = trimmed(&body);
                    },
                }
                body = String::new();
                kw = Some(k);
            },
            None => {
                body = crate::text::cat(crate::text::cat(body, " "), w.as_str());
            },
        }
        i += 1;
    }
    match kw {
        Some(k) => {
            let ghost before = pairs_view(segs@);
            let tb = trimmed(&body);
            let ghost kv = k@;
            let ghost tv = tb@;
            segs.push((k, tb));
            assert(pairs_view(segs@) =~= before.push((kv, tv)));
            (lead, segs)
        },
        None => (trimmed(&body), segs),
    }
}

/// Errors read the same through either view.
proof fn lemma_error_text(e: ManchesterError)
    ensures
        error_text(e) == error_text_v(merr(e)),
{
}

/// The annotation pairs and issues of an `Annotations:` body of the frame on `subject`.
fn annotations(body: &String, line: usize, subject: &String) -> (r: (Vec<(String, String)>, Vec<ParseIssue>))
    ensures
        (pairs_view(r.0@), issues_view(r.1@)) == annotations_spec(body@, line as nat, subject@),
{
    let ctx = crate::text::cat(subject.clone(), ": Annotations");
    let mut pairs: Vec<(String, String)> = Vec::new();
    let mut issues: Vec<ParseIssue> = Vec::new();
    let toks = match tokenize(body.as_str()) {
        Ok(t) => t,
        Err(e) => {
            proof { lemma_error_text(e); }
            issues.push(ParseIssue { line, context: ctx, message: e.to_text() });
            assert(issues_view(issues@) =~= seq![issues@[0]@]);
            assert(pairs_view(pairs@) =~= Seq::<(Seq<char>, Seq<char>)>::empty());
            return (pairs, issues);
        },
    };
    let ghost ts = kinds(toks@);
    proof {
        let toks_s = match lex_from(body@, 0) { Ok(t) => t, Err(_) => Seq::empty() };
        assert(ts =~= toks_s.map_values(|t: (TokenV, nat)| t.0));
        assert(pairs_view(pairs@) =~= Seq::<(Seq<char>, Seq<char>)>::empty());
        assert(issues_view(issues@) =~= Seq::<IssueV>::empty());
    }
    let mut i: usize = 0;
    while i < toks.len()
        invariant
            ts == kinds(toks@),
            i <= ts.len(),
            ctx@ == subject@ + ": Annotations"@,
            ann_from(ts, 0, line as nat, ctx@, Seq::empty(), Seq::empty())
                == ann_from(ts, i as int, line as nat, ctx@, pairs_view(pairs@), issues_view(issues@)),
        ensures
            ann_from(ts, 0, line as nat, ctx@, Seq::empty(), Seq::empty())
                == (pairs_view(pairs@), issues_view(issues@)),
        decreases ts.len() - i,
    {
        let t = &toks[i].0;
        let next_str = if i + 1 < toks.len() { matches!(toks[i + 1].0, Token::Str(_)) } else { false };
        let is_name = matches!(t, Token::Ident(_)) || matches!(t, Token::Iri(_));
        if is_name && next_str {
            let p = match t { Token::Ident(x) => x.clone(), Token::Iri(x) => x.clone(), _ => String::new() };
            let sv = match &toks[i + 1].0 { Token::Str(x) => x.clone(), _ => String::new() };
            let ghost before = pairs_view(pairs@);
            let ghost pair = (p@, sv@);
            pairs.push((p, sv));
            assert(pairs_view(pairs@) =~= before.push(pair));
            i += 2;
        } else if matches!(t, Token::Comma) {
            i += 1;
        } else if matches!(t, Token::Eof) {
            break;
        } else {
            let m = crate::text::cat(crate::text::cat(String::from_str("non-string annotation value near "), t.describe().as_str()), " (skipped)");
            let ghost before = issues_view(issues@);
            let iss = ParseIssue { line, context: ctx.clone(), message: m };
            let ghost iv = iss@;
            issues.push(iss);
            assert(issues_view(issues@) =~= before.push(iv));
            let mut j = i;
            while j < toks.len() && !matches!(toks[j].0, Token::Comma) && !matches!(toks[j].0, Token::Eof)
                invariant
                    ts == kinds(toks@),
                    i <= j <= ts.len(),
                    resync(ts, i as int) == resync(ts, j as int),
                decreases ts.len() - j,
            {
                j += 1;
            }
            i = j;
        }
    }
    (pairs, issues)
}


/// Whether `v` starts with `lit`.
fn starts_lit(v: &Vec<char>, lit: &str) -> (r: bool)
    ensures
        r == starts(v@, lit@),
{
    let l = chars_of(lit);
    if l.len() > v.len() {
        return false;
    }
    let mut i: usize = 0;
    while i < l.len()
        invariant
            i <= l@.len() <= v@.len(),
            l@ == lit@,
            forall|m: int| 0 <= m < i ==> v@[m] == l@[m],
        decreases l@.len() - i,
    {
        if v[i] != l[i] {
            assert(v@.take(l@.len() as int)[i as int] != l@[i as int]);
            return false;
        }
        i += 1;
    }
    assert(v@.take(l@.len() as int) =~= l@);
    true
}

/// The frame kind a header line opens, if any.
fn header_kind(v: &Vec<char>) -> (r: Option<FrameKind>)
    ensures
        r == frame_kind_of(v@),
{
    if starts_lit(v, "Class:") {
        Some(FrameKind::Class)
    } else if starts_lit(v, "ObjectProperty:") {
        Some(FrameKind::ObjectProperty)
    } else if starts_lit(v, "DataProperty:") {
        Some(FrameKind::DataProperty)
    } else if starts_lit(v, "AnnotationProperty:") {
        Some(FrameKind::AnnotationProperty)
    } else if starts_lit(v, "Datatype:") {
        Some(FrameKind::Datatype)
    } else if starts_lit(v, "Individual:") {
        Some(FrameKind::Individual)
    } else {
        None
    }
}

/// A header of kind `k` holds its keyword and the colon.
proof fn lemma_header_len(t: Seq<char>, k: FrameKind)
    requires
        frame_kind_of(t) == Some(k),
    ensures
        keyword_of(k).len() + 1 <= t.len(),
{
    reveal_strlit("Class");
    reveal_strlit("Class:");
    reveal_strlit("ObjectProperty");
    reveal_strlit("ObjectProperty:");
    reveal_strlit("DataProperty");
    reveal_strlit("DataProperty:");
    reveal_strlit("AnnotationProperty");
    reveal_strlit("AnnotationProperty:");
    reveal_strlit("Datatype");
    reveal_strlit("Datatype:");
    reveal_strlit("Individual");
    reveal_strlit("Individual:");
}

/// The first 60 bytes of `v`, as characters.
fn head60_exec(v: &Vec<char>) -> (r: String)
    ensures
        r@ == head60(v@),
{
    let ghost t = v@;
    let mut i: usize = 0;
    let mut b: usize = 0;
    proof { assert(t.take(0) =~= Seq::<char>::empty()); }
    while i < v.len() && b < 60
        invariant
            t == v@,
            i <= t.len(),
            b == boff(t, i as int),
            b < 64,
            cut60(t, 0) == cut60(t, i as int),
        decreases t.len() - i,
    {
        proof { crate::manchester::lexer::lemma_boff_step(t, i as int); }
        let w = crate::manchester::lexer::utf8_width(v[i]);
        b = b + w;
        i += 1;
    }
    string_of(v, 0, i)
}

/// A pending section body.
pub struct Pending {
    pub keyword: String,
    pub line: usize,
    pub body: String,
}

impl View for Pending {
    type V = PendingV;

    open spec fn view(&self) -> PendingV {
        PendingV { keyword: self.keyword@, line: self.line as nat, body: self.body@ }
    }
}

/// The scanner's state: the document so far, the issues, the open frame and section.
pub struct Scanner {
    pub doc: Document,
    pub issues: Vec<ParseIssue>,
    pub frame: Option<Frame>,
    pub pending: Option<Pending>,
}

impl View for Scanner {
    type V = ScanV;

    open spec fn view(&self) -> ScanV {
        ScanV {
            doc: self.doc@,
            issues: issues_view(self.issues@),
            frame: match self.frame { Some(f) => Some(f@), None => None },
            pending: match self.pending { Some(p) => Some(p@), None => None },
        }
    }
}

impl Scanner {
    /// Close the pending section into the open frame.
    fn flush_pending(&mut self)
        ensures
            final(self)@ == flush_pending(old(self)@),
    {
        let p = match self.pending.take() {
            None => return,
            Some(p) => p,
        };
        let mut f = match self.frame.take() {
            None => {
                let ghost before = issues_view(self.issues@);
                let iss = ParseIssue { line: p.line, context: p.keyword, message: String::from_str("section outside any frame") };
                let ghost iv = iss@;
                self.issues.push(iss);
                assert(issues_view(self.issues@) =~= before.push(iv));
                return;
            },
            Some(f) => f,
        };
        if eq_str(p.keyword.as_str(), "Annotations") {
            let (pairs, iss) = annotations(&p.body, p.line, &f.subject);
            let ghost a0 = pairs_view(f.annotations@);
            let ghost i0 = issues_view(self.issues@);
            let mut pairs = pairs;
            let mut iss = iss;
            let ghost pv = pairs_view(pairs@);
            let ghost isv = issues_view(iss@);
            f.annotations.append(&mut pairs);
            self.issues.append(&mut iss);
            assert(pairs_view(f.annotations@) =~= a0 + pv);
            assert(issues_view(self.issues@) =~= i0 + isv);
            self.frame = Some(f);
        } else {
            let k = p.keyword.as_str();
            let listed = eq_str(k, "SubClassOf") || eq_str(k, "EquivalentTo") || eq_str(k, "DisjointWith")
                || eq_str(k, "Domain") || eq_str(k, "Range") || eq_str(k, "Types");
            if listed {
                match crate::manchester::expr::parse_list(p.body.as_str()) {
                    Ok(items) => {
                        let ghost before = sections_view(f.sections@);
                        let sec = Section { keyword: p.keyword, line: p.line, items };
                        let ghost sv = sec@;
                        f.sections.push(sec);
                        assert(sections_view(f.sections@) =~= before.push(sv));
                        self.frame = Some(f);
                    },
                    Err(e) => {
                        proof { lemma_error_text(e); }
                        let ctx = crate::text::cat(crate::text::cat(f.subject.clone(), ": "), p.keyword.as_str());
                        let ghost before = issues_view(self.issues@);
                        let iss = ParseIssue { line: p.line, context: ctx, message: e.to_text() };
                        let ghost iv = iss@;
                        self.issues.push(iss);
                        assert(issues_view(self.issues@) =~= before.push(iv));
                        self.frame = Some(f);
                    },
                }
            } else {
                let ghost before = sections_view(f.sections@);
                let sec = Section { keyword: p.keyword, line: p.line, items: Vec::new() };
                assert(evs(sec.items@) =~= Seq::<ExprV>::empty());
                let ghost sv = sec@;
                f.sections.push(sec);
                assert(sections_view(f.sections@) =~= before.push(sv));
                self.frame = Some(f);
            }
        }
    }

    /// Close the open frame into the document.
    fn flush_frame(&mut self)
        ensures
            final(self)@ == flush_frame(old(self)@),
    {
        self.flush_pending();
        match self.frame.take() {
            Some(f) => {
                let ghost before = self.doc@.frames;
                let ghost fv = f@;
                self.doc.frames.push(f);
                assert(self.doc@.frames =~= before.push(fv));
            },
            None => {},
        }
    }

    /// Open one pending section per segment, each closing the one before.
    fn begin_sections(&mut self, segs: Vec<(String, String)>, line: usize)
        ensures
            final(self)@ == begin_sections(old(self)@, pairs_view(segs@), line as nat),
    {
        let ghost s0 = self@;
        let ghost all = pairs_view(segs@);
        let mut k: usize = 0;
        let mut segs = segs;
        proof { assert(all.take(0) =~= Seq::<(Seq<char>, Seq<char>)>::empty()); }
        while k < segs.len()
            invariant
                all == pairs_view(segs@),
                k <= all.len(),
                self@ == begin_sections(s0, all.take(k as int), line as nat),
            decreases all.len() - k,
        {
            self.flush_pending();
            let kw = segs[k].0.clone();
            let body = segs[k].1.clone();
            self.pending = Some(Pending { keyword: kw, line, body });
            proof {
                assert(all.take(k + 1).drop_last() =~= all.take(k as int));
                assert(all.take(k + 1).last() == all[k as int]);
            }
            k += 1;
        }
        proof { assert(all.take(all.len() as int) =~= all); }
    }
}


impl Scanner {
    /// A `Prefix:` line (`v` is the trimmed line).
    fn prefix_step(&mut self, n: usize, v: &Vec<char>)
        requires
            starts(v@, "Prefix:"@),
        ensures
            final(self)@ == prefix_line(old(self)@, n as nat, v@),
    {
        proof { reveal_strlit("Prefix:"); }
        let ghost t = v@;
        self.flush_frame();
        let (a, b) = trim_range(v, 7, v.len());
        let ghost rest = v@.subrange(a as int, b as int);
        proof { assert(t.skip(7) =~= v@.subrange(7, v@.len() as int)); }
        let mut j = a;
        while j < b && v[j] != '<'
            invariant
                t == v@,
                a <= j <= b <= t.len(),
                rest == t.subrange(a as int, b as int),
                index_of(rest, '<') == crate::manchester::lexer::find_char(rest, j - a, '<'),
            decreases b - j,
        {
            assert(rest[j - a] == t[j as int]);
            j += 1;
        }
        if j < b {
            proof {
                assert(rest[j - a] == t[j as int]);
                assert(rest.take(j - a) =~= t.subrange(a as int, j as int));
                assert(rest.skip(j - a + 1) =~= t.subrange(j + 1, b as int));
            }
            let (pa, pb) = trim_range(v, a, j);
            let prefix = string_of(v, pa, pb);
            let mut e = b;
            while e > j + 1 && is_whitespace(v[e - 1])
                invariant
                    t == v@,
                    a <= j < e <= b <= t.len(),
                    trim_end(t.subrange(j + 1, b as int)) == trim_end(t.subrange(j + 1, e as int)),
                decreases e - j,
            {
                assert(t.subrange(j + 1, e as int).drop_last() =~= t.subrange(j + 1, e - 1));
                e -= 1;
            }
            assert(trim_end(t.subrange(j + 1, e as int)) == t.subrange(j + 1, e as int));
            let mut f = e;
            while f > j + 1 && v[f - 1] == '>'
                invariant
                    t == v@,
                    a <= j < f <= e <= b <= t.len(),
                    drop_trailing(t.subrange(j + 1, e as int), '>') == drop_trailing(t.subrange(j + 1, f as int), '>'),
                decreases f - j,
            {
                assert(t.subrange(j + 1, f as int).drop_last() =~= t.subrange(j + 1, f - 1));
                f -= 1;
            }
            assert(drop_trailing(t.subrange(j + 1, f as int), '>') == t.subrange(j + 1, f as int));
            let uri = string_of(v, j + 1, f);
            if pb > pa {
                let ghost before = self.doc@.prefixes;
                let ghost pv = (prefix@, uri@);
                self.doc.prefixes.push((prefix, uri));
                assert(self.doc@.prefixes =~= before.push(pv));
            }
        } else {
            let ghost before = issues_view(self.issues@);
            let iss = ParseIssue { line: n, context: String::from_str("Prefix"), message: String::from_str("malformed prefix declaration") };
            let ghost iv = iss@;
            self.issues.push(iss);
            assert(issues_view(self.issues@) =~= before.push(iv));
        }
    }
}


impl Scanner {
    /// A `DisjointClasses:` line (`v` is the trimmed line).
    fn disjoint_step(&mut self, n: usize, v: &Vec<char>)
        requires
            starts(v@, "DisjointClasses:"@),
        ensures
            final(self)@ == disjoint_line(old(self)@, n as nat, v@),
    {
        proof { reveal_strlit("DisjointClasses:"); }
        self.flush_frame();
        let body = string_of(v, 16, v.len());
        proof { assert(v@.skip(16) =~= body@); }
        match crate::manchester::expr::parse_list(body.as_str()) {
            Ok(items) => {
                let ghost xs = evs(items@);
                let mut atoms: Vec<String> = Vec::new();
                let mut iss: Vec<ParseIssue> = Vec::new();
                proof {
                    assert(xs.take(0) =~= Seq::<ExprV>::empty());
                    assert(crate::fragment::names_view(atoms@) =~= Seq::<Seq<char>>::empty());
                    assert(issues_view(iss@) =~= Seq::<IssueV>::empty());
                }
                let mut k: usize = 0;
                while k < items.len()
                    invariant
                        xs == evs(items@),
                        k <= xs.len(),
                        atoms_of(xs.take(k as int), n as nat) == (crate::fragment::names_view(atoms@), issues_view(iss@)),
                    decreases xs.len() - k,
                {
                    proof {
                        assert(xs.take(k + 1).drop_last() =~= xs.take(k as int));
                        assert(xs.take(k + 1).last() == ev(items@[k as int]));
                    }
                    match &items[k] {
                        Expr::Named(x) => {
                            let ghost before = crate::fragment::names_view(atoms@);
                            atoms.push(x.clone());
                            assert(crate::fragment::names_view(atoms@) =~= before.push(x@));
                        },
                        _ => {
                            let ghost before = issues_view(iss@);
                            let is = ParseIssue { line: n, context: String::from_str("DisjointClasses"), message: String::from_str("non-atomic member (skipped)") };
                            let ghost iv = is@;
                            iss.push(is);
                            assert(issues_view(iss@) =~= before.push(iv));
                        },
                    }
                    k += 1;
                }
                proof { assert(xs.take(xs.len() as int) =~= xs); }
                let ghost b0 = self.doc@.blocks;
                let ghost i0 = issues_view(self.issues@);
                let ghost ivs = issues_view(iss@);
                let blk = DisjointBlock { line: n, atoms };
                let ghost bv = blk@;
                self.doc.disjoint_blocks.push(blk);
                self.issues.append(&mut iss);
                assert(self.doc@.blocks =~= b0.push(bv));
                assert(issues_view(self.issues@) =~= i0 + ivs);
            },
            Err(e) => {
                proof { lemma_error_text(e); }
                let ghost before = issues_view(self.issues@);
                let is = ParseIssue { line: n, context: String::from_str("DisjointClasses"), message: e.to_text() };
                let ghost iv = is@;
                self.issues.push(is);
                assert(issues_view(self.issues@) =~= before.push(iv));
            },
        }
    }

    /// A column-0 line that names no construct (`v` is the trimmed line).
    fn unrecognized_step(&mut self, n: usize, v: &Vec<char>)
        ensures
            final(self)@ == ({
                let s1 = flush_frame(old(self)@);
                ScanV { issues: s1.issues.push(issue(n as nat, "document"@, "unrecognized top-level line: "@ + head60(v@))), ..s1 }
            }),
    {
        self.flush_frame();
        let h = head60_exec(v);
        let m = crate::text::cat(String::from_str("unrecognized top-level line: "), h.as_str());
        let ghost before = issues_view(self.issues@);
        let is = ParseIssue { line: n, context: String::from_str("document"), message: m };
        let ghost iv = is@;
        self.issues.push(is);
        assert(issues_view(self.issues@) =~= before.push(iv));
    }
}


impl Scanner {
    /// A frame header line of kind `k` (`v` is the trimmed line).
    fn frame_step(&mut self, n: usize, v: &Vec<char>, k: FrameKind)
        requires
            frame_kind_of(v@) == Some(k),
        ensures
            final(self)@ == frame_line(old(self)@, n as nat, v@, k),
    {
        proof { lemma_header_len(v@, k); }
        let ghost t = v@;
        self.flush_frame();
        let kws = chars_of(k.keyword());
        let kl = kws.len();
        let vl = v.len();
        assert(kl + 1 <= vl);
        let (a, b) = trim_range(v, kl + 1, vl);
        let ghost rest = t.subrange(a as int, b as int);
        proof { assert(t.skip(keyword_of(k).len() as int + 1) =~= t.subrange(kl + 1, t.len() as int)); }
        if a == b {
            let ghost before = issues_view(self.issues@);
            let is = ParseIssue { line: n, context: String::from_str(k.keyword()), message: String::from_str("frame header without a subject") };
            let ghost iv = is@;
            self.issues.push(is);
            assert(issues_view(self.issues@) =~= before.push(iv));
            return;
        }
        let mut w = a;
        while w < b && !is_whitespace(v[w])
            invariant
                t == v@,
                a <= w <= b <= t.len(),
                rest == t.subrange(a as int, b as int),
                word_end(rest, 0) == word_end(rest, w - a),
            decreases b - w,
        {
            assert(rest[w - a] == t[w as int]);
            w += 1;
        }
        proof {
            if w < b {
                assert(rest[w - a] == t[w as int]);
            }
        }
        let subject;
        let ra;
        if w < b {
            proof {
                assert(rest.take(w - a) =~= t.subrange(a as int, w as int));
                assert(rest.skip(w - a + 1) =~= t.subrange(w + 1, b as int));
            }
            subject = crate::text::strip_angles(v, a, w);
            ra = w + 1;
        } else {
            proof { assert(t.subrange(b as int, b as int) =~= Seq::<char>::empty()); }
            subject = crate::text::strip_angles(v, a, b);
            ra = b;
        }
        let (lead, segs) = split_inline_exec(v, ra, b);
        self.frame = Some(Frame { kind: k, subject, line: n, sections: Vec::new(), annotations: Vec::new() });
        proof {
            assert(sections_view(Seq::<Section>::empty()) =~= Seq::<SectionV>::empty());
            assert(pairs_view(Seq::<(String, String)>::empty()) =~= Seq::<(Seq<char>, Seq<char>)>::empty());
        }
        if !lead.as_str().is_empty() {
            let m = crate::text::cat(String::from_str("unexpected text after subject: "), lead.as_str());
            let ghost before = issues_view(self.issues@);
            let is = ParseIssue { line: n, context: String::from_str(k.keyword()), message: m };
            let ghost iv = is@;
            self.issues.push(is);
            assert(issues_view(self.issues@) =~= before.push(iv));
        }
        self.begin_sections(segs, n);
    }
}


impl Scanner {
    /// An indented line: a section header, or more of the pending body (`v` is the trimmed line).
    fn indented_step(&mut self, n: usize, v: &Vec<char>)
        ensures
            final(self)@ == ({
                let s = old(self)@;
                let t = v@;
                let (lead, segs) = split_inline(t);
                if segs.len() == 0 {
                    match s.pending {
                        Some(p) => ScanV { pending: Some(PendingV { body: p.body + " "@ + t, ..p }), ..s },
                        None => ScanV { issues: s.issues.push(issue(n as nat, "document"@, "indented content with no active section"@)), ..s },
                    }
                } else {
                    let s1 = if lead.len() > 0 {
                        match s.pending {
                            Some(p) => ScanV { pending: Some(PendingV { body: p.body + " "@ + lead, ..p }), ..s },
                            None => s,
                        }
                    } else {
                        s
                    };
                    begin_sections(s1, segs, n as nat)
                }
            }),
    {
        proof { assert(v@.subrange(0, v@.len() as int) =~= v@); }
        let (lead, segs) = split_inline_exec(v, 0, v.len());
        if segs.len() == 0 {
            match self.pending.take() {
                Some(p) => {
                    let t = string_of(v, 0, v.len());
                    let body = crate::text::cat(crate::text::cat(p.body, " "), t.as_str());
                    self.pending = Some(Pending { keyword: p.keyword, line: p.line, body });
                },
                None => {
                    let ghost before = issues_view(self.issues@);
                    let is = ParseIssue { line: n, context: String::from_str("document"), message: String::from_str("indented content with no active section") };
                    let ghost iv = is@;
                    self.issues.push(is);
                    assert(issues_view(self.issues@) =~= before.push(iv));
                },
            }
        } else {
            if !lead.as_str().is_empty() {
                match self.pending.take() {
                    Some(p) => {
                        let body = crate::text::cat(crate::text::cat(p.body, " "), lead.as_str());
                        self.pending = Some(Pending { keyword: p.keyword, line: p.line, body });
                    },
                    None => {},
                }
            }
            self.begin_sections(segs, n);
        }
    }

    /// One line of the document.
    fn step(&mut self, n: usize, raw: &Vec<char>)
        ensures
            final(self)@ == line_step(old(self)@, n as nat, raw@),
    {
        let (a, b) = trim_range(raw, 0, raw.len());
        proof { assert(raw@.subrange(0, raw@.len() as int) =~= raw@); }
        if a == b {
            return;
        }
        let ts = string_of(raw, a, b);
        let v = chars_of(ts.as_str());
        let col0 = raw[0] != ' ' && raw[0] != '\t';
        if col0 {
            if starts_lit(&v, "Prefix:") {
                self.prefix_step(n, &v);
            } else if starts_lit(&v, "Ontology:") || starts_lit(&v, "Import:") {
                self.flush_frame();
            } else if starts_lit(&v, "DisjointClasses:") {
                self.disjoint_step(n, &v);
            } else {
                match header_kind(&v) {
                    Some(k) => self.frame_step(n, &v, k),
                    None => self.unrecognized_step(n, &v),
                }
            }
        } else {
            self.indented_step(n, &v);
        }
    }
}

/// Parse a whole Manchester document into the document and its per-section issues. An
/// unrecognized top-level line is quoted by its first 60 bytes, which must end on a
/// character boundary.
pub fn parse_document(text: &str) -> (r: (Document, Vec<ParseIssue>))
    requires
        lines_cut_ok(text@, 0),
    ensures
        r.0@ == document_spec(text@).doc,
        issues_view(r.1@) == document_spec(text@).issues,
{
    let v = chars_of(text);
    let ghost t = v@;
    let mut sc = Scanner {
        doc: Document { prefixes: Vec::new(), frames: Vec::new(), disjoint_blocks: Vec::new() },
        issues: Vec::new(),
        frame: None,
        pending: None,
    };
    proof {
        assert(sc@.doc.prefixes =~= Seq::<(Seq<char>, Seq<char>)>::empty());
        assert(sc@.doc.frames =~= Seq::<FrameV>::empty());
        assert(sc@.doc.blocks =~= Seq::<BlockV>::empty());
        assert(sc@.issues =~= Seq::<IssueV>::empty());
        assert(sc@ == scan0());
    }
    let mut i: usize = 0;
    let mut k: usize = 0;
    while i < v.len()
        invariant
            t == v@,
            t == text@,
            k <= i <= t.len(),
            lines_cut_ok(t, i as int),
            scan_from(t, 0, 1, scan0()) == scan_from(t, i as int, (k + 1) as nat, sc@),
        decreases t.len() - i,
    {
        let n = k + 1;
        let mut j = i;
        while j < v.len() && v[j] != '\n'
            invariant
                i <= j <= t.len(),
                t == v@,
                forall|m: int| i <= m < j ==> #[trigger] t[m] != '\n',
            decreases t.len() - j,
        {
            j += 1;
        }
        proof { crate::fragment::lemma_line_end_at(t, i as int, j as int); }
        let mut e = j;
        if j < v.len() && e > i && v[e - 1] == '\r' {
            e -= 1;
        }
        let line = string_of(&v, i, e);
        let lv = chars_of(line.as_str());
        proof { assert(lv@ =~= line_text(t, i as int, j as int)); }
        sc.step(n, &lv);
        if j >= v.len() {
            let ghost s1 = sc@;
            sc.flush_frame();
            return (sc.doc, sc.issues);
        }
        i = j + 1;
        k = n;
    }
    sc.flush_frame();
    (sc.doc, sc.issues)
}


/// Whether slicing the first 60 bytes of `v` lands on a character boundary.
fn cut_ok_exec(v: &Vec<char>) -> (r: bool)
    ensures
        r == cut_ok(v@),
{
    let ghost t = v@;
    let mut i: usize = 0;
    let mut b: usize = 0;
    proof { assert(t.take(0) =~= Seq::<char>::empty()); }
    while i < v.len() && b < 60
        invariant
            t == v@,
            i <= t.len(),
            b == boff(t, i as int),
            b < 64,
            cut60(t, 0) == cut60(t, i as int),
        decreases t.len() - i,
    {
        proof { crate::manchester::lexer::lemma_boff_step(t, i as int); }
        let w = crate::manchester::lexer::utf8_width(v[i]);
        b = b + w;
        i += 1;
    }
    proof {
        crate::manchester::lexer::lemma_boff_bound(t, i as int);
        assert(t.take(t.len() as int) =~= t);
    }
    b <= 60
}

/// Whether every unrecognized top-level line of `text` can be quoted by its first 60 bytes
/// (the condition [`parse_document`] needs).
pub fn lines_quotable(text: &str) -> (r: bool)
    ensures
        r == lines_cut_ok(text@, 0),
{
    let v = chars_of(text);
    let ghost t = v@;
    let mut i: usize = 0;
    while i < v.len()
        invariant
            t == v@,
            t == text@,
            i <= t.len(),
            lines_cut_ok(t, 0) == lines_cut_ok(t, i as int),
        decreases t.len() - i,
    {
        let mut j = i;
        while j < v.len() && v[j] != '\n'
            invariant
                i <= j <= t.len(),
                t == v@,
                forall|m: int| i <= m < j ==> #[trigger] t[m] != '\n',
            decreases t.len() - j,
        {
            j += 1;
        }
        proof { crate::fragment::lemma_line_end_at(t, i as int, j as int); }
        let mut e = j;
        if j < v.len() && e > i && v[e - 1] == '\r' {
            e -= 1;
        }
        let raw = string_of(&v, i, e);
        let rv = chars_of(raw.as_str());
        proof { assert(rv@ =~= line_text(t, i as int, j as int)); }
        let (a, b) = trim_range(&rv, 0, rv.len());
        proof { assert(rv@.subrange(0, rv@.len() as int) =~= rv@); }
        if a < b && rv[0] != ' ' && rv[0] != '\t' {
            let ts = string_of(&rv, a, b);
            let tv = chars_of(ts.as_str());
            let unknown = !starts_lit(&tv, "Prefix:") && !starts_lit(&tv, "Ontology:") && !starts_lit(&tv, "Import:")
                && !starts_lit(&tv, "DisjointClasses:") && header_kind(&tv).is_none();
            if unknown && !cut_ok_exec(&tv) {
                return false;
            }
        }
        if j >= v.len() {
            return true;
        }
        i = j + 1;
    }
    true
}

} // verus!
