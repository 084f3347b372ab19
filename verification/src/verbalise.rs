//! Ontology→relational verbalisation over the Manchester AST.
//!
//! Rule-based and deterministic: property phrasing turns camel/snake case into words,
//! cardinalities are phrased with their true bounds (`exactly 1` → "exactly one"), and a
//! vacuity guard keeps unlabeled opaque local names (numeric ids) from ever surfacing as
//! prose.
use vstd::prelude::*;
use vstd::string::StringSliceAdditionalSpecFns;
use crate::manchester::{Document, Frame, Expr, ExprV, FrameKind, expand_from, prefixes_view, ev, ev_all};
use crate::manchester::frames::{FrameV, SectionV};
use crate::manchester::lower::join_spec;
use crate::text::{chars_of, string_of, trim, trim_range, push_char, cat, decimal, fmt_u64, eq_str};
use crate::manchester::lexer::{ascii_digit, ascii_alpha};

verus! {

/// Display names by IRI: label first, the first label of an entity winning.
pub struct Vocab {
    entries: Vec<(String, String)>,
}

/// The first value stored under `k`.
pub open spec fn lookup(es: Seq<(Seq<char>, Seq<char>)>, k: Seq<char>) -> Option<Seq<char>>
    decreases es.len(),
{
    if es.len() == 0 {
        None
    } else if es[0].0 == k {
        Some(es[0].1)
    } else {
        lookup(es.drop_first(), k)
    }
}

/// Entries, viewed.
pub open spec fn entries_view(es: Seq<(String, String)>) -> Seq<(Seq<char>, Seq<char>)> {
    es.map_values(|e: (String, String)| (e.0@, e.1@))
}

impl Vocab {
    /// The display name stored for each IRI.
    pub closed spec fn view_entries(&self) -> Seq<(Seq<char>, Seq<char>)> {
        entries_view(self.entries@)
    }

    /// The display name stored for `iri`.
    pub fn get(&self, iri: &str) -> (r: Option<String>)
        ensures
            match lookup(self.view_entries(), iri@) {
                Some(t) => r matches Some(s) && s@ == t,
                None => r is None,
            },
    {
        lookup_in(&self.entries, iri)
    }
}

/// The first value stored under `k` in `entries`.
fn lookup_in(entries: &Vec<(String, String)>, k: &str) -> (r: Option<String>)
    ensures
        match lookup(entries_view(entries@), k@) {
            Some(t) => r matches Some(s) && s@ == t,
            None => r is None,
        },
{
    let ghost es = entries_view(entries@);
    let mut i: usize = 0;
    assert(es.skip(0) =~= es);
    while i < entries.len()
        invariant
            es == entries_view(entries@),
            i <= es.len(),
            lookup(es, k@) == lookup(es.skip(i as int), k@),
        decreases es.len() - i,
    {
        assert(es.skip(i as int).drop_first() =~= es.skip(i + 1));
        if eq_str(entries[i].0.as_str(), k) {
            return Some(entries[i].1.clone());
        }
        i += 1;
    }
    None
}

/// Whether the annotation property is a label.
pub open spec fn is_label_prop(ps: Seq<(Seq<char>, Seq<char>)>, prop: Seq<char>) -> bool {
    prop == "rdfs:label"@ || {
        let x = expand_from(ps, prop, 0);
        let suffix = "rdf-schema#label"@;
        x.len() >= suffix.len() && x.skip(x.len() - suffix.len()) == suffix
    }
}

/// The `(subject, label)` pairs of the annotations of one frame, in order.
pub open spec fn frame_labels(ps: Seq<(Seq<char>, Seq<char>)>, subject: Seq<char>, anns: Seq<(Seq<char>, Seq<char>)>) -> Seq<(Seq<char>, Seq<char>)>
    decreases anns.len(),
{
    if anns.len() == 0 {
        Seq::empty()
    } else {
        let rest = frame_labels(ps, subject, anns.drop_last());
        if is_label_prop(ps, anns.last().0) { rest.push((expand_from(ps, subject, 0), anns.last().1)) } else { rest }
    }
}

/// The label pairs of the first `f` frames, in document order.
pub open spec fn labels_upto(ps: Seq<(Seq<char>, Seq<char>)>, frames: Seq<Frame>, f: int) -> Seq<(Seq<char>, Seq<char>)>
    decreases f,
{
    if f <= 0 || f > frames.len() {
        Seq::empty()
    } else {
        labels_upto(ps, frames, f - 1) + frame_labels(ps, frames[f - 1].subject@, entries_view(frames[f - 1].annotations@))
    }
}

/// The label pairs with only the first pair of each subject kept.
pub open spec fn first_labels(xs: Seq<(Seq<char>, Seq<char>)>) -> Seq<(Seq<char>, Seq<char>)>
    decreases xs.len(),
{
    if xs.len() == 0 {
        Seq::empty()
    } else {
        let es = first_labels(xs.drop_last());
        if lookup(es, xs.last().0) is Some { es } else { es.push(xs.last()) }
    }
}

/// The vocabulary of a document: each subject with its first label.
pub open spec fn vocab_spec(ps: Seq<(Seq<char>, Seq<char>)>, frames: Seq<Frame>) -> Seq<(Seq<char>, Seq<char>)> {
    first_labels(labels_upto(ps, frames, frames.len() as int))
}

/// Looking up past a prefix that lacks the key.
proof fn lemma_lookup_append(a: Seq<(Seq<char>, Seq<char>)>, b: Seq<(Seq<char>, Seq<char>)>, k: Seq<char>)
    ensures
        lookup(a + b, k) == match lookup(a, k) { Some(t) => Some(t), None => lookup(b, k) },
    decreases a.len(),
{
    if a.len() > 0 {
        assert((a + b).drop_first() =~= a.drop_first() + b);
        lemma_lookup_append(a.drop_first(), b, k);
    } else {
        assert(a + b =~= b);
    }
}

/// Whether `x` ends with `suffix`.
pub(crate) fn ends_with(x: &String, suffix: &str) -> (r: bool)
    ensures
        r == (x@.len() >= suffix@.len() && x@.skip(x@.len() - suffix@.len()) == suffix@),
{
    let xv = chars_of(x.as_str());
    let sv = chars_of(suffix);
    let xn = xv.len();
    if sv.len() > xv.len() {
        return false;
    }
    let off = xv.len() - sv.len();
    let mut i: usize = 0;
    while i < sv.len()
        invariant
            xv@ == x@,
            sv@ == suffix@,
            off == xv@.len() - sv@.len(),
            xn == xv@.len(),
            i <= sv@.len(),
            forall|j: int| 0 <= j < i ==> xv@[off + j] == sv@[j],
        decreases sv@.len() - i,
    {
        if xv[off + i] != sv[i] {
            assert(x@.skip(off as int)[i as int] != suffix@[i as int]);
            return false;
        }
        i += 1;
    }
    assert(x@.skip(off as int) =~= suffix@);
    true
}

/// The label-first vocabulary of a document: each subject's first `rdfs:label` (or any
/// property expanding to `…rdf-schema#label`).
pub fn vocab_of(doc: &Document) -> (v: Vocab)
    ensures
        v.view_entries() == vocab_spec(prefixes_view(doc.prefixes@), doc.frames@),
        forall|k: Seq<char>| #[trigger] lookup(v.view_entries(), k)
            == lookup(labels_upto(prefixes_view(doc.prefixes@), doc.frames@, doc.frames@.len() as int), k),
{
    let ghost ps = prefixes_view(doc.prefixes@);
    let mut entries: Vec<(String, String)> = Vec::new();
    let mut f: usize = 0;
    while f < doc.frames.len()
        invariant
            ps == prefixes_view(doc.prefixes@),
            f <= doc.frames@.len(),
            forall|k: Seq<char>| #[trigger] lookup(entries_view(entries@), k) == lookup(labels_upto(ps, doc.frames@, f as int), k),
            entries_view(entries@) == first_labels(labels_upto(ps, doc.frames@, f as int)),
        decreases doc.frames@.len() - f,
    {
        let frame = &doc.frames[f];
        let subject = doc.expand(frame.subject.as_str());
        let ghost done_frames = labels_upto(ps, doc.frames@, f as int);
        let mut a: usize = 0;
        while a < frame.annotations.len()
            invariant
                ps == prefixes_view(doc.prefixes@),
                f < doc.frames@.len(),
                *frame == doc.frames@[f as int],
                subject@ == expand_from(ps, frame.subject@, 0),
                done_frames == labels_upto(ps, doc.frames@, f as int),
                a <= frame.annotations@.len(),
                forall|k: Seq<char>| #[trigger] lookup(entries_view(entries@), k) == lookup(done_frames
                    + frame_labels(ps, frame.subject@, entries_view(frame.annotations@).take(a as int)), k),
                entries_view(entries@) == first_labels(done_frames
                    + frame_labels(ps, frame.subject@, entries_view(frame.annotations@).take(a as int))),
            decreases frame.annotations@.len() - a,
        {
            let (prop, text) = &frame.annotations[a];
            let ghost anns = entries_view(frame.annotations@);
            assert(anns.take(a + 1).drop_last() =~= anns.take(a as int));
            assert(anns.take(a + 1).last() == (prop@, text@));
            let label = eq_str(prop.as_str(), "rdfs:label") || ends_with(&doc.expand(prop.as_str()), "rdf-schema#label");
            if label {
                let ghost before = entries_view(entries@);
                let ghost pre = done_frames + frame_labels(ps, frame.subject@, anns.take(a as int));
                let present = lookup_in(&entries, subject.as_str()).is_some();
                if !present {
                    entries.push((subject.clone(), text.clone()));
                }
                proof {
                    let pair = (subject@, text@);
                    assert(done_frames + frame_labels(ps, frame.subject@, anns.take(a + 1)) =~= pre.push(pair));
                    assert forall|k: Seq<char>| #[trigger] lookup(entries_view(entries@), k) == lookup(pre.push(pair), k) by {
                        lemma_lookup_append(pre, seq![pair], k);
                        assert(seq![pair].drop_first() =~= Seq::<(Seq<char>, Seq<char>)>::empty());
                        assert(lookup(Seq::<(Seq<char>, Seq<char>)>::empty(), k) is None);
                        assert(lookup(seq![pair], k) == if pair.0 == k { Some(pair.1) } else { None::<Seq<char>> });
                        assert(pre + seq![pair] =~= pre.push(pair));
                        if !present {
                            assert(entries_view(entries@) =~= before + seq![pair]);
                            lemma_lookup_append(before, seq![pair], k);
                        }
                    }
                    assert(pre.push(pair).drop_last() =~= pre);
                    assert(entries_view(entries@) =~= first_labels(pre.push(pair)));
                }
            } else {
                proof {
                    assert(frame_labels(ps, frame.subject@, anns.take(a + 1)) =~= frame_labels(ps, frame.subject@, anns.take(a as int)));
                }
            }
            a += 1;
        }
        proof {
            assert(entries_view(frame.annotations@).take(frame.annotations@.len() as int) =~= entries_view(frame.annotations@));
        }
        f += 1;
    }
    proof { assert(entries_view(entries@) == first_labels(labels_upto(ps, doc.frames@, doc.frames@.len() as int))); }
    Vocab { entries }
}

/// A character that separates a local name from its namespace.
pub open spec fn is_sep(c: char) -> bool {
    c == '#' || c == '/'
}

/// The index of the last separator before `j`, or -1.
pub open spec fn last_sep(s: Seq<char>, j: int) -> int
    decreases j,
{
    if j <= 0 || j > s.len() {
        -1
    } else if is_sep(s[j - 1]) {
        j - 1
    } else {
        last_sep(s, j - 1)
    }
}

/// The local name of an IRI: what follows its last `#` or `/`.
pub open spec fn local_spec(s: Seq<char>) -> Seq<char> {
    s.skip(last_sep(s, s.len() as int) + 1)
}

proof fn lemma_last_sep(s: Seq<char>, j: int)
    requires
        0 <= j <= s.len(),
    ensures
        -1 <= last_sep(s, j) < j,
    decreases j,
{
    if j > 0 && !is_sep(s[j - 1]) {
        lemma_last_sep(s, j - 1);
    }
}

/// The local name of an IRI.
pub(crate) fn local(v: &Vec<char>) -> (r: usize)
    ensures
        r <= v@.len(),
        v@.skip(r as int) == local_spec(v@),
{
    let mut j = v.len();
    proof { lemma_last_sep(v@, v@.len() as int); }
    while j > 0 && v[j - 1] != '#' && v[j - 1] != '/'
        invariant
            j <= v@.len(),
            last_sep(v@, v@.len() as int) == last_sep(v@, j as int),
        decreases j,
    {
        j -= 1;
    }
    j
}

/// The characters left after dropping the leading ASCII letters.
pub open spec fn drop_alpha(s: Seq<char>) -> Seq<char>
    decreases s.len(),
{
    if s.len() > 0 && ascii_alpha(s[0]) { drop_alpha(s.drop_first()) } else { s }
}

/// An opaque identifier that must never surface as prose: digit-leading (`0000031`), or
/// letters, underscores, then only digits (`BFO_0000031`).
pub open spec fn opaque_spec(l: Seq<char>) -> bool {
    if l.len() > 0 && ascii_digit(l[0]) {
        true
    } else {
        let rest = crate::text::drop_leading(drop_alpha(l), '_');
        rest.len() > 0 && forall|i: int| 0 <= i < rest.len() ==> ascii_digit(#[trigger] rest[i])
    }
}

fn is_opaque(v: &Vec<char>, a: usize) -> (r: bool)
    requires
        a <= v@.len(),
    ensures
        r == opaque_spec(v@.skip(a as int)),
{
    let ghost l = v@.skip(a as int);
    if a < v.len() && '0' <= v[a] && v[a] <= '9' {
        return true;
    }
    assert(!(l.len() > 0 && ascii_digit(l[0]))) by {
        if l.len() > 0 { assert(l[0] == v@[a as int]); }
    }
    let mut i = a;
    while i < v.len() && (('a' <= v[i] && v[i] <= 'z') || ('A' <= v[i] && v[i] <= 'Z'))
        invariant
            a <= i <= v@.len(),
            l == v@.skip(a as int),
            !(l.len() > 0 && ascii_digit(l[0])),
            drop_alpha(l) == drop_alpha(v@.skip(i as int)),
        decreases v@.len() - i,
    {
        assert(v@.skip(i as int).drop_first() =~= v@.skip(i + 1));
        i += 1;
    }
    assert(drop_alpha(v@.skip(i as int)) == v@.skip(i as int));
    while i < v.len() && v[i] == '_'
        invariant
            a <= i <= v@.len(),
            l == v@.skip(a as int),
            !(l.len() > 0 && ascii_digit(l[0])),
            crate::text::drop_leading(drop_alpha(l), '_') == crate::text::drop_leading(v@.skip(i as int), '_'),
        decreases v@.len() - i,
    {
        assert(v@.skip(i as int).drop_first() =~= v@.skip(i + 1));
        i += 1;
    }
    let ghost rest = v@.skip(i as int);
    assert(crate::text::drop_leading(rest, '_') == rest);
    if i >= v.len() {
        return false;
    }
    let mut k = i;
    while k < v.len()
        invariant
            i <= k <= v@.len(),
            rest == v@.skip(i as int),
            l == v@.skip(a as int),
            crate::text::drop_leading(drop_alpha(l), '_') == rest,
            !(l.len() > 0 && ascii_digit(l[0])),
            forall|j: int| 0 <= j < k - i ==> ascii_digit(#[trigger] rest[j]),
        decreases v@.len() - k,
    {
        if !('0' <= v[k] && v[k] <= '9') {
            assert(!ascii_digit(rest[k - i]));
            return false;
        }
        k += 1;
    }
    true
}

/// An ASCII capital letter.
pub open spec fn ascii_upper(c: char) -> bool {
    'A' <= c && c <= 'Z'
}

/// The lowercase of an ASCII capital.
pub open spec fn lower_of(c: char) -> char {
    ((c as u8) + 32) as u8 as char
}

/// The characters `words` produces for `s[i..]`, after a lowercase letter when `prev_lower`.
pub open spec fn words_from(s: Seq<char>, i: int, prev_lower: bool) -> Seq<char>
    decreases s.len() - i,
{
    if i < 0 || i >= s.len() {
        Seq::empty()
    } else if s[i] == '_' || s[i] == '-' {
        seq![' '] + words_from(s, i + 1, false)
    } else if ascii_upper(s[i]) {
        (if prev_lower { seq![' '] } else { Seq::empty() }) + seq![lower_of(s[i])] + words_from(s, i + 1, false)
    } else {
        seq![s[i]] + words_from(s, i + 1, true)
    }
}

/// camelCase / snake_case local name as lowercase words ("inheresIn" → "inheres in").
pub open spec fn words_spec(s: Seq<char>) -> Seq<char> {
    trim(words_from(s, 0, false))
}

fn words_of(v: &Vec<char>, a: usize) -> (r: String)
    requires
        a <= v@.len(),
    ensures
        r@ == words_spec(v@.skip(a as int)),
{
    let ghost s = v@.skip(a as int);
    let mut out: Vec<char> = Vec::new();
    let mut prev_lower = false;
    let mut i = a;
    proof { assert(out@ + words_from(s, 0, false) =~= words_from(s, 0, false)); }
    while i < v.len()
        invariant
            a <= i <= v@.len(),
            s == v@.skip(a as int),
            out@ + words_from(s, i - a, prev_lower) == words_from(s, 0, false),
        decreases v@.len() - i,
    {
        let c = v[i];
        let ghost o0 = out@;
        assert(s[i - a] == c);
        if c == '_' || c == '-' {
            out.push(' ');
            prev_lower = false;
            assert(o0 + (seq![' '] + words_from(s, i - a + 1, false)) =~= out@ + words_from(s, i - a + 1, false));
        } else if 'A' <= c && c <= 'Z' {
            let ghost pl = prev_lower;
            if prev_lower {
                out.push(' ');
            }
            out.push(((c as u8) + 32) as char);
            prev_lower = false;
            assert(o0 + ((if pl { seq![' '] } else { Seq::empty() }) + seq![lower_of(c)] + words_from(s, i - a + 1, false))
                =~= out@ + words_from(s, i - a + 1, false));
        } else {
            out.push(c);
            prev_lower = true;
            assert(o0 + (seq![c] + words_from(s, i - a + 1, true)) =~= out@ + words_from(s, i - a + 1, true));
        }
        i += 1;
    }
    assert(out@ + words_from(s, i - a, prev_lower) =~= out@);
    let (x, y) = trim_range(&out, 0, out.len());
    assert(out@.subrange(0, out@.len() as int) =~= out@);
    string_of(&out, x, y)
}

/// camelCase / snake_case local name → lowercase words ("inheresIn" → "inheres in").
pub fn words(s: &str) -> (r: String)
    ensures
        r@ == words_spec(s@),
{
    let v = chars_of(s);
    assert(v@.skip(0) =~= v@);
    words_of(&v, 0)
}

/// Display name: label first, else the local name as words; `None` for an unlabeled
/// opaque local name.
pub open spec fn name_spec(es: Seq<(Seq<char>, Seq<char>)>, iri: Seq<char>) -> Option<Seq<char>> {
    match lookup(es, iri) {
        Some(l) => Some(l),
        None => if opaque_spec(local_spec(iri)) { None } else { Some(words_spec(local_spec(iri))) },
    }
}

/// Display name for an entity: label first, else its local name as words; `None` for an
/// unlabeled opaque local (the caller drops it rather than verbalising a number).
pub fn name(vocab: &Vocab, iri: &str) -> (r: Option<String>)
    ensures
        match name_spec(vocab.view_entries(), iri@) {
            Some(t) => r matches Some(s) && s@ == t,
            None => r is None,
        },
{
    match vocab.get(iri) {
        Some(l) => Some(l),
        None => {
            let v = chars_of(iri);
            let a = local(&v);
            if is_opaque(&v, a) {
                None
            } else {
                Some(words_of(&v, a))
            }
        },
    }
}

/// Property verb phrase: label first, else words; "relates via <local>" for an opaque one.
pub open spec fn verb_spec(es: Seq<(Seq<char>, Seq<char>)>, iri: Seq<char>) -> Seq<char> {
    match name_spec(es, iri) {
        Some(n) => n,
        None => "relates via "@ + local_spec(iri),
    }
}

/// Property verb phrase: label first, else words ("records_patient_encounter" →
/// "records patient encounter").
pub fn verb(vocab: &Vocab, iri: &str) -> (r: String)
    ensures
        r@ == verb_spec(vocab.view_entries(), iri@),
{
    match name(vocab, iri) {
        Some(n) => n,
        None => {
            let v = chars_of(iri);
            let a = local(&v);
            let l = string_of(&v, a, v.len());
            cat(String::from_str("relates via "), l.as_str())
        },
    }
}

/// A quantifier, with its true bound.
#[derive(Debug, Clone, Copy, PartialEq, Eq)]
pub enum Quant {
    /// `some`: at least one.
    Exists,
    Only,
    Exactly(u32),
    Min(u32),
    Max(u32),
}

/// The phrase of a quantifier.
pub open spec fn count_spec(q: Quant) -> Seq<char> {
    match q {
        Quant::Exists => "at least one"@,
        Quant::Only => "only"@,
        Quant::Exactly(n) => if n == 1 { "exactly one"@ } else { "exactly "@ + decimal(n as nat) },
        Quant::Min(n) => "at least "@ + decimal(n as nat),
        Quant::Max(n) => "at most "@ + decimal(n as nat),
    }
}

/// The phrase of a quantifier ("exactly one", "at least 2", …).
pub fn count(q: Quant) -> (r: String)
    ensures
        r@ == count_spec(q),
{
    match q {
        Quant::Exists => String::from_str("at least one"),
        Quant::Only => String::from_str("only"),
        Quant::Exactly(n) => if n == 1 {
            String::from_str("exactly one")
        } else {
            cat(String::from_str("exactly "), fmt_u64(n as u64).as_str())
        },
        Quant::Min(n) => cat(String::from_str("at least "), fmt_u64(n as u64).as_str()),
        Quant::Max(n) => cat(String::from_str("at most "), fmt_u64(n as u64).as_str()),
    }
}


/// A name, or the local name of `tok` as words when it has none.
pub open spec fn name_or_words_spec(es: Seq<(Seq<char>, Seq<char>)>, ps: Seq<(Seq<char>, Seq<char>)>, tok: Seq<char>) -> Seq<char> {
    match name_spec(es, expand_from(ps, tok, 0)) {
        Some(n) => n,
        None => words_spec(local_spec(tok)),
    }
}

/// A name, or the local name of `tok` as words when it has none.
fn name_or_words(vocab: &Vocab, doc: &Document, tok: &String) -> (r: String)
    ensures
        r@ == name_or_words_spec(vocab.view_entries(), prefixes_view(doc.prefixes@), tok@),
{
    match name(vocab, doc.expand(tok.as_str()).as_str()) {
        Some(n) => n,
        None => {
            let v = chars_of(tok.as_str());
            let a = local(&v);
            words_of(&v, a)
        },
    }
}

/// The strings joined by `sep`.
fn join(v: &Vec<String>, sep: &str) -> (r: String)
    ensures
        r@ == join_spec(crate::fragment::names_view(v@), sep@),
{
    crate::manchester::lower::join(v, sep)
}

/// Whether two quantifiers are the same.
pub fn quant_eq(a: Quant, b: Quant) -> (r: bool)
    ensures
        r == (a == b),
{
    match (a, b) {
        (Quant::Exists, Quant::Exists) => true,
        (Quant::Only, Quant::Only) => true,
        (Quant::Exactly(x), Quant::Exactly(y)) => x == y,
        (Quant::Min(x), Quant::Min(y)) => x == y,
        (Quant::Max(x), Quant::Max(y)) => x == y,
        _ => false,
    }
}

/// One part of a conjunction or disjunction, verbalised.
enum Piece {
    /// A named class (its display name, if it has one).
    Atom(Option<String>),
    /// A restriction: verb phrase, quantifier, filler.
    Restr(String, Quant, String),
    /// Anything else.
    Other(String),
}

/// A part of a conjunction or disjunction, viewed.
pub enum PieceV {
    Atom(Option<Seq<char>>),
    Restr(Seq<char>, Quant, Seq<char>),
    Other(Seq<char>),
}

impl View for Piece {
    type V = PieceV;

    closed spec fn view(&self) -> PieceV {
        match self {
            Piece::Atom(a) => PieceV::Atom(match a { Some(x) => Some(x@), None => None }),
            Piece::Restr(p, q, f) => PieceV::Restr(p@, *q, f@),
            Piece::Other(o) => PieceV::Other(o@),
        }
    }
}

/// The pieces, viewed.
spec fn pieces_view(v: Seq<Piece>) -> Seq<PieceV> {
    v.map_values(|p: Piece| p@)
}

/// `something that <p> <count> ` (the filler follows).
pub open spec fn restriction_head_spec(es: Seq<(Seq<char>, Seq<char>)>, ps: Seq<(Seq<char>, Seq<char>)>, p: Seq<char>, q: Quant) -> Seq<char> {
    "something that "@ + verb_spec(es, expand_from(ps, p, 0)) + " "@ + count_spec(q) + " "@
}

/// `something that <p> <count> ` (the filler follows).
fn restriction_head(vocab: &Vocab, doc: &Document, property: &String, q: Quant) -> (r: String)
    ensures
        r@ == restriction_head_spec(vocab.view_entries(), prefixes_view(doc.prefixes@), property@, q),
{
    let p = verb(vocab, doc.expand(property.as_str()).as_str());
    let r = cat(cat(cat(cat(String::from_str("something that "), p.as_str()), " "), count(q).as_str()), " ");
    assert(r@ =~= restriction_head_spec(vocab.view_entries(), prefixes_view(doc.prefixes@), property@, q));
    r
}

/// A class expression in words (`es` the display names, `ps` the prefixes): a named
/// class by its name ("something" for an unnamed one), a restriction as "something that
/// <verb> <count> <filler>", a conjunction or disjunction as its merged clauses.
pub open spec fn verbal(es: Seq<(Seq<char>, Seq<char>)>, ps: Seq<(Seq<char>, Seq<char>)>, e: ExprV) -> Seq<char>
    decreases e, 1int,
{
    match e {
        ExprV::Named(n) => match name_spec(es, expand_from(ps, n, 0)) {
            Some(x) => x,
            None => "something"@,
        },
        ExprV::Not(inner) => "not "@ + verbal(es, ps, *inner),
        ExprV::And(parts) => junction_spec(pieces_spec(es, ps, parts), " and "@),
        ExprV::Or(parts) => junction_spec(pieces_spec(es, ps, parts), " or "@),
        ExprV::OneOf(inds) => "one of "@ + join_spec(inds.map_values(|t: Seq<char>| name_or_words_spec(es, ps, t)), ", "@),
        ExprV::Exists(p, f) => restriction_head_spec(es, ps, p, Quant::Exists) + verbal(es, ps, *f),
        ExprV::Only(p, f) => restriction_head_spec(es, ps, p, Quant::Only) + verbal(es, ps, *f),
        ExprV::Exactly(p, n, f) => restriction_head_spec(es, ps, p, Quant::Exactly(n)) + match f {
            Some(g) => verbal(es, ps, *g),
            None => "thing"@,
        },
        ExprV::Min(p, n, f) => restriction_head_spec(es, ps, p, Quant::Min(n)) + match f {
            Some(g) => verbal(es, ps, *g),
            None => "thing"@,
        },
        ExprV::Max(p, n, f) => restriction_head_spec(es, ps, p, Quant::Max(n)) + match f {
            Some(g) => verbal(es, ps, *g),
            None => "thing"@,
        },
        ExprV::HasValue(p, i) => "something that "@ + verb_spec(es, expand_from(ps, p, 0)) + " "@ + name_or_words_spec(es, ps, i),
    }
}

/// A restriction reads with its own quantifier: `p only f` and `p some f` share the words
/// `something that <verb of p>`, then the first says `only` and the second `at least one`
/// before the filler's words.
pub proof fn lemma_only_reads_only(es: Seq<(Seq<char>, Seq<char>)>, ps: Seq<(Seq<char>, Seq<char>)>, p: Seq<char>, f: ExprV)
    ensures
        exists|v: Seq<char>| #![trigger "something that "@ + v]
            verbal(es, ps, ExprV::Only(p, Box::new(f))) == "something that "@ + v + " only "@ + verbal(es, ps, f)
            && verbal(es, ps, ExprV::Exists(p, Box::new(f))) == "something that "@ + v + " at least one "@ + verbal(es, ps, f),
{
    let v = verb_spec(es, expand_from(ps, p, 0));
    reveal_strlit(" ");
    reveal_strlit("only");
    reveal_strlit(" only ");
    reveal_strlit("at least one");
    reveal_strlit(" at least one ");
    assert(verbal(es, ps, ExprV::Only(p, Box::new(f))) == restriction_head_spec(es, ps, p, Quant::Only) + verbal(es, ps, f));
    assert(verbal(es, ps, ExprV::Exists(p, Box::new(f))) == restriction_head_spec(es, ps, p, Quant::Exists) + verbal(es, ps, f));
    assert(" "@ + "only"@ + " "@ =~= " only "@);
    assert(" "@ + "at least one"@ + " "@ =~= " at least one "@);
    assert(verbal(es, ps, ExprV::Only(p, Box::new(f))) =~= "something that "@ + v + " only "@ + verbal(es, ps, f));
    assert(verbal(es, ps, ExprV::Exists(p, Box::new(f))) =~= "something that "@ + v + " at least one "@ + verbal(es, ps, f));
    assert(("something that "@ + v) == "something that "@ + v);
}

/// A bounded restriction reads with its own bound: after the shared words
/// `something that <verb of p>`, `p min n g` says `at least n`, `p max n g` `at most n`,
/// `p exactly n g` `exactly one` or `exactly n`, then the filler's words (`thing` without a
/// filler).
#[verifier::rlimit(60)]
pub proof fn lemma_bounds_read_their_bound(es: Seq<(Seq<char>, Seq<char>)>, ps: Seq<(Seq<char>, Seq<char>)>, p: Seq<char>, n: u32,
    f: Option<Box<ExprV>>)
    ensures
        exists|v: Seq<char>| #![trigger "something that "@ + v]
            {
                let tail = match f { Some(g) => verbal(es, ps, *g), None => "thing"@ };
                &&& verbal(es, ps, ExprV::Min(p, n, f)) == "something that "@ + v + " at least "@ + decimal(n as nat) + " "@ + tail
                &&& verbal(es, ps, ExprV::Max(p, n, f)) == "something that "@ + v + " at most "@ + decimal(n as nat) + " "@ + tail
                &&& verbal(es, ps, ExprV::Exactly(p, n, f)) == if n == 1 {
                    "something that "@ + v + " exactly one "@ + tail
                } else {
                    "something that "@ + v + " exactly "@ + decimal(n as nat) + " "@ + tail
                }
            },
{
    let v = verb_spec(es, expand_from(ps, p, 0));
    let tail = match f { Some(g) => verbal(es, ps, *g), None => "thing"@ };
    reveal_strlit(" ");
    reveal_strlit("at least ");
    reveal_strlit(" at least ");
    reveal_strlit("at most ");
    reveal_strlit(" at most ");
    reveal_strlit("exactly one");
    reveal_strlit(" exactly one ");
    reveal_strlit("exactly ");
    reveal_strlit(" exactly ");
    let d = decimal(n as nat);
    assert(verbal(es, ps, ExprV::Min(p, n, f)) == restriction_head_spec(es, ps, p, Quant::Min(n)) + tail);
    assert(verbal(es, ps, ExprV::Max(p, n, f)) == restriction_head_spec(es, ps, p, Quant::Max(n)) + tail);
    assert(verbal(es, ps, ExprV::Exactly(p, n, f)) == restriction_head_spec(es, ps, p, Quant::Exactly(n)) + tail);
    assert(verbal(es, ps, ExprV::Min(p, n, f)) =~= "something that "@ + v + " at least "@ + d + " "@ + tail);
    assert(verbal(es, ps, ExprV::Max(p, n, f)) =~= "something that "@ + v + " at most "@ + d + " "@ + tail);
    if n == 1 {
        assert(verbal(es, ps, ExprV::Exactly(p, n, f)) =~= "something that "@ + v + " exactly one "@ + tail);
    } else {
        assert(verbal(es, ps, ExprV::Exactly(p, n, f)) =~= "something that "@ + v + " exactly "@ + d + " "@ + tail);
    }
    assert(("something that "@ + v) == "something that "@ + v);
}

/// The piece a part of a conjunction or disjunction gives (a bounded restriction without
/// a filler gives none).
pub open spec fn piece_spec(es: Seq<(Seq<char>, Seq<char>)>, ps: Seq<(Seq<char>, Seq<char>)>, e: ExprV) -> Seq<PieceV>
    decreases e, 2int,
{
    match e {
        ExprV::Named(n) => seq![PieceV::Atom(name_spec(es, expand_from(ps, n, 0)))],
        ExprV::Exists(p, f) => seq![PieceV::Restr(verb_spec(es, expand_from(ps, p, 0)), Quant::Exists, verbal(es, ps, *f))],
        ExprV::Only(p, f) => seq![PieceV::Restr(verb_spec(es, expand_from(ps, p, 0)), Quant::Only, verbal(es, ps, *f))],
        ExprV::Exactly(p, n, f) => match f {
            Some(g) => seq![PieceV::Restr(verb_spec(es, expand_from(ps, p, 0)), Quant::Exactly(n), verbal(es, ps, *g))],
            None => Seq::empty(),
        },
        ExprV::Min(p, n, f) => match f {
            Some(g) => seq![PieceV::Restr(verb_spec(es, expand_from(ps, p, 0)), Quant::Min(n), verbal(es, ps, *g))],
            None => Seq::empty(),
        },
        ExprV::Max(p, n, f) => match f {
            Some(g) => seq![PieceV::Restr(verb_spec(es, expand_from(ps, p, 0)), Quant::Max(n), verbal(es, ps, *g))],
            None => Seq::empty(),
        },
        _ => seq![PieceV::Other(verbal(es, ps, e))],
    }
}

/// The pieces of the parts, in order.
pub open spec fn pieces_spec(es: Seq<(Seq<char>, Seq<char>)>, ps: Seq<(Seq<char>, Seq<char>)>, parts: Seq<ExprV>) -> Seq<PieceV>
    decreases parts, 0int,
{
    if parts.len() == 0 {
        Seq::empty()
    } else {
        pieces_spec(es, ps, parts.subrange(0, parts.len() - 1)) + piece_spec(es, ps, parts[parts.len() - 1])
    }
}

/// `m` with filler `f` added to the clause of `(p, q)` (" and "-joined), or a new clause.
pub open spec fn merge_spec(m: Seq<(Seq<char>, Quant, Seq<char>)>, p: Seq<char>, q: Quant, f: Seq<char>) -> Seq<(Seq<char>, Quant, Seq<char>)>
    decreases m.len(),
{
    if m.len() == 0 {
        seq![(p, q, f)]
    } else if m[0].0 == p && m[0].1 == q {
        m.update(0, (p, q, m[0].2 + " and "@ + f))
    } else {
        seq![m[0]] + merge_spec(m.drop_first(), p, q, f)
    }
}

/// The named atoms, the merged restriction clauses and the other parts of the pieces.
pub open spec fn sort_pieces(pcs: Seq<PieceV>) -> (Seq<Seq<char>>, Seq<(Seq<char>, Quant, Seq<char>)>, Seq<Seq<char>>)
    decreases pcs.len(),
{
    if pcs.len() == 0 {
        (Seq::empty(), Seq::empty(), Seq::empty())
    } else {
        let st = sort_pieces(pcs.drop_last());
        match pcs.last() {
            PieceV::Atom(Some(n)) => (st.0.push(n), st.1, st.2),
            PieceV::Atom(None) => st,
            PieceV::Restr(p, q, f) => (st.0, merge_spec(st.1, p, q, f), st.2),
            PieceV::Other(o) => (st.0, st.1, st.2.push(o)),
        }
    }
}

/// A merged restriction clause.
pub open spec fn clause_text(c: (Seq<char>, Quant, Seq<char>)) -> Seq<char> {
    "something that "@ + c.0 + " "@ + count_spec(c.1) + " "@ + c.2
}

/// The clauses of a conjunction or disjunction joined by `conj`: the named atoms first
/// (joined), then one clause per merged restriction, then the rest; "something" when empty.
pub open spec fn junction_spec(pcs: Seq<PieceV>, conj: Seq<char>) -> Seq<char> {
    let st = sort_pieces(pcs);
    let clauses = (if st.0.len() > 0 { seq![join_spec(st.0, conj)] } else { Seq::empty() })
        + st.1.map_values(|c: (Seq<char>, Quant, Seq<char>)| clause_text(c)) + st.2;
    if clauses.len() == 0 { "something"@ } else { join_spec(clauses, conj) }
}

/// A class expression in words; the same-property restrictions of a conjunction or
/// disjunction merge into one clause.
pub fn verbalise_expr(vocab: &Vocab, doc: &Document, e: &Expr) -> (r: String)
    ensures
        r@ == verbal(vocab.view_entries(), prefixes_view(doc.prefixes@), ev(*e)),
    decreases e,
{
    let ghost es = vocab.view_entries();
    let ghost ps = prefixes_view(doc.prefixes@);
    match e {
        Expr::Named(n) => {
            let iri = doc.expand(n.as_str());
            match name(vocab, iri.as_str()) {
                Some(x) => x,
                None => String::from_str("something"),
            }
        },
        Expr::Not(inner) => cat(String::from_str("not "), verbalise_expr(vocab, doc, inner).as_str()),
        Expr::And(parts) => {
            let pieces = pieces_of(vocab, doc, e, parts);
            junction(&pieces, " and ")
        },
        Expr::Or(parts) => {
            let pieces = pieces_of(vocab, doc, e, parts);
            junction(&pieces, " or ")
        },
        Expr::OneOf(inds) => {
            let ghost iv = crate::fragment::names_view(inds@);
            let mut names: Vec<String> = Vec::new();
            let mut i: usize = 0;
            while i < inds.len()
                invariant
                    i <= inds@.len(),
                    iv == crate::fragment::names_view(inds@),
                    es == vocab.view_entries(),
                    ps == prefixes_view(doc.prefixes@),
                    crate::fragment::names_view(names@) == iv.take(i as int).map_values(|t: Seq<char>| name_or_words_spec(es, ps, t)),
                decreases inds@.len() - i,
            {
                let ghost before = crate::fragment::names_view(names@);
                names.push(name_or_words(vocab, doc, &inds[i]));
                proof {
                    assert(crate::fragment::names_view(names@) =~= before.push(name_or_words_spec(es, ps, iv[i as int])));
                    assert(iv.take(i + 1).map_values(|t: Seq<char>| name_or_words_spec(es, ps, t))
                        =~= iv.take(i as int).map_values(|t: Seq<char>| name_or_words_spec(es, ps, t)).push(name_or_words_spec(es, ps, iv[i as int])));
                }
                i += 1;
            }
            proof { assert(iv.take(iv.len() as int) =~= iv); }
            cat(String::from_str("one of "), join(&names, ", ").as_str())
        },
        Expr::Exists { property, filler } => {
            cat(restriction_head(vocab, doc, property, Quant::Exists), verbalise_expr(vocab, doc, filler).as_str())
        },
        Expr::Only { property, filler } => {
            cat(restriction_head(vocab, doc, property, Quant::Only), verbalise_expr(vocab, doc, filler).as_str())
        },
        Expr::Exactly { property, n, filler } => {
            let h = restriction_head(vocab, doc, property, Quant::Exactly(*n));
            match filler {
                Some(f) => cat(h, verbalise_expr(vocab, doc, f).as_str()),
                None => cat(h, "thing"),
            }
        },
        Expr::Min { property, n, filler } => {
            let h = restriction_head(vocab, doc, property, Quant::Min(*n));
            match filler {
                Some(f) => cat(h, verbalise_expr(vocab, doc, f).as_str()),
                None => cat(h, "thing"),
            }
        },
        Expr::Max { property, n, filler } => {
            let h = restriction_head(vocab, doc, property, Quant::Max(*n));
            match filler {
                Some(f) => cat(h, verbalise_expr(vocab, doc, f).as_str()),
                None => cat(h, "thing"),
            }
        },
        Expr::HasValue { property, individual } => {
            let p = verb(vocab, doc.expand(property.as_str()).as_str());
            let i = name_or_words(vocab, doc, individual);
            let r = cat(cat(cat(String::from_str("something that "), p.as_str()), " "), i.as_str());
            assert(r@ =~= verbal(es, ps, ev(*e)));
            r
        },
    }
}

/// The parts of the conjunction or disjunction `e`, each verbalised.
fn pieces_of(vocab: &Vocab, doc: &Document, e: &Expr, parts: &Vec<Expr>) -> (r: Vec<Piece>)
    requires
        *e == Expr::And(*parts) || *e == Expr::Or(*parts),
    ensures
        pieces_view(r@) == pieces_spec(vocab.view_entries(), prefixes_view(doc.prefixes@), ev_all(*parts)),
    decreases e, 0nat,
{
    let ghost es = vocab.view_entries();
    let ghost ps = prefixes_view(doc.prefixes@);
    let ghost xs = ev_all(*parts);
    let mut pieces: Vec<Piece> = Vec::new();
    proof { assert(pieces_view(pieces@) =~= pieces_spec(es, ps, xs.subrange(0, 0))); }
    let mut i: usize = 0;
    while i < parts.len()
        invariant
            *e == Expr::And(*parts) || *e == Expr::Or(*parts),
            i <= parts@.len(),
            es == vocab.view_entries(),
            ps == prefixes_view(doc.prefixes@),
            xs == ev_all(*parts),
            xs.len() == parts@.len(),
            pieces_view(pieces@) == pieces_spec(es, ps, xs.subrange(0, i as int)),
        decreases parts@.len() - i,
    {
        proof {
            let pp = if *e is And { e->And_0 } else { e->Or_0 };
            assert(pp == *parts);
            assert(decreases_to!(*e => pp));
            assert(decreases_to!(pp => pp@));
            assert(decreases_to!(pp@ => pp@[i as int]));
        }
        let ghost before = pieces_view(pieces@);
        let p = &parts[i];
        proof { assert(xs[i as int] == ev(*p)); }
        match p {
            Expr::Named(n) => pieces.push(Piece::Atom(name(vocab, doc.expand(n.as_str()).as_str()))),
            Expr::Exists { property, filler } => {
                let v = verb(vocab, doc.expand(property.as_str()).as_str());
                pieces.push(Piece::Restr(v, Quant::Exists, verbalise_expr(vocab, doc, filler)));
            },
            Expr::Only { property, filler } => {
                let v = verb(vocab, doc.expand(property.as_str()).as_str());
                pieces.push(Piece::Restr(v, Quant::Only, verbalise_expr(vocab, doc, filler)));
            },
            Expr::Exactly { property, n, filler } => {
                match filler {
                    Some(f) => {
                        let v = verb(vocab, doc.expand(property.as_str()).as_str());
                        pieces.push(Piece::Restr(v, Quant::Exactly(*n), verbalise_expr(vocab, doc, f)));
                    },
                    None => {},
                }
            },
            Expr::Min { property, n, filler } => {
                match filler {
                    Some(f) => {
                        let v = verb(vocab, doc.expand(property.as_str()).as_str());
                        pieces.push(Piece::Restr(v, Quant::Min(*n), verbalise_expr(vocab, doc, f)));
                    },
                    None => {},
                }
            },
            Expr::Max { property, n, filler } => {
                match filler {
                    Some(f) => {
                        let v = verb(vocab, doc.expand(property.as_str()).as_str());
                        pieces.push(Piece::Restr(v, Quant::Max(*n), verbalise_expr(vocab, doc, f)));
                    },
                    None => {},
                }
            },
            _ => pieces.push(Piece::Other(verbalise_expr(vocab, doc, p))),
        }
        proof {
            let sub = xs.subrange(0, i + 1);
            assert(sub.subrange(0, sub.len() - 1) =~= xs.subrange(0, i as int));
            assert(sub[sub.len() - 1] == xs[i as int]);
            assert(pieces_view(pieces@) =~= before + piece_spec(es, ps, xs[i as int]));
        }
        i += 1;
    }
    proof { assert(xs.subrange(0, xs.len() as int) =~= xs); }
    pieces
}

/// Restriction clauses keyed by verb phrase and quantifier, their fillers joined by "and".
struct Merged {
    keys: Vec<(String, Quant)>,
    fillers: Vec<String>,
}

impl Merged {
    /// The clauses, viewed.
    spec fn view_clauses(&self) -> Seq<(Seq<char>, Quant, Seq<char>)> {
        Seq::new(self.keys@.len(), |i: int| (self.keys@[i].0@, self.keys@[i].1, self.fillers@[i]@))
    }

    /// Add a filler to the clause of `(p, q)`, opening the clause if it is new.
    fn merge(&mut self, p: String, q: Quant, f: &str)
        requires
            old(self).keys@.len() == old(self).fillers@.len(),
        ensures
            final(self).keys@.len() == final(self).fillers@.len(),
            final(self).view_clauses() == merge_spec(old(self).view_clauses(), p@, q, f@),
    {
        let ghost m = self.view_clauses();
        let mut i: usize = 0;
        proof { assert(m.skip(0) =~= m); assert(m.take(0) + merge_spec(m.skip(0), p@, q, f@) =~= merge_spec(m, p@, q, f@)); }
        while i < self.keys.len()
            invariant
                self.keys@.len() == self.fillers@.len(),
                i <= self.keys@.len(),
                m == self.view_clauses(),
                m == old(self).view_clauses(),
                merge_spec(m, p@, q, f@) == m.take(i as int) + merge_spec(m.skip(i as int), p@, q, f@),
            decreases self.keys@.len() - i,
        {
            proof {
                assert(m.skip(i as int)[0] == m[i as int]);
                assert(m[i as int] == (self.keys@[i as int].0@, self.keys@[i as int].1, self.fillers@[i as int]@));
            }
            if eq_str(self.keys[i].0.as_str(), p.as_str()) && quant_eq(self.keys[i].1, q) {
                let joined = cat(cat(self.fillers[i].clone(), " and "), f);
                self.fillers.set(i, joined);
                proof {
                    assert(merge_spec(m.skip(i as int), p@, q, f@) =~= m.skip(i as int).update(0, (p@, q, m[i as int].2 + " and "@ + f@)));
                    assert(self.view_clauses() =~= m.take(i as int) + m.skip(i as int).update(0, (p@, q, m[i as int].2 + " and "@ + f@)));
                }
                return;
            }
            proof {
                assert(m.skip(i as int).drop_first() =~= m.skip(i + 1));
                assert(m.take(i + 1) =~= m.take(i as int) + seq![m[i as int]]);
                assert(m.take(i as int) + merge_spec(m.skip(i as int), p@, q, f@)
                    =~= m.take(i + 1) + merge_spec(m.skip(i + 1), p@, q, f@));
            }
            i += 1;
        }
        let ghost pv = p@;
        self.keys.push((p, q));
        self.fillers.push(String::from_str(f));
        proof {
            assert(m.skip(i as int) =~= Seq::<(Seq<char>, Quant, Seq<char>)>::empty());
            assert(self.view_clauses() =~= m.take(i as int) + seq![(pv, q, f@)]);
        }
    }
}

/// The clauses of a conjunction or disjunction joined by `conj`: the named atoms first,
/// then one clause per merged restriction, then the rest; "something" when empty.
fn junction(pieces: &Vec<Piece>, conj: &str) -> (r: String)
    ensures
        r@ == junction_spec(pieces_view(pieces@), conj@),
{
    let ghost pv = pieces_view(pieces@);
    let mut atoms: Vec<String> = Vec::new();
    let mut merged = Merged { keys: Vec::new(), fillers: Vec::new() };
    let mut others: Vec<String> = Vec::new();
    proof {
        assert(pv.take(0) =~= Seq::<PieceV>::empty());
        assert(crate::fragment::names_view(atoms@) =~= Seq::<Seq<char>>::empty());
        assert(merged.view_clauses() =~= Seq::<(Seq<char>, Quant, Seq<char>)>::empty());
        assert(crate::fragment::names_view(others@) =~= Seq::<Seq<char>>::empty());
    }
    let mut i: usize = 0;
    while i < pieces.len()
        invariant
            i <= pieces@.len(),
            pv == pieces_view(pieces@),
            merged.keys@.len() == merged.fillers@.len(),
            sort_pieces(pv.take(i as int)) == (crate::fragment::names_view(atoms@), merged.view_clauses(), crate::fragment::names_view(others@)),
        decreases pieces@.len() - i,
    {
        let ghost a0 = crate::fragment::names_view(atoms@);
        let ghost o0 = crate::fragment::names_view(others@);
        proof {
            let t = pv.take(i + 1);
            assert(t.drop_last() =~= pv.take(i as int));
            assert(t.last() == pieces@[i as int]@);
        }
        match &pieces[i] {
            Piece::Atom(Some(nm)) => {
                atoms.push(nm.clone());
                proof { assert(crate::fragment::names_view(atoms@) =~= a0.push(nm@)); }
            },
            Piece::Atom(None) => {},
            Piece::Restr(p, q, f) => merged.merge(p.clone(), *q, f.as_str()),
            Piece::Other(o) => {
                others.push(o.clone());
                proof { assert(crate::fragment::names_view(others@) =~= o0.push(o@)); }
            },
        }
        i += 1;
    }
    proof { assert(pv.take(pv.len() as int) =~= pv); }
    let ghost st = sort_pieces(pv);
    let mut clauses: Vec<String> = Vec::new();
    if atoms.len() > 0 {
        clauses.push(join(&atoms, conj));
    }
    let ghost c0 = crate::fragment::names_view(clauses@);
    proof {
        assert(c0 =~= (if st.0.len() > 0 { seq![join_spec(st.0, conj@)] } else { Seq::empty() }));
        assert(c0 + st.1.take(0).map_values(|c: (Seq<char>, Quant, Seq<char>)| clause_text(c)) =~= c0);
    }
    let mut k: usize = 0;
    while k < merged.keys.len()
        invariant
            k <= merged.keys@.len(),
            merged.keys@.len() == merged.fillers@.len(),
            st.1 == merged.view_clauses(),
            crate::fragment::names_view(clauses@) == c0 + st.1.take(k as int).map_values(|c: (Seq<char>, Quant, Seq<char>)| clause_text(c)),
        decreases merged.keys@.len() - k,
    {
        let ghost before = crate::fragment::names_view(clauses@);
        let c = cat(cat(cat(cat(String::from_str("something that "), merged.keys[k].0.as_str()), " "), count(merged.keys[k].1).as_str()), " ");
        clauses.push(cat(c, merged.fillers[k].as_str()));
        proof {
            assert(st.1[k as int] == (merged.keys@[k as int].0@, merged.keys@[k as int].1, merged.fillers@[k as int]@));
            assert(crate::fragment::names_view(clauses@) =~= before.push(clause_text(st.1[k as int])));
            assert(st.1.take(k + 1).map_values(|c: (Seq<char>, Quant, Seq<char>)| clause_text(c))
                =~= st.1.take(k as int).map_values(|c: (Seq<char>, Quant, Seq<char>)| clause_text(c)).push(clause_text(st.1[k as int])));
        }
        k += 1;
    }
    proof { assert(st.1.take(st.1.len() as int) =~= st.1); }
    let ghost c1 = crate::fragment::names_view(clauses@);
    let ghost ov = crate::fragment::names_view(others@);
    clauses.append(&mut others);
    proof { assert(crate::fragment::names_view(clauses@) =~= c1 + ov); }
    if clauses.len() == 0 {
        String::from_str("something")
    } else {
        join(&clauses, conj)
    }
}


/// One constraint of a class: verb phrase, verbalised filler, quantifier.
#[derive(Debug, Clone)]
pub struct Constraint {
    pub prop: String,
    pub filler: String,
    pub quant: Quant,
}

/// What a class frame says: its display name, its named (non-opaque) superclasses, its
/// constraints.
#[derive(Debug, Clone, Default)]
pub struct Parts {
    pub subject: String,
    pub supers: Vec<String>,
    pub constraints: Vec<Constraint>,
}

/// The constraints, viewed: (verb phrase, quantifier, filler).
pub open spec fn cons_view(v: Seq<Constraint>) -> Seq<(Seq<char>, Quant, Seq<char>)> {
    v.map_values(|c: Constraint| (c.prop@, c.quant, c.filler@))
}

/// Add a constraint, merging it into one with the same verb phrase and quantifier.
fn push_c(vocab: &Vocab, doc: &Document, parts: &mut Parts, property: &String, q: Quant, filler: &Expr)
    ensures
        final(parts).subject == old(parts).subject,
        final(parts).supers == old(parts).supers,
        cons_view(final(parts).constraints@) == merge_spec(
            cons_view(old(parts).constraints@),
            verb_spec(vocab.view_entries(), expand_from(prefixes_view(doc.prefixes@), property@, 0)),
            q,
            verbal(vocab.view_entries(), prefixes_view(doc.prefixes@), ev(*filler)),
        ),
{
    let prop = verb(vocab, doc.expand(property.as_str()).as_str());
    let f = verbalise_expr(vocab, doc, filler);
    let ghost m = cons_view(parts.constraints@);
    let ghost pv = prop@;
    let ghost fv = f@;
    let mut i: usize = 0;
    proof { assert(m.skip(0) =~= m); assert(m.take(0) + merge_spec(m.skip(0), pv, q, fv) =~= merge_spec(m, pv, q, fv)); }
    while i < parts.constraints.len()
        invariant
            i <= parts.constraints@.len(),
            m == cons_view(parts.constraints@),
            m == cons_view(old(parts).constraints@),
            parts.subject == old(parts).subject,
            parts.supers == old(parts).supers,
            pv == prop@,
            fv == f@,
            pv == verb_spec(vocab.view_entries(), expand_from(prefixes_view(doc.prefixes@), property@, 0)),
            fv == verbal(vocab.view_entries(), prefixes_view(doc.prefixes@), ev(*filler)),
            merge_spec(m, pv, q, fv) == m.take(i as int) + merge_spec(m.skip(i as int), pv, q, fv),
        decreases parts.constraints@.len() - i,
    {
        proof {
            assert(m.skip(i as int)[0] == m[i as int]);
            assert(m[i as int] == (parts.constraints@[i as int].prop@, parts.constraints@[i as int].quant, parts.constraints@[i as int].filler@));
        }
        if eq_str(parts.constraints[i].prop.as_str(), prop.as_str()) && quant_eq(parts.constraints[i].quant, q) {
            let merged = cat(cat(parts.constraints[i].filler.clone(), " and "), f.as_str());
            let c = Constraint { prop: parts.constraints[i].prop.clone(), filler: merged, quant: q };
            parts.constraints.set(i, c);
            proof {
                assert(merge_spec(m.skip(i as int), pv, q, fv) =~= m.skip(i as int).update(0, (pv, q, m[i as int].2 + " and "@ + fv)));
                assert(cons_view(parts.constraints@) =~= m.take(i as int) + m.skip(i as int).update(0, (pv, q, m[i as int].2 + " and "@ + fv)));
            }
            return;
        }
        proof {
            assert(m.skip(i as int).drop_first() =~= m.skip(i + 1));
            assert(m.take(i + 1) =~= m.take(i as int) + seq![m[i as int]]);
            assert(m.take(i as int) + merge_spec(m.skip(i as int), pv, q, fv)
                =~= m.take(i + 1) + merge_spec(m.skip(i + 1), pv, q, fv));
        }
        i += 1;
    }
    parts.constraints.push(Constraint { prop, filler: f, quant: q });
    proof {
        assert(m.skip(i as int) =~= Seq::<(Seq<char>, Quant, Seq<char>)>::empty());
        assert(cons_view(parts.constraints@) =~= m.take(i as int) + seq![(pv, q, fv)]);
    }
}

/// Add `s` to the names unless it is there already.
fn push_new(v: &mut Vec<String>, s: String)
    ensures
        crate::fragment::names_view(final(v)@) == if crate::fragment::names_view(old(v)@).contains(s@) {
            crate::fragment::names_view(old(v)@)
        } else {
            crate::fragment::names_view(old(v)@).push(s@)
        },
{
    let ghost before = crate::fragment::names_view(v@);
    let mut i: usize = 0;
    while i < v.len()
        invariant
            before == crate::fragment::names_view(v@),
            i <= v@.len(),
            forall|j: int| 0 <= j < i ==> v@[j]@ != s@,
        decreases v@.len() - i,
    {
        if eq_str(v[i].as_str(), s.as_str()) {
            assert(before[i as int] == s@);
            return;
        }
        i += 1;
    }
    proof {
        if before.contains(s@) {
            let j = choose|j: int| 0 <= j < before.len() && before[j] == s@;
            assert(v@[j]@ == s@);
        }
    }
    let ghost sv = s@;
    v.push(s);
    assert(crate::fragment::names_view(v@) =~= before.push(sv));
}

/// What has been gathered of a frame: its named superclasses and its constraints.
pub type Gathered = (Seq<Seq<char>>, Seq<(Seq<char>, Quant, Seq<char>)>);

/// `v` with `x` added unless it holds it already.
pub open spec fn add_new(v: Seq<Seq<char>>, x: Seq<char>) -> Seq<Seq<char>> {
    if v.contains(x) { v } else { v.push(x) }
}

/// What one conjunct adds: a named superclass with a display name, or a constraint from a
/// restriction with a filler.
pub open spec fn conj_step(es: Seq<(Seq<char>, Seq<char>)>, ps: Seq<(Seq<char>, Seq<char>)>, st: Gathered, c: ExprV) -> Gathered {
    let vp = |p: Seq<char>| verb_spec(es, expand_from(ps, p, 0));
    match c {
        ExprV::Named(n) => match name_spec(es, expand_from(ps, n, 0)) {
            Some(nm) => (add_new(st.0, nm), st.1),
            None => st,
        },
        ExprV::Exists(p, f) => (st.0, merge_spec(st.1, vp(p), Quant::Exists, verbal(es, ps, *f))),
        ExprV::Only(p, f) => (st.0, merge_spec(st.1, vp(p), Quant::Only, verbal(es, ps, *f))),
        ExprV::Exactly(p, n, f) => match f {
            Some(g) => (st.0, merge_spec(st.1, vp(p), Quant::Exactly(n), verbal(es, ps, *g))),
            None => st,
        },
        ExprV::Min(p, n, f) => match f {
            Some(g) => (st.0, merge_spec(st.1, vp(p), Quant::Min(n), verbal(es, ps, *g))),
            None => st,
        },
        ExprV::Max(p, n, f) => match f {
            Some(g) => (st.0, merge_spec(st.1, vp(p), Quant::Max(n), verbal(es, ps, *g))),
            None => st,
        },
        _ => st,
    }
}

/// The top-level conjuncts of an expression.
pub open spec fn conjuncts_of(e: ExprV) -> Seq<ExprV> {
    match e {
        ExprV::And(xs) => xs,
        _ => seq![e],
    }
}

/// What the conjuncts `cs` add, in order.
pub open spec fn conjs_fold(es: Seq<(Seq<char>, Seq<char>)>, ps: Seq<(Seq<char>, Seq<char>)>, st: Gathered, cs: Seq<ExprV>) -> Gathered
    decreases cs.len(),
{
    if cs.len() == 0 { st } else { conj_step(es, ps, conjs_fold(es, ps, st, cs.drop_last()), cs.last()) }
}

/// What the items of a section add, in order.
pub open spec fn items_fold(es: Seq<(Seq<char>, Seq<char>)>, ps: Seq<(Seq<char>, Seq<char>)>, st: Gathered, items: Seq<ExprV>) -> Gathered
    decreases items.len(),
{
    if items.len() == 0 { st } else { conjs_fold(es, ps, items_fold(es, ps, st, items.drop_last()), conjuncts_of(items.last())) }
}

/// What the `SubClassOf` and `EquivalentTo` sections add, in order.
pub open spec fn secs_fold(es: Seq<(Seq<char>, Seq<char>)>, ps: Seq<(Seq<char>, Seq<char>)>, st: Gathered, secs: Seq<SectionV>) -> Gathered
    decreases secs.len(),
{
    if secs.len() == 0 {
        st
    } else {
        let st1 = secs_fold(es, ps, st, secs.drop_last());
        let sec = secs.last();
        if sec.keyword == "SubClassOf"@ || sec.keyword == "EquivalentTo"@ { items_fold(es, ps, st1, sec.items) } else { st1 }
    }
}

/// The verbalisation parts of a frame: for a Class frame whose subject has a display
/// name and that says something, the name, superclasses and constraints.
pub open spec fn parts_spec(es: Seq<(Seq<char>, Seq<char>)>, ps: Seq<(Seq<char>, Seq<char>)>, f: FrameV) -> Option<(Seq<char>, Gathered)> {
    if f.kind != FrameKind::Class {
        None
    } else {
        match name_spec(es, expand_from(ps, f.subject, 0)) {
            None => None,
            Some(subject) => {
                let g = secs_fold(es, ps, (Seq::empty(), Seq::empty()), f.sections);
                if g.0.len() == 0 && g.1.len() == 0 { None } else { Some((subject, g)) }
            },
        }
    }
}

/// The verbalisation parts of a Class frame's `SubClassOf`/`EquivalentTo` items; `None`
/// for another kind of frame, an unnamed subject, or a frame with nothing to say.
pub fn parts_of(vocab: &Vocab, doc: &Document, frame: &Frame) -> (r: Option<Parts>)
    ensures
        match parts_spec(vocab.view_entries(), prefixes_view(doc.prefixes@), frame@) {
            Some((subject, g)) => r matches Some(p) && p.subject@ == subject
                && crate::fragment::names_view(p.supers@) == g.0 && cons_view(p.constraints@) == g.1,
            None => r is None,
        },
        r matches Some(p) ==> frame.kind == FrameKind::Class && (p.supers@.len() > 0 || p.constraints@.len() > 0),
        !(frame.kind == FrameKind::Class) ==> r is None,
{
    if !matches!(frame.kind, FrameKind::Class) {
        return None;
    }
    let subject = match name(vocab, doc.expand(frame.subject.as_str()).as_str()) {
        Some(s) => s,
        None => return None,
    };
    let ghost es = vocab.view_entries();
    let ghost ps = prefixes_view(doc.prefixes@);
    let ghost secs = frame@.sections;
    let mut parts = Parts { subject, supers: Vec::new(), constraints: Vec::new() };
    proof {
        assert(crate::fragment::names_view(parts.supers@) =~= Seq::<Seq<char>>::empty());
        assert(cons_view(parts.constraints@) =~= Seq::<(Seq<char>, Quant, Seq<char>)>::empty());
        assert(secs.take(0) =~= Seq::<SectionV>::empty());
    }
    let ghost g0: Gathered = (Seq::empty(), Seq::empty());
    let ghost subj = parts.subject@;
    let mut si: usize = 0;
    while si < frame.sections.len()
        invariant
            si <= frame.sections@.len(),
            es == vocab.view_entries(),
            ps == prefixes_view(doc.prefixes@),
            secs == frame@.sections,
            g0 == (Seq::<Seq<char>>::empty(), Seq::<(Seq<char>, Quant, Seq<char>)>::empty()),
            parts.subject@ == subj,
            (crate::fragment::names_view(parts.supers@), cons_view(parts.constraints@)) == secs_fold(es, ps, g0, secs.take(si as int)),
        decreases frame.sections@.len() - si,
    {
        let section = &frame.sections[si];
        proof {
            let t = secs.take(si + 1);
            assert(t.drop_last() =~= secs.take(si as int));
            assert(t.last() == section@);
        }
        if eq_str(section.keyword.as_str(), "SubClassOf") || eq_str(section.keyword.as_str(), "EquivalentTo") {
            let ghost items = section@.items;
            let ghost s0: Gathered = (crate::fragment::names_view(parts.supers@), cons_view(parts.constraints@));
            proof { assert(items.take(0) =~= Seq::<ExprV>::empty()); }
            let mut ii: usize = 0;
            while ii < section.items.len()
                invariant
                    ii <= section.items@.len(),
                    es == vocab.view_entries(),
                    ps == prefixes_view(doc.prefixes@),
                    items == section@.items,
                    parts.subject@ == subj,
                    (crate::fragment::names_view(parts.supers@), cons_view(parts.constraints@)) == items_fold(es, ps, s0, items.take(ii as int)),
                decreases section.items@.len() - ii,
            {
                let conj = section.items[ii].conjuncts();
                let ghost cs = conjuncts_of(items[ii as int]);
                let ghost s1: Gathered = (crate::fragment::names_view(parts.supers@), cons_view(parts.constraints@));
                proof {
                    assert(items[ii as int] == ev(section.items@[ii as int]));
                    match section.items@[ii as int] {
                        Expr::And(parts0) => {
                            assert(cs == ev_all(parts0));
                            assert(conj@.len() == cs.len());
                            assert forall|c: int| 0 <= c < cs.len() implies cs[c] == ev(*conj@[c]) by {
                                assert(cs[c] == ev(parts0@[c]));
                            }
                        },
                        _ => {
                            assert(cs == seq![ev(section.items@[ii as int])]);
                            assert(conj@.len() == cs.len());
                            assert forall|c: int| 0 <= c < cs.len() implies cs[c] == ev(*conj@[c]) by {}
                        },
                    }
                    assert(cs.take(0) =~= Seq::<ExprV>::empty());
                }
                let mut c: usize = 0;
                while c < conj.len()
                    invariant
                        c <= conj@.len(),
                        conj@.len() == cs.len(),
                        forall|k: int| 0 <= k < cs.len() ==> cs[k] == ev(*conj@[k]),
                        es == vocab.view_entries(),
                        ps == prefixes_view(doc.prefixes@),
                        parts.subject@ == subj,
                        (crate::fragment::names_view(parts.supers@), cons_view(parts.constraints@)) == conjs_fold(es, ps, s1, cs.take(c as int)),
                    decreases conj@.len() - c,
                {
                    proof {
                        let t = cs.take(c + 1);
                        assert(t.drop_last() =~= cs.take(c as int));
                        assert(t.last() == ev(*conj@[c as int]));
                    }
                    match conj[c] {
                        Expr::Named(n) => {
                            match name(vocab, doc.expand(n.as_str()).as_str()) {
                                Some(nm) => push_new(&mut parts.supers, nm),
                                None => {},
                            }
                        },
                        Expr::Exists { property, filler } => push_c(vocab, doc, &mut parts, property, Quant::Exists, filler),
                        Expr::Only { property, filler } => push_c(vocab, doc, &mut parts, property, Quant::Only, filler),
                        Expr::Exactly { property, n, filler } => match filler {
                            Some(f) => push_c(vocab, doc, &mut parts, property, Quant::Exactly(*n), f),
                            None => {},
                        },
                        Expr::Min { property, n, filler } => match filler {
                            Some(f) => push_c(vocab, doc, &mut parts, property, Quant::Min(*n), f),
                            None => {},
                        },
                        Expr::Max { property, n, filler } => match filler {
                            Some(f) => push_c(vocab, doc, &mut parts, property, Quant::Max(*n), f),
                            None => {},
                        },
                        _ => {},
                    }
                    c += 1;
                }
                proof {
                    assert(cs.take(cs.len() as int) =~= cs);
                    let t = items.take(ii + 1);
                    assert(t.drop_last() =~= items.take(ii as int));
                    assert(t.last() == items[ii as int]);
                }
                ii += 1;
            }
            proof { assert(items.take(items.len() as int) =~= items); }
        }
        si += 1;
    }
    proof { assert(secs.take(secs.len() as int) =~= secs); }
    if parts.supers.len() == 0 && parts.constraints.len() == 0 {
        return None;
    }
    Some(parts)
}

/// The head noun of a frame: its superclasses joined by "and", else "entity".
pub open spec fn head_spec(supers: Seq<Seq<char>>) -> Seq<char> {
    if supers.len() == 0 { "entity"@ } else { join_spec(supers, " and "@) }
}

fn head(parts: &Parts) -> (r: String)
    ensures
        r@ == head_spec(crate::fragment::names_view(parts.supers@)),
{
    if parts.supers.len() == 0 {
        String::from_str("entity")
    } else {
        join(&parts.supers, " and ")
    }
}

/// The indefinite article of a noun.
pub open spec fn art_spec(noun: Seq<char>) -> Seq<char> {
    if noun.len() > 0 && (noun[0] == 'a' || noun[0] == 'e' || noun[0] == 'i' || noun[0] == 'o' || noun[0] == 'u'
        || noun[0] == 'A' || noun[0] == 'E' || noun[0] == 'I' || noun[0] == 'O' || noun[0] == 'U') {
        "an"@
    } else {
        "a"@
    }
}

fn art(noun: &String) -> (r: &'static str)
    ensures
        r@ == art_spec(noun@),
{
    let v = chars_of(noun.as_str());
    if v.len() > 0 {
        let c = v[0];
        if c == 'a' || c == 'e' || c == 'i' || c == 'o' || c == 'u' || c == 'A' || c == 'E' || c == 'I' || c == 'O' || c == 'U' {
            return "an";
        }
    }
    "a"
}

/// The FNV-1a hash of the first `n` bytes of `b`.
pub open spec fn fnv_spec(b: Seq<u8>, n: int) -> u64
    decreases n,
{
    if n <= 0 || n > b.len() {
        0xcbf29ce484222325u64
    } else {
        vstd::wrapping::u64_specs::wrapping_mul(fnv_spec(b, n - 1) ^ (b[n - 1] as u64), 0x100000001b3u64)
    }
}

/// The 64-bit FNV-1a hash of the bytes of `s`.
pub fn fnv(s: &str) -> (r: u64)
    ensures
        r == fnv_spec(s.spec_bytes(), s.spec_bytes().len() as int),
{
    let b = s.as_bytes();
    let mut h: u64 = 0xcbf29ce484222325;
    let mut i: usize = 0;
    while i < b.len()
        invariant
            b@ == s.spec_bytes(),
            i <= b@.len(),
            h == fnv_spec(b@, i as int),
        decreases b@.len() - i,
    {
        h = h ^ (b[i] as u64);
        h = h.wrapping_mul(0x100000001b3);
        i += 1;
    }
    h
}


/// `<prop> <count> <filler>`.
pub open spec fn c_that(c: (Seq<char>, Quant, Seq<char>)) -> Seq<char> {
    c.0 + " "@ + count_spec(c.1) + " "@ + c.2
}

/// `the <prop> relation to <count> <filler>`.
pub open spec fn c_bears(c: (Seq<char>, Quant, Seq<char>)) -> Seq<char> {
    "the "@ + c.0 + " relation to "@ + count_spec(c.1) + " "@ + c.2
}

/// `to <count> <filler> via <prop>`.
pub open spec fn c_via(c: (Seq<char>, Quant, Seq<char>)) -> Seq<char> {
    "to "@ + count_spec(c.1) + " "@ + c.2 + " via "@ + c.0
}

/// The five skeletons of a class, in their fixed order.
pub open spec fn pool_spec(s: Seq<char>, h: Seq<char>, cs: Seq<(Seq<char>, Quant, Seq<char>)>) -> Seq<Seq<char>> {
    let a_h = art_spec(h) + " "@ + h;
    if cs.len() == 0 {
        seq![
            s + " is a kind of "@ + h + "."@,
            s + " is a type of "@ + h + "."@,
            "Every "@ + s + " is "@ + a_h + "."@,
            s + " denotes "@ + a_h + "."@,
            "Any "@ + s + " qualifies as "@ + a_h + "."@,
        ]
    } else {
        let that = join_spec(cs.map_values(|c: (Seq<char>, Quant, Seq<char>)| c_that(c)), " and "@);
        let bears = join_spec(cs.map_values(|c: (Seq<char>, Quant, Seq<char>)| c_bears(c)), " and "@);
        let via = join_spec(cs.map_values(|c: (Seq<char>, Quant, Seq<char>)| c_via(c)), " and "@);
        seq![
            s + " is "@ + a_h + " that "@ + that + "."@,
            "Each "@ + s + " is defined as "@ + a_h + " which "@ + that + "."@,
            "For an entity to count as "@ + s + ", it must bear "@ + bears + "."@,
            "Every "@ + s + " stands in "@ + bears + "."@,
            "Any "@ + s + " necessarily relates "@ + via + "."@,
        ]
    }
}

/// Up to `k` of the skeletons: the first always first, the other four rotated left by the
/// hash of the seed modulo four.
pub open spec fn frames_spec(pool: Seq<Seq<char>>, k: nat, rot: int) -> Seq<Seq<char>> {
    let tail = pool.skip(1);
    let all = seq![pool[0]] + tail.skip(rot) + tail.take(rot);
    if k < all.len() { all.take(k as int) } else { all }
}

/// The clauses of the constraints, each phrased by `which` (0: that, 1: bears, 2: via).
fn clauses(cs: &Vec<Constraint>, which: u8) -> (r: Vec<String>)
    ensures
        crate::fragment::names_view(r@) == cons_view(cs@).map_values(|c: (Seq<char>, Quant, Seq<char>)|
            if which == 0 { c_that(c) } else if which == 1 { c_bears(c) } else { c_via(c) }),
{
    let ghost target = cons_view(cs@).map_values(|c: (Seq<char>, Quant, Seq<char>)|
        if which == 0 { c_that(c) } else if which == 1 { c_bears(c) } else { c_via(c) });
    let mut out: Vec<String> = Vec::new();
    let mut i: usize = 0;
    while i < cs.len()
        invariant
            target == cons_view(cs@).map_values(|c: (Seq<char>, Quant, Seq<char>)|
                if which == 0 { c_that(c) } else if which == 1 { c_bears(c) } else { c_via(c) }),
            i <= cs@.len(),
            crate::fragment::names_view(out@) == target.take(i as int),
        decreases cs@.len() - i,
    {
        let c = &cs[i];
        let q = count(c.quant);
        let x = if which == 0 {
            cat(cat(cat(cat(c.prop.clone(), " "), q.as_str()), " "), c.filler.as_str())
        } else if which == 1 {
            cat(cat(cat(cat(cat(String::from_str("the "), c.prop.as_str()), " relation to "), q.as_str()), " "), c.filler.as_str())
        } else {
            cat(cat(cat(cat(cat(String::from_str("to "), q.as_str()), " "), c.filler.as_str()), " via "), c.prop.as_str())
        };
        let ghost before = crate::fragment::names_view(out@);
        let ghost xv = x@;
        out.push(x);
        proof {
            assert(xv == target[i as int]);
            assert(crate::fragment::names_view(out@) =~= before.push(xv));
            assert(target.take(i + 1) =~= target.take(i as int).push(target[i as int]));
        }
        i += 1;
    }
    proof { assert(target.take(cs@.len() as int) =~= target); }
    out
}

/// `a + b + c`.
fn cat3(a: String, b: &str, c: &str) -> (r: String)
    ensures
        r@ == a@ + b@ + c@,
{
    cat(cat(a, b), c)
}

/// Up to `k` distinct-skeleton sentences for a class: the subsumptive one always first, the
/// rest rotated by the FNV-1a hash of `seed_key`, so that a corpus does not concentrate on
/// one skeleton.
pub fn frames(parts: &Parts, k: usize, seed_key: &str) -> (r: Vec<String>)
    ensures
        crate::fragment::names_view(r@) == frames_spec(
            pool_spec(parts.subject@, head_spec(crate::fragment::names_view(parts.supers@)), cons_view(parts.constraints@)),
            k as nat,
            (fnv_spec(seed_key.spec_bytes(), seed_key.spec_bytes().len() as int) % 4) as int,
        ),
{
    let s = parts.subject.as_str();
    let h = head(parts);
    let a_h = cat3(String::from_str(art(&h)), " ", h.as_str());
    let ghost cs = cons_view(parts.constraints@);
    let ghost pv = pool_spec(parts.subject@, head_spec(crate::fragment::names_view(parts.supers@)), cs);
    let mut pool: Vec<String> = Vec::new();
    if parts.constraints.len() == 0 {
        pool.push(cat3(cat(String::from_str(s), " is a kind of "), h.as_str(), "."));
        pool.push(cat3(cat(String::from_str(s), " is a type of "), h.as_str(), "."));
        pool.push(cat3(cat3(String::from_str("Every "), s, " is "), a_h.as_str(), "."));
        pool.push(cat3(cat(String::from_str(s), " denotes "), a_h.as_str(), "."));
        pool.push(cat3(cat3(String::from_str("Any "), s, " qualifies as "), a_h.as_str(), "."));
        proof { assert(crate::fragment::names_view(pool@) =~= pv); }
    } else {
        let t = clauses(&parts.constraints, 0);
        let b = clauses(&parts.constraints, 1);
        let v = clauses(&parts.constraints, 2);
        proof {
            assert(crate::fragment::names_view(t@) =~= cs.map_values(|c: (Seq<char>, Quant, Seq<char>)| c_that(c)));
            assert(crate::fragment::names_view(b@) =~= cs.map_values(|c: (Seq<char>, Quant, Seq<char>)| c_bears(c)));
            assert(crate::fragment::names_view(v@) =~= cs.map_values(|c: (Seq<char>, Quant, Seq<char>)| c_via(c)));
        }
        let that = join(&t, " and ");
        let bears = join(&b, " and ");
        let via = join(&v, " and ");
        pool.push(cat(cat3(cat3(String::from_str(s), " is ", a_h.as_str()), " that ", that.as_str()), "."));
        pool.push(cat3(cat3(cat3(String::from_str("Each "), s, " is defined as "), a_h.as_str(), " which "), that.as_str(), "."));
        pool.push(cat3(cat3(String::from_str("For an entity to count as "), s, ", it must bear "), bears.as_str(), "."));
        pool.push(cat3(cat3(String::from_str("Every "), s, " stands in "), bears.as_str(), "."));
        pool.push(cat3(cat3(String::from_str("Any "), s, " necessarily relates "), via.as_str(), "."));
        proof { assert(crate::fragment::names_view(pool@) =~= pv); }
    }
    let rot = (fnv(seed_key) % 4) as usize;
    let ghost rotated = pv.skip(1).skip(rot as int) + pv.skip(1).take(rot as int);
    let mut out: Vec<String> = Vec::new();
    out.push(pool[0].clone());
    proof { assert(crate::fragment::names_view(out@) =~= seq![pv[0]] + rotated.take(0)); }
    let mut i: usize = 0;
    while i < 4
        invariant
            pool@.len() == 5,
            pv.len() == 5,
            crate::fragment::names_view(pool@) == pv,
            rot < 4,
            i <= 4,
            rotated == pv.skip(1).skip(rot as int) + pv.skip(1).take(rot as int),
            crate::fragment::names_view(out@) == seq![pv[0]] + rotated.take(i as int),
        decreases 4 - i,
    {
        let j = if rot + i < 4 { 1 + rot + i } else { 1 + rot + i - 4 };
        let ghost before = crate::fragment::names_view(out@);
        out.push(pool[j].clone());
        proof {
            assert(rotated[i as int] == pv[j as int]);
            assert(crate::fragment::names_view(out@) =~= before.push(pv[j as int]));
            assert(rotated.take(i + 1) =~= rotated.take(i as int).push(rotated[i as int]));
            assert(seq![pv[0]] + rotated.take(i + 1) =~= (seq![pv[0]] + rotated.take(i as int)).push(rotated[i as int]));
        }
        i += 1;
    }
    proof { assert(rotated.take(4) =~= rotated); }
    let ghost all = crate::fragment::names_view(out@);
    out.truncate(if k < 5 { k } else { 5 });
    proof {
        if k < 5 {
            assert(crate::fragment::names_view(out@) =~= all.take(k as int));
        } else {
            assert(crate::fragment::names_view(out@) =~= all);
        }
    }
    out
}


/// The verbalisation of one class.
#[derive(Debug)]
pub struct ClassVerbalisation {
    pub class: String,
    pub label: Option<String>,
    pub frames: Vec<String>,
}

/// The classes of the merged entries.
pub open spec fn merged_keys(v: Seq<(String, Parts)>) -> Seq<Seq<char>> {
    v.map_values(|e: (String, Parts)| e.0@)
}

/// `v` with each of `xs` added unless it holds it already.
pub open spec fn adds_new(v: Seq<Seq<char>>, xs: Seq<Seq<char>>) -> Seq<Seq<char>>
    decreases xs.len(),
{
    if xs.len() == 0 { v } else { add_new(adds_new(v, xs.drop_last()), xs.last()) }
}

/// `v` with each constraint of `xs` appended unless an equal one is there already.
pub open spec fn cons_add(v: Seq<(Seq<char>, Quant, Seq<char>)>, xs: Seq<(Seq<char>, Quant, Seq<char>)>) -> Seq<(Seq<char>, Quant, Seq<char>)>
    decreases xs.len(),
{
    if xs.len() == 0 {
        v
    } else {
        let w = cons_add(v, xs.drop_last());
        if w.contains(xs.last()) { w } else { w.push(xs.last()) }
    }
}

/// The gathered parts of `a` with those of `b` merged in.
pub open spec fn merge_g(a: Gathered, b: Gathered) -> Gathered {
    (adds_new(a.0, b.0), cons_add(a.1, b.1))
}

/// Merge the parts of one more frame of the same class: new superclasses and constraints
/// are appended.
fn merge_parts(existing: &mut Parts, p: Parts)
    ensures
        final(existing).subject == old(existing).subject,
        (crate::fragment::names_view(final(existing).supers@), cons_view(final(existing).constraints@))
            == merge_g((crate::fragment::names_view(old(existing).supers@), cons_view(old(existing).constraints@)),
                (crate::fragment::names_view(p.supers@), cons_view(p.constraints@))),
{
    let ghost a0 = crate::fragment::names_view(existing.supers@);
    let ghost ps = crate::fragment::names_view(p.supers@);
    let ghost c0 = cons_view(existing.constraints@);
    let ghost pc = cons_view(p.constraints@);
    proof { assert(ps.take(0) =~= Seq::<Seq<char>>::empty()); assert(pc.take(0) =~= Seq::<(Seq<char>, Quant, Seq<char>)>::empty()); }
    let mut i: usize = 0;
    while i < p.supers.len()
        invariant
            i <= p.supers@.len(),
            ps == crate::fragment::names_view(p.supers@),
            existing.subject == old(existing).subject,
            existing.constraints == old(existing).constraints,
            crate::fragment::names_view(existing.supers@) == adds_new(a0, ps.take(i as int)),
        decreases p.supers@.len() - i,
    {
        push_new(&mut existing.supers, p.supers[i].clone());
        proof {
            let t = ps.take(i + 1);
            assert(t.drop_last() =~= ps.take(i as int));
            assert(t.last() == p.supers@[i as int]@);
        }
        i += 1;
    }
    proof { assert(ps.take(ps.len() as int) =~= ps); }
    let mut j: usize = 0;
    while j < p.constraints.len()
        invariant
            j <= p.constraints@.len(),
            pc == cons_view(p.constraints@),
            existing.subject == old(existing).subject,
            crate::fragment::names_view(existing.supers@) == adds_new(a0, ps),
            cons_view(existing.constraints@) == cons_add(c0, pc.take(j as int)),
        decreases p.constraints@.len() - j,
    {
        let c = &p.constraints[j];
        let ghost w = cons_view(existing.constraints@);
        let ghost cv = (c.prop@, c.quant, c.filler@);
        let mut found = false;
        let mut k: usize = 0;
        while k < existing.constraints.len()
            invariant
                k <= existing.constraints@.len(),
                w == cons_view(existing.constraints@),
                cv == (c.prop@, c.quant, c.filler@),
                found ==> w.contains(cv),
                !found ==> forall|q: int| 0 <= q < k ==> w[q] != cv,
            decreases existing.constraints@.len() - k,
        {
            let e = &existing.constraints[k];
            proof { assert(w[k as int] == (e.prop@, e.quant, e.filler@)); }
            if eq_str(e.prop.as_str(), c.prop.as_str()) && quant_eq(e.quant, c.quant) && eq_str(e.filler.as_str(), c.filler.as_str()) {
                found = true;
            }
            k += 1;
        }
        proof {
            assert(found == w.contains(cv)) by {
                if !found && w.contains(cv) {
                    let q = choose|q: int| 0 <= q < w.len() && w[q] == cv;
                }
            }
            let t = pc.take(j + 1);
            assert(t.drop_last() =~= pc.take(j as int));
            assert(t.last() == cv);
        }
        if !found {
            existing.constraints.push(Constraint { prop: c.prop.clone(), filler: c.filler.clone(), quant: c.quant });
            proof { assert(cons_view(existing.constraints@) =~= w.push(cv)); }
        }
        j += 1;
    }
    proof { assert(pc.take(pc.len() as int) =~= pc); }
}

/// A class's entry: its IRI, its display name and what its frames say.
pub type Entry = (Seq<char>, (Seq<char>, Gathered));

/// The entries with `(key, subject, g)` merged into the entry of `key`, or inserted at its
/// place in IRI order.
pub open spec fn entry_put(m: Seq<Entry>, key: Seq<char>, subject: Seq<char>, g: Gathered) -> Seq<Entry>
    decreases m.len(),
{
    if m.len() == 0 {
        seq![(key, (subject, g))]
    } else if m[0].0 == key {
        m.update(0, (key, (m[0].1.0, merge_g(m[0].1.1, g))))
    } else if crate::text::seq_lt(key, m[0].0) {
        seq![(key, (subject, g))] + m
    } else {
        seq![m[0]] + entry_put(m.drop_first(), key, subject, g)
    }
}

/// The entries of the frames, the frames of one class merged, in IRI order.
pub open spec fn doc_entries(es: Seq<(Seq<char>, Seq<char>)>, ps: Seq<(Seq<char>, Seq<char>)>, frames: Seq<FrameV>) -> Seq<Entry>
    decreases frames.len(),
{
    if frames.len() == 0 {
        Seq::empty()
    } else {
        let m = doc_entries(es, ps, frames.drop_last());
        match parts_spec(es, ps, frames.last()) {
            None => m,
            Some((subject, g)) => entry_put(m, expand_from(ps, frames.last().subject, 0), subject, g),
        }
    }
}

/// The merged entries, viewed.
pub open spec fn entries_of(v: Seq<(String, Parts)>) -> Seq<Entry> {
    v.map_values(|e: (String, Parts)| (e.0@, (e.1.subject@, (crate::fragment::names_view(e.1.supers@), cons_view(e.1.constraints@)))))
}

/// Inserting past keys that sort before it.
proof fn lemma_entry_put_skip(m: Seq<Entry>, key: Seq<char>, subject: Seq<char>, g: Gathered, q: int)
    requires
        0 <= q <= m.len(),
        forall|i: int| 0 <= i < q ==> crate::text::seq_lt(#[trigger] m[i].0, key),
    ensures
        entry_put(m, key, subject, g) == m.take(q) + entry_put(m.skip(q), key, subject, g),
    decreases q,
{
    if q == 0 {
        assert(m.skip(0) =~= m);
        assert(m.take(0) + entry_put(m, key, subject, g) =~= entry_put(m, key, subject, g));
    } else {
        assert(crate::text::seq_lt(m[0].0, key));
        crate::text::lemma_seq_lt_irrefl(key);
        if crate::text::seq_lt(key, m[0].0) {
            crate::text::lemma_seq_lt_trans(key, m[0].0, key);
        }
        let d = m.drop_first();
        assert forall|i: int| 0 <= i < q - 1 implies crate::text::seq_lt(#[trigger] d[i].0, key) by {
            assert(d[i] == m[i + 1]);
        }
        lemma_entry_put_skip(d, key, subject, g, q - 1);
        assert(d.skip(q - 1) =~= m.skip(q));
        assert(seq![m[0]] + d.take(q - 1) =~= m.take(q));
    }
}

/// Verbalise every Class frame of a document, the frames of one subject merged, in the
/// order of the subjects' IRIs; each class gets up to `k` sentences.
pub fn verbalise_document(doc: &Document, k: usize) -> (r: Vec<ClassVerbalisation>)
    ensures
        crate::text::strictly_sorted(r@.map_values(|c: ClassVerbalisation| c.class@)),
        forall|i: int| 0 <= i < r@.len() ==> (#[trigger] r@[i]).frames@.len() == if k < 5 { k as int } else { 5 },
        r@.len() == doc_entries(vocab_spec(prefixes_view(doc.prefixes@), doc.frames@), prefixes_view(doc.prefixes@), doc@.frames).len(),
        forall|i: int| 0 <= i < r@.len() ==> verbalisation_ok(#[trigger] r@[i], vocab_spec(prefixes_view(doc.prefixes@), doc.frames@), k as nat,
            doc_entries(vocab_spec(prefixes_view(doc.prefixes@), doc.frames@), prefixes_view(doc.prefixes@), doc@.frames)[i]),
{
    let vocab = vocab_of(doc);
    let ghost es = vocab.view_entries();
    let ghost ps = prefixes_view(doc.prefixes@);
    let ghost frames = doc@.frames;
    let mut merged: Vec<(String, Parts)> = Vec::new();
    proof { assert(frames.take(0) =~= Seq::<FrameV>::empty()); assert(entries_of(merged@) =~= Seq::<Entry>::empty()); }
    let mut f: usize = 0;
    while f < doc.frames.len()
        invariant
            f <= doc.frames@.len(),
            es == vocab.view_entries(),
            ps == prefixes_view(doc.prefixes@),
            frames == doc@.frames,
            crate::text::strictly_sorted(merged_keys(merged@)),
            entries_of(merged@) == doc_entries(es, ps, frames.take(f as int)),
        decreases doc.frames@.len() - f,
    {
        let frame = &doc.frames[f];
        let ghost m0 = entries_of(merged@);
        proof {
            let t = frames.take(f + 1);
            assert(t.drop_last() =~= frames.take(f as int));
            assert(t.last() == frame@);
        }
        match parts_of(&vocab, doc, frame) {
            None => {},
            Some(p) => {
                let iri = doc.expand(frame.subject.as_str());
                let ghost pg: (Seq<char>, Gathered) = (p.subject@, (crate::fragment::names_view(p.supers@), cons_view(p.constraints@)));
                let ghost ks = merged_keys(merged@);
                let mut q: usize = 0;
                while q < merged.len()
                    invariant
                        ks == merged_keys(merged@),
                        crate::text::strictly_sorted(ks),
                        q <= ks.len(),
                        forall|i: int| 0 <= i < q ==> crate::text::seq_lt(#[trigger] ks[i], iri@),
                    ensures
                        q <= ks.len(),
                        forall|i: int| 0 <= i < q ==> crate::text::seq_lt(#[trigger] ks[i], iri@),
                        q == ks.len() || crate::text::seq_lt(iri@, ks[q as int]) || ks[q as int] == iri@,
                    decreases ks.len() - q,
                {
                    match crate::text::compare_str(merged[q].0.as_str(), iri.as_str()) {
                        crate::text::Cmp3::Less => {
                            assert(ks[q as int] == merged@[q as int].0@);
                            q += 1;
                        },
                        _ => {
                            assert(ks[q as int] == merged@[q as int].0@);
                            break;
                        },
                    }
                }
                proof {
                    assert forall|i: int| 0 <= i < q implies crate::text::seq_lt(#[trigger] m0[i].0, iri@) by {
                        assert(m0[i].0 == ks[i]);
                    }
                    lemma_entry_put_skip(m0, iri@, pg.0, pg.1, q as int);
                }
                if q < merged.len() && eq_str(merged[q].0.as_str(), iri.as_str()) {
                    let ghost old_q = m0[q as int];
                    let (key, mut existing) = merged.remove(q);
                    merge_parts(&mut existing, p);
                    merged.insert(q, (key, existing));
                    proof {
                        assert(merged_keys(merged@) =~= ks);
                        assert(m0.skip(q as int)[0] == old_q);
                        assert(entry_put(m0.skip(q as int), iri@, pg.0, pg.1) =~= m0.skip(q as int).update(0, (iri@, (old_q.1.0, merge_g(old_q.1.1, pg.1)))));
                        assert(entries_of(merged@) =~= m0.take(q as int) + m0.skip(q as int).update(0, (iri@, (old_q.1.0, merge_g(old_q.1.1, pg.1)))));
                    }
                } else {
                    proof {
                        if q < ks.len() {
                            assert(crate::text::seq_lt(iri@, ks[q as int]));
                        }
                    }
                    let ghost iv = iri@;
                    merged.insert(q, (iri, p));
                    proof {
                        if q < m0.len() {
                            assert(m0.skip(q as int)[0] == m0[q as int]);
                            assert(m0[q as int].0 == ks[q as int]);
                        }
                        assert(entry_put(m0.skip(q as int), iv, pg.0, pg.1) =~= seq![(iv, pg)] + m0.skip(q as int));
                        assert(entries_of(merged@) =~= m0.take(q as int) + (seq![(iv, pg)] + m0.skip(q as int)));
                        let nk = merged_keys(merged@);
                        assert(nk =~= ks.insert(q as int, iv));
                        assert forall|i: int, j: int| 0 <= i < j < nk.len() implies crate::text::seq_lt(#[trigger] nk[i], #[trigger] nk[j]) by {
                            if j < q {
                            } else if j == q {
                            } else if i < q {
                                assert(nk[j] == ks[j - 1]);
                                if j - 1 > q {
                                    crate::text::lemma_seq_lt_trans(iv, ks[q as int], ks[j - 1]);
                                }
                                crate::text::lemma_seq_lt_trans(ks[i], iv, ks[j - 1]);
                            } else if i == q {
                                assert(nk[j] == ks[j - 1]);
                                if j - 1 > q {
                                    crate::text::lemma_seq_lt_trans(iv, ks[q as int], ks[j - 1]);
                                }
                            } else {
                                assert(nk[i] == ks[i - 1]);
                                assert(nk[j] == ks[j - 1]);
                            }
                        }
                    }
                }
            },
        }
        f += 1;
    }
    proof { assert(frames.take(frames.len() as int) =~= frames); }
    let ghost mk = merged_keys(merged@);
    let ghost me = entries_of(merged@);
    let mut out: Vec<ClassVerbalisation> = Vec::new();
    let mut i: usize = 0;
    while i < merged.len()
        invariant
            mk == merged_keys(merged@),
            me == entries_of(merged@),
            es == vocab.view_entries(),
            crate::text::strictly_sorted(mk),
            i <= mk.len(),
            out@.len() == i,
            out@.map_values(|c: ClassVerbalisation| c.class@) == mk.take(i as int),
            forall|j: int| 0 <= j < out@.len() ==> (#[trigger] out@[j]).frames@.len() == if k < 5 { k as int } else { 5 },
            forall|j: int| 0 <= j < out@.len() ==> verbalisation_ok(#[trigger] out@[j], es, k as nat, me[j]),
        decreases mk.len() - i,
    {
        let ghost before = out@;
        let cv = verbalisation_of(&vocab, merged[i].0.clone(), &merged[i].1, k);
        assert(cv.class@ == mk[i as int]);
        assert(me[i as int] == (merged@[i as int].0@, (merged@[i as int].1.subject@, (crate::fragment::names_view(merged@[i as int].1.supers@), cons_view(merged@[i as int].1.constraints@)))));
        out.push(cv);
        proof {
            assert forall|j: int| 0 <= j < out@.len() implies verbalisation_ok(#[trigger] out@[j], es, k as nat, me[j]) by {
                if j < i { assert(out@[j] == before[j]); }
            }
            assert(out@ =~= before.push(out@[i as int]));
            assert(out@.map_values(|c: ClassVerbalisation| c.class@) =~= before.map_values(|c: ClassVerbalisation| c.class@).push(mk[i as int]));
            assert(mk.take(i + 1) =~= mk.take(i as int).push(mk[i as int]));
        }
        i += 1;
    }
    proof { assert(mk.take(mk.len() as int) =~= mk); }
    out
}


/// Up to `k` sentences, at most five.
proof fn lemma_frames_len(pool: Seq<Seq<char>>, k: nat)
    requires
        pool.len() == 5,
    ensures
        forall|rot: int| 0 <= rot < 4 ==> (#[trigger] frames_spec(pool, k, rot)).len() == if k < 5 { k as int } else { 5 },
{
}


/// `v` verbalises entry `e` with up to `k` sentences: its class, its label, and the
/// sentences of its parts rotated by the hash of the class IRI.
pub open spec fn verbalisation_ok(v: ClassVerbalisation, es: Seq<(Seq<char>, Seq<char>)>, k: nat, e: Entry) -> bool {
    &&& v.class@ == e.0
    &&& match lookup(es, e.0) {
        Some(t) => v.label matches Some(l) && l@ == t,
        None => v.label is None,
    }
    &&& crate::fragment::names_view(v.frames@) == frames_spec(
        pool_spec(e.1.0, head_spec(e.1.1.0), e.1.1.1),
        k,
        (fnv_spec(vstd::utf8::encode_utf8(e.0), vstd::utf8::encode_utf8(e.0).len() as int) % 4) as int,
    )
}

/// The verbalisation of one class from its merged parts.
fn verbalisation_of(vocab: &Vocab, class: String, parts: &Parts, k: usize) -> (r: ClassVerbalisation)
    ensures
        r.class@ == class@,
        r.frames@.len() == if k < 5 { k as int } else { 5 },
        verbalisation_ok(r, vocab.view_entries(), k as nat,
            (class@, (parts.subject@, (crate::fragment::names_view(parts.supers@), cons_view(parts.constraints@))))),
{
    let label = vocab.get(class.as_str());
    let fr = frames(parts, k, class.as_str());
    proof {
        lemma_frames_len(
            pool_spec(parts.subject@, head_spec(crate::fragment::names_view(parts.supers@)), cons_view(parts.constraints@)),
            k as nat,
        );
        assert(crate::fragment::names_view(fr@).len() == fr@.len());
    }
    ClassVerbalisation { class, label, frames: fr }
}

} // verus!
