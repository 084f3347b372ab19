//! Manchester document → tiered KFS lowering.
//!
//! Reasoning tier (sound for refutation: every emitted line is entailed by the source; a
//! skip only misses clashes, never invents them):
//!   - atomic superclass conjuncts → `SubClassOf`
//!   - `p some C`, `p exactly/min n≥1 C` (named filler) → `SubClassOfExistential`
//!   - `DisjointWith` atoms and top-level `DisjointClasses:` → pairwise `DisjointClasses`
//!   - ObjectProperty `Domain:`/`Range:` atoms → `PropertyDomain`/`PropertyRange`
//!   - Individual `Types:` atoms → `ClassAssertion`
//!   - everything else skipped with a count (`expr:*`, `section:*`, `frame:*`)
//!
//! Annotation tier (`@`-forms, routed past the calculus): labels, `xsd:` attributes,
//! cardinality bounds, optional relations, keys, unique properties and closed value sets.
//! Entity tokens expand to full IRIs through the document's own prefix declarations.
use vstd::prelude::*;
use crate::manchester::{Document, Expr, ExprV, FrameKind, Section, ev, ev_all, expand_from, prefixes_view};
use crate::manchester::frames::{BlockV, FrameV, SectionV, sections_view};
use crate::manchester::expr::evs;
use crate::text::{cat, chars_of, compare_str, eq_str, fmt_u64, seq_lt, strictly_sorted, Cmp3, trim, decimal};
use crate::fragment::names_view;

verus! {

/// A count per key, kept in key order.
#[derive(Debug)]
pub struct Tally {
    entries: Vec<(String, usize)>,
}

/// The entries of a tally, viewed.
pub open spec fn entries_view(v: Seq<(String, usize)>) -> Seq<(Seq<char>, nat)> {
    v.map_values(|e: (String, usize)| (e.0@, e.1 as nat))
}

/// The keys of viewed entries.
pub open spec fn keys_of(s: Seq<(Seq<char>, nat)>) -> Seq<Seq<char>> {
    s.map_values(|e: (Seq<char>, nat)| e.0)
}

impl View for Tally {
    type V = Seq<(Seq<char>, nat)>;

    closed spec fn view(&self) -> Seq<(Seq<char>, nat)> {
        entries_view(self.entries@)
    }
}

impl Tally {
    /// The keys are strictly sorted, so each occurs once.
    pub open spec fn wf(&self) -> bool {
        strictly_sorted(keys_of(self@))
    }

    /// An empty tally.
    pub fn new() -> (r: Tally)
        ensures
            r@ == Seq::<(Seq<char>, nat)>::empty(),
            r.wf(),
    {
        let r = Tally { entries: Vec::new() };
        assert(r@ =~= Seq::<(Seq<char>, nat)>::empty());
        r
    }

    /// Count one more of `key` (a count that reached `usize::MAX` stays there).
    pub fn bump(&mut self, key: &str)
        requires
            old(self).wf(),
        ensures
            final(self).wf(),
            match keys_of(old(self)@).index_of_first(key@) {
                Some(i) => final(self)@ == old(self)@.update(i, (key@, if old(self)@[i].1 < usize::MAX { old(self)@[i].1 + 1 } else { old(self)@[i].1 })),
                None => exists|p: int| 0 <= p <= old(self)@.len() && final(self)@ == old(self)@.insert(p, (key@, 1nat)),
            },
    {
        let ghost s0 = self@;
        let ghost ks = keys_of(s0);
        let mut p: usize = 0;
        while p < self.entries.len()
            invariant
                s0 == self@,
                ks == keys_of(s0),
                strictly_sorted(ks),
                p <= s0.len(),
                forall|i: int| 0 <= i < p ==> seq_lt(#[trigger] ks[i], key@),
            ensures
                p <= s0.len(),
                forall|i: int| 0 <= i < p ==> seq_lt(#[trigger] ks[i], key@),
                p == s0.len() || seq_lt(key@, ks[p as int]) || ks[p as int] == key@,
            decreases s0.len() - p,
        {
            match compare_str(self.entries[p].0.as_str(), key) {
                Cmp3::Less => {
                    assert(ks[p as int] == self.entries@[p as int].0@);
                    p += 1;
                },
                _ => {
                    assert(ks[p as int] == self.entries@[p as int].0@);
                    break;
                },
            }
        }
        proof {
            assert forall|i: int| 0 <= i < p implies ks[i] != key@ by {
                crate::text::lemma_seq_lt_irrefl(key@);
            }
        }
        if p < self.entries.len() && eq_str(self.entries[p].0.as_str(), key) {
            let c = self.entries[p].1;
            let k = self.entries[p].0.clone();
            let nc = if c < usize::MAX { c + 1 } else { c };
            self.entries.set(p, (k, nc));
            proof {
                assert(ks[p as int] == key@);
                assert(ks.index_of_first(key@) == Some(p as int)) by {
                    ks.index_of_first_ensures(key@);
                    let j = ks.index_of_first(key@)->0;
                    if j < p {
                        assert(ks[j] == key@);
                    } else if j > p {
                        assert(ks[p as int] == key@);
                    }
                }
                assert(self@ =~= s0.update(p as int, (key@, nc as nat)));
                assert(keys_of(self@) =~= ks);
            }
        } else {
            proof {
                ks.index_of_first_ensures(key@);
                if p < s0.len() {
                    assert(seq_lt(key@, ks[p as int]));
                }
                assert forall|i: int| 0 <= i < ks.len() implies ks[i] != key@ by {
                    crate::text::lemma_seq_lt_irrefl(key@);
                    if i > p {
                        crate::text::lemma_seq_lt_trans(key@, ks[p as int], ks[i]);
                    } else if i == p {
                    }
                }
            }
            let k = String::from_str(key);
            self.entries.insert(p, (k, 1));
            proof {
                assert(self@ =~= s0.insert(p as int, (key@, 1nat)));
                let nk = keys_of(self@);
                assert(nk =~= ks.insert(p as int, key@));
                assert forall|i: int, j: int| 0 <= i < j < nk.len() implies seq_lt(#[trigger] nk[i], #[trigger] nk[j]) by {
                    if j < p {
                    } else if j == p {
                    } else if i < p {
                        assert(nk[j] == ks[j - 1]);
                        if j - 1 > p {
                            crate::text::lemma_seq_lt_trans(key@, ks[p as int], ks[j - 1]);
                        }
                        crate::text::lemma_seq_lt_trans(ks[i], key@, ks[j - 1]);
                    } else if i == p {
                        assert(nk[j] == ks[j - 1]);
                        if j - 1 > p {
                            crate::text::lemma_seq_lt_trans(key@, ks[p as int], ks[j - 1]);
                        }
                    } else {
                        assert(nk[i] == ks[i - 1]);
                        assert(nk[j] == ks[j - 1]);
                    }
                }
            }
        }
    }

    /// The count of `key`, if it was ever counted.
    pub fn get(&self, key: &str) -> (r: Option<&usize>)
        ensures
            match keys_of(self@).index_of_first(key@) {
                Some(i) => r matches Some(c) && *c == self@[i].1,
                None => r is None,
            },
    {
        let ghost ks = keys_of(self@);
        let mut i: usize = 0;
        while i < self.entries.len()
            invariant
                ks == keys_of(self@),
                i <= ks.len(),
                forall|j: int| 0 <= j < i ==> ks[j] != key@,
            decreases ks.len() - i,
        {
            if eq_str(self.entries[i].0.as_str(), key) {
                proof {
                    assert(ks[i as int] == key@);
                    ks.index_of_first_ensures(key@);
                    let j = ks.index_of_first(key@)->0;
                    if j > i {
                        assert(ks[i as int] == key@);
                    }
                }
                return Some(&self.entries[i].1);
            }
            assert(ks[i as int] == self.entries@[i as int].0@);
            i += 1;
        }
        proof { ks.index_of_first_ensures(key@); }
        None
    }

    /// The keys and counts, in key order.
    pub fn entries(&self) -> (r: &Vec<(String, usize)>)
        ensures
            entries_view(r@) == self@,
    {
        &self.entries
    }
}


/// Whether the names hold `s`.
pub(crate) fn has(v: &Vec<String>, s: &str) -> (r: bool)
    ensures
        r == names_view(v@).contains(s@),
{
    let mut i: usize = 0;
    while i < v.len()
        invariant
            i <= v@.len(),
            forall|j: int| 0 <= j < i ==> v@[j]@ != s@,
        decreases v@.len() - i,
    {
        if eq_str(v[i].as_str(), s) {
            assert(names_view(v@)[i as int] == s@);
            return true;
        }
        i += 1;
    }
    proof {
        if names_view(v@).contains(s@) {
            let j = choose|j: int| 0 <= j < names_view(v@).len() && names_view(v@)[j] == s@;
            assert(v@[j]@ == s@);
        }
    }
    false
}

/// Add `s` unless it is there already; whether it was added.
fn add_name(v: &mut Vec<String>, s: &str) -> (r: bool)
    ensures
        r == !names_view(old(v)@).contains(s@),
        names_view(final(v)@) == if r { names_view(old(v)@).push(s@) } else { names_view(old(v)@) },
{
    if has(v, s) {
        false
    } else {
        let ghost before = names_view(v@);
        v.push(String::from_str(s));
        assert(names_view(v@) =~= before.push(s@));
        true
    }
}

/// The views of string pairs.
pub open spec fn pairs_of(v: Seq<(String, String)>) -> Seq<(Seq<char>, Seq<char>)> {
    v.map_values(|p: (String, String)| (p.0@, p.1@))
}

/// Add the pair `(a, b)` unless it is there already; whether it was added.
fn add2(v: &mut Vec<(String, String)>, a: &str, b: &str) -> (r: bool)
    ensures
        r == !pairs_of(old(v)@).contains((a@, b@)),
        pairs_of(final(v)@) == if r { pairs_of(old(v)@).push((a@, b@)) } else { pairs_of(old(v)@) },
{
    let ghost pv = pairs_of(v@);
    let mut i: usize = 0;
    while i < v.len()
        invariant
            pv == pairs_of(v@),
            i <= v@.len(),
            forall|j: int| 0 <= j < i ==> pv[j] != (a@, b@),
        decreases v@.len() - i,
    {
        if eq_str(v[i].0.as_str(), a) && eq_str(v[i].1.as_str(), b) {
            assert(pv[i as int] == (a@, b@));
            return false;
        }
        assert(pv[i as int] == (v@[i as int].0@, v@[i as int].1@));
        i += 1;
    }
    v.push((String::from_str(a), String::from_str(b)));
    assert(pairs_of(v@) =~= pv.push((a@, b@)));
    true
}

/// `s` followed by `<x>`.
fn angled(s: String, x: &str) -> (r: String)
    ensures
        r@ == s@ + "<"@ + x@ + ">"@,
{
    cat(cat(cat(s, "<"), x), ">")
}

/// `form <a> <b>`.
fn line2(form: &str, a: &str, b: &str) -> (r: String)
    ensures
        r@ == form@ + " <"@ + a@ + "> <"@ + b@ + ">"@,
{
    cat(cat(cat(cat(cat(String::from_str(form), " <"), a), "> <"), b), ">")
}

/// `form <a> <b> <c>`.
fn line3(form: &str, a: &str, b: &str, c: &str) -> (r: String)
    ensures
        r@ == form@ + " <"@ + a@ + "> <"@ + b@ + "> <"@ + c@ + ">"@,
{
    cat(cat(cat(cat(cat(cat(cat(String::from_str(form), " <"), a), "> <"), b), "> <"), c), ">")
}

/// A value can sit inside a quoted literal of the annotation tier.
pub open spec fn quotable_spec(s: Seq<char>) -> bool {
    !s.contains('"') && !s.contains('#')
}

/// Whether `s` can be quoted.
fn quotable(s: &str) -> (r: bool)
    ensures
        r == quotable_spec(s@),
{
    let v = chars_of(s);
    let mut i: usize = 0;
    while i < v.len()
        invariant
            v@ == s@,
            i <= v@.len(),
            forall|j: int| 0 <= j < i ==> v@[j] != '"' && v@[j] != '#',
        decreases v@.len() - i,
    {
        if v[i] == '"' || v[i] == '#' {
            assert(s@[i as int] == v[i as int]);
            return false;
        }
        i += 1;
    }
    true
}


/// `s` starts with `p`.
pub(crate) fn starts(s: &String, p: &str) -> (r: bool)
    ensures
        r == (p@.len() <= s@.len() && s@.take(p@.len() as int) == p@),
{
    let v = chars_of(s.as_str());
    let pv = chars_of(p);
    if pv.len() > v.len() {
        return false;
    }
    let mut i: usize = 0;
    while i < pv.len()
        invariant
            v@ == s@,
            pv@ == p@,
            pv@.len() <= v@.len(),
            i <= pv@.len(),
            forall|j: int| 0 <= j < i ==> v@[j] == pv@[j],
        decreases pv@.len() - i,
    {
        if v[i] != pv[i] {
            assert(s@.take(p@.len() as int)[i as int] != p@[i as int]);
            return false;
        }
        i += 1;
    }
    assert(s@.take(p@.len() as int) =~= p@);
    true
}

/// The count under `k` (0 when absent).
pub open spec fn count_in(t: Seq<(Seq<char>, nat)>, k: Seq<char>) -> nat
    decreases t.len(),
{
    if t.len() == 0 { 0 } else if t[0].0 == k { t[0].1 } else { count_in(t.drop_first(), k) }
}

/// How often `k` occurs in `log`.
pub open spec fn occurrences(log: Seq<Seq<char>>, k: Seq<char>) -> nat
    decreases log.len(),
{
    if log.len() == 0 { 0 } else { occurrences(log.drop_last(), k) + if log.last() == k { 1nat } else { 0nat } }
}

/// A count that stops at `usize::MAX`.
pub open spec fn capped(n: nat) -> nat {
    if n < usize::MAX { n } else { usize::MAX as nat }
}

/// The tally counts each key of the log, up to `usize::MAX`.
pub open spec fn tallies(t: Seq<(Seq<char>, nat)>, log: Seq<Seq<char>>) -> bool {
    forall|k: Seq<char>| #[trigger] count_in(t, k) == capped(occurrences(log, k))
}

/// With distinct keys, the count under the key at `i` is its entry's.
proof fn lemma_count_at(t: Seq<(Seq<char>, nat)>, i: int)
    requires
        strictly_sorted(keys_of(t)),
        0 <= i < t.len(),
    ensures
        count_in(t, t[i].0) == t[i].1,
    decreases t.len(),
{
    if i > 0 {
        assert(keys_of(t)[0] == t[0].0 && keys_of(t)[i] == t[i].0);
        assert(seq_lt(keys_of(t)[0], keys_of(t)[i]));
        if t[0].0 == t[i].0 { crate::text::lemma_seq_lt_irrefl(t[0].0); }
        let u = t.drop_first();
        assert(keys_of(u) =~= keys_of(t).drop_first());
        assert(u[i - 1] == t[i]);
        lemma_count_at(u, i - 1);
    }
}

/// A key not in the tally counts 0.
proof fn lemma_count_absent(t: Seq<(Seq<char>, nat)>, k: Seq<char>)
    requires
        !keys_of(t).contains(k),
    ensures
        count_in(t, k) == 0,
    decreases t.len(),
{
    if t.len() > 0 {
        assert(keys_of(t)[0] == t[0].0);
        let u = t.drop_first();
        assert forall|j: int| 0 <= j < keys_of(u).len() implies keys_of(u)[j] != k by {
            assert(keys_of(u)[j] == keys_of(t)[j + 1]);
        }
        lemma_count_absent(u, k);
    }
}

/// The count of a key, by whether it is present.
proof fn lemma_count(t: Seq<(Seq<char>, nat)>, k: Seq<char>)
    requires
        strictly_sorted(keys_of(t)),
    ensures
        keys_of(t).contains(k) ==> exists|i: int| 0 <= i < t.len() && t[i].0 == k && count_in(t, k) == t[i].1,
        !keys_of(t).contains(k) ==> count_in(t, k) == 0,
{
    if keys_of(t).contains(k) {
        let i = choose|i: int| 0 <= i < keys_of(t).len() && keys_of(t)[i] == k;
        lemma_count_at(t, i);
    } else {
        lemma_count_absent(t, k);
    }
}

/// A bump adds one under its key (up to `usize::MAX`) and leaves the others.
proof fn lemma_bump_counts(t0: Seq<(Seq<char>, nat)>, t1: Seq<(Seq<char>, nat)>, key: Seq<char>)
    requires
        strictly_sorted(keys_of(t0)),
        strictly_sorted(keys_of(t1)),
        match keys_of(t0).index_of_first(key) {
            Some(i) => t1 == t0.update(i, (key, if t0[i].1 < usize::MAX { t0[i].1 + 1 } else { t0[i].1 })),
            None => exists|p: int| 0 <= p <= t0.len() && t1 == t0.insert(p, (key, 1nat)),
        },
    ensures
        forall|k: Seq<char>| #[trigger] count_in(t1, k)
            == if k == key { if count_in(t0, key) < usize::MAX { count_in(t0, key) + 1 } else { count_in(t0, key) } } else { count_in(t0, k) },
{
    keys_of(t0).index_of_first_ensures(key);
    assert forall|k: Seq<char>| #[trigger] count_in(t1, k)
        == if k == key { if count_in(t0, key) < usize::MAX { count_in(t0, key) + 1 } else { count_in(t0, key) } } else { count_in(t0, k) } by {
        lemma_count(t0, k);
        lemma_count(t1, k);
        lemma_count(t0, key);
        match keys_of(t0).index_of_first(key) {
            Some(i) => {
                assert(keys_of(t0)[i] == key);
                lemma_count_at(t0, i);
                lemma_count_at(t1, i);
                assert(t1[i] == (key, if t0[i].1 < usize::MAX { t0[i].1 + 1 } else { t0[i].1 }));
                if k != key {
                    if keys_of(t0).contains(k) {
                        let j = choose|j: int| 0 <= j < t0.len() && t0[j].0 == k && count_in(t0, k) == t0[j].1;
                        assert(t1[j] == t0[j]);
                        lemma_count_at(t1, j);
                    } else {
                        assert forall|j: int| 0 <= j < keys_of(t1).len() implies keys_of(t1)[j] != k by {
                            if j != i { assert(t1[j] == t0[j]); assert(keys_of(t0)[j] == t0[j].0); }
                        }
                        lemma_count_absent(t1, k);
                    }
                }
            },
            None => {
                let p = choose|p: int| 0 <= p <= t0.len() && t1 == t0.insert(p, (key, 1nat));
                assert(!keys_of(t0).contains(key));
                assert(t1[p] == (key, 1nat));
                lemma_count_at(t1, p);
                if k != key {
                    if keys_of(t0).contains(k) {
                        let j = choose|j: int| 0 <= j < t0.len() && t0[j].0 == k && count_in(t0, k) == t0[j].1;
                        if j < p { assert(t1[j] == t0[j]); lemma_count_at(t1, j); } else { assert(t1[j + 1] == t0[j]); lemma_count_at(t1, j + 1); }
                    } else {
                        assert forall|j: int| 0 <= j < keys_of(t1).len() implies keys_of(t1)[j] != k by {
                            if j < p { assert(t1[j] == t0[j]); assert(keys_of(t0)[j] == t0[j].0); }
                            else if j > p { assert(t1[j] == t0[j - 1]); assert(keys_of(t0)[j - 1] == t0[j - 1].0); }
                        }
                        lemma_count_absent(t1, k);
                    }
                }
            },
        }
    }
}

/// The lowering state: the emitted lines of both tiers with their source lines, the
/// counters, and what has been seen.
struct Ctx {
    axioms: Vec<String>,
    annotations: Vec<String>,
    ax_lines: Vec<usize>,
    ann_lines: Vec<usize>,
    cur_line: usize,
    skipped: Tally,
    constructs: Tally,
    seen_labels: Vec<String>,
    seen_attrs: Vec<(String, String)>,
    seen_cards: Vec<(String, String, u32, Option<u32>)>,
    seen_card_ann: Vec<(String, String)>,
    seen_enums: Vec<String>,
    seen_rels: Vec<(String, String)>,
    seen_keys: Vec<String>,
    identifier_props: Vec<String>,
    conflicts: Vec<String>,
    skip_log: Ghost<Seq<Seq<char>>>,
    stat_log: Ghost<Seq<Seq<char>>>,
}

/// The annotation tier and what it has seen: emitted lines, labelled subjects,
/// `(class, property)` pairs with an attribute, cardinality keys with their bounds,
/// `(class, property)` pairs with a cardinality line, enumerated properties or subjects,
/// `(class, property)` pairs with a relation, and classes with a key.
pub struct AnnSt {
    pub anns: Seq<Seq<char>>,
    pub labels: Seq<Seq<char>>,
    pub attrs: Seq<(Seq<char>, Seq<char>)>,
    pub cards: Seq<(Seq<char>, Seq<char>, u32, Option<u32>)>,
    pub card_ann: Seq<(Seq<char>, Seq<char>)>,
    pub enums: Seq<Seq<char>>,
    pub rels: Seq<(Seq<char>, Seq<char>)>,
    pub keys: Seq<Seq<char>>,
    pub conflicts: Seq<Seq<char>>,
    pub skips: Seq<Seq<char>>,
    pub stats: Seq<Seq<char>>,
}

/// `st` with a skipped construct `k` counted.
pub open spec fn skip_ev(st: AnnSt, k: Seq<char>) -> AnnSt {
    AnnSt { skips: st.skips.push(k), ..st }
}

/// `st` with a construct `k` counted.
pub open spec fn stat_ev(st: AnnSt, k: Seq<char>) -> AnnSt {
    AnnSt { stats: st.stats.push(k), ..st }
}

/// `st` with line `l` emitted.
pub open spec fn emit_ann(st: AnnSt, l: Seq<char>) -> AnnSt {
    AnnSt { anns: st.anns.push(l), ..st }
}

/// The bounds recorded first for `(subject, key)`.
pub open spec fn card_lookup4(v: Seq<(Seq<char>, Seq<char>, u32, Option<u32>)>, subject: Seq<char>, key: Seq<char>) -> Option<(u32, Option<u32>)>
    decreases v.len(),
{
    if v.len() == 0 {
        None
    } else if v[0].0 == subject && v[0].1 == key {
        Some((v[0].2, v[0].3))
    } else {
        card_lookup4(v.drop_first(), subject, key)
    }
}

/// The label line of `subject`.
pub open spec fn label_line(subject: Seq<char>, text: Seq<char>) -> Seq<char> {
    "@Label "@ + "<"@ + subject + ">"@ + " \""@ + text + "\""@
}

/// A label for `subject`: the first quotable one is kept.
pub open spec fn label_step(st: AnnSt, subject: Seq<char>, text: Seq<char>) -> AnnSt {
    if !quotable_spec(text) {
        skip_ev(st, "label:unquotable"@)
    } else if st.labels.contains(subject) {
        st
    } else {
        AnnSt { labels: st.labels.push(subject), anns: st.anns.push(label_line(subject, text)), ..st }
    }
}

/// An optional relation of `subject` over `property` to `filler` (none to a datatype; the
/// first per `(subject, property)`).
pub open spec fn relation_step(st: AnnSt, ps: Seq<(Seq<char>, Seq<char>)>, subject: Seq<char>, property: Seq<char>, filler: Seq<char>) -> AnnSt {
    let p = expand_from(ps, property, 0);
    let f = expand_from(ps, filler, 0);
    if crate::manchester::frames::starts(f, "xsd:"@) || crate::manchester::frames::starts(f, "http://www.w3.org/2001/XMLSchema#"@)
        || st.rels.contains((subject, p)) {
        st
    } else {
        stat_ev(AnnSt { rels: st.rels.push((subject, p)), anns: st.anns.push(line3_spec("@Relation"@, subject, p, f)), ..st }, "relation_optional"@)
    }
}

/// The cardinality line of `(subject, p)`.
pub open spec fn card_line(subject: Seq<char>, p: Seq<char>, min: u32, max: Option<u32>) -> Seq<char> {
    "@Cardinality "@ + "<"@ + subject + ">"@ + " "@ + "<"@ + p + ">"@ + " "@ + decimal(min as nat) + " "@
        + match max { Some(m) => decimal(m as nat), None => "*"@ }
}

/// Cardinality bounds on `subject`'s `property` (to `filler`, if named): the first bounds of
/// each `(subject, property, filler)` are recorded, and the first of each
/// `(subject, property)` goes to the annotation tier.
pub open spec fn card_step(st: AnnSt, ps: Seq<(Seq<char>, Seq<char>)>, subject: Seq<char>, property: Seq<char>, min: u32, max: Option<u32>, filler: Option<Seq<char>>) -> AnnSt {
    let p = expand_from(ps, property, 0);
    let fkey = match filler { Some(f) => expand_from(ps, f, 0), None => Seq::empty() };
    let key = p + "|"@ + fkey;
    let st0 = match max {
        Some(m) => if min > m { AnnSt { conflicts: st.conflicts.push(bound_conflict(subject, p, min, m)), ..st } } else { st },
        None => st,
    };
    match card_lookup4(st0.cards, subject, key) {
        Some((pmin, pmax)) => if (pmin != min || pmax != max) && bounds_clash(pmin, pmax, min, max) {
            AnnSt { conflicts: st0.conflicts.push(clash_conflict(subject, p, pmin, pmax, min, max)), ..st0 }
        } else {
            st0
        },
        None => {
            let st1 = AnnSt { cards: st0.cards.push((subject, key, min, max)), ..st0 };
            if st1.card_ann.contains((subject, p)) {
                st1
            } else {
                stat_ev(AnnSt { card_ann: st1.card_ann.push((subject, p)), anns: st1.anns.push(card_line(subject, p, min, max)), ..st1 },
                    if min > 1 || match max { Some(m) => m > 1, None => false } { "cardinality_many"@ } else { "cardinality_one"@ })
            }
        },
    }
}

/// The conflict of bounds `min > max` on `(subject, p)`.
pub open spec fn bound_conflict(subject: Seq<char>, p: Seq<char>, min: u32, max: u32) -> Seq<char> {
    "<"@ + subject + ">"@ + " "@ + "<"@ + p + ">"@ + ": min "@ + decimal(min as nat) + " > max "@ + decimal(max as nat)
        + " — unsatisfiable bound"@
}

/// Two bounds whose combined interval is empty.
pub open spec fn bounds_clash(pmin: u32, pmax: Option<u32>, min: u32, max: Option<u32>) -> bool {
    let cmin = if pmin > min { pmin } else { min };
    match (pmax, max) {
        (Some(a), Some(b)) => cmin > (if a < b { a } else { b }),
        (Some(a), None) => cmin > a,
        (None, Some(b)) => cmin > b,
        (None, None) => false,
    }
}

/// The conflict of earlier bounds `(pmin, pmax)` with `(min, max)` on `(subject, p)`.
pub open spec fn clash_conflict(subject: Seq<char>, p: Seq<char>, pmin: u32, pmax: Option<u32>, min: u32, max: Option<u32>) -> Seq<char> {
    "<"@ + subject + ">"@ + " "@ + "<"@ + p + ">"@ + ": conflicting bounds ("@ + decimal(pmin as nat) + ".."@
        + match pmax { Some(m) => decimal(m as nat), None => "*"@ } + ") vs ("@ + decimal(min as nat) + ".."@
        + match max { Some(m) => decimal(m as nat), None => "*"@ } + ") — combined interval empty ⇒ class unsatisfiable"@
}


impl Ctx {
    /// The annotation tier and what it has seen.
    spec fn ann_st(&self) -> AnnSt {
        AnnSt {
            anns: names_view(self.annotations@),
            labels: names_view(self.seen_labels@),
            attrs: pairs_of(self.seen_attrs@),
            cards: self.seen_cards@.map_values(|e: (String, String, u32, Option<u32>)| (e.0@, e.1@, e.2, e.3)),
            card_ann: pairs_of(self.seen_card_ann@),
            enums: names_view(self.seen_enums@),
            rels: pairs_of(self.seen_rels@),
            keys: names_view(self.seen_keys@),
            conflicts: names_view(self.conflicts@),
            skips: self.skip_log@,
            stats: self.stat_log@,
        }
    }

    /// Each emitted line has its source line, and the counters are well formed.
    spec fn wf(&self) -> bool {
        &&& self.axioms@.len() == self.ax_lines@.len()
        &&& self.annotations@.len() == self.ann_lines@.len()
        &&& self.skipped.wf()
        &&& self.constructs.wf()
        &&& tallies(self.skipped@, self.skip_log@)
        &&& tallies(self.constructs@, self.stat_log@)
    }

    /// Emit a reasoning-tier line.
    fn ax(&mut self, line: String)
        requires
            old(self).wf(),
        ensures
            final(self).identifier_props == old(self).identifier_props,
            final(self).wf(),
            names_view(final(self).axioms@) == names_view(old(self).axioms@).push(line@),
            final(self).annotations == old(self).annotations,
            final(self).ann_st() == old(self).ann_st(),
    {
        let ghost before = names_view(self.axioms@);
        let ghost lv = line@;
        self.axioms.push(line);
        self.ax_lines.push(self.cur_line);
        assert(names_view(self.axioms@) =~= before.push(lv));
    }

    /// Emit an annotation-tier line.
    fn ann(&mut self, line: String)
        requires
            old(self).wf(),
        ensures
            final(self).identifier_props == old(self).identifier_props,
            final(self).wf(),
            names_view(final(self).annotations@) == names_view(old(self).annotations@).push(line@),
            final(self).axioms == old(self).axioms,
            final(self).ann_st() == emit_ann(old(self).ann_st(), line@),
    {
        let ghost before = names_view(self.annotations@);
        let ghost lv = line@;
        self.annotations.push(line);
        self.ann_lines.push(self.cur_line);
        assert(names_view(self.annotations@) =~= before.push(lv));
    }

    /// Count a lowering path the input exercised.
    fn stat(&mut self, key: &str)
        requires
            old(self).wf(),
        ensures
            final(self).identifier_props == old(self).identifier_props,
            final(self).wf(),
            final(self).axioms == old(self).axioms,
            final(self).annotations == old(self).annotations,
            final(self).ann_st() == stat_ev(old(self).ann_st(), key@),
    {
        let ghost t0 = self.constructs@;
        self.constructs.bump(key);
        proof {
            lemma_bump_counts(t0, self.constructs@, key@);
            let l0 = self.stat_log@;
            self.stat_log = Ghost(l0.push(key@));
            assert(self.stat_log@.drop_last() =~= l0);
            assert forall|k: Seq<char>| #[trigger] count_in(self.constructs@, k) == capped(occurrences(self.stat_log@, k)) by {
                assert(count_in(t0, k) == capped(occurrences(l0, k)));
            }
        }
    }

    /// Count a construct that was skipped.
    fn skip(&mut self, key: &str)
        requires
            old(self).wf(),
        ensures
            final(self).identifier_props == old(self).identifier_props,
            final(self).wf(),
            final(self).axioms == old(self).axioms,
            final(self).annotations == old(self).annotations,
            final(self).ann_st() == skip_ev(old(self).ann_st(), key@),
    {
        let ghost t0 = self.skipped@;
        self.skipped.bump(key);
        proof {
            lemma_bump_counts(t0, self.skipped@, key@);
            let l0 = self.skip_log@;
            self.skip_log = Ghost(l0.push(key@));
            assert(self.skip_log@.drop_last() =~= l0);
            assert forall|k: Seq<char>| #[trigger] count_in(self.skipped@, k) == capped(occurrences(self.skip_log@, k)) by {
                assert(count_in(t0, k) == capped(occurrences(l0, k)));
            }
        }
    }

    /// A label for `subject`: the first quotable one is kept; an unquotable one is counted.
    fn label(&mut self, subject: &str, text: &str)
        requires
            old(self).wf(),
        ensures
            final(self).identifier_props == old(self).identifier_props,
            final(self).wf(),
            final(self).axioms == old(self).axioms,
            final(self).ann_st() == label_step(old(self).ann_st(), subject@, text@),
    {
        if !quotable(text) {
            self.skip("label:unquotable");
            return;
        }
        if add_name(&mut self.seen_labels, subject) {
            let l = cat(cat(angled(String::from_str("@Label "), subject), " \""), text);
            let l2 = cat(l, "\"");
            assert(l2@ =~= label_line(subject@, text@));
            self.ann(l2);
        }
    }

    /// An optional (non-existential) relation from a `max`/`only` restriction.
    fn relation(&mut self, doc: &Document, subject: &str, property: &str, filler: &str)
        requires
            old(self).wf(),
        ensures
            final(self).identifier_props == old(self).identifier_props,
            final(self).wf(),
            final(self).axioms == old(self).axioms,
            final(self).ann_st() == relation_step(old(self).ann_st(), prefixes_view(doc.prefixes@), subject@, property@, filler@),
    {
        let p = doc.expand(property);
        let f = doc.expand(filler);
        if starts(&f, "xsd:") || starts(&f, "http://www.w3.org/2001/XMLSchema#") {
            return;
        }
        if add2(&mut self.seen_rels, subject, p.as_str()) {
            self.ann(line3("@Relation", subject, p.as_str(), f.as_str()));
            self.stat("relation_optional");
        }
    }

    /// The bounds recorded for `(subject, key)`, if any.
    fn card_get(&self, subject: &str, key: &str) -> (r: Option<(u32, Option<u32>)>)
        ensures
            r == card_lookup4(self.ann_st().cards, subject@, key@),
    {
        let ghost w = self.ann_st().cards;
        assert(w.skip(0) =~= w);
        let mut i: usize = 0;
        while i < self.seen_cards.len()
            invariant
                i <= self.seen_cards@.len(),
                w == self.ann_st().cards,
                card_lookup4(w, subject@, key@) == card_lookup4(w.skip(i as int), subject@, key@),
            decreases self.seen_cards@.len() - i,
        {
            proof {
                assert(w.skip(i as int)[0] == w[i as int]);
                assert(w.skip(i as int).drop_first() =~= w.skip(i + 1));
            }
            if eq_str(self.seen_cards[i].0.as_str(), subject) && eq_str(self.seen_cards[i].1.as_str(), key) {
                return Some((self.seen_cards[i].2, self.seen_cards[i].3));
            }
            i += 1;
        }
        None
    }

    /// Cardinality bounds on `(subject, property)`: the first bounds go to the annotation
    /// tier; bounds that cannot both hold are reported as a conflict.
    fn card(&mut self, doc: &Document, subject: &str, property: &str, min: u32, max: Option<u32>, filler: Option<&String>)
        requires
            old(self).wf(),
        ensures
            final(self).identifier_props == old(self).identifier_props,
            final(self).wf(),
            final(self).axioms == old(self).axioms,
            final(self).ann_st() == card_step(old(self).ann_st(), prefixes_view(doc.prefixes@), subject@, property@, min, max,
                match filler { Some(f) => Some(f@), None => None }),
    {
        let p = doc.expand(property);
        let fkey = match filler {
            Some(f) => doc.expand(f.as_str()),
            None => String::new(),
        };
        let key = cat(cat(p.clone(), "|"), fkey.as_str());
        let ghost st_in = self.ann_st();
        match max {
            Some(m) => {
                if min > m {
                    let c = angled(cat(angled(String::new(), subject), " "), p.as_str());
                    let c = cat(cat(cat(c, ": min "), fmt_u64(min as u64).as_str()), " > max ");
                    let c = cat(cat(c, fmt_u64(m as u64).as_str()), " — unsatisfiable bound");
                    assert(c@ =~= bound_conflict(subject@, p@, min, m));
                    let ghost cv = c@;
                    self.conflicts.push(c);
                    assert(names_view(self.conflicts@) =~= st_in.conflicts.push(cv));
                }
            },
            None => {},
        }
        let ghost st0 = self.ann_st();
        match self.card_get(subject, key.as_str()) {
            None => {
                let ghost kv = key@;
                let ghost cw = self.ann_st().cards;
                self.seen_cards.push((String::from_str(subject), key, min, max));
                proof {
                    assert(self.ann_st().cards =~= cw.push((subject@, kv, min, max)));
                    assert(self.ann_st() == AnnSt { cards: st0.cards.push((subject@, kv, min, max)), ..st0 });
                }
                if add2(&mut self.seen_card_ann, subject, p.as_str()) {
                    let mx = match max {
                        Some(m) => fmt_u64(m as u64),
                        None => String::from_str("*"),
                    };
                    let l = angled(cat(angled(String::from_str("@Cardinality "), subject), " "), p.as_str());
                    let l = cat(cat(cat(cat(l, " "), fmt_u64(min as u64).as_str()), " "), mx.as_str());
                    assert(l@ =~= card_line(subject@, p@, min, max));
                    self.ann(l);
                    let many = min > 1 || match max { Some(m) => m > 1, None => false };
                    self.stat(if many { "cardinality_many" } else { "cardinality_one" });
                }
            },
            Some((pmin, pmax)) => {
                if pmin != min || pmax != max {
                    let cmin = if pmin > min { pmin } else { min };
                    let cmax = match (pmax, max) {
                        (Some(a), Some(b)) => Some(if a < b { a } else { b }),
                        (Some(a), None) => Some(a),
                        (None, b) => b,
                    };
                    let empty = match cmax { Some(m) => cmin > m, None => false };
                    assert(empty == bounds_clash(pmin, pmax, min, max));
                    if empty {
                        let pm = match pmax { Some(m) => fmt_u64(m as u64), None => String::from_str("*") };
                        let mm = match max { Some(m) => fmt_u64(m as u64), None => String::from_str("*") };
                        proof { reveal_strlit("*"); }
                        let c = angled(cat(angled(String::new(), subject), " "), p.as_str());
                        let c = cat(cat(cat(c, ": conflicting bounds ("), fmt_u64(pmin as u64).as_str()), "..");
                        let c = cat(cat(cat(c, pm.as_str()), ") vs ("), fmt_u64(min as u64).as_str());
                        let c = cat(cat(cat(c, ".."), mm.as_str()), ") — combined interval empty ⇒ class unsatisfiable");
                        assert(c@ =~= clash_conflict(subject@, p@, pmin, pmax, min, max));
                        let ghost cv = c@;
                        self.conflicts.push(c);
                        assert(names_view(self.conflicts@) =~= st0.conflicts.push(cv));
                    }
                }
            },
        }
    }
}



/// `form <a> <b>`.
pub open spec fn line2_spec(form: Seq<char>, a: Seq<char>, b: Seq<char>) -> Seq<char> {
    form + " <"@ + a + "> <"@ + b + ">"@
}

/// `form <a> <b> <c>`.
pub open spec fn line3_spec(form: Seq<char>, a: Seq<char>, b: Seq<char>, c: Seq<char>) -> Seq<char> {
    form + " <"@ + a + "> <"@ + b + "> <"@ + c + ">"@
}

/// The reasoning-tier line of `subject ⊑ ∃p.f`: for a named filler that is not an
/// enumeration class (`ok` lists those), else none.
pub open spec fn exist_axioms(ps: Seq<(Seq<char>, Seq<char>)>, ok: Seq<Seq<char>>, subject: Seq<char>, p: Seq<char>, f: ExprV) -> Seq<Seq<char>> {
    match f {
        ExprV::Named(n) => {
            let fx = expand_from(ps, n, 0);
            if ok.contains(fx) {
                Seq::empty()
            } else {
                seq![line3_spec("SubClassOfExistential"@, subject, expand_from(ps, p, 0), fx)]
            }
        },
        _ => Seq::empty(),
    }
}

/// The reasoning-tier lines of one superclass-position conjunct of `subject`: a named class
/// is a `SubClassOf`; `some`, and `exactly`/`min` with a bound of at least one, give an
/// existential; a conjunction lowers each part; anything else gives nothing.
pub open spec fn conj_axioms(ps: Seq<(Seq<char>, Seq<char>)>, ok: Seq<Seq<char>>, subject: Seq<char>, e: ExprV) -> Seq<Seq<char>>
    decreases e,
{
    match e {
        ExprV::Named(n) => seq![line2_spec("SubClassOf"@, subject, expand_from(ps, n, 0))],
        ExprV::Exists(p, f) => exist_axioms(ps, ok, subject, p, *f),
        ExprV::Exactly(p, n, f) => if n >= 1 {
            match f {
                Some(g) => exist_axioms(ps, ok, subject, p, *g),
                None => Seq::empty(),
            }
        } else {
            Seq::empty()
        },
        ExprV::Min(p, n, f) => if n >= 1 {
            match f {
                Some(g) => exist_axioms(ps, ok, subject, p, *g),
                None => Seq::empty(),
            }
        } else {
            Seq::empty()
        },
        ExprV::And(xs) => seq_axioms(ps, ok, subject, xs),
        _ => Seq::empty(),
    }
}

/// `p min n g` with `n ≥ 1` entails `p some g`: its reasoning-tier lines are those of
/// `p some g` — for a named filler that is no enumeration, the line
/// `SubClassOfExistential <subject> <p> <g>` — and with `n = 1` so are its annotation lines.
pub proof fn lemma_min_entails_some(ps: Seq<(Seq<char>, Seq<char>)>, ok: Seq<Seq<char>>, om: Seq<(Seq<char>, Seq<Seq<char>>)>,
    ids: Seq<Seq<char>>, st: AnnSt, subject: Seq<char>, p: Seq<char>, n: u32, g: ExprV)
    requires
        n >= 1,
    ensures
        conj_axioms(ps, ok, subject, ExprV::Min(p, n, Some(Box::new(g)))) == conj_axioms(ps, ok, subject, ExprV::Exists(p, Box::new(g))),
        forall|c: Seq<char>| g == ExprV::Named(c) && !ok.contains(#[trigger] expand_from(ps, c, 0))
            ==> conj_axioms(ps, ok, subject, ExprV::Min(p, n, Some(Box::new(g))))
                == seq!["SubClassOfExistential <"@ + subject + "> <"@ + expand_from(ps, p, 0) + "> <"@ + expand_from(ps, c, 0) + ">"@],
        n == 1 ==> conj_ann(st, ps, om, ids, subject, ExprV::Min(p, n, Some(Box::new(g))))
            == conj_ann(st, ps, om, ids, subject, ExprV::Exists(p, Box::new(g))),
{
    reveal_strlit("SubClassOfExistential");
    reveal_strlit(" <");
    reveal_strlit("> <");
    reveal_strlit(">");
    assert forall|c: Seq<char>| g == ExprV::Named(c) && !ok.contains(#[trigger] expand_from(ps, c, 0))
        implies conj_axioms(ps, ok, subject, ExprV::Min(p, n, Some(Box::new(g))))
            == seq!["SubClassOfExistential <"@ + subject + "> <"@ + expand_from(ps, p, 0) + "> <"@ + expand_from(ps, c, 0) + ">"@] by {
        reveal_strlit("SubClassOfExistential <");
        assert(line3_spec("SubClassOfExistential"@, subject, expand_from(ps, p, 0), expand_from(ps, c, 0))
            =~= "SubClassOfExistential <"@ + subject + "> <"@ + expand_from(ps, p, 0) + "> <"@ + expand_from(ps, c, 0) + ">"@);
    }
}

/// What the reasoning tier keeps of a bounded restriction: `exactly n g` with `n ≥ 1` entails
/// `p some g` and lowers like it; a bound of zero (`min 0`, `exactly 0`), any `max` and any
/// `only` entail no existential and put nothing in the reasoning tier.
pub proof fn lemma_bounded_axioms(ps: Seq<(Seq<char>, Seq<char>)>, ok: Seq<Seq<char>>, subject: Seq<char>, p: Seq<char>, n: u32,
    f: Option<Box<ExprV>>, g: ExprV)
    ensures
        n >= 1 ==> conj_axioms(ps, ok, subject, ExprV::Exactly(p, n, Some(Box::new(g))))
            == conj_axioms(ps, ok, subject, ExprV::Exists(p, Box::new(g))),
        conj_axioms(ps, ok, subject, ExprV::Min(p, 0, f)).len() == 0,
        conj_axioms(ps, ok, subject, ExprV::Exactly(p, 0, f)).len() == 0,
        conj_axioms(ps, ok, subject, ExprV::Max(p, n, f)).len() == 0,
        conj_axioms(ps, ok, subject, ExprV::Only(p, Box::new(g))).len() == 0,
{
}

/// The annotation lines of `b` extend those of `a`.
pub open spec fn anns_grow(a: AnnSt, b: AnnSt) -> bool {
    b.anns.len() >= a.anns.len() && forall|i: int| 0 <= i < a.anns.len() ==> #[trigger] b.anns[i] == a.anns[i]
}

/// An existential's annotation lines only add to those before it.
proof fn lemma_exist_ann_grows(st: AnnSt, ps: Seq<(Seq<char>, Seq<char>)>, om: Seq<(Seq<char>, Seq<Seq<char>>)>, ids: Seq<Seq<char>>,
    subject: Seq<char>, property: Seq<char>, f: ExprV)
    ensures
        anns_grow(st, exist_ann(st, ps, om, ids, subject, property, f)),
{
    let r = exist_ann(st, ps, om, ids, subject, property, f);
    assert forall|i: int| 0 <= i < st.anns.len() implies #[trigger] r.anns[i] == st.anns[i] by {
        match f {
            ExprV::Named(n) => {
                let p = expand_from(ps, property, 0);
                let fx = expand_from(ps, n, 0);
                match crate::shapes::list_lookup(om, fx) {
                    Some(vals) => {
                        let st1 = attr_step(st, subject, p, "http://www.w3.org/2001/XMLSchema#string"@);
                        assert(st1.anns[i] == st.anns[i]);
                    },
                    None => {
                        let st0 = attr_step(st, subject, p, fx);
                        assert(st0.anns[i] == st.anns[i]);
                    },
                }
            },
            _ => {},
        }
    }
}

/// The cardinality line of `(subject, p)` as written: `@Cardinality <subject> <p> min max`,
/// `*` for no upper bound.
pub open spec fn told_card_line(subject: Seq<char>, p: Seq<char>, min: Seq<char>, max: Seq<char>) -> Seq<char> {
    "@Cardinality <"@ + subject + "> <"@ + p + "> "@ + min + " "@ + max
}

/// Bounded restrictions record their bounds: on a subject with no bounds recorded yet,
/// `p exactly n g` adds `@Cardinality <subject> <p> n n` as the next annotation line,
/// `p min n g` with `n ≥ 2` adds `n *`, and `p max n g` adds `0 n`.
pub proof fn lemma_bounds_recorded(st: AnnSt, ps: Seq<(Seq<char>, Seq<char>)>, om: Seq<(Seq<char>, Seq<Seq<char>>)>, ids: Seq<Seq<char>>,
    subject: Seq<char>, p: Seq<char>, n: u32, g: Option<Box<ExprV>>)
    requires
        forall|key: Seq<char>| #[trigger] card_lookup4(st.cards, subject, key) is None,
        !st.card_ann.contains((subject, expand_from(ps, p, 0))),
    ensures
        ({
            let r = conj_ann(st, ps, om, ids, subject, ExprV::Exactly(p, n, g));
            r.anns.len() > st.anns.len() && r.anns[st.anns.len() as int]
                == told_card_line(subject, expand_from(ps, p, 0), decimal(n as nat), decimal(n as nat))
        }),
        n >= 2 ==> ({
            let r = conj_ann(st, ps, om, ids, subject, ExprV::Min(p, n, g));
            r.anns.len() > st.anns.len() && r.anns[st.anns.len() as int]
                == told_card_line(subject, expand_from(ps, p, 0), decimal(n as nat), "*"@)
        }),
        ({
            let r = conj_ann(st, ps, om, ids, subject, ExprV::Max(p, n, g));
            r.anns.len() > st.anns.len() && r.anns[st.anns.len() as int]
                == told_card_line(subject, expand_from(ps, p, 0), decimal(0), decimal(n as nat))
        }),
{
    let pe = expand_from(ps, p, 0);
    let fk = match named_of(g) { Some(f) => expand_from(ps, f, 0), None => Seq::empty() };
    assert(card_lookup4(st.cards, subject, pe + "|"@ + fk) is None);
    reveal_strlit("@Cardinality ");
    reveal_strlit("<");
    reveal_strlit(">");
    reveal_strlit(" ");
    reveal_strlit("@Cardinality <");
    reveal_strlit("> <");
    reveal_strlit("> ");
    reveal_strlit("*");
    let k = st.anns.len() as int;
    // exactly
    let s1 = card_step(st, ps, subject, p, n, Some(n), named_of(g));
    assert(s1.anns == st.anns.push(card_line(subject, pe, n, Some(n))));
    assert(card_line(subject, pe, n, Some(n)) =~= told_card_line(subject, pe, decimal(n as nat), decimal(n as nat)));
    if n >= 1 {
        match g {
            Some(h) => lemma_exist_ann_grows(s1, ps, om, ids, subject, p, *h),
            None => {},
        }
    }
    let r1 = conj_ann(st, ps, om, ids, subject, ExprV::Exactly(p, n, g));
    assert(anns_grow(s1, r1));
    assert(r1.anns[k] == s1.anns[k]);
    // min
    if n >= 2 {
        let s2 = card_step(st, ps, subject, p, n, None, named_of(g));
        assert(s2.anns == st.anns.push(card_line(subject, pe, n, None)));
        assert(card_line(subject, pe, n, None) =~= told_card_line(subject, pe, decimal(n as nat), "*"@));
        match g {
            Some(h) => lemma_exist_ann_grows(s2, ps, om, ids, subject, p, *h),
            None => {},
        }
        let r2 = conj_ann(st, ps, om, ids, subject, ExprV::Min(p, n, g));
        assert(anns_grow(s2, r2));
        assert(r2.anns[k] == s2.anns[k]);
    }
    // max
    let s3 = card_step(st, ps, subject, p, 0, Some(n), named_of(g));
    assert(s3.anns == st.anns.push(card_line(subject, pe, 0, Some(n))));
    assert(card_line(subject, pe, 0, Some(n)) =~= told_card_line(subject, pe, decimal(0), decimal(n as nat)));
    let r3 = conj_ann(st, ps, om, ids, subject, ExprV::Max(p, n, g));
    assert(anns_grow(s3, r3));
    assert(r3.anns[k] == s3.anns[k]);
}

/// The reasoning-tier lines of a sequence of conjuncts, in order.
pub open spec fn seq_axioms(ps: Seq<(Seq<char>, Seq<char>)>, ok: Seq<Seq<char>>, subject: Seq<char>, xs: Seq<ExprV>) -> Seq<Seq<char>>
    decreases xs,
{
    if xs.len() == 0 {
        Seq::empty()
    } else {
        seq_axioms(ps, ok, subject, xs.subrange(0, xs.len() - 1)) + conj_axioms(ps, ok, subject, xs[xs.len() - 1])
    }
}

/// The enumeration classes recorded, by name.
pub open spec fn oneof_keys(v: Seq<(String, Vec<String>)>) -> Seq<Seq<char>> {
    v.map_values(|e: (String, Vec<String>)| e.0@)
}

/// `ks` with `c` added at the end unless it is there already.
pub open spec fn add_key(ks: Seq<Seq<char>>, c: Seq<char>) -> Seq<Seq<char>> {
    if ks.contains(c) { ks } else { ks.push(c) }
}

/// The values of the enumeration class `c`, if it is one.
fn oneof_get(oneof: &Vec<(String, Vec<String>)>, c: &str) -> (r: Option<Vec<String>>)
    ensures
        r is Some <==> oneof_keys(oneof@).contains(c@),
        match crate::shapes::list_lookup(crate::shapes::enums_view(oneof@), c@) {
            Some(v) => r matches Some(x) && names_view(x@) == v,
            None => r is None,
        },
{
    let ghost w = crate::shapes::enums_view(oneof@);
    assert(w.skip(0) =~= w);
    let mut i: usize = 0;
    while i < oneof.len()
        invariant
            i <= oneof@.len(),
            w == crate::shapes::enums_view(oneof@),
            forall|j: int| 0 <= j < i ==> oneof@[j].0@ != c@,
            crate::shapes::list_lookup(w, c@) == crate::shapes::list_lookup(w.skip(i as int), c@),
        decreases oneof@.len() - i,
    {
        proof {
            assert(w.skip(i as int)[0] == w[i as int]);
            assert(w.skip(i as int).drop_first() =~= w.skip(i + 1));
        }
        if eq_str(oneof[i].0.as_str(), c) {
            assert(oneof_keys(oneof@)[i as int] == c@);
            let src = &oneof[i].1;
            let mut out: Vec<String> = Vec::new();
            let mut j: usize = 0;
            while j < src.len()
                invariant
                    j <= src@.len(),
                    names_view(out@) == names_view(src@).take(j as int),
                decreases src@.len() - j,
            {
                let ghost before = names_view(out@);
                out.push(src[j].clone());
                proof {
                    assert(names_view(out@) =~= before.push(src@[j as int]@));
                    assert(names_view(src@).take(j + 1) =~= names_view(src@).take(j as int).push(src@[j as int]@));
                }
                j += 1;
            }
            proof { assert(names_view(src@).take(src@.len() as int) =~= names_view(src@)); }
            return Some(out);
        }
        i += 1;
    }
    proof {
        if oneof_keys(oneof@).contains(c@) {
            let j = choose|j: int| 0 <= j < oneof_keys(oneof@).len() && oneof_keys(oneof@)[j] == c@;
            assert(oneof@[j].0@ == c@);
        }
    }
    None
}

/// Record the enumeration class `c` with its values (a later record replaces one before).
fn oneof_set(oneof: &mut Vec<(String, Vec<String>)>, c: String, vals: Vec<String>)
    ensures
        oneof_keys(final(oneof)@) == add_key(oneof_keys(old(oneof)@), c@),
        crate::shapes::enums_view(final(oneof)@) == set_enum(crate::shapes::enums_view(old(oneof)@), c@, names_view(vals@)),
{
    let ghost ks = oneof_keys(oneof@);
    let ghost m = crate::shapes::enums_view(oneof@);
    let ghost cv = c@;
    let ghost vv = names_view(vals@);
    let mut i: usize = 0;
    while i < oneof.len()
        invariant
            ks == oneof_keys(oneof@),
            ks == oneof_keys(old(oneof)@),
            m == crate::shapes::enums_view(old(oneof)@),
            oneof@ == old(oneof)@,
            cv == c@,
            vv == names_view(vals@),
            i <= oneof@.len(),
            forall|j: int| 0 <= j < i ==> oneof@[j].0@ != c@,
        decreases oneof@.len() - i,
    {
        if eq_str(oneof[i].0.as_str(), c.as_str()) {
            assert(ks[i as int] == cv);
            assert(ks.contains(cv));
            proof {
                assert(m[i as int].0 == cv);
                assert(forall|j: int| 0 <= j < i ==> m[j].0 != cv);
                let i2 = choose|i2: int| 0 <= i2 < m.len() && m[i2].0 == cv && forall|j: int| 0 <= j < i2 ==> m[j].0 != cv;
                if i2 < i { assert(m[i2].0 != cv); }
                if i2 > i { assert(m[i as int].0 != cv); }
                assert(i2 == i);
            }
            oneof.set(i, (c, vals));
            assert(oneof_keys(oneof@) =~= ks);
            assert(crate::shapes::enums_view(oneof@) =~= m.update(i as int, (cv, vv)));
            return;
        }
        i += 1;
    }
    proof {
        if ks.contains(c@) {
            let j = choose|j: int| 0 <= j < ks.len() && ks[j] == c@;
            assert(oneof@[j].0@ == c@);
        }
        if exists|i2: int| 0 <= i2 < m.len() && m[i2].0 == cv {
            let i2 = choose|i2: int| 0 <= i2 < m.len() && m[i2].0 == cv;
            assert(oneof@[i2].0@ == cv);
        }
    }
    oneof.push((c, vals));
    assert(oneof_keys(oneof@) =~= ks.push(cv));
    assert(crate::shapes::enums_view(oneof@) =~= m.push((cv, vv)));
}

/// The quotable values, each quoted.
pub open spec fn quoted_of(vals: Seq<Seq<char>>) -> Seq<Seq<char>>
    decreases vals.len(),
{
    if vals.len() == 0 {
        Seq::empty()
    } else {
        quoted_of(vals.drop_last()) + if quotable_spec(vals.last()) { seq!["\""@ + vals.last() + "\""@] } else { Seq::empty() }
    }
}

/// The enumeration line of `p` with quoted values `q`.
pub open spec fn enum_line(p: Seq<char>, q: Seq<Seq<char>>) -> Seq<char> {
    "@Enum "@ + "<"@ + p + ">"@ + " "@ + join_spec(q, " "@)
}

/// `st` with the attribute line of `(subject, p)` of datatype `x`, unless it has one.
pub open spec fn attr_step(st: AnnSt, subject: Seq<char>, p: Seq<char>, x: Seq<char>) -> AnnSt {
    if st.attrs.contains((subject, p)) {
        st
    } else {
        AnnSt { attrs: st.attrs.push((subject, p)), anns: st.anns.push(line3_spec("@Attribute"@, subject, p, x)), ..st }
    }
}

/// The annotation lines of `subject ⊑ ∃property.f` (`om` the enumeration classes with
/// their values, `ids` the identifier properties): an enumeration class filler gives a
/// string attribute and, first for the property, its values; a datatype filler gives an
/// attribute and, over an identifier property, the class's key.
pub open spec fn exist_ann(st: AnnSt, ps: Seq<(Seq<char>, Seq<char>)>, om: Seq<(Seq<char>, Seq<Seq<char>>)>, ids: Seq<Seq<char>>, subject: Seq<char>, property: Seq<char>, f: ExprV) -> AnnSt {
    match f {
        ExprV::Named(n) => {
            let p = expand_from(ps, property, 0);
            let fx = expand_from(ps, n, 0);
            match crate::shapes::list_lookup(om, fx) {
                Some(vals) => {
                    let st1 = attr_step(st, subject, p, "http://www.w3.org/2001/XMLSchema#string"@);
                    if st1.enums.contains(p) {
                        st1
                    } else {
                        let st2 = AnnSt { enums: st1.enums.push(p), ..st1 };
                        if quoted_of(vals).len() >= 2 { stat_ev(emit_ann(st2, enum_line(p, quoted_of(vals))), "k4_oneof_enum"@) } else { st2 }
                    }
                },
                None => if crate::manchester::frames::starts(n, "xsd:"@) || crate::manchester::frames::starts(fx, "http://www.w3.org/2001/XMLSchema#"@) {
                    let st0 = attr_step(st, subject, p, fx);
                    let st1 = if st.attrs.contains((subject, p)) { st0 } else { stat_ev(st0, "data_restriction"@) };
                    if ids.contains(p) && !st1.keys.contains(subject) {
                        stat_ev(AnnSt { keys: st1.keys.push(subject), anns: st1.anns.push(line2_spec("@Key"@, subject, p)), ..st1 }, "k3_identifier_key"@)
                    } else {
                        st1
                    }
                } else {
                    st
                },
            }
        },
        _ => skip_ev(st, "expr:nested"@),
    }
}

/// The name of a named filler.
pub open spec fn named_of(f: Option<Box<ExprV>>) -> Option<Seq<char>> {
    match f {
        Some(b) => match *b {
            ExprV::Named(x) => Some(x),
            _ => None,
        },
        None => None,
    }
}

/// The annotation lines of one superclass-position conjunct of `subject`.
pub open spec fn conj_ann(st: AnnSt, ps: Seq<(Seq<char>, Seq<char>)>, om: Seq<(Seq<char>, Seq<Seq<char>>)>, ids: Seq<Seq<char>>, subject: Seq<char>, e: ExprV) -> AnnSt
    decreases e,
{
    match e {
        ExprV::Exists(p, f) => exist_ann(st, ps, om, ids, subject, p, *f),
        ExprV::Exactly(p, n, f) => {
            let st1 = card_step(st, ps, subject, p, n, Some(n), named_of(f));
            if n >= 1 {
                match f {
                    Some(g) => exist_ann(st1, ps, om, ids, subject, p, *g),
                    None => skip_ev(st1, "expr:bare-cardinality"@),
                }
            } else {
                skip_ev(st1, "expr:max0"@)
            }
        },
        ExprV::Min(p, n, f) => {
            let st1 = if n > 1 { card_step(st, ps, subject, p, n, None, named_of(f)) } else { st };
            if n >= 1 {
                match f {
                    Some(g) => exist_ann(st1, ps, om, ids, subject, p, *g),
                    None => skip_ev(st1, "expr:bare-cardinality"@),
                }
            } else {
                skip_ev(st1, "expr:min0"@)
            }
        },
        ExprV::Max(p, n, f) => {
            let st1 = card_step(st, ps, subject, p, 0, Some(n), named_of(f));
            let st2 = if n > 0 {
                match named_of(f) {
                    Some(x) => relation_step(st1, ps, subject, p, x),
                    None => st1,
                }
            } else {
                st1
            };
            skip_ev(st2, if n == 0 { "expr:max0"@ } else { "expr:max"@ })
        },
        ExprV::Only(p, f) => skip_ev(match *f {
            ExprV::Named(x) => relation_step(st, ps, subject, p, x),
            _ => st,
        }, "expr:only"@),
        ExprV::And(xs) => seq_ann(st, ps, om, ids, subject, xs),
        ExprV::HasValue(_, _) => skip_ev(st, "expr:value"@),
        ExprV::Not(_) => skip_ev(st, "expr:not"@),
        ExprV::Or(_) => skip_ev(st, "expr:or"@),
        ExprV::OneOf(_) => skip_ev(st, "expr:oneof"@),
        ExprV::Named(_) => st,
    }
}

/// The annotation lines of a sequence of conjuncts, in order.
pub open spec fn seq_ann(st: AnnSt, ps: Seq<(Seq<char>, Seq<char>)>, om: Seq<(Seq<char>, Seq<Seq<char>>)>, ids: Seq<Seq<char>>, subject: Seq<char>, xs: Seq<ExprV>) -> AnnSt
    decreases xs,
{
    if xs.len() == 0 {
        st
    } else {
        conj_ann(seq_ann(st, ps, om, ids, subject, xs.subrange(0, xs.len() - 1)), ps, om, ids, subject, xs[xs.len() - 1])
    }
}

impl Ctx {
    /// `subject ⊑ ∃property.filler` for a named filler; any other filler is skipped.
    fn lower_existential(&mut self, doc: &Document, oneof: &Vec<(String, Vec<String>)>, subject: &str, property: &str, filler: &Expr)
        requires
            old(self).wf(),
        ensures
            final(self).wf(),
            names_view(final(self).axioms@) == names_view(old(self).axioms@)
                + exist_axioms(prefixes_view(doc.prefixes@), oneof_keys(oneof@), subject@, property@, ev(*filler)),
            final(self).identifier_props == old(self).identifier_props,
            final(self).ann_st() == exist_ann(old(self).ann_st(), prefixes_view(doc.prefixes@), crate::shapes::enums_view(oneof@),
                names_view(old(self).identifier_props@), subject@, property@, ev(*filler)),
    {
        match filler {
            Expr::Named(f) => {
                let p = doc.expand(property);
                let f_x = doc.expand(f.as_str());
                match oneof_get(oneof, f_x.as_str()) {
                    Some(vals) => {
                        if add2(&mut self.seen_attrs, subject, p.as_str()) {
                            self.ann(line3("@Attribute", subject, p.as_str(), "http://www.w3.org/2001/XMLSchema#string"));
                        }
                        if add_name(&mut self.seen_enums, p.as_str()) {
                            let quoted = quote_all(&vals);
                            if quoted.len() >= 2 {
                                let l = cat(angled(String::from_str("@Enum "), p.as_str()), " ");
                                let l2 = cat(l, join(&quoted, " ").as_str());
                                assert(l2@ =~= enum_line(p@, names_view(quoted@)));
                                self.ann(l2);
                                self.stat("k4_oneof_enum");
                            }
                        }
                        return;
                    },
                    None => {},
                }
                self.ax(line3("SubClassOfExistential", subject, p.as_str(), f_x.as_str()));
                if starts(f, "xsd:") || starts(&f_x, "http://www.w3.org/2001/XMLSchema#") {
                    if add2(&mut self.seen_attrs, subject, p.as_str()) {
                        self.ann(line3("@Attribute", subject, p.as_str(), f_x.as_str()));
                        self.stat("data_restriction");
                    }
                    if has(&self.identifier_props, p.as_str()) && add_name(&mut self.seen_keys, subject) {
                        self.ann(line2("@Key", subject, p.as_str()));
                        self.stat("k3_identifier_key");
                    }
                }
            },
            _ => self.skip("expr:nested"),
        }
    }

    /// Lower one superclass-position conjunct of `subject` (already expanded).
    fn lower_conjunct(&mut self, doc: &Document, oneof: &Vec<(String, Vec<String>)>, subject: &str, conj: &Expr)
        requires
            old(self).wf(),
        ensures
            final(self).wf(),
            names_view(final(self).axioms@) == names_view(old(self).axioms@)
                + conj_axioms(prefixes_view(doc.prefixes@), oneof_keys(oneof@), subject@, ev(*conj)),
            final(self).identifier_props == old(self).identifier_props,
            final(self).ann_st() == conj_ann(old(self).ann_st(), prefixes_view(doc.prefixes@), crate::shapes::enums_view(oneof@),
                names_view(old(self).identifier_props@), subject@, ev(*conj)),
        decreases conj,
    {
        match conj {
            Expr::Named(n) => {
                let n = doc.expand(n.as_str());
                self.ax(line2("SubClassOf", subject, n.as_str()));
            },
            Expr::Exists { property, filler } => self.lower_existential(doc, oneof, subject, property.as_str(), filler),
            Expr::Exactly { property, n, filler } => {
                let fname = named_filler(filler);
                self.card(doc, subject, property.as_str(), *n, Some(*n), fname);
                if *n >= 1 {
                    match filler {
                        Some(f) => self.lower_existential(doc, oneof, subject, property.as_str(), f),
                        None => self.skip("expr:bare-cardinality"),
                    }
                } else {
                    self.skip("expr:max0");
                }
            },
            Expr::Min { property, n, filler } => {
                if *n > 1 {
                    let fname = named_filler(filler);
                    self.card(doc, subject, property.as_str(), *n, None, fname);
                }
                if *n >= 1 {
                    match filler {
                        Some(f) => self.lower_existential(doc, oneof, subject, property.as_str(), f),
                        None => self.skip("expr:bare-cardinality"),
                    }
                } else {
                    self.skip("expr:min0");
                }
            },
            Expr::Max { property, n, filler } => {
                let fname = named_filler(filler);
                self.card(doc, subject, property.as_str(), 0, Some(*n), fname);
                if *n > 0 {
                    match fname {
                        Some(f) => self.relation(doc, subject, property.as_str(), f.as_str()),
                        None => {},
                    }
                }
                self.skip(if *n == 0 { "expr:max0" } else { "expr:max" });
            },
            Expr::Only { property, filler } => {
                proof { assert(ev(*conj) == ExprV::Only(property@, Box::new(ev(**filler)))); }
                match &**filler {
                    Expr::Named(f) => {
                        assert(ev(**filler) == ExprV::Named(f@));
                        self.relation(doc, subject, property.as_str(), f.as_str());
                    },
                    _ => {
                        assert(!(ev(**filler) is Named));
                    },
                }
                self.skip("expr:only");
            },
            Expr::HasValue { .. } => self.skip("expr:value"),
            Expr::Not(_) => self.skip("expr:not"),
            Expr::Or(_) => self.skip("expr:or"),
            Expr::OneOf(_) => self.skip("expr:oneof"),
            Expr::And(parts) => {
                let ghost ps = prefixes_view(doc.prefixes@);
                let ghost ok = oneof_keys(oneof@);
                let ghost base = names_view(self.axioms@);
                let ghost xs = ev_all(*parts);
                let ghost st0 = self.ann_st();
                let ghost ids = names_view(self.identifier_props@);
                let ghost om = crate::shapes::enums_view(oneof@);
                proof { assert(xs.subrange(0, 0) =~= Seq::<ExprV>::empty()); }
                let mut i: usize = 0;
                while i < parts.len()
                    invariant
                        self.wf(),
                        i <= parts@.len(),
                        *conj == Expr::And(*parts),
                        xs == ev_all(*parts),
                        xs.len() == parts@.len(),
                        ps == prefixes_view(doc.prefixes@),
                        ok == oneof_keys(oneof@),
                        om == crate::shapes::enums_view(oneof@),
                        ids == names_view(self.identifier_props@),
                        self.identifier_props == old(self).identifier_props,
                        names_view(self.axioms@) == base + seq_axioms(ps, ok, subject@, xs.subrange(0, i as int)),
                        self.ann_st() == seq_ann(st0, ps, om, ids, subject@, xs.subrange(0, i as int)),
                    decreases parts@.len() - i,
                {
                    proof {
                        let ps0 = conj->And_0;
                        assert(ps0 == *parts);
                        assert(decreases_to!(*conj => ps0));
                        assert(decreases_to!(ps0 => ps0@));
                        assert(decreases_to!(ps0@ => ps0@[i as int]));
                    }
                    let ghost before = names_view(self.axioms@);
                    self.lower_conjunct(doc, oneof, subject, &parts[i]);
                    proof {
                        let sub = xs.subrange(0, i + 1);
                        assert(sub.subrange(0, sub.len() - 1) =~= xs.subrange(0, i as int));
                        assert(sub[sub.len() - 1] == ev(parts@[i as int]));
                        assert(names_view(self.axioms@) =~= base + seq_axioms(ps, ok, subject@, sub));
                        assert(self.ann_st() == seq_ann(st0, ps, om, ids, subject@, sub));
                    }
                    i += 1;
                }
                proof { assert(xs.subrange(0, xs.len() as int) =~= xs); }
            },
        }
    }
}

/// The quotable values, each quoted.
fn quote_all(vals: &Vec<String>) -> (r: Vec<String>)
    ensures
        names_view(r@) == quoted_of(names_view(vals@)),
{
    let ghost vv = names_view(vals@);
    let mut quoted: Vec<String> = Vec::new();
    proof { assert(names_view(quoted@) =~= quoted_of(vv.take(0))); }
    let mut j: usize = 0;
    while j < vals.len()
        invariant
            j <= vals@.len(),
            vv == names_view(vals@),
            names_view(quoted@) == quoted_of(vv.take(j as int)),
        decreases vals@.len() - j,
    {
        let ghost before = names_view(quoted@);
        proof {
            let t = vv.take(j + 1);
            assert(t.drop_last() =~= vv.take(j as int));
            assert(t.last() == vals@[j as int]@);
        }
        if quotable(vals[j].as_str()) {
            quoted.push(cat(cat(String::from_str("\""), vals[j].as_str()), "\""));
            proof { assert(names_view(quoted@) =~= before + seq!["\""@ + vv[j as int] + "\""@]); }
        } else {
            proof { assert(before + Seq::<Seq<char>>::empty() =~= before); }
        }
        j += 1;
    }
    proof { assert(vv.take(vv.len() as int) =~= vv); }
    quoted
}

/// An optional filler, viewed.
pub open spec fn ev_opt(filler: Option<Box<Expr>>) -> Option<Box<ExprV>> {
    match filler {
        Some(f) => Some(Box::new(ev(*f))),
        None => None,
    }
}

/// The name of a named filler.
fn named_filler(filler: &Option<Box<Expr>>) -> (r: Option<&String>)
    ensures
        match named_of(ev_opt(*filler)) {
            Some(x) => r matches Some(s) && s@ == x,
            None => r is None,
        },
{
    match filler {
        Some(f) => match &**f {
            Expr::Named(x) => Some(x),
            _ => None,
        },
        None => None,
    }
}

/// The strings joined by `sep`.
pub open spec fn join_spec(v: Seq<Seq<char>>, sep: Seq<char>) -> Seq<char>
    decreases v.len(),
{
    if v.len() == 0 {
        Seq::empty()
    } else if v.len() == 1 {
        v[0]
    } else {
        join_spec(v.drop_last(), sep) + sep + v.last()
    }
}

/// The strings joined by `sep` (`[String]::join`).
pub(crate) fn join(v: &Vec<String>, sep: &str) -> (r: String)
    ensures
        r@ == join_spec(names_view(v@), sep@),
{
    let ghost vv = names_view(v@);
    let mut out = String::new();
    let mut i: usize = 0;
    proof { assert(vv.take(0) =~= Seq::<Seq<char>>::empty()); }
    while i < v.len()
        invariant
            vv == names_view(v@),
            i <= vv.len(),
            out@ == join_spec(vv.take(i as int), sep@),
        decreases vv.len() - i,
    {
        proof {
            assert(vv.take(i + 1).drop_last() =~= vv.take(i as int));
            assert(vv.take(i + 1).last() == v@[i as int]@);
        }
        if i > 0 {
            out = cat(out, sep);
        }
        out = cat(out, v[i].as_str());
        proof {
            if i == 0 {
                assert(vv.take(1) =~= seq![v@[0]@]);
                assert(out@ =~= v@[0]@);
            }
        }
        i += 1;
    }
    proof { assert(vv.take(vv.len() as int) =~= vv); }
    out
}


/// A lowercase ASCII letter.
pub open spec fn lower_letter(c: char) -> bool {
    'a' <= c && c <= 'z'
}

/// A value a definition may enumerate: 2 to 21 characters of lowercase letters, digits and
/// spaces, starting with a letter, and no filler word.
pub open spec fn enum_value_ok(p: Seq<char>) -> bool {
    &&& 2 <= p.len() <= 21
    &&& lower_letter(p[0])
    &&& forall|i: int| 0 <= i < p.len() ==> lower_letter(#[trigger] p[i]) || ('0' <= p[i] && p[i] <= '9') || p[i] == ' '
    &&& p != "an"@ && p != "of"@ && p != "etc"@ && p != "such"@ && p != "value"@ && p != "the"@
}

/// `c` in ASCII lowercase.
pub open spec fn to_lower_spec(c: char) -> char {
    if 'A' <= c && c <= 'Z' { ((c as u8) + 32) as char } else { c }
}

/// `s` in ASCII lowercase.
pub open spec fn lower_seq(s: Seq<char>) -> Seq<char> {
    s.map_values(|c: char| to_lower_spec(c))
}

/// `c` in ASCII lowercase.
fn to_lower(c: char) -> (r: char)
    ensures
        r == to_lower_spec(c),
{
    if 'A' <= c && c <= 'Z' {
        ((c as u8) + 32) as char
    } else {
        c
    }
}

/// `v[a..b]` in ASCII lowercase.
fn lower_range(v: &Vec<char>, a: usize, b: usize) -> (r: Vec<char>)
    requires
        a <= b <= v@.len(),
    ensures
        r@ == lower_seq(v@.subrange(a as int, b as int)),
{
    let mut out: Vec<char> = Vec::new();
    let mut i = a;
    while i < b
        invariant
            a <= i <= b <= v@.len(),
            out@ == lower_seq(v@.subrange(a as int, i as int)),
        decreases b - i,
    {
        out.push(to_lower(v[i]));
        i += 1;
        assert(out@ =~= lower_seq(v@.subrange(a as int, i as int)));
    }
    out
}

/// `p` occurs in `s` at `i`.
pub open spec fn occurs_at_spec(s: Seq<char>, i: int, p: Seq<char>) -> bool {
    0 <= i && p.len() <= s.len() - i && s.subrange(i, i + p.len()) == p
}

/// Whether `pat` occurs in `v` at `i`.
fn occurs_at(v: &Vec<char>, i: usize, pat: &str) -> (r: bool)
    requires
        i <= v@.len(),
    ensures
        r == occurs_at_spec(v@, i as int, pat@),
{
    let pv = chars_of(pat);
    let vl = v.len();
    if pv.len() > vl - i {
        return false;
    }
    let mut k: usize = 0;
    while k < pv.len()
        invariant
            vl == v@.len(),
            i <= v@.len(),
            k <= pv@.len(),
            pv@ == pat@,
            pv@.len() <= v@.len() - i,
            forall|m: int| 0 <= m < k ==> v@[i + m] == pv@[m],
        decreases pv@.len() - k,
    {
        if v[i + k] != pv[k] {
            assert(v@.subrange(i as int, i + pv@.len())[k as int] != pat@[k as int]);
            return false;
        }
        k += 1;
    }
    assert(v@.subrange(i as int, i + pv@.len()) =~= pat@);
    true
}

/// `find_char` lands between its bounds.
pub proof fn lemma_find_char_range(s: Seq<char>, a: int, b: int, c: char)
    requires
        a <= b,
    ensures
        a <= find_char(s, a, b, c) <= b,
    decreases b - a,
{
    if a < b && s[a] != c {
        lemma_find_char_range(s, a + 1, b, c);
    }
}

/// The first index from `a` on (before `b`) holding `c`, else `b`.
pub open spec fn find_char(s: Seq<char>, a: int, b: int, c: char) -> int
    decreases b - a,
{
    if a >= b { b } else if s[a] == c { a } else { find_char(s, a + 1, b, c) }
}

/// The first index at or after `a` (before `b`) holding `c`, else `b`.
fn find_from(v: &Vec<char>, a: usize, b: usize, c: char) -> (r: usize)
    requires
        a <= b <= v@.len(),
    ensures
        a <= r <= b,
        r < b ==> v@[r as int] == c,
        r == find_char(v@, a as int, b as int, c),
        forall|j: int| a <= j < r ==> v@[j] != c,
{
    let mut i = a;
    while i < b && v[i] != c
        invariant
            a <= i <= b <= v@.len(),
            find_char(v@, a as int, b as int, c) == find_char(v@, i as int, b as int, c),
            forall|j: int| a <= j < i ==> v@[j] != c,
        decreases b - i,
    {
        i += 1;
    }
    i
}

/// Whether `v[a..b]` holds `c`.
fn holds(v: &Vec<char>, a: usize, b: usize, c: char) -> (r: bool)
    requires
        a <= b <= v@.len(),
    ensures
        r == v@.subrange(a as int, b as int).contains(c),
{
    let f = find_from(v, a, b, c);
    proof {
        let t = v@.subrange(a as int, b as int);
        if f < b {
            assert(t[f - a] == c);
        } else if t.contains(c) {
            let j = choose|j: int| 0 <= j < t.len() && t[j] == c;
            assert(v@[a + j] == c);
        }
    }
    f < b
}

/// The first index from `i` on at which `p` occurs in `s`.
pub open spec fn first_occ(s: Seq<char>, p: Seq<char>, i: int) -> Option<int>
    decreases s.len() + 1 - i,
{
    if i < 0 || i > s.len() {
        None
    } else if occurs_at_spec(s, i, p) {
        Some(i)
    } else {
        first_occ(s, p, i + 1)
    }
}

/// A first occurrence found from `i` on is an occurrence at or after `i`.
proof fn lemma_first_occ(s: Seq<char>, p: Seq<char>, i: int)
    ensures
        first_occ(s, p, i) matches Some(j) ==> i <= j && occurs_at_spec(s, j, p),
    decreases s.len() + 1 - i,
{
    if 0 <= i <= s.len() && !occurs_at_spec(s, i, p) {
        lemma_first_occ(s, p, i + 1);
    }
}

/// Whether `pat` occurs anywhere in `v`.
fn occurs(v: &Vec<char>, pat: &str) -> (r: bool)
    ensures
        r == first_occ(v@, pat@, 0) is Some,
{
    let mut i: usize = 0;
    while i <= v.len()
        invariant
            i <= v@.len() + 1,
            first_occ(v@, pat@, 0) == first_occ(v@, pat@, i as int),
        decreases v@.len() + 1 - i,
    {
        if occurs_at(v, i, pat) {
            return true;
        }
        if i == v.len() {
            assert(first_occ(v@, pat@, i + 1) is None);
            return false;
        }
        i += 1;
    }
    false
}

/// The first index at which `pat` occurs in `v`.
fn find_seq(v: &Vec<char>, pat: &str) -> (r: Option<usize>)
    ensures
        match first_occ(v@, pat@, 0) {
            Some(i) => r == Some(i as usize),
            None => r is None,
        },
        r matches Some(i) ==> i <= v@.len(),
{
    let mut i: usize = 0;
    while i <= v.len()
        invariant
            i <= v@.len() + 1,
            first_occ(v@, pat@, 0) == first_occ(v@, pat@, i as int),
        decreases v@.len() + 1 - i,
    {
        if occurs_at(v, i, pat) {
            return Some(i);
        }
        if i == v.len() {
            assert(first_occ(v@, pat@, i + 1) is None);
            return None;
        }
        i += 1;
    }
    None
}

/// Whether `s` is one of the enumerated values so far.
fn has_chars(vals: &Vec<String>, s: &String) -> (r: bool)
    ensures
        r == names_view(vals@).contains(s@),
{
    has(vals, s.as_str())
}

/// A parenthetical that only illustrates (its lowercase text starts "e.g", "i.e",
/// "such as", "including" or "for example").
pub open spec fn illustrative(low: Seq<char>) -> bool {
    crate::manchester::frames::starts(low, "e.g"@) || crate::manchester::frames::starts(low, "i.e"@)
        || crate::manchester::frames::starts(low, "such as"@) || crate::manchester::frames::starts(low, "including"@)
        || crate::manchester::frames::starts(low, "for example"@)
}

/// A group that reads as a list: it holds `,`, `/` or `|`, or " or ".
pub open spec fn listy(grp: Seq<char>) -> bool {
    grp.contains(',') || grp.contains('/') || grp.contains('|') || first_occ(lower_seq(grp), " or "@, 0) is Some
}

/// The first non-illustrative list-like parenthetical of `d` from index `r` on (trimmed).
pub open spec fn paren_from(d: Seq<char>, r: int) -> Option<Seq<char>>
    decreases d.len() - r,
{
    if r < 0 || r >= d.len() {
        None
    } else {
        let o = find_char(d, r, d.len() as int, '(');
        proof { lemma_find_char_range(d, r, d.len() as int, '('); }
        if o >= d.len() {
            None
        } else {
            let c = find_char(d, o + 1, d.len() as int, ')');
            proof { lemma_find_char_range(d, o + 1, d.len() as int, ')'); }
            if c >= d.len() || c < o + 1 {
                None
            } else {
                let grp = trim(d.subrange(o + 1, c));
                if !illustrative(lower_seq(grp)) && listy(grp) { Some(grp) } else { paren_from(d, c + 1) }
            }
        }
    }
}

/// The cue words that introduce a value list, in the order they are tried.
pub open spec fn cue_spec(k: int) -> Seq<char> {
    if k == 0 { "one of"@ } else if k == 1 { "values"@ } else if k == 2 { "value"@ } else if k == 3 { "statuses"@ }
    else if k == 4 { "status"@ } else if k == 5 { "states"@ } else { "state"@ }
}

/// The `k`-th cue word.
fn cue(k: usize) -> (r: &'static str)
    ensures
        r@ == cue_spec(k as int),
{
    if k == 0 { "one of" } else if k == 1 { "values" } else if k == 2 { "value" } else if k == 3 { "statuses" }
    else if k == 4 { "status" } else if k == 5 { "states" } else { "state" }
}

/// The first index from `j` on that is not whitespace.
pub open spec fn skip_ws(d: Seq<char>, j: int) -> int
    decreases d.len() - j,
{
    if 0 <= j < d.len() && crate::text::is_ws(d[j]) { skip_ws(d, j + 1) } else { j }
}

/// A character a value list after a cue may hold.
pub open spec fn list_char(c: char) -> bool {
    ('a' <= c && c <= 'z') || ('A' <= c && c <= 'Z') || ('0' <= c && c <= '9') || c == ' ' || c == ',' || c == '/' || c == '|'
}

/// The end of the run of list characters from `e` on.
pub open spec fn list_end(d: Seq<char>, e: int) -> int
    decreases d.len() - e,
{
    if 0 <= e < d.len() && list_char(d[e]) { list_end(d, e + 1) } else { e }
}

/// The list after the first occurrence of cue `cue` in `d` (case-insensitively), when a
/// `:` or `-` follows it and the list has more than one character.
pub open spec fn cue_list(d: Seq<char>, cue: Seq<char>) -> Option<Seq<char>> {
    match first_occ(lower_seq(d), cue, 0) {
        None => None,
        Some(i) => {
            let j = skip_ws(d, i + cue.len());
            if 0 <= j < d.len() && (d[j] == ':' || d[j] == '-') {
                let e = list_end(d, j + 1);
                if trim(d.subrange(j + 1, e)).len() > 1 { Some(d.subrange(j + 1, e)) } else { None }
            } else {
                None
            }
        },
    }
}

/// The first cue from the `k`-th on with a list.
pub open spec fn cues_from(d: Seq<char>, k: int) -> Option<Seq<char>>
    decreases 7 - k,
{
    if k < 0 || k >= 7 {
        None
    } else {
        match cue_list(d, cue_spec(k)) {
            Some(l) => Some(l),
            None => cues_from(d, k + 1),
        }
    }
}

/// The candidate text of a definition: its first non-illustrative list-like
/// parenthetical, else the list after the first cue that has one.
pub open spec fn enum_candidate_spec(d: Seq<char>) -> Option<Seq<char>> {
    match paren_from(d, 0) {
        Some(g) => Some(g),
        None => cues_from(d, 0),
    }
}

/// The candidate text of a definition that may enumerate a closed set: the first
/// non-illustrative parenthetical holding a list separator, else the list after a cue word
/// ("one of", "values", "status", "state", …) and a `:` or `-`.
fn enum_candidate(d: &Vec<char>) -> (r: Option<Vec<char>>)
    ensures
        match enum_candidate_spec(d@) {
            Some(x) => r matches Some(v) && v@ == x,
            None => r is None,
        },
{
    let n = d.len();
    let mut r: usize = 0;
    while r < n
        invariant
            r <= n,
            n == d@.len(),
            paren_from(d@, 0) == paren_from(d@, r as int),
        ensures
            paren_from(d@, 0) == paren_from(d@, r as int),
            paren_from(d@, r as int) is None,
        decreases n - r,
    {
        let o = find_from(d, r, n, '(');
        if o >= n {
            break;
        }
        let c = find_from(d, o + 1, n, ')');
        if c >= n {
            break;
        }
        let (ga, gb) = crate::text::trim_range(d, o + 1, c);
        let grp = crate::text::string_of(d, ga, gb);
        let low = lower_range(d, ga, gb);
        let lows = crate::text::string_of(&low, 0, low.len());
        proof { assert(low@.subrange(0, low@.len() as int) =~= low@); }
        let illus = starts(&lows, "e.g") || starts(&lows, "i.e") || starts(&lows, "such as")
            || starts(&lows, "including") || starts(&lows, "for example");
        let lst = holds(d, ga, gb, ',') || holds(d, ga, gb, '/') || holds(d, ga, gb, '|') || occurs(&low, " or ");
        if !illus && lst {
            return Some(chars_of(grp.as_str()));
        }
        r = c + 1;
    }
    let low = lower_range(d, 0, n);
    proof { assert(d@.subrange(0, n as int) =~= d@); }
    let mut k: usize = 0;
    while k < 7
        invariant
            k <= 7,
            n == d@.len(),
            low@ == lower_seq(d@),
            paren_from(d@, 0) is None,
            cues_from(d@, 0) == cues_from(d@, k as int),
        decreases 7 - k,
    {
        let cw = cue(k);
        proof { lemma_first_occ(low@, cw@, 0); }
        match find_seq(&low, cw) {
            Some(i) => {
                let cl = crate::text::chars_of(cw).len();
                if cl <= n - i {
                    let mut j = i + cl;
                    while j < n && crate::text::is_whitespace(d[j])
                        invariant
                            i + cl <= j <= n,
                            n == d@.len(),
                            skip_ws(d@, (i + cl) as int) == skip_ws(d@, j as int),
                        decreases n - j,
                    {
                        j += 1;
                    }
                    if j < n && (d[j] == ':' || d[j] == '-') {
                        let ghost j0 = j as int;
                        proof {
                            assert(first_occ(lower_seq(d@), cue_spec(k as int), 0) == Some(i as int));
                            assert(skip_ws(d@, i + cue_spec(k as int).len()) == j0);
                        }
                        j += 1;
                        let mut e = j;
                        while e < n && (('a' <= d[e] && d[e] <= 'z') || ('A' <= d[e] && d[e] <= 'Z') || ('0' <= d[e] && d[e] <= '9') || d[e] == ' ' || d[e] == ',' || d[e] == '/' || d[e] == '|')
                            invariant
                                j <= e <= n,
                                n == d@.len(),
                                list_end(d@, j as int) == list_end(d@, e as int),
                            decreases n - e,
                        {
                            e += 1;
                        }
                        let (ta, tb) = crate::text::trim_range(d, j, e);
                        if tb - ta > 1 {
                            let taken = crate::text::string_of(d, j, e);
                            proof {
                                assert(list_end(d@, j0 + 1) == e);
                                assert(cue_list(d@, cue_spec(k as int)) == Some(d@.subrange(j0 + 1, e as int)));
                                assert(cues_from(d@, k as int) == Some(d@.subrange(j as int, e as int)));
                            }
                            return Some(chars_of(taken.as_str()));
                        }
                    }
                } else {
                    assert(false);
                }
            },
            None => {},
        }
        k += 1;
    }
    None
}

/// At index `i` of `c` stands " or ".
pub open spec fn at_or(c: Seq<char>, i: int) -> bool {
    i < c.len() && occurs_at_spec(c, i, " or "@)
}

/// A list separator character.
pub open spec fn sep_char(ch: char) -> bool {
    ch == ',' || ch == '/' || ch == '|'
}

/// The raw pieces of `c`, the current one starting at `start`, scanning at `i`: pieces
/// are separated by " or ", `,`, `/` and `|`.
pub open spec fn pieces_from(c: Seq<char>, start: int, i: int) -> Seq<Seq<char>>
    decreases c.len() + 1 - i,
{
    if start < 0 || i < start || i > c.len() {
        Seq::empty()
    } else if i == c.len() {
        seq![c.subrange(start, i)]
    } else if at_or(c, i) {
        proof { reveal_strlit(" or "); }
        seq![c.subrange(start, i)] + pieces_from(c, i + 4, i + 4)
    } else if sep_char(c[i]) {
        seq![c.subrange(start, i)] + pieces_from(c, i + 1, i + 1)
    } else {
        pieces_from(c, start, i + 1)
    }
}

/// A piece trimmed, its trailing dots dropped, trimmed again and lowercased.
pub open spec fn clean_piece(p: Seq<char>) -> Seq<char> {
    lower_seq(trim(crate::text::drop_trailing(trim(p), '.')))
}

/// The values with piece `p` added when it is an acceptable new value.
pub open spec fn add_val(acc: Seq<Seq<char>>, p: Seq<char>) -> Seq<Seq<char>> {
    let q = clean_piece(p);
    if enum_value_ok(q) && !acc.contains(q) { acc.push(q) } else { acc }
}

/// The values of the pieces, in order, after `acc`.
pub open spec fn vals_fold(acc: Seq<Seq<char>>, ps: Seq<Seq<char>>) -> Seq<Seq<char>>
    decreases ps.len(),
{
    if ps.len() == 0 { acc } else { vals_fold(add_val(acc, ps[0]), ps.drop_first()) }
}

/// The closed value set a definition enumerates: the distinct acceptable values of its
/// candidate text, when there are at least two.
pub open spec fn enum_values_spec(defn: Seq<char>) -> Option<Seq<Seq<char>>> {
    match enum_candidate_spec(defn) {
        None => None,
        Some(c) => {
            let v = vals_fold(Seq::empty(), pieces_from(c, 0, 0));
            if v.len() >= 2 { Some(v) } else { None }
        },
    }
}

/// A closed value set from a definition: a non-illustrative parenthetical list
/// ("(pending / running / complete)") or an explicit "one of|values|states|status: a, b, c"
/// cue. Illustrative parentheticals (e.g., i.e., such as, including, for example) never fire.
pub fn parse_enum_from_definition(defn: &str) -> (r: Option<Vec<String>>)
    ensures
        match enum_values_spec(defn@) {
            Some(v) => r matches Some(vals) && names_view(vals@) == v,
            None => r is None,
        },
        r matches Some(vals) ==> vals@.len() >= 2
            && (forall|i: int| 0 <= i < vals@.len() ==> enum_value_ok(#[trigger] vals@[i]@))
            && (forall|i: int, j: int| 0 <= i < j < vals@.len() ==> vals@[i]@ != vals@[j]@),
{
    let d = chars_of(defn);
    let cand = match enum_candidate(&d) {
        Some(c) => c,
        None => return None,
    };
    let ghost goal = vals_fold(Seq::empty(), pieces_from(cand@, 0, 0));
    let mut vals: Vec<String> = Vec::new();
    proof { assert(names_view(vals@) =~= Seq::<Seq<char>>::empty()); }
    let n = cand.len();
    let mut start: usize = 0;
    let mut i: usize = 0;
    while i <= n
        invariant_except_break
            start <= i <= n + 1,
            start <= n,
            i <= n,
            vals_fold(names_view(vals@), pieces_from(cand@, start as int, i as int)) == goal,
        invariant
            n == cand@.len(),
            goal == vals_fold(Seq::empty(), pieces_from(cand@, 0, 0)),
            forall|a: int| 0 <= a < vals@.len() ==> enum_value_ok(#[trigger] vals@[a]@),
            forall|a: int, b: int| 0 <= a < b < vals@.len() ==> vals@[a]@ != vals@[b]@,
        ensures
            forall|a: int| 0 <= a < vals@.len() ==> enum_value_ok(#[trigger] vals@[a]@),
            forall|a: int, b: int| 0 <= a < b < vals@.len() ==> vals@[a]@ != vals@[b]@,
            names_view(vals@) == goal,
        decreases n + 1 - i,
    {
        let at_or_here = i < n && occurs_at(&cand, i, " or ");
        let at_sep = i < n && (cand[i] == ',' || cand[i] == '/' || cand[i] == '|');
        if i == n || at_or_here || at_sep {
            let ghost acc = names_view(vals@);
            let ghost piece = cand@.subrange(start as int, i as int);
            let (pa, pb) = crate::text::trim_range(&cand, start, i);
            let mut pe = pb;
            while pe > pa && cand[pe - 1] == '.'
                invariant
                    start <= pa <= pe <= pb <= i <= n,
                    n == cand@.len(),
                    crate::text::drop_trailing(cand@.subrange(pa as int, pb as int), '.') == crate::text::drop_trailing(cand@.subrange(pa as int, pe as int), '.'),
                decreases pe - pa,
            {
                assert(cand@.subrange(pa as int, pe as int).drop_last() =~= cand@.subrange(pa as int, pe - 1));
                pe -= 1;
            }
            assert(crate::text::drop_trailing(cand@.subrange(pa as int, pe as int), '.') == cand@.subrange(pa as int, pe as int));
            let (qa, qb) = crate::text::trim_range(&cand, pa, pe);
            let low = lower_range(&cand, qa, qb);
            let p = crate::text::string_of(&low, 0, low.len());
            proof {
                assert(low@.subrange(0, low@.len() as int) =~= low@);
                assert(p@ == clean_piece(piece));
            }
            if piece_ok(&low) && !has_chars(&vals, &p) {
                let ghost before = vals@;
                vals.push(p);
                proof {
                    assert(names_view(vals@) =~= acc.push(p@));
                    assert forall|a: int, b: int| 0 <= a < b < vals@.len() implies vals@[a]@ != vals@[b]@ by {
                        if b == vals@.len() - 1 {
                            assert(names_view(before)[a] == before[a]@);
                        }
                    }
                }
            }
            proof {
                assert(names_view(vals@) == add_val(acc, piece));
                let ps = pieces_from(cand@, start as int, i as int);
                assert(ps[0] == piece);
                assert(vals_fold(acc, ps) == vals_fold(add_val(acc, piece), ps.drop_first()));
            }
            if i == n {
                proof {
                    let ps = pieces_from(cand@, start as int, i as int);
                    assert(ps.drop_first() =~= Seq::<Seq<char>>::empty());
                }
                break;
            }
            let ghost i0 = i as int;
            let ghost s0 = start as int;
            if at_or_here {
                if n - i >= 4 {
                    i = i + 4;
                } else {
                    i = n;
                }
            } else {
                i = i + 1;
            }
            start = i;
            proof {
                reveal_strlit(" or ");
                let ps = pieces_from(cand@, s0, i0);
                if at_or(cand@, i0) {
                    assert(ps == seq![cand@.subrange(s0, i0)] + pieces_from(cand@, i0 + 4, i0 + 4));
                } else {
                    assert(ps == seq![cand@.subrange(s0, i0)] + pieces_from(cand@, i0 + 1, i0 + 1));
                }
                assert(ps.drop_first() =~= pieces_from(cand@, i as int, i as int));
            }
        } else {
            proof {
                assert(!at_or(cand@, i as int));
                assert(!sep_char(cand@[i as int]));
            }
            i += 1;
        }
    }
    if vals.len() >= 2 { Some(vals) } else { None }
}

/// Whether the characters make an acceptable enumerated value.
fn piece_ok(p: &Vec<char>) -> (r: bool)
    ensures
        r == enum_value_ok(p@),
{
    let n = p.len();
    if n < 2 || n > 21 || !('a' <= p[0] && p[0] <= 'z') {
        return false;
    }
    let mut i: usize = 0;
    while i < n
        invariant
            n == p@.len(),
            i <= n,
            forall|j: int| 0 <= j < i ==> lower_letter(#[trigger] p@[j]) || ('0' <= p@[j] && p@[j] <= '9') || p@[j] == ' ',
        decreases n - i,
    {
        let c = p[i];
        if !(('a' <= c && c <= 'z') || ('0' <= c && c <= '9') || c == ' ') {
            return false;
        }
        i += 1;
    }
    let s = crate::text::string_of(p, 0, n);
    proof { assert(p@.subrange(0, n as int) =~= p@); }
    let ss = s.as_str();
    !(eq_str(ss, "an") || eq_str(ss, "of") || eq_str(ss, "etc") || eq_str(ss, "such") || eq_str(ss, "value") || eq_str(ss, "the"))
}


/// The lowering result: the tiered KFS text and its accounting. `src_lines[i]` is the
/// source line that produced the i-th emitted line (axioms first, then annotations).
#[derive(Debug)]
pub struct Lowering {
    pub kfs: String,
    pub n_axioms: usize,
    pub n_annotations: usize,
    pub src_lines: Vec<usize>,
    pub skipped: Tally,
    /// Which lowering paths the input exercised.
    pub constructs: Tally,
    /// Contradictions visible in the syntax (incompatible cardinality bounds).
    pub conflicts: Vec<String>,
}

/// The tiered KFS text of the reasoning lines `a` and annotation lines `b`.
pub open spec fn kfs_spec(a: Seq<Seq<char>>, b: Seq<Seq<char>>) -> Seq<char> {
    join_spec(a, "\n"@) + (if b.len() > 0 { "\n"@ + join_spec(b, "\n"@) } else { Seq::empty() }) + "\n"@
}

/// The enumeration classes after the items of an `EquivalentTo` section of class `s`:
/// each `{..}` item records `s`.
pub open spec fn items_oneof(ks: Seq<Seq<char>>, s: Seq<char>, items: Seq<ExprV>) -> Seq<Seq<char>>
    decreases items.len(),
{
    if items.len() == 0 {
        ks
    } else {
        let k0 = items_oneof(ks, s, items.drop_last());
        match items.last() {
            ExprV::OneOf(_) => add_key(k0, s),
            _ => k0,
        }
    }
}

/// The enumeration classes after the sections of a frame of kind `k` on subject `s`.
pub open spec fn sections_oneof(ks: Seq<Seq<char>>, k: FrameKind, s: Seq<char>, secs: Seq<SectionV>) -> Seq<Seq<char>>
    decreases secs.len(),
{
    if secs.len() == 0 {
        ks
    } else {
        let k0 = sections_oneof(ks, k, s, secs.drop_last());
        if k is Class && secs.last().keyword == "EquivalentTo"@ {
            items_oneof(k0, s, secs.last().items)
        } else {
            k0
        }
    }
}

/// The enumeration classes the frames declare, in order of first declaration.
pub open spec fn frames_oneof(ps: Seq<(Seq<char>, Seq<char>)>, frames: Seq<FrameV>) -> Seq<Seq<char>>
    decreases frames.len(),
{
    if frames.len() == 0 {
        Seq::empty()
    } else {
        let f = frames.last();
        sections_oneof(frames_oneof(ps, frames.drop_last()), f.kind, expand_from(ps, f.subject, 0), f.sections)
    }
}

/// `DisjointClasses` lines pairing atom `i` with the atoms after it, up to `j`.
pub open spec fn row(ats: Seq<Seq<char>>, i: int, j: int) -> Seq<Seq<char>>
    decreases j - i,
{
    if j <= i + 1 {
        Seq::empty()
    } else {
        row(ats, i, j - 1).push(line2_spec("DisjointClasses"@, ats[i], ats[j - 1]))
    }
}

/// The rows of the first `i` atoms.
pub open spec fn pairs_upto(ats: Seq<Seq<char>>, i: int) -> Seq<Seq<char>>
    decreases i,
{
    if i <= 0 {
        Seq::empty()
    } else {
        pairs_upto(ats, i - 1) + row(ats, i - 1, ats.len() as int)
    }
}

/// The atoms of a block, expanded.
pub open spec fn expanded(ps: Seq<(Seq<char>, Seq<char>)>, atoms: Seq<Seq<char>>) -> Seq<Seq<char>> {
    atoms.map_values(|a: Seq<char>| expand_from(ps, a, 0))
}

/// The lines of a top-level `DisjointClasses` block: every pair of its atoms, in order.
pub open spec fn block_axioms(ps: Seq<(Seq<char>, Seq<char>)>, b: BlockV) -> Seq<Seq<char>> {
    let ats = expanded(ps, b.atoms);
    pairs_upto(ats, ats.len() as int)
}

/// The lines of the blocks, in order.
pub open spec fn blocks_axioms(ps: Seq<(Seq<char>, Seq<char>)>, bs: Seq<BlockV>) -> Seq<Seq<char>>
    decreases bs.len(),
{
    if bs.len() == 0 {
        Seq::empty()
    } else {
        blocks_axioms(ps, bs.drop_last()) + block_axioms(ps, bs.last())
    }
}

/// The reasoning-tier lines of the frames, in order.
pub open spec fn frames_axioms(ps: Seq<(Seq<char>, Seq<char>)>, ok: Seq<Seq<char>>, frames: Seq<FrameV>) -> Seq<Seq<char>>
    decreases frames.len(),
{
    if frames.len() == 0 {
        Seq::empty()
    } else {
        frames_axioms(ps, ok, frames.drop_last()) + frame_axioms(ps, ok, frames.last())
    }
}

/// The reasoning tier of a document: the block pairs, then each frame's lines, with the
/// enumeration classes of the whole document known.
pub open spec fn doc_axioms(ps: Seq<(Seq<char>, Seq<char>)>, frames: Seq<FrameV>, blocks: Seq<BlockV>) -> Seq<Seq<char>> {
    blocks_axioms(ps, blocks) + frames_axioms(ps, frames_oneof(ps, frames), frames)
}

/// Whether `s` is an identifier vocabulary property.
pub open spec fn in_id_vocab_spec(s: Seq<char>) -> bool {
    s == "http://purl.org/dc/terms/identifier"@ || s == "http://purl.org/dc/elements/1.1/identifier"@
        || s == "http://www.w3.org/2004/02/skos/core#notation"@ || s == "https://schema.org/identifier"@
        || s == "http://schema.org/identifier"@ || s == "http://purl.obolibrary.org/obo/IAO_0000578"@
}

/// The identifier properties seeded by the edges: each source in the vocabulary, once.
pub open spec fn seed_ids(edges: Seq<(Seq<char>, Seq<char>)>) -> Seq<Seq<char>>
    decreases edges.len(),
{
    if edges.len() == 0 {
        Seq::empty()
    } else {
        let ids = seed_ids(edges.drop_last());
        if in_id_vocab_spec(edges.last().0) { add_key(ids, edges.last().0) } else { ids }
    }
}

/// One pass over the edges: a source whose target is an identifier becomes one.
pub open spec fn round_ids(ids: Seq<Seq<char>>, edges: Seq<(Seq<char>, Seq<char>)>) -> Seq<Seq<char>>
    decreases edges.len(),
{
    if edges.len() == 0 {
        ids
    } else {
        let i0 = round_ids(ids, edges.drop_last());
        let e = edges.last();
        if in_id_vocab_spec(e.1) || i0.contains(e.1) { add_key(i0, e.0) } else { i0 }
    }
}

/// `n` passes over the edges.
pub open spec fn rounds(ids: Seq<Seq<char>>, edges: Seq<(Seq<char>, Seq<char>)>, n: nat) -> Seq<Seq<char>>
    decreases n,
{
    if n == 0 { ids } else { round_ids(rounds(ids, edges, (n - 1) as nat), edges) }
}

/// The identifier properties: seeded from the vocabulary, then one pass per edge.
pub open spec fn id_closure(edges: Seq<(Seq<char>, Seq<char>)>) -> Seq<Seq<char>> {
    rounds(seed_ids(edges), edges, edges.len())
}

/// What the first pass over the frames gathers: the enumeration classes with their values,
/// the data `SubPropertyOf` edges, and the annotation lines so far.
pub struct PreV {
    pub enums: Seq<(Seq<char>, Seq<Seq<char>>)>,
    pub edges: Seq<(Seq<char>, Seq<char>)>,
    pub st: AnnSt,
}

/// `m` with `c` given the values `v`: its first entry is replaced, or one is added.
pub open spec fn set_enum(m: Seq<(Seq<char>, Seq<Seq<char>>)>, c: Seq<char>, v: Seq<Seq<char>>) -> Seq<(Seq<char>, Seq<Seq<char>>)> {
    if exists|i: int| 0 <= i < m.len() && m[i].0 == c {
        let i = choose|i: int| 0 <= i < m.len() && m[i].0 == c && forall|j: int| 0 <= j < i ==> m[j].0 != c;
        m.update(i, (c, v))
    } else {
        m.push((c, v))
    }
}

/// The local names of the expanded individuals.
pub open spec fn local_names(ps: Seq<(Seq<char>, Seq<char>)>, inds: Seq<Seq<char>>) -> Seq<Seq<char>> {
    inds.map_values(|i: Seq<char>| crate::verbalise::local_spec(expand_from(ps, i, 0)))
}

/// The first-pass state held in the enumeration classes, the edges and the context.
pub open spec fn pre_of(oneof: Seq<(String, Vec<String>)>, edges: Seq<(String, String)>, st: AnnSt) -> PreV {
    PreV { enums: crate::shapes::enums_view(oneof), edges: crate::manchester::frames::pairs_view(edges), st }
}

/// The first pass over item `x` of a section `kw` of a frame of kind `k` on subject `s`.
pub open spec fn pre_item(p: PreV, ps: Seq<(Seq<char>, Seq<char>)>, k: FrameKind, kw: Seq<char>, s: Seq<char>, x: ExprV) -> PreV {
    match k {
        FrameKind::DataProperty => if kw == "SubPropertyOf"@ {
            match x {
                ExprV::Named(n) => PreV { edges: p.edges.push((s, expand_from(ps, n, 0))), ..p },
                _ => p,
            }
        } else { p },
        FrameKind::ObjectProperty => if kw == "Characteristics"@ {
            match x {
                ExprV::Named(n) => if n == "InverseFunctional"@ {
                    PreV { st: stat_ev(emit_ann(p.st, "@Unique "@ + "<"@ + s + ">"@), "k2_inverse_functional"@), ..p }
                } else if n == "Functional"@ {
                    PreV { st: stat_ev(p.st, "functional_characteristic"@), ..p }
                } else { p },
                _ => p,
            }
        } else { p },
        FrameKind::Class => if kw == "EquivalentTo"@ {
            match x {
                ExprV::OneOf(inds) => PreV { enums: set_enum(p.enums, s, local_names(ps, inds)), st: stat_ev(p.st, "oneof_class"@), ..p },
                _ => p,
            }
        } else { p },
        _ => p,
    }
}

/// The first pass over the items of a section.
pub open spec fn pre_items(p: PreV, ps: Seq<(Seq<char>, Seq<char>)>, k: FrameKind, kw: Seq<char>, s: Seq<char>, items: Seq<ExprV>) -> PreV
    decreases items.len(),
{
    if items.len() == 0 { p } else { pre_item(pre_items(p, ps, k, kw, s, items.drop_last()), ps, k, kw, s, items.last()) }
}

/// The first pass over the sections of a frame.
pub open spec fn pre_sections(p: PreV, ps: Seq<(Seq<char>, Seq<char>)>, k: FrameKind, s: Seq<char>, secs: Seq<SectionV>) -> PreV
    decreases secs.len(),
{
    if secs.len() == 0 {
        p
    } else {
        pre_items(pre_sections(p, ps, k, s, secs.drop_last()), ps, k, secs.last().keyword, s, secs.last().items)
    }
}

/// No annotation lines yet.
pub open spec fn ann_empty() -> AnnSt {
    AnnSt {
        anns: Seq::empty(),
        labels: Seq::empty(),
        attrs: Seq::empty(),
        cards: Seq::empty(),
        card_ann: Seq::empty(),
        enums: Seq::empty(),
        rels: Seq::empty(),
        keys: Seq::empty(),
        conflicts: Seq::empty(),
        skips: Seq::empty(),
        stats: Seq::empty(),
    }
}

/// The first pass over the frames.
pub open spec fn pre_frames(ps: Seq<(Seq<char>, Seq<char>)>, frames: Seq<FrameV>) -> PreV
    decreases frames.len(),
{
    if frames.len() == 0 {
        PreV { enums: Seq::empty(), edges: Seq::empty(), st: ann_empty() }
    } else {
        let f = frames.last();
        pre_sections(pre_frames(ps, frames.drop_last()), ps, f.kind, expand_from(ps, f.subject, 0), f.sections)
    }
}

/// The annotation lines of one frame: its annotations, then its sections.
pub open spec fn frame_ann(st: AnnSt, ps: Seq<(Seq<char>, Seq<char>)>, om: Seq<(Seq<char>, Seq<Seq<char>>)>, ids: Seq<Seq<char>>, f: FrameV) -> AnnSt {
    frame_sections_ann(anns_ann(st, ps, f.kind, expand_from(ps, f.subject, 0), f.annotations), ps, om, ids, f)
}

/// The annotation lines of the frames, in order.
pub open spec fn frames_ann(st: AnnSt, ps: Seq<(Seq<char>, Seq<char>)>, om: Seq<(Seq<char>, Seq<Seq<char>>)>, ids: Seq<Seq<char>>, frames: Seq<FrameV>) -> AnnSt
    decreases frames.len(),
{
    if frames.len() == 0 { st } else { frame_ann(frames_ann(st, ps, om, ids, frames.drop_last()), ps, om, ids, frames.last()) }
}

/// The annotation tier of a document: the `@Unique` lines of the first pass, then each
/// frame's lines given the enumeration classes and identifier properties.
pub open spec fn doc_ann(ps: Seq<(Seq<char>, Seq<char>)>, frames: Seq<FrameV>) -> AnnSt {
    let pre = pre_frames(ps, frames);
    frames_ann(pre.st, ps, pre.enums, id_closure(pre.edges), frames)
}

/// An identifier vocabulary property: its values name the entity.
fn in_id_vocab(s: &str) -> (r: bool)
    ensures
        r == in_id_vocab_spec(s@),
{
    eq_str(s, "http://purl.org/dc/terms/identifier") || eq_str(s, "http://purl.org/dc/elements/1.1/identifier")
        || eq_str(s, "http://www.w3.org/2004/02/skos/core#notation") || eq_str(s, "https://schema.org/identifier")
        || eq_str(s, "http://schema.org/identifier") || eq_str(s, "http://purl.obolibrary.org/obo/IAO_0000578")
}

/// The annotation property is a label.
fn is_label(doc: &Document, prop: &str) -> (r: bool)
    ensures
        r == crate::verbalise::is_label_prop(prefixes_view(doc.prefixes@), prop@),
{
    proof { reveal_strlit("rdfs:label"); reveal_strlit("rdf-schema#label"); }
    eq_str(prop, "rdfs:label") || crate::verbalise::ends_with(&doc.expand(prop), "rdf-schema#label")
}

/// The annotation property is a definition.
fn is_definition(doc: &Document, prop: &str) -> (r: bool)
    ensures
        r == is_definition_prop(prefixes_view(doc.prefixes@), prop@),
{
    proof { reveal_strlit("skos:definition"); reveal_strlit("skos/core#definition"); }
    eq_str(prop, "skos:definition") || crate::verbalise::ends_with(&doc.expand(prop), "skos/core#definition")
}

/// The local name of an IRI (after its last `#` or `/`).
fn local_name(s: &String) -> (r: String)
    ensures
        r@ == crate::verbalise::local_spec(s@),
{
    let v = chars_of(s.as_str());
    let j = crate::verbalise::local(&v);
    crate::text::string_of(&v, j, v.len())
}

/// The data properties that are identifiers: in the identifier vocabulary, or reaching it
/// over `SubPropertyOf` edges.
fn identifier_closure(edges: &Vec<(String, String)>) -> (r: Vec<String>)
    ensures
        names_view(r@) == id_closure(crate::manchester::frames::pairs_view(edges@)),
{
    let ghost es = crate::manchester::frames::pairs_view(edges@);
    let mut ids: Vec<String> = Vec::new();
    proof { assert(es.take(0) =~= Seq::<(Seq<char>, Seq<char>)>::empty()); assert(names_view(ids@) =~= Seq::<Seq<char>>::empty()); }
    let mut e: usize = 0;
    while e < edges.len()
        invariant
            e <= edges@.len(),
            es == crate::manchester::frames::pairs_view(edges@),
            names_view(ids@) == seed_ids(es.take(e as int)),
        decreases edges@.len() - e,
    {
        proof {
            let t = es.take(e + 1);
            assert(t.drop_last() =~= es.take(e as int));
            assert(t.last() == (edges@[e as int].0@, edges@[e as int].1@));
        }
        if in_id_vocab(edges[e].0.as_str()) {
            add_name(&mut ids, edges[e].0.as_str());
        }
        e += 1;
    }
    proof { assert(es.take(es.len() as int) =~= es); }
    let mut round: usize = 0;
    while round < edges.len()
        invariant
            round <= edges@.len(),
            es == crate::manchester::frames::pairs_view(edges@),
            names_view(ids@) == rounds(seed_ids(es), es, round as nat),
        decreases edges@.len() - round,
    {
        let ghost start = names_view(ids@);
        let mut e: usize = 0;
        proof { assert(es.take(0) =~= Seq::<(Seq<char>, Seq<char>)>::empty()); }
        while e < edges.len()
            invariant
                e <= edges@.len(),
                es == crate::manchester::frames::pairs_view(edges@),
                names_view(ids@) == round_ids(start, es.take(e as int)),
            decreases edges@.len() - e,
        {
            proof {
                let t = es.take(e + 1);
                assert(t.drop_last() =~= es.take(e as int));
                assert(t.last() == (edges@[e as int].0@, edges@[e as int].1@));
            }
            let t = edges[e].1.as_str();
            if in_id_vocab(t) || has(&ids, t) {
                add_name(&mut ids, edges[e].0.as_str());
            }
            e += 1;
        }
        proof { assert(es.take(es.len() as int) =~= es); }
        round += 1;
    }
    ids
}

/// Lower a parsed document to tiered KFS.
pub fn lower(doc: &Document) -> (r: Lowering)
    ensures
        r.n_axioms == doc_axioms(prefixes_view(doc.prefixes@), doc@.frames, doc@.blocks).len(),
        r.n_annotations == doc_ann(prefixes_view(doc.prefixes@), doc@.frames).anns.len(),
        r.kfs@ == kfs_spec(doc_axioms(prefixes_view(doc.prefixes@), doc@.frames, doc@.blocks),
            doc_ann(prefixes_view(doc.prefixes@), doc@.frames).anns),
        names_view(r.conflicts@) == doc_ann(prefixes_view(doc.prefixes@), doc@.frames).conflicts,
        tallies(r.skipped@, doc_ann(prefixes_view(doc.prefixes@), doc@.frames).skips),
        tallies(r.constructs@, doc_ann(prefixes_view(doc.prefixes@), doc@.frames).stats),
        r.src_lines@.len() == r.n_axioms + r.n_annotations,
        r.skipped.wf(),
        r.constructs.wf(),
{
    let mut ctx = Ctx {
        axioms: Vec::new(),
        annotations: Vec::new(),
        ax_lines: Vec::new(),
        ann_lines: Vec::new(),
        cur_line: 0,
        skipped: Tally::new(),
        constructs: Tally::new(),
        seen_labels: Vec::new(),
        seen_attrs: Vec::new(),
        seen_cards: Vec::new(),
        seen_card_ann: Vec::new(),
        seen_enums: Vec::new(),
        seen_rels: Vec::new(),
        seen_keys: Vec::new(),
        identifier_props: Vec::new(),
        conflicts: Vec::new(),
        skip_log: Ghost(Seq::empty()),
        stat_log: Ghost(Seq::empty()),
    };
    let mut oneof_classes: Vec<(String, Vec<String>)> = Vec::new();
    // The natural key election pre-pass: inverse-functional object properties are unique,
    // identifier-vocabulary data properties are keys, enumeration classes are value sets.
    let mut edges: Vec<(String, String)> = Vec::new();
    let ghost ps = prefixes_view(doc.prefixes@);
    let ghost frames = doc@.frames;
    proof {
        assert(frames.take(0) =~= Seq::<FrameV>::empty());
        assert(oneof_keys(oneof_classes@) =~= Seq::<Seq<char>>::empty());
        let st = ctx.ann_st();
        assert(st.anns =~= Seq::<Seq<char>>::empty());
        assert(st.labels =~= Seq::<Seq<char>>::empty());
        assert(st.attrs =~= Seq::<(Seq<char>, Seq<char>)>::empty());
        assert(st.cards =~= Seq::<(Seq<char>, Seq<char>, u32, Option<u32>)>::empty());
        assert(st.card_ann =~= Seq::<(Seq<char>, Seq<char>)>::empty());
        assert(st.enums =~= Seq::<Seq<char>>::empty());
        assert(st.rels =~= Seq::<(Seq<char>, Seq<char>)>::empty());
        assert(st.keys =~= Seq::<Seq<char>>::empty());
        assert(st.conflicts =~= Seq::<Seq<char>>::empty());
        assert(st.skips =~= Seq::<Seq<char>>::empty());
        assert(st.stats =~= Seq::<Seq<char>>::empty());
        assert(st == ann_empty());
        assert(crate::shapes::enums_view(oneof_classes@) =~= Seq::<(Seq<char>, Seq<Seq<char>>)>::empty());
        assert(crate::manchester::frames::pairs_view(edges@) =~= Seq::<(Seq<char>, Seq<char>)>::empty());
        assert(pre_of(oneof_classes@, edges@, ctx.ann_st()) == pre_frames(ps, frames.take(0)));
        reveal_strlit("SubPropertyOf");
        reveal_strlit("Characteristics");
        reveal_strlit("EquivalentTo");
        reveal_strlit("InverseFunctional");
    }
    let mut f: usize = 0;
    while f < doc.frames.len()
        invariant
            ctx.wf(),
            f <= doc.frames@.len(),
            ctx.axioms@.len() == 0,
            ps == prefixes_view(doc.prefixes@),
            frames == doc@.frames,
            oneof_keys(oneof_classes@) == frames_oneof(ps, frames.take(f as int)),
            pre_of(oneof_classes@, edges@, ctx.ann_st()) == pre_frames(ps, frames.take(f as int)),
        decreases doc.frames@.len() - f,
    {
        let frame = &doc.frames[f];
        let subject = doc.expand(frame.subject.as_str());
        let ghost k_f = frames_oneof(ps, frames.take(f as int));
        let ghost p_f = pre_frames(ps, frames.take(f as int));
        let ghost secs = frame@.sections;
        proof { assert(secs.take(0) =~= Seq::<SectionV>::empty()); }
        let mut si: usize = 0;
        while si < frame.sections.len()
            invariant
                ctx.wf(),
                si <= frame.sections@.len(),
                ctx.axioms@.len() == 0,
                ps == prefixes_view(doc.prefixes@),
                secs == frame@.sections,
                oneof_keys(oneof_classes@) == sections_oneof(k_f, frame.kind, subject@, secs.take(si as int)),
                pre_of(oneof_classes@, edges@, ctx.ann_st()) == pre_sections(p_f, ps, frame.kind, subject@, secs.take(si as int)),
            decreases frame.sections@.len() - si,
        {
            let section = &frame.sections[si];
            let kw = section.keyword.as_str();
            let ghost k_s = sections_oneof(k_f, frame.kind, subject@, secs.take(si as int));
            let ghost p_s = pre_sections(p_f, ps, frame.kind, subject@, secs.take(si as int));
            let ghost items = section@.items;
            let ghost counts = frame.kind is Class && kw@ == "EquivalentTo"@;
            proof { assert(items.take(0) =~= Seq::<ExprV>::empty()); assert(kw@ == section@.keyword); }
            let mut ii: usize = 0;
            while ii < section.items.len()
                invariant
                    ctx.wf(),
                    ii <= section.items@.len(),
                    ctx.axioms@.len() == 0,
                    ps == prefixes_view(doc.prefixes@),
                    items == section@.items,
                    counts == (frame.kind is Class && kw@ == "EquivalentTo"@),
                    oneof_keys(oneof_classes@) == if counts { items_oneof(k_s, subject@, items.take(ii as int)) } else { k_s },
                    pre_of(oneof_classes@, edges@, ctx.ann_st()) == pre_items(p_s, ps, frame.kind, kw@, subject@, items.take(ii as int)),
                decreases section.items@.len() - ii,
            {
                proof {
                    let t = items.take(ii + 1);
                    assert(t.drop_last() =~= items.take(ii as int));
                    assert(t.last() == ev(section.items@[ii as int]));
                }
                let ghost pre = pre_of(oneof_classes@, edges@, ctx.ann_st());
                let item = &section.items[ii];
                match frame.kind {
                    FrameKind::DataProperty => {
                        if eq_str(kw, "SubPropertyOf") {
                            match item {
                                Expr::Named(n) => {
                                    let ghost e0 = edges@;
                                    let sc = subject.clone();
                                    let x = doc.expand(n.as_str());
                                    edges.push((sc, x));
                                    proof {
                                        assert(crate::manchester::frames::pairs_view(edges@)
                                            =~= crate::manchester::frames::pairs_view(e0).push((subject@, expand_from(ps, n@, 0))));
                                    }
                                },
                                _ => {},
                            }
                        }
                    },
                    FrameKind::ObjectProperty => {
                        if eq_str(kw, "Characteristics") {
                            match item {
                                Expr::Named(n) => {
                                    if eq_str(n.as_str(), "InverseFunctional") {
                                        ctx.ann(angled(String::from_str("@Unique "), subject.as_str()));
                                        ctx.stat("k2_inverse_functional");
                                    } else if eq_str(n.as_str(), "Functional") {
                                        ctx.stat("functional_characteristic");
                                    }
                                },
                                _ => {},
                            }
                        }
                    },
                    FrameKind::Class => {
                        if eq_str(kw, "EquivalentTo") {
                            match item {
                                Expr::OneOf(inds) => {
                                    let ghost iv = names_view(inds@);
                                    let mut vals: Vec<String> = Vec::new();
                                    let mut k: usize = 0;
                                    proof { assert(names_view(vals@) =~= local_names(ps, iv.take(0))); }
                                    while k < inds.len()
                                        invariant
                                            k <= inds@.len(),
                                            iv == names_view(inds@),
                                            ps == prefixes_view(doc.prefixes@),
                                            names_view(vals@) == local_names(ps, iv.take(k as int)),
                                        decreases inds@.len() - k,
                                    {
                                        let ghost v0 = names_view(vals@);
                                        vals.push(local_name(&doc.expand(inds[k].as_str())));
                                        proof {
                                            assert(names_view(vals@) =~= v0.push(crate::verbalise::local_spec(expand_from(ps, iv[k as int], 0))));
                                            assert(local_names(ps, iv.take(k + 1)) =~= local_names(ps, iv.take(k as int)).push(crate::verbalise::local_spec(expand_from(ps, iv[k as int], 0))));
                                        }
                                        k += 1;
                                    }
                                    proof { assert(iv.take(iv.len() as int) =~= iv); }
                                    oneof_set(&mut oneof_classes, subject.clone(), vals);
                                    ctx.stat("oneof_class");
                                },
                                _ => {},
                            }
                        }
                    },
                    _ => {},
                }
                assert(pre_of(oneof_classes@, edges@, ctx.ann_st()) == pre_item(pre, ps, frame.kind, kw@, subject@, ev(section.items@[ii as int])));
                ii += 1;
            }
            proof {
                let t = secs.take(si + 1);
                assert(t.drop_last() =~= secs.take(si as int));
                assert(t.last() == frame.sections@[si as int]@);
                assert(items.take(items.len() as int) =~= items);
            }
            si += 1;
        }
        proof {
            let t = frames.take(f + 1);
            assert(t.drop_last() =~= frames.take(f as int));
            assert(t.last() == doc.frames@[f as int]@);
            assert(secs.take(secs.len() as int) =~= secs);
        }
        f += 1;
    }
    proof { assert(frames.take(frames.len() as int) =~= frames); }
    let ghost pre = pre_frames(ps, frames);
    ctx.identifier_props = identifier_closure(&edges);
    let ghost om = crate::shapes::enums_view(oneof_classes@);
    let ghost ids = names_view(ctx.identifier_props@);
    assert(ids == id_closure(pre.edges));
    assert(om == pre.enums);
    assert(ctx.ann_st() == pre.st);

    // top-level DisjointClasses blocks: an n-ary block lowers to all its pairs
    let ghost blocks = doc@.blocks;
    proof { assert(blocks.take(0) =~= Seq::<BlockV>::empty()); assert(names_view(ctx.axioms@) =~= Seq::<Seq<char>>::empty()); }
    let mut bi: usize = 0;
    while bi < doc.disjoint_blocks.len()
        invariant
            ctx.wf(),
            bi <= doc.disjoint_blocks@.len(),
            ps == prefixes_view(doc.prefixes@),
            blocks == doc@.blocks,
            names_view(ctx.axioms@) == blocks_axioms(ps, blocks.take(bi as int)),
            ctx.ann_st() == pre.st,
            ids == names_view(ctx.identifier_props@),
        decreases doc.disjoint_blocks@.len() - bi,
    {
        lower_block(&mut ctx, doc, &doc.disjoint_blocks[bi]);
        proof {
            let t = blocks.take(bi + 1);
            assert(t.drop_last() =~= blocks.take(bi as int));
            assert(t.last() == doc.disjoint_blocks@[bi as int]@);
        }
        bi += 1;
    }
    proof { assert(blocks.take(blocks.len() as int) =~= blocks); }

    let ghost ok = oneof_keys(oneof_classes@);
    let ghost blocks_part = names_view(ctx.axioms@);
    proof { assert(blocks_part + frames_axioms(ps, ok, frames.take(0)) =~= blocks_part); assert(frames.take(0) =~= Seq::<FrameV>::empty()); }
    let mut f: usize = 0;
    while f < doc.frames.len()
        invariant
            ctx.wf(),
            f <= doc.frames@.len(),
            ps == prefixes_view(doc.prefixes@),
            frames == doc@.frames,
            ok == oneof_keys(oneof_classes@),
            names_view(ctx.axioms@) == blocks_part + frames_axioms(ps, ok, frames.take(f as int)),
            om == crate::shapes::enums_view(oneof_classes@),
            ids == names_view(ctx.identifier_props@),
            ctx.ann_st() == frames_ann(pre.st, ps, om, ids, frames.take(f as int)),
        decreases doc.frames@.len() - f,
    {
        let frame = &doc.frames[f];
        let subject = doc.expand(frame.subject.as_str());
        ctx.cur_line = frame.line;
        lower_annotations(&mut ctx, doc, frame, &subject);
        lower_sections(&mut ctx, doc, &oneof_classes, frame, &subject);
        proof {
            let t = frames.take(f + 1);
            assert(t.drop_last() =~= frames.take(f as int));
            assert(t.last() == doc.frames@[f as int]@);
        }
        f += 1;
    }
    proof {
        assert(frames.take(frames.len() as int) =~= frames);
        assert(names_view(ctx.axioms@) == doc_axioms(ps, frames, blocks));
        assert(ctx.ann_st() == doc_ann(ps, frames));
    }

    let n_axioms = ctx.axioms.len();
    let n_annotations = ctx.annotations.len();
    let mut kfs = join(&ctx.axioms, "\n");
    if ctx.annotations.len() > 0 {
        kfs = cat(kfs, "\n");
        kfs = cat(kfs, join(&ctx.annotations, "\n").as_str());
    }
    kfs = cat(kfs, "\n");
    let ghost a = names_view(ctx.axioms@);
    let ghost b = names_view(ctx.annotations@);
    proof {
        assert(a.len() == n_axioms && b.len() == n_annotations && kfs@ == kfs_spec(a, b));
    }
    let mut src_lines = ctx.ax_lines;
    let mut more = ctx.ann_lines;
    src_lines.append(&mut more);
    Lowering {
        kfs,
        n_axioms,
        n_annotations,
        src_lines,
        skipped: ctx.skipped,
        constructs: ctx.constructs,
        conflicts: ctx.conflicts,
    }
}

/// The pairs of one top-level `DisjointClasses` block.
fn lower_block(ctx: &mut Ctx, doc: &Document, block: &crate::manchester::DisjointBlock)
    requires
        old(ctx).wf(),
    ensures
        final(ctx).wf(),
        names_view(final(ctx).axioms@) == names_view(old(ctx).axioms@) + block_axioms(prefixes_view(doc.prefixes@), block@),
        final(ctx).ann_st() == old(ctx).ann_st(),
        final(ctx).identifier_props == old(ctx).identifier_props,
{
    let ghost ps = prefixes_view(doc.prefixes@);
    let ghost base = names_view(ctx.axioms@);
    let ghost st0 = ctx.ann_st();
    ctx.cur_line = block.line;
    let mut atoms: Vec<String> = Vec::new();
    let mut k: usize = 0;
    while k < block.atoms.len()
        invariant
            k <= block.atoms@.len(),
            ps == prefixes_view(doc.prefixes@),
            atoms@.len() == k,
            forall|m: int| 0 <= m < k ==> #[trigger] atoms@[m]@ == expand_from(ps, block.atoms@[m]@, 0),
        decreases block.atoms@.len() - k,
    {
        atoms.push(doc.expand(block.atoms[k].as_str()));
        k += 1;
    }
    let ghost ats = names_view(atoms@);
    proof {
        assert(ats =~= expanded(ps, block@.atoms));
        assert(base + pairs_upto(ats, 0) =~= base);
    }
    let mut i: usize = 0;
    while i < atoms.len()
        invariant
            ctx.wf(),
            i <= atoms@.len(),
            ats == names_view(atoms@),
            names_view(ctx.axioms@) == base + pairs_upto(ats, i as int),
            ctx.ann_st() == st0,
            ctx.identifier_props == old(ctx).identifier_props,
        decreases atoms@.len() - i,
    {
        let mut j = i + 1;
        proof { assert(base + pairs_upto(ats, i as int) + row(ats, i as int, j as int) =~= base + pairs_upto(ats, i as int)); }
        while j < atoms.len()
            invariant
                ctx.wf(),
                i < j <= atoms@.len(),
                ats == names_view(atoms@),
                names_view(ctx.axioms@) == base + pairs_upto(ats, i as int) + row(ats, i as int, j as int),
                ctx.ann_st() == st0,
                ctx.identifier_props == old(ctx).identifier_props,
            decreases atoms@.len() - j,
        {
            ctx.ax(line2("DisjointClasses", atoms[i].as_str(), atoms[j].as_str()));
            proof {
                assert(row(ats, i as int, j + 1) == row(ats, i as int, j as int).push(line2_spec("DisjointClasses"@, ats[i as int], ats[j as int])));
                assert(names_view(ctx.axioms@) =~= base + pairs_upto(ats, i as int) + row(ats, i as int, j + 1));
            }
            j += 1;
        }
        proof {
            assert(pairs_upto(ats, i + 1) == pairs_upto(ats, i as int) + row(ats, i as int, ats.len() as int));
            assert(names_view(ctx.axioms@) =~= base + pairs_upto(ats, i + 1));
        }
        i += 1;
    }
}

/// The label and definition annotations of one frame.
fn lower_annotations(ctx: &mut Ctx, doc: &Document, frame: &crate::manchester::Frame, subject: &String)
    requires
        old(ctx).wf(),
    ensures
        final(ctx).wf(),
        final(ctx).axioms == old(ctx).axioms,
        final(ctx).identifier_props == old(ctx).identifier_props,
        final(ctx).ann_st() == anns_ann(old(ctx).ann_st(), prefixes_view(doc.prefixes@), frame.kind, subject@, frame@.annotations),
{
    let ghost a0 = ctx.axioms;
    let ghost ps = prefixes_view(doc.prefixes@);
    let ghost anns = frame@.annotations;
    let ghost st0 = ctx.ann_st();
    proof {
        reveal_strlit("rdfs:label");
        reveal_strlit("rdf-schema#label");
        reveal_strlit("skos:definition");
        reveal_strlit("skos/core#definition");
        assert(anns.take(0) =~= Seq::<(Seq<char>, Seq<char>)>::empty());
    }
    let mut ai: usize = 0;
    while ai < frame.annotations.len()
        invariant
            ctx.wf(),
            ctx.axioms == a0,
            ctx.identifier_props == old(ctx).identifier_props,
            ai <= frame.annotations@.len(),
            ps == prefixes_view(doc.prefixes@),
            anns == frame@.annotations,
            ctx.ann_st() == anns_ann(st0, ps, frame.kind, subject@, anns.take(ai as int)),
        decreases frame.annotations@.len() - ai,
    {
        let prop = frame.annotations[ai].0.as_str();
        let text = frame.annotations[ai].1.as_str();
        let ghost pre = ctx.ann_st();
        proof {
            let t = anns.take(ai + 1);
            assert(t.drop_last() =~= anns.take(ai as int));
            assert(t.last() == (prop@, text@));
        }
        if is_label(doc, prop) {
            ctx.label(subject.as_str(), text);
        } else if matches!(frame.kind, FrameKind::DataProperty) && is_definition(doc, prop) {
            match parse_enum_from_definition(text) {
                Some(vals) => {
                    let quoted = quote_all(&vals);
                    if quoted.len() >= 2 && add_name(&mut ctx.seen_enums, subject.as_str()) {
                        let l = cat(angled(String::from_str("@Enum "), subject.as_str()), " ");
                        let l2 = cat(l, join(&quoted, " ").as_str());
                        assert(l2@ =~= enum_line(subject@, quoted_of(names_view(vals@))));
                        ctx.ann(l2);
                    }
                },
                None => {},
            }
        }
        assert(ctx.ann_st() == ann_step(pre, ps, frame.kind, subject@, (prop@, text@)));
        ai += 1;
    }
    proof { assert(anns.take(anns.len() as int) =~= anns); }
}

/// Whether the annotation property is a definition.
pub open spec fn is_definition_prop(ps: Seq<(Seq<char>, Seq<char>)>, prop: Seq<char>) -> bool {
    prop == "skos:definition"@ || {
        let x = expand_from(ps, prop, 0);
        let suffix = "skos/core#definition"@;
        x.len() >= suffix.len() && x.skip(x.len() - suffix.len()) == suffix
    }
}

/// One annotation `a` of a frame of kind `k` on subject `s`: a label, or for a data
/// property a definition that lists its values (the first per property).
pub open spec fn ann_step(st: AnnSt, ps: Seq<(Seq<char>, Seq<char>)>, k: FrameKind, s: Seq<char>, a: (Seq<char>, Seq<char>)) -> AnnSt {
    if crate::verbalise::is_label_prop(ps, a.0) {
        label_step(st, s, a.1)
    } else if k is DataProperty && is_definition_prop(ps, a.0) {
        match enum_values_spec(a.1) {
            Some(v) => {
                let q = quoted_of(v);
                if q.len() >= 2 && !st.enums.contains(s) {
                    AnnSt { enums: st.enums.push(s), anns: st.anns.push(enum_line(s, q)), ..st }
                } else {
                    st
                }
            },
            None => st,
        }
    } else {
        st
    }
}

/// The annotations of a frame, in order.
pub open spec fn anns_ann(st: AnnSt, ps: Seq<(Seq<char>, Seq<char>)>, k: FrameKind, s: Seq<char>, anns: Seq<(Seq<char>, Seq<char>)>) -> AnnSt
    decreases anns.len(),
{
    if anns.len() == 0 { st } else { ann_step(anns_ann(st, ps, k, s, anns.drop_last()), ps, k, s, anns.last()) }
}

/// The `form` lines of the named items of a section, with the subject first or second.
pub open spec fn named_axioms(ps: Seq<(Seq<char>, Seq<char>)>, form: Seq<char>, s: Seq<char>, items: Seq<ExprV>, subject_first: bool) -> Seq<Seq<char>>
    decreases items.len(),
{
    if items.len() == 0 {
        Seq::empty()
    } else {
        named_axioms(ps, form, s, items.drop_last(), subject_first) + match items.last() {
            ExprV::Named(n) => {
                let x = expand_from(ps, n, 0);
                seq![if subject_first { line2_spec(form, s, x) } else { line2_spec(form, x, s) }]
            },
            _ => Seq::empty(),
        }
    }
}

/// The reasoning-tier lines of one section of a frame of kind `k` on subject `s`.
pub open spec fn section_axioms(ps: Seq<(Seq<char>, Seq<char>)>, ok: Seq<Seq<char>>, k: FrameKind, s: Seq<char>, sec: SectionV) -> Seq<Seq<char>> {
    let kw = sec.keyword;
    match k {
        FrameKind::Class => if kw == "SubClassOf"@ || kw == "EquivalentTo"@ {
            seq_axioms(ps, ok, s, sec.items)
        } else if kw == "DisjointWith"@ {
            named_axioms(ps, "DisjointClasses"@, s, sec.items, true)
        } else {
            Seq::empty()
        },
        FrameKind::ObjectProperty => if kw == "Domain"@ {
            named_axioms(ps, "PropertyDomain"@, s, sec.items, true)
        } else if kw == "Range"@ {
            named_axioms(ps, "PropertyRange"@, s, sec.items, true)
        } else {
            Seq::empty()
        },
        FrameKind::Individual => if kw == "Types"@ {
            named_axioms(ps, "ClassAssertion"@, s, sec.items, false)
        } else {
            Seq::empty()
        },
        _ => Seq::empty(),
    }
}

/// The reasoning-tier lines of the sections, in order.
pub open spec fn sections_axioms(ps: Seq<(Seq<char>, Seq<char>)>, ok: Seq<Seq<char>>, k: FrameKind, s: Seq<char>, secs: Seq<SectionV>) -> Seq<Seq<char>>
    decreases secs.len(),
{
    if secs.len() == 0 {
        Seq::empty()
    } else {
        sections_axioms(ps, ok, k, s, secs.drop_last()) + section_axioms(ps, ok, k, s, secs.last())
    }
}

/// The reasoning-tier lines of a frame.
pub open spec fn frame_axioms(ps: Seq<(Seq<char>, Seq<char>)>, ok: Seq<Seq<char>>, f: FrameV) -> Seq<Seq<char>> {
    match f.kind {
        FrameKind::Class | FrameKind::ObjectProperty | FrameKind::Individual =>
            sections_axioms(ps, ok, f.kind, expand_from(ps, f.subject, 0), f.sections),
        _ => Seq::empty(),
    }
}

/// The lines of a named item of a section (none for any other item).
fn named_line(ctx: &mut Ctx, doc: &Document, item: &Expr, form: &str, subject: &String, subject_first: bool, skip_key: &str)
    requires
        old(ctx).wf(),
    ensures
        final(ctx).ann_st() == match ev(*item) { ExprV::Named(_) => old(ctx).ann_st(), _ => skip_ev(old(ctx).ann_st(), skip_key@) },
        final(ctx).identifier_props == old(ctx).identifier_props,
        final(ctx).wf(),
        names_view(final(ctx).axioms@) == names_view(old(ctx).axioms@) + match ev(*item) {
            ExprV::Named(n) => {
                let x = expand_from(prefixes_view(doc.prefixes@), n, 0);
                seq![if subject_first { line2_spec(form@, subject@, x) } else { line2_spec(form@, x, subject@) }]
            },
            _ => Seq::<Seq<char>>::empty(),
        },
{
    let ghost before = names_view(ctx.axioms@);
    match item {
        Expr::Named(n) => {
            let n = doc.expand(n.as_str());
            if subject_first {
                ctx.ax(line2(form, subject.as_str(), n.as_str()));
            } else {
                ctx.ax(line2(form, n.as_str(), subject.as_str()));
            }
        },
        _ => {
            ctx.skip(skip_key);
            assert(before + Seq::<Seq<char>>::empty() =~= before);
        },
    }
}

/// The named-item lines of a whole section.
fn named_lines(ctx: &mut Ctx, doc: &Document, section: &Section, form: &str, subject: &String, subject_first: bool, skip_key: &str)
    requires
        old(ctx).wf(),
    ensures
        final(ctx).ann_st() == nonnamed_skips(old(ctx).ann_st(), skip_key@, evs(section.items@)),
        final(ctx).identifier_props == old(ctx).identifier_props,
        final(ctx).wf(),
        names_view(final(ctx).axioms@) == names_view(old(ctx).axioms@)
            + named_axioms(prefixes_view(doc.prefixes@), form@, subject@, evs(section.items@), subject_first),
{
    let ghost ps = prefixes_view(doc.prefixes@);
    let ghost base = names_view(ctx.axioms@);
    let ghost xs = evs(section.items@);
    let mut ii: usize = 0;
    proof { assert(xs.take(0) =~= Seq::<ExprV>::empty()); assert(base + Seq::<Seq<char>>::empty() =~= base); }
    while ii < section.items.len()
        invariant
            ctx.wf(),
            ii <= section.items@.len(),
            ps == prefixes_view(doc.prefixes@),
            xs == evs(section.items@),
            names_view(ctx.axioms@) == base + named_axioms(ps, form@, subject@, xs.take(ii as int), subject_first),
            ctx.ann_st() == nonnamed_skips(old(ctx).ann_st(), skip_key@, xs.take(ii as int)),
            ctx.identifier_props == old(ctx).identifier_props,
        decreases section.items@.len() - ii,
    {
        named_line(ctx, doc, &section.items[ii], form, subject, subject_first, skip_key);
        proof {
            let t = xs.take(ii + 1);
            assert(t.drop_last() =~= xs.take(ii as int));
            assert(t.last() == ev(section.items@[ii as int]));
        }
        ii += 1;
    }
    proof { assert(xs.take(xs.len() as int) =~= xs); }
}

/// The superclass-position lines of a whole `SubClassOf`/`EquivalentTo` section.
fn conj_lines(ctx: &mut Ctx, doc: &Document, oneof: &Vec<(String, Vec<String>)>, section: &Section, subject: &String)
    requires
        old(ctx).wf(),
    ensures
        final(ctx).wf(),
        names_view(final(ctx).axioms@) == names_view(old(ctx).axioms@)
            + seq_axioms(prefixes_view(doc.prefixes@), oneof_keys(oneof@), subject@, evs(section.items@)),
        final(ctx).identifier_props == old(ctx).identifier_props,
        final(ctx).ann_st() == seq_ann(old(ctx).ann_st(), prefixes_view(doc.prefixes@), crate::shapes::enums_view(oneof@),
            names_view(old(ctx).identifier_props@), subject@, evs(section.items@)),
{
    let ghost ps = prefixes_view(doc.prefixes@);
    let ghost ok = oneof_keys(oneof@);
    let ghost base = names_view(ctx.axioms@);
    let ghost xs = evs(section.items@);
    let ghost om = crate::shapes::enums_view(oneof@);
    let ghost ids = names_view(ctx.identifier_props@);
    let ghost st_base = ctx.ann_st();
    let mut ii: usize = 0;
    proof { assert(xs.subrange(0, 0) =~= Seq::<ExprV>::empty()); assert(base + Seq::<Seq<char>>::empty() =~= base); }
    while ii < section.items.len()
        invariant
            ctx.wf(),
            ii <= section.items@.len(),
            ps == prefixes_view(doc.prefixes@),
            ok == oneof_keys(oneof@),
            xs == evs(section.items@),
            names_view(ctx.axioms@) == base + seq_axioms(ps, ok, subject@, xs.subrange(0, ii as int)),
            om == crate::shapes::enums_view(oneof@),
            ids == names_view(ctx.identifier_props@),
            ctx.identifier_props == old(ctx).identifier_props,
            ctx.ann_st() == seq_ann(st_base, ps, om, ids, subject@, xs.subrange(0, ii as int)),
        decreases section.items@.len() - ii,
    {
        let ghost b_item = names_view(ctx.axioms@);
        let ghost st_item = ctx.ann_st();
        let item = &section.items[ii];
        let conj = item.conjuncts();
        let ghost cv = Seq::new(conj@.len(), |k: int| ev(*conj@[k]));
        proof {
            assert(cv.subrange(0, 0) =~= Seq::<ExprV>::empty());
            assert(b_item + Seq::<Seq<char>>::empty() =~= b_item);
        }
        let mut c: usize = 0;
        while c < conj.len()
            invariant
                ctx.wf(),
                c <= conj@.len(),
                cv.len() == conj@.len(),
                forall|k: int| 0 <= k < conj@.len() ==> cv[k] == ev(*conj@[k]),
                ps == prefixes_view(doc.prefixes@),
                ok == oneof_keys(oneof@),
                names_view(ctx.axioms@) == b_item + seq_axioms(ps, ok, subject@, cv.subrange(0, c as int)),
                om == crate::shapes::enums_view(oneof@),
                ids == names_view(ctx.identifier_props@),
                ctx.identifier_props == old(ctx).identifier_props,
                ctx.ann_st() == seq_ann(st_item, ps, om, ids, subject@, cv.subrange(0, c as int)),
            decreases conj@.len() - c,
        {
            ctx.lower_conjunct(doc, oneof, subject.as_str(), conj[c]);
            proof {
                let sub = cv.subrange(0, c + 1);
                assert(sub.subrange(0, sub.len() - 1) =~= cv.subrange(0, c as int));
                assert(sub[sub.len() - 1] == cv[c as int]);
            }
            c += 1;
        }
        proof {
            assert(cv.subrange(0, cv.len() as int) =~= cv);
            match item {
                Expr::And(parts) => {
                    assert(cv =~= ev_all(*parts));
                    assert(ev(*item) == ExprV::And(ev_all(*parts)));
                    assert(conj_axioms(ps, ok, subject@, ev(*item)) == seq_axioms(ps, ok, subject@, cv));
                    assert(conj_ann(st_item, ps, om, ids, subject@, ev(*item)) == seq_ann(st_item, ps, om, ids, subject@, cv));
                },
                _ => {
                    assert(cv =~= seq![ev(*item)]);
                    assert(cv.subrange(0, cv.len() - 1) =~= Seq::<ExprV>::empty());
                    assert(seq_ann(st_item, ps, om, ids, subject@, cv) == conj_ann(seq_ann(st_item, ps, om, ids, subject@, cv.subrange(0, cv.len() - 1)), ps, om, ids, subject@, cv[cv.len() - 1]));
                    assert(seq_axioms(ps, ok, subject@, Seq::<ExprV>::empty()) == Seq::<Seq<char>>::empty());
                    assert(seq_axioms(ps, ok, subject@, cv) == seq_axioms(ps, ok, subject@, cv.subrange(0, cv.len() - 1)) + conj_axioms(ps, ok, subject@, cv[cv.len() - 1]));
                    assert(cv[cv.len() - 1] == ev(*item));
                    assert(Seq::<Seq<char>>::empty() + conj_axioms(ps, ok, subject@, ev(*item)) =~= conj_axioms(ps, ok, subject@, ev(*item)));
                    assert(seq_axioms(ps, ok, subject@, cv) =~= conj_axioms(ps, ok, subject@, ev(*item)));
                },
            }
            let sub = xs.subrange(0, ii + 1);
            assert(sub.subrange(0, sub.len() - 1) =~= xs.subrange(0, ii as int));
            assert(sub[sub.len() - 1] == ev(*item));
            assert(seq_axioms(ps, ok, subject@, cv) == conj_axioms(ps, ok, subject@, ev(*item)));
            assert(seq_axioms(ps, ok, subject@, sub) == seq_axioms(ps, ok, subject@, xs.subrange(0, ii as int)) + conj_axioms(ps, ok, subject@, ev(*item)));
            assert(names_view(ctx.axioms@) == b_item + seq_axioms(ps, ok, subject@, cv));
            assert(names_view(ctx.axioms@) =~= base + seq_axioms(ps, ok, subject@, sub));
            assert(ctx.ann_st() == seq_ann(st_base, ps, om, ids, subject@, sub));
        }
        ii += 1;
    }
    proof { assert(xs.subrange(0, xs.len() as int) =~= xs); }
}

/// The lines of one section of a frame of kind `kind`.
fn lower_section(ctx: &mut Ctx, doc: &Document, oneof: &Vec<(String, Vec<String>)>, kind: FrameKind, section: &Section, subject: &String)
    requires
        old(ctx).wf(),
        !(kind is DataProperty) && !(kind is AnnotationProperty) && !(kind is Datatype),
    ensures
        final(ctx).wf(),
        names_view(final(ctx).axioms@) == names_view(old(ctx).axioms@)
            + section_axioms(prefixes_view(doc.prefixes@), oneof_keys(oneof@), kind, subject@, section@),
        final(ctx).identifier_props == old(ctx).identifier_props,
        final(ctx).ann_st() == section_ann(old(ctx).ann_st(), prefixes_view(doc.prefixes@), crate::shapes::enums_view(oneof@),
            names_view(old(ctx).identifier_props@), kind, subject@, section@),
{
    proof {
        reveal_strlit("SubClassOf");
        reveal_strlit("EquivalentTo");
        reveal_strlit("DisjointWith");
        reveal_strlit("HasKey");
        reveal_strlit("Domain");
        reveal_strlit("Range");
        reveal_strlit("Types");
        reveal_strlit("Annotations");
    }
    let ghost base = names_view(ctx.axioms@);
    let ghost st_in = ctx.ann_st();
    let ghost ps0 = prefixes_view(doc.prefixes@);
    let ghost om0 = crate::shapes::enums_view(oneof@);
    let ghost ids0 = names_view(ctx.identifier_props@);
    ctx.cur_line = section.line;
    let kw = section.keyword.as_str();
    assert(kw@ == section@.keyword);
    let is_class = matches!(kind, FrameKind::Class);
    let is_prop = matches!(kind, FrameKind::ObjectProperty);
    if is_class && (eq_str(kw, "SubClassOf") || eq_str(kw, "EquivalentTo")) {
        conj_lines(ctx, doc, oneof, section, subject);
    } else if is_class && eq_str(kw, "DisjointWith") {
        named_lines(ctx, doc, section, "DisjointClasses", subject, true, "disjoint:non-atomic");
    } else if is_class && eq_str(kw, "HasKey") {
        let ghost ps = prefixes_view(doc.prefixes@);
        let ghost items = section@.items;
        let ghost st0 = ctx.ann_st();
        let mut props: Vec<String> = Vec::new();
        proof { assert(items.take(0) =~= Seq::<ExprV>::empty()); assert(names_view(props@) =~= Seq::<Seq<char>>::empty()); }
        let mut ii: usize = 0;
        while ii < section.items.len()
            invariant
                ctx.wf(),
                ii <= section.items@.len(),
                names_view(ctx.axioms@) == base,
                ps == prefixes_view(doc.prefixes@),
                items == section@.items,
                ctx.ann_st() == nonnamed_skips(st0, "haskey:non-atomic"@, items.take(ii as int)),
                ctx.identifier_props == old(ctx).identifier_props,
                names_view(props@) == haskey_props(ps, items.take(ii as int)),
            decreases section.items@.len() - ii,
        {
            let ghost pb = names_view(props@);
            proof {
                let t = items.take(ii + 1);
                assert(t.drop_last() =~= items.take(ii as int));
                assert(t.last() == ev(section.items@[ii as int]));
            }
            match &section.items[ii] {
                Expr::Named(n) => {
                    let x = doc.expand(n.as_str());
                    let ghost xv = x@;
                    props.push(x);
                    proof { assert(names_view(props@) =~= pb + seq![xv]); }
                },
                _ => {
                    ctx.skip("haskey:non-atomic");
                    proof { assert(pb + Seq::<Seq<char>>::empty() =~= pb); }
                },
            }
            ii += 1;
        }
        proof { assert(items.take(items.len() as int) =~= items); reveal_strlit("k1_haskey_composite"); reveal_strlit("k1_haskey"); }
        if props.len() > 0 {
            ctx.stat(if props.len() > 1 { "k1_haskey_composite" } else { "k1_haskey" });
            let ghost kv = names_view(props@);
            let mut bracketed: Vec<String> = Vec::new();
            let mut k: usize = 0;
            while k < props.len()
                invariant
                    k <= props@.len(),
                    kv == names_view(props@),
                    names_view(bracketed@) == kv.take(k as int).map_values(|x: Seq<char>| "<"@ + x + ">"@),
                decreases props@.len() - k,
            {
                let ghost before = names_view(bracketed@);
                bracketed.push(angled(String::new(), props[k].as_str()));
                proof {
                    assert(names_view(bracketed@) =~= before.push("<"@ + kv[k as int] + ">"@));
                    assert(kv.take(k + 1).map_values(|x: Seq<char>| "<"@ + x + ">"@) =~= kv.take(k as int).map_values(|x: Seq<char>| "<"@ + x + ">"@).push("<"@ + kv[k as int] + ">"@));
                }
                k += 1;
            }
            proof { assert(kv.take(kv.len() as int) =~= kv); }
            let l = cat(angled(String::from_str("@Key "), subject.as_str()), " ");
            let l2 = cat(l, join(&bracketed, " ").as_str());
            assert(l2@ =~= "@Key "@ + "<"@ + subject@ + ">"@ + " "@ + join_spec(kv.map_values(|k: Seq<char>| "<"@ + k + ">"@), " "@));
            ctx.ann(l2);
            assert(ctx.ann_st() == haskey_ann(st_in, ps0, subject@, items));
        } else {
            assert(ctx.ann_st() == haskey_ann(st_in, ps0, subject@, items));
        }
        assert(ctx.ann_st() == section_ann(st_in, ps0, om0, ids0, kind, subject@, section@));
        assert(base + Seq::<Seq<char>>::empty() =~= base);
    } else if is_prop && eq_str(kw, "Domain") {
        named_lines(ctx, doc, section, "PropertyDomain", subject, true, "domain:non-atomic");
    } else if is_prop && eq_str(kw, "Range") {
        named_lines(ctx, doc, section, "PropertyRange", subject, true, "range:non-atomic");
    } else if !is_class && !is_prop && eq_str(kw, "Types") {
        named_lines(ctx, doc, section, "ClassAssertion", subject, false, "types:non-atomic");
    } else {
        if !eq_str(kw, "Annotations") {
            ctx.skip(cat(String::from_str("section:"), kw).as_str());
        }
        assert(base + Seq::<Seq<char>>::empty() =~= base);
    }
}

/// The named properties of a `HasKey` section, expanded.
pub open spec fn haskey_props(ps: Seq<(Seq<char>, Seq<char>)>, items: Seq<ExprV>) -> Seq<Seq<char>>
    decreases items.len(),
{
    if items.len() == 0 {
        Seq::empty()
    } else {
        haskey_props(ps, items.drop_last()) + match items.last() {
            ExprV::Named(n) => seq![expand_from(ps, n, 0)],
            _ => Seq::empty(),
        }
    }
}

/// The key line of a `HasKey` section of `s`, when it names a property.
pub open spec fn haskey_ann(st: AnnSt, ps: Seq<(Seq<char>, Seq<char>)>, s: Seq<char>, items: Seq<ExprV>) -> AnnSt {
    let st0 = nonnamed_skips(st, "haskey:non-atomic"@, items);
    let ks = haskey_props(ps, items);
    if ks.len() > 0 {
        emit_ann(stat_ev(st0, if ks.len() > 1 { "k1_haskey_composite"@ } else { "k1_haskey"@ }),
            "@Key "@ + "<"@ + s + ">"@ + " "@ + join_spec(ks.map_values(|k: Seq<char>| "<"@ + k + ">"@), " "@))
    } else {
        st0
    }
}

/// Each item of a section that is not a named entity is counted as skipped under `key`.
pub open spec fn nonnamed_skips(st: AnnSt, key: Seq<char>, items: Seq<ExprV>) -> AnnSt
    decreases items.len(),
{
    if items.len() == 0 {
        st
    } else {
        let s0 = nonnamed_skips(st, key, items.drop_last());
        match items.last() {
            ExprV::Named(_) => s0,
            _ => skip_ev(s0, key),
        }
    }
}

/// The annotation lines of one section of a frame of kind `k` on subject `s`.
pub open spec fn section_ann(st: AnnSt, ps: Seq<(Seq<char>, Seq<char>)>, om: Seq<(Seq<char>, Seq<Seq<char>>)>, ids: Seq<Seq<char>>, k: FrameKind, s: Seq<char>, sec: SectionV) -> AnnSt {
    if k is Class && (sec.keyword == "SubClassOf"@ || sec.keyword == "EquivalentTo"@) {
        seq_ann(st, ps, om, ids, s, sec.items)
    } else if k is Class && sec.keyword == "DisjointWith"@ {
        nonnamed_skips(st, "disjoint:non-atomic"@, sec.items)
    } else if k is Class && sec.keyword == "HasKey"@ {
        haskey_ann(st, ps, s, sec.items)
    } else if k is ObjectProperty && sec.keyword == "Domain"@ {
        nonnamed_skips(st, "domain:non-atomic"@, sec.items)
    } else if k is ObjectProperty && sec.keyword == "Range"@ {
        nonnamed_skips(st, "range:non-atomic"@, sec.items)
    } else if !(k is Class) && !(k is ObjectProperty) && sec.keyword == "Types"@ {
        nonnamed_skips(st, "types:non-atomic"@, sec.items)
    } else if sec.keyword == "Annotations"@ {
        st
    } else {
        skip_ev(st, "section:"@ + sec.keyword)
    }
}

/// The annotation lines of the sections, in order.
pub open spec fn sections_ann(st: AnnSt, ps: Seq<(Seq<char>, Seq<char>)>, om: Seq<(Seq<char>, Seq<Seq<char>>)>, ids: Seq<Seq<char>>, k: FrameKind, s: Seq<char>, secs: Seq<SectionV>) -> AnnSt
    decreases secs.len(),
{
    if secs.len() == 0 { st } else { section_ann(sections_ann(st, ps, om, ids, k, s, secs.drop_last()), ps, om, ids, k, s, secs.last()) }
}

/// The annotation lines of a frame's sections.
pub open spec fn frame_sections_ann(st: AnnSt, ps: Seq<(Seq<char>, Seq<char>)>, om: Seq<(Seq<char>, Seq<Seq<char>>)>, ids: Seq<Seq<char>>, f: FrameV) -> AnnSt {
    if f.kind is DataProperty || f.kind is AnnotationProperty || f.kind is Datatype {
        skip_ev(st, "frame:"@ + crate::manchester::keyword_of(f.kind))
    } else {
        sections_ann(st, ps, om, ids, f.kind, expand_from(ps, f.subject, 0), f.sections)
    }
}

/// The sections of one frame.
fn lower_sections(ctx: &mut Ctx, doc: &Document, oneof: &Vec<(String, Vec<String>)>, frame: &crate::manchester::Frame, subject: &String)
    requires
        old(ctx).wf(),
        subject@ == expand_from(prefixes_view(doc.prefixes@), frame.subject@, 0),
    ensures
        final(ctx).wf(),
        names_view(final(ctx).axioms@) == names_view(old(ctx).axioms@)
            + frame_axioms(prefixes_view(doc.prefixes@), oneof_keys(oneof@), frame@),
        final(ctx).identifier_props == old(ctx).identifier_props,
        final(ctx).ann_st() == frame_sections_ann(old(ctx).ann_st(), prefixes_view(doc.prefixes@), crate::shapes::enums_view(oneof@),
            names_view(old(ctx).identifier_props@), frame@),
{
    let ghost base = names_view(ctx.axioms@);
    let ghost st0 = ctx.ann_st();
    let ghost om = crate::shapes::enums_view(oneof@);
    let ghost ids = names_view(ctx.identifier_props@);
    match frame.kind {
        FrameKind::DataProperty | FrameKind::AnnotationProperty | FrameKind::Datatype => {
            ctx.skip(cat(String::from_str("frame:"), frame.kind.keyword()).as_str());
            assert(base + Seq::<Seq<char>>::empty() =~= base);
            return;
        },
        _ => {},
    }
    let ghost ps = prefixes_view(doc.prefixes@);
    let ghost ok = oneof_keys(oneof@);
    let ghost secs = frame@.sections;
    proof { assert(secs.take(0) =~= Seq::<SectionV>::empty()); assert(base + Seq::<Seq<char>>::empty() =~= base); }
    let mut si: usize = 0;
    while si < frame.sections.len()
        invariant
            ctx.wf(),
            si <= frame.sections@.len(),
            !(frame.kind is DataProperty) && !(frame.kind is AnnotationProperty) && !(frame.kind is Datatype),
            ps == prefixes_view(doc.prefixes@),
            ok == oneof_keys(oneof@),
            secs == frame@.sections,
            names_view(ctx.axioms@) == base + sections_axioms(ps, ok, frame.kind, subject@, secs.take(si as int)),
            om == crate::shapes::enums_view(oneof@),
            ids == names_view(ctx.identifier_props@),
            ctx.identifier_props == old(ctx).identifier_props,
            ctx.ann_st() == sections_ann(st0, ps, om, ids, frame.kind, subject@, secs.take(si as int)),
        decreases frame.sections@.len() - si,
    {
        lower_section(ctx, doc, oneof, frame.kind, &frame.sections[si], subject);
        proof {
            let t = secs.take(si + 1);
            assert(t.drop_last() =~= secs.take(si as int));
            assert(t.last() == frame.sections@[si as int]@);
        }
        si += 1;
    }
    proof { assert(secs.take(secs.len() as int) =~= secs); }
}

} // verus!
