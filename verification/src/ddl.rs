//! Certified entailments and annotations → semantic DDL, every element cited.
//!
//! Each emitted table, column, foreign key, junction and lookup carries `cites`: the source
//! lines of the axioms and annotations that justify it. The planner cites; it never proves:
//! the saturation runs first, and an inconsistent ontology gets no DDL.
//!
//! Rules: a table per class with at least one rolled-up attribute or restriction, and a
//! bare reference table for each foreign-key target not otherwise elected; subclasses
//! inherit superclass attributes and restrictions (own declaration wins, cites carry the
//! subsumption path); `some`/`exactly 1`/`min 1` → NOT NULL foreign key, `max 1` →
//! nullable foreign key, bounds beyond one → junction table, `@Enum` → lookup table.
//! Names are the IRI local names in snake case. Every rendered statement is checked by the
//! SQL parser before it leaves.
use vstd::prelude::*;
use crate::fragment::{Annotation, Axiom, names_view};
use crate::manchester::lower::{has, join, join_spec, Tally};
use crate::text::{cat, chars_of, compare_str, eq_str, fmt_u64, insert_sorted, string_of, strictly_sorted, Cmp3, decimal, digits_value, digit_value, digit_char, seq_lt, lemma_seq_lt_trans};

verus! {

/// A column of a table.
#[derive(Debug)]
pub struct Column {
    pub name: String,
    pub sql_type: String,
    pub nullable: bool,
    pub pk: bool,
    pub unique: bool,
    /// The property IRI the column realizes (none for the surrogate id).
    pub prop: Option<String>,
    /// The readable rendering of the citation.
    pub comment: Option<String>,
    pub cites: Vec<usize>,
}

/// A foreign key.
#[derive(Debug)]
pub struct Fk {
    pub column: String,
    pub target_class: String,
    pub target_table: String,
    pub cites: Vec<usize>,
}

/// A table.
#[derive(Debug)]
pub struct Table {
    pub class: String,
    pub name: String,
    pub label: Option<String>,
    pub comment: Option<String>,
    pub columns: Vec<Column>,
    pub fks: Vec<Fk>,
    pub cites: Vec<usize>,
}

/// A junction table for a many-valued relation.
#[derive(Debug)]
pub struct Junction {
    pub name: String,
    pub subject_class: String,
    pub subject_table: String,
    pub target_class: String,
    pub target_table: String,
    pub prop: String,
    pub cites: Vec<usize>,
}

/// A lookup table for a closed value set.
#[derive(Debug)]
pub struct Lookup {
    pub name: String,
    pub prop: String,
    pub values: Vec<String>,
    pub cites: Vec<usize>,
}

/// The DDL plan.
#[derive(Debug)]
pub struct Plan {
    /// Which election paths fired, with their counts.
    pub stats: Tally,
    pub tables: Vec<Table>,
    pub junctions: Vec<Junction>,
    pub lookups: Vec<Lookup>,
    pub warnings: Vec<String>,
    pub n_reference_tables: usize,
    pub sql_valid: bool,
}

/// An ASCII capital letter.
pub open spec fn upper(c: char) -> bool {
    'A' <= c && c <= 'Z'
}

/// An ASCII letter or digit.
pub open spec fn alnum(c: char) -> bool {
    ('a' <= c && c <= 'z') || upper(c) || ('0' <= c && c <= '9')
}

/// The snake-case characters of `s[i..]` appended to `out`, after a lowercase letter or
/// digit when `prev`.
pub open spec fn snake_acc(s: Seq<char>, i: int, prev: bool, out: Seq<char>) -> Seq<char>
    decreases s.len() - i,
{
    if i < 0 || i >= s.len() {
        out
    } else {
        let c = s[i];
        if upper(c) {
            let o = if prev { out.push('_') } else { out };
            snake_acc(s, i + 1, false, o.push(crate::verbalise::lower_of(c)))
        } else if alnum(c) {
            snake_acc(s, i + 1, ('a' <= c && c <= 'z') || ('0' <= c && c <= '9'), out.push(c))
        } else {
            let o = if out.len() > 0 && out.last() != '_' { out.push('_') } else { out };
            snake_acc(s, i + 1, false, o)
        }
    }
}

/// A local name in snake case: camel humps and punctuation become single underscores, no
/// underscore at either end, `t` for nothing, and a `t_` before a leading digit.
pub open spec fn snake_spec(s: Seq<char>) -> Seq<char> {
    let t = crate::text::drop_trailing(crate::text::drop_leading(snake_acc(s, 0, false, Seq::empty()), '_'), '_');
    if t.len() == 0 {
        "t"@
    } else if '0' <= t[0] && t[0] <= '9' {
        "t_"@ + t
    } else {
        t
    }
}

/// A local name in snake case.
pub fn snake(s: &str) -> (r: String)
    ensures
        r@ == snake_spec(s@),
{
    let v = chars_of(s);
    let mut out: Vec<char> = Vec::new();
    let mut prev = false;
    let mut i: usize = 0;
    while i < v.len()
        invariant
            v@ == s@,
            i <= v@.len(),
            snake_acc(s@, 0, false, Seq::empty()) == snake_acc(s@, i as int, prev, out@),
        decreases v@.len() - i,
    {
        let c = v[i];
        if 'A' <= c && c <= 'Z' {
            if prev {
                out.push('_');
            }
            out.push(((c as u8) + 32) as char);
            prev = false;
        } else if ('a' <= c && c <= 'z') || ('0' <= c && c <= '9') {
            prev = true;
            out.push(c);
        } else {
            if out.len() > 0 && out[out.len() - 1] != '_' {
                out.push('_');
            }
            prev = false;
        }
        i += 1;
    }
    let mut a: usize = 0;
    let n = out.len();
    assert(out@.subrange(0, n as int) =~= out@);
    while a < n && out[a] == '_'
        invariant
            n == out@.len(),
            a <= n,
            crate::text::drop_leading(out@, '_') == crate::text::drop_leading(out@.subrange(a as int, n as int), '_'),
        decreases n - a,
    {
        assert(out@.subrange(a as int, n as int).drop_first() =~= out@.subrange(a + 1, n as int));
        a += 1;
    }
    assert(crate::text::drop_leading(out@.subrange(a as int, n as int), '_') == out@.subrange(a as int, n as int));
    let mut b = n;
    while b > a && out[b - 1] == '_'
        invariant
            n == out@.len(),
            a <= b <= n,
            crate::text::drop_trailing(out@.subrange(a as int, n as int), '_') == crate::text::drop_trailing(out@.subrange(a as int, b as int), '_'),
        decreases b - a,
    {
        assert(out@.subrange(a as int, b as int).drop_last() =~= out@.subrange(a as int, b - 1));
        b -= 1;
    }
    assert(crate::text::drop_trailing(out@.subrange(a as int, b as int), '_') == out@.subrange(a as int, b as int));
    let t = string_of(&out, a, b);
    if a == b {
        String::from_str("t")
    } else if '0' <= out[a] && out[a] <= '9' {
        assert(t@[0] == out@[a as int]);
        cat(String::from_str("t_"), t.as_str())
    } else {
        assert(t@[0] == out@[a as int]);
        t
    }
}


/// The local name of an IRI.
fn local_of(iri: &str) -> (r: String)
    ensures
        r@ == crate::verbalise::local_spec(iri@),
{
    let v = chars_of(iri);
    let a = crate::verbalise::local(&v);
    let r = string_of(&v, a, v.len());
    assert(v@.subrange(a as int, v@.len() as int) =~= v@.skip(a as int));
    r
}

/// A local name begins with `has`.
pub open spec fn has_has(l: Seq<char>) -> bool {
    l.len() >= 3 && l[0] == 'h' && l[1] == 'a' && l[2] == 's'
}

/// A property's column name: its local name, without a `has`/`is` before a capital or an
/// underscore, in snake case.
pub open spec fn prop_col_spec(iri: Seq<char>) -> Seq<char> {
    let l = crate::verbalise::local_spec(iri);
    let stripped = if has_has(l) {
        if l.len() > 3 && (upper(l[3]) || l[3] == '_') { l.skip(3) } else { l }
    } else if l.len() > 2 && l[0] == 'i' && l[1] == 's' && (upper(l[2]) || l[2] == '_') {
        l.skip(2)
    } else {
        l
    };
    snake_spec(stripped)
}

/// A property's column name.
pub fn prop_col(iri: &str) -> (r: String)
    ensures
        r@ == prop_col_spec(iri@),
{
    let l = local_of(iri);
    let v = chars_of(l.as_str());
    let n = v.len();
    let has3 = n >= 3 && v[0] == 'h' && v[1] == 'a' && v[2] == 's';
    let start: usize = if has3 {
        if n > 3 && (('A' <= v[3] && v[3] <= 'Z') || v[3] == '_') { 3 } else { 0 }
    } else if n > 2 && v[0] == 'i' && v[1] == 's' && (('A' <= v[2] && v[2] <= 'Z') || v[2] == '_') {
        2
    } else {
        0
    };
    let stripped = string_of(&v, start, n);
    proof {
        let l = crate::verbalise::local_spec(iri@);
        assert(v@ == l);
        assert(stripped@ =~= v@.skip(start as int));
        assert(v@.skip(0) =~= v@);
        let sp = if has_has(l) {
            if l.len() > 3 && (upper(l[3]) || l[3] == '_') { l.skip(3) } else { l }
        } else if l.len() > 2 && l[0] == 'i' && l[1] == 's' && (upper(l[2]) || l[2] == '_') {
            l.skip(2)
        } else {
            l
        };
        assert(stripped@ == sp);
    }
    snake(stripped.as_str())
}

/// The SQL type of an XML Schema datatype (by its local name).
pub open spec fn sql_type_spec(xsd: Seq<char>) -> Seq<char> {
    let l = crate::verbalise::local_spec(xsd);
    if l == "dateTime"@ {
        "TIMESTAMP"@
    } else if l == "date"@ {
        "DATE"@
    } else if l == "decimal"@ {
        "DECIMAL(38,9)"@
    } else if l == "double"@ || l == "float"@ {
        "DOUBLE"@
    } else if l == "integer"@ || l == "int"@ {
        "INTEGER"@
    } else if l == "long"@ {
        "BIGINT"@
    } else if l == "boolean"@ {
        "BOOLEAN"@
    } else {
        "VARCHAR(255)"@
    }
}

/// Past a separator, the local name is all that follows when it holds no separator.
proof fn lemma_local_after_sep(ns: Seq<char>, l: Seq<char>, j: int)
    requires
        ns.len() > 0,
        crate::verbalise::is_sep(ns.last()),
        forall|k: int| 0 <= k < l.len() ==> !crate::verbalise::is_sep(#[trigger] l[k]),
        ns.len() <= j <= ns.len() + l.len(),
    ensures
        crate::verbalise::last_sep(ns + l, j) == ns.len() - 1,
    decreases j,
{
    let s = ns + l;
    if j > ns.len() {
        assert(s[j - 1] == l[j - 1 - ns.len()]);
        lemma_local_after_sep(ns, l, j - 1);
    } else {
        assert(s[j - 1] == ns.last());
    }
}

/// The local name of `ns + l` is `l` when `ns` ends in a separator and `l` holds none.
proof fn lemma_local_of_qualified(ns: Seq<char>, l: Seq<char>)
    requires
        ns.len() > 0,
        crate::verbalise::is_sep(ns.last()),
        forall|k: int| 0 <= k < l.len() ==> !crate::verbalise::is_sep(#[trigger] l[k]),
    ensures
        crate::verbalise::local_spec(ns + l) == l,
{
    lemma_local_after_sep(ns, l, (ns.len() + l.len()) as int);
    assert((ns + l).skip(ns.len() as int) =~= l);
}

/// The XML Schema to SQL type map, in any namespace that ends in `#` or `/`: `integer` and
/// `int` are INTEGER, `long` BIGINT, `boolean` BOOLEAN, `date` DATE, `dateTime` TIMESTAMP,
/// `decimal` DECIMAL(38,9), `double` and `float` DOUBLE, and every other local name
/// VARCHAR(255).
pub proof fn lemma_sql_type_map(ns: Seq<char>, l: Seq<char>)
    requires
        ns.len() > 0,
        crate::verbalise::is_sep(ns.last()),
        forall|k: int| 0 <= k < l.len() ==> !crate::verbalise::is_sep(#[trigger] l[k]),
    ensures
        sql_type_spec(ns + "integer"@) == "INTEGER"@,
        sql_type_spec(ns + "int"@) == "INTEGER"@,
        sql_type_spec(ns + "long"@) == "BIGINT"@,
        sql_type_spec(ns + "boolean"@) == "BOOLEAN"@,
        sql_type_spec(ns + "date"@) == "DATE"@,
        sql_type_spec(ns + "dateTime"@) == "TIMESTAMP"@,
        sql_type_spec(ns + "decimal"@) == "DECIMAL(38,9)"@,
        sql_type_spec(ns + "double"@) == "DOUBLE"@,
        sql_type_spec(ns + "float"@) == "DOUBLE"@,
        l != "integer"@ && l != "int"@ && l != "long"@ && l != "boolean"@ && l != "date"@ && l != "dateTime"@
            && l != "decimal"@ && l != "double"@ && l != "float"@ ==> sql_type_spec(ns + l) == "VARCHAR(255)"@,
{
    reveal_strlit("integer");
    reveal_strlit("int");
    reveal_strlit("long");
    reveal_strlit("boolean");
    reveal_strlit("date");
    reveal_strlit("dateTime");
    reveal_strlit("decimal");
    reveal_strlit("double");
    reveal_strlit("float");
    lemma_local_of_qualified(ns, "integer"@);
    lemma_local_of_qualified(ns, "int"@);
    lemma_local_of_qualified(ns, "long"@);
    lemma_local_of_qualified(ns, "boolean"@);
    lemma_local_of_qualified(ns, "date"@);
    lemma_local_of_qualified(ns, "dateTime"@);
    lemma_local_of_qualified(ns, "decimal"@);
    lemma_local_of_qualified(ns, "double"@);
    lemma_local_of_qualified(ns, "float"@);
    lemma_local_of_qualified(ns, l);
    assert("integer"@ != "int"@);
    assert("integer"@ != "date"@);
    assert("integer"@ != "double"@);
    assert("int"@ != "date"@);
    assert("date"@ != "dateTime"@);
    assert("decimal"@ != "date"@);
    assert("double"@ != "decimal"@);
    assert("float"@ != "double"@);
    assert("long"@ != "int"@);
    assert("boolean"@ != "int"@);
}

/// The SQL type of an XML Schema datatype.
pub fn sql_type(xsd: &str) -> (r: &'static str)
    ensures
        r@ == sql_type_spec(xsd@),
{
    let l = local_of(xsd);
    let ls = l.as_str();
    if eq_str(ls, "dateTime") {
        "TIMESTAMP"
    } else if eq_str(ls, "date") {
        "DATE"
    } else if eq_str(ls, "decimal") {
        "DECIMAL(38,9)"
    } else if eq_str(ls, "double") || eq_str(ls, "float") {
        "DOUBLE"
    } else if eq_str(ls, "integer") || eq_str(ls, "int") {
        "INTEGER"
    } else if eq_str(ls, "long") {
        "BIGINT"
    } else if eq_str(ls, "boolean") {
        "BOOLEAN"
    } else {
        "VARCHAR(255)"
    }
}

/// How a bound reads in a comment.
pub open spec fn bound_phrase_spec(min: u32, max: Option<u32>) -> Seq<char> {
    match max {
        Some(x) => if min == x {
            "exactly "@ + crate::text::decimal(min as nat)
        } else if min == 0 {
            "at most "@ + crate::text::decimal(x as nat)
        } else {
            crate::text::decimal(min as nat) + " to "@ + crate::text::decimal(x as nat)
        },
        None => "at least "@ + crate::text::decimal(min as nat),
    }
}

/// How a bound reads in a comment ("exactly 1", "at most 3", "at least 2", "2 to 5").
pub fn bound_phrase(min: u32, max: Option<u32>) -> (r: String)
    ensures
        r@ == bound_phrase_spec(min, max),
{
    match max {
        Some(x) => if min == x {
            cat(String::from_str("exactly "), fmt_u64(min as u64).as_str())
        } else if min == 0 {
            cat(String::from_str("at most "), fmt_u64(x as u64).as_str())
        } else {
            cat(cat(fmt_u64(min as u64), " to "), fmt_u64(x as u64).as_str())
        },
        None => cat(String::from_str("at least "), fmt_u64(min as u64).as_str()),
    }
}


/// The told facts the planner reads, each with its citation.
struct Idx {
    sub: Vec<(String, String, usize)>,
    exts: Vec<(String, String, String, usize, bool)>,
    ranges: Vec<(String, String, usize)>,
    domains: Vec<(String, String, usize)>,
    attrs: Vec<(String, String, String, usize)>,
    cards: Vec<(String, String, u32, Option<u32>, usize)>,
    enums: Vec<(String, Vec<String>, usize)>,
    labels: Vec<(String, String, usize)>,
    keys: Vec<(String, String, usize)>,
    composite_keys: Vec<(String, usize)>,
    unique_props: Vec<String>,
}

/// The stored `(key, value)` pairs, viewed.
pub open spec fn kv_view(v: Seq<(String, String, usize)>) -> Seq<(Seq<char>, Seq<char>)> {
    v.map_values(|e: (String, String, usize)| (e.0@, e.1@))
}

/// The value stored first under `k`.
pub open spec fn kv_lookup(v: Seq<(Seq<char>, Seq<char>)>, k: Seq<char>) -> Option<Seq<char>>
    decreases v.len(),
{
    if v.len() == 0 { None } else if v[0].0 == k { Some(v[0].1) } else { kv_lookup(v.drop_first(), k) }
}

/// The text of the first `@Label` of `e`.
pub open spec fn first_label(anns: Seq<crate::fragment::AnnotationV>, e: Seq<char>) -> Option<Seq<char>>
    decreases anns.len(),
{
    if anns.len() == 0 {
        None
    } else {
        match first_label(anns.drop_last(), e) {
            Some(t) => Some(t),
            None => match anns.last() {
                crate::fragment::AnnotationV::Label(e2, t) => if e2 == e { Some(t) } else { None },
                _ => None,
            },
        }
    }
}

/// The label of a table, viewed.
pub open spec fn label_view(t: Table) -> Option<Seq<char>> {
    match t.label { Some(l) => Some(l@), None => None }
}

/// Pushing a new key's pair changes the lookup of that key only.
proof fn lemma_kv_push(v: Seq<(Seq<char>, Seq<char>)>, e: (Seq<char>, Seq<char>))
    requires
        kv_lookup(v, e.0) is None,
    ensures
        forall|k: Seq<char>| #[trigger] kv_lookup(v.push(e), k) == if k == e.0 { Some(e.1) } else { kv_lookup(v, k) },
    decreases v.len(),
{
    let w = v.push(e);
    if v.len() > 0 {
        assert(w.drop_first() =~= v.drop_first().push(e));
        assert(w[0] == v[0]);
        assert(v[0].0 != e.0);
        lemma_kv_push(v.drop_first(), e);
        assert forall|k: Seq<char>| #[trigger] kv_lookup(w, k) == if k == e.0 { Some(e.1) } else { kv_lookup(v, k) } by {
            if v[0].0 != k {
                assert(kv_lookup(w, k) == kv_lookup(w.drop_first(), k));
                assert(kv_lookup(w.drop_first(), k) == kv_lookup(v.drop_first().push(e), k));
            }
        }
    } else {
        assert(w.drop_first() =~= Seq::<(Seq<char>, Seq<char>)>::empty());
        assert(w[0] == e);
        assert forall|k: Seq<char>| #[trigger] kv_lookup(w, k) == if k == e.0 { Some(e.1) } else { kv_lookup(v, k) } by {
            if k != e.0 {
                assert(kv_lookup(w, k) == kv_lookup(w.drop_first(), k));
            }
        }
    }
}

/// The value stored under `k` (the last stored wins).
fn get3(v: &Vec<(String, String, usize)>, k: &str) -> (r: Option<(String, usize)>)
    ensures
        match kv_lookup(kv_view(v@), k@) {
            Some(x) => r matches Some((y, _)) && y@ == x,
            None => r is None,
        },
{
    let ghost w = kv_view(v@);
    assert(w.skip(0) =~= w);
    let mut i: usize = 0;
    while i < v.len()
        invariant
            i <= v@.len(),
            w == kv_view(v@),
            kv_lookup(w, k@) == kv_lookup(w.skip(i as int), k@),
        decreases v@.len() - i,
    {
        proof {
            assert(w.skip(i as int)[0] == w[i as int]);
            assert(w.skip(i as int).drop_first() =~= w.skip(i + 1));
        }
        if eq_str(v[i].0.as_str(), k) {
            return Some((v[i].1.clone(), v[i].2));
        }
        i += 1;
    }
    None
}

/// Store `(x, c)` under `k`; with `first`, keep what is there already.
fn set3(v: &mut Vec<(String, String, usize)>, k: &String, x: &String, c: usize, first: bool)
    ensures
        first ==> forall|k2: Seq<char>| #[trigger] kv_lookup(kv_view(final(v)@), k2)
            == if k2 == k@ && kv_lookup(kv_view(old(v)@), k@) is None { Some(x@) } else { kv_lookup(kv_view(old(v)@), k2) },
{
    let ghost w = kv_view(v@);
    assert(w.skip(0) =~= w);
    let mut i: usize = 0;
    while i < v.len()
        invariant
            i <= v@.len(),
            v@ == old(v)@,
            w == kv_view(v@),
            kv_lookup(w, k@) == kv_lookup(w.skip(i as int), k@),
        decreases v@.len() - i,
    {
        proof {
            assert(w.skip(i as int)[0] == w[i as int]);
            assert(w.skip(i as int).drop_first() =~= w.skip(i + 1));
        }
        if eq_str(v[i].0.as_str(), k.as_str()) {
            if !first {
                v.set(i, (k.clone(), x.clone(), c));
            }
            return;
        }
        i += 1;
    }
    proof { assert(w.skip(w.len() as int) =~= Seq::<(Seq<char>, Seq<char>)>::empty()); }
    let ghost e = (k@, x@);
    v.push((k.clone(), x.clone(), c));
    proof {
        assert(kv_view(v@) =~= w.push(e));
        lemma_kv_push(w, e);
    }
}

/// The bounds stored for `(c, p)`: min, max, citation.
fn card_get(v: &Vec<(String, String, u32, Option<u32>, usize)>, c: &str, p: &str) -> (r: Option<(u32, Option<u32>, usize)>)
    ensures
        match card_lookup(cards_view(v@), c@, p@) {
            Some(b) => r matches Some((mn, mx, _)) && mn == b.0 && mx == b.1,
            None => r is None,
        },
{
    let ghost w = cards_view(v@);
    assert(w.skip(0) =~= w);
    let mut i: usize = 0;
    while i < v.len()
        invariant
            i <= v@.len(),
            w == cards_view(v@),
            card_lookup(w, c@, p@) == card_lookup(w.skip(i as int), c@, p@),
        decreases v@.len() - i,
    {
        proof {
            assert(w.skip(i as int)[0] == w[i as int]);
            assert(w.skip(i as int).drop_first() =~= w.skip(i + 1));
        }
        if eq_str(v[i].0.as_str(), c) && eq_str(v[i].1.as_str(), p) {
            return Some((v[i].2, v[i].3, v[i].4));
        }
        i += 1;
    }
    None
}

/// The properties with a stored value set.
pub open spec fn enum_props(v: Seq<(String, Vec<String>, usize)>) -> Seq<Seq<char>> {
    v.map_values(|e: (String, Vec<String>, usize)| e.0@)
}

/// Some `@Enum` annotation closes the value set of `p`.
pub open spec fn ann_enumerated(ans: Seq<crate::fragment::AnnotationV>, p: Seq<char>) -> bool {
    exists|j: int| 0 <= j < ans.len() && enum_of(#[trigger] ans[j], p)
}

/// The annotation is an `@Enum` on `p`.
pub open spec fn enum_of(a: crate::fragment::AnnotationV, p: Seq<char>) -> bool {
    match a {
        crate::fragment::AnnotationV::Enum(q, _) => q == p,
        _ => false,
    }
}

/// The values stored for an enumerated property, with the citation.
fn enum_get(v: &Vec<(String, Vec<String>, usize)>, p: &str) -> (r: Option<usize>)
    ensures
        r matches Some(i) ==> i < v@.len() && v@[i as int].0@ == p@,
        r is None ==> !enum_props(v@).contains(p@),
{
    let mut i: usize = 0;
    while i < v.len()
        invariant
            i <= v@.len(),
            forall|j: int| 0 <= j < i ==> enum_props(v@)[j] != p@,
        decreases v@.len() - i,
    {
        if eq_str(v[i].0.as_str(), p) {
            return Some(i);
        }
        i += 1;
    }
    None
}

/// A copy of the names.
fn copy_names(v: &Vec<String>) -> (r: Vec<String>)
    ensures
        names_view(r@) == names_view(v@),
{
    let mut out: Vec<String> = Vec::new();
    let mut i: usize = 0;
    while i < v.len()
        invariant
            i <= v@.len(),
            names_view(out@) == names_view(v@).take(i as int),
        decreases v@.len() - i,
    {
        let ghost before = names_view(out@);
        out.push(v[i].clone());
        proof {
            assert(names_view(out@) =~= before.push(v@[i as int]@));
            assert(names_view(v@).take(i + 1) =~= names_view(v@).take(i as int).push(v@[i as int]@));
        }
        i += 1;
    }
    proof { assert(names_view(v@).take(v@.len() as int) =~= names_view(v@)); }
    out
}

/// A copy of the citations followed by `more`.
fn cites_then(a: &Vec<usize>, more: &Vec<usize>) -> (r: Vec<usize>)
    ensures
        r@ == a@ + more@,
{
    let mut out: Vec<usize> = Vec::new();
    let mut i: usize = 0;
    while i < a.len()
        invariant
            i <= a@.len(),
            out@ == a@.take(i as int),
        decreases a@.len() - i,
    {
        out.push(a[i]);
        assert(a@.take(i + 1) =~= a@.take(i as int).push(a@[i as int]));
        i += 1;
    }
    let mut j: usize = 0;
    assert(a@.take(a@.len() as int) =~= a@);
    while j < more.len()
        invariant
            j <= more@.len(),
            out@ == a@ + more@.take(j as int),
        decreases more@.len() - j,
    {
        out.push(more[j]);
        assert(more@.take(j + 1) =~= more@.take(j as int).push(more@[j as int]));
        assert(a@ + more@.take(j + 1) =~= (a@ + more@.take(j as int)).push(more@[j as int]));
        j += 1;
    }
    assert(more@.take(more@.len() as int) =~= more@);
    out
}

/// The citation of the `i`-th fact, or 0 when none was given.
fn cite_at(c: &[usize], i: usize) -> (r: usize) {
    if i < c.len() { c[i] } else { 0 }
}

/// The told subsumption edges `(sub, sup)`: each `SubClassOf`, and each part of an
/// intersection.
pub open spec fn sub_edges(axs: Seq<crate::fragment::AxiomV>) -> Seq<(Seq<char>, Seq<char>)>
    decreases axs.len(),
{
    if axs.len() == 0 {
        Seq::empty()
    } else {
        sub_edges(axs.drop_last()) + match axs.last() {
            crate::fragment::AxiomV::SubClassOf(a, b) => seq![(a, b)],
            crate::fragment::AxiomV::EquivalentToIntersection(c, ps) => ps.map_values(|q: Seq<char>| (c, q)),
            _ => Seq::empty(),
        }
    }
}

/// Whether a filler is an XML Schema datatype.
pub open spec fn xsd_filler(f: Seq<char>) -> bool {
    let a = "http://www.w3.org/2001/XMLSchema#"@;
    let b = "xsd:"@;
    (a.len() <= f.len() && f.take(a.len() as int) == a) || (b.len() <= f.len() && f.take(b.len() as int) == b)
}

/// The relations `(holder, property, target, existential)` told by the axioms: each
/// existential whose filler is not a datatype.
pub open spec fn ax_rels(axs: Seq<crate::fragment::AxiomV>) -> Seq<(Seq<char>, Seq<char>, Seq<char>, bool)>
    decreases axs.len(),
{
    if axs.len() == 0 {
        Seq::empty()
    } else {
        ax_rels(axs.drop_last()) + match axs.last() {
            crate::fragment::AxiomV::SubClassOfExistential(a, r, f) => if xsd_filler(f) { Seq::empty() } else { seq![(a, r, f, true)] },
            _ => Seq::empty(),
        }
    }
}

/// The relations told by `@Relation` annotations.
pub open spec fn ann_rels(anns: Seq<crate::fragment::AnnotationV>) -> Seq<(Seq<char>, Seq<char>, Seq<char>, bool)>
    decreases anns.len(),
{
    if anns.len() == 0 {
        Seq::empty()
    } else {
        ann_rels(anns.drop_last()) + match anns.last() {
            crate::fragment::AnnotationV::Relation(c, p, t) => seq![(c, p, t, false)],
            _ => Seq::empty(),
        }
    }
}

/// The attributes `(class, property, datatype)` told by `@Attribute` annotations.
pub open spec fn ann_attrs(anns: Seq<crate::fragment::AnnotationV>) -> Seq<(Seq<char>, Seq<char>, Seq<char>)>
    decreases anns.len(),
{
    if anns.len() == 0 {
        Seq::empty()
    } else {
        ann_attrs(anns.drop_last()) + match anns.last() {
            crate::fragment::AnnotationV::Attribute(c, p, x) => seq![(c, p, x)],
            _ => Seq::empty(),
        }
    }
}

/// The edges of the index, viewed.
pub open spec fn sub_view(v: Seq<(String, String, usize)>) -> Seq<(Seq<char>, Seq<char>)> {
    v.map_values(|e: (String, String, usize)| (e.0@, e.1@))
}

/// The relations of the index, viewed.
pub open spec fn rel_view(v: Seq<(String, String, String, usize, bool)>) -> Seq<(Seq<char>, Seq<char>, Seq<char>, bool)> {
    v.map_values(|e: (String, String, String, usize, bool)| (e.0@, e.1@, e.2@, e.4))
}

/// The attributes of the index, viewed.
pub open spec fn attr_view(v: Seq<(String, String, String, usize)>) -> Seq<(Seq<char>, Seq<char>, Seq<char>)> {
    v.map_values(|e: (String, String, String, usize)| (e.0@, e.1@, e.2@))
}

/// Index the told facts.
fn index(axioms: &[Axiom], annotations: &[Annotation], ax_cite: &[usize], ann_cite: &[usize]) -> (r: Idx)
    ensures
        sub_view(r.sub@) == sub_edges(crate::fragment::axioms_view(axioms@)),
        rel_view(r.exts@) == ax_rels(crate::fragment::axioms_view(axioms@)) + ann_rels(crate::fragment::annotations_view(annotations@)),
        attr_view(r.attrs@) == ann_attrs(crate::fragment::annotations_view(annotations@)),
        forall|c: Seq<char>, p: Seq<char>| #[trigger] card_lookup(cards_view(r.cards@), c, p) == last_card(crate::fragment::annotations_view(annotations@), c, p),
        forall|e: Seq<char>| #[trigger] kv_lookup(kv_view(r.labels@), e) == first_label(crate::fragment::annotations_view(annotations@), e),
        forall|p: Seq<char>| #[trigger] enum_props(r.enums@).contains(p) <==> ann_enumerated(crate::fragment::annotations_view(annotations@), p),
{
    let ghost axs = crate::fragment::axioms_view(axioms@);
    let ghost ans = crate::fragment::annotations_view(annotations@);
    let mut x = Idx {
        sub: Vec::new(),
        exts: Vec::new(),
        ranges: Vec::new(),
        domains: Vec::new(),
        attrs: Vec::new(),
        cards: Vec::new(),
        enums: Vec::new(),
        labels: Vec::new(),
        keys: Vec::new(),
        composite_keys: Vec::new(),
        unique_props: Vec::new(),
    };
    proof {
        assert(axs.take(0) =~= Seq::<crate::fragment::AxiomV>::empty());
        assert(sub_view(x.sub@) =~= Seq::<(Seq<char>, Seq<char>)>::empty());
        assert(rel_view(x.exts@) =~= Seq::<(Seq<char>, Seq<char>, Seq<char>, bool)>::empty());
        reveal_strlit("http://www.w3.org/2001/XMLSchema#");
        reveal_strlit("xsd:");
    }
    let mut i: usize = 0;
    while i < axioms.len()
        invariant
            i <= axioms@.len(),
            axs == crate::fragment::axioms_view(axioms@),
            sub_view(x.sub@) == sub_edges(axs.take(i as int)),
            rel_view(x.exts@) == ax_rels(axs.take(i as int)),
            x.attrs@.len() == 0,
            x.cards@.len() == 0,
            x.labels@.len() == 0,
            x.enums@.len() == 0,
        decreases axioms@.len() - i,
    {
        let c = cite_at(ax_cite, i);
        let ghost sb0 = sub_view(x.sub@);
        let ghost rl0 = rel_view(x.exts@);
        proof {
            let t = axs.take(i + 1);
            assert(t.drop_last() =~= axs.take(i as int));
            assert(t.last() == axioms@[i as int]@);
        }
        match &axioms[i] {
            Axiom::SubClassOf { sub, sup } => {
                x.sub.push((sub.clone(), sup.clone(), c));
                assert(sub_view(x.sub@) =~= sb0 + seq![(sub@, sup@)]);
                assert(rl0 + Seq::<(Seq<char>, Seq<char>, Seq<char>, bool)>::empty() =~= rl0);
            },
            Axiom::EquivalentToIntersection { class, parts } => {
                let ghost pv = names_view(parts@);
                let mut k: usize = 0;
                proof { assert(sb0 + pv.take(0).map_values(|q: Seq<char>| (class@, q)) =~= sb0); }
                while k < parts.len()
                    invariant
                        k <= parts@.len(),
                        pv == names_view(parts@),
                        sub_view(x.sub@) == sb0 + pv.take(k as int).map_values(|q: Seq<char>| (class@, q)),
                        rel_view(x.exts@) == rl0,
                        x.attrs@.len() == 0,
                        x.cards@.len() == 0,
                        x.labels@.len() == 0,
                        x.enums@.len() == 0,
                    decreases parts@.len() - k,
                {
                    let ghost b = sub_view(x.sub@);
                    x.sub.push((class.clone(), parts[k].clone(), c));
                    proof {
                        assert(sub_view(x.sub@) =~= b.push((class@, pv[k as int])));
                        assert(pv.take(k + 1).map_values(|q: Seq<char>| (class@, q)) =~= pv.take(k as int).map_values(|q: Seq<char>| (class@, q)).push((class@, pv[k as int])));
                    }
                    k += 1;
                }
                proof {
                    assert(pv.take(pv.len() as int) =~= pv);
                    assert(rl0 + Seq::<(Seq<char>, Seq<char>, Seq<char>, bool)>::empty() =~= rl0);
                }
            },
            Axiom::SubClassOfExistential { sub, role, filler } => {
                if !crate::manchester::lower::starts(filler, "http://www.w3.org/2001/XMLSchema#")
                    && !crate::manchester::lower::starts(filler, "xsd:") {
                    x.exts.push((sub.clone(), role.clone(), filler.clone(), c, true));
                    assert(rel_view(x.exts@) =~= rl0 + seq![(sub@, role@, filler@, true)]);
                } else {
                    assert(rl0 + Seq::<(Seq<char>, Seq<char>, Seq<char>, bool)>::empty() =~= rl0);
                }
                assert(sb0 + Seq::<(Seq<char>, Seq<char>)>::empty() =~= sb0);
            },
            Axiom::PropertyRange { role, range } => {
                set3(&mut x.ranges, role, range, c, false);
                assert(sb0 + Seq::<(Seq<char>, Seq<char>)>::empty() =~= sb0);
                assert(rl0 + Seq::<(Seq<char>, Seq<char>, Seq<char>, bool)>::empty() =~= rl0);
            },
            Axiom::PropertyDomain { role, domain } => {
                set3(&mut x.domains, role, domain, c, false);
                assert(sb0 + Seq::<(Seq<char>, Seq<char>)>::empty() =~= sb0);
                assert(rl0 + Seq::<(Seq<char>, Seq<char>, Seq<char>, bool)>::empty() =~= rl0);
            },
            _ => {
                assert(sb0 + Seq::<(Seq<char>, Seq<char>)>::empty() =~= sb0);
                assert(rl0 + Seq::<(Seq<char>, Seq<char>, Seq<char>, bool)>::empty() =~= rl0);
            },
        }
        i += 1;
    }
    proof {
        assert(axs.take(axs.len() as int) =~= axs);
        assert(ans.take(0) =~= Seq::<crate::fragment::AnnotationV>::empty());
        assert(ax_rels(axs) + ann_rels(ans.take(0)) =~= ax_rels(axs));
        assert(attr_view(x.attrs@) =~= Seq::<(Seq<char>, Seq<char>, Seq<char>)>::empty());
        assert(cards_view(x.cards@) =~= Seq::<(Seq<char>, Seq<char>, u32, Option<u32>)>::empty());
        assert(kv_view(x.labels@) =~= Seq::<(Seq<char>, Seq<char>)>::empty());
        assert(enum_props(x.enums@) =~= Seq::<Seq<char>>::empty());
    }
    let ghost rax = ax_rels(axs);
    let mut j: usize = 0;
    while j < annotations.len()
        invariant
            j <= annotations@.len(),
            ans == crate::fragment::annotations_view(annotations@),
            sub_view(x.sub@) == sub_edges(axs),
            rel_view(x.exts@) == rax + ann_rels(ans.take(j as int)),
            attr_view(x.attrs@) == ann_attrs(ans.take(j as int)),
            forall|c: Seq<char>, p: Seq<char>| #[trigger] card_lookup(cards_view(x.cards@), c, p) == last_card(ans.take(j as int), c, p),
            forall|e: Seq<char>| #[trigger] kv_lookup(kv_view(x.labels@), e) == first_label(ans.take(j as int), e),
            forall|p: Seq<char>| #[trigger] enum_props(x.enums@).contains(p) <==> ann_enumerated(ans.take(j as int), p),
        decreases annotations@.len() - j,
    {
        let c = cite_at(ann_cite, j);
        let ghost en0 = enum_props(x.enums@);
        proof {
            let t = ans.take(j + 1);
            assert forall|p: Seq<char>| #[trigger] ann_enumerated(t, p) <==> ann_enumerated(ans.take(j as int), p)
                || enum_of(t.last(), p) by {
                if ann_enumerated(t, p) {
                    let jj = choose|jj: int| 0 <= jj < t.len() && enum_of(#[trigger] t[jj], p);
                    if jj < j { assert(ans.take(j as int)[jj] == t[jj]); }
                }
                if ann_enumerated(ans.take(j as int), p) {
                    let jj = choose|jj: int| 0 <= jj < j && enum_of(#[trigger] ans.take(j as int)[jj], p);
                    assert(t[jj] == ans.take(j as int)[jj]);
                }
                if enum_of(t.last(), p) {
                    assert(t[j as int] == t.last());
                }
            }
        }
        let ghost rl0 = rel_view(x.exts@);
        let ghost at0 = attr_view(x.attrs@);
        let ghost cd0 = cards_view(x.cards@);
        let ghost lb0 = kv_view(x.labels@);
        proof {
            let t = ans.take(j + 1);
            assert(t.drop_last() =~= ans.take(j as int));
            assert(t.last() == annotations@[j as int]@);
            assert(rl0 + Seq::<(Seq<char>, Seq<char>, Seq<char>, bool)>::empty() =~= rl0);
            assert(at0 + Seq::<(Seq<char>, Seq<char>, Seq<char>)>::empty() =~= at0);
            assert(rax + ann_rels(t) =~= rax + ann_rels(ans.take(j as int)) + match t.last() {
                crate::fragment::AnnotationV::Relation(c, p, g) => seq![(c, p, g, false)],
                _ => Seq::empty(),
            });
        }
        match &annotations[j] {
            Annotation::Attribute { class, prop, xsd } => {
                x.attrs.push((class.clone(), prop.clone(), xsd.clone(), c));
                assert(attr_view(x.attrs@) =~= at0 + seq![(class@, prop@, xsd@)]);
            },
            Annotation::Cardinality { class, prop, min, max } => {
                let ghost cv0 = cards_view(x.cards@);
                let mut k: usize = 0;
                while k < x.cards.len() && !(eq_str(x.cards[k].0.as_str(), class.as_str()) && eq_str(x.cards[k].1.as_str(), prop.as_str()))
                    invariant
                        k <= x.cards@.len(),
                        cv0 == cards_view(x.cards@),
                        forall|j: int| 0 <= j < k ==> !(cv0[j].0 == class@ && cv0[j].1 == prop@),
                    decreases x.cards@.len() - k,
                {
                    k += 1;
                }
                let ent = (class.clone(), prop.clone(), *min, *max, c);
                if k < x.cards.len() {
                    x.cards.set(k, ent);
                    proof {
                        assert(cards_view(x.cards@) =~= cv0.update(k as int, (class@, prop@, *min, *max)));
                        lemma_card_update(cv0, k as int, (class@, prop@, *min, *max));
                    }
                } else {
                    x.cards.push(ent);
                    proof {
                        assert(cards_view(x.cards@) =~= cv0.push((class@, prop@, *min, *max)));
                        lemma_card_push(cv0, (class@, prop@, *min, *max));
                    }
                }
            },
            Annotation::Enum { prop, values } => {
                match enum_get(&x.enums, prop.as_str()) {
                    Some(k) => {
                        x.enums.set(k, (prop.clone(), copy_names(values), c));
                        proof {
                            assert(en0[k as int] == prop@);
                            assert(enum_props(x.enums@) =~= en0.update(k as int, prop@));
                            assert forall|p: Seq<char>| #[trigger] enum_props(x.enums@).contains(p) <==> en0.contains(p) by {
                                if en0.contains(p) {
                                    let t = choose|t: int| 0 <= t < en0.len() && en0[t] == p;
                                    if t == k { assert(enum_props(x.enums@)[t] == p); } else { assert(enum_props(x.enums@)[t] == p); }
                                }
                                if enum_props(x.enums@).contains(p) {
                                    let t = choose|t: int| 0 <= t < en0.len() && enum_props(x.enums@)[t] == p;
                                    assert(en0[t] == p);
                                }
                            }
                        }
                    },
                    None => {
                        x.enums.push((prop.clone(), copy_names(values), c));
                        proof {
                            assert(enum_props(x.enums@) =~= en0.push(prop@));
                            assert forall|p: Seq<char>| #[trigger] enum_props(x.enums@).contains(p) <==> en0.contains(p) || p == prop@ by {
                                if en0.contains(p) {
                                    let t = choose|t: int| 0 <= t < en0.len() && en0[t] == p;
                                    assert(enum_props(x.enums@)[t] == p);
                                }
                                if p == prop@ { assert(enum_props(x.enums@)[en0.len() as int] == p); }
                                if enum_props(x.enums@).contains(p) && p != prop@ {
                                    let t = choose|t: int| 0 <= t < enum_props(x.enums@).len() && enum_props(x.enums@)[t] == p;
                                    assert(en0[t] == p);
                                }
                            }
                        }
                    },
                }
            },
            Annotation::Label { entity, text } => set3(&mut x.labels, entity, text, c, true),
            Annotation::Unique { prop } => {
                if !crate::manchester::lower::has(&x.unique_props, prop.as_str()) {
                    x.unique_props.push(prop.clone());
                }
            },
            Annotation::Key { class, props } => {
                if props.len() == 1 {
                    set3(&mut x.keys, class, &props[0], c, false);
                } else {
                    x.composite_keys.push((class.clone(), props.len()));
                }
            },
            Annotation::Relation { class, prop, target } => {
                x.exts.push((class.clone(), prop.clone(), target.clone(), c, false));
                assert(rel_view(x.exts@) =~= rl0 + seq![(class@, prop@, target@, false)]);
            },
        }
        proof {
            let t = ans.take(j + 1);
            assert(t.drop_last() =~= ans.take(j as int));
            assert forall|cc: Seq<char>, pp: Seq<char>| #[trigger] card_lookup(cards_view(x.cards@), cc, pp) == last_card(t, cc, pp) by {
                assert(card_lookup(cd0, cc, pp) == last_card(ans.take(j as int), cc, pp));
            }
            assert forall|ee: Seq<char>| #[trigger] kv_lookup(kv_view(x.labels@), ee) == first_label(t, ee) by {
                assert(kv_lookup(lb0, ee) == first_label(ans.take(j as int), ee));
            }
        }
        j += 1;
    }
    proof { assert(ans.take(ans.len() as int) =~= ans); }
    x
}

/// The targets of the told edges, viewed.
pub open spec fn edge_targets(sub: Seq<(String, String, usize)>) -> Seq<Seq<char>> {
    sub.map_values(|e: (String, String, usize)| e.1@)
}

/// An edge `(a, b)` is told.
pub open spec fn edge_step(es: Seq<(Seq<char>, Seq<char>)>, a: Seq<char>, b: Seq<char>) -> bool {
    exists|e: int| 0 <= e < es.len() && #[trigger] es[e] == (a, b)
}

/// `path` walks told edges from its first class to its last.
pub open spec fn is_path(es: Seq<(Seq<char>, Seq<char>)>, path: Seq<Seq<char>>) -> bool {
    &&& path.len() >= 2
    &&& forall|i: int| 0 <= i < path.len() - 1 ==> #[trigger] edge_step(es, path[i], path[i + 1])
}

/// `b` is reached from `a` over one or more told edges.
pub open spec fn reaches(es: Seq<(Seq<char>, Seq<char>)>, a: Seq<char>, b: Seq<char>) -> bool {
    exists|path: Seq<Seq<char>>| #[trigger] is_path(es, path) && path[0] == a && path[path.len() - 1] == b
}

/// Every told edge out of `s` ends in `seen`.
pub open spec fn closed_at(es: Seq<(Seq<char>, Seq<char>)>, seen: Seq<Seq<char>>, s: Seq<char>) -> bool {
    forall|e: int| 0 <= e < es.len() && (#[trigger] es[e]).0 == s ==> seen.contains(es[e].1)
}

/// The classes of the walk's entries.
pub open spec fn walk_names(v: Seq<(String, Vec<usize>)>) -> Seq<Seq<char>> {
    v.map_values(|p: (String, Vec<usize>)| p.0@)
}

/// A set closed under the edges that holds a path's start holds its first `i + 1` classes.
proof fn lemma_closed_path(es: Seq<(Seq<char>, Seq<char>)>, seen: Seq<Seq<char>>, path: Seq<Seq<char>>, i: int)
    requires
        is_path(es, path),
        seen.contains(path[0]),
        forall|s: Seq<char>| seen.contains(s) ==> #[trigger] closed_at(es, seen, s),
        0 <= i < path.len(),
    ensures
        seen.contains(path[i]),
    decreases i,
{
    if i > 0 {
        let j = i - 1;
        lemma_closed_path(es, seen, path, j);
        assert(edge_step(es, path[j], path[j + 1]));
        let e = choose|e: int| 0 <= e < es.len() && #[trigger] es[e] == (path[j], path[j + 1]);
        assert(closed_at(es, seen, path[j]));
        assert(es[e].0 == path[j]);
        assert(seen.contains(es[e].1));
        assert(j + 1 == i);
    }
}

/// One more edge from a reached class.
proof fn lemma_reach_step(es: Seq<(Seq<char>, Seq<char>)>, a: Seq<char>, m: Seq<char>, b: Seq<char>, e: int)
    requires
        m == a || reaches(es, a, m),
        0 <= e < es.len(),
        es[e] == (m, b),
    ensures
        reaches(es, a, b),
{
    assert(edge_step(es, m, b));
    if m == a {
        let path = seq![a, b];
        assert(edge_step(es, path[0], path[1]));
        assert(is_path(es, path));
    } else {
        let path0 = choose|path: Seq<Seq<char>>| #[trigger] is_path(es, path) && path[0] == a && path[path.len() - 1] == m;
        let path = path0.push(b);
        assert forall|i: int| 0 <= i < path.len() - 1 implies #[trigger] edge_step(es, path[i], path[i + 1]) by {
            if i < path0.len() - 1 {
                assert(path[i] == path0[i] && path[i + 1] == path0[i + 1]);
                assert(edge_step(es, path0[i], path0[i + 1]));
            } else {
                assert(path[i] == m && path[i + 1] == b);
            }
        }
        assert(is_path(es, path));
    }
}

/// Every class `start` reaches over the told edges (itself excluded), each with the
/// citations of the edges on the path that first reached it (a stack walk).
fn ancestors(sub: &Vec<(String, String, usize)>, start: &String) -> (r: Vec<(String, Vec<usize>)>)
    ensures
        forall|d: Seq<char>| #[trigger] walk_names(r@).contains(d) <==> d != start@ && reaches(sub_view(sub@), start@, d),
{
    let ghost u = seq![start@] + edge_targets(sub@);
    let ghost es = sub_view(sub@);
    let mut out: Vec<(String, Vec<usize>)> = Vec::new();
    let mut seen: Vec<String> = Vec::new();
    let mut queue: Vec<(String, Vec<usize>)> = Vec::new();
    seen.push(start.clone());
    queue.push((start.clone(), Vec::new()));
    proof {
        assert(names_view(seen@) =~= seq![start@]);
        assert(u[0] == start@);
        assert(walk_names(out@) =~= names_view(seen@).drop_first());
        assert(walk_names(queue@) =~= seq![start@]);
        assert(walk_names(queue@)[0] == start@);
        assert(names_view(seen@)[0] == start@);
        assert(names_view(seen@).contains(start@));
        assert forall|q: int| 0 <= q < queue@.len() implies names_view(seen@).contains(#[trigger] walk_names(queue@)[q]) by {
            assert(walk_names(queue@)[q] == start@);
        }
    }
    while queue.len() > 0
        invariant
            u == seq![start@] + edge_targets(sub@),
            es == sub_view(sub@),
            names_view(seen@).no_duplicates(),
            forall|i: int| 0 <= i < seen@.len() ==> u.contains(#[trigger] seen@[i]@),
            seen@.len() >= 1,
            seen@[0]@ == start@,
            walk_names(out@) == names_view(seen@).drop_first(),
            forall|i: int| 1 <= i < seen@.len() ==> reaches(es, start@, #[trigger] seen@[i]@),
            forall|q: int| 0 <= q < queue@.len() ==> names_view(seen@).contains(#[trigger] walk_names(queue@)[q]),
            forall|x: Seq<char>| #[trigger] names_view(seen@).contains(x) ==> walk_names(queue@).contains(x) || closed_at(es, names_view(seen@), x),
        decreases u.len() - seen@.len(), queue@.len(),
    {
        let ghost qb = walk_names(queue@);
        let (cur, path) = queue.pop().unwrap();
        let ghost cv = cur@;
        let ghost seen0 = seen@.len();
        let ghost q0 = queue@.len();
        proof {
            assert(qb =~= walk_names(queue@).push(cv));
            assert(qb[qb.len() - 1] == cv);
            assert(names_view(seen@).contains(cv));
            assert forall|q: int| 0 <= q < queue@.len() implies names_view(seen@).contains(#[trigger] walk_names(queue@)[q]) by {
                assert(walk_names(queue@)[q] == qb[q]);
            }
            assert forall|x: Seq<char>| #[trigger] names_view(seen@).contains(x) implies walk_names(queue@).contains(x) || x == cv || closed_at(es, names_view(seen@), x) by {
                if qb.contains(x) && x != cv {
                    let q = choose|q: int| 0 <= q < qb.len() && qb[q] == x;
                    assert(walk_names(queue@)[q] == x);
                }
            }
        }
        let mut e: usize = 0;
        while e < sub.len()
            invariant
                u == seq![start@] + edge_targets(sub@),
                es == sub_view(sub@),
                e <= sub@.len(),
                seen@.len() >= seen0,
                names_view(seen@).no_duplicates(),
                forall|i: int| 0 <= i < seen@.len() ==> u.contains(#[trigger] seen@[i]@),
                queue@.len() == q0 + seen@.len() - seen0,
                cur@ == cv,
                seen@.len() >= 1,
                seen@[0]@ == start@,
                names_view(seen@).contains(cv),
                cv == start@ || reaches(es, start@, cv),
                walk_names(out@) == names_view(seen@).drop_first(),
                forall|i: int| 1 <= i < seen@.len() ==> reaches(es, start@, #[trigger] seen@[i]@),
                forall|q: int| 0 <= q < queue@.len() ==> names_view(seen@).contains(#[trigger] walk_names(queue@)[q]),
                forall|x: Seq<char>| #[trigger] names_view(seen@).contains(x) ==> walk_names(queue@).contains(x) || x == cv || closed_at(es, names_view(seen@), x),
                forall|e2: int| 0 <= e2 < e && (#[trigger] es[e2]).0 == cv ==> names_view(seen@).contains(es[e2].1),
            decreases sub@.len() - e,
        {
            if eq_str(sub[e].0.as_str(), cur.as_str()) {
                let sup = &sub[e].1;
                if !crate::manchester::lower::has(&seen, sup.as_str()) {
                    let ghost before = names_view(seen@);
                    let ghost ob = walk_names(out@);
                    let ghost qq = walk_names(queue@);
                    seen.push(sup.clone());
                    let mut p = cites_then(&path, &Vec::new());
                    p.push(sub[e].2);
                    out.push((sup.clone(), cites_then(&p, &Vec::new())));
                    queue.push((sup.clone(), p));
                    proof {
                        let sn = names_view(seen@);
                        assert(sn =~= before.push(sup@));
                        assert(u[e + 1] == sup@);
                        assert(u.contains(sup@));
                        assert(walk_names(out@) =~= ob.push(sup@));
                        assert(walk_names(out@) =~= sn.drop_first());
                        assert(walk_names(queue@) =~= qq.push(sup@));
                        assert(es[e as int] == (cv, sup@));
                        lemma_reach_step(es, start@, cv, sup@, e as int);
                        assert(sn[sn.len() - 1] == sup@);
                        assert forall|i: int| 1 <= i < seen@.len() implies reaches(es, start@, #[trigger] seen@[i]@) by {
                            if i < seen@.len() - 1 { assert(seen@[i]@ == before[i]); }
                        }
                        assert forall|q: int| 0 <= q < queue@.len() implies sn.contains(#[trigger] walk_names(queue@)[q]) by {
                            if q < qq.len() {
                                assert(before.contains(qq[q]));
                                let k = choose|k: int| 0 <= k < before.len() && before[k] == qq[q];
                                assert(sn[k] == qq[q]);
                            }
                        }
                        assert forall|x: Seq<char>| #[trigger] sn.contains(x) implies walk_names(queue@).contains(x) || x == cv || closed_at(es, sn, x) by {
                            if x == sup@ {
                                assert(walk_names(queue@)[qq.len() as int] == x);
                            } else {
                                let k = choose|k: int| 0 <= k < sn.len() && sn[k] == x;
                                assert(before[k] == x);
                                assert(before.contains(x));
                                if qq.contains(x) {
                                    let q = choose|q: int| 0 <= q < qq.len() && qq[q] == x;
                                    assert(walk_names(queue@)[q] == x);
                                } else if x != cv {
                                    assert(closed_at(es, before, x));
                                    assert forall|e3: int| 0 <= e3 < es.len() && (#[trigger] es[e3]).0 == x implies sn.contains(es[e3].1) by {
                                        assert(before.contains(es[e3].1));
                                        let k2 = choose|k2: int| 0 <= k2 < before.len() && before[k2] == es[e3].1;
                                        assert(sn[k2] == es[e3].1);
                                    }
                                }
                            }
                        }
                        assert forall|e2: int| 0 <= e2 < e + 1 && (#[trigger] es[e2]).0 == cv implies sn.contains(es[e2].1) by {
                            if e2 < e {
                                assert(before.contains(es[e2].1));
                                let k2 = choose|k2: int| 0 <= k2 < before.len() && before[k2] == es[e2].1;
                                assert(sn[k2] == es[e2].1);
                            } else {
                                assert(sn[sn.len() - 1] == es[e2].1);
                            }
                        }
                        assert(sn.contains(cv)) by {
                            let k = choose|k: int| 0 <= k < before.len() && before[k] == cv;
                            assert(sn[k] == cv);
                        }
                    }
                } else {
                    proof { assert(es[e as int] == (cv, sub@[e as int].1@)); }
                }
            }
            e += 1;
        }
        proof {
            let sn = names_view(seen@);
            assert(closed_at(es, sn, cv));
            assert forall|i: int| 0 <= i < names_view(seen@).len() implies u.contains(#[trigger] names_view(seen@)[i]) by {
                assert(u.contains(seen@[i]@));
            }
            crate::shapes::lemma_distinct_bound(names_view(seen@), u);
        }
    }
    proof {
        let sn = names_view(seen@);
        assert(walk_names(queue@) =~= Seq::<Seq<char>>::empty());
        assert forall|s: Seq<char>| sn.contains(s) implies #[trigger] closed_at(es, sn, s) by {}
        assert(sn[0] == start@);
        assert forall|d: Seq<char>| #[trigger] walk_names(out@).contains(d) <==> d != start@ && reaches(es, start@, d) by {
            if walk_names(out@).contains(d) {
                let k = choose|k: int| 0 <= k < walk_names(out@).len() && walk_names(out@)[k] == d;
                assert(sn[k + 1] == d);
                assert(seen@[k + 1]@ == d);
                assert(sn[0] != sn[k + 1]);
            }
            if d != start@ && reaches(es, start@, d) {
                let path = choose|path: Seq<Seq<char>>| #[trigger] is_path(es, path) && path[0] == start@ && path[path.len() - 1] == d;
                lemma_closed_path(es, sn, path, path.len() - 1);
                let k = choose|k: int| 0 <= k < sn.len() && sn[k] == d;
                assert(k != 0);
                assert(walk_names(out@)[k - 1] == d);
            }
        }
    }
    out
}


/// The rolled attributes, viewed: (property, datatype).
pub open spec fn rattr_view(v: Seq<(String, String, Vec<usize>)>) -> Seq<(Seq<char>, Seq<char>)> {
    v.map_values(|e: (String, String, Vec<usize>)| (e.0@, e.1@))
}

/// An attribute rolled onto `class`: told of `class` or of a class it reaches.
pub open spec fn attr_ok(es: Seq<(Seq<char>, Seq<char>)>, ats: Seq<(Seq<char>, Seq<char>, Seq<char>)>, class: Seq<char>,
    a: (Seq<char>, Seq<char>)) -> bool {
    exists|i: int| 0 <= i < ats.len() && (#[trigger] ats[i]).1 == a.0 && ats[i].2 == a.1 && (ats[i].0 == class || reaches(es, class, ats[i].0))
}

/// Some rolled attribute is on property `q`.
pub open spec fn has_attr_entry(v: Seq<(Seq<char>, Seq<char>)>, q: Seq<char>) -> bool {
    exists|k: int| 0 <= k < v.len() && (#[trigger] v[k]).0 == q
}

/// Inserting a rolled attribute keeps what held of the others.
proof fn lemma_attr_insert(es: Seq<(Seq<char>, Seq<char>)>, ats: Seq<(Seq<char>, Seq<char>, Seq<char>)>, class: Seq<char>,
    v0: Seq<(String, String, Vec<usize>)>, v1: Seq<(String, String, Vec<usize>)>, i: int, a: (String, String, Vec<usize>))
    requires
        0 <= i <= v0.len(),
        v1 == v0.insert(i, a),
        forall|k: int| 0 <= k < v0.len() ==> #[trigger] attr_ok(es, ats, class, rattr_view(v0)[k]),
        attr_ok(es, ats, class, (a.0@, a.1@)),
    ensures
        forall|k: int| 0 <= k < v1.len() ==> #[trigger] attr_ok(es, ats, class, rattr_view(v1)[k]),
        forall|q: Seq<char>| #[trigger] has_attr_entry(rattr_view(v0), q) ==> has_attr_entry(rattr_view(v1), q),
        has_attr_entry(rattr_view(v1), a.0@),
{
    let w0 = rattr_view(v0);
    let w1 = rattr_view(v1);
    assert(w1 =~= w0.insert(i, (a.0@, a.1@)));
    assert forall|k: int| 0 <= k < v1.len() implies #[trigger] attr_ok(es, ats, class, rattr_view(v1)[k]) by {
        if k < i { assert(w1[k] == w0[k]); } else if k > i { assert(w1[k] == w0[k - 1]); }
    }
    assert forall|q: Seq<char>| #[trigger] has_attr_entry(w0, q) implies has_attr_entry(w1, q) by {
        let k = choose|k: int| 0 <= k < w0.len() && (#[trigger] w0[k]).0 == q;
        if k < i { assert(w1[k] == w0[k]); } else { assert(w1[k + 1] == w0[k]); }
    }
    assert(w1[i] == (a.0@, a.1@));
}

/// The rolled relations, viewed: (property, target, holder, existential).
pub open spec fn rolled_view(v: Seq<(String, String, Vec<usize>, String, bool)>) -> Seq<(Seq<char>, Seq<char>, Seq<char>, bool)> {
    v.map_values(|e: (String, String, Vec<usize>, String, bool)| (e.0@, e.1@, e.3@, e.4))
}

/// `(holder, property, target, existential)` is a told relation.
pub open spec fn told_rel(rels: Seq<(Seq<char>, Seq<char>, Seq<char>, bool)>, h: Seq<char>, p: Seq<char>, t: Seq<char>, e: bool) -> bool {
    exists|i: int| 0 <= i < rels.len() && #[trigger] rels[i] == (h, p, t, e)
}

/// A relation rolled onto `class`: told of `class` or of a class it reaches.
pub open spec fn rel_ok(es: Seq<(Seq<char>, Seq<char>)>, rels: Seq<(Seq<char>, Seq<char>, Seq<char>, bool)>, class: Seq<char>,
    e: (Seq<char>, Seq<char>, Seq<char>, bool)) -> bool {
    (e.2 == class || reaches(es, class, e.2)) && told_rel(rels, e.2, e.0, e.1, e.3)
}

/// Some rolled relation is on property `q`, held by `h`.
pub open spec fn has_entry(v: Seq<(Seq<char>, Seq<char>, Seq<char>, bool)>, q: Seq<char>, h: Seq<char>) -> bool {
    exists|k: int| 0 <= k < v.len() && (#[trigger] v[k]).0 == q && v[k].2 == h
}

/// `c` has a told attribute on `q`.
pub open spec fn own_attr_prop(ats: Seq<(Seq<char>, Seq<char>, Seq<char>)>, c: Seq<char>, q: Seq<char>) -> bool {
    exists|i: int| 0 <= i < ats.len() && (#[trigger] ats[i]).0 == c && ats[i].1 == q
}

/// `c` has a told relation on `q`.
pub open spec fn own_rel_prop(rels: Seq<(Seq<char>, Seq<char>, Seq<char>, bool)>, c: Seq<char>, q: Seq<char>) -> bool {
    exists|i: int| 0 <= i < rels.len() && (#[trigger] rels[i]).0 == c && rels[i].1 == q
}

/// Inserting a rolled relation keeps what held of the others.
proof fn lemma_rolled_insert(es: Seq<(Seq<char>, Seq<char>)>, rels: Seq<(Seq<char>, Seq<char>, Seq<char>, bool)>, class: Seq<char>,
    v0: Seq<(String, String, Vec<usize>, String, bool)>, v1: Seq<(String, String, Vec<usize>, String, bool)>, i: int,
    a: (String, String, Vec<usize>, String, bool))
    requires
        0 <= i <= v0.len(),
        v1 == v0.insert(i, a),
        forall|k: int| 0 <= k < v0.len() ==> #[trigger] rel_ok(es, rels, class, rolled_view(v0)[k]),
        rel_ok(es, rels, class, (a.0@, a.1@, a.3@, a.4)),
        forall|k: int| 0 <= k < v0.len() ==> (#[trigger] v0[k]).2@.len() >= 1,
        a.2@.len() >= 1,
    ensures
        forall|k: int| 0 <= k < v1.len() ==> (#[trigger] v1[k]).2@.len() >= 1,
        forall|k: int| 0 <= k < v1.len() ==> #[trigger] rel_ok(es, rels, class, rolled_view(v1)[k]),
        forall|q: Seq<char>, h: Seq<char>| #[trigger] has_entry(rolled_view(v0), q, h) ==> has_entry(rolled_view(v1), q, h),
        has_entry(rolled_view(v1), a.0@, a.3@),
{
    let w0 = rolled_view(v0);
    let w1 = rolled_view(v1);
    assert(w1 =~= w0.insert(i, (a.0@, a.1@, a.3@, a.4)));
    assert forall|k: int| 0 <= k < v1.len() implies #[trigger] rel_ok(es, rels, class, rolled_view(v1)[k]) by {
        if k < i { assert(w1[k] == w0[k]); } else if k > i { assert(w1[k] == w0[k - 1]); }
    }
    assert forall|q: Seq<char>, h: Seq<char>| #[trigger] has_entry(w0, q, h) implies has_entry(w1, q, h) by {
        let k = choose|k: int| 0 <= k < w0.len() && (#[trigger] w0[k]).0 == q && w0[k].2 == h;
        if k < i { assert(w1[k] == w0[k]); } else { assert(w1[k + 1] == w0[k]); }
    }
    assert(w1[i] == (a.0@, a.1@, a.3@, a.4));
    assert forall|k: int| 0 <= k < v1.len() implies (#[trigger] v1[k]).2@.len() >= 1 by {
        if k < i { assert(v1[k] == v0[k]); } else if k > i { assert(v1[k] == v0[k - 1]); }
    }
}

/// The rolled-up structure of one class: attributes (property, datatype, citations) and
/// relations (property, target, citations, holder, existential), each in property order.
struct Rolled {
    attrs: Vec<(String, String, Vec<usize>)>,
    exts: Vec<(String, String, Vec<usize>, String, bool)>,
}

/// The winner among the relations of `holder` on `p` (existentials first, then the least
/// target), with how many there are.
fn winner(exts: &Vec<(String, String, String, usize, bool)>, holder: &str, p: &str) -> (r: Option<(usize, usize)>)
    ensures
        r matches Some((w, n)) ==> w < exts@.len() && n >= 1,
        r is Some <==> exists|i: int| 0 <= i < exts@.len() && (#[trigger] exts@[i]).0@ == holder@ && exts@[i].1@ == p@,
        r matches Some((w, n)) ==> n == rel_count(rel_view(exts@), holder@, p@) && exts@[w as int].0@ == holder@ && exts@[w as int].1@ == p@,
{
    let ghost rv = rel_view(exts@);
    proof { assert(rv.take(0) =~= Seq::<(Seq<char>, Seq<char>, Seq<char>, bool)>::empty()); }
    let mut best: Option<usize> = None;
    let mut n: usize = 0;
    let mut i: usize = 0;
    while i < exts.len()
        invariant
            i <= exts@.len(),
            n <= i,
            best matches Some(b) ==> b < exts@.len() && n >= 1,
            best is Some <==> exists|j: int| 0 <= j < i && (#[trigger] exts@[j]).0@ == holder@ && exts@[j].1@ == p@,
            rv == rel_view(exts@),
            n == rel_count(rv.take(i as int), holder@, p@),
            best matches Some(b) ==> b < i && exts@[b as int].0@ == holder@ && exts@[b as int].1@ == p@,
        decreases exts@.len() - i,
    {
        proof {
            let t = rv.take(i + 1);
            assert(t.drop_last() =~= rv.take(i as int));
            assert(t.last() == rv[i as int]);
            lemma_rel_count_le(rv.take(i as int), holder@, p@);
        }
        if eq_str(exts[i].0.as_str(), holder) && eq_str(exts[i].1.as_str(), p) {
            n += 1;
            match best {
                None => best = Some(i),
                Some(b) => {
                    let better = if exts[i].4 != exts[b].4 {
                        exts[i].4
                    } else {
                        match compare_str(exts[i].2.as_str(), exts[b].2.as_str()) {
                            Cmp3::Less => true,
                            _ => false,
                        }
                    };
                    if better {
                        best = Some(i);
                    }
                },
            }
        }
        i += 1;
    }
    proof { assert(rv.take(rv.len() as int) =~= rv); }
    match best {
        Some(b) => Some((b, n)),
        None => None,
    }
}

/// How many told relations `h` has on `p`.
pub open spec fn rel_count(rels: Seq<(Seq<char>, Seq<char>, Seq<char>, bool)>, h: Seq<char>, p: Seq<char>) -> nat
    decreases rels.len(),
{
    if rels.len() == 0 {
        0
    } else {
        rel_count(rels.drop_last(), h, p) + if rels.last().0 == h && rels.last().1 == p { 1nat } else { 0nat }
    }
}

/// A positive count has a witness.
proof fn lemma_rel_count_some(rels: Seq<(Seq<char>, Seq<char>, Seq<char>, bool)>, h: Seq<char>, p: Seq<char>)
    requires
        rel_count(rels, h, p) > 0,
    ensures
        exists|i: int| 0 <= i < rels.len() && rels[i].0 == h && rels[i].1 == p,
    decreases rels.len(),
{
    if rels.last().0 == h && rels.last().1 == p {
        assert(rels[rels.len() - 1].0 == h);
    } else {
        lemma_rel_count_some(rels.drop_last(), h, p);
        let i = choose|i: int| 0 <= i < rels.drop_last().len() && rels.drop_last()[i].0 == h && rels.drop_last()[i].1 == p;
        assert(rels[i] == rels.drop_last()[i]);
    }
}

/// A count is no more than the number of relations.
proof fn lemma_rel_count_le(rels: Seq<(Seq<char>, Seq<char>, Seq<char>, bool)>, h: Seq<char>, p: Seq<char>)
    ensures
        rel_count(rels, h, p) <= rels.len(),
    decreases rels.len(),
{
    if rels.len() > 0 {
        lemma_rel_count_le(rels.drop_last(), h, p);
    }
}

/// The distinct properties of the relations of `holder`, sorted.
fn ext_props(exts: &Vec<(String, String, String, usize, bool)>, holder: &str) -> (r: Vec<String>)
    ensures
        forall|q: Seq<char>| #[trigger] names_view(r@).contains(q)
            <==> exists|i: int| 0 <= i < exts@.len() && (#[trigger] exts@[i]).0@ == holder@ && exts@[i].1@ == q,
{
    let mut ps: Vec<String> = Vec::new();
    proof { assert(names_view(ps@) =~= Seq::<Seq<char>>::empty()); }
    let mut i: usize = 0;
    while i < exts.len()
        invariant
            i <= exts@.len(),
            strictly_sorted(names_view(ps@)),
            forall|q: Seq<char>| #[trigger] names_view(ps@).contains(q)
                <==> exists|j: int| 0 <= j < i && (#[trigger] exts@[j]).0@ == holder@ && exts@[j].1@ == q,
        decreases exts@.len() - i,
    {
        if eq_str(exts[i].0.as_str(), holder) {
            insert_sorted(&mut ps, exts[i].1.clone());
        }
        proof {
            assert forall|q: Seq<char>| #[trigger] names_view(ps@).contains(q)
                <==> exists|j: int| 0 <= j < i + 1 && (#[trigger] exts@[j]).0@ == holder@ && exts@[j].1@ == q by {
                if exists|j: int| 0 <= j < i + 1 && (#[trigger] exts@[j]).0@ == holder@ && exts@[j].1@ == q {
                    let j = choose|j: int| 0 <= j < i + 1 && (#[trigger] exts@[j]).0@ == holder@ && exts@[j].1@ == q;
                    if j < i { assert(exists|j2: int| 0 <= j2 < i && (#[trigger] exts@[j2]).0@ == holder@ && exts@[j2].1@ == q); }
                }
            }
        }
        i += 1;
    }
    ps
}

/// Insert an attribute at its place in property order.
fn insert_attr(v: &mut Vec<(String, String, Vec<usize>)>, a: (String, String, Vec<usize>))
    ensures
        final(v)@.len() == old(v)@.len() + 1,
        exists|i: int| 0 <= i <= old(v)@.len() && final(v)@ == old(v)@.insert(i, a),
{
    let mut i: usize = 0;
    while i < v.len()
        invariant
            i <= v@.len(),
        decreases v@.len() - i,
    {
        match compare_str(v[i].0.as_str(), a.0.as_str()) {
            Cmp3::Greater => break,
            _ => {},
        }
        i += 1;
    }
    v.insert(i, a);
}

/// Insert a relation at its place in property order.
fn insert_ext(v: &mut Vec<(String, String, Vec<usize>, String, bool)>, a: (String, String, Vec<usize>, String, bool))
    ensures
        final(v)@.len() == old(v)@.len() + 1,
        exists|i: int| 0 <= i <= old(v)@.len() && final(v)@ == old(v)@.insert(i, a),
{
    let mut i: usize = 0;
    while i < v.len()
        invariant
            i <= v@.len(),
        decreases v@.len() - i,
    {
        match compare_str(v[i].0.as_str(), a.0.as_str()) {
            Cmp3::Greater => break,
            _ => {},
        }
        i += 1;
    }
    v.insert(i, a);
}

/// Whether the pair is recorded.
fn has_pair(v: &Vec<(String, String)>, a: &str, b: &str) -> (r: bool)
    ensures
        r == crate::manchester::frames::pairs_view(v@).contains((a@, b@)),
{
    let ghost w = crate::manchester::frames::pairs_view(v@);
    let mut i: usize = 0;
    while i < v.len()
        invariant
            i <= v@.len(),
            w == crate::manchester::frames::pairs_view(v@),
            forall|j: int| 0 <= j < i ==> w[j] != (a@, b@),
        decreases v@.len() - i,
    {
        if eq_str(v[i].0.as_str(), a) && eq_str(v[i].1.as_str(), b) {
            assert(w[i as int] == (a@, b@));
            return true;
        }
        i += 1;
    }
    proof {
        if w.contains((a@, b@)) {
            let j = choose|j: int| 0 <= j < w.len() && w[j] == (a@, b@);
            assert(w[j] != (a@, b@));
        }
    }
    false
}

/// `c` holds a told attribute.
pub open spec fn has_attr(ats: Seq<(Seq<char>, Seq<char>, Seq<char>)>, c: Seq<char>) -> bool {
    exists|i: int| 0 <= i < ats.len() && (#[trigger] ats[i]).0 == c
}

/// `c` holds a told relation.
pub open spec fn has_rel(rels: Seq<(Seq<char>, Seq<char>, Seq<char>, bool)>, c: Seq<char>) -> bool {
    exists|i: int| 0 <= i < rels.len() && (#[trigger] rels[i]).0 == c
}

/// `c` holds a told attribute or relation of its own.
pub open spec fn has_own(ats: Seq<(Seq<char>, Seq<char>, Seq<char>)>, rels: Seq<(Seq<char>, Seq<char>, Seq<char>, bool)>, c: Seq<char>) -> bool {
    has_attr(ats, c) || has_rel(rels, c)
}

/// A class gets a table when it, or a class it reaches over the told edges, holds an
/// attribute or a relation.
pub open spec fn elected_spec(es: Seq<(Seq<char>, Seq<char>)>, ats: Seq<(Seq<char>, Seq<char>, Seq<char>)>,
    rels: Seq<(Seq<char>, Seq<char>, Seq<char>, bool)>, c: Seq<char>) -> bool {
    has_own(ats, rels, c) || exists|d: Seq<char>| reaches(es, c, d) && #[trigger] has_own(ats, rels, d)
}

/// One of the first `n` tables is the table of `c`.
pub open spec fn elected_table(tables: Seq<Table>, n: int, c: Seq<char>) -> bool {
    exists|i: int| 0 <= i < n && #[trigger] tables[i].class@ == c
}

/// Whether the rolled-up structure holds anything.
spec fn rolled_some(r: Rolled) -> bool {
    r.attrs@.len() > 0 || r.exts@.len() > 0
}

/// The rolled-up structure of `class`: its own attributes and relations, then those of
/// its ancestors not already present by property; a property with several own fillers keeps
/// one (warned) and its bounds become ambiguous.
fn rollup(x: &Idx, all_classes: &Vec<String>, class: &String, warnings: &mut Vec<String>, ambiguous: &mut Vec<(String, String)>) -> (r: Rolled)
    requires
        forall|c: Seq<char>| #[trigger] has_own(attr_view(x.attrs@), rel_view(x.exts@), c) ==> names_view(all_classes@).contains(c),
    ensures
        rolled_some(r) <==> elected_spec(sub_view(x.sub@), attr_view(x.attrs@), rel_view(x.exts@), class@),
        forall|k: int| 0 <= k < r.exts@.len() ==> #[trigger] rel_ok(sub_view(x.sub@), rel_view(x.exts@), class@, rolled_view(r.exts@)[k]),
        forall|q: Seq<char>| #[trigger] own_rel_prop(rel_view(x.exts@), class@, q) && !own_attr_prop(attr_view(x.attrs@), class@, q)
            ==> has_entry(rolled_view(r.exts@), q, class@),
        forall|pr: (Seq<char>, Seq<char>)| #[trigger] crate::manchester::frames::pairs_view(final(ambiguous)@).contains(pr)
            <==> crate::manchester::frames::pairs_view(old(ambiguous)@).contains(pr) || (pr.0 == class@ && rel_count(rel_view(x.exts@), class@, pr.1) > 1),
        forall|k: int| 0 <= k < r.attrs@.len() ==> #[trigger] attr_ok(sub_view(x.sub@), attr_view(x.attrs@), class@, rattr_view(r.attrs@)[k]),
        forall|kk: int| 0 <= kk < r.exts@.len() ==> (#[trigger] r.exts@[kk]).2@.len() >= 1,
        forall|q: Seq<char>| #[trigger] own_attr_prop(attr_view(x.attrs@), class@, q) ==> has_attr_entry(rattr_view(r.attrs@), q),
{
    let ghost ats = attr_view(x.attrs@);
    let ghost rels = rel_view(x.exts@);
    let ghost es = sub_view(x.sub@);
    let ghost amb0 = crate::manchester::frames::pairs_view(ambiguous@);
    let mut seen_prop: Vec<String> = Vec::new();
    let mut r = Rolled { attrs: Vec::new(), exts: Vec::new() };
    let mut i: usize = 0;
    while i < x.attrs.len()
        invariant
            i <= x.attrs@.len(),
            seen_prop@.len() == 0 || rolled_some(r),
            rolled_some(r) <==> exists|j: int| 0 <= j < i && (#[trigger] x.attrs@[j]).0@ == class@,
            r.exts@.len() == 0,
            ats == attr_view(x.attrs@),
            es == sub_view(x.sub@),
            forall|q: Seq<char>| #[trigger] names_view(seen_prop@).contains(q) ==> own_attr_prop(ats, class@, q) && has_attr_entry(rattr_view(r.attrs@), q),
            forall|kk: int| 0 <= kk < r.attrs@.len() ==> #[trigger] attr_ok(es, ats, class@, rattr_view(r.attrs@)[kk]),
            forall|j: int| 0 <= j < i && (#[trigger] x.attrs@[j]).0@ == class@ ==> names_view(seen_prop@).contains(x.attrs@[j].1@),
        decreases x.attrs@.len() - i,
    {
        let ghost ra0 = r.attrs@;
        let ghost spb = names_view(seen_prop@);
        if eq_str(x.attrs[i].0.as_str(), class.as_str()) && !crate::manchester::lower::has(&seen_prop, x.attrs[i].1.as_str()) {
            let ghost sp0 = names_view(seen_prop@);
            seen_prop.push(x.attrs[i].1.clone());
            proof {
                assert(names_view(seen_prop@) =~= sp0.push(x.attrs@[i as int].1@));
                assert(ats[i as int].0 == class@ && ats[i as int].1 == x.attrs@[i as int].1@);
                assert forall|q: Seq<char>| #[trigger] names_view(seen_prop@).contains(q) implies own_attr_prop(ats, class@, q) by {
                    if q != x.attrs@[i as int].1@ {
                        let t = choose|t: int| 0 <= t < names_view(seen_prop@).len() && names_view(seen_prop@)[t] == q;
                        assert(sp0[t] == q);
                        assert(sp0.contains(q));
                    } else {
                        assert(ats[i as int].0 == class@ && ats[i as int].1 == q);
                    }
                }
            }
            let mut c: Vec<usize> = Vec::new();
            c.push(x.attrs[i].3);
            let ent = (x.attrs[i].1.clone(), x.attrs[i].2.clone(), c);
            proof {
                assert(ats[i as int] == (class@, x.attrs@[i as int].1@, x.attrs@[i as int].2@));
                assert(attr_ok(es, ats, class@, (ent.0@, ent.1@)));
            }
            let ghost e_g = ent;
            insert_attr(&mut r.attrs, ent);
            proof {
                let ii = choose|ii: int| 0 <= ii <= ra0.len() && r.attrs@ == ra0.insert(ii, e_g);
                lemma_attr_insert(es, ats, class@, ra0, r.attrs@, ii, e_g);
                assert forall|q: Seq<char>| #[trigger] names_view(seen_prop@).contains(q) implies own_attr_prop(ats, class@, q) && has_attr_entry(rattr_view(r.attrs@), q) by {
                    if q != x.attrs@[i as int].1@ {
                        let t = choose|t: int| 0 <= t < names_view(seen_prop@).len() && names_view(seen_prop@)[t] == q;
                        assert(sp0[t] == q);
                        assert(sp0.contains(q));
                        assert(has_attr_entry(rattr_view(ra0), q));
                    }
                }
            }
        }
        proof {
            if x.attrs@[i as int].0@ == class@ {
                assert(rolled_some(r)) by {
                    if seen_prop@.len() > 0 {}
                }
            }
            assert forall|j: int| 0 <= j < i + 1 && (#[trigger] x.attrs@[j]).0@ == class@ implies names_view(seen_prop@).contains(x.attrs@[j].1@) by {
                if j < i {
                    assert(spb.contains(x.attrs@[j].1@));
                    let t = choose|t: int| 0 <= t < spb.len() && spb[t] == x.attrs@[j].1@;
                    assert(names_view(seen_prop@)[t] == spb[t]);
                } else if names_view(seen_prop@) != spb {
                    assert(names_view(seen_prop@)[spb.len() as int] == x.attrs@[j].1@);
                } else {
                    assert(spb.contains(x.attrs@[j].1@));
                }
            }
        }
        i += 1;
    }
    proof {
        assert forall|q: Seq<char>| #[trigger] own_attr_prop(ats, class@, q) implies has_attr_entry(rattr_view(r.attrs@), q) by {
            let j = choose|j: int| 0 <= j < ats.len() && (#[trigger] ats[j]).0 == class@ && ats[j].1 == q;
            assert(x.attrs@[j].0@ == class@);
            assert(names_view(seen_prop@).contains(x.attrs@[j].1@));
        }
    }
    let ghost ra_own = r.attrs@;
    proof {
        assert(has_attr(ats, class@) <==> exists|j: int| 0 <= j < x.attrs@.len() && (#[trigger] x.attrs@[j]).0@ == class@) by {
            if has_attr(ats, class@) {
                let j = choose|j: int| 0 <= j < ats.len() && (#[trigger] ats[j]).0 == class@;
                assert(x.attrs@[j].0@ == class@);
            }
            if exists|j: int| 0 <= j < x.attrs@.len() && (#[trigger] x.attrs@[j]).0@ == class@ {
                let j = choose|j: int| 0 <= j < x.attrs@.len() && (#[trigger] x.attrs@[j]).0@ == class@;
                assert(ats[j].0 == class@);
            }
        }
    }
    let own = ext_props(&x.exts, class.as_str());
    proof {
        if has_rel(rels, class@) {
            let j = choose|j: int| 0 <= j < rels.len() && (#[trigger] rels[j]).0 == class@;
            assert(x.exts@[j].0@ == class@);
            assert(names_view(own@).contains(x.exts@[j].1@));
        }
        if own@.len() > 0 {
            assert(names_view(own@).contains(names_view(own@)[0]));
            let j = choose|j: int| 0 <= j < x.exts@.len() && (#[trigger] x.exts@[j]).0@ == class@ && x.exts@[j].1@ == names_view(own@)[0];
            assert(rels[j].0 == class@);
        }
    }
    let mut k: usize = 0;
    while k < own.len()
        invariant
            k <= own@.len(),
            seen_prop@.len() == 0 || rolled_some(r),
            rolled_some(r) <==> has_attr(ats, class@) || k > 0,
            own@.len() > 0 <==> has_rel(rels, class@),
            forall|q: Seq<char>| #[trigger] names_view(own@).contains(q)
                <==> exists|i: int| 0 <= i < x.exts@.len() && (#[trigger] x.exts@[i]).0@ == class@ && x.exts@[i].1@ == q,
            ats == attr_view(x.attrs@),
            rels == rel_view(x.exts@),
            es == sub_view(x.sub@),
            forall|kk: int| 0 <= kk < r.exts@.len() ==> #[trigger] rel_ok(es, rels, class@, rolled_view(r.exts@)[kk]),
            forall|kk: int| 0 <= kk < r.exts@.len() ==> (#[trigger] r.exts@[kk]).2@.len() >= 1,
            forall|q: Seq<char>| #[trigger] names_view(seen_prop@).contains(q)
                ==> own_attr_prop(ats, class@, q) || has_entry(rolled_view(r.exts@), q, class@),
            forall|kk: int| 0 <= kk < r.attrs@.len() ==> #[trigger] attr_ok(es, ats, class@, rattr_view(r.attrs@)[kk]),
            forall|q: Seq<char>| #[trigger] own_attr_prop(ats, class@, q) ==> has_attr_entry(rattr_view(r.attrs@), q),
            forall|k2: int| 0 <= k2 < k ==> names_view(seen_prop@).contains(#[trigger] names_view(own@)[k2]),
            forall|pr: (Seq<char>, Seq<char>)| #[trigger] crate::manchester::frames::pairs_view(ambiguous@).contains(pr)
                <==> amb0.contains(pr) || (pr.0 == class@ && rel_count(rels, class@, pr.1) > 1 && exists|k2: int| 0 <= k2 < k && names_view(own@)[k2] == pr.1),
        decreases own@.len() - k,
    {
        let p = own[k].as_str();
        proof {
            assert(names_view(own@)[k as int] == p@);
            assert(names_view(own@).contains(p@));
        }
        let ghost am0 = crate::manchester::frames::pairs_view(ambiguous@);
        let ghost sp0 = names_view(seen_prop@);
        let ghost rx0 = r.exts@;
        match winner(&x.exts, class.as_str(), p) {
            Some((w, n)) => {
                if n > 1 {
                    ambiguous.push((class.clone(), String::from_str(p)));
                    proof { assert(crate::manchester::frames::pairs_view(ambiguous@) =~= am0.push((class@, p@))); }
                    let m = cat(cat(cat(String::from_str("property <"), p), "> used with "), fmt_u64(n as u64).as_str());
                    let m = cat(cat(cat(m, " fillers on <"), class.as_str()), "> — kept <");
                    let m = cat(cat(m, x.exts[w].2.as_str()), "> (one column per property in v0)");
                    warnings.push(m);
                }
                if !crate::manchester::lower::has(&seen_prop, p) {
                    seen_prop.push(String::from_str(p));
                    let mut c: Vec<usize> = Vec::new();
                    c.push(x.exts[w].3);
                    let ent = (String::from_str(p), x.exts[w].2.clone(), c, class.clone(), x.exts[w].4);
                    proof {
                        assert(rels[w as int] == (class@, p@, x.exts@[w as int].2@, x.exts@[w as int].4));
                        assert(told_rel(rels, class@, p@, x.exts@[w as int].2@, x.exts@[w as int].4));
                        assert(rel_ok(es, rels, class@, (ent.0@, ent.1@, ent.3@, ent.4)));
                    }
                    let ghost e_g = ent;
                    insert_ext(&mut r.exts, ent);
                    proof {
                        let ii = choose|ii: int| 0 <= ii <= rx0.len() && r.exts@ == rx0.insert(ii, e_g);
                        lemma_rolled_insert(es, rels, class@, rx0, r.exts@, ii, e_g);
                        assert(names_view(seen_prop@) =~= sp0.push(p@));
                        assert forall|q: Seq<char>| #[trigger] names_view(seen_prop@).contains(q)
                            implies own_attr_prop(ats, class@, q) || has_entry(rolled_view(r.exts@), q, class@) by {
                            if q != p@ {
                                let t = choose|t: int| 0 <= t < names_view(seen_prop@).len() && names_view(seen_prop@)[t] == q;
                                assert(sp0[t] == q);
                                assert(sp0.contains(q));
                                if has_entry(rolled_view(rx0), q, class@) {}
                            }
                        }
                    }
                } else {
                    proof { assert(sp0.contains(p@)); }
                }
                proof {
                    assert forall|k2: int| 0 <= k2 < k + 1 implies names_view(seen_prop@).contains(#[trigger] names_view(own@)[k2]) by {
                        if k2 < k {
                            let q = names_view(own@)[k2];
                            assert(sp0.contains(q));
                            let t = choose|t: int| 0 <= t < sp0.len() && sp0[t] == q;
                            assert(names_view(seen_prop@)[t] == q);
                        } else {
                            assert(names_view(own@)[k2] == p@);
                            if names_view(seen_prop@) != sp0 {
                                assert(names_view(seen_prop@)[sp0.len() as int] == p@);
                            }
                        }
                    }
                    assert forall|pr: (Seq<char>, Seq<char>)| #[trigger] crate::manchester::frames::pairs_view(ambiguous@).contains(pr)
                        <==> amb0.contains(pr) || (pr.0 == class@ && rel_count(rels, class@, pr.1) > 1 && exists|k2: int| 0 <= k2 < k + 1 && names_view(own@)[k2] == pr.1) by {
                        if n > 1 && pr == (class@, p@) {
                            assert(crate::manchester::frames::pairs_view(ambiguous@)[am0.len() as int] == pr);
                        }
                        if exists|k2: int| 0 <= k2 < k + 1 && names_view(own@)[k2] == pr.1 {
                            let k2 = choose|k2: int| 0 <= k2 < k + 1 && names_view(own@)[k2] == pr.1;
                            if k2 < k {
                                assert(exists|k3: int| 0 <= k3 < k && names_view(own@)[k3] == pr.1);
                            }
                        }
                        if crate::manchester::frames::pairs_view(ambiguous@).contains(pr) && n > 1 {
                            let t = choose|t: int| 0 <= t < crate::manchester::frames::pairs_view(ambiguous@).len() && crate::manchester::frames::pairs_view(ambiguous@)[t] == pr;
                            if t < am0.len() { assert(am0[t] == pr); }
                        }
                        if am0.contains(pr) && n > 1 {
                            let t = choose|t: int| 0 <= t < am0.len() && am0[t] == pr;
                            assert(crate::manchester::frames::pairs_view(ambiguous@)[t] == pr);
                        }
                    }
                }
            },
            None => {
                proof {
                    assert(exists|i: int| 0 <= i < x.exts@.len() && (#[trigger] x.exts@[i]).0@ == class@ && x.exts@[i].1@ == p@);
                }
            },
        }
        k += 1;
    }
    proof {
        assert forall|q: Seq<char>| #[trigger] own_rel_prop(rels, class@, q) && !own_attr_prop(ats, class@, q)
            implies has_entry(rolled_view(r.exts@), q, class@) by {
            let i = choose|i: int| 0 <= i < rels.len() && (#[trigger] rels[i]).0 == class@ && rels[i].1 == q;
            assert(x.exts@[i].0@ == class@ && x.exts@[i].1@ == q);
            assert(names_view(own@).contains(q));
            let k2 = choose|k2: int| 0 <= k2 < names_view(own@).len() && names_view(own@)[k2] == q;
            assert(names_view(seen_prop@).contains(names_view(own@)[k2]));
        }
        assert forall|pr: (Seq<char>, Seq<char>)| #[trigger] crate::manchester::frames::pairs_view(ambiguous@).contains(pr)
            <==> amb0.contains(pr) || (pr.0 == class@ && rel_count(rels, class@, pr.1) > 1) by {
            if pr.0 == class@ && rel_count(rels, class@, pr.1) > 1 {
                lemma_rel_count_some(rels, class@, pr.1);
                let i = choose|i: int| 0 <= i < rels.len() && rels[i].0 == class@ && rels[i].1 == pr.1;
                assert(x.exts@[i].0@ == class@ && x.exts@[i].1@ == pr.1);
                assert(names_view(own@).contains(pr.1));
                let k2 = choose|k2: int| 0 <= k2 < names_view(own@).len() && names_view(own@)[k2] == pr.1;
                assert(exists|k3: int| 0 <= k3 < own@.len() && names_view(own@)[k3] == pr.1);
            }
        }
    }
    let ghost amb1 = crate::manchester::frames::pairs_view(ambiguous@);
    let ancs = ancestors(&x.sub, class);
    let mut a: usize = 0;
    while a < ancs.len()
        invariant
            a <= ancs@.len(),
            seen_prop@.len() == 0 || rolled_some(r),
            ats == attr_view(x.attrs@),
            rels == rel_view(x.exts@),
            forall|c: Seq<char>| #[trigger] has_own(ats, rels, c) ==> names_view(all_classes@).contains(c),
            rolled_some(r) <==> has_own(ats, rels, class@) || exists|a2: int| 0 <= a2 < a && #[trigger] has_own(ats, rels, walk_names(ancs@)[a2]),
            es == sub_view(x.sub@),
            forall|d: Seq<char>| #[trigger] walk_names(ancs@).contains(d) <==> d != class@ && reaches(es, class@, d),
            forall|kk: int| 0 <= kk < r.exts@.len() ==> #[trigger] rel_ok(es, rels, class@, rolled_view(r.exts@)[kk]),
            forall|kk: int| 0 <= kk < r.exts@.len() ==> (#[trigger] r.exts@[kk]).2@.len() >= 1,
            forall|q: Seq<char>| #[trigger] own_rel_prop(rels, class@, q) && !own_attr_prop(ats, class@, q)
                ==> has_entry(rolled_view(r.exts@), q, class@),
            crate::manchester::frames::pairs_view(ambiguous@) == amb1,
            forall|kk: int| 0 <= kk < r.attrs@.len() ==> #[trigger] attr_ok(es, ats, class@, rattr_view(r.attrs@)[kk]),
            forall|q: Seq<char>| #[trigger] own_attr_prop(ats, class@, q) ==> has_attr_entry(rattr_view(r.attrs@), q),
        decreases ancs@.len() - a,
    {
        let anc = &ancs[a].0;
        let path = &ancs[a].1;
        let ghost base = rolled_some(r);
        let ghost av = anc@;
        proof {
            assert(walk_names(ancs@)[a as int] == av);
            assert(walk_names(ancs@).contains(av));
            assert(reaches(es, class@, av));
        }
        let ghost rxa = r.exts@;
        if crate::manchester::lower::has(all_classes, anc.as_str()) {
            let mut i: usize = 0;
            while i < x.attrs.len()
                invariant
                    i <= x.attrs@.len(),
                    anc@ == av,
                    seen_prop@.len() == 0 || rolled_some(r),
                    rolled_some(r) <==> base || exists|j: int| 0 <= j < i && (#[trigger] x.attrs@[j]).0@ == av,
                    r.exts@ == rxa,
                    ats == attr_view(x.attrs@),
                    es == sub_view(x.sub@),
                    reaches(es, class@, av),
                    forall|kk: int| 0 <= kk < r.attrs@.len() ==> #[trigger] attr_ok(es, ats, class@, rattr_view(r.attrs@)[kk]),
                    forall|q: Seq<char>| #[trigger] own_attr_prop(ats, class@, q) ==> has_attr_entry(rattr_view(r.attrs@), q),
                decreases x.attrs@.len() - i,
            {
                if eq_str(x.attrs[i].0.as_str(), anc.as_str()) && !crate::manchester::lower::has(&seen_prop, x.attrs[i].1.as_str()) {
                    seen_prop.push(x.attrs[i].1.clone());
                    let mut c: Vec<usize> = Vec::new();
                    c.push(x.attrs[i].3);
                    let c = cites_then(&c, path);
                    let ent = (x.attrs[i].1.clone(), x.attrs[i].2.clone(), c);
                    let ghost ra0 = r.attrs@;
                    proof {
                        assert(ats[i as int] == (av, x.attrs@[i as int].1@, x.attrs@[i as int].2@));
                        assert(attr_ok(es, ats, class@, (ent.0@, ent.1@)));
                    }
                    let ghost e_g = ent;
                    insert_attr(&mut r.attrs, ent);
                    proof {
                        let ii = choose|ii: int| 0 <= ii <= ra0.len() && r.attrs@ == ra0.insert(ii, e_g);
                        lemma_attr_insert(es, ats, class@, ra0, r.attrs@, ii, e_g);
                    }
                }
                proof {
                    if x.attrs@[i as int].0@ == av {
                        assert(rolled_some(r)) by {
                            if seen_prop@.len() > 0 {}
                        }
                    }
                }
                i += 1;
            }
            proof {
                assert(has_attr(ats, av) <==> exists|j: int| 0 <= j < x.attrs@.len() && (#[trigger] x.attrs@[j]).0@ == av) by {
                    if has_attr(ats, av) {
                        let j = choose|j: int| 0 <= j < ats.len() && (#[trigger] ats[j]).0 == av;
                        assert(x.attrs@[j].0@ == av);
                    }
                    if exists|j: int| 0 <= j < x.attrs@.len() && (#[trigger] x.attrs@[j]).0@ == av {
                        let j = choose|j: int| 0 <= j < x.attrs@.len() && (#[trigger] x.attrs@[j]).0@ == av;
                        assert(ats[j].0 == av);
                    }
                }
            }
            let ghost base2 = base || has_attr(ats, av);
            let props = ext_props(&x.exts, anc.as_str());
            proof {
                if has_rel(rels, av) {
                    let j = choose|j: int| 0 <= j < rels.len() && (#[trigger] rels[j]).0 == av;
                    assert(x.exts@[j].0@ == av);
                    assert(names_view(props@).contains(x.exts@[j].1@));
                }
                if props@.len() > 0 {
                    assert(names_view(props@).contains(names_view(props@)[0]));
                    let j = choose|j: int| 0 <= j < x.exts@.len() && (#[trigger] x.exts@[j]).0@ == av && x.exts@[j].1@ == names_view(props@)[0];
                    assert(rels[j].0 == av);
                }
            }
            let mut k: usize = 0;
            while k < props.len()
                invariant
                    k <= props@.len(),
                    anc@ == av,
                    seen_prop@.len() == 0 || rolled_some(r),
                    rolled_some(r) <==> base2 || k > 0,
                    es == sub_view(x.sub@),
                    rels == rel_view(x.exts@),
                    reaches(es, class@, av),
                    forall|kk: int| 0 <= kk < r.exts@.len() ==> #[trigger] rel_ok(es, rels, class@, rolled_view(r.exts@)[kk]),
                    forall|kk: int| 0 <= kk < r.exts@.len() ==> (#[trigger] r.exts@[kk]).2@.len() >= 1,
                    ats == attr_view(x.attrs@),
                    forall|kk: int| 0 <= kk < r.attrs@.len() ==> #[trigger] attr_ok(es, ats, class@, rattr_view(r.attrs@)[kk]),
                    forall|q: Seq<char>| #[trigger] own_attr_prop(ats, class@, q) ==> has_attr_entry(rattr_view(r.attrs@), q),
                    forall|q: Seq<char>| #[trigger] own_rel_prop(rels, class@, q) && !own_attr_prop(ats, class@, q)
                        ==> has_entry(rolled_view(r.exts@), q, class@),
                    forall|q: Seq<char>| #[trigger] names_view(props@).contains(q)
                        <==> exists|i: int| 0 <= i < x.exts@.len() && (#[trigger] x.exts@[i]).0@ == av && x.exts@[i].1@ == q,
                decreases props@.len() - k,
            {
                let p = props[k].as_str();
                proof {
                    assert(names_view(props@)[k as int] == p@);
                    assert(names_view(props@).contains(p@));
                }
                match winner(&x.exts, anc.as_str(), p) {
                    Some((w, _)) => {
                        if !crate::manchester::lower::has(&seen_prop, p) {
                            seen_prop.push(String::from_str(p));
                            let mut c: Vec<usize> = Vec::new();
                            c.push(x.exts[w].3);
                            let c = cites_then(&c, path);
                            let ent = (String::from_str(p), x.exts[w].2.clone(), c, anc.clone(), x.exts[w].4);
                            let ghost rx0 = r.exts@;
                            proof {
                                assert(rels[w as int] == (av, p@, x.exts@[w as int].2@, x.exts@[w as int].4));
                                assert(told_rel(rels, av, p@, x.exts@[w as int].2@, x.exts@[w as int].4));
                                assert(rel_ok(es, rels, class@, (ent.0@, ent.1@, ent.3@, ent.4)));
                            }
                            let ghost e_g = ent;
                            insert_ext(&mut r.exts, ent);
                            proof {
                                let ii = choose|ii: int| 0 <= ii <= rx0.len() && r.exts@ == rx0.insert(ii, e_g);
                                lemma_rolled_insert(es, rels, class@, rx0, r.exts@, ii, e_g);
                                assert forall|q: Seq<char>| #[trigger] own_rel_prop(rels, class@, q) && !own_attr_prop(ats, class@, q)
                                    implies has_entry(rolled_view(r.exts@), q, class@) by {
                                    assert(has_entry(rolled_view(rx0), q, class@));
                                }
                            }
                        }
                    },
                    None => {},
                }
                k += 1;
            }
            proof { assert(rolled_some(r) <==> base || has_own(ats, rels, av)); }
        } else {
            proof { assert(!has_own(ats, rels, av)); }
        }
        proof {
            assert(rolled_some(r) <==> has_own(ats, rels, class@) || exists|a2: int| 0 <= a2 < a + 1 && #[trigger] has_own(ats, rels, walk_names(ancs@)[a2])) by {
                if exists|a2: int| 0 <= a2 < a + 1 && #[trigger] has_own(ats, rels, walk_names(ancs@)[a2]) {
                    let a2 = choose|a2: int| 0 <= a2 < a + 1 && #[trigger] has_own(ats, rels, walk_names(ancs@)[a2]);
                    if a2 < a { assert(exists|a3: int| 0 <= a3 < a && #[trigger] has_own(ats, rels, walk_names(ancs@)[a3])); }
                }
            }
        }
        a += 1;
    }
    proof {
        let es = sub_view(x.sub@);
        assert(rolled_some(r) <==> elected_spec(es, ats, rels, class@)) by {
            if exists|a2: int| 0 <= a2 < ancs@.len() && #[trigger] has_own(ats, rels, walk_names(ancs@)[a2]) {
                let a2 = choose|a2: int| 0 <= a2 < ancs@.len() && #[trigger] has_own(ats, rels, walk_names(ancs@)[a2]);
                let d = walk_names(ancs@)[a2];
                assert(walk_names(ancs@).contains(d));
                assert(reaches(es, class@, d));
            }
            if exists|d: Seq<char>| reaches(es, class@, d) && #[trigger] has_own(ats, rels, d) {
                let d = choose|d: Seq<char>| reaches(es, class@, d) && #[trigger] has_own(ats, rels, d);
                if d != class@ {
                    assert(walk_names(ancs@).contains(d));
                    let a2 = choose|a2: int| 0 <= a2 < walk_names(ancs@).len() && walk_names(ancs@)[a2] == d;
                    assert(has_own(ats, rels, walk_names(ancs@)[a2]));
                }
            }
        }
    }
    r
}

/// `base`, or `base_2`, `base_3`, … — the first not yet used, which is then used.
/// The `k`-th name tried for `base`: `base` itself, then `base_2`, `base_3`, ….
pub open spec fn candidate(base: Seq<char>, k: nat) -> Seq<char> {
    if k < 2 { base } else { base + "_"@ + decimal(k) }
}

/// Reading back the decimal rendering of `n` gives `n`.
pub(crate) proof fn lemma_decimal_value(n: nat)
    ensures
        digits_value(decimal(n)) == n,
        decimal(n).len() >= 1,
    decreases n,
{
    let d = decimal(n);
    let m: nat = n % 10;
    assert(digit_value(digit_char(m)) == Some(m)) by {
        assert(m < 10);
        if m == 0 {} else if m == 1 {} else if m == 2 {} else if m == 3 {} else if m == 4 {}
        else if m == 5 {} else if m == 6 {} else if m == 7 {} else if m == 8 {} else {}
    }
    if n >= 10 {
        lemma_decimal_value(n / 10);
        assert(d.drop_last() =~= decimal(n / 10));
        assert(d.last() == digit_char(m));
        assert(digits_value(d) == digits_value(d.drop_last()) * 10 + m);
        assert(n == (n / 10) * 10 + n % 10) by (nonlinear_arith);
    } else {
        assert(d.drop_last() =~= Seq::<char>::empty());
        assert(d.last() == digit_char(m));
        assert(digits_value(d) == digits_value(d.drop_last()) * 10 + m);
    }
}

/// Distinct candidates (`0` and those from `2` on) are distinct names.
proof fn lemma_candidates_distinct(base: Seq<char>, j: nat, k: nat)
    requires
        j != k,
        j == 0 || j >= 2,
        k == 0 || k >= 2,
    ensures
        candidate(base, j) != candidate(base, k),
{
    lemma_decimal_value(j);
    lemma_decimal_value(k);
    if j >= 2 && k >= 2 {
        let pre = base + "_"@;
        if candidate(base, j) == candidate(base, k) {
            assert(candidate(base, j).skip(pre.len() as int) =~= decimal(j));
            assert(candidate(base, k).skip(pre.len() as int) =~= decimal(k));
        }
    } else if j >= 2 {
        assert(candidate(base, j).len() > base.len());
    } else if k >= 2 {
        assert(candidate(base, k).len() > base.len());
    }
}

/// The candidates `0, 2, 3, …, k - 1`.
pub open spec fn tried(base: Seq<char>, k: nat) -> Seq<Seq<char>> {
    Seq::new(if k >= 1 { (k - 1) as nat } else { 0 }, |i: int| candidate(base, if i == 0 { 0 } else { (i + 1) as nat }))
}

/// The first candidate for `base` not in `used`, which then holds it too. (With `used`
/// beyond `u64::MAX - 1` names the search gives up and the name may repeat.)
fn fresh_name(used: &mut Vec<String>, base: &String) -> (r: String)
    ensures
        names_view(final(used)@) == names_view(old(used)@).push(r@),
        old(used)@.len() < u64::MAX - 1 ==> !names_view(old(used)@).contains(r@),
        exists|k: nat| (k == 0 || k >= 2) && #[trigger] candidate(base@, k) == r@
            && (old(used)@.len() < u64::MAX - 1 ==> forall|j: nat| j < k && (j == 0 || j >= 2) ==> names_view(old(used)@).contains(#[trigger] candidate(base@, j))),
{
    let ghost u = names_view(used@);
    let mut name = base.clone();
    let mut k: u64 = 2;
    let bound = used.len() as u64;
    let ghost mut cur: nat = 0;
    loop
        invariant
            2 <= k,
            u == names_view(used@),
            bound == used@.len() as u64,
            name@ == candidate(base@, cur),
            cur == 0 || cur >= 2,
            (cur == 0 && k == 2) || cur == k - 1,
            forall|j: nat| j < cur && (j == 0 || j >= 2) ==> u.contains(#[trigger] candidate(base@, j)),
        ensures
            name@ == candidate(base@, cur),
            cur == 0 || cur >= 2,
            forall|j: nat| j < cur && (j == 0 || j >= 2) ==> u.contains(#[trigger] candidate(base@, j)),
            u.len() < u64::MAX - 1 ==> !u.contains(name@),
        decreases u64::MAX - k,
    {
        let taken = crate::manchester::lower::has(used, name.as_str());
        if !taken {
            break;
        }
        if !(k - 2 <= bound && k < u64::MAX) {
            proof {
                // all of 0, 2, …, cur are taken: more distinct names than `used` has
                if u.len() < u64::MAX - 1 {
                    let t = tried(base@, (cur + 1) as nat);
                    assert forall|a: int, b: int| 0 <= a < b < t.len() implies t[a] != t[b] by {
                        lemma_candidates_distinct(base@, if a == 0 { 0 } else { (a + 1) as nat }, if b == 0 { 0 } else { (b + 1) as nat });
                    }
                    assert forall|i: int| 0 <= i < t.len() implies u.contains(#[trigger] t[i]) by {
                        let j: nat = if i == 0 { 0 } else { (i + 1) as nat };
                        if j < cur {
                            assert(u.contains(candidate(base@, j)));
                        }
                    }
                    crate::shapes::lemma_distinct_bound(t, u);
                }
            }
            break;
        }
        proof { cur = k as nat; }
        name = cat(cat(base.clone(), "_"), fmt_u64(k).as_str());
        k += 1;
    }
    let ghost rv = name@;
    used.push(name.clone());
    proof {
        assert(names_view(used@) =~= u.push(rv));
    }
    name
}

/// The display name of an entity: its label, else its local name as words.
fn display(x: &Idx, iri: &str) -> (r: String) {
    match get3(&x.labels, iri) {
        Some((l, _)) => l,
        None => crate::verbalise::words(local_of(iri).as_str()),
    }
}

/// The name paired with `class` first in `names`, else the empty name.
pub open spec fn name_of_spec(names: Seq<(String, String)>, class: Seq<char>) -> Seq<char>
    decreases names.len(),
{
    if names.len() == 0 {
        Seq::empty()
    } else if names[0].0@ == class {
        names[0].1@
    } else {
        name_of_spec(names.drop_first(), class)
    }
}

/// Where a class is paired once, `name_of_spec` gives its pair.
proof fn lemma_name_of_at(names: Seq<(String, String)>, class: Seq<char>, t: int)
    requires
        0 <= t < names.len(),
        names[t].0@ == class,
        forall|s: int| 0 <= s < t ==> (#[trigger] names[s]).0@ != class,
    ensures
        name_of_spec(names, class) == names[t].1@,
    decreases t,
{
    if t > 0 {
        let d = names.drop_first();
        assert forall|s: int| 0 <= s < t - 1 implies (#[trigger] d[s]).0@ != class by {
            assert(d[s] == names[s + 1]);
        }
        lemma_name_of_at(d, class, t - 1);
    }
}

/// The table name given to `class`.
fn name_of(names: &Vec<(String, String)>, class: &str) -> (r: String)
    ensures
        r@ == name_of_spec(names@, class@),
{
    assert(names@.skip(0) =~= names@);
    let mut i: usize = 0;
    while i < names.len()
        invariant
            i <= names@.len(),
            name_of_spec(names@, class@) == name_of_spec(names@.skip(i as int), class@),
        decreases names@.len() - i,
    {
        proof {
            assert(names@.skip(i as int)[0] == names@[i as int]);
            assert(names@.skip(i as int).drop_first() =~= names@.skip(i + 1));
        }
        if eq_str(names[i].0.as_str(), class) {
            return names[i].1.clone();
        }
        i += 1;
    }
    String::new()
}

/// The surrogate key column.
fn id_column() -> (r: Column)
    ensures
        r.name@ == "id"@,
        r.prop is None,
        r.pk,
        !r.nullable,
{
    Column {
        name: String::from_str("id"),
        sql_type: String::from_str("VARCHAR(255)"),
        nullable: false,
        pk: true,
        unique: false,
        prop: None,
        comment: None,
        cites: Vec::new(),
    }
}

/// Count `n` more of `key`.
fn bump_by(t: &mut Tally, key: &str, n: usize)
    requires
        old(t).wf(),
    ensures
        final(t).wf(),
{
    let mut i: usize = 0;
    while i < n
        invariant
            t.wf(),
            i <= n,
        decreases n - i,
    {
        t.bump(key);
        i += 1;
    }
}

/// The classes of the elected tables.
spec fn class_names(v: Seq<(String, Rolled)>) -> Seq<Seq<char>> {
    v.map_values(|e: (String, Rolled)| e.0@)
}

/// `y` is the target of a relation rolled onto an elected class.
spec fn rolled_target(el: Seq<(String, Rolled)>, y: Seq<char>) -> bool {
    exists|e: int, k: int| 0 <= e < el.len() && 0 <= k < el[e].1.exts@.len() && (#[trigger] el[e].1.exts@[k]).1@ == y
}

/// Class `c` is the target of a junction or of a foreign key of one of the first `ne` tables.
pub open spec fn ref_target(tables: Seq<Table>, ne: int, js: Seq<Junction>, c: Seq<char>) -> bool {
    (exists|j: int| 0 <= j < js.len() && (#[trigger] js[j]).target_class@ == c)
        || (exists|i: int, q: int| 0 <= i < ne && 0 <= q < tables[i].fks@.len() && (#[trigger] tables[i].fks@[q]).target_class@ == c)
}

/// `c` is an elected class or a reference class.
pub open spec fn covered(ev: Seq<Seq<char>>, rv: Seq<Seq<char>>, c: Seq<char>) -> bool {
    ev.contains(c) || rv.contains(c)
}

/// The names given, in order.
pub open spec fn seconds(names: Seq<(String, String)>) -> Seq<Seq<char>> {
    names.map_values(|p: (String, String)| p.1@)
}

/// A junction made for one of the first `n` elected classes.
spec fn jn_elected(j: Junction, names: Seq<(String, String)>, elected: Seq<(String, Rolled)>, n: int) -> bool {
    exists|e: int| #![trigger elected[e]] 0 <= e < n && jn_ok(j, names, elected[e].0@, ext_targets(elected[e].1.exts@))
}

/// Two strictly sorted lists with nothing in common hold no name twice together.
proof fn lemma_distinct_parts(a: Seq<Seq<char>>, b: Seq<Seq<char>>)
    requires
        strictly_sorted(a),
        strictly_sorted(b),
        forall|y: Seq<char>| #[trigger] b.contains(y) ==> !a.contains(y),
    ensures
        (a + b).no_duplicates(),
{
    let ab = a + b;
    assert forall|i: int, j: int| 0 <= i < ab.len() && 0 <= j < ab.len() && i != j implies ab[i] != ab[j] by {
        let (lo, hi) = if i < j { (i, j) } else { (j, i) };
        if hi < a.len() {
            assert(seq_lt(a[lo], a[hi]));
            crate::text::lemma_seq_lt_irrefl(a[lo]);
        } else if lo >= a.len() {
            assert(seq_lt(b[lo - a.len()], b[hi - a.len()]));
            crate::text::lemma_seq_lt_irrefl(b[lo - a.len()]);
        } else {
            assert(b.contains(ab[hi]));
            assert(a.contains(ab[lo]));
        }
    }
}

/// A table of class `class` named `name` is among `ts`.
pub open spec fn table_named(ts: Seq<Table>, class: Seq<char>, name: Seq<char>) -> bool {
    exists|i: int| 0 <= i < ts.len() && (#[trigger] ts[i]).class@ == class && ts[i].name@ == name
}

/// A foreign key points at an existing table (by class and name) or lookup table (by
/// property and name).
pub open spec fn fk_resolves(ts: Seq<Table>, ls: Seq<Lookup>, fk: Fk) -> bool {
    table_named(ts, fk.target_class@, fk.target_table@) || has_lookup(ls, fk.target_class@, fk.target_table@)
}

/// The referential laws of a plan, from how its tables, names and relations were built.
proof fn lemma_plan_refs(
    tables: Seq<Table>,
    names: Seq<(String, String)>,
    at: Seq<Seq<char>>,
    elected: Seq<(String, Rolled)>,
    ev: Seq<Seq<char>>,
    rv: Seq<Seq<char>>,
    lookups: Seq<Lookup>,
    junctions: Seq<Junction>,
)
    requires
        at == ev + rv,
        ev == class_names(elected),
        at.no_duplicates(),
        tables.len() == at.len(),
        names.len() == at.len(),
        forall|q: int| 0 <= q < names.len() ==> (#[trigger] names[q]).0@ == at[q],
        at.len() < u64::MAX - 1 ==> seconds(names).no_duplicates(),
        forall|i: int| 0 <= i < tables.len() ==> (#[trigger] tables[i]).class@ == at[i]
            && tables[i].name@ == name_of_spec(names, at[i]),
        forall|i: int| 0 <= i < tables.len() ==> (#[trigger] tables[i]).fks@.len() == 0
            || (i < ev.len() && forall|q: int| 0 <= q < tables[i].fks@.len()
                ==> fk_ok(#[trigger] tables[i].fks@[q], names, ext_targets(elected[i].1.exts@), lookups)),
        forall|j: int| 0 <= j < junctions.len() ==> jn_elected(#[trigger] junctions[j], names, elected, elected.len() as int),
        forall|e2: int, k2: int| 0 <= e2 < elected.len() && 0 <= k2 < elected[e2].1.exts@.len()
            ==> covered(ev, rv, #[trigger] elected[e2].1.exts@[k2].1@),
    ensures
        forall|i: int, j: int| 0 <= i < j < tables.len() ==> (#[trigger] tables[i]).class@ != (#[trigger] tables[j]).class@,
        tables.len() < u64::MAX - 1 ==> forall|i: int, j: int| 0 <= i < j < tables.len()
            ==> (#[trigger] tables[i]).name@ != (#[trigger] tables[j]).name@,
        forall|i: int, q: int| 0 <= i < tables.len() && 0 <= q < tables[i].fks@.len()
            ==> fk_resolves(tables, lookups, #[trigger] tables[i].fks@[q]),
        forall|j: int| 0 <= j < junctions.len() ==> table_named(tables, (#[trigger] junctions[j]).subject_class@, junctions[j].subject_table@)
            && table_named(tables, junctions[j].target_class@, junctions[j].target_table@),
{
    assert forall|i: int| 0 <= i < at.len() implies name_of_spec(names, #[trigger] at[i]) == names[i].1@ by {
        assert forall|s2: int| 0 <= s2 < i implies (#[trigger] names[s2]).0@ != at[i] by {
            assert(names[s2].0@ == at[s2]);
        }
        lemma_name_of_at(names, at[i], i);
    }
    // every relation target of an elected class has its table
    assert forall|e2: int, c: Seq<char>| 0 <= e2 < elected.len() && #[trigger] ext_targets(elected[e2].1.exts@).contains(c)
        implies table_named(tables, c, name_of_spec(names, c)) by {
        let k2 = choose|k2: int| 0 <= k2 < ext_targets(elected[e2].1.exts@).len() && ext_targets(elected[e2].1.exts@)[k2] == c;
        assert(elected[e2].1.exts@[k2].1@ == c);
        assert(covered(ev, rv, elected[e2].1.exts@[k2].1@));
        assert(at.contains(c)) by {
            if ev.contains(c) {
                let m = choose|m: int| 0 <= m < ev.len() && ev[m] == c;
                assert(at[m] == c);
            } else {
                let m = choose|m: int| 0 <= m < rv.len() && rv[m] == c;
                assert(at[ev.len() + m] == c);
            }
        }
        let m = choose|m: int| 0 <= m < at.len() && at[m] == c;
        assert(tables[m].class@ == c);
    }
    assert forall|i: int, q: int| 0 <= i < tables.len() && 0 <= q < tables[i].fks@.len()
        implies fk_resolves(tables, lookups, #[trigger] tables[i].fks@[q]) by {
        assert(fk_ok(tables[i].fks@[q], names, ext_targets(elected[i].1.exts@), lookups));
    }
    assert forall|j: int| 0 <= j < junctions.len() implies table_named(tables, (#[trigger] junctions[j]).subject_class@, junctions[j].subject_table@)
        && table_named(tables, junctions[j].target_class@, junctions[j].target_table@) by {
        let e2 = choose|e2: int| #![trigger elected[e2]] 0 <= e2 < elected.len() && jn_ok(junctions[j], names, elected[e2].0@, ext_targets(elected[e2].1.exts@));
        assert(ev[e2] == elected[e2].0@);
        assert(at[e2] == ev[e2]);
        assert(tables[e2].class@ == at[e2]);
        assert(ext_targets(elected[e2].1.exts@).contains(junctions[j].target_class@));
    }
    assert forall|i: int, j: int| 0 <= i < j < tables.len() implies (#[trigger] tables[i]).class@ != (#[trigger] tables[j]).class@ by {
        assert(at[i] != at[j]);
    }
    if tables.len() < u64::MAX - 1 {
        assert forall|i: int, j: int| 0 <= i < j < tables.len() implies (#[trigger] tables[i]).name@ != (#[trigger] tables[j]).name@ by {
            assert(seconds(names)[i] != seconds(names)[j]);
        }
    }
}

/// What the rollup of `class` holds of its relations: each is told of `class` or a class it
/// reaches, and each own relation property that is not an own attribute is there, held by
/// `class`.
spec fn rolled_facts(es: Seq<(Seq<char>, Seq<char>)>, rels: Seq<(Seq<char>, Seq<char>, Seq<char>, bool)>,
    ats: Seq<(Seq<char>, Seq<char>, Seq<char>)>, class: Seq<char>, r: Rolled) -> bool {
    &&& forall|k: int| 0 <= k < r.exts@.len() ==> #[trigger] rel_ok(es, rels, class, rolled_view(r.exts@)[k])
    &&& forall|q: Seq<char>| #[trigger] own_rel_prop(rels, class, q) && !own_attr_prop(ats, class, q)
        ==> has_entry(rolled_view(r.exts@), q, class)
    &&& forall|k: int| 0 <= k < r.attrs@.len() ==> #[trigger] attr_ok(es, ats, class, rattr_view(r.attrs@)[k])
    &&& forall|q: Seq<char>| #[trigger] own_attr_prop(ats, class, q) ==> has_attr_entry(rattr_view(r.attrs@), q)
    &&& forall|k: int| 0 <= k < r.exts@.len() ==> (#[trigger] r.exts@[k]).2@.len() >= 1
}

/// One of the first `c` classes is `x`.
pub open spec fn seen_class(ac: Seq<String>, c: int, x: Seq<char>) -> bool {
    exists|k: int| 0 <= k < c && ac[k]@ == x
}

/// The bounds of relation `p` of `h`: none when `h` has more than one told relation on `p`,
/// else the last `@Cardinality` on `(h, p)`, else exactly one.
pub open spec fn bounds_spec(anns: Seq<crate::fragment::AnnotationV>, rels: Seq<(Seq<char>, Seq<char>, Seq<char>, bool)>,
    h: Seq<char>, p: Seq<char>) -> (u32, Option<u32>) {
    if rel_count(rels, h, p) > 1 {
        (1u32, None)
    } else {
        match last_card(anns, h, p) { Some(b) => b, None => (1u32, None) }
    }
}

/// The relations `rs` rolled onto the table's class are placed in the table and the
/// junctions: each is told of the class or a class it reaches, is a column with a foreign
/// key or a junction by its bounds, and every own relation property of the class that is
/// not an own attribute is among them, held by the class.
pub open spec fn relations_placed(es: Seq<(Seq<char>, Seq<char>)>, rels: Seq<(Seq<char>, Seq<char>, Seq<char>, bool)>,
    ats: Seq<(Seq<char>, Seq<char>, Seq<char>)>, anns: Seq<crate::fragment::AnnotationV>, t: Table, js: Seq<Junction>,
    rs: Seq<(Seq<char>, Seq<char>, Seq<char>, bool)>) -> bool {
    &&& forall|k: int| 0 <= k < rs.len() ==> #[trigger] rel_ok(es, rels, t.class@, rs[k])
        && rel_placed(t.class@, t.columns@, t.fks@, js, rs[k], bounds_spec(anns, rels, rs[k].2, rs[k].0))
    &&& forall|q: Seq<char>| #[trigger] own_rel_prop(rels, t.class@, q) && !own_attr_prop(ats, t.class@, q) ==> has_entry(rs, q, t.class@)
}

/// Table `t` holds the relations rolled onto its class.
pub open spec fn table_placed(axs: Seq<crate::fragment::AxiomV>, anns: Seq<crate::fragment::AnnotationV>, t: Table, js: Seq<Junction>) -> bool {
    exists|rs: Seq<(Seq<char>, Seq<char>, Seq<char>, bool)>|
        #[trigger] relations_placed(sub_edges(axs), ax_rels(axs) + ann_rels(anns), ann_attrs(anns), anns, t, js, rs)
}

/// The relations rolled onto each elected table are placed in it and the junctions.
pub open spec fn elected_placed(axs: Seq<crate::fragment::AxiomV>, anns: Seq<crate::fragment::AnnotationV>, r: Plan) -> bool {
    forall|i: int| 0 <= i < r.tables@.len() - r.n_reference_tables ==> #[trigger] table_placed(axs, anns, r.tables@[i], r.junctions@)
}

/// The attributes `as_` rolled onto the table's class are columns of it: each is told of the
/// class or of a class it reaches and has an optional column, with a key into the property's
/// lookup table where an `@Enum` closes the property's values; every own attribute property
/// of the class is among them.
pub open spec fn attributes_placed(es: Seq<(Seq<char>, Seq<char>)>, ats: Seq<(Seq<char>, Seq<char>, Seq<char>)>,
    anns: Seq<crate::fragment::AnnotationV>, t: Table, ls: Seq<Lookup>, as_: Seq<(Seq<char>, Seq<char>)>) -> bool {
    &&& forall|k: int| 0 <= k < as_.len() ==> #[trigger] attr_ok(es, ats, t.class@, as_[k])
        && attr_placed(t.columns@, t.fks@, ls, ann_enumerated(anns, as_[k].0), as_[k])
    &&& forall|q: Seq<char>| #[trigger] own_attr_prop(ats, t.class@, q) ==> has_attr_entry(as_, q)
}

/// Table `t` holds the attributes rolled onto its class.
pub open spec fn table_attrs_placed(axs: Seq<crate::fragment::AxiomV>, anns: Seq<crate::fragment::AnnotationV>, t: Table, ls: Seq<Lookup>) -> bool {
    exists|as_: Seq<(Seq<char>, Seq<char>)>| #[trigger] attributes_placed(sub_edges(axs), ann_attrs(anns), anns, t, ls, as_)
}

/// The attributes rolled onto each elected table are columns of it.
pub open spec fn elected_attrs_placed(axs: Seq<crate::fragment::AxiomV>, anns: Seq<crate::fragment::AnnotationV>, r: Plan) -> bool {
    forall|i: int| 0 <= i < r.tables@.len() - r.n_reference_tables ==> #[trigger] table_attrs_placed(axs, anns, r.tables@[i], r.lookups@)
}

/// Build the semantic DDL plan. `ax_cite[i]` and `ann_cite[j]` are the source lines of the
/// i-th axiom and the j-th annotation.
pub fn plan(axioms: &[Axiom], annotations: &[Annotation], ax_cite: &[usize], ann_cite: &[usize]) -> (r: Plan)
    ensures
        r.stats.wf(),
        !r.sql_valid,
        r.n_reference_tables <= r.tables@.len(),
        forall|i: int| 0 <= i < r.tables@.len() ==> (#[trigger] r.tables@[i]).columns@.len() >= 1,
        forall|i: int| 0 <= i < r.tables@.len() ==> table_cols_ok(#[trigger] r.tables@[i]),
        forall|i: int| r.tables@.len() - r.n_reference_tables <= i < r.tables@.len() ==> bare_table(#[trigger] r.tables@[i]),
        forall|cn: Seq<char>| #[trigger] elected_spec(sub_edges(crate::fragment::axioms_view(axioms@)),
            ann_attrs(crate::fragment::annotations_view(annotations@)),
            ax_rels(crate::fragment::axioms_view(axioms@)) + ann_rels(crate::fragment::annotations_view(annotations@)), cn)
            <==> elected_table(r.tables@, r.tables@.len() - r.n_reference_tables, cn),
        forall|i: int, j: int| 0 <= i < j < r.tables@.len() - r.n_reference_tables
            ==> seq_lt(#[trigger] r.tables@[i].class@, #[trigger] r.tables@[j].class@),
        elected_placed(crate::fragment::axioms_view(axioms@), crate::fragment::annotations_view(annotations@), r),
        elected_attrs_placed(crate::fragment::axioms_view(axioms@), crate::fragment::annotations_view(annotations@), r),
        luts_named(r.lookups@),
        strictly_sorted(lookup_props(r.lookups@)),
        forall|j: int| 0 <= j < r.lookups@.len() ==> #[trigger] lut_used(r.tables@, r.tables@.len() - r.n_reference_tables, r.lookups@[j]),
        forall|j: int| 0 <= j < r.lookups@.len() ==> ann_enumerated(crate::fragment::annotations_view(annotations@), (#[trigger] r.lookups@[j]).prop@),
        forall|i: int| r.tables@.len() - r.n_reference_tables <= i < r.tables@.len()
            ==> #[trigger] ref_target(r.tables@, r.tables@.len() - r.n_reference_tables, r.junctions@, r.tables@[i].class@),
        forall|i: int, j: int| r.tables@.len() - r.n_reference_tables <= i < j < r.tables@.len()
            ==> seq_lt(#[trigger] r.tables@[i].class@, #[trigger] r.tables@[j].class@),
        forall|i: int| 0 <= i < r.tables@.len() ==> label_view(#[trigger] r.tables@[i]) == first_label(crate::fragment::annotations_view(annotations@), r.tables@[i].class@),
        forall|i: int, j: int| 0 <= i < j < r.tables@.len() ==> (#[trigger] r.tables@[i]).class@ != (#[trigger] r.tables@[j]).class@,
        r.tables@.len() < u64::MAX - 1 ==> forall|i: int, j: int| 0 <= i < j < r.tables@.len()
            ==> (#[trigger] r.tables@[i]).name@ != (#[trigger] r.tables@[j]).name@,
        forall|i: int, q: int| 0 <= i < r.tables@.len() && 0 <= q < r.tables@[i].fks@.len()
            ==> fk_resolves(r.tables@, r.lookups@, #[trigger] r.tables@[i].fks@[q]),
        forall|j: int| 0 <= j < r.junctions@.len()
            ==> table_named(r.tables@, (#[trigger] r.junctions@[j]).subject_class@, r.junctions@[j].subject_table@)
                && table_named(r.tables@, r.junctions@[j].target_class@, r.junctions@[j].target_table@),
{
    let x = index(axioms, annotations, ax_cite, ann_cite);
    let ghost es = sub_view(x.sub@);
    let ghost ats = attr_view(x.attrs@);
    let ghost rels = rel_view(x.exts@);
    let mut all_classes: Vec<String> = Vec::new();
    proof { assert(names_view(all_classes@) =~= Seq::<Seq<char>>::empty()); }
    let mut i: usize = 0;
    while i < x.sub.len()
        invariant
            i <= x.sub@.len(),
            strictly_sorted(names_view(all_classes@)),
            forall|j: int| 0 <= j < i ==> names_view(all_classes@).contains(#[trigger] x.sub@[j].0@),
        decreases x.sub@.len() - i,
    {
        insert_sorted(&mut all_classes, x.sub[i].0.clone());
        i += 1;
    }
    let mut i: usize = 0;
    while i < x.exts.len()
        invariant
            i <= x.exts@.len(),
            strictly_sorted(names_view(all_classes@)),
            forall|j: int| 0 <= j < x.sub@.len() ==> names_view(all_classes@).contains(#[trigger] x.sub@[j].0@),
            forall|j: int| 0 <= j < i ==> names_view(all_classes@).contains(#[trigger] x.exts@[j].0@),
        decreases x.exts@.len() - i,
    {
        insert_sorted(&mut all_classes, x.exts[i].0.clone());
        i += 1;
    }
    let mut i: usize = 0;
    while i < x.attrs.len()
        invariant
            i <= x.attrs@.len(),
            strictly_sorted(names_view(all_classes@)),
            forall|j: int| 0 <= j < x.sub@.len() ==> names_view(all_classes@).contains(#[trigger] x.sub@[j].0@),
            forall|j: int| 0 <= j < x.exts@.len() ==> names_view(all_classes@).contains(#[trigger] x.exts@[j].0@),
            forall|j: int| 0 <= j < i ==> names_view(all_classes@).contains(#[trigger] x.attrs@[j].0@),
        decreases x.attrs@.len() - i,
    {
        insert_sorted(&mut all_classes, x.attrs[i].0.clone());
        i += 1;
    }
    proof {
        assert forall|c: Seq<char>| #[trigger] elected_spec(es, ats, rels, c) implies names_view(all_classes@).contains(c) by {
            if has_attr(ats, c) {
                let j = choose|j: int| 0 <= j < ats.len() && (#[trigger] ats[j]).0 == c;
                assert(x.attrs@[j].0@ == c);
            } else if has_rel(rels, c) {
                let j = choose|j: int| 0 <= j < rels.len() && (#[trigger] rels[j]).0 == c;
                assert(x.exts@[j].0@ == c);
            } else {
                let d = choose|d: Seq<char>| reaches(es, c, d) && #[trigger] has_own(ats, rels, d);
                let path = choose|path: Seq<Seq<char>>| #[trigger] is_path(es, path) && path[0] == c && path[path.len() - 1] == d;
                assert(edge_step(es, path[0], path[0int + 1]));
                let e = choose|e: int| 0 <= e < es.len() && #[trigger] es[e] == (path[0], path[0int + 1]);
                assert(x.sub@[e].0@ == c);
            }
        }
        assert forall|c: Seq<char>| #[trigger] has_own(ats, rels, c) implies names_view(all_classes@).contains(c) by {
            assert(elected_spec(es, ats, rels, c));
        }
    }

    let mut warnings: Vec<String> = Vec::new();
    let mut ambiguous: Vec<(String, String)> = Vec::new();
    let mut elected: Vec<(String, Rolled)> = Vec::new();
    let ghost mut ix: Seq<int> = Seq::empty();
    let mut c: usize = 0;
    while c < all_classes.len()
        invariant
            c <= all_classes@.len(),
            ix.len() == elected@.len(),
            forall|e: int| 0 <= e < ix.len() ==> 0 <= #[trigger] ix[e] < c && elected@[e].0@ == all_classes@[ix[e]]@,
            forall|e1: int, e2: int| 0 <= e1 < e2 < ix.len() ==> #[trigger] ix[e1] < #[trigger] ix[e2],
            es == sub_view(x.sub@),
            ats == attr_view(x.attrs@),
            rels == rel_view(x.exts@),
            forall|c2: Seq<char>| #[trigger] has_own(ats, rels, c2) ==> names_view(all_classes@).contains(c2),
            forall|k: int| 0 <= k < c ==> (elected_spec(es, ats, rels, #[trigger] all_classes@[k]@) <==> kept_ix(ix, k)),
            forall|e: int| 0 <= e < elected@.len() ==> #[trigger] rolled_facts(es, rels, ats, elected@[e].0@, elected@[e].1),
            forall|pr: (Seq<char>, Seq<char>)| #[trigger] crate::manchester::frames::pairs_view(ambiguous@).contains(pr)
                <==> seen_class(all_classes@, c as int, pr.0) && rel_count(rels, pr.0, pr.1) > 1,
        decreases all_classes@.len() - c,
    {
        let ghost amb_b = crate::manchester::frames::pairs_view(ambiguous@);
        let ghost el0 = elected@;
        let r = rollup(&x, &all_classes, &all_classes[c], &mut warnings, &mut ambiguous);
        proof {
            assert(rolled_facts(es, rels, ats, all_classes@[c as int]@, r));
            assert forall|pr: (Seq<char>, Seq<char>)| #[trigger] crate::manchester::frames::pairs_view(ambiguous@).contains(pr)
                <==> seen_class(all_classes@, c + 1, pr.0) && rel_count(rels, pr.0, pr.1) > 1 by {
                if seen_class(all_classes@, c + 1, pr.0) {
                    let k = choose|k: int| 0 <= k < c + 1 && all_classes@[k]@ == pr.0;
                    if k < c { assert(seen_class(all_classes@, c as int, pr.0)); }
                }
                if seen_class(all_classes@, c as int, pr.0) {
                    let k = choose|k: int| 0 <= k < c && all_classes@[k]@ == pr.0;
                    assert(seen_class(all_classes@, c + 1, pr.0));
                }
                if pr.0 == all_classes@[c as int]@ {
                    assert(seen_class(all_classes@, c + 1, pr.0));
                }
            }
        }
        let ghost ix0 = ix;
        if r.attrs.len() > 0 || r.exts.len() > 0 {
            elected.push((all_classes[c].clone(), r));
            proof { ix = ix.push(c as int); }
        }
        proof {
            assert forall|e: int| 0 <= e < elected@.len() implies #[trigger] rolled_facts(es, rels, ats, elected@[e].0@, elected@[e].1) by {
                if e < el0.len() { assert(elected@[e] == el0[e]); }
            }
        }
        proof {
            assert forall|k: int| 0 <= k < c + 1 implies (elected_spec(es, ats, rels, #[trigger] all_classes@[k]@) <==> kept_ix(ix, k)) by {
                if k < c {
                    if kept_ix(ix0, k) {
                        let a = choose|a: int| 0 <= a < ix0.len() && #[trigger] ix0[a] == k;
                        assert(ix[a] == k);
                    }
                    if kept_ix(ix, k) {
                        let a = choose|a: int| 0 <= a < ix.len() && #[trigger] ix[a] == k;
                        if a == ix0.len() { assert(ix[a] == c); } else { assert(ix0[a] == k); }
                    }
                } else {
                    if kept_ix(ix, k) {
                        let a = choose|a: int| 0 <= a < ix.len() && #[trigger] ix[a] == k;
                        if a < ix0.len() { assert(ix0[a] < c); }
                    }
                    if ix.len() > ix0.len() { assert(ix[ix0.len() as int] == k); }
                }
            }
        }
        c += 1;
    }
    let ghost ac = names_view(all_classes@);
    let ghost ev = class_names(elected@);
    proof {
        assert forall|cn: Seq<char>| ev.contains(cn) <==> #[trigger] elected_spec(es, ats, rels, cn) by {
            if ev.contains(cn) {
                let e = choose|e: int| 0 <= e < ev.len() && ev[e] == cn;
                assert(ev[e] == ac[ix[e]]);
                assert(kept_ix(ix, ix[e]));
                assert(elected_spec(es, ats, rels, all_classes@[ix[e]]@));
            }
            if elected_spec(es, ats, rels, cn) {
                assert(ac.contains(cn));
                let k = choose|k: int| 0 <= k < ac.len() && ac[k] == cn;
                assert(all_classes@[k]@ == cn);
                assert(kept_ix(ix, k));
                let e = choose|e: int| 0 <= e < ix.len() && #[trigger] ix[e] == k;
                assert(ev[e] == ac[ix[e]]);
            }
        }
    }
    proof {
        assert forall|e1: int, e2: int| 0 <= e1 < e2 < ev.len() implies seq_lt(#[trigger] ev[e1], #[trigger] ev[e2]) by {
            assert(ev[e1] == ac[ix[e1]] && ev[e2] == ac[ix[e2]]);
        }
    }
    let mut elected_names: Vec<String> = Vec::new();
    let mut e: usize = 0;
    while e < elected.len()
        invariant
            e <= elected@.len(),
            ev == class_names(elected@),
            names_view(elected_names@) == ev.take(e as int),
        decreases elected@.len() - e,
    {
        let ghost before = names_view(elected_names@);
        elected_names.push(elected[e].0.clone());
        proof {
            assert(names_view(elected_names@) =~= before.push(ev[e as int]));
            assert(ev.take(e + 1) =~= ev.take(e as int).push(ev[e as int]));
        }
        e += 1;
    }
    proof { assert(ev.take(ev.len() as int) =~= ev); }
    let mut reference: Vec<String> = Vec::new();
    proof { assert(names_view(reference@) =~= Seq::<Seq<char>>::empty()); }
    let mut e: usize = 0;
    while e < elected.len()
        invariant
            e <= elected@.len(),
            ev == class_names(elected@),
            names_view(elected_names@) == ev,
            strictly_sorted(names_view(reference@)),
            forall|y: Seq<char>| #[trigger] names_view(reference@).contains(y) ==> !ev.contains(y),
            forall|e2: int, k2: int| 0 <= e2 < e && 0 <= k2 < elected@[e2].1.exts@.len()
                ==> covered(ev, names_view(reference@), #[trigger] elected@[e2].1.exts@[k2].1@),
            forall|y: Seq<char>| #[trigger] names_view(reference@).contains(y) ==> rolled_target(elected@, y),
        decreases elected@.len() - e,
    {
        let exts = &elected[e].1.exts;
        let mut k: usize = 0;
        while k < exts.len()
            invariant
                e < elected@.len(),
                exts == elected@[e as int].1.exts,
                k <= exts@.len(),
                ev == class_names(elected@),
                names_view(elected_names@) == ev,
                strictly_sorted(names_view(reference@)),
                forall|y: Seq<char>| #[trigger] names_view(reference@).contains(y) ==> !ev.contains(y),
                forall|e2: int, k2: int| 0 <= e2 < e && 0 <= k2 < elected@[e2].1.exts@.len()
                    ==> covered(ev, names_view(reference@), #[trigger] elected@[e2].1.exts@[k2].1@),
                forall|k2: int| 0 <= k2 < k ==> covered(ev, names_view(reference@), #[trigger] exts@[k2].1@),
                forall|y: Seq<char>| #[trigger] names_view(reference@).contains(y) ==> rolled_target(elected@, y),
            decreases exts@.len() - k,
        {
            if !crate::manchester::lower::has(&elected_names, exts[k].1.as_str()) {
                proof { assert(elected@[e as int].1.exts@[k as int].1@ == exts@[k as int].1@); }
                insert_sorted(&mut reference, exts[k].1.clone());
            }
            k += 1;
        }
        e += 1;
    }

    let mut k: usize = 0;
    while k < x.composite_keys.len()
        invariant
            k <= x.composite_keys@.len(),
        decreases x.composite_keys@.len() - k,
    {
        let m = cat(cat(cat(String::from_str("composite @Key on <"), x.composite_keys[k].0.as_str()), "> ("), fmt_u64(x.composite_keys[k].1 as u64).as_str());
        warnings.push(cat(m, " props) — surrogate PK retained (composite natural keys are a later stratum)"));
        k += 1;
    }
    let mut names: Vec<(String, String)> = Vec::new();
    let mut used: Vec<String> = Vec::new();
    let mut all_tables: Vec<String> = copy_names(&elected_names);
    let mut refs = copy_names(&reference);
    let ghost rv = names_view(reference@);
    let ghost ne = ev.len();
    all_tables.append(&mut refs);
    let ghost at = names_view(all_tables@);
    proof {
        assert(at =~= ev + rv);
        lemma_distinct_parts(ev, rv);
    }
    let mut t: usize = 0;
    while t < all_tables.len()
        invariant
            t <= all_tables@.len(),
            at == names_view(all_tables@),
            names@.len() == t,
            used@.len() == t,
            forall|q: int| 0 <= q < t ==> (#[trigger] names@[q]).0@ == at[q],
            names_view(used@) == seconds(names@),
            at.len() < u64::MAX - 1 ==> seconds(names@).no_duplicates(),
        decreases all_tables@.len() - t,
    {
        let class = &all_tables[t];
        let base = snake(local_of(class.as_str()).as_str());
        let ghost u0 = names_view(used@);
        let ghost s0 = seconds(names@);
        let name = fresh_name(&mut used, &base);
        if !eq_str(name.as_str(), base.as_str()) {
            warnings.push(cat(cat(cat(String::from_str("table name collision: "), class.as_str()), " -> "), name.as_str()));
        }
        let ghost nv = name@;
        names.push((class.clone(), name));
        proof {
            assert(seconds(names@) =~= s0.push(nv));
            assert(names@[t as int].0@ == at[t as int]);
            if at.len() < u64::MAX - 1 {
                assert forall|a: int, b: int| 0 <= a < b < seconds(names@).len() implies seconds(names@)[a] != seconds(names@)[b] by {
                    if b == t {
                        assert(u0.contains(s0[a]));
                    }
                }
            }
        }
        t += 1;
    }

    let mut tables: Vec<Table> = Vec::new();
    let mut junctions: Vec<Junction> = Vec::new();
    let mut lookups: Vec<Lookup> = Vec::new();
    proof { assert(lookup_props(lookups@) =~= Seq::<Seq<char>>::empty()); }
    let ghost amb_f = crate::manchester::frames::pairs_view(ambiguous@);
    let ghost cdv = cards_view(x.cards@);
    proof {
        assert forall|e2: int, kk: int| 0 <= e2 < elected@.len() && 0 <= kk < elected@[e2].1.exts@.len()
            implies (#[trigger] elected@[e2].1.exts@[kk]).2@.len() >= 1 by {
            assert(rolled_facts(es, rels, ats, elected@[e2].0@, elected@[e2].1));
        }
    }
    let mut e: usize = 0;
    while e < elected.len()
        invariant
            amb_f == crate::manchester::frames::pairs_view(ambiguous@),
            cdv == cards_view(x.cards@),
            forall|i: int| 0 <= i < tables@.len() ==> label_view(#[trigger] tables@[i]) == kv_lookup(kv_view(x.labels@), tables@[i].class@),
            forall|i: int, k: int| 0 <= i < tables@.len() && 0 <= k < elected@[i].1.exts@.len() ==> #[trigger] rel_placed(tables@[i].class@, tables@[i].columns@, tables@[i].fks@, junctions@,
                rolled_view(elected@[i].1.exts@)[k], bounds_of(cdv, amb_f, rolled_view(elected@[i].1.exts@)[k].2, rolled_view(elected@[i].1.exts@)[k].0)),
            e <= elected@.len(),
            ev == class_names(elected@),
            at == ev + rv,
            ne == ev.len(),
            tables@.len() == e,
            forall|i: int| 0 <= i < tables@.len() ==> (#[trigger] tables@[i]).columns@.len() >= 1,
            forall|i: int| 0 <= i < tables@.len() ==> table_cols_ok(#[trigger] tables@[i]),
            forall|i: int| 0 <= i < tables@.len() ==> (#[trigger] tables@[i]).class@ == at[i]
                && tables@[i].name@ == name_of_spec(names@, at[i]),
            forall|i: int| 0 <= i < tables@.len() ==> (#[trigger] tables@[i]).fks@.len() == 0
                || forall|q: int| 0 <= q < tables@[i].fks@.len()
                    ==> fk_ok(#[trigger] tables@[i].fks@[q], names@, ext_targets(elected@[i].1.exts@), lookups@),
            luts_named(lookups@),
            forall|j: int| 0 <= j < junctions@.len() ==> jn_elected(#[trigger] junctions@[j], names@, elected@, e as int),
            forall|j: int| 0 <= j < lookups@.len() ==> enum_props(x.enums@).contains((#[trigger] lookups@[j]).prop@),
            strictly_sorted(lookup_props(lookups@)),
            forall|i: int, k: int| 0 <= i < tables@.len() && 0 <= k < elected@[i].1.attrs@.len() ==> #[trigger] attr_placed(tables@[i].columns@, tables@[i].fks@, lookups@,
                enum_props(x.enums@).contains(rattr_view(elected@[i].1.attrs@)[k].0), rattr_view(elected@[i].1.attrs@)[k]),
            forall|j: int| 0 <= j < lookups@.len() ==> #[trigger] lut_used(tables@, tables@.len() as int, lookups@[j]),
            forall|e2: int, kk: int| 0 <= e2 < elected@.len() && 0 <= kk < elected@[e2].1.exts@.len() ==> (#[trigger] elected@[e2].1.exts@[kk]).2@.len() >= 1,
        decreases elected@.len() - e,
    {
        let ghost lk0 = lookups@;
        let ghost jn0 = junctions@;
        let ghost tb0 = tables@;
        let tbl = emit_table(&x, &names, &ambiguous, &elected[e].0, &elected[e].1, &mut junctions, &mut lookups, &mut warnings);
        tables.push(tbl);
        proof {
            assert(ev[e as int] == elected@[e as int].0@);
            assert forall|i: int, k: int| 0 <= i < tables@.len() && 0 <= k < elected@[i].1.exts@.len() implies #[trigger] rel_placed(tables@[i].class@, tables@[i].columns@, tables@[i].fks@, junctions@,
                rolled_view(elected@[i].1.exts@)[k], bounds_of(cdv, amb_f, rolled_view(elected@[i].1.exts@)[k].2, rolled_view(elected@[i].1.exts@)[k].0)) by {
                let ee = rolled_view(elected@[i].1.exts@)[k];
                let bb = bounds_of(cdv, amb_f, ee.2, ee.0);
                if i < e {
                    assert(tables@[i] == tb0[i]);
                    assert(rel_placed(tb0[i].class@, tb0[i].columns@, tb0[i].fks@, jn0, ee, bb));
                    lemma_placed_grow(tb0[i].class@, tb0[i].columns@, tb0[i].columns@, tb0[i].fks@, tb0[i].fks@, jn0, junctions@, ee, bb);
                } else {
                    assert(tables@[i] == tbl);
                    assert(tbl.class@ == elected@[e as int].0@);
                }
            }
            assert forall|i: int| 0 <= i < tables@.len() implies label_view(#[trigger] tables@[i]) == kv_lookup(kv_view(x.labels@), tables@[i].class@) by {
                if i < e { assert(tables@[i] == tb0[i]); }
            }
            assert forall|j: int| 0 <= j < lookups@.len() implies #[trigger] lut_used(tables@, tables@.len() as int, lookups@[j]) by {
                let lj = lookups@[j];
                if lut_keyed(tbl.fks@, lj) {
                    assert(tables@[e as int] == tbl);
                    assert(lut_keyed(tables@[e as int].fks@, lj));
                } else {
                    assert(has_lookup(lk0, lj.prop@, lj.name@));
                    let i2 = choose|i2: int| 0 <= i2 < lk0.len() && (#[trigger] lk0[i2]).prop@ == lj.prop@ && lk0[i2].name@ == lj.name@;
                    assert(lut_used(tb0, e as int, lk0[i2]));
                    let i = choose|i: int| 0 <= i < e && #[trigger] lut_keyed(tb0[i].fks@, lk0[i2]);
                    let q = choose|q: int| 0 <= q < tb0[i].fks@.len() && (#[trigger] tb0[i].fks@[q]).target_class@ == lk0[i2].prop@ && tb0[i].fks@[q].target_table@ == lk0[i2].name@;
                    assert(tables@[i] == tb0[i]);
                    assert(tables@[i].fks@[q].target_class@ == lj.prop@);
                    assert(lut_keyed(tables@[i].fks@, lj));
                }
            }
            assert forall|i: int, k: int| 0 <= i < tables@.len() && 0 <= k < elected@[i].1.attrs@.len() implies #[trigger] attr_placed(tables@[i].columns@, tables@[i].fks@, lookups@,
                enum_props(x.enums@).contains(rattr_view(elected@[i].1.attrs@)[k].0), rattr_view(elected@[i].1.attrs@)[k]) by {
                let aa = rattr_view(elected@[i].1.attrs@)[k];
                let cl = enum_props(x.enums@).contains(aa.0);
                if i < e {
                    assert(tables@[i] == tb0[i]);
                    assert(attr_placed(tb0[i].columns@, tb0[i].fks@, lk0, cl, aa));
                    lemma_attr_grow(tb0[i].columns@, tb0[i].columns@, tb0[i].fks@, tb0[i].fks@, lk0, lookups@, cl, aa);
                } else {
                    assert(tables@[i] == tbl);
                }
            }
            assert forall|i: int| 0 <= i < tables@.len() implies (#[trigger] tables@[i]).fks@.len() == 0
                || forall|q: int| 0 <= q < tables@[i].fks@.len()
                    ==> fk_ok(#[trigger] tables@[i].fks@[q], names@, ext_targets(elected@[i].1.exts@), lookups@) by {
                if i < e {
                    assert(tables@[i] == tb0[i]);
                }
            }
            assert forall|j: int| 0 <= j < junctions@.len() implies jn_elected(#[trigger] junctions@[j], names@, elected@, e + 1) by {
                if j < jn0.len() {
                    assert(junctions@[j] == jn0[j]);
                    assert(jn_elected(jn0[j], names@, elected@, e as int));
                } else {
                    assert(jn_ok(junctions@[j], names@, elected@[e as int].0@, ext_targets(elected@[e as int].1.exts@)));
                }
            }
            assert forall|i: int| 0 <= i < tables@.len() implies (#[trigger] tables@[i]).class@ == at[i]
                && tables@[i].name@ == name_of_spec(names@, at[i]) by {
                if i < e {
                    assert(tables@[i] == tb0[i]);
                }
            }
            assert forall|i: int| 0 <= i < tables@.len() implies table_cols_ok(#[trigger] tables@[i]) by {
                if i < e {
                    assert(tables@[i] == tb0[i]);
                }
            }
        }
        e += 1;
    }
    let n_elected_tables = tables.len();
    let mut rr: usize = 0;
    while rr < reference.len()
        invariant
            rr <= reference@.len(),
            rv == names_view(reference@),
            at == ev + rv,
            ne == ev.len(),
            n_elected_tables == ne,
            ne == elected@.len(),
            tables@.len() == n_elected_tables + rr,
            forall|i: int| 0 <= i < tables@.len() ==> label_view(#[trigger] tables@[i]) == kv_lookup(kv_view(x.labels@), tables@[i].class@),
            forall|i: int, k: int| 0 <= i < ne && 0 <= k < elected@[i].1.exts@.len() ==> #[trigger] rel_placed(tables@[i].class@, tables@[i].columns@, tables@[i].fks@, junctions@,
                rolled_view(elected@[i].1.exts@)[k], bounds_of(cdv, amb_f, rolled_view(elected@[i].1.exts@)[k].2, rolled_view(elected@[i].1.exts@)[k].0)),
            forall|i: int| 0 <= i < tables@.len() ==> (#[trigger] tables@[i]).columns@.len() >= 1,
            forall|i: int| 0 <= i < tables@.len() ==> table_cols_ok(#[trigger] tables@[i]),
            forall|i: int| n_elected_tables <= i < tables@.len() ==> bare_table(#[trigger] tables@[i]),
            forall|i: int| 0 <= i < tables@.len() ==> (#[trigger] tables@[i]).class@ == at[i]
                && tables@[i].name@ == name_of_spec(names@, at[i]),
            forall|i: int| 0 <= i < tables@.len() ==> (#[trigger] tables@[i]).fks@.len() == 0
                || (i < ne && forall|q: int| 0 <= q < tables@[i].fks@.len()
                    ==> fk_ok(#[trigger] tables@[i].fks@[q], names@, ext_targets(elected@[i].1.exts@), lookups@)),
            forall|j: int| 0 <= j < junctions@.len() ==> jn_elected(#[trigger] junctions@[j], names@, elected@, ne as int),
            luts_named(lookups@),
            forall|j: int| 0 <= j < lookups@.len() ==> enum_props(x.enums@).contains((#[trigger] lookups@[j]).prop@),
            strictly_sorted(lookup_props(lookups@)),
            forall|i: int, k: int| 0 <= i < ne && 0 <= k < elected@[i].1.attrs@.len() ==> #[trigger] attr_placed(tables@[i].columns@, tables@[i].fks@, lookups@,
                enum_props(x.enums@).contains(rattr_view(elected@[i].1.attrs@)[k].0), rattr_view(elected@[i].1.attrs@)[k]),
            forall|j: int| 0 <= j < lookups@.len() ==> #[trigger] lut_used(tables@, ne as int, lookups@[j]),
        decreases reference@.len() - rr,
    {
        let class = &reference[rr];
        let label = match get3(&x.labels, class.as_str()) {
            Some((l, _)) => Some(l),
            None => None,
        };
        let mut columns: Vec<Column> = Vec::new();
        columns.push(id_column());
        let ghost tb0 = tables@;
        tables.push(Table {
            class: class.clone(),
            name: name_of(&names, class.as_str()),
            label,
            comment: Some(cat(String::from_str("reference: one row per "), display(&x, class.as_str()).as_str())),
            columns,
            fks: Vec::new(),
            cites: Vec::new(),
        });
        proof {
            reveal_strlit("id");
            let tn = tables@[tb0.len() as int];
            assert(col_names(tn.columns@) =~= seq!["id"@]);
            assert(tn.columns@[0].pk);
            assert(bare_table(tn));
            assert(table_cols_ok(tn));
            assert forall|i: int| 0 <= i < tables@.len() implies table_cols_ok(#[trigger] tables@[i]) by {
                if i < tb0.len() { assert(tables@[i] == tb0[i]); }
            }
            assert forall|i: int| n_elected_tables <= i < tables@.len() implies bare_table(#[trigger] tables@[i]) by {
                if i < tb0.len() { assert(tables@[i] == tb0[i]); }
            }
            assert forall|i: int| 0 <= i < tables@.len() implies label_view(#[trigger] tables@[i]) == kv_lookup(kv_view(x.labels@), tables@[i].class@) by {
                if i < tb0.len() { assert(tables@[i] == tb0[i]); }
            }
            assert forall|i: int, k: int| 0 <= i < ne && 0 <= k < elected@[i].1.exts@.len() implies #[trigger] rel_placed(tables@[i].class@, tables@[i].columns@, tables@[i].fks@, junctions@,
                rolled_view(elected@[i].1.exts@)[k], bounds_of(cdv, amb_f, rolled_view(elected@[i].1.exts@)[k].2, rolled_view(elected@[i].1.exts@)[k].0)) by {
                assert(tables@[i] == tb0[i]);
            }
            assert forall|i: int, k: int| 0 <= i < ne && 0 <= k < elected@[i].1.attrs@.len() implies #[trigger] attr_placed(tables@[i].columns@, tables@[i].fks@, lookups@,
                enum_props(x.enums@).contains(rattr_view(elected@[i].1.attrs@)[k].0), rattr_view(elected@[i].1.attrs@)[k]) by {
                assert(tables@[i] == tb0[i]);
            }
            assert forall|j: int| 0 <= j < lookups@.len() implies #[trigger] lut_used(tables@, ne as int, lookups@[j]) by {
                assert(lut_used(tb0, ne as int, lookups@[j]));
                let i = choose|i: int| 0 <= i < ne && #[trigger] lut_keyed(tb0[i].fks@, lookups@[j]);
                assert(tables@[i] == tb0[i]);
            }
            assert(at[ne + rr] == rv[rr as int]);
            assert forall|i: int| 0 <= i < tables@.len() implies (#[trigger] tables@[i]).class@ == at[i]
                && tables@[i].name@ == name_of_spec(names@, at[i]) by {
                if i < tb0.len() {
                    assert(tables@[i] == tb0[i]);
                }
            }
            assert forall|i: int| 0 <= i < tables@.len() implies (#[trigger] tables@[i]).fks@.len() == 0
                || (i < ne && forall|q: int| 0 <= q < tables@[i].fks@.len()
                    ==> fk_ok(#[trigger] tables@[i].fks@[q], names@, ext_targets(elected@[i].1.exts@), lookups@)) by {
                if i < tb0.len() {
                    assert(tables@[i] == tb0[i]);
                }
            }
        }
        rr += 1;
    }
    proof {
        lemma_plan_refs(tables@, names@, at, elected@, ev, rv, lookups@, junctions@);
    }

    let mut stats = Tally::new();
    bump_by(&mut stats, "tables_elected", elected.len());
    bump_by(&mut stats, "reference_tables", reference.len());
    bump_by(&mut stats, "junction_tables", junctions.len());
    bump_by(&mut stats, "lookup_tables", lookups.len());
    let mut natural: usize = 0;
    let mut surrogate: usize = 0;
    let mut uniques: usize = 0;
    let mut nullable_fks: usize = 0;
    let mut t: usize = 0;
    while t < tables.len()
        invariant
            t <= tables@.len(),
            natural <= t,
            surrogate <= t,
        decreases tables@.len() - t,
    {
        let cols = &tables[t].columns;
        let mut has_natural = false;
        let mut sur = false;
        let mut k: usize = 0;
        while k < cols.len()
            invariant
                k <= cols@.len(),
            decreases cols@.len() - k,
        {
            let col = &cols[k];
            if col.pk && !eq_str(col.name.as_str(), "id") {
                has_natural = true;
            }
            if col.pk && eq_str(col.name.as_str(), "id") {
                sur = true;
            }
            if col.unique && uniques < usize::MAX {
                uniques += 1;
            }
            if col.nullable && col.prop.is_some() && nullable_fks < usize::MAX {
                nullable_fks += 1;
            }
            k += 1;
        }
        if has_natural {
            natural += 1;
        }
        if sur {
            surrogate += 1;
        }
        t += 1;
    }
    bump_by(&mut stats, "pk_natural", natural);
    bump_by(&mut stats, "pk_surrogate", surrogate);
    bump_by(&mut stats, "unique_columns", uniques);
    bump_by(&mut stats, "nullable_fk_columns", nullable_fks);
    bump_by(&mut stats, "composite_key_deferred", x.composite_keys.len());
    proof {
        assert(tables@.len() - reference@.len() == ne);
        assert forall|i: int| 0 <= i < ne implies #[trigger] tables@[i].class@ == ev[i] by {
            assert(at[i] == ev[i]);
        }
        assert forall|cn: Seq<char>| #[trigger] elected_spec(es, ats, rels, cn) <==> elected_table(tables@, ne as int, cn) by {
            if elected_spec(es, ats, rels, cn) {
                assert(ev.contains(cn));
                let e = choose|e: int| 0 <= e < ev.len() && ev[e] == cn;
                assert(tables@[e].class@ == cn);
            }
            if elected_table(tables@, ne as int, cn) {
                let i = choose|i: int| 0 <= i < ne && #[trigger] tables@[i].class@ == cn;
                assert(ev[i] == cn);
                assert(ev.contains(cn));
            }
        }
        assert forall|i: int, j: int| 0 <= i < j < ne implies seq_lt(#[trigger] tables@[i].class@, #[trigger] tables@[j].class@) by {
            assert(tables@[i].class@ == ev[i] && tables@[j].class@ == ev[j]);
        }
        let anns_v = crate::fragment::annotations_view(annotations@);
        assert(es == sub_edges(crate::fragment::axioms_view(axioms@)));
        assert(rels == ax_rels(crate::fragment::axioms_view(axioms@)) + ann_rels(anns_v));
        assert(ats == ann_attrs(anns_v));
        assert forall|i: int| #![trigger tables@[i]] 0 <= i < tables@.len() - reference@.len() implies exists|rs: Seq<(Seq<char>, Seq<char>, Seq<char>, bool)>|
            #[trigger] relations_placed(sub_edges(crate::fragment::axioms_view(axioms@)),
                ax_rels(crate::fragment::axioms_view(axioms@)) + ann_rels(anns_v), ann_attrs(anns_v), anns_v, tables@[i], junctions@, rs) by {
            let rs = rolled_view(elected@[i].1.exts@);
            let cl = elected@[i].0@;
            assert(tables@[i].class@ == ev[i]);
            assert(ev[i] == cl);
            assert(rolled_facts(es, rels, ats, cl, elected@[i].1));
            assert forall|k: int| 0 <= k < rs.len() implies #[trigger] rel_ok(es, rels, tables@[i].class@, rs[k])
                && rel_placed(tables@[i].class@, tables@[i].columns@, tables@[i].fks@, junctions@, rs[k], bounds_spec(anns_v, rels, rs[k].2, rs[k].0)) by {
                assert(rel_ok(es, rels, cl, rs[k]));
                assert(rel_placed(tables@[i].class@, tables@[i].columns@, tables@[i].fks@, junctions@, rs[k], bounds_of(cdv, amb_f, rs[k].2, rs[k].0)));
                let h = rs[k].2;
                let pp = rs[k].0;
                let w = choose|w: int| 0 <= w < rels.len() && #[trigger] rels[w] == (h, pp, rs[k].1, rs[k].3);
                assert(rels[w].0 == h);
                assert(has_rel(rels, h));
                assert(has_own(ats, rels, h));
                assert(names_view(all_classes@).contains(h));
                let kk = choose|kk: int| 0 <= kk < names_view(all_classes@).len() && names_view(all_classes@)[kk] == h;
                assert(all_classes@[kk]@ == h);
                assert(seen_class(all_classes@, all_classes@.len() as int, h));
                assert(amb_f.contains((h, pp)) <==> rel_count(rels, h, pp) > 1);
                assert(card_lookup(cdv, h, pp) == last_card(anns_v, h, pp));
                assert(bounds_of(cdv, amb_f, h, pp) == bounds_spec(anns_v, rels, h, pp));
            }
            assert(relations_placed(es, rels, ats, anns_v, tables@[i], junctions@, rs));
            assert(relations_placed(sub_edges(crate::fragment::axioms_view(axioms@)),
                ax_rels(crate::fragment::axioms_view(axioms@)) + ann_rels(anns_v), ann_attrs(anns_v), anns_v, tables@[i], junctions@, rs));
        }
        assert forall|i: int| #![trigger tables@[i]] 0 <= i < tables@.len() - reference@.len() implies exists|as_: Seq<(Seq<char>, Seq<char>)>|
            #[trigger] attributes_placed(sub_edges(crate::fragment::axioms_view(axioms@)), ann_attrs(anns_v), anns_v, tables@[i], lookups@, as_) by {
            let as_ = rattr_view(elected@[i].1.attrs@);
            let cl = elected@[i].0@;
            assert(tables@[i].class@ == ev[i]);
            assert(ev[i] == cl);
            assert(rolled_facts(es, rels, ats, cl, elected@[i].1));
            assert forall|k: int| 0 <= k < as_.len() implies #[trigger] attr_ok(es, ats, tables@[i].class@, as_[k])
                && attr_placed(tables@[i].columns@, tables@[i].fks@, lookups@, ann_enumerated(anns_v, as_[k].0), as_[k]) by {
                assert(attr_ok(es, ats, cl, as_[k]));
                assert(enum_props(x.enums@).contains(as_[k].0) == ann_enumerated(anns_v, as_[k].0));
                assert(attr_placed(tables@[i].columns@, tables@[i].fks@, lookups@, enum_props(x.enums@).contains(as_[k].0), as_[k]));
            }
            assert(attributes_placed(es, ats, anns_v, tables@[i], lookups@, as_));
        }
    }
    proof {
        assert forall|i: int| tables@.len() - reference@.len() <= i < tables@.len()
            implies #[trigger] ref_target(tables@, ne as int, junctions@, tables@[i].class@) by {
            let y = tables@[i].class@;
            assert(y == at[i]);
            assert(at[i] == rv[i - ne]);
            assert(rv.contains(y));
            assert(rolled_target(elected@, y));
            let (e2, k2) = choose|e2: int, k2: int| 0 <= e2 < elected@.len() && 0 <= k2 < elected@[e2].1.exts@.len() && (#[trigger] elected@[e2].1.exts@[k2]).1@ == y;
            let ee = rolled_view(elected@[e2].1.exts@)[k2];
            assert(ee.1 == y);
            let bb = bounds_of(cdv, amb_f, ee.2, ee.0);
            assert(rel_placed(tables@[e2].class@, tables@[e2].columns@, tables@[e2].fks@, junctions@, ee, bb));
            if many_bounds(bb) {
                let j = choose|j: int| 0 <= j < junctions@.len() && #[trigger] junctions@[j].subject_class@ == tables@[e2].class@ && junctions@[j].prop@ == ee.0 && junctions@[j].target_class@ == ee.1;
                assert(junctions@[j].target_class@ == y);
            } else {
                let q = choose|q: int| 0 <= q < tables@[e2].fks@.len() && #[trigger] tables@[e2].fks@[q].target_class@ == ee.1 && col_for(tables@[e2].columns@, tables@[e2].fks@[q].column@, ee.0, !ee.3);
                assert(tables@[e2].fks@[q].target_class@ == y);
            }
        }
        assert forall|i: int, j: int| tables@.len() - reference@.len() <= i < j < tables@.len()
            implies seq_lt(#[trigger] tables@[i].class@, #[trigger] tables@[j].class@) by {
            assert(tables@[i].class@ == at[i] && at[i] == rv[i - ne]);
            assert(tables@[j].class@ == at[j] && at[j] == rv[j - ne]);
        }
    }
    let ghost tb = tables@;
    let ghost jn = junctions@;
    let ghost nref = reference@.len();
    let ghost lk = lookups@;
    let res = Plan {
        stats,
        tables,
        junctions,
        lookups,
        warnings,
        n_reference_tables: reference.len(),
        sql_valid: false,
    };
    proof {
        assert(res.tables@ == tb && res.junctions@ == jn && res.n_reference_tables == nref && res.lookups@ == lk);
        assert forall|j: int| 0 <= j < res.lookups@.len() implies #[trigger] lut_used(res.tables@, res.tables@.len() - res.n_reference_tables, res.lookups@[j]) by {
            assert(lut_used(tb, (tb.len() - nref) as int, lk[j]));
        }
        assert forall|j: int| 0 <= j < res.lookups@.len() implies ann_enumerated(crate::fragment::annotations_view(annotations@), (#[trigger] res.lookups@[j]).prop@) by {
            assert(enum_props(x.enums@).contains(lk[j].prop@));
        }
        let axv = crate::fragment::axioms_view(axioms@);
        let anv = crate::fragment::annotations_view(annotations@);
        assert(elected_placed(axv, anv, res)) by {
            assert forall|i: int| #![trigger res.tables@[i]] 0 <= i < res.tables@.len() - res.n_reference_tables implies exists|rs: Seq<(Seq<char>, Seq<char>, Seq<char>, bool)>|
                #[trigger] relations_placed(sub_edges(axv), ax_rels(axv) + ann_rels(anv), ann_attrs(anv), anv, res.tables@[i], res.junctions@, rs) by {
                assert(tb[i] == res.tables@[i]);
                assert(0 <= i < tb.len() - nref);
                assert(exists|rs: Seq<(Seq<char>, Seq<char>, Seq<char>, bool)>|
                    #[trigger] relations_placed(sub_edges(axv), ax_rels(axv) + ann_rels(anv), ann_attrs(anv), anv, tb[i], jn, rs));
                let rs = choose|rs: Seq<(Seq<char>, Seq<char>, Seq<char>, bool)>|
                    #[trigger] relations_placed(sub_edges(axv), ax_rels(axv) + ann_rels(anv), ann_attrs(anv), anv, tb[i], jn, rs);
                assert(relations_placed(sub_edges(axv), ax_rels(axv) + ann_rels(anv), ann_attrs(anv), anv, res.tables@[i], res.junctions@, rs));
            }
            assert forall|i: int| 0 <= i < res.tables@.len() - res.n_reference_tables implies #[trigger] table_placed(axv, anv, res.tables@[i], res.junctions@) by {
                assert(res.tables@[i] == res.tables@[i]);
            }
        }
        assert(elected_attrs_placed(axv, anv, res)) by {
            assert forall|i: int| 0 <= i < res.tables@.len() - res.n_reference_tables implies #[trigger] table_attrs_placed(axv, anv, res.tables@[i], res.lookups@) by {
                assert(tb[i] == res.tables@[i]);
                assert(0 <= i < tb.len() - nref);
                assert(exists|as_: Seq<(Seq<char>, Seq<char>)>| #[trigger] attributes_placed(sub_edges(axv), ann_attrs(anv), anv, tb[i], lk, as_));
            }
        }
    }
    res
}

/// The name of the lookup table of property `p`.
pub open spec fn lut_name(p: Seq<char>) -> Seq<char> {
    prop_col_spec(p) + "_lut"@
}

/// Every lookup table is named after its property.
pub open spec fn luts_named(ls: Seq<Lookup>) -> bool {
    forall|i: int| 0 <= i < ls.len() ==> (#[trigger] ls[i]).name@ == lut_name(ls[i].prop@)
}

/// A lookup table of property `p` named `n` is among `ls`.
pub open spec fn has_lookup(ls: Seq<Lookup>, p: Seq<char>, n: Seq<char>) -> bool {
    exists|i: int| 0 <= i < ls.len() && (#[trigger] ls[i]).prop@ == p && ls[i].name@ == n
}

/// Lookup table `l` is the target of one of the keys `fks`.
pub open spec fn lut_keyed(fks: Seq<Fk>, l: Lookup) -> bool {
    exists|q: int| 0 <= q < fks.len() && (#[trigger] fks[q]).target_class@ == l.prop@ && fks[q].target_table@ == l.name@
}

/// Lookup table `l` is the target of a key of one of the first `n` tables.
pub open spec fn lut_used(tables: Seq<Table>, n: int, l: Lookup) -> bool {
    exists|i: int| 0 <= i < n && #[trigger] lut_keyed(tables[i].fks@, l)
}

/// The properties of the lookup tables, in order.
pub open spec fn lookup_props(ls: Seq<Lookup>) -> Seq<Seq<char>> {
    ls.map_values(|l: Lookup| l.prop@)
}

/// Insert a lookup table at its place in property order, unless the property has one.
fn add_lookup(v: &mut Vec<Lookup>, l: Lookup)
    requires
        luts_named(old(v)@),
        l.name@ == lut_name(l.prop@),
        strictly_sorted(lookup_props(old(v)@)),
    ensures
        luts_named(final(v)@),
        strictly_sorted(lookup_props(final(v)@)),
        has_lookup(final(v)@, l.prop@, l.name@),
        forall|p: Seq<char>, n: Seq<char>| has_lookup(old(v)@, p, n) ==> #[trigger] has_lookup(final(v)@, p, n),
        forall|j: int| 0 <= j < final(v)@.len() ==> ((#[trigger] final(v)@[j]).prop@ == l.prop@ && final(v)@[j].name@ == l.name@)
            || has_lookup(old(v)@, final(v)@[j].prop@, final(v)@[j].name@),
{
    let ghost o = v@;
    let ghost vv = lookup_props(v@);
    let ghost lp = l.prop@;
    let ghost ln = l.name@;
    let mut i: usize = 0;
    while i < v.len()
        invariant
            i <= v@.len(),
            v@ == o,
            vv == lookup_props(o),
            strictly_sorted(vv),
            luts_named(o),
            lp == l.prop@,
            ln == l.name@,
            ln == lut_name(lp),
            forall|k: int| 0 <= k < i ==> seq_lt(#[trigger] vv[k], lp),
        ensures
            i <= v@.len(),
            v@ == o,
            forall|k: int| 0 <= k < i ==> seq_lt(#[trigger] vv[k], lp),
            i == v@.len() || seq_lt(lp, vv[i as int]),
        decreases v@.len() - i,
    {
        match compare_str(v[i].prop.as_str(), l.prop.as_str()) {
            Cmp3::Less => {
                assert(vv[i as int] == o[i as int].prop@);
            },
            Cmp3::Equal => {
                assert(o[i as int].prop@ == lp && o[i as int].name@ == ln);
                assert(has_lookup(o, lp, ln));
                assert forall|j: int| 0 <= j < v@.len() implies ((#[trigger] v@[j]).prop@ == lp && v@[j].name@ == ln)
                    || has_lookup(o, v@[j].prop@, v@[j].name@) by {
                    assert(v@[j] == o[j]);
                }
                return;
            },
            Cmp3::Greater => {
                assert(vv[i as int] == o[i as int].prop@);
                break;
            },
        }
        i += 1;
    }
    let ghost lv = l;
    v.insert(i, l);
    proof {
        assert(v@ == o.insert(i as int, lv));
        assert(v@[i as int] == lv);
        let nv = lookup_props(v@);
        assert(nv =~= vv.insert(i as int, lp));
        assert forall|a: int, b: int| 0 <= a < b < nv.len() implies seq_lt(#[trigger] nv[a], #[trigger] nv[b]) by {
            if b < i {
            } else if b == i {
            } else if a < i {
                assert(nv[b] == vv[b - 1]);
                if b - 1 > i {
                    lemma_seq_lt_trans(lp, vv[i as int], vv[b - 1]);
                }
                lemma_seq_lt_trans(vv[a], lp, vv[b - 1]);
            } else if a == i {
                assert(nv[b] == vv[b - 1]);
                if b - 1 > i {
                    lemma_seq_lt_trans(lp, vv[i as int], vv[b - 1]);
                }
            } else {
                assert(nv[a] == vv[a - 1]);
                assert(nv[b] == vv[b - 1]);
            }
        }
        assert forall|j: int| 0 <= j < v@.len() implies ((#[trigger] v@[j]).prop@ == lp && v@[j].name@ == ln)
            || has_lookup(o, v@[j].prop@, v@[j].name@) by {
            if j < i {
                assert(v@[j] == o[j]);
            } else if j > i {
                assert(v@[j] == o[j - 1]);
            }
        }
        assert forall|p: Seq<char>, n: Seq<char>| has_lookup(o, p, n) implies #[trigger] has_lookup(v@, p, n) by {
            let j = choose|j: int| 0 <= j < o.len() && (#[trigger] o[j]).prop@ == p && o[j].name@ == n;
            if j < i {
                assert(v@[j] == o[j]);
            } else {
                assert(v@[j + 1] == o[j]);
            }
        }
        assert forall|j: int| 0 <= j < v@.len() implies (#[trigger] v@[j]).name@ == lut_name(v@[j].prop@) by {
            if j < i {
                assert(v@[j] == o[j]);
            } else if j > i {
                assert(v@[j] == o[j - 1]);
            }
        }
    }
}

/// The relation targets of a rolled-up class.
pub open spec fn ext_targets(exts: Seq<(String, String, Vec<usize>, String, bool)>) -> Seq<Seq<char>> {
    exts.map_values(|e: (String, String, Vec<usize>, String, bool)| e.1@)
}

/// A foreign key points at the table named for one of the relation targets `tg`, or at a
/// lookup table among `ls`.
pub open spec fn fk_ok(fk: Fk, names: Seq<(String, String)>, tg: Seq<Seq<char>>, ls: Seq<Lookup>) -> bool {
    (tg.contains(fk.target_class@) && fk.target_table@ == name_of_spec(names, fk.target_class@))
        || has_lookup(ls, fk.target_class@, fk.target_table@)
}

/// A junction joins the table named for `class` to the table named for one of the
/// relation targets `tg`.
pub open spec fn jn_ok(j: Junction, names: Seq<(String, String)>, class: Seq<char>, tg: Seq<Seq<char>>) -> bool {
    &&& j.subject_class@ == class
    &&& j.subject_table@ == name_of_spec(names, class)
    &&& tg.contains(j.target_class@)
    &&& j.target_table@ == name_of_spec(names, j.target_class@)
}

/// The property of a column, viewed.
pub open spec fn prop_view(c: Column) -> Option<Seq<char>> {
    match c.prop { Some(x) => Some(x@), None => None }
}

/// A column named `name` realizes `p`, and is the key or has the nullability `nullable`.
pub open spec fn col_for(cols: Seq<Column>, name: Seq<char>, p: Seq<char>, nullable: bool) -> bool {
    exists|k: int| 0 <= k < cols.len() && #[trigger] cols[k].name@ == name && prop_view(cols[k]) == Some(p)
        && (cols[k].pk || cols[k].nullable == nullable)
}

/// A property column of the input survives in `r`.
pub open spec fn col_kept(r: Seq<Column>, c: Column) -> bool {
    match prop_view(c) { Some(p) => col_for(r, c.name@, p, c.nullable), None => true }
}

/// The stored bounds, viewed.
pub open spec fn cards_view(v: Seq<(String, String, u32, Option<u32>, usize)>) -> Seq<(Seq<char>, Seq<char>, u32, Option<u32>)> {
    v.map_values(|e: (String, String, u32, Option<u32>, usize)| (e.0@, e.1@, e.2, e.3))
}

/// The bounds of the last `@Cardinality` on `(c, p)`.
pub open spec fn last_card(anns: Seq<crate::fragment::AnnotationV>, c: Seq<char>, p: Seq<char>) -> Option<(u32, Option<u32>)>
    decreases anns.len(),
{
    if anns.len() == 0 {
        None
    } else {
        match anns.last() {
            crate::fragment::AnnotationV::Cardinality(c2, p2, mn, mx) => if c2 == c && p2 == p { Some((mn, mx)) } else { last_card(anns.drop_last(), c, p) },
            _ => last_card(anns.drop_last(), c, p),
        }
    }
}

/// The lookup finds the first entry on `(c, p)`.
proof fn lemma_card_first(v: Seq<(Seq<char>, Seq<char>, u32, Option<u32>)>, c: Seq<char>, p: Seq<char>, i: int)
    requires
        0 <= i <= v.len(),
        forall|j: int| 0 <= j < i ==> !(v[j].0 == c && v[j].1 == p),
        i < v.len() ==> v[i].0 == c && v[i].1 == p,
    ensures
        card_lookup(v, c, p) == if i < v.len() { Some((v[i].2, v[i].3)) } else { None::<(u32, Option<u32>)> },
    decreases v.len(),
{
    if v.len() > 0 && i > 0 {
        let w = v.drop_first();
        assert forall|j: int| 0 <= j < i - 1 implies !(w[j].0 == c && w[j].1 == p) by { assert(w[j] == v[j + 1]); }
        if i < v.len() { assert(w[i - 1] == v[i]); }
        lemma_card_first(w, c, p, i - 1);
    }
}

/// The first index on `(c, p)`, or the length.
proof fn lemma_card_first_ix(v: Seq<(Seq<char>, Seq<char>, u32, Option<u32>)>, c: Seq<char>, p: Seq<char>) -> (i: int)
    ensures
        0 <= i <= v.len(),
        forall|j: int| 0 <= j < i ==> !(v[j].0 == c && v[j].1 == p),
        i < v.len() ==> v[i].0 == c && v[i].1 == p,
    decreases v.len(),
{
    if v.len() == 0 {
        0
    } else if v[0].0 == c && v[0].1 == p {
        0
    } else {
        let w = v.drop_first();
        let i = lemma_card_first_ix(w, c, p);
        assert forall|j: int| 0 <= j < i + 1 implies !(v[j].0 == c && v[j].1 == p) by { if j > 0 { assert(v[j] == w[j - 1]); } }
        if i < w.len() { assert(v[i + 1] == w[i]); }
        i + 1
    }
}

/// Replacing the first entry on `(e.0, e.1)` changes the lookup of that pair only.
proof fn lemma_card_update(v: Seq<(Seq<char>, Seq<char>, u32, Option<u32>)>, k: int, e: (Seq<char>, Seq<char>, u32, Option<u32>))
    requires
        0 <= k < v.len(),
        forall|j: int| 0 <= j < k ==> !(v[j].0 == e.0 && v[j].1 == e.1),
        v[k].0 == e.0 && v[k].1 == e.1,
    ensures
        forall|c: Seq<char>, p: Seq<char>| #[trigger] card_lookup(v.update(k, e), c, p)
            == if c == e.0 && p == e.1 { Some((e.2, e.3)) } else { card_lookup(v, c, p) },
{
    let w = v.update(k, e);
    assert forall|c: Seq<char>, p: Seq<char>| #[trigger] card_lookup(w, c, p)
        == if c == e.0 && p == e.1 { Some((e.2, e.3)) } else { card_lookup(v, c, p) } by {
        if c == e.0 && p == e.1 {
            assert forall|j: int| 0 <= j < k implies !(w[j].0 == c && w[j].1 == p) by { assert(w[j] == v[j]); }
            lemma_card_first(w, c, p, k);
        } else {
            let i = lemma_card_first_ix(v, c, p);
            assert forall|j: int| 0 <= j < i implies !(w[j].0 == c && w[j].1 == p) by { if j != k { assert(w[j] == v[j]); } }
            if i < v.len() { assert(i != k); assert(w[i] == v[i]); }
            lemma_card_first(w, c, p, i);
            lemma_card_first(v, c, p, i);
        }
    }
}

/// Adding an entry for a pair not stored yet changes the lookup of that pair only.
proof fn lemma_card_push(v: Seq<(Seq<char>, Seq<char>, u32, Option<u32>)>, e: (Seq<char>, Seq<char>, u32, Option<u32>))
    requires
        forall|j: int| 0 <= j < v.len() ==> !(v[j].0 == e.0 && v[j].1 == e.1),
    ensures
        forall|c: Seq<char>, p: Seq<char>| #[trigger] card_lookup(v.push(e), c, p)
            == if c == e.0 && p == e.1 { Some((e.2, e.3)) } else { card_lookup(v, c, p) },
{
    let w = v.push(e);
    assert forall|c: Seq<char>, p: Seq<char>| #[trigger] card_lookup(w, c, p)
        == if c == e.0 && p == e.1 { Some((e.2, e.3)) } else { card_lookup(v, c, p) } by {
        if c == e.0 && p == e.1 {
            assert forall|j: int| 0 <= j < v.len() implies !(w[j].0 == c && w[j].1 == p) by { assert(w[j] == v[j]); }
            lemma_card_first(w, c, p, v.len() as int);
        } else {
            let i = lemma_card_first_ix(v, c, p);
            assert forall|j: int| 0 <= j < i implies !(w[j].0 == c && w[j].1 == p) by { assert(w[j] == v[j]); }
            if i < v.len() { assert(w[i] == v[i]); } else { assert(!(w[i].0 == c && w[i].1 == p)); }
            if i < v.len() {
                lemma_card_first(w, c, p, i);
            } else {
                assert forall|j: int| 0 <= j < w.len() implies !(w[j].0 == c && w[j].1 == p) by { if j < v.len() { assert(w[j] == v[j]); } }
                lemma_card_first(w, c, p, w.len() as int);
            }
            lemma_card_first(v, c, p, i);
        }
    }
}

/// The first bounds stored for `(c, p)`.
pub open spec fn card_lookup(v: Seq<(Seq<char>, Seq<char>, u32, Option<u32>)>, c: Seq<char>, p: Seq<char>) -> Option<(u32, Option<u32>)>
    decreases v.len(),
{
    if v.len() == 0 { None } else if v[0].0 == c && v[0].1 == p { Some((v[0].2, v[0].3)) } else { card_lookup(v.drop_first(), c, p) }
}

/// The bounds of relation `p` of `h`: none when `h` has more than one filler for `p`
/// (ambiguous), else the stored ones, else exactly one.
pub open spec fn bounds_of(cv: Seq<(Seq<char>, Seq<char>, u32, Option<u32>)>, amb: Seq<(Seq<char>, Seq<char>)>, h: Seq<char>, p: Seq<char>) -> (u32, Option<u32>) {
    if amb.contains((h, p)) {
        (1u32, None)
    } else {
        match card_lookup(cv, h, p) { Some(b) => b, None => (1u32, None) }
    }
}

/// Bounds beyond one.
pub open spec fn many_bounds(b: (u32, Option<u32>)) -> bool {
    b.0 > 1 || match b.1 { Some(m) => m > 1, None => false }
}

/// Which bounds make a junction: exactly one, at least one, at most one and the default
/// `(1, *)` of a single relation stay a foreign key; any bound of two or more, below or above,
/// makes a junction table.
pub proof fn lemma_junction_bounds(lo: u32, mx: Option<u32>)
    ensures
        many_bounds((lo, mx)) <==> lo >= 2 || (mx is Some && mx.unwrap() >= 2),
        !many_bounds((1, Some(1))) && !many_bounds((0, Some(1))) && !many_bounds((1, None)) && !many_bounds((0, None)),
{
}

/// A rolled attribute has an optional column on its property; one whose property has a
/// closed value set (`closed`) also has a foreign key from that column into the property's
/// lookup table.
pub open spec fn attr_placed(cols: Seq<Column>, fks: Seq<Fk>, ls: Seq<Lookup>, closed: bool, a: (Seq<char>, Seq<char>)) -> bool {
    &&& exists|n: Seq<char>| #[trigger] col_for(cols, n, a.0, true)
    &&& closed ==> exists|f: int| 0 <= f < fks.len() && #[trigger] fks[f].target_class@ == a.0
        && col_for(cols, fks[f].column@, a.0, true) && has_lookup(ls, a.0, fks[f].target_table@)
}

/// Attribute placement survives growing the columns and keys at the end, and the lookups.
proof fn lemma_attr_grow(cols0: Seq<Column>, cols1: Seq<Column>, fks0: Seq<Fk>, fks1: Seq<Fk>,
    ls0: Seq<Lookup>, ls1: Seq<Lookup>, closed: bool, a: (Seq<char>, Seq<char>))
    requires
        attr_placed(cols0, fks0, ls0, closed, a),
        cols0.len() <= cols1.len(),
        forall|i: int| 0 <= i < cols0.len() ==> cols1[i] == cols0[i],
        fks0.len() <= fks1.len(),
        forall|i: int| 0 <= i < fks0.len() ==> fks1[i] == fks0[i],
        forall|p: Seq<char>, n: Seq<char>| has_lookup(ls0, p, n) ==> #[trigger] has_lookup(ls1, p, n),
    ensures
        attr_placed(cols1, fks1, ls1, closed, a),
{
    let n = choose|n: Seq<char>| #[trigger] col_for(cols0, n, a.0, true);
    let k = choose|k: int| 0 <= k < cols0.len() && #[trigger] cols0[k].name@ == n && prop_view(cols0[k]) == Some(a.0)
        && (cols0[k].pk || cols0[k].nullable == true);
    assert(cols1[k] == cols0[k]);
    assert(col_for(cols1, n, a.0, true));
    if closed {
        let f = choose|f: int| 0 <= f < fks0.len() && #[trigger] fks0[f].target_class@ == a.0
            && col_for(cols0, fks0[f].column@, a.0, true) && has_lookup(ls0, a.0, fks0[f].target_table@);
        assert(fks1[f] == fks0[f]);
        let k2 = choose|k2: int| 0 <= k2 < cols0.len() && #[trigger] cols0[k2].name@ == fks0[f].column@ && prop_view(cols0[k2]) == Some(a.0)
            && (cols0[k2].pk || cols0[k2].nullable == true);
        assert(cols1[k2] == cols0[k2]);
        assert(col_for(cols1, fks1[f].column@, a.0, true));
        assert(has_lookup(ls1, a.0, fks1[f].target_table@));
    }
}

/// How a rolled relation `e` with bounds `b` is placed: bounds beyond one give a junction
/// from `class` to its target; else a foreign key to the target on a column for the
/// property, NOT NULL exactly when the relation is existential (or the column is the key).
/// Either way the junction or key cites at least one source line.
pub open spec fn rel_placed(class: Seq<char>, cols: Seq<Column>, fks: Seq<Fk>, js: Seq<Junction>,
    e: (Seq<char>, Seq<char>, Seq<char>, bool), b: (u32, Option<u32>)) -> bool {
    if many_bounds(b) {
        exists|j: int| 0 <= j < js.len() && #[trigger] js[j].subject_class@ == class && js[j].prop@ == e.0 && js[j].target_class@ == e.1
            && js[j].cites@.len() >= 1
    } else {
        exists|q: int| 0 <= q < fks.len() && #[trigger] fks[q].target_class@ == e.1 && fks[q].cites@.len() >= 1
            && col_for(cols, fks[q].column@, e.0, !e.3)
    }
}

/// Placement survives growing the columns, keys and junctions at the end.
proof fn lemma_placed_grow(class: Seq<char>, cols0: Seq<Column>, cols1: Seq<Column>, fks0: Seq<Fk>, fks1: Seq<Fk>,
    js0: Seq<Junction>, js1: Seq<Junction>, e: (Seq<char>, Seq<char>, Seq<char>, bool), b: (u32, Option<u32>))
    requires
        rel_placed(class, cols0, fks0, js0, e, b),
        cols0.len() <= cols1.len(),
        forall|i: int| 0 <= i < cols0.len() ==> cols1[i] == cols0[i],
        fks0.len() <= fks1.len(),
        forall|i: int| 0 <= i < fks0.len() ==> fks1[i] == fks0[i],
        js0.len() <= js1.len(),
        forall|i: int| 0 <= i < js0.len() ==> js1[i] == js0[i],
    ensures
        rel_placed(class, cols1, fks1, js1, e, b),
{
    if many_bounds(b) {
        let j = choose|j: int| 0 <= j < js0.len() && #[trigger] js0[j].subject_class@ == class && js0[j].prop@ == e.0 && js0[j].target_class@ == e.1
            && js0[j].cites@.len() >= 1;
        assert(js1[j] == js0[j]);
    } else {
        let q = choose|q: int| 0 <= q < fks0.len() && #[trigger] fks0[q].target_class@ == e.1 && fks0[q].cites@.len() >= 1
            && col_for(cols0, fks0[q].column@, e.0, !e.3);
        assert(fks1[q] == fks0[q]);
        let k = choose|k: int| 0 <= k < cols0.len() && #[trigger] cols0[k].name@ == fks0[q].column@ && prop_view(cols0[k]) == Some(e.0)
            && (cols0[k].pk || cols0[k].nullable == !e.3);
        assert(cols1[k] == cols0[k]);
    }
}

/// The table of an elected class, with its junctions and lookups.
fn emit_table(
    x: &Idx,
    names: &Vec<(String, String)>,
    ambiguous: &Vec<(String, String)>,
    class: &String,
    r: &Rolled,
    junctions: &mut Vec<Junction>,
    lookups: &mut Vec<Lookup>,
    warnings: &mut Vec<String>,
) -> (t: Table)
    requires
        luts_named(old(lookups)@),
        forall|k: int| 0 <= k < r.exts@.len() ==> (#[trigger] r.exts@[k]).2@.len() >= 1,
        strictly_sorted(lookup_props(old(lookups)@)),
        forall|j: int| 0 <= j < old(lookups)@.len() ==> enum_props(x.enums@).contains((#[trigger] old(lookups)@[j]).prop@),
    ensures
        forall|j: int| 0 <= j < final(lookups)@.len() ==> enum_props(x.enums@).contains((#[trigger] final(lookups)@[j]).prop@),
        forall|j: int| 0 <= j < final(lookups)@.len() ==> has_lookup(old(lookups)@, final(lookups)@[j].prop@, final(lookups)@[j].name@)
            || #[trigger] lut_keyed(t.fks@, final(lookups)@[j]),
        strictly_sorted(lookup_props(final(lookups)@)),
        t.columns@.len() >= 1,
        table_cols_ok(t),
        t.class@ == class@,
        label_view(t) == kv_lookup(kv_view(x.labels@), class@),
        t.name@ == name_of_spec(names@, class@),
        luts_named(final(lookups)@),
        forall|p: Seq<char>, n: Seq<char>| has_lookup(old(lookups)@, p, n) ==> #[trigger] has_lookup(final(lookups)@, p, n),
        forall|k: int| 0 <= k < t.fks@.len() ==> fk_ok(#[trigger] t.fks@[k], names@, ext_targets(r.exts@), final(lookups)@),
        old(junctions)@.len() <= final(junctions)@.len(),
        forall|j: int| 0 <= j < old(junctions)@.len() ==> final(junctions)@[j] == old(junctions)@[j],
        forall|j: int| old(junctions)@.len() <= j < final(junctions)@.len()
            ==> jn_ok(#[trigger] final(junctions)@[j], names@, class@, ext_targets(r.exts@)),
        forall|k: int| 0 <= k < r.exts@.len() ==> #[trigger] rel_placed(class@, t.columns@, t.fks@, final(junctions)@, rolled_view(r.exts@)[k],
            bounds_of(cards_view(x.cards@), crate::manchester::frames::pairs_view(ambiguous@), rolled_view(r.exts@)[k].2, rolled_view(r.exts@)[k].0)),
        forall|k: int| 0 <= k < r.attrs@.len() ==> #[trigger] attr_placed(t.columns@, t.fks@, final(lookups)@, enum_props(x.enums@).contains(rattr_view(r.attrs@)[k].0), rattr_view(r.attrs@)[k]),
{
    let ghost en = enum_props(x.enums@);
    let ghost rav = rattr_view(r.attrs@);
    let ghost l0 = lookups@;
    let ghost rv = rolled_view(r.exts@);
    let ghost cdv = cards_view(x.cards@);
    let ghost am = crate::manchester::frames::pairs_view(ambiguous@);
    let ghost j0 = junctions@;
    let ghost tg = ext_targets(r.exts@);
    let tname = name_of(names, class.as_str());
    let mut columns: Vec<Column> = Vec::new();
    columns.push(id_column());
    let mut fks: Vec<Fk> = Vec::new();
    let mut used_cols: Vec<String> = Vec::new();
    used_cols.push(String::from_str("id"));
    proof {
        reveal_strlit("id");
        assert(names_view(used_cols@) =~= col_names(columns@));
        assert(col_names(columns@).no_duplicates());
    }
    let shown = display(x, class.as_str());
    let mut a: usize = 0;
    while a < r.attrs.len()
        invariant
            a <= r.attrs@.len(),
            columns@.len() >= 1,
            surrogate_first(columns@),
            names_view(used_cols@) == col_names(columns@),
            columns@.len() < u64::MAX - 1 ==> col_names(columns@).no_duplicates(),
            forall|q: int| 0 <= q < fks@.len() ==> #[trigger] fk_col_ix(columns@, fks@[q].column@),
            junctions@ == j0,
            tg == ext_targets(r.exts@),
            luts_named(lookups@),
            forall|p: Seq<char>, n: Seq<char>| has_lookup(l0, p, n) ==> #[trigger] has_lookup(lookups@, p, n),
            forall|k: int| 0 <= k < fks@.len() ==> fk_ok(#[trigger] fks@[k], names@, tg, lookups@),
            en == enum_props(x.enums@),
            rav == rattr_view(r.attrs@),
            forall|k2: int| 0 <= k2 < a ==> #[trigger] attr_placed(columns@, fks@, lookups@, en.contains(rav[k2].0), rav[k2]),
            forall|j: int| 0 <= j < lookups@.len() ==> enum_props(x.enums@).contains((#[trigger] lookups@[j]).prop@),
            forall|j: int| 0 <= j < lookups@.len() ==> has_lookup(l0, lookups@[j].prop@, lookups@[j].name@) || #[trigger] lut_keyed(fks@, lookups@[j]),
            strictly_sorted(lookup_props(lookups@)),
        decreases r.attrs@.len() - a,
    {
        let ghost la = lookups@;
        let ghost cs0 = columns@;
        let ghost fk_0 = fks@;
        let p = r.attrs[a].0.as_str();
        let xsd = r.attrs[a].1.as_str();
        let cites = &r.attrs[a].2;
        let col = fresh_name(&mut used_cols, &prop_col(p));
        let ghost cv = col@;
        let what = crate::verbalise::words(local_of(p).as_str());
        match enum_get(&x.enums, p) {
            Some(ei) => {
                let ec = x.enums[ei].2;
                let lut = cat(prop_col(p), "_lut");
                let mut lc: Vec<usize> = Vec::new();
                lc.push(ec);
                let ghost lk_b = lookups@;
                proof { assert(enum_props(x.enums@)[ei as int] == p@); }
                add_lookup(lookups, Lookup { name: lut.clone(), prop: String::from_str(p), values: copy_names(&x.enums[ei].1), cites: lc });
                proof {
                    assert forall|j: int| 0 <= j < lookups@.len() implies enum_props(x.enums@).contains((#[trigger] lookups@[j]).prop@) by {
                        if lookups@[j].prop@ != p@ {
                            let i2 = choose|i2: int| 0 <= i2 < lk_b.len() && (#[trigger] lk_b[i2]).prop@ == lookups@[j].prop@ && lk_b[i2].name@ == lookups@[j].name@;
                            assert(enum_props(x.enums@).contains(lk_b[i2].prop@));
                        }
                    }
                }
                let mut fk_cites = cites_then(cites, &Vec::new());
                fk_cites.push(ec);
                let ghost fk0 = fks@;
                let fk = Fk { column: col.clone(), target_class: String::from_str(p), target_table: lut, cites: fk_cites };
                assert(fk_ok(fk, names@, tg, lookups@));
                fks.push(fk);
                proof {
                    assert forall|k: int| 0 <= k < fks@.len() implies fk_ok(#[trigger] fks@[k], names@, tg, lookups@) by {
                        if k < fk0.len() {
                            assert(fks@[k] == fk0[k]);
                            assert(fk_ok(fk0[k], names@, tg, la));
                        }
                    }                    assert forall|j: int| 0 <= j < lookups@.len() implies has_lookup(l0, lookups@[j].prop@, lookups@[j].name@)
                        || #[trigger] lut_keyed(fks@, lookups@[j]) by {
                        let lj = lookups@[j];
                        let fq = (fks@.len() - 1) as int;
                        if lj.prop@ == p@ && lj.name@ == fks@[fq].target_table@ {
                            assert(fks@[fq].target_class@ == lj.prop@);
                        } else {
                            assert(has_lookup(lk_b, lj.prop@, lj.name@));
                            let i2 = choose|i2: int| 0 <= i2 < lk_b.len() && (#[trigger] lk_b[i2]).prop@ == lj.prop@ && lk_b[i2].name@ == lj.name@;
                            assert(has_lookup(l0, lk_b[i2].prop@, lk_b[i2].name@) || lut_keyed(fk0, lk_b[i2]));
                            if lut_keyed(fk0, lk_b[i2]) {
                                let q = choose|q: int| 0 <= q < fk0.len() && (#[trigger] fk0[q]).target_class@ == lk_b[i2].prop@ && fk0[q].target_table@ == lk_b[i2].name@;
                                assert(fks@[q] == fk0[q]);
                            }
                        }
                    }
                }
                let comment = cat(cat(cat(cat(String::from_str("the "), what.as_str()), " of this "), shown.as_str()), " (closed value set)");
                columns.push(Column {
                    name: col,
                    sql_type: String::from_str("VARCHAR(64)"),
                    nullable: true,
                    pk: false,
                    unique: false,
                    prop: Some(String::from_str(p)),
                    comment: Some(comment),
                    cites: cites_then(cites, &Vec::new()),
                });
                proof {
                    let f = (fks@.len() - 1) as int;
                    assert(columns@[columns@.len() - 1].name@ == cv);
                    assert(col_for(columns@, cv, p@, true));
                    assert(fks@[f].column@ == cv && fks@[f].target_class@ == p@);
                    assert(col_for(columns@, fks@[f].column@, p@, true));
                    assert(has_lookup(lookups@, p@, fks@[f].target_table@));
                    let ag = (p@, xsd@);
                    assert(ag.0 == p@);
                    assert(col_for(columns@, cv, ag.0, true));
                    assert(fks@[f].target_class@ == ag.0 && col_for(columns@, fks@[f].column@, ag.0, true)
                        && has_lookup(lookups@, ag.0, fks@[f].target_table@));
                    assert(attr_placed(columns@, fks@, lookups@, en.contains(ag.0), ag));
                }
            },
            None => {
                let comment = cat(cat(cat(cat(String::from_str("the "), what.as_str()), " of this "), shown.as_str()), " (");
                let comment = cat(cat(comment, local_of(xsd).as_str()), ")");
                columns.push(Column {
                    name: col,
                    sql_type: String::from_str(sql_type(xsd)),
                    nullable: true,
                    pk: false,
                    unique: false,
                    prop: Some(String::from_str(p)),
                    comment: Some(comment),
                    cites: cites_then(cites, &Vec::new()),
                });
                proof {
                    assert(!en.contains(p@));
                    assert(columns@[columns@.len() - 1].name@ == cv);
                    assert(col_for(columns@, cv, p@, true));
                    let ag = (p@, xsd@);
                    assert(ag.0 == p@);
                    assert(col_for(columns@, cv, ag.0, true));
                    assert(!en.contains(ag.0));
                    assert(attr_placed(columns@, fks@, lookups@, en.contains(ag.0), ag));
                }
            },
        }
        proof {
            lemma_col_pushed(cs0, columns@, fk_0, fks@, names_view(used_cols@), cv);
            assert(rav[a as int] == (p@, xsd@));
            assert forall|k2: int| 0 <= k2 < a + 1 implies #[trigger] attr_placed(columns@, fks@, lookups@, en.contains(rav[k2].0), rav[k2]) by {
                if k2 < a {
                    lemma_attr_grow(cs0, columns@, fk_0, fks@, la, lookups@, en.contains(rav[k2].0), rav[k2]);
                }
            }
        }
        a += 1;
    }
    let mut k: usize = 0;
    while k < r.exts.len()
        invariant
            k <= r.exts@.len(),
            columns@.len() >= 1,
            surrogate_first(columns@),
            names_view(used_cols@) == col_names(columns@),
            columns@.len() < u64::MAX - 1 ==> col_names(columns@).no_duplicates(),
            forall|q: int| 0 <= q < fks@.len() ==> #[trigger] fk_col_ix(columns@, fks@[q].column@),
            tname@ == name_of_spec(names@, class@),
            tg == ext_targets(r.exts@),
            luts_named(lookups@),
            forall|p: Seq<char>, n: Seq<char>| has_lookup(l0, p, n) ==> #[trigger] has_lookup(lookups@, p, n),
            forall|q: int| 0 <= q < fks@.len() ==> fk_ok(#[trigger] fks@[q], names@, tg, lookups@),
            j0.len() <= junctions@.len(),
            forall|j: int| 0 <= j < j0.len() ==> junctions@[j] == j0[j],
            forall|j: int| j0.len() <= j < junctions@.len() ==> jn_ok(#[trigger] junctions@[j], names@, class@, tg),
            rv == rolled_view(r.exts@),
            cdv == cards_view(x.cards@),
            am == crate::manchester::frames::pairs_view(ambiguous@),
            forall|k2: int| 0 <= k2 < k ==> #[trigger] rel_placed(class@, columns@, fks@, junctions@, rv[k2], bounds_of(cdv, am, rv[k2].2, rv[k2].0)),
            en == enum_props(x.enums@),
            rav == rattr_view(r.attrs@),
            forall|k2: int| 0 <= k2 < rav.len() ==> #[trigger] attr_placed(columns@, fks@, lookups@, en.contains(rav[k2].0), rav[k2]),
            forall|j: int| 0 <= j < lookups@.len() ==> enum_props(x.enums@).contains((#[trigger] lookups@[j]).prop@),
            forall|kk: int| 0 <= kk < r.exts@.len() ==> (#[trigger] r.exts@[kk]).2@.len() >= 1,
            forall|j: int| 0 <= j < lookups@.len() ==> has_lookup(l0, lookups@[j].prop@, lookups@[j].name@) || #[trigger] lut_keyed(fks@, lookups@[j]),
            strictly_sorted(lookup_props(lookups@)),
        decreases r.exts@.len() - k,
    {
        let ghost cl0 = columns@;
        let ghost fk00 = fks@;
        let ghost jn00 = junctions@;
        proof { assert(tg[k as int] == r.exts@[k as int].1@); }
        let p = r.exts[k].0.as_str();
        let target = r.exts[k].1.as_str();
        let holder = r.exts[k].3.as_str();
        let is_ex = r.exts[k].4;
        let mut cites = cites_then(&r.exts[k].2, &Vec::new());
        proof { assert(cites@.len() >= 1); }
        match get3(&x.ranges, p) {
            Some((_, rc)) => cites.push(rc),
            None => {},
        }
        match get3(&x.domains, p) {
            Some((dom, dc)) => {
                let mut dom_ok = eq_str(class.as_str(), dom.as_str());
                if !dom_ok {
                    let ancs = ancestors(&x.sub, class);
                    let mut q: usize = 0;
                    while q < ancs.len()
                        invariant
                            q <= ancs@.len(),
                        decreases ancs@.len() - q,
                    {
                        if eq_str(ancs[q].0.as_str(), dom.as_str()) {
                            dom_ok = true;
                        }
                        q += 1;
                    }
                }
                if !dom_ok {
                    let m = cat(cat(cat(cat(String::from_str("mis-domained FK: "), class.as_str()), " via "), p), " but domain is ");
                    let m = cat(cat(cat(cat(m, dom.as_str()), " (cite "), fmt_u64(dc as u64).as_str()), ")");
                    warnings.push(m);
                }
            },
            None => {},
        }
        let (min, max, bc) = if has_pair(ambiguous, holder, p) {
            (1u32, None, 0usize)
        } else {
            match card_get(&x.cards, holder, p) {
                Some(b) => b,
                None => (1u32, None, 0usize),
            }
        };
        if bc != 0 {
            cites.push(bc);
        }
        let eff_min: u32 = if is_ex { if min > 1 { min } else { 1 } } else { 0 };
        let many = min > 1 || match max { Some(m) => m > 1, None => false };
        proof {
            assert(rv[k as int] == (p@, target@, holder@, is_ex));
            assert(bounds_of(cdv, am, holder@, p@) == (min, max));
            assert(many == many_bounds((min, max)));
        }
        let ghost cs0 = columns@;
        let ghost fk_0 = fks@;
        if !many {
            let col = fresh_name(&mut used_cols, &prop_col(p));
            let ghost cv = col@;
            let comment = cat(cat(cat(cat(String::from_str("references the "), display(x, target).as_str()), " this "), shown.as_str()), " ");
            let comment = cat(cat(cat(cat(comment, crate::verbalise::words(local_of(p).as_str()).as_str()), " ("), bound_phrase(eff_min, max).as_str()), ")");
            columns.push(Column {
                name: col.clone(),
                sql_type: String::from_str("VARCHAR(255)"),
                nullable: !is_ex,
                pk: false,
                unique: false,
                prop: Some(String::from_str(p)),
                comment: Some(comment),
                cites: cites_then(&cites, &Vec::new()),
            });
            let ghost fk0 = fks@;
            let fk = Fk { column: col, target_class: String::from_str(target), target_table: name_of(names, target), cites };
            assert(fk_ok(fk, names@, tg, lookups@));
            fks.push(fk);
            proof {
                assert forall|q: int| 0 <= q < fks@.len() implies fk_ok(#[trigger] fks@[q], names@, tg, lookups@) by {
                    if q < fk0.len() {
                        assert(fks@[q] == fk0[q]);
                    }
                }
                lemma_col_pushed(cs0, columns@, fk_0, fks@, names_view(used_cols@), cv);
                let nc = columns@.len() - 1;
                assert(columns@[nc].name@ == fks@[fk0.len() as int].column@);
                assert(prop_view(columns@[nc]) == Some(p@));
                assert(col_for(columns@, fks@[fk0.len() as int].column@, p@, !is_ex));
                assert(fks@[fk0.len() as int].cites@.len() >= 1);
                assert(rel_placed(class@, columns@, fks@, junctions@, rv[k as int], bounds_of(cdv, am, rv[k as int].2, rv[k as int].0)));
            }
        } else {
            let ghost jb = junctions@;
            let jn = Junction {
                name: cat(cat(tname.clone(), "_"), prop_col(p).as_str()),
                subject_class: class.clone(),
                subject_table: tname.clone(),
                target_class: String::from_str(target),
                target_table: name_of(names, target),
                prop: String::from_str(p),
                cites,
            };
            assert(jn_ok(jn, names@, class@, tg));
            junctions.push(jn);
            proof {
                assert forall|j: int| j0.len() <= j < junctions@.len() implies jn_ok(#[trigger] junctions@[j], names@, class@, tg) by {
                    if j < jb.len() {
                        assert(junctions@[j] == jb[j]);
                    }
                }
                assert forall|j: int| 0 <= j < j0.len() implies junctions@[j] == j0[j] by {
                    assert(junctions@[j] == jb[j]);
                }
                assert(junctions@[jb.len() as int].subject_class@ == class@);
                assert(junctions@[jb.len() as int].cites@.len() >= 1);
                assert(rel_placed(class@, columns@, fks@, junctions@, rv[k as int], bounds_of(cdv, am, rv[k as int].2, rv[k as int].0)));
            }
        }
        proof {
            assert forall|k2: int| 0 <= k2 < k + 1 implies #[trigger] rel_placed(class@, columns@, fks@, junctions@, rv[k2], bounds_of(cdv, am, rv[k2].2, rv[k2].0)) by {
                if k2 < k {
                    lemma_placed_grow(class@, cl0, columns@, fk00, fks@, jn00, junctions@, rv[k2], bounds_of(cdv, am, rv[k2].2, rv[k2].0));
                }
            }
            assert forall|k2: int| 0 <= k2 < rav.len() implies #[trigger] attr_placed(columns@, fks@, lookups@, en.contains(rav[k2].0), rav[k2]) by {
                lemma_attr_grow(cl0, columns@, fk00, fks@, lookups@, lookups@, en.contains(rav[k2].0), rav[k2]);
            }
            assert forall|j: int| 0 <= j < lookups@.len() implies has_lookup(l0, lookups@[j].prop@, lookups@[j].name@)
                || #[trigger] lut_keyed(fks@, lookups@[j]) by {
                if lut_keyed(fk00, lookups@[j]) {
                    let q = choose|q: int| 0 <= q < fk00.len() && (#[trigger] fk00[q]).target_class@ == lookups@[j].prop@ && fk00[q].target_table@ == lookups@[j].name@;
                    assert(fks@[q] == fk00[q]);
                }
            }
        }
        k += 1;
    }
    let mut cites: Vec<usize> = Vec::new();
    let label = match get3(&x.labels, class.as_str()) {
        Some((l, lc)) => {
            cites.push(lc);
            Some(l)
        },
        None => None,
    };
    let comment = Some(cat(String::from_str("one row per "), shown.as_str()));
    // a unique property's column is UNIQUE
    let mut cols: Vec<Column> = Vec::new();
    let mut q: usize = 0;
    while q < columns.len()
        invariant
            q <= columns@.len(),
            cols@.len() == q,
            forall|j: int| 0 <= j < q ==> (#[trigger] cols@[j]).name@ == columns@[j].name@ && cols@[j].pk == columns@[j].pk
                && cols@[j].nullable == columns@[j].nullable && cols@[j].prop.is_some() == columns@[j].prop.is_some()
                && prop_view(cols@[j]) == prop_view(columns@[j]),
        decreases columns@.len() - q,
    {
        let col = &columns[q];
        let uq = match &col.prop {
            Some(pr) => col.unique || crate::manchester::lower::has(&x.unique_props, pr.as_str()),
            None => col.unique,
        };
        cols.push(Column {
            name: col.name.clone(),
            sql_type: col.sql_type.clone(),
            nullable: col.nullable,
            pk: col.pk,
            unique: uq,
            prop: match &col.prop { Some(s) => Some(s.clone()), None => None },
            comment: match &col.comment { Some(s) => Some(s.clone()), None => None },
            cites: cites_then(&col.cites, &Vec::new()),
        });
        q += 1;
    }
    proof {
        assert(col_names(cols@) =~= col_names(columns@));
        assert forall|q: int| 0 <= q < fks@.len() implies #[trigger] fk_col_ix(cols@, fks@[q].column@) by {
            assert(fk_col_ix(columns@, fks@[q].column@));
            let i = choose|i: int| 1 <= i < columns@.len() && #[trigger] columns@[i].name@ == fks@[q].column@;
            assert(cols@[i].name@ == fks@[q].column@);
        }
    }
    let ghost cs = cols@;
    let ghost cs_pre = columns@;
    let ghost fks_fin = fks@;
    let columns = elect_key(x, class, &tname, cols, warnings);
    proof {
        assert forall|k2: int| 0 <= k2 < rv.len() implies #[trigger] rel_placed(class@, columns@, fks_fin, junctions@, rv[k2], bounds_of(cdv, am, rv[k2].2, rv[k2].0)) by {
            let e = rv[k2];
            let b = bounds_of(cdv, am, rv[k2].2, rv[k2].0);
            assert(rel_placed(class@, cs_pre, fks_fin, junctions@, e, b));
            if !many_bounds(b) {
                let q = choose|q: int| 0 <= q < fks_fin.len() && #[trigger] fks_fin[q].target_class@ == e.1 && fks_fin[q].cites@.len() >= 1
                    && col_for(cs_pre, fks_fin[q].column@, e.0, !e.3);
                let kc = choose|kc: int| 0 <= kc < cs_pre.len() && #[trigger] cs_pre[kc].name@ == fks_fin[q].column@ && prop_view(cs_pre[kc]) == Some(e.0)
                    && (cs_pre[kc].pk || cs_pre[kc].nullable == !e.3);
                assert(cs[kc].name@ == cs_pre[kc].name@);
                assert(prop_view(cs[kc]) == Some(e.0));
                assert(kc >= 1);
                assert(col_kept(columns@, cs[kc]));
                assert(col_for(columns@, fks_fin[q].column@, e.0, !e.3));
            }
        }
        assert forall|k2: int| 0 <= k2 < rav.len() implies #[trigger] attr_placed(columns@, fks_fin, lookups@, en.contains(rav[k2].0), rav[k2]) by {
            let e = rav[k2];
            assert(attr_placed(cs_pre, fks_fin, lookups@, en.contains(e.0), e));
            let n = choose|n: Seq<char>| #[trigger] col_for(cs_pre, n, e.0, true);
            let kc = choose|kc: int| 0 <= kc < cs_pre.len() && #[trigger] cs_pre[kc].name@ == n && prop_view(cs_pre[kc]) == Some(e.0)
                && (cs_pre[kc].pk || cs_pre[kc].nullable == true);
            assert(cs[kc].name@ == cs_pre[kc].name@);
            assert(prop_view(cs[kc]) == Some(e.0));
            assert(kc >= 1);
            assert(col_kept(columns@, cs[kc]));
            assert(col_for(columns@, n, e.0, true));
            if en.contains(e.0) {
                let q = choose|q: int| 0 <= q < fks_fin.len() && #[trigger] fks_fin[q].target_class@ == e.0
                    && col_for(cs_pre, fks_fin[q].column@, e.0, true) && has_lookup(lookups@, e.0, fks_fin[q].target_table@);
                let kc2 = choose|kc2: int| 0 <= kc2 < cs_pre.len() && #[trigger] cs_pre[kc2].name@ == fks_fin[q].column@ && prop_view(cs_pre[kc2]) == Some(e.0)
                    && (cs_pre[kc2].pk || cs_pre[kc2].nullable == true);
                assert(cs[kc2].name@ == cs_pre[kc2].name@);
                assert(prop_view(cs[kc2]) == Some(e.0));
                assert(kc2 >= 1);
                assert(col_kept(columns@, cs[kc2]));
                assert(col_for(columns@, fks_fin[q].column@, e.0, true));
            }
        }
    }
    proof {
        assert forall|q: int| 0 <= q < fks@.len() implies col_names(columns@).contains(#[trigger] fks@[q].column@) by {
            assert(fk_col_ix(cs, fks@[q].column@));
            let i = choose|i: int| 1 <= i < cs.len() && #[trigger] cs[i].name@ == fks@[q].column@;
            assert(col_names(columns@).contains(cs[i].name@));
        }
    }
    Table { class: class.clone(), name: tname, label, comment, columns, fks, cites }
}

/// The names of the columns.
pub open spec fn col_names(cols: Seq<Column>) -> Seq<Seq<char>> {
    cols.map_values(|c: Column| c.name@)
}

/// Exactly one primary-key column, and it is not null.
pub open spec fn one_pk(cols: Seq<Column>) -> bool {
    &&& exists|i: int| 0 <= i < cols.len() && #[trigger] cols[i].pk
    &&& forall|i: int, j: int| 0 <= i < cols.len() && 0 <= j < cols.len() && #[trigger] cols[i].pk && #[trigger] cols[j].pk ==> i == j
    &&& forall|i: int| 0 <= i < cols.len() && #[trigger] cols[i].pk ==> !cols[i].nullable
}

/// A table's columns are well formed: distinct names (short of the machine bound), one
/// non-null primary key, and each foreign key on a column of the table.
pub open spec fn table_cols_ok(t: Table) -> bool {
    &&& (t.columns@.len() < u64::MAX - 2 ==> col_names(t.columns@).no_duplicates())
    &&& one_pk(t.columns@)
    &&& forall|q: int| 0 <= q < t.fks@.len() ==> col_names(t.columns@).contains(#[trigger] t.fks@[q].column@)
}

/// Some kept column came from index `j`.
pub open spec fn kept_ix(src: Seq<int>, j: int) -> bool {
    exists|a: int| 0 <= a < src.len() && #[trigger] src[a] == j
}

/// A reference table: the surrogate `id` alone, with no foreign keys.
pub open spec fn bare_table(t: Table) -> bool {
    &&& t.columns@.len() == 1
    &&& t.columns@[0].name@ == "id"@
    &&& t.fks@.len() == 0
}

/// The columns before key election: the surrogate `id` first, then property columns.
pub open spec fn surrogate_first(cols: Seq<Column>) -> bool {
    &&& cols.len() >= 1
    &&& cols[0].name@ == "id"@ && cols[0].prop is None && cols[0].pk && !cols[0].nullable
    &&& forall|i: int| 1 <= i < cols.len() ==> !(#[trigger] cols[i]).pk && cols[i].prop is Some
}

/// The foreign-key column is one of the property columns.
pub open spec fn fk_col_ix(cols: Seq<Column>, c: Seq<char>) -> bool {
    exists|i: int| 1 <= i < cols.len() && #[trigger] cols[i].name@ == c
}

/// A property column pushed under a fresh name keeps the columns well formed.
proof fn lemma_col_pushed(cs0: Seq<Column>, cs: Seq<Column>, fk0: Seq<Fk>, fks: Seq<Fk>, used: Seq<Seq<char>>, cv: Seq<char>)
    requires
        surrogate_first(cs0),
        used == col_names(cs0).push(cv),
        cs0.len() < u64::MAX - 1 ==> col_names(cs0).no_duplicates(),
        cs0.len() < u64::MAX - 1 ==> !col_names(cs0).contains(cv),
        forall|q: int| 0 <= q < fk0.len() ==> #[trigger] fk_col_ix(cs0, fk0[q].column@),
        cs.len() == cs0.len() + 1,
        forall|j: int| 0 <= j < cs0.len() ==> cs[j] == cs0[j],
        cs[cs0.len() as int].name@ == cv,
        !cs[cs0.len() as int].pk,
        cs[cs0.len() as int].prop is Some,
        fks == fk0 || (fks.len() == fk0.len() + 1 && (forall|q: int| 0 <= q < fk0.len() ==> fks[q] == fk0[q]) && fks[fk0.len() as int].column@ == cv),
    ensures
        surrogate_first(cs),
        used == col_names(cs),
        cs.len() < u64::MAX - 1 ==> col_names(cs).no_duplicates(),
        forall|q: int| 0 <= q < fks.len() ==> #[trigger] fk_col_ix(cs, fks[q].column@),
{
    assert(col_names(cs) =~= col_names(cs0).push(cv));
    assert forall|q: int| 0 <= q < fks.len() implies #[trigger] fk_col_ix(cs, fks[q].column@) by {
        if q < fk0.len() {
            assert(fks[q] == fk0[q]);
            assert(fk_col_ix(cs0, fk0[q].column@));
            let i = choose|i: int| 1 <= i < cs0.len() && #[trigger] cs0[i].name@ == fk0[q].column@;
            assert(cs[i] == cs0[i]);
        } else {
            assert(cs[cs0.len() as int].name@ == fks[q].column@);
        }
    }
    if cs.len() < u64::MAX - 1 {
        assert forall|a: int, b: int| 0 <= a < b < col_names(cs).len() implies col_names(cs)[a] != col_names(cs)[b] by {
            if b == cs0.len() {
                assert(col_names(cs0)[a] == col_names(cs)[a]);
            }
        }
    }
}

/// A single-property `@Key` whose column exists becomes the primary key in place of the
/// surrogate `id`; otherwise the surrogate stays, with a warning.
fn elect_key(x: &Idx, class: &String, tname: &String, columns: Vec<Column>, warnings: &mut Vec<String>) -> (r: Vec<Column>)
    requires
        surrogate_first(columns@),
    ensures
        r@.len() >= 1,
        r@.len() + 1 >= columns@.len(),
        one_pk(r@),
        col_names(columns@).no_duplicates() ==> col_names(r@).no_duplicates(),
        forall|i: int| 1 <= i < columns@.len() ==> col_names(r@).contains(#[trigger] columns@[i].name@),
        forall|i: int| 1 <= i < columns@.len() ==> col_kept(r@, #[trigger] columns@[i]),
{
    let ghost c0 = columns@;
    proof { reveal_strlit("id"); assert(c0[0].pk); }
    let (kprop, kc) = match get3(&x.keys, class.as_str()) {
        Some(k) => k,
        None => {
            proof {
                assert forall|i: int| 1 <= i < c0.len() implies col_names(c0).contains(#[trigger] c0[i].name@) by {
                    assert(col_names(c0)[i] == c0[i].name@);
                }
                assert forall|i: int| 1 <= i < c0.len() implies col_kept(c0, #[trigger] c0[i]) by {
                    if let Some(pp) = prop_view(c0[i]) { assert(c0[i].name@ == c0[i].name@); }
                }
            }
            return columns;
        },
    };
    let mut found: Option<usize> = None;
    let mut i: usize = 0;
    while i < columns.len()
        invariant
            i <= columns@.len(),
            found matches Some(f) ==> f < columns@.len() && columns@[f as int].prop is Some,
        decreases columns@.len() - i,
    {
        if found.is_none() {
            match &columns[i].prop {
                Some(pr) => if eq_str(pr.as_str(), kprop.as_str()) {
                    found = Some(i);
                },
                None => {},
            }
        }
        i += 1;
    }
    match found {
        None => {
            let m = cat(cat(cat(cat(String::from_str("@Key <"), kprop.as_str()), "> on <"), class.as_str()), "> names no column of ");
            warnings.push(cat(cat(m, tname.as_str()), " — surrogate retained"));
            proof {
                assert forall|i: int| 1 <= i < c0.len() implies col_names(c0).contains(#[trigger] c0[i].name@) by {
                    assert(col_names(c0)[i] == c0[i].name@);
                }
                assert forall|i: int| 1 <= i < c0.len() implies col_kept(c0, #[trigger] c0[i]) by {
                    if let Some(pp) = prop_view(c0[i]) { assert(c0[i].name@ == c0[i].name@); }
                }
            }
            columns
        },
        Some(f) => {
            let mut out: Vec<Column> = Vec::new();
            let mut i: usize = 0;
            let mut columns = columns;
            let ghost n = columns@.len();
            assert(f != 0) by { assert(c0[0].prop is None); }
            let ghost mut src: Seq<int> = Seq::empty();
            while i < columns.len()
                invariant
                    i <= columns@.len(),
                    columns@ == c0,
                    columns@.len() == n,
                    surrogate_first(c0),
                    0 < f < n,
                    i > f ==> out@.len() >= 1,
                    src.len() == out@.len(),
                    out@.len() + 1 >= i,
                    forall|a: int| 0 <= a < src.len() ==> 0 <= #[trigger] src[a] < i && out@[a].name@ == c0[src[a]].name@
                        && prop_view(out@[a]) == prop_view(c0[src[a]]) && (out@[a].pk || out@[a].nullable == c0[src[a]].nullable),
                    forall|a: int, b: int| 0 <= a < b < src.len() ==> #[trigger] src[a] < #[trigger] src[b],
                    forall|a: int| 0 <= a < out@.len() ==> (#[trigger] out@[a]).pk ==> src[a] == f && !out@[a].nullable,
                    i > f ==> exists|a: int| 0 <= a < out@.len() && #[trigger] out@[a].pk,
                    forall|j: int| 1 <= j < i ==> #[trigger] kept_ix(src, j),
                decreases columns@.len() - i,
            {
                let col = &columns[i];
                let ghost o0 = out@;
                let ghost s0 = src;
                let is_id = eq_str(col.name.as_str(), "id") && col.prop.is_none();
                proof { if i >= 1 { assert(c0[i as int].prop is Some); } }
                if i == f {
                    let mut cites = cites_then(&col.cites, &Vec::new());
                    cites.push(kc);
                    out.push(Column {
                        name: col.name.clone(),
                        sql_type: col.sql_type.clone(),
                        nullable: false,
                        pk: true,
                        unique: col.unique,
                        prop: match &col.prop { Some(s) => Some(s.clone()), None => None },
                        comment: match &col.comment { Some(s) => Some(s.clone()), None => None },
                        cites,
                    });
                    proof { src = s0.push(i as int); }
                } else if !is_id {
                    out.push(Column {
                        name: col.name.clone(),
                        sql_type: col.sql_type.clone(),
                        nullable: col.nullable,
                        pk: col.pk,
                        unique: col.unique,
                        prop: match &col.prop { Some(s) => Some(s.clone()), None => None },
                        comment: match &col.comment { Some(s) => Some(s.clone()), None => None },
                        cites: cites_then(&col.cites, &Vec::new()),
                    });
                    proof { src = s0.push(i as int); assert(i != f && i >= 1); }
                }
                proof {
                    assert forall|j: int| 1 <= j < i + 1 implies #[trigger] kept_ix(src, j) by {
                        if j < i {
                            assert(kept_ix(s0, j));
                            let a = choose|a: int| 0 <= a < s0.len() && #[trigger] s0[a] == j;
                            assert(src[a] == j);
                        } else {
                            assert(src[s0.len() as int] == j);
                        }
                    }
                    if i + 1 > f {
                        if i == f {
                            assert(out@[o0.len() as int].pk);
                        } else {
                            let a = choose|a: int| 0 <= a < o0.len() && #[trigger] o0[a].pk;
                            assert(out@[a].pk);
                        }
                    }
                }
                i += 1;
            }
            proof {
                assert forall|a: int, b: int| 0 <= a < out@.len() && 0 <= b < out@.len() && #[trigger] out@[a].pk && #[trigger] out@[b].pk implies a == b by {
                    if a < b { assert(src[a] < src[b]); }
                    if b < a { assert(src[b] < src[a]); }
                }
                if col_names(c0).no_duplicates() {
                    assert forall|a: int, b: int| 0 <= a < b < out@.len() implies col_names(out@)[a] != col_names(out@)[b] by {
                        assert(src[a] < src[b]);
                        assert(col_names(c0)[src[a]] != col_names(c0)[src[b]]);
                    }
                }
                assert forall|j: int| 1 <= j < c0.len() implies col_names(out@).contains(#[trigger] c0[j].name@) by {
                    assert(kept_ix(src, j));
                    let a = choose|a: int| 0 <= a < src.len() && #[trigger] src[a] == j;
                    assert(col_names(out@)[a] == c0[j].name@);
                }
                assert forall|j: int| 1 <= j < c0.len() implies col_kept(out@, #[trigger] c0[j]) by {
                    assert(kept_ix(src, j));
                    let a = choose|a: int| 0 <= a < src.len() && #[trigger] src[a] == j;
                    assert(!c0[j].pk);
                    if let Some(pp) = prop_view(c0[j]) {
                        assert(out@[a].name@ == c0[j].name@);
                    }
                }
            }
            out
        },
    }
}


/// Whether the generic-dialect SQL parser accepts a text (a function of the text alone).
pub uninterp spec fn sql_accepts(s: Seq<char>) -> bool;

/// `sqlparser::parser::Parser::parse_sql` with the generic dialect: whether `s` parses as
/// SQL statements. Its contract claims only that the answer is a function of the text.
#[verifier::external_body]
fn sql_parses(s: &str) -> (r: bool)
    ensures
        r == sql_accepts(s@),
{
    sqlparser::parser::Parser::parse_sql(&sqlparser::dialect::GenericDialect {}, s).is_ok()
}

/// An ASCII capital letter in lower case; any other character unchanged.
pub open spec fn lower_ascii(c: char) -> char {
    if 'A' <= c && c <= 'Z' { ((c as u8) + 32) as char } else { c }
}

/// Whether a name is, ignoring ASCII case, one of the SQL words that natural table names
/// collide with.
pub open spec fn reserved_spec(name: Seq<char>) -> bool {
    let w = name.map_values(|c: char| lower_ascii(c));
    w == "order"@ || w == "group"@ || w == "user"@ || w == "table"@ || w == "select"@
        || w == "where"@ || w == "from"@ || w == "join"@ || w == "index"@ || w == "view"@
        || w == "grant"@ || w == "role"@ || w == "session"@ || w == "transaction"@
        || w == "check"@ || w == "constraint"@ || w == "default"@ || w == "column"@
        || w == "level"@ || w == "position"@ || w == "condition"@ || w == "release"@
        || w == "result"@ || w == "schema"@ || w == "system"@ || w == "action"@
}

/// Whether a name is one of the SQL words that natural table names collide with.
fn reserved(name: &str) -> (r: bool)
    ensures
        r == reserved_spec(name@),
{
    let v = chars_of(name);
    let mut low: Vec<char> = Vec::new();
    let mut i: usize = 0;
    while i < v.len()
        invariant
            i <= v@.len(),
            v@ == name@,
            low@ == v@.take(i as int).map_values(|c: char| lower_ascii(c)),
        decreases v@.len() - i,
    {
        let c = v[i];
        let ghost l0 = low@;
        low.push(if 'A' <= c && c <= 'Z' { ((c as u8) + 32) as char } else { c });
        proof {
            assert(low@ =~= l0.push(lower_ascii(c)));
            assert(v@.take(i + 1).map_values(|c: char| lower_ascii(c)) =~= v@.take(i as int).map_values(|c: char| lower_ascii(c)).push(lower_ascii(c)));
        }
        i += 1;
    }
    proof { assert(v@.take(v@.len() as int) =~= v@); }
    let ls = string_of(&low, 0, low.len());
    proof { assert(low@.subrange(0, low@.len() as int) =~= low@); }
    let w = ls.as_str();
    eq_str(w, "order") || eq_str(w, "group") || eq_str(w, "user") || eq_str(w, "table") || eq_str(w, "select")
        || eq_str(w, "where") || eq_str(w, "from") || eq_str(w, "join") || eq_str(w, "index") || eq_str(w, "view")
        || eq_str(w, "grant") || eq_str(w, "role") || eq_str(w, "session") || eq_str(w, "transaction")
        || eq_str(w, "check") || eq_str(w, "constraint") || eq_str(w, "default") || eq_str(w, "column")
        || eq_str(w, "level") || eq_str(w, "position") || eq_str(w, "condition") || eq_str(w, "release")
        || eq_str(w, "result") || eq_str(w, "schema") || eq_str(w, "system") || eq_str(w, "action")
}

/// A name, double-quoted when forced or reserved.
pub open spec fn quote_spec(name: Seq<char>, force: bool) -> Seq<char> {
    if force || reserved_spec(name) { "\""@ + name + "\""@ } else { name }
}

/// A name, double-quoted when forced or reserved.
fn quote(name: &str, force: bool) -> (r: String)
    ensures
        r@ == quote_spec(name@, force),
{
    if force || reserved(name) {
        cat(cat(String::from_str("\""), name), "\"")
    } else {
        String::from_str(name)
    }
}

/// The name of the first primary-key column from `k` on, else `id`.
pub open spec fn pk_from(cols: Seq<Column>, k: int) -> Seq<char>
    decreases cols.len() - k,
{
    if k < 0 || k >= cols.len() { "id"@ } else if cols[k].pk { cols[k].name@ } else { pk_from(cols, k + 1) }
}

/// Each table's name with its primary-key column.
pub open spec fn pk_pairs(tables: Seq<Table>) -> Seq<(Seq<char>, Seq<char>)> {
    tables.map_values(|t: Table| (t.name@, pk_from(t.columns@, 0)))
}

/// The primary-key column of each table (the first column marked so, else `id`).
fn pk_map(p: &Plan) -> (r: Vec<(String, String)>)
    ensures
        crate::manchester::frames::pairs_view(r@) == pk_pairs(p.tables@),
{
    let mut out: Vec<(String, String)> = Vec::new();
    let mut t: usize = 0;
    while t < p.tables.len()
        invariant
            t <= p.tables@.len(),
            crate::manchester::frames::pairs_view(out@) == pk_pairs(p.tables@.take(t as int)),
        decreases p.tables@.len() - t,
    {
        let cols = &p.tables[t].columns;
        let mut pk = String::from_str("id");
        let mut k: usize = 0;
        let mut found = false;
        proof { reveal_strlit("id"); }
        while k < cols.len()
            invariant
                k <= cols@.len(),
                found ==> pk@ == pk_from(cols@, 0),
                !found ==> pk@ == "id"@ && pk_from(cols@, 0) == pk_from(cols@, k as int),
            decreases cols@.len() - k,
        {
            if !found && cols[k].pk {
                pk = cols[k].name.clone();
                found = true;
            }
            k += 1;
        }
        let ghost o0 = crate::manchester::frames::pairs_view(out@);
        let nm = p.tables[t].name.clone();
        out.push((nm, pk));
        proof {
            assert(crate::manchester::frames::pairs_view(out@) =~= o0.push((p.tables@[t as int].name@, pk_from(cols@, 0))));
            assert(pk_pairs(p.tables@.take(t + 1)) =~= pk_pairs(p.tables@.take(t as int)).push((p.tables@[t as int].name@, pk_from(p.tables@[t as int].columns@, 0))));
        }
        t += 1;
    }
    proof { assert(p.tables@.take(p.tables@.len() as int) =~= p.tables@); }
    out
}

/// The primary-key column recorded for `name` (`id` when unknown).
pub open spec fn pk_lookup(pks: Seq<(Seq<char>, Seq<char>)>, name: Seq<char>) -> Seq<char>
    decreases pks.len(),
{
    if pks.len() == 0 { "id"@ } else if pks[0].0 == name { pks[0].1 } else { pk_lookup(pks.drop_first(), name) }
}

/// The primary-key column of table `name` (`id` when unknown).
fn pk_of(pks: &Vec<(String, String)>, name: &str) -> (r: String)
    ensures
        r@ == pk_lookup(crate::manchester::frames::pairs_view(pks@), name@),
{
    let ghost w = crate::manchester::frames::pairs_view(pks@);
    assert(w.skip(0) =~= w);
    let mut i: usize = 0;
    while i < pks.len()
        invariant
            i <= pks@.len(),
            w == crate::manchester::frames::pairs_view(pks@),
            pk_lookup(w, name@) == pk_lookup(w.skip(i as int), name@),
        decreases pks@.len() - i,
    {
        proof {
            assert(w.skip(i as int)[0] == w[i as int]);
            assert(w.skip(i as int).drop_first() =~= w.skip(i + 1));
        }
        if eq_str(pks[i].0.as_str(), name) {
            return pks[i].1.clone();
        }
        i += 1;
    }
    proof { reveal_strlit("id"); }
    String::from_str("id")
}

/// The line of a column.
pub open spec fn col_line(c: Column, force: bool) -> Seq<char> {
    "  "@ + quote_spec(c.name@, force) + " "@ + c.sql_type@ + (if c.nullable { ""@ } else { " NOT NULL"@ })
        + (if c.unique && !c.pk { " UNIQUE"@ } else { ""@ })
}

/// The quoted names of the primary-key columns.
pub open spec fn pk_names(cols: Seq<Column>, force: bool) -> Seq<Seq<char>>
    decreases cols.len(),
{
    if cols.len() == 0 {
        Seq::empty()
    } else {
        pk_names(cols.drop_last(), force) + if cols.last().pk { seq![quote_spec(cols.last().name@, force)] } else { Seq::empty() }
    }
}

/// The primary-key line of a table.
pub open spec fn pk_line(cols: Seq<Column>, force: bool) -> Seq<char> {
    let ks = pk_names(cols, force);
    "  PRIMARY KEY ("@ + (if ks.len() == 0 { "id"@ } else { join_spec(ks, ", "@) }) + ")"@
}

/// The line of a foreign key; a lookup target is referenced by its `code`.
pub open spec fn fk_line(fk: Fk, pks: Seq<(Seq<char>, Seq<char>)>, force: bool) -> Seq<char> {
    let t = fk.target_table@;
    let target_col = if t.len() >= "_lut"@.len() && t.skip(t.len() - "_lut"@.len()) == "_lut"@ { "code"@ } else { pk_lookup(pks, t) };
    "  FOREIGN KEY ("@ + quote_spec(fk.column@, force) + ") REFERENCES "@ + quote_spec(t, force) + "("@ + target_col + ")"@
}

/// The `CREATE TABLE` statement of a table.
pub open spec fn table_text(t: Table, pks: Seq<(Seq<char>, Seq<char>)>, force: bool) -> Seq<char> {
    let lines = t.columns@.map_values(|c: Column| col_line(c, force)) + seq![pk_line(t.columns@, force)]
        + t.fks@.map_values(|fk: Fk| fk_line(fk, pks, force));
    "CREATE TABLE "@ + quote_spec(t.name@, force) + " (\n"@ + join_spec(lines, ",\n"@) + "\n)"@
}

/// The `CREATE TABLE` statement of a table.
fn render_table(t: &Table, pks: &Vec<(String, String)>, force: bool) -> (r: String)
    ensures
        r@ == table_text(*t, crate::manchester::frames::pairs_view(pks@), force),
{
    let ghost pv = crate::manchester::frames::pairs_view(pks@);
    let ghost cols = t.columns@;
    let mut lines: Vec<String> = Vec::new();
    let mut pk_cols: Vec<String> = Vec::new();
    let mut k: usize = 0;
    proof { assert(names_view(lines@) =~= cols.take(0).map_values(|c: Column| col_line(c, force))); assert(names_view(pk_cols@) =~= pk_names(cols.take(0), force)); }
    while k < t.columns.len()
        invariant
            k <= t.columns@.len(),
            cols == t.columns@,
            names_view(lines@) == cols.take(k as int).map_values(|c: Column| col_line(c, force)),
            names_view(pk_cols@) == pk_names(cols.take(k as int), force),
        decreases t.columns@.len() - k,
    {
        let c = &t.columns[k];
        let ghost l0 = names_view(lines@);
        let ghost k0 = names_view(pk_cols@);
        proof { reveal_strlit(""); reveal_strlit(" NOT NULL"); reveal_strlit(" UNIQUE"); }
        let nn = if c.nullable { "" } else { " NOT NULL" };
        let uq = if c.unique && !c.pk { " UNIQUE" } else { "" };
        let l = cat(cat(cat(cat(cat(String::from_str("  "), quote(c.name.as_str(), force).as_str()), " "), c.sql_type.as_str()), nn), uq);
        assert(l@ =~= col_line(*c, force));
        lines.push(l);
        proof {
            assert(names_view(lines@) =~= l0.push(col_line(cols[k as int], force)));
            assert(cols.take(k + 1).map_values(|c: Column| col_line(c, force)) =~= cols.take(k as int).map_values(|c: Column| col_line(c, force)).push(col_line(cols[k as int], force)));
            assert(cols.take(k + 1).drop_last() =~= cols.take(k as int));
        }
        if c.pk {
            pk_cols.push(quote(c.name.as_str(), force));
            proof { assert(names_view(pk_cols@) =~= k0 + seq![quote_spec(cols[k as int].name@, force)]); }
        } else {
            proof { assert(k0 + Seq::<Seq<char>>::empty() =~= k0); }
        }
        k += 1;
    }
    proof { assert(cols.take(cols.len() as int) =~= cols); reveal_strlit("id"); }
    let pkl = if pk_cols.len() == 0 { String::from_str("id") } else { join(&pk_cols, ", ") };
    let ghost lc = names_view(lines@);
    lines.push(cat(cat(String::from_str("  PRIMARY KEY ("), pkl.as_str()), ")"));
    proof { assert(names_view(lines@) =~= lc + seq![pk_line(cols, force)]); }
    let ghost lp = names_view(lines@);
    let ghost fks = t.fks@;
    let mut f: usize = 0;
    proof { assert(lp + fks.take(0).map_values(|fk: Fk| fk_line(fk, pv, force)) =~= lp); }
    while f < t.fks.len()
        invariant
            f <= t.fks@.len(),
            fks == t.fks@,
            pv == crate::manchester::frames::pairs_view(pks@),
            names_view(lines@) == lp + fks.take(f as int).map_values(|fk: Fk| fk_line(fk, pv, force)),
        decreases t.fks@.len() - f,
    {
        let fk = &t.fks[f];
        let ghost l0 = names_view(lines@);
        proof { reveal_strlit("_lut"); reveal_strlit("code"); }
        let target_col = if crate::verbalise::ends_with(&fk.target_table, "_lut") {
            String::from_str("code")
        } else {
            pk_of(pks, fk.target_table.as_str())
        };
        let l = cat(cat(cat(String::from_str("  FOREIGN KEY ("), quote(fk.column.as_str(), force).as_str()), ") REFERENCES "), quote(fk.target_table.as_str(), force).as_str());
        let l2 = cat(cat(cat(l, "("), target_col.as_str()), ")");
        assert(l2@ =~= fk_line(*fk, pv, force));
        lines.push(l2);
        proof {
            assert(names_view(lines@) =~= l0.push(fk_line(fks[f as int], pv, force)));
            assert(fks.take(f + 1).map_values(|fk: Fk| fk_line(fk, pv, force)) =~= fks.take(f as int).map_values(|fk: Fk| fk_line(fk, pv, force)).push(fk_line(fks[f as int], pv, force)));
        }
        f += 1;
    }
    proof { assert(fks.take(fks.len() as int) =~= fks); }
    cat(cat(cat(cat(String::from_str("CREATE TABLE "), quote(t.name.as_str(), force).as_str()), " (\n"), join(&lines, ",\n").as_str()), "\n)")
}

/// The index of the first line break from `e` on, else the length.
pub open spec fn nl_from(s: Seq<char>, e: int) -> int
    decreases s.len() - e,
{
    if e < 0 || e >= s.len() { s.len() as int } else if s[e] == '\n' { e } else { nl_from(s, e + 1) }
}

/// `b` with each trailing ` (` after `a` taken off.
pub open spec fn strip_paren(lv: Seq<char>, a: int, b: int) -> int
    decreases b,
{
    if 0 <= a && b - a >= 2 && b <= lv.len() && lv[b - 2] == ' ' && lv[b - 1] == '(' { strip_paren(lv, a, b - 2) } else { b }
}

/// `a` past each leading double quote before `b`.
pub open spec fn open_quotes(lv: Seq<char>, a: int, b: int) -> int
    decreases b - a,
{
    if 0 <= a && a < b && b <= lv.len() && lv[a] == '"' { open_quotes(lv, a + 1, b) } else { a }
}

/// `b` before each trailing double quote after `a`.
pub open spec fn close_quotes(lv: Seq<char>, a: int, b: int) -> int
    decreases b - a,
{
    if 0 <= a && b > a && b <= lv.len() && lv[b - 1] == '"' { close_quotes(lv, a, b - 1) } else { b }
}

/// The table a statement creates: the name after `CREATE TABLE ` on its first line, without
/// the opening ` (` and quotes; empty when the line does not start so.
pub open spec fn created_spec(st: Seq<char>) -> Seq<char> {
    let line = st.take(nl_from(st, 0));
    if !(13 <= line.len() && line.take(13) == "CREATE TABLE "@) {
        Seq::empty()
    } else {
        let b0 = strip_paren(line, 13, line.len() as int);
        let a1 = open_quotes(line, 13, b0);
        let b1 = close_quotes(line, a1, b0);
        line.subrange(a1, b1)
    }
}

/// The table a statement creates, by the name on its first line.
fn created_table(st: &String) -> (r: String)
    ensures
        r@ == created_spec(st@),
{
    proof { reveal_strlit("CREATE TABLE "); }
    let v = chars_of(st.as_str());
    let mut e: usize = 0;
    while e < v.len() && v[e] != '\n'
        invariant
            e <= v@.len(),
            v@ == st@,
            nl_from(v@, 0) == nl_from(v@, e as int),
        decreases v@.len() - e,
    {
        e += 1;
    }
    let line = string_of(&v, 0, e);
    assert(line@ =~= st@.take(nl_from(st@, 0)));
    if !crate::manchester::lower::starts(&line, "CREATE TABLE ") {
        return String::new();
    }
    let lv = chars_of(line.as_str());
    let mut a: usize = 13;
    if a > lv.len() {
        a = lv.len();
    }
    let mut b = lv.len();
    while b - a >= 2 && lv[b - 2] == ' ' && lv[b - 1] == '('
        invariant
            a == 13,
            a <= b <= lv@.len(),
            strip_paren(lv@, 13, lv@.len() as int) == strip_paren(lv@, 13, b as int),
        decreases b,
    {
        b -= 2;
    }
    let ghost b0 = b;
    while a < b && lv[a] == '"'
        invariant
            a <= b <= lv@.len(),
            b == b0,
            open_quotes(lv@, 13, b0 as int) == open_quotes(lv@, a as int, b0 as int),
        decreases b - a,
    {
        a += 1;
    }
    let ghost a1 = a;
    while b > a && lv[b - 1] == '"'
        invariant
            a <= b <= lv@.len(),
            a == a1,
            close_quotes(lv@, a1 as int, b0 as int) == close_quotes(lv@, a1 as int, b as int),
        decreases b - a,
    {
        b -= 1;
    }
    string_of(&lv, a, b)
}

/// The statement of a lookup table.
pub open spec fn lookup_text(l: Lookup) -> Seq<char> {
    "CREATE TABLE "@ + l.name@ + " (\n  code VARCHAR(64),\n  PRIMARY KEY (code)\n)"@
}

/// The statement of a junction table.
pub open spec fn junction_text(j: Junction, pks: Seq<(Seq<char>, Seq<char>)>) -> Seq<char> {
    let st = j.subject_table@;
    let tt = j.target_table@;
    "CREATE TABLE "@ + j.name@ + " (\n  "@ + st + "_id VARCHAR(255) NOT NULL,\n  "@ + tt
        + "_id VARCHAR(255) NOT NULL,\n  PRIMARY KEY ("@ + st + "_id, "@ + tt + "_id),\n  FOREIGN KEY ("@
        + st + "_id) REFERENCES "@ + st + "("@ + pk_lookup(pks, st) + "),\n  FOREIGN KEY ("@ + tt
        + "_id) REFERENCES "@ + tt + "("@ + pk_lookup(pks, tt) + ")\n)"@
}

/// The statements of a plan as first rendered: lookups, tables, junctions.
pub open spec fn plain_stmts(p: Plan) -> Seq<Seq<char>> {
    let pks = pk_pairs(p.tables@);
    p.lookups@.map_values(|l: Lookup| lookup_text(l)) + p.tables@.map_values(|t: Table| table_text(t, pks, false))
        + p.junctions@.map_values(|j: Junction| junction_text(j, pks))
}

/// The index of the first table named `name` from `i` on.
pub open spec fn first_table(tables: Seq<Table>, name: Seq<char>, i: int) -> Option<int>
    decreases tables.len() - i,
{
    if i < 0 || i >= tables.len() { None } else if tables[i].name@ == name { Some(i) } else { first_table(tables, name, i + 1) }
}

/// A statement as checked: kept when the parser accepts it, else the table it creates
/// rendered again with every identifier quoted (kept as it is when no table has that name).
pub open spec fn checked_stmt(p: Plan, st: Seq<char>) -> Seq<char> {
    if sql_accepts(st) {
        st
    } else {
        match first_table(p.tables@, created_spec(st), 0) {
            Some(f) => table_text(p.tables@[f], pk_pairs(p.tables@), true),
            None => st,
        }
    }
}

/// Render the `CREATE TABLE` statements of a plan (lookups, tables, junctions) and check
/// each with the SQL parser; a statement it refuses is rendered again with every identifier
/// quoted. The flag says whether the parser accepts every statement returned.
pub fn render_and_check(p: &Plan) -> (r: (Vec<String>, bool))
    ensures
        r.0@.len() == plain_stmts(*p).len(),
        forall|i: int| 0 <= i < r.0@.len() ==> #[trigger] r.0@[i]@ == checked_stmt(*p, plain_stmts(*p)[i]),
        r.1 <==> (forall|i: int| 0 <= i < r.0@.len() ==> sql_accepts(#[trigger] r.0@[i]@)),
{
    let pks = pk_map(p);
    let ghost pv = pk_pairs(p.tables@);
    let ghost ls = p.lookups@.map_values(|l: Lookup| lookup_text(l));
    let ghost ts = p.tables@.map_values(|t: Table| table_text(t, pv, false));
    let ghost js = p.junctions@.map_values(|j: Junction| junction_text(j, pv));
    let mut stmts: Vec<String> = Vec::new();
    let mut i: usize = 0;
    while i < p.lookups.len()
        invariant
            i <= p.lookups@.len(),
            ls == p.lookups@.map_values(|l: Lookup| lookup_text(l)),
            names_view(stmts@) == ls.take(i as int),
        decreases p.lookups@.len() - i,
    {
        let ghost s0 = names_view(stmts@);
        let l = cat(cat(String::from_str("CREATE TABLE "), p.lookups[i].name.as_str()), " (\n  code VARCHAR(64),\n  PRIMARY KEY (code)\n)");
        assert(l@ =~= lookup_text(p.lookups@[i as int]));
        stmts.push(l);
        proof {
            assert(names_view(stmts@) =~= s0.push(lookup_text(p.lookups@[i as int])));
            assert(ls[i as int] == lookup_text(p.lookups@[i as int]));
            assert(ls.take(i + 1) =~= ls.take(i as int).push(ls[i as int]));
        }
        i += 1;
    }
    proof { assert(ls.take(ls.len() as int) =~= ls); assert(ls + ts.take(0) =~= ls); }
    let mut t: usize = 0;
    while t < p.tables.len()
        invariant
            t <= p.tables@.len(),
            pv == crate::manchester::frames::pairs_view(pks@),
            ts == p.tables@.map_values(|t: Table| table_text(t, pv, false)),
            names_view(stmts@) == ls + ts.take(t as int),
        decreases p.tables@.len() - t,
    {
        let ghost s0 = names_view(stmts@);
        let x = render_table(&p.tables[t], &pks, false);
        let ghost xv = x@;
        stmts.push(x);
        proof {
            assert(names_view(stmts@) =~= s0.push(xv));
            assert(ts[t as int] == xv);
            assert(ls + ts.take(t + 1) =~= (ls + ts.take(t as int)).push(ts[t as int]));
        }
        t += 1;
    }
    proof { assert(ts.take(ts.len() as int) =~= ts); assert(ls + ts + js.take(0) =~= ls + ts); }
    let mut j: usize = 0;
    while j < p.junctions.len()
        invariant
            j <= p.junctions@.len(),
            pv == crate::manchester::frames::pairs_view(pks@),
            js == p.junctions@.map_values(|j: Junction| junction_text(j, pv)),
            names_view(stmts@) == ls + ts + js.take(j as int),
        decreases p.junctions@.len() - j,
    {
        let ghost s0 = names_view(stmts@);
        let jn = &p.junctions[j];
        let st = jn.subject_table.as_str();
        let tt = jn.target_table.as_str();
        let spk = pk_of(&pks, st);
        let tpk = pk_of(&pks, tt);
        let s = cat(cat(cat(String::from_str("CREATE TABLE "), jn.name.as_str()), " (\n  "), st);
        let s = cat(cat(cat(s, "_id VARCHAR(255) NOT NULL,\n  "), tt), "_id VARCHAR(255) NOT NULL,\n  PRIMARY KEY (");
        let s = cat(cat(cat(cat(s, st), "_id, "), tt), "_id),\n  FOREIGN KEY (");
        let s = cat(cat(cat(cat(cat(s, st), "_id) REFERENCES "), st), "("), spk.as_str());
        let s = cat(cat(cat(s, "),\n  FOREIGN KEY ("), tt), "_id) REFERENCES ");
        let s = cat(cat(cat(cat(s, tt), "("), tpk.as_str()), ")\n)");
        assert(s@ =~= junction_text(p.junctions@[j as int], pv));
        stmts.push(s);
        proof {
            assert(names_view(stmts@) =~= s0.push(junction_text(p.junctions@[j as int], pv)));
            assert(js[j as int] == junction_text(p.junctions@[j as int], pv));
            assert(ls + ts + js.take(j + 1) =~= (ls + ts + js.take(j as int)).push(js[j as int]));
        }
        j += 1;
    }
    proof { assert(js.take(js.len() as int) =~= js); assert(names_view(stmts@) == plain_stmts(*p)); }
    let ghost plain = names_view(stmts@);
    let mut out: Vec<String> = Vec::new();
    let mut all_valid = true;
    let mut k: usize = 0;
    while k < stmts.len()
        invariant
            k <= stmts@.len(),
            out@.len() == k,
            plain == names_view(stmts@),
            pv == crate::manchester::frames::pairs_view(pks@),
            pv == pk_pairs(p.tables@),
            forall|i: int| 0 <= i < k ==> #[trigger] out@[i]@ == checked_stmt(*p, plain[i]),
            all_valid <==> (forall|i: int| 0 <= i < out@.len() ==> sql_accepts(#[trigger] out@[i]@)),
        decreases stmts@.len() - k,
    {
        let mut st = stmts[k].clone();
        let ghost sk = plain[k as int];
        assert(st@ == sk);
        if !sql_parses(st.as_str()) {
            let name = created_table(&st);
            let mut ti: usize = 0;
            let mut found: Option<usize> = None;
            while ti < p.tables.len()
                invariant
                    ti <= p.tables@.len(),
                    found matches Some(f) ==> f < p.tables@.len(),
                    found matches Some(f) ==> first_table(p.tables@, name@, 0) == Some(f as int),
                    found is None ==> first_table(p.tables@, name@, 0) == first_table(p.tables@, name@, ti as int),
                decreases p.tables@.len() - ti,
            {
                if found.is_none() && eq_str(p.tables[ti].name.as_str(), name.as_str()) {
                    found = Some(ti);
                }
                ti += 1;
            }
            match found {
                Some(f) => st = render_table(&p.tables[f], &pks, true),
                None => {},
            }
        }
        assert(st@ == checked_stmt(*p, sk));
        let ok = sql_parses(st.as_str());
        let ghost before = out@;
        let ghost sv = st@;
        out.push(st);
        proof {
            assert(out@ =~= before.push(out@[k as int]));
            assert forall|i: int| 0 <= i < k + 1 implies #[trigger] out@[i]@ == checked_stmt(*p, plain[i]) by {
                if i < k { assert(out@[i] == before[i]); }
            }
            if ok {
                assert forall|i: int| 0 <= i < out@.len() && all_valid implies sql_accepts(#[trigger] out@[i]@) by {
                    if i < k { assert(out@[i] == before[i]); }
                }
            } else {
                assert(!sql_accepts(out@[k as int]@));
            }
        }
        all_valid = all_valid && ok;
        proof {
            if all_valid {
                assert forall|i: int| 0 <= i < out@.len() implies sql_accepts(#[trigger] out@[i]@) by {
                    if i < k { assert(out@[i] == before[i]); }
                }
            } else {
                if !ok {
                    assert(!sql_accepts(out@[k as int]@));
                } else {
                    let w = choose|i: int| 0 <= i < before.len() && !sql_accepts(#[trigger] before[i]@);
                    assert(out@[w] == before[w]);
                }
            }
        }
        k += 1;
    }
    assert(all_valid <==> (forall|i: int| 0 <= i < out@.len() ==> sql_accepts(#[trigger] out@[i]@)));
    let r = (out, all_valid);
    assert(r.0@ == out@);
    r
}

/// The column counts of the tables that hold more than the surrogate, in table order.
pub open spec fn widths_of(tables: Seq<Table>) -> Seq<usize>
    decreases tables.len(),
{
    if tables.len() == 0 {
        Seq::empty()
    } else {
        widths_of(tables.drop_last()) + if tables.last().columns@.len() > 1 { seq![tables.last().columns@.len() as usize] } else { Seq::empty() }
    }
}

/// A table whose every property column is a foreign key: it carries no data attribute.
pub open spec fn attr_less(t: Table) -> bool {
    forall|k: int| 0 <= k < t.columns@.len() && (#[trigger] t.columns@[k]).prop is Some
        ==> exists|q: int| 0 <= q < t.fks@.len() && #[trigger] t.fks@[q].column@ == t.columns@[k].name@
}

/// How many of the tables that hold more than the surrogate carry no data attribute.
pub open spec fn attr_less_count(tables: Seq<Table>) -> nat
    decreases tables.len(),
{
    if tables.len() == 0 {
        0
    } else {
        attr_less_count(tables.drop_last()) + if tables.last().columns@.len() > 1 && attr_less(tables.last()) { 1nat } else { 0nat }
    }
}

/// How many tables have a label.
pub open spec fn labelled_count(tables: Seq<Table>) -> nat
    decreases tables.len(),
{
    if tables.len() == 0 { 0 } else { labelled_count(tables.drop_last()) + if tables.last().label is Some { 1nat } else { 0nat } }
}

/// The column counts of the plan's tables that hold more than the surrogate.
pub fn table_widths(p: &Plan) -> (r: Vec<usize>)
    ensures
        r@ == widths_of(p.tables@),
{
    let ghost ts = p.tables@;
    let mut out: Vec<usize> = Vec::new();
    let mut i: usize = 0;
    proof { assert(out@ =~= widths_of(ts.take(0))); }
    while i < p.tables.len()
        invariant
            i <= ts.len(),
            ts == p.tables@,
            out@ == widths_of(ts.take(i as int)),
        decreases ts.len() - i,
    {
        proof {
            let t = ts.take(i + 1);
            assert(t.drop_last() =~= ts.take(i as int));
            assert(t.last() == ts[i as int]);
        }
        let n = p.tables[i].columns.len();
        let ghost o0 = out@;
        if n > 1 {
            out.push(n);
            assert(out@ =~= o0 + seq![n]);
        } else {
            assert(o0 + Seq::<usize>::empty() =~= o0);
        }
        i += 1;
    }
    proof { assert(ts.take(ts.len() as int) =~= ts); }
    out
}

/// Whether a table carries no data attribute.
fn is_attr_less(t: &Table) -> (r: bool)
    ensures
        r == attr_less(*t),
{
    let mut k: usize = 0;
    while k < t.columns.len()
        invariant
            k <= t.columns@.len(),
            forall|j: int| 0 <= j < k && (#[trigger] t.columns@[j]).prop is Some
                ==> exists|q: int| 0 <= q < t.fks@.len() && #[trigger] t.fks@[q].column@ == t.columns@[j].name@,
        decreases t.columns@.len() - k,
    {
        if t.columns[k].prop.is_some() {
            let mut q: usize = 0;
            let mut found = false;
            while q < t.fks.len()
                invariant
                    q <= t.fks@.len(),
                    k < t.columns@.len(),
                    found <==> exists|q2: int| 0 <= q2 < q && #[trigger] t.fks@[q2].column@ == t.columns@[k as int].name@,
                decreases t.fks@.len() - q,
            {
                if eq_str(t.fks[q].column.as_str(), t.columns[k].name.as_str()) {
                    found = true;
                }
                q += 1;
            }
            if !found {
                return false;
            }
        }
        k += 1;
    }
    true
}

/// How many of the plan's tables that hold more than the surrogate carry no data attribute.
pub fn attr_less_tables(p: &Plan) -> (r: usize)
    ensures
        r == attr_less_count(p.tables@),
{
    let ghost ts = p.tables@;
    let mut n: usize = 0;
    let mut i: usize = 0;
    while i < p.tables.len()
        invariant
            i <= ts.len(),
            ts == p.tables@,
            n == attr_less_count(ts.take(i as int)),
            n <= i,
        decreases ts.len() - i,
    {
        proof {
            let t = ts.take(i + 1);
            assert(t.drop_last() =~= ts.take(i as int));
            assert(t.last() == ts[i as int]);
        }
        if p.tables[i].columns.len() > 1 && is_attr_less(&p.tables[i]) {
            n += 1;
        }
        i += 1;
    }
    proof { assert(ts.take(ts.len() as int) =~= ts); }
    n
}

/// How many of the plan's tables have a label.
pub fn labelled_tables(p: &Plan) -> (r: usize)
    ensures
        r == labelled_count(p.tables@),
{
    let ghost ts = p.tables@;
    let mut n: usize = 0;
    let mut i: usize = 0;
    while i < p.tables.len()
        invariant
            i <= ts.len(),
            ts == p.tables@,
            n == labelled_count(ts.take(i as int)),
            n <= i,
        decreases ts.len() - i,
    {
        proof {
            let t = ts.take(i + 1);
            assert(t.drop_last() =~= ts.take(i as int));
            assert(t.last() == ts[i as int]);
        }
        if p.tables[i].label.is_some() {
            n += 1;
        }
        i += 1;
    }
    proof { assert(ts.take(ts.len() as int) =~= ts); }
    n
}

} // verus!

