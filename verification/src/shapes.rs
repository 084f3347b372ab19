//! SHACL Core emission and ingestion.
//!
//! [`emit`] derives a shapes graph (Turtle) from the tiered facts the DDL planner consumes;
//! [`parse`] reads such a graph back into those facts, so a shapes file is a DDL
//! constraint source of its own. Each targeted class carries its rolled-up constraints
//! (own and inherited), so a plain SHACL Core validator sees exactly what the DDL realizes.
//! Emission is canonical: classes and property paths in sorted order.
//!
//! The correspondence: `@Attribute` ≡ `sh:path` + `sh:datatype`; `@Cardinality` ≡
//! `sh:minCount`/`sh:maxCount`; `@Enum` ≡ `sh:in`; an existential ≡ `sh:path` + `sh:class`
//! + `sh:minCount` ≥ 1; `@Relation` ≡ `sh:path` + `sh:class` without a minimum.
use vstd::prelude::*;
use crate::fragment::{Annotation, Axiom, names_view};
use crate::text::{cat, eq_str, fmt_u64, insert_sorted, strictly_sorted, compare_str, Cmp3, seq_lt, trim, strip_angles_spec, parse_u32_spec, tokens, drop_leading, drop_trailing};
use crate::fragment::{AxiomV, AnnotationV, axioms_view, annotations_view, close_quote, line_end, line_text};
use crate::manchester::frames::starts;
use crate::manchester::lower::join_spec;
use crate::text::{decimal, digit_value, digit_char, is_ws, trim_start, trim_end, all_digits};
use crate::fragment;

verus! {

/// The targets of the edges, viewed.
pub open spec fn targets(edges: Seq<(String, String)>) -> Seq<Seq<char>> {
    edges.map_values(|e: (String, String)| e.1@)
}

/// The told edges, viewed.
pub open spec fn edges_view(edges: Seq<(String, String)>) -> Seq<(Seq<char>, Seq<char>)> {
    edges.map_values(|e: (String, String)| (e.0@, e.1@))
}

/// The walk's state after the edges of `cur` from index `i` on: each target of `cur` not
/// yet seen is recorded and pushed on the stack.
pub open spec fn expand(edges: Seq<(Seq<char>, Seq<char>)>, cur: Seq<char>, i: int, seen: Seq<Seq<char>>, stack: Seq<Seq<char>>) -> (Seq<Seq<char>>, Seq<Seq<char>>)
    decreases edges.len() - i,
{
    if i < 0 || i >= edges.len() {
        (seen, stack)
    } else if edges[i].0 == cur && !seen.contains(edges[i].1) {
        expand(edges, cur, i + 1, seen.push(edges[i].1), stack.push(edges[i].1))
    } else {
        expand(edges, cur, i + 1, seen, stack)
    }
}

/// `expand` records as many classes as it pushes, and never fewer than it had.
pub proof fn lemma_expand_len(edges: Seq<(Seq<char>, Seq<char>)>, cur: Seq<char>, i: int, seen: Seq<Seq<char>>, stack: Seq<Seq<char>>)
    requires
        0 <= i <= edges.len(),
    ensures
        expand(edges, cur, i, seen, stack).0.len() >= seen.len(),
        expand(edges, cur, i, seen, stack).1.len() == stack.len() + expand(edges, cur, i, seen, stack).0.len() - seen.len(),
    decreases edges.len() - i,
{
    if i < edges.len() {
        if edges[i].0 == cur && !seen.contains(edges[i].1) {
            lemma_expand_len(edges, cur, i + 1, seen.push(edges[i].1), stack.push(edges[i].1));
        } else {
            lemma_expand_len(edges, cur, i + 1, seen, stack);
        }
    }
}

/// The classes seen by a stack walk over the edges (the last discovered is expanded next).
pub open spec fn walk(edges: Seq<(Seq<char>, Seq<char>)>, seen: Seq<Seq<char>>, stack: Seq<Seq<char>>) -> Seq<Seq<char>>
    decreases edges.len() + 1 - seen.len(), stack.len(),
{
    if stack.len() == 0 || seen.len() > edges.len() + 1 {
        seen
    } else {
        let st = expand(edges, stack.last(), 0, seen, stack.drop_last());
        proof { lemma_expand_len(edges, stack.last(), 0, seen, stack.drop_last()); }
        if st.0.len() > edges.len() + 1 {
            st.0
        } else {
            walk(edges, st.0, st.1)
        }
    }
}

/// `start` and every class it reaches over the told edges, in discovery order.
pub open spec fn ancestors_spec(edges: Seq<(Seq<char>, Seq<char>)>, start: Seq<char>) -> Seq<Seq<char>> {
    walk(edges, seq![start], seq![start])
}

/// `start` and every class it reaches over the told edges, in discovery order (a stack
/// walk: the last discovered is expanded next).
fn ancestors_of(edges: &Vec<(String, String)>, start: &String) -> (r: Vec<String>)
    ensures
        names_view(r@) == ancestors_spec(edges_view(edges@), start@),
        r@.len() >= 1,
        r@[0]@ == start@,
        names_view(r@).no_duplicates(),
{
    let ghost u = seq![start@] + targets(edges@);
    let ghost ev = edges_view(edges@);
    let mut seen: Vec<String> = Vec::new();
    let mut queue: Vec<String> = Vec::new();
    seen.push(start.clone());
    queue.push(start.clone());
    proof {
        assert(names_view(seen@) =~= seq![start@]);
        assert(names_view(queue@) =~= seq![start@]);
        assert(u[0] == start@);
    }
    while queue.len() > 0
        invariant
            u == seq![start@] + targets(edges@),
            ev == edges_view(edges@),
            seen@.len() >= 1,
            seen@[0]@ == start@,
            names_view(seen@).no_duplicates(),
            forall|i: int| 0 <= i < seen@.len() ==> u.contains(#[trigger] seen@[i]@),
            walk(ev, names_view(seen@), names_view(queue@)) == ancestors_spec(ev, start@),
        decreases u.len() - seen@.len(), queue@.len(),
    {
        let ghost s_in = names_view(seen@);
        let ghost q_in = names_view(queue@);
        let cur = queue.pop().unwrap();
        proof {
            assert(names_view(queue@) =~= q_in.drop_last());
            assert(cur@ == q_in.last());
            assert forall|i: int| 0 <= i < s_in.len() implies u.contains(#[trigger] s_in[i]) by {
                assert(u.contains(seen@[i]@));
            }
            lemma_distinct_bound(s_in, u);
        }
        let ghost seen0 = seen@.len();
        let ghost q0 = queue@.len();
        let mut e: usize = 0;
        proof { lemma_expand_len(ev, cur@, 0, s_in, q_in.drop_last()); }
        while e < edges.len()
            invariant
                u == seq![start@] + targets(edges@),
                ev == edges_view(edges@),
                e <= edges@.len(),
                seen@.len() >= seen0 >= 1,
                seen@[0]@ == start@,
                names_view(seen@).no_duplicates(),
                forall|i: int| 0 <= i < seen@.len() ==> u.contains(#[trigger] seen@[i]@),
                queue@.len() == q0 + seen@.len() - seen0,
                expand(ev, cur@, 0, s_in, q_in.drop_last()) == expand(ev, cur@, e as int, names_view(seen@), names_view(queue@)),
            decreases edges@.len() - e,
        {
            proof { assert(ev[e as int] == (edges@[e as int].0@, edges@[e as int].1@)); }
            if eq_str(edges[e].0.as_str(), cur.as_str()) {
                let sup = &edges[e].1;
                if !crate::manchester::lower::has(&seen, sup.as_str()) {
                    let ghost before = names_view(seen@);
                    let ghost qb = names_view(queue@);
                    seen.push(sup.clone());
                    queue.push(sup.clone());
                    proof {
                        assert(names_view(seen@) =~= before.push(sup@));
                        assert(names_view(queue@) =~= qb.push(sup@));
                        assert(u[e + 1] == sup@);
                        assert(u.contains(sup@));
                    }
                }
            }
            e += 1;
        }
        proof {
            assert forall|i: int| 0 <= i < names_view(seen@).len() implies u.contains(#[trigger] names_view(seen@)[i]) by {
                assert(u.contains(seen@[i]@));
            }
            lemma_distinct_bound(names_view(seen@), u);
            assert(u.len() == ev.len() + 1);
        }
    }
    seen
}

/// Distinct members of `u` number at most its length.
pub(crate) proof fn lemma_distinct_bound(sv: Seq<Seq<char>>, u: Seq<Seq<char>>)
    requires
        sv.no_duplicates(),
        forall|i: int| 0 <= i < sv.len() ==> u.contains(#[trigger] sv[i]),
    ensures
        sv.len() <= u.len(),
{
    sv.unique_seq_to_set();
    u.lemma_cardinality_of_set();
    assert(sv.to_set().subset_of(u.to_set())) by {
        assert forall|x: Seq<char>| sv.to_set().contains(x) implies u.to_set().contains(x) by {
            let i = choose|i: int| 0 <= i < sv.len() && sv[i] == x;
            assert(u.contains(sv[i]));
        }
    }
    vstd::seq_lib::seq_to_set_is_finite(u);
    vstd::set_lib::lemma_len_subset(sv.to_set(), u.to_set());
}


/// A copy of the names.
fn copy_names(v: &Vec<String>) -> (r: Vec<String>)
    ensures
        names_view(r@) == names_view(v@),
{
    let mut out: Vec<String> = Vec::new();
    let mut i: usize = 0;
    while i < v.len()
        invariant
            i <= v@.len(),
            names_view(out@) == names_view(v@).take(i as int),
        decreases v@.len() - i,
    {
        let ghost before = names_view(out@);
        out.push(v[i].clone());
        proof {
            assert(names_view(out@) =~= before.push(v@[i as int]@));
            assert(names_view(v@).take(i + 1) =~= names_view(v@).take(i as int).push(v@[i as int]@));
        }
        i += 1;
    }
    proof { assert(names_view(v@).take(v@.len() as int) =~= names_view(v@)); }
    out
}

/// The list stored first under `k`, if any.
pub open spec fn list_lookup(v: Seq<(Seq<char>, Seq<Seq<char>>)>, k: Seq<char>) -> Option<Seq<Seq<char>>>
    decreases v.len(),
{
    if v.len() == 0 {
        None
    } else if v[0].0 == k {
        Some(v[0].1)
    } else {
        list_lookup(v.drop_first(), k)
    }
}

/// The value stored under `k`.
fn lists_get(v: &Vec<(String, Vec<String>)>, k: &str) -> (r: Option<Vec<String>>)
    ensures
        match r {
            Some(x) => list_lookup(enums_view(v@), k@) == Some(names_view(x@)),
            None => list_lookup(enums_view(v@), k@) is None,
        },
{
    let ghost w = enums_view(v@);
    assert(w.skip(0) =~= w);
    let mut i: usize = 0;
    while i < v.len()
        invariant
            i <= v@.len(),
            w == enums_view(v@),
            list_lookup(w, k@) == list_lookup(w.skip(i as int), k@),
        decreases v@.len() - i,
    {
        proof {
            assert(w.skip(i as int)[0] == w[i as int]);
            assert(w.skip(i as int).drop_first() =~= w.skip(i + 1));
        }
        if eq_str(v[i].0.as_str(), k) {
            return Some(copy_names(&v[i].1));
        }
        i += 1;
    }
    None
}

/// Store `vals` under `k`, replacing what was there.
fn lists_set(v: &mut Vec<(String, Vec<String>)>, k: &str, vals: Vec<String>)
    ensures
        forall|x: Seq<char>| #[trigger] list_lookup(enums_view(final(v)@), x)
            == if x == k@ { Some(names_view(vals@)) } else { list_lookup(enums_view(old(v)@), x) },
{
    let ghost w = enums_view(v@);
    let ghost nv = names_view(vals@);
    let mut i: usize = 0;
    while i < v.len()
        invariant
            i <= v@.len(),
            w == enums_view(v@),
            w == enums_view(old(v)@),
            nv == names_view(vals@),
            forall|j: int| 0 <= j < i ==> w[j].0 != k@,
        decreases v@.len() - i,
    {
        if eq_str(v[i].0.as_str(), k) {
            v.set(i, (String::from_str(k), vals));
            proof {
                assert(enums_view(v@) =~= w.update(i as int, (k@, nv)));
                lemma_list_lookup_update(w, i as int, k@, nv);
            }
            return;
        }
        i += 1;
    }
    v.push((String::from_str(k), vals));
    proof {
        assert(enums_view(v@) =~= w.push((k@, nv)));
        lemma_list_lookup_push(w, k@, nv);
    }
}

/// Replacing the first entry of `k` at `i`.
proof fn lemma_list_lookup_update(w: Seq<(Seq<char>, Seq<Seq<char>>)>, i: int, k: Seq<char>, nv: Seq<Seq<char>>)
    requires
        0 <= i < w.len(),
        w[i].0 == k,
        forall|j: int| 0 <= j < i ==> w[j].0 != k,
    ensures
        forall|x: Seq<char>| #[trigger] list_lookup(w.update(i, (k, nv)), x)
            == if x == k { Some(nv) } else { list_lookup(w, x) },
    decreases i,
{
    let w2 = w.update(i, (k, nv));
    if i == 0 {
        assert(w2.drop_first() =~= w.drop_first());
    } else {
        assert(w2.drop_first() =~= w.drop_first().update(i - 1, (k, nv)));
        lemma_list_lookup_update(w.drop_first(), i - 1, k, nv);
    }
    assert forall|x: Seq<char>| #[trigger] list_lookup(w2, x) == if x == k { Some(nv) } else { list_lookup(w, x) } by {
        assert(w2[0] == if i == 0 { (k, nv) } else { w[0] });
        assert(w2.len() > 0 && w.len() > 0);
        assert(list_lookup(w2, x) == if w2[0].0 == x { Some(w2[0].1) } else { list_lookup(w2.drop_first(), x) });
        assert(list_lookup(w, x) == if w[0].0 == x { Some(w[0].1) } else { list_lookup(w.drop_first(), x) });
        if i > 0 {
            assert(list_lookup(w2.drop_first(), x) == if x == k { Some(nv) } else { list_lookup(w.drop_first(), x) });
        }
    }
}

/// Appending a new key.
proof fn lemma_list_lookup_push(w: Seq<(Seq<char>, Seq<Seq<char>>)>, k: Seq<char>, nv: Seq<Seq<char>>)
    requires
        forall|j: int| 0 <= j < w.len() ==> w[j].0 != k,
    ensures
        forall|x: Seq<char>| #[trigger] list_lookup(w.push((k, nv)), x)
            == if x == k { Some(nv) } else { list_lookup(w, x) },
    decreases w.len(),
{
    let w2 = w.push((k, nv));
    if w.len() > 0 {
        assert(w2.drop_first() =~= w.drop_first().push((k, nv)));
        lemma_list_lookup_push(w.drop_first(), k, nv);
        assert forall|x: Seq<char>| #[trigger] list_lookup(w2, x) == if x == k { Some(nv) } else { list_lookup(w, x) } by {
            assert(w2[0] == w[0]);
            assert(list_lookup(w2, x) == if w2[0].0 == x { Some(w2[0].1) } else { list_lookup(w2.drop_first(), x) });
            assert(list_lookup(w, x) == if w[0].0 == x { Some(w[0].1) } else { list_lookup(w.drop_first(), x) });
            assert(list_lookup(w2.drop_first(), x) == if x == k { Some(nv) } else { list_lookup(w.drop_first(), x) });
        }
    } else {
        assert forall|x: Seq<char>| #[trigger] list_lookup(w2, x) == if x == k { Some(nv) } else { list_lookup(w, x) } by {
            assert(w2.drop_first() =~= Seq::<(Seq<char>, Seq<Seq<char>>)>::empty());
            assert(w2[0] == (k, nv));
            assert(list_lookup(w2, x) == if w2[0].0 == x { Some(w2[0].1) } else { list_lookup(w2.drop_first(), x) });
            assert(list_lookup(w2.drop_first(), x) is None);
            assert(list_lookup(w, x) is None);
        }
    }
}

/// The cardinalities, viewed.
pub open spec fn cards_view(v: Seq<(String, String, u32, Option<u32>)>) -> Seq<(Seq<char>, Seq<char>, u32, Option<u32>)> {
    v.map_values(|e: (String, String, u32, Option<u32>)| (e.0@, e.1@, e.2, e.3))
}

/// The bounds stored first for `(c, p)`, if any.
pub open spec fn card_lookup(v: Seq<(Seq<char>, Seq<char>, u32, Option<u32>)>, c: Seq<char>, p: Seq<char>) -> Option<(u32, Option<u32>)>
    decreases v.len(),
{
    if v.len() == 0 {
        None
    } else if v[0].0 == c && v[0].1 == p {
        Some((v[0].2, v[0].3))
    } else {
        card_lookup(v.drop_first(), c, p)
    }
}

/// The bounds stored for `(c, p)`.
fn cards_get(v: &Vec<(String, String, u32, Option<u32>)>, c: &str, p: &str) -> (r: Option<(u32, Option<u32>)>)
    ensures
        r == card_lookup(cards_view(v@), c@, p@),
{
    let ghost w = cards_view(v@);
    assert(w.skip(0) =~= w);
    let mut i: usize = 0;
    while i < v.len()
        invariant
            i <= v@.len(),
            w == cards_view(v@),
            card_lookup(w, c@, p@) == card_lookup(w.skip(i as int), c@, p@),
        decreases v@.len() - i,
    {
        proof {
            assert(w.skip(i as int)[0] == w[i as int]);
            assert(w.skip(i as int).drop_first() =~= w.skip(i + 1));
        }
        if eq_str(v[i].0.as_str(), c) && eq_str(v[i].1.as_str(), p) {
            return Some((v[i].2, v[i].3));
        }
        i += 1;
    }
    None
}

/// Store the bounds of `(c, p)`, replacing what was there.
fn cards_set(v: &mut Vec<(String, String, u32, Option<u32>)>, c: &str, p: &str, min: u32, max: Option<u32>)
    ensures
        forall|x: Seq<char>, y: Seq<char>| #[trigger] card_lookup(cards_view(final(v)@), x, y)
            == if x == c@ && y == p@ { Some((min, max)) } else { card_lookup(cards_view(old(v)@), x, y) },
{
    let ghost w = cards_view(v@);
    let mut i: usize = 0;
    while i < v.len()
        invariant
            i <= v@.len(),
            w == cards_view(v@),
            w == cards_view(old(v)@),
            forall|j: int| 0 <= j < i ==> !(w[j].0 == c@ && w[j].1 == p@),
        decreases v@.len() - i,
    {
        if eq_str(v[i].0.as_str(), c) && eq_str(v[i].1.as_str(), p) {
            v.set(i, (String::from_str(c), String::from_str(p), min, max));
            proof {
                assert(cards_view(v@) =~= w.update(i as int, (c@, p@, min, max)));
                lemma_card_lookup_update(w, i as int, c@, p@, min, max);
            }
            return;
        }
        i += 1;
    }
    v.push((String::from_str(c), String::from_str(p), min, max));
    proof {
        assert(cards_view(v@) =~= w.push((c@, p@, min, max)));
        lemma_card_lookup_push(w, c@, p@, min, max);
    }
}

/// Replacing the first entry of `(c, p)` at `i`.
proof fn lemma_card_lookup_update(w: Seq<(Seq<char>, Seq<char>, u32, Option<u32>)>, i: int, c: Seq<char>, p: Seq<char>, min: u32, max: Option<u32>)
    requires
        0 <= i < w.len(),
        w[i].0 == c && w[i].1 == p,
        forall|j: int| 0 <= j < i ==> !(w[j].0 == c && w[j].1 == p),
    ensures
        forall|x: Seq<char>, y: Seq<char>| #[trigger] card_lookup(w.update(i, (c, p, min, max)), x, y)
            == if x == c && y == p { Some((min, max)) } else { card_lookup(w, x, y) },
    decreases i,
{
    let w2 = w.update(i, (c, p, min, max));
    if i == 0 {
        assert(w2.drop_first() =~= w.drop_first());
    } else {
        assert(w2.drop_first() =~= w.drop_first().update(i - 1, (c, p, min, max)));
        lemma_card_lookup_update(w.drop_first(), i - 1, c, p, min, max);
    }
    assert forall|x: Seq<char>, y: Seq<char>| #[trigger] card_lookup(w2, x, y)
        == if x == c && y == p { Some((min, max)) } else { card_lookup(w, x, y) } by {
        assert(w2[0] == if i == 0 { (c, p, min, max) } else { w[0] });
        assert(w2.len() > 0 && w.len() > 0);
        assert(card_lookup(w2, x, y) == if w2[0].0 == x && w2[0].1 == y { Some((w2[0].2, w2[0].3)) } else { card_lookup(w2.drop_first(), x, y) });
        assert(card_lookup(w, x, y) == if w[0].0 == x && w[0].1 == y { Some((w[0].2, w[0].3)) } else { card_lookup(w.drop_first(), x, y) });
        if i > 0 {
            assert(card_lookup(w2.drop_first(), x, y) == if x == c && y == p { Some((min, max)) } else { card_lookup(w.drop_first(), x, y) });
        }
    }
}

/// Appending a new pair.
proof fn lemma_card_lookup_push(w: Seq<(Seq<char>, Seq<char>, u32, Option<u32>)>, c: Seq<char>, p: Seq<char>, min: u32, max: Option<u32>)
    requires
        forall|j: int| 0 <= j < w.len() ==> !(w[j].0 == c && w[j].1 == p),
    ensures
        forall|x: Seq<char>, y: Seq<char>| #[trigger] card_lookup(w.push((c, p, min, max)), x, y)
            == if x == c && y == p { Some((min, max)) } else { card_lookup(w, x, y) },
    decreases w.len(),
{
    let w2 = w.push((c, p, min, max));
    if w.len() > 0 {
        assert(w2.drop_first() =~= w.drop_first().push((c, p, min, max)));
        lemma_card_lookup_push(w.drop_first(), c, p, min, max);
        assert forall|x: Seq<char>, y: Seq<char>| #[trigger] card_lookup(w2, x, y)
            == if x == c && y == p { Some((min, max)) } else { card_lookup(w, x, y) } by {
            assert(w2[0] == w[0]);
            assert(card_lookup(w2, x, y) == if w2[0].0 == x && w2[0].1 == y { Some((w2[0].2, w2[0].3)) } else { card_lookup(w2.drop_first(), x, y) });
            assert(card_lookup(w, x, y) == if w[0].0 == x && w[0].1 == y { Some((w[0].2, w[0].3)) } else { card_lookup(w.drop_first(), x, y) });
            assert(card_lookup(w2.drop_first(), x, y) == if x == c && y == p { Some((min, max)) } else { card_lookup(w.drop_first(), x, y) });
        }
    } else {
        assert forall|x: Seq<char>, y: Seq<char>| #[trigger] card_lookup(w2, x, y)
            == if x == c && y == p { Some((min, max)) } else { card_lookup(w, x, y) } by {
            assert(w2.drop_first() =~= Seq::<(Seq<char>, Seq<char>, u32, Option<u32>)>::empty());
            assert(w2[0] == (c, p, min, max));
            assert(card_lookup(w2, x, y) == if w2[0].0 == x && w2[0].1 == y { Some((w2[0].2, w2[0].3)) } else { card_lookup(w2.drop_first(), x, y) });
            assert(card_lookup(w2.drop_first(), x, y) is None);
            assert(card_lookup(w, x, y) is None);
        }
    }
}

/// `e` with `(k, v)` inserted before the first larger key, unless `k` is there already.
pub open spec fn sorted_put<V>(e: Seq<(Seq<char>, V)>, k: Seq<char>, v: V) -> Seq<(Seq<char>, V)>
    decreases e.len(),
{
    if e.len() == 0 {
        seq![(k, v)]
    } else if e[0].0 == k {
        e
    } else if seq_lt(k, e[0].0) {
        seq![(k, v)] + e
    } else {
        seq![e[0]] + sorted_put(e.drop_first(), k, v)
    }
}

/// The rolled-up constraints on one property path of a class.
struct PropShape {
    datatype: Option<String>,
    class: Option<String>,
    min: Option<u32>,
    max: Option<u32>,
    values: Option<Vec<String>>,
}

/// The constraints on one property path, viewed.
pub struct ShapeV {
    pub datatype: Option<Seq<char>>,
    pub class: Option<Seq<char>>,
    pub min: Option<u32>,
    pub max: Option<u32>,
    pub values: Option<Seq<Seq<char>>>,
}

impl View for PropShape {
    type V = ShapeV;

    closed spec fn view(&self) -> ShapeV {
        ShapeV {
            datatype: opt_view(self.datatype),
            class: opt_view(self.class),
            min: self.min,
            max: self.max,
            values: match self.values {
                Some(v) => Some(names_view(v@)),
                None => None,
            },
        }
    }
}

/// The property shapes, viewed.
spec fn props_view(v: Seq<(String, PropShape)>) -> Seq<(Seq<char>, ShapeV)> {
    v.map_values(|e: (String, PropShape)| (e.0@, e.1@))
}

/// Keep `shape` for `path` at its sorted place, unless `path` has a shape already.
fn prop_put(props: &mut Vec<(String, PropShape)>, path: &str, shape: PropShape)
    ensures
        props_view(final(props)@) == sorted_put(props_view(old(props)@), path@, shape@),
{
    let ghost e = props_view(props@);
    let ghost k = path@;
    let ghost sv = shape@;
    let mut i: usize = 0;
    proof { assert(e.skip(0) =~= e); assert(e.take(0) + sorted_put(e.skip(0), k, sv) =~= sorted_put(e, k, sv)); }
    while i < props.len()
        invariant
            i <= props@.len(),
            e == props_view(props@),
            e == props_view(old(props)@),
            k == path@,
            sv == shape@,
            sorted_put(e, k, sv) == e.take(i as int) + sorted_put(e.skip(i as int), k, sv),
        ensures
            i <= props@.len(),
            e == props_view(props@),
            sorted_put(e, k, sv) == e.take(i as int) + sorted_put(e.skip(i as int), k, sv),
            i == props@.len() || (seq_lt(k, e[i as int].0) && e[i as int].0 != k),
        decreases props@.len() - i,
    {
        let c = compare_str(props[i].0.as_str(), path);
        proof { assert(e.skip(i as int)[0] == e[i as int]); assert(e[i as int].0 == props@[i as int].0@); }
        match c {
            Cmp3::Less => {
                proof {
                    assert(e.skip(i as int).drop_first() =~= e.skip(i + 1));
                    assert(e.take(i + 1) =~= e.take(i as int) + seq![e[i as int]]);
                    assert(e.take(i as int) + sorted_put(e.skip(i as int), k, sv)
                        =~= e.take(i + 1) + sorted_put(e.skip(i + 1), k, sv));
                }
            },
            Cmp3::Equal => {
                proof { assert(e.take(i as int) + e.skip(i as int) =~= e); }
                return;
            },
            Cmp3::Greater => {
                break;
            },
        }
        i += 1;
    }
    let ghost ent = (path@, shape@);
    props.insert(i, (String::from_str(path), shape));
    proof {
        if i < e.len() {
            assert(e.skip(i as int)[0] == e[i as int]);
        }
        assert(sorted_put(e.skip(i as int), k, sv) =~= seq![ent] + e.skip(i as int));
        assert(props_view(props@) =~= e.take(i as int) + (seq![ent] + e.skip(i as int)));
    }
}

/// `<x>`.
fn angled(x: &str) -> (r: String)
    ensures
        r@ == angled_spec(x@),
{
    cat(cat(String::from_str("<"), x), ">")
}

/// `xsd:local` for an XML Schema datatype, else `<iri>`.
fn datatype_short(dt: &String) -> (r: String)
    ensures
        r@ == datatype_text(dt@),
{
    let ns = "http://www.w3.org/2001/XMLSchema#";
    let v = crate::text::chars_of(dt.as_str());
    let nl = crate::text::chars_of(ns).len();
    if crate::manchester::lower::starts(dt, ns) && nl <= v.len() {
        let r = cat(String::from_str("xsd:"), crate::text::string_of(&v, nl, v.len()).as_str());
        assert(v@.subrange(nl as int, v@.len() as int) =~= dt@.skip(nl as int));
        r
    } else {
        angled(dt.as_str())
    }
}

/// The relations, viewed: (holder, property, target, existential).
pub open spec fn exts_view(v: Seq<(String, String, String, bool)>) -> Seq<(Seq<char>, Seq<char>, Seq<char>, bool)> {
    v.map_values(|e: (String, String, String, bool)| (e.0@, e.1@, e.2@, e.3))
}

/// The attributes, viewed: (class, property, datatype).
pub open spec fn attrs_view(v: Seq<(String, String, String)>) -> Seq<(Seq<char>, Seq<char>, Seq<char>)> {
    v.map_values(|e: (String, String, String)| (e.0@, e.1@, e.2@))
}

/// Relation `a` wins over `b`: an existential over a non-existential, else the lesser target.
pub open spec fn beats(a: (Seq<char>, Seq<char>, Seq<char>, bool), b: (Seq<char>, Seq<char>, Seq<char>, bool)) -> bool {
    if a.3 != b.3 { a.3 } else { seq_lt(a.2, b.2) }
}

/// The index of the winning relation of `h` on `p` among the first `i` (the earliest of
/// equals).
pub open spec fn best_upto(x: Seq<(Seq<char>, Seq<char>, Seq<char>, bool)>, h: Seq<char>, p: Seq<char>, i: int) -> Option<int>
    decreases i,
{
    if i <= 0 {
        None
    } else {
        let b = best_upto(x, h, p, i - 1);
        if x[i - 1].0 == h && x[i - 1].1 == p {
            match b {
                None => Some(i - 1),
                Some(j) => if beats(x[i - 1], x[j]) { Some(i - 1) } else { Some(j) },
            }
        } else {
            b
        }
    }
}

/// How many of the first `i` relations are of `h` on `p`.
pub open spec fn count_upto(x: Seq<(Seq<char>, Seq<char>, Seq<char>, bool)>, h: Seq<char>, p: Seq<char>, i: int) -> nat
    decreases i,
{
    if i <= 0 {
        0
    } else {
        count_upto(x, h, p, i - 1) + if x[i - 1].0 == h && x[i - 1].1 == p { 1nat } else { 0nat }
    }
}

/// The winner is one of the relations counted, and there is one when any is counted.
proof fn lemma_best_count(x: Seq<(Seq<char>, Seq<char>, Seq<char>, bool)>, h: Seq<char>, p: Seq<char>, i: int)
    requires
        0 <= i <= x.len(),
    ensures
        count_upto(x, h, p, i) <= i,
        best_upto(x, h, p, i) is Some <==> count_upto(x, h, p, i) > 0,
        best_upto(x, h, p, i) matches Some(b) ==> 0 <= b < i && x[b].0 == h && x[b].1 == p,
    decreases i,
{
    if i > 0 {
        lemma_best_count(x, h, p, i - 1);
    }
}

/// The winner among a holder's restrictions on `p`: the first existential with the least
/// target, else the least target; with the number of restrictions on `p`.
fn winner(exts: &Vec<(String, String, String, bool)>, holder: &str, p: &str) -> (r: Option<(usize, usize)>)
    ensures
        match best_upto(exts_view(exts@), holder@, p@, exts@.len() as int) {
            Some(w) => r == Some((w as usize, count_upto(exts_view(exts@), holder@, p@, exts@.len() as int) as usize)),
            None => r is None,
        },
        r matches Some((w, n)) ==> w < exts@.len(),
{
    let ghost x = exts_view(exts@);
    let mut best: Option<usize> = None;
    let mut n: usize = 0;
    let mut i: usize = 0;
    while i < exts.len()
        invariant
            i <= exts@.len(),
            x == exts_view(exts@),
            n <= i,
            n == count_upto(x, holder@, p@, i as int),
            match best_upto(x, holder@, p@, i as int) {
                Some(b) => best == Some(b as usize) && 0 <= b < i,
                None => best is None,
            },
        decreases exts@.len() - i,
    {
        proof { lemma_best_count(x, holder@, p@, i as int); }
        proof { assert(x[i as int] == (exts@[i as int].0@, exts@[i as int].1@, exts@[i as int].2@, exts@[i as int].3)); }
        if eq_str(exts[i].0.as_str(), holder) && eq_str(exts[i].1.as_str(), p) {
            n += 1;
            match best {
                None => best = Some(i),
                Some(b) => {
                    proof { assert(x[b as int] == (exts@[b as int].0@, exts@[b as int].1@, exts@[b as int].2@, exts@[b as int].3)); }
                    let better = if exts[i].3 != exts[b].3 {
                        exts[i].3
                    } else {
                        match compare_str(exts[i].2.as_str(), exts[b].2.as_str()) {
                            Cmp3::Less => true,
                            _ => false,
                        }
                    };
                    if better {
                        best = Some(i);
                    }
                },
            }
        }
        i += 1;
    }
    proof { lemma_best_count(x, holder@, p@, i as int); }
    match best {
        Some(b) => Some((b, n)),
        None => None,
    }
}

/// The shape `attrs[i]` gives its property, held by `h`: its datatype, the bounds told for
/// `(h, p)` and the values of `p`.
pub open spec fn attr_shape(a: (Seq<char>, Seq<char>, Seq<char>), cards: spec_fn(Seq<char>, Seq<char>) -> Option<(u32, Option<u32>)>, enums: spec_fn(Seq<char>) -> Option<Seq<Seq<char>>>, h: Seq<char>) -> ShapeV {
    let c = cards(h, a.1);
    ShapeV {
        datatype: Some(a.2),
        class: None,
        min: match c { Some(b) => Some(b.0), None => None },
        max: match c { Some(b) => b.1, None => None },
        values: enums(a.1),
    }
}

/// The shapes after the attributes of holder `h` from index `i` on (a path keeps its first
/// shape).
pub open spec fn attrs_fold(props: Seq<(Seq<char>, ShapeV)>, a: Seq<(Seq<char>, Seq<char>, Seq<char>)>, cards: spec_fn(Seq<char>, Seq<char>) -> Option<(u32, Option<u32>)>, enums: spec_fn(Seq<char>) -> Option<Seq<Seq<char>>>, h: Seq<char>, i: int) -> Seq<(Seq<char>, ShapeV)>
    decreases a.len() - i,
{
    if i < 0 || i >= a.len() {
        props
    } else {
        let p2 = if a[i].0 == h { sorted_put(props, a[i].1, attr_shape(a[i], cards, enums, h)) } else { props };
        attrs_fold(p2, a, cards, enums, h, i + 1)
    }
}

/// `x[i]` is the first relation of its holder on its property.
pub open spec fn first_on(x: Seq<(Seq<char>, Seq<char>, Seq<char>, bool)>, i: int) -> bool {
    forall|k: int| 0 <= k < i ==> !(#[trigger] x[k].0 == x[i].0 && x[k].1 == x[i].1)
}

/// The shape of the winning relation `w` of holder `h` on `p` among `n`: its target, and
/// the told bounds when it is the only one (else at least one for an existential).
pub open spec fn ext_shape(x: Seq<(Seq<char>, Seq<char>, Seq<char>, bool)>, cards: spec_fn(Seq<char>, Seq<char>) -> Option<(u32, Option<u32>)>, h: Seq<char>, p: Seq<char>, w: int, n: nat) -> ShapeV {
    let dflt: u32 = if x[w].3 { 1 } else { 0 };
    let b: (u32, Option<u32>) = if n == 1 {
        match cards(h, p) {
            Some(c) => c,
            None => (dflt, None),
        }
    } else {
        (dflt, None)
    };
    ShapeV { datatype: None, class: Some(x[w].2), min: Some(b.0), max: b.1, values: None }
}

/// The shapes after the relations of holder `h` from index `i` on.
pub open spec fn exts_fold(props: Seq<(Seq<char>, ShapeV)>, x: Seq<(Seq<char>, Seq<char>, Seq<char>, bool)>, cards: spec_fn(Seq<char>, Seq<char>) -> Option<(u32, Option<u32>)>, h: Seq<char>, i: int) -> Seq<(Seq<char>, ShapeV)>
    decreases x.len() - i,
{
    if i < 0 || i >= x.len() {
        props
    } else {
        let p = x[i].1;
        let p2 = if x[i].0 == h && first_on(x, i) {
            match best_upto(x, h, p, x.len() as int) {
                Some(w) => sorted_put(props, p, ext_shape(x, cards, h, p, w, count_upto(x, h, p, x.len() as int))),
                None => props,
            }
        } else {
            props
        };
        exts_fold(p2, x, cards, h, i + 1)
    }
}

/// The shapes after the holders from index `j` on.
pub open spec fn holders_fold(props: Seq<(Seq<char>, ShapeV)>, hs: Seq<Seq<char>>, a: Seq<(Seq<char>, Seq<char>, Seq<char>)>, x: Seq<(Seq<char>, Seq<char>, Seq<char>, bool)>, cards: spec_fn(Seq<char>, Seq<char>) -> Option<(u32, Option<u32>)>, enums: spec_fn(Seq<char>) -> Option<Seq<Seq<char>>>, j: int) -> Seq<(Seq<char>, ShapeV)>
    decreases hs.len() - j,
{
    if j < 0 || j >= hs.len() {
        props
    } else {
        holders_fold(exts_fold(attrs_fold(props, a, cards, enums, hs[j], 0), x, cards, hs[j], 0), hs, a, x, cards, enums, j + 1)
    }
}

/// The rolled-up property shapes of `class`, in path order: over the class and its
/// ancestors in discovery order, the first shape of each path wins.
pub open spec fn block_props(edges: Seq<(Seq<char>, Seq<char>)>, a: Seq<(Seq<char>, Seq<char>, Seq<char>)>, x: Seq<(Seq<char>, Seq<char>, Seq<char>, bool)>, cards: spec_fn(Seq<char>, Seq<char>) -> Option<(u32, Option<u32>)>, enums: spec_fn(Seq<char>) -> Option<Seq<Seq<char>>>, class: Seq<char>) -> Seq<(Seq<char>, ShapeV)> {
    holders_fold(Seq::empty(), ancestors_spec(edges, class), a, x, cards, enums, 0)
}

/// A datatype as written in a shape: `xsd:local` for an XML Schema datatype, else `<iri>`.
pub open spec fn datatype_text(dt: Seq<char>) -> Seq<char> {
    let ns = "http://www.w3.org/2001/XMLSchema#"@;
    if ns.len() <= dt.len() && dt.take(ns.len() as int) == ns {
        "xsd:"@ + dt.skip(ns.len() as int)
    } else {
        "<"@ + dt + ">"@
    }
}

/// `"v"`.
pub open spec fn quoted(v: Seq<char>) -> Seq<char> {
    "\""@ + v + "\""@
}

/// `<x>`.
pub open spec fn angled_spec(x: Seq<char>) -> Seq<char> {
    "<"@ + x + ">"@
}

/// The path, uniqueness, datatype and class lines of a property shape.
pub open spec fn prop_head(path: Seq<char>, sh: ShapeV, unique: bool) -> Seq<char> {
    "    sh:property [\n        sh:path "@ + angled_spec(path) + " ;\n"@
        + (if unique { "        kvasir:unique true ;\n"@ } else { Seq::empty() })
        + (match sh.datatype { Some(dt) => "        sh:datatype "@ + datatype_text(dt) + " ;\n"@, None => Seq::empty() })
        + (match sh.class { Some(c) => "        sh:class "@ + angled_spec(c) + " ;\n"@, None => Seq::empty() })
}

/// The value, bound and closing lines of a property shape; the last one closes the node
/// shape.
pub open spec fn prop_tail(sh: ShapeV, last: bool) -> Seq<char> {
    (match sh.values {
        Some(vs) => "        sh:in ("@ + join_spec(vs.map_values(|v: Seq<char>| quoted(v)), " "@) + ") ;\n"@,
        None => Seq::empty(),
    })
        + (match sh.min { Some(m) => if m > 0 { "        sh:minCount "@ + decimal(m as nat) + " ;\n"@ } else { Seq::empty() }, None => Seq::empty() })
        + (match sh.max { Some(m) => "        sh:maxCount "@ + decimal(m as nat) + " ;\n"@, None => Seq::empty() })
        + (if last { "    ] .\n\n"@ } else { "    ] ;\n"@ })
}

/// The text of one property shape.
pub open spec fn prop_text(path: Seq<char>, sh: ShapeV, unique: bool, last: bool) -> Seq<char> {
    prop_head(path, sh, unique) + prop_tail(sh, last)
}

/// The text of the first `i` property shapes.
pub open spec fn props_upto(ps: Seq<(Seq<char>, ShapeV)>, uniq: Seq<Seq<char>>, i: int) -> Seq<char>
    decreases i,
{
    if i <= 0 || i > ps.len() {
        Seq::empty()
    } else {
        props_upto(ps, uniq, i - 1) + prop_text(ps[i - 1].0, ps[i - 1].1, uniq.contains(ps[i - 1].0), i == ps.len())
    }
}

/// The node shape of `class` with key `key` and property shapes `ps`; nothing without
/// property shapes.
pub open spec fn block_text(class: Seq<char>, key: Option<Seq<Seq<char>>>, ps: Seq<(Seq<char>, ShapeV)>, uniq: Seq<Seq<char>>) -> Seq<char> {
    if ps.len() == 0 {
        Seq::empty()
    } else {
        "<"@ + class + "Shape>\n    a sh:NodeShape ;\n    sh:targetClass "@ + angled_spec(class) + " ;\n"@
            + (match key {
                Some(ks) => "    kvasir:key ( "@ + join_spec(ks.map_values(|k: Seq<char>| angled_spec(k)), " "@) + " ) ;\n"@,
                None => Seq::empty(),
            })
            + props_upto(ps, uniq, ps.len() as int)
    }
}

/// `s` with `v` pushed holds what `s` holds, and `v`.
proof fn lemma_push_contains<A>(s: Seq<A>, v: A, x: A)
    ensures
        s.push(v).contains(x) <==> (s.contains(x) || x == v),
{
    if s.contains(x) {
        let i = choose|i: int| 0 <= i < s.len() && s[i] == x;
        assert(s.push(v)[i] == x);
    }
    if x == v {
        assert(s.push(v)[s.len() as int] == v);
    }
    if s.push(v).contains(x) {
        let i = choose|i: int| 0 <= i < s.push(v).len() && s.push(v)[i] == x;
        if i < s.len() {
            assert(s[i] == x);
        }
    }
}

/// The told subclass edges of the axioms: `SubClassOf` and the parts of an
/// `EquivalentToIntersection`, in order.
pub open spec fn ax_edges(axs: Seq<AxiomV>) -> Seq<(Seq<char>, Seq<char>)>
    decreases axs.len(),
{
    if axs.len() == 0 {
        Seq::empty()
    } else {
        ax_edges(axs.drop_last()) + match axs.last() {
            AxiomV::SubClassOf(s, sup) => seq![(s, sup)],
            AxiomV::EquivalentToIntersection(c, parts) => parts.map_values(|q: Seq<char>| (c, q)),
            _ => Seq::empty(),
        }
    }
}

/// An XML Schema datatype name.
pub open spec fn is_xsd(f: Seq<char>) -> bool {
    starts(f, "http://www.w3.org/2001/XMLSchema#"@) || starts(f, "xsd:"@)
}

/// The existential relations of the axioms whose filler is a class, in order.
pub open spec fn ax_exts(axs: Seq<AxiomV>) -> Seq<(Seq<char>, Seq<char>, Seq<char>, bool)>
    decreases axs.len(),
{
    if axs.len() == 0 {
        Seq::empty()
    } else {
        ax_exts(axs.drop_last()) + match axs.last() {
            AxiomV::SubClassOfExistential(s, r, f) => if is_xsd(f) { Seq::empty() } else { seq![(s, r, f, true)] },
            _ => Seq::empty(),
        }
    }
}

/// The `@Relation` annotations, as optional relations, in order.
pub open spec fn ann_rels(anns: Seq<AnnotationV>) -> Seq<(Seq<char>, Seq<char>, Seq<char>, bool)>
    decreases anns.len(),
{
    if anns.len() == 0 {
        Seq::empty()
    } else {
        ann_rels(anns.drop_last()) + match anns.last() {
            AnnotationV::Relation(c, p, t) => seq![(c, p, t, false)],
            _ => Seq::empty(),
        }
    }
}

/// The `@Attribute` annotations, in order.
pub open spec fn ann_attrs(anns: Seq<AnnotationV>) -> Seq<(Seq<char>, Seq<char>, Seq<char>)>
    decreases anns.len(),
{
    if anns.len() == 0 {
        Seq::empty()
    } else {
        ann_attrs(anns.drop_last()) + match anns.last() {
            AnnotationV::Attribute(c, p, x) => seq![(c, p, x)],
            _ => Seq::empty(),
        }
    }
}

/// The `@Unique` properties, in order.
pub open spec fn ann_uniques(anns: Seq<AnnotationV>) -> Seq<Seq<char>>
    decreases anns.len(),
{
    if anns.len() == 0 {
        Seq::empty()
    } else {
        ann_uniques(anns.drop_last()) + match anns.last() {
            AnnotationV::Unique(p) => seq![p],
            _ => Seq::empty(),
        }
    }
}

/// The bounds of the last `@Cardinality` on `(c, p)`.
pub open spec fn card_last(anns: Seq<AnnotationV>, c: Seq<char>, p: Seq<char>) -> Option<(u32, Option<u32>)>
    decreases anns.len(),
{
    if anns.len() == 0 {
        None
    } else {
        match anns.last() {
            AnnotationV::Cardinality(c2, p2, mn, mx) => if c2 == c && p2 == p { Some((mn, mx)) } else { card_last(anns.drop_last(), c, p) },
            _ => card_last(anns.drop_last(), c, p),
        }
    }
}

/// The values of the last `@Enum` on `p`.
pub open spec fn enum_last(anns: Seq<AnnotationV>, p: Seq<char>) -> Option<Seq<Seq<char>>>
    decreases anns.len(),
{
    if anns.len() == 0 {
        None
    } else {
        match anns.last() {
            AnnotationV::Enum(p2, vs) => if p2 == p { Some(vs) } else { enum_last(anns.drop_last(), p) },
            _ => enum_last(anns.drop_last(), p),
        }
    }
}

/// The properties of the last `@Key` of `c`.
pub open spec fn key_last(anns: Seq<AnnotationV>, c: Seq<char>) -> Option<Seq<Seq<char>>>
    decreases anns.len(),
{
    if anns.len() == 0 {
        None
    } else {
        match anns.last() {
            AnnotationV::Key(c2, ks) => if c2 == c { Some(ks) } else { key_last(anns.drop_last(), c) },
            _ => key_last(anns.drop_last(), c),
        }
    }
}

/// A class some shape may be emitted for: the source of a told edge, the holder of a
/// relation, or the class of an attribute.
pub open spec fn shape_candidate(axs: Seq<AxiomV>, anns: Seq<AnnotationV>, c: Seq<char>) -> bool {
    ||| ax_edges(axs).map_values(|e: (Seq<char>, Seq<char>)| e.0).contains(c)
    ||| (ax_exts(axs) + ann_rels(anns)).map_values(|e: (Seq<char>, Seq<char>, Seq<char>, bool)| e.0).contains(c)
    ||| ann_attrs(anns).map_values(|e: (Seq<char>, Seq<char>, Seq<char>)| e.0).contains(c)
}

/// The node shape emitted for class `c`.
pub open spec fn shape_of(axs: Seq<AxiomV>, anns: Seq<AnnotationV>, c: Seq<char>) -> Seq<char> {
    block_text(
        c,
        key_last(anns, c),
        block_props(
            ax_edges(axs),
            ann_attrs(anns),
            ax_exts(axs) + ann_rels(anns),
            |c2: Seq<char>, p: Seq<char>| card_last(anns, c2, p),
            |p: Seq<char>| enum_last(anns, p),
            c,
        ),
        ann_uniques(anns),
    )
}

/// The node shapes of the classes `cls`, in order.
pub open spec fn shapes_of(axs: Seq<AxiomV>, anns: Seq<AnnotationV>, cls: Seq<Seq<char>>) -> Seq<char>
    decreases cls.len(),
{
    if cls.len() == 0 {
        Seq::empty()
    } else {
        shapes_of(axs, anns, cls.drop_last()) + shape_of(axs, anns, cls.last())
    }
}

/// `expand` keeps what was seen, in place.
proof fn lemma_expand_prefix(edges: Seq<(Seq<char>, Seq<char>)>, cur: Seq<char>, i: int, seen: Seq<Seq<char>>, stack: Seq<Seq<char>>)
    requires
        0 <= i <= edges.len(),
    ensures
        expand(edges, cur, i, seen, stack).0.len() >= seen.len(),
        forall|k: int| 0 <= k < seen.len() ==> #[trigger] expand(edges, cur, i, seen, stack).0[k] == seen[k],
    decreases edges.len() - i,
{
    if i < edges.len() {
        if edges[i].0 == cur && !seen.contains(edges[i].1) {
            lemma_expand_prefix(edges, cur, i + 1, seen.push(edges[i].1), stack.push(edges[i].1));
            assert forall|k: int| 0 <= k < seen.len() implies #[trigger] expand(edges, cur, i, seen, stack).0[k] == seen[k] by {
                assert(seen.push(edges[i].1)[k] == seen[k]);
            }
        } else {
            lemma_expand_prefix(edges, cur, i + 1, seen, stack);
        }
    }
}

/// A walk keeps what was seen, in place.
proof fn lemma_walk_prefix(edges: Seq<(Seq<char>, Seq<char>)>, seen: Seq<Seq<char>>, stack: Seq<Seq<char>>)
    ensures
        walk(edges, seen, stack).len() >= seen.len(),
        forall|k: int| 0 <= k < seen.len() ==> #[trigger] walk(edges, seen, stack)[k] == seen[k],
    decreases edges.len() + 1 - seen.len(), stack.len(),
{
    if !(stack.len() == 0 || seen.len() > edges.len() + 1) {
        let st = expand(edges, stack.last(), 0, seen, stack.drop_last());
        lemma_expand_len(edges, stack.last(), 0, seen, stack.drop_last());
        lemma_expand_prefix(edges, stack.last(), 0, seen, stack.drop_last());
        if st.0.len() <= edges.len() + 1 {
            lemma_walk_prefix(edges, st.0, st.1);
            assert forall|k: int| 0 <= k < seen.len() implies #[trigger] walk(edges, seen, stack)[k] == seen[k] by {
                assert(st.0[k] == seen[k]);
            }
        }
    }
}

/// The walk from a class starts with the class itself.
proof fn lemma_ancestors_first(edges: Seq<(Seq<char>, Seq<char>)>, c: Seq<char>)
    ensures
        ancestors_spec(edges, c).len() >= 1,
        ancestors_spec(edges, c)[0] == c,
{
    lemma_walk_prefix(edges, seq![c], seq![c]);
}

/// Putting an entry keeps every entry, adds only `(k, v)`, and leaves an entry on `k`.
proof fn lemma_put(e: Seq<(Seq<char>, ShapeV)>, k: Seq<char>, v: ShapeV)
    ensures
        forall|x: (Seq<char>, ShapeV)| e.contains(x) ==> #[trigger] sorted_put(e, k, v).contains(x),
        forall|x: (Seq<char>, ShapeV)| #[trigger] sorted_put(e, k, v).contains(x) ==> e.contains(x) || x == (k, v),
        exists|x: (Seq<char>, ShapeV)| #[trigger] sorted_put(e, k, v).contains(x) && x.0 == k,
    decreases e.len(),
{
    let r = sorted_put(e, k, v);
    if e.len() == 0 {
        assert(r[0] == (k, v));
        assert(r.contains((k, v)));
    } else if e[0].0 == k {
        assert(r.contains(e[0]));
    } else if seq_lt(k, e[0].0) {
        assert(r[0] == (k, v));
        assert(r.contains((k, v)));
        assert forall|x: (Seq<char>, ShapeV)| e.contains(x) implies #[trigger] r.contains(x) by {
            let j = choose|j: int| 0 <= j < e.len() && e[j] == x;
            assert(r[j + 1] == x);
        }
        assert forall|x: (Seq<char>, ShapeV)| #[trigger] r.contains(x) implies e.contains(x) || x == (k, v) by {
            let j = choose|j: int| 0 <= j < r.len() && r[j] == x;
            if j > 0 { assert(e[j - 1] == x); }
        }
    } else {
        let t = e.drop_first();
        lemma_put(t, k, v);
        let rt = sorted_put(t, k, v);
        assert(r == seq![e[0]] + rt);
        assert forall|x: (Seq<char>, ShapeV)| e.contains(x) implies #[trigger] r.contains(x) by {
            let j = choose|j: int| 0 <= j < e.len() && e[j] == x;
            if j == 0 {
                assert(r[0] == x);
            } else {
                assert(t[j - 1] == x);
                assert(rt.contains(x));
                let q = choose|q: int| 0 <= q < rt.len() && rt[q] == x;
                assert(r[q + 1] == x);
            }
        }
        assert forall|x: (Seq<char>, ShapeV)| #[trigger] r.contains(x) implies e.contains(x) || x == (k, v) by {
            let j = choose|j: int| 0 <= j < r.len() && r[j] == x;
            if j == 0 {
                assert(e[0] == x);
            } else {
                assert(rt[j - 1] == x);
                assert(rt.contains(x));
                if t.contains(x) {
                    let q = choose|q: int| 0 <= q < t.len() && t[q] == x;
                    assert(e[q + 1] == x);
                }
            }
        }
        let y = choose|y: (Seq<char>, ShapeV)| #[trigger] rt.contains(y) && y.0 == k;
        let q = choose|q: int| 0 <= q < rt.len() && rt[q] == y;
        assert(r[q + 1] == y);
        assert(r.contains(y));
    }
}

/// The folds over attributes, relations and holders keep every entry they are given.
proof fn lemma_attrs_fold_keeps(props: Seq<(Seq<char>, ShapeV)>, a: Seq<(Seq<char>, Seq<char>, Seq<char>)>,
    cards: spec_fn(Seq<char>, Seq<char>) -> Option<(u32, Option<u32>)>, enums: spec_fn(Seq<char>) -> Option<Seq<Seq<char>>>, h: Seq<char>, i: int)
    ensures
        forall|x: (Seq<char>, ShapeV)| props.contains(x) ==> #[trigger] attrs_fold(props, a, cards, enums, h, i).contains(x),
    decreases a.len() - i,
{
    if 0 <= i < a.len() {
        if a[i].0 == h {
            let np = sorted_put(props, a[i].1, attr_shape(a[i], cards, enums, h));
            lemma_put(props, a[i].1, attr_shape(a[i], cards, enums, h));
            lemma_attrs_fold_keeps(np, a, cards, enums, h, i + 1);
            assert(attrs_fold(props, a, cards, enums, h, i) == attrs_fold(np, a, cards, enums, h, i + 1));
            assert forall|x: (Seq<char>, ShapeV)| props.contains(x) implies #[trigger] attrs_fold(props, a, cards, enums, h, i).contains(x) by {
                assert(np.contains(x));
                assert(attrs_fold(np, a, cards, enums, h, i + 1).contains(x));
            }
        } else {
            lemma_attrs_fold_keeps(props, a, cards, enums, h, i + 1);
            assert(attrs_fold(props, a, cards, enums, h, i) == attrs_fold(props, a, cards, enums, h, i + 1));
        }
    }
}

proof fn lemma_exts_fold_keeps(props: Seq<(Seq<char>, ShapeV)>, x: Seq<(Seq<char>, Seq<char>, Seq<char>, bool)>,
    cards: spec_fn(Seq<char>, Seq<char>) -> Option<(u32, Option<u32>)>, h: Seq<char>, i: int)
    ensures
        forall|y: (Seq<char>, ShapeV)| props.contains(y) ==> #[trigger] exts_fold(props, x, cards, h, i).contains(y),
    decreases x.len() - i,
{
    if 0 <= i < x.len() {
        let p = x[i].1;
        if x[i].0 == h && first_on(x, i) {
            match best_upto(x, h, p, x.len() as int) {
                Some(w) => {
                    let sh = ext_shape(x, cards, h, p, w, count_upto(x, h, p, x.len() as int));
                    let np = sorted_put(props, p, sh);
                    lemma_put(props, p, sh);
                    lemma_exts_fold_keeps(np, x, cards, h, i + 1);
                    assert(exts_fold(props, x, cards, h, i) == exts_fold(np, x, cards, h, i + 1));
                    assert forall|y: (Seq<char>, ShapeV)| props.contains(y) implies #[trigger] exts_fold(props, x, cards, h, i).contains(y) by {
                        assert(np.contains(y));
                        assert(exts_fold(np, x, cards, h, i + 1).contains(y));
                    }
                },
                None => {
                    lemma_exts_fold_keeps(props, x, cards, h, i + 1);
                    assert(exts_fold(props, x, cards, h, i) == exts_fold(props, x, cards, h, i + 1));
                },
            }
        } else {
            lemma_exts_fold_keeps(props, x, cards, h, i + 1);
            assert(exts_fold(props, x, cards, h, i) == exts_fold(props, x, cards, h, i + 1));
        }
    }
}

proof fn lemma_holders_fold_keeps(props: Seq<(Seq<char>, ShapeV)>, hs: Seq<Seq<char>>, a: Seq<(Seq<char>, Seq<char>, Seq<char>)>,
    x: Seq<(Seq<char>, Seq<char>, Seq<char>, bool)>, cards: spec_fn(Seq<char>, Seq<char>) -> Option<(u32, Option<u32>)>,
    enums: spec_fn(Seq<char>) -> Option<Seq<Seq<char>>>, j: int)
    ensures
        forall|y: (Seq<char>, ShapeV)| props.contains(y) ==> #[trigger] holders_fold(props, hs, a, x, cards, enums, j).contains(y),
    decreases hs.len() - j,
{
    if 0 <= j < hs.len() {
        let p1 = attrs_fold(props, a, cards, enums, hs[j], 0);
        let p2 = exts_fold(p1, x, cards, hs[j], 0);
        lemma_attrs_fold_keeps(props, a, cards, enums, hs[j], 0);
        lemma_exts_fold_keeps(p1, x, cards, hs[j], 0);
        lemma_holders_fold_keeps(p2, hs, a, x, cards, enums, j + 1);
        assert(holders_fold(props, hs, a, x, cards, enums, j) == holders_fold(p2, hs, a, x, cards, enums, j + 1));
        assert forall|y: (Seq<char>, ShapeV)| props.contains(y) implies #[trigger] holders_fold(props, hs, a, x, cards, enums, j).contains(y) by {
            assert(p1.contains(y));
            assert(p2.contains(y));
            assert(holders_fold(p2, hs, a, x, cards, enums, j + 1).contains(y));
        }
    }
}

/// The upper bound an attribute of holder `h` on `p` carries: the told one.
pub open spec fn told_max(cards: spec_fn(Seq<char>, Seq<char>) -> Option<(u32, Option<u32>)>, h: Seq<char>, p: Seq<char>) -> Option<u32> {
    match cards(h, p) {
        Some(b) => b.1,
        None => None,
    }
}

/// The datatype is that of some attribute of holder `h` on `p`.
pub open spec fn told_attr(a: Seq<(Seq<char>, Seq<char>, Seq<char>)>, h: Seq<char>, p: Seq<char>, dt: Option<Seq<char>>) -> bool {
    dt is Some && exists|k: int| 0 <= k < a.len() && #[trigger] a[k] == (h, p, dt.unwrap())
}

/// The lower bound an attribute of holder `h` on `p` carries: the told one.
pub open spec fn told_min(cards: spec_fn(Seq<char>, Seq<char>) -> Option<(u32, Option<u32>)>, h: Seq<char>, p: Seq<char>) -> Option<u32> {
    match cards(h, p) {
        Some(b) => Some(b.0),
        None => None,
    }
}

/// Folding the attributes of `h`: every entry on `p` carries the told bounds of
/// `(h, p)` when every given one does, and an attribute of `h` on `p` leaves an entry on `p`.
proof fn lemma_attrs_fold_max(props: Seq<(Seq<char>, ShapeV)>, a: Seq<(Seq<char>, Seq<char>, Seq<char>)>,
    cards: spec_fn(Seq<char>, Seq<char>) -> Option<(u32, Option<u32>)>, enums: spec_fn(Seq<char>) -> Option<Seq<Seq<char>>>,
    h: Seq<char>, p: Seq<char>, i: int)
    requires
        0 <= i,
        forall|y: (Seq<char>, ShapeV)| #[trigger] props.contains(y) && y.0 == p ==> y.1.max == told_max(cards, h, p) && y.1.min == told_min(cards, h, p) && told_attr(a, h, p, y.1.datatype),
    ensures
        forall|y: (Seq<char>, ShapeV)| #[trigger] attrs_fold(props, a, cards, enums, h, i).contains(y) && y.0 == p
            ==> y.1.max == told_max(cards, h, p) && y.1.min == told_min(cards, h, p) && told_attr(a, h, p, y.1.datatype),
        ((exists|y: (Seq<char>, ShapeV)| #[trigger] props.contains(y) && y.0 == p)
            || (exists|j: int| i <= j < a.len() && (#[trigger] a[j]).0 == h && a[j].1 == p))
            ==> exists|y: (Seq<char>, ShapeV)| #[trigger] attrs_fold(props, a, cards, enums, h, i).contains(y) && y.0 == p,
    decreases a.len() - i,
{
    if i >= a.len() {
        assert(attrs_fold(props, a, cards, enums, h, i) == props);
    } else {
        if a[i].0 == h {
            let sh = attr_shape(a[i], cards, enums, h);
            let np = sorted_put(props, a[i].1, sh);
            lemma_put(props, a[i].1, sh);
            assert forall|y: (Seq<char>, ShapeV)| #[trigger] np.contains(y) && y.0 == p implies y.1.max == told_max(cards, h, p) && y.1.min == told_min(cards, h, p) && told_attr(a, h, p, y.1.datatype) by {
                if !props.contains(y) {
                    assert(y == (a[i].1, sh));
                    assert(a[i] == (h, p, a[i].2));
                }
            }
            lemma_attrs_fold_max(np, a, cards, enums, h, p, i + 1);
            assert(attrs_fold(props, a, cards, enums, h, i) == attrs_fold(np, a, cards, enums, h, i + 1));
            if exists|y: (Seq<char>, ShapeV)| #[trigger] props.contains(y) && y.0 == p {
                let y = choose|y: (Seq<char>, ShapeV)| #[trigger] props.contains(y) && y.0 == p;
                assert(np.contains(y));
            }
            if exists|j: int| i <= j < a.len() && (#[trigger] a[j]).0 == h && a[j].1 == p {
                let j = choose|j: int| i <= j < a.len() && (#[trigger] a[j]).0 == h && a[j].1 == p;
                if j == i {
                    let y = choose|y: (Seq<char>, ShapeV)| #[trigger] np.contains(y) && y.0 == a[i].1;
                    assert(np.contains(y) && y.0 == p);
                } else {
                    assert(i + 1 <= j < a.len() && a[j].0 == h && a[j].1 == p);
                }
            }
        } else {
            lemma_attrs_fold_max(props, a, cards, enums, h, p, i + 1);
            assert(attrs_fold(props, a, cards, enums, h, i) == attrs_fold(props, a, cards, enums, h, i + 1));
            if exists|j: int| i <= j < a.len() && (#[trigger] a[j]).0 == h && a[j].1 == p {
                let j = choose|j: int| i <= j < a.len() && (#[trigger] a[j]).0 == h && a[j].1 == p;
                assert(j != i);
                assert(i + 1 <= j < a.len() && a[j].0 == h && a[j].1 == p);
            }
        }
    }
}

/// `p` occurs inside `y + s + z` when it occurs inside `s`.
proof fn lemma_occurs_widen(y: Seq<char>, s: Seq<char>, z: Seq<char>, p: Seq<char>)
    requires
        occurs_in(s, p),
    ensures
        occurs_in(y + s + z, p),
{
    let k = choose|k: int| 0 <= k && k + p.len() <= s.len() && #[trigger] s.subrange(k, k + p.len()) == p;
    let w = y + s + z;
    assert(w.subrange(y.len() + k, y.len() + k + p.len()) =~= s.subrange(k, k + p.len()));
}

/// Occurring is transitive.
proof fn lemma_occurs_trans(s: Seq<char>, t: Seq<char>, p: Seq<char>)
    requires
        occurs_in(s, t),
        occurs_in(t, p),
    ensures
        occurs_in(s, p),
{
    let k = choose|k: int| 0 <= k && k + t.len() <= s.len() && #[trigger] s.subrange(k, k + t.len()) == t;
    let q = choose|q: int| 0 <= q && q + p.len() <= t.len() && #[trigger] t.subrange(q, q + p.len()) == p;
    assert(s.subrange(k + q, k + q + p.len()) =~= t.subrange(q, q + p.len()));
}

/// A sequence occurs in itself.
proof fn lemma_occurs_self(s: Seq<char>)
    ensures
        occurs_in(s, s),
{
    let k: int = 0;
    assert(s.subrange(k, k + s.len()) =~= s);
}

/// Every listed property shape's text occurs in the text of the list.
proof fn lemma_props_upto_has(ps: Seq<(Seq<char>, ShapeV)>, uniq: Seq<Seq<char>>, i: int, j: int)
    requires
        0 <= j < i <= ps.len(),
    ensures
        occurs_in(props_upto(ps, uniq, i), prop_text(ps[j].0, ps[j].1, uniq.contains(ps[j].0), j == ps.len() - 1)),
    decreases i,
{
    let t = prop_text(ps[j].0, ps[j].1, uniq.contains(ps[j].0), j == ps.len() - 1);
    if j == i - 1 {
        lemma_occurs_self(t);
        lemma_occurs_widen(props_upto(ps, uniq, i - 1), t, Seq::empty(), t);
        assert(props_upto(ps, uniq, i - 1) + t + Seq::<char>::empty() =~= props_upto(ps, uniq, i));
    } else {
        lemma_props_upto_has(ps, uniq, i - 1, j);
        let last = prop_text(ps[i - 1].0, ps[i - 1].1, uniq.contains(ps[i - 1].0), i == ps.len());
        lemma_occurs_widen(Seq::empty(), props_upto(ps, uniq, i - 1), last, t);
        assert(Seq::<char>::empty() + props_upto(ps, uniq, i - 1) + last =~= props_upto(ps, uniq, i));
    }
}

/// The `sh:maxCount` line of a bound.
pub open spec fn max_line(m: u32) -> Seq<char> {
    "        sh:maxCount "@ + decimal(m as nat) + " ;\n"@
}

/// The bound lines of a property shape with an upper bound include it.
#[verifier::rlimit(40)]
proof fn lemma_prop_tail_max(sh: ShapeV, last: bool, m: u32)
    requires
        sh.max == Some(m),
    ensures
        occurs_in(prop_tail(sh, last), max_line(m)),
{
    let vals = match sh.values {
        Some(vs) => "        sh:in ("@ + join_spec(vs.map_values(|v: Seq<char>| quoted(v)), " "@) + ") ;\n"@,
        None => Seq::empty(),
    };
    let mins = match sh.min { Some(mn) => if mn > 0 { "        sh:minCount "@ + decimal(mn as nat) + " ;\n"@ } else { Seq::empty() }, None => Seq::empty() };
    let close = if last { "    ] .\n\n"@ } else { "    ] ;\n"@ };
    assert(prop_tail(sh, last) == vals + mins + max_line(m) + close);
    lemma_occurs_self(max_line(m));
    lemma_occurs_widen(vals + mins, max_line(m), close, max_line(m));
}

/// The `sh:minCount` line of a bound.
pub open spec fn min_line(m: u32) -> Seq<char> {
    "        sh:minCount "@ + decimal(m as nat) + " ;\n"@
}

/// The `sh:datatype` line of a datatype.
pub open spec fn datatype_line(dt: Seq<char>) -> Seq<char> {
    "        sh:datatype "@ + datatype_text(dt) + " ;\n"@
}

/// A property shape with a datatype prints it.
proof fn lemma_prop_text_datatype(path: Seq<char>, sh: ShapeV, u: bool, last: bool, d: Seq<char>)
    requires
        sh.datatype == Some(d),
    ensures
        occurs_in(prop_text(path, sh, u, last), datatype_line(d)),
{
    let a = "    sh:property [\n        sh:path "@ + angled_spec(path) + " ;\n"@
        + (if u { "        kvasir:unique true ;\n"@ } else { Seq::empty() });
    let cl = match sh.class { Some(c) => "        sh:class "@ + angled_spec(c) + " ;\n"@, None => Seq::empty() };
    assert(prop_head(path, sh, u) == a + datatype_line(d) + cl);
    lemma_occurs_self(datatype_line(d));
    lemma_occurs_widen(a, datatype_line(d), cl + prop_tail(sh, last), datatype_line(d));
    assert(a + datatype_line(d) + (cl + prop_tail(sh, last)) =~= prop_text(path, sh, u, last));
}

/// The bound lines of a property shape with a positive lower bound include it.
#[verifier::rlimit(40)]
proof fn lemma_prop_tail_min(sh: ShapeV, last: bool, m: u32)
    requires
        sh.min == Some(m),
        m > 0,
    ensures
        occurs_in(prop_tail(sh, last), min_line(m)),
{
    let vals = match sh.values {
        Some(vs) => "        sh:in ("@ + join_spec(vs.map_values(|v: Seq<char>| quoted(v)), " "@) + ") ;\n"@,
        None => Seq::empty(),
    };
    let maxs = match sh.max { Some(mx) => max_line(mx), None => Seq::empty() };
    let close = if last { "    ] .\n\n"@ } else { "    ] ;\n"@ };
    assert(prop_tail(sh, last) == vals + min_line(m) + maxs + close);
    lemma_occurs_self(min_line(m));
    lemma_occurs_widen(vals, min_line(m), maxs + close, min_line(m));
    assert(vals + min_line(m) + (maxs + close) =~= vals + min_line(m) + maxs + close);
}

/// A property shape with an upper bound prints it.
proof fn lemma_prop_text_max(path: Seq<char>, sh: ShapeV, u: bool, last: bool, m: u32)
    requires
        sh.max == Some(m),
    ensures
        occurs_in(prop_text(path, sh, u, last), max_line(m)),
{
    lemma_prop_tail_max(sh, last, m);
    lemma_occurs_widen(prop_head(path, sh, u), prop_tail(sh, last), Seq::empty(), max_line(m));
    assert(prop_head(path, sh, u) + prop_tail(sh, last) + Seq::<char>::empty() =~= prop_text(path, sh, u, last));
}

/// Told bounds survive into the shape: when class `c` has an `@Attribute` on `p` and the last
/// `@Cardinality` on `(c, p)` is `lo` to `m`, the node shape of `c` holds a property shape for
/// `p` with those bounds, and its text says `sh:maxCount m` (and `sh:minCount lo` when
/// `lo > 0`).
pub proof fn lemma_attribute_max_in_shape(axs: Seq<AxiomV>, anns: Seq<AnnotationV>, c: Seq<char>, p: Seq<char>, dt: Seq<char>, lo: u32, mx: Option<u32>)
    requires
        ann_attrs(anns).contains((c, p, dt)),
        card_last(anns, c, p) == Some((lo, mx)),
    ensures
        exists|sh: ShapeV, u: bool, last: bool| sh.max == mx && sh.min == Some(lo) && told_attr(ann_attrs(anns), c, p, sh.datatype)
            && #[trigger] occurs_in(shape_of(axs, anns, c), prop_text(p, sh, u, last)),
        exists|d: Seq<char>| #[trigger] ann_attrs(anns).contains((c, p, d)) && occurs_in(shape_of(axs, anns, c), datatype_line(d)),
        mx is Some ==> occurs_in(shape_of(axs, anns, c), max_line(mx.unwrap())),
        lo > 0 ==> occurs_in(shape_of(axs, anns, c), min_line(lo)),
{
    let edges = ax_edges(axs);
    let a = ann_attrs(anns);
    let x = ax_exts(axs) + ann_rels(anns);
    let cards = |c2: Seq<char>, p2: Seq<char>| card_last(anns, c2, p2);
    let enums = |p2: Seq<char>| enum_last(anns, p2);
    let hs = ancestors_spec(edges, c);
    lemma_ancestors_first(edges, c);
    let e0 = Seq::<(Seq<char>, ShapeV)>::empty();
    let ja = choose|ja: int| 0 <= ja < a.len() && a[ja] == (c, p, dt);
    assert(a[ja].0 == c && a[ja].1 == p);
    assert(told_max(cards, c, p) == mx);
    assert(told_min(cards, c, p) == Some(lo));
    lemma_attrs_fold_max(e0, a, cards, enums, c, p, 0);
    let p1 = attrs_fold(e0, a, cards, enums, hs[0], 0);
    let y = choose|y: (Seq<char>, ShapeV)| #[trigger] p1.contains(y) && y.0 == p;
    assert(y.1.max == mx);
    let p2 = exts_fold(p1, x, cards, hs[0], 0);
    lemma_exts_fold_keeps(p1, x, cards, hs[0], 0);
    lemma_holders_fold_keeps(p2, hs, a, x, cards, enums, 1);
    let ps = block_props(edges, a, x, cards, enums, c);
    assert(ps == holders_fold(p2, hs, a, x, cards, enums, 1));
    assert(ps.contains(y));
    let j = choose|j: int| 0 <= j < ps.len() && ps[j] == y;
    let uniq = ann_uniques(anns);
    lemma_props_upto_has(ps, uniq, ps.len() as int, j);
    let t = prop_text(p, y.1, uniq.contains(p), j == ps.len() - 1);
    let key = key_last(anns, c);
    let head = "<"@ + c + "Shape>\n    a sh:NodeShape ;\n    sh:targetClass "@ + angled_spec(c) + " ;\n"@
        + (match key {
            Some(ks) => "    kvasir:key ( "@ + join_spec(ks.map_values(|k: Seq<char>| angled_spec(k)), " "@) + " ) ;\n"@,
            None => Seq::empty(),
        });
    lemma_occurs_widen(head, props_upto(ps, uniq, ps.len() as int), Seq::empty(), t);
    assert(head + props_upto(ps, uniq, ps.len() as int) + Seq::<char>::empty() =~= shape_of(axs, anns, c));
    assert(occurs_in(shape_of(axs, anns, c), t));
    if let Some(m) = mx {
        lemma_prop_text_max(p, y.1, uniq.contains(p), j == ps.len() - 1, m);
        lemma_occurs_trans(shape_of(axs, anns, c), t, max_line(m));
    }
    let d = y.1.datatype.unwrap();
    let kd = choose|kd: int| 0 <= kd < a.len() && #[trigger] a[kd] == (c, p, d);
    assert(a.contains((c, p, d)));
    lemma_prop_text_datatype(p, y.1, uniq.contains(p), j == ps.len() - 1, d);
    lemma_occurs_trans(shape_of(axs, anns, c), t, datatype_line(d));
    assert(occurs_in(shape_of(axs, anns, c), t));
    if lo > 0 {
        lemma_prop_tail_min(y.1, j == ps.len() - 1, lo);
        lemma_occurs_widen(prop_head(p, y.1, uniq.contains(p)), prop_tail(y.1, j == ps.len() - 1), Seq::empty(), min_line(lo));
        assert(prop_head(p, y.1, uniq.contains(p)) + prop_tail(y.1, j == ps.len() - 1) + Seq::<char>::empty() =~= t);
        lemma_occurs_trans(shape_of(axs, anns, c), t, min_line(lo));
    }
}

/// The upper bound the last `@Cardinality` on `(c, p)` tells, if any.
pub open spec fn told_upper(anns: Seq<AnnotationV>, c: Seq<char>, p: Seq<char>) -> Option<u32> {
    match card_last(anns, c, p) {
        Some(b) => b.1,
        None => None,
    }
}

/// The shapes of a list of classes hold the shape of each class listed.
proof fn lemma_shapes_of_has(axs: Seq<AxiomV>, anns: Seq<AnnotationV>, cls: Seq<Seq<char>>, c: Seq<char>)
    requires
        cls.contains(c),
    ensures
        occurs_in(shapes_of(axs, anns, cls), shape_of(axs, anns, c)),
    decreases cls.len(),
{
    let t = shape_of(axs, anns, c);
    if cls.last() == c {
        lemma_occurs_self(t);
        lemma_occurs_widen(shapes_of(axs, anns, cls.drop_last()), t, Seq::empty(), t);
        assert(shapes_of(axs, anns, cls.drop_last()) + t + Seq::<char>::empty() =~= shapes_of(axs, anns, cls));
    } else {
        let j = choose|j: int| 0 <= j < cls.len() && cls[j] == c;
        assert(cls.drop_last()[j] == c);
        lemma_shapes_of_has(axs, anns, cls.drop_last(), c);
        lemma_occurs_widen(Seq::empty(), shapes_of(axs, anns, cls.drop_last()), shape_of(axs, anns, cls.last()), t);
        assert(Seq::<char>::empty() + shapes_of(axs, anns, cls.drop_last()) + shape_of(axs, anns, cls.last()) =~= shapes_of(axs, anns, cls));
    }
}

/// Told bounds on an attribute survive into the emitted graph: whenever the graph lists the
/// class's shape, it says `sh:maxCount m` (and `sh:minCount lo` when `lo > 0`).
pub proof fn lemma_emitted_attribute_max(axs: Seq<AxiomV>, anns: Seq<AnnotationV>, cls: Seq<Seq<char>>, c: Seq<char>, p: Seq<char>,
    dt: Seq<char>, lo: u32, mx: Option<u32>)
    requires
        ann_attrs(anns).contains((c, p, dt)),
        card_last(anns, c, p) == Some((lo, mx)),
        cls.contains(c),
    ensures
        mx is Some ==> occurs_in(header_spec() + shapes_of(axs, anns, cls), max_line(mx.unwrap())),
        lo > 0 ==> occurs_in(header_spec() + shapes_of(axs, anns, cls), min_line(lo)),
        exists|d: Seq<char>| #[trigger] ann_attrs(anns).contains((c, p, d)) && occurs_in(header_spec() + shapes_of(axs, anns, cls), datatype_line(d)),
{
    lemma_attribute_max_in_shape(axs, anns, c, p, dt, lo, mx);
    lemma_shapes_of_has(axs, anns, cls, c);
    let d = choose|d: Seq<char>| #[trigger] ann_attrs(anns).contains((c, p, d)) && occurs_in(shape_of(axs, anns, c), datatype_line(d));
    lemma_occurs_trans(shapes_of(axs, anns, cls), shape_of(axs, anns, c), datatype_line(d));
    lemma_occurs_widen(header_spec(), shapes_of(axs, anns, cls), Seq::empty(), datatype_line(d));
    assert(header_spec() + shapes_of(axs, anns, cls) + Seq::<char>::empty() =~= header_spec() + shapes_of(axs, anns, cls));
    if let Some(m) = mx {
        lemma_occurs_trans(shapes_of(axs, anns, cls), shape_of(axs, anns, c), max_line(m));
        lemma_occurs_widen(header_spec(), shapes_of(axs, anns, cls), Seq::empty(), max_line(m));
    }
    if lo > 0 {
        lemma_occurs_trans(shapes_of(axs, anns, cls), shape_of(axs, anns, c), min_line(lo));
        lemma_occurs_widen(header_spec(), shapes_of(axs, anns, cls), Seq::empty(), min_line(lo));
    }
    assert(header_spec() + shapes_of(axs, anns, cls) + Seq::<char>::empty() =~= header_spec() + shapes_of(axs, anns, cls));
}

/// Emit a SHACL Core shapes graph (Turtle) from the tiered facts: the prefixes, then a node
/// shape per candidate class with at least one rolled-up attribute or relation, classes in
/// sorted order. (There is one strictly sorted list of the candidate classes:
/// `crate::text::lemma_sorted_unique`.)
pub fn emit(axioms: &[Axiom], annotations: &[Annotation]) -> (r: String)
    ensures
        exists|cls: Seq<Seq<char>>| #![trigger shapes_of(axioms_view(axioms@), annotations_view(annotations@), cls)]
            strictly_sorted(cls)
            && (forall|c: Seq<char>| #[trigger] cls.contains(c) <==> shape_candidate(axioms_view(axioms@), annotations_view(annotations@), c))
            && r@ == header_spec() + shapes_of(axioms_view(axioms@), annotations_view(annotations@), cls),
        forall|c: Seq<char>, p: Seq<char>, dt: Seq<char>|
            #[trigger] ann_attrs(annotations_view(annotations@)).contains((c, p, dt))
            && told_upper(annotations_view(annotations@), c, p) is Some
            ==> occurs_in(r@, max_line(told_upper(annotations_view(annotations@), c, p).unwrap())),
        forall|c: Seq<char>, p: Seq<char>, dt: Seq<char>|
            #[trigger] ann_attrs(annotations_view(annotations@)).contains((c, p, dt))
            && card_last(annotations_view(annotations@), c, p) is Some && card_last(annotations_view(annotations@), c, p).unwrap().0 > 0
            ==> occurs_in(r@, min_line(card_last(annotations_view(annotations@), c, p).unwrap().0)),
{
    let ghost axs = axioms_view(axioms@);
    let ghost anns = annotations_view(annotations@);
    let mut sub: Vec<(String, String)> = Vec::new();
    let mut exts: Vec<(String, String, String, bool)> = Vec::new();
    let mut classes: Vec<String> = Vec::new();
    proof {
        assert(names_view(classes@) =~= Seq::<Seq<char>>::empty());
        assert(axs.take(0) =~= Seq::<AxiomV>::empty());
        assert(edges_view(sub@) =~= Seq::<(Seq<char>, Seq<char>)>::empty());
        assert(exts_view(exts@) =~= Seq::<(Seq<char>, Seq<char>, Seq<char>, bool)>::empty());
    }
    let mut ai: usize = 0;
    while ai < axioms.len()
        invariant
            ai <= axioms@.len(),
            axs == axioms_view(axioms@),
            strictly_sorted(names_view(classes@)),
            edges_view(sub@) == ax_edges(axs.take(ai as int)),
            exts_view(exts@) == ax_exts(axs.take(ai as int)),
            forall|c: Seq<char>| #[trigger] names_view(classes@).contains(c) <==>
                (edges_view(sub@).map_values(|e: (Seq<char>, Seq<char>)| e.0).contains(c)
                    || exts_view(exts@).map_values(|e: (Seq<char>, Seq<char>, Seq<char>, bool)| e.0).contains(c)),
        decreases axioms@.len() - ai,
    {
        let ghost t1 = axs.take(ai + 1);
        proof {
            assert(t1.drop_last() =~= axs.take(ai as int));
            assert(t1.last() == axioms@[ai as int]@);
        }
        let ghost e0 = edges_view(sub@);
        let ghost x0 = exts_view(exts@);
        let ghost c0 = names_view(classes@);
        match &axioms[ai] {
            Axiom::SubClassOf { sub: s, sup } => {
                sub.push((s.clone(), sup.clone()));
                insert_sorted(&mut classes, s.clone());
                proof {
                    assert(edges_view(sub@) =~= e0.push((s@, sup@)));
                    assert(edges_view(sub@).map_values(|e: (Seq<char>, Seq<char>)| e.0) =~= e0.map_values(|e: (Seq<char>, Seq<char>)| e.0).push(s@));
                    assert forall|c: Seq<char>| #[trigger] names_view(classes@).contains(c) <==>
                        (edges_view(sub@).map_values(|e: (Seq<char>, Seq<char>)| e.0).contains(c)
                            || exts_view(exts@).map_values(|e: (Seq<char>, Seq<char>, Seq<char>, bool)| e.0).contains(c)) by {
                        lemma_push_contains(e0.map_values(|e: (Seq<char>, Seq<char>)| e.0), s@, c);
                        assert(c0.contains(c) <==> (e0.map_values(|e: (Seq<char>, Seq<char>)| e.0).contains(c)
                            || x0.map_values(|e: (Seq<char>, Seq<char>, Seq<char>, bool)| e.0).contains(c)));
                    }
                }
            },
            Axiom::EquivalentToIntersection { class, parts } => {
                let ghost pv = names_view(parts@);
                let mut k: usize = 0;
                proof { assert(e0 + pv.take(0).map_values(|q: Seq<char>| (class@, q)) =~= e0); }
                while k < parts.len()
                    invariant
                        k <= parts@.len(),
                        pv == names_view(parts@),
                        x0 == exts_view(exts@),
                        strictly_sorted(names_view(classes@)),
                        edges_view(sub@) == e0 + pv.take(k as int).map_values(|q: Seq<char>| (class@, q)),
                        forall|c: Seq<char>| #[trigger] names_view(classes@).contains(c) <==>
                            (edges_view(sub@).map_values(|e: (Seq<char>, Seq<char>)| e.0).contains(c)
                                || x0.map_values(|e: (Seq<char>, Seq<char>, Seq<char>, bool)| e.0).contains(c)),
                    decreases parts@.len() - k,
                {
                    let ghost eb = edges_view(sub@);
                    let ghost cb = names_view(classes@);
                    sub.push((class.clone(), parts[k].clone()));
                    insert_sorted(&mut classes, class.clone());
                    proof {
                        assert(edges_view(sub@) =~= eb.push((class@, pv[k as int])));
                        assert(pv.take(k + 1).map_values(|q: Seq<char>| (class@, q)) =~= pv.take(k as int).map_values(|q: Seq<char>| (class@, q)).push((class@, pv[k as int])));
                        assert(edges_view(sub@).map_values(|e: (Seq<char>, Seq<char>)| e.0) =~= eb.map_values(|e: (Seq<char>, Seq<char>)| e.0).push(class@));
                        assert forall|c: Seq<char>| #[trigger] names_view(classes@).contains(c) <==>
                            (edges_view(sub@).map_values(|e: (Seq<char>, Seq<char>)| e.0).contains(c)
                                || x0.map_values(|e: (Seq<char>, Seq<char>, Seq<char>, bool)| e.0).contains(c)) by {
                            lemma_push_contains(eb.map_values(|e: (Seq<char>, Seq<char>)| e.0), class@, c);
                            assert(cb.contains(c) <==> (eb.map_values(|e: (Seq<char>, Seq<char>)| e.0).contains(c)
                                || x0.map_values(|e: (Seq<char>, Seq<char>, Seq<char>, bool)| e.0).contains(c)));
                        }
                    }
                    k += 1;
                }
                proof { assert(pv.take(pv.len() as int) =~= pv); }
            },
            Axiom::SubClassOfExistential { sub: s, role, filler } => {
                if !crate::manchester::lower::starts(filler, "http://www.w3.org/2001/XMLSchema#")
                    && !crate::manchester::lower::starts(filler, "xsd:") {
                    exts.push((s.clone(), role.clone(), filler.clone(), true));
                    insert_sorted(&mut classes, s.clone());
                    proof {
                        assert(exts_view(exts@) =~= x0.push((s@, role@, filler@, true)));
                        assert(exts_view(exts@).map_values(|e: (Seq<char>, Seq<char>, Seq<char>, bool)| e.0) =~= x0.map_values(|e: (Seq<char>, Seq<char>, Seq<char>, bool)| e.0).push(s@));
                        assert forall|c: Seq<char>| #[trigger] names_view(classes@).contains(c) <==>
                            (edges_view(sub@).map_values(|e: (Seq<char>, Seq<char>)| e.0).contains(c)
                                || exts_view(exts@).map_values(|e: (Seq<char>, Seq<char>, Seq<char>, bool)| e.0).contains(c)) by {
                            lemma_push_contains(x0.map_values(|e: (Seq<char>, Seq<char>, Seq<char>, bool)| e.0), s@, c);
                            assert(c0.contains(c) <==> (e0.map_values(|e: (Seq<char>, Seq<char>)| e.0).contains(c)
                                || x0.map_values(|e: (Seq<char>, Seq<char>, Seq<char>, bool)| e.0).contains(c)));
                        }
                    }
                } else {
                    proof { assert(x0 + Seq::<(Seq<char>, Seq<char>, Seq<char>, bool)>::empty() =~= x0); }
                }
            },
            _ => {},
        }
        proof {
            assert(edges_view(sub@) =~= ax_edges(t1));
            assert(exts_view(exts@) =~= ax_exts(t1));
        }
        ai += 1;
    }
    proof { assert(axs.take(axs.len() as int) =~= axs); }
    let ghost ex = exts_view(exts@);
    let ghost ed = edges_view(sub@);
    let mut attrs: Vec<(String, String, String)> = Vec::new();
    let mut cards: Vec<(String, String, u32, Option<u32>)> = Vec::new();
    let mut enums: Vec<(String, Vec<String>)> = Vec::new();
    let mut key_of: Vec<(String, Vec<String>)> = Vec::new();
    let mut unique_props: Vec<String> = Vec::new();
    proof {
        assert(anns.take(0) =~= Seq::<AnnotationV>::empty());
        assert(ex + ann_rels(anns.take(0)) =~= ex);
        assert(attrs_view(attrs@) =~= Seq::<(Seq<char>, Seq<char>, Seq<char>)>::empty());
        assert(names_view(unique_props@) =~= Seq::<Seq<char>>::empty());
        assert(ann_attrs(anns.take(0)).map_values(|e: (Seq<char>, Seq<char>, Seq<char>)| e.0) =~= Seq::<Seq<char>>::empty());
    }
    let mut ni: usize = 0;
    while ni < annotations.len()
        invariant
            ni <= annotations@.len(),
            anns == annotations_view(annotations@),
            ed == edges_view(sub@),
            strictly_sorted(names_view(classes@)),
            exts_view(exts@) == ex + ann_rels(anns.take(ni as int)),
            attrs_view(attrs@) == ann_attrs(anns.take(ni as int)),
            names_view(unique_props@) == ann_uniques(anns.take(ni as int)),
            forall|c: Seq<char>, p: Seq<char>| #[trigger] card_lookup(cards_view(cards@), c, p) == card_last(anns.take(ni as int), c, p),
            forall|p: Seq<char>| #[trigger] list_lookup(enums_view(enums@), p) == enum_last(anns.take(ni as int), p),
            forall|c: Seq<char>| #[trigger] list_lookup(enums_view(key_of@), c) == key_last(anns.take(ni as int), c),
            forall|c: Seq<char>| #[trigger] names_view(classes@).contains(c) <==>
                (ed.map_values(|e: (Seq<char>, Seq<char>)| e.0).contains(c)
                    || exts_view(exts@).map_values(|e: (Seq<char>, Seq<char>, Seq<char>, bool)| e.0).contains(c)
                    || attrs_view(attrs@).map_values(|e: (Seq<char>, Seq<char>, Seq<char>)| e.0).contains(c)),
        decreases annotations@.len() - ni,
    {
        let ghost t1 = anns.take(ni + 1);
        let ghost t0 = anns.take(ni as int);
        proof {
            assert(t1.drop_last() =~= t0);
            assert(t1.last() == annotations@[ni as int]@);
        }
        let ghost x0 = exts_view(exts@);
        let ghost a0 = attrs_view(attrs@);
        let ghost c0 = names_view(classes@);
        let ghost u0 = names_view(unique_props@);
        match &annotations[ni] {
            Annotation::Attribute { class, prop, xsd } => {
                attrs.push((class.clone(), prop.clone(), xsd.clone()));
                insert_sorted(&mut classes, class.clone());
                proof {
                    assert(attrs_view(attrs@) =~= a0.push((class@, prop@, xsd@)));
                    assert(attrs_view(attrs@).map_values(|e: (Seq<char>, Seq<char>, Seq<char>)| e.0) =~= a0.map_values(|e: (Seq<char>, Seq<char>, Seq<char>)| e.0).push(class@));
                    assert forall|c: Seq<char>| #[trigger] names_view(classes@).contains(c) <==>
                        (ed.map_values(|e: (Seq<char>, Seq<char>)| e.0).contains(c)
                            || exts_view(exts@).map_values(|e: (Seq<char>, Seq<char>, Seq<char>, bool)| e.0).contains(c)
                            || attrs_view(attrs@).map_values(|e: (Seq<char>, Seq<char>, Seq<char>)| e.0).contains(c)) by {
                        lemma_push_contains(a0.map_values(|e: (Seq<char>, Seq<char>, Seq<char>)| e.0), class@, c);
                        assert(c0.contains(c) <==> (ed.map_values(|e: (Seq<char>, Seq<char>)| e.0).contains(c)
                            || x0.map_values(|e: (Seq<char>, Seq<char>, Seq<char>, bool)| e.0).contains(c)
                            || a0.map_values(|e: (Seq<char>, Seq<char>, Seq<char>)| e.0).contains(c)));
                    }
                }
            },
            Annotation::Cardinality { class, prop, min, max } => {
                cards_set(&mut cards, class.as_str(), prop.as_str(), *min, *max);
            },
            Annotation::Enum { prop, values } => {
                lists_set(&mut enums, prop.as_str(), copy_names(values));
            },
            Annotation::Label { .. } => {},
            Annotation::Key { class, props } => {
                lists_set(&mut key_of, class.as_str(), copy_names(props));
            },
            Annotation::Unique { prop } => {
                unique_props.push(prop.clone());
                proof { assert(names_view(unique_props@) =~= u0.push(prop@)); }
            },
            Annotation::Relation { class, prop, target } => {
                exts.push((class.clone(), prop.clone(), target.clone(), false));
                insert_sorted(&mut classes, class.clone());
                proof {
                    assert(exts_view(exts@) =~= x0.push((class@, prop@, target@, false)));
                    assert(exts_view(exts@).map_values(|e: (Seq<char>, Seq<char>, Seq<char>, bool)| e.0) =~= x0.map_values(|e: (Seq<char>, Seq<char>, Seq<char>, bool)| e.0).push(class@));
                    assert forall|c: Seq<char>| #[trigger] names_view(classes@).contains(c) <==>
                        (ed.map_values(|e: (Seq<char>, Seq<char>)| e.0).contains(c)
                            || exts_view(exts@).map_values(|e: (Seq<char>, Seq<char>, Seq<char>, bool)| e.0).contains(c)
                            || attrs_view(attrs@).map_values(|e: (Seq<char>, Seq<char>, Seq<char>)| e.0).contains(c)) by {
                        lemma_push_contains(x0.map_values(|e: (Seq<char>, Seq<char>, Seq<char>, bool)| e.0), class@, c);
                        assert(c0.contains(c) <==> (ed.map_values(|e: (Seq<char>, Seq<char>)| e.0).contains(c)
                            || x0.map_values(|e: (Seq<char>, Seq<char>, Seq<char>, bool)| e.0).contains(c)
                            || a0.map_values(|e: (Seq<char>, Seq<char>, Seq<char>)| e.0).contains(c)));
                    }
                }
            },
        }
        proof {
            assert(exts_view(exts@) =~= ex + ann_rels(t1));
            assert(attrs_view(attrs@) =~= ann_attrs(t1));
            assert(names_view(unique_props@) =~= ann_uniques(t1));
        }
        ni += 1;
    }
    proof { assert(anns.take(anns.len() as int) =~= anns); }
    let ghost cls = names_view(classes@);
    proof {
        assert forall|c: Seq<char>| #[trigger] cls.contains(c) <==> shape_candidate(axs, anns, c) by {}
        assert((|c2: Seq<char>, p: Seq<char>| card_lookup(cards_view(cards@), c2, p)) =~= (|c2: Seq<char>, p: Seq<char>| card_last(anns, c2, p)));
        assert((|p: Seq<char>| list_lookup(enums_view(enums@), p)) =~= (|p: Seq<char>| enum_last(anns, p)));
        assert(cls.take(0) =~= Seq::<Seq<char>>::empty());
    }
    let mut out = emit_header();
    let mut ci: usize = 0;
    while ci < classes.len()
        invariant
            ci <= classes@.len(),
            cls == names_view(classes@),
            axs == axioms_view(axioms@),
            anns == annotations_view(annotations@),
            ed == ax_edges(axs),
            edges_view(sub@) == ax_edges(axs),
            exts_view(exts@) == ax_exts(axs) + ann_rels(anns),
            attrs_view(attrs@) == ann_attrs(anns),
            names_view(unique_props@) == ann_uniques(anns),
            (|c2: Seq<char>, p: Seq<char>| card_lookup(cards_view(cards@), c2, p)) == (|c2: Seq<char>, p: Seq<char>| card_last(anns, c2, p)),
            (|p: Seq<char>| list_lookup(enums_view(enums@), p)) == (|p: Seq<char>| enum_last(anns, p)),
            forall|c: Seq<char>| #[trigger] list_lookup(enums_view(key_of@), c) == key_last(anns, c),
            out@ == header_spec() + shapes_of(axs, anns, cls.take(ci as int)),
        decreases classes@.len() - ci,
    {
        let class = &classes[ci];
        let block = class_block(&sub, &exts, &attrs, &cards, &enums, &key_of, &unique_props, class);
        proof {
            assert(block@ == shape_of(axs, anns, cls[ci as int]));
            let t = cls.take(ci + 1);
            assert(t.drop_last() =~= cls.take(ci as int));
        }
        out = cat(out, block.as_str());
        proof { assert(out@ =~= header_spec() + shapes_of(axs, anns, cls.take(ci + 1))); }
        ci += 1;
    }
    proof {
        assert(cls.take(cls.len() as int) =~= cls);
        assert forall|c: Seq<char>, p: Seq<char>, dt: Seq<char>|
            #[trigger] ann_attrs(anns).contains((c, p, dt)) && told_upper(anns, c, p) is Some
            implies occurs_in(out@, max_line(told_upper(anns, c, p).unwrap())) by {
            let lo = card_last(anns, c, p).unwrap().0;
            let mx = card_last(anns, c, p).unwrap().1;
            let k = choose|k: int| 0 <= k < ann_attrs(anns).len() && ann_attrs(anns)[k] == (c, p, dt);
            assert(ann_attrs(anns).map_values(|e: (Seq<char>, Seq<char>, Seq<char>)| e.0)[k] == c);
            assert(shape_candidate(axs, anns, c));
            assert(cls.contains(c));
            lemma_emitted_attribute_max(axs, anns, cls, c, p, dt, lo, mx);
        }
        assert forall|c: Seq<char>, p: Seq<char>, dt: Seq<char>|
            #[trigger] ann_attrs(anns).contains((c, p, dt)) && card_last(anns, c, p) is Some && card_last(anns, c, p).unwrap().0 > 0
            implies occurs_in(out@, min_line(card_last(anns, c, p).unwrap().0)) by {
            let lo = card_last(anns, c, p).unwrap().0;
            let mx = card_last(anns, c, p).unwrap().1;
            let k = choose|k: int| 0 <= k < ann_attrs(anns).len() && ann_attrs(anns)[k] == (c, p, dt);
            assert(ann_attrs(anns).map_values(|e: (Seq<char>, Seq<char>, Seq<char>)| e.0)[k] == c);
            assert(shape_candidate(axs, anns, c));
            assert(cls.contains(c));
            lemma_emitted_attribute_max(axs, anns, cls, c, p, dt, lo, mx);
        }
    }
    out
}

/// The prefix declarations that open every shapes graph.
pub open spec fn header_spec() -> Seq<char> {
    "@prefix sh: <http://www.w3.org/ns/shacl#> .\n@prefix xsd: <http://www.w3.org/2001/XMLSchema#> .\n@prefix kvasir: <https://kvasir.zndx.org/ns#> .\n\n"@
}

/// The prefix declarations that open every shapes graph.
fn emit_header() -> (r: String)
    ensures
        r@ == header_spec(),
{
    String::from_str("@prefix sh: <http://www.w3.org/ns/shacl#> .\n@prefix xsd: <http://www.w3.org/2001/XMLSchema#> .\n@prefix kvasir: <https://kvasir.zndx.org/ns#> .\n\n")
}

/// The path, uniqueness, datatype and class lines of a property shape.
fn prop_head_text(path: &String, ps: &PropShape, unique: bool) -> (r: String)
    ensures
        r@ == prop_head(path@, ps@, unique),
{
    let ghost sh = ps@;
    let mut out = cat(cat(String::from_str("    sh:property [\n        sh:path "), angled(path.as_str()).as_str()), " ;\n");
    let ghost a = "    sh:property [\n        sh:path "@ + angled_spec(path@) + " ;\n"@;
    assert(out@ =~= a);
    if unique {
        out = cat(out, "        kvasir:unique true ;\n");
    }
    let ghost a = a + (if unique { "        kvasir:unique true ;\n"@ } else { Seq::empty() });
    assert(out@ =~= a);
    match &ps.datatype {
        Some(dt) => out = cat(cat(cat(out, "        sh:datatype "), datatype_short(dt).as_str()), " ;\n"),
        None => {},
    }
    let ghost a = a + (match sh.datatype { Some(dt) => "        sh:datatype "@ + datatype_text(dt) + " ;\n"@, None => Seq::empty() });
    assert(out@ =~= a);
    match &ps.class {
        Some(c) => out = cat(cat(cat(out, "        sh:class "), angled(c.as_str()).as_str()), " ;\n"),
        None => {},
    }
    assert(out@ =~= a + (match sh.class { Some(c) => "        sh:class "@ + angled_spec(c) + " ;\n"@, None => Seq::empty() }));
    out
}

/// The `sh:in` values, quoted.
fn quoted_values(vals: &Vec<String>) -> (r: Vec<String>)
    ensures
        names_view(r@) == names_view(vals@).map_values(|v: Seq<char>| quoted(v)),
{
    let ghost vv = names_view(vals@);
    let mut qs: Vec<String> = Vec::new();
    let mut k: usize = 0;
    while k < vals.len()
        invariant
            k <= vals@.len(),
            vv == names_view(vals@),
            names_view(qs@) == vv.take(k as int).map_values(|v: Seq<char>| quoted(v)),
        decreases vals@.len() - k,
    {
        let ghost before = names_view(qs@);
        qs.push(cat(cat(String::from_str("\""), vals[k].as_str()), "\""));
        proof {
            assert(names_view(qs@) =~= before.push(quoted(vv[k as int])));
            assert(vv.take(k + 1).map_values(|v: Seq<char>| quoted(v)) =~= vv.take(k as int).map_values(|v: Seq<char>| quoted(v)).push(quoted(vv[k as int])));
        }
        k += 1;
    }
    proof { assert(vv.take(vv.len() as int) =~= vv); }
    qs
}

/// The value, bound and closing lines of a property shape.
fn prop_tail_text(ps: &PropShape, last: bool) -> (r: String)
    ensures
        r@ == prop_tail(ps@, last),
{
    let ghost sh = ps@;
    let mut out = String::new();
    match &ps.values {
        Some(vals) => {
            let qs = quoted_values(vals);
            out = cat(cat(cat(out, "        sh:in ("), crate::manchester::lower::join(&qs, " ").as_str()), ") ;\n");
        },
        None => {},
    }
    let ghost a = (match sh.values {
        Some(vs) => "        sh:in ("@ + join_spec(vs.map_values(|v: Seq<char>| quoted(v)), " "@) + ") ;\n"@,
        None => Seq::empty(),
    });
    assert(out@ =~= a);
    match ps.min {
        Some(mn) => if mn > 0 {
            out = cat(cat(cat(out, "        sh:minCount "), fmt_u64(mn as u64).as_str()), " ;\n");
        },
        None => {},
    }
    let ghost a = a + (match sh.min { Some(m) => if m > 0 { "        sh:minCount "@ + decimal(m as nat) + " ;\n"@ } else { Seq::empty() }, None => Seq::empty() });
    assert(out@ =~= a);
    match ps.max {
        Some(mx) => out = cat(cat(cat(out, "        sh:maxCount "), fmt_u64(mx as u64).as_str()), " ;\n"),
        None => {},
    }
    let ghost a = a + (match sh.max { Some(m) => "        sh:maxCount "@ + decimal(m as nat) + " ;\n"@, None => Seq::empty() });
    assert(out@ =~= a);
    if last {
        out = cat(out, "    ] .\n\n");
    } else {
        out = cat(out, "    ] ;\n");
    }
    assert(out@ =~= a + (if last { "    ] .\n\n"@ } else { "    ] ;\n"@ }));
    out
}

/// The text of one property shape.
fn prop_piece(path: &String, ps: &PropShape, unique: bool, last: bool) -> (r: String)
    ensures
        r@ == prop_text(path@, ps@, unique, last),
{
    let h = prop_head_text(path, ps, unique);
    let t = prop_tail_text(ps, last);
    cat(h, t.as_str())
}

/// The node shape of one class, or nothing when no constraint is evidenced for it.
fn class_block(
    sub: &Vec<(String, String)>,
    exts: &Vec<(String, String, String, bool)>,
    attrs: &Vec<(String, String, String)>,
    cards: &Vec<(String, String, u32, Option<u32>)>,
    enums: &Vec<(String, Vec<String>)>,
    key_of: &Vec<(String, Vec<String>)>,
    unique_props: &Vec<String>,
    class: &String,
) -> (r: String)
    ensures
        r@ == block_text(
            class@,
            list_lookup(enums_view(key_of@), class@),
            block_props(
                edges_view(sub@),
                attrs_view(attrs@),
                exts_view(exts@),
                |c: Seq<char>, p: Seq<char>| card_lookup(cards_view(cards@), c, p),
                |p: Seq<char>| list_lookup(enums_view(enums@), p),
                class@,
            ),
            names_view(unique_props@),
        ),
{
    let ghost av = attrs_view(attrs@);
    let ghost xv = exts_view(exts@);
    let ghost cv = |c: Seq<char>, p: Seq<char>| card_lookup(cards_view(cards@), c, p);
    let ghost nv = |p: Seq<char>| list_lookup(enums_view(enums@), p);
    let mut props: Vec<(String, PropShape)> = Vec::new();
    let holders = ancestors_of(sub, class);
    let ghost hs = names_view(holders@);
    let ghost goal = block_props(edges_view(sub@), av, xv, cv, nv, class@);
    proof { assert(props_view(props@) =~= Seq::<(Seq<char>, ShapeV)>::empty()); }
    let mut hi: usize = 0;
    while hi < holders.len()
        invariant
            hi <= holders@.len(),
            hs == names_view(holders@),
            av == attrs_view(attrs@),
            xv == exts_view(exts@),
            cv == (|c: Seq<char>, p: Seq<char>| card_lookup(cards_view(cards@), c, p)),
            nv == (|p: Seq<char>| list_lookup(enums_view(enums@), p)),
            holders_fold(props_view(props@), hs, av, xv, cv, nv, hi as int) == goal,
        decreases holders@.len() - hi,
    {
        let holder = holders[hi].as_str();
        let ghost h = hs[hi as int];
        let ghost p0 = props_view(props@);
        let mut ai: usize = 0;
        while ai < attrs.len()
            invariant
                ai <= attrs@.len(),
                av == attrs_view(attrs@),
                cv == (|c: Seq<char>, p: Seq<char>| card_lookup(cards_view(cards@), c, p)),
                nv == (|p: Seq<char>| list_lookup(enums_view(enums@), p)),
                h == holder@,
                attrs_fold(p0, av, cv, nv, h, 0) == attrs_fold(props_view(props@), av, cv, nv, h, ai as int),
            decreases attrs@.len() - ai,
        {
            proof { assert(av[ai as int] == (attrs@[ai as int].0@, attrs@[ai as int].1@, attrs@[ai as int].2@)); }
            if eq_str(attrs[ai].0.as_str(), holder) {
                let p = attrs[ai].1.as_str();
                let (mn, mx) = match cards_get(cards, holder, p) {
                    Some((a, b)) => (Some(a), b),
                    None => (None, None),
                };
                let shape = PropShape { datatype: Some(attrs[ai].2.clone()), class: None, min: mn, max: mx, values: lists_get(enums, p) };
                proof { assert(shape@ == attr_shape(av[ai as int], cv, nv, h)); }
                prop_put(&mut props, p, shape);
            }
            ai += 1;
        }
        let ghost p1 = props_view(props@);
        let mut ei: usize = 0;
        while ei < exts.len()
            invariant
                ei <= exts@.len(),
                xv == exts_view(exts@),
                cv == (|c: Seq<char>, p: Seq<char>| card_lookup(cards_view(cards@), c, p)),
                h == holder@,
                exts_fold(p1, xv, cv, h, 0) == exts_fold(props_view(props@), xv, cv, h, ei as int),
            decreases exts@.len() - ei,
        {
            proof { assert(xv[ei as int] == (exts@[ei as int].0@, exts@[ei as int].1@, exts@[ei as int].2@, exts@[ei as int].3)); }
            if eq_str(exts[ei].0.as_str(), holder) {
                let p = exts[ei].1.as_str();
                let mut first = true;
                let mut k: usize = 0;
                while k < ei
                    invariant
                        k <= ei < exts@.len(),
                        xv == exts_view(exts@),
                        xv[ei as int].0 == holder@,
                        xv[ei as int].1 == p@,
                        first ==> forall|q: int| 0 <= q < k ==> !(#[trigger] xv[q].0 == holder@ && xv[q].1 == p@),
                        !first ==> exists|q: int| 0 <= q < k && #[trigger] xv[q].0 == holder@ && xv[q].1 == p@,
                    decreases ei - k,
                {
                    proof { assert(xv[k as int] == (exts@[k as int].0@, exts@[k as int].1@, exts@[k as int].2@, exts@[k as int].3)); }
                    if eq_str(exts[k].0.as_str(), holder) && eq_str(exts[k].1.as_str(), p) {
                        first = false;
                        assert(xv[k as int].0 == holder@ && xv[k as int].1 == p@);
                    }
                    k += 1;
                }
                proof {
                    assert(first == first_on(xv, ei as int));
                    lemma_best_count(xv, holder@, p@, xv.len() as int);
                }
                if first {
                    match winner(exts, holder, p) {
                        Some((w, n)) => {
                            let is_ex = exts[w].3;
                            let dflt: u32 = if is_ex { 1 } else { 0 };
                            let (mn, mx) = if n == 1 {
                                match cards_get(cards, holder, p) {
                                    Some(b) => b,
                                    None => (dflt, None),
                                }
                            } else {
                                (dflt, None)
                            };
                            let shape = PropShape { datatype: None, class: Some(exts[w].2.clone()), min: Some(mn), max: mx, values: None };
                            proof {
                                assert(xv[w as int] == (exts@[w as int].0@, exts@[w as int].1@, exts@[w as int].2@, exts@[w as int].3));
                                assert(shape@ == ext_shape(xv, cv, h, p@, w as int, count_upto(xv, h, p@, xv.len() as int)));
                            }
                            prop_put(&mut props, p, shape);
                        },
                        None => {},
                    }
                }
            }
            ei += 1;
        }
        hi += 1;
    }
    let ghost ps = props_view(props@);
    let ghost uq = names_view(unique_props@);
    if props.len() == 0 {
        return String::new();
    }
    let mut out = cat(cat(cat(String::from_str("<"), class.as_str()), "Shape>\n    a sh:NodeShape ;\n    sh:targetClass "), angled(class.as_str()).as_str());
    out = cat(out, " ;\n");
    let ghost head = "<"@ + class@ + "Shape>\n    a sh:NodeShape ;\n    sh:targetClass "@ + angled_spec(class@) + " ;\n"@;
    assert(out@ =~= head);
    match lists_get(key_of, class.as_str()) {
        Some(kprops) => {
            let ghost kv = names_view(kprops@);
            let mut bracketed: Vec<String> = Vec::new();
            let mut k: usize = 0;
            while k < kprops.len()
                invariant
                    k <= kprops@.len(),
                    kv == names_view(kprops@),
                    names_view(bracketed@) == kv.take(k as int).map_values(|x: Seq<char>| angled_spec(x)),
                decreases kprops@.len() - k,
            {
                let ghost before = names_view(bracketed@);
                bracketed.push(angled(kprops[k].as_str()));
                proof {
                    assert(names_view(bracketed@) =~= before.push(angled_spec(kv[k as int])));
                    assert(kv.take(k + 1).map_values(|x: Seq<char>| angled_spec(x)) =~= kv.take(k as int).map_values(|x: Seq<char>| angled_spec(x)).push(angled_spec(kv[k as int])));
                }
                k += 1;
            }
            proof { assert(kv.take(kv.len() as int) =~= kv); }
            out = cat(cat(cat(out, "    kvasir:key ( "), crate::manchester::lower::join(&bracketed, " ").as_str()), " ) ;\n");
        },
        None => {},
    }
    let ghost head = head + (match list_lookup(enums_view(key_of@), class@) {
        Some(ks) => "    kvasir:key ( "@ + join_spec(ks.map_values(|k: Seq<char>| angled_spec(k)), " "@) + " ) ;\n"@,
        None => Seq::empty(),
    });
    assert(out@ =~= head);
    let mut pi: usize = 0;
    while pi < props.len()
        invariant
            pi <= props@.len(),
            ps == props_view(props@),
            uq == names_view(unique_props@),
            out@ == head + props_upto(ps, uq, pi as int),
        decreases props@.len() - pi,
    {
        let path = &props[pi].0;
        let u = crate::manchester::lower::has(unique_props, path.as_str());
        let piece = prop_piece(path, &props[pi].1, u, pi + 1 >= props.len());
        proof { assert(ps[pi as int] == (props@[pi as int].0@, props@[pi as int].1@)); }
        let ghost before = out@;
        out = cat(out, piece.as_str());
        proof { assert(out@ =~= head + props_upto(ps, uq, pi + 1)); }
        pi += 1;
    }
    out
}

/// A property shape being read.
struct InProp {
    path: Option<String>,
    unique: bool,
    datatype: Option<String>,
    class: Option<String>,
    min: Option<u32>,
    max: Option<u32>,
    values: Vec<String>,
}

/// A property shape being read, viewed.
pub struct PropV {
    pub path: Option<Seq<char>>,
    pub unique: bool,
    pub datatype: Option<Seq<char>>,
    pub class: Option<Seq<char>>,
    pub min: Option<u32>,
    pub max: Option<u32>,
    pub values: Seq<Seq<char>>,
}

/// An optional string, viewed.
pub open spec fn opt_view(o: Option<String>) -> Option<Seq<char>> {
    match o {
        Some(x) => Some(x@),
        None => None,
    }
}

impl View for InProp {
    type V = PropV;

    closed spec fn view(&self) -> PropV {
        PropV {
            path: opt_view(self.path),
            unique: self.unique,
            datatype: opt_view(self.datatype),
            class: opt_view(self.class),
            min: self.min,
            max: self.max,
            values: names_view(self.values@),
        }
    }
}

/// A property shape with nothing read yet.
pub open spec fn empty_prop() -> PropV {
    PropV { path: None, unique: false, datatype: None, class: None, min: None, max: None, values: Seq::empty() }
}

/// `s` without its trailing `;` and `.` characters.
pub open spec fn drop_terms(s: Seq<char>) -> Seq<char>
    decreases s.len(),
{
    if s.len() > 0 && (s.last() == ';' || s.last() == '.') {
        drop_terms(s.drop_last())
    } else {
        s
    }
}

/// What follows the literal `p` at the start of `s`.
pub open spec fn rest_after(s: Seq<char>, p: Seq<char>) -> Seq<char> {
    s.subrange(p.len() as int, s.len() as int)
}

/// `p` occurs somewhere in `s`.
pub open spec fn occurs_in(s: Seq<char>, p: Seq<char>) -> bool {
    exists|k: int| 0 <= k && k + p.len() <= s.len() && #[trigger] s.subrange(k, k + p.len()) == p
}

/// An `xsd:` name expanded to its IRI, else `s` without its angle brackets.
pub open spec fn expand_xsd_spec(s: Seq<char>) -> Seq<char> {
    if starts(s, "xsd:"@) {
        "http://www.w3.org/2001/XMLSchema#"@ + rest_after(s, "xsd:"@)
    } else {
        strip_angles_spec(s)
    }
}

/// The string literals of `s` from index `i` on, in order; an unterminated one runs to
/// the end.
pub open spec fn quoted_list_from(s: Seq<char>, i: int) -> Seq<Seq<char>>
    decreases s.len() - i,
{
    if i < 0 || i >= s.len() {
        Seq::empty()
    } else if s[i] == '"' {
        let j = close_quote(s, i + 1);
        if j < i + 1 || j > s.len() {
            Seq::empty()
        } else {
            seq![s.subrange(i + 1, j)] + (if j < s.len() { quoted_list_from(s, j + 1) } else { Seq::empty() })
        }
    } else {
        quoted_list_from(s, i + 1)
    }
}

/// The line (without terminators) sets a field of the property shape being read.
pub open spec fn prop_key(body: Seq<char>) -> bool {
    starts(body, "sh:path"@) || starts(body, "sh:datatype"@) || starts(body, "sh:class"@)
        || starts(body, "sh:minCount"@) || starts(body, "sh:maxCount"@) || starts(body, "sh:in"@)
        || starts(body, "kvasir:unique"@)
}

/// The property shape after a line that sets one of its fields.
pub open spec fn prop_line(p: PropV, body: Seq<char>) -> PropV {
    if starts(body, "sh:path"@) {
        PropV { path: Some(strip_angles_spec(trim(rest_after(body, "sh:path"@)))), unique: p.unique, datatype: p.datatype, class: p.class, min: p.min, max: p.max, values: p.values }
    } else if starts(body, "sh:datatype"@) {
        PropV { path: p.path, unique: p.unique, datatype: Some(expand_xsd_spec(trim(rest_after(body, "sh:datatype"@)))), class: p.class, min: p.min, max: p.max, values: p.values }
    } else if starts(body, "sh:class"@) {
        PropV { path: p.path, unique: p.unique, datatype: p.datatype, class: Some(strip_angles_spec(trim(rest_after(body, "sh:class"@)))), min: p.min, max: p.max, values: p.values }
    } else if starts(body, "sh:minCount"@) {
        PropV { path: p.path, unique: p.unique, datatype: p.datatype, class: p.class, min: parse_u32_spec(trim(rest_after(body, "sh:minCount"@))), max: p.max, values: p.values }
    } else if starts(body, "sh:maxCount"@) {
        PropV { path: p.path, unique: p.unique, datatype: p.datatype, class: p.class, min: p.min, max: parse_u32_spec(trim(rest_after(body, "sh:maxCount"@))), values: p.values }
    } else if starts(body, "sh:in"@) {
        PropV { path: p.path, unique: p.unique, datatype: p.datatype, class: p.class, min: p.min, max: p.max, values: quoted_list_from(rest_after(body, "sh:in"@), 0) }
    } else {
        PropV { path: p.path, unique: true, datatype: p.datatype, class: p.class, min: p.min, max: p.max, values: p.values }
    }
}

/// Every character of a decimal rendering is a digit.
proof fn lemma_decimal_digits(n: nat)
    ensures
        all_digits_of(decimal(n)),
        decimal(n).len() >= 1,
    decreases n,
{
    let m: nat = n % 10;
    assert(digit_value(digit_char(m)) is Some) by {
        assert(m < 10);
        if m == 0 {} else if m == 1 {} else if m == 2 {} else if m == 3 {} else if m == 4 {}
        else if m == 5 {} else if m == 6 {} else if m == 7 {} else if m == 8 {} else {}
    }
    if n >= 10 {
        lemma_decimal_digits(n / 10);
        let d = decimal(n);
        assert forall|i: int| 0 <= i < d.len() implies (#[trigger] digit_value(d[i])) is Some by {
            if i < d.len() - 1 {
                assert(d[i] == decimal(n / 10)[i]);
            }
        }
    }
}

/// Every character is a decimal digit.
pub open spec fn all_digits_of(s: Seq<char>) -> bool {
    forall|i: int| 0 <= i < s.len() ==> (#[trigger] digit_value(s[i])) is Some
}

/// A decimal digit is no whitespace and no sign.
proof fn lemma_digit_plain(c: char)
    requires
        digit_value(c) is Some,
    ensures
        !is_ws(c),
        c != '+',
{
}

/// Trimming a space before a decimal rendering leaves the rendering.
proof fn lemma_trim_decimal(d: Seq<char>)
    requires
        all_digits_of(d),
        d.len() >= 1,
    ensures
        trim(" "@ + d) == d,
{
    reveal_strlit(" ");
    let s = " "@ + d;
    assert(is_ws(' '));
    assert(s.drop_first() =~= d);
    lemma_digit_plain(d[0]);
    assert(trim_start(s) == trim_start(d));
    assert(trim_start(d) == d);
    lemma_digit_plain(d.last());
    assert(d.last() == d[d.len() - 1]);
    assert(trim_end(d) == d);
}

/// What a shape says of a bound reads back: the body `sh:maxCount m` sets the property's
/// upper bound to `m` and `sh:minCount m` its lower bound, leaving the rest as it was.
pub proof fn lemma_bound_lines_read_back(p: PropV, m: u32)
    ensures
        prop_line(p, "sh:maxCount "@ + decimal(m as nat))
            == (PropV { path: p.path, unique: p.unique, datatype: p.datatype, class: p.class, min: p.min, max: Some(m), values: p.values }),
        prop_line(p, "sh:minCount "@ + decimal(m as nat))
            == (PropV { path: p.path, unique: p.unique, datatype: p.datatype, class: p.class, min: Some(m), max: p.max, values: p.values }),
{
    reveal_strlit("sh:maxCount ");
    reveal_strlit("sh:minCount ");
    reveal_strlit("sh:maxCount");
    reveal_strlit("sh:minCount");
    reveal_strlit("sh:path");
    reveal_strlit("sh:datatype");
    reveal_strlit("sh:class");
    reveal_strlit(" ");
    let d = decimal(m as nat);
    lemma_decimal_digits(m as nat);
    crate::ddl::lemma_decimal_value(m as nat);
    lemma_trim_decimal(d);
    lemma_digit_plain(d[0]);
    assert(all_digits(d));
    let bx = "sh:maxCount "@ + d;
    let bn = "sh:minCount "@ + d;
    assert(bx[3] == 'm' && bn[3] == 'm' && bx[4] == 'a' && bn[4] == 'i');
    assert(!starts(bx, "sh:path"@)) by { assert(bx.take(7)[3] != "sh:path"@[3]); }
    assert(!starts(bx, "sh:datatype"@)) by { assert(bx.take(11)[3] != "sh:datatype"@[3]); }
    assert(!starts(bx, "sh:class"@)) by { assert(bx.take(8)[3] != "sh:class"@[3]); }
    assert(!starts(bx, "sh:minCount"@)) by { assert(bx.take(11)[4] != "sh:minCount"@[4]); }
    assert(starts(bx, "sh:maxCount"@)) by { assert(bx.take(11) =~= "sh:maxCount"@); }
    assert(rest_after(bx, "sh:maxCount"@) =~= " "@ + d);
    assert(!starts(bn, "sh:path"@)) by { assert(bn.take(7)[3] != "sh:path"@[3]); }
    assert(!starts(bn, "sh:datatype"@)) by { assert(bn.take(11)[3] != "sh:datatype"@[3]); }
    assert(!starts(bn, "sh:class"@)) by { assert(bn.take(8)[3] != "sh:class"@[3]); }
    assert(starts(bn, "sh:minCount"@)) by { assert(bn.take(11) =~= "sh:minCount"@); }
    assert(rest_after(bn, "sh:minCount"@) =~= " "@ + d);
    assert(parse_u32_spec(d) == Some(m));
}

/// The index range of `v[a..b]` without trailing `;` and `.` characters.
fn trim_terminators(v: &Vec<char>, a: usize, b: usize) -> (r: usize)
    requires
        a <= b <= v@.len(),
    ensures
        a <= r <= b,
        v@.subrange(a as int, r as int) == drop_terms(v@.subrange(a as int, b as int)),
{
    let mut e = b;
    while e > a && (v[e - 1] == ';' || v[e - 1] == '.')
        invariant
            a <= e <= b <= v@.len(),
            drop_terms(v@.subrange(a as int, b as int)) == drop_terms(v@.subrange(a as int, e as int)),
        decreases e - a,
    {
        assert(v@.subrange(a as int, e as int).drop_last() =~= v@.subrange(a as int, e - 1));
        e -= 1;
    }
    e
}

/// `v[a..b]` trimmed, with leading `<`s and trailing `>`s removed.
fn angle(v: &Vec<char>, a: usize, b: usize) -> (r: String)
    requires
        a <= b <= v@.len(),
    ensures
        r@ == strip_angles_spec(trim(v@.subrange(a as int, b as int))),
{
    let (x, y) = crate::text::trim_range(v, a, b);
    crate::text::strip_angles(v, x, y)
}

/// The index after the literal `p`, if `v[a..b]` starts with it.
fn after_prefix(v: &Vec<char>, a: usize, b: usize, p: &str) -> (r: Option<usize>)
    requires
        a <= b <= v@.len(),
    ensures
        r is Some <==> starts(v@.subrange(a as int, b as int), p@),
        r matches Some(k) ==> k == a + p@.len() && a <= k <= b
            && v@.subrange(k as int, b as int) == rest_after(v@.subrange(a as int, b as int), p@),
{
    let pv = crate::text::chars_of(p);
    let ghost s = v@.subrange(a as int, b as int);
    if pv.len() > b - a {
        return None;
    }
    let mut i: usize = 0;
    while i < pv.len()
        invariant
            a <= b <= v@.len(),
            s == v@.subrange(a as int, b as int),
            pv@ == p@,
            pv@.len() <= b - a,
            i <= pv@.len(),
            forall|m: int| 0 <= m < i ==> v@[a + m] == pv@[m],
        decreases pv@.len() - i,
    {
        if v[a + i] != pv[i] {
            proof {
                assert(s.take(pv@.len() as int)[i as int] != p@[i as int]);
            }
            return None;
        }
        i += 1;
    }
    assert(s.take(pv@.len() as int) =~= p@);
    assert(v@.subrange((a + pv.len()) as int, b as int) =~= rest_after(s, p@));
    Some(a + pv.len())
}

/// An `xsd:` datatype expanded to its IRI, else the token without its angle brackets.
fn expand_xsd(v: &Vec<char>, a: usize, b: usize) -> (r: String)
    requires
        a <= b <= v@.len(),
    ensures
        r@ == expand_xsd_spec(v@.subrange(a as int, b as int)),
{
    match after_prefix(v, a, b, "xsd:") {
        Some(k) => cat(String::from_str("http://www.w3.org/2001/XMLSchema#"), crate::text::string_of(v, k, b).as_str()),
        None => crate::text::strip_angles(v, a, b),
    }
}

/// The string literals of `v[a..b]`, in order (an unterminated one runs to the end).
fn quoted_list(v: &Vec<char>, a: usize, b: usize) -> (r: Vec<String>)
    requires
        a <= b <= v@.len(),
    ensures
        names_view(r@) == quoted_list_from(v@.subrange(a as int, b as int), 0),
{
    let ghost s = v@.subrange(a as int, b as int);
    let mut out: Vec<String> = Vec::new();
    let mut i = a;
    while i < b
        invariant
            a <= i <= b <= v@.len(),
            s == v@.subrange(a as int, b as int),
            names_view(out@) + quoted_list_from(s, i - a) == quoted_list_from(s, 0),
        decreases b - i,
    {
        let ghost ii = i - a;
        if v[i] == '"' {
            let mut j = i + 1;
            while j < b && v[j] != '"'
                invariant
                    i < j <= b,
                    b <= v@.len(),
                    forall|m: int| i + 1 <= m < j ==> #[trigger] v@[m] != '"',
                decreases b - j,
            {
                j += 1;
            }
            proof {
                assert(s[ii] == v@[i as int]);
                assert forall|m: int| ii + 1 <= m < j - a implies #[trigger] s[m] != '"' by {
                    assert(s[m] == v@[a + m]);
                }
                if j < b { assert(s[j - a] == v@[j as int]); }
                fragment::lemma_close_quote_at(s, ii + 1, j - a);
                assert(s.subrange(ii + 1, j - a) =~= v@.subrange(i + 1, j as int));
            }
            let ghost before = names_view(out@);
            out.push(crate::text::string_of(v, i + 1, j));
            proof {
                assert(names_view(out@) =~= before.push(s.subrange(ii + 1, j - a)));
            }
            i = if j < b { j + 1 } else { b };
            proof {
                if j >= b {
                    assert(quoted_list_from(s, i - a) == Seq::<Seq<char>>::empty());
                }
                assert(names_view(out@) + quoted_list_from(s, i - a) =~= before + quoted_list_from(s, ii));
            }
        } else {
            assert(s[ii] == v@[i as int]);
            i += 1;
        }
    }
    assert(names_view(out@) + quoted_list_from(s, i - a) =~= names_view(out@));
    out
}

/// Whether `v[a..b]` holds the literal `p`.
fn contains_lit(v: &Vec<char>, a: usize, b: usize, p: &str) -> (r: bool)
    requires
        a <= b <= v@.len(),
    ensures
        r == occurs_in(v@.subrange(a as int, b as int), p@),
{
    let ghost s = v@.subrange(a as int, b as int);
    let mut i = a;
    while i <= b
        invariant
            a <= i <= b + 1,
            b <= v@.len(),
            s == v@.subrange(a as int, b as int),
            forall|k: int| 0 <= k < i - a && k + p@.len() <= s.len() ==> #[trigger] s.subrange(k, k + p@.len()) != p@,
        decreases b + 1 - i,
    {
        let f = after_prefix(v, i, b, p);
        proof {
            let k = i - a;
            let t = v@.subrange(i as int, b as int);
            if k + p@.len() <= s.len() {
                assert(t.take(p@.len() as int) =~= s.subrange(k, k + p@.len()));
            }
        }
        if f.is_some() {
            return true;
        }
        if i == b {
            return false;
        }
        i += 1;
    }
    false
}

/// The reader's state, viewed: the facts so far, the enumerations by property (sorted,
/// the first values of a property kept), the targeted class and the open property shape.
pub struct ReadV {
    pub axioms: Seq<AxiomV>,
    pub anns: Seq<AnnotationV>,
    pub enums: Seq<(Seq<char>, Seq<Seq<char>>)>,
    pub class: Option<Seq<char>>,
    pub prop: Option<PropV>,
}

/// The enumerations, viewed.
pub open spec fn enums_view(v: Seq<(String, Vec<String>)>) -> Seq<(Seq<char>, Seq<Seq<char>>)> {
    v.map_values(|e: (String, Vec<String>)| (e.0@, names_view(e.1@)))
}

/// The reader after a closed property shape `p` of `class`: `sh:unique` gives `@Unique`;
/// a datatype gives `@Attribute` (and its `sh:in` values an `@Enum`); else a class with a
/// positive minimum gives an existential, without one a `@Relation`; a minimum above one
/// or any maximum gives `@Cardinality`. A shape without a path gives nothing.
pub open spec fn flush_spec(r: ReadV, p: PropV, class: Seq<char>) -> ReadV {
    match p.path {
        None => ReadV { axioms: r.axioms, anns: r.anns, enums: r.enums, class: r.class, prop: None },
        Some(path) => {
            let mn: u32 = match p.min { Some(m) => m, None => 0 };
            let a1 = if p.unique { r.anns.push(AnnotationV::Unique(path)) } else { r.anns };
            let ax2 = match p.datatype {
                Some(_) => r.axioms,
                None => match p.class {
                    Some(c) => if mn >= 1 { r.axioms.push(AxiomV::SubClassOfExistential(class, path, c)) } else { r.axioms },
                    None => r.axioms,
                },
            };
            let a2 = match p.datatype {
                Some(dt) => a1.push(AnnotationV::Attribute(class, path, dt)),
                None => match p.class {
                    Some(c) => if mn >= 1 { a1 } else { a1.push(AnnotationV::Relation(class, path, c)) },
                    None => a1,
                },
            };
            let en2 = match p.datatype {
                Some(_) => if p.values.len() > 0 { sorted_put(r.enums, path, p.values) } else { r.enums },
                None => r.enums,
            };
            let card_worth = (match p.min { Some(m) => m > 1, None => false }) || p.max is Some;
            let a3 = if card_worth { a2.push(AnnotationV::Cardinality(class, path, mn, p.max)) } else { a2 };
            ReadV { axioms: ax2, anns: a3, enums: en2, class: r.class, prop: None }
        },
    }
}

/// The key properties of a `kvasir:key ( <p> … )` line, given what follows the keyword.
pub open spec fn key_words(rest: Seq<char>) -> Seq<Seq<char>> {
    tokens(drop_trailing(drop_leading(trim(drop_terms(rest)), '('), ')')).map_values(|t: Seq<char>| strip_angles_spec(t))
}

/// The reader after a `kvasir:key` line (`rest` follows the keyword): a `@Key` of the
/// targeted class when it names at least one property.
pub open spec fn key_step(r: ReadV, rest: Seq<char>) -> ReadV {
    match r.class {
        Some(c) => {
            let ws = key_words(rest);
            if ws.len() > 0 {
                ReadV { axioms: r.axioms, anns: r.anns.push(AnnotationV::Key(c, ws)), enums: r.enums, class: r.class, prop: r.prop }
            } else {
                r
            }
        },
        None => r,
    }
}

/// The reader after a line of the open property shape `p` (`l` is the trimmed line).
pub open spec fn prop_step(r: ReadV, p: PropV, l: Seq<char>) -> ReadV {
    let body = trim(drop_terms(l));
    if prop_key(body) {
        ReadV { axioms: r.axioms, anns: r.anns, enums: r.enums, class: r.class, prop: Some(prop_line(p, body)) }
    } else if body.len() > 0 && body[0] == ']' {
        match r.class {
            Some(c) => flush_spec(r, p, c),
            None => ReadV { axioms: r.axioms, anns: r.anns, enums: r.enums, class: r.class, prop: None },
        }
    } else {
        r
    }
}

/// The reader after the trimmed line `l`: blank lines, prefixes and comments are passed
/// over; `sh:targetClass` sets the class; `kvasir:key` gives its `@Key`; a line opening
/// `sh:property [` starts a property shape; other lines go to the open property shape.
pub open spec fn read_line(r: ReadV, l: Seq<char>) -> ReadV {
    if l.len() == 0 || l[0] == '@' || l[0] == '#' {
        r
    } else if starts(l, "sh:targetClass"@) {
        ReadV { axioms: r.axioms, anns: r.anns, enums: r.enums, class: Some(strip_angles_spec(trim(drop_terms(rest_after(l, "sh:targetClass"@))))), prop: r.prop }
    } else if starts(l, "kvasir:key"@) {
        key_step(r, rest_after(l, "kvasir:key"@))
    } else if occurs_in(l, "sh:property"@) && occurs_in(l, "["@) {
        ReadV { axioms: r.axioms, anns: r.anns, enums: r.enums, class: r.class, prop: Some(empty_prop()) }
    } else {
        match r.prop {
            Some(p) => prop_step(r, p, l),
            None => r,
        }
    }
}

/// The reader after the lines of `t` from index `i` on.
pub open spec fn read_from(t: Seq<char>, i: int, r: ReadV) -> ReadV
    decreases t.len() - i,
{
    if i < 0 || i >= t.len() {
        r
    } else {
        let j = line_end(t, i);
        if j < i || j > t.len() {
            r
        } else {
            let r1 = read_line(r, trim(line_text(t, i, j)));
            if j >= t.len() { r1 } else { read_from(t, j + 1, r1) }
        }
    }
}

/// The reader before the first line.
pub open spec fn read0() -> ReadV {
    ReadV { axioms: Seq::empty(), anns: Seq::empty(), enums: Seq::empty(), class: None, prop: None }
}

/// The facts of a shapes graph: the axioms read, then the annotations read, then one
/// `@Enum` per enumerated property in property order.
pub open spec fn parse_spec(ttl: Seq<char>) -> (Seq<AxiomV>, Seq<AnnotationV>) {
    let r = read_from(ttl, 0, read0());
    (r.axioms, r.anns + r.enums.map_values(|e: (Seq<char>, Seq<Seq<char>>)| AnnotationV::Enum(e.0, e.1)))
}

/// Store the values of `prop` unless it has some already, keeping the props sorted.
fn enum_insert(v: &mut Vec<(String, Vec<String>)>, prop: String, values: Vec<String>)
    ensures
        enums_view(final(v)@) == sorted_put(enums_view(old(v)@), prop@, names_view(values@)),
{
    let ghost e = enums_view(v@);
    let ghost k = prop@;
    let ghost vals = names_view(values@);
    let mut i: usize = 0;
    proof { assert(e.take(0) + e.skip(0) =~= e); assert(e.take(0) + sorted_put(e.skip(0), k, vals) =~= sorted_put(e, k, vals)); }
    while i < v.len()
        invariant
            i <= v@.len(),
            e == enums_view(v@),
            e == enums_view(old(v)@),
            k == prop@,
            vals == names_view(values@),
            sorted_put(e, k, vals) == e.take(i as int) + sorted_put(e.skip(i as int), k, vals),
        ensures
            i <= v@.len(),
            e == enums_view(v@),
            sorted_put(e, k, vals) == e.take(i as int) + sorted_put(e.skip(i as int), k, vals),
            i == v@.len() || (seq_lt(k, e[i as int].0) && e[i as int].0 != k),
        decreases v@.len() - i,
    {
        let c = compare_str(v[i].0.as_str(), prop.as_str());
        proof { assert(e.skip(i as int)[0] == e[i as int]); assert(e[i as int].0 == v@[i as int].0@); }
        match c {
            Cmp3::Less => {
                proof {
                    assert(e.skip(i as int).drop_first() =~= e.skip(i + 1));
                    assert(e.take(i + 1) =~= e.take(i as int) + seq![e[i as int]]);
                    assert(e.take(i as int) + sorted_put(e.skip(i as int), k, vals)
                        =~= e.take(i + 1) + sorted_put(e.skip(i + 1), k, vals));
                }
            },
            Cmp3::Equal => {
                proof { assert(e.take(i as int) + e.skip(i as int) =~= e); }
                return;
            },
            Cmp3::Greater => {
                break;
            },
        }
        i += 1;
    }
    let ghost ent = (prop@, names_view(values@));
    v.insert(i, (prop, values));
    proof {
        if i < e.len() {
            assert(e.skip(i as int)[0] == e[i as int]);
        }
        assert(sorted_put(e.skip(i as int), k, vals) =~= seq![ent] + e.skip(i as int));
        assert(enums_view(v@) =~= e.take(i as int) + (seq![ent] + e.skip(i as int)));
    }
}

/// Close a property shape of `class` into facts.
fn flush_prop(p: InProp, class: &String, rd: &mut Reader)
    requires
        old(rd).prop is None,
    ensures
        final(rd)@ == flush_spec(old(rd)@, p@, class@),
{
    let ghost r0 = rd@;
    let ghost pv = p@;
    let path = match p.path {
        Some(x) => x,
        None => return,
    };
    if p.unique {
        rd.annotations.push(Annotation::Unique { prop: path.clone() });
    }
    let card_worth = match p.min { Some(m) => m > 1, None => false } || p.max.is_some();
    let mn = match p.min { Some(m) => m, None => 0 };
    match p.datatype {
        Some(dt) => {
            rd.annotations.push(Annotation::Attribute { class: class.clone(), prop: path.clone(), xsd: dt });
            if p.values.len() > 0 {
                enum_insert(&mut rd.enums, path.clone(), p.values);
            }
        },
        None => match p.class {
            Some(cls) => {
                if mn >= 1 {
                    rd.axioms.push(Axiom::SubClassOfExistential { sub: class.clone(), role: path.clone(), filler: cls });
                } else {
                    rd.annotations.push(Annotation::Relation { class: class.clone(), prop: path.clone(), target: cls });
                }
            },
            None => {},
        },
    }
    if card_worth {
        rd.annotations.push(Annotation::Cardinality { class: class.clone(), prop: path, min: mn, max: p.max });
    }
    proof {
        let f = flush_spec(r0, pv, class@);
        assert(axioms_view(rd.axioms@) =~= f.axioms);
        assert(annotations_view(rd.annotations@) =~= f.anns);
        assert(rd@ == f);
    }
}

/// The state of the reader.
struct Reader {
    axioms: Vec<Axiom>,
    annotations: Vec<Annotation>,
    enums: Vec<(String, Vec<String>)>,
    class: Option<String>,
    prop: Option<InProp>,
}

impl View for Reader {
    type V = ReadV;

    closed spec fn view(&self) -> ReadV {
        ReadV {
            axioms: axioms_view(self.axioms@),
            anns: annotations_view(self.annotations@),
            enums: enums_view(self.enums@),
            class: opt_view(self.class),
            prop: match self.prop {
                Some(p) => Some(p@),
                None => None,
            },
        }
    }
}

/// Apply a line of the open property shape that sets one of its fields; false (and the
/// shape unchanged) when the line sets none.
fn prop_field(p: &mut InProp, v: &Vec<char>, x: usize, y: usize) -> (r: bool)
    requires
        x <= y <= v@.len(),
    ensures
        r == prop_key(v@.subrange(x as int, y as int)),
        r ==> final(p)@ == prop_line(old(p)@, v@.subrange(x as int, y as int)),
        !r ==> final(p)@ == old(p)@,
{
    if let Some(k) = after_prefix(v, x, y, "sh:path") {
        p.path = Some(angle(v, k, y));
        return true;
    }
    if let Some(k) = after_prefix(v, x, y, "sh:datatype") {
        let (q, w) = crate::text::trim_range(v, k, y);
        p.datatype = Some(expand_xsd(v, q, w));
        return true;
    }
    if let Some(k) = after_prefix(v, x, y, "sh:class") {
        p.class = Some(angle(v, k, y));
        return true;
    }
    if let Some(k) = after_prefix(v, x, y, "sh:minCount") {
        let (q, w) = crate::text::trim_range(v, k, y);
        p.min = crate::text::parse_u32(&crate::text::string_of(v, q, w));
        return true;
    }
    if let Some(k) = after_prefix(v, x, y, "sh:maxCount") {
        let (q, w) = crate::text::trim_range(v, k, y);
        p.max = crate::text::parse_u32(&crate::text::string_of(v, q, w));
        return true;
    }
    if let Some(k) = after_prefix(v, x, y, "sh:in") {
        p.values = quoted_list(v, k, y);
        return true;
    }
    if after_prefix(v, x, y, "kvasir:unique").is_some() {
        p.unique = true;
        return true;
    }
    false
}

/// A `kvasir:key` line whose keyword ends at `k`.
fn key_line(rd: &mut Reader, v: &Vec<char>, k: usize, b: usize)
    requires
        k <= b <= v@.len(),
    ensures
        final(rd)@ == key_step(old(rd)@, v@.subrange(k as int, b as int)),
{
    let ghost rest = v@.subrange(k as int, b as int);
    match &rd.class {
        Some(cls) => {
            let c = cls.clone();
            let t = trim_terminators(v, k, b);
            let (x, y) = crate::text::trim_range(v, k, t);
            let mut x2 = x;
            while x2 < y && v[x2] == '('
                invariant
                    x <= x2 <= y <= v@.len(),
                    drop_leading(v@.subrange(x as int, y as int), '(') == drop_leading(v@.subrange(x2 as int, y as int), '('),
                decreases y - x2,
            {
                assert(v@.subrange(x2 as int, y as int).drop_first() =~= v@.subrange(x2 + 1, y as int));
                x2 += 1;
            }
            let mut y2 = y;
            while y2 > x2 && v[y2 - 1] == ')'
                invariant
                    x2 <= y2 <= y <= v@.len(),
                    drop_trailing(v@.subrange(x2 as int, y as int), ')') == drop_trailing(v@.subrange(x2 as int, y2 as int), ')'),
                decreases y2 - x2,
            {
                assert(v@.subrange(x2 as int, y2 as int).drop_last() =~= v@.subrange(x2 as int, y2 - 1));
                y2 -= 1;
            }
            let words = crate::text::split_tokens(v, x2, y2);
            proof {
                assert(v@.subrange(x2 as int, y2 as int) == drop_trailing(drop_leading(trim(drop_terms(rest)), '('), ')'));
            }
            if words.len() > 0 {
                let ghost r0 = rd@;
                rd.annotations.push(Annotation::Key { class: c, props: words });
                proof { assert(annotations_view(rd.annotations@) =~= r0.anns.push(AnnotationV::Key(r0.class->0, key_words(rest)))); }
            }
        },
        None => {},
    }
}

/// One trimmed line `v[a..b]` of a shapes graph.
fn read_line_exec(rd: &mut Reader, v: &Vec<char>, a: usize, b: usize)
    requires
        a <= b <= v@.len(),
    ensures
        final(rd)@ == read_line(old(rd)@, v@.subrange(a as int, b as int)),
{
    let ghost l = v@.subrange(a as int, b as int);
    if !(a < b && v[a] != '@' && v[a] != '#') {
        proof { if a < b { assert(l[0] == v@[a as int]); } }
        return;
    }
    assert(l[0] == v@[a as int]);
    if let Some(k) = after_prefix(v, a, b, "sh:targetClass") {
        let t = trim_terminators(v, k, b);
        rd.class = Some(angle(v, k, t));
        return;
    }
    if let Some(k) = after_prefix(v, a, b, "kvasir:key") {
        key_line(rd, v, k, b);
        return;
    }
    if contains_lit(v, a, b, "sh:property") && contains_lit(v, a, b, "[") {
        rd.prop = Some(InProp { path: None, unique: false, datatype: None, class: None, min: None, max: None, values: Vec::new() });
        proof {
            let q = rd.prop->0;
            assert(names_view(q.values@) =~= Seq::<Seq<char>>::empty());
            assert(q@ == empty_prop());
        }
        return;
    }
    let ghost r0 = rd@;
    let taken = rd.prop.take();
    match taken {
        Some(mut p) => {
            let t = trim_terminators(v, a, b);
            let (x, y) = crate::text::trim_range(v, a, t);
            if prop_field(&mut p, v, x, y) {
                rd.prop = Some(p);
            } else if x < y && v[x] == ']' {
                proof { assert(v@.subrange(x as int, y as int)[0] == v@[x as int]); }
                match &rd.class {
                    Some(cls) => {
                        let c = cls.clone();
                        flush_prop(p, &c, rd);
                    },
                    None => {},
                }
            } else {
                proof { if x < y { assert(v@.subrange(x as int, y as int)[0] == v@[x as int]); } }
                rd.prop = Some(p);
            }
        },
        None => {},
    }
}

/// Read a SHACL Core shapes graph (the Turtle subset [`emit`] produces and a conformant
/// author writes) back into tiered facts: `sh:class` with a positive `sh:minCount` is an
/// existential; `sh:class` without one a `@Relation`; `sh:datatype` an `@Attribute`;
/// `sh:in` an `@Enum`; a minimum above one or any maximum a `@Cardinality`.
pub fn parse(ttl: &str) -> (r: (Vec<Axiom>, Vec<Annotation>))
    ensures
        (axioms_view(r.0@), annotations_view(r.1@)) == parse_spec(ttl@),
{
    let mut rd = Reader { axioms: Vec::new(), annotations: Vec::new(), enums: Vec::new(), class: None, prop: None };
    let v = crate::text::chars_of(ttl);
    let n = v.len();
    let ghost t = v@;
    let ghost goal = read_from(t, 0, read0());
    proof {
        assert(axioms_view(rd.axioms@) =~= Seq::<AxiomV>::empty());
        assert(annotations_view(rd.annotations@) =~= Seq::<AnnotationV>::empty());
        assert(enums_view(rd.enums@) =~= Seq::<(Seq<char>, Seq<Seq<char>>)>::empty());
        assert(rd@ == read0());
    }
    let mut i: usize = 0;
    while i < n
        invariant
            i <= n,
            n == v@.len(),
            t == v@,
            read_from(t, i as int, rd@) == goal,
        decreases n - i,
    {
        let mut j = i;
        while j < n && v[j] != '\n'
            invariant
                i <= j <= n,
                n == v@.len(),
                forall|m: int| i <= m < j ==> #[trigger] v@[m] != '\n',
            decreases n - j,
        {
            j += 1;
        }
        proof { crate::fragment::lemma_line_end_at(t, i as int, j as int); }
        let mut e = j;
        if j < n && e > i && v[e - 1] == '\r' {
            e -= 1;
        }
        proof {
            let pl = t.subrange(i as int, j as int);
            if j < n && pl.len() > 0 && pl.last() == '\r' {
                assert(v@.subrange(i as int, e as int) =~= pl.drop_last());
            } else {
                assert(v@.subrange(i as int, e as int) =~= pl);
            }
        }
        let (a, b) = crate::text::trim_range(&v, i, e);
        read_line_exec(&mut rd, &v, a, b);
        if j >= n {
            i = n;
        } else {
            i = j + 1;
        }
    }
    let ghost anns0 = annotations_view(rd.annotations@);
    let ghost ens = enums_view(rd.enums@);
    let ghost ax0 = axioms_view(rd.axioms@);
    proof { assert(anns0 + ens.take(0).map_values(|e: (Seq<char>, Seq<Seq<char>>)| AnnotationV::Enum(e.0, e.1)) =~= anns0); }
    let mut k: usize = 0;
    while k < rd.enums.len()
        invariant
            k <= rd.enums@.len(),
            ens == enums_view(rd.enums@),
            ax0 == axioms_view(rd.axioms@),
            annotations_view(rd.annotations@) == anns0 + ens.take(k as int).map_values(|e: (Seq<char>, Seq<Seq<char>>)| AnnotationV::Enum(e.0, e.1)),
        decreases rd.enums@.len() - k,
    {
        let ghost before = annotations_view(rd.annotations@);
        let a = Annotation::Enum { prop: rd.enums[k].0.clone(), values: copy_names(&rd.enums[k].1) };
        let ghost av = a@;
        proof {
            assert(ens[k as int] == (rd.enums@[k as int].0@, names_view(rd.enums@[k as int].1@)));
            assert(av == AnnotationV::Enum(ens[k as int].0, ens[k as int].1));
        }
        rd.annotations.push(a);
        proof {
            assert(annotations_view(rd.annotations@) =~= before.push(av));
            assert(ens.take(k + 1) =~= ens.take(k as int).push(ens[k as int]));
            assert(annotations_view(rd.annotations@) =~= anns0 + ens.take(k + 1).map_values(|e: (Seq<char>, Seq<Seq<char>>)| AnnotationV::Enum(e.0, e.1)));
        }
        k += 1;
    }
    proof { assert(ens.take(ens.len() as int) =~= ens); }
    (rd.axioms, rd.annotations)
}

} // verus!
