//! The binary fact stream: names interned once, axioms as integer facts.
//!
//! The stream's schema is the fragment: out-of-fragment constructs are unrepresentable, so
//! reading has structural duties only (in-range name indexes, non-degenerate axioms), each
//! violation a loud [`OutOfFragment`] naming the axiom's position, never a default. Writing
//! interns every name in first-seen order.
use vstd::prelude::*;
use crate::fragment::{Axiom, AxiomV, OutOfFragment, RejectV, axioms_view, names_view};
use crate::text::{cat, decimal, eq_str, fmt_u64};

verus! {

/// An axiom with its names as indexes into the stream's name table.
#[derive(Debug, Clone, PartialEq, Eq)]
pub enum BinAxiom {
    Sub(u32, u32),
    Eq(u32, Vec<u32>),
    Ex(u32, u32, u32),
    Dis(u32, u32),
    Assert(u32, u32),
}

/// A binary axiom, viewed.
pub enum BinAxiomV {
    Sub(u32, u32),
    Eq(u32, Seq<u32>),
    Ex(u32, u32, u32),
    Dis(u32, u32),
    Assert(u32, u32),
}

impl View for BinAxiom {
    type V = BinAxiomV;

    open spec fn view(&self) -> BinAxiomV {
        match self {
            BinAxiom::Sub(a, b) => BinAxiomV::Sub(*a, *b),
            BinAxiom::Eq(a, ps) => BinAxiomV::Eq(*a, ps@),
            BinAxiom::Ex(a, b, c) => BinAxiomV::Ex(*a, *b, *c),
            BinAxiom::Dis(a, b) => BinAxiomV::Dis(*a, *b),
            BinAxiom::Assert(a, b) => BinAxiomV::Assert(*a, *b),
        }
    }
}

/// The views of binary axioms.
pub open spec fn bins_view(v: Seq<BinAxiom>) -> Seq<BinAxiomV> {
    v.map_values(|b: BinAxiom| b@)
}

/// A fact stream: the interned names, the axioms over them, and where it came from.
#[derive(Debug, Clone, PartialEq, Eq)]
pub struct FactStream {
    pub names: Vec<String>,
    pub axioms: Vec<BinAxiom>,
    pub source: String,
}

/// The rejection of an out-of-range name index in the axiom at position `i`.
pub open spec fn index_error(ix: u32, n: nat, i: int) -> RejectV {
    RejectV {
        line: (i + 1) as nat,
        construct: "name-index"@,
        detail: "index "@ + decimal(ix as nat) + " out of range ("@ + decimal(n) + " interned names)"@,
    }
}

/// The first part index that is out of range, from `k` on.
pub open spec fn first_bad(ps: Seq<u32>, n: nat, k: int) -> Option<u32>
    decreases ps.len() - k,
{
    if k < 0 || k >= ps.len() {
        None
    } else if ps[k] >= n {
        Some(ps[k])
    } else {
        first_bad(ps, n, k + 1)
    }
}

/// One binary axiom at position `i`, resolved against the names (fields in order).
pub open spec fn resolve_one(names: Seq<Seq<char>>, b: BinAxiomV, i: int) -> Result<AxiomV, RejectV> {
    let n = names.len();
    match b {
        BinAxiomV::Sub(s, p) => if s >= n {
            Err(index_error(s, n, i))
        } else if p >= n {
            Err(index_error(p, n, i))
        } else {
            Ok(AxiomV::SubClassOf(names[s as int], names[p as int]))
        },
        BinAxiomV::Eq(l, ps) => if ps.len() == 0 {
            Err(RejectV { line: (i + 1) as nat, construct: "Axiom"@, detail: "EquivalentToIntersection with no conjuncts"@ })
        } else {
            match first_bad(ps, n, 0) {
                Some(x) => Err(index_error(x, n, i)),
                None => if l >= n {
                    Err(index_error(l, n, i))
                } else {
                    Ok(AxiomV::EquivalentToIntersection(names[l as int], ps.map_values(|x: u32| names[x as int])))
                },
            }
        },
        BinAxiomV::Ex(s, r, f) => if s >= n {
            Err(index_error(s, n, i))
        } else if r >= n {
            Err(index_error(r, n, i))
        } else if f >= n {
            Err(index_error(f, n, i))
        } else {
            Ok(AxiomV::SubClassOfExistential(names[s as int], names[r as int], names[f as int]))
        },
        BinAxiomV::Dis(a, c) => if a >= n {
            Err(index_error(a, n, i))
        } else if c >= n {
            Err(index_error(c, n, i))
        } else {
            Ok(AxiomV::DisjointClasses(names[a as int], names[c as int]))
        },
        BinAxiomV::Assert(c, x) => if c >= n {
            Err(index_error(c, n, i))
        } else if x >= n {
            Err(index_error(x, n, i))
        } else {
            Ok(AxiomV::ClassAssertion(names[c as int], names[x as int]))
        },
    }
}

/// The axioms from position `i` on, resolved; the first failure rejects the stream.
pub open spec fn resolve_from(names: Seq<Seq<char>>, bins: Seq<BinAxiomV>, i: int) -> Result<Seq<AxiomV>, RejectV>
    decreases bins.len() - i,
{
    if i < 0 || i >= bins.len() {
        Ok(Seq::empty())
    } else {
        match resolve_one(names, bins[i], i) {
            Err(e) => Err(e),
            Ok(a) => match resolve_from(names, bins, i + 1) {
                Ok(rest) => Ok(seq![a] + rest),
                Err(e) => Err(e),
            },
        }
    }
}

/// `p` before a resolution, or its error.
pub open spec fn after(p: Seq<AxiomV>, r: Result<Seq<AxiomV>, RejectV>) -> Result<Seq<AxiomV>, RejectV> {
    match r {
        Ok(s) => Ok(p + s),
        Err(e) => Err(e),
    }
}

/// The name at `ix`, or the out-of-range rejection for the axiom at position `at`.
fn name_at(names: &Vec<String>, ix: u32, at: usize) -> (r: Result<String, OutOfFragment>)
    requires
        at < usize::MAX,
    ensures
        (ix as nat) < names@.len() ==> (r matches Ok(s) && s@ == names@[ix as int]@),
        (ix as nat) >= names@.len() ==> (r matches Err(e) && e@ == index_error(ix, names@.len(), at as int)),
{
    if (ix as usize) < names.len() {
        Ok(names[ix as usize].clone())
    } else {
        let d = cat(cat(cat(String::from_str("index "), fmt_u64(ix as u64).as_str()), " out of range ("), fmt_u64(names.len() as u64).as_str());
        proof { assert((at + 1) as nat == (at as int + 1) as nat); }
        Err(OutOfFragment { line: at + 1, construct: String::from_str("name-index"), detail: cat(d, " interned names)") })
    }
}

/// Resolve one binary axiom at position `i`.
fn resolve_axiom(names: &Vec<String>, b: &BinAxiom, i: usize) -> (r: Result<Axiom, OutOfFragment>)
    requires
        i < usize::MAX,
    ensures
        match resolve_one(names_view(names@), b@, i as int) {
            Ok(a) => r matches Ok(x) && x@ == a,
            Err(e) => r matches Err(x) && x@ == e,
        },
{
    let ghost nv = names_view(names@);
    match b {
        BinAxiom::Sub(s, p) => {
            let s1 = match name_at(names, *s, i) { Ok(x) => x, Err(e) => return Err(e) };
            let p1 = match name_at(names, *p, i) { Ok(x) => x, Err(e) => return Err(e) };
            Ok(Axiom::SubClassOf { sub: s1, sup: p1 })
        },
        BinAxiom::Eq(l, ps) => {
            if ps.len() == 0 {
                return Err(OutOfFragment {
                    line: i + 1,
                    construct: String::from_str("Axiom"),
                    detail: String::from_str("EquivalentToIntersection with no conjuncts"),
                });
            }
            let mut parts: Vec<String> = Vec::new();
            let mut k: usize = 0;
            while k < ps.len()
                invariant
                    nv == names_view(names@),
                    k <= ps@.len(),
                    i < usize::MAX,
                    ps@.len() > 0,
                    b@ == BinAxiomV::Eq(*l, ps@),
                    nv.len() == names@.len(),
                    first_bad(ps@, nv.len(), 0) == first_bad(ps@, nv.len(), k as int),
                    names_view(parts@) == ps@.take(k as int).map_values(|x: u32| nv[x as int]),
                decreases ps@.len() - k,
            {
                let x = match name_at(names, ps[k], i) {
                    Ok(x) => x,
                    Err(e) => {
                        assert(first_bad(ps@, nv.len(), k as int) == Some(ps@[k as int]));
                        return Err(e);
                    },
                };
                assert(first_bad(ps@, nv.len(), k as int) == first_bad(ps@, nv.len(), k + 1));
                let ghost before = names_view(parts@);
                parts.push(x);
                proof {
                    assert(names_view(parts@) =~= before.push(nv[ps@[k as int] as int]));
                    assert(ps@.take(k + 1).map_values(|x: u32| nv[x as int]) =~= ps@.take(k as int).map_values(|x: u32| nv[x as int]).push(nv[ps@[k as int] as int]));
                }
                k += 1;
            }
            proof { assert(ps@.take(ps@.len() as int) =~= ps@); }
            let c = match name_at(names, *l, i) { Ok(x) => x, Err(e) => return Err(e) };
            Ok(Axiom::EquivalentToIntersection { class: c, parts })
        },
        BinAxiom::Ex(s, r, f) => {
            let s1 = match name_at(names, *s, i) { Ok(x) => x, Err(e) => return Err(e) };
            let r1 = match name_at(names, *r, i) { Ok(x) => x, Err(e) => return Err(e) };
            let f1 = match name_at(names, *f, i) { Ok(x) => x, Err(e) => return Err(e) };
            Ok(Axiom::SubClassOfExistential { sub: s1, role: r1, filler: f1 })
        },
        BinAxiom::Dis(a, c) => {
            let a1 = match name_at(names, *a, i) { Ok(x) => x, Err(e) => return Err(e) };
            let c1 = match name_at(names, *c, i) { Ok(x) => x, Err(e) => return Err(e) };
            Ok(Axiom::DisjointClasses { a: a1, b: c1 })
        },
        BinAxiom::Assert(c, x) => {
            let c1 = match name_at(names, *c, i) { Ok(v) => v, Err(e) => return Err(e) };
            let x1 = match name_at(names, *x, i) { Ok(v) => v, Err(e) => return Err(e) };
            Ok(Axiom::ClassAssertion { class: c1, individual: x1 })
        },
    }
}

/// Resolve a fact stream's axioms against its names: the first out-of-range index or
/// degenerate axiom rejects the stream, naming the axiom's position.
pub fn read(fs: &FactStream) -> (r: Result<Vec<Axiom>, OutOfFragment>)
    ensures
        match resolve_from(names_view(fs.names@), bins_view(fs.axioms@), 0) {
            Ok(axs) => r matches Ok(v) && axioms_view(v@) == axs,
            Err(e) => r matches Err(x) && x@ == e,
        },
{
    let ghost nv = names_view(fs.names@);
    let ghost bv = bins_view(fs.axioms@);
    let mut out: Vec<Axiom> = Vec::new();
    let mut i: usize = 0;
    proof { assert(after(axioms_view(out@), resolve_from(nv, bv, 0)) =~= resolve_from(nv, bv, 0)) by {
        match resolve_from(nv, bv, 0) {
            Ok(s) => { assert(axioms_view(out@) + s =~= s); },
            Err(_) => {},
        }
    } }
    while i < fs.axioms.len()
        invariant
            nv == names_view(fs.names@),
            bv == bins_view(fs.axioms@),
            i <= bv.len(),
            resolve_from(nv, bv, 0) == after(axioms_view(out@), resolve_from(nv, bv, i as int)),
        decreases bv.len() - i,
    {
        let ghost before = axioms_view(out@);
        match resolve_axiom(&fs.names, &fs.axioms[i], i) {
            Err(e) => return Err(e),
            Ok(a) => {
                let ghost av = a@;
                out.push(a);
                proof {
                    assert(axioms_view(out@) =~= before.push(av));
                    match resolve_from(nv, bv, i + 1) {
                        Ok(rest) => { assert(before + (seq![av] + rest) =~= before.push(av) + rest); },
                        Err(_) => {},
                    }
                }
            },
        }
        i += 1;
    }
    proof { assert(axioms_view(out@) + Seq::<AxiomV>::empty() =~= axioms_view(out@)); }
    Ok(out)
}


/// The binary stream can hold the axiom (it has no property range or domain forms).
pub open spec fn representable(a: AxiomV) -> bool {
    !(a is PropertyRange) && !(a is PropertyDomain)
}

/// The binary axiom's indexes are all below `n`.
pub open spec fn in_range(b: BinAxiomV, n: nat) -> bool {
    match b {
        BinAxiomV::Sub(x, y) => x < n && y < n,
        BinAxiomV::Eq(x, ps) => x < n && forall|k: int| 0 <= k < ps.len() ==> ps[k] < n,
        BinAxiomV::Ex(x, y, z) => x < n && y < n && z < n,
        BinAxiomV::Dis(x, y) => x < n && y < n,
        BinAxiomV::Assert(x, y) => x < n && y < n,
    }
}

/// `ns` with `x` added at the end unless it is there already.
pub open spec fn add_name_spec(ns: Seq<Seq<char>>, x: Seq<char>) -> Seq<Seq<char>> {
    if ns.contains(x) { ns } else { ns.push(x) }
}

/// `ns` after meeting the names `xs` in order.
pub open spec fn intern_all(ns: Seq<Seq<char>>, xs: Seq<Seq<char>>) -> Seq<Seq<char>>
    decreases xs.len(),
{
    if xs.len() == 0 { ns } else { add_name_spec(intern_all(ns, xs.drop_last()), xs.last()) }
}

/// The names of an axiom in the order they are met (none for a property axiom).
pub open spec fn axiom_names(a: AxiomV) -> Seq<Seq<char>> {
    match a {
        AxiomV::SubClassOf(x, y) => seq![x, y],
        AxiomV::EquivalentToIntersection(c, ps) => seq![c] + ps,
        AxiomV::SubClassOfExistential(x, r, y) => seq![x, r, y],
        AxiomV::DisjointClasses(x, y) => seq![x, y],
        AxiomV::ClassAssertion(c, i) => seq![c, i],
        _ => Seq::empty(),
    }
}

/// The names of the axioms, each once, in first-seen order.
pub open spec fn first_seen(axs: Seq<AxiomV>) -> Seq<Seq<char>>
    decreases axs.len(),
{
    if axs.len() == 0 { Seq::empty() } else { intern_all(first_seen(axs.drop_last()), axiom_names(axs.last())) }
}


/// The index of `s` in the names, appending it when new.
fn intern_name(names: &mut Vec<String>, s: &String) -> (ix: u32)
    requires
        names_view(old(names)@).no_duplicates(),
        old(names)@.len() < u32::MAX,
    ensures
        names_view(final(names)@).no_duplicates(),
        (ix as nat) < final(names)@.len(),
        final(names)@[ix as int]@ == s@,
        old(names)@.len() <= final(names)@.len() <= old(names)@.len() + 1,
        names_view(old(names)@) == names_view(final(names)@).take(old(names)@.len() as int),
        names_view(final(names)@) == add_name_spec(names_view(old(names)@), s@),
{
    let ghost nv = names_view(names@);
    let mut i: usize = 0;
    while i < names.len()
        invariant
            nv == names_view(names@),
            nv.no_duplicates(),
            i <= names@.len(),
            names@.len() < u32::MAX,
            forall|j: int| 0 <= j < i ==> names@[j]@ != s@,
        decreases names@.len() - i,
    {
        if eq_str(names[i].as_str(), s.as_str()) {
            proof { assert(nv.take(names@.len() as int) =~= nv); assert(nv[i as int] == s@); assert(nv.contains(s@)); }
            return i as u32;
        }
        i += 1;
    }
    let ix = names.len() as u32;
    proof {
        if nv.contains(s@) {
            let j = choose|j: int| 0 <= j < nv.len() && nv[j] == s@;
            assert(names@[j]@ == nv[j]);
        }
    }
    names.push(s.clone());
    proof {
        let nn = names_view(names@);
        assert(nn =~= nv.push(s@));
        assert forall|a: int, b: int| 0 <= a < b < nn.len() implies nn[a] != nn[b] by {
            if b == nn.len() - 1 {
                assert(nn[a] == names@[a]@);
            } else {
                assert(nn[a] == nv[a] && nn[b] == nv[b]);
            }
        }
        assert(nn.take(nv.len() as int) =~= nv);
    }
    ix
}

/// Resolution against names extended at the end gives what it gave before.
proof fn lemma_resolve_extend(names: Seq<Seq<char>>, more: Seq<Seq<char>>, b: BinAxiomV, i: int)
    requires
        in_range(b, names.len()),
    ensures
        resolve_one(names + more, b, i) == resolve_one(names, b, i),
{
    let n2 = names + more;
    match b {
        BinAxiomV::Eq(l, ps) => {
            assert forall|k: int| 0 <= k < ps.len() implies n2[ps[k] as int] == names[ps[k] as int] by {}
            assert(ps.map_values(|x: u32| n2[x as int]) =~= ps.map_values(|x: u32| names[x as int]));
            lemma_first_bad_none(ps, names.len(), 0);
            lemma_first_bad_none(ps, n2.len(), 0);
        },
        _ => {},
    }
}

/// With every part in range, no part is out of range.
proof fn lemma_first_bad_none(ps: Seq<u32>, n: nat, k: int)
    requires
        forall|j: int| 0 <= j < ps.len() ==> ps[j] < n,
        0 <= k,
    ensures
        first_bad(ps, n, k) is None,
    decreases ps.len() - k,
{
    if k < ps.len() {
        lemma_first_bad_none(ps, n, k + 1);
    }
}

/// Every axiom resolving by itself makes the whole stream resolve.
proof fn lemma_resolve_all(names: Seq<Seq<char>>, bins: Seq<BinAxiomV>, axs: Seq<AxiomV>, i: int)
    requires
        bins.len() == axs.len(),
        0 <= i <= bins.len(),
        forall|j: int| 0 <= j < bins.len() ==> resolve_one(names, #[trigger] bins[j], j) == Ok::<AxiomV, RejectV>(axs[j]),
    ensures
        resolve_from(names, bins, i) == Ok::<Seq<AxiomV>, RejectV>(axs.skip(i)),
    decreases bins.len() - i,
{
    if i < bins.len() {
        lemma_resolve_all(names, bins, axs, i + 1);
        assert(seq![axs[i]] + axs.skip(i + 1) =~= axs.skip(i));
    } else {
        assert(axs.skip(i) =~= Seq::<AxiomV>::empty());
    }
}

/// Intern the axioms into a fact stream: every name once, in first-seen order, each axiom
/// over the indexes of its names. Reading the stream back gives the axioms again.
#[verifier::rlimit(80)]
pub fn write(axioms: &[Axiom], source: &str) -> (r: FactStream)
    requires
        forall|j: int| 0 <= j < axioms@.len() ==> representable(#[trigger] axioms@[j]@),
        first_seen(axioms_view(axioms@)).len() < u32::MAX,
    ensures
        r.source@ == source@,
        names_view(r.names@).no_duplicates(),
        names_view(r.names@) == first_seen(axioms_view(axioms@)),
        r.axioms@.len() == axioms@.len(),
        forall|j: int| 0 <= j < r.axioms@.len() ==> in_range(#[trigger] r.axioms@[j]@, r.names@.len()),
        forall|j: int| 0 <= j < r.axioms@.len()
            ==> resolve_one(names_view(r.names@), #[trigger] r.axioms@[j]@, j) == written_as(axioms_view(axioms@)[j], j),
        (forall|j: int| 0 <= j < axioms@.len() ==> !(#[trigger] axioms@[j]@ matches AxiomV::EquivalentToIntersection(_, ps) && ps.len() == 0))
            ==> resolve_from(names_view(r.names@), bins_view(r.axioms@), 0) == Ok::<Seq<AxiomV>, RejectV>(axioms_view(axioms@)),
{
    let ghost axs = axioms_view(axioms@);
    let mut names: Vec<String> = Vec::new();
    let mut bins: Vec<BinAxiom> = Vec::new();
    proof { assert(names_view(names@) =~= Seq::<Seq<char>>::empty()); assert(axs.take(0) =~= Seq::<AxiomV>::empty()); }
    let mut i: usize = 0;
    while i < axioms.len()
        invariant
            axs == axioms_view(axioms@),
            i <= axs.len(),
            first_seen(axs).len() < u32::MAX,
            forall|j: int| 0 <= j < axioms@.len() ==> representable(#[trigger] axioms@[j]@),
            names_view(names@).no_duplicates(),
            names_view(names@) == first_seen(axs.take(i as int)),
            bins@.len() == i,
            forall|j: int| 0 <= j < i ==> in_range(#[trigger] bins@[j]@, names@.len()),
            forall|j: int| 0 <= j < i ==> resolve_one(names_view(names@), #[trigger] bins@[j]@, j) == written_as(axs[j], j),
        decreases axs.len() - i,
    {
        proof {
            lemma_first_seen_prefix(axs, i + 1);
            assert(axs.take(i + 1).drop_last() =~= axs.take(i as int));
            assert(axs.take(i + 1).last() == axs[i as int]);
        }
        let ghost n0 = names_view(names@);
        let ghost bins0 = bins@;
        let ghost ai = axs[i as int];
        proof { assert(first_seen(axs.take(i + 1)) == intern_all(n0, axiom_names(ai))); }
        let b = match &axioms[i] {
            Axiom::SubClassOf { sub, sup } => {
                proof { lemma_intern_small(n0, sub@, sup@, sup@); }
                let a = intern_name(&mut names, sub);
                let ghost m1 = names_view(names@);
                let c = intern_name(&mut names, sup);
                proof {
                    lemma_prefix_index(m1, names_view(names@), a as int);
                    lemma_prefix_trans(n0, m1, names_view(names@));
                }
                proof { lemma_intern_small(n0, sub@, sup@, sup@); }
                BinAxiom::Sub(a, c)
            },
            Axiom::EquivalentToIntersection { class, parts } => {
                proof {
                    let xs = seq![class@] + names_view(parts@);
                    assert(axiom_names(ai) == xs);
                    lemma_intern_prefix_len(n0, xs, 1);
                    lemma_intern_step(n0, xs, 0);
                    assert(xs.take(0) =~= Seq::<Seq<char>>::empty());
                    lemma_intern_grows(n0, Seq::<Seq<char>>::empty());
                }
                let a = intern_name(&mut names, class);
                let mut ps: Vec<u32> = Vec::new();
                let ghost n1 = names@.len();
                assert(n0.len() <= n1);
                let mut k: usize = 0;
                proof {
                    let xs = seq![class@] + names_view(parts@);
                    lemma_intern_step(n0, xs, 0);
                    assert(xs.take(0) =~= Seq::<Seq<char>>::empty());
                }
                while k < parts.len()
                    invariant
                        k <= parts@.len(),
                        names_view(names@).no_duplicates(),
                        intern_all(n0, seq![class@] + names_view(parts@)).len() < u32::MAX,
                        (a as nat) < names@.len(),
                        names@[a as int]@ == class@,
                        ps@.len() == k,
                        n0 == names_view(names@).take(n0.len() as int),
                        names_view(names@) == intern_all(n0, (seq![class@] + names_view(parts@)).take(k + 1)),
                        n0.len() <= n1 <= names@.len(),
                        forall|q: int| 0 <= q < k ==> (ps@[q] as nat) < names@.len() && names@[ps@[q] as int]@ == parts@[q]@,
                    decreases parts@.len() - k,
                {
                    let ghost before = names_view(names@);
                    proof { lemma_intern_prefix_len(n0, seq![class@] + names_view(parts@), k + 1); }
                    let x = intern_name(&mut names, &parts[k]);
                    proof {
                        assert forall|q: int| 0 <= q < k implies names@[ps@[q] as int]@ == parts@[q]@ by {
                            lemma_prefix_index(before, names_view(names@), ps@[q] as int);
                        }
                        lemma_prefix_index(before, names_view(names@), a as int);
                        lemma_prefix_trans(n0, before, names_view(names@));
                        let xs = seq![class@] + names_view(parts@);
                        lemma_intern_step(n0, xs, k + 1);
                    }
                    ps.push(x);
                    k += 1;
                }
                proof {
                    let nv = names_view(names@);
                    assert((seq![class@] + names_view(parts@)).take(parts@.len() + 1int) =~= seq![class@] + names_view(parts@));
                    assert(ps@.map_values(|x: u32| nv[x as int]) =~= names_view(parts@));
                    if ps@.len() > 0 {
                        lemma_first_bad_none(ps@, nv.len(), 0);
                    }
                }
                BinAxiom::Eq(a, ps)
            },
            Axiom::SubClassOfExistential { sub, role, filler } => {
                proof { lemma_intern_small(n0, sub@, role@, filler@); }
                let a = intern_name(&mut names, sub);
                let ghost m1 = names_view(names@);
                let c = intern_name(&mut names, role);
                let ghost m2 = names_view(names@);
                let d = intern_name(&mut names, filler);
                proof {
                    lemma_prefix_index(m1, m2, a as int);
                    lemma_prefix_index(m2, names_view(names@), a as int);
                    lemma_prefix_index(m2, names_view(names@), c as int);
                    lemma_prefix_trans(n0, m1, m2);
                    lemma_prefix_trans(n0, m2, names_view(names@));
                }
                proof { lemma_intern_small(n0, sub@, role@, filler@); }
                BinAxiom::Ex(a, c, d)
            },
            Axiom::DisjointClasses { a, b } => {
                proof { lemma_intern_small(n0, a@, b@, b@); }
                let x = intern_name(&mut names, a);
                let ghost m1 = names_view(names@);
                let y = intern_name(&mut names, b);
                proof {
                    lemma_prefix_index(m1, names_view(names@), x as int);
                    lemma_prefix_trans(n0, m1, names_view(names@));
                }
                proof { lemma_intern_small(n0, a@, b@, b@); }
                BinAxiom::Dis(x, y)
            },
            Axiom::ClassAssertion { class, individual } => {
                proof { lemma_intern_small(n0, class@, individual@, individual@); }
                let x = intern_name(&mut names, class);
                let ghost m1 = names_view(names@);
                let y = intern_name(&mut names, individual);
                proof {
                    lemma_prefix_index(m1, names_view(names@), x as int);
                    lemma_prefix_trans(n0, m1, names_view(names@));
                }
                proof { lemma_intern_small(n0, class@, individual@, individual@); }
                BinAxiom::Assert(x, y)
            },
            Axiom::PropertyRange { .. } => {
                assert(representable(axioms@[i as int]@));
                BinAxiom::Sub(0, 0)
            },
            Axiom::PropertyDomain { .. } => {
                assert(representable(axioms@[i as int]@));
                BinAxiom::Sub(0, 0)
            },
        };
        proof {
            let nv = names_view(names@);
            let an = axiom_names(ai);
            assert(nv == intern_all(n0, an));
            assert(nv == first_seen(axs.take(i + 1)));
            assert(n0 == nv.take(n0.len() as int));
            assert(in_range(b@, names@.len()));
            assert(resolve_one(nv, b@, i as int) == written_as(ai, i as int));
            assert forall|j: int| 0 <= j < i
                implies resolve_one(nv, #[trigger] bins0[j]@, j) == written_as(axs[j], j) by {
                assert(nv =~= n0 + nv.skip(n0.len() as int));
                lemma_resolve_extend(n0, nv.skip(n0.len() as int), bins0[j]@, j);
            }
        }
        bins.push(b);
        proof {
            assert forall|j: int| 0 <= j < i + 1 implies in_range(#[trigger] bins@[j]@, names@.len()) by {
                if j < i { assert(bins@[j] == bins0[j]); }
            }
            assert forall|j: int| 0 <= j < i + 1
                implies resolve_one(names_view(names@), #[trigger] bins@[j]@, j) == written_as(axs[j], j) by {
                if j < i { assert(bins@[j] == bins0[j]); }
            }
        }
        i += 1;
    }
    proof {
        assert(axs.take(axs.len() as int) =~= axs);
        if forall|j: int| 0 <= j < axioms@.len() ==> !(#[trigger] axioms@[j]@ matches AxiomV::EquivalentToIntersection(_, ps) && ps.len() == 0) {
            assert forall|j: int| 0 <= j < axs.len() implies resolve_one(names_view(names@), #[trigger] bins@[j]@, j) == Ok::<AxiomV, RejectV>(axs[j]) by {
                assert(axs[j] == axioms@[j]@);
            }
            lemma_resolve_all(names_view(names@), bins_view(bins@), axs, 0);
            assert(axs.skip(0) =~= axs);
        }
    }
    FactStream { names, axioms: bins, source: String::from_str(source) }
}


/// Meeting more names never loses one.
proof fn lemma_intern_grows(n: Seq<Seq<char>>, xs: Seq<Seq<char>>)
    ensures
        intern_all(n, xs).len() >= n.len(),
    decreases xs.len(),
{
    if xs.len() > 0 {
        lemma_intern_grows(n, xs.drop_last());
    }
}

/// Meeting a prefix of the names leaves no more names than meeting them all.
proof fn lemma_intern_prefix_len(n: Seq<Seq<char>>, xs: Seq<Seq<char>>, k: int)
    requires
        0 <= k <= xs.len(),
    ensures
        intern_all(n, xs.take(k)).len() <= intern_all(n, xs).len(),
    decreases xs.len(),
{
    if k == xs.len() {
        assert(xs.take(k) =~= xs);
    } else {
        let ys = xs.drop_last();
        assert(ys.take(k) =~= xs.take(k));
        lemma_intern_prefix_len(n, ys, k);
    }
}

/// The names of a prefix of the axioms are no more than those of all of them.
proof fn lemma_first_seen_prefix(axs: Seq<AxiomV>, i: int)
    requires
        0 <= i <= axs.len(),
    ensures
        first_seen(axs.take(i)).len() <= first_seen(axs).len(),
    decreases axs.len(),
{
    if i == axs.len() {
        assert(axs.take(i) =~= axs);
    } else {
        let ys = axs.drop_last();
        assert(ys.take(i) =~= axs.take(i));
        lemma_first_seen_prefix(ys, i);
        lemma_intern_grows(first_seen(ys), axiom_names(axs.last()));
    }
}

/// What reading back the `i`-th axiom gives: the axiom itself, or for an intersection with
/// no conjuncts the error that refuses it.
pub open spec fn written_as(a: AxiomV, i: int) -> Result<AxiomV, RejectV> {
    match a {
        AxiomV::EquivalentToIntersection(_, ps) => if ps.len() == 0 {
            Err(RejectV { line: (i + 1) as nat, construct: "Axiom"@, detail: "EquivalentToIntersection with no conjuncts"@ })
        } else {
            Ok(a)
        },
        _ => Ok(a),
    }
}

/// Meeting the names one more at a time.
proof fn lemma_intern_step(n: Seq<Seq<char>>, xs: Seq<Seq<char>>, k: int)
    requires
        0 <= k < xs.len(),
    ensures
        intern_all(n, xs.take(k + 1)) == add_name_spec(intern_all(n, xs.take(k)), xs[k]),
{
    assert(xs.take(k + 1).drop_last() =~= xs.take(k));
}

/// Meeting two and three names.
proof fn lemma_intern_small(n: Seq<Seq<char>>, x: Seq<char>, y: Seq<char>, z: Seq<char>)
    ensures
        intern_all(n, seq![x]) == add_name_spec(n, x),
        intern_all(n, seq![x, y]) == add_name_spec(add_name_spec(n, x), y),
        intern_all(n, seq![x, y, z]) == add_name_spec(add_name_spec(add_name_spec(n, x), y), z),
{
    let e = Seq::<Seq<char>>::empty();
    assert(intern_all(n, e) == n);
    assert(seq![x].drop_last() =~= e);
    assert(seq![x].last() == x);
    assert(intern_all(n, seq![x]) == add_name_spec(intern_all(n, e), x));
    assert(seq![x, y].drop_last() =~= seq![x]);
    assert(seq![x, y].last() == y);
    assert(intern_all(n, seq![x, y]) == add_name_spec(intern_all(n, seq![x]), y));
    assert(seq![x, y, z].drop_last() =~= seq![x, y]);
    assert(seq![x, y, z].last() == z);
    assert(intern_all(n, seq![x, y, z]) == add_name_spec(intern_all(n, seq![x, y]), z));
}

/// An index below a prefix's length reads the same in the longer sequence.
proof fn lemma_prefix_index(before: Seq<Seq<char>>, after: Seq<Seq<char>>, ix: int)
    requires
        before.len() <= after.len(),
        before == after.take(before.len() as int),
        0 <= ix < before.len(),
    ensures
        after[ix] == before[ix],
{
    assert(after.take(before.len() as int)[ix] == after[ix]);
}


/// A prefix of a prefix is a prefix.
proof fn lemma_prefix_trans(a: Seq<Seq<char>>, b: Seq<Seq<char>>, c: Seq<Seq<char>>)
    requires
        a.len() <= b.len() <= c.len(),
        a == b.take(a.len() as int),
        b == c.take(b.len() as int),
    ensures
        a == c.take(a.len() as int),
{
    assert forall|q: int| 0 <= q < a.len() implies a[q] == c.take(a.len() as int)[q] by {
        assert(a[q] == b.take(a.len() as int)[q]);
        assert(b[q] == c.take(b.len() as int)[q]);
    }
    assert(a =~= c.take(a.len() as int));
}

} // verus!
