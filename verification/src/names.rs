//! Interning: names become dense integer ids, so the engine joins on integers.
use vstd::prelude::*;
use vstd::hash_map::StringHashMap;
use crate::fragment::{Axiom, AxiomV};

verus! {

/// A table of distinct names, each with its id (its position).
pub struct NameTable {
    pub names: Vec<String>,
    pub index: StringHashMap<usize>,
}

/// The views of the table's names, by id.
pub open spec fn table_view(names: Seq<String>) -> Seq<Seq<char>> {
    names.map_values(|s: String| s@)
}

/// No name occurs twice.
pub open spec fn distinct_names(nm: Seq<Seq<char>>) -> bool {
    forall|i: int, j: int| 0 <= i < nm.len() && 0 <= j < nm.len() && i != j ==> nm[i] != nm[j]
}

impl NameTable {
    /// The table is consistent: the index maps each name to its id and nothing else.
    pub open spec fn wf(&self) -> bool {
        &&& distinct_names(table_view(self.names@))
        &&& forall|i: int| 0 <= i < self.names@.len() ==> #[trigger] self.index@.contains_key(self.names@[i]@)
            && self.index@[self.names@[i]@] == i
        &&& forall|k: Seq<char>| #[trigger] self.index@.contains_key(k) ==> self.index@[k] < self.names@.len()
            && self.names@[self.index@[k] as int]@ == k
    }

    pub open spec fn view_names(&self) -> Seq<Seq<char>> {
        table_view(self.names@)
    }

    pub fn new() -> (t: Self)
        ensures
            t.wf(),
            t.names@.len() == 0,
    {
        NameTable { names: Vec::new(), index: StringHashMap::new() }
    }

    /// The id of `s`, adding it if it is new. Existing ids are unchanged.
    pub fn intern(&mut self, s: &String) -> (id: usize)
        requires
            old(self).wf(),
        ensures
            final(self).wf(),
            id < final(self).names@.len(),
            final(self).names@[id as int]@ == s@,
            final(self).names@.len() >= old(self).names@.len(),
            forall|i: int| 0 <= i < old(self).names@.len() ==> final(self).names@[i] == old(self).names@[i],
    {
        match self.index.get(s.as_str()) {
            Some(i) => *i,
            None => {
                let i = self.names.len();
                let ghost old_names = self.names@;
                self.names.push(s.clone());
                self.index.insert(s.clone(), i);
                assert(table_view(self.names@) =~= table_view(old_names).push(s@));
                assert forall|a: int, b: int|
                    0 <= a < self.names@.len() && 0 <= b < self.names@.len() && a != b implies
                    table_view(self.names@)[a] != table_view(self.names@)[b] by {
                    if a < old_names.len() && b < old_names.len() {
                        assert(table_view(old_names)[a] != table_view(old_names)[b]);
                    } else if a < old_names.len() {
                        assert(self.index@.contains_key(old_names[a]@));
                    } else {
                        assert(old(self).index@.contains_key(old_names[b]@));
                    }
                }
                i
            },
        }
    }
}

/// An axiom over name ids.
pub enum IAx {
    Sub(usize, usize),
    Eq(usize, Vec<usize>),
    Ex(usize, usize, usize),
    Dis(usize, usize),
    Asr(usize, usize),
    Rng(usize, usize),
    Dom(usize, usize),
}

/// The names of a sequence of ids.
pub open spec fn ids_view(nm: Seq<Seq<char>>, ids: Seq<usize>) -> Seq<Seq<char>> {
    ids.map_values(|i: usize| nm[i as int])
}

/// The interned axiom denotes the axiom, with all its ids in range.
pub open spec fn iax_means(nm: Seq<Seq<char>>, ia: IAx, ax: AxiomV) -> bool {
    match ia {
        IAx::Sub(c, d) => c < nm.len() && d < nm.len() && ax == AxiomV::SubClassOf(nm[c as int], nm[d as int]),
        IAx::Eq(c, ps) => c < nm.len() && (forall|k: int| 0 <= k < ps@.len() ==> #[trigger] ps@[k] < nm.len())
            && ax == AxiomV::EquivalentToIntersection(nm[c as int], ids_view(nm, ps@)),
        IAx::Ex(s0, r, d) => s0 < nm.len() && r < nm.len() && d < nm.len()
            && ax == AxiomV::SubClassOfExistential(nm[s0 as int], nm[r as int], nm[d as int]),
        IAx::Dis(a, b) => a < nm.len() && b < nm.len() && ax == AxiomV::DisjointClasses(nm[a as int], nm[b as int]),
        IAx::Asr(c, i) => c < nm.len() && i < nm.len() && ax == AxiomV::ClassAssertion(nm[c as int], nm[i as int]),
        IAx::Rng(r, e) => r < nm.len() && e < nm.len() && ax == AxiomV::PropertyRange(nm[r as int], nm[e as int]),
        IAx::Dom(r, e) => r < nm.len() && e < nm.len() && ax == AxiomV::PropertyDomain(nm[r as int], nm[e as int]),
    }
}

/// A table that only grew keeps what each interned axiom means.
pub proof fn lemma_means_grow(nm: Seq<Seq<char>>, nm2: Seq<Seq<char>>, ia: IAx, ax: AxiomV)
    requires
        iax_means(nm, ia, ax),
        nm.len() <= nm2.len(),
        forall|i: int| 0 <= i < nm.len() ==> nm2[i] == nm[i],
    ensures
        iax_means(nm2, ia, ax),
{
    if let IAx::Eq(c, ps) = ia {
        assert(ids_view(nm, ps@) =~= ids_view(nm2, ps@));
    }
}

/// Intern every name of the axioms, and the axioms over ids.
pub fn intern_axioms(axioms: &[Axiom]) -> (r: (NameTable, Vec<IAx>))
    ensures
        r.0.wf(),
        r.1@.len() == axioms@.len(),
        forall|k: int| 0 <= k < axioms@.len() ==> iax_means(r.0.view_names(), #[trigger] r.1@[k], axioms@[k]@),
{
    let mut t = NameTable::new();
    let mut out: Vec<IAx> = Vec::new();
    let mut k: usize = 0;
    while k < axioms.len()
        invariant
            t.wf(),
            k <= axioms@.len(),
            out@.len() == k,
            forall|j: int| 0 <= j < k ==> iax_means(t.view_names(), #[trigger] out@[j], axioms@[j]@),
        decreases axioms@.len() - k,
    {
        let ghost before = t.view_names();
        let ia = match &axioms[k] {
            Axiom::SubClassOf { sub, sup } => {
                let c = t.intern(sub);
                let d = t.intern(sup);
                IAx::Sub(c, d)
            },
            Axiom::EquivalentToIntersection { class, parts } => {
                let c = t.intern(class);
                let mut ps: Vec<usize> = Vec::new();
                let mut q: usize = 0;
                while q < parts.len()
                    invariant
                        t.wf(),
                        q <= parts@.len(),
                        ps@.len() == q,
                        c < t.names@.len(),
                        t.names@[c as int]@ == class@,
                        forall|m: int| 0 <= m < q ==> #[trigger] ps@[m] < t.names@.len()
                            && t.names@[ps@[m] as int]@ == parts@[m]@,
                        t.names@.len() >= before.len(),
                        forall|i: int| 0 <= i < before.len() ==> t.names@[i]@ == before[i],
                    decreases parts@.len() - q,
                {
                    let p = t.intern(&parts[q]);
                    ps.push(p);
                    q += 1;
                }
                assert(ids_view(t.view_names(), ps@) =~= crate::fragment::names_view(parts@));
                IAx::Eq(c, ps)
            },
            Axiom::SubClassOfExistential { sub, role, filler } => {
                let a = t.intern(sub);
                let b = t.intern(role);
                let c = t.intern(filler);
                IAx::Ex(a, b, c)
            },
            Axiom::DisjointClasses { a, b } => {
                let x = t.intern(a);
                let y = t.intern(b);
                IAx::Dis(x, y)
            },
            Axiom::ClassAssertion { class, individual } => {
                let x = t.intern(class);
                let y = t.intern(individual);
                IAx::Asr(x, y)
            },
            Axiom::PropertyRange { role, range } => {
                let x = t.intern(role);
                let y = t.intern(range);
                IAx::Rng(x, y)
            },
            Axiom::PropertyDomain { role, domain } => {
                let x = t.intern(role);
                let y = t.intern(domain);
                IAx::Dom(x, y)
            },
        };
        proof {
            assert forall|j: int| 0 <= j < k implies iax_means(t.view_names(), #[trigger] out@[j], axioms@[j]@) by {
                lemma_means_grow(before, t.view_names(), out@[j], axioms@[j]@);
            }
        }
        out.push(ia);
        k += 1;
    }
    (t, out)
}

} // verus!
