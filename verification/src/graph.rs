//! The module graph: a mapping from canonical module identity to
//! parsed module, rooted at an entry identity, together with the
//! builder that discovers it.
//!
//! The builder is driven from outside: it names the identity whose
//! source it needs next, the caller reads that source and hands it
//! back, and the builder parses it, records the module, and queues
//! every newly discovered dependency.  Each identity is visited at
//! most once, which is also the cycle guard.

use vstd::prelude::*;

use crate::lexer::tokenize;
use crate::parser::{JavascriptModule, ModuleV, RecordV, SyntaxError, parse_source, Parser,
    wf_sorted, wf_disjoint};
use crate::resolve::{resolved_id, resolve_module, resolve_entry, joined_norm};

verus! {

/// The model of one graph entry.
pub open spec fn pair_v(p: (String, JavascriptModule)) -> (Seq<char>, ModuleV) {
    (p.0@, p.1@)
}

/// The models of a list of graph entries.
pub open spec fn pairs_v(v: Seq<(String, JavascriptModule)>) -> Seq<(Seq<char>, ModuleV)> {
    v.map_values(|p: (String, JavascriptModule)| pair_v(p))
}

/// The models of a list of identity strings.
pub open spec fn strs_v(v: Seq<String>) -> Seq<Seq<char>> {
    v.map_values(|s: String| s@)
}

/// Whether the entry list holds the identity.
pub open spec fn ghas(ms: Seq<(Seq<char>, ModuleV)>, id: Seq<char>) -> bool {
    exists|k: int| 0 <= k < ms.len() && (#[trigger] ms[k]).0 == id
}

/// The index of the identity in the entry list.
pub open spec fn gidx(ms: Seq<(Seq<char>, ModuleV)>, id: Seq<char>) -> int {
    choose|k: int| 0 <= k < ms.len() && (#[trigger] ms[k]).0 == id
}

/// The module the entry list maps the identity to.
pub open spec fn glookup(ms: Seq<(Seq<char>, ModuleV)>, id: Seq<char>) -> ModuleV {
    ms[gidx(ms, id)].1
}

/// Whether every identity occurs at most once.
pub open spec fn keys_unique(ms: Seq<(Seq<char>, ModuleV)>) -> bool {
    forall|i: int, j: int| 0 <= i < j < ms.len() ==> (#[trigger] ms[i]).0 != (#[trigger] ms[j]).0
}

/// The canonical identities of every module the given module imports
/// from or re-exports from, in record order: import targets first,
/// then re-export targets.
pub open spec fn dep_ids(id: Seq<char>, m: ModuleV) -> Seq<Seq<char>> {
    m.imports.map_values(|r: RecordV| resolved_id(id, r.specifier))
        + m.exports.map_values(|r: RecordV| resolved_id(id, r.specifier))
}

/// Every dependency of every module of the list is itself in the
/// list.
pub open spec fn graph_closed(ms: Seq<(Seq<char>, ModuleV)>) -> bool {
    forall|k: int, j: int| 0 <= k < ms.len()
        && 0 <= j < dep_ids((#[trigger] ms[k]).0, ms[k].1).len()
        ==> ghas(ms, #[trigger] dep_ids(ms[k].0, ms[k].1)[j])
}

/// A module's records are exact and ordered with respect to its own
/// raw source.
pub open spec fn module_wf(m: ModuleV) -> bool {
    &&& wf_sorted(m.raw, m.imports)
    &&& wf_sorted(m.raw, m.exports)
    &&& wf_disjoint(m.imports, m.exports)
    &&& m.raw.len() <= usize::MAX
}

/// With unique keys, any entry holding the identity is the lookup's
/// result.
pub proof fn lemma_glookup_is(ms: Seq<(Seq<char>, ModuleV)>, id: Seq<char>, k: int)
    requires
        keys_unique(ms),
        0 <= k < ms.len(),
        ms[k].0 == id,
    ensures
        ghas(ms, id),
        glookup(ms, id) == ms[k].1,
{
    assert(ghas(ms, id));
    let j = gidx(ms, id);
    assert(0 <= j < ms.len() && ms[j].0 == id);
    if j != k {
        if j < k {
            assert(ms[j].0 != ms[k].0);
        } else {
            assert(ms[k].0 != ms[j].0);
        }
    }
}

/// The dependency graph of the discovered modules, keyed by
/// canonical identity and rooted at the entry identity.
pub struct ModuleGraph {
    pub entry_id: String,
    pub modules: Vec<(String, JavascriptModule)>,
}

impl ModuleGraph {
    /// The model of the graph's entry list.
    pub open spec fn ms(self) -> Seq<(Seq<char>, ModuleV)> {
        pairs_v(self.modules@)
    }

    /// A graph fit for emission: identities unique, every module's
    /// records exact and ordered, every dependency present, and the
    /// entry module present.
    pub open spec fn wf(self) -> bool {
        &&& keys_unique(self.ms())
        &&& forall|k: int| 0 <= k < self.ms().len() ==> module_wf((#[trigger] self.ms()[k]).1)
        &&& graph_closed(self.ms())
        &&& ghas(self.ms(), self.entry_id@)
    }

    /// The module registered under an identity, if any.
    pub fn get(&self, id: &String) -> (r: Option<&JavascriptModule>)
        requires keys_unique(self.ms()),
        ensures
            match r {
                Some(m) => ghas(self.ms(), id@) && m@ == glookup(self.ms(), id@),
                None => !ghas(self.ms(), id@),
            },
    {
        let n = self.modules.len();
        let mut k: usize = 0;
        while k < n
            invariant
                n == self.modules@.len(),
                k <= n,
                keys_unique(self.ms()),
                forall|i: int| 0 <= i < k ==> (#[trigger] self.ms()[i]).0 != id@,
            decreases n - k,
        {
            if self.modules[k].0 == *id {
                proof {
                    assert(self.ms()[k as int].0 == id@);
                    lemma_glookup_is(self.ms(), id@, k as int);
                }
                return Some(&self.modules[k].1);
            }
            proof {
                assert(self.ms()[k as int].0 == self.modules@[k as int].0@);
            }
            k = k + 1;
        }
        proof {
            assert forall|i: int| 0 <= i < self.ms().len() implies (#[trigger] self.ms()[i]).0
                != id@ by {}
        }
        None
    }
}

/// Whether a list of identity strings holds the given identity.
pub(crate) fn contains_string(v: &Vec<String>, x: &String) -> (r: bool)
    ensures r == strs_v(v@).contains(x@),
{
    let n = v.len();
    let mut i: usize = 0;
    while i < n
        invariant
            n == v@.len(),
            i <= n,
            forall|j: int| 0 <= j < i ==> strs_v(v@)[j] != x@,
        decreases n - i,
    {
        proof {
            assert(strs_v(v@)[i as int] == v@[i as int]@);
        }
        if v[i] == *x {
            proof {
                assert(strs_v(v@)[i as int] == x@);
            }
            return true;
        }
        i = i + 1;
    }
    proof {
        assert(!strs_v(v@).contains(x@));
    }
    false
}

/// The canonical identities of all the module's dependencies, in
/// record order.
pub(crate) fn collect_dep_ids(id: &String, m: &JavascriptModule) -> (r: Vec<String>)
    ensures strs_v(r@) == dep_ids(id@, m@),
{
    let mut out: Vec<String> = Vec::new();
    let ni = m.imports.len();
    let mut k: usize = 0;
    while k < ni
        invariant
            ni == m.imports@.len(),
            k <= ni,
            out@.len() == k,
            forall|i: int| 0 <= i < k ==> (#[trigger] out@[i])@
                == resolved_id(id@, m@.imports[i].specifier),
        decreases ni - k,
    {
        out.push(resolve_module(id.as_str(), m.imports[k].specifier.as_str()));
        k = k + 1;
    }
    let ne = m.exports.len();
    k = 0;
    while k < ne
        invariant
            ni == m.imports@.len(),
            ne == m.exports@.len(),
            k <= ne,
            out@.len() == ni + k,
            forall|i: int| 0 <= i < ni ==> (#[trigger] out@[i])@
                == resolved_id(id@, m@.imports[i].specifier),
            forall|i: int| 0 <= i < k ==> (#[trigger] out@[ni + i])@
                == resolved_id(id@, m@.exports[i].specifier),
        decreases ne - k,
    {
        out.push(resolve_module(id.as_str(), m.exports[k].specifier.as_str()));
        k = k + 1;
    }
    proof {
        assert(m@.imports.len() == ni);
        assert(m@.exports.len() == ne);
        assert(dep_ids(id@, m@).len() == ni + ne);
        assert forall|i: int| 0 <= i < ni + ne implies strs_v(out@)[i]
            == dep_ids(id@, m@)[i] by {
            assert(strs_v(out@)[i] == out@[i]@);
            if i < ni {
                assert(dep_ids(id@, m@)[i] == resolved_id(id@, m@.imports[i].specifier));
            } else {
                let j = i - ni;
                assert(out@[ni + j]@ == resolved_id(id@, m@.exports[j].specifier));
                assert(ni + j == i);
                assert(dep_ids(id@, m@)[i] == resolved_id(id@, m@.exports[j].specifier));
            }
        }
        assert(strs_v(out@) =~= dep_ids(id@, m@));
    }
    out
}

/// The facts the dependency-queueing loop establishes, tying the
/// state before a module was recorded to the state after: `seen0`,
/// `pend_old` and `ms0` are from before, `seenF` and `pendF` from
/// after, `pend0` is `pend_old` without its popped last element `id`,
/// and `depsv` holds the recorded module's dependencies.
spec fn supply_mid(
    ms0: Seq<(Seq<char>, ModuleV)>,
    pend0: Seq<Seq<char>>,
    pend_old: Seq<Seq<char>>,
    seen0: Seq<Seq<char>>,
    seenF: Seq<Seq<char>>,
    pendF: Seq<Seq<char>>,
    depsv: Seq<Seq<char>>,
    id: Seq<char>,
    entry: Seq<char>,
) -> bool {
    let ll = seen0.len() as int;
    &&& keys_unique(ms0)
    &&& seen0.no_duplicates()
    &&& pend_old.no_duplicates()
    &&& (forall|x: Seq<char>| #[trigger] seen0.contains(x)
        <==> (ghas(ms0, x) || pend_old.contains(x)))
    &&& (forall|x: Seq<char>| #[trigger] pend_old.contains(x) ==> !ghas(ms0, x))
    &&& seen0.contains(entry)
    &&& pend_old == pend0.push(id)
    &&& seenF.len() >= ll
    &&& seenF.subrange(0, ll) == seen0
    &&& seenF.no_duplicates()
    &&& (forall|i: int| ll <= i < seenF.len()
        ==> !seen0.contains(#[trigger] seenF[i]) && depsv.contains(seenF[i]))
    &&& pendF == pend0 + seenF.skip(ll)
    &&& (forall|j: int| 0 <= j < depsv.len() ==> seenF.contains(#[trigger] depsv[j]))
}

/// Recording a module under a queued identity restores the builder's
/// set equations: the discovered identities are again exactly the
/// keys plus the queue, with no duplicates and nothing queued twice
/// or already loaded.
#[verifier::rlimit(100)]
#[verifier::spinoff_prover]
proof fn lemma_supply_inv(
    ms0: Seq<(Seq<char>, ModuleV)>,
    pend0: Seq<Seq<char>>,
    pend_old: Seq<Seq<char>>,
    seen0: Seq<Seq<char>>,
    seenF: Seq<Seq<char>>,
    pendF: Seq<Seq<char>>,
    depsv: Seq<Seq<char>>,
    id: Seq<char>,
    mv: ModuleV,
    entry: Seq<char>,
)
    requires
        supply_mid(ms0, pend0, pend_old, seen0, seenF, pendF, depsv, id, entry),
    ensures ({
        let msF = ms0.push((id, mv));
        &&& keys_unique(msF)
        &&& (forall|x: Seq<char>| #[trigger] seenF.contains(x)
            <==> (ghas(msF, x) || pendF.contains(x)))
        &&& (forall|x: Seq<char>| #[trigger] pendF.contains(x) ==> !ghas(msF, x))
        &&& pendF.no_duplicates()
        &&& seenF.contains(entry)
        &&& (forall|x: Seq<char>| #[trigger] seen0.contains(x) ==> seenF.contains(x))
    }),
{
    let ll = seen0.len() as int;
    let msF = ms0.push((id, mv));
    assert(pend_old[pend_old.len() - 1] == id);
    assert(pend_old.contains(id));
    assert(!ghas(ms0, id));
    assert(seen0.contains(id));

    assert forall|x: Seq<char>| #[trigger] seen0.contains(x) implies seenF.contains(x) by {
        let w = choose|w: int| 0 <= w < seen0.len() && seen0[w] == x;
        assert(seenF[w] == seenF.subrange(0, ll)[w]);
    }

    assert(keys_unique(msF)) by {
        assert forall|i: int, j: int| 0 <= i < j < msF.len() implies (#[trigger] msF[i]).0
            != (#[trigger] msF[j]).0 by {
            if j < msF.len() - 1 {
                assert(msF[i] == ms0[i] && msF[j] == ms0[j]);
            } else {
                assert(msF[i] == ms0[i]);
                if msF[i].0 == id {
                    assert(ghas(ms0, id));
                }
            }
        }
    }

    assert forall|x: Seq<char>| #[trigger] seenF.contains(x) implies (ghas(msF, x)
        || pendF.contains(x)) by {
        let w = choose|w: int| 0 <= w < seenF.len() && seenF[w] == x;
        if w < ll {
            assert(seenF.subrange(0, ll)[w] == x);
            assert(seen0.contains(x));
            if ghas(ms0, x) {
                let g = gidx(ms0, x);
                assert(msF[g] == ms0[g]);
                assert(ghas(msF, x));
            } else {
                assert(pend_old.contains(x));
                let p = choose|p: int| 0 <= p < pend_old.len() && pend_old[p] == x;
                if p == pend_old.len() - 1 {
                    assert(x == id);
                    assert(msF[msF.len() - 1].0 == id);
                    assert(ghas(msF, x));
                } else {
                    assert(pend0[p] == x);
                    assert(pendF[p] == (pend0 + seenF.skip(ll))[p]);
                    assert(pendF[p] == x);
                    assert(pendF.contains(x));
                }
            }
        } else {
            let p = pend0.len() + (w - ll);
            assert(pendF[p] == seenF.skip(ll)[w - ll]);
            assert(pendF[p] == x);
            assert(pendF.contains(x));
        }
    }

    assert forall|x: Seq<char>| (ghas(msF, x) || pendF.contains(x)) implies #[trigger]
        seenF.contains(x) by {
        if ghas(msF, x) {
            let g = gidx(msF, x);
            if g < msF.len() - 1 {
                assert(msF[g] == ms0[g]);
                assert(ghas(ms0, x));
                assert(seen0.contains(x));
            } else {
                assert(x == id);
                assert(seen0.contains(x));
            }
        } else {
            let p = choose|p: int| 0 <= p < pendF.len() && pendF[p] == x;
            if p < pend0.len() {
                assert(pendF[p] == pend0[p]);
                assert(pend_old[p] == pend0[p]);
                assert(pend_old.contains(x));
                assert(seen0.contains(x));
            } else {
                assert(pendF[p] == seenF.skip(ll)[p - pend0.len()]);
                assert(seenF[ll + (p - pend0.len())] == x);
                assert(seenF.contains(x));
            }
        }
    }

    assert forall|x: Seq<char>| #[trigger] pendF.contains(x) implies !ghas(msF, x) by {
        let p = choose|p: int| 0 <= p < pendF.len() && pendF[p] == x;
        if ghas(msF, x) {
            let g = gidx(msF, x);
            if p < pend0.len() {
                assert(pendF[p] == pend0[p]);
                assert(pend_old[p] == pend0[p]);
                assert(pend_old.contains(x));
                if g < msF.len() - 1 {
                    assert(msF[g] == ms0[g]);
                    assert(ghas(ms0, x));
                } else {
                    assert(x == id);
                    assert(pend_old[pend_old.len() - 1] == id);
                }
            } else {
                let i = ll + (p - pend0.len());
                assert(pendF[p] == seenF.skip(ll)[p - pend0.len()]);
                assert(seenF[i] == x);
                assert(!seen0.contains(x));
                if g < msF.len() - 1 {
                    assert(msF[g] == ms0[g]);
                    assert(ghas(ms0, x));
                    assert(seen0.contains(x));
                } else {
                    assert(x == id);
                    assert(seen0.contains(id));
                }
            }
        }
    }

    assert(pendF.no_duplicates()) by {
        assert forall|i: int, j: int| 0 <= i < j < pendF.len() implies pendF[i]
            != pendF[j] by {
            if j < pend0.len() {
                assert(pendF[i] == pend0[i] && pendF[j] == pend0[j]);
                assert(pend_old[i] == pend0[i] && pend_old[j] == pend0[j]);
            } else if i < pend0.len() {
                assert(pendF[i] == pend0[i]);
                assert(pend_old[i] == pend0[i]);
                assert(pend_old.contains(pendF[i]));
                assert(seen0.contains(pendF[i]));
                assert(pendF[j] == seenF.skip(ll)[j - pend0.len()]);
                assert(seenF[ll + (j - pend0.len())] == pendF[j]);
                assert(!seen0.contains(pendF[j]));
            } else {
                let a = ll + (i - pend0.len());
                let b = ll + (j - pend0.len());
                assert(pendF[i] == seenF.skip(ll)[i - pend0.len()]);
                assert(pendF[j] == seenF.skip(ll)[j - pend0.len()]);
                assert(seenF[a] == pendF[i] && seenF[b] == pendF[j]);
            }
        }
    }
}

/// The incremental graph builder.  It names the canonical identity it
/// needs a source for; the caller supplies that source; the builder
/// parses it, records the module, and queues each dependency not seen
/// before.  When nothing more is needed, [`GraphBuilder::finish`]
/// yields the completed graph.
pub struct GraphBuilder {
    pub entry_id: String,
    pub done: Vec<(String, JavascriptModule)>,
    pub pending: Vec<String>,
    pub seen: Vec<String>,
}

impl GraphBuilder {
    /// The builder's invariant: discovered identities are exactly the
    /// loaded ones plus the queued ones, nothing is queued or loaded
    /// twice, every loaded module is well formed, and every
    /// dependency of a loaded module has been discovered.
    pub open spec fn inv(self) -> bool {
        let ms = pairs_v(self.done@);
        let pend = strs_v(self.pending@);
        let seen = strs_v(self.seen@);
        &&& keys_unique(ms)
        &&& (forall|k: int| 0 <= k < ms.len() ==> module_wf((#[trigger] ms[k]).1))
        &&& seen.no_duplicates()
        &&& pend.no_duplicates()
        &&& (forall|x: Seq<char>| #[trigger] seen.contains(x)
            <==> (ghas(ms, x) || pend.contains(x)))
        &&& (forall|x: Seq<char>| #[trigger] pend.contains(x) ==> !ghas(ms, x))
        &&& seen.contains(self.entry_id@)
        &&& (forall|k: int, j: int| 0 <= k < ms.len()
            && 0 <= j < dep_ids((#[trigger] ms[k]).0, ms[k].1).len()
            ==> seen.contains(#[trigger] dep_ids(ms[k].0, ms[k].1)[j]))
    }

    /// A builder rooted at the entry identity, with the entry module
    /// queued as the first source needed.
    pub fn new(entry_id: String) -> (r: GraphBuilder)
        ensures
            r.inv(),
            r.entry_id@ == entry_id@,
            r.done@.len() == 0,
            strs_v(r.pending@) == seq![entry_id@],
    {
        let mut pending: Vec<String> = Vec::new();
        let mut seen: Vec<String> = Vec::new();
        pending.push(entry_id.clone());
        seen.push(entry_id.clone());
        let r = GraphBuilder { entry_id, done: Vec::new(), pending, seen };
        proof {
            assert(strs_v(r.pending@) =~= seq![r.entry_id@]);
            assert(strs_v(r.seen@) =~= seq![r.entry_id@]);
            assert(strs_v(r.seen@)[0] == r.entry_id@);
            assert(strs_v(r.seen@).contains(r.entry_id@));
            assert(pairs_v(r.done@) =~= Seq::<(Seq<char>, ModuleV)>::empty());
            assert forall|x: Seq<char>| #[trigger] strs_v(r.seen@).contains(x) implies (ghas(
                pairs_v(r.done@), x) || strs_v(r.pending@).contains(x)) by {
                assert(strs_v(r.seen@)[0] == r.entry_id@);
                assert(strs_v(r.pending@)[0] == r.entry_id@);
            }
        }
        r
    }

    /// The identity whose source the builder needs next, or `None`
    /// when the graph is complete.
    pub fn next_needed(&self) -> (r: Option<String>)
        ensures
            match r {
                Some(id) => self.pending@.len() > 0
                    && id@ == self.pending@[self.pending@.len() - 1]@,
                None => self.pending@.len() == 0,
            },
    {
        let n = self.pending.len();
        if n == 0 {
            None
        } else {
            Some(self.pending[n - 1].clone())
        }
    }

    /// Supply the source text for the identity named by
    /// [`GraphBuilder::next_needed`].  On success the module is
    /// parsed and recorded and each newly discovered dependency is
    /// queued; a syntax error leaves the builder unchanged.
    #[verifier::rlimit(100)]
    #[verifier::spinoff_prover]
    pub fn supply(&mut self, source: String) -> (r: Result<(), SyntaxError>)
        requires
            old(self).inv(),
            old(self).pending@.len() > 0,
        ensures
            final(self).inv(),
            final(self).entry_id == old(self).entry_id,
            ({
                let id = old(self).pending@[old(self).pending@.len() - 1]@;
                match r {
                    Ok(()) => {
                        &&& parse_source(source@) is Ok
                        &&& pairs_v(final(self).done@) == pairs_v(old(self).done@).push(
                            (id, ModuleV {
                                imports: parse_source(source@)->Ok_0.imports,
                                exports: parse_source(source@)->Ok_0.exports,
                                raw: source@,
                            }),
                        )
                        &&& forall|x: Seq<char>| strs_v(final(self).pending@).contains(x)
                            ==> strs_v(old(self).pending@).contains(x)
                                || dep_ids(id, ModuleV {
                                    imports: parse_source(source@)->Ok_0.imports,
                                    exports: parse_source(source@)->Ok_0.exports,
                                    raw: source@,
                                }).contains(x)
                    },
                    Err(e) => {
                        &&& parse_source(source@) is Err
                        &&& e@ == parse_source(source@)->Err_0
                        &&& final(self).done@ == old(self).done@
                        &&& final(self).pending@ == old(self).pending@
                        &&& final(self).seen@ == old(self).seen@
                    },
                }
            }),
    {
        let nlen = self.pending.len();
        let id = self.pending[nlen - 1].clone();
        let srclen = source.as_str().unicode_len();
        let toks = tokenize(source.as_str());
        let parser = Parser::new(toks.as_slice());
        let ghost srcv = source@;
        let module = match parser.parse_module(source) {
            Ok(m) => m,
            Err(e) => {
                return Err(e);
            },
        };
        proof {
            crate::parser::lemma_parse_source_wf(srcv);
        }
        let ghost pend_old = strs_v(self.pending@);
        self.pending.pop();
        let ghost ms0 = pairs_v(self.done@);
        let ghost pend0 = strs_v(self.pending@);
        let ghost seen0 = strs_v(self.seen@);
        let ghost seen0len = self.seen@.len() as int;
        proof {
            assert(pend0 =~= pend_old.subrange(0, pend_old.len() - 1));
            assert(pend_old =~= pend0.push(id@));
        }

        let deps = collect_dep_ids(&id, &module);
        let ghost depsv = strs_v(deps@);
        let nd = deps.len();
        let mut k: usize = 0;
        while k < nd
            invariant
                nd == deps@.len(),
                k <= nd,
                depsv == strs_v(deps@),
                seen0len == seen0.len(),
                self.seen@.len() >= seen0len,
                strs_v(self.seen@).subrange(0, seen0len) == seen0,
                strs_v(self.pending@) =~= pend0 + strs_v(self.seen@).skip(seen0len),
                strs_v(self.seen@).no_duplicates(),
                forall|i: int| seen0len <= i < self.seen@.len()
                    ==> !seen0.contains(#[trigger] strs_v(self.seen@)[i])
                        && depsv.contains(strs_v(self.seen@)[i]),
                forall|j: int| 0 <= j < k ==> strs_v(self.seen@).contains(#[trigger] depsv[j]),
                self.done@ == old(self).done@,
                self.entry_id == old(self).entry_id,
            decreases nd - k,
        {
            let d = deps[k].clone();
            let ghost seen_before = strs_v(self.seen@);
            let ghost pend_before = strs_v(self.pending@);
            if !contains_string(&self.seen, &d) {
                self.seen.push(d.clone());
                self.pending.push(d);
                proof {
                    assert(strs_v(self.seen@) =~= seen_before.push(depsv[k as int]));
                    assert(strs_v(self.pending@) =~= pend_before.push(depsv[k as int]));
                    assert(strs_v(self.seen@).subrange(0, seen0len) =~= seen0);
                    assert(strs_v(self.seen@).skip(seen0len)
                        =~= seen_before.skip(seen0len).push(depsv[k as int]));
                    assert(strs_v(self.pending@)
                        =~= pend0 + strs_v(self.seen@).skip(seen0len));
                    assert(strs_v(self.seen@).no_duplicates());
                    assert forall|i: int| seen0len <= i < self.seen@.len() implies !seen0
                        .contains(#[trigger] strs_v(self.seen@)[i])
                        && depsv.contains(strs_v(self.seen@)[i]) by {
                        if i < self.seen@.len() - 1 {
                            assert(strs_v(self.seen@)[i] == seen_before[i]);
                        } else {
                            assert(strs_v(self.seen@)[i] == depsv[k as int]);
                            assert(!seen_before.contains(depsv[k as int]));
                            if seen0.contains(depsv[k as int]) {
                                let w = choose|w: int| 0 <= w < seen0.len()
                                    && seen0[w] == depsv[k as int];
                                assert(seen_before[w] == seen_before.subrange(0, seen0len)[w]);
                            }
                        }
                    }
                    assert forall|j: int| 0 <= j < k + 1 implies strs_v(self.seen@).contains(
                        #[trigger] depsv[j]) by {
                        if j < k {
                            assert(seen_before.contains(depsv[j]));
                            let w = choose|w: int| 0 <= w < seen_before.len()
                                && seen_before[w] == depsv[j];
                            assert(strs_v(self.seen@)[w] == seen_before[w]);
                        } else {
                            assert(strs_v(self.seen@)[self.seen@.len() - 1] == depsv[j]);
                        }
                    }
                }
            } else {
                proof {
                    assert(strs_v(self.seen@).contains(depsv[k as int]));
                }
            }
            k = k + 1;
        }
        let ghost mv = module@;
        self.done.push((id, module));
        proof {
            let msF = pairs_v(self.done@);
            let seenF = strs_v(self.seen@);
            let pendF = strs_v(self.pending@);
            assert(msF =~= ms0.push((id@, mv)));
            assert(supply_mid(ms0, pend0, pend_old, seen0, seenF, pendF, depsv, id@,
                old(self).entry_id@));
            lemma_supply_inv(ms0, pend0, pend_old, seen0, seenF, pendF, depsv, id@, mv,
                old(self).entry_id@);
            assert forall|k2: int| 0 <= k2 < msF.len() implies module_wf(
                (#[trigger] msF[k2]).1) by {
                if k2 < msF.len() - 1 {
                    assert(msF[k2] == ms0[k2]);
                } else {
                    assert(msF[k2].1 == mv);
                    assert(mv.raw == srcv);
                }
            }
            assert forall|k2: int, j: int| 0 <= k2 < msF.len()
                && 0 <= j < dep_ids((#[trigger] msF[k2]).0, msF[k2].1).len()
                implies seenF.contains(#[trigger] dep_ids(msF[k2].0, msF[k2].1)[j]) by {
                if k2 < msF.len() - 1 {
                    assert(msF[k2] == ms0[k2]);
                    assert(seen0.contains(dep_ids(ms0[k2].0, ms0[k2].1)[j]));
                } else {
                    assert(msF[k2].0 == id@ && msF[k2].1 == mv);
                    assert(dep_ids(id@, mv)[j] == depsv[j]);
                }
            }
            assert(seenF.contains(old(self).entry_id@));
            assert forall|x: Seq<char>| #[trigger] pendF.contains(x) implies (pend_old.contains(
                x) || depsv.contains(x)) by {
                let p = choose|p: int| 0 <= p < pendF.len() && pendF[p] == x;
                if p < pend0.len() {
                    assert(pendF[p] == pend0[p]);
                    assert(pend_old[p] == pend0[p]);
                } else {
                    assert(pendF[p] == seenF.skip(seen0len)[p - pend0.len()]);
                    assert(seenF[seen0len + (p - pend0.len())] == x);
                    assert(depsv.contains(x));
                }
            }
        }
        Ok(())
    }

    /// Whether the graph is complete: no identity still needs its
    /// source.
    pub fn finished(&self) -> (r: bool)
        ensures r == (self.pending@.len() == 0),
    {
        self.pending.len() == 0
    }

    /// The completed graph.  Every dependency of every module is
    /// present, each identity maps to exactly one module, and the
    /// entry module is among them.
    pub fn finish(self) -> (g: ModuleGraph)
        requires
            self.inv(),
            self.pending@.len() == 0,
        ensures
            g.wf(),
            g.entry_id@ == self.entry_id@,
            pairs_v(g.modules@) == pairs_v(self.done@),
    {
        proof {
            let ms = pairs_v(self.done@);
            let seen = strs_v(self.seen@);
            assert(ghas(ms, self.entry_id@)) by {
                assert(seen.contains(self.entry_id@));
            }
            assert(graph_closed(ms)) by {
                assert forall|k: int, j: int| 0 <= k < ms.len()
                    && 0 <= j < dep_ids((#[trigger] ms[k]).0, ms[k].1).len()
                    implies ghas(ms, #[trigger] dep_ids(ms[k].0, ms[k].1)[j]) by {
                    assert(seen.contains(dep_ids(ms[k].0, ms[k].1)[j]));
                }
            }
        }
        ModuleGraph { entry_id: self.entry_id, modules: self.done }
    }
}

/// Why a build failed: a source that could not be found, or a source
/// that does not parse.  Either aborts the whole build; no partial
/// graph is produced.
#[derive(Debug, PartialEq)]
pub enum BuildError {
    /// No source is available for the named canonical identity.
    Read { path: String },
    /// The source of the named canonical identity has a syntax error.
    Syntax { path: String, error: SyntaxError },
}

/// The models of a list of (identity, source) pairs.
pub open spec fn files_v(fs: Seq<(String, String)>) -> Seq<(Seq<char>, Seq<char>)> {
    fs.map_values(|p: (String, String)| (p.0@, p.1@))
}

/// The first source the file list holds under the identity.
pub open spec fn flookup(fs: Seq<(Seq<char>, Seq<char>)>, id: Seq<char>) -> Option<Seq<char>>
    decreases fs.len(),
{
    if fs.len() == 0 {
        None
    } else if fs[0].0 == id {
        Some(fs[0].1)
    } else {
        flookup(fs.skip(1), id)
    }
}

/// Looking up an identity that no entry of the first `i` entries
/// holds is looking it up past them.
proof fn lemma_flookup_skip(fs: Seq<(Seq<char>, Seq<char>)>, id: Seq<char>, i: int)
    requires
        0 <= i <= fs.len(),
        forall|j: int| 0 <= j < i ==> (#[trigger] fs[j]).0 != id,
    ensures flookup(fs, id) == flookup(fs.skip(i), id),
    decreases i,
{
    if i > 0 {
        assert(fs.skip(0) =~= fs);
        lemma_flookup_skip(fs.skip(1), id, i - 1);
        assert(fs.skip(1).skip(i - 1) =~= fs.skip(i));
        assert forall|j: int| 0 <= j < i - 1 implies (#[trigger] fs.skip(1)[j]).0 != id by {
            assert(fs.skip(1)[j] == fs[j + 1]);
        }
        lemma_flookup_skip(fs.skip(1), id, i - 1);
    } else {
        assert(fs.skip(0) =~= fs);
    }
}

/// The source stored under an identity, cloned out of the list, or
/// `None` when the list has no entry for it.
fn find_source(files: &Vec<(String, String)>, id: &String) -> (r: Option<String>)
    ensures
        match r {
            Some(src) => flookup(files_v(files@), id@) == Some(src@),
            None => flookup(files_v(files@), id@) is None,
        },
{
    let n = files.len();
    let mut i: usize = 0;
    while i < n
        invariant
            n == files@.len(),
            i <= n,
            forall|j: int| 0 <= j < i ==> (#[trigger] files_v(files@)[j]).0 != id@,
        decreases n - i,
    {
        proof {
            assert(files_v(files@)[i as int] == (files@[i as int].0@, files@[i as int].1@));
        }
        if files[i].0 == *id {
            let src = files[i].1.clone();
            proof {
                let fsv = files_v(files@);
                lemma_flookup_skip(fsv, id@, i as int);
                assert(fsv.skip(i as int)[0] == fsv[i as int]);
                assert(fsv.skip(i as int).len() > 0);
                assert(flookup(fsv.skip(i as int), id@) == Some(fsv[i as int].1));
            }
            return Some(src);
        }
        i = i + 1;
    }
    proof {
        let fsv = files_v(files@);
        lemma_flookup_skip(fsv, id@, n as int);
        assert(fsv.skip(n as int) =~= Seq::<(Seq<char>, Seq<char>)>::empty());
    }
    None
}

/// Every module of the list was parsed from the first source its
/// file list holds under the module's identity.
pub open spec fn modules_from_files(
    fsv: Seq<(Seq<char>, Seq<char>)>,
    ms: Seq<(Seq<char>, ModuleV)>,
) -> bool {
    forall|k: int| 0 <= k < ms.len() ==> {
        let id = (#[trigger] ms[k]).0;
        &&& flookup(fsv, id) is Some
        &&& parse_source(flookup(fsv, id)->Some_0) is Ok
        &&& ms[k].1 == (ModuleV {
            imports: parse_source(flookup(fsv, id)->Some_0)->Ok_0.imports,
            exports: parse_source(flookup(fsv, id)->Some_0)->Ok_0.exports,
            raw: flookup(fsv, id)->Some_0,
        })
    }
}

/// The module a source text parses to (meaningful when it parses).
pub open spec fn parsed_module(src: Seq<char>) -> ModuleV {
    ModuleV {
        imports: parse_source(src)->Ok_0.imports,
        exports: parse_source(src)->Ok_0.exports,
        raw: src,
    }
}

/// An edge of the file list: the source stored under `a` is present
/// and parses, and one of its records resolves to `b`.
pub open spec fn fedge(fsv: Seq<(Seq<char>, Seq<char>)>, a: Seq<char>, b: Seq<char>) -> bool {
    &&& flookup(fsv, a) is Some
    &&& parse_source(flookup(fsv, a)->Some_0) is Ok
    &&& dep_ids(a, parsed_module(flookup(fsv, a)->Some_0)).contains(b)
}

/// Whether the identity is needed within `n` discovery steps: it is
/// the entry identity, or a resolved dependency of an identity needed
/// in fewer steps whose source is present and parses.
pub open spec fn needed_n(
    fsv: Seq<(Seq<char>, Seq<char>)>,
    entry: Seq<char>,
    id: Seq<char>,
    n: nat,
) -> bool
    decreases n,
{
    if id == entry {
        true
    } else if n == 0 {
        false
    } else {
        exists|mid: Seq<char>| #[trigger] fedge(fsv, mid, id)
            && needed_n(fsv, entry, mid, (n - 1) as nat)
    }
}

/// Whether a build rooted at `entry` needs the identity: the entry
/// identity is needed, and so is, transitively, every resolved
/// dependency of a needed source that is present and parses.
pub open spec fn needed(
    fsv: Seq<(Seq<char>, Seq<char>)>,
    entry: Seq<char>,
    id: Seq<char>,
) -> bool {
    exists|n: nat| needed_n(fsv, entry, id, n)
}

/// Every source a build could possibly need is present and parses.
pub open spec fn all_needed_present(fsv: Seq<(Seq<char>, Seq<char>)>, entry: Seq<char>) -> bool {
    forall|id: Seq<char>| #[trigger] needed(fsv, entry, id)
        ==> flookup(fsv, id) is Some && parse_source(flookup(fsv, id)->Some_0) is Ok
}

/// The entry identity is needed.
pub proof fn lemma_needed_entry(fsv: Seq<(Seq<char>, Seq<char>)>, entry: Seq<char>)
    ensures needed(fsv, entry, entry),
{
    assert(needed_n(fsv, entry, entry, 0));
}

/// A resolved dependency of a needed, parsed source is needed.
pub proof fn lemma_needed_step(
    fsv: Seq<(Seq<char>, Seq<char>)>,
    entry: Seq<char>,
    a: Seq<char>,
    b: Seq<char>,
)
    requires
        needed(fsv, entry, a),
        fedge(fsv, a, b),
    ensures needed(fsv, entry, b),
{
    let n = choose|n: nat| needed_n(fsv, entry, a, n);
    assert(needed_n(fsv, entry, b, n + 1));
}

/// In a closed graph whose modules come from the file list and whose
/// entry is present, every needed identity is present.
proof fn lemma_needed_in_graph(
    fsv: Seq<(Seq<char>, Seq<char>)>,
    ms: Seq<(Seq<char>, ModuleV)>,
    entry: Seq<char>,
    id: Seq<char>,
    n: nat,
)
    requires
        needed_n(fsv, entry, id, n),
        keys_unique(ms),
        ghas(ms, entry),
        graph_closed(ms),
        modules_from_files(fsv, ms),
    ensures ghas(ms, id),
    decreases n,
{
    if id == entry {
    } else {
        let mid = choose|mid: Seq<char>| #[trigger] fedge(fsv, mid, id)
            && needed_n(fsv, entry, mid, (n - 1) as nat);
        lemma_needed_in_graph(fsv, ms, entry, mid, (n - 1) as nat);
        let k = gidx(ms, mid);
        assert(0 <= k < ms.len() && ms[k].0 == mid);
        assert(ms[k].1 == parsed_module(flookup(fsv, mid)->Some_0));
        let pm = parsed_module(flookup(fsv, mid)->Some_0);
        let j = choose|j: int| 0 <= j < dep_ids(mid, pm).len() && dep_ids(mid, pm)[j] == id;
        assert(dep_ids(ms[k].0, ms[k].1)[j] == id);
        assert(ghas(ms, id));
    }
}

/// The identities of the graph's entries.
pub open spec fn gkeys(ms: Seq<(Seq<char>, ModuleV)>) -> Seq<Seq<char>> {
    ms.map_values(|p: (Seq<char>, ModuleV)| p.0)
}

/// The identities the file list holds sources under.
pub open spec fn fkeys(fsv: Seq<(Seq<char>, Seq<char>)>) -> Seq<Seq<char>> {
    fsv.map_values(|p: (Seq<char>, Seq<char>)| p.0)
}

/// Build the whole module graph from an in-memory list of
/// (canonical identity, source text) pairs: resolve the entry path
/// against the base directory, then read, parse and resolve
/// recursively until everything needed is loaded.  Each identity is
/// loaded at most once, so an import cycle terminates.  A missing
/// source or a syntax error in a needed source aborts the build; when
/// every needed source is present and parses, the build succeeds, and
/// the graph then holds exactly the needed modules.
#[verifier::rlimit(100)]
#[verifier::spinoff_prover]
pub fn build_from_sources(
    base_dir: &str,
    entry_path: &str,
    files: &Vec<(String, String)>,
) -> (r: Result<ModuleGraph, BuildError>)
    ensures
        ({
            let fsv = files_v(files@);
            let entryv = joined_norm(base_dir@, entry_path@);
            match r {
                Ok(g) => {
                    &&& g.wf()
                    &&& g.entry_id@ == entryv
                    &&& modules_from_files(fsv, g.ms())
                    &&& forall|id: Seq<char>| #![trigger ghas(g.ms(), id)]
                        #![trigger needed(fsv, entryv, id)]
                        ghas(g.ms(), id) <==> needed(fsv, entryv, id)
                },
                Err(BuildError::Read { path }) => {
                    &&& needed(fsv, entryv, path@)
                    &&& flookup(fsv, path@) is None
                },
                Err(BuildError::Syntax { path, error }) => {
                    &&& needed(fsv, entryv, path@)
                    &&& flookup(fsv, path@) is Some
                    &&& parse_source(flookup(fsv, path@)->Some_0) is Err
                    &&& error@ == parse_source(flookup(fsv, path@)->Some_0)->Err_0
                },
            }
        }),
        all_needed_present(files_v(files@), joined_norm(base_dir@, entry_path@))
            ==> r is Ok,
{
    let entry_id = resolve_entry(base_dir, entry_path);
    let ghost fsv = files_v(files@);
    let ghost entryv = joined_norm(base_dir@, entry_path@);
    let mut b = GraphBuilder::new(entry_id);
    proof {
        broadcast use vstd::seq_lib::seq_to_set_is_finite;
        assert(pairs_v(b.done@).len() == 0);
        lemma_needed_entry(fsv, entryv);
        assert forall|x: Seq<char>| strs_v(b.pending@).contains(x) implies needed(
            fsv, entryv, x) by {
            assert(strs_v(b.pending@)[0] == entryv);
        }
    }
    while b.pending.len() > 0
        invariant
            b.inv(),
            b.entry_id@ == entryv,
            entryv == joined_norm(base_dir@, entry_path@),
            fsv == files_v(files@),
            modules_from_files(fsv, pairs_v(b.done@)),
            forall|k: int| 0 <= k < pairs_v(b.done@).len()
                ==> fkeys(fsv).to_set().contains((#[trigger] pairs_v(b.done@)[k]).0),
            forall|x: Seq<char>| ghas(pairs_v(b.done@), x) ==> needed(fsv, entryv, x),
            forall|x: Seq<char>| strs_v(b.pending@).contains(x) ==> needed(fsv, entryv, x),
        decreases
            fkeys(fsv).to_set().difference(gkeys(pairs_v(b.done@)).to_set()).len(),
            b.pending@.len(),
    {
        let id = b.next_needed().unwrap();
        let ghost ms0 = pairs_v(b.done@);
        proof {
            assert(strs_v(b.pending@)[b.pending@.len() - 1] == id@);
            assert(strs_v(b.pending@).contains(id@));
            assert(!ghas(ms0, id@));
            assert(needed(fsv, entryv, id@));
        }
        let src = match find_source(files, &id) {
            Some(src) => src,
            None => {
                proof {
                    assert(!all_needed_present(fsv, entryv)) by {
                        assert(needed(fsv, entryv, id@) && flookup(fsv, id@) is None);
                    }
                }
                return Err(BuildError::Read { path: id });
            },
        };
        let ghost srcv = src@;
        let ghost pend_pre = strs_v(b.pending@);
        match b.supply(src) {
            Ok(()) => {},
            Err(e) => {
                proof {
                    assert(!all_needed_present(fsv, entryv)) by {
                        assert(needed(fsv, entryv, id@));
                        assert(flookup(fsv, id@) == Some(srcv));
                        assert(parse_source(srcv) is Err);
                    }
                }
                return Err(BuildError::Syntax { path: id, error: e });
            },
        }
        proof {
            broadcast use vstd::seq_lib::seq_to_set_is_finite;
            let msF = pairs_v(b.done@);
            let mv = ModuleV {
                imports: parse_source(srcv)->Ok_0.imports,
                exports: parse_source(srcv)->Ok_0.exports,
                raw: srcv,
            };
            assert(msF == ms0.push((id@, mv)));
            assert forall|k: int| 0 <= k < msF.len() implies {
                let mid = (#[trigger] msF[k]).0;
                &&& flookup(fsv, mid) is Some
                &&& parse_source(flookup(fsv, mid)->Some_0) is Ok
                &&& msF[k].1 == (ModuleV {
                    imports: parse_source(flookup(fsv, mid)->Some_0)->Ok_0.imports,
                    exports: parse_source(flookup(fsv, mid)->Some_0)->Ok_0.exports,
                    raw: flookup(fsv, mid)->Some_0,
                })
            } by {
                if k < msF.len() - 1 {
                    assert(msF[k] == ms0[k]);
                } else {
                    assert(msF[k] == (id@, mv));
                    assert(flookup(fsv, id@) == Some(srcv));
                }
            }
            // the key set strictly grows inside the file identities
            let fks = fkeys(fsv).to_set();
            let dk0 = gkeys(ms0).to_set();
            let dkf = gkeys(msF).to_set();
            assert(gkeys(msF) =~= gkeys(ms0).push(id@));
            gkeys(ms0).lemma_push_to_set_commute(id@);
            assert(dkf =~= dk0.insert(id@));
            assert(fks.contains(id@)) by {
                lemma_flookup_contains(fsv, id@);
                let w = choose|w: int| 0 <= w < fsv.len() && fsv[w].0 == id@;
                assert(fkeys(fsv)[w] == id@);
                assert(fkeys(fsv).contains(id@));
            }
            assert(!dk0.contains(id@)) by {
                if gkeys(ms0).to_set().contains(id@) {
                    let w = choose|w: int| 0 <= w < gkeys(ms0).len()
                        && gkeys(ms0)[w] == id@;
                    assert(ms0[w].0 == id@);
                    assert(ghas(ms0, id@));
                }
            }
            assert(fks.difference(dkf) =~= fks.difference(dk0).remove(id@));
            assert(fks.difference(dk0).contains(id@));
            assert(fks.finite());
            assert(fks.difference(dk0).finite());
            assert(fks.difference(dkf).len() < fks.difference(dk0).len());
            assert forall|k: int| 0 <= k < msF.len() implies fks.contains(
                (#[trigger] msF[k]).0) by {
                if k < msF.len() - 1 {
                    assert(msF[k] == ms0[k]);
                } else {
                    assert(msF[k].0 == id@);
                }
            }
            // everything recorded or queued is still needed
            assert forall|x: Seq<char>| ghas(msF, x) implies needed(fsv, entryv, x) by {
                let w = choose|w: int| 0 <= w < msF.len() && (#[trigger] msF[w]).0 == x;
                if w < msF.len() - 1 {
                    assert(msF[w] == ms0[w]);
                    assert(ghas(ms0, x));
                } else {
                    assert(x == id@);
                }
            }
            assert forall|x: Seq<char>| strs_v(b.pending@).contains(x) implies needed(
                fsv, entryv, x) by {
                if !pend_pre.contains(x) {
                    assert(dep_ids(id@, mv).contains(x));
                    assert(fedge(fsv, id@, x)) by {
                        assert(flookup(fsv, id@) == Some(srcv));
                        assert(parsed_module(srcv) == mv);
                    }
                    lemma_needed_step(fsv, entryv, id@, x);
                }
            }
        }
    }
    let g = b.finish();
    proof {
        assert forall|x: Seq<char>| needed(fsv, entryv, x) implies ghas(g.ms(), x) by {
            let n = choose|n: nat| needed_n(fsv, entryv, x, n);
            assert(ghas(g.ms(), entryv));
            lemma_needed_in_graph(fsv, g.ms(), entryv, x, n);
        }
    }
    Ok(g)
}

/// An identity with a source in the file list occurs among its keys.
proof fn lemma_flookup_contains(fs: Seq<(Seq<char>, Seq<char>)>, id: Seq<char>)
    requires flookup(fs, id) is Some,
    ensures exists|w: int| 0 <= w < fs.len() && (#[trigger] fs[w]).0 == id,
    decreases fs.len(),
{
    if fs.len() > 0 && fs[0].0 != id {
        lemma_flookup_contains(fs.skip(1), id);
        let w = choose|w: int| 0 <= w < fs.skip(1).len() && (#[trigger] fs.skip(1)[w]).0 == id;
        assert(fs[w + 1] == fs.skip(1)[w]);
    }
}

} // verus!
