//! The bundle emitter: walks the module graph depth-first from the
//! entry module and produces one bootstrap text that registers every
//! discovered module before triggering execution of the entry module.
//!
//! A module's registration body is its raw source with every import
//! and re-export specifier span replaced, in left-to-right order, by
//! a call of the runtime's specifier resolver keyed by the resolved
//! canonical identity; every character outside those spans — the
//! quote characters around each specifier included — is copied
//! untouched.  The traversal recurses into every dependency before
//! registering the module itself, so a module's registration appears
//! after its dependencies' wherever the graph is free of cycles; a
//! cycle is entered only once, so the build terminates and each
//! module is registered exactly once.

use vstd::prelude::*;

use crate::graph::{ModuleGraph, ghas, gidx, glookup, keys_unique, graph_closed,
    dep_ids, module_wf, pairs_v, strs_v, gkeys, lemma_glookup_is, contains_string,
    collect_dep_ids};
use crate::parser::{JavascriptModule, ModuleV, RecordV, wf_sorted, wf_disjoint};
use crate::resolve::{resolved_id, resolve_module};

verus! {

/// One specifier span to splice: the half-open character range
/// `[start, end)` of the specifier text in the raw source — the quote
/// characters stand just outside it — and that text itself.
pub struct SpanV {
    pub start: int,
    pub end: int,
    pub specifier: Seq<char>,
}

/// The span of one record, in half-open form: the record's `end` names
/// the specifier's last character, so the spliced range ends one past
/// it.
pub open spec fn span_of(r: RecordV) -> SpanV {
    SpanV { start: r.start, end: r.end + 1, specifier: r.specifier }
}

/// The spans of a record list.
pub open spec fn spans_of(rs: Seq<RecordV>) -> Seq<SpanV> {
    rs.map_values(|r: RecordV| span_of(r))
}

/// The two span lists merged by start position: the single
/// left-to-right order of all spans.
pub open spec fn merge_spans(a: Seq<SpanV>, b: Seq<SpanV>) -> Seq<SpanV>
    decreases a.len() + b.len(),
{
    if a.len() == 0 {
        b
    } else if b.len() == 0 {
        a
    } else if a[0].start <= b[0].start {
        seq![a[0]] + merge_spans(a.skip(1), b)
    } else {
        seq![b[0]] + merge_spans(a, b.skip(1))
    }
}

/// The call of the runtime resolver that replaces a specifier span,
/// keyed by the resolved identity of the span's target.
pub open spec fn repl_text(dep: Seq<char>) -> Seq<char> {
    "${resolveImportSpecifier(\""@ + dep + "\")}"@
}

/// The module body with every span replaced by the resolver call for
/// its target, and every character outside the spans (from `from`
/// on) copied untouched.
pub open spec fn splice_text(s: Seq<char>, sps: Seq<SpanV>, id: Seq<char>, from: int) -> Seq<char>
    decreases sps.len(),
{
    if sps.len() == 0 {
        s.subrange(from, s.len() as int)
    } else {
        s.subrange(from, sps[0].start) + repl_text(resolved_id(id, sps[0].specifier))
            + splice_text(s, sps.skip(1), id, sps[0].end)
    }
}

/// The registration statement of one module.
#[verifier::opaque]
pub open spec fn registration_text(id: Seq<char>, m: ModuleV) -> Seq<char> {
    "insertModule(\""@ + id + "\",createModuleUrl(`"@
        + splice_text(m.raw, merge_spans(spans_of(m.imports), spans_of(m.exports)), id, 0)
        + "`));\n"@
}

/// The fixed first line of every bundle: it imports the runtime's
/// three functions.
pub open spec fn header_text() -> Seq<char> {
    "import { insertModule, createModuleUrl, resolveImportSpecifier } from \"/bloom.js\";\n"@
}

/// The fixed last statement of every bundle: it triggers the dynamic
/// import of the entry module.
pub open spec fn trailer_text(entry: Seq<char>) -> Seq<char> {
    "import(resolveImportSpecifier(\""@ + entry + "\"));"@
}

/// The registration statements of the listed identities, in order.
pub open spec fn regs_text(ms: Seq<(Seq<char>, ModuleV)>, order: Seq<Seq<char>>) -> Seq<char>
    decreases order.len(),
{
    if order.len() == 0 {
        Seq::empty()
    } else {
        registration_text(order[0], glookup(ms, order[0])) + regs_text(ms, order.skip(1))
    }
}

/// The whole bundle: header, one registration per module in
/// registration order, and the trailer naming the entry module.
pub open spec fn bundle_text(
    ms: Seq<(Seq<char>, ModuleV)>,
    entry: Seq<char>,
    order: Seq<Seq<char>>,
) -> Seq<char> {
    header_text() + regs_text(ms, order) + trailer_text(entry)
}

/// Spans that are in bounds, non-empty, and in source order without
/// overlap.
pub open spec fn spans_wf(s: Seq<char>, sps: Seq<SpanV>) -> bool {
    &&& forall|k: int| 0 <= k < sps.len()
        ==> 0 <= (#[trigger] sps[k]).start && sps[k].start + 1 <= sps[k].end <= s.len()
    &&& forall|k: int| 0 <= k < sps.len() - 1 ==> (#[trigger] sps[k]).end <= sps[k + 1].start
}

/// The spans of two record lists never overlap each other.
spec fn spans_disjoint(a: Seq<SpanV>, b: Seq<SpanV>) -> bool {
    forall|i: int, j: int| 0 <= i < a.len() && 0 <= j < b.len() ==>
        (#[trigger] a[i]).end <= (#[trigger] b[j]).start || b[j].end <= a[i].start
}

/// The spans of a well-formed record list are well formed.
proof fn lemma_spans_of_wf(s: Seq<char>, rs: Seq<RecordV>)
    requires wf_sorted(s, rs),
    ensures spans_wf(s, spans_of(rs)),
{
    assert forall|k: int| 0 <= k < spans_of(rs).len() implies 0 <= (
        #[trigger] spans_of(rs)[k]).start && spans_of(rs)[k].start + 1 <= spans_of(rs)[k].end
        <= s.len() by {
        assert(spans_of(rs)[k] == span_of(rs[k]));
    }
    assert forall|k: int| 0 <= k < spans_of(rs).len() - 1 implies (
        #[trigger] spans_of(rs)[k]).end <= spans_of(rs)[k + 1].start by {
        assert(spans_of(rs)[k] == span_of(rs[k]));
        assert(spans_of(rs)[k + 1] == span_of(rs[k + 1]));
    }
}

/// Merging two well-formed, mutually disjoint span lists yields a
/// well-formed span list.
#[verifier::rlimit(100)]
#[verifier::spinoff_prover]
proof fn lemma_merge_wf(s: Seq<char>, a: Seq<SpanV>, b: Seq<SpanV>)
    requires
        spans_wf(s, a),
        spans_wf(s, b),
        spans_disjoint(a, b),
    ensures spans_wf(s, merge_spans(a, b)),
    decreases a.len() + b.len(),
{
    if a.len() == 0 || b.len() == 0 {
    } else if a[0].start <= b[0].start {
        assert(a[0].end <= b[0].start) by {
            assert(a[0].end <= b[0].start || b[0].end <= a[0].start);
        }
        assert(spans_wf(s, a.skip(1))) by {
            assert forall|k: int| 0 <= k < a.skip(1).len() implies 0 <= (
                #[trigger] a.skip(1)[k]).start && a.skip(1)[k].start + 1 <= a.skip(1)[k].end
                <= s.len() by {
                assert(a.skip(1)[k] == a[k + 1]);
            }
            assert forall|k: int| 0 <= k < a.skip(1).len() - 1 implies (
                #[trigger] a.skip(1)[k]).end <= a.skip(1)[k + 1].start by {
                assert(a.skip(1)[k] == a[k + 1]);
                assert(a.skip(1)[k + 1] == a[k + 2]);
            }
        }
        assert(spans_disjoint(a.skip(1), b)) by {
            assert forall|i: int, j: int| 0 <= i < a.skip(1).len() && 0 <= j < b.len() implies
                (#[trigger] a.skip(1)[i]).end <= (#[trigger] b[j]).start
                || b[j].end <= a.skip(1)[i].start by {
                assert(a.skip(1)[i] == a[i + 1]);
            }
        }
        lemma_merge_wf(s, a.skip(1), b);
        let rest = merge_spans(a.skip(1), b);
        let whole = merge_spans(a, b);
        assert(whole == seq![a[0]] + rest);
        assert forall|k: int| 0 <= k < whole.len() implies 0 <= (#[trigger] whole[k]).start
            && whole[k].start + 1 <= whole[k].end <= s.len() by {
            if k == 0 {
                assert(whole[0] == a[0]);
            } else {
                assert(whole[k] == rest[k - 1]);
            }
        }
        assert forall|k: int| 0 <= k < whole.len() - 1 implies (#[trigger] whole[k]).end
            <= whole[k + 1].start by {
            if k == 0 {
                assert(whole[0] == a[0]);
                if rest.len() > 0 {
                    assert(whole[1] == rest[0]);
                    lemma_merge_first(a.skip(1), b);
                    if a.skip(1).len() > 0 {
                        assert(a.skip(1)[0] == a[1]);
                    }
                }
            } else {
                assert(whole[k] == rest[k - 1]);
                assert(whole[k + 1] == rest[k]);
            }
        }
    } else {
        assert(b[0].end <= a[0].start) by {
            assert(a[0].end <= b[0].start || b[0].end <= a[0].start);
        }
        assert(spans_wf(s, b.skip(1))) by {
            assert forall|k: int| 0 <= k < b.skip(1).len() implies 0 <= (
                #[trigger] b.skip(1)[k]).start && b.skip(1)[k].start + 1 <= b.skip(1)[k].end
                <= s.len() by {
                assert(b.skip(1)[k] == b[k + 1]);
            }
            assert forall|k: int| 0 <= k < b.skip(1).len() - 1 implies (
                #[trigger] b.skip(1)[k]).end <= b.skip(1)[k + 1].start by {
                assert(b.skip(1)[k] == b[k + 1]);
                assert(b.skip(1)[k + 1] == b[k + 2]);
            }
        }
        assert(spans_disjoint(a, b.skip(1))) by {
            assert forall|i: int, j: int| 0 <= i < a.len() && 0 <= j < b.skip(1).len() implies
                (#[trigger] a[i]).end <= (#[trigger] b.skip(1)[j]).start
                || b.skip(1)[j].end <= a[i].start by {
                assert(b.skip(1)[j] == b[j + 1]);
            }
        }
        lemma_merge_wf(s, a, b.skip(1));
        let rest = merge_spans(a, b.skip(1));
        let whole = merge_spans(a, b);
        assert(whole == seq![b[0]] + rest);
        assert forall|k: int| 0 <= k < whole.len() implies 0 <= (#[trigger] whole[k]).start
            && whole[k].start + 1 <= whole[k].end <= s.len() by {
            if k == 0 {
                assert(whole[0] == b[0]);
            } else {
                assert(whole[k] == rest[k - 1]);
            }
        }
        assert forall|k: int| 0 <= k < whole.len() - 1 implies (#[trigger] whole[k]).end
            <= whole[k + 1].start by {
            if k == 0 {
                assert(whole[0] == b[0]);
                if rest.len() > 0 {
                    assert(whole[1] == rest[0]);
                    lemma_merge_first(a, b.skip(1));
                    if b.skip(1).len() > 0 {
                        assert(b.skip(1)[0] == b[1]);
                    }
                }
            } else {
                assert(whole[k] == rest[k - 1]);
                assert(whole[k + 1] == rest[k]);
            }
        }
    }
}

/// The first merged span is the first span of one of the lists.
proof fn lemma_merge_first(a: Seq<SpanV>, b: Seq<SpanV>)
    requires merge_spans(a, b).len() > 0,
    ensures
        merge_spans(a, b).len() == a.len() + b.len(),
        (a.len() > 0 && merge_spans(a, b)[0] == a[0])
            || (b.len() > 0 && merge_spans(a, b)[0] == b[0]),
    decreases a.len() + b.len(),
{
    if a.len() == 0 || b.len() == 0 {
    } else if a[0].start <= b[0].start {
        lemma_merge_first(a.skip(1), b);
    } else {
        lemma_merge_first(a, b.skip(1));
    }
}

/// One specifier span, executable form.
pub struct Span {
    pub start: usize,
    pub end: usize,
    pub specifier: String,
}

impl View for Span {
    type V = SpanV;

    open spec fn view(&self) -> SpanV {
        SpanV { start: self.start as int, end: self.end as int, specifier: self.specifier@ }
    }
}

/// The models of a span list.
spec fn spans_v(v: Seq<Span>) -> Seq<SpanV> {
    v.map_values(|sp: Span| sp@)
}

/// The spans of a module's import records, in half-open form.
fn import_spans(m: &JavascriptModule) -> (r: Vec<Span>)
    requires module_wf(m@),
    ensures spans_v(r@) == spans_of(m@.imports),
{
    let mut out: Vec<Span> = Vec::new();
    let n = m.imports.len();
    let mut k: usize = 0;
    while k < n
        invariant
            module_wf(m@),
            n == m.imports@.len(),
            k <= n,
            out@.len() == k,
            forall|i: int| 0 <= i < k ==> (#[trigger] out@[i])@ == span_of(m@.imports[i]),
        decreases n - k,
    {
        proof {
            assert(crate::parser::wf_record(m@.raw, m@.imports[k as int]));
        }
        out.push(Span {
            start: m.imports[k].specifier_start,
            end: m.imports[k].specifier_end + 1,
            specifier: m.imports[k].specifier.clone(),
        });
        k = k + 1;
    }
    proof {
        assert(spans_v(out@) =~= spans_of(m@.imports));
    }
    out
}

/// The spans of a module's re-export records, in half-open form.
fn export_spans(m: &JavascriptModule) -> (r: Vec<Span>)
    requires module_wf(m@),
    ensures spans_v(r@) == spans_of(m@.exports),
{
    let mut out: Vec<Span> = Vec::new();
    let n = m.exports.len();
    let mut k: usize = 0;
    while k < n
        invariant
            module_wf(m@),
            n == m.exports@.len(),
            k <= n,
            out@.len() == k,
            forall|i: int| 0 <= i < k ==> (#[trigger] out@[i])@ == span_of(m@.exports[i]),
        decreases n - k,
    {
        proof {
            assert(crate::parser::wf_record(m@.raw, m@.exports[k as int]));
        }
        out.push(Span {
            start: m.exports[k].specifier_start,
            end: m.exports[k].specifier_end + 1,
            specifier: m.exports[k].specifier.clone(),
        });
        k = k + 1;
    }
    proof {
        assert(spans_v(out@) =~= spans_of(m@.exports));
    }
    out
}

/// Merge two span lists into the single left-to-right order.
#[verifier::rlimit(100)]
fn merge_exec(a: Vec<Span>, b: Vec<Span>) -> (r: Vec<Span>)
    ensures spans_v(r@) == merge_spans(spans_v(a@), spans_v(b@)),
{
    let ghost sa = spans_v(a@);
    let ghost sb = spans_v(b@);
    let na = a.len();
    let nb = b.len();
    let mut out: Vec<Span> = Vec::new();
    let mut i: usize = 0;
    let mut j: usize = 0;
    proof {
        assert(sa.skip(0) =~= sa);
        assert(sb.skip(0) =~= sb);
    }
    while i < na || j < nb
        invariant
            na == a@.len(),
            nb == b@.len(),
            sa == spans_v(a@),
            sb == spans_v(b@),
            i <= na,
            j <= nb,
            merge_spans(sa, sb) == spans_v(out@) + merge_spans(
                sa.skip(i as int), sb.skip(j as int)),
        decreases (na - i) + (nb - j),
    {
        let ghost sa_i = sa.skip(i as int);
        let ghost sb_j = sb.skip(j as int);
        let take_a: bool = if j >= nb {
            true
        } else if i >= na {
            false
        } else {
            a[i].start <= b[j].start
        };
        if take_a {
            let el = Span {
                start: a[i].start,
                end: a[i].end,
                specifier: a[i].specifier.clone(),
            };
            proof {
                assert(el@ == sa[i as int]);
                assert(sa_i[0] == sa[i as int]);
                assert(sa.skip(i as int + 1) =~= sa_i.skip(1));
                if j >= nb {
                    assert(sb_j =~= Seq::<SpanV>::empty());
                    assert(merge_spans(sa_i, sb_j) == sa_i);
                    assert(sa_i =~= seq![sa_i[0]] + sa_i.skip(1));
                    assert(merge_spans(sa_i.skip(1), sb_j) == sa_i.skip(1));
                    assert(merge_spans(sa_i, sb_j)
                        == seq![sa_i[0]] + merge_spans(sa_i.skip(1), sb_j));
                } else {
                    assert(sb_j[0] == sb[j as int]);
                    assert(sa_i[0].start <= sb_j[0].start);
                    assert(merge_spans(sa_i, sb_j)
                        == seq![sa_i[0]] + merge_spans(sa_i.skip(1), sb_j));
                }
                assert(spans_v(out@.push(el)) =~= spans_v(out@).push(el@));
                assert(spans_v(out@).push(sa_i[0]) + merge_spans(sa_i.skip(1), sb_j)
                    =~= spans_v(out@) + (seq![sa_i[0]] + merge_spans(sa_i.skip(1), sb_j)));
            }
            out.push(el);
            i = i + 1;
        } else {
            let el = Span {
                start: b[j].start,
                end: b[j].end,
                specifier: b[j].specifier.clone(),
            };
            proof {
                assert(el@ == sb[j as int]);
                assert(sb_j[0] == sb[j as int]);
                assert(sb.skip(j as int + 1) =~= sb_j.skip(1));
                if i >= na {
                    assert(sa_i =~= Seq::<SpanV>::empty());
                    assert(merge_spans(sa_i, sb_j) == sb_j);
                    assert(sb_j =~= seq![sb_j[0]] + sb_j.skip(1));
                    assert(merge_spans(sa_i, sb_j.skip(1)) == sb_j.skip(1));
                    assert(merge_spans(sa_i, sb_j)
                        == seq![sb_j[0]] + merge_spans(sa_i, sb_j.skip(1)));
                } else {
                    assert(sa_i[0] == sa[i as int]);
                    assert(!(sa_i[0].start <= sb_j[0].start));
                    assert(merge_spans(sa_i, sb_j)
                        == seq![sb_j[0]] + merge_spans(sa_i, sb_j.skip(1)));
                }
                assert(spans_v(out@.push(el)) =~= spans_v(out@).push(el@));
                assert(spans_v(out@).push(sb_j[0]) + merge_spans(sa_i, sb_j.skip(1))
                    =~= spans_v(out@) + (seq![sb_j[0]] + merge_spans(sa_i, sb_j.skip(1))));
            }
            out.push(el);
            j = j + 1;
        }
    }
    proof {
        assert(sa.skip(na as int) =~= Seq::<SpanV>::empty());
        assert(sb.skip(nb as int) =~= Seq::<SpanV>::empty());
        assert(merge_spans(sa.skip(na as int), sb.skip(nb as int))
            =~= Seq::<SpanV>::empty());
        assert(spans_v(out@) + Seq::<SpanV>::empty() =~= spans_v(out@));
    }
    out
}

/// Append one module's registration statement to the output text.
#[verifier::rlimit(100)]
#[verifier::spinoff_prover]
fn emit_module(id: &String, m: &JavascriptModule, out: &mut String)
    requires module_wf(m@),
    ensures final(out)@ == old(out)@ + registration_text(id@, m@),
{
    let ghost s = m@.raw;
    let ghost all = merge_spans(spans_of(m@.imports), spans_of(m@.exports));
    proof {
        lemma_spans_of_wf(s, m@.imports);
        lemma_spans_of_wf(s, m@.exports);
        assert(spans_disjoint(spans_of(m@.imports), spans_of(m@.exports))) by {
            assert forall|i: int, j: int| 0 <= i < spans_of(m@.imports).len()
                && 0 <= j < spans_of(m@.exports).len() implies
                (#[trigger] spans_of(m@.imports)[i]).end
                    <= (#[trigger] spans_of(m@.exports)[j]).start
                || spans_of(m@.exports)[j].end <= spans_of(m@.imports)[i].start by {
                assert(spans_of(m@.imports)[i] == span_of(m@.imports[i]));
                assert(spans_of(m@.exports)[j] == span_of(m@.exports[j]));
                assert(m@.imports[i].end + 2 <= m@.exports[j].start
                    || m@.exports[j].end + 2 <= m@.imports[i].start);
            }
        }
        lemma_merge_wf(s, spans_of(m@.imports), spans_of(m@.exports));
    }
    out.append("insertModule(\"");
    out.append(id.as_str());
    out.append("\",createModuleUrl(`");
    let ghost mid0 = out@;

    let spans = merge_exec(import_spans(m), export_spans(m));
    let srclen = m.raw_source.as_str().unicode_len();
    let nsp = spans.len();
    let mut last: usize = 0;
    let mut k: usize = 0;
    proof {
        assert(spans_v(spans@).skip(0) =~= spans_v(spans@));
    }
    while k < nsp
        invariant
            nsp == spans@.len(),
            k <= nsp,
            spans_v(spans@) == all,
            spans_wf(s, all),
            s == m.raw_source@,
            srclen == s.len() <= usize::MAX,
            module_wf(m@),
            k < nsp ==> last <= all[k as int].start,
            k >= nsp ==> last <= s.len(),
            out@.len() >= mid0.len(),
            out@.subrange(0, mid0.len() as int) == mid0,
            splice_text(s, all, id@, 0) == out@.skip(mid0.len() as int) + splice_text(
                s, all.skip(k as int), id@, last as int),
        decreases nsp - k,
    {
        let sp_start = spans[k].start;
        let sp_end = spans[k].end;
        let ghost out0 = out@;
        let ghost allk = all.skip(k as int);
        proof {
            assert(allk[0] == all[k as int]);
            assert(all[k as int] == spans_v(spans@)[k as int]);
            assert(spans_v(spans@)[k as int] == spans@[k as int]@);
        }
        let seg = m.raw_source.as_str().substring_char(last, sp_start);
        out.append(seg);
        out.append("${resolveImportSpecifier(\"");
        let dep = resolve_module(id.as_str(), spans[k].specifier.as_str());
        out.append(dep.as_str());
        out.append("\")}");
        proof {
            assert(out@ == out0 + s.subrange(last as int, sp_start as int)
                + "${resolveImportSpecifier(\""@ + resolved_id(id@, all[k as int].specifier)
                + "\")}"@);
            assert(all.skip(k as int + 1) =~= allk.skip(1));
            assert(splice_text(s, allk, id@, last as int)
                == s.subrange(last as int, sp_start as int)
                    + repl_text(resolved_id(id@, allk[0].specifier))
                    + splice_text(s, allk.skip(1), id@, allk[0].end));
            assert(out@.subrange(0, mid0.len() as int) =~= mid0);
            assert(out@.skip(mid0.len() as int) + splice_text(
                s, all.skip(k as int + 1), id@, sp_end as int)
                =~= out0.skip(mid0.len() as int) + splice_text(s, allk, id@, last as int));
            if k + 1 < nsp {
                assert(all[k as int].end <= all[k as int + 1].start);
            }
        }
        last = sp_end;
        k = k + 1;
    }
    let tail = m.raw_source.as_str().substring_char(last, srclen);
    let ghost out1 = out@;
    out.append(tail);
    let ghost out2 = out@;
    proof {
        assert(all.skip(nsp as int) =~= Seq::<SpanV>::empty());
        assert(splice_text(s, all.skip(nsp as int), id@, last as int)
            == s.subrange(last as int, s.len() as int));
        assert(out2.subrange(0, mid0.len() as int) =~= mid0);
        assert(out2.skip(mid0.len() as int)
            =~= out1.skip(mid0.len() as int) + s.subrange(last as int, s.len() as int));
        assert(out2.skip(mid0.len() as int) =~= splice_text(s, all, id@, 0));
        assert(out2 =~= mid0 + splice_text(s, all, id@, 0));
    }
    out.append("`));\n");
    proof {
        reveal(registration_text);
        assert(mid0 =~= old(out)@ + ("insertModule(\""@ + id@ + "\",createModuleUrl(`"@));
        assert(out@ == out2 + "`));\n"@);
        assert(out@ =~= old(out)@ + registration_text(id@, m@));
    }
}

/// An edge of the dependency graph: the module under `a` imports from
/// or re-exports from the module whose canonical identity is `b`.
pub open spec fn gedge(ms: Seq<(Seq<char>, ModuleV)>, a: Seq<char>, b: Seq<char>) -> bool {
    ghas(ms, a) && dep_ids(a, glookup(ms, a)).contains(b)
}

/// Whether `b` can be reached from `a` along at most `n` edges.
pub open spec fn reaches_n(
    ms: Seq<(Seq<char>, ModuleV)>,
    a: Seq<char>,
    b: Seq<char>,
    n: nat,
) -> bool
    decreases n,
{
    if a == b {
        true
    } else if n == 0 {
        false
    } else {
        exists|mid: Seq<char>| #[trigger] gedge(ms, a, mid) && reaches_n(ms, mid, b, (n - 1) as nat)
    }
}

/// Whether `b` can be reached from `a` along dependency edges.
pub open spec fn reaches(ms: Seq<(Seq<char>, ModuleV)>, a: Seq<char>, b: Seq<char>) -> bool {
    exists|n: nat| reaches_n(ms, a, b, n)
}

/// Every identity reaches itself.
pub proof fn lemma_reaches_refl(ms: Seq<(Seq<char>, ModuleV)>, a: Seq<char>)
    ensures reaches(ms, a, a),
{
    assert(reaches_n(ms, a, a, 0));
}

/// An edge is a reach.
pub proof fn lemma_reaches_edge(ms: Seq<(Seq<char>, ModuleV)>, a: Seq<char>, b: Seq<char>)
    requires gedge(ms, a, b),
    ensures reaches(ms, a, b),
{
    if a == b {
        assert(reaches_n(ms, a, b, 0));
    } else {
        assert(reaches_n(ms, b, b, 0));
        assert(reaches_n(ms, a, b, 1));
    }
}

proof fn lemma_reaches_n_step(
    ms: Seq<(Seq<char>, ModuleV)>,
    a: Seq<char>,
    b: Seq<char>,
    c: Seq<char>,
    n: nat,
)
    requires
        reaches_n(ms, a, b, n),
        gedge(ms, b, c),
    ensures reaches_n(ms, a, c, n + 1),
    decreases n,
{
    if a == b {
        if a == c {
        } else {
            assert(reaches_n(ms, c, c, n));
            assert(gedge(ms, a, c));
        }
    } else {
        let mid = choose|mid: Seq<char>| #[trigger] gedge(ms, a, mid)
            && reaches_n(ms, mid, b, (n - 1) as nat);
        lemma_reaches_n_step(ms, mid, b, c, (n - 1) as nat);
        assert(gedge(ms, a, mid) && reaches_n(ms, mid, c, n));
    }
}

/// A reach extended by one edge is a reach.
pub proof fn lemma_reaches_step(
    ms: Seq<(Seq<char>, ModuleV)>,
    a: Seq<char>,
    b: Seq<char>,
    c: Seq<char>,
)
    requires
        reaches(ms, a, b),
        gedge(ms, b, c),
    ensures reaches(ms, a, c),
{
    let n = choose|n: nat| reaches_n(ms, a, b, n);
    lemma_reaches_n_step(ms, a, b, c, n);
}

/// Everything reachable from a member of a set closed under edges is
/// in the set.
proof fn lemma_reaches_in_closed(
    ms: Seq<(Seq<char>, ModuleV)>,
    ord: Seq<Seq<char>>,
    a: Seq<char>,
    b: Seq<char>,
    n: nat,
)
    requires
        reaches_n(ms, a, b, n),
        ord.contains(a),
        forall|u: Seq<char>, d: Seq<char>| ord.contains(u) && #[trigger] gedge(ms, u, d)
            ==> ord.contains(d),
    ensures ord.contains(b),
    decreases n,
{
    if a == b {
    } else {
        let mid = choose|mid: Seq<char>| #[trigger] gedge(ms, a, mid)
            && reaches_n(ms, mid, b, (n - 1) as nat);
        assert(ord.contains(mid));
        lemma_reaches_in_closed(ms, ord, mid, b, (n - 1) as nat);
    }
}

/// Registration order is dependency-first up to cycles: each
/// registered module's dependency is registered earlier, unless the
/// two lie on a common cycle.
pub open spec fn good_order(ms: Seq<(Seq<char>, ModuleV)>, ord: Seq<Seq<char>>) -> bool {
    forall|i: int, j: int| 0 <= i < ord.len()
        && 0 <= j < dep_ids(#[trigger] ord[i], glookup(ms, ord[i])).len()
        ==> {
            let d = #[trigger] dep_ids(ord[i], glookup(ms, ord[i]))[j];
            (exists|k: int| 0 <= k < i && ord[k] == d)
                || (reaches(ms, d, ord[i]) && reaches(ms, ord[i], d))
        }
}

/// The emitter's invariant: the visited identities are exactly the
/// registered ones plus the in-progress stack, the registered list
/// has no duplicates and only graph members all reachable from the
/// root, every registered module's dependencies are visited, and the
/// order so far is dependency-first up to cycles.
#[verifier::opaque]
pub open spec fn inv_emit(
    ms: Seq<(Seq<char>, ModuleV)>,
    root: Seq<char>,
    vis: Seq<Seq<char>>,
    ord: Seq<Seq<char>>,
    stack: Seq<Seq<char>>,
) -> bool {
    &&& ord.no_duplicates()
    &&& (forall|x: Seq<char>| #[trigger] vis.contains(x)
        <==> (ord.contains(x) || stack.contains(x)))
    &&& (forall|x: Seq<char>| #[trigger] ord.contains(x) ==> !stack.contains(x))
    &&& (forall|x: Seq<char>| #[trigger] ord.contains(x) ==> ghas(ms, x))
    &&& (forall|x: Seq<char>| #[trigger] stack.contains(x) ==> ghas(ms, x))
    &&& (forall|x: Seq<char>| #[trigger] vis.contains(x) ==> reaches(ms, root, x))
    &&& (forall|i: int, j: int| 0 <= i < ord.len()
        && 0 <= j < dep_ids(#[trigger] ord[i], glookup(ms, ord[i])).len()
        ==> vis.contains(#[trigger] dep_ids(ord[i], glookup(ms, ord[i]))[j]))
    &&& good_order(ms, ord)
}

/// Appending one registration is registering at the end.
proof fn lemma_regs_snoc(ms: Seq<(Seq<char>, ModuleV)>, o: Seq<Seq<char>>, x: Seq<char>)
    ensures
        regs_text(ms, o.push(x)) == regs_text(ms, o) + registration_text(x, glookup(ms, x)),
    decreases o.len(),
{
    if o.len() == 0 {
        assert(o.push(x)[0] == x);
        assert(o.push(x).skip(1) =~= Seq::<Seq<char>>::empty());
        assert(regs_text(ms, Seq::<Seq<char>>::empty()) == Seq::<char>::empty());
        assert(regs_text(ms, o.push(x).skip(1)) == Seq::<char>::empty());
        assert(regs_text(ms, o.push(x))
            == registration_text(x, glookup(ms, x)) + regs_text(ms, o.push(x).skip(1)));
        assert(regs_text(ms, o) == Seq::<char>::empty());
        assert(regs_text(ms, o.push(x)) =~= regs_text(ms, o)
            + registration_text(x, glookup(ms, x)));
    } else {
        assert(o.push(x)[0] == o[0]);
        assert(o.push(x).skip(1) =~= o.skip(1).push(x));
        lemma_regs_snoc(ms, o.skip(1), x);
        assert(regs_text(ms, o.push(x)) == registration_text(o[0], glookup(ms, o[0]))
            + (regs_text(ms, o.skip(1)) + registration_text(x, glookup(ms, x))));
        assert(registration_text(o[0], glookup(ms, o[0]))
            + (regs_text(ms, o.skip(1)) + registration_text(x, glookup(ms, x)))
            =~= (registration_text(o[0], glookup(ms, o[0])) + regs_text(ms, o.skip(1)))
                + registration_text(x, glookup(ms, x)));
    }
}

/// Registering a concatenation is concatenating the registrations.
proof fn lemma_regs_append(ms: Seq<(Seq<char>, ModuleV)>, a: Seq<Seq<char>>, b: Seq<Seq<char>>)
    ensures regs_text(ms, a + b) == regs_text(ms, a) + regs_text(ms, b),
    decreases a.len(),
{
    if a.len() == 0 {
        assert(a + b =~= b);
        assert(regs_text(ms, a) == Seq::<char>::empty());
        assert(regs_text(ms, a) + regs_text(ms, b) =~= regs_text(ms, b));
    } else {
        assert((a + b).len() > 0);
        assert((a + b)[0] == a[0]);
        assert((a + b).skip(1) =~= a.skip(1) + b);
        lemma_regs_append(ms, a.skip(1), b);
        assert(regs_text(ms, a + b) == registration_text(a[0], glookup(ms, a[0]))
            + (regs_text(ms, a.skip(1)) + regs_text(ms, b)));
        assert(registration_text(a[0], glookup(ms, a[0]))
            + (regs_text(ms, a.skip(1)) + regs_text(ms, b))
            =~= (registration_text(a[0], glookup(ms, a[0])) + regs_text(ms, a.skip(1)))
                + regs_text(ms, b));
    }
}

/// Registering a module whose dependencies are all either already
/// registered or on the in-progress stack keeps the emitter's
/// invariant, with the module popped off the stack.
#[verifier::rlimit(100)]
#[verifier::spinoff_prover]
proof fn lemma_emit_push(
    ms: Seq<(Seq<char>, ModuleV)>,
    root: Seq<char>,
    vis: Seq<Seq<char>>,
    ord: Seq<Seq<char>>,
    stack: Seq<Seq<char>>,
    id: Seq<char>,
    depsv: Seq<Seq<char>>,
)
    requires
        inv_emit(ms, root, vis, ord, stack.push(id)),
        ghas(ms, id),
        !stack.contains(id),
        vis.contains(id),
        depsv == dep_ids(id, glookup(ms, id)),
        forall|j: int| 0 <= j < depsv.len() ==> vis.contains(#[trigger] depsv[j])
            && (ord.contains(depsv[j]) || stack.push(id).contains(depsv[j])),
        forall|k: int| 0 <= k < stack.len() ==> reaches(ms, #[trigger] stack[k], id),
    ensures
        inv_emit(ms, root, vis, ord.push(id), stack),
        ord.push(id).contains(id),
{
    reveal(inv_emit);
    let stackp = stack.push(id);
    let ordp = ord.push(id);
    assert(stackp[stack.len() as int] == id);
    assert(stackp.contains(id));
    assert(!ord.contains(id));
    assert(ordp[ord.len() as int] == id);
    assert(ordp.contains(id));

    assert forall|x: Seq<char>| #[trigger] stack.contains(x) implies stackp.contains(x) by {
        let w = choose|w: int| 0 <= w < stack.len() && stack[w] == x;
        assert(stackp[w] == x);
    }
    assert forall|x: Seq<char>| #[trigger] ord.contains(x) implies ordp.contains(x) by {
        let w = choose|w: int| 0 <= w < ord.len() && ord[w] == x;
        assert(ordp[w] == x);
    }
    assert forall|x: Seq<char>| #[trigger] stackp.contains(x) implies (x == id
        || stack.contains(x)) by {
        let w = choose|w: int| 0 <= w < stackp.len() && stackp[w] == x;
        if w < stack.len() {
            assert(stack[w] == x);
        }
    }
    assert forall|x: Seq<char>| #[trigger] ordp.contains(x) implies (x == id
        || ord.contains(x)) by {
        let w = choose|w: int| 0 <= w < ordp.len() && ordp[w] == x;
        if w < ord.len() {
            assert(ord[w] == x);
        }
    }

    assert(ordp.no_duplicates()) by {
        assert forall|i: int, j: int| 0 <= i < j < ordp.len() implies ordp[i] != ordp[j] by {
            if j < ord.len() {
                assert(ordp[i] == ord[i] && ordp[j] == ord[j]);
            } else {
                assert(ordp[i] == ord[i]);
                assert(ordp[j] == id);
                assert(ord.contains(ord[i]));
            }
        }
    }

    assert forall|x: Seq<char>| #[trigger] vis.contains(x) implies (ordp.contains(x)
        || stack.contains(x)) by {
        assert(ord.contains(x) || stackp.contains(x));
    }
    assert forall|x: Seq<char>| (ordp.contains(x) || stack.contains(x)) implies #[trigger]
        vis.contains(x) by {
        if ordp.contains(x) {
            if x == id {
            } else {
                assert(ord.contains(x));
            }
        } else {
            assert(stackp.contains(x));
        }
    }
    assert forall|x: Seq<char>| #[trigger] ordp.contains(x) implies !stack.contains(x) by {
        if x == id {
        } else {
            assert(ord.contains(x));
            assert(!stackp.contains(x));
        }
    }
    assert forall|x: Seq<char>| #[trigger] ordp.contains(x) implies ghas(ms, x) by {
        if x != id {
            assert(ord.contains(x));
        }
    }

    // every registered module's dependencies are visited
    assert forall|i: int, j: int| 0 <= i < ordp.len()
        && 0 <= j < dep_ids(#[trigger] ordp[i], glookup(ms, ordp[i])).len()
        implies vis.contains(#[trigger] dep_ids(ordp[i], glookup(ms, ordp[i]))[j]) by {
        if i < ord.len() {
            assert(ordp[i] == ord[i]);
        } else {
            assert(ordp[i] == id);
        }
    }

    // the order stays dependency-first up to cycles
    assert(good_order(ms, ordp)) by {
        assert forall|i: int, j: int| 0 <= i < ordp.len()
            && 0 <= j < dep_ids(#[trigger] ordp[i], glookup(ms, ordp[i])).len()
            implies {
                let d = #[trigger] dep_ids(ordp[i], glookup(ms, ordp[i]))[j];
                (exists|k: int| 0 <= k < i && ordp[k] == d)
                    || (reaches(ms, d, ordp[i]) && reaches(ms, ordp[i], d))
            } by {
            if i < ord.len() {
                assert(ordp[i] == ord[i]);
                let d = dep_ids(ord[i], glookup(ms, ord[i]))[j];
                assert((exists|k: int| 0 <= k < i && ord[k] == d)
                    || (reaches(ms, d, ord[i]) && reaches(ms, ord[i], d)));
                if exists|k: int| 0 <= k < i && ord[k] == d {
                    let k = choose|k: int| 0 <= k < i && ord[k] == d;
                    assert(ordp[k] == d);
                }
            } else {
                assert(ordp[i] == id);
                let d = dep_ids(id, glookup(ms, id))[j];
                assert(depsv[j] == d);
                assert(gedge(ms, id, d)) by {
                    assert(dep_ids(id, glookup(ms, id)).contains(d));
                }
                if ord.contains(d) {
                    let k = choose|k: int| 0 <= k < ord.len() && ord[k] == d;
                    assert(ordp[k] == d);
                } else if d == id {
                    lemma_reaches_refl(ms, id);
                } else {
                    assert(stackp.contains(d));
                    assert(stack.contains(d));
                    assert(reaches(ms, d, id));
                    lemma_reaches_edge(ms, id, d);
                }
            }
        }
    }
}

/// Membership in a pushed list: the old members plus the new one.
proof fn lemma_push_contains(xs: Seq<Seq<char>>, x: Seq<char>)
    ensures forall|y: Seq<char>| #[trigger] xs.push(x).contains(y)
        <==> (xs.contains(y) || y == x),
{
    assert forall|y: Seq<char>| #[trigger] xs.push(x).contains(y) implies (xs.contains(y)
        || y == x) by {
        let w = choose|w: int| 0 <= w < xs.push(x).len() && xs.push(x)[w] == y;
        if w < xs.len() {
            assert(xs[w] == y);
        }
    }
    assert forall|y: Seq<char>| (xs.contains(y) || y == x) implies #[trigger] xs.push(
        x).contains(y) by {
        if xs.contains(y) {
            let w = choose|w: int| 0 <= w < xs.len() && xs[w] == y;
            assert(xs.push(x)[w] == y);
        } else {
            assert(xs.push(x)[xs.len() as int] == y);
        }
    }
}

/// Visiting a fresh graph identity shrinks the unvisited part of the
/// graph.
proof fn lemma_measure_shrinks(
    ms: Seq<(Seq<char>, ModuleV)>,
    vis0: Seq<Seq<char>>,
    visb: Seq<Seq<char>>,
    id: Seq<char>,
)
    requires
        ghas(ms, id),
        !vis0.contains(id),
        visb.contains(id),
        forall|x: Seq<char>| #[trigger] vis0.contains(x) ==> visb.contains(x),
    ensures
        gkeys(ms).to_set().difference(visb.to_set()).len()
            < gkeys(ms).to_set().difference(vis0.to_set()).len(),
{
    broadcast use vstd::seq_lib::seq_to_set_is_finite;

    let keyset = gkeys(ms).to_set();
    let vset0 = vis0.to_set();
    let vsetb = visb.to_set();
    assert(keyset.contains(id)) by {
        let gi = gidx(ms, id);
        assert(gkeys(ms)[gi] == id);
        assert(gkeys(ms).contains(id));
    }
    assert forall|x: Seq<char>| keyset.difference(vsetb).contains(x) implies
        keyset.difference(vset0).remove(id).contains(x) by {
        if vis0.contains(x) {
            assert(visb.contains(x));
        }
    }
    vstd::set_lib::lemma_len_subset(
        keyset.difference(vsetb), keyset.difference(vset0).remove(id));
    assert(keyset.difference(vset0).contains(id));
}

/// Chaining two extensions of the registration order: the old prefix
/// survives and the registrations concatenate.
proof fn lemma_delta_chain(
    ms: Seq<(Seq<char>, ModuleV)>,
    ord0: Seq<Seq<char>>,
    ord_b: Seq<Seq<char>>,
    ord_c: Seq<Seq<char>>,
)
    requires
        ord0.len() <= ord_b.len() <= ord_c.len(),
        ord_b.subrange(0, ord0.len() as int) == ord0,
        ord_c.subrange(0, ord_b.len() as int) == ord_b,
    ensures
        ord_c.subrange(0, ord0.len() as int) == ord0,
        regs_text(ms, ord_c.skip(ord0.len() as int)) == regs_text(
            ms, ord_b.skip(ord0.len() as int)) + regs_text(ms, ord_c.skip(ord_b.len() as int)),
        forall|x: Seq<char>| #[trigger] ord_b.contains(x) ==> ord_c.contains(x),
{
    let l0 = ord0.len() as int;
    let lb = ord_b.len() as int;
    assert forall|w: int| 0 <= w < l0 implies ord_c.subrange(0, l0)[w] == ord0[w] by {
        assert(ord_c[w] == ord_c.subrange(0, lb)[w]);
        assert(ord_b[w] == ord_b.subrange(0, l0)[w]);
    }
    assert(ord_c.subrange(0, l0) =~= ord0);
    let d1 = ord_b.skip(l0);
    let d2 = ord_c.skip(lb);
    assert(ord_c.skip(l0) =~= d1 + d2) by {
        assert forall|w: int| 0 <= w < ord_c.len() - l0 implies ord_c.skip(l0)[w]
            == (d1 + d2)[w] by {
            if w < lb - l0 {
                assert(ord_c[l0 + w] == ord_c.subrange(0, lb)[l0 + w]);
                assert(ord_b[l0 + w] == d1[w]);
            }
        }
    }
    lemma_regs_append(ms, d1, d2);
    assert forall|x: Seq<char>| #[trigger] ord_b.contains(x) implies ord_c.contains(x) by {
        let w = choose|w: int| 0 <= w < ord_b.len() && ord_b[w] == x;
        assert(ord_c[w] == ord_c.subrange(0, lb)[w]);
    }
}

/// Facts about one dependency of the module being emitted: it is an
/// edge target, a graph member, reachable from the root, and every
/// identity on the extended stack reaches it.
proof fn lemma_dep_facts(
    ms: Seq<(Seq<char>, ModuleV)>,
    root: Seq<char>,
    stack: Seq<Seq<char>>,
    id: Seq<char>,
    depsv: Seq<Seq<char>>,
    k: int,
)
    requires
        graph_closed(ms),
        ghas(ms, id),
        depsv == dep_ids(id, glookup(ms, id)),
        0 <= k < depsv.len(),
        reaches(ms, root, id),
        forall|k2: int| 0 <= k2 < stack.len() ==> reaches(ms, #[trigger] stack[k2], id),
    ensures
        gedge(ms, id, depsv[k]),
        ghas(ms, depsv[k]),
        reaches(ms, root, depsv[k]),
        forall|k2: int| 0 <= k2 < stack.push(id).len()
            ==> reaches(ms, #[trigger] stack.push(id)[k2], depsv[k]),
{
    let stackp = stack.push(id);
    assert(gedge(ms, id, depsv[k])) by {
        assert(dep_ids(id, glookup(ms, id))[k] == depsv[k]);
        assert(dep_ids(id, glookup(ms, id)).contains(depsv[k]));
    }
    assert(ghas(ms, depsv[k])) by {
        let gi = gidx(ms, id);
        assert(0 <= gi < ms.len() && ms[gi].0 == id);
        assert(ms[gi].1 == glookup(ms, id));
        assert(dep_ids(ms[gi].0, ms[gi].1)[k] == depsv[k]);
    }
    lemma_reaches_step(ms, root, id, depsv[k]);
    assert forall|k2: int| 0 <= k2 < stackp.len() implies reaches(
        ms, #[trigger] stackp[k2], depsv[k]) by {
        if k2 < stack.len() {
            assert(stackp[k2] == stack[k2]);
            lemma_reaches_step(ms, stack[k2], id, depsv[k]);
        } else {
            assert(stackp[k2] == id);
            lemma_reaches_edge(ms, id, depsv[k]);
        }
    }
}

/// The emitted bundle: the bootstrap text, and the canonical
/// identities of the registered modules in registration order.
pub struct JavascriptBundle {
    pub content: String,
    pub registration_order: Vec<String>,
}

/// A module with no import and no re-export records is registered with
/// its raw source standing unchanged inside the registration call.
pub proof fn lemma_registration_plain(id: Seq<char>, m: ModuleV)
    requires
        m.imports.len() == 0,
        m.exports.len() == 0,
    ensures
        registration_text(id, m) == "insertModule(\""@ + id + "\",createModuleUrl(`"@
            + m.raw + "`));\n"@,
{
    reveal(registration_text);
    assert(spans_of(m.imports) =~= Seq::<SpanV>::empty());
    assert(spans_of(m.exports) =~= Seq::<SpanV>::empty());
    assert(merge_spans(spans_of(m.imports), spans_of(m.exports)).len() == 0);
    assert(splice_text(m.raw, merge_spans(spans_of(m.imports), spans_of(m.exports)), id, 0)
        == m.raw.subrange(0, m.raw.len() as int));
    assert(m.raw.subrange(0, m.raw.len() as int) =~= m.raw);
}

/// Chaining the output text across two extensions of the registration
/// order: the oldest prefix survives and the emitted text is the
/// registrations of everything past it.
proof fn lemma_out_chain(
    ms: Seq<(Seq<char>, ModuleV)>,
    ord0: Seq<Seq<char>>,
    ord_b: Seq<Seq<char>>,
    ord_c: Seq<Seq<char>>,
    out0: Seq<char>,
    out_b: Seq<char>,
    out_c: Seq<char>,
)
    requires
        ord0.len() <= ord_b.len() <= ord_c.len(),
        ord_b.subrange(0, ord0.len() as int) == ord0,
        ord_c.subrange(0, ord_b.len() as int) == ord_b,
        out_b == out0 + regs_text(ms, ord_b.skip(ord0.len() as int)),
        out_c == out_b + regs_text(ms, ord_c.skip(ord_b.len() as int)),
    ensures
        ord_c.subrange(0, ord0.len() as int) == ord0,
        out_c == out0 + regs_text(ms, ord_c.skip(ord0.len() as int)),
{
    lemma_delta_chain(ms, ord0, ord_b, ord_c);
    assert(out0 + (regs_text(ms, ord_b.skip(ord0.len() as int))
        + regs_text(ms, ord_c.skip(ord_b.len() as int)))
        =~= (out0 + regs_text(ms, ord_b.skip(ord0.len() as int)))
            + regs_text(ms, ord_c.skip(ord_b.len() as int)));
}

/// Marking a fresh, reachable graph member visited keeps the emitter's
/// invariant, with the member pushed onto the in-progress stack.
proof fn lemma_visit_enter(
    ms: Seq<(Seq<char>, ModuleV)>,
    root: Seq<char>,
    vis: Seq<Seq<char>>,
    ord: Seq<Seq<char>>,
    stack: Seq<Seq<char>>,
    id: Seq<char>,
)
    requires
        inv_emit(ms, root, vis, ord, stack),
        ghas(ms, id),
        reaches(ms, root, id),
        !vis.contains(id),
    ensures
        inv_emit(ms, root, vis.push(id), ord, stack.push(id)),
        !stack.contains(id),
        vis.push(id).contains(id),
        forall|x: Seq<char>| #[trigger] vis.contains(x) ==> vis.push(id).contains(x),
{
    reveal(inv_emit);
    let vis1 = vis.push(id);
    let stack1 = stack.push(id);
    lemma_push_contains(vis, id);
    lemma_push_contains(stack, id);
    assert(!stack.contains(id));
    assert forall|x: Seq<char>| #[trigger] vis1.contains(x) implies (ord.contains(x)
        || stack1.contains(x)) by {
        if x != id {
            assert(vis.contains(x));
        }
    }
    assert forall|x: Seq<char>| (ord.contains(x) || stack1.contains(x))
        implies #[trigger] vis1.contains(x) by {
        if ord.contains(x) || stack.contains(x) {
            assert(vis.contains(x));
        }
    }
    assert forall|x: Seq<char>| #[trigger] ord.contains(x) implies !stack1.contains(x) by {
        assert(vis.contains(x));
    }
}

/// Every visited identity is registered or on the in-progress stack.
proof fn lemma_deps_placed(
    ms: Seq<(Seq<char>, ModuleV)>,
    root: Seq<char>,
    vis: Seq<Seq<char>>,
    ord: Seq<Seq<char>>,
    stack1: Seq<Seq<char>>,
    depsv: Seq<Seq<char>>,
)
    requires
        inv_emit(ms, root, vis, ord, stack1),
        forall|j: int| 0 <= j < depsv.len() ==> vis.contains(#[trigger] depsv[j]),
    ensures
        forall|j: int| 0 <= j < depsv.len() ==> vis.contains(#[trigger] depsv[j])
            && (ord.contains(depsv[j]) || stack1.contains(depsv[j])),
{
    reveal(inv_emit);
}

/// The emitter's invariant holds of the empty start state.
proof fn lemma_inv_emit_empty(ms: Seq<(Seq<char>, ModuleV)>, root: Seq<char>)
    ensures
        inv_emit(ms, root, Seq::empty(), Seq::empty(), Seq::empty()),
{
    reveal(inv_emit);
}

/// With nothing left in progress, the registration order holds exactly
/// the graph members reachable from the root.
proof fn lemma_order_complete(
    ms: Seq<(Seq<char>, ModuleV)>,
    root: Seq<char>,
    vis: Seq<Seq<char>>,
    ord: Seq<Seq<char>>,
)
    requires
        inv_emit(ms, root, vis, ord, Seq::empty()),
        ord.contains(root),
    ensures
        ord.no_duplicates(),
        good_order(ms, ord),
        forall|x: Seq<char>| #[trigger] ord.contains(x)
            <==> ghas(ms, x) && reaches(ms, root, x),
{
    reveal(inv_emit);
    assert forall|x: Seq<char>| #[trigger] ord.contains(x) implies ghas(ms, x)
        && reaches(ms, root, x) by {
        assert(vis.contains(x));
    }
    assert forall|x: Seq<char>| ghas(ms, x) && reaches(ms, root, x)
        implies #[trigger] ord.contains(x) by {
        assert forall|u: Seq<char>, dd: Seq<char>| ord.contains(u) && #[trigger] gedge(
            ms, u, dd) implies ord.contains(dd) by {
            let w = choose|w: int| 0 <= w < ord.len() && ord[w] == u;
            let j = choose|j: int| 0 <= j < dep_ids(u, glookup(ms, u)).len()
                && dep_ids(u, glookup(ms, u))[j] == dd;
            assert(dep_ids(ord[w], glookup(ms, ord[w]))[j] == dd);
            assert(vis.contains(dd));
            assert(!Seq::<Seq<char>>::empty().contains(dd));
        }
        let n = choose|n: nat| reaches_n(ms, root, x, n);
        lemma_reaches_in_closed(ms, ord, root, x, n);
    }
}

/// Register the module under `id` after walking into each of its
/// still-unvisited dependencies, depth-first.  `stack` is the ghost
/// chain of identities whose registration is in progress, outermost
/// first; each of them depends, directly or through others, on `id`.
#[verifier::rlimit(100)]
#[verifier::spinoff_prover]
#[verifier::loop_isolation(false)]
fn visit(
    g: &ModuleGraph,
    id: &String,
    vis: &mut Vec<String>,
    ord: &mut Vec<String>,
    out: &mut String,
    Ghost(stack): Ghost<Seq<Seq<char>>>,
)
    requires
        g.wf(),
        ghas(g.ms(), id@),
        reaches(g.ms(), g.entry_id@, id@),
        !strs_v(old(vis)@).contains(id@),
        inv_emit(g.ms(), g.entry_id@, strs_v(old(vis)@), strs_v(old(ord)@), stack),
        forall|k: int| 0 <= k < stack.len() ==> reaches(g.ms(), #[trigger] stack[k], id@),
    ensures
        inv_emit(g.ms(), g.entry_id@, strs_v(final(vis)@), strs_v(final(ord)@), stack),
        final(ord)@.len() >= old(ord)@.len(),
        strs_v(final(ord)@).subrange(0, old(ord)@.len() as int) == strs_v(old(ord)@),
        final(out)@ == old(out)@ + regs_text(
            g.ms(), strs_v(final(ord)@).skip(old(ord)@.len() as int)),
        forall|x: Seq<char>| strs_v(old(vis)@).contains(x)
            ==> strs_v(final(vis)@).contains(x),
        strs_v(final(vis)@).contains(id@),
        strs_v(final(ord)@).contains(id@),
    decreases gkeys(g.ms()).to_set().difference(strs_v(old(vis)@).to_set()).len(),
{
    let ghost ms = g.ms();
    let ghost root = g.entry_id@;
    let ghost vis0 = strs_v(old(vis)@);
    let ghost ord0 = strs_v(old(ord)@);
    let ghost out0 = old(out)@;
    let ghost l0 = old(ord)@.len() as int;
    let ghost stack1 = stack.push(id@);

    vis.push(id.clone());
    proof {
        assert(strs_v(vis@) =~= vis0.push(id@));
        lemma_visit_enter(ms, root, vis0, ord0, stack, id@);
    }

    let m = g.get(id).unwrap();
    proof {
        let gi = gidx(ms, id@);
        assert(0 <= gi < ms.len() && ms[gi].0 == id@);
        assert(module_wf(ms[gi].1));
        lemma_glookup_is(ms, id@, gi);
        assert(m@ == glookup(ms, id@));
    }
    let deps = collect_dep_ids(id, m);
    let ghost depsv = strs_v(deps@);
    let nd = deps.len();
    let mut k: usize = 0;
    while k < nd
        invariant
            g.wf(),
            ms == g.ms(),
            root == g.entry_id@,
            stack1 == stack.push(id@),
            nd == deps@.len(),
            depsv == strs_v(deps@),
            depsv == dep_ids(id@, glookup(ms, id@)),
            ghas(ms, id@),
            reaches(ms, root, id@),
            !vis0.contains(id@),
            !stack.contains(id@),
            forall|k2: int| 0 <= k2 < stack.len() ==> reaches(ms, #[trigger] stack[k2], id@),
            k <= nd,
            inv_emit(ms, root, strs_v(vis@), strs_v(ord@), stack1),
            strs_v(vis@).contains(id@),
            forall|x: Seq<char>| vis0.contains(x) ==> strs_v(vis@).contains(x),
            forall|j: int| 0 <= j < k ==> strs_v(vis@).contains(#[trigger] depsv[j]),
            ord@.len() >= l0,
            strs_v(ord@).subrange(0, l0) == ord0,
            out@ == out0 + regs_text(ms, strs_v(ord@).skip(l0)),
        decreases nd - k,
    {
        let d = deps[k].clone();
        proof {
            assert(d@ == depsv[k as int]);
            lemma_dep_facts(ms, root, stack, id@, depsv, k as int);
        }
        if !contains_string(vis, &d) {
            let ghost vis_b = strs_v(vis@);
            let ghost ord_b = strs_v(ord@);
            let ghost out_b = out@;
            proof {
                lemma_measure_shrinks(ms, vis0, vis_b, id@);
            }
            visit(g, &d, vis, ord, out, Ghost(stack1));
            proof {
                lemma_out_chain(ms, ord0, ord_b, strs_v(ord@), out0, out_b, out@);
                assert forall|x: Seq<char>| vis0.contains(x) implies strs_v(vis@).contains(
                    x) by {
                    assert(vis_b.contains(x));
                }
                assert(strs_v(vis@).contains(id@)) by {
                    assert(vis_b.contains(id@));
                }
                assert forall|j: int| 0 <= j < k + 1 implies strs_v(vis@).contains(
                    #[trigger] depsv[j]) by {
                    if j < k {
                        assert(vis_b.contains(depsv[j]));
                    } else {
                        assert(strs_v(vis@).contains(d@));
                    }
                }
            }
        } else {
            proof {
                assert forall|j: int| 0 <= j < k + 1 implies strs_v(vis@).contains(
                    #[trigger] depsv[j]) by {
                    if j == k {
                        assert(strs_v(vis@).contains(d@));
                    }
                }
            }
        }
        k = k + 1;
    }

    proof {
        lemma_deps_placed(ms, root, strs_v(vis@), strs_v(ord@), stack1, depsv);
        lemma_emit_push(ms, root, strs_v(vis@), strs_v(ord@), stack, id@, depsv);
    }
    let ghost ord_b = strs_v(ord@);
    emit_module(id, m, out);
    ord.push(id.clone());
    proof {
        assert(strs_v(ord@) =~= ord_b.push(id@));
        assert(strs_v(ord@).subrange(0, l0) =~= ord0) by {
            assert forall|w: int| 0 <= w < l0 implies strs_v(ord@).subrange(0, l0)[w]
                == ord0[w] by {
                assert(strs_v(ord@)[w] == ord_b[w]);
                assert(ord_b[w] == ord_b.subrange(0, l0)[w]);
            }
        }
        lemma_regs_snoc(ms, ord_b.skip(l0), id@);
        assert(strs_v(ord@).skip(l0) =~= ord_b.skip(l0).push(id@));
        assert(out@ =~= out0 + regs_text(ms, strs_v(ord@).skip(l0)));
        assert(strs_v(ord@)[ord_b.len() as int] == id@);
        assert(strs_v(ord@).contains(id@));
    }
}

/// Emit the bootstrap bundle: the fixed header, one registration per
/// module reachable from the entry, dependency-first up to cycles, and
/// the trailing dynamic import of the entry module.  The registration
/// order holds every reachable module's identity exactly once.
#[verifier::rlimit(100)]
#[verifier::spinoff_prover]
pub fn emit(graph: &ModuleGraph) -> (r: JavascriptBundle)
    requires
        graph.wf(),
    ensures
        r.content@ == bundle_text(graph.ms(), graph.entry_id@, strs_v(r.registration_order@)),
        strs_v(r.registration_order@).no_duplicates(),
        good_order(graph.ms(), strs_v(r.registration_order@)),
        forall|x: Seq<char>| strs_v(r.registration_order@).contains(x)
            <==> ghas(graph.ms(), x) && reaches(graph.ms(), graph.entry_id@, x),
{
    let ghost ms = graph.ms();
    let ghost root = graph.entry_id@;
    let mut content = String::new();
    content.append(
        "import { insertModule, createModuleUrl, resolveImportSpecifier } from \"/bloom.js\";\n",
    );
    let ghost hdr = content@;
    let mut vis: Vec<String> = Vec::new();
    let mut ord: Vec<String> = Vec::new();
    proof {
        assert(hdr =~= header_text());
        assert(strs_v(vis@) =~= Seq::<Seq<char>>::empty());
        assert(strs_v(ord@) =~= Seq::<Seq<char>>::empty());
        lemma_reaches_refl(ms, root);
        lemma_inv_emit_empty(ms, root);
    }
    visit(graph, &graph.entry_id, &mut vis, &mut ord, &mut content, Ghost(Seq::empty()));
    let ghost ordv = strs_v(ord@);
    proof {
        assert(ordv.skip(0) =~= ordv);
        assert(content@ == hdr + regs_text(ms, ordv));
        lemma_order_complete(ms, root, strs_v(vis@), ordv);
    }
    content.append("import(resolveImportSpecifier(\"");
    content.append(graph.entry_id.as_str());
    content.append("\"));");
    proof {
        assert(content@ =~= bundle_text(ms, root, ordv));
    }
    JavascriptBundle { content, registration_order: ord }
}

} // verus!
