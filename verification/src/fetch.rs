//! Fetch planning and result application.
//!
//! A fetch directive carries a URI.  The target host is the URI's explicit
//! host, falling back to the configured default authority's host; the target
//! port is the URI's explicit port, else (only when the host itself was
//! defaulted) the default authority's port, else the conventional secure
//! port.  TLS is used exactly when the resolved port equals that port,
//! independent of the URI scheme.  The network round trip itself is the
//! caller's; this module decides what to connect to and what each
//! operation's outcome does to the shared buffer.
use vstd::prelude::*;
use vstd::multiset::Multiset;
use crate::error::{describe_chars, SaraError};
use crate::script::{op_wf, ops_wf, Arg, Opcode, Operation};
use crate::wip::{render, spans_wf, AppliedEdit, Document, WipDocument};

verus! {

/// The conventional secure port; its use selects TLS.
pub const SECURE_PORT: u16 = 443;

/// What `http::Uri` extracts from a URI reference: host, port, and
/// path-and-query, each absent when the reference does not carry it; or
/// nothing, when the bytes are not a URI.
pub uninterp spec fn uri_parts_of(s: Seq<u8>) -> Option<
    (Option<Seq<u8>>, Option<u16>, Option<Seq<u8>>),
>;

/// The parts of one parsed URI reference, as plain values.
pub struct UriParts {
    pub host: Option<Vec<u8>>,
    pub port: Option<u16>,
    pub path_and_query: Option<Vec<u8>>,
}

/// The mathematical value of a `UriParts`.
pub open spec fn uri_parts_view(p: &UriParts) -> (Option<Seq<u8>>, Option<u16>, Option<Seq<u8>>) {
    (
        match p.host {
            Some(h) => Some(h@),
            None => None,
        },
        p.port,
        match p.path_and_query {
            Some(pq) => Some(pq@),
            None => None,
        },
    )
}

/// Relies on `http::Uri`: `TryFrom<&str>` parses a URI reference, and
/// `host`, `port_u16` and `path_and_query` read its parts.  The result
/// depends on the given bytes alone; bytes that are not UTF-8 are no URI.
#[verifier::external_body]
fn parse_uri(s: &Vec<u8>) -> (r: Option<UriParts>)
    ensures
        (r is Some) == (uri_parts_of(s@) is Some),
        r matches Some(p) ==> Some(uri_parts_view(&p)) == uri_parts_of(s@),
{
    let text = core::str::from_utf8(s.as_slice()).ok()?;
    let uri = http::Uri::try_from(text).ok()?;
    Some(UriParts {
        host: uri.host().map(|h| h.as_bytes().to_vec()),
        port: uri.port_u16(),
        path_and_query: uri.path_and_query().map(|pq| pq.as_str().as_bytes().to_vec()),
    })
}

/// Everything the transport needs for one fetch: the resolved host and
/// port, whether to negotiate TLS, and the request target.  The request is
/// then `GET target`, with the `Host` header equal to `host` and the fixed
/// user agent of `user_agent`.
#[derive(Debug)]
pub struct FetchPlan {
    pub host: Vec<u8>,
    pub port: u16,
    pub use_tls: bool,
    pub target: Vec<u8>,
}

/// The fixed identifier sent in the `user-agent` header of every fetch.
pub fn user_agent() -> (r: &'static str)
    ensures
        r@ == "sara/0.1.0"@,
{
    "sara/0.1.0"
}

/// The resolution policy relating a plan to the parts of the directive's
/// URI and of the configured default authority.
pub open spec fn plan_matches(uri: Seq<u8>, default_authority: Seq<u8>, plan: FetchPlan) -> bool {
    match (uri_parts_of(uri), uri_parts_of(default_authority)) {
        (Some(u), Some(d)) => {
            &&& match u.0 {
                Some(h) => plan.host@ == h,
                None => d.0 is Some && Some(plan.host@) == d.0,
            }
            &&& plan.port == (match u.1 {
                Some(p) => p,
                None => {
                    if u.0 is None && d.1 is Some {
                        match d.1 {
                            Some(p) => p,
                            None => SECURE_PORT,
                        }
                    } else {
                        SECURE_PORT
                    }
                },
            })
            &&& plan.use_tls == (plan.port == SECURE_PORT)
            &&& plan.target@ == (match u.2 {
                Some(pq) => pq,
                None => seq![47u8],  // `/`
            })
        },
        _ => false,
    }
}

/// No plan exists: one of the two URI references does not parse, or
/// neither names a host.
pub open spec fn plan_impossible(uri: Seq<u8>, default_authority: Seq<u8>) -> bool {
    match (uri_parts_of(uri), uri_parts_of(default_authority)) {
        (Some(u), Some(d)) => u.0 is None && d.0 is None,
        _ => true,
    }
}

/// Resolves a fetch directive's URI against the configured default
/// authority into a transport plan.
pub fn plan_fetch(uri: &Vec<u8>, default_authority: &Vec<u8>) -> (r: Result<FetchPlan, SaraError>)
    ensures
        r matches Ok(plan) ==> plan_matches(uri@, default_authority@, plan) && !plan_impossible(
            uri@,
            default_authority@,
        ),
        r matches Err(e) ==> e is InvalidUri && plan_impossible(uri@, default_authority@),
{
    let u = match parse_uri(uri) {
        Some(u) => u,
        None => {
            return Err(SaraError::InvalidUri);
        },
    };
    let d = match parse_uri(default_authority) {
        Some(d) => d,
        None => {
            return Err(SaraError::InvalidUri);
        },
    };
    let uri_has_host = u.host.is_some();
    let host = match u.host {
        Some(h) => h,
        None => match d.host {
            Some(h) => h,
            None => {
                return Err(SaraError::InvalidUri);
            },
        },
    };
    let port = match u.port {
        Some(p) => p,
        None => {
            if !uri_has_host {
                match d.port {
                    Some(p) => p,
                    None => SECURE_PORT,
                }
            } else {
                SECURE_PORT
            }
        },
    };
    let use_tls = port == SECURE_PORT;
    let target = match u.path_and_query {
        Some(pq) => pq,
        None => {
            let mut v: Vec<u8> = Vec::new();
            v.push(47);  // `/`
            proof {
                assert(v@ =~= seq![47u8]);
            }
            v
        },
    };
    Ok(FetchPlan { host, port, use_tls, target })
}

/// What one fetch task came back with: the resource's bytes, or the error
/// that ended it.  A failure is terminal for its one operation only.
pub enum FetchOutcome {
    Success(Vec<u8>),
    Failure(SaraError),
}

/// The bytes an operation's outcome splices into the document: the fetched
/// resource, an inline diagnostic on failure, or nothing for a marker
/// deletion.
pub open spec fn replacement_view(op: Operation, outcome: FetchOutcome) -> Seq<u8> {
    match op.opcode {
        Opcode::GET => match outcome {
            FetchOutcome::Success(b) => b@,
            FetchOutcome::Failure(e) => diagnostic_bytes(&e),
        },
        _ => Seq::empty(),
    }
}

/// The inline diagnostic for a failed fetch.
pub open spec fn diagnostic_bytes(e: &SaraError) -> Seq<u8> {
    vstd::utf8::encode_utf8("Could not load resource: \""@) + vstd::utf8::encode_utf8(
        describe_chars(e),
    ) + vstd::utf8::encode_utf8("\""@)
}

/// Builds the replacement bytes for one operation from its outcome.
pub fn operation_replacement(op: &Operation, outcome: FetchOutcome) -> (r: Vec<u8>)
    ensures
        r@ == replacement_view(*op, outcome),
{
    match op.opcode {
        Opcode::TAG | Opcode::ERR => Vec::new(),
        Opcode::GET => match outcome {
            FetchOutcome::Success(b) => b,
            FetchOutcome::Failure(e) => {
                let mut v: Vec<u8> = Vec::new();
                v.extend_from_slice("Could not load resource: \"".as_bytes());
                v.extend_from_slice(e.describe().as_bytes());
                v.extend_from_slice("\"".as_bytes());
                proof {
                    assert(v@ =~= diagnostic_bytes(&e));
                }
                v
            },
        },
    }
}

/// The ledger entry an operation's outcome produces: its original span,
/// replaced by the outcome's bytes.
pub open spec fn op_edit(op: Operation, outcome: FetchOutcome) -> AppliedEdit {
    AppliedEdit {
        start: op.span.start as int,
        old_len: op.span.end - op.span.start,
        bytes: replacement_view(op, outcome),
    }
}

/// The collection of ledger entries that a list of per-operation results
/// produces, regardless of the order the list is in.
pub open spec fn edits_multiset(
    ops: Seq<Operation>,
    results: Seq<(usize, FetchOutcome)>,
) -> Multiset<AppliedEdit>
    decreases results.len(),
{
    if results.len() == 0 {
        Multiset::empty()
    } else {
        edits_multiset(ops, results.drop_last()).insert(
            op_edit(ops[results.last().0 as int], results.last().1),
        )
    }
}

/// A result list is a join of every operation exactly once: one entry per
/// operation, every index in range, no index twice.
pub open spec fn results_valid(results: Seq<(usize, FetchOutcome)>, n: int) -> bool {
    &&& results.len() == n
    &&& forall|i: int| 0 <= i < results.len() ==> (#[trigger] results[i]).0 < n
    &&& forall|i: int, j: int|
        0 <= i < j < results.len() ==> (#[trigger] results[i]).0 != (#[trigger] results[j]).0
}

/// Every replacement the results produce fits the ledger's delta type.
pub open spec fn replacements_fit(
    ops: Seq<Operation>,
    results: Seq<(usize, FetchOutcome)>,
) -> bool {
    forall|i: int|
        0 <= i < results.len() ==> replacement_view(
            ops[(#[trigger] results[i]).0 as int],
            results[i].1,
        ).len() <= i64::MAX
}

/// The ledger entry a prepared work item produces.
pub open spec fn work_edit(ops: Seq<Operation>, w: (usize, Vec<u8>)) -> AppliedEdit {
    AppliedEdit {
        start: ops[w.0 as int].span.start as int,
        old_len: ops[w.0 as int].span.end - ops[w.0 as int].span.start,
        bytes: w.1@,
    }
}

/// The collection of ledger entries of a prepared work list.
pub open spec fn work_multiset(
    ops: Seq<Operation>,
    work: Seq<(usize, Vec<u8>)>,
) -> Multiset<AppliedEdit>
    decreases work.len(),
{
    if work.len() == 0 {
        Multiset::empty()
    } else {
        work_multiset(ops, work.drop_last()).insert(work_edit(ops, work.last()))
    }
}

/// Whether any prepared work item already carries the given operation
/// index.
fn work_contains_index(work: &Vec<(usize, Vec<u8>)>, idx: usize) -> (r: bool)
    ensures
        r == exists|i: int| 0 <= i < work@.len() && (#[trigger] work@[i]).0 == idx,
{
    let mut i: usize = 0;
    while i < work.len()
        invariant
            i <= work@.len(),
            forall|k: int| 0 <= k < i ==> (#[trigger] work@[k]).0 != idx,
        decreases work@.len() - i,
    {
        if work[i].0 == idx {
            return true;
        }
        i = i + 1;
    }
    false
}

/// Applies one result per operation to the shared buffer, in whatever order
/// the results arrived.  Every index must name an operation exactly once,
/// as one spawned task per operation guarantees; anything else is a join
/// failure, reported before the buffer is touched.  The buffer ends up
/// carrying exactly the collection of edits the results describe — by the
/// ledger's order-independence, the same bytes whatever the arrival order.
pub fn apply_results(
    doc: &mut WipDocument,
    ops: &Vec<Operation>,
    results: Vec<(usize, FetchOutcome)>,
) -> (r: Result<(), SaraError>)
    requires
        old(doc).wf(),
        old(doc).applied().len() == 0,
        old(doc).original().len() <= i64::MAX,
        ops_wf(ops@, old(doc).original().len() as int),
    ensures
        final(doc).wf(),
        final(doc).original() == old(doc).original(),
        (r is Ok) == (results_valid(results@, ops@.len() as int) && replacements_fit(
            ops@,
            results@,
        )),
        r is Ok ==> final(doc).applied().to_multiset() == edits_multiset(ops@, results@),
        r is Err ==> *final(doc) == *old(doc),
        r matches Err(e) ==> e is JoinError,
{
    broadcast use vstd::seq_lib::group_to_multiset_ensures;
    broadcast use vstd::multiset::group_multiset_axioms;

    let ghost all = results@;
    let ghost total = edits_multiset(ops@, all);
    let n = ops.len();
    if results.len() != n {
        return Err(SaraError::JoinError(n));
    }
    // First pass: check that the results join every operation exactly once,
    // and build each operation's replacement bytes.
    let mut remaining = results;
    let mut work: Vec<(usize, Vec<u8>)> = Vec::new();
    while remaining.len() > 0
        invariant
            *doc == *old(doc),
            doc.wf(),
            all == results@,
            n == ops@.len(),
            all.len() == n,
            remaining@ == all.take(remaining@.len() as int),
            work@.len() + remaining@.len() == n,
            forall|i: int|
                0 <= i < work@.len() ==> (#[trigger] work@[i]).0 == all[n - 1 - i].0
                    && work@[i].0 < n && work@[i].1@ == replacement_view(
                    ops@[work@[i].0 as int],
                    all[n - 1 - i].1,
                ) && work@[i].1@.len() <= i64::MAX,
            forall|i: int, j: int|
                0 <= i < j < work@.len() ==> (#[trigger] work@[i]).0 != (#[trigger] work@[j]).0,
            edits_multiset(ops@, remaining@).add(work_multiset(ops@, work@)) == total,
        decreases remaining@.len(),
    {
        let ghost rem_before = remaining@;
        let (idx, outcome) = match remaining.pop() {
            Some(p) => p,
            None => {
                proof {
                    assert(false);
                }
                return Err(SaraError::JoinError(n));
            },
        };
        proof {
            assert(rem_before.last() == all[rem_before.len() - 1]);
            assert(remaining@ == all.take(remaining@.len() as int));
        }
        if idx >= n {
            proof {
                assert(all[rem_before.len() - 1].0 >= n);
                assert(!results_valid(all, n as int));
            }
            return Err(SaraError::JoinError(n));
        }
        if work_contains_index(&work, idx) {
            proof {
                let i = choose|i: int| 0 <= i < work@.len() && (#[trigger] work@[i]).0 == idx;
                assert(all[n - 1 - i].0 == idx);
                assert(all[rem_before.len() - 1].0 == idx);
                assert(rem_before.len() - 1 < n - 1 - i);
                assert(!results_valid(all, n as int));
            }
            return Err(SaraError::JoinError(n));
        }
        let replacement = operation_replacement(&ops[idx], outcome);
        if replacement.len() as u64 > i64::MAX as u64 {
            proof {
                assert(replacement_view(ops@[all[rem_before.len() - 1].0 as int], all[rem_before.len()
                    - 1].1).len() > i64::MAX);
                assert(!replacements_fit(ops@, all));
            }
            return Err(SaraError::JoinError(n));
        }
        let ghost work_before = work@;
        work.push((idx, replacement));
        proof {
            assert(work@.drop_last() =~= work_before);
            assert(work@.last() == (idx, replacement));
            assert(work_multiset(ops@, work@) == work_multiset(ops@, work_before).insert(
                work_edit(ops@, (idx, replacement)),
            ));
            assert(rem_before.drop_last() =~= remaining@);
            assert(edits_multiset(ops@, rem_before) == edits_multiset(ops@, remaining@).insert(
                op_edit(ops@[idx as int], all[rem_before.len() - 1].1),
            ));
            assert(work_edit(ops@, (idx, replacement)) == op_edit(
                ops@[idx as int],
                all[rem_before.len() - 1].1,
            ));
            assert(edits_multiset(ops@, remaining@).add(work_multiset(ops@, work@)) =~= total);
        }
    }
    proof {
        assert(remaining@ =~= Seq::<(usize, FetchOutcome)>::empty());
        assert(work@.len() == n);
        assert forall|i: int| 0 <= i < all.len() implies (#[trigger] all[i]).0 < n as int by {
            assert(work@[n - 1 - i].0 == all[i].0);
        }
        assert forall|i: int, j: int| 0 <= i < j < all.len() implies (#[trigger] all[i]).0 != (
        #[trigger] all[j]).0 by {
            assert(work@[n - 1 - i].0 == all[i].0);
            assert(work@[n - 1 - j].0 == all[j].0);
        }
        assert forall|i: int|
            0 <= i < all.len() implies replacement_view(
            ops@[(#[trigger] all[i]).0 as int],
            all[i].1,
        ).len() <= i64::MAX by {
            assert(work@[n - 1 - i].1@ == replacement_view(ops@[all[i].0 as int], all[i].1));
            assert(work@[n - 1 - i].1@.len() <= i64::MAX);
        }
        assert(results_valid(all, n as int));
        assert(replacements_fit(ops@, all));
        assert(work_multiset(ops@, work@) =~= total);
    }
    // Second pass: splice each prepared replacement into the buffer, still
    // in arrival order.
    let ghost orig_len = doc.original().len() as int;
    while work.len() > 0
        invariant
            n == ops@.len(),
            doc.wf(),
            doc.original() == old(doc).original(),
            orig_len == doc.original().len() as int,
            orig_len <= i64::MAX,
            ops_wf(ops@, orig_len),
            forall|i: int|
                0 <= i < work@.len() ==> (#[trigger] work@[i]).0 < n && work@[i].1@.len()
                    <= i64::MAX,
            forall|i: int, j: int|
                0 <= i < j < work@.len() ==> (#[trigger] work@[i]).0 != (#[trigger] work@[j]).0,
            doc.applied().to_multiset().add(work_multiset(ops@, work@)) == total,
            forall|a: int|
                0 <= a < doc.applied().len() ==> exists|k: int|
                    0 <= k < n && (forall|i: int|
                        0 <= i < work@.len() ==> (#[trigger] work@[i]).0 != k) && (
                    #[trigger] doc.applied()[a]).start == ops@[k].span.start as int
                        && doc.applied()[a].old_len == ops@[k].span.end - ops@[k].span.start,
        decreases work@.len(),
    {
        let ghost work_before = work@;
        let (idx, replacement) = match work.pop() {
            Some(p) => p,
            None => {
                proof {
                    assert(false);
                }
                return Err(SaraError::JoinError(n));
            },
        };
        let start = ops[idx].span.start;
        let end = ops[idx].span.end;
        proof {
            assert(op_wf(ops@[idx as int], orig_len));
            assert forall|a: int| 0 <= a < doc.applied().len() implies {
                &&& ((end as int) <= (#[trigger] doc.applied()[a]).start || doc.applied()[a].start
                    + doc.applied()[a].old_len <= start as int)
                &&& doc.applied()[a].start != start as int
            } by {
                let k = choose|k: int|
                    0 <= k < n && (forall|i: int|
                        0 <= i < work_before.len() ==> (#[trigger] work_before[i]).0 != k) && (
                    doc.applied()[a]).start == ops@[k].span.start as int && doc.applied()[a].old_len
                        == ops@[k].span.end - ops@[k].span.start;
                assert(work_before[work_before.len() - 1].0 == idx);
                assert(k != idx);
                assert(op_wf(ops@[k], orig_len));
                if k < idx {
                    assert(ops@[k].span.end <= ops@[idx as int].span.start);
                } else {
                    assert(ops@[idx as int].span.end <= ops@[k].span.start);
                }
            }
            assert(doc.can_insert(start as int, end as int, replacement@.len() as int));
        }
        let ghost applied_before = doc.applied();
        let ghost new_edit = AppliedEdit {
            start: start as int,
            old_len: end - start,
            bytes: replacement@,
        };
        proof {
            doc.lemma_wf_facts();
        }
        doc.insert(replacement, start..end);
        proof {
            assert(work_before.drop_last() =~= work@);
            assert(work_multiset(ops@, work_before) == work_multiset(ops@, work@).insert(
                work_edit(ops@, (idx, replacement)),
            ));
            assert(new_edit == work_edit(ops@, (idx, replacement)));
            assert(doc.applied().to_multiset().add(work_multiset(ops@, work@)) =~= total);
            let pos = crate::wip::insert_pos(applied_before, new_edit.start);
            crate::wip::lemma_insert_pos_char(orig_len, applied_before, 0, new_edit.start);
            applied_before.insert_ensures(pos, new_edit);
            assert(doc.applied() == applied_before.insert(pos, new_edit));
            assert forall|a: int| 0 <= a < doc.applied().len() implies exists|k: int|
                0 <= k < n && (forall|i: int|
                    0 <= i < work@.len() ==> (#[trigger] work@[i]).0 != k) && (
            #[trigger] doc.applied()[a]).start == ops@[k].span.start as int
                && doc.applied()[a].old_len == ops@[k].span.end - ops@[k].span.start by {
                let e = doc.applied()[a];
                if a == pos {
                    assert(e == new_edit);
                    assert(forall|i: int|
                        0 <= i < work@.len() ==> (#[trigger] work@[i]).0 != idx);
                    assert(0 <= idx < n && (forall|i: int|
                        0 <= i < work@.len() ==> (#[trigger] work@[i]).0 != idx as int) && e.start
                        == ops@[idx as int].span.start as int && e.old_len == ops@[idx as int].span.end
                        - ops@[idx as int].span.start);
                } else {
                    let a0: int = if a < pos {
                        a
                    } else {
                        a - 1
                    };
                    assert(applied_before[a0] == e);
                    let k = choose|k: int|
                        0 <= k < n && (forall|i: int|
                            0 <= i < work_before.len() ==> (#[trigger] work_before[i]).0 != k) && (
                        applied_before[a0]).start == ops@[k].span.start as int
                            && applied_before[a0].old_len == ops@[k].span.end - ops@[k].span.start;
                    assert(forall|i: int| 0 <= i < work@.len() ==> (#[trigger] work@[i]).0 != k);
                    assert(0 <= k < n && (forall|i: int|
                        0 <= i < work@.len() ==> (#[trigger] work@[i]).0 != k) && e.start
                        == ops@[k].span.start as int && e.old_len == ops@[k].span.end
                        - ops@[k].span.start);
                }
            }
        }
    }
    proof {
        assert(work@ =~= Seq::<(usize, Vec<u8>)>::empty());
        assert(doc.applied().to_multiset().add(Multiset::<AppliedEdit>::empty())
            =~= doc.applied().to_multiset());
        assert(doc.applied().to_multiset() =~= edits_multiset(ops@, all));
    }
    Ok(())
}

/// Two neighbouring operations stand in order and do not overlap.
spec fn adjacent_ok(ops: Seq<Operation>, k: int) -> bool {
    ops[k].span.end <= ops[k + 1].span.start
}

/// Adjacent disjointness of non-empty spans extends to any pair.
proof fn lemma_span_chain(ops: Seq<Operation>, len: int, i: int, j: int)
    requires
        forall|k: int| 0 <= k < ops.len() ==> op_wf(#[trigger] ops[k], len),
        forall|k: int| 0 <= k < ops.len() - 1 ==> #[trigger] adjacent_ok(ops, k),
        0 <= i < j < ops.len(),
    ensures
        ops[i].span.end <= ops[j].span.start,
    decreases j - i,
{
    assert(adjacent_ok(ops, j - 1));
    if j > i + 1 {
        lemma_span_chain(ops, len, i, j - 1);
        assert(op_wf(ops[j - 1], len));
    }
}

/// Checks at run time that an operation list is well formed for a document
/// of the given length, exactly as the parser guarantees it.
#[verifier::rlimit(50)]
pub fn ops_valid(ops: &Vec<Operation>, len: usize) -> (r: bool)
    ensures
        r == ops_wf(ops@, len as int),
{
    let n = ops.len();
    let mut i: usize = 0;
    while i < n
        invariant
            i <= n,
            n == ops@.len(),
            forall|k: int| 0 <= k < i ==> op_wf(#[trigger] ops@[k], len as int),
            forall|k: int| 0 <= k < i - 1 ==> #[trigger] adjacent_ok(ops@, k),
        decreases n - i,
    {
        let op = &ops[i];
        let shape_ok = match op.opcode {
            Opcode::GET => op.args.len() == 1 && (match &op.args[0] {
                Arg::String(_) => true,
                Arg::Symbol(_) => true,
                Arg::Num(_) => false,
            }),
            Opcode::TAG => op.args.len() == 0,
            Opcode::ERR => false,
        };
        if !(op.span.start < op.span.end && op.span.end <= len && shape_ok) {
            proof {
                assert(!op_wf(ops@[i as int], len as int));
            }
            return false;
        }
        if i > 0 {
            if ops[i - 1].span.end > op.span.start {
                proof {
                    assert(ops_wf(ops@, len as int) ==> (#[trigger] ops@[i - 1]).span.end <= (
                    #[trigger] ops@[i as int]).span.start);
                }
                return false;
            }
            proof {
                assert(adjacent_ok(ops@, i - 1));
            }
        }
        i = i + 1;
    }
    proof {
        assert forall|a: int, b: int| 0 <= a < b < ops@.len() implies (
        #[trigger] ops@[a]).span.end <= (#[trigger] ops@[b]).span.start by {
            lemma_span_chain(ops@, len as int, a, b);
        }
    }
    true
}

/// Assembles one document end to end: a fresh buffer over the original
/// bytes, one result applied per operation in whatever order the results
/// arrived, and the finished bytes once all are in.  The output is the
/// rendering of the unique sorted ledger that carries exactly the results'
/// edits — the same bytes for every arrival order.
pub fn assemble_document(
    text: Vec<u8>,
    ops: &Vec<Operation>,
    results: Vec<(usize, FetchOutcome)>,
) -> (r: Result<Document, SaraError>)
    requires
        ops_wf(ops@, text@.len() as int),
        text@.len() <= i64::MAX,
    ensures
        (r is Ok) == (results_valid(results@, ops@.len() as int) && replacements_fit(
            ops@,
            results@,
        )),
        r matches Ok(doc) ==> exists|es: Seq<AppliedEdit>|
            {
                &&& spans_wf(text@.len() as int, es, 0)
                &&& #[trigger] es.to_multiset() == edits_multiset(ops@, results@)
                &&& doc.contents@ == render(text@, es)
            },
        r matches Err(e) ==> e is JoinError,
{
    let ghost text_view = text@;
    let mut wip = WipDocument::new(text);
    match apply_results(&mut wip, ops, results) {
        Ok(()) => {
            proof {
                wip.lemma_wf_facts();
                let es = wip.applied();
                assert(spans_wf(text_view.len() as int, es, 0) && es.to_multiset()
                    == edits_multiset(ops@, results@) && wip@ == render(text_view, es));
            }
            Ok(wip.into_document())
        },
        Err(e) => Err(e),
    }
}

/// A document with no operations at all is assembled byte-identical to its
/// input: the only ledger carrying no edits renders to the original.
pub proof fn lemma_empty_assembly(text: Seq<u8>, es: Seq<AppliedEdit>)
    requires
        es.to_multiset() == Multiset::<AppliedEdit>::empty(),
    ensures
        render(text, es) == text,
{
    broadcast use vstd::seq_lib::group_to_multiset_ensures;

    assert(es.to_multiset().len() == 0);
    assert(es.len() == 0);
    assert(render(text, es) =~= text);
}

} // verus!
