//! The ingest plan: what a batch of raw lines becomes, the writes that a
//! full build or a daily delta issues, and the index that those writes leave.

use vstd::prelude::*;

use crate::domain::{filtered, normal_domain, normal_form, should_filter_domain, Domain, NormalizedDomain};
use crate::schema::{document_fields, DocumentFields};
use crate::search::copy_strings;
use crate::text::views;

verus! {

/// One mutation of the index.
pub enum WriteOp {
    /// Remove every document whose domain is this one.
    Delete(String),
    /// Add a document.
    Add(DocumentFields),
    /// Make earlier mutations durable and visible.
    Commit,
}

impl WriteOp {
    /// The domain that the operation concerns, if any.
    pub open spec fn key(&self) -> Option<Seq<char>> {
        match self {
            WriteOp::Delete(k) => Some(k@),
            WriteOp::Add(d) => Some(d.domain_exact@),
            WriteOp::Commit => None,
        }
    }
}

/// The number of live documents with domain `k`.
pub open spec fn key_count(m: Map<Seq<char>, nat>, k: Seq<char>) -> nat {
    if m.contains_key(k) {
        m[k]
    } else {
        0
    }
}

/// The index, counted per domain, after one operation.
pub open spec fn apply_op(m: Map<Seq<char>, nat>, op: WriteOp) -> Map<Seq<char>, nat> {
    match op {
        WriteOp::Delete(k) => m.remove(k@),
        WriteOp::Add(d) => m.insert(d.domain_exact@, key_count(m, d.domain_exact@) + 1),
        WriteOp::Commit => m,
    }
}

/// The index, counted per domain, after a sequence of operations.
pub open spec fn apply_ops(m: Map<Seq<char>, nat>, ops: Seq<WriteOp>) -> Map<Seq<char>, nat>
    decreases ops.len(),
{
    if ops.len() == 0 {
        m
    } else {
        apply_op(apply_ops(m, ops.drop_last()), ops.last())
    }
}

/// No domain has more than one live document.
pub open spec fn at_most_one(m: Map<Seq<char>, nat>) -> bool {
    forall|k: Seq<char>| #[trigger] key_count(m, k) <= 1
}

/// Every addition comes right after a deletion of the same domain.
pub open spec fn paired(ops: Seq<WriteOp>) -> bool {
    forall|i: int|
        0 <= i < ops.len() && (#[trigger] ops[i]) is Add ==> i > 0 && ops[i - 1] is Delete
            && ops[i - 1].key() == ops[i].key()
}

/// The normal forms kept from raw lines, in order: those that normalise and
/// whose label the filter lets through.
pub open spec fn kept_forms(raws: Seq<Seq<char>>) -> Seq<(Seq<char>, Seq<char>, Seq<char>)>
    decreases raws.len(),
{
    if raws.len() == 0 {
        seq![]
    } else {
        let prev = kept_forms(raws.drop_last());
        match normal_form(raws.last()) {
            Some(f) => if filtered(f.1) {
                prev
            } else {
                prev.push(f)
            },
            None => prev,
        }
    }
}

/// The number of raw lines that do not normalise.
pub open spec fn rejected_count(raws: Seq<Seq<char>>) -> nat
    decreases raws.len(),
{
    if raws.len() == 0 {
        0
    } else {
        rejected_count(raws.drop_last()) + if normal_form(raws.last()) is None {
            1nat
        } else {
            0nat
        }
    }
}

/// The number of raw lines that normalise but are filtered out.
pub open spec fn filtered_count(raws: Seq<Seq<char>>) -> nat
    decreases raws.len(),
{
    if raws.len() == 0 {
        0
    } else {
        filtered_count(raws.drop_last()) + match normal_form(raws.last()) {
            Some(f) => if filtered(f.1) {
                1nat
            } else {
                0nat
            },
            None => 0nat,
        }
    }
}

/// The parts of a normalised domain.
pub open spec fn form_of(n: NormalizedDomain) -> (Seq<char>, Seq<char>, Seq<char>) {
    (n.domain_exact@, n.label@, n.tld@)
}

/// A batch of raw lines, normalised and filtered.
pub struct PreparedBatch {
    /// The kept domains, in input order, without words yet.
    pub records: Vec<NormalizedDomain>,
    /// Their labels, to be segmented, in the same order.
    pub labels: Vec<String>,
    /// How many lines did not normalise.
    pub rejected: u64,
    /// How many lines were filtered out.
    pub filtered: u64,
}

/// Normalises each raw line of a batch, counts the rejected and the filtered
/// ones, and keeps the others with their labels.
pub fn prepare_batch(raws: &Vec<String>) -> (r: PreparedBatch)
    ensures
        r.records@.map_values(|n: NormalizedDomain| form_of(n)) == kept_forms(views(raws@)),
        forall|i: int| 0 <= i < r.records@.len() ==> (#[trigger] r.records@[i]).wf()
            && r.records@[i].tokens@.len() == 0,
        views(r.labels@) == r.records@.map_values(|n: NormalizedDomain| n.label@),
        r.rejected as nat == rejected_count(views(raws@)),
        r.filtered as nat == filtered_count(views(raws@)),
{
    let ghost rv = views(raws@);
    let mut records: Vec<NormalizedDomain> = Vec::new();
    let mut labels: Vec<String> = Vec::new();
    let mut rejected: u64 = 0;
    let mut dropped: u64 = 0;
    let mut i: usize = 0;
    while i < raws.len()
        invariant
            i <= raws@.len(),
            rv == views(raws@),
            records@.map_values(|n: NormalizedDomain| form_of(n)) == kept_forms(rv.take(i as int)),
            forall|j: int| 0 <= j < records@.len() ==> (#[trigger] records@[j]).wf()
                && records@[j].tokens@.len() == 0,
            views(labels@) == records@.map_values(|n: NormalizedDomain| n.label@),
            rejected as nat == rejected_count(rv.take(i as int)),
            dropped as nat == filtered_count(rv.take(i as int)),
            rejected + dropped <= i,
        decreases raws@.len() - i,
    {
        let ghost prefix = rv.take(i + 1);
        assert(prefix.drop_last() == rv.take(i as int));
        assert(prefix.last() == raws@[i as int]@);
        let domain = Domain::new(raws[i].as_str());
        match domain.normalize() {
            Ok(n) => {
                if should_filter_domain(n.label.as_str()) {
                    dropped += 1;
                } else {
                    let ghost old_records = records@;
                    labels.push(n.label.clone());
                    records.push(n);
                    proof {
                        assert(records@.map_values(|n: NormalizedDomain| form_of(n)) == old_records.map_values(
                            |n: NormalizedDomain| form_of(n),
                        ).push(form_of(n)));
                        assert(records@.map_values(|n: NormalizedDomain| n.label@) == old_records.map_values(
                            |n: NormalizedDomain| n.label@,
                        ).push(n.label@));
                    }
                }
            },
            Err(_) => {
                rejected += 1;
            },
        }
        i += 1;
    }
    assert(rv.take(raws@.len() as int) == rv);
    PreparedBatch { records, labels, rejected, filtered: dropped }
}


/// A domain record with no content, used as a stand-in while a record is
/// being updated.
fn placeholder() -> (r: NormalizedDomain) {
    NormalizedDomain {
        domain_exact: String::new(),
        label: String::new(),
        tld: String::new(),
        len: 0,
        has_hyphen: false,
        tokens: Vec::new(),
    }
}

/// Pairs segmentation results with records by position: the record at
/// place `i` takes the words of result `i`; records beyond the results keep
/// their words. Everything else about the records stays.
pub fn attach_tokens(
    records: Vec<NormalizedDomain>,
    segments: &Vec<(String, Vec<String>)>,
) -> (r: Vec<NormalizedDomain>)
    ensures
        r@.len() == records@.len(),
        forall|i: int|
            0 <= i < r@.len() ==> {
                &&& (#[trigger] r@[i]).domain_exact == records@[i].domain_exact
                &&& r@[i].label == records@[i].label
                &&& r@[i].tld == records@[i].tld
                &&& r@[i].len == records@[i].len
                &&& r@[i].has_hyphen == records@[i].has_hyphen
                &&& views(r@[i].tokens@) == if i < segments@.len() {
                    views(segments@[i].1@)
                } else {
                    views(records@[i].tokens@)
                }
            },
{
    let mut out = records;
    let mut i: usize = 0;
    while i < out.len() && i < segments.len()
        invariant
            i <= out@.len(),
            i <= segments@.len(),
            out@.len() == records@.len(),
            forall|j: int|
                0 <= j < out@.len() ==> {
                    &&& (#[trigger] out@[j]).domain_exact == records@[j].domain_exact
                    &&& out@[j].label == records@[j].label
                    &&& out@[j].tld == records@[j].tld
                    &&& out@[j].len == records@[j].len
                    &&& out@[j].has_hyphen == records@[j].has_hyphen
                    &&& views(out@[j].tokens@) == if j < i {
                        views(segments@[j].1@)
                    } else {
                        views(records@[j].tokens@)
                    }
                },
        decreases out@.len() - i,
    {
        let mut taken = placeholder();
        out.set_and_swap(i, &mut taken);
        let updated = taken.with_tokens(copy_strings(&segments[i].1));
        out.set(i, updated);
        i += 1;
    }
    out
}

/// The writes of a full build for a batch of records: one addition each.
pub fn add_ops(records: &Vec<NormalizedDomain>) -> (r: Vec<WriteOp>)
    ensures
        r@.len() == records@.len(),
        forall|i: int|
            0 <= i < records@.len() ==> ((#[trigger] r@[i]) matches WriteOp::Add(d)
                && d.is_document_of(records@[i])),
{
    let mut ops: Vec<WriteOp> = Vec::new();
    let mut i: usize = 0;
    while i < records.len()
        invariant
            i <= records@.len(),
            ops@.len() == i,
            forall|j: int|
                0 <= j < i ==> ((#[trigger] ops@[j]) matches WriteOp::Add(d)
                    && d.is_document_of(records@[j])),
        decreases records@.len() - i,
    {
        ops.push(WriteOp::Add(document_fields(&records[i])));
        i += 1;
    }
    ops
}

/// The writes of a daily delta for a batch of records: each addition comes
/// right after a deletion of its domain, so that a re-added domain replaces
/// its old document.
pub fn replace_ops(records: &Vec<NormalizedDomain>) -> (r: Vec<WriteOp>)
    ensures
        r@.len() == 2 * records@.len(),
        forall|i: int|
            0 <= i < records@.len() ==> {
                &&& (#[trigger] r@[2 * i]) matches WriteOp::Delete(k) && k@ == records@[i].domain_exact@
                &&& r@[2 * i + 1] matches WriteOp::Add(d) && d.is_document_of(records@[i])
            },
        paired(r@),
{
    let mut ops: Vec<WriteOp> = Vec::new();
    let mut i: usize = 0;
    while i < records.len()
        invariant
            i <= records@.len(),
            ops@.len() == 2 * i,
            forall|j: int|
                0 <= j < i ==> {
                    &&& (#[trigger] ops@[2 * j]) matches WriteOp::Delete(k) && k@ == records@[j].domain_exact@
                    &&& ops@[2 * j + 1] matches WriteOp::Add(d) && d.is_document_of(records@[j])
                },
            paired(ops@),
        decreases records@.len() - i,
    {
        let r = &records[i];
        let ghost before = ops@;
        ops.push(WriteOp::Delete(r.domain_exact.clone()));
        ops.push(WriteOp::Add(document_fields(r)));
        proof {
            assert forall|j: int| 0 <= j < i + 1 implies {
                &&& (#[trigger] ops@[2 * j]) matches WriteOp::Delete(k) && k@ == records@[j].domain_exact@
                &&& ops@[2 * j + 1] matches WriteOp::Add(d) && d.is_document_of(records@[j])
            } by {
                if j < i {
                    assert(ops@[2 * j] == before[2 * j]);
                    assert(ops@[2 * j + 1] == before[2 * j + 1]);
                }
            }
            assert forall|j: int| 0 <= j < ops@.len() && (#[trigger] ops@[j]) is Add implies j > 0
                && ops@[j - 1] is Delete && ops@[j - 1].key() == ops@[j].key() by {
                if j < before.len() {
                    assert(ops@[j] == before[j] && ops@[j - 1] == before[j - 1]);
                }
            }
        }
        i += 1;
    }
    ops
}

/// The domains that raw removal lines delete: the normal form of each line
/// that normalises, in order.
pub open spec fn removal_keys(raws: Seq<Seq<char>>) -> Seq<Seq<char>>
    decreases raws.len(),
{
    if raws.len() == 0 {
        seq![]
    } else {
        match normal_form(raws.last()) {
            Some(f) => removal_keys(raws.drop_last()).push(f.0),
            None => removal_keys(raws.drop_last()),
        }
    }
}

/// The deletions for a batch of removal lines; lines that do not normalise
/// are skipped.
pub fn removal_ops(raws: &Vec<String>) -> (r: Vec<WriteOp>)
    ensures
        r@.len() == removal_keys(views(raws@)).len(),
        forall|i: int|
            0 <= i < r@.len() ==> ((#[trigger] r@[i]) matches WriteOp::Delete(k) && k@
                == removal_keys(views(raws@))[i]),
{
    let ghost rv = views(raws@);
    let mut ops: Vec<WriteOp> = Vec::new();
    let mut i: usize = 0;
    while i < raws.len()
        invariant
            i <= raws@.len(),
            rv == views(raws@),
            ops@.len() == removal_keys(rv.take(i as int)).len(),
            forall|j: int|
                0 <= j < ops@.len() ==> ((#[trigger] ops@[j]) matches WriteOp::Delete(k) && k@
                    == removal_keys(rv.take(i as int))[j]),
        decreases raws@.len() - i,
    {
        let ghost prefix = rv.take(i + 1);
        assert(prefix.drop_last() == rv.take(i as int));
        assert(prefix.last() == raws@[i as int]@);
        let ghost before = ops@;
        let domain = Domain::new(raws[i].as_str());
        match domain.normalize() {
            Ok(n) => {
                ops.push(WriteOp::Delete(n.domain_exact));
                assert forall|j: int| 0 <= j < ops@.len() implies (#[trigger] ops@[j]) matches WriteOp::Delete(k)
                    && k@ == removal_keys(prefix)[j] by {
                    if j < before.len() {
                        assert(ops@[j] == before[j]);
                    }
                }
            },
            Err(_) => {},
        }
        i += 1;
    }
    assert(rv.take(raws@.len() as int) == rv);
    ops
}

/// Whether enough documents were added since the last commit to commit
/// again.
pub fn commit_due(indexed: u64, last_commit: u64, interval: u64) -> (r: bool)
    requires
        last_commit <= indexed,
    ensures
        r == (indexed - last_commit >= interval),
{
    indexed - last_commit >= interval
}

/// `a + b`, or the largest `u64` where the sum does not fit.
pub open spec fn sat_add(a: u64, b: u64) -> u64 {
    if a + b > u64::MAX {
        u64::MAX
    } else {
        (a + b) as u64
    }
}

/// The tallies of an ingest run and the point of its last commit.
pub struct IngestTally {
    /// Documents written so far.
    pub indexed: u64,
    /// Lines dropped by the filter.
    pub filtered: u64,
    /// Lines that did not normalise.
    pub rejected: u64,
    /// The value of `indexed` at the last commit.
    pub last_commit: u64,
    /// How many documents to write between commits.
    pub commit_interval: u64,
}

impl IngestTally {
    /// The last commit lies behind the current count.
    pub open spec fn wf(&self) -> bool {
        self.last_commit <= self.indexed
    }

    /// A run that has written nothing yet.
    pub fn new(commit_interval: u64) -> (r: Self)
        ensures
            r.wf(),
            r.indexed == 0 && r.filtered == 0 && r.rejected == 0 && r.last_commit == 0,
            r.commit_interval == commit_interval,
    {
        IngestTally { indexed: 0, filtered: 0, rejected: 0, last_commit: 0, commit_interval }
    }

    /// Records a finished batch and decides whether to commit now: once at
    /// least `commit_interval` documents were written since the last commit.
    pub fn record_batch(&mut self, rejected: u64, filtered: u64, written: u64) -> (r: bool)
        requires
            old(self).wf(),
        ensures
            final(self).wf(),
            final(self).indexed == sat_add(old(self).indexed, written),
            final(self).filtered == sat_add(old(self).filtered, filtered),
            final(self).rejected == sat_add(old(self).rejected, rejected),
            final(self).commit_interval == old(self).commit_interval,
            r == (final(self).indexed - old(self).last_commit >= old(self).commit_interval),
            final(self).last_commit == if r {
                final(self).indexed
            } else {
                old(self).last_commit
            },
    {
        self.indexed = self.indexed.saturating_add(written);
        self.filtered = self.filtered.saturating_add(filtered);
        self.rejected = self.rejected.saturating_add(rejected);
        let due = commit_due(self.indexed, self.last_commit, self.commit_interval);
        if due {
            self.last_commit = self.indexed;
        }
        due
    }
}

/// After a deletion of `k` at place `i`, with no addition of `k` later, the
/// index holds no document with domain `k`.
proof fn lemma_deleted_stays_gone(m: Map<Seq<char>, nat>, ops: Seq<WriteOp>, i: int, k: Seq<char>)
    requires
        0 <= i < ops.len(),
        ops[i] is Delete && ops[i].key() == Some(k),
        forall|j: int| i < j < ops.len() && (#[trigger] ops[j]) is Add ==> ops[j].key() != Some(k),
    ensures
        key_count(apply_ops(m, ops), k) == 0,
    decreases ops.len(),
{
    if ops.len() - 1 > i {
        let prev = ops.drop_last();
        assert forall|j: int| i < j < prev.len() && (#[trigger] prev[j]) is Add implies prev[j].key()
            != Some(k) by {
            assert(prev[j] == ops[j]);
        }
        lemma_deleted_stays_gone(m, prev, i, k);
    }
}

/// A sequence of operations in which every addition directly follows a
/// deletion of its domain keeps at most one document per domain.
pub proof fn lemma_paired_keeps_one(m: Map<Seq<char>, nat>, ops: Seq<WriteOp>)
    requires
        at_most_one(m),
        paired(ops),
    ensures
        at_most_one(apply_ops(m, ops)),
    decreases ops.len(),
{
    if ops.len() > 0 {
        let prev = ops.drop_last();
        assert forall|i: int| 0 <= i < prev.len() && (#[trigger] prev[i]) is Add implies i > 0
            && prev[i - 1] is Delete && prev[i - 1].key() == prev[i].key() by {
            assert(prev[i] == ops[i] && prev[i - 1] == ops[i - 1]);
        }
        lemma_paired_keeps_one(m, prev);
        if ops.last() is Add {
            let n = ops.len() - 1;
            assert(ops[n] is Add);
            let k = ops[n].key()->0;
            lemma_deleted_stays_gone(m, prev, n - 1, k);
            let after = apply_ops(m, ops);
            assert forall|x: Seq<char>| #[trigger] key_count(after, x) <= 1 by {
                assert(key_count(apply_ops(m, prev), x) <= 1);
            }
        } else {
            let after = apply_ops(m, ops);
            assert forall|x: Seq<char>| #[trigger] key_count(after, x) <= 1 by {
                assert(key_count(apply_ops(m, prev), x) <= 1);
            }
        }
    }
}

/// Writes of consecutive batches, each with every addition right after a
/// deletion of its domain, keep that shape when joined.
pub proof fn lemma_paired_concat(a: Seq<WriteOp>, b: Seq<WriteOp>)
    requires
        paired(a),
        paired(b),
    ensures
        paired(a + b),
{
    let c = a + b;
    assert forall|i: int| 0 <= i < c.len() && (#[trigger] c[i]) is Add implies i > 0 && c[i - 1] is Delete
        && c[i - 1].key() == c[i].key() by {
        if i < a.len() {
            assert(c[i] == a[i] && c[i - 1] == a[i - 1]);
        } else {
            assert(c[i] == b[i - a.len()]);
            assert(b[i - a.len()] is Add);
            assert(c[i - 1] == b[i - a.len() - 1]);
        }
    }
}

/// A daily delta (deletions for the removal lines, then the paired writes of
/// the additions, then a commit) applied to an index with at most one
/// document per domain leaves at most one document per domain.
pub proof fn lemma_daily_keeps_one(
    m: Map<Seq<char>, nat>,
    removals: Seq<WriteOp>,
    additions: Seq<WriteOp>,
)
    requires
        at_most_one(m),
        forall|i: int| 0 <= i < removals.len() ==> (#[trigger] removals[i]) is Delete,
        paired(additions),
    ensures
        at_most_one(apply_ops(m, removals + additions + seq![WriteOp::Commit])),
{
    let ops = removals + additions + seq![WriteOp::Commit];
    assert forall|i: int| 0 <= i < ops.len() && (#[trigger] ops[i]) is Add implies i > 0
        && ops[i - 1] is Delete && ops[i - 1].key() == ops[i].key() by {
        let r = removals.len() as int;
        assert(i >= r);
        assert(ops[i] == additions[i - r]);
        assert(additions[i - r] is Add);
        assert(ops[i - 1] == additions[i - r - 1]);
    }
    lemma_paired_keeps_one(m, ops);
}

/// A domain that a removal line deletes is absent after the delta, as long as
/// the additions do not add it back.
pub proof fn lemma_removed_is_absent(
    m: Map<Seq<char>, nat>,
    removals: Seq<WriteOp>,
    additions: Seq<WriteOp>,
    i: int,
    k: Seq<char>,
)
    requires
        0 <= i < removals.len(),
        removals[i] is Delete && removals[i].key() == Some(k),
        forall|j: int| 0 <= j < removals.len() ==> (#[trigger] removals[j]) is Delete,
        forall|j: int| 0 <= j < additions.len() && (#[trigger] additions[j]) is Add ==> additions[j].key() != Some(k),
    ensures
        key_count(apply_ops(m, removals + additions + seq![WriteOp::Commit]), k) == 0,
{
    let ops = removals + additions + seq![WriteOp::Commit];
    assert(ops[i] == removals[i]);
    assert forall|j: int| i < j < ops.len() && (#[trigger] ops[j]) is Add implies ops[j].key() != Some(k) by {
        let r = removals.len() as int;
        if j < r {
            assert(ops[j] == removals[j]);
        } else if j < r + additions.len() {
            assert(ops[j] == additions[j - r]);
        }
    }
    lemma_deleted_stays_gone(m, ops, i, k);
}

/// Removing and adding the same domain in one delta leaves exactly one
/// document with that domain: removals run first, and the addition deletes
/// before it adds.
pub proof fn lemma_remove_then_add(
    m: Map<Seq<char>, nat>,
    k: Seq<char>,
    removed: String,
    replaced: String,
    doc: DocumentFields,
)
    requires
        removed@ == k,
        replaced@ == k,
        doc.domain_exact@ == k,
    ensures
        key_count(
            apply_ops(
                m,
                seq![WriteOp::Delete(removed)] + seq![WriteOp::Delete(replaced), WriteOp::Add(doc)]
                    + seq![WriteOp::Commit],
            ),
            k,
        ) == 1,
{
    reveal_with_fuel(apply_ops, 5);
    let ops = seq![WriteOp::Delete(removed)] + seq![WriteOp::Delete(replaced), WriteOp::Add(doc)]
        + seq![WriteOp::Commit];
    assert(ops.drop_last().drop_last().drop_last().drop_last() == Seq::<WriteOp>::empty());
    assert(ops.drop_last().drop_last().drop_last().last() == WriteOp::Delete(removed));
    assert(ops.drop_last().drop_last().last() == WriteOp::Delete(replaced));
    assert(ops.drop_last().last() == WriteOp::Add(doc));
    assert(ops.last() == WriteOp::Commit);
}


/// Every removal line that normalises has its domain among the deleted keys.
pub proof fn lemma_removal_line_deleted(raws: Seq<Seq<char>>, i: int)
    requires
        0 <= i < raws.len(),
        normal_form(raws[i]) is Some,
    ensures
        removal_keys(raws).contains(normal_domain(raws[i])),
    decreases raws.len(),
{
    let k = normal_domain(raws[i]);
    if i == raws.len() - 1 {
        assert(removal_keys(raws).last() == k);
    } else {
        assert(raws.drop_last()[i] == raws[i]);
        lemma_removal_line_deleted(raws.drop_last(), i);
        let prev = removal_keys(raws.drop_last());
        let j = choose|j: int| 0 <= j < prev.len() && prev[j] == k;
        if normal_form(raws.last()) is Some {
            assert(removal_keys(raws)[j] == prev[j]);
        }
    }
}

/// A domain named by a removal line is absent after the delta, as long as
/// the additions do not add it back: the deletions that the removal lines
/// give run first.
pub proof fn lemma_removed_line_absent(
    m: Map<Seq<char>, nat>,
    raws: Seq<Seq<char>>,
    removals: Seq<WriteOp>,
    additions: Seq<WriteOp>,
    i: int,
)
    requires
        0 <= i < raws.len(),
        normal_form(raws[i]) is Some,
        removals.len() == removal_keys(raws).len(),
        forall|j: int|
            0 <= j < removals.len() ==> ((#[trigger] removals[j]) matches WriteOp::Delete(k) && k@
                == removal_keys(raws)[j]),
        forall|j: int|
            0 <= j < additions.len() && (#[trigger] additions[j]) is Add ==> additions[j].key()
                != Some(normal_domain(raws[i])),
    ensures
        key_count(
            apply_ops(m, removals + additions + seq![WriteOp::Commit]),
            normal_domain(raws[i]),
        ) == 0,
{
    let k = normal_domain(raws[i]);
    lemma_removal_line_deleted(raws, i);
    let j = choose|j: int| 0 <= j < removal_keys(raws).len() && removal_keys(raws)[j] == k;
    assert(removals[j] is Delete && removals[j].key() == Some(k));
    assert forall|x: int| 0 <= x < removals.len() implies (#[trigger] removals[x]) is Delete by {
        assert(removals[x] matches WriteOp::Delete(_));
    }
    lemma_removed_is_absent(m, removals, additions, j, k);
}

/// The writes of batches that are each paired stay paired when joined.
pub proof fn lemma_paired_flatten(batches: Seq<Seq<WriteOp>>)
    requires
        forall|b: int| 0 <= b < batches.len() ==> paired(#[trigger] batches[b]),
    ensures
        paired(batches.flatten()),
    decreases batches.len(),
{
    if batches.len() > 0 {
        let rest = batches.drop_first();
        assert forall|b: int| 0 <= b < rest.len() implies paired(#[trigger] rest[b]) by {
            assert(rest[b] == batches[b + 1]);
        }
        lemma_paired_flatten(rest);
        assert(paired(batches[0]));
        lemma_paired_concat(batches.first(), rest.flatten());
    }
}

/// The writes of a daily delta, made of batches of deletions for the
/// removal lines, then batches of paired writes for the additions, then a
/// commit, are paired.
pub proof fn lemma_daily_run_paired(removals: Seq<Seq<WriteOp>>, additions: Seq<Seq<WriteOp>>)
    requires
        forall|b: int, j: int|
            0 <= b < removals.len() && 0 <= j < removals[b].len() ==> (#[trigger] removals[b][j]) is Delete,
        forall|b: int| 0 <= b < additions.len() ==> paired(#[trigger] additions[b]),
    ensures
        paired(removals.flatten() + additions.flatten() + seq![WriteOp::Commit]),
{
    assert forall|b: int| 0 <= b < removals.len() implies paired(#[trigger] removals[b]) by {}
    lemma_paired_flatten(removals);
    lemma_paired_flatten(additions);
    lemma_paired_concat(removals.flatten(), additions.flatten());
    let c: Seq<WriteOp> = seq![WriteOp::Commit];
    assert(paired(c));
    lemma_paired_concat(removals.flatten() + additions.flatten(), c);
}

/// Any sequence of daily deltas, each paired, applied to an index with at
/// most one document per domain, leaves at most one document per domain.
pub proof fn lemma_daily_runs_keep_one(m: Map<Seq<char>, nat>, runs: Seq<Seq<WriteOp>>)
    requires
        at_most_one(m),
        forall|r: int| 0 <= r < runs.len() ==> paired(#[trigger] runs[r]),
    ensures
        at_most_one(apply_ops(m, runs.flatten())),
{
    lemma_paired_flatten(runs);
    lemma_paired_keeps_one(m, runs.flatten());
}

} // verus!
