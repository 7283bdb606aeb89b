//! Sampled reads and their per-position probabilities, by read id and
//! canonical base, from which the threshold sample is drawn.
use vstd::prelude::*;

use crate::mod_bam::{info_view, parsed_from, ModGroupSpec};
use crate::mod_base_code::{base_complement, canonical_code_of, DnaBase, ModCode, Strand};
use crate::mod_probs::{argmax_call_spec, BaseModCall, BaseModProbs, CollapseMethod, ModEntries};
use crate::read_cache::{bytes_eq, clone_bytes, collapse_opt};
use crate::record::{forward_seq_spec, parse_record, precheck, record_tags_parse, ModRecord, RunError};
use crate::thresholds::call_prob;

verus! {

/// The probabilities of one read, by canonical base.
pub struct ReadProbs {
    pub read_id: Vec<u8>,
    pub by_base: Vec<(DnaBase, Vec<BaseModProbs>)>,
}

pub open spec fn read_ids(reads: Seq<ReadProbs>) -> Seq<Seq<u8>> {
    reads.map_values(|r: ReadProbs| r.read_id@)
}

/// Read ids mapped to their probabilities; each read id is held once.
pub struct ReadIdsToBaseModProbs {
    pub inner: Vec<ReadProbs>,
}

pub open spec fn best_of(e: ModEntries) -> u64 {
    call_prob(argmax_call_spec(e))
}

/// The best-call probabilities of one base over the reads, read after read.
pub open spec fn best_probs_of_base(reads: Seq<ReadProbs>, base: DnaBase) -> Seq<u64>
    decreases reads.len(),
{
    if reads.len() == 0 {
        Seq::empty()
    } else {
        best_probs_of_base(reads.drop_last(), base) + base_probs_of_read(reads.last().by_base@, base)
    }
}

pub open spec fn base_probs_of_read(by_base: Seq<(DnaBase, Vec<BaseModProbs>)>, base: DnaBase) -> Seq<u64>
    decreases by_base.len(),
{
    if by_base.len() == 0 {
        Seq::empty()
    } else {
        base_probs_of_read(by_base.drop_last(), base) + if by_base.last().0 == base {
            by_base.last().1@.map_values(|b: BaseModProbs| best_of(b@))
        } else {
            Seq::empty()
        }
    }
}

impl ReadIdsToBaseModProbs {
    pub open spec fn unique(&self) -> bool {
        read_ids(self.inner@).no_duplicates()
    }

    pub fn zero() -> (r: Self)
        ensures
            r.inner@.len() == 0,
            r.unique(),
    {
        ReadIdsToBaseModProbs { inner: Vec::new() }
    }

    pub fn seen(&self, read_id: &Vec<u8>) -> (r: bool)
        ensures
            r == read_ids(self.inner@).contains(read_id@),
    {
        let mut i: usize = 0;
        while i < self.inner.len()
            invariant
                i <= self.inner@.len(),
                forall|k: int| 0 <= k < i ==> read_ids(self.inner@)[k] != read_id@,
            decreases self.inner@.len() - i,
        {
            if bytes_eq(&self.inner[i].read_id, read_id) {
                proof {
                    assert(read_ids(self.inner@)[i as int] == read_id@);
                }
                return true;
            }
            i = i + 1;
        }
        false
    }

    /// Records a read that has no calls.
    pub fn add_read_without_probs(&mut self, read_id: &Vec<u8>)
        requires
            old(self).unique(),
        ensures
            final(self).unique(),
            read_ids(final(self).inner@).contains(read_id@),
            read_ids(old(self).inner@).contains(read_id@) ==> final(self).inner@ == old(self).inner@,
            !read_ids(old(self).inner@).contains(read_id@) ==> final(self).inner@.len() == old(
                self,
            ).inner@.len() + 1 && final(self).inner@.drop_last() == old(self).inner@
                && final(self).inner@.last().read_id@ == read_id@
                && final(self).inner@.last().by_base@.len() == 0,
    {
        if !self.seen(read_id) {
            let ghost before = self.inner@;
            self.inner.push(ReadProbs { read_id: clone_bytes(read_id), by_base: Vec::new() });
            proof {
                assert(self.inner@.drop_last() =~= before);
                assert(read_ids(self.inner@) =~= read_ids(before).push(read_id@));
                assert(read_ids(self.inner@)[before.len() as int] == read_id@);
            }
        }
    }

    /// Adds the probabilities of one base of a read, creating the read's
    /// entry where it has none.
    pub fn add_mod_probs_for_read(&mut self, read_id: &Vec<u8>, canonical_base: DnaBase, mod_probs: Vec<BaseModProbs>)
        requires
            old(self).unique(),
        ensures
            final(self).unique(),
            read_ids(final(self).inner@).contains(read_id@),
            read_ids(final(self).inner@) == if read_ids(old(self).inner@).contains(read_id@) {
                read_ids(old(self).inner@)
            } else {
                read_ids(old(self).inner@).push(read_id@)
            },
    {
        let ghost start = self.inner@;
        self.add_read_without_probs(read_id);
        let ghost ids = read_ids(self.inner@);
        let mut i: usize = 0;
        while i < self.inner.len()
            invariant
                i <= self.inner@.len(),
                ids == read_ids(self.inner@),
                ids.contains(read_id@),
                forall|k: int| 0 <= k < i ==> ids[k] != read_id@,
            decreases self.inner@.len() - i,
        {
            if bytes_eq(&self.inner[i].read_id, read_id) {
                break;
            }
            i = i + 1;
        }
        proof {
            if i == self.inner@.len() {
                let k = choose|k: int| 0 <= k < ids.len() && ids[k] == read_id@;
                assert(false);
            }
        }
        let ghost before = self.inner@;
        let mut entry = self.inner.remove(i);
        entry.by_base.push((canonical_base, mod_probs));
        self.inner.insert(i, entry);
        proof {
            assert(read_ids(self.inner@) =~= read_ids(before));
        }
    }

    /// The best-call probabilities of one canonical base over all reads.
    pub fn mle_probs_for_base(&self, base: DnaBase) -> (r: Vec<u64>)
        ensures
            r@ == best_probs_of_base(self.inner@, base),
    {
        let mut out: Vec<u64> = Vec::new();
        let mut i: usize = 0;
        while i < self.inner.len()
            invariant
                i <= self.inner@.len(),
                out@ == best_probs_of_base(self.inner@.subrange(0, i as int), base),
            decreases self.inner@.len() - i,
        {
            let by_base = &self.inner[i].by_base;
            let ghost before = out@;
            let mut b: usize = 0;
            while b < by_base.len()
                invariant
                    b <= by_base@.len(),
                    out@ == before + base_probs_of_read(by_base@.subrange(0, b as int), base),
                decreases by_base@.len() - b,
            {
                proof {
                    assert(by_base@.subrange(0, b as int + 1).drop_last() =~= by_base@.subrange(0, b as int));
                }
                if by_base[b].0 == base {
                    let probs = &by_base[b].1;
                    let ghost mid = out@;
                    let mut j: usize = 0;
                    while j < probs.len()
                        invariant
                            j <= probs@.len(),
                            out@ == mid + probs@.subrange(0, j as int).map_values(|x: BaseModProbs| best_of(x@)),
                        decreases probs@.len() - j,
                    {
                        let p = match probs[j].argmax_base_mod_call() {
                            BaseModCall::Canonical(p) => p,
                            BaseModCall::Modified(p, _) => p,
                            BaseModCall::Filtered => 0,
                        };
                        out.push(p);
                        proof {
                            assert(out@ =~= mid + probs@.subrange(0, j as int + 1).map_values(|x: BaseModProbs| best_of(x@)));
                        }
                        j = j + 1;
                    }
                    proof {
                        assert(probs@.subrange(0, j as int) =~= probs@);
                    }
                }
                proof {
                    assert(out@ =~= before + base_probs_of_read(by_base@.subrange(0, b as int + 1), base));
                }
                b = b + 1;
            }
            proof {
                assert(by_base@.subrange(0, b as int) =~= by_base@);
                assert(self.inner@.subrange(0, i as int + 1).drop_last() =~= self.inner@.subrange(0, i as int));
            }
            i = i + 1;
        }
        proof {
            assert(self.inner@.subrange(0, i as int) =~= self.inner@);
        }
        out
    }

    /// The number of reads held.
    pub fn num_reads(&self) -> (r: usize)
        ensures
            r == self.inner@.len(),
    {
        self.inner.len()
    }
}

/// The base a group's probabilities are filed under: its own base on the
/// `+` strand, the complement on the `-` strand.
pub open spec fn filed_base(g: ModGroupSpec) -> DnaBase {
    match g.strand {
        Strand::Positive => g.canonical_base,
        Strand::Negative => base_complement(g.canonical_base),
    }
}

/// A read's groups as filed by base, each position collapsed by the method.
pub open spec fn filed_probs(gs: Seq<ModGroupSpec>, method: Option<CollapseMethod>) -> Seq<(DnaBase, Seq<ModEntries>)> {
    gs.map_values(|g: ModGroupSpec| (filed_base(g), g.probs.map_values(|e: ModEntries| collapse_opt(e, method))))
}

pub open spec fn by_base_view(v: Seq<(DnaBase, Vec<BaseModProbs>)>) -> Seq<(DnaBase, Seq<ModEntries>)> {
    v.map_values(|p: (DnaBase, Vec<BaseModProbs>)| (p.0, p.1@.map_values(|b: BaseModProbs| b@)))
}

impl ReadIdsToBaseModProbs {
    /// Files a sampled record's probabilities under its read id. A read id
    /// already held is left as it is; a record that is not primary, has no
    /// bases or no usable tags is reported and changes nothing.
    pub fn add_record(&mut self, record: &ModRecord, method: &Option<CollapseMethod>) -> (r: Result<(), RunError>)
        requires
            old(self).unique(),
        ensures
            final(self).unique(),
            r is Err ==> final(self).inner@ == old(self).inner@,
            read_ids(old(self).inner@).contains(record.name@) ==> final(self).inner@ == old(self).inner@ && r is Ok,
            !read_ids(old(self).inner@).contains(record.name@) && precheck(record) is Some ==> (r matches Err(e)
                && e == precheck(record)->Some_0),
            !read_ids(old(self).inner@).contains(record.name@) && precheck(record) is None ==> (r is Ok
                || r matches Err(RunError::BadInput(_))),
            !read_ids(old(self).inner@).contains(record.name@) && record_tags_parse(record) ==> r is Ok,
            r is Ok && !read_ids(old(self).inner@).contains(record.name@) ==> ({
                let last = final(self).inner@.last();
                &&& final(self).inner@.drop_last() == old(self).inner@
                &&& last.read_id@ == record.name@
                &&& exists|gs: Seq<ModGroupSpec>|
                    #[trigger] parsed_from(gs, record.mm->Some_0@, record.ml@, forward_seq_spec(record.seq@, record.is_reverse))
                        && by_base_view(last.by_base@) == filed_probs(gs, *method)
            }),
    {
        if self.seen(&record.name) {
            return Ok(());
        }
        let (info, _fwd) = parse_record(record)?;
        let ghost gv = info_view(info.groups@);
        let mut by_base: Vec<(DnaBase, Vec<BaseModProbs>)> = Vec::new();
        let mut k: usize = 0;
        while k < info.groups.len()
            invariant
                k <= info.groups@.len(),
                gv == info_view(info.groups@),
                by_base_view(by_base@) == filed_probs(gv.subrange(0, k as int), *method),
            decreases info.groups@.len() - k,
        {
            let g = &info.groups[k];
            let base = match g.strand {
                Strand::Positive => g.canonical_base,
                Strand::Negative => g.canonical_base.complement(),
            };
            let mut probs: Vec<BaseModProbs> = Vec::new();
            let mut i: usize = 0;
            while i < g.probs.len()
                invariant
                    i <= g.probs@.len(),
                    probs@.len() == i,
                    forall|j: int| 0 <= j < i ==> (#[trigger] probs@[j])@ == collapse_opt(g.probs@[j]@, *method),
                decreases g.probs@.len() - i,
            {
                let p = match method {
                    Some(m) => g.probs[i].collapse(m),
                    None => g.probs[i].clone_entries(),
                };
                probs.push(p);
                i = i + 1;
            }
            let ghost before = by_base@;
            by_base.push((base, probs));
            proof {
                assert(gv[k as int] == g@);
                assert(by_base@.drop_last() =~= before);
                assert(probs@.map_values(|b: BaseModProbs| b@) =~= g@.probs.map_values(|e: ModEntries| collapse_opt(e, *method)));
                let sub = gv.subrange(0, k as int);
                let sub1 = gv.subrange(0, k as int + 1);
                assert(by_base_view(before) == filed_probs(sub, *method));
                assert(by_base_view(before).len() == before.len());
                assert(filed_probs(sub, *method).len() == sub.len());
                assert(before.len() == k);
                assert(base == filed_base(g@));
                assert forall|j: int| 0 <= j < k + 1 implies #[trigger] by_base_view(by_base@)[j] == filed_probs(sub1, *method)[j] by {
                    if j < k {
                        assert(by_base@[j] == before[j]);
                        assert(sub1[j] == sub[j]);
                        assert(by_base_view(before)[j] == filed_probs(sub, *method)[j]);
                    } else {
                        assert(sub1[j] == g@);
                        assert(by_base@[j] == (base, probs));
                    }
                }
                assert(by_base_view(by_base@) =~= filed_probs(sub1, *method));
            }
            k = k + 1;
        }
        proof {
            assert(gv.subrange(0, k as int) =~= gv);
        }
        let ghost old_inner = self.inner@;
        self.inner.push(ReadProbs { read_id: clone_bytes(&record.name), by_base });
        proof {
            assert(self.inner@.drop_last() =~= old_inner);
            assert(read_ids(self.inner@) =~= read_ids(old_inner).push(record.name@));
            let f = forward_seq_spec(record.seq@, record.is_reverse);
            assert(parsed_from(gv, record.mm->Some_0@, record.ml@, f));
        }
        Ok(())
    }
}

/// The read ids of `b` that `a` does not hold, in order.
pub open spec fn new_ids(a: Seq<Seq<u8>>, b: Seq<Seq<u8>>) -> Seq<Seq<u8>>
    decreases b.len(),
{
    if b.len() == 0 {
        Seq::empty()
    } else {
        let rest = new_ids(a, b.drop_last());
        if a.contains(b.last()) || rest.contains(b.last()) {
            rest
        } else {
            rest.push(b.last())
        }
    }
}

/// The number of probability vectors held for one read.
pub open spec fn read_size(by_base: Seq<(DnaBase, Vec<BaseModProbs>)>) -> int
    decreases by_base.len(),
{
    if by_base.len() == 0 {
        0
    } else {
        read_size(by_base.drop_last()) + by_base.last().1@.len()
    }
}

pub open spec fn total_size(reads: Seq<ReadProbs>) -> int
    decreases reads.len(),
{
    if reads.len() == 0 {
        0
    } else {
        total_size(reads.drop_last()) + read_size(reads.last().by_base@)
    }
}

impl ReadIdsToBaseModProbs {
    /// Takes in the reads of `other` whose ids are not held yet, in order;
    /// a read id held by both keeps the entry already here.
    pub fn op_mut(&mut self, other: Self)
        requires
            old(self).unique(),
        ensures
            final(self).unique(),
            read_ids(final(self).inner@) == read_ids(old(self).inner@) + new_ids(
                read_ids(old(self).inner@),
                read_ids(other.inner@),
            ),
            final(self).inner@.subrange(0, old(self).inner@.len() as int) == old(self).inner@,
    {
        let ghost start = self.inner@;
        let ghost order = other.inner@;
        let mut other = other;
        let n = other.inner.len();
        let mut i: usize = 0;
        while other.inner.len() > 0
            invariant
                n == order.len(),
                i + other.inner@.len() == order.len(),
                other.inner@ == order.subrange(i as int, order.len() as int),
                read_ids(self.inner@) == read_ids(start) + new_ids(read_ids(start), read_ids(order.subrange(0, i as int))),
                self.inner@.subrange(0, start.len() as int) == start,
                self.inner@.len() >= start.len(),
                read_ids(self.inner@).no_duplicates(),
            decreases other.inner@.len(),
        {
            let r = other.inner.remove(0);
            proof {
                assert(order[i as int] == r);
                assert(other.inner@ =~= order.subrange(i as int + 1, order.len() as int));
                let pre = read_ids(order.subrange(0, i as int + 1));
                assert(pre.drop_last() =~= read_ids(order.subrange(0, i as int)));
                assert(pre.last() == r.read_id@);
            }
            let ghost ids_before = read_ids(self.inner@);
            if !self.seen(&r.read_id) {
                let ghost inner_before = self.inner@;
                let ghost rid = r.read_id@;
                self.inner.push(r);
                proof {
                    assert(read_ids(self.inner@) =~= ids_before.push(rid));
                    assert(self.inner@.subrange(0, start.len() as int) =~= inner_before.subrange(0, start.len() as int));
                }
            }
            proof {
                let a = read_ids(start);
                let prev = new_ids(a, read_ids(order.subrange(0, i as int)));
                assert(ids_before == a + prev);
                assert((a + prev).contains(r.read_id@) <==> (a.contains(r.read_id@) || prev.contains(r.read_id@))) by {
                    if (a + prev).contains(r.read_id@) {
                        let k = choose|k: int| 0 <= k < (a + prev).len() && (a + prev)[k] == r.read_id@;
                        if k < a.len() {
                            assert(a[k] == r.read_id@);
                        } else {
                            assert(prev[k - a.len()] == r.read_id@);
                        }
                    }
                    if a.contains(r.read_id@) {
                        let k = choose|k: int| 0 <= k < a.len() && a[k] == r.read_id@;
                        assert((a + prev)[k] == r.read_id@);
                    }
                    if prev.contains(r.read_id@) {
                        let k = choose|k: int| 0 <= k < prev.len() && prev[k] == r.read_id@;
                        assert((a + prev)[k + a.len()] == r.read_id@);
                    }
                }
                assert(read_ids(self.inner@) =~= a + new_ids(a, read_ids(order.subrange(0, i as int + 1))));
            }
            i = i + 1;
        }
        proof {
            assert(order.subrange(0, i as int) =~= order);
        }
    }

    /// The number of probability vectors held over all reads.
    pub fn size(&self) -> (r: u64)
        requires
            total_size(self.inner@) <= u64::MAX,
        ensures
            r == total_size(self.inner@),
    {
        let mut s: u64 = 0;
        let mut i: usize = 0;
        while i < self.inner.len()
            invariant
                i <= self.inner@.len(),
                total_size(self.inner@) <= u64::MAX,
                s == total_size(self.inner@.subrange(0, i as int)),
            decreases self.inner@.len() - i,
        {
            let by_base = &self.inner[i].by_base;
            let ghost before = s;
            let mut b: usize = 0;
            proof {
                lemma_total_size_prefix(self.inner@, i as int + 1);
                assert(self.inner@.subrange(0, i as int + 1).drop_last() =~= self.inner@.subrange(0, i as int));
            }
            while b < by_base.len()
                invariant
                    b <= by_base@.len(),
                    by_base@ == self.inner@[i as int].by_base@,
                    before + read_size(by_base@) <= u64::MAX,
                    s == before + read_size(by_base@.subrange(0, b as int)),
                decreases by_base@.len() - b,
            {
                proof {
                    assert(by_base@.subrange(0, b as int + 1).drop_last() =~= by_base@.subrange(0, b as int));
                    lemma_read_size_prefix(by_base@, b as int + 1);
                }
                s = s + by_base[b].1.len() as u64;
                b = b + 1;
            }
            proof {
                assert(by_base@.subrange(0, b as int) =~= by_base@);
            }
            i = i + 1;
        }
        proof {
            assert(self.inner@.subrange(0, i as int) =~= self.inner@);
        }
        s
    }
}

proof fn lemma_read_size_prefix(v: Seq<(DnaBase, Vec<BaseModProbs>)>, k: int)
    requires
        0 <= k <= v.len(),
    ensures
        0 <= read_size(v.subrange(0, k)) <= read_size(v),
    decreases v.len(),
{
    if v.len() > 0 {
        if k == v.len() {
            assert(v.subrange(0, k) =~= v);
            lemma_read_size_prefix(v.drop_last(), k - 1);
        } else {
            lemma_read_size_prefix(v.drop_last(), k);
            assert(v.drop_last().subrange(0, k) =~= v.subrange(0, k));
            lemma_read_size_prefix(v.drop_last(), v.len() - 1);
            assert(v.drop_last().subrange(0, v.len() - 1) =~= v.drop_last());
        }
    }
}

proof fn lemma_total_size_prefix(v: Seq<ReadProbs>, k: int)
    requires
        0 <= k <= v.len(),
    ensures
        0 <= total_size(v.subrange(0, k)) <= total_size(v),
    decreases v.len(),
{
    if v.len() > 0 {
        lemma_read_size_prefix(v.last().by_base@, v.last().by_base@.len() as int);
        assert(v.last().by_base@.subrange(0, v.last().by_base@.len() as int) =~= v.last().by_base@);
        if k == v.len() {
            assert(v.subrange(0, k) =~= v);
            lemma_total_size_prefix(v.drop_last(), k - 1);
        } else {
            lemma_total_size_prefix(v.drop_last(), k);
            assert(v.drop_last().subrange(0, k) =~= v.subrange(0, k));
            lemma_total_size_prefix(v.drop_last(), v.len() - 1);
            assert(v.drop_last().subrange(0, v.len() - 1) =~= v.drop_last());
        }
    }
}

/// The code a call names: the modification, or the canonical code of the
/// base the position is filed under.
pub open spec fn call_code(call: BaseModCall, base: DnaBase) -> ModCode {
    match call {
        BaseModCall::Modified(_, code) => code,
        _ => canonical_code_of(base),
    }
}

/// The best-call probabilities, over all reads and bases, of the calls that
/// name `code`, in order.
pub open spec fn code_probs_of_read(by_base: Seq<(DnaBase, Vec<BaseModProbs>)>, code: ModCode) -> Seq<u64>
    decreases by_base.len(),
{
    if by_base.len() == 0 {
        Seq::empty()
    } else {
        let (base, probs) = by_base.last();
        code_probs_of_read(by_base.drop_last(), code) + code_probs_of_base(probs@, base, code)
    }
}

pub open spec fn code_probs_of_base(probs: Seq<BaseModProbs>, base: DnaBase, code: ModCode) -> Seq<u64>
    decreases probs.len(),
{
    if probs.len() == 0 {
        Seq::empty()
    } else {
        let call = argmax_call_spec(probs.last()@);
        code_probs_of_base(probs.drop_last(), base, code) + if call_code(call, base) == code {
            seq![call_prob(call)]
        } else {
            Seq::empty()
        }
    }
}

pub open spec fn code_probs(reads: Seq<ReadProbs>, code: ModCode) -> Seq<u64>
    decreases reads.len(),
{
    if reads.len() == 0 {
        Seq::empty()
    } else {
        code_probs(reads.drop_last(), code) + code_probs_of_read(reads.last().by_base@, code)
    }
}

impl ReadIdsToBaseModProbs {
    /// The best-call probabilities of the calls that name one code.
    pub fn mle_probs_for_code(&self, code: ModCode) -> (r: Vec<u64>)
        ensures
            r@ == code_probs(self.inner@, code),
    {
        let mut out: Vec<u64> = Vec::new();
        let mut i: usize = 0;
        while i < self.inner.len()
            invariant
                i <= self.inner@.len(),
                out@ == code_probs(self.inner@.subrange(0, i as int), code),
            decreases self.inner@.len() - i,
        {
            let by_base = &self.inner[i].by_base;
            let ghost before = out@;
            let mut b: usize = 0;
            while b < by_base.len()
                invariant
                    b <= by_base@.len(),
                    out@ == before + code_probs_of_read(by_base@.subrange(0, b as int), code),
                decreases by_base@.len() - b,
            {
                proof {
                    assert(by_base@.subrange(0, b as int + 1).drop_last() =~= by_base@.subrange(0, b as int));
                }
                let base = by_base[b].0;
                let probs = &by_base[b].1;
                let ghost mid = out@;
                let mut j: usize = 0;
                while j < probs.len()
                    invariant
                        j <= probs@.len(),
                        out@ == mid + code_probs_of_base(probs@.subrange(0, j as int), base, code),
                    decreases probs@.len() - j,
                {
                    proof {
                        assert(probs@.subrange(0, j as int + 1).drop_last() =~= probs@.subrange(0, j as int));
                    }
                    let call = probs[j].argmax_base_mod_call();
                    let (named, p) = match call {
                        BaseModCall::Modified(p, c) => (c, p),
                        BaseModCall::Canonical(p) => (base.canonical_mod_code(), p),
                        BaseModCall::Filtered => (base.canonical_mod_code(), 0),
                    };
                    if named == code {
                        out.push(p);
                    }
                    proof {
                        assert(out@ =~= mid + code_probs_of_base(probs@.subrange(0, j as int + 1), base, code));
                    }
                    j = j + 1;
                }
                proof {
                    assert(probs@.subrange(0, j as int) =~= probs@);
                    assert(out@ =~= before + code_probs_of_read(by_base@.subrange(0, b as int + 1), code));
                }
                b = b + 1;
            }
            proof {
                assert(by_base@.subrange(0, b as int) =~= by_base@);
                assert(self.inner@.subrange(0, i as int + 1).drop_last() =~= self.inner@.subrange(0, i as int));
            }
            i = i + 1;
        }
        proof {
            assert(self.inner@.subrange(0, i as int) =~= self.inner@);
        }
        out
    }
}

} // verus!
