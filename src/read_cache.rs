//! Each read's MM/ML tags parsed once, and looked up by reference position
//! as the pileup passes over the read.
use vstd::prelude::*;

use crate::mm_tag::SkipMode;
use crate::mm_tag::{mm_bytes, MmGroupSpec};
use crate::mod_bam::{
    collapse_all_spec, lemma_collapse_all_shape,
    clone_codes, collapse_codes, group_parsed, info_view, ml_needed, parsed_from, parsed_with,
    tags_parse, ModBaseInfo, ModGroup, ModGroupSpec,
};
use crate::mod_base_code::{base_complement, DnaBase, InputError, ModCode, Strand};
use crate::mod_probs::{
    contains_code,
    argmax_call_spec, collapse_spec, BaseModCall, BaseModProbs, CollapseMethod, ModEntries,
};
use crate::record::{forward_seq_spec, parse_record, record_tags_parse, ModRecord};

verus! {

pub open spec fn first_index_of(s: Seq<usize>, q: usize) -> int
    decreases s.len(),
{
    if s.len() == 0 {
        -1
    } else if first_index_of(s.drop_last(), q) >= 0 {
        first_index_of(s.drop_last(), q)
    } else if s.last() == q {
        s.len() - 1
    } else {
        -1
    }
}

/// The entries that the groups of one base and mod strand list at forward
/// read position `q`, group after group.
pub open spec fn entries_at(gs: Seq<ModGroupSpec>, base: DnaBase, strand: Strand, q: usize) -> ModEntries
    decreases gs.len(),
{
    if gs.len() == 0 {
        Seq::empty()
    } else {
        let g = gs.last();
        let i = first_index_of(g.positions, q);
        entries_at(gs.drop_last(), base, strand, q) + if g.canonical_base == base && g.strand
            == strand && i >= 0 {
            g.probs[i]
        } else {
            Seq::empty()
        }
    }
}

/// Whether a group of the base and mod strand has a call at `q`.
pub open spec fn has_call_at(gs: Seq<ModGroupSpec>, base: DnaBase, strand: Strand, q: usize) -> bool {
    exists|k: int|
        0 <= k < gs.len() && (#[trigger] gs[k]).canonical_base == base && gs[k].strand == strand
            && gs[k].positions.contains(q)
}

/// The first forward read position aligned to reference position `r`.
pub open spec fn query_pos_of(pairs: Seq<(usize, u64)>, r: u64) -> int
    decreases pairs.len(),
{
    if pairs.len() == 0 {
        -1
    } else if query_pos_of(pairs.drop_last(), r) >= 0 {
        query_pos_of(pairs.drop_last(), r)
    } else if pairs.last().1 == r {
        pairs.len() - 1
    } else {
        -1
    }
}

pub open spec fn collapse_opt(e: ModEntries, method: Option<CollapseMethod>) -> ModEntries {
    match method {
        Some(m) => collapse_spec(e, m),
        None => e,
    }
}

/// A call whose probability is at most the threshold becomes `Filtered`.
pub open spec fn threshold_call(call: BaseModCall, threshold: u64) -> BaseModCall {
    match call {
        BaseModCall::Canonical(p) => if p > threshold { call } else { BaseModCall::Filtered },
        BaseModCall::Modified(p, _) => if p > threshold { call } else { BaseModCall::Filtered },
        BaseModCall::Filtered => call,
    }
}

/// The call of a read at reference position `r` for one base and mod strand.
pub open spec fn lookup_spec(
    gs: Seq<ModGroupSpec>,
    pairs: Seq<(usize, u64)>,
    base: DnaBase,
    strand: Strand,
    r: u64,
    method: Option<CollapseMethod>,
    threshold: u64,
) -> Option<BaseModCall> {
    let j = query_pos_of(pairs, r);
    if j < 0 || !has_call_at(gs, base, strand, pairs[j].0) {
        None
    } else {
        Some(
            threshold_call(
                argmax_call_spec(collapse_opt(entries_at(gs, base, strand, pairs[j].0), method)),
                threshold,
            ),
        )
    }
}

/// Whether residues without a listed probability would be read as canonical.
pub open spec fn is_implicit(m: SkipMode) -> bool {
    m != SkipMode::Ambiguous
}

/// One read held by the cache.
pub struct CachedRead {
    pub name: Vec<u8>,
    pub groups: Vec<ModGroup>,
    pub aligned_pairs: Vec<(usize, u64)>,
}

pub open spec fn find_read(reads: Seq<CachedRead>, name: Seq<u8>) -> int
    decreases reads.len(),
{
    if reads.len() == 0 {
        -1
    } else if find_read(reads.drop_last(), name) >= 0 {
        find_read(reads.drop_last(), name)
    } else if reads.last().name@ == name {
        reads.len() - 1
    } else {
        -1
    }
}

pub struct ReadCache {
    pub reads: Vec<CachedRead>,
    /// Reads without usable tags.
    pub skip_set: Vec<Vec<u8>>,
    pub collapse_method: Option<CollapseMethod>,
    /// Accept tags whose skip mode reads unlisted residues as canonical.
    pub force_allow: bool,
    /// Where set, the only modification codes kept: the others are
    /// redistributed when a read is parsed into the cache.
    pub restrict_mod_bases: Option<Vec<ModCode>>,
}

/// The redistributions that leave only the kept codes: one for each of the
/// codes `a`, `h`, `m` that the keep-set lacks.
pub open spec fn restrict_methods(keep: Option<Seq<ModCode>>) -> Seq<CollapseMethod> {
    match keep {
        None => Seq::empty(),
        Some(k) => (if k.contains(ModCode::a) {
            Seq::empty()
        } else {
            seq![CollapseMethod::ReDistribute(ModCode::a)]
        }) + (if k.contains(ModCode::h) {
            Seq::empty()
        } else {
            seq![CollapseMethod::ReDistribute(ModCode::h)]
        }) + (if k.contains(ModCode::m) {
            Seq::empty()
        } else {
            seq![CollapseMethod::ReDistribute(ModCode::m)]
        }),
    }
}

/// `groups` are the record's parsed groups with the codes outside the
/// keep-set redistributed.
pub open spec fn cached_from(groups: Seq<ModGroupSpec>, record: &ModRecord, keep: Option<Seq<ModCode>>) -> bool {
    &&& record.mm is Some
    &&& exists|gs: Seq<ModGroupSpec>|
        #[trigger] parsed_from(gs, record.mm->Some_0@, record.ml@, forward_seq_spec(record.seq@, record.is_reverse))
            && groups == collapse_all_spec(gs, restrict_methods(keep))
}

pub proof fn lemma_cached_groups_wf(groups: Seq<ModGroupSpec>, record: &ModRecord, keep: Option<Seq<ModCode>>)
    requires
        cached_from(groups, record, keep),
    ensures
        groups_wf(groups),
{
    let gs = choose|gs: Seq<ModGroupSpec>|
        #[trigger] parsed_from(gs, record.mm->Some_0@, record.ml@, forward_seq_spec(record.seq@, record.is_reverse))
            && groups == collapse_all_spec(gs, restrict_methods(keep));
    lemma_parsed_groups_wf(gs, record.mm->Some_0@, record.ml@, forward_seq_spec(record.seq@, record.is_reverse));
    lemma_collapse_all_shape(gs, restrict_methods(keep));
    assert forall|k: int| 0 <= k < groups.len() implies (#[trigger] groups[k]).probs.len() == groups[k].positions.len() by {
        assert(gs[k].probs.len() == gs[k].positions.len());
    }
}

pub fn bytes_eq(a: &Vec<u8>, b: &Vec<u8>) -> (r: bool)
    ensures
        r == (a@ == b@),
{
    if a.len() != b.len() {
        return false;
    }
    let mut i: usize = 0;
    while i < a.len()
        invariant
            i <= a@.len(),
            a@.len() == b@.len(),
            forall|k: int| 0 <= k < i ==> a@[k] == b@[k],
        decreases a@.len() - i,
    {
        if a[i] != b[i] {
            return false;
        }
        i = i + 1;
    }
    proof {
        assert(a@ =~= b@);
    }
    true
}

pub fn clone_bytes(v: &Vec<u8>) -> (r: Vec<u8>)
    ensures
        r@ == v@,
{
    let mut out: Vec<u8> = Vec::new();
    let mut i: usize = 0;
    while i < v.len()
        invariant
            i <= v@.len(),
            out@ == v@.subrange(0, i as int),
        decreases v@.len() - i,
    {
        out.push(v[i]);
        proof {
            assert(out@ =~= v@.subrange(0, i as int + 1));
        }
        i = i + 1;
    }
    proof {
        assert(v@.subrange(0, i as int) =~= v@);
    }
    out
}

fn clone_pairs(v: &Vec<(usize, u64)>) -> (r: Vec<(usize, u64)>)
    ensures
        r@ == v@,
{
    let mut out: Vec<(usize, u64)> = Vec::new();
    let mut i: usize = 0;
    while i < v.len()
        invariant
            i <= v@.len(),
            out@ == v@.subrange(0, i as int),
        decreases v@.len() - i,
    {
        out.push(v[i]);
        proof {
            assert(out@ =~= v@.subrange(0, i as int + 1));
        }
        i = i + 1;
    }
    proof {
        assert(v@.subrange(0, i as int) =~= v@);
    }
    out
}

/// Each group lists one probability vector per position.
pub open spec fn groups_wf(gs: Seq<ModGroupSpec>) -> bool {
    forall|k: int| 0 <= k < gs.len() ==> (#[trigger] gs[k]).probs.len() == gs[k].positions.len()
}

pub proof fn lemma_parsed_groups_wf(gs: Seq<ModGroupSpec>, mm: Seq<u8>, ml: Seq<u8>, seq: Seq<u8>)
    requires
        parsed_from(gs, mm, ml, seq),
    ensures
        groups_wf(gs),
{
    let raws = choose|raws: Seq<MmGroupSpec>| #[trigger] mm_bytes(raws) == mm && parsed_with(gs, raws, ml, seq);
    assert forall|k: int| 0 <= k < gs.len() implies (#[trigger] gs[k]).probs.len() == gs[k].positions.len() by {
        assert(group_parsed(gs[k], raws[k], seq, ml, ml_needed(raws.subrange(0, k))));
    }
}

/// A record the cache puts in its skip set: its tags are missing or do not
/// parse, or (unless allowed) they read unlisted residues as canonical.
pub open spec fn unusable(force_allow: bool, record: &ModRecord) -> bool {
    ||| !record_tags_parse(record)
    ||| (!force_allow && exists|gs: Seq<ModGroupSpec>|
        #[trigger] parsed_from(gs, record.mm->Some_0@, record.ml@, forward_seq_spec(record.seq@, record.is_reverse))
            && any_implicit(gs))
}

pub open spec fn any_implicit(gs: Seq<ModGroupSpec>) -> bool {
    exists|k: int| 0 <= k < gs.len() && is_implicit((#[trigger] gs[k]).skip_mode)
}

impl ReadCache {
    pub fn new(collapse_method: Option<CollapseMethod>, force_allow: bool) -> (r: ReadCache)
        ensures
            r.reads@.len() == 0,
            r.skip_set@.len() == 0,
            r.collapse_method == collapse_method,
            r.force_allow == force_allow,
            r.keep_view() is None,
    {
        ReadCache { reads: Vec::new(), skip_set: Vec::new(), collapse_method, force_allow, restrict_mod_bases: None }
    }

    pub open spec fn keep_view(&self) -> Option<Seq<ModCode>> {
        match self.restrict_mod_bases {
            Some(v) => Some(v@),
            None => None,
        }
    }

    /// A cache that keeps only the given modification codes.
    pub fn with_restriction(self, keep: Vec<ModCode>) -> (r: ReadCache)
        ensures
            r.keep_view() == Some(keep@),
            r.reads@ == self.reads@,
            r.skip_set@ == self.skip_set@,
            r.collapse_method == self.collapse_method,
            r.force_allow == self.force_allow,
    {
        ReadCache { restrict_mod_bases: Some(keep), ..self }
    }

    /// The redistributions the keep-set calls for.
    pub fn restriction_methods(&self) -> (r: Vec<CollapseMethod>)
        ensures
            r@ == restrict_methods(self.keep_view()),
    {
        let mut out: Vec<CollapseMethod> = Vec::new();
        match &self.restrict_mod_bases {
            None => {},
            Some(keep) => {
                if !contains_code(keep, ModCode::a) {
                    out.push(CollapseMethod::ReDistribute(ModCode::a));
                }
                if !contains_code(keep, ModCode::h) {
                    out.push(CollapseMethod::ReDistribute(ModCode::h));
                }
                if !contains_code(keep, ModCode::m) {
                    out.push(CollapseMethod::ReDistribute(ModCode::m));
                }
            },
        }
        proof {
            assert(out@ =~= restrict_methods(self.keep_view()));
        }
        out
    }

    /// The index of the first cached read with this name.
    pub fn find(&self, name: &Vec<u8>) -> (r: Option<usize>)
        ensures
            r matches Some(i) ==> i as int == find_read(self.reads@, name@) && i < self.reads@.len(),
            r is None ==> find_read(self.reads@, name@) < 0,
    {
        let mut i: usize = 0;
        while i < self.reads.len()
            invariant
                i <= self.reads@.len(),
                find_read(self.reads@.subrange(0, i as int), name@) < 0,
            decreases self.reads@.len() - i,
        {
            proof {
                assert(self.reads@.subrange(0, i as int + 1).drop_last() =~= self.reads@.subrange(0, i as int));
            }
            if bytes_eq(&self.reads[i].name, name) {
                proof {
                    lemma_find_read_prefix(self.reads@, name@, i as int);
                }
                return Some(i);
            }
            i = i + 1;
        }
        proof {
            assert(self.reads@.subrange(0, i as int) =~= self.reads@);
        }
        None
    }

    pub fn is_skipped(&self, name: &Vec<u8>) -> (r: bool)
        ensures
            r == self.skip_set@.map_values(|n: Vec<u8>| n@).contains(name@),
    {
        let ghost names = self.skip_set@.map_values(|n: Vec<u8>| n@);
        let mut i: usize = 0;
        while i < self.skip_set.len()
            invariant
                i <= self.skip_set@.len(),
                names == self.skip_set@.map_values(|n: Vec<u8>| n@),
                forall|k: int| 0 <= k < i ==> names[k] != name@,
            decreases self.skip_set@.len() - i,
        {
            if bytes_eq(&self.skip_set[i], name) {
                proof {
                    assert(names[i as int] == name@);
                }
                return true;
            }
            i = i + 1;
        }
        false
    }

    /// Parses a record's tags into the cache, or puts its name in the skip
    /// set where they are missing, malformed, or (unless allowed) implicit.
    pub fn add_record(&mut self, record: &ModRecord)
        ensures
            final(self).restrict_mod_bases == old(self).restrict_mod_bases,
            final(self).collapse_method == old(self).collapse_method,
            final(self).force_allow == old(self).force_allow,
            final(self).reads@.len() >= old(self).reads@.len(),
            forall|i: int| 0 <= i < old(self).reads@.len() ==> final(self).reads@[i] == old(self).reads@[i],
            final(self).reads@.len() == old(self).reads@.len() + 1 ==> ({
                let c = final(self).reads@.last();
                &&& c.name@ == record.name@
                &&& c.aligned_pairs@ == record.aligned_pairs@
                &&& record.mm is Some
                &&& cached_from(info_view(c.groups@), record, old(self).keep_view())
                &&& (!old(self).force_allow ==> !any_implicit(info_view(c.groups@)))
            }),
            final(self).reads@.len() == old(self).reads@.len() ==> final(self).skip_set@ == old(
                self,
            ).skip_set@.push(final(self).skip_set@.last()) && final(self).skip_set@.last()@
                == record.name@,
            final(self).reads@.len() <= old(self).reads@.len() + 1,
            final(self).reads@.len() == old(self).reads@.len() + 1 ==> final(self).skip_set@
                == old(self).skip_set@,
            final(self).reads@.len() == old(self).reads@.len() ==> unusable(old(self).force_allow, record),
    {
        match parse_record(record) {
            Ok((info, _fwd)) => {
                let mut implicit = false;
                let mut k: usize = 0;
                while k < info.groups.len()
                    invariant
                        k <= info.groups@.len(),
                        implicit == exists|j: int|
                            0 <= j < k && is_implicit(#[trigger] info.groups@[j].skip_mode),
                    decreases info.groups@.len() - k,
                {
                    if info.groups[k].skip_mode != SkipMode::Ambiguous {
                        implicit = true;
                    }
                    k = k + 1;
                }
                proof {
                    let gv = info_view(info.groups@);
                    if any_implicit(gv) {
                        let j = choose|j: int| 0 <= j < gv.len() && is_implicit((#[trigger] gv[j]).skip_mode);
                        assert(gv[j] == info.groups@[j]@);
                    }
                    if implicit {
                        let j = choose|j: int| 0 <= j < k && is_implicit(#[trigger] info.groups@[j].skip_mode);
                        assert(gv[j] == info.groups@[j]@);
                    }
                }
                if implicit && !self.force_allow {
                    proof {
                        let gv = info_view(info.groups@);
                        let j = choose|j: int| 0 <= j < info.groups@.len() && is_implicit(#[trigger] info.groups@[j].skip_mode);
                        assert(gv[j] == info.groups@[j]@);
                        assert(any_implicit(gv));
                        assert(parsed_from(gv, record.mm->Some_0@, record.ml@, forward_seq_spec(record.seq@, record.is_reverse)));
                    }
                    self.skip_set.push(clone_bytes(&record.name));
                } else {
                    let ghost parsed = info_view(info.groups@);
                    let methods = self.restriction_methods();
                    let kept = info.collapse_all(&methods);
                    proof {
                        lemma_collapse_all_shape(parsed, methods@);
                        let cv = info_view(kept.groups@);
                        assert(parsed_from(parsed, record.mm->Some_0@, record.ml@, forward_seq_spec(record.seq@, record.is_reverse)));
                        if !self.force_allow && any_implicit(cv) {
                            let j = choose|j: int| 0 <= j < cv.len() && is_implicit((#[trigger] cv[j]).skip_mode);
                            assert(cv[j].skip_mode == parsed[j].skip_mode);
                            assert(parsed[j] == info.groups@[j]@);
                        }
                    }
                    let cached = CachedRead {
                        name: clone_bytes(&record.name),
                        groups: kept.groups,
                        aligned_pairs: clone_pairs(&record.aligned_pairs),
                    };
                    self.reads.push(cached);
                }
            },
            Err(_) => {
                self.skip_set.push(clone_bytes(&record.name));
            },
        }
    }
}

proof fn lemma_find_read_prefix(reads: Seq<CachedRead>, name: Seq<u8>, i: int)
    requires
        0 <= i < reads.len(),
        reads[i].name@ == name,
        find_read(reads.subrange(0, i), name) < 0,
    ensures
        find_read(reads, name) == i,
    decreases reads.len(),
{
    if i == reads.len() - 1 {
        assert(reads.drop_last() =~= reads.subrange(0, i));
    } else {
        assert(reads.drop_last().subrange(0, i) =~= reads.subrange(0, i));
        lemma_find_read_prefix(reads.drop_last(), name, i);
    }
}

proof fn lemma_first_index_of(s: Seq<usize>, q: usize)
    ensures
        -1 <= first_index_of(s, q) < s.len(),
        first_index_of(s, q) >= 0 ==> s[first_index_of(s, q)] == q,
        first_index_of(s, q) >= 0 <==> s.contains(q),
        first_index_of(s, q) >= 0 ==> forall|j: int| 0 <= j < first_index_of(s, q) ==> s[j] != q,
    decreases s.len(),
{
    if s.len() > 0 {
        lemma_first_index_of(s.drop_last(), q);
        assert forall|j: int| 0 <= j < s.len() - 1 implies s.drop_last()[j] == s[j] by {}
        if s.contains(q) && first_index_of(s.drop_last(), q) < 0 {
            let j = choose|j: int| 0 <= j < s.len() && s[j] == q;
            if j < s.len() - 1 {
                assert(s.drop_last()[j] == q);
            }
        }
        if first_index_of(s, q) >= 0 {
            assert(s[first_index_of(s, q)] == q);
        }
    }
}

pub fn first_index(s: &Vec<usize>, q: usize) -> (r: Option<usize>)
    ensures
        r matches Some(i) ==> i as int == first_index_of(s@, q) && i < s@.len(),
        r is None ==> first_index_of(s@, q) < 0,
{
    let mut i: usize = 0;
    while i < s.len()
        invariant
            i <= s@.len(),
            first_index_of(s@.subrange(0, i as int), q) < 0,
        decreases s@.len() - i,
    {
        proof {
            assert(s@.subrange(0, i as int + 1).drop_last() =~= s@.subrange(0, i as int));
        }
        if s[i] == q {
            proof {
                lemma_first_index_of(s@.subrange(0, i as int), q);
                lemma_first_index_of(s@, q);
                assert forall|j: int| 0 <= j < i implies s@[j] != q by {
                    assert(s@.subrange(0, i as int)[j] == s@[j]);
                    if s@[j] == q {
                        assert(s@.subrange(0, i as int).contains(q));
                    }
                }
            }
            return Some(i);
        }
        i = i + 1;
    }
    proof {
        assert(s@.subrange(0, i as int) =~= s@);
    }
    None
}

fn query_pos(pairs: &Vec<(usize, u64)>, r: u64) -> (res: Option<usize>)
    ensures
        res matches Some(j) ==> j as int == query_pos_of(pairs@, r) && j < pairs@.len(),
        res is None ==> query_pos_of(pairs@, r) < 0,
{
    let mut i: usize = 0;
    while i < pairs.len()
        invariant
            i <= pairs@.len(),
            query_pos_of(pairs@.subrange(0, i as int), r) < 0,
        decreases pairs@.len() - i,
    {
        proof {
            assert(pairs@.subrange(0, i as int + 1).drop_last() =~= pairs@.subrange(0, i as int));
        }
        if pairs[i].1 == r {
            proof {
                lemma_query_pos_prefix(pairs@, r, i as int);
            }
            return Some(i);
        }
        i = i + 1;
    }
    proof {
        assert(pairs@.subrange(0, i as int) =~= pairs@);
    }
    None
}

proof fn lemma_query_pos_prefix(pairs: Seq<(usize, u64)>, r: u64, i: int)
    requires
        0 <= i < pairs.len(),
        pairs[i].1 == r,
        query_pos_of(pairs.subrange(0, i), r) < 0,
    ensures
        query_pos_of(pairs, r) == i,
    decreases pairs.len(),
{
    if i == pairs.len() - 1 {
        assert(pairs.drop_last() =~= pairs.subrange(0, i));
    } else {
        assert(pairs.drop_last().subrange(0, i) =~= pairs.subrange(0, i));
        lemma_query_pos_prefix(pairs.drop_last(), r, i);
    }
}

impl CachedRead {
    /// The read's call at reference position `r` for one base and mod strand.
    pub fn lookup(
        &self,
        base: DnaBase,
        strand: Strand,
        r: u64,
        method: &Option<CollapseMethod>,
        threshold: u64,
    ) -> (res: Option<BaseModCall>)
        requires
            groups_wf(info_view(self.groups@)),
        ensures
            res == lookup_spec(info_view(self.groups@), self.aligned_pairs@, base, strand, r, *method, threshold),
    {
        let ghost gv = info_view(self.groups@);
        let j = match query_pos(&self.aligned_pairs, r) {
            Some(j) => j,
            None => {
                return None;
            },
        };
        let q = self.aligned_pairs[j].0;
        let mut entries: Vec<(ModCode, u64)> = Vec::new();
        let mut found = false;
        let mut k: usize = 0;
        while k < self.groups.len()
            invariant
                k <= self.groups@.len(),
                gv == info_view(self.groups@),
                groups_wf(gv),
                entries@ == entries_at(gv.subrange(0, k as int), base, strand, q),
                found == has_call_at(gv.subrange(0, k as int), base, strand, q),
            decreases self.groups@.len() - k,
        {
            let g = &self.groups[k];
            let ghost pre = gv.subrange(0, k as int);
            let ghost pre1 = gv.subrange(0, k as int + 1);
            proof {
                assert(pre1.drop_last() =~= pre);
                assert(pre1.last() == g@);
                assert(gv[k as int] == g@);
                lemma_first_index_of(g.positions@, q);
            }
            if g.canonical_base == base && g.strand == strand {
                match first_index(&g.positions, q) {
                    Some(i) => {
                        let e = &g.probs[i].entries;
                        let mut c: usize = 0;
                        let ghost before = entries@;
                        while c < e.len()
                            invariant
                                c <= e@.len(),
                                entries@ == before + e@.subrange(0, c as int),
                            decreases e@.len() - c,
                        {
                            entries.push(e[c]);
                            proof {
                                assert(entries@ =~= before + e@.subrange(0, c as int + 1));
                            }
                            c = c + 1;
                        }
                        proof {
                            assert(e@.subrange(0, c as int) =~= e@);
                            assert(g@.probs[i as int] == g.probs@[i as int]@);
                            assert(pre1[k as int] == g@);
                        }
                        found = true;
                    },
                    None => {},
                }
            }
            proof {
                assert(entries@ =~= entries_at(pre1, base, strand, q));
                if has_call_at(pre, base, strand, q) {
                    let kk = choose|kk: int| 0 <= kk < pre.len() && (#[trigger] pre[kk]).canonical_base == base && pre[kk].strand == strand
                        && pre[kk].positions.contains(q);
                    assert(pre1[kk] == pre[kk]);
                }
                if has_call_at(pre1, base, strand, q) {
                    let kk = choose|kk: int| 0 <= kk < pre1.len() && (#[trigger] pre1[kk]).canonical_base == base && pre1[kk].strand == strand
                        && pre1[kk].positions.contains(q);
                    if kk < k {
                        assert(pre[kk] == pre1[kk]);
                    }
                }
            }
            k = k + 1;
        }
        proof {
            assert(gv.subrange(0, k as int) =~= gv);
        }
        if !found {
            return None;
        }
        let probs = BaseModProbs { entries };
        let collapsed = match method {
            Some(m) => probs.collapse(m),
            None => probs,
        };
        let call = collapsed.argmax_base_mod_call();
        let thresholded = match call {
            BaseModCall::Canonical(p) => if p > threshold {
                call
            } else {
                BaseModCall::Filtered
            },
            BaseModCall::Modified(p, _) => if p > threshold {
                call
            } else {
                BaseModCall::Filtered
            },
            BaseModCall::Filtered => call,
        };
        Some(thresholded)
    }
}

/// The codes, after the method, of the groups on one mod strand.
pub open spec fn observed_codes(gs: Seq<ModGroupSpec>, strand: Strand, method: Option<CollapseMethod>) -> Seq<ModCode>
    decreases gs.len(),
{
    if gs.len() == 0 {
        Seq::empty()
    } else {
        observed_codes(gs.drop_last(), strand, method) + if gs.last().strand == strand {
            match method {
                Some(m) => collapse_codes(gs.last().mod_codes, m),
                None => gs.last().mod_codes,
            }
        } else {
            Seq::empty()
        }
    }
}

impl CachedRead {
    /// The modification codes the read reports on one mod strand.
    pub fn mod_codes(&self, strand: Strand, method: &Option<CollapseMethod>) -> (r: Vec<ModCode>)
        ensures
            r@ == observed_codes(info_view(self.groups@), strand, *method),
    {
        let ghost gv = info_view(self.groups@);
        let mut out: Vec<ModCode> = Vec::new();
        let mut k: usize = 0;
        while k < self.groups.len()
            invariant
                k <= self.groups@.len(),
                gv == info_view(self.groups@),
                out@ == observed_codes(gv.subrange(0, k as int), strand, *method),
            decreases self.groups@.len() - k,
        {
            let g = &self.groups[k];
            proof {
                assert(gv.subrange(0, k as int + 1).drop_last() =~= gv.subrange(0, k as int));
                assert(gv[k as int] == g@);
            }
            if g.strand == strand {
                let codes = match method {
                    Some(m) => g.collapse(m).mod_codes,
                    None => clone_codes(&g.mod_codes),
                };
                let mut c: usize = 0;
                let ghost before = out@;
                while c < codes.len()
                    invariant
                        c <= codes@.len(),
                        out@ == before + codes@.subrange(0, c as int),
                    decreases codes@.len() - c,
                {
                    out.push(codes[c]);
                    proof {
                        assert(out@ =~= before + codes@.subrange(0, c as int + 1));
                    }
                    c = c + 1;
                }
                proof {
                    assert(codes@.subrange(0, c as int) =~= codes@);
                }
            }
            proof {
                assert(out@ =~= observed_codes(gv.subrange(0, k as int + 1), strand, *method));
            }
            k = k + 1;
        }
        proof {
            assert(gv.subrange(0, k as int) =~= gv);
        }
        out
    }
}

impl ReadCache {
    /// Every cached read lists one probability vector per position.
    pub open spec fn wf(&self) -> bool {
        forall|i: int| 0 <= i < self.reads@.len() ==> groups_wf(info_view(#[trigger] self.reads@[i].groups@))
    }

    pub open spec fn skipped(&self, name: Seq<u8>) -> bool {
        self.skip_set@.map_values(|n: Vec<u8>| n@).contains(name)
    }

    /// Makes sure the record is cached or skipped, parsing its tags if
    /// neither.
    pub fn ensure_record(&mut self, record: &ModRecord)
        requires
            old(self).wf(),
        ensures
            final(self).restrict_mod_bases == old(self).restrict_mod_bases,
            final(self).wf(),
            final(self).collapse_method == old(self).collapse_method,
            old(self).skipped(record.name@) || find_read(old(self).reads@, record.name@) >= 0
                ==> *final(self) == *old(self),
            final(self).skipped(record.name@) || find_read(final(self).reads@, record.name@) >= 0,
            find_read(old(self).reads@, record.name@) < 0 && find_read(final(self).reads@, record.name@)
                >= 0 ==> ({
                let c = final(self).reads@[find_read(final(self).reads@, record.name@)];
                &&& c.aligned_pairs@ == record.aligned_pairs@
                &&& record.mm is Some
                &&& cached_from(info_view(c.groups@), record, old(self).keep_view())
            }),
            !old(self).skipped(record.name@) && find_read(old(self).reads@, record.name@) < 0
                && !unusable(old(self).force_allow, record) ==> !final(self).skipped(record.name@)
                && find_read(final(self).reads@, record.name@) >= 0,
            !old(self).skipped(record.name@) && find_read(old(self).reads@, record.name@) < 0
                && final(self).skipped(record.name@) ==> unusable(old(self).force_allow, record),
            final(self).force_allow == old(self).force_allow,
            forall|i: int| 0 <= i < old(self).reads@.len() ==> final(self).reads@[i] == old(self).reads@[i],
            old(self).reads@.len() <= final(self).reads@.len(),
            forall|n: Seq<u8>| old(self).skipped(n) ==> final(self).skipped(n),
            forall|n: Seq<u8>| final(self).skipped(n) ==> old(self).skipped(n) || (n == record.name@
                && unusable(old(self).force_allow, record)),
            final(self).reads@.len() <= old(self).reads@.len() + 1,
            final(self).reads@.len() == old(self).reads@.len() + 1 ==> ({
                let c = final(self).reads@.last();
                &&& c.name@ == record.name@
                &&& c.aligned_pairs@ == record.aligned_pairs@
                &&& record.mm is Some
                &&& cached_from(info_view(c.groups@), record, old(self).keep_view())
            }),
    {
        if self.is_skipped(&record.name) {
            return;
        }
        if self.find(&record.name).is_some() {
            return;
        }
        let ghost old_reads = self.reads@;
        let ghost old_skip = self.skip_set@;
        self.add_record(record);
        proof {
            if self.reads@.len() == old_reads.len() + 1 {
                let c = self.reads@.last();
                lemma_cached_groups_wf(info_view(c.groups@), record, old(self).keep_view());
                assert(old_reads =~= self.reads@.drop_last());
                lemma_find_read_push(old_reads, c, record.name@);
                assert forall|i: int| 0 <= i < self.reads@.len() implies groups_wf(
                    info_view(#[trigger] self.reads@[i].groups@),
                ) by {
                    if i < old_reads.len() {
                        assert(self.reads@[i] == old_reads[i]);
                    }
                }
            } else {
                assert(self.reads@ =~= old_reads);
                let names = self.skip_set@.map_values(|n: Vec<u8>| n@);
                let old_names = old_skip.map_values(|n: Vec<u8>| n@);
                assert(names[names.len() - 1] == record.name@);
                assert forall|n: Seq<u8>| old_names.contains(n) implies names.contains(n) by {
                    let j = choose|j: int| 0 <= j < old_names.len() && old_names[j] == n;
                    assert(names[j] == n);
                }
                assert forall|n: Seq<u8>| names.contains(n) implies old_names.contains(n) || n == record.name@ by {
                    let j = choose|j: int| 0 <= j < names.len() && names[j] == n;
                    if j < old_names.len() {
                        assert(old_names[j] == n);
                    }
                }
            }
        }
    }

    /// The calls of a read at reference position `position`: on the read's
    /// `+` strand for the base seen there, and on its `-` strand for the
    /// complement. Reads without usable tags give no calls.
    pub fn get_mod_call(
        &mut self,
        record: &ModRecord,
        position: u64,
        read_base: DnaBase,
        threshold: u64,
    ) -> (r: (Option<BaseModCall>, Option<BaseModCall>))
        requires
            old(self).wf(),
        ensures
            final(self).restrict_mod_bases == old(self).restrict_mod_bases,
            final(self).skipped(record.name@) || find_read(final(self).reads@, record.name@) >= 0,
            !old(self).skipped(record.name@) && find_read(old(self).reads@, record.name@) < 0
                && !unusable(old(self).force_allow, record) ==> !final(self).skipped(record.name@),
            !old(self).skipped(record.name@) && find_read(old(self).reads@, record.name@) < 0
                && final(self).skipped(record.name@) ==> unusable(old(self).force_allow, record),
            final(self).force_allow == old(self).force_allow,
            forall|i: int| 0 <= i < old(self).reads@.len() ==> final(self).reads@[i] == old(self).reads@[i],
            old(self).reads@.len() <= final(self).reads@.len(),
            forall|n: Seq<u8>| old(self).skipped(n) ==> final(self).skipped(n),
            final(self).wf(),
            final(self).collapse_method == old(self).collapse_method,
            old(self).skipped(record.name@) || find_read(old(self).reads@, record.name@) >= 0
                ==> *final(self) == *old(self),
            final(self).skipped(record.name@) ==> r == (None::<BaseModCall>, None::<BaseModCall>),
            !final(self).skipped(record.name@) ==> ({
                let c = final(self).reads@[find_read(final(self).reads@, record.name@)];
                r == (
                    lookup_spec(info_view(c.groups@), c.aligned_pairs@, read_base, Strand::Positive, position, final(self).collapse_method, threshold),
                    lookup_spec(info_view(c.groups@), c.aligned_pairs@, base_complement(read_base), Strand::Negative, position, final(self).collapse_method, threshold),
                )
            }),
            find_read(old(self).reads@, record.name@) < 0 && !final(self).skipped(record.name@) ==> ({
                let c = final(self).reads@[find_read(final(self).reads@, record.name@)];
                &&& c.aligned_pairs@ == record.aligned_pairs@
                &&& record.mm is Some
                &&& cached_from(info_view(c.groups@), record, old(self).keep_view())
            }),
    {
        self.ensure_record(record);
        if self.is_skipped(&record.name) {
            return (None, None);
        }
        match self.find(&record.name) {
            Some(i) => {
                let c = &self.reads[i];
                proof {
                    assert(groups_wf(info_view(self.reads@[i as int].groups@)));
                }
                let pos_call = c.lookup(read_base, Strand::Positive, position, &self.collapse_method, threshold);
                let neg_call = c.lookup(read_base.complement(), Strand::Negative, position, &self.collapse_method, threshold);
                (pos_call, neg_call)
            },
            None => (None, None),
        }
    }
}

proof fn lemma_find_read_push(reads: Seq<CachedRead>, c: CachedRead, name: Seq<u8>)
    requires
        find_read(reads, name) < 0,
        c.name@ == name,
    ensures
        find_read(reads.push(c), name) == reads.len(),
{
    assert(reads.push(c).drop_last() =~= reads);
}

/// The positions that the `+` strand groups of one base list, group after
/// group.
pub open spec fn base_positions(gs: Seq<ModGroupSpec>, base: DnaBase) -> Seq<usize>
    decreases gs.len(),
{
    if gs.len() == 0 {
        Seq::empty()
    } else {
        base_positions(gs.drop_last(), base) + if gs.last().canonical_base == base && gs.last().strand
            == Strand::Positive {
            gs.last().positions
        } else {
            Seq::empty()
        }
    }
}

/// Each value once, at its first place.
pub open spec fn first_occurrences(s: Seq<usize>) -> Seq<usize>
    decreases s.len(),
{
    if s.len() == 0 {
        Seq::empty()
    } else {
        first_occurrences(s.drop_last()) + if s.drop_last().contains(s.last()) {
            Seq::empty()
        } else {
            seq![s.last()]
        }
    }
}

/// Each position that the `+` strand groups of one base list, once, with
/// the entries of all those groups there (collapsed by the method).
pub open spec fn base_probs_spec(gs: Seq<ModGroupSpec>, base: DnaBase, method: Option<CollapseMethod>) -> Seq<(usize, ModEntries)> {
    first_occurrences(base_positions(gs, base)).map_values(
        |q: usize| (q, collapse_opt(entries_at(gs, base, Strand::Positive, q), method)),
    )
}

pub open spec fn position_probs_view(v: Seq<(usize, BaseModProbs)>) -> Seq<(usize, ModEntries)> {
    v.map_values(|p: (usize, BaseModProbs)| (p.0, p.1@))
}

/// The entries the groups of one base and mod strand list at `q`.
fn gather_entries(groups: &Vec<ModGroup>, base: DnaBase, strand: Strand, q: usize) -> (r: Vec<(ModCode, u64)>)
    requires
        groups_wf(info_view(groups@)),
    ensures
        r@ == entries_at(info_view(groups@), base, strand, q),
{
    let ghost gv = info_view(groups@);
    let mut entries: Vec<(ModCode, u64)> = Vec::new();
    let mut k: usize = 0;
    while k < groups.len()
        invariant
            k <= groups@.len(),
            gv == info_view(groups@),
            groups_wf(gv),
            entries@ == entries_at(gv.subrange(0, k as int), base, strand, q),
        decreases groups@.len() - k,
    {
        let g = &groups[k];
        let ghost pre = gv.subrange(0, k as int);
        let ghost pre1 = gv.subrange(0, k as int + 1);
        proof {
            assert(pre1.drop_last() =~= pre);
            assert(pre1.last() == g@);
            assert(gv[k as int] == g@);
            lemma_first_index_of(g.positions@, q);
        }
        if g.canonical_base == base && g.strand == strand {
            match first_index(&g.positions, q) {
                Some(i) => {
                    let e = &g.probs[i].entries;
                    let mut c: usize = 0;
                    let ghost before = entries@;
                    while c < e.len()
                        invariant
                            c <= e@.len(),
                            entries@ == before + e@.subrange(0, c as int),
                        decreases e@.len() - c,
                    {
                        entries.push(e[c]);
                        proof {
                            assert(entries@ =~= before + e@.subrange(0, c as int + 1));
                        }
                        c = c + 1;
                    }
                    proof {
                        assert(e@.subrange(0, c as int) =~= e@);
                        assert(g@.probs[i as int] == g.probs@[i as int]@);
                    }
                },
                None => {},
            }
        }
        proof {
            assert(entries@ =~= entries_at(pre1, base, strand, q));
        }
        k = k + 1;
    }
    proof {
        assert(gv.subrange(0, k as int) =~= gv);
    }
    entries
}

fn contains_position(v: &Vec<usize>, q: usize) -> (r: bool)
    ensures
        r == v@.contains(q),
{
    let mut i: usize = 0;
    while i < v.len()
        invariant
            i <= v@.len(),
            forall|k: int| 0 <= k < i ==> v@[k] != q,
        decreases v@.len() - i,
    {
        if v[i] == q {
            return true;
        }
        i = i + 1;
    }
    false
}

impl ReadCache {
    /// Parses tags against the forward read and returns each position of one
    /// canonical base once, with the probabilities that all its `+` strand
    /// groups list there, collapsed by the cache's method.
    pub fn get_mod_base_probs(
        &self,
        raw_mm: &Vec<u8>,
        raw_ml: &Vec<u8>,
        canonical_base: DnaBase,
        seq: &Vec<u8>,
    ) -> (r: Result<Vec<(usize, BaseModProbs)>, InputError>)
        ensures
            r matches Ok(v) ==> exists|gs: Seq<ModGroupSpec>|
                #[trigger] parsed_from(gs, raw_mm@, raw_ml@, seq@) && position_probs_view(v@) == base_probs_spec(
                    collapse_all_spec(gs, restrict_methods(self.keep_view())),
                    canonical_base,
                    self.collapse_method,
                ),
            forall|raws: Seq<MmGroupSpec>| #[trigger] tags_parse(raws, raw_mm@, raw_ml@, seq@) ==> r is Ok,
    {
        let parsed = match ModBaseInfo::new(raw_mm, raw_ml, seq) {
            Ok(info) => info,
            Err(e) => {
                return Err(e);
            },
        };
        let ghost pv = info_view(parsed.groups@);
        let methods = self.restriction_methods();
        let info = parsed.collapse_all(&methods);
        let ghost gv = info_view(info.groups@);
        proof {
            lemma_parsed_groups_wf(pv, raw_mm@, raw_ml@, seq@);
            lemma_collapse_all_shape(pv, methods@);
            assert forall|k: int| 0 <= k < gv.len() implies (#[trigger] gv[k]).probs.len() == gv[k].positions.len() by {
                assert(pv[k].probs.len() == pv[k].positions.len());
            }
        }
        // the positions, group after group
        let mut cand: Vec<usize> = Vec::new();
        let mut k: usize = 0;
        while k < info.groups.len()
            invariant
                k <= info.groups@.len(),
                gv == info_view(info.groups@),
                cand@ == base_positions(gv.subrange(0, k as int), canonical_base),
            decreases info.groups@.len() - k,
        {
            let g = &info.groups[k];
            proof {
                assert(gv[k as int] == g@);
                assert(gv.subrange(0, k as int + 1).drop_last() =~= gv.subrange(0, k as int));
            }
            if g.canonical_base == canonical_base && g.strand == Strand::Positive {
                let ghost before = cand@;
                let mut i: usize = 0;
                while i < g.positions.len()
                    invariant
                        i <= g.positions@.len(),
                        cand@ == before + g.positions@.subrange(0, i as int),
                    decreases g.positions@.len() - i,
                {
                    cand.push(g.positions[i]);
                    proof {
                        assert(cand@ =~= before + g.positions@.subrange(0, i as int + 1));
                    }
                    i = i + 1;
                }
                proof {
                    assert(g.positions@.subrange(0, i as int) =~= g.positions@);
                }
            }
            proof {
                assert(cand@ =~= base_positions(gv.subrange(0, k as int + 1), canonical_base));
            }
            k = k + 1;
        }
        proof {
            assert(gv.subrange(0, k as int) =~= gv);
        }
        // each position once
        let mut uniq: Vec<usize> = Vec::new();
        let mut i: usize = 0;
        while i < cand.len()
            invariant
                i <= cand@.len(),
                uniq@ == first_occurrences(cand@.subrange(0, i as int)),
                forall|x: usize| uniq@.contains(x) <==> cand@.subrange(0, i as int).contains(x),
            decreases cand@.len() - i,
        {
            let q = cand[i];
            let ghost pre = cand@.subrange(0, i as int);
            let ghost pre1 = cand@.subrange(0, i as int + 1);
            proof {
                assert(pre1.drop_last() =~= pre);
                assert(pre1.last() == q);
            }
            if !contains_position(&uniq, q) {
                let ghost u0 = uniq@;
                uniq.push(q);
                proof {
                    assert forall|x: usize| uniq@.contains(x) <==> pre1.contains(x) by {
                        if uniq@.contains(x) {
                            let j = choose|j: int| 0 <= j < uniq@.len() && uniq@[j] == x;
                            if j < u0.len() {
                                assert(u0.contains(x));
                                let m = choose|m: int| 0 <= m < pre.len() && pre[m] == x;
                                assert(pre1[m] == x);
                            } else {
                                assert(pre1[i as int] == x);
                            }
                        }
                        if pre1.contains(x) {
                            let m = choose|m: int| 0 <= m < pre1.len() && pre1[m] == x;
                            if m < i {
                                assert(pre[m] == x);
                                assert(u0.contains(x));
                                let j = choose|j: int| 0 <= j < u0.len() && u0[j] == x;
                                assert(uniq@[j] == x);
                            } else {
                                assert(uniq@[u0.len() as int] == x);
                            }
                        }
                    }
                }
            } else {
                proof {
                    assert forall|x: usize| uniq@.contains(x) <==> pre1.contains(x) by {
                        if pre1.contains(x) {
                            let m = choose|m: int| 0 <= m < pre1.len() && pre1[m] == x;
                            if m < i {
                                assert(pre[m] == x);
                            }
                        }
                        if pre.contains(x) {
                            let m = choose|m: int| 0 <= m < pre.len() && pre[m] == x;
                            assert(pre1[m] == x);
                        }
                    }
                }
            }
            proof {
                assert(uniq@ =~= first_occurrences(pre1));
            }
            i = i + 1;
        }
        proof {
            assert(cand@.subrange(0, i as int) =~= cand@);
        }
        let mut out: Vec<(usize, BaseModProbs)> = Vec::new();
        let mut j: usize = 0;
        while j < uniq.len()
            invariant
                j <= uniq@.len(),
                groups_wf(gv),
                gv == info_view(info.groups@),
                position_probs_view(out@) == uniq@.subrange(0, j as int).map_values(
                    |q: usize| (q, collapse_opt(entries_at(gv, canonical_base, Strand::Positive, q), self.collapse_method)),
                ),
            decreases uniq@.len() - j,
        {
            let q = uniq[j];
            let probs = BaseModProbs { entries: gather_entries(&info.groups, canonical_base, Strand::Positive, q) };
            let p = match &self.collapse_method {
                Some(m) => probs.collapse(m),
                None => probs,
            };
            proof {
                assert(probs@ == entries_at(gv, canonical_base, Strand::Positive, q));
                assert(p@ == collapse_opt(entries_at(gv, canonical_base, Strand::Positive, q), self.collapse_method));
            }
            let ghost before = out@;
            out.push((q, p));
            proof {
                assert(position_probs_view(out@) =~= position_probs_view(before).push((q, p@)));
                assert(uniq@.subrange(0, j as int + 1) =~= uniq@.subrange(0, j as int).push(q));
                assert(position_probs_view(out@) =~= uniq@.subrange(0, j as int + 1).map_values(
                    |q: usize| (q, collapse_opt(entries_at(gv, canonical_base, Strand::Positive, q), self.collapse_method)),
                ));
            }
            j = j + 1;
        }
        proof {
            assert(uniq@.subrange(0, j as int) =~= uniq@);
        }
        Ok(out)
    }
}

} // verus!
