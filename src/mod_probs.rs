//! Per-position modification probabilities, their transforms, and the call
//! that each position reduces to.
//!
//! A probability is held as an integer count of `1 / PROB_SCALE`. The scale
//! is 512 times the least common multiple of 1 to 16, so the midpoint of
//! every 8-bit ML bin is exact and splits evenly among up to 16 shares.
use vstd::prelude::*;

use crate::mod_base_code::{ModCode, canonical_base_of};

verus! {

/// Half the width of one 8-bit ML bin, in units of `1 / PROB_SCALE`.
pub const HALF_BIN: u64 = 720720;

/// The width of one 8-bit ML bin.
pub const BIN: u64 = 1441440;

/// Probability one.
pub const PROB_SCALE: u64 = 369008640;

/// The probability an ML byte stands for: the midpoint `(v + 0.5) / 256`.
pub open spec fn prob_of_ml_spec(v: u8) -> u64 {
    ((2 * v + 1) * HALF_BIN) as u64
}

/// The ML byte of a probability: `min(255, floor(p * 256))`.
pub open spec fn quantize_spec(p: u64) -> u8 {
    if p / BIN > 255 {
        255u8
    } else {
        (p / BIN) as u8
    }
}

pub fn prob_of_ml(v: u8) -> (r: u64)
    ensures
        r == prob_of_ml_spec(v),
        r <= PROB_SCALE,
        quantize_spec(r) == v,
{
    (2 * (v as u64) + 1) * HALF_BIN
}

pub fn quantize(p: u64) -> (r: u8)
    ensures
        r == quantize_spec(p),
{
    let q = p / BIN;
    if q > 255 {
        255
    } else {
        q as u8
    }
}

/// The (code, probability) pairs listed at one position; the canonical
/// probability is implicit.
pub type ModEntries = Seq<(ModCode, u64)>;

pub open spec fn sum_probs(e: ModEntries) -> int
    decreases e.len(),
{
    if e.len() == 0 {
        0
    } else {
        sum_probs(e.drop_last()) + e.last().1
    }
}

/// The implicit canonical probability: one less the listed mass, at least 0.
pub open spec fn canonical_prob(e: ModEntries) -> int {
    if sum_probs(e) <= PROB_SCALE {
        PROB_SCALE - sum_probs(e)
    } else {
        0
    }
}

pub open spec fn index_of_code(e: ModEntries, code: ModCode) -> int
    decreases e.len(),
{
    if e.len() == 0 {
        -1
    } else if index_of_code(e.drop_last(), code) >= 0 {
        index_of_code(e.drop_last(), code)
    } else if e.last().0 == code {
        e.len() - 1
    } else {
        -1
    }
}

pub open spec fn min_scale(x: int) -> u64 {
    if x > PROB_SCALE {
        PROB_SCALE
    } else {
        x as u64
    }
}

/// Removes `code` and shares its mass equally among the other listed codes
/// and the implicit canonical probability (the canonical share stays
/// implicit).
pub open spec fn redistribute_spec(e: ModEntries, code: ModCode) -> ModEntries {
    let i = index_of_code(e, code);
    if i < 0 {
        e
    } else {
        let share = e[i].1 / (e.len() as u64);
        e.remove(i).map_values(|p: (ModCode, u64)| (p.0, min_scale(p.1 + share)))
    }
}

/// Removes `code`; the implicit canonical probability takes its mass.
pub open spec fn drop_code_spec(e: ModEntries, code: ModCode) -> ModEntries {
    let i = index_of_code(e, code);
    if i < 0 {
        e
    } else {
        e.remove(i)
    }
}

/// Whether a code takes part in a conversion into `to`.
pub open spec fn merges_into(c: ModCode, from: Seq<ModCode>, to: ModCode) -> bool {
    from.contains(c) || c == to
}

/// The summed mass of the codes that take part in a conversion.
pub open spec fn merged_mass(e: ModEntries, from: Seq<ModCode>, to: ModCode) -> int
    decreases e.len(),
{
    if e.len() == 0 {
        0
    } else {
        merged_mass(e.drop_last(), from, to) + if merges_into(e.last().0, from, to) {
            e.last().1 as int
        } else {
            0
        }
    }
}

pub open spec fn any_merges(e: ModEntries, from: Seq<ModCode>, to: ModCode) -> bool {
    exists|i: int| 0 <= i < e.len() && merges_into(#[trigger] e[i].0, from, to)
}

/// The entries that a conversion keeps, in order, with `to` (if listed)
/// holding the merged mass.
pub open spec fn kept_entries(e: ModEntries, from: Seq<ModCode>, to: ModCode, merged: u64) -> ModEntries
    decreases e.len(),
{
    if e.len() == 0 {
        Seq::empty()
    } else {
        let rest = kept_entries(e.drop_last(), from, to, merged);
        if e.last().0 == to {
            rest.push((to, merged))
        } else if from.contains(e.last().0) {
            rest
        } else {
            rest.push(e.last())
        }
    }
}

/// Merges the mass of every code of `from` into `to` by summation, capped at
/// one, and drops the codes of `from`. `to` is appended where it was not
/// listed but a code of `from` was.
pub open spec fn convert_spec(e: ModEntries, from: Seq<ModCode>, to: ModCode) -> ModEntries {
    let merged = min_scale(merged_mass(e, from, to));
    let kept = kept_entries(e, from, to, merged);
    if index_of_code(e, to) < 0 && any_merges(e, from, to) {
        kept.push((to, merged))
    } else {
        kept
    }
}

/// The listed code of greatest probability, the last of equals; -1 if none.
pub open spec fn best_mod_index(e: ModEntries) -> int
    decreases e.len(),
{
    if e.len() == 0 {
        -1
    } else {
        let b = best_mod_index(e.drop_last());
        if b < 0 || e.last().1 >= e[b].1 {
            e.len() - 1
        } else {
            b
        }
    }
}

/// The call a position reduces to.
#[derive(Debug, Clone, Copy, PartialEq, Eq, Structural)]
pub enum BaseModCall {
    Canonical(u64),
    Modified(u64, ModCode),
    Filtered,
}

/// The most likely outcome of a position: the best listed modification
/// where its probability exceeds the canonical one, else the canonical call.
pub open spec fn argmax_call_spec(e: ModEntries) -> BaseModCall {
    let b = best_mod_index(e);
    if b >= 0 && e[b].1 > canonical_prob(e) {
        BaseModCall::Modified(e[b].1, e[b].0)
    } else {
        BaseModCall::Canonical(canonical_prob(e) as u64)
    }
}

/// How a modification code is taken out of, or merged within, a position.
#[derive(Debug, Clone, PartialEq, Eq)]
pub enum CollapseMethod {
    /// Remove the code and share its mass equally with the other options.
    ReDistribute(ModCode),
    /// Remove the code and give its mass to the canonical option.
    ReNormalize(ModCode),
    /// Merge the codes `from` into `to`.
    Convert { to: ModCode, from: Vec<ModCode> },
}

pub open spec fn collapse_spec(e: ModEntries, method: CollapseMethod) -> ModEntries {
    match method {
        CollapseMethod::ReDistribute(code) => redistribute_spec(e, code),
        CollapseMethod::ReNormalize(code) => drop_code_spec(e, code),
        CollapseMethod::Convert { to, from } => convert_spec(e, from@, to),
    }
}

/// The modification probabilities listed at one position of a read.
#[derive(Debug, Clone)]
pub struct BaseModProbs {
    pub entries: Vec<(ModCode, u64)>,
}

impl View for BaseModProbs {
    type V = ModEntries;

    open spec fn view(&self) -> ModEntries {
        self.entries@
    }
}

pub proof fn lemma_index_of_code(e: ModEntries, code: ModCode)
    ensures
        -1 <= index_of_code(e, code) < e.len(),
        index_of_code(e, code) >= 0 ==> e[index_of_code(e, code)].0 == code,
        index_of_code(e, code) < 0 ==> forall|j: int| 0 <= j < e.len() ==> e[j].0 != code,
        index_of_code(e, code) >= 0 ==> forall|j: int|
            0 <= j < index_of_code(e, code) ==> e[j].0 != code,
    decreases e.len(),
{
    if e.len() > 0 {
        lemma_index_of_code(e.drop_last(), code);
        assert forall|j: int| 0 <= j < e.len() - 1 implies e.drop_last()[j] == e[j] by {}
    }
}

pub proof fn lemma_sum_bounds(e: ModEntries)
    ensures
        sum_probs(e) >= 0,
        forall|i: int| 0 <= i < e.len() ==> e[i].1 <= sum_probs(e),
    decreases e.len(),
{
    if e.len() > 0 {
        lemma_sum_bounds(e.drop_last());
        assert forall|i: int| 0 <= i < e.len() implies e[i].1 <= sum_probs(e) by {
            if i < e.len() - 1 {
                assert(e.drop_last()[i] == e[i]);
            }
        }
    }
}

pub fn contains_code(v: &Vec<ModCode>, c: ModCode) -> (r: bool)
    ensures
        r == v@.contains(c),
{
    let mut i: usize = 0;
    while i < v.len()
        invariant
            i <= v@.len(),
            forall|k: int| 0 <= k < i ==> v@[k] != c,
        decreases v@.len() - i,
    {
        if v[i] == c {
            return true;
        }
        i = i + 1;
    }
    false
}

proof fn lemma_sum_remove(e: ModEntries, i: int)
    requires
        0 <= i < e.len(),
    ensures
        sum_probs(e.remove(i)) == sum_probs(e) - e[i].1,
    decreases e.len(),
{
    if i == e.len() - 1 {
        assert(e.remove(i) =~= e.drop_last());
    } else {
        lemma_sum_remove(e.drop_last(), i);
        assert(e.remove(i) =~= e.drop_last().remove(i).push(e.last()));
        assert(e.remove(i).drop_last() =~= e.drop_last().remove(i));
    }
}

proof fn lemma_sum_shift(e: ModEntries, share: u64)
    requires
        forall|j: int| 0 <= j < e.len() ==> #[trigger] e[j].1 + share <= PROB_SCALE,
    ensures
        sum_probs(e.map_values(|p: (ModCode, u64)| (p.0, min_scale(p.1 + share))))
            == sum_probs(e) + e.len() * share,
    decreases e.len(),
{
    let f = |p: (ModCode, u64)| (p.0, min_scale(p.1 + share));
    if e.len() > 0 {
        let d = e.drop_last();
        assert forall|j: int| 0 <= j < d.len() implies #[trigger] d[j].1 + share <= PROB_SCALE by {
            assert(d[j] == e[j]);
        }
        lemma_sum_shift(d, share);
        assert(e.map_values(f).drop_last() =~= d.map_values(f));
        assert(e[e.len() - 1].1 + share <= PROB_SCALE);
        assert(e.len() * share == (e.len() - 1) * share + share) by (nonlinear_arith);
    }
}

/// Redistributing a code of mass `p` among `k` options (the other listed
/// codes and the canonical one) raises the implicit canonical probability by
/// exactly `p / k`, where the listed mass is at most one and `k` divides `p`.
pub proof fn redistribute_raises_canonical_by_share(e: ModEntries, code: ModCode)
    requires
        index_of_code(e, code) >= 0,
        e.len() <= usize::MAX,
        sum_probs(e) <= PROB_SCALE,
        e[index_of_code(e, code)].1 % (e.len() as u64) == 0,
    ensures
        canonical_prob(redistribute_spec(e, code)) == canonical_prob(e) + e[index_of_code(
            e,
            code,
        )].1 / (e.len() as u64),
{
    lemma_index_of_code(e, code);
    let i = index_of_code(e, code);
    let n = e.len() as u64;
    let px = e[i].1;
    let share = px / n;
    let rest = e.remove(i);
    assert(n > 0 && n == e.len());
    assert(share <= px) by (nonlinear_arith)
        requires
            share == px / n,
            n > 0,
    ;
    lemma_sum_remove(e, i);
    lemma_sum_bounds(rest);
    assert forall|j: int| 0 <= j < rest.len() implies #[trigger] rest[j].1 + share <= PROB_SCALE by {}
    lemma_sum_shift(rest, share);
    assert(px == n * share) by (nonlinear_arith)
        requires
            px % n == 0,
            share == px / n,
            n > 0,
    ;
    assert(rest.len() == n - 1);
    assert((n - 1) * share == n * share - share) by (nonlinear_arith);
    lemma_sum_bounds(e);
}

impl BaseModProbs {
    /// Finds the first index of a code, if listed.
    pub fn index_of(&self, code: ModCode) -> (r: Option<usize>)
        ensures
            r matches Some(i) ==> i as int == index_of_code(self@, code) && i < self@.len(),
            r is None ==> index_of_code(self@, code) < 0,
    {
        let mut i: usize = 0;
        while i < self.entries.len()
            invariant
                i <= self@.len(),
                index_of_code(self@.subrange(0, i as int), code) < 0,
            decreases self@.len() - i,
        {
            proof {
                assert(self@.subrange(0, i as int + 1).drop_last() =~= self@.subrange(0, i as int));
            }
            if self.entries[i].0 == code {
                proof {
                    lemma_index_of_code(self@.subrange(0, i as int), code);
                    lemma_index_of_code(self@, code);
                    assert forall|j: int| 0 <= j < i implies self@[j].0 != code by {
                        assert(self@.subrange(0, i as int)[j] == self@[j]);
                    }
                }
                return Some(i);
            }
            i = i + 1;
        }
        proof {
            assert(self@.subrange(0, i as int) =~= self@);
        }
        None
    }

    /// The implicit canonical probability.
    pub fn canonical(&self) -> (r: u64)
        ensures
            r == canonical_prob(self@),
    {
        // the listed mass, held at PROB_SCALE + 1 once it exceeds one
        let mut acc: u64 = 0;
        let mut i: usize = 0;
        while i < self.entries.len()
            invariant
                i <= self@.len(),
                sum_probs(self@.subrange(0, i as int)) >= 0,
                acc == if sum_probs(self@.subrange(0, i as int)) > PROB_SCALE {
                    PROB_SCALE + 1
                } else {
                    sum_probs(self@.subrange(0, i as int))
                },
            decreases self@.len() - i,
        {
            proof {
                assert(self@.subrange(0, i as int + 1).drop_last() =~= self@.subrange(0, i as int));
            }
            let p = self.entries[i].1;
            if p > PROB_SCALE || acc + p > PROB_SCALE {
                acc = PROB_SCALE + 1;
            } else {
                acc = acc + p;
            }
            i = i + 1;
        }
        proof {
            assert(self@.subrange(0, i as int) =~= self@);
        }
        if acc > PROB_SCALE {
            0
        } else {
            PROB_SCALE - acc
        }
    }

    /// Reduces the position to its most likely call.
    pub fn argmax_base_mod_call(&self) -> (r: BaseModCall)
        ensures
            r == argmax_call_spec(self@),
            !(r is Filtered),
    {
        let mut best: usize = 0;
        let mut found: bool = false;
        let mut i: usize = 0;
        while i < self.entries.len()
            invariant
                i <= self@.len(),
                found == (best_mod_index(self@.subrange(0, i as int)) >= 0),
                found ==> best as int == best_mod_index(self@.subrange(0, i as int)) && best < i,
            decreases self@.len() - i,
        {
            proof {
                let pre = self@.subrange(0, i as int + 1);
                assert(pre.drop_last() =~= self@.subrange(0, i as int));
                if found {
                    assert(pre[best as int] == self@[best as int]);
                }
            }
            if !found || self.entries[i].1 >= self.entries[best].1 {
                best = i;
                found = true;
            }
            i = i + 1;
        }
        proof {
            assert(self@.subrange(0, i as int) =~= self@);
        }
        let canonical = self.canonical();
        if found && self.entries[best].1 > canonical {
            BaseModCall::Modified(self.entries[best].1, self.entries[best].0)
        } else {
            BaseModCall::Canonical(canonical)
        }
    }

    /// Merges the codes of `from` into `to`.
    pub fn convert(&self, from: &Vec<ModCode>, to: ModCode) -> (r: BaseModProbs)
        ensures
            r@ == convert_spec(self@, from@, to),
    {
        let mut merged: u64 = 0;
        let mut present: bool = false;
        let mut any: bool = false;
        let mut i: usize = 0;
        while i < self.entries.len()
            invariant
                i <= self@.len(),
                merged_mass(self@.subrange(0, i as int), from@, to) >= 0,
                merged == min_scale(merged_mass(self@.subrange(0, i as int), from@, to)),
                present == (index_of_code(self@.subrange(0, i as int), to) >= 0),
                any == any_merges(self@.subrange(0, i as int), from@, to),
            decreases self@.len() - i,
        {
            let ghost pre = self@.subrange(0, i as int);
            let ghost pre1 = self@.subrange(0, i as int + 1);
            proof {
                assert(pre1.drop_last() =~= pre);
            }
            let (c, p) = self.entries[i];
            let takes_part = c == to || contains_code(from, c);
            if takes_part {
                if p >= PROB_SCALE || merged >= PROB_SCALE - p {
                    merged = PROB_SCALE;
                } else {
                    merged = merged + p;
                }
                any = true;
            }
            if c == to {
                present = true;
            }
            proof {
                if takes_part {
                    assert(merges_into(pre1[i as int].0, from@, to));
                } else if !any_merges(pre, from@, to) {
                    assert forall|k: int| 0 <= k < pre1.len() implies !merges_into(#[trigger] pre1[k].0, from@, to) by {
                        if k < i {
                            assert(pre1[k] == pre[k]);
                        }
                    }
                }
                if any_merges(pre, from@, to) {
                    let k = choose|k: int| 0 <= k < pre.len() && merges_into(#[trigger] pre[k].0, from@, to);
                    assert(pre1[k] == pre[k]);
                }
            }
            i = i + 1;
        }
        proof {
            assert(self@.subrange(0, i as int) =~= self@);
        }
        let mut out: Vec<(ModCode, u64)> = Vec::new();
        let mut j: usize = 0;
        while j < self.entries.len()
            invariant
                j <= self@.len(),
                out@ == kept_entries(self@.subrange(0, j as int), from@, to, merged),
            decreases self@.len() - j,
        {
            proof {
                assert(self@.subrange(0, j as int + 1).drop_last() =~= self@.subrange(0, j as int));
            }
            let (c, p) = self.entries[j];
            if c == to {
                out.push((to, merged));
            } else if !contains_code(from, c) {
                out.push((c, p));
            }
            j = j + 1;
        }
        proof {
            assert(self@.subrange(0, j as int) =~= self@);
        }
        if !present && any {
            out.push((to, merged));
        }
        BaseModProbs { entries: out }
    }

    /// Redistributes the mass of `code` among the remaining options.
    pub fn redistribute(&self, code: ModCode) -> (r: BaseModProbs)
        ensures
            r@ == redistribute_spec(self@, code),
    {
        match self.index_of(code) {
            None => self.clone_entries(),
            Some(i) => {
                let n = self.entries.len() as u64;
                let share = self.entries[i].1 / n;
                let mut out: Vec<(ModCode, u64)> = Vec::new();
                let ghost target = self@.remove(i as int).map_values(
                    |p: (ModCode, u64)| (p.0, min_scale(p.1 + share)),
                );
                let mut j: usize = 0;
                while j < self.entries.len()
                    invariant
                        i < self@.len(),
                        n == self@.len(),
                        share == self@[i as int].1 / n,
                        target == self@.remove(i as int).map_values(
                            |p: (ModCode, u64)| (p.0, min_scale(p.1 + share)),
                        ),
                        j <= self@.len(),
                        out@.len() == if j <= i { j as int } else { j - 1 },
                        forall|k: int| 0 <= k < out@.len() ==> #[trigger] out@[k] == target[k],
                    decreases self@.len() - j,
                {
                    if j != i {
                        let (c, p) = self.entries[j];
                        let q: u64 = if p >= PROB_SCALE || share >= PROB_SCALE - p {
                            PROB_SCALE
                        } else {
                            p + share
                        };
                        proof {
                            let k = out@.len() as int;
                            assert(self@.remove(i as int)[k] == self@[j as int]);
                        }
                        out.push((c, q));
                    }
                    j = j + 1;
                }
                proof {
                    assert(out@ =~= target);
                }
                BaseModProbs { entries: out }
            },
        }
    }

    /// Drops `code`, leaving its mass to the canonical option.
    pub fn drop_code(&self, code: ModCode) -> (r: BaseModProbs)
        ensures
            r@ == drop_code_spec(self@, code),
    {
        match self.index_of(code) {
            None => self.clone_entries(),
            Some(i) => {
                let mut out: Vec<(ModCode, u64)> = Vec::new();
                let mut j: usize = 0;
                while j < self.entries.len()
                    invariant
                        i < self@.len(),
                        j <= self@.len(),
                        out@.len() == if j <= i { j as int } else { j - 1 },
                        forall|k: int| 0 <= k < out@.len() ==> #[trigger] out@[k] == self@.remove(i as int)[k],
                    decreases self@.len() - j,
                {
                    if j != i {
                        out.push(self.entries[j]);
                    }
                    j = j + 1;
                }
                proof {
                    assert(out@ =~= self@.remove(i as int));
                }
                BaseModProbs { entries: out }
            },
        }
    }

    /// Applies one collapse method.
    pub fn collapse(&self, method: &CollapseMethod) -> (r: BaseModProbs)
        ensures
            r@ == collapse_spec(self@, *method),
    {
        match method {
            CollapseMethod::ReDistribute(code) => self.redistribute(*code),
            CollapseMethod::ReNormalize(code) => self.drop_code(*code),
            CollapseMethod::Convert { to, from } => self.convert(from, *to),
        }
    }

    pub fn clone_entries(&self) -> (r: BaseModProbs)
        ensures
            r@ == self@,
    {
        let mut out: Vec<(ModCode, u64)> = Vec::new();
        let mut j: usize = 0;
        while j < self.entries.len()
            invariant
                j <= self@.len(),
                out@ == self@.subrange(0, j as int),
            decreases self@.len() - j,
        {
            out.push(self.entries[j]);
            proof {
                assert(out@ =~= self@.subrange(0, j as int + 1));
            }
            j = j + 1;
        }
        proof {
            assert(self@.subrange(0, j as int) =~= self@);
        }
        BaseModProbs { entries: out }
    }
}

} // verus!
