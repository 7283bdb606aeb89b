//! The text of an MM tag: semicolon-terminated groups, each a header
//! `B[+-]codes[.?]` followed by comma-separated skip counts.
use vstd::prelude::*;

use crate::mod_base_code::{
    base_byte, mod_code_byte, DnaBase, InputError, ModCode, Strand,
};

verus! {

/// How residues without a listed probability are read.
#[derive(Debug, Clone, Copy, PartialEq, Eq, Structural)]
pub enum SkipMode {
    /// `?`: nothing is known of them.
    Ambiguous,
    /// `.`: they are canonical.
    ProbModified,
    /// No indicator was written; they are canonical.
    DefaultImplicitProbModified,
}

/// One group of an MM tag as it is written.
pub struct MmGroup {
    pub canonical_base: DnaBase,
    pub strand: Strand,
    pub mod_codes: Vec<ModCode>,
    pub skip_mode: SkipMode,
    pub deltas: Vec<u32>,
}

/// The mathematical content of an `MmGroup`.
pub struct MmGroupSpec {
    pub canonical_base: DnaBase,
    pub strand: Strand,
    pub mod_codes: Seq<ModCode>,
    pub skip_mode: SkipMode,
    pub deltas: Seq<u32>,
}

impl View for MmGroup {
    type V = MmGroupSpec;

    open spec fn view(&self) -> MmGroupSpec {
        MmGroupSpec {
            canonical_base: self.canonical_base,
            strand: self.strand,
            mod_codes: self.mod_codes@,
            skip_mode: self.skip_mode,
            deltas: self.deltas@,
        }
    }
}

pub open spec fn digit_byte(d: nat) -> u8 {
    (48 + d) as u8
}

/// The decimal digits of `n`, without leading zeros.
pub open spec fn decimal(n: nat) -> Seq<u8>
    decreases n,
{
    if n < 10 {
        seq![digit_byte(n)]
    } else {
        decimal(n / 10).push(digit_byte(n % 10))
    }
}

pub open spec fn strand_byte(s: Strand) -> u8 {
    match s {
        Strand::Positive => 43u8,
        Strand::Negative => 45u8,
    }
}

pub open spec fn skip_mode_bytes(m: SkipMode) -> Seq<u8> {
    match m {
        SkipMode::Ambiguous => seq![63u8],
        SkipMode::ProbModified => seq![46u8],
        SkipMode::DefaultImplicitProbModified => Seq::empty(),
    }
}

pub open spec fn code_bytes(codes: Seq<ModCode>) -> Seq<u8> {
    codes.map_values(|c: ModCode| mod_code_byte(c))
}

/// `,d0,d1,...` for the skip counts.
pub open spec fn delta_bytes(ds: Seq<u32>) -> Seq<u8>
    decreases ds.len(),
{
    if ds.len() == 0 {
        Seq::empty()
    } else {
        delta_bytes(ds.drop_last()).push(44u8) + decimal(ds.last() as nat)
    }
}

pub open spec fn header_bytes(g: MmGroupSpec) -> Seq<u8> {
    seq![base_byte(g.canonical_base), strand_byte(g.strand)] + code_bytes(g.mod_codes)
        + skip_mode_bytes(g.skip_mode)
}

pub open spec fn group_bytes(g: MmGroupSpec) -> Seq<u8> {
    (header_bytes(g) + delta_bytes(g.deltas)).push(59u8)
}

/// The MM text of a sequence of groups.
pub open spec fn mm_bytes(gs: Seq<MmGroupSpec>) -> Seq<u8>
    decreases gs.len(),
{
    if gs.len() == 0 {
        Seq::empty()
    } else {
        mm_bytes(gs.drop_last()) + group_bytes(gs.last())
    }
}

pub open spec fn groups_view(gs: Seq<MmGroup>) -> Seq<MmGroupSpec> {
    gs.map_values(|g: MmGroup| g@)
}

pub open spec fn is_digit(b: u8) -> bool {
    48 <= b <= 57
}

/// The number a run of decimal digits stands for.
pub open spec fn digits_value(ds: Seq<u8>) -> int
    decreases ds.len(),
{
    if ds.len() == 0 {
        0
    } else {
        digits_value(ds.drop_last()) * 10 + (ds.last() - 48)
    }
}

pub open spec fn all_digits(ds: Seq<u8>) -> bool {
    forall|k: int| 0 <= k < ds.len() ==> is_digit(#[trigger] ds[k])
}

pub proof fn lemma_decimal(n: nat)
    ensures
        decimal(n).len() >= 1,
        all_digits(decimal(n)),
        digits_value(decimal(n)) == n,
        decimal(n)[0] == 48 ==> n == 0,
        n == 0 ==> decimal(n) == seq![48u8],
    decreases n,
{
    if n >= 10 {
        lemma_decimal(n / 10);
        let d = decimal(n / 10);
        let e = d.push(digit_byte(n % 10));
        assert(e.drop_last() =~= d);
        assert(e[0] == d[0]);
        assert forall|k: int| 0 <= k < e.len() implies is_digit(#[trigger] e[k]) by {
            if k < d.len() {
                assert(e[k] == d[k]);
            }
        }
        assert(n == (n / 10) * 10 + n % 10);
        assert(digit_byte(n % 10) == 48 + n % 10);
        assert(e.last() == digit_byte(n % 10));
        assert(digits_value(e) == digits_value(d) * 10 + (e.last() - 48));
    } else {
        let e = seq![digit_byte(n)];
        assert(e.drop_last() =~= Seq::<u8>::empty());
        assert(digit_byte(n) == 48 + n);
        assert(digits_value(e) == digits_value(e.drop_last()) * 10 + (e.last() - 48));
    }
}

/// A prefix of a digit run stands for at most what the whole run does.
pub proof fn lemma_digits_prefix(ds: Seq<u8>, k: int)
    requires
        all_digits(ds),
        0 <= k <= ds.len(),
    ensures
        0 <= digits_value(ds.subrange(0, k)) <= digits_value(ds),
    decreases ds.len(),
{
    if ds.len() > 0 {
        let d = ds.drop_last();
        assert(all_digits(d)) by {
            assert forall|j: int| 0 <= j < d.len() implies is_digit(#[trigger] d[j]) by {
                assert(d[j] == ds[j]);
            }
        }
        assert(is_digit(ds[ds.len() - 1]));
        if k == ds.len() {
            assert(ds.subrange(0, k) =~= ds);
            lemma_digits_prefix(d, d.len() as int);
            assert(d.subrange(0, d.len() as int) =~= d);
        } else {
            lemma_digits_prefix(d, k);
            assert(d.subrange(0, k) =~= ds.subrange(0, k));
            lemma_digits_prefix(d, d.len() as int);
            assert(d.subrange(0, d.len() as int) =~= d);
            assert(digits_value(d) <= digits_value(ds)) by (nonlinear_arith)
                requires
                    digits_value(ds) == digits_value(d) * 10 + (ds.last() - 48),
                    digits_value(d) >= 0,
                    ds.last() >= 48,
            ;
        }
    }
}

/// Appends the decimal digits of `n`.
pub fn push_decimal(out: &mut Vec<u8>, n: u32)
    ensures
        final(out)@ == old(out)@ + decimal(n as nat),
    decreases n,
{
    if n >= 10 {
        push_decimal(out, n / 10);
    }
    out.push((48 + n % 10) as u8);
    proof {
        if n >= 10 {
            assert(final(out)@ =~= old(out)@ + decimal(n as nat / 10).push(digit_byte(n as nat % 10)));
        } else {
            assert(final(out)@ =~= old(out)@ + seq![digit_byte(n as nat)]);
        }
    }
}

/// Appends the text of one group.
pub fn push_group(out: &mut Vec<u8>, g: &MmGroup)
    ensures
        final(out)@ == old(out)@ + group_bytes(g@),
{
    out.push(g.canonical_base.byte());
    out.push(
        match g.strand {
            Strand::Positive => 43u8,
            Strand::Negative => 45u8,
        },
    );
    let ghost start = old(out)@;
    let mut i: usize = 0;
    while i < g.mod_codes.len()
        invariant
            i <= g.mod_codes@.len(),
            out@ == start + seq![base_byte(g.canonical_base), strand_byte(g.strand)] + code_bytes(
                g.mod_codes@.subrange(0, i as int),
            ),
        decreases g.mod_codes@.len() - i,
    {
        out.push(g.mod_codes[i].byte());
        proof {
            assert(code_bytes(g.mod_codes@.subrange(0, i as int + 1)) =~= code_bytes(
                g.mod_codes@.subrange(0, i as int),
            ).push(mod_code_byte(g.mod_codes@[i as int])));
        }
        i = i + 1;
    }
    proof {
        assert(g.mod_codes@.subrange(0, i as int) =~= g.mod_codes@);
    }
    match g.skip_mode {
        SkipMode::Ambiguous => {
            out.push(63u8);
        },
        SkipMode::ProbModified => {
            out.push(46u8);
        },
        SkipMode::DefaultImplicitProbModified => {},
    }
    proof {
        assert(out@ =~= start + header_bytes(g@));
    }
    let mut j: usize = 0;
    while j < g.deltas.len()
        invariant
            j <= g.deltas@.len(),
            out@ == start + header_bytes(g@) + delta_bytes(g.deltas@.subrange(0, j as int)),
        decreases g.deltas@.len() - j,
    {
        let ghost before = out@;
        out.push(44u8);
        push_decimal(out, g.deltas[j]);
        proof {
            let pre = g.deltas@.subrange(0, j as int + 1);
            assert(pre.drop_last() =~= g.deltas@.subrange(0, j as int));
            assert(out@ =~= start + header_bytes(g@) + delta_bytes(pre));
        }
        j = j + 1;
    }
    proof {
        assert(g.deltas@.subrange(0, j as int) =~= g.deltas@);
    }
    out.push(59u8);
    proof {
        assert(out@ =~= start + group_bytes(g@));
    }
}

/// Writes the MM text of a sequence of groups.
pub fn format_mm(groups: &Vec<MmGroup>) -> (r: Vec<u8>)
    ensures
        r@ == mm_bytes(groups_view(groups@)),
{
    let mut out: Vec<u8> = Vec::new();
    let mut k: usize = 0;
    while k < groups.len()
        invariant
            k <= groups@.len(),
            out@ == mm_bytes(groups_view(groups@.subrange(0, k as int))),
        decreases groups@.len() - k,
    {
        push_group(&mut out, &groups[k]);
        proof {
            assert(groups_view(groups@.subrange(0, k as int + 1)).drop_last() =~= groups_view(
                groups@.subrange(0, k as int),
            ));
        }
        k = k + 1;
    }
    proof {
        assert(groups@.subrange(0, k as int) =~= groups@);
    }
    out
}

/// Reads one skip count at `start`: a run of digits with no leading zero.
pub fn parse_decimal(mm: &Vec<u8>, start: usize) -> (r: Result<(u32, usize), InputError>)
    requires
        start <= mm@.len(),
    ensures
        r matches Ok((v, end)) ==> start < end <= mm@.len() && decimal(v as nat)
            == mm@.subrange(start as int, end as int),
        r matches Err(e) ==> e == InputError::MalformedMm,
        forall|v: u32, end: int|
            start < end <= mm@.len() && #[trigger] mm@.subrange(start as int, end) == #[trigger] decimal(
                v as nat,
            ) && (end == mm@.len() || !is_digit(mm@[end])) ==> r == Ok::<(u32, usize), InputError>(
                (v, end as usize),
            ),
{
    if start >= mm.len() || mm[start] < 48 || mm[start] > 57 {
        proof {
            assert forall|v: u32, end: int|
                start < end <= mm@.len() && #[trigger] mm@.subrange(start as int, end) == #[trigger] decimal(
                    v as nat,
                ) && (end == mm@.len() || !is_digit(mm@[end])) implies false by {
                lemma_decimal(v as nat);
                assert(mm@.subrange(start as int, end)[0] == mm@[start as int]);
            }
        }
        return Err(InputError::MalformedMm);
    }
    let mut val: u32 = (mm[start] - 48) as u32;
    let mut i: usize = start + 1;
    proof {
        assert(mm@.subrange(start as int, i as int) =~= seq![digit_byte(val as nat)]);
    }
    if val == 0 {
        proof {
            assert forall|v: u32, end: int|
                start < end <= mm@.len() && #[trigger] mm@.subrange(start as int, end) == #[trigger] decimal(
                    v as nat,
                ) && (end == mm@.len() || !is_digit(mm@[end])) implies v == 0 && end == start + 1 by {
                lemma_decimal(v as nat);
                assert(mm@.subrange(start as int, end)[0] == mm@[start as int]);
                assert(mm@.subrange(start as int, end).len() == 1);
            }
        }
        return Ok((val, i));
    }
    let ghost n = mm@.len();
    while i < mm.len() && mm[i] >= 48 && mm[i] <= 57
        invariant
            start < i <= mm@.len(),
            n == mm@.len(),
            val >= 1,
            decimal(val as nat) == mm@.subrange(start as int, i as int),
            forall|v: u32, end: int|
                start < end <= n && #[trigger] mm@.subrange(start as int, end) == #[trigger] decimal(
                    v as nat,
                ) && (end == n || !is_digit(mm@[end])) ==> i <= end,
        decreases mm@.len() - i,
    {
        let d = (mm[i] - 48) as u32;
        proof {
            lemma_decimal(val as nat);
            let pre = mm@.subrange(start as int, i as int + 1);
            assert(pre.drop_last() =~= mm@.subrange(start as int, i as int));
            assert(digits_value(pre) == val * 10 + d);
            assert forall|v: u32, end: int|
                start < end <= n && #[trigger] mm@.subrange(start as int, end) == #[trigger] decimal(
                    v as nat,
                ) && (end == n || !is_digit(mm@[end])) implies i + 1 <= end && val * 10 + d <= v by {
                lemma_decimal(v as nat);
                let w = mm@.subrange(start as int, end);
                if end == i {
                    assert(!is_digit(mm@[i as int]) || i == n);
                }
                assert(i < end);
                assert(w.subrange(0, i + 1 - start) =~= pre);
                lemma_digits_prefix(w, i + 1 - start);
            }
        }
        if val > (u32::MAX - d) / 10 {
            proof {
                assert forall|v: u32, end: int|
                    start < end <= n && #[trigger] mm@.subrange(start as int, end) == #[trigger] decimal(
                        v as nat,
                    ) && (end == n || !is_digit(mm@[end])) implies false by {
                    assert(val * 10 + d <= v);
                }
            }
            return Err(InputError::MalformedMm);
        }
        let next = val * 10 + d;
        proof {
            assert(next as nat / 10 == val as nat && next as nat % 10 == d as nat) by (nonlinear_arith)
                requires
                    next == val * 10 + d,
                    d < 10,
            ;
            assert(decimal(next as nat) == decimal(val as nat).push(digit_byte(d as nat)));
            assert(digit_byte(d as nat) == mm@[i as int]);
            assert(mm@.subrange(start as int, i as int + 1) =~= mm@.subrange(
                start as int,
                i as int,
            ).push(mm@[i as int]));
        }
        val = next;
        i = i + 1;
    }
    proof {
        assert forall|v: u32, end: int|
            start < end <= n && #[trigger] mm@.subrange(start as int, end) == #[trigger] decimal(
                v as nat,
            ) && (end == n || !is_digit(mm@[end])) implies v == val && end == i by {
            lemma_decimal(v as nat);
            lemma_decimal(val as nat);
            let w = mm@.subrange(start as int, end);
            if i < end {
                assert(w[i - start] == mm@[i as int]);
                assert(is_digit(w[i - start]));
            }
            assert(end == i);
        }
    }
    Ok((val, i))
}

/// The text of `g` stands in `mm` at `start`, and `g` lists a code.
pub open spec fn group_fits(mm: Seq<u8>, start: int, g: MmGroupSpec) -> bool {
    &&& g.mod_codes.len() > 0
    &&& 0 <= start
    &&& start + group_bytes(g).len() <= mm.len()
    &&& mm.subrange(start, start + group_bytes(g).len()) == group_bytes(g)
}

pub open spec fn header_len(g: MmGroupSpec) -> int {
    2 + g.mod_codes.len() as int + skip_mode_bytes(g.skip_mode).len() as int
}

proof fn lemma_delta_prefix(ds: Seq<u32>, j: int)
    requires
        0 <= j <= ds.len(),
    ensures
        delta_bytes(ds.subrange(0, j)).len() <= delta_bytes(ds).len(),
        delta_bytes(ds).subrange(0, delta_bytes(ds.subrange(0, j)).len() as int) == delta_bytes(ds.subrange(0, j)),
    decreases ds.len(),
{
    if j == ds.len() {
        assert(ds.subrange(0, j) =~= ds);
        assert(delta_bytes(ds).subrange(0, delta_bytes(ds).len() as int) =~= delta_bytes(ds));
    } else {
        let d = ds.drop_last();
        lemma_delta_prefix(d, j);
        assert(d.subrange(0, j) =~= ds.subrange(0, j));
        let a = delta_bytes(d);
        let b = delta_bytes(ds);
        assert(b == a.push(44u8) + decimal(ds.last() as nat));
        let l = delta_bytes(ds.subrange(0, j)).len() as int;
        assert(b.subrange(0, l) =~= a.subrange(0, l));
    }
}

proof fn lemma_delta_step(ds: Seq<u32>, j: int)
    requires
        0 <= j < ds.len(),
    ensures
        delta_bytes(ds.subrange(0, j + 1)) == delta_bytes(ds.subrange(0, j)).push(44u8) + decimal(ds[j] as nat),
{
    assert(ds.subrange(0, j + 1).drop_last() =~= ds.subrange(0, j));
}

proof fn lemma_group_bytes_at(g: MmGroupSpec)
    ensures
        group_bytes(g).len() == header_len(g) + delta_bytes(g.deltas).len() + 1,
        group_bytes(g)[0] == base_byte(g.canonical_base),
        group_bytes(g)[1] == strand_byte(g.strand),
        forall|k: int| 0 <= k < g.mod_codes.len() ==> group_bytes(g)[2 + k] == mod_code_byte(#[trigger] g.mod_codes[k]),
        g.skip_mode == SkipMode::Ambiguous ==> group_bytes(g)[2 + g.mod_codes.len() as int] == 63,
        g.skip_mode == SkipMode::ProbModified ==> group_bytes(g)[2 + g.mod_codes.len() as int] == 46,
        forall|k: int| 0 <= k < delta_bytes(g.deltas).len() ==> group_bytes(g)[header_len(g) + k] == #[trigger] delta_bytes(g.deltas)[k],
        group_bytes(g)[header_len(g) + delta_bytes(g.deltas).len()] == 59,
{
    let h = header_bytes(g);
    let gb = group_bytes(g);
    assert(h.len() == header_len(g));
    assert forall|k: int| 0 <= k < g.mod_codes.len() implies gb[2 + k] == mod_code_byte(#[trigger] g.mod_codes[k]) by {
        assert(h[2 + k] == code_bytes(g.mod_codes)[k]);
    }
    assert forall|k: int| 0 <= k < delta_bytes(g.deltas).len() implies gb[header_len(g) + k] == #[trigger] delta_bytes(g.deltas)[k] by {
        assert((h + delta_bytes(g.deltas))[h.len() + k] == delta_bytes(g.deltas)[k]);
    }
}

proof fn lemma_fit_byte(mm: Seq<u8>, start: int, g: MmGroupSpec, k: int)
    requires
        group_fits(mm, start, g),
        0 <= k < group_bytes(g).len(),
    ensures
        mm[start + k] == group_bytes(g)[k],
{
    assert(mm.subrange(start, start + group_bytes(g).len())[k] == mm[start + k]);
}

/// Where a fitting group's codes end, its skip indicator, a comma or its
/// closing semicolon follows.
proof fn lemma_fit_codes(mm: Seq<u8>, start: int, g: MmGroupSpec, i: int)
    requires
        group_fits(mm, start, g),
        start + 2 <= i <= start + 2 + g.mod_codes.len(),
    ensures
        i < mm.len(),
        i < start + 2 + g.mod_codes.len() ==> mm[i] == mod_code_byte(g.mod_codes[i - start - 2]),
        i == start + 2 + g.mod_codes.len() ==> (g.skip_mode == SkipMode::Ambiguous ==> mm[i] == 63)
            && (g.skip_mode == SkipMode::ProbModified ==> mm[i] == 46)
            && (g.skip_mode == SkipMode::DefaultImplicitProbModified ==> mm[i] == 44 || mm[i] == 59),
{
    lemma_group_bytes_at(g);
    let gb = group_bytes(g);
    lemma_fit_byte(mm, start, g, i - start);
    if i < start + 2 + g.mod_codes.len() {
        assert(gb[2 + (i - start - 2)] == mod_code_byte(g.mod_codes[i - start - 2]));
    } else if g.skip_mode == SkipMode::DefaultImplicitProbModified {
        assert(skip_mode_bytes(g.skip_mode).len() == 0);
        if delta_bytes(g.deltas).len() > 0 {
            lemma_delta_prefix(g.deltas, 1);
            lemma_delta_step(g.deltas, 0);
            assert(g.deltas.subrange(0, 0) =~= Seq::<u32>::empty());
            assert(delta_bytes(g.deltas.subrange(0, 1))[0] == 44);
            assert(delta_bytes(g.deltas)[0] == delta_bytes(g.deltas).subrange(0, delta_bytes(g.deltas.subrange(0, 1)).len() as int)[0]);
            assert(gb[header_len(g) + 0] == delta_bytes(g.deltas)[0]);
        } else {
            assert(gb[header_len(g) + 0] == 59);
        }
    }
}

/// At the start of a fitting group's `j`-th delta a comma stands, followed
/// by the delta's digits and then a non-digit; after the last delta the
/// closing semicolon stands.
proof fn lemma_fit_delta(mm: Seq<u8>, start: int, g: MmGroupSpec, j: int, i: int)
    requires
        group_fits(mm, start, g),
        0 <= j <= g.deltas.len(),
        i == start + header_len(g) + delta_bytes(g.deltas.subrange(0, j)).len(),
    ensures
        i < mm.len(),
        j == g.deltas.len() ==> mm[i] == 59 && i + 1 == start + group_bytes(g).len(),
        j < g.deltas.len() ==> ({
            let dv = decimal(g.deltas[j] as nat);
            &&& mm[i] == 44
            &&& i + 1 + dv.len() <= mm.len()
            &&& mm.subrange(i + 1, i + 1 + dv.len()) == dv
            &&& (i + 1 + dv.len() == mm.len() || !is_digit(mm[i + 1 + dv.len()]))
        }),
{
    lemma_group_bytes_at(g);
    let gb = group_bytes(g);
    let db = delta_bytes(g.deltas);
    lemma_delta_prefix(g.deltas, j);
    let lj = delta_bytes(g.deltas.subrange(0, j)).len() as int;
    if j == g.deltas.len() {
        assert(g.deltas.subrange(0, j) =~= g.deltas);
        lemma_fit_byte(mm, start, g, header_len(g) + db.len());
    } else {
        lemma_delta_step(g.deltas, j);
        lemma_delta_prefix(g.deltas, j + 1);
        let v = g.deltas[j];
        let next = delta_bytes(g.deltas.subrange(0, j + 1));
        let dl = decimal(v as nat).len() as int;
        assert(next[lj] == 44);
        assert(db.subrange(0, next.len() as int)[lj] == next[lj]);
        lemma_fit_byte(mm, start, g, header_len(g) + lj);
        assert forall|k: int| 0 <= k < dl implies mm.subrange(i + 1, i + 1 + dl)[k] == decimal(v as nat)[k] by {
            assert(next[lj + 1 + k] == decimal(v as nat)[k]);
            assert(db.subrange(0, next.len() as int)[lj + 1 + k] == next[lj + 1 + k]);
            lemma_fit_byte(mm, start, g, header_len(g) + lj + 1 + k);
        }
        assert(mm.subrange(i + 1, i + 1 + dl) =~= decimal(v as nat));
        let after = header_len(g) + next.len();
        if j + 1 < g.deltas.len() {
            lemma_delta_step(g.deltas, j + 1);
            lemma_delta_prefix(g.deltas, j + 2);
            let next2 = delta_bytes(g.deltas.subrange(0, j + 2));
            assert(next2[next.len() as int] == 44);
            assert(db.subrange(0, next2.len() as int)[next.len() as int] == next2[next.len() as int]);
        } else {
            assert(g.deltas.subrange(0, j + 1) =~= g.deltas);
        }
        lemma_fit_byte(mm, start, g, after);
    }
}

/// Reads one group starting at `start`.
#[verifier::spinoff_prover]
#[verifier::rlimit(40)]
pub fn parse_group(mm: &Vec<u8>, start: usize) -> (r: Result<(MmGroup, usize), InputError>)
    requires
        start <= mm@.len(),
    ensures
        r matches Ok((g, end)) ==> start < end <= mm@.len() && group_bytes(g@)
            == mm@.subrange(start as int, end as int),
        r matches Err(e) ==> e == InputError::MalformedMm || e == InputError::UnknownModCode,
        forall|g: MmGroupSpec| #[trigger] group_fits(mm@, start as int, g) ==> (r matches Ok((g2, end)) && end == start + group_bytes(g).len() && g2@ == g),
{
    let ghost n = mm@.len();
    proof {
        assert forall|g: MmGroupSpec| #[trigger] group_fits(mm@, start as int, g) implies mm@[start as int] == base_byte(g.canonical_base)
            && mm@[start + 1] == strand_byte(g.strand) && n - start >= 4 by {
            lemma_group_bytes_at(g);
            lemma_fit_byte(mm@, start as int, g, 0);
            lemma_fit_byte(mm@, start as int, g, 1);
        }
    }
    if mm.len() - start < 3 {
        return Err(InputError::MalformedMm);
    }
    let canonical_base = match DnaBase::parse_byte(mm[start]) {
        Some(b) => b,
        None => {
            return Err(InputError::MalformedMm);
        },
    };
    let strand = if mm[start + 1] == 43 {
        Strand::Positive
    } else if mm[start + 1] == 45 {
        Strand::Negative
    } else {
        return Err(InputError::MalformedMm);
    };
    proof {
        assert forall|g: MmGroupSpec| #[trigger] group_fits(mm@, start as int, g) implies canonical_base == g.canonical_base
            && strand == g.strand by {
            assert(mm@[start as int] == base_byte(g.canonical_base));
            assert(mm@[start + 1] == strand_byte(g.strand));
        }
    }
    let mut mod_codes: Vec<ModCode> = Vec::new();
    let mut i: usize = start + 2;
    while i < mm.len() && mm[i] != 44 && mm[i] != 59 && mm[i] != 46 && mm[i] != 63
        invariant
            start + 2 <= i <= mm@.len(),
            n == mm@.len(),
            i == start + 2 + mod_codes@.len(),
            code_bytes(mod_codes@) == mm@.subrange(start + 2, i as int),
            forall|g: MmGroupSpec| #[trigger] group_fits(mm@, start as int, g) ==> i <= start + 2 + g.mod_codes.len()
                && mod_codes@ == g.mod_codes.subrange(0, i - start - 2) && canonical_base == g.canonical_base
                && strand == g.strand,
        decreases mm@.len() - i,
    {
        proof {
            assert forall|g: MmGroupSpec| #[trigger] group_fits(mm@, start as int, g) implies i < start + 2 + g.mod_codes.len()
                && mm@[i as int] == mod_code_byte(g.mod_codes[i - start - 2]) by {
                lemma_fit_codes(mm@, start as int, g, i as int);
            }
        }
        match ModCode::parse_byte(mm[i]) {
            Some(code) => {
                let ghost before = mod_codes@;
                mod_codes.push(code);
                proof {
                    assert(code_bytes(mod_codes@) =~= mm@.subrange(start + 2, i as int + 1));
                    assert forall|g: MmGroupSpec| #[trigger] group_fits(mm@, start as int, g) implies mod_codes@ == g.mod_codes.subrange(0, i + 1 - start - 2) by {
                        assert(before == g.mod_codes.subrange(0, i - start - 2));
                        assert(mm@[i as int] == mod_code_byte(g.mod_codes[i - start - 2]));
                        assert(code == g.mod_codes[i - start - 2]);
                        assert(mod_codes@ =~= g.mod_codes.subrange(0, i + 1 - start - 2));
                    }
                }
            },
            None => {
                proof {
                    assert forall|g: MmGroupSpec| #[trigger] group_fits(mm@, start as int, g) implies false by {
                        assert(mm@[i as int] == mod_code_byte(g.mod_codes[i - start - 2]));
                    }
                }
                return Err(InputError::UnknownModCode);
            },
        }
        i = i + 1;
    }
    proof {
        assert forall|g: MmGroupSpec| #[trigger] group_fits(mm@, start as int, g) implies i == start + 2 + g.mod_codes.len()
            && mod_codes@ == g.mod_codes && i < n by {
            if i < start + 2 + g.mod_codes.len() {
                lemma_fit_codes(mm@, start as int, g, i as int);
            }
            lemma_fit_codes(mm@, start as int, g, i as int);
            assert(mod_codes@ =~= g.mod_codes);
        }
    }
    if mod_codes.len() == 0 || i >= mm.len() {
        return Err(InputError::MalformedMm);
    }
    let ghost codes_end = i;
    let skip_mode = if mm[i] == 63 {
        i = i + 1;
        SkipMode::Ambiguous
    } else if mm[i] == 46 {
        i = i + 1;
        SkipMode::ProbModified
    } else {
        SkipMode::DefaultImplicitProbModified
    };
    proof {
        assert forall|g: MmGroupSpec| #[trigger] group_fits(mm@, start as int, g) implies skip_mode == g.skip_mode
            && i == start + header_len(g) by {
            lemma_fit_codes(mm@, start as int, g, codes_end as int);
        }
    }
    let ghost hdr = MmGroupSpec {
        canonical_base,
        strand,
        mod_codes: mod_codes@,
        skip_mode,
        deltas: Seq::empty(),
    };
    proof {
        assert(header_bytes(hdr) =~= mm@.subrange(start as int, i as int));
    }
    let mut deltas: Vec<u32> = Vec::new();
    while i < mm.len() && mm[i] == 44
        invariant
            start < i <= mm@.len(),
            n == mm@.len(),
            header_bytes(hdr) + delta_bytes(deltas@) == mm@.subrange(start as int, i as int),
            forall|g: MmGroupSpec| #[trigger] group_fits(mm@, start as int, g) ==> deltas@.len() <= g.deltas.len()
                && deltas@ == g.deltas.subrange(0, deltas@.len() as int)
                && i == start + header_len(g) + delta_bytes(deltas@).len() && mod_codes@ == g.mod_codes
                && skip_mode == g.skip_mode && canonical_base == g.canonical_base && strand == g.strand,
        decreases mm@.len() - i,
    {
        proof {
            assert forall|g: MmGroupSpec| #[trigger] group_fits(mm@, start as int, g) implies deltas@.len() < g.deltas.len()
                && mm@.subrange(i + 1, i + 1 + decimal(g.deltas[deltas@.len() as int] as nat).len()) == decimal(g.deltas[deltas@.len() as int] as nat)
                && i + 1 + decimal(g.deltas[deltas@.len() as int] as nat).len() <= n
                && (i + 1 + decimal(g.deltas[deltas@.len() as int] as nat).len() == n
                    || !is_digit(mm@[i + 1 + decimal(g.deltas[deltas@.len() as int] as nat).len()])) by {
                lemma_fit_delta(mm@, start as int, g, deltas@.len() as int, i as int);
            }
        }
        match parse_decimal(mm, i + 1) {
            Ok((v, end)) => {
                let ghost old_deltas = deltas@;
                deltas.push(v);
                proof {
                    assert(deltas@.drop_last() =~= old_deltas);
                    assert(mm@.subrange(start as int, end as int) =~= mm@.subrange(
                        start as int,
                        i as int,
                    ).push(44u8) + mm@.subrange(i + 1, end as int));
                    assert(header_bytes(hdr) + delta_bytes(deltas@) =~= (header_bytes(hdr)
                        + delta_bytes(old_deltas)).push(44u8) + decimal(v as nat));
                    assert forall|g: MmGroupSpec| #[trigger] group_fits(mm@, start as int, g) implies deltas@.len() <= g.deltas.len()
                        && deltas@ == g.deltas.subrange(0, deltas@.len() as int)
                        && end == start + header_len(g) + delta_bytes(deltas@).len() by {
                        let j = old_deltas.len() as int;
                        let dv = g.deltas[j];
                        assert(mm@.subrange(i + 1, i + 1 + decimal(dv as nat).len()) == decimal(dv as nat));
                        assert(v == dv && end == i + 1 + decimal(dv as nat).len());
                        assert(deltas@ =~= g.deltas.subrange(0, j + 1));
                        assert(delta_bytes(deltas@) == delta_bytes(old_deltas).push(44u8) + decimal(v as nat));
                    }
                }
                i = end;
            },
            Err(e) => {
                proof {
                    assert forall|g: MmGroupSpec| #[trigger] group_fits(mm@, start as int, g) implies false by {
                        let dv = g.deltas[deltas@.len() as int];
                        assert(mm@.subrange(i + 1, i + 1 + decimal(dv as nat).len()) == decimal(dv as nat));
                    }
                }
                return Err(e);
            },
        }
    }
    proof {
        assert forall|g: MmGroupSpec| #[trigger] group_fits(mm@, start as int, g) implies deltas@ == g.deltas
            && i < n && mm@[i as int] == 59 && i + 1 == start + group_bytes(g).len() by {
            lemma_fit_delta(mm@, start as int, g, deltas@.len() as int, i as int);
            assert(deltas@ =~= g.deltas);
        }
    }
    if i >= mm.len() || mm[i] != 59 {
        return Err(InputError::MalformedMm);
    }
    let g = MmGroup { canonical_base, strand, mod_codes, skip_mode, deltas };
    proof {
        assert forall|g0: MmGroupSpec| #[trigger] group_fits(mm@, start as int, g0) implies g@ == g0 by {
            assert(g@.deltas == g0.deltas);
        }
        assert(header_bytes(g@) == header_bytes(hdr));
        assert(mm@.subrange(start as int, i + 1) =~= mm@.subrange(start as int, i as int).push(
            59u8,
        ));
    }
    Ok((g, i + 1))
}

/// Every group lists at least one code.
pub open spec fn groups_list_codes(gs: Seq<MmGroupSpec>) -> bool {
    forall|k: int| 0 <= k < gs.len() ==> (#[trigger] gs[k]).mod_codes.len() > 0
}

proof fn lemma_mm_prefix(gs: Seq<MmGroupSpec>, k: int)
    requires
        0 <= k <= gs.len(),
    ensures
        mm_bytes(gs.subrange(0, k)).len() <= mm_bytes(gs).len(),
        mm_bytes(gs).subrange(0, mm_bytes(gs.subrange(0, k)).len() as int) == mm_bytes(gs.subrange(0, k)),
    decreases gs.len(),
{
    if k == gs.len() {
        assert(gs.subrange(0, k) =~= gs);
        assert(mm_bytes(gs).subrange(0, mm_bytes(gs).len() as int) =~= mm_bytes(gs));
    } else {
        let d = gs.drop_last();
        lemma_mm_prefix(d, k);
        assert(d.subrange(0, k) =~= gs.subrange(0, k));
        let l = mm_bytes(gs.subrange(0, k)).len() as int;
        assert(mm_bytes(gs).subrange(0, l) =~= mm_bytes(d).subrange(0, l));
    }
}

/// The `k`-th group of a listing fits where the text of the groups before
/// it ends.
proof fn lemma_mm_group_fits(gs: Seq<MmGroupSpec>, k: int)
    requires
        0 <= k < gs.len(),
        groups_list_codes(gs),
    ensures
        group_fits(mm_bytes(gs), mm_bytes(gs.subrange(0, k)).len() as int, gs[k]),
        mm_bytes(gs.subrange(0, k + 1)).len() == mm_bytes(gs.subrange(0, k)).len() + group_bytes(gs[k]).len(),
        group_bytes(gs[k]).len() > 0,
{
    let a = mm_bytes(gs.subrange(0, k));
    let b = mm_bytes(gs.subrange(0, k + 1));
    assert(gs.subrange(0, k + 1).drop_last() =~= gs.subrange(0, k));
    assert(b == a + group_bytes(gs[k]));
    lemma_mm_prefix(gs, k + 1);
    let m = mm_bytes(gs);
    assert(m.subrange(a.len() as int, b.len() as int) =~= group_bytes(gs[k])) by {
        assert forall|j: int| 0 <= j < group_bytes(gs[k]).len() implies m.subrange(a.len() as int, b.len() as int)[j] == group_bytes(gs[k])[j] by {
            assert(m.subrange(0, b.len() as int)[a.len() + j] == b[a.len() + j]);
        }
    }
}

/// `gs` lists groups that each have a code and whose text is `mm`.
pub open spec fn listing_of(gs: Seq<MmGroupSpec>, mm: Seq<u8>) -> bool {
    groups_list_codes(gs) && mm_bytes(gs) == mm
}

/// Reads a whole MM tag into its groups, in order. Text that a listing of
/// groups, each with a code, writes is read back as that listing.
pub fn parse_mm(mm: &Vec<u8>) -> (r: Result<Vec<MmGroup>, InputError>)
    ensures
        r matches Ok(gs) ==> mm_bytes(groups_view(gs@)) == mm@,
        r matches Err(e) ==> e == InputError::MalformedMm || e == InputError::UnknownModCode,
        forall|gs: Seq<MmGroupSpec>| #[trigger] listing_of(gs, mm@) ==> (r matches Ok(v) && groups_view(v@) == gs),
{
    let mut groups: Vec<MmGroup> = Vec::new();
    let mut i: usize = 0;
    while i < mm.len()
        invariant
            i <= mm@.len(),
            mm_bytes(groups_view(groups@)) == mm@.subrange(0, i as int),
            forall|gs: Seq<MmGroupSpec>| #[trigger] listing_of(gs, mm@) ==> groups@.len() <= gs.len()
                && groups_view(groups@) == gs.subrange(0, groups@.len() as int)
                && i == mm_bytes(gs.subrange(0, groups@.len() as int)).len(),
        decreases mm@.len() - i,
    {
        let ghost k = groups@.len() as int;
        proof {
            assert forall|gs: Seq<MmGroupSpec>| #[trigger] listing_of(gs, mm@) implies k < gs.len()
                && group_fits(mm@, i as int, gs[k]) by {
                if k == gs.len() {
                    assert(gs.subrange(0, k) =~= gs);
                }
                lemma_mm_group_fits(gs, k);
            }
        }
        let (g, end) = match parse_group(mm, i) {
            Ok(x) => x,
            Err(e) => {
                proof {
                    assert forall|gs: Seq<MmGroupSpec>| #[trigger] listing_of(gs, mm@) implies false by {
                        assert(group_fits(mm@, i as int, gs[k]));
                    }
                }
                return Err(e);
            },
        };
        let ghost old_groups = groups@;
        groups.push(g);
        proof {
            assert(groups_view(groups@).drop_last() =~= groups_view(old_groups));
            assert(mm@.subrange(0, end as int) =~= mm@.subrange(0, i as int) + mm@.subrange(
                i as int,
                end as int,
            ));
            assert forall|gs: Seq<MmGroupSpec>| #[trigger] listing_of(gs, mm@) implies groups@.len() <= gs.len()
                && groups_view(groups@) == gs.subrange(0, groups@.len() as int)
                && end == mm_bytes(gs.subrange(0, groups@.len() as int)).len() by {
                assert(group_fits(mm@, i as int, gs[k]));
                lemma_mm_group_fits(gs, k);
                assert(g@ == gs[k]);
                assert(groups_view(groups@) =~= gs.subrange(0, k + 1));
            }
        }
        i = end;
    }
    proof {
        assert(mm@.subrange(0, i as int) =~= mm@);
        assert forall|gs: Seq<MmGroupSpec>| #[trigger] listing_of(gs, mm@) implies groups_view(groups@) == gs by {
            let k = groups@.len() as int;
            if k < gs.len() {
                lemma_mm_group_fits(gs, k);
                lemma_mm_prefix(gs, k + 1);
            }
            assert(gs.subrange(0, k) =~= gs);
        }
    }
    Ok(groups)
}

} // verus!
