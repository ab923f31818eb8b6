//! Banded affine-gap Smith-Waterman local alignment with traceback to a CIGAR
//! string (M/I/D) and an edit distance.
use vstd::prelude::*;
use vstd::arithmetic::mul::lemma_mul_inequality;

verus! {

/// Initial value of the gap matrices, low enough never to win a maximum and
/// high enough that subtracting a penalty cannot wrap.
pub const NEG_INF: i32 = -536870912;

/// Scoring: a match adds `match_score`; a mismatch, the opening of a gap and
/// each gap position subtract the penalties. Only cells with
/// `|i - j| <= band_width` are computed.
#[derive(Clone, Copy, Debug)]
pub struct SwParams {
    pub match_score: i32,
    pub mismatch_penalty: i32,
    pub gap_open: i32,
    pub gap_extend: i32,
    pub band_width: usize,
}

/// A local alignment: score, half-open query and reference spans, CIGAR and
/// edit distance. The empty result has score 0 and an empty CIGAR.
#[derive(Debug, PartialEq, Eq)]
pub struct SwResult {
    pub score: i32,
    pub query_start: usize,
    pub query_end: usize,
    pub ref_start: usize,
    pub ref_end: usize,
    pub cigar: String,
    pub nm: u32,
}

/// Scratch matrices, reusable across alignments.
pub struct SwBuffer {
    h: Vec<i32>,
    e: Vec<i32>,
    f: Vec<i32>,
}

/// Scores that keep every cell of the DP inside `i32` for a query of length
/// `m`: non-negative, penalties below 2^28, `m * match_score` below 2^29.
pub open spec fn params_ok(p: SwParams, m: int) -> bool {
    &&& 0 <= p.match_score
    &&& 0 <= p.mismatch_penalty <= 0x1000_0000
    &&& 0 <= p.gap_open <= 0x1000_0000
    &&& 0 <= p.gap_extend <= 0x1000_0000
    &&& m * p.match_score <= 0x2000_0000
}

pub open spec fn max2(a: int, b: int) -> int {
    if a >= b {
        a
    } else {
        b
    }
}

/// Substitution score of `q[i-1]` against `r[j-1]`.
pub open spec fn subst(q: Seq<u8>, r: Seq<u8>, p: SwParams, i: int, j: int) -> int {
    if q[i - 1] == r[j - 1] {
        p.match_score as int
    } else {
        -(p.mismatch_penalty as int)
    }
}

/// Cell `(i, j)` of the `m x n` matrix lies in the band.
pub open spec fn in_band(p: SwParams, m: int, n: int, i: int, j: int) -> bool {
    1 <= i <= m && 1 <= j <= n && i - p.band_width <= j <= i + p.band_width
}

/// `(H, E, F)` at cell `(i, j)`. Cells on row or column 0 and cells outside
/// the band hold `(0, NEG_INF, NEG_INF)`.
pub open spec fn dp(q: Seq<u8>, r: Seq<u8>, p: SwParams, i: nat, j: nat) -> (int, int, int)
    decreases i, j,
{
    if i == 0 || j == 0 || !in_band(p, q.len() as int, r.len() as int, i as int, j as int) {
        (0, NEG_INF as int, NEG_INF as int)
    } else {
        let up = dp(q, r, p, (i - 1) as nat, j);
        let left = dp(q, r, p, i, (j - 1) as nat);
        let diag = dp(q, r, p, (i - 1) as nat, (j - 1) as nat);
        let e = max2(max2(up.0 - p.gap_open - p.gap_extend, up.1 - p.gap_extend), NEG_INF as int);
        let f = max2(
            max2(left.0 - p.gap_open - p.gap_extend, left.2 - p.gap_extend),
            NEG_INF as int,
        );
        let h = max2(max2(max2(diag.0 + subst(q, r, p, i as int, j as int), e), f), 0);
        (h, e, f)
    }
}

/// Best `H` among the cells before `(i, j)` in row-major order over rows
/// `1..=m` and columns `1..=n`, with the first cell that reached it.
pub open spec fn scan(q: Seq<u8>, r: Seq<u8>, p: SwParams, i: nat, j: nat) -> (int, nat, nat)
    decreases i, j,
{
    if i <= 1 && j <= 1 {
        (0, 0, 0)
    } else if j <= 1 {
        scan(q, r, p, (i - 1) as nat, (r.len() + 1) as nat)
    } else {
        let prev = scan(q, r, p, i, (j - 1) as nat);
        let h = dp(q, r, p, i, (j - 1) as nat).0;
        if h > prev.0 {
            (h, i, (j - 1) as nat)
        } else {
            prev
        }
    }
}

/// The best cell of the whole matrix: score, row, column.
pub open spec fn sw_best(q: Seq<u8>, r: Seq<u8>, p: SwParams) -> (int, nat, nat) {
    scan(q, r, p, q.len(), (r.len() + 1) as nat)
}

pub open spec fn is_op(c: char) -> bool {
    c == 'M' || c == 'I' || c == 'D'
}

/// Query bases consumed by the ops (M and I).
pub open spec fn query_len(ops: Seq<char>) -> nat
    decreases ops.len(),
{
    if ops.len() == 0 {
        0
    } else {
        (if ops[0] == 'M' || ops[0] == 'I' {
            1nat
        } else {
            0nat
        }) + query_len(ops.drop_first())
    }
}

/// Reference bases consumed by the ops (M and D).
pub open spec fn ref_len(ops: Seq<char>) -> nat
    decreases ops.len(),
{
    if ops.len() == 0 {
        0
    } else {
        (if ops[0] == 'M' || ops[0] == 'D' {
            1nat
        } else {
            0nat
        }) + ref_len(ops.drop_first())
    }
}

/// Edit distance of the ops laid on `q` from `qi` and `r` from `rj`:
/// mismatching M positions plus every I and D.
pub open spec fn nm_spec(q: Seq<u8>, r: Seq<u8>, ops: Seq<char>, qi: int, rj: int) -> nat
    decreases ops.len(),
{
    if ops.len() == 0 {
        0
    } else if ops[0] == 'M' {
        (if q[qi] != r[rj] {
            1nat
        } else {
            0nat
        }) + nm_spec(q, r, ops.drop_first(), qi + 1, rj + 1)
    } else if ops[0] == 'I' {
        1 + nm_spec(q, r, ops.drop_first(), qi + 1, rj)
    } else if ops[0] == 'D' {
        1 + nm_spec(q, r, ops.drop_first(), qi, rj + 1)
    } else {
        nm_spec(q, r, ops.drop_first(), qi, rj)
    }
}

/// The decimal digit character of `d < 10`.
pub open spec fn digit_char(d: nat) -> char {
    ((48 + d) as u8) as char
}

/// Decimal text of `v`.
pub open spec fn decimal(v: nat) -> Seq<char>
    decreases v,
{
    if v < 10 {
        seq![digit_char(v)]
    } else {
        decimal(v / 10).push(digit_char(v % 10))
    }
}

/// CIGAR text of `ops` preceded by a pending run of `n` copies of `c`.
pub open spec fn cigar_from(ops: Seq<char>, c: char, n: nat) -> Seq<char>
    decreases ops.len(),
{
    if ops.len() == 0 {
        decimal(n).push(c)
    } else if ops[0] == c {
        cigar_from(ops.drop_first(), c, n + 1)
    } else {
        decimal(n).push(c) + cigar_from(ops.drop_first(), ops[0], 1)
    }
}

/// Run-length CIGAR text of an op sequence ("MMIMM" is "2M1I2M").
pub open spec fn cigar_text(ops: Seq<char>) -> Seq<char> {
    if ops.len() == 0 {
        Seq::empty()
    } else {
        cigar_from(ops.drop_first(), ops[0], 1)
    }
}

/// `ops` align `q[qs..qe)` with `r[rs..re)`.
pub open spec fn ops_span(ops: Seq<char>, qs: int, qe: int, rs: int, re: int) -> bool {
    &&& forall|k: int| 0 <= k < ops.len() ==> is_op(#[trigger] ops[k])
    &&& query_len(ops) == qe - qs
    &&& ref_len(ops) == re - rs
}

/// The result carries no alignment.
pub open spec fn is_empty_result(res: &SwResult) -> bool {
    &&& res.score == 0
    &&& res.query_start == 0
    &&& res.query_end == 0
    &&& res.ref_start == 0
    &&& res.ref_end == 0
    &&& res.cigar@.len() == 0
    &&& res.nm == 0
}

/// The traceback from cell `(i, j)` while `H > 0`: a diagonal step (M)
/// when `H` equals the diagonal cell plus the substitution score, else a
/// query-only step (I) when it equals `E`, else a reference-only step (D)
/// when it equals `F`. Returns the ops in alignment order and the cell where
/// the traceback stops.
pub open spec fn traceback(q: Seq<u8>, r: Seq<u8>, p: SwParams, i: nat, j: nat) -> (Seq<char>, nat, nat)
    decreases i + j,
{
    if i == 0 || j == 0 || dp(q, r, p, i, j).0 == 0 {
        (Seq::empty(), i, j)
    } else {
        let h = dp(q, r, p, i, j).0;
        if h == dp(q, r, p, (i - 1) as nat, (j - 1) as nat).0 + subst(q, r, p, i as int, j as int) {
            let t = traceback(q, r, p, (i - 1) as nat, (j - 1) as nat);
            (t.0.push('M'), t.1, t.2)
        } else if h == dp(q, r, p, i, j).1 {
            let t = traceback(q, r, p, (i - 1) as nat, j);
            (t.0.push('I'), t.1, t.2)
        } else if h == dp(q, r, p, i, j).2 {
            let t = traceback(q, r, p, i, (j - 1) as nat);
            (t.0.push('D'), t.1, t.2)
        } else {
            (Seq::empty(), i, j)
        }
    }
}

/// What an alignment of `q` against `r` returns: the empty result when
/// either is empty or no cell scores above 0; otherwise the best score, the
/// first best cell as the end of the spans, the traceback from it giving the
/// start of the spans, the CIGAR (never empty) and the edit distance; the
/// traceback ops cover exactly the spans.
pub open spec fn sw_result_ok(q: Seq<u8>, r: Seq<u8>, p: SwParams, res: &SwResult) -> bool {
    if q.len() == 0 || r.len() == 0 || sw_best(q, r, p).0 <= 0 {
        is_empty_result(res)
    } else {
        let b = sw_best(q, r, p);
        let t = traceback(q, r, p, b.1, b.2);
        &&& res.score == b.0
        &&& res.query_end == b.1
        &&& res.ref_end == b.2
        &&& res.query_start == t.1
        &&& res.ref_start == t.2
        &&& res.query_start <= res.query_end <= q.len()
        &&& res.ref_start <= res.ref_end <= r.len()
        &&& res.cigar@ == cigar_text(t.0)
        &&& res.cigar@.len() > 0
        &&& res.nm == nm_spec(q, r, t.0, t.1 as int, t.2 as int)
        &&& ops_span(t.0, res.query_start as int, res.query_end as int, res.ref_start as int, res.ref_end as int)
    }
}

/// The result is a function of the inputs: any two results that meet the
/// contract agree field by field, whatever scratch buffer produced them.
pub proof fn lemma_sw_result_unique(q: Seq<u8>, r: Seq<u8>, p: SwParams, a: &SwResult, b: &SwResult)
    requires
        sw_result_ok(q, r, p, a),
        sw_result_ok(q, r, p, b),
    ensures
        a.score == b.score,
        a.query_start == b.query_start,
        a.query_end == b.query_end,
        a.ref_start == b.ref_start,
        a.ref_end == b.ref_end,
        a.cigar@ == b.cigar@,
        a.nm == b.nm,
{
}

/// Non-empty ops give a non-empty CIGAR.
pub proof fn lemma_cigar_text_nonempty(ops: Seq<char>)
    ensures
        ops.len() > 0 ==> cigar_text(ops).len() > 0,
{
    if ops.len() > 0 {
        lemma_cigar_nonempty(ops.drop_first(), ops[0], 1);
    }
}

proof fn lemma_cigar_nonempty(ops: Seq<char>, c: char, n: nat)
    ensures
        cigar_from(ops, c, n).len() > 0,
    decreases ops.len(),
{
    if ops.len() > 0 {
        if ops[0] == c {
            lemma_cigar_nonempty(ops.drop_first(), c, n + 1);
        } else {
            lemma_cigar_nonempty(ops.drop_first(), ops[0], 1);
        }
    }
}

/// A best cell with a positive score lies inside the matrix and holds that
/// score.
proof fn lemma_scan_cell(q: Seq<u8>, r: Seq<u8>, p: SwParams, i: nat, j: nat)
    requires
        j <= r.len() + 1,
    ensures
        scan(q, r, p, i, j).0 > 0 ==> scan(q, r, p, i, j).1 >= 1 && scan(q, r, p, i, j).2 >= 1 && dp(
            q,
            r,
            p,
            scan(q, r, p, i, j).1,
            scan(q, r, p, i, j).2,
        ).0 == scan(q, r, p, i, j).0,
    decreases i, j,
{
    if i <= 1 && j <= 1 {
    } else if j <= 1 {
        lemma_scan_cell(q, r, p, (i - 1) as nat, (r.len() + 1) as nat);
    } else {
        lemma_scan_cell(q, r, p, i, (j - 1) as nat);
        if i == 0 {
            assert(dp(q, r, p, i, (j - 1) as nat).0 == 0);
        }
    }
}

/// From a cell with `H > 0` the traceback takes at least one step.
proof fn lemma_traceback_nonempty(q: Seq<u8>, r: Seq<u8>, p: SwParams, i: nat, j: nat)
    requires
        i >= 1,
        j >= 1,
        dp(q, r, p, i, j).0 > 0,
    ensures
        traceback(q, r, p, i, j).0.len() > 0,
{
}

/// Relies on String::push: appends one character.
#[verifier::external_body]
pub(crate) fn push_char(s: &mut String, c: char)
    ensures
        final(s)@ == old(s)@.push(c),
{
    s.push(c)
}

pub(crate) fn push_decimal(s: &mut String, v: usize)
    ensures
        final(s)@ == old(s)@ + decimal(v as nat),
    decreases v,
{
    if v >= 10 {
        push_decimal(s, v / 10);
    }
    let d = (v % 10) as u8;
    push_char(s, (48 + d) as char);
    assert(final(s)@ =~= old(s)@ + decimal(v as nat));
}

/// Run-length encodes an op sequence into CIGAR text.
pub fn ops_to_cigar(ops: &[char]) -> (cigar: String)
    ensures
        cigar@ == cigar_text(ops@),
{
    let mut cigar = String::new();
    if ops.len() == 0 {
        return cigar;
    }
    let mut cur = ops[0];
    let mut len: usize = 1;
    let mut k: usize = 1;
    assert(ops@.subrange(1, ops@.len() as int) =~= ops@.drop_first());
    while k < ops.len()
        invariant
            1 <= k <= ops@.len(),
            1 <= len <= k,
            cigar@ + cigar_from(ops@.subrange(k as int, ops@.len() as int), cur, len as nat)
                == cigar_text(ops@),
        decreases ops@.len() - k,
    {
        let op = ops[k];
        let ghost rest = ops@.subrange(k as int, ops@.len() as int);
        assert(rest.drop_first() =~= ops@.subrange(k + 1, ops@.len() as int));
        if op == cur {
            len += 1;
        } else {
            push_decimal(&mut cigar, len);
            push_char(&mut cigar, cur);
            assert(cigar@ + cigar_from(rest.drop_first(), op, 1) =~= cigar_text(ops@));
            cur = op;
            len = 1;
        }
        k += 1;
    }
    let ghost rest = ops@.subrange(k as int, ops@.len() as int);
    assert(rest =~= Seq::<char>::empty());
    push_decimal(&mut cigar, len);
    push_char(&mut cigar, cur);
    cigar
}

/// Flat index of cell `(i, j)` in a matrix with `cols` columns.
pub open spec fn cell(i: int, j: int, cols: int) -> int {
    i * cols + j
}

proof fn lemma_cell(i: int, j: int, i2: int, j2: int, cols: int, rows: int)
    requires
        0 <= i < rows,
        0 <= j < cols,
        0 <= i2 < rows,
        0 <= j2 < cols,
    ensures
        0 <= cell(i, j, cols) < rows * cols,
        cell(i, j, cols) == cell(i2, j2, cols) ==> i == i2 && j == j2,
{
    lemma_mul_inequality(i + 1, rows, cols);
    assert((i + 1) * cols == i * cols + cols) by (nonlinear_arith);
    assert(i * cols >= 0) by (nonlinear_arith)
        requires
            i >= 0,
            cols > 0,
    ;
    if i < i2 {
        lemma_mul_inequality(i + 1, i2, cols);
    } else if i2 < i {
        lemma_mul_inequality(i2 + 1, i, cols);
        assert((i2 + 1) * cols == i2 * cols + cols) by (nonlinear_arith);
    }
}

/// Every cell stays within `[0, i * match]` for `H` and within
/// `[NEG_INF, i * match]` for `E` and `F`.
proof fn lemma_dp_bounds(q: Seq<u8>, r: Seq<u8>, p: SwParams, i: nat, j: nat)
    requires
        params_ok(p, q.len() as int),
        i <= q.len(),
    ensures
        0 <= dp(q, r, p, i, j).0 <= i * p.match_score,
        NEG_INF <= dp(q, r, p, i, j).1 <= i * p.match_score,
        NEG_INF <= dp(q, r, p, i, j).2 <= i * p.match_score,
    decreases i, j,
{
    assert(i * p.match_score >= 0) by (nonlinear_arith)
        requires
            p.match_score >= 0,
    ;
    if i == 0 || j == 0 || !in_band(p, q.len() as int, r.len() as int, i as int, j as int) {
    } else {
        lemma_dp_bounds(q, r, p, (i - 1) as nat, j);
        lemma_dp_bounds(q, r, p, i, (j - 1) as nat);
        lemma_dp_bounds(q, r, p, (i - 1) as nat, (j - 1) as nat);
        assert((i - 1) * p.match_score + p.match_score == i * p.match_score) by (nonlinear_arith);
    }
}

proof fn lemma_scan_le_cols(q: Seq<u8>, r: Seq<u8>, p: SwParams, i: nat, j: nat)
    requires
        j <= r.len() + 1,
    ensures
        scan(q, r, p, i, j).2 <= r.len(),
    decreases i, j,
{
    if i <= 1 && j <= 1 {
    } else if j <= 1 {
        lemma_scan_le_cols(q, r, p, (i - 1) as nat, (r.len() + 1) as nat);
    } else {
        lemma_scan_le_cols(q, r, p, i, (j - 1) as nat);
    }
}

proof fn lemma_scan_bound(q: Seq<u8>, r: Seq<u8>, p: SwParams, i: nat, j: nat)
    requires
        params_ok(p, q.len() as int),
        i <= q.len(),
    ensures
        scan(q, r, p, i, j).0 <= q.len() * p.match_score,
    decreases i, j,
{
    assert(i * p.match_score <= q.len() * p.match_score) by (nonlinear_arith)
        requires
            i <= q.len(),
            p.match_score >= 0,
    ;
    assert(q.len() * p.match_score >= 0) by (nonlinear_arith)
        requires
            p.match_score >= 0,
    ;
    if i <= 1 && j <= 1 {
    } else if j <= 1 {
        lemma_scan_bound(q, r, p, (i - 1) as nat, (r.len() + 1) as nat);
    } else {
        lemma_scan_bound(q, r, p, i, (j - 1) as nat);
        lemma_dp_bounds(q, r, p, i, (j - 1) as nat);
    }
}

proof fn lemma_scan_nonneg(q: Seq<u8>, r: Seq<u8>, p: SwParams, i: nat, j: nat)
    ensures
        scan(q, r, p, i, j).0 >= 0,
        scan(q, r, p, i, j).1 <= i,
    decreases i, j,
{
    if i <= 1 && j <= 1 {
    } else if j <= 1 {
        lemma_scan_nonneg(q, r, p, (i - 1) as nat, (r.len() + 1) as nat);
    } else {
        lemma_scan_nonneg(q, r, p, i, (j - 1) as nat);
    }
}

impl SwBuffer {
    /// An empty buffer.
    pub fn new() -> (b: Self) {
        SwBuffer { h: Vec::new(), e: Vec::new(), f: Vec::new() }
    }

    /// Sets the buffer to `size` cells of `H = 0`, `E = F = NEG_INF`.
    fn resize(&mut self, size: usize)
        ensures
            final(self).h@ == Seq::new(size as nat, |k: int| 0i32),
            final(self).e@ == Seq::new(size as nat, |k: int| NEG_INF),
            final(self).f@ == Seq::new(size as nat, |k: int| NEG_INF),
    {
        self.h.clear();
        self.e.clear();
        self.f.clear();
        self.h.resize(size, 0);
        self.e.resize(size, NEG_INF);
        self.f.resize(size, NEG_INF);
        assert(self.h@ =~= Seq::new(size as nat, |k: int| 0i32));
        assert(self.e@ =~= Seq::new(size as nat, |k: int| NEG_INF));
        assert(self.f@ =~= Seq::new(size as nat, |k: int| NEG_INF));
    }
}

/// Cell `(a, b)` holds the DP if it comes before `(i, j)` in row-major
/// order, and the initial values otherwise.
pub open spec fn cell_state(
    q: Seq<u8>,
    r: Seq<u8>,
    p: SwParams,
    h: Seq<i32>,
    e: Seq<i32>,
    f: Seq<i32>,
    i: int,
    j: int,
    a: int,
    b: int,
) -> bool {
    let k = cell(a, b, r.len() + 1 as int);
    if a < i || (a == i && b < j) {
        &&& h[k] == dp(q, r, p, a as nat, b as nat).0
        &&& e[k] == dp(q, r, p, a as nat, b as nat).1
        &&& f[k] == dp(q, r, p, a as nat, b as nat).2
    } else {
        &&& h[k] == 0
        &&& e[k] == NEG_INF
        &&& f[k] == NEG_INF
    }
}

/// The matrices hold the DP at every cell before `(i, j)` in row-major
/// order, and their initial values after it.
pub open spec fn filled_upto(
    q: Seq<u8>,
    r: Seq<u8>,
    p: SwParams,
    h: Seq<i32>,
    e: Seq<i32>,
    f: Seq<i32>,
    i: int,
    j: int,
) -> bool {
    forall|a: int, b: int|
        0 <= a <= q.len() && 0 <= b <= r.len() ==> #[trigger] cell_state(q, r, p, h, e, f, i, j, a, b)
}

fn max_i32(a: i32, b: i32) -> (r: i32)
    ensures
        r == max2(a as int, b as int),
{
    if a >= b {
        a
    } else {
        b
    }
}

proof fn lemma_fill_start(q: Seq<u8>, r: Seq<u8>, p: SwParams, size: int)
    requires
        size == (q.len() + 1) * (r.len() + 1),
    ensures
        filled_upto(
            q,
            r,
            p,
            Seq::new(size as nat, |k: int| 0i32),
            Seq::new(size as nat, |k: int| NEG_INF),
            Seq::new(size as nat, |k: int| NEG_INF),
            1,
            1,
        ),
{
    let cols = r.len() + 1 as int;
    let h = Seq::new(size as nat, |k: int| 0i32);
    let e = Seq::new(size as nat, |k: int| NEG_INF);
    assert forall|a: int, b: int| 0 <= a <= q.len() && 0 <= b <= r.len() implies #[trigger] cell_state(
        q,
        r,
        p,
        h,
        e,
        e,
        1,
        1,
        a,
        b,
    ) by {
        lemma_cell(a, b, 0, 0, cols, q.len() + 1 as int);
    }
}

proof fn lemma_fill_row(q: Seq<u8>, r: Seq<u8>, p: SwParams, h: Seq<i32>, e: Seq<i32>, f: Seq<i32>, i: int)
    requires
        filled_upto(q, r, p, h, e, f, i, r.len() + 1 as int),
    ensures
        filled_upto(q, r, p, h, e, f, i + 1, 1),
{
    assert forall|a: int, b: int| 0 <= a <= q.len() && 0 <= b <= r.len() implies #[trigger] cell_state(
        q,
        r,
        p,
        h,
        e,
        f,
        i + 1,
        1,
        a,
        b,
    ) by {
        assert(cell_state(q, r, p, h, e, f, i, r.len() + 1 as int, a, b));
    }
}

proof fn lemma_fill_cell(
    q: Seq<u8>,
    r: Seq<u8>,
    p: SwParams,
    h: Seq<i32>,
    e: Seq<i32>,
    f: Seq<i32>,
    h2: Seq<i32>,
    e2: Seq<i32>,
    f2: Seq<i32>,
    i: int,
    j: int,
)
    requires
        1 <= i <= q.len(),
        1 <= j <= r.len(),
        h.len() == (q.len() + 1) * (r.len() + 1),
        e.len() == h.len(),
        f.len() == h.len(),
        filled_upto(q, r, p, h, e, f, i, j),
        h2 == h.update(cell(i, j, r.len() + 1 as int), dp(q, r, p, i as nat, j as nat).0 as i32),
        e2 == e.update(cell(i, j, r.len() + 1 as int), dp(q, r, p, i as nat, j as nat).1 as i32),
        f2 == f.update(cell(i, j, r.len() + 1 as int), dp(q, r, p, i as nat, j as nat).2 as i32),
        dp(q, r, p, i as nat, j as nat).0 == dp(q, r, p, i as nat, j as nat).0 as i32,
        dp(q, r, p, i as nat, j as nat).1 == dp(q, r, p, i as nat, j as nat).1 as i32,
        dp(q, r, p, i as nat, j as nat).2 == dp(q, r, p, i as nat, j as nat).2 as i32,
    ensures
        filled_upto(q, r, p, h2, e2, f2, i, j + 1),
{
    let cols = r.len() + 1 as int;
    let rows = q.len() + 1 as int;
    lemma_cell(i, j, 0, 0, cols, rows);
    assert forall|a: int, b: int| 0 <= a <= q.len() && 0 <= b <= r.len() implies #[trigger] cell_state(
        q,
        r,
        p,
        h2,
        e2,
        f2,
        i,
        j + 1,
        a,
        b,
    ) by {
        lemma_cell(a, b, i, j, cols, rows);
        assert(cell_state(q, r, p, h, e, f, i, j, a, b));
    }
}

proof fn lemma_skip_cell(q: Seq<u8>, r: Seq<u8>, p: SwParams, h: Seq<i32>, e: Seq<i32>, f: Seq<i32>, i: int, j: int)
    requires
        1 <= i <= q.len(),
        1 <= j <= r.len(),
        !in_band(p, q.len() as int, r.len() as int, i, j),
        filled_upto(q, r, p, h, e, f, i, j),
    ensures
        filled_upto(q, r, p, h, e, f, i, j + 1),
{
    assert forall|a: int, b: int| 0 <= a <= q.len() && 0 <= b <= r.len() implies #[trigger] cell_state(
        q,
        r,
        p,
        h,
        e,
        f,
        i,
        j + 1,
        a,
        b,
    ) by {
        assert(cell_state(q, r, p, h, e, f, i, j, a, b));
    }
}

/// Fills the matrices and returns the best cell (score, row, column).
fn sw_fill(query: &[u8], reference: &[u8], p: SwParams, buf: &mut SwBuffer) -> (best: (i32, usize, usize))
    requires
        query@.len() > 0,
        reference@.len() > 0,
        params_ok(p, query@.len() as int),
        (query@.len() + 1) * (reference@.len() + 1) <= usize::MAX,
    ensures
        best.0 == sw_best(query@, reference@, p).0,
        best.1 == sw_best(query@, reference@, p).1,
        best.2 == sw_best(query@, reference@, p).2,
        final(buf).h@.len() == (query@.len() + 1) * (reference@.len() + 1),
        final(buf).e@.len() == (query@.len() + 1) * (reference@.len() + 1),
        final(buf).f@.len() == (query@.len() + 1) * (reference@.len() + 1),
        filled_upto(query@, reference@, p, final(buf).h@, final(buf).e@, final(buf).f@, query@.len() + 1 as int, 1),
{
    let m = query.len();
    let n = reference.len();
    proof {
        assert(m + 1 <= (m + 1) * (n + 1)) by (nonlinear_arith)
            requires
                n > 0,
        ;
        assert(n + 1 <= (m + 1) * (n + 1)) by (nonlinear_arith)
            requires
                m > 0,
        ;
    }
    let rows = m + 1;
    let cols = n + 1;
    let size = rows * cols;
    buf.resize(size);
    let ghost q = query@;
    let ghost r = reference@;
    proof {
        lemma_fill_start(q, r, p, size as int);
    }
    let w = p.band_width;
    let mut best_score: i32 = 0;
    let mut best_i: usize = 0;
    let mut best_j: usize = 0;
    let mut i: usize = 1;
    while i <= m
        invariant
            m == q.len(),
            n == r.len(),
            q == query@,
            r == reference@,
            rows == m + 1,
            cols == n + 1,
            size == rows * cols,
            m > 0,
            n > 0,
            w == p.band_width,
            params_ok(p, m as int),
            1 <= i <= m + 1,
            buf.h@.len() == size,
            buf.e@.len() == size,
            buf.f@.len() == size,
            filled_upto(q, r, p, buf.h@, buf.e@, buf.f@, i as int, 1),
            (best_score as int, best_i as nat, best_j as nat) == scan(q, r, p, i as nat, 1),
            best_score >= 0,
        decreases m + 1 - i,
    {
        let mut j: usize = 1;
        while j <= n
            invariant
                m == q.len(),
                n == r.len(),
                q == query@,
                r == reference@,
                rows == m + 1,
                cols == n + 1,
                size == rows * cols,
                m > 0,
                n > 0,
                w == p.band_width,
                params_ok(p, m as int),
                1 <= i <= m,
                1 <= j <= n + 1,
                buf.h@.len() == size,
                buf.e@.len() == size,
                buf.f@.len() == size,
                filled_upto(q, r, p, buf.h@, buf.e@, buf.f@, i as int, j as int),
                (best_score as int, best_i as nat, best_j as nat) == scan(q, r, p, i as nat, j as nat),
                best_score >= 0,
            decreases n + 1 - j,
        {
            proof {
                lemma_cell(i as int, j as int, 0, 0, cols as int, rows as int);
                lemma_cell((i - 1) as int, j as int, 0, 0, cols as int, rows as int);
                lemma_cell(i as int, (j - 1) as int, 0, 0, cols as int, rows as int);
                lemma_cell((i - 1) as int, (j - 1) as int, 0, 0, cols as int, rows as int);
            }
            let in_band = (i <= j || i - j <= w) && (j <= i || j - i <= w);
            if in_band {
                let idx = i * cols + j;
                let up_idx = (i - 1) * cols + j;
                let left_idx = i * cols + (j - 1);
                let diag_idx = (i - 1) * cols + (j - 1);
                proof {
                    lemma_dp_bounds(q, r, p, (i - 1) as nat, j as nat);
                    lemma_dp_bounds(q, r, p, i as nat, (j - 1) as nat);
                    lemma_dp_bounds(q, r, p, (i - 1) as nat, (j - 1) as nat);
                    lemma_dp_bounds(q, r, p, i as nat, j as nat);
                    assert(cell_state(q, r, p, buf.h@, buf.e@, buf.f@, i as int, j as int, i - 1, j as int));
                    assert(cell_state(q, r, p, buf.h@, buf.e@, buf.f@, i as int, j as int, i as int, j - 1));
                    assert(cell_state(q, r, p, buf.h@, buf.e@, buf.f@, i as int, j as int, i - 1, j - 1));
                    assert((i - 1) * p.match_score <= m * p.match_score) by (nonlinear_arith)
                        requires
                            i <= m,
                            p.match_score >= 0,
                    ;
                    assert(i * p.match_score <= m * p.match_score) by (nonlinear_arith)
                        requires
                            i <= m,
                            p.match_score >= 0,
                    ;
                }
                let e_open = buf.h[up_idx] - p.gap_open - p.gap_extend;
                let e_ext = buf.e[up_idx] - p.gap_extend;
                let ev = max_i32(max_i32(e_open, e_ext), NEG_INF);
                let f_open = buf.h[left_idx] - p.gap_open - p.gap_extend;
                let f_ext = buf.f[left_idx] - p.gap_extend;
                let fv = max_i32(max_i32(f_open, f_ext), NEG_INF);
                let sub = if query[i - 1] == reference[j - 1] {
                    p.match_score
                } else {
                    -p.mismatch_penalty
                };
                let mut val = buf.h[diag_idx] + sub;
                if ev > val {
                    val = ev;
                }
                if fv > val {
                    val = fv;
                }
                if val < 0 {
                    val = 0;
                }
                let ghost (h0, e0, f0) = (buf.h@, buf.e@, buf.f@);
                buf.h.set(idx, val);
                buf.e.set(idx, ev);
                buf.f.set(idx, fv);
                proof {
                    lemma_fill_cell(q, r, p, h0, e0, f0, buf.h@, buf.e@, buf.f@, i as int, j as int);
                }
                if val > best_score {
                    best_score = val;
                    best_i = i;
                    best_j = j;
                }
            } else {
                proof {
                    lemma_skip_cell(q, r, p, buf.h@, buf.e@, buf.f@, i as int, j as int);
                }
            }
            j += 1;
        }
        proof {
            lemma_fill_row(q, r, p, buf.h@, buf.e@, buf.f@, i as int);
        }
        i += 1;
    }
    (best_score, best_i, best_j)
}

/// Sizes that fit the matrices in memory and the edit distance in `u32`.
pub open spec fn sizes_ok(m: int, n: int) -> bool {
    (m + 1) * (n + 1) <= usize::MAX && m + n <= u32::MAX
}

/// Counts over a concatenation add up.
pub proof fn lemma_len_concat(a: Seq<char>, b: Seq<char>)
    ensures
        query_len(a + b) == query_len(a) + query_len(b),
        ref_len(a + b) == ref_len(a) + ref_len(b),
    decreases a.len(),
{
    if a.len() > 0 {
        assert((a + b).drop_first() =~= a.drop_first() + b);
        lemma_len_concat(a.drop_first(), b);
    } else {
        assert(a + b =~= b);
    }
}

proof fn lemma_ops_len(ops: Seq<char>)
    requires
        forall|k: int| 0 <= k < ops.len() ==> is_op(#[trigger] ops[k]),
    ensures
        ops.len() <= query_len(ops) + ref_len(ops),
    decreases ops.len(),
{
    if ops.len() > 0 {
        assert forall|k: int| 0 <= k < ops.drop_first().len() implies is_op(#[trigger] ops.drop_first()[k]) by {
            assert(ops.drop_first()[k] == ops[k + 1]);
        }
        lemma_ops_len(ops.drop_first());
    }
}

proof fn lemma_nm_le(q: Seq<u8>, r: Seq<u8>, ops: Seq<char>, qi: int, rj: int)
    ensures
        nm_spec(q, r, ops, qi, rj) <= ops.len(),
    decreases ops.len(),
{
    if ops.len() > 0 {
        lemma_nm_le(q, r, ops.drop_first(), qi + 1, rj + 1);
        lemma_nm_le(q, r, ops.drop_first(), qi + 1, rj);
        lemma_nm_le(q, r, ops.drop_first(), qi, rj + 1);
        lemma_nm_le(q, r, ops.drop_first(), qi, rj);
    }
}

/// Edit distance of `ops` laid on `q[qs..)` and `r[rs..)`.
fn count_nm(query: &[u8], reference: &[u8], ops: &Vec<char>, qs: usize, rs: usize) -> (nm: u32)
    requires
        ops_span(ops@, qs as int, qs + query_len(ops@), rs as int, rs + ref_len(ops@)),
        qs + query_len(ops@) <= query@.len(),
        rs + ref_len(ops@) <= reference@.len(),
        ops@.len() <= u32::MAX,
    ensures
        nm == nm_spec(query@, reference@, ops@, qs as int, rs as int),
{
    let ql = query.len();
    let rl = reference.len();
    let mut nm: u32 = 0;
    let mut qi: usize = qs;
    let mut rj: usize = rs;
    let mut k: usize = 0;
    let ghost qe = qs + query_len(ops@);
    let ghost re = rs + ref_len(ops@);
    assert(ops@.subrange(0, ops@.len() as int) =~= ops@);
    while k < ops.len()
        invariant
            k <= ops@.len() <= u32::MAX,
            forall|t: int| 0 <= t < ops@.len() ==> is_op(#[trigger] ops@[t]),
            qe <= query@.len() == ql,
            re <= reference@.len() == rl,
            qi + query_len(ops@.subrange(k as int, ops@.len() as int)) == qe,
            rj + ref_len(ops@.subrange(k as int, ops@.len() as int)) == re,
            nm + nm_spec(query@, reference@, ops@.subrange(k as int, ops@.len() as int), qi as int, rj as int)
                == nm_spec(query@, reference@, ops@, qs as int, rs as int),
            nm <= k,
        decreases ops@.len() - k,
    {
        let ghost rest = ops@.subrange(k as int, ops@.len() as int);
        assert(rest.drop_first() =~= ops@.subrange(k + 1, ops@.len() as int));
        assert(rest[0] == ops@[k as int]);
        assert(query_len(rest) == (if rest[0] == 'M' || rest[0] == 'I' {
            1int
        } else {
            0int
        }) + query_len(rest.drop_first()));
        assert(ref_len(rest) == (if rest[0] == 'M' || rest[0] == 'D' {
            1int
        } else {
            0int
        }) + ref_len(rest.drop_first()));
        assert(is_op(ops@[k as int]));
        let op = ops[k];
        if op == 'M' {
            if query[qi] != reference[rj] {
                nm += 1;
            }
            qi += 1;
            rj += 1;
        } else if op == 'I' {
            nm += 1;
            qi += 1;
        } else {
            nm += 1;
            rj += 1;
        }
        k += 1;
    }
    nm
}

/// Aligns and also returns the traceback ops behind the CIGAR.
pub(crate) fn sw_align(query: &[u8], reference: &[u8], p: SwParams, buf: &mut SwBuffer) -> (res: (SwResult, Vec<char>))
    requires
        params_ok(p, query@.len() as int),
        sizes_ok(query@.len() as int, reference@.len() as int),
    ensures
        sw_result_ok(query@, reference@, p, &res.0),
        res.0.score > 0 ==> ops_span(
            res.1@,
            res.0.query_start as int,
            res.0.query_end as int,
            res.0.ref_start as int,
            res.0.ref_end as int,
        ) && res.0.cigar@ == cigar_text(res.1@) && res.0.nm == nm_spec(
            query@,
            reference@,
            res.1@,
            res.0.query_start as int,
            res.0.ref_start as int,
        ),
        res.0.score <= 0 ==> res.1@.len() == 0,
        res.0.score > 0 ==> res.1@ == traceback(
            query@,
            reference@,
            p,
            sw_best(query@, reference@, p).1,
            sw_best(query@, reference@, p).2,
        ).0,
        res.0.score >= 0,
        res.0.score <= query@.len() * p.match_score,
        res.0.nm <= (res.0.query_end - res.0.query_start) + (res.0.ref_end - res.0.ref_start),
{
    let m = query.len();
    let n = reference.len();
    let empty = SwResult {
        score: 0,
        query_start: 0,
        query_end: 0,
        ref_start: 0,
        ref_end: 0,
        cigar: String::new(),
        nm: 0,
    };
    if m == 0 || n == 0 {
        proof {
            assert(m * p.match_score >= 0) by (nonlinear_arith)
                requires
                    p.match_score >= 0,
            ;
        }
        return (empty, Vec::new());
    }
    let (best_score, best_i, best_j) = sw_fill(query, reference, p, buf);
    if best_score <= 0 {
        proof {
            assert(m * p.match_score >= 0) by (nonlinear_arith)
                requires
                    p.match_score >= 0,
            ;
        }
        return (empty, Vec::new());
    }
    let ghost q = query@;
    let ghost r = reference@;
    proof {
        lemma_scan_nonneg(q, r, p, m as nat, (n + 1) as nat);
        assert(best_j <= n) by {
            lemma_scan_le_cols(q, r, p, m as nat, (n + 1) as nat);
        }
    }
    let cols = n + 1;
    let ghost rows = m + 1;
    let mut ops: Vec<char> = Vec::new();
    let mut i: usize = best_i;
    let mut j: usize = best_j;
    let mut going = true;
    while going && i > 0 && j > 0
        invariant
            m == q.len(),
            n == r.len(),
            q == query@,
            r == reference@,
            cols == n + 1,
            rows == m + 1,
            rows * cols <= usize::MAX,
            params_ok(p, m as int),
            buf.h@.len() == rows * cols,
            buf.e@.len() == rows * cols,
            buf.f@.len() == rows * cols,
            filled_upto(q, r, p, buf.h@, buf.e@, buf.f@, m + 1 as int, 1),
            i <= best_i <= m,
            j <= best_j <= n,
            forall|k: int| 0 <= k < ops@.len() ==> is_op(#[trigger] ops@[k]),
            query_len(ops@) == best_i - i,
            ref_len(ops@) == best_j - j,
            going ==> traceback(q, r, p, best_i as nat, best_j as nat) == (
                traceback(q, r, p, i as nat, j as nat).0 + ops@,
                traceback(q, r, p, i as nat, j as nat).1,
                traceback(q, r, p, i as nat, j as nat).2,
            ),
            !going ==> traceback(q, r, p, best_i as nat, best_j as nat) == (ops@, i as nat, j as nat),
        decreases i + j + (if going {
            1int
        } else {
            0int
        }),
    {
        proof {
            lemma_cell(i as int, j as int, 0, 0, cols as int, rows as int);
            lemma_cell((i - 1) as int, (j - 1) as int, 0, 0, cols as int, rows as int);
            assert(cell_state(q, r, p, buf.h@, buf.e@, buf.f@, m + 1 as int, 1, i - 1, j - 1));
            lemma_dp_bounds(q, r, p, (i - 1) as nat, (j - 1) as nat);
            assert((i - 1) * p.match_score <= m * p.match_score) by (nonlinear_arith)
                requires
                    i <= m,
                    p.match_score >= 0,
            ;
            assert(p.match_score <= m * p.match_score) by (nonlinear_arith)
                requires
                    1 <= m,
                    p.match_score >= 0,
            ;
        }
        let idx = i * cols + j;
        let h_here = buf.h[idx];
        proof {
            assert(cell_state(q, r, p, buf.h@, buf.e@, buf.f@, m + 1 as int, 1, i as int, j as int));
        }
        let ghost tb = traceback(q, r, p, i as nat, j as nat);
        if h_here == 0 {
            going = false;
            proof {
                assert(tb.0 =~= Seq::<char>::empty());
                assert(tb.0 + ops@ =~= ops@);
            }
        } else {
            let diag_idx = (i - 1) * cols + (j - 1);
            let sub = if query[i - 1] == reference[j - 1] {
                p.match_score
            } else {
                -p.mismatch_penalty
            };
            let diag_val = buf.h[diag_idx] + sub;
            let ghost old_ops = ops@;
            let op = if h_here == diag_val {
                'M'
            } else if h_here == buf.e[idx] {
                'I'
            } else if h_here == buf.f[idx] {
                'D'
            } else {
                'X'
            };
            if op == 'X' {
                going = false;
                proof {
                    assert(tb.0 + ops@ =~= ops@);
                }
            } else {
                ops.insert(0, op);
                assert(ops@.drop_first() =~= old_ops);
                proof {
                    let t2 = if op == 'M' {
                        traceback(q, r, p, (i - 1) as nat, (j - 1) as nat)
                    } else if op == 'I' {
                        traceback(q, r, p, (i - 1) as nat, j as nat)
                    } else {
                        traceback(q, r, p, i as nat, (j - 1) as nat)
                    };
                    assert(tb.0 == t2.0.push(op));
                    assert(tb.0 + old_ops =~= t2.0 + ops@);
                }
                assert forall|k: int| 0 <= k < ops@.len() implies is_op(#[trigger] ops@[k]) by {
                    if k > 0 {
                        assert(ops@[k] == old_ops[k - 1]);
                    }
                }
                if op == 'M' {
                    i -= 1;
                    j -= 1;
                } else if op == 'I' {
                    i -= 1;
                } else {
                    j -= 1;
                }
            }
        }
    }
    proof {
        lemma_ops_len(ops@);
        lemma_scan_bound(q, r, p, m as nat, (n + 1) as nat);
        lemma_nm_le(q, r, ops@, i as int, j as int);
        if going {
            assert(traceback(q, r, p, i as nat, j as nat).0 =~= Seq::<char>::empty());
            assert(traceback(q, r, p, i as nat, j as nat).0 + ops@ =~= ops@);
        }
        lemma_scan_cell(q, r, p, m as nat, (n + 1) as nat);
        lemma_traceback_nonempty(q, r, p, best_i as nat, best_j as nat);
        lemma_cigar_nonempty(ops@.drop_first(), ops@[0], 1);
    }
    let nm = count_nm(query, reference, &ops, i, j);
    let cigar = ops_to_cigar(ops.as_slice());
    let res = SwResult {
        score: best_score,
        query_start: i,
        query_end: best_i,
        ref_start: j,
        ref_end: best_j,
        cigar,
        nm,
    };
    (res, ops)
}

/// Banded affine-gap local alignment of `query` against `reference`, using
/// `buf` as scratch.
pub fn banded_sw_with_buf(query: &[u8], reference: &[u8], p: SwParams, buf: &mut SwBuffer) -> (res: SwResult)
    requires
        params_ok(p, query@.len() as int),
        sizes_ok(query@.len() as int, reference@.len() as int),
    ensures
        sw_result_ok(query@, reference@, p, &res),
{
    sw_align(query, reference, p, buf).0
}

/// Banded affine-gap local alignment of `query` against `reference`.
pub fn banded_sw(query: &[u8], reference: &[u8], p: SwParams) -> (res: SwResult)
    requires
        params_ok(p, query@.len() as int),
        sizes_ok(query@.len() as int, reference@.len() as int),
    ensures
        sw_result_ok(query@, reference@, p, &res),
{
    let mut buf = SwBuffer::new();
    banded_sw_with_buf(query, reference, p, &mut buf)
}

/// The same scores with another band width.
pub open spec fn with_band(p: SwParams, w: usize) -> SwParams {
    SwParams { band_width: w, ..p }
}

proof fn lemma_wide_band_dp(q: Seq<u8>, r: Seq<u8>, p: SwParams, w: usize, i: nat, j: nat)
    requires
        p.band_width >= q.len(),
        p.band_width >= r.len(),
        w >= q.len(),
        w >= r.len(),
    ensures
        dp(q, r, p, i, j) == dp(q, r, with_band(p, w), i, j),
    decreases i, j,
{
    if i > 0 && j > 0 {
        lemma_wide_band_dp(q, r, p, w, (i - 1) as nat, j);
        lemma_wide_band_dp(q, r, p, w, i, (j - 1) as nat);
        lemma_wide_band_dp(q, r, p, w, (i - 1) as nat, (j - 1) as nat);
    }
}

proof fn lemma_wide_band_scan(q: Seq<u8>, r: Seq<u8>, p: SwParams, w: usize, i: nat, j: nat)
    requires
        p.band_width >= q.len(),
        p.band_width >= r.len(),
        w >= q.len(),
        w >= r.len(),
    ensures
        scan(q, r, p, i, j) == scan(q, r, with_band(p, w), i, j),
    decreases i, j,
{
    if i <= 1 && j <= 1 {
    } else if j <= 1 {
        lemma_wide_band_scan(q, r, p, w, (i - 1) as nat, (r.len() + 1) as nat);
    } else {
        lemma_wide_band_scan(q, r, p, w, i, (j - 1) as nat);
        lemma_wide_band_dp(q, r, p, w, i, (j - 1) as nat);
    }
}

/// A band at least as wide as both sequences changes nothing: the best
/// score and cell equal those of any other such band, and so those of the
/// unbanded recurrence (a band of `usize::MAX`).
pub proof fn lemma_wide_band(q: Seq<u8>, r: Seq<u8>, p: SwParams, w: usize)
    requires
        p.band_width >= q.len(),
        p.band_width >= r.len(),
        w >= q.len(),
        w >= r.len(),
    ensures
        sw_best(q, r, p) == sw_best(q, r, with_band(p, w)),
{
    lemma_wide_band_scan(q, r, p, w, q.len(), (r.len() + 1) as nat);
}

pub open spec fn is_digit(c: char) -> bool {
    '0' <= c <= '9'
}

/// Parser state after the first `k` characters of a CIGAR: the ops read so
/// far with their lengths, and the pending number (saturating at
/// `usize::MAX`). A letter closes the pending number; a zero length is
/// dropped.
pub open spec fn cigar_parse_state(s: Seq<char>, k: int) -> (Seq<(char, usize)>, nat)
    decreases k,
{
    if k <= 0 {
        (Seq::empty(), 0)
    } else {
        let (ops, num) = cigar_parse_state(s, k - 1);
        let c = s[k - 1];
        if is_digit(c) {
            let v: nat = (num * 10 + (c as int - '0' as int)) as nat;
            (ops, if v > usize::MAX {
                usize::MAX as nat
            } else {
                v
            })
        } else if num > 0 {
            (ops.push((c, num as usize)), 0)
        } else {
            (ops, 0)
        }
    }
}

/// Splits CIGAR text into `(op, length)` pairs.
pub fn parse_cigar(cigar: &str) -> (result: Vec<(char, usize)>)
    ensures
        result@ == cigar_parse_state(cigar@, cigar@.len() as int).0,
{
    let len = cigar.unicode_len();
    let mut result: Vec<(char, usize)> = Vec::new();
    let mut num: usize = 0;
    let mut k: usize = 0;
    while k < len
        invariant
            len == cigar@.len(),
            k <= len,
            (result@, num as nat) == cigar_parse_state(cigar@, k as int),
        decreases len - k,
    {
        let ch = cigar.get_char(k);
        if '0' <= ch && ch <= '9' {
            let d = (ch as u32 - '0' as u32) as usize;
            if num > (usize::MAX - d) / 10 {
                num = usize::MAX;
            } else {
                num = num * 10 + d;
            }
        } else {
            if num > 0 {
                result.push((ch, num));
            }
            num = 0;
        }
        k += 1;
    }
    result
}

proof fn lemma_digit_value(d: nat)
    requires
        d < 10,
    ensures
        is_digit(digit_char(d)) && digit_char(d) as int - '0' as int == d,
{
}

/// Query bases of parsed CIGAR runs (M and I).
pub open spec fn runs_query(rs: Seq<(char, usize)>) -> int
    decreases rs.len(),
{
    if rs.len() == 0 {
        0
    } else {
        (if rs[0].0 == 'M' || rs[0].0 == 'I' {
            rs[0].1 as int
        } else {
            0
        }) + runs_query(rs.drop_first())
    }
}

/// Reference bases of parsed CIGAR runs (M and D).
pub open spec fn runs_ref(rs: Seq<(char, usize)>) -> int
    decreases rs.len(),
{
    if rs.len() == 0 {
        0
    } else {
        (if rs[0].0 == 'M' || rs[0].0 == 'D' {
            rs[0].1 as int
        } else {
            0
        }) + runs_ref(rs.drop_first())
    }
}

/// The runs that `cigar_from(ops, c, n)` prints.
pub open spec fn runs_from(ops: Seq<char>, c: char, n: nat) -> Seq<(char, usize)>
    decreases ops.len(),
{
    if ops.len() == 0 {
        seq![(c, n as usize)]
    } else if ops[0] == c {
        runs_from(ops.drop_first(), c, n + 1)
    } else {
        seq![(c, n as usize)] + runs_from(ops.drop_first(), ops[0], 1)
    }
}

proof fn lemma_parse_prefix(s1: Seq<char>, s2: Seq<char>, k: int)
    requires
        0 <= k <= s1.len(),
        k <= s2.len(),
        s1.subrange(0, k) == s2.subrange(0, k),
    ensures
        cigar_parse_state(s1, k) == cigar_parse_state(s2, k),
    decreases k,
{
    if k > 0 {
        assert(s1.subrange(0, k - 1) =~= s2.subrange(0, k - 1)) by {
            assert(s1.subrange(0, k - 1) =~= s1.subrange(0, k).subrange(0, k - 1));
            assert(s2.subrange(0, k - 1) =~= s2.subrange(0, k).subrange(0, k - 1));
        }
        lemma_parse_prefix(s1, s2, k - 1);
        assert(s1[k - 1] == s1.subrange(0, k)[k - 1]);
        assert(s2[k - 1] == s2.subrange(0, k)[k - 1]);
    }
}

proof fn lemma_parse_concat(a: Seq<char>, b: Seq<char>, k: int)
    requires
        cigar_parse_state(a, a.len() as int).1 == 0,
        0 <= k <= b.len(),
    ensures
        cigar_parse_state(a + b, a.len() + k) == (
            cigar_parse_state(a, a.len() as int).0 + cigar_parse_state(b, k).0,
            cigar_parse_state(b, k).1,
        ),
    decreases k,
{
    if k == 0 {
        assert((a + b).subrange(0, a.len() as int) =~= a.subrange(0, a.len() as int));
        lemma_parse_prefix(a + b, a, a.len() as int);
        assert(cigar_parse_state(a, a.len() as int).0 + Seq::<(char, usize)>::empty() =~= cigar_parse_state(
            a,
            a.len() as int,
        ).0);
    } else {
        lemma_parse_concat(a, b, k - 1);
        assert((a + b)[a.len() + k - 1] == b[k - 1]);
        let pa = cigar_parse_state(a, a.len() as int).0;
        let pb = cigar_parse_state(b, k - 1);
        let c = b[k - 1];
        if !is_digit(c) && pb.1 > 0 {
            assert((pa + pb.0).push((c, pb.1 as usize)) =~= pa + pb.0.push((c, pb.1 as usize)));
        }
    }
}

proof fn lemma_parse_decimal(v: nat)
    requires
        v <= usize::MAX,
    ensures
        cigar_parse_state(decimal(v), decimal(v).len() as int) == (Seq::<(char, usize)>::empty(), v),
        decimal(v).len() >= 1,
    decreases v,
{
    if v < 10 {
        lemma_digit_value(v);
        reveal_with_fuel(cigar_parse_state, 2);
    } else {
        let pre = decimal(v / 10);
        lemma_parse_decimal(v / 10);
        lemma_digit_value(v % 10);
        let s = decimal(v);
        assert(s == pre.push(digit_char(v % 10)));
        assert(s.subrange(0, pre.len() as int) =~= pre.subrange(0, pre.len() as int));
        lemma_parse_prefix(s, pre, pre.len() as int);
        assert(v == (v / 10) * 10 + v % 10) by (nonlinear_arith);
    }
}

proof fn lemma_parse_run(n: nat, c: char)
    requires
        1 <= n <= usize::MAX,
        is_op(c),
    ensures
        cigar_parse_state(decimal(n).push(c), decimal(n).len() + 1 as int) == (seq![(c, n as usize)], 0nat),
{
    lemma_parse_decimal(n);
    let s = decimal(n).push(c);
    assert(s.subrange(0, decimal(n).len() as int) =~= decimal(n).subrange(0, decimal(n).len() as int));
    lemma_parse_prefix(s, decimal(n), decimal(n).len() as int);
    assert(Seq::<(char, usize)>::empty().push((c, n as usize)) =~= seq![(c, n as usize)]);
}

proof fn lemma_parse_cigar_from(ops: Seq<char>, c: char, n: nat)
    requires
        forall|k: int| 0 <= k < ops.len() ==> is_op(#[trigger] ops[k]),
        is_op(c),
        1 <= n,
        n + ops.len() <= usize::MAX,
    ensures
        cigar_parse_state(cigar_from(ops, c, n), cigar_from(ops, c, n).len() as int) == (runs_from(ops, c, n), 0nat),
    decreases ops.len(),
{
    if ops.len() == 0 {
        lemma_parse_run(n, c);
    } else {
        assert forall|k: int| 0 <= k < ops.drop_first().len() implies is_op(#[trigger] ops.drop_first()[k]) by {
            assert(ops.drop_first()[k] == ops[k + 1]);
        }
        assert(is_op(ops[0]));
        if ops[0] == c {
            lemma_parse_cigar_from(ops.drop_first(), c, n + 1);
        } else {
            let head = decimal(n).push(c);
            let tail = cigar_from(ops.drop_first(), ops[0], 1);
            lemma_parse_run(n, c);
            lemma_parse_cigar_from(ops.drop_first(), ops[0], 1);
            lemma_parse_concat(head, tail, tail.len() as int);
        }
    }
}

proof fn lemma_runs_from_counts(ops: Seq<char>, c: char, n: nat)
    requires
        n + ops.len() <= usize::MAX,
    ensures
        runs_query(runs_from(ops, c, n)) == (if c == 'M' || c == 'I' {
            n as int
        } else {
            0
        }) + query_len(ops),
        runs_ref(runs_from(ops, c, n)) == (if c == 'M' || c == 'D' {
            n as int
        } else {
            0
        }) + ref_len(ops),
    decreases ops.len(),
{
    if ops.len() == 0 {
        reveal_with_fuel(runs_query, 2);
        reveal_with_fuel(runs_ref, 2);
    } else if ops[0] == c {
        lemma_runs_from_counts(ops.drop_first(), c, n + 1);
    } else {
        lemma_runs_from_counts(ops.drop_first(), ops[0], 1);
        let r = runs_from(ops.drop_first(), ops[0], 1);
        assert((seq![(c, n as usize)] + r).drop_first() =~= r);
    }
}

/// CIGAR accounting on the text: parsing the CIGAR printed for a sequence
/// of M/I/D ops gives runs whose M and I lengths add up to the query bases
/// the ops consume, and whose M and D lengths add up to the reference bases.
pub proof fn lemma_cigar_accounting(ops: Seq<char>)
    requires
        forall|k: int| 0 <= k < ops.len() ==> is_op(#[trigger] ops[k]),
        ops.len() <= usize::MAX,
    ensures
        runs_query(cigar_parse_state(cigar_text(ops), cigar_text(ops).len() as int).0) == query_len(ops),
        runs_ref(cigar_parse_state(cigar_text(ops), cigar_text(ops).len() as int).0) == ref_len(ops),
{
    if ops.len() > 0 {
        assert forall|k: int| 0 <= k < ops.drop_first().len() implies is_op(#[trigger] ops.drop_first()[k]) by {
            assert(ops.drop_first()[k] == ops[k + 1]);
        }
        assert(is_op(ops[0]));
        lemma_parse_cigar_from(ops.drop_first(), ops[0], 1);
        lemma_runs_from_counts(ops.drop_first(), ops[0], 1);
    }
}

/// CIGAR accounting for an alignment: parsing its CIGAR gives M+I lengths
/// equal to `query_end - query_start` and M+D lengths equal to
/// `ref_end - ref_start`.
pub proof fn lemma_sw_cigar_accounting(q: Seq<u8>, r: Seq<u8>, p: SwParams, res: &SwResult)
    requires
        sw_result_ok(q, r, p, res),
        q.len() + r.len() <= usize::MAX,
    ensures
        runs_query(cigar_parse_state(res.cigar@, res.cigar@.len() as int).0) == res.query_end - res.query_start,
        runs_ref(cigar_parse_state(res.cigar@, res.cigar@.len() as int).0) == res.ref_end - res.ref_start,
{
    if !(q.len() == 0 || r.len() == 0 || sw_best(q, r, p).0 <= 0) {
        let b = sw_best(q, r, p);
        let t = traceback(q, r, p, b.1, b.2);
        lemma_ops_len(t.0);
        lemma_cigar_accounting(t.0);
    } else {
        assert(res.cigar@.len() == 0);
    }
}

} // verus!