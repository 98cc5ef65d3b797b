//! Linear systems over GF(2) whose unknowns are byte strings: each equation
//! says that the XOR of some symbols equals a right-hand side.
use vstd::prelude::*;

verus! {

/// A string of `n` zero bytes.
pub open spec fn zeros(n: nat) -> Seq<u8> {
    Seq::new(n, |i: int| 0u8)
}

/// Bytewise XOR of two strings of equal length.
pub open spec fn xor_seq(a: Seq<u8>, b: Seq<u8>) -> Seq<u8> {
    Seq::new(a.len(), |i: int| a[i] ^ b[i])
}

/// The views of a vector of byte vectors.
pub open spec fn views(c: Seq<Vec<u8>>) -> Seq<Seq<u8>> {
    c.map_values(|v: Vec<u8>| v@)
}

/// Every entry of a row is a bit.
pub open spec fn is_bits(row: Seq<u8>) -> bool {
    forall|j: int| 0 <= j < row.len() ==> #[trigger] row[j] <= 1
}

/// Every string in `c` has length `t`.
pub open spec fn all_len(c: Seq<Seq<u8>>, t: nat) -> bool {
    forall|j: int| 0 <= j < c.len() ==> (#[trigger] c[j]).len() == t
}

/// The XOR of the symbols `c[j]`, j < n, whose bit in `row` is 1.
pub open spec fn combine(row: Seq<u8>, c: Seq<Seq<u8>>, t: nat, n: nat) -> Seq<u8>
    decreases n,
{
    if n == 0 {
        zeros(t)
    } else {
        let acc = combine(row, c, t, (n - 1) as nat);
        if row[n - 1] == 1 {
            xor_seq(acc, c[n - 1])
        } else {
            acc
        }
    }
}

/// `c` satisfies the equation `row` with right-hand side `rhs`.
pub open spec fn satisfies(row: Seq<u8>, c: Seq<Seq<u8>>, t: nat, rhs: Seq<u8>) -> bool {
    combine(row, c, t, row.len()) == rhs
}

/// `c` satisfies every equation of the system.
pub open spec fn solves(rows: Seq<Seq<u8>>, rhs: Seq<Seq<u8>>, c: Seq<Seq<u8>>, t: nat) -> bool {
    forall|i: int| 0 <= i < rows.len() ==> satisfies(#[trigger] rows[i], c, t, rhs[i])
}

pub proof fn lemma_combine_len(row: Seq<u8>, c: Seq<Seq<u8>>, t: nat, n: nat)
    requires
        n <= row.len(),
        n <= c.len(),
        all_len(c, t),
    ensures
        combine(row, c, t, n).len() == t,
    decreases n,
{
    if n > 0 {
        lemma_combine_len(row, c, t, (n - 1) as nat);
    }
}

pub proof fn lemma_byte_xor(a: u8, b: u8, c: u8, d: u8)
    by (bit_vector)
    ensures
        a ^ 0u8 == a,
        0u8 ^ a == a,
        a ^ a == 0u8,
        (a ^ b) ^ c == (a ^ c) ^ b,
        (a ^ b) ^ (c ^ d) == (a ^ c) ^ (b ^ d),
        a ^ b == b ^ a,
        (a ^ b) ^ b == a,
        (a ^ b) ^ c == a ^ (b ^ c),
{
}

pub proof fn lemma_bit_xor(a: u8, b: u8)
    by (bit_vector)
    requires
        a <= 1,
        b <= 1,
    ensures
        (a ^ b) <= 1,
        ((a ^ b) == 1) == (a != b),
{
}

/// XOR of strings of length `t`: zero is neutral, each string is its own
/// inverse, and terms may be reordered.
proof fn lemma_xor_seq(a: Seq<u8>, b: Seq<u8>, c: Seq<u8>, d: Seq<u8>, t: nat)
    requires
        a.len() == t,
        b.len() == t,
        c.len() == t,
        d.len() == t,
    ensures
        xor_seq(a, zeros(t)) == a,
        xor_seq(zeros(t), a) == a,
        xor_seq(a, a) == zeros(t),
        xor_seq(xor_seq(a, b), c) == xor_seq(xor_seq(a, c), b),
        xor_seq(xor_seq(a, b), xor_seq(c, d)) == xor_seq(xor_seq(a, c), xor_seq(b, d)),
        xor_seq(a, b) == xor_seq(b, a),
        xor_seq(xor_seq(a, b), b) == a,
        xor_seq(xor_seq(a, b), c) == xor_seq(a, xor_seq(b, c)),
{
    assert forall|i: int| 0 <= i < t implies {
        &&& #[trigger] xor_seq(a, zeros(t))[i] == a[i]
        &&& xor_seq(zeros(t), a)[i] == a[i]
        &&& xor_seq(a, a)[i] == zeros(t)[i]
        &&& xor_seq(xor_seq(a, b), c)[i] == xor_seq(xor_seq(a, c), b)[i]
        &&& xor_seq(xor_seq(a, b), xor_seq(c, d))[i] == xor_seq(xor_seq(a, c), xor_seq(b, d))[i]
        &&& xor_seq(a, b)[i] == xor_seq(b, a)[i]
        &&& xor_seq(xor_seq(a, b), b)[i] == a[i]
        &&& xor_seq(xor_seq(a, b), c)[i] == xor_seq(a, xor_seq(b, c))[i]
    } by {
        lemma_byte_xor(a[i], b[i], c[i], d[i]);
    }
    assert(xor_seq(a, zeros(t)) =~= a);
    assert(xor_seq(zeros(t), a) =~= a);
    assert(xor_seq(a, a) =~= zeros(t));
    assert(xor_seq(xor_seq(a, b), c) =~= xor_seq(xor_seq(a, c), b));
    assert(xor_seq(xor_seq(a, b), xor_seq(c, d)) =~= xor_seq(xor_seq(a, c), xor_seq(b, d)));
    assert(xor_seq(a, b) =~= xor_seq(b, a));
    assert(xor_seq(xor_seq(a, b), b) =~= a);
    assert(xor_seq(xor_seq(a, b), c) =~= xor_seq(a, xor_seq(b, c)));
}

/// Symbol-wise XOR of two arrays of symbols.
pub open spec fn add_syms(c1: Seq<Seq<u8>>, c2: Seq<Seq<u8>>) -> Seq<Seq<u8>> {
    Seq::new(c1.len(), |j: int| xor_seq(c1[j], c2[j]))
}

/// `combine` is linear in the row.
proof fn lemma_combine_xor_rows(r1: Seq<u8>, r2: Seq<u8>, c: Seq<Seq<u8>>, t: nat, n: nat)
    requires
        r1.len() == r2.len(),
        n <= r1.len(),
        n <= c.len(),
        is_bits(r1),
        is_bits(r2),
        all_len(c, t),
    ensures
        combine(xor_seq(r1, r2), c, t, n) == xor_seq(combine(r1, c, t, n), combine(r2, c, t, n)),
    decreases n,
{
    if n == 0 {
        lemma_xor_seq(zeros(t), zeros(t), zeros(t), zeros(t), t);
    } else {
        let m = (n - 1) as nat;
        lemma_combine_xor_rows(r1, r2, c, t, m);
        lemma_combine_len(r1, c, t, m);
        lemma_combine_len(r2, c, t, m);
        let a = combine(r1, c, t, m);
        let b = combine(r2, c, t, m);
        let x = c[m as int];
        let v1 = r1[m as int];
        let v2 = r2[m as int];
        lemma_bit_xor(v1, v2);
        assert(xor_seq(r1, r2)[m as int] == v1 ^ v2);
        let xr = combine(xor_seq(r1, r2), c, t, m);
        assert(xr == xor_seq(a, b));
        if v1 == 1 && v2 == 1 {
            lemma_xor_seq(a, x, b, x, t);
            lemma_xor_seq(x, x, x, x, t);
            lemma_xor_seq(xor_seq(a, b), zeros(t), x, x, t);
            assert(xor_seq(xor_seq(a, x), xor_seq(b, x)) == xor_seq(xor_seq(a, b), xor_seq(x, x)));
            assert(combine(r1, c, t, n) == xor_seq(a, x));
            assert(combine(r2, c, t, n) == xor_seq(b, x));
            assert(combine(xor_seq(r1, r2), c, t, n) == xr);
        } else if v1 == 1 {
            lemma_xor_seq(a, b, x, x, t);
            assert(combine(xor_seq(r1, r2), c, t, n) == xor_seq(xr, x));
            assert(combine(r1, c, t, n) == xor_seq(a, x));
            assert(combine(r2, c, t, n) == b);
        } else if v2 == 1 {
            lemma_xor_seq(a, b, x, x, t);
            lemma_xor_seq(a, x, b, x, t);
            assert(combine(xor_seq(r1, r2), c, t, n) == xor_seq(xr, x));
            assert(combine(r1, c, t, n) == a);
            assert(combine(r2, c, t, n) == xor_seq(b, x));
            lemma_xor_seq(a, b, x, x, t);
        } else {
            assert(combine(xor_seq(r1, r2), c, t, n) == xr);
        }
    }
}

/// `combine` is linear in the symbols.
proof fn lemma_combine_add(row: Seq<u8>, c1: Seq<Seq<u8>>, c2: Seq<Seq<u8>>, t: nat, n: nat)
    requires
        n <= row.len(),
        n <= c1.len(),
        c1.len() == c2.len(),
        all_len(c1, t),
        all_len(c2, t),
    ensures
        combine(row, add_syms(c1, c2), t, n) == xor_seq(combine(row, c1, t, n), combine(row, c2, t, n)),
    decreases n,
{
    if n == 0 {
        lemma_xor_seq(zeros(t), zeros(t), zeros(t), zeros(t), t);
    } else {
        let m = (n - 1) as nat;
        lemma_combine_add(row, c1, c2, t, m);
        lemma_combine_len(row, c1, t, m);
        lemma_combine_len(row, c2, t, m);
        let a = combine(row, c1, t, m);
        let b = combine(row, c2, t, m);
        lemma_xor_seq(a, b, c1[m as int], c2[m as int], t);
    }
}

/// Where only columns `a` and `b` can contribute, the row combines to
/// their symbols alone.
proof fn lemma_combine_two(row: Seq<u8>, c: Seq<Seq<u8>>, t: nat, n: nat, a: nat, b: nat)
    requires
        n <= row.len(),
        n <= c.len(),
        all_len(c, t),
        a != b,
        forall|j: int| 0 <= j < n && j != a && j != b ==> row[j] != 1 || c[j] == zeros(t),
    ensures
        combine(row, c, t, n) == xor_seq(pick(row, c, t, n, a), pick(row, c, t, n, b)),
    decreases n,
{
    if n == 0 {
        lemma_xor_seq(zeros(t), zeros(t), zeros(t), zeros(t), t);
    } else {
        let m = (n - 1) as nat;
        lemma_combine_two(row, c, t, m, a, b);
        lemma_combine_len(row, c, t, m);
        let pa = pick(row, c, t, m, a);
        let pb = pick(row, c, t, m, b);
        let x = c[m as int];
        lemma_xor_seq(pa, pb, x, x, t);
        lemma_xor_seq(xor_seq(pa, pb), zeros(t), x, x, t);
        lemma_xor_seq(pa, x, pb, x, t);
        lemma_xor_seq(pb, x, pa, x, t);
        lemma_xor_seq(x, pb, pa, pa, t);
        lemma_xor_seq(pa, pb, pa, pb, t);
    }
}

/// Symbol `a` if row bit `a` is set and below `n`; zeros otherwise.
pub open spec fn pick(row: Seq<u8>, c: Seq<Seq<u8>>, t: nat, n: nat, a: nat) -> Seq<u8> {
    if a < n && row[a as int] == 1 {
        c[a as int]
    } else {
        zeros(t)
    }
}

/// A fresh string of `n` zero bytes.
pub fn zero_vec(n: usize) -> (r: Vec<u8>)
    ensures
        r@ == zeros(n as nat),
{
    let mut v: Vec<u8> = Vec::with_capacity(n);
    let mut i: usize = 0;
    while i < n
        invariant
            i <= n,
            v@ == zeros(i as nat),
        decreases n - i,
    {
        v.push(0);
        i = i + 1;
        assert(v@ =~= zeros(i as nat));
    }
    v
}

/// A copy of `a`.
pub fn copy_vec(a: &Vec<u8>) -> (r: Vec<u8>)
    ensures
        r@ == a@,
{
    let mut v: Vec<u8> = Vec::with_capacity(a.len());
    let mut i: usize = 0;
    while i < a.len()
        invariant
            i <= a.len(),
            v@ == a@.subrange(0, i as int),
        decreases a.len() - i,
    {
        v.push(a[i]);
        i = i + 1;
        assert(v@ =~= a@.subrange(0, i as int));
    }
    assert(v@ =~= a@);
    v
}

/// Bytewise XOR of `a` and `b`.
pub fn xor_vec(a: &Vec<u8>, b: &Vec<u8>) -> (r: Vec<u8>)
    requires
        a.len() == b.len(),
    ensures
        r@ == xor_seq(a@, b@),
{
    let mut v: Vec<u8> = Vec::with_capacity(a.len());
    let mut i: usize = 0;
    while i < a.len()
        invariant
            i <= a.len(),
            a.len() == b.len(),
            v@ == xor_seq(a@, b@).subrange(0, i as int),
        decreases a.len() - i,
    {
        v.push(a[i] ^ b[i]);
        i = i + 1;
        assert(v@ =~= xor_seq(a@, b@).subrange(0, i as int));
    }
    assert(v@ =~= xor_seq(a@, b@));
    v
}

/// Whether two byte strings are equal.
pub fn equal_vec(a: &Vec<u8>, b: &Vec<u8>) -> (r: bool)
    ensures
        r == (a@ == b@),
{
    if a.len() != b.len() {
        return false;
    }
    let mut i: usize = 0;
    while i < a.len()
        invariant
            i <= a.len(),
            a.len() == b.len(),
            forall|j: int| 0 <= j < i ==> a@[j] == b@[j],
        decreases a.len() - i,
    {
        if a[i] != b[i] {
            return false;
        }
        i = i + 1;
    }
    assert(a@ =~= b@);
    true
}

/// The XOR of the symbols `c[j]` whose bit in `row` is 1.
pub fn apply_row(row: &Vec<u8>, c: &Vec<Vec<u8>>, t: usize) -> (r: Vec<u8>)
    requires
        row.len() <= c.len(),
        all_len(views(c@), t as nat),
    ensures
        r@ == combine(row@, views(c@), t as nat, row.len() as nat),
{
    let mut acc = zero_vec(t);
    let mut j: usize = 0;
    while j < row.len()
        invariant
            j <= row.len(),
            row.len() <= c.len(),
            all_len(views(c@), t as nat),
            acc@ == combine(row@, views(c@), t as nat, j as nat),
        decreases row.len() - j,
    {
        proof {
            lemma_combine_len(row@, views(c@), t as nat, j as nat);
            assert(views(c@)[j as int] == c@[j as int]@);
        }
        if row[j] == 1 {
            acc = xor_vec(&acc, &c[j]);
        }
        j = j + 1;
    }
    acc
}

/// Whether `c` satisfies every equation of the system.
pub fn check_solution(rows: &Vec<Vec<u8>>, rhs: &Vec<Vec<u8>>, c: &Vec<Vec<u8>>, t: usize) -> (r:
    bool)
    requires
        rows.len() == rhs.len(),
        forall|i: int| 0 <= i < rows.len() ==> (#[trigger] rows@[i]).len() <= c.len(),
        all_len(views(c@), t as nat),
    ensures
        r == solves(views(rows@), views(rhs@), views(c@), t as nat),
{
    let mut i: usize = 0;
    while i < rows.len()
        invariant
            i <= rows.len(),
            rows.len() == rhs.len(),
            forall|i: int| 0 <= i < rows.len() ==> (#[trigger] rows@[i]).len() <= c.len(),
            all_len(views(c@), t as nat),
            forall|e: int|
                0 <= e < i ==> satisfies(
                    #[trigger] views(rows@)[e],
                    views(c@),
                    t as nat,
                    views(rhs@)[e],
                ),
        decreases rows.len() - i,
    {
        let v = apply_row(&rows[i], c, t);
        if !equal_vec(&v, &rhs[i]) {
            assert(!satisfies(views(rows@)[i as int], views(c@), t as nat, views(rhs@)[i as int]));
            return false;
        }
        i = i + 1;
    }
    true
}


/// Every row of `rows` has length `n`.
pub open spec fn rows_len(rows: Seq<Vec<u8>>, n: nat) -> bool {
    forall|i: int| 0 <= i < rows.len() ==> (#[trigger] rows[i]).len() == n
}

/// `c` is an array of `l` symbols of `t` bytes that solves the system.
pub open spec fn is_solution(rows: Seq<Seq<u8>>, rhs: Seq<Seq<u8>>, c: Seq<Seq<u8>>, l: nat, t: nat) -> bool {
    c.len() == l && all_len(c, t) && solves(rows, rhs, c, t)
}

/// The system has exactly one solution.
pub open spec fn unique_solution(rows: Seq<Seq<u8>>, rhs: Seq<Seq<u8>>, l: nat, t: nat) -> bool {
    exists|c0: Seq<Seq<u8>>|
        #[trigger] is_solution(rows, rhs, c0, l, t) && forall|c1: Seq<Seq<u8>>|
            #[trigger] is_solution(rows, rhs, c1, l, t) ==> c1 == c0
}

/// The two systems have the same solutions.
pub open spec fn equivalent(
    r1: Seq<Seq<u8>>,
    s1: Seq<Seq<u8>>,
    r2: Seq<Seq<u8>>,
    s2: Seq<Seq<u8>>,
    l: nat,
    t: nat,
) -> bool {
    forall|c: Seq<Seq<u8>>|
        #![trigger solves(r1, s1, c, t)]
        #![trigger solves(r2, s2, c, t)]
        c.len() == l && all_len(c, t) ==> (solves(r1, s1, c, t) <==> solves(r2, s2, c, t))
}

/// Every row has `l` bits and every right-hand side `t` bytes.
pub open spec fn shaped(rows: Seq<Seq<u8>>, rhs: Seq<Seq<u8>>, l: nat, t: nat) -> bool {
    &&& rows.len() == rhs.len()
    &&& forall|i: int| 0 <= i < rows.len() ==> (#[trigger] rows[i]).len() == l && is_bits(rows[i])
    &&& forall|i: int| 0 <= i < rhs.len() ==> (#[trigger] rhs[i]).len() == t
}

/// Adding equation `p` to equation `e` keeps the solutions.
proof fn lemma_row_op(r: Seq<Seq<u8>>, s: Seq<Seq<u8>>, e: int, p: int, l: nat, t: nat)
    requires
        shaped(r, s, l, t),
        0 <= e < r.len(),
        0 <= p < r.len(),
        e != p,
    ensures
        equivalent(
            r,
            s,
            r.update(e, xor_seq(r[e], r[p])),
            s.update(e, xor_seq(s[e], s[p])),
            l,
            t,
        ),
        shaped(r.update(e, xor_seq(r[e], r[p])), s.update(e, xor_seq(s[e], s[p])), l, t),
{
    let r2 = r.update(e, xor_seq(r[e], r[p]));
    let s2 = s.update(e, xor_seq(s[e], s[p]));
    assert forall|j: int| 0 <= j < l implies #[trigger] xor_seq(r[e], r[p])[j] <= 1 by {
        lemma_bit_xor(r[e][j], r[p][j]);
    }
    assert forall|c: Seq<Seq<u8>>| c.len() == l && all_len(c, t) implies (solves(r, s, c, t)
        <==> solves(r2, s2, c, t)) by {
        lemma_combine_xor_rows(r[e], r[p], c, t, l);
        lemma_combine_len(r[e], c, t, l);
        lemma_combine_len(r[p], c, t, l);
        let ce = combine(r[e], c, t, l);
        let cp = combine(r[p], c, t, l);
        lemma_xor_seq(ce, cp, cp, cp, t);
        if solves(r, s, c, t) {
            assert(satisfies(r[e], c, t, s[e]));
            assert(satisfies(r[p], c, t, s[p]));
            assert forall|i: int| 0 <= i < r2.len() implies satisfies(#[trigger] r2[i], c, t, s2[i]) by {
                if i != e {
                    assert(satisfies(r[i], c, t, s[i]));
                }
            }
        }
        if solves(r2, s2, c, t) {
            assert(satisfies(r2[e], c, t, s2[e]));
            assert(satisfies(r2[p], c, t, s2[p]));
            lemma_xor_seq(s[e], s[p], s[p], s[p], t);
            assert forall|i: int| 0 <= i < r.len() implies satisfies(#[trigger] r[i], c, t, s[i]) by {
                if i != e {
                    assert(satisfies(r2[i], c, t, s2[i]));
                }
            }
        }
    }
}

fn copy_rows(rows: &Vec<Vec<u8>>, n: Ghost<nat>) -> (r: Vec<Vec<u8>>)
    requires
        rows_len(rows@, n@),
    ensures
        r.len() == rows.len(),
        rows_len(r@, n@),
        views(r@) == views(rows@),
{
    let mut out: Vec<Vec<u8>> = Vec::with_capacity(rows.len());
    let mut i: usize = 0;
    while i < rows.len()
        invariant
            i <= rows.len(),
            out.len() == i,
            rows_len(rows@, n@),
            rows_len(out@, n@),
            forall|e: int| 0 <= e < i ==> (#[trigger] out@[e])@ == rows@[e]@,
        decreases rows.len() - i,
    {
        out.push(copy_vec(&rows[i]));
        i = i + 1;
    }
    assert(views(out@) =~= views(rows@));
    out
}

/// A column left without a pivot is zero in every row that was not yet a
/// pivot row when that column was passed.
spec fn free_zero(mat: Seq<Vec<u8>>, piv: Seq<usize>, col: int, n: int) -> bool {
    forall|f: int, x: int|
        0 <= f < col && piv[f] == n && 0 <= x < n && #[trigger] mat[x]@[f] != 0 ==> exists|j: int|
            0 <= j < f && #[trigger] piv[j] == x
}

/// A string of `t` one bytes.
spec fn ones(t: nat) -> Seq<u8> {
    Seq::new(t, |i: int| 1u8)
}

/// Solves the system by Gauss-Jordan elimination. A column without a pivot
/// makes the search fail unless `allow_free`, in which case that unknown is
/// set to zero. A result is handed back only after it has been checked
/// against every equation. With `allow_free` a result comes whenever the
/// system has a solution; without it, and for symbols longer than zero,
/// exactly when the system has exactly one solution.
pub fn solve_system(
    rows: &Vec<Vec<u8>>,
    rhs: &Vec<Vec<u8>>,
    l: usize,
    t: usize,
    allow_free: bool,
) -> (r: Option<Vec<Vec<u8>>>)
    requires
        rows.len() == rhs.len(),
        rows_len(rows@, l as nat),
        rows_len(rhs@, t as nat),
        forall|i: int| 0 <= i < rows.len() ==> is_bits(#[trigger] rows@[i]@),
    ensures
        r matches Some(c) ==> {
            &&& c.len() == l
            &&& all_len(views(c@), t as nat)
            &&& solves(views(rows@), views(rhs@), views(c@), t as nat)
        },
        !allow_free && t > 0 && unique_solution(views(rows@), views(rhs@), l as nat, t as nat)
            ==> r is Some,
        !allow_free && r is Some ==> unique_solution(views(rows@), views(rhs@), l as nat, t as nat),
        (forall|i: int| 0 <= i < rhs.len() ==> is_bits(#[trigger] rhs@[i]@)) ==> (r matches Some(c)
            ==> forall|j: int| 0 <= j < l ==> is_bits(#[trigger] c@[j]@)),
        allow_free && (exists|c0: Seq<Seq<u8>>|
            #[trigger] is_solution(views(rows@), views(rhs@), c0, l as nat, t as nat)) ==> r is Some,
{
    let ghost r0 = views(rows@);
    let ghost s0 = views(rhs@);
    let n = rows.len();
    let mut mat = copy_rows(rows, Ghost(l as nat));
    let mut sym = copy_rows(rhs, Ghost(t as nat));
    proof {
        assert forall|i: int| 0 <= i < r0.len() implies (#[trigger] r0[i]).len() == l && is_bits(
            r0[i],
        ) by {
            assert(r0[i] == rows@[i]@);
        }
        assert forall|i: int| 0 <= i < s0.len() implies (#[trigger] s0[i]).len() == t by {
            assert(s0[i] == rhs@[i]@);
        }
    }
    let ghost rb = forall|i: int| 0 <= i < rhs.len() ==> is_bits(#[trigger] rhs@[i]@);
    proof {
        assert forall|i: int| 0 <= i < n implies #[trigger] sym@[i]@ == rhs@[i]@ by {
            assert(views(sym@)[i] == sym@[i]@);
            assert(views(rhs@)[i] == rhs@[i]@);
        }
    }
    let mut used: Vec<bool> = Vec::with_capacity(n);
    let mut i: usize = 0;
    while i < n
        invariant
            i <= n,
            used.len() == i,
            forall|x: int| 0 <= x < i ==> !used@[x],
        decreases n - i,
    {
        used.push(false);
        i = i + 1;
    }
    let mut piv: Vec<usize> = Vec::with_capacity(l);
    let mut col: usize = 0;
    while col < l
        invariant
            col <= l,
            n == rows.len(),
            r0 == views(rows@),
            s0 == views(rhs@),
            mat.len() == n,
            sym.len() == n,
            used.len() == n,
            piv.len() == col,
            rows_len(mat@, l as nat),
            rows_len(sym@, t as nat),
            rb ==> forall|i: int| 0 <= i < n ==> is_bits(#[trigger] sym@[i]@),
            rb == (forall|i: int| 0 <= i < rhs.len() ==> is_bits(#[trigger] rhs@[i]@)),
            shaped(views(mat@), views(sym@), l as nat, t as nat),
            equivalent(r0, s0, views(mat@), views(sym@), l as nat, t as nat),
            forall|j: int| 0 <= j < col ==> (#[trigger] piv@[j]) <= n,
            !allow_free ==> forall|j: int| 0 <= j < col ==> (#[trigger] piv@[j]) < n,
            forall|j: int|
                0 <= j < col && #[trigger] piv@[j] < n ==> {
                    &&& used@[piv@[j] as int]
                    &&& mat@[piv@[j] as int]@[j] == 1
                    &&& forall|x: int|
                        0 <= x < n && x != piv@[j] ==> #[trigger] mat@[x]@[j] == 0
                },
            forall|j: int, k: int|
                0 <= j < k < col && piv@[j] < n && piv@[k] < n ==> piv@[j] != piv@[k],
            forall|x: int|
                0 <= x < n && #[trigger] used@[x] ==> exists|j: int|
                    0 <= j < col && #[trigger] piv@[j] == x,
            free_zero(mat@, piv@, col as int, n as int),
        decreases l - col,
    {
        let mut p: usize = n;
        let mut q: usize = 0;
        while q < n
            invariant
                q <= n,
                p == n || (p < n && !used@[p as int] && mat@[p as int]@[col as int] == 1),
                p == n ==> forall|x: int|
                    0 <= x < q ==> used@[x] || #[trigger] mat@[x]@[col as int] != 1,
                n == mat.len(),
                used.len() == n,
                col < l,
                rows_len(mat@, l as nat),
            decreases n - q,
        {
            if p == n && !used[q] && mat[q][col] == 1 {
                p = q;
            }
            q = q + 1;
        }
        if p == n {
            if !allow_free {
                proof {
                    lemma_no_pivot(r0, s0, mat@, sym@, piv@, used@, col as int, l as nat, t as nat);
                }
                return None;
            }
            let ghost piv_before = piv@;
            piv.push(n);
            proof {
                assert forall|x: int| 0 <= x < n && #[trigger] used@[x] implies exists|j: int|
                    0 <= j < col + 1 && #[trigger] piv@[j] == x by {
                    let j = choose|j: int| 0 <= j < col && #[trigger] piv_before[j] == x;
                    assert(piv@[j] == x);
                }
                assert forall|f: int, x: int|
                    0 <= f < col + 1 && piv@[f] == n && 0 <= x < n && #[trigger] mat@[x]@[f]
                        != 0 implies exists|j: int| 0 <= j < f && #[trigger] piv@[j] == x by {
                    if f == col {
                        assert(views(mat@)[x] == mat@[x]@);
                        assert(is_bits(views(mat@)[x]));
                        assert(mat@[x]@[f] <= 1);
                        assert(used@[x]);
                        let j = choose|j: int| 0 <= j < col && #[trigger] piv_before[j] == x;
                        assert(piv@[j] == x);
                    } else {
                        assert(piv@[f] == piv_before[f]);
                        let j = choose|j: int| 0 <= j < f && #[trigger] piv_before[j] == x;
                        assert(piv@[j] == x);
                    }
                }
            }
            col = col + 1;
            continue;
        }
        let ghost piv_before = piv@;
        used.set(p, true);
        piv.push(p);
        proof {
            assert forall|f: int, x: int|
                0 <= f < col && piv@[f] == n && 0 <= x < n && #[trigger] mat@[x]@[f]
                    != 0 implies exists|j: int| 0 <= j < f && #[trigger] piv@[j] == x by {
                assert(piv@[f] == piv_before[f]);
                let j = choose|j: int| 0 <= j < f && #[trigger] piv_before[j] == x;
                assert(piv@[j] == x);
            }
        }
        let prow = copy_vec(&mat[p]);
        let psym = copy_vec(&sym[p]);
        let mut e: usize = 0;
        while e < n
            invariant
                e <= n,
                p < n,
                col < l,
                n == rows.len(),
                mat.len() == n,
                sym.len() == n,
                used.len() == n,
                piv.len() == col + 1,
                piv@[col as int] == p,
                used@[p as int],
                prow@ == mat@[p as int]@,
                psym@ == sym@[p as int]@,
                mat@[p as int]@[col as int] == 1,
                rows_len(mat@, l as nat),
                rows_len(sym@, t as nat),
                rb ==> forall|i: int| 0 <= i < n ==> is_bits(#[trigger] sym@[i]@),
                rb == (forall|i: int| 0 <= i < rhs.len() ==> is_bits(#[trigger] rhs@[i]@)),
                shaped(views(mat@), views(sym@), l as nat, t as nat),
                equivalent(r0, s0, views(mat@), views(sym@), l as nat, t as nat),
                forall|j: int| 0 <= j < col ==> (#[trigger] piv@[j]) <= n,
                !allow_free ==> forall|j: int| 0 <= j < col ==> (#[trigger] piv@[j]) < n,
                forall|j: int| 0 <= j < col && #[trigger] piv@[j] < n ==> piv@[j] != p,
                forall|j: int|
                    0 <= j < col && #[trigger] piv@[j] < n ==> {
                        &&& used@[piv@[j] as int]
                        &&& mat@[piv@[j] as int]@[j] == 1
                        &&& forall|x: int|
                            0 <= x < n && x != piv@[j] ==> #[trigger] mat@[x]@[j] == 0
                    },
                forall|x: int|
                    0 <= x < e && x != p ==> #[trigger] mat@[x]@[col as int] == 0,
                free_zero(mat@, piv@, col as int, n as int),
            decreases n - e,
        {
            if e != p && mat[e][col] == 1 {
                let ghost vm = views(mat@);
                let ghost vs = views(sym@);
                proof {
                    lemma_row_op(vm, vs, e as int, p as int, l as nat, t as nat);
                    assert(vm[e as int] == mat@[e as int]@);
                    assert(vm[p as int] == mat@[p as int]@);
                    assert(vs[e as int] == sym@[e as int]@);
                    assert(vs[p as int] == sym@[p as int]@);
                }
                let ghost old_mat = mat@;
                let nr = xor_vec(&mat[e], &prow);
                mat.set(e, nr);
                let ghost old_sym = sym@;
                let ns = xor_vec(&sym[e], &psym);
                sym.set(e, ns);
                proof {
                    if rb {
                        assert forall|j: int| 0 <= j < sym@[e as int]@.len() implies #[trigger] sym@[e as int]@[j]
                            <= 1 by {
                            assert(is_bits(old_sym[e as int]@));
                            assert(is_bits(old_sym[p as int]@));
                            lemma_bit_xor(old_sym[e as int]@[j], old_sym[p as int]@[j]);
                        }
                        assert forall|i: int| 0 <= i < n implies is_bits(#[trigger] sym@[i]@) by {
                            if i != e {
                                assert(sym@[i] == old_sym[i]);
                            }
                        }
                    }
                }
                proof {
                    assert(views(mat@) =~= vm.update(e as int, xor_seq(vm[e as int], vm[p as int])));
                    assert(views(sym@) =~= vs.update(e as int, xor_seq(vs[e as int], vs[p as int])));
                    lemma_equivalent_trans(r0, s0, vm, vs, views(mat@), views(sym@), l as nat, t as nat);
                    assert forall|j: int|
                        0 <= j < col && #[trigger] piv@[j] < n implies {
                            &&& used@[piv@[j] as int]
                            &&& mat@[piv@[j] as int]@[j] == 1
                            &&& forall|x: int|
                                0 <= x < n && x != piv@[j] ==> #[trigger] mat@[x]@[j] == 0
                        } by {
                        let pj = piv@[j] as int;
                        assert(old_mat[p as int]@[j] == 0);
                        lemma_bit_xor(old_mat[e as int]@[j], old_mat[p as int]@[j]);
                        assert(mat@[e as int]@[j] == old_mat[e as int]@[j] ^ old_mat[p as int]@[j]);
                        assert forall|x: int| 0 <= x < n && x != pj implies #[trigger] mat@[x]@[j] == 0 by {
                            if x != e {
                                assert(mat@[x] == old_mat[x]);
                            } else {
                                assert(old_mat[x]@[j] == 0);
                            }
                        }
                        if pj != e {
                            assert(mat@[pj] == old_mat[pj]);
                        }
                    }
                    lemma_bit_xor(old_mat[e as int]@[col as int], old_mat[p as int]@[col as int]);
                    assert(mat@[e as int]@[col as int] == old_mat[e as int]@[col as int] ^ old_mat[p as int]@[col as int]);
                    assert forall|x: int| 0 <= x < e + 1 && x != p implies #[trigger] mat@[x]@[col as int] == 0 by {
                        if x != e {
                            assert(mat@[x] == old_mat[x]);
                        }
                    }
                    assert forall|f: int, x: int|
                        0 <= f < col && piv@[f] == n && 0 <= x < n && #[trigger] mat@[x]@[f]
                            != 0 implies exists|j: int| 0 <= j < f && #[trigger] piv@[j] == x by {
                        if x == e {
                            if old_mat[p as int]@[f] != 0 {
                                let j = choose|j: int| 0 <= j < f && #[trigger] piv@[j] == p;
                                assert(piv@[j] != p);
                            }
                            lemma_byte_xor(old_mat[e as int]@[f], 0, 0, 0);
                            assert(mat@[e as int]@[f] == old_mat[e as int]@[f] ^ old_mat[p as int]@[f]);
                            assert(old_mat[x]@[f] != 0);
                        } else {
                            assert(mat@[x] == old_mat[x]);
                        }
                    }
                }
            } else {
                proof {
                    if e != p {
                        assert(views(mat@)[e as int] == mat@[e as int]@);
                        assert(is_bits(views(mat@)[e as int]));
                        assert(mat@[e as int]@[col as int] <= 1);
                    }
                }
            }
            e = e + 1;
        }
        proof {
            assert forall|x: int| 0 <= x < n && #[trigger] used@[x] implies exists|j: int|
                0 <= j < col + 1 && #[trigger] piv@[j] == x by {
                if x == p {
                    assert(piv@[col as int] == x);
                } else {
                    let j = choose|j: int| 0 <= j < col && #[trigger] piv_before[j] == x;
                    assert(piv@[j] == x);
                }
            }
            assert forall|f: int, x: int|
                0 <= f < col + 1 && piv@[f] == n && 0 <= x < n && #[trigger] mat@[x]@[f]
                    != 0 implies exists|j: int| 0 <= j < f && #[trigger] piv@[j] == x by {
                assert(f < col);
                let j = choose|j: int| 0 <= j < f && #[trigger] piv@[j] == x;
            }
        }
        col = col + 1;
    }
    let mut c: Vec<Vec<u8>> = Vec::with_capacity(l);
    let mut j: usize = 0;
    while j < l
        invariant
            j <= l,
            c.len() == j,
            piv.len() == l,
            sym.len() == n,
            forall|k: int| 0 <= k < l ==> (#[trigger] piv@[k]) <= n,
            rows_len(sym@, t as nat),
            rows_len(c@, t as nat),
            forall|k: int| 0 <= k < j && #[trigger] piv@[k] < n ==> c@[k]@ == sym@[piv@[k] as int]@,
            forall|k: int| 0 <= k < j && #[trigger] piv@[k] == n ==> c@[k]@ == zeros(t as nat),
            rb ==> forall|i: int| 0 <= i < n ==> is_bits(#[trigger] sym@[i]@),
            rb ==> forall|k: int| 0 <= k < j ==> is_bits(#[trigger] c@[k]@),
        decreases l - j,
    {
        if piv[j] < n {
            c.push(copy_vec(&sym[piv[j]]));
        } else {
            c.push(zero_vec(t));
        }
        j = j + 1;
    }
    proof {
        assert(all_len(views(c@), t as nat)) by {
            assert forall|k: int| 0 <= k < views(c@).len() implies (#[trigger] views(c@)[k]).len()
                == t by {
                assert(views(c@)[k] == c@[k]@);
            }
        }
        if !allow_free {
            assert forall|k: int| 0 <= k < l implies views(c@)[k] == sym@[#[trigger] piv@[k] as int]@ by {
                assert(views(c@)[k] == c@[k]@);
            }
            lemma_pivots_determine(r0, s0, mat@, sym@, piv@, views(c@), l as nat, t as nat);
        }
    }
    proof {
        if allow_free && exists|c0: Seq<Seq<u8>>| #[trigger] is_solution(r0, s0, c0, l as nat, t as nat) {
            assert forall|k: int| 0 <= k < l implies views(c@)[k] == if #[trigger] piv@[k] < n {
                sym@[piv@[k] as int]@
            } else {
                zeros(t as nat)
            } by {
                assert(views(c@)[k] == c@[k]@);
            }
            lemma_free_solution(r0, s0, mat@, sym@, piv@, views(c@), l as nat, t as nat);
        }
    }
    if check_solution(rows, rhs, &c, t) {
        proof {
            if !allow_free {
                assert(is_solution(r0, s0, views(c@), l as nat, t as nat));
            }
        }
        Some(c)
    } else {
        None
    }
}

proof fn lemma_equivalent_trans(
    r1: Seq<Seq<u8>>,
    s1: Seq<Seq<u8>>,
    r2: Seq<Seq<u8>>,
    s2: Seq<Seq<u8>>,
    r3: Seq<Seq<u8>>,
    s3: Seq<Seq<u8>>,
    l: nat,
    t: nat,
)
    requires
        equivalent(r1, s1, r2, s2, l, t),
        equivalent(r2, s2, r3, s3, l, t),
    ensures
        equivalent(r1, s1, r3, s3, l, t),
{
    assert forall|c: Seq<Seq<u8>>| c.len() == l && all_len(c, t) implies (solves(r1, s1, c, t)
        <==> solves(r3, s3, c, t)) by {
        assert(solves(r1, s1, c, t) <==> solves(r2, s2, c, t));
    }
}


proof fn lemma_flip_byte(a: u8)
    by (bit_vector)
    ensures
        a ^ 1u8 != a,
{
}

/// Reduced echelon form on the first `col` columns: column j has its one in
/// row piv[j] and zeros elsewhere, and the pivot rows are distinct.
spec fn echelon(mat: Seq<Vec<u8>>, piv: Seq<usize>, col: int) -> bool {
    &&& piv.len() == col
    &&& forall|j: int| 0 <= j < col ==> (#[trigger] piv[j]) < mat.len()
    &&& forall|j: int|
        0 <= j < col ==> mat[#[trigger] piv[j] as int]@[j] == 1 && forall|x: int|
            0 <= x < mat.len() && x != piv[j] ==> #[trigger] mat[x]@[j] == 0
    &&& forall|j: int, k: int| 0 <= j < k < col ==> piv[j] != piv[k]
}

/// When no row is left for column `col`, a system that has a solution has a
/// second one: the first plus a vector of its kernel.
proof fn lemma_no_pivot(
    r0: Seq<Seq<u8>>,
    s0: Seq<Seq<u8>>,
    mat: Seq<Vec<u8>>,
    sym: Seq<Vec<u8>>,
    piv: Seq<usize>,
    used: Seq<bool>,
    col: int,
    l: nat,
    t: nat,
)
    requires
        shaped(views(mat), views(sym), l, t),
        equivalent(r0, s0, views(mat), views(sym), l, t),
        used.len() == mat.len(),
        0 <= col < l,
        echelon(mat, piv, col),
        forall|x: int|
            0 <= x < mat.len() && #[trigger] used[x] ==> exists|j: int|
                0 <= j < col && #[trigger] piv[j] == x,
        forall|x: int| 0 <= x < mat.len() ==> used[x] || #[trigger] mat[x]@[col] != 1,
    ensures
        !(t > 0 && unique_solution(r0, s0, l, t)),
{
    if t > 0 && unique_solution(r0, s0, l, t) {
        let m = views(mat);
        let sy = views(sym);
        let n = mat.len();
        let c0 = choose|c0: Seq<Seq<u8>>|
            #[trigger] is_solution(r0, s0, c0, l, t) && forall|c1: Seq<Seq<u8>>|
                #[trigger] is_solution(r0, s0, c1, l, t) ==> c1 == c0;
        assert(solves(m, sy, c0, t));
        let delta = Seq::new(
            l,
            |k: int|
                if k == col {
                    ones(t)
                } else if k < col && mat[piv[k] as int]@[col] == 1 {
                    ones(t)
                } else {
                    zeros(t)
                },
        );
        let c1 = add_syms(c0, delta);
        assert(all_len(delta, t));
        assert forall|k: int| 0 <= k < c1.len() implies (#[trigger] c1[k]).len() == t by {}
        assert forall|x: int| 0 <= x < m.len() implies satisfies(#[trigger] m[x], c1, t, sy[x]) by {
            let row = m[x];
            assert(row == mat[x]@);
            assert(satisfies(m[x], c0, t, sy[x]));
            lemma_combine_add(row, c0, delta, t, l);
            lemma_combine_len(row, delta, t, l);
            if exists|j: int| 0 <= j < col && #[trigger] piv[j] == x {
                let j = choose|j: int| 0 <= j < col && #[trigger] piv[j] == x;
                assert forall|k: int|
                    0 <= k < l && k != j && k != col implies row[k] != 1 || delta[k] == zeros(t) by {
                    if k < col {
                        assert(piv[k] != piv[j]);
                        assert(mat[x]@[k] == 0);
                    }
                }
                lemma_combine_two(row, delta, t, l, j as nat, col as nat);
                let v = pick(row, delta, t, l, j as nat);
                assert(v == pick(row, delta, t, l, col as nat));
                lemma_xor_seq(v, v, v, v, t);
            } else {
                assert(!used[x]);
                assert forall|k: int|
                    0 <= k < l && k != col && k != l implies row[k] != 1 || delta[k] == zeros(t) by {
                    if k < col {
                        assert(piv[k] != x);
                        assert(mat[x]@[k] == 0);
                    }
                }
                lemma_combine_two(row, delta, t, l, col as nat, l);
                lemma_xor_seq(zeros(t), zeros(t), zeros(t), zeros(t), t);
            }
            lemma_combine_len(row, c0, t, l);
            lemma_xor_seq(sy[x], zeros(t), zeros(t), zeros(t), t);
        }
        assert(solves(m, sy, c1, t));
        assert(is_solution(r0, s0, c1, l, t));
        assert(c1 == c0);
        assert(c1[col] == xor_seq(c0[col], ones(t)));
        lemma_flip_byte(c0[col][0]);
        assert(c1[col][0] != c0[col][0]);
    }
}

/// With a pivot in every column the pivot rows are unit rows, so every
/// solution is the one read off the right-hand sides.
proof fn lemma_pivots_determine(
    r0: Seq<Seq<u8>>,
    s0: Seq<Seq<u8>>,
    mat: Seq<Vec<u8>>,
    sym: Seq<Vec<u8>>,
    piv: Seq<usize>,
    cv: Seq<Seq<u8>>,
    l: nat,
    t: nat,
)
    requires
        shaped(views(mat), views(sym), l, t),
        equivalent(r0, s0, views(mat), views(sym), l, t),
        echelon(mat, piv, l as int),
        cv.len() == l,
        forall|k: int| 0 <= k < l ==> cv[k] == sym[#[trigger] piv[k] as int]@,
    ensures
        forall|c1: Seq<Seq<u8>>| #[trigger] is_solution(r0, s0, c1, l, t) ==> c1 == cv,
{
    let m = views(mat);
    let sy = views(sym);
    assert forall|c1: Seq<Seq<u8>>| #[trigger] is_solution(r0, s0, c1, l, t) implies c1 == cv by {
        assert(solves(m, sy, c1, t));
        assert forall|j: int| 0 <= j < l implies #[trigger] cv[j] == c1[j] by {
            let x = piv[j] as int;
            let row = m[x];
            assert(row == mat[x]@);
            assert(satisfies(m[x], c1, t, sy[x]));
            assert forall|k: int| 0 <= k < l && k != j && k != l implies row[k] != 1 || c1[k]
                == zeros(t) by {
                assert(piv[k] != piv[j]);
                assert(mat[x]@[k] == 0);
            }
            lemma_combine_two(row, c1, t, l, j as nat, l);
            lemma_xor_seq(c1[j], zeros(t), zeros(t), zeros(t), t);
            assert(sy[x] == sym[x]@);
        }
        assert(cv =~= c1);
    }
}


/// With free unknowns set to zero, the values read off the pivot rows solve
/// every system that has a solution at all.
proof fn lemma_free_solution(
    r0: Seq<Seq<u8>>,
    s0: Seq<Seq<u8>>,
    mat: Seq<Vec<u8>>,
    sym: Seq<Vec<u8>>,
    piv: Seq<usize>,
    cv: Seq<Seq<u8>>,
    l: nat,
    t: nat,
)
    requires
        shaped(views(mat), views(sym), l, t),
        equivalent(r0, s0, views(mat), views(sym), l, t),
        piv.len() == l,
        forall|j: int| 0 <= j < l ==> (#[trigger] piv[j]) <= mat.len(),
        forall|j: int|
            0 <= j < l && #[trigger] piv[j] < mat.len() ==> {
                &&& mat[piv[j] as int]@[j] == 1
                &&& forall|x: int| 0 <= x < mat.len() && x != piv[j] ==> #[trigger] mat[x]@[j] == 0
            },
        forall|j: int, k: int|
            0 <= j < k < l && piv[j] < mat.len() && piv[k] < mat.len() ==> piv[j] != piv[k],
        free_zero(mat, piv, l as int, mat.len() as int),
        cv.len() == l,
        forall|k: int|
            0 <= k < l ==> cv[k] == if #[trigger] piv[k] < mat.len() {
                sym[piv[k] as int]@
            } else {
                zeros(t)
            },
        exists|c0: Seq<Seq<u8>>| #[trigger] is_solution(r0, s0, c0, l, t),
    ensures
        solves(r0, s0, cv, t),
{
    let m = views(mat);
    let sy = views(sym);
    let n = mat.len() as int;
    let c0 = choose|c0: Seq<Seq<u8>>| #[trigger] is_solution(r0, s0, c0, l, t);
    assert(solves(m, sy, c0, t));
    assert(all_len(cv, t)) by {
        assert forall|k: int| 0 <= k < cv.len() implies (#[trigger] cv[k]).len() == t by {
            if piv[k] < n {
                assert(sy[piv[k] as int] == sym[piv[k] as int]@);
            }
        }
    }
    assert forall|x: int| 0 <= x < m.len() implies satisfies(#[trigger] m[x], cv, t, sy[x]) by {
        let row = m[x];
        assert(row == mat[x]@);
        assert(sy[x] == sym[x]@);
        if exists|j: int| 0 <= j < l && #[trigger] piv[j] == x {
            let j = choose|j: int| 0 <= j < l && #[trigger] piv[j] == x;
            assert forall|k: int| 0 <= k < l && k != j && k != l implies row[k] != 1 || cv[k]
                == zeros(t) by {
                if piv[k] < n {
                    assert(piv[k] != piv[j]);
                    assert(mat[x]@[k] == 0);
                }
            }
            lemma_combine_two(row, cv, t, l, j as nat, l);
            lemma_xor_seq(cv[j], zeros(t), zeros(t), zeros(t), t);
        } else {
            assert forall|k: int| 0 <= k < l && k != l && k != l + 1 implies row[k] != 1 by {
                if piv[k] < n {
                    assert(mat[x]@[k] == 0);
                } else if mat[x]@[k] != 0 {
                    let j = choose|j: int| 0 <= j < k && #[trigger] piv[j] == x;
                }
            }
            lemma_combine_two(row, cv, t, l, l, l + 1);
            lemma_combine_two(row, c0, t, l, l, l + 1);
            lemma_xor_seq(zeros(t), zeros(t), zeros(t), zeros(t), t);
            assert(satisfies(m[x], c0, t, sy[x]));
        }
    }
    assert(solves(m, sy, cv, t));
}

} // verus!
