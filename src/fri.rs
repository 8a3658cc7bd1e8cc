use vstd::arithmetic::power::pow;
use vstd::prelude::*;
use crate::bytes::{be_u64, read_be_u64};
use crate::error::StarkError;
use crate::field::{encode, fmul, FieldElement, P};
use crate::merkle::{
    branch_verifies, byte_strings, bytes_eq, copy_bytes, exp2, is_branch, is_merkle_tree, merkelize,
    mk_branch, verify_branch,
};
use crate::poly::{has_duplicate, ints, is_pow2, lagrange_at, lagrange_value, poly_eval, Poly, CAPACITY};
use crate::prover::is_a_power_of_2;
use crate::random::{
    compatible_modulus, extended_seed, extension_steps, get_pseudorandom_indices, index_from_word,
    is_compatible_modulus,
};

verus! {

/// The number of queries in each round.
pub const QUERIES: usize = 40;

/// The degree bound at or below which a proof stops folding and sends its values.
pub const FOLD_STOP: u128 = 16;

/// One round of a low-degree proof: the root of the folded column, the branches that open the
/// column at the queried rows, and the branches that open the four positions of each queried
/// row in the previous level. The last component carries the remaining values instead.
#[derive(Debug)]
pub struct FRIComponent {
    pub root: Vec<u8>,
    pub values: Vec<Vec<u8>>,
    pub ys_branches: Vec<Vec<Vec<u8>>>,
    pub positions_branches: Vec<Vec<Vec<u8>>>,
}

/// The 8-byte encodings of a sequence of field elements.
pub open spec fn encodings(values: Seq<FieldElement>) -> Seq<Seq<u8>> {
    values.map_values(|f: FieldElement| encode(f@))
}

/// Query `t` of a round whose column has `modulus` rows, drawn from the column root `seed`.
pub open spec fn query_index(seed: Seq<u8>, modulus: int, e: int, t: int) -> int {
    index_from_word(
        be_u64(extended_seed(seed, extension_steps(seed.len(), (8 * QUERIES) as nat)), 8 * t),
        modulus,
        e,
    )
}

/// `w` has multiplicative order exactly `n`.
pub open spec fn has_order(w: int, n: nat) -> bool {
    &&& n >= 1
    &&& pow(w, n) % (P as int) == 1
    &&& forall|i: int| 0 < i < n ==> #[trigger] pow(w, i as nat) % (P as int) != 1
}

/// What the folding rounds need, level by level until the degree bound reaches `FOLD_STOP`: a
/// number of values that is a power of two, a multiple of four and the order of the level's
/// root, and a query
/// range that fits the exclusion.
pub open spec fn levels_valid(n: nat, w: int, e: int, maxdeg: int) -> bool
    decreases maxdeg,
{
    if maxdeg <= FOLD_STOP {
        true
    } else {
        &&& n >= 4
        &&& n % 4 == 0
        &&& is_pow2(n)
        &&& n <= usize::MAX / 8
        &&& has_order(w, n)
        &&& compatible_modulus((n / 4) as int, e)
        &&& levels_valid(n / 4, pow(w, 4) % (P as int), e, maxdeg / 4)
    }
}

/// Distinct exponents below the order of `w` give distinct powers.
proof fn lemma_order_powers_distinct(w: int, n: nat, a: nat, b: nat)
    requires
        has_order(w, n),
        a < b < n,
    ensures
        pow(w, a) % (P as int) != pow(w, b) % (P as int),
{
    let md = P as int;
    let d = (b - a) as nat;
    if pow(w, a) % md == pow(w, b) % md {
        let inv = pow(w, (n - a) as nat) % md;
        vstd::arithmetic::power::lemma_pow_adds(w, a, (n - a) as nat);
        vstd::arithmetic::div_mod::lemma_mul_mod_noop(pow(w, a), pow(w, (n - a) as nat), md);
        let x = pow(w, a) % md;
        let y = pow(w, d) % md;
        assert(fmul(x, inv) == 1);
        vstd::arithmetic::power::lemma_pow_adds(w, a, d);
        vstd::arithmetic::div_mod::lemma_mul_mod_noop(pow(w, a), pow(w, d), md);
        assert(fmul(x, y) == x);
        crate::field::lemma_fmul_assoc(inv, x, y);
        crate::field::lemma_fmul_comm(inv, x);
        crate::field::lemma_one_times(y);
        vstd::arithmetic::div_mod::lemma_mod_twice(pow(w, d), md);
        assert(y == 1);
        assert(pow(w, d) % md != 1);
    }
}

/// `column` folds `values` at `x_star`: entry `i` is the value at `x_star` of a polynomial of
/// degree below 4 through the row `(w^(i + j q), values[i + j q])`, `j < 4`, `q = n / 4`.
pub open spec fn column_folds(values: Seq<FieldElement>, w: int, x_star: int, column: Seq<FieldElement>) -> bool {
    let q = values.len() / 4;
    &&& column.len() == q
    &&& forall|i: int| 0 <= i < q ==> agrees_with_low_degree(
        seq![
            pow(w, i as nat) % (P as int),
            pow(w, (i + q) as nat) % (P as int),
            pow(w, (i + 2 * q) as nat) % (P as int),
            pow(w, (i + 3 * q) as nat) % (P as int),
            x_star,
        ],
        #[trigger] row_of(values, column, i),
        4,
    )
}

/// The four values of row `i` of `values`, then the folded entry `column[i]`.
pub open spec fn row_of(values: Seq<FieldElement>, column: Seq<FieldElement>, i: int) -> Seq<int> {
    let q = values.len() / 4;
    seq![values[i]@, values[i + q]@, values[i + 2 * q]@, values[i + 3 * q]@, column[i]@]
}

/// `comp` is a round over `values` that folds them into `column` at the point that `seed`
/// selects: its root commits to `column`, its query branches open that column at the rows that
/// the root selects, and its position branches open the four positions of each of those rows
/// in the tree over `values`.
pub open spec fn is_round_over(
    comp: FRIComponent,
    values: Seq<FieldElement>,
    column: Seq<FieldElement>,
    w: int,
    seed: Seq<u8>,
    e: int,
) -> bool {
    let n = values.len();
    let q = n / 4;
    &&& column_folds(values, w, decode(seed), column)
    &&& exists|vt: Seq<Vec<u8>>, ct: Seq<Vec<u8>>| {
        &&& #[trigger] is_merkle_tree(vt, encodings(values))
        &&& #[trigger] is_merkle_tree(ct, encodings(column))
        &&& comp.root@ == ct[1]@
        &&& comp.ys_branches.len() == QUERIES
        &&& comp.positions_branches.len() == 4 * QUERIES
        &&& forall|t: int| 0 <= t < QUERIES ==> is_branch(ct, query_index(comp.root@, q as int, e, t) as nat, #[trigger] comp.ys_branches[t]@)
        &&& forall|t: int, j: int| 0 <= t < QUERIES && 0 <= j < 4 ==> is_branch(
            vt,
            (query_index(comp.root@, q as int, e, t) + j * q) as nat,
            #[trigger] comp.positions_branches[4 * t + j]@,
        )
    }
}

/// `p` is a proof over `values`: at a degree bound of `FOLD_STOP` or less one component that
/// carries the values; above it a round that folds `values` into some column at the point
/// that `seed` selects, followed by a proof over that column with `w^4`, the round's root as
/// the seed, and a quarter of the bound.
pub open spec fn is_proof_over(p: Seq<FRIComponent>, values: Seq<FieldElement>, w: int, seed: Seq<u8>, e: int, maxdeg: int) -> bool
    decreases p.len(),
{
    if maxdeg <= FOLD_STOP {
        &&& p.len() == 1
        &&& byte_strings(p[0].values@) == encodings(values)
        &&& p[0].root@.len() == 0
        &&& p[0].ys_branches.len() == 0
        &&& p[0].positions_branches.len() == 0
    } else if p.len() < 2 {
        false
    } else {
        p[0].values.len() == 0 && exists|column: Seq<FieldElement>| #[trigger] is_round_over(p[0], values, column, w, seed, e)
            && is_proof_over(p.drop_first(), column, pow(w, 4) % (P as int), p[0].root@, e, maxdeg / 4)
    }
}

/// The encodings of `values`.
fn encode_all(values: &Vec<FieldElement>) -> (r: Vec<Vec<u8>>)
    ensures
        r.len() == values.len(),
        byte_strings(r@) == encodings(values@),
{
    let mut r: Vec<Vec<u8>> = Vec::new();
    let mut i: usize = 0;
    while i < values.len()
        invariant
            i <= values.len(),
            r.len() == i,
            forall|k: int| 0 <= k < i ==> #[trigger] r[k]@ == encode(values[k]@),
        decreases values.len() - i,
    {
        r.push(values[i].to_bytes());
        i = i + 1;
    }
    proof {
        assert(byte_strings(r@) =~= encodings(values@));
    }
    r
}

/// The branches of one round: for each query row `y` that `root2` selects, the branch of the
/// column tree `m2` at `y` and the branches of the value tree `m` at `y + j q`, `j < 4`.
fn open_round(m: &Vec<Vec<u8>>, m2: &Vec<Vec<u8>>, root2: &Vec<u8>, q: usize, e: u64) -> (r: (Vec<Vec<Vec<u8>>>, Vec<Vec<Vec<u8>>>))
    requires
        q >= 1,
        4 * q <= usize::MAX / 8,
        m.len() == 8 * q,
        m2.len() == 2 * q,
        root2.len() <= 32,
        compatible_modulus(q as int, e as int),
    ensures
        r.0.len() == QUERIES,
        r.1.len() == 4 * QUERIES,
        forall|t: int| 0 <= t < QUERIES ==> is_branch(m2@, query_index(root2@, q as int, e as int, t) as nat, #[trigger] r.0[t]@),
        forall|t: int, j: int| 0 <= t < QUERIES && 0 <= j < 4 ==> is_branch(
            m@,
            (query_index(root2@, q as int, e as int, t) + j * q) as nat,
            #[trigger] r.1[4 * t + j]@,
        ),
{
    let n: usize = 4 * q;
    let seed = root2.as_slice();
    let ys = get_pseudorandom_indices(seed, q as u64, QUERIES, e);
    let mut ys_branches: Vec<Vec<Vec<u8>>> = Vec::new();
    let mut positions_branches: Vec<Vec<Vec<u8>>> = Vec::new();
    let mut t: usize = 0;
    while t < QUERIES
        invariant
            t <= QUERIES,
            q == n / 4,
            forall|s: int| 0 <= s < QUERIES ==> #[trigger] ys[s] as int == query_index(root2@, q as int, e as int, s),
            n <= usize::MAX / 8,
            ys.len() == QUERIES,
            forall|s: int| 0 <= s < QUERIES ==> #[trigger] ys[s] < q,
            m.len() == 2 * n,
            m2.len() == 2 * q,
            ys_branches.len() == t,
            positions_branches.len() == 4 * t,
            forall|s: int| 0 <= s < t ==> #[trigger] is_branch(m2@, ys[s] as nat, ys_branches[s]@),
            forall|s: int, j: int| 0 <= s < t && 0 <= j < 4 ==> #[trigger] is_branch(m@, (ys[s] + j * q) as nat, positions_branches[4 * s + j]@),
        decreases QUERIES - t,
    {
        let y = ys[t] as usize;
        ys_branches.push(mk_branch(m2, y));
        let ghost before = positions_branches@;
        positions_branches.push(mk_branch(m, y));
        positions_branches.push(mk_branch(m, y + q));
        positions_branches.push(mk_branch(m, y + 2 * q));
        positions_branches.push(mk_branch(m, y + 3 * q));
        proof {
            assert forall|s: int, k: int| 0 <= s < t + 1 && 0 <= k < 4 implies #[trigger] is_branch(m@, (ys[s] + k * q) as nat, positions_branches[4 * s + k]@) by {
                if s < t {
                    assert(positions_branches[4 * s + k] == before[4 * s + k]);
                } else {
                    assert(k * q == 0 || k * q == q || k * q == 2 * q || k * q == 3 * q) by (nonlinear_arith)
                        requires 0 <= k < 4;
                    if k == 0 {
                        assert(k * q == 0);
                    } else if k == 1 {
                        assert(k * q == q);
                    } else if k == 2 {
                        assert(k * q == 2 * q);
                    } else {
                        assert(k * q == 3 * q);
                    }
                }
            }
        }
        t = t + 1;
    }
    proof {
        assert forall|t: int| 0 <= t < QUERIES implies is_branch(m2@, query_index(root2@, q as int, e as int, t) as nat, #[trigger] ys_branches[t]@) by {
            assert(is_branch(m2@, ys[t] as nat, ys_branches[t]@));
        }
        assert forall|t: int, j: int| 0 <= t < QUERIES && 0 <= j < 4 implies is_branch(
            m@,
            (query_index(root2@, q as int, e as int, t) + j * q) as nat,
            #[trigger] positions_branches[4 * t + j]@,
        ) by {
            assert(is_branch(m@, (ys[t] + j * q) as nat, positions_branches[4 * t + j]@));
        }
    }
    (ys_branches, positions_branches)
}

/// The folded column: row `i` interpolated through the four points `(xs[i + j q], values[i + j q])`
/// and evaluated at `special_x`.
fn fold_column(values: &Vec<FieldElement>, xs: &Vec<FieldElement>, special_x: FieldElement, q: usize, w: Ghost<int>) -> (r: Result<Vec<FieldElement>, StarkError>)
    requires
        values.len() == 4 * q,
        xs.len() == 4 * q,
        forall|t: int| 0 <= t < xs.len() ==> #[trigger] xs[t]@ == pow(w@, t as nat) % (P as int),
        has_order(w@, 4 * q as nat),
    ensures
        r is Ok,
        r matches Ok(c) ==> column_folds(values@, w@, special_x@, c@),
{
    let n = values.len();
    let mut column: Vec<FieldElement> = Vec::new();
    let mut i: usize = 0;
    while i < q
        invariant
            i <= q,
            q == n / 4,
            n == values.len(),
            n == xs.len(),
            n == 4 * q,
            column.len() == i,
            has_order(w@, n as nat),
            forall|t: int| 0 <= t < xs.len() ==> #[trigger] xs[t]@ == pow(w@, t as nat) % (P as int),
            forall|k: int| 0 <= k < i ==> agrees_with_low_degree(
                seq![
                    pow(w@, k as nat) % (P as int),
                    pow(w@, (k + q) as nat) % (P as int),
                    pow(w@, (k + 2 * q) as nat) % (P as int),
                    pow(w@, (k + 3 * q) as nat) % (P as int),
                    special_x@,
                ],
                #[trigger] row_of(values@, column@, k),
                4,
            ),
        decreases q - i,
    {
        let mut xs4: Vec<FieldElement> = Vec::new();
        let mut ys4: Vec<FieldElement> = Vec::new();
        xs4.push(xs[i]);
        xs4.push(xs[i + q]);
        xs4.push(xs[i + 2 * q]);
        xs4.push(xs[i + 3 * q]);
        ys4.push(values[i]);
        ys4.push(values[i + q]);
        ys4.push(values[i + 2 * q]);
        ys4.push(values[i + 3 * q]);
        proof {
            let e4 = seq![i as nat, (i + q) as nat, (i + 2 * q) as nat, (i + 3 * q) as nat];
            assert forall|a: int, b: int| 0 <= a < 4 && 0 <= b < 4 && a != b implies #[trigger] ints(xs4@)[a] != #[trigger] ints(xs4@)[b] by {
                assert(ints(xs4@)[a] == pow(w@, e4[a]) % (P as int));
                assert(ints(xs4@)[b] == pow(w@, e4[b]) % (P as int));
                if e4[a] < e4[b] {
                    lemma_order_powers_distinct(w@, n as nat, e4[a], e4[b]);
                } else {
                    lemma_order_powers_distinct(w@, n as nat, e4[b], e4[a]);
                }
            }
        }
        let row = match Poly::lagrange_interpolation(xs4.as_slice(), ys4.as_slice()) {
            Ok(p) => p,
            Err(err) => {
                return Err(err);
            },
        };
        let folded = row.eval(special_x);
        proof {
            let xs5 = ints(xs4@).push(special_x@);
            let ys5 = ints(ys4@).push(folded@);
            let c = row.spec_coeffs();
            assert forall|j: int| 0 <= j < xs5.len() implies #[trigger] (poly_eval(c, xs5[j]) % (P as int)) == ys5[j] by {
                if j < 4 {
                    assert(xs5[j] == xs4[j]@);
                    assert(ys5[j] == ys4[j]@);
                }
            }
            lemma_agrees_witness(c, xs5, ys5, 4);
        }
        let ghost before = column@;
        column.push(folded);
        proof {
            assert forall|k: int| 0 <= k < i + 1 implies agrees_with_low_degree(
                seq![
                    pow(w@, k as nat) % (P as int),
                    pow(w@, (k + q) as nat) % (P as int),
                    pow(w@, (k + 2 * q) as nat) % (P as int),
                    pow(w@, (k + 3 * q) as nat) % (P as int),
                    special_x@,
                ],
                #[trigger] row_of(values@, column@, k),
                4,
            ) by {
                if k < i {
                    assert(row_of(values@, column@, k) =~= row_of(values@, before, k));
                } else {
                    assert(row_of(values@, column@, k) =~= ints(ys4@).push(folded@));
                    assert(seq![
                        pow(w@, k as nat) % (P as int),
                        pow(w@, (k + q) as nat) % (P as int),
                        pow(w@, (k + 2 * q) as nat) % (P as int),
                        pow(w@, (k + 3 * q) as nat) % (P as int),
                        special_x@,
                    ] =~= ints(xs4@).push(special_x@));
                }
            }
        }
        i = i + 1;
    }
    Ok(column)
}

/// Proves that `values`, the evaluations over the powers of `root_of_unity`, come from a
/// polynomial of degree below `maxdeg_plus_1`. Each round interpolates the rows of four values
/// `i, i + n/4, i + 2n/4, i + 3n/4`, folds them into a column at the point that `merkle_root`
/// selects, commits to the column and opens it at `QUERIES` rows; then the column is proved
/// with `root_of_unity^4`, its own root as the seed, and a quarter of the degree bound. At a
/// bound of `FOLD_STOP` or less the values themselves are sent.
#[verifier::rlimit(50)]
pub fn prove_low_degree(
    values: Vec<FieldElement>,
    root_of_unity: FieldElement,
    merkle_root: Vec<u8>,
    maxdeg_plus_1: u128,
    avoid_multiples: u64,
) -> (r: Result<Vec<FRIComponent>, StarkError>)
    ensures
        r is Ok <==> maxdeg_plus_1 <= FOLD_STOP || (merkle_root@.len() >= 8 && levels_valid(
            values.len() as nat,
            root_of_unity@,
            avoid_multiples as int,
            maxdeg_plus_1 as int,
        )),
        r matches Err(err) ==> err == StarkError::InvalidInput,
        r matches Ok(p) ==> is_proof_over(p@, values@, root_of_unity@, merkle_root@, avoid_multiples as int, maxdeg_plus_1 as int),
    decreases maxdeg_plus_1,
{
    if maxdeg_plus_1 <= FOLD_STOP {
        let comp = FRIComponent {
            root: Vec::new(),
            values: encode_all(&values),
            ys_branches: Vec::new(),
            positions_branches: Vec::new(),
        };
        let mut p: Vec<FRIComponent> = Vec::new();
        p.push(comp);
        return Ok(p);
    }
    let n = values.len();
    if merkle_root.len() < 8 || n < 4 || n % 4 != 0 || n > usize::MAX / 8 || !is_a_power_of_2(n as u64) {
        return Err(StarkError::InvalidInput);
    }
    let q: usize = n / 4;
    let e = avoid_multiples;
    if !is_compatible_modulus(q as u64, e) {
        return Err(StarkError::InvalidInput);
    }
    let xs = match FieldElement::get_power_cycle(root_of_unity, n) {
        Some(v) => v,
        None => {
            proof {
                let k: int = n as int;
                assert(1 <= k <= n);
                assert(pow(root_of_unity@, k as nat) % (P as int) != 1);
            }
            return Err(StarkError::InvalidInput);
        },
    };
    if xs.len() != n {
        proof {
            let l = xs.len() as int;
            assert(pow(root_of_unity@, l as nat) % (P as int) == 1);
            assert(!has_order(root_of_unity@, n as nat));
        }
        return Err(StarkError::InvalidInput);
    }
    proof {
        assert(has_order(root_of_unity@, n as nat));
    }
    let leaves = encode_all(&values);
    let m = merkelize(&leaves);
    let ghost vt = m@;
    let special_x = FieldElement::new(read_be_u64(&merkle_root, 0));
    let column = match fold_column(&values, &xs, special_x, q, Ghost(root_of_unity@)) {
        Ok(c) => c,
        Err(_) => {
            return Err(StarkError::InvalidInput);
        },
    };
    let column_leaves = encode_all(&column);
    let m2 = merkelize(&column_leaves);
    let root2 = copy_bytes(&m2[1]);
    proof {
        if q == 1 {
            assert(m2[1]@ == byte_strings(column_leaves@)[0]);
            assert(m2[1]@ == encode(column[0]@));
            assert(root2@.len() == 8);
        }
    }
    let (ys_branches, positions_branches) = open_round(&m, &m2, &root2, q, e);
    let comp = FRIComponent {
        root: root2,
        values: Vec::new(),
        ys_branches: ys_branches,
        positions_branches: positions_branches,
    };
    let next_root = copy_bytes(&comp.root);
    let ghost col = column@;
    proof {
        assert(is_merkle_tree(m2@, encodings(col)));
        assert(is_merkle_tree(m@, encodings(values@)));
        assert(is_round_over(comp, values@, col, root_of_unity@, merkle_root@, e as int));
    }
    let next_w = root_of_unity.pow(4);
    proof {
        if q >= 2 {
            assert(m2[1]@.len() == 32);
        }
        assert(next_root@.len() >= 8);
        assert((maxdeg_plus_1 / 4) as int == (maxdeg_plus_1 as int) / 4);
        assert(levels_valid(n as nat, root_of_unity@, e as int, maxdeg_plus_1 as int) == levels_valid(
            q as nat,
            next_w@,
            e as int,
            (maxdeg_plus_1 / 4) as int,
        ));
    }
    let rest = match prove_low_degree(column, next_w, next_root, maxdeg_plus_1 / 4, avoid_multiples) {
        Ok(p) => p,
        Err(err) => {
            return Err(err);
        },
    };
    let ghost rest_seq = rest@;
    proof {
        assert(levels_valid(n as nat, root_of_unity@, e as int, maxdeg_plus_1 as int));
    }
    let mut proof_out: Vec<FRIComponent> = Vec::new();
    proof_out.push(comp);
    let mut rest = rest;
    proof_out.append(&mut rest);
    proof {
        assert(proof_out@.drop_first() =~= rest_seq);
        assert(proof_out@[0] == comp);
        assert(is_round_over(proof_out@[0], values@, col, root_of_unity@, merkle_root@, e as int));
    }
    Ok(proof_out)
}

/// The value that the first entry of a branch opens: its leaf.
pub fn get_branch_value(branch: &Vec<Vec<u8>>) -> (r: Vec<u8>)
    requires
        branch.len() >= 1,
    ensures
        r@ == branch[0]@,
{
    copy_bytes(&branch[0])
}

/// `w^(2^k) == 1`, and no smaller power of two takes `w` to one.
pub open spec fn two_adic_order(w: int, k: nat) -> bool {
    &&& pow(w, exp2(k)) % (P as int) == 1
    &&& forall|j: nat| j < k ==> #[trigger] pow(w, exp2(j)) % (P as int) != 1
}

/// `d` divided by four `k` times.
pub open spec fn quartered(d: nat, k: nat) -> nat
    decreases k,
{
    if k == 0 {
        d
    } else {
        quartered(d, (k - 1) as nat) / 4
    }
}

/// The root that round `k` opens its positions against: the given root for the first round,
/// the previous round's column root after that.
pub open spec fn chain_root(r0: Seq<u8>, proof: Seq<FRIComponent>, k: int) -> Seq<u8> {
    if k == 0 {
        r0
    } else {
        proof[k - 1].root@
    }
}

/// Some polynomial with no terms of degree `bound` or more passes through every point
/// `(xs[j], ys[j])`.
pub open spec fn agrees_with_low_degree(xs: Seq<int>, ys: Seq<int>, bound: int) -> bool {
    exists|c: Seq<int>| #[trigger] low_degree_through(c, xs, ys, bound)
}

/// `c` has `CAPACITY` coefficients, none of degree `bound` or more, and passes through every
/// point `(xs[j], ys[j])`.
pub open spec fn low_degree_through(c: Seq<int>, xs: Seq<int>, ys: Seq<int>, bound: int) -> bool {
    &&& c.len() == CAPACITY
    &&& xs.len() == ys.len()
    &&& forall|s: int| bound <= s < CAPACITY ==> #[trigger] c[s] == 0
    &&& forall|j: int| 0 <= j < xs.len() ==> #[trigger] (poly_eval(c, xs[j]) % (P as int)) == ys[j]
}

proof fn lemma_agrees_witness(c: Seq<int>, xs: Seq<int>, ys: Seq<int>, bound: int)
    requires
        low_degree_through(c, xs, ys, bound),
    ensures
        agrees_with_low_degree(xs, ys, bound),
{
}

/// The root of unity of round `i`: the given root raised to the fourth power `i` times.
pub open spec fn omega_at(w: int, i: nat) -> int
    decreases i,
{
    if i == 0 {
        w
    } else {
        pow(omega_at(w, (i - 1) as nat), 4) % (P as int)
    }
}

/// The fourth roots of unity `1, w^(d/4), w^(d/2), w^(3d/4)` of a root `w` of order `d`.
pub open spec fn quartic_root(w: int, d: nat, j: int) -> int {
    if j == 0 {
        1
    } else if j == 1 {
        pow(w, d / 4) % (P as int)
    } else if j == 2 {
        pow(w, d / 2) % (P as int)
    } else {
        pow(w, d / 4 * 3) % (P as int)
    }
}

/// The powers `w^0, ..., w^(n-1)` reduced modulo `P`.
pub open spec fn terminal_points(w: int, n: nat) -> Seq<int> {
    Seq::new(n, |j: int| pow(w, j as nat) % (P as int))
}

/// The elements that a list of 8-byte encodings spells.
pub open spec fn terminal_values(values: Seq<Vec<u8>>) -> Seq<int> {
    Seq::new(values.len(), |j: int| decode(values[j]@))
}

/// The element that the first eight bytes of `b` spell.
pub open spec fn decode(b: Seq<u8>) -> int {
    be_u64(b, 0) % (P as int)
}

proof fn lemma_square_step(w: int, j: nat, tv: int)
    requires
        tv == pow(w, exp2(j)) % (P as int),
    ensures
        fmul(tv, tv) == pow(w, exp2(j + 1)) % (P as int),
{
    let m = P as int;
    vstd::arithmetic::power::lemma_pow_adds(w, exp2(j), exp2(j));
    vstd::arithmetic::div_mod::lemma_mul_mod_noop(pow(w, exp2(j)), pow(w, exp2(j)), m);
    assert(exp2(j + 1) == exp2(j) + exp2(j));
}

/// The four abscissae of query row `y` in round `i`: `zeta_j * w_i^y` for the fourth roots of
/// unity `zeta_j`.
pub open spec fn row_points(w: int, d: nat, i: nat, y: int) -> Seq<int> {
    let x1 = pow(omega_at(w, i), y as nat) % (P as int);
    seq![
        fmul(quartic_root(w, d, 0), x1),
        fmul(quartic_root(w, d, 1), x1),
        fmul(quartic_root(w, d, 2), x1),
        fmul(quartic_root(w, d, 3), x1),
    ]
}

/// The four values that the position branches of query `t` open.
pub open spec fn row_values(comp: FRIComponent, t: int) -> Seq<int> {
    seq![
        decode(comp.positions_branches[4 * t][0]@),
        decode(comp.positions_branches[4 * t + 1][0]@),
        decode(comp.positions_branches[4 * t + 2][0]@),
        decode(comp.positions_branches[4 * t + 3][0]@),
    ]
}

/// Query `t` of a round checks out: its column branch verifies against the round's root, its
/// four position branches verify against `prev`, the opened leaves hold at least 8 bytes, the
/// row's abscissae are distinct, and the interpolant through the row takes the column value at
/// the point that `prev` selects.
pub open spec fn query_ok(prev: Seq<u8>, comp: FRIComponent, w: int, d: nat, i: nat, q: int, e: int, t: int) -> bool {
    let y = query_index(comp.root@, q, e, t);
    &&& branch_verifies(comp.root@, y as nat, comp.ys_branches[t]@)
    &&& forall|j: int| 0 <= j < 4 ==> branch_verifies(prev, (y + j * q) as nat, #[trigger] comp.positions_branches[4 * t + j]@)
        && comp.positions_branches[4 * t + j][0]@.len() >= 8
    &&& comp.ys_branches[t][0]@.len() >= 8
    &&& !has_duplicate(row_points(w, d, i, y))
    &&& lagrange_value(row_points(w, d, i, y), row_values(comp, t), decode(prev)) == decode(comp.ys_branches[t][0]@)
}

/// Round `i` checks out against the previous root `prev`, for a root `w` of order `d`.
pub open spec fn round_ok(prev: Seq<u8>, comp: FRIComponent, w: int, d: nat, i: nat, e: int) -> bool {
    let q = (quartered(d, i) / 4) as int;
    &&& comp.ys_branches.len() == QUERIES
    &&& comp.positions_branches.len() == 4 * QUERIES
    &&& compatible_modulus(q, e)
    &&& prev.len() >= 8
    &&& comp.root@.len() <= 1024
    &&& q <= usize::MAX / 8
    &&& forall|t: int| 0 <= t < QUERIES ==> #[trigger] query_ok(prev, comp, w, d, i, q, e, t)
}

/// The last component checks out: the degree bound is at most `FOLD_STOP`, its values hash to
/// `prev`, each holds at least 8 bytes, the root `wf` has order exactly their number, and the
/// interpolant through the first `min(maxdeg, n)` of them agrees with the one through all of
/// them at every point. `final_bound` is the degree bound after one division by four per
/// folding round and must be at most `FOLD_STOP`; the interpolation length uses the caller's
/// undivided bound `maxdeg`, so that a proof folded from a larger bound still passes with its
/// remaining values.
pub open spec fn terminal_ok(prev: Seq<u8>, last: FRIComponent, wf: int, final_bound: int, maxdeg: int) -> bool {
    let nv = last.values.len() as nat;
    let pts = terminal_points(wf, nv);
    let vals = terminal_values(last.values@);
    let l = prefix_len(maxdeg, nv as int);
    &&& final_bound <= FOLD_STOP
    &&& 1 <= nv <= usize::MAX / 2
    &&& exists|t: Seq<Vec<u8>>| #[trigger] is_merkle_tree(t, byte_strings(last.values@)) && t[1]@ == prev
    &&& forall|j: int| 0 <= j < nv ==> (#[trigger] last.values[j])@.len() >= 8
    &&& has_order(wf, nv)
    &&& forall|j: int| 0 <= j < nv ==> #[trigger] lagrange_value(pts.take(l), vals.take(l), pts[j]) == lagrange_value(pts, vals, pts[j])
}

/// `min(maxdeg, n)`: how many of the last values the short interpolant goes through.
pub open spec fn prefix_len(maxdeg: int, n: int) -> int {
    if maxdeg < n {
        maxdeg
    } else {
        n
    }
}

/// Every folding round of `proof` checks out, for a root of order `d`.
pub open spec fn rounds_ok(r0: Seq<u8>, w: int, proof: Seq<FRIComponent>, d: nat, e: int) -> bool {
    forall|i: int| 0 <= i < proof.len() - 1 ==> #[trigger] round_ok(chain_root(r0, proof, i), proof[i], w, d, i as nat, e)
}

/// What `verify_low_degree_proof` accepts: a nonempty proof, a root whose order is a power of
/// two `2^k` with `k <= 63`, rounds that all check out, and a last component that checks out
/// with the bound `maxdeg` divided by four once per folding round.
pub open spec fn accepts(r0: Seq<u8>, w: int, proof: Seq<FRIComponent>, maxdeg: nat, e: int) -> bool {
    &&& proof.len() >= 1
    &&& exists|k: nat| k <= 63 && #[trigger] two_adic_order(w, k) && rounds_ok(r0, w, proof, exp2(k), e) && terminal_ok(
        chain_root(r0, proof, proof.len() - 1),
        proof[proof.len() - 1],
        omega_at(w, (proof.len() - 1) as nat),
        quartered(maxdeg, (proof.len() - 1) as nat) as int,
        maxdeg as int,
    )
}

proof fn lemma_two_adic_order_unique(w: int, a: nat, b: nat)
    requires
        two_adic_order(w, a),
        two_adic_order(w, b),
    ensures
        a == b,
{
    if a < b {
        assert(pow(w, exp2(a)) % (P as int) != 1);
    } else if b < a {
        assert(pow(w, exp2(b)) % (P as int) != 1);
    }
}

proof fn lemma_exp2_monotone(a: nat, b: nat)
    requires
        a <= b,
    ensures
        exp2(a) <= exp2(b),
    decreases b,
{
    if a < b {
        lemma_exp2_monotone(a, (b - 1) as nat);
    }
}

proof fn lemma_exp2_62_63()
    ensures
        exp2(62) == 0x4000_0000_0000_0000,
        exp2(63) == 0x8000_0000_0000_0000,
{
    reveal_with_fuel(exp2, 64);
}

/// Two trees over the same leaves have the same root.
proof fn lemma_merkle_tree_unique(t1: Seq<Vec<u8>>, t2: Seq<Vec<u8>>, leaves: Seq<Seq<u8>>, i: int)
    requires
        is_merkle_tree(t1, leaves),
        is_merkle_tree(t2, leaves),
        1 <= i < 2 * leaves.len(),
    ensures
        t1[i]@ == t2[i]@,
    decreases 2 * leaves.len() - i,
{
    if i < leaves.len() {
        lemma_merkle_tree_unique(t1, t2, leaves, 2 * i);
        lemma_merkle_tree_unique(t1, t2, leaves, 2 * i + 1);
    }
}

/// Distinct exponents below the order give distinct entries of the power table.
proof fn lemma_powers_no_duplicate(w: int, n: nat, l: int)
    requires
        has_order(w, n),
        0 <= l <= n,
    ensures
        !has_duplicate(terminal_points(w, n).take(l)),
{
    let s = terminal_points(w, n).take(l);
    assert forall|a: int, b: int| 0 <= a < s.len() && 0 <= b < s.len() && a != b implies #[trigger] s[a] != #[trigger] s[b] by {
        if a < b {
            lemma_order_powers_distinct(w, n, a as nat, b as nat);
        } else {
            lemma_order_powers_distinct(w, n, b as nat, a as nat);
        }
    }
}

/// Checks query `t` of a round; `y` is the row that the round's root selects.
fn check_query(
    comp: &FRIComponent,
    root1: &Vec<u8>,
    quartic: &Vec<FieldElement>,
    omega: FieldElement,
    special_x: FieldElement,
    q: u64,
    e: u64,
    t: usize,
    y: u64,
    w: Ghost<int>,
    d: Ghost<nat>,
    i: Ghost<nat>,
) -> (r: bool)
    requires
        t < QUERIES,
        comp.ys_branches.len() == QUERIES,
        comp.positions_branches.len() == 4 * QUERIES,
        quartic.len() == 4,
        forall|j: int| 0 <= j < 4 ==> #[trigger] quartic[j]@ == quartic_root(w@, d@, j),
        omega@ == omega_at(w@, i@),
        special_x@ == decode(root1@),
        q <= usize::MAX / 8,
        y < q,
        y as int == query_index(comp.root@, q as int, e as int, t as int),
    ensures
        r == query_ok(root1@, *comp, w@, d@, i@, q as int, e as int, t as int),
{
    let yu = y as usize;
    let qs = q as usize;
    if !verify_branch(&comp.root, yu, &comp.ys_branches[t]) {
        return false;
    }
    let mut row: Vec<FieldElement> = Vec::new();
    let mut j: usize = 0;
    while j < 4
        invariant
            j <= 4,
            t < QUERIES,
            yu < qs,
            yu as int == y as int,
            y as int == query_index(comp.root@, q as int, e as int, t as int),
            qs as int == q as int,
            qs <= usize::MAX / 8,
            comp.positions_branches.len() == 4 * QUERIES,
            row.len() == j,
            forall|k: int| 0 <= k < j ==> #[trigger] row[k]@ == decode(comp.positions_branches[4 * t + k][0]@),
            forall|k: int| 0 <= k < j ==> branch_verifies(root1@, (y + k * q) as nat, #[trigger] comp.positions_branches[4 * t + k]@)
                && comp.positions_branches[4 * t + k][0]@.len() >= 8,
        decreases 4 - j,
    {
        proof {
            assert(j * qs <= 3 * qs) by (nonlinear_arith)
                requires j < 4;
        }
        let pos = yu + j * qs;
        let b = &comp.positions_branches[4 * t + j];
        proof {
            assert(pos as int == y as int + (j as int) * (q as int));
        }
        if !verify_branch(root1, pos, b) {
            proof {
                let yi = query_index(comp.root@, q as int, e as int, t as int);
                let ji = j as int;
                assert(!branch_verifies(root1@, (yi + ji * (q as int)) as nat, comp.positions_branches[4 * (t as int) + ji]@));
                assert(!query_ok(root1@, *comp, w@, d@, i@, q as int, e as int, t as int));
            }
            return false;
        }
        if b[0].len() < 8 {
            proof {
                let ji = j as int;
                assert(!(comp.positions_branches[4 * (t as int) + ji][0]@.len() >= 8));
                assert(!query_ok(root1@, *comp, w@, d@, i@, q as int, e as int, t as int));
            }
            return false;
        }
        row.push(FieldElement::from_bytes(&b[0]));
        j = j + 1;
    }
    let cb = &comp.ys_branches[t];
    if cb[0].len() < 8 {
        return false;
    }
    let column_value = FieldElement::from_bytes(&cb[0]);
    let x1 = omega.pow(y);
    let mut xcoord: Vec<FieldElement> = Vec::new();
    xcoord.push(quartic[0].mul(x1));
    xcoord.push(quartic[1].mul(x1));
    xcoord.push(quartic[2].mul(x1));
    xcoord.push(quartic[3].mul(x1));
    proof {
        let y_spec = query_index(comp.root@, q as int, e as int, t as int);
        assert(ints(xcoord@) =~= row_points(w@, d@, i@, y_spec));
        assert(ints(row@) =~= row_values(*comp, t as int));
    }
    match lagrange_at(xcoord.as_slice(), row.as_slice(), special_x) {
        Some(v) => v.eq(&column_value),
        None => false,
    }
}

/// Checks round `i`: its shape, its query range, and each of its queries.
fn check_round(
    comp: &FRIComponent,
    root1: &Vec<u8>,
    quartic: &Vec<FieldElement>,
    omega: FieldElement,
    deg_root: u64,
    e: u64,
    w: Ghost<int>,
    d: Ghost<nat>,
    i: Ghost<nat>,
) -> (r: bool)
    requires
        quartic.len() == 4,
        forall|j: int| 0 <= j < 4 ==> #[trigger] quartic[j]@ == quartic_root(w@, d@, j),
        omega@ == omega_at(w@, i@),
        deg_root as nat == quartered(d@, i@),
    ensures
        r == round_ok(root1@, *comp, w@, d@, i@, e as int),
{
    let q: u64 = deg_root / 4;
    if comp.ys_branches.len() != QUERIES || comp.positions_branches.len() != 4 * QUERIES {
        return false;
    }
    if !is_compatible_modulus(q, e) {
        return false;
    }
    if root1.len() < 8 || comp.root.len() > 1024 || q > (usize::MAX / 8) as u64 {
        return false;
    }
    let special_x = FieldElement::new(read_be_u64(root1, 0));
    let seed = comp.root.as_slice();
    let ys = get_pseudorandom_indices(seed, q, QUERIES, e);
    let mut t: usize = 0;
    while t < QUERIES
        invariant
            t <= QUERIES,
            ys.len() == QUERIES,
            q <= usize::MAX / 8,
            q as int == (quartered(d@, i@) / 4) as int,
            quartic.len() == 4,
            forall|j: int| 0 <= j < 4 ==> #[trigger] quartic[j]@ == quartic_root(w@, d@, j),
            omega@ == omega_at(w@, i@),
            special_x@ == decode(root1@),
            comp.ys_branches.len() == QUERIES,
            comp.positions_branches.len() == 4 * QUERIES,
            forall|s: int| 0 <= s < QUERIES ==> #[trigger] ys[s] as int == query_index(comp.root@, q as int, e as int, s),
            forall|s: int| 0 <= s < QUERIES ==> #[trigger] ys[s] < q,
            forall|s: int| 0 <= s < t ==> #[trigger] query_ok(root1@, *comp, w@, d@, i@, q as int, e as int, s),
        decreases QUERIES - t,
    {
        if !check_query(comp, root1, quartic, omega, special_x, q, e, t, ys[t], w, d, i) {
            return false;
        }
        t = t + 1;
    }
    true
}

/// Checks the last component against the last root `root1` and the last root of unity `omega`.
fn check_terminal(last: &FRIComponent, root1: &Vec<u8>, omega: FieldElement, final_bound: usize, maxdeg_plus_1: usize) -> (r: bool)
    ensures
        r == terminal_ok(root1@, *last, omega@, final_bound as int, maxdeg_plus_1 as int),
{
    if final_bound as u128 > FOLD_STOP {
        return false;
    }
    let values = &last.values;
    let nv = values.len();
    if nv == 0 || nv > usize::MAX / 2 {
        return false;
    }
    let mtree = merkelize(values);
    if !bytes_eq(&mtree[1], root1) {
        proof {
            assert forall|t: Seq<Vec<u8>>| #[trigger] is_merkle_tree(t, byte_strings(last.values@)) implies t[1]@ != root1@ by {
                lemma_merkle_tree_unique(t, mtree@, byte_strings(last.values@), 1);
            }
        }
        return false;
    }
    let mut values_full: Vec<FieldElement> = Vec::new();
    let mut j: usize = 0;
    while j < nv
        invariant
            j <= nv,
            nv == values.len(),
            values@ == last.values@,
            final_bound as u128 <= FOLD_STOP,
            1 <= nv <= usize::MAX / 2,
            nv == last.values.len(),
            is_merkle_tree(mtree@, byte_strings(last.values@)),
            mtree@[1]@ == root1@,
            values_full.len() == j,
            forall|s: int| 0 <= s < j ==> #[trigger] values_full[s]@ == decode(values[s]@),
            forall|s: int| 0 <= s < j ==> (#[trigger] values[s])@.len() >= 8,
        decreases nv - j,
    {
        if values[j].len() < 8 {
            proof {
                assert(!(last.values[j as int]@.len() >= 8));
            }
            return false;
        }
        values_full.push(FieldElement::from_bytes(&values[j]));
        j = j + 1;
    }
    let powers = match FieldElement::get_power_cycle(omega, nv) {
        Some(p) => p,
        None => {
            proof {
                let k: int = nv as int;
                assert(1 <= k <= nv);
                assert(pow(omega@, k as nat) % (P as int) != 1);
            }
            return false;
        },
    };
    if powers.len() != nv {
        proof {
            let l = powers.len() as int;
            assert(pow(omega@, l as nat) % (P as int) == 1);
            assert(!has_order(omega@, nv as nat));
        }
        return false;
    }
    let ghost pts = terminal_points(omega@, nv as nat);
    let ghost vals = terminal_values(last.values@);
    proof {
        assert(has_order(omega@, nv as nat));
        assert(ints(powers@) =~= pts);
        assert(ints(values_full@) =~= vals);
    }
    let max_length = if maxdeg_plus_1 < nv {
        maxdeg_plus_1
    } else {
        nv
    };
    let mut powers_short: Vec<FieldElement> = Vec::new();
    let mut values_short: Vec<FieldElement> = Vec::new();
    let mut j: usize = 0;
    while j < max_length
        invariant
            j <= max_length,
            max_length <= nv,
            final_bound as u128 <= FOLD_STOP,
            1 <= nv <= usize::MAX / 2,
            nv == last.values.len(),
            is_merkle_tree(mtree@, byte_strings(last.values@)),
            mtree@[1]@ == root1@,
            forall|s: int| 0 <= s < nv ==> (#[trigger] last.values[s])@.len() >= 8,
            has_order(omega@, nv as nat),
            powers.len() == nv,
            values_full.len() == nv,
            powers_short.len() == j,
            values_short.len() == j,
            forall|s: int| 0 <= s < j ==> #[trigger] powers_short[s] == powers[s],
            forall|s: int| 0 <= s < j ==> #[trigger] values_short[s] == values_full[s],
        decreases max_length - j,
    {
        powers_short.push(powers[j]);
        values_short.push(values_full[j]);
        j = j + 1;
    }
    proof {
        assert(ints(powers_short@) =~= pts.take(max_length as int));
        assert(ints(values_short@) =~= vals.take(max_length as int));
        lemma_powers_no_duplicate(omega@, nv as nat, max_length as int);
        lemma_powers_no_duplicate(omega@, nv as nat, nv as int);
        assert(pts.take(nv as int) =~= pts);
    }
    let mut j: usize = 0;
    while j < nv
        invariant
            j <= nv,
            max_length <= nv,
            final_bound as u128 <= FOLD_STOP,
            1 <= nv <= usize::MAX / 2,
            nv == last.values.len(),
            is_merkle_tree(mtree@, byte_strings(last.values@)),
            mtree@[1]@ == root1@,
            forall|s: int| 0 <= s < nv ==> (#[trigger] last.values[s])@.len() >= 8,
            has_order(omega@, nv as nat),
            max_length as int == prefix_len(maxdeg_plus_1 as int, nv as int),
            powers.len() == nv,
            values_full.len() == nv,
            powers_short.len() == max_length,
            values_short.len() == max_length,
            ints(powers@) == pts,
            ints(values_full@) == vals,
            pts == terminal_points(omega@, nv as nat),
            vals == terminal_values(last.values@),
            ints(powers_short@) == pts.take(max_length as int),
            ints(values_short@) == vals.take(max_length as int),
            !has_duplicate(pts.take(max_length as int)),
            !has_duplicate(pts),
            forall|s: int| 0 <= s < j ==> #[trigger] lagrange_value(pts.take(max_length as int), vals.take(max_length as int), pts[s])
                == lagrange_value(pts, vals, pts[s]),
        decreases nv - j,
    {
        let ps = powers_short.as_slice();
        let vs = values_short.as_slice();
        let pf = powers.as_slice();
        let vf = values_full.as_slice();
        proof {
            assert(ints(ps@) == pts.take(max_length as int));
            assert(ints(pf@) == pts);
            assert(ints(vs@) == vals.take(max_length as int));
            assert(ints(vf@) == vals);
        }
        let short = lagrange_at(ps, vs, powers[j]);
        let full = lagrange_at(pf, vf, powers[j]);
        proof {
            assert(powers[j as int]@ == pts[j as int]);
        }
        let a = match short {
            Some(v) => v,
            None => {
                return false;
            },
        };
        let b = match full {
            Some(v) => v,
            None => {
                return false;
            },
        };
        if !a.eq(&b) {
            proof {
                let ji = j as int;
                let nvn = last.values.len() as nat;
                let l = prefix_len(maxdeg_plus_1 as int, nvn as int);
                assert(pts == terminal_points(omega@, nvn));
                assert(vals == terminal_values(last.values@));
                assert(max_length as int == l);
                assert(lagrange_value(pts.take(l), vals.take(l), pts[ji]) != lagrange_value(pts, vals, pts[ji]));
                assert(0 <= ji < nvn);
            }
            return false;
        }
        j = j + 1;
    }
    proof {
        assert(exists|t: Seq<Vec<u8>>| #[trigger] is_merkle_tree(t, byte_strings(last.values@)) && t[1]@ == root1@) by {
            assert(is_merkle_tree(mtree@, byte_strings(last.values@)));
        }
    }
    true
}

/// Checks a low-degree proof against the commitment `merkle_root` to the evaluations over the
/// powers of `root_of_unity`. Each round must open its column and the previous level at the
/// queried rows with valid branches, and each queried row, interpolated through its four
/// points and evaluated at the point that the previous root selects, must give the column
/// value. The degree bound is divided by four in each round and must be at most `FOLD_STOP`
/// at the last component. That component's values must hash to the last root, and the
/// interpolant through their first `min(maxdeg_plus_1, n)` points (the undivided bound) must
/// agree with them all. Any malformed part makes the answer `false`.
pub fn verify_low_degree_proof(
    merkle_root: &Vec<u8>,
    root_of_unity: &FieldElement,
    proof: &Vec<FRIComponent>,
    maxdeg_plus_1: usize,
    exclude_multiples_of: u64,
) -> (r: bool)
    ensures
        r == accepts(merkle_root@, root_of_unity@, proof@, maxdeg_plus_1 as nat, exclude_multiples_of as int),
{
    if proof.len() == 0 {
        return false;
    }
    // the order of the root: the first power of two that takes it to one
    let one = FieldElement::new(1);
    let mut testval = *root_of_unity;
    let mut deg_root: u64 = 1;
    let ghost mut k: nat = 0;
    proof {
        vstd::arithmetic::power::lemma_pow1(root_of_unity@);
        crate::field::lemma_view_range(*root_of_unity);
        lemma_exp2_62_63();
    }
    while !testval.eq(&one)
        invariant
            deg_root as nat == exp2(k),
            deg_root >= 1,
            k <= 63,
            one@ == 1,
            exp2(62) == 0x4000_0000_0000_0000,
            exp2(63) == 0x8000_0000_0000_0000,
            testval@ == pow(root_of_unity@, exp2(k)) % (P as int),
            forall|j: nat| j < k ==> #[trigger] pow(root_of_unity@, exp2(j)) % (P as int) != 1,
        decreases (u64::MAX as int) - (deg_root as int),
    {
        if deg_root > u64::MAX / 2 {
            proof {
                if k < 63 {
                    lemma_exp2_monotone(k, 62);
                }
                assert(k == 63);
                assert forall|k2: nat| k2 <= 63 implies !#[trigger] two_adic_order(root_of_unity@, k2) by {
                    if k2 == 63 {
                        assert(pow(root_of_unity@, exp2(k2)) % (P as int) != 1);
                    }
                }
            }
            return false;
        }
        proof {
            lemma_square_step(root_of_unity@, k, testval@);
            assert(exp2(k + 1) == 2 * exp2(k));
            if k >= 63 {
                lemma_exp2_monotone(63, k);
            }
        }
        deg_root = deg_root * 2;
        testval = testval.mul(testval);
        proof {
            k = k + 1;
        }
    }
    let ghost k0 = k;
    proof {
        assert(two_adic_order(root_of_unity@, k0));
    }
    let mut root1 = copy_bytes(merkle_root);
    let mut omega = *root_of_unity;
    let mut quartic: Vec<FieldElement> = Vec::new();
    quartic.push(FieldElement::new(1));
    quartic.push(root_of_unity.pow(deg_root / 4));
    quartic.push(root_of_unity.pow(deg_root / 2));
    quartic.push(root_of_unity.pow(deg_root / 4 * 3));
    proof {
        assert forall|j: int| 0 <= j < 4 implies #[trigger] quartic[j]@ == quartic_root(root_of_unity@, exp2(k0), j) by {}
    }
    let rounds = proof.len() - 1;
    let mut bound: usize = maxdeg_plus_1;
    let mut i: usize = 0;
    while i < rounds
        invariant
            i <= rounds,
            rounds == proof.len() - 1,
            quartic.len() == 4,
            forall|j: int| 0 <= j < 4 ==> #[trigger] quartic[j]@ == quartic_root(root_of_unity@, exp2(k0), j),
            omega@ == omega_at(root_of_unity@, i as nat),
            deg_root as nat == quartered(exp2(k0), i as nat),
            bound as nat == quartered(maxdeg_plus_1 as nat, i as nat),
            k0 <= 63,
            two_adic_order(root_of_unity@, k0),
            root1@ == chain_root(merkle_root@, proof@, i as int),
            forall|s: int| 0 <= s < i ==> #[trigger] round_ok(
                chain_root(merkle_root@, proof@, s),
                proof[s],
                root_of_unity@,
                exp2(k0),
                s as nat,
                exclude_multiples_of as int,
            ),
        decreases rounds - i,
    {
        let comp = &proof[i];
        if !check_round(comp, &root1, &quartic, omega, deg_root, exclude_multiples_of, Ghost(root_of_unity@), Ghost(exp2(k0)), Ghost(i as nat)) {
            proof {
                assert forall|k2: nat| k2 <= 63 && #[trigger] two_adic_order(root_of_unity@, k2) implies !rounds_ok(
                    merkle_root@,
                    root_of_unity@,
                    proof@,
                    exp2(k2),
                    exclude_multiples_of as int,
                ) by {
                    lemma_two_adic_order_unique(root_of_unity@, k0, k2);
                    let ii: int = i as int;
                    assert(*comp == proof@[ii]);
                    assert(ii as nat == i as nat);
                    assert(!round_ok(chain_root(merkle_root@, proof@, ii), proof@[ii], root_of_unity@, exp2(k2), ii as nat, exclude_multiples_of as int));
                    assert(0 <= ii < proof@.len() - 1);
                }
            }
            return false;
        }
        root1 = copy_bytes(&comp.root);
        omega = omega.pow(4);
        deg_root = deg_root / 4;
        bound = bound / 4;
        i = i + 1;
    }
    let ok = check_terminal(&proof[rounds], &root1, omega, bound, maxdeg_plus_1);
    proof {
        assert(rounds_ok(merkle_root@, root_of_unity@, proof@, exp2(k0), exclude_multiples_of as int));
        assert forall|k2: nat| k2 <= 63 && #[trigger] two_adic_order(root_of_unity@, k2) implies k2 == k0 by {
            lemma_two_adic_order_unique(root_of_unity@, k0, k2);
        }
    }
    ok
}

} // verus!
