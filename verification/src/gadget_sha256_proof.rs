//! The generic circuit loader: parses a textual constraint table — a flat
//! sequence of decimal tokens describing `A*B = C` constraints over
//! caller-supplied variables — and replays it against the constraint
//! recorder.
//!
//! Parsing is a pass of its own: a malformed table is rejected, with the
//! offending cursor position, before any constraint is recorded.  Coefficient
//! magnitudes are reduced modulo the field's order; that reduction is part of
//! the format's meaning, not hidden truncation.

use vstd::prelude::*;

verus! {

use vstd::arithmetic::div_mod::lemma_small_mod;
use vstd::arithmetic::div_mod::lemma_fundamental_div_mod;
use vstd::arithmetic::div_mod::lemma_add_mod_noop;
use vstd::arithmetic::div_mod::lemma_mul_mod_noop_left;
use crate::field::FieldElem;
use crate::field::group_order;
use crate::field::lemma_group_order_bounds;
use crate::r1cs_utils::neg_val;
use crate::r1cs::Var;
use crate::r1cs::OpV;
use crate::r1cs::LinComb;
use crate::r1cs::ConstraintRecorder;
use crate::r1cs::var_in_bounds;
use crate::r1cs::lc_wf;
use crate::r1cs::term_wf;
use crate::r1cs::count_muls;
use crate::r1cs::lemma_lc_wf_widen;
use crate::GadgetError;
use crate::backend::new_transcript;
use crate::backend::new_pedersen_gens;
use crate::backend::new_bulletproof_gens;
use crate::backend::new_prover;
use crate::backend::new_verifier;
use crate::backend::new_thread_rng;
use crate::backend::random_scalar;
use crate::backend::scalar_from_fe;
use crate::backend::prover_commit;
use crate::backend::prover_prove;
use crate::backend::verifier_commit;
use crate::backend::verifier_verify;
use crate::backend::replay_prover;
use crate::backend::replay_verifier;

/// A decimal digit.
pub open spec fn is_dec_digit(c: char) -> bool {
    48 <= c as u32 <= 57
}

/// The numeric value of a digit character.
pub open spec fn digit_val(c: char) -> nat {
    ((c as u32) - 48) as nat
}

/// A non-empty all-digit token.
pub open spec fn is_dec_token(s: Seq<char>) -> bool {
    s.len() > 0 && forall|i: int| 0 <= i < s.len() ==> is_dec_digit(#[trigger] s[i])
}

/// The value of a digit string, most significant digit first.
pub open spec fn dec_val(s: Seq<char>) -> nat
    decreases s.len(),
{
    if s.len() == 0 {
        0
    } else {
        dec_val(s.drop_last()) * 10 + digit_val(s.last())
    }
}

/// A signed coefficient token: digits with an optional leading minus.
pub open spec fn is_coeff_token(s: Seq<char>) -> bool {
    if s.len() > 0 && s[0] == '-' {
        is_dec_token(s.subrange(1, s.len() as int))
    } else {
        is_dec_token(s)
    }
}

/// The field value of a coefficient token: its magnitude reduced mod `L`,
/// negated when the minus sign is present.
pub open spec fn coeff_val(s: Seq<char>) -> nat {
    if s.len() > 0 && s[0] == '-' {
        neg_val(dec_val(s.subrange(1, s.len() as int)) % group_order())
    } else {
        dec_val(s) % group_order()
    }
}

/// Longer digit prefixes never decrease in value.
proof fn lemma_dec_val_prefix_le(s: Seq<char>, i: int, j: int)
    requires
        0 <= i <= j <= s.len(),
    ensures
        dec_val(s.subrange(0, i)) <= dec_val(s.subrange(0, j)),
    decreases j - i,
{
    if i < j {
        lemma_dec_val_prefix_le(s, i, j - 1);
        let p = s.subrange(0, j);
        assert(p.drop_last() =~= s.subrange(0, j - 1));
        assert(dec_val(s.subrange(0, j - 1)) * 10 >= dec_val(s.subrange(0, j - 1)))
            by {
            vstd::arithmetic::mul::lemma_mul_inequality(
                1,
                10,
                dec_val(s.subrange(0, j - 1)) as int,
            );
            vstd::arithmetic::mul::lemma_mul_basics(dec_val(s.subrange(0, j - 1)) as int);
            vstd::arithmetic::mul::lemma_mul_is_commutative(
                dec_val(s.subrange(0, j - 1)) as int,
                10,
            );
        }
    }
}

/// Parse an unsigned decimal token into a machine integer.  Returns the
/// token's value exactly when the token is all digits and its value fits;
/// `None` otherwise.
pub fn parse_index(s: &str) -> (r: Option<usize>)
    ensures
        (r matches Some(v)) <==> (is_dec_token(s@) && dec_val(s@) <= usize::MAX),
        r matches Some(v) ==> v == dec_val(s@),
{
    let n = s.unicode_len();
    if n == 0 {
        return None;
    }
    let mut acc: usize = 0;
    let mut i: usize = 0;
    proof {
        assert(s@.subrange(0, 0) =~= Seq::<char>::empty());
    }
    while i < n
        invariant
            n == s@.len(),
            n > 0,
            i <= n,
            acc == dec_val(s@.subrange(0, i as int)),
            forall|j: int| 0 <= j < i ==> is_dec_digit(#[trigger] s@[j]),
        decreases n - i,
    {
        let c = s.get_char(i);
        let u: u32 = c as u32;
        if u < 48 || u > 57 {
            proof {
                assert(!is_dec_digit(s@[i as int]));
            }
            return None;
        }
        let d: usize = (u - 48) as usize;
        if acc > (usize::MAX - d) / 10 {
            proof {
                // the value alreay exceeds the machine range
                lemma_fundamental_div_mod((usize::MAX - d) as int, 10);
                assert(acc * 10 >= ((usize::MAX - d) / 10 + 1) * 10) by {
                    vstd::arithmetic::mul::lemma_mul_inequality(
                        (usize::MAX - d) as int / 10 + 1,
                        acc as int,
                        10,
                    );
                }
                assert(((usize::MAX - d) / 10 + 1) * 10 == ((usize::MAX - d) / 10) * 10
                    + 10) by {
                    vstd::arithmetic::mul::lemma_mul_is_distributive_add_other_way(
                        10,
                        (usize::MAX - d) as int / 10,
                        1,
                    );
                }
                assert(acc * 10 + d > usize::MAX);
                let ext = s@.subrange(0, i + 1);
                assert(ext.drop_last() =~= s@.subrange(0, i as int));
                assert(ext.last() == s@[i as int]);
                assert(dec_val(ext) == acc * 10 + d);
                lemma_dec_val_prefix_le(s@, i + 1, s@.len() as int);
                assert(s@.subrange(0, s@.len() as int) =~= s@);
            }
            return None;
        }
        proof {
            lemma_fundamental_div_mod((usize::MAX - d) as int, 10);
            assert(acc * 10 <= ((usize::MAX - d) / 10) * 10) by {
                vstd::arithmetic::mul::lemma_mul_inequality(
                    acc as int,
                    (usize::MAX - d) as int / 10,
                    10,
                );
            }
            let ext = s@.subrange(0, i + 1);
            assert(ext.drop_last() =~= s@.subrange(0, i as int));
            assert(ext.last() == s@[i as int]);
        }
        acc = acc * 10 + d;
        i = i + 1;
    }
    proof {
        assert(s@.subrange(0, s@.len() as int) =~= s@);
    }
    Some(acc)
}

/// Parse a signed decimal coefficient token into a field element, reducing
/// its magnitude mod `L`.  Returns `None` exactly when the token is not an
/// optionally-signed digit string.
pub fn parse_field_coeff(s: &str) -> (r: Option<FieldElem>)
    ensures
        (r matches Some(f)) <==> is_coeff_token(s@),
        r matches Some(f) ==> f.wf() && f.as_nat() == coeff_val(s@),
{
    let n = s.unicode_len();
    if n == 0 {
        return None;
    }
    let first = s.get_char(0);
    let neg: bool = first == '-';
    let start: usize = if neg {
        1
    } else {
        0
    };
    if n == start {
        return None;
    }
    let ten = FieldElem::from_u64(10);
    let mut acc = FieldElem::zero();
    let mut i: usize = start;
    proof {
        lemma_group_order_bounds();
        vstd::arithmetic::power2::lemma_pow2_pos(252);
        assert(s@.subrange(start as int, start as int) =~= Seq::<char>::empty());
        lemma_small_mod(0, group_order());
    }
    while i < n
        invariant
            n == s@.len(),
            start <= 1,
            start < n,
            start <= i <= n,
            (s@[0] == '-') <==> start == 1,
            ten.wf(),
            ten.as_nat() == 10,
            acc.wf(),
            acc.as_nat() == dec_val(s@.subrange(start as int, i as int)) % group_order(),
            forall|j: int| start <= j < i ==> is_dec_digit(#[trigger] s@[j]),
        decreases n - i,
    {
        let c = s.get_char(i);
        let u: u32 = c as u32;
        if u < 48 || u > 57 {
            proof {
                assert(!is_dec_digit(s@[i as int]));
                if start == 1 {
                    let tail = s@.subrange(1, s@.len() as int);
                    assert(tail[i - 1] == s@[i as int]);
                    assert(!is_dec_token(tail)) by {
                        assert(!is_dec_digit(tail[i - 1]));
                    }
                    assert(!is_coeff_token(s@));
                } else {
                    assert(!is_dec_token(s@)) by {
                        assert(!is_dec_digit(s@[i as int]));
                    }
                    assert(!is_coeff_token(s@));
                }
            }
            return None;
        }
        let d = FieldElem::from_u64((u - 48) as u64);
        let shifted = acc.mul_mod(&ten);
        let next = shifted.add_mod(&d);
        proof {
            lemma_group_order_bounds();
            let gi: int = group_order() as int;
            let prefix = s@.subrange(start as int, i as int);
            let ext = s@.subrange(start as int, i + 1);
            assert(ext.drop_last() =~= prefix);
            assert(ext.last() == s@[i as int]);
            let x: int = dec_val(prefix) as int;
            let dv: int = digit_val(s@[i as int]) as int;
            // ((x % L) * 10) % L == (x * 10) % L
            lemma_mul_mod_noop_left(x, 10, gi);
            // ((x*10) % L + dv % L) % L == (x*10 + dv) % L
            lemma_add_mod_noop(x * 10, dv, gi);
            lemma_small_mod(dv as nat, group_order());
            assert(dec_val(ext) == x * 10 + dv);
        }
        acc = next;
        i = i + 1;
    }
    proof {
        assert(s@.subrange(start as int, n as int) =~= s@.subrange(
            start as int,
            s@.len() as int,
        ));
        if start == 1 {
            let tail = s@.subrange(1, s@.len() as int);
            assert(tail =~= s@.subrange(start as int, s@.len() as int));
            assert forall|k: int| 0 <= k < tail.len() implies is_dec_digit(
                #[trigger] tail[k],
            ) by {
                assert(tail[k] == s@[k + 1]);
            }
        } else {
            assert(s@.subrange(0, s@.len() as int) =~= s@);
        }
    }
    if neg {
        let r = acc.neg_mod();
        Some(r)
    } else {
        Some(acc)
    }
}


/// The character sequences of a token list.
pub open spec fn tokens_view(v: Seq<String>) -> Seq<Seq<char>> {
    v.map_values(|s: String| s@)
}

/// Number of terms a side declares.
pub open spec fn side_count(toks: Seq<Seq<char>>, i: nat) -> nat {
    dec_val(toks[i as int])
}

/// The cursor position just past one side: its count token plus two tokens
/// per term.
pub open spec fn side_end(toks: Seq<Seq<char>>, i: nat) -> nat {
    i + 1 + 2 * dec_val(toks[i as int])
}

/// Term `t` of the side at `i` is well formed: an in-range variable index
/// and a signed coefficient.
pub open spec fn side_term_ok(toks: Seq<Seq<char>>, i: nat, t: int, nvars: nat) -> bool {
    &&& is_dec_token(toks[i + 1 + 2 * t])
    &&& dec_val(toks[i + 1 + 2 * t]) < nvars
    &&& is_coeff_token(toks[i + 2 + 2 * t])
}

/// One side of a constraint parses completely at cursor `i`.
pub open spec fn side_ok(toks: Seq<Seq<char>>, i: nat, nvars: nat) -> bool {
    &&& i < toks.len()
    &&& is_dec_token(toks[i as int])
    &&& dec_val(toks[i as int]) <= usize::MAX
    &&& i + 1 + 2 * dec_val(toks[i as int]) <= toks.len()
    &&& forall|t: int| 0 <= t < dec_val(toks[i as int]) ==> side_term_ok(toks, i, t, nvars)
}

/// The linear-combination terms of the first `t` terms of a side.
pub open spec fn side_terms_upto(
    toks: Seq<Seq<char>>,
    i: nat,
    vars: Seq<Var>,
    t: nat,
) -> Seq<(Var, nat)>
    decreases t,
{
    if t == 0 {
        Seq::empty()
    } else {
        side_terms_upto(toks, i, vars, (t - 1) as nat).push(
            (
                vars[dec_val(toks[i + 2 * t - 1]) as int],
                coeff_val(toks[(i + 2 * t) as int]),
            ),
        )
    }
}

/// The linear-combination terms of a whole side.
pub open spec fn side_terms(toks: Seq<Seq<char>>, i: nat, vars: Seq<Var>) -> Seq<(Var, nat)> {
    side_terms_upto(toks, i, vars, dec_val(toks[i as int]))
}

/// Scan a side's terms for the first offending token position.
pub open spec fn side_err_scan(
    toks: Seq<Seq<char>>,
    i: nat,
    nvars: nat,
    t: nat,
    k: nat,
) -> nat
    decreases k - t,
{
    if t >= k {
        i
    } else if i + 1 + 2 * t >= toks.len() {
        toks.len()
    } else if !(is_dec_token(toks[(i + 1 + 2 * t) as int]) && dec_val(
        toks[(i + 1 + 2 * t) as int],
    ) < nvars) {
        (i + 1 + 2 * t) as nat
    } else if i + 2 + 2 * t >= toks.len() {
        toks.len()
    } else if !is_coeff_token(toks[(i + 2 + 2 * t) as int]) {
        (i + 2 + 2 * t) as nat
    } else {
        side_err_scan(toks, i, nvars, t + 1, k)
    }
}

/// The offending cursor position when a side fails to parse.
pub open spec fn side_err_pos(toks: Seq<Seq<char>>, i: nat, nvars: nat) -> nat {
    if !(i < toks.len() && is_dec_token(toks[i as int]) && dec_val(toks[i as int])
        <= usize::MAX) {
        i
    } else {
        side_err_scan(toks, i, nvars, 0, dec_val(toks[i as int]))
    }
}

/// Parse one side of a constraint at cursor `i`, building its linear
/// combination over the caller's variables.  Returns the combination and
/// the cursor just past the side; fails, with the offending position,
/// exactly when the side does not parse.
#[allow(non_snake_case)]
pub fn getEquation(
    var_arr: &Vec<Var>,
    circuit_config_arr: &Vec<String>,
    i: usize,
) -> (r: Result<(LinComb, usize), GadgetError>)
    ensures
        (r matches Ok(p)) <==> side_ok(
            tokens_view(circuit_config_arr@),
            i as nat,
            var_arr@.len() as nat,
        ),
        r matches Ok(p) ==> p.0@ =~= side_terms(
            tokens_view(circuit_config_arr@),
            i as nat,
            var_arr@,
        ) && p.1 == side_end(tokens_view(circuit_config_arr@), i as nat) && i < p.1
            <= circuit_config_arr@.len(),
        r matches Err(e) ==> e == (GadgetError::MalformedCircuitTable {
            pos: side_err_pos(
                tokens_view(circuit_config_arr@),
                i as nat,
                var_arr@.len() as nat,
            ) as usize,
        }),
{
    let ghost toks: Seq<Seq<char>> = tokens_view(circuit_config_arr@);
    let ghost nvars: nat = var_arr@.len() as nat;
    let nv: usize = var_arr.len();
    let n = circuit_config_arr.len();
    if i >= n {
        return Err(GadgetError::MalformedCircuitTable { pos: i });
    }
    proof {
        assert(toks[i as int] == circuit_config_arr@[i as int]@);
    }
    let count: usize = match parse_index(circuit_config_arr[i].as_str()) {
        Some(k) => k,
        None => {
            return Err(GadgetError::MalformedCircuitTable { pos: i });
        },
    };
    let mut lc = LinComb::new();
    let mut cur: usize = i + 1;
    let mut t: usize = 0;
    while t < count
        invariant
            toks == tokens_view(circuit_config_arr@),
            nvars == var_arr@.len(),
            nv == var_arr@.len(),
            n == circuit_config_arr@.len(),
            i < n,
            is_dec_token(toks[i as int]),
            count == dec_val(toks[i as int]),
            t <= count,
            cur == i + 1 + 2 * t,
            cur <= n,
            lc@ =~= side_terms_upto(toks, i as nat, var_arr@, t as nat),
            forall|u: int| 0 <= u < t ==> side_term_ok(toks, i as nat, u, nvars),
            side_err_scan(toks, i as nat, nvars, 0, count as nat) == side_err_scan(
                toks,
                i as nat,
                nvars,
                t as nat,
                count as nat,
            ),
        decreases count - t,
    {
        if cur >= n {
            proof {
                assert(side_err_scan(toks, i as nat, nvars, t as nat, count as nat)
                    == toks.len());
            }
            return Err(GadgetError::MalformedCircuitTable { pos: n });
        }
        proof {
            assert(toks[cur as int] == circuit_config_arr@[cur as int]@);
        }
        let idx: usize = match parse_index(circuit_config_arr[cur].as_str()) {
            Some(v) => v,
            None => {
                proof {
                    assert(!side_term_ok(toks, i as nat, t as int, nvars));
                }
                return Err(GadgetError::MalformedCircuitTable { pos: cur });
            },
        };
        if idx >= nv {
            proof {
                assert(!side_term_ok(toks, i as nat, t as int, nvars));
            }
            return Err(GadgetError::MalformedCircuitTable { pos: cur });
        }
        if cur + 1 >= n {
            proof {
                assert(side_err_scan(toks, i as nat, nvars, t as nat, count as nat)
                    == toks.len());
            }
            return Err(GadgetError::MalformedCircuitTable { pos: n });
        }
        proof {
            assert(toks[cur + 1] == circuit_config_arr@[cur + 1]@);
        }
        let coeff: FieldElem = match parse_field_coeff(circuit_config_arr[cur + 1].as_str()) {
            Some(f) => f,
            None => {
                proof {
                    assert(!side_term_ok(toks, i as nat, t as int, nvars));
                }
                return Err(GadgetError::MalformedCircuitTable { pos: cur + 1 });
            },
        };
        let var = var_arr[idx];
        lc.push_term(var, coeff);
        proof {
            assert(side_term_ok(toks, i as nat, t as int, nvars));
            assert(side_err_scan(toks, i as nat, nvars, t as nat, count as nat)
                == side_err_scan(toks, i as nat, nvars, (t + 1) as nat, count as nat));
            assert(lc@ =~= side_terms_upto(toks, i as nat, var_arr@, (t + 1) as nat));
        }
        cur = cur + 2;
        t = t + 1;
    }
    Ok((lc, cur))
}

/// A whole table parses at cursor `i`: a run of complete `A`, `B`, `C`
/// triples ending exactly at the table's end.
pub open spec fn table_ok(toks: Seq<Seq<char>>, i: nat, nvars: nat) -> bool
    decreases toks.len() - i,
{
    if i >= toks.len() {
        true
    } else if !side_ok(toks, i, nvars) {
        false
    } else if !side_ok(toks, side_end(toks, i), nvars) {
        false
    } else if !side_ok(toks, side_end(toks, side_end(toks, i)), nvars) {
        false
    } else {
        table_ok(toks, side_end(toks, side_end(toks, side_end(toks, i))), nvars)
    }
}

/// The offending cursor position of a malformed table.
pub open spec fn table_err_pos(toks: Seq<Seq<char>>, i: nat, nvars: nat) -> nat
    decreases toks.len() - i,
{
    if i >= toks.len() {
        i
    } else if !side_ok(toks, i, nvars) {
        side_err_pos(toks, i, nvars)
    } else if !side_ok(toks, side_end(toks, i), nvars) {
        side_err_pos(toks, side_end(toks, i), nvars)
    } else if !side_ok(toks, side_end(toks, side_end(toks, i)), nvars) {
        side_err_pos(toks, side_end(toks, side_end(toks, i)), nvars)
    } else {
        table_err_pos(toks, side_end(toks, side_end(toks, side_end(toks, i))), nvars)
    }
}

/// The parsed `(A, B, C)` term lists of every constraint of the table.
pub open spec fn table_triples(toks: Seq<Seq<char>>, i: nat, vars: Seq<Var>) -> Seq<
    (Seq<(Var, nat)>, Seq<(Var, nat)>, Seq<(Var, nat)>),
>
    decreases toks.len() - i,
{
    let nvars = vars.len();
    if i >= toks.len() {
        Seq::empty()
    } else if !side_ok(toks, i, nvars) {
        Seq::empty()
    } else if !side_ok(toks, side_end(toks, i), nvars) {
        Seq::empty()
    } else if !side_ok(toks, side_end(toks, side_end(toks, i)), nvars) {
        Seq::empty()
    } else {
        let ia = side_end(toks, i);
        let ib = side_end(toks, ia);
        seq![
            (side_terms(toks, i, vars), side_terms(toks, ia, vars), side_terms(
                toks,
                ib,
                vars,
            )),
        ] + table_triples(toks, side_end(toks, ib), vars)
    }
}

/// A term list with every coefficient negated.
pub open spec fn neg_terms(ts: Seq<(Var, nat)>) -> Seq<(Var, nat)> {
    ts.map_values(|t: (Var, nat)| (t.0, neg_val(t.1)))
}

/// The operations one parsed constraint list becomes: per constraint, one
/// multiplication gate `A*B` and one constraint `M - C = 0`.
pub open spec fn triples_ops(
    ts: Seq<(Seq<(Var, nat)>, Seq<(Var, nat)>, Seq<(Var, nat)>)>,
    m0: nat,
) -> Seq<OpV>
    decreases ts.len(),
{
    if ts.len() == 0 {
        Seq::empty()
    } else {
        seq![
            OpV::MultiplyV(ts[0].0, ts[0].1),
            OpV::ConstrainV(seq![(Var::MulOut(m0 as usize), 1nat)] + neg_terms(ts[0].2)),
        ] + triples_ops(ts.drop_first(), m0 + 1)
    }
}

/// The views of an executable triple list.
pub open spec fn triples_view(v: Seq<(LinComb, LinComb, LinComb)>) -> Seq<
    (Seq<(Var, nat)>, Seq<(Var, nat)>, Seq<(Var, nat)>),
> {
    v.map_values(|t: (LinComb, LinComb, LinComb)| (t.0@, t.1@, t.2@))
}


/// The additive inverse of a reduced value is reduced.
proof fn lemma_neg_val_wf(x: nat)
    ensures
        neg_val(x) < group_order(),
{
    lemma_group_order_bounds();
    vstd::arithmetic::power2::lemma_pow2_pos(252);
    vstd::arithmetic::div_mod::lemma_mod_bound(
        (group_order() - x) as int,
        group_order() as int,
    );
}

/// Side terms only use the caller's variables, with reduced coefficients.
proof fn lemma_side_terms_wf(
    toks: Seq<Seq<char>>,
    i: nat,
    vars: Seq<Var>,
    t: nat,
    nc: nat,
    na: nat,
    nm: nat,
)
    requires
        forall|j: int| 0 <= j < vars.len() ==> var_in_bounds(#[trigger] vars[j], nc, na, nm),
        forall|u: int| 0 <= u < t ==> side_term_ok(toks, i, u, vars.len()),
    ensures
        lc_wf(side_terms_upto(toks, i, vars, t), nc, na, nm),
    decreases t,
{
    lemma_group_order_bounds();
    vstd::arithmetic::power2::lemma_pow2_pos(252);
    if t > 0 {
        lemma_side_terms_wf(toks, i, vars, (t - 1) as nat, nc, na, nm);
        let prev = side_terms_upto(toks, i, vars, (t - 1) as nat);
        let terms = side_terms_upto(toks, i, vars, t);
        assert(side_term_ok(toks, i, t - 1, vars.len()));
        let ctok = toks[(i + 2 * t) as int];
        assert(coeff_val(ctok) < group_order()) by {
            if ctok.len() > 0 && ctok[0] == '-' {
                lemma_neg_val_wf(
                    dec_val(ctok.subrange(1, ctok.len() as int)) % group_order(),
                );
            } else {
                vstd::arithmetic::div_mod::lemma_mod_bound(
                    dec_val(ctok) as int,
                    group_order() as int,
                );
            }
        }
        assert forall|j: int| 0 <= j < terms.len() implies #[trigger] term_wf(
            terms[j],
            nc,
            na,
            nm,
        ) by {
            if j < prev.len() {
                assert(term_wf(prev[j], nc, na, nm));
            } else {
                assert(terms[j] == (
                    vars[dec_val(toks[(i + 2 * t - 1) as int]) as int],
                    coeff_val(ctok),
                ));
            }
        }
    }
}

/// A combination with every coefficient negated.
fn negate_lc(lc: &LinComb) -> (r: LinComb)
    requires
        forall|j: int| 0 <= j < lc@.len() ==> (#[trigger] lc@[j]).1 < group_order(),
    ensures
        r@ =~= neg_terms(lc@),
{
    let mut out = LinComb::new();
    let mut j: usize = 0;
    while j < lc.terms.len()
        invariant
            forall|u: int| 0 <= u < lc@.len() ==> (#[trigger] lc@[u]).1 < group_order(),
            j <= lc.terms.len(),
            lc@.len() == lc.terms@.len(),
            out@ =~= neg_terms(lc@.subrange(0, j as int)),
        decreases lc.terms.len() - j,
    {
        let (v, c) = lc.terms[j];
        proof {
            assert(lc@[j as int] == (v, c.as_nat()));
        }
        let nc = c.neg_mod();
        out.push_term(v, nc);
        proof {
            assert(out@ =~= neg_terms(lc@.subrange(0, j + 1)));
        }
        j = j + 1;
    }
    proof {
        assert(lc@.subrange(0, lc@.len() as int) =~= lc@);
    }
    out
}

/// Replays the R1CS circuit described by the token table against the
/// recorder: per constraint, a multiplication gate `A*B = M` and the
/// constraint `M - C = 0`.  A malformed table is rejected, with the
/// offending cursor position, before anything is recorded.
#[allow(non_snake_case)]
pub fn variable_argument_bigint(
    cs: &mut ConstraintRecorder,
    var_arr: &Vec<Var>,
    circuit_config_arr: &Vec<String>,
) -> (r: Result<(), GadgetError>)
    requires
        old(cs).wf(),
        old(cs).n_mul + circuit_config_arr@.len() <= usize::MAX,
        forall|j: int|
            0 <= j < var_arr@.len() ==> var_in_bounds(
                #[trigger] var_arr@[j],
                old(cs).n_committed as nat,
                old(cs).n_allocated as nat,
                old(cs).n_mul as nat,
            ),
    ensures
        final(cs).wf(),
        final(cs).n_committed == old(cs).n_committed,
        final(cs).n_allocated == old(cs).n_allocated,
        (r matches Ok(u)) <==> table_ok(
            tokens_view(circuit_config_arr@),
            0,
            var_arr@.len() as nat,
        ),
        r matches Ok(u) ==> final(cs).ops_spec() =~~= old(cs).ops_spec() + triples_ops(
            table_triples(tokens_view(circuit_config_arr@), 0, var_arr@),
            old(cs).n_mul as nat,
        ) && final(cs).n_mul == old(cs).n_mul + table_triples(
            tokens_view(circuit_config_arr@),
            0,
            var_arr@,
        ).len(),
        r matches Err(e) ==> e == (GadgetError::MalformedCircuitTable {
            pos: table_err_pos(
                tokens_view(circuit_config_arr@),
                0,
                var_arr@.len() as nat,
            ) as usize,
        }) && final(cs).ops_spec() =~~= old(cs).ops_spec() && final(cs).n_mul == old(
            cs,
        ).n_mul,
{
    let ghost toks: Seq<Seq<char>> = tokens_view(circuit_config_arr@);
    let ghost nvars: nat = var_arr@.len() as nat;
    let n = circuit_config_arr.len();
    // First pass: parse the whole table; reject it before any mutation.
    let mut triples: Vec<(LinComb, LinComb, LinComb)> = Vec::new();
    let mut cursor: usize = 0;
    proof {
        assert(triples_view(triples@) =~= Seq::<
            (Seq<(Var, nat)>, Seq<(Var, nat)>, Seq<(Var, nat)>),
        >::empty());
    }
    while cursor < n
        invariant
            toks == tokens_view(circuit_config_arr@),
            nvars == var_arr@.len(),
            n == circuit_config_arr@.len(),
            cursor <= n,
            table_ok(toks, 0, nvars) == table_ok(toks, cursor as nat, nvars),
            table_err_pos(toks, 0, nvars) == table_err_pos(toks, cursor as nat, nvars),
            table_triples(toks, 0, var_arr@) =~= triples_view(triples@) + table_triples(
                toks,
                cursor as nat,
                var_arr@,
            ),
            triples@.len() * 3 <= cursor,
            *cs == *old(cs),
            cs.wf(),
        decreases n - cursor,
    {
        let ra = getEquation(var_arr, circuit_config_arr, cursor);
        let (lc_a, ia) = match ra {
            Ok(p) => p,
            Err(e) => {
                proof {
                    assert(!table_ok(toks, cursor as nat, nvars));
                    assert(table_err_pos(toks, cursor as nat, nvars) == side_err_pos(
                        toks,
                        cursor as nat,
                        nvars,
                    ));
                }
                return Err(e);
            },
        };
        let rb = getEquation(var_arr, circuit_config_arr, ia);
        let (lc_b, ib) = match rb {
            Ok(p) => p,
            Err(e) => {
                proof {
                    assert(ia as nat == side_end(toks, cursor as nat));
                    assert(!table_ok(toks, cursor as nat, nvars));
                    assert(table_err_pos(toks, cursor as nat, nvars) == side_err_pos(
                        toks,
                        ia as nat,
                        nvars,
                    ));
                }
                return Err(e);
            },
        };
        let rc = getEquation(var_arr, circuit_config_arr, ib);
        let (lc_c, ic) = match rc {
            Ok(p) => p,
            Err(e) => {
                proof {
                    assert(ib as nat == side_end(toks, ia as nat));
                    assert(!table_ok(toks, cursor as nat, nvars));
                    assert(table_err_pos(toks, cursor as nat, nvars) == side_err_pos(
                        toks,
                        ib as nat,
                        nvars,
                    ));
                }
                return Err(e);
            },
        };
        let ghost pre = triples@;
        triples.push((lc_a, lc_b, lc_c));
        proof {
            assert(triples_view(triples@) =~= triples_view(pre).push(
                (lc_a@, lc_b@, lc_c@),
            ));
            assert(table_triples(toks, cursor as nat, var_arr@) =~= seq![
                (lc_a@, lc_b@, lc_c@),
            ] + table_triples(toks, ic as nat, var_arr@));
            assert(table_triples(toks, 0, var_arr@) =~= triples_view(triples@)
                + table_triples(toks, ic as nat, var_arr@));
        }
        cursor = ic;
    }
    proof {
        assert(table_ok(toks, cursor as nat, nvars));
        assert(table_triples(toks, cursor as nat, var_arr@) =~= Seq::<
            (Seq<(Var, nat)>, Seq<(Var, nat)>, Seq<(Var, nat)>),
        >::empty());
        assert(table_triples(toks, 0, var_arr@) =~= triples_view(triples@));
    }
    // Second pass: emit one gate and one constraint per parsed record.
    let ghost tsv = table_triples(toks, 0, var_arr@);
    let ghost m0: nat = cs.n_mul as nat;
    let one = FieldElem::one();
    proof {
        lemma_group_order_bounds();
        vstd::arithmetic::power2::lemma2_to64();
        assert(tsv.skip(0) =~= tsv);
        assert(cs.ops_spec() + triples_ops(tsv, m0) =~~= cs.ops_spec() + triples_ops(
            tsv.skip(0),
            m0,
        ));
        lemma_triples_wf(
            toks,
            0,
            var_arr@,
            old(cs).n_committed as nat,
            old(cs).n_allocated as nat,
            old(cs).n_mul as nat,
        );
    }
    let mut j: usize = 0;
    while j < triples.len()
        invariant
            cs.wf(),
            one.as_nat() == 1,
            cs.n_committed == old(cs).n_committed,
            cs.n_allocated == old(cs).n_allocated,
            cs.n_mul == old(cs).n_mul + j,
            m0 == old(cs).n_mul as nat,
            j <= triples@.len(),
            triples@.len() <= circuit_config_arr@.len(),
            old(cs).n_mul + circuit_config_arr@.len() <= usize::MAX,
            tsv =~= triples_view(triples@),
            forall|u: int|
                0 <= u < tsv.len() ==> lc_wf(
                    (#[trigger] tsv[u]).0,
                    old(cs).n_committed as nat,
                    old(cs).n_allocated as nat,
                    old(cs).n_mul as nat,
                ) && lc_wf(
                    tsv[u].1,
                    old(cs).n_committed as nat,
                    old(cs).n_allocated as nat,
                    old(cs).n_mul as nat,
                ) && lc_wf(
                    tsv[u].2,
                    old(cs).n_committed as nat,
                    old(cs).n_allocated as nat,
                    old(cs).n_mul as nat,
                ),
            old(cs).ops_spec() + triples_ops(tsv, m0) =~~= cs.ops_spec() + triples_ops(
                tsv.skip(j as int),
                (m0 + j) as nat,
            ),
        decreases triples@.len() - j,
    {
        let trip: &(LinComb, LinComb, LinComb) = &triples[j];
        let a = trip.0.duplicate();
        let b = trip.1.duplicate();
        proof {
            assert(tsv[j as int] == (trip.0@, trip.1@, trip.2@));
            lemma_lc_wf_widen(
                a@,
                cs.n_committed as nat,
                cs.n_allocated as nat,
                old(cs).n_mul as nat,
                cs.n_allocated as nat,
                cs.n_mul as nat,
            );
            lemma_lc_wf_widen(
                b@,
                cs.n_committed as nat,
                cs.n_allocated as nat,
                old(cs).n_mul as nat,
                cs.n_allocated as nat,
                cs.n_mul as nat,
            );
        }
        let (_lv, _rv, o_var) = cs.multiply(a, b);
        proof {
            assert forall|u: int| 0 <= u < trip.2@.len() implies (
            #[trigger] trip.2@[u]).1 < group_order() by {
                assert(term_wf(
                    trip.2@[u],
                    old(cs).n_committed as nat,
                    old(cs).n_allocated as nat,
                    old(cs).n_mul as nat,
                ));
            }
        }
        let neg_c = negate_lc(&trip.2);
        let mut constraint = LinComb::from_term(o_var, one);
        constraint.append(&neg_c);
        proof {
            lemma_group_order_bounds();
            vstd::arithmetic::power2::lemma_pow2_pos(252);
            let nc: nat = cs.n_committed as nat;
            let na: nat = cs.n_allocated as nat;
            let nm: nat = cs.n_mul as nat;
            assert forall|u: int| 0 <= u < constraint@.len() implies #[trigger] term_wf(
                constraint@[u],
                nc,
                na,
                nm,
            ) by {
                if u == 0 {
                } else {
                    assert(constraint@[u] == neg_terms(trip.2@)[u - 1]);
                    assert(term_wf(
                        trip.2@[u - 1],
                        old(cs).n_committed as nat,
                        old(cs).n_allocated as nat,
                        old(cs).n_mul as nat,
                    ));
                    lemma_neg_val_wf(trip.2@[u - 1].1);
                }
            }
        }
        cs.constrain(constraint);
        proof {
            let rest = tsv.skip(j as int);
            assert(rest.drop_first() =~= tsv.skip(j + 1));
            assert(rest[0] == (trip.0@, trip.1@, trip.2@));
            assert(triples_ops(rest, (m0 + j) as nat) =~~= seq![
                OpV::MultiplyV(trip.0@, trip.1@),
                OpV::ConstrainV(
                    seq![(Var::MulOut(((m0 + j) as nat) as usize), 1nat)] + neg_terms(
                        trip.2@,
                    ),
                ),
            ] + triples_ops(tsv.skip(j + 1), (m0 + j + 1) as nat));
            assert(old(cs).ops_spec() + triples_ops(tsv, m0) =~~= cs.ops_spec()
                + triples_ops(tsv.skip(j + 1), (m0 + j + 1) as nat));
        }
        j = j + 1;
    }
    proof {
        assert(tsv.skip(tsv.len() as int) =~= Seq::<
            (Seq<(Var, nat)>, Seq<(Var, nat)>, Seq<(Var, nat)>),
        >::empty());
        assert(triples_ops(tsv.skip(tsv.len() as int), (m0 + tsv.len()) as nat)
            =~~= Seq::<OpV>::empty());
        assert(cs.ops_spec() + Seq::<OpV>::empty() =~~= cs.ops_spec());
    }
    Ok(())
}

/// Every parsed triple of a table is well formed over the caller's
/// variables.
proof fn lemma_triples_wf(toks: Seq<Seq<char>>, i: nat, vars: Seq<Var>, nc: nat, na: nat, nm: nat)
    requires
        forall|j: int| 0 <= j < vars.len() ==> var_in_bounds(#[trigger] vars[j], nc, na, nm),
    ensures
        forall|u: int|
            0 <= u < table_triples(toks, i, vars).len() ==> lc_wf(
                (#[trigger] table_triples(toks, i, vars)[u]).0,
                nc,
                na,
                nm,
            ) && lc_wf(table_triples(toks, i, vars)[u].1, nc, na, nm) && lc_wf(
                table_triples(toks, i, vars)[u].2,
                nc,
                na,
                nm,
            ),
    decreases toks.len() - i,
{
    let ts = table_triples(toks, i, vars);
    let nvars = vars.len();
    if i >= toks.len() {
    } else if !side_ok(toks, i, nvars) {
    } else if !side_ok(toks, side_end(toks, i), nvars) {
    } else if !side_ok(toks, side_end(toks, side_end(toks, i)), nvars) {
    } else {
        let ia = side_end(toks, i);
        let ib = side_end(toks, ia);
        let ic = side_end(toks, ib);
        lemma_triples_wf(toks, ic, vars, nc, na, nm);
        lemma_side_terms_wf(toks, i, vars, dec_val(toks[i as int]), nc, na, nm);
        lemma_side_terms_wf(toks, ia, vars, dec_val(toks[ia as int]), nc, na, nm);
        lemma_side_terms_wf(toks, ib, vars, dec_val(toks[ib as int]), nc, na, nm);
        let rest = table_triples(toks, ic, vars);
        assert forall|u: int| 0 <= u < ts.len() implies lc_wf(
            (#[trigger] ts[u]).0,
            nc,
            na,
            nm,
        ) && lc_wf(ts[u].1, nc, na, nm) && lc_wf(ts[u].2, nc, na, nm) by {
            if u == 0 {
            } else {
                assert(ts[u] == rest[u - 1]);
                assert(lc_wf(rest[u - 1].0, nc, na, nm) && lc_wf(rest[u - 1].1, nc, na, nm)
                    && lc_wf(rest[u - 1].2, nc, na, nm));
            }
        }
    }
}


/// Number of witness values bound by commitments; the remainder of the
/// witness is allocated as low-level wires.
pub const INPUT_SIZE: usize = 512;

/// The variable count a verifier-side run of the loader works over:
/// one wire per commitment plus the low-level wires.
pub open spec fn verifier_var_count(n_committed: nat, variables_size: nat) -> nat {
    if variables_size >= INPUT_SIZE {
        (n_committed + variables_size - INPUT_SIZE) as nat
    } else {
        n_committed
    }
}

/// Builds the circuit described by the table over the witness — the first
/// `INPUT_SIZE` values committed, the rest allocated — and produces a proof
/// with the commitments.  A malformed table is reported, with its cursor
/// position, before the backend is asked to prove.
pub fn prove(witness_arr: &Vec<u128>, circuit_config_arr: &Vec<String>) -> (r: Result<
    (bulletproofs::r1cs::R1CSProof, Vec<curve25519_dalek_ng::ristretto::CompressedRistretto>),
    GadgetError,
>)
    requires
        witness_arr@.len() >= INPUT_SIZE,
    ensures
        !table_ok(
            tokens_view(circuit_config_arr@),
            0,
            witness_arr@.len() as nat,
        ) ==> r == Err::<
            (
                bulletproofs::r1cs::R1CSProof,
                Vec<curve25519_dalek_ng::ristretto::CompressedRistretto>,
            ),
            GadgetError,
        >(
            GadgetError::MalformedCircuitTable {
                pos: table_err_pos(
                    tokens_view(circuit_config_arr@),
                    0,
                    witness_arr@.len() as nat,
                ) as usize,
            },
        ),
        r matches Err(e) ==> (table_ok(
            tokens_view(circuit_config_arr@),
            0,
            witness_arr@.len() as nat,
        ) ==> !crate::is_table_error(e)),
        r matches Ok(p) ==> p.1@.len() == INPUT_SIZE,
{
    let pc_gens = new_pedersen_gens();
    let bp_gens = new_bulletproof_gens(65536, 1);
    let transcript = new_transcript("ShuffleTest");
    let mut prover = new_prover(&pc_gens, transcript);
    let mut rng = new_thread_rng();
    let mut com_arr: Vec<curve25519_dalek_ng::ristretto::CompressedRistretto> = Vec::new();
    let mut committed_bp: Vec<bulletproofs::r1cs::Variable> = Vec::new();
    let mut var_arr: Vec<Var> = Vec::new();
    let mut recorder = ConstraintRecorder::new(INPUT_SIZE);
    let mut idx: usize = 0;
    while idx < INPUT_SIZE
        invariant
            witness_arr@.len() >= INPUT_SIZE,
            idx <= INPUT_SIZE,
            com_arr@.len() == idx,
            committed_bp@.len() == idx,
            var_arr@.len() == idx,
            forall|j: int| 0 <= j < idx ==> var_arr@[j] == Var::Committed(j as usize),
        decreases INPUT_SIZE - idx,
    {
        let value = FieldElem::from_u128(witness_arr[idx]);
        let blinding = random_scalar(&mut rng);
        let (com, bp_var) = prover_commit(&mut prover, scalar_from_fe(&value), blinding);
        com_arr.push(com);
        committed_bp.push(bp_var);
        var_arr.push(Var::Committed(idx));
        idx = idx + 1;
    }
    let mut widx: usize = INPUT_SIZE;
    while widx < witness_arr.len()
        invariant
            witness_arr@.len() >= INPUT_SIZE,
            INPUT_SIZE <= widx <= witness_arr@.len(),
            recorder.wf(),
            recorder.n_committed == INPUT_SIZE,
            recorder.n_allocated == widx - INPUT_SIZE,
            recorder.n_mul == 0,
            var_arr@.len() == widx,
            forall|j: int|
                0 <= j < var_arr@.len() ==> var_in_bounds(
                    #[trigger] var_arr@[j],
                    recorder.n_committed as nat,
                    recorder.n_allocated as nat,
                    recorder.n_mul as nat,
                ),
        decreases witness_arr@.len() - widx,
    {
        proof {
            crate::field::lemma_group_order_bounds();
            vstd::arithmetic::power2::lemma_pow2_pos(252);
        }
        let value = FieldElem::from_u128(witness_arr[widx]);
        let v = recorder.allocate(Some(value));
        var_arr.push(v);
        widx = widx + 1;
    }
    let table_len = circuit_config_arr.len();
    proof {
        assert(circuit_config_arr@.len() == table_len);
    }
    match variable_argument_bigint(&mut recorder, &var_arr, circuit_config_arr) {
        Ok(()) => {},
        Err(e) => {
            proof {
                assert(var_arr@.len() == witness_arr@.len());
                assert(!table_ok(
                    tokens_view(circuit_config_arr@),
                    0,
                    witness_arr@.len() as nat,
                ));
            }
            return Err(e);
        },
    }
    match replay_prover(&recorder, &mut prover, &committed_bp) {
        Ok(()) => {},
        Err(e) => {
            return Err(e);
        },
    }
    match prover_prove(prover, &bp_gens) {
        Ok(proof) => Ok((proof, com_arr)),
        Err(_) => Err(GadgetError::ProofConstructionFailure),
    }
}

/// Rebuilds the identical circuit on the verifier's side from the
/// commitments and the table, and checks the proof against it.
pub fn verify(
    proof: bulletproofs::r1cs::R1CSProof,
    com_arr: &Vec<curve25519_dalek_ng::ristretto::CompressedRistretto>,
    variables_size: usize,
    circuit_config_arr: &Vec<String>,
) -> (r: Result<(), GadgetError>)
    requires
        com_arr@.len() + variables_size <= usize::MAX,
    ensures
        !table_ok(
            tokens_view(circuit_config_arr@),
            0,
            verifier_var_count(com_arr@.len() as nat, variables_size as nat),
        ) ==> r == Err::<(), GadgetError>(
            GadgetError::MalformedCircuitTable {
                pos: table_err_pos(
                    tokens_view(circuit_config_arr@),
                    0,
                    verifier_var_count(com_arr@.len() as nat, variables_size as nat),
                ) as usize,
            },
        ),
        r matches Err(e) ==> (table_ok(
            tokens_view(circuit_config_arr@),
            0,
            verifier_var_count(com_arr@.len() as nat, variables_size as nat),
        ) ==> !crate::is_table_error(e)),
{
    let pc_gens = new_pedersen_gens();
    let bp_gens = new_bulletproof_gens(65536, 1);
    let transcript = new_transcript("ShuffleTest");
    let mut verifier = new_verifier(transcript);
    let mut committed_bp: Vec<bulletproofs::r1cs::Variable> = Vec::new();
    let mut var_arr: Vec<Var> = Vec::new();
    let nc = com_arr.len();
    let mut recorder = ConstraintRecorder::new(nc);
    let mut idx: usize = 0;
    while idx < nc
        invariant
            nc == com_arr@.len(),
            idx <= nc,
            committed_bp@.len() == idx,
            var_arr@.len() == idx,
            forall|j: int| 0 <= j < idx ==> var_arr@[j] == Var::Committed(j as usize),
        decreases nc - idx,
    {
        let bp_var = verifier_commit(&mut verifier, com_arr[idx]);
        committed_bp.push(bp_var);
        var_arr.push(Var::Committed(idx));
        idx = idx + 1;
    }
    let mut widx: usize = INPUT_SIZE;
    while widx < variables_size
        invariant
            nc == com_arr@.len(),
            nc + variables_size <= usize::MAX,
            INPUT_SIZE <= widx,
            widx <= variables_size || widx == INPUT_SIZE,
            recorder.wf(),
            recorder.n_committed == nc,
            recorder.n_allocated == widx - INPUT_SIZE,
            recorder.n_mul == 0,
            var_arr@.len() == nc + widx - INPUT_SIZE,
            forall|j: int|
                0 <= j < var_arr@.len() ==> var_in_bounds(
                    #[trigger] var_arr@[j],
                    recorder.n_committed as nat,
                    recorder.n_allocated as nat,
                    recorder.n_mul as nat,
                ),
        decreases variables_size - widx,
    {
        let v = recorder.allocate(None);
        var_arr.push(v);
        widx = widx + 1;
    }
    proof {
        assert(var_arr@.len() == verifier_var_count(
            com_arr@.len() as nat,
            variables_size as nat,
        ));
    }
    let table_len = circuit_config_arr.len();
    proof {
        assert(circuit_config_arr@.len() == table_len);
    }
    match variable_argument_bigint(&mut recorder, &var_arr, circuit_config_arr) {
        Ok(()) => {},
        Err(e) => {
            proof {
                assert(var_arr@.len() == verifier_var_count(
                    com_arr@.len() as nat,
                    variables_size as nat,
                ));
                assert(!table_ok(
                    tokens_view(circuit_config_arr@),
                    0,
                    verifier_var_count(com_arr@.len() as nat, variables_size as nat),
                ));
            }
            return Err(e);
        },
    }
    match replay_verifier(&recorder, &mut verifier, &committed_bp) {
        Ok(()) => {},
        Err(e) => {
            return Err(e);
        },
    }
    match verifier_verify(verifier, &proof, &pc_gens, &bp_gens) {
        Ok(()) => Ok(()),
        Err(_) => Err(GadgetError::ProofVerificationFailure),
    }
}

} // verus!
