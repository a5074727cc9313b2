//! Compact codec for permutations of at most 20 positions.
//!
//! A permutation is one 64-bit value in a factorial number system: the
//! digit at position `i` (weight `i!`) selects which earlier position,
//! if any, is exchanged with position `i`.  Value 0 is the identity for
//! every length.  The encoding is unique for each permutation of a
//! given length.

use vstd::prelude::*;

use crate::error::ParseError;

verus! {

/// The sorted identity over the letters a through t; a permutation of
/// `n` positions is rendered as a reordering of its first `n` letters.
pub open spec fn alphabet() -> Seq<char> {
    "abcdefghijklmnopqrst"@
}

/// `fact(n)` is `n!`, the number of permutations of `n` positions.
pub open spec fn fact(n: nat) -> nat
    decreases n,
{
    if n == 0 {
        1
    } else {
        fact((n - 1) as nat) * n
    }
}

/// The product of the integers from `a` through `b`, 1 when the range
/// is empty.
pub open spec fn prod_range(a: nat, b: nat) -> nat
    decreases b,
{
    if b < a || b == 0 {
        1
    } else {
        prod_range(a, (b - 1) as nat) * b
    }
}

/// The sequence with the values at positions `i` and `j` exchanged.
pub open spec fn seq_swap<T>(v: Seq<T>, i: int, j: int) -> Seq<T> {
    v.update(i, v[j]).update(j, v[i])
}

/// One pass of the decoding loop: starting at position `i`, each step
/// takes the next factorial digit of `p` and, when it is not zero,
/// exchanges the chosen earlier position with the current one.
pub open spec fn apply_from<T>(p: nat, i: nat, v: Seq<T>) -> Seq<T>
    decreases v.len() - i,
{
    if i >= v.len() {
        v
    } else {
        let r = p % (i + 1);
        let w = if r > 0 {
            seq_swap(v, r - 1, i as int)
        } else {
            v
        };
        apply_from(p / (i + 1), (i + 1) as nat, w)
    }
}

/// What applying the permutation encoded by `p` does to a sequence.
pub open spec fn apply_perm<T>(p: nat, v: Seq<T>) -> Seq<T> {
    apply_from(p, 1, v)
}

/// The code of the transposition of positions `i` and `i + j`.
pub open spec fn swap_code(i: nat, j: nat) -> nat {
    if j == 0 {
        0
    } else {
        fact(i + j) * (i + 1)
    }
}

/// The smallest number of positions on which the code `p` acts: 0 for
/// the identity, otherwise the least `m` with `p < m!` (21 when even 20
/// positions do not suffice).
pub open spec fn min_len_rec(p: nat, m: nat) -> nat
    decreases 20 - m,
{
    if m >= 20 {
        if p < fact(20) {
            20
        } else {
            21
        }
    } else if p < fact(m) {
        m
    } else {
        min_len_rec(p, m + 1)
    }
}

/// See `min_len_rec`; the search starts at two positions.
pub open spec fn min_len_spec(p: nat) -> nat {
    if p == 0 {
        0
    } else {
        min_len_rec(p, 2)
    }
}

/// Represents a permutation of up to 20 positions, encoded in a single
/// 64-bit value as a sum of transposition codes with disjoint factorial
/// digits.
#[derive(Copy, Clone, Debug, PartialEq, Eq, Structural, Hash)]
pub struct Permutation(pub u64);

/// Exchanges two positions of a vector.
///
/// Relies on the standard slice `swap`: the values at the two positions
/// trade places and nothing else moves.
#[verifier::external_body]
pub(crate) fn vec_swap<T>(v: &mut Vec<T>, i: usize, j: usize)
    requires
        i < old(v)@.len(),
        j < old(v)@.len(),
    ensures
        final(v)@ == seq_swap(old(v)@, i as int, j as int),
{
    v.swap(i, j);
}

/// `n!` grows with `n` and is never zero.
proof fn lemma_fact_mono(m: nat, n: nat)
    requires
        m <= n,
    ensures
        fact(m) <= fact(n),
        1 <= fact(n),
    decreases n,
{
    if n == 0 {
    } else if m == n {
        lemma_fact_mono(0, (n - 1) as nat);
        assert(fact(n) == fact((n - 1) as nat) * n);
        assert(fact((n - 1) as nat) * n >= 1) by (nonlinear_arith)
            requires
                fact((n - 1) as nat) >= 1,
                n >= 1,
        ;
    } else {
        lemma_fact_mono(m, (n - 1) as nat);
        assert(fact(n) == fact((n - 1) as nat) * n);
        assert(fact((n - 1) as nat) * n >= fact((n - 1) as nat)) by (nonlinear_arith)
            requires
                fact((n - 1) as nat) >= 1,
                n >= 1,
        ;
    }
}

/// The factorials up to 20! as plain numbers; 20! fits a `u64`.
proof fn lemma_fact_20()
    ensures
        fact(20) == 2432902008176640000,
{
    assert(fact(0) == 1);
    assert(fact(1) == fact(0) * 1);
    assert(fact(2) == fact(1) * 2);
    assert(fact(3) == fact(2) * 3);
    assert(fact(4) == fact(3) * 4);
    assert(fact(5) == fact(4) * 5);
    assert(fact(6) == fact(5) * 6);
    assert(fact(7) == fact(6) * 7);
    assert(fact(8) == fact(7) * 8);
    assert(fact(9) == fact(8) * 9);
    assert(fact(10) == fact(9) * 10);
    assert(fact(11) == fact(10) * 11);
    assert(fact(12) == fact(11) * 12);
    assert(fact(13) == fact(12) * 13);
    assert(fact(14) == fact(13) * 14);
    assert(fact(15) == fact(14) * 15);
    assert(fact(16) == fact(15) * 16);
    assert(fact(17) == fact(16) * 17);
    assert(fact(18) == fact(17) * 18);
    assert(fact(19) == fact(18) * 19);
    assert(fact(20) == fact(19) * 20);
}

impl Permutation {
    /// Performs the permutation on the values of a vector.
    ///
    /// Positions beyond the encoded length are left untouched; the
    /// identity code leaves every value in place.
    pub fn permutate<T>(self, values: &mut Vec<T>)
        ensures
            final(values)@ == apply_perm(self.0 as nat, old(values)@),
    {
        let ghost orig = values@;
        let mut p: u64 = self.0;
        let mut i: usize = 1;
        while i < values.len()
            invariant
                1 <= i,
                values@.len() == orig.len(),
                apply_from(p as nat, i as nat, values@) == apply_perm(self.0 as nat, orig),
            decreases values@.len() - i,
        {
            let ghost p0 = p as nat;
            let ghost i0 = i as nat;
            let ghost v0 = values@;
            let d: u64 = (i as u64) + 1;
            let r: u64 = p % d;
            if r > 0 {
                let k: usize = (r - 1) as usize;
                assert(k < i);
                vec_swap(values, k, i);
            }
            p = p / d;
            i = i + 1;
            proof {
                assert(apply_from(p0, i0, v0) == apply_from(p as nat, i as nat, values@));
            }
        }
        proof {
            assert(apply_from(p as nat, i as nat, values@) == values@);
        }
    }

    /// The identity permutation.
    pub fn identical() -> (r: Permutation)
        ensures
            r.0 == 0,
    {
        Permutation(0)
    }

    /// Returns the permutation that exchanges positions `i` and
    /// `i + j`; with `j == 0` it is the identity.
    pub fn swap(i: u8, j: u8) -> (r: Permutation)
        requires
            j > 0 ==> i + j <= 19,
        ensures
            r.0 == swap_code(i as nat, j as nat),
            r.0 < fact(20),
    {
        proof {
            lemma_fact_20();
        }
        if j == 0 {
            proof {
                lemma_fact_mono(0, 20);
            }
            return Self::identical();
        }
        let n: u64 = (i as u64) + (j as u64);
        let mut f: u64 = 1;
        let mut k: u64 = 0;
        while k < n
            invariant
                k <= n <= 19,
                f == fact(k as nat),
            decreases n - k,
        {
            proof {
                lemma_fact_20();
                lemma_fact_mono((k + 1) as nat, 20);
                assert(fact((k + 1) as nat) == fact(k as nat) * ((k + 1) as nat));
            }
            k = k + 1;
            f = f * k;
        }
        proof {
            lemma_fact_mono(0, (i + j) as nat);
            assert(fact((i + j + 1) as nat) == fact((i + j) as nat) * ((i + j + 1) as nat));
            assert(fact((i + j) as nat) * ((i + 1) as nat) < fact((i + j) as nat) * ((i + j
                + 1) as nat)) by (nonlinear_arith)
                requires
                    fact((i + j) as nat) >= 1,
                    i + 1 < i + j + 1,
            ;
            lemma_fact_mono((i + j + 1) as nat, 20);
        }
        Permutation(f * ((i as u64) + 1))
    }

    /// The smallest number of positions the permutation needs: 0 for
    /// the identity, otherwise the least `m` with the code below `m!`,
    /// and 21 when the code lies beyond what 20 positions encode.
    pub fn min_len(self) -> (r: u8)
        ensures
            r == min_len_spec(self.0 as nat),
            self.0 < fact(20) ==> r <= 20,
    {
        proof {
            lemma_fact_20();
        }
        if self.0 == 0 {
            return 0;
        }
        let mut m: u8 = 2;
        let mut f: u64 = 2;
        proof {
            assert(fact(2) == fact(1) * 2);
            assert(fact(1) == fact(0) * 1);
        }
        while m < 20 && f <= self.0
            invariant
                2 <= m <= 20,
                f == fact(m as nat),
                min_len_rec(self.0 as nat, 2) == min_len_rec(self.0 as nat, m as nat),
                self.0 > 0,
            decreases 20 - m,
        {
            proof {
                lemma_fact_20();
                lemma_fact_mono((m + 1) as nat, 20);
                assert(fact((m + 1) as nat) == fact(m as nat) * ((m + 1) as nat));
            }
            m = m + 1;
            f = f * (m as u64);
        }
        if f <= self.0 {
            proof {
                assert(m == 20);
            }
            21
        } else {
            proof {
                if m < 20 {
                    assert(min_len_rec(self.0 as nat, m as nat) == m);
                }
            }
            m
        }
    }

    /// The old name of `min_len`.
    pub fn len(self) -> (r: u8)
        ensures
            r == min_len_spec(self.0 as nat),
    {
        self.min_len()
    }
}

/// The position of the first occurrence of `x` in `v`, or -1.
pub open spec fn first_index_of<T>(v: Seq<T>, x: T) -> int
    decreases v.len(),
{
    if v.len() == 0 {
        -1
    } else if v[0] == x {
        0
    } else {
        let r = first_index_of(v.drop_first(), x);
        if r < 0 {
            -1
        } else {
            r + 1
        }
    }
}

/// What `first_index_of` finds: either the value does not occur, or
/// the result is its first position.
pub proof fn lemma_first_index_of<T>(v: Seq<T>, x: T)
    ensures
        first_index_of(v, x) == -1 ==> (forall|k: int| 0 <= k < v.len() ==> v[k] != x),
        first_index_of(v, x) != -1 ==> {
            let fi = first_index_of(v, x);
            &&& 0 <= fi < v.len()
            &&& v[fi] == x
            &&& (forall|k: int| 0 <= k < fi ==> v[k] != x)
        },
    decreases v.len(),
{
    if v.len() == 0 {
    } else if v[0] == x {
    } else {
        lemma_first_index_of(v.drop_first(), x);
        assert(forall|k: int| 1 <= k < v.len() ==> v[k] == v.drop_first()[k - 1]);
    }
}

/// The factorial digits read by the decoding loop, spelled as the
/// text reader finds them: at each level the highest remaining letter
/// is moved to the last position by one transposition, whose code is
/// added to the total.
pub open spec fn parse_rec(v: Seq<char>) -> Result<nat, char>
    decreases v.len(),
{
    if v.len() == 0 {
        Ok(0)
    } else {
        let l = v.len() as int;
        let c = alphabet()[l - 1];
        let fi = first_index_of(v, c);
        if fi < 0 {
            Err(c)
        } else if fi >= l - 1 {
            parse_rec(v.drop_last())
        } else {
            match parse_rec(seq_swap(v, fi, l - 1).drop_last()) {
                Ok(q) => Ok((q + swap_code(fi as nat, (l - 1 - fi) as nat)) as nat),
                Err(c2) => Err(c2),
            }
        }
    }
}

/// What parsing a text means as a whole.
pub open spec fn parse_spec(v: Seq<char>) -> Result<nat, ParseError> {
    if v.len() > 20 {
        Err(ParseError::TooLong)
    } else {
        match parse_rec(v) {
            Ok(p) => Ok(p),
            Err(c) => Err(ParseError::CharNotFound { letter: c }),
        }
    }
}

/// What rendering a code means: the decoding loop applied to the
/// identity over as many letters as the code needs.
pub open spec fn render_spec(p: nat) -> Seq<char> {
    apply_perm(p, alphabet().take(min_len_spec(p) as int))
}

/// The decoding loop keeps the length of the sequence.
pub broadcast proof fn lemma_apply_from_len<T>(p: nat, i: nat, v: Seq<T>)
    ensures
        (#[trigger] apply_from(p, i, v)).len() == v.len(),
    decreases v.len() - i,
{
    if i < v.len() {
        let r = p % (i + 1);
        let w = if r > 0 {
            seq_swap(v, r - 1, i as int)
        } else {
            v
        };
        lemma_apply_from_len(p / (i + 1), (i + 1) as nat, w);
    }
}

/// The zero code never exchanges anything.
proof fn lemma_apply_from_identity<T>(i: nat, v: Seq<T>)
    ensures
        apply_from(0, i, v) == v,
    decreases v.len() - i,
{
    if i < v.len() {
        lemma_apply_from_identity((i + 1) as nat, v);
    }
}

/// Law: the identity permutation leaves every sequence unchanged.
pub proof fn lemma_permutation_identity<T>(v: Seq<T>)
    ensures
        apply_perm(0, v) == v,
{
    lemma_apply_from_identity(1, v);
}

/// A factorial splits at any point into a smaller factorial and a
/// product of the remaining integers.
proof fn lemma_fact_prod(m: nat, b: nat)
    requires
        m <= b,
    ensures
        fact(b) == fact(m) * prod_range(m + 1, b),
    decreases b - m,
{
    if m == b {
        assert(prod_range(m + 1, b) == 1);
    } else {
        lemma_fact_prod(m, (b - 1) as nat);
        assert(fact(b) == fact((b - 1) as nat) * b);
        assert(prod_range(m + 1, b) == prod_range(m + 1, (b - 1) as nat) * b);
        assert(fact(m) * prod_range(m + 1, (b - 1) as nat) * b == fact(m) * (prod_range(
            m + 1,
            (b - 1) as nat,
        ) * b)) by (nonlinear_arith);
    }
}

/// A product of a run of integers peels off its lowest factor.
proof fn lemma_prod_range_low(a: nat, b: nat)
    requires
        1 <= a <= b,
    ensures
        prod_range(a, b) == a * prod_range(a + 1, b),
    decreases b - a,
{
    if a == b {
        assert(prod_range(a, b) == prod_range(a, (b - 1) as nat) * b);
        assert(prod_range(a, (b - 1) as nat) == 1);
        assert(prod_range(a + 1, b) == 1);
    } else {
        lemma_prod_range_low(a, (b - 1) as nat);
        assert(prod_range(a, b) == prod_range(a, (b - 1) as nat) * b);
        assert(prod_range(a + 1, b) == prod_range(a + 1, (b - 1) as nat) * b);
        assert(a * prod_range(a + 1, (b - 1) as nat) * b == a * (prod_range(a + 1, (b - 1) as nat)
            * b)) by (nonlinear_arith);
    }
}

/// Inside the decoding loop, a pending transposition code behaves as
/// claimed: the digits up to the far position stay zero, and at the far
/// position the chosen earlier position is exchanged with it.
proof fn lemma_swap_apply_from<T>(i: nat, j: nat, m: nat, v: Seq<T>)
    requires
        1 <= m <= j,
        i < j,
        j < v.len(),
    ensures
        apply_from((i + 1) * prod_range(m + 1, j), m, v) == seq_swap(v, i as int, j as int),
    decreases j - m,
{
    let p = (i + 1) * prod_range(m + 1, j);
    if m == j {
        assert(prod_range(m + 1, j) == 1);
        assert(p == i + 1) by (nonlinear_arith)
            requires
                prod_range(m + 1, j) == 1,
                p == (i + 1) * prod_range(m + 1, j),
        ;
        assert(p % (m + 1) == i + 1) by {
            vstd::arithmetic::div_mod::lemma_small_mod((i + 1) as nat, (m + 1) as nat);
        }
        assert(p / (m + 1) == 0) by {
            vstd::arithmetic::div_mod::lemma_basic_div((i + 1) as int, (m + 1) as int);
        }
        lemma_apply_from_identity((m + 1) as nat, seq_swap(v, i as int, j as int));
    } else {
        let q = (i + 1) * prod_range(m + 2, j);
        lemma_prod_range_low(m + 1, j);
        assert(p == (m + 1) * q) by (nonlinear_arith)
            requires
                prod_range(m + 1, j) == (m + 1) * prod_range(m + 2, j),
                p == (i + 1) * prod_range(m + 1, j),
                q == (i + 1) * prod_range(m + 2, j),
        ;
        assert(p % (m + 1) == 0) by {
            vstd::arithmetic::div_mod::lemma_mod_multiples_basic(q as int, (m + 1) as int);
        }
        assert(p / (m + 1) == q) by {
            vstd::arithmetic::div_mod::lemma_div_multiples_vanish(q as int, (m + 1) as int);
        }
        lemma_swap_apply_from(i, j, (m + 1) as nat, v);
    }
}

/// The code of a transposition applies as the exchange of its two
/// positions, on any sequence long enough to hold both.
pub proof fn lemma_swap_code_apply<T>(i: nat, j: nat, v: Seq<T>)
    requires
        i < j < v.len(),
    ensures
        apply_perm(swap_code(i, (j - i) as nat), v) == seq_swap(v, i as int, j as int),
{
    lemma_fact_prod(1, j);
    assert(fact(0) == 1);
    assert(fact(1) == fact(0) * 1);
    assert(fact(j) == prod_range(2, j)) by (nonlinear_arith)
        requires
            fact(1) == 1,
            fact(j) == fact(1) * prod_range(2, j),
    ;
    assert(fact(j) * (i + 1) == (i + 1) * prod_range(2, j)) by (nonlinear_arith)
        requires
            fact(j) == prod_range(2, j),
    ;
    lemma_swap_apply_from(i, j, 1, v);
}

/// A property that holds of every value of a sequence still holds
/// after the decoding loop, which only moves values around.
proof fn lemma_apply_from_all<T>(p: nat, i: nat, v: Seq<T>, pred: spec_fn(T) -> bool)
    requires
        forall|k: int| 0 <= k < v.len() ==> pred(v[k]),
    ensures
        forall|k: int| 0 <= k < v.len() ==> pred(apply_from(p, i, v)[k]),
    decreases v.len() - i,
{
    broadcast use lemma_apply_from_len;

    if i < v.len() {
        let r = p % (i + 1);
        let w = if r > 0 {
            seq_swap(v, r - 1, i as int)
        } else {
            v
        };
        assert(forall|k: int| 0 <= k < w.len() ==> pred(w[k]));
        lemma_apply_from_all(p / (i + 1), (i + 1) as nat, w, pred);
        assert(apply_from(p, i, v) == apply_from(p / (i + 1), (i + 1) as nat, w));
    } else {
        assert(apply_from(p, i, v) == v);
    }
}

/// The decoding loop acts on positions only: renaming the values
/// before or after it gives the same sequence.
pub proof fn lemma_apply_from_map<T, U>(p: nat, i: nat, v: Seq<T>, f: spec_fn(T) -> U)
    ensures
        apply_from(p, i, v).map_values(f) == apply_from(p, i, v.map_values(f)),
    decreases v.len() - i,
{
    if i >= v.len() {
    } else {
        let r = p % (i + 1);
        if r > 0 {
            let w = seq_swap(v, r - 1, i as int);
            assert(w.map_values(f) =~= seq_swap(v.map_values(f), r - 1, i as int));
            lemma_apply_from_map(p / (i + 1), (i + 1) as nat, w, f);
        } else {
            lemma_apply_from_map(p / (i + 1), (i + 1) as nat, v, f);
        }
    }
}

/// A still missing code, with the codes of the levels already read
/// added in.
pub open spec fn with_codes_read(r: Result<nat, char>, p: nat) -> Result<nat, char> {
    match r {
        Ok(q) => Ok((q + p) as nat),
        Err(c) => Err(c),
    }
}

impl Permutation {
    /// Reads a permutation from text: each letter names the position
    /// its place receives.  The text must be a reordering of the first
    /// letters of the alphabet; at most 20 positions are encodable.
    pub fn parse(s: &str) -> (r: Result<Permutation, ParseError>)
        ensures
            r == (match parse_spec(s@) {
                Ok(p) => Ok::<Permutation, ParseError>(Permutation(p as u64)),
                Err(e) => Err::<Permutation, ParseError>(e),
            }),
    {
        let n = s.unicode_len();
        if n > 20 {
            return Err(ParseError::TooLong);
        }
        let mut v: Vec<char> = Vec::new();
        let mut k: usize = 0;
        while k < n
            invariant
                k <= n,
                n == s@.len(),
                v@ == s@.take(k as int),
            decreases n - k,
        {
            v.push(s.get_char(k));
            k = k + 1;
        }
        assert(v@ =~= s@);
        let mut p: u64 = 0;
        while v.len() > 0
            invariant
                v@.len() <= s@.len() <= 20,
                p as nat + fact(v@.len()) <= fact(s@.len()),
                parse_rec(s@) == with_codes_read(parse_rec(v@), p as nat),
            decreases v@.len(),
        {
            let alpha = "abcdefghijklmnopqrst";
            proof {
                reveal_strlit("abcdefghijklmnopqrst");
                lemma_fact_20();
                lemma_fact_mono(s@.len(), 20);
            }
            let ghost v0 = v@;
            let l = v.len();
            let c = alpha.get_char(l - 1);
            proof {
                lemma_first_index_of(v@, c);
            }
            let mut fi: usize = 0;
            while fi < l && !(v[fi] == c)
                invariant
                    fi <= l,
                    l == v@.len(),
                    c == alphabet()[l - 1],
                    forall|t: int| 0 <= t < fi ==> v@[t] != c,
                decreases l - fi,
            {
                fi = fi + 1;
            }
            if fi == l {
                assert(first_index_of(v0, c) == -1) by {
                    lemma_first_index_of(v0, c);
                }
                return Err(ParseError::CharNotFound { letter: c });
            }
            assert(first_index_of(v0, c) == fi) by {
                lemma_first_index_of(v0, c);
            }
            if fi == l - 1 {
                let _ = v.pop();
                proof {
                    assert(v@ =~= v0.drop_last());
                    lemma_fact_mono(v@.len(), v0.len());
                }
            } else {
                let jj = l - 1 - fi;
                let pm = Permutation::swap(fi as u8, jj as u8);
                proof {
                    let lm1 = (l - 1) as nat;
                    assert(pm.0 == fact(lm1) * (fi + 1));
                    assert(fact(lm1) * (fi + 1) <= fact(lm1) * lm1) by (nonlinear_arith)
                        requires
                            fi + 1 <= lm1,
                            fact(lm1) >= 0,
                    ;
                    assert(fact(l as nat) == fact(lm1) * (l as nat));
                    assert(fact(lm1) * (l as nat) == fact(lm1) * lm1 + fact(lm1))
                        by (nonlinear_arith)
                        requires
                            l >= 1,
                            lm1 == l - 1,
                    ;
                }
                p = p + pm.0;
                pm.permutate(&mut v);
                proof {
                    lemma_swap_code_apply(fi as nat, (l - 1) as nat, v0);
                }
                let _ = v.pop();
                proof {
                    assert(v@ =~= seq_swap(v0, fi as int, l - 1).drop_last());
                    lemma_fact_mono(v@.len(), v0.len());
                }
            }
        }
        assert(parse_rec(s@) == with_codes_read(Ok(0), p as nat));
        Ok(Permutation(p))
    }

    /// Renders the permutation as text: the letters of the sorted
    /// identity, as many as the code needs, in the permuted order.
    pub fn render(&self) -> (r: String)
        requires
            self.0 < fact(20),
        ensures
            r@ == render_spec(self.0 as nat),
    {
        broadcast use lemma_apply_from_len;

        proof {
            reveal_strlit("abcdefghijklmnopqrst");
        }
        let n = self.min_len() as usize;
        let mut idxs: Vec<usize> = Vec::new();
        let mut k: usize = 0;
        while k < n
            invariant
                k <= n,
                idxs@.len() == k,
                forall|t: int| 0 <= t < k ==> idxs@[t] == t,
            decreases n - k,
        {
            idxs.push(k);
            k = k + 1;
        }
        let ghost ident = idxs@;
        self.permutate(&mut idxs);
        proof {
            lemma_apply_from_all(
                self.0 as nat,
                1,
                ident,
                |u: usize| u < n,
            );
        }
        let mut out = String::new();
        let mut t: usize = 0;
        while t < n
            invariant
                t <= n <= 20,
                idxs@.len() == n,
                forall|m: int| 0 <= m < n ==> idxs@[m] < n,
                out@ == Seq::new(t as nat, |m: int| alphabet()[idxs@[m] as int]),
            decreases n - t,
        {
            let alpha = "abcdefghijklmnopqrst";
            proof {
                reveal_strlit("abcdefghijklmnopqrst");
            }
            let x = idxs[t];
            let piece = alpha.substring_char(x, x + 1);
            proof {
                assert(piece@ =~= Seq::new(1, |m: int| alphabet()[x as int]));
            }
            out.append(piece);
            proof {
                assert(out@ =~= Seq::new((t + 1) as nat, |m: int| alphabet()[idxs@[m] as int]));
            }
            t = t + 1;
        }
        proof {
            let f = |u: usize| alphabet()[u as int];
            lemma_apply_from_map(self.0 as nat, 1, ident, f);
            assert(ident.map_values(f) =~= alphabet().take(n as int));
            assert(out@ =~= idxs@.map_values(f));
        }
        out
    }
}

/// A quotient stays under the cofactor.
proof fn lemma_div_bound(a: int, b: int, c: int)
    requires
        0 <= a,
        0 < b,
        a < b * c,
    ensures
        a / b < c,
{
    vstd::arithmetic::div_mod::lemma_fundamental_div_mod(a, b);
    vstd::arithmetic::div_mod::lemma_mod_bound(a, b);
    if a / b >= c {
        assert(b * (a / b) >= b * c) by (nonlinear_arith)
            requires
                a / b >= c,
                b > 0,
        ;
    }
}

/// A code below the working range leaves the positions from the
/// range's end on untouched: applying it to a sequence is applying it
/// to the first `k` positions and keeping the rest.
proof fn lemma_apply_from_confined<T>(q: nat, m: nat, k: nat, v: Seq<T>)
    requires
        1 <= m <= k,
        k <= v.len(),
        q < prod_range(m + 1, k),
    ensures
        apply_from(q, m, v) == apply_from(q, m, v.take(k as int)) + v.skip(k as int),
    decreases k - m,
{
    if m == k {
        assert(prod_range(m + 1, k) == 1);
        lemma_apply_from_identity(m, v);
        lemma_apply_from_identity(m, v.take(k as int));
        assert(v.take(k as int) + v.skip(k as int) =~= v);
    } else {
        let d = m + 1;
        let r = q % d;
        let q2 = q / d;
        let prod2 = prod_range(m + 2, k);
        lemma_prod_range_low(m + 1, k);
        assert(q < d * prod2) by (nonlinear_arith)
            requires
                q < prod_range(m + 1, k),
                prod_range(m + 1, k) == (m + 1) * prod_range(m + 2, k),
                d == m + 1,
                prod2 == prod_range(m + 2, k),
        ;
        lemma_div_bound(q as int, d as int, prod2 as int);
        let w = if r > 0 {
            seq_swap(v, r - 1, m as int)
        } else {
            v
        };
        let wk = if r > 0 {
            seq_swap(v.take(k as int), r - 1, m as int)
        } else {
            v.take(k as int)
        };
        assert(w.take(k as int) =~= wk);
        assert(w.skip(k as int) =~= v.skip(k as int));
        lemma_apply_from_confined(q2, (m + 1) as nat, k, w);
        assert(apply_from(q, m, v) == apply_from(q2, (m + 1) as nat, w));
        assert(apply_from(q, m, v.take(k as int)) == apply_from(q2, (m + 1) as nat, wk));
    }
}

/// Adding a transposition code on top of a smaller code makes the
/// decoding perform the smaller code's exchanges and then the
/// transposition: the digits below the far position are the smaller
/// code's, and at the far position the transposition fires.
proof fn lemma_apply_with_code<T>(q: nat, fi: nat, m: nat, l: nat, v: Seq<T>)
    requires
        1 <= m <= l - 1,
        2 <= l,
        v.len() == l,
        fi < l - 1,
        q < prod_range(m + 1, (l - 1) as nat),
    ensures
        apply_from(q + (fi + 1) * prod_range(m + 1, (l - 1) as nat), m, v) == seq_swap(
            apply_from(q, m, v),
            fi as int,
            (l - 1) as int,
        ),
    decreases l - m,
{
    let pr = prod_range(m + 1, (l - 1) as nat);
    if m == l - 1 {
        assert(pr == 1);
        assert(q == 0);
        let total = (q + (fi + 1) * pr) as nat;
        assert(total == fi + 1) by (nonlinear_arith)
            requires
                q == 0,
                pr == 1,
                total == q + (fi + 1) * pr,
        ;
        assert(total % (m + 1) == fi + 1) by {
            vstd::arithmetic::div_mod::lemma_small_mod((fi + 1) as nat, (m + 1) as nat);
        }
        assert(total / (m + 1) == 0) by {
            vstd::arithmetic::div_mod::lemma_basic_div((fi + 1) as int, (m + 1) as int);
        }
        lemma_apply_from_identity((m + 1) as nat, seq_swap(v, fi as int, (l - 1) as int));
        lemma_apply_from_identity(m, v);
    } else {
        let d = m + 1;
        let r = q % d;
        let q2 = q / d;
        let prod2 = prod_range(m + 2, (l - 1) as nat);
        lemma_prod_range_low(m + 1, (l - 1) as nat);
        assert(pr == d * prod2);
        let total = (q + (fi + 1) * pr) as nat;
        assert(total == d * ((fi + 1) * prod2) + q) by (nonlinear_arith)
            requires
                total == q + (fi + 1) * pr,
                pr == d * prod2,
        ;
        assert(total % d == r) by {
            vstd::arithmetic::div_mod::lemma_mod_multiples_vanish(
                ((fi + 1) * prod2) as int,
                q as int,
                d as int,
            );
        }
        assert(total / d == q2 + (fi + 1) * prod2) by {
            vstd::arithmetic::div_mod::lemma_hoist_over_denominator(
                q as int,
                ((fi + 1) * prod2) as int,
                d as nat,
            );
            assert(q + ((fi + 1) * prod2) * d == total) by (nonlinear_arith)
                requires
                    total == d * ((fi + 1) * prod2) + q,
            ;
        }
        assert(q < d * prod2) by (nonlinear_arith)
            requires
                q < pr,
                pr == d * prod2,
        ;
        lemma_div_bound(q as int, d as int, prod2 as int);
        let w = if r > 0 {
            seq_swap(v, r - 1, m as int)
        } else {
            v
        };
        lemma_apply_with_code(q2, fi, (m + 1) as nat, l, w);
        assert(apply_from(q, m, v) == apply_from(q2, (m + 1) as nat, w));
        assert(apply_from(total, m, v) == apply_from(
            (q2 + (fi + 1) * prod2) as nat,
            (m + 1) as nat,
            w,
        ));
    }
}

/// Law (reading, general form): a text the reader accepts is exactly
/// the accepted code applied to the sorted identity of the text's
/// length, and the code lies below the factorial of that length.
pub proof fn lemma_parse_apply(s: Seq<char>)
    requires
        s.len() <= 20,
        parse_rec(s) is Ok,
    ensures
        parse_rec(s)->Ok_0 < fact(s.len() as nat),
        apply_perm(parse_rec(s)->Ok_0, alphabet().take(s.len() as int)) == s,
    decreases s.len(),
{
    broadcast use lemma_apply_from_len;

    reveal_strlit("abcdefghijklmnopqrst");
    let l = s.len() as int;
    if l == 0 {
        lemma_apply_from_identity(1, alphabet().take(0));
        assert(alphabet().take(0) =~= s);
    } else {
        let c = alphabet()[l - 1];
        let fi = first_index_of(s, c);
        lemma_first_index_of(s, c);
        assert(fi >= 0);
        if fi >= l - 1 {
            assert(fi == l - 1);
            assert(s[l - 1] == c);
            let s2 = s.drop_last();
            lemma_parse_apply(s2);
            let q = parse_rec(s2)->Ok_0;
            lemma_fact_mono((l - 1) as nat, l as nat);
            if l == 1 {
                assert(q == 0);
                lemma_apply_from_identity(1, alphabet().take(1));
                assert(alphabet().take(1) =~= s);
                assert(apply_perm(q, alphabet().take(1)) == s);
            } else {
                lemma_fact_prod(1, (l - 1) as nat);
                assert(fact(0) == 1);
                assert(fact(1) == fact(0) * 1);
                assert(fact((l - 1) as nat) == prod_range(2, (l - 1) as nat))
                    by (nonlinear_arith)
                    requires
                        fact((l - 1) as nat) == fact(1) * prod_range(2, (l - 1) as nat),
                        fact(1) == 1,
                ;
                assert(q < prod_range(2, (l - 1) as nat));
                lemma_apply_from_confined(q, 1, (l - 1) as nat, alphabet().take(l));
                assert(alphabet().take(l).take(l - 1) =~= alphabet().take(l - 1));
                assert(alphabet().take(l).skip(l - 1) =~= seq![c]);
                assert(apply_perm(q, alphabet().take(l)) =~= s2 + seq![c]);
                assert(s2 + seq![c] =~= s);
            }
            assert(fact((l - 1) as nat) * l >= fact((l - 1) as nat)) by (nonlinear_arith)
                requires
                    l >= 1,
                    fact((l - 1) as nat) >= 0,
            ;
        } else {
            let w = seq_swap(s, fi, l - 1);
            let s2 = w.drop_last();
            lemma_parse_apply(s2);
            let q = parse_rec(s2)->Ok_0;
            let code = swap_code(fi as nat, (l - 1 - fi) as nat);
            let p = parse_rec(s)->Ok_0;
            assert(p == q + code);
            lemma_fact_prod(1, (l - 1) as nat);
            assert(fact(0) == 1);
            assert(fact(1) == fact(0) * 1);
            assert(fact((l - 1) as nat) == prod_range(2, (l - 1) as nat)) by (nonlinear_arith)
                requires
                    fact((l - 1) as nat) == fact(1) * prod_range(2, (l - 1) as nat),
                    fact(1) == 1,
            ;
            assert(code == (fi + 1) * prod_range(2, (l - 1) as nat)) by (nonlinear_arith)
                requires
                    code == fact((l - 1) as nat) * (fi + 1),
                    fact((l - 1) as nat) == prod_range(2, (l - 1) as nat),
            ;
            lemma_fact_mono(1, (l - 1) as nat);
            assert(p < fact(l as nat)) by (nonlinear_arith)
                requires
                    q < fact((l - 1) as nat),
                    code == fact((l - 1) as nat) * (fi + 1),
                    fi + 1 <= l - 1,
                    fact(l as nat) == fact((l - 1) as nat) * l,
                    fact((l - 1) as nat) >= 1,
                    p == q + code,
            ;
            if l == 1 {
            } else {
                lemma_apply_with_code(q, fi as nat, 1, l as nat, alphabet().take(l));
                lemma_apply_from_confined(q, 1, (l - 1) as nat, alphabet().take(l));
                assert(alphabet().take(l).take(l - 1) =~= alphabet().take(l - 1));
                assert(alphabet().take(l).skip(l - 1) =~= seq![alphabet()[l - 1]]);
                assert(apply_perm(q, alphabet().take(l)) =~= s2 + seq![c]);
                assert(s[fi] == c);
                assert(w[l - 1] == c);
                assert(s2 + seq![c] =~= w);
                assert(apply_perm(p, alphabet().take(l)) == seq_swap(w, fi, l - 1));
                assert(seq_swap(w, fi, l - 1) =~= s);
            }
        }
    }
}

/// Exchanging two positions rearranges a sequence: the values it
/// holds, with their multiplicities, stay the same.
proof fn lemma_seq_swap_multiset<T>(v: Seq<T>, i: int, j: int)
    requires
        0 <= i < v.len(),
        0 <= j < v.len(),
    ensures
        seq_swap(v, i, j).to_multiset() == v.to_multiset(),
{
    broadcast use vstd::multiset::group_multiset_axioms;
    broadcast use vstd::seq_lib::group_to_multiset_ensures;

    let v1 = v.update(i, v[j]);
    vstd::seq_lib::to_multiset_update(v, i, v[j]);
    vstd::seq_lib::to_multiset_update(v1, j, v[i]);
    assert(v.to_multiset().count(v[i]) > 0);
    assert(seq_swap(v, i, j).to_multiset() =~= v.to_multiset());
}

/// Law (reading, completeness): every text that holds exactly the
/// letters of the sorted identity of its length, however reordered,
/// is accepted by the reader.
pub proof fn lemma_parse_total(s: Seq<char>)
    requires
        s.len() <= 20,
        s.to_multiset() == alphabet().take(s.len() as int).to_multiset(),
    ensures
        parse_rec(s) is Ok,
    decreases s.len(),
{
    broadcast use vstd::multiset::group_multiset_axioms;
    broadcast use vstd::seq_lib::group_to_multiset_ensures;

    reveal_strlit("abcdefghijklmnopqrst");
    assert(alphabet().len() == 20);
    if s.len() == 0 {
    } else {
        let l = s.len() as int;
        let c = alphabet()[l - 1];
        let pre = alphabet().take(l);
        assert(pre[l - 1] == c);
        assert(pre.contains(c));
        assert(s.to_multiset().count(c) > 0);
        assert(s.contains(c));
        lemma_first_index_of(s, c);
        let fi = first_index_of(s, c);
        assert(fi >= 0) by {
            if fi == -1 {
                let wit = choose|k: int| 0 <= k < s.len() && s[k] == c;
                assert(s[wit] != c);
            }
        }
        assert(pre.remove(l - 1) =~= alphabet().take(l - 1));
        if fi == l - 1 {
            let s2 = s.drop_last();
            assert(s.remove(l - 1) =~= s2);
            assert(s2.to_multiset() =~= alphabet().take(l - 1).to_multiset());
            lemma_parse_total(s2);
        } else {
            assert(fi < l - 1);
            let w = seq_swap(s, fi, l - 1);
            lemma_seq_swap_multiset(s, fi, l - 1);
            assert(w[l - 1] == c);
            let s2 = w.drop_last();
            assert(w.remove(l - 1) =~= s2);
            assert(s2.to_multiset() =~= alphabet().take(l - 1).to_multiset());
            lemma_parse_total(s2);
        }
    }
}

/// The decoding loop rearranges a sequence: the values it holds, with
/// their multiplicities, stay the same.
proof fn lemma_apply_from_multiset<T>(p: nat, i: nat, v: Seq<T>)
    ensures
        apply_from(p, i, v).to_multiset() == v.to_multiset(),
    decreases v.len() - i,
{
    if i < v.len() {
        let r = p % (i + 1);
        let w = if r > 0 {
            seq_swap(v, r - 1, i as int)
        } else {
            v
        };
        if r > 0 {
            lemma_seq_swap_multiset(v, r - 1, i as int);
        }
        lemma_apply_from_multiset(p / (i + 1), (i + 1) as nat, w);
    }
}

/// Law (bijectivity): the reader accepts a text exactly when the text
/// holds the letters of the sorted identity of its length, each
/// exactly once, in whatever order.
pub proof fn lemma_permutation_bijectivity(s: Seq<char>)
    requires
        s.len() <= 20,
    ensures
        (parse_rec(s) is Ok) <==> s.to_multiset() == alphabet().take(s.len() as int).to_multiset(),
{
    if parse_rec(s) is Ok {
        lemma_parse_apply(s);
        lemma_apply_from_multiset(parse_rec(s)->Ok_0, 1, alphabet().take(s.len() as int));
    }
    if s.to_multiset() == alphabet().take(s.len() as int).to_multiset() {
        lemma_parse_total(s);
    }
}

/// The least length that can encode a code between two neighbouring
/// factorials is the larger one's index.
proof fn lemma_min_len_hits(p: nat, m: nat, l: nat)
    requires
        2 <= m <= l <= 20,
        fact((l - 1) as nat) <= p,
        p < fact(l),
    ensures
        min_len_rec(p, m) == l,
    decreases l - m,
{
    if m == l {
    } else {
        lemma_fact_mono(m, (l - 1) as nat);
        lemma_min_len_hits(p, m + 1, l);
    }
}

/// Law (round trip): rendering the code read from a text gives the
/// text back, for every accepted text that does not end in its own
/// highest letter (one that does ends in what the sorted identity
/// already has there, so its rendering is the shorter text with that
/// tail cut off).
pub proof fn lemma_parse_render_round_trip(s: Seq<char>)
    requires
        s.len() <= 20,
        parse_rec(s) is Ok,
        s.len() == 0 || (2 <= s.len() && s.last() != alphabet()[s.len() - 1]),
    ensures
        render_spec(parse_rec(s)->Ok_0) == s,
{
    broadcast use lemma_apply_from_len;

    lemma_parse_apply(s);
    let p = parse_rec(s)->Ok_0;
    let l = s.len() as int;
    if l == 0 {
        assert(p == 0);
        assert(min_len_spec(0) == 0);
        lemma_apply_from_identity(1, alphabet().take(0));
        assert(alphabet().take(0) =~= s);
    } else {
        let c = alphabet()[l - 1];
        let fi = first_index_of(s, c);
        lemma_first_index_of(s, c);
        assert(fi != l - 1);
        assert(fi < l - 1);
        let w = seq_swap(s, fi, l - 1);
        let s2 = w.drop_last();
        lemma_parse_apply(s2);
        let q = parse_rec(s2)->Ok_0;
        let code = swap_code(fi as nat, (l - 1 - fi) as nat);
        assert(p == q + code);
        lemma_fact_mono(0, (l - 1) as nat);
        assert(code >= fact((l - 1) as nat)) by (nonlinear_arith)
            requires
                code == fact((l - 1) as nat) * (fi + 1),
                fi + 1 >= 1,
                fact((l - 1) as nat) >= 1,
        ;
        assert(fact((l - 1) as nat) <= p);
        assert(p > 0);
        lemma_min_len_hits(p, 2, l as nat);
        assert(min_len_spec(p) == l);
    }
}

/// Law: applying the transposition of two positions twice returns any
/// sequence that holds both positions to its original order.
pub proof fn lemma_swap_idempotent_on_pair<T>(i: u8, j: u8, v: Seq<T>)
    requires
        i < j,
        j <= 19,
        v.len() > j,
    ensures
        apply_perm(
            swap_code(i as nat, (j - i) as nat),
            apply_perm(swap_code(i as nat, (j - i) as nat), v),
        ) == v,
{
    lemma_swap_code_apply(i as nat, j as nat, v);
    let w = seq_swap(v, i as int, j as int);
    lemma_swap_code_apply(i as nat, j as nat, w);
    assert(seq_swap(w, i as int, j as int) =~= v);
}

} // verus!
