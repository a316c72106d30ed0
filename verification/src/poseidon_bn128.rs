//! The outer field and the Poseidon sponge over it.

use vstd::prelude::*;
use ff_ce::PrimeField;
use crate::constant::{
    fr_modulus, limbs_value, offset_2_128, offset_2_64, FR_MODULUS_0, FR_MODULUS_1, FR_MODULUS_2,
    FR_MODULUS_3, SPONGE_RATE,
};
use crate::errors::Error;

verus! {

/// An element of the BN128 scalar field, held as the four limbs of its
/// canonical integer.
#[derive(Clone, Copy, Debug, Eq)]
pub struct Fr {
    limbs: [u64; 4],
}

impl PartialEq for Fr {
    fn eq(&self, other: &Self) -> (r: bool) {
        let r = self.limbs[0] == other.limbs[0] && self.limbs[1] == other.limbs[1]
            && self.limbs[2] == other.limbs[2] && self.limbs[3] == other.limbs[3];
        proof {
            if r {
                assert(self.limbs@ =~= other.limbs@);
            }
        }
        r
    }
}

impl vstd::std_specs::cmp::PartialEqSpecImpl for Fr {
    open spec fn obeys_eq_spec() -> bool {
        true
    }

    open spec fn eq_spec(&self, other: &Self) -> bool {
        self.spec_limbs() == other.spec_limbs()
    }
}

impl View for Fr {
    type V = nat;

    open spec fn view(&self) -> nat {
        limbs_value(self.spec_limbs())
    }
}

/// Whether four limbs denote an integer below the modulus of the outer field.
pub fn limbs_in_field(limbs: &[u64; 4]) -> (r: bool)
    ensures
        r == (limbs_value(limbs@) < fr_modulus()),
{
    if limbs[3] != FR_MODULUS_3 {
        limbs[3] < FR_MODULUS_3
    } else if limbs[2] != FR_MODULUS_2 {
        limbs[2] < FR_MODULUS_2
    } else if limbs[1] != FR_MODULUS_1 {
        limbs[1] < FR_MODULUS_1
    } else {
        limbs[0] < FR_MODULUS_0
    }
}

impl Fr {
    /// The four limbs of the canonical integer, least significant first.
    pub closed spec fn spec_limbs(&self) -> Seq<u64> {
        self.limbs@
    }

    /// The element with the given limbs.
    pub closed spec fn of_limbs(limbs: [u64; 4]) -> Fr {
        Fr { limbs }
    }

    /// The element with the given limbs has them as its limbs.
    pub proof fn lemma_of_limbs(limbs: [u64; 4])
        ensures
            Self::of_limbs(limbs).spec_limbs() == limbs@,
    {
    }

    /// There are always four limbs.
    pub proof fn lemma_four_limbs(&self)
        ensures
            self.spec_limbs().len() == 4,
    {
    }

    /// The value is a residue: it lies below the modulus.
    pub open spec fn wf(&self) -> bool {
        self@ < fr_modulus()
    }

    /// The additive identity.
    pub fn zero() -> (r: Fr)
        ensures
            r.wf(),
            r@ == 0,
            r.spec_limbs() == seq![0u64, 0u64, 0u64, 0u64],
    {
        let r = Fr { limbs: [0, 0, 0, 0] };
        assert(r.limbs@ =~= seq![0u64, 0u64, 0u64, 0u64]);
        r
    }

    /// The element that a 64-bit integer denotes.
    pub fn from_u64(x: u64) -> (r: Fr)
        ensures
            r.wf(),
            r@ == x,
            r.spec_limbs() == seq![x, 0u64, 0u64, 0u64],
    {
        let r = Fr { limbs: [x, 0, 0, 0] };
        assert(r.limbs@ =~= seq![x, 0u64, 0u64, 0u64]);
        r
    }

    /// The element `v0 + v1 * 2^64 + v2 * 2^128`: three 64-bit words in
    /// positional encoding, which always lies below the modulus.
    pub fn pack3(v0: u64, v1: u64, v2: u64) -> (r: Fr)
        ensures
            r.wf(),
            r@ == v0 + v1 * offset_2_64() + v2 * offset_2_128(),
            r.spec_limbs() == seq![v0, v1, v2, 0u64],
    {
        let r = Fr { limbs: [v0, v1, v2, 0] };
        assert(r.limbs@ =~= seq![v0, v1, v2, 0u64]);
        r
    }

    /// The element that four limbs denote, least significant first, if their
    /// integer lies below the modulus.
    pub fn from_limbs(limbs: [u64; 4]) -> (r: Option<Fr>)
        ensures
            limbs_value(limbs@) < fr_modulus() ==> r == Some(Self::of_limbs(limbs)) && r.unwrap().wf()
                && r.unwrap().spec_limbs() == limbs@,
            limbs_value(limbs@) >= fr_modulus() ==> r.is_none(),
    {
        if limbs_in_field(&limbs) {
            Some(Fr { limbs })
        } else {
            None
        }
    }

    /// The four limbs of the canonical integer, least significant first.
    pub fn to_limbs(&self) -> (r: [u64; 4])
        ensures
            r@ == self.spec_limbs(),
    {
        self.limbs
    }

    /// The element that a decimal number is congruent to, or nothing where the
    /// text is no decimal number.
    pub fn from_str(s: &str) -> (r: Option<Fr>)
        ensures
            is_decimal(s@) ==> r.is_some() && r.unwrap().wf() && r.unwrap()@ == decimal_value(s@)
                % fr_modulus(),
            !is_decimal(s@) ==> r.is_none(),
    {
        engine_from_str(s)
    }

    /// The text `Fr(0x..)` with the 64 hexadecimal digits of the integer.
    pub fn to_string(&self) -> (s: String)
        ensures
            s@ == fr_text(self.spec_limbs()),
    {
        let mut chars: Vec<char> = Vec::new();
        chars.push('F');
        chars.push('r');
        chars.push('(');
        chars.push('0');
        chars.push('x');
        assert(chars@ =~= seq!['F', 'r', '(', '0', 'x']);
        push_hex16(&mut chars, self.limbs[3]);
        push_hex16(&mut chars, self.limbs[2]);
        push_hex16(&mut chars, self.limbs[1]);
        push_hex16(&mut chars, self.limbs[0]);
        chars.push(')');
        assert(chars@ =~= fr_text(self.spec_limbs()));
        string_of_chars(&chars)
    }

    /// Whether this is the additive identity.
    pub fn is_zero(&self) -> (r: bool)
        ensures
            r == (self@ == 0),
    {
        self.limbs[0] == 0 && self.limbs[1] == 0 && self.limbs[2] == 0 && self.limbs[3] == 0
    }
}


/// The sixteen hexadecimal digits, in the order of their values.
pub open spec fn hex_digits() -> Seq<char> {
    seq!['0', '1', '2', '3', '4', '5', '6', '7', '8', '9', 'a', 'b', 'c', 'd', 'e', 'f']
}

/// The lower-case hexadecimal digit of a number below sixteen.
pub open spec fn hex_digit(d: u64) -> char
    recommends
        d < 16,
{
    hex_digits()[d as int]
}

/// The sixteen hexadecimal digits of a 64-bit word, most significant first.
pub open spec fn hex16(x: u64) -> Seq<char> {
    Seq::new(16, |i: int| hex_digit((x >> ((60 - 4 * i) as u64)) & 0xf))
}

/// The text of a field element with the given limbs: `Fr(0x`, the 64
/// hexadecimal digits of its integer, and `)`.
pub open spec fn fr_text(limbs: Seq<u64>) -> Seq<char> {
    seq!['F', 'r', '(', '0', 'x'] + hex16(limbs[3]) + hex16(limbs[2]) + hex16(limbs[1]) + hex16(
        limbs[0],
    ) + seq![')']
}

/// The number that a decimal digit stands for.
pub open spec fn digit_value(c: char) -> nat {
    (c as u32 - '0' as u32) as nat
}

/// The number that a sequence of decimal digits denotes.
pub open spec fn decimal_value(s: Seq<char>) -> nat
    decreases s.len(),
{
    if s.len() == 0 {
        0
    } else {
        decimal_value(s.drop_last()) * 10 + digit_value(s.last())
    }
}

/// Whether a text is a decimal number: one digit at least, all of them
/// digits from `0` to `9`, and no leading zero but in `0` itself.
pub open spec fn is_decimal(s: Seq<char>) -> bool {
    &&& s.len() > 0
    &&& forall|i: int| 0 <= i < s.len() ==> '0' <= #[trigger] s[i] <= '9'
    &&& s[0] != '0' || s.len() == 1
}

/// `String::from_iter` on the characters: the text that holds exactly them.
#[verifier::external_body]
fn string_of_chars(chars: &Vec<char>) -> (s: String)
    ensures
        s@ == chars@,
{
    chars.iter().collect()
}

/// `ff_ce::PrimeField::from_str` on the field of the Poseidon crate: a decimal
/// number gives the element that it is congruent to, any other text nothing.
#[verifier::external_body]
fn engine_from_str(s: &str) -> (r: Option<Fr>)
    ensures
        is_decimal(s@) ==> r.is_some() && r.unwrap().wf() && r.unwrap()@ == decimal_value(s@)
            % fr_modulus(),
        !is_decimal(s@) ==> r.is_none(),
{
    poseidon_rs::Fr::from_str(s).map(|x| Fr { limbs: x.into_repr().0 })
}

/// The hexadecimal digit of a number below sixteen.
fn hex_char(d: u64) -> (c: char)
    requires
        d < 16,
    ensures
        c == hex_digit(d),
{
    if d == 0 {
        '0'
    } else if d == 1 {
        '1'
    } else if d == 2 {
        '2'
    } else if d == 3 {
        '3'
    } else if d == 4 {
        '4'
    } else if d == 5 {
        '5'
    } else if d == 6 {
        '6'
    } else if d == 7 {
        '7'
    } else if d == 8 {
        '8'
    } else if d == 9 {
        '9'
    } else if d == 10 {
        'a'
    } else if d == 11 {
        'b'
    } else if d == 12 {
        'c'
    } else if d == 13 {
        'd'
    } else if d == 14 {
        'e'
    } else {
        'f'
    }
}

/// Appends the sixteen hexadecimal digits of a word.
fn push_hex16(out: &mut Vec<char>, x: u64)
    ensures
        final(out)@ == old(out)@ + hex16(x),
{
    let ghost start = out@;
    let mut i: u64 = 0;
    assert(out@ =~= start + hex16(x).take(0));
    while i < 16
        invariant
            i <= 16,
            out@ == start + hex16(x).take(i as int),
        decreases 16 - i,
    {
        let shift: u64 = 60 - 4 * i;
        let d: u64 = (x >> shift) & 0xf;
        assert(d < 16) by (bit_vector)
            requires
                d == (x >> shift) & 0xf,
        ;
        out.push(hex_char(d));
        assert(hex16(x).take(i + 1) =~= hex16(x).take(i as int).push(hex16(x)[i as int]));
        i += 1;
    }
    assert(hex16(x).take(16) =~= hex16(x));
}

/// The residues that a sequence of field elements denotes.
pub open spec fn values(s: Seq<Fr>) -> Seq<nat> {
    s.map_values(|x: Fr| x@)
}

/// The residues that the rows of a table denote.
pub open spec fn table_values(rows: Seq<Vec<Fr>>) -> Seq<Seq<nat>> {
    rows.map_values(|row: Vec<Fr>| values(row@))
}

/// Every element of the sequence is a residue.
pub open spec fn all_wf(s: Seq<Fr>) -> bool {
    forall|i: int| 0 <= i < s.len() ==> (#[trigger] s[i]).wf()
}

/// Every element of every row is a residue.
pub open spec fn table_wf(rows: Seq<Vec<Fr>>) -> bool {
    forall|i: int| 0 <= i < rows.len() ==> all_wf((#[trigger] rows[i])@)
}

/// The fifth power in the outer field.
pub open spec fn fr_pow5(x: nat) -> nat {
    (x * x * x * x * x) % fr_modulus()
}

/// The state after the round keys that start at `offset` were added to it.
pub open spec fn ark_spec(state: Seq<nat>, keys: Seq<nat>, offset: nat) -> Seq<nat> {
    Seq::new(state.len(), |i: int| (state[i] + keys[offset + i]) % fr_modulus())
}

/// The state after the S-box layer of round `round`: a full round raises every
/// element to its fifth power, a partial round only the first.
pub open spec fn sbox_spec(state: Seq<nat>, full: nat, partial: nat, round: nat) -> Seq<nat> {
    if round < full / 2 || round >= full / 2 + partial {
        state.map_values(|x: nat| fr_pow5(x))
    } else {
        state.update(0, fr_pow5(state[0]))
    }
}

/// The sum of the products of the first `n` entries of a row and of the state.
pub open spec fn dot(row: Seq<nat>, state: Seq<nat>, n: nat) -> nat
    decreases n,
{
    if n == 0 {
        0
    } else {
        dot(row, state, (n - 1) as nat) + row[n - 1] * state[n - 1]
    }
}

/// The state after it was multiplied by the matrix whose rows are `rows`.
pub open spec fn mix_spec(state: Seq<nat>, rows: Seq<Seq<nat>>) -> Seq<nat> {
    Seq::new(state.len(), |i: int| dot(rows[i], state, state.len()) % fr_modulus())
}

/// `poseidon_rs::Poseidon`, the value on which the round functions of the
/// Poseidon crate are called. Nothing inside it is read.
#[verifier::external_type_specification]
#[verifier::external_body]
pub struct ExPoseidonEngine(poseidon_rs::Poseidon);

/// `poseidon_rs::Poseidon::new`: the value on which the round functions are
/// called. Nothing is claimed of it.
#[verifier::external_body]
fn engine_new() -> (engine: poseidon_rs::Poseidon) {
    poseidon_rs::Poseidon::new()
}

/// The numbers of partial rounds of the permutations of width 2 to 17.
pub open spec fn standard_partial_rounds() -> Seq<nat> {
    seq![56nat, 57, 56, 60, 60, 63, 64, 63, 60, 66, 60, 65, 70, 60, 64, 68]
}

/// The shape of the tables of the widths 2 to 17: eight full rounds, the
/// standard numbers of partial rounds, for each width a round key for every
/// element of every round, and a square mixing matrix.
pub open spec fn standard_shape(
    keys: Seq<Vec<Fr>>,
    rows: Seq<Vec<Vec<Fr>>>,
    full: usize,
    partial: Seq<usize>,
) -> bool {
    &&& full == 8
    &&& partial.len() == 16
    &&& forall|w: int| 0 <= w < 16 ==> (#[trigger] partial[w]) == standard_partial_rounds()[w]
    &&& keys.len() == 16
    &&& forall|w: int|
        0 <= w < 16 ==> (#[trigger] keys[w]).len() == (8 + standard_partial_rounds()[w]) * (w + 2)
    &&& rows.len() == 16
    &&& forall|w: int| 0 <= w < 16 ==> (#[trigger] rows[w]).len() == w + 2
    &&& forall|w: int, i: int|
        0 <= w < 16 && 0 <= i < w + 2 ==> (#[trigger] rows[w][i]).len() == w + 2
}

/// `poseidon_rs::load_constants`: the round keys, the mixing matrices and the
/// round counts of every state width from 2 to 17, each field element given
/// by its canonical integer. Claimed are that the elements are residues, the
/// round counts that the function sets, and the shape of the tables in its
/// constants: sixteen lists of round keys, the list of a width holding one
/// key for each element of each round, and sixteen square matrices.
#[verifier::external_body]
fn load_tables() -> (t: (Vec<Vec<Fr>>, Vec<Vec<Vec<Fr>>>, usize, Vec<usize>))
    ensures
        table_wf(t.0@),
        forall|w: int| 0 <= w < t.1.len() ==> table_wf((#[trigger] t.1[w])@),
        standard_shape(t.0@, t.1@, t.2, t.3@),
{
    let k = poseidon_rs::load_constants();
    let keys = k.c.iter().map(|v| v.iter().map(|x| Fr { limbs: x.into_repr().0 }).collect());
    let rows = k.m.iter().map(
        |m| m.iter().map(|v| v.iter().map(|x| Fr { limbs: x.into_repr().0 }).collect()).collect(),
    );
    (keys.collect(), rows.collect(), k.n_rounds_f, k.n_rounds_p)
}

/// `poseidon_rs::Poseidon::ark`: adds to each element of the state the round
/// key that stands `offset` places further in `keys`, in the field.
#[verifier::external_body]
fn engine_ark(engine: &poseidon_rs::Poseidon, state: &Vec<Fr>, keys: &Vec<Fr>, offset: usize) -> (out:
    Vec<Fr>)
    requires
        all_wf(state@),
        all_wf(keys@),
        offset + state.len() <= keys.len(),
    ensures
        all_wf(out@),
        values(out@) == ark_spec(values(state@), values(keys@), offset as nat),
{
    let mut st: Vec<poseidon_rs::Fr> = state.iter().map(
        |x| poseidon_rs::Fr::from_repr(poseidon_rs::FrRepr(x.limbs)).unwrap(),
    ).collect();
    let ks: Vec<poseidon_rs::Fr> = keys.iter().map(
        |x| poseidon_rs::Fr::from_repr(poseidon_rs::FrRepr(x.limbs)).unwrap(),
    ).collect();
    engine.ark(&mut st, &ks, offset);
    st.iter().map(|x| Fr { limbs: x.into_repr().0 }).collect()
}

/// `poseidon_rs::Poseidon::sbox`: in the first and last `full / 2` rounds
/// every element of the state is raised to its fifth power, in the rounds
/// between them only the first element.
#[verifier::external_body]
fn engine_sbox(
    engine: &poseidon_rs::Poseidon,
    full: usize,
    partial: usize,
    state: &Vec<Fr>,
    round: usize,
) -> (out: Vec<Fr>)
    requires
        all_wf(state@),
        state.len() >= 1,
        full / 2 + partial <= usize::MAX,
    ensures
        all_wf(out@),
        values(out@) == sbox_spec(values(state@), full as nat, partial as nat, round as nat),
{
    let mut st: Vec<poseidon_rs::Fr> = state.iter().map(
        |x| poseidon_rs::Fr::from_repr(poseidon_rs::FrRepr(x.limbs)).unwrap(),
    ).collect();
    engine.sbox(full, partial, &mut st, round);
    st.iter().map(|x| Fr { limbs: x.into_repr().0 }).collect()
}

/// `poseidon_rs::Poseidon::mix`: element `i` of the result is the sum, in the
/// field, of the products of row `i` of the matrix and the state.
#[verifier::external_body]
fn engine_mix(engine: &poseidon_rs::Poseidon, state: &Vec<Fr>, rows: &Vec<Vec<Fr>>) -> (out: Vec<
    Fr,
>)
    requires
        all_wf(state@),
        table_wf(rows@),
        rows.len() >= state.len(),
        forall|i: int| 0 <= i < state.len() ==> (#[trigger] rows[i]).len() >= state.len(),
    ensures
        all_wf(out@),
        values(out@) == mix_spec(values(state@), table_values(rows@)),
{
    let st: Vec<poseidon_rs::Fr> = state.iter().map(
        |x| poseidon_rs::Fr::from_repr(poseidon_rs::FrRepr(x.limbs)).unwrap(),
    ).collect();
    let m: Vec<Vec<poseidon_rs::Fr>> = rows.iter().map(
        |r| r.iter().map(|x| poseidon_rs::Fr::from_repr(poseidon_rs::FrRepr(x.limbs)).unwrap()).collect(),
    ).collect();
    engine.mix(&st, &m).iter().map(|x| Fr { limbs: x.into_repr().0 }).collect()
}

/// The Poseidon sponge over the outer field, with the tables of every state
/// width from 2 to 17.
pub struct Sponge {
    engine: poseidon_rs::Poseidon,
    round_keys: Vec<Vec<Fr>>,
    mix_rows: Vec<Vec<Vec<Fr>>>,
    full_rounds: usize,
    partial_rounds: Vec<usize>,
}

impl Sponge {
    /// The round keys: one sequence for each state width, starting at width 2.
    pub closed spec fn keys(&self) -> Seq<Seq<nat>> {
        table_values(self.round_keys@)
    }

    /// The mixing matrices by rows: one for each state width, starting at width 2.
    pub closed spec fn rows(&self) -> Seq<Seq<Seq<nat>>> {
        self.mix_rows@.map_values(|m: Vec<Vec<Fr>>| table_values(m@))
    }

    /// The number of full rounds.
    pub closed spec fn full(&self) -> nat {
        self.full_rounds as nat
    }

    /// The number of partial rounds for each state width, starting at width 2.
    pub closed spec fn partial(&self) -> Seq<nat> {
        self.partial_rounds@.map_values(|x: usize| x as nat)
    }

    /// Every entry of the tables is a residue.
    pub closed spec fn wf(&self) -> bool {
        &&& table_wf(self.round_keys@)
        &&& forall|w: int| 0 <= w < self.mix_rows.len() ==> table_wf((#[trigger] self.mix_rows[w])@)
    }

    /// The tables reach far enough to absorb `n` inputs: the width `n + 1` has
    /// a round count, a key for every element of every round and a square
    /// matrix.
    pub open spec fn supports(&self, n: nat) -> bool {
        let w = n - 1;
        let t = n + 1;
        &&& 1 <= n <= SPONGE_RATE
        &&& w < self.keys().len()
        &&& w < self.rows().len()
        &&& w < self.partial().len()
        &&& (self.full() + self.partial()[w]) * t <= self.keys()[w].len()
        &&& t <= self.rows()[w].len()
        &&& forall|i: int| 0 <= i < t ==> t <= (#[trigger] self.rows()[w][i]).len()
    }

    /// The state after round `round` of the permutation of width `state.len()`.
    pub open spec fn round_spec(&self, state: Seq<nat>, round: nat) -> Seq<nat> {
        let w = state.len() - 2;
        let keyed = ark_spec(state, self.keys()[w], round * state.len());
        let boxed = sbox_spec(keyed, self.full(), self.partial()[w], round);
        mix_spec(boxed, self.rows()[w])
    }

    /// The state after the first `rounds` rounds of the permutation.
    pub open spec fn permute(&self, state: Seq<nat>, rounds: nat) -> Seq<nat>
        decreases rounds,
    {
        if rounds == 0 {
            state
        } else {
            self.round_spec(self.permute(state, (rounds - 1) as nat), (rounds - 1) as nat)
        }
    }

    /// What the sponge gives for `inputs` absorbed into the state `init`: the
    /// first element of the permuted state `init, inputs[0], inputs[1], ..`.
    /// There is no result for no input, for more than sixteen, or where the
    /// tables do not reach.
    pub open spec fn hash_spec(&self, inputs: Seq<nat>, init: nat) -> Option<nat> {
        if self.supports(inputs.len()) {
            let rounds = self.full() + self.partial()[inputs.len() - 1];
            Some(self.permute(seq![init] + inputs, rounds)[0])
        } else {
            None
        }
    }

    /// The permutation keeps the width of the state.
    pub proof fn lemma_permute_len(&self, state: Seq<nat>, rounds: nat)
        requires
            state.len() >= 1,
        ensures
            self.permute(state, rounds).len() == state.len(),
        decreases rounds,
    {
        if rounds > 0 {
            self.lemma_permute_len(state, (rounds - 1) as nat);
            let before = self.permute(state, (rounds - 1) as nat);
            let w = before.len() - 2;
            let keyed = ark_spec(before, self.keys()[w], ((rounds - 1) * before.len()) as nat);
            let boxed = sbox_spec(keyed, self.full(), self.partial()[w], (rounds - 1) as nat);
            assert(keyed.len() == before.len());
            assert(boxed.len() == keyed.len());
            assert(mix_spec(boxed, self.rows()[w]).len() == boxed.len());
        }
    }

    /// What the sponge gives for a residue as state is a residue.
    pub proof fn lemma_hash_below(&self, inputs: Seq<nat>, init: nat)
        requires
            init < fr_modulus(),
        ensures
            self.hash_spec(inputs, init) matches Some(v) ==> v < fr_modulus(),
    {
        if self.supports(inputs.len()) {
            let rounds = self.full() + self.partial()[inputs.len() - 1];
            let state = seq![init] + inputs;
            if rounds > 0 {
                self.lemma_permute_len(state, (rounds - 1) as nat);
                let before = self.permute(state, (rounds - 1) as nat);
                let w = before.len() - 2;
                let keyed = ark_spec(before, self.keys()[w], ((rounds - 1) * before.len()) as nat);
                let boxed = sbox_spec(keyed, self.full(), self.partial()[w], (rounds - 1) as nat);
                assert(keyed.len() == before.len());
                assert(boxed.len() == keyed.len());
                assert(self.permute(state, rounds) == mix_spec(boxed, self.rows()[w]));
                assert(mix_spec(boxed, self.rows()[w])[0] == dot(
                    self.rows()[w][0],
                    boxed,
                    boxed.len(),
                ) % fr_modulus());
            }
        }
    }

    /// The tables reach every width: any number of inputs from one to
    /// sixteen can be absorbed.
    pub open spec fn complete(&self) -> bool {
        forall|n: nat| 1 <= n <= SPONGE_RATE ==> #[trigger] self.supports(n)
    }

    /// A sponge with the tables that the Poseidon crate holds: eight full
    /// rounds, the standard numbers of partial rounds, and tables that reach
    /// every width from 2 to 17.
    pub fn new() -> (r: Sponge)
        ensures
            r.wf(),
            r.full() == 8,
            r.partial() == standard_partial_rounds(),
            r.keys().len() == 16,
            r.rows().len() == 16,
            forall|w: int|
                0 <= w < 16 ==> (#[trigger] r.keys()[w]).len() == (8 + standard_partial_rounds()[w])
                    * (w + 2),
            forall|w: int| 0 <= w < 16 ==> (#[trigger] r.rows()[w]).len() == w + 2,
            forall|w: int, i: int|
                0 <= w < 16 && 0 <= i < w + 2 ==> (#[trigger] r.rows()[w][i]).len() == w + 2,
            r.complete(),
    {
        let engine = engine_new();
        let (round_keys, mix_rows, full_rounds, partial_rounds) = load_tables();
        let r = Sponge { engine, round_keys, mix_rows, full_rounds, partial_rounds };
        proof {
            assert(r.partial() =~= standard_partial_rounds());
            assert forall|w: int| 0 <= w < 16 implies (#[trigger] r.keys()[w]).len() == (8
                + standard_partial_rounds()[w]) * (w + 2) by {
                assert(r.keys()[w].len() == r.round_keys[w].len());
            }
            assert forall|w: int| 0 <= w < 16 implies (#[trigger] r.rows()[w]).len() == w + 2 by {
                assert(r.rows()[w].len() == r.mix_rows[w].len());
            }
            assert forall|w: int, i: int| 0 <= w < 16 && 0 <= i < w + 2 implies (
            #[trigger] r.rows()[w][i]).len() == w + 2 by {
                assert(r.rows()[w][i].len() == r.mix_rows[w][i].len());
            }
            assert forall|n: nat| 1 <= n <= SPONGE_RATE implies #[trigger] r.supports(n) by {
                let w = (n - 1) as int;
                assert(r.keys()[w].len() == (8 + standard_partial_rounds()[w]) * (w + 2));
                assert(r.partial()[w] == standard_partial_rounds()[w]);
                assert((r.full() + r.partial()[w]) * (n + 1) == (8 + standard_partial_rounds()[w])
                    * (w + 2));
                assert(r.rows()[w].len() == w + 2);
            }
        }
        r
    }

    /// Whether the tables reach far enough to absorb `n` inputs.
    pub fn reaches(&self, n: usize) -> (ok: bool)
        ensures
            ok == self.supports(n as nat),
    {
        if n < 1 || n > SPONGE_RATE {
            return false;
        }
        let w: usize = n - 1;
        let t: usize = n + 1;
        if w >= self.round_keys.len() || w >= self.mix_rows.len() || w
            >= self.partial_rounds.len() {
            return false;
        }
        let partial: usize = self.partial_rounds[w];
        assert(self.partial()[w as int] == partial);
        assert(self.keys()[w as int].len() == self.round_keys[w as int].len());
        assert(self.rows()[w as int].len() == self.mix_rows[w as int].len());
        let total: usize = match self.full_rounds.checked_add(partial) {
            Some(x) => x,
            None => {
                assert((self.full_rounds + partial) * t >= self.full_rounds + partial)
                    by (nonlinear_arith)
                    requires
                        t >= 1,
                ;
                return false;
            },
        };
        let need: usize = match total.checked_mul(t) {
            Some(x) => x,
            None => {
                return false;
            },
        };
        if need > self.round_keys[w].len() {
            return false;
        }
        let rows = &self.mix_rows[w];
        if rows.len() < t {
            return false;
        }
        let mut i: usize = 0;
        while i < t
            invariant
                i <= t <= rows.len(),
                rows == self.mix_rows[w as int],
                w < self.mix_rows.len(),
                1 <= n <= SPONGE_RATE,
                w == n - 1,
                t == n + 1,
                w < self.keys().len(),
                w < self.rows().len(),
                w < self.partial().len(),
                (self.full() + self.partial()[w as int]) * t <= self.keys()[w as int].len(),
                t <= self.rows()[w as int].len(),
                forall|j: int| 0 <= j < i ==> t <= (#[trigger] self.rows()[w as int][j]).len(),
            decreases t - i,
        {
            assert(self.rows()[w as int][i as int].len() == rows[i as int].len());
            if rows[i].len() < t {
                return false;
            }
            i += 1;
        }
        true
    }

    /// Absorbs up to sixteen inputs into the state `init_state` and gives the
    /// new state. Fails for no input, for more than sixteen, and where the
    /// tables do not reach the width.
    pub fn hash(&self, inp: &Vec<Fr>, init_state: &Fr) -> (r: Result<Fr, Error>)
        requires
            self.wf(),
            all_wf(inp@),
            init_state.wf(),
        ensures
            match self.hash_spec(values(inp@), init_state@) {
                Some(v) => r.is_ok() && r.unwrap().wf() && r.unwrap()@ == v,
                None => r == Err::<Fr, Error>(Error::HashAbsorption),
            },
            self.complete() ==> (r.is_ok() <==> 1 <= inp.len() <= SPONGE_RATE),
    {
        let n: usize = inp.len();
        if !self.reaches(n) {
            return Err(Error::HashAbsorption);
        }
        let w: usize = n - 1;
        let t: usize = n + 1;
        let partial: usize = self.partial_rounds[w];
        assert(self.partial()[w as int] == partial);
        assert(self.keys()[w as int].len() == self.round_keys[w as int].len());
        assert((self.full_rounds + partial) * t >= self.full_rounds + partial) by (nonlinear_arith)
            requires
                t >= 1,
        ;
        let total: usize = self.full_rounds + partial;
        let mut state: Vec<Fr> = Vec::new();
        state.push(*init_state);
        let mut j: usize = 0;
        while j < n
            invariant
                j <= n == inp.len(),
                state@ == seq![*init_state] + inp@.take(j as int),
            decreases n - j,
        {
            state.push(inp[j]);
            assert(inp@.take(j + 1) == inp@.take(j as int).push(inp@[j as int]));
            j += 1;
        }
        assert(inp@.take(n as int) == inp@);
        let ghost start = seq![init_state@] + values(inp@);
        assert(values(state@) =~= start);
        let mut i: usize = 0;
        while i < total
            invariant
                self.wf(),
                self.supports(n as nat),
                n == inp.len(),
                w == n - 1,
                t == n + 1,
                partial == self.partial()[w as int],
                total == self.full_rounds + partial,
                i <= total,
                state.len() == t,
                start.len() == t,
                all_wf(state@),
                values(state@) == self.permute(start, i as nat),
            decreases total - i,
        {
            assert(self.keys()[w as int] == values(self.round_keys[w as int]@));
            assert(self.rows()[w as int] == table_values(self.mix_rows[w as int]@));
            assert(i * t + t <= total * t) by (nonlinear_arith)
                requires
                    i < total,
            ;
            assert(total * t == (self.full() + self.partial()[w as int]) * (n + 1));
            assert(self.keys()[w as int].len() == self.round_keys[w as int].len());
            assert forall|k: int| 0 <= k < t implies (#[trigger] self.mix_rows[w as int][k]).len()
                >= t by {
                assert(self.rows()[w as int][k].len() == self.mix_rows[w as int][k].len());
            }
            let keyed = engine_ark(&self.engine, &state, &self.round_keys[w], i * t);
            assert(values(keyed@).len() == keyed.len());
            let boxed = engine_sbox(&self.engine, self.full_rounds, partial, &keyed, i);
            assert(values(boxed@).len() == boxed.len());
            state = engine_mix(&self.engine, &boxed, &self.mix_rows[w]);
            assert(values(state@).len() == state.len());
            i += 1;
        }
        assert(state[0].wf());
        Ok(state[0])
    }
}

} // verus!
