//! The leaf hasher: folds a matrix of inner-field elements into one
//! outer-field value, and merges two digests into one.

use vstd::prelude::*;
use crate::constant::{fr_modulus, offset_2_128, offset_2_64, SPONGE_RATE};
use crate::digest_bn128::{lemma_digest_of_view, words_of, ElementDigest};
use crate::errors::Error;
use crate::poseidon_bn128::{all_wf, values, Fr, Sponge};
use crate::traits::{lemma_to_gl_below, spec_to_bn128, spec_to_gl, FieldMapping};

verus! {

/// The elements of all columns in one sequence, column after column.
pub open spec fn flatten(columns: Seq<Seq<u64>>) -> Seq<u64>
    decreases columns.len(),
{
    if columns.len() == 0 {
        Seq::empty()
    } else {
        flatten(columns.drop_last()) + columns.last()
    }
}

/// The columns of a matrix as sequences.
pub open spec fn columns_view(columns: Seq<Vec<u64>>) -> Seq<Seq<u64>> {
    columns.map_values(|c: Vec<u64>| c@)
}

/// The element at position `j`, or zero past the end.
pub open spec fn elem_or_zero(flat: Seq<u64>, j: int) -> nat {
    if 0 <= j < flat.len() {
        flat[j] as nat
    } else {
        0
    }
}

/// The `k`-th packed value: the `k`-th triple of elements in positional
/// encoding to the base `2^64`, with zero for what the last triple lacks.
pub open spec fn packed_at(flat: Seq<u64>, k: int) -> nat {
    elem_or_zero(flat, 3 * k) + elem_or_zero(flat, 3 * k + 1) * offset_2_64() + elem_or_zero(
        flat,
        3 * k + 2,
    ) * offset_2_128()
}

/// The packed values of a sequence of elements, one for each triple begun.
pub open spec fn pack(flat: Seq<u64>) -> Seq<nat> {
    Seq::new(((flat.len() + 2) / 3) as nat, |k: int| packed_at(flat, k))
}

/// The hasher of rows and of pairs of digests, over the Poseidon sponge.
pub struct LinearHashBN128 {
    h: Sponge,
}

impl LinearHashBN128 {
    /// The sponge that this hasher absorbs with.
    pub closed spec fn sponge(&self) -> Sponge {
        self.h
    }

    /// The tables of the sponge are sound.
    pub open spec fn wf(&self) -> bool {
        self.sponge().wf()
    }

    /// The sponge absorbs any number of values from one to sixteen: nothing
    /// that this hasher asks of it fails.
    pub open spec fn complete(&self) -> bool {
        self.sponge().complete()
    }

    /// The state after `packed` was absorbed into the state `st`, sixteen
    /// values at a time and the rest at the end.
    pub open spec fn absorb_chunks(&self, packed: Seq<nat>, st: nat) -> Result<nat, Error>
        decreases packed.len(),
    {
        if packed.len() == 0 {
            Ok(st)
        } else {
            let c = if packed.len() < SPONGE_RATE {
                packed.len() as int
            } else {
                SPONGE_RATE as int
            };
            match self.sponge().hash_spec(packed.take(c), st) {
                None => Err(Error::HashAbsorption),
                Some(next) => self.absorb_chunks(packed.skip(c), next),
            }
        }
    }

    /// The value that a sequence of elements reduces to: zero for none, the
    /// one packed value where there is just one, and else what the sponge
    /// gives for all packed values, absorbed from the zero state.
    pub open spec fn spec_reduce(&self, flat: Seq<u64>) -> Result<nat, Error> {
        let packed = pack(flat);
        if packed.len() == 0 {
            Ok(0nat)
        } else if packed.len() == 1 {
            Ok(packed[0])
        } else {
            self.absorb_chunks(packed, 0)
        }
    }

    /// The value that a matrix reduces to: that of its elements, taken column
    /// after column.
    pub open spec fn spec_hash_element_matrix(&self, columns: Seq<Seq<u64>>) -> Result<nat, Error> {
        self.spec_reduce(flatten(columns))
    }

    /// The digest of a row of elements: the digest of the value that the row
    /// reduces to as a matrix of one column.
    pub open spec fn spec_leaf(&self, row: Seq<u64>) -> Result<Seq<u64>, Error> {
        match self.spec_hash_element_matrix(seq![row]) {
            Ok(v) => Ok(spec_to_gl(v)),
            Err(e) => Err(e),
        }
    }

    /// The digest of two digests: both are mapped to the outer field, the
    /// first one first, absorbed into the zero state, and the new state is
    /// mapped back.
    pub open spec fn spec_merge(&self, a: Seq<u64>, b: Seq<u64>) -> Result<Seq<u64>, Error> {
        match spec_to_bn128(a) {
            Err(e) => Err(e),
            Ok(x) => match spec_to_bn128(b) {
                Err(e) => Err(e),
                Ok(y) => match self.sponge().hash_spec(seq![x, y], 0) {
                    None => Err(Error::HashAbsorption),
                    Some(v) => Ok(spec_to_gl(v)),
                },
            },
        }
    }

    /// The digest of a byte buffer: that of the row of its 64-bit words. A
    /// buffer that is not made of whole words has none.
    pub open spec fn spec_hash(&self, bytes: Seq<u8>) -> Result<Seq<u64>, Error> {
        if bytes.len() % 8 != 0 {
            Err(Error::ShapeMismatch)
        } else {
            self.spec_leaf(words_of(bytes))
        }
    }

    /// Empty reduction: a matrix without elements, with or without columns,
    /// reduces to zero.
    pub proof fn lemma_reduce_empty(&self, columns: Seq<Seq<u64>>)
        requires
            flatten(columns).len() == 0,
        ensures
            self.spec_hash_element_matrix(columns) == Ok::<nat, Error>(0nat),
    {
    }

    /// A matrix of one, two or three elements reduces to their packed value:
    /// the sponge is not asked.
    pub proof fn lemma_reduce_single(&self, columns: Seq<Seq<u64>>)
        requires
            1 <= flatten(columns).len() <= 3,
        ensures
            self.spec_hash_element_matrix(columns) == Ok::<nat, Error>(
                packed_at(flatten(columns), 0),
            ),
    {
    }

    /// Absorbing fails only in the sponge.
    pub proof fn lemma_absorb_errors(&self, packed: Seq<nat>, st: nat)
        ensures
            self.absorb_chunks(packed, st) matches Err(e) ==> e == Error::HashAbsorption,
        decreases packed.len(),
    {
        if packed.len() > 0 {
            let c = if packed.len() < SPONGE_RATE {
                packed.len() as int
            } else {
                SPONGE_RATE as int
            };
            if let Some(next) = self.sponge().hash_spec(packed.take(c), st) {
                self.lemma_absorb_errors(packed.skip(c), next);
            }
        }
    }

    /// A complete sponge absorbs every sequence of packed values.
    pub proof fn lemma_absorb_ok(&self, packed: Seq<nat>, st: nat)
        requires
            self.complete(),
        ensures
            self.absorb_chunks(packed, st) is Ok,
        decreases packed.len(),
    {
        if packed.len() > 0 {
            let c = if packed.len() < SPONGE_RATE {
                packed.len() as int
            } else {
                SPONGE_RATE as int
            };
            assert(self.sponge().supports(packed.take(c).len()));
            let next = self.sponge().hash_spec(packed.take(c), st).unwrap();
            self.lemma_absorb_ok(packed.skip(c), next);
        }
    }

    /// What is absorbed into a residue comes out as a residue.
    pub proof fn lemma_absorb_below(&self, packed: Seq<nat>, st: nat)
        requires
            st < fr_modulus(),
        ensures
            self.absorb_chunks(packed, st) matches Ok(v) ==> v < fr_modulus(),
        decreases packed.len(),
    {
        if packed.len() > 0 {
            let c = if packed.len() < SPONGE_RATE {
                packed.len() as int
            } else {
                SPONGE_RATE as int
            };
            self.sponge().lemma_hash_below(packed.take(c), st);
            if let Some(next) = self.sponge().hash_spec(packed.take(c), st) {
                self.lemma_absorb_below(packed.skip(c), next);
            }
        }
    }

    /// A row has a digest unless the sponge fails, which a complete sponge
    /// never does, and its digest denotes a value of the outer field.
    pub proof fn lemma_leaf(&self, row: Seq<u64>)
        ensures
            match self.spec_leaf(row) {
                Ok(d) => d.len() == 4 && spec_to_bn128(d) is Ok,
                Err(e) => e == Error::HashAbsorption && !self.complete(),
            },
    {
        let packed = pack(flatten(seq![row]));
        self.lemma_absorb_errors(packed, 0);
        self.lemma_absorb_below(packed, 0);
        if self.complete() {
            self.lemma_absorb_ok(packed, 0);
        }
        if let Ok(v) = self.spec_hash_element_matrix(seq![row]) {
            lemma_to_gl_below(v);
        }
    }

    /// Two digests that denote values of the outer field merge unless the
    /// sponge fails, which a complete sponge never does, and what any two
    /// digests merge to denotes such a value.
    pub proof fn lemma_merge(&self, a: Seq<u64>, b: Seq<u64>)
        ensures
            match self.spec_merge(a, b) {
                Ok(d) => d.len() == 4 && spec_to_bn128(d) is Ok,
                Err(e) => spec_to_bn128(a) is Ok && spec_to_bn128(b) is Ok ==> e
                    == Error::HashAbsorption && !self.complete(),
            },
    {
        if let Ok(x) = spec_to_bn128(a) {
            if let Ok(y) = spec_to_bn128(b) {
                self.sponge().lemma_hash_below(seq![x, y], 0);
                if self.complete() {
                    assert(self.sponge().supports(seq![x, y].len()));
                }
                if let Some(v) = self.sponge().hash_spec(seq![x, y], 0) {
                    lemma_to_gl_below(v);
                }
            }
        }
    }

    /// A hasher over a sponge with the tables of the Poseidon crate, which
    /// reach every width.
    pub fn new() -> (r: Self)
        ensures
            r.wf(),
            r.complete(),
    {
        LinearHashBN128 { h: Sponge::new() }
    }

    /// Absorbs the packed values into the zero state, sixteen at a time.
    fn absorb_all(&self, vals3: &Vec<Fr>) -> (r: Result<Fr, Error>)
        requires
            self.wf(),
            all_wf(vals3@),
        ensures
            match self.absorb_chunks(values(vals3@), 0) {
                Ok(v) => r.is_ok() && r.unwrap().wf() && r.unwrap()@ == v,
                Err(e) => r == Err::<Fr, Error>(e),
            },
    {
        let mut st = Fr::zero();
        let mut pos: usize = 0;
        assert(values(vals3@).skip(0) =~= values(vals3@));
        while pos < vals3.len()
            invariant
                self.wf(),
                all_wf(vals3@),
                pos <= vals3.len(),
                st.wf(),
                self.absorb_chunks(values(vals3@), 0) == self.absorb_chunks(
                    values(vals3@).skip(pos as int),
                    st@,
                ),
            decreases vals3.len() - pos,
        {
            let c: usize = if vals3.len() - pos < SPONGE_RATE {
                vals3.len() - pos
            } else {
                SPONGE_RATE
            };
            let mut in_hash: Vec<Fr> = Vec::new();
            let mut j: usize = 0;
            while j < c
                invariant
                    j <= c,
                    pos + c <= vals3.len(),
                    in_hash@ == vals3@.subrange(pos as int, pos + j),
                decreases c - j,
            {
                in_hash.push(vals3[pos + j]);
                assert(vals3@.subrange(pos as int, pos + j + 1) == vals3@.subrange(
                    pos as int,
                    pos + j,
                ).push(vals3@[pos + j]));
                j += 1;
            }
            let ghost rest = values(vals3@).skip(pos as int);
            assert(values(in_hash@) =~= rest.take(c as int));
            assert(rest.skip(c as int) =~= values(vals3@).skip(pos + c));
            match self.h.hash(&in_hash, &st) {
                Ok(next) => {
                    st = next;
                },
                Err(e) => {
                    return Err(e);
                },
            }
            pos += c;
        }
        Ok(st)
    }

    /// Reduces a matrix of inner-field elements, given by its columns, to one
    /// outer-field value. Fails only where the sponge does.
    pub fn hash_element_matrix(&self, columns: &Vec<Vec<u64>>) -> (r: Result<Fr, Error>)
        requires
            self.wf(),
        ensures
            match self.spec_hash_element_matrix(columns_view(columns@)) {
                Ok(v) => r.is_ok() && r.unwrap().wf() && r.unwrap()@ == v,
                Err(e) => r == Err::<Fr, Error>(e),
            },
            self.complete() ==> r.is_ok(),
    {
        proof {
            if self.complete() {
                self.lemma_absorb_ok(pack(flatten(columns_view(columns@))), 0);
            }
        }
        let mut vals3: Vec<Fr> = Vec::new();
        let mut acc: [u64; 3] = [0, 0, 0];
        let mut acc_n: usize = 0;
        let ghost mut flat: Seq<u64> = Seq::empty();
        let ghost cols = columns_view(columns@);
        let mut ci: usize = 0;
        while ci < columns.len()
            invariant
                ci <= columns.len(),
                cols == columns_view(columns@),
                flat == flatten(cols.take(ci as int)),
                acc_n < 3,
                acc_n == flat.len() % 3,
                vals3.len() == flat.len() / 3,
                all_wf(vals3@),
                forall|k: int| 0 <= k < vals3.len() ==> (#[trigger] vals3[k])@ == packed_at(flat, k),
                forall|j: int| 0 <= j < acc_n ==> acc[j] == flat[3 * (flat.len() / 3) + j],
                forall|j: int| acc_n <= j < 3 ==> acc[j] == 0,
            decreases columns.len() - ci,
        {
            let col = &columns[ci];
            let ghost base = flat;
            let mut ei: usize = 0;
            while ei < col.len()
                invariant
                    ei <= col.len(),
                    flat == base + col@.take(ei as int),
                    acc_n < 3,
                    acc_n == flat.len() % 3,
                    vals3.len() == flat.len() / 3,
                    all_wf(vals3@),
                    forall|k: int|
                        0 <= k < vals3.len() ==> (#[trigger] vals3[k])@ == packed_at(flat, k),
                    forall|j: int| 0 <= j < acc_n ==> acc[j] == flat[3 * (flat.len() / 3) + j],
                    forall|j: int| acc_n <= j < 3 ==> acc[j] == 0,
                decreases col.len() - ei,
            {
                let elem: u64 = col[ei];
                let ghost before = flat;
                acc[acc_n] = elem;
                acc_n += 1;
                proof {
                    flat = flat.push(elem);
                    assert(col@.take(ei + 1) == col@.take(ei as int).push(elem));
                    assert(flat == base + col@.take(ei + 1));
                    assert forall|k: int| 0 <= k < vals3.len() implies (#[trigger] vals3[k])@
                        == packed_at(flat, k) by {
                        assert(vals3[k]@ == packed_at(before, k));
                    }
                }
                if acc_n == 3 {
                    let packed = Fr::pack3(acc[0], acc[1], acc[2]);
                    vals3.push(packed);
                    acc = [0, 0, 0];
                    acc_n = 0;
                }
                ei += 1;
            }
            proof {
                assert(col@.take(col.len() as int) == col@);
                assert(cols.take(ci + 1).drop_last() == cols.take(ci as int));
                assert(cols.take(ci + 1).last() == col@);
            }
            ci += 1;
        }
        assert(cols.take(columns.len() as int) == cols);
        if acc_n > 0 {
            let packed = Fr::pack3(acc[0], acc[1], acc[2]);
            vals3.push(packed);
        }
        assert(values(vals3@) =~= pack(flat));
        if vals3.len() == 0 {
            return Ok(Fr::zero());
        } else if vals3.len() == 1 {
            return Ok(vals3[0]);
        }
        self.absorb_all(&vals3)
    }

    /// The digest of one row of elements.
    pub fn hash_row(&self, row: &[u64]) -> (r: Result<ElementDigest, Error>)
        requires
            self.wf(),
        ensures
            match self.spec_leaf(row@) {
                Ok(d) => r.is_ok() && r.unwrap()@ == d,
                Err(e) => r == Err::<ElementDigest, Error>(e),
            },
            self.complete() ==> r.is_ok(),
    {
        proof {
            self.lemma_leaf(row@);
        }
        let mut column: Vec<u64> = Vec::new();
        let mut i: usize = 0;
        while i < row.len()
            invariant
                i <= row.len(),
                column@ == row@.take(i as int),
            decreases row.len() - i,
        {
            column.push(row[i]);
            assert(row@.take(i + 1) == row@.take(i as int).push(row@[i as int]));
            i += 1;
        }
        assert(row@.take(row.len() as int) == row@);
        let mut columns: Vec<Vec<u64>> = Vec::new();
        columns.push(column);
        assert(columns_view(columns@) =~= seq![row@]);
        match self.hash_element_matrix(&columns) {
            Ok(v) => {
                proof {
                    lemma_digest_of_view(v@);
                }
                Ok(ElementDigest::from(&v))
            },
            Err(e) => Err(e),
        }
    }

    /// Reduces a byte buffer, read as little-endian 64-bit elements, to a
    /// digest. Fails where the buffer is not made of whole elements.
    pub fn hash(&self, bytes: &[u8]) -> (r: Result<ElementDigest, Error>)
        requires
            self.wf(),
        ensures
            match self.spec_hash(bytes@) {
                Ok(d) => r.is_ok() && r.unwrap()@ == d,
                Err(e) => r == Err::<ElementDigest, Error>(e),
            },
            self.complete() ==> (r.is_ok() <==> bytes.len() % 8 == 0),
    {
        if bytes.len() % 8 != 0 {
            return Err(Error::ShapeMismatch);
        }
        let n: usize = bytes.len() / 8;
        let mut elems: Vec<u64> = Vec::new();
        let mut i: usize = 0;
        while i < n
            invariant
                i <= n,
                n == bytes.len() / 8,
                elems@ == words_of(bytes@).take(i as int),
            decreases n - i,
        {
            let word = vstd::slice::slice_subrange(bytes, 8 * i, 8 * i + 8);
            elems.push(vstd::bytes::u64_from_le_bytes(word));
            assert(words_of(bytes@).take(i + 1) == words_of(bytes@).take(
                i as int,
            ).push(words_of(bytes@)[i as int]));
            i += 1;
        }
        assert(words_of(bytes@).take(n as int) == words_of(bytes@));
        self.hash_row(elems.as_slice())
    }

    /// The digest of two digests, for the inner nodes of a Merkle tree. Fails
    /// where a digest does not denote a value of the outer field.
    pub fn merge(&self, values: &[ElementDigest; 2]) -> (r: Result<ElementDigest, Error>)
        requires
            self.wf(),
        ensures
            match self.spec_merge(values[0]@, values[1]@) {
                Ok(d) => r.is_ok() && r.unwrap()@ == d,
                Err(e) => r == Err::<ElementDigest, Error>(e),
            },
            self.complete() ==> (r.is_ok() <==> spec_to_bn128(values[0]@) is Ok && spec_to_bn128(
                values[1]@,
            ) is Ok),
    {
        proof {
            self.lemma_merge(values[0]@, values[1]@);
        }
        let a = match ElementDigest::to_BN128(&values[0].0) {
            Ok(x) => x,
            Err(e) => {
                return Err(e);
            },
        };
        let b = match ElementDigest::to_BN128(&values[1].0) {
            Ok(x) => x,
            Err(e) => {
                return Err(e);
            },
        };
        let mut inp: Vec<Fr> = Vec::new();
        inp.push(a);
        inp.push(b);
        assert(crate::poseidon_bn128::values(inp@) =~= seq![a@, b@]);
        let init_state = Fr::zero();
        match self.h.hash(&inp, &init_state) {
            Ok(v) => {
                proof {
                    lemma_digest_of_view(v@);
                }
                Ok(ElementDigest::from(&v))
            },
            Err(e) => Err(e),
        }
    }

    /// The digest of a digest and an integer is not offered: every call fails.
    pub fn merge_with_int(seed: ElementDigest, value: u64) -> (r: Result<ElementDigest, Error>)
        ensures
            r == Err::<ElementDigest, Error>(Error::UnsupportedOperation),
    {
        Err(Error::UnsupportedOperation)
    }
}

} // verus!
