//! Verifiable distributed point functions.
//!
//! A verifiable key is a point-function key with one correction hash for
//! every level. While it walks a prefix, each server folds the verification
//! material of the nodes it visits into a hash chain. For a key pair that was
//! generated honestly the two servers compute the same chain on every prefix
//! ([`lemma_hashes_agree`]); a pair that was made in another way gives itself
//! away by chains that differ.

use vstd::prelude::*;
use vstd::string::StringSliceAdditionalSpecFns;
use crate::bits::{bits_of_bytes, string_to_bits};
use crate::dpf::{
    eval_spec, gen_key, gen_pair, is_key_pair, lemma_pair_states, on_path, state_at, CorWord,
    DPFKey, EvalState, GenState, KeyModel, StateModel,
};
use crate::group::Group;
use crate::prg::{
    chain_hash, digest, hash_bytes, hash_pair, lemma_xor_cancel, proof_hash, window, xor_bytes,
    xor_seq, PrgSeed,
};

verus! {

/// One server's half of a shared point function, with the correction hashes
/// that make its evaluation verifiable.
#[derive(Debug)]
pub struct VIDPFKey<T> {
    pub key: DPFKey<T>,
    pub cs: Vec<[u8; 32]>,
}

impl<T: Copy> Clone for VIDPFKey<T> {
    fn clone(&self) -> (r: Self)
        ensures
            r.key.key_idx == self.key.key_idx,
            r.key.root_seed == self.key.root_seed,
            r.key.cor_words@ == self.key.cor_words@,
            r.cs@ == self.cs@,
    {
        let mut cs: Vec<[u8; 32]> = Vec::new();
        let mut i: usize = 0;
        while i < self.cs.len()
            invariant
                i <= self.cs.len(),
                cs@ == self.cs@.take(i as int),
            decreases self.cs.len() - i,
        {
            cs.push(self.cs[i]);
            assert(self.cs@.take(i as int).push(self.cs@[i as int]) =~= self.cs@.take(i + 1));
            i += 1;
        }
        assert(self.cs@.take(i as int) =~= self.cs@);
        VIDPFKey { key: self.key.clone(), cs }
    }
}

/// Model of a verifiable key.
pub struct VidpfModel {
    pub key: KeyModel,
    pub cs: Seq<Seq<u8>>,
}

/// The verification material that a party contributes at a node where it
/// holds the state `st`, under the correction hash `cs` of the node's level.
pub open spec fn node_proof(st: StateModel, cs: Seq<u8>) -> Seq<u8> {
    let h = proof_hash(st.seed);
    if st.bit {
        xor_seq(h, cs)
    } else {
        h
    }
}

/// The verification material of `vk` at the node of the non-empty `prefix`.
pub open spec fn proof_at(vk: VidpfModel, prefix: Seq<bool>) -> Seq<u8> {
    node_proof(state_at(vk.key, prefix), vk.cs[prefix.len() - 1])
}

/// The hash chain that starts at `pi` after it has taken in the nodes of every
/// non-empty prefix of `prefix`, shortest first.
pub open spec fn hash_after(vk: VidpfModel, prefix: Seq<bool>, pi: Seq<u8>) -> Seq<u8>
    decreases prefix.len(),
{
    if prefix.len() == 0 {
        pi
    } else {
        chain_hash(hash_after(vk, prefix.drop_last(), pi), proof_at(vk, prefix))
    }
}

/// The hash chain that starts at `pi` after the evaluation of each of
/// `prefixes` in turn.
pub open spec fn hash_after_all(vk: VidpfModel, prefixes: Seq<Seq<bool>>, pi: Seq<u8>) -> Seq<u8>
    decreases prefixes.len(),
{
    if prefixes.len() == 0 {
        pi
    } else {
        hash_after(vk, prefixes.last(), hash_after_all(vk, prefixes.drop_last(), pi))
    }
}

/// The value at which every hash chain starts.
pub open spec fn initial_hash_spec() -> Seq<u8> {
    window(digest(seq![0x30u8]), 0, 32)
}

/// The correction hashes of the key pair for `alpha` that grows from the
/// root seeds `r0` and `r1`.
pub open spec fn gen_cs(r0: Seq<u8>, r1: Seq<u8>, alpha: Seq<bool>) -> Seq<Seq<u8>> {
    Seq::new(
        alpha.len(),
        |i: int|
            {
                let g = gen_pair(r0, r1, alpha, (i + 1) as nat);
                xor_seq(proof_hash(g.s0.seed), proof_hash(g.s1.seed))
            },
    )
}

/// The verifiable key of party `idx` in the pair that is generated from the
/// root seeds `r0` and `r1` for the point `alpha` and the payload `beta`.
pub open spec fn gen_vkey(idx: bool, r0: Seq<u8>, r1: Seq<u8>, alpha: Seq<bool>, beta: nat, m: nat)
    -> VidpfModel {
    VidpfModel { key: gen_key(idx, r0, r1, alpha, beta, m), cs: gen_cs(r0, r1, alpha) }
}

/// Whether `k0` and `k1` are the two verifiable keys that generation makes
/// for `alpha` and `beta` from some pair of root seeds.
pub open spec fn is_vidpf_pair(k0: VidpfModel, k1: VidpfModel, alpha: Seq<bool>, beta: nat, m: nat)
    -> bool {
    exists|r0: Seq<u8>, r1: Seq<u8>|
        k0 == #[trigger] gen_vkey(false, r0, r1, alpha, beta, m) && k1 == #[trigger] gen_vkey(
            true,
            r0,
            r1,
            alpha,
            beta,
            m,
        )
}

/// The two halves of a verifiable pair hold the two keys of a pair of point
/// function keys, so that their shares recombine as those do.
pub proof fn lemma_vidpf_pair_is_key_pair(
    k0: VidpfModel,
    k1: VidpfModel,
    alpha: Seq<bool>,
    beta: nat,
    m: nat,
)
    requires
        is_vidpf_pair(k0, k1, alpha, beta, m),
    ensures
        is_key_pair(k0.key, k1.key, alpha, beta, m),
        k0.key.cws.len() == alpha.len(),
        k1.key.cws.len() == alpha.len(),
        k0.cs.len() == alpha.len(),
        k1.cs.len() == alpha.len(),
{
    let (r0, r1) = choose|r0: Seq<u8>, r1: Seq<u8>|
        k0 == #[trigger] gen_vkey(false, r0, r1, alpha, beta, m) && k1 == #[trigger] gen_vkey(
            true,
            r0,
            r1,
            alpha,
            beta,
            m,
        );
    assert(k0.key == gen_key(false, r0, r1, alpha, beta, m));
    assert(k1.key == gen_key(true, r0, r1, alpha, beta, m));
}

/// At every node the two keys of a generated pair contribute the same
/// verification material, on the path of `alpha` and off it.
pub proof fn lemma_proofs_agree(
    k0: VidpfModel,
    k1: VidpfModel,
    alpha: Seq<bool>,
    beta: nat,
    m: nat,
    p: Seq<bool>,
)
    requires
        is_vidpf_pair(k0, k1, alpha, beta, m),
        1 <= p.len() <= alpha.len(),
    ensures
        proof_at(k0, p) == proof_at(k1, p),
{
    let (r0, r1) = choose|r0: Seq<u8>, r1: Seq<u8>|
        k0 == #[trigger] gen_vkey(false, r0, r1, alpha, beta, m) && k1 == #[trigger] gen_vkey(
            true,
            r0,
            r1,
            alpha,
            beta,
            m,
        );
    lemma_pair_states(r0, r1, alpha, beta, m, p);
    if on_path(alpha, p) {
        let g = gen_pair(r0, r1, alpha, p.len());
        let i = p.len() - 1;
        assert(gen_cs(r0, r1, alpha)[i] == xor_seq(
            proof_hash(g.s0.seed),
            proof_hash(g.s1.seed),
        ));
        lemma_xor_cancel(proof_hash(g.s0.seed), proof_hash(g.s1.seed));
    }
}

/// Verification is sound for honest keys: the two keys of a generated pair
/// turn every hash chain into the same chain, on every prefix of the domain.
pub proof fn lemma_hashes_agree(
    k0: VidpfModel,
    k1: VidpfModel,
    alpha: Seq<bool>,
    beta: nat,
    m: nat,
    p: Seq<bool>,
    pi: Seq<u8>,
)
    requires
        is_vidpf_pair(k0, k1, alpha, beta, m),
        p.len() <= alpha.len(),
    ensures
        hash_after(k0, p, pi) == hash_after(k1, p, pi),
    decreases p.len(),
{
    if p.len() > 0 {
        lemma_hashes_agree(k0, k1, alpha, beta, m, p.drop_last(), pi);
        lemma_proofs_agree(k0, k1, alpha, beta, m, p);
    }
}

/// The two keys of a generated pair also agree after any sequence of
/// evaluations, each of which continues the chain of the one before.
pub proof fn lemma_hashes_agree_all(
    k0: VidpfModel,
    k1: VidpfModel,
    alpha: Seq<bool>,
    beta: nat,
    m: nat,
    prefixes: Seq<Seq<bool>>,
    pi: Seq<u8>,
)
    requires
        is_vidpf_pair(k0, k1, alpha, beta, m),
        forall|j: int| 0 <= j < prefixes.len() ==> (#[trigger] prefixes[j]).len() <= alpha.len(),
    ensures
        hash_after_all(k0, prefixes, pi) == hash_after_all(k1, prefixes, pi),
    decreases prefixes.len(),
{
    if prefixes.len() > 0 {
        lemma_hashes_agree_all(k0, k1, alpha, beta, m, prefixes.drop_last(), pi);
        lemma_hashes_agree(
            k0,
            k1,
            alpha,
            beta,
            m,
            prefixes.last(),
            hash_after_all(k0, prefixes.drop_last(), pi),
        );
    }
}

/// The value at which every hash chain starts: the hash of the character `0`.
pub fn initial_hash() -> (pi: [u8; 32])
    ensures
        pi@ == initial_hash_spec(),
{
    let input: [u8; 1] = [0x30u8];
    assert(input@ =~= seq![0x30u8]);
    let d = hash_bytes(input.as_slice());
    assert(d@ =~= window(d@, 0, 32));
    d
}

impl<T: Group> View for VIDPFKey<T> {
    type V = VidpfModel;

    open spec fn view(&self) -> VidpfModel {
        VidpfModel { key: self.key@, cs: Seq::new(self.cs@.len(), |i: int| self.cs@[i]@) }
    }
}

impl<T: Group> VIDPFKey<T> {
    /// Whether the key is well formed: its words are valid group elements and
    /// it has one correction hash for every level.
    pub open spec fn wf(&self) -> bool {
        self.key.wf() && self.cs@.len() == self.key.cor_words@.len()
    }

    /// The number of bits of the domain of the key.
    pub fn domain_size(&self) -> (n: usize)
        ensures
            n == self@.key.cws.len(),
    {
        self.key.domain_size()
    }

    /// The verifiable key pair for the point `alpha` and the payload `beta`
    /// that grows from the root seeds `root0` and `root1`.
    pub fn gen_from_seeds(alpha: &[bool], beta: T, root0: &PrgSeed, root1: &PrgSeed) -> (keys: (
        VIDPFKey<T>,
        VIDPFKey<T>,
    ))
        requires
            beta.wf(),
        ensures
            keys.0.wf(),
            keys.1.wf(),
            keys.0@ == gen_vkey(false, root0@, root1@, alpha@, beta.val(), T::modulus()),
            keys.1@ == gen_vkey(true, root0@, root1@, alpha@, beta.val(), T::modulus()),
            keys.0@.key.cws.len() == alpha@.len(),
            keys.1@.key.cws.len() == alpha@.len(),
    {
        let ghost m = T::modulus();
        let mut st = GenState::root(root0, root1);
        let mut cws0: Vec<CorWord<T>> = Vec::new();
        let mut cws1: Vec<CorWord<T>> = Vec::new();
        let mut cs0: Vec<[u8; 32]> = Vec::new();
        let mut cs1: Vec<[u8; 32]> = Vec::new();
        let mut i: usize = 0;
        while i < alpha.len()
            invariant
                i <= alpha@.len(),
                beta.wf(),
                m == T::modulus(),
                st@ == gen_pair(root0@, root1@, alpha@, i as nat),
                cws0@.len() == i,
                cws1@ == cws0@,
                cs0@.len() == i,
                cs1@ == cs0@,
                forall|j: int|
                    0 <= j < i ==> (#[trigger] cws0@[j]).word.wf() && cws0@[j]@
                        == crate::dpf::gen_cw(
                        gen_pair(root0@, root1@, alpha@, j as nat),
                        alpha@[j],
                        beta.val(),
                        m,
                    ),
                forall|j: int|
                    0 <= j < i ==> (#[trigger] cs0@[j])@ == gen_cs(root0@, root1@, alpha@)[j],
            decreases alpha@.len() - i,
        {
            let (cw, next) = st.level(alpha[i], &beta);
            let h0 = next.seeds.0.node_proof();
            let h1 = next.seeds.1.node_proof();
            let c = xor_bytes(&h0, &h1);
            cws0.push(cw);
            cws1.push(cw);
            cs0.push(c);
            cs1.push(c);
            st = next;
            i += 1;
        }
        let k0 = VIDPFKey {
            key: DPFKey { key_idx: false, root_seed: *root0, cor_words: cws0 },
            cs: cs0,
        };
        let k1 = VIDPFKey {
            key: DPFKey { key_idx: true, root_seed: *root1, cor_words: cws1 },
            cs: cs1,
        };
        assert(k0@.key.cws =~= crate::dpf::gen_cws(root0@, root1@, alpha@, beta.val(), m));
        assert(k1@.key.cws =~= crate::dpf::gen_cws(root0@, root1@, alpha@, beta.val(), m));
        assert(k0@.cs =~= gen_cs(root0@, root1@, alpha@));
        assert(k1@.cs =~= gen_cs(root0@, root1@, alpha@));
        (k0, k1)
    }

    /// A verifiable key pair for the point `alpha` and the payload `beta`,
    /// from fresh random root seeds.
    pub fn gen(alpha: &[bool], beta: T) -> (keys: (VIDPFKey<T>, VIDPFKey<T>))
        requires
            beta.wf(),
        ensures
            keys.0.wf(),
            keys.1.wf(),
            is_vidpf_pair(keys.0@, keys.1@, alpha@, beta.val(), T::modulus()),
            keys.0@.key.cws.len() == alpha@.len(),
            keys.1@.key.cws.len() == alpha@.len(),
    {
        let root0 = PrgSeed::random();
        let root1 = PrgSeed::random();
        Self::gen_from_seeds(alpha, beta, &root0, &root1)
    }

    /// A verifiable key pair that counts one for the bits of the string `s`.
    pub fn gen_from_str(s: &str) -> (keys: (VIDPFKey<T>, VIDPFKey<T>))
        ensures
            keys.0.wf(),
            keys.1.wf(),
            is_vidpf_pair(keys.0@, keys.1@, bits_of_bytes(s.spec_bytes()), 1, T::modulus()),
            keys.0@.key.cws.len() == 8 * s.spec_bytes().len(),
            keys.1@.key.cws.len() == 8 * s.spec_bytes().len(),
    {
        let alpha = string_to_bits(s);
        Self::gen(alpha.as_slice(), T::one())
    }

    /// The state of an evaluation that has not walked any bit yet.
    pub fn eval_init(&self) -> (st: EvalState)
        ensures
            st.level == 0,
            st@ == state_at(self@.key, Seq::<bool>::empty()),
    {
        self.key.eval_init()
    }

    /// Walks one bit further: from the state of a node to the state of its
    /// child in direction `dir`, the share of the key at that child, and the
    /// verification material of the key at that child.
    pub fn eval_bit(&self, state: &EvalState, dir: bool) -> (out: (EvalState, T, [u8; 32]))
        requires
            self.wf(),
            state.level < self.key.cor_words@.len(),
        ensures
            out.0.level == state.level + 1,
            out.0@ == crate::dpf::step_state(state@, self@.key.cws[state.level as int], dir),
            out.1.wf(),
            out.1.val() == crate::dpf::step_word(
                state@,
                self@.key.cws[state.level as int],
                dir,
                self.key.key_idx,
                T::modulus(),
            ),
            out.2@ == node_proof(out.0@, self@.cs[state.level as int]),
    {
        let (next, word) = self.key.eval_bit(state, dir);
        let h = next.seed.node_proof();
        let node = if next.bit {
            xor_bytes(&h, &self.cs[state.level])
        } else {
            h
        };
        (next, word, node)
    }

    /// The shares of the key at every non-empty prefix of `prefix`, shortest
    /// first, and the hash chain `pi` after it has taken in the nodes of those
    /// prefixes.
    pub fn eval(&self, prefix: &[bool], pi: &[u8; 32]) -> (out: (Vec<T>, [u8; 32]))
        requires
            self.wf(),
            prefix@.len() <= self.key.cor_words@.len(),
        ensures
            out.0@.len() == prefix@.len(),
            forall|k: int| 0 <= k < out.0@.len() ==> (#[trigger] out.0@[k]).wf(),
            out.0@.map_values(|w: T| w.val()) == eval_spec(self@.key, prefix@, T::modulus()),
            out.1@ == hash_after(self@, prefix@, pi@),
    {
        let ghost m = T::modulus();
        let mut state = self.eval_init();
        let mut values: Vec<T> = Vec::new();
        let mut hash: [u8; 32] = *pi;
        let mut i: usize = 0;
        assert(prefix@.take(0) =~= Seq::<bool>::empty());
        while i < prefix.len()
            invariant
                i <= prefix@.len() <= self.key.cor_words@.len(),
                self.wf(),
                m == T::modulus(),
                state.level == i,
                state@ == state_at(self@.key, prefix@.take(i as int)),
                hash@ == hash_after(self@, prefix@.take(i as int), pi@),
                values@.len() == i,
                forall|k: int|
                    0 <= k < i ==> (#[trigger] values@[k]).wf() && values@[k].val()
                        == crate::dpf::share_at(self@.key, prefix@.take(k + 1), m),
            decreases prefix@.len() - i,
        {
            let (next, word, node) = self.eval_bit(&state, prefix[i]);
            proof {
                let p = prefix@.take(i + 1);
                assert(p.drop_last() =~= prefix@.take(i as int));
                assert(p.last() == prefix@[i as int]);
            }
            hash = hash_pair(&hash, &node);
            values.push(word);
            state = next;
            i += 1;
        }
        assert(prefix@.take(i as int) =~= prefix@);
        assert(values@.map_values(|w: T| w.val()) =~= eval_spec(self@.key, prefix@, m));
        (values, hash)
    }
}

} // verus!
