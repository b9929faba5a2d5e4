//! Distributed point functions.
//!
//! A key pair shares the function that is `beta` on the prefixes of a secret
//! bit string `alpha` and zero elsewhere. Each server holds one key and can
//! evaluate its share of the function on any prefix; the two shares of one
//! prefix add up to the value of the function there.
//!
//! The model of a key is a [`KeyModel`]; what a key evaluates to is given by
//! [`state_at`] and [`share_at`], and what key generation produces by
//! [`gen_key`]. [`lemma_shares_recombine`] states that generated keys share
//! the point function.

use vstd::prelude::*;
use vstd::string::StringSliceAdditionalSpecFns;
use crate::bits::{bits_of_bytes, string_to_bits};
use crate::group::{add_mod, lemma_add_neg, lemma_recombine, neg_mod, sub_mod, Group};
use crate::prg::{
    convert_seed, convert_word, expand_bit, expand_seed, lemma_xor_cancel, xor_seq, PrgSeed,
};

verus! {

/// The public correction of one tree level.
#[derive(Debug)]
pub struct CorWord<T> {
    pub seed: PrgSeed,
    pub bits: (bool, bool),
    pub word: T,
}

impl<T: Copy> Clone for CorWord<T> {
    fn clone(&self) -> (r: Self)
        ensures
            r == *self,
    {
        *self
    }
}

impl<T: Copy> Copy for CorWord<T> {

}

/// One server's half of a shared point function.
#[derive(Debug)]
pub struct DPFKey<T> {
    pub key_idx: bool,
    pub root_seed: PrgSeed,
    pub cor_words: Vec<CorWord<T>>,
}

impl<T: Copy> Clone for DPFKey<T> {
    fn clone(&self) -> (r: Self)
        ensures
            r.key_idx == self.key_idx,
            r.root_seed == self.root_seed,
            r.cor_words@ == self.cor_words@,
    {
        let mut cor_words: Vec<CorWord<T>> = Vec::new();
        let mut i: usize = 0;
        while i < self.cor_words.len()
            invariant
                i <= self.cor_words.len(),
                cor_words@ == self.cor_words@.take(i as int),
            decreases self.cor_words.len() - i,
        {
            cor_words.push(self.cor_words[i]);
            assert(self.cor_words@.take(i as int).push(self.cor_words@[i as int])
                =~= self.cor_words@.take(i + 1));
            i += 1;
        }
        assert(self.cor_words@.take(i as int) =~= self.cor_words@);
        DPFKey { key_idx: self.key_idx, root_seed: self.root_seed, cor_words }
    }
}

/// Where an evaluation stands after it has walked some prefix.
#[derive(Clone, Copy, Debug)]
pub struct EvalState {
    pub level: usize,
    pub seed: PrgSeed,
    pub bit: bool,
}

/// Model of a correction word: its word is given as a residue.
pub struct CorWordModel {
    pub seed: Seq<u8>,
    pub bits: (bool, bool),
    pub word: nat,
}

/// Model of a key.
pub struct KeyModel {
    pub idx: bool,
    pub root: Seq<u8>,
    pub cws: Seq<CorWordModel>,
}

/// Model of an evaluation state: the seed and control bit of a tree node.
pub struct StateModel {
    pub seed: Seq<u8>,
    pub bit: bool,
}

/// The states of both parties at one node on the path of `alpha`.
pub struct PairModel {
    pub s0: StateModel,
    pub s1: StateModel,
}

/// The component of a pair of bits that belongs to direction `dir`.
pub open spec fn pick(bits: (bool, bool), dir: bool) -> bool {
    if dir {
        bits.1
    } else {
        bits.0
    }
}

/// The corrected seed of the child in direction `dir`, before conversion.
pub open spec fn step_seed(st: StateModel, cw: CorWordModel, dir: bool) -> Seq<u8> {
    let s = expand_seed(st.seed, dir);
    if st.bit {
        xor_seq(s, cw.seed)
    } else {
        s
    }
}

/// The control bit of the child in direction `dir`.
pub open spec fn step_bit(st: StateModel, cw: CorWordModel, dir: bool) -> bool {
    expand_bit(st.seed, dir) != (st.bit && pick(cw.bits, dir))
}

/// The state of the child in direction `dir`.
pub open spec fn step_state(st: StateModel, cw: CorWordModel, dir: bool) -> StateModel {
    StateModel { seed: convert_seed(step_seed(st, cw, dir)), bit: step_bit(st, cw, dir) }
}

/// The share that the party `idx` outputs at the child in direction `dir`,
/// in the group of residues modulo `m`.
pub open spec fn step_word(st: StateModel, cw: CorWordModel, dir: bool, idx: bool, m: nat) -> nat {
    let w = (convert_word(step_seed(st, cw, dir)) as nat) % m;
    let corrected = if step_bit(st, cw, dir) {
        add_mod(w, cw.word, m)
    } else {
        w
    };
    if idx {
        neg_mod(corrected, m)
    } else {
        corrected
    }
}

/// The state of the evaluation of `key` after it has walked `prefix`.
pub open spec fn state_at(key: KeyModel, prefix: Seq<bool>) -> StateModel
    decreases prefix.len(),
{
    if prefix.len() == 0 {
        StateModel { seed: key.root, bit: key.idx }
    } else {
        step_state(
            state_at(key, prefix.drop_last()),
            key.cws[prefix.len() - 1],
            prefix.last(),
        )
    }
}

/// The share of `key` at `prefix`, a residue modulo `m`. The empty prefix
/// carries no share; its value is zero.
pub open spec fn share_at(key: KeyModel, prefix: Seq<bool>, m: nat) -> nat {
    if prefix.len() == 0 {
        0
    } else {
        step_word(
            state_at(key, prefix.drop_last()),
            key.cws[prefix.len() - 1],
            prefix.last(),
            key.idx,
            m,
        )
    }
}

/// The shares of `key` at every non-empty prefix of `prefix`, shortest first:
/// entry `k` belongs to the first `k + 1` bits.
pub open spec fn eval_spec(key: KeyModel, prefix: Seq<bool>, m: nat) -> Seq<nat> {
    Seq::new(prefix.len(), |k: int| share_at(key, prefix.take(k + 1), m))
}

/// The seed and the bits of the correction word that key generation makes at
/// a node with party states `p` whose path continues with `a`.
pub open spec fn gen_mask(p: PairModel, a: bool) -> CorWordModel {
    CorWordModel {
        seed: xor_seq(expand_seed(p.s0.seed, !a), expand_seed(p.s1.seed, !a)),
        bits: (
            (expand_bit(p.s0.seed, false) != expand_bit(p.s1.seed, false)) == a,
            (expand_bit(p.s0.seed, true) != expand_bit(p.s1.seed, true)) != a,
        ),
        word: 0,
    }
}

/// The party states at the next node of the path.
pub open spec fn gen_next(p: PairModel, a: bool) -> PairModel {
    PairModel {
        s0: step_state(p.s0, gen_mask(p, a), a),
        s1: step_state(p.s1, gen_mask(p, a), a),
    }
}

/// The word of the correction word of a level with payload `beta`.
pub open spec fn gen_word(p: PairModel, a: bool, beta: nat, m: nat) -> nat {
    let mask = gen_mask(p, a);
    let w0 = (convert_word(step_seed(p.s0, mask, a)) as nat) % m;
    let w1 = (convert_word(step_seed(p.s1, mask, a)) as nat) % m;
    let w = add_mod(sub_mod(beta, w0, m), w1, m);
    if step_bit(p.s1, mask, a) {
        neg_mod(w, m)
    } else {
        w
    }
}

/// The correction word of a level.
pub open spec fn gen_cw(p: PairModel, a: bool, beta: nat, m: nat) -> CorWordModel {
    CorWordModel {
        seed: gen_mask(p, a).seed,
        bits: gen_mask(p, a).bits,
        word: gen_word(p, a, beta, m),
    }
}

/// The party states on the path of `alpha` after `i` levels, for the root
/// seeds `r0` and `r1`.
pub open spec fn gen_pair(r0: Seq<u8>, r1: Seq<u8>, alpha: Seq<bool>, i: nat) -> PairModel
    decreases i,
{
    if i == 0 {
        PairModel {
            s0: StateModel { seed: r0, bit: false },
            s1: StateModel { seed: r1, bit: true },
        }
    } else {
        gen_next(gen_pair(r0, r1, alpha, (i - 1) as nat), alpha[i - 1])
    }
}

/// The correction words of the key pair for `alpha` and `beta`.
pub open spec fn gen_cws(r0: Seq<u8>, r1: Seq<u8>, alpha: Seq<bool>, beta: nat, m: nat) -> Seq<
    CorWordModel,
> {
    Seq::new(
        alpha.len(),
        |i: int| gen_cw(gen_pair(r0, r1, alpha, i as nat), alpha[i], beta, m),
    )
}

/// The key of party `idx` in the pair that is generated from the root seeds
/// `r0` and `r1` for the point `alpha` and the payload `beta`.
pub open spec fn gen_key(idx: bool, r0: Seq<u8>, r1: Seq<u8>, alpha: Seq<bool>, beta: nat, m: nat)
    -> KeyModel {
    KeyModel { idx, root: if idx { r1 } else { r0 }, cws: gen_cws(r0, r1, alpha, beta, m) }
}

/// Whether `k0` and `k1` are the two keys that generation makes for `alpha`
/// and `beta` from some pair of root seeds.
pub open spec fn is_key_pair(k0: KeyModel, k1: KeyModel, alpha: Seq<bool>, beta: nat, m: nat)
    -> bool {
    exists|r0: Seq<u8>, r1: Seq<u8>|
        k0 == #[trigger] gen_key(false, r0, r1, alpha, beta, m) && k1 == #[trigger] gen_key(
            true,
            r0,
            r1,
            alpha,
            beta,
            m,
        )
}

/// Whether `p` is the prefix of `alpha` of its own length.
pub open spec fn on_path(alpha: Seq<bool>, p: Seq<bool>) -> bool {
    p.len() <= alpha.len() && p == alpha.take(p.len() as int)
}

/// On the path of `alpha` the two parties hold the states of generation, with
/// different control bits; off the path they hold the same state.
pub proof fn lemma_pair_states(
    r0: Seq<u8>,
    r1: Seq<u8>,
    alpha: Seq<bool>,
    beta: nat,
    m: nat,
    p: Seq<bool>,
)
    requires
        p.len() <= alpha.len(),
    ensures
        ({
            let k0 = gen_key(false, r0, r1, alpha, beta, m);
            let k1 = gen_key(true, r0, r1, alpha, beta, m);
            let g = gen_pair(r0, r1, alpha, p.len());
            if on_path(alpha, p) {
                state_at(k0, p) == g.s0 && state_at(k1, p) == g.s1 && g.s0.bit != g.s1.bit
            } else {
                state_at(k0, p) == state_at(k1, p)
            }
        }),
    decreases p.len(),
{
    let k0 = gen_key(false, r0, r1, alpha, beta, m);
    let k1 = gen_key(true, r0, r1, alpha, beta, m);
    if p.len() == 0 {
        assert(p =~= alpha.take(0));
    } else {
        let q = p.drop_last();
        let d = p.last();
        let i = q.len() as int;
        lemma_pair_states(r0, r1, alpha, beta, m, q);
        let g = gen_pair(r0, r1, alpha, q.len());
        let a = alpha[i];
        let cw = gen_cw(g, a, beta, m);
        assert(k0.cws[i] == cw);
        assert(k1.cws[i] == cw);
        assert(gen_pair(r0, r1, alpha, p.len()) == gen_next(g, a));
        if on_path(alpha, q) {
            if d == a {
                assert(p =~= alpha.take(p.len() as int));
            } else {
                assert(!on_path(alpha, p)) by {
                    if p == alpha.take(p.len() as int) {
                        assert(p[i] == alpha.take(p.len() as int)[i]);
                    }
                }
                lemma_xor_cancel(expand_seed(g.s0.seed, d), expand_seed(g.s1.seed, d));
                assert(step_seed(g.s0, cw, d) == step_seed(g.s1, cw, d));
                assert(step_bit(g.s0, cw, d) == step_bit(g.s1, cw, d));
            }
        } else {
            assert(!on_path(alpha, p)) by {
                if p == alpha.take(p.len() as int) {
                    assert(q =~= alpha.take(i));
                }
            }
        }
    }
}

/// The two keys of a generated pair share the point function: at every
/// non-empty prefix `p` no longer than `alpha`, the two shares add up to
/// `beta` if `p` is a prefix of `alpha`, and to zero if it is not.
pub proof fn lemma_shares_recombine(
    k0: KeyModel,
    k1: KeyModel,
    alpha: Seq<bool>,
    beta: nat,
    m: nat,
    p: Seq<bool>,
)
    requires
        is_key_pair(k0, k1, alpha, beta, m),
        m > 0,
        beta < m,
        1 <= p.len() <= alpha.len(),
    ensures
        add_mod(share_at(k0, p, m), share_at(k1, p, m), m) == if on_path(alpha, p) {
            beta
        } else {
            0
        },
{
    let (r0, r1) = choose|r0: Seq<u8>, r1: Seq<u8>|
        k0 == #[trigger] gen_key(false, r0, r1, alpha, beta, m) && k1 == #[trigger] gen_key(
            true,
            r0,
            r1,
            alpha,
            beta,
            m,
        );
    let q = p.drop_last();
    let d = p.last();
    let i = q.len() as int;
    lemma_pair_states(r0, r1, alpha, beta, m, q);
    lemma_pair_states(r0, r1, alpha, beta, m, p);
    let g = gen_pair(r0, r1, alpha, q.len());
    let a = alpha[i];
    let cw = gen_cw(g, a, beta, m);
    assert(k0.cws[i] == cw);
    assert(k1.cws[i] == cw);
    assert(gen_pair(r0, r1, alpha, p.len()) == gen_next(g, a));
    if on_path(alpha, p) {
        assert(on_path(alpha, q)) by {
            assert(q =~= alpha.take(i));
        }
        assert(d == a) by {
            assert(p[i] == alpha.take(p.len() as int)[i]);
        }
        let mask = gen_mask(g, a);
        let w0 = (convert_word(step_seed(g.s0, mask, a)) as nat) % m;
        let w1 = (convert_word(step_seed(g.s1, mask, a)) as nat) % m;
        vstd::arithmetic::div_mod::lemma_mod_bound(
            convert_word(step_seed(g.s0, mask, a)) as int,
            m as int,
        );
        vstd::arithmetic::div_mod::lemma_mod_bound(
            convert_word(step_seed(g.s1, mask, a)) as int,
            m as int,
        );
        lemma_recombine(beta, w0, w1, step_bit(g.s1, mask, a), m);
    } else {
        let s0 = state_at(k0, q);
        let s1 = state_at(k1, q);
        assert(step_seed(s0, cw, d) == step_seed(s1, cw, d) && step_bit(s0, cw, d) == step_bit(
            s1,
            cw,
            d,
        )) by {
            if on_path(alpha, q) {
                assert(d != a) by {
                    if d == a {
                        assert(p =~= alpha.take(p.len() as int));
                    }
                }
                lemma_xor_cancel(expand_seed(g.s0.seed, d), expand_seed(g.s1.seed, d));
            }
        }
        let x = step_word(s0, cw, d, false, m);
        vstd::arithmetic::div_mod::lemma_mod_bound(
            convert_word(step_seed(s0, cw, d)) as int,
            m as int,
        );
        vstd::arithmetic::div_mod::lemma_mod_bound(
            ((convert_word(step_seed(s0, cw, d)) as nat) % m + cw.word) as int,
            m as int,
        );
        lemma_add_neg(x, m);
    }
}

impl<T: Group> View for CorWord<T> {
    type V = CorWordModel;

    open spec fn view(&self) -> CorWordModel {
        CorWordModel { seed: self.seed@, bits: self.bits, word: self.word.val() }
    }
}

impl<T: Group> View for DPFKey<T> {
    type V = KeyModel;

    open spec fn view(&self) -> KeyModel {
        KeyModel {
            idx: self.key_idx,
            root: self.root_seed@,
            cws: Seq::new(self.cor_words@.len(), |i: int| self.cor_words@[i]@),
        }
    }
}

impl View for EvalState {
    type V = StateModel;

    open spec fn view(&self) -> StateModel {
        StateModel { seed: self.seed@, bit: self.bit }
    }
}

/// The states of both parties during key generation.
#[derive(Clone, Copy, Debug)]
pub struct GenState {
    pub seeds: (PrgSeed, PrgSeed),
    pub bits: (bool, bool),
}

impl View for GenState {
    type V = PairModel;

    open spec fn view(&self) -> PairModel {
        PairModel {
            s0: StateModel { seed: self.seeds.0@, bit: self.bits.0 },
            s1: StateModel { seed: self.seeds.1@, bit: self.bits.1 },
        }
    }
}

impl GenState {
    /// The states at the root: the two root seeds, and the control bits that
    /// tell the parties apart.
    pub fn root(root0: &PrgSeed, root1: &PrgSeed) -> (st: GenState)
        ensures
            forall|alpha: Seq<bool>| st@ == #[trigger] gen_pair(root0@, root1@, alpha, 0),
    {
        GenState { seeds: (*root0, *root1), bits: (false, true) }
    }

    /// Makes the correction word of the next level, where the path continues
    /// with the bit `a` and the payload is `beta`, and the states of both
    /// parties below it.
    pub fn level<T: Group>(&self, a: bool, beta: &T) -> (out: (CorWord<T>, GenState))
        requires
            beta.wf(),
        ensures
            out.0.word.wf(),
            out.0@ == gen_cw(self@, a, beta.val(), T::modulus()),
            out.1@ == gen_next(self@, a),
    {
        let e0 = self.seeds.0.expand();
        let e1 = self.seeds.1.expand();
        let cw_bits = ((e0.bits.0 != e1.bits.0) == a, (e0.bits.1 != e1.bits.1) != a);
        let (cw_seed, keep0, keep1, kb0, kb1, cwk) = if a {
            (e0.seeds.0.xor(&e1.seeds.0), e0.seeds.1, e1.seeds.1, e0.bits.1, e1.bits.1, cw_bits.1)
        } else {
            (e0.seeds.1.xor(&e1.seeds.1), e0.seeds.0, e1.seeds.0, e0.bits.0, e1.bits.0, cw_bits.0)
        };
        let s0 = if self.bits.0 {
            keep0.xor(&cw_seed)
        } else {
            keep0
        };
        let s1 = if self.bits.1 {
            keep1.xor(&cw_seed)
        } else {
            keep1
        };
        let t0 = kb0 != (self.bits.0 && cwk);
        let t1 = kb1 != (self.bits.1 && cwk);
        let (n0, w0) = s0.convert::<T>();
        let (n1, w1) = s1.convert::<T>();
        let mut word = *beta;
        word.sub(&w0);
        word.add(&w1);
        if t1 {
            word.negate();
        }
        (
            CorWord { seed: cw_seed, bits: cw_bits, word },
            GenState { seeds: (n0, n1), bits: (t0, t1) },
        )
    }
}

impl<T: Group> DPFKey<T> {
    /// Whether every correction word holds a valid group element.
    pub open spec fn wf(&self) -> bool {
        forall|i: int| 0 <= i < self.cor_words@.len() ==> (#[trigger] self.cor_words@[i]).word.wf()
    }

    /// The number of bits of the domain of the key.
    pub fn domain_size(&self) -> (n: usize)
        ensures
            n == self@.cws.len(),
    {
        self.cor_words.len()
    }

    /// The key pair for the point `alpha` and the payload `beta` that grows
    /// from the root seeds `root0` and `root1`.
    pub fn gen_from_seeds(alpha: &[bool], beta: T, root0: &PrgSeed, root1: &PrgSeed) -> (keys: (
        DPFKey<T>,
        DPFKey<T>,
    ))
        requires
            beta.wf(),
        ensures
            keys.0.wf(),
            keys.1.wf(),
            keys.0@ == gen_key(false, root0@, root1@, alpha@, beta.val(), T::modulus()),
            keys.1@ == gen_key(true, root0@, root1@, alpha@, beta.val(), T::modulus()),
            keys.0@.cws.len() == alpha@.len(),
            keys.1@.cws.len() == alpha@.len(),
    {
        let ghost m = T::modulus();
        let mut st = GenState::root(root0, root1);
        let mut cws0: Vec<CorWord<T>> = Vec::new();
        let mut cws1: Vec<CorWord<T>> = Vec::new();
        let mut i: usize = 0;
        while i < alpha.len()
            invariant
                i <= alpha@.len(),
                beta.wf(),
                m == T::modulus(),
                st@ == gen_pair(root0@, root1@, alpha@, i as nat),
                cws0@.len() == i,
                cws1@ == cws0@,
                forall|j: int|
                    0 <= j < i ==> (#[trigger] cws0@[j]).word.wf() && cws0@[j]@ == gen_cw(
                        gen_pair(root0@, root1@, alpha@, j as nat),
                        alpha@[j],
                        beta.val(),
                        m,
                    ),
            decreases alpha@.len() - i,
        {
            let (cw, next) = st.level(alpha[i], &beta);
            cws0.push(cw);
            cws1.push(cw);
            st = next;
            i += 1;
        }
        let k0 = DPFKey { key_idx: false, root_seed: *root0, cor_words: cws0 };
        let k1 = DPFKey { key_idx: true, root_seed: *root1, cor_words: cws1 };
        assert(k0@.cws =~= gen_cws(root0@, root1@, alpha@, beta.val(), m));
        assert(k1@.cws =~= gen_cws(root0@, root1@, alpha@, beta.val(), m));
        (k0, k1)
    }

    /// A key pair for the point `alpha` and the payload `beta`, from fresh
    /// random root seeds.
    pub fn gen(alpha: &[bool], beta: T) -> (keys: (DPFKey<T>, DPFKey<T>))
        requires
            beta.wf(),
        ensures
            keys.0.wf(),
            keys.1.wf(),
            is_key_pair(keys.0@, keys.1@, alpha@, beta.val(), T::modulus()),
            keys.0@.cws.len() == alpha@.len(),
            keys.1@.cws.len() == alpha@.len(),
    {
        let root0 = PrgSeed::random();
        let root1 = PrgSeed::random();
        Self::gen_from_seeds(alpha, beta, &root0, &root1)
    }

    /// A key pair that counts one for the bits of the string `s`.
    pub fn gen_from_str(s: &str) -> (keys: (DPFKey<T>, DPFKey<T>))
        ensures
            keys.0.wf(),
            keys.1.wf(),
            is_key_pair(keys.0@, keys.1@, bits_of_bytes(s.spec_bytes()), 1, T::modulus()),
            keys.0@.cws.len() == 8 * s.spec_bytes().len(),
            keys.1@.cws.len() == 8 * s.spec_bytes().len(),
    {
        let alpha = string_to_bits(s);
        Self::gen(alpha.as_slice(), T::one())
    }

    /// The state of an evaluation that has not walked any bit yet.
    pub fn eval_init(&self) -> (st: EvalState)
        ensures
            st.level == 0,
            st@ == state_at(self@, Seq::<bool>::empty()),
    {
        EvalState { level: 0, seed: self.root_seed, bit: self.key_idx }
    }

    /// Walks one bit further: from the state of a node to the state of its
    /// child in direction `dir`, and the share of the key at that child.
    pub fn eval_bit(&self, state: &EvalState, dir: bool) -> (out: (EvalState, T))
        requires
            self.wf(),
            state.level < self.cor_words@.len(),
        ensures
            out.0.level == state.level + 1,
            out.0@ == step_state(state@, self@.cws[state.level as int], dir),
            out.1.wf(),
            out.1.val() == step_word(
                state@,
                self@.cws[state.level as int],
                dir,
                self.key_idx,
                T::modulus(),
            ),
    {
        let depth = self.cor_words.len();
        assert(state.level < depth);
        let tau = state.seed.expand_dir(!dir, dir);
        let cw = &self.cor_words[state.level];
        let (expanded, expanded_bit, cw_bit) = if dir {
            (tau.seeds.1, tau.bits.1, cw.bits.1)
        } else {
            (tau.seeds.0, tau.bits.0, cw.bits.0)
        };
        let seed = if state.bit {
            expanded.xor(&cw.seed)
        } else {
            expanded
        };
        let bit = expanded_bit != (state.bit && cw_bit);
        let (next_seed, mut word) = seed.convert::<T>();
        if bit {
            word.add(&cw.word);
        }
        if self.key_idx {
            word.negate();
        }
        (EvalState { level: state.level + 1, seed: next_seed, bit }, word)
    }

    /// The shares of the key at every non-empty prefix of `prefix`, shortest
    /// first.
    pub fn eval(&self, prefix: &[bool]) -> (out: Vec<T>)
        requires
            self.wf(),
            prefix@.len() <= self.cor_words@.len(),
        ensures
            out@.len() == prefix@.len(),
            forall|k: int| 0 <= k < out@.len() ==> (#[trigger] out@[k]).wf(),
            out@.map_values(|w: T| w.val()) == eval_spec(self@, prefix@, T::modulus()),
    {
        let ghost m = T::modulus();
        let mut state = self.eval_init();
        let mut out: Vec<T> = Vec::new();
        let mut i: usize = 0;
        assert(prefix@.take(0) =~= Seq::<bool>::empty());
        while i < prefix.len()
            invariant
                i <= prefix@.len() <= self.cor_words@.len(),
                self.wf(),
                m == T::modulus(),
                state.level == i,
                state@ == state_at(self@, prefix@.take(i as int)),
                out@.len() == i,
                forall|k: int|
                    0 <= k < i ==> (#[trigger] out@[k]).wf() && out@[k].val() == share_at(
                        self@,
                        prefix@.take(k + 1),
                        m,
                    ),
            decreases prefix@.len() - i,
        {
            let (next, word) = self.eval_bit(&state, prefix[i]);
            proof {
                let p = prefix@.take(i + 1);
                assert(p.drop_last() =~= prefix@.take(i as int));
                assert(p.last() == prefix@[i as int]);
            }
            out.push(word);
            state = next;
            i += 1;
        }
        assert(out@.map_values(|w: T| w.val()) =~= eval_spec(self@, prefix@, m));
        out
    }
}

} // verus!
